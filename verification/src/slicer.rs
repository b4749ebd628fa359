//! Slicers: the values of a page, handed out one after the other.

use vstd::prelude::*;
use vstd::slice::slice_subrange;

use crate::error::{Layout, ParquetError, ParquetResult};

verus! {

/// What a slicer stands for: all the values it was made over, a mark on each
/// value that stands in for one it could not find, how many values it has
/// handed out or passed over, and whether it has handed out a marked one.
pub struct SlicerModel {
    pub values: Seq<Seq<u8>>,
    pub flags: Seq<bool>,
    pub cursor: nat,
    pub deferred: bool,
}

impl SlicerModel {
    /// Whether each value has its mark and the cursor lies within the values.
    pub open spec fn wf(self) -> bool {
        &&& self.flags.len() == self.values.len()
        &&& self.cursor <= self.values.len()
    }

    /// The model after `count` values were passed over.
    pub open spec fn skipped(self, count: nat) -> SlicerModel {
        SlicerModel {
            cursor: if self.cursor + count <= self.values.len() {
                self.cursor + count
            } else {
                self.values.len()
            },
            ..self
        }
    }

    /// The model after the next value was handed out.
    pub open spec fn advanced(self) -> SlicerModel {
        SlicerModel {
            cursor: self.cursor + 1,
            deferred: self.deferred || self.flags[self.cursor as int],
            ..self
        }
    }
}

/// Whether each value has `n` bytes.
pub open spec fn uniform(values: Seq<Seq<u8>>, n: nat) -> bool {
    forall|k: int| 0 <= k < values.len() ==> (#[trigger] values[k]).len() == n
}

/// The error that a slicer holds back until the page is done.
pub open spec fn deferred_result(deferred: bool) -> ParquetResult<()> {
    if deferred {
        Err(ParquetError::Layout(Layout::DictIndexOutOfRange))
    } else {
        Ok(())
    }
}

/// A sequence of byte slices that is walked once, front to back.
pub trait DataPageSlicer {
    /// Whether the slicer is well formed.
    spec fn wf(&self) -> bool;

    /// What the slicer stands for.
    spec fn model(&self) -> SlicerModel;

    /// A well-formed slicer stands for a well-formed model.
    proof fn lemma_wf(&self)
        requires
            self.wf(),
        ensures
            self.model().wf(),
    ;

    /// Whether a value is left.
    fn has_next(&self) -> (b: bool)
        requires
            self.wf(),
        ensures
            b == (self.model().cursor < self.model().values.len()),
    ;

    /// Hands out the next value.
    fn next(&mut self) -> (v: &[u8])
        requires
            old(self).wf(),
            old(self).model().cursor < old(self).model().values.len(),
        ensures
            final(self).wf(),
            final(self).model() == old(self).model().advanced(),
            v@ == old(self).model().values[old(self).model().cursor as int],
    ;

    /// Passes over `count` values, or over those that are left if they are
    /// fewer.
    fn skip(&mut self, count: usize)
        requires
            old(self).wf(),
        ensures
            final(self).wf(),
            final(self).model() == old(self).model().skipped(count as nat),
    ;

    /// The error held back so far.
    fn result(&self) -> (r: ParquetResult<()>)
        requires
            self.wf(),
        ensures
            r == deferred_result(self.model().deferred),
    ;
}

/// The values of a plain page of fixed width: value `k` is the bytes from
/// `k * size` to `(k + 1) * size`. There are as many as the buffer holds in
/// full, `count` at most.
pub open spec fn fixed_values(data: Seq<u8>, count: nat, size: nat) -> Seq<Seq<u8>> {
    Seq::new(fixed_len(data, count, size), |k: int| data.subrange(k * size, k * size + size))
}

/// The number of values of a plain page of fixed width.
pub open spec fn fixed_len(data: Seq<u8>, count: nat, size: nat) -> nat {
    if size == 0 || count * size <= data.len() {
        count
    } else {
        (data.len() / size) as nat
    }
}

/// No value is marked.
pub open spec fn no_flags(n: nat) -> Seq<bool> {
    Seq::new(n, |k: int| false)
}

/// A fresh slicer over `values`, none of which is marked.
pub open spec fn plain_source(values: Seq<Seq<u8>>) -> SlicerModel {
    SlicerModel { values, flags: no_flags(values.len()), cursor: 0, deferred: false }
}

/// Slicer over a plain page of values of one width.
pub struct DataPageDynSlicer<'a> {
    data: &'a [u8],
    pos: usize,
    limit: usize,
    data_size: usize,
}

impl<'a> DataPageDynSlicer<'a> {
    /// A slicer over `data`, which is declared to hold `row_count` values of
    /// `data_size` bytes.
    pub fn new(data: &'a [u8], row_count: usize, data_size: usize) -> (s: Self)
        ensures
            s.wf(),
            s.model() == plain_source(fixed_values(data@, row_count as nat, data_size as nat)),
            uniform(s.model().values, data_size as nat),
    {
        let limit: usize = if data_size == 0 {
            assert(row_count * data_size == 0) by (nonlinear_arith)
                requires
                    data_size == 0,
            ;
            row_count
        } else {
            let whole: usize = data.len() / data_size;
            if row_count <= whole {
                proof {
                    assert(row_count * data_size <= data@.len()) by (nonlinear_arith)
                        requires
                            row_count <= whole,
                            whole == data@.len() / (data_size as nat),
                            data_size > 0,
                    ;
                }
                row_count
            } else {
                proof {
                    assert(row_count * data_size > data@.len()) by (nonlinear_arith)
                        requires
                            row_count > whole,
                            whole == data@.len() / (data_size as nat),
                            data_size > 0,
                    ;
                    assert(whole * data_size <= data@.len()) by (nonlinear_arith)
                        requires
                            whole == data@.len() / (data_size as nat),
                            data_size > 0,
                    ;
                }
                whole
            }
        };
        let s = DataPageDynSlicer { data, pos: 0, limit, data_size };
        proof {
            assert(s.model().values =~= fixed_values(data@, row_count as nat, data_size as nat));
            assert forall|k: int| 0 <= k < s.model().values.len() implies (
            #[trigger] s.model().values[k]).len() == data_size as nat by {
                assert((k + 1) * data_size <= limit * data_size) by (nonlinear_arith)
                    requires
                        k < limit,
                ;
                assert((k + 1) * data_size == k * data_size + data_size) by (nonlinear_arith);
                assert(0 <= k * data_size) by (nonlinear_arith)
                    requires
                        0 <= k,
                ;
            }
        }
        s
    }
}

impl<'a> DataPageSlicer for DataPageDynSlicer<'a> {
    closed spec fn wf(&self) -> bool {
        &&& self.pos <= self.limit
        &&& self.limit * self.data_size <= self.data@.len()
    }

    closed spec fn model(&self) -> SlicerModel {
        SlicerModel {
            values: Seq::new(
                self.limit as nat,
                |k: int|
                    self.data@.subrange(k * self.data_size, k * self.data_size + self.data_size),
            ),
            flags: no_flags(self.limit as nat),
            cursor: self.pos as nat,
            deferred: false,
        }
    }

    proof fn lemma_wf(&self) {
    }

    fn has_next(&self) -> (b: bool) {
        self.pos < self.limit
    }

    fn next(&mut self) -> (v: &[u8]) {
        proof {
            assert((self.pos + 1) * self.data_size <= self.limit * self.data_size)
                by (nonlinear_arith)
                requires
                    self.pos < self.limit,
            ;
            assert((self.pos + 1) * self.data_size == self.pos * self.data_size + self.data_size)
                by (nonlinear_arith);
        }
        let total: usize = self.data.len();
        assert(self.limit * self.data_size <= total);
        let start: usize = self.pos * self.data_size;
        let v = slice_subrange(self.data, start, start + self.data_size);
        self.pos = self.pos + 1;
        v
    }

    fn skip(&mut self, count: usize) {
        if count >= self.limit - self.pos {
            self.pos = self.limit;
        } else {
            self.pos = self.pos + count;
        }
    }

    fn result(&self) -> (r: ParquetResult<()>) {
        Ok(())
    }
}

/// The length that the four bytes at `pos` give, little-endian.
pub open spec fn length_prefix(data: Seq<u8>, pos: int) -> nat {
    (data[pos] as nat + 256 * data[pos + 1] as nat + 65536 * data[pos + 2] as nat + 16777216
        * data[pos + 3] as nat) as nat
}

/// The values of a plain page of byte arrays from byte `pos` on: each is four
/// bytes of length and then that many bytes. They end after `limit` values, or
/// where the buffer does not hold another value in full.
pub open spec fn var_values(data: Seq<u8>, pos: int, limit: nat) -> Seq<Seq<u8>>
    decreases limit,
{
    if limit == 0 || pos < 0 || pos + 4 > data.len() || pos + 4 + length_prefix(data, pos)
        > data.len() {
        Seq::empty()
    } else {
        seq![data.subrange(pos + 4, pos + 4 + length_prefix(data, pos))] + var_values(
            data,
            pos + 4 + length_prefix(data, pos),
            (limit - 1) as nat,
        )
    }
}

/// Slicer over a plain page of byte arrays.
pub struct PlainVarSlicer<'a> {
    data: &'a [u8],
    pos: usize,
    taken: usize,
    row_count: usize,
}

impl<'a> PlainVarSlicer<'a> {
    /// A slicer over `data`, which is declared to hold `row_count` values.
    pub fn new(data: &'a [u8], row_count: usize) -> (s: Self)
        ensures
            s.wf(),
            s.model() == plain_source(var_values(data@, 0, row_count as nat)),
    {
        let s = PlainVarSlicer { data, pos: 0, taken: 0, row_count };
        assert(s.all().skip(0) == s.all());
        s
    }

    /// All values of the page.
    closed spec fn all(&self) -> Seq<Seq<u8>> {
        var_values(self.data@, 0, self.row_count as nat)
    }

    /// The values not yet handed out.
    closed spec fn rest(&self) -> Seq<Seq<u8>> {
        var_values(self.data@, self.pos as int, (self.row_count - self.taken) as nat)
    }

    /// The length of the value at the current position.
    fn next_len(&self) -> (len: usize)
        requires
            self.pos + 4 <= self.data@.len(),
        ensures
            len == length_prefix(self.data@, self.pos as int),
    {
        let b0: u64 = self.data[self.pos] as u64;
        let b1: u64 = self.data[self.pos + 1] as u64;
        let b2: u64 = self.data[self.pos + 2] as u64;
        let b3: u64 = self.data[self.pos + 3] as u64;
        let len: u64 = b0 + 256 * b1 + 65536 * b2 + 16777216 * b3;
        len as usize
    }
}

impl<'a> DataPageSlicer for PlainVarSlicer<'a> {
    closed spec fn wf(&self) -> bool {
        &&& self.taken <= self.row_count
        &&& self.taken <= self.all().len()
        &&& self.pos <= self.data@.len()
        &&& self.rest() == self.all().skip(self.taken as int)
    }

    closed spec fn model(&self) -> SlicerModel {
        SlicerModel {
            values: self.all(),
            flags: no_flags(self.all().len()),
            cursor: self.taken as nat,
            deferred: false,
        }
    }

    proof fn lemma_wf(&self) {
    }

    fn has_next(&self) -> (b: bool) {
        if self.taken >= self.row_count {
            return false;
        }
        if self.data.len() - self.pos < 4 {
            return false;
        }
        let len: usize = self.next_len();
        let b: bool = len <= self.data.len() - self.pos - 4;
        proof {
            assert(self.rest().len() == self.all().len() - self.taken);
            if b {
                let first = seq![
                    self.data@.subrange(self.pos + 4, self.pos + 4 + len),
                ];
                assert(self.rest().len() >= first.len());
            }
        }
        b
    }

    fn next(&mut self) -> (v: &[u8]) {
        let total: usize = self.data.len();
        let ghost before = self.rest();
        assert(before.len() == self.all().len() - self.taken);
        assert(self.pos + 4 + length_prefix(self.data@, self.pos as int) <= total);
        let len: usize = self.next_len();
        let start: usize = self.pos + 4;
        let v = slice_subrange(self.data, start, start + len);
        self.pos = start + len;
        self.taken = self.taken + 1;
        proof {
            assert(before.skip(1) == self.rest());
            assert(self.all().skip(self.taken - 1).skip(1) == self.all().skip(self.taken as int));
            assert(v@ == before[0]);
        }
        v
    }

    fn skip(&mut self, count: usize) {
        let mut left: usize = count;
        while left > 0 && self.has_next()
            invariant
                self.wf(),
                left <= count,
                self.model() == old(self).model().skipped((count - left) as nat),
                left > 0 && self.model().cursor == self.model().values.len() ==> self.model()
                    == old(self).model().skipped(count as nat),
            decreases left,
        {
            let _ = self.next();
            left = left - 1;
        }
    }

    fn result(&self) -> (r: ParquetResult<()>) {
        Ok(())
    }
}

} // verus!
