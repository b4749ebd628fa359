//! Dictionaries: the values of a dictionary page, found by index.

use vstd::prelude::*;
use vstd::slice::slice_subrange;

use crate::error::{Layout, ParquetError, ParquetResult};
use crate::page::DictPage;
use crate::slicer::{fixed_values, length_prefix, uniform, var_values};

verus! {

/// The number of indices that can find a value: the number of values, as far
/// as an index of 32 bits reaches.
pub open spec fn index_range(entries: Seq<Seq<u8>>) -> nat {
    if entries.len() <= u32::MAX {
        entries.len()
    } else {
        u32::MAX as nat
    }
}

/// The number of bytes of all values together.
pub open spec fn total_len(entries: Seq<Seq<u8>>) -> nat
    decreases entries.len(),
{
    if entries.len() == 0 {
        0
    } else {
        total_len(entries.drop_last()) + entries.last().len()
    }
}

/// The mean length of the values of a dictionary that has any, rounded down.
pub open spec fn mean_len(entries: Seq<Seq<u8>>) -> nat
    recommends
        entries.len() > 0,
{
    total_len(entries) / entries.len()
}

/// The values of a dictionary.
pub trait DictDecoder {
    /// Whether the dictionary is well formed.
    spec fn wf(&self) -> bool;

    /// The values, in the order of their indices.
    spec fn entries(&self) -> Seq<Seq<u8>>;

    /// The value at `index`.
    fn get_dict_value(&self, index: u32) -> (v: &[u8])
        requires
            self.wf(),
            index < index_range(self.entries()),
        ensures
            v@ == self.entries()[index as int],
    ;

    /// A hint for how much room a value takes: the mean length of the values
    /// where the dictionary has any. What an empty dictionary says is up to
    /// its kind.
    fn avg_key_len(&self) -> (n: usize)
        requires
            self.wf(),
        ensures
            self.entries().len() > 0 ==> n == mean_len(self.entries()),
    ;

    /// The number of indices that find a value.
    fn len(&self) -> (n: u32)
        requires
            self.wf(),
        ensures
            n == index_range(self.entries()),
    ;
}

/// Values of one size take that size times their number.
proof fn lemma_total_len_uniform(entries: Seq<Seq<u8>>, size: nat)
    requires
        uniform(entries, size),
    ensures
        total_len(entries) == entries.len() * size,
    decreases entries.len(),
{
    if entries.len() > 0 {
        let head = entries.drop_last();
        assert forall|k: int| 0 <= k < head.len() implies (#[trigger] head[k]).len() == size by {
            assert(head[k] == entries[k]);
        }
        lemma_total_len_uniform(head, size);
        assert((entries.len() - 1) * size + size == entries.len() * size) by (nonlinear_arith);
    } else {
        assert(0 * size == 0);
    }
}

/// Dictionary of values of one width, which is known when the page is read.
pub struct RuntimeFixedDictDecoder<'a> {
    dict_page: &'a [u8],
    value_size: usize,
}

/// The result of making a fixed dictionary of values of `value_size` bytes
/// over a page: the size must not be zero, and the buffer must hold as many
/// values as the page declares and no byte more.
pub open spec fn fixed_dict_result(dict_page: &DictPage, value_size: usize) -> ParquetResult<()> {
    if value_size == 0 {
        Err(ParquetError::Layout(Layout::DictValueSize))
    } else if value_size * dict_page.num_values != dict_page.buffer@.len() {
        Err(ParquetError::Layout(Layout::DictPageSize { value_size }))
    } else {
        Ok(())
    }
}

impl<'a> RuntimeFixedDictDecoder<'a> {
    /// A dictionary over `dict_page`, whose values have `value_size` bytes.
    pub fn try_new(dict_page: &'a DictPage, value_size: usize) -> (r: ParquetResult<Self>)
        ensures
            r is Ok <==> fixed_dict_result(dict_page, value_size) is Ok,
            r is Err ==> fixed_dict_result(dict_page, value_size) == Err::<(), ParquetError>(
                r->Err_0,
            ),
            r is Ok ==> {
                &&& r->Ok_0.wf()
                &&& r->Ok_0.entries() == fixed_values(
                    dict_page.buffer@,
                    dict_page.num_values as nat,
                    value_size as nat,
                )
                &&& r->Ok_0.entries().len() == dict_page.num_values
                &&& uniform(r->Ok_0.entries(), value_size as nat)
                &&& r->Ok_0.size() == value_size
            },
    {
        if value_size == 0 {
            return Err(ParquetError::Layout(Layout::DictValueSize));
        }
        let total: usize = dict_page.buffer.len();
        let holds: bool = match value_size.checked_mul(dict_page.num_values) {
            Some(bytes) => bytes == total,
            None => false,
        };
        if !holds {
            return Err(ParquetError::Layout(Layout::DictPageSize { value_size }));
        }
        let d = RuntimeFixedDictDecoder { dict_page: dict_page.buffer.as_slice(), value_size };
        proof {
            let n = dict_page.num_values as nat;
            let size = value_size as nat;
            assert(n * size == value_size * dict_page.num_values) by (nonlinear_arith)
                requires
                    n == dict_page.num_values,
                    size == value_size,
            ;
            assert(d.dict_page@.len() / size == n) by (nonlinear_arith)
                requires
                    d.dict_page@.len() == n * size,
                    size > 0,
            ;
            assert(d.entries() =~= fixed_values(dict_page.buffer@, n, size));
            let entries = d.entries();
            assert forall|k: int| 0 <= k < entries.len() implies (#[trigger] entries[k]).len()
                == size by {
                assert((k + 1) * size <= n * size) by (nonlinear_arith)
                    requires
                        k < n,
                ;
                assert((k + 1) * size == k * size + size) by (nonlinear_arith);
                assert(0 <= k * size) by (nonlinear_arith)
                    requires
                        0 <= k,
                ;
            }
        }
        Ok(d)
    }

    /// The number of bytes of a value.
    pub closed spec fn size(&self) -> usize {
        self.value_size
    }

    /// The number of values.
    closed spec fn count(&self) -> nat {
        self.dict_page@.len() / (self.value_size as nat)
    }
}

impl<'a> DictDecoder for RuntimeFixedDictDecoder<'a> {
    closed spec fn wf(&self) -> bool {
        &&& self.value_size > 0
        &&& self.count() * self.value_size == self.dict_page@.len()
    }

    closed spec fn entries(&self) -> Seq<Seq<u8>> {
        Seq::new(
            self.count(),
            |k: int|
                self.dict_page@.subrange(
                    k * self.value_size,
                    k * self.value_size + self.value_size,
                ),
        )
    }

    fn get_dict_value(&self, index: u32) -> (v: &[u8]) {
        let total: usize = self.dict_page.len();
        proof {
            let n = self.count();
            assert((index + 1) * self.value_size <= n * self.value_size) by (nonlinear_arith)
                requires
                    index < n,
            ;
            assert((index + 1) * self.value_size == index * self.value_size + self.value_size)
                by (nonlinear_arith);
        }
        let start: usize = index as usize * self.value_size;
        let end: usize = start + self.value_size;
        slice_subrange(self.dict_page, start, end)
    }

    /// The size of a value, also where the dictionary has none.
    fn avg_key_len(&self) -> (n: usize)
        ensures
            n == self.size(),
    {
        proof {
            let entries = self.entries();
            let size = self.value_size as nat;
            assert forall|k: int| 0 <= k < entries.len() implies (#[trigger] entries[k]).len()
                == size by {
                assert((k + 1) * size <= self.count() * size) by (nonlinear_arith)
                    requires
                        k < self.count(),
                ;
                assert((k + 1) * size == k * size + size) by (nonlinear_arith);
                assert(0 <= k * size) by (nonlinear_arith)
                    requires
                        0 <= k,
                ;
            }
            lemma_total_len_uniform(entries, size);
            if entries.len() > 0 {
                assert((entries.len() * size) / entries.len() == size) by (nonlinear_arith)
                    requires
                        entries.len() > 0,
                ;
            }
        }
        self.value_size
    }

    fn len(&self) -> (n: u32) {
        let count: usize = self.dict_page.len() / self.value_size;
        if count > u32::MAX as usize {
            u32::MAX
        } else {
            count as u32
        }
    }
}

/// Dictionary of values of varying length: each is four bytes of length and
/// then that many bytes.
pub struct VarDictDecoder<'a> {
    dict_page: &'a [u8],
    starts: Vec<usize>,
    ends: Vec<usize>,
    total: usize,
}

/// The result of making a dictionary of byte arrays over a page: the buffer
/// must hold as many values as the page declares.
pub open spec fn var_dict_result(dict_page: &DictPage) -> ParquetResult<()> {
    if var_values(dict_page.buffer@, 0, dict_page.num_values as nat).len() < dict_page.num_values {
        Err(ParquetError::Layout(Layout::DictTruncated))
    } else {
        Ok(())
    }
}

/// Whether the bytes of `data` from `start` to `end` are the value `entry`.
pub open spec fn spans(data: Seq<u8>, start: usize, end: usize, entry: Seq<u8>) -> bool {
    &&& start <= end
    &&& end <= data.len()
    &&& data.subrange(start as int, end as int) == entry
}

/// The values never number more than `limit`.
pub proof fn lemma_var_values_len(data: Seq<u8>, pos: int, limit: nat)
    ensures
        var_values(data, pos, limit).len() <= limit,
    decreases limit,
{
    if limit == 0 || pos < 0 || pos + 4 > data.len() || pos + 4 + length_prefix(data, pos)
        > data.len() {
    } else {
        lemma_var_values_len(data, pos + 4 + length_prefix(data, pos), (limit - 1) as nat);
    }
}

impl<'a> VarDictDecoder<'a> {
    /// A dictionary over `dict_page`.
    pub fn try_new(dict_page: &'a DictPage) -> (r: ParquetResult<Self>)
        ensures
            r is Ok <==> var_dict_result(dict_page) is Ok,
            r is Err ==> var_dict_result(dict_page) == Err::<(), ParquetError>(r->Err_0),
            r is Ok ==> {
                &&& r->Ok_0.wf()
                &&& r->Ok_0.entries() == var_values(
                    dict_page.buffer@,
                    0,
                    dict_page.num_values as nat,
                )
                &&& r->Ok_0.entries().len() == dict_page.num_values
            },
    {
        let data: &[u8] = dict_page.buffer.as_slice();
        let num: usize = dict_page.num_values;
        let size: usize = data.len();
        let ghost all = var_values(data@, 0, num as nat);
        let mut starts: Vec<usize> = Vec::new();
        let mut ends: Vec<usize> = Vec::new();
        let mut total: usize = 0;
        let mut pos: usize = 0;
        let mut k: usize = 0;
        proof {
            lemma_var_values_len(data@, 0, num as nat);
            assert(all.skip(0) == all);
            assert(all.take(0).len() == 0);
        }
        while k < num
            invariant
                k <= num,
                k <= all.len(),
                all.len() <= num,
                pos <= size,
                size == data@.len(),
                data@ == dict_page.buffer@,
                num == dict_page.num_values,
                total <= pos,
                all == var_values(data@, 0, num as nat),
                var_values(data@, pos as int, (num - k) as nat) == all.skip(k as int),
                starts@.len() == k,
                ends@.len() == k,
                total == total_len(all.take(k as int)),
                forall|i: int|
                    0 <= i < k ==> spans(data@, starts@[i], ends@[i], #[trigger] all[i]),
            decreases num - k,
        {
            let ghost rest = var_values(data@, pos as int, (num - k) as nat);
            assert(rest.len() == all.len() - k);
            if size - pos < 4 {
                assert(rest.len() == 0);
                return Err(ParquetError::Layout(Layout::DictTruncated));
            }
            let b0: u64 = data[pos] as u64;
            let b1: u64 = data[pos + 1] as u64;
            let b2: u64 = data[pos + 2] as u64;
            let b3: u64 = data[pos + 3] as u64;
            let len: u64 = b0 + 256 * b1 + 65536 * b2 + 16777216 * b3;
            if len > (size - pos - 4) as u64 {
                assert(rest.len() == 0);
                return Err(ParquetError::Layout(Layout::DictTruncated));
            }
            let start: usize = pos + 4;
            let end: usize = start + len as usize;
            proof {
                let tail = var_values(data@, end as int, (num - k - 1) as nat);
                let first = seq![data@.subrange(start as int, end as int)];
                assert(rest == first + tail);
                assert(rest.len() >= first.len());
                assert(rest[0] == all[k as int]);
                assert(rest.skip(1) == tail);
                assert(all.skip(k as int).skip(1) == all.skip(k + 1));
                assert(all.take(k + 1).drop_last() == all.take(k as int));
                assert(all.take(k + 1).last() == all[k as int]);
            }
            let ghost starts_before = starts@;
            let ghost ends_before = ends@;
            starts.push(start);
            ends.push(end);
            proof {
                assert forall|i: int| 0 <= i < k + 1 implies spans(
                    data@,
                    starts@[i],
                    ends@[i],
                    #[trigger] all[i],
                ) by {
                    if i < k {
                        assert(starts@[i] == starts_before[i]);
                        assert(ends@[i] == ends_before[i]);
                        assert(spans(data@, starts_before[i], ends_before[i], all[i]));
                    }
                }
            }
            total = total + len as usize;
            pos = end;
            k += 1;
        }
        let d = VarDictDecoder { dict_page: data, starts, ends, total };
        proof {
            assert(all.take(k as int) == all);
            assert(d.entries() == all);
            assert forall|i: int| 0 <= i < d.starts@.len() implies spans(
                d.dict_page@,
                d.starts@[i],
                d.ends@[i],
                #[trigger] d.entries()[i],
            ) by {
                assert(spans(data@, starts@[i], ends@[i], all[i]));
            }
        }
        Ok(d)
    }
}

impl<'a> DictDecoder for VarDictDecoder<'a> {
    closed spec fn wf(&self) -> bool {
        &&& self.starts@.len() == self.ends@.len()
        &&& self.entries().len() == self.starts@.len()
        &&& self.total == total_len(self.entries())
        &&& forall|i: int|
            0 <= i < self.starts@.len() ==> spans(
                self.dict_page@,
                self.starts@[i],
                self.ends@[i],
                #[trigger] self.entries()[i],
            )
    }

    closed spec fn entries(&self) -> Seq<Seq<u8>> {
        var_values(self.dict_page@, 0, self.starts@.len())
    }

    fn get_dict_value(&self, index: u32) -> (v: &[u8]) {
        let i: usize = index as usize;
        assert(spans(
            self.dict_page@,
            self.starts@[i as int],
            self.ends@[i as int],
            self.entries()[i as int],
        ));
        slice_subrange(self.dict_page, self.starts[i], self.ends[i])
    }

    /// The mean length of the values, and zero where the dictionary has none.
    fn avg_key_len(&self) -> (n: usize)
        ensures
            self.entries().len() == 0 ==> n == 0,
    {
        let count: usize = self.starts.len();
        if count == 0 {
            0
        } else {
            self.total / count
        }
    }

    fn len(&self) -> (n: u32) {
        let count: usize = self.starts.len();
        if count > u32::MAX as usize {
            u32::MAX
        } else {
            count as u32
        }
    }
}

} // verus!
