//! The index stream of a dictionary-encoded page, and the slicer that finds
//! the value of each index in a dictionary.
//!
//! The stream begins with one byte that gives the bit width of an index. The
//! runs of the indices follow.

use vstd::prelude::*;

use crate::dict_decoder::{index_range, DictDecoder};
use crate::error::{Layout, ParquetError, ParquetResult};
use crate::hybrid_rle::{at_most, decode_runs, hybrid_runs, repeat_into, repeated};
use crate::slicer::{DataPageSlicer, SlicerModel};

verus! {

/// The indices of a page, `limit` of them at most. `None` where the stream is
/// malformed: it is empty, its bit width is above 32, or its runs cannot be
/// read. With bit width zero each index is zero and there are no runs.
pub open spec fn index_stream(buf: Seq<u8>, limit: nat) -> Option<Seq<u32>> {
    if buf.len() == 0 || buf[0] > 32 {
        None
    } else if buf[0] == 0 {
        Some(repeated(0, limit))
    } else {
        hybrid_runs(buf, 1, buf[0] as nat, limit)
    }
}

/// Decodes the index stream of a page, `limit` indices at most.
pub fn decode_indices(buf: &[u8], limit: usize) -> (r: ParquetResult<Vec<u32>>)
    ensures
        r is Ok <==> index_stream(buf@, limit as nat) is Some,
        r is Ok ==> r->Ok_0@ == index_stream(buf@, limit as nat)->0,
        r is Err ==> r->Err_0 == ParquetError::Layout(Layout::RleStream),
{
    if buf.len() == 0 {
        return Err(ParquetError::Layout(Layout::RleStream));
    }
    let width: u8 = buf[0];
    if width > 32 {
        return Err(ParquetError::Layout(Layout::RleStream));
    }
    if width == 0 {
        let mut out: Vec<u32> = Vec::new();
        repeat_into(&mut out, 0, limit);
        assert(Seq::<u32>::empty() + repeated(0, limit as nat) == repeated(0, limit as nat));
        return Ok(out);
    }
    match decode_runs(buf, 1, width, limit) {
        Some(out) => Ok(out),
        None => Err(ParquetError::Layout(Layout::RleStream)),
    }
}

/// The value that the index `index` finds in a dictionary, or `error_value`
/// where the dictionary has no such index.
pub open spec fn dict_value(entries: Seq<Seq<u8>>, index: u32, error_value: Seq<u8>) -> Seq<u8> {
    if index < index_range(entries) {
        entries[index as int]
    } else {
        error_value
    }
}

/// A fresh slicer over the values that `indices` find in a dictionary. An
/// index beyond the dictionary gives `error_value`, and its value is marked.
pub open spec fn dict_source(
    entries: Seq<Seq<u8>>,
    indices: Seq<u32>,
    error_value: Seq<u8>,
) -> SlicerModel {
    SlicerModel {
        values: Seq::new(indices.len(), |k: int| dict_value(entries, indices[k], error_value)),
        flags: Seq::new(indices.len(), |k: int| indices[k] >= index_range(entries)),
        cursor: 0,
        deferred: false,
    }
}

/// Slicer over a dictionary-encoded page. An index beyond the dictionary does
/// not stop the decode: the slicer hands out `error_value` in its place and
/// holds the error back until it is asked for its result.
pub struct RleDictionarySlicer<'b, T: DictDecoder> {
    dict: T,
    indices: Vec<u32>,
    pos: usize,
    error_value: &'b [u8],
    failed: bool,
}

impl<'b, T: DictDecoder> RleDictionarySlicer<'b, T> {
    /// A slicer over the index stream `buffer` and the dictionary `dict`. The
    /// page is declared to hold `row_count` values, of which `row_limit` at
    /// most will be asked for.
    pub fn try_new(
        buffer: &[u8],
        dict: T,
        row_limit: usize,
        row_count: usize,
        error_value: &'b [u8],
    ) -> (r: ParquetResult<Self>)
        requires
            dict.wf(),
        ensures
            r is Ok <==> index_stream(buffer@, at_most(row_limit as nat, row_count as nat)) is Some,
            r is Err ==> r->Err_0 == ParquetError::Layout(Layout::RleStream),
            r is Ok ==> r->Ok_0.wf() && r->Ok_0.model() == dict_source(
                dict.entries(),
                index_stream(buffer@, at_most(row_limit as nat, row_count as nat))->0,
                error_value@,
            ),
    {
        let limit: usize = if row_limit <= row_count {
            row_limit
        } else {
            row_count
        };
        let indices: Vec<u32> = match decode_indices(buffer, limit) {
            Err(e) => {
                return Err(e);
            },
            Ok(indices) => indices,
        };
        let s = RleDictionarySlicer { dict, indices, pos: 0, error_value, failed: false };
        assert(s.model().values =~= dict_source(dict.entries(), indices@, error_value@).values);
        assert(s.model().flags =~= dict_source(dict.entries(), indices@, error_value@).flags);
        Ok(s)
    }
}

impl<'b, T: DictDecoder> DataPageSlicer for RleDictionarySlicer<'b, T> {
    closed spec fn wf(&self) -> bool {
        &&& self.dict.wf()
        &&& self.pos <= self.indices@.len()
    }

    closed spec fn model(&self) -> SlicerModel {
        SlicerModel {
            values: Seq::new(
                self.indices@.len(),
                |k: int| dict_value(self.dict.entries(), self.indices@[k], self.error_value@),
            ),
            flags: Seq::new(
                self.indices@.len(),
                |k: int| self.indices@[k] >= index_range(self.dict.entries()),
            ),
            cursor: self.pos as nat,
            deferred: self.failed,
        }
    }

    proof fn lemma_wf(&self) {
    }

    fn has_next(&self) -> (b: bool) {
        self.pos < self.indices.len()
    }

    fn next(&mut self) -> (v: &[u8]) {
        let total: usize = self.indices.len();
        let index: u32 = self.indices[self.pos];
        self.pos = self.pos + 1;
        if index < self.dict.len() {
            self.dict.get_dict_value(index)
        } else {
            self.failed = true;
            self.error_value
        }
    }

    fn skip(&mut self, count: usize) {
        if count >= self.indices.len() - self.pos {
            self.pos = self.indices.len();
        } else {
            self.pos = self.pos + count;
        }
    }

    fn result(&self) -> (r: ParquetResult<()>) {
        if self.failed {
            Err(ParquetError::Layout(Layout::DictIndexOutOfRange))
        } else {
            Ok(())
        }
    }
}

/// Where each value of a dictionary has `n` bytes and the stand-in has too,
/// each value of the slicer has.
pub proof fn lemma_dict_source_uniform(
    entries: Seq<Seq<u8>>,
    indices: Seq<u32>,
    error_value: Seq<u8>,
    n: nat,
)
    requires
        forall|k: int| 0 <= k < entries.len() ==> (#[trigger] entries[k]).len() == n,
        error_value.len() == n,
    ensures
        forall|k: int|
            0 <= k < dict_source(entries, indices, error_value).values.len() ==> (
            #[trigger] dict_source(entries, indices, error_value).values[k]).len() == n,
{
}

} // verus!
