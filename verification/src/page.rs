//! What a decode reads of a page and what it writes to.

use vstd::prelude::*;

use crate::error::{Layout, ParquetError, ParquetResult};
use crate::hybrid_rle::{decode_runs, hybrid_runs, lemma_pow2_values, pow2};

verus! {

/// The buffers of one column chunk of the target store. A decode appends to
/// `data_vec`, one value of the column's width per row.
#[derive(Debug)]
pub struct ColumnChunkBuffers {
    pub data_vec: Vec<u8>,
}

/// A data page, as far as a decode reads it besides its values: the number
/// of rows it declares, the greatest definition level of its column, and the
/// definition levels of its rows, in hybrid runs. A row holds a value where
/// its level is the greatest, and is null otherwise. Where the greatest level
/// is zero, the page has no levels and each row holds a value.
#[derive(Debug)]
pub struct DataPage {
    pub num_values: usize,
    pub max_def_level: u16,
    pub def_levels: Vec<u8>,
}

/// A dictionary page: the values of the dictionary, one after the other, and
/// their number.
#[derive(Debug)]
pub struct DictPage {
    pub buffer: Vec<u8>,
    pub num_values: usize,
}

/// The number of bits that hold a level up to `max`.
pub open spec fn level_width(max: u16) -> nat
    decreases max,
{
    if max == 0 {
        0
    } else {
        1 + level_width(max / 2)
    }
}

/// The definition levels of a page that has them, one for each row that the
/// page declares at most. `None` where their runs cannot be read.
pub open spec fn page_levels(page: &DataPage) -> Option<Seq<u32>> {
    hybrid_runs(page.def_levels@, 0, level_width(page.max_def_level), page.num_values as nat)
}

/// The result of reading the definition levels of a page.
pub open spec fn levels_result(page: &DataPage) -> ParquetResult<()> {
    if page.max_def_level > 0 && page_levels(page) is None {
        Err(ParquetError::Layout(Layout::DefLevels))
    } else {
        Ok(())
    }
}

/// The number of rows of a page: the number it declares, and where it has
/// definition levels, the number of those.
pub open spec fn page_rows(page: &DataPage) -> nat {
    if page.max_def_level == 0 {
        page.num_values as nat
    } else {
        match page_levels(page) {
            Some(levels) => levels.len(),
            None => 0,
        }
    }
}

/// Whether row `r` of the page exists and holds a value.
pub open spec fn row_has_value(page: &DataPage, r: int) -> bool {
    &&& 0 <= r < page_rows(page)
    &&& page.max_def_level > 0 ==> page_levels(page)->0[r] == page.max_def_level
}

/// The number of rows in `[lo, hi)` that hold a value.
pub open spec fn value_count(page: &DataPage, lo: int, hi: int) -> nat
    decreases hi - lo,
{
    if hi <= lo {
        0
    } else {
        value_count(page, lo, hi - 1) + if row_has_value(page, hi - 1) {
            1nat
        } else {
            0nat
        }
    }
}

/// Among the values of the page, the position of the value of row `r`: the
/// number of rows before `r` that hold a value.
pub open spec fn value_rank(page: &DataPage, r: int) -> nat {
    value_count(page, 0, r)
}

/// The values of a range are those of its first part and those of its
/// second.
pub proof fn lemma_value_count_split(page: &DataPage, lo: int, mid: int, hi: int)
    requires
        lo <= mid <= hi,
    ensures
        value_count(page, lo, hi) == value_count(page, lo, mid) + value_count(page, mid, hi),
    decreases hi - mid,
{
    if hi > mid {
        lemma_value_count_split(page, lo, mid, hi - 1);
    }
}

/// In a page without definition levels each row holds a value, so that the
/// value of row `r` is the `r`-th of the page.
pub proof fn lemma_rank_without_levels(page: &DataPage, r: int)
    requires
        page.max_def_level == 0,
        0 <= r <= page.num_values,
    ensures
        value_rank(page, r) == r,
        r < page.num_values ==> row_has_value(page, r),
    decreases r,
{
    if r > 0 {
        lemma_rank_without_levels(page, r - 1);
    }
}

/// A level below a power of two takes no more bits than its exponent.
proof fn lemma_level_width_bound(max: u16, k: nat)
    requires
        max < pow2(k),
    ensures
        level_width(max) <= k,
    decreases max,
{
    if max > 0 {
        assert(k > 0);
        assert(pow2(k) == 2 * pow2((k - 1) as nat));
        lemma_level_width_bound(max / 2, (k - 1) as nat);
    }
}

/// The number of bits that hold a level up to `max`.
fn level_bits(max: u16) -> (w: u8)
    ensures
        w == level_width(max),
        w <= 16,
        max > 0 ==> w >= 1,
{
    proof {
        lemma_pow2_values();
        lemma_level_width_bound(max, 16);
    }
    let mut w: u8 = 0;
    let mut m: u16 = max;
    while m > 0
        invariant
            level_width(max) == w + level_width(m),
            level_width(max) <= 16,
        decreases m,
    {
        m = m / 2;
        w = w + 1;
    }
    w
}

/// The rows of a page, their definition levels read.
pub struct PageRows<'a> {
    page: &'a DataPage,
    levels: Vec<u32>,
}

impl<'a> PageRows<'a> {
    /// The page whose rows these are.
    pub closed spec fn page(&self) -> &DataPage {
        self.page
    }

    /// Whether the levels are those of the page.
    pub closed spec fn wf(&self) -> bool {
        self.page.max_def_level > 0 ==> page_levels(self.page) == Some(self.levels@)
    }

    /// Reads the definition levels of `page`.
    pub fn try_new(page: &'a DataPage) -> (r: ParquetResult<Self>)
        ensures
            r is Ok <==> levels_result(page) is Ok,
            r is Err ==> r->Err_0 == ParquetError::Layout(Layout::DefLevels),
            r is Ok ==> r->Ok_0.wf() && r->Ok_0.page() == page,
    {
        if page.max_def_level == 0 {
            return Ok(PageRows { page, levels: Vec::new() });
        }
        let width: u8 = level_bits(page.max_def_level);
        match decode_runs(page.def_levels.as_slice(), 0, width, page.num_values) {
            None => Err(ParquetError::Layout(Layout::DefLevels)),
            Some(levels) => Ok(PageRows { page, levels }),
        }
    }

    /// Whether the page has definition levels.
    pub fn has_levels(&self) -> (b: bool)
        ensures
            b == (self.page().max_def_level > 0),
    {
        self.page.max_def_level > 0
    }

    /// The number of rows of the page.
    pub fn rows(&self) -> (n: usize)
        requires
            self.wf(),
        ensures
            n == page_rows(self.page()),
    {
        if self.page.max_def_level == 0 {
            self.page.num_values
        } else {
            self.levels.len()
        }
    }

    /// Whether row `r` exists and holds a value.
    pub fn has_value(&self, r: usize) -> (b: bool)
        requires
            self.wf(),
        ensures
            b == row_has_value(self.page(), r as int),
    {
        if self.page.max_def_level == 0 {
            r < self.page.num_values
        } else {
            r < self.levels.len() && self.levels[r] == self.page.max_def_level as u32
        }
    }

    /// The number of rows in `[lo, hi)` that hold a value.
    pub fn count_values(&self, lo: usize, hi: usize) -> (n: usize)
        requires
            self.wf(),
        ensures
            n == value_count(self.page(), lo as int, hi as int),
    {
        if hi <= lo {
            return 0;
        }
        let mut n: usize = 0;
        let mut r: usize = lo;
        while r < hi
            invariant
                self.wf(),
                lo <= r <= hi,
                n == value_count(self.page(), lo as int, r as int),
                n <= r - lo,
            decreases hi - r,
        {
            if self.has_value(r) {
                n += 1;
            }
            r += 1;
        }
        n
    }
}

} // verus!
