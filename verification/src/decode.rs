//! The decode driver: it walks the rows of a page and tells a sink, row by
//! row or run by run, to push a value, to push a null or to pass a value over.

use vstd::prelude::*;

use crate::column_sink::{
    nulls, reserve_result, values_bytes, values_failure, values_flagged, Pushable, SinkModel,
};
use crate::convert::converted;
use crate::error::{Layout, ParquetError, ParquetResult};
use crate::page::{
    lemma_value_count_split, levels_result, page_rows, row_has_value, value_count, value_rank,
    DataPage, PageRows,
};
use crate::slicer::deferred_result;

verus! {

/// Among the values of the sink `m`, the position of the value of page row
/// `r`: values before the sink's cursor belong to no row.
pub open spec fn value_index(page: &DataPage, m: SinkModel, r: int) -> nat {
    m.source.cursor + value_rank(page, r)
}

/// Why page row `r` cannot be decoded, if it cannot: the page has no such
/// row, or the row has a value that the page does not hold or that does not
/// fit the column.
pub open spec fn row_failure(page: &DataPage, m: SinkModel, r: int) -> Option<ParquetError> {
    if r < 0 || r >= page_rows(page) {
        Some(ParquetError::Layout(Layout::RowOutOfPage))
    } else if !row_has_value(page, r) {
        None
    } else {
        values_failure(m.source.values, m.width, value_index(page, m, r), 1)
    }
}

/// The bytes of page row `r` in the column: its value converted, or the null
/// sentinel.
pub open spec fn row_bytes(page: &DataPage, m: SinkModel, r: int) -> Seq<u8> {
    if row_has_value(page, r) {
        converted(m.source.values[value_index(page, m, r) as int], m.width)
    } else {
        m.null
    }
}

/// Whether the value of page row `r` stands in for one that was not found.
pub open spec fn row_flagged(page: &DataPage, m: SinkModel, r: int) -> bool {
    row_has_value(page, r) && value_index(page, m, r) < m.source.flags.len()
        && m.source.flags[value_index(page, m, r) as int]
}

/// The failure of the first row in `[lo, hi)` that cannot be decoded.
pub open spec fn rows_failure(page: &DataPage, m: SinkModel, lo: int, hi: int) -> Option<
    ParquetError,
>
    decreases hi - lo,
{
    if lo >= hi {
        None
    } else {
        match row_failure(page, m, lo) {
            Some(e) => Some(e),
            None => rows_failure(page, m, lo + 1, hi),
        }
    }
}

/// The bytes of the rows `[lo, hi)` in the column.
pub open spec fn rows_bytes(page: &DataPage, m: SinkModel, lo: int, hi: int) -> Seq<u8>
    decreases hi - lo,
{
    if hi <= lo {
        Seq::empty()
    } else {
        rows_bytes(page, m, lo, hi - 1) + row_bytes(page, m, hi - 1)
    }
}

/// Whether a row in `[lo, hi)` has a value that stands in for one that was
/// not found.
pub open spec fn rows_flagged(page: &DataPage, m: SinkModel, lo: int, hi: int) -> bool {
    exists|r: int| lo <= r < hi && row_flagged(page, m, r)
}

/// The result of decoding the rows `[lo, hi)` of a page into the sink `m`.
/// Room is reserved first, and the definition levels are read. Then the first
/// row that cannot be decoded decides. Where every row can be, an error that
/// the slicer held back comes last.
pub open spec fn page_result(page: &DataPage, m: SinkModel, lo: int, hi: int) -> ParquetResult<
    (),
> {
    if reserve_result(m.data.len(), m.width, (hi - lo) as nat) is Err {
        Err(ParquetError::Capacity)
    } else if levels_result(page) is Err {
        levels_result(page)
    } else if rows_failure(page, m, lo, hi) is Some {
        Err(rows_failure(page, m, lo, hi)->0)
    } else {
        deferred_result(m.source.deferred || rows_flagged(page, m, lo, hi))
    }
}

/// The bytes of the column after the rows `[lo, hi)` of a page were decoded
/// into the sink `m`, as far as the result tells them: nothing is appended
/// where no room can be reserved or the levels cannot be read, and each row
/// is where none fails, also where an error that the slicer held back comes
/// last. Where a row fails, the rows that were appended before it stay.
pub open spec fn page_data(page: &DataPage, m: SinkModel, lo: int, hi: int) -> Option<Seq<u8>> {
    if reserve_result(m.data.len(), m.width, (hi - lo) as nat) is Err || levels_result(
        page,
    ) is Err {
        Some(m.data)
    } else if rows_failure(page, m, lo, hi) is Some {
        None
    } else {
        Some(m.data + rows_bytes(page, m, lo, hi))
    }
}

/// Whether the column `after` holds what the sink `m` held and behind it the
/// rows of `[lo, hi)` up to some row, none of which fails: whole rows that
/// can be decoded and no byte else, however the decode ends.
pub open spec fn holds_rows(
    page: &DataPage,
    m: SinkModel,
    lo: int,
    hi: int,
    after: Seq<u8>,
) -> bool {
    exists|k: int|
        lo <= k <= hi && rows_failure(page, m, lo, k) is None && after == m.data
            + #[trigger] rows_bytes(page, m, lo, k)
}

/// Whether `after` holds `before` and then some more bytes.
pub open spec fn extends(after: Seq<u8>, before: Seq<u8>) -> bool {
    after.len() >= before.len() && after.subrange(0, before.len() as int) == before
}

/// The first failure of a range is that of its first part, or else that of
/// its second.
pub proof fn lemma_rows_failure_split(page: &DataPage, m: SinkModel, lo: int, mid: int, hi: int)
    requires
        lo <= mid <= hi,
    ensures
        rows_failure(page, m, lo, hi) == match rows_failure(page, m, lo, mid) {
            Some(e) => Some(e),
            None => rows_failure(page, m, mid, hi),
        },
    decreases mid - lo,
{
    if lo < mid {
        lemma_rows_failure_split(page, m, lo + 1, mid, hi);
    }
}

/// The bytes of a range are those of its first part and then those of its
/// second.
pub proof fn lemma_rows_bytes_split(page: &DataPage, m: SinkModel, lo: int, mid: int, hi: int)
    requires
        lo <= mid <= hi,
    ensures
        rows_bytes(page, m, lo, hi) == rows_bytes(page, m, lo, mid) + rows_bytes(page, m, mid, hi),
    decreases hi - mid,
{
    if mid < hi {
        lemma_rows_bytes_split(page, m, lo, mid, hi - 1);
        assert(rows_bytes(page, m, lo, mid) + (rows_bytes(page, m, mid, hi - 1) + row_bytes(
            page,
            m,
            hi - 1,
        )) == (rows_bytes(page, m, lo, mid) + rows_bytes(page, m, mid, hi - 1)) + row_bytes(
            page,
            m,
            hi - 1,
        ));
    } else {
        assert(rows_bytes(page, m, lo, mid) + Seq::<u8>::empty() == rows_bytes(page, m, lo, mid));
    }
}

/// Each row takes the width of the column.
pub proof fn lemma_rows_bytes_len(page: &DataPage, m: SinkModel, lo: int, hi: int)
    requires
        m.wf(),
        lo <= hi,
    ensures
        rows_bytes(page, m, lo, hi).len() == (hi - lo) * m.width,
    decreases hi - lo,
{
    if lo < hi {
        lemma_rows_bytes_len(page, m, lo, hi - 1);
        assert((hi - 1 - lo) * m.width + m.width == (hi - lo) * m.width) by (nonlinear_arith);
    } else {
        assert((hi - lo) * m.width == 0) by (nonlinear_arith)
            requires
                hi - lo == 0,
        ;
    }
}

/// A run of rows without a value is a run of nulls.
proof fn lemma_null_run(page: &DataPage, m: SinkModel, lo: int, hi: int)
    requires
        0 <= lo <= hi <= page_rows(page),
        forall|r: int| lo <= r < hi ==> !row_has_value(page, r),
    ensures
        rows_failure(page, m, lo, hi) is None,
        rows_bytes(page, m, lo, hi) == nulls(m.null, (hi - lo) as nat),
        !rows_flagged(page, m, lo, hi),
        value_count(page, lo, hi) == 0,
    decreases hi - lo,
{
    if lo < hi {
        lemma_null_run(page, m, lo, hi - 1);
        lemma_rows_failure_split(page, m, lo, hi - 1, hi);
        assert(rows_failure(page, m, hi, hi) is None);
        assert(rows_failure(page, m, hi - 1, hi) is None);
    }
}

/// A run of rows that each have a value is a run of values of the slicer.
proof fn lemma_value_run(page: &DataPage, m: SinkModel, lo: int, hi: int, from: nat)
    requires
        0 <= lo <= hi <= page_rows(page),
        m.wf(),
        forall|r: int| lo <= r < hi ==> row_has_value(page, r),
        from <= m.source.values.len(),
        from == value_index(page, m, lo) || (from == m.source.values.len() && from < value_index(
            page,
            m,
            lo,
        )),
    ensures
        value_count(page, lo, hi) == hi - lo,
        rows_failure(page, m, lo, hi) == values_failure(
            m.source.values,
            m.width,
            from,
            (hi - lo) as nat,
        ),
        rows_failure(page, m, lo, hi) is None ==> {
            &&& lo < hi ==> from == value_index(page, m, lo)
            &&& rows_bytes(page, m, lo, hi) == values_bytes(
                m.source.values,
                m.width,
                from,
                (hi - lo) as nat,
            )
            &&& rows_flagged(page, m, lo, hi) == values_flagged(
                m.source.flags,
                from,
                (hi - lo) as nat,
            )
        },
    decreases hi - lo,
{
    if lo < hi {
        lemma_value_count_split(page, 0, lo, lo + 1);
        assert(value_count(page, lo, lo + 1) == 1) by {
            assert(value_count(page, lo, lo) == 0);
        }
        let next: nat = if from < m.source.values.len() {
            from + 1
        } else {
            from
        };
        lemma_value_run(page, m, lo + 1, hi, next);
        lemma_value_count_split(page, lo, lo + 1, hi);
        if from >= m.source.values.len() {
            assert(row_failure(page, m, lo) == Some(
                ParquetError::Layout(Layout::ValuesExhausted),
            ));
        } else {
            assert(from == value_index(page, m, lo));
            assert(values_failure(m.source.values, m.width, from + 1, 0) is None);
            if rows_failure(page, m, lo, hi) is None {
                lemma_value_run(page, m, lo, hi - 1, from);
                lemma_rows_failure_split(page, m, lo, hi - 1, hi);
                lemma_value_count_split(page, 0, lo, hi - 1);
                assert(value_index(page, m, hi - 1) == from + (hi - 1 - lo));
                let fl = m.source.flags;
                let k = (hi - lo) as nat;
                assert(rows_flagged(page, m, lo, hi) == values_flagged(fl, from, k)) by {
                    if rows_flagged(page, m, lo, hi) {
                        let r = choose|r: int| lo <= r < hi && row_flagged(page, m, r);
                        lemma_value_count_split(page, 0, lo, r);
                        lemma_value_run(page, m, lo, r, from);
                        let j = value_index(page, m, r) as int;
                        assert(from <= j < from + k && j < fl.len() && fl[j]);
                    }
                    if values_flagged(fl, from, k) {
                        let j = choose|j: int| from <= j < from + k && j < fl.len() && fl[j];
                        let r = lo + (j - from);
                        lemma_value_count_split(page, 0, lo, r);
                        lemma_value_run(page, m, lo, r, from);
                        assert(row_flagged(page, m, r));
                    }
                }
            }
        }
    } else {
        assert(!rows_flagged(page, m, lo, hi));
        assert(!values_flagged(m.source.flags, from, 0));
    }
}

/// Rows beyond the page hold no value.
proof fn lemma_no_value_beyond(page: &DataPage, lo: int, hi: int)
    requires
        lo <= hi,
        lo < hi ==> page_rows(page) <= lo,
    ensures
        value_count(page, lo, hi) == 0,
    decreases hi - lo,
{
    if lo < hi {
        lemma_no_value_beyond(page, lo, hi - 1);
    }
}

/// A range holds a marked value where its first part or its second does.
proof fn lemma_rows_flagged_split(page: &DataPage, m: SinkModel, lo: int, mid: int, hi: int)
    requires
        lo <= mid <= hi,
    ensures
        rows_flagged(page, m, lo, hi) == (rows_flagged(page, m, lo, mid) || rows_flagged(
            page,
            m,
            mid,
            hi,
        )),
{
    if rows_flagged(page, m, lo, hi) {
        let r = choose|r: int| lo <= r < hi && row_flagged(page, m, r);
        if r < mid {
            assert(lo <= r < mid && row_flagged(page, m, r));
        } else {
            assert(mid <= r < hi && row_flagged(page, m, r));
        }
    }
    if rows_flagged(page, m, lo, mid) {
        let r = choose|r: int| lo <= r < mid && row_flagged(page, m, r);
        assert(lo <= r < hi && row_flagged(page, m, r));
    }
    if rows_flagged(page, m, mid, hi) {
        let r = choose|r: int| mid <= r < hi && row_flagged(page, m, r);
        assert(lo <= r < hi && row_flagged(page, m, r));
    }
}

/// Whether the sink `now` is the sink `start` after the rows `[lo, q)` of the
/// page were decoded into it.
pub open spec fn decoded_upto(
    page: &DataPage,
    start: SinkModel,
    now: SinkModel,
    lo: int,
    q: int,
) -> bool {
    &&& now.width == start.width
    &&& now.null == start.null
    &&& now.source.values == start.source.values
    &&& now.source.flags == start.source.flags
    &&& now.data == start.data + rows_bytes(page, start, lo, q)
    &&& now.source.deferred == (start.source.deferred || rows_flagged(page, start, lo, q))
    &&& (now.source.cursor == value_index(page, start, q) || (now.source.cursor
        == start.source.values.len() && now.source.cursor < value_index(page, start, q)))
}

/// Decodes the rows `[row_lo, row_hi)` of `page` into `sink`: a value for
/// each row that has one, the null sentinel for each other row. A run of rows
/// with a value goes to the sink as one slice, a run of rows without as one
/// run of nulls. The values of the rows before `row_lo` are passed over.
///
/// Room for the range is reserved first, and the definition levels are read.
/// The decode stops at the first row that the page does not have, or whose
/// value the page does not hold or the column cannot store. An error that the
/// slicer held back is returned when each row is written.
pub fn decode_page0<T: Pushable>(page: &DataPage, row_lo: usize, row_hi: usize, sink: &mut T) -> (r:
    ParquetResult<()>)
    requires
        old(sink).wf(),
        row_lo <= row_hi,
    ensures
        final(sink).wf(),
        *final(final(sink).loan()) == *final(old(sink).loan()),
        *final(final(sink).slicer_loan()) == *final(old(sink).slicer_loan()),
        final(sink).model().width == old(sink).model().width,
        final(sink).model().null == old(sink).model().null,
        final(sink).model().source.values == old(sink).model().source.values,
        final(sink).model().source.flags == old(sink).model().source.flags,
        r == page_result(page, old(sink).model(), row_lo as int, row_hi as int),
        page_data(page, old(sink).model(), row_lo as int, row_hi as int) is Some ==> final(sink)
            .model().data == page_data(page, old(sink).model(), row_lo as int, row_hi as int)->0,
        extends(final(sink).model().data, old(sink).model().data),
        holds_rows(
            page,
            old(sink).model(),
            row_lo as int,
            row_hi as int,
            final(sink).model().data,
        ),
        r is Ok ==> final(sink).model().data.len() == old(sink).model().data.len() + (row_hi
            - row_lo) * old(sink).model().width,
        r is Ok ==> decoded_upto(
            page,
            old(sink).model(),
            final(sink).model(),
            row_lo as int,
            row_hi as int,
        ),
{
    let ghost start = sink.model();
    proof {
        sink.lemma_wf();
        lemma_rows_bytes_len(page, start, row_lo as int, row_hi as int);
        assert(start.data == start.data + rows_bytes(page, start, row_lo as int, row_lo as int));
        assert(rows_failure(page, start, row_lo as int, row_lo as int) is None);
    }
    match sink.reserve(row_hi - row_lo) {
        Err(e) => {
            assert(start.data.subrange(0, start.data.len() as int) == start.data);
            return Err(e);
        },
        Ok(()) => {},
    }
    let levels = match PageRows::try_new(page) {
        Err(e) => {
            assert(start.data.subrange(0, start.data.len() as int) == start.data);
            return Err(e);
        },
        Ok(rows) => rows,
    };
    let rows: usize = levels.rows();
    let lead_end: usize = if row_lo < rows {
        row_lo
    } else {
        rows
    };
    let lead: usize = levels.count_values(0, lead_end);
    sink.skip(lead);
    proof {
        sink.lemma_wf();
        lemma_value_count_split(page, 0, lead_end as int, row_lo as int);
        lemma_no_value_beyond(page, lead_end as int, row_lo as int);
        assert(start.data + rows_bytes(page, start, row_lo as int, row_lo as int) == start.data);
        assert(!rows_flagged(page, start, row_lo as int, row_lo as int));
    }
    let mut q: usize = row_lo;
    while q < row_hi
        invariant
            row_lo <= q <= row_hi,
            rows == page_rows(page),
            levels.wf(),
            levels.page() == page,
            levels_result(page) is Ok,
            sink.wf(),
            start.wf(),
            start == old(sink).model(),
            *final(sink.loan()) == *final(old(sink).loan()),
            *final(sink.slicer_loan()) == *final(old(sink).slicer_loan()),
            decoded_upto(page, start, sink.model(), row_lo as int, q as int),
            rows_failure(page, start, row_lo as int, q as int) is None,
            rows_failure(page, start, row_lo as int, row_hi as int) == rows_failure(
                page,
                start,
                q as int,
                row_hi as int,
            ),
            reserve_result(start.data.len(), start.width, (row_hi - row_lo) as nat) is Ok,
        decreases row_hi - q,
    {
        let ghost now = sink.model();
        proof {
            sink.lemma_wf();
            assert(extends(now.data, start.data)) by {
                assert(now.data.subrange(0, start.data.len() as int) == start.data);
            }
            assert(now.data == start.data + rows_bytes(page, start, row_lo as int, q as int));
        }
        if q >= rows {
            return Err(ParquetError::Layout(Layout::RowOutOfPage));
        }
        let end: usize = if row_hi < rows {
            row_hi
        } else {
            rows
        };
        let with_value: bool = levels.has_value(q);
        let mut e: usize = if levels.has_levels() {
            q + 1
        } else {
            end
        };
        while e < end && levels.has_value(e) == with_value
            invariant
                q < e <= end,
                end <= rows,
                rows == page_rows(page),
                levels.wf(),
                levels.page() == page,
                forall|r: int| q <= r < e ==> row_has_value(page, r) == with_value,
            decreases end - e,
        {
            e += 1;
        }
        proof {
            lemma_rows_failure_split(page, start, q as int, e as int, row_hi as int);
            lemma_rows_failure_split(page, start, row_lo as int, q as int, e as int);
            lemma_rows_bytes_split(page, start, row_lo as int, q as int, e as int);
            lemma_rows_flagged_split(page, start, row_lo as int, q as int, e as int);
            lemma_value_count_split(page, 0, q as int, e as int);
        }
        if with_value {
            proof {
                lemma_value_run(page, start, q as int, e as int, now.source.cursor);
            }
            match sink.push_slice(e - q) {
                Err(er) => {
                    return Err(er);
                },
                Ok(()) => {},
            }
            proof {
                assert(sink.model().data == start.data + rows_bytes(
                    page,
                    start,
                    row_lo as int,
                    e as int,
                )) by {
                    let a = start.data;
                    let b = rows_bytes(page, start, row_lo as int, q as int);
                    let c = rows_bytes(page, start, q as int, e as int);
                    assert((a + b) + c == a + (b + c));
                }
            }
        } else {
            proof {
                lemma_null_run(page, start, q as int, e as int);
            }
            match sink.push_nulls(e - q) {
                Err(er) => {
                    return Err(er);
                },
                Ok(()) => {},
            }
            proof {
                assert(sink.model().data == start.data + rows_bytes(
                    page,
                    start,
                    row_lo as int,
                    e as int,
                )) by {
                    let a = start.data;
                    let b = rows_bytes(page, start, row_lo as int, q as int);
                    let c = rows_bytes(page, start, q as int, e as int);
                    assert((a + b) + c == a + (b + c));
                }
            }
        }
        q = e;
    }
    proof {
        let now = sink.model();
        assert(extends(now.data, start.data)) by {
            assert(now.data.subrange(0, start.data.len() as int) == start.data);
        }
        assert(now.data == start.data + rows_bytes(page, start, row_lo as int, row_hi as int));
    }
    sink.result()
}

/// A row filter and where the page lies under it. The entries of `filter`
/// are rows of the slice of the row group that is decoded, which begins at row
/// `row_group_lo` of the row group. The page holds the rows of the row group
/// from `page_row_start` on, `page_row_count` of them. Where `fill_nulls` is
/// set, a row that the filter leaves out gets a null; otherwise it gets
/// nothing.
pub struct FilterFrame {
    pub filter: Seq<i64>,
    pub page_row_start: nat,
    pub page_row_count: nat,
    pub row_group_lo: nat,
    pub fill_nulls: bool,
}

impl FilterFrame {
    /// Whether the filter holds row `r`.
    pub open spec fn selects(self, r: int) -> bool {
        exists|i: int| 0 <= i < self.filter.len() && self.filter[i] as int == r
    }

    /// The row of the page that is row `r` of the filter.
    pub open spec fn page_row(self, r: int) -> int {
        r + self.row_group_lo - self.page_row_start
    }
}

/// The frame of a filtered decode.
pub open spec fn filter_frame(
    filter: Seq<i64>,
    page_row_start: usize,
    page_row_count: usize,
    row_group_lo: usize,
    fill_nulls: bool,
) -> FilterFrame {
    FilterFrame {
        filter,
        page_row_start: page_row_start as nat,
        page_row_count: page_row_count as nat,
        row_group_lo: row_group_lo as nat,
        fill_nulls,
    }
}

/// Whether the entries of a filter ascend.
pub open spec fn ascending(filter: Seq<i64>) -> bool {
    forall|i: int, j: int| 0 <= i < j < filter.len() ==> filter[i] < filter[j]
}

/// Why row `r` cannot be decoded under a filter, if it cannot: the filter
/// selects it, and it is no row of the page or its value fails.
pub open spec fn filtered_row_failure(
    page: &DataPage,
    m: SinkModel,
    f: FilterFrame,
    r: int,
) -> Option<ParquetError> {
    if !f.selects(r) {
        None
    } else if f.page_row(r) < 0 || f.page_row(r) >= f.page_row_count {
        Some(ParquetError::Layout(Layout::RowOutOfPage))
    } else {
        row_failure(page, m, f.page_row(r))
    }
}

/// The bytes of row `r` under a filter.
pub open spec fn filtered_row_bytes(page: &DataPage, m: SinkModel, f: FilterFrame, r: int) -> Seq<
    u8,
> {
    if f.selects(r) {
        row_bytes(page, m, f.page_row(r))
    } else if f.fill_nulls {
        m.null
    } else {
        Seq::empty()
    }
}

/// The failure of the first row in `[lo, hi)` that cannot be decoded under a
/// filter.
pub open spec fn filtered_rows_failure(
    page: &DataPage,
    m: SinkModel,
    f: FilterFrame,
    lo: int,
    hi: int,
) -> Option<ParquetError>
    decreases hi - lo,
{
    if lo >= hi {
        None
    } else {
        match filtered_row_failure(page, m, f, lo) {
            Some(e) => Some(e),
            None => filtered_rows_failure(page, m, f, lo + 1, hi),
        }
    }
}

/// The bytes of the rows `[lo, hi)` under a filter.
pub open spec fn filtered_rows_bytes(
    page: &DataPage,
    m: SinkModel,
    f: FilterFrame,
    lo: int,
    hi: int,
) -> Seq<u8>
    decreases hi - lo,
{
    if hi <= lo {
        Seq::empty()
    } else {
        filtered_rows_bytes(page, m, f, lo, hi - 1) + filtered_row_bytes(page, m, f, hi - 1)
    }
}

/// Whether a selected row in `[lo, hi)` has a value that stands in for one
/// that was not found.
pub open spec fn filtered_rows_flagged(
    page: &DataPage,
    m: SinkModel,
    f: FilterFrame,
    lo: int,
    hi: int,
) -> bool {
    exists|r: int| lo <= r < hi && f.selects(r) && row_flagged(page, m, f.page_row(r))
}

/// The number of rows in `[lo, hi)` that the filter selects.
pub open spec fn selected_count(f: FilterFrame, lo: int, hi: int) -> nat
    decreases hi - lo,
{
    if hi <= lo {
        0
    } else {
        selected_count(f, lo, hi - 1) + if f.selects(hi - 1) {
            1nat
        } else {
            0nat
        }
    }
}

/// The number of rows that a filtered decode of `[lo, hi)` appends: each row
/// with fill, the selected rows without.
pub open spec fn filtered_row_count(f: FilterFrame, lo: int, hi: int) -> nat {
    if f.fill_nulls {
        (hi - lo) as nat
    } else {
        selected_count(f, lo, hi)
    }
}

/// The result of decoding the rows `[lo, hi)` under a filter into the sink
/// `m`. Room is reserved first: for each row with fill, for each entry of the
/// filter without. Then the first row that cannot be decoded decides. Where
/// every row can be, an error that the slicer held back comes last.
pub open spec fn filtered_result(
    page: &DataPage,
    m: SinkModel,
    f: FilterFrame,
    lo: int,
    hi: int,
) -> ParquetResult<()> {
    let room = if f.fill_nulls {
        (hi - lo) as nat
    } else {
        f.filter.len()
    };
    if reserve_result(m.data.len(), m.width, room) is Err {
        Err(ParquetError::Capacity)
    } else if levels_result(page) is Err {
        levels_result(page)
    } else if filtered_rows_failure(page, m, f, lo, hi) is Some {
        Err(filtered_rows_failure(page, m, f, lo, hi)->0)
    } else {
        deferred_result(m.source.deferred || filtered_rows_flagged(page, m, f, lo, hi))
    }
}

/// The bytes of the column after the rows `[lo, hi)` were decoded under a
/// filter, as far as the result tells them.
pub open spec fn filtered_data(
    page: &DataPage,
    m: SinkModel,
    f: FilterFrame,
    lo: int,
    hi: int,
) -> Option<Seq<u8>> {
    let room = if f.fill_nulls {
        (hi - lo) as nat
    } else {
        f.filter.len()
    };
    if reserve_result(m.data.len(), m.width, room) is Err || levels_result(page) is Err {
        Some(m.data)
    } else if filtered_rows_failure(page, m, f, lo, hi) is Some {
        None
    } else {
        Some(m.data + filtered_rows_bytes(page, m, f, lo, hi))
    }
}

/// Whether the column `after` holds what the sink `m` held and behind it the
/// rows of `[lo, hi)` under the filter up to some row, none of which fails.
pub open spec fn holds_filtered_rows(
    page: &DataPage,
    m: SinkModel,
    f: FilterFrame,
    lo: int,
    hi: int,
    after: Seq<u8>,
) -> bool {
    exists|k: int|
        lo <= k <= hi && filtered_rows_failure(page, m, f, lo, k) is None && after == m.data
            + #[trigger] filtered_rows_bytes(page, m, f, lo, k)
}

/// Under a filter each row takes the width of the column or nothing.
pub proof fn lemma_filtered_rows_bytes_len(
    page: &DataPage,
    m: SinkModel,
    f: FilterFrame,
    lo: int,
    hi: int,
)
    requires
        m.wf(),
        lo <= hi,
    ensures
        filtered_rows_bytes(page, m, f, lo, hi).len() == filtered_row_count(f, lo, hi) * m.width,
        selected_count(f, lo, hi) <= hi - lo,
    decreases hi - lo,
{
    if lo < hi {
        lemma_filtered_rows_bytes_len(page, m, f, lo, hi - 1);
        let c = filtered_row_count(f, lo, hi - 1);
        assert(c * m.width + m.width == (c + 1) * m.width) by (nonlinear_arith);
    } else {
        assert(0 * m.width == 0);
    }
}

/// Whether the filter entry `f` is row `r`.
fn entry_is(f: i64, r: usize) -> (b: bool)
    ensures
        b == (f as int == r as int),
{
    f >= 0 && f as u64 == r as u64
}

/// Whether the filter entry `f` lies before row `r`.
fn entry_before(f: i64, r: usize) -> (b: bool)
    ensures
        b == ((f as int) < r as int),
{
    f < 0 || (f as u64) < r as u64
}

/// The row of the page that is row `r` of the filter, if the page has it.
fn page_row_of(
    r: usize,
    row_group_lo: usize,
    page_row_start: usize,
    page_row_count: usize,
    rows: usize,
) -> (p: Option<usize>)
    ensures
        p is Some <==> 0 <= r + row_group_lo - page_row_start < page_row_count && r + row_group_lo
            - page_row_start < rows,
        p is Some ==> p->0 == r + row_group_lo - page_row_start,
{
    let at: u128 = r as u128 + row_group_lo as u128;
    if at < page_row_start as u128 {
        return None;
    }
    let p: u128 = at - page_row_start as u128;
    if p >= page_row_count as u128 || p >= rows as u128 {
        return None;
    }
    Some(p as usize)
}

/// The number of rows of the page that lie behind a filtered decode of the
/// rows `[lo, q)`: those up to the page row of the last row that the filter
/// selects, and none where it selects none.
pub open spec fn passed_rows(f: FilterFrame, lo: int, q: int) -> int
    decreases q - lo,
{
    if q <= lo {
        0
    } else if f.selects(q - 1) {
        f.page_row(q - 1) + 1
    } else {
        passed_rows(f, lo, q - 1)
    }
}

/// Whether the sink `now` is the sink `start` after the rows `[lo, q)` were
/// decoded into it under the filter, the values of the page rows before `pc`
/// being passed.
pub open spec fn filtered_upto(
    page: &DataPage,
    start: SinkModel,
    now: SinkModel,
    f: FilterFrame,
    lo: int,
    q: int,
    pc: int,
) -> bool {
    &&& now.width == start.width
    &&& now.null == start.null
    &&& now.source.values == start.source.values
    &&& now.source.flags == start.source.flags
    &&& now.data == start.data + filtered_rows_bytes(page, start, f, lo, q)
    &&& now.source.deferred == (start.source.deferred || filtered_rows_flagged(
        page,
        start,
        f,
        lo,
        q,
    ))
    &&& (now.source.cursor == value_index(page, start, pc) || (now.source.cursor
        == start.source.values.len() && now.source.cursor < value_index(page, start, pc)))
}

/// Decodes the rows `[row_lo, row_hi)` under a row filter. A row that the
/// filter selects is decoded from its row of the page, the values of the page
/// rows before it being passed over. A row that the filter leaves out gets a
/// null where `FILL_NULLS` is set and nothing otherwise.
///
/// The entries of `rows_filter`, `row_lo` and `row_hi` count rows from row
/// `row_group_lo` of the row group on. The page holds `page_row_count` rows of
/// the row group, from row `page_row_start` on.
///
/// Room is reserved first, for each row with fill and for each entry of the
/// filter without, and the definition levels are read. The decode stops at
/// the first selected row that the page does not have, or whose value the
/// page does not hold or the column cannot store. An error that the slicer
/// held back is returned when each row is written.
pub fn decode_page0_filtered<T: Pushable, const FILL_NULLS: bool>(
    page: &DataPage,
    page_row_start: usize,
    page_row_count: usize,
    row_group_lo: usize,
    row_lo: usize,
    row_hi: usize,
    rows_filter: &[i64],
    sink: &mut T,
) -> (r: ParquetResult<()>)
    requires
        old(sink).wf(),
        row_lo <= row_hi,
        ascending(rows_filter@),
    ensures
        final(sink).wf(),
        *final(final(sink).loan()) == *final(old(sink).loan()),
        *final(final(sink).slicer_loan()) == *final(old(sink).slicer_loan()),
        final(sink).model().width == old(sink).model().width,
        final(sink).model().null == old(sink).model().null,
        r == filtered_result(
            page,
            old(sink).model(),
            filter_frame(rows_filter@, page_row_start, page_row_count, row_group_lo, FILL_NULLS),
            row_lo as int,
            row_hi as int,
        ),
        filtered_data(
            page,
            old(sink).model(),
            filter_frame(rows_filter@, page_row_start, page_row_count, row_group_lo, FILL_NULLS),
            row_lo as int,
            row_hi as int,
        ) is Some ==> final(sink).model().data == filtered_data(
            page,
            old(sink).model(),
            filter_frame(rows_filter@, page_row_start, page_row_count, row_group_lo, FILL_NULLS),
            row_lo as int,
            row_hi as int,
        )->0,
        extends(final(sink).model().data, old(sink).model().data),
        holds_filtered_rows(
            page,
            old(sink).model(),
            filter_frame(rows_filter@, page_row_start, page_row_count, row_group_lo, FILL_NULLS),
            row_lo as int,
            row_hi as int,
            final(sink).model().data,
        ),
        final(sink).model().source.values == old(sink).model().source.values,
        final(sink).model().source.flags == old(sink).model().source.flags,
        r is Ok ==> final(sink).model().data.len() == old(sink).model().data.len()
            + filtered_row_count(
            filter_frame(rows_filter@, page_row_start, page_row_count, row_group_lo, FILL_NULLS),
            row_lo as int,
            row_hi as int,
        ) * old(sink).model().width,
        r is Ok ==> filtered_upto(
            page,
            old(sink).model(),
            final(sink).model(),
            filter_frame(rows_filter@, page_row_start, page_row_count, row_group_lo, FILL_NULLS),
            row_lo as int,
            row_hi as int,
            passed_rows(
                filter_frame(
                    rows_filter@,
                    page_row_start,
                    page_row_count,
                    row_group_lo,
                    FILL_NULLS,
                ),
                row_lo as int,
                row_hi as int,
            ),
        ),
{
    let ghost start = sink.model();
    let ghost f = filter_frame(
        rows_filter@,
        page_row_start,
        page_row_count,
        row_group_lo,
        FILL_NULLS,
    );
    proof {
        sink.lemma_wf();
        lemma_filtered_rows_bytes_len(page, start, f, row_lo as int, row_hi as int);
        assert(start.data.subrange(0, start.data.len() as int) == start.data);
        assert(start.data == start.data + filtered_rows_bytes(
            page,
            start,
            f,
            row_lo as int,
            row_lo as int,
        ));
        assert(filtered_rows_failure(page, start, f, row_lo as int, row_lo as int) is None);
    }
    let entries: usize = rows_filter.len();
    let room: usize = if FILL_NULLS {
        row_hi - row_lo
    } else {
        entries
    };
    match sink.reserve(room) {
        Err(e) => {
            return Err(e);
        },
        Ok(()) => {},
    }
    let levels = match PageRows::try_new(page) {
        Err(e) => {
            return Err(e);
        },
        Ok(rows) => rows,
    };
    let rows: usize = levels.rows();
    let mut j: usize = 0;
    while j < entries && entry_before(rows_filter[j], row_lo)
        invariant
            j <= entries,
            entries == rows_filter@.len(),
            forall|i: int| 0 <= i < j ==> (rows_filter@[i] as int) < row_lo,
        decreases entries - j,
    {
        j += 1;
    }
    proof {
        assert(start.data + filtered_rows_bytes(page, start, f, row_lo as int, row_lo as int)
            == start.data);
        assert(!filtered_rows_flagged(page, start, f, row_lo as int, row_lo as int));
    }
    let mut pc: usize = 0;
    let mut q: usize = row_lo;
    while q < row_hi
        invariant
            row_lo <= q <= row_hi,
            rows == page_rows(page),
            levels.wf(),
            levels.page() == page,
            levels_result(page) is Ok,
            entries == rows_filter@.len(),
            ascending(rows_filter@),
            j <= entries,
            forall|i: int| 0 <= i < j ==> (rows_filter@[i] as int) < q,
            j < entries ==> rows_filter@[j as int] as int >= q,
            pc == 0 || pc <= f.page_row(q as int),
            pc == passed_rows(f, row_lo as int, q as int),
            sink.wf(),
            start.wf(),
            start == old(sink).model(),
            f == filter_frame(
                rows_filter@,
                page_row_start,
                page_row_count,
                row_group_lo,
                FILL_NULLS,
            ),
            *final(sink.loan()) == *final(old(sink).loan()),
            *final(sink.slicer_loan()) == *final(old(sink).slicer_loan()),
            filtered_upto(page, start, sink.model(), f, row_lo as int, q as int, pc as int),
            filtered_rows_failure(page, start, f, row_lo as int, q as int) is None,
            filtered_rows_failure(page, start, f, row_lo as int, row_hi as int)
                == filtered_rows_failure(page, start, f, q as int, row_hi as int),
            reserve_result(start.data.len(), start.width, room as nat) is Ok,
            room == if FILL_NULLS {
                (row_hi - row_lo) as nat
            } else {
                rows_filter@.len()
            },
        decreases row_hi - q,
    {
        let ghost now = sink.model();
        proof {
            sink.lemma_wf();
            assert(extends(now.data, start.data)) by {
                assert(now.data.subrange(0, start.data.len() as int) == start.data);
            }
            assert(now.data == start.data + filtered_rows_bytes(
                page,
                start,
                f,
                row_lo as int,
                q as int,
            ));
        }
        let is_selected: bool = j < entries && entry_is(rows_filter[j], q);
        proof {
            if is_selected {
                assert(0 <= j < f.filter.len() && f.filter[j as int] as int == q);
            } else if f.selects(q as int) {
                let i = choose|i: int| 0 <= i < f.filter.len() && f.filter[i] as int == q;
                assert(false);
            }
        }
        if is_selected {
            let found = page_row_of(q, row_group_lo, page_row_start, page_row_count, rows);
            let p: usize = match found {
                None => {
                    return Err(ParquetError::Layout(Layout::RowOutOfPage));
                },
                Some(p) => p,
            };
            let gap: usize = levels.count_values(pc, p);
            sink.skip(gap);
            proof {
                sink.lemma_wf();
                lemma_value_count_split(page, 0, pc as int, p as int);
                lemma_value_count_split(page, 0, p as int, p + 1);
                assert(value_count(page, p as int, p + 1) == if row_has_value(page, p as int) {
                    1nat
                } else {
                    0nat
                }) by {
                    assert(value_count(page, p as int, p as int) == 0);
                }
            }
            let ghost at = sink.model().source.cursor;
            if levels.has_value(p) {
                proof {
                    assert(values_failure(start.source.values, start.width, at + 1, 0) is None);
                    assert(values_failure(
                        start.source.values,
                        start.width,
                        value_index(page, start, p as int) + 1,
                        0,
                    ) is None);
                }
                match sink.push() {
                    Err(er) => {
                        return Err(er);
                    },
                    Ok(()) => {},
                }
                proof {
                    let v = converted(start.source.values[at as int], start.width);
                    assert(values_bytes(start.source.values, start.width, at, 1) == v) by {
                        assert(values_bytes(start.source.values, start.width, at, 0)
                            == Seq::<u8>::empty());
                        assert(Seq::<u8>::empty() + v == v);
                    }
                    let flags = start.source.flags;
                    assert(values_flagged(flags, at, 1) == flags[at as int]) by {
                        if start.source.flags[at as int] {
                            assert(at <= at < at + 1 && at < start.source.flags.len()
                                && start.source.flags[at as int]);
                        }
                    }
                }
            } else {
                match sink.push_null() {
                    Err(er) => {
                        return Err(er);
                    },
                    Ok(()) => {},
                }
                proof {
                    assert(nulls(start.null, 1) == start.null) by {
                        assert(nulls(start.null, 0) == Seq::<u8>::empty());
                        assert(Seq::<u8>::empty() + start.null == start.null);
                    }
                }
            }
            pc = p + 1;
            j += 1;
        } else if FILL_NULLS {
            match sink.push_null() {
                Err(er) => {
                    return Err(er);
                },
                Ok(()) => {},
            }
            proof {
                assert(nulls(start.null, 1) == start.null) by {
                    assert(nulls(start.null, 0) == Seq::<u8>::empty());
                    assert(Seq::<u8>::empty() + start.null == start.null);
                }
            }
        }
        proof {
            lemma_filtered_rows_failure_split(page, start, f, row_lo as int, q as int, q + 1);
            assert(filtered_rows_failure(page, start, f, q + 1, q + 1) is None);
            let a = start.data;
            let b = filtered_rows_bytes(page, start, f, row_lo as int, q as int);
            let c = filtered_row_bytes(page, start, f, q as int);
            assert((a + b) + c == a + (b + c));
            if !is_selected && !FILL_NULLS {
                assert(b + c == b);
            }
            assert(filtered_rows_flagged(page, start, f, row_lo as int, q + 1) == (
            filtered_rows_flagged(page, start, f, row_lo as int, q as int) || (f.selects(q as int)
                && row_flagged(page, start, f.page_row(q as int))))) by {
                if filtered_rows_flagged(page, start, f, row_lo as int, q + 1) {
                    let r = choose|r: int|
                        row_lo <= r < q + 1 && f.selects(r) && row_flagged(
                            page,
                            start,
                            f.page_row(r),
                        );
                    if r < q {
                        assert(row_lo <= r < q && f.selects(r) && row_flagged(
                            page,
                            start,
                            f.page_row(r),
                        ));
                    }
                }
                if filtered_rows_flagged(page, start, f, row_lo as int, q as int) {
                    let r = choose|r: int|
                        row_lo <= r < q && f.selects(r) && row_flagged(page, start, f.page_row(r));
                    assert(row_lo <= r < q + 1 && f.selects(r) && row_flagged(
                        page,
                        start,
                        f.page_row(r),
                    ));
                }
                if f.selects(q as int) && row_flagged(page, start, f.page_row(q as int)) {
                    assert(row_lo <= q < q + 1 && f.selects(q as int) && row_flagged(
                        page,
                        start,
                        f.page_row(q as int),
                    ));
                }
            }
        }
        q += 1;
    }
    proof {
        let now = sink.model();
        assert(extends(now.data, start.data)) by {
            assert(now.data.subrange(0, start.data.len() as int) == start.data);
        }
        assert(now.data == start.data + filtered_rows_bytes(
            page,
            start,
            f,
            row_lo as int,
            row_hi as int,
        ));
    }
    sink.result()
}

/// Where no row of `[lo, hi)` fails, row `r` does not.
pub proof fn lemma_rows_failure_none(page: &DataPage, m: SinkModel, lo: int, hi: int, r: int)
    requires
        lo <= r < hi,
        rows_failure(page, m, lo, hi) is None,
    ensures
        row_failure(page, m, r) is None,
{
    lemma_rows_failure_split(page, m, lo, r, hi);
    lemma_rows_failure_split(page, m, r, r + 1, hi);
    assert(rows_failure(page, m, r + 1, r + 1) is None);
}

/// Row `r` of a decoded range lies behind the rows before it: its bytes are
/// those from `(r - lo) * width` on.
pub proof fn lemma_row_in_rows_bytes(page: &DataPage, m: SinkModel, lo: int, hi: int, r: int)
    requires
        m.wf(),
        lo <= r < hi,
    ensures
        (r - lo) * m.width + m.width <= rows_bytes(page, m, lo, hi).len(),
        rows_bytes(page, m, lo, hi).subrange((r - lo) * m.width, (r - lo) * m.width + m.width)
            == row_bytes(page, m, r),
{
    lemma_rows_bytes_split(page, m, lo, r, hi);
    lemma_rows_bytes_split(page, m, r, r + 1, hi);
    lemma_rows_bytes_len(page, m, lo, r);
    lemma_rows_bytes_len(page, m, r, r + 1);
    lemma_rows_bytes_len(page, m, lo, hi);
    let before = rows_bytes(page, m, lo, r);
    let one = rows_bytes(page, m, r, r + 1);
    let after = rows_bytes(page, m, r + 1, hi);
    assert(one == row_bytes(page, m, r)) by {
        assert(rows_bytes(page, m, r, r) == Seq::<u8>::empty());
        assert(Seq::<u8>::empty() + row_bytes(page, m, r) == row_bytes(page, m, r));
    }
    assert(1 * m.width == m.width) by (nonlinear_arith);
    assert((r - lo) * m.width + m.width <= (hi - lo) * m.width) by (nonlinear_arith)
        requires
            r < hi,
            lo <= r,
    ;
    assert((before + (one + after)).subrange(before.len() as int, (before.len() + one.len()) as int)
        == one);
}

/// A null row is the null sentinel: where a decode of the rows `[lo, hi)`
/// succeeds, the bytes it appends for a row without a value are the sentinel
/// of the column, byte for byte.
pub proof fn lemma_null_row_is_sentinel(page: &DataPage, m: SinkModel, lo: int, hi: int, r: int)
    requires
        m.wf(),
        lo <= r < hi,
        !row_has_value(page, r),
    ensures
        rows_bytes(page, m, lo, hi).subrange((r - lo) * m.width, (r - lo) * m.width + m.width)
            == m.null,
{
    lemma_row_in_rows_bytes(page, m, lo, hi, r);
}

/// A row with a value keeps its integer: where a decode of the rows
/// `[lo, hi)` succeeds, the bytes it appends for a row with a value stand, in
/// the target layout, for the integer that the value stands for as big-endian
/// two's complement.
pub proof fn lemma_value_row_keeps_integer(page: &DataPage, m: SinkModel, lo: int, hi: int, r: int)
    requires
        m.wf(),
        lo <= r < hi,
        row_has_value(page, r),
        rows_failure(page, m, lo, hi) is None,
    ensures
        value_index(page, m, r) < m.source.values.len(),
        crate::value::target_signed(
            rows_bytes(page, m, lo, hi).subrange(
                (r - lo) * m.width,
                (r - lo) * m.width + m.width,
            ),
        ) == crate::value::be_signed(m.source.values[value_index(page, m, r) as int]),
{
    lemma_row_in_rows_bytes(page, m, lo, hi, r);
    lemma_rows_failure_none(page, m, lo, hi, r);
    let at = value_index(page, m, r);
    assert(values_failure(m.source.values, m.width, at + 1, 0) is None);
    crate::value::lemma_conversion_keeps_value(m.source.values[at as int], m.width);
}

/// Under a filter, the first failure of a range is that of its first part,
/// or else that of its second.
pub proof fn lemma_filtered_rows_failure_split(
    page: &DataPage,
    m: SinkModel,
    f: FilterFrame,
    lo: int,
    mid: int,
    hi: int,
)
    requires
        lo <= mid <= hi,
    ensures
        filtered_rows_failure(page, m, f, lo, hi) == match filtered_rows_failure(
            page,
            m,
            f,
            lo,
            mid,
        ) {
            Some(e) => Some(e),
            None => filtered_rows_failure(page, m, f, mid, hi),
        },
    decreases mid - lo,
{
    if lo < mid {
        lemma_filtered_rows_failure_split(page, m, f, lo + 1, mid, hi);
    }
}

/// Under a filter, the bytes of a range are those of its first part and then
/// those of its second.
pub proof fn lemma_filtered_rows_bytes_split(
    page: &DataPage,
    m: SinkModel,
    f: FilterFrame,
    lo: int,
    mid: int,
    hi: int,
)
    requires
        lo <= mid <= hi,
    ensures
        filtered_rows_bytes(page, m, f, lo, hi) == filtered_rows_bytes(page, m, f, lo, mid)
            + filtered_rows_bytes(page, m, f, mid, hi),
    decreases hi - mid,
{
    if mid < hi {
        lemma_filtered_rows_bytes_split(page, m, f, lo, mid, hi - 1);
        let a = filtered_rows_bytes(page, m, f, lo, mid);
        let b = filtered_rows_bytes(page, m, f, mid, hi - 1);
        let c = filtered_row_bytes(page, m, f, hi - 1);
        assert(a + (b + c) == (a + b) + c);
    } else {
        assert(filtered_rows_bytes(page, m, f, lo, mid) + Seq::<u8>::empty()
            == filtered_rows_bytes(page, m, f, lo, mid));
    }
}

/// Under a filter, the bytes of row `r` lie behind those of the rows before
/// it that got bytes.
pub proof fn lemma_row_in_filtered_rows_bytes(
    page: &DataPage,
    m: SinkModel,
    f: FilterFrame,
    lo: int,
    hi: int,
    r: int,
)
    requires
        m.wf(),
        lo <= r < hi,
        f.selects(r) || f.fill_nulls,
    ensures
        filtered_row_count(f, lo, r) * m.width + m.width <= filtered_rows_bytes(
            page,
            m,
            f,
            lo,
            hi,
        ).len(),
        filtered_rows_bytes(page, m, f, lo, hi).subrange(
            (filtered_row_count(f, lo, r) * m.width) as int,
            (filtered_row_count(f, lo, r) * m.width + m.width) as int,
        ) == filtered_row_bytes(page, m, f, r),
{
    lemma_filtered_rows_bytes_split(page, m, f, lo, r, hi);
    lemma_filtered_rows_bytes_split(page, m, f, r, r + 1, hi);
    lemma_filtered_rows_bytes_len(page, m, f, lo, r);
    lemma_filtered_rows_bytes_len(page, m, f, r, r + 1);
    let before = filtered_rows_bytes(page, m, f, lo, r);
    let one = filtered_rows_bytes(page, m, f, r, r + 1);
    let after = filtered_rows_bytes(page, m, f, r + 1, hi);
    assert(one == filtered_row_bytes(page, m, f, r)) by {
        assert(filtered_rows_bytes(page, m, f, r, r) == Seq::<u8>::empty());
        assert(Seq::<u8>::empty() + filtered_row_bytes(page, m, f, r) == filtered_row_bytes(
            page,
            m,
            f,
            r,
        ));
    }
    assert(one.len() == m.width);
    assert((before + (one + after)).subrange(before.len() as int, (before.len() + one.len()) as int)
        == one);
}

/// Under a filter a null row is the null sentinel: a selected row without a
/// value, and with fill a row that the filter leaves out.
pub proof fn lemma_filtered_null_row_is_sentinel(
    page: &DataPage,
    m: SinkModel,
    f: FilterFrame,
    lo: int,
    hi: int,
    r: int,
)
    requires
        m.wf(),
        lo <= r < hi,
        (f.selects(r) && !row_has_value(page, f.page_row(r))) || (!f.selects(r) && f.fill_nulls),
    ensures
        filtered_rows_bytes(page, m, f, lo, hi).subrange(
            (filtered_row_count(f, lo, r) * m.width) as int,
            (filtered_row_count(f, lo, r) * m.width + m.width) as int,
        ) == m.null,
{
    lemma_row_in_filtered_rows_bytes(page, m, f, lo, hi, r);
}

/// Under a filter a selected row with a value keeps its integer.
pub proof fn lemma_filtered_value_row_keeps_integer(
    page: &DataPage,
    m: SinkModel,
    f: FilterFrame,
    lo: int,
    hi: int,
    r: int,
)
    requires
        m.wf(),
        lo <= r < hi,
        f.selects(r),
        row_has_value(page, f.page_row(r)),
        filtered_rows_failure(page, m, f, lo, hi) is None,
    ensures
        value_index(page, m, f.page_row(r)) < m.source.values.len(),
        crate::value::target_signed(
            filtered_rows_bytes(page, m, f, lo, hi).subrange(
                (filtered_row_count(f, lo, r) * m.width) as int,
                (filtered_row_count(f, lo, r) * m.width + m.width) as int,
            ),
        ) == crate::value::be_signed(
            m.source.values[value_index(page, m, f.page_row(r)) as int],
        ),
{
    lemma_row_in_filtered_rows_bytes(page, m, f, lo, hi, r);
    lemma_filtered_rows_failure_split(page, m, f, lo, r, hi);
    lemma_filtered_rows_failure_split(page, m, f, r, r + 1, hi);
    assert(filtered_rows_failure(page, m, f, r + 1, r + 1) is None);
    let at = value_index(page, m, f.page_row(r));
    assert(values_failure(m.source.values, m.width, at + 1, 0) is None);
    crate::value::lemma_conversion_keeps_value(m.source.values[at as int], m.width);
}

/// The number of entries of a filter that lie in `[lo, hi)`.
pub open spec fn entries_within(filter: Seq<i64>, lo: int, hi: int) -> nat
    decreases filter.len(),
{
    if filter.len() == 0 {
        0
    } else {
        entries_within(filter.drop_last(), lo, hi) + if lo <= filter.last() < hi {
            1nat
        } else {
            0nat
        }
    }
}

/// One more row in a filter is one more selected row where it lies in the
/// range.
proof fn lemma_selected_count_with(f: FilterFrame, g: FilterFrame, x: int, lo: int, hi: int)
    requires
        forall|r: int| g.selects(r) == (f.selects(r) || r == x),
        !f.selects(x),
    ensures
        selected_count(g, lo, hi) == selected_count(f, lo, hi) + if lo <= x < hi {
            1nat
        } else {
            0nat
        },
    decreases hi - lo,
{
    if lo < hi {
        lemma_selected_count_with(f, g, x, lo, hi - 1);
    }
}

/// No row is selected by a filter without entries.
proof fn lemma_selected_count_empty(f: FilterFrame, lo: int, hi: int)
    requires
        f.filter.len() == 0,
    ensures
        selected_count(f, lo, hi) == 0,
    decreases hi - lo,
{
    if lo < hi {
        lemma_selected_count_empty(f, lo, hi - 1);
    }
}

/// The selected rows are the entries of the filter: an ascending filter
/// selects as many rows of `[lo, hi)` as it has entries there.
pub proof fn lemma_selected_count_is_entries(f: FilterFrame, lo: int, hi: int)
    requires
        ascending(f.filter),
    ensures
        selected_count(f, lo, hi) == entries_within(f.filter, lo, hi),
    decreases f.filter.len(),
{
    if f.filter.len() == 0 {
        lemma_selected_count_empty(f, lo, hi);
    } else {
        let shorter = FilterFrame { filter: f.filter.drop_last(), ..f };
        let x = f.filter.last() as int;
        let n = f.filter.len() - 1;
        assert forall|i: int, j: int| 0 <= i < j < shorter.filter.len() implies shorter.filter[i]
            < shorter.filter[j] by {
            assert(shorter.filter[i] == f.filter[i]);
            assert(shorter.filter[j] == f.filter[j]);
        }
        lemma_selected_count_is_entries(shorter, lo, hi);
        assert(!shorter.selects(x)) by {
            if shorter.selects(x) {
                let i = choose|i: int|
                    0 <= i < shorter.filter.len() && shorter.filter[i] as int == x;
                assert(f.filter[i] < f.filter[n]);
            }
        }
        assert forall|r: int| f.selects(r) == (shorter.selects(r) || r == x) by {
            if f.selects(r) {
                let i = choose|i: int| 0 <= i < f.filter.len() && f.filter[i] as int == r;
                if i < n {
                    assert(shorter.filter[i] as int == r);
                }
            }
            if shorter.selects(r) {
                let i = choose|i: int|
                    0 <= i < shorter.filter.len() && shorter.filter[i] as int == r;
                assert(f.filter[i] as int == r);
            }
            if r == x {
                assert(f.filter[n] as int == r);
            }
        }
        lemma_selected_count_with(shorter, f, x, lo, hi);
    }
}

/// Where each row of `[lo, hi)` can be decoded, the range has no failure.
pub proof fn lemma_rows_without_failure(page: &DataPage, m: SinkModel, lo: int, hi: int)
    requires
        forall|p: int| lo <= p < hi ==> row_failure(page, m, p) is None,
    ensures
        rows_failure(page, m, lo, hi) is None,
    decreases hi - lo,
{
    if lo < hi {
        lemma_rows_without_failure(page, m, lo + 1, hi);
    }
}

/// The first row that fails decides: where room can be reserved and the
/// levels can be read, the decode fails with the failure of the first row of
/// the range that cannot be decoded, and the column holds, behind what it
/// held, rows before that row only. Where the first row of the range fails,
/// the column is as it was.
pub proof fn lemma_first_failure_decides(
    page: &DataPage,
    m: SinkModel,
    lo: int,
    hi: int,
    after: Seq<u8>,
    q: int,
)
    requires
        reserve_result(m.data.len(), m.width, (hi - lo) as nat) is Ok,
        levels_result(page) is Ok,
        holds_rows(page, m, lo, hi, after),
        lo <= q < hi,
        forall|p: int| lo <= p < q ==> row_failure(page, m, p) is None,
        row_failure(page, m, q) is Some,
    ensures
        page_result(page, m, lo, hi) == Err::<(), ParquetError>(row_failure(page, m, q)->0),
        exists|k: int| lo <= k <= q && after == m.data + #[trigger] rows_bytes(page, m, lo, k),
        q == lo ==> after == m.data,
{
    lemma_rows_without_failure(page, m, lo, q);
    lemma_rows_failure_split(page, m, lo, q, hi);
    let k = choose|k: int|
        lo <= k <= hi && rows_failure(page, m, lo, k) is None && after == m.data
            + #[trigger] rows_bytes(page, m, lo, k);
    if k > q {
        lemma_rows_failure_none(page, m, lo, k, q);
    }
    assert(lo <= k <= q && after == m.data + rows_bytes(page, m, lo, k));
    if q == lo {
        assert(m.data + rows_bytes(page, m, lo, lo) == m.data);
    }
}

/// Where each row of `[lo, hi)` can be decoded under a filter, the range has
/// no failure.
pub proof fn lemma_filtered_rows_without_failure(
    page: &DataPage,
    m: SinkModel,
    f: FilterFrame,
    lo: int,
    hi: int,
)
    requires
        forall|p: int| lo <= p < hi ==> filtered_row_failure(page, m, f, p) is None,
    ensures
        filtered_rows_failure(page, m, f, lo, hi) is None,
    decreases hi - lo,
{
    if lo < hi {
        lemma_filtered_rows_without_failure(page, m, f, lo + 1, hi);
    }
}

/// Under a filter the first row that fails decides, and the column holds,
/// behind what it held, rows before that row only.
pub proof fn lemma_first_filtered_failure_decides(
    page: &DataPage,
    m: SinkModel,
    f: FilterFrame,
    lo: int,
    hi: int,
    after: Seq<u8>,
    q: int,
)
    requires
        reserve_result(
            m.data.len(),
            m.width,
            if f.fill_nulls {
                (hi - lo) as nat
            } else {
                f.filter.len()
            },
        ) is Ok,
        levels_result(page) is Ok,
        holds_filtered_rows(page, m, f, lo, hi, after),
        lo <= q < hi,
        forall|p: int| lo <= p < q ==> filtered_row_failure(page, m, f, p) is None,
        filtered_row_failure(page, m, f, q) is Some,
    ensures
        filtered_result(page, m, f, lo, hi) == Err::<(), ParquetError>(
            filtered_row_failure(page, m, f, q)->0,
        ),
        exists|k: int|
            lo <= k <= q && after == m.data + #[trigger] filtered_rows_bytes(page, m, f, lo, k),
        q == lo ==> after == m.data,
{
    lemma_filtered_rows_without_failure(page, m, f, lo, q);
    lemma_filtered_rows_failure_split(page, m, f, lo, q, hi);
    let k = choose|k: int|
        lo <= k <= hi && filtered_rows_failure(page, m, f, lo, k) is None && after == m.data
            + #[trigger] filtered_rows_bytes(page, m, f, lo, k);
    if k > q {
        lemma_filtered_rows_failure_split(page, m, f, lo, q, k);
        lemma_filtered_rows_failure_split(page, m, f, q, q + 1, k);
    }
    assert(lo <= k <= q && after == m.data + filtered_rows_bytes(page, m, f, lo, k));
    if q == lo {
        assert(m.data + filtered_rows_bytes(page, m, f, lo, lo) == m.data);
    }
}

} // verus!
