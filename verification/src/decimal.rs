//! The entry points: one for each kind of page, with and without a row
//! filter. Each picks the slicer for the page and the sink for the widths of
//! source and target, and hands both to the decode driver.

use vstd::prelude::*;
use vstd::slice::slice_subrange;

use crate::column_sink::{
    reserve_result, ByteArrayDecimalColumnSink, ReverseFixedColumnSink,
    SignExtendDecimalColumnSink, SinkModel, WordSwapDecimalColumnSink,
};
use crate::column_type::{
    decimal_size, null_bytes, valid_width, ColumnTypeTag, DECIMAL128_NULL, DECIMAL16_NULL,
    DECIMAL256_NULL, DECIMAL32_NULL, DECIMAL64_NULL, DECIMAL8_NULL,
};
use crate::decode::{
    ascending, decode_page0, decode_page0_filtered, decoded_upto, extends, filter_frame,
    filtered_data, filtered_result, filtered_row_count, filtered_row_failure, filtered_rows_bytes,
    filtered_upto, holds_filtered_rows, holds_rows, lemma_filtered_null_row_is_sentinel,
    lemma_filtered_value_row_keeps_integer, lemma_first_failure_decides,
    lemma_first_filtered_failure_decides, lemma_row_in_filtered_rows_bytes,
    lemma_row_in_rows_bytes, lemma_rows_bytes_len, lemma_value_row_keeps_integer, page_data,
    page_result, passed_rows, row_failure, rows_bytes, value_index, FilterFrame,
};
use crate::dict_decoder::{
    fixed_dict_result, var_dict_result, DictDecoder, RuntimeFixedDictDecoder, VarDictDecoder,
};
use crate::error::{Layout, ParquetError, ParquetResult, Unsupported};
use crate::convert::{conversion_error, fits};
use crate::page::{
    lemma_rank_without_levels, levels_result, row_has_value, ColumnChunkBuffers, DataPage,
    DictPage,
};
use crate::hybrid_rle::at_most;
use crate::rle::{dict_source, index_stream, lemma_dict_source_uniform, RleDictionarySlicer};
use crate::slicer::{
    fixed_values, plain_source, uniform, var_values, DataPageDynSlicer, DataPageSlicer,
    PlainVarSlicer, SlicerModel,
};
use crate::value::{be_signed, target_signed};

verus! {

/// The value that a dictionary of byte arrays hands out for an index that it
/// does not have.
pub const DECIMAL_DICT_ERROR_VALUE: [u8; 1] = [0u8];

/// As many zero bytes as the widest source has.
const ZEROS: [u8; 32] = [
    0, 0, 0, 0, 0, 0, 0, 0, 0, 0, 0, 0, 0, 0, 0, 0,
    0, 0, 0, 0, 0, 0, 0, 0, 0, 0, 0, 0, 0, 0, 0, 0,
];

/// What an entry point has made of its arguments before it hands over to the
/// driver: the width of the column, or the error of the check that failed,
/// and the values of the page.
pub struct Plan {
    pub check: ParquetResult<nat>,
    pub source: SlicerModel,
}

/// A sink of `width` bytes over the column bytes `data` that pulls from
/// `source`.
pub open spec fn column_model(width: nat, data: Seq<u8>, source: SlicerModel) -> SinkModel {
    SinkModel { width, null: null_bytes(width), data, source }
}

/// The width of the target, where it is a decimal.
pub open spec fn target_check(target: ColumnTypeTag) -> ParquetResult<nat> {
    match decimal_size(target) {
        None => Err(ParquetError::Unsupported(Unsupported::TargetType { target })),
        Some(n) => Ok(n),
    }
}

/// The width of the target, where it is a decimal and the fixed width of the
/// source is one of 1 to 32 bytes.
pub open spec fn fixed_check(target: ColumnTypeTag, src_len: usize) -> ParquetResult<nat> {
    match decimal_size(target) {
        None => Err(ParquetError::Unsupported(Unsupported::TargetType { target })),
        Some(n) => if src_len == 0 || src_len > 32 {
            Err(ParquetError::Unsupported(Unsupported::SourceLength { src_len, target }))
        } else {
            Ok(n)
        },
    }
}

/// The check of a dictionary-encoded page: the dictionary is made first, then
/// the index stream is read, then `check` is made.
pub open spec fn dict_check(
    dict: ParquetResult<()>,
    stream: Option<Seq<u32>>,
    check: ParquetResult<nat>,
) -> ParquetResult<nat> {
    match dict {
        Err(e) => Err(e),
        Ok(_) => match stream {
            None => Err(ParquetError::Layout(Layout::RleStream)),
            Some(_) => check,
        },
    }
}

/// `n` zero bytes.
pub open spec fn zeros(n: nat) -> Seq<u8> {
    Seq::new(n, |i: int| 0u8)
}

/// The plan for a plain page of `row_count` values of `src_len` bytes.
pub open spec fn fixed_plan(
    values_buffer: Seq<u8>,
    row_count: usize,
    src_len: usize,
    target: ColumnTypeTag,
) -> Plan {
    Plan {
        check: fixed_check(target, src_len),
        source: plain_source(fixed_values(values_buffer, row_count as nat, src_len as nat)),
    }
}

/// The plan for a plain page of `row_count` byte arrays.
pub open spec fn byte_array_plan(
    values_buffer: Seq<u8>,
    row_count: usize,
    target: ColumnTypeTag,
) -> Plan {
    Plan {
        check: target_check(target),
        source: plain_source(var_values(values_buffer, 0, row_count as nat)),
    }
}

/// The plan for a dictionary-encoded page over a dictionary of values of
/// `src_len` bytes, of which `limit` indices at most are read. A value that
/// the dictionary does not have is `src_len` zero bytes.
pub open spec fn fixed_dict_plan(
    dict_page: &DictPage,
    values_buffer: Seq<u8>,
    limit: nat,
    src_len: usize,
    target: ColumnTypeTag,
) -> Plan {
    Plan {
        check: dict_check(
            fixed_dict_result(dict_page, src_len),
            index_stream(values_buffer, limit),
            fixed_check(target, src_len),
        ),
        source: dict_source(
            fixed_values(dict_page.buffer@, dict_page.num_values as nat, src_len as nat),
            index_stream(values_buffer, limit)->0,
            zeros(at_most(src_len as nat, 32)),
        ),
    }
}

/// The plan for a dictionary-encoded page over a dictionary of byte arrays,
/// of which `limit` indices at most are read. A value that the dictionary
/// does not have is one zero byte.
pub open spec fn byte_array_dict_plan(
    dict_page: &DictPage,
    values_buffer: Seq<u8>,
    limit: nat,
    target: ColumnTypeTag,
) -> Plan {
    Plan {
        check: dict_check(
            var_dict_result(dict_page),
            index_stream(values_buffer, limit),
            target_check(target),
        ),
        source: dict_source(
            var_values(dict_page.buffer@, 0, dict_page.num_values as nat),
            index_stream(values_buffer, limit)->0,
            zeros(1),
        ),
    }
}

/// The result of decoding the rows `[lo, hi)` of a page into a column that
/// holds `data`: the error of the check that failed, or the result of the
/// driver.
pub open spec fn plan_result(
    plan: Plan,
    page: &DataPage,
    data: Seq<u8>,
    lo: int,
    hi: int,
) -> ParquetResult<()> {
    match plan.check {
        Err(e) => Err(e),
        Ok(n) => page_result(page, column_model(n, data, plan.source), lo, hi),
    }
}

/// The bytes of the column after the decode, as far as the result tells
/// them: what was there where a check fails or no room can be reserved, and
/// with it each row where none fails. Where a row fails, the rows that were
/// appended before it stay, and the result does not tell how many they are.
pub open spec fn plan_data(plan: Plan, page: &DataPage, data: Seq<u8>, lo: int, hi: int) -> Option<
    Seq<u8>,
> {
    match plan.check {
        Err(_) => Some(data),
        Ok(n) => page_data(page, column_model(n, data, plan.source), lo, hi),
    }
}

/// What a decode of the rows `[lo, hi)` owes: the result `r`, and the bytes
/// `after` of a column that held `before`. On success the column has grown by
/// one value for each row. However the decode ends, the column has lost no
/// byte and has gained whole rows only.
pub open spec fn decoded(
    plan: Plan,
    page: &DataPage,
    before: Seq<u8>,
    lo: int,
    hi: int,
    r: ParquetResult<()>,
    after: Seq<u8>,
) -> bool {
    &&& r == plan_result(plan, page, before, lo, hi)
    &&& plan_data(plan, page, before, lo, hi) is Some ==> after == plan_data(
        plan,
        page,
        before,
        lo,
        hi,
    )->0
    &&& r is Ok ==> after.len() == before.len() + (hi - lo) * plan.check->Ok_0
    &&& extends(after, before)
    &&& plan.check is Ok ==> holds_rows(
        page,
        column_model(plan.check->Ok_0, before, plan.source),
        lo,
        hi,
        after,
    )
}

/// The result of decoding the rows `[lo, hi)` under a filter.
pub open spec fn plan_filtered_result(
    plan: Plan,
    page: &DataPage,
    data: Seq<u8>,
    f: FilterFrame,
    lo: int,
    hi: int,
) -> ParquetResult<()> {
    match plan.check {
        Err(e) => Err(e),
        Ok(n) => filtered_result(page, column_model(n, data, plan.source), f, lo, hi),
    }
}

/// The bytes of the column after the decode under a filter, as far as the
/// result tells them.
pub open spec fn plan_filtered_data(
    plan: Plan,
    page: &DataPage,
    data: Seq<u8>,
    f: FilterFrame,
    lo: int,
    hi: int,
) -> Option<Seq<u8>> {
    match plan.check {
        Err(_) => Some(data),
        Ok(n) => filtered_data(page, column_model(n, data, plan.source), f, lo, hi),
    }
}

/// What a decode of the rows `[lo, hi)` under a filter owes. On success the
/// column has grown by one value for each row with fill, and by one value for
/// each selected row without. However the decode ends, the column has lost no
/// byte and has gained whole rows only.
pub open spec fn decoded_filtered(
    plan: Plan,
    page: &DataPage,
    before: Seq<u8>,
    f: FilterFrame,
    lo: int,
    hi: int,
    r: ParquetResult<()>,
    after: Seq<u8>,
) -> bool {
    &&& r == plan_filtered_result(plan, page, before, f, lo, hi)
    &&& plan_filtered_data(plan, page, before, f, lo, hi) is Some ==> after == plan_filtered_data(
        plan,
        page,
        before,
        f,
        lo,
        hi,
    )->0
    &&& r is Ok ==> after.len() == before.len() + filtered_row_count(f, lo, hi) * plan.check->Ok_0
    &&& extends(after, before)
    &&& plan.check is Ok ==> holds_filtered_rows(
        page,
        column_model(plan.check->Ok_0, before, plan.source),
        f,
        lo,
        hi,
        after,
    )
}

/// The `k`-th value of `n` bytes that `after` holds behind `before`.
pub open spec fn appended_value(after: Seq<u8>, before: Seq<u8>, k: int, n: nat) -> Seq<u8> {
    after.subrange(before.len() + k * n, before.len() + k * n + n)
}

/// What a successful decode has written for row `row`: the null sentinel of
/// the column where the row holds no value, and otherwise bytes that stand,
/// in the target layout, for the integer that the value of the row stands
/// for as big-endian two's complement.
pub proof fn lemma_decoded_row(
    plan: Plan,
    page: &DataPage,
    before: Seq<u8>,
    lo: int,
    hi: int,
    r: ParquetResult<()>,
    after: Seq<u8>,
    row: int,
)
    requires
        decoded(plan, page, before, lo, hi, r, after),
        r is Ok,
        plan.source.wf(),
        valid_width(plan.check->Ok_0),
        lo <= row < hi,
    ensures
        before.len() + (row - lo) * plan.check->Ok_0 + plan.check->Ok_0 <= after.len(),
        !row_has_value(page, row) ==> appended_value(after, before, row - lo, plan.check->Ok_0)
            == null_bytes(plan.check->Ok_0),
        row_has_value(page, row) ==> target_signed(
            appended_value(after, before, row - lo, plan.check->Ok_0),
        ) == be_signed(
            plan.source.values[value_index(
                page,
                column_model(plan.check->Ok_0, before, plan.source),
                row,
            ) as int],
        ),
{
    let n = plan.check->Ok_0;
    let m = column_model(n, before, plan.source);
    let bytes = rows_bytes(page, m, lo, hi);
    assert(after == before + bytes);
    lemma_row_in_rows_bytes(page, m, lo, hi, row);
    let from = (row - lo) * n;
    assert(appended_value(after, before, row - lo, n) == bytes.subrange(from, from + n));
    if row_has_value(page, row) {
        lemma_value_row_keeps_integer(page, m, lo, hi, row);
    }
}

/// What a successful decode under a filter has written for row `row`, where
/// it has written for it: the null sentinel where the filter leaves the row
/// out or the row holds no value, and otherwise bytes that stand for the
/// integer of its value. The bytes lie behind those of the rows before it
/// that got bytes.
pub proof fn lemma_decoded_filtered_row(
    plan: Plan,
    page: &DataPage,
    before: Seq<u8>,
    f: FilterFrame,
    lo: int,
    hi: int,
    r: ParquetResult<()>,
    after: Seq<u8>,
    row: int,
)
    requires
        decoded_filtered(plan, page, before, f, lo, hi, r, after),
        r is Ok,
        plan.source.wf(),
        valid_width(plan.check->Ok_0),
        lo <= row < hi,
        f.selects(row) || f.fill_nulls,
    ensures
        before.len() + filtered_row_count(f, lo, row) * plan.check->Ok_0 + plan.check->Ok_0
            <= after.len(),
        !(f.selects(row) && row_has_value(page, f.page_row(row))) ==> appended_value(
            after,
            before,
            filtered_row_count(f, lo, row) as int,
            plan.check->Ok_0,
        ) == null_bytes(plan.check->Ok_0),
        f.selects(row) && row_has_value(page, f.page_row(row)) ==> target_signed(
            appended_value(
                after,
                before,
                filtered_row_count(f, lo, row) as int,
                plan.check->Ok_0,
            ),
        ) == be_signed(
            plan.source.values[value_index(
                page,
                column_model(plan.check->Ok_0, before, plan.source),
                f.page_row(row),
            ) as int],
        ),
{
    let n = plan.check->Ok_0;
    let m = column_model(n, before, plan.source);
    let bytes = filtered_rows_bytes(page, m, f, lo, hi);
    assert(after == before + bytes);
    lemma_row_in_filtered_rows_bytes(page, m, f, lo, hi, row);
    let k = filtered_row_count(f, lo, row) as int;
    assert(appended_value(after, before, k, n) == bytes.subrange(k * n, k * n + n));
    if f.selects(row) && row_has_value(page, f.page_row(row)) {
        lemma_filtered_value_row_keeps_integer(page, m, f, lo, hi, row);
    } else {
        lemma_filtered_null_row_is_sentinel(page, m, f, lo, hi, row);
    }
}

/// Whether `after` is longer than `before` by `count` values of `n` bytes.
pub open spec fn grown_by(after: Seq<u8>, before: Seq<u8>, count: int, n: nat) -> bool {
    after.len() == before.len() + count * n
}

/// The first row that fails decides the decode: where the check passes, room
/// can be reserved and the levels can be read, the decode returns the failure
/// of the first row of the range that cannot be decoded. The column then
/// holds, behind what it held, whole rows before that row only; where the
/// first row of the range fails, the column is as it was.
pub proof fn lemma_decoded_first_failure(
    plan: Plan,
    page: &DataPage,
    before: Seq<u8>,
    lo: int,
    hi: int,
    r: ParquetResult<()>,
    after: Seq<u8>,
    q: int,
)
    requires
        decoded(plan, page, before, lo, hi, r, after),
        plan.check is Ok,
        plan.source.wf(),
        valid_width(plan.check->Ok_0),
        reserve_result(before.len(), plan.check->Ok_0, (hi - lo) as nat) is Ok,
        levels_result(page) is Ok,
        lo <= q < hi,
        forall|p: int|
            lo <= p < q ==> row_failure(
                page,
                column_model(plan.check->Ok_0, before, plan.source),
                p,
            ) is None,
        row_failure(page, column_model(plan.check->Ok_0, before, plan.source), q) is Some,
    ensures
        r == Err::<(), ParquetError>(
            row_failure(page, column_model(plan.check->Ok_0, before, plan.source), q)->0,
        ),
        exists|c: int|
            0 <= c <= q - lo && #[trigger] grown_by(after, before, c, plan.check->Ok_0),
        q == lo ==> after == before,
        extends(after, before),
{
    let m = column_model(plan.check->Ok_0, before, plan.source);
    lemma_first_failure_decides(page, m, lo, hi, after, q);
    let k = choose|k: int| lo <= k <= q && after == m.data + #[trigger] rows_bytes(page, m, lo, k);
    lemma_rows_bytes_len(page, m, lo, k);
    assert(grown_by(after, before, k - lo, plan.check->Ok_0));
}

/// A value that does not fit fails the decode: where the check passes, room
/// can be reserved, the levels can be read and no row before fails, a row
/// whose value the page holds and the column cannot store makes the decode
/// return the error of the conversion of that value.
pub proof fn lemma_decoded_unfit_value(
    plan: Plan,
    page: &DataPage,
    before: Seq<u8>,
    lo: int,
    hi: int,
    r: ParquetResult<()>,
    after: Seq<u8>,
    q: int,
)
    requires
        decoded(plan, page, before, lo, hi, r, after),
        plan.check is Ok,
        plan.source.wf(),
        valid_width(plan.check->Ok_0),
        reserve_result(before.len(), plan.check->Ok_0, (hi - lo) as nat) is Ok,
        levels_result(page) is Ok,
        lo <= q < hi,
        forall|p: int|
            lo <= p < q ==> row_failure(
                page,
                column_model(plan.check->Ok_0, before, plan.source),
                p,
            ) is None,
        row_has_value(page, q),
        value_index(page, column_model(plan.check->Ok_0, before, plan.source), q)
            < plan.source.values.len(),
        !fits(
            plan.source.values[value_index(
                page,
                column_model(plan.check->Ok_0, before, plan.source),
                q,
            ) as int],
            plan.check->Ok_0,
        ),
    ensures
        r == Err::<(), ParquetError>(
            conversion_error(
                plan.source.values[value_index(
                    page,
                    column_model(plan.check->Ok_0, before, plan.source),
                    q,
                ) as int],
                plan.check->Ok_0,
            ),
        ),
        q == lo ==> after == before,
        extends(after, before),
{
    lemma_decoded_first_failure(plan, page, before, lo, hi, r, after, q);
}

/// Under a filter the first row that fails decides the decode, and the
/// column then holds, behind what it held, whole rows before that row only.
pub proof fn lemma_decoded_filtered_first_failure(
    plan: Plan,
    page: &DataPage,
    before: Seq<u8>,
    f: FilterFrame,
    lo: int,
    hi: int,
    r: ParquetResult<()>,
    after: Seq<u8>,
    q: int,
)
    requires
        decoded_filtered(plan, page, before, f, lo, hi, r, after),
        plan.check is Ok,
        reserve_result(
            before.len(),
            plan.check->Ok_0,
            if f.fill_nulls {
                (hi - lo) as nat
            } else {
                f.filter.len()
            },
        ) is Ok,
        levels_result(page) is Ok,
        lo <= q < hi,
        forall|p: int|
            lo <= p < q ==> filtered_row_failure(
                page,
                column_model(plan.check->Ok_0, before, plan.source),
                f,
                p,
            ) is None,
        filtered_row_failure(page, column_model(plan.check->Ok_0, before, plan.source), f, q)
            is Some,
    ensures
        r == Err::<(), ParquetError>(
            filtered_row_failure(
                page,
                column_model(plan.check->Ok_0, before, plan.source),
                f,
                q,
            )->0,
        ),
        q == lo ==> after == before,
        extends(after, before),
{
    let m = column_model(plan.check->Ok_0, before, plan.source);
    lemma_first_filtered_failure_decides(page, m, f, lo, hi, after, q);
}

/// In a plain page of values of one width and without definition levels, the
/// value of row `p` is the bytes of the values buffer from `p * src_len` on.
pub proof fn lemma_fixed_plain_row_value(
    values_buffer: Seq<u8>,
    row_count: usize,
    src_len: usize,
    target: ColumnTypeTag,
    page: &DataPage,
    m: SinkModel,
    p: int,
)
    requires
        page.max_def_level == 0,
        m.source == fixed_plan(values_buffer, row_count, src_len, target).source,
        0 <= p < page.num_values,
        p < m.source.values.len(),
    ensures
        row_has_value(page, p),
        value_index(page, m, p) == p,
        m.source.values[value_index(page, m, p) as int] == values_buffer.subrange(
            p * src_len,
            p * src_len + src_len,
        ),
{
    lemma_rank_without_levels(page, p);
}

/// The constants of the null sentinels are the sentinels.
pub proof fn lemma_null_sentinels()
    ensures
        DECIMAL8_NULL@ == null_bytes(1),
        DECIMAL16_NULL@ == null_bytes(2),
        DECIMAL32_NULL@ == null_bytes(4),
        DECIMAL64_NULL@ == null_bytes(8),
        DECIMAL128_NULL@ == null_bytes(16),
        DECIMAL256_NULL@ == null_bytes(32),
{
    assert(DECIMAL8_NULL@ =~= null_bytes(1));
    assert(DECIMAL16_NULL@ =~= null_bytes(2));
    assert(DECIMAL32_NULL@ =~= null_bytes(4));
    assert(DECIMAL64_NULL@ =~= null_bytes(8));
    assert(DECIMAL128_NULL@ =~= null_bytes(16));
    assert(DECIMAL256_NULL@ =~= null_bytes(32));
}

/// A column that did not change lost no byte.
proof fn lemma_extends_self(data: Seq<u8>)
    ensures
        extends(data, data),
{
    assert(data.subrange(0, data.len() as int) == data);
}

/// The stand-in for a value that a fixed dictionary does not have: zero
/// bytes, as many as a value has.
fn fixed_error_value(src_len: usize) -> (v: &'static [u8])
    ensures
        v@ == zeros(at_most(src_len as nat, 32)),
{
    let n: usize = if src_len <= 32 {
        src_len
    } else {
        32
    };
    let v = slice_subrange(ZEROS.as_slice(), 0, n);
    assert(v@ =~= zeros(at_most(src_len as nat, 32)));
    v
}

/// Decodes the rows `[row_lo, row_hi)` of a plain page of decimals of
/// `src_len` bytes each into a decimal column of type `target_tag`.
///
/// Fails, before anything is written, where `target_tag` is no decimal or
/// `src_len` is not one of 1 to 32.
pub fn decode_fixed_decimal(
    page: &DataPage,
    bufs: &mut ColumnChunkBuffers,
    values_buffer: &[u8],
    row_lo: usize,
    row_hi: usize,
    row_count: usize,
    src_len: usize,
    target_tag: ColumnTypeTag,
) -> (r: ParquetResult<()>)
    requires
        row_lo <= row_hi,
    ensures
        decoded(
            fixed_plan(values_buffer@, row_count, src_len, target_tag),
            page,
            old(bufs).data_vec@,
            row_lo as int,
            row_hi as int,
            r,
            final(bufs).data_vec@,
        ),
{
    let mut slicer = DataPageDynSlicer::new(values_buffer, row_count, src_len);
    decode_fixed_decimal_with_slicer(page, bufs, &mut slicer, row_lo, row_hi, src_len, target_tag)
}

/// Decodes the rows `[row_lo, row_hi)` of a dictionary-encoded page of
/// decimals of `src_len` bytes each into a decimal column of type
/// `target_tag`.
///
/// Fails, before anything is written, where the dictionary does not hold its
/// declared values, the index stream is malformed, `target_tag` is no decimal
/// or `src_len` is not one of 1 to 32. An index beyond the dictionary fails
/// the decode only after each row was written.
pub fn decode_fixed_decimal_dict(
    page: &DataPage,
    dict_page: &DictPage,
    bufs: &mut ColumnChunkBuffers,
    values_buffer: &[u8],
    row_lo: usize,
    row_hi: usize,
    row_count: usize,
    src_len: usize,
    target_tag: ColumnTypeTag,
) -> (r: ParquetResult<()>)
    requires
        row_lo <= row_hi,
    ensures
        decoded(
            fixed_dict_plan(
                dict_page,
                values_buffer@,
                at_most(row_hi as nat, row_count as nat),
                src_len,
                target_tag,
            ),
            page,
            old(bufs).data_vec@,
            row_lo as int,
            row_hi as int,
            r,
            final(bufs).data_vec@,
        ),
{
    proof {
        lemma_extends_self(bufs.data_vec@);
    }
    let dict_decoder = match RuntimeFixedDictDecoder::try_new(dict_page, src_len) {
        Err(e) => {
            return Err(e);
        },
        Ok(d) => d,
    };
    let error_value: &[u8] = fixed_error_value(src_len);
    let ghost entries = dict_decoder.entries();
    let mut slicer = match RleDictionarySlicer::try_new(
        values_buffer,
        dict_decoder,
        row_hi,
        row_count,
        error_value,
    ) {
        Err(e) => {
            return Err(e);
        },
        Ok(s) => s,
    };
    proof {
        if src_len <= 32 {
            lemma_dict_source_uniform(
                entries,
                index_stream(values_buffer@, at_most(row_hi as nat, row_count as nat))->0,
                error_value@,
                src_len as nat,
            );
        }
    }
    decode_fixed_decimal_with_slicer(page, bufs, &mut slicer, row_lo, row_hi, src_len, target_tag)
}

/// Decodes the rows `[row_lo, row_hi)` of a plain page of byte-array
/// decimals into a decimal column of type `target_tag`.
///
/// Fails, before anything is written, where `target_tag` is no decimal.
pub fn decode_byte_array_decimal(
    page: &DataPage,
    bufs: &mut ColumnChunkBuffers,
    values_buffer: &[u8],
    row_lo: usize,
    row_hi: usize,
    row_count: usize,
    target_tag: ColumnTypeTag,
) -> (r: ParquetResult<()>)
    requires
        row_lo <= row_hi,
    ensures
        decoded(
            byte_array_plan(values_buffer@, row_count, target_tag),
            page,
            old(bufs).data_vec@,
            row_lo as int,
            row_hi as int,
            r,
            final(bufs).data_vec@,
        ),
{
    let mut slicer = PlainVarSlicer::new(values_buffer, row_count);
    decode_byte_array_decimal_with_slicer(page, bufs, &mut slicer, row_lo, row_hi, target_tag)
}

/// Decodes the rows `[row_lo, row_hi)` of a dictionary-encoded page of
/// byte-array decimals into a decimal column of type `target_tag`.
///
/// Fails, before anything is written, where the dictionary does not hold its
/// declared values, the index stream is malformed or `target_tag` is no
/// decimal. An index beyond the dictionary fails the decode only after each
/// row was written.
pub fn decode_byte_array_decimal_dict(
    page: &DataPage,
    dict_page: &DictPage,
    bufs: &mut ColumnChunkBuffers,
    values_buffer: &[u8],
    row_lo: usize,
    row_hi: usize,
    row_count: usize,
    target_tag: ColumnTypeTag,
) -> (r: ParquetResult<()>)
    requires
        row_lo <= row_hi,
    ensures
        decoded(
            byte_array_dict_plan(
                dict_page,
                values_buffer@,
                at_most(row_hi as nat, row_count as nat),
                target_tag,
            ),
            page,
            old(bufs).data_vec@,
            row_lo as int,
            row_hi as int,
            r,
            final(bufs).data_vec@,
        ),
{
    proof {
        lemma_extends_self(bufs.data_vec@);
    }
    let dict_decoder = match VarDictDecoder::try_new(dict_page) {
        Err(e) => {
            return Err(e);
        },
        Ok(d) => d,
    };
    let mut slicer = match RleDictionarySlicer::try_new(
        values_buffer,
        dict_decoder,
        row_hi,
        row_count,
        DECIMAL_DICT_ERROR_VALUE.as_slice(),
    ) {
        Err(e) => {
            return Err(e);
        },
        Ok(s) => s,
    };
    assert(DECIMAL_DICT_ERROR_VALUE@ =~= zeros(1));
    decode_byte_array_decimal_with_slicer(page, bufs, &mut slicer, row_lo, row_hi, target_tag)
}

/// Decodes the rows `[row_lo, row_hi)` under a row filter from a plain page
/// of byte-array decimals. The filter and the bounds count rows as
/// [`decode_page0_filtered`] says.
pub fn decode_byte_array_decimal_filtered<const FILL_NULLS: bool>(
    page: &DataPage,
    bufs: &mut ColumnChunkBuffers,
    values_buffer: &[u8],
    page_row_start: usize,
    page_row_count: usize,
    row_group_lo: usize,
    row_lo: usize,
    row_hi: usize,
    rows_filter: &[i64],
    target_tag: ColumnTypeTag,
) -> (r: ParquetResult<()>)
    requires
        row_lo <= row_hi,
        ascending(rows_filter@),
    ensures
        decoded_filtered(
            byte_array_plan(values_buffer@, page_row_count, target_tag),
            page,
            old(bufs).data_vec@,
            filter_frame(rows_filter@, page_row_start, page_row_count, row_group_lo, FILL_NULLS),
            row_lo as int,
            row_hi as int,
            r,
            final(bufs).data_vec@,
        ),
{
    let mut slicer = PlainVarSlicer::new(values_buffer, page_row_count);
    decode_byte_array_decimal_filtered_with_slicer::<FILL_NULLS, _>(
        page,
        bufs,
        &mut slicer,
        page_row_start,
        page_row_count,
        row_group_lo,
        row_lo,
        row_hi,
        rows_filter,
        target_tag,
    )
}

/// Decodes the rows `[row_lo, row_hi)` under a row filter from a
/// dictionary-encoded page of byte-array decimals. The filter and the bounds
/// count rows as [`decode_page0_filtered`] says.
pub fn decode_byte_array_decimal_filtered_dict<const FILL_NULLS: bool>(
    page: &DataPage,
    dict_page: &DictPage,
    bufs: &mut ColumnChunkBuffers,
    values_buffer: &[u8],
    page_row_start: usize,
    page_row_count: usize,
    row_group_lo: usize,
    row_lo: usize,
    row_hi: usize,
    rows_filter: &[i64],
    target_tag: ColumnTypeTag,
) -> (r: ParquetResult<()>)
    requires
        row_lo <= row_hi,
        ascending(rows_filter@),
    ensures
        decoded_filtered(
            byte_array_dict_plan(dict_page, values_buffer@, page_row_count as nat, target_tag),
            page,
            old(bufs).data_vec@,
            filter_frame(rows_filter@, page_row_start, page_row_count, row_group_lo, FILL_NULLS),
            row_lo as int,
            row_hi as int,
            r,
            final(bufs).data_vec@,
        ),
{
    proof {
        lemma_extends_self(bufs.data_vec@);
    }
    let dict_decoder = match VarDictDecoder::try_new(dict_page) {
        Err(e) => {
            return Err(e);
        },
        Ok(d) => d,
    };
    let mut slicer = match RleDictionarySlicer::try_new(
        values_buffer,
        dict_decoder,
        page_row_count,
        page_row_count,
        DECIMAL_DICT_ERROR_VALUE.as_slice(),
    ) {
        Err(e) => {
            return Err(e);
        },
        Ok(s) => s,
    };
    assert(DECIMAL_DICT_ERROR_VALUE@ =~= zeros(1));
    decode_byte_array_decimal_filtered_with_slicer::<FILL_NULLS, _>(
        page,
        bufs,
        &mut slicer,
        page_row_start,
        page_row_count,
        row_group_lo,
        row_lo,
        row_hi,
        rows_filter,
        target_tag,
    )
}

/// Decodes byte-array decimals that `slicer` hands out: the sink is picked
/// by the width of the target.
fn decode_byte_array_decimal_with_slicer<T: DataPageSlicer>(
    page: &DataPage,
    bufs: &mut ColumnChunkBuffers,
    slicer: &mut T,
    row_lo: usize,
    row_hi: usize,
    target_tag: ColumnTypeTag,
) -> (r: ParquetResult<()>)
    requires
        old(slicer).wf(),
        row_lo <= row_hi,
    ensures
        final(slicer).wf(),
        final(slicer).model().values == old(slicer).model().values,
        final(slicer).model().flags == old(slicer).model().flags,
        target_check(target_tag) is Err ==> final(slicer).model() == old(slicer).model(),
        r is Ok ==> decoded_upto(
            page,
            column_model(target_check(target_tag)->Ok_0, old(bufs).data_vec@, old(slicer).model()),
            column_model(
                target_check(target_tag)->Ok_0,
                final(bufs).data_vec@,
                final(slicer).model(),
            ),
            row_lo as int,
            row_hi as int,
        ),
        decoded(
            (Plan { check: target_check(target_tag), source: old(slicer).model() }),
            page,
            old(bufs).data_vec@,
            row_lo as int,
            row_hi as int,
            r,
            final(bufs).data_vec@,
        ),
{
    proof {
        lemma_null_sentinels();
        lemma_extends_self(bufs.data_vec@);
    }
    match target_tag {
        ColumnTypeTag::Decimal8 => decode_page0(
            page,
            row_lo,
            row_hi,
            &mut ByteArrayDecimalColumnSink::<1, _>::new(slicer, bufs, DECIMAL8_NULL),
        ),
        ColumnTypeTag::Decimal16 => decode_page0(
            page,
            row_lo,
            row_hi,
            &mut ByteArrayDecimalColumnSink::<2, _>::new(slicer, bufs, DECIMAL16_NULL),
        ),
        ColumnTypeTag::Decimal32 => decode_page0(
            page,
            row_lo,
            row_hi,
            &mut ByteArrayDecimalColumnSink::<4, _>::new(slicer, bufs, DECIMAL32_NULL),
        ),
        ColumnTypeTag::Decimal64 => decode_page0(
            page,
            row_lo,
            row_hi,
            &mut ByteArrayDecimalColumnSink::<8, _>::new(slicer, bufs, DECIMAL64_NULL),
        ),
        ColumnTypeTag::Decimal128 => decode_page0(
            page,
            row_lo,
            row_hi,
            &mut ByteArrayDecimalColumnSink::<16, _>::new(slicer, bufs, DECIMAL128_NULL),
        ),
        ColumnTypeTag::Decimal256 => decode_page0(
            page,
            row_lo,
            row_hi,
            &mut ByteArrayDecimalColumnSink::<32, _>::new(slicer, bufs, DECIMAL256_NULL),
        ),
        _ => Err(ParquetError::Unsupported(Unsupported::TargetType { target: target_tag })),
    }
}

/// Decodes under a row filter byte-array decimals that `slicer` hands out.
fn decode_byte_array_decimal_filtered_with_slicer<const FILL_NULLS: bool, T: DataPageSlicer>(
    page: &DataPage,
    bufs: &mut ColumnChunkBuffers,
    slicer: &mut T,
    page_row_start: usize,
    page_row_count: usize,
    row_group_lo: usize,
    row_lo: usize,
    row_hi: usize,
    rows_filter: &[i64],
    target_tag: ColumnTypeTag,
) -> (r: ParquetResult<()>)
    requires
        old(slicer).wf(),
        row_lo <= row_hi,
        ascending(rows_filter@),
    ensures
        final(slicer).wf(),
        final(slicer).model().values == old(slicer).model().values,
        final(slicer).model().flags == old(slicer).model().flags,
        target_check(target_tag) is Err ==> final(slicer).model() == old(slicer).model(),
        r is Ok ==> filtered_upto(
            page,
            column_model(target_check(target_tag)->Ok_0, old(bufs).data_vec@, old(slicer).model()),
            column_model(
                target_check(target_tag)->Ok_0,
                final(bufs).data_vec@,
                final(slicer).model(),
            ),
            filter_frame(rows_filter@, page_row_start, page_row_count, row_group_lo, FILL_NULLS),
            row_lo as int,
            row_hi as int,
            passed_rows(
                filter_frame(
                    rows_filter@,
                    page_row_start,
                    page_row_count,
                    row_group_lo,
                    FILL_NULLS,
                ),
                row_lo as int,
                row_hi as int,
            ),
        ),
        decoded_filtered(
            (Plan { check: target_check(target_tag), source: old(slicer).model() }),
            page,
            old(bufs).data_vec@,
            filter_frame(rows_filter@, page_row_start, page_row_count, row_group_lo, FILL_NULLS),
            row_lo as int,
            row_hi as int,
            r,
            final(bufs).data_vec@,
        ),
{
    proof {
        lemma_null_sentinels();
        lemma_extends_self(bufs.data_vec@);
    }
    match target_tag {
        ColumnTypeTag::Decimal8 => decode_page0_filtered::<_, FILL_NULLS>(
            page,
            page_row_start,
            page_row_count,
            row_group_lo,
            row_lo,
            row_hi,
            rows_filter,
            &mut ByteArrayDecimalColumnSink::<1, _>::new(slicer, bufs, DECIMAL8_NULL),
        ),
        ColumnTypeTag::Decimal16 => decode_page0_filtered::<_, FILL_NULLS>(
            page,
            page_row_start,
            page_row_count,
            row_group_lo,
            row_lo,
            row_hi,
            rows_filter,
            &mut ByteArrayDecimalColumnSink::<2, _>::new(slicer, bufs, DECIMAL16_NULL),
        ),
        ColumnTypeTag::Decimal32 => decode_page0_filtered::<_, FILL_NULLS>(
            page,
            page_row_start,
            page_row_count,
            row_group_lo,
            row_lo,
            row_hi,
            rows_filter,
            &mut ByteArrayDecimalColumnSink::<4, _>::new(slicer, bufs, DECIMAL32_NULL),
        ),
        ColumnTypeTag::Decimal64 => decode_page0_filtered::<_, FILL_NULLS>(
            page,
            page_row_start,
            page_row_count,
            row_group_lo,
            row_lo,
            row_hi,
            rows_filter,
            &mut ByteArrayDecimalColumnSink::<8, _>::new(slicer, bufs, DECIMAL64_NULL),
        ),
        ColumnTypeTag::Decimal128 => decode_page0_filtered::<_, FILL_NULLS>(
            page,
            page_row_start,
            page_row_count,
            row_group_lo,
            row_lo,
            row_hi,
            rows_filter,
            &mut ByteArrayDecimalColumnSink::<16, _>::new(slicer, bufs, DECIMAL128_NULL),
        ),
        ColumnTypeTag::Decimal256 => decode_page0_filtered::<_, FILL_NULLS>(
            page,
            page_row_start,
            page_row_count,
            row_group_lo,
            row_lo,
            row_hi,
            rows_filter,
            &mut ByteArrayDecimalColumnSink::<32, _>::new(slicer, bufs, DECIMAL256_NULL),
        ),
        _ => Err(ParquetError::Unsupported(Unsupported::TargetType { target: target_tag })),
    }
}

/// Decodes decimals of `src_len` bytes that `slicer` hands out. A source of
/// the target's width goes to the sink that only reverses bytes, any other
/// to the sink that extends or narrows.
fn decode_fixed_decimal_with_slicer<T: DataPageSlicer>(
    page: &DataPage,
    bufs: &mut ColumnChunkBuffers,
    slicer: &mut T,
    row_lo: usize,
    row_hi: usize,
    src_len: usize,
    target_tag: ColumnTypeTag,
) -> (r: ParquetResult<()>)
    requires
        old(slicer).wf(),
        row_lo <= row_hi,
        1 <= src_len <= 32 ==> uniform(old(slicer).model().values, src_len as nat),
    ensures
        final(slicer).wf(),
        final(slicer).model().values == old(slicer).model().values,
        final(slicer).model().flags == old(slicer).model().flags,
        fixed_check(target_tag, src_len) is Err ==> final(slicer).model() == old(slicer).model(),
        r is Ok ==> decoded_upto(
            page,
            column_model(
                fixed_check(target_tag, src_len)->Ok_0,
                old(bufs).data_vec@,
                old(slicer).model(),
            ),
            column_model(
                fixed_check(target_tag, src_len)->Ok_0,
                final(bufs).data_vec@,
                final(slicer).model(),
            ),
            row_lo as int,
            row_hi as int,
        ),
        decoded(
            (Plan { check: fixed_check(target_tag, src_len), source: old(slicer).model() }),
            page,
            old(bufs).data_vec@,
            row_lo as int,
            row_hi as int,
            r,
            final(bufs).data_vec@,
        ),
{
    proof {
        lemma_null_sentinels();
        lemma_extends_self(bufs.data_vec@);
    }
    if target_tag.decimal_size().is_none() {
        return Err(ParquetError::Unsupported(Unsupported::TargetType { target: target_tag }));
    }
    if src_len == 0 || src_len > 32 {
        return Err(
            ParquetError::Unsupported(Unsupported::SourceLength { src_len, target: target_tag }),
        );
    }
    match target_tag {
        ColumnTypeTag::Decimal8 => {
            if src_len == 1 {
                decode_page0(
                    page,
                    row_lo,
                    row_hi,
                    &mut ReverseFixedColumnSink::<1, _>::new(slicer, bufs, DECIMAL8_NULL),
                )
            } else {
                decode_page0(
                    page,
                    row_lo,
                    row_hi,
                    &mut SignExtendDecimalColumnSink::<1, _>::new(
                        slicer,
                        bufs,
                        DECIMAL8_NULL,
                        src_len,
                    ),
                )
            }
        },
        ColumnTypeTag::Decimal16 => {
            if src_len == 2 {
                decode_page0(
                    page,
                    row_lo,
                    row_hi,
                    &mut ReverseFixedColumnSink::<2, _>::new(slicer, bufs, DECIMAL16_NULL),
                )
            } else {
                decode_page0(
                    page,
                    row_lo,
                    row_hi,
                    &mut SignExtendDecimalColumnSink::<2, _>::new(
                        slicer,
                        bufs,
                        DECIMAL16_NULL,
                        src_len,
                    ),
                )
            }
        },
        ColumnTypeTag::Decimal32 => {
            if src_len == 4 {
                decode_page0(
                    page,
                    row_lo,
                    row_hi,
                    &mut ReverseFixedColumnSink::<4, _>::new(slicer, bufs, DECIMAL32_NULL),
                )
            } else {
                decode_page0(
                    page,
                    row_lo,
                    row_hi,
                    &mut SignExtendDecimalColumnSink::<4, _>::new(
                        slicer,
                        bufs,
                        DECIMAL32_NULL,
                        src_len,
                    ),
                )
            }
        },
        ColumnTypeTag::Decimal64 => {
            if src_len == 8 {
                decode_page0(
                    page,
                    row_lo,
                    row_hi,
                    &mut ReverseFixedColumnSink::<8, _>::new(slicer, bufs, DECIMAL64_NULL),
                )
            } else {
                decode_page0(
                    page,
                    row_lo,
                    row_hi,
                    &mut SignExtendDecimalColumnSink::<8, _>::new(
                        slicer,
                        bufs,
                        DECIMAL64_NULL,
                        src_len,
                    ),
                )
            }
        },
        ColumnTypeTag::Decimal128 => {
            if src_len == 16 {
                decode_page0(
                    page,
                    row_lo,
                    row_hi,
                    &mut WordSwapDecimalColumnSink::<16, 2, _>::new(slicer, bufs, DECIMAL128_NULL),
                )
            } else {
                decode_page0(
                    page,
                    row_lo,
                    row_hi,
                    &mut SignExtendDecimalColumnSink::<16, _>::new(
                        slicer,
                        bufs,
                        DECIMAL128_NULL,
                        src_len,
                    ),
                )
            }
        },
        ColumnTypeTag::Decimal256 => {
            if src_len == 32 {
                decode_page0(
                    page,
                    row_lo,
                    row_hi,
                    &mut WordSwapDecimalColumnSink::<32, 4, _>::new(slicer, bufs, DECIMAL256_NULL),
                )
            } else {
                decode_page0(
                    page,
                    row_lo,
                    row_hi,
                    &mut SignExtendDecimalColumnSink::<32, _>::new(
                        slicer,
                        bufs,
                        DECIMAL256_NULL,
                        src_len,
                    ),
                )
            }
        },
        _ => Err(ParquetError::Unsupported(Unsupported::TargetType { target: target_tag })),
    }
}

/// Decodes the rows `[row_lo, row_hi)` under a row filter from a plain page
/// of decimals of `src_len` bytes each. The filter and the bounds count rows
/// as [`decode_page0_filtered`] says.
pub fn decode_fixed_decimal_filtered<const FILL_NULLS: bool>(
    page: &DataPage,
    bufs: &mut ColumnChunkBuffers,
    values_buffer: &[u8],
    page_row_start: usize,
    page_row_count: usize,
    row_group_lo: usize,
    row_lo: usize,
    row_hi: usize,
    rows_filter: &[i64],
    src_len: usize,
    target_tag: ColumnTypeTag,
) -> (r: ParquetResult<()>)
    requires
        row_lo <= row_hi,
        ascending(rows_filter@),
    ensures
        decoded_filtered(
            fixed_plan(values_buffer@, page_row_count, src_len, target_tag),
            page,
            old(bufs).data_vec@,
            filter_frame(rows_filter@, page_row_start, page_row_count, row_group_lo, FILL_NULLS),
            row_lo as int,
            row_hi as int,
            r,
            final(bufs).data_vec@,
        ),
{
    let mut slicer = DataPageDynSlicer::new(values_buffer, page_row_count, src_len);
    decode_fixed_decimal_filtered_with_slicer::<FILL_NULLS, _>(
        page,
        bufs,
        &mut slicer,
        page_row_start,
        page_row_count,
        row_group_lo,
        row_lo,
        row_hi,
        rows_filter,
        src_len,
        target_tag,
    )
}

/// Decodes the rows `[row_lo, row_hi)` under a row filter from a
/// dictionary-encoded page of decimals of `src_len` bytes each. The filter
/// and the bounds count rows as [`decode_page0_filtered`] says.
pub fn decode_fixed_decimal_filtered_dict<const FILL_NULLS: bool>(
    page: &DataPage,
    dict_page: &DictPage,
    bufs: &mut ColumnChunkBuffers,
    values_buffer: &[u8],
    page_row_start: usize,
    page_row_count: usize,
    row_group_lo: usize,
    row_lo: usize,
    row_hi: usize,
    rows_filter: &[i64],
    src_len: usize,
    target_tag: ColumnTypeTag,
) -> (r: ParquetResult<()>)
    requires
        row_lo <= row_hi,
        ascending(rows_filter@),
    ensures
        decoded_filtered(
            fixed_dict_plan(dict_page, values_buffer@, page_row_count as nat, src_len, target_tag),
            page,
            old(bufs).data_vec@,
            filter_frame(rows_filter@, page_row_start, page_row_count, row_group_lo, FILL_NULLS),
            row_lo as int,
            row_hi as int,
            r,
            final(bufs).data_vec@,
        ),
{
    proof {
        lemma_extends_self(bufs.data_vec@);
    }
    let dict_decoder = match RuntimeFixedDictDecoder::try_new(dict_page, src_len) {
        Err(e) => {
            return Err(e);
        },
        Ok(d) => d,
    };
    let error_value: &[u8] = fixed_error_value(src_len);
    let ghost entries = dict_decoder.entries();
    let mut slicer = match RleDictionarySlicer::try_new(
        values_buffer,
        dict_decoder,
        page_row_count,
        page_row_count,
        error_value,
    ) {
        Err(e) => {
            return Err(e);
        },
        Ok(s) => s,
    };
    proof {
        if src_len <= 32 {
            lemma_dict_source_uniform(
                entries,
                index_stream(values_buffer@, page_row_count as nat)->0,
                error_value@,
                src_len as nat,
            );
        }
    }
    decode_fixed_decimal_filtered_with_slicer::<FILL_NULLS, _>(
        page,
        bufs,
        &mut slicer,
        page_row_start,
        page_row_count,
        row_group_lo,
        row_lo,
        row_hi,
        rows_filter,
        src_len,
        target_tag,
    )
}

/// Decodes under a row filter decimals of `src_len` bytes that `slicer`
/// hands out.
fn decode_fixed_decimal_filtered_with_slicer<const FILL_NULLS: bool, T: DataPageSlicer>(
    page: &DataPage,
    bufs: &mut ColumnChunkBuffers,
    slicer: &mut T,
    page_row_start: usize,
    page_row_count: usize,
    row_group_lo: usize,
    row_lo: usize,
    row_hi: usize,
    rows_filter: &[i64],
    src_len: usize,
    target_tag: ColumnTypeTag,
) -> (r: ParquetResult<()>)
    requires
        old(slicer).wf(),
        row_lo <= row_hi,
        ascending(rows_filter@),
        1 <= src_len <= 32 ==> uniform(old(slicer).model().values, src_len as nat),
    ensures
        final(slicer).wf(),
        final(slicer).model().values == old(slicer).model().values,
        final(slicer).model().flags == old(slicer).model().flags,
        fixed_check(target_tag, src_len) is Err ==> final(slicer).model() == old(slicer).model(),
        r is Ok ==> filtered_upto(
            page,
            column_model(
                fixed_check(target_tag, src_len)->Ok_0,
                old(bufs).data_vec@,
                old(slicer).model(),
            ),
            column_model(
                fixed_check(target_tag, src_len)->Ok_0,
                final(bufs).data_vec@,
                final(slicer).model(),
            ),
            filter_frame(rows_filter@, page_row_start, page_row_count, row_group_lo, FILL_NULLS),
            row_lo as int,
            row_hi as int,
            passed_rows(
                filter_frame(
                    rows_filter@,
                    page_row_start,
                    page_row_count,
                    row_group_lo,
                    FILL_NULLS,
                ),
                row_lo as int,
                row_hi as int,
            ),
        ),
        decoded_filtered(
            (Plan { check: fixed_check(target_tag, src_len), source: old(slicer).model() }),
            page,
            old(bufs).data_vec@,
            filter_frame(rows_filter@, page_row_start, page_row_count, row_group_lo, FILL_NULLS),
            row_lo as int,
            row_hi as int,
            r,
            final(bufs).data_vec@,
        ),
{
    proof {
        lemma_null_sentinels();
        lemma_extends_self(bufs.data_vec@);
    }
    if target_tag.decimal_size().is_none() {
        return Err(ParquetError::Unsupported(Unsupported::TargetType { target: target_tag }));
    }
    if src_len == 0 || src_len > 32 {
        return Err(
            ParquetError::Unsupported(Unsupported::SourceLength { src_len, target: target_tag }),
        );
    }
    match target_tag {
        ColumnTypeTag::Decimal8 => {
            if src_len == 1 {
                decode_page0_filtered::<_, FILL_NULLS>(
                    page,
                    page_row_start,
                    page_row_count,
                    row_group_lo,
                    row_lo,
                    row_hi,
                    rows_filter,
                    &mut ReverseFixedColumnSink::<1, _>::new(slicer, bufs, DECIMAL8_NULL),
                )
            } else {
                decode_page0_filtered::<_, FILL_NULLS>(
                    page,
                    page_row_start,
                    page_row_count,
                    row_group_lo,
                    row_lo,
                    row_hi,
                    rows_filter,
                    &mut SignExtendDecimalColumnSink::<1, _>::new(
                        slicer,
                        bufs,
                        DECIMAL8_NULL,
                        src_len,
                    ),
                )
            }
        },
        ColumnTypeTag::Decimal16 => {
            if src_len == 2 {
                decode_page0_filtered::<_, FILL_NULLS>(
                    page,
                    page_row_start,
                    page_row_count,
                    row_group_lo,
                    row_lo,
                    row_hi,
                    rows_filter,
                    &mut ReverseFixedColumnSink::<2, _>::new(slicer, bufs, DECIMAL16_NULL),
                )
            } else {
                decode_page0_filtered::<_, FILL_NULLS>(
                    page,
                    page_row_start,
                    page_row_count,
                    row_group_lo,
                    row_lo,
                    row_hi,
                    rows_filter,
                    &mut SignExtendDecimalColumnSink::<2, _>::new(
                        slicer,
                        bufs,
                        DECIMAL16_NULL,
                        src_len,
                    ),
                )
            }
        },
        ColumnTypeTag::Decimal32 => {
            if src_len == 4 {
                decode_page0_filtered::<_, FILL_NULLS>(
                    page,
                    page_row_start,
                    page_row_count,
                    row_group_lo,
                    row_lo,
                    row_hi,
                    rows_filter,
                    &mut ReverseFixedColumnSink::<4, _>::new(slicer, bufs, DECIMAL32_NULL),
                )
            } else {
                decode_page0_filtered::<_, FILL_NULLS>(
                    page,
                    page_row_start,
                    page_row_count,
                    row_group_lo,
                    row_lo,
                    row_hi,
                    rows_filter,
                    &mut SignExtendDecimalColumnSink::<4, _>::new(
                        slicer,
                        bufs,
                        DECIMAL32_NULL,
                        src_len,
                    ),
                )
            }
        },
        ColumnTypeTag::Decimal64 => {
            if src_len == 8 {
                decode_page0_filtered::<_, FILL_NULLS>(
                    page,
                    page_row_start,
                    page_row_count,
                    row_group_lo,
                    row_lo,
                    row_hi,
                    rows_filter,
                    &mut ReverseFixedColumnSink::<8, _>::new(slicer, bufs, DECIMAL64_NULL),
                )
            } else {
                decode_page0_filtered::<_, FILL_NULLS>(
                    page,
                    page_row_start,
                    page_row_count,
                    row_group_lo,
                    row_lo,
                    row_hi,
                    rows_filter,
                    &mut SignExtendDecimalColumnSink::<8, _>::new(
                        slicer,
                        bufs,
                        DECIMAL64_NULL,
                        src_len,
                    ),
                )
            }
        },
        ColumnTypeTag::Decimal128 => {
            if src_len == 16 {
                decode_page0_filtered::<_, FILL_NULLS>(
                    page,
                    page_row_start,
                    page_row_count,
                    row_group_lo,
                    row_lo,
                    row_hi,
                    rows_filter,
                    &mut WordSwapDecimalColumnSink::<16, 2, _>::new(slicer, bufs, DECIMAL128_NULL),
                )
            } else {
                decode_page0_filtered::<_, FILL_NULLS>(
                    page,
                    page_row_start,
                    page_row_count,
                    row_group_lo,
                    row_lo,
                    row_hi,
                    rows_filter,
                    &mut SignExtendDecimalColumnSink::<16, _>::new(
                        slicer,
                        bufs,
                        DECIMAL128_NULL,
                        src_len,
                    ),
                )
            }
        },
        ColumnTypeTag::Decimal256 => {
            if src_len == 32 {
                decode_page0_filtered::<_, FILL_NULLS>(
                    page,
                    page_row_start,
                    page_row_count,
                    row_group_lo,
                    row_lo,
                    row_hi,
                    rows_filter,
                    &mut WordSwapDecimalColumnSink::<32, 4, _>::new(slicer, bufs, DECIMAL256_NULL),
                )
            } else {
                decode_page0_filtered::<_, FILL_NULLS>(
                    page,
                    page_row_start,
                    page_row_count,
                    row_group_lo,
                    row_lo,
                    row_hi,
                    rows_filter,
                    &mut SignExtendDecimalColumnSink::<32, _>::new(
                        slicer,
                        bufs,
                        DECIMAL256_NULL,
                        src_len,
                    ),
                )
            }
        },
        _ => Err(ParquetError::Unsupported(Unsupported::TargetType { target: target_tag })),
    }
}

} // verus!
