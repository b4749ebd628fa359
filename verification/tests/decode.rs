use parquet_decimal::column_sink::{
    ByteArrayDecimalColumnSink, Pushable, ReverseFixedColumnSink, SignExtendDecimalColumnSink,
    WordSwapDecimalColumnSink,
};
use parquet_decimal::column_type::{
    ColumnTypeTag, DECIMAL128_NULL, DECIMAL16_NULL, DECIMAL256_NULL, DECIMAL32_NULL,
    DECIMAL64_NULL, DECIMAL8_NULL,
};
use parquet_decimal::decimal::{
    decode_byte_array_decimal, decode_byte_array_decimal_dict, decode_byte_array_decimal_filtered,
    decode_byte_array_decimal_filtered_dict, decode_fixed_decimal, decode_fixed_decimal_dict,
    decode_fixed_decimal_filtered, decode_fixed_decimal_filtered_dict,
};
use parquet_decimal::decode::{decode_page0, decode_page0_filtered};
use parquet_decimal::error::{Layout, ParquetError, Unsupported};
use parquet_decimal::page::{ColumnChunkBuffers, DataPage, DictPage, PageRows};
use parquet_decimal::slicer::{DataPageDynSlicer, PlainVarSlicer};

/// A page of `rows` rows without nulls.
fn page(rows: usize) -> DataPage {
    DataPage { num_values: rows, max_def_level: 0, def_levels: Vec::new() }
}

/// A page whose rows have the levels `levels`, each 0 or 1, in one bit-packed
/// run.
fn page_with_levels(levels: &[u8]) -> DataPage {
    let groups = (levels.len() + 7) / 8;
    let mut def_levels = vec![((groups << 1) | 1) as u8];
    for g in 0..groups {
        let mut byte = 0u8;
        for i in 0..8 {
            if levels.get(g * 8 + i).copied().unwrap_or(0) != 0 {
                byte |= 1 << i;
            }
        }
        def_levels.push(byte);
    }
    DataPage { num_values: levels.len(), max_def_level: 1, def_levels }
}

fn empty() -> ColumnChunkBuffers {
    ColumnChunkBuffers { data_vec: Vec::new() }
}

#[test]
fn dictionary_page_with_three_indices() {
    let dict = DictPage { buffer: vec![0x80, 0x00, 0x00, 0x01], num_values: 2 };
    // bit width 1, one bit-packed group: 0, 1, 0
    let indices = [1u8, 0x03, 0b0000_0010];
    let mut bufs = empty();
    let r = decode_fixed_decimal_dict(
        &page(3),
        &dict,
        &mut bufs,
        &indices,
        0,
        3,
        3,
        2,
        ColumnTypeTag::Decimal16,
    );
    assert_eq!(r, Ok(()));
    assert_eq!(bufs.data_vec, vec![0x00, 0x80, 0x01, 0x00, 0x00, 0x80]);
}

#[test]
fn null_then_value_into_decimal16() {
    let mut bufs = empty();
    let r = decode_fixed_decimal(
        &page_with_levels(&[0, 1]),
        &mut bufs,
        &[0x05],
        0,
        2,
        2,
        1,
        ColumnTypeTag::Decimal16,
    );
    assert_eq!(r, Ok(()));
    let mut want = DECIMAL16_NULL.to_vec();
    want.extend([0x05, 0x00]);
    assert_eq!(bufs.data_vec, want);
}

#[test]
fn filter_without_fill_keeps_selected_rows() {
    let values = [0u8, 1, 2, 3, 4, 5];
    let mut bufs = empty();
    let r = decode_fixed_decimal_filtered::<false>(
        &page(6),
        &mut bufs,
        &values,
        0,
        6,
        0,
        0,
        6,
        &[0, 2, 5],
        1,
        ColumnTypeTag::Decimal8,
    );
    assert_eq!(r, Ok(()));
    assert_eq!(bufs.data_vec, vec![0x00, 0x02, 0x05]);
}

#[test]
fn filter_with_fill_puts_nulls_between() {
    let values = [0u8, 1, 2, 3, 4, 5];
    let mut bufs = empty();
    let r = decode_fixed_decimal_filtered::<true>(
        &page(6),
        &mut bufs,
        &values,
        0,
        6,
        0,
        0,
        6,
        &[0, 2, 5],
        1,
        ColumnTypeTag::Decimal8,
    );
    assert_eq!(r, Ok(()));
    let n = DECIMAL8_NULL[0];
    assert_eq!(bufs.data_vec, vec![0x00, n, 0x02, n, n, 0x05]);
}

#[test]
fn plain_pages_of_each_width() {
    let values: Vec<u8> = (1u8..=64).collect();
    let cases: [(ColumnTypeTag, usize); 6] = [
        (ColumnTypeTag::Decimal8, 1),
        (ColumnTypeTag::Decimal16, 2),
        (ColumnTypeTag::Decimal32, 4),
        (ColumnTypeTag::Decimal64, 8),
        (ColumnTypeTag::Decimal128, 16),
        (ColumnTypeTag::Decimal256, 32),
    ];
    for (tag, n) in cases {
        // a source of the target's width
        let mut bufs = empty();
        let rows = 64 / n;
        assert_eq!(
            decode_fixed_decimal(&page(rows), &mut bufs, &values, 0, rows, rows, n, tag),
            Ok(())
        );
        assert_eq!(bufs.data_vec.len(), 64);
        for (k, b) in bufs.data_vec.iter().enumerate() {
            let row = k / n;
            let i = k % n;
            let p = if n <= 8 { n - 1 - i } else { (i / 8) * 8 + 7 - i % 8 };
            assert_eq!(*b, values[row * n + p]);
        }
        // a source of three bytes
        let mut bufs = empty();
        assert_eq!(
            decode_fixed_decimal(&page(2), &mut bufs, &[0, 0, 1, 0xFF, 0xFF, 0xFE], 0, 2, 2, 3, tag),
            Ok(())
        );
        assert_eq!(bufs.data_vec.len(), 2 * n);
        let one = &bufs.data_vec[..n];
        let minus_two = &bufs.data_vec[n..];
        let low = if n <= 8 { 0 } else { n - 8 };
        for i in 0..n {
            assert_eq!(one[i], if i == low { 1 } else { 0 });
            assert_eq!(minus_two[i], if i == low { 0xFE } else { 0xFF });
        }
    }
}

#[test]
fn rows_before_the_range_are_passed_over() {
    let levels = [1u8, 0, 1, 1, 0, 1];
    let values = [10u8, 20, 30, 40];
    let mut bufs = ColumnChunkBuffers { data_vec: vec![0xAB] };
    let r = decode_fixed_decimal(
        &page_with_levels(&levels),
        &mut bufs,
        &values,
        2,
        6,
        6,
        1,
        ColumnTypeTag::Decimal8,
    );
    assert_eq!(r, Ok(()));
    assert_eq!(bufs.data_vec, vec![0xAB, 20, 30, 0x80, 40]);
}

#[test]
fn length_grows_by_width_times_rows() {
    let levels = [1u8, 0, 0, 1, 1, 0, 1];
    let values = [1u8, 0, 0, 0, 7, 2, 0, 0, 0, 1, 2, 1, 0, 0, 0, 9, 1, 0, 0, 0, 3];
    for (lo, hi) in [(0usize, 7usize), (1, 5), (3, 3), (6, 7)] {
        let mut bufs = ColumnChunkBuffers { data_vec: vec![1, 2, 3, 4] };
        let r = decode_byte_array_decimal(
            &page_with_levels(&levels),
            &mut bufs,
            &values,
            lo,
            hi,
            7,
            ColumnTypeTag::Decimal32,
        );
        assert_eq!(r, Ok(()));
        assert_eq!(bufs.data_vec.len(), 4 + 4 * (hi - lo));
        assert_eq!(&bufs.data_vec[..4], &[1, 2, 3, 4]);
        for row in lo..hi {
            let cell = &bufs.data_vec[4 + 4 * (row - lo)..8 + 4 * (row - lo)];
            if levels[row] == 0 {
                assert_eq!(cell, &DECIMAL32_NULL);
            }
        }
    }
}

#[test]
fn byte_array_values_of_different_lengths() {
    let values = [1u8, 0, 0, 0, 0xFF, 3, 0, 0, 0, 0x01, 0x02, 0x03, 2, 0, 0, 0, 0x80, 0x00];
    let mut bufs = empty();
    let r = decode_byte_array_decimal(&page(3), &mut bufs, &values, 0, 3, 3, ColumnTypeTag::Decimal64);
    assert_eq!(r, Ok(()));
    let mut want = vec![0xFFu8; 8];
    want.extend([0x03, 0x02, 0x01, 0, 0, 0, 0, 0]);
    want.extend([0x00, 0x80, 0xFF, 0xFF, 0xFF, 0xFF, 0xFF, 0xFF]);
    assert_eq!(bufs.data_vec, want);
}

#[test]
fn byte_array_dictionary_page() {
    let dict = DictPage { buffer: vec![1, 0, 0, 0, 0x7F, 2, 0, 0, 0, 0xFF, 0x00], num_values: 2 };
    // bit width 1: a repeated run of two ones, then a repeated run of one zero
    let indices = [1u8, 0x04, 0x01, 0x02, 0x00];
    let mut bufs = empty();
    let r = decode_byte_array_decimal_dict(
        &page_with_levels(&[1, 0, 1, 1]),
        &dict,
        &mut bufs,
        &indices,
        0,
        4,
        4,
        ColumnTypeTag::Decimal16,
    );
    assert_eq!(r, Ok(()));
    assert_eq!(bufs.data_vec, vec![0x00, 0xFF, 0x00, 0x80, 0x00, 0xFF, 0x7F, 0x00]);
}

#[test]
fn filtered_byte_array_pages() {
    let values = [1u8, 0, 0, 0, 1, 1, 0, 0, 0, 2, 1, 0, 0, 0, 3];
    let levels = [1u8, 0, 1, 1];
    let mut bufs = empty();
    let r = decode_byte_array_decimal_filtered::<false>(
        &page_with_levels(&levels),
        &mut bufs,
        &values,
        0,
        4,
        0,
        0,
        4,
        &[1, 3],
        ColumnTypeTag::Decimal8,
    );
    assert_eq!(r, Ok(()));
    assert_eq!(bufs.data_vec, vec![0x80, 3]);

    let dict = DictPage { buffer: vec![1, 0, 0, 0, 5, 1, 0, 0, 0, 6], num_values: 2 };
    let indices = [1u8, 0x03, 0b0000_0101];
    let mut bufs = empty();
    let r = decode_byte_array_decimal_filtered_dict::<true>(
        &page_with_levels(&levels),
        &dict,
        &mut bufs,
        &indices,
        0,
        4,
        0,
        0,
        4,
        &[2, 3],
        ColumnTypeTag::Decimal8,
    );
    assert_eq!(r, Ok(()));
    assert_eq!(bufs.data_vec, vec![0x80, 0x80, 5, 6]);
}

#[test]
fn filtered_fixed_dictionary_page() {
    let dict = DictPage { buffer: vec![0x00, 0x01, 0xFF, 0xFE], num_values: 2 };
    let indices = [1u8, 0x03, 0b0000_1010];
    let mut bufs = empty();
    let r = decode_fixed_decimal_filtered_dict::<false>(
        &page(4),
        &dict,
        &mut bufs,
        &indices,
        0,
        4,
        0,
        1,
        4,
        &[0, 1, 3],
        2,
        ColumnTypeTag::Decimal32,
    );
    assert_eq!(r, Ok(()));
    assert_eq!(bufs.data_vec, vec![0xFE, 0xFF, 0xFF, 0xFF, 0xFE, 0xFF, 0xFF, 0xFF]);
}

#[test]
fn filter_entries_outside_the_range_give_nothing() {
    let values = [0u8, 1, 2, 3, 4, 5];
    let mut bufs = empty();
    let r = decode_fixed_decimal_filtered::<false>(
        &page(6),
        &mut bufs,
        &values,
        0,
        6,
        0,
        2,
        5,
        &[-3, 0, 2, 4, 5],
        1,
        ColumnTypeTag::Decimal8,
    );
    assert_eq!(r, Ok(()));
    assert_eq!(bufs.data_vec, vec![2, 4]);

    let mut bufs = empty();
    let r = decode_fixed_decimal_filtered::<true>(
        &page(6),
        &mut bufs,
        &values,
        0,
        6,
        0,
        2,
        5,
        &[-3, 0, 2, 4, 5],
        1,
        ColumnTypeTag::Decimal8,
    );
    assert_eq!(r, Ok(()));
    assert_eq!(bufs.data_vec, vec![2, 0x80, 4]);
}

#[test]
fn filter_rows_are_found_in_the_page_by_its_start() {
    // The slice that is decoded begins at row 10 of the row group, the page
    // at row 12: row 3 of the filter is row 1 of the page.
    let values = [7u8, 8, 9];
    let mut bufs = empty();
    let r = decode_fixed_decimal_filtered::<false>(
        &page(3),
        &mut bufs,
        &values,
        12,
        3,
        10,
        2,
        5,
        &[3, 4],
        1,
        ColumnTypeTag::Decimal8,
    );
    assert_eq!(r, Ok(()));
    assert_eq!(bufs.data_vec, vec![8, 9]);

    let mut bufs = empty();
    let r = decode_fixed_decimal_filtered::<false>(
        &page(3),
        &mut bufs,
        &values,
        12,
        3,
        10,
        0,
        5,
        &[1, 3],
        1,
        ColumnTypeTag::Decimal8,
    );
    assert_eq!(r, Err(ParquetError::Layout(Layout::RowOutOfPage)));
    assert_eq!(bufs.data_vec, Vec::<u8>::new());
}

#[test]
fn target_that_is_no_decimal_is_rejected_before_anything_is_written() {
    let mut bufs = ColumnChunkBuffers { data_vec: vec![1, 2] };
    let unsupported =
        Err(ParquetError::Unsupported(Unsupported::TargetType { target: ColumnTypeTag::Long }));
    assert_eq!(
        decode_fixed_decimal(&page(1), &mut bufs, &[1], 0, 1, 1, 1, ColumnTypeTag::Long),
        unsupported
    );
    assert_eq!(
        decode_byte_array_decimal(&page(1), &mut bufs, &[1, 0, 0, 0, 1], 0, 1, 1, ColumnTypeTag::Long),
        unsupported
    );
    assert_eq!(
        decode_fixed_decimal_filtered::<true>(&page(1), &mut bufs, &[1], 0, 1, 0, 0, 1, &[0], 1, ColumnTypeTag::Long),
        unsupported
    );
    assert_eq!(
        decode_byte_array_decimal_filtered::<true>(&page(1), &mut bufs, &[1, 0, 0, 0, 1], 0, 1, 0, 0, 1, &[0], ColumnTypeTag::Long),
        unsupported
    );
    assert_eq!(bufs.data_vec, vec![1, 2]);
}

#[test]
fn source_width_outside_one_to_thirty_two_is_rejected() {
    let mut bufs = ColumnChunkBuffers { data_vec: vec![1, 2] };
    for src_len in [0usize, 33, 1000] {
        let values = vec![0u8; 2000];
        assert_eq!(
            decode_fixed_decimal(&page(1), &mut bufs, &values, 0, 1, 1, src_len, ColumnTypeTag::Decimal64),
            Err(ParquetError::Unsupported(Unsupported::SourceLength {
                src_len,
                target: ColumnTypeTag::Decimal64
            }))
        );
    }
    assert_eq!(bufs.data_vec, vec![1, 2]);
}

#[test]
fn dictionary_errors_come_first() {
    let mut bufs = empty();
    let dict = DictPage { buffer: vec![1, 2, 3], num_values: 1 };
    assert_eq!(
        decode_fixed_decimal_dict(&page(1), &dict, &mut bufs, &[0], 0, 1, 1, 2, ColumnTypeTag::Long),
        Err(ParquetError::Layout(Layout::DictPageSize { value_size: 2 }))
    );
    assert_eq!(
        decode_fixed_decimal_dict(&page(1), &dict, &mut bufs, &[0], 0, 1, 1, 0, ColumnTypeTag::Decimal8),
        Err(ParquetError::Layout(Layout::DictValueSize))
    );
    assert_eq!(
        decode_byte_array_decimal_dict(&page(1), &dict, &mut bufs, &[0], 0, 1, 1, ColumnTypeTag::Decimal8),
        Err(ParquetError::Layout(Layout::DictTruncated))
    );
    let dict = DictPage { buffer: vec![1, 2, 3], num_values: 3 };
    assert_eq!(
        decode_fixed_decimal_dict(&page(1), &dict, &mut bufs, &[], 0, 1, 1, 1, ColumnTypeTag::Decimal8),
        Err(ParquetError::Layout(Layout::RleStream))
    );
    assert_eq!(
        decode_fixed_decimal_dict(&page(1), &dict, &mut bufs, &[0], 0, 1, 1, 1, ColumnTypeTag::Long),
        Err(ParquetError::Unsupported(Unsupported::TargetType { target: ColumnTypeTag::Long }))
    );
    assert_eq!(bufs.data_vec, Vec::<u8>::new());
}

#[test]
fn bad_dictionary_index_fails_at_the_end_and_keeps_the_rows() {
    let dict = DictPage { buffer: vec![0x11, 0x22], num_values: 2 };
    // bit width 2: indices 0, 3, 1
    let indices = [2u8, 0x03, 0b0001_1100, 0x00];
    let mut bufs = empty();
    let r = decode_fixed_decimal_dict(
        &page(3),
        &dict,
        &mut bufs,
        &indices,
        0,
        3,
        3,
        1,
        ColumnTypeTag::Decimal8,
    );
    assert_eq!(r, Err(ParquetError::Layout(Layout::DictIndexOutOfRange)));
    assert_eq!(bufs.data_vec, vec![0x11, 0x00, 0x22]);

    // a bad index that is passed over does no harm
    let mut bufs = empty();
    let r = decode_fixed_decimal_filtered_dict::<false>(
        &page(3),
        &dict,
        &mut bufs,
        &indices,
        0,
        3,
        0,
        0,
        3,
        &[0, 2],
        1,
        ColumnTypeTag::Decimal8,
    );
    assert_eq!(r, Ok(()));
    assert_eq!(bufs.data_vec, vec![0x11, 0x22]);
}

#[test]
fn value_that_does_not_fit_stops_the_decode() {
    let values = [0x00u8, 0x01, 0x01, 0x00, 0x00, 0x02];
    let mut bufs = empty();
    let r = decode_fixed_decimal(&page(3), &mut bufs, &values, 0, 3, 3, 2, ColumnTypeTag::Decimal8);
    assert_eq!(
        r,
        Err(ParquetError::Unsupported(Unsupported::NotSignExtended { src_len: 2, target_size: 1 }))
    );
    assert_eq!(bufs.data_vec, Vec::<u8>::new());

    // the rows before the run that fails stay
    let mut bufs = empty();
    let r = decode_fixed_decimal(
        &page_with_levels(&[1, 0, 1, 1]),
        &mut bufs,
        &values,
        0,
        4,
        4,
        2,
        ColumnTypeTag::Decimal8,
    );
    assert_eq!(
        r,
        Err(ParquetError::Unsupported(Unsupported::NotSignExtended { src_len: 2, target_size: 1 }))
    );
    assert_eq!(bufs.data_vec, vec![0x01, 0x80]);
}

#[test]
fn value_of_length_zero_leaves_the_column_as_it_was() {
    let mut bufs = empty();
    let r = decode_byte_array_decimal(
        &page(1),
        &mut bufs,
        &[0, 0, 0, 0],
        0,
        1,
        1,
        ColumnTypeTag::Decimal8,
    );
    assert_eq!(r, Err(ParquetError::Unsupported(Unsupported::EmptyValue { target_size: 1 })));
    assert_eq!(bufs.data_vec, Vec::<u8>::new());
}

#[test]
fn sign_extending_sink_keeps_its_source_width() {
    let values = [1u8, 2, 3];
    let mut slicer = DataPageDynSlicer::new(&values, 1, 3);
    let mut bufs = empty();
    let sink = SignExtendDecimalColumnSink::<8, _>::new(&mut slicer, &mut bufs, DECIMAL64_NULL, 3);
    assert_eq!(sink.src_len, 3);
    assert_eq!(sink.null_value, DECIMAL64_NULL);
}

#[test]
fn byte_array_value_of_length_zero_is_rejected() {
    let values = [1u8, 0, 0, 0, 9, 0, 0, 0, 0];
    let mut bufs = empty();
    let r = decode_byte_array_decimal(&page(2), &mut bufs, &values, 0, 2, 2, ColumnTypeTag::Decimal16);
    assert_eq!(r, Err(ParquetError::Unsupported(Unsupported::EmptyValue { target_size: 2 })));
}

#[test]
fn page_that_ends_before_the_range_is_rejected() {
    let mut bufs = empty();
    let r = decode_fixed_decimal(&page(2), &mut bufs, &[1, 2, 3], 0, 3, 3, 1, ColumnTypeTag::Decimal8);
    assert_eq!(r, Err(ParquetError::Layout(Layout::RowOutOfPage)));
    assert_eq!(bufs.data_vec, vec![1, 2]);

    let mut bufs = empty();
    let r = decode_fixed_decimal(
        &page_with_levels(&[0, 0]),
        &mut bufs,
        &[],
        1,
        4,
        4,
        1,
        ColumnTypeTag::Decimal8,
    );
    assert_eq!(r, Err(ParquetError::Layout(Layout::RowOutOfPage)));
}

#[test]
fn page_with_too_few_values_is_rejected() {
    let mut bufs = empty();
    let r = decode_fixed_decimal(&page(3), &mut bufs, &[1, 2], 0, 3, 3, 1, ColumnTypeTag::Decimal8);
    assert_eq!(r, Err(ParquetError::Layout(Layout::ValuesExhausted)));
    assert_eq!(bufs.data_vec, Vec::<u8>::new());

    let mut bufs = empty();
    let r = decode_byte_array_decimal(
        &page_with_levels(&[1, 0, 1]),
        &mut bufs,
        &[1, 0, 0, 0, 4, 1, 0, 0],
        0,
        3,
        3,
        ColumnTypeTag::Decimal8,
    );
    assert_eq!(r, Err(ParquetError::Layout(Layout::ValuesExhausted)));
    assert_eq!(bufs.data_vec, vec![4, 0x80]);
}

#[test]
fn range_that_no_buffer_can_hold_is_rejected() {
    let mut bufs = ColumnChunkBuffers { data_vec: vec![5] };
    let r = decode_fixed_decimal(
        &page(1),
        &mut bufs,
        &[1],
        0,
        usize::MAX,
        1,
        1,
        ColumnTypeTag::Decimal256,
    );
    assert_eq!(r, Err(ParquetError::Capacity));
    let r = decode_fixed_decimal_filtered::<true>(
        &page(1),
        &mut bufs,
        &[1],
        0,
        1,
        0,
        0,
        isize::MAX as usize,
        &[0],
        1,
        ColumnTypeTag::Decimal8,
    );
    assert_eq!(r, Err(ParquetError::Capacity));
    assert_eq!(bufs.data_vec, vec![5]);
}

#[test]
fn empty_range_appends_nothing() {
    let mut bufs = ColumnChunkBuffers { data_vec: vec![5] };
    assert_eq!(
        decode_fixed_decimal(&page(0), &mut bufs, &[], 0, 0, 0, 4, ColumnTypeTag::Decimal32),
        Ok(())
    );
    assert_eq!(
        decode_fixed_decimal(&page(3), &mut bufs, &[1, 2, 3], 7, 7, 3, 1, ColumnTypeTag::Decimal32),
        Ok(())
    );
    assert_eq!(bufs.data_vec, vec![5]);
}

#[test]
fn counts_rows_with_a_value() {
    let p = page_with_levels(&[1, 0, 1, 0, 0, 1]);
    let rows = PageRows::try_new(&p).unwrap();
    assert!(rows.has_levels());
    assert_eq!(rows.rows(), 6);
    assert!(rows.has_value(2));
    assert!(!rows.has_value(1));
    assert!(!rows.has_value(6));
    assert_eq!(rows.count_values(0, 6), 3);
    assert_eq!(rows.count_values(1, 2), 0);
    assert_eq!(rows.count_values(2, 9), 2);
    assert_eq!(rows.count_values(5, 2), 0);
    let p = page(4);
    let rows = PageRows::try_new(&p).unwrap();
    assert!(!rows.has_levels());
    assert_eq!(rows.rows(), 4);
    assert_eq!(rows.count_values(1, 9), 3);
}

#[test]
fn levels_below_the_greatest_are_nulls() {
    // greatest level 2, two bits a level, a bit-packed run of 2, 1, 0, 2
    let p = DataPage { num_values: 4, max_def_level: 2, def_levels: vec![0x03, 0b1000_0110, 0x00] };
    let rows = PageRows::try_new(&p).unwrap();
    assert_eq!(rows.rows(), 4);
    assert!(rows.has_value(0));
    assert!(!rows.has_value(1));
    assert!(!rows.has_value(2));
    assert!(rows.has_value(3));
    let mut bufs = empty();
    let r = decode_fixed_decimal(&p, &mut bufs, &[7, 9], 0, 4, 4, 1, ColumnTypeTag::Decimal8);
    assert_eq!(r, Ok(()));
    assert_eq!(bufs.data_vec, vec![7, 0x80, 0x80, 9]);
}

#[test]
fn levels_in_repeated_runs() {
    // three times level 1, then two times level 0
    let p = DataPage { num_values: 5, max_def_level: 1, def_levels: vec![0x06, 0x01, 0x04, 0x00] };
    let mut bufs = empty();
    let r = decode_fixed_decimal(&p, &mut bufs, &[1, 2, 3], 0, 5, 5, 1, ColumnTypeTag::Decimal8);
    assert_eq!(r, Ok(()));
    assert_eq!(bufs.data_vec, vec![1, 2, 3, 0x80, 0x80]);
}

#[test]
fn levels_that_cannot_be_read_are_rejected() {
    let p = DataPage { num_values: 5, max_def_level: 1, def_levels: vec![0x06] };
    assert_eq!(PageRows::try_new(&p).err(), Some(ParquetError::Layout(Layout::DefLevels)));
    let mut bufs = ColumnChunkBuffers { data_vec: vec![3] };
    let r = decode_fixed_decimal(&p, &mut bufs, &[1, 2, 3], 0, 5, 5, 1, ColumnTypeTag::Decimal8);
    assert_eq!(r, Err(ParquetError::Layout(Layout::DefLevels)));
    let r = decode_fixed_decimal_filtered::<true>(
        &p,
        &mut bufs,
        &[1, 2, 3],
        0,
        5,
        0,
        0,
        5,
        &[1],
        1,
        ColumnTypeTag::Decimal8,
    );
    assert_eq!(r, Err(ParquetError::Layout(Layout::DefLevels)));
    assert_eq!(bufs.data_vec, vec![3]);
}

#[test]
fn page_with_fewer_levels_than_rows_ends_early() {
    // the page declares five rows and holds the levels of two
    let p = DataPage { num_values: 5, max_def_level: 1, def_levels: vec![0x04, 0x01] };
    let mut bufs = empty();
    let r = decode_fixed_decimal(&p, &mut bufs, &[1, 2, 3], 0, 3, 5, 1, ColumnTypeTag::Decimal8);
    assert_eq!(r, Err(ParquetError::Layout(Layout::RowOutOfPage)));
    assert_eq!(bufs.data_vec, vec![1, 2]);
}

#[test]
fn sink_operations_one_by_one() {
    let values = [1u8, 0, 0, 0, 0x05, 2, 0, 0, 0, 0xFF, 0xFE, 1, 0, 0, 0, 0x07];
    let mut slicer = PlainVarSlicer::new(&values, 3);
    let mut bufs = empty();
    {
        let mut sink = ByteArrayDecimalColumnSink::<2, _>::new(&mut slicer, &mut bufs, DECIMAL16_NULL);
        assert_eq!(sink.reserve(4), Ok(()));
        assert_eq!(sink.push(), Ok(()));
        assert_eq!(sink.push_null(), Ok(()));
        sink.skip(1);
        assert_eq!(sink.push_nulls(2), Ok(()));
        assert_eq!(sink.push_slice(1), Ok(()));
        assert_eq!(sink.push(), Err(ParquetError::Layout(Layout::ValuesExhausted)));
        assert_eq!(sink.result(), Ok(()));
    }
    assert_eq!(bufs.data_vec, vec![0x05, 0x00, 0x00, 0x80, 0x00, 0x80, 0x00, 0x80, 0x07, 0x00]);
}

#[test]
fn push_slice_appends_all_or_nothing() {
    let values = [0x01u8, 0x02, 0x7F, 0x00];
    let mut slicer = DataPageDynSlicer::new(&values, 2, 2);
    let mut bufs = ColumnChunkBuffers { data_vec: vec![0xAA] };
    {
        let mut sink =
            SignExtendDecimalColumnSink::<1, _>::new(&mut slicer, &mut bufs, DECIMAL8_NULL, 2);
        assert_eq!(
            sink.push_slice(2),
            Err(ParquetError::Unsupported(Unsupported::NotSignExtended { src_len: 2, target_size: 1 }))
        );
    }
    assert_eq!(bufs.data_vec, vec![0xAA]);
}

#[test]
fn reverse_and_word_swap_sinks() {
    let values: Vec<u8> = (0u8..32).collect();
    let mut slicer = DataPageDynSlicer::new(&values, 4, 8);
    let mut bufs = empty();
    {
        let mut sink = ReverseFixedColumnSink::<8, _>::new(&mut slicer, &mut bufs, DECIMAL64_NULL);
        assert_eq!(sink.push_slice(2), Ok(()));
    }
    assert_eq!(bufs.data_vec, vec![7, 6, 5, 4, 3, 2, 1, 0, 15, 14, 13, 12, 11, 10, 9, 8]);

    let mut slicer = DataPageDynSlicer::new(&values, 2, 16);
    let mut bufs = empty();
    {
        let mut sink =
            WordSwapDecimalColumnSink::<16, 2, _>::new(&mut slicer, &mut bufs, DECIMAL128_NULL);
        assert_eq!(sink.push(), Ok(()));
        assert_eq!(sink.push_null(), Ok(()));
    }
    let mut want = vec![7u8, 6, 5, 4, 3, 2, 1, 0, 15, 14, 13, 12, 11, 10, 9, 8];
    want.extend(DECIMAL128_NULL);
    assert_eq!(bufs.data_vec, want);

    let mut slicer = DataPageDynSlicer::new(&values, 1, 32);
    let mut bufs = empty();
    {
        let mut sink =
            WordSwapDecimalColumnSink::<32, 4, _>::new(&mut slicer, &mut bufs, DECIMAL256_NULL);
        assert_eq!(sink.push_nulls(1), Ok(()));
        assert_eq!(sink.push(), Ok(()));
    }
    assert_eq!(&bufs.data_vec[..32], &DECIMAL256_NULL);
    assert_eq!(&bufs.data_vec[32..40], &[7, 6, 5, 4, 3, 2, 1, 0]);
    assert_eq!(&bufs.data_vec[56..], &[31, 30, 29, 28, 27, 26, 25, 24]);
}

#[test]
fn driver_walks_a_sink() {
    let values = [1u8, 2, 3];
    let mut slicer = DataPageDynSlicer::new(&values, 3, 1);
    let mut bufs = empty();
    {
        let mut sink = ReverseFixedColumnSink::<1, _>::new(&mut slicer, &mut bufs, DECIMAL8_NULL);
        assert_eq!(decode_page0(&page_with_levels(&[1, 0, 0, 1, 1]), 1, 5, &mut sink), Ok(()));
    }
    assert_eq!(bufs.data_vec, vec![0x80, 0x80, 2, 3]);

    let mut slicer = DataPageDynSlicer::new(&values, 3, 1);
    let mut bufs = empty();
    {
        let mut sink = SignExtendDecimalColumnSink::<4, _>::new(&mut slicer, &mut bufs, DECIMAL32_NULL, 1);
        let r = decode_page0_filtered::<_, true>(
            &page_with_levels(&[1, 0, 0, 1, 1]),
            0,
            5,
            0,
            0,
            5,
            &[1, 4],
            &mut sink,
        );
        assert_eq!(r, Ok(()));
    }
    let n = DECIMAL32_NULL;
    let mut want = Vec::new();
    want.extend(n);
    want.extend(n);
    want.extend(n);
    want.extend(n);
    want.extend([3, 0, 0, 0]);
    assert_eq!(bufs.data_vec, want);
}
