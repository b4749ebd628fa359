use parquet_decimal::column_sink::{reverse_bytes, swap_words, ByteArrayDecimalColumnSink};
use parquet_decimal::column_type::{
    ColumnTypeTag, DECIMAL128_NULL, DECIMAL16_NULL, DECIMAL256_NULL, DECIMAL32_NULL,
    DECIMAL64_NULL, DECIMAL8_NULL,
};
use parquet_decimal::convert::convert_decimal;
use parquet_decimal::error::{ParquetError, Unsupported};
use parquet_decimal::slicer::PlainVarSlicer;

fn convert<const N: usize>(src: &[u8]) -> Result<Vec<u8>, ParquetError> {
    let mut dest = Vec::new();
    convert_decimal::<N>(src, &mut dest)?;
    Ok(dest)
}

/// The integer that big-endian two's-complement bytes stand for.
fn big_endian(src: &[u8]) -> i128 {
    let mut v: i128 = if src[0] & 0x80 != 0 { -1 } else { 0 };
    for b in src {
        v = (v << 8) | *b as i128;
    }
    v
}

/// The integer that bytes in the target layout stand for, for widths up to 16.
fn target(bytes: &[u8]) -> i128 {
    let mut be: Vec<u8> = Vec::new();
    if bytes.len() <= 8 {
        be.extend(bytes.iter().rev());
    } else {
        for word in bytes.chunks(8) {
            be.extend(word.iter().rev());
        }
    }
    big_endian(&be)
}

#[test]
fn one_byte_into_one_byte() {
    assert_eq!(convert::<1>(&[0x01]), Ok(vec![0x01]));
}

#[test]
fn minus_one_sign_extends_to_four_bytes() {
    assert_eq!(convert::<4>(&[0xFF]), Ok(vec![0xFF, 0xFF, 0xFF, 0xFF]));
}

#[test]
fn least_two_byte_value_is_reversed() {
    let out = convert::<2>(&[0x80, 0x00]).unwrap();
    assert_eq!(out, vec![0x00, 0x80]);
    assert_eq!(target(&out), -32768);
}

#[test]
fn eight_bytes_into_sixteen_fill_the_low_word() {
    let out = convert::<16>(&[0, 0, 0, 0, 0, 0, 0, 1]).unwrap();
    let high_word = [0u8; 8];
    let low_word = [1u8, 0, 0, 0, 0, 0, 0, 0];
    assert_eq!(&out[..8], &high_word);
    assert_eq!(&out[8..], &low_word);
    assert_eq!(target(&out), 1);
}

#[test]
fn narrowing_that_would_change_sign_fails() {
    let mut dest = vec![0xAA];
    let src = [0xFF, 0xFF, 0xFF, 0xFF, 0x7F, 0xFF, 0xFF, 0xFF];
    assert_eq!(
        convert_decimal::<4>(&src, &mut dest),
        Err(ParquetError::Unsupported(Unsupported::TruncatesDigits { src_len: 8, target_size: 4 }))
    );
    assert_eq!(dest, vec![0xAA]);
}

#[test]
fn narrowing_of_a_sign_extended_value_succeeds() {
    let out = convert::<4>(&[0x00, 0x00, 0x00, 0x00, 0x7F, 0xFF, 0xFF, 0xFF]).unwrap();
    assert_eq!(out, vec![0xFF, 0xFF, 0xFF, 0x7F]);
    assert_eq!(target(&out), 2_147_483_647);
}

#[test]
fn narrowing_of_a_negative_value_succeeds() {
    let out = convert::<2>(&[0xFF, 0xFF, 0xFF, 0x80, 0x01]).unwrap();
    assert_eq!(out, vec![0x01, 0x80]);
    assert_eq!(target(&out), -32767);
}

#[test]
fn empty_value_is_rejected() {
    assert_eq!(
        convert::<8>(&[]),
        Err(ParquetError::Unsupported(Unsupported::EmptyValue { target_size: 8 }))
    );
}

#[test]
fn leading_byte_that_is_no_sign_byte_is_rejected() {
    assert_eq!(
        convert::<2>(&[0x01, 0x00, 0x00]),
        Err(ParquetError::Unsupported(Unsupported::NotSignExtended { src_len: 3, target_size: 2 }))
    );
    assert_eq!(
        convert::<1>(&[0xFF, 0xFE, 0xFF]),
        Err(ParquetError::Unsupported(Unsupported::NotSignExtended { src_len: 3, target_size: 1 }))
    );
}

#[test]
fn thirty_two_bytes_are_swapped_word_by_word() {
    let src: Vec<u8> = (0u8..32).collect();
    let out = convert::<32>(&src).unwrap();
    let mut want: Vec<u8> = Vec::new();
    for w in 0..4u8 {
        for i in 0..8u8 {
            want.push(w * 8 + 7 - i);
        }
    }
    assert_eq!(out, want);
}

#[test]
fn three_bytes_into_thirty_two_are_sign_extended() {
    let out = convert::<32>(&[0x80, 0x01, 0x02]).unwrap();
    let mut want = vec![0xFFu8; 32];
    want[24] = 0x02;
    want[25] = 0x01;
    want[26] = 0x80;
    assert_eq!(out, want);
}

#[test]
fn conversion_appends_behind_what_is_there() {
    let mut dest = vec![9u8, 9];
    assert_eq!(convert_decimal::<2>(&[0x12, 0x34], &mut dest), Ok(()));
    assert_eq!(dest, vec![9, 9, 0x34, 0x12]);
}

#[test]
fn stored_integer_is_the_source_integer() {
    let sources: [&[u8]; 8] = [
        &[0x00],
        &[0x7F],
        &[0x80],
        &[0xFF, 0x7F],
        &[0x12, 0x34, 0x56],
        &[0xFF, 0xFF, 0xFE, 0xDC, 0xBA],
        &[0x00, 0x00, 0x00, 0x80, 0x00, 0x00, 0x00],
        &[0x80, 0x00, 0x00, 0x00, 0x00, 0x00, 0x00, 0x00],
    ];
    for src in sources {
        assert_eq!(target(&convert::<8>(src).unwrap()), big_endian(src));
        assert_eq!(target(&convert::<16>(src).unwrap()), big_endian(src));
    }
    assert_eq!(target(&convert::<4>(&[0xFF, 0xFF, 0xFE, 0xDC, 0xBA]).unwrap()), -74566);
    assert_eq!(target(&convert::<1>(&[0xFF, 0x80]).unwrap()), -128);
}

#[test]
fn stored_bytes_do_not_depend_on_the_source_width() {
    let narrow = convert::<8>(&[0xFE, 0xDC]).unwrap();
    let wide = convert::<8>(&[0xFF, 0xFF, 0xFF, 0xFF, 0xFF, 0xFE, 0xDC]).unwrap();
    let wider = convert::<8>(&[0xFF; 10].iter().copied().chain([0xFE, 0xDC]).collect::<Vec<u8>>())
        .unwrap();
    assert_eq!(narrow, wide);
    assert_eq!(narrow, wider);
    assert_eq!(target(&narrow), -292);
}

#[test]
fn widening_equals_sign_bytes_in_front() {
    let short = convert::<16>(&[0x85, 0x01]).unwrap();
    let mut padded = vec![0xFFu8; 14];
    padded.extend([0x85, 0x01]);
    assert_eq!(short, convert::<16>(&padded).unwrap());
    let mut swapped = Vec::new();
    swap_words::<16>(&padded, &mut swapped);
    assert_eq!(short, swapped);

    let short = convert::<4>(&[0x05]).unwrap();
    let mut reversed = Vec::new();
    reverse_bytes::<4>(&[0x00, 0x00, 0x00, 0x05], &mut reversed);
    assert_eq!(short, reversed);
}

#[test]
fn narrowing_succeeds_exactly_for_sign_bytes() {
    for lead in 0u8..=255 {
        for kept in [0x00u8, 0x7F, 0x80, 0xFF] {
            let src = [lead, kept, 0x11];
            let sign = if lead & 0x80 != 0 { 0xFF } else { 0x00 };
            let fits = lead == sign && (kept & 0x80) == (sign & 0x80);
            assert_eq!(convert::<2>(&src).is_ok(), fits);
        }
    }
}

#[test]
fn null_sentinels_are_the_least_values() {
    assert_eq!(target(&DECIMAL8_NULL), i8::MIN as i128);
    assert_eq!(target(&DECIMAL16_NULL), i16::MIN as i128);
    assert_eq!(target(&DECIMAL32_NULL), i32::MIN as i128);
    assert_eq!(target(&DECIMAL64_NULL), i64::MIN as i128);
    assert_eq!(target(&DECIMAL128_NULL), i128::MIN);
    assert_eq!(DECIMAL256_NULL[7], 0x80);
    assert_eq!(DECIMAL256_NULL.iter().filter(|b| **b != 0).count(), 1);
}

#[test]
fn decimal_sizes_of_column_types() {
    assert_eq!(ColumnTypeTag::Decimal8.decimal_size(), Some(1));
    assert_eq!(ColumnTypeTag::Decimal16.decimal_size(), Some(2));
    assert_eq!(ColumnTypeTag::Decimal32.decimal_size(), Some(4));
    assert_eq!(ColumnTypeTag::Decimal64.decimal_size(), Some(8));
    assert_eq!(ColumnTypeTag::Decimal128.decimal_size(), Some(16));
    assert_eq!(ColumnTypeTag::Decimal256.decimal_size(), Some(32));
    assert_eq!(ColumnTypeTag::Long.decimal_size(), None);
    assert_eq!(ColumnTypeTag::Varchar.decimal_size(), None);
}

#[test]
fn sink_converts_like_the_converter() {
    let mut dest = Vec::new();
    let r = ByteArrayDecimalColumnSink::<4, PlainVarSlicer>::convert_decimal(&[0x01, 0x02], &mut dest);
    assert_eq!(r, Ok(()));
    assert_eq!(dest, vec![0x02, 0x01, 0x00, 0x00]);
}
