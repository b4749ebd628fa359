use parquet2::encoding::hybrid_rle::{encode_bool, encode_u32, HybridRleDecoder};
use parquet_decimal::column_type::ColumnTypeTag;
use parquet_decimal::decimal::decode_fixed_decimal_dict;
use parquet_decimal::page::{ColumnChunkBuffers, DataPage, DictPage, PageRows};
use parquet_decimal::rle::decode_indices;

fn numbers(len: usize, num_bits: u32) -> Vec<u32> {
    let mask: u64 = (1u64 << num_bits) - 1;
    (0..len as u64).map(|i| ((i.wrapping_mul(2654435761) >> 7) & mask) as u32).collect()
}

#[test]
fn reads_the_runs_that_the_encoder_writes() {
    for num_bits in 1..=32u32 {
        for len in [0usize, 1, 5, 8, 9, 31, 32, 33, 100, 257] {
            let data = numbers(len, num_bits);
            let mut stream = vec![num_bits as u8];
            encode_u32(&mut stream, data.iter().cloned(), num_bits).unwrap();
            assert_eq!(decode_indices(&stream, len), Ok(data));
        }
    }
}

#[test]
fn agrees_with_the_decoder_of_the_encoder() {
    for num_bits in [1u32, 2, 3, 7, 8, 9, 16, 17, 31] {
        let data = numbers(75, num_bits);
        let mut stream = vec![num_bits as u8];
        encode_u32(&mut stream, data.iter().cloned(), num_bits).unwrap();
        for limit in [0usize, 1, 40, 75] {
            let theirs: Vec<u32> = HybridRleDecoder::try_new(&stream[1..], num_bits, limit)
                .unwrap()
                .map(|x| x.unwrap())
                .collect();
            assert_eq!(decode_indices(&stream, limit), Ok(theirs));
        }
    }
}

#[test]
fn reads_the_levels_that_the_encoder_writes() {
    let valid: Vec<bool> = (0..45).map(|i| i % 3 != 1).collect();
    let mut def_levels = Vec::new();
    encode_bool(&mut def_levels, valid.iter().cloned()).unwrap();
    let page = DataPage { num_values: valid.len(), max_def_level: 1, def_levels };
    let rows = PageRows::try_new(&page).unwrap();
    assert_eq!(rows.rows(), valid.len());
    for (r, v) in valid.iter().enumerate() {
        assert_eq!(rows.has_value(r), *v);
    }
    assert_eq!(rows.count_values(0, valid.len()), 30);
}

#[test]
fn decodes_a_dictionary_page_with_encoded_indices() {
    let dict = DictPage { buffer: vec![0x00, 0x01, 0xFF, 0xFE, 0x7F, 0xFF], num_values: 3 };
    let indices: Vec<u32> = (0..20).map(|i| i % 3).collect();
    let mut stream = vec![2u8];
    encode_u32(&mut stream, indices.iter().cloned(), 2).unwrap();
    let page = DataPage { num_values: 20, max_def_level: 0, def_levels: Vec::new() };
    let mut bufs = ColumnChunkBuffers { data_vec: Vec::new() };
    let r = decode_fixed_decimal_dict(
        &page,
        &dict,
        &mut bufs,
        &stream,
        0,
        20,
        20,
        2,
        ColumnTypeTag::Decimal32,
    );
    assert_eq!(r, Ok(()));
    let cells: [[u8; 4]; 3] = [[0x01, 0, 0, 0], [0xFE, 0xFF, 0xFF, 0xFF], [0xFF, 0x7F, 0, 0]];
    for (k, cell) in bufs.data_vec.chunks(4).enumerate() {
        assert_eq!(cell, &cells[k % 3]);
    }
    assert_eq!(bufs.data_vec.len(), 80);
}
