use parquet_decimal::dict_decoder::{DictDecoder, RuntimeFixedDictDecoder, VarDictDecoder};
use parquet_decimal::error::{Layout, ParquetError};
use parquet_decimal::page::DictPage;
use parquet_decimal::rle::{decode_indices, RleDictionarySlicer};
use parquet_decimal::slicer::{DataPageDynSlicer, DataPageSlicer, PlainVarSlicer};

#[test]
fn fixed_slicer_hands_out_strides() {
    let data = [1u8, 2, 3, 4, 5, 6, 7];
    let mut s = DataPageDynSlicer::new(&data, 10, 3);
    assert!(s.has_next());
    assert_eq!(s.next(), &[1, 2, 3]);
    assert_eq!(s.next(), &[4, 5, 6]);
    assert!(!s.has_next());
    assert_eq!(s.result(), Ok(()));
}

#[test]
fn fixed_slicer_stops_at_the_declared_count() {
    let data = [1u8, 2, 3, 4];
    let mut s = DataPageDynSlicer::new(&data, 1, 2);
    assert_eq!(s.next(), &[1, 2]);
    assert!(!s.has_next());
}

#[test]
fn fixed_slicer_skips() {
    let data = [1u8, 2, 3, 4, 5, 6];
    let mut s = DataPageDynSlicer::new(&data, 6, 1);
    s.skip(4);
    assert_eq!(s.next(), &[5]);
    s.skip(100);
    assert!(!s.has_next());
}

#[test]
fn var_slicer_reads_length_prefixes() {
    let data = [2u8, 0, 0, 0, 0xAA, 0xBB, 0, 0, 0, 0, 1, 0, 0, 0, 0xCC];
    let mut s = PlainVarSlicer::new(&data, 3);
    assert_eq!(s.next(), &[0xAA, 0xBB]);
    assert_eq!(s.next(), &[] as &[u8]);
    assert_eq!(s.next(), &[0xCC]);
    assert!(!s.has_next());
}

#[test]
fn var_slicer_ends_where_a_value_is_cut() {
    let data = [1u8, 0, 0, 0, 0xAA, 5, 0, 0, 0, 0xBB];
    let mut s = PlainVarSlicer::new(&data, 2);
    assert_eq!(s.next(), &[0xAA]);
    assert!(!s.has_next());
}

#[test]
fn var_slicer_skip_parses_lengths() {
    let data = [1u8, 0, 0, 0, 0xAA, 2, 0, 0, 0, 0xBB, 0xCC, 1, 0, 0, 0, 0xDD];
    let mut s = PlainVarSlicer::new(&data, 3);
    s.skip(2);
    assert_eq!(s.next(), &[0xDD]);
    s.skip(3);
    assert!(!s.has_next());
}

#[test]
fn fixed_dictionary_finds_values() {
    let page = DictPage { buffer: vec![0x80, 0x00, 0x00, 0x01], num_values: 2 };
    let dict = RuntimeFixedDictDecoder::try_new(&page, 2).unwrap();
    assert_eq!(dict.len(), 2);
    assert_eq!(dict.avg_key_len(), 2);
    assert_eq!(dict.get_dict_value(0), &[0x80, 0x00]);
    assert_eq!(dict.get_dict_value(1), &[0x00, 0x01]);
}

#[test]
fn empty_fixed_dictionary_still_tells_its_value_size() {
    let page = DictPage { buffer: vec![], num_values: 0 };
    let dict = RuntimeFixedDictDecoder::try_new(&page, 2).unwrap();
    assert_eq!(dict.len(), 0);
    assert_eq!(dict.avg_key_len(), 2);
}

#[test]
fn fixed_dictionary_rejects_value_size_zero() {
    let page = DictPage { buffer: vec![], num_values: 0 };
    assert_eq!(
        RuntimeFixedDictDecoder::try_new(&page, 0).err(),
        Some(ParquetError::Layout(Layout::DictValueSize))
    );
}

#[test]
fn fixed_dictionary_rejects_a_buffer_of_another_size() {
    let page = DictPage { buffer: vec![1, 2, 3, 4, 5], num_values: 2 };
    assert_eq!(
        RuntimeFixedDictDecoder::try_new(&page, 2).err(),
        Some(ParquetError::Layout(Layout::DictPageSize { value_size: 2 }))
    );
    let page = DictPage { buffer: vec![1, 2, 3, 4], num_values: usize::MAX };
    assert_eq!(
        RuntimeFixedDictDecoder::try_new(&page, 4).err(),
        Some(ParquetError::Layout(Layout::DictPageSize { value_size: 4 }))
    );
}

#[test]
fn var_dictionary_finds_values() {
    let page = DictPage { buffer: vec![1, 0, 0, 0, 0x7F, 3, 0, 0, 0, 1, 2, 3], num_values: 2 };
    let dict = VarDictDecoder::try_new(&page).unwrap();
    assert_eq!(dict.len(), 2);
    assert_eq!(dict.avg_key_len(), 2);
    assert_eq!(dict.get_dict_value(0), &[0x7F]);
    assert_eq!(dict.get_dict_value(1), &[1, 2, 3]);
}

#[test]
fn var_dictionary_rejects_a_cut_buffer() {
    let page = DictPage { buffer: vec![1, 0, 0, 0, 0x7F, 3, 0, 0, 0, 1, 2], num_values: 2 };
    assert_eq!(
        VarDictDecoder::try_new(&page).err(),
        Some(ParquetError::Layout(Layout::DictTruncated))
    );
    let page = DictPage { buffer: vec![1, 0, 0], num_values: 1 };
    assert_eq!(
        VarDictDecoder::try_new(&page).err(),
        Some(ParquetError::Layout(Layout::DictTruncated))
    );
}

#[test]
fn empty_var_dictionary_has_mean_length_zero() {
    let page = DictPage { buffer: vec![], num_values: 0 };
    let dict = VarDictDecoder::try_new(&page).unwrap();
    assert_eq!(dict.len(), 0);
    assert_eq!(dict.avg_key_len(), 0);
}

#[test]
fn bit_packed_run_is_unpacked() {
    // bit width 3, one group of eight indices 0..8
    let stream = [3u8, 0x03, 0b1000_1000, 0b1100_0110, 0b1111_1010];
    assert_eq!(decode_indices(&stream, 8), Ok(vec![0, 1, 2, 3, 4, 5, 6, 7]));
    assert_eq!(decode_indices(&stream, 5), Ok(vec![0, 1, 2, 3, 4]));
}

#[test]
fn repeated_run_is_repeated() {
    // bit width 9: the index takes two bytes
    let stream = [9u8, 0x08, 0x2C, 0x01];
    assert_eq!(decode_indices(&stream, 10), Ok(vec![300, 300, 300, 300]));
    assert_eq!(decode_indices(&stream, 3), Ok(vec![300, 300, 300]));
}

#[test]
fn runs_follow_each_other() {
    let stream = [1u8, 0x04, 0x01, 0x03, 0b0000_0010, 0x02, 0x00];
    assert_eq!(decode_indices(&stream, 100), Ok(vec![1, 1, 0, 1, 0, 0, 0, 0, 0, 0, 0]));
}

#[test]
fn long_header_is_a_varint() {
    // run length 200: header 400 = 0x190 -> 0x90 0x03
    let stream = [2u8, 0x90, 0x03, 0x03];
    let indices = decode_indices(&stream, 1000).unwrap();
    assert_eq!(indices.len(), 200);
    assert!(indices.iter().all(|i| *i == 3));
}

#[test]
fn bit_width_zero_gives_zeros() {
    assert_eq!(decode_indices(&[0u8], 4), Ok(vec![0, 0, 0, 0]));
}

#[test]
fn malformed_streams_are_rejected() {
    let malformed = Err(ParquetError::Layout(Layout::RleStream));
    assert_eq!(decode_indices(&[], 1), malformed);
    assert_eq!(decode_indices(&[33], 1), malformed);
    // header without an end within five bytes
    assert_eq!(decode_indices(&[1, 0x80, 0x80, 0x80, 0x80, 0x80, 0x01], 1), malformed);
    // header cut
    assert_eq!(decode_indices(&[1, 0x80], 1), malformed);
    // repeated run without its value
    assert_eq!(decode_indices(&[9, 0x02, 0x01], 1), malformed);
}

#[test]
fn bit_packed_run_that_is_cut_short_holds_what_lies_in_the_buffer() {
    // bit width 4, one group of eight declared, three of its four bytes there
    let stream = [4u8, 0x03, 0x21, 0x43, 0x65];
    assert_eq!(decode_indices(&stream, 8), Ok(vec![1, 2, 3, 4, 5, 6]));
    assert_eq!(decode_indices(&stream, 2), Ok(vec![1, 2]));
    // bit width 3, five bits left over
    let stream = [3u8, 0x03, 0b1000_1000, 0b1100_0110];
    assert_eq!(decode_indices(&stream, 8), Ok(vec![0, 1, 2, 3, 4]));
}

#[test]
fn stream_that_ends_early_gives_fewer_indices() {
    assert_eq!(decode_indices(&[1u8, 0x04, 0x01], 10), Ok(vec![1, 1]));
    assert_eq!(decode_indices(&[1u8], 10), Ok(vec![]));
}

#[test]
fn dictionary_slicer_holds_back_a_bad_index() {
    let page = DictPage { buffer: vec![0x0A, 0x0B], num_values: 2 };
    let dict = RuntimeFixedDictDecoder::try_new(&page, 1).unwrap();
    // bit width 2, indices 1, 3, 0
    let stream = [2u8, 0x03, 0b0000_1101, 0x00];
    let error_value = [0xEEu8];
    let mut s = RleDictionarySlicer::try_new(&stream, dict, 3, 3, &error_value).unwrap();
    assert_eq!(s.next(), &[0x0B]);
    assert_eq!(s.result(), Ok(()));
    assert_eq!(s.next(), &[0xEE]);
    assert_eq!(s.result(), Err(ParquetError::Layout(Layout::DictIndexOutOfRange)));
    assert_eq!(s.next(), &[0x0A]);
    assert!(!s.has_next());
    assert_eq!(s.result(), Err(ParquetError::Layout(Layout::DictIndexOutOfRange)));
}

#[test]
fn dictionary_slicer_does_not_flag_what_it_skips() {
    let page = DictPage { buffer: vec![0x0A, 0x0B], num_values: 2 };
    let dict = RuntimeFixedDictDecoder::try_new(&page, 1).unwrap();
    let stream = [2u8, 0x03, 0b0000_1101, 0x00];
    let error_value = [0xEEu8];
    let mut s = RleDictionarySlicer::try_new(&stream, dict, 3, 3, &error_value).unwrap();
    s.skip(2);
    assert_eq!(s.next(), &[0x0A]);
    assert_eq!(s.result(), Ok(()));
}

#[test]
fn dictionary_slicer_rejects_a_malformed_stream() {
    let page = DictPage { buffer: vec![0x0A, 0x0B], num_values: 2 };
    let dict = RuntimeFixedDictDecoder::try_new(&page, 1).unwrap();
    let error_value = [0u8];
    let r = RleDictionarySlicer::try_new(&[], dict, 3, 3, &error_value);
    assert_eq!(r.err(), Some(ParquetError::Layout(Layout::RleStream)));
}
