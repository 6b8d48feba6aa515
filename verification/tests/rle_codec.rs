use rust_compressor::error::{ErrorKind, FormatError};
use rust_compressor::rle::{
    compress, compress_rle, decompress, decompress_rle, MAX_RUN_LENGTH, RLE_MAGIC,
};

#[test]
fn test_rle_buffer_roundtrip_exact() {
    let input = b"AAABBBCCCCCDDDDE";
    let compressed = compress(input);
    assert!(!compressed.is_empty(), "Buffer compression failed");

    let expected_compressed = vec![RLE_MAGIC, 65, 3, 66, 3, 67, 5, 68, 4, 69, 1];
    assert_eq!(compressed, expected_compressed);

    let decompressed = decompress(&compressed).expect("Buffer decompression failed");
    assert_eq!(input.to_vec(), decompressed, "Exact RLE buffer roundtrip failed");
}

#[test]
fn test_rle_streaming_roundtrip() {
    let input_data = b"AAABBBCCCCCDDDDEFFFGAAAAAAAAA".to_vec();
    let mut compressed_buf = Vec::new();

    compress_rle(&input_data, &mut compressed_buf);

    assert!(compressed_buf.len() > 1);
    assert_eq!(compressed_buf[0], RLE_MAGIC);

    let mut decompressed_buf = Vec::new();
    let outcome = decompress_rle(&compressed_buf, &mut decompressed_buf);
    assert_eq!(outcome, Ok(()));

    assert_eq!(input_data, decompressed_buf);
}

#[test]
fn test_decompress_invalid_magic() {
    let invalid_data = vec![0x00, 0x41, 0x03];
    let mut writer = Vec::new();
    let result = decompress_rle(&invalid_data, &mut writer);
    assert!(result.is_err());
    assert_eq!(result.err().unwrap().kind(), ErrorKind::MagicByteMismatch);
}

#[test]
fn test_decompress_incomplete_pair() {
    let invalid_data = vec![RLE_MAGIC, 0x41];
    let mut writer = Vec::new();
    let result = decompress_rle(&invalid_data, &mut writer);
    assert!(result.is_err());
    assert_eq!(result, Err(FormatError { kind: ErrorKind::TruncatedToken, position: 1 }));
}

#[test]
fn test_compress_empty() {
    let input_data = b"".to_vec();
    let mut compressed_buf = Vec::new();
    compress_rle(&input_data, &mut compressed_buf);
    assert_eq!(compressed_buf, vec![RLE_MAGIC]);

    let mut decompressed_buf = Vec::new();
    let outcome = decompress_rle(&compressed_buf, &mut decompressed_buf);
    assert_eq!(outcome, Ok(()));
    assert_eq!(input_data, decompressed_buf);
}

#[test]
fn rle_magic_is_the_letter_r() {
    assert_eq!(RLE_MAGIC, 0x52);
    assert_eq!(MAX_RUN_LENGTH, 255);
}

#[test]
fn rle_single_byte() {
    assert_eq!(compress(b"x"), vec![RLE_MAGIC, b'x', 1]);
    assert_eq!(decompress(&[RLE_MAGIC, b'x', 1]), Ok(b"x".to_vec()));
}

#[test]
fn rle_run_of_exactly_the_longest_length() {
    let input = vec![7u8; 255];
    assert_eq!(compress(&input), vec![RLE_MAGIC, 7, 255]);
    assert_eq!(decompress(&compress(&input)), Ok(input));
}

#[test]
fn rle_run_longer_than_the_longest_length_is_split() {
    let input = vec![7u8; 256];
    assert_eq!(compress(&input), vec![RLE_MAGIC, 7, 255, 7, 1]);
    assert_eq!(decompress(&compress(&input)), Ok(input));

    let long = vec![9u8; 600];
    assert_eq!(compress(&long), vec![RLE_MAGIC, 9, 255, 9, 255, 9, 90]);
    assert_eq!(decompress(&compress(&long)), Ok(long));
}

#[test]
fn rle_appends_to_what_the_sink_holds() {
    let mut sink = vec![1u8, 2, 3];
    compress_rle(b"aab", &mut sink);
    assert_eq!(sink, vec![1, 2, 3, RLE_MAGIC, b'a', 2, b'b', 1]);

    let mut out = vec![9u8];
    assert_eq!(decompress_rle(&[RLE_MAGIC, b'a', 2, b'b', 1], &mut out), Ok(()));
    assert_eq!(out, vec![9, b'a', b'a', b'b']);
}

#[test]
fn rle_empty_stream_decodes_to_nothing() {
    assert_eq!(decompress(&[]), Ok(Vec::new()));
    assert_eq!(decompress(&[RLE_MAGIC]), Ok(Vec::new()));
}

#[test]
fn rle_zero_count_is_rejected() {
    assert_eq!(
        decompress(&[RLE_MAGIC, b'a', 2, b'b', 0, b'c', 1]),
        Err(FormatError { kind: ErrorKind::ZeroLengthRun, position: 3 })
    );
}

#[test]
fn rle_truncated_pair_is_rejected_with_its_position() {
    assert_eq!(
        decompress(&[RLE_MAGIC, b'a', 2, b'b']),
        Err(FormatError { kind: ErrorKind::TruncatedToken, position: 3 })
    );
}

#[test]
fn rle_wrong_magic_is_rejected() {
    assert_eq!(
        decompress(&[0x4C, b'a', 2]),
        Err(FormatError { kind: ErrorKind::MagicByteMismatch, position: 0 })
    );
}

#[test]
fn rle_error_leaves_the_bytes_decoded_before_it() {
    let mut out = Vec::new();
    let outcome = decompress_rle(&[RLE_MAGIC, b'a', 2, b'b', 0], &mut out);
    assert_eq!(outcome, Err(FormatError { kind: ErrorKind::ZeroLengthRun, position: 3 }));
    assert_eq!(out, b"aa".to_vec());
}

#[test]
fn rle_decoder_accepts_adjacent_runs_of_one_byte() {
    assert_eq!(decompress(&[RLE_MAGIC, b'a', 2, b'a', 3]), Ok(b"aaaaa".to_vec()));
}

#[test]
fn rle_format_error_accessors() {
    let error = FormatError { kind: ErrorKind::ZeroLengthRun, position: 42 };
    assert_eq!(error.kind(), ErrorKind::ZeroLengthRun);
    assert_eq!(error.position(), 42);
}

fn rle_sample(seed: u64, len: usize, alphabet: u64) -> Vec<u8> {
    let mut state = seed;
    let mut bytes = Vec::with_capacity(len);
    for _ in 0..len {
        state = state.wrapping_mul(6364136223846793005).wrapping_add(1442695040888963407);
        bytes.push(((state >> 33) % alphabet) as u8);
    }
    bytes
}

#[test]
fn rle_round_trip_on_many_inputs() {
    for &len in &[0usize, 1, 2, 3, 254, 255, 256, 257, 511, 1000] {
        for &alphabet in &[1u64, 2, 3, 256] {
            for seed in 0..4u64 {
                let input = rle_sample(seed, len, alphabet);
                let stream = compress(&input);
                assert_eq!(stream[0], RLE_MAGIC);
                assert_eq!(decompress(&stream), Ok(input));
            }
        }
    }
}

#[test]
fn rle_compression_is_deterministic() {
    let input = rle_sample(11, 700, 3);
    assert_eq!(compress(&input), compress(&input));
}
