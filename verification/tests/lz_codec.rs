use rust_compressor::error::{ErrorKind, FormatError};
use rust_compressor::lz::{compress, compress_lz, decompress, decompress_lz, LZ_MAGIC};
use rust_compressor::matcher::{MAX_MATCH_LENGTH, MIN_MATCH_LENGTH};
use rust_compressor::window::WINDOW_SIZE;

#[test]
fn test_lz_buffer_roundtrip_exact() {
    let input = b"ABABABABABAB";
    let compressed = compress(input);
    assert!(!compressed.is_empty(), "Buffer compression failed");

    let expected_compressed = vec![LZ_MAGIC, 0x00, 65, 0x00, 66, 0x01, 2, 10];
    assert_eq!(compressed, expected_compressed);

    let decompressed = decompress(&compressed).expect("Buffer decompression failed");
    assert_eq!(input.to_vec(), decompressed, "Exact LZ77 buffer roundtrip failed");
}

#[test]
fn lz_constants() {
    assert_eq!(LZ_MAGIC, 0x4C);
    assert_eq!(MIN_MATCH_LENGTH, 3);
    assert_eq!(MAX_MATCH_LENGTH, 255);
    assert_eq!(WINDOW_SIZE, 20);
}

#[test]
fn lz_empty_input_is_the_magic_byte_alone() {
    assert_eq!(compress(b""), vec![LZ_MAGIC]);
    assert_eq!(decompress(&[LZ_MAGIC]), Ok(Vec::new()));
}

#[test]
fn lz_empty_stream_decodes_to_nothing() {
    assert_eq!(decompress(&[]), Ok(Vec::new()));
}

#[test]
fn lz_single_byte() {
    assert_eq!(compress(b"Q"), vec![LZ_MAGIC, 0, b'Q']);
    assert_eq!(decompress(&[LZ_MAGIC, 0, b'Q']), Ok(b"Q".to_vec()));
}

#[test]
fn lz_match_may_overlap_what_it_produces() {
    let input = b"AAAAAAAAAA";
    let stream = compress(input);
    assert_eq!(stream, vec![LZ_MAGIC, 0, b'A', 1, 1, 9]);
    assert_eq!(decompress(&stream), Ok(input.to_vec()));
}

#[test]
fn lz_run_of_the_longest_match_length_then_another_byte() {
    let mut input = vec![b'A'; 255];
    input.push(b'B');
    let stream = compress(&input);
    assert_eq!(stream, vec![LZ_MAGIC, 0, b'A', 1, 1, 254, 0, b'B']);
    let decoded = decompress(&stream).unwrap();
    assert_eq!(decoded.len(), 256);
    assert_eq!(decoded, input);
}

#[test]
fn lz_match_is_capped_at_the_longest_match_length() {
    let mut input = vec![b'A'; 256];
    input.push(b'B');
    let stream = compress(&input);
    assert_eq!(stream, vec![LZ_MAGIC, 0, b'A', 1, 1, 255, 0, b'B']);
    assert_eq!(decompress(&stream), Ok(input));

    let long = vec![b'Z'; 600];
    let stream = compress(&long);
    assert_eq!(stream, vec![LZ_MAGIC, 0, b'Z', 1, 1, 255, 1, 1, 255, 1, 1, 89]);
    assert_eq!(decompress(&stream), Ok(long));
}

#[test]
fn lz_match_shorter_than_the_minimum_becomes_literals() {
    assert_eq!(
        compress(b"ABxAB"),
        vec![LZ_MAGIC, 0, b'A', 0, b'B', 0, b'x', 0, b'A', 0, b'B']
    );
    assert_eq!(
        compress(b"ABCxABC"),
        vec![LZ_MAGIC, 0, b'A', 0, b'B', 0, b'C', 0, b'x', 1, 4, 3]
    );
}

#[test]
fn lz_of_equal_matches_the_nearest_is_taken() {
    let input = b"ABCxABCyABC";
    let stream = compress(input);
    assert_eq!(
        stream,
        vec![LZ_MAGIC, 0, b'A', 0, b'B', 0, b'C', 0, b'x', 1, 4, 3, 0, b'y', 1, 4, 3]
    );
    assert_eq!(decompress(&stream), Ok(input.to_vec()));
}

#[test]
fn lz_longer_match_wins_over_nearer_match() {
    let input = b"ABCDxABCyABCD";
    let stream = compress(input);
    assert_eq!(
        stream,
        vec![
            LZ_MAGIC, 0, b'A', 0, b'B', 0, b'C', 0, b'D', 0, b'x', 1, 5, 3, 0, b'y', 1, 9, 4
        ]
    );
    assert_eq!(decompress(&stream), Ok(input.to_vec()));
}

#[test]
fn lz_match_reaches_back_the_whole_window() {
    let mut input: Vec<u8> = (0..20u8).collect();
    input.extend_from_slice(&[0, 1, 2]);
    let stream = compress(&input);
    let mut expected = vec![LZ_MAGIC];
    for byte in 0..20u8 {
        expected.push(0);
        expected.push(byte);
    }
    expected.extend_from_slice(&[1, 20, 3]);
    assert_eq!(stream, expected);
    assert_eq!(decompress(&stream), Ok(input));
}

#[test]
fn lz_bytes_that_left_the_window_are_not_matched() {
    let mut input: Vec<u8> = (0..21u8).collect();
    input.extend_from_slice(&[0, 1, 2]);
    let stream = compress(&input);
    let mut expected = vec![LZ_MAGIC];
    for &byte in &input {
        expected.push(0);
        expected.push(byte);
    }
    assert_eq!(stream, expected);
    assert_eq!(decompress(&stream), Ok(input));
}

#[test]
fn lz_appends_to_what_the_sink_holds() {
    let mut sink = vec![1u8, 2, 3];
    compress_lz(b"AAAA", &mut sink);
    assert_eq!(sink, vec![1, 2, 3, LZ_MAGIC, 0, b'A', 1, 1, 3]);

    let mut out = vec![b'A'; 5];
    let outcome = decompress_lz(&[LZ_MAGIC, 0, b'B', 1, 1, 3], &mut out);
    assert_eq!(outcome, Ok(()));
    assert_eq!(out, b"AAAAABBBB".to_vec());
}

#[test]
fn lz_match_cannot_reach_into_what_the_sink_held_before() {
    let mut out = vec![b'A'; 5];
    let outcome = decompress_lz(&[LZ_MAGIC, 1, 1, 3], &mut out);
    assert_eq!(outcome, Err(FormatError { kind: ErrorKind::OffsetOutOfRange, position: 1 }));
    assert_eq!(out, vec![b'A'; 5]);
}

#[test]
fn lz_wrong_magic_is_rejected() {
    assert_eq!(
        decompress(&[0x52, 0, 65]),
        Err(FormatError { kind: ErrorKind::MagicByteMismatch, position: 0 })
    );
    assert_eq!(
        decompress(&[0x00]),
        Err(FormatError { kind: ErrorKind::MagicByteMismatch, position: 0 })
    );
}

#[test]
fn lz_truncated_literal_is_rejected() {
    assert_eq!(
        decompress(&[LZ_MAGIC, 0]),
        Err(FormatError { kind: ErrorKind::TruncatedToken, position: 1 })
    );
    assert_eq!(
        decompress(&[LZ_MAGIC, 0, 65, 0]),
        Err(FormatError { kind: ErrorKind::TruncatedToken, position: 3 })
    );
}

#[test]
fn lz_truncated_match_is_rejected() {
    assert_eq!(
        decompress(&[LZ_MAGIC, 0, 65, 1]),
        Err(FormatError { kind: ErrorKind::TruncatedToken, position: 3 })
    );
    assert_eq!(
        decompress(&[LZ_MAGIC, 0, 65, 1, 1]),
        Err(FormatError { kind: ErrorKind::TruncatedToken, position: 3 })
    );
}

#[test]
fn lz_unknown_tag_is_rejected() {
    assert_eq!(
        decompress(&[LZ_MAGIC, 2, 0, 0]),
        Err(FormatError { kind: ErrorKind::InvalidToken, position: 1 })
    );
    assert_eq!(
        decompress(&[LZ_MAGIC, 0, 65, 255]),
        Err(FormatError { kind: ErrorKind::InvalidToken, position: 3 })
    );
}

#[test]
fn lz_zero_offset_is_rejected() {
    assert_eq!(
        decompress(&[LZ_MAGIC, 0, 65, 1, 0, 3]),
        Err(FormatError { kind: ErrorKind::OffsetOutOfRange, position: 3 })
    );
}

#[test]
fn lz_offset_beyond_the_history_is_rejected() {
    assert_eq!(
        decompress(&[LZ_MAGIC, 1, 1, 3]),
        Err(FormatError { kind: ErrorKind::OffsetOutOfRange, position: 1 })
    );
    assert_eq!(
        decompress(&[LZ_MAGIC, 0, 65, 1, 2, 3]),
        Err(FormatError { kind: ErrorKind::OffsetOutOfRange, position: 3 })
    );
}

#[test]
fn lz_offset_beyond_the_window_is_rejected() {
    let mut stream = vec![LZ_MAGIC];
    for byte in 0..21u8 {
        stream.push(0);
        stream.push(byte);
    }
    let mut within = stream.clone();
    within.extend_from_slice(&[1, 20, 1]);
    let mut expected: Vec<u8> = (0..21u8).collect();
    expected.push(1);
    assert_eq!(decompress(&within), Ok(expected));

    let mut beyond = stream.clone();
    beyond.extend_from_slice(&[1, 21, 1]);
    assert_eq!(
        decompress(&beyond),
        Err(FormatError { kind: ErrorKind::OffsetOutOfRange, position: 43 })
    );
}

#[test]
fn lz_zero_length_is_rejected() {
    assert_eq!(
        decompress(&[LZ_MAGIC, 0, 65, 1, 1, 0]),
        Err(FormatError { kind: ErrorKind::ZeroLengthMatch, position: 3 })
    );
}

#[test]
fn lz_zero_offset_is_reported_before_zero_length() {
    assert_eq!(
        decompress(&[LZ_MAGIC, 0, 65, 1, 0, 0]),
        Err(FormatError { kind: ErrorKind::OffsetOutOfRange, position: 3 })
    );
}

#[test]
fn lz_zero_length_is_reported_before_an_offset_beyond_the_window() {
    assert_eq!(
        decompress(&[LZ_MAGIC, 0, 65, 1, 5, 0]),
        Err(FormatError { kind: ErrorKind::ZeroLengthMatch, position: 3 })
    );
}

#[test]
fn lz_error_leaves_the_bytes_decoded_before_it() {
    let mut out = Vec::new();
    let outcome = decompress_lz(&[LZ_MAGIC, 0, b'A', 1, 1, 4, 7], &mut out);
    assert_eq!(outcome, Err(FormatError { kind: ErrorKind::InvalidToken, position: 6 }));
    assert_eq!(out, b"AAAAA".to_vec());
}

#[test]
fn lz_decoder_accepts_matches_shorter_than_the_encoder_emits() {
    assert_eq!(decompress(&[LZ_MAGIC, 0, b'A', 1, 1, 2]), Ok(b"AAA".to_vec()));
    assert_eq!(decompress(&[LZ_MAGIC, 0, b'A', 0, b'B', 1, 2, 1]), Ok(b"ABA".to_vec()));
}

#[test]
fn lz_decoder_replays_an_overlapping_match_byte_by_byte() {
    assert_eq!(
        decompress(&[LZ_MAGIC, 0, b'A', 0, b'B', 0, b'C', 1, 3, 8]),
        Ok(b"ABCABCABCAB".to_vec())
    );
}

fn lz_sample(seed: u64, len: usize, alphabet: u64) -> Vec<u8> {
    let mut state = seed;
    let mut bytes = Vec::with_capacity(len);
    for _ in 0..len {
        state = state.wrapping_mul(6364136223846793005).wrapping_add(1442695040888963407);
        bytes.push(((state >> 33) % alphabet) as u8);
    }
    bytes
}

fn lz_match_tokens(stream: &[u8]) -> Vec<(usize, u8, u8)> {
    let mut found = Vec::new();
    let mut produced = 0usize;
    let mut at = 1usize;
    while at < stream.len() {
        if stream[at] == 0 {
            produced += 1;
            at += 2;
        } else {
            found.push((produced, stream[at + 1], stream[at + 2]));
            produced += stream[at + 2] as usize;
            at += 3;
        }
    }
    found
}

#[test]
fn lz_round_trip_on_many_inputs() {
    for &len in &[0usize, 1, 2, 3, 19, 20, 21, 22, 254, 255, 256, 257, 300, 1000] {
        for &alphabet in &[1u64, 2, 3, 5, 256] {
            for seed in 0..4u64 {
                let input = lz_sample(seed, len, alphabet);
                let stream = compress(&input);
                assert_eq!(stream[0], LZ_MAGIC);
                assert_eq!(decompress(&stream), Ok(input));
            }
        }
    }
}

#[test]
fn lz_emitted_matches_are_valid_where_they_stand() {
    for &alphabet in &[1u64, 2, 3, 5] {
        for seed in 0..8u64 {
            let input = lz_sample(seed, 700, alphabet);
            let stream = compress(&input);
            for (produced, offset, length) in lz_match_tokens(&stream) {
                assert!(offset >= 1);
                assert!(offset as usize <= produced);
                assert!(offset as usize <= WINDOW_SIZE);
                assert!(length as usize >= MIN_MATCH_LENGTH);
            }
        }
    }
}

#[test]
fn lz_compression_is_deterministic() {
    let input = lz_sample(5, 900, 3);
    assert_eq!(compress(&input), compress(&input));
    let mut first = Vec::new();
    let mut second = Vec::new();
    compress_lz(&input, &mut first);
    compress_lz(&input, &mut second);
    assert_eq!(first, second);
    assert_eq!(first, compress(&input));
}
