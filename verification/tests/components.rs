use rust_compressor::detect::{detect_algorithm_from_stream, Algorithm, DetectError};
use rust_compressor::error::{ErrorKind, FormatError};
use rust_compressor::matcher::{find_match, Match};
use rust_compressor::token::{Token, LITERAL_TAG, MATCH_TAG};
use rust_compressor::window::{Window, MAX_OFFSET, WINDOW_SIZE};

fn window_holding(bytes: &[u8]) -> Window {
    let mut window = Window::new();
    for &byte in bytes {
        window.push(byte);
    }
    window
}

#[test]
fn window_starts_empty() {
    let window = Window::new();
    assert_eq!(window.len(), 0);
    assert_eq!(window.get(0), None);
    assert_eq!(window.get(1), None);
}

#[test]
fn window_get_counts_back_from_the_newest_byte() {
    let window = window_holding(b"abc");
    assert_eq!(window.len(), 3);
    assert_eq!(window.get(1), Some(b'c'));
    assert_eq!(window.get(2), Some(b'b'));
    assert_eq!(window.get(3), Some(b'a'));
    assert_eq!(window.get(4), None);
    assert_eq!(window.get(0), None);
}

#[test]
fn window_evicts_the_oldest_byte_at_capacity() {
    let bytes: Vec<u8> = (0..20u8).collect();
    let mut window = window_holding(&bytes);
    assert_eq!(window.len(), WINDOW_SIZE);
    assert_eq!(window.get(20), Some(0));
    assert_eq!(window.get(21), None);

    window.push(20);
    assert_eq!(window.len(), WINDOW_SIZE);
    assert_eq!(window.get(1), Some(20));
    assert_eq!(window.get(20), Some(1));
    assert_eq!(window.get(21), None);

    for byte in 21..100u8 {
        window.push(byte);
    }
    assert_eq!(window.len(), WINDOW_SIZE);
    assert_eq!(window.get(1), Some(99));
    assert_eq!(window.get(20), Some(80));
}

#[test]
fn window_get_refuses_distances_beyond_the_offset_range() {
    let window = window_holding(b"abc");
    assert_eq!(MAX_OFFSET, 255);
    assert_eq!(window.get(255), None);
    assert_eq!(window.get(256), None);
    assert_eq!(window.get(usize::MAX), None);
}

#[test]
fn find_match_in_an_empty_window_finds_nothing() {
    let window = Window::new();
    assert_eq!(find_match(&window, b"abc"), Match { offset: 0, length: 0 });
}

#[test]
fn find_match_with_nothing_in_common_has_length_zero_at_the_nearest_offset() {
    let window = window_holding(b"abc");
    assert_eq!(find_match(&window, b"xyz"), Match { offset: 1, length: 0 });
    assert_eq!(find_match(&window, b""), Match { offset: 1, length: 0 });
}

#[test]
fn find_match_returns_the_longest_match() {
    let window = window_holding(b"abcd-abc-");
    assert_eq!(find_match(&window, b"abcd"), Match { offset: 9, length: 4 });
    assert_eq!(find_match(&window, b"abcx"), Match { offset: 4, length: 3 });
}

#[test]
fn find_match_prefers_the_nearest_of_equal_matches() {
    let window = window_holding(b"abc-abc-");
    assert_eq!(find_match(&window, b"abc"), Match { offset: 4, length: 3 });
}

#[test]
fn find_match_runs_on_into_the_lookahead() {
    let window = window_holding(b"ab");
    assert_eq!(find_match(&window, b"ababababab"), Match { offset: 2, length: 10 });
    let window = window_holding(b"a");
    assert_eq!(find_match(&window, b"aaaab"), Match { offset: 1, length: 4 });
}

#[test]
fn find_match_is_capped_at_the_longest_match_length() {
    let window = window_holding(b"a");
    let lookahead = vec![b'a'; 300];
    assert_eq!(find_match(&window, &lookahead), Match { offset: 1, length: 255 });
}

#[test]
fn match_is_accepted_from_the_minimum_length_on() {
    assert!(!Match { offset: 1, length: 0 }.is_accepted());
    assert!(!Match { offset: 1, length: 2 }.is_accepted());
    assert!(Match { offset: 1, length: 3 }.is_accepted());
    assert!(Match { offset: 20, length: 255 }.is_accepted());
    assert!(Match { offset: 255, length: 3 }.is_accepted());
}

#[test]
fn match_is_accepted_only_with_an_offset_the_field_can_hold() {
    assert!(!Match { offset: 0, length: 3 }.is_accepted());
    assert!(!Match { offset: 256, length: 3 }.is_accepted());
    assert!(!Match { offset: 0, length: 0 }.is_accepted());
}

#[test]
fn token_stands_for_one_byte_or_the_length_of_the_match() {
    assert_eq!(Token::Literal(9).decoded_len(), 1);
    assert_eq!(Token::Match { offset: 2, length: 10 }.decoded_len(), 10);
    assert_eq!(Token::Match { offset: 1, length: 255 }.decoded_len(), 255);
}

#[test]
fn token_wire_form() {
    assert_eq!(LITERAL_TAG, 0);
    assert_eq!(MATCH_TAG, 1);

    let mut out = vec![9u8];
    Token::Literal(b'x').write(&mut out);
    assert_eq!(out, vec![9, 0, b'x']);
    Token::Match { offset: 7, length: 200 }.write(&mut out);
    assert_eq!(out, vec![9, 0, b'x', 1, 7, 200]);

    assert_eq!(Token::Literal(0).encoded_len(), 2);
    assert_eq!(Token::Match { offset: 1, length: 3 }.encoded_len(), 3);
}

#[test]
fn token_read_returns_what_was_written() {
    let mut stream = Vec::new();
    Token::Literal(b'x').write(&mut stream);
    Token::Match { offset: 7, length: 200 }.write(&mut stream);
    assert_eq!(Token::read(&stream, 0), Ok(Some(Token::Literal(b'x'))));
    assert_eq!(Token::read(&stream, 2), Ok(Some(Token::Match { offset: 7, length: 200 })));
    assert_eq!(Token::read(&stream, 5), Ok(None));
    assert_eq!(Token::read(&stream, 500), Ok(None));
}

#[test]
fn token_read_rejects_unknown_tags_and_cut_tokens() {
    assert_eq!(
        Token::read(&[0, 1, 2], 2),
        Err(FormatError { kind: ErrorKind::InvalidToken, position: 2 })
    );
    assert_eq!(
        Token::read(&[5, 5, 0], 2),
        Err(FormatError { kind: ErrorKind::TruncatedToken, position: 2 })
    );
    assert_eq!(
        Token::read(&[1, 4], 0),
        Err(FormatError { kind: ErrorKind::TruncatedToken, position: 0 })
    );
    assert_eq!(
        Token::read(&[1], 0),
        Err(FormatError { kind: ErrorKind::TruncatedToken, position: 0 })
    );
}

#[test]
fn detect_by_magic_byte() {
    assert_eq!(detect_algorithm_from_stream(&[0x52, 1, 2]), Ok(Algorithm::Rle));
    assert_eq!(detect_algorithm_from_stream(&[0x4C]), Ok(Algorithm::Lz));
    assert_eq!(detect_algorithm_from_stream(&[0x00, 0x52]), Err(DetectError::UnknownMagic(0)));
    assert_eq!(detect_algorithm_from_stream(&[]), Err(DetectError::EmptyInput));
}

#[test]
fn detect_own_streams() {
    let lz = rust_compressor::lz::compress(b"hello hello hello");
    let rle = rust_compressor::rle::compress(b"hello hello hello");
    assert_eq!(detect_algorithm_from_stream(&lz), Ok(Algorithm::Lz));
    assert_eq!(detect_algorithm_from_stream(&rle), Ok(Algorithm::Rle));
    let empty = rust_compressor::lz::compress(b"");
    assert_eq!(detect_algorithm_from_stream(&empty), Ok(Algorithm::Lz));
}
