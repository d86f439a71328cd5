use flate2::write::GzEncoder;
use flate2::Compression;
use notes_grep::body::{decode_note_body, MAX_DECODED_BODY_BYTES, MAX_RECURSION_DEPTH};
use std::io::Write;

fn test_body_blob(text: &str) -> Vec<u8> {
    let mut message = Vec::new();
    push_len_field(&mut message, 1, text.as_bytes());
    gzip(&message)
}

fn push_len_field(message: &mut Vec<u8>, field: u64, bytes: &[u8]) {
    push_varint(message, (field << 3) | 2);
    push_varint(message, bytes.len() as u64);
    message.extend_from_slice(bytes);
}

fn push_varint(message: &mut Vec<u8>, mut value: u64) {
    while value >= 0x80 {
        message.push((value as u8 & 0x7f) | 0x80);
        value >>= 7;
    }
    message.push(value as u8);
}

fn gzip(bytes: &[u8]) -> Vec<u8> {
    let mut encoder = GzEncoder::new(Vec::new(), Compression::default());
    encoder.write_all(bytes).unwrap();
    encoder.finish().unwrap()
}

#[test]
fn decodes_gzipped_protobuf_text_field() {
    let blob = test_body_blob("Fixture body-only phrase lives here");
    let body = decode_note_body(&blob).unwrap().unwrap();
    assert!(body.contains("body-only phrase"));
}

#[test]
fn chooses_nested_long_body_text() {
    let mut nested = Vec::new();
    push_len_field(&mut nested, 2, b"Nested body-only phrase with enough text to win scoring");

    let mut outer = Vec::new();
    push_len_field(&mut outer, 1, b"tiny");
    push_len_field(&mut outer, 2, &nested);

    let blob = gzip(&outer);
    let body = decode_note_body(&blob).unwrap().unwrap();
    assert!(body.contains("Nested body-only phrase"));
}

#[test]
fn normalizes_jsonl_hostile_line_separators() {
    let blob = test_body_blob("first\u{2028}second\u{2029}third");
    let body = decode_note_body(&blob).unwrap().unwrap();
    assert_eq!(body, "first\nsecond\nthird");
}

#[test]
fn rejects_oversized_decoded_body() {
    let blob = gzip(&vec![b'a'; MAX_DECODED_BODY_BYTES + 1]);
    let err = decode_note_body(&blob).unwrap_err();
    assert_eq!(err.kind(), std::io::ErrorKind::InvalidData);
}

#[test]
fn skips_varint_and_fixed_width_fields_before_text() {
    let mut message = Vec::new();
    push_varint(&mut message, 1 << 3);
    push_varint(&mut message, 300);
    push_varint(&mut message, (2 << 3) | 1);
    message.extend_from_slice(&[0xAA; 8]);
    push_varint(&mut message, (3 << 3) | 5);
    message.extend_from_slice(&[0xBB; 4]);
    push_len_field(&mut message, 4, b"Recovered body text after scalar fields");

    let blob = gzip(&message);
    let body = decode_note_body(&blob).unwrap().unwrap();
    assert_eq!(body, "Recovered body text after scalar fields");
}

#[test]
fn truncated_length_delimited_field_does_not_over_read() {
    let mut message = Vec::new();
    push_varint(&mut message, (1 << 3) | 2);
    push_varint(&mut message, 1_000);
    message.extend_from_slice(b"only a few");

    let blob = gzip(&message);
    let body = decode_note_body(&blob).unwrap();
    assert_eq!(body, None);
}

#[test]
fn malformed_leading_key_terminates_without_text() {
    let message = vec![0x80, 0x80, 0x80];
    let blob = gzip(&message);
    let body = decode_note_body(&blob).unwrap();
    assert_eq!(body, None);
}

#[test]
fn deeply_nested_message_terminates_without_runaway_recursion() {
    let mut payload = Vec::new();
    push_len_field(&mut payload, 1, b"Deeply nested body text leaf used to drive recursion depth");
    for _ in 0..(MAX_RECURSION_DEPTH * 4) {
        let mut wrapped = Vec::new();
        push_len_field(&mut wrapped, 1, &payload);
        payload = wrapped;
    }

    let blob = gzip(&payload);
    let body = decode_note_body(&blob).unwrap();
    assert!(body.is_some(), "decoding deeply nested input must terminate");
}

#[test]
fn body_that_is_not_gzip_is_an_error() {
    assert!(decode_note_body(b"plainly not gzip").is_err());
}

#[test]
fn body_text_trims_line_ends_and_drops_control_heavy_chunks() {
    let mut message = Vec::new();
    push_len_field(&mut message, 1, b"  padded text line  \r\n");
    push_len_field(&mut message, 2, &[0x01, 0x02, 0x03, 0x04, b'a']);
    let body = decode_note_body(&gzip(&message)).unwrap().unwrap();
    assert_eq!(body, "padded text line");
}

#[test]
fn longer_spaced_text_outscores_shorter_text() {
    let mut message = Vec::new();
    push_len_field(&mut message, 1, b"short");
    push_len_field(&mut message, 2, b"two words");
    push_len_field(&mut message, 3, b"abcdefghijklmnopqrstuvwxyz");
    let body = decode_note_body(&gzip(&message)).unwrap().unwrap();
    assert_eq!(body, "two words");
}

#[test]
fn empty_message_has_no_text() {
    assert_eq!(decode_note_body(&gzip(&[])).unwrap(), None);
}

#[test]
fn text_without_letters_or_digits_is_not_a_candidate() {
    let mut message = Vec::new();
    push_len_field(&mut message, 1, "!!! ??? ...".as_bytes());
    assert_eq!(decode_note_body(&gzip(&message)).unwrap(), None);
    let mut message = Vec::new();
    push_len_field(&mut message, 1, "ünïcödé wörds".as_bytes());
    assert_eq!(decode_note_body(&gzip(&message)).unwrap().as_deref(), Some("ünïcödé wörds"));
}

#[test]
fn invalid_utf8_chunks_are_skipped() {
    let mut message = Vec::new();
    push_len_field(&mut message, 1, &[0xff, 0xfe, b'a', b'b', b'c', b'd']);
    assert_eq!(decode_note_body(&gzip(&message)).unwrap(), None);
}
