use fennel_ls::lexer::Span;
use fennel_ls::text::{byte_to_position, position_to_byte, span_to_range, Position};

fn pos(line: u32, character: u32) -> Position {
    Position { line, character }
}

// ── byte_to_position ─────────────────────────────────────────────────────

#[test]
fn byte_to_position_single_line_ascii() {
    let text = "hello";
    assert_eq!(byte_to_position(text, 0), pos(0, 0));
    assert_eq!(byte_to_position(text, 3), pos(0, 3));
    assert_eq!(byte_to_position(text, 5), pos(0, 5));
}

#[test]
fn byte_to_position_multiline() {
    // "hello\nworld"
    //  01234 5 6789...
    let text = "hello\nworld";
    assert_eq!(byte_to_position(text, 0),  pos(0, 0)); // h
    assert_eq!(byte_to_position(text, 5),  pos(0, 5)); // \n
    assert_eq!(byte_to_position(text, 6),  pos(1, 0)); // w
    assert_eq!(byte_to_position(text, 10), pos(1, 4)); // d
}

#[test]
fn byte_to_position_three_lines() {
    let text = "a\nb\nc";
    assert_eq!(byte_to_position(text, 0), pos(0, 0)); // a
    assert_eq!(byte_to_position(text, 2), pos(1, 0)); // b
    assert_eq!(byte_to_position(text, 4), pos(2, 0)); // c
}

#[test]
fn byte_to_position_past_end_clamped() {
    let text = "hi";
    // Byte past end is clamped to text.len()
    assert_eq!(byte_to_position(text, 999), pos(0, 2));
}

#[test]
fn byte_to_position_empty_text() {
    assert_eq!(byte_to_position("", 0), pos(0, 0));
}

#[test]
fn byte_to_position_wide_utf16_char() {
    // "a🎉b" — 🎉 is U+1F389, 4 UTF-8 bytes, 2 UTF-16 code units
    // bytes: a=0, 🎉=1..4, b=5
    let text = "a🎉b";
    assert_eq!(byte_to_position(text, 0), pos(0, 0)); // a  → char 0
    assert_eq!(byte_to_position(text, 1), pos(0, 1)); // 🎉 → char 1 (start)
    assert_eq!(byte_to_position(text, 5), pos(0, 3)); // b  → char 3 (🎉 takes 2 units)
}

#[test]
fn byte_to_position_bmp_multibyte() {
    // "é" is U+00E9, 2 UTF-8 bytes but only 1 UTF-16 unit (BMP)
    // "aéb": a=0, é=1..2, b=3
    let text = "aéb";
    assert_eq!(byte_to_position(text, 0), pos(0, 0)); // a
    assert_eq!(byte_to_position(text, 1), pos(0, 1)); // é → char 1
    assert_eq!(byte_to_position(text, 3), pos(0, 2)); // b → char 2 (é = 1 UTF-16 unit)
}

// ── position_to_byte ─────────────────────────────────────────────────────

#[test]
fn position_to_byte_single_line_ascii() {
    let text = "hello";
    assert_eq!(position_to_byte(text, pos(0, 0)), Some(0));
    assert_eq!(position_to_byte(text, pos(0, 3)), Some(3));
    assert_eq!(position_to_byte(text, pos(0, 5)), Some(5));
}

#[test]
fn position_to_byte_multiline() {
    let text = "hello\nworld";
    assert_eq!(position_to_byte(text, pos(0, 0)), Some(0));
    assert_eq!(position_to_byte(text, pos(1, 0)), Some(6));
    assert_eq!(position_to_byte(text, pos(1, 4)), Some(10));
}

#[test]
fn position_to_byte_out_of_range_line() {
    let text = "hello";
    assert_eq!(position_to_byte(text, pos(5, 0)), None);
}

#[test]
fn position_to_byte_wide_utf16_char() {
    // "a🎉b" — 🎉 takes 2 UTF-16 code units
    let text = "a🎉b";
    assert_eq!(position_to_byte(text, pos(0, 0)), Some(0)); // a
    assert_eq!(position_to_byte(text, pos(0, 1)), Some(1)); // start of 🎉
    assert_eq!(position_to_byte(text, pos(0, 3)), Some(5)); // b
}

#[test]
fn position_to_byte_bmp_multibyte() {
    let text = "aéb";
    assert_eq!(position_to_byte(text, pos(0, 0)), Some(0));
    assert_eq!(position_to_byte(text, pos(0, 1)), Some(1)); // é at byte 1
    assert_eq!(position_to_byte(text, pos(0, 2)), Some(3)); // b at byte 3
}

// ── Round-trip ────────────────────────────────────────────────────────────

#[test]
fn round_trip_byte_position_byte() {
    let text = "hello\nwörld\n🎉";
    // Every char boundary should survive a byte→position→byte round-trip.
    let mut byte = 0;
    for ch in text.chars() {
        let p = byte_to_position(text, byte);
        let back = position_to_byte(text, p).expect("round-trip must succeed");
        assert_eq!(back, byte, "round-trip failed at byte {byte} (char {ch:?})");
        byte += ch.len_utf8();
    }
    // Also check byte == text.len() (past last char)
    let p = byte_to_position(text, text.len());
    let back = position_to_byte(text, p).expect("round-trip at end must succeed");
    assert_eq!(back, text.len());
}

// ── span_to_range ────────────────────────────────────────────────────────

#[test]
fn span_to_range_basic() {
    let text = "hello world";
    let span = Span { start: 6, end: 11, line: 0, col: 6, end_line: 0, end_col: 11 };
    let range = span_to_range(text, &span);
    assert_eq!(range.start, pos(0, 6));
    assert_eq!(range.end,   pos(0, 11));
}

#[test]
fn span_to_range_multiline() {
    // "line1\nline2" — span from byte 0 to byte 11
    let text = "line1\nline2";
    let span = Span { start: 0, end: 11, line: 0, col: 0, end_line: 1, end_col: 5 };
    let range = span_to_range(text, &span);
    assert_eq!(range.start, pos(0, 0));
    assert_eq!(range.end,   pos(1, 5));
}

// ── CRLF ─────────────────────────────────────────────────────────────────

#[test]
fn byte_to_position_crlf_first_line() {
    // "hello\r\nworld" — \r is part of line 0, \n is the line separator.
    // byte_to_position splits on \n only, so \r counts as a column.
    let text = "hello\r\nworld";
    assert_eq!(byte_to_position(text, 0), pos(0, 0)); // h
    assert_eq!(byte_to_position(text, 4), pos(0, 4)); // o
    assert_eq!(byte_to_position(text, 5), pos(0, 5)); // \r (part of line 0)
    assert_eq!(byte_to_position(text, 6), pos(0, 6)); // \n (still line 0 in prefix)
    assert_eq!(byte_to_position(text, 7), pos(1, 0)); // w (first char of line 1)
}

#[test]
fn position_to_byte_crlf() {
    let text = "hello\r\nworld";
    assert_eq!(position_to_byte(text, pos(0, 0)), Some(0)); // h
    assert_eq!(position_to_byte(text, pos(0, 5)), Some(5)); // \r
    assert_eq!(position_to_byte(text, pos(1, 0)), Some(7)); // w
    assert_eq!(position_to_byte(text, pos(1, 4)), Some(11)); // d
}

#[test]
fn round_trip_crlf_file() {
    // Every char boundary in a CRLF file must survive byte→position→byte.
    let text = "fn greet\r\n  \"hello\"\r\nend\r\n";
    let mut byte = 0;
    for ch in text.chars() {
        let p = byte_to_position(text, byte);
        let back = position_to_byte(text, p).expect("CRLF round-trip must succeed");
        assert_eq!(back, byte, "CRLF round-trip failed at byte {byte} (char {ch:?})");
        byte += ch.len_utf8();
    }
}

// ── Non-ASCII in span_to_range (diagnostic positions) ────────────────────

#[test]
fn span_to_range_after_bmp_non_ascii() {
    // "aéfoo" — é is U+00E9 (2 UTF-8 bytes, 1 UTF-16 unit)
    // `foo` starts at byte 3 (a=0, é=1..2, f=3)
    // In UTF-16: col of f = 2 (a=0→1, é=1→2, f=2→col 2)
    let text = "a\u{00E9}foo";
    let span = Span { start: 3, end: 6, line: 0, col: 3, end_line: 0, end_col: 6 };
    let range = span_to_range(text, &span);
    // byte_to_position uses utf16_len, so start.character must be 2 (not 3)
    assert_eq!(range.start, pos(0, 2),
        "span_to_range start must use UTF-16 offset: got {:?}", range.start);
    assert_eq!(range.end, pos(0, 5),
        "span_to_range end must use UTF-16 offset: got {:?}", range.end);
}

#[test]
fn span_to_range_after_supplementary_plane_char() {
    // "🎉foo" — 🎉 is U+1F389 (4 UTF-8 bytes, 2 UTF-16 units)
    // `foo` starts at byte 4
    // UTF-16 col of f = 2 (🎉 takes 2 UTF-16 units)
    let text = "\u{1F389}foo";
    let span = Span { start: 4, end: 7, line: 0, col: 4, end_line: 0, end_col: 7 };
    let range = span_to_range(text, &span);
    assert_eq!(range.start, pos(0, 2),
        "span_to_range must count supplementary-plane char as 2 UTF-16 units: got {:?}", range.start);
    assert_eq!(range.end, pos(0, 5), "got {:?}", range.end);
}

#[test]
fn position_behind_the_end_of_its_line_is_out_of_bounds() {
    let text = "ab\ncd";
    assert_eq!(position_to_byte(text, pos(0, 2)), Some(2));
    assert_eq!(position_to_byte(text, pos(0, 3)), None);
    assert_eq!(position_to_byte(text, pos(0, 4)), None);
    assert_eq!(position_to_byte(text, pos(1, 2)), Some(5));
    assert_eq!(position_to_byte(text, pos(1, 3)), None);
    assert_eq!(position_to_byte("a\r\nb", pos(0, 2)), Some(2));
    assert_eq!(position_to_byte("a\r\nb", pos(0, 3)), None);
    assert_eq!(position_to_byte("", pos(0, 0)), Some(0));
    assert_eq!(position_to_byte("", pos(0, 1)), None);
}
