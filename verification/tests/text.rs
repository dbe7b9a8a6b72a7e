use mem_stream::text::{
    chars_of, parse_i64, push_decimal, push_signed_decimal, same_bytes, same_text, show_bytes,
    text_of, trim,
};

#[test]
fn numbers_are_written_and_read() {
    for n in [0u64, 9, 10, 12345, u64::MAX] {
        let mut s = String::new();
        push_decimal(&mut s, n);
        assert_eq!(s, n.to_string());
    }
    for n in [0i64, -1, 7, i64::MAX, i64::MIN] {
        let mut s = String::from("x");
        push_signed_decimal(&mut s, n);
        assert_eq!(s, format!("x{}", n));
        let chars = chars_of(&s);
        assert_eq!(parse_i64(&chars, 1, chars.len()), Some(n));
    }
    for s in ["", "-", "+", "1a", "9223372036854775808", "-9223372036854775809", "+5", "007", "--1"] {
        let chars = chars_of(s);
        assert_eq!(parse_i64(&chars, 0, chars.len()), s.parse::<i64>().ok());
    }
}

#[test]
fn bytes_are_shown_as_text() {
    assert_eq!(show_bytes("h\u{e9}".as_bytes()), "h\u{e9}");
    assert_eq!(show_bytes(b"a\xffb"), "a\u{fffd}b");
}

#[test]
fn texts_are_cut_and_compared() {
    let chars = chars_of("h\u{e9}llo");
    assert_eq!(text_of(&chars, 1, 3), "\u{e9}l");
    assert!(same_text("ab", "ab"));
    assert!(!same_text("ab", "abc"));
    assert!(same_bytes(b"ab", b"ab"));
    assert!(!same_bytes(b"ab", b"aB"));
}

#[test]
fn white_space_is_that_of_std() {
    for n in 0..0x11000u32 {
        if let Some(c) = char::from_u32(n) {
            let s = format!("{}x {}", c, c);
            assert_eq!(trim(&s), s.trim());
        }
    }
    assert_eq!(trim(" \t "), "");
}
