use const_panic::escape::{byte_len, classify, Escape};
use const_panic::utils::{truncated_debug_str_len, truncated_str_len};
use const_panic::{
    concat_panic, format_panic_message, make_panic_string, FmtArg, IntVal, IsLastField,
    NotEnoughSpace, PanicVal, ShortString, WasTruncated, MAX_PANIC_MSG_LEN,
};

fn render(vals: &[PanicVal], capacity: usize) -> Vec<u8> {
    format_panic_message(&[vals], capacity, capacity).unwrap()
}

fn render_str(vals: &[PanicVal], capacity: usize) -> String {
    String::from_utf8(render(vals, capacity)).unwrap()
}

#[test]
fn concat_panic_args_test() {
    let string = "\nfoo\"\r";
    let string_debug = r#""\nfoo\"\r""#;

    assert_eq!(render_str(&[PanicVal::write_str("\nfoo\"\r")], 999), string);
    assert_eq!(
        render_str(&[PanicVal::from_str(string, FmtArg::debug())], 999),
        string_debug
    );
    assert_eq!(
        render_str(&[PanicVal::from_str("\nfoo\"\r", FmtArg::display())], 999),
        string
    );
    assert_eq!(
        render_str(&[PanicVal::from_str(string, FmtArg::display())], 999),
        string
    );
    assert_eq!(
        render_str(&[PanicVal::from_str(string, FmtArg::alt_debug())], 999),
        string_debug
    );
    assert_eq!(
        render_str(&[PanicVal::from_str(string, FmtArg::alt_display())], 999),
        string
    );
}

#[test]
fn flatten_panicvals_args_test() {
    let string = "\nfoo\"\r";
    let string_debug = r#""\nfoo\"\r""#;

    let vals = [PanicVal::from_str(string, FmtArg::debug())];
    let out = String::from_utf8(make_panic_string(&[&vals], 256).unwrap()).unwrap();
    assert_eq!(out, string_debug);

    let vals = [PanicVal::from_str(string, FmtArg::display())];
    let out = String::from_utf8(make_panic_string(&[&vals], 256).unwrap()).unwrap();
    assert_eq!(out, string);

    let vals = PanicVal::from_str(string, FmtArg::debug()).to_panicvals(FmtArg::debug());
    let out = String::from_utf8(make_panic_string(&[&vals], 256).unwrap()).unwrap();
    assert_eq!(out, string_debug);

    let val = PanicVal::write_str(string).to_panicval(FmtArg::debug());
    let out = String::from_utf8(make_panic_string(&[&[val]], 256).unwrap()).unwrap();
    assert_eq!(out, string);
}

#[test]
fn example_message_at_ample_capacity() {
    let vals = [
        PanicVal::write_str("the error was "),
        PanicVal::from_u128(100, FmtArg::display()),
        PanicVal::write_str(" and "),
        PanicVal::from_str("\nHello\tworld", FmtArg::debug()),
    ];
    let out = concat_panic(&[&vals]);
    assert_eq!(
        String::from_utf8(out).unwrap(),
        "the error was 100 and \"\\nHello\\tworld\""
    );
}

#[test]
fn groups_are_written_in_order() {
    let first = [PanicVal::write_str("ab"), PanicVal::write_str("cd")];
    let second = [PanicVal::from_i128(-7, FmtArg::display())];
    let out = format_panic_message(&[&first, &second], 100, 100).unwrap();
    assert_eq!(out, b"abcd-7".to_vec());
}

#[test]
fn display_text_with_padding() {
    let f = FmtArg::display().with_indentation(3);
    let v = PanicVal::write_str("hello").with_leftpad(f).with_rightpad(f.with_indentation(2));
    assert_eq!(v.leftpad(), 3);
    assert_eq!(v.rightpad(), 2);
    assert_eq!(render_str(&[v], 100), "   hello  ");
    let v = PanicVal::write_str("x").set_leftpad(f).set_rightpad(f);
    assert_eq!(render_str(&[v], 100), "   x   ");
}

#[test]
fn quoted_plain_text() {
    let v = PanicVal::from_str("plain text", FmtArg::debug());
    assert_eq!(render_str(&[v], 100), "\"plain text\"");
}

#[test]
fn shorthand_escapes() {
    let cases: [(&str, &str); 6] = [
        ("\n", "\"\\n\""),
        ("\t", "\"\\t\""),
        ("\r", "\"\\r\""),
        ("\\", "\"\\\\\""),
        ("\"", "\"\\\"\""),
        ("\0", "\"\\0\""),
    ];
    for (input, expected) in cases {
        let v = PanicVal::from_str(input, FmtArg::debug());
        assert_eq!(render_str(&[v], 100), expected);
    }
}

#[test]
fn hex_escapes() {
    let v = PanicVal::from_str("\u{1}", FmtArg::debug());
    assert_eq!(render_str(&[v], 100), "\"\\x01\"");
    let v = PanicVal::from_str("\u{7f}", FmtArg::debug());
    assert_eq!(render_str(&[v], 100), "\"\\x7F\"");
    let v = PanicVal::from_str("é", FmtArg::debug());
    assert_eq!(render_str(&[v], 100), "\"\\xC3\\xA9\"");
    assert_eq!(classify(0x1b), Escape::Hex(b'1', b'B'));
    assert_eq!(classify(b'a'), Escape::Unescaped(b'a'));
    assert_eq!(classify(b'\n'), Escape::Shorthand(b'n'));
    assert_eq!(byte_len(b'a'), 1);
    assert_eq!(byte_len(b'"'), 2);
    assert_eq!(byte_len(0x80), 4);
}

#[test]
fn display_keeps_raw_bytes() {
    let v = PanicVal::from_str("\nfoo\"\r", FmtArg::display());
    assert_eq!(render(&[v], 100), vec![b'\n', b'f', b'o', b'o', b'"', b'\r']);
}

#[test]
fn zero_budget_truncates() {
    assert_eq!(truncated_str_len(b"abc", 0), WasTruncated::Yes(0));
    assert_eq!(truncated_debug_str_len(b"abc", 0), WasTruncated::Yes(0));
    assert_eq!(truncated_str_len(b"", 0), WasTruncated::No);
    assert_eq!(truncated_debug_str_len(b"", 0), WasTruncated::No);
    assert_eq!(truncated_debug_str_len(b"", 1), WasTruncated::Yes(0));
    assert_eq!(truncated_debug_str_len(b"", 2), WasTruncated::No);
    let v = PanicVal::write_str("abc");
    assert_eq!(format_panic_message(&[&[v]], 0, 10), Err(NotEnoughSpace));
    assert_eq!(format_panic_message(&[&[v]], 0, 0), Ok(vec![]));
}

#[test]
fn display_truncation_lengths() {
    assert_eq!(truncated_str_len(b"hello", 5), WasTruncated::No);
    assert_eq!(truncated_str_len(b"hello", 3), WasTruncated::Yes(3));
    // "aé": the cut at 2 would split the two-byte character.
    assert_eq!(truncated_str_len("aé".as_bytes(), 2), WasTruncated::Yes(1));
}

#[test]
fn quoted_truncation_lengths() {
    // Both quotes and four bytes: 6.
    assert_eq!(truncated_debug_str_len(b"abcd", 6), WasTruncated::No);
    // The cut keeps room for the closing quote.
    assert_eq!(truncated_debug_str_len(b"abcd", 5), WasTruncated::Yes(3));
    assert_eq!(truncated_debug_str_len(b"abcd", 3), WasTruncated::Yes(1));
    // An escape of two bytes does not fit in one.
    assert_eq!(truncated_debug_str_len(b"a\nb", 3), WasTruncated::Yes(1));
    assert_eq!(truncated_debug_str_len(b"\x01\x01", 8), WasTruncated::Yes(1));
}

#[test]
fn truncated_quote_is_left_open() {
    let v = PanicVal::from_str("a\nb", FmtArg::debug());
    assert_eq!(render_str(&[v], 4), "\"a");
    assert_eq!(render_str(&[v], 3), "\"a");
    let v = PanicVal::from_str("abcd", FmtArg::debug());
    assert_eq!(render_str(&[v], 5), "\"abc");
    assert_eq!(render_str(&[v], 6), "\"abcd\"");
    assert_eq!(format_panic_message(&[&[v]], 4, 5), Err(NotEnoughSpace));
}

#[test]
fn hard_cap_truncates_long_messages() {
    let long = "x".repeat(MAX_PANIC_MSG_LEN + 100);
    let vals = [PanicVal::write_str(&long), PanicVal::write_str("never")];
    let out = concat_panic(&[&vals]);
    assert_eq!(out.len(), MAX_PANIC_MSG_LEN);
    assert!(out.iter().all(|b| *b == b'x'));
}

#[test]
fn escalation_reaches_second_capacity() {
    let long = "y".repeat(2000);
    let vals = [PanicVal::write_str(&long), PanicVal::write_str("!")];
    let out = concat_panic(&[&vals]);
    assert_eq!(out.len(), 2001);
    assert_eq!(out[2000], b'!');
}

#[test]
fn capacity_prefix_for_display_text() {
    let vals = [PanicVal::write_str("hello "), PanicVal::write_str("world")];
    let small = render(&vals, 8);
    let large = render(&vals, 100);
    assert_eq!(small, b"hello wo".to_vec());
    assert!(large.starts_with(&small));
}

#[test]
fn integers() {
    let v = PanicVal::from_u128(u128::MAX, FmtArg::display());
    assert_eq!(render_str(&[v], 100), "340282366920938463463374607431768211455");
    let v = PanicVal::from_i128(i128::MIN, FmtArg::debug());
    assert_eq!(render_str(&[v], 100), "-170141183460469231731687303715884105728");
    let v = PanicVal::from_i128(0, FmtArg::display());
    assert_eq!(render_str(&[v], 100), "0");
    let i = IntVal::from_i128(-45, FmtArg::display());
    assert_eq!(i.as_bytes(), b"-45");
    let i = IntVal::from_u128(9, FmtArg::display());
    assert_eq!(i.as_bytes(), b"9");
    // Integers are truncated like any other verbatim text.
    let v = PanicVal::from_u128(12345, FmtArg::display());
    assert_eq!(render_str(&[v], 3), "123");
}

#[test]
fn element_separators() {
    let f = FmtArg::display();
    let v = PanicVal::from_element_separator(",", IsLastField::No, f);
    assert_eq!(render_str(&[v], 100), ", ");
    let v = PanicVal::from_element_separator(",", IsLastField::Yes, f);
    assert_eq!(render_str(&[v], 100), "");
    let v = PanicVal::from_element_separator("a separator longer than twelve", IsLastField::Yes, f);
    assert_eq!((v.leftpad(), v.rightpad(), v.content().len()), (0, 0, 0));
    let alt = FmtArg::alt_display().with_indentation(4);
    let v = PanicVal::from_element_separator(",", IsLastField::No, alt);
    assert_eq!(v.rightpad(), 4);
    assert_eq!(render_str(&[v], 100), ",\n    ");
    let v = PanicVal::from_element_separator(",", IsLastField::Yes, alt);
    assert_eq!(render_str(&[v], 100), ",\n");
}

#[test]
fn short_strings() {
    let s = ShortString::new("abc");
    assert_eq!(s.len(), 3);
    assert_eq!(s.as_bytes(), b"abc");
    let s = ShortString::concat_byte("ab", b'!');
    assert_eq!(s.as_bytes(), b"ab!");
    assert_eq!(ShortString::empty().len(), 0);
    let v = PanicVal::write_short_str(ShortString::new("xy"));
    assert_eq!(render_str(&[v], 100), "xy");
    let v = PanicVal::empty();
    assert_eq!(render_str(&[v], 100), "");
}

#[test]
fn padding_clipped_at_capacity() {
    let f = FmtArg::display().with_indentation(5);
    let v = PanicVal::write_str("ab").with_leftpad(f);
    // Left padding that does not fit is cut, and the pass runs out of room.
    assert_eq!(render_str(&[v], 3), "   ");
    assert_eq!(format_panic_message(&[&[v]], 3, 4), Err(NotEnoughSpace));
    // Right padding is clipped to what is left.
    let v = PanicVal::write_str("ab").with_rightpad(f);
    assert_eq!(format_panic_message(&[&[v]], 4, 5), Ok(b"ab  ".to_vec()));
}

#[test]
fn truncation_never_splits_an_escape() {
    let v = PanicVal::from_str("a\n\u{1}\"b", FmtArg::debug());
    let full = render(&[v], 100);
    assert_eq!(full, b"\"a\\n\\x01\\\"b\"".to_vec());
    // The places where a cut may fall: between whole escapes.
    let whole = [0usize, 1, 2, 4, 8, 10, 11, 12];
    for capacity in 0..full.len() {
        let out = render(&[v], capacity);
        assert!(full.starts_with(&out));
        assert!(whole.contains(&out.len()), "cut at {}", out.len());
    }
}

#[test]
fn hard_cap_keeps_the_first_bytes() {
    let f = FmtArg::display().with_indentation(3);
    let vals = [PanicVal::write_str("ab").with_rightpad(f), PanicVal::write_str("cdef")];
    let full = render(&vals, 100);
    assert_eq!(full, b"ab   cdef".to_vec());
    for capacity in 0..full.len() {
        assert_eq!(render(&vals, capacity), full[..capacity].to_vec());
    }
}
