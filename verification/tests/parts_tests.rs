use hw1::cbor::{push_head, push_text, read_head, read_text, ARRAY, MAP, TEXT, UNSIGNED};
use hw1::error::DecodeError;
use hw1::json::{
    is_digit_char, push_quoted, read_count, read_string, scan_digits, scan_number, skip_ws,
};
use hw1::object::{read_literal, read_member, read_object, read_strings, read_value, Partial};
use hw1::text::{chars_of, push_decimal, str_eq, string_of};
use hw1::wire::{
    push_bytes, push_i32, push_u32, push_u64, read_i32, read_u32, read_u64,
};

fn chars(text: &str) -> Vec<char> {
    text.chars().collect()
}

#[test]
fn strings_compare_by_their_characters() {
    assert!(str_eq("", ""));
    assert!(str_eq("schools", "schools"));
    assert!(!str_eq("schools", "school"));
    assert!(!str_eq("name", "nama"));
    assert!(str_eq("é😀", "é😀"));
    assert!(!str_eq("é", "e"));
}

#[test]
fn strings_to_characters_and_back() {
    assert_eq!(chars_of("aé😀"), vec!['a', 'é', '😀']);
    assert_eq!(chars_of(""), Vec::<char>::new());
    let all = chars("hello world");
    assert_eq!(string_of(&all, 0, 5), "hello");
    assert_eq!(string_of(&all, 6, 11), "world");
    assert_eq!(string_of(&all, 3, 3), "");
}

#[test]
fn decimal_is_appended() {
    let mut out = String::from("n=");
    push_decimal(&mut out, 0);
    push_decimal(&mut out, 907);
    push_decimal(&mut out, u32::MAX);
    assert_eq!(out, "n=09074294967295");
}

#[test]
fn integers_in_a_buffer() {
    let mut out: Vec<u8> = vec![9];
    push_u32(&mut out, 0xdead_beef);
    push_u64(&mut out, 0x0102_0304_0506_0708);
    push_i32(&mut out, -2);
    push_i32(&mut out, i32::MIN);
    push_i32(&mut out, 7);
    push_bytes(&mut out, &[1, 2]);
    assert_eq!(
        out,
        vec![
            9, 0xde, 0xad, 0xbe, 0xef, 1, 2, 3, 4, 5, 6, 7, 8, 0xff, 0xff, 0xff, 0xfe, 0x80, 0,
            0, 0, 0, 0, 0, 7, 1, 2
        ]
    );
    assert_eq!(read_u32(&out, 1), 0xdead_beef);
    assert_eq!(read_u64(&out, 5), 0x0102_0304_0506_0708);
    assert_eq!(read_i32(&out, 13), -2);
    assert_eq!(read_i32(&out, 17), i32::MIN);
    assert_eq!(read_i32(&out, 21), 7);
    for v in [0u64, 1, u32::MAX as u64, u32::MAX as u64 + 1, u64::MAX] {
        let mut bytes = Vec::new();
        push_u64(&mut bytes, v);
        assert_eq!(bytes, v.to_be_bytes());
        assert_eq!(read_u64(&bytes, 0), v);
    }
    for v in [0i32, 1, -1, i32::MAX, i32::MIN, -123456] {
        let mut bytes = Vec::new();
        push_i32(&mut bytes, v);
        assert_eq!(bytes, v.to_be_bytes());
        assert_eq!(read_i32(&bytes, 0), v);
    }
}

#[test]
fn numbers_are_scanned() {
    assert!(is_digit_char('0') && is_digit_char('9') && !is_digit_char('a') && !is_digit_char('/'));
    assert_eq!(scan_digits(&chars("123a"), 0), 3);
    assert_eq!(scan_digits(&chars("a123"), 0), 0);
    assert_eq!(scan_digits(&chars("a123"), 1), 4);
    assert_eq!(scan_number(&chars("0.07,"), 0), Some(4));
    assert_eq!(scan_number(&chars("-12.5e+3}"), 0), Some(8));
    assert_eq!(scan_number(&chars("x10"), 1), Some(3));
    assert_eq!(scan_number(&chars("012"), 0), Some(1));
    assert_eq!(scan_number(&chars("1.e5"), 0), None);
    assert_eq!(scan_number(&chars("-"), 0), None);
    assert_eq!(scan_number(&chars("1e-"), 0), None);
    assert_eq!(scan_number(&chars(""), 0), None);
    assert_eq!(skip_ws(&chars(" \t\r\n x "), 0), 5);
    assert_eq!(skip_ws(&chars("x "), 0), 0);
    assert_eq!(skip_ws(&chars("x "), 1), 2);
}

#[test]
fn counts_are_read() {
    assert_eq!(read_count(&chars("65535,"), 0), Some((65535, 5)));
    assert_eq!(read_count(&chars("0}"), 0), Some((0, 1)));
    assert_eq!(read_count(&chars("65536"), 0), None);
    assert_eq!(read_count(&chars("99999999999999999999"), 0), None);
    assert_eq!(read_count(&chars("-1"), 0), None);
    assert_eq!(read_count(&chars("1.5"), 0), None);
    assert_eq!(read_count(&chars("2e3"), 0), None);
    assert_eq!(read_count(&chars("x"), 0), None);
}

#[test]
fn strings_are_read_and_written() {
    assert_eq!(read_string(&chars("\"abc\" "), 0), Some(("abc".to_string(), 5)));
    assert_eq!(read_string(&chars("x\"\""), 1), Some((String::new(), 3)));
    assert_eq!(
        read_string(&chars(r#""\"\\\/\b\f\n\r\t\u00e9\uD83D\uDE00""#), 0),
        Some(("\"\\/\u{8}\u{c}\n\r\t\u{e9}\u{1F600}".to_string(), 36))
    );
    assert_eq!(read_string(&chars("abc"), 0), None);
    assert_eq!(read_string(&chars("\"abc"), 0), None);
    assert_eq!(read_string(&chars("\"\\"), 0), None);
    assert_eq!(read_string(&chars("\"\\u12\""), 0), None);
    assert_eq!(read_string(&chars("\"\\ud800\\u0041\""), 0), None);
    assert_eq!(read_string(&chars("\"\ttab\""), 0), None);
    let mut out = String::from(":");
    push_quoted(&mut out, "a\"b\\c\nd\re\tf\u{0}\u{1f}\u{7f}é");
    assert_eq!(out, ":\"a\\\"b\\\\c\\nd\\re\\tf\\u0000\\u001f\u{7f}é\"");
    let back = read_string(&chars(&out), 1).unwrap();
    assert_eq!(back.0, "a\"b\\c\nd\re\tf\u{0}\u{1f}\u{7f}é");
    assert_eq!(back.1, out.chars().count());
}

#[test]
fn arrays_and_members_are_read() {
    assert_eq!(read_strings(&chars("[]"), 0), Some((vec![], 2)));
    assert_eq!(read_strings(&chars("[ \"a\" , \"b\" ] "), 0).unwrap().0, vec!["a", "b"]);
    assert_eq!(read_strings(&chars("[\"a\",]"), 0), None);
    assert_eq!(read_strings(&chars("[\"a\""), 0), None);
    assert_eq!(read_strings(&chars("\"a\""), 0), None);
    let (rate, end) = read_literal(&chars("1.5e3,"), 0).unwrap();
    assert_eq!((rate.as_str(), end), ("1.5e3", 5));
    assert!(read_literal(&chars("e3"), 0).is_none());

    let text = chars("\"schools\" : [\"x\"],");
    let (partial, end) = read_member(&text, 0, Partial::new()).unwrap();
    assert_eq!(end, text.len() - 1);
    assert_eq!(partial.schools, Some(vec!["x".to_string()]));
    assert!(partial.name.is_none() && partial.rate.is_none());
    // the same field again is refused, and a field without a colon
    assert!(read_member(&text, 0, partial).is_none());
    assert!(read_member(&chars("\"name\" \"x\""), 0, Partial::new()).is_none());
    assert!(read_value(&chars("7"), 0, "mascot", Partial::new()).is_none());
    let (partial, _) = read_value(&chars("7"), 0, "graduate_enrollment", Partial::new()).unwrap();
    assert_eq!(partial.graduates, Some(7));
    assert_eq!(partial.undergraduates, None);
    assert!(partial.finish().is_none());

    let (partial, end) = read_object(&chars("{ }"), 0).unwrap();
    assert_eq!(end, 3);
    assert!(partial.finish().is_none());
    assert!(read_object(&chars("[]"), 0).is_none());
}

#[test]
fn cbor_heads_take_the_shortest_form() {
    let cases: [(u64, Vec<u8>); 9] = [
        (0, vec![0x00]),
        (23, vec![0x17]),
        (24, vec![0x18, 24]),
        (255, vec![0x18, 255]),
        (256, vec![0x19, 1, 0]),
        (65535, vec![0x19, 0xff, 0xff]),
        (65536, vec![0x1a, 0, 1, 0, 0]),
        (u32::MAX as u64, vec![0x1a, 0xff, 0xff, 0xff, 0xff]),
        (u32::MAX as u64 + 1, vec![0x1b, 0, 0, 0, 1, 0, 0, 0, 0]),
    ];
    for (n, bytes) in cases {
        let mut out = Vec::new();
        push_head(&mut out, UNSIGNED, n);
        assert_eq!(out, bytes);
        assert_eq!(read_head(&out, 0, UNSIGNED), Ok((n, bytes.len())));
        assert_eq!(read_head(&out, 0, TEXT), Err(DecodeError::Malformed));
        if bytes.len() > 1 {
            assert_eq!(read_head(&out[..bytes.len() - 1], 0, UNSIGNED), Err(DecodeError::Truncated));
        }
    }
    let mut out = Vec::new();
    push_head(&mut out, MAP, 5);
    push_head(&mut out, ARRAY, 300);
    assert_eq!(out, vec![0xa5, 0x99, 0x01, 0x2c]);
    assert_eq!(read_head(&out, 1, ARRAY), Ok((300, 4)));
    assert_eq!(read_head(&out, 4, ARRAY), Err(DecodeError::Truncated));
    // an indefinite length is not read
    assert_eq!(read_head(&[0x9f], 0, ARRAY), Err(DecodeError::Malformed));
}

#[test]
fn cbor_text_strings() {
    let mut out = vec![0xff];
    push_text(&mut out, "né");
    assert_eq!(out, vec![0xff, 0x63, b'n', 0xc3, 0xa9]);
    assert_eq!(read_text(&out, 1), Ok(("né".to_string(), 5)));
    assert_eq!(read_text(&out[..4], 1), Err(DecodeError::Truncated));
    assert_eq!(read_text(&[0x61, 0xff], 0), Err(DecodeError::InvalidText));
    assert_eq!(read_text(&[0x41, b'a'], 0), Err(DecodeError::Malformed));
    assert_eq!(read_text(&[0x60], 0), Ok((String::new(), 1)));
    let long = "x".repeat(70000);
    let mut out = Vec::new();
    push_text(&mut out, &long);
    assert_eq!(&out[..5], &[0x7a, 0, 1, 0x11, 0x70]);
    assert_eq!(read_text(&out, 0), Ok((long, 70005)));
}
