use vqn::notation::{
    find_double_colon, parse_group, parse_ipv4, parse_ipv6, parse_octet, parse_prefix_len,
    push_ipv4, push_ipv6, slice,
};
use vqn::text::{
    append, append_str, chars_of, digit_of, is_whitespace, join, parse_number, push_number,
    split, string_of, trim,
};

fn chars(s: &str) -> Vec<char> {
    s.chars().collect()
}

fn text(v: &[char]) -> String {
    v.iter().collect()
}

#[test]
fn strings_and_characters() {
    assert_eq!(chars_of("añ€"), vec!['a', 'ñ', '€']);
    assert_eq!(chars_of(""), Vec::<char>::new());
    assert_eq!(string_of(&vec!['a', 'ñ', '€']), "añ€");
    let mut out = chars("ab");
    append(&mut out, &chars("cd"));
    append_str(&mut out, "ef");
    assert_eq!(text(&out), "abcdef");
}

#[test]
fn split_gives_one_piece_more_than_separators() {
    let parts = |s: &str| -> Vec<String> { split(&chars(s), ',').iter().map(|p| text(p)).collect() };
    assert_eq!(parts("a,b,c"), vec!["a", "b", "c"]);
    assert_eq!(parts(""), vec![""]);
    assert_eq!(parts(","), vec!["", ""]);
    assert_eq!(parts("a,,b,"), vec!["a", "", "b", ""]);
    assert_eq!(parts("abc"), vec!["abc"]);
}

#[test]
fn join_puts_the_separator_between() {
    let parts = vec![chars("a"), chars(""), chars("bc")];
    assert_eq!(text(&join(&parts, &chars(", "))), "a, , bc");
    assert_eq!(text(&join(&vec![chars("x")], &chars(":"))), "x");
    assert_eq!(text(&join(&vec![], &chars(":"))), "");
    let s = chars("1:2::3");
    assert_eq!(join(&split(&s, ':'), &chars(":")), s);
}

#[test]
fn trim_takes_white_space_from_both_ends_only() {
    assert_eq!(text(&trim(&chars("  a b \t\n"))), "a b");
    assert_eq!(text(&trim(&chars("ab"))), "ab");
    assert_eq!(text(&trim(&chars(" \u{2003} "))), "");
    assert_eq!(text(&trim(&chars(""))), "");
    for c in ['\t', '\n', '\u{b}', '\u{c}', '\r', ' ', '\u{85}', '\u{a0}', '\u{1680}', '\u{2000}', '\u{200a}', '\u{2028}', '\u{2029}', '\u{202f}', '\u{205f}', '\u{3000}'] {
        assert!(is_whitespace(c));
    }
    for c in ['a', '0', '\u{200b}', '\u{feff}', '\u{8}', '\u{e}', '\u{1f}', '\u{180e}'] {
        assert!(!is_whitespace(c));
    }
    for n in 0..0x3100u32 {
        if let Some(c) = char::from_u32(n) {
            assert_eq!(is_whitespace(c), c.is_whitespace(), "{:x}", n);
        }
    }
}

#[test]
fn digits_and_numbers() {
    assert_eq!(digit_of('7', 10), Some(7));
    assert_eq!(digit_of('a', 10), None);
    assert_eq!(digit_of('a', 16), Some(10));
    assert_eq!(digit_of('F', 16), Some(15));
    assert_eq!(digit_of('g', 16), None);
    assert_eq!(digit_of('/', 16), None);
    assert_eq!(digit_of(':', 10), None);
    assert_eq!(parse_number(&chars("255"), 10, 255), Some(255));
    assert_eq!(parse_number(&chars("256"), 10, 255), None);
    assert_eq!(parse_number(&chars("000000000000000000012"), 10, 255), Some(12));
    assert_eq!(parse_number(&chars("99999999999999999999"), 10, 65535), None);
    assert_eq!(parse_number(&chars(""), 10, 255), None);
    assert_eq!(parse_number(&chars("1a"), 10, 255), None);
    assert_eq!(parse_number(&chars("1a"), 16, 255), Some(26));
    assert_eq!(parse_number(&chars("FFFF"), 16, 65535), Some(65535));
    assert_eq!(parse_number(&chars("10000"), 16, 65535), None);
    let mut out = chars("n=");
    push_number(&mut out, 0, 10);
    push_number(&mut out, 4294967295, 10);
    push_number(&mut out, 0xbeef, 16);
    push_number(&mut out, 10, 16);
    assert_eq!(text(&out), "n=04294967295beefa");
    for n in [0u32, 9, 10, 99, 100, 255, 65535, 1000000] {
        let mut dec = Vec::new();
        push_number(&mut dec, n, 10);
        assert_eq!(text(&dec), format!("{}", n));
        let mut hex = Vec::new();
        push_number(&mut hex, n, 16);
        assert_eq!(text(&hex), format!("{:x}", n));
    }
}

#[test]
fn octets_groups_and_prefix_lengths() {
    assert_eq!(parse_octet(&chars("0")), Some(0));
    assert_eq!(parse_octet(&chars("255")), Some(255));
    assert_eq!(parse_octet(&chars("256")), None);
    assert_eq!(parse_octet(&chars("00")), None);
    assert_eq!(parse_octet(&chars("012")), None);
    assert_eq!(parse_octet(&chars("")), None);
    assert_eq!(parse_octet(&chars("1000")), None);
    assert_eq!(parse_octet(&chars("+1")), None);
    assert_eq!(parse_group(&chars("0")), Some(0));
    assert_eq!(parse_group(&chars("0000")), Some(0));
    assert_eq!(parse_group(&chars("fFfF")), Some(0xffff));
    assert_eq!(parse_group(&chars("00000")), None);
    assert_eq!(parse_group(&chars("")), None);
    assert_eq!(parse_group(&chars("12g")), None);
    assert_eq!(parse_prefix_len(&chars("24")), Some(24));
    assert_eq!(parse_prefix_len(&chars("+24")), Some(24));
    assert_eq!(parse_prefix_len(&chars("0255")), Some(255));
    assert_eq!(parse_prefix_len(&chars("256")), None);
    assert_eq!(parse_prefix_len(&chars("")), None);
    assert_eq!(parse_prefix_len(&chars("+")), None);
    assert_eq!(parse_prefix_len(&chars("++1")), None);
    assert_eq!(parse_prefix_len(&chars("-1")), None);
}

#[test]
fn addresses() {
    assert_eq!(parse_ipv4(&chars("10.10.0.3")), Some([10, 10, 0, 3]));
    assert_eq!(parse_ipv4(&chars("10.10.0")), None);
    assert_eq!(parse_ipv4(&chars("::1")), None);
    let mut one = [0u8; 16];
    one[15] = 1;
    assert_eq!(parse_ipv6(&chars("::1")), Some(one));
    assert_eq!(parse_ipv6(&chars("0:0:0:0:0:0:0:1")), Some(one));
    assert_eq!(parse_ipv6(&chars("::0.0.0.1")), Some(one));
    assert_eq!(parse_ipv6(&chars("10.10.0.3")), None);
    assert_eq!(parse_ipv6(&chars("")), None);
    assert_eq!(parse_ipv6(&chars(":")), None);
    assert_eq!(parse_ipv6(&chars("::")), Some([0u8; 16]));
    assert_eq!(find_double_colon(&chars("1:2::3::4")), Some(3));
    assert_eq!(find_double_colon(&chars("1:2:3")), None);
    assert_eq!(find_double_colon(&chars("::")), Some(0));
    assert_eq!(find_double_colon(&chars(":")), None);
    assert_eq!(text(&slice(&chars("abcdef"), 2, 4)), "cd");
    let mut out = Vec::new();
    push_ipv4(&mut out, &[192, 168, 0, 1]);
    out.push(' ');
    push_ipv6(&mut out, &one);
    assert_eq!(text(&out), "192.168.0.1 ::1");
}
