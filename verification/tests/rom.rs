//! Number tables in source text.

use fdk_aac::rom::pieces::{split, trim};
use fdk_aac::rom::text::{find, table_body};
use fdk_aac::rom::{parse_fixed_array, parse_macro_arguments, parse_sbr_huffman_table};

#[test]
fn words_of_eight_digits_are_read() {
    let source = b"const FIXP_PFT a[] = {\n QTC(0x7fffffff), QTC(0xffffffff),\n 0x12, (0x8000000A) };";
    assert_eq!(parse_fixed_array(source, b"a[]"), Some(vec![i32::MAX, -1, i32::MIN + 10]));
    assert_eq!(parse_fixed_array(source, b"b[]"), None);
    assert_eq!(parse_fixed_array(b"a[] = { 0x00000001", b"a[]"), None);
    assert_eq!(parse_fixed_array(b"a[] = { 0x000000012 };", b"a[]"), Some(vec![]));
}

#[test]
fn arguments_end_at_the_bracket() {
    let source = b"const FIXP_QTW c[] = { Q(0.5), Q(-1.25e-3), R(2) };";
    assert_eq!(
        parse_macro_arguments(source, b"c[]", b"Q("),
        Some(vec![&b"0.5"[..], &b"-1.25e-3"[..]])
    );
    assert_eq!(parse_macro_arguments(source, b"c[]", b"S("), Some(vec![]));
    assert_eq!(parse_macro_arguments(source, b"d[]", b"Q("), None);
}

#[test]
fn pairs_are_read() {
    let source = b"const SCHAR book[2][2] = {{ 1, -64 }, { -63 ,+2},{7},\n};";
    assert_eq!(
        parse_sbr_huffman_table(source, b"book"),
        Some(vec![[1, -64], [-63, 2]])
    );
    assert_eq!(parse_sbr_huffman_table(source, b"missing_table"), None);
    assert_eq!(parse_sbr_huffman_table(b"const SCHAR x = {{1, 200}};", b"x"), None);
    assert_eq!(parse_sbr_huffman_table(b"const SCHAR x = {{1, }};", b"x"), None);
    assert_eq!(
        parse_sbr_huffman_table(b"const SCHAR x = {{-128,127}};", b"x"),
        Some(vec![[-128, 127]])
    );
    let spaced = "const SCHAR x = {{\u{a0}1\u{2009},\u{3000}2 }};";
    assert_eq!(parse_sbr_huffman_table(spaced.as_bytes(), b"x"), Some(vec![[1, 2]]));
}

#[test]
fn text_is_searched_split_and_trimmed() {
    assert_eq!(find(b"abcabc", b"ca", 0), Some(2));
    assert_eq!(find(b"abcabc", b"abc", 1), Some(3));
    assert_eq!(find(b"abcabc", b"abd", 0), None);
    assert_eq!(find(b"ab", b"", 2), Some(2));
    assert_eq!(split(b"a,,b", b","), [&b"a"[..], b"", b"b"]);
    assert_eq!(split(b"", b","), [b""]);
    assert_eq!(trim(b" \t x y\r\n"), b"x y");
    assert_eq!(trim(b"  "), b"");
    assert_eq!(trim("\u{a0}\u{2003} x\u{a0}y \u{3000}\u{85}".as_bytes()), "x\u{a0}y".as_bytes());
    assert_eq!(trim("\u{1680}\u{205f}\u{2029}".as_bytes()), b"");
    assert_eq!(trim("\u{200b}x\u{2030}".as_bytes()), "\u{200b}x\u{2030}".as_bytes());
    assert_eq!(table_body(b"t = { 1 };", b"t"), Some(&b" 1 "[..]));
}
