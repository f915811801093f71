use pdfparse::num::{integer, real_literal};
use pdfparse::strings::{hexadecimal_string, literal_string, name};

fn to_f64(v: &[u8]) -> f64 {
    std::str::from_utf8(v).unwrap().parse().unwrap()
}

fn real_of(input: &[u8]) -> Option<f64> {
    real_literal(input, 0).map(|(v, _)| to_f64(&v))
}

fn lit(input: &[u8]) -> Option<Vec<u8>> {
    literal_string(input, 0).map(|(v, _)| v)
}

#[test]
fn parse_real_number() {
    let r0 = real_of(b"0.12");
    assert_eq!(r0, Some(0.12));
    let r1 = real_of(b"-.12");
    assert_eq!(r1, Some(-0.12));
    let r2 = real_of(b"10.");
    assert_eq!(r2, Some(10.0));
}

#[test]
fn parse_string() {
    assert_eq!(lit(b"()"), Some(b"".to_vec()));
    assert_eq!(lit(b"(text())"), Some(b"text()".to_vec()));
    assert_eq!(
        lit(b"(text\r\n\\\\(nested\\t\\b\\f))"),
        Some(b"text\r\n\\(nested\t\x08\x0C)".to_vec())
    );
    assert_eq!(lit(b"(text\\0\\53\\053\\0053)"), Some(b"text\0++\x053".to_vec()));
    assert_eq!(lit(b"(text line\\\n())"), Some(b"text line()".to_vec()));
    assert_eq!(name(b"/ABC#5f", 0).map(|(v, _)| v), Some(b"ABC\x5F".to_vec()));
}

#[test]
fn parse_name() {
    let text = b"/#cb#ce#cc#e5";
    let parsed = name(text, 0);
    println!("{:?}", parsed);
    assert_eq!(parsed.is_some(), true);
}

#[test]
fn name_decodes_hex_escapes_anywhere() {
    let parsed = name(b"/#cb#ce#cc#e5", 0);
    assert_eq!(parsed, Some((vec![0xcb, 0xce, 0xcc, 0xe5], 13)));
    let parsed = name(b"/A#42C", 0);
    assert_eq!(parsed, Some((b"ABC".to_vec(), 6)));
}

#[test]
fn name_ends_at_bare_hash() {
    let parsed = name(b"/AB#Z", 0);
    assert_eq!(parsed, Some((b"AB".to_vec(), 3)));
}

#[test]
fn real_requires_a_decimal_point() {
    assert_eq!(real_of(b"10"), None);
    assert_eq!(real_of(b"-10"), None);
    assert_eq!(real_of(b"."), None);
    assert_eq!(real_of(b""), None);
}

#[test]
fn integer_parses_signs_and_bounds() {
    assert_eq!(integer(b"+123", 0), Some((123, 4)));
    assert_eq!(integer(b"007", 0), Some((7, 3)));
    assert_eq!(integer(b"-9223372036854775808", 0), Some((i64::MIN, 20)));
    assert_eq!(integer(b"9223372036854775807", 0), Some((i64::MAX, 19)));
    assert_eq!(integer(b"9223372036854775808", 0), None);
    assert_eq!(integer(b"-", 0), None);
}

#[test]
fn octal_escape_takes_only_octal_digits() {
    assert_eq!(lit(b"(\\79)"), Some(vec![0x07, b'9']));
    assert_eq!(lit(b"(\\777)"), Some(vec![0xff]));
    assert_eq!(lit(b"(\\8)"), None);
}

#[test]
fn line_continuation_spans_crlf() {
    assert_eq!(lit(b"(a\\\r\nb)"), Some(b"ab".to_vec()));
    assert_eq!(lit(b"(a\\\rb)"), Some(b"ab".to_vec()));
}

#[test]
fn unbalanced_string_fails() {
    assert_eq!(lit(b"(text"), None);
    assert_eq!(lit(b"(a(b)"), None);
}

#[test]
fn hexadecimal_string_decodes_pairs() {
    assert_eq!(hexadecimal_string(b"<48 65 6C6C 6F>", 0), Some((b"Hello".to_vec(), 15)));
    assert_eq!(hexadecimal_string(b"<>", 0), Some((vec![], 2)));
    assert_eq!(hexadecimal_string(b"<901FA>", 0), Some((vec![0x90, 0x1f, 0xa0], 7)));
    assert_eq!(hexadecimal_string(b"<4 >", 0), Some((vec![0x40], 4)));
    assert_eq!(hexadecimal_string(b"<12", 0), None);
    assert_eq!(hexadecimal_string(b"<<", 0), None);
}
