use pdf_filler::layout::{font_size_token_from_da, wrap_text};
use pdf_filler::object::{PdfObject, StringFormat};
use pdf_filler::text::{pdf_escape, pdf_string_to_rust, pdf_text_string};

/// How many characters of average width fit in `avail_width` at `font_size`.
fn max_chars(avail_width: f64, font_size: f64) -> usize {
    let char_width = (0.5 * font_size).max(1.0);
    ((avail_width / char_width).floor() as usize).max(1)
}

fn parse_font_size_from_da(da: &str) -> Option<f64> {
    font_size_token_from_da(da).and_then(|t| t.parse::<f64>().ok())
}

#[test]
fn pdf_string_to_rust_utf8() {
    let obj = PdfObject::Str(b"Hello World".to_vec(), StringFormat::Literal);
    assert_eq!(pdf_string_to_rust(&obj), Ok("Hello World".to_string()));
}

#[test]
fn pdf_string_to_rust_utf16be() {
    let bytes = vec![0xFE, 0xFF, 0x00, 0x48, 0x00, 0x69];
    let obj = PdfObject::Str(bytes, StringFormat::Literal);
    assert_eq!(pdf_string_to_rust(&obj), Ok("Hi".to_string()));
}

#[test]
fn pdf_string_to_rust_name_object() {
    let obj = PdfObject::Name(b"MyField".to_vec());
    assert_eq!(pdf_string_to_rust(&obj), Ok("MyField".to_string()));
}

#[test]
fn pdf_string_to_rust_non_string() {
    let obj = PdfObject::Integer(42);
    assert_eq!(pdf_string_to_rust(&obj), Err(()));
}

#[test]
fn pdf_escape_special_chars() {
    assert_eq!(pdf_escape("hello"), "hello");
    assert_eq!(pdf_escape("a(b)c"), "a\\(b\\)c");
    assert_eq!(pdf_escape("back\\slash"), "back\\\\slash");
}

#[test]
fn wrap_text_wraps_at_word_boundaries() {
    let lines = wrap_text("the quick brown fox jumps", max_chars(60.0, 10.0));
    assert!(lines.len() >= 2, "should wrap: {lines:?}");
    assert_eq!(
        wrap_text("a\nb", max_chars(200.0, 10.0)),
        vec!["a".to_string(), "b".to_string()]
    );
    assert_eq!(
        wrap_text("supercalifragilistic", max_chars(30.0, 10.0)),
        vec!["supercalifragilistic".to_string()]
    );
}

#[test]
fn parse_font_size() {
    assert_eq!(parse_font_size_from_da("/Helv 12 Tf 0 g"), Some(12.0));
}

#[test]
fn parse_font_size_none_without_tf() {
    assert_eq!(parse_font_size_from_da("0 g"), None);
}

// ─── further cases ───

#[test]
fn wrap_text_exact_lines() {
    assert_eq!(
        wrap_text("the quick brown fox jumps", 12),
        vec!["the quick".to_string(), "brown fox".to_string(), "jumps".to_string()]
    );
}

#[test]
fn wrap_text_empty_and_blank_paragraphs() {
    assert_eq!(wrap_text("", 10), vec!["".to_string()]);
    assert_eq!(
        wrap_text("a\n\nb  c", 10),
        vec!["a".to_string(), "".to_string(), "b c".to_string()]
    );
}

#[test]
fn font_size_token_skips_leading_tf() {
    assert_eq!(font_size_token_from_da("Tf /F 9 Tf"), Some("9".to_string()));
    assert_eq!(font_size_token_from_da("Tf"), None);
    assert_eq!(font_size_token_from_da("/Helv 0 Tf 0 g"), Some("0".to_string()));
}

#[test]
fn pdf_text_string_ascii_is_literal() {
    assert_eq!(
        pdf_text_string("Alice"),
        PdfObject::Str(b"Alice".to_vec(), StringFormat::Literal)
    );
}

#[test]
fn pdf_text_string_non_ascii_is_utf16_hex() {
    let o = pdf_text_string("José");
    assert_eq!(
        o,
        PdfObject::Str(
            vec![0xFE, 0xFF, 0x00, 0x4A, 0x00, 0x6F, 0x00, 0x73, 0x00, 0xE9],
            StringFormat::Hexadecimal
        )
    );
    assert_eq!(pdf_string_to_rust(&o), Ok("José".to_string()));
}

#[test]
fn pdf_text_string_roundtrip_astral() {
    let v = "a😀b";
    let o = pdf_text_string(v);
    assert_eq!(pdf_string_to_rust(&o), Ok(v.to_string()));
}

#[test]
fn pdf_string_to_rust_unpaired_surrogate_fails() {
    let obj = PdfObject::Str(vec![0xFE, 0xFF, 0xD8, 0x00], StringFormat::Hexadecimal);
    assert_eq!(pdf_string_to_rust(&obj), Err(()));
}

#[test]
fn pdf_string_to_rust_odd_utf16_byte_reads_as_nul() {
    let obj = PdfObject::Str(vec![0xFE, 0xFF, 0x00, 0x41, 0x42], StringFormat::Literal);
    assert_eq!(pdf_string_to_rust(&obj), Ok("A\u{0}".to_string()));
}

#[test]
fn pdf_string_to_rust_invalid_utf8_is_replaced() {
    let obj = PdfObject::Str(vec![0x41, 0xFF, 0x42], StringFormat::Literal);
    assert_eq!(pdf_string_to_rust(&obj), Ok("A\u{FFFD}B".to_string()));
}

#[test]
fn pdf_escape_mixed() {
    assert_eq!(pdf_escape("(\\)"), "\\(\\\\\\)");
    assert_eq!(pdf_escape(""), "");
}

#[test]
fn wrap_text_splits_on_unicode_whitespace() {
    assert_eq!(wrap_text("a\tb\u{a0}c", 100), vec!["a b c".to_string()]);
    assert_eq!(font_size_token_from_da("/F\u{a0}8\tTf"), Some("8".to_string()));
}
