//! Integration tests for the format module + CLI argument parsing.

use wxqr::{Decoded, FormatKind};

fn one(text: &str) -> Vec<Decoded> {
    vec![Decoded { text: text.to_string() }]
}

#[test]
fn txt_emits_one_line_per_detection() {
    let mut buf = Vec::new();
    let results = vec![Decoded {
        text: "https://x-cmd.com".to_string(),
    }];
    wxqr::emit_txt(&mut buf, "qr.png", &results);
    let s = String::from_utf8(buf).unwrap();
    assert_eq!(s, "qr.png\tQR_CODE\thttps://x-cmd.com\n");
}

#[test]
fn json_emits_valid_shape_with_empty_points_always() {
    let mut buf = Vec::new();
    let results = vec![Decoded {
        text: "https://x-cmd.com".to_string(),
    }];
    wxqr::emit_json(&mut buf, "qr.png", &results);
    let s = String::from_utf8(buf).unwrap();
    assert_eq!(
        s,
        "[{\"file\": \"qr.png\", \"results\": [{\"format\": \"QR_CODE\", \"text\": \"https://x-cmd.com\", \"points\": []}]}]\n"
    );
}

#[test]
fn tsv_escapes_tabs_and_newlines_in_text_field() {
    let mut buf = Vec::new();
    let results = vec![Decoded {
        text: "col1\tcol2\tcol3".to_string(),
    }];
    wxqr::emit_tsv(&mut buf, "qr.png", &results);
    let s = String::from_utf8(buf).unwrap();

    let mut cols = s.split('\t');
    assert_eq!(cols.next(), Some("qr.png"));
    assert_eq!(cols.next(), Some("QR_CODE"));
    let text_field = cols.next().unwrap_or("").trim_end_matches('\n');
    assert_eq!(
        text_field, "col1\\tcol2\\tcol3",
        "text field should escape internal tabs"
    );
    assert!(!text_field.contains('\t'));
}

#[test]
fn txt_writes_one_line_per_result_in_order() {
    let mut buf = Vec::new();
    let results = vec![
        Decoded { text: "first".to_string() },
        Decoded { text: "second".to_string() },
    ];
    wxqr::emit_txt(&mut buf, "a.png", &results);
    assert_eq!(
        String::from_utf8(buf).unwrap(),
        "a.png\tQR_CODE\tfirst\na.png\tQR_CODE\tsecond\n"
    );
}

#[test]
fn emitters_append_after_existing_bytes() {
    let mut buf = b"head\n".to_vec();
    wxqr::emit_txt(&mut buf, "x", &one("t"));
    assert_eq!(String::from_utf8(buf).unwrap(), "head\nx\tQR_CODE\tt\n");
}

#[test]
fn no_results_write_nothing_in_txt_and_tsv() {
    let mut buf = Vec::new();
    wxqr::emit_txt(&mut buf, "x.png", &[]);
    wxqr::emit_tsv(&mut buf, "x.png", &[]);
    assert!(buf.is_empty());
}

#[test]
fn json_with_no_results_has_empty_list() {
    let mut buf = Vec::new();
    wxqr::emit_json(&mut buf, "x.png", &[]);
    assert_eq!(
        String::from_utf8(buf).unwrap(),
        "[{\"file\": \"x.png\", \"results\": []}]\n"
    );
}

#[test]
fn json_separates_results_with_comma() {
    let mut buf = Vec::new();
    let results = vec![
        Decoded { text: "a".to_string() },
        Decoded { text: "b".to_string() },
    ];
    wxqr::emit_json(&mut buf, "f", &results);
    assert_eq!(
        String::from_utf8(buf).unwrap(),
        "[{\"file\": \"f\", \"results\": [{\"format\": \"QR_CODE\", \"text\": \"a\", \"points\": []}, {\"format\": \"QR_CODE\", \"text\": \"b\", \"points\": []}]}]\n"
    );
}

#[test]
fn json_escapes_file_name_and_text() {
    let mut buf = Vec::new();
    wxqr::emit_json(&mut buf, "a\"b.png", &one("x\\y\n"));
    assert_eq!(
        String::from_utf8(buf).unwrap(),
        "[{\"file\": \"a\\\"b.png\", \"results\": [{\"format\": \"QR_CODE\", \"text\": \"x\\\\y\\n\", \"points\": []}]}]\n"
    );
}

#[test]
fn json_escape_short_escapes() {
    assert_eq!(wxqr::json_escape("\"\\\n\r\t"), "\\\"\\\\\\n\\r\\t");
}

#[test]
fn json_escape_control_characters_in_lower_hex() {
    assert_eq!(wxqr::json_escape("\u{0}\u{1}\u{1f}"), "\\u0000\\u0001\\u001f");
    assert_eq!(wxqr::json_escape("\u{b}"), "\\u000b");
}

#[test]
fn json_escape_keeps_other_characters() {
    assert_eq!(wxqr::json_escape("héllo / 黑 \u{7f}"), "héllo / 黑 \u{7f}");
    assert_eq!(wxqr::json_escape(""), "");
}

#[test]
fn tsv_escape_replaces_tab_newline_and_carriage_return() {
    assert_eq!(wxqr::tsv_escape("a\tb\nc\rd"), "a\\tb\\nc\\rd");
    assert_eq!(wxqr::tsv_escape("back\\slash"), "back\\slash");
}

#[test]
fn tsv_record_stays_on_one_line() {
    let mut buf = Vec::new();
    wxqr::emit_tsv(&mut buf, "qr.png", &one("line1\nline2\r\n"));
    let s = String::from_utf8(buf).unwrap();
    assert_eq!(s, "qr.png\tQR_CODE\tline1\\nline2\\r\\n\n");
    assert_eq!(s.matches('\n').count(), 1);
}

#[test]
fn write_str_obj_writes_member() {
    let mut buf = Vec::new();
    wxqr::write_str_obj(&mut buf, "text", "a\"b");
    assert_eq!(String::from_utf8(buf).unwrap(), "\"text\": \"a\\\"b\"");
}

#[test]
fn emit_dispatches_on_format() {
    let results = one("t");
    let mut a = Vec::new();
    wxqr::emit(&mut a, FormatKind::Txt, "f", &results, true);
    let mut b = Vec::new();
    wxqr::emit_txt(&mut b, "f", &results);
    assert_eq!(a, b);
    let mut a = Vec::new();
    wxqr::emit(&mut a, FormatKind::Json, "f", &results, true);
    let mut b = Vec::new();
    wxqr::emit_json(&mut b, "f", &results);
    assert_eq!(a, b);
    let mut a = Vec::new();
    wxqr::emit(&mut a, FormatKind::Json, "f", &results, false);
    let mut b = Vec::new();
    wxqr::emit_json_with(&mut b, "f", &results, false);
    assert_eq!(a, b);
    let mut a = Vec::new();
    wxqr::emit(&mut a, FormatKind::Tsv, "f", &one("x\ty"), true);
    assert_eq!(String::from_utf8(a).unwrap(), "f\tQR_CODE\tx\\ty\n");
}

#[test]
fn utf8_text_is_written_as_utf8() {
    let mut buf = Vec::new();
    wxqr::emit_txt(&mut buf, "ü.png", &one("黑风雷 👨‍👩‍👧"));
    assert_eq!(
        String::from_utf8(buf).unwrap(),
        "ü.png\tQR_CODE\t黑风雷 👨‍👩‍👧\n"
    );
}

#[test]
fn decoded_from_texts_keeps_order() {
    let r = wxqr::decoded_from_texts(vec!["a".to_string(), "b".to_string()]);
    assert_eq!(r.len(), 2);
    assert_eq!(r[0].text, "a");
    assert_eq!(r[1].text, "b");
    assert!(wxqr::decoded_from_texts(Vec::new()).is_empty());
}

#[test]
fn json_without_points_matches_the_zxing_schema() {
    let mut buf = Vec::new();
    wxqr::emit_json_with(&mut buf, "qr.png", &one("https://x-cmd.com"), false);
    assert_eq!(
        String::from_utf8(buf).unwrap(),
        "[{\"file\": \"qr.png\", \"results\": [{\"format\": \"QR_CODE\", \"text\": \"https://x-cmd.com\"}]}]\n"
    );
}

#[test]
fn txt_keeps_one_line_per_detection_with_line_feeds_in_text() {
    let mut buf = Vec::new();
    wxqr::emit_txt(&mut buf, "qr.png", &one("a\nb"));
    let s = String::from_utf8(buf).unwrap();
    assert_eq!(s, "qr.png\tQR_CODE\ta\\nb\n");
    assert_eq!(s.matches('\n').count(), 1);
    assert!(s.ends_with('\n'));
}

#[test]
fn txt_keeps_tabs_and_carriage_returns() {
    let mut buf = Vec::new();
    wxqr::emit_txt(&mut buf, "qr.png", &one("a\tb\r"));
    assert_eq!(String::from_utf8(buf).unwrap(), "qr.png\tQR_CODE\ta\tb\r\n");
}

#[test]
fn file_names_are_escaped_in_txt_and_tsv() {
    let mut buf = Vec::new();
    wxqr::emit_txt(&mut buf, "a\nb.png", &one("t"));
    assert_eq!(String::from_utf8(buf).unwrap(), "a\\nb.png\tQR_CODE\tt\n");
    let mut buf = Vec::new();
    wxqr::emit_tsv(&mut buf, "a\tb.png", &one("t"));
    assert_eq!(String::from_utf8(buf).unwrap(), "a\\tb.png\tQR_CODE\tt\n");
}

#[test]
fn txt_escape_replaces_line_feeds_only() {
    assert_eq!(wxqr::txt_escape("a\nb\rc\td\\"), "a\\nb\rc\td\\");
}

#[test]
fn json_document_is_one_line() {
    let mut buf = Vec::new();
    wxqr::emit_json(&mut buf, "a\nb.png", &one("x\r\ny"));
    let s = String::from_utf8(buf).unwrap();
    assert_eq!(s.matches('\n').count(), 1);
    assert!(s.ends_with('\n'));
    assert_eq!(
        s,
        "[{\"file\": \"a\\nb.png\", \"results\": [{\"format\": \"QR_CODE\", \"text\": \"x\\r\\ny\", \"points\": []}]}]\n"
    );
}
