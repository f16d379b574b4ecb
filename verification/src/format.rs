//! Output formats: txt, json, tsv.
//!
//! Each emitter appends to a byte buffer the UTF-8 encoding of a text
//! document that a spec function below describes.

use vstd::prelude::*;
use vstd::utf8::encode_utf8;

use crate::chars::{
    free_of, lemma_encode_utf8_concat, lemma_split_fields_concat, lemma_split_fields_extend,
    lemma_split_fields_single, push_char, put, split_fields,
};
use crate::cli::FormatKind;
use crate::decode::{texts_of, Decoded};

verus! {

/// The lower-case hexadecimal digit of a value below 16.
pub open spec fn hex_digit(d: u32) -> char {
    if d < 10 {
        ((d + 48) as u8) as char
    } else {
        ((d + 87) as u8) as char
    }
}

/// How one character stands inside a JSON string.
pub open spec fn json_escape_char(c: char) -> Seq<char> {
    if c == '"' {
        seq!['\\', '"']
    } else if c == '\\' {
        seq!['\\', '\\']
    } else if c == '\n' {
        seq!['\\', 'n']
    } else if c == '\r' {
        seq!['\\', 'r']
    } else if c == '\t' {
        seq!['\\', 't']
    } else if (c as u32) < 0x20 {
        seq!['\\', 'u', '0', '0', hex_digit((c as u32) / 16), hex_digit((c as u32) % 16)]
    } else {
        seq![c]
    }
}

/// The body of a JSON string that holds `s`.
pub open spec fn spec_json_escape(s: Seq<char>) -> Seq<char>
    decreases s.len(),
{
    if s.len() == 0 {
        Seq::empty()
    } else {
        spec_json_escape(s.drop_last()) + json_escape_char(s.last())
    }
}

/// How one character stands in a tsv text field.
pub open spec fn tsv_escape_char(c: char) -> Seq<char> {
    if c == '\t' {
        seq!['\\', 't']
    } else if c == '\n' {
        seq!['\\', 'n']
    } else if c == '\r' {
        seq!['\\', 'r']
    } else {
        seq![c]
    }
}

/// A tsv text field holding `s`: tabs, line feeds and carriage returns
/// are written as `\t`, `\n` and `\r`.
pub open spec fn spec_tsv_escape(s: Seq<char>) -> Seq<char>
    decreases s.len(),
{
    if s.len() == 0 {
        Seq::empty()
    } else {
        spec_tsv_escape(s.drop_last()) + tsv_escape_char(s.last())
    }
}

/// The columns of a txt / tsv record: `<file>\tQR_CODE\t<field>`.
pub open spec fn record_body(file: Seq<char>, field: Seq<char>) -> Seq<char> {
    file + "\tQR_CODE\t"@ + field
}

/// One record of the txt and tsv formats: its columns and a line feed.
pub open spec fn record_line(file: Seq<char>, field: Seq<char>) -> Seq<char> {
    record_body(file, field) + "\n"@
}

/// How one character stands in a txt column.
pub open spec fn txt_escape_char(c: char) -> Seq<char> {
    if c == '\n' {
        seq!['\\', 'n']
    } else {
        seq![c]
    }
}

/// A txt column holding `s`: line feeds are written as `\n`, so that a
/// record stays on one line; everything else is kept.
pub open spec fn spec_txt_escape(s: Seq<char>) -> Seq<char>
    decreases s.len(),
{
    if s.len() == 0 {
        Seq::empty()
    } else {
        spec_txt_escape(s.drop_last()) + txt_escape_char(s.last())
    }
}

/// The txt document: one line per detection, with the file name and
/// the text escaped.
pub open spec fn txt_doc(file: Seq<char>, texts: Seq<Seq<char>>) -> Seq<char>
    decreases texts.len(),
{
    if texts.len() == 0 {
        Seq::empty()
    } else {
        txt_doc(file, texts.drop_last()) + record_line(
            spec_txt_escape(file),
            spec_txt_escape(texts.last()),
        )
    }
}

/// The tsv document: one line per detection, with the file name and the
/// text escaped.
pub open spec fn tsv_doc(file: Seq<char>, texts: Seq<Seq<char>>) -> Seq<char>
    decreases texts.len(),
{
    if texts.len() == 0 {
        Seq::empty()
    } else {
        tsv_doc(file, texts.drop_last()) + record_line(
            spec_tsv_escape(file),
            spec_tsv_escape(texts.last()),
        )
    }
}

/// A JSON member `"key": "value"` with a string value; the key is
/// written as it is, the value escaped.
pub open spec fn str_obj(key: Seq<char>, val: Seq<char>) -> Seq<char> {
    "\""@ + key + "\": \""@ + spec_json_escape(val) + "\""@
}

/// The `"points"` member of a detection, present when asked for: the
/// detector exposes no corner points, so the array is empty.
pub open spec fn points_member(with_points: bool) -> Seq<char> {
    if with_points {
        ", \"points\": []"@
    } else {
        Seq::empty()
    }
}

/// The JSON object of one detection.
pub open spec fn json_result(text: Seq<char>, with_points: bool) -> Seq<char> {
    "{"@ + str_obj("format"@, "QR_CODE"@) + ", "@ + str_obj("text"@, text) + points_member(
        with_points,
    ) + "}"@
}

/// The JSON objects of the detections, separated by `, `.
pub open spec fn json_results(texts: Seq<Seq<char>>, with_points: bool) -> Seq<char>
    decreases texts.len(),
{
    if texts.len() == 0 {
        Seq::empty()
    } else if texts.len() == 1 {
        json_result(texts[0], with_points)
    } else {
        json_results(texts.drop_last(), with_points) + ", "@ + json_result(texts.last(), with_points)
    }
}

/// The json document: an array with one object for the file, holding
/// its results.
pub open spec fn json_doc(file: Seq<char>, texts: Seq<Seq<char>>, with_points: bool) -> Seq<char> {
    "[{"@ + str_obj("file"@, file) + ", \"results\": ["@ + json_results(texts, with_points)
        + "]}]\n"@
}

/// The document that format `fmt` gives; `with_points` only concerns json.
pub open spec fn doc_of(fmt: FormatKind, file: Seq<char>, texts: Seq<Seq<char>>, with_points: bool) -> Seq<char> {
    match fmt {
        FormatKind::Txt => txt_doc(file, texts),
        FormatKind::Json => json_doc(file, texts, with_points),
        FormatKind::Tsv => tsv_doc(file, texts),
    }
}

/// Appending the encoding of `piece` after that of `acc`.
proof fn lemma_extend(base: Seq<u8>, acc: Seq<char>, piece: Seq<char>)
    ensures
        base + encode_utf8(acc) + encode_utf8(piece) == base + encode_utf8(acc + piece),
{
    lemma_encode_utf8_concat(acc, piece);
    assert(base + encode_utf8(acc) + encode_utf8(piece) =~= base + (encode_utf8(acc)
        + encode_utf8(piece)));
}

/// Appends the UTF-8 bytes of `s` to `w`, a document written so far as
/// `acc` after `base`.
fn put_after(w: &mut Vec<u8>, s: &str, Ghost(base): Ghost<Seq<u8>>, Ghost(acc): Ghost<Seq<char>>)
    requires
        old(w)@ == base + encode_utf8(acc),
    ensures
        final(w)@ == base + encode_utf8(acc + s@),
{
    put(w, s);
    proof {
        lemma_extend(base, acc, s@);
    }
}

/// The lower-case hexadecimal digit of `d`.
fn hex_digit_of(d: u32) -> (c: char)
    requires
        d < 16,
    ensures
        c == hex_digit(d),
{
    if d < 10 {
        ((d + 48) as u8) as char
    } else {
        ((d + 87) as u8) as char
    }
}

/// Escapes `s` for use inside a JSON string: `"`, `\`, line feed,
/// carriage return and tab get their short escapes, other control
/// characters below U+0020 are written `\u00XX` in lower-case hex.
pub fn json_escape(s: &str) -> (r: String)
    ensures
        r@ == spec_json_escape(s@),
{
    let mut out = String::new();
    for c in it: s.chars()
        invariant
            it.seq() == s@,
            out@ == spec_json_escape(s@.take(it.index() as int)),
    {
        let ghost i = it.index();
        proof {
            assert(s@.take(i + 1).drop_last() =~= s@.take(i as int));
        }
        let ghost before = out@;
        if c == '"' {
            push_char(&mut out, '\\');
            push_char(&mut out, '"');
        } else if c == '\\' {
            push_char(&mut out, '\\');
            push_char(&mut out, '\\');
        } else if c == '\n' {
            push_char(&mut out, '\\');
            push_char(&mut out, 'n');
        } else if c == '\r' {
            push_char(&mut out, '\\');
            push_char(&mut out, 'r');
        } else if c == '\t' {
            push_char(&mut out, '\\');
            push_char(&mut out, 't');
        } else if (c as u32) < 0x20 {
            let v = c as u32;
            push_char(&mut out, '\\');
            push_char(&mut out, 'u');
            push_char(&mut out, '0');
            push_char(&mut out, '0');
            push_char(&mut out, hex_digit_of(v / 16));
            push_char(&mut out, hex_digit_of(v % 16));
        } else {
            push_char(&mut out, c);
        }
        assert(out@ =~= before + json_escape_char(c));
    }
    assert(s@.take(s@.len() as int) =~= s@);
    out
}

/// Escapes `s` for a tsv text field: tab, line feed and carriage return
/// become `\t`, `\n` and `\r`; everything else is kept.
pub fn tsv_escape(s: &str) -> (r: String)
    ensures
        r@ == spec_tsv_escape(s@),
{
    let mut out = String::new();
    for c in it: s.chars()
        invariant
            it.seq() == s@,
            out@ == spec_tsv_escape(s@.take(it.index() as int)),
    {
        let ghost i = it.index();
        proof {
            assert(s@.take(i + 1).drop_last() =~= s@.take(i as int));
        }
        let ghost before = out@;
        if c == '\t' {
            push_char(&mut out, '\\');
            push_char(&mut out, 't');
        } else if c == '\n' {
            push_char(&mut out, '\\');
            push_char(&mut out, 'n');
        } else if c == '\r' {
            push_char(&mut out, '\\');
            push_char(&mut out, 'r');
        } else {
            push_char(&mut out, c);
        }
        assert(out@ =~= before + tsv_escape_char(c));
    }
    assert(s@.take(s@.len() as int) =~= s@);
    out
}

/// Escapes `s` for a txt column: a line feed becomes `\n`; everything
/// else is kept.
pub fn txt_escape(s: &str) -> (r: String)
    ensures
        r@ == spec_txt_escape(s@),
{
    let mut out = String::new();
    for c in it: s.chars()
        invariant
            it.seq() == s@,
            out@ == spec_txt_escape(s@.take(it.index() as int)),
    {
        let ghost i = it.index();
        proof {
            assert(s@.take(i + 1).drop_last() =~= s@.take(i as int));
        }
        let ghost before = out@;
        if c == '\n' {
            push_char(&mut out, '\\');
            push_char(&mut out, 'n');
        } else {
            push_char(&mut out, c);
        }
        assert(out@ =~= before + txt_escape_char(c));
    }
    assert(s@.take(s@.len() as int) =~= s@);
    out
}

/// Writes the JSON member `"key": "val"`, with `val` escaped.
pub fn write_str_obj(w: &mut Vec<u8>, key: &str, val: &str)
    ensures
        final(w)@ == old(w)@ + encode_utf8(str_obj(key@, val@)),
{
    let ghost base = old(w)@;
    assert(base =~= base + encode_utf8(Seq::<char>::empty()));
    put_after(w, "\"", Ghost(base), Ghost(Seq::<char>::empty()));
    let ghost a1 = Seq::<char>::empty() + "\""@;
    put_after(w, key, Ghost(base), Ghost(a1));
    let ghost a2 = a1 + key@;
    put_after(w, "\": \"", Ghost(base), Ghost(a2));
    let ghost a3 = a2 + "\": \""@;
    let e = json_escape(val);
    put_after(w, e.as_str(), Ghost(base), Ghost(a3));
    let ghost a4 = a3 + e@;
    put_after(w, "\"", Ghost(base), Ghost(a4));
    assert(a4 + "\""@ =~= str_obj(key@, val@));
}

/// Writes one txt / tsv record `<file>\tQR_CODE\t<field>\n`.
fn put_record(w: &mut Vec<u8>, file: &str, field: &str)
    ensures
        final(w)@ == old(w)@ + encode_utf8(record_line(file@, field@)),
{
    let ghost base = old(w)@;
    assert(base =~= base + encode_utf8(Seq::<char>::empty()));
    put_after(w, file, Ghost(base), Ghost(Seq::<char>::empty()));
    let ghost a1 = Seq::<char>::empty() + file@;
    put_after(w, "\tQR_CODE\t", Ghost(base), Ghost(a1));
    let ghost a2 = a1 + "\tQR_CODE\t"@;
    put_after(w, field, Ghost(base), Ghost(a2));
    let ghost a3 = a2 + field@;
    put_after(w, "\n", Ghost(base), Ghost(a3));
    assert(a3 + "\n"@ =~= record_line(file@, field@));
}

/// `txt`: one line `<file>\tQR_CODE\t<text>` per detection; line feeds
/// in the file name and the text are written as `\n`.
pub fn emit_txt(w: &mut Vec<u8>, file: &str, results: &[Decoded])
    ensures
        final(w)@ == old(w)@ + encode_utf8(txt_doc(file@, texts_of(results@))),
{
    let f = txt_escape(file);
    let ghost base = old(w)@;
    let ghost ts = texts_of(results@);
    assert(base =~= base + encode_utf8(Seq::<char>::empty()));
    let n = results.len();
    let mut i: usize = 0;
    while i < n
        invariant
            n == results@.len(),
            ts == texts_of(results@),
            i <= n,
            f@ == spec_txt_escape(file@),
            w@ == base + encode_utf8(txt_doc(file@, ts.take(i as int))),
        decreases n - i,
    {
        let ghost acc = txt_doc(file@, ts.take(i as int));
        let text = results[i].text.as_str();
        assert(text@ == ts[i as int]);
        let e = txt_escape(text);
        put_record(w, f.as_str(), e.as_str());
        proof {
            lemma_extend(base, acc, record_line(f@, e@));
            assert(ts.take(i + 1).drop_last() =~= ts.take(i as int));
        }
        i = i + 1;
    }
    assert(ts.take(n as int) =~= ts);
}

/// `tsv`: three columns `<file>\tQR_CODE\t<text>`, with the file name
/// and the text escaped so that a record stays on one line with three
/// columns.
pub fn emit_tsv(w: &mut Vec<u8>, file: &str, results: &[Decoded])
    ensures
        final(w)@ == old(w)@ + encode_utf8(tsv_doc(file@, texts_of(results@))),
{
    let f = tsv_escape(file);
    let ghost base = old(w)@;
    let ghost ts = texts_of(results@);
    assert(base =~= base + encode_utf8(Seq::<char>::empty()));
    let n = results.len();
    let mut i: usize = 0;
    while i < n
        invariant
            n == results@.len(),
            ts == texts_of(results@),
            i <= n,
            f@ == spec_tsv_escape(file@),
            w@ == base + encode_utf8(tsv_doc(file@, ts.take(i as int))),
        decreases n - i,
    {
        let ghost acc = tsv_doc(file@, ts.take(i as int));
        let text = results[i].text.as_str();
        assert(text@ == ts[i as int]);
        let e = tsv_escape(text);
        put_record(w, f.as_str(), e.as_str());
        proof {
            lemma_extend(base, acc, record_line(f@, e@));
            assert(ts.take(i + 1).drop_last() =~= ts.take(i as int));
        }
        i = i + 1;
    }
    assert(ts.take(n as int) =~= ts);
}

/// Writes the JSON object of one detection.
fn put_json_result(w: &mut Vec<u8>, text: &str, with_points: bool)
    ensures
        final(w)@ == old(w)@ + encode_utf8(json_result(text@, with_points)),
{
    let ghost base = old(w)@;
    assert(base =~= base + encode_utf8(Seq::<char>::empty()));
    put_after(w, "{", Ghost(base), Ghost(Seq::<char>::empty()));
    let ghost a1 = Seq::<char>::empty() + "{"@;
    write_str_obj(w, "format", "QR_CODE");
    proof {
        lemma_extend(base, a1, str_obj("format"@, "QR_CODE"@));
    }
    let ghost a2 = a1 + str_obj("format"@, "QR_CODE"@);
    put_after(w, ", ", Ghost(base), Ghost(a2));
    let ghost a3 = a2 + ", "@;
    write_str_obj(w, "text", text);
    proof {
        lemma_extend(base, a3, str_obj("text"@, text@));
    }
    let ghost a4 = a3 + str_obj("text"@, text@);
    if with_points {
        put_after(w, ", \"points\": []", Ghost(base), Ghost(a4));
    }
    let ghost a5 = a4 + points_member(with_points);
    assert(with_points || a5 =~= a4);
    put_after(w, "}", Ghost(base), Ghost(a5));
    assert(a5 + "}"@ =~= json_result(text@, with_points));
}

/// `json` with corner points: an array with one object for the file,
/// holding the list of its results, each with an empty `"points"` array
/// (the detector exposes no corner points; the field is there for schema
/// compatibility).
pub fn emit_json(w: &mut Vec<u8>, file: &str, results: &[Decoded])
    ensures
        final(w)@ == old(w)@ + encode_utf8(json_doc(file@, texts_of(results@), true)),
{
    emit_json_with(w, file, results, true)
}

/// `json`: an array with one object for the file, holding the list of
/// its results; each result has a `"points"` member when `with_points`.
pub fn emit_json_with(w: &mut Vec<u8>, file: &str, results: &[Decoded], with_points: bool)
    ensures
        final(w)@ == old(w)@ + encode_utf8(json_doc(file@, texts_of(results@), with_points)),
{
    let ghost base = old(w)@;
    let ghost ts = texts_of(results@);
    assert(base =~= base + encode_utf8(Seq::<char>::empty()));
    put_after(w, "[{", Ghost(base), Ghost(Seq::<char>::empty()));
    let ghost a1 = Seq::<char>::empty() + "[{"@;
    write_str_obj(w, "file", file);
    proof {
        lemma_extend(base, a1, str_obj("file"@, file@));
    }
    let ghost a2 = a1 + str_obj("file"@, file@);
    put_after(w, ", \"results\": [", Ghost(base), Ghost(a2));
    let ghost a3 = a2 + ", \"results\": ["@;
    assert(a3 =~= a3 + json_results(ts.take(0), with_points));
    let n = results.len();
    let mut i: usize = 0;
    while i < n
        invariant
            n == results@.len(),
            ts == texts_of(results@),
            i <= n,
            w@ == base + encode_utf8(a3 + json_results(ts.take(i as int), with_points)),
        decreases n - i,
    {
        let ghost acc = a3 + json_results(ts.take(i as int), with_points);
        let text = results[i].text.as_str();
        assert(text@ == ts[i as int]);
        proof {
            assert(ts.take(i + 1).drop_last() =~= ts.take(i as int));
            assert(ts.take(i + 1).last() == ts[i as int]);
        }
        if i > 0 {
            put_after(w, ", ", Ghost(base), Ghost(acc));
            put_json_result(w, text, with_points);
            proof {
                lemma_extend(base, acc + ", "@, json_result(text@, with_points));
                assert(acc + ", "@ + json_result(text@, with_points) =~= a3 + json_results(
                    ts.take(i + 1),
                    with_points,
                ));
            }
        } else {
            put_json_result(w, text, with_points);
            proof {
                lemma_extend(base, acc, json_result(text@, with_points));
                assert(ts.take(1)[0] == ts[0]);
                assert(acc + json_result(text@, with_points) =~= a3 + json_results(
                    ts.take(i + 1),
                    with_points,
                ));
            }
        }
        i = i + 1;
    }
    assert(ts.take(n as int) =~= ts);
    let ghost a4 = a3 + json_results(ts, with_points);
    put_after(w, "]}]\n", Ghost(base), Ghost(a4));
    assert(a4 + "]}]\n"@ =~= json_doc(file@, ts, with_points));
}

/// Writes the results of one file in format `fmt`; with `with_points`
/// (`--points`) json results carry their (empty) corner points.
pub fn emit(w: &mut Vec<u8>, fmt: FormatKind, file: &str, results: &[Decoded], with_points: bool)
    ensures
        final(w)@ == old(w)@ + encode_utf8(doc_of(fmt, file@, texts_of(results@), with_points)),
{
    match fmt {
        FormatKind::Txt => emit_txt(w, file, results),
        FormatKind::Json => emit_json_with(w, file, results, with_points),
        FormatKind::Tsv => emit_tsv(w, file, results),
    }
}

/// A tsv column holds no tab, line feed or carriage return.
pub proof fn lemma_tsv_escape_clean(s: Seq<char>)
    ensures
        free_of(spec_tsv_escape(s), '\t'),
        free_of(spec_tsv_escape(s), '\n'),
        free_of(spec_tsv_escape(s), '\r'),
    decreases s.len(),
{
    if s.len() > 0 {
        lemma_tsv_escape_clean(s.drop_last());
        let p = spec_tsv_escape(s.drop_last());
        let e = tsv_escape_char(s.last());
        assert forall|i: int| 0 <= i < (p + e).len() implies (p + e)[i] != '\t' && (p + e)[i]
            != '\n' && (p + e)[i] != '\r' by {
            if i >= p.len() {
                assert((p + e)[i] == e[i - p.len()]);
            }
        }
    }
}

/// A txt column holds no line feed.
pub proof fn lemma_txt_escape_clean(s: Seq<char>)
    ensures
        free_of(spec_txt_escape(s), '\n'),
    decreases s.len(),
{
    if s.len() > 0 {
        lemma_txt_escape_clean(s.drop_last());
        let p = spec_txt_escape(s.drop_last());
        let e = txt_escape_char(s.last());
        assert forall|i: int| 0 <= i < (p + e).len() implies (p + e)[i] != '\n' by {
            if i >= p.len() {
                assert((p + e)[i] == e[i - p.len()]);
            }
        }
    }
}

/// Every tsv record has three columns: the escaped file name, `QR_CODE`
/// and the escaped text.
pub proof fn lemma_tsv_record_columns(file: Seq<char>, text: Seq<char>)
    ensures
        split_fields(record_body(spec_tsv_escape(file), spec_tsv_escape(text)), '\t') == seq![
            spec_tsv_escape(file),
            "QR_CODE"@,
            spec_tsv_escape(text),
        ],
{
    reveal_strlit("\tQR_CODE\t");
    reveal_strlit("QR_CODE");
    let q = "QR_CODE"@;
    let f = spec_tsv_escape(file);
    let e = spec_tsv_escape(text);
    lemma_tsv_escape_clean(file);
    lemma_tsv_escape_clean(text);
    assert("\tQR_CODE\t"@ =~= seq!['\t'] + q + seq!['\t']);
    assert(record_body(f, e) =~= f.push('\t') + (q.push('\t') + e));
    lemma_split_fields_concat(f, q.push('\t') + e, '\t');
    lemma_split_fields_concat(q, e, '\t');
    assert(free_of(q, '\t'));
    lemma_split_fields_single(f, '\t');
    lemma_split_fields_single(q, '\t');
    lemma_split_fields_single(e, '\t');
    assert(seq![f] + (seq![q] + seq![e]) =~= seq![f, q, e]);
}

/// Adding a record whose columns hold no line feed adds one line.
proof fn lemma_lines_add_record(doc: Seq<char>, lines: Seq<Seq<char>>, body: Seq<char>)
    requires
        split_fields(doc, '\n') == lines.push(Seq::<char>::empty()),
        free_of(body, '\n'),
    ensures
        split_fields(doc + (body + "\n"@), '\n') == lines.push(body).push(Seq::<char>::empty()),
{
    reveal_strlit("\n");
    assert("\n"@ =~= seq!['\n']);
    let x = doc + body;
    assert(doc + (body + "\n"@) =~= x.push('\n'));
    assert(x.push('\n').drop_last() =~= x);
    lemma_split_fields_extend(doc, body, '\n');
    let fd = lines.push(Seq::<char>::empty());
    assert(fd.update(fd.len() - 1, fd.last() + body) =~= lines.push(body));
}

/// The columns of a record hold no line feed when the file name and the
/// field hold none.
proof fn lemma_record_body_one_line(file: Seq<char>, field: Seq<char>)
    requires
        free_of(file, '\n'),
        free_of(field, '\n'),
    ensures
        free_of(record_body(file, field), '\n'),
{
    reveal_strlit("\tQR_CODE\t");
    let b = record_body(file, field);
    let l = "\tQR_CODE\t"@;
    assert forall|i: int| 0 <= i < b.len() implies b[i] != '\n' by {
        if i < file.len() {
            assert(b[i] == file[i]);
        } else if i < file.len() + l.len() {
            assert(b[i] == l[i - file.len()]);
        } else {
            assert(b[i] == field[i - file.len() - l.len()]);
        }
    }
}

/// The lines of a tsv document, one per detection.
pub open spec fn tsv_lines(file: Seq<char>, texts: Seq<Seq<char>>) -> Seq<Seq<char>> {
    texts.map_values(|t: Seq<char>| record_body(spec_tsv_escape(file), spec_tsv_escape(t)))
}

/// The lines of a txt document, one per detection.
pub open spec fn txt_lines(file: Seq<char>, texts: Seq<Seq<char>>) -> Seq<Seq<char>> {
    texts.map_values(|t: Seq<char>| record_body(spec_txt_escape(file), spec_txt_escape(t)))
}

/// A tsv document is exactly one line per detection (then the empty
/// rest after the last line feed), whatever the file name and texts hold.
pub proof fn lemma_tsv_doc_lines(file: Seq<char>, texts: Seq<Seq<char>>)
    ensures
        split_fields(tsv_doc(file, texts), '\n') == tsv_lines(file, texts).push(Seq::<char>::empty()),
    decreases texts.len(),
{
    if texts.len() == 0 {
        assert(tsv_lines(file, texts) =~= Seq::<Seq<char>>::empty());
        assert(split_fields(Seq::<char>::empty(), '\n') =~= seq![Seq::<char>::empty()]);
        assert(Seq::<Seq<char>>::empty().push(Seq::<char>::empty()) =~= seq![Seq::<char>::empty()]);
    } else {
        let t0 = texts.drop_last();
        lemma_tsv_doc_lines(file, t0);
        let f = spec_tsv_escape(file);
        let e = spec_tsv_escape(texts.last());
        lemma_tsv_escape_clean(file);
        lemma_tsv_escape_clean(texts.last());
        lemma_record_body_one_line(f, e);
        lemma_lines_add_record(tsv_doc(file, t0), tsv_lines(file, t0), record_body(f, e));
        assert(tsv_lines(file, t0).push(record_body(f, e)) =~= tsv_lines(file, texts));
    }
}

/// A txt document is exactly one line per detection (then the empty
/// rest after the last line feed), whatever the file name and texts hold.
pub proof fn lemma_txt_doc_lines(file: Seq<char>, texts: Seq<Seq<char>>)
    ensures
        split_fields(txt_doc(file, texts), '\n') == txt_lines(file, texts).push(Seq::<char>::empty()),
    decreases texts.len(),
{
    if texts.len() == 0 {
        assert(txt_lines(file, texts) =~= Seq::<Seq<char>>::empty());
        assert(split_fields(Seq::<char>::empty(), '\n') =~= seq![Seq::<char>::empty()]);
        assert(Seq::<Seq<char>>::empty().push(Seq::<char>::empty()) =~= seq![Seq::<char>::empty()]);
    } else {
        let t0 = texts.drop_last();
        lemma_txt_doc_lines(file, t0);
        let f = spec_txt_escape(file);
        let e = spec_txt_escape(texts.last());
        lemma_txt_escape_clean(file);
        lemma_txt_escape_clean(texts.last());
        lemma_record_body_one_line(f, e);
        lemma_lines_add_record(txt_doc(file, t0), txt_lines(file, t0), record_body(f, e));
        assert(txt_lines(file, t0).push(record_body(f, e)) =~= txt_lines(file, texts));
    }
}

proof fn lemma_tsv_escape_concat(a: Seq<char>, b: Seq<char>)
    ensures
        spec_tsv_escape(a + b) == spec_tsv_escape(a) + spec_tsv_escape(b),
    decreases b.len(),
{
    if b.len() == 0 {
        assert(a + b =~= a);
        assert(spec_tsv_escape(a) + spec_tsv_escape(b) =~= spec_tsv_escape(a));
    } else {
        lemma_tsv_escape_concat(a, b.drop_last());
        assert((a + b).drop_last() =~= a + b.drop_last());
        assert(spec_tsv_escape(a + b) =~= spec_tsv_escape(a) + spec_tsv_escape(b));
    }
}

proof fn lemma_txt_escape_concat(a: Seq<char>, b: Seq<char>)
    ensures
        spec_txt_escape(a + b) == spec_txt_escape(a) + spec_txt_escape(b),
    decreases b.len(),
{
    if b.len() == 0 {
        assert(a + b =~= a);
        assert(spec_txt_escape(a) + spec_txt_escape(b) =~= spec_txt_escape(a));
    } else {
        lemma_txt_escape_concat(a, b.drop_last());
        assert((a + b).drop_last() =~= a + b.drop_last());
        assert(spec_txt_escape(a + b) =~= spec_txt_escape(a) + spec_txt_escape(b));
    }
}

/// The tsv escape works character by character: the field of a text is
/// the fields of its parts, one after the other; a tab, line feed or
/// carriage return becomes a backslash and `t`, `n` or `r`, and every
/// other character (non-ASCII ones too) stays as it is.
pub proof fn lemma_tsv_escape_by_char(a: Seq<char>, b: Seq<char>, c: char)
    ensures
        spec_tsv_escape(a + b) == spec_tsv_escape(a) + spec_tsv_escape(b),
        c == '\t' ==> spec_tsv_escape(seq![c]) == seq!['\\', 't'],
        c == '\n' ==> spec_tsv_escape(seq![c]) == seq!['\\', 'n'],
        c == '\r' ==> spec_tsv_escape(seq![c]) == seq!['\\', 'r'],
        c != '\t' && c != '\n' && c != '\r' ==> spec_tsv_escape(seq![c]) == seq![c],
{
    lemma_tsv_escape_concat(a, b);
    assert(seq![c].drop_last() =~= Seq::<char>::empty());
    assert(spec_tsv_escape(Seq::<char>::empty()) =~= Seq::<char>::empty());
    assert(spec_tsv_escape(seq![c]) =~= tsv_escape_char(c));
}

/// A text without tab, line feed or carriage return is its own tsv
/// field, whatever other characters it holds.
pub proof fn lemma_tsv_escape_keeps_plain_text(s: Seq<char>)
    requires
        free_of(s, '\t'),
        free_of(s, '\n'),
        free_of(s, '\r'),
    ensures
        spec_tsv_escape(s) == s,
    decreases s.len(),
{
    if s.len() > 0 {
        let s0 = s.drop_last();
        assert(free_of(s0, '\t') && free_of(s0, '\n') && free_of(s0, '\r')) by {
            assert forall|i: int| 0 <= i < s0.len() implies s0[i] == s[i] by {}
        }
        lemma_tsv_escape_keeps_plain_text(s0);
        let c = s.last();
        assert(c == s[s.len() - 1]);
        lemma_tsv_escape_by_char(s0, seq![c], c);
        assert(s0 + seq![c] =~= s);
    }
}

/// The txt escape works character by character: the column of a text is
/// the columns of its parts, one after the other; a line feed becomes a
/// backslash and `n`, and every other character stays as it is.
pub proof fn lemma_txt_escape_by_char(a: Seq<char>, b: Seq<char>, c: char)
    ensures
        spec_txt_escape(a + b) == spec_txt_escape(a) + spec_txt_escape(b),
        c == '\n' ==> spec_txt_escape(seq![c]) == seq!['\\', 'n'],
        c != '\n' ==> spec_txt_escape(seq![c]) == seq![c],
{
    lemma_txt_escape_concat(a, b);
    assert(seq![c].drop_last() =~= Seq::<char>::empty());
    assert(spec_txt_escape(Seq::<char>::empty()) =~= Seq::<char>::empty());
    assert(spec_txt_escape(seq![c]) =~= txt_escape_char(c));
}

/// A text without a line feed is written in txt as it is.
pub proof fn lemma_txt_escape_keeps_plain_text(s: Seq<char>)
    requires
        free_of(s, '\n'),
    ensures
        spec_txt_escape(s) == s,
    decreases s.len(),
{
    if s.len() > 0 {
        let s0 = s.drop_last();
        assert(free_of(s0, '\n')) by {
            assert forall|i: int| 0 <= i < s0.len() implies s0[i] == s[i] by {}
        }
        lemma_txt_escape_keeps_plain_text(s0);
        let c = s.last();
        assert(c == s[s.len() - 1]);
        lemma_txt_escape_by_char(s0, seq![c], c);
        assert(s0 + seq![c] =~= s);
    }
}

/// When the file name and the texts hold no line feed, each txt line is
/// the raw record `<file>\tQR_CODE\t<text>`.
pub proof fn lemma_txt_lines_raw(file: Seq<char>, texts: Seq<Seq<char>>)
    requires
        free_of(file, '\n'),
        forall|i: int| 0 <= i < texts.len() ==> free_of(#[trigger] texts[i], '\n'),
    ensures
        txt_lines(file, texts) == texts.map_values(|t: Seq<char>| file + "\tQR_CODE\t"@ + t),
{
    lemma_txt_escape_keeps_plain_text(file);
    assert forall|i: int| 0 <= i < texts.len() implies spec_txt_escape(texts[i]) == texts[i] by {
        lemma_txt_escape_keeps_plain_text(texts[i]);
    }
    assert(txt_lines(file, texts) =~= texts.map_values(|t: Seq<char>| file + "\tQR_CODE\t"@ + t));
}

/// When the file name and the texts hold no tab, line feed or carriage
/// return, each tsv line is the raw record `<file>\tQR_CODE\t<text>`.
pub proof fn lemma_tsv_lines_raw(file: Seq<char>, texts: Seq<Seq<char>>)
    requires
        free_of(file, '\t') && free_of(file, '\n') && free_of(file, '\r'),
        forall|i: int|
            0 <= i < texts.len() ==> free_of(#[trigger] texts[i], '\t') && free_of(texts[i], '\n')
                && free_of(texts[i], '\r'),
    ensures
        tsv_lines(file, texts) == texts.map_values(|t: Seq<char>| file + "\tQR_CODE\t"@ + t),
{
    lemma_tsv_escape_keeps_plain_text(file);
    assert forall|i: int| 0 <= i < texts.len() implies spec_tsv_escape(texts[i]) == texts[i] by {
        lemma_tsv_escape_keeps_plain_text(texts[i]);
    }
    assert(tsv_lines(file, texts) =~= texts.map_values(|t: Seq<char>| file + "\tQR_CODE\t"@ + t));
}

} // verus!
