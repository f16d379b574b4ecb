//! Reading JSON text: the string escapes and the json document that
//! `emit_json_with` writes read back to the file name and the texts.

use vstd::prelude::*;

use crate::chars::free_of;

use crate::format::{
    hex_digit, json_doc, json_escape_char, json_result, json_results, points_member,
    spec_json_escape, str_obj,
};

verus! {

/// The value of a hexadecimal digit, in either case.
pub open spec fn hex_value(c: char) -> Option<u32> {
    if '0' <= c && c <= '9' {
        Some((c as u32 - 48) as u32)
    } else if 'a' <= c && c <= 'f' {
        Some((c as u32 - 87) as u32)
    } else if 'A' <= c && c <= 'F' {
        Some((c as u32 - 55) as u32)
    } else {
        None
    }
}

/// The character of a JSON two-character escape `\e`.
pub open spec fn json_short_escape(e: char) -> Option<char> {
    if e == '"' {
        Some('"')
    } else if e == '\\' {
        Some('\\')
    } else if e == '/' {
        Some('/')
    } else if e == 'b' {
        Some('\u{8}')
    } else if e == 'f' {
        Some('\u{c}')
    } else if e == 'n' {
        Some('\n')
    } else if e == 'r' {
        Some('\r')
    } else if e == 't' {
        Some('\t')
    } else {
        None
    }
}

/// The value of the four hexadecimal digits of a `\uXXXX` escape.
pub open spec fn hex4_value(a: char, b: char, c: char, d: char) -> Option<u32> {
    match (hex_value(a), hex_value(b), hex_value(c), hex_value(d)) {
        (Some(x), Some(y), Some(z), Some(w)) => Some((x * 4096 + y * 256 + z * 16 + w) as u32),
        _ => None,
    }
}

/// `c` in front of a read text, if the read succeeded.
pub open spec fn prepend(c: char, r: Option<Seq<char>>) -> Option<Seq<char>> {
    match r {
        Some(t) => Some(seq![c] + t),
        None => None,
    }
}

/// Reads the body of a JSON string (between its quotes) as RFC 8259
/// defines it: `None` when it holds a raw `"` or control character or a
/// malformed escape. A `\u` escape of a surrogate half is not read.
pub open spec fn json_unescape(s: Seq<char>) -> Option<Seq<char>>
    decreases s.len(),
{
    if s.len() == 0 {
        Some(Seq::empty())
    } else if s[0] == '\\' {
        if s.len() < 2 {
            None
        } else {
            match json_short_escape(s[1]) {
                Some(c) => prepend(c, json_unescape(s.skip(2))),
                None => if s[1] == 'u' && s.len() >= 6 {
                    match hex4_value(s[2], s[3], s[4], s[5]) {
                        Some(v) => if v < 0xD800 || 0xDFFF < v {
                            prepend(v as char, json_unescape(s.skip(6)))
                        } else {
                            None
                        },
                        None => None,
                    }
                } else {
                    None
                },
            }
        }
    } else if s[0] == '"' || (s[0] as u32) < 0x20 {
        None
    } else {
        prepend(s[0], json_unescape(s.skip(1)))
    }
}

proof fn lemma_json_escape_concat(a: Seq<char>, b: Seq<char>)
    ensures
        spec_json_escape(a + b) == spec_json_escape(a) + spec_json_escape(b),
    decreases b.len(),
{
    if b.len() == 0 {
        assert(a + b =~= a);
        assert(spec_json_escape(a) + spec_json_escape(b) =~= spec_json_escape(a));
    } else {
        lemma_json_escape_concat(a, b.drop_last());
        assert((a + b).drop_last() =~= a + b.drop_last());
        assert((a + b).last() == b.last());
        assert(spec_json_escape(a + b) =~= spec_json_escape(a) + spec_json_escape(b));
    }
}

proof fn lemma_hex_digit_value(d: u32)
    requires
        d < 16,
    ensures
        hex_value(hex_digit(d)) == Some(d),
{
}

/// Reading the escape of one character gives the character back in front
/// of what the rest reads as.
proof fn lemma_unescape_one(c: char, rest: Seq<char>)
    ensures
        json_unescape(json_escape_char(c) + rest) == prepend(c, json_unescape(rest)),
{
    let e = json_escape_char(c);
    let s = e + rest;
    if c == '"' || c == '\\' || c == '\n' || c == '\r' || c == '\t' {
        assert(s.skip(2) =~= rest);
    } else if (c as u32) < 0x20 {
        let v = c as u32;
        lemma_hex_digit_value(v / 16);
        lemma_hex_digit_value(v % 16);
        assert(s.skip(6) =~= rest);
        assert(s[0] == '\\' && s[1] == 'u');
        assert(hex_value(s[2]) == Some(0u32));
        assert(hex_value(s[3]) == Some(0u32));
        assert(hex4_value(s[2], s[3], s[4], s[5]) == Some(v));
        vstd::utf8::char_u32_cast(c, v);
    } else {
        assert(s.skip(1) =~= rest);
    }
}

/// What `json_escape` gives is a well-formed JSON string body, and
/// reading it back gives the original text.
pub proof fn lemma_json_escape_roundtrip(s: Seq<char>)
    ensures
        json_unescape(spec_json_escape(s)) == Some(s),
    decreases s.len(),
{
    if s.len() == 0 {
    } else {
        let c = s[0];
        let rest = s.drop_first();
        assert(s =~= seq![c] + rest);
        lemma_json_escape_concat(seq![c], rest);
        assert(seq![c].drop_last() =~= Seq::<char>::empty());
        assert(seq![c].last() == c);
        assert(spec_json_escape(Seq::<char>::empty()) =~= Seq::<char>::empty());
        assert(spec_json_escape(seq![c]) == spec_json_escape(seq![c].drop_last()) + json_escape_char(c));
        assert(spec_json_escape(seq![c]) =~= json_escape_char(c));
        lemma_unescape_one(c, spec_json_escape(rest));
        lemma_json_escape_roundtrip(rest);
        assert(seq![c] + rest =~= s);
    }
}

/// A JSON value made of strings, arrays and objects (the members of an
/// object in the order written).
pub enum JsonValue {
    Str(Seq<char>),
    Arr(Seq<JsonValue>),
    Obj(Seq<(Seq<char>, JsonValue)>),
}

/// JSON whitespace.
pub open spec fn is_json_ws(c: char) -> bool {
    c == ' ' || c == '\t' || c == '\n' || c == '\r'
}

/// `s` after its leading whitespace.
pub open spec fn skip_ws(s: Seq<char>) -> Seq<char>
    decreases s.len(),
{
    if s.len() > 0 && is_json_ws(s[0]) {
        skip_ws(s.skip(1))
    } else {
        s
    }
}

/// The raw body of a string, up to its closing quote (a backslash takes
/// the next character with it), and what follows the quote.
pub open spec fn scan_string(s: Seq<char>) -> Option<(Seq<char>, Seq<char>)>
    decreases s.len(),
{
    if s.len() == 0 {
        None
    } else if s[0] == '"' {
        Some((Seq::empty(), s.skip(1)))
    } else if s[0] == '\\' {
        if s.len() < 2 {
            None
        } else {
            match scan_string(s.skip(2)) {
                Some((b, r)) => Some((seq![s[0], s[1]] + b, r)),
                None => None,
            }
        }
    } else {
        match scan_string(s.skip(1)) {
            Some((b, r)) => Some((seq![s[0]] + b, r)),
            None => None,
        }
    }
}

/// Reads a string whose opening quote is already read: its text and what
/// follows its closing quote.
pub open spec fn read_string(s: Seq<char>) -> Option<(Seq<char>, Seq<char>)> {
    match scan_string(s) {
        Some((b, r)) => match json_unescape(b) {
            Some(v) => Some((v, r)),
            None => None,
        },
        None => None,
    }
}

/// Reads one value after optional whitespace: a string, an array or an
/// object (other JSON values are not read); gives it and what follows.
pub open spec fn read_value(s: Seq<char>) -> Option<(JsonValue, Seq<char>)>
    decreases s.len(), 0nat,
{
    let t = skip_ws(s);
    if t.len() == 0 || t.len() > s.len() {
        None
    } else if t[0] == '"' {
        match read_string(t.skip(1)) {
            Some((v, r)) => Some((JsonValue::Str(v), r)),
            None => None,
        }
    } else if t[0] == '[' {
        read_array(t.skip(1))
    } else if t[0] == '{' {
        read_object(t.skip(1))
    } else {
        None
    }
}

/// Reads an array whose `[` is already read.
pub open spec fn read_array(s: Seq<char>) -> Option<(JsonValue, Seq<char>)>
    decreases s.len(), 2nat,
{
    let t = skip_ws(s);
    if 0 < t.len() <= s.len() && t[0] == ']' {
        Some((JsonValue::Arr(Seq::empty()), t.skip(1)))
    } else {
        read_items(s, Seq::empty())
    }
}

/// Reads the elements of an array from the next one on, after `acc`.
pub open spec fn read_items(s: Seq<char>, acc: Seq<JsonValue>) -> Option<(JsonValue, Seq<char>)>
    decreases s.len(), 1nat,
{
    match read_value(s) {
        Some((v, r)) => if r.len() < s.len() {
            items_tail(r, acc.push(v))
        } else {
            None
        },
        None => None,
    }
}

/// Reads what follows an array element: `,` and more elements, or `]`.
pub open spec fn items_tail(r: Seq<char>, acc: Seq<JsonValue>) -> Option<(JsonValue, Seq<char>)>
    decreases r.len(), 3nat,
{
    let w = skip_ws(r);
    if w.len() == 0 || w.len() > r.len() {
        None
    } else if w[0] == ',' {
        read_items(w.skip(1), acc)
    } else if w[0] == ']' {
        Some((JsonValue::Arr(acc), w.skip(1)))
    } else {
        None
    }
}

/// Reads an object whose `{` is already read.
pub open spec fn read_object(s: Seq<char>) -> Option<(JsonValue, Seq<char>)>
    decreases s.len(), 2nat,
{
    let t = skip_ws(s);
    if 0 < t.len() <= s.len() && t[0] == '}' {
        Some((JsonValue::Obj(Seq::empty()), t.skip(1)))
    } else {
        read_members(s, Seq::empty())
    }
}

/// Reads the members of an object from the next one on, after `acc`.
pub open spec fn read_members(s: Seq<char>, acc: Seq<(Seq<char>, JsonValue)>) -> Option<
    (JsonValue, Seq<char>),
>
    decreases s.len(), 1nat,
{
    let t = skip_ws(s);
    if t.len() == 0 || t.len() > s.len() || t[0] != '"' {
        None
    } else {
        match read_string(t.skip(1)) {
            Some((k, r1)) => {
                let u = skip_ws(r1);
                if r1.len() >= s.len() || u.len() == 0 || u.len() > r1.len() || u[0] != ':' {
                    None
                } else {
                    match read_value(u.skip(1)) {
                        Some((v, r2)) => if r2.len() < s.len() {
                            members_tail(r2, acc.push((k, v)))
                        } else {
                            None
                        },
                        None => None,
                    }
                }
            },
            None => None,
        }
    }
}

/// Reads what follows an object member: `,` and more members, or `}`.
pub open spec fn members_tail(r: Seq<char>, acc: Seq<(Seq<char>, JsonValue)>) -> Option<
    (JsonValue, Seq<char>),
>
    decreases r.len(), 3nat,
{
    let w = skip_ws(r);
    if w.len() == 0 || w.len() > r.len() {
        None
    } else if w[0] == ',' {
        read_members(w.skip(1), acc)
    } else if w[0] == '}' {
        Some((JsonValue::Obj(acc), w.skip(1)))
    } else {
        None
    }
}

/// Reads a whole JSON text: one value, with only whitespace around it.
pub open spec fn read_json_text(s: Seq<char>) -> Option<JsonValue> {
    match read_value(s) {
        Some((v, r)) => if skip_ws(r).len() == 0 {
            Some(v)
        } else {
            None
        },
        None => None,
    }
}

/// A scanned string body with `p` in front.
pub open spec fn with_prefix(p: Seq<char>, o: Option<(Seq<char>, Seq<char>)>) -> Option<
    (Seq<char>, Seq<char>),
> {
    match o {
        Some((b, r)) => Some((p + b, r)),
        None => None,
    }
}

/// Whether `p` holds neither a quote nor a backslash.
pub open spec fn plain(p: Seq<char>) -> bool {
    forall|i: int| 0 <= i < p.len() ==> p[i] != '"' && p[i] != '\\'
}

proof fn lemma_skip_ws_len(s: Seq<char>)
    ensures
        skip_ws(s).len() <= s.len(),
    decreases s.len(),
{
    if s.len() > 0 && is_json_ws(s[0]) {
        lemma_skip_ws_len(s.skip(1));
    }
}

proof fn lemma_skip_ws_one(c: char, x: Seq<char>)
    requires
        is_json_ws(c),
    ensures
        skip_ws(seq![c] + x) == skip_ws(x),
{
    assert((seq![c] + x).skip(1) =~= x);
}

proof fn lemma_scan_plain(p: Seq<char>, y: Seq<char>)
    requires
        plain(p),
    ensures
        scan_string(p + y) == with_prefix(p, scan_string(y)),
    decreases p.len(),
{
    if p.len() == 0 {
        assert(p + y =~= y);
        match scan_string(y) {
            Some((b, r)) => {
                assert(p + b =~= b);
            },
            None => {},
        }
    } else {
        let q = p.skip(1);
        assert(plain(q)) by {
            assert forall|i: int| 0 <= i < q.len() implies q[i] != '"' && q[i] != '\\' by {
                assert(q[i] == p[i + 1]);
            }
        }
        lemma_scan_plain(q, y);
        assert((p + y)[0] == p[0]);
        assert((p + y).skip(1) =~= q + y);
        match scan_string(y) {
            Some((b, r)) => {
                assert(seq![p[0]] + (q + b) =~= p + b);
            },
            None => {},
        }
    }
}

proof fn lemma_scan_escape_char(c: char, y: Seq<char>)
    ensures
        scan_string(json_escape_char(c) + y) == with_prefix(json_escape_char(c), scan_string(y)),
{
    let e = json_escape_char(c);
    let s = e + y;
    if c == '"' || c == '\\' || c == '\n' || c == '\r' || c == '\t' {
        assert(s[0] == '\\');
        assert(s.skip(2) =~= y);
        match scan_string(y) {
            Some((b, r)) => {
                assert(seq![s[0], s[1]] + b =~= e + b);
            },
            None => {},
        }
    } else if (c as u32) < 0x20 {
        let d = e.skip(2);
        assert(s.skip(2) =~= d + y);
        let v = c as u32;
        assert(plain(d)) by {
            assert(d =~= seq!['0', '0', hex_digit(v / 16), hex_digit(v % 16)]);
        }
        lemma_scan_plain(d, y);
        match scan_string(y) {
            Some((b, r)) => {
                assert(seq![s[0], s[1]] + (d + b) =~= e + b);
            },
            None => {},
        }
    } else {
        assert(plain(e));
        lemma_scan_plain(e, y);
    }
}

/// A string body written by `json_escape` is scanned up to its closing
/// quote, and no further.
proof fn lemma_scan_escaped(x: Seq<char>, rest: Seq<char>)
    ensures
        scan_string(spec_json_escape(x) + seq!['"'] + rest) == Some::<(Seq<char>, Seq<char>)>(
            (spec_json_escape(x), rest),
        ),
    decreases x.len(),
{
    if x.len() == 0 {
        assert(spec_json_escape(x) =~= Seq::<char>::empty());
        let s = spec_json_escape(x) + seq!['"'] + rest;
        assert(s[0] == '"');
        assert(s.skip(1) =~= rest);
    } else {
        let c = x[0];
        let x1 = x.drop_first();
        assert(x =~= seq![c] + x1);
        lemma_json_escape_concat(seq![c], x1);
        assert(seq![c].drop_last() =~= Seq::<char>::empty());
        assert(spec_json_escape(Seq::<char>::empty()) =~= Seq::<char>::empty());
        assert(spec_json_escape(seq![c]) == spec_json_escape(seq![c].drop_last()) + json_escape_char(
            c,
        ));
        assert(spec_json_escape(seq![c]) =~= json_escape_char(c));
        let y = spec_json_escape(x1) + seq!['"'] + rest;
        lemma_scan_escape_char(c, y);
        lemma_scan_escaped(x1, rest);
        assert(spec_json_escape(x) + seq!['"'] + rest =~= json_escape_char(c) + y);
        assert(json_escape_char(c) + spec_json_escape(x1) =~= spec_json_escape(x));
    }
}

/// A string written by `json_escape` between quotes reads back as the
/// original text.
proof fn lemma_read_escaped_string(x: Seq<char>, rest: Seq<char>)
    ensures
        read_string(spec_json_escape(x) + seq!['"'] + rest) == Some::<(Seq<char>, Seq<char>)>(
            (x, rest),
        ),
{
    lemma_scan_escaped(x, rest);
    lemma_json_escape_roundtrip(x);
}

/// `x` between quotes.
pub open spec fn qstr(x: Seq<char>) -> Seq<char> {
    seq!['"'] + x + seq!['"']
}

/// An object member `"k": V`, with the key written as it is.
pub open spec fn member_text(k: Seq<char>, v: Seq<char>) -> Seq<char> {
    qstr(k) + seq![':', ' '] + v
}

proof fn lemma_skip_ws_none(s: Seq<char>)
    requires
        s.len() > 0,
        !is_json_ws(s[0]),
    ensures
        skip_ws(s) == s,
{
}

/// A space before a value does not change how it reads.
proof fn lemma_value_after_space(x: Seq<char>)
    ensures
        read_value(seq![' '] + x) == read_value(x),
{
    lemma_skip_ws_one(' ', x);
    lemma_skip_ws_len(x);
}

proof fn lemma_read_str_value(x: Seq<char>, rest: Seq<char>)
    ensures
        read_value(qstr(spec_json_escape(x)) + rest) == Some::<(JsonValue, Seq<char>)>(
            (JsonValue::Str(x), rest),
        ),
{
    let s = qstr(spec_json_escape(x)) + rest;
    assert(s[0] == '"');
    lemma_skip_ws_none(s);
    assert(s.skip(1) =~= spec_json_escape(x) + seq!['"'] + rest);
    lemma_read_escaped_string(x, rest);
}

proof fn lemma_read_empty_array(rest: Seq<char>)
    ensures
        read_value(seq!['[', ']'] + rest) == Some::<(JsonValue, Seq<char>)>(
            (JsonValue::Arr(Seq::empty()), rest),
        ),
{
    let s = seq!['[', ']'] + rest;
    assert(s[0] == '[');
    lemma_skip_ws_none(s);
    let a = s.skip(1);
    assert(a =~= seq![']'] + rest);
    assert(a[0] == ']');
    lemma_skip_ws_none(a);
    assert(a.skip(1) =~= rest);
}

proof fn lemma_read_member(
    lead: Seq<char>,
    k: Seq<char>,
    v_text: Seq<char>,
    t: Seq<char>,
    acc: Seq<(Seq<char>, JsonValue)>,
    v: JsonValue,
)
    requires
        lead == Seq::<char>::empty() || lead == seq![' '],
        spec_json_escape(k) == k,
        v_text.len() > 0,
        read_value(v_text + t) == Some::<(JsonValue, Seq<char>)>((v, t)),
    ensures
        read_members(lead + member_text(k, v_text) + t, acc) == members_tail(t, acc.push((k, v))),
{
    let m = member_text(k, v_text) + t;
    let s = lead + m;
    assert(m[0] == '"');
    lemma_skip_ws_none(m);
    if lead.len() == 1 {
        assert(s =~= seq![' '] + m);
        lemma_skip_ws_one(' ', m);
    } else {
        assert(s =~= m);
    }
    assert(skip_ws(s) == m);
    let r1 = seq![':', ' '] + v_text + t;
    assert(m.skip(1) =~= spec_json_escape(k) + seq!['"'] + r1);
    lemma_read_escaped_string(k, r1);
    assert(r1[0] == ':');
    lemma_skip_ws_none(r1);
    assert(r1.skip(1) =~= seq![' '] + (v_text + t));
    lemma_value_after_space(v_text + t);
    assert(lead + member_text(k, v_text) + t =~= s);
    assert(read_string(m.skip(1)) == Some::<(Seq<char>, Seq<char>)>((k, r1)));
    assert(skip_ws(r1) == r1);
    assert(read_value(r1.skip(1)) == Some::<(JsonValue, Seq<char>)>((v, t)));
    assert(r1.len() < s.len());
    assert(t.len() < s.len());
}

proof fn lemma_members_comma(
    k: Seq<char>,
    v_text: Seq<char>,
    t: Seq<char>,
    acc: Seq<(Seq<char>, JsonValue)>,
    v: JsonValue,
)
    requires
        spec_json_escape(k) == k,
        v_text.len() > 0,
        read_value(v_text + t) == Some::<(JsonValue, Seq<char>)>((v, t)),
    ensures
        members_tail(seq![',', ' '] + member_text(k, v_text) + t, acc) == members_tail(
            t,
            acc.push((k, v)),
        ),
{
    let r = seq![',', ' '] + member_text(k, v_text) + t;
    assert(r[0] == ',');
    lemma_skip_ws_none(r);
    assert(r.skip(1) =~= seq![' '] + member_text(k, v_text) + t);
    lemma_read_member(seq![' '], k, v_text, t, acc, v);
}

proof fn lemma_members_close(rest: Seq<char>, acc: Seq<(Seq<char>, JsonValue)>)
    ensures
        members_tail(seq!['}'] + rest, acc) == Some::<(JsonValue, Seq<char>)>(
            (JsonValue::Obj(acc), rest),
        ),
{
    let r = seq!['}'] + rest;
    assert(r[0] == '}');
    lemma_skip_ws_none(r);
    assert(r.skip(1) =~= rest);
}

proof fn lemma_read_item(v_text: Seq<char>, t: Seq<char>, acc: Seq<JsonValue>, v: JsonValue)
    requires
        v_text.len() > 0,
        read_value(v_text + t) == Some::<(JsonValue, Seq<char>)>((v, t)),
    ensures
        read_items(v_text + t, acc) == items_tail(t, acc.push(v)),
{
}

proof fn lemma_items_comma(v_text: Seq<char>, t: Seq<char>, acc: Seq<JsonValue>, v: JsonValue)
    requires
        v_text.len() > 0,
        read_value(v_text + t) == Some::<(JsonValue, Seq<char>)>((v, t)),
    ensures
        items_tail(seq![',', ' '] + v_text + t, acc) == items_tail(t, acc.push(v)),
{
    let r = seq![',', ' '] + v_text + t;
    assert(r[0] == ',');
    lemma_skip_ws_none(r);
    let x = v_text + t;
    assert(r.skip(1) =~= seq![' '] + x);
    lemma_value_after_space(x);
}

proof fn lemma_items_close(rest: Seq<char>, acc: Seq<JsonValue>)
    ensures
        items_tail(seq![']'] + rest, acc) == Some::<(JsonValue, Seq<char>)>(
            (JsonValue::Arr(acc), rest),
        ),
{
    let r = seq![']'] + rest;
    assert(r[0] == ']');
    lemma_skip_ws_none(r);
    assert(r.skip(1) =~= rest);
}

/// Text without quotes, backslashes or control characters is its own
/// JSON string body.
proof fn lemma_escape_plain(x: Seq<char>)
    requires
        forall|i: int|
            0 <= i < x.len() ==> (x[i] as u32) >= 0x20 && x[i] != '"' && x[i] != '\\',
    ensures
        spec_json_escape(x) == x,
    decreases x.len(),
{
    if x.len() > 0 {
        let x0 = x.drop_last();
        assert forall|i: int| 0 <= i < x0.len() implies (x0[i] as u32) >= 0x20 && x0[i] != '"'
            && x0[i] != '\\' by {
            assert(x0[i] == x[i]);
        }
        lemma_escape_plain(x0);
        assert(x0 + seq![x.last()] =~= x);
    }
}

/// The fixed pieces of the json document, character by character.
#[verifier::spinoff_prover]
#[verifier::rlimit(40)]
proof fn lemma_json_pieces()
    ensures
        "{"@ == seq!['{'],
        "}"@ == seq!['}'],
        ", "@ == seq![',', ' '],
        "\""@ == seq!['"'],
        "\": \""@ == seq!['"', ':', ' ', '"'],
        "[{"@ == seq!['[', '{'],
        "]}]\n"@ == seq![']', '}', ']', '\n'],
        ", \"points\": []"@ == seq![',', ' '] + member_text("points"@, seq!['[', ']']),
        ", \"results\": ["@ == seq![',', ' '] + member_text("results"@, seq!['[']),
        spec_json_escape("format"@) == "format"@,
        spec_json_escape("text"@) == "text"@,
        spec_json_escape("points"@) == "points"@,
        spec_json_escape("file"@) == "file"@,
        spec_json_escape("results"@) == "results"@,
        spec_json_escape("QR_CODE"@) == "QR_CODE"@,
{
    reveal_strlit("{");
    reveal_strlit("}");
    reveal_strlit(", ");
    reveal_strlit("\"");
    reveal_strlit("\": \"");
    reveal_strlit("[{");
    reveal_strlit("]}]\n");
    reveal_strlit(", \"points\": []");
    reveal_strlit(", \"results\": [");
    reveal_strlit("format");
    reveal_strlit("text");
    reveal_strlit("points");
    reveal_strlit("file");
    reveal_strlit("results");
    reveal_strlit("QR_CODE");
    assert("{"@ =~= seq!['{']);
    assert("}"@ =~= seq!['}']);
    assert(", "@ =~= seq![',', ' ']);
    assert("\""@ =~= seq!['"']);
    assert("\": \""@ =~= seq!['"', ':', ' ', '"']);
    assert("[{"@ =~= seq!['[', '{']);
    assert("]}]\n"@ =~= seq![']', '}', ']', '\n']);
    assert("points"@ =~= seq!['p', 'o', 'i', 'n', 't', 's']);
    assert("results"@ =~= seq!['r', 'e', 's', 'u', 'l', 't', 's']);
    assert(", \"points\": []"@ =~= seq![',', ' '] + member_text("points"@, seq!['[', ']']));
    assert(", \"results\": ["@ =~= seq![',', ' '] + member_text("results"@, seq!['[']));
    assert("format"@ =~= seq!['f', 'o', 'r', 'm', 'a', 't']);
    assert("text"@ =~= seq!['t', 'e', 'x', 't']);
    assert("file"@ =~= seq!['f', 'i', 'l', 'e']);
    assert("QR_CODE"@ =~= seq!['Q', 'R', '_', 'C', 'O', 'D', 'E']);
    lemma_escape_plain("format"@);
    lemma_escape_plain("text"@);
    lemma_escape_plain("points"@);
    lemma_escape_plain("file"@);
    lemma_escape_plain("results"@);
    lemma_escape_plain("QR_CODE"@);
}

/// A JSON string member `"k": "v"` as `json_escape` writes it.
proof fn lemma_str_obj_text(k: Seq<char>, v: Seq<char>)
    ensures
        str_obj(k, v) == member_text(k, qstr(spec_json_escape(v))),
{
    lemma_json_pieces();
    assert(str_obj(k, v) =~= member_text(k, qstr(spec_json_escape(v))));
}

/// The JSON value of one detection.
pub open spec fn result_value(text: Seq<char>, with_points: bool) -> JsonValue {
    let base = seq![
        ("format"@, JsonValue::Str("QR_CODE"@)),
        ("text"@, JsonValue::Str(text)),
    ];
    JsonValue::Obj(
        if with_points {
            base.push(("points"@, JsonValue::Arr(Seq::empty())))
        } else {
            base
        },
    )
}

/// The text of the `"points"` member of a detection, if present.
pub open spec fn points_text(with_points: bool) -> Seq<char> {
    if with_points {
        seq![',', ' '] + member_text("points"@, seq!['[', ']'])
    } else {
        Seq::<char>::empty()
    }
}

#[verifier::spinoff_prover]
#[verifier::rlimit(40)]
proof fn lemma_result_shape(text: Seq<char>, with_points: bool, rest: Seq<char>)
    ensures
        json_result(text, with_points) + rest == seq!['{'] + (member_text(
            "format"@,
            qstr(spec_json_escape("QR_CODE"@)),
        ) + (seq![',', ' '] + member_text("text"@, qstr(spec_json_escape(text))) + (points_text(
            with_points,
        ) + seq!['}'] + rest))),
{
    lemma_json_pieces();
    lemma_str_obj_text("format"@, "QR_CODE"@);
    lemma_str_obj_text("text"@, text);
    assert(points_member(with_points) == points_text(with_points));
    assert(json_result(text, with_points) + rest =~= seq!['{'] + (member_text(
        "format"@,
        qstr(spec_json_escape("QR_CODE"@)),
    ) + (seq![',', ' '] + member_text("text"@, qstr(spec_json_escape(text))) + (points_text(
        with_points,
    ) + seq!['}'] + rest))));
}

/// An object whose first member starts right after its `{`.
proof fn lemma_read_object_open(m: Seq<char>)
    requires
        m.len() > 0,
        m[0] == '"',
    ensures
        read_value(seq!['{'] + m) == read_members(m, Seq::empty()),
{
    let s = seq!['{'] + m;
    assert(s[0] == '{');
    lemma_skip_ws_none(s);
    assert(s.skip(1) =~= m);
    lemma_skip_ws_none(m);
}

#[verifier::spinoff_prover]
#[verifier::rlimit(40)]
proof fn lemma_read_result_members(text: Seq<char>, with_points: bool, rest: Seq<char>)
    ensures
        read_members(
            member_text("format"@, qstr(spec_json_escape("QR_CODE"@))) + (seq![',', ' ']
                + member_text("text"@, qstr(spec_json_escape(text))) + (points_text(with_points)
                + seq!['}'] + rest)),
            Seq::empty(),
        ) == Some::<(JsonValue, Seq<char>)>((result_value(text, with_points), rest)),
{
    lemma_json_pieces();
    let v1 = qstr(spec_json_escape("QR_CODE"@));
    let v2 = qstr(spec_json_escape(text));
    let t2 = points_text(with_points) + seq!['}'] + rest;
    let t1 = seq![',', ' '] + member_text("text"@, v2) + t2;
    let e: Seq<(Seq<char>, JsonValue)> = Seq::empty();
    lemma_read_str_value("QR_CODE"@, t1);
    lemma_read_member(Seq::empty(), "format"@, v1, t1, e, JsonValue::Str("QR_CODE"@));
    assert(Seq::<char>::empty() + member_text("format"@, v1) + t1 =~= member_text("format"@, v1)
        + t1);
    let a1 = e.push(("format"@, JsonValue::Str("QR_CODE"@)));
    lemma_read_str_value(text, t2);
    lemma_members_comma("text"@, v2, t2, a1, JsonValue::Str(text));
    let a2 = a1.push(("text"@, JsonValue::Str(text)));
    if with_points {
        let t3 = seq!['}'] + rest;
        lemma_read_empty_array(t3);
        lemma_members_comma("points"@, seq!['[', ']'], t3, a2, JsonValue::Arr(Seq::empty()));
        assert(t2 =~= seq![',', ' '] + member_text("points"@, seq!['[', ']']) + t3);
        let a3 = a2.push(("points"@, JsonValue::Arr(Seq::empty())));
        lemma_members_close(rest, a3);
        let base = seq![("format"@, JsonValue::Str("QR_CODE"@)), ("text"@, JsonValue::Str(text))];
        assert(base.push(("points"@, JsonValue::Arr(Seq::empty()))) =~= a3);
        assert(result_value(text, with_points) == JsonValue::Obj(a3));
        assert(members_tail(t1, a1) == members_tail(t2, a2));
        assert(members_tail(t2, a2) == members_tail(t3, a3));
    } else {
        assert(t2 =~= seq!['}'] + rest);
        lemma_members_close(rest, a2);
        assert(a2 =~= seq![("format"@, JsonValue::Str("QR_CODE"@)), ("text"@, JsonValue::Str(text))]);
        assert(result_value(text, with_points) == JsonValue::Obj(a2));
        assert(members_tail(t1, a1) == members_tail(t2, a2));
    }
}

proof fn lemma_read_result(text: Seq<char>, with_points: bool, rest: Seq<char>)
    ensures
        read_value(json_result(text, with_points) + rest) == Some::<(JsonValue, Seq<char>)>(
            (result_value(text, with_points), rest),
        ),
{
    lemma_result_shape(text, with_points, rest);
    let m = member_text("format"@, qstr(spec_json_escape("QR_CODE"@))) + (seq![',', ' ']
        + member_text("text"@, qstr(spec_json_escape(text))) + (points_text(with_points) + seq!['}']
        + rest));
    assert(m[0] == '"');
    lemma_read_object_open(m);
    lemma_read_result_members(text, with_points, rest);
}

/// The JSON values of the detections.
pub open spec fn result_values(texts: Seq<Seq<char>>, with_points: bool) -> Seq<JsonValue> {
    texts.map_values(|x: Seq<char>| result_value(x, with_points))
}

proof fn lemma_json_results_start(texts: Seq<Seq<char>>, with_points: bool)
    requires
        texts.len() >= 1,
    ensures
        json_results(texts, with_points).len() > 0,
        json_results(texts, with_points)[0] == '{',
    decreases texts.len(),
{
    lemma_json_pieces();
    if texts.len() == 1 {
        assert(json_result(texts[0], with_points)[0] == '{');
    } else {
        lemma_json_results_start(texts.drop_last(), with_points);
    }
}

proof fn lemma_read_results(
    texts: Seq<Seq<char>>,
    with_points: bool,
    rest: Seq<char>,
    acc: Seq<JsonValue>,
)
    requires
        texts.len() >= 1,
    ensures
        read_items(json_results(texts, with_points) + rest, acc) == items_tail(
            rest,
            acc + result_values(texts, with_points),
        ),
    decreases texts.len(),
{
    lemma_json_pieces();
    let last = texts.last();
    let lv = result_value(last, with_points);
    lemma_read_result(last, with_points, rest);
    assert(json_result(last, with_points).len() > 0);
    if texts.len() == 1 {
        assert(texts[0] == last);
        lemma_read_item(json_result(last, with_points), rest, acc, lv);
        assert(acc.push(lv) =~= acc + result_values(texts, with_points));
    } else {
        let t0 = texts.drop_last();
        let r1 = seq![',', ' '] + json_result(last, with_points) + rest;
        lemma_read_results(t0, with_points, r1, acc);
        assert(json_results(texts, with_points) + rest =~= json_results(t0, with_points) + r1);
        let a0 = acc + result_values(t0, with_points);
        lemma_items_comma(json_result(last, with_points), rest, a0, lv);
        assert(a0.push(lv) =~= acc + result_values(texts, with_points));
    }
}

proof fn lemma_read_result_array(texts: Seq<Seq<char>>, with_points: bool, rest: Seq<char>)
    ensures
        read_value(seq!['['] + json_results(texts, with_points) + seq![']'] + rest) == Some::<
            (JsonValue, Seq<char>),
        >((JsonValue::Arr(result_values(texts, with_points)), rest)),
{
    let res = json_results(texts, with_points);
    let s = seq!['['] + res + seq![']'] + rest;
    assert(s[0] == '[');
    lemma_skip_ws_none(s);
    let a = s.skip(1);
    assert(a =~= res + (seq![']'] + rest));
    if texts.len() == 0 {
        assert(res =~= Seq::<char>::empty());
        assert(a[0] == ']');
        lemma_skip_ws_none(a);
        assert(a.skip(1) =~= rest);
        assert(result_values(texts, with_points) =~= Seq::<JsonValue>::empty());
    } else {
        lemma_json_results_start(texts, with_points);
        assert(a[0] == '{');
        lemma_skip_ws_none(a);
        lemma_read_results(texts, with_points, seq![']'] + rest, Seq::empty());
        lemma_items_close(rest, Seq::<JsonValue>::empty() + result_values(texts, with_points));
        assert(Seq::<JsonValue>::empty() + result_values(texts, with_points) =~= result_values(
            texts,
            with_points,
        ));
    }
}

/// The JSON value of a json document: one object for the file, with
/// its name and the list of its results.
pub open spec fn doc_value(file: Seq<char>, texts: Seq<Seq<char>>, with_points: bool) -> JsonValue {
    JsonValue::Arr(
        seq![
            JsonValue::Obj(
                seq![
                    ("file"@, JsonValue::Str(file)),
                    ("results"@, JsonValue::Arr(result_values(texts, with_points))),
                ],
            ),
        ],
    )
}

#[verifier::spinoff_prover]
#[verifier::rlimit(40)]
proof fn lemma_read_file_object(file: Seq<char>, texts: Seq<Seq<char>>, with_points: bool, rest: Seq<char>)
    ensures
        read_value(
            seq!['{'] + (member_text("file"@, qstr(spec_json_escape(file))) + (seq![',', ' ']
                + member_text("results"@, seq!['['] + json_results(texts, with_points) + seq![']'])
                + (seq!['}'] + rest))),
        ) == Some::<(JsonValue, Seq<char>)>(
            (
                JsonValue::Obj(
                    seq![
                        ("file"@, JsonValue::Str(file)),
                        ("results"@, JsonValue::Arr(result_values(texts, with_points))),
                    ],
                ),
                rest,
            ),
        ),
{
    lemma_json_pieces();
    let v1 = qstr(spec_json_escape(file));
    let arr = seq!['['] + json_results(texts, with_points) + seq![']'];
    let t2 = seq!['}'] + rest;
    let t1 = seq![',', ' '] + member_text("results"@, arr) + t2;
    let m = member_text("file"@, v1) + t1;
    assert(m[0] == '"');
    lemma_read_object_open(m);
    let e: Seq<(Seq<char>, JsonValue)> = Seq::empty();
    lemma_read_str_value(file, t1);
    lemma_read_member(Seq::empty(), "file"@, v1, t1, e, JsonValue::Str(file));
    assert(Seq::<char>::empty() + member_text("file"@, v1) + t1 =~= m);
    let a1 = e.push(("file"@, JsonValue::Str(file)));
    lemma_read_result_array(texts, with_points, t2);
    assert(arr + t2 =~= seq!['['] + json_results(texts, with_points) + seq![']'] + t2);
    let rv = JsonValue::Arr(result_values(texts, with_points));
    lemma_members_comma("results"@, arr, t2, a1, rv);
    let a2 = a1.push(("results"@, rv));
    lemma_members_close(rest, a2);
    assert(a2 =~= seq![("file"@, JsonValue::Str(file)), ("results"@, rv)]);
}

/// The text of the file object of a json document.
pub open spec fn file_object_text(file: Seq<char>, texts: Seq<Seq<char>>, with_points: bool) -> Seq<
    char,
> {
    seq!['{'] + (member_text("file"@, qstr(spec_json_escape(file))) + (seq![',', ' ']
        + member_text("results"@, seq!['['] + json_results(texts, with_points) + seq![']'])
        + seq!['}']))
}

#[verifier::spinoff_prover]
#[verifier::rlimit(40)]
proof fn lemma_json_doc_shape(file: Seq<char>, texts: Seq<Seq<char>>, with_points: bool)
    ensures
        json_doc(file, texts, with_points) == seq!['['] + (file_object_text(file, texts, with_points)
            + seq![']', '\n']),
        file_object_text(file, texts, with_points) + seq![']', '\n'] == seq!['{'] + (member_text(
            "file"@,
            qstr(spec_json_escape(file)),
        ) + (seq![',', ' '] + member_text(
            "results"@,
            seq!['['] + json_results(texts, with_points) + seq![']'],
        ) + (seq!['}'] + seq![']', '\n']))),
{
    lemma_json_pieces();
    lemma_str_obj_text("file"@, file);
    let res = json_results(texts, with_points);
    let doc = json_doc(file, texts, with_points);
    let m1 = member_text("file"@, qstr(spec_json_escape(file)));
    let mr = member_text("results"@, seq!['[']);
    let mt = member_text("results"@, seq!['['] + res + seq![']']);
    let c = seq![',', ' '];
    let e = seq![']', '\n'];
    let t4 = seq![']', '}', ']', '\n'];
    assert(doc == seq!['[', '{'] + m1 + (c + mr) + res + t4);
    assert(mt =~= mr + res + seq![']']);
    let obj_v = file_object_text(file, texts, with_points);
    assert(res + t4 =~= (res + seq![']']) + (seq!['}'] + e));
    assert((c + mr) + (res + t4) =~= c + (mr + res + seq![']']) + (seq!['}'] + e));
    assert(c + (mr + res + seq![']']) + (seq!['}'] + e) =~= c + mt + (seq!['}'] + e));
    assert(doc =~= seq!['[', '{'] + (m1 + ((c + mr) + (res + t4))));
    assert(doc =~= seq!['[', '{'] + (m1 + (c + mt + (seq!['}'] + e))));
    assert(obj_v + e =~= seq!['{'] + (m1 + (c + mt + (seq!['}'] + e))));
    assert(doc =~= seq!['['] + (obj_v + e));
}

/// What `emit_json_with` writes is one JSON text: an array holding one
/// object whose `"file"` is the file name and whose `"results"` lists,
/// in order, an object per detection with `"format": "QR_CODE"`, its
/// `"text"` and, when asked for, an empty `"points"` array.
#[verifier::spinoff_prover]
#[verifier::rlimit(40)]
pub proof fn lemma_json_doc_reads_back(file: Seq<char>, texts: Seq<Seq<char>>, with_points: bool)
    ensures
        read_json_text(json_doc(file, texts, with_points)) == Some(doc_value(file, texts, with_points)),
{
    let doc = json_doc(file, texts, with_points);
    let obj_v = file_object_text(file, texts, with_points);
    let e = seq![']', '\n'];
    lemma_json_doc_shape(file, texts, with_points);
    lemma_read_file_object(file, texts, with_points, e);
    let ov = JsonValue::Obj(
        seq![
            ("file"@, JsonValue::Str(file)),
            ("results"@, JsonValue::Arr(result_values(texts, with_points))),
        ],
    );
    assert(read_value(obj_v + e) == Some::<(JsonValue, Seq<char>)>((ov, e)));
    assert(doc[0] == '[');
    lemma_skip_ws_none(doc);
    let a = doc.skip(1);
    assert(a =~= obj_v + e);
    assert(obj_v.len() > 0);
    lemma_read_item(obj_v, e, Seq::empty(), ov);
    assert(a[0] == '{');
    lemma_skip_ws_none(a);
    assert(e =~= seq![']'] + seq!['\n']);
    lemma_items_close(seq!['\n'], Seq::<JsonValue>::empty().push(ov));
    assert(Seq::<JsonValue>::empty().push(ov) =~= seq![ov]);
    assert(seq!['\n'] =~= seq!['\n'] + Seq::<char>::empty());
    lemma_skip_ws_one('\n', Seq::empty());
}

proof fn lemma_free_concat(a: Seq<char>, b: Seq<char>, c: char)
    requires
        free_of(a, c),
        free_of(b, c),
    ensures
        free_of(a + b, c),
{
    assert forall|i: int| 0 <= i < (a + b).len() implies (a + b)[i] != c by {
        if i < a.len() {
            assert((a + b)[i] == a[i]);
        } else {
            assert((a + b)[i] == b[i - a.len()]);
        }
    }
}

proof fn lemma_escape_one_line(x: Seq<char>)
    ensures
        free_of(spec_json_escape(x), '\n'),
    decreases x.len(),
{
    if x.len() > 0 {
        lemma_escape_one_line(x.drop_last());
        let c = x.last();
        let e = json_escape_char(c);
        if (c as u32) < 0x20 && c != '\n' && c != '\r' && c != '\t' && c != '"' && c != '\\' {
            let v = c as u32;
            assert(e =~= seq!['\\', 'u', '0', '0', hex_digit(v / 16), hex_digit(v % 16)]);
        }
        assert(free_of(e, '\n'));
        lemma_free_concat(spec_json_escape(x.drop_last()), e, '\n');
    }
}

proof fn lemma_member_one_line(k: Seq<char>, v: Seq<char>)
    requires
        free_of(k, '\n'),
        free_of(v, '\n'),
    ensures
        free_of(member_text(k, v), '\n'),
{
    lemma_free_concat(seq!['"'], k, '\n');
    lemma_free_concat(seq!['"'] + k, seq!['"'], '\n');
    lemma_free_concat(qstr(k), seq![':', ' '], '\n');
    lemma_free_concat(qstr(k) + seq![':', ' '], v, '\n');
}

proof fn lemma_str_value_one_line(x: Seq<char>)
    ensures
        free_of(qstr(spec_json_escape(x)), '\n'),
{
    lemma_escape_one_line(x);
    lemma_free_concat(seq!['"'], spec_json_escape(x), '\n');
    lemma_free_concat(seq!['"'] + spec_json_escape(x), seq!['"'], '\n');
}

#[verifier::spinoff_prover]
#[verifier::rlimit(40)]
proof fn lemma_result_one_line(text: Seq<char>, with_points: bool)
    ensures
        free_of(json_result(text, with_points), '\n'),
{
    lemma_json_pieces();
    lemma_result_shape(text, with_points, Seq::empty());
    assert(json_result(text, with_points) + Seq::<char>::empty() =~= json_result(text, with_points));
    reveal_strlit("format");
    reveal_strlit("text");
    reveal_strlit("points");
    assert("format"@ =~= seq!['f', 'o', 'r', 'm', 'a', 't']);
    assert("text"@ =~= seq!['t', 'e', 'x', 't']);
    assert("points"@ =~= seq!['p', 'o', 'i', 'n', 't', 's']);
    lemma_str_value_one_line("QR_CODE"@);
    lemma_str_value_one_line(text);
    let m1 = member_text("format"@, qstr(spec_json_escape("QR_CODE"@)));
    let m2 = member_text("text"@, qstr(spec_json_escape(text)));
    lemma_member_one_line("format"@, qstr(spec_json_escape("QR_CODE"@)));
    lemma_member_one_line("text"@, qstr(spec_json_escape(text)));
    lemma_member_one_line("points"@, seq!['[', ']']);
    let p = points_text(with_points);
    if with_points {
        lemma_free_concat(seq![',', ' '], member_text("points"@, seq!['[', ']']), '\n');
    }
    assert(free_of(p, '\n'));
    lemma_free_concat(p, seq!['}'], '\n');
    lemma_free_concat(seq![',', ' '], m2, '\n');
    lemma_free_concat(seq![',', ' '] + m2, p + seq!['}'], '\n');
    lemma_free_concat(m1, seq![',', ' '] + m2 + (p + seq!['}']), '\n');
    lemma_free_concat(seq!['{'], m1 + (seq![',', ' '] + m2 + (p + seq!['}'])), '\n');
}

proof fn lemma_results_one_line(texts: Seq<Seq<char>>, with_points: bool)
    ensures
        free_of(json_results(texts, with_points), '\n'),
    decreases texts.len(),
{
    lemma_json_pieces();
    if texts.len() == 1 {
        lemma_result_one_line(texts[0], with_points);
    } else if texts.len() > 1 {
        lemma_results_one_line(texts.drop_last(), with_points);
        lemma_result_one_line(texts.last(), with_points);
        lemma_free_concat(json_results(texts.drop_last(), with_points), seq![',', ' '], '\n');
        lemma_free_concat(
            json_results(texts.drop_last(), with_points) + seq![',', ' '],
            json_result(texts.last(), with_points),
            '\n',
        );
    }
}

/// The json document of a file is one line: its only line feed ends it.
#[verifier::spinoff_prover]
#[verifier::rlimit(40)]
pub proof fn lemma_json_doc_one_line(file: Seq<char>, texts: Seq<Seq<char>>, with_points: bool)
    ensures
        json_doc(file, texts, with_points).len() > 0,
        json_doc(file, texts, with_points).last() == '\n',
        free_of(json_doc(file, texts, with_points).drop_last(), '\n'),
{
    lemma_json_pieces();
    lemma_str_obj_text("file"@, file);
    reveal_strlit("file");
    reveal_strlit("results");
    assert("file"@ =~= seq!['f', 'i', 'l', 'e']);
    assert("results"@ =~= seq!['r', 'e', 's', 'u', 'l', 't', 's']);
    let m1 = member_text("file"@, qstr(spec_json_escape(file)));
    let mr = member_text("results"@, seq!['[']);
    let res = json_results(texts, with_points);
    lemma_str_value_one_line(file);
    lemma_member_one_line("file"@, qstr(spec_json_escape(file)));
    lemma_member_one_line("results"@, seq!['[']);
    lemma_results_one_line(texts, with_points);
    let body = seq!['[', '{'] + m1 + (seq![',', ' '] + mr) + res + seq![']', '}', ']'];
    lemma_free_concat(seq!['[', '{'], m1, '\n');
    lemma_free_concat(seq![',', ' '], mr, '\n');
    lemma_free_concat(seq!['[', '{'] + m1, seq![',', ' '] + mr, '\n');
    lemma_free_concat(seq!['[', '{'] + m1 + (seq![',', ' '] + mr), res, '\n');
    lemma_free_concat(seq!['[', '{'] + m1 + (seq![',', ' '] + mr) + res, seq![']', '}', ']'], '\n');
    let doc = json_doc(file, texts, with_points);
    assert(doc =~= body + seq!['\n']);
    assert(doc.drop_last() =~= body);
}

} // verus!
