//! Character and byte helpers shared by the parser and the formatters.

use vstd::prelude::*;
use vstd::utf8::*;

verus! {

/// ASCII lower-casing of one character; other characters are unchanged.
pub open spec fn ascii_lower_char(c: char) -> char {
    if 'A' <= c && c <= 'Z' {
        ((c as u32) + 32) as char
    } else {
        c
    }
}

/// ASCII lower-casing of a whole character sequence.
pub open spec fn ascii_lower(s: Seq<char>) -> Seq<char> {
    s.map_values(|c: char| ascii_lower_char(c))
}

/// Lower-cases one character the way `char::to_ascii_lowercase` does.
pub(crate) fn to_ascii_lower(c: char) -> (r: char)
    ensures
        r == ascii_lower_char(c),
{
    if 'A' <= c && c <= 'Z' {
        let b: u8 = c as u8;
        (b + 32) as char
    } else {
        c
    }
}

/// The characters of `s`, in order.
pub(crate) fn chars_of(s: &str) -> (v: Vec<char>)
    ensures
        v@ == s@,
{
    let mut v: Vec<char> = Vec::new();
    for c in it: s.chars()
        invariant
            it.seq() == s@,
            v@ == s@.take(it.index() as int),
    {
        v.push(c);
    }
    v
}

/// The ASCII lower-cased characters of `s`, in order.
pub(crate) fn lower_chars_of(s: &str) -> (v: Vec<char>)
    ensures
        v@ == ascii_lower(s@),
{
    let mut v: Vec<char> = Vec::new();
    for c in it: s.chars()
        invariant
            it.seq() == s@,
            v@ == ascii_lower(s@.take(it.index() as int)),
    {
        let ghost i = it.index();
        v.push(to_ascii_lower(c));
        assert(s@.take(i + 1) =~= s@.take(i as int).push(c));
    }
    assert(s@.take(s@.len() as int) =~= s@);
    v
}

/// Whether the character sequence `v` spells exactly `lit`.
pub(crate) fn chars_eq_str(v: &Vec<char>, lit: &str) -> (r: bool)
    ensures
        r == (v@ == lit@),
{
    let w = chars_of(lit);
    if v.len() != w.len() {
        return false;
    }
    let n = v.len();
    let mut i: usize = 0;
    while i < n
        invariant
            n == v@.len(),
            n == w@.len(),
            w@ == lit@,
            i <= n,
            forall|j: int| 0 <= j < i ==> v@[j] == w@[j],
        decreases n - i,
    {
        if v[i] != w[i] {
            return false;
        }
        i = i + 1;
    }
    assert(v@ =~= w@);
    true
}

/// Whether `a` spells exactly `lit`.
pub(crate) fn str_is(a: &str, lit: &str) -> (r: bool)
    ensures
        r == (a@ == lit@),
{
    let v = chars_of(a);
    chars_eq_str(&v, lit)
}

/// Trusted: `String::push` from std, which appends `c` at the end of the
/// string; the contract claims that the characters afterwards are those
/// before followed by `c`.
#[verifier::external_body]
pub(crate) fn push_char(s: &mut String, c: char)
    ensures
        final(s)@ == old(s)@.push(c),
{
    s.push(c);
}

/// Encoding a concatenation is the concatenation of the encodings.
pub proof fn lemma_encode_utf8_concat(a: Seq<char>, b: Seq<char>)
    ensures
        encode_utf8(a + b) == encode_utf8(a) + encode_utf8(b),
    decreases a.len(),
{
    if a.len() == 0 {
        assert(a + b =~= b);
    } else {
        lemma_encode_utf8_concat(a.drop_first(), b);
        assert((a + b).drop_first() =~= a.drop_first() + b);
        assert(encode_utf8(a) == encode_scalar(a[0] as u32) + encode_utf8(a.drop_first()));
        assert(encode_utf8(a + b) == encode_scalar(a[0] as u32) + encode_utf8((a + b).drop_first()));
        assert(encode_utf8(a + b) =~= encode_utf8(a) + encode_utf8(b));
    }
}

/// Appends the UTF-8 bytes of `s` to `w`.
pub(crate) fn put(w: &mut Vec<u8>, s: &str)
    ensures
        final(w)@ == old(w)@ + encode_utf8(s@),
{
    let b = s.as_bytes();
    let n = b.len();
    let mut i: usize = 0;
    while i < n
        invariant
            n == b@.len(),
            b@ == encode_utf8(s@),
            i <= n,
            w@ == old(w)@ + b@.take(i as int),
        decreases n - i,
    {
        w.push(b[i]);
        i = i + 1;
        assert(b@.take(i as int) =~= b@.take(i - 1).push(b@[i - 1]));
    }
    assert(b@.take(n as int) =~= b@);
}

/// The fields of `s` between the occurrences of `sep`, as `str::split`
/// gives them: one more field than there are separators.
pub open spec fn split_fields(s: Seq<char>, sep: char) -> Seq<Seq<char>>
    decreases s.len(),
{
    if s.len() == 0 {
        seq![Seq::<char>::empty()]
    } else {
        let f = split_fields(s.drop_last(), sep);
        if s.last() == sep {
            f.push(Seq::<char>::empty())
        } else {
            f.update(f.len() - 1, f.last().push(s.last()))
        }
    }
}

/// The fields of `fs` that are not empty, in order.
pub open spec fn non_empty_fields(fs: Seq<Seq<char>>) -> Seq<Seq<char>>
    decreases fs.len(),
{
    if fs.len() == 0 {
        Seq::empty()
    } else {
        let r = non_empty_fields(fs.drop_last());
        if fs.last().len() > 0 {
            r.push(fs.last())
        } else {
            r
        }
    }
}

/// Whether `sep` does not occur in `s`.
pub open spec fn free_of(s: Seq<char>, sep: char) -> bool {
    forall|i: int| 0 <= i < s.len() ==> s[i] != sep
}

/// There is always at least one field.
pub proof fn lemma_split_fields_len(s: Seq<char>, sep: char)
    ensures
        split_fields(s, sep).len() >= 1,
    decreases s.len(),
{
    if s.len() > 0 {
        lemma_split_fields_len(s.drop_last(), sep);
    }
}

/// Characters other than the separator extend the last field.
pub proof fn lemma_split_fields_extend(a: Seq<char>, b: Seq<char>, sep: char)
    requires
        free_of(b, sep),
    ensures
        split_fields(a + b, sep) == split_fields(a, sep).update(
            split_fields(a, sep).len() - 1,
            split_fields(a, sep).last() + b,
        ),
    decreases b.len(),
{
    lemma_split_fields_len(a, sep);
    let fa = split_fields(a, sep);
    if b.len() == 0 {
        assert(a + b =~= a);
        assert(fa.update(fa.len() - 1, fa.last() + b) =~= fa);
    } else {
        let b0 = b.drop_last();
        lemma_split_fields_extend(a, b0, sep);
        assert((a + b).drop_last() =~= a + b0);
        assert((a + b).last() == b.last());
        assert(b.last() != sep);
        assert(fa.last() + b0.push(b.last()) =~= fa.last() + b);
        assert(b0.push(b.last()) =~= b);
        assert(split_fields(a + b, sep) =~= fa.update(fa.len() - 1, fa.last() + b));
    }
}

/// A text without the separator is one field.
pub proof fn lemma_split_fields_single(s: Seq<char>, sep: char)
    requires
        free_of(s, sep),
    ensures
        split_fields(s, sep) == seq![s],
{
    lemma_split_fields_extend(Seq::empty(), s, sep);
    assert(Seq::<char>::empty() + s =~= s);
    assert(split_fields(Seq::<char>::empty(), sep) =~= seq![Seq::<char>::empty()]);
    assert(seq![Seq::<char>::empty()].update(0, Seq::<char>::empty() + s) =~= seq![s]);
}

/// Splitting around one separator splits both sides.
pub proof fn lemma_split_fields_concat(a: Seq<char>, b: Seq<char>, sep: char)
    ensures
        split_fields(a.push(sep) + b, sep) == split_fields(a, sep) + split_fields(b, sep),
    decreases b.len(),
{
    let fa = split_fields(a, sep);
    if b.len() == 0 {
        assert(a.push(sep) + b =~= a.push(sep));
        assert(a.push(sep).drop_last() =~= a);
        assert(split_fields(b, sep) =~= seq![Seq::<char>::empty()]);
        assert(fa.push(Seq::<char>::empty()) =~= fa + seq![Seq::<char>::empty()]);
    } else {
        let b0 = b.drop_last();
        lemma_split_fields_concat(a, b0, sep);
        lemma_split_fields_len(b0, sep);
        let fb0 = split_fields(b0, sep);
        assert((a.push(sep) + b).drop_last() =~= a.push(sep) + b0);
        assert((a.push(sep) + b).last() == b.last());
        if b.last() == sep {
            assert((fa + fb0).push(Seq::<char>::empty()) =~= fa + fb0.push(Seq::<char>::empty()));
        } else {
            assert((fa + fb0).update(fa.len() + fb0.len() - 1, fb0.last().push(b.last())) =~= fa
                + fb0.update(fb0.len() - 1, fb0.last().push(b.last())));
        }
    }
}

} // verus!
