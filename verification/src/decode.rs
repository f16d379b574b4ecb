//! The results of a decode and the options it runs with.

use vstd::prelude::*;

verus! {

/// Options for decoding one image.
#[derive(Debug, Clone, Copy)]
pub struct DecodeOptions {
    /// When true (the default), the super-resolution pre-pass is enabled.
    pub scale_up: bool,
}

/// One QR code found in an image. The detector exposes no corner
/// points, so a result is its decoded text.
#[derive(Debug)]
pub struct Decoded {
    pub text: String,
}

/// The texts of a sequence of results.
pub open spec fn texts_of(rs: Seq<Decoded>) -> Seq<Seq<char>> {
    rs.map_values(|d: Decoded| d.text@)
}

/// The results for the texts that the detector returned, one per text
/// and in the same order.
pub fn decoded_from_texts(texts: Vec<String>) -> (r: Vec<Decoded>)
    ensures
        texts_of(r@) == texts@.map_values(|s: String| s@),
{
    let ghost tv = texts@.map_values(|s: String| s@);
    let mut r: Vec<Decoded> = Vec::new();
    let n = texts.len();
    let mut i: usize = 0;
    while i < n
        invariant
            n == texts@.len(),
            tv == texts@.map_values(|s: String| s@),
            i <= n,
            texts_of(r@) == tv.take(i as int),
        decreases n - i,
    {
        let ghost before = r@;
        let s = texts[i].clone();
        assert(s@ == tv[i as int]);
        r.push(Decoded { text: s });
        assert(texts_of(r@) =~= texts_of(before).push(tv[i as int]));
        i = i + 1;
        assert(tv.take(i as int) =~= tv.take(i - 1).push(tv[i - 1]));
    }
    assert(tv.take(n as int) =~= tv);
    r
}

} // verus!
