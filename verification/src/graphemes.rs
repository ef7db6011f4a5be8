//! Grapheme-cluster segmentation. Every column in the editor addresses a
//! grapheme cluster, so rows store their text as the sequence of clusters
//! the segmenter yields. Segmentation itself is delegated to the
//! unicode-segmentation crate behind one trusted boundary.

use unicode_segmentation::UnicodeSegmentation;
use vstd::prelude::*;

verus! {

/// The sequence of extended grapheme clusters of a character sequence,
/// as UAX-29 segmentation yields it.
pub uninterp spec fn graphemes_of(s: Seq<char>) -> Seq<Seq<char>>;

/// Relies on unicode-segmentation's `UnicodeSegmentation::graphemes(true)`
/// (UAX-29 extended grapheme clusters): the clusters partition the input
/// in order, and each cluster is non-empty.
#[verifier::external_body]
pub fn segment_graphemes(s: &str) -> (r: Vec<Vec<char>>)
    ensures
        r.deep_view() == graphemes_of(s@),
        r.deep_view().flatten() == s@,
        forall|i: int| 0 <= i < r.deep_view().len() ==> (#[trigger] r.deep_view()[i]).len() > 0,
{
    s.graphemes(true).map(|g| g.chars().collect()).collect()
}

/// The characters of a string slice, one by one.
pub fn chars_of(s: &str) -> (r: Vec<char>)
    ensures
        r@ == s@,
{
    let n = s.unicode_len();
    let mut r: Vec<char> = Vec::new();
    let mut i: usize = 0;
    while i < n
        invariant
            n == s@.len(),
            i <= n,
            r@ == s@.take(i as int),
        decreases n - i,
    {
        r.push(s.get_char(i));
        assert(s@.take(i + 1 as int) =~= s@.take(i as int).push(s@[i as int]));
        i = i + 1;
    }
    assert(s@.take(n as int) =~= s@);
    r
}

} // verus!
