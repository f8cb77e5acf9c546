//! Grapheme-cluster segmentation of a string.
//!
//! Splitting a string into user-perceived characters is delegated to the
//! `unicode-segmentation` crate; everything downstream reasons about the
//! resulting sequence through the uninterpreted name `grapheme_seq`.

use vstd::prelude::*;
use unicode_segmentation::UnicodeSegmentation;

verus! {

/// The sequence of extended grapheme clusters of a string, as the
/// Unicode text-segmentation algorithm splits it. The split is a function
/// of the characters alone.
pub uninterp spec fn grapheme_seq(s: Seq<char>) -> Seq<Seq<char>>;

/// The character sequences of a vector of grapheme strings.
pub open spec fn grapheme_views(v: Seq<String>) -> Seq<Seq<char>> {
    v.map_values(|g: String| g@)
}

/// What segmentation guarantees of every string: the clusters concatenate
/// back to the string and none of them is empty.
pub open spec fn well_segmented(s: Seq<char>) -> bool {
    &&& grapheme_seq(s).flatten() == s
    &&& forall|i: int| 0 <= i < grapheme_seq(s).len() ==> #[trigger] grapheme_seq(s)[i].len() > 0
}

/// Relies on `unicode_segmentation::UnicodeSegmentation::graphemes(s, true)`:
/// it yields the extended grapheme clusters of `s` as consecutive, nonempty
/// subslices that concatenate back to `s`, and the split depends on the
/// characters of `s` alone.
#[verifier::external_body]
pub(crate) fn graphemes_of(s: &str) -> (r: Vec<String>)
    ensures
        grapheme_views(r@) == grapheme_seq(s@),
        grapheme_views(r@).flatten() == s@,
        forall|i: int| 0 <= i < grapheme_views(r@).len()
            ==> #[trigger] grapheme_views(r@)[i].len() > 0,
{
    let mut r: Vec<String> = Vec::new();
    for g in s.graphemes(true) {
        r.push(g.to_owned());
    }
    r
}
} // verus!
