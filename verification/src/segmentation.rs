//! Grapheme-cluster segmentation of the input string.
//!
//! Cluster boundary detection itself is delegated to the `unicode_segmentation`
//! crate; this module wraps that call and states its contract: the clusters
//! are returned in order, without gaps or overlaps, they cover the whole
//! string, and every cluster starts on a UTF-8 character boundary.

use vstd::prelude::*;
use vstd::string::StringSliceAdditionalSpecFns;
use vstd::utf8::encode_utf8;
use vstd::utf8::is_char_boundary;

use crate::model::is_segmentation;
use crate::model::scan_positions;

verus! {

/// The byte ranges of the extended grapheme clusters of `s`, in order.
/// What the ranges are for given characters is decided by the Unicode
/// text-segmentation algorithm (UAX#29) and carried by the segmentation
/// crate; this library only names the result and relies on the structural
/// facts stated by [`grapheme_spans`].
pub uninterp spec fn grapheme_bounds(s: Seq<char>) -> Seq<(int, int)>;

/// The byte ranges described by a sequence of `(start, length)` spans.
pub open spec fn span_ranges(spans: Seq<(usize, usize)>) -> Seq<(int, int)> {
    Seq::new(spans.len(), |k: int| (spans[k].0 as int, spans[k].0 + spans[k].1))
}

/// The byte ranges held by a sequence of `(start, end)` pairs.
pub open spec fn range_view(v: Seq<(usize, usize)>) -> Seq<(int, int)> {
    Seq::new(v.len(), |k: int| (v[k].0 as int, v[k].1 as int))
}

/// Relies on `unicode_segmentation::UnicodeSegmentation::grapheme_indices`:
/// the iterator yields each extended grapheme cluster of the string as a pair
/// of its byte offset and the cluster substring. The clusters are consecutive
/// non-empty subslices of the string, in order, tiling it from its first byte
/// to its last, so each offset falls on a UTF-8 character boundary.
#[verifier::external_body]
fn grapheme_spans(s: &str) -> (r: Vec<(usize, usize)>)
    ensures
        span_ranges(r@) == grapheme_bounds(s@),
        is_segmentation(span_ranges(r@), s.spec_bytes().len() as int),
        forall|k: int|
            0 <= k < r@.len() ==> is_char_boundary(s.spec_bytes(), (#[trigger] r@[k]).0 as int),
{
    unicode_segmentation::UnicodeSegmentation::grapheme_indices(s, true)
        .map(|(start, cluster): (usize, &str)| (start, cluster.len()))
        .collect()
}

/// The grapheme cluster ranges of `s` as `(start, end)` byte offset pairs.
pub fn grapheme_cluster_ranges(s: &str) -> (r: Vec<(usize, usize)>)
    ensures
        range_view(r@) == grapheme_bounds(s@),
        is_segmentation(range_view(r@), s.spec_bytes().len() as int),
        forall|k: int|
            0 <= k < r@.len() ==> is_char_boundary(s.spec_bytes(), (#[trigger] r@[k]).0 as int),
{
    let total: usize = s.as_bytes().len();
    proof {
        assert(total as int == s.spec_bytes().len() as int);
    }
    let spans = grapheme_spans(s);
    proof {
        crate::model::lemma_positions_facts(span_ranges(spans@), 0, s.spec_bytes().len() as int);
    }
    let n: usize = spans.len();
    let mut out: Vec<(usize, usize)> = Vec::new();
    let mut i: usize = 0;
    while i < n
        invariant
            i <= n,
            n == spans@.len(),
            out@.len() == i,
            forall|k: int|
                0 <= k < spans@.len() ==> (#[trigger] span_ranges(spans@)[k]).0 < span_ranges(
                    spans@,
                )[k].1 <= total,
            forall|k: int|
                0 <= k < i ==> (#[trigger] out@[k]).0 == spans@[k].0 && out@[k].1 == spans@[k].0
                    + spans@[k].1,
        decreases n - i,
    {
        let (start, len) = spans[i];
        assert(span_ranges(spans@)[i as int] == (start as int, start + len));
        out.push((start, start + len));
        i = i + 1;
    }
    proof {
        assert(range_view(out@) =~= span_ranges(spans@));
    }
    out
}

/// The print positions of `s`: the byte ranges that the scan of a string
/// with characters `s` emits, over its UTF-8 bytes and grapheme clusters.
pub open spec fn print_positions_of(s: Seq<char>) -> Seq<(int, int)> {
    scan_positions(encode_utf8(s), grapheme_bounds(s), 0)
}

} // verus!
