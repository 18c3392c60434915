//! The guarantees of the scan, stated once and proved for every well-formed
//! grapheme segmentation.
//!
//! Each lemma speaks about [`scan_positions`] over arbitrary input bytes and
//! an arbitrary segmentation satisfying [`is_segmentation`] — in particular
//! over the segmentation that [`crate::print_position_indices`] obtains, so
//! the properties hold of every scanner the crate hands out.

use vstd::prelude::*;
use vstd::utf8::decode_utf8;
use vstd::utf8::decode_utf8_split;
use vstd::utf8::encode_utf8;
use vstd::utf8::encode_utf8_decode_utf8;
use vstd::utf8::encode_utf8_valid_utf8;
use vstd::utf8::is_char_boundary;
use vstd::utf8::is_char_boundary_iff_not_is_continuation_byte;
use vstd::utf8::is_char_boundary_start_end_of_seq;
use vstd::utf8::valid_utf8;
use vstd::utf8::valid_utf8_split;

use crate::model::ESCAPE;
use crate::model::concat_ranges;
use crate::model::is_segmentation;
use crate::model::lemma_concat_of_cover;
use crate::model::lemma_positions_adjacent;
use crate::model::lemma_positions_facts;
use crate::model::lemma_positions_last;
use crate::model::lemma_scan_no_escape;
use crate::model::lemma_scan_positions_cover;
use crate::model::lemma_scan_starts_at_clusters;
use crate::model::positions_wf;
use crate::model::scan_positions;
use crate::model::start_of;
use crate::segmentation::print_positions_of;

verus! {

/// Coverage and ordering: the emitted ranges form a gapless chain of
/// non-empty ranges — strictly increasing, each ending where the next
/// starts — that begins at offset 0 and ends at the length of the input.
pub proof fn lemma_coverage(bytes: Seq<u8>, rs: Seq<(int, int)>)
    requires
        is_segmentation(rs, bytes.len() as int),
    ensures
        positions_wf(scan_positions(bytes, rs, 0), 0, bytes.len() as int),
        scan_positions(bytes, rs, 0).len() > 0 ==> scan_positions(bytes, rs, 0)[0].0 == 0
            && scan_positions(bytes, rs, 0).last().1 == bytes.len(),
{
    lemma_scan_positions_cover(bytes, rs, 0);
    if rs.len() > 0 {
        assert(rs[0].0 == 0);
    }
    assert(start_of(rs, 0, bytes.len() as int) == 0);
    let ps = scan_positions(bytes, rs, 0);
    if ps.len() > 0 {
        lemma_positions_last(ps, 0, bytes.len() as int);
    }
}

/// Non-emptiness: no emitted range is empty, and every range lies within
/// the input.
pub proof fn lemma_nonemptiness(bytes: Seq<u8>, rs: Seq<(int, int)>)
    requires
        is_segmentation(rs, bytes.len() as int),
    ensures
        forall|k: int|
            0 <= k < scan_positions(bytes, rs, 0).len() ==> 0 <= (#[trigger] scan_positions(
                bytes,
                rs,
                0,
            )[k]).0 && scan_positions(bytes, rs, 0)[k].0 < scan_positions(bytes, rs, 0)[k].1
                && scan_positions(bytes, rs, 0)[k].1 <= bytes.len(),
{
    lemma_coverage(bytes, rs);
    lemma_positions_facts(scan_positions(bytes, rs, 0), 0, bytes.len() as int);
}

/// Losslessness: concatenating the byte slices of all emitted positions, in
/// order, reproduces the input exactly — no byte is lost, duplicated or
/// reordered. Since UTF-8 bytes determine the characters, the concatenated
/// slices spell the source string itself.
pub proof fn lemma_losslessness(bytes: Seq<u8>, rs: Seq<(int, int)>)
    requires
        is_segmentation(rs, bytes.len() as int),
    ensures
        concat_ranges(bytes, scan_positions(bytes, rs, 0)) == bytes,
{
    lemma_coverage(bytes, rs);
    lemma_concat_of_cover(bytes, scan_positions(bytes, rs, 0), 0);
    assert(bytes.subrange(0, bytes.len() as int) =~= bytes);
}

/// Losslessness at the character level: decoding the concatenated bytes of
/// all emitted positions of a string yields the string's characters exactly.
pub proof fn lemma_losslessness_chars(s: Seq<char>, rs: Seq<(int, int)>)
    requires
        is_segmentation(rs, encode_utf8(s).len() as int),
    ensures
        decode_utf8(concat_ranges(encode_utf8(s), scan_positions(encode_utf8(s), rs, 0))) == s,
{
    lemma_losslessness(encode_utf8(s), rs);
    encode_utf8_decode_utf8(s);
}

/// The characters of the slices selected by the ranges of `ps`, in order.
pub open spec fn concat_decoded(bytes: Seq<u8>, ps: Seq<(int, int)>) -> Seq<char>
    decreases ps.len(),
{
    if ps.len() == 0 {
        Seq::empty()
    } else {
        decode_utf8(bytes.subrange(ps[0].0, ps[0].1)) + concat_decoded(bytes, ps.drop_first())
    }
}

proof fn lemma_concat_decoded_cover(bytes: Seq<u8>, ps: Seq<(int, int)>, start: int)
    requires
        valid_utf8(bytes),
        positions_wf(ps, start, bytes.len() as int),
        0 <= start <= bytes.len(),
        is_char_boundary(bytes, start),
        forall|k: int| 0 <= k < ps.len() ==> is_char_boundary(bytes, (#[trigger] ps[k]).0),
    ensures
        concat_decoded(bytes, ps) == decode_utf8(bytes.subrange(start, bytes.len() as int)),
    decreases ps.len(),
{
    let total = bytes.len() as int;
    if ps.len() == 0 {
        assert(bytes.subrange(total, total) =~= Seq::<u8>::empty());
    } else {
        let e = ps[0].1;
        let tail = ps.drop_first();
        lemma_positions_facts(ps, start, total);
        if tail.len() == 0 {
            lemma_positions_last(ps, start, total);
            is_char_boundary_start_end_of_seq(bytes);
        } else {
            assert(tail[0] == ps[1]);
            lemma_positions_adjacent(ps, start, total, 0);
            assert(e == ps[1].0);
        }
        assert(is_char_boundary(bytes, e));
        let suffix = bytes.subrange(start, total);
        valid_utf8_split(bytes, start);
        if e < total {
            is_char_boundary_iff_not_is_continuation_byte(bytes, e);
            is_char_boundary_iff_not_is_continuation_byte(suffix, e - start);
            assert(suffix[e - start] == bytes[e]);
        } else {
            is_char_boundary_start_end_of_seq(suffix);
        }
        decode_utf8_split(suffix, e - start);
        assert(suffix.subrange(0, e - start) =~= bytes.subrange(start, e));
        assert(suffix.subrange(e - start, suffix.len() as int) =~= bytes.subrange(e, total));
        assert forall|k: int|
            0 <= k < tail.len() implies is_char_boundary(bytes, (#[trigger] tail[k]).0) by {
            assert(tail[k] == ps[k + 1]);
        }
        lemma_concat_decoded_cover(bytes, tail, e);
    }
}

/// Losslessness at the slice level: the characters of the emitted slices,
/// concatenated in emission order, spell the source string exactly — for
/// any segmentation whose clusters start on character boundaries, as the
/// grapheme clusters of [`crate::grapheme_cluster_ranges`] do.
pub proof fn lemma_slices_spell_source(s: Seq<char>, rs: Seq<(int, int)>)
    requires
        is_segmentation(rs, encode_utf8(s).len() as int),
        forall|k: int|
            0 <= k < rs.len() ==> is_char_boundary(encode_utf8(s), (#[trigger] rs[k]).0),
    ensures
        concat_decoded(encode_utf8(s), scan_positions(encode_utf8(s), rs, 0)) == s,
{
    let bytes = encode_utf8(s);
    encode_utf8_valid_utf8(s);
    lemma_coverage(bytes, rs);
    lemma_scan_starts_at_clusters(bytes, rs, 0);
    let ps = scan_positions(bytes, rs, 0);
    assert forall|k: int|
        0 <= k < ps.len() implies is_char_boundary(bytes, (#[trigger] ps[k]).0) by {
        let j = choose|j: int| 0 <= j < rs.len() && ps[k].0 == rs[j].0;
        assert(is_char_boundary(bytes, rs[j].0));
    }
    is_char_boundary_start_end_of_seq(bytes);
    lemma_concat_decoded_cover(bytes, ps, 0);
    assert(bytes.subrange(0, bytes.len() as int) =~= bytes);
    encode_utf8_decode_utf8(s);
}

/// Idempotent re-scan: the positions of a string are a function of its
/// characters alone, so scanning the same string twice yields identical
/// range sequences.
pub proof fn lemma_rescan_identical(s1: Seq<char>, s2: Seq<char>)
    requires
        s1 == s2,
    ensures
        print_positions_of(s1) == print_positions_of(s2),
{
}

/// Grapheme fidelity: on input without any escape byte, the emitted
/// positions are exactly the grapheme clusters of the segmentation.
pub proof fn lemma_grapheme_fidelity(bytes: Seq<u8>, rs: Seq<(int, int)>)
    requires
        is_segmentation(rs, bytes.len() as int),
        forall|k: int| 0 <= k < bytes.len() ==> bytes[k] != ESCAPE,
    ensures
        scan_positions(bytes, rs, 0) == rs,
{
    lemma_scan_no_escape(bytes, rs, 0);
    assert(rs.skip(0) =~= rs);
}

} // verus!
