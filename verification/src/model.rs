//! Mathematical model of the print-position scan.
//!
//! A string is modelled by its UTF-8 bytes together with a segmentation into
//! grapheme clusters: a sequence of half-open byte ranges `(start, end)` that
//! is ordered, gapless, non-empty and covers the bytes exactly. On top of the
//! segmentation, the scan is defined by three spec functions that mirror the
//! scanner's phases: [`visible_end`] runs the escape-classification state
//! machine until one visible cluster has been taken, [`absorb_resets`] extends
//! the position over trailing literal reset sequences, and [`scan_positions`]
//! assembles the whole output sequence.

use vstd::prelude::*;

verus! {

/// The escape byte, `ESC` (0x1b).
pub const ESCAPE: u8 = 0x1b;

/// Classification state of the scanner while it assembles one position.
pub enum EscapeState {
    /// Outside any escape sequence.
    Normal,
    /// The previous cluster began with `ESC`.
    EscapeSeen,
    /// Inside a Control Sequence Introducer, `ESC [ ...`.
    CsiSeen,
    /// Inside an Operating System Command, `ESC ] ...`.
    OscSeen,
    /// Inside an OSC, right after an `ESC` that may start the `ESC \` terminator.
    OscSeenEscape,
}

/// One step of the escape-classification state machine, reading the first
/// byte of the next grapheme cluster. The step out of `Normal` on a byte
/// other than `ESC` ends the position instead; [`visible_end`] handles it.
pub open spec fn escape_transition(state: EscapeState, b: u8) -> EscapeState {
    match state {
        EscapeState::Normal => {
            if b == ESCAPE {
                EscapeState::EscapeSeen
            } else {
                EscapeState::Normal
            }
        },
        EscapeState::EscapeSeen => {
            if b == 0x5b {  // '['
                EscapeState::CsiSeen
            } else if b == 0x5d {  // ']'
                EscapeState::OscSeen
            } else {
                // A single-byte terminator (0x40..=0x5f) completes the escape;
                // any other byte is malformed and silently ends it. Both
                // return to Normal while the cluster keeps accumulating.
                EscapeState::Normal
            }
        },
        EscapeState::CsiSeen => {
            if 0x20 <= b && b <= 0x3f {
                // Parameter or intermediate byte: stay within the CSI.
                EscapeState::CsiSeen
            } else {
                // Final byte (0x40..=0x7e) ends the CSI; anything else is
                // malformed and ends it silently.
                EscapeState::Normal
            }
        },
        EscapeState::OscSeen => {
            if b == 0x07 {  // BEL terminates the OSC
                EscapeState::Normal
            } else if b == ESCAPE {
                EscapeState::OscSeenEscape
            } else {
                EscapeState::OscSeen
            }
        },
        EscapeState::OscSeenEscape => {
            if b == 0x5c {  // '\' completes the ESC \ terminator
                EscapeState::Normal
            } else if b == ESCAPE {
                EscapeState::OscSeenEscape
            } else {
                EscapeState::OscSeen
            }
        },
    }
}

/// A gapless chain of non-empty half-open ranges from offset `start` to
/// offset `total`: each range starts where its predecessor ended, the first
/// starts at `start` and the last ends at `total`; an empty chain is allowed
/// only when `start == total`.
pub open spec fn positions_wf(ps: Seq<(int, int)>, start: int, total: int) -> bool
    decreases ps.len(),
{
    if ps.len() == 0 {
        start == total
    } else {
        &&& ps[0].0 == start
        &&& start < ps[0].1
        &&& positions_wf(ps.drop_first(), ps[0].1, total)
    }
}

/// A well-formed grapheme segmentation of `total` bytes: a gapless chain of
/// non-empty cluster ranges covering offsets 0 to `total`.
pub open spec fn is_segmentation(rs: Seq<(int, int)>, total: int) -> bool {
    &&& 0 <= total
    &&& positions_wf(rs, 0, total)
}

/// The byte offset at which cluster `i` starts, or `total` when `i` is one
/// past the last cluster.
pub open spec fn start_of(rs: Seq<(int, int)>, i: int, total: int) -> int {
    if 0 <= i < rs.len() {
        rs[i].0
    } else {
        total
    }
}

/// Index one past the last cluster consumed by the scanner's main loop when
/// it starts at cluster `i` in `state`: the machine reads the first byte of
/// each cluster and steps, until a cluster read in `Normal` state does not
/// begin with `ESC` — that visible cluster is still consumed — or the
/// clusters run out.
pub open spec fn visible_end(
    bytes: Seq<u8>,
    rs: Seq<(int, int)>,
    i: int,
    state: EscapeState,
) -> int
    decreases rs.len() - i,
{
    if i < 0 || i >= rs.len() {
        i
    } else if state == EscapeState::Normal && bytes[rs[i].0] != ESCAPE {
        i + 1
    } else {
        visible_end(bytes, rs, i + 1, escape_transition(state, bytes[rs[i].0]))
    }
}

/// Length of the literal reset sequence at byte offset `off`, or 0 when none
/// of the three known forms starts there. The forms are `ESC c` (RIS),
/// `ESC [ m` (SGR reset, short) and `ESC [ 0 m` (SGR reset, long), checked
/// in that order.
pub open spec fn reset_prefix_len(bytes: Seq<u8>, off: int) -> int {
    if 0 <= off && off + 2 <= bytes.len() && bytes[off] == ESCAPE && bytes[off + 1] == 0x63 {
        2  // ESC c
    } else if 0 <= off && off + 3 <= bytes.len() && bytes[off] == ESCAPE && bytes[off + 1] == 0x5b
        && bytes[off + 2] == 0x6d {
        3  // ESC [ m
    } else if 0 <= off && off + 4 <= bytes.len() && bytes[off] == ESCAPE && bytes[off + 1] == 0x5b
        && bytes[off + 2] == 0x30 && bytes[off + 3] == 0x6d {
        4  // ESC [ 0 m
    } else {
        0
    }
}

/// Index one past the clusters absorbed by the trailing-reset lookahead that
/// starts at cluster `j`: while a known reset sequence starts exactly at the
/// frontier, the lookahead consumes every cluster up to and including the one
/// containing the reset's final byte — a cluster may extend past that byte
/// when combining characters follow — and then looks again.
pub open spec fn absorb_resets(bytes: Seq<u8>, rs: Seq<(int, int)>, j: int) -> int
    decreases rs.len() - j, 1int,
{
    if j < 0 || j >= rs.len() {
        j
    } else {
        let l = reset_prefix_len(bytes, rs[j].0);
        if l == 0 {
            j
        } else {
            absorb_through(bytes, rs, j, rs[j].0 + l - 1)
        }
    }
}

/// Index one past the cluster containing byte offset `t`, searching from
/// cluster `j` on, with the lookahead resumed after it.
pub open spec fn absorb_through(bytes: Seq<u8>, rs: Seq<(int, int)>, j: int, t: int) -> int
    decreases rs.len() - j, 0int,
{
    if j < 0 || j >= rs.len() {
        j
    } else if rs[j].1 <= t {
        absorb_through(bytes, rs, j + 1, t)
    } else {
        absorb_resets(bytes, rs, j + 1)
    }
}

/// Index one past the last cluster of the position that starts at cluster
/// `i`: the main loop followed by the trailing-reset lookahead.
pub open spec fn position_end(bytes: Seq<u8>, rs: Seq<(int, int)>, i: int) -> int {
    absorb_resets(bytes, rs, visible_end(bytes, rs, i, EscapeState::Normal))
}

/// The sequence of print positions emitted for the clusters from index `i`
/// on, each as a half-open byte range into `bytes`.
pub open spec fn scan_positions(bytes: Seq<u8>, rs: Seq<(int, int)>, i: int) -> Seq<(int, int)>
    decreases rs.len() - i,
    via scan_positions_decreases
{
    if i < 0 || i >= rs.len() {
        Seq::empty()
    } else {
        let j = position_end(bytes, rs, i);
        seq![(rs[i].0, start_of(rs, j, bytes.len() as int))] + scan_positions(bytes, rs, j)
    }
}

#[via_fn]
proof fn scan_positions_decreases(bytes: Seq<u8>, rs: Seq<(int, int)>, i: int) {
    if 0 <= i < rs.len() {
        lemma_position_end_bounds(bytes, rs, i);
    }
}

/// The main loop consumes at least the cluster it starts at and never runs
/// past the end of the segmentation.
pub proof fn lemma_visible_end_bounds(bytes: Seq<u8>, rs: Seq<(int, int)>, i: int, state: EscapeState)
    requires
        0 <= i,
    ensures
        i >= rs.len() ==> visible_end(bytes, rs, i, state) == i,
        i < rs.len() ==> i < visible_end(bytes, rs, i, state) <= rs.len(),
    decreases rs.len() - i,
{
    if i < rs.len() {
        if !(state == EscapeState::Normal && bytes[rs[i].0] != ESCAPE) {
            lemma_visible_end_bounds(bytes, rs, i + 1, escape_transition(state, bytes[rs[i].0]));
        }
    }
}

/// The trailing-reset lookahead never moves backwards and never runs past
/// the end of the segmentation.
pub proof fn lemma_absorb_resets_bounds(bytes: Seq<u8>, rs: Seq<(int, int)>, j: int)
    requires
        0 <= j,
    ensures
        j <= absorb_resets(bytes, rs, j),
        absorb_resets(bytes, rs, j) <= if j <= rs.len() { rs.len() as int } else { j },
    decreases rs.len() - j, 1int,
{
    if 0 <= j < rs.len() {
        let l = reset_prefix_len(bytes, rs[j].0);
        if l != 0 {
            lemma_absorb_through_bounds(bytes, rs, j, rs[j].0 + l - 1);
        }
    }
}

/// As [`lemma_absorb_resets_bounds`], for the cluster-skipping phase.
pub proof fn lemma_absorb_through_bounds(bytes: Seq<u8>, rs: Seq<(int, int)>, j: int, t: int)
    requires
        0 <= j,
    ensures
        j <= absorb_through(bytes, rs, j, t),
        absorb_through(bytes, rs, j, t) <= if j <= rs.len() { rs.len() as int } else { j },
    decreases rs.len() - j, 0int,
{
    if 0 <= j < rs.len() {
        if rs[j].1 <= t {
            lemma_absorb_through_bounds(bytes, rs, j + 1, t);
        } else {
            lemma_absorb_resets_bounds(bytes, rs, j + 1);
        }
    }
}

/// A position consumes at least one cluster and ends within the segmentation.
pub proof fn lemma_position_end_bounds(bytes: Seq<u8>, rs: Seq<(int, int)>, i: int)
    requires
        0 <= i < rs.len(),
    ensures
        i < position_end(bytes, rs, i) <= rs.len(),
{
    lemma_visible_end_bounds(bytes, rs, i, EscapeState::Normal);
    lemma_absorb_resets_bounds(bytes, rs, visible_end(bytes, rs, i, EscapeState::Normal));
}

/// Every range of a gapless chain lies between `start` and `total`.
pub proof fn lemma_positions_facts(ps: Seq<(int, int)>, start: int, total: int)
    requires
        positions_wf(ps, start, total),
    ensures
        start <= total,
        forall|k: int|
            0 <= k < ps.len() ==> start <= (#[trigger] ps[k]).0 && ps[k].0 < ps[k].1 && ps[k].1
                <= total,
    decreases ps.len(),
{
    if ps.len() > 0 {
        lemma_positions_facts(ps.drop_first(), ps[0].1, total);
        assert forall|k: int|
            0 <= k < ps.len() implies start <= (#[trigger] ps[k]).0 && ps[k].0 < ps[k].1 && ps[k].1
            <= total by {
            if k > 0 {
                assert(ps[k] == ps.drop_first()[k - 1]);
            }
        }
    }
}

/// Each range of a gapless chain ends exactly where the next one starts.
pub proof fn lemma_positions_adjacent(ps: Seq<(int, int)>, start: int, total: int, k: int)
    requires
        positions_wf(ps, start, total),
        0 <= k,
        k + 1 < ps.len(),
    ensures
        ps[k].1 == ps[k + 1].0,
    decreases k,
{
    let tail = ps.drop_first();
    if k == 0 {
        reveal_with_fuel(positions_wf, 2);
        assert(ps[1] == tail[0]);
    } else {
        lemma_positions_adjacent(tail, ps[0].1, total, k - 1);
        assert(ps[k] == tail[k - 1]);
        assert(ps[k + 1] == tail[k]);
    }
}

/// Ranges of a gapless chain do not overlap: an earlier range ends no later
/// than a later one starts.
pub proof fn lemma_positions_between(ps: Seq<(int, int)>, start: int, total: int, k: int, l: int)
    requires
        positions_wf(ps, start, total),
        0 <= k < l < ps.len(),
    ensures
        ps[k].1 <= ps[l].0,
    decreases l - k,
{
    lemma_positions_adjacent(ps, start, total, k);
    if k + 1 < l {
        lemma_positions_facts(ps, start, total);
        lemma_positions_between(ps, start, total, k + 1, l);
    }
}

/// The last range of a non-empty gapless chain ends at `total`.
pub proof fn lemma_positions_last(ps: Seq<(int, int)>, start: int, total: int)
    requires
        positions_wf(ps, start, total),
        ps.len() > 0,
    ensures
        ps[ps.len() - 1].1 == total,
    decreases ps.len(),
{
    let tail = ps.drop_first();
    if tail.len() == 0 {
        reveal_with_fuel(positions_wf, 2);
    } else {
        lemma_positions_last(tail, ps[0].1, total);
        assert(ps[ps.len() - 1] == tail[tail.len() - 1]);
    }
}

proof fn lemma_positions_wf_prepend(head: (int, int), tail: Seq<(int, int)>, mid: int, total: int)
    requires
        positions_wf(tail, mid, total),
        head.1 == mid,
        head.0 < head.1,
    ensures
        positions_wf(seq![head] + tail, head.0, total),
{
    let ps = seq![head] + tail;
    assert(ps[0] == head);
    assert(ps.drop_first() =~= tail);
}

/// The positions emitted from cluster `i` on form a gapless chain of
/// non-empty ranges from the start of cluster `i` to the end of the input.
pub proof fn lemma_scan_positions_cover(bytes: Seq<u8>, rs: Seq<(int, int)>, i: int)
    requires
        is_segmentation(rs, bytes.len() as int),
        0 <= i <= rs.len(),
    ensures
        positions_wf(
            scan_positions(bytes, rs, i),
            start_of(rs, i, bytes.len() as int),
            bytes.len() as int,
        ),
    decreases rs.len() - i,
{
    let total = bytes.len() as int;
    if i < rs.len() {
        let j = position_end(bytes, rs, i);
        lemma_position_end_bounds(bytes, rs, i);
        lemma_scan_positions_cover(bytes, rs, j);
        lemma_positions_facts(rs, 0, total);
        let head = (rs[i].0, start_of(rs, j, total));
        if j < rs.len() {
            lemma_positions_between(rs, 0, total, i, j);
        }
        lemma_positions_wf_prepend(head, scan_positions(bytes, rs, j), start_of(rs, j, total), total);
    }
}

/// Every emitted position starts at the start of some grapheme cluster.
pub proof fn lemma_scan_starts_at_clusters(bytes: Seq<u8>, rs: Seq<(int, int)>, i: int)
    requires
        0 <= i <= rs.len(),
    ensures
        forall|k: int|
            0 <= k < scan_positions(bytes, rs, i).len() ==> exists|j: int|
                0 <= j < rs.len() && (#[trigger] scan_positions(bytes, rs, i)[k]).0 == rs[j].0,
    decreases rs.len() - i,
{
    if i < rs.len() {
        let ps = scan_positions(bytes, rs, i);
        let j = position_end(bytes, rs, i);
        lemma_position_end_bounds(bytes, rs, i);
        lemma_scan_starts_at_clusters(bytes, rs, j);
        let tail = scan_positions(bytes, rs, j);
        assert forall|k: int|
            0 <= k < ps.len() implies exists|l: int|
            0 <= l < rs.len() && (#[trigger] ps[k]).0 == rs[l].0 by {
            if k == 0 {
                assert(0 <= i < rs.len() && ps[0].0 == rs[i].0);
            } else {
                assert(ps[k] == tail[k - 1]);
            }
        }
    }
}

/// The bytes of `bytes` selected by the ranges of `ps`, in order.
pub open spec fn concat_ranges(bytes: Seq<u8>, ps: Seq<(int, int)>) -> Seq<u8>
    decreases ps.len(),
{
    if ps.len() == 0 {
        Seq::empty()
    } else {
        bytes.subrange(ps[0].0, ps[0].1) + concat_ranges(bytes, ps.drop_first())
    }
}

/// Concatenating the slices of a gapless chain of ranges yields the slice
/// from the chain's start to its end: no byte is lost, duplicated or moved.
pub proof fn lemma_concat_of_cover(bytes: Seq<u8>, ps: Seq<(int, int)>, start: int)
    requires
        positions_wf(ps, start, bytes.len() as int),
        0 <= start <= bytes.len(),
    ensures
        concat_ranges(bytes, ps) == bytes.subrange(start, bytes.len() as int),
    decreases ps.len(),
{
    let total = bytes.len() as int;
    if ps.len() == 0 {
        assert(bytes.subrange(total, total) =~= Seq::<u8>::empty());
    } else {
        let head = ps[0];
        lemma_positions_facts(ps, start, total);
        lemma_concat_of_cover(bytes, ps.drop_first(), head.1);
        assert(bytes.subrange(start, head.1) + bytes.subrange(head.1, total) =~= bytes.subrange(
            start,
            total,
        ));
    }
}

/// On input without any `ESC` byte, every position is exactly one grapheme
/// cluster: the scan from cluster `i` on returns the clusters themselves.
pub proof fn lemma_scan_no_escape(bytes: Seq<u8>, rs: Seq<(int, int)>, i: int)
    requires
        is_segmentation(rs, bytes.len() as int),
        0 <= i <= rs.len(),
        forall|k: int| 0 <= k < bytes.len() ==> bytes[k] != ESCAPE,
    ensures
        scan_positions(bytes, rs, i) == rs.skip(i),
    decreases rs.len() - i,
{
    let total = bytes.len() as int;
    if i >= rs.len() {
        assert(rs.skip(i) =~= Seq::<(int, int)>::empty());
    } else {
        lemma_positions_facts(rs, 0, total);
        assert(visible_end(bytes, rs, i, EscapeState::Normal) == i + 1);
        assert(reset_prefix_len(bytes, start_of(rs, i + 1, total)) == 0);
        assert(position_end(bytes, rs, i) == i + 1);
        lemma_scan_no_escape(bytes, rs, i + 1);
        if i + 1 < rs.len() {
            lemma_positions_adjacent(rs, 0, total, i);
        } else {
            lemma_positions_last(rs, 0, total);
        }
        assert((rs[i].0, start_of(rs, i + 1, total)) == rs[i]);
        assert(scan_positions(bytes, rs, i) =~= rs.skip(i));
    }
}

} // verus!
