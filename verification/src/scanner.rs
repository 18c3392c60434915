//! The print-position scanner and its two iteration views.
//!
//! [`PrintPositionIndices`] walks the source string once, left to right, and
//! emits each print position as a half-open byte range `(start, end)`;
//! [`PrintPositions`] emits the same positions as subslices of the source
//! string. Both expose the unconsumed suffix through `as_str`. The emitted
//! ranges follow [`crate::print_positions_of`] exactly: the escape
//! classification and the trailing-reset lookahead of [`crate::model`],
//! applied to the grapheme clusters of [`crate::segmentation`].

use vstd::prelude::*;
use vstd::string::StringSliceAdditionalSpecFns;
use vstd::utf8::encode_utf8_valid_utf8;
use vstd::utf8::is_char_boundary;
use vstd::utf8::is_char_boundary_iff_not_is_continuation_byte;
use vstd::utf8::is_char_boundary_start_end_of_seq;
use vstd::utf8::valid_utf8_split;

use crate::model::ESCAPE;
use crate::model::EscapeState;
use crate::model::absorb_resets;
use crate::model::absorb_through;
use crate::model::escape_transition;
use crate::model::is_segmentation;
use crate::model::lemma_positions_between;
use crate::model::lemma_positions_facts;
use crate::model::lemma_visible_end_bounds;
use crate::model::position_end;
use crate::model::reset_prefix_len;
use crate::model::scan_positions;
use crate::model::start_of;
use crate::model::visible_end;
use crate::segmentation::grapheme_bounds;
use crate::segmentation::grapheme_cluster_ranges;
use crate::segmentation::print_positions_of;
use crate::segmentation::range_view;

verus! {

/// Scanner that returns each print position of a string as a pair of byte
/// offsets `(start, end)`: a half-open range into the source string.
pub struct PrintPositionIndices<'a> {
    // the source string; all outputs are ranges into it.
    string: &'a str,
    // the source string's UTF-8 bytes.
    bytes: &'a [u8],
    // the grapheme cluster ranges of the string, as (start, end) offsets.
    clusters: Vec<(usize, usize)>,
    // index of the first cluster not yet consumed.
    cluster_idx: usize,
}

impl<'a> PrintPositionIndices<'a> {
    #[verifier::type_invariant]
    spec fn wf(self) -> bool {
        &&& self.bytes@ == self.string.spec_bytes()
        &&& range_view(self.clusters@) == grapheme_bounds(self.string@)
        &&& is_segmentation(range_view(self.clusters@), self.bytes@.len() as int)
        &&& forall|k: int|
            0 <= k < self.clusters@.len() ==> is_char_boundary(
                self.bytes@,
                (#[trigger] self.clusters@[k]).0 as int,
            )
        &&& self.cluster_idx <= self.clusters@.len()
    }

    /// The characters of the source string.
    pub closed spec fn src(self) -> Seq<char> {
        self.string@
    }

    /// The UTF-8 bytes of the source string.
    pub closed spec fn src_bytes(self) -> Seq<u8> {
        self.string.spec_bytes()
    }

    /// The print-position ranges not yet returned.
    pub closed spec fn remaining(self) -> Seq<(int, int)> {
        scan_positions(self.bytes@, range_view(self.clusters@), self.cluster_idx as int)
    }

    /// The byte offset where the next position starts: everything before it
    /// has been returned, everything from it on has not.
    pub closed spec fn cursor(self) -> int {
        start_of(
            range_view(self.clusters@),
            self.cluster_idx as int,
            self.bytes@.len() as int,
        )
    }
}

/// Creates a [`PrintPositionIndices`] scanner over `s`.
pub fn print_position_indices<'a>(s: &'a str) -> (it: PrintPositionIndices<'a>)
    ensures
        it.src() == s@,
        it.src_bytes() == s.spec_bytes(),
        it.remaining() == print_positions_of(s@),
        it.cursor() == 0,
{
    let bytes = s.as_bytes();
    let clusters = grapheme_cluster_ranges(s);
    let it = PrintPositionIndices { string: s, bytes, clusters, cluster_idx: 0 };
    proof {
        let rs = range_view(it.clusters@);
        if rs.len() > 0 {
            assert(rs[0].0 == 0);
        }
        assert(it.cursor() == 0);
    }
    it
}

impl<'a> PrintPositionIndices<'a> {
    /// The unconsumed suffix of the source string, from the cursor on.
    pub fn as_str(&self) -> (r: &'a str)
        ensures
            r.spec_bytes() == self.src_bytes().subrange(
                self.cursor(),
                self.src_bytes().len() as int,
            ),
    {
        proof {
            use_type_invariant(&*self);
        }
        let n = self.clusters.len();
        let cur: usize = if self.cluster_idx < n {
            self.clusters[self.cluster_idx].0
        } else {
            self.bytes.len()
        };
        proof {
            let rs = range_view(self.clusters@);
            let idx = self.cluster_idx as int;
            encode_utf8_valid_utf8(self.string@);
            is_char_boundary_start_end_of_seq(self.string.spec_bytes());
            lemma_positions_facts(rs, 0, self.bytes@.len() as int);
            if self.cluster_idx < n {
                assert(rs[idx].0 == self.clusters@[idx].0 as int);
                assert(is_char_boundary(self.bytes@, self.clusters@[idx].0 as int));
            }
        }
        slice_between(self.string, cur, self.bytes.len())
    }

    /// The print position slice for the byte range `start..end` of the
    /// source string, for ranges whose endpoints lie on grapheme or string
    /// boundaries, as those returned by `next`.
    pub fn slice_range(&self, start: usize, end: usize) -> (r: &'a str)
        requires
            start <= end <= self.src_bytes().len(),
            is_char_boundary(self.src_bytes(), start as int),
            is_char_boundary(self.src_bytes(), end as int),
        ensures
            r.spec_bytes() == self.src_bytes().subrange(start as int, end as int),
    {
        slice_between(self.string, start, end)
    }

    /// Returns the next print position as byte offsets `(start, end)` into
    /// the source string, or `None` when the string is exhausted.
    #[verifier::loop_isolation(false)]
    pub fn next(&mut self) -> (r: Option<(usize, usize)>)
        ensures
            final(self).src() == old(self).src(),
            final(self).src_bytes() == old(self).src_bytes(),
            old(self).remaining().len() == 0 ==> r is None && final(self).remaining()
                == old(self).remaining() && final(self).cursor() == old(self).cursor(),
            old(self).remaining().len() > 0 ==> ({
                &&& r matches Some(p)
                &&& p.0 as int == old(self).remaining()[0].0
                &&& p.1 as int == old(self).remaining()[0].1
                &&& p.0 < p.1 <= old(self).src_bytes().len()
                &&& p.0 as int == old(self).cursor()
                &&& is_char_boundary(old(self).src_bytes(), p.0 as int)
                &&& is_char_boundary(old(self).src_bytes(), p.1 as int)
                &&& final(self).remaining() == old(self).remaining().drop_first()
                &&& final(self).cursor() == p.1 as int
            }),
    {
        proof {
            use_type_invariant(&*self);
        }
        let ghost bs = self.bytes@;
        let ghost rs = range_view(self.clusters@);
        let ghost total_i = bs.len() as int;
        let n = self.clusters.len();
        let total = self.bytes.len();
        if self.cluster_idx >= n {
            proof {
                assert(old(self).remaining() =~= Seq::<(int, int)>::empty());
            }
            return None;
        }
        proof {
            lemma_positions_facts(rs, 0, total_i);
        }
        let i0 = self.cluster_idx;
        let start = self.clusters[i0].0;

        // Main loop: run the escape-classification machine cluster by
        // cluster until it has taken one visible cluster or the string ends.
        let mut i = i0;
        let mut state = EscapeState::Normal;
        let mut done: bool = false;
        while !done && i < n
            invariant
                i0 <= i <= n,
                !done ==> visible_end(bs, rs, i0 as int, EscapeState::Normal) == visible_end(
                    bs,
                    rs,
                    i as int,
                    state,
                ),
                done ==> visible_end(bs, rs, i0 as int, EscapeState::Normal) == i as int,
            decreases n - i + (if done { 0int } else { 1int }),
        {
            let ghost prev_i = i as int;
            let ghost prev_state = state;
            let cs = self.clusters[i].0;
            proof {
                assert(rs[prev_i].0 == cs as int);
            }
            let b = self.bytes[cs];
            i = i + 1;
            match state {
                EscapeState::Normal => {
                    if b == ESCAPE {
                        state = EscapeState::EscapeSeen;
                    } else {
                        // The visible cluster: the position ends after it.
                        done = true;
                    }
                },
                EscapeState::EscapeSeen => {
                    if b == 0x5b {  // '[' introduces a CSI
                        state = EscapeState::CsiSeen;
                    } else if b == 0x5d {  // ']' introduces an OSC
                        state = EscapeState::OscSeen;
                    } else {
                        // A single-byte terminator (0x40..=0x5f) completes
                        // the escape; any other byte is malformed and ends
                        // it silently. Either way keep accumulating.
                        state = EscapeState::Normal;
                    }
                },
                EscapeState::CsiSeen => {
                    if 0x20 <= b && b <= 0x3f {
                        // Parameter or intermediate byte: stay in the CSI.
                    } else {
                        // Final byte (0x40..=0x7e) ends the CSI; anything
                        // else is malformed and ends it silently.
                        state = EscapeState::Normal;
                    }
                },
                EscapeState::OscSeen => {
                    if b == 0x07 {
                        // BEL terminates the OSC on some emulators.
                        state = EscapeState::Normal;
                    } else if b == ESCAPE {
                        state = EscapeState::OscSeenEscape;
                    }
                    // anything else stays in OSC accumulation
                },
                EscapeState::OscSeenEscape => {
                    if b == 0x5c {  // backslash: ESC \ terminator complete
                        state = EscapeState::Normal;
                    } else if b == ESCAPE {
                        state = EscapeState::OscSeenEscape;
                    } else {
                        state = EscapeState::OscSeen;
                    }
                },
            }
            proof {
                if done {
                    assert(visible_end(bs, rs, prev_i, prev_state) == prev_i + 1);
                } else {
                    assert(visible_end(bs, rs, prev_i, prev_state) == visible_end(
                        bs,
                        rs,
                        prev_i + 1,
                        escape_transition(prev_state, bs[rs[prev_i].0]),
                    ));
                    assert(state == escape_transition(prev_state, bs[rs[prev_i].0]));
                }
            }
        }
        let ghost ve = visible_end(bs, rs, i0 as int, EscapeState::Normal);
        proof {
            assert(ve == i as int);
            lemma_visible_end_bounds(bs, rs, i0 as int, EscapeState::Normal);
        }

        // Trailing-reset lookahead: while one of the literal reset sequences
        // starts exactly at the frontier, absorb every cluster up to and
        // including the one containing its final byte, then look again.
        let mut scanning: bool = true;
        while scanning
            invariant
                i0 < i <= n,
                scanning ==> absorb_resets(bs, rs, ve) == absorb_resets(bs, rs, i as int),
                !scanning ==> absorb_resets(bs, rs, ve) == i as int,
            decreases n - i + (if scanning { 1int } else { 0int }),
        {
            if i >= n {
                scanning = false;
            } else {
                let off = self.clusters[i].0;
                proof {
                    assert(rs[i as int].0 == off as int);
                }
                let l: usize = if total - off >= 2 && self.bytes[off] == ESCAPE
                    && self.bytes[off + 1] == 0x63 {
                    2  // ESC c
                } else if total - off >= 3 && self.bytes[off] == ESCAPE && self.bytes[off + 1]
                    == 0x5b && self.bytes[off + 2] == 0x6d {
                    3  // ESC [ m
                } else if total - off >= 4 && self.bytes[off] == ESCAPE && self.bytes[off + 1]
                    == 0x5b && self.bytes[off + 2] == 0x30 && self.bytes[off + 3] == 0x6d {
                    4  // ESC [ 0 m
                } else {
                    0
                };
                proof {
                    assert(l as int == reset_prefix_len(bs, off as int));
                }
                if l == 0 {
                    scanning = false;
                } else {
                    let t = off + l - 1;
                    let ghost entry = i as int;
                    proof {
                        assert(absorb_resets(bs, rs, entry) == absorb_through(
                            bs,
                            rs,
                            entry,
                            t as int,
                        ));
                    }
                    // Skip the clusters that end at or before the reset's
                    // final byte; the cluster containing that byte may run
                    // further when combining characters follow it.
                    while i < n && self.clusters[i].1 <= t
                        invariant
                            entry <= i <= n,
                            absorb_resets(bs, rs, ve) == absorb_through(bs, rs, i as int, t as int),
                        decreases n - i,
                    {
                        proof {
                            assert(rs[i as int].1 == self.clusters@[i as int].1 as int);
                        }
                        i = i + 1;
                    }
                    if i < n {
                        proof {
                            assert(rs[i as int].1 == self.clusters@[i as int].1 as int);
                            assert(absorb_through(bs, rs, i as int, t as int) == absorb_resets(
                                bs,
                                rs,
                                i as int + 1,
                            ));
                        }
                        i = i + 1;
                    }
                }
            }
        }
        proof {
            assert(position_end(bs, rs, i0 as int) == i as int);
        }

        // Emit the assembled position and advance the cursor.
        let end: usize = if i < n {
            self.clusters[i].0
        } else {
            total
        };
        proof {
            assert(end as int == start_of(rs, i as int, total_i));
            if i < n {
                lemma_positions_between(rs, 0, total_i, i0 as int, i as int);
            }
            assert(old(self).remaining() == seq![(rs[i0 as int].0, end as int)] + scan_positions(
                bs,
                rs,
                i as int,
            ));
            assert(old(self).remaining()[0] == (rs[i0 as int].0, end as int));
            assert(old(self).remaining().drop_first() =~= scan_positions(bs, rs, i as int));
            encode_utf8_valid_utf8(self.string@);
            is_char_boundary_start_end_of_seq(bs);
        }
        self.cluster_idx = i;
        Some((start, end))
    }
}

/// The subslice of `s` between two byte offsets that lie on character
/// boundaries.
fn slice_between<'s>(s: &'s str, start: usize, end: usize) -> (r: &'s str)
    requires
        start <= end <= s.spec_bytes().len(),
        is_char_boundary(s.spec_bytes(), start as int),
        is_char_boundary(s.spec_bytes(), end as int),
    ensures
        r.spec_bytes() == s.spec_bytes().subrange(start as int, end as int),
{
    let ghost sb = s.spec_bytes();
    proof {
        encode_utf8_valid_utf8(s@);
        valid_utf8_split(sb, end as int);
        let pre_sb = sb.subrange(0, end as int);
        if start < end {
            is_char_boundary_iff_not_is_continuation_byte(sb, start as int);
            is_char_boundary_iff_not_is_continuation_byte(pre_sb, start as int);
        } else {
            is_char_boundary_start_end_of_seq(pre_sb);
        }
    }
    let (pre, _) = s.split_at(end);
    let (_, r) = pre.split_at(start);
    proof {
        assert(r.spec_bytes() =~= s.spec_bytes().subrange(start as int, end as int));
    }
    r
}

/// Scanner that returns each print position of a string as a subslice of
/// the source string.
pub struct PrintPositions<'a> {
    inner: PrintPositionIndices<'a>,
}

/// Creates a [`PrintPositions`] scanner over `s`.
pub fn print_positions<'a>(s: &'a str) -> (it: PrintPositions<'a>)
    ensures
        it.src() == s@,
        it.src_bytes() == s.spec_bytes(),
        it.remaining() == print_positions_of(s@),
        it.cursor() == 0,
{
    PrintPositions { inner: print_position_indices(s) }
}

impl<'a> PrintPositions<'a> {
    /// The characters of the source string.
    pub closed spec fn src(self) -> Seq<char> {
        self.inner.src()
    }

    /// The UTF-8 bytes of the source string.
    pub closed spec fn src_bytes(self) -> Seq<u8> {
        self.inner.src_bytes()
    }

    /// The print-position ranges not yet returned.
    pub closed spec fn remaining(self) -> Seq<(int, int)> {
        self.inner.remaining()
    }

    /// The byte offset where the next position starts.
    pub closed spec fn cursor(self) -> int {
        self.inner.cursor()
    }

    /// The unconsumed suffix of the source string, from the cursor on.
    pub fn as_str(&self) -> (r: &'a str)
        ensures
            r.spec_bytes() == self.src_bytes().subrange(
                self.cursor(),
                self.src_bytes().len() as int,
            ),
    {
        self.inner.as_str()
    }

    /// Returns the next print position as a subslice of the source string,
    /// or `None` when the string is exhausted.
    pub fn next(&mut self) -> (r: Option<&'a str>)
        ensures
            final(self).src() == old(self).src(),
            final(self).src_bytes() == old(self).src_bytes(),
            old(self).remaining().len() == 0 ==> r is None && final(self).remaining()
                == old(self).remaining() && final(self).cursor() == old(self).cursor(),
            old(self).remaining().len() > 0 ==> ({
                &&& r matches Some(t)
                &&& t.spec_bytes() == old(self).src_bytes().subrange(
                    old(self).remaining()[0].0,
                    old(self).remaining()[0].1,
                )
                &&& final(self).remaining() == old(self).remaining().drop_first()
                &&& final(self).cursor() == old(self).remaining()[0].1
            }),
    {
        match self.inner.next() {
            Some((start, end)) => Some(self.inner.slice_range(start, end)),
            None => None,
        }
    }
}

} // verus!
