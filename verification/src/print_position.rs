//! Offset-and-slice view of the print-position scanner.
//!
//! [`PrintPositionIndices`] here returns each print position as a pair of
//! its start byte offset and its slice of the source string — the same
//! positions as the crate-level scanner, in a third item shape.

use vstd::prelude::*;
use vstd::string::StringSliceAdditionalSpecFns;

verus! {

/// Scanner view that returns each print position as a pair of its start
/// byte offset in the source string and the position's slice of it.
pub struct PrintPositionIndices<'a> {
    inner: crate::PrintPositionIndices<'a>,
}

/// Creates a [`PrintPositionIndices`] view over `s`.
#[allow(non_snake_case)]
pub fn new_printPositionIndices<'b>(s: &'b str) -> (it: PrintPositionIndices<'b>)
    ensures
        it.src() == s@,
        it.src_bytes() == s.spec_bytes(),
        it.remaining() == crate::print_positions_of(s@),
        it.cursor() == 0,
{
    PrintPositionIndices { inner: crate::print_position_indices(s) }
}

impl<'a> PrintPositionIndices<'a> {
    /// The characters of the source string.
    pub closed spec fn src(self) -> Seq<char> {
        self.inner.src()
    }

    /// The UTF-8 bytes of the source string.
    pub closed spec fn src_bytes(self) -> Seq<u8> {
        self.inner.src_bytes()
    }

    /// The print-position ranges not yet returned.
    pub closed spec fn remaining(self) -> Seq<(int, int)> {
        self.inner.remaining()
    }

    /// The byte offset where the next position starts.
    pub closed spec fn cursor(self) -> int {
        self.inner.cursor()
    }

    /// Returns the next print position as its start offset and its slice of
    /// the source string, or `None` when the string is exhausted.
    pub fn next(&mut self) -> (r: Option<(usize, &'a str)>)
        ensures
            final(self).src() == old(self).src(),
            final(self).src_bytes() == old(self).src_bytes(),
            old(self).remaining().len() == 0 ==> r is None && final(self).remaining()
                == old(self).remaining() && final(self).cursor() == old(self).cursor(),
            old(self).remaining().len() > 0 ==> ({
                &&& r matches Some(p)
                &&& p.0 as int == old(self).remaining()[0].0
                &&& p.0 as int == old(self).cursor()
                &&& p.1.spec_bytes() == old(self).src_bytes().subrange(
                    old(self).remaining()[0].0,
                    old(self).remaining()[0].1,
                )
                &&& final(self).remaining() == old(self).remaining().drop_first()
                &&& final(self).cursor() == old(self).remaining()[0].1
            }),
    {
        match self.inner.next() {
            Some((start, end)) => Some((start, self.inner.slice_range(start, end))),
            None => None,
        }
    }
}

} // verus!
