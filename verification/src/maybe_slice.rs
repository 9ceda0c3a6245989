//! Offset-based references into a string buffer, in copyable form.
//!
//! A [`MaybeSlice`] stands for a sub-slice of some `str` as a pair of byte
//! offsets, like a [`StrRange`](crate::str_range::StrRange), and can be
//! copied freely.

use crate::str_range::addresses;
use crate::str_range::slice;
use std::ops::Range;
use vstd::prelude::*;
use vstd::string::StringSliceAdditionalSpecFns;
use vstd::utf8::is_char_boundary;

verus! {

/// A reference to a part of a `str`, held as byte offsets.
#[derive(Copy, Clone, Debug)]
pub struct MaybeSlice {
    start: usize,
    end: usize,
}

impl MaybeSlice {
    /// First byte offset of the slice.
    pub closed spec fn start(self) -> int {
        self.start as int
    }

    /// Byte offset one past the end of the slice.
    pub closed spec fn end(self) -> int {
        self.end as int
    }

    /// The slice does not end before it starts.
    #[verifier::type_invariant]
    pub open spec fn wf(self) -> bool {
        self.start() <= self.end()
    }

    /// The slice selects `part` out of `whole`.
    pub open spec fn selects(self, whole: Seq<u8>, part: Seq<u8>) -> bool {
        &&& 0 <= self.start() <= self.end() <= whole.len()
        &&& whole.subrange(self.start(), self.end()) == part
    }

    /// Create a [`MaybeSlice`] from two strings.
    ///
    /// Succeeds only if the memory of `inner` lies entirely within the memory
    /// of `outer`; a string that merely reads like a part of `outer` but is
    /// stored elsewhere is refused. Which of the two holds cannot be told
    /// from the texts alone, so the contract states what a returned slice
    /// is, not when one is returned.
    pub fn new(outer: &str, inner: &str) -> (r: Option<Self>)
        ensures
            r matches Some(found) ==> found.selects(outer.spec_bytes(), inner.spec_bytes()),
    {
        let (outer_begin, inner_begin) = addresses(outer, inner);
        Self::from_addresses(outer_begin, outer.len(), inner_begin, inner.len())
    }

    /// The slice that a block of `inner_len` bytes at address `inner_begin`
    /// occupies in a block of `outer_len` bytes at address `outer_begin`, if
    /// the first lies entirely within the second.
    pub fn from_addresses(
        outer_begin: usize,
        outer_len: usize,
        inner_begin: usize,
        inner_len: usize,
    ) -> (r: Option<Self>)
        requires
            outer_begin + outer_len <= usize::MAX,
            inner_begin + inner_len <= usize::MAX,
        ensures
            r is Some <==> outer_begin <= inner_begin && inner_begin + inner_len <= outer_begin
                + outer_len,
            r matches Some(found) ==> found.start() == inner_begin - outer_begin && found.end()
                == found.start() + inner_len,
    {
        let outer_end = outer_begin + outer_len;
        let inner_end = inner_begin + inner_len;
        if inner_begin < outer_begin || inner_end > outer_end {
            return None;
        }
        let start = inner_begin - outer_begin;
        Some(Self { start, end: start + inner_len })
    }

    /// Return a range for indexing a `str`.
    pub fn range(&self) -> (r: Range<usize>)
        ensures
            r.start == self.start(),
            r.end == self.end(),
    {
        self.start..self.end
    }

    /// Check if the `MaybeSlice` is empty.
    pub fn is_empty(&self) -> (r: bool)
        ensures
            r == (self.start() == self.end()),
    {
        self.start == self.end
    }

    /// Get the length of the `MaybeSlice`.
    pub fn len(&self) -> (r: usize)
        ensures
            r == self.end() - self.start(),
    {
        proof {
            use_type_invariant(self);
        }
        self.end - self.start
    }

    /// The part of `buffer` that the slice selects, if the slice lies
    /// within the buffer and begins and ends between two characters.
    pub fn get<'a>(self, buffer: &'a str) -> (part: Option<&'a str>)
        ensures
            part is Some <==> {
                &&& self.end() <= buffer.spec_bytes().len()
                &&& is_char_boundary(buffer.spec_bytes(), self.start())
                &&& is_char_boundary(buffer.spec_bytes(), self.end())
            },
            part matches Some(found) ==> self.selects(buffer.spec_bytes(), found.spec_bytes()),
    {
        if self.end <= buffer.as_bytes().len() && buffer.is_char_boundary(self.start)
            && buffer.is_char_boundary(self.end) {
            Some(self.index(buffer))
        } else {
            None
        }
    }

    /// The part of `buffer` that the slice selects.
    ///
    /// The slice has to lie within the buffer and to begin and end between
    /// two characters.
    pub fn index<'a>(self, buffer: &'a str) -> (part: &'a str)
        requires
            self.end() <= buffer.spec_bytes().len(),
            is_char_boundary(buffer.spec_bytes(), self.start()),
            is_char_boundary(buffer.spec_bytes(), self.end()),
        ensures
            self.selects(buffer.spec_bytes(), part.spec_bytes()),
    {
        proof {
            use_type_invariant(&self);
        }
        slice(buffer, self.start, self.end)
    }
}

} // verus!
