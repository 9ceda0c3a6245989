//! Offset-based references into a string buffer.
//!
//! A [`StrRange`] stands for a sub-slice of some `str` as a pair of byte
//! offsets. Keeping offsets instead of borrowed slices lets a container own
//! a buffer together with references into that same buffer.

use std::ops::Range;
use vstd::prelude::*;
use vstd::string::StringSliceAdditionalSpecFns;
use vstd::utf8::*;

verus! {

/// A reference to a part of a `str`, held as byte offsets.
#[derive(Clone, Copy, Debug)]
pub struct StrRange {
    start: usize,
    end: usize,
}

/// The addresses at which the bytes of `outer` and of `inner` begin
/// (`str::as_ptr`, read as integers).
///
/// Nothing is claimed about where a string lies. What is claimed: a string's
/// bytes end within the address space, and whenever the bytes of `inner` lie
/// inside the bytes of `outer`, both strings show the same memory there, so
/// the bytes agree.
#[verifier::external_body]
pub(crate) fn addresses(outer: &str, inner: &str) -> (at: (usize, usize))
    ensures
        at.0 + outer.spec_bytes().len() <= usize::MAX,
        at.1 + inner.spec_bytes().len() <= usize::MAX,
        at.0 <= at.1 && at.1 + inner.spec_bytes().len() <= at.0 + outer.spec_bytes().len()
            ==> outer.spec_bytes().subrange(
            at.1 - at.0,
            at.1 - at.0 + inner.spec_bytes().len(),
        ) == inner.spec_bytes(),
{
    (outer.as_ptr() as usize, inner.as_ptr() as usize)
}

/// The part of `buffer` from byte offset `start` up to, not including,
/// `end`.
pub fn slice<'a>(buffer: &'a str, start: usize, end: usize) -> (part: &'a str)
    requires
        start <= end <= buffer.spec_bytes().len(),
        is_char_boundary(buffer.spec_bytes(), start as int),
        is_char_boundary(buffer.spec_bytes(), end as int),
    ensures
        part.spec_bytes() == buffer.spec_bytes().subrange(start as int, end as int),
{
    broadcast use {
        encode_utf8_valid_utf8,
        is_char_boundary_start_end_of_seq,
        is_char_boundary_iff_not_is_continuation_byte,
    };

    let (head, _) = buffer.split_at(end);
    proof {
        let whole = buffer.spec_bytes();
        let front = head.spec_bytes();
        assert(front == whole.subrange(0, end as int));
        assert(valid_utf8(whole));
        assert(valid_utf8(front));
        if start < end {
            assert(front[start as int] == whole[start as int]);
            assert(is_char_boundary(whole, start as int) <==> !is_continuation_byte(
                whole[start as int],
            ));
            assert(is_char_boundary(front, start as int) <==> !is_continuation_byte(
                front[start as int],
            ));
        } else {
            assert(is_char_boundary(front, front.len() as int));
        }
    }
    let (_, part) = head.split_at(start);
    proof {
        assert(part.spec_bytes() =~= buffer.spec_bytes().subrange(start as int, end as int));
    }
    part
}

impl StrRange {
    /// First byte offset of the range.
    pub closed spec fn start(self) -> int {
        self.start as int
    }

    /// Byte offset one past the end of the range.
    pub closed spec fn end(self) -> int {
        self.end as int
    }

    /// The range is ordered: it does not end before it starts.
    #[verifier::type_invariant]
    pub open spec fn wf(self) -> bool {
        self.start() <= self.end()
    }

    /// The range selects `part` out of `whole`.
    pub open spec fn selects(self, whole: Seq<u8>, part: Seq<u8>) -> bool {
        &&& 0 <= self.start() <= self.end() <= whole.len()
        &&& whole.subrange(self.start(), self.end()) == part
    }

    /// The range from byte offset `start` up to, not including, `end`.
    pub(crate) fn between(start: usize, end: usize) -> (r: Self)
        requires
            start <= end,
        ensures
            r.start() == start,
            r.end() == end,
    {
        Self { start, end }
    }

    /// Create a [`StrRange`] from two strings.
    ///
    /// Succeeds only if the memory of `inner` lies entirely within the memory
    /// of `outer`; a string that merely reads like a part of `outer` but is
    /// stored elsewhere is refused. Which of the two holds cannot be told
    /// from the texts alone, so the contract states what a returned range is,
    /// not when one is returned.
    pub fn new(outer: &str, inner: &str) -> (r: Option<Self>)
        ensures
            r matches Some(range) ==> range.selects(outer.spec_bytes(), inner.spec_bytes()),
    {
        let (outer_begin, inner_begin) = addresses(outer, inner);
        Self::from_addresses(outer_begin, outer.len(), inner_begin, inner.len())
    }

    /// The range that a block of `inner_len` bytes at address `inner_begin`
    /// occupies in a block of `outer_len` bytes at address `outer_begin`, if
    /// the first lies entirely within the second.
    pub fn from_addresses(
        outer_begin: usize,
        outer_len: usize,
        inner_begin: usize,
        inner_len: usize,
    ) -> (r: Option<Self>)
        requires
            outer_begin + outer_len <= usize::MAX,
            inner_begin + inner_len <= usize::MAX,
        ensures
            r is Some <==> outer_begin <= inner_begin && inner_begin + inner_len <= outer_begin
                + outer_len,
            r matches Some(range) ==> range.start() == inner_begin - outer_begin && range.end()
                == range.start() + inner_len,
    {
        let outer_end = outer_begin + outer_len;
        let inner_end = inner_begin + inner_len;
        if inner_begin < outer_begin || inner_end > outer_end {
            return None;
        }
        let start = inner_begin - outer_begin;
        Some(Self { start, end: start + inner_len })
    }

    /// The part of `buffer` that the range selects.
    ///
    /// The range has to lie within the buffer and to begin and end between
    /// two characters.
    pub fn resolve<'a>(&self, buffer: &'a str) -> (part: &'a str)
        requires
            self.end() <= buffer.spec_bytes().len(),
            is_char_boundary(buffer.spec_bytes(), self.start()),
            is_char_boundary(buffer.spec_bytes(), self.end()),
        ensures
            self.selects(buffer.spec_bytes(), part.spec_bytes()),
    {
        proof {
            use_type_invariant(self);
        }
        slice(buffer, self.start, self.end)
    }

    /// The part of `buffer` that the range selects, if the range lies
    /// within the buffer and begins and ends between two characters.
    pub fn try_resolve<'a>(&self, buffer: &'a str) -> (part: Option<&'a str>)
        ensures
            part is Some <==> {
                &&& self.end() <= buffer.spec_bytes().len()
                &&& is_char_boundary(buffer.spec_bytes(), self.start())
                &&& is_char_boundary(buffer.spec_bytes(), self.end())
            },
            part matches Some(found) ==> self.selects(buffer.spec_bytes(), found.spec_bytes()),
    {
        if self.end <= buffer.as_bytes().len() && buffer.is_char_boundary(self.start)
            && buffer.is_char_boundary(self.end) {
            Some(self.resolve(buffer))
        } else {
            None
        }
    }

    /// Check if the range is empty.
    pub fn is_empty(&self) -> (r: bool)
        ensures
            r == (self.start() >= self.end()),
    {
        self.start >= self.end
    }

    /// Return a range for indexing a `str`.
    pub fn range(&self) -> (r: Range<usize>)
        ensures
            r.start == self.start(),
            r.end == self.end(),
    {
        self.start..self.end
    }
}

} // verus!
