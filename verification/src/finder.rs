//! Substring search by the `memchr` crate.

use memchr::memmem;
use vstd::prelude::*;

verus! {

/// Makes `memchr::memmem::Finder` known to the verifier, as an opaque type.
#[verifier::external_type_specification]
#[verifier::external_body]
pub struct ExFinder<'n>(memmem::Finder<'n>);

/// The needle that a finder was built for, which is what
/// `memchr::memmem::Finder::needle` returns.
pub uninterp spec fn finder_needle(finder: memmem::Finder<'static>) -> Seq<u8>;

/// Whether `needle` stands in `haystack` at position `at`.
pub open spec fn occurs_at(haystack: Seq<u8>, needle: Seq<u8>, at: int) -> bool {
    &&& 0 <= at
    &&& at + needle.len() <= haystack.len()
    &&& haystack.subrange(at, at + needle.len()) == needle
}

/// The first occurrence of `needle` in `line` at or after `offset`.
pub open spec fn first_occurrence(line: Seq<u8>, needle: Seq<u8>, offset: usize) -> Option<int> {
    if exists|at: int| is_first_occurrence(line, needle, offset, at) {
        Some(choose|at: int| is_first_occurrence(line, needle, offset, at))
    } else {
        None
    }
}

/// Whether `at` is the first place at or after `offset` where `needle` occurs
/// in `line`.
pub open spec fn is_first_occurrence(
    line: Seq<u8>,
    needle: Seq<u8>,
    offset: usize,
    at: int,
) -> bool {
    &&& offset <= at
    &&& occurs_at(line, needle, at)
    &&& forall|i: int| offset <= i < at ==> !occurs_at(line, needle, i)
}

/// There is at most one first occurrence.
pub proof fn lemma_first_occurrence(line: Seq<u8>, needle: Seq<u8>, offset: usize, at: int)
    requires
        is_first_occurrence(line, needle, offset, at),
    ensures
        first_occurrence(line, needle, offset) == Some(at),
{
    let other = choose|i: int| is_first_occurrence(line, needle, offset, i);
    assert(is_first_occurrence(line, needle, offset, other));
    assert(other == at) by {
        if other < at {
            assert(!occurs_at(line, needle, other));
        } else if at < other {
            assert(!occurs_at(line, needle, at));
        }
    }
}

/// `memchr::memmem::Finder::new`, then `into_owned`: a finder that owns a copy
/// of `needle` and searches for it.
#[verifier::external_body]
pub(crate) fn new_finder(needle: &[u8]) -> (finder: memmem::Finder<'static>)
    ensures
        finder_needle(finder) == needle@,
{
    memmem::Finder::new(needle).into_owned()
}

/// `memchr::memmem::Finder::find`: the position of the first occurrence of the
/// finder's needle in `haystack`, or `None` where it does not occur.
#[verifier::external_body]
pub(crate) fn find(finder: &memmem::Finder<'static>, haystack: &[u8]) -> (found: Option<usize>)
    ensures
        match found {
            Some(at) => {
                &&& occurs_at(haystack@, finder_needle(*finder), at as int)
                &&& forall|i: int| i < at ==> !occurs_at(haystack@, finder_needle(*finder), i)
            },
            None => forall|i: int| !occurs_at(haystack@, finder_needle(*finder), i),
        },
{
    finder.find(haystack)
}

} // verus!
