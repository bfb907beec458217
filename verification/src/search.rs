//! Byte search: where the next line-break byte stands.

use vstd::prelude::*;
use vstd::slice::slice_subrange;

verus! {

/// `r` is the first place in `s` that holds `a` or `b`, or `None` where `s`
/// holds neither.
pub open spec fn first_of(s: Seq<u8>, a: u8, b: u8, r: Option<usize>) -> bool {
    match r {
        Some(i) => {
            &&& i < s.len()
            &&& (s[i as int] == a || s[i as int] == b)
            &&& forall|j: int| 0 <= j < i ==> s[j] != a && s[j] != b
        },
        None => forall|j: int| 0 <= j < s.len() ==> s[j] != a && s[j] != b,
    }
}

/// `r` is the first place at or after `from` in `s` that holds `a` or `b`, or
/// `None` where no place from there on holds either.
pub open spec fn first_of_from(s: Seq<u8>, from: int, a: u8, b: u8, r: Option<usize>) -> bool {
    match r {
        Some(i) => {
            &&& from <= i < s.len()
            &&& (s[i as int] == a || s[i as int] == b)
            &&& forall|j: int| from <= j < i ==> s[j] != a && s[j] != b
        },
        None => forall|j: int| from <= j < s.len() ==> s[j] != a && s[j] != b,
    }
}

/// `memchr::memchr`, taken on trust: it returns the index of the first
/// occurrence of `needle` in `haystack`, which is less than the haystack's
/// length, or `None` where the byte does not occur.
pub assume_specification[ memchr::memchr ](needle: u8, haystack: &[u8]) -> (r: Option<usize>)
    ensures
        first_of(haystack@, needle, needle, r),
;

/// The first place at or after `from` where `needle` stands.
pub fn find_byte_from(needle: u8, s: &[u8], from: usize) -> (r: Option<usize>)
    requires
        from <= s@.len(),
    ensures
        first_of_from(s@, from as int, needle, needle, r),
{
    let tail = slice_subrange(s, from, s.len());
    match memchr::memchr(needle, tail) {
        Some(i) => {
            assert forall|j: int| from <= j < from + i implies s@[j] != needle by {
                assert(tail@[j - from] == s@[j]);
            }
            Some(from + i)
        },
        None => {
            assert forall|j: int| from <= j < s@.len() implies s@[j] != needle by {
                assert(tail@[j - from] == s@[j]);
            }
            None
        },
    }
}

/// `memchr::memchr2`, taken on trust: it returns the index of the first
/// occurrence of either needle in `haystack`, which is less than the
/// haystack's length, or `None` where neither byte occurs.
pub assume_specification[ memchr::memchr2 ](needle1: u8, needle2: u8, haystack: &[u8]) -> (r:
    Option<usize>)
    ensures
        first_of(haystack@, needle1, needle2, r),
;

/// The first place at or after `from` where `a` or `b` stands.
pub fn find_either_from(a: u8, b: u8, s: &[u8], from: usize) -> (r: Option<usize>)
    requires
        from <= s@.len(),
    ensures
        first_of_from(s@, from as int, a, b, r),
{
    let tail = slice_subrange(s, from, s.len());
    match memchr::memchr2(a, b, tail) {
        Some(i) => {
            assert forall|j: int| from <= j < from + i implies s@[j] != a && s@[j] != b by {
                assert(tail@[j - from] == s@[j]);
            }
            Some(from + i)
        },
        None => {
            assert forall|j: int| from <= j < s@.len() implies s@[j] != a && s@[j] != b by {
                assert(tail@[j - from] == s@[j]);
            }
            None
        },
    }
}

} // verus!
