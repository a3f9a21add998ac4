//! Finding a byte in a run of bytes.

use vstd::prelude::*;

verus! {

/// The index at which `needle` first stands in `haystack`, if it stands
/// there at all.
pub open spec fn first_position(haystack: Seq<u8>, needle: u8) -> Option<int>
    decreases haystack.len(),
{
    if haystack.len() == 0 {
        None
    } else if haystack[0] == needle {
        Some(0)
    } else {
        match first_position(haystack.drop_first(), needle) {
            Some(index) => Some(index + 1),
            None => None,
        }
    }
}

/// An index found by a search, as a mathematical integer.
pub open spec fn position_of(found: Option<usize>) -> Option<int> {
    match found {
        Some(index) => Some(index as int),
        None => None,
    }
}

/// `memchr::memchr`: the index of the first byte of `haystack` that equals
/// `needle`, or `None` where no byte of it does.
pub assume_specification[ memchr::memchr ](needle: u8, haystack: &[u8]) -> (found: Option<usize>)
    ensures
        match found {
            Some(index) => {
                &&& index < haystack@.len()
                &&& haystack@[index as int] == needle
                &&& forall|j: int| 0 <= j < index ==> haystack@[j] != needle
            },
            None => forall|j: int| 0 <= j < haystack@.len() ==> haystack@[j] != needle,
        },
;

/// `first_position` is the one index that holds the needle with no needle
/// before it.
pub proof fn lemma_first_position(haystack: Seq<u8>, needle: u8)
    ensures
        match first_position(haystack, needle) {
            Some(index) => {
                &&& 0 <= index < haystack.len()
                &&& haystack[index] == needle
                &&& forall|j: int| 0 <= j < index ==> haystack[j] != needle
            },
            None => forall|j: int| 0 <= j < haystack.len() ==> haystack[j] != needle,
        },
    decreases haystack.len(),
{
    if haystack.len() == 0 || haystack[0] == needle {
    } else {
        let rest = haystack.drop_first();
        lemma_first_position(rest, needle);
        match first_position(rest, needle) {
            Some(index) => {
                assert forall|j: int| 0 <= j < index + 1 implies haystack[j] != needle by {
                    if j > 0 {
                        assert(haystack[j] == rest[j - 1]);
                    }
                }
            },
            None => {
                assert forall|j: int| 0 <= j < haystack.len() implies haystack[j] != needle by {
                    if j > 0 {
                        assert(haystack[j] == rest[j - 1]);
                    }
                }
            },
        }
    }
}

} // verus!
