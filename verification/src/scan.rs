//! Finding the terminator of a line.

use vstd::prelude::*;
use vstd::slice::slice_subrange;

use crate::wire::{crlf_at, first_crlf, line_end, CR, LF};

verus! {

/// `memchr::memchr`: the index of the first byte of `haystack` that equals
/// `needle`, or `None` where no byte does.
pub assume_specification[ memchr::memchr ](needle: u8, haystack: &[u8]) -> (found: Option<usize>)
    ensures
        match found {
            Some(i) => {
                &&& i < haystack@.len()
                &&& haystack@[i as int] == needle
                &&& forall|j: int| 0 <= j < i ==> haystack@[j] != needle
            },
            None => forall|j: int| 0 <= j < haystack@.len() ==> haystack@[j] != needle,
        },
;

/// The first terminator at or after `pos` is the only offset that `line_end` can give.
pub proof fn lemma_line_end_is(s: Seq<u8>, pos: int, e: int)
    requires
        first_crlf(s, pos, e),
    ensures
        line_end(s, pos) == Some(e),
{
}

/// Looks for the first terminator of `bytes` at or after `pos`.
///
/// A carriage return with another byte than a line feed behind it is no
/// terminator, and the search goes on behind it.
pub fn next_crlf(bytes: &[u8], pos: usize) -> (found: Option<usize>)
    ensures
        match line_end(bytes@, pos as int) {
            Some(e) => found == Some(e as usize) && e + 2 <= bytes@.len() <= usize::MAX,
            None => found is None,
        },
{
    let len = bytes.len();
    let mut from: usize = pos;
    while from < len
        invariant
            pos <= from,
            len == bytes@.len(),
            forall|j: int| pos <= j < from ==> !crlf_at(bytes@, j),
        decreases len - from,
    {
        let rest = slice_subrange(bytes, from, len);
        match memchr::memchr(CR, rest) {
            None => {
                proof {
                    assert forall|j: int| pos <= j implies !crlf_at(bytes@, j) by {
                        if from <= j < len {
                            assert(rest@[j - from] == bytes@[j]);
                        }
                    }
                }
                return None;
            },
            Some(offset) => {
                let cr: usize = from + offset;
                assert forall|j: int| pos <= j < cr implies !crlf_at(bytes@, j) by {
                    if from <= j {
                        assert(rest@[j - from] == bytes@[j]);
                    }
                }
                if cr + 1 >= len {
                    return None;
                }
                if bytes[cr + 1] == LF {
                    proof {
                        lemma_line_end_is(bytes@, pos as int, cr as int);
                    }
                    return Some(cr);
                }
                from = cr + 1;
            },
        }
    }
    None
}

} // verus!
