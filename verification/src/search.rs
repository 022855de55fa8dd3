//! The operation being benchmarked: a linear scan that stops at the first
//! element equal to the target.

use vstd::prelude::*;

verus! {

/// Scans `haystack` from index 0 and reports whether any element equals
/// `needle`, stopping at the first match.
pub fn contains_target(haystack: &Vec<i32>, needle: i32) -> (found: bool)
    ensures
        found == haystack@.contains(needle),
{
    let n = haystack.len();
    let mut i: usize = 0;
    while i < n
        invariant
            n == haystack@.len(),
            i <= n,
            forall|j: int| 0 <= j < i ==> haystack@[j] != needle,
        decreases n - i,
    {
        if haystack[i] == needle {
            assert(haystack@.contains(needle));
            return true;
        }
        i += 1;
    }
    assert(!haystack@.contains(needle));
    false
}

} // verus!
