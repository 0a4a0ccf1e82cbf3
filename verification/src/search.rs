//! Occurrences of one sequence inside another, and the search for the first.
use vstd::prelude::*;

verus! {

/// `pattern` stands in `text` as a contiguous run that begins at index `at`.
pub open spec fn occurs_at<T>(text: Seq<T>, pattern: Seq<T>, at: int) -> bool {
    &&& 0 <= at
    &&& at + pattern.len() <= text.len()
    &&& text.subrange(at, at + pattern.len()) =~= pattern
}

/// `pattern` occurs in `text` at `at` and nowhere before.
pub open spec fn is_first_occurrence<T>(text: Seq<T>, pattern: Seq<T>, at: int) -> bool {
    &&& occurs_at(text, pattern, at)
    &&& forall|earlier: int| 0 <= earlier < at ==> !occurs_at(text, pattern, earlier)
}

/// The least index at which `pattern` occurs in `text`, if it occurs at all.
pub open spec fn first_occurrence<T>(text: Seq<T>, pattern: Seq<T>) -> Option<int> {
    if exists|at: int| occurs_at(text, pattern, at) {
        Some(choose|at: int| is_first_occurrence(text, pattern, at))
    } else {
        None
    }
}

/// Among the occurrences up to `bound` there is a first one.
proof fn lemma_least_occurrence<T>(text: Seq<T>, pattern: Seq<T>, bound: int) -> (least: int)
    requires
        occurs_at(text, pattern, bound),
    ensures
        is_first_occurrence(text, pattern, least),
        least <= bound,
    decreases bound,
{
    if exists|earlier: int| 0 <= earlier < bound && occurs_at(text, pattern, earlier) {
        let earlier = choose|earlier: int| 0 <= earlier < bound && occurs_at(text, pattern, earlier);
        lemma_least_occurrence(text, pattern, earlier)
    } else {
        bound
    }
}

/// `first_occurrence` is what its name says: where it gives an index, the
/// pattern occurs there and nowhere before; where it gives none, the pattern
/// occurs nowhere.
pub proof fn lemma_first_occurrence_is_least<T>(text: Seq<T>, pattern: Seq<T>)
    ensures
        match first_occurrence(text, pattern) {
            Some(at) => is_first_occurrence(text, pattern, at),
            None => forall|at: int| !occurs_at(text, pattern, at),
        },
{
    if exists|at: int| occurs_at(text, pattern, at) {
        let some = choose|at: int| occurs_at(text, pattern, at);
        let least = lemma_least_occurrence(text, pattern, some);
    }
}

/// An occurrence with none before it is the one that `first_occurrence` gives.
pub proof fn lemma_first_occurrence_unique<T>(text: Seq<T>, pattern: Seq<T>, at: int)
    requires
        is_first_occurrence(text, pattern, at),
    ensures
        first_occurrence(text, pattern) == Some(at),
{
    lemma_first_occurrence_is_least(text, pattern);
}

/// Tells whether `needle` stands in `haystack` at `at`.
fn occurs_here(haystack: &[u8], needle: &[u8], at: usize) -> (here: bool)
    requires
        at + needle@.len() <= haystack@.len() <= usize::MAX,
    ensures
        here == occurs_at(haystack@, needle@, at as int),
{
    let m: usize = needle.len();
    let mut i: usize = 0;
    while i < m
        invariant
            m == needle@.len(),
            at + m <= haystack@.len() <= usize::MAX,
            i <= m,
            forall|k: int| 0 <= k < i ==> haystack@[at + k] == needle@[k],
        decreases m - i,
    {
        if haystack[at + i] != needle[i] {
            proof {
                let run = haystack@.subrange(at as int, at + m);
                assert(run[i as int] == haystack@[at + i]);
            }
            return false;
        }
        i = i + 1;
    }
    true
}

/// The byte index at which `needle` first occurs in `haystack`.
pub fn find_bytes(haystack: &[u8], needle: &[u8]) -> (found: Option<usize>)
    ensures
        match found {
            Some(at) => first_occurrence(haystack@, needle@) == Some(at as int),
            None => first_occurrence(haystack@, needle@) is None,
        },
{
    let n: usize = haystack.len();
    let m: usize = needle.len();
    if m > n {
        return None;
    }
    if m == 0 {
        proof {
            lemma_first_occurrence_unique(haystack@, needle@, 0);
        }
        return Some(0);
    }
    let last: usize = n - m;
    let mut at: usize = 0;
    while at <= last
        invariant
            n == haystack@.len(),
            m == needle@.len(),
            0 < m <= n,
            last == n - m,
            at <= last + 1,
            forall|earlier: int| 0 <= earlier < at ==> !occurs_at(haystack@, needle@, earlier),
        decreases last + 1 - at,
    {
        if occurs_here(haystack, needle, at) {
            proof {
                lemma_first_occurrence_unique(haystack@, needle@, at as int);
            }
            return Some(at);
        }
        at = at + 1;
    }
    None
}

} // verus!
