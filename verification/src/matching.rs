//! Literal substring search on bytes.

use vstd::prelude::*;

verus! {

/// `pat` stands in `text` at byte offset `at`.
pub open spec fn occurs_at(text: Seq<u8>, pat: Seq<u8>, at: int) -> bool {
    &&& 0 <= at
    &&& at + pat.len() <= text.len()
    &&& text.subrange(at, at + pat.len()) == pat
}

/// `pat` stands somewhere in `text`.
pub open spec fn contains(text: Seq<u8>, pat: Seq<u8>) -> bool {
    exists|at: int| occurs_at(text, pat, at)
}

/// `pat` stands in `text` at offset `at` and at no smaller offset.
pub open spec fn is_first_occurrence(text: Seq<u8>, pat: Seq<u8>, at: int) -> bool {
    &&& occurs_at(text, pat, at)
    &&& forall|earlier: int| 0 <= earlier < at ==> !occurs_at(text, pat, earlier)
}

/// The smallest offset at which `pat` stands in `text`, if there is one.
pub open spec fn first_occurrence(text: Seq<u8>, pat: Seq<u8>) -> Option<int> {
    if contains(text, pat) {
        Some(choose|at: int| is_first_occurrence(text, pat, at))
    } else {
        None
    }
}

/// A first occurrence is unique, so it is the one that `first_occurrence` names.
pub proof fn lemma_first_occurrence_is(text: Seq<u8>, pat: Seq<u8>, at: int)
    requires
        is_first_occurrence(text, pat, at),
    ensures
        first_occurrence(text, pat) == Some(at),
{
    assert(contains(text, pat));
    let chosen = choose|c: int| is_first_occurrence(text, pat, c);
    assert(is_first_occurrence(text, pat, chosen));
    if chosen < at {
        assert(!occurs_at(text, pat, chosen));
    }
    if at < chosen {
        assert(!occurs_at(text, pat, at));
    }
}

/// Whenever `pat` stands in `text`, `first_occurrence` names an offset where it
/// does, with no occurrence before it and room for the whole of `pat` after it.
pub proof fn lemma_first_occurrence_some(text: Seq<u8>, pat: Seq<u8>)
    ensures
        first_occurrence(text, pat) is Some <==> contains(text, pat),
        first_occurrence(text, pat) matches Some(at) ==> is_first_occurrence(text, pat, at),
{
    if contains(text, pat) {
        let w = choose|at: int| occurs_at(text, pat, at);
        lemma_least_occurrence(text, pat, w);
    }
}

proof fn lemma_least_occurrence(text: Seq<u8>, pat: Seq<u8>, at: int)
    requires
        occurs_at(text, pat, at),
    ensures
        exists|least: int| is_first_occurrence(text, pat, least),
    decreases at,
{
    if exists|earlier: int| 0 <= earlier < at && occurs_at(text, pat, earlier) {
        let earlier = choose|earlier: int| 0 <= earlier < at && occurs_at(text, pat, earlier);
        lemma_least_occurrence(text, pat, earlier);
    } else {
        assert(is_first_occurrence(text, pat, at));
    }
}

/// Tells whether `pat` stands in `text` at offset `at`.
pub fn matches_at(text: &[u8], pat: &[u8], at: usize) -> (hit: bool)
    ensures
        hit == occurs_at(text@, pat@, at as int),
{
    let n: usize = text.len();
    let m: usize = pat.len();
    if at > n || m > n - at {
        return false;
    }
    let mut k: usize = 0;
    while k < m
        invariant
            n == text@.len(),
            m == pat@.len(),
            at + m <= n,
            k <= m,
            forall|j: int| 0 <= j < k ==> text@[at + j] == pat@[j],
        decreases m - k,
    {
        if text[at + k] != pat[k] {
            proof {
                let window = text@.subrange(at as int, at + m);
                assert(window[k as int] == text@[at + k]);
            }
            return false;
        }
        k += 1;
    }
    proof {
        assert(text@.subrange(at as int, at + m) =~= pat@);
    }
    true
}

/// Finds the first byte offset at which `pat` stands in `text`.
///
/// An empty `pat` stands at offset 0 of every text.
pub fn find_first(text: &[u8], pat: &[u8]) -> (found: Option<usize>)
    ensures
        match found {
            Some(at) => is_first_occurrence(text@, pat@, at as int),
            None => !contains(text@, pat@),
        },
        first_occurrence(text@, pat@) == match found {
            Some(at) => Some(at as int),
            None => None::<int>,
        },
{
    let n: usize = text.len();
    let m: usize = pat.len();
    if m > n {
        return None;
    }
    if m == 0 {
        proof {
            assert(text@.subrange(0, 0) =~= pat@);
            lemma_first_occurrence_is(text@, pat@, 0);
        }
        return Some(0);
    }
    let last: usize = n - m;
    let mut at: usize = 0;
    while at <= last
        invariant
            n == text@.len(),
            m == pat@.len(),
            0 < m <= n,
            last == n - m,
            at <= last + 1,
            forall|j: int| 0 <= j < at ==> !occurs_at(text@, pat@, j),
        decreases last + 1 - at,
    {
        if matches_at(text, pat, at) {
            proof {
                lemma_first_occurrence_is(text@, pat@, at as int);
            }
            return Some(at);
        }
        at += 1;
    }
    None
}

} // verus!
