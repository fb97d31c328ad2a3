//! The leftmost element of a sequence that satisfies a predicate.
use vstd::prelude::*;

verus! {

/// The position of the first element of `s` satisfying `p`, if any (defined left to right).
pub open spec fn first_where<A>(s: Seq<A>, p: spec_fn(A) -> bool) -> Option<int>
    decreases s.len(),
{
    if s.len() == 0 {
        None
    } else {
        match first_where(s.drop_last(), p) {
            Some(i) => Some(i),
            None => if p(s.last()) {
                Some(s.len() - 1)
            } else {
                None
            },
        }
    }
}

/// What `first_where` finds: the leftmost match, or none at all.
pub proof fn lemma_first_where<A>(s: Seq<A>, p: spec_fn(A) -> bool)
    ensures
        first_where(s, p) matches Some(i) ==> 0 <= i < s.len() && p(s[i]) && (forall|k: int|
            0 <= k < i ==> !p(#[trigger] s[k])),
        first_where(s, p) is None ==> (forall|k: int| 0 <= k < s.len() ==> !p(#[trigger] s[k])),
    decreases s.len(),
{
    if s.len() > 0 {
        lemma_first_where(s.drop_last(), p);
        assert forall|k: int| 0 <= k < s.len() - 1 implies s[k] == s.drop_last()[k] by {}
    }
}

/// A match found in a prefix is the first match of the whole sequence.
pub proof fn lemma_first_where_prefix<A>(s: Seq<A>, p: spec_fn(A) -> bool, k: int)
    requires
        0 <= k <= s.len(),
        first_where(s.take(k), p) is Some,
    ensures
        first_where(s, p) == first_where(s.take(k), p),
    decreases s.len(),
{
    if k == s.len() {
        assert(s.take(k) =~= s);
    } else {
        assert(s.drop_last().take(k) =~= s.take(k));
        lemma_first_where_prefix(s.drop_last(), p, k);
    }
}

/// The leftmost match is at `i` when `s[i]` matches and no earlier element does.
pub proof fn lemma_first_where_at<A>(s: Seq<A>, p: spec_fn(A) -> bool, i: int)
    requires
        0 <= i < s.len(),
        p(s[i]),
        forall|k: int| 0 <= k < i ==> !p(#[trigger] s[k]),
    ensures
        first_where(s, p) == Some(i),
{
    lemma_first_where(s, p);
}

/// A sequence with no match has no first match.
pub proof fn lemma_first_where_none<A>(s: Seq<A>, p: spec_fn(A) -> bool)
    requires
        forall|k: int| 0 <= k < s.len() ==> !p(#[trigger] s[k]),
    ensures
        first_where(s, p) is None,
{
    lemma_first_where(s, p);
}

/// A sequence with a match has a first match.
pub proof fn lemma_first_where_some<A>(s: Seq<A>, p: spec_fn(A) -> bool, k: int)
    requires
        0 <= k < s.len(),
        p(s[k]),
    ensures
        first_where(s, p) is Some,
{
    lemma_first_where(s, p);
}

} // verus!
