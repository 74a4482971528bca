//! First-match search over sequences, the shape that every "find the first
//! slot that satisfies a predicate" scan in the library is specified by.

use vstd::prelude::*;

verus! {

/// `i` is the first position of `s` whose element satisfies `p`.
pub open spec fn is_first<T>(s: Seq<T>, p: spec_fn(T) -> bool, i: int) -> bool {
    &&& 0 <= i < s.len()
    &&& p(s[i])
    &&& forall|j: int| 0 <= j < i ==> !p(#[trigger] s[j])
}

/// The position of the first element of `s` satisfying `p`, if any.
pub open spec fn first_index<T>(s: Seq<T>, p: spec_fn(T) -> bool) -> Option<int> {
    if exists|i: int| is_first(s, p, i) {
        Some(choose|i: int| is_first(s, p, i))
    } else {
        None
    }
}

/// Whether some element of `s` satisfies `p`.
pub open spec fn any_match<T>(s: Seq<T>, p: spec_fn(T) -> bool) -> bool {
    exists|i: int| 0 <= i < s.len() && p(#[trigger] s[i])
}

/// A scan that stops at `i` has found the first match.
pub proof fn lemma_first_found<T>(s: Seq<T>, p: spec_fn(T) -> bool, i: int)
    requires
        is_first(s, p, i),
    ensures
        first_index(s, p) == Some(i),
        any_match(s, p),
{
    let k = choose|k: int| is_first(s, p, k);
    assert(is_first(s, p, k));
    if k < i {
        assert(!p(s[k]));
    }
    if i < k {
        assert(!p(s[i]));
    }
}

/// A scan that runs off the end has found nothing.
pub proof fn lemma_first_none<T>(s: Seq<T>, p: spec_fn(T) -> bool)
    requires
        forall|j: int| 0 <= j < s.len() ==> !p(#[trigger] s[j]),
    ensures
        first_index(s, p) == None::<int>,
        !any_match(s, p),
{
    if exists|i: int| is_first(s, p, i) {
        let k = choose|k: int| is_first(s, p, k);
        assert(p(s[k]));
    }
}

/// Whenever some element matches, a first match exists.
pub proof fn lemma_first_exists<T>(s: Seq<T>, p: spec_fn(T) -> bool)
    requires
        any_match(s, p),
    ensures
        first_index(s, p) is Some,
    decreases s.len(),
{
    let w = choose|i: int| 0 <= i < s.len() && p(#[trigger] s[i]);
    if p(s[0]) {
        lemma_first_found(s, p, 0);
    } else {
        let t = s.drop_first();
        assert(t[w - 1] == s[w]);
        lemma_first_exists(t, p);
        let k = first_index(t, p).unwrap();
        assert forall|j: int| 0 <= j < k + 1 implies !p(#[trigger] s[j]) by {
            if j > 0 {
                assert(s[j] == t[j - 1]);
            }
        }
        assert(s[k + 1] == t[k]);
        lemma_first_found(s, p, k + 1);
    }
}

/// When no first match exists, no element matches.
pub proof fn lemma_first_none_all<T>(s: Seq<T>, p: spec_fn(T) -> bool)
    requires
        first_index(s, p) is None,
    ensures
        forall|i: int| 0 <= i < s.len() ==> !#[trigger] p(s[i]),
{
    assert forall|i: int| 0 <= i < s.len() implies !#[trigger] p(s[i]) by {
        if p(s[i]) {
            lemma_first_exists(s, p);
        }
    }
}

/// Filtering a prefix one element longer appends that element when it passes.
pub proof fn lemma_filter_step<T>(s: Seq<T>, p: spec_fn(T) -> bool, i: int)
    requires
        0 <= i < s.len(),
    ensures
        s.subrange(0, i + 1).filter(p) == (if p(s[i]) {
            s.subrange(0, i).filter(p).push(s[i])
        } else {
            s.subrange(0, i).filter(p)
        }),
{
    reveal(Seq::filter);
    let t = s.subrange(0, i + 1);
    assert(t.drop_last() =~= s.subrange(0, i));
    assert(t.last() == s[i]);
}

/// The filter of a prefix is a prefix of the filter.
pub proof fn lemma_filter_prefix<T>(s: Seq<T>, p: spec_fn(T) -> bool, k: int, n: int)
    requires
        0 <= k <= n <= s.len(),
    ensures
        s.subrange(0, k).filter(p).len() <= s.subrange(0, n).filter(p).len(),
        s.subrange(0, k).filter(p) == s.subrange(0, n).filter(p).subrange(
            0,
            s.subrange(0, k).filter(p).len() as int,
        ),
    decreases n - k,
{
    if k < n {
        lemma_filter_prefix(s, p, k, n - 1);
        lemma_filter_step(s, p, n - 1);
        let a = s.subrange(0, k).filter(p);
        let b = s.subrange(0, n - 1).filter(p);
        let c = s.subrange(0, n).filter(p);
        if p(s[n - 1]) {
            assert(c == b.push(s[n - 1]));
            assert(b.push(s[n - 1]).subrange(0, a.len() as int) =~= b.subrange(0, a.len() as int));
        }
    } else {
        assert(s.subrange(0, k).filter(p).subrange(0, s.subrange(0, k).filter(p).len() as int)
            =~= s.subrange(0, k).filter(p));
    }
}

} // verus!
