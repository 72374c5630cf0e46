//! Counting the elements of a list that have a property.

use vstd::prelude::*;
use vstd::seq_lib::{commutative_foldr, lemma_fold_right_permutation};

verus! {

/// How many elements of `s` have the property `p`.
pub open spec fn count<A>(s: Seq<A>, p: spec_fn(A) -> bool) -> nat
    decreases s.len(),
{
    if s.len() == 0 {
        0
    } else {
        count(s.drop_last(), p) + if p(s.last()) {
            1nat
        } else {
            0nat
        }
    }
}

/// At most all of them.
pub proof fn count_bound<A>(s: Seq<A>, p: spec_fn(A) -> bool)
    ensures
        count(s, p) <= s.len(),
    decreases s.len(),
{
    if s.len() > 0 {
        count_bound(s.drop_last(), p);
    }
}

/// One more element.
pub proof fn count_push<A>(s: Seq<A>, x: A, p: spec_fn(A) -> bool)
    ensures
        count(s.push(x), p) == count(s, p) + if p(x) {
            1nat
        } else {
            0nat
        },
{
    assert(s.push(x).drop_last() =~= s);
}

/// Two lists with the property at the same places hold it equally often.
pub proof fn count_same<A, B>(s: Seq<A>, t: Seq<B>, p: spec_fn(A) -> bool, q: spec_fn(B) -> bool)
    requires
        s.len() == t.len(),
        forall|i: int| 0 <= i < s.len() ==> p(#[trigger] s[i]) == q(t[i]),
    ensures
        count(s, p) == count(t, q),
    decreases s.len(),
{
    if s.len() > 0 {
        assert(p(s[s.len() - 1]) == q(t[t.len() - 1]));
        assert forall|i: int| 0 <= i < s.len() - 1 implies p(#[trigger] s.drop_last()[i]) == q(
            t.drop_last()[i],
        ) by {
            assert(p(s[i]) == q(t[i]));
        }
        count_same(s.drop_last(), t.drop_last(), p, q);
    }
}

/// Leaving out elements without the property makes no difference.
pub proof fn count_filter<A>(s: Seq<A>, keep: spec_fn(A) -> bool, p: spec_fn(A) -> bool)
    requires
        forall|i: int| 0 <= i < s.len() && p(#[trigger] s[i]) ==> keep(s[i]),
    ensures
        count(s.filter(keep), p) == count(s, p),
    decreases s.len(),
{
    reveal(Seq::filter);
    if s.len() > 0 {
        let rest = s.drop_last();
        assert(p(s[s.len() - 1]) ==> keep(s[s.len() - 1]));
        assert forall|i: int| 0 <= i < rest.len() && p(#[trigger] rest[i]) implies keep(rest[i]) by {
            assert(p(s[i]) ==> keep(s[i]));
        }
        count_filter(rest, keep, p);
        if keep(s.last()) {
            count_push(rest.filter(keep), s.last(), p);
        }
    }
}

/// Replacing one element.
pub proof fn count_update<A>(s: Seq<A>, i: int, x: A, p: spec_fn(A) -> bool)
    requires
        0 <= i < s.len(),
    ensures
        count(s.update(i, x), p) + (if p(s[i]) {
            1nat
        } else {
            0nat
        }) == count(s, p) + (if p(x) {
            1nat
        } else {
            0nat
        }),
    decreases s.len(),
{
    if i < s.len() - 1 {
        assert(s.update(i, x).drop_last() =~= s.drop_last().update(i, x));
        count_update(s.drop_last(), i, x, p);
    } else {
        assert(s.update(i, x).drop_last() =~= s.drop_last());
    }
}

/// None has the property, none is counted.
pub proof fn count_none<A>(s: Seq<A>, p: spec_fn(A) -> bool)
    requires
        forall|i: int| 0 <= i < s.len() ==> !p(#[trigger] s[i]),
    ensures
        count(s, p) == 0,
    decreases s.len(),
{
    if s.len() > 0 {
        assert(!p(s[s.len() - 1]));
        assert forall|i: int| 0 <= i < s.len() - 1 implies !p(#[trigger] s.drop_last()[i]) by {
            assert(!p(s[i]));
        }
        count_none(s.drop_last(), p);
    }
}

/// One has the property, at least one is counted.
pub proof fn count_some<A>(s: Seq<A>, i: int, p: spec_fn(A) -> bool)
    requires
        0 <= i < s.len(),
        p(s[i]),
    ensures
        count(s, p) >= 1,
    decreases s.len(),
{
    if i < s.len() - 1 {
        count_some(s.drop_last(), i, p);
    }
}

/// The elements that have the property come first: the count is where they
/// end.
pub proof fn count_prefix<A>(s: Seq<A>, k: int, p: spec_fn(A) -> bool)
    requires
        0 <= k <= s.len(),
        forall|i: int| 0 <= i < s.len() ==> (p(#[trigger] s[i]) <==> i < k),
    ensures
        count(s, p) == k,
    decreases s.len(),
{
    if s.len() > 0 {
        assert(p(s[s.len() - 1]) <==> s.len() - 1 < k);
        let t = s.drop_last();
        assert forall|i: int| 0 <= i < t.len() implies (p(#[trigger] t[i]) <==> i < k) by {
            assert(p(s[i]) <==> i < k);
        }
        if k == s.len() {
            count_prefix(t, k - 1, p);
        } else {
            count_prefix(t, k, p);
        }
    }
}

spec fn counter<A>(p: spec_fn(A) -> bool) -> spec_fn(A, nat) -> nat {
    |x: A, n: nat|
        if p(x) {
            n + 1
        } else {
            n
        }
}

proof fn count_is_fold<A>(s: Seq<A>, p: spec_fn(A) -> bool, n: nat)
    ensures
        s.fold_right(counter(p), n) == count(s, p) + n,
    decreases s.len(),
{
    reveal(Seq::fold_right);
    if s.len() > 0 {
        count_is_fold(
            s.drop_last(),
            p,
            if p(s.last()) {
                n + 1
            } else {
                n
            },
        );
    }
}

/// The order of the elements does not matter.
pub proof fn count_permutation<A>(s: Seq<A>, t: Seq<A>, p: spec_fn(A) -> bool)
    requires
        s.to_multiset() == t.to_multiset(),
    ensures
        count(s, p) == count(t, p),
{
    count_is_fold(s, p, 0);
    count_is_fold(t, p, 0);
    assert(commutative_foldr(counter(p)));
    lemma_fold_right_permutation(s, t, counter(p), 0);
}

} // verus!
