//! Sorting by a number, then a text, then another number. What compares
//! equal stays in the order it came in.

use crate::text::{lex_antisymmetric, lex_before, lex_le, lex_total, lex_transitive};
use vstd::prelude::*;
use vstd::relations::{sorted_by, total_ordering};
use vstd::seq_lib::{group_to_multiset_ensures, lemma_sorted_unique};

verus! {

/// What something is sorted by: the first number, then the text in
/// dictionary order, then the second number.
pub struct Key {
    pub first: nat,
    pub text: Seq<char>,
    pub second: nat,
}

/// `Key` as the running program holds it.
pub struct Rank {
    pub first: u64,
    pub text: Vec<char>,
    pub second: u64,
}

impl Rank {
    pub open spec fn key(&self) -> Key {
        Key { first: self.first as nat, text: self.text@, second: self.second as nat }
    }
}

/// Whether `a` comes strictly before `b`.
pub open spec fn key_lt(a: Key, b: Key) -> bool {
    if a.first != b.first {
        a.first < b.first
    } else if a.text != b.text {
        lex_le(a.text, b.text)
    } else {
        a.second < b.second
    }
}

/// Position `i` is listed no later than position `j`: by key, and by position
/// where the keys are the same.
pub open spec fn listed(keys: Seq<Key>, i: int, j: int) -> bool {
    if keys[i] == keys[j] {
        i <= j
    } else {
        key_lt(keys[i], keys[j])
    }
}

/// The positions of `keys`, in sorted order.
pub open spec fn order_of(keys: Seq<Key>) -> Seq<int> {
    Seq::new(keys.len(), |i: int| i).sort_by(|i: int, j: int| listed(keys, i, j))
}

/// The keys of a list.
pub open spec fn keys_of(ranks: Seq<Rank>) -> Seq<Key> {
    ranks.map_values(|r: Rank| r.key())
}

/// Of two different keys exactly one comes before the other.
pub proof fn key_lt_is_total(a: Key, b: Key)
    ensures
        a != b ==> (key_lt(a, b) <==> !key_lt(b, a)),
        !key_lt(a, a),
{
    if a.first == b.first && a.text != b.text {
        lex_total(a.text, b.text);
        if lex_le(a.text, b.text) && lex_le(b.text, a.text) {
            lex_antisymmetric(a.text, b.text);
        }
    }
}

/// `key_lt` is transitive.
pub proof fn key_lt_is_transitive(a: Key, b: Key, c: Key)
    requires
        key_lt(a, b),
        key_lt(b, c),
    ensures
        key_lt(a, c),
{
    if a.first == b.first && b.first == c.first && a.text != b.text && b.text != c.text {
        lex_transitive(a.text, b.text, c.text);
        if a.text == c.text {
            lex_antisymmetric(a.text, b.text);
        }
    }
}

/// `listed` orders all positions.
pub proof fn listed_is_total(keys: Seq<Key>)
    ensures
        total_ordering(|i: int, j: int| listed(keys, i, j)),
{
    let le = |i: int, j: int| listed(keys, i, j);
    assert forall|i: int, j: int| #[trigger] le(i, j) || le(j, i) by {
        key_lt_is_total(keys[i], keys[j]);
    }
    assert forall|i: int, j: int| #[trigger] le(i, j) && #[trigger] le(j, i) implies i == j by {
        key_lt_is_total(keys[i], keys[j]);
    }
    assert forall|i: int, j: int, k: int| #[trigger] le(i, j) && #[trigger] le(j, k) implies le(
        i,
        k,
    ) by {
        key_lt_is_total(keys[i], keys[j]);
        key_lt_is_total(keys[j], keys[k]);
        key_lt_is_total(keys[i], keys[k]);
        if keys[i] != keys[j] && keys[j] != keys[k] {
            key_lt_is_transitive(keys[i], keys[j], keys[k]);
        }
    }
}

/// The sorted positions: each position once, in order.
pub proof fn order_is_sorted(keys: Seq<Key>)
    ensures
        order_of(keys).len() == keys.len(),
        order_of(keys).to_multiset() == Seq::new(keys.len(), |i: int| i).to_multiset(),
        order_of(keys).no_duplicates(),
        forall|i: int|
            0 <= i < keys.len() ==> 0 <= #[trigger] order_of(keys)[i] < keys.len(),
        forall|p: int| 0 <= p < keys.len() ==> #[trigger] order_of(keys).contains(p),
        forall|i: int, j: int|
            0 <= i < j < keys.len() ==> listed(
                keys,
                #[trigger] order_of(keys)[i],
                #[trigger] order_of(keys)[j],
            ),
{
    broadcast use group_to_multiset_ensures;

    let all = Seq::new(keys.len(), |i: int| i);
    let le = |i: int, j: int| listed(keys, i, j);
    listed_is_total(keys);
    all.lemma_sort_by_ensures(le);
    let sorted = order_of(keys);
    assert(sorted.len() == sorted.to_multiset().len());
    all.lemma_multiset_has_no_duplicates();
    assert forall|i: int| 0 <= i < keys.len() implies 0 <= #[trigger] sorted[i] < keys.len() by {
        assert(sorted.contains(sorted[i]));
        assert(sorted.to_multiset().contains(sorted[i]));
        assert(all.contains(sorted[i]));
    }
    assert forall|p: int| 0 <= p < keys.len() implies #[trigger] sorted.contains(p) by {
        assert(all[p] == p);
        assert(all.to_multiset().contains(p));
    }
    sorted.lemma_multiset_has_no_duplicates_conv();
    assert forall|i: int, j: int| 0 <= i < j < keys.len() implies listed(
        keys,
        #[trigger] sorted[i],
        #[trigger] sorted[j],
    ) by {
        assert(le(sorted[i], sorted[j]));
    }
}

spec fn ints(v: Seq<usize>) -> Seq<int> {
    v.map_values(|i: usize| i as int)
}

spec fn in_order(keys: Seq<Key>, v: Seq<usize>) -> bool {
    forall|i: int, j: int|
        0 <= i < j < v.len() ==> listed(keys, (#[trigger] v[i]) as int, (#[trigger] v[j]) as int)
}

fn listed_before(ranks: &Vec<Rank>, i: usize, j: usize) -> (r: bool)
    requires
        i < ranks@.len(),
        j < ranks@.len(),
    ensures
        r == listed(keys_of(ranks@), i as int, j as int),
{
    proof {
        lex_total(ranks@[i as int].text@, ranks@[j as int].text@);
    }
    let a = &ranks[i];
    let b = &ranks[j];
    if a.first != b.first {
        return a.first < b.first;
    }
    let ab = lex_before(&a.text, &b.text);
    let ba = lex_before(&b.text, &a.text);
    proof {
        if ab && ba {
            lex_antisymmetric(a.text@, b.text@);
        }
    }
    if !ab || !ba {
        return ab;
    }
    if a.second != b.second {
        return a.second < b.second;
    }
    i <= j
}

fn merge(ranks: &Vec<Rank>, left: &Vec<usize>, right: &Vec<usize>) -> (out: Vec<usize>)
    requires
        in_order(keys_of(ranks@), left@),
        in_order(keys_of(ranks@), right@),
        forall|k: int| 0 <= k < left@.len() ==> (#[trigger] left@[k]) < ranks@.len(),
        forall|k: int| 0 <= k < right@.len() ==> (#[trigger] right@[k]) < ranks@.len(),
    ensures
        in_order(keys_of(ranks@), out@),
        ints(out@).to_multiset() == ints(left@).to_multiset().add(ints(right@).to_multiset()),
        forall|k: int| 0 <= k < out@.len() ==> (#[trigger] out@[k]) < ranks@.len(),
{
    broadcast use group_to_multiset_ensures;

    let ghost keys = keys_of(ranks@);
    let mut out: Vec<usize> = Vec::new();
    let mut i: usize = 0;
    let mut j: usize = 0;
    assert(ints(left@.take(0)) =~= Seq::empty());
    assert(ints(right@.take(0)) =~= Seq::empty());
    assert(ints(out@) =~= Seq::empty());
    assert(ints(out@).to_multiset() =~= ints(left@.take(0)).to_multiset().add(
        ints(right@.take(0)).to_multiset(),
    ));
    while i < left.len() || j < right.len()
        invariant
            keys == keys_of(ranks@),
            in_order(keys, left@),
            in_order(keys, right@),
            forall|k: int| 0 <= k < left@.len() ==> (#[trigger] left@[k]) < ranks@.len(),
            forall|k: int| 0 <= k < right@.len() ==> (#[trigger] right@[k]) < ranks@.len(),
            forall|k: int| 0 <= k < out@.len() ==> (#[trigger] out@[k]) < ranks@.len(),
            i <= left@.len(),
            j <= right@.len(),
            in_order(keys, out@),
            forall|k: int|
                0 <= k < out@.len() && i < left@.len() ==> listed(
                    keys,
                    (#[trigger] out@[k]) as int,
                    left@[i as int] as int,
                ),
            forall|k: int|
                0 <= k < out@.len() && j < right@.len() ==> listed(
                    keys,
                    (#[trigger] out@[k]) as int,
                    right@[j as int] as int,
                ),
            ints(out@).to_multiset() == ints(left@.take(i as int)).to_multiset().add(
                ints(right@.take(j as int)).to_multiset(),
            ),
        decreases left@.len() - i + right@.len() - j,
    {
        let take_left = if i >= left.len() {
            false
        } else if j >= right.len() {
            true
        } else {
            listed_before(ranks, left[i], right[j])
        };
        let ghost before = out@;
        proof {
            listed_is_total(keys);
        }
        broadcast use group_to_multiset_ensures;

        let ghost le = |a: int, b: int| listed(keys, a, b);
        if take_left {
            out.push(left[i]);
            proof {
                assert(ints(out@) =~= ints(before).push(left@[i as int] as int));
                assert(ints(left@.take(i + 1)) =~= ints(left@.take(i as int)).push(
                    left@[i as int] as int,
                ));
                if j < right@.len() {
                    assert(le(left@[i as int] as int, right@[j as int] as int));
                }
                if i + 1 < left@.len() {
                    assert(le(left@[i as int] as int, left@[i + 1] as int));
                }
                assert forall|k: int| 0 <= k < before.len() implies le(
                    (#[trigger] before[k]) as int,
                    left@[i as int] as int,
                ) by {
                    assert(out@[k] == before[k]);
                }
            }
            i += 1;
        } else {
            out.push(right[j]);
            proof {
                assert(ints(out@) =~= ints(before).push(right@[j as int] as int));
                assert(ints(right@.take(j + 1)) =~= ints(right@.take(j as int)).push(
                    right@[j as int] as int,
                ));
                if i < left@.len() {
                    assert(!le(left@[i as int] as int, right@[j as int] as int));
                    assert(le(right@[j as int] as int, left@[i as int] as int));
                }
                if j + 1 < right@.len() {
                    assert(le(right@[j as int] as int, right@[j + 1] as int));
                }
                assert forall|k: int| 0 <= k < before.len() implies le(
                    (#[trigger] before[k]) as int,
                    right@[j as int] as int,
                ) by {
                    assert(out@[k] == before[k]);
                }
            }
            j += 1;
        }
        assert(ints(out@).to_multiset() =~= ints(left@.take(i as int)).to_multiset().add(
            ints(right@.take(j as int)).to_multiset(),
        ));
    }
    assert(left@.take(i as int) =~= left@);
    assert(right@.take(j as int) =~= right@);
    out
}

fn sort_range(ranks: &Vec<Rank>, from: usize, to: usize) -> (out: Vec<usize>)
    requires
        from <= to <= ranks@.len(),
    ensures
        in_order(keys_of(ranks@), out@),
        ints(out@).to_multiset() == Seq::new((to - from) as nat, |i: int| from + i).to_multiset(),
        forall|k: int| 0 <= k < out@.len() ==> (#[trigger] out@[k]) < ranks@.len(),
    decreases to - from,
{
    let ghost all = Seq::new((to - from) as nat, |i: int| from + i);
    let mut out: Vec<usize> = Vec::new();
    if to - from <= 1 {
        if from < to {
            out.push(from);
        }
        assert(ints(out@) =~= all);
        return out;
    }
    let mid: usize = from + (to - from) / 2;
    let left = sort_range(ranks, from, mid);
    let right = sort_range(ranks, mid, to);
    proof {
        let a = Seq::new((mid - from) as nat, |i: int| from + i);
        let b = Seq::new((to - mid) as nat, |i: int| mid + i);
        assert(all =~= a + b);
        vstd::seq_lib::lemma_multiset_commutative(a, b);
    }
    merge(ranks, &left, &right)
}

/// The positions of `ranks` in sorted order.
pub fn order(ranks: &Vec<Rank>) -> (out: Vec<usize>)
    ensures
        out@.map_values(|i: usize| i as int) == order_of(keys_of(ranks@)),
        forall|k: int| 0 <= k < out@.len() ==> (#[trigger] out@[k]) < ranks@.len(),
{
    let out = sort_range(ranks, 0, ranks.len());
    proof {
        let keys = keys_of(ranks@);
        let le = |i: int, j: int| listed(keys, i, j);
        let all = Seq::new(keys.len(), |i: int| i);
        assert(Seq::new((ranks@.len() - 0) as nat, |i: int| 0 + i) =~= all);
        listed_is_total(keys);
        all.lemma_sort_by_ensures(le);
        assert(sorted_by(ints(out@), le));
        lemma_sorted_unique(ints(out@), all.sort_by(le), le);
    }
    out
}

} // verus!
