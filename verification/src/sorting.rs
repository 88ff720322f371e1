//! Sorting by a total order, and the rankings built on it.

use vstd::prelude::*;
use vstd::relations::{sorted_by, total_ordering};
use crate::binary32::{Binary32, total_le, total_key, lemma_total_key_injective};

verus! {

/// A type with a total order that executable code can test.
pub trait TotalOrder: Sized + Copy {
    spec fn le_spec(self, other: Self) -> bool;

    proof fn lemma_total()
        ensures
            total_ordering(|a: Self, b: Self| a.le_spec(b));

    fn le(&self, other: &Self) -> (r: bool)
        ensures
            r == self.le_spec(*other);
}

/// The order of a `TotalOrder` type as a relation.
pub open spec fn order_of<T: TotalOrder>() -> spec_fn(T, T) -> bool {
    |a: T, b: T| a.le_spec(b)
}

impl TotalOrder for Binary32 {
    open spec fn le_spec(self, other: Self) -> bool {
        total_le(self, other)
    }

    proof fn lemma_total() {
        assert forall|a: Binary32, b: Binary32| total_le(a, b) && total_le(b, a) implies a == b by {
            lemma_total_key_injective(a.bits, b.bits);
        }
    }

    fn le(&self, other: &Self) -> (r: bool) {
        self.total_key() <= other.total_key()
    }
}

/// A sort key with the position it came from: ordered by key, and among
/// equal keys by position, so that sorting by it is a stable sort by key.
#[derive(Clone, Copy, Debug, PartialEq, Eq, Structural)]
pub struct Keyed {
    pub key: i64,
    pub pos: usize,
}

impl TotalOrder for Keyed {
    open spec fn le_spec(self, other: Self) -> bool {
        self.key < other.key || (self.key == other.key && self.pos <= other.pos)
    }

    proof fn lemma_total() {
    }

    fn le(&self, other: &Self) -> (r: bool) {
        self.key < other.key || (self.key == other.key && self.pos <= other.pos)
    }
}

proof fn lemma_insert_multiset<T>(s: Seq<T>, i: int, x: T)
    requires
        0 <= i <= s.len(),
    ensures
        s.insert(i, x).to_multiset() =~= s.to_multiset().insert(x),
{
    broadcast use vstd::seq_lib::group_to_multiset_ensures;
    broadcast use vstd::multiset::group_multiset_axioms;

    let pre = s.subrange(0, i);
    let post = s.subrange(i, s.len() as int);
    assert(s =~= pre + post);
    assert(s.insert(i, x) =~= pre.push(x) + post);
    vstd::seq_lib::lemma_multiset_commutative(pre, post);
    vstd::seq_lib::lemma_multiset_commutative(pre.push(x), post);
}

/// The elements of `v` in the order `T` defines; equal to `v@.sort_by`.
pub fn sort_total<T: TotalOrder>(v: &[T]) -> (r: Vec<T>)
    ensures
        r@ == v@.sort_by(order_of::<T>()),
        r@.len() == v@.len(),
{
    broadcast use vstd::seq_lib::group_to_multiset_ensures;

    let ghost leq = order_of::<T>();
    proof {
        T::lemma_total();
        assert(leq == (|a: T, b: T| a.le_spec(b)));
    }
    let mut r: Vec<T> = Vec::new();
    let n = v.len();
    for i in 0..n
        invariant
            n == v@.len(),
            leq == order_of::<T>(),
            total_ordering(leq),
            sorted_by(r@, leq),
            r@.to_multiset() =~= v@.subrange(0, i as int).to_multiset(),
    {
        let x = v[i];
        let mut pos: usize = 0;
        while pos < r.len() && r[pos].le(&x)
            invariant
                pos <= r@.len(),
                leq == order_of::<T>(),
                forall|j: int| 0 <= j < pos ==> #[trigger] leq(r@[j], x),
            decreases r@.len() - pos,
        {
            pos = pos + 1;
        }
        let ghost old_r = r@;
        proof {
            if pos < old_r.len() {
                assert(!leq(old_r[pos as int], x));
                assert(leq(x, old_r[pos as int]));
            }
            assert forall|a: int, b: int| 0 <= a < b < old_r.len() + 1 implies #[trigger] leq(
                old_r.insert(pos as int, x)[a],
                old_r.insert(pos as int, x)[b],
            ) by {
                let s = old_r.insert(pos as int, x);
                if b < pos {
                    assert(leq(old_r[a], old_r[b]));
                } else if b == pos {
                    assert(leq(old_r[a], x));
                } else if a < pos {
                    assert(leq(old_r[a], x));
                    assert(leq(x, old_r[pos as int]));
                    if b - 1 > pos {
                        assert(leq(old_r[pos as int], old_r[b - 1]));
                    }
                } else if a == pos {
                    assert(leq(x, old_r[pos as int]));
                    if b - 1 > pos {
                        assert(leq(old_r[pos as int], old_r[b - 1]));
                    }
                } else {
                    assert(leq(old_r[a - 1], old_r[b - 1]));
                }
            }
            lemma_insert_multiset(old_r, pos as int, x);
            assert(v@.subrange(0, i + 1) =~= v@.subrange(0, i as int).push(x));
        }
        r.insert(pos, x);
        proof {
            vstd::seq_lib::to_multiset_build(v@.subrange(0, i as int), x);
            assert(r@.to_multiset() =~= v@.subrange(0, i + 1).to_multiset());
        }
    }
    proof {
        assert(v@.subrange(0, n as int) =~= v@);
        assert(r@.to_multiset().len() == r@.len());
        assert(v@.to_multiset().len() == v@.len());
        v@.lemma_sort_by_ensures(leq);
        vstd::seq_lib::lemma_sorted_unique(r@, v@.sort_by(leq), leq);
    }
    r
}

/// Each cost paired with its position, keyed by its place in the total order.
pub open spec fn keyed_costs(costs: Seq<Binary32>) -> Seq<Keyed> {
    Seq::new(costs.len(), |i: int| Keyed { key: total_key(costs[i].bits) as i64, pos: i as usize })
}

/// The positions of `costs`, cheapest first by the total order of binary32
/// values, ties kept in their original order.
pub open spec fn ranking_spec(costs: Seq<Binary32>) -> Seq<usize> {
    keyed_costs(costs).sort_by(order_of::<Keyed>()).map_values(|k: Keyed| k.pos)
}

/// `r` lists every position of `costs` once, in increasing cost, and
/// positions of equal cost in increasing order.
pub open spec fn is_stable_ranking(costs: Seq<Binary32>, r: Seq<usize>) -> bool {
    &&& r.len() == costs.len()
    &&& forall|i: int| 0 <= i < r.len() ==> #[trigger] r[i] < costs.len()
    &&& forall|k: usize| k < costs.len() ==> #[trigger] r.contains(k)
    &&& forall|i: int, j: int|
        0 <= i < j < r.len() ==> {
            ||| total_key(costs[r[i] as int].bits) < total_key(costs[r[j] as int].bits)
            ||| (total_key(costs[r[i] as int].bits) == total_key(costs[r[j] as int].bits) && r[i]
                < r[j])
        }
}

/// Orders the positions of `costs` from cheapest to dearest, as a stable
/// sort by `total_cmp` would.
pub fn rank_by_cost(costs: &[Binary32]) -> (r: Vec<usize>)
    ensures
        r@ == ranking_spec(costs@),
        is_stable_ranking(costs@, r@),
{
    let n = costs.len();
    let mut keyed: Vec<Keyed> = Vec::new();
    for i in 0..n
        invariant
            n == costs@.len(),
            keyed@.len() == i,
            forall|k: int| 0 <= k < i ==> #[trigger] keyed@[k] == keyed_costs(costs@)[k],
    {
        proof {
            lemma_total_key_injective(costs@[i as int].bits, 0);
        }
        keyed.push(Keyed { key: costs[i].total_key(), pos: i });
    }
    assert(keyed@ =~= keyed_costs(costs@));
    let sorted = sort_total(keyed.as_slice());
    let mut r: Vec<usize> = Vec::new();
    for i in 0..n
        invariant
            n == costs@.len(),
            sorted@.len() == n,
            r@.len() == i,
            forall|k: int| 0 <= k < i ==> #[trigger] r@[k] == sorted@[k].pos,
    {
        r.push(sorted[i].pos);
    }
    proof {
        let ks = keyed_costs(costs@);
        let leq = order_of::<Keyed>();
        assert(r@ =~= sorted@.map_values(|k: Keyed| k.pos));
        lemma_ranking_properties(costs@);
    }
    r
}

proof fn lemma_ranking_properties(costs: Seq<Binary32>)
    requires
        costs.len() <= usize::MAX,
    ensures
        is_stable_ranking(costs, ranking_spec(costs)),
{
    broadcast use vstd::seq_lib::group_to_multiset_ensures;
    broadcast use vstd::multiset::group_multiset_axioms;

    let ks = keyed_costs(costs);
    let leq = order_of::<Keyed>();
    Keyed::lemma_total();
    ks.lemma_sort_by_ensures(leq);
    let s = ks.sort_by(leq);
    let r = ranking_spec(costs);
    assert forall|i: int, j: int| 0 <= i < ks.len() && 0 <= j < ks.len() && i != j implies ks[i]
        != ks[j] by {
        assert(ks[i].pos == i);
        assert(ks[j].pos == j);
    }
    assert(ks.no_duplicates());
    ks.lemma_multiset_has_no_duplicates();
    assert forall|x: Keyed| s.to_multiset().contains(x) implies s.to_multiset().count(x) == 1 by {}
    s.lemma_multiset_has_no_duplicates_conv();
    assert(s.to_multiset().len() == s.len());
    assert(ks.to_multiset().len() == ks.len());
    assert(s.len() == ks.len());
    assert forall|i: int| 0 <= i < s.len() implies #[trigger] ks.contains(s[i]) by {
        assert(s.to_multiset().count(s[i]) > 0);
    }
    assert forall|i: int| 0 <= i < r.len() implies #[trigger] r[i] < costs.len() by {
        assert(ks.contains(s[i]));
    }
    assert forall|k: usize| k < costs.len() implies #[trigger] r.contains(k) by {
        assert(ks[k as int].pos == k);
        assert(ks.to_multiset().count(ks[k as int]) > 0);
        assert(s.contains(ks[k as int]));
        let j = choose|j: int| 0 <= j < s.len() && s[j] == ks[k as int];
        assert(r[j] == k);
    }
    assert forall|i: int, j: int| 0 <= i < j < r.len() implies {
        ||| total_key(costs[r[i] as int].bits) < total_key(costs[r[j] as int].bits)
        ||| (total_key(costs[r[i] as int].bits) == total_key(costs[r[j] as int].bits) && r[i] < r[j])
    } by {
        assert(leq(s[i], s[j]));
        assert(ks.contains(s[i]));
        assert(ks.contains(s[j]));
        assert(s[i] != s[j]);
    }
}

} // verus!
