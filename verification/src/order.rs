//! Stable ordering by key.

use vstd::prelude::*;
use vstd::seq_lib::*;

verus! {

/// A total preorder.
pub trait Ranked: Sized {
    spec fn le(self, other: Self) -> bool;

    proof fn le_total(a: Self, b: Self)
        ensures
            a.le(b) || b.le(a),
    ;

    proof fn le_transitive(a: Self, b: Self, c: Self)
        requires
            a.le(b),
            b.le(c),
        ensures
            a.le(c),
    ;
}

/// A key by which items are sorted.
pub trait SortKey: Sized {
    type Rank: Ranked;

    spec fn rank(&self) -> Self::Rank;

    fn is_le(&self, other: &Self) -> (r: bool)
        ensures
            r == self.rank().le(other.rank()),
    ;
}

/// The ranks of a list of keys.
pub open spec fn ranks_of<K: SortKey>(keys: Seq<K>) -> Seq<K::Rank> {
    Seq::new(keys.len(), |i: int| keys[i].rank())
}

/// Where `key` goes in the sorted index list `order`: behind every key that is
/// not greater.
pub open spec fn slot<K: Ranked>(keys: Seq<K>, order: Seq<int>, key: K) -> int
    decreases order.len(),
{
    if order.len() == 0 {
        0
    } else if keys[order.last()].le(key) {
        order.len() as int
    } else {
        slot(keys, order.drop_last(), key)
    }
}

/// The stable order of the first `n` keys, as indices.
pub open spec fn order_prefix<K: Ranked>(keys: Seq<K>, n: nat) -> Seq<int>
    decreases n,
{
    if n == 0 {
        Seq::empty()
    } else {
        let rest = order_prefix(keys, (n - 1) as nat);
        rest.insert(slot(keys, rest, keys[n - 1]), n - 1)
    }
}

/// The indices of `keys` in stable ascending order.
pub open spec fn order_of<K: Ranked>(keys: Seq<K>) -> Seq<int> {
    order_prefix(keys, keys.len())
}

/// `items` taken in the order of the given indices.
pub open spec fn permuted<T>(items: Seq<T>, order: Seq<int>) -> Seq<T> {
    Seq::new(order.len(), |i: int| items[order[i]])
}

/// `items` sorted stably by `keys`, the key of each item standing at its index.
pub open spec fn sorted_by<T, K: Ranked>(items: Seq<T>, keys: Seq<K>) -> Seq<T> {
    permuted(items, order_of(keys))
}

/// `order` lists each index below `n` once, by ascending key, equal keys in
/// their original order.
pub open spec fn is_stable_order<K: Ranked>(keys: Seq<K>, order: Seq<int>, n: nat) -> bool {
    &&& order.len() == n
    &&& order.no_duplicates()
    &&& forall|i: int| 0 <= i < n ==> 0 <= #[trigger] order[i] < n
    &&& forall|i: int, j: int|
        0 <= i < j < n ==> keys[#[trigger] order[i]].le(keys[#[trigger] order[j]]) && (
        keys[order[j]].le(keys[order[i]]) ==> order[i] < order[j])
}

proof fn lemma_slot<K: Ranked>(keys: Seq<K>, order: Seq<int>, key: K)
    requires
        forall|i: int, j: int|
            0 <= i < j < order.len() ==> keys[#[trigger] order[i]].le(keys[#[trigger] order[j]]),
    ensures
        0 <= slot(keys, order, key) <= order.len(),
        forall|i: int| 0 <= i < slot(keys, order, key) ==> keys[#[trigger] order[i]].le(key),
        forall|i: int|
            slot(keys, order, key) <= i < order.len() ==> !keys[#[trigger] order[i]].le(key),
    decreases order.len(),
{
    if order.len() > 0 {
        if keys[order.last()].le(key) {
            assert forall|i: int| 0 <= i < order.len() implies keys[#[trigger] order[i]].le(key) by {
                if i < order.len() - 1 {
                    K::le_transitive(keys[order[i]], keys[order.last()], key);
                }
            }
        } else {
            let rest = order.drop_last();
            assert forall|i: int, j: int| 0 <= i < j < rest.len() implies keys[#[trigger] rest[i]].le(
                keys[#[trigger] rest[j]],
            ) by {
                assert(rest[i] == order[i] && rest[j] == order[j]);
            }
            lemma_slot(keys, rest, key);
            let s = slot(keys, rest, key);
            assert forall|i: int| 0 <= i < s implies keys[#[trigger] order[i]].le(key) by {
                assert(rest[i] == order[i]);
            }
            assert forall|i: int| s <= i < order.len() implies !keys[#[trigger] order[i]].le(key) by {
                if i < rest.len() {
                    assert(rest[i] == order[i]);
                }
            }
        }
    }
}

proof fn lemma_order_prefix<K: Ranked>(keys: Seq<K>, n: nat)
    requires
        n <= keys.len(),
    ensures
        is_stable_order(keys, order_prefix(keys, n), n),
    decreases n,
{
    if n > 0 {
        let m = (n - 1) as nat;
        lemma_order_prefix(keys, m);
        let rest = order_prefix(keys, m);
        let key = keys[n - 1];
        lemma_slot(keys, rest, key);
        let s = slot(keys, rest, key);
        let out = rest.insert(s, n - 1);
        assert(out == order_prefix(keys, n));
        assert forall|i: int| 0 <= i < n implies 0 <= #[trigger] out[i] < n by {
            if i < s {
                assert(out[i] == rest[i]);
            } else if i > s {
                assert(out[i] == rest[i - 1]);
            }
        }
        assert forall|i: int, j: int| 0 <= i < n && 0 <= j < n && i != j implies out[i] != out[j] by {
            let a = if i < s { rest[i] } else if i == s { n - 1 } else { rest[i - 1] };
            let b = if j < s { rest[j] } else if j == s { n - 1 } else { rest[j - 1] };
            assert(out[i] == a && out[j] == b);
        }
        assert forall|i: int, j: int| 0 <= i < j < n implies keys[#[trigger] out[i]].le(
            keys[#[trigger] out[j]],
        ) && (keys[out[j]].le(keys[out[i]]) ==> out[i] < out[j]) by {
            let a = if i < s { rest[i] } else if i == s { n - 1 } else { rest[i - 1] };
            let b = if j < s { rest[j] } else if j == s { n - 1 } else { rest[j - 1] };
            assert(out[i] == a && out[j] == b);
            if i == s {
                K::le_total(key, keys[b]);
            }
        }
    }
}

/// The stable order of a key list lists each index once, by ascending key, and
/// equal keys in their original order.
pub proof fn stable_order_is_sorted<K: Ranked>(keys: Seq<K>)
    ensures
        is_stable_order(keys, order_of(keys), keys.len()),
{
    lemma_order_prefix(keys, keys.len());
}

proof fn lemma_permuted_prefix<T, K: Ranked>(items: Seq<T>, keys: Seq<K>, n: nat)
    requires
        n <= keys.len(),
        items.len() == keys.len(),
    ensures
        permuted(items, order_prefix(keys, n)).to_multiset() == items.take(
            n as int,
        ).to_multiset(),
    decreases n,
{
    if n == 0 {
        assert(permuted(items, order_prefix(keys, n)) =~= items.take(0));
    } else {
        let m = (n - 1) as nat;
        lemma_permuted_prefix(items, keys, m);
        lemma_order_prefix(keys, m);
        let rest = order_prefix(keys, m);
        lemma_slot(keys, rest, keys[n - 1]);
        let s = slot(keys, rest, keys[n - 1]);
        assert(permuted(items, order_prefix(keys, n)) =~= permuted(items, rest).insert(
            s,
            items[n - 1],
        ));
        to_multiset_insert(permuted(items, rest), s, items[n - 1]);
        assert(items.take(n as int) =~= items.take(m as int).push(items[n - 1]));
        to_multiset_build(items.take(m as int), items[n - 1]);
    }
}

/// Sorting by key neither loses nor adds an item.
pub proof fn sorting_keeps_every_item<T, K: Ranked>(items: Seq<T>, keys: Seq<K>)
    requires
        items.len() == keys.len(),
    ensures
        sorted_by(items, keys).to_multiset() == items.to_multiset(),
        sorted_by(items, keys).len() == items.len(),
{
    lemma_permuted_prefix(items, keys, keys.len());
    lemma_order_prefix(keys, keys.len());
    assert(items.take(keys.len() as int) =~= items);
}

/// An index list as mathematical integers.
pub open spec fn as_ints(v: Seq<usize>) -> Seq<int> {
    Seq::new(v.len(), |i: int| v[i] as int)
}

/// The indices of `keys` in stable ascending order.
pub fn stable_order<K: SortKey>(keys: &Vec<K>) -> (order: Vec<usize>)
    ensures
        as_ints(order@) == order_of(ranks_of(keys@)),
        is_stable_order(ranks_of(keys@), as_ints(order@), keys@.len()),
        order@.len() == keys@.len(),
        forall|i: int| 0 <= i < order@.len() ==> (#[trigger] order@[i]) < keys@.len(),
{
    let ghost ranks = ranks_of(keys@);
    let mut order: Vec<usize> = Vec::new();
    let mut n: usize = 0;
    while n < keys.len()
        invariant
            n <= keys@.len(),
            ranks == ranks_of(keys@),
            as_ints(order@) == order_prefix(ranks, n as nat),
            order@.len() == n,
            forall|i: int| 0 <= i < n ==> (#[trigger] order@[i]) < n,
        decreases keys@.len() - n,
    {
        proof {
            lemma_order_prefix(ranks, n as nat);
            lemma_slot(ranks, as_ints(order@), ranks[n as int]);
            assert(as_ints(order@).take(order@.len() as int) =~= as_ints(order@));
        }
        let mut at: usize = order.len();
        while at > 0 && !keys[order[at - 1]].is_le(&keys[n])
            invariant
                at <= order@.len(),
                order@.len() == n,
                n < keys@.len(),
                ranks == ranks_of(keys@),
                forall|i: int| 0 <= i < n ==> (#[trigger] order@[i]) < n,
                slot(ranks, as_ints(order@), ranks[n as int]) == slot(
                    ranks,
                    as_ints(order@).take(at as int),
                    ranks[n as int],
                ),
            ensures
                at <= order@.len(),
                at == slot(ranks, as_ints(order@), ranks[n as int]),
            decreases at,
        {
            proof {
                assert(as_ints(order@).take(at as int).drop_last() =~= as_ints(order@).take(
                    at - 1,
                ));
                assert(as_ints(order@).take(at as int).last() == order@[at - 1]);
            }
            at = at - 1;
        }
        let ghost before = order@;
        order.insert(at, n);
        proof {
            assert(as_ints(order@) =~= as_ints(before).insert(at as int, n as int));
            assert forall|i: int| 0 <= i < n + 1 implies (#[trigger] order@[i]) < n + 1 by {
                if i < at {
                    assert(order@[i] == before[i]);
                } else if i > at {
                    assert(order@[i] == before[i - 1]);
                }
            }
        }
        n = n + 1;
    }
    proof {
        lemma_order_prefix(ranks, n as nat);
        lemma_order_prefix(ranks, keys@.len());
    }
    order
}

/// A key of four integers, ordered by the first, then the second, and so on.
#[derive(Clone, Copy, Debug)]
pub struct RankKey {
    pub a: i64,
    pub b: i64,
    pub c: i64,
    pub d: i64,
}

impl Ranked for RankKey {
    open spec fn le(self, other: Self) -> bool {
        ||| self.a < other.a
        ||| self.a == other.a && self.b < other.b
        ||| self.a == other.a && self.b == other.b && self.c < other.c
        ||| self.a == other.a && self.b == other.b && self.c == other.c && self.d <= other.d
    }

    proof fn le_total(a: Self, b: Self) {
    }

    proof fn le_transitive(a: Self, b: Self, c: Self) {
    }

}

impl SortKey for RankKey {
    type Rank = RankKey;

    open spec fn rank(&self) -> RankKey {
        *self
    }

    fn is_le(&self, other: &Self) -> (r: bool) {
        self.a < other.a || self.a == other.a && (self.b < other.b || self.b == other.b && (self.c
            < other.c || self.c == other.c && self.d <= other.d))
    }
}

impl Ranked for u64 {
    open spec fn le(self, other: Self) -> bool {
        self <= other
    }

    proof fn le_total(a: Self, b: Self) {
    }

    proof fn le_transitive(a: Self, b: Self, c: Self) {
    }

}

impl SortKey for u64 {
    type Rank = u64;

    open spec fn rank(&self) -> u64 {
        *self
    }

    fn is_le(&self, other: &Self) -> (r: bool) {
        *self <= *other
    }
}

/// A list of numbers in ascending order.
pub open spec fn ascending(v: Seq<u64>) -> Seq<u64> {
    sorted_by(v, v)
}

/// Sorts numbers in ascending order.
pub fn sort_numbers(v: &Vec<u64>) -> (r: Vec<u64>)
    ensures
        r@ == ascending(v@),
{
    let order = stable_order(v);
    proof {
        assert(ranks_of(v@) =~= v@);
    }
    let mut out: Vec<u64> = Vec::new();
    let mut i: usize = 0;
    while i < order.len()
        invariant
            i <= order@.len(),
            order@.len() == v@.len(),
            as_ints(order@) == order_of(v@),
            forall|k: int| 0 <= k < order@.len() ==> (#[trigger] order@[k]) < v@.len(),
            out@ == ascending(v@).take(i as int),
        decreases order@.len() - i,
    {
        out.push(v[order[i]]);
        proof {
            assert(as_ints(order@)[i as int] == order@[i as int]);
            assert(ascending(v@).take(i + 1) =~= ascending(v@).take(i as int).push(
                v@[order@[i as int] as int],
            ));
        }
        i = i + 1;
    }
    proof {
        assert(as_ints(order@).len() == order@.len());
        assert(ascending(v@).take(i as int) =~= ascending(v@));
    }
    out
}

} // verus!
