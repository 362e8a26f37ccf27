//! Stable ranking: the order in which items come out when they are sorted
//! by a count, largest first, with ties kept in their input order.

use vstd::prelude::*;

verus! {

/// In a ranking by `keys`, index `i` comes before index `j` when its key is
/// larger, or when the keys tie and `i` came first.
pub open spec fn goes_before(keys: Seq<nat>, i: int, j: int) -> bool {
    keys[i] > keys[j] || (keys[i] == keys[j] && i < j)
}

/// `order` lists every index of `keys` and lists them in ranking order:
/// larger keys first, ties in their input order.
pub open spec fn is_ranking(keys: Seq<nat>, order: Seq<int>) -> bool {
    &&& order.len() == keys.len()
    &&& forall|a: int| 0 <= a < order.len() ==> 0 <= #[trigger] order[a] < keys.len()
    &&& forall|x: int| 0 <= x < keys.len() ==> #[trigger] order.contains(x)
    &&& forall|a: int, b: int|
        0 <= a < b < order.len() ==> goes_before(keys, #[trigger] order[a], #[trigger] order[b])
}

/// The ranking of the indices of `keys` (the only sequence that
/// `is_ranking` allows, see `lemma_ranking_unique`).
pub open spec fn ranking(keys: Seq<nat>) -> Seq<int> {
    choose|order: Seq<int>| is_ranking(keys, order)
}

/// `keys` as natural numbers.
pub open spec fn nat_keys(keys: Seq<usize>) -> Seq<nat> {
    keys.map_values(|k: usize| k as nat)
}

/// `order` as integers.
pub open spec fn int_indices(order: Seq<usize>) -> Seq<int> {
    order.map_values(|i: usize| i as int)
}

/// There is only one ranking of a sequence of keys.
pub proof fn lemma_ranking_unique(keys: Seq<nat>, o1: Seq<int>, o2: Seq<int>)
    requires
        is_ranking(keys, o1),
        is_ranking(keys, o2),
    ensures
        o1 == o2,
{
    lemma_rankings_agree_below(keys, o1, o2, o1.len() as int);
    assert(o1 =~= o2);
}

proof fn lemma_rankings_agree_below(keys: Seq<nat>, o1: Seq<int>, o2: Seq<int>, k: int)
    requires
        is_ranking(keys, o1),
        is_ranking(keys, o2),
        0 <= k <= o1.len(),
    ensures
        forall|a: int| 0 <= a < k ==> o1[a] == o2[a],
    decreases k,
{
    if k > 0 {
        lemma_rankings_agree_below(keys, o1, o2, k - 1);
        let a = k - 1;
        let x = o1[a];
        let y = o2[a];
        if x != y {
            assert(o1.contains(y));
            let b = choose|b: int| 0 <= b < o1.len() && o1[b] == y;
            assert(o2.contains(x));
            let c = choose|c: int| 0 <= c < o2.len() && o2[c] == x;
            if b < a {
                assert(o1[b] == o2[b]);
                assert(goes_before(keys, o2[b], o2[a]));
            }
            if c < a {
                assert(o1[c] == o2[c]);
                assert(goes_before(keys, o1[c], o1[a]));
            }
            assert(goes_before(keys, o1[a], o1[b]));
            assert(goes_before(keys, o2[a], o2[c]));
        }
    }
}

/// A sequence that is a ranking of `keys` is `ranking(keys)`.
pub proof fn lemma_is_the_ranking(keys: Seq<nat>, order: Seq<int>)
    requires
        is_ranking(keys, order),
    ensures
        ranking(keys) == order,
{
    let r = ranking(keys);
    assert(is_ranking(keys, r));
    lemma_ranking_unique(keys, r, order);
}

/// The sum of a sequence of counts.
pub open spec fn sum_of(s: Seq<nat>) -> nat
    decreases s.len(),
{
    if s.len() == 0 {
        0
    } else {
        sum_of(s.drop_last()) + s.last()
    }
}

/// The counts `w` rearranged by the index sequence `order`.
pub open spec fn permuted(w: Seq<nat>, order: Seq<int>) -> Seq<nat> {
    order.map_values(|i: int| w[i])
}

/// `order` lists each index below `n` exactly once.
pub open spec fn is_index_permutation(order: Seq<int>, n: nat) -> bool {
    &&& order.len() == n
    &&& forall|a: int| 0 <= a < order.len() ==> 0 <= #[trigger] order[a] < n
    &&& forall|x: int| 0 <= x < n ==> #[trigger] order.contains(x)
    &&& order.no_duplicates()
}

/// The first position from `q` on at which `order` holds an index whose key
/// is below `v`, or the length of `order` when there is none.
pub open spec fn first_below(keys: Seq<nat>, order: Seq<int>, v: nat, q: int) -> int
    decreases order.len() - q,
{
    if q >= order.len() || q < 0 {
        order.len() as int
    } else if keys[order[q]] < v {
        q
    } else {
        first_below(keys, order, v, q + 1)
    }
}

proof fn lemma_first_below(keys: Seq<nat>, order: Seq<int>, v: nat, q: int)
    requires
        0 <= q <= order.len(),
    ensures
        q <= first_below(keys, order, v, q) <= order.len(),
        forall|a: int| q <= a < first_below(keys, order, v, q) ==> keys[#[trigger] order[a]] >= v,
        first_below(keys, order, v, q) < order.len() ==> keys[order[first_below(keys, order, v, q)]]
            < v,
    decreases order.len() - q,
{
    if q < order.len() && keys[order[q]] >= v {
        lemma_first_below(keys, order, v, q + 1);
    }
}

/// Every sequence of keys has a ranking, so `ranking(keys)` is one.
pub proof fn lemma_ranking_exists(keys: Seq<nat>)
    ensures
        is_ranking(keys, ranking(keys)),
    decreases keys.len(),
{
    let n = keys.len() as int;
    if n == 0 {
        assert(is_ranking(keys, Seq::<int>::empty()));
    } else {
        let k2 = keys.drop_last();
        lemma_ranking_exists(k2);
        let o2 = ranking(k2);
        let i = n - 1;
        let v = keys[i];
        lemma_first_below(keys, o2, v, 0);
        let p = first_below(keys, o2, v, 0);
        let o = o2.insert(p, i);
        assert forall|a: int| 0 <= a < o2.len() implies 0 <= #[trigger] o2[a] < i && keys[o2[a]]
            == k2[o2[a]] by {}
        assert forall|a: int, b: int| 0 <= a < b < o.len() implies goes_before(
            keys,
            #[trigger] o[a],
            #[trigger] o[b],
        ) by {
            if b < p {
                assert(goes_before(k2, o2[a], o2[b]));
            } else if b == p {
            } else if a < p {
                assert(goes_before(k2, o2[a], o2[b - 1]));
            } else if a == p {
                if b - 1 > p {
                    assert(goes_before(k2, o2[p], o2[b - 1]));
                }
            } else {
                assert(goes_before(k2, o2[a - 1], o2[b - 1]));
            }
        }
        assert forall|x: int| 0 <= x < n implies #[trigger] o.contains(x) by {
            if x == i {
                assert(o[p] == x);
            } else {
                assert(o2.contains(x));
                let q = choose|q: int| 0 <= q < o2.len() && o2[q] == x;
                if q < p {
                    assert(o[q] == x);
                } else {
                    assert(o[q + 1] == x);
                }
            }
        }
        assert forall|a: int| 0 <= a < o.len() implies 0 <= #[trigger] o[a] < n by {
            if a < p {
                assert(o[a] == o2[a]);
            } else if a > p {
                assert(o[a] == o2[a - 1]);
            }
        }
        assert(is_ranking(keys, o));
    }
}

/// A ranking lists each index exactly once.
pub proof fn lemma_ranking_is_permutation(keys: Seq<nat>, order: Seq<int>)
    requires
        is_ranking(keys, order),
    ensures
        is_index_permutation(order, keys.len()),
{
    assert forall|a: int, b: int| 0 <= a < order.len() && 0 <= b < order.len() && a != b implies order[a]
        != order[b] by {
        if a < b {
            assert(goes_before(keys, order[a], order[b]));
        } else {
            assert(goes_before(keys, order[b], order[a]));
        }
    }
}

proof fn lemma_sum_remove(s: Seq<nat>, m: int)
    requires
        0 <= m < s.len(),
    ensures
        sum_of(s) == sum_of(s.remove(m)) + s[m],
    decreases s.len(),
{
    if m == s.len() - 1 {
        assert(s.remove(m) =~= s.drop_last());
    } else {
        let r = s.remove(m);
        lemma_sum_remove(s.drop_last(), m);
        assert(r.drop_last() =~= s.drop_last().remove(m));
        assert(r.last() == s.last());
    }
}

/// Changing one count changes the sum by the difference.
pub proof fn lemma_sum_update(s: Seq<nat>, k: int, v: nat)
    requires
        0 <= k < s.len(),
    ensures
        sum_of(s.update(k, v)) + s[k] == sum_of(s) + v,
    decreases s.len(),
{
    let u = s.update(k, v);
    if k < s.len() - 1 {
        lemma_sum_update(s.drop_last(), k, v);
        assert(u.drop_last() =~= s.drop_last().update(k, v));
    } else {
        assert(u.drop_last() =~= s.drop_last());
    }
}

/// A prefix of a sequence of counts sums to no more than the whole.
pub proof fn lemma_sum_prefix(s: Seq<nat>, k: int)
    requires
        0 <= k <= s.len(),
    ensures
        sum_of(s.take(k)) <= sum_of(s),
    decreases s.len(),
{
    if k == s.len() {
        assert(s.take(k) =~= s);
    } else {
        lemma_sum_prefix(s.drop_last(), k);
        assert(s.drop_last().take(k) =~= s.take(k));
    }
}

/// Rearranging counts by a permutation of their indices keeps their sum.
pub proof fn lemma_sum_permuted(w: Seq<nat>, order: Seq<int>)
    requires
        is_index_permutation(order, w.len()),
    ensures
        sum_of(permuted(w, order)) == sum_of(w),
    decreases w.len(),
{
    let n = w.len();
    if n == 0 {
        assert(permuted(w, order) =~= Seq::<nat>::empty());
    } else {
        let last = n - 1;
        assert(order.contains(last));
        let m = choose|m: int| 0 <= m < order.len() && order[m] == last;
        let rest = order.remove(m);
        let w2 = w.drop_last();
        assert forall|a: int| 0 <= a < rest.len() implies 0 <= #[trigger] rest[a] < w2.len() by {
            if a < m {
                assert(rest[a] == order[a]);
            } else {
                assert(rest[a] == order[a + 1]);
            }
        }
        assert forall|x: int| 0 <= x < w2.len() implies #[trigger] rest.contains(x) by {
            assert(order.contains(x));
            let b = choose|b: int| 0 <= b < order.len() && order[b] == x;
            if b < m {
                assert(rest[b] == x);
            } else {
                assert(rest[b - 1] == x);
            }
        }
        assert forall|a: int, b: int| 0 <= a < rest.len() && 0 <= b < rest.len() && a != b implies rest[a]
            != rest[b] by {
            let a2 = if a < m { a } else { a + 1 };
            let b2 = if b < m { b } else { b + 1 };
            assert(rest[a] == order[a2] && rest[b] == order[b2]);
        }
        lemma_sum_permuted(w2, rest);
        let p = permuted(w, order);
        assert(p.remove(m) =~= permuted(w2, rest));
        lemma_sum_remove(p, m);
    }
}

/// The indices of `keys` in ranking order: largest key first, ties in their
/// input order (a stable sort by descending key).
pub fn rank_descending(keys: &Vec<usize>) -> (order: Vec<usize>)
    ensures
        is_ranking(nat_keys(keys@), int_indices(order@)),
        int_indices(order@) == ranking(nat_keys(keys@)),
{
    let ghost ks = nat_keys(keys@);
    let n = keys.len();
    let mut order: Vec<usize> = Vec::new();
    let mut i: usize = 0;
    while i < n
        invariant
            n == keys.len(),
            ks == nat_keys(keys@),
            i <= n,
            order.len() == i,
            forall|a: int| 0 <= a < i ==> #[trigger] order@[a] < i,
            forall|x: int| 0 <= x < i ==> #[trigger] int_indices(order@).contains(x),
            forall|a: int, b: int|
                0 <= a < b < i ==> goes_before(
                    ks,
                    #[trigger] order@[a] as int,
                    #[trigger] order@[b] as int,
                ),
        decreases n - i,
    {
        let ghost old_order = order@;
        let mut p: usize = 0;
        while p < order.len() && keys[order[p]] >= keys[i]
            invariant
                n == keys.len(),
                order@ == old_order,
                order.len() == i,
                i < n,
                p <= i,
                forall|a: int| 0 <= a < i ==> #[trigger] order@[a] < i,
                forall|q: int| 0 <= q < p ==> keys@[#[trigger] order@[q] as int] >= keys@[i as int],
            decreases i - p,
        {
            p = p + 1;
        }
        order.insert(p, i);
        proof {
            assert(order@ == old_order.insert(p as int, i));
            assert forall|a: int, b: int| 0 <= a < b < i + 1 implies goes_before(
                ks,
                #[trigger] order@[a] as int,
                #[trigger] order@[b] as int,
            ) by {
                if b < p {
                    assert(order@[a] == old_order[a] && order@[b] == old_order[b]);
                } else if b == p {
                    assert(order@[a] == old_order[a]);
                    assert(keys@[old_order[a] as int] >= keys@[i as int]);
                } else if a < p {
                    assert(order@[a] == old_order[a] && order@[b] == old_order[b - 1]);
                } else if a == p {
                    assert(order@[b] == old_order[b - 1]);
                    assert(keys@[old_order[p as int] as int] < keys@[i as int]);
                    if b - 1 > p {
                        assert(goes_before(ks, old_order[p as int] as int, old_order[b - 1] as int));
                    }
                } else {
                    assert(order@[a] == old_order[a - 1] && order@[b] == old_order[b - 1]);
                }
            }
            assert forall|x: int| 0 <= x < i + 1 implies #[trigger] int_indices(order@).contains(x) by {
                if x == i {
                    assert(int_indices(order@)[p as int] == x);
                } else {
                    assert(int_indices(old_order).contains(x));
                    let q = choose|q: int| 0 <= q < old_order.len() && int_indices(old_order)[q] == x;
                    if q < p {
                        assert(int_indices(order@)[q] == x);
                    } else {
                        assert(int_indices(order@)[q + 1] == x);
                    }
                }
            }
            assert forall|a: int| 0 <= a < i + 1 implies #[trigger] order@[a] < i + 1 by {
                if a < p {
                    assert(order@[a] == old_order[a]);
                } else if a > p {
                    assert(order@[a] == old_order[a - 1]);
                }
            }
        }
        i = i + 1;
    }
    proof {
        let ord = int_indices(order@);
        assert forall|a: int| 0 <= a < ord.len() implies 0 <= #[trigger] ord[a] < ks.len() by {
            assert(order@[a] < n);
        }
        assert forall|a: int, b: int| 0 <= a < b < ord.len() implies goes_before(
            ks,
            #[trigger] ord[a],
            #[trigger] ord[b],
        ) by {
            assert(goes_before(ks, order@[a] as int, order@[b] as int));
        }
        lemma_is_the_ranking(ks, ord);
    }
    order
}

} // verus!
