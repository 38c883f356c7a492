//! Stable sorting by an integer key.
//!
//! A sort is described by the order in which it visits the items: a permutation of their
//! indices, ascending by key, equal keys in their first order. There is exactly one such
//! permutation for a sequence of keys.
use crate::types::U256;
use vstd::prelude::*;

verus! {

/// `order` visits the keys in ascending order, equal keys in index order.
pub open spec fn is_stable_order(keys: Seq<int>, order: Seq<int>) -> bool {
    &&& order.len() == keys.len()
    &&& forall|i: int| 0 <= i < order.len() ==> 0 <= #[trigger] order[i] < keys.len()
    &&& forall|i: int, j: int|
        0 <= i < j < order.len() ==> comes_before(keys, #[trigger] order[i], #[trigger] order[j])
}

/// Index `a` sorts before index `b`.
pub open spec fn comes_before(keys: Seq<int>, a: int, b: int) -> bool {
    keys[a] < keys[b] || (keys[a] == keys[b] && a < b)
}

/// The permutation that sorts `keys` stably.
pub open spec fn stable_order(keys: Seq<int>) -> Seq<int> {
    choose|order: Seq<int>| is_stable_order(keys, order)
}

/// `items` in the order given by indices.
pub open spec fn permute<T>(items: Seq<T>, order: Seq<int>) -> Seq<T> {
    Seq::new(order.len(), |i: int| items[order[i]])
}

/// `items` sorted stably by `keys`.
pub open spec fn sort_by_keys<T>(items: Seq<T>, keys: Seq<int>) -> Seq<T> {
    permute(items, stable_order(keys))
}

/// The integers that `keys` stand for.
pub open spec fn key_values(keys: Seq<U256>) -> Seq<int> {
    keys.map_values(|k: U256| k@)
}

/// Distinct indices below `n`, `n` of them, are all the indices below `n`.
proof fn lemma_covers(order: Seq<int>, n: nat, x: int)
    requires
        order.len() == n,
        forall|i: int| 0 <= i < n ==> 0 <= #[trigger] order[i] < n,
        forall|i: int, j: int| 0 <= i < j < n ==> #[trigger] order[i] != #[trigger] order[j],
        0 <= x < n,
    ensures
        order.contains(x),
{
    let all = vstd::set_lib::set_int_range(0, n as int);
    vstd::set_lib::lemma_int_range(0, n as int);
    assert(order.no_duplicates());
    order.unique_seq_to_set();
    assert(order.to_set().subset_of(all));
    vstd::set_lib::lemma_subset_equality(order.to_set(), all);
    assert(all.contains(x));
}

/// A stable order visits every index.
pub proof fn lemma_order_covers(keys: Seq<int>, order: Seq<int>, x: int)
    requires
        is_stable_order(keys, order),
        0 <= x < keys.len(),
    ensures
        order.contains(x),
{
    assert forall|i: int, j: int| 0 <= i < j < order.len() implies #[trigger] order[i]
        != #[trigger] order[j] by {
        assert(comes_before(keys, order[i], order[j]));
    }
    lemma_covers(order, keys.len(), x);
}

/// There is only one stable order.
pub proof fn stable_order_is_unique(keys: Seq<int>, a: Seq<int>, b: Seq<int>)
    requires
        is_stable_order(keys, a),
        is_stable_order(keys, b),
    ensures
        a == b,
{
    if a != b {
        assert(a.len() == b.len());
        let d = lemma_first_difference(a, b);
        // The element that `a` puts at `d` stands later in `b`, and the other way round.
        lemma_order_covers(keys, b, a[d]);
        let p = choose|p: int| 0 <= p < b.len() && b[p] == a[d];
        lemma_order_covers(keys, a, b[d]);
        let q = choose|q: int| 0 <= q < a.len() && a[q] == b[d];
        if p < d {
            assert(a[p] == a[d]);
            assert(comes_before(keys, a[p], a[d]));
        }
        if q < d {
            assert(b[q] == b[d]);
            assert(comes_before(keys, b[q], b[d]));
        }
        assert(comes_before(keys, b[d], b[p]));
        assert(comes_before(keys, a[d], a[q]));
    }
}

/// The first index at which two sequences of one length differ.
proof fn lemma_first_difference(a: Seq<int>, b: Seq<int>) -> (d: int)
    requires
        a.len() == b.len(),
        a != b,
    ensures
        0 <= d < a.len(),
        a[d] != b[d],
        forall|i: int| 0 <= i < d ==> a[i] == b[i],
    decreases a.len(),
{
    assert(a.len() > 0) by {
        if a.len() == 0 {
            assert(a =~= b);
        }
    }
    if a.drop_last() == b.drop_last() {
        let d = a.len() - 1;
        assert(a[d] != b[d]) by {
            if a[d] == b[d] {
                assert(a =~= a.drop_last().push(a[d]));
                assert(b =~= b.drop_last().push(b[d]));
            }
        }
        assert forall|i: int| 0 <= i < d implies a[i] == b[i] by {
            assert(a.drop_last()[i] == b.drop_last()[i]);
        }
        d
    } else {
        let d = lemma_first_difference(a.drop_last(), b.drop_last());
        assert forall|i: int| 0 <= i < d implies a[i] == b[i] by {
            assert(a.drop_last()[i] == b.drop_last()[i]);
        }
        d
    }
}

/// A stable order, once found, is [`stable_order`].
pub proof fn lemma_stable_order(keys: Seq<int>, order: Seq<int>)
    requires
        is_stable_order(keys, order),
    ensures
        stable_order(keys) == order,
{
    stable_order_is_unique(keys, stable_order(keys), order);
}

/// Keys that already ascend are left in place.
pub proof fn sorting_is_idempotent(keys: Seq<int>)
    requires
        forall|i: int, j: int| 0 <= i <= j < keys.len() ==> keys[i] <= keys[j],
    ensures
        stable_order(keys) == Seq::new(keys.len(), |i: int| i),
{
    lemma_stable_order(keys, Seq::new(keys.len(), |i: int| i));
}

/// The integers of a sequence of indices.
pub open spec fn as_ints(s: Seq<usize>) -> Seq<int> {
    s.map_values(|x: usize| x as int)
}

/// The number of leading entries of `order` whose key is at most `key`.
fn upper_bound(keys: &[U256], order: &Vec<usize>, key: U256) -> (r: usize)
    requires
        forall|i: int| 0 <= i < order@.len() ==> (#[trigger] order@[i]) < keys@.len(),
        forall|i: int, j: int|
            0 <= i <= j < order@.len() ==> keys@[(#[trigger] order@[i]) as int]@
                <= keys@[(#[trigger] order@[j]) as int]@,
    ensures
        r <= order@.len(),
        forall|i: int| 0 <= i < r ==> keys@[(#[trigger] order@[i]) as int]@ <= key@,
        forall|i: int| r <= i < order@.len() ==> keys@[(#[trigger] order@[i]) as int]@ > key@,
{
    let mut lo: usize = 0;
    let mut hi: usize = order.len();
    while lo < hi
        invariant
            lo <= hi <= order@.len(),
            forall|i: int| 0 <= i < order@.len() ==> (#[trigger] order@[i]) < keys@.len(),
            forall|i: int, j: int|
                0 <= i <= j < order@.len() ==> keys@[(#[trigger] order@[i]) as int]@
                    <= keys@[(#[trigger] order@[j]) as int]@,
            forall|i: int| 0 <= i < lo ==> keys@[(#[trigger] order@[i]) as int]@ <= key@,
            forall|i: int|
                hi <= i < order@.len() ==> keys@[(#[trigger] order@[i]) as int]@ > key@,
        decreases hi - lo,
    {
        let mid: usize = lo + (hi - lo) / 2;
        if keys[order[mid]] <= key {
            lo = mid + 1;
        } else {
            hi = mid;
        }
    }
    lo
}

/// The stable order of `keys`, by binary insertion.
pub fn stable_order_of(keys: &[U256]) -> (r: Vec<usize>)
    ensures
        as_ints(r@) == stable_order(key_values(keys@)),
        is_stable_order(key_values(keys@), as_ints(r@)),
{
    let ghost ks = key_values(keys@);
    let mut order: Vec<usize> = Vec::new();
    let mut n: usize = 0;
    while n < keys.len()
        invariant
            n <= keys@.len(),
            ks == key_values(keys@),
            order@.len() == n,
            forall|i: int| 0 <= i < n ==> (#[trigger] order@[i]) < n,
            forall|i: int, j: int|
                0 <= i < j < n ==> comes_before(
                    ks,
                    (#[trigger] order@[i]) as int,
                    (#[trigger] order@[j]) as int,
                ),
        decreases keys@.len() - n,
    {
        let ghost before = order@;
        proof {
            assert forall|i: int, j: int| 0 <= i <= j < order@.len() implies keys@[(
            #[trigger] order@[i]) as int]@ <= keys@[(#[trigger] order@[j]) as int]@ by {
                if i < j {
                    assert(comes_before(ks, order@[i] as int, order@[j] as int));
                }
            }
        }
        let at: usize = upper_bound(keys, &order, keys[n]);
        order.insert(at, n);
        proof {
            assert(order@ == before.insert(at as int, n));
            assert forall|i: int, j: int| 0 <= i < j < n + 1 implies comes_before(
                ks,
                (#[trigger] order@[i]) as int,
                (#[trigger] order@[j]) as int,
            ) by {
                if i < at && j > at {
                    assert(comes_before(ks, before[i] as int, before[j - 1] as int));
                } else if i > at {
                    assert(comes_before(ks, before[i - 1] as int, before[j - 1] as int));
                } else if j < at {
                    assert(comes_before(ks, before[i] as int, before[j] as int));
                } else if i == at {
                    assert(keys@[before[j - 1] as int]@ > keys@[n as int]@);
                } else {
                    assert(keys@[before[i] as int]@ <= keys@[n as int]@);
                }
            }
        }
        n += 1;
    }
    proof {
        let ints = as_ints(order@);
        assert forall|i: int, j: int| 0 <= i < j < ints.len() implies comes_before(
            ks,
            #[trigger] ints[i],
            #[trigger] ints[j],
        ) by {
            assert(comes_before(ks, order@[i] as int, order@[j] as int));
        }
        assert forall|i: int| 0 <= i < ints.len() implies 0 <= #[trigger] ints[i] < ks.len() by {
            assert(order@[i] < n);
        }
        lemma_stable_order(ks, ints);
    }
    order
}

/// `items` sorted stably by `keys`, one key per item.
pub fn sorted_by_keys<T: Copy>(items: &[T], keys: &[U256]) -> (r: Vec<T>)
    requires
        items@.len() == keys@.len(),
    ensures
        r@ == sort_by_keys(items@, key_values(keys@)),
        is_stable_order(key_values(keys@), stable_order(key_values(keys@))),
{
    let order = stable_order_of(keys);
    let ghost ints = as_ints(order@);
    let mut out: Vec<T> = Vec::new();
    let mut i: usize = 0;
    while i < order.len()
        invariant
            i <= order@.len(),
            out@.len() == i,
            order@.len() == items@.len(),
            ints == as_ints(order@),
            is_stable_order(key_values(keys@), ints),
            items@.len() == keys@.len(),
            forall|j: int| 0 <= j < i ==> out@[j] == items@[ints[j]],
        decreases order@.len() - i,
    {
        assert(ints[i as int] == order@[i as int]);
        out.push(items[order[i]]);
        i += 1;
    }
    assert(out@ =~= sort_by_keys(items@, key_values(keys@)));
    out
}

/// Sorting keeps every item and adds none.
pub proof fn sorting_keeps_the_items<T>(items: Seq<T>, keys: Seq<int>, order: Seq<int>, x: T)
    requires
        items.len() == keys.len(),
        is_stable_order(keys, order),
    ensures
        permute(items, order).contains(x) <==> items.contains(x),
        permute(items, order).len() == items.len(),
{
    let out = permute(items, order);
    if items.contains(x) {
        let k = choose|k: int| 0 <= k < items.len() && items[k] == x;
        lemma_order_covers(keys, order, k);
        let p = choose|p: int| 0 <= p < order.len() && order[p] == k;
        assert(out[p] == x);
    }
    if out.contains(x) {
        let p = choose|p: int| 0 <= p < out.len() && out[p] == x;
        assert(items[order[p]] == x);
    }
}

/// Where a key belongs among sorted ones: behind those that are at most as large.
spec fn place_among(keys: Seq<int>, order: Seq<int>, key: int) -> int
    decreases order.len(),
{
    if order.len() == 0 {
        0
    } else if keys[order.last()] <= key {
        order.len() as int
    } else {
        place_among(keys, order.drop_last(), key)
    }
}

proof fn lemma_place_among(keys: Seq<int>, order: Seq<int>, key: int)
    requires
        forall|i: int, j: int|
            0 <= i < j < order.len() ==> comes_before(
                keys,
                #[trigger] order[i],
                #[trigger] order[j],
            ),
    ensures
        0 <= place_among(keys, order, key) <= order.len(),
        forall|i: int|
            0 <= i < place_among(keys, order, key) ==> keys[#[trigger] order[i]] <= key,
        forall|i: int|
            place_among(keys, order, key) <= i < order.len() ==> keys[#[trigger] order[i]] > key,
    decreases order.len(),
{
    if order.len() > 0 {
        let front = order.drop_last();
        if keys[order.last()] <= key {
            assert forall|i: int| 0 <= i < order.len() implies keys[#[trigger] order[i]]
                <= key by {
                if i < order.len() - 1 {
                    assert(comes_before(keys, order[i], order[order.len() - 1]));
                }
            }
        } else {
            assert forall|i: int, j: int| 0 <= i < j < front.len() implies comes_before(
                keys,
                #[trigger] front[i],
                #[trigger] front[j],
            ) by {
                assert(comes_before(keys, order[i], order[j]));
            }
            lemma_place_among(keys, front, key);
            let p = place_among(keys, front, key);
            assert forall|i: int| 0 <= i < p implies keys[#[trigger] order[i]] <= key by {
                assert(keys[front[i]] <= key);
            }
            assert forall|i: int| p <= i < order.len() implies keys[#[trigger] order[i]] > key by {
                if i < front.len() {
                    assert(keys[front[i]] > key);
                }
            }
        }
    }
}

/// Keys have a stable order.
pub proof fn a_stable_order_exists(keys: Seq<int>)
    ensures
        is_stable_order(keys, stable_order(keys)),
    decreases keys.len(),
{
    if keys.len() == 0 {
        assert(is_stable_order(keys, Seq::empty()));
    } else {
        let front = keys.drop_last();
        let n = front.len() as int;
        a_stable_order_exists(front);
        let before = stable_order(front);
        assert forall|i: int, j: int| 0 <= i < j < before.len() implies comes_before(
            keys,
            #[trigger] before[i],
            #[trigger] before[j],
        ) by {
            assert(comes_before(front, before[i], before[j]));
        }
        lemma_place_among(keys, before, keys[n]);
        let p = place_among(keys, before, keys[n]);
        let order = before.insert(p, n);
        assert forall|i: int| 0 <= i < order.len() implies 0 <= #[trigger] order[i]
            < keys.len() by {
            if i < p {
                assert(order[i] == before[i]);
            } else if i > p {
                assert(order[i] == before[i - 1]);
            }
        }
        assert forall|i: int, j: int| 0 <= i < j < order.len() implies comes_before(
            keys,
            #[trigger] order[i],
            #[trigger] order[j],
        ) by {
            if j < p {
                assert(comes_before(keys, before[i], before[j]));
            } else if i > p {
                assert(comes_before(keys, before[i - 1], before[j - 1]));
            } else if i < p && j > p {
                assert(comes_before(keys, before[i], before[j - 1]));
            } else if i == p {
                assert(keys[before[j - 1]] > keys[n]);
            } else {
                assert(keys[before[i]] <= keys[n]);
                assert(0 <= before[i] < n);
            }
        }
        assert(is_stable_order(keys, order));
    }
}

} // verus!
