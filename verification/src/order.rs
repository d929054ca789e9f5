//! Stable sorting and binary search.

use vstd::prelude::*;
use crate::bits;
use crate::bits::{f64_key, f64_le};

verus! {

/// Index `a` comes before index `b`: by key, equal keys by index.
pub open spec fn before(keys: Seq<i64>, a: int, b: int) -> bool {
    keys[a] < keys[b] || (keys[a] == keys[b] && a < b)
}

/// `order` lists every index of `keys` once, by key, equal keys in their given order.
pub open spec fn sorted_order(keys: Seq<i64>, order: Seq<usize>) -> bool {
    &&& order.len() == keys.len()
    &&& forall|i: int| 0 <= i < order.len() ==> #[trigger] order[i] < keys.len()
    &&& forall|i: int, j: int|
        0 <= i < j < order.len() ==> before(keys, #[trigger] order[i] as int, #[trigger] order[j] as int)
    &&& forall|k: int| 0 <= k < keys.len() ==> #[trigger] listed(order, k)
}

/// Index `k` stands somewhere in `order`.
pub open spec fn listed(order: Seq<usize>, k: int) -> bool {
    exists|i: int| 0 <= i < order.len() && #[trigger] order[i] == k
}

/// The order in which a stable sort puts the keys.
pub open spec fn order_of(keys: Seq<i64>) -> Seq<usize> {
    choose|order: Seq<usize>| sorted_order(keys, order)
}

/// There is only one such order.
pub proof fn law_sorted_order_is_unique(keys: Seq<i64>, a: Seq<usize>, b: Seq<usize>)
    requires
        sorted_order(keys, a),
        sorted_order(keys, b),
    ensures
        a == b,
{
    lemma_same_up_to(keys, a, b, keys.len());
    assert(a =~= b);
}

proof fn lemma_same_up_to(keys: Seq<i64>, a: Seq<usize>, b: Seq<usize>, n: nat)
    requires
        sorted_order(keys, a),
        sorted_order(keys, b),
        n <= keys.len(),
    ensures
        forall|i: int| 0 <= i < n ==> #[trigger] a[i] == b[i],
    decreases n,
{
    if n > 0 {
        let i = n - 1;
        lemma_same_up_to(keys, a, b, i as nat);
        assert(listed(b, a[i] as int));
        assert(listed(a, b[i] as int));
        let p = choose|p: int| 0 <= p < b.len() && #[trigger] b[p] == a[i];
        let q = choose|q: int| 0 <= q < a.len() && #[trigger] a[q] == b[i];
        if p < i {
            assert(a[p] == b[p]);
            assert(before(keys, a[p] as int, a[i] as int));
        }
        if q < i {
            assert(a[q] == b[q]);
            assert(before(keys, b[q] as int, b[i] as int));
        }
        if p > i && q > i {
            assert(before(keys, b[i] as int, b[p] as int));
            assert(before(keys, a[i] as int, a[q] as int));
        }
    }
}

proof fn lemma_insert(keys: Seq<i64>, order: Seq<usize>, n: usize, p: int)
    requires
        n < keys.len(),
        sorted_order(keys.take(n as int), order),
        0 <= p <= order.len(),
        forall|i: int| 0 <= i < p ==> keys[#[trigger] order[i] as int] <= keys[n as int],
        forall|i: int| p <= i < order.len() ==> keys[#[trigger] order[i] as int] > keys[n as int],
    ensures
        sorted_order(keys.take(n + 1), order.insert(p, n)),
{
    let old_keys = keys.take(n as int);
    let new_keys = keys.take(n + 1);
    let out = order.insert(p, n);
    assert forall|i: int, j: int| 0 <= i < j < out.len() implies before(
        new_keys,
        #[trigger] out[i] as int,
        #[trigger] out[j] as int,
    ) by {
        let oi = if i < p { i } else { i - 1 };
        let oj = if j < p { j } else { j - 1 };
        if i != p && j != p {
            assert(before(old_keys, order[oi] as int, order[oj] as int));
        }
    }
    assert forall|k: int| 0 <= k < new_keys.len() implies #[trigger] listed(out, k) by {
        if k == n {
            assert(out[p] == k);
        } else {
            assert(listed(order, k));
            let i = choose|i: int| 0 <= i < order.len() && #[trigger] order[i] == k;
            if i < p {
                assert(out[i] == k);
            } else {
                assert(out[i + 1] == k);
            }
        }
    }
}

/// The place at which a stable sort inserts a key.
proof fn lemma_place_for(keys: Seq<i64>, order: Seq<usize>, n: int, hi: int) -> (p: int)
    requires
        0 <= n < keys.len(),
        sorted_order(keys.take(n), order),
        0 <= hi <= order.len(),
        forall|i: int| hi <= i < order.len() ==> keys[#[trigger] order[i] as int] > keys[n],
    ensures
        0 <= p <= hi,
        forall|i: int| 0 <= i < p ==> keys[#[trigger] order[i] as int] <= keys[n],
        forall|i: int| p <= i < order.len() ==> keys[#[trigger] order[i] as int] > keys[n],
    decreases hi,
{
    if hi == 0 {
        0
    } else if keys[order[hi - 1] as int] > keys[n] {
        lemma_place_for(keys, order, n, hi - 1)
    } else {
        assert forall|i: int| 0 <= i < hi implies keys[#[trigger] order[i] as int] <= keys[n] by {
            if i < hi - 1 {
                assert(before(keys.take(n), order[i] as int, order[hi - 1] as int));
            }
        }
        hi
    }
}

/// Sorts the first `n` items by inserting one after the other.
proof fn lemma_order_of_first<T>(keys: Seq<i64>, items: Seq<T>, n: nat) -> (order: Seq<usize>)
    requires
        n <= keys.len() <= usize::MAX,
        items.len() == keys.len(),
    ensures
        sorted_order(keys.take(n as int), order),
        picked(items, order).to_multiset() == items.take(n as int).to_multiset(),
    decreases n,
{
    if n == 0 {
        let order = Seq::<usize>::empty();
        assert(picked(items, order) =~= items.take(0));
        order
    } else {
        let k = n - 1;
        let rest = lemma_order_of_first(keys, items, k as nat);
        let p = lemma_place_for(keys, rest, k, rest.len() as int);
        lemma_insert(keys, rest, k as usize, p);
        let order = rest.insert(p, k as usize);
        vstd::seq_lib::to_multiset_insert(picked(items, rest), p, items[k]);
        assert(picked(items, order) =~= picked(items, rest).insert(p, items[k]));
        vstd::seq_lib::to_multiset_build(items.take(k), items[k]);
        assert(items.take(n as int) =~= items.take(k).push(items[k]));
        order
    }
}

/// There is such an order for all keys that can be counted.
pub proof fn law_sorted_order_exists(keys: Seq<i64>)
    requires
        keys.len() <= usize::MAX,
    ensures
        sorted_order(keys, order_of(keys)),
{
    let order = lemma_order_of_first(keys, keys, keys.len());
    assert(keys.take(keys.len() as int) =~= keys);
}

/// Sorting rearranges: nothing is lost, added or repeated.
pub proof fn law_sorting_rearranges<T>(keys: Seq<i64>, items: Seq<T>)
    requires
        items.len() == keys.len() <= usize::MAX,
    ensures
        picked(items, order_of(keys)).to_multiset() == items.to_multiset(),
        picked(items, order_of(keys)).len() == items.len(),
        forall|x: T| picked(items, order_of(keys)).contains(x) <==> items.contains(x),
{
    let order = lemma_order_of_first(keys, items, keys.len());
    assert(keys.take(keys.len() as int) =~= keys);
    assert(items.take(keys.len() as int) =~= items);
    law_sorted_order_is_unique(keys, order, order_of(keys));
    let sorted = picked(items, order);
    assert forall|x: T| sorted.contains(x) <==> items.contains(x) by {
        vstd::seq_lib::to_multiset_contains(sorted, x);
        vstd::seq_lib::to_multiset_contains(items, x);
    }
}

/// Keys rise from each item to the next.
pub open spec fn rising<T>(items: Seq<T>, key: spec_fn(T) -> int) -> bool {
    forall|i: int, j: int|
        0 <= i < j < items.len() ==> key(#[trigger] items[i]) < key(#[trigger] items[j])
}

/// Items whose keys all differ can be lined up by key in one way only.
pub proof fn law_rising_items_are_unique<T>(a: Seq<T>, b: Seq<T>, key: spec_fn(T) -> int)
    requires
        rising(a, key),
        rising(b, key),
        a.to_multiset() == b.to_multiset(),
    ensures
        a == b,
    decreases a.len(),
{
    vstd::seq_lib::to_multiset_len(a);
    vstd::seq_lib::to_multiset_len(b);
    if a.len() == 0 {
        assert(a =~= b);
    } else {
        let n = a.len() - 1;
        assert(a.contains(a[n]));
        assert(b.contains(b[n]));
        vstd::seq_lib::to_multiset_contains(a, a[n]);
        vstd::seq_lib::to_multiset_contains(b, a[n]);
        vstd::seq_lib::to_multiset_contains(a, b[n]);
        vstd::seq_lib::to_multiset_contains(b, b[n]);
        let p = choose|p: int| 0 <= p < b.len() && b[p] == a[n];
        let q = choose|q: int| 0 <= q < a.len() && a[q] == b[n];
        assert(p == n) by {
            if p < n {
                assert(key(b[p]) < key(b[n]));
                if q < n {
                    assert(key(a[q]) < key(a[n]));
                }
            }
        }
        vstd::seq_lib::to_multiset_remove(a, n);
        vstd::seq_lib::to_multiset_remove(b, n);
        assert(a.remove(n) =~= a.drop_last());
        assert(b.remove(n) =~= b.drop_last());
        law_rising_items_are_unique(a.drop_last(), b.drop_last(), key);
        assert(a =~= a.drop_last().push(a[n]));
        assert(b =~= b.drop_last().push(b[n]));
    }
}

/// The order in which a stable sort puts the keys.
pub fn sort_order(keys: &[i64]) -> (order: Vec<usize>)
    ensures
        sorted_order(keys@, order@),
        order@ == order_of(keys@),
{
    let mut order: Vec<usize> = Vec::new();
    let mut n: usize = 0;
    while n < keys.len()
        invariant
            n <= keys@.len(),
            sorted_order(keys@.take(n as int), order@),
        decreases keys@.len() - n,
    {
        let key: i64 = keys[n];
        let mut lo: usize = 0;
        let mut hi: usize = order.len();
        if order.len() > 0 && keys[order[order.len() - 1]] <= key {
            lo = hi;
            assert forall|i: int| 0 <= i < lo implies keys@[#[trigger] order@[i] as int] <= key by {
                if i < lo - 1 {
                    assert(before(keys@.take(n as int), order@[i] as int, order@[lo - 1] as int));
                }
            }
        }
        while lo < hi
            invariant
                n < keys@.len(),
                key == keys@[n as int],
                lo <= hi <= order@.len(),
                sorted_order(keys@.take(n as int), order@),
                forall|i: int| 0 <= i < lo ==> keys@[#[trigger] order@[i] as int] <= key,
                forall|i: int| hi <= i < order@.len() ==> keys@[#[trigger] order@[i] as int] > key,
            decreases hi - lo,
        {
            let mid: usize = lo + (hi - lo) / 2;
            if keys[order[mid]] <= key {
                assert forall|i: int| 0 <= i < mid + 1 implies keys@[#[trigger] order@[i] as int]
                    <= key by {
                    if i < mid {
                        assert(before(keys@.take(n as int), order@[i] as int, order@[mid as int] as int));
                    }
                }
                lo = mid + 1;
            } else {
                assert forall|i: int| mid <= i < order@.len() implies keys@[#[trigger] order@[i] as int]
                    > key by {
                    if i > mid {
                        assert(before(keys@.take(n as int), order@[mid as int] as int, order@[i] as int));
                    }
                }
                hi = mid;
            }
        }
        proof {
            lemma_insert(keys@, order@, n, lo as int);
        }
        order.insert(lo, n);
        n += 1;
    }
    proof {
        assert(keys@.take(n as int) =~= keys@);
        law_sorted_order_is_unique(keys@, order@, order_of(keys@));
    }
    order
}

/// The keys by which times are sorted.
pub open spec fn time_keys(times: Seq<u64>) -> Seq<i64> {
    Seq::new(times.len(), |i: int| bits::f64_key_of(times[i]) as i64)
}

/// The elements of `items` at the indices in `order`.
pub open spec fn picked<T>(items: Seq<T>, order: Seq<usize>) -> Seq<T> {
    Seq::new(order.len(), |i: int| items[order[i] as int])
}

/// Picks out the elements at the indices in `order`.
pub fn pick<T: Copy>(items: &[T], order: &[usize]) -> (out: Vec<T>)
    requires
        forall|i: int| 0 <= i < order@.len() ==> #[trigger] order@[i] < items@.len(),
    ensures
        out@ == picked(items@, order@),
{
    let mut out: Vec<T> = Vec::with_capacity(order.len());
    let mut i: usize = 0;
    while i < order.len()
        invariant
            i <= order@.len(),
            forall|k: int| 0 <= k < order@.len() ==> #[trigger] order@[k] < items@.len(),
            out@ == picked(items@, order@).take(i as int),
        decreases order@.len() - i,
    {
        out.push(items[order[i]]);
        assert(out@ =~= picked(items@, order@).take(i + 1));
        i += 1;
    }
    assert(out@ =~= picked(items@, order@));
    out
}

/// No time is not a number, unless there is nothing to compare.
pub open spec fn comparable(times: Seq<u64>) -> bool {
    times.len() <= 1 || forall|i: int| 0 <= i < times.len() ==> !bits::f64_nan(#[trigger] times[i])
}

/// Times in ascending order.
pub open spec fn ascending(times: Seq<u64>) -> bool {
    forall|i: int, j: int|
        0 <= i < j < times.len() ==> bits::le64(#[trigger] times[i], #[trigger] times[j])
}

/// The order in which a stable sort puts times (bit patterns of doubles).
pub fn times_order(times: &[u64]) -> (order: Vec<usize>)
    ensures
        order@ == order_of(time_keys(times@)),
        sorted_order(time_keys(times@), order@),
{
    let mut keys: Vec<i64> = Vec::with_capacity(times.len());
    let mut i: usize = 0;
    while i < times.len()
        invariant
            i <= times@.len(),
            keys@ == time_keys(times@).take(i as int),
        decreases times@.len() - i,
    {
        keys.push(f64_key(times[i]));
        assert(keys@ =~= time_keys(times@).take(i + 1));
        i += 1;
    }
    assert(keys@ =~= time_keys(times@));
    sort_order(keys.as_slice())
}

/// Times in ascending order, equal times in their given order.
pub fn sort_times(times: &[u64]) -> (sorted: Vec<u64>)
    requires
        comparable(times@),
    ensures
        sorted@ == picked(times@, order_of(time_keys(times@))),
        sorted@.to_multiset() == times@.to_multiset(),
        sorted@.len() == times@.len(),
        ascending(sorted@),
{
    let order: Vec<usize> = times_order(times);
    let sorted: Vec<u64> = pick(times, order.as_slice());
    proof {
        assert(times.len() <= usize::MAX);
        law_sorting_rearranges(time_keys(times@), times@);
        assert forall|a: int, b: int| 0 <= a < b < sorted@.len() implies bits::le64(
            #[trigger] sorted@[a],
            #[trigger] sorted@[b],
        ) by {
            let keys = time_keys(times@);
            assert(before(keys, order@[a] as int, order@[b] as int));
            assert(!bits::f64_nan(times@[order@[a] as int]));
            assert(!bits::f64_nan(times@[order@[b] as int]));
        }
    }
    sorted
}

/// The first `p` times are at most `t`, the others are not.
pub open spec fn splits(times: Seq<u64>, t: u64, p: int) -> bool {
    &&& 0 <= p <= times.len()
    &&& forall|i: int| 0 <= i < p ==> bits::le64(#[trigger] times[i], t)
    &&& forall|i: int| p <= i < times.len() ==> !bits::le64(#[trigger] times[i], t)
}

/// Number of times at or before `t`.
pub fn count_until(times: &[u64], t: u64) -> (p: usize)
    requires
        ascending(times@),
    ensures
        splits(times@, t, p as int),
{
    let mut lo: usize = 0;
    let mut hi: usize = times.len();
    while lo < hi
        invariant
            lo <= hi <= times@.len(),
            ascending(times@),
            forall|i: int| 0 <= i < lo ==> bits::le64(#[trigger] times@[i], t),
            forall|i: int| hi <= i < times@.len() ==> !bits::le64(#[trigger] times@[i], t),
        decreases hi - lo,
    {
        let mid: usize = lo + (hi - lo) / 2;
        if f64_le(times[mid], t) {
            assert forall|i: int| 0 <= i < mid + 1 implies bits::le64(#[trigger] times@[i], t) by {
                if i < mid {
                    assert(bits::le64(times@[i], times@[mid as int]));
                }
            }
            lo = mid + 1;
        } else {
            assert forall|i: int| mid <= i < times@.len() implies !bits::le64(
                #[trigger] times@[i],
                t,
            ) by {
                if i > mid {
                    assert(bits::le64(times@[mid as int], times@[i]));
                }
            }
            hi = mid;
        }
    }
    lo
}

/// At most one position splits.
pub proof fn law_split_is_unique(times: Seq<u64>, t: u64, p: int, q: int)
    requires
        splits(times, t, p),
        splits(times, t, q),
    ensures
        p == q,
{
    if p < q {
        assert(bits::le64(times[p], t));
    }
    if q < p {
        assert(bits::le64(times[q], t));
    }
}

/// Later times have no fewer times at or before them.
pub proof fn law_split_is_monotone(times: Seq<u64>, t: u64, u: u64, p: int, q: int)
    requires
        bits::le64(t, u),
        splits(times, t, p),
        splits(times, u, q),
    ensures
        p <= q,
{
    if q < p {
        assert(bits::le64(times[q], t));
        assert(bits::le64(times[q], u));
    }
}

/// A sorted order goes up by key and keeps equal keys in their given order; it lists every index
/// and none twice.
pub proof fn law_sorted_order_goes_up(keys: Seq<i64>, order: Seq<usize>, i: int, j: int, k: int)
    requires
        sorted_order(keys, order),
        0 <= i < j < order.len(),
        0 <= k < keys.len(),
    ensures
        order.len() == keys.len(),
        order[i] < keys.len() && order[j] < keys.len(),
        keys[order[i] as int] <= keys[order[j] as int],
        keys[order[i] as int] == keys[order[j] as int] ==> order[i] < order[j],
        order[i] != order[j],
        exists|p: int| 0 <= p < order.len() && #[trigger] order[p] == k,
{
    assert(before(keys, order[i] as int, order[j] as int));
    assert(listed(order, k));
}

/// The keys by which times are sorted order them by value.
pub proof fn law_time_keys_order_by_value(times: Seq<u64>, i: int, j: int)
    requires
        0 <= i < times.len(),
        0 <= j < times.len(),
    ensures
        time_keys(times).len() == times.len(),
        time_keys(times)[i] < time_keys(times)[j] <==> bits::f64_units(times[i]) < bits::f64_units(
            times[j],
        ),
        time_keys(times)[i] == time_keys(times)[j] <==> bits::f64_units(times[i])
            == bits::f64_units(times[j]),
{
    bits::law_f64_key_orders_by_value(times[i], times[j]);
}

/// Sorted times: each stands no later than those after it, and equal times stand in the order in
/// which they were given.
pub proof fn law_sorted_times_go_up(times: Seq<u64>, i: int, j: int)
    requires
        times.len() <= usize::MAX,
        0 <= i < j < times.len(),
    ensures
        ({
            let order = order_of(time_keys(times));
            let sorted = picked(times, order);
            &&& sorted.len() == times.len()
            &&& sorted[i] == times[order[i] as int] && sorted[j] == times[order[j] as int]
            &&& bits::f64_units(sorted[i]) <= bits::f64_units(sorted[j])
            &&& bits::f64_units(sorted[i]) == bits::f64_units(sorted[j]) ==> order[i] < order[j]
        }),
{
    let keys = time_keys(times);
    let order = order_of(keys);
    law_sorted_order_exists(keys);
    law_sorted_order_goes_up(keys, order, i, j, 0);
    law_time_keys_order_by_value(times, order[i] as int, order[j] as int);
}

/// What splits some times at `t` stands after exactly those that are at or before `t`.
pub proof fn law_split_counts_the_times_until(times: Seq<u64>, t: u64, p: int, i: int)
    requires
        splits(times, t, p),
        0 <= i < times.len(),
        !bits::f64_nan(t),
        !bits::f64_nan(times[i]),
    ensures
        0 <= p <= times.len(),
        i < p <==> bits::f64_units(times[i]) <= bits::f64_units(t),
{
    bits::law_doubles_compare_by_value(times[i], t);
}

} // verus!
