//! Sorting of numbers, and of indexes by keys.

use crate::single::Single;
use vstd::prelude::*;
use vstd::relations::*;
use vstd::seq_lib::*;

verus! {

/// The total order of numbers by their patterns.
pub open spec fn by_total_place() -> spec_fn(Single, Single) -> bool {
    |a: Single, b: Single| a.total_place() <= b.total_place()
}

/// The numbers in ascending total order.
pub open spec fn ascending(xs: Seq<Single>) -> Seq<Single> {
    xs.sort_by(by_total_place())
}

/// The order of indexes by their keys, the second key deciding where the first
/// ones are equal, and the index itself where both are.
pub open spec fn by_keys(keys: Seq<(i64, i64)>) -> spec_fn(int, int) -> bool {
    |a: int, b: int|
        if keys[a].0 != keys[b].0 {
            keys[a].0 < keys[b].0
        } else if keys[a].1 != keys[b].1 {
            keys[a].1 < keys[b].1
        } else {
            a <= b
        }
}

/// The indexes from 0 up to `n`.
pub open spec fn indexes(n: nat) -> Seq<int> {
    Seq::new(n, |i: int| i)
}

/// The indexes from 0 up to `n`, as machine numbers.
pub open spec fn index_range(n: nat) -> Seq<usize> {
    Seq::new(n, |i: int| i as usize)
}

/// The stable sort of a sequence by keys, as the indexes of its elements in
/// their new order.
pub open spec fn stable_order(keys: Seq<(i64, i64)>) -> Seq<int> {
    indexes(keys.len()).sort_by(by_keys(keys))
}

pub proof fn lemma_by_total_place_is_total()
    ensures
        total_ordering(by_total_place()),
{
    assert forall|a: Single, b: Single| #[trigger]
        by_total_place()(a, b) && #[trigger] by_total_place()(b, a) implies a == b by {
        assert(a.total_place() == b.total_place());
        assert(a.bits == b.bits);
    }
}

pub proof fn lemma_by_keys_is_total(keys: Seq<(i64, i64)>)
    ensures
        total_ordering(by_keys(keys)),
{
}

/// Sorts numbers in ascending total order.
pub fn sort_ascending(xs: &Vec<Single>) -> (r: Vec<Single>)
    ensures
        r@ == ascending(xs@),
{
    let mut r: Vec<Single> = Vec::new();
    let mut k: usize = 0;
    proof {
        lemma_by_total_place_is_total();
        assert(xs@.take(0) == Seq::<Single>::empty());
    }
    while k < xs.len()
        invariant
            k <= xs.len(),
            r@.len() == k,
            total_ordering(by_total_place()),
            sorted_by(r@, by_total_place()),
            r@.to_multiset() == xs@.take(k as int).to_multiset(),
        decreases xs.len() - k,
    {
        let x: Single = xs[k];
        let key: i64 = x.total_key();
        let mut lo: usize = 0;
        let mut hi: usize = k;
        while lo < hi
            invariant
                lo <= hi <= k == r@.len(),
                key == x.total_place(),
                sorted_by(r@, by_total_place()),
                forall|i: int| 0 <= i < lo ==> (#[trigger] r@[i]).total_place() <= key,
                forall|i: int| hi <= i < k ==> key < (#[trigger] r@[i]).total_place(),
            decreases hi - lo,
        {
            let mid: usize = lo + (hi - lo) / 2;
            proof {
                assert forall|i: int| 0 <= i < mid implies (#[trigger] r@[i]).total_place()
                    <= r@[mid as int].total_place() by {
                    assert(by_total_place()(r@[i], r@[mid as int]));
                }
                assert forall|i: int| mid < i < k implies r@[mid as int].total_place() <= (
                #[trigger] r@[i]).total_place() by {
                    assert(by_total_place()(r@[mid as int], r@[i]));
                }
            }
            if r[mid].total_key() <= key {
                lo = mid + 1;
            } else {
                hi = mid;
            }
        }
        let ghost before = r@;
        r.insert(lo, x);
        proof {
            to_multiset_insert(before, lo as int, x);
            to_multiset_build(xs@.take(k as int), x);
            assert(xs@.take(k + 1) == xs@.take(k as int).push(x));
            assert forall|i: int, j: int| 0 <= i < j < r@.len() implies #[trigger]
                by_total_place()(r@[i], r@[j]) by {
                let oi = if i < lo {
                    i
                } else {
                    i - 1
                };
                let oj = if j < lo {
                    j
                } else {
                    j - 1
                };
                if i == lo {
                    assert(r@[j] == before[oj]);
                } else if j == lo {
                    assert(r@[i] == before[oi]);
                } else {
                    assert(r@[i] == before[oi]);
                    assert(r@[j] == before[oj]);
                    assert(by_total_place()(before[oi], before[oj]));
                }
            }
        }
        k += 1;
    }
    proof {
        assert(xs@.take(k as int) == xs@);
        xs@.lemma_sort_by_ensures(by_total_place());
        lemma_sorted_unique(r@, ascending(xs@), by_total_place());
    }
    r
}

/// Whether the first key pair is at most the second.
fn keys_in_order(a: (i64, i64), b: (i64, i64)) -> (r: bool)
    ensures
        r == (a.0 < b.0 || (a.0 == b.0 && a.1 <= b.1)),
{
    a.0 < b.0 || (a.0 == b.0 && a.1 <= b.1)
}

/// Sorts the indexes of a sequence stably by the keys of its elements.
pub fn order_by_keys(keys: &Vec<(i64, i64)>) -> (r: Vec<usize>)
    ensures
        r@.len() == keys@.len(),
        stable_order(keys@).len() == keys@.len(),
        forall|i: int| 0 <= i < r@.len() ==> #[trigger] r@[i] == stable_order(keys@)[i],
        forall|i: int| 0 <= i < r@.len() ==> #[trigger] r@[i] < keys@.len(),
{
    let ghost leq = by_keys(keys@);
    let mut r: Vec<usize> = Vec::new();
    let ghost mut g: Seq<int> = Seq::empty();
    let mut k: usize = 0;
    proof {
        lemma_by_keys_is_total(keys@);
        assert(indexes(0) == Seq::<int>::empty());
    }
    while k < keys.len()
        invariant
            k <= keys.len(),
            leq == by_keys(keys@),
            total_ordering(leq),
            r@.len() == k,
            g.len() == k,
            forall|i: int| 0 <= i < k ==> #[trigger] r@[i] == g[i],
            forall|i: int| 0 <= i < k ==> 0 <= #[trigger] g[i] < k,
            sorted_by(g, leq),
            g.to_multiset() == indexes(k as nat).to_multiset(),
        decreases keys.len() - k,
    {
        let mut lo: usize = 0;
        let mut hi: usize = k;
        while lo < hi
            invariant
                lo <= hi <= k < keys.len(),
                leq == by_keys(keys@),
                total_ordering(leq),
                r@.len() == k,
                g.len() == k,
                forall|i: int| 0 <= i < k ==> #[trigger] r@[i] == g[i],
                forall|i: int| 0 <= i < k ==> 0 <= #[trigger] g[i] < k,
                sorted_by(g, leq),
                forall|i: int| 0 <= i < lo ==> leq(#[trigger] g[i], k as int),
                forall|i: int| hi <= i < k ==> leq(k as int, #[trigger] g[i]),
            decreases hi - lo,
        {
            let mid: usize = lo + (hi - lo) / 2;
            let at: usize = r[mid];
            assert(at == g[mid as int]);
            proof {
                assert forall|i: int| 0 <= i < mid && leq(g[mid as int], k as int) implies leq(
                    #[trigger] g[i],
                    k as int,
                ) by {
                    assert(leq(g[i], g[mid as int]));
                }
                assert forall|i: int| mid < i < k && leq(k as int, g[mid as int]) implies leq(
                    k as int,
                    #[trigger] g[i],
                ) by {
                    assert(leq(g[mid as int], g[i]));
                }
            }
            if keys_in_order(keys[at], keys[k]) {
                lo = mid + 1;
            } else {
                hi = mid;
            }
        }
        let ghost before = g;
        r.insert(lo, k);
        proof {
            g = before.insert(lo as int, k as int);
            to_multiset_insert(before, lo as int, k as int);
            to_multiset_build(indexes(k as nat), k as int);
            assert(indexes((k + 1) as nat) == indexes(k as nat).push(k as int));
            assert forall|i: int, j: int| 0 <= i < j < g.len() implies #[trigger] leq(
                g[i],
                g[j],
            ) by {
                let oi = if i < lo {
                    i
                } else {
                    i - 1
                };
                let oj = if j < lo {
                    j
                } else {
                    j - 1
                };
                if i == lo {
                    assert(g[j] == before[oj]);
                } else if j == lo {
                    assert(g[i] == before[oi]);
                } else {
                    assert(g[i] == before[oi]);
                    assert(g[j] == before[oj]);
                    assert(leq(before[oi], before[oj]));
                }
            }
        }
        k += 1;
    }
    proof {
        let all = indexes(keys@.len());
        all.lemma_sort_by_ensures(leq);
        lemma_sorted_unique(g, stable_order(keys@), leq);
    }
    r
}

/// A stable order names each index of the sequence once.
pub proof fn lemma_stable_order_is_permutation(keys: Seq<(i64, i64)>)
    ensures
        stable_order(keys).len() == keys.len(),
        stable_order(keys).to_multiset() == indexes(keys.len()).to_multiset(),
        stable_order(keys).no_duplicates(),
        forall|i: int| 0 <= i < keys.len() ==> 0 <= #[trigger] stable_order(keys)[i] < keys.len(),
        forall|k: int| 0 <= k < keys.len() ==> #[trigger] stable_order(keys).contains(k),
{
    let order = stable_order(keys);
    let all = indexes(keys.len());
    lemma_by_keys_is_total(keys);
    all.lemma_sort_by_ensures(by_keys(keys));
    to_multiset_len(order);
    to_multiset_len(all);
    assert forall|i: int| 0 <= i < keys.len() implies 0 <= #[trigger] order[i] < keys.len() by {
        assert(order.contains(order[i]));
        assert(all.contains(order[i]));
    }
    assert forall|k: int| 0 <= k < keys.len() implies #[trigger] order.contains(k) by {
        assert(all[k] == k);
        to_multiset_contains(all, k);
        to_multiset_contains(order, k);
    }
    assert(all.no_duplicates());
    all.lemma_multiset_has_no_duplicates();
    order.lemma_multiset_has_no_duplicates_conv();
}

/// Where a stable order puts one index before another, its keys are no larger,
/// and where the keys are equal, it is the smaller index.
pub proof fn lemma_stable_order_sorts(keys: Seq<(i64, i64)>, i: int, j: int)
    requires
        0 <= i < j < keys.len(),
    ensures
        ({
            let a = stable_order(keys)[i];
            let b = stable_order(keys)[j];
            ||| keys[a].0 < keys[b].0
            ||| keys[a].0 == keys[b].0 && keys[a].1 < keys[b].1
            ||| keys[a] == keys[b] && a < b
        }),
{
    let order = stable_order(keys);
    lemma_by_keys_is_total(keys);
    indexes(keys.len()).lemma_sort_by_ensures(by_keys(keys));
    lemma_stable_order_is_permutation(keys);
    assert(by_keys(keys)(order[i], order[j]));
    assert(order[i] != order[j]);
}

/// The ascending numbers are the given ones in another order, each no larger
/// than the next in the total order.
pub proof fn lemma_ascending(xs: Seq<Single>)
    ensures
        ascending(xs).len() == xs.len(),
        ascending(xs).to_multiset() == xs.to_multiset(),
        forall|i: int, j: int|
            0 <= i <= j < xs.len() ==> (#[trigger] ascending(xs)[i]).total_place() <= (
            #[trigger] ascending(xs)[j]).total_place(),
{
    let s = ascending(xs);
    lemma_by_total_place_is_total();
    xs.lemma_sort_by_ensures(by_total_place());
    to_multiset_len(s);
    to_multiset_len(xs);
    assert forall|i: int, j: int| 0 <= i <= j < xs.len() implies (#[trigger] s[i]).total_place()
        <= (#[trigger] s[j]).total_place() by {
        if i < j {
            assert(by_total_place()(s[i], s[j]));
        }
    }
}

/// A sequence stably sorted by the keys of its elements.
pub open spec fn arranged<T>(xs: Seq<T>, keys: Seq<(i64, i64)>) -> Seq<T> {
    stable_order(keys).map_values(|i: int| xs[i])
}

/// Sorts a sequence stably by the keys of its elements.
pub fn arrange(xs: &Vec<usize>, keys: &Vec<(i64, i64)>) -> (r: Vec<usize>)
    requires
        xs@.len() == keys@.len(),
    ensures
        r@ == arranged(xs@, keys@),
        r@.len() == xs@.len(),
        forall|i: int| 0 <= i < r@.len() ==> xs@.contains(#[trigger] r@[i]),
{
    let order: Vec<usize> = order_by_keys(keys);
    let mut r: Vec<usize> = Vec::new();
    let mut i: usize = 0;
    while i < order.len()
        invariant
            i <= order@.len() == xs@.len(),
            xs@.len() == keys@.len(),
            stable_order(keys@).len() == keys@.len(),
            r@.len() == i,
            forall|j: int|
                0 <= j < order@.len() ==> #[trigger] order@[j] == stable_order(keys@)[j],
            forall|j: int| 0 <= j < order@.len() ==> #[trigger] order@[j] < keys@.len(),
            forall|j: int| 0 <= j < i ==> #[trigger] r@[j] == xs@[order@[j] as int],
        decreases order@.len() - i,
    {
        r.push(xs[order[i]]);
        i += 1;
    }
    proof {
        assert forall|j: int| 0 <= j < r@.len() implies xs@.contains(#[trigger] r@[j]) by {
            assert(r@[j] == xs@[order@[j] as int]);
        }
        assert forall|j: int| 0 <= j < r@.len() implies r@[j] == arranged(xs@, keys@)[j] by {
            assert(order@[j] == stable_order(keys@)[j]);
        }
        assert(r@ == arranged(xs@, keys@));
    }
    r
}

/// Sorting keeps the elements of a sequence: each is there, none is added, and
/// none occurs twice that did not before.
pub proof fn lemma_arranged<T>(xs: Seq<T>, keys: Seq<(i64, i64)>)
    requires
        xs.len() == keys.len(),
    ensures
        arranged(xs, keys).len() == xs.len(),
        forall|i: int| 0 <= i < xs.len() ==> xs.contains(#[trigger] arranged(xs, keys)[i]),
        forall|x: T| xs.contains(x) ==> #[trigger] arranged(xs, keys).contains(x),
        xs.no_duplicates() ==> arranged(xs, keys).no_duplicates(),
{
    let order = stable_order(keys);
    let after = arranged(xs, keys);
    lemma_stable_order_is_permutation(keys);
    assert forall|i: int| 0 <= i < xs.len() implies xs.contains(#[trigger] after[i]) by {
        assert(after[i] == xs[order[i]]);
    }
    assert forall|x: T| xs.contains(x) implies #[trigger] after.contains(x) by {
        let k = choose|k: int| 0 <= k < xs.len() && xs[k] == x;
        assert(order.contains(k));
        let i = choose|i: int| 0 <= i < order.len() && order[i] == k;
        assert(after[i] == x);
    }
    if xs.no_duplicates() {
        assert forall|i: int, j: int|
            0 <= i < after.len() && 0 <= j < after.len() && i != j implies after[i] != after[j] by {
            assert(order[i] != order[j]);
        }
    }
}

/// The indexes that a filter keeps are distinct and below the bound.
pub proof fn lemma_filtered_indexes(n: nat, keep: spec_fn(usize) -> bool)
    requires
        n <= usize::MAX,
    ensures
        index_range(n).filter(keep).no_duplicates(),
        forall|k: int|
            0 <= k < index_range(n).filter(keep).len() ==> #[trigger] index_range(n).filter(keep)[k]
                < n && keep(index_range(n).filter(keep)[k]),
        forall|i: usize| i < n && keep(i) ==> #[trigger] index_range(n).filter(keep).contains(i),
    decreases n,
{
    let all = index_range(n);
    if n > 0 {
        let before = index_range((n - 1) as nat);
        let last = (n - 1) as usize;
        lemma_filtered_indexes((n - 1) as nat, keep);
        before.lemma_filter_push(last, keep);
        assert(all == before.push(last));
        let kept = before.filter(keep);
        assert forall|i: usize| i < n && keep(i) implies #[trigger] all.filter(keep).contains(
            i,
        ) by {
            if i < last {
                assert(kept.contains(i));
                let k = choose|k: int| 0 <= k < kept.len() && kept[k] == i;
                assert(all.filter(keep)[k] == i);
            } else {
                assert(all.filter(keep)[kept.len() as int] == i);
            }
        }
    } else {
        reveal(Seq::filter);
    }
}

/// The place that an element came from which a filter kept.
pub proof fn lemma_filter_source<T>(xs: Seq<T>, keep: spec_fn(T) -> bool, k: int) -> (j: int)
    requires
        0 <= k < xs.filter(keep).len(),
    ensures
        0 <= j < xs.len(),
        xs[j] == xs.filter(keep)[k],
        keep(xs[j]),
{
    xs.lemma_filter_pred(keep, k);
    assert(xs.filter(keep).contains(xs.filter(keep)[k]));
    xs.lemma_filter_contains_rev(keep, xs.filter(keep)[k]);
    choose|j: int| 0 <= j < xs.len() && xs[j] == xs.filter(keep)[k]
}

/// What a filter keeps of distinct elements is distinct.
pub proof fn lemma_filter_distinct<T>(xs: Seq<T>, keep: spec_fn(T) -> bool)
    requires
        xs.no_duplicates(),
    ensures
        xs.filter(keep).no_duplicates(),
    decreases xs.len(),
{
    reveal(Seq::filter);
    if xs.len() > 0 {
        let rest = xs.drop_last();
        lemma_filter_distinct(rest, keep);
        assert forall|k: int| 0 <= k < rest.filter(keep).len() implies #[trigger] rest.filter(
            keep,
        )[k] != xs.last() by {
            let j = lemma_filter_source(rest, keep, k);
            assert(xs[j] != xs[xs.len() - 1]);
        }
    }
}

/// Where a filter keeps two elements, there are two that it keeps.
pub proof fn lemma_filter_two<T>(xs: Seq<T>, keep: spec_fn(T) -> bool) -> (r: (int, int))
    requires
        xs.filter(keep).len() >= 2,
    ensures
        0 <= r.0 < r.1 < xs.len(),
        keep(xs[r.0]),
        keep(xs[r.1]),
    decreases xs.len(),
{
    reveal(Seq::filter);
    let rest = xs.drop_last();
    if keep(xs.last()) {
        (lemma_filter_source(rest, keep, 0), xs.len() - 1)
    } else {
        lemma_filter_two(rest, keep)
    }
}

/// A filter that keeps whatever another one keeps keeps no fewer.
pub proof fn lemma_filter_implied<T>(
    xs: Seq<T>,
    p: spec_fn(T) -> bool,
    q: spec_fn(T) -> bool,
)
    requires
        forall|x: T| #[trigger] p(x) ==> q(x),
    ensures
        xs.filter(p).len() <= xs.filter(q).len(),
    decreases xs.len(),
{
    reveal(Seq::filter);
    if xs.len() > 0 {
        lemma_filter_implied(xs.drop_last(), p, q);
        assert(p(xs.last()) ==> q(xs.last()));
    }
}

/// Filters that agree element by element keep equally many.
pub proof fn lemma_filters_agree<T, U>(
    xs: Seq<T>,
    ys: Seq<U>,
    p: spec_fn(T) -> bool,
    q: spec_fn(U) -> bool,
)
    requires
        xs.len() == ys.len(),
        forall|k: int| 0 <= k < xs.len() ==> p(#[trigger] xs[k]) == q(ys[k]),
    ensures
        xs.filter(p).len() == ys.filter(q).len(),
    decreases xs.len(),
{
    reveal(Seq::filter);
    if xs.len() > 0 {
        let us = xs.drop_last();
        let vs = ys.drop_last();
        assert forall|k: int| 0 <= k < us.len() implies p(#[trigger] us[k]) == q(vs[k]) by {
            assert(xs[k] == us[k]);
        }
        lemma_filters_agree(us, vs, p, q);
        assert(p(xs[xs.len() - 1]) == q(ys[ys.len() - 1]));
    }
}

/// An element of one sequence has a place in another with the same elements.
proof fn lemma_same_element<T>(a: Seq<T>, b: Seq<T>) -> (j: int)
    requires
        a.len() > 0,
        a.to_multiset() == b.to_multiset(),
    ensures
        0 <= j < b.len(),
        b[j] == a.last(),
        a.drop_last().to_multiset() == b.remove(j).to_multiset(),
{
    assert(a[a.len() - 1] == a.last());
    to_multiset_contains(a, a.last());
    to_multiset_contains(b, a.last());
    let j = choose|j: int| 0 <= j < b.len() && b[j] == a.last();
    to_multiset_remove(a, a.len() - 1);
    to_multiset_remove(b, j);
    assert(a.drop_last() == a.remove(a.len() - 1));
    j
}

/// Sequences with the same elements have the same elements after a mapping, and
/// a filter keeps equally many of both.
pub proof fn lemma_same_elements<T, U>(
    a: Seq<T>,
    b: Seq<T>,
    f: spec_fn(T) -> U,
    keep: spec_fn(T) -> bool,
)
    requires
        a.to_multiset() == b.to_multiset(),
    ensures
        a.map_values(f).to_multiset() == b.map_values(f).to_multiset(),
        a.filter(keep).len() == b.filter(keep).len(),
        a.len() == b.len(),
    decreases a.len(),
{
    to_multiset_len(a);
    to_multiset_len(b);
    if a.len() == 0 {
        assert(a == b);
    } else {
        let j = lemma_same_element(a, b);
        let x = a.last();
        let rest = b.remove(j);
        lemma_same_elements(a.drop_last(), rest, f, keep);
        assert(a.map_values(f) == a.drop_last().map_values(f).push(f(x)));
        assert(b.map_values(f).remove(j) == rest.map_values(f));
        assert(b.map_values(f)[j] == f(x));
        assert(b.map_values(f) == rest.map_values(f).insert(j, f(x)));
        to_multiset_build(a.drop_last().map_values(f), f(x));
        to_multiset_insert(rest.map_values(f), j, f(x));
        a.drop_last().lemma_filter_push(x, keep);
        assert(a == a.drop_last().push(x));
        Seq::filter_distributes_over_add(b.take(j), b.skip(j + 1), keep);
        Seq::filter_distributes_over_add(b.take(j).push(x), b.skip(j + 1), keep);
        b.take(j).lemma_filter_push(x, keep);
        assert(b.take(j) + b.skip(j + 1) == rest);
        assert(b.take(j).push(x) + b.skip(j + 1) == b);
    }
}

/// Filters that never keep the same element keep no more than there are.
pub proof fn lemma_filters_apart<T>(
    xs: Seq<T>,
    p: spec_fn(T) -> bool,
    q: spec_fn(T) -> bool,
)
    requires
        forall|x: T| !(#[trigger] p(x) && q(x)),
    ensures
        xs.filter(p).len() + xs.filter(q).len() <= xs.len(),
    decreases xs.len(),
{
    reveal(Seq::filter);
    if xs.len() > 0 {
        lemma_filters_apart(xs.drop_last(), p, q);
        assert(!(p(xs.last()) && q(xs.last())));
    }
}

/// A filter that keeps a run of elements keeps as many.
proof fn lemma_filter_run<T>(xs: Seq<T>, keep: spec_fn(T) -> bool, from: int, to: int)
    requires
        0 <= from <= to <= xs.len(),
        forall|i: int| from <= i < to ==> keep(#[trigger] xs[i]),
    ensures
        xs.filter(keep).len() >= to - from,
    decreases to,
{
    reveal(Seq::filter);
    let rest = xs.take(to);
    if from < to {
        let less = xs.take(to - 1);
        assert forall|i: int| from <= i < to - 1 implies keep(#[trigger] less[i]) by {
            assert(less[i] == xs[i]);
        }
        lemma_filter_run(less, keep, from, to - 1);
        less.lemma_filter_push(xs[to - 1], keep);
        assert(less.push(xs[to - 1]) == rest);
    }
    Seq::filter_distributes_over_add(rest, xs.skip(to), keep);
    assert(rest + xs.skip(to) == xs);
}

/// The number in the middle of numbers in ascending order, the upper one of two,
/// is one of them; more than half of them are no larger, and at least half are
/// no smaller.
pub proof fn lemma_median(xs: Seq<Single>)
    requires
        xs.len() > 0,
    ensures
        ({
            let m = ascending(xs)[xs.len() as int / 2];
            &&& xs.contains(m)
            &&& 2 * xs.filter(|x: Single| x.total_place() <= m.total_place()).len() > xs.len()
            &&& 2 * xs.filter(|x: Single| m.total_place() <= x.total_place()).len() >= xs.len()
        }),
{
    let sorted = ascending(xs);
    let n = xs.len() as int;
    let m = sorted[n / 2];
    let low = |x: Single| x.total_place() <= m.total_place();
    let high = |x: Single| m.total_place() <= x.total_place();
    let same = |x: Single| x;
    lemma_ascending(xs);
    assert forall|i: int| 0 <= i < n / 2 + 1 implies low(#[trigger] sorted[i]) by {}
    assert forall|i: int| n / 2 <= i < n implies high(#[trigger] sorted[i]) by {}
    lemma_filter_run(sorted, low, 0, n / 2 + 1);
    lemma_filter_run(sorted, high, n / 2, n);
    lemma_same_elements(sorted, xs, same, low);
    lemma_same_elements(sorted, xs, same, high);
    assert(sorted.contains(m));
    to_multiset_contains(sorted, m);
    to_multiset_contains(xs, m);
}

/// A number that more than half of some numbers are is their median.
pub proof fn lemma_majority_is_median(xs: Seq<Single>, f: Single)
    requires
        2 * xs.filter(|x: Single| x == f).len() > xs.len(),
    ensures
        ascending(xs)[xs.len() as int / 2] == f,
{
    let m = ascending(xs)[xs.len() as int / 2];
    let is_f = |x: Single| x == f;
    let low = |x: Single| x.total_place() <= m.total_place();
    let high = |x: Single| m.total_place() <= x.total_place();
    xs.lemma_filter_len(is_f);
    lemma_median(xs);
    if m.total_place() < f.total_place() {
        lemma_filters_apart(xs, is_f, low);
    } else if f.total_place() < m.total_place() {
        lemma_filters_apart(xs, is_f, high);
    }
    assert(m.bits == f.bits);
}

/// Where there are two elements that a filter keeps, it keeps two.
pub proof fn lemma_two_kept<T>(xs: Seq<T>, keep: spec_fn(T) -> bool, a: int, b: int)
    requires
        0 <= a < b < xs.len(),
        keep(xs[a]),
        keep(xs[b]),
    ensures
        xs.filter(keep).len() >= 2,
{
    let first = xs.take(b);
    let last = xs.skip(b);
    assert(first[a] == xs[a]);
    assert(last[0] == xs[b]);
    first.lemma_filter_contains(keep, a);
    last.lemma_filter_contains(keep, 0);
    Seq::filter_distributes_over_add(first, last, keep);
    assert(first + last == xs);
}

} // verus!
