use vstd::prelude::*;

verus! {

/// Filtering a sequence with one more element filters what was there and
/// then decides on the new element.
pub proof fn lemma_filter_push<A>(s: Seq<A>, x: A, pred: spec_fn(A) -> bool)
    ensures
        s.push(x).filter(pred) == if pred(x) {
            s.filter(pred).push(x)
        } else {
            s.filter(pred)
        },
{
    reveal(Seq::filter);
    assert(s.push(x).drop_last() =~= s);
}

/// The same elements in the opposite order.
pub fn reversed<T>(v: Vec<T>) -> (r: Vec<T>)
    ensures
        r@ == v@.reverse(),
{
    let ghost all = v@;
    let mut v = v;
    let mut r: Vec<T> = Vec::new();
    while v.len() > 0
        invariant
            v@ == all.take(v.len() as int),
            v.len() <= all.len(),
            r@ == all.skip(v.len() as int).reverse(),
        decreases v.len(),
    {
        let x = v.pop().unwrap();
        r.push(x);
        proof {
            assert(v@ =~= all.take(v.len() as int));
            assert(r@ =~= all.skip(v.len() as int).reverse());
        }
    }
    proof {
        assert(all.skip(0) =~= all);
    }
    r
}

/// Where an item with key `k` goes into ascending `keys`: behind every key
/// that is not greater.
pub open spec fn spec_place(keys: Seq<i64>, k: i64) -> int
    decreases keys.len(),
{
    if keys.len() == 0 {
        0
    } else if keys.last() <= k {
        keys.len() as int
    } else {
        spec_place(keys.drop_last(), k)
    }
}

/// The items in ascending order of their keys, with the keys in step. Items
/// with the same key stay in the order in which they came.
pub open spec fn spec_sort<T>(items: Seq<T>, keys: Seq<i64>) -> (Seq<T>, Seq<i64>)
    decreases items.len(),
{
    if items.len() == 0 || keys.len() == 0 {
        (Seq::empty(), Seq::empty())
    } else {
        let (sorted, sorted_keys) = spec_sort(items.drop_last(), keys.drop_last());
        let at = spec_place(sorted_keys, keys.last());
        (sorted.insert(at, items.last()), sorted_keys.insert(at, keys.last()))
    }
}

/// Each key is at most the one behind it.
pub open spec fn ascending(keys: Seq<i64>) -> bool {
    forall|i: int, j: int| 0 <= i <= j < keys.len() ==> keys[i] <= keys[j]
}

/// The place of a key lies inside the sequence, with no greater key before
/// it and only greater keys from it on.
pub proof fn lemma_place(keys: Seq<i64>, k: i64)
    requires
        ascending(keys),
    ensures
        0 <= spec_place(keys, k) <= keys.len(),
        forall|i: int| 0 <= i < spec_place(keys, k) ==> keys[i] <= k,
        forall|i: int| spec_place(keys, k) <= i < keys.len() ==> keys[i] > k,
    decreases keys.len(),
{
    if keys.len() > 0 {
        if keys.last() > k {
            let front = keys.drop_last();
            assert forall|i: int, j: int| 0 <= i <= j < front.len() implies front[i] <= front[j] by {
                assert(keys[i] <= keys[j]);
            }
            lemma_place(front, k);
            assert forall|i: int| spec_place(keys, k) <= i < keys.len() implies keys[i] > k by {
                if i < front.len() {
                    assert(front[i] > k);
                }
            }
            assert forall|i: int| 0 <= i < spec_place(keys, k) implies keys[i] <= k by {
                assert(front[i] <= k);
            }
        } else {
            assert forall|i: int| 0 <= i < spec_place(keys, k) implies keys[i] <= k by {
                assert(keys[i] <= keys[keys.len() - 1]);
            }
        }
    }
}

/// Sorting loses no item and no key, adds none, and puts the keys in
/// ascending order.
pub proof fn lemma_sort<T>(items: Seq<T>, keys: Seq<i64>)
    requires
        items.len() == keys.len(),
    ensures
        spec_sort(items, keys).0.len() == items.len(),
        spec_sort(items, keys).1.len() == items.len(),
        ascending(spec_sort(items, keys).1),
        spec_sort(items, keys).0.to_multiset() == items.to_multiset(),
        spec_sort(items, keys).1.to_multiset() == keys.to_multiset(),
    decreases items.len(),
{
    broadcast use vstd::seq_lib::group_to_multiset_ensures;

    if items.len() == 0 {
        assert(items =~= Seq::<T>::empty());
        assert(keys =~= Seq::<i64>::empty());
    } else {
        lemma_sort(items.drop_last(), keys.drop_last());
        let (sorted, sorted_keys) = spec_sort(items.drop_last(), keys.drop_last());
        let at = spec_place(sorted_keys, keys.last());
        lemma_place(sorted_keys, keys.last());
        assert(items =~= items.drop_last().push(items.last()));
        assert(keys =~= keys.drop_last().push(keys.last()));
        vstd::seq_lib::to_multiset_insert(sorted, at, items.last());
        vstd::seq_lib::to_multiset_insert(sorted_keys, at, keys.last());
    }
}

/// Sorts `items` by `keys`, which come in the same order. Items with the
/// same key stay in the order in which they came.
pub fn sort_by_keys<T>(items: Vec<T>, keys: &Vec<i64>) -> (sorted: (Vec<T>, Vec<i64>))
    requires
        items.len() == keys.len(),
    ensures
        (sorted.0@, sorted.1@) == spec_sort(items@, keys@),
        sorted.0.len() == items.len(),
        sorted.1.len() == items.len(),
{
    let ghost all = items@;
    let n = items.len();
    let mut src = reversed(items);
    let mut out: Vec<T> = Vec::new();
    let mut out_keys: Vec<i64> = Vec::new();
    proof {
        assert(all.take(0) =~= Seq::<T>::empty());
    }
    while src.len() > 0
        invariant
            src.len() <= n,
            n == all.len(),
            n == keys.len(),
            out.len() == n - src.len(),
            out_keys.len() == n - src.len(),
            forall|j: int| 0 <= j < src.len() ==> #[trigger] src[j] == all[n - 1 - j],
            (out@, out_keys@) == spec_sort(all.take(n - src.len()), keys@.take(n - src.len())),
        decreases src.len(),
    {
        let i = n - src.len();
        let x = src.pop().unwrap();
        let k = keys[i];
        let mut at = out_keys.len();
        proof {
            assert(out_keys@.take(at as int) =~= out_keys@);
        }
        while at > 0 && out_keys[at - 1] > k
            invariant
                at <= out_keys.len(),
                spec_place(out_keys@, k) == spec_place(out_keys@.take(at as int), k),
            decreases at,
        {
            proof {
                assert(out_keys@.take(at as int).drop_last() =~= out_keys@.take(at - 1));
            }
            at = at - 1;
        }
        proof {
            assert(out_keys@.take(out_keys.len() as int) =~= out_keys@);
            assert(all.take(i + 1).drop_last() =~= all.take(i as int));
            assert(keys@.take(i + 1).drop_last() =~= keys@.take(i as int));
        }
        out.insert(at, x);
        out_keys.insert(at, k);
    }
    proof {
        assert(all.take(n as int) =~= all);
        assert(keys@.take(n as int) =~= keys@);
    }
    (out, out_keys)
}

/// Sorting what `f` makes of the items is what `f` makes of the sorted
/// items: the order depends on the keys alone.
pub proof fn lemma_sort_map<T, U>(items: Seq<T>, keys: Seq<i64>, f: spec_fn(T) -> U)
    requires
        items.len() == keys.len(),
    ensures
        spec_sort(items.map_values(f), keys).0 == spec_sort(items, keys).0.map_values(f),
        spec_sort(items.map_values(f), keys).1 == spec_sort(items, keys).1,
    decreases items.len(),
{
    if items.len() > 0 {
        lemma_sort_map(items.drop_last(), keys.drop_last(), f);
        lemma_sort(items.drop_last(), keys.drop_last());
        let (sorted, sorted_keys) = spec_sort(items.drop_last(), keys.drop_last());
        let at = spec_place(sorted_keys, keys.last());
        lemma_place(sorted_keys, keys.last());
        assert(items.map_values(f).drop_last() =~= items.drop_last().map_values(f));
        assert(sorted.insert(at, items.last()).map_values(f) =~= sorted.map_values(f).insert(
            at,
            f(items.last()),
        ));
    } else {
        assert(spec_sort(items, keys).0.map_values(f) =~= Seq::<U>::empty());
    }
}

/// Every item of the sorted sequence is one of the items that were given.
pub proof fn lemma_sort_member<T>(items: Seq<T>, keys: Seq<i64>, k: int)
    requires
        items.len() == keys.len(),
        0 <= k < items.len(),
    ensures
        spec_sort(items, keys).0.len() == items.len(),
        items.contains(spec_sort(items, keys).0[k]),
{
    lemma_sort(items, keys);
    let sorted = spec_sort(items, keys).0;
    assert(sorted.contains(sorted[k]));
    vstd::seq_lib::to_multiset_contains(sorted, sorted[k]);
    vstd::seq_lib::to_multiset_contains(items, sorted[k]);
}

} // verus!
