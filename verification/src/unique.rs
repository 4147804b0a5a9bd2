//! Keeping the first of each: removing later items whose key was seen before.

use vstd::prelude::*;

verus! {

/// The items whose key no earlier item has, in their order. `keys[i]` is the
/// key of `items[i]`.
pub open spec fn first_of_each<T, K>(items: Seq<T>, keys: Seq<K>) -> Seq<T>
    decreases items.len(),
{
    if items.len() == 0 || keys.len() != items.len() {
        seq![]
    } else {
        let kept = first_of_each(items.drop_last(), keys.drop_last());
        if keys.drop_last().contains(keys.last()) {
            kept
        } else {
            kept.push(items.last())
        }
    }
}

/// The items of `s` without those that occurred before.
pub open spec fn distinct<T>(s: Seq<T>) -> Seq<T> {
    first_of_each(s, s)
}

/// Removing repetitions loses no element and adds none.
pub proof fn lemma_distinct_same_elements<T>(s: Seq<T>)
    ensures
        forall|x: T|
            #![trigger distinct(s).contains(x)]
            #![trigger s.contains(x)]
            distinct(s).contains(x) <==> s.contains(x),
    decreases s.len(),
{
    if s.len() > 0 {
        let t = s.drop_last();
        lemma_distinct_same_elements(t);
        let r = distinct(s);
        assert forall|x: T| distinct(s).contains(x) <==> s.contains(x) by {
            if r.contains(x) {
                let i = choose|i: int| 0 <= i < r.len() && r[i] == x;
                if i < distinct(t).len() {
                    assert(distinct(t)[i] == x);
                    assert(distinct(t).contains(x));
                    let k = choose|k: int| 0 <= k < t.len() && t[k] == x;
                    assert(s[k] == x);
                } else {
                    assert(s[s.len() - 1] == x);
                }
            }
            if s.contains(x) {
                let k = choose|k: int| 0 <= k < s.len() && s[k] == x;
                if k < t.len() {
                    assert(t[k] == x);
                    assert(t.contains(x));
                    let i = choose|i: int| 0 <= i < distinct(t).len() && distinct(t)[i] == x;
                    assert(r[i] == x);
                } else if t.contains(x) {
                    let i = choose|i: int| 0 <= i < distinct(t).len() && distinct(t)[i] == x;
                    assert(r[i] == x);
                } else {
                    assert(r[r.len() - 1] == x);
                }
            }
        }
    } else {
        assert forall|x: T| distinct(s).contains(x) <==> s.contains(x) by {}
    }
}

/// What is left holds nothing twice.
pub proof fn lemma_distinct_no_duplicates<T>(s: Seq<T>)
    ensures
        distinct(s).no_duplicates(),
    decreases s.len(),
{
    if s.len() > 0 {
        let t = s.drop_last();
        lemma_distinct_no_duplicates(t);
        lemma_distinct_same_elements(t);
        let r = distinct(s);
        if !t.contains(s.last()) {
            assert forall|i: int, j: int| 0 <= i < r.len() && 0 <= j < r.len() && i != j implies r[i]
                != r[j] by {
                if i == r.len() - 1 {
                    assert(distinct(t)[j] == r[j]);
                    assert(distinct(t).contains(r[j]));
                } else if j == r.len() - 1 {
                    assert(distinct(t)[i] == r[i]);
                    assert(distinct(t).contains(r[i]));
                } else {
                    assert(distinct(t)[i] == r[i] && distinct(t)[j] == r[j]);
                }
            }
        }
    }
}

/// As many items are kept as there are different keys, and the key of the
/// `i`-th item kept is the `i`-th different key.
pub proof fn lemma_first_of_each_keys<T, K>(items: Seq<T>, keys: Seq<K>)
    requires
        items.len() == keys.len(),
    ensures
        first_of_each(items, keys).len() == distinct(keys).len(),
        forall|i: int|
            0 <= i < distinct(keys).len() ==> exists|k: int|
                0 <= k < keys.len() && #[trigger] first_of_each(items, keys)[i] == items[k]
                    && distinct(keys)[i] == keys[k],
    decreases items.len(),
{
    if items.len() > 0 {
        let it = items.drop_last();
        let kt = keys.drop_last();
        lemma_first_of_each_keys(it, kt);
        let r = first_of_each(items, keys);
        let d = distinct(keys);
        assert forall|i: int| 0 <= i < d.len() implies exists|k: int|
            0 <= k < keys.len() && #[trigger] r[i] == items[k] && d[i] == keys[k] by {
            if i < distinct(kt).len() {
                let k = choose|k: int|
                    0 <= k < kt.len() && first_of_each(it, kt)[i] == it[k] && distinct(kt)[i]
                        == kt[k];
                assert(r[i] == items[k] && d[i] == keys[k]);
            } else {
                let k = keys.len() - 1;
                assert(r[i] == items[k] && d[i] == keys[k]);
            }
        }
    }
}

/// Where no key occurs twice, every item is kept.
pub proof fn lemma_first_of_each_all<T, K>(items: Seq<T>, keys: Seq<K>)
    requires
        items.len() == keys.len(),
        keys.no_duplicates(),
    ensures
        first_of_each(items, keys) == items,
    decreases items.len(),
{
    if items.len() > 0 {
        let it = items.drop_last();
        let kt = keys.drop_last();
        assert(kt.no_duplicates());
        lemma_first_of_each_all(it, kt);
        if kt.contains(keys.last()) {
            let k = choose|k: int| 0 <= k < kt.len() && kt[k] == keys.last();
            assert(keys[k] == keys[keys.len() - 1]);
        }
        assert(it.push(items.last()) =~= items);
    } else {
        assert(items =~= seq![]);
    }
}

} // verus!
