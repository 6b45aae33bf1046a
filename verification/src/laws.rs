//! Laws of the multimap, stated over its model and proved.

use vstd::prelude::*;
use std::fmt::Debug;
use crate::algebra::{summaries, total};
use crate::tree_multimap::TreeMultimap;
use crate::model::{
    closest_spec, entries_of, entry_key, entry_lt, holds_key, insert_all, insert_spec, key_below,
    key_differs, laws, lemma_bounds, lemma_cut_exists, lemma_entry_order, lemma_insert_shape,
    lemma_insert_sorted, lemma_remove_key_sorted, lemma_sorted_closed, lemma_sorted_keys, outside,
    place_monotone, remove_key_spec, remove_range_spec, same_key, sorted, target_obeys,
    target_place,
};
use crate::order::{key_laws, le, lemma_le_lt, lemma_order, lt};
use crate::keys::{KeyedItem, MapEntry, MultimapKey};

verus! {

/// Entries whose outer key does not lie in the half-open range from `a` to
/// `b`: below `a`, or `b` or above.
pub open spec fn key_outside<K: Ord, V>(a: K, b: K) -> spec_fn(MapEntry<K, V>) -> bool {
    |e: MapEntry<K, V>| !(le(a, e.key) && lt(e.key, b))
}

/// The entries of a sequence as pairs of a key and a value, one for one.
pub open spec fn pairs_of<K, V>(s: Seq<MapEntry<K, V>>) -> Seq<(K, V)> {
    Seq::new(s.len(), |i: int| (s[i].key, s[i].value))
}

/// Inserting an entry a second time changes nothing.
pub proof fn lemma_insert_idempotent<K: Ord + Clone, V: KeyedItem>(
    s: Seq<MapEntry<K, V>>,
    e: MapEntry<K, V>,
)
    requires
        laws::<K, V>(),
        sorted(s),
    ensures
        insert_spec(insert_spec(s, e), e) == insert_spec(s, e),
{
    lemma_insert_sorted(s, e);
    let r = insert_spec(s, e);
    lemma_sorted_closed(s, e.key, e);
    lemma_cut_exists(s, crate::model::entry_below(e));
    let q = s.filter(crate::model::entry_below(e)).len() as int;
    assert(r[q] == e);
    assert forall|j: int| 0 <= j < q implies entry_lt(r[j], e) by {
        assert(r[j] == s[j]);
        assert(crate::model::entry_below(e)(s[j]));
    }
    assert forall|j: int| q + 1 <= j < r.len() implies entry_lt(e, r[j]) by {
        assert(entry_lt(r[q], r[j]));
    }
    lemma_insert_shape(r, e, q, q + 1);
    assert(r.take(q).push(e) + r.skip(q + 1) =~= r);
}

/// After an entry is inserted, it is an entry of the multimap, every other
/// entry of the multimap was one before, and every entry from before with
/// another composite key still is one.
#[verifier::rlimit(50)]
pub proof fn lemma_insert_members<K: Ord + Clone, V: KeyedItem>(
    s: Seq<MapEntry<K, V>>,
    e: MapEntry<K, V>,
    x: MapEntry<K, V>,
)
    requires
        laws::<K, V>(),
        sorted(s),
    ensures
        insert_spec(s, e).contains(e),
        insert_spec(s, e).contains(x) ==> x == e || (s.contains(x) && !same_key(x, e)),
        s.contains(x) && !same_key(x, e) ==> insert_spec(s, e).contains(x),
{
    let below = crate::model::entry_below(e);
    let above = crate::model::entry_above(e);
    let r = insert_spec(s, e);
    let lo = s.filter(below);
    let hi = s.filter(above);
    assert(r[lo.len() as int] == e);
    if r.contains(x) && x != e {
        let i = choose|i: int| 0 <= i < r.len() && r[i] == x;
        if i < lo.len() {
            assert(r[i] == lo[i]);
            assert(lo.contains(x));
            s.lemma_filter_contains_rev(below, x);
            s.lemma_filter_pred(below, i);
            assert(below(x));
        } else {
            assert(i > lo.len());
            assert(r[i] == hi[i - lo.len() - 1]);
            assert(hi.contains(x));
            s.lemma_filter_contains_rev(above, x);
            s.lemma_filter_pred(above, i - lo.len() - 1);
            assert(above(x));
        }
        lemma_entry_order(x, e);
        assert(s.contains(x) && !same_key(x, e));
    }
    if s.contains(x) && !same_key(x, e) {
        let i = choose|i: int| 0 <= i < s.len() && s[i] == x;
        lemma_entry_order(x, e);
        if entry_lt(x, e) {
            s.lemma_filter_contains(below, i);
            let j = choose|j: int| 0 <= j < lo.len() && lo[j] == x;
            assert(r[j] == x);
        } else {
            s.lemma_filter_contains(above, i);
            let j = choose|j: int| 0 <= j < hi.len() && hi[j] == x;
            assert(r[lo.len() + 1 + j] == x);
        }
    }
}

/// Building a multimap from the entries of a sorted sequence, taken as pairs
/// in their order, gives that sequence back.
pub proof fn lemma_round_trip<K: Ord + Clone, V: KeyedItem>(s: Seq<MapEntry<K, V>>)
    ensures
        entries_of(pairs_of(s)) == s,
{
    assert(entries_of(pairs_of(s)) =~= s);
}

/// A key is a monotone seek target over a sorted sequence, and between two
/// keys `a` and `b` as start and end, `remove_range` removes exactly the
/// entries whose outer key is `a` or above and lies below `b`.
pub proof fn lemma_remove_range_keys<K: Ord + Clone, V: KeyedItem>(
    s: Seq<MapEntry<K, V>>,
    a: K,
    b: K,
)
    requires
        laws::<K, V>(),
        sorted(s),
    ensures
        target_obeys::<K, K>(),
        place_monotone(&a, s),
        place_monotone(&b, s),
        remove_range_spec(s, &a, &b) == s.filter(key_outside::<K, V>(a, b)),
{
    reveal(key_laws);
    lemma_key_place_monotone(s, a);
    lemma_key_place_monotone(s, b);
    let p = outside::<K, V, K, K>(&a, &b);
    let q = key_outside::<K, V>(a, b);
    assert forall|e: MapEntry<K, V>| #[trigger] p(e) == q(e) by {
        lemma_order(a, e.key);
        lemma_order(e.key, a);
        lemma_order(b, e.key);
        lemma_order(e.key, b);
    }
    assert(p =~= q);
}

/// Along a sorted sequence, the place of a key never rises.
pub proof fn lemma_key_place_monotone<K: Ord + Clone, V: KeyedItem>(s: Seq<MapEntry<K, V>>, k: K)
    requires
        laws::<K, V>(),
        sorted(s),
    ensures
        place_monotone(&k, s),
{
    assert forall|i: int, j: int| 0 <= i <= j < s.len() implies #[trigger] target_place(
        &k,
        s[j].key,
    ) <= #[trigger] target_place(&k, s[i].key) by {
        lemma_sorted_keys(s, i, j);
        lemma_order(k, s[i].key);
        lemma_order(k, s[j].key);
        lemma_order(s[i].key, k);
        lemma_order(s[j].key, k);
        lemma_le_lt(s[i].key, s[j].key, k);
        lemma_le_lt(k, s[i].key, s[j].key);
    }
}

/// `closest` finds the floor of `k`: an entry whose outer key lies below `k`
/// or is `k`, with the greatest composite key among all such entries; and
/// none only where every outer key lies above `k`.
pub proof fn lemma_closest_is_floor<K: Ord + Clone, V: KeyedItem>(s: Seq<MapEntry<K, V>>, k: K)
    requires
        laws::<K, V>(),
        sorted(s),
    ensures
        match closest_spec(s, k) {
            Some(e) => {
                &&& s.contains(e)
                &&& le(e.key, k)
                &&& forall|i: int|
                    0 <= i < s.len() && le(#[trigger] s[i].key, k) ==> s[i] == e || entry_lt(
                        s[i],
                        e,
                    )
            },
            None => forall|i: int| 0 <= i < s.len() ==> lt(k, #[trigger] s[i].key),
        },
{
    lemma_bounds(s, k);
    let hi = crate::model::upper(s, k);
    if hi > 0 {
        let e = s[hi - 1];
        assert(s.take(hi).last() == e);
        lemma_order(e.key, k);
        assert forall|i: int| 0 <= i < s.len() && le(#[trigger] s[i].key, k) implies s[i] == e
            || entry_lt(s[i], e) by {
            lemma_order(s[i].key, k);
            lemma_order(k, s[i].key);
            if i < hi - 1 {
                assert(entry_lt(s[i], s[hi - 1]));
            }
        }
    } else {
        assert(s.take(0) =~= Seq::<MapEntry<K, V>>::empty());
    }
}

/// Where no entry has the outer key `k`, `closest` finds the entry with the
/// greatest composite key among the entries whose outer key lies strictly
/// below `k`.
pub proof fn lemma_closest_strictly_below<K: Ord + Clone, V: KeyedItem>(
    s: Seq<MapEntry<K, V>>,
    k: K,
)
    requires
        laws::<K, V>(),
        sorted(s),
        forall|i: int| 0 <= i < s.len() ==> #[trigger] s[i].key != k,
    ensures
        closest_spec(s, k) == (if s.filter(key_below::<K, V>(k)).len() > 0 {
            Some(s.filter(key_below::<K, V>(k)).last())
        } else {
            None
        }),
{
    lemma_bounds(s, k);
    let lo = crate::model::lower(s, k);
    let hi = crate::model::upper(s, k);
    if lo < hi {
        assert(s[lo].key == k);
    }
}

/// The entries as a map from composite keys to values: the ordered map that
/// the multimap stands for.
pub open spec fn as_map<K, V: KeyedItem>(s: Seq<MapEntry<K, V>>) -> Map<MultimapKey<K, V::Key>, V> {
    Map::new(
        |k: MultimapKey<K, V::Key>| exists|i: int| 0 <= i < s.len() && entry_key(#[trigger] s[i]) == k,
        |k: MultimapKey<K, V::Key>|
            s[choose|i: int| 0 <= i < s.len() && entry_key(#[trigger] s[i]) == k].value,
    )
}

/// In a sorted sequence no composite key occurs twice.
pub proof fn lemma_unique_keys<K: Ord + Clone, V: KeyedItem>(
    s: Seq<MapEntry<K, V>>,
    i: int,
    j: int,
)
    requires
        laws::<K, V>(),
        sorted(s),
        0 <= i < s.len(),
        0 <= j < s.len(),
        entry_key(s[i]) == entry_key(s[j]),
    ensures
        i == j,
{
    lemma_entry_order(s[i], s[j]);
    if i < j {
        assert(entry_lt(s[i], s[j]));
    }
    if j < i {
        assert(entry_lt(s[j], s[i]));
    }
}

/// The map of a sorted sequence holds the composite key of every entry, with
/// the value of that entry.
pub proof fn lemma_as_map_at<K: Ord + Clone, V: KeyedItem>(s: Seq<MapEntry<K, V>>, i: int)
    requires
        laws::<K, V>(),
        sorted(s),
        0 <= i < s.len(),
    ensures
        as_map(s).dom().contains(entry_key(s[i])),
        as_map(s)[entry_key(s[i])] == s[i].value,
{
    let k = entry_key(s[i]);
    let j = choose|j: int| 0 <= j < s.len() && entry_key(#[trigger] s[j]) == k;
    lemma_unique_keys(s, i, j);
}

/// Inserting an entry into the multimap is inserting its composite key with
/// its value into the map.
#[verifier::rlimit(50)]
pub proof fn lemma_insert_as_map<K: Ord + Clone, V: KeyedItem>(
    s: Seq<MapEntry<K, V>>,
    e: MapEntry<K, V>,
)
    requires
        laws::<K, V>(),
        sorted(s),
    ensures
        as_map(insert_spec(s, e)) == as_map(s).insert(entry_key(e), e.value),
{
    let r = insert_spec(s, e);
    let left = as_map(r);
    let right = as_map(s).insert(entry_key(e), e.value);
    lemma_insert_sorted(s, e);
    lemma_insert_members(s, e, e);
    assert forall|k: MultimapKey<K, V::Key>| left.dom().contains(k) == right.dom().contains(
        k,
    ) by {
        if left.dom().contains(k) {
            let i = choose|i: int| 0 <= i < r.len() && entry_key(#[trigger] r[i]) == k;
            lemma_insert_members(s, e, r[i]);
            if r[i] != e {
                let j = choose|j: int| 0 <= j < s.len() && s[j] == r[i];
                assert(entry_key(s[j]) == k);
            }
        }
        if right.dom().contains(k) {
            if k == entry_key(e) {
                let i = choose|i: int| 0 <= i < r.len() && r[i] == e;
                assert(entry_key(r[i]) == k);
            } else {
                let j = choose|j: int| 0 <= j < s.len() && entry_key(#[trigger] s[j]) == k;
                lemma_insert_members(s, e, s[j]);
                let i = choose|i: int| 0 <= i < r.len() && r[i] == s[j];
                assert(entry_key(r[i]) == k);
            }
        }
    }
    assert forall|k: MultimapKey<K, V::Key>| left.dom().contains(k) implies left[k] == right[k] by {
        let i = choose|i: int| 0 <= i < r.len() && entry_key(#[trigger] r[i]) == k;
        lemma_as_map_at(r, i);
        lemma_insert_members(s, e, r[i]);
        if r[i] != e {
            let j = choose|j: int| 0 <= j < s.len() && s[j] == r[i];
            lemma_as_map_at(s, j);
        } else {
        }
    }
    assert(left =~= right);
}

/// Removing a composite key from the multimap is removing it from the map.
#[verifier::rlimit(50)]
pub proof fn lemma_remove_key_as_map<K: Ord + Clone, V: KeyedItem>(
    s: Seq<MapEntry<K, V>>,
    probe: MultimapKey<K, V::Key>,
)
    requires
        laws::<K, V>(),
        sorted(s),
    ensures
        as_map(remove_key_spec(s, probe)) == as_map(s).remove(probe),
{
    let p = key_differs::<K, V>(probe);
    let r = remove_key_spec(s, probe);
    let left = as_map(r);
    let right = as_map(s).remove(probe);
    lemma_remove_key_sorted(s, probe);
    assert forall|k: MultimapKey<K, V::Key>| left.dom().contains(k) == right.dom().contains(
        k,
    ) by {
        if left.dom().contains(k) {
            let i = choose|i: int| 0 <= i < r.len() && entry_key(#[trigger] r[i]) == k;
            s.lemma_filter_pred(p, i);
            assert(r.contains(r[i]));
            s.lemma_filter_contains_rev(p, r[i]);
            let j = choose|j: int| 0 <= j < s.len() && s[j] == r[i];
            assert(entry_key(s[j]) == k);
        }
        if right.dom().contains(k) {
            let j = choose|j: int| 0 <= j < s.len() && entry_key(#[trigger] s[j]) == k;
            s.lemma_filter_contains(p, j);
            let i = choose|i: int| 0 <= i < r.len() && r[i] == s[j];
            assert(entry_key(r[i]) == k);
        }
    }
    assert forall|k: MultimapKey<K, V::Key>| left.dom().contains(k) implies left[k] == right[k] by {
        let i = choose|i: int| 0 <= i < r.len() && entry_key(#[trigger] r[i]) == k;
        lemma_as_map_at(r, i);
        assert(r.contains(r[i]));
        s.lemma_filter_contains_rev(p, r[i]);
        let j = choose|j: int| 0 <= j < s.len() && s[j] == r[i];
        lemma_as_map_at(s, j);
    }
    assert(left =~= right);
}

/// A sorted sequence is determined by its entries: two sorted sequences that
/// hold the same entries are the same sequence.
#[verifier::rlimit(50)]
pub proof fn lemma_sorted_unique<K: Ord + Clone, V: KeyedItem>(
    a: Seq<MapEntry<K, V>>,
    b: Seq<MapEntry<K, V>>,
)
    requires
        laws::<K, V>(),
        sorted(a),
        sorted(b),
        forall|x: MapEntry<K, V>| a.contains(x) == b.contains(x),
    ensures
        a == b,
    decreases a.len(),
{
    if a.len() == 0 {
        if b.len() > 0 {
            assert(b.contains(b[0]));
        }
        assert(a =~= b);
    } else {
        let x = a.last();
        assert(a.contains(x));
        let j = choose|j: int| 0 <= j < b.len() && b[j] == x;
        if j < b.len() - 1 {
            let y = b.last();
            assert(b.contains(y));
            let i = choose|i: int| 0 <= i < a.len() && a[i] == y;
            assert(entry_lt(b[j], b[b.len() - 1]));
            lemma_entry_order(x, y);
            if i < a.len() - 1 {
                assert(entry_lt(a[i], a[a.len() - 1]));
            }
        }
        let a2 = a.drop_last();
        let b2 = b.drop_last();
        crate::model::lemma_sorted_subrange(a, 0, a.len() - 1);
        crate::model::lemma_sorted_subrange(b, 0, b.len() - 1);
        assert forall|z: MapEntry<K, V>| a2.contains(z) == b2.contains(z) by {
            if a2.contains(z) {
                let i = choose|i: int| 0 <= i < a2.len() && a2[i] == z;
                assert(a[i] == z);
                assert(a.contains(z));
                assert(entry_lt(a[i], a[a.len() - 1]));
                lemma_entry_order(z, x);
                let m = choose|m: int| 0 <= m < b.len() && b[m] == z;
                assert(b2[m] == z);
            }
            if b2.contains(z) {
                let m = choose|m: int| 0 <= m < b2.len() && b2[m] == z;
                assert(b[m] == z);
                assert(b.contains(z));
                assert(entry_lt(b[m], b[b.len() - 1]));
                lemma_entry_order(z, x);
                let i = choose|i: int| 0 <= i < a.len() && a[i] == z;
                assert(a2[i] == z);
            }
        }
        lemma_sorted_unique(a2, b2);
        assert(a =~= a2.push(x));
        assert(b =~= b2.push(x));
    }
}

/// The left fold of the summaries of a sequence of entries is the composite
/// key of its last entry, and no key where there is no entry.
pub proof fn lemma_total_is_last_key<K: Ord + Clone + Debug + Default, V: KeyedItem>(
    s: Seq<MapEntry<K, V>>,
)
    ensures
        total(summaries(s)) == (if s.len() > 0 {
            entry_key(s.last())
        } else {
            MultimapKey(None)
        }),
{
    if s.len() > 0 {
        assert(summaries(s).last() == entry_key(s.last()));
    }
}

/// The summary at the root of a multimap is the composite key of its last
/// entry, and no key where the multimap is empty; and every node of its tree
/// caches the left fold of the summaries of the entries below it.
pub proof fn lemma_root_summary<K: Ord + Clone + Debug + Default, V: KeyedItem>(
    m: TreeMultimap<K, V>,
)
    requires
        m.wf(),
    ensures
        m.0.root.summary_spec() == total(summaries(m@)),
        m.0.root.summary_spec() == (if m@.len() > 0 {
            entry_key(m@.last())
        } else {
            MultimapKey(None)
        }),
{
    m.0.root.lemma_summary_is_total(true);
    lemma_total_is_last_key(m@);
}

/// After the entries of a sorted sequence `more` are inserted in turn, the
/// multimap holds every entry of `more`, every entry from before whose
/// composite key no entry of `more` has, and nothing else.
pub proof fn lemma_insert_all_members<K: Ord + Clone, V: KeyedItem>(
    s: Seq<MapEntry<K, V>>,
    more: Seq<MapEntry<K, V>>,
    x: MapEntry<K, V>,
)
    requires
        laws::<K, V>(),
        sorted(s),
        sorted(more),
    ensures
        sorted(insert_all(s, more)),
        insert_all(s, more).contains(x) <==> more.contains(x) || (s.contains(x) && !holds_key(
            more,
            x,
        )),
    decreases more.len(),
{
    if more.len() > 0 {
        let front = more.drop_last();
        let last = more.last();
        let before = insert_all(s, front);
        crate::model::lemma_sorted_subrange(more, 0, more.len() - 1);
        lemma_insert_all_members(s, front, x);
        lemma_insert_sorted(before, last);
        lemma_insert_members(before, last, x);
        lemma_entry_order(x, last);
        assert(more[more.len() - 1] == last);
        if front.contains(x) {
            let i = choose|i: int| 0 <= i < front.len() && front[i] == x;
            assert(more[i] == x);
            assert(entry_lt(more[i], more[more.len() - 1]));
        }
        if more.contains(x) && x != last {
            let i = choose|i: int| 0 <= i < more.len() && more[i] == x;
            assert(front[i] == x);
        }
        if holds_key(front, x) {
            let j = choose|j: int| 0 <= j < front.len() && same_key(#[trigger] front[j], x);
            assert(same_key(more[j], x));
        }
        if holds_key(more, x) && !same_key(last, x) {
            let j = choose|j: int| 0 <= j < more.len() && same_key(#[trigger] more[j], x);
            assert(same_key(front[j], x));
        }
    }
}

/// The map after the composite key of each entry of `more` is given the value
/// of that entry, in turn.
pub open spec fn map_insert_all<K, V: KeyedItem>(
    m: Map<MultimapKey<K, V::Key>, V>,
    more: Seq<MapEntry<K, V>>,
) -> Map<MultimapKey<K, V::Key>, V>
    decreases more.len(),
{
    if more.len() == 0 {
        m
    } else {
        map_insert_all(m, more.drop_last()).insert(entry_key(more.last()), more.last().value)
    }
}

/// Inserting entries in turn into the multimap is inserting their composite
/// keys with their values, in turn, into the map.
pub proof fn lemma_insert_all_as_map<K: Ord + Clone, V: KeyedItem>(
    s: Seq<MapEntry<K, V>>,
    more: Seq<MapEntry<K, V>>,
)
    requires
        laws::<K, V>(),
        sorted(s),
    ensures
        sorted(insert_all(s, more)),
        as_map(insert_all(s, more)) == map_insert_all(as_map(s), more),
    decreases more.len(),
{
    if more.len() > 0 {
        lemma_insert_all_as_map(s, more.drop_last());
        lemma_insert_sorted(insert_all(s, more.drop_last()), more.last());
        lemma_insert_as_map(insert_all(s, more.drop_last()), more.last());
    }
}

} // verus!
