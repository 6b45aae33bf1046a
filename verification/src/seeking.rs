//! How seeks over the keys of a sorted sequence of entries behave: which
//! entries a seek moves past, and that seeks for keys are monotone.

use vstd::prelude::*;
use std::fmt::Debug;
use vstd::std_specs::cmp::OrdSpec;
use crate::algebra::{
    Bias, dim_at, dimension_laws, Item, item_laws, monotone, SeekTarget, skips_item, summaries,
};
use crate::keys::{
    EntryKeyRef, KeyedItem, MapEntry, MapKeyRef, MapSeekTarget, MapSeekTargetAdaptor, MultimapKey,
};
use crate::model::{
    entry_key, entry_lt, inner, key_lt, laws, lemma_key_lt_transitive, lemma_key_order,
    lemma_sorted_keys, place_monotone, sorted, target_place,
};
use crate::order::{key_laws, lemma_le_lt, lemma_order, lt};

verus! {

/// The type parameters of a lawful multimap make its entries lawful items, and
/// its two cursor coordinates lawful dimensions.
pub proof fn lemma_laws<'a, K: Ord + Clone + Debug + Default, V: KeyedItem>()
    requires
        laws::<K, V>(),
    ensures
        item_laws::<MapEntry<K, V>>(),
        dimension_laws::<MultimapKey<K, V::Key>, MapKeyRef<'a, K>>(),
        dimension_laws::<MultimapKey<K, V::Key>, EntryKeyRef<'a, K, V::Key>>(),
        <MapKeyRef<'a, K> as SeekTarget<
            'a,
            MultimapKey<K, V::Key>,
            MapKeyRef<'a, K>,
        >>::obeys_target_spec(),
        <MultimapKey<K, V::Key> as SeekTarget<
            'a,
            MultimapKey<K, V::Key>,
            EntryKeyRef<'a, K, V::Key>,
        >>::obeys_target_spec(),
{
    reveal(key_laws);
}

/// The coordinate of outer keys past entry `j` is the outer key of entry `j`.
pub proof fn lemma_key_dim<'a, K: Ord + Clone + Debug + Default, V: KeyedItem>(
    s: Seq<MapEntry<K, V>>,
    j: int,
)
    requires
        0 <= j < s.len(),
    ensures
        dim_at::<MultimapKey<K, V::Key>, MapKeyRef<'a, K>>(summaries(s), j + 1) == MapKeyRef(
            Some(&s[j].key),
        ),
{
    let part = summaries(s).subrange(0, j + 1);
    assert(part.last() == s[j].summary_spec());
}

/// The coordinate of composite keys past entry `j` is the composite key of
/// entry `j`.
pub proof fn lemma_entry_dim<'a, K: Ord + Clone + Debug + Default, V: KeyedItem>(
    s: Seq<MapEntry<K, V>>,
    j: int,
)
    requires
        0 <= j < s.len(),
    ensures
        dim_at::<MultimapKey<K, V::Key>, EntryKeyRef<'a, K, V::Key>>(summaries(s), j + 1)
            == EntryKeyRef(Some(&s[j].summary_spec())),
{
    let part = summaries(s).subrange(0, j + 1);
    assert(part.last() == s[j].summary_spec());
}

/// Whether a seek for the outer key `k` moves past an entry.
pub open spec fn key_passes<K: Ord, V>(k: K, e: MapEntry<K, V>, bias: Bias) -> bool {
    lt(e.key, k) || (bias == Bias::Right && e.key == k)
}

/// Whether a seek for the composite key `probe` moves past an entry.
pub open spec fn probe_passes<K: Ord, V: KeyedItem>(
    probe: MultimapKey<K, V::Key>,
    e: MapEntry<K, V>,
    bias: Bias,
) -> bool {
    key_lt(entry_key(e), probe) || (bias == Bias::Right && entry_key(e) == probe)
}

/// A seek for an outer key moves past exactly the entries whose outer key lies
/// below it, and under `Bias::Right` past those with that outer key too.
pub proof fn lemma_key_skips<'a, 't, K: Ord + Clone + Debug + Default, V: KeyedItem>(
    s: Seq<MapEntry<K, V>>,
    k: &'t K,
    bias: Bias,
    j: int,
)
    requires
        laws::<K, V>(),
        0 <= j < s.len(),
    ensures
        skips_item::<MultimapKey<K, V::Key>, MapKeyRef<'a, K>, MapKeyRef<'t, K>>(
            &MapKeyRef(Some(k)),
            summaries(s),
            j,
            bias,
        ) == key_passes(*k, s[j], bias),
{
    lemma_key_dim::<K, V>(s, j);
    lemma_order(*k, s[j].key);
    lemma_order(s[j].key, *k);
}

/// A seek for an outer key over a sorted sequence is monotone.
pub proof fn lemma_key_monotone<'a, 't, K: Ord + Clone + Debug + Default, V: KeyedItem>(
    s: Seq<MapEntry<K, V>>,
    k: &'t K,
)
    requires
        laws::<K, V>(),
        sorted(s),
    ensures
        monotone::<MultimapKey<K, V::Key>, MapKeyRef<'a, K>, MapKeyRef<'t, K>>(
            &MapKeyRef(Some(k)),
            summaries(s),
        ),
{
    let target = MapKeyRef(Some(k));
    assert forall|i: int, j: int, bias: Bias|
        #![trigger
            skips_item::<MultimapKey<K, V::Key>, MapKeyRef<'a, K>, MapKeyRef<'t, K>>(&target, summaries(s), j, bias),
            skips_item::<MultimapKey<K, V::Key>, MapKeyRef<'a, K>, MapKeyRef<'t, K>>(&target, summaries(s), i, bias)]
        0 <= i <= j < s.len() && skips_item::<
            MultimapKey<K, V::Key>,
            MapKeyRef<'a, K>,
            MapKeyRef<'t, K>,
        >(&target, summaries(s), j, bias) implies skips_item::<
            MultimapKey<K, V::Key>,
            MapKeyRef<'a, K>,
            MapKeyRef<'t, K>,
        >(&target, summaries(s), i, bias) by {
        lemma_key_skips::<K, V>(s, k, bias, i);
        lemma_key_skips::<K, V>(s, k, bias, j);
        lemma_sorted_keys(s, i, j);
        lemma_order(s[i].key, s[j].key);
        lemma_order(s[i].key, *k);
        lemma_le_lt(s[i].key, s[j].key, *k);
    }
}

/// A seek for a composite key moves past exactly the entries whose composite
/// key lies below it, and under `Bias::Right` past the entry with that
/// composite key too.
pub proof fn lemma_entry_skips<'a, K: Ord + Clone + Debug + Default, V: KeyedItem>(
    s: Seq<MapEntry<K, V>>,
    probe: MultimapKey<K, V::Key>,
    bias: Bias,
    j: int,
)
    requires
        laws::<K, V>(),
        0 <= j < s.len(),
    ensures
        skips_item::<MultimapKey<K, V::Key>, EntryKeyRef<'a, K, V::Key>, MultimapKey<K, V::Key>>(
            &probe,
            summaries(s),
            j,
            bias,
        ) == probe_passes(probe, s[j], bias),
{
    lemma_entry_dim::<K, V>(s, j);
    match probe.0 {
        Some(sought) => {
            lemma_order(sought.0, s[j].key);
            lemma_order(s[j].key, sought.0);
            lemma_order(sought.1, inner(s[j]));
            lemma_order(inner(s[j]), sought.1);
        },
        None => {},
    }
}

/// A seek for a composite key over a sorted sequence is monotone.
pub proof fn lemma_entry_monotone<'a, K: Ord + Clone + Debug + Default, V: KeyedItem>(
    s: Seq<MapEntry<K, V>>,
    probe: MultimapKey<K, V::Key>,
)
    requires
        laws::<K, V>(),
        sorted(s),
    ensures
        monotone::<MultimapKey<K, V::Key>, EntryKeyRef<'a, K, V::Key>, MultimapKey<K, V::Key>>(
            &probe,
            summaries(s),
        ),
{
    assert forall|i: int, j: int, bias: Bias|
        #![trigger
            skips_item::<MultimapKey<K, V::Key>, EntryKeyRef<'a, K, V::Key>, MultimapKey<K, V::Key>>(&probe, summaries(s), j, bias),
            skips_item::<MultimapKey<K, V::Key>, EntryKeyRef<'a, K, V::Key>, MultimapKey<K, V::Key>>(&probe, summaries(s), i, bias)]
        0 <= i <= j < s.len() && skips_item::<
            MultimapKey<K, V::Key>,
            EntryKeyRef<'a, K, V::Key>,
            MultimapKey<K, V::Key>,
        >(&probe, summaries(s), j, bias) implies skips_item::<
            MultimapKey<K, V::Key>,
            EntryKeyRef<'a, K, V::Key>,
            MultimapKey<K, V::Key>,
        >(&probe, summaries(s), i, bias) by {
        lemma_entry_skips::<K, V>(s, probe, bias, i);
        lemma_entry_skips::<K, V>(s, probe, bias, j);
        if i < j {
            assert(entry_lt(s[i], s[j]));
            lemma_key_order(entry_key(s[j]), probe);
            lemma_key_order(entry_key(s[i]), entry_key(s[j]));
            if key_lt(entry_key(s[j]), probe) {
                lemma_key_lt_transitive(entry_key(s[i]), entry_key(s[j]), probe);
            }
        }
    }
}

/// Whether a seek for the target `t` moves past an entry.
pub open spec fn target_passes<K, V, T: MapSeekTarget<K>>(
    t: &T,
    e: MapEntry<K, V>,
    bias: Bias,
) -> bool {
    target_place(t, e.key) == 2 || (bias == Bias::Right && target_place(t, e.key) == 1)
}

/// A seek for a target over outer keys moves past exactly the entries that
/// the target lies beyond, and under `Bias::Right` past those it is at too.
pub proof fn lemma_target_skips<'a, 't, K: Ord + Clone + Debug + Default, V: KeyedItem, T: MapSeekTarget<K>>(
    s: Seq<MapEntry<K, V>>,
    t: &'t T,
    bias: Bias,
    j: int,
)
    requires
        0 <= j < s.len(),
    ensures
        skips_item::<MultimapKey<K, V::Key>, MapKeyRef<'a, K>, MapSeekTargetAdaptor<'t, T>>(
            &MapSeekTargetAdaptor(t),
            summaries(s),
            j,
            bias,
        ) == target_passes(t, s[j], bias),
{
    lemma_key_dim::<K, V>(s, j);
}

/// A target whose place never rises along a sequence is monotone over it.
pub proof fn lemma_target_monotone<'a, 't, K: Ord + Clone + Debug + Default, V: KeyedItem, T: MapSeekTarget<K>>(
    s: Seq<MapEntry<K, V>>,
    t: &'t T,
)
    requires
        place_monotone(t, s),
    ensures
        monotone::<MultimapKey<K, V::Key>, MapKeyRef<'a, K>, MapSeekTargetAdaptor<'t, T>>(
            &MapSeekTargetAdaptor(t),
            summaries(s),
        ),
{
    let target = MapSeekTargetAdaptor(t);
    assert forall|i: int, j: int, bias: Bias|
        #![trigger
            skips_item::<MultimapKey<K, V::Key>, MapKeyRef<'a, K>, MapSeekTargetAdaptor<'t, T>>(&target, summaries(s), j, bias),
            skips_item::<MultimapKey<K, V::Key>, MapKeyRef<'a, K>, MapSeekTargetAdaptor<'t, T>>(&target, summaries(s), i, bias)]
        0 <= i <= j < s.len() && skips_item::<
            MultimapKey<K, V::Key>,
            MapKeyRef<'a, K>,
            MapSeekTargetAdaptor<'t, T>,
        >(&target, summaries(s), j, bias) implies skips_item::<
            MultimapKey<K, V::Key>,
            MapKeyRef<'a, K>,
            MapSeekTargetAdaptor<'t, T>,
        >(&target, summaries(s), i, bias) by {
        lemma_target_skips::<K, V, T>(s, t, bias, i);
        lemma_target_skips::<K, V, T>(s, t, bias, j);
        assert(target_place(t, s[j].key) <= target_place(t, s[i].key));
    }
}

} // verus!
