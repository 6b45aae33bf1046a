//! The ordered keyed multimap: entries ordered by an outer key and, among
//! entries of one outer key, by the key of the value.

use vstd::prelude::*;
use vstd::std_specs::iter::IteratorSpec;
use std::collections::BTreeMap;
use std::fmt::Debug;
use crate::algebra::{Bias, obeys_clone};
use crate::cursor::Cursor;
use crate::entries::{Bound, Entries, Values};
use crate::laws::{
    as_map, lemma_insert_all_as_map, lemma_insert_as_map, lemma_insert_members, map_insert_all,
};
use crate::entry_tree::Edit;
use crate::keys::{KeyedItem, MapEntry, MapKeyRef, MapSeekTarget};
use crate::model::{
    by_outer_key, closest_spec, entries_of, entry_key, holds_key, in_range, insert_all,
    insert_spec, inserts_of, key_from, key_is, laws, lemma_bounds, lemma_by_outer_key_sorted,
    lemma_cut_tail, lemma_edit_inserts, lemma_filter_middle, lemma_range, lemma_retain_sorted,
    lemma_sorted_subrange, lemma_sorted_without, lemma_update_sorted, lower, outside,
    place_monotone, remove_range_spec, remove_spec, removed_spec, retain_spec, sorted, span,
    target_obeys, target_place, upper, values_of,
};
use crate::order::{is_same, key_laws, le, lemma_order, lt};
use crate::seeking::{lemma_key_monotone, lemma_key_skips, lemma_laws};
use crate::tree::SumTree;

verus! {

/// An ordered multimap from outer keys to keyed values. Several values may
/// share an outer key; no two entries share both the outer key and the key of
/// the value.
#[derive(Debug)]
pub struct TreeMultimap<K: Ord + Clone + Debug + Default, V: KeyedItem>(pub SumTree<MapEntry<K, V>>);

impl<K: Ord + Clone + Debug + Default, V: KeyedItem> View for TreeMultimap<K, V> {
    type V = Seq<MapEntry<K, V>>;

    /// The entries of the multimap, in the order of their composite keys.
    open spec fn view(&self) -> Seq<MapEntry<K, V>> {
        self.0@
    }
}

impl<K: Ord + Clone + Debug + Default, V: KeyedItem + Clone> Clone for TreeMultimap<K, V> {
    /// A copy of the multimap: every entry is cloned.
    fn clone(&self) -> (m: Self)
        ensures
            self.wf() && obeys_clone::<V>() ==> m.wf() && m@ == self@,
    {
        proof {
            if self.wf() && obeys_clone::<V>() {
                lemma_laws::<K, V>();
                reveal(key_laws);
                assert(obeys_clone::<MapEntry<K, V>>());
            }
        }
        TreeMultimap(self.0.clone())
    }
}

/// `after` is `before` with the value of entry `i` replaced by another.
pub open spec fn updated_at<K, V>(
    before: Seq<MapEntry<K, V>>,
    after: Seq<MapEntry<K, V>>,
    i: int,
) -> bool {
    &&& 0 <= i < before.len()
    &&& after == before.update(i, after[i])
    &&& after[i].key == before[i].key
}

impl<K: Ord + Clone + Debug + Default, V: KeyedItem> TreeMultimap<K, V> {
    /// The multimap's invariant: the type parameters are lawful, the tree is
    /// well formed, and the entries stand in strictly increasing order of
    /// their composite keys.
    pub open spec fn wf(self) -> bool {
        &&& laws::<K, V>()
        &&& self.0.wf()
        &&& sorted(self@)
    }

    /// The empty multimap.
    pub fn new() -> (m: Self)
        ensures
            laws::<K, V>() ==> m.wf(),
            m@ == Seq::<MapEntry<K, V>>::empty(),
    {
        proof {
            if laws::<K, V>() {
                lemma_laws::<K, V>();
            }
        }
        TreeMultimap(SumTree::new())
    }

    /// Whether the multimap holds no entry.
    pub fn is_empty(&self) -> (b: bool)
        requires
            self.wf(),
        ensures
            b == (self@.len() == 0),
    {
        self.0.is_empty()
    }

    /// Replaces the entry whose composite key is that of `key` and `value`, or
    /// inserts a new entry where there is none. A new entry needs room: the
    /// number of entries fits in `usize`.
    pub fn insert(&mut self, key: K, value: V)
        requires
            old(self).wf(),
            old(self)@.len() < usize::MAX || holds_key(old(self)@, MapEntry { key, value }),
        ensures
            final(self).wf(),
            final(self)@ == insert_spec(old(self)@, MapEntry { key, value }),
            final(self)@.contains(MapEntry { key, value }),
            as_map(final(self)@) == as_map(old(self)@).insert(
                entry_key(MapEntry { key, value }),
                value,
            ),
    {
        proof {
            lemma_insert_members(self@, MapEntry { key, value }, MapEntry { key, value });
            lemma_insert_as_map(self@, MapEntry { key, value });
        }
        self.0.insert_or_replace(MapEntry { key, value });
    }

    /// Removes one entry with outer key `key`, the one with the least key of
    /// a value, and returns its value. Where no entry has that outer key,
    /// nothing changes.
    #[verifier::rlimit(50)]
    pub fn remove(&mut self, key: &K) -> (removed: Option<V>)
        requires
            old(self).wf(),
        ensures
            final(self).wf(),
            final(self)@ == remove_spec(old(self)@, *key),
            removed == removed_spec(old(self)@, *key),
    {
        let ghost s = self@;
        let tree = self.0.take();
        let (mut left, rest, Ghost(q)) = SumTree::cut_key(tree, key, Bias::Left);
        proof {
            lemma_laws::<K, V>();
            crate::model::lemma_lower_is(s, *key, q);
            crate::model::lemma_remove_sorted(s, *key);
            crate::model::lemma_splice(s, q);
        }
        let found = match rest.first() {
            Some(entry) => is_same(&entry.key, key),
            None => false,
        };
        if found {
            let (first, right) = rest.split_first();
            left.append(right);
            self.0 = left;
            Some(first.value)
        } else {
            left.append(rest);
            self.0 = left;
            None
        }
    }

    /// Removes every entry at or after `start` and strictly before `end`:
    /// those that `start` does not lie beyond and `end` does.
    #[verifier::rlimit(50)]
    pub fn remove_range<S: MapSeekTarget<K>, E: MapSeekTarget<K>>(&mut self, start: &S, end: &E)
        requires
            old(self).wf(),
            target_obeys::<K, S>(),
            target_obeys::<K, E>(),
            place_monotone(start, old(self)@),
            place_monotone(end, old(self)@),
        ensures
            final(self).wf(),
            final(self)@ == remove_range_spec(old(self)@, start, end),
    {
        let ghost s = self@;
        let tree = self.0.take();
        let (mut left, rest, Ghost(q1)) = SumTree::cut_target(tree, start);
        proof {
            assert forall|i: int, j: int| 0 <= i <= j < s.skip(q1).len() implies target_place(
                end,
                #[trigger] s.skip(q1)[j].key,
            ) <= target_place(end, #[trigger] s.skip(q1)[i].key) by {
                assert(target_place(end, s[q1 + j].key) <= target_place(end, s[q1 + i].key));
            }
        }
        let (gone, right, Ghost(q2)) = SumTree::cut_target(rest, end);
        proof {
            let p = outside::<K, V, S, E>(start, end);
            assert forall|j: int| q1 <= j < q1 + q2 implies !p(s[j]) by {
                assert(s.skip(q1)[j - q1] == s[j]);
            }
            assert forall|j: int| q1 + q2 <= j < s.len() implies p(s[j]) by {
                assert(s.skip(q1)[j - q1] == s[j]);
            }
            lemma_filter_middle(s, p, q1, q1 + q2);
            lemma_sorted_without(s, q1, q1 + q2);
            assert(s.skip(q1).skip(q2) =~= s.skip(q1 + q2));
        }
        left.append(right);
        self.0 = left;
    }

    /// Rebuilds the multimap with the entries for which `predicate` returns
    /// `true`, in their order.
    #[verifier::rlimit(50)]
    pub fn retain<F: FnMut(&K, &V) -> bool>(&mut self, mut predicate: F)
        requires
            old(self).wf(),
            forall|k: &K, v: &V| call_requires(predicate, (k, v)),
        ensures
            final(self).wf(),
            exists|keep: Seq<bool>|
                {
                    &&& keep.len() == old(self)@.len()
                    &&& forall|i: int|
                        0 <= i < keep.len() ==> call_ensures(
                            predicate,
                            (&old(self)@[i].key, &old(self)@[i].value),
                            #[trigger] keep[i],
                        )
                    &&& final(self)@ == retain_spec(old(self)@, keep)
                },
    {
        let ghost s = self@;
        let ghost given = predicate;
        let tree = self.0.take();
        let entries = tree.into_vec();
        let mut kept: SumTree<MapEntry<K, V>> = SumTree::new();
        let ghost mut keep = Seq::<bool>::empty();
        proof {
            lemma_laws::<K, V>();
            assert(s.take(0) =~= Seq::<MapEntry<K, V>>::empty());
        }
        for entry in it: entries
            invariant
                laws::<K, V>(),
                it.seq() == s,
                sorted(s),
                s.len() <= usize::MAX,
                predicate == given,
                kept.wf(),
                keep.len() == it.index(),
                kept@ == retain_spec(s.take(it.index()), keep),
                forall|i: int|
                    0 <= i < keep.len() ==> call_ensures(
                        predicate,
                        (&s[i].key, &s[i].value),
                        #[trigger] keep[i],
                    ),
                forall|k: &K, v: &V| call_requires(predicate, (k, v)),
        {
            let ghost front = s.take(it.index());
            let ghost old_keep = keep;
            let yes = predicate(&entry.key, &entry.value);
            proof {
                keep = keep.push(yes);
                let now = s.take(it.index() + 1);
                assert(now.drop_last() =~= front);
                assert(keep.drop_last() =~= old_keep);
                lemma_sorted_subrange(s, 0, it.index() as int);
                lemma_retain_sorted(front, old_keep);
            }
            if yes {
                kept.push(entry);
            }
        }
        proof {
            assert(s.take(s.len() as int) =~= s);
            lemma_retain_sorted(s, keep);
            assert(kept@ == retain_spec(s, keep));
        }
        self.0 = kept;
    }

    /// Merges `other` into this multimap: each entry of `other`, in order, is
    /// inserted, and replaces the entry with its composite key where there is
    /// one.
    pub fn insert_tree(&mut self, other: TreeMultimap<K, V>)
        requires
            old(self).wf(),
            other.wf(),
            old(self)@.len() + other@.len() <= usize::MAX,
        ensures
            final(self).wf(),
            final(self)@ == insert_all(old(self)@, other@),
            as_map(final(self)@) == map_insert_all(as_map(old(self)@), other@),
    {
        let ghost s = self@;
        let ghost more = other@;
        proof {
            lemma_insert_all_as_map(s, more);
        }
        let entries = other.0.into_vec();
        let mut edits: Vec<Edit<K, V>> = Vec::new();
        proof {
            assert(inserts_of(more.take(0)) =~= Seq::<Edit<K, V>>::empty());
        }
        for entry in it: entries
            invariant
                it.seq() == more,
                edits@ == inserts_of(more.take(it.index())),
        {
            proof {
                assert(inserts_of(more.take(it.index() + 1)) =~= inserts_of(
                    more.take(it.index()),
                ).push(Edit::Insert(entry)));
            }
            edits.push(Edit::Insert(entry));
        }
        proof {
            assert(more.take(more.len() as int) =~= more);
            lemma_edit_inserts(s, more);
        }
        self.0.edit(edits);
    }

    /// The multimap of `entries`, which stand in strictly increasing order of
    /// their composite keys.
    pub fn from_ordered_entries(entries: Vec<(K, V)>) -> (m: Self)
        requires
            laws::<K, V>(),
            sorted(entries_of(entries@)),
        ensures
            m.wf(),
            m@ == entries_of(entries@),
    {
        let ghost s = entries_of(entries@);
        proof {
            lemma_laws::<K, V>();
            assert(s.take(0) =~= Seq::<MapEntry<K, V>>::empty());
        }
        let mut items: Vec<MapEntry<K, V>> = Vec::new();
        for pair in it: entries
            invariant
                it.seq() == entries@,
                s == entries_of(entries@),
                items@ == s.take(it.index()),
        {
            let (key, value) = pair;
            proof {
                assert(s.take(it.index() + 1) =~= s.take(it.index()).push(
                    MapEntry { key, value },
                ));
            }
            items.push(MapEntry { key, value });
        }
        proof {
            assert(s.take(s.len() as int) =~= s);
        }
        TreeMultimap(SumTree::from_items(items))
    }

    /// Changes the value of the first entry with outer key `key` by `f`, and
    /// returns what `f` returns; where there is no such entry, nothing changes.
    /// `f` leaves the key of the value as it is.
    #[verifier::rlimit(50)]
    pub fn update<F, T>(&mut self, key: &K, f: F) -> (result: Option<T>) where
        F: FnOnce(&mut V) -> T,

        requires
            old(self).wf(),
            forall|v: &mut V|
                removed_spec(old(self)@, *key) == Some(*v) ==> #[trigger] call_requires(f, (v,)),
            forall|v: &mut V, t: T|
                removed_spec(old(self)@, *key) == Some(*v) && #[trigger] call_ensures(f, (v,), t)
                    ==> final(v).key_spec() == v.key_spec(),
        ensures
            final(self).wf(),
            result is None ==> removed_spec(old(self)@, *key) is None && final(self)@ == old(
                self,
            )@,
            result is Some ==> updated_at(old(self)@, final(self)@, lower(old(self)@, *key))
                && old(self)@[lower(old(self)@, *key)].key == *key,
            result is Some ==> exists|v: &mut V, t: T|
                {
                    &&& result == Some(t)
                    &&& *v == old(self)@[lower(old(self)@, *key)].value
                    &&& *final(v) == final(self)@[lower(old(self)@, *key)].value
                    &&& #[trigger] call_ensures(f, (v,), t)
                },
    {
        let ghost s = self@;
        let tree = self.0.take();
        let (mut left, rest, Ghost(q)) = SumTree::cut_key(tree, key, Bias::Left);
        proof {
            lemma_laws::<K, V>();
            crate::model::lemma_lower_is(s, *key, q);
            crate::model::lemma_splice(s, q);
        }
        let found = match rest.first() {
            Some(entry) => is_same(&entry.key, key),
            None => false,
        };
        if found {
            let (first, right) = rest.split_first();
            let MapEntry { key: outer, value } = first;
            let mut value = value;
            let t = f(&mut value);
            let entry = MapEntry { key: outer, value };
            proof {
                lemma_update_sorted(s, q, entry);
            }
            left.push(entry);
            left.append(right);
            self.0 = left;
            proof {
                assert(self@ == s.update(q, entry));
                assert(s[q].value == first.value);
                assert(updated_at(s, self@, q));
            }
            Some(t)
        } else {
            left.append(rest);
            self.0 = left;
            proof {
                assert(self@ == s);
                assert(removed_spec(s, *key) is None);
            }
            None
        }
    }

    /// A cursor over the multimap at the first entry that a seek for the outer
    /// key `key` does not move past: under `Bias::Left` the first entry whose
    /// outer key is not below `key`, under `Bias::Right` the first whose outer
    /// key is above it.
    #[verifier::rlimit(50)]
    fn seek_key<'a>(&'a self, key: &K, bias: Bias) -> (cursor: Cursor<
        'a,
        MapEntry<K, V>,
        MapKeyRef<'a, K>,
    >)
        requires
            self.wf(),
        ensures
            cursor.wf(),
            *cursor.tree == self.0,
            cursor.pos() == (if bias == Bias::Left {
                lower(self@, *key)
            } else {
                upper(self@, *key)
            }),
    {
        proof {
            lemma_laws::<K, V>();
            lemma_key_monotone::<K, V>(self@, key);
            lemma_bounds(self@, *key);
        }
        let mut cursor = Cursor::<MapEntry<K, V>, MapKeyRef<K>>::new(&self.0);
        let target = MapKeyRef(Some(key));
        cursor.seek(&target, bias);
        proof {
            let s = self@;
            let q = cursor.pos();
            let lo = lower(s, *key);
            let hi = upper(s, *key);
            if q < s.len() {
                lemma_key_skips::<K, V>(s, key, bias, q);
                lemma_order(s[q].key, *key);
            }
            if bias == Bias::Left {
                if q < lo {
                    assert(lt(s[q].key, *key));
                }
                if lo < q {
                    lemma_key_skips::<K, V>(s, key, bias, lo);
                    assert(!lt(s[lo].key, *key)) by {
                        lemma_order(s[lo].key, *key);
                        lemma_order(*key, s[lo].key);
                    }
                }
            } else {
                if q < hi {
                    assert(le(s[q].key, *key)) by {
                        lemma_order(s[q].key, *key);
                        lemma_order(*key, s[q].key);
                    }
                }
                if hi < q {
                    lemma_key_skips::<K, V>(s, key, bias, hi);
                    assert(lt(*key, s[hi].key));
                    lemma_order(s[hi].key, *key);
                    lemma_order(*key, s[hi].key);
                }
            }
        }
        cursor
    }

    /// The entry with the greatest composite key among the entries whose outer
    /// key lies below `key` or is `key`.
    pub fn closest<'a>(&'a self, key: &K) -> (r: Option<(&'a K, &'a V)>)
        requires
            self.wf(),
        ensures
            match r {
                Some((k, v)) => closest_spec(self@, *key) == Some(MapEntry { key: *k, value: *v }),
                None => closest_spec(self@, *key) is None,
            },
    {
        let mut cursor = self.seek_key(key, Bias::Right);
        cursor.prev();
        proof {
            lemma_bounds(self@, *key);
        }
        match cursor.item() {
            Some(entry) => Some((&entry.key, &entry.value)),
            None => None,
        }
    }
    /// The entries whose outer key lies in the range from `start` to `end`, in
    /// order.
    pub fn range<'a>(&'a self, start: Bound<&'a K>, end: Bound<&'a K>) -> (r: Entries<'a, K, V>)
        requires
            self.wf(),
        ensures
            r.wf(),
            r.remaining() == self@.filter(in_range::<K, V>(start, end)),
    {
        proof {
            lemma_laws::<K, V>();
            lemma_range(self@, start, end);
        }
        let cursor = match &start {
            Bound::Included(k) => self.seek_key(*k, Bias::Left),
            Bound::Excluded(k) => self.seek_key(*k, Bias::Right),
            Bound::Unbounded => {
                let mut cursor = Cursor::<MapEntry<K, V>, MapKeyRef<K>>::new(&self.0);
                cursor.next();
                cursor
            },
        };
        Entries { cursor, end }
    }

    /// The entries whose outer key is `from` or lies above it, in order.
    pub fn iter_from<'a>(&'a self, from: &'a K) -> (r: Entries<'a, K, V>)
        requires
            self.wf(),
        ensures
            r.wf(),
            r.remaining() == self@.filter(key_from::<K, V>(*from)),
    {
        let cursor = self.seek_key(from, Bias::Left);
        proof {
            let s = self@;
            lemma_bounds(s, *from);
            let lo = lower(s, *from);
            assert forall|j: int| lo <= j < s.len() implies key_from::<K, V>(*from)(s[j]) by {
                lemma_order(s[j].key, *from);
                lemma_order(*from, s[j].key);
            }
            lemma_cut_tail(s, key_from::<K, V>(*from), lo);
            assert(s.skip(lo) =~= span(s, lo, s.len() as int));
        }
        Entries { cursor, end: Bound::Unbounded }
    }

    /// All entries, in order.
    pub fn iter<'a>(&'a self) -> (r: Entries<'a, K, V>)
        requires
            self.wf(),
        ensures
            r.wf(),
            r.remaining() == self@,
    {
        proof {
            lemma_laws::<K, V>();
            assert(self@ =~= span(self@, 0, self@.len() as int));
        }
        let mut cursor = Cursor::<MapEntry<K, V>, MapKeyRef<K>>::new(&self.0);
        cursor.next();
        Entries { cursor, end: Bound::Unbounded }
    }

    /// The values of all entries, in the order of the entries.
    pub fn values<'a>(&'a self) -> (r: Values<'a, K, V>)
        requires
            self.wf(),
        ensures
            r.wf(),
            r.remaining() == values_of(self@),
    {
        Values { entries: self.iter() }
    }

    /// The values of the entries with outer key `key`, in the order of their
    /// keys. The values are handed out one at a time; none is copied.
    pub fn get<'a>(&'a self, key: &'a K) -> (r: Values<'a, K, V>)
        requires
            self.wf(),
        ensures
            r.wf(),
            r.remaining() == values_of(self@.filter(key_is::<K, V>(*key))),
    {
        let cursor = self.seek_key(key, Bias::Left);
        proof {
            lemma_bounds(self@, *key);
            let s = self@;
            assert(s.subrange(lower(s, *key), upper(s, *key)) =~= span(
                s,
                lower(s, *key),
                upper(s, *key),
            ));
        }
        Values { entries: Entries { cursor, end: Bound::Included(key) } }
    }

    /// The entries as a `BTreeMap` from outer keys to values. Where several
    /// entries share an outer key, the value of the last of them stays.
    pub fn to_btree_map(&self) -> (b: BTreeMap<K, V>) where V: Clone
        requires
            self.wf(),
            obeys_clone::<V>(),
            vstd::laws_cmp::obeys_cmp::<K>(),
        ensures
            b@ == by_outer_key(self@),
            forall|k: K|
                b@.contains_key(k) <==> exists|i: int|
                    0 <= i < self@.len() && (#[trigger] self@[i]).key == k,
            forall|k: K|
                #[trigger] b@.contains_key(k) ==> b@[k] == self@[upper(self@, k) - 1].value,
    {
        let ghost s = self@;
        let mut b: BTreeMap<K, V> = BTreeMap::new();
        let mut entries = self.iter();
        let ghost mut done: int = 0;
        proof {
            reveal(key_laws);
            assert(s.take(0) =~= Seq::<MapEntry<K, V>>::empty());
            assert(s.skip(0) =~= s);
        }
        loop
            invariant
                entries.wf(),
                obeys_clone::<K>(),
                obeys_clone::<V>(),
                vstd::laws_cmp::obeys_cmp::<K>(),
                0 <= done <= s.len(),
                entries.remaining() == s.skip(done),
                b@ == by_outer_key(s.take(done)),
            ensures
                b@ == by_outer_key(s),
            decreases entries.remaining().len(),
        {
            match entries.next() {
                Some((key, value)) => {
                    proof {
                        assert(s.skip(done)[0] == s[done]);
                        assert(s.skip(done).drop_first() =~= s.skip(done + 1));
                        assert(s.take(done + 1).drop_last() =~= s.take(done));
                        done = done + 1;
                    }
                    b.insert(key.clone(), value.clone());
                },
                None => {
                    proof {
                        assert(s.take(done) =~= s);
                    }
                    break ;
                },
            }
        }
        proof {
            assert forall|k: K|
                b@.contains_key(k) <==> exists|i: int|
                    0 <= i < s.len() && (#[trigger] s[i]).key == k by {
                lemma_by_outer_key_sorted(s, k);
            }
            assert forall|k: K| #[trigger] b@.contains_key(k) implies b@[k] == s[upper(s, k)
                - 1].value by {
                lemma_by_outer_key_sorted(s, k);
            }
        }
        b
    }

    /// The multimap of the entries of a `BTreeMap`: one entry for each of its
    /// keys, with the value that the map gives the key.
    pub fn from_btree_map(map: &BTreeMap<K, V>) -> (m: Self) where V: Clone
        requires
            laws::<K, V>(),
            obeys_clone::<V>(),
            vstd::laws_cmp::obeys_cmp::<K>(),
        ensures
            m.wf(),
            m@.len() == map@.dom().len(),
            by_outer_key(m@) == map@,
    {
        broadcast use vstd::std_specs::btree::axiom_key_obeys_cmp_spec_meaning;
        broadcast use vstd::std_specs::btree::axiom_spec_btree_map_iter;
        broadcast use vstd::std_specs::btree::axiom_increasing_seq_meaning;

        let ghost all = vstd::std_specs::btree::spec_btree_map_iter(map).remaining();
        let ghost keys = all.map_values(|kv: (&K, &V)| *kv.0);
        let mut pairs: Vec<(K, V)> = Vec::new();
        proof {
            reveal(key_laws);
        }
        for pair in it: map.iter()
            invariant
                obeys_clone::<K>(),
                obeys_clone::<V>(),
                it.seq() == all,
                pairs@.len() == it.index(),
                forall|j: int|
                    0 <= j < pairs@.len() ==> (#[trigger] pairs@[j]).0 == *all[j].0 && pairs@[j].1
                        == *all[j].1,
        {
            let (key, value) = pair;
            pairs.push((key.clone(), value.clone()));
        }
        let ghost s = entries_of(pairs@);
        proof {
            assert(vstd::std_specs::btree::increasing_seq(keys));
            assert forall|i: int, j: int| 0 <= i < j < s.len() implies #[trigger] crate::model::entry_lt(
                s[i],
                s[j],
            ) by {
                assert(keys[i] == s[i].key);
                assert(keys[j] == s[j].key);
            }
        }
        let m = TreeMultimap::from_ordered_entries(pairs);
        proof {
            assert forall|k: K| by_outer_key(s).contains_key(k) == map@.contains_key(k) by {
                lemma_by_outer_key_sorted(s, k);
                if map@.contains_key(k) {
                    let i = choose|i: int| 0 <= i < all.len() && all[i] == (&k, &map@[k]);
                    assert(s[i].key == k);
                }
                if by_outer_key(s).contains_key(k) {
                    let i = choose|i: int| 0 <= i < s.len() && (#[trigger] s[i]).key == k;
                    assert(map@.contains_key(*all[i].0));
                }
            }
            assert forall|k: K| by_outer_key(s).contains_key(k) implies by_outer_key(s)[k]
                == map@[k] by {
                lemma_by_outer_key_sorted(s, k);
                let i = upper(s, k) - 1;
                lemma_bounds(s, k);
                assert(s[i].key == k);
                assert(map@[*all[i].0] == *all[i].1);
            }
            assert(by_outer_key(s) =~= map@);
        }
        m
    }

    /// Whether some entry has the outer key `key`.
    pub fn contains_key(&self, key: &K) -> (b: bool)
        requires
            self.wf(),
        ensures
            b == (exists|i: int| 0 <= i < self@.len() && #[trigger] self@[i].key == *key),
    {
        let mut values = self.get(key);
        proof {
            let s = self@;
            lemma_bounds(s, *key);
            let lo = lower(s, *key);
            let hi = upper(s, *key);
            if lo < hi {
                assert(s[lo].key == *key);
            } else {
                assert forall|i: int| 0 <= i < s.len() implies #[trigger] s[i].key != *key by {
                    lemma_order(s[i].key, *key);
                    lemma_order(*key, s[i].key);
                }
            }
        }
        values.next().is_some()
    }
}

impl<K: Ord + Clone + Debug + Default, V: KeyedItem> Default for TreeMultimap<K, V> {
    /// The empty multimap.
    fn default() -> (m: Self)
        ensures
            laws::<K, V>() ==> m.wf(),
            m@ == Seq::<MapEntry<K, V>>::empty(),
    {
        Self::new()
    }
}

} // verus!
