//! A tree of entries in the order of their composite keys: cutting it at a
//! key, and editing it by composite key.

use vstd::prelude::*;
use std::fmt::Debug;
use crate::algebra::{Bias, Item};
use crate::keys::{
    EntryKeyRef, KeyedItem, MapEntry, MapKeyRef, MapSeekTarget, MapSeekTargetAdaptor, MultimapKey,
};
use crate::model::{
    edit_all, entry_key, holds_key, insert_spec, key_lt, laws, lemma_edit_all_sorted,
    lemma_insert_shape, lemma_key_order, lemma_remove_key_shape, lemma_sorted_subrange,
    place_monotone, remove_key_spec, same_key, sorted, target_obeys, target_place,
};
use crate::seeking::{
    key_passes, lemma_entry_monotone, lemma_entry_skips, lemma_key_monotone, lemma_key_skips,
    lemma_laws, lemma_target_monotone, lemma_target_skips, probe_passes,
};
use crate::tree::SumTree;

verus! {

/// One change to a tree of entries: an entry to insert, which replaces the
/// entry with its composite key, or a composite key to remove.
#[derive(Clone)]
pub enum Edit<K, V: KeyedItem> {
    /// Insert the entry, in place of the entry with its composite key if
    /// there is one.
    Insert(MapEntry<K, V>),
    /// Remove the entry with the composite key, if there is one.
    Remove(MultimapKey<K, V::Key>),
}

impl<K: Ord + Clone + Debug + Default, V: KeyedItem> SumTree<MapEntry<K, V>> {
    /// Splits a sorted tree where a seek for the composite key `probe` comes
    /// to rest: into the entries that the seek moves past and the rest.
    fn cut_entry(self, probe: &MultimapKey<K, V::Key>, bias: Bias) -> (r: (
        SumTree<MapEntry<K, V>>,
        SumTree<MapEntry<K, V>>,
        Ghost<int>,
    ))
        requires
            laws::<K, V>(),
            self.wf(),
            sorted(self@),
        ensures
            r.0.wf(),
            r.1.wf(),
            0 <= r.2@ <= self@.len(),
            r.0@ == self@.take(r.2@),
            r.1@ == self@.skip(r.2@),
            forall|j: int| 0 <= j < r.2@ ==> probe_passes(*probe, self@[j], bias),
            forall|j: int| r.2@ <= j < self@.len() ==> !probe_passes(*probe, self@[j], bias),
    {
        proof {
            lemma_laws::<K, V>();
            lemma_entry_monotone::<K, V>(self@, *probe);
        }
        let path = self.locate::<EntryKeyRef<K, V::Key>, MultimapKey<K, V::Key>>(probe, bias);
        let ghost s = self@;
        let ghost q = self.root.path_offset(path@);
        proof {
            assert forall|j: int| 0 <= j < q implies probe_passes(*probe, s[j], bias) by {
                lemma_entry_skips::<K, V>(s, *probe, bias, j);
            }
            assert forall|j: int| q <= j < s.len() implies !probe_passes(*probe, s[j], bias) by {
                lemma_entry_skips::<K, V>(s, *probe, bias, j);
                lemma_entry_skips::<K, V>(s, *probe, bias, q);
            }
        }
        let (left, right) = self.split_at(&path);
        (left, right, Ghost(q))
    }

    /// Splits a sorted tree where a seek for the outer key `key` comes to
    /// rest: into the entries that the seek moves past and the rest.
    pub(crate) fn cut_key(tree: SumTree<MapEntry<K, V>>, key: &K, bias: Bias) -> (r: (
        SumTree<MapEntry<K, V>>,
        SumTree<MapEntry<K, V>>,
        Ghost<int>,
    ))
        requires
            laws::<K, V>(),
            tree.wf(),
            sorted(tree@),
        ensures
            r.0.wf(),
            r.1.wf(),
            0 <= r.2@ <= tree@.len(),
            r.0@ == tree@.take(r.2@),
            r.1@ == tree@.skip(r.2@),
            forall|j: int| 0 <= j < r.2@ ==> key_passes(*key, tree@[j], bias),
            forall|j: int| r.2@ <= j < tree@.len() ==> !key_passes(*key, tree@[j], bias),
    {
        proof {
            lemma_laws::<K, V>();
            lemma_key_monotone::<K, V>(tree@, key);
        }
        let target = MapKeyRef(Some(key));
        let path = tree.locate::<MapKeyRef<K>, MapKeyRef<K>>(&target, bias);
        let ghost s = tree@;
        let ghost q = tree.root.path_offset(path@);
        proof {
            assert forall|j: int| 0 <= j < q implies key_passes(*key, s[j], bias) by {
                lemma_key_skips::<K, V>(s, key, bias, j);
            }
            assert forall|j: int| q <= j < s.len() implies !key_passes(*key, s[j], bias) by {
                lemma_key_skips::<K, V>(s, key, bias, j);
                lemma_key_skips::<K, V>(s, key, bias, q);
            }
        }
        let (left, right) = tree.split_at(&path);
        (left, right, Ghost(q))
    }

    /// Splits a tree where a seek for the target `t` comes to rest under
    /// `Bias::Left`: into the entries that the target lies beyond and the
    /// rest.
    pub(crate) fn cut_target<T: MapSeekTarget<K>>(tree: SumTree<MapEntry<K, V>>, t: &T) -> (r: (
        SumTree<MapEntry<K, V>>,
        SumTree<MapEntry<K, V>>,
        Ghost<int>,
    ))
        requires
            laws::<K, V>(),
            tree.wf(),
            target_obeys::<K, T>(),
            place_monotone(t, tree@),
        ensures
            r.0.wf(),
            r.1.wf(),
            0 <= r.2@ <= tree@.len(),
            r.0@ == tree@.take(r.2@),
            r.1@ == tree@.skip(r.2@),
            forall|j: int| 0 <= j < r.2@ ==> target_place(t, tree@[j].key) == 2,
            forall|j: int| r.2@ <= j < tree@.len() ==> target_place(t, tree@[j].key) != 2,
    {
        proof {
            lemma_laws::<K, V>();
            lemma_target_monotone::<K, V, T>(tree@, t);
        }
        let target = MapSeekTargetAdaptor(t);
        let path = tree.locate::<MapKeyRef<K>, MapSeekTargetAdaptor<T>>(&target, Bias::Left);
        let ghost s = tree@;
        let ghost q = tree.root.path_offset(path@);
        proof {
            assert forall|j: int| 0 <= j < q implies target_place(t, s[j].key) == 2 by {
                lemma_target_skips::<K, V, T>(s, t, Bias::Left, j);
            }
            assert forall|j: int| q <= j < s.len() implies target_place(t, s[j].key) != 2 by {
                lemma_target_skips::<K, V, T>(s, t, Bias::Left, j);
                lemma_target_skips::<K, V, T>(s, t, Bias::Left, q);
            }
        }
        let (left, right) = tree.split_at(&path);
        (left, right, Ghost(q))
    }

    /// Takes the tree out of its place and leaves an empty one.
    pub(crate) fn take(&mut self) -> (tree: SumTree<MapEntry<K, V>>)
        requires
            laws::<K, V>(),
        ensures
            tree == *old(self),
            final(self).wf(),
            final(self)@ == Seq::<MapEntry<K, V>>::empty(),
    {
        proof {
            lemma_laws::<K, V>();
        }
        let mut tree = SumTree::new();
        core::mem::swap(self, &mut tree);
        tree
    }

    /// Splits a sorted tree around the composite key `probe`: into the
    /// entries below it and the entries above it. The entry with that
    /// composite key, if there is one, is dropped.
    #[verifier::rlimit(50)]
    fn cut_around(self, probe: &MultimapKey<K, V::Key>) -> (r: (
        SumTree<MapEntry<K, V>>,
        SumTree<MapEntry<K, V>>,
        Ghost<int>,
        Ghost<int>,
    ))
        requires
            laws::<K, V>(),
            self.wf(),
            sorted(self@),
        ensures
            r.0.wf(),
            r.1.wf(),
            0 <= r.2@ <= r.3@ <= self@.len(),
            r.0@ == self@.take(r.2@),
            r.1@ == self@.skip(r.3@),
            forall|j: int| 0 <= j < r.2@ ==> key_lt(entry_key(self@[j]), *probe),
            forall|j: int| r.2@ <= j < r.3@ ==> entry_key(self@[j]) == *probe,
            forall|j: int| r.3@ <= j < self@.len() ==> key_lt(*probe, entry_key(self@[j])),
    {
        let ghost s = self@;
        let (left, rest, Ghost(q1)) = self.cut_entry(probe, Bias::Left);
        proof {
            lemma_sorted_subrange(s, q1, s.len() as int);
        }
        let (same, right, Ghost(q2)) = rest.cut_entry(probe, Bias::Right);
        proof {
            assert forall|j: int| q1 <= j < q1 + q2 implies entry_key(s[j]) == *probe by {
                assert(s.skip(q1)[j - q1] == s[j]);
            }
            assert forall|j: int| q1 + q2 <= j < s.len() implies key_lt(*probe, entry_key(s[j])) by {
                assert(s.skip(q1)[j - q1] == s[j]);
                lemma_key_order(entry_key(s[j]), *probe);
            }
            assert(s.skip(q1).skip(q2) =~= s.skip(q1 + q2));
        }
        (left, right, Ghost(q1), Ghost(q1 + q2))
    }

    /// Replaces the entry with the composite key of `entry` by it, or inserts
    /// `entry` where there is none.
    pub fn insert_or_replace(&mut self, entry: MapEntry<K, V>)
        requires
            laws::<K, V>(),
            old(self).wf(),
            sorted(old(self)@),
            old(self)@.len() < usize::MAX || holds_key(old(self)@, entry),
        ensures
            final(self).wf(),
            sorted(final(self)@),
            final(self)@ == insert_spec(old(self)@, entry),
    {
        proof {
            lemma_laws::<K, V>();
        }
        let probe = entry.summary();
        let ghost s = self@;
        let tree = self.take();
        let (mut left, right, Ghost(q1), Ghost(q2)) = tree.cut_around(&probe);
        proof {
            lemma_insert_shape(s, entry, q1, q2);
            if holds_key(s, entry) {
                let j = choose|j: int| 0 <= j < s.len() && same_key(#[trigger] s[j], entry);
                lemma_key_order(entry_key(s[j]), probe);
                assert(q1 <= j < q2);
            }
        }
        left.push(entry);
        left.append(right);
        *self = left;
    }

    /// Removes the entry with the composite key `probe`, if there is one.
    pub fn remove_key(&mut self, probe: &MultimapKey<K, V::Key>)
        requires
            laws::<K, V>(),
            old(self).wf(),
            sorted(old(self)@),
        ensures
            final(self).wf(),
            sorted(final(self)@),
            final(self)@ == remove_key_spec(old(self)@, *probe),
    {
        let ghost s = self@;
        let tree = self.take();
        let (mut left, right, Ghost(q1), Ghost(q2)) = tree.cut_around(probe);
        proof {
            lemma_remove_key_shape(s, *probe, q1, q2);
        }
        left.append(right);
        *self = left;
    }

    /// Applies `edits` in their order: each `Insert` as `insert_or_replace`,
    /// each `Remove` as `remove_key`.
    #[verifier::rlimit(50)]
    pub fn edit(&mut self, edits: Vec<Edit<K, V>>)
        requires
            laws::<K, V>(),
            old(self).wf(),
            sorted(old(self)@),
            old(self)@.len() + edits@.len() <= usize::MAX,
        ensures
            final(self).wf(),
            sorted(final(self)@),
            final(self)@ == edit_all(old(self)@, edits@),
    {
        let ghost s = self@;
        let ghost all = edits@;
        proof {
            assert(all.take(0) =~= Seq::<Edit<K, V>>::empty());
        }
        for edit in it: edits
            invariant
                it.seq() == all,
                laws::<K, V>(),
                self.wf(),
                sorted(self@),
                sorted(s),
                s.len() + all.len() <= usize::MAX,
                self@ == edit_all(s, all.take(it.index())),
        {
            proof {
                lemma_edit_all_sorted(s, all.take(it.index()));
                assert(all.take(it.index() + 1).drop_last() =~= all.take(it.index()));
            }
            match edit {
                Edit::Insert(entry) => {
                    self.insert_or_replace(entry);
                },
                Edit::Remove(probe) => {
                    self.remove_key(&probe);
                },
            }
        }
        proof {
            assert(all.take(all.len() as int) =~= all);
        }
    }
}

} // verus!
