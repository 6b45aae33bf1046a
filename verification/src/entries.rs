//! The entries and values of a multimap, handed out one at a time.

use vstd::prelude::*;
use std::fmt::Debug;
use crate::cursor::Cursor;
use crate::keys::{KeyedItem, MapEntry, MapKeyRef};
use crate::model::{laws, lemma_range, sorted, span, stop_pos, values_of};
use crate::order::is_lt;

verus! {

/// An end of a range of outer keys.
#[derive(Debug)]
pub enum Bound<T> {
    /// The range reaches to the key and holds it.
    Included(T),
    /// The range reaches to the key and does not hold it.
    Excluded(T),
    /// The range has no end on this side.
    Unbounded,
}

/// Entries of a multimap that are handed out one at a time, in order, up to
/// an end.
pub struct Entries<'a, K: Ord + Clone + Debug + Default, V: KeyedItem> {
    pub cursor: Cursor<'a, MapEntry<K, V>, MapKeyRef<'a, K>>,
    pub end: Bound<&'a K>,
}

impl<'a, K: Ord + Clone + Debug + Default, V: KeyedItem> Entries<'a, K, V> {
    /// The invariant: the cursor stands in a sorted tree of lawful entries, at
    /// an entry or at the end.
    pub open spec fn wf(self) -> bool {
        &&& laws::<K, V>()
        &&& self.cursor.wf()
        &&& sorted(self.cursor.tree@)
        &&& self.cursor.pos() >= 0
    }

    /// The entries still to come, in order.
    pub open spec fn remaining(self) -> Seq<MapEntry<K, V>> {
        span(self.cursor.tree@, self.cursor.pos(), stop_pos(self.cursor.tree@, self.end))
    }

    /// Whether an outer key lies before the end.
    fn within(&self, key: &K) -> (b: bool)
        requires
            laws::<K, V>(),
        ensures
            b == crate::model::before_end(self.end, *key),
    {
        match &self.end {
            Bound::Included(end) => !is_lt(*end, key),
            Bound::Excluded(end) => is_lt(key, *end),
            Bound::Unbounded => true,
        }
    }

    /// The next entry, if one is still to come.
    pub fn next(&mut self) -> (r: Option<(&'a K, &'a V)>)
        requires
            old(self).wf(),
        ensures
            final(self).wf(),
            match r {
                Some((k, v)) => {
                    &&& old(self).remaining().len() > 0
                    &&& old(self).remaining()[0] == (MapEntry { key: *k, value: *v })
                    &&& final(self).remaining() == old(self).remaining().drop_first()
                },
                None => old(self).remaining().len() == 0 && final(self).remaining().len() == 0,
            },
    {
        let ghost s = self.cursor.tree@;
        let ghost pos = self.cursor.pos();
        let ghost stop = stop_pos(s, self.end);
        proof {
            lemma_range(s, self.end, self.end);
        }
        match self.cursor.item() {
            None => None,
            Some(entry) => {
                if self.within(&entry.key) {
                    self.cursor.next();
                    proof {
                        assert(s.subrange(pos, stop).drop_first() =~= span(s, pos + 1, stop));
                    }
                    Some((&entry.key, &entry.value))
                } else {
                    None
                }
            },
        }
    }

    /// The entries still to come, collected.
    pub fn to_vec(self) -> (v: Vec<(&'a K, &'a V)>)
        requires
            self.wf(),
        ensures
            v@.len() == self.remaining().len(),
            forall|i: int|
                0 <= i < v@.len() ==> self.remaining()[i] == (MapEntry {
                    key: *(#[trigger] v@[i]).0,
                    value: *v@[i].1,
                }),
    {
        let mut entries = self;
        let ghost all = entries.remaining();
        let mut v: Vec<(&'a K, &'a V)> = Vec::new();
        loop
            invariant
                entries.wf(),
                v@.len() + entries.remaining().len() == all.len(),
                entries.remaining() == all.skip(v@.len() as int),
                forall|i: int|
                    0 <= i < v@.len() ==> all[i] == (MapEntry {
                        key: *(#[trigger] v@[i]).0,
                        value: *v@[i].1,
                    }),
            ensures
                v@.len() == all.len(),
                forall|i: int|
                    0 <= i < v@.len() ==> all[i] == (MapEntry {
                        key: *(#[trigger] v@[i]).0,
                        value: *v@[i].1,
                    }),
            decreases entries.remaining().len(),
        {
            let ghost before = entries.remaining();
            match entries.next() {
                Some(pair) => {
                    proof {
                        assert(before[0] == all[v@.len() as int]);
                        assert(all.skip(v@.len() as int).drop_first() =~= all.skip(v@.len() as int + 1));
                    }
                    v.push(pair);
                },
                None => {
                    break ;
                },
            }
        }
        v
    }
}

/// Values of a multimap that are handed out one at a time, in the order of
/// their entries.
pub struct Values<'a, K: Ord + Clone + Debug + Default, V: KeyedItem> {
    pub entries: Entries<'a, K, V>,
}

impl<'a, K: Ord + Clone + Debug + Default, V: KeyedItem> Values<'a, K, V> {
    /// The invariant of the entries behind the values.
    pub open spec fn wf(self) -> bool {
        self.entries.wf()
    }

    /// The values still to come, in order.
    pub open spec fn remaining(self) -> Seq<V> {
        values_of(self.entries.remaining())
    }

    /// The next value, if one is still to come.
    pub fn next(&mut self) -> (r: Option<&'a V>)
        requires
            old(self).wf(),
        ensures
            final(self).wf(),
            match r {
                Some(v) => {
                    &&& old(self).remaining().len() > 0
                    &&& old(self).remaining()[0] == *v
                    &&& final(self).remaining() == old(self).remaining().drop_first()
                },
                None => old(self).remaining().len() == 0 && final(self).remaining().len() == 0,
            },
    {
        let ghost before = self.entries.remaining();
        match self.entries.next() {
            Some((_, value)) => {
                proof {
                    assert(values_of(before.drop_first()) =~= values_of(before).drop_first());
                }
                Some(value)
            },
            None => None,
        }
    }

    /// The values still to come, collected.
    pub fn to_vec(self) -> (v: Vec<&'a V>)
        requires
            self.wf(),
        ensures
            v@.len() == self.remaining().len(),
            forall|i: int| 0 <= i < v@.len() ==> self.remaining()[i] == *(#[trigger] v@[i]),
    {
        let mut values = self;
        let ghost all = values.remaining();
        let mut v: Vec<&'a V> = Vec::new();
        loop
            invariant
                values.wf(),
                v@.len() + values.remaining().len() == all.len(),
                values.remaining() == all.skip(v@.len() as int),
                forall|i: int| 0 <= i < v@.len() ==> all[i] == *(#[trigger] v@[i]),
            ensures
                v@.len() == all.len(),
                forall|i: int| 0 <= i < v@.len() ==> all[i] == *(#[trigger] v@[i]),
            decreases values.remaining().len(),
        {
            let ghost before = values.remaining();
            match values.next() {
                Some(value) => {
                    proof {
                        assert(before[0] == all[v@.len() as int]);
                        assert(all.skip(v@.len() as int).drop_first() =~= all.skip(v@.len() as int + 1));
                    }
                    v.push(value);
                },
                None => {
                    break ;
                },
            }
        }
        v
    }
}

} // verus!
