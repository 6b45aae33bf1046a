//! The keys of the multimap: the traits that values and seek targets
//! implement, the entry, its composite key as a summary, the cursor
//! coordinates over keys, and the values that the library gives a key.

use vstd::prelude::*;
use std::fmt::Debug;
use std::cmp::Ordering;
use vstd::std_specs::cmp::OrdSpec;
use crate::algebra::{Dimension, Item, obeys_clone, SeekTarget, Summary};

verus! {

/// A value that carries a key of its own, by which the values of one outer key
/// are ordered.
///
/// An implementation that sets `obeys_key_spec` promises that `key` computes
/// `key_spec`.
pub trait KeyedItem: Sized {
    type Key: Ord + Clone + Debug + Default;

    /// Whether `key` is known to compute `key_spec`.
    open spec fn obeys_key_spec() -> bool {
        false
    }

    /// The key of this value.
    open spec fn key_spec(&self) -> Self::Key {
        arbitrary()
    }

    fn key(&self) -> (k: Self::Key)
        ensures
            Self::obeys_key_spec() ==> k == self.key_spec(),
    ;
}

/// A comparator of a sought place against an outer key: `Greater` while the
/// place lies beyond the key, `Less` once the key has passed it. It lets a
/// caller name a bound that is no key.
///
/// An implementation that sets `obeys_cmp_cursor_spec` promises that
/// `cmp_cursor` computes `cmp_cursor_spec`.
pub trait MapSeekTarget<K> {
    /// Whether `cmp_cursor` is known to compute `cmp_cursor_spec`.
    open spec fn obeys_cmp_cursor_spec() -> bool {
        false
    }

    /// Where the sought place lies relative to an outer key.
    open spec fn cmp_cursor_spec(&self, cursor_location: &K) -> Ordering {
        arbitrary()
    }

    fn cmp_cursor(&self, cursor_location: &K) -> (o: Ordering)
        ensures
            Self::obeys_cmp_cursor_spec() ==> o == self.cmp_cursor_spec(cursor_location),
    ;
}

/// Every key is a seek target for itself, by the order of keys.
impl<K: Ord> MapSeekTarget<K> for K {
    open spec fn obeys_cmp_cursor_spec() -> bool {
        K::obeys_cmp_spec()
    }

    open spec fn cmp_cursor_spec(&self, cursor_location: &K) -> Ordering {
        self.cmp_spec(cursor_location)
    }

    fn cmp_cursor(&self, cursor_location: &K) -> (o: Ordering) {
        self.cmp(cursor_location)
    }
}

/// An entry of the multimap: an outer key and a value.
#[derive(Debug, PartialEq, Eq)]
pub struct MapEntry<K, V> {
    pub key: K,
    pub value: V,
}

/// An outer key as a summary: the last key of a run of entries, and no key
/// for the empty run.
#[derive(Debug, PartialEq, Eq, PartialOrd, Ord)]
pub struct MapKey<K>(pub Option<K>);

/// A composite key as a summary: the outer key of the last entry of a run
/// with the key of its value, and no key for the empty run. No key lies below
/// every key.
#[derive(Debug, PartialEq, Eq, PartialOrd, Ord)]
pub struct MultimapKey<K, V>(pub Option<(K, V)>);

/// The outer key that a cursor has last passed; `None` before the first
/// entry.
#[derive(Debug)]
pub struct MapKeyRef<'a, K>(pub Option<&'a K>);

/// The composite key that a cursor has last passed; `None` before the first
/// entry.
#[derive(Debug)]
pub struct EntryKeyRef<'a, K, V>(pub Option<&'a MultimapKey<K, V>>);

impl<K: Clone, V: Clone> Clone for MapEntry<K, V> {
    fn clone(&self) -> (r: Self)
        ensures
            obeys_clone::<K>() && obeys_clone::<V>() ==> r == *self,
    {
        MapEntry { key: self.key.clone(), value: self.value.clone() }
    }
}

impl<K: Clone> Clone for MapKey<K> {
    fn clone(&self) -> (r: Self)
        ensures
            obeys_clone::<K>() ==> r == *self,
    {
        match &self.0 {
            Some(key) => MapKey(Some(key.clone())),
            None => MapKey(None),
        }
    }
}

impl<K: Clone, V: Clone> Clone for MultimapKey<K, V> {
    fn clone(&self) -> (r: Self)
        ensures
            obeys_clone::<K>() && obeys_clone::<V>() ==> r == *self,
    {
        match &self.0 {
            Some(pair) => MultimapKey(Some((pair.0.clone(), pair.1.clone()))),
            None => MultimapKey(None),
        }
    }
}

impl<K> Default for MapKey<K> {
    /// No key: the summary of the empty run.
    fn default() -> (r: Self)
        ensures
            r.0 is None,
    {
        MapKey(None)
    }
}

impl<K, V> Default for MultimapKey<K, V> {
    /// No key: the summary of the empty run.
    fn default() -> (r: Self)
        ensures
            r.0 is None,
    {
        MultimapKey(None)
    }
}

impl<K, V> MultimapKey<K, V> {
    /// The composite key of an outer key and the key of a value.
    pub fn of(key: K, inner: V) -> (r: Self)
        ensures
            r == MultimapKey(Some((key, inner))),
    {
        MultimapKey(Some((key, inner)))
    }
}

impl<'a, K> Clone for MapKeyRef<'a, K> {
    fn clone(&self) -> (r: Self)
        ensures
            r == *self,
    {
        MapKeyRef(self.0)
    }
}

impl<'a, K> Copy for MapKeyRef<'a, K> {

}

impl<'a, K> Default for MapKeyRef<'a, K> {
    fn default() -> (r: Self)
        ensures
            r.0 is None,
    {
        MapKeyRef(None)
    }
}

impl<'a, K, V> Clone for EntryKeyRef<'a, K, V> {
    fn clone(&self) -> (r: Self)
        ensures
            r == *self,
    {
        EntryKeyRef(self.0)
    }
}

impl<'a, K, V> Copy for EntryKeyRef<'a, K, V> {

}

impl<K: Clone + Debug + Default> Summary for MapKey<K> {
    open spec fn obeys_summary_spec() -> bool {
        obeys_clone::<K>()
    }

    /// The later key stands for the run; where the later run is empty, the
    /// earlier key does.
    open spec fn add_spec(self, other: Self) -> Self {
        if other.0 is Some {
            other
        } else {
            self
        }
    }

    /// No key.
    open spec fn zero_spec() -> Self {
        MapKey(None)
    }

    /// No key, which is the default-constructed summary.
    fn zero() -> (z: Self)
        ensures
            z.0 is None,
    {
        MapKey(None)
    }

    fn add_summary(&mut self, other: &Self) {
        if other.0.is_some() {
            *self = other.clone();
        }
    }
}

impl<K: Clone + Debug + Default, V: Clone + Debug + Default> Summary for MultimapKey<K, V> {
    open spec fn obeys_summary_spec() -> bool {
        obeys_clone::<K>() && obeys_clone::<V>()
    }

    /// The later key stands for the run; where the later run is empty, the
    /// earlier key does.
    open spec fn add_spec(self, other: Self) -> Self {
        if other.0 is Some {
            other
        } else {
            self
        }
    }

    /// No key.
    open spec fn zero_spec() -> Self {
        MultimapKey(None)
    }

    /// No key, which is the default-constructed summary.
    fn zero() -> (z: Self)
        ensures
            z.0 is None,
    {
        MultimapKey(None)
    }

    fn add_summary(&mut self, other: &Self) {
        if other.0.is_some() {
            *self = other.clone();
        }
    }
}

impl<K: Ord + Clone + Debug + Default, V: KeyedItem> Item for MapEntry<K, V> {
    type Summary = MultimapKey<K, V::Key>;

    open spec fn obeys_item_spec() -> bool {
        obeys_clone::<K>() && V::obeys_key_spec()
    }

    open spec fn summary_spec(&self) -> MultimapKey<K, V::Key> {
        MultimapKey(Some((self.key, self.value.key_spec())))
    }

    fn summary(&self) -> (s: MultimapKey<K, V::Key>) {
        MultimapKey(Some((self.key.clone(), self.value.key())))
    }
}

impl<K: Ord + Clone + Debug + Default, V: KeyedItem> KeyedItem for MapEntry<K, V> {
    type Key = MultimapKey<K, V::Key>;

    open spec fn obeys_key_spec() -> bool {
        obeys_clone::<K>() && V::obeys_key_spec()
    }

    open spec fn key_spec(&self) -> MultimapKey<K, V::Key> {
        MultimapKey(Some((self.key, self.value.key_spec())))
    }

    fn key(&self) -> (k: MultimapKey<K, V::Key>) {
        MultimapKey(Some((self.key.clone(), self.value.key())))
    }
}

impl<'a, K: Clone + Debug + Default> Dimension<'a, MapKey<K>> for MapKeyRef<'a, K> {
    open spec fn obeys_dimension_spec() -> bool {
        true
    }

    open spec fn zero_spec() -> Self {
        MapKeyRef(None)
    }

    open spec fn advance_spec(self, summary: MapKey<K>) -> Self {
        match summary.0 {
            Some(key) => MapKeyRef(Some(&key)),
            None => self,
        }
    }

    fn zero() -> (d: Self) {
        MapKeyRef(None)
    }

    fn add_summary(&mut self, summary: &'a MapKey<K>) {
        match &summary.0 {
            Some(key) => {
                self.0 = Some(key);
            },
            None => {},
        }
    }
}

impl<'a, K: Clone + Debug + Default, V: Clone + Debug + Default> Dimension<'a, MultimapKey<K, V>> for MapKeyRef<
    'a,
    K,
> {
    open spec fn obeys_dimension_spec() -> bool {
        true
    }

    open spec fn zero_spec() -> Self {
        MapKeyRef(None)
    }

    open spec fn advance_spec(self, summary: MultimapKey<K, V>) -> Self {
        match summary.0 {
            Some(pair) => MapKeyRef(Some(&pair.0)),
            None => self,
        }
    }

    fn zero() -> (d: Self) {
        MapKeyRef(None)
    }

    fn add_summary(&mut self, summary: &'a MultimapKey<K, V>) {
        match &summary.0 {
            Some(pair) => {
                self.0 = Some(&pair.0);
            },
            None => {},
        }
    }
}

impl<'a, K: Clone + Debug + Default, V: Clone + Debug + Default> Dimension<'a, MultimapKey<K, V>> for EntryKeyRef<
    'a,
    K,
    V,
> {
    open spec fn obeys_dimension_spec() -> bool {
        true
    }

    open spec fn zero_spec() -> Self {
        EntryKeyRef(None)
    }

    open spec fn advance_spec(self, summary: MultimapKey<K, V>) -> Self {
        if summary.0 is Some {
            EntryKeyRef(Some(&summary))
        } else {
            self
        }
    }

    fn zero() -> (d: Self) {
        EntryKeyRef(None)
    }

    fn add_summary(&mut self, summary: &'a MultimapKey<K, V>) {
        if summary.0.is_some() {
            self.0 = Some(summary);
        }
    }
}

/// An outer key sought among outer keys: it lies beyond the place before the
/// first entry, and otherwise where the order of keys puts it.
impl<'a, 't, K: Ord + Clone + Debug + Default> SeekTarget<'a, MapKey<K>, MapKeyRef<'a, K>> for MapKeyRef<
    't,
    K,
> {
    open spec fn obeys_target_spec() -> bool {
        K::obeys_cmp_spec()
    }

    open spec fn order_spec(&self, cursor_location: &MapKeyRef<'a, K>) -> Ordering {
        match (self.0, cursor_location.0) {
            (Some(a), Some(b)) => a.cmp_spec(b),
            (Some(_), None) => Ordering::Greater,
            (None, Some(_)) => Ordering::Less,
            (None, None) => Ordering::Equal,
        }
    }

    fn cmp(&self, cursor_location: &MapKeyRef<'a, K>) -> (o: Ordering) {
        match (self.0, cursor_location.0) {
            (Some(a), Some(b)) => a.cmp(b),
            (Some(_), None) => Ordering::Greater,
            (None, Some(_)) => Ordering::Less,
            (None, None) => Ordering::Equal,
        }
    }
}

impl<'a, 't, K: Ord + Clone + Debug + Default, V: Clone + Debug + Default> SeekTarget<
    'a,
    MultimapKey<K, V>,
    MapKeyRef<'a, K>,
> for MapKeyRef<'t, K> {
    open spec fn obeys_target_spec() -> bool {
        K::obeys_cmp_spec()
    }

    open spec fn order_spec(&self, cursor_location: &MapKeyRef<'a, K>) -> Ordering {
        match (self.0, cursor_location.0) {
            (Some(a), Some(b)) => a.cmp_spec(b),
            (Some(_), None) => Ordering::Greater,
            (None, Some(_)) => Ordering::Less,
            (None, None) => Ordering::Equal,
        }
    }

    fn cmp(&self, cursor_location: &MapKeyRef<'a, K>) -> (o: Ordering) {
        match (self.0, cursor_location.0) {
            (Some(a), Some(b)) => a.cmp(b),
            (Some(_), None) => Ordering::Greater,
            (None, Some(_)) => Ordering::Less,
            (None, None) => Ordering::Equal,
        }
    }
}

/// A `MapSeekTarget` as a seek target over outer keys: it lies beyond the
/// place before the first entry.
pub struct MapSeekTargetAdaptor<'t, T>(pub &'t T);

impl<'a, 't, K: Ord + Clone + Debug + Default, V: Clone + Debug + Default, T: MapSeekTarget<K>> SeekTarget<
    'a,
    MultimapKey<K, V>,
    MapKeyRef<'a, K>,
> for MapSeekTargetAdaptor<'t, T> {
    open spec fn obeys_target_spec() -> bool {
        T::obeys_cmp_cursor_spec()
    }

    open spec fn order_spec(&self, cursor_location: &MapKeyRef<'a, K>) -> Ordering {
        match cursor_location.0 {
            Some(key) => self.0.cmp_cursor_spec(key),
            None => Ordering::Greater,
        }
    }

    fn cmp(&self, cursor_location: &MapKeyRef<'a, K>) -> (o: Ordering) {
        match cursor_location.0 {
            Some(key) => self.0.cmp_cursor(key),
            None => Ordering::Greater,
        }
    }
}

/// A composite key sought among composite keys, by the outer key first and
/// the key of the value second.
impl<'a, K: Ord + Clone + Debug + Default, V: Ord + Clone + Debug + Default> SeekTarget<
    'a,
    MultimapKey<K, V>,
    EntryKeyRef<'a, K, V>,
> for MultimapKey<K, V> {
    open spec fn obeys_target_spec() -> bool {
        K::obeys_cmp_spec() && V::obeys_cmp_spec()
    }

    open spec fn order_spec(&self, cursor_location: &EntryKeyRef<'a, K, V>) -> Ordering {
        match cursor_location.0 {
            Some(there) => match (self.0, there.0) {
                (Some(a), Some(b)) => match a.0.cmp_spec(&b.0) {
                    Ordering::Equal => a.1.cmp_spec(&b.1),
                    other => other,
                },
                (Some(_), None) => Ordering::Greater,
                (None, Some(_)) => Ordering::Less,
                (None, None) => Ordering::Equal,
            },
            None => Ordering::Greater,
        }
    }

    fn cmp(&self, cursor_location: &EntryKeyRef<'a, K, V>) -> (o: Ordering) {
        match cursor_location.0 {
            Some(there) => match (&self.0, &there.0) {
                (Some(a), Some(b)) => match a.0.cmp(&b.0) {
                    Ordering::Equal => a.1.cmp(&b.1),
                    other => other,
                },
                (Some(_), None) => Ordering::Greater,
                (None, Some(_)) => Ordering::Less,
                (None, None) => Ordering::Equal,
            },
            None => Ordering::Greater,
        }
    }
}

/// A number has no key of its own: every `u8` has the key zero, so an outer
/// key holds at most one of them.
impl KeyedItem for u8 {
    type Key = u8;

    open spec fn obeys_key_spec() -> bool {
        true
    }

    open spec fn key_spec(&self) -> u8 {
        0
    }

    fn key(&self) -> (k: u8) {
        0
    }
}

/// A number has no key of its own: every `u16` has the key zero, so an outer
/// key holds at most one of them.
impl KeyedItem for u16 {
    type Key = u8;

    open spec fn obeys_key_spec() -> bool {
        true
    }

    open spec fn key_spec(&self) -> u8 {
        0
    }

    fn key(&self) -> (k: u8) {
        0
    }
}

/// A number has no key of its own: every `u32` has the key zero, so an outer
/// key holds at most one of them.
impl KeyedItem for u32 {
    type Key = u8;

    open spec fn obeys_key_spec() -> bool {
        true
    }

    open spec fn key_spec(&self) -> u8 {
        0
    }

    fn key(&self) -> (k: u8) {
        0
    }
}

/// A number has no key of its own: every `u64` has the key zero, so an outer
/// key holds at most one of them.
impl KeyedItem for u64 {
    type Key = u8;

    open spec fn obeys_key_spec() -> bool {
        true
    }

    open spec fn key_spec(&self) -> u8 {
        0
    }

    fn key(&self) -> (k: u8) {
        0
    }
}

/// A number has no key of its own: every `usize` has the key zero, so an outer
/// key holds at most one of them.
impl KeyedItem for usize {
    type Key = u8;

    open spec fn obeys_key_spec() -> bool {
        true
    }

    open spec fn key_spec(&self) -> u8 {
        0
    }

    fn key(&self) -> (k: u8) {
        0
    }
}

/// A number has no key of its own: every `i8` has the key zero, so an outer
/// key holds at most one of them.
impl KeyedItem for i8 {
    type Key = u8;

    open spec fn obeys_key_spec() -> bool {
        true
    }

    open spec fn key_spec(&self) -> u8 {
        0
    }

    fn key(&self) -> (k: u8) {
        0
    }
}

/// A number has no key of its own: every `i16` has the key zero, so an outer
/// key holds at most one of them.
impl KeyedItem for i16 {
    type Key = u8;

    open spec fn obeys_key_spec() -> bool {
        true
    }

    open spec fn key_spec(&self) -> u8 {
        0
    }

    fn key(&self) -> (k: u8) {
        0
    }
}

/// A number has no key of its own: every `i32` has the key zero, so an outer
/// key holds at most one of them.
impl KeyedItem for i32 {
    type Key = u8;

    open spec fn obeys_key_spec() -> bool {
        true
    }

    open spec fn key_spec(&self) -> u8 {
        0
    }

    fn key(&self) -> (k: u8) {
        0
    }
}

/// A number has no key of its own: every `i64` has the key zero, so an outer
/// key holds at most one of them.
impl KeyedItem for i64 {
    type Key = u8;

    open spec fn obeys_key_spec() -> bool {
        true
    }

    open spec fn key_spec(&self) -> u8 {
        0
    }

    fn key(&self) -> (k: u8) {
        0
    }
}

/// A number has no key of its own: every `isize` has the key zero, so an outer
/// key holds at most one of them.
impl KeyedItem for isize {
    type Key = u8;

    open spec fn obeys_key_spec() -> bool {
        true
    }

    open spec fn key_spec(&self) -> u8 {
        0
    }

    fn key(&self) -> (k: u8) {
        0
    }
}

/// A string slice is its own key.
impl<'a> KeyedItem for &'a str {
    type Key = &'a str;

    open spec fn obeys_key_spec() -> bool {
        true
    }

    open spec fn key_spec(&self) -> &'a str {
        *self
    }

    fn key(&self) -> (k: &'a str) {
        *self
    }
}

} // verus!
