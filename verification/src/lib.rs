//! A summarized B+-tree and an ordered keyed multimap built on it.
//!
//! Every node of a [`SumTree`] caches the accumulated [`Summary`] of the items
//! below it; a [`Cursor`] walks the tree by comparing a [`SeekTarget`] against a
//! running [`Dimension`]. [`TreeMultimap`] keeps entries ordered by an outer key
//! and, among the entries of one outer key, by the key of each value.
//!
//! The contracts speak of a multimap as the sequence of its entries in the
//! order of their composite keys; `model` says what each operation makes of
//! that sequence, and `laws` proves what follows. They hold for type
//! parameters that obey `model::laws`: keys whose `cmp` is a total order that
//! agrees with equality and whose `clone` returns an equal key. The integers
//! are such keys, by `order::lemma_integer_keys`.

pub mod algebra;
pub mod order;
pub mod node;
pub mod tree;
pub mod cursor;
pub mod keys;
pub mod model;
pub mod seeking;
pub mod entry_tree;
pub mod entries;
pub mod tree_multimap;
pub mod laws;

pub use algebra::{Bias, Dimension, Item, SeekTarget, Summary};
pub use cursor::Cursor;
pub use node::{Node, TREE_BASE, TREE_MAX};
pub use tree::SumTree;
pub use entries::{Bound, Entries, Values};
pub use entry_tree::Edit;
pub use keys::{KeyedItem, MapEntry, MapKey, MapKeyRef, MapSeekTarget, MultimapKey};
pub use tree_multimap::TreeMultimap;
