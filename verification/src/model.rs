//! The multimap as mathematics: a sequence of entries in the order of their
//! composite keys, and what each operation makes of it.

use vstd::prelude::*;
use crate::order::{key_laws, le, lemma_le_lt, lemma_lt_transitive, lemma_order, lt};
use crate::entries::Bound;
use crate::entry_tree::Edit;
use crate::keys::{KeyedItem, MapEntry, MapSeekTarget, MultimapKey};
use std::cmp::Ordering;

verus! {

/// What the multimap asks of its type parameters: outer keys and the keys of
/// values are lawful keys, and `key` computes `key_spec`. Every operation of
/// the multimap requires it, through the multimap's invariant.
pub open spec fn laws<K: Ord + Clone, V: KeyedItem>() -> bool {
    &&& key_laws::<K>()
    &&& key_laws::<V::Key>()
    &&& V::obeys_key_spec()
}

/// The key of the value of an entry.
pub open spec fn inner<K, V: KeyedItem>(e: MapEntry<K, V>) -> V::Key {
    e.value.key_spec()
}

/// The composite key of `a` lies strictly below that of `b`: by the outer key
/// first, by the key of the value second.
pub open spec fn entry_lt<K: Ord, V: KeyedItem>(a: MapEntry<K, V>, b: MapEntry<K, V>) -> bool {
    lt(a.key, b.key) || (a.key == b.key && lt(inner(a), inner(b)))
}

/// The composite key of an entry: its outer key and the key of its value.
pub open spec fn entry_key<K, V: KeyedItem>(e: MapEntry<K, V>) -> MultimapKey<K, V::Key> {
    MultimapKey(Some((e.key, inner(e))))
}

/// The composite key `a` lies strictly below `b`: by the outer key first, by
/// the key of the value second; no key lies below every key.
pub open spec fn key_lt<K: Ord, I: Ord>(a: MultimapKey<K, I>, b: MultimapKey<K, I>) -> bool {
    match (a.0, b.0) {
        (Some(x), Some(y)) => lt(x.0, y.0) || (x.0 == y.0 && lt(x.1, y.1)),
        (None, Some(_)) => true,
        _ => false,
    }
}

/// `a` and `b` have the same composite key.
pub open spec fn same_key<K, V: KeyedItem>(a: MapEntry<K, V>, b: MapEntry<K, V>) -> bool {
    a.key == b.key && inner(a) == inner(b)
}

/// Some entry of `more` has the composite key of `x`.
pub open spec fn holds_key<K, V: KeyedItem>(more: Seq<MapEntry<K, V>>, x: MapEntry<K, V>) -> bool {
    exists|j: int| 0 <= j < more.len() && same_key(#[trigger] more[j], x)
}

/// The entries stand in strictly increasing order of their composite keys, so
/// no composite key occurs twice.
pub open spec fn sorted<K: Ord, V: KeyedItem>(s: Seq<MapEntry<K, V>>) -> bool {
    forall|i: int, j: int| 0 <= i < j < s.len() ==> #[trigger] entry_lt(s[i], s[j])
}

/// Entries whose outer key lies strictly below `k`.
pub open spec fn key_below<K: Ord, V>(k: K) -> spec_fn(MapEntry<K, V>) -> bool {
    |e: MapEntry<K, V>| lt(e.key, k)
}

/// Entries whose outer key lies below `k` or is `k`.
pub open spec fn key_upto<K: Ord, V>(k: K) -> spec_fn(MapEntry<K, V>) -> bool {
    |e: MapEntry<K, V>| le(e.key, k)
}

/// Entries whose outer key is `k`.
pub open spec fn key_is<K, V>(k: K) -> spec_fn(MapEntry<K, V>) -> bool {
    |e: MapEntry<K, V>| e.key == k
}

/// Entries whose outer key is `k` or lies above it.
pub open spec fn key_from<K: Ord, V>(k: K) -> spec_fn(MapEntry<K, V>) -> bool {
    |e: MapEntry<K, V>| !lt(e.key, k)
}

/// Entries whose composite key lies strictly below that of `x`.
pub open spec fn entry_below<K: Ord, V: KeyedItem>(x: MapEntry<K, V>) -> spec_fn(
    MapEntry<K, V>,
) -> bool {
    |e: MapEntry<K, V>| entry_lt(e, x)
}

/// Entries whose composite key lies strictly above that of `x`.
pub open spec fn entry_above<K: Ord, V: KeyedItem>(x: MapEntry<K, V>) -> spec_fn(
    MapEntry<K, V>,
) -> bool {
    |e: MapEntry<K, V>| entry_lt(x, e)
}

/// The number of entries whose outer key lies strictly below `k`: in a sorted
/// sequence, the position of the first entry whose outer key does not.
pub open spec fn lower<K: Ord, V>(s: Seq<MapEntry<K, V>>, k: K) -> int {
    s.filter(key_below(k)).len() as int
}

/// The number of entries whose outer key lies below `k` or is `k`: in a sorted
/// sequence, the position after the last such entry.
pub open spec fn upper<K: Ord, V>(s: Seq<MapEntry<K, V>>, k: K) -> int {
    s.filter(key_upto(k)).len() as int
}

/// The entries after `e` is inserted: those whose composite key lies below
/// that of `e`, then `e`, then those whose composite key lies above. An entry
/// with the composite key of `e` is replaced.
pub open spec fn insert_spec<K: Ord, V: KeyedItem>(
    s: Seq<MapEntry<K, V>>,
    e: MapEntry<K, V>,
) -> Seq<MapEntry<K, V>> {
    s.filter(entry_below(e)).push(e) + s.filter(entry_above(e))
}

/// The entries after one entry with outer key `k` is removed: the first of
/// them, which has the least key of a value. Nothing changes where no entry
/// has that outer key.
pub open spec fn remove_spec<K: Ord, V>(s: Seq<MapEntry<K, V>>, k: K) -> Seq<MapEntry<K, V>> {
    let i = lower(s, k);
    if i < s.len() && s[i].key == k {
        s.remove(i)
    } else {
        s
    }
}

/// The value that `remove_spec` takes out, if it takes one out.
pub open spec fn removed_spec<K: Ord, V>(s: Seq<MapEntry<K, V>>, k: K) -> Option<V> {
    let i = lower(s, k);
    if i < s.len() && s[i].key == k {
        Some(s[i].value)
    } else {
        None
    }
}

/// Whether `cmp_cursor` of the target type `T` is known to compute its spec.
pub open spec fn target_obeys<K, T: MapSeekTarget<K>>() -> bool {
    T::obeys_cmp_cursor_spec()
}

/// Where a seek target lies relative to an outer key: 0 where the key has
/// passed it, 1 where the key is at it, 2 where it lies beyond the key.
pub open spec fn target_place<K, T: MapSeekTarget<K>>(t: &T, k: K) -> int {
    match t.cmp_cursor_spec(&k) {
        Ordering::Less => 0,
        Ordering::Equal => 1,
        Ordering::Greater => 2,
    }
}

/// Along `s`, the target never lies further beyond a later outer key than
/// beyond an earlier one.
pub open spec fn place_monotone<K, V, T: MapSeekTarget<K>>(t: &T, s: Seq<MapEntry<K, V>>) -> bool {
    forall|i: int, j: int|
        0 <= i <= j < s.len() ==> #[trigger] target_place(t, s[j].key) <= #[trigger] target_place(
            t,
            s[i].key,
        )
}

/// Entries outside the range from `start` to `end`: those that `start` lies
/// beyond, and those that `end` does not lie beyond.
pub open spec fn outside<K, V, S: MapSeekTarget<K>, E: MapSeekTarget<K>>(
    start: &S,
    end: &E,
) -> spec_fn(MapEntry<K, V>) -> bool {
    |e: MapEntry<K, V>| target_place(start, e.key) == 2 || target_place(end, e.key) != 2
}

/// The entries after every entry at or after `start` and strictly before
/// `end` is removed.
pub open spec fn remove_range_spec<K, V, S: MapSeekTarget<K>, E: MapSeekTarget<K>>(
    s: Seq<MapEntry<K, V>>,
    start: &S,
    end: &E,
) -> Seq<MapEntry<K, V>> {
    s.filter(outside(start, end))
}

/// Entries whose composite key is not `probe`.
pub open spec fn key_differs<K, V: KeyedItem>(probe: MultimapKey<K, V::Key>) -> spec_fn(
    MapEntry<K, V>,
) -> bool {
    |e: MapEntry<K, V>| entry_key(e) != probe
}

/// The entries after the entry with composite key `probe` is removed; all of
/// them where there is none.
pub open spec fn remove_key_spec<K, V: KeyedItem>(
    s: Seq<MapEntry<K, V>>,
    probe: MultimapKey<K, V::Key>,
) -> Seq<MapEntry<K, V>> {
    s.filter(key_differs(probe))
}

/// The entries after one edit.
pub open spec fn edit_spec<K: Ord, V: KeyedItem>(
    s: Seq<MapEntry<K, V>>,
    edit: Edit<K, V>,
) -> Seq<MapEntry<K, V>> {
    match edit {
        Edit::Insert(entry) => insert_spec(s, entry),
        Edit::Remove(probe) => remove_key_spec(s, probe),
    }
}

/// The entries after each of `edits` in turn.
pub open spec fn edit_all<K: Ord, V: KeyedItem>(
    s: Seq<MapEntry<K, V>>,
    edits: Seq<Edit<K, V>>,
) -> Seq<MapEntry<K, V>>
    decreases edits.len(),
{
    if edits.len() == 0 {
        s
    } else {
        edit_spec(edit_all(s, edits.drop_last()), edits.last())
    }
}

/// The edits that insert `more`, one for one.
pub open spec fn inserts_of<K, V: KeyedItem>(more: Seq<MapEntry<K, V>>) -> Seq<Edit<K, V>> {
    Seq::new(more.len(), |i: int| Edit::Insert(more[i]))
}

/// The entries of `s` that `keep` marks, in their order.
pub open spec fn retain_spec<K, V>(s: Seq<MapEntry<K, V>>, keep: Seq<bool>) -> Seq<MapEntry<K, V>>
    decreases s.len(),
{
    if s.len() == 0 {
        s
    } else {
        let front = retain_spec(s.drop_last(), keep.drop_last());
        if keep.last() {
            front.push(s.last())
        } else {
            front
        }
    }
}

/// The entries after each entry of `more` is inserted in turn.
pub open spec fn insert_all<K: Ord, V: KeyedItem>(
    s: Seq<MapEntry<K, V>>,
    more: Seq<MapEntry<K, V>>,
) -> Seq<MapEntry<K, V>>
    decreases more.len(),
{
    if more.len() == 0 {
        s
    } else {
        insert_spec(insert_all(s, more.drop_last()), more.last())
    }
}

/// Pairs of a key and a value as entries, one for one.
pub open spec fn entries_of<K, V>(pairs: Seq<(K, V)>) -> Seq<MapEntry<K, V>> {
    Seq::new(pairs.len(), |i: int| MapEntry { key: pairs[i].0, value: pairs[i].1 })
}

/// The entry that `closest` finds: the last of the entries whose outer key
/// lies below `k` or is `k`.
pub open spec fn closest_spec<K: Ord, V>(s: Seq<MapEntry<K, V>>, k: K) -> Option<MapEntry<K, V>> {
    let upto = s.filter(key_upto(k));
    if upto.len() > 0 {
        Some(upto.last())
    } else {
        None
    }
}

/// Whether the outer key `k` lies at or after the start of a range.
pub open spec fn after_start<K: Ord>(start: Bound<&K>, k: K) -> bool {
    match start {
        Bound::Included(a) => !lt(k, *a),
        Bound::Excluded(a) => lt(*a, k),
        Bound::Unbounded => true,
    }
}

/// Whether the outer key `k` lies before the end of a range.
pub open spec fn before_end<K: Ord>(end: Bound<&K>, k: K) -> bool {
    match end {
        Bound::Included(b) => !lt(*b, k),
        Bound::Excluded(b) => lt(k, *b),
        Bound::Unbounded => true,
    }
}

/// Entries whose outer key lies in the range from `start` to `end`.
pub open spec fn in_range<K: Ord, V>(start: Bound<&K>, end: Bound<&K>) -> spec_fn(
    MapEntry<K, V>,
) -> bool {
    |e: MapEntry<K, V>| after_start(start, e.key) && before_end(end, e.key)
}

/// The position of the first entry of a sorted sequence at or after the start
/// of a range.
pub open spec fn start_pos<K: Ord, V>(s: Seq<MapEntry<K, V>>, start: Bound<&K>) -> int {
    match start {
        Bound::Included(a) => lower(s, *a),
        Bound::Excluded(a) => upper(s, *a),
        Bound::Unbounded => 0,
    }
}

/// The position after the last entry of a sorted sequence before the end of a
/// range.
pub open spec fn stop_pos<K: Ord, V>(s: Seq<MapEntry<K, V>>, end: Bound<&K>) -> int {
    match end {
        Bound::Included(b) => upper(s, *b),
        Bound::Excluded(b) => lower(s, *b),
        Bound::Unbounded => s.len() as int,
    }
}

/// The entries of `s` from position `a` up to position `b`; none where `b`
/// does not lie after `a`.
pub open spec fn span<A>(s: Seq<A>, a: int, b: int) -> Seq<A> {
    if a < b {
        s.subrange(a, b)
    } else {
        Seq::empty()
    }
}

/// The entries as a map from outer keys to values, built in their order:
/// where several entries share an outer key, the value of the last of them
/// stays.
pub open spec fn by_outer_key<K, V>(s: Seq<MapEntry<K, V>>) -> Map<K, V>
    decreases s.len(),
{
    if s.len() == 0 {
        Map::empty()
    } else {
        by_outer_key(s.drop_last()).insert(s.last().key, s.last().value)
    }
}

/// The values of a sequence of entries, one for one.
pub open spec fn values_of<K, V>(s: Seq<MapEntry<K, V>>) -> Seq<V> {
    Seq::new(s.len(), |i: int| s[i].value)
}

/// Once `p` holds of an element of `s`, it holds of every element before it.
pub open spec fn prefix_closed<A>(s: Seq<A>, p: spec_fn(A) -> bool) -> bool {
    forall|i: int, j: int| 0 <= i <= j < s.len() && p(s[j]) ==> p(s[i])
}

/// Where `p` holds of the first `q` elements and of no other, the elements of
/// which it holds are the first `q`, and the others are the rest.
pub proof fn lemma_cut<A>(s: Seq<A>, p: spec_fn(A) -> bool, q: int)
    requires
        0 <= q <= s.len(),
        forall|j: int| 0 <= j < q ==> p(s[j]),
        forall|j: int| q <= j < s.len() ==> !p(s[j]),
    ensures
        s.filter(p) == s.take(q),
        s.filter(|a: A| !p(a)) == s.skip(q),
    decreases s.len(),
{
    reveal(Seq::filter);
    let np = |a: A| !p(a);
    if s.len() == 0 {
        assert(s.take(q) =~= s);
        assert(s.skip(q) =~= s);
    } else {
        let front = s.drop_last();
        if q == s.len() {
            lemma_cut(front, p, q - 1);
            assert(front.take(q - 1).push(s.last()) =~= s.take(q));
            assert(front.skip(q - 1) =~= s.skip(q));
        } else {
            lemma_cut(front, p, q);
            assert(front.take(q) =~= s.take(q));
            assert(front.skip(q).push(s.last()) =~= s.skip(q));
        }
    }
}

/// Where `p` holds of no element among the first `q` and of every other, the
/// elements of which it holds are those after the first `q`.
pub proof fn lemma_cut_tail<A>(s: Seq<A>, p: spec_fn(A) -> bool, q: int)
    requires
        0 <= q <= s.len(),
        forall|j: int| 0 <= j < q ==> !p(s[j]),
        forall|j: int| q <= j < s.len() ==> p(s[j]),
    ensures
        s.filter(p) == s.skip(q),
    decreases s.len(),
{
    reveal(Seq::filter);
    if s.len() == 0 {
        assert(s.skip(q) =~= s);
    } else {
        let front = s.drop_last();
        if q == s.len() {
            lemma_cut_tail(front, p, q - 1);
            assert(front.skip(q - 1) =~= s.skip(q));
        } else {
            lemma_cut_tail(front, p, q);
            assert(front.skip(q).push(s.last()) =~= s.skip(q));
        }
    }
}

/// A predicate that is closed towards the front of `s` holds of exactly the
/// first elements of `s`, as many as there are elements of which it holds.
pub proof fn lemma_cut_exists<A>(s: Seq<A>, p: spec_fn(A) -> bool)
    requires
        prefix_closed(s, p),
    ensures
        0 <= s.filter(p).len() <= s.len(),
        forall|j: int| 0 <= j < s.filter(p).len() ==> p(s[j]),
        forall|j: int| s.filter(p).len() <= j < s.len() ==> !p(s[j]),
        s.filter(p) == s.take(s.filter(p).len() as int),
        s.filter(|a: A| !p(a)) == s.skip(s.filter(p).len() as int),
    decreases s.len(),
{
    reveal(Seq::filter);
    if s.len() == 0 {
        lemma_cut(s, p, 0);
    } else {
        let front = s.drop_last();
        let last = s.last();
        assert forall|i: int, j: int| 0 <= i <= j < front.len() && p(front[j]) implies p(
            front[i],
        ) by {
            assert(p(s[j]) ==> p(s[i]));
        }
        lemma_cut_exists(front, p);
        let qf = front.filter(p).len() as int;
        if p(last) {
            assert forall|j: int| 0 <= j < s.len() implies p(s[j]) by {
                assert(p(s[s.len() - 1]) ==> p(s[j]));
            }
            if qf < front.len() {
                assert(front[qf] == s[qf]);
            }
            assert(s.filter(p) == front.filter(p).push(last));
            lemma_cut(s, p, s.len() as int);
        } else {
            assert(s.filter(p) == front.filter(p));
            assert forall|j: int| 0 <= j < qf implies p(s[j]) by {
                assert(front[j] == s[j]);
            }
            assert forall|j: int| qf <= j < s.len() implies !p(s[j]) by {
                if j < front.len() {
                    assert(front[j] == s[j]);
                }
            }
            lemma_cut(s, p, qf);
        }
    }
}

/// The composite order of lawful entries is transitive.
pub proof fn lemma_entry_lt_transitive<K: Ord + Clone, V: KeyedItem>(
    a: MapEntry<K, V>,
    b: MapEntry<K, V>,
    c: MapEntry<K, V>,
)
    requires
        laws::<K, V>(),
        entry_lt(a, b),
        entry_lt(b, c),
    ensures
        entry_lt(a, c),
{
    lemma_order(a.key, b.key);
    lemma_order(b.key, c.key);
    lemma_order(a.key, c.key);
    if lt(a.key, b.key) && lt(b.key, c.key) {
        lemma_lt_transitive(a.key, b.key, c.key);
    }
    if a.key == b.key && b.key == c.key {
        lemma_lt_transitive(inner(a), inner(b), inner(c));
    }
}

/// Two lawful entries have the same composite key, or one lies strictly below
/// the other, and never two of these at once.
pub proof fn lemma_entry_order<K: Ord + Clone, V: KeyedItem>(a: MapEntry<K, V>, b: MapEntry<K, V>)
    requires
        laws::<K, V>(),
    ensures
        entry_lt(a, b) || same_key(a, b) || entry_lt(b, a),
        !(entry_lt(a, b) && entry_lt(b, a)),
        !(entry_lt(a, b) && same_key(a, b)),
        !(entry_lt(b, a) && same_key(a, b)),
{
    lemma_order(a.key, b.key);
    lemma_order(b.key, a.key);
    lemma_order(inner(a), inner(b));
    lemma_order(inner(b), inner(a));
}

/// In a sorted sequence the outer keys never decrease.
pub proof fn lemma_sorted_keys<K: Ord + Clone, V: KeyedItem>(
    s: Seq<MapEntry<K, V>>,
    i: int,
    j: int,
)
    requires
        laws::<K, V>(),
        sorted(s),
        0 <= i <= j < s.len(),
    ensures
        le(s[i].key, s[j].key),
{
    lemma_order(s[i].key, s[j].key);
    if i < j {
        assert(entry_lt(s[i], s[j]));
    }
}

/// In a sorted sequence, the predicates that cut by a key or by a composite
/// key are closed towards the front.
pub proof fn lemma_sorted_closed<K: Ord + Clone, V: KeyedItem>(
    s: Seq<MapEntry<K, V>>,
    k: K,
    x: MapEntry<K, V>,
)
    requires
        laws::<K, V>(),
        sorted(s),
    ensures
        prefix_closed(s, key_below::<K, V>(k)),
        prefix_closed(s, key_upto::<K, V>(k)),
        prefix_closed(s, entry_below(x)),
{
    assert forall|i: int, j: int| 0 <= i <= j < s.len() && key_below::<K, V>(k)(s[j]) implies key_below::<
        K,
        V,
    >(k)(s[i]) by {
        lemma_sorted_keys(s, i, j);
        lemma_le_lt(s[i].key, s[j].key, k);
    }
    assert forall|i: int, j: int| 0 <= i <= j < s.len() && key_upto::<K, V>(k)(s[j]) implies key_upto::<
        K,
        V,
    >(k)(s[i]) by {
        lemma_sorted_keys(s, i, j);
        lemma_le_lt(s[i].key, s[j].key, k);
    }
    assert forall|i: int, j: int| 0 <= i <= j < s.len() && entry_below(x)(s[j]) implies entry_below(
        x,
    )(s[i]) by {
        if i < j {
            assert(entry_lt(s[i], s[j]));
            lemma_entry_lt_transitive(s[i], s[j], x);
        }
    }
}

/// Every run of a sorted sequence is sorted.
pub proof fn lemma_sorted_subrange<K: Ord, V: KeyedItem>(s: Seq<MapEntry<K, V>>, a: int, b: int)
    requires
        sorted(s),
        0 <= a <= b <= s.len(),
    ensures
        sorted(s.subrange(a, b)),
{
    let t = s.subrange(a, b);
    assert forall|i: int, j: int| 0 <= i < j < t.len() implies entry_lt(t[i], t[j]) by {
        assert(entry_lt(s[a + i], s[a + j]));
    }
}

/// Where the first `q1` entries of a sorted sequence lie below `x`, the
/// entries from `q2` on lie above it, and those between have its composite
/// key, inserting `x` gives the first `q1`, then `x`, then those from `q2` on,
/// and that sequence is sorted.
#[verifier::rlimit(50)]
pub proof fn lemma_insert_shape<K: Ord + Clone, V: KeyedItem>(
    s: Seq<MapEntry<K, V>>,
    x: MapEntry<K, V>,
    q1: int,
    q2: int,
)
    requires
        laws::<K, V>(),
        sorted(s),
        0 <= q1 <= q2 <= s.len(),
        forall|j: int| 0 <= j < q1 ==> entry_lt(s[j], x),
        forall|j: int| q1 <= j < q2 ==> same_key(s[j], x),
        forall|j: int| q2 <= j < s.len() ==> entry_lt(x, s[j]),
    ensures
        insert_spec(s, x) == s.take(q1).push(x) + s.skip(q2),
        sorted(insert_spec(s, x)),
        q2 <= q1 + 1,
{
    assert forall|j: int| q1 <= j < s.len() implies !entry_below(x)(s[j]) by {
        lemma_entry_order(s[j], x);
    }
    assert forall|j: int| 0 <= j < q2 implies !entry_above(x)(s[j]) by {
        lemma_entry_order(s[j], x);
    }
    lemma_cut(s, entry_below(x), q1);
    lemma_cut_tail(s, entry_above(x), q2);
    let r = s.take(q1).push(x) + s.skip(q2);
    assert forall|i: int, j: int| 0 <= i < j < r.len() implies entry_lt(r[i], r[j]) by {
        if j < q1 {
            assert(entry_lt(s[i], s[j]));
        } else if j == q1 {
            assert(r[i] == s[i]);
        } else if i == q1 {
            assert(r[j] == s[q2 + (j - q1 - 1)]);
        } else if i < q1 {
            assert(r[j] == s[q2 + (j - q1 - 1)]);
            assert(entry_lt(s[i], s[q2 + (j - q1 - 1)]));
        } else {
            assert(r[i] == s[q2 + (i - q1 - 1)]);
            assert(r[j] == s[q2 + (j - q1 - 1)]);
            assert(entry_lt(s[q2 + (i - q1 - 1)], s[q2 + (j - q1 - 1)]));
        }
    }
    if q2 > q1 + 1 {
        assert(entry_lt(s[q1], s[q1 + 1]));
        lemma_entry_order(s[q1], s[q1 + 1]);
        assert(same_key(s[q1], x) && same_key(s[q1 + 1], x));
    }
}

/// Where `p` holds of the first `a` elements and of those from `b` on, and of
/// none between, the elements of which it holds are the first `a` and those
/// from `b` on.
pub proof fn lemma_filter_middle<A>(s: Seq<A>, p: spec_fn(A) -> bool, a: int, b: int)
    requires
        0 <= a <= b <= s.len(),
        forall|j: int| 0 <= j < a ==> p(s[j]),
        forall|j: int| a <= j < b ==> !p(s[j]),
        forall|j: int| b <= j < s.len() ==> p(s[j]),
    ensures
        s.filter(p) == s.take(a) + s.skip(b),
{
    let front = s.take(b);
    let back = s.skip(b);
    assert(s =~= front + back);
    Seq::filter_distributes_over_add(front, back, p);
    lemma_cut(front, p, a);
    lemma_cut(back, p, back.len() as int);
    assert(front.take(a) =~= s.take(a));
    assert(back.take(back.len() as int) =~= back);
}

/// Where `p` holds of the elements from `a` up to `b` and of no other, the
/// elements of which it holds are those.
pub proof fn lemma_filter_segment<A>(s: Seq<A>, p: spec_fn(A) -> bool, a: int, b: int)
    requires
        0 <= a <= b <= s.len(),
        forall|j: int| 0 <= j < a ==> !p(s[j]),
        forall|j: int| a <= j < b ==> p(s[j]),
        forall|j: int| b <= j < s.len() ==> !p(s[j]),
    ensures
        s.filter(p) == s.subrange(a, b),
{
    let front = s.take(b);
    let back = s.skip(b);
    assert(s =~= front + back);
    Seq::filter_distributes_over_add(front, back, p);
    lemma_cut_tail(front, p, a);
    lemma_cut(back, p, 0);
    assert(front.skip(a) =~= s.subrange(a, b));
    assert(back.take(0) =~= Seq::<A>::empty());
    assert(s.subrange(a, b) + Seq::<A>::empty() =~= s.subrange(a, b));
}

/// A sorted sequence stays sorted when a run is taken out of it.
pub proof fn lemma_sorted_without<K: Ord, V: KeyedItem>(s: Seq<MapEntry<K, V>>, a: int, b: int)
    requires
        sorted(s),
        0 <= a <= b <= s.len(),
    ensures
        sorted(s.take(a) + s.skip(b)),
{
    let r = s.take(a) + s.skip(b);
    assert forall|i: int, j: int| 0 <= i < j < r.len() implies entry_lt(r[i], r[j]) by {
        let i2 = if i < a {
            i
        } else {
            i - a + b
        };
        let j2 = if j < a {
            j
        } else {
            j - a + b
        };
        assert(r[i] == s[i2] && r[j] == s[j2]);
        assert(entry_lt(s[i2], s[j2]));
    }
}

/// The cut points of a sorted sequence by an outer key: the entries before
/// `lower` have outer keys below `k`, those from `lower` up to `upper` have
/// the outer key `k`, and those from `upper` on have outer keys above it.
#[verifier::rlimit(50)]
pub proof fn lemma_bounds<K: Ord + Clone, V: KeyedItem>(s: Seq<MapEntry<K, V>>, k: K)
    requires
        laws::<K, V>(),
        sorted(s),
    ensures
        0 <= lower(s, k) <= upper(s, k) <= s.len(),
        forall|j: int| 0 <= j < lower(s, k) ==> lt(#[trigger] s[j].key, k),
        forall|j: int| lower(s, k) <= j < upper(s, k) ==> #[trigger] s[j].key == k,
        forall|j: int| upper(s, k) <= j < s.len() ==> lt(k, #[trigger] s[j].key),
        s.filter(key_below(k)) == s.take(lower(s, k)),
        s.filter(key_upto(k)) == s.take(upper(s, k)),
        s.filter(key_is(k)) == s.subrange(lower(s, k), upper(s, k)),
{
    let anyone = MapEntry { key: k, value: arbitrary::<V>() };
    lemma_sorted_closed(s, k, anyone);
    lemma_cut_exists(s, key_below::<K, V>(k));
    lemma_cut_exists(s, key_upto::<K, V>(k));
    let lo = lower(s, k);
    let hi = upper(s, k);
    if hi < lo {
        assert(key_below::<K, V>(k)(s[hi]));
        lemma_order(s[hi].key, k);
    }
    assert forall|j: int| lo <= j < hi implies #[trigger] s[j].key == k by {
        assert(!key_below::<K, V>(k)(s[j]));
        assert(key_upto::<K, V>(k)(s[j]));
        lemma_order(s[j].key, k);
    }
    assert forall|j: int| hi <= j < s.len() implies lt(k, #[trigger] s[j].key) by {
        assert(!key_upto::<K, V>(k)(s[j]));
        lemma_order(s[j].key, k);
    }
    assert forall|j: int| 0 <= j < lo implies lt(#[trigger] s[j].key, k) by {
        assert(key_below::<K, V>(k)(s[j]));
    }
    assert forall|j: int| 0 <= j < lo implies !key_is::<K, V>(k)(s[j]) by {
        lemma_order(s[j].key, k);
    }
    assert forall|j: int| hi <= j < s.len() implies !key_is::<K, V>(k)(s[j]) by {
        lemma_order(k, s[j].key);
    }
    lemma_filter_segment(s, key_is::<K, V>(k), lo, hi);
}

/// Removing one entry of an outer key keeps the sequence sorted.
pub proof fn lemma_remove_sorted<K: Ord + Clone, V: KeyedItem>(s: Seq<MapEntry<K, V>>, k: K)
    requires
        laws::<K, V>(),
        sorted(s),
    ensures
        sorted(remove_spec(s, k)),
{
    lemma_bounds(s, k);
    let i = lower(s, k);
    if i < s.len() {
        lemma_sorted_without(s, i, i + 1);
        assert(s.remove(i) =~= s.take(i) + s.skip(i + 1));
    }
}

/// What `retain_spec` keeps of a sorted sequence is sorted, and every entry of
/// it is an entry of the sequence.
pub proof fn lemma_retain_sorted<K: Ord + Clone, V: KeyedItem>(
    s: Seq<MapEntry<K, V>>,
    keep: Seq<bool>,
)
    requires
        laws::<K, V>(),
        sorted(s),
        keep.len() == s.len(),
    ensures
        sorted(retain_spec(s, keep)),
        retain_spec(s, keep).len() <= s.len(),
        forall|i: int|
            0 <= i < retain_spec(s, keep).len() ==> exists|j: int|
                0 <= j < s.len() && s[j] == #[trigger] retain_spec(s, keep)[i],
    decreases s.len(),
{
    if s.len() > 0 {
        let front = s.drop_last();
        lemma_sorted_subrange(s, 0, s.len() - 1);
        lemma_retain_sorted(front, keep.drop_last());
        let kept = retain_spec(front, keep.drop_last());
        let r = retain_spec(s, keep);
        assert forall|i: int| 0 <= i < r.len() implies exists|j: int|
            0 <= j < s.len() && s[j] == #[trigger] r[i] by {
            if i < kept.len() {
                let j = choose|j: int| 0 <= j < front.len() && front[j] == kept[i];
                assert(s[j] == r[i]);
            } else {
                assert(s[s.len() - 1] == r[i]);
            }
        }
        assert forall|i: int, j: int| 0 <= i < j < r.len() implies entry_lt(r[i], r[j]) by {
            if j < kept.len() {
                assert(entry_lt(kept[i], kept[j]));
            } else {
                let i2 = choose|i2: int| 0 <= i2 < front.len() && front[i2] == kept[i];
                assert(entry_lt(s[i2], s[s.len() - 1]));
            }
        }
    }
}

/// Inserting into a sorted sequence keeps it sorted and adds at most one
/// entry.
#[verifier::rlimit(50)]
pub proof fn lemma_insert_sorted<K: Ord + Clone, V: KeyedItem>(
    s: Seq<MapEntry<K, V>>,
    e: MapEntry<K, V>,
)
    requires
        laws::<K, V>(),
        sorted(s),
    ensures
        sorted(insert_spec(s, e)),
        insert_spec(s, e).len() <= s.len() + 1,
{
    lemma_sorted_closed(s, e.key, e);
    lemma_cut_exists(s, entry_below(e));
    let q1 = s.filter(entry_below(e)).len() as int;
    let q2 = if q1 < s.len() && same_key(s[q1], e) {
        q1 + 1
    } else {
        q1
    };
    assert forall|j: int| q2 <= j < s.len() implies entry_lt(e, s[j]) by {
        assert(!entry_below(e)(s[j]));
        lemma_entry_order(s[j], e);
        if j > q1 {
            assert(entry_lt(s[q1], s[j]));
            lemma_entry_order(s[q1], e);
            if entry_lt(e, s[q1]) {
                lemma_entry_lt_transitive(e, s[q1], s[j]);
            }
            if same_key(s[q1], e) {
                lemma_order(s[q1].key, s[j].key);
            }
        }
    }
    assert forall|j: int| 0 <= j < q1 implies entry_lt(s[j], e) by {
        assert(entry_below(e)(s[j]));
    }
    lemma_insert_shape(s, e, q1, q2);
}

/// Where the first `q` entries have outer keys below `k` and no other entry
/// has, `q` is `lower`.
pub proof fn lemma_lower_is<K: Ord, V>(s: Seq<MapEntry<K, V>>, k: K, q: int)
    requires
        0 <= q <= s.len(),
        forall|j: int| 0 <= j < q ==> key_below::<K, V>(k)(#[trigger] s[j]),
        forall|j: int| q <= j < s.len() ==> !key_below::<K, V>(k)(#[trigger] s[j]),
    ensures
        lower(s, k) == q,
{
    lemma_cut(s, key_below::<K, V>(k), q);
}

/// A sequence is its first `q` elements and the rest; and without element
/// `q`, it is its first `q` elements and the rest but one.
pub proof fn lemma_splice<A>(s: Seq<A>, q: int)
    requires
        0 <= q <= s.len(),
    ensures
        s.take(q) + s.skip(q) == s,
        q < s.len() ==> s.take(q) + s.skip(q).skip(1) == s.remove(q),
{
    assert(s.take(q) + s.skip(q) =~= s);
    if q < s.len() {
        assert(s.take(q) + s.skip(q).skip(1) =~= s.remove(q));
    }
}

/// Replacing an entry of a sorted sequence by one of the same composite key
/// keeps the sequence sorted.
pub proof fn lemma_update_sorted<K: Ord + Clone, V: KeyedItem>(
    s: Seq<MapEntry<K, V>>,
    i: int,
    e: MapEntry<K, V>,
)
    requires
        laws::<K, V>(),
        sorted(s),
        0 <= i < s.len(),
        same_key(s[i], e),
    ensures
        sorted(s.update(i, e)),
        s.update(i, e) == s.take(i).push(e) + s.skip(i).skip(1),
{
    let r = s.update(i, e);
    assert forall|a: int, b: int| 0 <= a < b < r.len() implies entry_lt(r[a], r[b]) by {
        assert(entry_lt(s[a], s[b]));
    }
    assert(r =~= s.take(i).push(e) + s.skip(i).skip(1));
}

/// In a sorted sequence, the entries before `start_pos` lie before the start
/// of the range and no other do, and the entries before `stop_pos` lie before
/// its end and no other do. So the entries in the range are those from
/// `start_pos` up to `stop_pos`.
#[verifier::rlimit(50)]
pub proof fn lemma_range<K: Ord + Clone, V: KeyedItem>(
    s: Seq<MapEntry<K, V>>,
    start: Bound<&K>,
    end: Bound<&K>,
)
    requires
        laws::<K, V>(),
        sorted(s),
    ensures
        0 <= start_pos(s, start) <= s.len(),
        0 <= stop_pos(s, end) <= s.len(),
        forall|j: int| 0 <= j < s.len() ==> (j < stop_pos(s, end) <==> before_end(end, #[trigger] s[j].key)),
        forall|j: int| 0 <= j < s.len() ==> (j >= start_pos(s, start) <==> after_start(start, #[trigger] s[j].key)),
        s.filter(in_range::<K, V>(start, end)) == span(s, start_pos(s, start), stop_pos(s, end)),
{
    let a = start_pos(s, start);
    let b = stop_pos(s, end);
    match start {
        Bound::Included(k) => {
            lemma_bounds(s, *k);
        },
        Bound::Excluded(k) => {
            lemma_bounds(s, *k);
        },
        Bound::Unbounded => {},
    }
    match end {
        Bound::Included(k) => {
            lemma_bounds(s, *k);
        },
        Bound::Excluded(k) => {
            lemma_bounds(s, *k);
        },
        Bound::Unbounded => {},
    }
    assert forall|j: int| 0 <= j < s.len() implies (j < b <==> before_end(end, #[trigger] s[j].key)) by {
        match end {
            Bound::Included(k) => {
                lemma_order(s[j].key, *k);
                lemma_order(*k, s[j].key);
            },
            Bound::Excluded(k) => {
                lemma_order(s[j].key, *k);
                lemma_order(*k, s[j].key);
            },
            Bound::Unbounded => {},
        }
    }
    assert forall|j: int| 0 <= j < s.len() implies (j >= a <==> after_start(
        start,
        #[trigger] s[j].key,
    )) by {
        match start {
            Bound::Included(k) => {
                lemma_order(s[j].key, *k);
                lemma_order(*k, s[j].key);
            },
            Bound::Excluded(k) => {
                lemma_order(s[j].key, *k);
                lemma_order(*k, s[j].key);
            },
            Bound::Unbounded => {},
        }
    }
    let p = in_range::<K, V>(start, end);
    if a < b {
        assert forall|j: int| 0 <= j < a implies !p(s[j]) by {
            assert(!after_start(start, s[j].key));
        }
        assert forall|j: int| a <= j < b implies p(s[j]) by {
            assert(after_start(start, s[j].key));
            assert(before_end(end, s[j].key));
        }
        assert forall|j: int| b <= j < s.len() implies !p(s[j]) by {
            assert(!before_end(end, s[j].key));
        }
        lemma_filter_segment(s, p, a, b);
    } else {
        assert forall|j: int| 0 <= j < s.len() implies !p(s[j]) by {
            assert(j < b <==> before_end(end, s[j].key));
            assert(j >= a <==> after_start(start, s[j].key));
        }
        lemma_filter_segment(s, p, 0, 0);
        assert(s.subrange(0, 0) =~= Seq::<MapEntry<K, V>>::empty());
    }
}

/// Two lawful composite keys are the same, or one lies strictly below the
/// other, and never two of these at once.
pub proof fn lemma_key_order<K: Ord + Clone, I: Ord + Clone>(
    a: MultimapKey<K, I>,
    b: MultimapKey<K, I>,
)
    requires
        key_laws::<K>(),
        key_laws::<I>(),
    ensures
        key_lt(a, b) || a == b || key_lt(b, a),
        !(key_lt(a, b) && key_lt(b, a)),
        !(key_lt(a, b) && a == b),
        !(key_lt(b, a) && a == b),
{
    match (a.0, b.0) {
        (Some(x), Some(y)) => {
            lemma_order(x.0, y.0);
            lemma_order(y.0, x.0);
            lemma_order(x.1, y.1);
            lemma_order(y.1, x.1);
        },
        _ => {},
    }
}

/// The order of lawful composite keys is transitive.
pub proof fn lemma_key_lt_transitive<K: Ord + Clone, I: Ord + Clone>(
    a: MultimapKey<K, I>,
    b: MultimapKey<K, I>,
    c: MultimapKey<K, I>,
)
    requires
        key_laws::<K>(),
        key_laws::<I>(),
        key_lt(a, b),
        key_lt(b, c),
    ensures
        key_lt(a, c),
{
    match (a.0, b.0, c.0) {
        (Some(x), Some(y), Some(z)) => {
            lemma_order(x.0, y.0);
            lemma_order(y.0, z.0);
            lemma_order(x.0, z.0);
            if lt(x.0, y.0) && lt(y.0, z.0) {
                lemma_lt_transitive(x.0, y.0, z.0);
            }
            if x.0 == y.0 && y.0 == z.0 {
                lemma_lt_transitive(x.1, y.1, z.1);
            }
        },
        _ => {},
    }
}

/// Where the first `q1` entries of a sorted sequence have composite keys
/// below `probe`, those from `q2` on have composite keys above it, and those
/// between have it, removing `probe` gives the first `q1` and those from `q2`
/// on, and that sequence is sorted.
pub proof fn lemma_remove_key_shape<K: Ord + Clone, V: KeyedItem>(
    s: Seq<MapEntry<K, V>>,
    probe: MultimapKey<K, V::Key>,
    q1: int,
    q2: int,
)
    requires
        laws::<K, V>(),
        sorted(s),
        0 <= q1 <= q2 <= s.len(),
        forall|j: int| 0 <= j < q1 ==> key_lt(entry_key(s[j]), probe),
        forall|j: int| q1 <= j < q2 ==> entry_key(s[j]) == probe,
        forall|j: int| q2 <= j < s.len() ==> key_lt(probe, entry_key(s[j])),
    ensures
        remove_key_spec(s, probe) == s.take(q1) + s.skip(q2),
        sorted(remove_key_spec(s, probe)),
        remove_key_spec(s, probe).len() <= s.len(),
{
    let p = key_differs::<K, V>(probe);
    assert forall|j: int| 0 <= j < q1 implies p(s[j]) by {
        lemma_key_order(entry_key(s[j]), probe);
    }
    assert forall|j: int| q2 <= j < s.len() implies p(s[j]) by {
        lemma_key_order(entry_key(s[j]), probe);
    }
    lemma_filter_middle(s, p, q1, q2);
    lemma_sorted_without(s, q1, q2);
}

/// Removing a composite key from a sorted sequence keeps it sorted and adds
/// no entry.
#[verifier::rlimit(50)]
pub proof fn lemma_remove_key_sorted<K: Ord + Clone, V: KeyedItem>(
    s: Seq<MapEntry<K, V>>,
    probe: MultimapKey<K, V::Key>,
)
    requires
        laws::<K, V>(),
        sorted(s),
    ensures
        sorted(remove_key_spec(s, probe)),
        remove_key_spec(s, probe).len() <= s.len(),
{
    let below = |e: MapEntry<K, V>| key_lt(entry_key(e), probe);
    assert forall|i: int, j: int| 0 <= i <= j < s.len() && below(s[j]) implies below(s[i]) by {
        if i < j {
            assert(entry_lt(s[i], s[j]));
            lemma_key_lt_transitive(entry_key(s[i]), entry_key(s[j]), probe);
        }
    }
    lemma_cut_exists(s, below);
    let q1 = s.filter(below).len() as int;
    let q2 = if q1 < s.len() && entry_key(s[q1]) == probe {
        q1 + 1
    } else {
        q1
    };
    assert forall|j: int| 0 <= j < q1 implies key_lt(entry_key(s[j]), probe) by {
        assert(below(s[j]));
    }
    assert forall|j: int| q2 <= j < s.len() implies key_lt(probe, entry_key(s[j])) by {
        assert(!below(s[j]));
        lemma_key_order(entry_key(s[j]), probe);
        if j > q1 {
            assert(entry_lt(s[q1], s[j]));
            lemma_key_order(entry_key(s[q1]), probe);
            if key_lt(probe, entry_key(s[q1])) {
                lemma_key_lt_transitive(probe, entry_key(s[q1]), entry_key(s[j]));
            }
        }
    }
    lemma_remove_key_shape(s, probe, q1, q2);
}

/// Edits keep a sorted sequence sorted, and each adds at most one entry.
pub proof fn lemma_edit_all_sorted<K: Ord + Clone, V: KeyedItem>(
    s: Seq<MapEntry<K, V>>,
    edits: Seq<Edit<K, V>>,
)
    requires
        laws::<K, V>(),
        sorted(s),
    ensures
        sorted(edit_all(s, edits)),
        edit_all(s, edits).len() <= s.len() + edits.len(),
    decreases edits.len(),
{
    if edits.len() > 0 {
        lemma_edit_all_sorted(s, edits.drop_last());
        let before = edit_all(s, edits.drop_last());
        match edits.last() {
            Edit::Insert(entry) => {
                lemma_insert_sorted(before, entry);
            },
            Edit::Remove(probe) => {
                lemma_remove_key_sorted(before, probe);
            },
        }
    }
}

/// Edits that only insert do what inserting each entry in turn does.
pub proof fn lemma_edit_inserts<K: Ord + Clone, V: KeyedItem>(
    s: Seq<MapEntry<K, V>>,
    more: Seq<MapEntry<K, V>>,
)
    ensures
        edit_all(s, inserts_of(more)) == insert_all(s, more),
    decreases more.len(),
{
    if more.len() > 0 {
        lemma_edit_inserts(s, more.drop_last());
        assert(inserts_of(more).drop_last() =~= inserts_of(more.drop_last()));
    }
}

/// The map by outer keys gives the outer key of an entry that no later entry
/// shares the value of that entry.
pub proof fn lemma_by_outer_key_at<K, V>(s: Seq<MapEntry<K, V>>, k: K, j: int)
    requires
        0 <= j < s.len(),
        s[j].key == k,
        forall|i: int| j < i < s.len() ==> #[trigger] s[i].key != k,
    ensures
        by_outer_key(s).contains_key(k),
        by_outer_key(s)[k] == s[j].value,
    decreases s.len(),
{
    if j < s.len() - 1 {
        let front = s.drop_last();
        assert(s[s.len() - 1].key != k);
        assert forall|i: int| j < i < front.len() implies #[trigger] front[i].key != k by {
            assert(s[i].key != k);
        }
        lemma_by_outer_key_at(front, k, j);
    }
}

/// The map by outer keys holds an outer key only where an entry has it: the
/// lemma gives the last such entry.
pub proof fn lemma_by_outer_key_holds<K, V>(s: Seq<MapEntry<K, V>>, k: K) -> (j: int)
    requires
        by_outer_key(s).contains_key(k),
    ensures
        0 <= j < s.len(),
        s[j].key == k,
        forall|i: int| j < i < s.len() ==> #[trigger] s[i].key != k,
    decreases s.len(),
{
    if s.last().key == k {
        s.len() - 1
    } else {
        let front = s.drop_last();
        let j = lemma_by_outer_key_holds(front, k);
        assert forall|i: int| j < i < s.len() implies #[trigger] s[i].key != k by {
            if i < front.len() {
                assert(front[i].key != k);
            }
        }
        j
    }
}

/// In a sorted sequence the last entry with the outer key `k`, where there is
/// one, is the entry before `upper`; so the map by outer keys gives `k` the
/// value of that entry.
pub proof fn lemma_by_outer_key_sorted<K: Ord + Clone, V: KeyedItem>(s: Seq<MapEntry<K, V>>, k: K)
    requires
        laws::<K, V>(),
        sorted(s),
    ensures
        by_outer_key(s).contains_key(k) <==> exists|i: int|
            0 <= i < s.len() && (#[trigger] s[i]).key == k,
        by_outer_key(s).contains_key(k) ==> 0 < upper(s, k) <= s.len() && by_outer_key(s)[k]
            == s[upper(s, k) - 1].value,
{
    lemma_bounds(s, k);
    let lo = lower(s, k);
    let hi = upper(s, k);
    if lo < hi {
        assert(s[hi - 1].key == k);
        assert forall|m: int| hi - 1 < m < s.len() implies #[trigger] s[m].key != k by {
            lemma_order(k, s[m].key);
        }
        lemma_by_outer_key_at(s, k, hi - 1);
    } else {
        if by_outer_key(s).contains_key(k) {
            let j = lemma_by_outer_key_holds(s, k);
            lemma_order(s[j].key, k);
            lemma_order(k, s[j].key);
            assert(false);
        }
        assert forall|i: int| 0 <= i < s.len() implies (#[trigger] s[i]).key != k by {
            lemma_order(s[i].key, k);
            lemma_order(k, s[i].key);
        }
    }
}

} // verus!
