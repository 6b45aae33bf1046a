//! The summary algebra: items, summaries, dimensions and seek targets, with the
//! laws that the tree operations rely on.

use vstd::prelude::*;
use std::fmt::Debug;
use std::cmp::Ordering;

verus! {

/// Which side of a run of equal comparisons a seek stops on: `Left` stops at
/// the first position that compares `Equal`, `Right` stops after the last.
#[derive(Clone, Copy, Debug, PartialEq, Eq, Structural)]
pub enum Bias {
    Left,
    Right,
}

/// An associative accumulator carried by every node of a tree.
///
/// An implementation that sets `obeys_summary_spec` promises that
/// `add_summary` computes `add_spec`.
pub trait Summary: Sized + Clone + Debug {
    /// Whether `add_summary` is known to compute `add_spec`.
    open spec fn obeys_summary_spec() -> bool {
        false
    }

    /// The accumulation of `self` followed by `other`.
    open spec fn add_spec(self, other: Self) -> Self {
        arbitrary()
    }

    /// The identity of accumulation: the summary of nothing.
    open spec fn zero_spec() -> Self {
        arbitrary()
    }

    /// The identity of accumulation, which an empty tree carries: accumulating
    /// it before or after a summary leaves that summary as it is.
    fn zero() -> (z: Self)
        ensures
            Self::obeys_summary_spec() ==> z == Self::zero_spec(),
            Self::obeys_summary_spec() ==> forall|s: Self|
                #![trigger z.add_spec(s)]
                #![trigger s.add_spec(z)]
                z.add_spec(s) == s && s.add_spec(z) == s,
    ;

    /// Accumulates `other` after `self`.
    fn add_summary(&mut self, other: &Self)
        ensures
            Self::obeys_summary_spec() ==> *final(self) == old(self).add_spec(*other),
    ;
}

/// A value stored in a tree, with the summary it contributes.
pub trait Item: Sized {
    type Summary: Summary;

    /// Whether `summary` is known to compute `summary_spec`.
    open spec fn obeys_item_spec() -> bool {
        false
    }

    /// The summary of this item alone.
    open spec fn summary_spec(&self) -> Self::Summary {
        arbitrary()
    }

    fn summary(&self) -> (s: Self::Summary)
        ensures
            Self::obeys_item_spec() ==> s == self.summary_spec(),
    ;
}

/// A running coordinate of a cursor, driven forward by the summaries of the
/// items it passes.
pub trait Dimension<'a, S: Summary>: Sized + Clone {
    /// Whether `zero` and `add_summary` are known to compute their spec
    /// counterparts.
    open spec fn obeys_dimension_spec() -> bool {
        false
    }

    /// The coordinate before the first item.
    open spec fn zero_spec() -> Self {
        arbitrary()
    }

    /// The coordinate after moving past items that accumulate to `summary`.
    open spec fn advance_spec(self, summary: S) -> Self {
        arbitrary()
    }

    fn zero() -> (d: Self)
        ensures
            Self::obeys_dimension_spec() ==> d == Self::zero_spec(),
    ;

    fn add_summary(&mut self, summary: &'a S)
        ensures
            Self::obeys_dimension_spec() ==> *final(self) == old(self).advance_spec(*summary),
    ;
}

/// A comparator of a sought place against a cursor coordinate: `Greater` while
/// the place lies beyond the coordinate, `Less` once the coordinate has passed
/// it.
pub trait SeekTarget<'a, S: Summary, D: Dimension<'a, S>> {
    /// Whether `cmp` is known to compute `order_spec`.
    open spec fn obeys_target_spec() -> bool {
        false
    }

    /// Where the sought place lies relative to a coordinate.
    open spec fn order_spec(&self, cursor_location: &D) -> Ordering {
        arbitrary()
    }

    fn cmp(&self, cursor_location: &D) -> (o: Ordering)
        ensures
            Self::obeys_target_spec() ==> o == self.order_spec(cursor_location),
    ;
}

/// `T::clone` returns a value equal to the one it was given.
pub open spec fn obeys_clone<T: Clone>() -> bool {
    forall|a: T, b: T| #[trigger] call_ensures(T::clone, (&a,), b) ==> a == b
}

/// The laws of a summary: its executable operations follow their specs, and
/// accumulation is associative.
pub open spec fn summary_laws<S: Summary>() -> bool {
    &&& S::obeys_summary_spec()
    &&& obeys_clone::<S>()
    &&& forall|a: S, b: S, c: S| #[trigger]
        a.add_spec(b).add_spec(c) == a.add_spec(b.add_spec(c))
    &&& forall|s: S| #[trigger] S::zero_spec().add_spec(s) == s
    &&& forall|s: S| #[trigger] s.add_spec(S::zero_spec()) == s
}

/// The laws of an item type: `summary` follows its spec and the summary type
/// is lawful.
pub open spec fn item_laws<T: Item>() -> bool {
    &&& T::obeys_item_spec()
    &&& summary_laws::<T::Summary>()
}

/// The laws of a dimension: its executable operations follow their specs, and
/// advancing by two summaries in turn is advancing by their accumulation.
pub open spec fn dimension_laws<'a, S: Summary, D: Dimension<'a, S>>() -> bool {
    &&& D::obeys_dimension_spec()
    &&& obeys_clone::<D>()
    &&& forall|d: D, a: S, b: S| #[trigger]
        d.advance_spec(a).advance_spec(b) == d.advance_spec(a.add_spec(b))
}

/// The summaries of `items`, one for one.
pub open spec fn summaries<T: Item>(items: Seq<T>) -> Seq<T::Summary> {
    Seq::new(items.len(), |i: int| items[i].summary_spec())
}

/// The left fold of a sequence of summaries, from the identity.
pub open spec fn total<S: Summary>(s: Seq<S>) -> S
    decreases s.len(),
{
    if s.len() == 0 {
        S::zero_spec()
    } else {
        total(s.drop_last()).add_spec(s.last())
    }
}

/// The left fold of a non-empty sequence of summaries, from its first.
pub open spec fn sum<S: Summary>(s: Seq<S>) -> S
    decreases s.len(),
{
    if s.len() <= 1 {
        s[0]
    } else {
        sum(s.drop_last()).add_spec(s.last())
    }
}

/// The coordinate reached from `d` by passing the summaries of `s` one by one.
pub open spec fn advance_all<'a, S: Summary, D: Dimension<'a, S>>(d: D, s: Seq<S>) -> D
    decreases s.len(),
{
    if s.len() == 0 {
        d
    } else {
        advance_all(d, s.drop_last()).advance_spec(s.last())
    }
}

/// The coordinate at position `i` of a sequence with summaries `s`: the fold of
/// every summary strictly before `i`.
pub open spec fn dim_at<'a, S: Summary, D: Dimension<'a, S>>(s: Seq<S>, i: int) -> D {
    advance_all(D::zero_spec(), s.subrange(0, i))
}

/// Whether a seek for `target` moves past a position whose end coordinate is
/// `end`.
pub open spec fn skips<'a, S: Summary, D: Dimension<'a, S>, Tg: SeekTarget<'a, S, D>>(
    target: &Tg,
    end: D,
    bias: Bias,
) -> bool {
    match target.order_spec(&end) {
        Ordering::Greater => true,
        Ordering::Equal => bias == Bias::Right,
        Ordering::Less => false,
    }
}

/// Whether a seek for `target` moves past item `i` of a sequence with
/// summaries `s`.
pub open spec fn skips_item<'a, S: Summary, D: Dimension<'a, S>, Tg: SeekTarget<'a, S, D>>(
    target: &Tg,
    s: Seq<S>,
    i: int,
    bias: Bias,
) -> bool {
    skips::<S, D, Tg>(target, dim_at::<S, D>(s, i + 1), bias)
}

/// `target` is monotone over a sequence with summaries `s`: a seek that moves
/// past an item moves past every item before it, under either bias. So the
/// target compares `Greater` first, then `Equal`, then `Less`, and never goes
/// back.
pub open spec fn monotone<'a, S: Summary, D: Dimension<'a, S>, Tg: SeekTarget<'a, S, D>>(
    target: &Tg,
    s: Seq<S>,
) -> bool {
    forall|i: int, j: int, bias: Bias|
        #![trigger skips_item::<S, D, Tg>(target, s, j, bias), skips_item::<S, D, Tg>(target, s, i, bias)]
        0 <= i <= j < s.len() && skips_item::<S, D, Tg>(target, s, j, bias) ==> skips_item::<
            S,
            D,
            Tg,
        >(target, s, i, bias)
}

/// `q` is where a seek for `target` that starts at position `from` comes to
/// rest: the first position at or after `from` that the seek does not move
/// past, or the end.
pub open spec fn seek_rest<'a, S: Summary, D: Dimension<'a, S>, Tg: SeekTarget<'a, S, D>>(
    target: &Tg,
    bias: Bias,
    s: Seq<S>,
    from: int,
    q: int,
) -> bool {
    &&& from <= q <= s.len()
    &&& forall|j: int| from <= j < q ==> skips_item::<S, D, Tg>(target, s, j, bias)
    &&& q < s.len() ==> !skips_item::<S, D, Tg>(target, s, q, bias)
}

/// Whether a seek for `target` moves past a position whose end coordinate is
/// `end`.
pub fn passes<'a, S: Summary, D: Dimension<'a, S>, Tg: SeekTarget<'a, S, D>>(
    target: &Tg,
    end: &D,
    bias: Bias,
) -> (b: bool)
    requires
        Tg::obeys_target_spec(),
    ensures
        b == skips::<S, D, Tg>(target, *end, bias),
{
    match target.cmp(end) {
        Ordering::Greater => true,
        Ordering::Equal => match bias {
            Bias::Left => false,
            Bias::Right => true,
        },
        Ordering::Less => false,
    }
}

/// Folding a non-empty sequence from the identity is folding it from its
/// first summary.
pub proof fn lemma_total_is_sum<S: Summary>(s: Seq<S>)
    requires
        summary_laws::<S>(),
        s.len() > 0,
    ensures
        total(s) == sum(s),
    decreases s.len(),
{
    if s.len() == 1 {
        assert(total(s.drop_last()) == S::zero_spec());
        assert(S::zero_spec().add_spec(s.last()) == s.last());
    } else {
        lemma_total_is_sum(s.drop_last());
    }
}

/// Folding a concatenation is accumulating the folds of its two parts.
pub proof fn lemma_sum_concat<S: Summary>(a: Seq<S>, b: Seq<S>)
    requires
        summary_laws::<S>(),
        a.len() > 0,
        b.len() > 0,
    ensures
        sum(a + b) == sum(a).add_spec(sum(b)),
    decreases b.len(),
{
    if b.len() == 1 {
        assert((a + b).drop_last() =~= a);
    } else {
        assert((a + b).drop_last() =~= a + b.drop_last());
        lemma_sum_concat(a, b.drop_last());
    }
}

/// Passing a concatenation is passing its two parts in turn.
pub proof fn lemma_advance_concat<'a, S: Summary, D: Dimension<'a, S>>(d: D, a: Seq<S>, b: Seq<S>)
    ensures
        advance_all(d, a + b) == advance_all(advance_all(d, a), b),
    decreases b.len(),
{
    if b.len() == 0 {
        assert(a + b =~= a);
    } else {
        assert((a + b).drop_last() =~= a + b.drop_last());
        lemma_advance_concat(d, a, b.drop_last());
    }
}

/// Passing a non-empty run of summaries one by one is advancing once by their
/// fold.
pub proof fn lemma_advance_sum<'a, S: Summary, D: Dimension<'a, S>>(d: D, s: Seq<S>)
    requires
        dimension_laws::<S, D>(),
        s.len() > 0,
    ensures
        advance_all(d, s) == d.advance_spec(sum(s)),
    decreases s.len(),
{
    if s.len() == 1 {
        assert(advance_all(d, s.drop_last()) == d);
    } else {
        lemma_advance_sum(d, s.drop_last());
        assert(d.advance_spec(sum(s.drop_last())).advance_spec(s.last()) == d.advance_spec(
            sum(s.drop_last()).add_spec(s.last()),
        ));
    }
}

/// Where `part` lies in `s` from position `base` on, the coordinate past it is
/// the coordinate at `base` after passing `part`.
pub proof fn lemma_dim_at_shift<'a, S: Summary, D: Dimension<'a, S>>(
    s: Seq<S>,
    base: int,
    part: Seq<S>,
)
    requires
        0 <= base,
        base + part.len() <= s.len(),
        s.subrange(base, base + part.len()) == part,
    ensures
        dim_at::<S, D>(s, base + part.len()) == advance_all(dim_at::<S, D>(s, base), part),
{
    assert(s.subrange(0, base + part.len()) =~= s.subrange(0, base) + part);
    lemma_advance_concat(D::zero_spec(), s.subrange(0, base), part);
}

/// Under a monotone target, a seek that moves past an item moves past every
/// item before it.
pub proof fn lemma_skips_downward<'a, S: Summary, D: Dimension<'a, S>, Tg: SeekTarget<'a, S, D>>(
    target: &Tg,
    s: Seq<S>,
    bias: Bias,
    i: int,
    j: int,
)
    requires
        monotone::<S, D, Tg>(target, s),
        0 <= i <= j < s.len(),
        skips_item::<S, D, Tg>(target, s, j, bias),
    ensures
        skips_item::<S, D, Tg>(target, s, i, bias),
{
}

/// The summaries of a concatenation are the summaries of its parts.
pub proof fn lemma_summaries_concat<T: Item>(a: Seq<T>, b: Seq<T>)
    ensures
        summaries(a + b) =~= summaries(a) + summaries(b),
{
}

} // verus!
