//! The order of keys: what the multimap asks of a key type, and the facts
//! about that order that its proofs use.

use vstd::prelude::*;
use std::cmp::Ordering;
use vstd::std_specs::cmp::OrdSpec;
use crate::algebra::obeys_clone;

verus! {

/// What the multimap asks of a key type: `cmp` computes `cmp_spec`, `clone`
/// returns an equal key, two keys compare `Equal` exactly when they are equal,
/// and `cmp_spec` is a strict total order.
#[verifier::opaque]
pub open spec fn key_laws<K: Ord + Clone>() -> bool {
    &&& K::obeys_cmp_spec()
    &&& obeys_clone::<K>()
    &&& forall|a: K, b: K| #![trigger a.cmp_spec(&b)] (a.cmp_spec(&b) == Ordering::Equal) <==> a == b
    &&& forall|a: K, b: K|
        #![trigger a.cmp_spec(&b)]
        (a.cmp_spec(&b) == Ordering::Less) <==> (b.cmp_spec(&a) == Ordering::Greater)
    &&& forall|a: K, b: K, c: K|
        #![trigger a.cmp_spec(&b), b.cmp_spec(&c)]
        a.cmp_spec(&b) == Ordering::Less && b.cmp_spec(&c) == Ordering::Less ==> a.cmp_spec(&c)
            == Ordering::Less
}

/// `a` lies strictly below `b`.
pub open spec fn lt<K: Ord>(a: K, b: K) -> bool {
    a.cmp_spec(&b) == Ordering::Less
}

/// `a` lies below `b` or is `b`.
pub open spec fn le<K: Ord>(a: K, b: K) -> bool {
    a.cmp_spec(&b) != Ordering::Greater
}

/// The order of lawful keys is a strict total order that agrees with
/// equality.
pub proof fn lemma_order<K: Ord + Clone>(a: K, b: K)
    requires
        key_laws::<K>(),
    ensures
        lt(a, b) || a == b || lt(b, a),
        !(lt(a, b) && lt(b, a)),
        !(lt(a, b) && a == b),
        le(a, b) <==> (lt(a, b) || a == b),
        le(a, b) <==> !lt(b, a),
{
    reveal(key_laws);
    assert((a.cmp_spec(&b) == Ordering::Less) <==> (b.cmp_spec(&a) == Ordering::Greater));
    assert((b.cmp_spec(&a) == Ordering::Less) <==> (a.cmp_spec(&b) == Ordering::Greater));
    assert((a.cmp_spec(&b) == Ordering::Equal) <==> a == b);
    assert((b.cmp_spec(&a) == Ordering::Equal) <==> b == a);
}

/// The order of lawful keys is transitive.
pub proof fn lemma_lt_transitive<K: Ord + Clone>(a: K, b: K, c: K)
    requires
        key_laws::<K>(),
        lt(a, b),
        lt(b, c),
    ensures
        lt(a, c),
{
    reveal(key_laws);
}

/// Below or equal, then strictly below, is strictly below; and the other way
/// round.
pub proof fn lemma_le_lt<K: Ord + Clone>(a: K, b: K, c: K)
    requires
        key_laws::<K>(),
    ensures
        le(a, b) && lt(b, c) ==> lt(a, c),
        lt(a, b) && le(b, c) ==> lt(a, c),
        le(a, b) && le(b, c) ==> le(a, c),
{
    lemma_order(a, b);
    lemma_order(b, c);
    lemma_order(a, c);
    if lt(a, b) && lt(b, c) {
        lemma_lt_transitive(a, b, c);
    }
}

/// Whether `a` lies strictly below `b`.
pub fn is_lt<K: Ord + Clone>(a: &K, b: &K) -> (r: bool)
    requires
        key_laws::<K>(),
    ensures
        r == lt(*a, *b),
{
    proof {
        reveal(key_laws);
    }
    match a.cmp(b) {
        Ordering::Less => true,
        _ => false,
    }
}

/// Whether `a` and `b` are the same key.
pub fn is_same<K: Ord + Clone>(a: &K, b: &K) -> (r: bool)
    requires
        key_laws::<K>(),
    ensures
        r == (*a == *b),
{
    proof {
        reveal(key_laws);
    }
    match a.cmp(b) {
        Ordering::Equal => true,
        _ => false,
    }
}

/// The integer types are lawful keys, and their order obeys the laws that
/// the ordered maps of the standard library ask for.
pub proof fn lemma_integer_keys()
    ensures
        key_laws::<u8>(),
        key_laws::<u16>(),
        key_laws::<u32>(),
        key_laws::<u64>(),
        key_laws::<usize>(),
        key_laws::<i8>(),
        key_laws::<i16>(),
        key_laws::<i32>(),
        key_laws::<i64>(),
        key_laws::<isize>(),
        vstd::laws_cmp::obeys_cmp::<u8>(),
        vstd::laws_cmp::obeys_cmp::<u16>(),
        vstd::laws_cmp::obeys_cmp::<u32>(),
        vstd::laws_cmp::obeys_cmp::<u64>(),
        vstd::laws_cmp::obeys_cmp::<usize>(),
        vstd::laws_cmp::obeys_cmp::<i8>(),
        vstd::laws_cmp::obeys_cmp::<i16>(),
        vstd::laws_cmp::obeys_cmp::<i32>(),
        vstd::laws_cmp::obeys_cmp::<i64>(),
        vstd::laws_cmp::obeys_cmp::<isize>(),
{
    broadcast use vstd::laws_cmp::group_laws_cmp;

    reveal(key_laws);
}

} // verus!
