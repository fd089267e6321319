//! The lexicographic order of byte strings, which is how `str` and `String`
//! values compare.

use std::cmp::Ordering;
use vstd::prelude::*;

verus! {

/// Lexicographic order of byte sequences: the first differing byte decides,
/// and a proper prefix comes first.
pub open spec fn byte_order(a: Seq<u8>, b: Seq<u8>) -> Ordering
    decreases a.len(),
{
    if a.len() == 0 {
        if b.len() == 0 {
            Ordering::Equal
        } else {
            Ordering::Less
        }
    } else if b.len() == 0 {
        Ordering::Greater
    } else if a[0] < b[0] {
        Ordering::Less
    } else if a[0] > b[0] {
        Ordering::Greater
    } else {
        byte_order(a.drop_first(), b.drop_first())
    }
}

/// `a` comes no later than `b` in byte order.
pub open spec fn bytes_le(a: Seq<u8>, b: Seq<u8>) -> bool {
    byte_order(a, b) != Ordering::Greater
}

/// The opposite outcome of a comparison.
pub open spec fn reversed(o: Ordering) -> Ordering {
    match o {
        Ordering::Less => Ordering::Greater,
        Ordering::Equal => Ordering::Equal,
        Ordering::Greater => Ordering::Less,
    }
}

/// Comparing the other way round gives the opposite outcome.
pub proof fn lemma_byte_order_reversed(a: Seq<u8>, b: Seq<u8>)
    ensures
        byte_order(b, a) == reversed(byte_order(a, b)),
    decreases a.len(),
{
    if a.len() > 0 && b.len() > 0 && a[0] == b[0] {
        lemma_byte_order_reversed(a.drop_first(), b.drop_first());
    }
}

/// Two byte sequences compare equal exactly when they are the same.
pub proof fn lemma_byte_order_equal(a: Seq<u8>, b: Seq<u8>)
    ensures
        (byte_order(a, b) == Ordering::Equal) <==> (a == b),
    decreases a.len(),
{
    if a.len() > 0 && b.len() > 0 && a[0] == b[0] {
        lemma_byte_order_equal(a.drop_first(), b.drop_first());
        if a.drop_first() == b.drop_first() {
            assert(a =~= seq![a[0]] + a.drop_first());
            assert(b =~= seq![b[0]] + b.drop_first());
        }
        if a == b {
            assert(a.drop_first() =~= b.drop_first());
        }
    } else if a.len() > 0 && b.len() > 0 {
        if a == b {
            assert(a[0] == b[0]);
        }
    } else if a.len() == 0 && b.len() == 0 {
        assert(a =~= b);
    }
}

/// The order is transitive: `a <= b <= c` gives `a <= c`, strictly when
/// one of the two steps is strict.
pub proof fn lemma_byte_order_transitive(a: Seq<u8>, b: Seq<u8>, c: Seq<u8>)
    requires
        byte_order(a, b) != Ordering::Greater,
        byte_order(b, c) != Ordering::Greater,
    ensures
        byte_order(a, c) != Ordering::Greater,
        (byte_order(a, b) == Ordering::Less || byte_order(b, c) == Ordering::Less) ==> byte_order(
            a,
            c,
        ) == Ordering::Less,
    decreases a.len(),
{
    if a.len() > 0 && b.len() > 0 && c.len() > 0 && a[0] == b[0] && b[0] == c[0] {
        lemma_byte_order_transitive(a.drop_first(), b.drop_first(), c.drop_first());
    }
}

/// Comparing two concatenations whose first parts have equal length: the
/// first parts decide unless they are equal, and then the second parts do.
pub proof fn lemma_byte_order_concat(a1: Seq<u8>, a2: Seq<u8>, b1: Seq<u8>, b2: Seq<u8>)
    requires
        a1.len() == b1.len(),
    ensures
        byte_order(a1 + a2, b1 + b2) == (if byte_order(a1, b1) != Ordering::Equal {
            byte_order(a1, b1)
        } else {
            byte_order(a2, b2)
        }),
    decreases a1.len(),
{
    if a1.len() == 0 {
        assert(a1 + a2 =~= a2);
        assert(b1 + b2 =~= b2);
    } else {
        assert((a1 + a2).drop_first() =~= a1.drop_first() + a2);
        assert((b1 + b2).drop_first() =~= b1.drop_first() + b2);
        lemma_byte_order_concat(a1.drop_first(), a2, b1.drop_first(), b2);
    }
}

/// Whether an outcome is `Greater`.
pub fn is_greater(o: Ordering) -> (b: bool)
    ensures
        b == (o == Ordering::Greater),
{
    match o {
        Ordering::Greater => true,
        _ => false,
    }
}

/// Compares two byte strings lexicographically.
pub fn compare_bytes(a: &[u8], b: &[u8]) -> (o: Ordering)
    ensures
        o == byte_order(a@, b@),
{
    let mut i: usize = 0;
    let ghost mut k: int = 0;
    assert(a@.skip(0) =~= a@);
    assert(b@.skip(0) =~= b@);
    while i < a.len() && i < b.len()
        invariant
            k == i,
            i <= a.len(),
            i <= b.len(),
            byte_order(a@, b@) == byte_order(a@.skip(k), b@.skip(k)),
        decreases a.len() - i,
    {
        if a[i] < b[i] {
            return Ordering::Less;
        }
        if a[i] > b[i] {
            return Ordering::Greater;
        }
        assert(a@.skip(k).drop_first() =~= a@.skip(k + 1));
        assert(b@.skip(k).drop_first() =~= b@.skip(k + 1));
        i += 1;
        proof {
            k = k + 1;
        }
    }
    if i < a.len() {
        Ordering::Greater
    } else if i < b.len() {
        Ordering::Less
    } else {
        Ordering::Equal
    }
}

} // verus!
