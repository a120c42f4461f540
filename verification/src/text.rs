//! Ordering of identifiers.
//!
//! Identifiers are strings. They are ordered as Rust orders strings:
//! lexicographically by the bytes of their UTF-8 encoding.

use vstd::prelude::*;
use vstd::string::*;
use vstd::utf8::*;

verus! {

/// Lexicographic "strictly less" on the parts of `a` and `b` that start at index `i`.
pub open spec fn bytes_less_from(a: Seq<u8>, b: Seq<u8>, i: int) -> bool
    decreases a.len() - i,
{
    if i < 0 || i >= b.len() {
        false
    } else if i >= a.len() {
        true
    } else if a[i] != b[i] {
        a[i] < b[i]
    } else {
        bytes_less_from(a, b, i + 1)
    }
}

/// Lexicographic "strictly less" on byte sequences: a proper prefix comes first,
/// otherwise the first differing byte decides.
pub open spec fn bytes_less(a: Seq<u8>, b: Seq<u8>) -> bool {
    bytes_less_from(a, b, 0)
}

/// The order on identifiers: lexicographic on the UTF-8 encoding.
pub open spec fn id_less(a: Seq<char>, b: Seq<char>) -> bool {
    bytes_less(encode_utf8(a), encode_utf8(b))
}

/// `a` is not after `b` in the order on identifiers.
pub open spec fn id_less_eq(a: Seq<char>, b: Seq<char>) -> bool {
    !id_less(b, a)
}

proof fn lemma_bytes_less_from_irreflexive(a: Seq<u8>, i: int)
    ensures
        !bytes_less_from(a, a, i),
    decreases a.len() - i,
{
    if 0 <= i < a.len() {
        lemma_bytes_less_from_irreflexive(a, i + 1);
    }
}

proof fn lemma_bytes_less_from_transitive(a: Seq<u8>, b: Seq<u8>, c: Seq<u8>, i: int)
    requires
        bytes_less_from(a, b, i),
        bytes_less_from(b, c, i),
    ensures
        bytes_less_from(a, c, i),
    decreases b.len() - i,
{
    if i < a.len() && a[i] == b[i] && b[i] == c[i] {
        lemma_bytes_less_from_transitive(a, b, c, i + 1);
    }
}

proof fn lemma_bytes_less_from_asymmetric(a: Seq<u8>, b: Seq<u8>, i: int)
    requires
        bytes_less_from(a, b, i),
    ensures
        !bytes_less_from(b, a, i),
    decreases a.len() - i,
{
    if i < a.len() && a[i] == b[i] {
        lemma_bytes_less_from_asymmetric(a, b, i + 1);
    }
}

proof fn lemma_bytes_less_from_total(a: Seq<u8>, b: Seq<u8>, i: int)
    requires
        0 <= i <= a.len(),
        i <= b.len(),
        !bytes_less_from(a, b, i),
        !bytes_less_from(b, a, i),
    ensures
        a.len() == b.len(),
        forall|j: int| i <= j < a.len() ==> a[j] == b[j],
    decreases a.len() - i,
{
    if i < a.len() && i < b.len() {
        lemma_bytes_less_from_total(a, b, i + 1);
    }
}

/// No byte sequence is less than itself.
pub proof fn lemma_bytes_less_irreflexive(a: Seq<u8>)
    ensures
        !bytes_less(a, a),
{
    lemma_bytes_less_from_irreflexive(a, 0);
}

/// The order on byte sequences is transitive.
pub proof fn lemma_bytes_less_transitive(a: Seq<u8>, b: Seq<u8>, c: Seq<u8>)
    requires
        bytes_less(a, b),
        bytes_less(b, c),
    ensures
        bytes_less(a, c),
{
    lemma_bytes_less_from_transitive(a, b, c, 0);
}

/// Of two byte sequences at most one is less than the other.
pub proof fn lemma_bytes_less_asymmetric(a: Seq<u8>, b: Seq<u8>)
    requires
        bytes_less(a, b),
    ensures
        !bytes_less(b, a),
{
    lemma_bytes_less_from_asymmetric(a, b, 0);
}

/// Two byte sequences of which neither is less than the other are equal.
pub proof fn lemma_bytes_less_total(a: Seq<u8>, b: Seq<u8>)
    requires
        !bytes_less(a, b),
        !bytes_less(b, a),
    ensures
        a == b,
{
    lemma_bytes_less_from_total(a, b, 0);
    assert(a =~= b);
}

/// The order on identifiers is a strict total order: no identifier is less than
/// itself.
pub proof fn lemma_id_less_irreflexive(a: Seq<char>)
    ensures
        !id_less(a, a),
{
    lemma_bytes_less_irreflexive(encode_utf8(a));
}

/// The order on identifiers is transitive.
pub proof fn lemma_id_less_transitive(a: Seq<char>, b: Seq<char>, c: Seq<char>)
    requires
        id_less(a, b),
        id_less(b, c),
    ensures
        id_less(a, c),
{
    lemma_bytes_less_transitive(encode_utf8(a), encode_utf8(b), encode_utf8(c));
}

/// Of two identifiers at most one is less than the other.
pub proof fn lemma_id_less_asymmetric(a: Seq<char>, b: Seq<char>)
    requires
        id_less(a, b),
    ensures
        !id_less(b, a),
{
    lemma_bytes_less_asymmetric(encode_utf8(a), encode_utf8(b));
}

/// Two identifiers of which neither is less than the other are the same
/// identifier.
pub proof fn lemma_id_less_total(a: Seq<char>, b: Seq<char>)
    requires
        !id_less(a, b),
        !id_less(b, a),
    ensures
        a == b,
{
    lemma_bytes_less_total(encode_utf8(a), encode_utf8(b));
    encode_utf8_decode_utf8(a);
    encode_utf8_decode_utf8(b);
}

/// Whether `a` comes strictly before `b` in the order on identifiers.
pub fn str_less(a: &str, b: &str) -> (less: bool)
    ensures
        less == id_less(a@, b@),
{
    let x = a.as_bytes();
    let y = b.as_bytes();
    let mut i: usize = 0;
    while i < x.len() && i < y.len()
        invariant
            x@ == encode_utf8(a@),
            y@ == encode_utf8(b@),
            i <= x.len(),
            i <= y.len(),
            bytes_less(x@, y@) == bytes_less_from(x@, y@, i as int),
        decreases x.len() - i,
    {
        if x[i] != y[i] {
            return x[i] < y[i];
        }
        i += 1;
    }
    i < y.len()
}

/// Whether `a` and `b` are the same identifier.
pub fn str_same(a: &str, b: &str) -> (same: bool)
    ensures
        same == (a@ == b@),
{
    let x = a.as_bytes();
    let y = b.as_bytes();
    proof {
        encode_utf8_decode_utf8(a@);
        encode_utf8_decode_utf8(b@);
    }
    if x.len() != y.len() {
        return false;
    }
    let mut i: usize = 0;
    while i < x.len()
        invariant
            x@ == encode_utf8(a@),
            y@ == encode_utf8(b@),
            x.len() == y.len(),
            i <= x.len(),
            forall|j: int| 0 <= j < i ==> x@[j] == y@[j],
        decreases x.len() - i,
    {
        if x[i] != y[i] {
            return false;
        }
        i += 1;
    }
    assert(x@ =~= y@);
    true
}

} // verus!
