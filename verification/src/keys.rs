//! Storage keys and their order.  The merge of local and remote storage
//! compares keys by their unsigned big-endian integer value, not by plain
//! lexicographic byte order: this matches the native chain's key ordering.
//! Ties on the integer value (keys that differ only in leading zero bytes)
//! are broken lexicographically, which gives a strict total order.

use vstd::prelude::*;

verus! {

/// The unsigned integer a key denotes when read as big-endian bytes.
pub open spec fn key_int(s: Seq<u8>) -> nat
    decreases s.len(),
{
    if s.len() == 0 {
        0
    } else {
        key_int(s.drop_last()) * 256 + s.last() as nat
    }
}

/// Strict lexicographic byte order.
pub open spec fn lex_lt(a: Seq<u8>, b: Seq<u8>) -> bool
    decreases a.len(),
{
    if b.len() == 0 {
        false
    } else if a.len() == 0 {
        true
    } else if a[0] != b[0] {
        a[0] < b[0]
    } else {
        lex_lt(a.drop_first(), b.drop_first())
    }
}

/// The order the storage sorts by: numeric value first, byte order as a
/// tie-break among keys with the same numeric value.
pub open spec fn key_lt(a: Seq<u8>, b: Seq<u8>) -> bool {
    key_int(a) < key_int(b) || (key_int(a) == key_int(b) && lex_lt(a, b))
}

/// Relies on `num_bigint::BigInt::from_bytes_be`, which reads bytes as an
/// unsigned big-endian integer (with `Sign::Plus`), and on `BigInt`'s
/// numeric `Ord`.
#[verifier::external_body]
pub fn key_int_lt(a: &[u8], b: &[u8]) -> (r: bool)
    ensures
        r == (key_int(a@) < key_int(b@)),
{
    let ka = num_bigint::BigInt::from_bytes_be(num_bigint::Sign::Plus, a);
    let kb = num_bigint::BigInt::from_bytes_be(num_bigint::Sign::Plus, b);
    ka < kb
}

/// Byte-for-byte equality of two keys.
pub fn key_eq(a: &[u8], b: &[u8]) -> (r: bool)
    ensures
        r == (a@ == b@),
{
    if a.len() != b.len() {
        assert(a@ != b@) by {
            assert(a@.len() != b@.len());
        }
        return false;
    }
    let mut i: usize = 0;
    while i < a.len()
        invariant
            i <= a.len(),
            a.len() == b.len(),
            forall|j: int| 0 <= j < i ==> a@[j] == b@[j],
        decreases a.len() - i,
    {
        if a[i] != b[i] {
            return false;
        }
        i += 1;
    }
    assert(a@ =~= b@);
    true
}

/// Strict lexicographic comparison, matching `lex_lt`.
pub fn lex_less(a: &[u8], b: &[u8]) -> (r: bool)
    ensures
        r == lex_lt(a@, b@),
{
    let mut i: usize = 0;
    proof {
        assert(a@.skip(0) =~= a@);
        assert(b@.skip(0) =~= b@);
    }
    while i < a.len() && i < b.len()
        invariant
            i <= a.len(),
            i <= b.len(),
            forall|j: int| 0 <= j < i ==> a@[j] == b@[j],
            lex_lt(a@, b@) == lex_lt(a@.skip(i as int), b@.skip(i as int)),
        decreases a.len() - i,
    {
        let ga = a[i];
        let gb = b[i];
        if ga != gb {
            assert(lex_lt(a@.skip(i as int), b@.skip(i as int)) == (ga < gb));
            return ga < gb;
        }
        proof {
            let sa = a@.skip(i as int);
            let sb = b@.skip(i as int);
            assert(sa.drop_first() =~= a@.skip(i + 1));
            assert(sb.drop_first() =~= b@.skip(i + 1));
            assert(lex_lt(sa, sb) == lex_lt(a@.skip(i + 1), b@.skip(i + 1)));
        }
        i += 1;
    }
    proof {
        let sa = a@.skip(i as int);
        let sb = b@.skip(i as int);
        assert(sa.len() == 0 || sb.len() == 0);
        assert(lex_lt(sa, sb) == (sa.len() == 0 && sb.len() > 0));
    }
    i >= a.len() && i < b.len()
}

/// Strict comparison in the storage order `key_lt`.
pub fn key_less(a: &[u8], b: &[u8]) -> (r: bool)
    ensures
        r == key_lt(a@, b@),
{
    if key_int_lt(a, b) {
        true
    } else if key_int_lt(b, a) {
        false
    } else {
        lex_less(a, b)
    }
}

/// `lex_lt` never holds both ways at once.
pub proof fn lemma_lex_asym(a: Seq<u8>, b: Seq<u8>)
    ensures
        !(lex_lt(a, b) && lex_lt(b, a)),
    decreases a.len(),
{
    if a.len() > 0 && b.len() > 0 && a[0] == b[0] {
        lemma_lex_asym(a.drop_first(), b.drop_first());
    }
}

/// Distinct byte strings are ordered one way or the other by `lex_lt`.
pub proof fn lemma_lex_total(a: Seq<u8>, b: Seq<u8>)
    requires
        a != b,
    ensures
        lex_lt(a, b) || lex_lt(b, a),
    decreases a.len(),
{
    if a.len() == 0 || b.len() == 0 {
        if a.len() == 0 && b.len() == 0 {
            assert(a =~= b);
        }
    } else if a[0] == b[0] {
        if a.drop_first() == b.drop_first() {
            assert(a =~= b) by {
                assert(a.drop_first().len() == b.drop_first().len());
                assert(a.len() == b.len());
                assert forall|j: int| 1 <= j < a.len() implies a[j] == b[j] by {
                    assert(a[j] == a.drop_first()[j - 1]);
                    assert(b[j] == b.drop_first()[j - 1]);
                }
            }
        }
        lemma_lex_total(a.drop_first(), b.drop_first());
    }
}

/// `lex_lt` is transitive.
pub proof fn lemma_lex_trans(a: Seq<u8>, b: Seq<u8>, c: Seq<u8>)
    requires
        lex_lt(a, b),
        lex_lt(b, c),
    ensures
        lex_lt(a, c),
    decreases a.len(),
{
    if a.len() > 0 && b.len() > 0 && c.len() > 0 {
        if a[0] == b[0] && b[0] == c[0] {
            lemma_lex_trans(a.drop_first(), b.drop_first(), c.drop_first());
        }
    }
}

/// `key_lt` is a strict total order: distinct keys compare one way exactly.
pub proof fn lemma_key_lt_total(a: Seq<u8>, b: Seq<u8>)
    requires
        a != b,
    ensures
        key_lt(a, b) || key_lt(b, a),
        !(key_lt(a, b) && key_lt(b, a)),
{
    lemma_lex_total(a, b);
    lemma_lex_asym(a, b);
}

/// `key_lt` never relates a key to itself.
pub proof fn lemma_key_lt_irrefl(a: Seq<u8>)
    ensures
        !key_lt(a, a),
{
    lemma_lex_asym(a, a);
}

/// `key_lt` is transitive.
pub proof fn lemma_key_lt_trans(a: Seq<u8>, b: Seq<u8>, c: Seq<u8>)
    requires
        key_lt(a, b),
        key_lt(b, c),
    ensures
        key_lt(a, c),
{
    if key_int(a) == key_int(b) && key_int(b) == key_int(c) {
        lemma_lex_trans(a, b, c);
    }
}

} // verus!
