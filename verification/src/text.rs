//! Decimal rendering of the integers the library puts into attributes,
//! addresses and labels.

use vstd::prelude::*;

verus! {

/// The decimal digits of `n`, most significant first.
pub open spec fn spec_decimal(n: nat) -> Seq<u8>
    decreases n,
{
    if n < 10 {
        seq![(48 + n) as u8]
    } else {
        spec_decimal(n / 10) + seq![(48 + n % 10) as u8]
    }
}

/// The decimal digits of `n`, least significant first; empty for zero.
pub open spec fn rev_digits(n: nat) -> Seq<u8>
    decreases n,
{
    if n == 0 {
        Seq::empty()
    } else {
        seq![(48 + n % 10) as u8] + rev_digits(n / 10)
    }
}

/// The reversed least-significant-first digits are the decimal rendering.
proof fn lemma_decimal_rev(n: nat)
    requires
        n > 0,
    ensures
        rev_digits(n).reverse() =~= spec_decimal(n),
    decreases n,
{
    if n < 10 {
        assert(rev_digits(n) =~= seq![(48 + n % 10) as u8]);
        assert(rev_digits(n).reverse() =~= seq![(48 + n) as u8]);
    } else {
        lemma_decimal_rev(n / 10);
        assert(rev_digits(n).reverse() =~= rev_digits(n / 10).reverse() + seq![
            (48 + n % 10) as u8,
        ]);
    }
}

/// The decimal digits of `n`, most significant first.
pub fn decimal_bytes(n: u128) -> (r: Vec<u8>)
    ensures
        r@ == spec_decimal(n as nat),
{
    if n == 0 {
        let mut out: Vec<u8> = Vec::new();
        out.push(48);
        proof {
            assert(out@ =~= spec_decimal(0));
        }
        return out;
    }
    let ghost n0 = n as nat;
    let mut digits_rev: Vec<u8> = Vec::new();
    let mut x = n;
    proof {
        assert(rev_digits(n0) =~= digits_rev@ + rev_digits(x as nat));
    }
    while x > 0
        invariant
            rev_digits(n0) =~= digits_rev@ + rev_digits(x as nat),
        decreases x,
    {
        digits_rev.push(48 + (x % 10) as u8);
        proof {
            assert(rev_digits(x as nat) =~= seq![(48 + (x as nat) % 10) as u8] + rev_digits(
                ((x as nat) / 10) as nat,
            ));
            assert(rev_digits(n0) =~= digits_rev@ + rev_digits(((x as nat) / 10) as nat));
        }
        x = x / 10;
    }
    proof {
        assert(rev_digits(0) =~= Seq::<u8>::empty());
        assert(digits_rev@ =~= rev_digits(n0));
    }
    let mut out: Vec<u8> = Vec::new();
    let mut i: usize = digits_rev.len();
    proof {
        assert(out@ =~= digits_rev@.skip(i as int).reverse());
    }
    while i > 0
        invariant
            i <= digits_rev@.len(),
            out@ =~= digits_rev@.skip(i as int).reverse(),
            digits_rev@ == rev_digits(n0),
        decreases i,
    {
        i -= 1;
        out.push(digits_rev[i]);
        proof {
            assert(out@ =~= digits_rev@.skip(i as int).reverse());
        }
    }
    proof {
        assert(digits_rev@.skip(0) =~= digits_rev@);
        lemma_decimal_rev(n0);
        assert(out@ =~= spec_decimal(n0));
    }
    out
}

} // verus!
