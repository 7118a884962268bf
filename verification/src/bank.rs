//! The bank module: per-address coin balances in canonical local storage,
//! with transfer, mint and burn.  An address missing from the local ledger is
//! resolved against the remote chain: the caller fetches that balance and
//! hands it in; local and remote are alternatives, never summed.

use vstd::prelude::*;

use crate::keys::lex_lt;
use crate::local_storage::clone_bytes;
use crate::model::clone_coins;
use crate::model::AbsCoin;
use crate::model::BankMsg;
use crate::model::Coin;
use crate::model::Event;
use crate::querier::assoc;

verus! {

/// Failure of a bank operation.
#[derive(Debug, PartialEq, Eq, Structural, Clone, Copy)]
pub enum BankError {
    /// A transfer of no coins at all.
    EmptyAmount,
    /// The sender's balance does not cover the amount.
    InsufficientFunds,
    /// A balance would exceed the largest representable amount.
    AmountOverflow,
}

/// The total amount of one denomination in a coin list, as an unbounded
/// integer.
pub open spec fn total_of(coins: Seq<AbsCoin>, denom: Seq<u8>) -> int
    decreases coins.len(),
{
    if coins.len() == 0 {
        0
    } else if coins[0].denom == denom {
        coins[0].amount + total_of(coins.drop_first(), denom)
    } else {
        total_of(coins.drop_first(), denom)
    }
}

/// A canonical coin list: denominations strictly ascending, no zero amounts.
pub open spec fn canonical(coins: Seq<AbsCoin>) -> bool {
    &&& forall|i: int, j: int|
        0 <= i < j < coins.len() ==> lex_lt(#[trigger] coins[i].denom, #[trigger] coins[j].denom)
    &&& forall|i: int| 0 <= i < coins.len() ==> (#[trigger] coins[i]).amount > 0
}


/// Totals distribute over concatenation.
proof fn lemma_total_split(s: Seq<AbsCoin>, t: Seq<AbsCoin>, d: Seq<u8>)
    ensures
        total_of(s + t, d) == total_of(s, d) + total_of(t, d),
    decreases s.len(),
{
    if s.len() == 0 {
        assert(s + t =~= t);
    } else {
        assert((s + t)[0] == s[0]);
        assert((s + t).drop_first() =~= s.drop_first() + t);
        lemma_total_split(s.drop_first(), t, d);
    }
}

/// The total of a single coin.
proof fn lemma_total_single(c: AbsCoin, d: Seq<u8>)
    ensures
        total_of(seq![c], d) == if c.denom == d {
            c.amount as int
        } else {
            0
        },
{
    assert(seq![c][0] == c);
    assert(seq![c].drop_first() =~= Seq::<AbsCoin>::empty());
    assert(total_of(Seq::<AbsCoin>::empty(), d) == 0);
}

/// Totals are never negative.
proof fn lemma_total_nonneg(s: Seq<AbsCoin>, d: Seq<u8>)
    ensures
        total_of(s, d) >= 0,
    decreases s.len(),
{
    if s.len() > 0 {
        lemma_total_nonneg(s.drop_first(), d);
    }
}

/// In a canonical list, a denomination's total fits one coin.
proof fn lemma_total_canonical_bound(s: Seq<AbsCoin>, d: Seq<u8>)
    requires
        canonical(s),
    ensures
        total_of(s, d) <= u128::MAX,
    decreases s.len(),
{
    if s.len() == 0 {
    } else if s[0].denom == d {
        assert forall|j: int| 0 <= j < s.drop_first().len() implies (
        #[trigger] s.drop_first()[j]).denom != d by {
            assert(lex_lt(s[0].denom, s[j + 1].denom));
            crate::keys::lemma_lex_asym(s[0].denom, s[j + 1].denom);
        }
        lemma_total_absent(s.drop_first(), d);
    } else {
        assert forall|a: int, b: int|
            0 <= a < b < s.drop_first().len() implies lex_lt(
            (#[trigger] s.drop_first()[a]).denom,
            (#[trigger] s.drop_first()[b]).denom,
        ) by {
            assert(lex_lt(s[a + 1].denom, s[b + 1].denom));
        }
        assert forall|a: int| 0 <= a < s.drop_first().len() implies (
        #[trigger] s.drop_first()[a]).amount > 0 by {
            assert(s[a + 1].amount > 0);
        }
        lemma_total_canonical_bound(s.drop_first(), d);
    }
}

/// The non-zero coins of `amount`, in order.
pub open spec fn spec_drop_zero(coins: Seq<AbsCoin>) -> Seq<AbsCoin>
    decreases coins.len(),
{
    if coins.len() == 0 {
        coins
    } else {
        let rest = spec_drop_zero(coins.drop_first());
        if coins[0].amount > 0 {
            seq![coins[0]] + rest
        } else {
            rest
        }
    }
}

/// Filters out all zero coins; an amount with nothing left is rejected.
pub fn normalize_amount(amount: &Vec<Coin>) -> (r: Result<Vec<Coin>, BankError>)
    ensures
        match r {
            Ok(v) => v.deep_view() == spec_drop_zero(amount.deep_view()) && v.deep_view().len()
                > 0,
            Err(e) => e == BankError::EmptyAmount && spec_drop_zero(amount.deep_view()).len()
                == 0,
        },
{
    let ghost dv = amount.deep_view();
    let mut out: Vec<Coin> = Vec::new();
    let mut i: usize = 0;
    proof {
        assert(dv.skip(0) =~= dv);
        assert(out.deep_view() + spec_drop_zero(dv) =~= spec_drop_zero(dv));
    }
    while i < amount.len()
        invariant
            i <= amount@.len(),
            dv == amount.deep_view(),
            amount@.len() == dv.len(),
            out.deep_view() + spec_drop_zero(dv.skip(i as int)) == spec_drop_zero(dv),
        decreases amount@.len() - i,
    {
        proof {
            assert(dv.skip(i as int)[0] == dv[i as int]);
            assert(dv.skip(i as int).drop_first() =~= dv.skip(i + 1));
            assert(dv[i as int] == amount@[i as int]@);
        }
        if amount[i].amount > 0 {
            let ghost odv = out.deep_view();
            let c = amount[i].dup();
            out.push(c);
            proof {
                assert(out.deep_view() =~= odv.push(dv[i as int]));
                assert(out.deep_view() + spec_drop_zero(dv.skip(i + 1)) =~= spec_drop_zero(dv));
            }
        }
        i += 1;
    }
    proof {
        assert(spec_drop_zero(dv.skip(dv.len() as int)).len() == 0);
        assert(out.deep_view() =~= spec_drop_zero(dv));
    }
    if out.len() == 0 {
        Err(BankError::EmptyAmount)
    } else {
        Ok(out)
    }
}

/// Adds one coin into a canonical list, keeping it canonical and preserving
/// totals; fails only when the denomination's total would overflow.
fn add_coin(coins: &mut Vec<Coin>, c: Coin) -> (r: Result<(), BankError>)
    requires
        canonical(old(coins).deep_view()),
        c.amount > 0,
    ensures
        match r {
            Ok(_) => canonical(final(coins).deep_view()) && forall|d: Seq<u8>|
                #[trigger] total_of(final(coins).deep_view(), d) == total_of(
                    old(coins).deep_view(),
                    d,
                ) + total_of(seq![c@], d),
            Err(e) => e == BankError::AmountOverflow && final(coins).deep_view() == old(
                coins,
            ).deep_view() && total_of(old(coins).deep_view(), c@.denom) + c.amount > u128::MAX,
        },
{
    let ghost dv = coins.deep_view();
    let mut i: usize = 0;
    while i < coins.len() && crate::keys::lex_less(coins[i].denom.as_slice(), c.denom.as_slice())
        invariant
            i <= coins@.len(),
            dv == coins.deep_view(),
            coins@.len() == dv.len(),
            canonical(dv),
            c.amount > 0,
            forall|j: int| 0 <= j < i ==> lex_lt((#[trigger] dv[j]).denom, c@.denom),
        decreases coins@.len() - i,
    {
        proof {
            assert(dv[i as int] == coins@[i as int]@);
        }
        i += 1;
    }
    proof {
        assert(i < dv.len() ==> dv[i as int] == coins@[i as int]@);
    }
    if i < coins.len() && crate::keys::key_eq(coins[i].denom.as_slice(), c.denom.as_slice()) {
        let cur = coins[i].amount;
        if cur > u128::MAX - c.amount {
            proof {
                assert(coins.deep_view() =~= dv);
                lemma_total_at(dv, i as int, c@.denom);
            }
            return Err(BankError::AmountOverflow);
        }
        let merged = Coin { denom: clone_bytes(&c.denom), amount: cur + c.amount };
        let _old = coins.remove(i);
        coins.insert(i, merged);
        proof {
            let ndv = coins.deep_view();
            assert(ndv =~= dv.update(i as int, AbsCoin { denom: c@.denom, amount: (dv[i as int].amount + c@.amount) as u128 }));
            lemma_total_update(dv, i as int, c@, ndv);
            assert forall|a: int, b: int| 0 <= a < b < ndv.len() implies lex_lt(
                (#[trigger] ndv[a]).denom,
                (#[trigger] ndv[b]).denom,
            ) by {
                assert(lex_lt(dv[a].denom, dv[b].denom));
            }
        }
        Ok(())
    } else {
        proof {
            if i < dv.len() {
                crate::keys::lemma_lex_total(dv[i as int].denom, c@.denom);
            }
        }
        coins.insert(i, c);
        proof {
            let ndv = coins.deep_view();
            assert(ndv =~= dv.take(i as int) + seq![c@] + dv.skip(i as int));
            lemma_total_insert(dv, i as int, c@, ndv);
            assert forall|a: int, b: int| 0 <= a < b < ndv.len() implies lex_lt(
                (#[trigger] ndv[a]).denom,
                (#[trigger] ndv[b]).denom,
            ) by {
                if b < i {
                    assert(lex_lt(dv[a].denom, dv[b].denom));
                } else if a > i {
                    assert(lex_lt(dv[a - 1].denom, dv[b - 1].denom));
                } else if a < i && b == i {
                    assert(lex_lt(dv[a].denom, c@.denom));
                } else if a < i && b > i {
                    assert(lex_lt(dv[a].denom, dv[b - 1].denom));
                } else if a == i && b > i {
                    if i < dv.len() && b == i + 1 {
                        assert(lex_lt(c@.denom, dv[i as int].denom));
                    } else {
                        assert(lex_lt(dv[i as int].denom, dv[b - 1].denom));
                        crate::keys::lemma_lex_trans(c@.denom, dv[i as int].denom, dv[b - 1].denom);
                    }
                }
            }
        }
        Ok(())
    }
}

/// Totals after an in-place merge at one position.
proof fn lemma_total_update(dv: Seq<AbsCoin>, i: int, c: AbsCoin, ndv: Seq<AbsCoin>)
    requires
        0 <= i < dv.len(),
        dv[i].denom == c.denom,
        dv[i].amount + c.amount <= u128::MAX,
        ndv == dv.update(i, AbsCoin { denom: c.denom, amount: (dv[i].amount + c.amount) as u128 }),
    ensures
        forall|d: Seq<u8>|
            #[trigger] total_of(ndv, d) == total_of(dv, d) + total_of(seq![c], d),
    decreases dv.len(),
{
    assert forall|d: Seq<u8>| #[trigger] total_of(ndv, d) == total_of(dv, d) + total_of(
        seq![c],
        d,
    ) by {
        lemma_total_update_one(dv, i, c, ndv, d);
    }
}

/// Totals after an in-place merge at one position, for one denomination.
proof fn lemma_total_update_one(dv: Seq<AbsCoin>, i: int, c: AbsCoin, ndv: Seq<AbsCoin>, d: Seq<u8>)
    requires
        0 <= i < dv.len(),
        dv[i].denom == c.denom,
        dv[i].amount + c.amount <= u128::MAX,
        ndv == dv.update(i, AbsCoin { denom: c.denom, amount: (dv[i].amount + c.amount) as u128 }),
    ensures
        total_of(ndv, d) == total_of(dv, d) + total_of(seq![c], d),
{
    assert(dv =~= dv.take(i) + seq![dv[i]] + dv.skip(i + 1));
    assert(ndv =~= dv.take(i) + seq![ndv[i]] + dv.skip(i + 1));
    assert(dv.take(i) + seq![dv[i]] + dv.skip(i + 1) =~= dv.take(i) + (seq![dv[i]] + dv.skip(
        i + 1,
    )));
    assert(dv.take(i) + seq![ndv[i]] + dv.skip(i + 1) =~= dv.take(i) + (seq![ndv[i]] + dv.skip(
        i + 1,
    )));
    lemma_total_split(dv.take(i), seq![dv[i]] + dv.skip(i + 1), d);
    lemma_total_split(seq![dv[i]], dv.skip(i + 1), d);
    lemma_total_split(dv.take(i), seq![ndv[i]] + dv.skip(i + 1), d);
    lemma_total_split(seq![ndv[i]], dv.skip(i + 1), d);
    lemma_total_single(dv[i], d);
    lemma_total_single(ndv[i], d);
    lemma_total_single(c, d);
}

/// Totals after inserting one coin at one position.
proof fn lemma_total_insert(dv: Seq<AbsCoin>, i: int, c: AbsCoin, ndv: Seq<AbsCoin>)
    requires
        0 <= i <= dv.len(),
        ndv == dv.take(i) + seq![c] + dv.skip(i),
    ensures
        forall|d: Seq<u8>|
            #[trigger] total_of(ndv, d) == total_of(dv, d) + total_of(seq![c], d),
    decreases i,
{
    assert forall|d: Seq<u8>| #[trigger] total_of(ndv, d) == total_of(dv, d) + total_of(
        seq![c],
        d,
    ) by {
        lemma_total_insert_one(dv, i, c, ndv, d);
    }
}

/// Totals after inserting one coin at one position, for one denomination.
proof fn lemma_total_insert_one(dv: Seq<AbsCoin>, i: int, c: AbsCoin, ndv: Seq<AbsCoin>, d: Seq<u8>)
    requires
        0 <= i <= dv.len(),
        ndv == dv.take(i) + seq![c] + dv.skip(i),
    ensures
        total_of(ndv, d) == total_of(dv, d) + total_of(seq![c], d),
{
    assert(dv =~= dv.take(i) + dv.skip(i));
    assert(ndv =~= dv.take(i) + (seq![c] + dv.skip(i)));
    lemma_total_split(dv.take(i), dv.skip(i), d);
    lemma_total_split(dv.take(i), seq![c] + dv.skip(i), d);
    lemma_total_split(seq![c], dv.skip(i), d);
}

/// Subtracts one coin from a canonical list, keeping it canonical and
/// preserving totals; fails when the denomination's balance does not cover
/// the amount.
fn sub_coin(coins: &mut Vec<Coin>, c: &Coin) -> (r: Result<(), BankError>)
    requires
        canonical(old(coins).deep_view()),
        c.amount > 0,
    ensures
        match r {
            Ok(_) => canonical(final(coins).deep_view()) && forall|d: Seq<u8>|
                #[trigger] total_of(final(coins).deep_view(), d) == total_of(
                    old(coins).deep_view(),
                    d,
                ) - total_of(seq![c@], d),
            Err(e) => e == BankError::InsufficientFunds && final(coins).deep_view() == old(
                coins,
            ).deep_view() && total_of(old(coins).deep_view(), c@.denom) < c.amount,
        },
{
    let ghost dv = coins.deep_view();
    let mut i: usize = 0;
    while i < coins.len() && !crate::keys::key_eq(coins[i].denom.as_slice(), c.denom.as_slice())
        invariant
            i <= coins@.len(),
            dv == coins.deep_view(),
            coins@.len() == dv.len(),
            canonical(dv),
            forall|j: int| 0 <= j < i ==> (#[trigger] dv[j]).denom != c@.denom,
        decreases coins@.len() - i,
    {
        proof {
            assert(dv[i as int] == coins@[i as int]@);
        }
        i += 1;
    }
    if i >= coins.len() {
        proof {
            lemma_total_absent(dv, c@.denom);
            assert(coins.deep_view() =~= dv);
        }
        return Err(BankError::InsufficientFunds);
    }
    proof {
        assert(dv[i as int] == coins@[i as int]@);
    }
    let cur = coins[i].amount;
    if cur < c.amount {
        proof {
            lemma_total_at(dv, i as int, c@.denom);
            assert(coins.deep_view() =~= dv);
        }
        return Err(BankError::InsufficientFunds);
    }
    if cur == c.amount {
        let _old = coins.remove(i);
        proof {
            let ndv = coins.deep_view();
            assert(ndv =~= dv.take(i as int) + dv.skip(i + 1));
            lemma_total_remove(dv, i as int, ndv, c@.denom);
            assert forall|d: Seq<u8>| #[trigger] total_of(ndv, d) == total_of(dv, d) - total_of(
                seq![c@],
                d,
            ) by {
                lemma_total_single(c@, d);
                lemma_total_remove(dv, i as int, ndv, d);
            }
            assert forall|a: int, b: int| 0 <= a < b < ndv.len() implies lex_lt(
                (#[trigger] ndv[a]).denom,
                (#[trigger] ndv[b]).denom,
            ) by {
                if b < i {
                    assert(lex_lt(dv[a].denom, dv[b].denom));
                } else if a >= i {
                    assert(lex_lt(dv[a + 1].denom, dv[b + 1].denom));
                } else {
                    assert(lex_lt(dv[a].denom, dv[b + 1].denom));
                }
            }
        }
        Ok(())
    } else {
        let reduced = Coin { denom: clone_bytes(&c.denom), amount: cur - c.amount };
        let _old = coins.remove(i);
        coins.insert(i, reduced);
        proof {
            let ndv = coins.deep_view();
            assert(dv[i as int].denom == c@.denom);
            assert(ndv =~= dv.update(i as int, AbsCoin { denom: c@.denom, amount: (dv[i as int].amount - c@.amount) as u128 }));
            lemma_total_update_sub(dv, i as int, c@, ndv);
            assert forall|a: int, b: int| 0 <= a < b < ndv.len() implies lex_lt(
                (#[trigger] ndv[a]).denom,
                (#[trigger] ndv[b]).denom,
            ) by {
                assert(lex_lt(dv[a].denom, dv[b].denom));
            }
        }
        Ok(())
    }
}

/// A denomination absent from the list totals zero.
proof fn lemma_total_absent(dv: Seq<AbsCoin>, d: Seq<u8>)
    requires
        forall|j: int| 0 <= j < dv.len() ==> (#[trigger] dv[j]).denom != d,
    ensures
        total_of(dv, d) == 0,
    decreases dv.len(),
{
    if dv.len() > 0 {
        assert forall|j: int| 0 <= j < dv.drop_first().len() implies (#[trigger] dv.drop_first()[j]).denom
            != d by {
            assert(dv[j + 1].denom != d);
        }
        lemma_total_absent(dv.drop_first(), d);
    }
}

/// In a canonical list the total of a denomination is the one entry's amount.
proof fn lemma_total_at(dv: Seq<AbsCoin>, i: int, d: Seq<u8>)
    requires
        canonical(dv),
        0 <= i < dv.len(),
        dv[i].denom == d,
    ensures
        total_of(dv, d) == dv[i].amount,
    decreases dv.len(),
{
    if i == 0 {
        assert forall|j: int| 0 <= j < dv.drop_first().len() implies (#[trigger] dv.drop_first()[j]).denom
            != d by {
            assert(lex_lt(dv[0].denom, dv[j + 1].denom));
            crate::keys::lemma_lex_asym(dv[0].denom, dv[j + 1].denom);
        }
        lemma_total_absent(dv.drop_first(), d);
    } else {
        assert(lex_lt(dv[0].denom, dv[i].denom));
        crate::keys::lemma_lex_asym(dv[0].denom, dv[i].denom);
        assert(dv[0].denom != d);
        assert forall|a: int, b: int|
            0 <= a < b < dv.drop_first().len() implies lex_lt(
            (#[trigger] dv.drop_first()[a]).denom,
            (#[trigger] dv.drop_first()[b]).denom,
        ) by {
            assert(lex_lt(dv[a + 1].denom, dv[b + 1].denom));
        }
        assert forall|a: int| 0 <= a < dv.drop_first().len() implies (#[trigger] dv.drop_first()[a]).amount
            > 0 by {
            assert(dv[a + 1].amount > 0);
        }
        lemma_total_at(dv.drop_first(), i - 1, d);
    }
}

/// Totals after removing the entry at one position.
proof fn lemma_total_remove(dv: Seq<AbsCoin>, i: int, ndv: Seq<AbsCoin>, d: Seq<u8>)
    requires
        0 <= i < dv.len(),
        ndv == dv.take(i) + dv.skip(i + 1),
    ensures
        total_of(dv, d) == total_of(ndv, d) + (if dv[i].denom == d {
            dv[i].amount as int
        } else {
            0
        }),
{
    assert(dv =~= dv.take(i) + (seq![dv[i]] + dv.skip(i + 1)));
    lemma_total_split(dv.take(i), seq![dv[i]] + dv.skip(i + 1), d);
    lemma_total_split(seq![dv[i]], dv.skip(i + 1), d);
    lemma_total_split(dv.take(i), dv.skip(i + 1), d);
    lemma_total_single(dv[i], d);
}

/// Totals after an in-place subtraction at one position.
proof fn lemma_total_update_sub(dv: Seq<AbsCoin>, i: int, c: AbsCoin, ndv: Seq<AbsCoin>)
    requires
        0 <= i < dv.len(),
        dv[i].denom == c.denom,
        dv[i].amount >= c.amount,
        ndv == dv.update(i, AbsCoin { denom: c.denom, amount: (dv[i].amount - c.amount) as u128 }),
    ensures
        forall|d: Seq<u8>|
            #[trigger] total_of(ndv, d) == total_of(dv, d) - total_of(seq![c], d),
    decreases dv.len(),
{
    assert forall|d: Seq<u8>| #[trigger] total_of(ndv, d) == total_of(dv, d) - total_of(
        seq![c],
        d,
    ) by {
        lemma_total_update_sub_one(dv, i, c, ndv, d);
    }
}

/// Totals after an in-place subtraction at one position, for one
/// denomination.
proof fn lemma_total_update_sub_one(
    dv: Seq<AbsCoin>,
    i: int,
    c: AbsCoin,
    ndv: Seq<AbsCoin>,
    d: Seq<u8>,
)
    requires
        0 <= i < dv.len(),
        dv[i].denom == c.denom,
        dv[i].amount >= c.amount,
        ndv == dv.update(i, AbsCoin { denom: c.denom, amount: (dv[i].amount - c.amount) as u128 }),
    ensures
        total_of(ndv, d) == total_of(dv, d) - total_of(seq![c], d),
{
    assert(dv =~= dv.take(i) + seq![dv[i]] + dv.skip(i + 1));
    assert(ndv =~= dv.take(i) + seq![ndv[i]] + dv.skip(i + 1));
    assert(dv.take(i) + seq![dv[i]] + dv.skip(i + 1) =~= dv.take(i) + (seq![dv[i]] + dv.skip(
        i + 1,
    )));
    assert(dv.take(i) + seq![ndv[i]] + dv.skip(i + 1) =~= dv.take(i) + (seq![ndv[i]] + dv.skip(
        i + 1,
    )));
    lemma_total_split(dv.take(i), seq![dv[i]] + dv.skip(i + 1), d);
    lemma_total_split(seq![dv[i]], dv.skip(i + 1), d);
    lemma_total_split(dv.take(i), seq![ndv[i]] + dv.skip(i + 1), d);
    lemma_total_split(seq![ndv[i]], dv.skip(i + 1), d);
    lemma_total_single(dv[i], d);
    lemma_total_single(ndv[i], d);
    lemma_total_single(c, d);
}

/// Adds a whole coin list into a canonical balance; totals of every
/// denomination grow by the amounts added.
pub fn add_coins(balance: &mut Vec<Coin>, amount: &Vec<Coin>) -> (r: Result<(), BankError>)
    requires
        canonical(old(balance).deep_view()),
        forall|i: int| 0 <= i < amount@.len() ==> (#[trigger] amount@[i]).amount > 0,
    ensures
        r is Ok ==> canonical(final(balance).deep_view()) && forall|d: Seq<u8>|
            #[trigger] total_of(final(balance).deep_view(), d) == total_of(
                old(balance).deep_view(),
                d,
            ) + total_of(amount.deep_view(), d),
        r is Err ==> (r matches Err(e) && e == BankError::AmountOverflow) && exists|d: Seq<u8>|
            total_of(old(balance).deep_view(), d) + total_of(amount.deep_view(), d)
                > u128::MAX,
    decreases amount@.len(),
{
    let ghost adv = amount.deep_view();
    let mut i: usize = 0;
    proof {
        assert(adv.skip(0) =~= adv);
        assert forall|d: Seq<u8>| true implies total_of(adv, d) - total_of(adv.skip(0), d)
            == 0 by {}
    }
    while i < amount.len()
        invariant
            i <= amount@.len(),
            adv == amount.deep_view(),
            amount@.len() == adv.len(),
            forall|j: int| 0 <= j < amount@.len() ==> (#[trigger] amount@[j]).amount > 0,
            canonical(balance.deep_view()),
            forall|d: Seq<u8>|
                #[trigger] total_of(balance.deep_view(), d) == total_of(
                    old(balance).deep_view(),
                    d,
                ) + total_of(adv, d) - total_of(adv.skip(i as int), d),
        decreases amount@.len() - i,
    {
        proof {
            assert(adv.skip(i as int)[0] == adv[i as int]);
            assert(adv.skip(i as int).drop_first() =~= adv.skip(i + 1));
            assert(adv[i as int] == amount@[i as int]@);
        }
        let ghost before = balance.deep_view();
        let c = amount[i].dup();
        match add_coin(balance, c) {
            Ok(_) => {},
            Err(e) => {
                proof {
                    let d = adv[i as int].denom;
                    lemma_total_nonneg(adv.skip(i + 1), d);
                    assert(adv.skip(i as int) =~= seq![adv[i as int]] + adv.skip(i + 1));
                    lemma_total_split(seq![adv[i as int]], adv.skip(i + 1), d);
                    lemma_total_single(adv[i as int], d);
                    assert(total_of(old(balance).deep_view(), d) + total_of(adv, d)
                        > u128::MAX);
                }
                return Err(e);
            },
        }
        proof {
            assert forall|d: Seq<u8>| #[trigger] total_of(balance.deep_view(), d) == total_of(
                old(balance).deep_view(),
                d,
            ) + total_of(adv, d) - total_of(adv.skip(i + 1), d) by {
                assert(total_of(balance.deep_view(), d) == total_of(before, d) + total_of(
                    seq![adv[i as int]],
                    d,
                ));
                assert(adv.skip(i as int) =~= seq![adv[i as int]] + adv.skip(i + 1));
                lemma_total_split(seq![adv[i as int]], adv.skip(i + 1), d);
                lemma_total_single(adv[i as int], d);
            }
        }
        i += 1;
    }
    proof {
        assert(total_of(adv.skip(adv.len() as int), Seq::<u8>::empty()) == 0);
        assert forall|d: Seq<u8>| true implies #[trigger] total_of(adv.skip(i as int), d)
            == 0 by {}
    }
    Ok(())
}

/// Subtracts a whole coin list from a canonical balance; totals of every
/// denomination shrink by the amounts removed.
pub fn sub_coins(balance: &mut Vec<Coin>, amount: &Vec<Coin>) -> (r: Result<(), BankError>)
    requires
        canonical(old(balance).deep_view()),
        forall|i: int| 0 <= i < amount@.len() ==> (#[trigger] amount@[i]).amount > 0,
    ensures
        r is Ok ==> canonical(final(balance).deep_view()) && forall|d: Seq<u8>|
            #[trigger] total_of(final(balance).deep_view(), d) == total_of(
                old(balance).deep_view(),
                d,
            ) - total_of(amount.deep_view(), d),
        r is Err ==> (r matches Err(e) && e == BankError::InsufficientFunds) && exists|d: Seq<u8>|
            total_of(old(balance).deep_view(), d) < total_of(amount.deep_view(), d),
{
    let ghost adv = amount.deep_view();
    let mut i: usize = 0;
    proof {
        assert(adv.skip(0) =~= adv);
    }
    while i < amount.len()
        invariant
            i <= amount@.len(),
            adv == amount.deep_view(),
            amount@.len() == adv.len(),
            forall|j: int| 0 <= j < amount@.len() ==> (#[trigger] amount@[j]).amount > 0,
            canonical(balance.deep_view()),
            forall|d: Seq<u8>|
                #[trigger] total_of(balance.deep_view(), d) == total_of(
                    old(balance).deep_view(),
                    d,
                ) - (total_of(adv, d) - total_of(adv.skip(i as int), d)),
        decreases amount@.len() - i,
    {
        proof {
            assert(adv.skip(i as int)[0] == adv[i as int]);
            assert(adv.skip(i as int).drop_first() =~= adv.skip(i + 1));
            assert(adv[i as int] == amount@[i as int]@);
        }
        let ghost before = balance.deep_view();
        match sub_coin(balance, &amount[i]) {
            Ok(_) => {},
            Err(e) => {
                proof {
                    let d = adv[i as int].denom;
                    lemma_total_nonneg(adv.skip(i + 1), d);
                    assert(adv.skip(i as int) =~= seq![adv[i as int]] + adv.skip(i + 1));
                    lemma_total_split(seq![adv[i as int]], adv.skip(i + 1), d);
                    lemma_total_single(adv[i as int], d);
                    assert(total_of(old(balance).deep_view(), d) < total_of(adv, d));
                }
                return Err(e);
            },
        }
        proof {
            assert forall|d: Seq<u8>| #[trigger] total_of(balance.deep_view(), d) == total_of(
                old(balance).deep_view(),
                d,
            ) - (total_of(adv, d) - total_of(adv.skip(i + 1), d)) by {
                assert(total_of(balance.deep_view(), d) == total_of(before, d) - total_of(
                    seq![adv[i as int]],
                    d,
                ));
                assert(adv.skip(i as int) =~= seq![adv[i as int]] + adv.skip(i + 1));
                lemma_total_split(seq![adv[i as int]], adv.skip(i + 1), d);
                lemma_total_single(adv[i as int], d);
            }
        }
        i += 1;
    }
    proof {
        assert forall|d: Seq<u8>| true implies #[trigger] total_of(adv.skip(i as int), d)
            == 0 by {}
    }
    Ok(())
}


/// The canonical form of an amount: zeros dropped, duplicates merged,
/// denominations sorted.  Fails only when one denomination's total would
/// overflow.
pub fn canonicalize(amount: &Vec<Coin>) -> (r: Result<Vec<Coin>, BankError>)
    ensures
        r matches Ok(v) ==> canonical(v.deep_view()) && forall|d: Seq<u8>|
            #[trigger] total_of(v.deep_view(), d) == total_of(amount.deep_view(), d),
        r is Err ==> (r matches Err(e) && e == BankError::AmountOverflow) && exists|d: Seq<u8>|
            total_of(amount.deep_view(), d) > u128::MAX,
{
    let ghost adv = amount.deep_view();
    let mut out: Vec<Coin> = Vec::new();
    let mut i: usize = 0;
    proof {
        assert(adv.skip(0) =~= adv);
    }
    while i < amount.len()
        invariant
            i <= amount@.len(),
            adv == amount.deep_view(),
            amount@.len() == adv.len(),
            canonical(out.deep_view()),
            forall|d: Seq<u8>|
                #[trigger] total_of(out.deep_view(), d) == total_of(adv, d) - total_of(
                    adv.skip(i as int),
                    d,
                ),
        decreases amount@.len() - i,
    {
        proof {
            assert(adv.skip(i as int)[0] == adv[i as int]);
            assert(adv.skip(i as int).drop_first() =~= adv.skip(i + 1));
            assert(adv[i as int] == amount@[i as int]@);
        }
        let ghost before = out.deep_view();
        if amount[i].amount > 0 {
            let c = amount[i].dup();
            match add_coin(&mut out, c) {
                Ok(_) => {},
                Err(e) => {
                    proof {
                        let d = adv[i as int].denom;
                        lemma_total_nonneg(adv.skip(i + 1), d);
                        assert(adv.skip(i as int) =~= seq![adv[i as int]] + adv.skip(i + 1));
                        lemma_total_split(seq![adv[i as int]], adv.skip(i + 1), d);
                        lemma_total_single(adv[i as int], d);
                        assert(total_of(adv, d) > u128::MAX);
                    }
                    return Err(e);
                },
            }
        }
        proof {
            assert forall|d: Seq<u8>| #[trigger] total_of(out.deep_view(), d) == total_of(adv, d)
                - total_of(adv.skip(i + 1), d) by {
                assert(adv.skip(i as int) =~= seq![adv[i as int]] + adv.skip(i + 1));
                lemma_total_split(seq![adv[i as int]], adv.skip(i + 1), d);
                lemma_total_single(adv[i as int], d);
            }
        }
        i += 1;
    }
    proof {
        assert forall|d: Seq<u8>| true implies #[trigger] total_of(adv.skip(i as int), d) == 0 by {}
    }
    Ok(out)
}

/// The bank's canonical local ledger: per-address balances, first match
/// winning.
pub struct BankLedger {
    rows: Vec<(Vec<u8>, Vec<Coin>)>,
}

impl BankLedger {
    /// The rows, in precedence order.
    pub closed spec fn rows_view(&self) -> Seq<(Seq<u8>, Seq<AbsCoin>)> {
        self.rows.deep_view()
    }

    /// An empty ledger.
    pub fn new() -> (r: BankLedger)
        ensures
            r.rows_view().len() == 0,
    {
        let r = BankLedger { rows: Vec::new() };
        proof {
            crate::model::lemma_dv_bank_rows(&r.rows);
        }
        r
    }

    /// The rows, in precedence order.
    pub fn all_rows(&self) -> (r: Vec<(Vec<u8>, Vec<Coin>)>)
        ensures
            r.deep_view() == self.rows_view(),
    {
        crate::model::clone_bank_rows(&self.rows)
    }

    /// The local balance of an address, if the ledger lists it.
    pub fn balance_of(&self, account: &Vec<u8>) -> (r: Option<Vec<Coin>>)
        ensures
            match r {
                Some(v) => assoc(self.rows_view(), account@) == Some(v.deep_view()),
                None => assoc(self.rows_view(), account@) is None,
            },
    {
        let ghost dv = self.rows_view();
        proof {
            crate::model::lemma_dv_bank_rows(&self.rows);
            assert(dv.skip(0) =~= dv);
        }
        let mut i: usize = 0;
        while i < self.rows.len()
            invariant
                i <= self.rows@.len(),
                dv == self.rows_view(),
                self.rows@.len() == dv.len(),
                forall|j: int|
                    0 <= j < dv.len() ==> #[trigger] dv[j] == (
                        self.rows@[j].0@,
                        self.rows@[j].1.deep_view(),
                    ),
                assoc(dv, account@) == assoc(dv.skip(i as int), account@),
            decreases self.rows@.len() - i,
        {
            proof {
                assert(dv.skip(i as int)[0] == dv[i as int]);
                assert(dv.skip(i as int).drop_first() =~= dv.skip(i + 1));
            }
            if crate::keys::key_eq(self.rows[i].0.as_slice(), account.as_slice()) {
                return Some(clone_coins(&self.rows[i].1));
            }
            i += 1;
        }
        assert(dv.skip(i as int).len() == 0);
        None
    }

    /// Stores a balance for an address, shadowing any earlier row.
    pub fn put_balance(&mut self, account: Vec<u8>, balance: Vec<Coin>)
        ensures
            assoc(final(self).rows_view(), account@) == Some(balance.deep_view()),
            forall|a: Seq<u8>|
                a != account@ ==> #[trigger] assoc(final(self).rows_view(), a) == assoc(
                    old(self).rows_view(),
                    a,
                ),
    {
        let ghost dv = self.rows_view();
        proof {
            crate::model::lemma_dv_bank_rows(&self.rows);
        }
        self.rows.insert(0, (account, balance));
        proof {
            crate::model::lemma_dv_bank_rows(&self.rows);
            let ndv = self.rows_view();
            assert(ndv.drop_first() =~= dv);
            assert forall|a: Seq<u8>| true implies assoc(ndv, a) == (if a == ndv[0].0 {
                Some(ndv[0].1)
            } else {
                assoc(dv, a)
            }) by {}
        }
    }
}

/// What `account` holds for this operation: the ledger's row when listed,
/// else the balance fetched from the remote chain.
pub open spec fn spec_resolved(
    rows: Seq<(Seq<u8>, Seq<AbsCoin>)>,
    account: Seq<u8>,
    fetched: Seq<AbsCoin>,
) -> Seq<AbsCoin> {
    match assoc(rows, account) {
        Some(b) => b,
        None => fetched,
    }
}

/// The bank keeper: adjusts and reads the canonical ledger.  `fetched`
/// arguments carry the remote balance of an address the ledger does not
/// list; local and remote are alternatives, never summed.
pub struct BankKeeper {
    chain: Option<crate::model::ChainDescriptor>,
}

impl BankKeeper {
    /// Whether a chain was set to fall back to.
    pub closed spec fn has_chain(&self) -> bool {
        self.chain is Some
    }

    /// A keeper with no chain set.
    pub fn new() -> (r: BankKeeper)
        ensures
            !r.has_chain(),
    {
        BankKeeper { chain: None }
    }

    /// Sets the chain to fall back to.
    pub fn set_chain(&mut self, chain: crate::model::ChainDescriptor)
        ensures
            final(self).has_chain(),
    {
        self.chain = Some(chain);
    }

    /// Seeds an account's balance in genesis: the canonical form of `amount`
    /// replaces any earlier row.  This succeeds exactly when no
    /// denomination's total overflows.
    pub fn init_balance(
        &self,
        ledger: &mut BankLedger,
        account: &Vec<u8>,
        amount: Vec<Coin>,
    ) -> (r: Result<(), BankError>)
        ensures
            (r is Ok) == (forall|d: Seq<u8>|
                #[trigger] total_of(amount.deep_view(), d) <= u128::MAX),
            r matches Ok(_) ==> (forall|d: Seq<u8>|
                #[trigger] total_of(
                    spec_resolved(final(ledger).rows_view(), account@, Seq::empty()),
                    d,
                ) == total_of(amount.deep_view(), d)) && (forall|a: Seq<u8>|
                a != account@ ==> #[trigger] assoc(final(ledger).rows_view(), a) == assoc(
                    old(ledger).rows_view(),
                    a,
                )),
            r matches Err(e) ==> e == BankError::AmountOverflow && final(ledger).rows_view()
                == old(ledger).rows_view() && exists|d: Seq<u8>|
                total_of(amount.deep_view(), d) > u128::MAX,
    {
        let canon = match canonicalize(&amount) {
            Ok(c) => c,
            Err(e) => {
                proof {
                    let d = choose|d: Seq<u8>| total_of(amount.deep_view(), d) > u128::MAX;
                    assert(!(total_of(amount.deep_view(), d) <= u128::MAX));
                }
                return Err(e);
            },
        };
        proof {
            assert forall|d: Seq<u8>| #[trigger] total_of(amount.deep_view(), d)
                <= u128::MAX by {
                lemma_total_canonical_bound(canon.deep_view(), d);
            }
        }
        ledger.put_balance(clone_bytes(account), canon);
        Ok(())
    }

    /// Credits `amount` to an account: its resolved balance grows by the
    /// amount, denomination by denomination; nothing else changes.  This
    /// succeeds exactly when the amount has a non-zero coin and no
    /// denomination's new total overflows.
    pub fn mint(
        &self,
        ledger: &mut BankLedger,
        to: &Vec<u8>,
        fetched: &Vec<Coin>,
        amount: &Vec<Coin>,
    ) -> (r: Result<(), BankError>)
        ensures
            (r is Ok) == (spec_drop_zero(amount.deep_view()).len() > 0 && (forall|d: Seq<u8>|
                #[trigger] total_of(
                    spec_resolved(old(ledger).rows_view(), to@, fetched.deep_view()),
                    d,
                ) + total_of(spec_drop_zero(amount.deep_view()), d) <= u128::MAX)),
            r matches Ok(_) ==> (forall|d: Seq<u8>|
                #[trigger] total_of(
                    spec_resolved(final(ledger).rows_view(), to@, Seq::empty()),
                    d,
                ) == total_of(
                    spec_resolved(old(ledger).rows_view(), to@, fetched.deep_view()),
                    d,
                ) + total_of(spec_drop_zero(amount.deep_view()), d)) && (forall|a: Seq<u8>|
                a != to@ ==> #[trigger] assoc(final(ledger).rows_view(), a) == assoc(
                    old(ledger).rows_view(),
                    a,
                )),
            r matches Err(e) ==> final(ledger).rows_view() == old(ledger).rows_view() && ((e
                == BankError::EmptyAmount && spec_drop_zero(amount.deep_view()).len() == 0) || (e
                == BankError::AmountOverflow && exists|d: Seq<u8>|
                total_of(
                    spec_resolved(old(ledger).rows_view(), to@, fetched.deep_view()),
                    d,
                ) + total_of(spec_drop_zero(amount.deep_view()), d) > u128::MAX)),
    {
        let ghost cur = spec_resolved(old(ledger).rows_view(), to@, fetched.deep_view());
        let norm = match normalize_amount(amount) {
            Ok(v) => v,
            Err(e) => {
                return Err(e);
            },
        };
        let current = match ledger.balance_of(to) {
            Some(b) => b,
            None => clone_coins(fetched),
        };
        proof {
            assert(current.deep_view() == cur);
        }
        let mut balance = match canonicalize(&current) {
            Ok(c) => c,
            Err(e) => {
                proof {
                    let d = choose|d: Seq<u8>| total_of(current.deep_view(), d) > u128::MAX;
                    lemma_total_nonneg(spec_drop_zero(amount.deep_view()), d);
                    assert(total_of(cur, d) + total_of(spec_drop_zero(amount.deep_view()), d)
                        > u128::MAX);
                }
                return Err(e);
            },
        };
        proof {
            assert forall|j: int| 0 <= j < norm@.len() implies (#[trigger] norm@[j]).amount
                > 0 by {
                hint_drop_zero_positive(amount.deep_view(), norm.deep_view(), j);
                assert(norm@[j]@ == norm.deep_view()[j]);
            }
        }
        match add_coins(&mut balance, &norm) {
            Ok(_) => {},
            Err(e) => {
                return Err(e);
            },
        }
        proof {
            assert forall|d: Seq<u8>| #[trigger] total_of(cur, d) + total_of(
                spec_drop_zero(amount.deep_view()),
                d,
            ) <= u128::MAX by {
                lemma_total_canonical_bound(balance.deep_view(), d);
            }
        }
        ledger.put_balance(clone_bytes(to), balance);
        Ok(())
    }

    /// Debits `amount` from an account: its resolved balance shrinks by the
    /// amount, denomination by denomination; nothing else changes.  This
    /// succeeds exactly when the amount has a non-zero coin, the resolved
    /// balance is representable, and it covers the amount in every
    /// denomination.
    pub fn burn(
        &self,
        ledger: &mut BankLedger,
        from: &Vec<u8>,
        fetched: &Vec<Coin>,
        amount: &Vec<Coin>,
    ) -> (r: Result<(), BankError>)
        ensures
            (r is Ok) == (spec_drop_zero(amount.deep_view()).len() > 0 && (forall|d: Seq<u8>|
                #[trigger] total_of(
                    spec_resolved(old(ledger).rows_view(), from@, fetched.deep_view()),
                    d,
                ) <= u128::MAX) && (forall|d: Seq<u8>|
                #[trigger] total_of(
                    spec_resolved(old(ledger).rows_view(), from@, fetched.deep_view()),
                    d,
                ) >= total_of(spec_drop_zero(amount.deep_view()), d))),
            r matches Ok(_) ==> (forall|d: Seq<u8>|
                #[trigger] total_of(
                    spec_resolved(final(ledger).rows_view(), from@, Seq::empty()),
                    d,
                ) == total_of(
                    spec_resolved(old(ledger).rows_view(), from@, fetched.deep_view()),
                    d,
                ) - total_of(spec_drop_zero(amount.deep_view()), d)) && (forall|a: Seq<u8>|
                a != from@ ==> #[trigger] assoc(final(ledger).rows_view(), a) == assoc(
                    old(ledger).rows_view(),
                    a,
                )),
            r matches Err(e) ==> final(ledger).rows_view() == old(ledger).rows_view() && ((e
                == BankError::EmptyAmount && spec_drop_zero(amount.deep_view()).len() == 0) || (e
                == BankError::AmountOverflow && exists|d: Seq<u8>|
                total_of(
                    spec_resolved(old(ledger).rows_view(), from@, fetched.deep_view()),
                    d,
                ) > u128::MAX) || (e == BankError::InsufficientFunds && exists|d: Seq<u8>|
                total_of(
                    spec_resolved(old(ledger).rows_view(), from@, fetched.deep_view()),
                    d,
                ) < total_of(spec_drop_zero(amount.deep_view()), d))),
    {
        let ghost cur = spec_resolved(old(ledger).rows_view(), from@, fetched.deep_view());
        let norm = match normalize_amount(amount) {
            Ok(v) => v,
            Err(e) => {
                return Err(e);
            },
        };
        let current = match ledger.balance_of(from) {
            Some(b) => b,
            None => clone_coins(fetched),
        };
        proof {
            assert(current.deep_view() == cur);
        }
        let mut balance = match canonicalize(&current) {
            Ok(c) => c,
            Err(e) => {
                return Err(e);
            },
        };
        let ghost canonv = balance.deep_view();
        proof {
            assert forall|j: int| 0 <= j < norm@.len() implies (#[trigger] norm@[j]).amount
                > 0 by {
                hint_drop_zero_positive(amount.deep_view(), norm.deep_view(), j);
                assert(norm@[j]@ == norm.deep_view()[j]);
            }
        }
        match sub_coins(&mut balance, &norm) {
            Ok(_) => {},
            Err(e) => {
                return Err(e);
            },
        }
        proof {
            assert forall|d: Seq<u8>| #[trigger] total_of(cur, d) <= u128::MAX by {
                lemma_total_canonical_bound(canonv, d);
            }
            assert forall|d: Seq<u8>| #[trigger] total_of(cur, d) >= total_of(
                spec_drop_zero(amount.deep_view()),
                d,
            ) by {
                lemma_total_nonneg(balance.deep_view(), d);
            }
        }
        ledger.put_balance(clone_bytes(from), balance);
        Ok(())
    }

    /// Moves `amount` from one account to another: the debited and credited
    /// balances are computed first and written only when both succeed, so a
    /// failing transfer leaves the ledger exactly as it was.  This succeeds
    /// exactly when the amount has a non-zero coin, the sender's resolved
    /// balance is representable and covers it, and a distinct recipient's
    /// new total does not overflow.
    pub fn send(
        &self,
        ledger: &mut BankLedger,
        from: &Vec<u8>,
        fetched_from: &Vec<Coin>,
        to: &Vec<u8>,
        fetched_to: &Vec<Coin>,
        amount: &Vec<Coin>,
    ) -> (r: Result<(), BankError>)
        ensures
            (r is Ok) == (spec_drop_zero(amount.deep_view()).len() > 0 && (forall|d: Seq<u8>|
                #[trigger] total_of(
                    spec_resolved(old(ledger).rows_view(), from@, fetched_from.deep_view()),
                    d,
                ) <= u128::MAX) && (forall|d: Seq<u8>|
                #[trigger] total_of(
                    spec_resolved(old(ledger).rows_view(), from@, fetched_from.deep_view()),
                    d,
                ) >= total_of(spec_drop_zero(amount.deep_view()), d)) && (from@ == to@ || (forall|
                d: Seq<u8>,
            |
                #[trigger] total_of(
                    spec_resolved(old(ledger).rows_view(), to@, fetched_to.deep_view()),
                    d,
                ) + total_of(spec_drop_zero(amount.deep_view()), d) <= u128::MAX))),
            r matches Ok(_) && from@ != to@ ==> (forall|d: Seq<u8>|
                #[trigger] total_of(
                    spec_resolved(final(ledger).rows_view(), to@, Seq::empty()),
                    d,
                ) == total_of(
                    spec_resolved(old(ledger).rows_view(), to@, fetched_to.deep_view()),
                    d,
                ) + total_of(spec_drop_zero(amount.deep_view()), d)) && (forall|d: Seq<u8>|
                #[trigger] total_of(
                    spec_resolved(final(ledger).rows_view(), from@, Seq::empty()),
                    d,
                ) == total_of(
                    spec_resolved(old(ledger).rows_view(), from@, fetched_from.deep_view()),
                    d,
                ) - total_of(spec_drop_zero(amount.deep_view()), d)) && (forall|a: Seq<u8>|
                a != from@ && a != to@ ==> #[trigger] assoc(final(ledger).rows_view(), a) == assoc(
                    old(ledger).rows_view(),
                    a,
                )),
            r matches Ok(_) && from@ == to@ ==> (forall|d: Seq<u8>|
                #[trigger] total_of(
                    spec_resolved(final(ledger).rows_view(), from@, Seq::empty()),
                    d,
                ) == total_of(
                    spec_resolved(old(ledger).rows_view(), from@, fetched_from.deep_view()),
                    d,
                )) && (forall|a: Seq<u8>|
                a != from@ ==> #[trigger] assoc(final(ledger).rows_view(), a) == assoc(
                    old(ledger).rows_view(),
                    a,
                )),
            r is Err ==> final(ledger).rows_view() == old(ledger).rows_view(),
    {
        let ghost res_from = spec_resolved(
            old(ledger).rows_view(),
            from@,
            fetched_from.deep_view(),
        );
        let ghost res_to = spec_resolved(old(ledger).rows_view(), to@, fetched_to.deep_view());
        let ghost dz = spec_drop_zero(amount.deep_view());
        let norm = match normalize_amount(amount) {
            Ok(v) => v,
            Err(e) => {
                return Err(e);
            },
        };
        proof {
            assert forall|j: int| 0 <= j < norm@.len() implies (#[trigger] norm@[j]).amount
                > 0 by {
                hint_drop_zero_positive(amount.deep_view(), norm.deep_view(), j);
                assert(norm@[j]@ == norm.deep_view()[j]);
            }
        }
        let cur_from = match ledger.balance_of(from) {
            Some(b) => b,
            None => clone_coins(fetched_from),
        };
        proof {
            assert(cur_from.deep_view() == res_from);
        }
        let mut bal_from = match canonicalize(&cur_from) {
            Ok(c) => c,
            Err(e) => {
                proof {
                    let d = choose|d: Seq<u8>| total_of(cur_from.deep_view(), d) > u128::MAX;
                    assert(!(total_of(res_from, d) <= u128::MAX));
                }
                return Err(e);
            },
        };
        let ghost canon_from = bal_from.deep_view();
        match sub_coins(&mut bal_from, &norm) {
            Ok(_) => {},
            Err(e) => {
                return Err(e);
            },
        }
        proof {
            assert forall|d: Seq<u8>| #[trigger] total_of(res_from, d) <= u128::MAX by {
                lemma_total_canonical_bound(canon_from, d);
            }
            assert forall|d: Seq<u8>| #[trigger] total_of(res_from, d) >= total_of(dz, d) by {
                lemma_total_nonneg(bal_from.deep_view(), d);
            }
        }
        let same_account = crate::keys::key_eq(from.as_slice(), to.as_slice());
        let mut bal_to = if same_account {
            clone_coins(&bal_from)
        } else {
            let cur_to = match ledger.balance_of(to) {
                Some(b) => b,
                None => clone_coins(fetched_to),
            };
            proof {
                assert(cur_to.deep_view() == res_to);
            }
            match canonicalize(&cur_to) {
                Ok(c) => c,
                Err(e) => {
                    proof {
                        let d = choose|d: Seq<u8>| total_of(cur_to.deep_view(), d) > u128::MAX;
                        lemma_total_nonneg(dz, d);
                        assert(!(total_of(res_to, d) + total_of(dz, d) <= u128::MAX));
                    }
                    return Err(e);
                },
            }
        };
        let ghost to_before = bal_to.deep_view();
        match add_coins(&mut bal_to, &norm) {
            Ok(_) => {},
            Err(e) => {
                proof {
                    if same_account {
                        let d = choose|d: Seq<u8>|
                            total_of(to_before, d) + total_of(norm.deep_view(), d) > u128::MAX;
                        lemma_total_canonical_bound(canon_from, d);
                        assert(false);
                    }
                }
                return Err(e);
            },
        }
        proof {
            if !same_account {
                assert forall|d: Seq<u8>| #[trigger] total_of(res_to, d) + total_of(dz, d)
                    <= u128::MAX by {
                    lemma_total_canonical_bound(bal_to.deep_view(), d);
                }
            }
        }
        if same_account {
            ledger.put_balance(clone_bytes(to), bal_to);
        } else {
            ledger.put_balance(clone_bytes(from), bal_from);
            let ghost mid = ledger.rows_view();
            ledger.put_balance(clone_bytes(to), bal_to);
            proof {
                assert(assoc(ledger.rows_view(), from@) == assoc(mid, from@));
            }
        }
        Ok(())
    }
}

/// An entry of the zero-dropped amount is positive.
proof fn hint_drop_zero_positive(src: Seq<AbsCoin>, dst: Seq<AbsCoin>, j: int)
    requires
        dst == spec_drop_zero(src),
        0 <= j < dst.len(),
    ensures
        dst[j].amount > 0,
    decreases src.len(),
{
    if src.len() > 0 {
        let rest = spec_drop_zero(src.drop_first());
        if src[0].amount > 0 {
            if j > 0 {
                hint_drop_zero_positive(src.drop_first(), rest, j - 1);
            }
        } else {
            hint_drop_zero_positive(src.drop_first(), rest, j);
        }
    }
}

/// The rendering of coins for the transfer event: each amount in decimal
/// followed by its denomination, comma separated.
pub open spec fn spec_coins_str(coins: Seq<AbsCoin>) -> Seq<u8>
    decreases coins.len(),
{
    if coins.len() == 0 {
        Seq::empty()
    } else if coins.len() == 1 {
        crate::text::spec_decimal(coins[0].amount as nat) + coins[0].denom
    } else {
        crate::text::spec_decimal(coins[0].amount as nat) + coins[0].denom + seq![44u8]
            + spec_coins_str(coins.drop_first())
    }
}

/// Renders coins for the transfer event.
pub fn coins_to_string(coins: &Vec<Coin>) -> (r: Vec<u8>)
    ensures
        r@ == spec_coins_str(coins.deep_view()),
{
    let ghost dv = coins.deep_view();
    let mut out: Vec<u8> = Vec::new();
    let mut i: usize = 0;
    proof {
        assert(dv.skip(0) =~= dv);
        assert(out@ + spec_coins_str(dv) =~= spec_coins_str(dv));
    }
    while i < coins.len()
        invariant
            i <= coins@.len(),
            dv == coins.deep_view(),
            coins@.len() == dv.len(),
            out@ + spec_coins_str(dv.skip(i as int)) == spec_coins_str(dv),
        decreases coins@.len() - i,
    {
        proof {
            assert(dv.skip(i as int)[0] == dv[i as int]);
            assert(dv.skip(i as int).drop_first() =~= dv.skip(i + 1));
            assert(dv[i as int] == coins@[i as int]@);
        }
        let ghost before = out@;
        let digits = crate::text::decimal_bytes(coins[i].amount);
        let mut j: usize = 0;
        while j < digits.len()
            invariant
                j <= digits@.len(),
                out@ =~= before + digits@.take(j as int),
            decreases digits@.len() - j,
        {
            out.push(digits[j]);
            proof {
                assert(out@ =~= before + digits@.take(j + 1));
            }
            j += 1;
        }
        proof {
            assert(digits@.take(digits@.len() as int) =~= digits@);
        }
        let ghost mid = out@;
        let mut k: usize = 0;
        while k < coins[i].denom.len()
            invariant
                k <= coins@[i as int].denom@.len(),
                i < coins@.len(),
                out@ =~= mid + coins@[i as int].denom@.take(k as int),
            decreases coins@[i as int].denom@.len() - k,
        {
            out.push(coins[i].denom[k]);
            proof {
                assert(out@ =~= mid + coins@[i as int].denom@.take(k + 1));
            }
            k += 1;
        }
        proof {
            assert(coins@[i as int].denom@.take(coins@[i as int].denom@.len() as int)
                =~= coins@[i as int].denom@);
        }
        if i + 1 < coins.len() {
            out.push(44);
            proof {
                assert(out@ =~= before + (crate::text::spec_decimal(dv[i as int].amount as nat)
                    + dv[i as int].denom + seq![44u8]));
                assert(out@ + spec_coins_str(dv.skip(i + 1)) =~= spec_coins_str(dv));
            }
        } else {
            proof {
                assert(dv.skip(i as int).len() == 1);
                assert(out@ =~= before + (crate::text::spec_decimal(dv[i as int].amount as nat)
                    + dv[i as int].denom));
                assert(spec_coins_str(dv.skip(i + 1)).len() == 0);
                assert(out@ + spec_coins_str(dv.skip(i + 1)) =~= spec_coins_str(dv));
            }
        }
        i += 1;
    }
    proof {
        assert(spec_coins_str(dv.skip(dv.len() as int)).len() == 0);
        assert(out@ =~= spec_coins_str(dv));
    }
    out
}


/// An administrative bank operation.
#[derive(Debug, Clone, PartialEq, Eq)]
pub enum BankSudo {
    /// Mint coins to an address.
    Mint { to_address: Vec<u8>, amount: Vec<Coin> },
}

impl BankKeeper {
    /// Answer a bank query from the ledger: a listed address answers
    /// locally, with a zero coin for a denomination it does not hold; an
    /// unlisted address owes one live remote balance query.
    pub fn query(
        &self,
        ledger: &BankLedger,
        request: &crate::querier::BankQueryMsg,
    ) -> (r: crate::querier::BankQueryOutcome)
        ensures
            crate::querier::bank_query_post(ledger.rows_view(), *request, r),
    {
        match request {
            crate::querier::BankQueryMsg::Balance { address, denom } => {
                match ledger.balance_of(address) {
                    Some(coins) => {
                        let amount = match find_ledger_coin(&coins, denom) {
                            Some(a) => a,
                            None => 0,
                        };
                        crate::querier::BankQueryOutcome::Balance(
                            Coin { denom: clone_bytes(denom), amount },
                        )
                    },
                    None => crate::querier::BankQueryOutcome::NeedRemoteBalance {
                        address: clone_bytes(address),
                        denom: Some(clone_bytes(denom)),
                    },
                }
            },
            crate::querier::BankQueryMsg::AllBalances { address } => {
                match ledger.balance_of(address) {
                    Some(coins) => crate::querier::BankQueryOutcome::AllBalances(coins),
                    None => crate::querier::BankQueryOutcome::NeedRemoteBalance {
                        address: clone_bytes(address),
                        denom: None,
                    },
                }
            },
        }
    }

    /// Executes a bank message for `sender`: a transfer moves the coins and
    /// records the transfer event; a burn destroys them quietly.
    pub fn execute(
        &self,
        ledger: &mut BankLedger,
        sender: &Vec<u8>,
        msg: &BankMsg,
        fetched_sender: &Vec<Coin>,
        fetched_recipient: &Vec<Coin>,
    ) -> (r: Result<Vec<Event>, BankError>)
        ensures
            (r is Ok) == (match msg {
                BankMsg::Send { to_address, amount } => spec_drop_zero(amount.deep_view()).len()
                    > 0 && (forall|d: Seq<u8>|
                    #[trigger] total_of(
                        spec_resolved(
                            old(ledger).rows_view(),
                            sender@,
                            fetched_sender.deep_view(),
                        ),
                        d,
                    ) <= u128::MAX) && (forall|d: Seq<u8>|
                    #[trigger] total_of(
                        spec_resolved(
                            old(ledger).rows_view(),
                            sender@,
                            fetched_sender.deep_view(),
                        ),
                        d,
                    ) >= total_of(spec_drop_zero(amount.deep_view()), d)) && (sender@
                    == to_address@ || (forall|d: Seq<u8>|
                    #[trigger] total_of(
                        spec_resolved(
                            old(ledger).rows_view(),
                            to_address@,
                            fetched_recipient.deep_view(),
                        ),
                        d,
                    ) + total_of(spec_drop_zero(amount.deep_view()), d) <= u128::MAX)),
                BankMsg::Burn { amount } => spec_drop_zero(amount.deep_view()).len() > 0 && (
                forall|d: Seq<u8>|
                    #[trigger] total_of(
                        spec_resolved(
                            old(ledger).rows_view(),
                            sender@,
                            fetched_sender.deep_view(),
                        ),
                        d,
                    ) <= u128::MAX) && (forall|d: Seq<u8>|
                    #[trigger] total_of(
                        spec_resolved(
                            old(ledger).rows_view(),
                            sender@,
                            fetched_sender.deep_view(),
                        ),
                        d,
                    ) >= total_of(spec_drop_zero(amount.deep_view()), d)),
            }),
            match msg {
                BankMsg::Send { to_address, amount } => r matches Ok(events) ==> {
                    &&& events.deep_view() == seq![
                        crate::model::AbsEvent {
                            ty: seq![116u8, 114u8, 97u8, 110u8, 115u8, 102u8, 101u8, 114u8],
                            attributes: seq![
                                crate::model::AbsAttribute {
                                    key: seq![
                                        114u8,
                                        101u8,
                                        99u8,
                                        105u8,
                                        112u8,
                                        105u8,
                                        101u8,
                                        110u8,
                                        116u8,
                                    ],
                                    value: to_address@,
                                },
                                crate::model::AbsAttribute {
                                    key: seq![115u8, 101u8, 110u8, 100u8, 101u8, 114u8],
                                    value: sender@,
                                },
                                crate::model::AbsAttribute {
                                    key: seq![97u8, 109u8, 111u8, 117u8, 110u8, 116u8],
                                    value: spec_coins_str(amount.deep_view()),
                                },
                            ],
                        },
                    ]
                    &&& (sender@ != to_address@ ==> (forall|d: Seq<u8>|
                        #[trigger] total_of(
                            spec_resolved(final(ledger).rows_view(), to_address@, Seq::empty()),
                            d,
                        ) == total_of(
                            spec_resolved(
                                old(ledger).rows_view(),
                                to_address@,
                                fetched_recipient.deep_view(),
                            ),
                            d,
                        ) + total_of(spec_drop_zero(amount.deep_view()), d)))
                },
                BankMsg::Burn { amount } => r matches Ok(events) ==> events.deep_view().len() == 0
                    && (forall|d: Seq<u8>|
                    #[trigger] total_of(
                        spec_resolved(final(ledger).rows_view(), sender@, Seq::empty()),
                        d,
                    ) == total_of(
                        spec_resolved(
                            old(ledger).rows_view(),
                            sender@,
                            fetched_sender.deep_view(),
                        ),
                        d,
                    ) - total_of(spec_drop_zero(amount.deep_view()), d)),
            },
            r is Err ==> final(ledger).rows_view() == old(ledger).rows_view(),
    {
        match msg {
            BankMsg::Send { to_address, amount } => {
                let rendered = coins_to_string(amount);
                let mut attributes: Vec<crate::model::Attribute> = Vec::new();
                let mut k_recipient: Vec<u8> = Vec::new();
                k_recipient.push(114);
                k_recipient.push(101);
                k_recipient.push(99);
                k_recipient.push(105);
                k_recipient.push(112);
                k_recipient.push(105);
                k_recipient.push(101);
                k_recipient.push(110);
                k_recipient.push(116);
                let mut k_sender: Vec<u8> = Vec::new();
                k_sender.push(115);
                k_sender.push(101);
                k_sender.push(110);
                k_sender.push(100);
                k_sender.push(101);
                k_sender.push(114);
                let mut k_amount: Vec<u8> = Vec::new();
                k_amount.push(97);
                k_amount.push(109);
                k_amount.push(111);
                k_amount.push(117);
                k_amount.push(110);
                k_amount.push(116);
                attributes.push(
                    crate::model::Attribute { key: k_recipient, value: clone_bytes(to_address) },
                );
                attributes.push(
                    crate::model::Attribute { key: k_sender, value: clone_bytes(sender) },
                );
                attributes.push(crate::model::Attribute { key: k_amount, value: rendered });
                let mut ty: Vec<u8> = Vec::new();
                ty.push(116);
                ty.push(114);
                ty.push(97);
                ty.push(110);
                ty.push(115);
                ty.push(102);
                ty.push(101);
                ty.push(114);
                let event = Event { ty, attributes };
                proof {
                    assert(event@.attributes =~~= seq![
                        crate::model::AbsAttribute {
                            key: seq![
                                114u8,
                                101u8,
                                99u8,
                                105u8,
                                112u8,
                                105u8,
                                101u8,
                                110u8,
                                116u8,
                            ],
                            value: to_address@,
                        },
                        crate::model::AbsAttribute {
                            key: seq![115u8, 101u8, 110u8, 100u8, 101u8, 114u8],
                            value: sender@,
                        },
                        crate::model::AbsAttribute {
                            key: seq![97u8, 109u8, 111u8, 117u8, 110u8, 116u8],
                            value: spec_coins_str(amount.deep_view()),
                        },
                    ]);
                    assert(event@ =~~= (crate::model::AbsEvent {
                        ty: seq![116u8, 114u8, 97u8, 110u8, 115u8, 102u8, 101u8, 114u8],
                        attributes: event@.attributes,
                    }));
                }
                match self.send(
                    ledger,
                    sender,
                    fetched_sender,
                    to_address,
                    fetched_recipient,
                    amount,
                ) {
                    Ok(_) => {},
                    Err(e) => {
                        return Err(e);
                    },
                }
                let ghost ev = event@;
                let mut events: Vec<Event> = Vec::new();
                events.push(event);
                proof {
                    assert(events.deep_view() =~= seq![ev]);
                }
                Ok(events)
            },
            BankMsg::Burn { amount } => {
                match self.burn(ledger, sender, fetched_sender, amount) {
                    Ok(_) => {},
                    Err(e) => {
                        return Err(e);
                    },
                }
                let events: Vec<Event> = Vec::new();
                proof {
                    assert(events.deep_view() =~= Seq::<crate::model::AbsEvent>::empty());
                }
                Ok(events)
            },
        }
    }

    /// Performs an administrative bank operation: minting credits the
    /// address exactly as `mint` does, succeeding under the same condition.
    pub fn sudo(
        &self,
        ledger: &mut BankLedger,
        msg: &BankSudo,
        fetched: &Vec<Coin>,
    ) -> (r: Result<(), BankError>)
        ensures
            match msg {
                BankSudo::Mint { to_address, amount } => {
                    &&& (r is Ok) == (spec_drop_zero(amount.deep_view()).len() > 0 && (forall|
                        d: Seq<u8>,
                    |
                        #[trigger] total_of(
                            spec_resolved(
                                old(ledger).rows_view(),
                                to_address@,
                                fetched.deep_view(),
                            ),
                            d,
                        ) + total_of(spec_drop_zero(amount.deep_view()), d) <= u128::MAX))
                    &&& (r matches Ok(_) ==> (forall|d: Seq<u8>|
                        #[trigger] total_of(
                            spec_resolved(final(ledger).rows_view(), to_address@, Seq::empty()),
                            d,
                        ) == total_of(
                            spec_resolved(
                                old(ledger).rows_view(),
                                to_address@,
                                fetched.deep_view(),
                            ),
                            d,
                        ) + total_of(spec_drop_zero(amount.deep_view()), d)) && (forall|
                        a: Seq<u8>,
                    |
                        a != to_address@ ==> #[trigger] assoc(final(ledger).rows_view(), a)
                            == assoc(old(ledger).rows_view(), a)))
                    &&& (r is Err ==> final(ledger).rows_view() == old(ledger).rows_view())
                },
            },
    {
        match msg {
            BankSudo::Mint { to_address, amount } => self.mint(ledger, to_address, fetched, amount),
        }
    }
}

/// The amount of one denomination among owned coins, if present.
fn find_ledger_coin(coins: &Vec<Coin>, denom: &Vec<u8>) -> (r: Option<u128>)
    ensures
        r == crate::querier::coin_amount(coins.deep_view(), denom@),
{
    let ghost dv = coins.deep_view();
    proof {
        assert(dv.skip(0) =~= dv);
    }
    let mut i: usize = 0;
    while i < coins.len()
        invariant
            i <= coins@.len(),
            dv == coins.deep_view(),
            coins@.len() == dv.len(),
            crate::querier::coin_amount(dv, denom@) == crate::querier::coin_amount(
                dv.skip(i as int),
                denom@,
            ),
        decreases coins@.len() - i,
    {
        proof {
            assert(dv.skip(i as int)[0] == dv[i as int]);
            assert(dv.skip(i as int).drop_first() =~= dv.skip(i + 1));
            assert(dv[i as int] == coins@[i as int]@);
        }
        if crate::keys::key_eq(coins[i].denom.as_slice(), denom.as_slice()) {
            return Some(coins[i].amount);
        }
        i += 1;
    }
    assert(dv.skip(i as int).len() == 0);
    None
}

} // verus!
