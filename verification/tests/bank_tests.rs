use fork_multi_test::bank::coins_to_string;
use fork_multi_test::bank::normalize_amount;
use fork_multi_test::bank::BankError;
use fork_multi_test::bank::BankKeeper;
use fork_multi_test::bank::BankLedger;
use fork_multi_test::model::Coin;

fn coins(list: &[(&[u8], u128)]) -> Vec<Coin> {
    list.iter().map(|(d, a)| Coin { denom: d.to_vec(), amount: *a }).collect()
}

#[test]
fn normalize_drops_zero_coins() {
    let r = normalize_amount(&coins(&[(b"ujuno", 0), (b"uatom", 5)])).unwrap();
    assert_eq!(r.len(), 1);
    assert_eq!(r[0].denom, b"uatom".to_vec());
    assert_eq!(r[0].amount, 5);
}

#[test]
fn normalize_rejects_an_empty_amount() {
    assert_eq!(normalize_amount(&coins(&[])), Err(BankError::EmptyAmount));
    assert_eq!(
        normalize_amount(&coins(&[(b"ujuno", 0)])),
        Err(BankError::EmptyAmount)
    );
}

#[test]
fn mint_credits_the_recipient() {
    let keeper = BankKeeper::new();
    let mut ledger = BankLedger::new();
    let none: Vec<Coin> = vec![];
    keeper
        .mint(&mut ledger, &b"alice".to_vec(), &none, &coins(&[(b"ujuno", 100)]))
        .unwrap();
    let b = ledger.balance_of(&b"alice".to_vec()).unwrap();
    assert_eq!(b.len(), 1);
    assert_eq!(b[0].amount, 100);
    keeper
        .mint(&mut ledger, &b"alice".to_vec(), &none, &coins(&[(b"ujuno", 1)]))
        .unwrap();
    let b = ledger.balance_of(&b"alice".to_vec()).unwrap();
    assert_eq!(b[0].amount, 101);
}

#[test]
fn mint_on_an_unlisted_address_starts_from_the_fetched_balance() {
    // the remote chain holds 40; local and remote are alternatives, never
    // summed with an existing local row
    let keeper = BankKeeper::new();
    let mut ledger = BankLedger::new();
    let fetched = coins(&[(b"ujuno", 40)]);
    keeper
        .mint(&mut ledger, &b"bob".to_vec(), &fetched, &coins(&[(b"ujuno", 2)]))
        .unwrap();
    let b = ledger.balance_of(&b"bob".to_vec()).unwrap();
    assert_eq!(b[0].amount, 42);
}

#[test]
fn burn_rejects_insufficient_funds_and_changes_nothing() {
    let keeper = BankKeeper::new();
    let mut ledger = BankLedger::new();
    let none: Vec<Coin> = vec![];
    keeper
        .mint(&mut ledger, &b"alice".to_vec(), &none, &coins(&[(b"ujuno", 10)]))
        .unwrap();
    let r = keeper.burn(&mut ledger, &b"alice".to_vec(), &none, &coins(&[(b"ujuno", 11)]));
    assert_eq!(r, Err(BankError::InsufficientFunds));
    let b = ledger.balance_of(&b"alice".to_vec()).unwrap();
    assert_eq!(b[0].amount, 10);
}

#[test]
fn burn_of_an_unknown_denomination_is_insufficient() {
    let keeper = BankKeeper::new();
    let mut ledger = BankLedger::new();
    let none: Vec<Coin> = vec![];
    keeper
        .mint(&mut ledger, &b"alice".to_vec(), &none, &coins(&[(b"ujuno", 10)]))
        .unwrap();
    let r = keeper.burn(&mut ledger, &b"alice".to_vec(), &none, &coins(&[(b"uatom", 1)]));
    assert_eq!(r, Err(BankError::InsufficientFunds));
}

#[test]
fn send_moves_coins_between_accounts() {
    let keeper = BankKeeper::new();
    let mut ledger = BankLedger::new();
    let none: Vec<Coin> = vec![];
    keeper
        .mint(&mut ledger, &b"alice".to_vec(), &none, &coins(&[(b"ujuno", 100)]))
        .unwrap();
    keeper
        .send(
            &mut ledger,
            &b"alice".to_vec(),
            &none,
            &b"bob".to_vec(),
            &none,
            &coins(&[(b"ujuno", 30)]),
        )
        .unwrap();
    assert_eq!(ledger.balance_of(&b"alice".to_vec()).unwrap()[0].amount, 70);
    assert_eq!(ledger.balance_of(&b"bob".to_vec()).unwrap()[0].amount, 30);
}

#[test]
fn mint_overflow_is_rejected() {
    let keeper = BankKeeper::new();
    let mut ledger = BankLedger::new();
    let none: Vec<Coin> = vec![];
    keeper
        .mint(&mut ledger, &b"alice".to_vec(), &none, &coins(&[(b"ujuno", u128::MAX)]))
        .unwrap();
    let r = keeper.mint(&mut ledger, &b"alice".to_vec(), &none, &coins(&[(b"ujuno", 1)]));
    assert_eq!(r, Err(BankError::AmountOverflow));
}

#[test]
fn failing_credit_leaves_the_debit_unapplied() {
    // a transfer whose credit overflows must not leave a half-applied
    // debit behind
    let keeper = BankKeeper::new();
    let mut ledger = BankLedger::new();
    let none: Vec<Coin> = vec![];
    keeper
        .mint(&mut ledger, &b"alice".to_vec(), &none, &coins(&[(b"ujuno", 10)]))
        .unwrap();
    keeper
        .mint(&mut ledger, &b"bob".to_vec(), &none, &coins(&[(b"ujuno", u128::MAX)]))
        .unwrap();
    let r = keeper.send(
        &mut ledger,
        &b"alice".to_vec(),
        &none,
        &b"bob".to_vec(),
        &none,
        &coins(&[(b"ujuno", 5)]),
    );
    assert_eq!(r, Err(BankError::AmountOverflow));
    assert_eq!(ledger.balance_of(&b"alice".to_vec()).unwrap()[0].amount, 10);
    assert_eq!(ledger.balance_of(&b"bob".to_vec()).unwrap()[0].amount, u128::MAX);
}

#[test]
fn transfer_to_oneself_changes_nothing() {
    let keeper = BankKeeper::new();
    let mut ledger = BankLedger::new();
    let none: Vec<Coin> = vec![];
    keeper
        .mint(&mut ledger, &b"alice".to_vec(), &none, &coins(&[(b"ujuno", 10)]))
        .unwrap();
    keeper
        .send(
            &mut ledger,
            &b"alice".to_vec(),
            &none,
            &b"alice".to_vec(),
            &none,
            &coins(&[(b"ujuno", 4)]),
        )
        .unwrap();
    assert_eq!(ledger.balance_of(&b"alice".to_vec()).unwrap()[0].amount, 10);
}

#[test]
fn init_balance_replaces_the_row_canonically() {
    let keeper = BankKeeper::new();
    let mut ledger = BankLedger::new();
    keeper
        .init_balance(
            &mut ledger,
            &b"alice".to_vec(),
            coins(&[(b"ujuno", 5), (b"uatom", 2), (b"ujuno", 7), (b"uzero", 0)]),
        )
        .unwrap();
    let b = ledger.balance_of(&b"alice".to_vec()).unwrap();
    // canonical: denominations sorted, duplicates merged, zeros dropped
    assert_eq!(b.len(), 2);
    assert_eq!(b[0].denom, b"uatom".to_vec());
    assert_eq!(b[0].amount, 2);
    assert_eq!(b[1].denom, b"ujuno".to_vec());
    assert_eq!(b[1].amount, 12);
}

#[test]
fn coins_render_with_amount_then_denomination() {
    let r = coins_to_string(&coins(&[(b"atom", 12), (b"uosmo", 5)]));
    assert_eq!(r, b"12atom,5uosmo".to_vec());
    let empty: Vec<Coin> = vec![];
    assert_eq!(coins_to_string(&empty), Vec::<u8>::new());
    assert_eq!(coins_to_string(&coins(&[(b"ujuno", 0)])), b"0ujuno".to_vec());
}
