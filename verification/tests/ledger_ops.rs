use lot_ledger::date::Date;
use lot_ledger::ledger::Db;
use lot_ledger::lot::{Acquisition, AcquisitionKind, Lot, Token, TrackedAccount};
use lot_ledger::select::LotSelectionMethod;
use lot_ledger::LedgerError;

fn date(y: u16, m: u8, d: u8) -> Date {
    Date::new(y, m, d).unwrap()
}

fn lot(number: u64, amount: u64, y: u16, m: u8, d: u8, price: u64) -> Lot {
    Lot {
        lot_number: number,
        amount,
        acquisition: Acquisition { when: date(y, m, d), price, kind: AcquisitionKind::Purchase },
    }
}

fn funded_db() -> Db {
    let mut db = Db::new();
    db.update_account(TrackedAccount {
        address: 10,
        token: Token::Native,
        lots: vec![lot(1, 100, 2020, 1, 1, 10), lot(2, 50, 2021, 6, 15, 20)],
        last_update_balance: 150,
    })
    .unwrap();
    db.update_account(TrackedAccount {
        address: 20,
        token: Token::Native,
        lots: vec![],
        last_update_balance: 0,
    })
    .unwrap();
    db
}

#[test]
fn record_then_cancel_restores_ledger_exactly() {
    let mut db = funded_db();
    let before_lots = db.get_account(10, Token::Native).unwrap().lots.clone();
    let before_balance = db.get_account(10, Token::Native).unwrap().last_update_balance;

    db.record_transfer(
        7,
        1000,
        Some(120),
        10,
        Token::Native,
        20,
        Token::Native,
        15,
        LotSelectionMethod::FirstInFirstOut,
        None,
    )
    .unwrap();
    // the provisional debit split the second lot
    let mid = db.get_account(10, Token::Native).unwrap();
    assert_eq!(mid.lots.len(), 1);
    assert_eq!(mid.lots[0].amount, 30);

    db.cancel_transfer(7).unwrap();
    let after = db.get_account(10, Token::Native).unwrap();
    assert_eq!(after.lots, before_lots);
    assert_eq!(after.last_update_balance, before_balance);
    assert_eq!(db.disposed_lots().len(), 0);
}

#[test]
fn overlapping_transfers_cancel_in_reverse_order() {
    let mut db = funded_db();
    let before_lots = db.get_account(10, Token::Native).unwrap().lots.clone();
    db.record_transfer(
        1,
        1000,
        Some(120),
        10,
        Token::Native,
        20,
        Token::Native,
        15,
        LotSelectionMethod::FirstInFirstOut,
        None,
    )
    .unwrap();
    // the second transfer consumes the residual the first one left
    db.record_transfer(
        2,
        1000,
        Some(30),
        10,
        Token::Native,
        20,
        Token::Native,
        15,
        LotSelectionMethod::FirstInFirstOut,
        None,
    )
    .unwrap();
    assert!(db.get_account(10, Token::Native).unwrap().lots.is_empty());
    // cancelling the first transfer now cannot find its residual lot; the
    // ledger refuses and stays unchanged rather than half-applying
    assert_eq!(
        db.cancel_transfer(1).unwrap_err(),
        LedgerError::LedgerInvariantViolation
    );
    assert!(db.get_account(10, Token::Native).unwrap().lots.is_empty());
    // unwinding in reverse order restores the original state exactly
    db.cancel_transfer(2).unwrap();
    db.cancel_transfer(1).unwrap();
    assert_eq!(db.get_account(10, Token::Native).unwrap().lots, before_lots);
}

#[test]
fn confirm_to_untracked_destination_disposes_exact_amount() {
    let mut db = funded_db();
    db.record_transfer(
        8,
        1000,
        Some(120),
        10,
        Token::Native,
        999,
        Token::Native,
        15,
        LotSelectionMethod::FirstInFirstOut,
        None,
    )
    .unwrap();
    db.confirm_transfer(8, date(2022, 3, 1)).unwrap();

    let disposed = db.disposed_lots();
    assert_eq!(disposed.len(), 2);
    let total: u64 = disposed.iter().map(|d| d.lot.amount).sum();
    assert_eq!(total, 120);
    for d in disposed.iter() {
        assert_eq!(d.price, 15);
        // no disposed number collides with a surviving live lot
        for a in db.accounts().iter() {
            for l in a.lots.iter() {
                assert_ne!(d.lot.lot_number, l.lot_number);
            }
        }
    }
}

#[test]
fn confirm_to_tracked_destination_moves_lots_without_gain() {
    let mut db = funded_db();
    db.record_transfer(
        9,
        1000,
        None,
        10,
        Token::Native,
        20,
        Token::Native,
        15,
        LotSelectionMethod::FirstInFirstOut,
        None,
    )
    .unwrap();
    db.confirm_transfer(9, date(2022, 3, 1)).unwrap();

    assert_eq!(db.disposed_lots().len(), 0);
    let dest = db.get_account(20, Token::Native).unwrap();
    assert_eq!(dest.lots, vec![lot(1, 100, 2020, 1, 1, 10), lot(2, 50, 2021, 6, 15, 20)]);
    let source = db.get_account(10, Token::Native).unwrap();
    assert!(source.lots.is_empty());
}

#[test]
fn confirm_refuses_a_move_that_would_duplicate_a_lot_number() {
    // two accounts loaded with the same lot number: a confirmed move
    // between them cannot fit and must leave the ledger untouched
    let mut db = Db::new();
    db.update_account(TrackedAccount {
        address: 1,
        token: Token::Native,
        lots: vec![lot(1, 10, 2020, 1, 1, 5)],
        last_update_balance: 10,
    })
    .unwrap();
    db.update_account(TrackedAccount {
        address: 2,
        token: Token::Native,
        lots: vec![lot(1, 10, 2020, 2, 2, 5)],
        last_update_balance: 10,
    })
    .unwrap();
    let numbers = vec![1u64];
    db.record_transfer(
        3,
        100,
        None,
        1,
        Token::Native,
        2,
        Token::Native,
        5,
        LotSelectionMethod::FirstInFirstOut,
        Some(&numbers),
    )
    .unwrap();
    let before_b = db.get_account(2, Token::Native).unwrap().lots.clone();
    assert_eq!(
        db.confirm_transfer(3, date(2022, 1, 1)).unwrap_err(),
        LedgerError::LedgerInvariantViolation
    );
    assert_eq!(db.get_account(2, Token::Native).unwrap().lots, before_b);
    // the transfer is still pending, so the debit can still be reversed
    db.cancel_transfer(3).unwrap();
    assert_eq!(
        db.get_account(1, Token::Native).unwrap().lots,
        vec![lot(1, 10, 2020, 1, 1, 5)]
    );
}

#[test]
fn record_rejects_duplicate_signature() {
    let mut db = funded_db();
    db.record_transfer(
        5,
        1000,
        Some(10),
        10,
        Token::Native,
        20,
        Token::Native,
        15,
        LotSelectionMethod::FirstInFirstOut,
        None,
    )
    .unwrap();
    let err = db
        .record_transfer(
            5,
            1000,
            Some(10),
            10,
            Token::Native,
            20,
            Token::Native,
            15,
            LotSelectionMethod::FirstInFirstOut,
            None,
        )
        .unwrap_err();
    assert_eq!(err, LedgerError::DuplicateSignature);
}

#[test]
fn record_rejects_unknown_account_and_insufficient_lots() {
    let mut db = funded_db();
    let err = db
        .record_transfer(
            6,
            1000,
            Some(10),
            77,
            Token::Native,
            20,
            Token::Native,
            15,
            LotSelectionMethod::FirstInFirstOut,
            None,
        )
        .unwrap_err();
    assert_eq!(err, LedgerError::UnknownAccount);

    let err = db
        .record_transfer(
            6,
            1000,
            Some(1000),
            10,
            Token::Native,
            20,
            Token::Native,
            15,
            LotSelectionMethod::FirstInFirstOut,
            None,
        )
        .unwrap_err();
    assert_eq!(err, LedgerError::InsufficientLots);
}

#[test]
fn cancel_rejects_unknown_and_finalized_transfers() {
    let mut db = funded_db();
    assert_eq!(db.cancel_transfer(42).unwrap_err(), LedgerError::UnknownSignature);

    db.record_transfer(
        11,
        1000,
        Some(10),
        10,
        Token::Native,
        20,
        Token::Native,
        15,
        LotSelectionMethod::FirstInFirstOut,
        None,
    )
    .unwrap();
    db.cancel_transfer(11).unwrap();
    assert_eq!(db.cancel_transfer(11).unwrap_err(), LedgerError::AlreadyFinalized);
    assert_eq!(
        db.confirm_transfer(11, date(2022, 1, 1)).unwrap_err(),
        LedgerError::AlreadyFinalized
    );
}

#[test]
fn remove_account_requires_empty_lot_set() {
    let mut db = funded_db();
    assert_eq!(
        db.remove_account(10, Token::Native).unwrap_err(),
        LedgerError::AccountNotEmpty
    );
    db.remove_account(20, Token::Native).unwrap();
    assert_eq!(
        db.remove_account(20, Token::Native).unwrap_err(),
        LedgerError::UnknownAccount
    );
}

#[test]
fn update_account_rejects_malformed_lot_state() {
    let mut db = Db::new();
    let err = db
        .update_account(TrackedAccount {
            address: 1,
            token: Token::Native,
            lots: vec![lot(2, 10, 2020, 1, 1, 1), lot(1, 10, 2020, 1, 2, 1)],
            last_update_balance: 20,
        })
        .unwrap_err();
    assert_eq!(err, LedgerError::InvalidAccount);

    let err = db
        .update_account(TrackedAccount {
            address: 1,
            token: Token::Native,
            lots: vec![lot(1, 0, 2020, 1, 1, 1)],
            last_update_balance: 0,
        })
        .unwrap_err();
    assert_eq!(err, LedgerError::InvalidAccount);
}

#[test]
fn update_account_advances_lot_number_counter() {
    let mut db = Db::new();
    assert_eq!(db.next_lot_number(), 1);
    db.update_account(TrackedAccount {
        address: 1,
        token: Token::Native,
        lots: vec![lot(4, 10, 2020, 1, 1, 1)],
        last_update_balance: 10,
    })
    .unwrap();
    assert_eq!(db.next_lot_number(), 5);
}

#[test]
fn record_drop_disposes_immediately_without_transfer_record() {
    let mut db = funded_db();
    db.record_drop(
        10,
        Token::Native,
        Some(30),
        25,
        date(2022, 5, 1),
        LotSelectionMethod::LastInFirstOut,
        None,
    )
    .unwrap();
    let disposed = db.disposed_lots();
    assert_eq!(disposed.len(), 1);
    // LIFO consumed from the newest lot
    assert_eq!(disposed[0].lot.amount, 30);
    assert_eq!(disposed[0].lot.acquisition.when, date(2021, 6, 15));
    assert_eq!(disposed[0].when, date(2022, 5, 1));
    // a residual lot with a fresh number carries the rest of the split lot
    let acct = db.get_account(10, Token::Native).unwrap();
    let residual = acct.lots.iter().find(|l| l.amount == 20).unwrap();
    assert_eq!(residual.acquisition, Acquisition {
        when: date(2021, 6, 15),
        price: 20,
        kind: AcquisitionKind::Purchase
    });
    assert!(residual.lot_number > 2);
}

#[test]
fn adjust_balance_absorbs_small_shortfall_into_oldest_lot() {
    let mut db = Db::new();
    db.update_account(TrackedAccount {
        address: 1,
        token: Token::Native,
        lots: vec![lot(1, 500, 2020, 1, 1, 10), lot(2, 500, 2021, 1, 1, 10)],
        last_update_balance: 1000,
    })
    .unwrap();
    let adjusted = db.adjust_balance(1, Token::Native, 995).unwrap();
    assert!(adjusted);
    let acct = db.get_account(1, Token::Native).unwrap();
    assert_eq!(acct.last_update_balance, 995);
    assert_eq!(acct.lots[0].amount, 495);
    assert_eq!(acct.lots[1].amount, 500);
}

#[test]
fn adjust_balance_leaves_ledger_alone_when_shortfall_too_large() {
    let mut db = Db::new();
    db.update_account(TrackedAccount {
        address: 1,
        token: Token::Native,
        lots: vec![lot(1, 3, 2020, 1, 1, 10), lot(2, 997, 2021, 1, 1, 10)],
        last_update_balance: 1000,
    })
    .unwrap();
    let adjusted = db.adjust_balance(1, Token::Native, 995).unwrap();
    assert!(!adjusted);
    let acct = db.get_account(1, Token::Native).unwrap();
    assert_eq!(acct.last_update_balance, 1000);
    assert_eq!(acct.lots[0].amount, 3);
    assert_eq!(acct.lots[1].amount, 997);

    assert_eq!(
        db.adjust_balance(9, Token::Native, 995).unwrap_err(),
        LedgerError::UnknownAccount
    );
}

#[test]
fn persisted_state_reloads_and_rejects_corruption() {
    let mut db = funded_db();
    db.record_drop(
        10,
        Token::Native,
        Some(10),
        12,
        date(2022, 1, 1),
        LotSelectionMethod::FirstInFirstOut,
        None,
    )
    .unwrap();
    let accounts: Vec<TrackedAccount> = db
        .accounts()
        .iter()
        .map(|a| TrackedAccount {
            address: a.address,
            token: a.token,
            lots: a.lots.clone(),
            last_update_balance: a.last_update_balance,
        })
        .collect();
    let disposed = db.disposed_lots().clone();
    let reloaded = Db::load(accounts, disposed, db.next_lot_number(), db.get_tax_rate()).unwrap();
    assert_eq!(reloaded.disposed_lots(), db.disposed_lots());
    assert_eq!(reloaded.next_lot_number(), db.next_lot_number());
    assert_eq!(
        reloaded.get_account(10, Token::Native).unwrap().lots,
        db.get_account(10, Token::Native).unwrap().lots
    );

    // two accounts under one key cannot be loaded
    let dup = vec![
        TrackedAccount { address: 1, token: Token::Native, lots: vec![], last_update_balance: 0 },
        TrackedAccount { address: 1, token: Token::Native, lots: vec![], last_update_balance: 0 },
    ];
    assert!(matches!(Db::load(dup, vec![], 1, None), Err(LedgerError::InvalidAccount)));
    // a lot numbered past the counter cannot be loaded
    let high = vec![TrackedAccount {
        address: 1,
        token: Token::Native,
        lots: vec![lot(9, 5, 2020, 1, 1, 1)],
        last_update_balance: 5,
    }];
    assert!(matches!(Db::load(high, vec![], 3, None), Err(LedgerError::InvalidAccount)));
}

#[test]
fn explicit_lot_numbers_override_policy_and_amount() {
    let mut db = funded_db();
    let numbers = vec![2u64];
    db.record_transfer(
        13,
        1000,
        Some(9999),
        10,
        Token::Native,
        999,
        Token::Native,
        15,
        LotSelectionMethod::FirstInFirstOut,
        Some(&numbers),
    )
    .unwrap();
    db.confirm_transfer(13, date(2022, 1, 1)).unwrap();
    let disposed = db.disposed_lots();
    assert_eq!(disposed.len(), 1);
    assert_eq!(disposed[0].lot.lot_number, 2);
    assert_eq!(disposed[0].lot.amount, 50);
    let acct = db.get_account(10, Token::Native).unwrap();
    assert_eq!(acct.lots, vec![lot(1, 100, 2020, 1, 1, 10)]);
}
