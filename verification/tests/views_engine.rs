use lot_ledger::date::Date;
use lot_ledger::engine::{
    finish_withdraw, lifecycle_next, plan_withdraw, record_withdraw, settle_token_withdrawal,
    withdraw_route, TxEvent, TxLifecycle, WithdrawRoute,
};
use lot_ledger::ledger::Db;
use lot_ledger::lot::{Acquisition, AcquisitionKind, Lot, Token, TrackedAccount};
use lot_ledger::select::LotSelectionMethod;
use lot_ledger::view::{
    selected_amount, sort_lots, totals_by_token, update_selection, SortKey,
};
use lot_ledger::LedgerError;

fn date(y: u16, m: u8, d: u8) -> Date {
    Date::new(y, m, d).unwrap()
}

fn lot(number: u64, amount: u64, y: u16, m: u8, d: u8, price: u64) -> Lot {
    Lot {
        lot_number: number,
        amount,
        acquisition: Acquisition { when: date(y, m, d), price, kind: AcquisitionKind::Purchase },
    }
}

#[test]
fn sorting_orders_by_each_column() {
    let lots = vec![
        lot(2, 30, 2021, 1, 1, 5),
        lot(1, 10, 2022, 1, 1, 9),
        lot(3, 20, 2020, 1, 1, 7),
    ];
    let by_number: Vec<u64> = sort_lots(&lots, SortKey::Number, true).iter().map(|l| l.lot_number).collect();
    assert_eq!(by_number, vec![1, 2, 3]);
    let by_date: Vec<u64> = sort_lots(&lots, SortKey::Date, true).iter().map(|l| l.lot_number).collect();
    assert_eq!(by_date, vec![3, 2, 1]);
    let by_amount_desc: Vec<u64> =
        sort_lots(&lots, SortKey::Amount, false).iter().map(|l| l.lot_number).collect();
    assert_eq!(by_amount_desc, vec![2, 3, 1]);
    let by_price: Vec<u64> = sort_lots(&lots, SortKey::Price, true).iter().map(|l| l.lot_number).collect();
    assert_eq!(by_price, vec![2, 3, 1]);
}

#[test]
fn plain_click_selects_one_lot() {
    let lots = vec![lot(1, 1, 2020, 1, 1, 1), lot(2, 1, 2020, 1, 2, 1)];
    let r = update_selection(&lots, &vec![1, 2], 2, false, false);
    assert_eq!(r, vec![2]);
}

#[test]
fn meta_click_toggles_membership() {
    let lots = vec![lot(1, 1, 2020, 1, 1, 1), lot(2, 1, 2020, 1, 2, 1)];
    let mut r = update_selection(&lots, &vec![1, 2], 2, false, true);
    r.sort();
    assert_eq!(r, vec![1]);
    let mut r = update_selection(&lots, &vec![1], 2, false, true);
    r.sort();
    assert_eq!(r, vec![1, 2]);
}

#[test]
fn shift_click_extends_over_the_row_range() {
    let lots = vec![
        lot(1, 1, 2020, 1, 1, 1),
        lot(2, 1, 2020, 1, 2, 1),
        lot(3, 1, 2020, 1, 3, 1),
        lot(4, 1, 2020, 1, 4, 1),
    ];
    let mut r = update_selection(&lots, &vec![1], 3, true, false);
    r.sort();
    assert_eq!(r, vec![1, 2, 3]);
    // selecting backwards swaps the range ends
    let mut r = update_selection(&lots, &vec![4], 2, true, false);
    r.sort();
    assert_eq!(r, vec![2, 3, 4]);
}

#[test]
fn selected_amount_sums_only_selected_lots() {
    let lots = vec![lot(1, 100, 2020, 1, 1, 1), lot(2, 50, 2020, 1, 2, 1), lot(3, 7, 2020, 1, 3, 1)];
    assert_eq!(selected_amount(&lots, &vec![1, 3]), 107);
    assert_eq!(selected_amount(&lots, &vec![]), 0);
}

#[test]
fn totals_group_balances_by_token() {
    let accounts = vec![
        TrackedAccount { address: 1, token: Token::Native, lots: vec![], last_update_balance: 100 },
        TrackedAccount { address: 2, token: Token::Mint(5), lots: vec![], last_update_balance: 40 },
        TrackedAccount { address: 3, token: Token::Native, lots: vec![], last_update_balance: 60 },
    ];
    let totals = totals_by_token(&accounts);
    assert_eq!(totals.len(), 2);
    for (token, total) in totals.iter() {
        match token {
            Token::Native => assert_eq!(*total, 160),
            Token::Mint(5) => assert_eq!(*total, 40),
            _ => panic!("unexpected token"),
        }
    }
}

#[test]
fn lifecycle_walks_built_to_confirmed() {
    let s = TxLifecycle::Built;
    let s = lifecycle_next(s, TxEvent::SimulationOk).unwrap();
    assert_eq!(s, TxLifecycle::Simulated);
    let s = lifecycle_next(s, TxEvent::SignatureReady).unwrap();
    assert_eq!(s, TxLifecycle::Signed);
    let s = lifecycle_next(s, TxEvent::SubmissionStarted).unwrap();
    assert_eq!(s, TxLifecycle::Submitted);
    let s = lifecycle_next(s, TxEvent::SubmissionLanded).unwrap();
    assert_eq!(s, TxLifecycle::Confirmed);
}

#[test]
fn lifecycle_rejects_failed_simulation_and_expiry() {
    assert_eq!(
        lifecycle_next(TxLifecycle::Built, TxEvent::SimulationFailed).unwrap_err(),
        LedgerError::SimulationRejected
    );
    assert_eq!(
        lifecycle_next(TxLifecycle::Submitted, TxEvent::WindowExpired).unwrap_err(),
        LedgerError::BlockhashExpired
    );
    // terminal and mismatched states are misuse
    assert_eq!(
        lifecycle_next(TxLifecycle::Confirmed, TxEvent::SimulationOk).unwrap_err(),
        LedgerError::LedgerInvariantViolation
    );
    assert_eq!(
        lifecycle_next(TxLifecycle::Built, TxEvent::SubmissionLanded).unwrap_err(),
        LedgerError::LedgerInvariantViolation
    );
}

#[test]
fn withdraw_routes_native_and_token_balances_apart() {
    assert_eq!(withdraw_route(Token::Native), WithdrawRoute::StakeWithdrawal);
    assert_eq!(withdraw_route(Token::Mint(3)), WithdrawRoute::TokenTransfer);
}

fn withdraw_db() -> Db {
    let mut db = Db::new();
    db.update_account(TrackedAccount {
        address: 10,
        token: Token::Native,
        lots: vec![lot(1, 100, 2020, 1, 1, 10), lot(2, 50, 2021, 6, 15, 20)],
        last_update_balance: 150,
    })
    .unwrap();
    db.update_account(TrackedAccount {
        address: 20,
        token: Token::Native,
        lots: vec![],
        last_update_balance: 0,
    })
    .unwrap();
    db
}

#[test]
fn full_withdrawal_confirms_and_removes_the_emptied_account() {
    let mut db = withdraw_db();
    let plan = plan_withdraw(&db, 10, 20, None).unwrap();
    assert!(plan.withdraw_all);
    assert_eq!(plan.amount, 150);
    record_withdraw(
        &mut db,
        plan,
        77,
        5000,
        15,
        LotSelectionMethod::FirstInFirstOut,
        None,
    )
    .unwrap();
    finish_withdraw(&mut db, plan, 77, true, Some(date(2022, 2, 2))).unwrap();
    // the source account is gone, its lots moved to the destination
    assert!(db.get_account(10, Token::Native).is_none());
    let dest = db.get_account(20, Token::Native).unwrap();
    assert_eq!(dest.lots.len(), 2);
    assert_eq!(dest.lots.iter().map(|l| l.amount).sum::<u64>(), 150);
}

#[test]
fn expired_withdrawal_cancels_and_restores_the_ledger() {
    let mut db = withdraw_db();
    let before = db.get_account(10, Token::Native).unwrap().lots.clone();
    let plan = plan_withdraw(&db, 10, 20, Some(120)).unwrap();
    record_withdraw(
        &mut db,
        plan,
        78,
        5000,
        15,
        LotSelectionMethod::FirstInFirstOut,
        None,
    )
    .unwrap();
    let err = finish_withdraw(&mut db, plan, 78, false, None).unwrap_err();
    assert_eq!(err, LedgerError::BlockhashExpired);
    assert_eq!(db.get_account(10, Token::Native).unwrap().lots, before);
}

#[test]
fn landed_partial_withdrawal_confirms_and_keeps_the_account() {
    let mut db = withdraw_db();
    let plan = plan_withdraw(&db, 10, 20, Some(120)).unwrap();
    record_withdraw(
        &mut db,
        plan,
        79,
        5000,
        15,
        LotSelectionMethod::FirstInFirstOut,
        None,
    )
    .unwrap();
    finish_withdraw(&mut db, plan, 79, true, Some(date(2022, 2, 2))).unwrap();
    // the source keeps its residual lot, the destination received the rest
    let source = db.get_account(10, Token::Native).unwrap();
    assert_eq!(source.lots.iter().map(|l| l.amount).sum::<u64>(), 30);
    let dest = db.get_account(20, Token::Native).unwrap();
    assert_eq!(dest.lots.iter().map(|l| l.amount).sum::<u64>(), 120);
}

#[test]
fn token_withdrawal_debits_only_on_reported_success() {
    let mut db = Db::new();
    db.update_account(TrackedAccount {
        address: 5,
        token: Token::Mint(9),
        lots: vec![lot(1, 100, 2020, 1, 1, 10)],
        last_update_balance: 100,
    })
    .unwrap();
    // the external transfer reported failure: nothing moves
    let err = settle_token_withdrawal(
        &mut db,
        5,
        Token::Mint(9),
        Some(40),
        15,
        date(2022, 1, 1),
        None,
        false,
    )
    .unwrap_err();
    assert_eq!(err, LedgerError::NetworkUnavailable);
    assert_eq!(db.get_account(5, Token::Mint(9)).unwrap().lots.len(), 1);
    assert_eq!(db.disposed_lots().len(), 0);
    // the external transfer reported success: the lots leave immediately
    settle_token_withdrawal(
        &mut db,
        5,
        Token::Mint(9),
        Some(40),
        15,
        date(2022, 1, 1),
        None,
        true,
    )
    .unwrap();
    assert_eq!(db.disposed_lots().len(), 1);
    assert_eq!(db.disposed_lots()[0].lot.amount, 40);
    let acct = db.get_account(5, Token::Mint(9)).unwrap();
    assert_eq!(acct.lots.iter().map(|l| l.amount).sum::<u64>(), 60);
}

#[test]
fn withdrawal_planning_requires_both_accounts() {
    let db = withdraw_db();
    assert_eq!(plan_withdraw(&db, 99, 20, None).unwrap_err(), LedgerError::UnknownAccount);
    assert_eq!(plan_withdraw(&db, 10, 99, None).unwrap_err(), LedgerError::UnknownAccount);
    let plan = plan_withdraw(&db, 10, 20, Some(42)).unwrap();
    assert!(!plan.withdraw_all);
    assert_eq!(plan.amount, 42);
}

#[test]
fn error_descriptions_name_each_condition() {
    let all = [
        LedgerError::SimulationRejected,
        LedgerError::InsufficientLots,
        LedgerError::UnknownSignature,
        LedgerError::AlreadyFinalized,
        LedgerError::BlockhashExpired,
        LedgerError::NetworkUnavailable,
        LedgerError::LedgerInvariantViolation,
        LedgerError::UnknownAccount,
        LedgerError::DuplicateSignature,
        LedgerError::AccountNotEmpty,
        LedgerError::InvalidAccount,
    ];
    for e in all.iter() {
        assert!(!e.describe().is_empty());
    }
    assert!(LedgerError::InsufficientLots.describe().contains("amount"));
    assert!(LedgerError::BlockhashExpired.describe().contains("expired"));
    assert!(LedgerError::SimulationRejected.describe().contains("simulation"));
}
