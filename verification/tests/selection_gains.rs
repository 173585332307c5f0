use lot_ledger::date::{days_between, today, Date};
use lot_ledger::gains::{
    aggregate_disposed, classify_term, lot_gain, rates_or_default, selected_as_disposed, Term,
    DEFAULT_LONG_TERM_BP, DEFAULT_SHORT_TERM_BP,
};
use lot_ledger::ledger::Db;
use lot_ledger::lot::{Acquisition, AcquisitionKind, Lot, Token, TrackedAccount};
use lot_ledger::select::{select_lots, LotSelectionMethod};
use lot_ledger::{LedgerError, TaxRates};

fn date(y: u16, m: u8, d: u8) -> Date {
    Date::new(y, m, d).unwrap()
}

fn lot_kind(number: u64, amount: u64, y: u16, m: u8, d: u8, price: u64, kind: AcquisitionKind) -> Lot {
    Lot { lot_number: number, amount, acquisition: Acquisition { when: date(y, m, d), price, kind } }
}

fn lot(number: u64, amount: u64, y: u16, m: u8, d: u8, price: u64) -> Lot {
    lot_kind(number, amount, y, m, d, price, AcquisitionKind::Purchase)
}

#[test]
fn fifo_selects_chronologically_oldest_lots_first() {
    let lots = vec![
        lot(1, 40, 2021, 5, 1, 10),
        lot(2, 50, 2019, 2, 1, 10),
        lot(3, 30, 2020, 8, 1, 10),
    ];
    let sel = select_lots(&lots, Some(50), LotSelectionMethod::FirstInFirstOut, None, 4).unwrap();
    assert_eq!(sel.consumed.len(), 1);
    assert_eq!(sel.consumed[0].lot_number, 2);
    assert_eq!(sel.amount, 50);
    assert!(sel.split.is_none());
}

#[test]
fn lifo_selects_newest_lots_first() {
    let lots = vec![
        lot(1, 40, 2021, 5, 1, 10),
        lot(2, 50, 2019, 2, 1, 10),
        lot(3, 30, 2020, 8, 1, 10),
    ];
    let sel = select_lots(&lots, Some(40), LotSelectionMethod::LastInFirstOut, None, 4).unwrap();
    assert_eq!(sel.consumed.len(), 1);
    assert_eq!(sel.consumed[0].lot_number, 1);
}

#[test]
fn highest_cost_selects_priciest_lots_first() {
    let lots = vec![
        lot(1, 40, 2021, 5, 1, 10),
        lot(2, 50, 2019, 2, 1, 30),
        lot(3, 30, 2020, 8, 1, 20),
    ];
    let sel = select_lots(&lots, Some(50), LotSelectionMethod::HighestCostFirst, None, 4).unwrap();
    assert_eq!(sel.consumed.len(), 1);
    assert_eq!(sel.consumed[0].lot_number, 2);
}

#[test]
fn exact_sum_leaves_zero_residual_lots() {
    let lots = vec![lot(1, 40, 2020, 1, 1, 10), lot(2, 60, 2021, 1, 1, 10)];
    let sel = select_lots(&lots, Some(100), LotSelectionMethod::FirstInFirstOut, None, 3).unwrap();
    assert!(sel.split.is_none());
    assert!(sel.remaining.is_empty());
    assert_eq!(sel.consumed.iter().map(|l| l.amount).sum::<u64>(), 100);
}

#[test]
fn withdraw_all_consumes_everything_with_no_residual() {
    let lots = vec![lot(1, 40, 2020, 1, 1, 10), lot(2, 60, 2021, 1, 1, 10)];
    let sel = select_lots(&lots, None, LotSelectionMethod::FirstInFirstOut, None, 3).unwrap();
    assert!(sel.remaining.is_empty());
    assert!(sel.split.is_none());
    assert_eq!(sel.amount, 100);
    assert!(sel.consumed.iter().all(|l| l.amount > 0));
}

#[test]
fn partial_consumption_splits_with_fresh_lot_number() {
    let lots = vec![lot(1, 100, 2020, 1, 1, 10), lot(2, 50, 2021, 1, 1, 10)];
    let sel = select_lots(&lots, Some(120), LotSelectionMethod::FirstInFirstOut, None, 3).unwrap();
    let split = sel.split.unwrap();
    assert_eq!(split.consumed_number, 2);
    assert_eq!(split.residual_number, 3);
    assert_eq!(sel.next_lot_number, 4);
    let residual = sel.remaining.last().unwrap();
    assert_eq!(residual.lot_number, 3);
    assert_eq!(residual.amount, 30);
    assert_eq!(residual.acquisition.when, date(2021, 1, 1));
    assert_eq!(sel.consumed.iter().map(|l| l.amount).sum::<u64>(), 120);
}

#[test]
fn selection_fails_only_on_insufficient_total() {
    let lots = vec![lot(1, 100, 2020, 1, 1, 10)];
    assert_eq!(
        select_lots(&lots, Some(101), LotSelectionMethod::FirstInFirstOut, None, 2).unwrap_err(),
        LedgerError::InsufficientLots
    );
    assert!(select_lots(&lots, Some(100), LotSelectionMethod::FirstInFirstOut, None, 2).is_ok());
}

#[test]
fn holding_period_boundary_falls_at_365_days() {
    // 2020 is a leap year: 2020-01-01 to 2020-12-30 is 364 days
    let acq = date(2020, 1, 1);
    assert_eq!(days_between(acq, date(2020, 12, 30)), 364);
    assert_eq!(classify_term(acq, date(2020, 12, 30)), Term::Short);
    assert_eq!(days_between(acq, date(2020, 12, 31)), 365);
    assert_eq!(classify_term(acq, date(2020, 12, 31)), Term::Long);
    assert_eq!(classify_term(acq, date(2021, 6, 1)), Term::Long);
}

#[test]
fn date_arithmetic_agrees_with_chrono() {
    let samples = [
        (1999u16, 12u8, 31u8),
        (2000, 2, 29),
        (2020, 1, 1),
        (2021, 6, 15),
        (2100, 3, 1),
        (1, 1, 1),
    ];
    for &(y1, m1, d1) in samples.iter() {
        for &(y2, m2, d2) in samples.iter() {
            let a = date(y1, m1, d1);
            let b = date(y2, m2, d2);
            let ca = chrono::NaiveDate::from_ymd_opt(y1 as i32, m1 as u32, d1 as u32).unwrap();
            let cb = chrono::NaiveDate::from_ymd_opt(y2 as i32, m2 as u32, d2 as u32).unwrap();
            assert_eq!(
                days_between(a, b) as i64,
                cb.signed_duration_since(ca).num_days()
            );
        }
    }
}

#[test]
fn date_construction_rejects_impossible_days() {
    assert!(Date::new(2020, 2, 29).is_some());
    assert!(Date::new(2021, 2, 29).is_none());
    assert!(Date::new(2021, 4, 31).is_none());
    assert!(Date::new(2021, 13, 1).is_none());
    assert!(Date::new(0, 1, 1).is_none());
    assert!(Date::new(2100, 2, 29).is_none());
    assert!(Date::new(2000, 2, 29).is_some());
}

#[test]
fn today_reads_a_real_calendar_date() {
    let t = today().unwrap();
    assert!(1 <= t.month && t.month <= 12);
    assert!(1 <= t.day && t.day <= 31);
    assert!(t.year >= 2020);
}

#[test]
fn end_to_end_disposal_realises_two_hundred_fifty() {
    // lots [{lot 1, 100 units at $10}, {lot 2, 50 units at $20}], all
    // disposed at $15: gain = 100*(15-10) + 50*(15-20) = 250
    let mut db = Db::new();
    db.update_account(TrackedAccount {
        address: 1,
        token: Token::Native,
        lots: vec![lot(1, 100, 2020, 1, 1, 10), lot(2, 50, 2021, 6, 15, 20)],
        last_update_balance: 150,
    })
    .unwrap();
    db.record_drop(
        1,
        Token::Native,
        None,
        15,
        date(2021, 12, 31),
        LotSelectionMethod::FirstInFirstOut,
        None,
    )
    .unwrap();
    let report = aggregate_disposed(db.disposed_lots(), rates_or_default(db.get_tax_rate()));
    assert_eq!(report.total_amount, 150);
    assert_eq!(report.total_value, 150 * 15);
    assert_eq!(report.total_basis, 100 * 10 + 50 * 20);
    // lot 1 was held over a year (gain +500), lot 2 under (gain -250)
    assert_eq!(report.long_term_gain, 500);
    assert_eq!(report.short_term_gain, -250);
    assert_eq!(report.long_term_gain + report.short_term_gain, 250);
    // only the long-term class contributed: 250 * 2200bp / 10000 = 55
    assert_eq!(report.tax, Some(55));
}

#[test]
fn income_counts_reward_acquisitions_only() {
    let disposed = {
        let mut db = Db::new();
        db.update_account(TrackedAccount {
            address: 1,
            token: Token::Native,
            lots: vec![
                lot(1, 10, 2020, 1, 1, 7),
                lot_kind(2, 20, 2020, 2, 1, 3, AcquisitionKind::Reward),
            ],
            last_update_balance: 30,
        })
        .unwrap();
        db.record_drop(
            1,
            Token::Native,
            None,
            9,
            date(2022, 1, 1),
            LotSelectionMethod::FirstInFirstOut,
            None,
        )
        .unwrap();
        db.disposed_lots().clone()
    };
    let report = aggregate_disposed(
        &disposed,
        TaxRates { short_term_bp: DEFAULT_SHORT_TERM_BP, long_term_bp: DEFAULT_LONG_TERM_BP },
    );
    assert_eq!(report.income, 20 * 3);
}

#[test]
fn tax_blends_rates_when_both_classes_gain() {
    let lots = vec![
        lot(1, 100, 2020, 1, 1, 10),   // long by 2022
        lot(2, 100, 2021, 11, 1, 10),  // short by 2022-03
    ];
    let mut db = Db::new();
    db.update_account(TrackedAccount {
        address: 1,
        token: Token::Native,
        lots,
        last_update_balance: 200,
    })
    .unwrap();
    db.record_drop(
        1,
        Token::Native,
        None,
        20,
        date(2022, 3, 1),
        LotSelectionMethod::FirstInFirstOut,
        None,
    )
    .unwrap();
    let rates = TaxRates { short_term_bp: 3000, long_term_bp: 2000 };
    let report = aggregate_disposed(db.disposed_lots(), rates);
    assert_eq!(report.short_term_gain, 1000);
    assert_eq!(report.long_term_gain, 1000);
    // 1000 * 30% + 1000 * 20%
    assert_eq!(report.tax, Some(500));
}

#[test]
fn no_tax_without_positive_gain() {
    let mut db = Db::new();
    db.update_account(TrackedAccount {
        address: 1,
        token: Token::Native,
        lots: vec![lot(1, 100, 2020, 1, 1, 10)],
        last_update_balance: 100,
    })
    .unwrap();
    db.record_drop(
        1,
        Token::Native,
        None,
        5,
        date(2022, 1, 1),
        LotSelectionMethod::FirstInFirstOut,
        None,
    )
    .unwrap();
    let report = aggregate_disposed(db.disposed_lots(), rates_or_default(None));
    assert_eq!(report.long_term_gain, -500);
    assert_eq!(report.tax, None);
}

#[test]
fn default_rates_fill_in_when_unconfigured() {
    let r = rates_or_default(None);
    assert_eq!(r.short_term_bp, DEFAULT_SHORT_TERM_BP);
    assert_eq!(r.long_term_bp, DEFAULT_LONG_TERM_BP);
    let configured = TaxRates { short_term_bp: 1, long_term_bp: 2 };
    assert_eq!(rates_or_default(Some(configured)), configured);
}

#[test]
fn per_lot_gain_and_marked_selection() {
    let l = lot(1, 100, 2020, 1, 1, 10);
    assert_eq!(lot_gain(l, 15), 500);
    assert_eq!(lot_gain(l, 5), -500);

    let lots = vec![l, lot(2, 50, 2021, 1, 1, 20)];
    let selected = vec![2u64];
    let marked = selected_as_disposed(&lots, &selected, Token::Native, 15, date(2022, 1, 1));
    assert_eq!(marked.len(), 1);
    assert_eq!(marked[0].lot.lot_number, 2);
    assert_eq!(marked[0].price, 15);
    let report = aggregate_disposed(&marked, rates_or_default(None));
    assert_eq!(report.short_term_gain + report.long_term_gain, -250);
}
