//! Gain and tax aggregation over disposed lots.
//!
//! A disposal realises a gain of amount × (disposal price − acquisition
//! price), classified short-term below 365 days of holding and long-term at
//! 365 or more.  Reward acquisitions additionally count their acquisition
//! value as income.  Tax applies one rate or a blend, depending on which
//! classes contributed, over two configured basis-point rates.

use vstd::prelude::*;
use crate::date::{Date, spec_day_number};
use crate::lot::{DisposedLot, Lot, AcquisitionKind, Token, filter_lots};
use crate::select::numbered_pred;
use crate::TaxRates;

verus! {

/// Fallback short-term rate when none is configured, in basis points.
pub const DEFAULT_SHORT_TERM_BP: u32 = 3935;

/// Fallback long-term rate when none is configured, in basis points.
pub const DEFAULT_LONG_TERM_BP: u32 = 2200;

/// The configured rates, or the fixed defaults when unconfigured.
pub fn rates_or_default(rates: Option<TaxRates>) -> (r: TaxRates)
    ensures
        r == (match rates {
            Some(t) => t,
            None => TaxRates {
                short_term_bp: DEFAULT_SHORT_TERM_BP,
                long_term_bp: DEFAULT_LONG_TERM_BP,
            },
        }),
{
    match rates {
        Some(t) => t,
        None => TaxRates {
            short_term_bp: DEFAULT_SHORT_TERM_BP,
            long_term_bp: DEFAULT_LONG_TERM_BP,
        },
    }
}

/// Holding-period class of a disposal.
#[derive(Clone, Copy, PartialEq, Eq, Structural, Debug)]
pub enum Term {
    Short,
    Long,
}

/// Short-term below 365 whole days of holding, long-term at 365 or more.
pub open spec fn spec_term(acquired: Date, disposed: Date) -> Term {
    if spec_day_number(disposed) - spec_day_number(acquired) < 365 {
        Term::Short
    } else {
        Term::Long
    }
}

/// Classifies one holding period; the boundary falls exactly at 365 days.
pub fn classify_term(acquired: Date, disposed: Date) -> (r: Term)
    requires
        acquired.is_valid(),
        disposed.is_valid(),
    ensures
        r == spec_term(acquired, disposed),
        r is Short <==> spec_day_number(disposed) - spec_day_number(acquired) < 365,
{
    if crate::date::days_between(acquired, disposed) < 365 {
        Term::Short
    } else {
        Term::Long
    }
}

pub open spec fn all_disposed_valid(s: Seq<DisposedLot>) -> bool {
    forall|i: int|
        0 <= i < s.len() ==> (#[trigger] s[i]).lot.acquisition.when.is_valid()
            && s[i].when.is_valid()
}

/// Total disposed quantity.
pub open spec fn spec_total_amount(s: Seq<DisposedLot>) -> int
    decreases s.len(),
{
    if s.len() == 0 {
        0
    } else {
        spec_total_amount(s.drop_last()) + s.last().lot.amount
    }
}

/// Total disposal value: quantity × disposal price over all records.
pub open spec fn spec_total_value(s: Seq<DisposedLot>) -> int
    decreases s.len(),
{
    if s.len() == 0 {
        0
    } else {
        spec_total_value(s.drop_last()) + s.last().lot.amount * s.last().price
    }
}

/// Total acquisition value (cost basis) of the disposed lots.
pub open spec fn spec_total_basis(s: Seq<DisposedLot>) -> int
    decreases s.len(),
{
    if s.len() == 0 {
        0
    } else {
        spec_total_basis(s.drop_last()) + s.last().lot.amount * s.last().lot.acquisition.price
    }
}

/// Income: the acquisition value of reward lots alone.
pub open spec fn spec_income(s: Seq<DisposedLot>) -> int
    decreases s.len(),
{
    if s.len() == 0 {
        0
    } else {
        spec_income(s.drop_last()) + (if s.last().lot.acquisition.kind is Reward {
            s.last().lot.amount * s.last().lot.acquisition.price
        } else {
            0
        })
    }
}

/// The gain one record realises.
pub open spec fn spec_lot_gain(d: DisposedLot) -> int {
    d.lot.amount * d.price - d.lot.amount * d.lot.acquisition.price
}

/// Gain over the records held less than 365 days.
pub open spec fn spec_short_gain(s: Seq<DisposedLot>) -> int
    decreases s.len(),
{
    if s.len() == 0 {
        0
    } else {
        spec_short_gain(s.drop_last()) + (if spec_term(s.last().lot.acquisition.when, s.last().when)
            is Short {
            spec_lot_gain(s.last())
        } else {
            0
        })
    }
}

/// Gain over the records held 365 days or more.
pub open spec fn spec_long_gain(s: Seq<DisposedLot>) -> int
    decreases s.len(),
{
    if s.len() == 0 {
        0
    } else {
        spec_long_gain(s.drop_last()) + (if spec_term(s.last().lot.acquisition.when, s.last().when)
            is Long {
            spec_lot_gain(s.last())
        } else {
            0
        })
    }
}

/// Tax owed when the total gain is positive: the one contributing class's
/// rate, or the blend when both classes contributed.
pub open spec fn spec_tax(short: int, long: int, rates: TaxRates) -> Option<int> {
    let gain = short + long;
    if gain > 0 {
        if short > 0 && long > 0 {
            Some((short * rates.short_term_bp + long * rates.long_term_bp) / 10000)
        } else if long > 0 {
            Some((gain * rates.long_term_bp) / 10000)
        } else {
            Some((gain * rates.short_term_bp) / 10000)
        }
    } else {
        None
    }
}

/// Every measure of a prefix is bounded by the measure of the whole, and
/// the signed gains are bounded by value plus basis.
proof fn lemma_measure_bounds(s: Seq<DisposedLot>)
    ensures
        0 <= spec_total_amount(s),
        0 <= spec_total_value(s),
        0 <= spec_total_basis(s),
        0 <= spec_income(s) <= spec_total_basis(s),
        -spec_total_basis(s) <= spec_short_gain(s) <= spec_total_value(s),
        -spec_total_basis(s) <= spec_long_gain(s) <= spec_total_value(s),
        -spec_total_basis(s) <= spec_short_gain(s) + spec_long_gain(s) <= spec_total_value(s),
    decreases s.len(),
{
    if s.len() > 0 {
        lemma_measure_bounds(s.drop_last());
        let d = s.last();
        assert(d.lot.amount * d.price >= 0) by (nonlinear_arith);
        assert(d.lot.amount * d.lot.acquisition.price >= 0) by (nonlinear_arith);
    }
}

/// Prefix measures never exceed the whole sequence's measures.
proof fn lemma_prefix_bounds(s: Seq<DisposedLot>, n: int)
    requires
        0 <= n <= s.len(),
    ensures
        spec_total_amount(s.take(n)) <= spec_total_amount(s),
        spec_total_value(s.take(n)) <= spec_total_value(s),
        spec_total_basis(s.take(n)) <= spec_total_basis(s),
        spec_income(s.take(n)) <= spec_income(s),
    decreases s.len() - n,
{
    if n == s.len() {
        assert(s.take(n) =~= s);
    } else {
        lemma_prefix_bounds(s, n + 1);
        assert(s.take(n + 1).drop_last() =~= s.take(n));
        assert(s.take(n + 1).last() == s[n]);
        let d = s[n];
        assert(d.lot.amount * d.price >= 0) by (nonlinear_arith);
        assert(d.lot.amount * d.lot.acquisition.price >= 0) by (nonlinear_arith);
    }
}

/// Aggregated gains over a set of disposed lots.
#[derive(Clone, Copy, PartialEq, Eq, Structural, Debug)]
pub struct GainReport {
    pub total_amount: u128,
    pub total_value: i128,
    pub total_basis: i128,
    pub income: i128,
    pub short_term_gain: i128,
    pub long_term_gain: i128,
    pub tax: Option<i128>,
}

/// Aggregates disposed lots into amount, value, income, a short/long gain
/// split, and the tax owed when the gain is positive.
#[verifier::rlimit(50)]
pub fn aggregate_disposed(lots: &Vec<DisposedLot>, rates: TaxRates) -> (r: GainReport)
    requires
        all_disposed_valid(lots@),
        spec_total_amount(lots@) <= u128::MAX,
        rates.short_term_bp <= 1_000_000,
        rates.long_term_bp <= 1_000_000,
        (spec_total_value(lots@) + spec_total_basis(lots@)) * 1_000_000 < i128::MAX,
    ensures
        r.total_amount == spec_total_amount(lots@),
        r.total_value == spec_total_value(lots@),
        r.total_basis == spec_total_basis(lots@),
        r.income == spec_income(lots@),
        r.short_term_gain == spec_short_gain(lots@),
        r.long_term_gain == spec_long_gain(lots@),
        r.tax == (match spec_tax(spec_short_gain(lots@), spec_long_gain(lots@), rates) {
            Some(t) => Some(t as i128),
            None => None,
        }),
{
    proof {
        lemma_measure_bounds(lots@);
        assert(spec_total_value(lots@) + spec_total_basis(lots@) < i128::MAX) by (nonlinear_arith)
            requires
                (spec_total_value(lots@) + spec_total_basis(lots@)) * 1_000_000 < i128::MAX,
                spec_total_value(lots@) >= 0,
                spec_total_basis(lots@) >= 0,
        ;
    }
    let mut total_amount: u128 = 0;
    let mut total_value: i128 = 0;
    let mut total_basis: i128 = 0;
    let mut income: i128 = 0;
    let mut short_gain: i128 = 0;
    let mut long_gain: i128 = 0;
    let mut m: usize = 0;
    while m < lots.len()
        invariant
            0 <= m <= lots@.len(),
            all_disposed_valid(lots@),
            spec_total_amount(lots@) <= u128::MAX,
            spec_total_value(lots@) + spec_total_basis(lots@) < i128::MAX,
            total_amount == spec_total_amount(lots@.take(m as int)),
            total_value == spec_total_value(lots@.take(m as int)),
            total_basis == spec_total_basis(lots@.take(m as int)),
            income == spec_income(lots@.take(m as int)),
            short_gain == spec_short_gain(lots@.take(m as int)),
            long_gain == spec_long_gain(lots@.take(m as int)),
        decreases lots@.len() - m,
    {
        let d = lots[m];
        proof {
            lemma_prefix_bounds(lots@, m + 1);
            lemma_measure_bounds(lots@.take(m + 1));
            lemma_measure_bounds(lots@.take(m as int));
            lemma_measure_bounds(lots@);
            assert(lots@.take(m + 1).drop_last() =~= lots@.take(m as int));
            assert(lots@.take(m + 1).last() == lots@[m as int]);
            assert(0 <= d.lot.amount * d.price) by (nonlinear_arith);
            assert(0 <= d.lot.amount * d.lot.acquisition.price) by (nonlinear_arith);
            assert(d.lot.amount * d.price <= spec_total_value(lots@));
            assert(d.lot.amount * d.lot.acquisition.price <= spec_total_basis(lots@));
        }
        let amount = d.lot.amount;
        let value: i128 = amount as i128 * d.price as i128;
        let basis: i128 = amount as i128 * d.lot.acquisition.price as i128;
        total_amount = total_amount + amount as u128;
        total_value = total_value + value;
        total_basis = total_basis + basis;
        if matches!(d.lot.acquisition.kind, AcquisitionKind::Reward) {
            income = income + basis;
        }
        match classify_term(d.lot.acquisition.when, d.when) {
            Term::Short => {
                short_gain = short_gain + (value - basis);
            },
            Term::Long => {
                long_gain = long_gain + (value - basis);
            },
        }
        m = m + 1;
    }
    proof {
        assert(lots@.take(lots@.len() as int) =~= lots@);
        lemma_measure_bounds(lots@);
    }
    let gain = short_gain + long_gain;
    let tax: Option<i128> = if gain > 0 {
        let t: i128 = if short_gain > 0 && long_gain > 0 {
            proof {
                assert(short_gain * rates.short_term_bp + long_gain * rates.long_term_bp
                    < i128::MAX && short_gain * rates.short_term_bp >= 0 && long_gain
                    * rates.long_term_bp >= 0) by (nonlinear_arith)
                    requires
                        0 < short_gain <= spec_total_value(lots@),
                        0 < long_gain <= spec_total_value(lots@),
                        short_gain + long_gain <= spec_total_value(lots@),
                        rates.short_term_bp <= 1_000_000,
                        rates.long_term_bp <= 1_000_000,
                        (spec_total_value(lots@) + spec_total_basis(lots@)) * 1_000_000
                            < i128::MAX,
                        spec_total_basis(lots@) >= 0,
                ;
            }
            (short_gain * rates.short_term_bp as i128 + long_gain * rates.long_term_bp as i128)
                / 10000
        } else if long_gain > 0 {
            proof {
                assert(gain * rates.long_term_bp < i128::MAX && gain * rates.long_term_bp
                    >= 0) by (nonlinear_arith)
                    requires
                        0 < gain <= spec_total_value(lots@),
                        rates.long_term_bp <= 1_000_000,
                        (spec_total_value(lots@) + spec_total_basis(lots@)) * 1_000_000
                            < i128::MAX,
                        spec_total_basis(lots@) >= 0,
                ;
            }
            (gain * rates.long_term_bp as i128) / 10000
        } else {
            proof {
                assert(gain * rates.short_term_bp < i128::MAX && gain * rates.short_term_bp
                    >= 0) by (nonlinear_arith)
                    requires
                        0 < gain <= spec_total_value(lots@),
                        rates.short_term_bp <= 1_000_000,
                        (spec_total_value(lots@) + spec_total_basis(lots@)) * 1_000_000
                            < i128::MAX,
                        spec_total_basis(lots@) >= 0,
                ;
            }
            (gain * rates.short_term_bp as i128) / 10000
        };
        Some(t)
    } else {
        None
    };
    GainReport {
        total_amount,
        total_value,
        total_basis,
        income,
        short_term_gain: short_gain,
        long_term_gain: long_gain,
        tax,
    }
}

/// The gain one live lot would realise at the quoted price.
pub fn lot_gain(lot: Lot, price: u64) -> (r: i128)
    requires
        lot.amount * price <= i128::MAX,
        lot.amount * lot.acquisition.price <= i128::MAX,
    ensures
        r == lot.amount * price - lot.amount * lot.acquisition.price,
{
    proof {
        assert(0 <= lot.amount * price) by (nonlinear_arith);
        assert(0 <= lot.amount * lot.acquisition.price) by (nonlinear_arith);
    }
    lot.amount as i128 * price as i128 - lot.amount as i128 * lot.acquisition.price as i128
}

/// Marks the selected live lots as if disposed today at the quoted price,
/// for an on-screen gain summary.
pub fn selected_as_disposed(
    lots: &Vec<Lot>,
    selected: &Vec<u64>,
    token: Token,
    price: u64,
    today: Date,
) -> (r: Vec<DisposedLot>)
    ensures
        r@ == crate::ledger::disposed_of(
            filter_lots(lots@, numbered_pred(selected@)),
            token,
            price,
            today,
        ),
{
    let ghost p = numbered_pred(selected@);
    let mut out: Vec<DisposedLot> = Vec::new();
    let mut j: usize = 0;
    proof {
        assert(out@ =~= crate::ledger::disposed_of(
            filter_lots(lots@.take(0), p),
            token,
            price,
            today,
        ));
    }
    while j < lots.len()
        invariant
            0 <= j <= lots@.len(),
            p == numbered_pred(selected@),
            out@ == crate::ledger::disposed_of(filter_lots(lots@.take(j as int), p), token, price, today),
        decreases lots@.len() - j,
    {
        proof {
            assert(lots@.take(j + 1).drop_last() =~= lots@.take(j as int));
            assert(lots@.take(j + 1).last() == lots@[j as int]);
        }
        let mut hit = false;
        let mut k: usize = 0;
        while k < selected.len()
            invariant
                0 <= k <= selected@.len(),
                0 <= j < lots@.len(),
                hit ==> selected@.contains(lots@[j as int].lot_number),
                !hit ==> forall|w: int| 0 <= w < k ==> selected@[w] != lots@[j as int].lot_number,
            decreases selected@.len() - k,
        {
            if selected[k] == lots[j].lot_number {
                hit = true;
            }
            k = k + 1;
        }
        if hit {
            out.push(DisposedLot { lot: lots[j], token, price, when: today });
            proof {
                assert(crate::ledger::disposed_of(
                    filter_lots(lots@.take(j + 1), p),
                    token,
                    price,
                    today,
                ) =~= out@);
            }
        } else {
            proof {
                assert(!p(lots@[j as int]));
            }
        }
        j = j + 1;
    }
    proof {
        assert(lots@.take(lots@.len() as int) =~= lots@);
    }
    out
}

} // verus!
