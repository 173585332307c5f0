//! The lot selection engine.
//!
//! Given a target amount and a selection policy, the engine decides which
//! live lots a disposal consumes.  Policies order the candidates (oldest
//! first, newest first, or highest acquisition price first) and consume
//! greedily; the last lot needed may be split, leaving a residual lot with
//! the original acquisition and a fresh lot number.  An explicit set of lot
//! numbers overrides the policy, and a missing target amount means "all".

use vstd::prelude::*;
use vstd::multiset::Multiset;
use vstd::seq_lib::group_to_multiset_ensures;
use vstd::seq_lib::lemma_multiset_commutative;
use crate::date::spec_day_number;
use crate::lot::{
    Lot, all_positive, all_valid_dates, contains_number, distinct_numbers, filter_lots,
    lemma_filter_lots_all_false, lemma_filter_lots_all_true, lemma_filter_lots_contains,
    lemma_filter_lots_distributes, lemma_filter_lots_partition, lemma_filter_lots_sorted,
    lemma_filter_lots_to_multiset, lemma_mset_contains, lemma_sum_amounts_multiset,
    lemma_sum_amounts_nonneg, lemma_sum_concat, lemma_sum_pointwise_le, lots_wf, numbers_below,
    strictly_sorted, sum_amounts, sum_lots_wide, clone_lots,
};
use crate::LedgerError;

verus! {

/// The deterministic policy ordering candidate lots before greedy consumption.
#[derive(Clone, Copy, PartialEq, Eq, Structural, Debug)]
pub enum LotSelectionMethod {
    FirstInFirstOut,
    LastInFirstOut,
    HighestCostFirst,
}

impl Default for LotSelectionMethod {
    /// The fixed default policy consumes the oldest lots first.
    fn default() -> (r: Self)
        ensures
            r == LotSelectionMethod::FirstInFirstOut,
    {
        LotSelectionMethod::FirstInFirstOut
    }
}

/// Oldest acquisition first; ties resolved by the lower lot number.
pub open spec fn fifo_le(a: Lot, b: Lot) -> bool {
    ||| spec_day_number(a.acquisition.when) < spec_day_number(b.acquisition.when)
    ||| (spec_day_number(a.acquisition.when) == spec_day_number(b.acquisition.when)
        && a.lot_number <= b.lot_number)
}

/// Newest acquisition first; ties resolved by the higher lot number.
pub open spec fn lifo_le(a: Lot, b: Lot) -> bool {
    ||| spec_day_number(a.acquisition.when) > spec_day_number(b.acquisition.when)
    ||| (spec_day_number(a.acquisition.when) == spec_day_number(b.acquisition.when)
        && a.lot_number >= b.lot_number)
}

/// Highest acquisition price first; ties resolved oldest-first.
pub open spec fn highest_cost_le(a: Lot, b: Lot) -> bool {
    ||| a.acquisition.price > b.acquisition.price
    ||| (a.acquisition.price == b.acquisition.price && fifo_le(a, b))
}

/// "`a` is consumed no later than `b`" under the policy.
pub open spec fn policy_le(method: LotSelectionMethod, a: Lot, b: Lot) -> bool {
    match method {
        LotSelectionMethod::FirstInFirstOut => fifo_le(a, b),
        LotSelectionMethod::LastInFirstOut => lifo_le(a, b),
        LotSelectionMethod::HighestCostFirst => highest_cost_le(a, b),
    }
}

pub open spec fn sorted_by_policy(s: Seq<Lot>, method: LotSelectionMethod) -> bool {
    forall|i: int, j: int|
        0 <= i < j < s.len() ==> policy_le(method, s[i], s[j])
}

/// The policy order is total and transitive.
pub proof fn lemma_policy_le_props(method: LotSelectionMethod)
    ensures
        forall|a: Lot, b: Lot| #[trigger] policy_le(method, a, b) || #[trigger] policy_le(
            method,
            b,
            a,
        ),
        forall|a: Lot, b: Lot, c: Lot|
            #[trigger] policy_le(method, a, b) && #[trigger] policy_le(method, b, c) ==> policy_le(
                method,
                a,
                c,
            ),
{
}

pub(crate) fn fifo_le_exec(a: &Lot, b: &Lot) -> (r: bool)
    requires
        a.acquisition.when.is_valid(),
        b.acquisition.when.is_valid(),
    ensures
        r == fifo_le(*a, *b),
{
    let da = a.acquisition.when.day_number();
    let db = b.acquisition.when.day_number();
    da < db || (da == db && a.lot_number <= b.lot_number)
}

fn policy_le_exec(method: LotSelectionMethod, a: &Lot, b: &Lot) -> (r: bool)
    requires
        a.acquisition.when.is_valid(),
        b.acquisition.when.is_valid(),
    ensures
        r == policy_le(method, *a, *b),
{
    match method {
        LotSelectionMethod::FirstInFirstOut => fifo_le_exec(a, b),
        LotSelectionMethod::LastInFirstOut => {
            let da = a.acquisition.when.day_number();
            let db = b.acquisition.when.day_number();
            da > db || (da == db && a.lot_number >= b.lot_number)
        },
        LotSelectionMethod::HighestCostFirst => {
            a.acquisition.price > b.acquisition.price || (a.acquisition.price
                == b.acquisition.price && fifo_le_exec(a, b))
        },
    }
}

/// Orders lots for consumption under the policy, keeping every lot.
fn sort_by_policy(lots: &Vec<Lot>, method: LotSelectionMethod) -> (r: Vec<Lot>)
    requires
        all_valid_dates(lots@),
        distinct_numbers(lots@),
    ensures
        r@.to_multiset() == lots@.to_multiset(),
        sorted_by_policy(r@, method),
        distinct_numbers(r@),
        all_valid_dates(r@),
{
    let mut rest = clone_lots(lots);
    let mut out: Vec<Lot> = Vec::new();
    proof {
        broadcast use group_to_multiset_ensures;

        assert(out@.to_multiset().add(rest@.to_multiset()) =~= lots@.to_multiset());
    }
    while rest.len() > 0
        invariant
            out@.to_multiset().add(rest@.to_multiset()) == lots@.to_multiset(),
            sorted_by_policy(out@, method),
            forall|i: int, j: int|
                0 <= i < out@.len() && 0 <= j < rest@.len() ==> policy_le(
                    method,
                    out@[i],
                    rest@[j],
                ),
            all_valid_dates(out@),
            all_valid_dates(rest@),
            distinct_numbers(out@),
            distinct_numbers(rest@),
            forall|i: int, j: int|
                0 <= i < out@.len() && 0 <= j < rest@.len() ==> out@[i].lot_number
                    != rest@[j].lot_number,
        decreases rest@.len(),
    {
        let ghost rest0 = rest@;
        let ghost out0 = out@;
        let mut m: usize = 0;
        let mut k: usize = 1;
        while k < rest.len()
            invariant
                0 <= m < k <= rest@.len(),
                rest@.len() > 0,
                all_valid_dates(rest@),
                forall|j: int| 0 <= j < k ==> policy_le(method, rest@[m as int], rest@[j]),
            decreases rest@.len() - k,
        {
            proof {
                lemma_policy_le_props(method);
            }
            if policy_le_exec(method, &rest[k], &rest[m]) {
                m = k;
            }
            k = k + 1;
        }
        proof {
            lemma_policy_le_props(method);
        }
        let x = rest.remove(m);
        out.push(x);
        proof {
            broadcast use group_to_multiset_ensures;

            assert(rest0.remove(m as int).to_multiset() =~= rest0.to_multiset().remove(
                rest0[m as int],
            ));
            assert(out@.to_multiset() =~= out0.to_multiset().insert(x));
            assert(out@.to_multiset().add(rest@.to_multiset()) =~= lots@.to_multiset());
            assert forall|i: int, j: int|
                0 <= i < out@.len() && 0 <= j < rest@.len() implies policy_le(
                method,
                out@[i],
                rest@[j],
            ) && out@[i].lot_number != rest@[j].lot_number by {
                if j < m {
                    assert(rest@[j] == rest0[j]);
                } else {
                    assert(rest@[j] == rest0[j + 1]);
                }
            }
            assert forall|i: int, j: int| 0 <= i < j < rest@.len() implies rest@[i].lot_number
                != rest@[j].lot_number by {
                if j < m {
                    assert(rest@[i] == rest0[i] && rest@[j] == rest0[j]);
                } else if i < m {
                    assert(rest@[i] == rest0[i] && rest@[j] == rest0[j + 1]);
                } else {
                    assert(rest@[i] == rest0[i + 1] && rest@[j] == rest0[j + 1]);
                }
            }
            assert(all_valid_dates(rest@)) by {
                assert(forall|i: int|
                    0 <= i < rest@.len() ==> rest@[i] == (if i < m {
                        rest0[i]
                    } else {
                        rest0[i + 1]
                    }));
            }
        }
    }
    proof {
        broadcast use group_to_multiset_ensures;

        assert(rest@.to_multiset() =~= Multiset::<Lot>::empty());
        assert(out@.to_multiset() =~= lots@.to_multiset());
    }
    out
}

/// Notes that one lot was split: the consumed part keeps its number, the
/// residual part gets a fresh one.
#[derive(Clone, Copy, PartialEq, Eq, Structural, Debug)]
pub struct SplitInfo {
    pub consumed_number: u64,
    pub residual_number: u64,
}

/// The outcome of lot selection: what is consumed, what stays live.
#[derive(Debug)]
pub struct LotSelection {
    /// The lots (or split parts) the disposal consumes.
    pub consumed: Vec<Lot>,
    /// The account's live lots afterwards; a residual split lot comes last.
    pub remaining: Vec<Lot>,
    pub split: Option<SplitInfo>,
    /// The lot-number counter after selection.
    pub next_lot_number: u64,
    /// The effective amount: the sum of the consumed amounts.
    pub amount: u64,
}

/// Mathematical value of a [`LotSelection`].
#[verifier::ext_equal]
pub struct SelectionV {
    pub consumed: Seq<Lot>,
    pub remaining: Seq<Lot>,
    pub split: Option<SplitInfo>,
    pub next: u64,
    pub amount: u64,
}

impl View for LotSelection {
    type V = SelectionV;

    open spec fn view(&self) -> SelectionV {
        SelectionV {
            consumed: self.consumed@,
            remaining: self.remaining@,
            split: self.split,
            next: self.next_lot_number,
            amount: self.amount,
        }
    }
}

/// The lots that stay live, not counting a residual split lot.
pub open spec fn rem_core(sel: SelectionV) -> Seq<Lot> {
    if sel.split is Some {
        sel.remaining.drop_last()
    } else {
        sel.remaining
    }
}

/// The consumed lots with the residual amount folded back into the split
/// lot: exactly the original live lots the selection touched.
pub open spec fn spec_restored(sel: SelectionV) -> Seq<Lot> {
    match sel.split {
        None => sel.consumed,
        Some(si) => sel.consumed.map_values(
            |l: Lot|
                if l.lot_number == si.consumed_number {
                    Lot {
                        lot_number: l.lot_number,
                        amount: (l.amount + sel.remaining.last().amount) as u64,
                        acquisition: l.acquisition,
                    }
                } else {
                    l
                },
        ),
    }
}

/// What every selection guarantees, whichever mode chose the lots.
pub open spec fn selection_common(lots: Seq<Lot>, next0: u64, sel: SelectionV) -> bool {
    &&& all_positive(sel.consumed)
    &&& all_positive(sel.remaining)
    &&& all_valid_dates(sel.consumed)
    &&& all_valid_dates(sel.remaining)
    &&& strictly_sorted(sel.remaining)
    &&& distinct_numbers(sel.consumed)
    &&& numbers_below(sel.consumed, sel.next as int)
    &&& numbers_below(sel.remaining, sel.next as int)
    &&& sum_amounts(sel.consumed) == sel.amount
    &&& lots.to_multiset() == rem_core(sel).to_multiset().add(spec_restored(sel).to_multiset())
    &&& match sel.split {
        None => sel.next == next0,
        Some(si) => {
            &&& sel.next == next0 + 1
            &&& si.residual_number == next0
            &&& sel.remaining.len() > 0
            &&& sel.remaining.last().lot_number == next0
            &&& contains_number(sel.consumed, si.consumed_number)
            &&& forall|k: int|
                0 <= k < sel.consumed.len() && (#[trigger] sel.consumed[k]).lot_number
                    == si.consumed_number ==> sel.consumed[k].acquisition
                    == sel.remaining.last().acquisition && sel.consumed[k].amount
                    + sel.remaining.last().amount <= u64::MAX
        },
    }
}

/// Greedy consumption under a policy: the consumed lots cover the target
/// exactly, and none of them comes after a surviving lot in policy order.
pub open spec fn selection_policy_ok(
    lots: Seq<Lot>,
    method: LotSelectionMethod,
    target: u64,
    next0: u64,
    sel: SelectionV,
) -> bool {
    &&& selection_common(lots, next0, sel)
    &&& sel.amount == target
    &&& forall|i: int, j: int|
        0 <= i < sel.consumed.len() && 0 <= j < rem_core(sel).len() ==> policy_le(
            method,
            sel.consumed[i],
            rem_core(sel)[j],
        )
}

pub open spec fn numbered_pred(numbers: Seq<u64>) -> spec_fn(Lot) -> bool {
    |l: Lot| numbers.contains(l.lot_number)
}

pub open spec fn un_numbered_pred(numbers: Seq<u64>) -> spec_fn(Lot) -> bool {
    |l: Lot| !numbers.contains(l.lot_number)
}

/// An explicit lot-number set overrides the policy: exactly the live lots
/// with those numbers are consumed, whole, and the amount is their sum.
pub open spec fn selection_explicit_ok(
    lots: Seq<Lot>,
    numbers: Seq<u64>,
    next0: u64,
    sel: SelectionV,
) -> bool {
    &&& selection_common(lots, next0, sel)
    &&& sel.split is None
    &&& sel.consumed == filter_lots(lots, numbered_pred(numbers))
    &&& sel.remaining == filter_lots(lots, un_numbered_pred(numbers))
}

/// "Withdraw all": every live lot is consumed and nothing remains.
pub open spec fn selection_all_ok(lots: Seq<Lot>, next0: u64, sel: SelectionV) -> bool {
    &&& selection_common(lots, next0, sel)
    &&& sel.split is None
    &&& sel.consumed == lots
    &&& sel.remaining.len() == 0
}

pub open spec fn consumed_pred(taken: Seq<Lot>) -> spec_fn(Lot) -> bool {
    |l: Lot| contains_number(taken, l.lot_number)
}

pub open spec fn un_consumed_pred(taken: Seq<Lot>) -> spec_fn(Lot) -> bool {
    |l: Lot| !contains_number(taken, l.lot_number)
}

fn contains_lot_number(v: &Vec<Lot>, n: u64) -> (r: bool)
    ensures
        r == contains_number(v@, n),
{
    let mut i: usize = 0;
    while i < v.len()
        invariant
            0 <= i <= v@.len(),
            forall|k: int| 0 <= k < i ==> v@[k].lot_number != n,
        decreases v@.len() - i,
    {
        if v[i].lot_number == n {
            return true;
        }
        i = i + 1;
    }
    false
}

fn contains_u64(v: &Vec<u64>, n: u64) -> (r: bool)
    ensures
        r == v@.contains(n),
{
    let mut i: usize = 0;
    while i < v.len()
        invariant
            0 <= i <= v@.len(),
            forall|k: int| 0 <= k < i ==> v@[k] != n,
        decreases v@.len() - i,
    {
        if v[i] == n {
            return true;
        }
        i = i + 1;
    }
    false
}

/// Consumes every live lot, leaving the account empty.
fn select_all(lots: &Vec<Lot>, next_lot_number: u64) -> (r: LotSelection)
    requires
        lots_wf(lots@),
        numbers_below(lots@, next_lot_number as int),
    ensures
        selection_all_ok(lots@, next_lot_number, r@),
{
    let total = sum_lots_wide(lots);
    let consumed = clone_lots(lots);
    let r = LotSelection {
        consumed,
        remaining: Vec::new(),
        split: None,
        next_lot_number,
        amount: total as u64,
    };
    proof {
        broadcast use group_to_multiset_ensures;

        lemma_sum_amounts_nonneg(lots@);
        assert(rem_core(r@) =~= Seq::<Lot>::empty());
        assert(lots@.to_multiset() =~= rem_core(r@).to_multiset().add(
            spec_restored(r@).to_multiset(),
        ));
    }
    r
}

/// Consumes exactly the live lots with the given numbers, whole.
#[verifier::rlimit(50)]
fn select_explicit(lots: &Vec<Lot>, numbers: &Vec<u64>, next_lot_number: u64) -> (r: LotSelection)
    requires
        lots_wf(lots@),
        numbers_below(lots@, next_lot_number as int),
    ensures
        selection_explicit_ok(lots@, numbers@, next_lot_number, r@),
{
    let ghost p = numbered_pred(numbers@);
    let ghost q = un_numbered_pred(numbers@);
    let mut consumed: Vec<Lot> = Vec::new();
    let mut remaining: Vec<Lot> = Vec::new();
    let mut j: usize = 0;
    proof {
        assert(consumed@ =~= filter_lots(lots@.take(0), p));
        assert(remaining@ =~= filter_lots(lots@.take(0), q));
    }
    while j < lots.len()
        invariant
            0 <= j <= lots@.len(),
            consumed@ == filter_lots(lots@.take(j as int), p),
            remaining@ == filter_lots(lots@.take(j as int), q),
            p == numbered_pred(numbers@),
            q == un_numbered_pred(numbers@),
        decreases lots@.len() - j,
    {
        proof {
            assert(lots@.take(j + 1).drop_last() =~= lots@.take(j as int));
            assert(lots@.take(j + 1).last() == lots@[j as int]);
        }
        if contains_u64(numbers, lots[j].lot_number) {
            consumed.push(lots[j]);
        } else {
            remaining.push(lots[j]);
        }
        j = j + 1;
    }
    proof {
        assert(lots@.take(lots@.len() as int) =~= lots@);
    }
    let ghost cs = consumed@;
    let ghost rs = remaining@;
    proof {
        broadcast use group_to_multiset_ensures;

        lemma_filter_lots_partition(lots@, p, q);
        lemma_multiset_commutative(cs, rs);
        lemma_sum_amounts_multiset(lots@, cs + rs);
        lemma_sum_concat(cs, rs);
        lemma_sum_amounts_nonneg(cs);
        lemma_sum_amounts_nonneg(rs);
        assert(sum_amounts(cs) <= u64::MAX);
        lemma_filter_lots_sorted(lots@, p);
        lemma_filter_lots_sorted(lots@, q);
        lemma_filter_lots_contains(lots@, p);
        lemma_filter_lots_contains(lots@, q);
        assert forall|i: int| 0 <= i < cs.len() implies (#[trigger] cs[i]).amount > 0
            && cs[i].acquisition.when.is_valid() && cs[i].lot_number < next_lot_number by {
            assert(cs.contains(cs[i]));
            assert(lots@.contains(cs[i]));
            let t = choose|t: int| 0 <= t < lots@.len() && lots@[t] == cs[i];
            assert(lots@[t].amount > 0);
        }
        assert forall|i: int| 0 <= i < rs.len() implies (#[trigger] rs[i]).amount > 0
            && rs[i].acquisition.when.is_valid() && rs[i].lot_number < next_lot_number by {
            assert(rs.contains(rs[i]));
            assert(lots@.contains(rs[i]));
            let t = choose|t: int| 0 <= t < lots@.len() && lots@[t] == rs[i];
            assert(lots@[t].amount > 0);
        }
    }
    let amount = sum_lots_wide(&consumed) as u64;
    let r = LotSelection { consumed, remaining, split: None, next_lot_number, amount };
    proof {
        assert(cs == filter_lots(lots@, p));
        assert(rs == filter_lots(lots@, q));
        assert(rem_core(r@) == rs);
        assert(spec_restored(r@) == cs);
        assert(strictly_sorted(rs));
        assert(distinct_numbers(cs));
        assert(lots@.to_multiset() == rem_core(r@).to_multiset().add(
            spec_restored(r@).to_multiset(),
        )) by {
            broadcast use group_to_multiset_ensures;

            lemma_multiset_commutative(cs, rs);
            assert(lots@.to_multiset() == cs.to_multiset().add(rs.to_multiset()));
            assert(rs.to_multiset().add(cs.to_multiset()) =~= cs.to_multiset().add(
                rs.to_multiset(),
            ));
        }
        assert(sum_amounts(r@.consumed) == r@.amount);
    }
    r
}

/// What the greedy walk over the policy-ordered lots leaves behind: the
/// consumed entries mirror an ordered prefix, the last one possibly split.
pub open spec fn greedy_shape(
    ordered: Seq<Lot>,
    taken: Seq<Lot>,
    residual: Option<Lot>,
    split: Option<SplitInfo>,
    next0: u64,
    target: u64,
) -> bool {
    let ii = taken.len() as int;
    &&& taken.len() <= ordered.len()
    &&& sum_amounts(taken) == target
    &&& all_positive(taken)
    &&& (split is None ==> residual is None && taken == ordered.take(ii))
    &&& (split matches Some(si) ==> {
        &&& ii >= 1
        &&& (forall|k: int| 0 <= k < ii - 1 ==> taken[k] == ordered[k])
        &&& taken[ii - 1].lot_number == ordered[ii - 1].lot_number
        &&& taken[ii - 1].acquisition == ordered[ii - 1].acquisition
        &&& 0 < taken[ii - 1].amount < ordered[ii - 1].amount
        &&& si.consumed_number == ordered[ii - 1].lot_number
        &&& si.residual_number == next0
        &&& (residual matches Some(res) && res == (Lot {
            lot_number: next0,
            amount: (ordered[ii - 1].amount - taken[ii - 1].amount) as u64,
            acquisition: ordered[ii - 1].acquisition,
        }))
    })
}

/// The consumed numbers split the live lots into the ordered prefix that
/// was consumed and the ordered suffix that survives.
proof fn lemma_policy_filters(lots: Seq<Lot>, ordered: Seq<Lot>, taken: Seq<Lot>)
    requires
        ordered.to_multiset() == lots.to_multiset(),
        distinct_numbers(ordered),
        taken.len() <= ordered.len(),
        forall|k: int|
            0 <= k < taken.len() ==> (#[trigger] taken[k]).lot_number == ordered[k].lot_number,
    ensures
        filter_lots(lots, consumed_pred(taken)).to_multiset() == ordered.take(
            taken.len() as int,
        ).to_multiset(),
        filter_lots(lots, un_consumed_pred(taken)).to_multiset() == ordered.skip(
            taken.len() as int,
        ).to_multiset(),
        lots.to_multiset() == filter_lots(lots, consumed_pred(taken)).to_multiset().add(
            filter_lots(lots, un_consumed_pred(taken)).to_multiset(),
        ),
{
    let ii = taken.len() as int;
    let p = consumed_pred(taken);
    let q = un_consumed_pred(taken);
    assert(forall|x: Lot| #[trigger] q(x) <==> !p(x));
    assert(ordered =~= ordered.take(ii) + ordered.skip(ii));
    lemma_filter_lots_distributes(ordered.take(ii), ordered.skip(ii), p);
    lemma_filter_lots_distributes(ordered.take(ii), ordered.skip(ii), q);
    assert forall|k: int| 0 <= k < ordered.take(ii).len() implies p(
        #[trigger] ordered.take(ii)[k],
    ) by {
        assert(ordered.take(ii)[k] == ordered[k]);
        assert(taken[k].lot_number == ordered[k].lot_number);
        assert(contains_number(taken, ordered[k].lot_number));
    }
    assert forall|k: int| 0 <= k < ordered.skip(ii).len() implies !p(
        #[trigger] ordered.skip(ii)[k],
    ) by {
        assert(ordered.skip(ii)[k] == ordered[ii + k]);
        if contains_number(taken, ordered[ii + k].lot_number) {
            let t = choose|t: int|
                0 <= t < taken.len() && taken[t].lot_number == ordered[ii + k].lot_number;
            assert(ordered[t].lot_number == ordered[ii + k].lot_number);
        }
    }
    lemma_filter_lots_all_true(ordered.take(ii), p);
    lemma_filter_lots_all_false(ordered.take(ii), q);
    lemma_filter_lots_all_true(ordered.skip(ii), q);
    lemma_filter_lots_all_false(ordered.skip(ii), p);
    assert(filter_lots(ordered, p) =~= ordered.take(ii));
    assert(filter_lots(ordered, q) =~= ordered.skip(ii));
    lemma_filter_lots_to_multiset(lots, p);
    lemma_filter_lots_to_multiset(ordered, p);
    lemma_filter_lots_to_multiset(lots, q);
    lemma_filter_lots_to_multiset(ordered, q);
    lemma_filter_lots_partition(lots, p, q);
}

/// Once the greedy walk is done and the survivors are assembled, the
/// selection satisfies the policy-mode contract.
#[verifier::rlimit(100)]
proof fn lemma_policy_selection_ok(
    lots: Seq<Lot>,
    ordered: Seq<Lot>,
    taken: Seq<Lot>,
    core: Seq<Lot>,
    residual: Option<Lot>,
    split: Option<SplitInfo>,
    method: LotSelectionMethod,
    target: u64,
    next0: u64,
    sel: SelectionV,
)
    requires
        lots_wf(lots),
        numbers_below(lots, next0 as int),
        next0 < u64::MAX,
        ordered.to_multiset() == lots.to_multiset(),
        sorted_by_policy(ordered, method),
        distinct_numbers(ordered),
        all_valid_dates(ordered),
        forall|t: int|
            0 <= t < ordered.len() ==> (#[trigger] ordered[t]).amount > 0 && ordered[t].lot_number
                < next0,
        greedy_shape(ordered, taken, residual, split, next0, target),
        core == filter_lots(lots, un_consumed_pred(taken)),
        sel.consumed == taken,
        sel.split == split,
        sel.amount == target,
        match residual {
            Some(res) => sel.remaining == core.push(res) && sel.next == next0 + 1,
            None => sel.remaining == core && sel.next == next0,
        },
    ensures
        selection_policy_ok(lots, method, target, next0, sel),
        sum_amounts(lots) >= target,
{
    broadcast use group_to_multiset_ensures;

    let ii = taken.len() as int;
    assert forall|k: int| 0 <= k < ii implies (#[trigger] taken[k]).lot_number == ordered[
        k
    ].lot_number && taken[k].acquisition == ordered[k].acquisition && taken[k].amount <= ordered[
        k
    ].amount by {
        if split is None {
            assert(taken[k] == ordered.take(ii)[k]);
        }
    }
    assert(distinct_numbers(taken));
    assert(all_valid_dates(taken));
    assert(numbers_below(taken, sel.next as int));
    lemma_policy_filters(lots, ordered, taken);
    // the survivors inherit the live lots' properties
    lemma_filter_lots_sorted(lots, un_consumed_pred(taken));
    lemma_filter_lots_contains(lots, un_consumed_pred(taken));
    assert forall|k: int| 0 <= k < core.len() implies (#[trigger] core[k]).amount > 0
        && core[k].acquisition.when.is_valid() && core[k].lot_number < next0 by {
        assert(core.contains(core[k]));
        assert(lots.contains(core[k]));
        let t = choose|t: int| 0 <= t < lots.len() && lots[t] == core[k];
        assert(lots[t].amount > 0);
    }
    assert(rem_core(sel) == core);
    // what the selection consumed restores to the ordered prefix
    assert(spec_restored(sel) =~= ordered.take(ii)) by {
        match sel.split {
            None => {},
            Some(si) => {
                assert(sel.remaining.last() == residual.unwrap());
                assert forall|k: int| 0 <= k < ii implies spec_restored(sel)[k] == ordered.take(
                    ii,
                )[k] by {
                    if taken[k].lot_number == si.consumed_number {
                        assert(k == ii - 1) by {
                            if k < ii - 1 {
                                assert(taken[k].lot_number == ordered[k].lot_number);
                            }
                        }
                    } else {
                        assert(k != ii - 1);
                    }
                }
            },
        }
    }
    assert(lots.to_multiset() == rem_core(sel).to_multiset().add(
        spec_restored(sel).to_multiset(),
    )) by {
        assert(spec_restored(sel).to_multiset() == ordered.take(ii).to_multiset());
        assert(filter_lots(lots, consumed_pred(taken)).to_multiset().add(core.to_multiset())
            =~= core.to_multiset().add(filter_lots(lots, consumed_pred(taken)).to_multiset()));
    }
    // no consumed lot comes after a surviving one in policy order
    lemma_mset_contains(core, ordered.skip(ii));
    assert forall|a: int, b: int|
        0 <= a < sel.consumed.len() && 0 <= b < rem_core(sel).len() implies policy_le(
        method,
        sel.consumed[a],
        rem_core(sel)[b],
    ) by {
        assert(core.contains(core[b]));
        assert(ordered.skip(ii).contains(core[b]));
        let t = choose|t: int| 0 <= t < ordered.skip(ii).len() && ordered.skip(ii)[t] == core[b];
        assert(ordered.skip(ii)[t] == ordered[ii + t]);
        assert(policy_le(method, ordered[a], ordered[ii + t]));
        assert(taken[a].lot_number == ordered[a].lot_number && taken[a].acquisition == ordered[
            a
        ].acquisition);
    }
    // the survivors stay strictly ordered, the residual coming last
    assert(strictly_sorted(sel.remaining)) by {
        match residual {
            Some(res) => {
                assert(forall|k: int|
                    0 <= k < core.len() ==> (#[trigger] core[k]).lot_number < next0);
                assert(forall|k: int|
                    0 <= k < sel.remaining.len() - 1 ==> sel.remaining[k] == core[k]);
            },
            None => {},
        }
    }
    assert(selection_common(lots, next0, sel)) by {
        match sel.split {
            None => {},
            Some(si) => {
                assert(contains_number(sel.consumed, si.consumed_number)) by {
                    assert(taken[ii - 1].lot_number == si.consumed_number);
                }
                assert forall|k: int|
                    0 <= k < sel.consumed.len() && (#[trigger] sel.consumed[k]).lot_number
                        == si.consumed_number implies sel.consumed[k].acquisition
                    == sel.remaining.last().acquisition && sel.consumed[k].amount
                    + sel.remaining.last().amount <= u64::MAX by {
                    assert(k == ii - 1) by {
                        if k < ii - 1 {
                            assert(taken[k].lot_number == ordered[k].lot_number);
                        }
                    }
                }
            },
        }
    }
    // enough was live: the consumed prefix alone covers the target
    assert(sum_amounts(lots) >= target) by {
        lemma_sum_amounts_multiset(lots, ordered);
        crate::lot::lemma_sum_amounts_take(ordered, ii);
        lemma_sum_amounts_nonneg(ordered.skip(ii));
        lemma_sum_pointwise_le(taken, ordered.take(ii));
        assert(forall|k: int|
            0 <= k < taken.len() ==> (#[trigger] taken[k]).amount <= ordered.take(ii)[k].amount);
    }
}

/// Greedy consumption in policy order, splitting the last lot if needed.
#[verifier::rlimit(100)]
fn select_policy(
    lots: &Vec<Lot>,
    target: u64,
    method: LotSelectionMethod,
    next_lot_number: u64,
) -> (r: Result<LotSelection, LedgerError>)
    requires
        lots_wf(lots@),
        numbers_below(lots@, next_lot_number as int),
        next_lot_number < u64::MAX,
    ensures
        match r {
            Ok(sel) => selection_policy_ok(lots@, method, target, next_lot_number, sel@),
            Err(e) => e == LedgerError::InsufficientLots,
        },
        (r is Err) <==> sum_amounts(lots@) < target,
{
    let ordered = sort_by_policy(lots, method);
    proof {
        lemma_mset_contains(ordered@, lots@);
        lemma_mset_contains(lots@, ordered@);
        lemma_sum_amounts_multiset(lots@, ordered@);
        assert forall|t: int| 0 <= t < ordered@.len() implies (#[trigger] ordered@[t]).amount > 0
            && ordered@[t].lot_number < next_lot_number by {
            assert(ordered@.contains(ordered@[t]));
            assert(lots@.contains(ordered@[t]));
            let u = choose|u: int| 0 <= u < lots@.len() && lots@[u] == ordered@[t];
            assert(lots@[u].amount > 0);
        }
    }
    let mut taken: Vec<Lot> = Vec::new();
    let mut residual: Option<Lot> = None;
    let mut split: Option<SplitInfo> = None;
    let mut need: u64 = target;
    let mut i: usize = 0;
    while need > 0 && i < ordered.len()
        invariant
            0 <= i <= ordered@.len(),
            taken@.len() == i,
            sum_amounts(taken@) + need == target,
            all_positive(taken@),
            split is None ==> residual is None && taken@ == ordered@.take(i as int),
            split matches Some(si) ==> {
                &&& need == 0
                &&& i >= 1
                &&& (forall|k: int| 0 <= k < i - 1 ==> taken@[k] == ordered@[k])
                &&& taken@[i - 1].lot_number == ordered@[i - 1].lot_number
                &&& taken@[i - 1].acquisition == ordered@[i - 1].acquisition
                &&& 0 < taken@[i - 1].amount < ordered@[i - 1].amount
                &&& si.consumed_number == ordered@[i - 1].lot_number
                &&& si.residual_number == next_lot_number
                &&& residual matches Some(res) && res == (Lot {
                    lot_number: next_lot_number,
                    amount: (ordered@[i - 1].amount - taken@[i - 1].amount) as u64,
                    acquisition: ordered@[i - 1].acquisition,
                })
            },
            sorted_by_policy(ordered@, method),
            distinct_numbers(ordered@),
            all_valid_dates(ordered@),
            forall|t: int|
                0 <= t < ordered@.len() ==> (#[trigger] ordered@[t]).amount > 0
                    && ordered@[t].lot_number < next_lot_number,
        decreases ordered@.len() - i,
    {
        let ghost taken0 = taken@;
        let lot = ordered[i];
        if lot.amount <= need {
            taken.push(lot);
            need = need - lot.amount;
            proof {
                assert(taken@ =~= ordered@.take(i + 1)) by {
                    assert(ordered@.take(i + 1).drop_last() =~= ordered@.take(i as int));
                }
                assert(sum_amounts(taken@) == sum_amounts(taken0) + lot.amount) by {
                    assert(taken@.drop_last() =~= taken0);
                }
            }
        } else {
            let part = Lot { lot_number: lot.lot_number, amount: need, acquisition: lot.acquisition };
            let res = Lot {
                lot_number: next_lot_number,
                amount: lot.amount - need,
                acquisition: lot.acquisition,
            };
            taken.push(part);
            residual = Some(res);
            split = Some(
                SplitInfo { consumed_number: lot.lot_number, residual_number: next_lot_number },
            );
            need = 0;
            proof {
                assert(sum_amounts(taken@) == sum_amounts(taken0) + part.amount) by {
                    assert(taken@.drop_last() =~= taken0);
                }
                assert(forall|k: int| 0 <= k < i ==> taken@[k] == ordered@[k]) by {
                    assert(forall|k: int| 0 <= k < i ==> taken@[k] == taken0[k]);
                    assert(taken0 == ordered@.take(i as int));
                }
            }
        }
        i = i + 1;
    }
    if need > 0 {
        proof {
            assert(split is None);
            assert(i == ordered@.len());
            assert(taken@ == ordered@.take(i as int));
            assert(ordered@.take(i as int) =~= ordered@);
            assert(sum_amounts(lots@) < target);
        }
        return Err(LedgerError::InsufficientLots);
    }
    let ghost ii = i as int;
    let ghost q = un_consumed_pred(taken@);
    proof {
        assert(greedy_shape(ordered@, taken@, residual, split, next_lot_number, target));
        assert forall|k: int| 0 <= k < ii implies (#[trigger] taken@[k]).lot_number == ordered@[
            k
        ].lot_number by {
            if split is None {
                assert(taken@[k] == ordered@.take(ii)[k]);
            }
        }
    }
    let mut remaining: Vec<Lot> = Vec::new();
    let mut j: usize = 0;
    proof {
        assert(remaining@ =~= filter_lots(lots@.take(0), q));
    }
    while j < lots.len()
        invariant
            0 <= j <= lots@.len(),
            remaining@ == filter_lots(lots@.take(j as int), q),
            q == un_consumed_pred(taken@),
        decreases lots@.len() - j,
    {
        proof {
            assert(lots@.take(j + 1).drop_last() =~= lots@.take(j as int));
            assert(lots@.take(j + 1).last() == lots@[j as int]);
        }
        if !contains_lot_number(&taken, lots[j].lot_number) {
            remaining.push(lots[j]);
        }
        j = j + 1;
    }
    proof {
        assert(lots@.take(lots@.len() as int) =~= lots@);
    }
    let ghost core = remaining@;
    let next: u64;
    match residual {
        Some(res) => {
            remaining.push(res);
            next = next_lot_number + 1;
        },
        None => {
            next = next_lot_number;
        },
    }
    let sel = LotSelection {
        consumed: taken,
        remaining,
        split,
        next_lot_number: next,
        amount: target,
    };
    proof {
        lemma_policy_selection_ok(
            lots@,
            ordered@,
            taken@,
            core,
            residual,
            split,
            method,
            target,
            next_lot_number,
            sel@,
        );
    }
    Ok(sel)
}

/// A selection debits exactly its amount: what remains is the live total
/// less the consumed amount.
pub proof fn lemma_selection_sums(lots: Seq<Lot>, next0: u64, sel: SelectionV)
    requires
        selection_common(lots, next0, sel),
    ensures
        sum_amounts(sel.remaining) == sum_amounts(lots) - sel.amount,
        sel.amount <= sum_amounts(lots),
{
    broadcast use group_to_multiset_ensures;

    let core = rem_core(sel);
    let restored = spec_restored(sel);
    lemma_multiset_commutative(core, restored);
    assert((core + restored).to_multiset() == lots.to_multiset());
    lemma_sum_amounts_multiset(lots, core + restored);
    lemma_sum_concat(core, restored);
    lemma_sum_amounts_nonneg(core);
    match sel.split {
        None => {},
        Some(si) => {
            let res = sel.remaining.last();
            let ci = choose|ci: int|
                0 <= ci < sel.consumed.len() && (#[trigger] sel.consumed[ci]).lot_number
                    == si.consumed_number;
            let merged = Lot {
                lot_number: sel.consumed[ci].lot_number,
                amount: (sel.consumed[ci].amount + res.amount) as u64,
                acquisition: sel.consumed[ci].acquisition,
            };
            assert(restored =~= sel.consumed.update(ci, merged)) by {
                assert forall|k: int| 0 <= k < sel.consumed.len() implies restored[k]
                    == sel.consumed.update(ci, merged)[k] by {
                    if k != ci {
                        assert(sel.consumed[k].lot_number != sel.consumed[ci].lot_number);
                    }
                }
            }
            crate::lot::lemma_sum_update(sel.consumed, ci, merged);
            assert(sum_amounts(sel.remaining) == sum_amounts(core) + res.amount) by {
                assert(sel.remaining.drop_last() == core);
                assert(sel.remaining.last() == res);
            }
        },
    }
}

/// Picks the lots a disposal consumes.
///
/// An explicit lot-number set overrides the policy and the requested
/// amount: exactly the live lots carrying those numbers are consumed,
/// whole, and numbers matching no live lot are ignored, so an entirely
/// stale set consumes nothing.  Otherwise a missing target amount means
/// "consume everything", and a present one is covered greedily in policy
/// order.  Fails exactly when the live total cannot cover a requested
/// amount.
pub fn select_lots(
    lots: &Vec<Lot>,
    amount: Option<u64>,
    method: LotSelectionMethod,
    lot_numbers: Option<&Vec<u64>>,
    next_lot_number: u64,
) -> (r: Result<LotSelection, LedgerError>)
    requires
        lots_wf(lots@),
        numbers_below(lots@, next_lot_number as int),
        next_lot_number < u64::MAX,
    ensures
        match r {
            Ok(sel) => match lot_numbers {
                Some(ns) => selection_explicit_ok(lots@, ns@, next_lot_number, sel@),
                None => match amount {
                    None => selection_all_ok(lots@, next_lot_number, sel@),
                    Some(a) => selection_policy_ok(lots@, method, a, next_lot_number, sel@),
                },
            },
            Err(e) => e == LedgerError::InsufficientLots,
        },
        (r is Err) <==> (lot_numbers is None && (amount matches Some(a) && sum_amounts(lots@)
            < a)),
{
    match lot_numbers {
        Some(ns) => Ok(select_explicit(lots, ns, next_lot_number)),
        None => match amount {
            None => Ok(select_all(lots, next_lot_number)),
            Some(a) => select_policy(lots, a, method, next_lot_number),
        },
    }
}

} // verus!
