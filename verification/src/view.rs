//! Verified computations behind the account and lot views: column sorting,
//! the click-driven lot selection set, and per-token holding totals.

use vstd::prelude::*;
use vstd::multiset::Multiset;
use vstd::seq_lib::group_to_multiset_ensures;
use crate::date::spec_day_number;
use crate::lot::{
    AccountV, Lot, Token, TrackedAccount, all_valid_dates, clone_lots, filter_lots, sum_amounts,
    lemma_sum_amounts_nonneg,
};
use crate::select::numbered_pred;

verus! {

/// The lot-table column a view sorts by.
#[derive(Clone, Copy, PartialEq, Eq, Structural, Debug)]
pub enum SortKey {
    Number,
    Date,
    Amount,
    Price,
}

/// The sorted column's value of a lot, as one integer.
pub open spec fn sort_measure(key: SortKey, a: Lot) -> int {
    match key {
        SortKey::Number => a.lot_number as int,
        SortKey::Date => spec_day_number(a.acquisition.when),
        SortKey::Amount => a.amount as int,
        SortKey::Price => a.acquisition.price as int,
    }
}

/// "`a` may stand before `b`" in the chosen column and direction.
pub open spec fn view_le(key: SortKey, ascending: bool, a: Lot, b: Lot) -> bool {
    if ascending {
        sort_measure(key, a) <= sort_measure(key, b)
    } else {
        sort_measure(key, b) <= sort_measure(key, a)
    }
}

pub open spec fn sorted_by_view(s: Seq<Lot>, key: SortKey, ascending: bool) -> bool {
    forall|i: int, j: int|
        0 <= i < j < s.len() ==> view_le(key, ascending, s[i], s[j])
}

fn view_le_exec(key: SortKey, ascending: bool, a: &Lot, b: &Lot) -> (r: bool)
    requires
        a.acquisition.when.is_valid(),
        b.acquisition.when.is_valid(),
    ensures
        r == view_le(key, ascending, *a, *b),
{
    let ma: u64 = match key {
        SortKey::Number => a.lot_number,
        SortKey::Date => a.acquisition.when.day_number() as u64,
        SortKey::Amount => a.amount,
        SortKey::Price => a.acquisition.price,
    };
    let mb: u64 = match key {
        SortKey::Number => b.lot_number,
        SortKey::Date => b.acquisition.when.day_number() as u64,
        SortKey::Amount => b.amount,
        SortKey::Price => b.acquisition.price,
    };
    if ascending {
        ma <= mb
    } else {
        mb <= ma
    }
}

/// Orders the lots for display by one column, keeping every lot.
pub fn sort_lots(lots: &Vec<Lot>, key: SortKey, ascending: bool) -> (r: Vec<Lot>)
    requires
        all_valid_dates(lots@),
    ensures
        r@.to_multiset() == lots@.to_multiset(),
        sorted_by_view(r@, key, ascending),
{
    let mut rest = clone_lots(lots);
    let mut out: Vec<Lot> = Vec::new();
    proof {
        broadcast use group_to_multiset_ensures;

        assert(out@.to_multiset().add(rest@.to_multiset()) =~= lots@.to_multiset());
    }
    while rest.len() > 0
        invariant
            out@.to_multiset().add(rest@.to_multiset()) == lots@.to_multiset(),
            sorted_by_view(out@, key, ascending),
            forall|i: int, j: int|
                0 <= i < out@.len() && 0 <= j < rest@.len() ==> view_le(
                    key,
                    ascending,
                    out@[i],
                    rest@[j],
                ),
            all_valid_dates(out@),
            all_valid_dates(rest@),
        decreases rest@.len(),
    {
        let ghost rest0 = rest@;
        let ghost out0 = out@;
        let mut m: usize = 0;
        let mut k: usize = 1;
        while k < rest.len()
            invariant
                0 <= m < k <= rest@.len(),
                rest@.len() > 0,
                all_valid_dates(rest@),
                forall|j: int| 0 <= j < k ==> view_le(key, ascending, rest@[m as int], rest@[j]),
            decreases rest@.len() - k,
        {
            if view_le_exec(key, ascending, &rest[k], &rest[m]) {
                m = k;
            }
            k = k + 1;
        }
        let x = rest.remove(m);
        out.push(x);
        proof {
            broadcast use group_to_multiset_ensures;

            assert(rest0.remove(m as int).to_multiset() =~= rest0.to_multiset().remove(
                rest0[m as int],
            ));
            assert(out@.to_multiset() =~= out0.to_multiset().insert(x));
            assert(out@.to_multiset().add(rest@.to_multiset()) =~= lots@.to_multiset());
            assert forall|i: int, j: int|
                0 <= i < out@.len() && 0 <= j < rest@.len() implies view_le(
                key,
                ascending,
                out@[i],
                rest@[j],
            ) by {
                if j < m {
                    assert(rest@[j] == rest0[j]);
                } else {
                    assert(rest@[j] == rest0[j + 1]);
                }
            }
            assert(all_valid_dates(rest@)) by {
                assert(forall|i: int|
                    0 <= i < rest@.len() ==> rest@[i] == (if i < m {
                        rest0[i]
                    } else {
                        rest0[i + 1]
                    }));
            }
        }
    }
    proof {
        broadcast use group_to_multiset_ensures;

        assert(rest@.to_multiset() =~= Multiset::<Lot>::empty());
        assert(out@.to_multiset() =~= lots@.to_multiset());
    }
    out
}

/// The row index a shift-click extends the selection to: the last row
/// whose lot is the clicked one, or the first row when none matches.
pub open spec fn sel_end_of(lots: Seq<Lot>, clicked: u64) -> int
    decreases lots.len(),
{
    if lots.len() == 0 {
        0
    } else if lots.last().lot_number == clicked {
        lots.len() - 1
    } else {
        sel_end_of(lots.drop_last(), clicked)
    }
}

/// The row index a shift-click extends the selection from: the last row
/// holding a selected lot other than the clicked one, or the first row.
pub open spec fn sel_beg_of(lots: Seq<Lot>, selected: Seq<u64>, clicked: u64) -> int
    decreases lots.len(),
{
    if lots.len() == 0 {
        0
    } else if lots.last().lot_number != clicked && selected.contains(lots.last().lot_number) {
        lots.len() - 1
    } else {
        sel_beg_of(lots.drop_last(), selected, clicked)
    }
}

/// The lot numbers a click leaves selected.
///
/// A plain click selects the clicked lot alone; a meta click toggles it;
/// a shift click adds every row between the last selected row and the
/// clicked row, both included.
pub open spec fn selection_after(
    lots: Seq<Lot>,
    selected: Seq<u64>,
    clicked: u64,
    shift: bool,
    meta: bool,
    n: u64,
) -> bool {
    if shift {
        let e = sel_end_of(lots, clicked);
        let b = sel_beg_of(lots, selected, clicked);
        let lo = if b <= e {
            b
        } else {
            e
        };
        let hi = if b <= e {
            e
        } else {
            b
        };
        selected.contains(n) || (exists|k: int|
            lo <= k <= hi && k < lots.len() && (#[trigger] lots[k]).lot_number == n)
    } else if meta {
        if selected.contains(clicked) {
            selected.contains(n) && n != clicked
        } else {
            selected.contains(n) || n == clicked
        }
    } else {
        n == clicked
    }
}

fn contains_u64(v: &Vec<u64>, n: u64) -> (r: bool)
    ensures
        r == v@.contains(n),
{
    let mut i: usize = 0;
    while i < v.len()
        invariant
            0 <= i <= v@.len(),
            forall|k: int| 0 <= k < i ==> v@[k] != n,
        decreases v@.len() - i,
    {
        if v[i] == n {
            return true;
        }
        i = i + 1;
    }
    false
}

/// Adds a number to the selection set unless it is already there.
fn push_unique(out: &mut Vec<u64>, n: u64)
    requires
        forall|a: int, b: int| 0 <= a < b < old(out)@.len() ==> old(out)@[a] != old(out)@[b],
    ensures
        forall|a: int, b: int| 0 <= a < b < final(out)@.len() ==> final(out)@[a] != final(out)@[b],
        forall|m: u64| #[trigger] final(out)@.contains(m) <==> (old(out)@.contains(m) || m == n),
{
    if !contains_u64(out, n) {
        out.push(n);
        proof {
            let prev = old(out)@;
            assert forall|m: u64| #[trigger] out@.contains(m) implies prev.contains(m) || m
                == n by {
                let w = choose|w: int| 0 <= w < out@.len() && out@[w] == m;
                if w < out@.len() - 1 {
                    assert(prev[w] == m);
                }
            }
            assert(forall|m: u64| prev.contains(m) ==> #[trigger] out@.contains(m)) by {
                assert(forall|w: int| 0 <= w < prev.len() ==> out@[w] == prev[w]);
            }
            assert(out@.contains(n)) by {
                assert(out@[out@.len() - 1] == n);
            }
            assert forall|a: int, b: int| 0 <= a < b < out@.len() implies out@[a] != out@[b] by {
                if b == out@.len() - 1 {
                    assert(prev[a] == out@[a]);
                    assert(!prev.contains(n));
                    if out@[a] == n {
                        assert(prev.contains(n));
                    }
                }
            }
        }
    }
}

/// One more element of a prefix: what the longer prefix contains.
proof fn lemma_take_contains_u64(s: Seq<u64>, j: int)
    requires
        0 <= j < s.len(),
    ensures
        forall|n: u64|
            #[trigger] s.take(j + 1).contains(n) <==> (s.take(j).contains(n) || n == s[j]),
{
    assert forall|n: u64| #[trigger] s.take(j + 1).contains(n) implies (s.take(j).contains(n) || n
        == s[j]) by {
        let w = choose|w: int| #![trigger s.take(j + 1)[w]] 0 <= w < j + 1 && s.take(j + 1)[w] == n;
        if w < j {
            assert(s.take(j)[w] == n);
        }
    }
    assert forall|n: u64| s.take(j).contains(n) || n == s[j] implies #[trigger] s.take(
        j + 1,
    ).contains(n) by {
        if s.take(j).contains(n) {
            let w = choose|w: int| 0 <= w < j && s.take(j)[w] == n;
            assert(s.take(j + 1)[w] == n);
        } else {
            assert(s.take(j + 1)[j] == n);
        }
    }
}

/// Copies a selection, dropping duplicates and, optionally, one number.
fn copy_selection(selected: &Vec<u64>, drop: Option<u64>) -> (r: Vec<u64>)
    ensures
        forall|a: int, b: int| 0 <= a < b < r@.len() ==> r@[a] != r@[b],
        forall|n: u64|
            #[trigger] r@.contains(n) <==> (selected@.contains(n) && (drop matches Some(d) ==> n
                != d)),
{
    let mut out: Vec<u64> = Vec::new();
    let mut j: usize = 0;
    while j < selected.len()
        invariant
            0 <= j <= selected@.len(),
            forall|a: int, b: int| 0 <= a < b < out@.len() ==> out@[a] != out@[b],
            forall|n: u64|
                #[trigger] out@.contains(n) <==> (selected@.take(j as int).contains(n) && (
                drop matches Some(d) ==> n != d)),
        decreases selected@.len() - j,
    {
        proof {
            lemma_take_contains_u64(selected@, j as int);
        }
        let keep = match drop {
            Some(d) => selected[j] != d,
            None => true,
        };
        if keep {
            push_unique(&mut out, selected[j]);
        }
        j = j + 1;
    }
    proof {
        assert(selected@.take(selected@.len() as int) =~= selected@);
    }
    out
}

/// Applies one click to the lot selection set.
pub fn update_selection(
    lots: &Vec<Lot>,
    selected: &Vec<u64>,
    clicked: u64,
    shift: bool,
    meta: bool,
) -> (r: Vec<u64>)
    ensures
        forall|a: int, b: int| 0 <= a < b < r@.len() ==> r@[a] != r@[b],
        forall|n: u64|
            #[trigger] r@.contains(n) <==> selection_after(lots@, selected@, clicked, shift, meta, n),
{
    if shift {
        let mut send: usize = 0;
        let mut sbeg: usize = 0;
        let mut i: usize = 0;
        while i < lots.len()
            invariant
                0 <= i <= lots@.len(),
                0 <= send <= i,
                0 <= sbeg <= i,
                send == sel_end_of(lots@.take(i as int), clicked),
                sbeg == sel_beg_of(lots@.take(i as int), selected@, clicked),
            decreases lots@.len() - i,
        {
            proof {
                assert(lots@.take(i + 1).drop_last() =~= lots@.take(i as int));
                assert(lots@.take(i + 1).last() == lots@[i as int]);
            }
            if lots[i].lot_number == clicked {
                send = i;
            } else if contains_u64(selected, lots[i].lot_number) {
                sbeg = i;
            }
            i = i + 1;
        }
        proof {
            assert(lots@.take(lots@.len() as int) =~= lots@);
        }
        let lo: usize = if sbeg <= send {
            sbeg
        } else {
            send
        };
        let hi: usize = if sbeg <= send {
            send
        } else {
            sbeg
        };
        let mut out = copy_selection(selected, None);
        let mut k: usize = lo;
        while k <= hi && k < lots.len()
            invariant
                lo <= k,
                k <= hi + 1,
                forall|a: int, b: int| 0 <= a < b < out@.len() ==> out@[a] != out@[b],
                forall|n: u64|
                    #[trigger] out@.contains(n) <==> (selected@.contains(n) || (exists|w: int|
                        lo <= w < k && w < lots@.len() && (#[trigger] lots@[w]).lot_number == n)),
            decreases lots@.len() - k,
        {
            push_unique(&mut out, lots[k].lot_number);
            proof {
                assert forall|n: u64| #[trigger] out@.contains(n) implies (selected@.contains(n)
                    || (exists|w: int|
                    lo <= w < k + 1 && w < lots@.len() && (#[trigger] lots@[w]).lot_number
                        == n)) by {
                    if !selected@.contains(n) {
                        if n == lots@[k as int].lot_number {
                            assert(lots@[k as int].lot_number == n);
                        }
                    }
                }
            }
            k = k + 1;
        }
        proof {
            assert forall|n: u64| #[trigger] out@.contains(n) implies selection_after(
                lots@,
                selected@,
                clicked,
                shift,
                meta,
                n,
            ) by {
                if !selected@.contains(n) {
                    let w = choose|w: int|
                        lo <= w < k && w < lots@.len() && (#[trigger] lots@[w]).lot_number == n;
                    assert(w <= hi as int);
                }
            }
            assert forall|n: u64|
                selection_after(lots@, selected@, clicked, shift, meta, n) implies #[trigger] out@.contains(
                n,
            ) by {
                if !selected@.contains(n) {
                    let w = choose|w: int|
                        lo <= w <= hi as int && w < lots@.len() && (#[trigger] lots@[
                            w
                        ]).lot_number == n;
                    assert(w < k);
                }
            }
        }
        out
    } else if meta {
        if contains_u64(selected, clicked) {
            copy_selection(selected, Some(clicked))
        } else {
            let mut out = copy_selection(selected, None);
            push_unique(&mut out, clicked);
            out
        }
    } else {
        let mut out: Vec<u64> = Vec::new();
        let ghost empty = out@;
        proof {
            assert(forall|n: u64| !empty.contains(n));
        }
        push_unique(&mut out, clicked);
        out
    }
}

/// The selected live amount: the sum of the amounts of the selected lots.
pub fn selected_amount(lots: &Vec<Lot>, selected: &Vec<u64>) -> (r: u128)
    ensures
        r == sum_amounts(filter_lots(lots@, numbered_pred(selected@))),
{
    let ghost p = numbered_pred(selected@);
    let nl = lots.len();
    let mut total: u128 = 0;
    let mut j: usize = 0;
    proof {
        lemma_sum_amounts_nonneg(lots@);
        crate::lot::lemma_sum_bound(lots@);
        assert(lots@.len() == nl as int);
        assert(lots@.len() * (u64::MAX as int) < u128::MAX) by (nonlinear_arith)
            requires
                lots@.len() <= usize::MAX,
        ;
    }
    while j < lots.len()
        invariant
            0 <= j <= lots@.len(),
            p == numbered_pred(selected@),
            total == sum_amounts(filter_lots(lots@.take(j as int), p)),
            total <= (j as int) * (u64::MAX as int),
            lots@.len() * (u64::MAX as int) < u128::MAX,
        decreases lots@.len() - j,
    {
        proof {
            assert(lots@.take(j + 1).drop_last() =~= lots@.take(j as int));
            assert(lots@.take(j + 1).last() == lots@[j as int]);
            assert((j as int) * (u64::MAX as int) + (u64::MAX as int) == (j + 1) * (
            u64::MAX as int)) by (nonlinear_arith);
            assert((j + 1) * (u64::MAX as int) <= lots@.len() * (u64::MAX as int))
                by (nonlinear_arith)
                requires
                    j + 1 <= lots@.len(),
            ;
        }
        if contains_u64(selected, lots[j].lot_number) {
            total = total + lots[j].amount as u128;
            proof {
                assert(filter_lots(lots@.take(j + 1), p).drop_last() =~= filter_lots(
                    lots@.take(j as int),
                    p,
                ));
            }
        }
        j = j + 1;
    }
    proof {
        assert(lots@.take(lots@.len() as int) =~= lots@);
    }
    total
}

/// The balance held in one token, summed over every tracked account.
pub open spec fn spec_token_total(accounts: Seq<AccountV>, token: Token) -> int
    decreases accounts.len(),
{
    if accounts.len() == 0 {
        0
    } else {
        spec_token_total(accounts.drop_last(), token) + (if accounts.last().token == token {
            accounts.last().balance as int
        } else {
            0
        })
    }
}

/// The balance one token holds over a prefix never exceeds its total,
/// and no total is negative or too large for the accumulator.
proof fn lemma_token_total_prefix_one(s: Seq<AccountV>, n: int, token: Token)
    requires
        0 <= n <= s.len(),
    ensures
        0 <= spec_token_total(s.take(n), token) <= spec_token_total(s, token),
    decreases s.len() - n,
{
    lemma_token_total_nonneg(s.take(n), token);
    if n == s.len() {
        assert(s.take(n) =~= s);
    } else {
        lemma_token_total_prefix_one(s, n + 1, token);
        assert(s.take(n + 1).drop_last() =~= s.take(n));
        assert(s.take(n + 1).last() == s[n]);
    }
}

proof fn lemma_token_total_nonneg(s: Seq<AccountV>, t: Token)
    ensures
        0 <= spec_token_total(s, t),
    decreases s.len(),
{
    if s.len() > 0 {
        lemma_token_total_nonneg(s.drop_last(), t);
    }
}

proof fn lemma_token_total_bound_one(s: Seq<AccountV>, t: Token)
    ensures
        spec_token_total(s, t) <= s.len() * (u64::MAX as int),
    decreases s.len(),
{
    if s.len() > 0 {
        lemma_token_total_bound_one(s.drop_last(), t);
        assert((s.len() - 1) * (u64::MAX as int) + (u64::MAX as int) == s.len() * (
        u64::MAX as int)) by (nonlinear_arith);
    }
}

fn contains_token(v: &Vec<Token>, t: Token) -> (r: bool)
    ensures
        r == v@.contains(t),
{
    let mut i: usize = 0;
    while i < v.len()
        invariant
            0 <= i <= v@.len(),
            forall|k: int| 0 <= k < i ==> v@[k] != t,
        decreases v@.len() - i,
    {
        if token_eq_view(v[i], t) {
            return true;
        }
        i = i + 1;
    }
    false
}

/// The balance held in one token, summed over every tracked account.
fn token_total(accounts: &Vec<TrackedAccount>, token: Token) -> (r: u128)
    ensures
        r == spec_token_total(accounts@.map_values(|x: TrackedAccount| x@), token),
{
    let ghost avs = accounts@.map_values(|x: TrackedAccount| x@);
    let n = accounts.len();
    proof {
        assert(avs.len() == n as int);
        lemma_token_total_bound_one(avs, token);
        assert(avs.len() * (u64::MAX as int) < u128::MAX) by (nonlinear_arith)
            requires
                avs.len() <= usize::MAX,
        ;
    }
    let mut total: u128 = 0;
    let mut i: usize = 0;
    while i < n
        invariant
            0 <= i <= n,
            n == accounts@.len(),
            avs == accounts@.map_values(|x: TrackedAccount| x@),
            total == spec_token_total(avs.take(i as int), token),
            spec_token_total(avs, token) < u128::MAX,
        decreases n - i,
    {
        proof {
            assert(avs.take(i + 1).drop_last() =~= avs.take(i as int));
            assert(avs.take(i + 1).last() == avs[i as int]);
            assert(avs[i as int] == accounts@[i as int]@);
            lemma_token_total_prefix_one(avs, i + 1, token);
        }
        if token_eq_view(accounts[i].token, token) {
            total = total + accounts[i].last_update_balance as u128;
        }
        i = i + 1;
    }
    proof {
        assert(avs.take(n as int) =~= avs);
    }
    total
}

/// Sums the last-known balances per token: one entry per token actually
/// held by some tracked account, carrying that token's exact total.
pub fn totals_by_token(accounts: &Vec<TrackedAccount>) -> (r: Vec<(Token, u128)>)
    ensures
        forall|a: int, b: int| 0 <= a < b < r@.len() ==> r@[a].0 != r@[b].0,
        forall|a: int|
            0 <= a < r@.len() ==> (#[trigger] r@[a]).1 == spec_token_total(
                accounts@.map_values(|x: TrackedAccount| x@),
                r@[a].0,
            ),
        forall|i: int|
            0 <= i < accounts@.len() ==> exists|a: int|
                0 <= a < r@.len() && (#[trigger] r@[a]).0 == (#[trigger] accounts@[i])@.token,
        forall|a: int|
            0 <= a < r@.len() ==> exists|w: int|
                0 <= w < accounts@.len() && (#[trigger] accounts@[w])@.token == (
                #[trigger] r@[a]).0,
{
    let ghost avs = accounts@.map_values(|x: TrackedAccount| x@);
    let n = accounts.len();
    let mut tokens: Vec<Token> = Vec::new();
    let mut i: usize = 0;
    while i < n
        invariant
            0 <= i <= n,
            n == accounts@.len(),
            avs == accounts@.map_values(|x: TrackedAccount| x@),
            forall|a: int, b: int| 0 <= a < b < tokens@.len() ==> tokens@[a] != tokens@[b],
            forall|w: int| 0 <= w < i ==> tokens@.contains((#[trigger] avs[w]).token),
            forall|a: int|
                #![trigger tokens@[a]]
                0 <= a < tokens@.len() ==> exists|w: int|
                    0 <= w < i && (#[trigger] avs[w]).token == tokens@[a],
        decreases n - i,
    {
        proof {
            assert(avs[i as int] == accounts@[i as int]@);
        }
        if !contains_token(&tokens, accounts[i].token) {
            let ghost tokens0 = tokens@;
            tokens.push(accounts[i].token);
            proof {
                assert(forall|c: int| 0 <= c < tokens0.len() ==> tokens@[c] == tokens0[c]);
                assert(tokens@[tokens@.len() - 1] == avs[i as int].token);
                assert forall|a: int, b: int| 0 <= a < b < tokens@.len() implies tokens@[a]
                    != tokens@[b] by {
                    if b == tokens@.len() - 1 {
                        assert(!tokens0.contains(avs[i as int].token));
                        if tokens@[a] == tokens@[b] {
                            assert(tokens0[a] == avs[i as int].token);
                        }
                    }
                }
                assert forall|w: int| 0 <= w < i + 1 implies tokens@.contains(
                    (#[trigger] avs[w]).token,
                ) by {
                    if w < i {
                        let c = choose|c: int|
                            0 <= c < tokens0.len() && tokens0[c] == avs[w].token;
                        assert(tokens@[c] == avs[w].token);
                    } else {
                        assert(tokens@[tokens@.len() - 1] == avs[w].token);
                    }
                }
                assert forall|a: int| #![trigger tokens@[a]] 0 <= a < tokens@.len() implies exists|w: int|
                    0 <= w < i + 1 && (#[trigger] avs[w]).token == tokens@[a] by {
                    if a < tokens@.len() - 1 {
                        let w0 = choose|w0: int|
                            0 <= w0 < i && (#[trigger] avs[w0]).token == tokens0[a];
                        assert(avs[w0].token == tokens@[a]);
                    } else {
                        assert(avs[i as int].token == tokens@[a]);
                    }
                }
            }
        } else {
            proof {
                assert(tokens@.contains(avs[i as int].token));
            }
        }
        i = i + 1;
    }
    let mut out: Vec<(Token, u128)> = Vec::new();
    let mut a: usize = 0;
    while a < tokens.len()
        invariant
            0 <= a <= tokens@.len(),
            out@.len() == a,
            avs == accounts@.map_values(|x: TrackedAccount| x@),
            forall|c: int| 0 <= c < a ==> (#[trigger] out@[c]).0 == tokens@[c],
            forall|c: int|
                0 <= c < a ==> (#[trigger] out@[c]).1 == spec_token_total(avs, out@[c].0),
        decreases tokens@.len() - a,
    {
        let t = tokens[a];
        let total = token_total(accounts, t);
        out.push((t, total));
        proof {
            assert(forall|c: int| 0 <= c < a ==> out@[c] == out@.drop_last()[c]);
            assert(out@[a as int] == (t, total));
        }
        a = a + 1;
    }
    proof {
        assert forall|x: int, y: int| 0 <= x < y < out@.len() implies out@[x].0 != out@[y].0 by {
            assert(out@[x].0 == tokens@[x] && out@[y].0 == tokens@[y]);
        }
        assert forall|w: int| 0 <= w < accounts@.len() implies exists|c: int|
            0 <= c < out@.len() && (#[trigger] out@[c]).0 == (#[trigger] accounts@[w])@.token by {
            assert(avs[w] == accounts@[w]@);
            assert(tokens@.contains(avs[w].token));
            let c = choose|c: int| 0 <= c < tokens@.len() && tokens@[c] == avs[w].token;
            assert(out@[c].0 == accounts@[w]@.token);
        }
        assert forall|c: int| 0 <= c < out@.len() implies exists|w: int|
            0 <= w < accounts@.len() && (#[trigger] accounts@[w])@.token == (
            #[trigger] out@[c]).0 by {
            let w0 = choose|w0: int|
                0 <= w0 < accounts@.len() && (#[trigger] avs[w0]).token == tokens@[c];
            assert(accounts@[w0]@.token == out@[c].0);
        }
    }
    out
}

fn token_eq_view(a: Token, b: Token) -> (r: bool)
    ensures
        r == (a == b),
{
    match (a, b) {
        (Token::Native, Token::Native) => true,
        (Token::Mint(x), Token::Mint(y)) => x == y,
        _ => false,
    }
}

} // verus!
