//! Tax lots, tracked accounts and disposed lots.
//!
//! A lot is a discrete, dated, priced quantity of one asset.  An account's
//! live lots are kept strictly ordered by lot number; numbers are assigned
//! from a ledger-wide counter and never reused, so ordering by number is
//! ordering by creation time.

use vstd::prelude::*;
use vstd::multiset::Multiset;
use vstd::seq_lib::group_to_multiset_ensures;
use crate::date::Date;

verus! {

/// How a lot was acquired; reward acquisitions count as income when disposed.
#[derive(Clone, Copy, PartialEq, Eq, Structural, Debug)]
pub enum AcquisitionKind {
    Purchase,
    Reward,
}

/// When, at what fixed-point unit price, and how a lot was acquired.
#[derive(Clone, Copy, PartialEq, Eq, Structural, Debug)]
pub struct Acquisition {
    pub when: Date,
    /// Price per smallest asset unit, in fixed-point price units.
    pub price: u64,
    pub kind: AcquisitionKind,
}

/// A live tax lot: a positive amount of the asset with one acquisition.
#[derive(Clone, Copy, PartialEq, Eq, Structural, Debug)]
pub struct Lot {
    /// Unique within the ledger's lifetime; never reused.
    pub lot_number: u64,
    /// Amount in the asset's smallest units; positive while the lot is live.
    pub amount: u64,
    pub acquisition: Acquisition,
}

/// The asset an account holds: the network's native asset or a token mint.
#[derive(Clone, Copy, PartialEq, Eq, Structural, Debug)]
pub enum Token {
    Native,
    Mint(u64),
}

impl Token {
    pub fn is_native(&self) -> (r: bool)
        ensures
            r == (*self is Native),
    {
        match self {
            Token::Native => true,
            Token::Mint(_) => false,
        }
    }
}

/// One tracked on-chain account and its live lots.
pub struct TrackedAccount {
    pub address: u64,
    pub token: Token,
    pub lots: Vec<Lot>,
    /// The balance last observed on-chain for this account.
    pub last_update_balance: u64,
}

/// Mathematical value of a [`TrackedAccount`].
#[verifier::ext_equal]
pub struct AccountV {
    pub address: u64,
    pub token: Token,
    pub lots: Seq<Lot>,
    pub balance: u64,
}

impl View for TrackedAccount {
    type V = AccountV;

    open spec fn view(&self) -> AccountV {
        AccountV {
            address: self.address,
            token: self.token,
            lots: self.lots@,
            balance: self.last_update_balance,
        }
    }
}

/// A lot that has left the live set, kept for gain reporting only.
#[derive(Clone, Copy, PartialEq, Eq, Structural, Debug)]
pub struct DisposedLot {
    pub lot: Lot,
    pub token: Token,
    /// Disposal price per smallest asset unit, in fixed-point price units.
    pub price: u64,
    pub when: Date,
}

/// Sum of the lot amounts of a sequence.
pub open spec fn sum_amounts(s: Seq<Lot>) -> int
    decreases s.len(),
{
    if s.len() == 0 {
        0
    } else {
        sum_amounts(s.drop_last()) + s.last().amount
    }
}

/// Lot numbers strictly increase along the sequence (so they are distinct).
pub open spec fn strictly_sorted(s: Seq<Lot>) -> bool {
    forall|i: int, j: int|
        0 <= i < j < s.len() ==> s[i].lot_number < s[j].lot_number
}

pub open spec fn all_positive(s: Seq<Lot>) -> bool {
    forall|i: int| 0 <= i < s.len() ==> s[i].amount > 0
}

/// Every lot number in the sequence lies below `n`.
pub open spec fn numbers_below(s: Seq<Lot>, n: int) -> bool {
    forall|i: int| 0 <= i < s.len() ==> s[i].lot_number < n
}

pub open spec fn contains_number(s: Seq<Lot>, n: u64) -> bool {
    exists|i: int| 0 <= i < s.len() && s[i].lot_number == n
}

pub open spec fn all_valid_dates(s: Seq<Lot>) -> bool {
    forall|i: int| 0 <= i < s.len() ==> (#[trigger] s[i]).acquisition.when.is_valid()
}

/// No two lots of the sequence share a lot number.
pub open spec fn distinct_numbers(s: Seq<Lot>) -> bool {
    forall|i: int, j: int|
        0 <= i < j < s.len() ==> s[i].lot_number != s[j].lot_number
}

/// The live-lot state an account must keep between ledger operations.
pub open spec fn lots_wf(s: Seq<Lot>) -> bool {
    &&& strictly_sorted(s)
    &&& all_positive(s)
    &&& all_valid_dates(s)
    &&& sum_amounts(s) <= u64::MAX
}

pub proof fn lemma_sum_amounts_nonneg(s: Seq<Lot>)
    ensures
        sum_amounts(s) >= 0,
    decreases s.len(),
{
    if s.len() > 0 {
        lemma_sum_amounts_nonneg(s.drop_last());
    }
}

/// A prefix of a sequence sums to no more than the whole sequence.
pub proof fn lemma_sum_amounts_take(s: Seq<Lot>, n: int)
    requires
        0 <= n <= s.len(),
    ensures
        sum_amounts(s.take(n)) + sum_amounts(s.skip(n)) == sum_amounts(s),
    decreases s.len() - n,
{
    if n == s.len() {
        assert(s.take(n) =~= s);
        assert(s.skip(n) =~= Seq::<Lot>::empty());
    } else {
        lemma_sum_amounts_take(s, n + 1);
        assert(s.take(n + 1).drop_last() =~= s.take(n));
        assert(s.take(n + 1).last() == s[n]);
        lemma_sum_skip_unfold(s, n);
    }
}

/// Splits the sum of a suffix into its first element and the rest.
proof fn lemma_sum_skip_unfold(s: Seq<Lot>, n: int)
    requires
        0 <= n < s.len(),
    ensures
        sum_amounts(s.skip(n)) == s[n].amount + sum_amounts(s.skip(n + 1)),
    decreases s.len() - n,
{
    lemma_sum_first_rest(s.skip(n));
    assert(s.skip(n).drop_first() =~= s.skip(n + 1));
    assert(s.skip(n).first() == s[n]);
}

pub proof fn lemma_sum_first_rest(s: Seq<Lot>)
    requires
        s.len() > 0,
    ensures
        sum_amounts(s) == s.first().amount + sum_amounts(s.drop_first()),
    decreases s.len(),
{
    if s.len() == 1 {
        assert(s.drop_first() =~= Seq::<Lot>::empty());
        assert(sum_amounts(s.drop_first()) == 0);
        assert(s.drop_last() =~= Seq::<Lot>::empty());
        assert(sum_amounts(s.drop_last()) == 0);
        assert(sum_amounts(s) == s.last().amount);
        assert(s.first() == s.last());
    } else {
        let t = s.drop_last();
        lemma_sum_first_rest(t);
        assert(sum_amounts(s) == sum_amounts(t) + s.last().amount);
        assert(s.drop_first().drop_last() =~= t.drop_first());
        assert(s.drop_first().last() == s.last());
        assert(t.first() == s.first());
        assert(sum_amounts(s.drop_first()) == sum_amounts(s.drop_first().drop_last())
            + s.drop_first().last().amount);
        assert(sum_amounts(s.drop_first().drop_last()) == sum_amounts(t.drop_first()));
        assert(sum_amounts(s.drop_first()) == sum_amounts(t.drop_first()) + s.last().amount);
        assert(sum_amounts(s) == s.first().amount + sum_amounts(s.drop_first()));
    }
}

/// Equal multisets of lots have equal amount sums.
pub proof fn lemma_sum_amounts_multiset(x: Seq<Lot>, y: Seq<Lot>)
    requires
        x.to_multiset() == y.to_multiset(),
    ensures
        sum_amounts(x) == sum_amounts(y),
    decreases x.len(),
{
    broadcast use group_to_multiset_ensures;

    assert(x.to_multiset().len() == x.len());
    assert(y.to_multiset().len() == y.len());
    if x.len() == 0 {
        assert(y.len() == 0);
    } else {
        let a = x.last();
        assert(x.to_multiset().contains(a)) by {
            assert(x.contains(a));
        }
        assert(y.contains(a));
        let j = choose|j: int| 0 <= j < y.len() && y[j] == a;
        let x1 = x.drop_last();
        let y1 = y.remove(j);
        assert(x.remove(x.len() - 1).to_multiset() =~= x.to_multiset().remove(a));
        assert(x1 =~= x.remove(x.len() - 1));
        assert(y1.to_multiset() =~= y.to_multiset().remove(a));
        lemma_sum_amounts_multiset(x1, y1);
        lemma_sum_amounts_remove(y, j);
    }
}

proof fn lemma_sum_amounts_remove(s: Seq<Lot>, j: int)
    requires
        0 <= j < s.len(),
    ensures
        sum_amounts(s) == sum_amounts(s.remove(j)) + s[j].amount,
    decreases s.len(),
{
    if j == s.len() - 1 {
        assert(s.remove(j) =~= s.drop_last());
    } else {
        lemma_sum_amounts_remove(s.drop_last(), j);
        assert(s.remove(j).drop_last() =~= s.drop_last().remove(j));
        assert(s.remove(j).last() == s.last());
    }
}

/// Two strictly number-sorted lot sequences with the same elements are equal.
pub proof fn lemma_strictly_sorted_unique(x: Seq<Lot>, y: Seq<Lot>)
    requires
        strictly_sorted(x),
        strictly_sorted(y),
        x.to_multiset() == y.to_multiset(),
    ensures
        x == y,
    decreases x.len(),
{
    broadcast use group_to_multiset_ensures;

    assert(x.to_multiset().len() == x.len());
    assert(y.to_multiset().len() == y.len());
    if x.len() == 0 {
        assert(x =~= y);
    } else {
        assert(x.contains(x[0]));
        assert(x.to_multiset().count(x[0]) > 0);
        assert(y.to_multiset().count(x[0]) > 0);
        assert(y.contains(x[0]));
        let j = choose|j: int| 0 <= j < y.len() && y[j] == x[0];
        assert(y[0].lot_number <= y[j].lot_number);
        assert(y.contains(y[0]));
        assert(y.to_multiset().count(y[0]) > 0);
        assert(x.to_multiset().count(y[0]) > 0);
        assert(x.contains(y[0]));
        let i = choose|i: int| 0 <= i < x.len() && x[i] == y[0];
        assert(x[0].lot_number <= x[i].lot_number);
        assert(x[0].lot_number == y[0].lot_number);
        assert(i == 0);
        assert(x[0] == y[0]);
        let x1 = x.drop_first();
        let y1 = y.drop_first();
        assert(x1.to_multiset() =~= x.to_multiset().remove(x[0])) by {
            assert(x.remove(0) =~= x1);
        }
        assert(y1.to_multiset() =~= y.to_multiset().remove(y[0])) by {
            assert(y.remove(0) =~= y1);
        }
        lemma_strictly_sorted_unique(x1, y1);
        assert forall|k: int| 0 <= k < x.len() implies x[k] == y[k] by {
            if k > 0 {
                assert(x1[k - 1] == x[k]);
                assert(y1[k - 1] == y[k]);
            }
        }
        assert(x =~= y);
    }
}

/// The subsequence of lots satisfying `p`, in their original order.
pub open spec fn filter_lots(s: Seq<Lot>, p: spec_fn(Lot) -> bool) -> Seq<Lot>
    decreases s.len(),
{
    if s.len() == 0 {
        s
    } else {
        let rest = filter_lots(s.drop_last(), p);
        if p(s.last()) {
            rest.push(s.last())
        } else {
            rest
        }
    }
}

pub proof fn lemma_filter_lots_to_multiset(s: Seq<Lot>, p: spec_fn(Lot) -> bool)
    ensures
        filter_lots(s, p).to_multiset() == s.to_multiset().filter(p),
    decreases s.len(),
{
    broadcast use group_to_multiset_ensures;
    broadcast use vstd::multiset::group_multiset_axioms;

    if s.len() == 0 {
        assert(s.to_multiset() =~= Multiset::<Lot>::empty());
        assert(filter_lots(s, p).to_multiset() =~= s.to_multiset().filter(p));
    } else {
        let t = s.drop_last();
        lemma_filter_lots_to_multiset(t, p);
        assert(t.push(s.last()) =~= s);
        assert(s.to_multiset() =~= t.to_multiset().insert(s.last()));
        if p(s.last()) {
            assert(filter_lots(s, p).to_multiset() =~= filter_lots(t, p).to_multiset().insert(
                s.last(),
            ));
            assert(t.to_multiset().insert(s.last()).filter(p) =~= t.to_multiset().filter(
                p,
            ).insert(s.last()));
        } else {
            assert(t.to_multiset().insert(s.last()).filter(p) =~= t.to_multiset().filter(p));
        }
    }
}

/// Complementary predicates split a sequence's elements into the two
/// filtered halves.
pub proof fn lemma_filter_lots_partition(s: Seq<Lot>, p: spec_fn(Lot) -> bool, q: spec_fn(
    Lot,
) -> bool)
    requires
        forall|x: Lot| #[trigger] q(x) <==> !p(x),
    ensures
        s.to_multiset() == filter_lots(s, p).to_multiset().add(filter_lots(s, q).to_multiset()),
{
    broadcast use vstd::multiset::group_multiset_axioms;

    lemma_filter_lots_to_multiset(s, p);
    lemma_filter_lots_to_multiset(s, q);
    assert(s.to_multiset() =~= s.to_multiset().filter(p).add(s.to_multiset().filter(q)));
}

/// Sequences with equal multisets contain the same elements.
pub proof fn lemma_mset_contains(a: Seq<Lot>, b: Seq<Lot>)
    requires
        a.to_multiset() == b.to_multiset(),
    ensures
        forall|x: Lot| #[trigger] a.contains(x) ==> b.contains(x),
{
    broadcast use group_to_multiset_ensures;

    assert forall|x: Lot| #[trigger] a.contains(x) implies b.contains(x) by {
        assert(a.to_multiset().count(x) > 0);
        assert(b.to_multiset().count(x) > 0);
    }
}

/// Filtering keeps a sequence whose elements all satisfy the predicate.
pub proof fn lemma_filter_lots_all_true(s: Seq<Lot>, p: spec_fn(Lot) -> bool)
    requires
        forall|i: int| 0 <= i < s.len() ==> p(#[trigger] s[i]),
    ensures
        filter_lots(s, p) == s,
    decreases s.len(),
{
    if s.len() > 0 {
        lemma_filter_lots_all_true(s.drop_last(), p);
        assert(filter_lots(s, p) =~= s);
    }
}

/// Filtering drops a sequence none of whose elements satisfy the predicate.
pub proof fn lemma_filter_lots_all_false(s: Seq<Lot>, p: spec_fn(Lot) -> bool)
    requires
        forall|i: int| 0 <= i < s.len() ==> !p(#[trigger] s[i]),
    ensures
        filter_lots(s, p) == Seq::<Lot>::empty(),
    decreases s.len(),
{
    if s.len() > 0 {
        lemma_filter_lots_all_false(s.drop_last(), p);
        assert(filter_lots(s, p) =~= Seq::<Lot>::empty());
    }
}

pub proof fn lemma_filter_lots_distributes(a: Seq<Lot>, b: Seq<Lot>, p: spec_fn(Lot) -> bool)
    ensures
        filter_lots(a + b, p) == filter_lots(a, p) + filter_lots(b, p),
    decreases b.len(),
{
    if b.len() == 0 {
        assert(a + b =~= a);
        assert(filter_lots(b, p) =~= Seq::<Lot>::empty());
        assert(filter_lots(a, p) + filter_lots(b, p) =~= filter_lots(a, p));
    } else {
        lemma_filter_lots_distributes(a, b.drop_last(), p);
        assert((a + b).drop_last() =~= a + b.drop_last());
        assert((a + b).last() == b.last());
        if p(b.last()) {
            assert(filter_lots(a, p) + filter_lots(b, p) =~= (filter_lots(a, p) + filter_lots(
                b.drop_last(),
                p,
            )).push(b.last()));
        }
    }
}

/// Filtered lots come from the sequence and satisfy the predicate.
pub proof fn lemma_filter_lots_contains(s: Seq<Lot>, p: spec_fn(Lot) -> bool)
    ensures
        forall|x: Lot|
            #[trigger] filter_lots(s, p).contains(x) ==> s.contains(x) && p(x),
    decreases s.len(),
{
    if s.len() > 0 {
        let t = s.drop_last();
        lemma_filter_lots_contains(t, p);
        assert forall|x: Lot| #[trigger] filter_lots(s, p).contains(x) implies s.contains(x) && p(
            x,
        ) by {
            let f = filter_lots(s, p);
            let k = choose|k: int| 0 <= k < f.len() && f[k] == x;
            if p(s.last()) && k == f.len() - 1 {
                assert(x == s.last());
                assert(s.contains(x)) by {
                    assert(s[s.len() - 1] == x);
                }
            } else {
                assert(filter_lots(t, p)[k] == x);
                assert(filter_lots(t, p).contains(x));
                assert(t.contains(x));
                let j = choose|j: int| 0 <= j < t.len() && t[j] == x;
                assert(s[j] == x);
            }
        }
    }
}

/// Filtering a strictly number-sorted sequence keeps it strictly sorted.
pub proof fn lemma_filter_lots_sorted(s: Seq<Lot>, p: spec_fn(Lot) -> bool)
    requires
        strictly_sorted(s),
    ensures
        strictly_sorted(filter_lots(s, p)),
    decreases s.len(),
{
    if s.len() > 0 {
        let t = s.drop_last();
        assert(strictly_sorted(t)) by {
            assert(forall|i: int, j: int|
                0 <= i < j < t.len() ==> t[i] == s[i] && t[j] == s[j]);
        }
        lemma_filter_lots_sorted(t, p);
        if p(s.last()) {
            lemma_filter_lots_contains(t, p);
            let f = filter_lots(t, p);
            assert forall|k: int| 0 <= k < f.len() implies f[k].lot_number
                < s.last().lot_number by {
                assert(f.contains(f[k]));
                assert(t.contains(f[k]));
                let j = choose|j: int| 0 <= j < t.len() && t[j] == f[k];
                assert(s[j] == f[k]);
            }
        }
    }
}

/// Pointwise smaller amounts give a smaller sum.
pub proof fn lemma_sum_pointwise_le(a: Seq<Lot>, b: Seq<Lot>)
    requires
        a.len() == b.len(),
        forall|k: int| 0 <= k < a.len() ==> (#[trigger] a[k]).amount <= b[k].amount,
    ensures
        sum_amounts(a) <= sum_amounts(b),
    decreases a.len(),
{
    if a.len() > 0 {
        lemma_sum_pointwise_le(a.drop_last(), b.drop_last());
        assert(forall|k: int|
            0 <= k < a.len() - 1 ==> (#[trigger] a.drop_last()[k]).amount
                <= b.drop_last()[k].amount);
    }
}

pub proof fn lemma_sum_concat(a: Seq<Lot>, b: Seq<Lot>)
    ensures
        sum_amounts(a + b) == sum_amounts(a) + sum_amounts(b),
    decreases b.len(),
{
    if b.len() == 0 {
        assert(a + b =~= a);
    } else {
        lemma_sum_concat(a, b.drop_last());
        assert((a + b).drop_last() =~= a + b.drop_last());
        assert((a + b).last() == b.last());
    }
}

/// Inserting anywhere adds the element to the multiset.
pub proof fn lemma_insert_to_multiset(s: Seq<Lot>, i: int, x: Lot)
    requires
        0 <= i <= s.len(),
    ensures
        s.insert(i, x).to_multiset() == s.to_multiset().insert(x),
{
    broadcast use group_to_multiset_ensures;
    broadcast use vstd::multiset::group_multiset_axioms;

    let t = s.insert(i, x);
    assert(t.remove(i) =~= s);
    assert(t.remove(i).to_multiset() =~= t.to_multiset().remove(t[i]));
    assert(t[i] == x);
    assert(t.to_multiset().contains(x)) by {
        assert(t.contains(x)) by {
            assert(t[i] == x);
        }
    }
    assert(t.to_multiset() =~= s.to_multiset().insert(x));
}

/// Replacing one lot adjusts the sum by the difference of the amounts.
pub proof fn lemma_sum_update(s: Seq<Lot>, i: int, x: Lot)
    requires
        0 <= i < s.len(),
    ensures
        sum_amounts(s.update(i, x)) == sum_amounts(s) - s[i].amount + x.amount,
{
    let t = s.update(i, x);
    assert(t.remove(i) =~= s.remove(i));
    lemma_sum_amounts_remove(s, i);
    lemma_sum_amounts_remove_pub(t, i);
}

/// One amount never exceeds the whole sum.
pub proof fn lemma_element_le_sum(s: Seq<Lot>, k: int)
    requires
        0 <= k < s.len(),
    ensures
        s[k].amount <= sum_amounts(s),
{
    lemma_sum_amounts_remove_pub(s, k);
    lemma_sum_amounts_nonneg(s.remove(k));
}

/// Public face of the removal sum split, reused by callers.
pub proof fn lemma_sum_amounts_remove_pub(s: Seq<Lot>, j: int)
    requires
        0 <= j < s.len(),
    ensures
        sum_amounts(s) == sum_amounts(s.remove(j)) + s[j].amount,
{
    lemma_sum_amounts_remove(s, j);
}

/// Number-distinctness survives any reordering of the same lots.
pub proof fn lemma_distinct_numbers_permutation(s: Seq<Lot>, t: Seq<Lot>)
    requires
        distinct_numbers(s),
        s.to_multiset() == t.to_multiset(),
    ensures
        distinct_numbers(t),
{
    broadcast use group_to_multiset_ensures;

    assert forall|i: int, j: int| 0 <= i < j < t.len() implies t[i].lot_number
        != t[j].lot_number by {
        if t[i].lot_number == t[j].lot_number {
            let e1 = t[i];
            let e2 = t[j];
            if e1 == e2 {
                assert(t.remove(i).to_multiset() =~= t.to_multiset().remove(e1));
                assert(t.remove(i)[j - 1] == e2);
                assert(t.remove(i).contains(e2)) by {
                    assert(t.remove(i)[j - 1] == e2);
                }
                assert(t.remove(i).to_multiset().count(e1) > 0);
                assert(s.to_multiset().count(e1) >= 2);
                assert(s.no_duplicates()) by {
                    assert forall|a: int, b: int|
                        0 <= a < b < s.len() implies s[a] != s[b] by {
                        assert(s[a].lot_number != s[b].lot_number);
                    }
                }
                s.lemma_multiset_has_no_duplicates();
                assert(false);
            } else {
                assert(t.contains(e1));
                assert(s.to_multiset().count(e1) > 0);
                assert(s.contains(e1));
                assert(t.contains(e2)) by {
                    assert(t[j] == e2);
                }
                assert(s.to_multiset().count(e2) > 0);
                assert(s.contains(e2));
                let a = choose|a: int| 0 <= a < s.len() && s[a] == e1;
                let b = choose|b: int| 0 <= b < s.len() && s[b] == e2;
                assert(a != b);
                assert(s[a].lot_number != s[b].lot_number);
                assert(false);
            }
        }
    }
}

/// Checks the live-lot well-formedness conditions at run time.
pub fn check_lots_wf(lots: &Vec<Lot>) -> (r: bool)
    ensures
        r == lots_wf(lots@),
{
    let n = lots.len();
    let mut i: usize = 0;
    while i < n
        invariant
            n == lots@.len(),
            0 <= i <= n,
            strictly_sorted(lots@.take(i as int)),
            forall|k: int| 0 <= k < i ==> (#[trigger] lots@[k]).amount > 0,
            forall|k: int| 0 <= k < i ==> (#[trigger] lots@[k]).acquisition.when.is_valid(),
        decreases n - i,
    {
        if lots[i].amount == 0 {
            proof {
                assert(!all_positive(lots@));
            }
            return false;
        }
        if !lots[i].acquisition.when.check_valid() {
            proof {
                assert(!all_valid_dates(lots@));
            }
            return false;
        }
        if i > 0 && lots[i - 1].lot_number >= lots[i].lot_number {
            proof {
                assert(!strictly_sorted(lots@));
            }
            return false;
        }
        proof {
            let t = lots@.take(i as int + 1);
            let u = lots@.take(i as int);
            assert forall|a: int, b: int| 0 <= a < b < t.len() implies t[a].lot_number
                < t[b].lot_number by {
                if b < i {
                    assert(u[a].lot_number < u[b].lot_number);
                } else if a < i - 1 {
                    assert(u[a].lot_number < u[i - 1].lot_number);
                }
            }
        }
        i = i + 1;
    }
    proof {
        assert(lots@.take(n as int) =~= lots@);
        lemma_sum_bound(lots@);
        assert(lots@.len() * (u64::MAX as int) < u128::MAX) by (nonlinear_arith)
            requires
                lots@.len() <= usize::MAX,
        ;
    }
    let total = sum_lots_wide(lots);
    if total > u64::MAX as u128 {
        return false;
    }
    true
}

/// The sum of at most `usize` many `u64` amounts fits in a `u128`.
pub proof fn lemma_sum_bound(s: Seq<Lot>)
    ensures
        sum_amounts(s) <= s.len() * (u64::MAX as int),
    decreases s.len(),
{
    if s.len() > 0 {
        lemma_sum_bound(s.drop_last());
        assert((s.len() - 1) * (u64::MAX as int) + (u64::MAX as int) == s.len() * (
        u64::MAX as int)) by (nonlinear_arith);
    }
}

/// Sum of the live lot amounts, computed without overflow.
pub fn sum_lots_wide(lots: &Vec<Lot>) -> (r: u128)
    requires
        sum_amounts(lots@) <= u128::MAX,
    ensures
        r == sum_amounts(lots@),
{
    let mut total: u128 = 0;
    let mut i: usize = 0;
    while i < lots.len()
        invariant
            0 <= i <= lots@.len(),
            sum_amounts(lots@) <= u128::MAX,
            total == sum_amounts(lots@.take(i as int)),
        decreases lots@.len() - i,
    {
        proof {
            lemma_sum_amounts_take(lots@, i + 1);
            lemma_sum_amounts_nonneg(lots@.skip(i + 1));
            lemma_sum_amounts_nonneg(lots@.take(i as int));
            assert(lots@.take(i + 1).drop_last() =~= lots@.take(i as int));
            assert(lots@.take(i + 1).last() == lots@[i as int]);
        }
        total = total + lots[i].amount as u128;
        i = i + 1;
    }
    proof {
        assert(lots@.take(lots@.len() as int) =~= lots@);
    }
    total
}

/// Sum of the amounts of disposed-lot records.
pub open spec fn sum_disposed_amounts(s: Seq<DisposedLot>) -> int
    decreases s.len(),
{
    if s.len() == 0 {
        0
    } else {
        sum_disposed_amounts(s.drop_last()) + s.last().lot.amount
    }
}

/// Sum of the lot amounts, wide enough never to overflow.
pub fn sum_lots_wide_unchecked(lots: &Vec<Lot>) -> (r: u128)
    ensures
        r == sum_amounts(lots@),
{
    let n = lots.len();
    proof {
        lemma_sum_bound(lots@);
        assert(lots@.len() * (u64::MAX as int) < u128::MAX) by (nonlinear_arith)
            requires
                lots@.len() <= usize::MAX,
        ;
    }
    sum_lots_wide(lots)
}

/// Inserts a lot into a strictly number-sorted vector, keeping the order;
/// refuses a lot number already present.
pub fn insert_lot_sorted(v: &mut Vec<Lot>, lot: Lot) -> (ok: bool)
    requires
        strictly_sorted(old(v)@),
    ensures
        ok ==> strictly_sorted(final(v)@),
        ok ==> final(v)@.to_multiset() == old(v)@.to_multiset().insert(lot),
        ok ==> !contains_number(old(v)@, lot.lot_number),
        ok ==> final(v)@.len() == old(v)@.len() + 1,
        !ok ==> final(v)@ == old(v)@ && contains_number(old(v)@, lot.lot_number),
        forall|x: Lot|
            #[trigger] final(v)@.contains(x) ==> old(v)@.contains(x) || x == lot,
{
    let mut pos: usize = 0;
    while pos < v.len() && v[pos].lot_number < lot.lot_number
        invariant
            0 <= pos <= v@.len(),
            strictly_sorted(v@),
            v@ == old(v)@,
            forall|k: int| 0 <= k < pos ==> (#[trigger] v@[k]).lot_number < lot.lot_number,
        decreases v@.len() - pos,
    {
        pos = pos + 1;
    }
    if pos < v.len() && v[pos].lot_number == lot.lot_number {
        proof {
            assert(contains_number(v@, lot.lot_number)) by {
                assert(v@[pos as int].lot_number == lot.lot_number);
            }
        }
        return false;
    }
    proof {
        assert forall|k: int| pos <= k < v@.len() implies (#[trigger] v@[k]).lot_number
            > lot.lot_number by {
            if k > pos {
                assert(v@[pos as int].lot_number < v@[k].lot_number);
            }
        }
    }
    let ghost before = v@;
    v.insert(pos, lot);
    proof {
        lemma_insert_to_multiset(before, pos as int, lot);
        assert forall|a: int, b: int| 0 <= a < b < v@.len() implies v@[a].lot_number
            < v@[b].lot_number by {
            assert(v@ == before.insert(pos as int, lot));
        }
        assert(!contains_number(before, lot.lot_number));
        assert forall|x: Lot| #[trigger] v@.contains(x) implies before.contains(x) || x
            == lot by {
            let k = choose|k: int| 0 <= k < v@.len() && v@[k] == x;
            if k < pos {
                assert(before[k] == x);
            } else if k > pos {
                assert(before[k - 1] == x);
            }
        }
    }
    true
}

/// Element-for-element copy of a lot vector.
pub fn clone_lots(lots: &Vec<Lot>) -> (r: Vec<Lot>)
    ensures
        r@ == lots@,
{
    let mut out: Vec<Lot> = Vec::new();
    let mut i: usize = 0;
    while i < lots.len()
        invariant
            0 <= i <= lots@.len(),
            out@ == lots@.take(i as int),
        decreases lots@.len() - i,
    {
        out.push(lots[i]);
        proof {
            assert(out@ =~= lots@.take(i + 1));
        }
        i = i + 1;
    }
    proof {
        assert(lots@.take(lots@.len() as int) =~= lots@);
    }
    out
}

} // verus!
