//! The lot ledger.
//!
//! The ledger owns the durable mapping from accounts to tax lots and the
//! transfer records that tie lot debits to network transactions.  A transfer
//! is recorded as pending before submission; confirmation makes the debit
//! permanent (disposing lots or moving them to a tracked destination), and
//! cancellation reverses it exactly, leaving the account as it was.

use vstd::prelude::*;
use vstd::seq_lib::group_to_multiset_ensures;
use vstd::seq_lib::lemma_multiset_commutative;
use crate::date::Date;
use crate::lot::{
    AccountV, DisposedLot, Lot, TrackedAccount, Token, all_positive, all_valid_dates,
    check_lots_wf, clone_lots, contains_number, distinct_numbers, insert_lot_sorted,
    lemma_element_le_sum, lemma_mset_contains, lemma_strictly_sorted_unique,
    lemma_sum_amounts_multiset, lemma_sum_amounts_nonneg, lemma_sum_amounts_remove_pub,
    lemma_sum_concat, lemma_sum_update, lots_wf, numbers_below, strictly_sorted, sum_amounts,
    sum_disposed_amounts, sum_lots_wide,
};
use crate::select::{
    LotSelection, LotSelectionMethod, SelectionV, SplitInfo, fifo_le, policy_le, rem_core,
    select_lots, selection_all_ok, selection_common, selection_explicit_ok, selection_policy_ok,
    spec_restored,
};
use crate::{LedgerError, TaxRates};

verus! {

/// Where a recorded transfer stands in its lifecycle.
#[derive(Clone, Copy, PartialEq, Eq, Structural, Debug)]
pub enum TransferStatus {
    Pending,
    Confirmed(Date),
    Cancelled,
}

/// A transfer record, keyed by its transaction signature.
pub struct PendingTransfer {
    pub signature: u64,
    /// The block height at which the transaction's blockhash expires.
    pub last_valid_block_height: u64,
    pub amount: u64,
    pub from_address: u64,
    pub from_token: Token,
    pub to_address: u64,
    pub to_token: Token,
    pub method: LotSelectionMethod,
    /// Disposal price per smallest unit, quoted by the caller.
    pub price: u64,
    /// The lots provisionally debited from the source account.
    pub lots: Vec<Lot>,
    pub split: Option<SplitInfo>,
    pub status: TransferStatus,
}

/// Mathematical value of a [`PendingTransfer`].
#[verifier::ext_equal]
pub struct TransferV {
    pub signature: u64,
    pub last_valid_block_height: u64,
    pub amount: u64,
    pub from_address: u64,
    pub from_token: Token,
    pub to_address: u64,
    pub to_token: Token,
    pub method: LotSelectionMethod,
    pub price: u64,
    pub lots: Seq<Lot>,
    pub split: Option<SplitInfo>,
    pub status: TransferStatus,
}

impl View for PendingTransfer {
    type V = TransferV;

    open spec fn view(&self) -> TransferV {
        TransferV {
            signature: self.signature,
            last_valid_block_height: self.last_valid_block_height,
            amount: self.amount,
            from_address: self.from_address,
            from_token: self.from_token,
            to_address: self.to_address,
            to_token: self.to_token,
            method: self.method,
            price: self.price,
            lots: self.lots@,
            split: self.split,
            status: self.status,
        }
    }
}

/// The ledger: tracked accounts, transfer records, disposed lots, the
/// lot-number counter, and the configured tax rates.
pub struct Db {
    accounts: Vec<TrackedAccount>,
    transfers: Vec<PendingTransfer>,
    disposed: Vec<DisposedLot>,
    next_lot_number: u64,
    tax_rates: Option<TaxRates>,
}

/// Mathematical value of the whole ledger.
#[verifier::ext_equal]
pub struct DbV {
    pub accounts: Seq<AccountV>,
    pub transfers: Seq<TransferV>,
    pub disposed: Seq<DisposedLot>,
    pub next_lot_number: u64,
    pub tax_rates: Option<TaxRates>,
}

impl View for Db {
    type V = DbV;

    closed spec fn view(&self) -> DbV {
        DbV {
            accounts: self.accounts@.map_values(|a: TrackedAccount| a@),
            transfers: self.transfers@.map_values(|t: PendingTransfer| t@),
            disposed: self.disposed@,
            next_lot_number: self.next_lot_number,
            tax_rates: self.tax_rates,
        }
    }
}

pub open spec fn account_key_is(a: AccountV, address: u64, token: Token) -> bool {
    a.address == address && a.token == token
}

pub open spec fn has_account(d: DbV, address: u64, token: Token) -> bool {
    exists|i: int|
        0 <= i < d.accounts.len() && account_key_is(#[trigger] d.accounts[i], address, token)
}

pub open spec fn has_transfer(d: DbV, signature: u64) -> bool {
    exists|j: int|
        0 <= j < d.transfers.len() && (#[trigger] d.transfers[j]).signature == signature
}

pub open spec fn account_wf(a: AccountV, next: int) -> bool {
    &&& lots_wf(a.lots)
    &&& numbers_below(a.lots, next)
}

pub open spec fn transfer_wf(t: TransferV, next: int) -> bool {
    &&& all_positive(t.lots)
    &&& all_valid_dates(t.lots)
    &&& distinct_numbers(t.lots)
    &&& numbers_below(t.lots, next)
    &&& sum_amounts(t.lots) == t.amount
}

/// The state every ledger operation preserves.
pub open spec fn db_wf(d: DbV) -> bool {
    &&& forall|i: int, j: int|
        0 <= i < j < d.accounts.len() ==> !account_key_is(
            #[trigger] d.accounts[j],
            (#[trigger] d.accounts[i]).address,
            d.accounts[i].token,
        )
    &&& forall|i: int|
        0 <= i < d.accounts.len() ==> account_wf(
            #[trigger] d.accounts[i],
            d.next_lot_number as int,
        )
    &&& forall|i: int, j: int|
        0 <= i < j < d.transfers.len() ==> (#[trigger] d.transfers[i]).signature != (
        #[trigger] d.transfers[j]).signature
    &&& forall|j: int|
        0 <= j < d.transfers.len() ==> transfer_wf(
            #[trigger] d.transfers[j],
            d.next_lot_number as int,
        )
    &&& forall|m: int|
        0 <= m < d.disposed.len() ==> (#[trigger] d.disposed[m]).lot.lot_number
            < d.next_lot_number && d.disposed[m].lot.amount > 0
            && d.disposed[m].lot.acquisition.when.is_valid() && d.disposed[m].when.is_valid()
}

/// What a persisted state must satisfy to be loadable: well-formed,
/// key-distinct accounts whose lot numbers sit below the counter, and
/// well-formed disposal records.
pub open spec fn load_input_ok(
    accounts: Seq<AccountV>,
    disposed: Seq<DisposedLot>,
    next_lot_number: u64,
) -> bool {
    &&& forall|i: int|
        0 <= i < accounts.len() ==> account_wf(#[trigger] accounts[i], next_lot_number as int)
    &&& forall|i: int, j: int|
        0 <= i < j < accounts.len() ==> !account_key_is(
            #[trigger] accounts[j],
            (#[trigger] accounts[i]).address,
            accounts[i].token,
        )
    &&& forall|m: int|
        0 <= m < disposed.len() ==> (#[trigger] disposed[m]).lot.lot_number < next_lot_number
            && disposed[m].lot.amount > 0 && disposed[m].lot.acquisition.when.is_valid()
            && disposed[m].when.is_valid()
}

impl Db {
    /// An empty ledger.
    pub fn new() -> (r: Db)
        ensures
            db_wf(r@),
            r@.accounts.len() == 0,
            r@.transfers.len() == 0,
            r@.disposed.len() == 0,
            r@.next_lot_number == 1,
            r@.tax_rates is None,
    {
        let r = Db {
            accounts: Vec::new(),
            transfers: Vec::new(),
            disposed: Vec::new(),
            next_lot_number: 1,
            tax_rates: None,
        };
        proof {
            assert(r@.accounts =~= Seq::<AccountV>::empty());
            assert(r@.transfers =~= Seq::<TransferV>::empty());
        }
        r
    }

    /// Rebuilds a ledger from persisted account and disposal state.
    ///
    /// Pending transfers are not part of the persisted state: across a
    /// restart they are treated as failed, and the network is re-queried
    /// outside for each signature's actual landed status.  Fails if any
    /// account is malformed, two accounts share a key, or a lot number is
    /// not below the persisted counter.
    #[verifier::rlimit(50)]
    pub fn load(
        accounts: Vec<TrackedAccount>,
        disposed: Vec<DisposedLot>,
        next_lot_number: u64,
        tax_rates: Option<TaxRates>,
    ) -> (r: Result<Db, LedgerError>)
        ensures
            match r {
                Ok(db) => {
                    &&& db_wf(db@)
                    &&& db@.accounts == accounts@.map_values(|a: TrackedAccount| a@)
                    &&& db@.transfers.len() == 0
                    &&& db@.disposed == disposed@
                    &&& db@.next_lot_number == next_lot_number
                    &&& db@.tax_rates == tax_rates
                },
                Err(e) => e == LedgerError::InvalidAccount,
            },
            (r is Err) <==> !load_input_ok(
                accounts@.map_values(|a: TrackedAccount| a@),
                disposed@,
                next_lot_number,
            ),
    {
        let ghost avs = accounts@.map_values(|a: TrackedAccount| a@);
        let mut i: usize = 0;
        while i < accounts.len()
            invariant
                0 <= i <= accounts@.len(),
                avs == accounts@.map_values(|a: TrackedAccount| a@),
                forall|k: int|
                    0 <= k < i ==> account_wf(#[trigger] avs[k], next_lot_number as int),
                forall|a: int, b: int|
                    0 <= a < b < i ==> !account_key_is(
                        #[trigger] avs[b],
                        (#[trigger] avs[a]).address,
                        avs[a].token,
                    ),
            decreases accounts@.len() - i,
        {
            proof {
                assert(avs[i as int] == accounts@[i as int]@);
            }
            if !check_lots_wf(&accounts[i].lots) {
                proof {
                    assert(!account_wf(avs[i as int], next_lot_number as int));
                }
                return Err(LedgerError::InvalidAccount);
            }
            let nlots = accounts[i].lots.len();
            if nlots > 0 && accounts[i].lots[nlots - 1].lot_number >= next_lot_number {
                proof {
                    assert(!numbers_below(avs[i as int].lots, next_lot_number as int)) by {
                        assert(avs[i as int].lots[nlots - 1].lot_number >= next_lot_number);
                    }
                    assert(!account_wf(avs[i as int], next_lot_number as int));
                }
                return Err(LedgerError::InvalidAccount);
            }
            proof {
                assert forall|k: int| 0 <= k < avs[i as int].lots.len() implies (
                #[trigger] avs[i as int].lots[k]).lot_number < next_lot_number by {
                    if nlots > 0 && k < nlots - 1 {
                        assert(avs[i as int].lots[k].lot_number < avs[i as int].lots[nlots
                            - 1].lot_number);
                    }
                }
            }
            let mut b: usize = 0;
            while b < i
                invariant
                    0 <= b <= i < accounts@.len(),
                    avs == accounts@.map_values(|a: TrackedAccount| a@),
                    forall|a: int|
                        0 <= a < b ==> !account_key_is(
                            #[trigger] avs[i as int],
                            (#[trigger] avs[a]).address,
                            avs[a].token,
                        ),
                decreases i - b,
            {
                proof {
                    assert(avs[b as int] == accounts@[b as int]@);
                    assert(avs[i as int] == accounts@[i as int]@);
                }
                if accounts[b].address == accounts[i].address && token_eq(
                    accounts[b].token,
                    accounts[i].token,
                ) {
                    proof {
                        assert(account_key_is(avs[i as int], avs[b as int].address, avs[b as int].token));
                        assert(!load_input_ok(avs, disposed@, next_lot_number));
                    }
                    return Err(LedgerError::InvalidAccount);
                }
                b = b + 1;
            }
            proof {
                assert forall|a: int| 0 <= a < i implies !account_key_is(
                    #[trigger] avs[i as int],
                    avs[a].address,
                    avs[a].token,
                ) by {}
            }
            i = i + 1;
        }
        let mut m: usize = 0;
        while m < disposed.len()
            invariant
                0 <= m <= disposed@.len(),
                forall|k: int|
                    0 <= k < m ==> (#[trigger] disposed@[k]).lot.lot_number < next_lot_number
                        && disposed@[k].lot.amount > 0
                        && disposed@[k].lot.acquisition.when.is_valid()
                        && disposed@[k].when.is_valid(),
            decreases disposed@.len() - m,
        {
            let d = disposed[m];
            if d.lot.lot_number >= next_lot_number || d.lot.amount == 0
                || !d.lot.acquisition.when.check_valid() || !d.when.check_valid() {
                proof {
                    assert(disposed@[m as int] == d);
                    assert(!load_input_ok(avs, disposed@, next_lot_number));
                }
                return Err(LedgerError::InvalidAccount);
            }
            m = m + 1;
        }
        let db = Db { accounts, transfers: Vec::new(), disposed, next_lot_number, tax_rates };
        proof {
            assert(db@.transfers =~= Seq::<TransferV>::empty());
            assert(db_wf(db@)) by {
                assert forall|a: int, b: int|
                    0 <= a < b < db@.accounts.len() implies !account_key_is(
                    #[trigger] db@.accounts[b],
                    (#[trigger] db@.accounts[a]).address,
                    db@.accounts[a].token,
                ) by {
                    assert(db@.accounts[a] == avs[a]);
                    assert(db@.accounts[b] == avs[b]);
                }
            }
        }
        Ok(db)
    }

    /// The configured tax rates, if any were set.
    pub fn get_tax_rate(&self) -> (r: Option<TaxRates>)
        ensures
            r == self@.tax_rates,
    {
        self.tax_rates
    }

    pub fn set_tax_rate(&mut self, rates: TaxRates)
        ensures
            final(self)@ == (DbV { tax_rates: Some(rates), ..old(self)@ }),
    {
        self.tax_rates = rates_some(rates);
        proof {
            assert(self@ =~= (DbV { tax_rates: Some(rates), ..old(self)@ }));
        }
    }

    /// Index of the account under the address and token, if it is tracked.
    fn find_account(&self, address: u64, token: Token) -> (r: Option<usize>)
        ensures
            match r {
                Some(i) => 0 <= i < self@.accounts.len() && account_key_is(
                    self@.accounts[i as int],
                    address,
                    token,
                ),
                None => !has_account(self@, address, token),
            },
    {
        let mut i: usize = 0;
        while i < self.accounts.len()
            invariant
                0 <= i <= self.accounts@.len(),
                self@.accounts.len() == self.accounts@.len(),
                forall|k: int|
                    0 <= k < i ==> !account_key_is(#[trigger] self@.accounts[k], address, token),
                forall|k: int|
                    0 <= k < self.accounts@.len() ==> self@.accounts[k] == self.accounts@[k]@,
            decreases self.accounts@.len() - i,
        {
            let a = &self.accounts[i];
            if a.address == address && token_eq(a.token, token) {
                return Some(i);
            }
            i = i + 1;
        }
        None
    }

    /// Looks up one tracked account.
    pub fn get_account(&self, address: u64, token: Token) -> (r: Option<&TrackedAccount>)
        ensures
            match r {
                Some(a) => has_account(self@, address, token) && exists|i: int|
                    0 <= i < self@.accounts.len() && #[trigger] self@.accounts[i] == a@
                        && account_key_is(a@, address, token),
                None => !has_account(self@, address, token),
            },
    {
        match self.find_account(address, token) {
            Some(i) => {
                proof {
                    assert(self@.accounts[i as int] == self.accounts@[i as int]@);
                }
                Some(&self.accounts[i])
            },
            None => None,
        }
    }

    /// A read-only snapshot of every disposed lot.
    pub fn disposed_lots(&self) -> (r: &Vec<DisposedLot>)
        ensures
            r@ == self@.disposed,
    {
        &self.disposed
    }

    /// The number the next created lot will carry.
    pub fn next_lot_number(&self) -> (r: u64)
        ensures
            r == self@.next_lot_number,
    {
        self.next_lot_number
    }

    /// Every tracked account, for rendering.
    pub fn accounts(&self) -> (r: &Vec<TrackedAccount>)
        ensures
            r@.map_values(|a: TrackedAccount| a@) == self@.accounts,
    {
        &self.accounts
    }
}

/// What a successful full replacement of one account's state does: the
/// account is updated or added, and the lot-number counter moves past every
/// number the new state uses.
pub open spec fn update_account_ok(pre: DbV, a: AccountV, post: DbV) -> bool {
    &&& lots_wf(a.lots)
    &&& post.next_lot_number == (if a.lots.len() > 0 && a.lots.last().lot_number
        >= pre.next_lot_number {
        a.lots.last().lot_number + 1
    } else {
        pre.next_lot_number as int
    })
    &&& (if has_account(pre, a.address, a.token) {
        exists|i: int|
            {
                &&& 0 <= i < pre.accounts.len()
                &&& account_key_is(#[trigger] pre.accounts[i], a.address, a.token)
                &&& post.accounts == pre.accounts.update(i, a)
            }
    } else {
        post.accounts == pre.accounts.push(a)
    })
    &&& post.transfers == pre.transfers
    &&& post.disposed == pre.disposed
    &&& post.tax_rates == pre.tax_rates
}

impl Db {
    /// Persists a full replacement of one account's live-lot state.
    ///
    /// Rejects a state whose lots are unsorted, empty-amount, undated or
    /// too large to sum; otherwise the account replaces any tracked state
    /// under the same address and token.
    pub fn update_account(&mut self, account: TrackedAccount) -> (r: Result<(), LedgerError>)
        requires
            db_wf(old(self)@),
        ensures
            db_wf(final(self)@),
            match r {
                Ok(()) => update_account_ok(old(self)@, account@, final(self)@),
                Err(e) => e == LedgerError::InvalidAccount && final(self)@ == old(self)@ && !(
                lots_wf(account@.lots) && (account@.lots.len() > 0
                    ==> account@.lots.last().lot_number < u64::MAX)),
            },
    {
        if !check_lots_wf(&account.lots) {
            return Err(LedgerError::InvalidAccount);
        }
        let nlots = account.lots.len();
        if nlots > 0 && account.lots[nlots - 1].lot_number == u64::MAX {
            return Err(LedgerError::InvalidAccount);
        }
        let new_next: u64 = if nlots > 0 && account.lots[nlots - 1].lot_number
            >= self.next_lot_number {
            account.lots[nlots - 1].lot_number + 1
        } else {
            self.next_lot_number
        };
        let ghost pre = self@;
        let ghost av = account@;
        proof {
            assert forall|k: int| 0 <= k < av.lots.len() implies (#[trigger] av.lots[k]).lot_number
                < new_next by {
                if k < av.lots.len() - 1 {
                    assert(av.lots[k].lot_number < av.lots[av.lots.len() - 1].lot_number);
                }
            }
        }
        match self.find_account(account.address, account.token) {
            Some(i) => {
                self.accounts.set(i, account);
                proof {
                    assert(self@.accounts =~= pre.accounts.update(i as int, av));
                }
            },
            None => {
                self.accounts.push(account);
                proof {
                    assert(self@.accounts =~= pre.accounts.push(av));
                }
            },
        }
        self.next_lot_number = new_next;
        proof {
            assert(self@.transfers =~= pre.transfers);
            assert(db_wf(self@)) by {
                assert(forall|i: int|
                    0 <= i < pre.accounts.len() ==> account_wf(
                        #[trigger] pre.accounts[i],
                        pre.next_lot_number as int,
                    ));
                assert(pre.next_lot_number <= new_next);
            }
        }
        Ok(())
    }

    /// Deletes an account; fails while live lots remain in it.
    pub fn remove_account(&mut self, address: u64, token: Token) -> (r: Result<(), LedgerError>)
        requires
            db_wf(old(self)@),
        ensures
            db_wf(final(self)@),
            match r {
                Ok(()) => exists|i: int|
                    {
                        &&& 0 <= i < old(self)@.accounts.len()
                        &&& account_key_is(#[trigger] old(self)@.accounts[i], address, token)
                        &&& old(self)@.accounts[i].lots.len() == 0
                        &&& final(self)@ == (DbV {
                            accounts: old(self)@.accounts.remove(i),
                            ..old(self)@
                        })
                    },
                Err(e) => final(self)@ == old(self)@ && ((e == LedgerError::UnknownAccount
                    && !has_account(old(self)@, address, token)) || (e
                    == LedgerError::AccountNotEmpty && exists|i: int|
                    0 <= i < old(self)@.accounts.len() && account_key_is(
                        #[trigger] old(self)@.accounts[i],
                        address,
                        token,
                    ) && old(self)@.accounts[i].lots.len() > 0)),
            },
    {
        let ghost pre = self@;
        match self.find_account(address, token) {
            None => Err(LedgerError::UnknownAccount),
            Some(i) => {
                if self.accounts[i].lots.len() > 0 {
                    proof {
                        assert(pre.accounts[i as int] == self.accounts@[i as int]@);
                    }
                    return Err(LedgerError::AccountNotEmpty);
                }
                proof {
                    assert(pre.accounts[i as int] == self.accounts@[i as int]@);
                }
                self.accounts.remove(i);
                proof {
                    assert(self@.accounts =~= pre.accounts.remove(i as int));
                    assert(self@ =~= (DbV { accounts: pre.accounts.remove(i as int), ..pre }));
                    assert(db_wf(self@)) by {
                        assert forall|a: int, b: int|
                            0 <= a < b < self@.accounts.len() implies !account_key_is(
                            #[trigger] self@.accounts[b],
                            (#[trigger] self@.accounts[a]).address,
                            self@.accounts[a].token,
                        ) by {
                            let a0 = if a < i as int {
                                a
                            } else {
                                a + 1
                            };
                            let b0 = if b < i as int {
                                b
                            } else {
                                b + 1
                            };
                            assert(self@.accounts[a] == pre.accounts[a0]);
                            assert(self@.accounts[b] == pre.accounts[b0]);
                        }
                        assert forall|k: int| 0 <= k < self@.accounts.len() implies account_wf(
                            #[trigger] self@.accounts[k],
                            self@.next_lot_number as int,
                        ) by {
                            let k0 = if k < i as int {
                                k
                            } else {
                                k + 1
                            };
                            assert(self@.accounts[k] == pre.accounts[k0]);
                        }
                    }
                }
                Ok(())
            },
        }
    }
}

/// The explicit lot numbers handed to an operation, as a mathematical value.
pub open spec fn view_numbers(lot_numbers: Option<&Vec<u64>>) -> Option<Seq<u64>> {
    match lot_numbers {
        Some(ns) => Some(ns@),
        None => None,
    }
}

/// Which selection contract applies for the given arguments.
pub open spec fn selection_mode_ok(
    lots: Seq<Lot>,
    amount: Option<u64>,
    method: LotSelectionMethod,
    lot_numbers: Option<Seq<u64>>,
    next0: u64,
    sel: SelectionV,
) -> bool {
    match lot_numbers {
        Some(ns) => selection_explicit_ok(lots, ns, next0, sel),
        None => match amount {
            None => selection_all_ok(lots, next0, sel),
            Some(a) => selection_policy_ok(lots, method, a, next0, sel),
        },
    }
}

/// The transfer record a successful `record_transfer` appends.
pub open spec fn new_transfer(
    signature: u64,
    last_valid_block_height: u64,
    from_address: u64,
    from_token: Token,
    to_address: u64,
    to_token: Token,
    method: LotSelectionMethod,
    price: u64,
    sel: SelectionV,
) -> TransferV {
    TransferV {
        signature,
        last_valid_block_height,
        amount: sel.amount,
        from_address,
        from_token,
        to_address,
        to_token,
        method,
        price,
        lots: sel.consumed,
        split: sel.split,
        status: TransferStatus::Pending,
    }
}

/// Exactly when `record_transfer` may fail, and with which error.
pub open spec fn record_err(
    pre: DbV,
    signature: u64,
    amount: Option<u64>,
    from_address: u64,
    from_token: Token,
    lot_numbers: Option<Seq<u64>>,
    e: LedgerError,
) -> bool {
    ||| (e == LedgerError::DuplicateSignature && has_transfer(pre, signature))
    ||| (e == LedgerError::UnknownAccount && !has_transfer(pre, signature) && !has_account(
        pre,
        from_address,
        from_token,
    ))
    ||| (e == LedgerError::InsufficientLots && !has_transfer(pre, signature) && lot_numbers
        is None && (amount matches Some(a) && exists|i: int|
        0 <= i < pre.accounts.len() && account_key_is(
            #[trigger] pre.accounts[i],
            from_address,
            from_token,
        ) && sum_amounts(pre.accounts[i].lots) < a))
}

/// Exactly when `record_drop` may fail, and with which error.
pub open spec fn drop_err(
    pre: DbV,
    address: u64,
    token: Token,
    amount: Option<u64>,
    lot_numbers: Option<Seq<u64>>,
    e: LedgerError,
) -> bool {
    ||| (e == LedgerError::UnknownAccount && !has_account(pre, address, token))
    ||| (e == LedgerError::InsufficientLots && lot_numbers is None && (amount matches Some(a)
        && exists|i: int|
        0 <= i < pre.accounts.len() && account_key_is(#[trigger] pre.accounts[i], address, token)
            && sum_amounts(pre.accounts[i].lots) < a))
}

/// One witness for a successful `record_transfer`: source account `i` was
/// debited by selection `sel` and a pending record was appended.
pub open spec fn record_ok_at(
    pre: DbV,
    signature: u64,
    last_valid_block_height: u64,
    amount: Option<u64>,
    from_address: u64,
    from_token: Token,
    to_address: u64,
    to_token: Token,
    method: LotSelectionMethod,
    price: u64,
    lot_numbers: Option<Seq<u64>>,
    i: int,
    sel: SelectionV,
    post: DbV,
) -> bool {
    &&& 0 <= i < pre.accounts.len()
    &&& account_key_is(pre.accounts[i], from_address, from_token)
    &&& selection_mode_ok(
        pre.accounts[i].lots,
        amount,
        method,
        lot_numbers,
        pre.next_lot_number,
        sel,
    )
    &&& post == (DbV {
        accounts: pre.accounts.update(i, AccountV { lots: sel.remaining, ..pre.accounts[i] }),
        transfers: pre.transfers.push(
            new_transfer(
                signature,
                last_valid_block_height,
                from_address,
                from_token,
                to_address,
                to_token,
                method,
                price,
                sel,
            ),
        ),
        disposed: pre.disposed,
        next_lot_number: sel.next,
        tax_rates: pre.tax_rates,
    })
}

/// What a successful `record_transfer` does.
pub open spec fn record_ok(
    pre: DbV,
    signature: u64,
    last_valid_block_height: u64,
    amount: Option<u64>,
    from_address: u64,
    from_token: Token,
    to_address: u64,
    to_token: Token,
    method: LotSelectionMethod,
    price: u64,
    lot_numbers: Option<Seq<u64>>,
    post: DbV,
) -> bool {
    &&& !has_transfer(pre, signature)
    &&& exists|i: int, sel: SelectionV|
        record_ok_at(
            pre,
            signature,
            last_valid_block_height,
            amount,
            from_address,
            from_token,
            to_address,
            to_token,
            method,
            price,
            lot_numbers,
            i,
            sel,
            post,
        )
}

impl Db {
    /// Index of the transfer recorded under the signature, if any.
    fn find_transfer(&self, signature: u64) -> (r: Option<usize>)
        ensures
            match r {
                Some(j) => 0 <= j < self@.transfers.len() && self@.transfers[j as int].signature
                    == signature,
                None => !has_transfer(self@, signature),
            },
    {
        let mut j: usize = 0;
        while j < self.transfers.len()
            invariant
                0 <= j <= self.transfers@.len(),
                self@.transfers.len() == self.transfers@.len(),
                forall|k: int|
                    0 <= k < j ==> (#[trigger] self@.transfers[k]).signature != signature,
                forall|k: int|
                    0 <= k < self.transfers@.len() ==> self@.transfers[k] == self.transfers@[k]@,
            decreases self.transfers@.len() - j,
        {
            if self.transfers[j].signature == signature {
                return Some(j);
            }
            j = j + 1;
        }
        None
    }

    /// Records a pending transfer: debits the selected lots from the source
    /// account and appends a transfer record under the signature.
    ///
    /// Explicit lot numbers override the policy and the amount, and numbers
    /// matching no live lot are ignored: an entirely stale set records a
    /// zero-amount transfer rather than failing.  Fails if the signature is
    /// already used, the source account is not tracked, or the live lots
    /// cannot cover a requested amount; a failure leaves the ledger
    /// unchanged.
    #[verifier::rlimit(50)]
    pub fn record_transfer(
        &mut self,
        signature: u64,
        last_valid_block_height: u64,
        amount: Option<u64>,
        from_address: u64,
        from_token: Token,
        to_address: u64,
        to_token: Token,
        price: u64,
        lot_selection_method: LotSelectionMethod,
        lot_numbers: Option<&Vec<u64>>,
    ) -> (r: Result<(), LedgerError>)
        requires
            db_wf(old(self)@),
            old(self)@.next_lot_number < u64::MAX,
        ensures
            db_wf(final(self)@),
            match r {
                Ok(()) => record_ok(
                    old(self)@,
                    signature,
                    last_valid_block_height,
                    amount,
                    from_address,
                    from_token,
                    to_address,
                    to_token,
                    lot_selection_method,
                    price,
                    view_numbers(lot_numbers),
                    final(self)@,
                ),
                Err(e) => final(self)@ == old(self)@ && record_err(
                    old(self)@,
                    signature,
                    amount,
                    from_address,
                    from_token,
                    view_numbers(lot_numbers),
                    e,
                ),
            },
    {
        let ghost pre = self@;
        if self.find_transfer(signature).is_some() {
            return Err(LedgerError::DuplicateSignature);
        }
        let i = match self.find_account(from_address, from_token) {
            None => {
                return Err(LedgerError::UnknownAccount);
            },
            Some(i) => i,
        };
        proof {
            assert(pre.accounts[i as int] == self.accounts@[i as int]@);
            assert(account_wf(pre.accounts[i as int], pre.next_lot_number as int));
        }
        let sel = match select_lots(
            &self.accounts[i].lots,
            amount,
            lot_selection_method,
            lot_numbers,
            self.next_lot_number,
        ) {
            Err(e) => {
                return Err(e);
            },
            Ok(s) => s,
        };
        let ghost selv = sel@;
        let acct = &self.accounts[i];
        let new_acct = TrackedAccount {
            address: acct.address,
            token: acct.token,
            lots: sel.remaining,
            last_update_balance: acct.last_update_balance,
        };
        let record = PendingTransfer {
            signature,
            last_valid_block_height,
            amount: sel.amount,
            from_address,
            from_token,
            to_address,
            to_token,
            method: lot_selection_method,
            price,
            lots: sel.consumed,
            split: sel.split,
            status: TransferStatus::Pending,
        };
        self.accounts.set(i, new_acct);
        self.transfers.push(record);
        self.next_lot_number = sel.next_lot_number;
        proof {
            let post = self@;
            let av = AccountV { lots: selv.remaining, ..pre.accounts[i as int] };
            assert(post.accounts =~= pre.accounts.update(i as int, av));
            assert(post.transfers =~= pre.transfers.push(
                new_transfer(
                    signature,
                    last_valid_block_height,
                    from_address,
                    from_token,
                    to_address,
                    to_token,
                    lot_selection_method,
                    price,
                    selv,
                ),
            ));
            assert(record_ok_at(
                pre,
                signature,
                last_valid_block_height,
                amount,
                from_address,
                from_token,
                to_address,
                to_token,
                lot_selection_method,
                price,
                view_numbers(lot_numbers),
                i as int,
                selv,
                post,
            )) by {
                assert(post =~= (DbV {
                    accounts: pre.accounts.update(i as int, av),
                    transfers: pre.transfers.push(
                        new_transfer(
                            signature,
                            last_valid_block_height,
                            from_address,
                            from_token,
                            to_address,
                            to_token,
                            lot_selection_method,
                            price,
                            selv,
                        ),
                    ),
                    disposed: pre.disposed,
                    next_lot_number: selv.next,
                    tax_rates: pre.tax_rates,
                }));
            }
            assert(db_wf(post)) by {
                crate::select::lemma_selection_sums(pre.accounts[i as int].lots, pre.next_lot_number, selv);
                assert(pre.next_lot_number <= selv.next);
                assert(lots_wf(selv.remaining));
                assert(forall|k: int|
                    0 <= k < pre.accounts.len() ==> account_wf(
                        #[trigger] pre.accounts[k],
                        pre.next_lot_number as int,
                    ));
                assert(forall|k: int|
                    0 <= k < pre.transfers.len() ==> transfer_wf(
                        #[trigger] pre.transfers[k],
                        pre.next_lot_number as int,
                    ));
            }
        }
        Ok(())
    }
}

/// The merged lot that undoes a split: the consumed part and the residual
/// rejoined under the consumed part's number.
pub open spec fn merged_lot(c: Lot, residual_amount: u64) -> Lot {
    Lot {
        lot_number: c.lot_number,
        amount: (c.amount + residual_amount) as u64,
        acquisition: c.acquisition,
    }
}

/// One witness that `rl` is the source account's live-lot state with the
/// transfer's provisional debit reversed exactly.
pub open spec fn cancel_restores_at(
    acct_lots: Seq<Lot>,
    t: TransferV,
    si: SplitInfo,
    ri: int,
    ci: int,
    rl: Seq<Lot>,
) -> bool {
    &&& 0 <= ri < acct_lots.len()
    &&& acct_lots[ri].lot_number == si.residual_number
    &&& 0 <= ci < t.lots.len()
    &&& t.lots[ci].lot_number == si.consumed_number
    &&& t.lots[ci].amount + acct_lots[ri].amount <= u64::MAX
    &&& strictly_sorted(rl)
    &&& rl.to_multiset() == acct_lots.remove(ri).to_multiset().add(
        t.lots.update(ci, merged_lot(t.lots[ci], acct_lots[ri].amount)).to_multiset(),
    )
}

/// `rl` holds the same lots the account held before the transfer debited it.
pub open spec fn cancel_restores(acct_lots: Seq<Lot>, t: TransferV, rl: Seq<Lot>) -> bool {
    match t.split {
        None => strictly_sorted(rl) && rl.to_multiset() == acct_lots.to_multiset().add(
            t.lots.to_multiset(),
        ),
        Some(si) => exists|ri: int, ci: int| cancel_restores_at(acct_lots, t, si, ri, ci, rl),
    }
}

/// The reversal of pending transfer `t` fits back into its source
/// account's live lots: the residual lot of a split is present to rejoin,
/// no debited lot number is live again, and the restored total fits.
pub open spec fn cancel_fits(acct_lots: Seq<Lot>, t: TransferV) -> bool {
    &&& sum_amounts(acct_lots) + t.amount <= u64::MAX
    &&& match t.split {
        None => forall|k: int|
            0 <= k < t.lots.len() ==> !contains_number(
                acct_lots,
                (#[trigger] t.lots[k]).lot_number,
            ),
        Some(si) => {
            &&& contains_number(acct_lots, si.residual_number)
            &&& contains_number(t.lots, si.consumed_number)
            &&& forall|k: int|
                0 <= k < t.lots.len() ==> (!contains_number(
                    acct_lots,
                    (#[trigger] t.lots[k]).lot_number,
                ) || t.lots[k].lot_number == si.residual_number)
        },
    }
}

/// One witness that the reversal of the transfer under `signature` cannot
/// be applied to the ledger as it stands.
pub open spec fn cancel_blocked_at(pre: DbV, signature: u64, j: int, i: int) -> bool {
    &&& 0 <= j < pre.transfers.len()
    &&& pre.transfers[j].signature == signature
    &&& pre.transfers[j].status is Pending
    &&& 0 <= i < pre.accounts.len()
    &&& account_key_is(pre.accounts[i], pre.transfers[j].from_address, pre.transfers[j].from_token)
    &&& !cancel_fits(pre.accounts[i].lots, pre.transfers[j])
}

/// Exactly when `cancel_transfer` may fail, and with which error.
pub open spec fn cancel_err(pre: DbV, signature: u64, e: LedgerError) -> bool {
    ||| (e == LedgerError::UnknownSignature && !has_transfer(pre, signature))
    ||| (e == LedgerError::AlreadyFinalized && exists|j: int|
        0 <= j < pre.transfers.len() && (#[trigger] pre.transfers[j]).signature == signature && !(
        pre.transfers[j].status is Pending))
    ||| (e == LedgerError::UnknownAccount && exists|j: int|
        0 <= j < pre.transfers.len() && (#[trigger] pre.transfers[j]).signature == signature
            && pre.transfers[j].status is Pending && !has_account(
            pre,
            pre.transfers[j].from_address,
            pre.transfers[j].from_token,
        ))
    ||| (e == LedgerError::LedgerInvariantViolation && exists|j: int, i: int|
        cancel_blocked_at(pre, signature, j, i))
}

/// One witness for a successful `cancel_transfer`.
pub open spec fn cancel_ok_at(pre: DbV, signature: u64, j: int, i: int, rl: Seq<Lot>, post: DbV) -> bool {
    &&& 0 <= j < pre.transfers.len()
    &&& pre.transfers[j].signature == signature
    &&& pre.transfers[j].status is Pending
    &&& 0 <= i < pre.accounts.len()
    &&& account_key_is(pre.accounts[i], pre.transfers[j].from_address, pre.transfers[j].from_token)
    &&& cancel_restores(pre.accounts[i].lots, pre.transfers[j], rl)
    &&& post == (DbV {
        accounts: pre.accounts.update(i, AccountV { lots: rl, ..pre.accounts[i] }),
        transfers: pre.transfers.update(
            j,
            TransferV { status: TransferStatus::Cancelled, ..pre.transfers[j] },
        ),
        ..pre
    })
}

/// What a successful `cancel_transfer` does: the pending record becomes
/// Cancelled and its provisional debit is reversed exactly.
pub open spec fn cancel_ok(pre: DbV, signature: u64, post: DbV) -> bool {
    exists|j: int, i: int, rl: Seq<Lot>| cancel_ok_at(pre, signature, j, i, rl, post)
}

impl Db {
    /// Reverses a pending transfer's provisional lot debit exactly and
    /// marks the record Cancelled.
    ///
    /// Fails on an unknown signature, on a transfer already confirmed or
    /// cancelled, or when the ledger no longer holds what the reversal
    /// needs; a failure leaves the ledger unchanged.
    #[verifier::rlimit(100)]
    pub fn cancel_transfer(&mut self, signature: u64) -> (r: Result<(), LedgerError>)
        requires
            db_wf(old(self)@),
        ensures
            db_wf(final(self)@),
            match r {
                Ok(()) => cancel_ok(old(self)@, signature, final(self)@),
                Err(e) => final(self)@ == old(self)@ && cancel_err(old(self)@, signature, e),
            },
    {
        let ghost pre = self@;
        let j = match self.find_transfer(signature) {
            None => {
                return Err(LedgerError::UnknownSignature);
            },
            Some(j) => j,
        };
        proof {
            assert(pre.transfers[j as int] == self.transfers@[j as int]@);
        }
        let pending = match self.transfers[j].status {
            TransferStatus::Pending => true,
            _ => false,
        };
        if !pending {
            return Err(LedgerError::AlreadyFinalized);
        }
        let from_address = self.transfers[j].from_address;
        let from_token = self.transfers[j].from_token;
        let i = match self.find_account(from_address, from_token) {
            None => {
                return Err(LedgerError::UnknownAccount);
            },
            Some(i) => i,
        };
        proof {
            assert(has_account(pre, from_address, from_token)) by {
                assert(account_key_is(
                    self.accounts@[i as int]@,
                    from_address,
                    from_token,
                ));
                assert(pre.accounts[i as int] == self.accounts@[i as int]@);
            }
        }
        proof {
            assert(pre.accounts[i as int] == self.accounts@[i as int]@);
            assert(account_wf(pre.accounts[i as int], pre.next_lot_number as int));
            assert(transfer_wf(pre.transfers[j as int], pre.next_lot_number as int));
        }
        let mut lots = clone_lots(&self.accounts[i].lots);
        let mut consumed = clone_lots(&self.transfers[j].lots);
        let ghost acct_lots = pre.accounts[i as int].lots;
        let ghost t = pre.transfers[j as int];
        let ghost mut base = acct_lots;
        let ghost mut restored_consumed = t.lots;
        let ghost mut ri: int = 0;
        let ghost mut ci: int = 0;
        match self.transfers[j].split {
            Some(si) => {
                let rpos = match find_lot_position(&lots, si.residual_number) {
                    None => {
                        proof {
                            assert(!cancel_fits(acct_lots, t));
                            assert(cancel_blocked_at(pre, signature, j as int, i as int));
                        }
                        return Err(LedgerError::LedgerInvariantViolation);
                    },
                    Some(p) => p,
                };
                let res = lots[rpos];
                lots.remove(rpos);
                let cpos = match find_lot_position(&consumed, si.consumed_number) {
                    None => {
                        proof {
                            assert(!cancel_fits(acct_lots, t));
                            assert(cancel_blocked_at(pre, signature, j as int, i as int));
                        }
                        return Err(LedgerError::LedgerInvariantViolation);
                    },
                    Some(p) => p,
                };
                let c = consumed[cpos];
                if c.amount as u128 + res.amount as u128 > u64::MAX as u128 {
                    proof {
                        if cancel_fits(acct_lots, t) {
                            lemma_element_le_sum(t.lots, cpos as int);
                            lemma_element_le_sum(acct_lots, rpos as int);
                            assert(false);
                        }
                        assert(cancel_blocked_at(pre, signature, j as int, i as int));
                    }
                    return Err(LedgerError::LedgerInvariantViolation);
                }
                consumed.set(
                    cpos,
                    Lot {
                        lot_number: c.lot_number,
                        amount: c.amount + res.amount,
                        acquisition: c.acquisition,
                    },
                );
                proof {
                    ri = rpos as int;
                    ci = cpos as int;
                    base = acct_lots.remove(ri);
                    restored_consumed = t.lots.update(ci, merged_lot(t.lots[ci], acct_lots[ri].amount));
                    assert(lots@ == base);
                    assert(consumed@ == restored_consumed);
                    assert(strictly_sorted(base)) by {
                        assert(forall|a: int, b: int|
                            0 <= a < b < base.len() ==> base[a] == acct_lots[
                                if a < ri {
                                    a
                                } else {
                                    a + 1
                                }
                            ] && base[b] == acct_lots[
                                if b < ri {
                                    b
                                } else {
                                    b + 1
                                }
                            ]);
                    }
                    assert(all_positive(consumed@) && all_valid_dates(consumed@) && numbers_below(
                        consumed@,
                        pre.next_lot_number as int,
                    )) by {
                        assert(forall|k: int|
                            0 <= k < t.lots.len() && k != ci ==> consumed@[k] == t.lots[k]);
                    }
                    assert(all_positive(base) && all_valid_dates(base) && numbers_below(
                        base,
                        pre.next_lot_number as int,
                    )) by {
                        assert(forall|k: int|
                            0 <= k < base.len() ==> base[k] == acct_lots[
                                if k < ri {
                                    k
                                } else {
                                    k + 1
                                }
                            ]);
                    }
                }
            },
            None => {
                proof {
                    assert(lots@ == base);
                    assert(consumed@ == restored_consumed);
                }
            },
        }
        let ghost lots_base = lots@;
        let mut k: usize = 0;
        proof {
            broadcast use group_to_multiset_ensures;

            assert(consumed@.take(0).to_multiset() =~= vstd::multiset::Multiset::<Lot>::empty());
            assert(lots@.to_multiset() =~= lots_base.to_multiset().add(
                consumed@.take(0).to_multiset(),
            ));
            assert(consumed@.len() == t.lots.len());
            assert(forall|w: int|
                0 <= w < consumed@.len() ==> (#[trigger] consumed@[w]).lot_number == t.lots[
                    w
                ].lot_number);
        }
        while k < consumed.len()
            invariant
                0 <= k <= consumed@.len(),
                self@ == pre,
                db_wf(pre),
                0 <= j < pre.transfers.len(),
                pre.transfers[j as int].signature == signature,
                pre.transfers[j as int].status is Pending,
                pre.transfers[j as int].from_address == from_address,
                pre.transfers[j as int].from_token == from_token,
                has_account(pre, from_address, from_token),
                t == pre.transfers[j as int],
                0 <= i < pre.accounts.len(),
                account_key_is(pre.accounts[i as int], from_address, from_token),
                acct_lots == pre.accounts[i as int].lots,
                consumed@.len() == t.lots.len(),
                forall|w: int|
                    0 <= w < consumed@.len() ==> (#[trigger] consumed@[w]).lot_number == t.lots[
                        w
                    ].lot_number,
                t.split is None ==> lots_base == acct_lots,
                t.split matches Some(si) ==> 0 <= ri < acct_lots.len() && acct_lots[
                    ri
                ].lot_number == si.residual_number && lots_base == acct_lots.remove(ri),
                strictly_sorted(lots@),
                all_positive(lots@),
                all_valid_dates(lots@),
                numbers_below(lots@, pre.next_lot_number as int),
                all_positive(consumed@),
                all_valid_dates(consumed@),
                numbers_below(consumed@, pre.next_lot_number as int),
                lots@.to_multiset() == lots_base.to_multiset().add(
                    consumed@.take(k as int).to_multiset(),
                ),
            decreases consumed@.len() - k,
        {
            proof {
                broadcast use group_to_multiset_ensures;

                assert(consumed@.take(k + 1) =~= consumed@.take(k as int).push(
                    consumed@[k as int],
                ));
            }
            let ghost lots0 = lots@;
            if !insert_lot_sorted(&mut lots, consumed[k]) {
                proof {
                    broadcast use group_to_multiset_ensures;

                    assert(transfer_wf(pre.transfers[j as int], pre.next_lot_number as int));
                    assert(account_wf(pre.accounts[i as int], pre.next_lot_number as int));
                    let n = consumed@[k as int].lot_number;
                    let idx = choose|idx: int|
                        0 <= idx < lots0.len() && lots0[idx].lot_number == n;
                    let x = lots0[idx];
                    assert(lots0.contains(x));
                    lemma_multiset_commutative(lots_base, consumed@.take(k as int));
                    lemma_mset_contains(lots0, lots_base + consumed@.take(k as int));
                    assert((lots_base + consumed@.take(k as int)).contains(x));
                    let w = choose|w: int|
                        0 <= w < (lots_base + consumed@.take(k as int)).len() && (lots_base
                            + consumed@.take(k as int))[w] == x;
                    if w < lots_base.len() {
                        assert(lots_base[w] == x);
                        match t.split {
                            None => {
                                assert(contains_number(acct_lots, n)) by {
                                    assert(acct_lots[w].lot_number == n);
                                }
                                assert(t.lots[k as int].lot_number == n);
                                assert(!cancel_fits(acct_lots, t));
                            },
                            Some(si) => {
                                let w2 = if w < ri {
                                    w
                                } else {
                                    w + 1
                                };
                                assert(acct_lots[w2] == lots_base[w]);
                                assert(contains_number(acct_lots, n)) by {
                                    assert(acct_lots[w2].lot_number == n);
                                }
                                assert(w2 != ri);
                                assert(n != si.residual_number) by {
                                    if n == si.residual_number {
                                        assert(acct_lots[w2].lot_number == acct_lots[
                                            ri
                                        ].lot_number);
                                    }
                                }
                                assert(t.lots[k as int].lot_number == n);
                                assert(!cancel_fits(acct_lots, t));
                            },
                        }
                    } else {
                        let w2 = w - lots_base.len();
                        assert(consumed@.take(k as int)[w2] == x);
                        assert(consumed@[w2] == x);
                        assert(t.lots[w2].lot_number == n);
                        assert(t.lots[k as int].lot_number == n);
                        assert(false);
                    }
                    assert(cancel_blocked_at(pre, signature, j as int, i as int));
                }
                return Err(LedgerError::LedgerInvariantViolation);
            }
            proof {
                broadcast use group_to_multiset_ensures;

                assert(lots@.to_multiset() =~= lots_base.to_multiset().add(
                    consumed@.take(k + 1).to_multiset(),
                ));
                assert(all_positive(lots@) && all_valid_dates(lots@) && numbers_below(
                    lots@,
                    pre.next_lot_number as int,
                )) by {
                    lemma_mset_contains(lots@, lots0.push(consumed@[k as int]));
                    assert(lots@.to_multiset() =~= lots0.push(consumed@[k as int]).to_multiset());
                    assert forall|m: int| 0 <= m < lots@.len() implies (#[trigger] lots@[m]).amount
                        > 0 && lots@[m].acquisition.when.is_valid() && lots@[m].lot_number
                        < pre.next_lot_number by {
                        assert(lots@.contains(lots@[m]));
                        assert(lots0.push(consumed@[k as int]).contains(lots@[m]));
                        let w = choose|w: int|
                            0 <= w < lots0.push(consumed@[k as int]).len() && lots0.push(
                                consumed@[k as int],
                            )[w] == lots@[m];
                        if w < lots0.len() {
                            assert(lots0[w] == lots@[m]);
                        }
                    }
                }
            }
            k = k + 1;
        }
        proof {
            assert(consumed@.take(consumed@.len() as int) =~= consumed@);
        }
        let total = crate::lot::sum_lots_wide_unchecked(&lots);
        if total > u64::MAX as u128 {
            proof {
                broadcast use group_to_multiset_ensures;

                if cancel_fits(acct_lots, t) {
                    lemma_multiset_commutative(lots_base, consumed@);
                    lemma_sum_amounts_multiset(lots@, lots_base + consumed@);
                    lemma_sum_concat(lots_base, consumed@);
                    match t.split {
                        None => {},
                        Some(si) => {
                            lemma_element_le_sum(t.lots, ci);
                            lemma_element_le_sum(acct_lots, ri);
                            lemma_sum_amounts_remove_pub(acct_lots, ri);
                            lemma_sum_update(
                                t.lots,
                                ci,
                                merged_lot(t.lots[ci], acct_lots[ri].amount),
                            );
                        },
                    }
                    assert(sum_amounts(lots@) == sum_amounts(acct_lots) + t.amount);
                    assert(false);
                }
                assert(cancel_blocked_at(pre, signature, j as int, i as int));
            }
            return Err(LedgerError::LedgerInvariantViolation);
        }
        let acct = &self.accounts[i];
        let new_acct = TrackedAccount {
            address: acct.address,
            token: acct.token,
            lots,
            last_update_balance: acct.last_update_balance,
        };
        let old_t = &self.transfers[j];
        let new_t = PendingTransfer {
            signature: old_t.signature,
            last_valid_block_height: old_t.last_valid_block_height,
            amount: old_t.amount,
            from_address: old_t.from_address,
            from_token: old_t.from_token,
            to_address: old_t.to_address,
            to_token: old_t.to_token,
            method: old_t.method,
            price: old_t.price,
            lots: clone_lots(&old_t.lots),
            split: old_t.split,
            status: TransferStatus::Cancelled,
        };
        let ghost rl = new_acct.lots@;
        self.accounts.set(i, new_acct);
        self.transfers.set(j, new_t);
        proof {
            let post = self@;
            assert(post.accounts =~= pre.accounts.update(
                i as int,
                AccountV { lots: rl, ..pre.accounts[i as int] },
            ));
            assert(post.transfers =~= pre.transfers.update(
                j as int,
                TransferV { status: TransferStatus::Cancelled, ..pre.transfers[j as int] },
            ));
            assert(cancel_restores(acct_lots, t, rl)) by {
                match t.split {
                    None => {},
                    Some(si) => {
                        assert(cancel_restores_at(acct_lots, t, si, ri, ci, rl));
                    },
                }
            }
            assert(cancel_ok_at(pre, signature, j as int, i as int, rl, post)) by {
                assert(post =~= (DbV {
                    accounts: pre.accounts.update(
                        i as int,
                        AccountV { lots: rl, ..pre.accounts[i as int] },
                    ),
                    transfers: pre.transfers.update(
                        j as int,
                        TransferV { status: TransferStatus::Cancelled, ..pre.transfers[j as int] },
                    ),
                    ..pre
                }));
            }
            assert(db_wf(post)) by {
                assert(lots_wf(rl));
                assert(forall|m: int|
                    0 <= m < pre.accounts.len() ==> account_wf(
                        #[trigger] pre.accounts[m],
                        pre.next_lot_number as int,
                    ));
                assert(forall|m: int|
                    0 <= m < pre.transfers.len() ==> transfer_wf(
                        #[trigger] pre.transfers[m],
                        pre.next_lot_number as int,
                    ));
                assert(transfer_wf(post.transfers[j as int], post.next_lot_number as int));
            }
        }
        Ok(())
    }
}

/// The disposal records a confirmed or dropped disposal creates: one per
/// consumed lot, at the transfer's quoted price and the settlement date.
pub open spec fn disposed_of(lots: Seq<Lot>, token: Token, price: u64, settled: Date) -> Seq<
    DisposedLot,
> {
    lots.map_values(|l: Lot| DisposedLot { lot: l, token, price, when: settled })
}

/// The debited lots fit into the destination account: none of their
/// numbers is live there, and the combined total fits.
pub open spec fn move_fits(dest_lots: Seq<Lot>, t: TransferV) -> bool {
    &&& sum_amounts(dest_lots) + t.amount <= u64::MAX
    &&& forall|k: int|
        0 <= k < t.lots.len() ==> !contains_number(dest_lots, (#[trigger] t.lots[k]).lot_number)
}

/// One witness that the transfer under `signature` cannot move its lots
/// into the tracked destination as the ledger stands.
pub open spec fn confirm_blocked_at(pre: DbV, signature: u64, j: int, k: int) -> bool {
    &&& 0 <= j < pre.transfers.len()
    &&& pre.transfers[j].signature == signature
    &&& pre.transfers[j].status is Pending
    &&& 0 <= k < pre.accounts.len()
    &&& account_key_is(pre.accounts[k], pre.transfers[j].to_address, pre.transfers[j].to_token)
    &&& !move_fits(pre.accounts[k].lots, pre.transfers[j])
}

/// Exactly when `confirm_transfer` may fail, and with which error.
pub open spec fn confirm_err(pre: DbV, signature: u64, e: LedgerError) -> bool {
    ||| (e == LedgerError::UnknownSignature && !has_transfer(pre, signature))
    ||| (e == LedgerError::AlreadyFinalized && exists|j: int|
        0 <= j < pre.transfers.len() && (#[trigger] pre.transfers[j]).signature == signature && !(
        pre.transfers[j].status is Pending))
    ||| (e == LedgerError::LedgerInvariantViolation && exists|j: int, k: int|
        confirm_blocked_at(pre, signature, j, k))
}

/// One witness for the internal-move outcome of `confirm_transfer`: the
/// debited lots join destination account `k`, whose lots become `ml`.
pub open spec fn confirm_move_at(
    pre: DbV,
    settled: Date,
    j: int,
    k: int,
    ml: Seq<Lot>,
    post: DbV,
) -> bool {
    let t = pre.transfers[j];
    &&& 0 <= k < pre.accounts.len()
    &&& account_key_is(pre.accounts[k], t.to_address, t.to_token)
    &&& strictly_sorted(ml)
    &&& ml.to_multiset() == pre.accounts[k].lots.to_multiset().add(t.lots.to_multiset())
    &&& post == (DbV {
        accounts: pre.accounts.update(k, AccountV { lots: ml, ..pre.accounts[k] }),
        transfers: pre.transfers.update(
            j,
            TransferV { status: TransferStatus::Confirmed(settled), ..t },
        ),
        ..pre
    })
}

/// One witness for a successful `confirm_transfer`.
///
/// When the destination account is tracked, the debited lots move into it
/// unchanged (an internal move realises no gain); otherwise the transfer is
/// a disposal and each debited lot becomes a disposal record.
pub open spec fn confirm_ok_at(pre: DbV, signature: u64, settled: Date, j: int, post: DbV) -> bool {
    &&& 0 <= j < pre.transfers.len()
    &&& pre.transfers[j].signature == signature
    &&& pre.transfers[j].status is Pending
    &&& {
        let t = pre.transfers[j];
        if has_account(pre, t.to_address, t.to_token) {
            exists|k: int, ml: Seq<Lot>| confirm_move_at(pre, settled, j, k, ml, post)
        } else {
            post == (DbV {
                transfers: pre.transfers.update(
                    j,
                    TransferV { status: TransferStatus::Confirmed(settled), ..t },
                ),
                disposed: pre.disposed + disposed_of(t.lots, t.from_token, t.price, settled),
                ..pre
            })
        }
    }
}

/// What a successful `confirm_transfer` does.
pub open spec fn confirm_ok(pre: DbV, signature: u64, settled: Date, post: DbV) -> bool {
    exists|j: int| confirm_ok_at(pre, signature, settled, j, post)
}

impl Db {
    /// Finalises a pending transfer's lot debit as permanent, stamping the
    /// settlement date: the lots move to a tracked destination account, or
    /// become disposal records when the destination is not tracked.
    ///
    /// Fails on an unknown signature or a transfer already confirmed or
    /// cancelled; a failure leaves the ledger unchanged.
    #[verifier::rlimit(100)]
    pub fn confirm_transfer(&mut self, signature: u64, settled: Date) -> (r: Result<(), LedgerError>)
        requires
            db_wf(old(self)@),
            settled.is_valid(),
        ensures
            db_wf(final(self)@),
            match r {
                Ok(()) => confirm_ok(old(self)@, signature, settled, final(self)@),
                Err(e) => final(self)@ == old(self)@ && confirm_err(old(self)@, signature, e),
            },
    {
        let ghost pre = self@;
        let j = match self.find_transfer(signature) {
            None => {
                return Err(LedgerError::UnknownSignature);
            },
            Some(j) => j,
        };
        proof {
            assert(pre.transfers[j as int] == self.transfers@[j as int]@);
        }
        let pending = match self.transfers[j].status {
            TransferStatus::Pending => true,
            _ => false,
        };
        if !pending {
            return Err(LedgerError::AlreadyFinalized);
        }
        let to_address = self.transfers[j].to_address;
        let to_token = self.transfers[j].to_token;
        let ghost t = pre.transfers[j as int];
        proof {
            assert(transfer_wf(t, pre.next_lot_number as int));
        }
        let old_t = &self.transfers[j];
        let confirmed_t = PendingTransfer {
            signature: old_t.signature,
            last_valid_block_height: old_t.last_valid_block_height,
            amount: old_t.amount,
            from_address: old_t.from_address,
            from_token: old_t.from_token,
            to_address: old_t.to_address,
            to_token: old_t.to_token,
            method: old_t.method,
            price: old_t.price,
            lots: clone_lots(&old_t.lots),
            split: old_t.split,
            status: TransferStatus::Confirmed(settled),
        };
        match self.find_account(to_address, to_token) {
            Some(k) => {
                proof {
                    assert(pre.accounts[k as int] == self.accounts@[k as int]@);
                    assert(account_wf(pre.accounts[k as int], pre.next_lot_number as int));
                }
                let mut lots = clone_lots(&self.accounts[k].lots);
                let consumed = clone_lots(&self.transfers[j].lots);
                let ghost lots_base = lots@;
                let mut m: usize = 0;
                proof {
                    broadcast use group_to_multiset_ensures;

                    assert(consumed@.take(0).to_multiset()
                        =~= vstd::multiset::Multiset::<Lot>::empty());
                    assert(lots@.to_multiset() =~= lots_base.to_multiset().add(
                        consumed@.take(0).to_multiset(),
                    ));
                }
                while m < consumed.len()
                    invariant
                        0 <= m <= consumed@.len(),
                        self@ == pre,
                        db_wf(pre),
                        0 <= j < pre.transfers.len(),
                        pre.transfers[j as int].signature == signature,
                        pre.transfers[j as int].status is Pending,
                        pre.transfers[j as int].to_address == to_address,
                        pre.transfers[j as int].to_token == to_token,
                        has_account(pre, to_address, to_token),
                        t == pre.transfers[j as int],
                        0 <= k < pre.accounts.len(),
                        account_key_is(pre.accounts[k as int], to_address, to_token),
                        lots_base == pre.accounts[k as int].lots,
                        consumed@ == t.lots,
                        strictly_sorted(lots@),
                        all_positive(lots@),
                        all_valid_dates(lots@),
                        numbers_below(lots@, pre.next_lot_number as int),
                        all_positive(consumed@),
                        all_valid_dates(consumed@),
                        numbers_below(consumed@, pre.next_lot_number as int),
                        lots@.to_multiset() == lots_base.to_multiset().add(
                            consumed@.take(m as int).to_multiset(),
                        ),
                    decreases consumed@.len() - m,
                {
                    proof {
                        broadcast use group_to_multiset_ensures;

                        assert(consumed@.take(m + 1) =~= consumed@.take(m as int).push(
                            consumed@[m as int],
                        ));
                    }
                    let ghost lots0 = lots@;
                    if !insert_lot_sorted(&mut lots, consumed[m]) {
                        proof {
                            broadcast use group_to_multiset_ensures;

                            assert(transfer_wf(
                                pre.transfers[j as int],
                                pre.next_lot_number as int,
                            ));
                            let n = consumed@[m as int].lot_number;
                            let idx = choose|idx: int|
                                0 <= idx < lots0.len() && lots0[idx].lot_number == n;
                            let x = lots0[idx];
                            assert(lots0.contains(x));
                            lemma_multiset_commutative(lots_base, consumed@.take(m as int));
                            lemma_mset_contains(lots0, lots_base + consumed@.take(m as int));
                            assert((lots_base + consumed@.take(m as int)).contains(x));
                            let w = choose|w: int|
                                0 <= w < (lots_base + consumed@.take(m as int)).len() && (
                                lots_base + consumed@.take(m as int))[w] == x;
                            if w < lots_base.len() {
                                assert(contains_number(lots_base, n)) by {
                                    assert(lots_base[w].lot_number == n);
                                }
                                assert(t.lots[m as int].lot_number == n);
                                assert(!move_fits(lots_base, t));
                            } else {
                                let w2 = w - lots_base.len();
                                assert(consumed@.take(m as int)[w2] == x);
                                assert(t.lots[w2].lot_number == n);
                                assert(t.lots[m as int].lot_number == n);
                                assert(false);
                            }
                            assert(confirm_blocked_at(pre, signature, j as int, k as int));
                        }
                        return Err(LedgerError::LedgerInvariantViolation);
                    }
                    proof {
                        broadcast use group_to_multiset_ensures;

                        assert(lots@.to_multiset() =~= lots_base.to_multiset().add(
                            consumed@.take(m + 1).to_multiset(),
                        ));
                        assert(all_positive(lots@) && all_valid_dates(lots@) && numbers_below(
                            lots@,
                            pre.next_lot_number as int,
                        )) by {
                            lemma_mset_contains(lots@, lots0.push(consumed@[m as int]));
                            assert(lots@.to_multiset() =~= lots0.push(
                                consumed@[m as int],
                            ).to_multiset());
                            assert forall|w: int| 0 <= w < lots@.len() implies (#[trigger] lots@[
                            w
                            ]).amount > 0 && lots@[w].acquisition.when.is_valid() && lots@[
                            w
                            ].lot_number < pre.next_lot_number by {
                                assert(lots@.contains(lots@[w]));
                                assert(lots0.push(consumed@[m as int]).contains(lots@[w]));
                                let u = choose|u: int|
                                    0 <= u < lots0.push(consumed@[m as int]).len() && lots0.push(
                                        consumed@[m as int],
                                    )[u] == lots@[w];
                                if u < lots0.len() {
                                    assert(lots0[u] == lots@[w]);
                                }
                            }
                        }
                    }
                    m = m + 1;
                }
                proof {
                    assert(consumed@.take(consumed@.len() as int) =~= consumed@);
                }
                let total = crate::lot::sum_lots_wide_unchecked(&lots);
                if total > u64::MAX as u128 {
                    proof {
                        broadcast use group_to_multiset_ensures;

                        lemma_multiset_commutative(lots_base, consumed@);
                        lemma_sum_amounts_multiset(lots@, lots_base + consumed@);
                        lemma_sum_concat(lots_base, consumed@);
                        assert(!move_fits(lots_base, t));
                        assert(confirm_blocked_at(pre, signature, j as int, k as int));
                    }
                    return Err(LedgerError::LedgerInvariantViolation);
                }
                let acct = &self.accounts[k];
                let new_acct = TrackedAccount {
                    address: acct.address,
                    token: acct.token,
                    lots,
                    last_update_balance: acct.last_update_balance,
                };
                let ghost ml = new_acct.lots@;
                self.accounts.set(k, new_acct);
                self.transfers.set(j, confirmed_t);
                proof {
                    let post = self@;
                    assert(post.accounts =~= pre.accounts.update(
                        k as int,
                        AccountV { lots: ml, ..pre.accounts[k as int] },
                    ));
                    assert(post.transfers =~= pre.transfers.update(
                        j as int,
                        TransferV { status: TransferStatus::Confirmed(settled), ..t },
                    ));
                    assert(confirm_ok_at(pre, signature, settled, j as int, post)) by {
                        assert(has_account(pre, t.to_address, t.to_token)) by {
                            assert(account_key_is(
                                pre.accounts[k as int],
                                t.to_address,
                                t.to_token,
                            ));
                        }
                        assert(post =~= (DbV {
                            accounts: pre.accounts.update(
                                k as int,
                                AccountV { lots: ml, ..pre.accounts[k as int] },
                            ),
                            transfers: pre.transfers.update(
                                j as int,
                                TransferV { status: TransferStatus::Confirmed(settled), ..t },
                            ),
                            ..pre
                        }));
                        assert(confirm_move_at(pre, settled, j as int, k as int, ml, post));
                    }
                    assert(db_wf(post)) by {
                        assert(lots_wf(ml));
                        assert(forall|w: int|
                            0 <= w < pre.accounts.len() ==> account_wf(
                                #[trigger] pre.accounts[w],
                                pre.next_lot_number as int,
                            ));
                        assert(forall|w: int|
                            0 <= w < pre.transfers.len() ==> transfer_wf(
                                #[trigger] pre.transfers[w],
                                pre.next_lot_number as int,
                            ));
                        assert(transfer_wf(post.transfers[j as int], post.next_lot_number as int));
                    }
                }
                Ok(())
            },
            None => {
                let consumed = clone_lots(&self.transfers[j].lots);
                let from_token = self.transfers[j].from_token;
                let price = self.transfers[j].price;
                let mut m: usize = 0;
                proof {
                    assert(self@.disposed =~= pre.disposed + disposed_of(
                        t.lots.take(0),
                        t.from_token,
                        t.price,
                        settled,
                    ));
                }
                while m < consumed.len()
                    invariant
                        0 <= m <= consumed@.len(),
                        consumed@ == t.lots,
                        from_token == t.from_token,
                        price == t.price,
                        db_wf(pre),
                        self@ == (DbV {
                            disposed: pre.disposed + disposed_of(
                                t.lots.take(m as int),
                                t.from_token,
                                t.price,
                                settled,
                            ),
                            ..pre
                        }),
                    decreases consumed@.len() - m,
                {
                    let l = consumed[m];
                    self.disposed.push(DisposedLot { lot: l, token: from_token, price, when: settled });
                    proof {
                        assert(disposed_of(t.lots.take(m + 1), t.from_token, t.price, settled)
                            =~= disposed_of(t.lots.take(m as int), t.from_token, t.price, settled).push(
                            DisposedLot { lot: l, token: t.from_token, price: t.price, when: settled },
                        ));
                        assert(self@ =~= (DbV {
                            disposed: pre.disposed + disposed_of(
                                t.lots.take(m + 1),
                                t.from_token,
                                t.price,
                                settled,
                            ),
                            ..pre
                        }));
                    }
                    m = m + 1;
                }
                proof {
                    assert(t.lots.take(t.lots.len() as int) =~= t.lots);
                }
                self.transfers.set(j, confirmed_t);
                proof {
                    let post = self@;
                    assert(post.transfers =~= pre.transfers.update(
                        j as int,
                        TransferV { status: TransferStatus::Confirmed(settled), ..t },
                    ));
                    assert(confirm_ok_at(pre, signature, settled, j as int, post)) by {
                        assert(!has_account(pre, t.to_address, t.to_token));
                        assert(post =~= (DbV {
                            transfers: pre.transfers.update(
                                j as int,
                                TransferV { status: TransferStatus::Confirmed(settled), ..t },
                            ),
                            disposed: pre.disposed + disposed_of(
                                t.lots,
                                t.from_token,
                                t.price,
                                settled,
                            ),
                            ..pre
                        }));
                    }
                    assert(db_wf(post)) by {
                        assert(forall|w: int|
                            0 <= w < pre.transfers.len() ==> transfer_wf(
                                #[trigger] pre.transfers[w],
                                pre.next_lot_number as int,
                            ));
                        assert(transfer_wf(post.transfers[j as int], post.next_lot_number as int));
                        assert forall|w: int| 0 <= w < post.disposed.len() implies (
                        #[trigger] post.disposed[w]).lot.lot_number < post.next_lot_number
                            && post.disposed[w].lot.amount > 0
                            && post.disposed[w].lot.acquisition.when.is_valid() && post.disposed[
                        w
                        ].when.is_valid() by {
                            if w >= pre.disposed.len() {
                                let u = w - pre.disposed.len();
                                assert(post.disposed[w] == disposed_of(
                                    t.lots,
                                    t.from_token,
                                    t.price,
                                    settled,
                                )[u]);
                                assert(post.disposed[w].lot == t.lots[u]);
                            }
                        }
                    }
                }
                Ok(())
            },
        }
    }
}

/// One witness for a successful `record_drop`: a direct disposal with no
/// transfer record, applied to source account `i` through selection `sel`.
pub open spec fn drop_ok_at(
    pre: DbV,
    address: u64,
    token: Token,
    amount: Option<u64>,
    price: u64,
    settled: Date,
    method: LotSelectionMethod,
    lot_numbers: Option<Seq<u64>>,
    i: int,
    sel: SelectionV,
    post: DbV,
) -> bool {
    &&& 0 <= i < pre.accounts.len()
    &&& account_key_is(pre.accounts[i], address, token)
    &&& selection_mode_ok(pre.accounts[i].lots, amount, method, lot_numbers, pre.next_lot_number, sel)
    &&& post == (DbV {
        accounts: pre.accounts.update(i, AccountV { lots: sel.remaining, ..pre.accounts[i] }),
        disposed: pre.disposed + disposed_of(sel.consumed, token, price, settled),
        next_lot_number: sel.next,
        ..pre
    })
}

/// What a successful `record_drop` does.
pub open spec fn drop_ok(
    pre: DbV,
    address: u64,
    token: Token,
    amount: Option<u64>,
    price: u64,
    settled: Date,
    method: LotSelectionMethod,
    lot_numbers: Option<Seq<u64>>,
    post: DbV,
) -> bool {
    exists|i: int, sel: SelectionV|
        drop_ok_at(pre, address, token, amount, price, settled, method, lot_numbers, i, sel, post)
}

impl Db {
    /// Disposes lots directly, with no on-chain transaction involved:
    /// applies lot selection and immediately creates the disposal records.
    ///
    /// Explicit lot numbers override the policy and the amount, and numbers
    /// matching no live lot are ignored.  Fails if the account is not
    /// tracked or the live lots cannot cover a requested amount; a failure
    /// leaves the ledger unchanged.
    #[verifier::rlimit(50)]
    pub fn record_drop(
        &mut self,
        address: u64,
        token: Token,
        amount: Option<u64>,
        price: u64,
        settled: Date,
        lot_selection_method: LotSelectionMethod,
        lot_numbers: Option<&Vec<u64>>,
    ) -> (r: Result<(), LedgerError>)
        requires
            db_wf(old(self)@),
            old(self)@.next_lot_number < u64::MAX,
            settled.is_valid(),
        ensures
            db_wf(final(self)@),
            match r {
                Ok(()) => drop_ok(
                    old(self)@,
                    address,
                    token,
                    amount,
                    price,
                    settled,
                    lot_selection_method,
                    view_numbers(lot_numbers),
                    final(self)@,
                ),
                Err(e) => final(self)@ == old(self)@ && drop_err(
                    old(self)@,
                    address,
                    token,
                    amount,
                    view_numbers(lot_numbers),
                    e,
                ),
            },
    {
        let ghost pre = self@;
        let i = match self.find_account(address, token) {
            None => {
                return Err(LedgerError::UnknownAccount);
            },
            Some(i) => i,
        };
        proof {
            assert(pre.accounts[i as int] == self.accounts@[i as int]@);
            assert(account_wf(pre.accounts[i as int], pre.next_lot_number as int));
        }
        let sel = match select_lots(
            &self.accounts[i].lots,
            amount,
            lot_selection_method,
            lot_numbers,
            self.next_lot_number,
        ) {
            Err(e) => {
                return Err(e);
            },
            Ok(s) => s,
        };
        let ghost selv = sel@;
        let acct = &self.accounts[i];
        let new_acct = TrackedAccount {
            address: acct.address,
            token: acct.token,
            lots: sel.remaining,
            last_update_balance: acct.last_update_balance,
        };
        self.accounts.set(i, new_acct);
        self.next_lot_number = sel.next_lot_number;
        let ghost mid = self@;
        proof {
            assert(mid.accounts =~= pre.accounts.update(
                i as int,
                AccountV { lots: selv.remaining, ..pre.accounts[i as int] },
            ));
            assert(mid.transfers =~= pre.transfers);
        }
        let consumed = sel.consumed;
        let mut m: usize = 0;
        proof {
            assert(self@.disposed =~= pre.disposed + disposed_of(
                selv.consumed.take(0),
                token,
                price,
                settled,
            ));
        }
        while m < consumed.len()
            invariant
                0 <= m <= consumed@.len(),
                consumed@ == selv.consumed,
                self@ == (DbV {
                    disposed: pre.disposed + disposed_of(
                        selv.consumed.take(m as int),
                        token,
                        price,
                        settled,
                    ),
                    ..mid
                }),
            decreases consumed@.len() - m,
        {
            let l = consumed[m];
            self.disposed.push(DisposedLot { lot: l, token, price, when: settled });
            proof {
                assert(disposed_of(selv.consumed.take(m + 1), token, price, settled)
                    =~= disposed_of(selv.consumed.take(m as int), token, price, settled).push(
                    DisposedLot { lot: l, token, price, when: settled },
                ));
                assert(self@ =~= (DbV {
                    disposed: pre.disposed + disposed_of(
                        selv.consumed.take(m + 1),
                        token,
                        price,
                        settled,
                    ),
                    ..mid
                }));
            }
            m = m + 1;
        }
        proof {
            assert(selv.consumed.take(selv.consumed.len() as int) =~= selv.consumed);
            let post = self@;
            assert(drop_ok_at(
                pre,
                address,
                token,
                amount,
                price,
                settled,
                lot_selection_method,
                view_numbers(lot_numbers),
                i as int,
                selv,
                post,
            )) by {
                assert(post =~= (DbV {
                    accounts: pre.accounts.update(
                        i as int,
                        AccountV { lots: selv.remaining, ..pre.accounts[i as int] },
                    ),
                    disposed: pre.disposed + disposed_of(selv.consumed, token, price, settled),
                    next_lot_number: selv.next,
                    ..pre
                }));
            }
            assert(db_wf(post)) by {
                crate::select::lemma_selection_sums(
                    pre.accounts[i as int].lots,
                    pre.next_lot_number,
                    selv,
                );
                assert(pre.next_lot_number <= selv.next);
                assert(lots_wf(selv.remaining));
                assert(forall|k: int|
                    0 <= k < pre.accounts.len() ==> account_wf(
                        #[trigger] pre.accounts[k],
                        pre.next_lot_number as int,
                    ));
                assert(forall|k: int|
                    0 <= k < pre.transfers.len() ==> transfer_wf(
                        #[trigger] pre.transfers[k],
                        pre.next_lot_number as int,
                    ));
                assert forall|w: int| 0 <= w < post.disposed.len() implies (
                #[trigger] post.disposed[w]).lot.lot_number < post.next_lot_number
                    && post.disposed[w].lot.amount > 0
                    && post.disposed[w].lot.acquisition.when.is_valid() && post.disposed[
                w
                ].when.is_valid() by {
                    if w >= pre.disposed.len() {
                        let u = w - pre.disposed.len();
                        assert(post.disposed[w] == disposed_of(
                            selv.consumed,
                            token,
                            price,
                            settled,
                        )[u]);
                        assert(post.disposed[w].lot == selv.consumed[u]);
                    }
                }
            }
        }
        Ok(())
    }
}

/// `oi` indexes the chronologically-first live lot: no other lot was
/// acquired earlier, and none acquired the same day carries a lower number.
pub open spec fn is_oldest(lots: Seq<Lot>, oi: int) -> bool {
    &&& 0 <= oi < lots.len()
    &&& forall|k: int| 0 <= k < lots.len() ==> fifo_le(lots[oi], #[trigger] lots[k])
}

/// What `adjust_balance` does: when the on-chain balance fell short of the
/// recorded one by less than the oldest live lot's amount, that lot and the
/// recorded balance absorb exactly the shortfall; otherwise nothing changes.
pub open spec fn adjust_ok(
    pre: DbV,
    address: u64,
    token: Token,
    network_balance: u64,
    adjusted: bool,
    post: DbV,
) -> bool {
    exists|i: int|
        {
            &&& 0 <= i < pre.accounts.len()
            &&& account_key_is(#[trigger] pre.accounts[i], address, token)
            &&& {
                let a = pre.accounts[i];
                if adjusted {
                    exists|oi: int|
                        {
                            &&& is_oldest(a.lots, oi)
                            &&& a.balance > network_balance
                            &&& a.balance - network_balance < a.lots[oi].amount
                            &&& post == (DbV {
                                accounts: pre.accounts.update(
                                    i,
                                    AccountV {
                                        lots: a.lots.update(
                                            oi,
                                            Lot {
                                                amount: (a.lots[oi].amount - (a.balance
                                                    - network_balance)) as u64,
                                                ..a.lots[oi]
                                            },
                                        ),
                                        balance: network_balance,
                                        ..a
                                    },
                                ),
                                ..pre
                            })
                        }
                } else {
                    &&& post == pre
                    &&& (a.lots.len() == 0 || network_balance >= a.balance || (forall|oi: int|
                        is_oldest(a.lots, oi) ==> a.balance - network_balance >= a.lots[
                            oi
                        ].amount))
                }
            }
        }
}

impl Db {
    /// Reconciles one account's recorded balance with the authoritative
    /// on-chain balance, absorbing a small unaccounted fee into the oldest
    /// live lot.
    ///
    /// Returns whether an adjustment was made.  When the shortfall is not
    /// smaller than the oldest lot, or the on-chain balance is not lower,
    /// the ledger is left as it was; repeated small fees on a nearly-empty
    /// account can therefore stay unreconciled indefinitely.
    pub fn adjust_balance(&mut self, address: u64, token: Token, network_balance: u64) -> (r:
        Result<bool, LedgerError>)
        requires
            db_wf(old(self)@),
        ensures
            db_wf(final(self)@),
            match r {
                Ok(adjusted) => adjust_ok(
                    old(self)@,
                    address,
                    token,
                    network_balance,
                    adjusted,
                    final(self)@,
                ),
                Err(e) => e == LedgerError::UnknownAccount && final(self)@ == old(self)@,
            },
            (r is Err) <==> !has_account(old(self)@, address, token),
    {
        let ghost pre = self@;
        let i = match self.find_account(address, token) {
            None => {
                return Err(LedgerError::UnknownAccount);
            },
            Some(i) => i,
        };
        proof {
            assert(pre.accounts[i as int] == self.accounts@[i as int]@);
            assert(account_wf(pre.accounts[i as int], pre.next_lot_number as int));
        }
        let ghost a = pre.accounts[i as int];
        let balance = self.accounts[i].last_update_balance;
        let nlots = self.accounts[i].lots.len();
        if network_balance >= balance || nlots == 0 {
            proof {
                assert(adjust_ok(pre, address, token, network_balance, false, pre));
            }
            return Ok(false);
        }
        let shortfall = balance - network_balance;
        let lots = &self.accounts[i].lots;
        let mut oi: usize = 0;
        let mut k: usize = 1;
        while k < nlots
            invariant
                0 <= oi < k <= nlots,
                nlots == lots@.len(),
                lots@ == a.lots,
                all_valid_dates(lots@),
                forall|m: int| 0 <= m < k ==> fifo_le(lots@[oi as int], #[trigger] lots@[m]),
            decreases nlots - k,
        {
            proof {
                crate::select::lemma_policy_le_props(LotSelectionMethod::FirstInFirstOut);
                assert(forall|x: Lot, y: Lot|
                    policy_le(LotSelectionMethod::FirstInFirstOut, x, y) == fifo_le(x, y));
            }
            if crate::select::fifo_le_exec(&lots[k], &lots[oi]) {
                oi = k;
            }
            k = k + 1;
        }
        proof {
            assert(is_oldest(a.lots, oi as int));
        }
        if shortfall < lots[oi].amount {
            let old_lot = lots[oi];
            let new_lot = Lot {
                lot_number: old_lot.lot_number,
                amount: old_lot.amount - shortfall,
                acquisition: old_lot.acquisition,
            };
            let mut new_lots = clone_lots(lots);
            new_lots.set(oi, new_lot);
            let acct = &self.accounts[i];
            let new_acct = TrackedAccount {
                address: acct.address,
                token: acct.token,
                lots: new_lots,
                last_update_balance: network_balance,
            };
            self.accounts.set(i, new_acct);
            proof {
                let post = self@;
                let av = AccountV {
                    lots: a.lots.update(
                        oi as int,
                        Lot {
                            amount: (a.lots[oi as int].amount - (a.balance - network_balance)) as u64,
                            ..a.lots[oi as int]
                        },
                    ),
                    balance: network_balance,
                    ..a
                };
                assert(post.accounts =~= pre.accounts.update(i as int, av));
                assert(adjust_ok(pre, address, token, network_balance, true, post)) by {
                    assert(post =~= (DbV { accounts: pre.accounts.update(i as int, av), ..pre }));
                }
                assert(db_wf(post)) by {
                    lemma_sum_update(a.lots, oi as int, av.lots[oi as int]);
                    crate::lot::lemma_sum_amounts_nonneg(a.lots);
                    assert(lots_wf(av.lots)) by {
                        assert(forall|m: int|
                            0 <= m < av.lots.len() && m != oi ==> av.lots[m] == a.lots[m]);
                    }
                    assert(forall|m: int|
                        0 <= m < pre.accounts.len() ==> account_wf(
                            #[trigger] pre.accounts[m],
                            pre.next_lot_number as int,
                        ));
                }
            }
            Ok(true)
        } else {
            proof {
                assert forall|o2: int| is_oldest(a.lots, o2) implies a.balance - network_balance
                    >= a.lots[o2].amount by {
                    assert(fifo_le(a.lots[o2], a.lots[oi as int]));
                    assert(fifo_le(a.lots[oi as int], a.lots[o2]));
                    assert(a.lots[o2].lot_number == a.lots[oi as int].lot_number);
                    if o2 != oi as int {
                        assert(a.lots[o2].lot_number != a.lots[oi as int].lot_number);
                    }
                }
                assert(adjust_ok(pre, address, token, network_balance, false, pre));
            }
            Ok(false)
        }
    }
}

/// When an account's live lots summed to its recorded balance, absorbing a
/// fee shortfall leaves them summing to the new recorded balance: the
/// on-chain figure the adjustment was reconciled against.
pub proof fn lemma_adjust_keeps_lots_consistent(
    pre: DbV,
    post: DbV,
    address: u64,
    token: Token,
    network_balance: u64,
    i: int,
)
    requires
        db_wf(pre),
        adjust_ok(pre, address, token, network_balance, true, post),
        0 <= i < pre.accounts.len(),
        account_key_is(pre.accounts[i], address, token),
        sum_amounts(pre.accounts[i].lots) == pre.accounts[i].balance,
    ensures
        0 <= i < post.accounts.len(),
        sum_amounts(post.accounts[i].lots) == post.accounts[i].balance,
        post.accounts[i].balance == network_balance,
{
    let i2 = choose|i2: int|
        0 <= i2 < pre.accounts.len() && account_key_is(
            #[trigger] pre.accounts[i2],
            address,
            token,
        ) && (exists|oi: int|
            {
                &&& is_oldest(pre.accounts[i2].lots, oi)
                &&& pre.accounts[i2].balance > network_balance
                &&& pre.accounts[i2].balance - network_balance < pre.accounts[i2].lots[oi].amount
                &&& post == (DbV {
                    accounts: pre.accounts.update(
                        i2,
                        AccountV {
                            lots: pre.accounts[i2].lots.update(
                                oi,
                                Lot {
                                    amount: (pre.accounts[i2].lots[oi].amount - (pre.accounts[
                                        i2
                                    ].balance - network_balance)) as u64,
                                    ..pre.accounts[i2].lots[oi]
                                },
                            ),
                            balance: network_balance,
                            ..pre.accounts[i2]
                        },
                    ),
                    ..pre
                })
            });
    assert(i2 == i) by {
        if i2 != i {
            if i < i2 {
                assert(!account_key_is(
                    pre.accounts[i2],
                    pre.accounts[i].address,
                    pre.accounts[i].token,
                ));
            } else {
                assert(!account_key_is(
                    pre.accounts[i],
                    pre.accounts[i2].address,
                    pre.accounts[i2].token,
                ));
            }
        }
    }
    let oi = choose|oi: int|
        {
            &&& is_oldest(pre.accounts[i].lots, oi)
            &&& pre.accounts[i].balance > network_balance
            &&& pre.accounts[i].balance - network_balance < pre.accounts[i].lots[oi].amount
            &&& post == (DbV {
                accounts: pre.accounts.update(
                    i,
                    AccountV {
                        lots: pre.accounts[i].lots.update(
                            oi,
                            Lot {
                                amount: (pre.accounts[i].lots[oi].amount - (pre.accounts[
                                    i
                                ].balance - network_balance)) as u64,
                                ..pre.accounts[i].lots[oi]
                            },
                        ),
                        balance: network_balance,
                        ..pre.accounts[i]
                    },
                ),
                ..pre
            })
        };
    lemma_sum_update(
        pre.accounts[i].lots,
        oi,
        Lot {
            amount: (pre.accounts[i].lots[oi].amount - (pre.accounts[i].balance
                - network_balance)) as u64,
            ..pre.accounts[i].lots[oi]
        },
    );
}

/// Lot numbers are unique across the whole ledger: no live lot shares a
/// number with a live lot of another account or with a disposed lot.
pub open spec fn numbers_globally_distinct(d: DbV) -> bool {
    &&& forall|i: int, k: int, m: int|
        0 <= i < d.accounts.len() && 0 <= k < d.accounts[i].lots.len() && 0 <= m
            < d.disposed.len() ==> (#[trigger] d.accounts[i].lots[k]).lot_number != (
        #[trigger] d.disposed[m]).lot.lot_number
    &&& forall|i: int, k: int, i2: int, k2: int|
        0 <= i < i2 < d.accounts.len() && 0 <= k < d.accounts[i].lots.len() && 0 <= k2
            < d.accounts[i2].lots.len() ==> (#[trigger] d.accounts[i].lots[k]).lot_number != (
        #[trigger] d.accounts[i2].lots[k2]).lot_number
}

/// Recording a transfer and then cancelling it leaves every account — live
/// lots and balances — exactly as it was before the recording, and creates
/// no disposal records.
#[verifier::rlimit(100)]
pub proof fn lemma_cancel_undoes_record(
    pre: DbV,
    mid: DbV,
    post: DbV,
    signature: u64,
    last_valid_block_height: u64,
    amount: Option<u64>,
    from_address: u64,
    from_token: Token,
    to_address: u64,
    to_token: Token,
    method: LotSelectionMethod,
    price: u64,
    lot_numbers: Option<Seq<u64>>,
)
    requires
        db_wf(pre),
        record_ok(
            pre,
            signature,
            last_valid_block_height,
            amount,
            from_address,
            from_token,
            to_address,
            to_token,
            method,
            price,
            lot_numbers,
            mid,
        ),
        cancel_ok(mid, signature, post),
    ensures
        post.accounts == pre.accounts,
        post.disposed == pre.disposed,
{
    broadcast use group_to_multiset_ensures;

    let (i, sel) = choose|i: int, sel: SelectionV|
        record_ok_at(
            pre,
            signature,
            last_valid_block_height,
            amount,
            from_address,
            from_token,
            to_address,
            to_token,
            method,
            price,
            lot_numbers,
            i,
            sel,
            mid,
        );
    let orig = pre.accounts[i].lots;
    assert(selection_common(orig, pre.next_lot_number, sel));
    let t_new = new_transfer(
        signature,
        last_valid_block_height,
        from_address,
        from_token,
        to_address,
        to_token,
        method,
        price,
        sel,
    );
    let (j2, i2, rl) = choose|j2: int, i2: int, rl: Seq<Lot>|
        cancel_ok_at(mid, signature, j2, i2, rl, post);
    // the cancelled transfer is the one the recording appended
    assert(j2 == pre.transfers.len()) by {
        if j2 < pre.transfers.len() {
            assert(mid.transfers[j2] == pre.transfers[j2]);
            assert(has_transfer(pre, signature));
        }
    }
    assert(mid.transfers[j2] == t_new);
    // and its source account is the one the recording debited
    assert(account_key_is(pre.accounts[i], from_address, from_token));
    assert(i2 == i) by {
        if i2 != i {
            assert(mid.accounts[i2] == pre.accounts[i2]);
            assert(account_key_is(pre.accounts[i2], from_address, from_token));
            if i < i2 {
                assert(!account_key_is(
                    pre.accounts[i2],
                    pre.accounts[i].address,
                    pre.accounts[i].token,
                ));
            } else {
                assert(!account_key_is(
                    pre.accounts[i],
                    pre.accounts[i2].address,
                    pre.accounts[i2].token,
                ));
            }
        }
    }
    assert(mid.accounts[i] == (AccountV { lots: sel.remaining, ..pre.accounts[i] }));
    // the reversal rebuilds exactly the lots the selection took apart
    assert(rl.to_multiset() == orig.to_multiset()) by {
        match t_new.split {
            None => {
                assert(rem_core(sel) == sel.remaining);
                assert(spec_restored(sel) == sel.consumed);
            },
            Some(si) => {
                let (ri, ci) = choose|ri: int, ci: int|
                    cancel_restores_at(sel.remaining, t_new, si, ri, ci, rl);
                assert(ri == sel.remaining.len() - 1) by {
                    if ri < sel.remaining.len() - 1 {
                        assert(sel.remaining[ri].lot_number < sel.remaining[sel.remaining.len()
                            - 1].lot_number);
                    }
                }
                assert(sel.remaining.remove(ri) =~= rem_core(sel));
                let merged = merged_lot(t_new.lots[ci], sel.remaining[ri].amount);
                assert(spec_restored(sel) =~= sel.consumed.update(ci, merged)) by {
                    assert forall|k: int| 0 <= k < sel.consumed.len() implies spec_restored(sel)[k]
                        == sel.consumed.update(ci, merged)[k] by {
                        if sel.consumed[k].lot_number == si.consumed_number {
                            if k != ci {
                                assert(sel.consumed[k].lot_number != sel.consumed[
                                    ci
                                ].lot_number);
                            }
                        } else {
                            assert(k != ci);
                        }
                    }
                }
            },
        }
    }
    assert(strictly_sorted(orig));
    lemma_strictly_sorted_unique(rl, orig);
    assert(post.accounts =~= pre.accounts) by {
        assert(post.accounts == mid.accounts.update(i, AccountV { lots: rl, ..mid.accounts[i] }));
        assert((AccountV { lots: rl, ..mid.accounts[i] }) =~= pre.accounts[i]);
    }
    assert(post.disposed == pre.disposed);
}

/// Confirming a recorded transfer whose destination is not tracked creates
/// disposal records that sum exactly to the transfer amount, under lot
/// numbers that collide with no surviving live lot and no earlier disposal.
#[verifier::rlimit(100)]
pub proof fn lemma_confirm_disposes_exactly(
    pre: DbV,
    mid: DbV,
    post: DbV,
    signature: u64,
    last_valid_block_height: u64,
    amount: Option<u64>,
    from_address: u64,
    from_token: Token,
    to_address: u64,
    to_token: Token,
    method: LotSelectionMethod,
    price: u64,
    lot_numbers: Option<Seq<u64>>,
    settled: Date,
)
    requires
        db_wf(pre),
        numbers_globally_distinct(pre),
        record_ok(
            pre,
            signature,
            last_valid_block_height,
            amount,
            from_address,
            from_token,
            to_address,
            to_token,
            method,
            price,
            lot_numbers,
            mid,
        ),
        confirm_ok(mid, signature, settled, post),
        !has_account(mid, to_address, to_token),
    ensures
        post.disposed.len() >= pre.disposed.len(),
        sum_disposed_amounts(post.disposed.skip(pre.disposed.len() as int))
            == mid.transfers.last().amount,
        lot_numbers is None ==> (amount matches Some(a) ==> sum_disposed_amounts(
            post.disposed.skip(pre.disposed.len() as int),
        ) == a),
        forall|u: int, i: int, k: int|
            pre.disposed.len() <= u < post.disposed.len() && 0 <= i < post.accounts.len() && 0 <= k
                < post.accounts[i].lots.len() ==> (#[trigger] post.disposed[u]).lot.lot_number
                != (#[trigger] post.accounts[i].lots[k]).lot_number,
        forall|u: int, m: int|
            pre.disposed.len() <= u < post.disposed.len() && 0 <= m < pre.disposed.len() ==> (
            #[trigger] post.disposed[u]).lot.lot_number != (
            #[trigger] pre.disposed[m]).lot.lot_number,
{
    broadcast use group_to_multiset_ensures;

    let (i, sel) = choose|i: int, sel: SelectionV|
        record_ok_at(
            pre,
            signature,
            last_valid_block_height,
            amount,
            from_address,
            from_token,
            to_address,
            to_token,
            method,
            price,
            lot_numbers,
            i,
            sel,
            mid,
        );
    let orig = pre.accounts[i].lots;
    assert(selection_common(orig, pre.next_lot_number, sel));
    let t_new = new_transfer(
        signature,
        last_valid_block_height,
        from_address,
        from_token,
        to_address,
        to_token,
        method,
        price,
        sel,
    );
    let j2 = choose|j2: int| confirm_ok_at(mid, signature, settled, j2, post);
    assert(j2 == pre.transfers.len()) by {
        if j2 < pre.transfers.len() {
            assert(mid.transfers[j2] == pre.transfers[j2]);
            assert(has_transfer(pre, signature));
            assert(!has_transfer(pre, signature));
        }
    }
    assert(mid.transfers[j2] == t_new);
    assert(mid.transfers.last() == t_new);
    let newd = disposed_of(t_new.lots, t_new.from_token, t_new.price, settled);
    assert(post.disposed == pre.disposed + newd);
    assert(post.disposed.skip(pre.disposed.len() as int) =~= newd);
    // the records sum to the recorded amount
    lemma_sum_disposed_of(t_new.lots, t_new.from_token, t_new.price, settled);
    assert(sum_disposed_amounts(newd) == sum_amounts(sel.consumed));
    // the consumed numbers come from the debited account's live lots
    let core = rem_core(sel);
    let restored = spec_restored(sel);
    lemma_multiset_commutative(core, restored);
    assert((core + restored).to_multiset() == orig.to_multiset());
    crate::lot::lemma_distinct_numbers_permutation(orig, core + restored);
    lemma_mset_contains(core + restored, orig);
    assert forall|u: int| 0 <= u < sel.consumed.len() implies (#[trigger] sel.consumed[
    u
    ]).lot_number == restored[u].lot_number && orig.contains(restored[u]) by {
        assert((core + restored)[core.len() + u] == restored[u]);
        assert((core + restored).contains(restored[u]));
    }
    assert(sel.consumed.len() == restored.len());
    // no collision with surviving live lots, nor with earlier disposals
    assert(post.accounts == mid.accounts);
    assert forall|u: int, i3: int, k: int|
        pre.disposed.len() <= u < post.disposed.len() && 0 <= i3 < post.accounts.len() && 0 <= k
            < post.accounts[i3].lots.len() implies (#[trigger] post.disposed[u]).lot.lot_number
        != (#[trigger] post.accounts[i3].lots[k]).lot_number by {
        let u2 = u - pre.disposed.len();
        assert(post.disposed[u] == newd[u2]);
        assert(newd[u2].lot == sel.consumed[u2]);
        let w = choose|w: int| 0 <= w < orig.len() && orig[w] == restored[u2];
        if i3 == i {
            // the account now holds the survivors: core plus the residual
            assert(mid.accounts[i3] == (AccountV { lots: sel.remaining, ..pre.accounts[i] }));
            if sel.split is Some && k == sel.remaining.len() - 1 {
                assert(sel.remaining[k].lot_number == pre.next_lot_number);
                assert(orig[w].lot_number < pre.next_lot_number);
            } else {
                assert(sel.remaining[k] == core[k]);
                assert((core + restored)[k] == core[k]);
                assert((core + restored)[core.len() + u2] == restored[u2]);
            }
        } else {
            assert(mid.accounts[i3] == pre.accounts[i3]);
            if i3 < i {
                assert(pre.accounts[i3].lots[k].lot_number != pre.accounts[i].lots[
                    w
                ].lot_number);
            } else {
                assert(pre.accounts[i].lots[w].lot_number != pre.accounts[i3].lots[
                    k
                ].lot_number);
            }
        }
    }
    assert forall|u: int, m: int|
        pre.disposed.len() <= u < post.disposed.len() && 0 <= m < pre.disposed.len() implies (
    #[trigger] post.disposed[u]).lot.lot_number != (#[trigger] pre.disposed[
    m
    ]).lot.lot_number by {
        let u2 = u - pre.disposed.len();
        assert(post.disposed[u] == newd[u2]);
        assert(newd[u2].lot == sel.consumed[u2]);
        let w = choose|w: int| 0 <= w < orig.len() && orig[w] == restored[u2];
        assert(pre.accounts[i].lots[w].lot_number != pre.disposed[m].lot.lot_number);
    }
    // a positive requested amount leaves at least one record
    assert(post.disposed.len() == pre.disposed.len() + sel.consumed.len());
    if sel.consumed.len() == 0 {
        assert(sum_amounts(sel.consumed) == 0);
    }
}

/// After a successful recording, the cancellation is owed success: no
/// failure condition of `cancel_transfer` holds on the recorded ledger, so
/// an expired submission window is always rolled back exactly.
#[verifier::rlimit(100)]
pub proof fn lemma_record_leaves_cancel_possible(
    pre: DbV,
    mid: DbV,
    signature: u64,
    last_valid_block_height: u64,
    amount: Option<u64>,
    from_address: u64,
    from_token: Token,
    to_address: u64,
    to_token: Token,
    method: LotSelectionMethod,
    price: u64,
    lot_numbers: Option<Seq<u64>>,
)
    requires
        db_wf(pre),
        record_ok(
            pre,
            signature,
            last_valid_block_height,
            amount,
            from_address,
            from_token,
            to_address,
            to_token,
            method,
            price,
            lot_numbers,
            mid,
        ),
    ensures
        forall|e: LedgerError| !cancel_err(mid, signature, e),
{
    broadcast use group_to_multiset_ensures;

    let (i, sel) = choose|i: int, sel: SelectionV|
        record_ok_at(
            pre,
            signature,
            last_valid_block_height,
            amount,
            from_address,
            from_token,
            to_address,
            to_token,
            method,
            price,
            lot_numbers,
            i,
            sel,
            mid,
        );
    let orig = pre.accounts[i].lots;
    assert(selection_common(orig, pre.next_lot_number, sel));
    assert(account_wf(pre.accounts[i], pre.next_lot_number as int));
    let t_new = new_transfer(
        signature,
        last_valid_block_height,
        from_address,
        from_token,
        to_address,
        to_token,
        method,
        price,
        sel,
    );
    let last = mid.transfers.len() - 1;
    assert(mid.transfers[last] == t_new);
    assert(has_transfer(mid, signature)) by {
        assert(mid.transfers[last].signature == signature);
    }
    assert forall|j: int|
        0 <= j < mid.transfers.len() && (#[trigger] mid.transfers[j]).signature
            == signature implies j == last by {
        if j < pre.transfers.len() {
            assert(mid.transfers[j] == pre.transfers[j]);
            assert(has_transfer(pre, signature));
        }
    }
    assert(account_key_is(mid.accounts[i], from_address, from_token));
    assert(has_account(mid, from_address, from_token));
    assert(cancel_fits(mid.accounts[i].lots, t_new)) by {
        crate::select::lemma_selection_sums(orig, pre.next_lot_number, sel);
        let core = rem_core(sel);
        let restored = spec_restored(sel);
        lemma_multiset_commutative(core, restored);
        assert((core + restored).to_multiset() == orig.to_multiset());
        crate::lot::lemma_distinct_numbers_permutation(orig, core + restored);
        lemma_mset_contains(core + restored, orig);
        assert forall|u: int| 0 <= u < sel.consumed.len() implies (#[trigger] sel.consumed[
        u
        ]).lot_number == restored[u].lot_number && restored[u].lot_number
            < pre.next_lot_number by {
            assert((core + restored)[core.len() + u] == restored[u]);
            assert((core + restored).contains(restored[u]));
            assert(orig.contains(restored[u]));
            let w = choose|w: int| 0 <= w < orig.len() && orig[w] == restored[u];
            assert(orig[w].lot_number < pre.next_lot_number);
        }
        match sel.split {
            None => {
                assert forall|k: int| 0 <= k < t_new.lots.len() implies !contains_number(
                    mid.accounts[i].lots,
                    (#[trigger] t_new.lots[k]).lot_number,
                ) by {
                    if contains_number(sel.remaining, sel.consumed[k].lot_number) {
                        let p = choose|p: int|
                            0 <= p < sel.remaining.len() && sel.remaining[p].lot_number
                                == sel.consumed[k].lot_number;
                        assert((core + restored)[p] == core[p]);
                        assert((core + restored)[p].lot_number != (core + restored)[core.len()
                            + k].lot_number);
                        assert(false);
                    }
                }
            },
            Some(si) => {
                assert(contains_number(sel.remaining, si.residual_number)) by {
                    assert(sel.remaining[sel.remaining.len() - 1].lot_number
                        == si.residual_number);
                }
                assert forall|k: int|
                    0 <= k < t_new.lots.len() implies (!contains_number(
                    mid.accounts[i].lots,
                    (#[trigger] t_new.lots[k]).lot_number,
                ) || t_new.lots[k].lot_number == si.residual_number) by {
                    if contains_number(sel.remaining, sel.consumed[k].lot_number)
                        && sel.consumed[k].lot_number != si.residual_number {
                        let p = choose|p: int|
                            0 <= p < sel.remaining.len() && sel.remaining[p].lot_number
                                == sel.consumed[k].lot_number;
                        assert(p != sel.remaining.len() - 1) by {
                            assert(sel.remaining[sel.remaining.len() - 1].lot_number
                                == si.residual_number);
                        }
                        assert(sel.remaining[p] == core[p]);
                        assert((core + restored)[p] == core[p]);
                        assert((core + restored)[p].lot_number != (core + restored)[core.len()
                            + k].lot_number);
                        assert(false);
                    }
                }
            },
        }
    }
    assert forall|e: LedgerError| !cancel_err(mid, signature, e) by {
        if cancel_err(mid, signature, e) {
            if exists|j: int|
                0 <= j < mid.transfers.len() && (#[trigger] mid.transfers[j]).signature
                    == signature && !(mid.transfers[j].status is Pending) {
                let j = choose|j: int|
                    0 <= j < mid.transfers.len() && (#[trigger] mid.transfers[j]).signature
                        == signature && !(mid.transfers[j].status is Pending);
                assert(j == last);
                assert(false);
            }
            if exists|j: int|
                0 <= j < mid.transfers.len() && (#[trigger] mid.transfers[j]).signature
                    == signature && mid.transfers[j].status is Pending && !has_account(
                    mid,
                    mid.transfers[j].from_address,
                    mid.transfers[j].from_token,
                ) {
                let j = choose|j: int|
                    0 <= j < mid.transfers.len() && (#[trigger] mid.transfers[j]).signature
                        == signature && mid.transfers[j].status is Pending && !has_account(
                        mid,
                        mid.transfers[j].from_address,
                        mid.transfers[j].from_token,
                    );
                assert(j == last);
                assert(false);
            }
            if exists|j2: int, i2: int| cancel_blocked_at(mid, signature, j2, i2) {
                let (j2, i2) = choose|j2: int, i2: int| cancel_blocked_at(mid, signature, j2, i2);
                assert(j2 == last);
                assert(i2 == i) by {
                    if i2 != i {
                        assert(mid.accounts[i2] == pre.accounts[i2]);
                        assert(account_key_is(pre.accounts[i2], from_address, from_token));
                        if i < i2 {
                            assert(!account_key_is(
                                pre.accounts[i2],
                                pre.accounts[i].address,
                                pre.accounts[i].token,
                            ));
                        } else {
                            assert(!account_key_is(
                                pre.accounts[i],
                                pre.accounts[i2].address,
                                pre.accounts[i2].token,
                            ));
                        }
                    }
                }
                assert(false);
            }
            assert(false);
        }
    }
}

/// After a successful recording, confirmation is owed success too, as long
/// as lot numbers were globally distinct and a tracked destination has
/// room for the amount: no failure condition of `confirm_transfer` holds
/// on the recorded ledger.
#[verifier::rlimit(100)]
pub proof fn lemma_record_leaves_confirm_possible(
    pre: DbV,
    mid: DbV,
    signature: u64,
    last_valid_block_height: u64,
    amount: Option<u64>,
    from_address: u64,
    from_token: Token,
    to_address: u64,
    to_token: Token,
    method: LotSelectionMethod,
    price: u64,
    lot_numbers: Option<Seq<u64>>,
)
    requires
        db_wf(pre),
        numbers_globally_distinct(pre),
        record_ok(
            pre,
            signature,
            last_valid_block_height,
            amount,
            from_address,
            from_token,
            to_address,
            to_token,
            method,
            price,
            lot_numbers,
            mid,
        ),
        forall|k: int|
            0 <= k < pre.accounts.len() && account_key_is(
                #[trigger] pre.accounts[k],
                to_address,
                to_token,
            ) ==> sum_amounts(pre.accounts[k].lots) + mid.transfers.last().amount <= u64::MAX,
    ensures
        forall|e: LedgerError| !confirm_err(mid, signature, e),
{
    broadcast use group_to_multiset_ensures;

    let (i, sel) = choose|i: int, sel: SelectionV|
        record_ok_at(
            pre,
            signature,
            last_valid_block_height,
            amount,
            from_address,
            from_token,
            to_address,
            to_token,
            method,
            price,
            lot_numbers,
            i,
            sel,
            mid,
        );
    let orig = pre.accounts[i].lots;
    assert(selection_common(orig, pre.next_lot_number, sel));
    assert(account_wf(pre.accounts[i], pre.next_lot_number as int));
    let t_new = new_transfer(
        signature,
        last_valid_block_height,
        from_address,
        from_token,
        to_address,
        to_token,
        method,
        price,
        sel,
    );
    let last = mid.transfers.len() - 1;
    assert(mid.transfers[last] == t_new);
    assert(mid.transfers.last() == t_new);
    assert(has_transfer(mid, signature)) by {
        assert(mid.transfers[last].signature == signature);
    }
    assert forall|j: int|
        0 <= j < mid.transfers.len() && (#[trigger] mid.transfers[j]).signature
            == signature implies j == last by {
        if j < pre.transfers.len() {
            assert(mid.transfers[j] == pre.transfers[j]);
            assert(has_transfer(pre, signature));
        }
    }
    // where the debited numbers came from
    let core = rem_core(sel);
    let restored = spec_restored(sel);
    lemma_multiset_commutative(core, restored);
    assert((core + restored).to_multiset() == orig.to_multiset());
    crate::lot::lemma_distinct_numbers_permutation(orig, core + restored);
    lemma_mset_contains(core + restored, orig);
    assert forall|u: int| 0 <= u < sel.consumed.len() implies (#[trigger] sel.consumed[
    u
    ]).lot_number == restored[u].lot_number && orig.contains(restored[u]) && restored[
    u
    ].lot_number < pre.next_lot_number by {
        assert((core + restored)[core.len() + u] == restored[u]);
        assert((core + restored).contains(restored[u]));
        let w = choose|w: int| 0 <= w < orig.len() && orig[w] == restored[u];
        assert(orig[w].lot_number < pre.next_lot_number);
    }
    assert forall|e: LedgerError| !confirm_err(mid, signature, e) by {
        if confirm_err(mid, signature, e) {
            if exists|j: int|
                0 <= j < mid.transfers.len() && (#[trigger] mid.transfers[j]).signature
                    == signature && !(mid.transfers[j].status is Pending) {
                let j = choose|j: int|
                    0 <= j < mid.transfers.len() && (#[trigger] mid.transfers[j]).signature
                        == signature && !(mid.transfers[j].status is Pending);
                assert(j == last);
                assert(false);
            }
            if exists|j2: int, k2: int| confirm_blocked_at(mid, signature, j2, k2) {
                let (j2, k2) = choose|j2: int, k2: int|
                    confirm_blocked_at(mid, signature, j2, k2);
                assert(j2 == last);
                assert(move_fits(mid.accounts[k2].lots, t_new)) by {
                    if k2 == i {
                        // the destination is the debited account itself
                        crate::select::lemma_selection_sums(orig, pre.next_lot_number, sel);
                        assert forall|u: int| 0 <= u < t_new.lots.len() implies !contains_number(
                            mid.accounts[k2].lots,
                            (#[trigger] t_new.lots[u]).lot_number,
                        ) by {
                            if contains_number(sel.remaining, sel.consumed[u].lot_number) {
                                let p = choose|p: int|
                                    0 <= p < sel.remaining.len() && sel.remaining[p].lot_number
                                        == sel.consumed[u].lot_number;
                                match sel.split {
                                    None => {
                                        assert((core + restored)[p] == core[p]);
                                        assert((core + restored)[p].lot_number != (core
                                            + restored)[core.len() + u].lot_number);
                                        assert(false);
                                    },
                                    Some(si) => {
                                        if p == sel.remaining.len() - 1 {
                                            assert(sel.remaining[p].lot_number
                                                == pre.next_lot_number);
                                            assert(sel.consumed[u].lot_number
                                                < pre.next_lot_number);
                                            assert(false);
                                        } else {
                                            assert(sel.remaining[p] == core[p]);
                                            assert((core + restored)[p] == core[p]);
                                            assert((core + restored)[p].lot_number != (core
                                                + restored)[core.len() + u].lot_number);
                                            assert(false);
                                        }
                                    },
                                }
                            }
                        }
                    } else {
                        // a different tracked account: its numbers were
                        // globally distinct from the debited account's
                        assert(mid.accounts[k2] == pre.accounts[k2]);
                        assert(account_key_is(pre.accounts[k2], to_address, to_token));
                        assert(sum_amounts(pre.accounts[k2].lots) + t_new.amount <= u64::MAX);
                        assert forall|u: int| 0 <= u < t_new.lots.len() implies !contains_number(
                            mid.accounts[k2].lots,
                            (#[trigger] t_new.lots[u]).lot_number,
                        ) by {
                            if contains_number(pre.accounts[k2].lots, sel.consumed[
                                u
                            ].lot_number) {
                                let x = choose|x: int|
                                    0 <= x < pre.accounts[k2].lots.len() && pre.accounts[
                                        k2
                                    ].lots[x].lot_number == sel.consumed[u].lot_number;
                                let w = choose|w: int|
                                    0 <= w < orig.len() && orig[w] == restored[u];
                                if i < k2 {
                                    assert(pre.accounts[i].lots[w].lot_number != pre.accounts[
                                        k2
                                    ].lots[x].lot_number);
                                } else {
                                    assert(pre.accounts[k2].lots[x].lot_number != pre.accounts[
                                        i
                                    ].lots[w].lot_number);
                                }
                                assert(false);
                            }
                        }
                    }
                }
                assert(false);
            }
            assert(false);
        }
    }
}

/// A recorded withdrawal whose submission window expires is always rolled
/// back: the only error the expiry path can report is the expiry itself,
/// and the cancellation returns every account to its pre-recording state.
pub proof fn lemma_expired_withdrawal_restores(
    pre: DbV,
    mid: DbV,
    post: DbV,
    signature: u64,
    last_valid_block_height: u64,
    amount: Option<u64>,
    from_address: u64,
    from_token: Token,
    to_address: u64,
    to_token: Token,
    method: LotSelectionMethod,
    price: u64,
    lot_numbers: Option<Seq<u64>>,
    e: LedgerError,
)
    requires
        db_wf(pre),
        record_ok(
            pre,
            signature,
            last_valid_block_height,
            amount,
            from_address,
            from_token,
            to_address,
            to_token,
            method,
            price,
            lot_numbers,
            mid,
        ),
        e == LedgerError::BlockhashExpired ==> cancel_ok(mid, signature, post),
        e != LedgerError::BlockhashExpired ==> cancel_err(mid, signature, e),
    ensures
        e == LedgerError::BlockhashExpired,
        post.accounts == pre.accounts,
        post.disposed == pre.disposed,
{
    lemma_record_leaves_cancel_possible(
        pre,
        mid,
        signature,
        last_valid_block_height,
        amount,
        from_address,
        from_token,
        to_address,
        to_token,
        method,
        price,
        lot_numbers,
    );
    assert(e == LedgerError::BlockhashExpired);
    lemma_cancel_undoes_record(
        pre,
        mid,
        post,
        signature,
        last_valid_block_height,
        amount,
        from_address,
        from_token,
        to_address,
        to_token,
        method,
        price,
        lot_numbers,
    );
}

/// A full withdrawal leaves its source account tracked and empty once the
/// transfer is confirmed, whenever the destination is a different account:
/// the emptiness check after confirmation never fires, so a landed full
/// withdrawal completes with the account removed.
#[verifier::rlimit(100)]
pub proof fn lemma_full_withdrawal_empties_source(
    pre: DbV,
    mid: DbV,
    post: DbV,
    signature: u64,
    last_valid_block_height: u64,
    from_address: u64,
    from_token: Token,
    to_address: u64,
    to_token: Token,
    method: LotSelectionMethod,
    price: u64,
    lot_numbers: Option<Seq<u64>>,
    settled: Date,
)
    requires
        db_wf(pre),
        record_ok(
            pre,
            signature,
            last_valid_block_height,
            None,
            from_address,
            from_token,
            to_address,
            to_token,
            method,
            price,
            lot_numbers,
            mid,
        ),
        lot_numbers is None,
        !(to_address == from_address && to_token == from_token),
        confirm_ok(mid, signature, settled, post),
    ensures
        exists|i: int|
            0 <= i < post.accounts.len() && account_key_is(
                #[trigger] post.accounts[i],
                from_address,
                from_token,
            ) && post.accounts[i].lots.len() == 0,
{
    let (i, sel) = choose|i: int, sel: SelectionV|
        record_ok_at(
            pre,
            signature,
            last_valid_block_height,
            None,
            from_address,
            from_token,
            to_address,
            to_token,
            method,
            price,
            lot_numbers,
            i,
            sel,
            mid,
        );
    assert(selection_all_ok(pre.accounts[i].lots, pre.next_lot_number, sel));
    assert(mid.accounts[i].lots.len() == 0);
    assert(account_key_is(mid.accounts[i], from_address, from_token));
    let t_new = new_transfer(
        signature,
        last_valid_block_height,
        from_address,
        from_token,
        to_address,
        to_token,
        method,
        price,
        sel,
    );
    let last = mid.transfers.len() - 1;
    assert(mid.transfers[last] == t_new);
    let j = choose|j: int| confirm_ok_at(mid, signature, settled, j, post);
    assert(j == last) by {
        if j < pre.transfers.len() {
            assert(mid.transfers[j] == pre.transfers[j]);
            assert(has_transfer(pre, signature));
        }
    }
    if has_account(mid, t_new.to_address, t_new.to_token) {
        let (k2, ml) = choose|k2: int, ml: Seq<Lot>| confirm_move_at(mid, settled, j, k2, ml, post);
        assert(k2 != i) by {
            assert(account_key_is(mid.accounts[k2], to_address, to_token));
        }
        assert(post.accounts[i] == mid.accounts[i]);
        assert(account_key_is(post.accounts[i], from_address, from_token)
            && post.accounts[i].lots.len() == 0);
    } else {
        assert(post.accounts == mid.accounts);
        assert(account_key_is(post.accounts[i], from_address, from_token)
            && post.accounts[i].lots.len() == 0);
    }
}

/// A disposal record carries its lot's amount: the records of a consumed
/// set sum to what the set sums to.
proof fn lemma_sum_disposed_of(lots: Seq<Lot>, token: Token, price: u64, settled: Date)
    ensures
        sum_disposed_amounts(disposed_of(lots, token, price, settled)) == sum_amounts(lots),
    decreases lots.len(),
{
    if lots.len() > 0 {
        lemma_sum_disposed_of(lots.drop_last(), token, price, settled);
        assert(disposed_of(lots, token, price, settled).drop_last() =~= disposed_of(
            lots.drop_last(),
            token,
            price,
            settled,
        ));
        assert(disposed_of(lots, token, price, settled).last().lot == lots.last());
    }
}

/// Position of the lot carrying the number, if one is present.
fn find_lot_position(v: &Vec<Lot>, n: u64) -> (r: Option<usize>)
    ensures
        match r {
            Some(p) => 0 <= p < v@.len() && v@[p as int].lot_number == n,
            None => !contains_number(v@, n),
        },
{
    let mut i: usize = 0;
    while i < v.len()
        invariant
            0 <= i <= v@.len(),
            forall|k: int| 0 <= k < i ==> (#[trigger] v@[k]).lot_number != n,
        decreases v@.len() - i,
    {
        if v[i].lot_number == n {
            return Some(i);
        }
        i = i + 1;
    }
    None
}

fn token_eq(a: Token, b: Token) -> (r: bool)
    ensures
        r == (a == b),
{
    match (a, b) {
        (Token::Native, Token::Native) => true,
        (Token::Mint(x), Token::Mint(y)) => x == y,
        _ => false,
    }
}

fn rates_some(rates: TaxRates) -> (r: Option<TaxRates>)
    ensures
        r == Some(rates),
{
    Some(rates)
}

} // verus!
