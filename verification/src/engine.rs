//! The transaction lifecycle engine.
//!
//! A logical operation becomes a network transaction through the states
//! Built, Simulated, Signed, Submitted, and ends Confirmed or Expired.  A
//! simulation failure aborts before any ledger mutation — the sole
//! rollback-free exit.  A recorded transfer is confirmed when the network
//! reports the transaction landed, and cancelled when the blockhash's
//! validity ceiling passes without a confirmation; the engine never retries
//! past that ceiling.  The network calls themselves happen outside: the
//! engine takes their outcomes as plain values and decides what the ledger
//! does with them.

use vstd::prelude::*;
use crate::date::Date;
use crate::ledger::{
    Db, DbV, account_key_is, cancel_err, cancel_ok, confirm_err, confirm_ok, db_wf, drop_err,
    drop_ok, has_account, record_err, record_ok, view_numbers,
};
use crate::lot::Token;
use crate::select::LotSelectionMethod;
use crate::LedgerError;

verus! {

/// Where one operation stands between building and settlement.
#[derive(Clone, Copy, PartialEq, Eq, Structural, Debug)]
pub enum TxLifecycle {
    Built,
    Simulated,
    Signed,
    Submitted,
    Confirmed,
    Expired,
}

/// What the signer or the network reported back for the next step.
#[derive(Clone, Copy, PartialEq, Eq, Structural, Debug)]
pub enum TxEvent {
    SimulationOk,
    SimulationFailed,
    SignatureReady,
    SubmissionStarted,
    SubmissionLanded,
    WindowExpired,
}

/// The lifecycle transition table.
///
/// A failed simulation rejects the operation before anything was signed or
/// recorded.  The submission window closes only through `WindowExpired`,
/// never by a retry counter, and `Confirmed` and `Expired` are terminal.
/// Any other pairing is a misuse of the machine.
pub open spec fn spec_lifecycle_next(s: TxLifecycle, e: TxEvent) -> Result<
    TxLifecycle,
    LedgerError,
> {
    match (s, e) {
        (TxLifecycle::Built, TxEvent::SimulationOk) => Ok(TxLifecycle::Simulated),
        (TxLifecycle::Built, TxEvent::SimulationFailed) => Err(LedgerError::SimulationRejected),
        (TxLifecycle::Simulated, TxEvent::SignatureReady) => Ok(TxLifecycle::Signed),
        (TxLifecycle::Signed, TxEvent::SubmissionStarted) => Ok(TxLifecycle::Submitted),
        (TxLifecycle::Submitted, TxEvent::SubmissionLanded) => Ok(TxLifecycle::Confirmed),
        (TxLifecycle::Submitted, TxEvent::WindowExpired) => Err(LedgerError::BlockhashExpired),
        _ => Err(LedgerError::LedgerInvariantViolation),
    }
}

/// Advances the lifecycle by one reported event.
pub fn lifecycle_next(s: TxLifecycle, e: TxEvent) -> (r: Result<TxLifecycle, LedgerError>)
    ensures
        r == spec_lifecycle_next(s, e),
{
    match (s, e) {
        (TxLifecycle::Built, TxEvent::SimulationOk) => Ok(TxLifecycle::Simulated),
        (TxLifecycle::Built, TxEvent::SimulationFailed) => Err(LedgerError::SimulationRejected),
        (TxLifecycle::Simulated, TxEvent::SignatureReady) => Ok(TxLifecycle::Signed),
        (TxLifecycle::Signed, TxEvent::SubmissionStarted) => Ok(TxLifecycle::Submitted),
        (TxLifecycle::Submitted, TxEvent::SubmissionLanded) => Ok(TxLifecycle::Confirmed),
        (TxLifecycle::Submitted, TxEvent::WindowExpired) => Err(LedgerError::BlockhashExpired),
        _ => Err(LedgerError::LedgerInvariantViolation),
    }
}

/// Which path a withdrawal takes: native stake withdrawal runs through the
/// full record / submit / confirm discipline, a token balance goes out
/// through the token-transfer collaborator and a direct drop.
#[derive(Clone, Copy, PartialEq, Eq, Structural, Debug)]
pub enum WithdrawRoute {
    StakeWithdrawal,
    TokenTransfer,
}

pub fn withdraw_route(token: Token) -> (r: WithdrawRoute)
    ensures
        r == (if token is Native {
            WithdrawRoute::StakeWithdrawal
        } else {
            WithdrawRoute::TokenTransfer
        }),
{
    if token.is_native() {
        WithdrawRoute::StakeWithdrawal
    } else {
        WithdrawRoute::TokenTransfer
    }
}

/// Couples a token withdrawal's ledger debit to the outcome the
/// token-transfer collaborator reported: the lots leave the ledger if and
/// only if the external transfer succeeded.
///
/// No simulation or signature tracking exists on this path, so there is no
/// pending phase: a reported failure changes nothing and surfaces as a
/// network failure, and a reported success debits immediately.
pub fn settle_token_withdrawal(
    db: &mut Db,
    address: u64,
    token: Token,
    amount: Option<u64>,
    price: u64,
    settled: Date,
    lot_numbers: Option<&Vec<u64>>,
    transfer_succeeded: bool,
) -> (r: Result<(), LedgerError>)
    requires
        db_wf(old(db)@),
        old(db)@.next_lot_number < u64::MAX,
        settled.is_valid(),
    ensures
        db_wf(final(db)@),
        !transfer_succeeded ==> r == Err::<(), LedgerError>(LedgerError::NetworkUnavailable)
            && final(db)@ == old(db)@,
        transfer_succeeded ==> (match r {
            Ok(()) => drop_ok(
                old(db)@,
                address,
                token,
                amount,
                price,
                settled,
                LotSelectionMethod::LastInFirstOut,
                view_numbers(lot_numbers),
                final(db)@,
            ),
            Err(e) => final(db)@ == old(db)@ && drop_err(
                old(db)@,
                address,
                token,
                amount,
                view_numbers(lot_numbers),
                e,
            ),
        }),
{
    if !transfer_succeeded {
        return Err(LedgerError::NetworkUnavailable);
    }
    db.record_drop(
        address,
        token,
        amount,
        price,
        settled,
        LotSelectionMethod::LastInFirstOut,
        lot_numbers,
    )
}

/// A checked native withdrawal: both accounts tracked, the amount fixed.
#[derive(Clone, Copy, PartialEq, Eq, Structural, Debug)]
pub struct WithdrawPlan {
    pub from_address: u64,
    pub to_address: u64,
    /// Requested as "everything", not as a transiently computed balance.
    pub withdraw_all: bool,
    pub amount: u64,
}

/// Validates a native withdrawal: the source and the destination must both
/// be tracked, and a missing amount means the full recorded balance.
pub fn plan_withdraw(db: &Db, from_address: u64, to_address: u64, amount: Option<u64>) -> (r:
    Result<WithdrawPlan, LedgerError>)
    requires
        db_wf(db@),
    ensures
        match r {
            Ok(p) => {
                &&& has_account(db@, from_address, Token::Native)
                &&& has_account(db@, to_address, Token::Native)
                &&& p.from_address == from_address
                &&& p.to_address == to_address
                &&& p.withdraw_all == (amount is None)
                &&& exists|i: int|
                    0 <= i < db@.accounts.len() && account_key_is(
                        #[trigger] db@.accounts[i],
                        from_address,
                        Token::Native,
                    ) && p.amount == (match amount {
                        None => db@.accounts[i].balance,
                        Some(a) => a,
                    })
            },
            Err(e) => e == LedgerError::UnknownAccount,
        },
        (r is Err) <==> !(has_account(db@, from_address, Token::Native) && has_account(
            db@,
            to_address,
            Token::Native,
        )),
{
    let source = match db.get_account(from_address, Token::Native) {
        None => {
            return Err(LedgerError::UnknownAccount);
        },
        Some(a) => a,
    };
    let balance = source.last_update_balance;
    if db.get_account(to_address, Token::Native).is_none() {
        return Err(LedgerError::UnknownAccount);
    }
    match amount {
        None => Ok(
            WithdrawPlan { from_address, to_address, withdraw_all: true, amount: balance },
        ),
        Some(a) => Ok(WithdrawPlan { from_address, to_address, withdraw_all: false, amount: a }),
    }
}

/// Records the pending withdrawal before submission, so a crash between
/// submission and confirmation leaves a recoverable trail.
///
/// "Withdraw all" selects every live lot; a fixed amount is covered by the
/// policy or the explicit lot numbers.
pub fn record_withdraw(
    db: &mut Db,
    plan: WithdrawPlan,
    signature: u64,
    last_valid_block_height: u64,
    price: u64,
    method: LotSelectionMethod,
    lot_numbers: Option<&Vec<u64>>,
) -> (r: Result<(), LedgerError>)
    requires
        db_wf(old(db)@),
        old(db)@.next_lot_number < u64::MAX,
    ensures
        db_wf(final(db)@),
        match r {
            Ok(()) => record_ok(
                old(db)@,
                signature,
                last_valid_block_height,
                if plan.withdraw_all {
                    None
                } else {
                    Some(plan.amount)
                },
                plan.from_address,
                Token::Native,
                plan.to_address,
                Token::Native,
                method,
                price,
                view_numbers(lot_numbers),
                final(db)@,
            ),
            Err(e) => final(db)@ == old(db)@ && record_err(
                old(db)@,
                signature,
                if plan.withdraw_all {
                    None
                } else {
                    Some(plan.amount)
                },
                plan.from_address,
                Token::Native,
                view_numbers(lot_numbers),
                e,
            ),
        },
{
    let amount: Option<u64> = if plan.withdraw_all {
        None
    } else {
        Some(plan.amount)
    };
    db.record_transfer(
        signature,
        last_valid_block_height,
        amount,
        plan.from_address,
        Token::Native,
        plan.to_address,
        Token::Native,
        price,
        method,
        lot_numbers,
    )
}

/// Settles a submitted withdrawal against what the network reported.
///
/// An expired window cancels the pending transfer — the ledger returns to
/// its pre-recording state — and surfaces the expiry.  A landed
/// transaction is confirmed under its settlement date; a full withdrawal
/// must then have emptied the source account, which is removed.  A full
/// withdrawal that left lots behind is a selection or accounting bug and
/// surfaces as a fatal invariant violation, never silently absorbed.
pub fn finish_withdraw(
    db: &mut Db,
    plan: WithdrawPlan,
    signature: u64,
    landed: bool,
    settled: Option<Date>,
) -> (r: Result<(), LedgerError>)
    requires
        db_wf(old(db)@),
        landed ==> (settled matches Some(d) && d.is_valid()),
    ensures
        db_wf(final(db)@),
        !landed ==> (match r {
            Ok(_) => false,
            Err(e) => if e == LedgerError::BlockhashExpired {
                cancel_ok(old(db)@, signature, final(db)@)
            } else {
                final(db)@ == old(db)@ && cancel_err(old(db)@, signature, e)
            },
        }),
        landed ==> (match r {
            Ok(_) => true,
            Err(e) => (final(db)@ == old(db)@ && confirm_err(old(db)@, signature, e)) || (e
                == LedgerError::LedgerInvariantViolation && plan.withdraw_all && confirm_ok(
                old(db)@,
                signature,
                settled.unwrap(),
                final(db)@,
            ) && !(exists|i: int|
                0 <= i < final(db)@.accounts.len() && account_key_is(
                    #[trigger] final(db)@.accounts[i],
                    plan.from_address,
                    Token::Native,
                ) && final(db)@.accounts[i].lots.len() == 0)),
        }),
        landed && r is Ok ==> exists|mid: DbV|
            {
                &&& #[trigger] confirm_ok(old(db)@, signature, settled.unwrap(), mid)
                &&& if plan.withdraw_all {
                    exists|i: int|
                        {
                            &&& 0 <= i < mid.accounts.len()
                            &&& account_key_is(
                                #[trigger] mid.accounts[i],
                                plan.from_address,
                                Token::Native,
                            )
                            &&& mid.accounts[i].lots.len() == 0
                            &&& final(db)@ == (DbV { accounts: mid.accounts.remove(i), ..mid })
                        }
                } else {
                    final(db)@ == mid
                }
            },
{
    if !landed {
        match db.cancel_transfer(signature) {
            Ok(()) => Err(LedgerError::BlockhashExpired),
            Err(e) => Err(e),
        }
    } else {
        let when = match settled {
            Some(d) => d,
            None => {
                proof {
                    assert(false);
                }
                return Err(LedgerError::LedgerInvariantViolation);
            },
        };
        let ghost pre = db@;
        match db.confirm_transfer(signature, when) {
            Err(e) => {
                return Err(e);
            },
            Ok(()) => {},
        }
        let ghost mid = db@;
        if plan.withdraw_all {
            match db.get_account(plan.from_address, Token::Native) {
                None => {
                    proof {
                        assert(confirm_ok(pre, signature, when, db@));
                        assert(!(exists|i: int|
                            0 <= i < db@.accounts.len() && account_key_is(
                                #[trigger] db@.accounts[i],
                                plan.from_address,
                                Token::Native,
                            ) && db@.accounts[i].lots.len() == 0)) by {
                            if exists|i: int|
                                0 <= i < db@.accounts.len() && account_key_is(
                                    #[trigger] db@.accounts[i],
                                    plan.from_address,
                                    Token::Native,
                                ) && db@.accounts[i].lots.len() == 0 {
                                let i = choose|i: int|
                                    0 <= i < db@.accounts.len() && account_key_is(
                                        #[trigger] db@.accounts[i],
                                        plan.from_address,
                                        Token::Native,
                                    ) && db@.accounts[i].lots.len() == 0;
                                assert(has_account(db@, plan.from_address, Token::Native));
                            }
                        }
                    }
                    return Err(LedgerError::LedgerInvariantViolation);
                },
                Some(acct) => {
                    if acct.lots.len() > 0 {
                        proof {
                            assert(confirm_ok(pre, signature, when, db@));
                            let ia = choose|ia: int|
                                0 <= ia < db@.accounts.len() && #[trigger] db@.accounts[ia]
                                    == acct@ && account_key_is(
                                    acct@,
                                    plan.from_address,
                                    Token::Native,
                                );
                            assert forall|i2: int|
                                0 <= i2 < db@.accounts.len() && account_key_is(
                                    #[trigger] db@.accounts[i2],
                                    plan.from_address,
                                    Token::Native,
                                ) implies db@.accounts[i2].lots.len() > 0 by {
                                if i2 != ia {
                                    if ia < i2 {
                                        assert(!account_key_is(
                                            db@.accounts[i2],
                                            db@.accounts[ia].address,
                                            db@.accounts[ia].token,
                                        ));
                                    } else {
                                        assert(!account_key_is(
                                            db@.accounts[ia],
                                            db@.accounts[i2].address,
                                            db@.accounts[i2].token,
                                        ));
                                    }
                                }
                            }
                        }
                        return Err(LedgerError::LedgerInvariantViolation);
                    }
                },
            }
            match db.remove_account(plan.from_address, Token::Native) {
                Err(e) => {
                    proof {
                        // the account was just seen tracked and empty, so
                        // neither of the removal's failure conditions holds
                        let ia = choose|ia: int|
                            0 <= ia < mid.accounts.len() && account_key_is(
                                #[trigger] mid.accounts[ia],
                                plan.from_address,
                                Token::Native,
                            ) && mid.accounts[ia].lots.len() == 0;
                        if e == LedgerError::AccountNotEmpty {
                            let i2 = choose|i2: int|
                                0 <= i2 < mid.accounts.len() && account_key_is(
                                    #[trigger] mid.accounts[i2],
                                    plan.from_address,
                                    Token::Native,
                                ) && mid.accounts[i2].lots.len() > 0;
                            if i2 != ia {
                                if ia < i2 {
                                    assert(!account_key_is(
                                        mid.accounts[i2],
                                        mid.accounts[ia].address,
                                        mid.accounts[ia].token,
                                    ));
                                } else {
                                    assert(!account_key_is(
                                        mid.accounts[ia],
                                        mid.accounts[i2].address,
                                        mid.accounts[i2].token,
                                    ));
                                }
                            }
                        }
                        assert(false);
                    }
                    return Err(LedgerError::LedgerInvariantViolation);
                },
                Ok(()) => {},
            }
            proof {
                assert(confirm_ok(pre, signature, when, mid));
            }
            Ok(())
        } else {
            proof {
                assert(confirm_ok(pre, signature, when, db@));
            }
            Ok(())
        }
    }
}

} // verus!
