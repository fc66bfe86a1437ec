//! The per-client account state machine: available and held balances, a
//! one-way lock, and the five operations that replay ledger events against
//! them.

use vstd::prelude::*;
use crate::libs::{spec_sat_add, spec_sat_sub, Amount, Disputes, TransactionId};
use crate::transaction::Transaction;
use crate::transaction_logs::{spec_find, spec_log_entry, TransactionLog, TransactionLogs};

verus! {

broadcast use vstd::std_specs::hash::group_hash_axioms;

/// A client's account: the funds it may spend, the funds frozen pending
/// dispute resolution, and whether the account is permanently locked.
#[derive(Clone, Copy, Debug, PartialEq, Eq, Structural)]
pub struct Account {
    pub available: Amount,
    pub held: Amount,
    pub locked: bool,
}

/// What a deposit does: when the transaction id is not yet logged, the
/// amount is added (saturating) to the available funds and the transaction
/// is logged; a replay of a logged id changes nothing.
pub open spec fn spec_deposit(
    account: Account,
    logs: Map<TransactionId, TransactionLog>,
    transaction: Transaction,
) -> (Account, Map<TransactionId, TransactionLog>) {
    if logs.contains_key(transaction.id) {
        (account, logs)
    } else {
        (
            Account { available: spec_sat_add(account.available, transaction.amount), ..account },
            logs.insert(transaction.id, spec_log_entry(transaction)),
        )
    }
}

/// What a withdrawal does: when the transaction id is not yet logged and
/// the available funds cover the amount, the amount is subtracted and the
/// transaction is logged; otherwise, including when funds are short,
/// nothing changes and nothing is logged, so a later retry can succeed.
pub open spec fn spec_withdrawal(
    account: Account,
    logs: Map<TransactionId, TransactionLog>,
    transaction: Transaction,
) -> (Account, Map<TransactionId, TransactionLog>) {
    if !logs.contains_key(transaction.id) && account.available@ - transaction.amount@ >= 0 {
        (
            Account { available: spec_sat_sub(account.available, transaction.amount), ..account },
            logs.insert(transaction.id, spec_log_entry(transaction)),
        )
    } else {
        (account, logs)
    }
}

/// What a dispute does: when the log holds an entry for the id owned by the
/// requesting client, the logged amount moves from available to held and
/// the id joins the open disputes; otherwise nothing changes.
pub open spec fn spec_dispute(
    account: Account,
    logs: Map<TransactionId, TransactionLog>,
    disputes: Set<TransactionId>,
    transaction: Transaction,
) -> (Account, Set<TransactionId>) {
    match spec_find(logs, transaction) {
        None => (account, disputes),
        Some(log) => (
            Account {
                available: spec_sat_sub(account.available, log.amount),
                held: spec_sat_add(account.held, log.amount),
                ..account
            },
            disputes.insert(transaction.id),
        ),
    }
}

/// What a resolve does: when the log holds an owned entry for the id and a
/// dispute is open on it, the logged amount moves back from held to
/// available and the dispute closes; otherwise nothing changes.
pub open spec fn spec_resolve(
    account: Account,
    logs: Map<TransactionId, TransactionLog>,
    disputes: Set<TransactionId>,
    transaction: Transaction,
) -> (Account, Set<TransactionId>) {
    match spec_find(logs, transaction) {
        None => (account, disputes),
        Some(log) => {
            if disputes.contains(transaction.id) {
                (
                    Account {
                        available: spec_sat_add(account.available, log.amount),
                        held: spec_sat_sub(account.held, log.amount),
                        ..account
                    },
                    disputes.remove(transaction.id),
                )
            } else {
                (account, disputes)
            }
        },
    }
}

/// What a chargeback does: when the log holds an owned entry for the id and
/// a dispute is open on it, the held funds drop by the logged amount, the
/// dispute closes, and the account locks for good; otherwise nothing
/// changes.
pub open spec fn spec_chargeback(
    account: Account,
    logs: Map<TransactionId, TransactionLog>,
    disputes: Set<TransactionId>,
    transaction: Transaction,
) -> (Account, Set<TransactionId>) {
    match spec_find(logs, transaction) {
        None => (account, disputes),
        Some(log) => {
            if disputes.contains(transaction.id) {
                (
                    Account { held: spec_sat_sub(account.held, log.amount), locked: true, ..account },
                    disputes.remove(transaction.id),
                )
            } else {
                (account, disputes)
            }
        },
    }
}

/// Idempotent deposit: replaying a deposit on the state it produced
/// changes nothing, so applying the same transaction id twice leaves the
/// same balances and the same log as applying it once.
pub proof fn lemma_deposit_idempotent(
    account: Account,
    logs: Map<TransactionId, TransactionLog>,
    transaction: Transaction,
)
    ensures
        spec_deposit(
            spec_deposit(account, logs, transaction).0,
            spec_deposit(account, logs, transaction).1,
            transaction,
        ) == spec_deposit(account, logs, transaction),
{
}

/// Idempotent withdrawal: replaying a withdrawal on the state it produced
/// changes nothing, because a withdrawal that applied was logged, and one
/// that did not apply left the state as it was.
pub proof fn lemma_withdrawal_idempotent(
    account: Account,
    logs: Map<TransactionId, TransactionLog>,
    transaction: Transaction,
)
    ensures
        spec_withdrawal(
            spec_withdrawal(account, logs, transaction).0,
            spec_withdrawal(account, logs, transaction).1,
            transaction,
        ) == spec_withdrawal(account, logs, transaction),
{
}

/// An under-funded withdrawal mutates nothing and is never logged, so a
/// later retry with sufficient funds can still succeed.
pub proof fn lemma_withdrawal_underfunded(
    account: Account,
    logs: Map<TransactionId, TransactionLog>,
    transaction: Transaction,
)
    requires
        account.available@ - transaction.amount@ < 0,
    ensures
        spec_withdrawal(account, logs, transaction) == (account, logs),
{
}

/// Dispute conservation: a dispute that applies moves the logged amount
/// between the buckets, so available plus held is conserved — as long as
/// neither side saturates; with the held bucket already at the top of the
/// representable range, the clamped move would lose the overflow.
pub proof fn lemma_dispute_conserves(
    account: Account,
    logs: Map<TransactionId, TransactionLog>,
    disputes: Set<TransactionId>,
    transaction: Transaction,
)
    requires
        spec_find(logs, transaction) is Some,
        i128::MIN <= account.available@ - spec_find(logs, transaction)->0.amount@ <= i128::MAX,
        i128::MIN <= account.held@ + spec_find(logs, transaction)->0.amount@ <= i128::MAX,
    ensures
        spec_dispute(account, logs, disputes, transaction).0.available@ + spec_dispute(
            account,
            logs,
            disputes,
            transaction,
        ).0.held@ == account.available@ + account.held@,
{
}

/// Resolve inverts dispute: after a dispute that applied, a resolve of the
/// same transaction restores the pre-dispute balances exactly and removes
/// the id from the open disputes — as long as neither bucket saturates on
/// the way.
pub proof fn lemma_resolve_inverts_dispute(
    account: Account,
    logs: Map<TransactionId, TransactionLog>,
    disputes: Set<TransactionId>,
    transaction: Transaction,
)
    requires
        spec_find(logs, transaction) is Some,
        i128::MIN <= account.available@ - spec_find(logs, transaction)->0.amount@ <= i128::MAX,
        i128::MIN <= account.held@ + spec_find(logs, transaction)->0.amount@ <= i128::MAX,
    ensures
        spec_resolve(
            spec_dispute(account, logs, disputes, transaction).0,
            logs,
            spec_dispute(account, logs, disputes, transaction).1,
            transaction,
        ).0 == account,
        spec_resolve(
            spec_dispute(account, logs, disputes, transaction).0,
            logs,
            spec_dispute(account, logs, disputes, transaction).1,
            transaction,
        ).1 == disputes.remove(transaction.id),
{
    assert(disputes.insert(transaction.id).remove(transaction.id) =~= disputes.remove(
        transaction.id,
    ));
}

/// A chargeback that applies locks the account for good.
pub proof fn lemma_chargeback_locks(
    account: Account,
    logs: Map<TransactionId, TransactionLog>,
    disputes: Set<TransactionId>,
    transaction: Transaction,
)
    requires
        spec_find(logs, transaction) is Some,
        disputes.contains(transaction.id),
    ensures
        spec_chargeback(account, logs, disputes, transaction).0.locked,
        spec_chargeback(account, logs, disputes, transaction).1 == disputes.remove(transaction.id),
{
}

/// Ownership isolation: a dispute, resolve or chargeback naming a
/// transaction id that exists but belongs to another client mutates
/// neither the account nor the open disputes.
pub proof fn lemma_foreign_transaction_isolated(
    account: Account,
    logs: Map<TransactionId, TransactionLog>,
    disputes: Set<TransactionId>,
    transaction: Transaction,
)
    requires
        logs.contains_key(transaction.id),
        logs[transaction.id].client_id != transaction.client_id,
    ensures
        spec_dispute(account, logs, disputes, transaction) == (account, disputes),
        spec_resolve(account, logs, disputes, transaction) == (account, disputes),
        spec_chargeback(account, logs, disputes, transaction) == (account, disputes),
{
}

impl Account {
    pub fn deposit(&mut self, transaction: &Transaction, transaction_logs: &mut TransactionLogs)
        ensures
            *final(self) == spec_deposit(*old(self), old(transaction_logs)@, *transaction).0,
            final(transaction_logs)@ == spec_deposit(
                *old(self),
                old(transaction_logs)@,
                *transaction,
            ).1,
    {
        if !transaction_logs.contains_key(transaction.id) {
            transaction_logs.add(transaction);
            self.available = self.available.saturating_add(transaction.amount);
        }
    }

    pub fn withdrawal(&mut self, transaction: &Transaction, transaction_logs: &mut TransactionLogs)
        ensures
            *final(self) == spec_withdrawal(*old(self), old(transaction_logs)@, *transaction).0,
            final(transaction_logs)@ == spec_withdrawal(
                *old(self),
                old(transaction_logs)@,
                *transaction,
            ).1,
    {
        if !transaction_logs.contains_key(transaction.id) {
            let next = self.available.saturating_sub(transaction.amount);
            if next.units >= 0 {
                transaction_logs.add(transaction);
                self.available = next;
            }
        }
    }

    pub fn dispute(
        &mut self,
        transaction: &Transaction,
        transaction_logs: &mut TransactionLogs,
        disputes: &mut Disputes,
    )
        ensures
            *final(self) == spec_dispute(
                *old(self),
                old(transaction_logs)@,
                old(disputes)@,
                *transaction,
            ).0,
            final(disputes)@ == spec_dispute(
                *old(self),
                old(transaction_logs)@,
                old(disputes)@,
                *transaction,
            ).1,
            final(transaction_logs)@ == old(transaction_logs)@,
    {
        if let Some(transaction_log) = transaction_logs.find(transaction) {
            self.available = self.available.saturating_sub(transaction_log.amount);
            self.held = self.held.saturating_add(transaction_log.amount);
            disputes.insert(transaction.id);
        }
    }

    pub fn resolve(
        &mut self,
        transaction: &Transaction,
        transaction_logs: &mut TransactionLogs,
        disputes: &mut Disputes,
    )
        ensures
            *final(self) == spec_resolve(
                *old(self),
                old(transaction_logs)@,
                old(disputes)@,
                *transaction,
            ).0,
            final(disputes)@ == spec_resolve(
                *old(self),
                old(transaction_logs)@,
                old(disputes)@,
                *transaction,
            ).1,
            final(transaction_logs)@ == old(transaction_logs)@,
    {
        if let Some(transaction_log) = transaction_logs.find(transaction) {
            if disputes.remove(&transaction.id) {
                self.held = self.held.saturating_sub(transaction_log.amount);
                self.available = self.available.saturating_add(transaction_log.amount);
            } else {
                proof {
                    assert(old(disputes)@.remove(transaction.id) =~= old(disputes)@);
                }
            }
        }
    }

    pub fn chargeback(
        &mut self,
        transaction: &Transaction,
        transaction_logs: &mut TransactionLogs,
        disputes: &mut Disputes,
    )
        ensures
            *final(self) == spec_chargeback(
                *old(self),
                old(transaction_logs)@,
                old(disputes)@,
                *transaction,
            ).0,
            final(disputes)@ == spec_chargeback(
                *old(self),
                old(transaction_logs)@,
                old(disputes)@,
                *transaction,
            ).1,
            final(transaction_logs)@ == old(transaction_logs)@,
    {
        if let Some(transaction_log) = transaction_logs.find(transaction) {
            if disputes.remove(&transaction.id) {
                self.held = self.held.saturating_sub(transaction_log.amount);
                self.locked = true;
            } else {
                proof {
                    assert(old(disputes)@.remove(transaction.id) =~= old(disputes)@);
                }
            }
        }
    }
}

} // verus!
