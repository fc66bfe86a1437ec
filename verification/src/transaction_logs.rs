//! The idempotent record of every deposit and withdrawal actually applied,
//! keyed by transaction id. It both prevents double application and recalls
//! the amount for a later dispute, resolve or chargeback.

use vstd::prelude::*;
use std::collections::HashMap;
use crate::libs::{Amount, ClientId, TransactionId};
use crate::transaction::Transaction;

verus! {

broadcast use vstd::std_specs::hash::group_hash_axioms;

/// What the log keeps of an applied transaction: who owns it and for how
/// much it was.
#[derive(Clone, Copy, Debug, PartialEq, Eq, Structural)]
pub struct TransactionLog {
    pub client_id: ClientId,
    pub amount: Amount,
}

/// The log entry a transaction leaves behind.
pub open spec fn spec_log_entry(transaction: Transaction) -> TransactionLog {
    TransactionLog { client_id: transaction.client_id, amount: transaction.amount }
}

/// The entry the log hands out for a transaction: the one stored under the
/// transaction's id, and only when the querying transaction's client owns
/// it.
pub open spec fn spec_find(logs: Map<TransactionId, TransactionLog>, transaction: Transaction) -> Option<
    TransactionLog,
> {
    if logs.contains_key(transaction.id) && logs[transaction.id].client_id
        == transaction.client_id {
        Some(logs[transaction.id])
    } else {
        None
    }
}

pub struct TransactionLogs(pub HashMap<TransactionId, TransactionLog>);

impl View for TransactionLogs {
    type V = Map<TransactionId, TransactionLog>;

    open spec fn view(&self) -> Map<TransactionId, TransactionLog> {
        self.0@
    }
}

impl TransactionLogs {
    pub fn new() -> (r: TransactionLogs)
        ensures
            r@ == Map::<TransactionId, TransactionLog>::empty(),
    {
        TransactionLogs(HashMap::new())
    }

    /// Record a transaction, only if no entry exists for its id: this is
    /// the idempotency boundary, so a replay of an id leaves the log as it
    /// was.
    pub fn add(&mut self, transaction: &Transaction)
        ensures
            final(self)@ == if old(self)@.contains_key(transaction.id) {
                old(self)@
            } else {
                old(self)@.insert(transaction.id, spec_log_entry(*transaction))
            },
    {
        if !self.0.contains_key(&transaction.id) {
            self.0.insert(
                transaction.id,
                TransactionLog { client_id: transaction.client_id, amount: transaction.amount },
            );
        }
    }

    /// Look a transaction up, handing its entry out only to the client that
    /// owns it.
    pub fn find(&mut self, transaction: &Transaction) -> (r: Option<TransactionLog>)
        ensures
            final(self)@ == old(self)@,
            r == spec_find(old(self)@, *transaction),
    {
        if let Some(transaction_log) = self.0.get(&transaction.id) {
            if transaction_log.client_id == transaction.client_id {
                return Some(*transaction_log);
            }
        }
        None
    }

    pub fn contains_key(&self, id: TransactionId) -> (r: bool)
        ensures
            r == self@.contains_key(id),
    {
        self.0.contains_key(&id)
    }

    pub fn get(&self, id: TransactionId) -> (r: Option<&TransactionLog>)
        ensures
            match r {
                Some(l) => self@.contains_key(id) && *l == self@[id],
                None => !self@.contains_key(id),
            },
    {
        self.0.get(&id)
    }

    pub fn len(&self) -> (r: usize)
        ensures
            r == self@.dom().len(),
    {
        self.0.len()
    }

    pub fn remove(&mut self, id: TransactionId)
        ensures
            final(self)@ == old(self)@.remove(id),
    {
        self.0.remove(&id);
    }
}

} // verus!
