//! The processing step the replay loop runs for every incoming record:
//! resolve the account, dispatch the event to the state machine, commit the
//! account back; and the rendering of a final report row.

use vstd::prelude::*;
use crate::account::{
    spec_chargeback, spec_deposit, spec_dispute, spec_resolve, spec_withdrawal, Account,
};
use crate::accounts::{spec_fresh_account, Accounts};
use crate::libs::{spec_digits, spec_format, ClientId, Disputes, TransactionId};
use crate::libs::push_digits;
use crate::transaction::Transaction;
use crate::transaction_logs::{TransactionLog, TransactionLogs};

verus! {

/// The closed set of event kinds a record can carry.
#[derive(Clone, Copy, Debug, PartialEq, Eq, Structural)]
pub enum TransactionKind {
    Deposit,
    Withdrawal,
    Dispute,
    Resolve,
    Chargeback,
}

/// The kind named by a record's first field; an unrecognized tag names
/// none, and such a record is dropped before it reaches the core.
pub open spec fn spec_parse_kind(tag: Seq<char>) -> Option<TransactionKind> {
    if tag == "deposit"@ {
        Some(TransactionKind::Deposit)
    } else if tag == "withdrawal"@ {
        Some(TransactionKind::Withdrawal)
    } else if tag == "dispute"@ {
        Some(TransactionKind::Dispute)
    } else if tag == "resolve"@ {
        Some(TransactionKind::Resolve)
    } else if tag == "chargeback"@ {
        Some(TransactionKind::Chargeback)
    } else {
        None
    }
}

fn tag_is(tag: &str, word: &str) -> (r: bool)
    ensures
        r == (tag@ == word@),
{
    let a = String::from_str(tag);
    let b = String::from_str(word);
    a.eq(&b)
}

pub fn parse_kind(tag: &str) -> (r: Option<TransactionKind>)
    ensures
        r == spec_parse_kind(tag@),
{
    if tag_is(tag, "deposit") {
        Some(TransactionKind::Deposit)
    } else if tag_is(tag, "withdrawal") {
        Some(TransactionKind::Withdrawal)
    } else if tag_is(tag, "dispute") {
        Some(TransactionKind::Dispute)
    } else if tag_is(tag, "resolve") {
        Some(TransactionKind::Resolve)
    } else if tag_is(tag, "chargeback") {
        Some(TransactionKind::Chargeback)
    } else {
        None
    }
}

/// What one replay step does to the whole state. The client's account is
/// resolved, created fresh if the client is new; an event against a locked
/// account is dropped whole; otherwise the event's kind picks the state
/// machine operation, and the mutated account is committed back under the
/// client's id.
pub open spec fn spec_apply(
    kind: TransactionKind,
    transaction: Transaction,
    accounts: Map<ClientId, Account>,
    logs: Map<TransactionId, TransactionLog>,
    disputes: Set<TransactionId>,
) -> (Map<ClientId, Account>, Map<TransactionId, TransactionLog>, Set<TransactionId>) {
    let known = accounts.contains_key(transaction.client_id);
    let account = if known {
        accounts[transaction.client_id]
    } else {
        spec_fresh_account()
    };
    if known && account.locked {
        (accounts, logs, disputes)
    } else {
        match kind {
            TransactionKind::Deposit => {
                let r = spec_deposit(account, logs, transaction);
                (accounts.insert(transaction.client_id, r.0), r.1, disputes)
            },
            TransactionKind::Withdrawal => {
                let r = spec_withdrawal(account, logs, transaction);
                (accounts.insert(transaction.client_id, r.0), r.1, disputes)
            },
            TransactionKind::Dispute => {
                let r = spec_dispute(account, logs, disputes, transaction);
                (accounts.insert(transaction.client_id, r.0), logs, r.1)
            },
            TransactionKind::Resolve => {
                let r = spec_resolve(account, logs, disputes, transaction);
                (accounts.insert(transaction.client_id, r.0), logs, r.1)
            },
            TransactionKind::Chargeback => {
                let r = spec_chargeback(account, logs, disputes, transaction);
                (accounts.insert(transaction.client_id, r.0), logs, r.1)
            },
        }
    }
}

/// Run one event against the state: resolve or create the account, drop the
/// event if the account is locked, otherwise dispatch it and commit the
/// account back.
pub fn apply(
    kind: TransactionKind,
    transaction: &Transaction,
    accounts: &mut Accounts,
    transaction_logs: &mut TransactionLogs,
    disputes: &mut Disputes,
)
    requires
        old(accounts).wf(),
    ensures
        final(accounts).wf(),
        final(accounts)@ == spec_apply(
            kind,
            *transaction,
            old(accounts)@,
            old(transaction_logs)@,
            old(disputes)@,
        ).0,
        final(transaction_logs)@ == spec_apply(
            kind,
            *transaction,
            old(accounts)@,
            old(transaction_logs)@,
            old(disputes)@,
        ).1,
        final(disputes)@ == spec_apply(
            kind,
            *transaction,
            old(accounts)@,
            old(transaction_logs)@,
            old(disputes)@,
        ).2,
{
    let account_opt = accounts.find_or_create(transaction.client_id);
    let mut account = match account_opt {
        Some(a) => a,
        None => {
            return;
        },
    };
    match kind {
        TransactionKind::Deposit => account.deposit(transaction, transaction_logs),
        TransactionKind::Withdrawal => account.withdrawal(transaction, transaction_logs),
        TransactionKind::Dispute => account.dispute(transaction, transaction_logs, disputes),
        TransactionKind::Resolve => account.resolve(transaction, transaction_logs, disputes),
        TransactionKind::Chargeback => account.chargeback(transaction, transaction_logs, disputes),
    }
    accounts.insert(transaction.client_id, account);
    proof {
        if !old(accounts)@.contains_key(transaction.client_id) {
            assert(old(accounts)@.insert(transaction.client_id, spec_fresh_account()).insert(
                transaction.client_id,
                account,
            ) =~= old(accounts)@.insert(transaction.client_id, account));
        }
    }
}

/// Chargeback finality at the registry boundary: once a client's account is
/// locked, every further event for that client, of any kind, leaves the
/// accounts, the transaction log and the open disputes exactly as they are.
pub proof fn lemma_locked_account_unchanged(
    kind: TransactionKind,
    transaction: Transaction,
    accounts: Map<ClientId, Account>,
    logs: Map<TransactionId, TransactionLog>,
    disputes: Set<TransactionId>,
)
    requires
        accounts.contains_key(transaction.client_id),
        accounts[transaction.client_id].locked,
    ensures
        spec_apply(kind, transaction, accounts, logs, disputes) == (accounts, logs, disputes),
{
}

/// What replaying a whole stream of events does: each event is applied in
/// arrival order to the state the ones before it left behind.
pub open spec fn spec_replay(
    events: Seq<(TransactionKind, Transaction)>,
    accounts: Map<ClientId, Account>,
    logs: Map<TransactionId, TransactionLog>,
    disputes: Set<TransactionId>,
) -> (Map<ClientId, Account>, Map<TransactionId, TransactionLog>, Set<TransactionId>)
    decreases events.len(),
{
    if events.len() == 0 {
        (accounts, logs, disputes)
    } else {
        let r = spec_apply(events[0].0, events[0].1, accounts, logs, disputes);
        spec_replay(events.drop_first(), r.0, r.1, r.2)
    }
}

/// Replay a finite stream of events, strictly in arrival order.
pub fn replay(
    events: &Vec<(TransactionKind, Transaction)>,
    accounts: &mut Accounts,
    transaction_logs: &mut TransactionLogs,
    disputes: &mut Disputes,
)
    requires
        old(accounts).wf(),
    ensures
        final(accounts).wf(),
        final(accounts)@ == spec_replay(
            events@,
            old(accounts)@,
            old(transaction_logs)@,
            old(disputes)@,
        ).0,
        final(transaction_logs)@ == spec_replay(
            events@,
            old(accounts)@,
            old(transaction_logs)@,
            old(disputes)@,
        ).1,
        final(disputes)@ == spec_replay(
            events@,
            old(accounts)@,
            old(transaction_logs)@,
            old(disputes)@,
        ).2,
{
    let ghost whole = spec_replay(events@, old(accounts)@, old(transaction_logs)@, old(disputes)@);
    let n = events.len();
    proof {
        assert(events@.subrange(0, n as int) =~= events@);
    }
    let mut i: usize = 0;
    while i < n
        invariant
            0 <= i <= n,
            n == events@.len(),
            accounts.wf(),
            spec_replay(
                events@.subrange(i as int, n as int),
                accounts@,
                transaction_logs@,
                disputes@,
            ) == whole,
        decreases n - i,
    {
        let (kind, transaction) = &events[i];
        proof {
            let rest = events@.subrange(i as int, n as int);
            assert(rest[0] == events@[i as int]);
            assert(rest.drop_first() =~= events@.subrange(i as int + 1, n as int));
        }
        apply(*kind, transaction, accounts, transaction_logs, disputes);
        i = i + 1;
    }
    proof {
        assert(events@.subrange(n as int, n as int) =~= Seq::<(
            TransactionKind,
            Transaction,
        )>::empty());
    }
}

/// Chargeback finality over a whole stream: once a client's account is
/// locked, no sequence of further events, that client's or any other's,
/// ever changes that account again.
pub proof fn lemma_locked_account_survives_replay(
    events: Seq<(TransactionKind, Transaction)>,
    accounts: Map<ClientId, Account>,
    logs: Map<TransactionId, TransactionLog>,
    disputes: Set<TransactionId>,
    client_id: ClientId,
)
    requires
        accounts.contains_key(client_id),
        accounts[client_id].locked,
    ensures
        spec_replay(events, accounts, logs, disputes).0.contains_key(client_id),
        spec_replay(events, accounts, logs, disputes).0[client_id] == accounts[client_id],
    decreases events.len(),
{
    if events.len() > 0 {
        let r = spec_apply(events[0].0, events[0].1, accounts, logs, disputes);
        assert(r.0.contains_key(client_id) && r.0[client_id] == accounts[client_id]);
        lemma_locked_account_survives_replay(events.drop_first(), r.0, r.1, r.2, client_id);
    }
}

/// The report line for one account: client id, available, held, total and
/// locked flag, comma separated, the amounts in the truncating four-decimal
/// rendering and the total the saturating sum of available and held.
pub open spec fn spec_summary_row(client_id: ClientId, account: Account) -> Seq<char> {
    spec_digits(client_id as nat) + seq![','] + spec_format(account.available@) + seq![',']
        + spec_format(account.held@) + seq![','] + spec_format(
        crate::libs::sat_units(account.available@ + account.held@),
    ) + seq![','] + (if account.locked {
        "true"@
    } else {
        "false"@
    })
}

/// Render one report row.
pub fn summary_row(client_id: ClientId, account: &Account) -> (r: String)
    ensures
        r@ == spec_summary_row(client_id, *account),
{
    proof {
        reveal_strlit(",");
        reveal_strlit("true");
        reveal_strlit("false");
    }
    let mut r = String::new();
    push_digits(client_id as u128, &mut r);
    r.append(",");
    let available = crate::libs::format(account.available);
    r.append(available.as_str());
    r.append(",");
    let held = crate::libs::format(account.held);
    r.append(held.as_str());
    r.append(",");
    let total = crate::libs::format(account.available.saturating_add(account.held));
    r.append(total.as_str());
    r.append(",");
    if account.locked {
        r.append("true");
    } else {
        r.append("false");
    }
    proof {
        assert(r@ =~= spec_summary_row(client_id, *account));
    }
    r
}

} // verus!
