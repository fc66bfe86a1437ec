//! The account registry: every client's account, created lazily on first
//! reference, and withheld once the account is locked.

use vstd::prelude::*;
use std::collections::HashMap;
use crate::account::Account;
use crate::libs::{Amount, ClientId};

verus! {

broadcast use vstd::std_specs::hash::group_hash_axioms;

/// The account a client starts with: zero balances, unlocked.
pub open spec fn spec_fresh_account() -> Account {
    Account { available: Amount { units: 0 }, held: Amount { units: 0 }, locked: false }
}

/// What resolving a client id does to the registry: an unknown client gets
/// a fresh account, which is handed out; a known, unlocked client's account
/// is handed out as it stands; a locked account is withheld and the
/// registry is left alone.
pub open spec fn spec_find_or_create(accounts: Map<ClientId, Account>, client_id: ClientId) -> (
    Option<Account>,
    Map<ClientId, Account>,
) {
    if accounts.contains_key(client_id) {
        if accounts[client_id].locked {
            (None, accounts)
        } else {
            (Some(accounts[client_id]), accounts)
        }
    } else {
        (Some(spec_fresh_account()), accounts.insert(client_id, spec_fresh_account()))
    }
}

/// The registry proper: the accounts by client id, and the clients in the
/// order they first appeared, for reporting.
pub struct Accounts {
    map: HashMap<ClientId, Account>,
    order: Vec<ClientId>,
}

impl View for Accounts {
    type V = Map<ClientId, Account>;

    closed spec fn view(&self) -> Map<ClientId, Account> {
        self.map@
    }
}

impl Accounts {
    /// The clients listed for reporting are exactly those with an account,
    /// each once.
    pub closed spec fn wf(self) -> bool {
        &&& self.order@.no_duplicates()
        &&& forall|j: int| 0 <= j < self.order@.len() ==> self.map@.contains_key(
            #[trigger] self.order@[j],
        )
        &&& forall|c: ClientId| self.map@.contains_key(c) ==> self.order@.contains(c)
    }

    pub fn new() -> (r: Accounts)
        ensures
            r@ == Map::<ClientId, Account>::empty(),
            r.wf(),
    {
        Accounts { map: HashMap::new(), order: Vec::new() }
    }

    /// Hand out the client's account for mutation, creating it first if the
    /// client is new, or nothing at all if the account is locked: a locked
    /// account never leaves the registry, so every event against it is
    /// dropped. The caller commits the mutated account back with `insert`.
    pub fn find_or_create(&mut self, client_id: ClientId) -> (r: Option<Account>)
        requires
            old(self).wf(),
        ensures
            final(self).wf(),
            r == spec_find_or_create(old(self)@, client_id).0,
            final(self)@ == spec_find_or_create(old(self)@, client_id).1,
    {
        match self.map.get(&client_id) {
            Some(account) => {
                if account.locked {
                    None
                } else {
                    Some(*account)
                }
            },
            None => {
                let fresh = Account {
                    available: Amount::zero(),
                    held: Amount::zero(),
                    locked: false,
                };
                self.order.push(client_id);
                self.map.insert(client_id, fresh);
                proof {
                    lemma_order_extended(old(self).order@, old(self).map@, client_id);
                }
                Some(fresh)
            },
        }
    }

    /// Commit an account under its client id, creating the client's
    /// reporting slot if it is new.
    pub fn insert(&mut self, client_id: ClientId, account: Account)
        requires
            old(self).wf(),
        ensures
            final(self).wf(),
            final(self)@ == old(self)@.insert(client_id, account),
    {
        if !self.map.contains_key(&client_id) {
            self.order.push(client_id);
            self.map.insert(client_id, account);
            proof {
                lemma_order_extended(old(self).order@, old(self).map@, client_id);
            }
        } else {
            self.map.insert(client_id, account);
        }
    }

    pub fn get(&self, client_id: ClientId) -> (r: Option<&Account>)
        ensures
            match r {
                Some(a) => self@.contains_key(client_id) && *a == self@[client_id],
                None => !self@.contains_key(client_id),
            },
    {
        self.map.get(&client_id)
    }

    pub fn len(&self) -> (r: usize)
        ensures
            r == self@.dom().len(),
    {
        self.map.len()
    }

    /// Every client the registry knows, each exactly once, in the order of
    /// first appearance.
    pub fn client_ids(&self) -> (r: Vec<ClientId>)
        requires
            self.wf(),
        ensures
            r@.no_duplicates(),
            forall|j: int| 0 <= j < r@.len() ==> self@.contains_key(#[trigger] r@[j]),
            forall|c: ClientId| self@.contains_key(c) ==> r@.contains(c),
    {
        let mut r: Vec<ClientId> = Vec::new();
        let n = self.order.len();
        let mut i: usize = 0;
        while i < n
            invariant
                n == self.order@.len(),
                0 <= i <= n,
                r@ == self.order@.subrange(0, i as int),
            decreases n - i,
        {
            r.push(self.order[i]);
            proof {
                assert(r@ =~= self.order@.subrange(0, i as int + 1));
            }
            i = i + 1;
        }
        proof {
            assert(r@ =~= self.order@);
        }
        r
    }
}

/// Appending a client that the map does not yet know keeps the reporting
/// order well formed once the client is added to the map.
proof fn lemma_order_extended(order: Seq<ClientId>, map: Map<ClientId, Account>, client_id: ClientId)
    requires
        order.no_duplicates(),
        forall|j: int| 0 <= j < order.len() ==> map.contains_key(#[trigger] order[j]),
        forall|c: ClientId| map.contains_key(c) ==> order.contains(c),
        !map.contains_key(client_id),
    ensures
        order.push(client_id).no_duplicates(),
        forall|j: int| 0 <= j < order.push(client_id).len() ==> map.insert(
            client_id,
            spec_fresh_account(),
        ).contains_key(#[trigger] order.push(client_id)[j]) || order.push(client_id)[j]
            == client_id,
        forall|c: ClientId| c != client_id && map.contains_key(c) ==> order.push(
            client_id,
        ).contains(c),
        order.push(client_id).contains(client_id),
{
    assert(!order.contains(client_id));
    assert(forall|j: int|
        0 <= j < order.len() ==> order.push(client_id)[j] == #[trigger] order[j]);
    assert(order.push(client_id)[order.len() as int] == client_id);
    assert forall|c: ClientId| c != client_id && map.contains_key(c) implies order.push(
        client_id,
    ).contains(c) by {
        assert(order.contains(c));
        let w = choose|w: int| 0 <= w < order.len() && order[w] == c;
        assert(order.push(client_id)[w] == c);
    }
}

} // verus!
