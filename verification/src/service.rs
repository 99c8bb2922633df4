//! The in-process credits service: plain request and response messages, the
//! `Credits` service interface, and a client whose calls run directly against
//! an event store. Reading an account's status loads its authoritative state;
//! adding credits loads, runs one `AddCredits` command, and persists the
//! result.

use vstd::prelude::*;

use crate::contract::{
    lemma_replay_singleton, replay, spec_handle, AccountView, CreditCommand, CreditError,
    CreditEvent,
};
use crate::eventstore::{
    load, run_and_store, run_batch, run_batch_from, EventStore,
};

verus! {

/// Ask for the available amount of one account.
#[derive(Clone, Copy, Debug)]
pub struct AccountStatusRequest {
    pub account: i64,
}

/// The available amount of one account.
#[derive(Clone, Copy, Debug)]
pub struct AccountStatus {
    pub amount: i64,
}

/// Add credits to one account.
#[derive(Clone, Copy, Debug)]
pub struct AddCreditsCommand {
    pub account: i64,
    pub amount: i64,
}

/// The available amount after the credits were added.
#[derive(Clone, Copy, Debug)]
pub struct AddCreditsResponse {
    pub new_amount: i64,
}

/// The two operations the credits service offers its callers. An
/// implementation brings its own readiness invariant and its own bound on
/// which add requests it can book without leaving its machine limits.
pub trait Credits {
    /// The implementation is ready to serve.
    spec fn svc_inv(&self) -> bool;

    /// The implementation can book this add within its machine limits.
    spec fn add_ok(&self, req: AddCreditsCommand) -> bool;

    /// Report the account's available amount; reads only.
    fn get_account_status(&mut self, req: &AccountStatusRequest) -> (r: Result<
        AccountStatus,
        CreditError,
    >)
        requires
            old(self).svc_inv(),
        ensures
            final(self).svc_inv(),
    ;

    /// Add credits to the account and report the new available amount.
    fn add_credits(&mut self, req: &AddCreditsCommand) -> (r: Result<
        AddCreditsResponse,
        CreditError,
    >)
        requires
            old(self).svc_inv(),
            old(self).add_ok(*req),
        ensures
            final(self).svc_inv(),
    ;
}

/// Relies on chrono::Utc::now for the wall-clock time, read once per call;
/// nothing is assumed of the value.
#[verifier::external_body]
fn now_seconds() -> i64 {
    chrono::Utc::now().timestamp()
}

/// A client handle for the credits service, running it in process against an
/// event store.
pub struct CreditsClient {
    store: EventStore,
}

impl CreditsClient {
    /// The client is ready: its store is internally consistent.
    pub closed spec fn wf(self) -> bool {
        self.store.wf()
    }

    /// The store the client runs against.
    pub closed spec fn store(self) -> EventStore {
        self.store
    }

    /// A client over the given store.
    pub fn new(store: EventStore) -> (c: CreditsClient)
        requires
            store.wf(),
        ensures
            c.wf(),
            c.store() == store,
    {
        CreditsClient { store }
    }

    /// The account's available amount, read from a full load of its
    /// authoritative state. Nothing is mutated.
    pub fn get_account_status(&self, req: &AccountStatusRequest) -> (r: Result<
        AccountStatus,
        CreditError,
    >)
        requires
            self.wf(),
        ensures
            r matches Ok(s) && s.amount == self.store().state_of(req.account).amount,
    {
        match load(req.account, &self.store) {
            Ok(c) => Ok(AccountStatus { amount: c.amount() }),
            Err(e) => Err(e),
        }
    }

    /// Same answer as `get_account_status`: the in-process call completes
    /// before it returns, so the result is handed back directly.
    pub fn get_account_status_async(&self, req: &AccountStatusRequest) -> (r: Result<
        AccountStatus,
        CreditError,
    >)
        requires
            self.wf(),
        ensures
            r matches Ok(s) && s.amount == self.store().state_of(req.account).amount,
    {
        self.get_account_status(req)
    }

    /// Load the account, book one `AddCredits` command, persist its event,
    /// and report the new available amount. The store this client owns has no
    /// other writers, so the version check always passes.
    pub fn add_credits(&mut self, req: &AddCreditsCommand) -> (r: Result<
        AddCreditsResponse,
        CreditError,
    >)
        requires
            old(self).wf(),
            0 <= req.amount,
            old(self).store().state_of(req.account).total() + req.amount <= i64::MAX,
            old(self).store().state_of(req.account).version < i64::MAX,
        ensures
            final(self).wf(),
            r matches Ok(resp) && resp.new_amount == old(self).store().state_of(
                req.account,
            ).amount + req.amount,
            final(self).store().state_of(req.account).amount == old(self).store().state_of(
                req.account,
            ).amount + req.amount,
            final(self).store().events_of(req.account) == old(self).store().events_of(req.account)
                + seq![CreditEvent::CreditsAdded(req.amount)],
            final(self).store().version_of(req.account) == old(self).store().version_of(
                req.account,
            ) + 1,
            forall|other: i64|
                other != req.account ==> final(self).store().version_of(other) == old(
                    self,
                ).store().version_of(other) && final(self).store().events_of(other) == old(
                    self,
                ).store().events_of(other) && final(self).store().snapshot_of(other) == old(
                    self,
                ).store().snapshot_of(other),
    {
        let mut agg = match load(req.account, &self.store) {
            Ok(c) => c,
            Err(e) => {
                return Err(e);
            },
        };
        let now = now_seconds();
        let cmd = CreditCommand::AddCredits(req.amount);
        proof {
            let v = agg@;
            let ev = CreditEvent::CreditsAdded(req.amount);
            let evts = spec_handle(v, cmd, now)->Ok_0;
            assert(evts =~= seq![ev]);
            lemma_replay_singleton(v, ev);
            let w = replay(v, evts);
            assert(run_batch_from(w, seq![cmd], now, 1) == Ok::<
                (Seq<CreditEvent>, AccountView),
                CreditError,
            >((Seq::empty(), w)));
            assert(run_batch(v, seq![cmd], now) == Ok::<
                (Seq<CreditEvent>, AccountView),
                CreditError,
            >((evts + Seq::empty(), w)));
            assert(evts + Seq::<CreditEvent>::empty() =~= evts);
        }
        match run_and_store(&mut agg, cmd, now, &mut self.store) {
            Ok(()) => Ok(AddCreditsResponse { new_amount: agg.amount() }),
            Err(e) => Err(e),
        }
    }

    /// Same effect and answer as `add_credits`: the in-process call completes
    /// before it returns, so the result is handed back directly.
    pub fn add_credits_async(&mut self, req: &AddCreditsCommand) -> (r: Result<
        AddCreditsResponse,
        CreditError,
    >)
        requires
            old(self).wf(),
            0 <= req.amount,
            old(self).store().state_of(req.account).total() + req.amount <= i64::MAX,
            old(self).store().state_of(req.account).version < i64::MAX,
        ensures
            final(self).wf(),
            r matches Ok(resp) && resp.new_amount == old(self).store().state_of(
                req.account,
            ).amount + req.amount,
            final(self).store().state_of(req.account).amount == old(self).store().state_of(
                req.account,
            ).amount + req.amount,
    {
        self.add_credits(req)
    }
}

impl Credits for CreditsClient {
    open spec fn svc_inv(&self) -> bool {
        self.wf()
    }

    open spec fn add_ok(&self, req: AddCreditsCommand) -> bool {
        &&& 0 <= req.amount
        &&& self.store().state_of(req.account).total() + req.amount <= i64::MAX
        &&& self.store().state_of(req.account).version < i64::MAX
    }

    fn get_account_status(&mut self, req: &AccountStatusRequest) -> (r: Result<
        AccountStatus,
        CreditError,
    >) {
        CreditsClient::get_account_status(self, req)
    }

    fn add_credits(&mut self, req: &AddCreditsCommand) -> (r: Result<
        AddCreditsResponse,
        CreditError,
    >) {
        CreditsClient::add_credits(self, req)
    }
}

/// Build the credits service over an event store: the returned client is the
/// in-process endpoint for both operations.
pub fn create_credits(store: EventStore) -> (c: CreditsClient)
    requires
        store.wf(),
    ensures
        c.wf(),
        c.store() == store,
{
    CreditsClient::new(store)
}

} // verus!
