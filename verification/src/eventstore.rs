//! The event store and the command runner. The store is a durable,
//! order-preserving, append-only log per account with an optimistic version
//! check on every write and a snapshot cache that bounds replay cost. The
//! authoritative state of an account is always the full replay of its log;
//! a snapshot is an optimization, never authoritative on its own.

use vstd::prelude::*;

use crate::contract::{
    cmd_admissible, init_view, replay, replay_ok, spec_handle, AccountView, Contract,
    CreditCommand, CreditError, CreditEvent, Timestamp,
};
use crate::contract::{lemma_handle_ok, lemma_init_inv, lemma_replay_app, lemma_replay_inv, lemma_replay_snoc};

verus! {

/// How many versions may pass before a fresh snapshot is written.
pub const SNAPSHOT_INTERVAL: i64 = 1000;

/// One account's durable record: its current version, its ordered event log
/// (the event at index `i` produced version `i + 1`), and at most one
/// snapshot.
struct StoredAccount {
    id: i64,
    version: i64,
    events: Vec<CreditEvent>,
    snapshot: Option<Contract>,
}

/// The append-only event store, keyed by account id.
pub struct EventStore {
    accounts: Vec<StoredAccount>,
}

/// Each account id appears at most once.
spec fn ids_unique(accounts: Seq<StoredAccount>) -> bool {
    forall|i: int, j: int| 0 <= i < j < accounts.len() ==> accounts[i].id != accounts[j].id
}

/// One record is internally consistent: the version counts the events, the
/// log replays cleanly from the empty account, and the snapshot, if any, is
/// the replay of the log's prefix up to its own version.
spec fn account_wf(a: StoredAccount) -> bool {
    &&& a.version == a.events@.len()
    &&& replay_ok(init_view(a.id), a.events@)
    &&& match a.snapshot {
        Some(c) => {
            &&& c@.id == a.id
            &&& 0 <= c@.version <= a.events@.len()
            &&& c@ == replay(init_view(a.id), a.events@.take(c@.version))
        },
        None => true,
    }
}

/// A snapshot taken at or after `version - SNAPSHOT_INTERVAL` makes a new one
/// at `version` unnecessary.
pub open spec fn snapshot_fresh(snap: Option<AccountView>, version: i64) -> bool {
    snap matches Some(s) && s.version >= version - SNAPSHOT_INTERVAL
}

/// The store accepts a write against this expected version.
pub open spec fn save_accepts(store: EventStore, id: i64, expected_version: int) -> bool {
    store.version_of(id) == expected_version
}

impl EventStore {
    /// The store holds a record for this account.
    pub closed spec fn has_account(self, id: i64) -> bool {
        exists|i: int| 0 <= i < self.accounts@.len() && self.accounts@[i].id == id
    }

    spec fn account_at(self, id: i64) -> int {
        choose|i: int| 0 <= i < self.accounts@.len() && self.accounts@[i].id == id
    }

    /// The stored version: 0 for an account never written to.
    pub closed spec fn version_of(self, id: i64) -> int {
        if self.has_account(id) {
            self.accounts@[self.account_at(id)].version as int
        } else {
            0
        }
    }

    /// The account's event log, in commit order.
    pub closed spec fn events_of(self, id: i64) -> Seq<CreditEvent> {
        if self.has_account(id) {
            self.accounts@[self.account_at(id)].events@
        } else {
            Seq::empty()
        }
    }

    /// The account's snapshot, if one was written.
    pub closed spec fn snapshot_of(self, id: i64) -> Option<AccountView> {
        if self.has_account(id) {
            match self.accounts@[self.account_at(id)].snapshot {
                Some(c) => Some(c@),
                None => None,
            }
        } else {
            None
        }
    }

    /// The authoritative state of an account: the full replay of its log from
    /// the empty account, never the snapshot alone.
    pub open spec fn state_of(self, id: i64) -> AccountView {
        replay(init_view(id), self.events_of(id))
    }

    /// Internal consistency of the whole store.
    pub closed spec fn wf(self) -> bool {
        &&& ids_unique(self.accounts@)
        &&& forall|i: int|
            0 <= i < self.accounts@.len() ==> #[trigger] account_wf(self.accounts@[i])
    }
}

proof fn lemma_account_at(s: EventStore, id: i64)
    requires
        ids_unique(s.accounts@),
        s.has_account(id),
    ensures
        0 <= s.account_at(id) < s.accounts@.len(),
        s.accounts@[s.account_at(id)].id == id,
        forall|j: int| 0 <= j < s.accounts@.len() && s.accounts@[j].id == id ==> j == s.account_at(id),
{
    let i = choose|i: int| 0 <= i < s.accounts@.len() && s.accounts@[i].id == id;
    assert(s.accounts@[i].id == id);
}

/// Replacing one account's record in place leaves every other account's
/// observations untouched.
proof fn lemma_obs_update(s1: EventStore, s2: EventStore, i: int)
    requires
        ids_unique(s1.accounts@),
        0 <= i < s1.accounts@.len(),
        s2.accounts@ == s1.accounts@.update(i, s2.accounts@[i]),
        s2.accounts@[i].id == s1.accounts@[i].id,
    ensures
        ids_unique(s2.accounts@),
        s1.has_account(s1.accounts@[i].id),
        s1.account_at(s1.accounts@[i].id) == i,
        s2.has_account(s1.accounts@[i].id),
        s2.account_at(s1.accounts@[i].id) == i,
        forall|x: i64|
            x != s1.accounts@[i].id ==> s2.version_of(x) == s1.version_of(x) && s2.events_of(x)
                == s1.events_of(x) && s2.snapshot_of(x) == s1.snapshot_of(x),
{
    let id = s1.accounts@[i].id;
    assert forall|k: int| 0 <= k < s2.accounts@.len() implies #[trigger] s2.accounts@[k].id
        == s1.accounts@[k].id by {}
    assert(ids_unique(s2.accounts@));
    assert(s1.has_account(id));
    lemma_account_at(s1, id);
    assert(s2.accounts@[i].id == id);
    assert(s2.has_account(id));
    lemma_account_at(s2, id);
    assert forall|x: i64|
        x != id implies s2.version_of(x) == s1.version_of(x) && s2.events_of(x) == s1.events_of(x)
        && s2.snapshot_of(x) == s1.snapshot_of(x) by {
        if s1.has_account(x) {
            lemma_account_at(s1, x);
            let j = s1.account_at(x);
            assert(j != i);
            assert(s2.accounts@[j] == s1.accounts@[j]);
            assert(s2.has_account(x));
            lemma_account_at(s2, x);
            assert(s2.account_at(x) == j);
        } else {
            if s2.has_account(x) {
                let k = choose|k: int| 0 <= k < s2.accounts@.len() && s2.accounts@[k].id == x;
                assert(s1.accounts@[k].id == x);
            }
        }
    }
}

/// Adding a record for a brand-new account leaves every other account's
/// observations untouched.
proof fn lemma_obs_push(s1: EventStore, s2: EventStore)
    requires
        ids_unique(s1.accounts@),
        s2.accounts@.len() == s1.accounts@.len() + 1,
        s2.accounts@ == s1.accounts@.push(s2.accounts@.last()),
        !s1.has_account(s2.accounts@.last().id),
    ensures
        ids_unique(s2.accounts@),
        s2.has_account(s2.accounts@.last().id),
        s2.account_at(s2.accounts@.last().id) == s1.accounts@.len(),
        forall|x: i64|
            x != s2.accounts@.last().id ==> s2.version_of(x) == s1.version_of(x) && s2.events_of(x)
                == s1.events_of(x) && s2.snapshot_of(x) == s1.snapshot_of(x),
{
    let id = s2.accounts@.last().id;
    let n = s1.accounts@.len() as int;
    assert forall|k: int| 0 <= k < n implies #[trigger] s2.accounts@[k] == s1.accounts@[k] by {}
    assert forall|k: int| 0 <= k < n implies s1.accounts@[k].id != id by {
        if s1.accounts@[k].id == id {
            assert(s1.has_account(id));
        }
    }
    assert(ids_unique(s2.accounts@));
    assert(s2.accounts@[n].id == id);
    assert(s2.has_account(id));
    lemma_account_at(s2, id);
    assert forall|x: i64|
        x != id implies s2.version_of(x) == s1.version_of(x) && s2.events_of(x) == s1.events_of(x)
        && s2.snapshot_of(x) == s1.snapshot_of(x) by {
        if s1.has_account(x) {
            lemma_account_at(s1, x);
            let j = s1.account_at(x);
            assert(s2.accounts@[j] == s1.accounts@[j]);
            assert(s2.has_account(x));
            lemma_account_at(s2, x);
            assert(s2.account_at(x) == j);
        } else {
            if s2.has_account(x) {
                let k = choose|k: int| 0 <= k < s2.accounts@.len() && s2.accounts@[k].id == x;
                assert(k != n);
                assert(s1.accounts@[k].id == x);
            }
        }
    }
}

/// Linear scan for an account record.
fn find_account(accounts: &Vec<StoredAccount>, id: i64) -> (r: Option<usize>)
    ensures
        r matches Some(i) ==> i < accounts@.len() && accounts@[i as int].id == id,
        r is Some <==> exists|i: int| 0 <= i < accounts@.len() && accounts@[i].id == id,
{
    let mut i: usize = 0;
    while i < accounts.len()
        invariant
            i <= accounts@.len(),
            forall|j: int| 0 <= j < i ==> accounts@[j].id != id,
        decreases accounts@.len() - i,
    {
        if accounts[i].id == id {
            return Some(i);
        }
        i = i + 1;
    }
    None
}

/// A store with no accounts yet: every account reads back as version 0 with
/// an empty log and no snapshot, exactly the state an account has before its
/// first event.
pub fn init() -> (store: EventStore)
    ensures
        store.wf(),
        forall|id: i64| store.version_of(id) == 0,
        forall|id: i64| store.events_of(id) == Seq::<CreditEvent>::empty(),
        forall|id: i64| store.snapshot_of(id) is None,
{
    let store = EventStore { accounts: Vec::new() };
    proof {
        assert(store.accounts@.len() == 0);
        assert forall|id: i64| !store.has_account(id) by {}
    }
    store
}

/// Atomically verify that the account's stored version equals
/// `expected_version`; if so, advance it to `version` and append `events` as
/// one all-or-nothing unit, writing `contract` as a snapshot when no snapshot
/// within `SNAPSHOT_INTERVAL` versions of `version` exists. On a version
/// mismatch nothing is appended and the caller learns that a concurrent
/// writer finished first. An empty batch writes nothing and succeeds.
pub fn save_events(
    store: &mut EventStore,
    aggregate: i64,
    expected_version: i64,
    version: i64,
    contract: &Contract,
    events: Vec<CreditEvent>,
) -> (r: Result<(), CreditError>)
    requires
        old(store).wf(),
        0 <= expected_version,
        version == expected_version + events@.len(),
        save_accepts(*old(store), aggregate, expected_version as int) ==> replay_ok(
            old(store).state_of(aggregate),
            events@,
        ) && contract@ == replay(old(store).state_of(aggregate), events@),
    ensures
        final(store).wf(),
        events@.len() == 0 ==> r is Ok && *final(store) == *old(store),
        events@.len() > 0 && save_accepts(*old(store), aggregate, expected_version as int) ==> {
            &&& r is Ok
            &&& final(store).version_of(aggregate) == version
            &&& final(store).events_of(aggregate) == old(store).events_of(aggregate) + events@
            &&& final(store).state_of(aggregate) == contract@
            &&& final(store).snapshot_of(aggregate) == (if snapshot_fresh(
                old(store).snapshot_of(aggregate),
                version,
            ) {
                old(store).snapshot_of(aggregate)
            } else {
                Some(contract@)
            })
        },
        events@.len() > 0 && !save_accepts(*old(store), aggregate, expected_version as int) ==> (r matches
            Err(e) && e == CreditError::ConcurrencyError && *final(store) == *old(store)),
        forall|other: i64|
            other != aggregate ==> final(store).version_of(other) == old(store).version_of(other)
                && final(store).events_of(other) == old(store).events_of(other)
                && final(store).snapshot_of(other) == old(store).snapshot_of(other),
{
    if events.len() == 0 {
        return Ok(());
    }
    let found = find_account(&store.accounts, aggregate);
    match found {
        None => {
            proof {
                assert(!old(store).has_account(aggregate));
            }
            if expected_version != 0 {
                return Err(CreditError::ConcurrencyError);
            }
            // First write to this account: its stored version reads as 0, so
            // the check passes and the record is created. No snapshot exists
            // yet, so one is written.
            let acc = StoredAccount {
                id: aggregate,
                version,
                events,
                snapshot: Some(contract.clone()),
            };
            store.accounts.push(acc);
            proof {
                let s1 = *old(store);
                let s2 = *store;
                assert(s2.accounts@.last().id == aggregate);
                lemma_obs_push(s1, s2);
                lemma_init_inv(aggregate);
                let evs = s2.accounts@.last().events@;
                lemma_replay_inv(init_view(aggregate), evs);
                assert(evs.take(contract@.version) =~= evs);
                assert(account_wf(s2.accounts@.last()));
                assert forall|i: int|
                    0 <= i < s2.accounts@.len() implies #[trigger] account_wf(
                    s2.accounts@[i],
                ) by {
                    if i < s1.accounts@.len() {
                        assert(account_wf(s1.accounts@[i]));
                    }
                }
                assert(s2.events_of(aggregate) =~= s1.events_of(aggregate) + evs);
            }
            Ok(())
        },
        Some(i) => {
            proof {
                assert(old(store).has_account(aggregate));
                lemma_account_at(*old(store), aggregate);
                assert(old(store).account_at(aggregate) == i as int);
            }
            if store.accounts[i].version != expected_version {
                return Err(CreditError::ConcurrencyError);
            }
            // The version check passed: advance the version, append the
            // events, and refresh the snapshot if the existing one is too
            // old.
            let mut acc = store.accounts.remove(i);
            let ghost old_events = acc.events@;
            acc.version = version;
            let mut evs = events;
            acc.events.append(&mut evs);
            let fresh = match &acc.snapshot {
                Some(c) => c.version() >= version - SNAPSHOT_INTERVAL,
                None => false,
            };
            if !fresh {
                acc.snapshot = Some(contract.clone());
            }
            store.accounts.insert(i, acc);
            proof {
                let s1 = *old(store);
                let s2 = *store;
                assert(s2.accounts@ =~= s1.accounts@.update(i as int, s2.accounts@[i as int]));
                lemma_obs_update(s1, s2, i as int);
                let rec = s2.accounts@[i as int];
                let all = rec.events@;
                assert(all == old_events + events@);
                assert(account_wf(s1.accounts@[i as int]));
                assert(s1.state_of(aggregate) == replay(init_view(aggregate), old_events));
                lemma_replay_app(init_view(aggregate), old_events, events@);
                lemma_init_inv(aggregate);
                lemma_replay_inv(init_view(aggregate), all);
                // the snapshot, old or new, is still a replay prefix
                match rec.snapshot {
                    Some(c) => {
                        if fresh {
                            assert(c@ == replay(
                                init_view(aggregate),
                                old_events.take(c@.version),
                            ));
                            assert(all.take(c@.version) =~= old_events.take(c@.version));
                        } else {
                            assert(c@ == contract@);
                            assert(all.take(c@.version) =~= all);
                        }
                    },
                    None => {},
                }
                assert(account_wf(rec));
                assert forall|k: int|
                    0 <= k < s2.accounts@.len() implies #[trigger] account_wf(
                    s2.accounts@[k],
                ) by {
                    if k != i as int {
                        assert(s2.accounts@[k] == s1.accounts@[k]);
                        assert(account_wf(s1.accounts@[k]));
                    }
                }
                assert(s2.events_of(aggregate) == all);
                assert(s2.state_of(aggregate) == contract@);
            }
            Ok(())
        },
    }
}

/// The latest snapshot of the account, if one was ever written. The returned
/// copy is a well-formed replay prefix of the account's log.
pub fn load_snapshot(id: i64, store: &EventStore) -> (r: Result<Option<Contract>, CreditError>)
    requires
        store.wf(),
    ensures
        r matches Ok(o) && (match (o, store.snapshot_of(id)) {
            (Some(c), Some(v)) => c@ == v && c@.inv(),
            (None, None) => true,
            _ => false,
        }),
{
    match find_account(&store.accounts, id) {
        None => {
            proof {
                assert(!store.has_account(id));
            }
            Ok(None)
        },
        Some(i) => {
            proof {
                lemma_account_at(*store, id);
                assert(store.account_at(id) == i as int);
                assert(account_wf(store.accounts@[i as int]));
            }
            match &store.accounts[i].snapshot {
                Some(c) => {
                    proof {
                        let rec = store.accounts@[i as int];
                        let evs = rec.events@;
                        let k = c@.version;
                        lemma_init_inv(id);
                        assert(evs =~= evs.take(k) + evs.skip(k));
                        lemma_replay_app(init_view(id), evs.take(k), evs.skip(k));
                        lemma_replay_inv(init_view(id), evs.take(k));
                    }
                    Ok(Some(c.clone()))
                },
                None => Ok(None),
            }
        },
    }
}

/// The events of the account with version strictly above `version`, in
/// ascending order: the log's suffix from index `version` on.
pub fn get_events(id: i64, version: i64, store: &EventStore) -> (r: Result<
    Vec<CreditEvent>,
    CreditError,
>)
    requires
        store.wf(),
        0 <= version,
    ensures
        r matches Ok(evts) && evts@ == (if version <= store.events_of(id).len() {
            store.events_of(id).skip(version as int)
        } else {
            Seq::<CreditEvent>::empty()
        }),
{
    let mut out: Vec<CreditEvent> = Vec::new();
    match find_account(&store.accounts, id) {
        None => {
            proof {
                assert(!store.has_account(id));
                assert(store.events_of(id).len() == 0);
                if version == 0 {
                    assert(store.events_of(id).skip(0) =~= Seq::<CreditEvent>::empty());
                }
            }
            Ok(out)
        },
        Some(i) => {
            proof {
                lemma_account_at(*store, id);
                assert(store.account_at(id) == i as int);
                assert(account_wf(store.accounts@[i as int]));
            }
            let n = store.accounts[i].events.len();
            let mut j: usize = if version <= store.accounts[i].version {
                version as usize
            } else {
                n
            };
            let ghost start = j as int;
            while j < n
                invariant
                    store.wf(),
                    store.has_account(id),
                    store.account_at(id) == i as int,
                    i < store.accounts@.len(),
                    n == store.accounts@[i as int].events@.len(),
                    0 <= start <= j <= n,
                    out@ == store.accounts@[i as int].events@.subrange(start, j as int),
                decreases n - j,
            {
                out.push(store.accounts[i].events[j]);
                proof {
                    let evs = store.accounts@[i as int].events@;
                    assert(out@ =~= evs.subrange(start, j as int + 1));
                }
                j = j + 1;
            }
            proof {
                let evs = store.events_of(id);
                if version <= evs.len() {
                    assert(start == version as int);
                    assert(evs.subrange(start, n as int) =~= evs.skip(version as int));
                } else {
                    assert(start == n as int);
                    assert(evs.subrange(start, n as int) =~= Seq::<CreditEvent>::empty());
                }
            }
            Ok(out)
        },
    }
}

/// Apply to `c` every stored event newer than `c`'s own version. `c` must be
/// a replay prefix of the account's log (a loaded snapshot, a fresh account,
/// or a previously loaded state); afterwards it is the authoritative state.
pub fn load_into(c: &mut Contract, store: &EventStore) -> (r: Result<(), CreditError>)
    requires
        store.wf(),
        0 <= old(c)@.version <= store.events_of(old(c)@.id).len(),
        old(c)@ == replay(
            init_view(old(c)@.id),
            store.events_of(old(c)@.id).take(old(c)@.version),
        ),
    ensures
        r is Ok,
        final(c)@ == store.state_of(old(c)@.id),
        final(c)@.inv(),
{
    let id = c.id();
    let version = c.version();
    let evts = match get_events(id, version, store) {
        Ok(evts) => evts,
        Err(e) => return Err(e),
    };
    let ghost whole = store.events_of(id);
    let ghost start = c@;
    proof {
        lemma_init_inv(id);
        assert(whole =~= whole.take(version as int) + whole.skip(version as int));
        lemma_replay_app(init_view(id), whole.take(version as int), whole.skip(version as int));
        if store.has_account(id) {
            lemma_account_at(*store, id);
            assert(account_wf(store.accounts@[store.account_at(id)]));
            assert(replay_ok(init_view(id), whole));
        } else {
            assert(whole.len() == 0);
        }
        lemma_replay_inv(init_view(id), whole.take(version as int));
        assert(start.inv());
        assert(replay_ok(start, evts@));
        assert(store.state_of(id) == replay(start, evts@));
    }
    let mut j: usize = 0;
    while j < evts.len()
        invariant
            replay_ok(start, evts@),
            j <= evts@.len(),
            c@ == replay(start, evts@.take(j as int)),
            c@.inv(),
        decreases evts@.len() - j,
    {
        proof {
            assert(evts@ =~= evts@.take(j as int) + evts@.skip(j as int));
            lemma_replay_app(start, evts@.take(j as int), evts@.skip(j as int));
            assert(evts@.skip(j as int)[0] == evts@[j as int]);
        }
        c.apply(&evts[j]);
        proof {
            assert(evts@.take(j as int).push(evts@[j as int]) =~= evts@.take(j as int + 1));
            lemma_replay_snoc(start, evts@.take(j as int), evts@[j as int]);
        }
        j = j + 1;
    }
    proof {
        assert(evts@.take(evts@.len() as int) =~= evts@);
    }
    Ok(())
}

/// Load the authoritative state of an account: the latest snapshot (or a
/// fresh zero state when none exists) combined with every newer event. The
/// result always equals the full replay of the account's log from version 0.
pub fn load(id: i64, store: &EventStore) -> (r: Result<Contract, CreditError>)
    requires
        store.wf(),
    ensures
        r matches Ok(c) && c@ == store.state_of(id) && c@.inv() && c@.id == id && c@.version
            == store.events_of(id).len() && c@.version == store.version_of(id),
{
    let mut c = match load_snapshot(id, store) {
        Ok(Some(c)) => c,
        Ok(None) => Contract::new(id),
        Err(e) => {
            return Err(e);
        },
    };
    proof {
        lemma_init_inv(id);
        match store.snapshot_of(id) {
            Some(v) => {
                lemma_account_at(*store, id);
                assert(account_wf(store.accounts@[store.account_at(id)]));
            },
            None => {
                assert(c@ == init_view(id));
                assert(store.events_of(id).take(0) =~= Seq::<CreditEvent>::empty());
            },
        }
        if store.has_account(id) {
            lemma_account_at(*store, id);
            assert(account_wf(store.accounts@[store.account_at(id)]));
        }
        lemma_replay_inv(init_view(id), store.events_of(id));
    }
    match load_into(&mut c, store) {
        Ok(()) => Ok(c),
        Err(e) => Err(e),
    }
}

/// What a batch decides from index `i` on: every event the commands produce,
/// in order, and the state after all of them - or the first validation
/// error, which aborts the whole batch.
pub open spec fn run_batch_from(
    v: AccountView,
    cmds: Seq<CreditCommand>,
    now: Timestamp,
    i: int,
) -> Result<(Seq<CreditEvent>, AccountView), CreditError>
    decreases cmds.len() - i,
{
    if i < 0 || i >= cmds.len() {
        Ok((Seq::empty(), v))
    } else {
        match spec_handle(v, cmds[i], now) {
            Err(e) => Err(e),
            Ok(evts) => match run_batch_from(replay(v, evts), cmds, now, i + 1) {
                Err(e) => Err(e),
                Ok(p) => Ok((evts + p.0, p.1)),
            },
        }
    }
}

/// What a whole batch decides.
pub open spec fn run_batch(v: AccountView, cmds: Seq<CreditCommand>, now: Timestamp) -> Result<
    (Seq<CreditEvent>, AccountView),
    CreditError,
> {
    run_batch_from(v, cmds, now, 0)
}

/// Every command of the batch is admissible at the state it meets.
pub open spec fn batch_admissible_from(
    v: AccountView,
    cmds: Seq<CreditCommand>,
    now: Timestamp,
    i: int,
) -> bool
    decreases cmds.len() - i,
{
    i < 0 || i >= cmds.len() || (cmd_admissible(v, cmds[i]) && (spec_handle(v, cmds[i], now) matches
    Ok(evts) ==> batch_admissible_from(replay(v, evts), cmds, now, i + 1)))
}

/// Every command of the batch is admissible, each at the state left by its
/// predecessors.
pub open spec fn batch_admissible(v: AccountView, cmds: Seq<CreditCommand>, now: Timestamp) -> bool {
    batch_admissible_from(v, cmds, now, 0)
}

/// An accepted batch replays cleanly: its events are applicable in order, and
/// the state it decides is exactly their replay.
pub proof fn lemma_run_batch(v: AccountView, cmds: Seq<CreditCommand>, now: Timestamp, i: int)
    requires
        v.inv(),
        batch_admissible_from(v, cmds, now, i),
    ensures
        run_batch_from(v, cmds, now, i) matches Ok(p) ==> replay_ok(v, p.0) && p.1 == replay(
            v,
            p.0,
        ) && p.1.inv() && p.1.id == v.id && p.1.version == v.version + p.0.len(),
    decreases cmds.len() - i,
{
    if 0 <= i < cmds.len() {
        match spec_handle(v, cmds[i], now) {
            Err(e) => {},
            Ok(evts) => {
                lemma_handle_ok(v, cmds[i], now);
                let w = replay(v, evts);
                lemma_replay_inv(v, evts);
                lemma_run_batch(w, cmds, now, i + 1);
                match run_batch_from(w, cmds, now, i + 1) {
                    Err(e) => {},
                    Ok(p) => {
                        lemma_replay_app(v, evts, p.0);
                    },
                }
            },
        }
    }
}

/// Validate one command and, on success, apply its events immediately. On
/// failure the exact validation error is returned and the account is left
/// untouched.
pub fn run_cmd(c: &mut Contract, cmd: CreditCommand, now: Timestamp) -> (r: Result<
    Vec<CreditEvent>,
    CreditError,
>)
    requires
        old(c)@.inv(),
        cmd_admissible(old(c)@, cmd),
    ensures
        final(c)@.inv(),
        final(c)@.id == old(c)@.id,
        match spec_handle(old(c)@, cmd, now) {
            Ok(evts) => {
                &&& r matches Ok(v) && v@ == evts
                &&& replay_ok(old(c)@, evts)
                &&& final(c)@ == replay(old(c)@, evts)
                &&& final(c)@.version == old(c)@.version + evts.len()
            },
            Err(e) => (r matches Err(e2) && e2 == e && *final(c) == *old(c)),
        },
{
    let events = match c.handle(&cmd, now) {
        Ok(evts) => evts,
        Err(e) => {
            return Err(e);
        },
    };
    proof {
        lemma_handle_ok(old(c)@, cmd, now);
    }
    let ghost start = c@;
    let ghost evseq = events@;
    let mut j: usize = 0;
    while j < events.len()
        invariant
            replay_ok(start, evseq),
            evseq == events@,
            j <= events@.len(),
            c@ == replay(start, evseq.take(j as int)),
            c@.inv(),
        decreases events@.len() - j,
    {
        proof {
            assert(evseq =~= evseq.take(j as int) + evseq.skip(j as int));
            lemma_replay_app(start, evseq.take(j as int), evseq.skip(j as int));
            assert(evseq.skip(j as int)[0] == evseq[j as int]);
        }
        c.apply(&events[j]);
        proof {
            assert(evseq.take(j as int).push(evseq[j as int]) =~= evseq.take(j as int + 1));
            lemma_replay_snoc(start, evseq.take(j as int), evseq[j as int]);
        }
        j = j + 1;
    }
    proof {
        assert(evseq.take(events@.len() as int) =~= evseq);
        lemma_replay_inv(start, evseq);
    }
    Ok(events)
}

/// Run a batch of commands against a freshly loaded account and persist the
/// result as one unit. Commands are validated and applied in order against
/// the in-memory state; a validation error aborts the whole batch, leaving
/// both the account and the store untouched. On success the accumulated
/// events are saved with the version check against the version the account
/// was loaded at; a concurrent writer who finished first turns the save into
/// a `ConcurrencyError`, again leaving both untouched, and the caller is
/// expected to reload and retry.
pub fn run_and_store_batch(
    c: &mut Contract,
    cmds: Vec<CreditCommand>,
    now: Timestamp,
    store: &mut EventStore,
) -> (r: Result<(), CreditError>)
    requires
        old(c)@.inv(),
        old(store).wf(),
        batch_admissible(old(c)@, cmds@, now),
        old(c)@.version == old(store).version_of(old(c)@.id) ==> old(c)@ == old(store).state_of(
            old(c)@.id,
        ),
    ensures
        final(c)@.inv(),
        final(store).wf(),
        forall|other: i64|
            other != old(c)@.id ==> final(store).version_of(other) == old(store).version_of(other)
                && final(store).events_of(other) == old(store).events_of(other)
                && final(store).snapshot_of(other) == old(store).snapshot_of(other),
        match run_batch(old(c)@, cmds@, now) {
            Err(e) => (r matches Err(e2) && e2 == e && *final(c) == *old(c) && *final(store)
                == *old(store)),
            Ok(p) => {
                &&& replay_ok(old(c)@, p.0)
                &&& p.1 == replay(old(c)@, p.0)
                &&& if p.0.len() == 0 {
                    &&& r is Ok
                    &&& final(c)@ == p.1
                    &&& *final(store) == *old(store)
                } else if save_accepts(*old(store), old(c)@.id, old(c)@.version) {
                    &&& r is Ok
                    &&& final(c)@ == p.1
                    &&& final(store).events_of(old(c)@.id) == old(store).events_of(old(c)@.id)
                        + p.0
                    &&& final(store).version_of(old(c)@.id) == old(c)@.version + p.0.len()
                    &&& final(store).state_of(old(c)@.id) == p.1
                } else {
                    &&& r matches Err(e) && e == CreditError::ConcurrencyError
                    &&& *final(c) == *old(c)
                    &&& *final(store) == *old(store)
                }
            },
        },
{
    let ghost v0 = c@;
    proof {
        lemma_run_batch(v0, cmds@, now, 0);
    }
    let mut work = c.clone();
    let mut all_events: Vec<CreditEvent> = Vec::new();
    let expected = c.version();
    let mut j: usize = 0;
    while j < cmds.len()
        invariant
            *c == *old(c),
            *store == *old(store),
            store.wf(),
            v0 == old(c)@,
            v0.inv(),
            work@.inv(),
            work@.id == v0.id,
            j <= cmds@.len(),
            batch_admissible_from(work@, cmds@, now, j as int),
            replay_ok(v0, all_events@),
            work@ == replay(v0, all_events@),
            work@.version == v0.version + all_events@.len(),
            match run_batch_from(work@, cmds@, now, j as int) {
                Ok(p) => run_batch_from(v0, cmds@, now, 0) == Ok::<
                    (Seq<CreditEvent>, AccountView),
                    CreditError,
                >((all_events@ + p.0, p.1)),
                Err(e) => run_batch_from(v0, cmds@, now, 0) == Err::<
                    (Seq<CreditEvent>, AccountView),
                    CreditError,
                >(e),
            },
        decreases cmds@.len() - j,
    {
        let ghost work_before = work@;
        let ghost all_before = all_events@;
        match run_cmd(&mut work, cmds[j], now) {
            Ok(mut evts) => {
                proof {
                    let evs = spec_handle(work_before, cmds@[j as int], now)->Ok_0;
                    assert(evts@ == evs);
                    lemma_replay_app(v0, all_before, evs);
                    match run_batch_from(work@, cmds@, now, j as int + 1) {
                        Ok(p) => {
                            assert(run_batch_from(work_before, cmds@, now, j as int) == Ok::<
                                (Seq<CreditEvent>, AccountView),
                                CreditError,
                            >((evs + p.0, p.1)));
                            assert(all_before + (evs + p.0) =~= (all_before + evs) + p.0);
                        },
                        Err(e) => {},
                    }
                }
                all_events.append(&mut evts);
            },
            Err(e) => {
                proof {
                    assert(run_batch_from(work_before, cmds@, now, j as int) == Err::<
                        (Seq<CreditEvent>, AccountView),
                        CreditError,
                    >(e));
                }
                return Err(e);
            },
        }
        j = j + 1;
    }
    proof {
        assert(run_batch_from(work@, cmds@, now, cmds@.len() as int) == Ok::<
            (Seq<CreditEvent>, AccountView),
            CreditError,
        >((Seq::empty(), work@)));
        assert(all_events@ + Seq::<CreditEvent>::empty() =~= all_events@);
    }
    let newv = work.version();
    let aggregate = c.id();
    match save_events(store, aggregate, expected, newv, &work, all_events) {
        Ok(()) => {
            *c = work;
            Ok(())
        },
        Err(e) => Err(e),
    }
}

/// Run one command and persist its events: a batch of one.
pub fn run_and_store(
    c: &mut Contract,
    cmd: CreditCommand,
    now: Timestamp,
    store: &mut EventStore,
) -> (r: Result<(), CreditError>)
    requires
        old(c)@.inv(),
        old(store).wf(),
        cmd_admissible(old(c)@, cmd),
        old(c)@.version == old(store).version_of(old(c)@.id) ==> old(c)@ == old(store).state_of(
            old(c)@.id,
        ),
    ensures
        final(c)@.inv(),
        final(store).wf(),
        forall|other: i64|
            other != old(c)@.id ==> final(store).version_of(other) == old(store).version_of(other)
                && final(store).events_of(other) == old(store).events_of(other)
                && final(store).snapshot_of(other) == old(store).snapshot_of(other),
        match run_batch(old(c)@, seq![cmd], now) {
            Err(e) => (r matches Err(e2) && e2 == e && *final(c) == *old(c) && *final(store)
                == *old(store)),
            Ok(p) => {
                &&& replay_ok(old(c)@, p.0)
                &&& p.1 == replay(old(c)@, p.0)
                &&& if p.0.len() == 0 {
                    &&& r is Ok
                    &&& final(c)@ == p.1
                    &&& *final(store) == *old(store)
                } else if save_accepts(*old(store), old(c)@.id, old(c)@.version) {
                    &&& r is Ok
                    &&& final(c)@ == p.1
                    &&& final(store).events_of(old(c)@.id) == old(store).events_of(old(c)@.id)
                        + p.0
                    &&& final(store).version_of(old(c)@.id) == old(c)@.version + p.0.len()
                    &&& final(store).state_of(old(c)@.id) == p.1
                } else {
                    &&& r matches Err(e) && e == CreditError::ConcurrencyError
                    &&& *final(c) == *old(c)
                    &&& *final(store) == *old(store)
                }
            },
        },
{
    let mut cmds: Vec<CreditCommand> = Vec::new();
    cmds.push(cmd);
    proof {
        assert(cmds@ =~= seq![cmd]);
        assert(cmds@[0] == cmd);
        assert(cmds@.len() == 1);
        let v = old(c)@;
        if spec_handle(v, cmd, now) is Ok {
            let evts = spec_handle(v, cmd, now)->Ok_0;
            assert(batch_admissible_from(replay(v, evts), cmds@, now, 1));
        }
        assert(batch_admissible_from(v, cmds@, now, 0));
    }
    run_and_store_batch(c, cmds, now, store)
}

} // verus!
