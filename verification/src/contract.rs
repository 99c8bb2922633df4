//! The aggregate: one account's state, the commands it accepts, the events it
//! emits, and the pure state machine (`handle` validates a command into
//! events, `apply` folds one event into the state).

use vstd::prelude::*;

verus! {

/// Credits are counted in whole units; balances are signed but never go
/// negative while the ledger invariant holds.
pub type Amount = i64;

/// Reservation ids are opaque 128-bit tokens chosen by the caller.
pub type ReservationId = u128;

/// Timestamps are seconds; the clock is always an explicit argument, so the
/// state machine itself is deterministic.
pub type Timestamp = i64;

/// Credits earmarked against a future spend. While a reservation is active it
/// sits in `Contract::reservations`; once allocated it moves to
/// `Contract::allocations` and `allocated_time` is set.
#[derive(Clone, Copy, Debug)]
pub struct CreditReservation {
    pub amount: Amount,
    pub created_time: Timestamp,
    pub allocated_time: Option<Timestamp>,
}

/// Why a command was rejected, or why a store operation failed.
#[derive(Debug)]
pub enum CreditError {
    NotEnoughMoney { has: Amount, needs: Amount },
    ReservationAlreadyExists,
    ReservationNotFound,
    AllocationNotFound,
    ConcurrencyError,
    StorageError(String),
    DataError(String),
}

/// An immutable fact: something that already happened to an account.
#[derive(Clone, Copy, Debug)]
pub enum CreditEvent {
    CreditsAdded(Amount),
    CreditsReserved { amount: Amount, id: ReservationId, timestamp: Timestamp },
    CreditsAllocated { id: ReservationId, amount: Amount, timestamp: Timestamp },
    ReservationCancelled(ReservationId, Amount),
    ReservationExpired { id: ReservationId, amount_freed: Amount, available: Amount },
    AllocationFreed { id: ReservationId, amount: Amount, available: Amount },
    ReservationSpent { id: ReservationId, amount: Amount },
}

/// An intent: a request to change an account, which may be rejected.
#[derive(Clone, Copy, Debug)]
pub enum CreditCommand {
    AddCredits(Amount),
    ReserveCredits(Amount, ReservationId),
    AllocateCredits(ReservationId),
    CancelReservation(ReservationId),
    EvictExpiredReservations(i64),
    FreeAllocation(ReservationId),
    SpendReservation(ReservationId),
}

/// One account's full state, rebuilt from its event history.
pub struct Contract {
    id: i64,
    version: i64,
    amount: Amount,
    spent: Amount,
    reservations: Vec<(ReservationId, CreditReservation)>,
    allocations: Vec<(ReservationId, CreditReservation)>,
}

/// The mathematical model of an account: unbounded integers for the balances
/// and plain sequences for the two entry tables, in insertion order.
#[verifier::ext_equal]
pub struct AccountView {
    pub id: i64,
    pub version: int,
    pub amount: int,
    pub spent: int,
    pub reservations: Seq<(ReservationId, CreditReservation)>,
    pub allocations: Seq<(ReservationId, CreditReservation)>,
}

impl View for Contract {
    type V = AccountView;

    closed spec fn view(&self) -> AccountView {
        AccountView {
            id: self.id,
            version: self.version as int,
            amount: self.amount as int,
            spent: self.spent as int,
            reservations: self.reservations@,
            allocations: self.allocations@,
        }
    }
}

/// The state of an account that has seen no events yet.
pub open spec fn init_view(id: i64) -> AccountView {
    AccountView {
        id: id,
        version: 0,
        amount: 0,
        spent: 0,
        reservations: Seq::empty(),
        allocations: Seq::empty(),
    }
}

/// No reservation id occurs twice in one table.
pub open spec fn keys_unique(s: Seq<(ReservationId, CreditReservation)>) -> bool {
    forall|i: int, j: int| 0 <= i < j < s.len() ==> s[i].0 != s[j].0
}

/// The id has an entry in the table.
pub open spec fn has_key(s: Seq<(ReservationId, CreditReservation)>, id: ReservationId) -> bool {
    exists|i: int| 0 <= i < s.len() && s[i].0 == id
}

/// The index of the id's entry (meaningful only when `has_key` holds and the
/// keys are unique).
pub open spec fn key_idx(s: Seq<(ReservationId, CreditReservation)>, id: ReservationId) -> int {
    choose|i: int| 0 <= i < s.len() && s[i].0 == id
}

/// The id's entry.
pub open spec fn entry_of(
    s: Seq<(ReservationId, CreditReservation)>,
    id: ReservationId,
) -> CreditReservation {
    s[key_idx(s, id)].1
}

/// The sum of the entries' amounts, as an unbounded integer.
pub open spec fn sum_amounts(s: Seq<(ReservationId, CreditReservation)>) -> int
    decreases s.len(),
{
    if s.len() == 0 {
        0
    } else {
        sum_amounts(s.drop_last()) + s.last().1.amount
    }
}

/// Every entry's amount is nonnegative.
pub open spec fn amounts_nonneg(s: Seq<(ReservationId, CreditReservation)>) -> bool {
    forall|i: int| 0 <= i < s.len() ==> #[trigger] s[i].1.amount >= 0
}

impl AccountView {
    /// Everything the account has ever been credited with: what is available,
    /// what is held by reservations and allocations, and what was spent.
    pub open spec fn total(self) -> int {
        self.amount + sum_amounts(self.reservations) + sum_amounts(self.allocations) + self.spent
    }

    /// Well-formedness of an account: balances are nonnegative, an id is
    /// active in at most one table and at most once, and the whole balance
    /// fits the machine representation.
    pub open spec fn inv(self) -> bool {
        &&& self.version >= 0
        &&& self.amount >= 0
        &&& self.spent >= 0
        &&& amounts_nonneg(self.reservations)
        &&& amounts_nonneg(self.allocations)
        &&& keys_unique(self.reservations)
        &&& keys_unique(self.allocations)
        &&& forall|id: ReservationId|
            has_key(self.reservations, id) ==> !has_key(self.allocations, id)
        &&& self.total() <= i64::MAX
    }
}

/// An event may only ever be applied to the state from which it was
/// legitimately produced; this predicate says what `apply` demands of that
/// state. The version bound keeps the version counter representable after the
/// increment, and the amount bounds keep every balance representable.
pub open spec fn applicable(v: AccountView, e: CreditEvent) -> bool {
    &&& v.version < i64::MAX
    &&& match e {
        CreditEvent::CreditsAdded(a) => 0 <= a && v.total() + a <= i64::MAX,
        CreditEvent::CreditsReserved { amount, id, timestamp } => {
            &&& 0 <= amount <= v.amount
            &&& !has_key(v.reservations, id)
            &&& !has_key(v.allocations, id)
        },
        CreditEvent::CreditsAllocated { id, amount, timestamp } => {
            &&& has_key(v.reservations, id)
            &&& amount == entry_of(v.reservations, id).amount
        },
        CreditEvent::ReservationCancelled(id, amount) => {
            &&& has_key(v.reservations, id)
            &&& amount == entry_of(v.reservations, id).amount
        },
        CreditEvent::ReservationExpired { id, amount_freed, available } => {
            &&& has_key(v.reservations, id)
            &&& amount_freed == entry_of(v.reservations, id).amount
            &&& available == v.amount + amount_freed
        },
        CreditEvent::AllocationFreed { id, amount, available } => {
            &&& has_key(v.allocations, id)
            &&& amount == entry_of(v.allocations, id).amount
            &&& available == v.amount + amount
        },
        CreditEvent::ReservationSpent { id, amount } => {
            &&& has_key(v.reservations, id)
            &&& amount == entry_of(v.reservations, id).amount
        },
    }
}

/// The state after one event: the version rises by exactly one and the
/// balances move as the event records.
pub open spec fn apply_event(v: AccountView, e: CreditEvent) -> AccountView {
    let b = AccountView { version: v.version + 1, ..v };
    match e {
        CreditEvent::CreditsAdded(a) => AccountView { amount: v.amount + a, ..b },
        CreditEvent::CreditsReserved { amount, id, timestamp } => AccountView {
            amount: v.amount - amount,
            reservations: v.reservations.push(
                (id, CreditReservation { amount, created_time: timestamp, allocated_time: None }),
            ),
            ..b
        },
        CreditEvent::CreditsAllocated { id, amount, timestamp } => AccountView {
            reservations: v.reservations.remove(key_idx(v.reservations, id)),
            allocations: v.allocations.push(
                (
                    id,
                    CreditReservation {
                        amount: entry_of(v.reservations, id).amount,
                        created_time: entry_of(v.reservations, id).created_time,
                        allocated_time: Some(timestamp),
                    },
                ),
            ),
            ..b
        },
        CreditEvent::ReservationCancelled(id, amount) => AccountView {
            amount: v.amount + amount,
            reservations: v.reservations.remove(key_idx(v.reservations, id)),
            ..b
        },
        CreditEvent::ReservationExpired { id, amount_freed, available } => AccountView {
            amount: v.amount + amount_freed,
            reservations: v.reservations.remove(key_idx(v.reservations, id)),
            ..b
        },
        CreditEvent::AllocationFreed { id, amount, available } => AccountView {
            amount: v.amount + amount,
            allocations: v.allocations.remove(key_idx(v.allocations, id)),
            ..b
        },
        CreditEvent::ReservationSpent { id, amount } => AccountView {
            spent: v.spent + amount,
            reservations: v.reservations.remove(key_idx(v.reservations, id)),
            ..b
        },
    }
}

/// The state after a whole event sequence, applied in order.
pub open spec fn replay(v: AccountView, evts: Seq<CreditEvent>) -> AccountView
    decreases evts.len(),
{
    if evts.len() == 0 {
        v
    } else {
        replay(apply_event(v, evts[0]), evts.skip(1))
    }
}

/// Every event of the sequence is applicable at the state it meets.
pub open spec fn replay_ok(v: AccountView, evts: Seq<CreditEvent>) -> bool
    decreases evts.len(),
{
    evts.len() == 0 || (applicable(v, evts[0]) && replay_ok(apply_event(v, evts[0]), evts.skip(1)))
}

/// The sum of all credits ever added by the sequence.
pub open spec fn credits_added(evts: Seq<CreditEvent>) -> int
    decreases evts.len(),
{
    if evts.len() == 0 {
        0
    } else {
        (match evts[0] {
            CreditEvent::CreditsAdded(a) => a as int,
            _ => 0,
        }) + credits_added(evts.skip(1))
    }
}

/// A reservation created at `created_time` has outlived `age` seconds at
/// `now`.
pub open spec fn expires(r: CreditReservation, age: i64, now: i64) -> bool {
    r.created_time + age < now
}

/// The expiry events an eviction produces for the entries of `s` from index
/// `i` on, given that `avail` credits are available before index `i` is
/// reached. Each event carries the available amount as it stands once that
/// entry is freed, so the field agrees with replay.
pub open spec fn evict_from(
    s: Seq<(ReservationId, CreditReservation)>,
    age: i64,
    now: i64,
    avail: int,
    i: int,
) -> Seq<CreditEvent>
    decreases s.len() - i,
{
    if i < 0 || i >= s.len() {
        Seq::empty()
    } else if expires(s[i].1, age, now) {
        seq![
            CreditEvent::ReservationExpired {
                id: s[i].0,
                amount_freed: s[i].1.amount,
                available: (avail + s[i].1.amount) as i64,
            },
        ] + evict_from(s, age, now, avail + s[i].1.amount, i + 1)
    } else {
        evict_from(s, age, now, avail, i + 1)
    }
}

/// What `handle` decides for each command: either the events to append, or
/// the exact validation error.
pub open spec fn spec_handle(v: AccountView, cmd: CreditCommand, now: i64) -> Result<
    Seq<CreditEvent>,
    CreditError,
> {
    match cmd {
        CreditCommand::AddCredits(a) => Ok(seq![CreditEvent::CreditsAdded(a)]),
        CreditCommand::ReserveCredits(a, id) => if v.amount - a < 0 {
            Err(CreditError::NotEnoughMoney { has: v.amount as i64, needs: (a - v.amount) as i64 })
        } else if has_key(v.reservations, id) || has_key(v.allocations, id) {
            Err(CreditError::ReservationAlreadyExists)
        } else {
            Ok(seq![CreditEvent::CreditsReserved { amount: a, id: id, timestamp: now }])
        },
        CreditCommand::AllocateCredits(id) => if has_key(v.reservations, id) {
            Ok(
                seq![
                    CreditEvent::CreditsAllocated {
                        id: id,
                        amount: entry_of(v.reservations, id).amount,
                        timestamp: now,
                    },
                ],
            )
        } else {
            Err(CreditError::ReservationNotFound)
        },
        CreditCommand::CancelReservation(id) => if has_key(v.reservations, id) {
            Ok(
                seq![
                    CreditEvent::ReservationCancelled(id, entry_of(v.reservations, id).amount),
                ],
            )
        } else {
            Err(CreditError::ReservationNotFound)
        },
        CreditCommand::EvictExpiredReservations(age) => Ok(
            evict_from(v.reservations, age, now, v.amount, 0),
        ),
        CreditCommand::FreeAllocation(id) => if has_key(v.allocations, id) {
            Ok(
                seq![
                    CreditEvent::AllocationFreed {
                        id: id,
                        amount: entry_of(v.allocations, id).amount,
                        available: (v.amount + entry_of(v.allocations, id).amount) as i64,
                    },
                ],
            )
        } else {
            Err(CreditError::AllocationNotFound)
        },
        CreditCommand::SpendReservation(id) => if has_key(v.reservations, id) {
            Ok(
                seq![
                    CreditEvent::ReservationSpent {
                        id: id,
                        amount: entry_of(v.reservations, id).amount,
                    },
                ],
            )
        } else {
            Err(CreditError::ReservationNotFound)
        },
    }
}

/// The produced events match the decision: same success or failure, same
/// events in the same order, same error.
pub open spec fn handle_result_matches(
    r: Result<Vec<CreditEvent>, CreditError>,
    s: Result<Seq<CreditEvent>, CreditError>,
) -> bool {
    match (r, s) {
        (Ok(v), Ok(sq)) => v@ == sq,
        (Err(a), Err(b)) => a == b,
        _ => false,
    }
}

/// What a caller must secure before running a command: nonnegative amounts
/// where credits enter the books, and headroom in the version counter and the
/// total balance. These are machine limits; every other failure is a
/// validation error, not a precondition.
pub open spec fn cmd_admissible(v: AccountView, cmd: CreditCommand) -> bool {
    match cmd {
        CreditCommand::AddCredits(a) => 0 <= a && v.total() + a <= i64::MAX && v.version + 1
            <= i64::MAX,
        CreditCommand::ReserveCredits(a, _) => 0 <= a && v.version + 1 <= i64::MAX,
        CreditCommand::EvictExpiredReservations(_) => v.version + v.reservations.len()
            <= i64::MAX,
        _ => v.version + 1 <= i64::MAX,
    }
}

pub proof fn lemma_sum_nonneg(s: Seq<(ReservationId, CreditReservation)>)
    requires
        amounts_nonneg(s),
    ensures
        sum_amounts(s) >= 0,
    decreases s.len(),
{
    if s.len() > 0 {
        assert(amounts_nonneg(s.drop_last()));
        lemma_sum_nonneg(s.drop_last());
        assert(s.last().1.amount >= 0);
    }
}

pub proof fn lemma_sum_push(s: Seq<(ReservationId, CreditReservation)>, p: (ReservationId, CreditReservation))
    ensures
        sum_amounts(s.push(p)) == sum_amounts(s) + p.1.amount,
{
    assert(s.push(p).drop_last() =~= s);
    assert(s.push(p).last() == p);
}

pub proof fn lemma_sum_app(a: Seq<(ReservationId, CreditReservation)>, b: Seq<(ReservationId, CreditReservation)>)
    ensures
        sum_amounts(a + b) == sum_amounts(a) + sum_amounts(b),
    decreases b.len(),
{
    if b.len() == 0 {
        assert(a + b =~= a);
    } else {
        assert((a + b).drop_last() =~= a + b.drop_last());
        assert((a + b).last() == b.last());
        lemma_sum_app(a, b.drop_last());
    }
}

pub proof fn lemma_sum_remove(s: Seq<(ReservationId, CreditReservation)>, i: int)
    requires
        0 <= i < s.len(),
    ensures
        sum_amounts(s.remove(i)) == sum_amounts(s) - s[i].1.amount,
    decreases s.len(),
{
    s.remove_ensures(i);
    if i == s.len() - 1 {
        assert(s.remove(i) =~= s.drop_last());
    } else {
        s.drop_last().remove_ensures(i);
        assert(s.remove(i).drop_last() =~= s.drop_last().remove(i));
        assert(s.remove(i).last() == s.last());
        lemma_sum_remove(s.drop_last(), i);
    }
}

/// The witness index of a present key, pinned down by key uniqueness.
pub proof fn lemma_key_idx(s: Seq<(ReservationId, CreditReservation)>, id: ReservationId)
    requires
        keys_unique(s),
        has_key(s, id),
    ensures
        0 <= key_idx(s, id) < s.len(),
        s[key_idx(s, id)].0 == id,
        forall|j: int| 0 <= j < s.len() && s[j].0 == id ==> j == key_idx(s, id),
{
    let i = choose|i: int| 0 <= i < s.len() && s[i].0 == id;
    assert(s[i].0 == id);
}

/// Removing a key's entry: the key is gone, every other key keeps its entry,
/// and uniqueness and nonnegativity survive.
pub proof fn lemma_remove_key(s: Seq<(ReservationId, CreditReservation)>, id: ReservationId)
    requires
        keys_unique(s),
        has_key(s, id),
    ensures
        ({
            let t = s.remove(key_idx(s, id));
            &&& t.len() == s.len() - 1
            &&& keys_unique(t)
            &&& !has_key(t, id)
            &&& forall|k: ReservationId| k != id ==> has_key(t, k) == has_key(s, k)
            &&& forall|k: ReservationId|
                k != id && has_key(s, k) ==> #[trigger] entry_of(t, k) == entry_of(s, k)
            &&& (amounts_nonneg(s) ==> amounts_nonneg(t))
        }),
{
    let i = key_idx(s, id);
    lemma_key_idx(s, id);
    s.remove_ensures(i);
    let t = s.remove(i);
    assert forall|j: int| 0 <= j < t.len() implies #[trigger] t[j] == (if j < i {
        s[j]
    } else {
        s[j + 1]
    }) by {}
    assert(keys_unique(t));
    assert forall|j: int| 0 <= j < t.len() implies t[j].0 != id by {}
    assert(!has_key(t, id));
    assert forall|k: ReservationId| k != id && has_key(s, k) implies has_key(t, k) by {
        let j = key_idx(s, k);
        lemma_key_idx(s, k);
        if j < i {
            assert(t[j].0 == k);
        } else {
            assert(j > i);
            assert(t[j - 1].0 == k);
        }
    }
    assert forall|k: ReservationId| k != id && has_key(t, k) implies has_key(s, k) by {
        let j = choose|j: int| 0 <= j < t.len() && t[j].0 == k;
        if j < i {
            assert(s[j].0 == k);
        } else {
            assert(s[j + 1].0 == k);
        }
    }
    assert forall|k: ReservationId| k != id && has_key(s, k) implies #[trigger] entry_of(t, k)
        == entry_of(s, k) by {
        let j = key_idx(s, k);
        lemma_key_idx(s, k);
        lemma_key_idx(t, k);
        let jt = key_idx(t, k);
        if jt < i {
            assert(t[jt] == s[jt]);
            assert(jt == j);
        } else {
            assert(t[jt] == s[jt + 1]);
            assert(jt + 1 == j);
        }
    }
}

/// Pushing a fresh key: it is now present with the pushed entry, every other
/// key is untouched, and uniqueness and nonnegativity survive.
pub proof fn lemma_push_key(s: Seq<(ReservationId, CreditReservation)>, p: (ReservationId, CreditReservation))
    requires
        keys_unique(s),
        !has_key(s, p.0),
    ensures
        ({
            let t = s.push(p);
            &&& keys_unique(t)
            &&& has_key(t, p.0)
            &&& entry_of(t, p.0) == p.1
            &&& forall|k: ReservationId| k != p.0 ==> has_key(t, k) == has_key(s, k)
            &&& forall|k: ReservationId|
                k != p.0 && has_key(s, k) ==> #[trigger] entry_of(t, k) == entry_of(s, k)
            &&& (amounts_nonneg(s) && p.1.amount >= 0 ==> amounts_nonneg(t))
        }),
{
    let t = s.push(p);
    assert(t[s.len() as int] == p);
    assert forall|j: int| 0 <= j < s.len() implies #[trigger] t[j] == s[j] by {}
    assert(keys_unique(t));
    assert(has_key(t, p.0));
    lemma_key_idx(t, p.0);
    assert(key_idx(t, p.0) == s.len());
    assert forall|k: ReservationId| k != p.0 && has_key(s, k) implies has_key(t, k) by {
        let j = key_idx(s, k);
        lemma_key_idx(s, k);
        assert(t[j].0 == k);
    }
    assert forall|k: ReservationId| k != p.0 && has_key(t, k) implies has_key(s, k) by {
        let j = choose|j: int| 0 <= j < t.len() && t[j].0 == k;
        assert(j < s.len());
        assert(s[j].0 == k);
    }
    assert forall|k: ReservationId| k != p.0 && has_key(s, k) implies #[trigger] entry_of(t, k)
        == entry_of(s, k) by {
        let j = key_idx(s, k);
        lemma_key_idx(s, k);
        lemma_key_idx(t, k);
        let jt = key_idx(t, k);
        assert(jt < s.len());
        assert(t[jt] == s[jt]);
        assert(jt == j);
    }
}

/// One applicable event preserves the account invariant, raises the version
/// by one, and conserves the total balance except where credits are added.
pub proof fn lemma_apply_preserves(v: AccountView, e: CreditEvent)
    requires
        v.inv(),
        applicable(v, e),
    ensures
        ({
            let w = apply_event(v, e);
            &&& w.inv()
            &&& w.id == v.id
            &&& w.version == v.version + 1
            &&& w.total() == v.total() + (match e {
                CreditEvent::CreditsAdded(a) => a as int,
                _ => 0,
            })
        }),
{
    let w = apply_event(v, e);
    match e {
        CreditEvent::CreditsAdded(a) => {
            lemma_sum_nonneg(v.reservations);
            lemma_sum_nonneg(v.allocations);
        },
        CreditEvent::CreditsReserved { amount, id, timestamp } => {
            let p = (id, CreditReservation { amount, created_time: timestamp, allocated_time: None });
            lemma_push_key(v.reservations, p);
            lemma_sum_push(v.reservations, p);
        },
        CreditEvent::CreditsAllocated { id, amount, timestamp } => {
            let i = key_idx(v.reservations, id);
            lemma_key_idx(v.reservations, id);
            lemma_remove_key(v.reservations, id);
            lemma_sum_remove(v.reservations, i);
            let p = (
                id,
                CreditReservation {
                    amount: entry_of(v.reservations, id).amount,
                    created_time: entry_of(v.reservations, id).created_time,
                    allocated_time: Some(timestamp),
                },
            );
            lemma_push_key(v.allocations, p);
            lemma_sum_push(v.allocations, p);
            assert forall|k: ReservationId| has_key(w.reservations, k) implies !has_key(
                w.allocations,
                k,
            ) by {
                assert(has_key(v.reservations, k));
                assert(k != id);
            }
        },
        CreditEvent::ReservationCancelled(id, amount) => {
            let i = key_idx(v.reservations, id);
            lemma_key_idx(v.reservations, id);
            lemma_remove_key(v.reservations, id);
            lemma_sum_remove(v.reservations, i);
            lemma_sum_nonneg(v.reservations.remove(i));
            lemma_sum_nonneg(v.allocations);
        },
        CreditEvent::ReservationExpired { id, amount_freed, available } => {
            let i = key_idx(v.reservations, id);
            lemma_key_idx(v.reservations, id);
            lemma_remove_key(v.reservations, id);
            lemma_sum_remove(v.reservations, i);
            lemma_sum_nonneg(v.reservations.remove(i));
            lemma_sum_nonneg(v.allocations);
        },
        CreditEvent::AllocationFreed { id, amount, available } => {
            let i = key_idx(v.allocations, id);
            lemma_key_idx(v.allocations, id);
            lemma_remove_key(v.allocations, id);
            lemma_sum_remove(v.allocations, i);
            lemma_sum_nonneg(v.allocations.remove(i));
            lemma_sum_nonneg(v.reservations);
            assert forall|k: ReservationId| has_key(w.reservations, k) implies !has_key(
                w.allocations,
                k,
            ) by {
                assert(has_key(v.reservations, k));
                if k != id {
                    assert(!has_key(v.allocations, k));
                }
            }
        },
        CreditEvent::ReservationSpent { id, amount } => {
            let i = key_idx(v.reservations, id);
            lemma_key_idx(v.reservations, id);
            lemma_remove_key(v.reservations, id);
            lemma_sum_remove(v.reservations, i);
            lemma_sum_nonneg(v.reservations.remove(i));
            lemma_sum_nonneg(v.allocations);
        },
    }
}

/// The empty account is well formed and holds nothing.
pub proof fn lemma_init_inv(id: i64)
    ensures
        init_view(id).inv(),
        init_view(id).total() == 0,
{
    let v = init_view(id);
    assert(sum_amounts(v.reservations) == 0);
    assert(sum_amounts(v.allocations) == 0);
}

/// Replaying a concatenation is replaying the parts in turn.
pub proof fn lemma_replay_app(v: AccountView, a: Seq<CreditEvent>, b: Seq<CreditEvent>)
    ensures
        replay(v, a + b) == replay(replay(v, a), b),
        replay_ok(v, a + b) <==> (replay_ok(v, a) && replay_ok(replay(v, a), b)),
    decreases a.len(),
{
    if a.len() == 0 {
        assert(a + b =~= b);
    } else {
        assert((a + b)[0] == a[0]);
        assert((a + b).skip(1) =~= a.skip(1) + b);
        lemma_replay_app(apply_event(v, a[0]), a.skip(1), b);
    }
}

/// Replaying one more event at the back.
pub proof fn lemma_replay_snoc(v: AccountView, s: Seq<CreditEvent>, e: CreditEvent)
    ensures
        replay(v, s.push(e)) == apply_event(replay(v, s), e),
        replay_ok(v, s.push(e)) <==> (replay_ok(v, s) && applicable(replay(v, s), e)),
{
    assert(s.push(e) =~= s + seq![e]);
    lemma_replay_app(v, s, seq![e]);
    lemma_replay_singleton(replay(v, s), e);
}

/// Unfolding a one-event replay.
pub proof fn lemma_replay_singleton(v: AccountView, e: CreditEvent)
    ensures
        replay(v, seq![e]) == apply_event(v, e),
        replay_ok(v, seq![e]) <==> applicable(v, e),
{
    let one = seq![e];
    assert(one[0] == e);
    assert(one.skip(1).len() == 0);
    assert(replay(apply_event(v, e), one.skip(1)) == apply_event(v, e));
    assert(replay_ok(apply_event(v, e), one.skip(1)));
}

/// A whole applicable replay preserves the invariant and conserves the total
/// balance: what the account holds afterwards is what it held before plus
/// every credit the events added.
pub proof fn lemma_replay_inv(v: AccountView, evts: Seq<CreditEvent>)
    requires
        v.inv(),
        replay_ok(v, evts),
    ensures
        ({
            let w = replay(v, evts);
            &&& w.inv()
            &&& w.id == v.id
            &&& w.version == v.version + evts.len()
            &&& w.total() == v.total() + credits_added(evts)
            &&& w.amount >= 0
        }),
    decreases evts.len(),
{
    if evts.len() > 0 {
        lemma_apply_preserves(v, evts[0]);
        lemma_replay_inv(apply_event(v, evts[0]), evts.skip(1));
    }
}

/// The expiry events from index `i` on are applicable, provided every entry
/// still to visit is a live reservation and the listed ids are distinct.
pub proof fn lemma_evict_applicable(
    v: AccountView,
    s: Seq<(ReservationId, CreditReservation)>,
    age: i64,
    now: i64,
    i: int,
)
    requires
        v.inv(),
        v.version + (s.len() - i) <= i64::MAX,
        forall|j: int|
            i <= j < s.len() ==> #[trigger] has_key(v.reservations, s[j].0) && entry_of(
                v.reservations,
                s[j].0,
            ) == s[j].1,
        forall|j: int, k: int| i <= j < k < s.len() ==> s[j].0 != s[k].0,
    ensures
        replay_ok(v, evict_from(s, age, now, v.amount, i)),
    decreases s.len() - i,
{
    if 0 <= i < s.len() {
        if expires(s[i].1, age, now) {
            let id = s[i].0;
            let amt = s[i].1.amount;
            assert(has_key(v.reservations, s[i].0) && entry_of(v.reservations, s[i].0) == s[i].1);
            let idx = key_idx(v.reservations, id);
            lemma_key_idx(v.reservations, id);
            lemma_remove_key(v.reservations, id);
            lemma_sum_remove(v.reservations, idx);
            lemma_sum_nonneg(v.reservations.remove(idx));
            lemma_sum_nonneg(v.allocations);
            assert(v.reservations[idx].1 == s[i].1);
            assert(v.reservations[idx].1.amount >= 0);
            assert(amt <= sum_amounts(v.reservations));
            let e = CreditEvent::ReservationExpired {
                id: id,
                amount_freed: amt,
                available: (v.amount + amt) as i64,
            };
            assert(0 <= v.amount + amt <= i64::MAX);
            assert(applicable(v, e));
            let w = apply_event(v, e);
            lemma_apply_preserves(v, e);
            lemma_evict_applicable(w, s, age, now, i + 1);
            let rest = evict_from(s, age, now, v.amount + amt, i + 1);
            assert((seq![e] + rest)[0] == e);
            assert((seq![e] + rest).skip(1) =~= rest);
        } else {
            lemma_evict_applicable(v, s, age, now, i + 1);
        }
    }
}

/// When `handle` accepts a command on a well-formed account with the machine
/// headroom of `cmd_admissible`, the events it produces replay cleanly from
/// that account.
pub proof fn lemma_handle_ok(v: AccountView, cmd: CreditCommand, now: i64)
    requires
        v.inv(),
        cmd_admissible(v, cmd),
    ensures
        spec_handle(v, cmd, now) matches Ok(evts) ==> replay_ok(v, evts),
{
    if spec_handle(v, cmd, now) is Ok {
        let evts = spec_handle(v, cmd, now)->Ok_0;
        match cmd {
            CreditCommand::AddCredits(a) => {
                lemma_sum_nonneg(v.reservations);
                lemma_sum_nonneg(v.allocations);
                assert(applicable(v, evts[0]));
                lemma_replay_singleton(v, evts[0]);
                assert(evts =~= seq![evts[0]]);
            },
            CreditCommand::ReserveCredits(a, id) => {
                assert(applicable(v, evts[0]));
                lemma_replay_singleton(v, evts[0]);
                assert(evts =~= seq![evts[0]]);
            },
            CreditCommand::AllocateCredits(id) => {
                assert(applicable(v, evts[0]));
                lemma_replay_singleton(v, evts[0]);
                assert(evts =~= seq![evts[0]]);
            },
            CreditCommand::CancelReservation(id) => {
                assert(applicable(v, evts[0]));
                lemma_replay_singleton(v, evts[0]);
                assert(evts =~= seq![evts[0]]);
            },
            CreditCommand::EvictExpiredReservations(age) => {
                assert forall|j: int|
                    0 <= j < v.reservations.len() implies #[trigger] has_key(
                    v.reservations,
                    v.reservations[j].0,
                ) && entry_of(v.reservations, v.reservations[j].0) == v.reservations[j].1 by {
                    assert(has_key(v.reservations, v.reservations[j].0));
                    lemma_key_idx(v.reservations, v.reservations[j].0);
                }
                lemma_evict_applicable(v, v.reservations, age, now, 0);
            },
            CreditCommand::FreeAllocation(id) => {
                let idx = key_idx(v.allocations, id);
                lemma_key_idx(v.allocations, id);
                lemma_remove_key(v.allocations, id);
                lemma_sum_remove(v.allocations, idx);
                lemma_sum_nonneg(v.allocations.remove(idx));
                lemma_sum_nonneg(v.reservations);
                assert(v.allocations[idx].1 == entry_of(v.allocations, id));
                assert(v.allocations[idx].1.amount >= 0);
                assert(0 <= v.amount + entry_of(v.allocations, id).amount <= i64::MAX);
                assert(applicable(v, evts[0]));
                lemma_replay_singleton(v, evts[0]);
                assert(evts =~= seq![evts[0]]);
            },
            CreditCommand::SpendReservation(id) => {
                assert(applicable(v, evts[0]));
                lemma_replay_singleton(v, evts[0]);
                assert(evts =~= seq![evts[0]]);
            },
        }
    }
}

impl Contract {
    /// A fresh account: version 0 and zero balances.
    pub fn new(id: i64) -> (c: Contract)
        ensures
            c@ == init_view(id),
    {
        let c = Contract {
            id,
            version: 0,
            amount: 0,
            spent: 0,
            reservations: Vec::new(),
            allocations: Vec::new(),
        };
        proof {
            assert(c@ =~~= init_view(id));
        }
        c
    }

    pub fn id(&self) -> (r: i64)
        ensures
            r == self@.id,
    {
        self.id
    }

    pub fn version(&self) -> (r: i64)
        ensures
            r == self@.version,
    {
        self.version
    }

    /// The credits currently available for new reservations.
    pub fn amount(&self) -> (r: Amount)
        ensures
            r == self@.amount,
    {
        self.amount
    }

    /// The credits permanently spent so far.
    pub fn spent(&self) -> (r: Amount)
        ensures
            r == self@.spent,
    {
        self.spent
    }

    /// A copy of the active reservations, in insertion order.
    pub fn reservations(&self) -> (r: Vec<(ReservationId, CreditReservation)>)
        ensures
            r@ == self@.reservations,
    {
        clone_entries(&self.reservations)
    }

    /// A copy of the active allocations, in insertion order.
    pub fn allocations(&self) -> (r: Vec<(ReservationId, CreditReservation)>)
        ensures
            r@ == self@.allocations,
    {
        clone_entries(&self.allocations)
    }

    /// Assemble an account from its stored parts, for a storage layer that
    /// keeps state outside this process. The parts are taken as given; the
    /// caller vouches that they came from a state this machine once produced.
    pub fn from_parts(
        id: i64,
        version: i64,
        amount: Amount,
        spent: Amount,
        reservations: Vec<(ReservationId, CreditReservation)>,
        allocations: Vec<(ReservationId, CreditReservation)>,
    ) -> (c: Contract)
        ensures
            c@ == (AccountView {
                id: id,
                version: version as int,
                amount: amount as int,
                spent: spent as int,
                reservations: reservations@,
                allocations: allocations@,
            }),
    {
        Contract { id, version, amount, spent, reservations, allocations }
    }
}

impl Default for Contract {
    /// Same as `Contract::new(0)`.
    fn default() -> (c: Contract)
        ensures
            c@ == init_view(0),
    {
        Contract::new(0)
    }
}

/// Linear scan for an id among the entries of one table.
fn find_entry(entries: &Vec<(ReservationId, CreditReservation)>, id: ReservationId) -> (r: Option<
    usize,
>)
    ensures
        r matches Some(i) ==> i < entries@.len() && entries@[i as int].0 == id,
        r is Some <==> has_key(entries@, id),
{
    let mut i: usize = 0;
    while i < entries.len()
        invariant
            i <= entries@.len(),
            forall|j: int| 0 <= j < i ==> entries@[j].0 != id,
        decreases entries@.len() - i,
    {
        if entries[i].0 == id {
            return Some(i);
        }
        i = i + 1;
    }
    None
}

impl Contract {
    fn add_credits(&self, amount: Amount) -> (r: Result<Vec<CreditEvent>, CreditError>)
        ensures
            forall|t: Timestamp|
                handle_result_matches(r, #[trigger] spec_handle(self@, CreditCommand::AddCredits(amount), t)),
    {
        let mut events: Vec<CreditEvent> = Vec::new();
        events.push(CreditEvent::CreditsAdded(amount));
        proof {
            assert(events@ =~= seq![CreditEvent::CreditsAdded(amount)]);
        }
        Ok(events)
    }

    fn reserve_credits(&self, amount: Amount, id: ReservationId, now: Timestamp) -> (r: Result<
        Vec<CreditEvent>,
        CreditError,
    >)
        requires
            self@.inv(),
        ensures
            handle_result_matches(
                r,
                spec_handle(self@, CreditCommand::ReserveCredits(amount, id), now),
            ),
    {
        if self.amount < amount {
            return Err(CreditError::NotEnoughMoney { has: self.amount, needs: amount - self.amount });
        }
        // an id that is still active anywhere, reserved or allocated, cannot
        // be taken again
        if find_entry(&self.reservations, id).is_some() || find_entry(
            &self.allocations,
            id,
        ).is_some() {
            return Err(CreditError::ReservationAlreadyExists);
        }
        let mut events: Vec<CreditEvent> = Vec::new();
        events.push(CreditEvent::CreditsReserved { amount, id, timestamp: now });
        proof {
            assert(events@ =~= seq![
                CreditEvent::CreditsReserved { amount, id, timestamp: now },
            ]);
        }
        Ok(events)
    }

    fn allocate_credits(&self, id: ReservationId, now: Timestamp) -> (r: Result<
        Vec<CreditEvent>,
        CreditError,
    >)
        requires
            self@.inv(),
        ensures
            handle_result_matches(r, spec_handle(self@, CreditCommand::AllocateCredits(id), now)),
    {
        match find_entry(&self.reservations, id) {
            Some(i) => {
                proof {
                    lemma_key_idx(self@.reservations, id);
                }
                let amount = self.reservations[i].1.amount;
                let mut events: Vec<CreditEvent> = Vec::new();
                events.push(CreditEvent::CreditsAllocated { id, amount, timestamp: now });
                proof {
                    assert(events@ =~= seq![
                        CreditEvent::CreditsAllocated { id, amount, timestamp: now },
                    ]);
                }
                Ok(events)
            },
            None => Err(CreditError::ReservationNotFound),
        }
    }

    fn cancel_reservation(&self, id: ReservationId) -> (r: Result<Vec<CreditEvent>, CreditError>)
        requires
            self@.inv(),
        ensures
            forall|t: Timestamp|
                handle_result_matches(r, #[trigger] spec_handle(self@, CreditCommand::CancelReservation(id), t)),
    {
        match find_entry(&self.reservations, id) {
            Some(i) => {
                proof {
                    lemma_key_idx(self@.reservations, id);
                }
                let amount = self.reservations[i].1.amount;
                let mut events: Vec<CreditEvent> = Vec::new();
                events.push(CreditEvent::ReservationCancelled(id, amount));
                proof {
                    assert(events@ =~= seq![CreditEvent::ReservationCancelled(id, amount)]);
                }
                Ok(events)
            },
            None => Err(CreditError::ReservationNotFound),
        }
    }

    fn evict_expired_reservations(&self, age: i64, now: Timestamp) -> (r: Result<
        Vec<CreditEvent>,
        CreditError,
    >)
        requires
            self@.inv(),
        ensures
            handle_result_matches(
                r,
                spec_handle(self@, CreditCommand::EvictExpiredReservations(age), now),
            ),
    {
        let ghost s = self.reservations@;
        let ghost a0 = self@.amount;
        let mut events: Vec<CreditEvent> = Vec::new();
        let mut total_freed: i64 = 0;
        let mut i: usize = 0;
        while i < self.reservations.len()
            invariant
                self@.inv(),
                s == self.reservations@,
                a0 == self@.amount,
                i <= s.len(),
                0 <= total_freed,
                total_freed <= sum_amounts(s.take(i as int)),
                evict_from(s, age, now, a0, 0) == events@ + evict_from(
                    s,
                    age,
                    now,
                    a0 + total_freed,
                    i as int,
                ),
            decreases s.len() - i,
        {
            let entry = self.reservations[i];
            proof {
                assert(s.take(i as int + 1) =~= s.take(i as int).push(s[i as int]));
                lemma_sum_push(s.take(i as int), s[i as int]);
                assert(s =~= s.take(i as int + 1) + s.skip(i as int + 1));
                assert(amounts_nonneg(s.take(i as int + 1)));
                assert(amounts_nonneg(s.skip(i as int + 1)));
                lemma_sum_app(s.take(i as int + 1), s.skip(i as int + 1));
                lemma_sum_nonneg(s.skip(i as int + 1));
                lemma_sum_nonneg(s.take(i as int));
                lemma_sum_nonneg(self@.allocations);
            }
            if (entry.1.created_time as i128) + (age as i128) < (now as i128) {
                total_freed = total_freed + entry.1.amount;
                let ev = CreditEvent::ReservationExpired {
                    id: entry.0,
                    amount_freed: entry.1.amount,
                    available: self.amount + total_freed,
                };
                let ghost before = events@;
                events.push(ev);
                proof {
                    assert(expires(s[i as int].1, age, now));
                    let rest = evict_from(s, age, now, a0 + total_freed, i as int + 1);
                    assert(events@ =~= before + seq![ev]);
                    assert((before + seq![ev]) + rest =~= before + (seq![ev] + rest));
                }
            } else {
                proof {
                    assert(!expires(s[i as int].1, age, now));
                }
            }
            i = i + 1;
        }
        proof {
            assert(evict_from(s, age, now, a0 + total_freed, i as int).len() == 0);
            assert(events@ + evict_from(s, age, now, a0 + total_freed, i as int) =~= events@);
        }
        Ok(events)
    }

    fn free_allocation(&self, id: ReservationId) -> (r: Result<Vec<CreditEvent>, CreditError>)
        requires
            self@.inv(),
        ensures
            forall|t: Timestamp|
                handle_result_matches(r, #[trigger] spec_handle(self@, CreditCommand::FreeAllocation(id), t)),
    {
        match find_entry(&self.allocations, id) {
            Some(i) => {
                proof {
                    lemma_key_idx(self@.allocations, id);
                    lemma_remove_key(self@.allocations, id);
                    lemma_sum_remove(self@.allocations, i as int);
                    lemma_sum_nonneg(self@.allocations.remove(i as int));
                    lemma_sum_nonneg(self@.reservations);
                }
                let amount = self.allocations[i].1.amount;
                let available = self.amount + amount;
                let mut events: Vec<CreditEvent> = Vec::new();
                events.push(CreditEvent::AllocationFreed { id, amount, available });
                proof {
                    assert(events@ =~= seq![
                        CreditEvent::AllocationFreed { id, amount, available },
                    ]);
                }
                Ok(events)
            },
            None => Err(CreditError::AllocationNotFound),
        }
    }

    fn spend_reservation(&self, id: ReservationId) -> (r: Result<Vec<CreditEvent>, CreditError>)
        requires
            self@.inv(),
        ensures
            forall|t: Timestamp|
                handle_result_matches(r, #[trigger] spec_handle(self@, CreditCommand::SpendReservation(id), t)),
    {
        match find_entry(&self.reservations, id) {
            Some(i) => {
                proof {
                    lemma_key_idx(self@.reservations, id);
                }
                let amount = self.reservations[i].1.amount;
                let mut events: Vec<CreditEvent> = Vec::new();
                events.push(CreditEvent::ReservationSpent { id, amount });
                proof {
                    assert(events@ =~= seq![CreditEvent::ReservationSpent { id, amount }]);
                }
                Ok(events)
            },
            None => Err(CreditError::ReservationNotFound),
        }
    }

    /// Validate one command against the current state. On success the
    /// produced events are exactly what `spec_handle` decides; on failure the
    /// exact validation error is returned and no event is produced. The
    /// caller supplies the clock reading `now`; the function itself is
    /// deterministic.
    pub fn handle(&self, cmd: &CreditCommand, now: Timestamp) -> (r: Result<
        Vec<CreditEvent>,
        CreditError,
    >)
        requires
            self@.inv(),
        ensures
            handle_result_matches(r, spec_handle(self@, *cmd, now)),
    {
        match *cmd {
            CreditCommand::AddCredits(amt) => self.add_credits(amt),
            CreditCommand::ReserveCredits(amt, id) => self.reserve_credits(amt, id, now),
            CreditCommand::AllocateCredits(id) => self.allocate_credits(id, now),
            CreditCommand::CancelReservation(id) => self.cancel_reservation(id),
            CreditCommand::EvictExpiredReservations(age) => self.evict_expired_reservations(
                age,
                now,
            ),
            CreditCommand::FreeAllocation(id) => self.free_allocation(id),
            CreditCommand::SpendReservation(id) => self.spend_reservation(id),
        }
    }

    /// Fold one event into the state: the version rises by one and the
    /// balances move exactly as `apply_event` says. The event must have been
    /// produced from this very state; applying anything else is a corruption
    /// of the event stream, which the precondition rules out.
    pub fn apply(&mut self, evt: &CreditEvent)
        requires
            old(self)@.inv(),
            applicable(old(self)@, *evt),
        ensures
            final(self)@ == apply_event(old(self)@, *evt),
            final(self)@.inv(),
    {
        proof {
            lemma_apply_preserves(old(self)@, *evt);
        }
        self.version = self.version + 1;
        match *evt {
            CreditEvent::CreditsAdded(a) => {
                proof {
                    lemma_sum_nonneg(old(self)@.reservations);
                    lemma_sum_nonneg(old(self)@.allocations);
                }
                self.amount = self.amount + a;
            },
            CreditEvent::CreditsReserved { id, amount, timestamp } => {
                self.reservations.push(
                    (id, CreditReservation { amount, created_time: timestamp, allocated_time: None }),
                );
                self.amount = self.amount - amount;
            },
            CreditEvent::CreditsAllocated { id, amount: _, timestamp } => {
                proof {
                    lemma_key_idx(old(self)@.reservations, id);
                }
                let i = find_entry(&self.reservations, id).unwrap();
                let mut entry = self.reservations.remove(i);
                entry.1.allocated_time = Some(timestamp);
                self.allocations.push((id, entry.1));
            },
            CreditEvent::ReservationCancelled(id, amount) => {
                proof {
                    lemma_key_idx(old(self)@.reservations, id);
                    lemma_remove_key(old(self)@.reservations, id);
                    lemma_sum_remove(old(self)@.reservations, key_idx(old(self)@.reservations, id));
                    lemma_sum_nonneg(
                        old(self)@.reservations.remove(key_idx(old(self)@.reservations, id)),
                    );
                    lemma_sum_nonneg(old(self)@.allocations);
                }
                let i = find_entry(&self.reservations, id).unwrap();
                self.reservations.remove(i);
                self.amount = self.amount + amount;
            },
            CreditEvent::ReservationExpired { id, amount_freed, available: _ } => {
                proof {
                    lemma_key_idx(old(self)@.reservations, id);
                    lemma_remove_key(old(self)@.reservations, id);
                    lemma_sum_remove(old(self)@.reservations, key_idx(old(self)@.reservations, id));
                    lemma_sum_nonneg(
                        old(self)@.reservations.remove(key_idx(old(self)@.reservations, id)),
                    );
                    lemma_sum_nonneg(old(self)@.allocations);
                }
                let i = find_entry(&self.reservations, id).unwrap();
                self.reservations.remove(i);
                self.amount = self.amount + amount_freed;
            },
            CreditEvent::AllocationFreed { id, amount, available: _ } => {
                proof {
                    lemma_key_idx(old(self)@.allocations, id);
                    lemma_remove_key(old(self)@.allocations, id);
                    lemma_sum_remove(old(self)@.allocations, key_idx(old(self)@.allocations, id));
                    lemma_sum_nonneg(
                        old(self)@.allocations.remove(key_idx(old(self)@.allocations, id)),
                    );
                    lemma_sum_nonneg(old(self)@.reservations);
                }
                self.amount = self.amount + amount;
                let i = find_entry(&self.allocations, id).unwrap();
                self.allocations.remove(i);
            },
            CreditEvent::ReservationSpent { id, amount } => {
                proof {
                    lemma_key_idx(old(self)@.reservations, id);
                    lemma_remove_key(old(self)@.reservations, id);
                    lemma_sum_remove(old(self)@.reservations, key_idx(old(self)@.reservations, id));
                    lemma_sum_nonneg(
                        old(self)@.reservations.remove(key_idx(old(self)@.reservations, id)),
                    );
                    lemma_sum_nonneg(old(self)@.allocations);
                }
                let i = find_entry(&self.reservations, id).unwrap();
                self.reservations.remove(i);
                self.spent = self.spent + amount;
            },
        }
    }
}

fn clone_entries(v: &Vec<(ReservationId, CreditReservation)>) -> (r: Vec<(
    ReservationId,
    CreditReservation,
)>)
    ensures
        r@ == v@,
{
    let mut r: Vec<(ReservationId, CreditReservation)> = Vec::new();
    let mut i: usize = 0;
    while i < v.len()
        invariant
            i <= v@.len(),
            r@ == v@.take(i as int),
        decreases v@.len() - i,
    {
        r.push(v[i]);
        proof {
            assert(r@ =~= v@.take(i as int + 1));
        }
        i = i + 1;
    }
    proof {
        assert(v@.take(v@.len() as int) =~= v@);
    }
    r
}

impl Clone for Contract {
    /// A deep copy with the identical mathematical view.
    fn clone(&self) -> (c: Self)
        ensures
            c@ == self@,
    {
        Contract {
            id: self.id,
            version: self.version,
            amount: self.amount,
            spent: self.spent,
            reservations: clone_entries(&self.reservations),
            allocations: clone_entries(&self.allocations),
        }
    }
}

} // verus!
