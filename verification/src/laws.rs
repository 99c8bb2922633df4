//! The ledger's general laws, stated over the mathematical model and proved
//! for every input: conservation of credits, the effect of a reserve followed
//! by a cancel or a spend, the finality of a retired reservation, and the
//! exclusivity of the store's version check.

use vstd::prelude::*;

use crate::contract::{
    applicable, cmd_admissible, credits_added, entry_of, has_key, init_view, lemma_apply_preserves,
    lemma_handle_ok, lemma_init_inv, lemma_key_idx, lemma_push_key, lemma_remove_key,
    lemma_replay_inv, lemma_replay_singleton, replay, replay_ok, spec_handle, sum_amounts,
    AccountView, CreditCommand, CreditError, CreditEvent, CreditReservation, ReservationId,
    Timestamp,
};
use crate::eventstore::{save_accepts, EventStore};

verus! {

/// Replaying any applicable event sequence from the empty account keeps the
/// account well formed - in particular the available amount never goes
/// negative - and balances the books: available plus reserved plus allocated
/// plus spent equals every credit the events ever added.
pub proof fn lemma_ledger_invariant(id: i64, evts: Seq<CreditEvent>)
    requires
        replay_ok(init_view(id), evts),
    ensures
        ({
            let v = replay(init_view(id), evts);
            &&& v.inv()
            &&& v.amount >= 0
            &&& v.amount + sum_amounts(v.reservations) + sum_amounts(v.allocations) + v.spent
                == credits_added(evts)
        }),
{
    lemma_init_inv(id);
    lemma_replay_inv(init_view(id), evts);
}

/// Every command that `handle` accepts on a well-formed account leads to a
/// well-formed account: its events are applicable in order, and the total
/// balance is conserved except for what `AddCredits` brings in.
pub proof fn lemma_command_preserves_ledger(v: AccountView, cmd: CreditCommand, now: Timestamp)
    requires
        v.inv(),
        cmd_admissible(v, cmd),
    ensures
        spec_handle(v, cmd, now) matches Ok(evts) ==> {
            let w = replay(v, evts);
            &&& replay_ok(v, evts)
            &&& w.inv()
            &&& w.amount >= 0
            &&& w.total() == v.total() + credits_added(evts)
        },
{
    lemma_handle_ok(v, cmd, now);
    if spec_handle(v, cmd, now) is Ok {
        lemma_replay_inv(v, spec_handle(v, cmd, now)->Ok_0);
    }
}

/// Reserving an amount and then cancelling that reservation restores the
/// available amount to exactly its value before the reserve, and retires the
/// id.
pub proof fn lemma_reserve_then_cancel(
    v: AccountView,
    amt: i64,
    id: ReservationId,
    now1: Timestamp,
    now2: Timestamp,
)
    requires
        v.inv(),
        0 <= amt,
        v.version + 2 <= i64::MAX,
        spec_handle(v, CreditCommand::ReserveCredits(amt, id), now1) is Ok,
    ensures
        ({
            let v1 = replay(v, spec_handle(v, CreditCommand::ReserveCredits(amt, id), now1)->Ok_0);
            &&& spec_handle(v1, CreditCommand::CancelReservation(id), now2) is Ok
            &&& ({
                let v2 = replay(
                    v1,
                    spec_handle(v1, CreditCommand::CancelReservation(id), now2)->Ok_0,
                );
                &&& v2.inv()
                &&& v2.amount == v.amount
                &&& v2.spent == v.spent
                &&& !has_key(v2.reservations, id)
                &&& !has_key(v2.allocations, id)
            })
        }),
{
    let e1 = CreditEvent::CreditsReserved { amount: amt, id: id, timestamp: now1 };
    let evts1 = spec_handle(v, CreditCommand::ReserveCredits(amt, id), now1)->Ok_0;
    assert(evts1 =~= seq![e1]);
    lemma_handle_ok(v, CreditCommand::ReserveCredits(amt, id), now1);
    lemma_replay_singleton(v, e1);
    let v1 = replay(v, evts1);
    lemma_apply_preserves(v, e1);
    let p = (id, CreditReservation { amount: amt, created_time: now1, allocated_time: None });
    lemma_push_key(v.reservations, p);
    assert(has_key(v1.reservations, id));
    assert(entry_of(v1.reservations, id) == p.1);
    let e2 = CreditEvent::ReservationCancelled(id, amt);
    let evts2 = spec_handle(v1, CreditCommand::CancelReservation(id), now2)->Ok_0;
    assert(evts2 =~= seq![e2]);
    lemma_key_idx(v1.reservations, id);
    assert(applicable(v1, e2)) by {
        assert(v1.version == v.version + 1);
    }
    lemma_replay_singleton(v1, e2);
    lemma_apply_preserves(v1, e2);
    let v2 = replay(v1, evts2);
    lemma_remove_key(v1.reservations, id);
    assert(v2.amount == v1.amount + amt);
    assert(v1.amount == v.amount - amt);
}

/// Reserving an amount and then spending that reservation leaves the
/// available amount decreased by the reserved amount, the spent amount
/// increased by it, and the id retired.
pub proof fn lemma_reserve_then_spend(
    v: AccountView,
    amt: i64,
    id: ReservationId,
    now1: Timestamp,
    now2: Timestamp,
)
    requires
        v.inv(),
        0 <= amt,
        v.version + 2 <= i64::MAX,
        spec_handle(v, CreditCommand::ReserveCredits(amt, id), now1) is Ok,
    ensures
        ({
            let v1 = replay(v, spec_handle(v, CreditCommand::ReserveCredits(amt, id), now1)->Ok_0);
            &&& spec_handle(v1, CreditCommand::SpendReservation(id), now2) is Ok
            &&& ({
                let v2 = replay(
                    v1,
                    spec_handle(v1, CreditCommand::SpendReservation(id), now2)->Ok_0,
                );
                &&& v2.inv()
                &&& v2.amount == v.amount - amt
                &&& v2.spent == v.spent + amt
                &&& !has_key(v2.reservations, id)
                &&& !has_key(v2.allocations, id)
            })
        }),
{
    let e1 = CreditEvent::CreditsReserved { amount: amt, id: id, timestamp: now1 };
    let evts1 = spec_handle(v, CreditCommand::ReserveCredits(amt, id), now1)->Ok_0;
    assert(evts1 =~= seq![e1]);
    lemma_handle_ok(v, CreditCommand::ReserveCredits(amt, id), now1);
    lemma_replay_singleton(v, e1);
    let v1 = replay(v, evts1);
    lemma_apply_preserves(v, e1);
    let p = (id, CreditReservation { amount: amt, created_time: now1, allocated_time: None });
    lemma_push_key(v.reservations, p);
    assert(has_key(v1.reservations, id));
    assert(entry_of(v1.reservations, id) == p.1);
    let e2 = CreditEvent::ReservationSpent { id: id, amount: amt };
    let evts2 = spec_handle(v1, CreditCommand::SpendReservation(id), now2)->Ok_0;
    assert(evts2 =~= seq![e2]);
    lemma_key_idx(v1.reservations, id);
    assert(applicable(v1, e2)) by {
        assert(v1.version == v.version + 1);
    }
    lemma_replay_singleton(v1, e2);
    lemma_apply_preserves(v1, e2);
    let v2 = replay(v1, evts2);
    lemma_remove_key(v1.reservations, id);
    assert(v2.spent == v1.spent + amt);
    assert(v1.amount == v.amount - amt);
}

/// Spending a reservation retires it: a second spend of the same id fails
/// with ReservationNotFound.
pub proof fn lemma_spend_twice_rejected(v: AccountView, id: ReservationId, now1: Timestamp, now2: Timestamp)
    requires
        v.inv(),
        spec_handle(v, CreditCommand::SpendReservation(id), now1) is Ok,
    ensures
        ({
            let v1 = replay(v, spec_handle(v, CreditCommand::SpendReservation(id), now1)->Ok_0);
            spec_handle(v1, CreditCommand::SpendReservation(id), now2) == Err::<
                Seq<CreditEvent>,
                CreditError,
            >(CreditError::ReservationNotFound)
        }),
{
    let amt = entry_of(v.reservations, id).amount;
    let e1 = CreditEvent::ReservationSpent { id: id, amount: amt };
    let evts1 = spec_handle(v, CreditCommand::SpendReservation(id), now1)->Ok_0;
    assert(evts1 =~= seq![e1]);
    lemma_replay_singleton(v, e1);
    let v1 = replay(v, evts1);
    lemma_key_idx(v.reservations, id);
    lemma_remove_key(v.reservations, id);
    assert(!has_key(v1.reservations, id));
}

/// A retired reservation id - cancelled, expired, spent, or never taken - can
/// be neither allocated nor spent: both commands fail with
/// ReservationNotFound.
pub proof fn lemma_retired_id_rejected(v: AccountView, id: ReservationId, now: Timestamp)
    requires
        !has_key(v.reservations, id),
    ensures
        spec_handle(v, CreditCommand::AllocateCredits(id), now) == Err::<
            Seq<CreditEvent>,
            CreditError,
        >(CreditError::ReservationNotFound),
        spec_handle(v, CreditCommand::SpendReservation(id), now) == Err::<
            Seq<CreditEvent>,
            CreditError,
        >(CreditError::ReservationNotFound),
{
}

/// Of two writers that both loaded the same version and both carry at least
/// one event, at most one can pass the store's version check: once the first
/// save has advanced the stored version, the check `save_accepts` is false
/// for the second writer's expected version, and `save_events` then returns
/// ConcurrencyError and leaves the store untouched.
pub proof fn lemma_second_writer_rejected(
    before: EventStore,
    after: EventStore,
    id: i64,
    expected: int,
    appended: int,
)
    requires
        save_accepts(before, id, expected),
        appended >= 1,
        after.version_of(id) == expected + appended,
    ensures
        !save_accepts(after, id, expected),
{
}

} // verus!
