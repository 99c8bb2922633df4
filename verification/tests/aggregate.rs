use credits::{run_cmd, Contract, CreditCommand, CreditError, CreditEvent};
use uuid::Uuid;

fn with_amount(amount: i64) -> Contract {
    let mut c = Contract::default();
    run_cmd(&mut c, CreditCommand::AddCredits(amount), 0).unwrap();
    c
}

#[test]
fn it_is_empty_by_default() {
    let c = Contract::default();
    assert_eq!(c.amount(), 0);
    assert_eq!(c.id(), 0);
}

#[test]
fn it_updates_amount() {
    let c = with_amount(10);
    assert_eq!(c.amount(), 10);
}

#[test]
fn it_reserves_amount() {
    let mut c = with_amount(10);
    let id = Uuid::new_v4().as_u128();
    run_cmd(&mut c, CreditCommand::ReserveCredits(5, id), 0).unwrap();
    assert_eq!(c.amount(), 5);
}

#[test]
fn it_cannot_reserve_too_much() {
    let mut c = with_amount(10);
    let id = Uuid::new_v4().as_u128();
    let r = run_cmd(&mut c, CreditCommand::ReserveCredits(20, id), 0);
    r.expect_err("should error out");
}

#[test]
fn it_spends_what_is_available() {
    let mut c = with_amount(10);
    let id = Uuid::new_v4().as_u128();
    run_cmd(&mut c, CreditCommand::ReserveCredits(10, id), 0).unwrap();
    run_cmd(&mut c, CreditCommand::SpendReservation(id), 0).unwrap();
    assert_eq!(c.amount(), 0);
    assert_eq!(c.spent(), 10);
}

#[test]
fn it_cannot_respend() {
    let mut c = with_amount(10);
    let id = Uuid::new_v4().as_u128();
    run_cmd(&mut c, CreditCommand::ReserveCredits(5, id), 0).unwrap();
    run_cmd(&mut c, CreditCommand::SpendReservation(id), 0).unwrap();
    run_cmd(&mut c, CreditCommand::SpendReservation(id), 0).expect_err("should not allow respend");
}

#[test]
fn it_frees_reservation() {
    let mut c = with_amount(10);
    let id = Uuid::new_v4().as_u128();
    run_cmd(&mut c, CreditCommand::ReserveCredits(5, id), 0).unwrap();
    run_cmd(&mut c, CreditCommand::CancelReservation(id), 0).unwrap();
    assert_eq!(c.amount(), 10);
}

#[test]
fn cancelled_reservation_cannot_be_allocated() {
    let mut c = with_amount(10);
    let id = Uuid::new_v4().as_u128();
    run_cmd(&mut c, CreditCommand::ReserveCredits(5, id), 0).unwrap();
    run_cmd(&mut c, CreditCommand::CancelReservation(id), 0).unwrap();
    run_cmd(&mut c, CreditCommand::AllocateCredits(id), 0).expect_err("should not allow allocation");
}

#[test]
fn spent_reservation_cannot_be_allocated() {
    let mut c = with_amount(10);
    let id = Uuid::new_v4().as_u128();
    run_cmd(&mut c, CreditCommand::ReserveCredits(5, id), 0).unwrap();
    run_cmd(&mut c, CreditCommand::SpendReservation(id), 0).unwrap();
    run_cmd(&mut c, CreditCommand::AllocateCredits(id), 0).expect_err("should not allow allocation");
}

#[test]
fn reserve_too_much_reports_shortfall() {
    let mut c = with_amount(10);
    let id = Uuid::new_v4().as_u128();
    let r = run_cmd(&mut c, CreditCommand::ReserveCredits(25, id), 0);
    match r {
        Err(CreditError::NotEnoughMoney { has, needs }) => {
            assert_eq!(has, 10);
            assert_eq!(needs, 15);
        },
        other => panic!("expected NotEnoughMoney, got {:?}", other),
    }
    assert_eq!(c.amount(), 10);
    assert_eq!(c.version(), 1);
}

#[test]
fn reserved_id_cannot_be_reserved_again() {
    let mut c = with_amount(10);
    let id = Uuid::new_v4().as_u128();
    run_cmd(&mut c, CreditCommand::ReserveCredits(2, id), 0).unwrap();
    let r = run_cmd(&mut c, CreditCommand::ReserveCredits(3, id), 0);
    assert!(matches!(r, Err(CreditError::ReservationAlreadyExists)));
}

#[test]
fn cancelling_unknown_reservation_fails() {
    let mut c = with_amount(10);
    let r = run_cmd(&mut c, CreditCommand::CancelReservation(42), 0);
    assert!(matches!(r, Err(CreditError::ReservationNotFound)));
}

#[test]
fn freeing_unknown_allocation_fails() {
    let mut c = with_amount(10);
    let r = run_cmd(&mut c, CreditCommand::FreeAllocation(42), 0);
    assert!(matches!(r, Err(CreditError::AllocationNotFound)));
}

#[test]
fn allocate_then_free_restores_amount() {
    let mut c = with_amount(10);
    let id = Uuid::new_v4().as_u128();
    run_cmd(&mut c, CreditCommand::ReserveCredits(6, id), 7).unwrap();
    assert_eq!(c.amount(), 4);
    run_cmd(&mut c, CreditCommand::AllocateCredits(id), 9).unwrap();
    assert_eq!(c.amount(), 4);
    let events = run_cmd(&mut c, CreditCommand::FreeAllocation(id), 11).unwrap();
    assert_eq!(c.amount(), 10);
    assert_eq!(c.version(), 4);
    match events[0] {
        CreditEvent::AllocationFreed { id: freed, amount, available } => {
            assert_eq!(freed, id);
            assert_eq!(amount, 6);
            assert_eq!(available, 10);
        },
        other => panic!("expected AllocationFreed, got {:?}", other),
    }
}

#[test]
fn eviction_frees_only_expired_reservations() {
    let mut c = with_amount(10);
    let old_id = Uuid::new_v4().as_u128();
    let new_id = Uuid::new_v4().as_u128();
    run_cmd(&mut c, CreditCommand::ReserveCredits(4, old_id), 0).unwrap();
    run_cmd(&mut c, CreditCommand::ReserveCredits(6, new_id), 100).unwrap();
    assert_eq!(c.amount(), 0);
    let events = run_cmd(&mut c, CreditCommand::EvictExpiredReservations(50), 100).unwrap();
    assert_eq!(events.len(), 1);
    match events[0] {
        CreditEvent::ReservationExpired { id, amount_freed, available } => {
            assert_eq!(id, old_id);
            assert_eq!(amount_freed, 4);
            assert_eq!(available, 4);
        },
        other => panic!("expected ReservationExpired, got {:?}", other),
    }
    assert_eq!(c.amount(), 4);
    run_cmd(&mut c, CreditCommand::SpendReservation(new_id), 100)
        .expect("the newer reservation must survive the eviction");
    assert_eq!(c.spent(), 6);
}

#[test]
fn example_scenario_from_empty_account() {
    let mut c = Contract::default();
    assert_eq!(c.version(), 0);
    assert_eq!(c.amount(), 0);
    run_cmd(&mut c, CreditCommand::AddCredits(100), 0).unwrap();
    assert_eq!(c.version(), 1);
    assert_eq!(c.amount(), 100);
    let x = Uuid::new_v4().as_u128();
    run_cmd(&mut c, CreditCommand::ReserveCredits(30, x), 0).unwrap();
    assert_eq!(c.version(), 2);
    assert_eq!(c.amount(), 70);
    run_cmd(&mut c, CreditCommand::SpendReservation(x), 0).unwrap();
    assert_eq!(c.version(), 3);
    assert_eq!(c.amount(), 70);
    assert_eq!(c.spent(), 30);
    let events = run_cmd(&mut c, CreditCommand::EvictExpiredReservations(0), 0).unwrap();
    assert!(events.is_empty());
    assert_eq!(c.version(), 3);
}
