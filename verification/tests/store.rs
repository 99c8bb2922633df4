use credits::{
    get_events, init, load, load_snapshot, run_and_store, run_and_store_batch, save_events,
    Contract, CreditCommand, CreditError, CreditEvent,
};
use uuid::Uuid;

#[test]
fn fresh_store_loads_empty_account() {
    let store = init();
    let c = load(5, &store).unwrap();
    assert_eq!(c.id(), 5);
    assert_eq!(c.version(), 0);
    assert_eq!(c.amount(), 0);
    assert_eq!(c.spent(), 0);
}

#[test]
fn save_then_load_round_trips() {
    let mut store = init();
    let mut c = load(5, &store).unwrap();
    run_and_store(&mut c, CreditCommand::AddCredits(10000), 0, &mut store).unwrap();
    assert_eq!(c.amount(), 10000);
    assert_eq!(c.version(), 1);
    let again = load(5, &store).unwrap();
    assert_eq!(again.amount(), 10000);
    assert_eq!(again.version(), 1);
}

#[test]
fn batch_is_all_or_nothing() {
    let mut store = init();
    let mut c = load(9, &store).unwrap();
    run_and_store(&mut c, CreditCommand::AddCredits(50), 0, &mut store).unwrap();
    let id = Uuid::new_v4().as_u128();
    // the second command of the batch must fail validation, so nothing of the
    // batch may stick, neither in memory nor in the store
    let r = run_and_store_batch(
        &mut c,
        vec![
            CreditCommand::ReserveCredits(20, id),
            CreditCommand::ReserveCredits(40, Uuid::new_v4().as_u128()),
        ],
        0,
        &mut store,
    );
    assert!(matches!(r, Err(CreditError::NotEnoughMoney { has: 30, needs: 10 })));
    assert_eq!(c.amount(), 50);
    assert_eq!(c.version(), 1);
    let reloaded = load(9, &store).unwrap();
    assert_eq!(reloaded.amount(), 50);
    assert_eq!(reloaded.version(), 1);
}

#[test]
fn two_writers_with_same_expected_version_race() {
    let mut store = init();
    let mut first = load(5, &store).unwrap();
    let mut second = load(5, &store).unwrap();
    run_and_store(&mut first, CreditCommand::AddCredits(10), 0, &mut store).unwrap();
    let r = run_and_store(&mut second, CreditCommand::AddCredits(20), 0, &mut store);
    assert!(matches!(r, Err(CreditError::ConcurrencyError)));
    // the loser retries against freshly loaded state and then wins
    let mut second = load(5, &store).unwrap();
    assert_eq!(second.amount(), 10);
    run_and_store(&mut second, CreditCommand::AddCredits(20), 0, &mut store).unwrap();
    assert_eq!(load(5, &store).unwrap().amount(), 30);
}

#[test]
fn direct_save_with_stale_version_is_rejected() {
    let mut store = init();
    let mut c = load(4, &store).unwrap();
    run_and_store(&mut c, CreditCommand::AddCredits(7), 0, &mut store).unwrap();
    // a writer that still believes the account is at version 0 must lose
    let stale = vec![CreditEvent::CreditsAdded(1)];
    let state = Contract::new(4);
    let r = save_events(&mut store, 4, 0, 1, &state, stale);
    assert!(matches!(r, Err(CreditError::ConcurrencyError)));
    assert_eq!(load(4, &store).unwrap().amount(), 7);
}

#[test]
fn empty_batch_saves_nothing_and_succeeds() {
    let mut store = init();
    let mut c = load(2, &store).unwrap();
    run_and_store_batch(&mut c, vec![], 0, &mut store).unwrap();
    assert_eq!(c.version(), 0);
    let evts = get_events(2, 0, &store).unwrap();
    assert!(evts.is_empty());
}

#[test]
fn snapshot_is_written_and_load_matches_full_replay() {
    let mut store = init();
    let mut c = load(7, &store).unwrap();
    let x = Uuid::new_v4().as_u128();
    run_and_store_batch(
        &mut c,
        vec![
            CreditCommand::AddCredits(100),
            CreditCommand::ReserveCredits(30, x),
            CreditCommand::SpendReservation(x),
        ],
        0,
        &mut store,
    )
    .unwrap();
    // the first successful save wrote a snapshot at version 3
    let snap = load_snapshot(7, &store).unwrap().expect("a snapshot must exist");
    assert_eq!(snap.version(), 3);
    assert_eq!(snap.amount(), 70);
    assert_eq!(snap.spent(), 30);
    // events appended after the snapshot must still be replayed on load
    run_and_store(&mut c, CreditCommand::AddCredits(5), 0, &mut store).unwrap();
    let loaded = load(7, &store).unwrap();
    // full replay from version 0, bypassing the snapshot
    let all = get_events(7, 0, &store).unwrap();
    let mut replayed = Contract::new(7);
    for e in &all {
        replayed.apply(e);
    }
    assert_eq!(loaded.id(), replayed.id());
    assert_eq!(loaded.version(), replayed.version());
    assert_eq!(loaded.amount(), replayed.amount());
    assert_eq!(loaded.spent(), replayed.spent());
    assert_eq!(loaded.amount(), 75);
    assert_eq!(loaded.version(), 4);
}

#[test]
fn get_events_returns_only_newer_events() {
    let mut store = init();
    let mut c = load(3, &store).unwrap();
    run_and_store(&mut c, CreditCommand::AddCredits(1), 0, &mut store).unwrap();
    run_and_store(&mut c, CreditCommand::AddCredits(2), 0, &mut store).unwrap();
    run_and_store(&mut c, CreditCommand::AddCredits(3), 0, &mut store).unwrap();
    let all = get_events(3, 0, &store).unwrap();
    assert_eq!(all.len(), 3);
    let newer = get_events(3, 2, &store).unwrap();
    assert_eq!(newer.len(), 1);
    assert!(matches!(newer[0], CreditEvent::CreditsAdded(3)));
    let none = get_events(3, 9, &store).unwrap();
    assert!(none.is_empty());
}

#[test]
fn accounts_are_independent() {
    let mut store = init();
    let mut a = load(1, &store).unwrap();
    let mut b = load(2, &store).unwrap();
    run_and_store(&mut a, CreditCommand::AddCredits(11), 0, &mut store).unwrap();
    run_and_store(&mut b, CreditCommand::AddCredits(22), 0, &mut store).unwrap();
    assert_eq!(load(1, &store).unwrap().amount(), 11);
    assert_eq!(load(2, &store).unwrap().amount(), 22);
}
