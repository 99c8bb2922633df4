use credits::{
    create_credits, init, AccountStatusRequest, AddCreditsCommand, Credits, CreditsClient,
};

#[test]
fn client_reports_zero_for_new_account() {
    let client = CreditsClient::new(init());
    let status = client.get_account_status(&AccountStatusRequest { account: 5 }).unwrap();
    assert_eq!(status.amount, 0);
}

#[test]
fn client_adds_credits_and_reports_new_amount() {
    let mut client = create_credits(init());
    let resp = client.add_credits(&AddCreditsCommand { account: 3, amount: 50 }).unwrap();
    assert_eq!(resp.new_amount, 50);
    let resp = client.add_credits(&AddCreditsCommand { account: 3, amount: 25 }).unwrap();
    assert_eq!(resp.new_amount, 75);
    let status = client.get_account_status(&AccountStatusRequest { account: 3 }).unwrap();
    assert_eq!(status.amount, 75);
    // other accounts are untouched
    let status = client.get_account_status(&AccountStatusRequest { account: 4 }).unwrap();
    assert_eq!(status.amount, 0);
}

#[test]
fn async_calls_answer_like_their_synchronous_twins() {
    let mut client = create_credits(init());
    let resp = client.add_credits_async(&AddCreditsCommand { account: 8, amount: 40 }).unwrap();
    assert_eq!(resp.new_amount, 40);
    let status = client.get_account_status_async(&AccountStatusRequest { account: 8 }).unwrap();
    assert_eq!(status.amount, 40);
}

#[test]
fn service_trait_dispatches_to_the_client() {
    fn through_trait<S: Credits>(svc: &mut S) -> (i64, i64) {
        let resp = svc.add_credits(&AddCreditsCommand { account: 6, amount: 9 }).unwrap();
        let status = svc.get_account_status(&AccountStatusRequest { account: 6 }).unwrap();
        (resp.new_amount, status.amount)
    }
    let mut client = create_credits(init());
    let (after_add, read_back) = through_trait(&mut client);
    assert_eq!(after_add, 9);
    assert_eq!(read_back, 9);
}
