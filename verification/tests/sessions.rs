use bluechips::auth::{
    group_list_contains, login_outcome, now, rand_string, AuthError, Resident,
};
use bluechips::display::{annotate_expenditures, annotate_transfers, default_resident_splits};
use bluechips::money::Currency;
use bluechips::records::{Expenditure, Split, Transfer, User};
use bluechips::session::{SessionManager, SessionStore};

fn user(id: i32, username: &str, resident: bool) -> User {
    User {
        id,
        username: username.to_string(),
        name: None,
        resident,
        email: None,
        password: None,
    }
}

#[test]
fn session_store_round_trip() {
    let mut store = SessionStore::new();
    assert_eq!(None, store.get(1));
    store.insert(1, "alpha".to_string());
    assert_eq!(Some("alpha".to_string()), store.get(1));
    store.insert(1, "beta".to_string());
    assert_eq!(Some("beta".to_string()), store.get(1));
    store.insert(2, "gamma".to_string());
    store.remove(1);
    assert_eq!(None, store.get(1));
    assert_eq!(Some("gamma".to_string()), store.get(2));
    store.clear_all();
    assert_eq!(None, store.get(2));
}

#[test]
fn expiry_sweeps_drop_only_expired_sessions() {
    let mut store = SessionStore::new();
    store.insert_for(1, "stale".to_string(), 10);
    store.insert_for(2, "fresh".to_string(), i64::MAX - 1);
    store.clear_expired();
    assert_eq!(None, store.get(1));
    assert_eq!(Some("fresh".to_string()), store.get(2));
}

#[test]
fn sweeps_at_a_fixed_reading_are_exact() {
    let mut store = SessionStore::new();
    store.insert_for(1, "early".to_string(), 100);
    store.insert_for(2, "late".to_string(), 200);
    store.clear_expired_at(150);
    assert_eq!(None, store.get(1));
    assert_eq!(Some("late".to_string()), store.get(2));
    // An expiry equal to the reading is already over.
    store.clear_expired_at(200);
    assert_eq!(None, store.get(2));
}

#[test]
fn default_inserts_outlive_an_immediate_sweep() {
    let mut store = SessionStore::new();
    store.insert(7, "key".to_string());
    store.clear_expired();
    assert_eq!(Some("key".to_string()), store.get(7));
}

#[test]
fn random_keys_have_the_requested_shape() {
    let key = rand_string(15);
    assert_eq!(15, key.chars().count());
    assert!(key.chars().all(|c| c.is_ascii_alphanumeric()));
    assert_eq!(0, rand_string(0).chars().count());
}

#[test]
fn the_clock_is_past_the_epoch() {
    assert!(now() > 0);
}

#[test]
fn group_membership_splits_on_pipes() {
    assert!(group_list_contains("Residents", "Residents"));
    assert!(group_list_contains("admins|Residents|book club", "Residents"));
    assert!(!group_list_contains("admins|Resident", "Residents"));
    assert!(!group_list_contains("NonResidents", "Residents"));
    assert!(!group_list_contains("", "Residents"));
    assert!(group_list_contains("|Residents", "Residents"));
}

#[test]
fn residency_follows_the_flag() {
    let r = Resident::from_user(user(1, "alice", true));
    assert_eq!(1, r.unwrap().user().id);
    let rejected = Resident::from_user(user(2, "bob", false));
    assert!(rejected.is_err());
}

#[test]
fn login_decisions() {
    let mut u = user(1, "alice", true);
    u.password = Some("stored-hash".to_string());
    let session = login_outcome(Some(u.clone()), true, "key".to_string(), 99).unwrap();
    assert_eq!(1, session.id);
    assert_eq!("alice", session.username);
    assert_eq!("key", session.auth_key);
    assert_eq!(99, session.time_stamp);

    assert_eq!(
        Err(AuthError::PasswordRejected),
        login_outcome(Some(u), false, "key".to_string(), 99).map(|_| ())
    );
    assert_eq!(
        Err(AuthError::UserNotFound),
        login_outcome(None, true, "key".to_string(), 99).map(|_| ())
    );
    assert_eq!(
        Err(AuthError::MissingPassword),
        login_outcome(Some(user(1, "alice", true)), true, "key".to_string(), 99).map(|_| ())
    );
}

#[test]
fn expenditures_are_annotated_for_the_viewer() {
    let mut named = user(2, "bob", true);
    named.name = Some("Bob".to_string());
    let users = vec![user(1, "alice", true), named];
    let exps = vec![Expenditure {
        id: 5,
        spender_id: 2,
        amount: Currency::from_minor(500),
        description: Some("groceries".to_string()),
        date: None,
    }];
    let splits = vec![Split { id: 1, expenditure_id: 5, user_id: 1, share: Currency::from_minor(250) }];
    let rows = annotate_expenditures(1, &exps, &users, &splits);
    assert_eq!(1, rows.len());
    assert!(!rows[0].mine);
    assert!(rows[0].involved);
    assert_eq!(Some("Bob".to_string()), rows[0].spender_name);
    assert_eq!(250, rows[0].share_amount.as_minor());

    // From the spender's own perspective the name is masked and there is no
    // share.
    let rows = annotate_expenditures(2, &exps, &users, &splits);
    assert!(rows[0].mine);
    assert!(rows[0].involved);
    assert_eq!(None, rows[0].spender_name);
    assert_eq!(0, rows[0].share_amount.as_minor());
}

#[test]
fn transfers_are_annotated_for_the_viewer() {
    let mut named = user(2, "bob", true);
    named.name = Some("Bob".to_string());
    let users = vec![user(1, "alice", true), named];
    let transfers = vec![Transfer {
        id: 3,
        debtor_id: 1,
        creditor_id: 2,
        amount: Currency::from_minor(700),
        description: None,
        date: None,
    }];
    let rows = annotate_transfers(1, &transfers, &users);
    assert!(rows[0].involved);
    assert_eq!(None, rows[0].debtor_name);
    assert_eq!(Some("Bob".to_string()), rows[0].creditor_name);
    let rows = annotate_transfers(9, &transfers, &users);
    assert!(!rows[0].involved);
}

#[test]
fn default_splits_cover_exactly_the_residents() {
    let users = vec![user(1, "alice", true), user(2, "bob", false), user(3, "carol", true)];
    let splits = default_resident_splits(&users);
    assert_eq!(2, splits.len());
    assert_eq!((1, Currency::from_minor(100)), splits[0]);
    assert_eq!((3, Currency::from_minor(100)), splits[1]);
}
