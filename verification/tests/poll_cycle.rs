use near_balance_monitor::bot::{detect_changes, MonitoredAccount};
use near_balance_monitor::persistence::{AccountPersistenceManager, BalanceUpdate};

fn entry(account_id: &str, chat_id: i64, last_balance: Option<u128>) -> MonitoredAccount {
    MonitoredAccount { account_id: account_id.to_string(), last_balance, chat_id }
}

#[test]
fn first_sample_counts_as_a_change() {
    let snapshot = vec![entry("alice.test", 7, None)];
    let outcomes = vec![Some(500u128)];
    let changes = detect_changes(&snapshot, &outcomes);
    assert_eq!(changes.len(), 1);
    assert_eq!(changes[0].account_id, "alice.test");
    assert_eq!(changes[0].chat_id, 7);
    assert_eq!(changes[0].old_balance, None);
    assert_eq!(changes[0].new_balance, 500);
}

#[test]
fn unchanged_balance_is_not_reported() {
    let snapshot = vec![entry("alice.test", 7, Some(500))];
    let outcomes = vec![Some(500u128)];
    assert_eq!(detect_changes(&snapshot, &outcomes).len(), 0);
}

#[test]
fn failed_fetch_skips_only_that_entry() {
    let snapshot = vec![
        entry("down.test", 1, Some(10)),
        entry("up.test", 2, Some(10)),
        entry("fresh.test", 3, None),
    ];
    // The first fetch failed; the others succeeded.
    let outcomes = vec![None, Some(11u128), Some(4u128)];
    let changes = detect_changes(&snapshot, &outcomes);
    assert_eq!(changes.len(), 2);
    assert_eq!(changes[0].account_id, "up.test");
    assert_eq!(changes[0].old_balance, Some(10));
    assert_eq!(changes[0].new_balance, 11);
    assert_eq!(changes[1].account_id, "fresh.test");
    assert_eq!(changes[1].new_balance, 4);
}

#[test]
fn two_subscribers_to_one_account_each_get_their_own_change() {
    let snapshot = vec![
        entry("shared.test", 1, None),
        entry("shared.test", 2, None),
    ];
    let outcomes = vec![Some(500u128), Some(500u128)];
    let changes = detect_changes(&snapshot, &outcomes);
    assert_eq!(changes.len(), 2);
    assert_eq!(changes[0].chat_id, 1);
    assert_eq!(changes[1].chat_id, 2);

    // Each change advances its own entry's balance independently.
    let mut store = AccountPersistenceManager::load(None);
    store.add_account(entry("shared.test", 1, None));
    store.add_account(entry("shared.test", 2, None));
    for ch in &changes {
        assert_eq!(
            store.update_balance(&ch.account_id, ch.chat_id, ch.new_balance),
            BalanceUpdate::Updated
        );
    }
    let all = store.get_all_accounts();
    assert_eq!(all[0].last_balance, Some(500));
    assert_eq!(all[1].last_balance, Some(500));
}

#[test]
fn example_scenario_runs_end_to_end() {
    // Add ("alice.test", 7): one entry, no sample yet.
    let mut store = AccountPersistenceManager::load(None);
    assert!(store.add_account(entry("alice.test", 7, None)));
    let all = store.get_all_accounts();
    assert_eq!(all.len(), 1);
    assert_eq!(all[0].last_balance, None);

    // A cycle fetches 500: change detected (unknown -> 500), notification
    // owed to subscriber 7, entry advances to 500.
    let snapshot = store.get_all_accounts();
    let changes = detect_changes(&snapshot, &vec![Some(500u128)]);
    assert_eq!(changes.len(), 1);
    assert_eq!(changes[0].chat_id, 7);
    assert_eq!(changes[0].old_balance, None);
    assert_eq!(changes[0].new_balance, 500);
    store.update_balance("alice.test", 7, 500);
    assert_eq!(store.get_all_accounts()[0].last_balance, Some(500));

    // The next cycle fetches 500 again: no change, no notification.
    let snapshot = store.get_all_accounts();
    assert_eq!(detect_changes(&snapshot, &vec![Some(500u128)]).len(), 0);

    // Rename to "alice2.test": the sample resets.
    store
        .update_account("alice.test", 7, "alice2.test".to_string())
        .expect("the entry exists");
    assert_eq!(store.get_all_accounts()[0].last_balance, None);

    // The next cycle's 500 is reported again, with the old side unknown.
    let snapshot = store.get_all_accounts();
    let changes = detect_changes(&snapshot, &vec![Some(500u128)]);
    assert_eq!(changes.len(), 1);
    assert_eq!(changes[0].account_id, "alice2.test");
    assert_eq!(changes[0].old_balance, None);
    assert_eq!(changes[0].new_balance, 500);
}
