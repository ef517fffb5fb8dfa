use near_balance_monitor::bot::MonitoredAccount;
use near_balance_monitor::persistence::{AccountPersistenceManager, BalanceUpdate, RenameError};

fn entry(account_id: &str, chat_id: i64) -> MonitoredAccount {
    MonitoredAccount { account_id: account_id.to_string(), last_balance: None, chat_id }
}

#[test]
fn add_is_idempotent() {
    let mut store = AccountPersistenceManager::load(None);
    assert!(store.add_account(entry("alice.test", 7)));
    assert_eq!(store.len(), 1);
    assert!(!store.add_account(entry("alice.test", 7)));
    assert_eq!(store.len(), 1);
}

#[test]
fn add_keeps_keys_unique_across_many_adds() {
    let mut store = AccountPersistenceManager::load(None);
    assert!(store.add_account(entry("a.test", 1)));
    assert!(store.add_account(entry("a.test", 2)));
    assert!(store.add_account(entry("b.test", 1)));
    assert!(!store.add_account(entry("a.test", 1)));
    assert!(!store.add_account(entry("b.test", 1)));
    let all = store.get_all_accounts();
    assert_eq!(all.len(), 3);
    for i in 0..all.len() {
        for j in (i + 1)..all.len() {
            assert!(
                !(all[i].account_id == all[j].account_id && all[i].chat_id == all[j].chat_id)
            );
        }
    }
}

#[test]
fn remove_is_exact() {
    let mut store = AccountPersistenceManager::load(None);
    store.add_account(entry("a.test", 1));
    store.add_account(entry("a.test", 2));
    store.add_account(entry("b.test", 1));
    assert!(store.remove_account("a.test", 1));
    let all = store.get_all_accounts();
    assert_eq!(all.len(), 2);
    assert_eq!(all[0].account_id, "a.test");
    assert_eq!(all[0].chat_id, 2);
    assert_eq!(all[1].account_id, "b.test");
    assert_eq!(all[1].chat_id, 1);
}

#[test]
fn remove_of_absent_key_reports_false() {
    let mut store = AccountPersistenceManager::load(None);
    store.add_account(entry("a.test", 1));
    assert!(!store.remove_account("a.test", 2));
    assert!(!store.remove_account("z.test", 1));
    assert_eq!(store.len(), 1);
}

#[test]
fn rename_resets_sampling() {
    let mut store = AccountPersistenceManager::load(None);
    store.add_account(entry("alice.test", 7));
    assert_eq!(store.update_balance("alice.test", 7, 500), BalanceUpdate::Updated);
    assert_eq!(store.update_account("alice.test", 7, "alice2.test".to_string()), Ok(()));
    let all = store.get_all_accounts();
    assert_eq!(all.len(), 1);
    assert_eq!(all[0].account_id, "alice2.test");
    assert_eq!(all[0].last_balance, None);
    // A balance equal to the one seen before the rename still counts as a
    // change, because the sample was reset.
    assert_eq!(store.update_balance("alice2.test", 7, 500), BalanceUpdate::Updated);
    let all = store.get_all_accounts();
    assert_eq!(all[0].last_balance, Some(500));
}

#[test]
fn rename_of_absent_key_is_not_found() {
    let mut store = AccountPersistenceManager::load(None);
    store.add_account(entry("a.test", 1));
    assert_eq!(
        store.update_account("missing.test", 1, "x.test".to_string()),
        Err(RenameError::NotFound)
    );
    assert_eq!(
        store.update_account("a.test", 2, "x.test".to_string()),
        Err(RenameError::NotFound)
    );
    assert_eq!(store.get_all_accounts()[0].account_id, "a.test");
}

#[test]
fn rename_onto_monitored_target_is_refused() {
    let mut store = AccountPersistenceManager::load(None);
    store.add_account(entry("a.test", 1));
    store.add_account(entry("b.test", 1));
    assert_eq!(
        store.update_account("a.test", 1, "b.test".to_string()),
        Err(RenameError::TargetExists)
    );
    let all = store.get_all_accounts();
    assert_eq!(all.len(), 2);
    assert_eq!(all[0].account_id, "a.test");
}

#[test]
fn rename_to_same_id_resets_sampling() {
    let mut store = AccountPersistenceManager::load(None);
    store.add_account(entry("a.test", 1));
    store.update_balance("a.test", 1, 9);
    assert_eq!(store.update_account("a.test", 1, "a.test".to_string()), Ok(()));
    assert_eq!(store.get_all_accounts()[0].last_balance, None);
}

#[test]
fn update_balance_reports_each_outcome() {
    let mut store = AccountPersistenceManager::load(None);
    store.add_account(entry("a.test", 1));
    assert_eq!(store.update_balance("missing.test", 1, 5), BalanceUpdate::NotFound);
    assert_eq!(store.update_balance("a.test", 1, 5), BalanceUpdate::Updated);
    assert_eq!(store.update_balance("a.test", 1, 5), BalanceUpdate::Unchanged);
    assert_eq!(store.update_balance("a.test", 1, 6), BalanceUpdate::Updated);
    assert_eq!(store.get_all_accounts()[0].last_balance, Some(6));
}

#[test]
fn accounts_for_chat_filters_by_subscriber() {
    let mut store = AccountPersistenceManager::load(None);
    store.add_account(entry("a.test", 1));
    store.add_account(entry("b.test", 2));
    store.add_account(entry("c.test", 1));
    let mine = store.get_accounts_for_chat(1);
    assert_eq!(mine.len(), 2);
    assert_eq!(mine[0].account_id, "a.test");
    assert_eq!(mine[1].account_id, "c.test");
    assert_eq!(store.get_accounts_for_chat(3).len(), 0);
}
