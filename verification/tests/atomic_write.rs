use near_balance_monitor::bot::MonitoredAccount;
use near_balance_monitor::persistence::{AccountPersistenceManager, SnapshotFile};

fn store_with(account_id: &str, chat_id: i64) -> AccountPersistenceManager {
    let mut store = AccountPersistenceManager::load(None);
    store.add_account(MonitoredAccount {
        account_id: account_id.to_string(),
        last_balance: None,
        chat_id,
    });
    store
}

#[test]
fn crash_before_replace_keeps_the_old_snapshot() {
    let old_store = store_with("alice.test", 7);
    let mut new_store = store_with("alice.test", 7);
    new_store.add_account(MonitoredAccount {
        account_id: "bob.test".to_string(),
        last_balance: Some(5),
        chat_id: 9,
    });

    let mut disk = SnapshotFile::new();
    disk.write_temp(old_store.snapshot_text());
    disk.commit();

    // The next persist writes its temporary file and then crashes before
    // the replace step.
    disk.write_temp(new_store.snapshot_text());

    // A restart reads only the target: the old, complete snapshot.
    let read = disk.read().expect("the target exists");
    let recovered = AccountPersistenceManager::load(Some(&read));
    let all = recovered.get_all_accounts();
    assert_eq!(all.len(), 1);
    assert_eq!(all[0].account_id, "alice.test");
    assert_eq!(all[0].chat_id, 7);
}

#[test]
fn failed_replace_discards_the_temporary() {
    let old_store = store_with("alice.test", 7);
    let mut disk = SnapshotFile::new();
    disk.write_temp(old_store.snapshot_text());
    disk.commit();

    disk.write_temp("garbage that never reached the target".to_string());
    // The replace step failed; the protocol deletes the orphaned file.
    disk.discard_temp();

    let read = disk.read().expect("the target exists");
    let recovered = AccountPersistenceManager::load(Some(&read));
    assert_eq!(recovered.get_all_accounts()[0].account_id, "alice.test");
}

#[test]
fn completed_replace_shows_the_new_snapshot() {
    let old_store = store_with("alice.test", 7);
    let new_store = store_with("carol.test", 8);

    let mut disk = SnapshotFile::new();
    disk.write_temp(old_store.snapshot_text());
    disk.commit();
    disk.write_temp(new_store.snapshot_text());
    disk.commit();

    let read = disk.read().expect("the target exists");
    let recovered = AccountPersistenceManager::load(Some(&read));
    let all = recovered.get_all_accounts();
    assert_eq!(all.len(), 1);
    assert_eq!(all[0].account_id, "carol.test");
    assert_eq!(all[0].chat_id, 8);
}

#[test]
fn missing_target_loads_as_empty() {
    let disk = SnapshotFile::new();
    assert!(disk.read().is_none());
    let recovered = AccountPersistenceManager::load(disk.read().as_deref());
    assert_eq!(recovered.len(), 0);
}
