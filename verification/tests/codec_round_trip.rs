use near_balance_monitor::bot::{MonitoredAccount, UserManager};
use near_balance_monitor::codec::{
    decode_users, decode_watchlist, encode_users, encode_watchlist,
};
use near_balance_monitor::persistence::AccountPersistenceManager;

fn entries_equal(a: &[MonitoredAccount], b: &[MonitoredAccount]) -> bool {
    a.len() == b.len()
        && a.iter().zip(b.iter()).all(|(x, y)| {
            x.account_id == y.account_id && x.last_balance == y.last_balance
                && x.chat_id == y.chat_id
        })
}

#[test]
fn watchlist_encoding_is_the_documented_text() {
    let v = vec![MonitoredAccount {
        account_id: "alice.test".to_string(),
        last_balance: None,
        chat_id: 7,
    }];
    assert_eq!(
        encode_watchlist(&v),
        "[{\"account_id\":\"alice.test\",\"last_balance\":null,\"chat_id\":7}]"
    );
    let empty: Vec<MonitoredAccount> = Vec::new();
    assert_eq!(encode_watchlist(&empty), "[]");
}

#[test]
fn watchlist_round_trip_keeps_every_entry() {
    let v = vec![
        MonitoredAccount {
            account_id: "alice.test".to_string(),
            last_balance: None,
            chat_id: 7,
        },
        MonitoredAccount {
            account_id: "bob.test".to_string(),
            // Larger than any 64-bit value.
            last_balance: Some(1_500_000_000_000_000_000_000_000u128),
            chat_id: -42,
        },
        MonitoredAccount {
            account_id: "with\"quote\\slash".to_string(),
            last_balance: Some(u128::MAX),
            chat_id: i64::MIN,
        },
    ];
    let text = encode_watchlist(&v);
    let back = decode_watchlist(&text).expect("encoded snapshot must parse");
    assert!(entries_equal(&v, &back));
}

#[test]
fn watchlist_parser_accepts_pretty_layout() {
    let text = "[\n  {\n    \"account_id\": \"alice.test\",\n    \"last_balance\": 1500,\n    \"chat_id\": 7\n  },\n  {\n    \"account_id\": \"bob.test\",\n    \"last_balance\": null,\n    \"chat_id\": -3\n  }\n]\n";
    let back = decode_watchlist(text).expect("pretty snapshot must parse");
    assert_eq!(back.len(), 2);
    assert_eq!(back[0].account_id, "alice.test");
    assert_eq!(back[0].last_balance, Some(1500));
    assert_eq!(back[0].chat_id, 7);
    assert_eq!(back[1].account_id, "bob.test");
    assert_eq!(back[1].last_balance, None);
    assert_eq!(back[1].chat_id, -3);
}

#[test]
fn watchlist_parser_rejects_malformed_text() {
    assert!(decode_watchlist("").is_none());
    assert!(decode_watchlist("{}").is_none());
    assert!(decode_watchlist("[").is_none());
    assert!(decode_watchlist("[{\"account_id\":\"a\"}]").is_none());
    assert!(decode_watchlist(
        "[{\"account_id\":\"a\",\"last_balance\":null,\"chat_id\":1}] trailing"
    )
    .is_none());
    // A balance beyond 128 bits is refused, not wrapped.
    assert!(decode_watchlist(
        "[{\"account_id\":\"a\",\"last_balance\":340282366920938463463374607431768211456,\"chat_id\":1}]"
    )
    .is_none());
}

#[test]
fn store_load_recovers_from_corrupt_text() {
    let store = AccountPersistenceManager::load(Some("not a snapshot"));
    assert_eq!(store.len(), 0);
    let store = AccountPersistenceManager::load(None);
    assert_eq!(store.len(), 0);
    // Text with a duplicated key breaks the invariant and loads as empty.
    let dup = "[{\"account_id\":\"a\",\"last_balance\":null,\"chat_id\":1},{\"account_id\":\"a\",\"last_balance\":2,\"chat_id\":1}]";
    let store = AccountPersistenceManager::load(Some(dup));
    assert_eq!(store.len(), 0);
}

#[test]
fn store_load_reads_back_its_own_snapshot() {
    let mut store = AccountPersistenceManager::load(None);
    store.add_account(MonitoredAccount {
        account_id: "alice.test".to_string(),
        last_balance: None,
        chat_id: 7,
    });
    store.update_balance("alice.test", 7, 36_893_488_147_419_103_232u128);
    let text = store.snapshot_text();
    let again = AccountPersistenceManager::load(Some(&text));
    let all = again.get_all_accounts();
    assert_eq!(all.len(), 1);
    assert_eq!(all[0].account_id, "alice.test");
    assert_eq!(all[0].last_balance, Some(36_893_488_147_419_103_232u128));
    assert_eq!(all[0].chat_id, 7);
}

#[test]
fn users_round_trip_keeps_every_id() {
    let ids = vec![7i64, -42, 0, i64::MAX, i64::MIN];
    let text = encode_users(&ids);
    assert_eq!(
        text,
        "[7,-42,0,9223372036854775807,-9223372036854775808]"
    );
    let back = decode_users(&text).expect("encoded registry must parse");
    assert_eq!(back, ids);
}

#[test]
fn users_parser_accepts_whitespace_and_rejects_junk() {
    let back = decode_users("[ 1 , 2 ,\n 3 ]").expect("spaced registry must parse");
    assert_eq!(back, vec![1i64, 2, 3]);
    assert!(decode_users("[1, 2").is_none());
    assert!(decode_users("[1,]").is_none());
    assert!(decode_users("nonsense").is_none());
    // An id beyond the signed 64-bit range is refused.
    assert!(decode_users("[9223372036854775808]").is_none());
}

#[test]
fn registry_load_recovers_from_corrupt_text() {
    let reg = UserManager::load(Some("broken"));
    assert_eq!(reg.get_all_users().len(), 0);
    // A repeated id breaks the registry invariant and loads as empty.
    let reg = UserManager::load(Some("[5,5]"));
    assert_eq!(reg.get_all_users().len(), 0);
    let reg = UserManager::load(Some("[5,6]"));
    assert_eq!(reg.get_all_users(), vec![5i64, 6]);
}

#[test]
fn registry_records_each_subscriber_once() {
    let mut reg = UserManager::load(None);
    assert!(reg.add_user(7));
    assert!(!reg.add_user(7));
    assert!(reg.add_user(-3));
    assert_eq!(reg.get_all_users(), vec![7i64, -3]);
    let text = reg.snapshot_text();
    let again = UserManager::load(Some(&text));
    assert_eq!(again.get_all_users(), vec![7i64, -3]);
}
