use near_balance_monitor::bot::{apply_command, Command, CommandAction, Reply};
use near_balance_monitor::persistence::AccountPersistenceManager;

#[test]
fn help_and_start_reply_without_touching_the_store() {
    let mut store = AccountPersistenceManager::load(None);
    assert!(matches!(
        apply_command(&mut store, 7, Command::Help).0,
        CommandAction::Respond(Reply::Help)
    ));
    assert!(matches!(
        apply_command(&mut store, 7, Command::Start).0,
        CommandAction::Respond(Reply::Welcome)
    ));
    assert_eq!(store.len(), 0);
}

#[test]
fn balance_and_transactions_ask_for_a_fetch() {
    let mut store = AccountPersistenceManager::load(None);
    match apply_command(&mut store, 7, Command::Balance("alice.test".to_string())).0 {
        CommandAction::FetchBalance(a) => assert_eq!(a, "alice.test"),
        _ => panic!("expected a balance fetch"),
    }
    match apply_command(&mut store, 7, Command::Transactions("alice.test".to_string())).0 {
        CommandAction::FetchTransactions(a) => assert_eq!(a, "alice.test"),
        _ => panic!("expected a transaction fetch"),
    }
}

#[test]
fn empty_account_ids_are_rejected_before_any_work() {
    let mut store = AccountPersistenceManager::load(None);
    assert!(matches!(
        apply_command(&mut store, 7, Command::Balance(String::new())).0,
        CommandAction::Respond(Reply::EmptyAccount)
    ));
    assert!(matches!(
        apply_command(&mut store, 7, Command::Add(String::new())).0,
        CommandAction::Respond(Reply::EmptyAccount)
    ));
    assert!(matches!(
        apply_command(&mut store, 7, Command::Transactions(String::new())).0,
        CommandAction::Respond(Reply::EmptyAccount)
    ));
    assert_eq!(store.len(), 0);
}

#[test]
fn add_replies_added_then_already_monitored() {
    let mut store = AccountPersistenceManager::load(None);
    match apply_command(&mut store, 7, Command::Add("alice.test".to_string())).0 {
        CommandAction::Respond(Reply::Added(a)) => assert_eq!(a, "alice.test"),
        _ => panic!("expected the added reply"),
    }
    match apply_command(&mut store, 7, Command::Add("alice.test".to_string())).0 {
        CommandAction::Respond(Reply::AlreadyMonitored(a)) => assert_eq!(a, "alice.test"),
        _ => panic!("expected the duplicate reply"),
    }
    assert_eq!(store.len(), 1);
}

#[test]
fn remove_replies_removed_or_not_found() {
    let mut store = AccountPersistenceManager::load(None);
    apply_command(&mut store, 7, Command::Add("alice.test".to_string()));
    match apply_command(&mut store, 9, Command::Remove("alice.test".to_string())).0 {
        CommandAction::Respond(Reply::NotFound(a)) => assert_eq!(a, "alice.test"),
        _ => panic!("another subscriber's entry must not be touched"),
    }
    match apply_command(&mut store, 7, Command::Remove("alice.test".to_string())).0 {
        CommandAction::Respond(Reply::Removed(a)) => assert_eq!(a, "alice.test"),
        _ => panic!("expected the removed reply"),
    }
    assert_eq!(store.len(), 0);
}

#[test]
fn rename_replies_for_each_outcome() {
    let mut store = AccountPersistenceManager::load(None);
    apply_command(&mut store, 7, Command::Add("a.test".to_string()));
    apply_command(&mut store, 7, Command::Add("b.test".to_string()));
    match apply_command(
        &mut store,
        7,
        Command::Rename("missing.test".to_string(), "x.test".to_string()),
    )
    .0
    {
        CommandAction::Respond(Reply::NotFound(a)) => assert_eq!(a, "missing.test"),
        _ => panic!("expected the not-found reply"),
    }
    match apply_command(
        &mut store,
        7,
        Command::Rename("a.test".to_string(), "b.test".to_string()),
    )
    .0
    {
        CommandAction::Respond(Reply::RenameConflict(a)) => assert_eq!(a, "b.test"),
        _ => panic!("expected the conflict reply"),
    }
    match apply_command(
        &mut store,
        7,
        Command::Rename("a.test".to_string(), "c.test".to_string()),
    )
    .0
    {
        CommandAction::Respond(Reply::Renamed(o, n)) => {
            assert_eq!(o, "a.test");
            assert_eq!(n, "c.test");
        },
        _ => panic!("expected the renamed reply"),
    }
    let mine = store.get_accounts_for_chat(7);
    assert_eq!(mine.len(), 2);
    assert_eq!(mine[0].account_id, "c.test");
    assert_eq!(mine[1].account_id, "b.test");
}

#[test]
fn list_shows_only_the_callers_entries() {
    let mut store = AccountPersistenceManager::load(None);
    assert!(matches!(
        apply_command(&mut store, 7, Command::List).0,
        CommandAction::Respond(Reply::NoAccounts)
    ));
    apply_command(&mut store, 7, Command::Add("a.test".to_string()));
    apply_command(&mut store, 9, Command::Add("b.test".to_string()));
    apply_command(&mut store, 7, Command::Add("c.test".to_string()));
    match apply_command(&mut store, 7, Command::List).0 {
        CommandAction::Respond(Reply::Listing(names)) => {
            assert_eq!(names, vec!["a.test".to_string(), "c.test".to_string()]);
        },
        _ => panic!("expected a listing"),
    }
}

#[test]
fn only_mutating_commands_ask_for_a_snapshot_rewrite() {
    let mut store = AccountPersistenceManager::load(None);
    assert!(!apply_command(&mut store, 7, Command::Help).1);
    assert!(!apply_command(&mut store, 7, Command::List).1);
    assert!(apply_command(&mut store, 7, Command::Add("a.test".to_string())).1);
    assert!(!apply_command(&mut store, 7, Command::Add("a.test".to_string())).1);
    assert!(
        apply_command(
            &mut store,
            7,
            Command::Rename("a.test".to_string(), "b.test".to_string()),
        )
        .1
    );
    assert!(
        !apply_command(
            &mut store,
            7,
            Command::Rename("missing.test".to_string(), "c.test".to_string()),
        )
        .1
    );
    assert!(apply_command(&mut store, 7, Command::Remove("b.test".to_string())).1);
    assert!(!apply_command(&mut store, 7, Command::Remove("b.test".to_string())).1);
}
