//! Domain types of the monitoring engine: one watchlist entry, the known
//! subscriber registry, the command vocabulary, and the per-cycle change
//! detection that drives notifications.

use vstd::prelude::*;

use crate::codec::{encode_users, decode_users, spec_encode_users, spec_parse_users};
use crate::persistence::{
    AccountPersistenceManager, RenameError, has_key, spec_add, spec_remove, spec_rename,
    spec_for_chat,
};

verus! {

/// One account being monitored for one subscriber.
///
/// The same account may be monitored by several subscribers; each pairing is
/// its own entry with its own last observed balance.
pub struct MonitoredAccount {
    /// The ledger account identifier being monitored.
    pub account_id: String,
    /// The last balance observed for this entry, in the smallest denomination
    /// unit. `None` means the entry has not been sampled yet.
    pub last_balance: Option<u128>,
    /// The chat (subscriber) the entry belongs to and notifies.
    pub chat_id: i64,
}

/// The mathematical value of a watchlist entry.
pub ghost struct MonitoredAccountView {
    pub account_id: Seq<char>,
    pub last_balance: Option<u128>,
    pub chat_id: i64,
}

impl View for MonitoredAccount {
    type V = MonitoredAccountView;

    open spec fn view(&self) -> MonitoredAccountView {
        MonitoredAccountView {
            account_id: self.account_id@,
            last_balance: self.last_balance,
            chat_id: self.chat_id,
        }
    }
}

impl DeepView for MonitoredAccount {
    type V = MonitoredAccountView;

    open spec fn deep_view(&self) -> MonitoredAccountView {
        self.view()
    }
}

impl Clone for MonitoredAccount {
    fn clone(&self) -> (r: Self)
        ensures
            r@ == self@,
    {
        MonitoredAccount {
            account_id: self.account_id.clone(),
            last_balance: self.last_balance,
            chat_id: self.chat_id,
        }
    }
}

/// No subscriber id appears twice.
pub open spec fn ids_unique(us: Seq<i64>) -> bool {
    forall|i: int, j: int| 0 <= i < j < us.len() ==> us[i] != us[j]
}

/// The append-only registry of subscribers that have ever sent a command,
/// kept so that service notices can be broadcast to them.
pub struct UserManager {
    users: Vec<i64>,
}

impl View for UserManager {
    type V = Seq<i64>;

    closed spec fn view(&self) -> Seq<i64> {
        self.users@
    }
}

impl UserManager {
    /// The registry invariant: each subscriber is recorded once.
    pub open spec fn wf(&self) -> bool {
        ids_unique(self@)
    }

    /// Checks the invariant of freshly decoded ids.
    fn ids_check(v: &Vec<i64>) -> (r: bool)
        ensures
            r == ids_unique(v@),
    {
        let mut i: usize = 0;
        while i < v.len()
            invariant
                i <= v@.len(),
                forall|p: int, q: int| 0 <= p < q < v@.len() && p < i ==> v@[p] != v@[q],
            decreases v@.len() - i,
        {
            let mut j: usize = i + 1;
            while j < v.len()
                invariant
                    i < j <= v@.len(),
                    i < v@.len(),
                    forall|q: int| i < q < j ==> v@[i as int] != v@[q],
                decreases v@.len() - j,
            {
                if v[i] == v[j] {
                    return false;
                }
                j = j + 1;
            }
            i = i + 1;
        }
        true
    }

    /// Builds the registry from the persisted snapshot text, if any.
    ///
    /// A missing file, text that does not parse, and text with a repeated
    /// id all yield the empty registry: corrupt persisted state never
    /// fails the caller.
    pub fn load(contents: Option<&str>) -> (r: Self)
        ensures
            r.wf(),
            r@ == match contents {
                None => Seq::<i64>::empty(),
                Some(s) => match spec_parse_users(s@) {
                    None => Seq::<i64>::empty(),
                    Some(us) => if ids_unique(us) {
                        us
                    } else {
                        Seq::<i64>::empty()
                    },
                },
            },
    {
        let empty = UserManager { users: Vec::new() };
        proof {
            assert(empty@ =~= Seq::<i64>::empty());
        }
        match contents {
            None => empty,
            Some(s) => match decode_users(s) {
                None => empty,
                Some(v) => {
                    if Self::ids_check(&v) {
                        UserManager { users: v }
                    } else {
                        empty
                    }
                },
            },
        }
    }

    /// Records a subscriber.
    ///
    /// Returns `true` when the id is new — the registry snapshot must then
    /// be rewritten — and `false` without mutating anything when the id
    /// was already known.
    pub fn add_user(&mut self, chat_id: i64) -> (added: bool)
        requires
            old(self).wf(),
        ensures
            final (self).wf(),
            added == !old(self)@.contains(chat_id),
            final (self)@ == if added {
                old(self)@.push(chat_id)
            } else {
                old(self)@
            },
    {
        let ghost before = self@;
        let mut i: usize = 0;
        while i < self.users.len()
            invariant
                i <= before.len(),
                before == self@,
                ids_unique(before),
                forall|t: int| 0 <= t < i ==> before[t] != chat_id,
            decreases before.len() - i,
        {
            if self.users[i] == chat_id {
                return false;
            }
            i = i + 1;
        }
        assert(!before.contains(chat_id));
        self.users.push(chat_id);
        proof {
            assert forall|p: int, q: int| 0 <= p < q < self@.len() implies self@[p] != self@[
            q] by {
                if q == self@.len() - 1 {
                    assert(before[p] != chat_id);
                }
            }
        }
        true
    }

    /// The snapshot text that persists the current registry.
    pub fn snapshot_text(&self) -> (s: String)
        ensures
            s@ == spec_encode_users(self@),
    {
        encode_users(&self.users)
    }

    /// Every recorded subscriber id, in registration order.
    pub fn get_all_users(&self) -> (r: Vec<i64>)
        ensures
            r@ == self@,
    {
        let mut out: Vec<i64> = Vec::new();
        let mut i: usize = 0;
        while i < self.users.len()
            invariant
                i <= self@.len(),
                out@ == self@.subrange(0, i as int),
            decreases self@.len() - i,
        {
            out.push(self.users[i]);
            proof {
                assert(out@ =~= self@.subrange(0, i + 1 as int));
            }
            i = i + 1;
        }
        proof {
            assert(self@.subrange(0, self@.len() as int) =~= self@);
        }
        out
    }
}

/// The discrete operations a subscriber can invoke, each scoped to the
/// invoking subscriber's own entries.
pub enum Command {
    /// Show the command list.
    Help,
    /// Greet a new conversation.
    Start,
    /// Fetch and show the current balance of an account.
    Balance(String),
    /// Add an account to the subscriber's watchlist.
    Add(String),
    /// Remove an account from the subscriber's watchlist.
    Remove(String),
    /// Change a watched account's id and resample its balance.
    Rename(String, String),
    /// Show the subscriber's watchlist.
    List,
    /// Fetch and show recent transactions of an account.
    Transactions(String),
}

/// The single reply a command maps to. Rendering the reply as message text
/// is display work and stays outside the library.
pub enum Reply {
    /// The command list is shown.
    Help,
    /// The welcome text is shown.
    Welcome,
    /// The command needs a non-empty account id.
    EmptyAccount,
    /// The account was added to the watchlist.
    Added(String),
    /// The subscriber already monitors the account.
    AlreadyMonitored(String),
    /// The account was removed from the watchlist.
    Removed(String),
    /// No entry with the account id exists for this subscriber.
    NotFound(String),
    /// The account id was changed; sampling starts afresh.
    Renamed(String, String),
    /// The subscriber already monitors the new account id.
    RenameConflict(String),
    /// The subscriber's watched account ids, in watchlist order.
    Listing(Vec<String>),
    /// The subscriber watches no accounts.
    NoAccounts,
}

/// What the transport must do once the store has been consulted: reply at
/// once, or fetch from the data source first and render the reply from
/// what comes back.
pub enum CommandAction {
    /// Send this reply.
    Respond(Reply),
    /// Fetch the account's balance, then reply with it.
    FetchBalance(String),
    /// Fetch the account's recent transactions, then reply with them.
    FetchTransactions(String),
}

/// Applies one command to the watchlist store and decides the one reply or
/// fetch it maps to, together with whether the store mutated and its
/// snapshot must therefore be rewritten before the reply goes out.
/// Every command yields exactly one action.
pub fn apply_command(store: &mut AccountPersistenceManager, chat_id: i64, cmd: Command) -> (r: (
    CommandAction,
    bool,
))
    requires
        old(store).wf(),
    ensures
        final (store).wf(),
        r.1 == match cmd {
            Command::Add(a) => a@.len() > 0 && spec_add(
                old(store)@,
                MonitoredAccountView { account_id: a@, last_balance: None, chat_id },
            ).0,
            Command::Remove(a) => has_key(old(store)@, a@, chat_id),
            Command::Rename(o, n) => spec_rename(old(store)@, o@, chat_id, n@) is Ok,
            _ => false,
        },
        match cmd {
            Command::Help => final (store)@ == old(store)@ && r.0 matches
                CommandAction::Respond(Reply::Help),
            Command::Start => final (store)@ == old(store)@ && r.0 matches
                CommandAction::Respond(Reply::Welcome),
            Command::Balance(a) => final (store)@ == old(store)@ && if a@.len() == 0 {
                r.0 matches CommandAction::Respond(Reply::EmptyAccount)
            } else {
                r.0 matches CommandAction::FetchBalance(x) && x@ == a@
            },
            Command::Transactions(a) => final (store)@ == old(store)@ && if a@.len() == 0 {
                r.0 matches CommandAction::Respond(Reply::EmptyAccount)
            } else {
                r.0 matches CommandAction::FetchTransactions(x) && x@ == a@
            },
            Command::Add(a) => if a@.len() == 0 {
                final (store)@ == old(store)@ && r.0 matches CommandAction::Respond(
                    Reply::EmptyAccount,
                )
            } else {
                let e = MonitoredAccountView { account_id: a@, last_balance: None, chat_id };
                final (store)@ == spec_add(old(store)@, e).1 && if spec_add(old(store)@, e).0 {
                    r.0 matches CommandAction::Respond(Reply::Added(x)) && x@ == a@
                } else {
                    r.0 matches CommandAction::Respond(Reply::AlreadyMonitored(x)) && x@ == a@
                }
            },
            Command::Remove(a) => final (store)@ == spec_remove(old(store)@, a@, chat_id) && if
            has_key(old(store)@, a@, chat_id) {
                r.0 matches CommandAction::Respond(Reply::Removed(x)) && x@ == a@
            } else {
                r.0 matches CommandAction::Respond(Reply::NotFound(x)) && x@ == a@
            },
            Command::Rename(o, n) => match spec_rename(old(store)@, o@, chat_id, n@) {
                Ok(es2) => final (store)@ == es2 && (r.0 matches CommandAction::Respond(
                    Reply::Renamed(x, y),
                ) && x@ == o@ && y@ == n@),
                Err(RenameError::NotFound) => final (store)@ == old(store)@ && (r.0 matches
                    CommandAction::Respond(Reply::NotFound(x)) && x@ == o@),
                Err(RenameError::TargetExists) => final (store)@ == old(store)@ && (r.0 matches
                    CommandAction::Respond(Reply::RenameConflict(x)) && x@ == n@),
            },
            Command::List => final (store)@ == old(store)@ && if spec_for_chat(
                old(store)@,
                chat_id,
            ).len() == 0 {
                r.0 matches CommandAction::Respond(Reply::NoAccounts)
            } else {
                r.0 matches CommandAction::Respond(Reply::Listing(names)) && names.deep_view()
                    == spec_for_chat(old(store)@, chat_id).map_values(
                    |e: MonitoredAccountView| e.account_id,
                )
            },
        },
{
    match cmd {
        Command::Help => (CommandAction::Respond(Reply::Help), false),
        Command::Start => (CommandAction::Respond(Reply::Welcome), false),
        Command::Balance(a) => {
            if a.as_str().is_empty() {
                (CommandAction::Respond(Reply::EmptyAccount), false)
            } else {
                (CommandAction::FetchBalance(a), false)
            }
        },
        Command::Transactions(a) => {
            if a.as_str().is_empty() {
                (CommandAction::Respond(Reply::EmptyAccount), false)
            } else {
                (CommandAction::FetchTransactions(a), false)
            }
        },
        Command::Add(a) => {
            if a.as_str().is_empty() {
                (CommandAction::Respond(Reply::EmptyAccount), false)
            } else {
                let entry = MonitoredAccount {
                    account_id: a.clone(),
                    last_balance: None,
                    chat_id,
                };
                if store.add_account(entry) {
                    (CommandAction::Respond(Reply::Added(a)), true)
                } else {
                    (CommandAction::Respond(Reply::AlreadyMonitored(a)), false)
                }
            }
        },
        Command::Remove(a) => {
            if store.remove_account(a.as_str(), chat_id) {
                (CommandAction::Respond(Reply::Removed(a)), true)
            } else {
                (CommandAction::Respond(Reply::NotFound(a)), false)
            }
        },
        Command::Rename(o, n) => {
            match store.update_account(o.as_str(), chat_id, n.clone()) {
                Ok(()) => (CommandAction::Respond(Reply::Renamed(o, n)), true),
                Err(RenameError::NotFound) => (
                    CommandAction::Respond(Reply::NotFound(o)),
                    false,
                ),
                Err(RenameError::TargetExists) => (
                    CommandAction::Respond(Reply::RenameConflict(n)),
                    false,
                ),
            }
        },
        Command::List => {
            let mine = store.get_accounts_for_chat(chat_id);
            if mine.len() == 0 {
                proof {
                    assert(spec_for_chat(store@, chat_id).len() == 0);
                }
                (CommandAction::Respond(Reply::NoAccounts), false)
            } else {
                let ghost mv = mine.deep_view();
                let mut names: Vec<String> = Vec::new();
                let mut i: usize = 0;
                proof {
                    assert(names.deep_view() =~= mv.subrange(0, 0).map_values(
                        |e: MonitoredAccountView| e.account_id,
                    ));
                }
                while i < mine.len()
                    invariant
                        i <= mv.len(),
                        mv == mine.deep_view(),
                        mv.len() == mine@.len(),
                        names.deep_view() == mv.subrange(0, i as int).map_values(
                            |e: MonitoredAccountView| e.account_id,
                        ),
                    decreases mv.len() - i,
                {
                    let ghost names0 = names.deep_view();
                    names.push(mine[i].account_id.clone());
                    proof {
                        assert(names.deep_view() =~= names0.push(mv[i as int].account_id));
                        assert(mv.subrange(0, i + 1 as int).map_values(
                            |e: MonitoredAccountView| e.account_id,
                        ) =~= names0.push(mv[i as int].account_id));
                    }
                    i = i + 1;
                }
                proof {
                    assert(mv.subrange(0, mv.len() as int) =~= mv);
                }
                (CommandAction::Respond(Reply::Listing(names)), false)
            }
        },
    }
}

/// One balance change the scheduler detected for one entry, to be
/// delivered to the entry's subscriber and recorded in the store.
pub struct BalanceChange {
    /// The account whose balance moved.
    pub account_id: String,
    /// The subscriber to notify.
    pub chat_id: i64,
    /// The balance the entry held before; `None` renders as unknown.
    pub old_balance: Option<u128>,
    /// The balance the fetch observed.
    pub new_balance: u128,
}

/// The mathematical value of a detected change.
pub ghost struct BalanceChangeView {
    pub account_id: Seq<char>,
    pub chat_id: i64,
    pub old_balance: Option<u128>,
    pub new_balance: u128,
}

impl View for BalanceChange {
    type V = BalanceChangeView;

    open spec fn view(&self) -> BalanceChangeView {
        BalanceChangeView {
            account_id: self.account_id@,
            chat_id: self.chat_id,
            old_balance: self.old_balance,
            new_balance: self.new_balance,
        }
    }
}

impl DeepView for BalanceChange {
    type V = BalanceChangeView;

    open spec fn deep_view(&self) -> BalanceChangeView {
        self.view()
    }
}

/// What one snapshot entry yields for one fetch outcome: nothing when the
/// fetch failed (the entry is skipped and retried next cycle) or when the
/// observed balance equals the one last seen; otherwise a change, where a
/// never-sampled entry always counts as changed.
pub open spec fn spec_change_for(e: MonitoredAccountView, outcome: Option<u128>) -> Option<
    BalanceChangeView,
> {
    match outcome {
        None => None,
        Some(b) => if e.last_balance == Some(b) {
            None
        } else {
            Some(
                BalanceChangeView {
                    account_id: e.account_id,
                    chat_id: e.chat_id,
                    old_balance: e.last_balance,
                    new_balance: b,
                },
            )
        },
    }
}

/// Every change one cycle detects, in snapshot order: entry by entry,
/// each judged independently against its own fetch outcome.
pub open spec fn spec_cycle_changes(
    snapshot: Seq<MonitoredAccountView>,
    outcomes: Seq<Option<u128>>,
) -> Seq<BalanceChangeView>
    decreases snapshot.len(),
{
    if snapshot.len() == 0 {
        Seq::empty()
    } else {
        let rest = spec_cycle_changes(snapshot.drop_last(), outcomes.drop_last());
        match spec_change_for(snapshot.last(), outcomes.last()) {
            Some(ch) => rest.push(ch),
            None => rest,
        }
    }
}

/// Detects every balance change of one cycle, exactly as
/// `spec_cycle_changes` describes: `outcomes[i]` is the fetched balance
/// for `snapshot[i]`, or `None` when that fetch failed.
pub fn detect_changes(snapshot: &Vec<MonitoredAccount>, outcomes: &Vec<Option<u128>>) -> (v: Vec<
    BalanceChange,
>)
    requires
        snapshot@.len() == outcomes@.len(),
    ensures
        v.deep_view() == spec_cycle_changes(snapshot.deep_view(), outcomes@),
{
    let ghost sv = snapshot.deep_view();
    let mut out: Vec<BalanceChange> = Vec::new();
    let mut i: usize = 0;
    proof {
        assert(out.deep_view() =~= Seq::<BalanceChangeView>::empty());
        assert(sv.subrange(0, 0) =~= Seq::<MonitoredAccountView>::empty());
        assert(spec_cycle_changes(sv.subrange(0, 0), outcomes@.subrange(0, 0)) =~= Seq::<
            BalanceChangeView,
        >::empty());
    }
    while i < snapshot.len()
        invariant
            i <= sv.len(),
            sv == snapshot.deep_view(),
            sv.len() == snapshot@.len(),
            snapshot@.len() == outcomes@.len(),
            out.deep_view() == spec_cycle_changes(sv.subrange(0, i as int), outcomes@.subrange(0, i as int)),
        decreases sv.len() - i,
    {
        proof {
            assert(sv.subrange(0, i + 1 as int).drop_last() =~= sv.subrange(0, i as int));
            assert(outcomes@.subrange(0, i + 1 as int).drop_last() =~= outcomes@.subrange(
                0,
                i as int,
            ));
            assert(sv.subrange(0, i + 1 as int).last() == sv[i as int]);
            assert(outcomes@.subrange(0, i + 1 as int).last() == outcomes@[i as int]);
        }
        let ghost out0 = out.deep_view();
        match outcomes[i] {
            Some(b) => {
                let same = match snapshot[i].last_balance {
                    Some(old_b) => old_b == b,
                    None => false,
                };
                if !same {
                    let ch = BalanceChange {
                        account_id: snapshot[i].account_id.clone(),
                        chat_id: snapshot[i].chat_id,
                        old_balance: snapshot[i].last_balance,
                        new_balance: b,
                    };
                    let ghost chv = ch@;
                    out.push(ch);
                    proof {
                        assert(out.deep_view() =~= out0.push(chv));
                        assert(spec_change_for(sv[i as int], outcomes@[i as int]) == Some(chv));
                    }
                }
            },
            None => {},
        }
        i = i + 1;
    }
    proof {
        assert(sv.subrange(0, sv.len() as int) =~= sv);
        assert(outcomes@.subrange(0, outcomes@.len() as int) =~= outcomes@);
    }
    out
}

/// A fetch failure for one entry never aborts the cycle: with that entry's
/// outcome turned into a failure, the cycle detects exactly the changes of
/// the remaining entries, each judged as before.
pub proof fn lemma_skip_and_continue(
    snapshot: Seq<MonitoredAccountView>,
    outcomes: Seq<Option<u128>>,
    i: int,
)
    requires
        snapshot.len() == outcomes.len(),
        0 <= i < snapshot.len(),
        outcomes[i] is None,
    ensures
        spec_cycle_changes(snapshot, outcomes) == spec_cycle_changes(
            snapshot.remove(i),
            outcomes.remove(i),
        ),
    decreases snapshot.len(),
{
    if i == snapshot.len() - 1 {
        assert(snapshot.remove(i) =~= snapshot.drop_last());
        assert(outcomes.remove(i) =~= outcomes.drop_last());
    } else {
        lemma_skip_and_continue(snapshot.drop_last(), outcomes.drop_last(), i);
        assert(snapshot.remove(i).drop_last() =~= snapshot.drop_last().remove(i));
        assert(outcomes.remove(i).drop_last() =~= outcomes.drop_last().remove(i));
        assert(snapshot.remove(i).last() == snapshot.last());
        assert(outcomes.remove(i).last() == outcomes.last());
    }
}

/// The change an entry yields is among the cycle's changes.
pub proof fn lemma_change_detected(
    snapshot: Seq<MonitoredAccountView>,
    outcomes: Seq<Option<u128>>,
    t: int,
)
    requires
        snapshot.len() == outcomes.len(),
        0 <= t < snapshot.len(),
        spec_change_for(snapshot[t], outcomes[t]) is Some,
    ensures
        spec_cycle_changes(snapshot, outcomes).contains(
            spec_change_for(snapshot[t], outcomes[t])->Some_0,
        ),
    decreases snapshot.len(),
{
    let ch = spec_change_for(snapshot[t], outcomes[t])->Some_0;
    let all = spec_cycle_changes(snapshot, outcomes);
    if t == snapshot.len() - 1 {
        assert(all == spec_cycle_changes(snapshot.drop_last(), outcomes.drop_last()).push(ch));
        assert(all[all.len() - 1] == ch);
    } else {
        lemma_change_detected(snapshot.drop_last(), outcomes.drop_last(), t);
        let rest = spec_cycle_changes(snapshot.drop_last(), outcomes.drop_last());
        let w = choose|w: int| 0 <= w < rest.len() && rest[w] == ch;
        match spec_change_for(snapshot.last(), outcomes.last()) {
            Some(ch2) => {
                assert(all[w] == ch);
            },
            None => {
                assert(all[w] == ch);
            },
        }
    }
}

/// Two entries monitoring the same account for two subscribers each get
/// their own notification and their own balance update from a single
/// fetched value: no merging by account.
pub proof fn lemma_independent_subscribers(
    snapshot: Seq<MonitoredAccountView>,
    outcomes: Seq<Option<u128>>,
    i: int,
    j: int,
    v: u128,
)
    requires
        snapshot.len() == outcomes.len(),
        0 <= i < j < snapshot.len(),
        snapshot[i].account_id == snapshot[j].account_id,
        snapshot[i].chat_id != snapshot[j].chat_id,
        snapshot[i].last_balance is None,
        snapshot[j].last_balance is None,
        outcomes[i] == Some(v),
        outcomes[j] == Some(v),
    ensures
        spec_cycle_changes(snapshot, outcomes).contains(
            BalanceChangeView {
                account_id: snapshot[i].account_id,
                chat_id: snapshot[i].chat_id,
                old_balance: None,
                new_balance: v,
            },
        ),
        spec_cycle_changes(snapshot, outcomes).contains(
            BalanceChangeView {
                account_id: snapshot[j].account_id,
                chat_id: snapshot[j].chat_id,
                old_balance: None,
                new_balance: v,
            },
        ),
{
    lemma_change_detected(snapshot, outcomes, i);
    lemma_change_detected(snapshot, outcomes, j);
}

} // verus!
