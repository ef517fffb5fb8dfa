//! The watchlist store: the registry of (account, subscriber) monitoring
//! entries, with its duplicate-prevention invariant, and the model of the
//! atomic replace-on-write protocol its snapshots are persisted with.
//!
//! The store itself is pure: every mutating operation reports whether the
//! snapshot must be rewritten, and `snapshot_text` yields the exact text to
//! write. The caller performs the file system work, following the
//! `SnapshotFile` protocol: write the new text to a sibling temporary path,
//! then atomically replace the target path with it.

use vstd::prelude::*;

use crate::bot::{MonitoredAccount, MonitoredAccountView};
use crate::codec::{
    decode_watchlist, encode_watchlist, spec_encode_watchlist, spec_parse_watchlist,
    lemma_watchlist_round_trip,
};
use crate::text::str_eq;

verus! {

/// Whether an entry carries the given identity key.
pub open spec fn key_matches(e: MonitoredAccountView, account_id: Seq<char>, chat_id: i64) -> bool {
    e.account_id == account_id && e.chat_id == chat_id
}

/// Whether some entry with the given key is present.
pub open spec fn has_key(
    es: Seq<MonitoredAccountView>,
    account_id: Seq<char>,
    chat_id: i64,
) -> bool {
    exists|i: int| 0 <= i < es.len() && key_matches(es[i], account_id, chat_id)
}

/// The first index holding the given key, or the length when there is none.
pub open spec fn key_index(es: Seq<MonitoredAccountView>, account_id: Seq<char>, chat_id: i64) -> int
    decreases es.len(),
{
    if es.len() == 0 {
        0
    } else if key_matches(es[0], account_id, chat_id) {
        0
    } else {
        1 + key_index(es.drop_first(), account_id, chat_id)
    }
}

/// `key_index` is the least index holding the key; it equals the length
/// exactly when the key is absent.
pub proof fn lemma_key_index(es: Seq<MonitoredAccountView>, account_id: Seq<char>, chat_id: i64)
    ensures
        0 <= key_index(es, account_id, chat_id) <= es.len(),
        key_index(es, account_id, chat_id) < es.len() ==> key_matches(
            es[key_index(es, account_id, chat_id)],
            account_id,
            chat_id,
        ),
        forall|t: int|
            0 <= t < key_index(es, account_id, chat_id) ==> !key_matches(
                es[t],
                account_id,
                chat_id,
            ),
        has_key(es, account_id, chat_id) <==> key_index(es, account_id, chat_id) < es.len(),
    decreases es.len(),
{
    if es.len() == 0 {
        assert(!has_key(es, account_id, chat_id));
    } else if key_matches(es[0], account_id, chat_id) {
    } else {
        lemma_key_index(es.drop_first(), account_id, chat_id);
        let rest = es.drop_first();
        let k = key_index(es, account_id, chat_id);
        assert(forall|t: int| 1 <= t < k ==> es[t] == rest[t - 1]);
        if has_key(es, account_id, chat_id) {
            let w = choose|i: int|
                0 <= i < es.len() && key_matches(es[i], account_id, chat_id);
            assert(rest[w - 1] == es[w]);
            assert(has_key(rest, account_id, chat_id));
        }
        if has_key(rest, account_id, chat_id) {
            let w = choose|i: int|
                0 <= i < rest.len() && key_matches(rest[i], account_id, chat_id);
            assert(es[w + 1] == rest[w]);
            assert(has_key(es, account_id, chat_id));
        }
    }
}

/// The store invariant: no two entries share an identity key.
pub open spec fn entries_wf(es: Seq<MonitoredAccountView>) -> bool {
    forall|i: int, j: int|
        0 <= i < j < es.len() ==> !(es[i].account_id == es[j].account_id && es[i].chat_id
            == es[j].chat_id)
}

/// What adding an entry does: nothing when the key is already monitored,
/// else an appended entry whose balance is not yet sampled.
pub open spec fn spec_add(es: Seq<MonitoredAccountView>, e: MonitoredAccountView) -> (
    bool,
    Seq<MonitoredAccountView>,
) {
    if has_key(es, e.account_id, e.chat_id) {
        (false, es)
    } else {
        (
            true,
            es.push(
                MonitoredAccountView {
                    account_id: e.account_id,
                    last_balance: None,
                    chat_id: e.chat_id,
                },
            ),
        )
    }
}

/// What removing a key does: every entry with that exact key goes, every
/// other entry stays, in order.
pub open spec fn spec_remove(
    es: Seq<MonitoredAccountView>,
    account_id: Seq<char>,
    chat_id: i64,
) -> Seq<MonitoredAccountView> {
    es.filter(|e: MonitoredAccountView| !key_matches(e, account_id, chat_id))
}

/// The error a rename reports without mutating anything.
#[derive(Clone, Copy, Debug, PartialEq, Eq)]
pub enum RenameError {
    /// No entry with the given key exists.
    NotFound,
    /// The subscriber already monitors the new account id.
    TargetExists,
}

/// What renaming does: the first (only) entry with the old key gets the new
/// account id and a cleared balance sample; absent keys and colliding
/// targets are refused.
pub open spec fn spec_rename(
    es: Seq<MonitoredAccountView>,
    old_id: Seq<char>,
    chat_id: i64,
    new_id: Seq<char>,
) -> Result<Seq<MonitoredAccountView>, RenameError> {
    if !has_key(es, old_id, chat_id) {
        Err(RenameError::NotFound)
    } else if new_id != old_id && has_key(es, new_id, chat_id) {
        Err(RenameError::TargetExists)
    } else {
        Ok(
            es.update(
                key_index(es, old_id, chat_id),
                MonitoredAccountView { account_id: new_id, last_balance: None, chat_id: chat_id },
            ),
        )
    }
}

/// The outcome of recording an observed balance.
#[derive(Clone, Copy, Debug, PartialEq, Eq)]
pub enum BalanceUpdate {
    /// No entry with the given key exists.
    NotFound,
    /// The entry already held this balance; the snapshot needs no rewrite.
    Unchanged,
    /// The entry now holds the new balance; the snapshot must be rewritten.
    Updated,
}

/// What recording a balance does: the first (only) entry with the key gets
/// the observed value, and the outcome says whether anything changed.
pub open spec fn spec_update_balance(
    es: Seq<MonitoredAccountView>,
    account_id: Seq<char>,
    chat_id: i64,
    balance: u128,
) -> (BalanceUpdate, Seq<MonitoredAccountView>) {
    if !has_key(es, account_id, chat_id) {
        (BalanceUpdate::NotFound, es)
    } else {
        let i = key_index(es, account_id, chat_id);
        if es[i].last_balance == Some(balance) {
            (BalanceUpdate::Unchanged, es)
        } else {
            (
                BalanceUpdate::Updated,
                es.update(
                    i,
                    MonitoredAccountView { last_balance: Some(balance), ..es[i] },
                ),
            )
        }
    }
}

/// The entries a subscriber sees: those with its chat id, in store order.
pub open spec fn spec_for_chat(es: Seq<MonitoredAccountView>, chat_id: i64) -> Seq<
    MonitoredAccountView,
> {
    es.filter(|e: MonitoredAccountView| e.chat_id == chat_id)
}

/// The registry of monitored accounts across all subscribers.
///
/// The collection is encapsulated: callers reach it only through the
/// operations below, which keep the invariant that no two entries share a
/// `(account_id, chat_id)` key.
pub struct AccountPersistenceManager {
    accounts: Vec<MonitoredAccount>,
}

impl View for AccountPersistenceManager {
    type V = Seq<MonitoredAccountView>;

    closed spec fn view(&self) -> Seq<MonitoredAccountView> {
        self.accounts.deep_view()
    }
}

impl AccountPersistenceManager {
    /// The store invariant holds of the current entries.
    pub open spec fn wf(&self) -> bool {
        entries_wf(self@)
    }

    /// Checks the invariant of freshly decoded entries.
    fn entries_check(v: &Vec<MonitoredAccount>) -> (r: bool)
        ensures
            r == entries_wf(v.deep_view()),
    {
        let ghost dv = v.deep_view();
        let mut i: usize = 0;
        while i < v.len()
            invariant
                i <= v@.len(),
                dv == v.deep_view(),
                dv.len() == v@.len(),
                forall|p: int, q: int|
                    0 <= p < q < dv.len() && p < i ==> !(dv[p].account_id == dv[q].account_id
                        && dv[p].chat_id == dv[q].chat_id),
            decreases v@.len() - i,
        {
            let mut j: usize = i + 1;
            while j < v.len()
                invariant
                    i < j <= v@.len(),
                    i < v@.len(),
                    dv == v.deep_view(),
                    dv.len() == v@.len(),
                    forall|q: int|
                        i < q < j ==> !(dv[i as int].account_id == dv[q].account_id && dv[
                            i as int].chat_id == dv[q].chat_id),
                decreases v@.len() - j,
            {
                if v[i].account_id == v[j].account_id && v[i].chat_id == v[j].chat_id {
                    proof {
                        assert(dv[i as int] == v@[i as int].deep_view());
                        assert(dv[j as int] == v@[j as int].deep_view());
                        assert(dv[i as int].account_id == dv[j as int].account_id);
                        assert(dv[i as int].chat_id == dv[j as int].chat_id);
                        assert(!entries_wf(dv));
                    }
                    return false;
                }
                j = j + 1;
            }
            i = i + 1;
        }
        true
    }

    /// Builds the store from the persisted snapshot text, if any.
    ///
    /// A missing file (`None`), text that does not parse, and text whose
    /// entries break the key-uniqueness invariant all yield the empty
    /// store: corrupt persisted state never fails the caller.
    pub fn load(contents: Option<&str>) -> (r: Self)
        ensures
            r.wf(),
            r@ == match contents {
                None => Seq::<MonitoredAccountView>::empty(),
                Some(s) => match spec_parse_watchlist(s@) {
                    None => Seq::<MonitoredAccountView>::empty(),
                    Some(es) => if entries_wf(es) {
                        es
                    } else {
                        Seq::<MonitoredAccountView>::empty()
                    },
                },
            },
    {
        let empty = AccountPersistenceManager { accounts: Vec::new() };
        proof {
            assert(empty@ =~= Seq::<MonitoredAccountView>::empty());
        }
        match contents {
            None => empty,
            Some(s) => match decode_watchlist(s) {
                None => empty,
                Some(v) => {
                    if Self::entries_check(&v) {
                        AccountPersistenceManager { accounts: v }
                    } else {
                        empty
                    }
                },
            },
        }
    }

    /// The snapshot text that persists the current entries.
    pub fn snapshot_text(&self) -> (s: String)
        ensures
            s@ == spec_encode_watchlist(self@),
    {
        encode_watchlist(&self.accounts)
    }

    /// The first position holding the given key, if any.
    fn find_key(&self, account_id: &str, chat_id: i64) -> (r: Option<usize>)
        ensures
            match r {
                Some(i) => i < self@.len() && i as int == key_index(self@, account_id@, chat_id)
                    && key_matches(self@[i as int], account_id@, chat_id) && has_key(
                    self@,
                    account_id@,
                    chat_id,
                ),
                None => !has_key(self@, account_id@, chat_id),
            },
    {
        proof {
            lemma_key_index(self@, account_id@, chat_id);
        }
        let ghost dv = self@;
        let mut i: usize = 0;
        while i < self.accounts.len()
            invariant
                i <= dv.len(),
                dv == self@,
                dv.len() == self.accounts@.len(),
                forall|t: int| 0 <= t < i ==> !key_matches(dv[t], account_id@, chat_id),
            decreases dv.len() - i,
        {
            if str_eq(self.accounts[i].account_id.as_str(), account_id) && self.accounts[i].chat_id
                == chat_id {
                proof {
                    assert(dv[i as int] == self.accounts@[i as int].deep_view());
                    assert(key_matches(dv[i as int], account_id@, chat_id));
                    assert(has_key(dv, account_id@, chat_id));
                    lemma_key_index(dv, account_id@, chat_id);
                    let k = key_index(dv, account_id@, chat_id);
                    if k < i as int {
                        assert(key_matches(dv[k], account_id@, chat_id));
                        assert(false);
                    }
                    if k > i as int {
                        assert(false);
                    }
                }
                return Some(i);
            }
            i = i + 1;
        }
        None
    }

    /// Adds a monitoring entry for the account's key, with no balance
    /// sampled yet.
    ///
    /// Returns `true` when the entry is new — the snapshot must then be
    /// rewritten — and `false` without mutating anything when the
    /// subscriber already monitors this account.
    pub fn add_account(&mut self, account: MonitoredAccount) -> (added: bool)
        requires
            old(self).wf(),
        ensures
            final (self).wf(),
            added == spec_add(old(self)@, account@).0,
            final (self)@ == spec_add(old(self)@, account@).1,
            added == !has_key(old(self)@, account.account_id@, account.chat_id),
    {
        match self.find_key(account.account_id.as_str(), account.chat_id) {
            Some(_) => false,
            None => {
                let ghost before = self@;
                let e = MonitoredAccount {
                    account_id: account.account_id,
                    last_balance: None,
                    chat_id: account.chat_id,
                };
                let ghost ev = e@;
                self.accounts.push(e);
                proof {
                    assert(self@ =~= before.push(ev));
                    assert forall|i: int, j: int| 0 <= i < j < self@.len() implies !(self@[
                    i].account_id == self@[j].account_id && self@[i].chat_id
                        == self@[j].chat_id) by {
                        if j == self@.len() - 1 {
                            assert(!key_matches(before[i], ev.account_id, ev.chat_id));
                        }
                    }
                }
                true
            },
        }
    }

    /// Removes the entry with the given key.
    ///
    /// Returns `true` when an entry went away — the snapshot must then be
    /// rewritten — and `false` when the key was not monitored. Entries
    /// with any other key are untouched.
    pub fn remove_account(&mut self, account_id: &str, chat_id: i64) -> (removed: bool)
        requires
            old(self).wf(),
        ensures
            final (self).wf(),
            final (self)@ == spec_remove(old(self)@, account_id@, chat_id),
            removed == has_key(old(self)@, account_id@, chat_id),
    {
        let ghost dv = self@;
        let ghost pred = |e: MonitoredAccountView| !key_matches(e, account_id@, chat_id);
        let mut kept: Vec<MonitoredAccount> = Vec::new();
        let mut found = false;
        let mut i: usize = 0;
        proof {
            reveal(Seq::filter);
            assert(dv.subrange(0, 0).filter(pred) =~= Seq::<MonitoredAccountView>::empty());
            assert(kept.deep_view() =~= Seq::<MonitoredAccountView>::empty());
        }
        while i < self.accounts.len()
            invariant
                i <= dv.len(),
                dv == self@,
                dv.len() == self.accounts@.len(),
                pred == (|e: MonitoredAccountView| !key_matches(e, account_id@, chat_id)),
                kept.deep_view() == dv.subrange(0, i as int).filter(pred),
                found == has_key(dv.subrange(0, i as int), account_id@, chat_id),
            decreases dv.len() - i,
        {
            let ghost prefix = dv.subrange(0, i as int);
            let e = self.accounts[i].clone();
            proof {
                assert(dv.subrange(0, i + 1 as int).drop_last() =~= prefix);
                assert(dv.subrange(0, i + 1 as int).last() == dv[i as int]);
                reveal(Seq::filter);
            }
            let ghost kept0 = kept.deep_view();
            if str_eq(e.account_id.as_str(), account_id) && e.chat_id == chat_id {
                found = true;
                proof {
                    assert(!pred(dv[i as int]));
                    assert(dv.subrange(0, i + 1 as int).filter(pred) =~= kept0);
                    assert(has_key(dv.subrange(0, i + 1 as int), account_id@, chat_id)) by {
                        assert(key_matches(dv.subrange(0, i + 1 as int)[i as int], account_id@,
                            chat_id));
                    }
                }
            } else {
                kept.push(e);
                proof {
                    assert(pred(dv[i as int]));
                    assert(kept.deep_view() =~= kept0.push(dv[i as int]));
                    assert(dv.subrange(0, i + 1 as int).filter(pred) =~= kept0.push(
                        dv[i as int]));
                    assert(has_key(dv.subrange(0, i + 1 as int), account_id@, chat_id)
                        == has_key(prefix, account_id@, chat_id)) by {
                        let ext = dv.subrange(0, i + 1 as int);
                        if has_key(ext, account_id@, chat_id) {
                            let w = choose|t: int|
                                0 <= t < ext.len() && key_matches(ext[t], account_id@, chat_id);
                            assert(w < i as int);
                            assert(prefix[w] == ext[w]);
                        }
                        if has_key(prefix, account_id@, chat_id) {
                            let w = choose|t: int|
                                0 <= t < prefix.len() && key_matches(prefix[t], account_id@,
                                    chat_id);
                            assert(ext[w] == prefix[w]);
                        }
                    }
                }
            }
            i = i + 1;
        }
        proof {
            assert(dv.subrange(0, dv.len() as int) =~= dv);
            lemma_filter_wf(dv, account_id@, chat_id);
        }
        self.accounts = kept;
        found
    }

    /// Renames the entry with the old key to the new account id and clears
    /// its balance sample, forcing a fresh first sample on the next cycle.
    ///
    /// On success the snapshot must be rewritten. `NotFound` reports an
    /// absent key; `TargetExists` reports that the subscriber already
    /// monitors the new account id. Either error leaves the store as it
    /// was.
    pub fn update_account(&mut self, old_id: &str, chat_id: i64, new_id: String) -> (r: Result<
        (),
        RenameError,
    >)
        requires
            old(self).wf(),
        ensures
            final (self).wf(),
            r matches Ok(()) ==> spec_rename(old(self)@, old_id@, chat_id, new_id@) == Ok::<
                _,
                RenameError,
            >(final (self)@),
            r matches Err(e) ==> spec_rename(old(self)@, old_id@, chat_id, new_id@) == Err::<
                Seq<MonitoredAccountView>,
                _,
            >(e) && final (self)@ == old(self)@,
    {
        proof {
            lemma_key_index(self@, old_id@, chat_id);
        }
        let i = match self.find_key(old_id, chat_id) {
            Some(i) => i,
            None => {
                return Err(RenameError::NotFound);
            },
        };
        if !str_eq(new_id.as_str(), old_id) {
            match self.find_key(new_id.as_str(), chat_id) {
                Some(_) => {
                    return Err(RenameError::TargetExists);
                },
                None => {},
            }
        }
        let ghost before = self@;
        let e = MonitoredAccount { account_id: new_id, last_balance: None, chat_id };
        let ghost ev = e@;
        self.accounts[i] = e;
        proof {
            assert(self@ =~= before.update(i as int, ev));
            assert forall|p: int, q: int| 0 <= p < q < self@.len() implies !(self@[p].account_id
                == self@[q].account_id && self@[p].chat_id == self@[q].chat_id) by {
                if p != i as int && q != i as int {
                    assert(self@[p] == before[p] && self@[q] == before[q]);
                } else {
                    if ev.account_id == old_id@ {
                        assert(key_matches(before[i as int], old_id@, chat_id));
                    } else {
                        assert(!has_key(before, ev.account_id, chat_id));
                        if p == i as int {
                            assert(!key_matches(before[q], ev.account_id, ev.chat_id));
                        } else {
                            assert(!key_matches(before[p], ev.account_id, ev.chat_id));
                        }
                    }
                }
            }
        }
        Ok(())
    }

    /// Records an observed balance for the entry with the given key.
    ///
    /// The outcome says whether the entry was found and whether its stored
    /// balance actually changed; only a change calls for a snapshot
    /// rewrite.
    pub fn update_balance(&mut self, account_id: &str, chat_id: i64, balance: u128) -> (r:
        BalanceUpdate)
        requires
            old(self).wf(),
        ensures
            final (self).wf(),
            r == spec_update_balance(old(self)@, account_id@, chat_id, balance).0,
            final (self)@ == spec_update_balance(old(self)@, account_id@, chat_id, balance).1,
    {
        let i = match self.find_key(account_id, chat_id) {
            Some(i) => i,
            None => {
                return BalanceUpdate::NotFound;
            },
        };
        let same = match self.accounts[i].last_balance {
            Some(b) => b == balance,
            None => false,
        };
        if same {
            return BalanceUpdate::Unchanged;
        }
        let ghost before = self@;
        let e = MonitoredAccount {
            account_id: self.accounts[i].account_id.clone(),
            last_balance: Some(balance),
            chat_id: self.accounts[i].chat_id,
        };
        let ghost ev = e@;
        self.accounts[i] = e;
        proof {
            assert(ev == MonitoredAccountView { last_balance: Some(balance), ..before[i as int] });
            assert(self@ =~= before.update(i as int, ev));
            assert forall|p: int, q: int| 0 <= p < q < self@.len() implies !(self@[p].account_id
                == self@[q].account_id && self@[p].chat_id == self@[q].chat_id) by {
                assert(self@[p].account_id == before[p].account_id && self@[p].chat_id == before[
                p].chat_id);
                assert(self@[q].account_id == before[q].account_id && self@[q].chat_id == before[
                q].chat_id);
            }
        }
        BalanceUpdate::Updated
    }

    /// The entries monitored for one subscriber, in store order.
    pub fn get_accounts_for_chat(&self, chat_id: i64) -> (r: Vec<MonitoredAccount>)
        ensures
            r.deep_view() == spec_for_chat(self@, chat_id),
    {
        let ghost dv = self@;
        let ghost pred = |e: MonitoredAccountView| e.chat_id == chat_id;
        let mut out: Vec<MonitoredAccount> = Vec::new();
        let mut i: usize = 0;
        proof {
            reveal(Seq::filter);
            assert(dv.subrange(0, 0).filter(pred) =~= Seq::<MonitoredAccountView>::empty());
            assert(out.deep_view() =~= Seq::<MonitoredAccountView>::empty());
        }
        while i < self.accounts.len()
            invariant
                i <= dv.len(),
                dv == self@,
                dv.len() == self.accounts@.len(),
                pred == (|e: MonitoredAccountView| e.chat_id == chat_id),
                out.deep_view() == dv.subrange(0, i as int).filter(pred),
            decreases dv.len() - i,
        {
            let ghost prefix = dv.subrange(0, i as int);
            let ghost out0 = out.deep_view();
            proof {
                assert(dv.subrange(0, i + 1 as int).drop_last() =~= prefix);
                assert(dv.subrange(0, i + 1 as int).last() == dv[i as int]);
                reveal(Seq::filter);
            }
            if self.accounts[i].chat_id == chat_id {
                let e = self.accounts[i].clone();
                out.push(e);
                proof {
                    assert(out.deep_view() =~= out0.push(dv[i as int]));
                    assert(dv.subrange(0, i + 1 as int).filter(pred) =~= out0.push(dv[i as int]));
                }
            } else {
                proof {
                    assert(dv.subrange(0, i + 1 as int).filter(pred) =~= out0);
                }
            }
            i = i + 1;
        }
        proof {
            assert(dv.subrange(0, dv.len() as int) =~= dv);
        }
        out
    }

    /// A full copy of all entries, for the scheduler's per-cycle snapshot:
    /// slow fetch calls then run against the copy, not against the store.
    pub fn get_all_accounts(&self) -> (r: Vec<MonitoredAccount>)
        ensures
            r.deep_view() == self@,
    {
        let mut out: Vec<MonitoredAccount> = Vec::new();
        let mut i: usize = 0;
        while i < self.accounts.len()
            invariant
                i <= self.accounts@.len(),
                out.deep_view() == self@.subrange(0, i as int),
            decreases self.accounts@.len() - i,
        {
            let ghost out0 = out.deep_view();
            let e = self.accounts[i].clone();
            out.push(e);
            proof {
                assert(out.deep_view() =~= out0.push(self@[i as int]));
                assert(self@.subrange(0, i + 1 as int) =~= self@.subrange(0, i as int).push(
                    self@[i as int]));
            }
            i = i + 1;
        }
        proof {
            assert(self@.subrange(0, self@.len() as int) =~= self@);
        }
        out
    }

    /// The number of entries in the store.
    pub fn len(&self) -> (n: usize)
        ensures
            n == self@.len(),
    {
        self.accounts.len()
    }
}

/// A model of the two paths the atomic replace-on-write protocol touches:
/// the snapshot target and its sibling temporary file. `None` means the
/// path does not exist.
///
/// The caller mirrors each step on the real file system. A crash may stop
/// the sequence between any two steps; a restart reads only the target, so
/// at every point the target holds either the previous complete snapshot or
/// the new complete snapshot, never a partial one.
pub struct SnapshotFile {
    /// The content of the target path, if it exists.
    pub target: Option<String>,
    /// The content of the temporary path, if it exists.
    pub temp: Option<String>,
}

impl SnapshotFile {
    /// The text a restart would read, looking only at the target path.
    pub open spec fn spec_read(&self) -> Option<Seq<char>> {
        match self.target {
            Some(s) => Some(s@),
            None => None,
        }
    }

    /// A state with neither file present.
    pub fn new() -> (r: Self)
        ensures
            r.target is None,
            r.temp is None,
    {
        SnapshotFile { target: None, temp: None }
    }

    /// First step: write the new snapshot text to the temporary path. The
    /// target is untouched, so a crash or a failed write here loses
    /// nothing.
    pub fn write_temp(&mut self, data: String)
        ensures
            final (self).target == old(self).target,
            final (self).temp == Some(data),
    {
        self.temp = Some(data);
    }

    /// Second step: atomically replace the target with the temporary file.
    pub fn commit(&mut self)
        requires
            old(self).temp is Some,
        ensures
            final (self).target == old(self).temp,
            final (self).temp is None,
    {
        let t = match &self.temp {
            Some(s) => s.clone(),
            None => vstd::pervasive::unreached(),
        };
        self.target = Some(t);
        self.temp = None;
    }

    /// Recovery step after a failed replace: drop the orphaned temporary
    /// file and leave the target as it was.
    pub fn discard_temp(&mut self)
        ensures
            final (self).target == old(self).target,
            final (self).temp is None,
    {
        self.temp = None;
    }

    /// Reads the target text, as a restart would.
    pub fn read(&self) -> (r: Option<String>)
        ensures
            match r {
                Some(s) => self.spec_read() == Some(s@),
                None => self.spec_read() is None,
            },
    {
        match &self.target {
            Some(s) => Some(s.clone()),
            None => None,
        }
    }
}

/// A crash after the temporary write but before the replace loses nothing:
/// the target still holds the previous snapshot, and loading it yields
/// exactly the entries that were last committed, whatever the temporary
/// file holds.
pub proof fn lemma_crash_before_commit(
    d0: SnapshotFile,
    d1: SnapshotFile,
    es: Seq<MonitoredAccountView>,
)
    requires
        d0.spec_read() == Some(spec_encode_watchlist(es)),
        d1.target == d0.target,
    ensures
        d1.spec_read() == Some(spec_encode_watchlist(es)),
        spec_parse_watchlist(spec_encode_watchlist(es)) == Some(es),
{
    lemma_watchlist_round_trip(es);
}

/// Adding an entry keeps the keys pairwise distinct: however many adds
/// run, the store never holds two entries with the same key.
pub proof fn lemma_add_preserves_uniqueness(es: Seq<MonitoredAccountView>, e: MonitoredAccountView)
    requires
        entries_wf(es),
    ensures
        entries_wf(spec_add(es, e).1),
{
    if !has_key(es, e.account_id, e.chat_id) {
        let out = spec_add(es, e).1;
        assert forall|i: int, j: int| 0 <= i < j < out.len() implies !(out[i].account_id == out[
        j].account_id && out[i].chat_id == out[j].chat_id) by {
            if j == out.len() - 1 {
                assert(out[i] == es[i]);
                assert(!key_matches(es[i], e.account_id, e.chat_id));
            }
        }
    }
}

/// Adding a fresh key succeeds and grows the store by exactly one entry;
/// adding the same key again is refused and changes nothing.
pub proof fn lemma_add_idempotent(es: Seq<MonitoredAccountView>, e: MonitoredAccountView)
    requires
        !has_key(es, e.account_id, e.chat_id),
    ensures
        spec_add(es, e).0 == true,
        spec_add(es, e).1.len() == es.len() + 1,
        spec_add(spec_add(es, e).1, e).0 == false,
        spec_add(spec_add(es, e).1, e).1 == spec_add(es, e).1,
{
    let out = spec_add(es, e).1;
    assert(key_matches(out[out.len() - 1], e.account_id, e.chat_id));
    assert(has_key(out, e.account_id, e.chat_id));
}

/// Removing one key never affects an entry with any other key: every such
/// entry is still present afterwards.
pub proof fn lemma_remove_exact(
    es: Seq<MonitoredAccountView>,
    account_id: Seq<char>,
    chat_id: i64,
    other_id: Seq<char>,
    other_chat: i64,
)
    requires
        has_key(es, other_id, other_chat),
        !(other_id == account_id && other_chat == chat_id),
    ensures
        has_key(spec_remove(es, account_id, chat_id), other_id, other_chat),
{
    let pred = |e: MonitoredAccountView| !key_matches(e, account_id, chat_id);
    let t = choose|t: int| 0 <= t < es.len() && key_matches(es[t], other_id, other_chat);
    assert(pred(es[t]));
    es.lemma_filter_contains(pred, t);
    let out = spec_remove(es, account_id, chat_id);
    assert(out.contains(es[t]));
    let w = choose|w: int| 0 <= w < out.len() && out[w] == es[t];
    assert(key_matches(out[w], other_id, other_chat));
}

/// Renaming resets sampling: after a successful rename the entry carries
/// no balance, and the next observed balance always counts as a change.
pub proof fn lemma_rename_resets(
    es: Seq<MonitoredAccountView>,
    old_id: Seq<char>,
    chat_id: i64,
    new_id: Seq<char>,
)
    requires
        entries_wf(es),
        spec_rename(es, old_id, chat_id, new_id) is Ok,
    ensures
        ({
            let es2 = spec_rename(es, old_id, chat_id, new_id)->Ok_0;
            &&& has_key(es2, new_id, chat_id)
            &&& es2[key_index(es2, new_id, chat_id)].last_balance is None
            &&& forall|v: u128|
                spec_update_balance(es2, new_id, chat_id, v).0 == BalanceUpdate::Updated
        }),
{
    let es2 = spec_rename(es, old_id, chat_id, new_id)->Ok_0;
    lemma_key_index(es, old_id, chat_id);
    let k = key_index(es, old_id, chat_id);
    assert(key_matches(es2[k], new_id, chat_id));
    assert(has_key(es2, new_id, chat_id));
    lemma_key_index(es2, new_id, chat_id);
    let k2 = key_index(es2, new_id, chat_id);
    assert(k2 == k) by {
        if k2 != k {
            assert(key_matches(es2[k2], new_id, chat_id));
            assert(es2[k2] == es[k2]);
            if new_id == old_id {
                assert(key_matches(es[k], old_id, chat_id));
                assert(!entries_wf(es));
            } else {
                assert(has_key(es, new_id, chat_id));
            }
        }
    }
    assert(es2[k2].last_balance is None);
    assert forall|v: u128|
        spec_update_balance(es2, new_id, chat_id, v).0 == BalanceUpdate::Updated by {
        assert(es2[key_index(es2, new_id, chat_id)].last_balance != Some(v));
    }
}

/// Recording a balance never clears a sample: an entry whose balance is
/// unknown after the update was unknown before it too. Only an explicit
/// rename resets sampling.
pub proof fn lemma_update_keeps_samples(
    es: Seq<MonitoredAccountView>,
    account_id: Seq<char>,
    chat_id: i64,
    balance: u128,
)
    ensures
        spec_update_balance(es, account_id, chat_id, balance).1.len() == es.len(),
        forall|t: int|
            0 <= t < es.len() && spec_update_balance(
                es,
                account_id,
                chat_id,
                balance,
            ).1[t].last_balance is None ==> es[t].last_balance is None,
{
    if has_key(es, account_id, chat_id) {
        lemma_key_index(es, account_id, chat_id);
    }
}

/// Removing a key keeps the invariant: the survivors are a subsequence of
/// entries whose keys were already pairwise distinct.
pub proof fn lemma_filter_wf(es: Seq<MonitoredAccountView>, account_id: Seq<char>, chat_id: i64)
    requires
        entries_wf(es),
    ensures
        entries_wf(spec_remove(es, account_id, chat_id)),
        forall|a2: Seq<char>, c2: i64|
            has_key(spec_remove(es, account_id, chat_id), a2, c2) ==> #[trigger] has_key(
                es,
                a2,
                c2,
            ),
    decreases es.len(),
{
    reveal(Seq::filter);
    let pred = |e: MonitoredAccountView| !key_matches(e, account_id, chat_id);
    let out = spec_remove(es, account_id, chat_id);
    if es.len() > 0 {
        let d = es.drop_last();
        assert(entries_wf(d)) by {
            assert(forall|i: int, j: int|
                0 <= i < j < d.len() ==> d[i] == es[i] && d[j] == es[j]);
        }
        lemma_filter_wf(d, account_id, chat_id);
        let f = spec_remove(d, account_id, chat_id);
        if pred(es.last()) {
            assert(out == f.push(es.last()));
            // No survivor shares a key with the appended last entry.
            assert forall|i: int, j: int| 0 <= i < j < out.len() implies !(out[i].account_id
                == out[j].account_id && out[i].chat_id == out[j].chat_id) by {
                if j < f.len() {
                    assert(out[i] == f[i] && out[j] == f[j]);
                } else {
                    assert(out[i] == f[i] && out[j] == es.last());
                    if out[i].account_id == out[j].account_id && out[i].chat_id
                        == out[j].chat_id {
                        assert(key_matches(f[i], es.last().account_id, es.last().chat_id));
                        assert(has_key(f, es.last().account_id, es.last().chat_id));
                        assert(has_key(d, es.last().account_id, es.last().chat_id));
                        let t = choose|t: int|
                            0 <= t < d.len() && key_matches(
                                d[t],
                                es.last().account_id,
                                es.last().chat_id,
                            );
                        assert(es[t] == d[t]);
                        assert(es[es.len() - 1] == es.last());
                        assert(false);
                    }
                }
            }
            assert forall|a2: Seq<char>, c2: i64| has_key(out, a2, c2) implies #[trigger] has_key(
                es,
                a2,
                c2,
            ) by {
                let w = choose|w: int| 0 <= w < out.len() && key_matches(out[w], a2, c2);
                if w < f.len() {
                    assert(out[w] == f[w]);
                    assert(has_key(f, a2, c2));
                    assert(has_key(d, a2, c2));
                    let t = choose|t: int| 0 <= t < d.len() && key_matches(d[t], a2, c2);
                    assert(es[t] == d[t]);
                } else {
                    assert(out[w] == es.last());
                    assert(key_matches(es[es.len() - 1], a2, c2));
                }
            }
        } else {
            assert(out == f);
            assert forall|a2: Seq<char>, c2: i64| has_key(out, a2, c2) implies #[trigger] has_key(
                es,
                a2,
                c2,
            ) by {
                assert(has_key(d, a2, c2));
                let t = choose|t: int| 0 <= t < d.len() && key_matches(d[t], a2, c2);
                assert(es[t] == d[t]);
            }
        }
    }
}

} // verus!
