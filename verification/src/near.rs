//! Values from the ledger's data source, and the shaping of a fetched
//! transaction list: deduplicated by hash, ordered newest-first, capped at
//! a fixed count. The fetch itself is transport work and stays outside the
//! library; it hands the raw list in as plain values.

use vstd::prelude::*;

use crate::num::{parse_u128_at, spec_parse_u128_at};
use crate::text::{str_eq, str_to_chars};

verus! {

/// One ledger transaction, as the data source reports it.
pub struct Transaction {
    /// The transaction hash: its unique identifier.
    pub hash: String,
    /// The account that signed the transaction.
    pub signer_id: String,
    /// The account that received it.
    pub receiver_id: String,
    /// The block timestamp in nanoseconds.
    pub block_timestamp: u128,
    /// The aggregated deposit moved, in the smallest denomination unit.
    pub deposit: u128,
}

/// The mathematical value of a transaction.
pub ghost struct TransactionView {
    pub hash: Seq<char>,
    pub signer_id: Seq<char>,
    pub receiver_id: Seq<char>,
    pub block_timestamp: u128,
    pub deposit: u128,
}

impl View for Transaction {
    type V = TransactionView;

    open spec fn view(&self) -> TransactionView {
        TransactionView {
            hash: self.hash@,
            signer_id: self.signer_id@,
            receiver_id: self.receiver_id@,
            block_timestamp: self.block_timestamp,
            deposit: self.deposit,
        }
    }
}

impl DeepView for Transaction {
    type V = TransactionView;

    open spec fn deep_view(&self) -> TransactionView {
        self.view()
    }
}

impl Clone for Transaction {
    fn clone(&self) -> (r: Self)
        ensures
            r@ == self@,
    {
        Transaction {
            hash: self.hash.clone(),
            signer_id: self.signer_id.clone(),
            receiver_id: self.receiver_id.clone(),
            block_timestamp: self.block_timestamp,
            deposit: self.deposit,
        }
    }
}

/// Whether some transaction in the sequence carries the given hash.
pub open spec fn hash_in(ts: Seq<TransactionView>, h: Seq<char>) -> bool {
    exists|i: int| 0 <= i < ts.len() && ts[i].hash == h
}

/// Keeps the first transaction of each hash, in arrival order.
pub open spec fn spec_dedup(ts: Seq<TransactionView>) -> Seq<TransactionView>
    decreases ts.len(),
{
    if ts.len() == 0 {
        Seq::empty()
    } else {
        let d = spec_dedup(ts.drop_last());
        if hash_in(ts.drop_last(), ts.last().hash) {
            d
        } else {
            d.push(ts.last())
        }
    }
}

/// Inserts a transaction after every one at least as new, so that equal
/// timestamps keep their arrival order.
pub open spec fn spec_insert_desc(s: Seq<TransactionView>, x: TransactionView) -> Seq<
    TransactionView,
>
    decreases s.len(),
{
    if s.len() == 0 {
        seq![x]
    } else if s[0].block_timestamp >= x.block_timestamp {
        seq![s[0]] + spec_insert_desc(s.drop_first(), x)
    } else {
        seq![x] + s
    }
}

/// Sorts newest-first, stably: transactions with equal timestamps keep
/// their arrival order.
pub open spec fn spec_sort_desc(s: Seq<TransactionView>) -> Seq<TransactionView>
    decreases s.len(),
{
    if s.len() == 0 {
        Seq::empty()
    } else {
        spec_insert_desc(spec_sort_desc(s.drop_last()), s.last())
    }
}

/// Timestamps never increase along the sequence.
pub open spec fn sorted_desc(s: Seq<TransactionView>) -> bool {
    forall|i: int, j: int| 0 <= i < j < s.len() ==> s[i].block_timestamp >= s[j].block_timestamp
}

/// What shaping a fetched transaction list yields: the first occurrence of
/// each hash, sorted newest-first, at most ten of them.
pub open spec fn spec_select_recent(ts: Seq<TransactionView>) -> Seq<TransactionView> {
    let sorted = spec_sort_desc(spec_dedup(ts));
    if sorted.len() <= 10 {
        sorted
    } else {
        sorted.subrange(0, 10)
    }
}

/// Inserting keeps the sequence sorted.
proof fn lemma_insert_desc_sorted(s: Seq<TransactionView>, x: TransactionView)
    requires
        sorted_desc(s),
    ensures
        sorted_desc(spec_insert_desc(s, x)),
        spec_insert_desc(s, x).len() == s.len() + 1,
    decreases s.len(),
{
    if s.len() == 0 {
    } else if s[0].block_timestamp >= x.block_timestamp {
        assert(sorted_desc(s.drop_first())) by {
            assert(forall|i: int, j: int|
                0 <= i < j < s.drop_first().len() ==> s.drop_first()[i] == s[i + 1]
                    && s.drop_first()[j] == s[j + 1]);
        }
        lemma_insert_desc_sorted(s.drop_first(), x);
        let out = spec_insert_desc(s, x);
        let rest = spec_insert_desc(s.drop_first(), x);
        assert forall|i: int, j: int| 0 <= i < j < out.len() implies out[i].block_timestamp
            >= out[j].block_timestamp by {
            if i == 0 {
                assert(out[j] == rest[j - 1]);
                lemma_insert_desc_first(s.drop_first(), x);
            } else {
                assert(out[i] == rest[i - 1] && out[j] == rest[j - 1]);
            }
        }
    } else {
        let out = spec_insert_desc(s, x);
        assert forall|i: int, j: int| 0 <= i < j < out.len() implies out[i].block_timestamp
            >= out[j].block_timestamp by {
            if i == 0 {
                if j >= 1 {
                    assert(out[j] == s[j - 1]);
                    if j >= 2 {
                        assert(s[0].block_timestamp >= s[j - 1].block_timestamp);
                    }
                }
            } else {
                assert(out[i] == s[i - 1] && out[j] == s[j - 1]);
            }
        }
    }
}

/// Every element of an insertion is the inserted one or one of the old
/// ones.
proof fn lemma_insert_desc_first(s: Seq<TransactionView>, x: TransactionView)
    ensures
        spec_insert_desc(s, x).len() == s.len() + 1,
        forall|t: int|
            0 <= t < spec_insert_desc(s, x).len() ==> spec_insert_desc(s, x)[t] == x || exists|
                u: int,
            | 0 <= u < s.len() && spec_insert_desc(s, x)[t] == s[u],
    decreases s.len(),
{
    if s.len() == 0 {
    } else if s[0].block_timestamp >= x.block_timestamp {
        lemma_insert_desc_first(s.drop_first(), x);
        let out = spec_insert_desc(s, x);
        let rest = spec_insert_desc(s.drop_first(), x);
        assert forall|t: int| 0 <= t < out.len() implies out[t] == x || exists|u: int|
            0 <= u < s.len() && out[t] == s[u] by {
            if t == 0 {
                assert(out[0] == s[0]);
            } else {
                assert(out[t] == rest[t - 1]);
                if rest[t - 1] != x {
                    let u = choose|u: int| 0 <= u < s.drop_first().len() && rest[t - 1]
                        == s.drop_first()[u];
                    assert(out[t] == s[u + 1]);
                }
            }
        }
    } else {
        let out = spec_insert_desc(s, x);
        assert forall|t: int| 0 <= t < out.len() implies out[t] == x || exists|u: int|
            0 <= u < s.len() && out[t] == s[u] by {
            if t > 0 {
                assert(out[t] == s[t - 1]);
            }
        }
    }
}

/// The sort is sorted.
proof fn lemma_sort_desc_sorted(s: Seq<TransactionView>)
    ensures
        sorted_desc(spec_sort_desc(s)),
        spec_sort_desc(s).len() == s.len(),
    decreases s.len(),
{
    if s.len() > 0 {
        lemma_sort_desc_sorted(s.drop_last());
        lemma_insert_desc_sorted(spec_sort_desc(s.drop_last()), s.last());
    }
}

/// Inserting at the first position whose timestamp is older places the
/// element exactly where the recursive insertion does.
proof fn lemma_insert_desc_at(s: Seq<TransactionView>, x: TransactionView, k: int)
    requires
        0 <= k <= s.len(),
        forall|t: int| 0 <= t < k ==> s[t].block_timestamp >= x.block_timestamp,
        k < s.len() ==> s[k].block_timestamp < x.block_timestamp,
    ensures
        spec_insert_desc(s, x) == s.insert(k, x),
    decreases k,
{
    if k == 0 {
        if s.len() == 0 {
            assert(spec_insert_desc(s, x) =~= s.insert(0, x));
        } else {
            assert(spec_insert_desc(s, x) =~= s.insert(0, x));
        }
    } else {
        assert(forall|t: int|
            0 <= t < k - 1 ==> s.drop_first()[t] == s[t + 1]);
        assert(k - 1 < s.drop_first().len() ==> s.drop_first()[k - 1] == s[k]);
        lemma_insert_desc_at(s.drop_first(), x, k - 1);
        assert(spec_insert_desc(s, x) == seq![s[0]] + s.drop_first().insert(k - 1, x));
        assert(seq![s[0]] + s.drop_first().insert(k - 1, x) =~= s.insert(k, x));
    }
}

/// Inserts a transaction into a newest-first list, keeping it sorted and
/// placing it after every transaction at least as new.
fn insert_sorted(v: Vec<Transaction>, x: Transaction) -> (r: Vec<Transaction>)
    ensures
        r.deep_view() == spec_insert_desc(v.deep_view(), x@),
{
    let ghost dv = v.deep_view();
    let ghost xv = x@;
    let mut k: usize = 0;
    loop
        invariant
            k <= dv.len(),
            dv == v.deep_view(),
            dv.len() == v@.len(),
            xv == x@,
            forall|t: int| 0 <= t < k ==> dv[t].block_timestamp >= xv.block_timestamp,
        ensures
            k <= dv.len(),
            forall|t: int| 0 <= t < k ==> dv[t].block_timestamp >= xv.block_timestamp,
            k < dv.len() ==> dv[k as int].block_timestamp < xv.block_timestamp,
        decreases dv.len() - k,
    {
        if k == v.len() {
            break ;
        }
        if v[k].block_timestamp < x.block_timestamp {
            break ;
        }
        k = k + 1;
    }
    proof {
        lemma_insert_desc_at(dv, xv, k as int);
    }
    let mut out = v;
    out.insert(k, x);
    proof {
        assert(out.deep_view() =~= dv.insert(k as int, xv));
    }
    out
}

/// Shapes a fetched transaction list exactly as `spec_select_recent`
/// describes: the first occurrence of each hash survives, the result is
/// ordered newest-first (stably), and at most ten transactions remain.
pub fn select_recent(txs: &Vec<Transaction>) -> (r: Vec<Transaction>)
    ensures
        r.deep_view() == spec_select_recent(txs.deep_view()),
        sorted_desc(r.deep_view()),
        r@.len() <= 10,
{
    let ghost dv = txs.deep_view();
    // Keep the first transaction of each hash.
    let mut uniq: Vec<Transaction> = Vec::new();
    let mut i: usize = 0;
    proof {
        assert(uniq.deep_view() =~= Seq::<TransactionView>::empty());
        assert(dv.subrange(0, 0) =~= Seq::<TransactionView>::empty());
        assert(spec_dedup(dv.subrange(0, 0)) =~= Seq::<TransactionView>::empty());
    }
    while i < txs.len()
        invariant
            i <= dv.len(),
            dv == txs.deep_view(),
            dv.len() == txs@.len(),
            uniq.deep_view() == spec_dedup(dv.subrange(0, i as int)),
        decreases dv.len() - i,
    {
        let ghost prefix = dv.subrange(0, i as int);
        proof {
            assert(dv.subrange(0, i + 1 as int).drop_last() =~= prefix);
            assert(dv.subrange(0, i + 1 as int).last() == dv[i as int]);
        }
        // Scan the already-seen prefix for this hash.
        let mut seen = false;
        let mut w: usize = 0;
        loop
            invariant_except_break
                !seen,
            invariant
                w <= i,
                i < dv.len(),
                dv == txs.deep_view(),
                dv.len() == txs@.len(),
                forall|t: int| 0 <= t < w ==> dv[t].hash != dv[i as int].hash,
            ensures
                seen == hash_in(dv.subrange(0, i as int), dv[i as int].hash),
            decreases i - w,
        {
            if w == i {
                proof {
                    let pfx = dv.subrange(0, i as int);
                    assert forall|t: int| 0 <= t < i implies pfx[t].hash != dv[i as int].hash by {
                        assert(pfx[t] == dv[t]);
                    }
                    if hash_in(pfx, dv[i as int].hash) {
                        let t0 = choose|t: int|
                            0 <= t < pfx.len() && pfx[t].hash == dv[i as int].hash;
                        assert(false);
                    }
                }
                break ;
            }
            if str_eq(txs[w].hash.as_str(), txs[i].hash.as_str()) {
                proof {
                    assert(dv.subrange(0, i as int)[w as int] == dv[w as int]);
                }
                seen = true;
                break ;
            }
            w = w + 1;
        }
        let ghost uniq0 = uniq.deep_view();
        if !seen {
            let e = txs[i].clone();
            uniq.push(e);
            proof {
                assert(uniq.deep_view() =~= uniq0.push(dv[i as int]));
            }
        }
        i = i + 1;
    }
    proof {
        assert(dv.subrange(0, dv.len() as int) =~= dv);
    }
    // Sort newest-first, stably.
    let ghost uv = uniq.deep_view();
    let mut sorted: Vec<Transaction> = Vec::new();
    let mut j: usize = 0;
    proof {
        assert(sorted.deep_view() =~= Seq::<TransactionView>::empty());
        assert(uv.subrange(0, 0) =~= Seq::<TransactionView>::empty());
        assert(spec_sort_desc(uv.subrange(0, 0)) =~= Seq::<TransactionView>::empty());
    }
    while j < uniq.len()
        invariant
            j <= uv.len(),
            uv == uniq.deep_view(),
            uv.len() == uniq@.len(),
            sorted.deep_view() == spec_sort_desc(uv.subrange(0, j as int)),
        decreases uv.len() - j,
    {
        proof {
            assert(uv.subrange(0, j + 1 as int).drop_last() =~= uv.subrange(0, j as int));
            assert(uv.subrange(0, j + 1 as int).last() == uv[j as int]);
        }
        let e = uniq[j].clone();
        sorted = insert_sorted(sorted, e);
        j = j + 1;
    }
    proof {
        assert(uv.subrange(0, uv.len() as int) =~= uv);
        lemma_sort_desc_sorted(uv);
    }
    // Cap at ten.
    let mut out = sorted;
    if out.len() > 10 {
        out.truncate(10);
        proof {
            assert(out.deep_view() =~= spec_select_recent(dv));
            assert forall|p: int, q: int| 0 <= p < q < out.deep_view().len() implies out.deep_view(
            )[p].block_timestamp >= out.deep_view()[q].block_timestamp by {
                let whole = spec_sort_desc(spec_dedup(dv));
                assert(out.deep_view()[p] == whole[p] && out.deep_view()[q] == whole[q]);
            }
        }
    } else {
        proof {
            assert(out.deep_view() =~= spec_select_recent(dv));
        }
    }
    out
}

/// Reads a balance amount as the data source reports it: the whole text
/// must be one unsigned decimal number that fits in 128 bits.
pub fn parse_balance_amount(s: &str) -> (r: Option<u128>)
    ensures
        match spec_parse_u128_at(s@, 0) {
            Some((v, j)) => r == if j == s@.len() {
                Some(v)
            } else {
                None::<u128>
            },
            None => r is None,
        },
{
    let cs = str_to_chars(s);
    match parse_u128_at(&cs, 0) {
        Some((v, j)) => {
            if j == cs.len() {
                Some(v)
            } else {
                None
            }
        },
        None => None,
    }
}

} // verus!
