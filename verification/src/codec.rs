//! The textual snapshot format both stores persist to.
//!
//! A watchlist snapshot is an array of objects, each with the fields
//! `account_id` (a quoted string with `\"` and `\\` escapes), `last_balance`
//! (a decimal integer or `null`) and `chat_id` (a signed decimal integer),
//! in that order. A subscriber snapshot is an array of signed decimal
//! integers. The parser tolerates whitespace between tokens, so snapshots
//! written with pretty-printed layouts load as well. Parsing an encoded
//! snapshot gives back exactly the entries that were encoded.

use vstd::prelude::*;
use vstd::string::StrSliceExecFns;

use crate::bot::{MonitoredAccount, MonitoredAccountView};
use crate::num::{
    is_digit, parse_i64_at, parse_u128_at, spec_i64_to_dec, spec_parse_i64_at, spec_parse_u128_at,
    spec_u128_to_dec, i64_to_dec, u128_to_dec,
};
use crate::text::{chars_to_string, push_chars, push_str_chars, str_to_chars};

verus! {

/// Whether a character counts as whitespace between tokens.
pub open spec fn is_ws(c: char) -> bool {
    c == ' ' || c == '\n' || c == '\r' || c == '\t'
}

/// The first position at or after `i` that does not hold whitespace.
pub open spec fn spec_skip_ws(s: Seq<char>, i: int) -> int
    decreases s.len() - i,
{
    if 0 <= i && i < s.len() && is_ws(s[i]) {
        spec_skip_ws(s, i + 1)
    } else {
        i
    }
}

/// The text holds exactly `content` starting at position `i`.
pub open spec fn region_is(s: Seq<char>, i: int, content: Seq<char>) -> bool {
    &&& 0 <= i
    &&& i + content.len() <= s.len()
    &&& s.subrange(i, i + content.len() as int) == content
}

/// A region holding a concatenation splits into a region for each part.
pub proof fn lemma_region_split(s: Seq<char>, i: int, a: Seq<char>, b: Seq<char>)
    requires
        region_is(s, i, a + b),
    ensures
        region_is(s, i, a),
        region_is(s, i + a.len(), b),
{
    let whole = s.subrange(i, i + (a + b).len() as int);
    assert forall|k: int| 0 <= k < a.len() implies s.subrange(i, i + a.len() as int)[k] == a[k] by {
        assert(whole[k] == (a + b)[k]);
    }
    assert(s.subrange(i, i + a.len() as int) =~= a);
    assert forall|k: int| 0 <= k < b.len() implies s.subrange(
        i + a.len(),
        i + a.len() + b.len() as int,
    )[k] == b[k] by {
        assert(whole[a.len() + k] == (a + b)[a.len() + k]);
    }
    assert(s.subrange(i + a.len(), i + a.len() + b.len() as int) =~= b);
}

/// Regions for two adjacent parts join into one region for their
/// concatenation.
pub proof fn lemma_region_join(s: Seq<char>, i: int, a: Seq<char>, b: Seq<char>)
    requires
        region_is(s, i, a),
        region_is(s, i + a.len(), b),
    ensures
        region_is(s, i, a + b),
    {
    assert forall|k: int| 0 <= k < (a + b).len() implies s.subrange(
        i,
        i + (a + b).len() as int,
    )[k] == (a + b)[k] by {
        if k < a.len() {
            assert(s.subrange(i, i + a.len() as int)[k] == a[k]);
        } else {
            assert(s.subrange(i + a.len(), i + a.len() + b.len() as int)[k - a.len()] == b[k
                - a.len()]);
        }
    }
    assert(s.subrange(i, i + (a + b).len() as int) =~= a + b);
}

/// A region pins down each character it covers.
pub proof fn lemma_region_index(s: Seq<char>, i: int, content: Seq<char>, k: int)
    requires
        region_is(s, i, content),
        0 <= k < content.len(),
    ensures
        s[i + k] == content[k],
{
    assert(s.subrange(i, i + content.len() as int)[k] == content[k]);
}

/// The escaped form of one string character.
pub open spec fn spec_esc_char(c: char) -> Seq<char> {
    if c == '"' {
        seq!['\\', '"']
    } else if c == '\\' {
        seq!['\\', '\\']
    } else {
        seq![c]
    }
}

/// The escaped form of a whole string.
pub open spec fn spec_esc(t: Seq<char>) -> Seq<char>
    decreases t.len(),
{
    if t.len() == 0 {
        Seq::empty()
    } else {
        spec_esc_char(t[0]) + spec_esc(t.drop_first())
    }
}

/// Escaping one more character appends its escaped form.
pub proof fn lemma_esc_push(t: Seq<char>, c: char)
    ensures
        spec_esc(t.push(c)) == spec_esc(t) + spec_esc_char(c),
    decreases t.len(),
{
    if t.len() == 0 {
        assert(t.push(c).drop_first() =~= Seq::<char>::empty());
        assert(t.push(c)[0] == c);
        assert(spec_esc(t.push(c)) == spec_esc_char(c) + spec_esc(Seq::<char>::empty()));
        assert(spec_esc_char(c) + Seq::<char>::empty() =~= spec_esc_char(c));
        assert(spec_esc(t) + spec_esc_char(c) =~= spec_esc_char(c));
    } else {
        assert(t.push(c).drop_first() =~= t.drop_first().push(c));
        lemma_esc_push(t.drop_first(), c);
        assert(t.push(c)[0] == t[0]);
        assert(spec_esc(t.push(c)) == spec_esc_char(t[0]) + (spec_esc(t.drop_first())
            + spec_esc_char(c)));
        assert(spec_esc_char(t[0]) + (spec_esc(t.drop_first()) + spec_esc_char(c)) =~= (
        spec_esc_char(t[0]) + spec_esc(t.drop_first())) + spec_esc_char(c));
    }
}

/// Glues a prefix onto the outcome of a string-body parse.
pub open spec fn spec_join_str(a: Seq<char>, r: Option<(Seq<char>, int)>) -> Option<
    (Seq<char>, int),
> {
    match r {
        Some((t, j)) => Some((a + t, j)),
        None => None,
    }
}

/// The parse of a string body starting right after the opening quote:
/// the unescaped content together with the position after the closing
/// quote, or nothing when the string is unterminated or holds a bad escape.
pub open spec fn spec_parse_string_body(s: Seq<char>, i: int) -> Option<(Seq<char>, int)>
    decreases s.len() - i,
{
    if i < 0 || i >= s.len() {
        None
    } else if s[i] == '"' {
        Some((Seq::empty(), i + 1))
    } else if s[i] == '\\' {
        if i + 1 < s.len() && (s[i + 1] == '"' || s[i + 1] == '\\') {
            spec_join_str(seq![s[i + 1]], spec_parse_string_body(s, i + 2))
        } else {
            None
        }
    } else {
        spec_join_str(seq![s[i]], spec_parse_string_body(s, i + 1))
    }
}

/// The encoded form of an optional balance: `null` or the decimal value.
pub open spec fn spec_encode_balance(b: Option<u128>) -> Seq<char> {
    match b {
        None => "null"@,
        Some(v) => spec_u128_to_dec(v),
    }
}

/// The parse of an optional balance: `null`, or an unsigned decimal value.
pub open spec fn spec_parse_balance(s: Seq<char>, i: int) -> Option<(Option<u128>, int)> {
    if region_is(s, i, "null"@) {
        Some((None, i + "null"@.len() as int))
    } else {
        match spec_parse_u128_at(s, i) {
            Some((v, j)) => Some((Some(v), j)),
            None => None,
        }
    }
}

/// Consumes whitespace, then one expected character.
pub open spec fn spec_expect_char(s: Seq<char>, i: int, c: char) -> Option<int> {
    let j = spec_skip_ws(s, i);
    if j < s.len() && s[j] == c {
        Some(j + 1)
    } else {
        None
    }
}

/// Consumes whitespace, then one expected literal.
pub open spec fn spec_expect_lit(s: Seq<char>, i: int, lit: Seq<char>) -> Option<int> {
    let j = spec_skip_ws(s, i);
    if region_is(s, j, lit) {
        Some(j + lit.len() as int)
    } else {
        None
    }
}

/// The encoded form of one watchlist entry.
pub open spec fn spec_encode_entry(e: MonitoredAccountView) -> Seq<char> {
    seq!['{'] + "\"account_id\""@ + seq![':'] + seq!['"'] + spec_esc(e.account_id) + seq!['"']
        + seq![','] + "\"last_balance\""@ + seq![':'] + spec_encode_balance(e.last_balance)
        + seq![','] + "\"chat_id\""@ + seq![':'] + spec_i64_to_dec(e.chat_id) + seq!['}']
}

/// The parse of one watchlist entry object.
#[verifier::opaque]
pub open spec fn spec_parse_entry(s: Seq<char>, i: int) -> Option<(MonitoredAccountView, int)> {
    match spec_expect_char(s, i, '{') {
        None => None,
        Some(i1) => match spec_expect_lit(s, i1, "\"account_id\""@) {
            None => None,
            Some(i2) => match spec_expect_char(s, i2, ':') {
                None => None,
                Some(i3) => match spec_expect_char(s, i3, '"') {
                    None => None,
                    Some(i4) => match spec_parse_string_body(s, i4) {
                        None => None,
                        Some((acct, i5)) => match spec_expect_char(s, i5, ',') {
                            None => None,
                            Some(i6) => match spec_expect_lit(s, i6, "\"last_balance\""@) {
                                None => None,
                                Some(i7) => match spec_expect_char(s, i7, ':') {
                                    None => None,
                                    Some(i8) => match spec_parse_balance(
                                        s,
                                        spec_skip_ws(s, i8),
                                    ) {
                                        None => None,
                                        Some((bal, i9)) => match spec_expect_char(s, i9, ',') {
                                            None => None,
                                            Some(i10) => match spec_expect_lit(
                                                s,
                                                i10,
                                                "\"chat_id\""@,
                                            ) {
                                                None => None,
                                                Some(i11) => match spec_expect_char(s, i11, ':') {
                                                    None => None,
                                                    Some(i12) => match spec_parse_i64_at(
                                                        s,
                                                        spec_skip_ws(s, i12),
                                                    ) {
                                                        None => None,
                                                        Some((cid, i13)) => match spec_expect_char(
                                                            s,
                                                            i13,
                                                            '}',
                                                        ) {
                                                            None => None,
                                                            Some(i14) => Some(
                                                                (
                                                                    MonitoredAccountView {
                                                                        account_id: acct,
                                                                        last_balance: bal,
                                                                        chat_id: cid,
                                                                    },
                                                                    i14,
                                                                ),
                                                            ),
                                                        },
                                                    },
                                                },
                                            },
                                        },
                                    },
                                },
                            },
                        },
                    },
                },
            },
        },
    }
}

/// The encoded form of every entry after the first, each preceded by a
/// comma.
pub open spec fn spec_encode_entries_tail(es: Seq<MonitoredAccountView>) -> Seq<char>
    decreases es.len(),
{
    if es.len() == 0 {
        Seq::empty()
    } else {
        seq![','] + spec_encode_entry(es[0]) + spec_encode_entries_tail(es.drop_first())
    }
}

/// The encoded form of a whole watchlist.
pub open spec fn spec_encode_watchlist(es: Seq<MonitoredAccountView>) -> Seq<char> {
    if es.len() == 0 {
        seq!['['] + seq![']']
    } else {
        seq!['['] + spec_encode_entry(es[0]) + spec_encode_entries_tail(es.drop_first())
            + seq![']']
    }
}

/// Glues a first entry onto the outcome of a list-tail parse.
pub open spec fn spec_join_entries(
    e: MonitoredAccountView,
    r: Option<(Seq<MonitoredAccountView>, int)>,
) -> Option<(Seq<MonitoredAccountView>, int)> {
    match r {
        Some((es, j)) => Some((seq![e] + es, j)),
        None => None,
    }
}

/// The parse of the remainder of an entry list: either the closing bracket,
/// or a comma, one more entry, and the rest.
pub open spec fn spec_parse_entries_rest(s: Seq<char>, i: int) -> Option<
    (Seq<MonitoredAccountView>, int),
>
    decreases s.len() - i,
{
    let j = spec_skip_ws(s, i);
    if j < s.len() && s[j] == ']' {
        Some((Seq::empty(), j + 1))
    } else if j < s.len() && s[j] == ',' {
        match spec_parse_entry(s, j + 1) {
            Some((e, k)) => if i < k <= s.len() {
                spec_join_entries(e, spec_parse_entries_rest(s, k))
            } else {
                None
            },
            None => None,
        }
    } else {
        None
    }
}

/// The parse of a whole watchlist snapshot; trailing whitespace is allowed,
/// anything else after the list is refused.
pub open spec fn spec_parse_watchlist(s: Seq<char>) -> Option<Seq<MonitoredAccountView>> {
    match spec_expect_char(s, 0, '[') {
        None => None,
        Some(i1) => {
            let j = spec_skip_ws(s, i1);
            if j < s.len() && s[j] == ']' {
                if spec_skip_ws(s, j + 1) == s.len() {
                    Some(Seq::empty())
                } else {
                    None
                }
            } else {
                match spec_parse_entry(s, i1) {
                    None => None,
                    Some((e, k)) => if k <= s.len() {
                        match spec_parse_entries_rest(s, k) {
                            None => None,
                            Some((es, m)) => if spec_skip_ws(s, m) == s.len() {
                                Some(seq![e] + es)
                            } else {
                                None
                            },
                        }
                    } else {
                        None
                    },
                }
            }
        },
    }
}

/// The encoded form of every subscriber id after the first.
pub open spec fn spec_encode_users_tail(us: Seq<i64>) -> Seq<char>
    decreases us.len(),
{
    if us.len() == 0 {
        Seq::empty()
    } else {
        seq![','] + spec_i64_to_dec(us[0]) + spec_encode_users_tail(us.drop_first())
    }
}

/// The encoded form of the subscriber id list.
pub open spec fn spec_encode_users(us: Seq<i64>) -> Seq<char> {
    if us.len() == 0 {
        seq!['['] + seq![']']
    } else {
        seq!['['] + spec_i64_to_dec(us[0]) + spec_encode_users_tail(us.drop_first()) + seq![']']
    }
}

/// Glues a first subscriber id onto the outcome of a list-tail parse.
pub open spec fn spec_join_users(u: i64, r: Option<(Seq<i64>, int)>) -> Option<(Seq<i64>, int)> {
    match r {
        Some((us, j)) => Some((seq![u] + us, j)),
        None => None,
    }
}

/// The parse of the remainder of a subscriber id list.
pub open spec fn spec_parse_users_rest(s: Seq<char>, i: int) -> Option<(Seq<i64>, int)>
    decreases s.len() - i,
{
    let j = spec_skip_ws(s, i);
    if j < s.len() && s[j] == ']' {
        Some((Seq::empty(), j + 1))
    } else if j < s.len() && s[j] == ',' {
        match spec_parse_i64_at(s, spec_skip_ws(s, j + 1)) {
            Some((u, k)) => if i < k <= s.len() {
                spec_join_users(u, spec_parse_users_rest(s, k))
            } else {
                None
            },
            None => None,
        }
    } else {
        None
    }
}

/// Glues a prefix onto the outcome of an entry-list parse.
pub open spec fn spec_join_list(
    a: Seq<MonitoredAccountView>,
    r: Option<(Seq<MonitoredAccountView>, int)>,
) -> Option<(Seq<MonitoredAccountView>, int)> {
    match r {
        Some((es, j)) => Some((a + es, j)),
        None => None,
    }
}

/// Glues a prefix onto the outcome of a subscriber-list parse.
pub open spec fn spec_join_ids(a: Seq<i64>, r: Option<(Seq<i64>, int)>) -> Option<
    (Seq<i64>, int),
> {
    match r {
        Some((us, j)) => Some((a + us, j)),
        None => None,
    }
}

/// The parse of a whole subscriber snapshot.
pub open spec fn spec_parse_users(s: Seq<char>) -> Option<Seq<i64>> {
    match spec_expect_char(s, 0, '[') {
        None => None,
        Some(i1) => {
            let j = spec_skip_ws(s, i1);
            if j < s.len() && s[j] == ']' {
                if spec_skip_ws(s, j + 1) == s.len() {
                    Some(Seq::empty())
                } else {
                    None
                }
            } else {
                match spec_parse_i64_at(s, j) {
                    None => None,
                    Some((u, k)) => if k <= s.len() {
                        match spec_parse_users_rest(s, k) {
                            None => None,
                            Some((us, m)) => if spec_skip_ws(s, m) == s.len() {
                                Some(seq![u] + us)
                            } else {
                                None
                            },
                        }
                    } else {
                        None
                    },
                }
            }
        },
    }
}

/// Appends the escaped form of a string to the output.
fn push_escaped(out: &mut Vec<char>, t: &str)
    ensures
        final (out)@ == old(out)@ + spec_esc(t@),
{
    let n = t.unicode_len();
    let mut i: usize = 0;
    while i < n
        invariant
            i <= n,
            n == t@.len(),
            out@ == old(out)@ + spec_esc(t@.subrange(0, i as int)),
        decreases n - i,
    {
        let c = t.get_char(i);
        if c == '"' {
            out.push('\\');
            out.push('"');
        } else if c == '\\' {
            out.push('\\');
            out.push('\\');
        } else {
            out.push(c);
        }
        proof {
            assert(t@.subrange(0, i + 1 as int) =~= t@.subrange(0, i as int).push(t@[i as int]));
            lemma_esc_push(t@.subrange(0, i as int), t@[i as int]);
            assert(out@ =~= old(out)@ + spec_esc(t@.subrange(0, i + 1 as int)));
        }
        i = i + 1;
    }
    proof {
        assert(t@.subrange(0, n as int) =~= t@);
    }
}

/// Appends the encoded form of one entry to the output.
fn push_entry(out: &mut Vec<char>, e: &MonitoredAccount)
    ensures
        final (out)@ == old(out)@ + spec_encode_entry(e@),
{
    out.push('{');
    push_str_chars(out, "\"account_id\"");
    out.push(':');
    out.push('"');
    push_escaped(out, e.account_id.as_str());
    out.push('"');
    out.push(',');
    push_str_chars(out, "\"last_balance\"");
    out.push(':');
    match e.last_balance {
        None => push_str_chars(out, "null"),
        Some(v) => {
            let d = u128_to_dec(v);
            push_chars(out, &d);
        },
    }
    out.push(',');
    push_str_chars(out, "\"chat_id\"");
    out.push(':');
    let d2 = i64_to_dec(e.chat_id);
    push_chars(out, &d2);
    out.push('}');
    proof {
        assert(out@ =~= old(out)@ + spec_encode_entry(e@));
    }
}

/// Encoding one more entry at the end of a list tail appends a comma and
/// the entry's encoding.
proof fn lemma_encode_tail_push(es: Seq<MonitoredAccountView>, e: MonitoredAccountView)
    ensures
        spec_encode_entries_tail(es.push(e)) == spec_encode_entries_tail(es) + seq![',']
            + spec_encode_entry(e),
    decreases es.len(),
{
    if es.len() == 0 {
        assert(es.push(e).drop_first() =~= Seq::<MonitoredAccountView>::empty());
        assert(es.push(e)[0] == e);
        assert(spec_encode_entries_tail(Seq::<MonitoredAccountView>::empty())
            == Seq::<char>::empty());
        assert(spec_encode_entries_tail(es.push(e)) == seq![','] + spec_encode_entry(e)
            + Seq::<char>::empty());
        assert(spec_encode_entries_tail(es.push(e)) =~= spec_encode_entries_tail(es) + seq![',']
            + spec_encode_entry(e));
    } else {
        assert(es.push(e).drop_first() =~= es.drop_first().push(e));
        lemma_encode_tail_push(es.drop_first(), e);
        assert(es.push(e)[0] == es[0]);
        assert(spec_encode_entries_tail(es.push(e)) == seq![','] + spec_encode_entry(es[0])
            + spec_encode_entries_tail(es.drop_first().push(e)));
        assert(seq![','] + spec_encode_entry(es[0]) + (spec_encode_entries_tail(es.drop_first())
            + seq![','] + spec_encode_entry(e)) =~= (seq![','] + spec_encode_entry(es[0])
            + spec_encode_entries_tail(es.drop_first())) + seq![','] + spec_encode_entry(e));
    }
}

/// Encodes a whole watchlist as snapshot text.
pub fn encode_watchlist(accounts: &Vec<MonitoredAccount>) -> (s: String)
    ensures
        s@ == spec_encode_watchlist(accounts.deep_view()),
{
    let ghost dv = accounts.deep_view();
    let mut out: Vec<char> = Vec::new();
    out.push('[');
    if accounts.len() > 0 {
        push_entry(&mut out, &accounts[0]);
        proof {
            assert(dv.subrange(1, 1) =~= Seq::<MonitoredAccountView>::empty());
            assert(out@ =~= seq!['['] + spec_encode_entry(dv[0]) + spec_encode_entries_tail(
                dv.subrange(1, 1),
            ));
        }
        let mut i: usize = 1;
        while i < accounts.len()
            invariant
                1 <= i <= accounts@.len(),
                dv == accounts.deep_view(),
                dv.len() == accounts@.len(),
                out@ == seq!['['] + spec_encode_entry(dv[0]) + spec_encode_entries_tail(
                    dv.subrange(1, i as int),
                ),
            decreases accounts@.len() - i,
        {
            out.push(',');
            push_entry(&mut out, &accounts[i]);
            proof {
                assert(dv.subrange(1, i + 1 as int) =~= dv.subrange(1, i as int).push(
                    dv[i as int],
                ));
                lemma_encode_tail_push(dv.subrange(1, i as int), dv[i as int]);
                assert(out@ =~= seq!['['] + spec_encode_entry(dv[0]) + spec_encode_entries_tail(
                    dv.subrange(1, i + 1 as int),
                ));
            }
            i = i + 1;
        }
        out.push(']');
        proof {
            assert(dv.subrange(1, dv.len() as int) =~= dv.drop_first());
            assert(out@ =~= spec_encode_watchlist(dv));
        }
    } else {
        out.push(']');
        proof {
            assert(out@ =~= spec_encode_watchlist(dv));
        }
    }
    chars_to_string(&out)
}

/// Encoding one more subscriber id at the end of a list tail appends a
/// comma and its decimal form.
proof fn lemma_encode_users_tail_push(us: Seq<i64>, u: i64)
    ensures
        spec_encode_users_tail(us.push(u)) == spec_encode_users_tail(us) + seq![',']
            + spec_i64_to_dec(u),
    decreases us.len(),
{
    if us.len() == 0 {
        assert(us.push(u).drop_first() =~= Seq::<i64>::empty());
        assert(us.push(u)[0] == u);
        assert(spec_encode_users_tail(Seq::<i64>::empty()) == Seq::<char>::empty());
        assert(spec_encode_users_tail(us.push(u)) == seq![','] + spec_i64_to_dec(u)
            + Seq::<char>::empty());
        assert(spec_encode_users_tail(us.push(u)) =~= spec_encode_users_tail(us) + seq![',']
            + spec_i64_to_dec(u));
    } else {
        assert(us.push(u).drop_first() =~= us.drop_first().push(u));
        lemma_encode_users_tail_push(us.drop_first(), u);
        assert(us.push(u)[0] == us[0]);
        assert(spec_encode_users_tail(us.push(u)) == seq![','] + spec_i64_to_dec(us[0])
            + spec_encode_users_tail(us.drop_first().push(u)));
        assert(seq![','] + spec_i64_to_dec(us[0]) + (spec_encode_users_tail(us.drop_first())
            + seq![','] + spec_i64_to_dec(u)) =~= (seq![','] + spec_i64_to_dec(us[0])
            + spec_encode_users_tail(us.drop_first())) + seq![','] + spec_i64_to_dec(u));
    }
}

/// Encodes the subscriber id list as snapshot text.
pub fn encode_users(users: &Vec<i64>) -> (s: String)
    ensures
        s@ == spec_encode_users(users@),
{
    let ghost uv = users@;
    let mut out: Vec<char> = Vec::new();
    out.push('[');
    if users.len() > 0 {
        let d = i64_to_dec(users[0]);
        push_chars(&mut out, &d);
        proof {
            assert(uv.subrange(1, 1) =~= Seq::<i64>::empty());
            assert(out@ =~= seq!['['] + spec_i64_to_dec(uv[0]) + spec_encode_users_tail(
                uv.subrange(1, 1),
            ));
        }
        let mut i: usize = 1;
        while i < users.len()
            invariant
                1 <= i <= uv.len(),
                uv == users@,
                out@ == seq!['['] + spec_i64_to_dec(uv[0]) + spec_encode_users_tail(
                    uv.subrange(1, i as int),
                ),
            decreases uv.len() - i,
        {
            out.push(',');
            let di = i64_to_dec(users[i]);
            push_chars(&mut out, &di);
            proof {
                assert(uv.subrange(1, i + 1 as int) =~= uv.subrange(1, i as int).push(
                    uv[i as int],
                ));
                lemma_encode_users_tail_push(uv.subrange(1, i as int), uv[i as int]);
                assert(out@ =~= seq!['['] + spec_i64_to_dec(uv[0]) + spec_encode_users_tail(
                    uv.subrange(1, i + 1 as int),
                ));
            }
            i = i + 1;
        }
        out.push(']');
        proof {
            assert(uv.subrange(1, uv.len() as int) =~= uv.drop_first());
            assert(out@ =~= spec_encode_users(uv));
        }
    } else {
        out.push(']');
        proof {
            assert(out@ =~= spec_encode_users(uv));
        }
    }
    chars_to_string(&out)
}

/// Consumes whitespace characters, exactly as `spec_skip_ws` describes.
fn skip_ws(s: &Vec<char>, i: usize) -> (j: usize)
    requires
        i <= s@.len(),
    ensures
        j as int == spec_skip_ws(s@, i as int),
        i <= j <= s@.len(),
{
    let mut k: usize = i;
    loop
        invariant
            i <= k <= s@.len(),
            spec_skip_ws(s@, i as int) == spec_skip_ws(s@, k as int),
        ensures
            i <= k <= s@.len(),
            k as int == spec_skip_ws(s@, i as int),
        decreases s@.len() - k,
    {
        if k == s.len() {
            break ;
        }
        let c = s[k];
        if c == ' ' || c == '\n' || c == '\r' || c == '\t' {
            k = k + 1;
        } else {
            break ;
        }
    }
    k
}

/// Consumes whitespace and one expected character, exactly as
/// `spec_expect_char` describes.
fn expect_char(s: &Vec<char>, i: usize, c: char) -> (r: Option<usize>)
    requires
        i <= s@.len(),
    ensures
        match r {
            Some(j) => spec_expect_char(s@, i as int, c) == Some(j as int) && j <= s@.len(),
            None => spec_expect_char(s@, i as int, c) is None,
        },
{
    let j = skip_ws(s, i);
    if j < s.len() && s[j] == c {
        Some(j + 1)
    } else {
        None
    }
}

/// Consumes whitespace and one expected literal, exactly as
/// `spec_expect_lit` describes.
fn expect_lit(s: &Vec<char>, i: usize, lit: &str) -> (r: Option<usize>)
    requires
        i <= s@.len(),
    ensures
        match r {
            Some(j) => spec_expect_lit(s@, i as int, lit@) == Some(j as int) && j <= s@.len(),
            None => spec_expect_lit(s@, i as int, lit@) is None,
        },
{
    let j = skip_ws(s, i);
    let n = lit.unicode_len();
    if n > s.len() - j {
        return None;
    }
    let mut k: usize = 0;
    while k < n
        invariant
            k <= n,
            n == lit@.len(),
            i <= j <= s@.len(),
            s@.len() <= usize::MAX,
            j + n <= s@.len(),
            j as int == spec_skip_ws(s@, i as int),
            forall|t: int| 0 <= t < k ==> s@[j + t] == lit@[t],
        decreases n - k,
    {
        proof {
            assert(j + k < s@.len());
        }
        if s[j + k] != lit.get_char(k) {
            proof {
                if region_is(s@, j as int, lit@) {
                    lemma_region_index(s@, j as int, lit@, k as int);
                    assert(false);
                }
            }
            return None;
        }
        k = k + 1;
    }
    proof {
        assert(s@.subrange(j as int, j + n as int) =~= lit@);
    }
    Some(j + n)
}

/// Gluing two prefixes one after the other is gluing their concatenation.
proof fn lemma_join_str_assoc(a: Seq<char>, b: Seq<char>, r: Option<(Seq<char>, int)>)
    ensures
        spec_join_str(a, spec_join_str(b, r)) == spec_join_str(a + b, r),
{
    match r {
        Some((t, j)) => {
            assert(a + (b + t) =~= (a + b) + t);
        },
        None => {},
    }
}

/// Parses a string body, exactly as `spec_parse_string_body` describes.
fn parse_string_body(s: &Vec<char>, i: usize) -> (r: Option<(Vec<char>, usize)>)
    requires
        i <= s@.len(),
    ensures
        match r {
            Some(p) => spec_parse_string_body(s@, i as int) == Some((p.0@, p.1 as int)) && p.1
                <= s@.len(),
            None => spec_parse_string_body(s@, i as int) is None,
        },
{
    let mut acc: Vec<char> = Vec::new();
    let mut k: usize = i;
    loop
        invariant
            i <= k <= s@.len(),
            spec_parse_string_body(s@, i as int) == spec_join_str(
                acc@,
                spec_parse_string_body(s@, k as int),
            ),
        decreases s@.len() - k,
    {
        if k == s.len() {
            return None;
        }
        let c = s[k];
        if c == '"' {
            proof {
                assert(acc@ + Seq::<char>::empty() =~= acc@);
            }
            return Some((acc, k + 1));
        } else if c == '\\' {
            if k + 1 < s.len() {
                let c2 = s[k + 1];
                if c2 == '"' || c2 == '\\' {
                    proof {
                        lemma_join_str_assoc(
                            acc@,
                            seq![s@[k + 1]],
                            spec_parse_string_body(s@, k + 2),
                        );
                    }
                    let ghost acc0 = acc@;
                    acc.push(c2);
                    proof {
                        assert(acc@ =~= acc0 + seq![s@[k + 1]]);
                    }
                    k = k + 2;
                } else {
                    return None;
                }
            } else {
                return None;
            }
        } else {
            proof {
                lemma_join_str_assoc(acc@, seq![s@[k as int]], spec_parse_string_body(s@, k + 1));
            }
            let ghost acc0 = acc@;
            acc.push(c);
            proof {
                assert(acc@ =~= acc0 + seq![s@[k as int]]);
            }
            k = k + 1;
        }
    }
}

/// Parses an optional balance, exactly as `spec_parse_balance` describes.
fn parse_balance(s: &Vec<char>, i: usize) -> (r: Option<(Option<u128>, usize)>)
    requires
        i <= s@.len(),
    ensures
        match r {
            Some(p) => spec_parse_balance(s@, i as int) == Some((p.0, p.1 as int)) && p.1
                <= s@.len(),
            None => spec_parse_balance(s@, i as int) is None,
        },
{
    proof {
        reveal_strlit("null");
    }
    if s.len() - i >= 4 && s[i] == 'n' && s[i + 1] == 'u' && s[i + 2] == 'l' && s[i + 3] == 'l' {
        proof {
            assert(s@.subrange(i as int, i + 4 as int) =~= "null"@);
        }
        Some((None, i + 4))
    } else {
        proof {
            if region_is(s@, i as int, "null"@) {
                lemma_region_index(s@, i as int, "null"@, 0);
                lemma_region_index(s@, i as int, "null"@, 1);
                lemma_region_index(s@, i as int, "null"@, 2);
                lemma_region_index(s@, i as int, "null"@, 3);
                assert(false);
            }
        }
        match parse_u128_at(s, i) {
            Some((v, j)) => Some((Some(v), j)),
            None => None,
        }
    }
}

/// Parses one entry object, exactly as `spec_parse_entry` describes.
fn parse_entry(s: &Vec<char>, i: usize) -> (r: Option<(MonitoredAccount, usize)>)
    requires
        i <= s@.len(),
    ensures
        match r {
            Some(p) => spec_parse_entry(s@, i as int) == Some((p.0@, p.1 as int)) && p.1
                <= s@.len(),
            None => spec_parse_entry(s@, i as int) is None,
        },
{
    proof {
        reveal(spec_parse_entry);
    }
    let i1 = match expect_char(s, i, '{') {
        Some(j) => j,
        None => {
            return None;
        },
    };
    let i2 = match expect_lit(s, i1, "\"account_id\"") {
        Some(j) => j,
        None => {
            return None;
        },
    };
    let i3 = match expect_char(s, i2, ':') {
        Some(j) => j,
        None => {
            return None;
        },
    };
    let i4 = match expect_char(s, i3, '"') {
        Some(j) => j,
        None => {
            return None;
        },
    };
    let (acct, i5) = match parse_string_body(s, i4) {
        Some(p) => p,
        None => {
            return None;
        },
    };
    let i6 = match expect_char(s, i5, ',') {
        Some(j) => j,
        None => {
            return None;
        },
    };
    let i7 = match expect_lit(s, i6, "\"last_balance\"") {
        Some(j) => j,
        None => {
            return None;
        },
    };
    let i8 = match expect_char(s, i7, ':') {
        Some(j) => j,
        None => {
            return None;
        },
    };
    let i8w = skip_ws(s, i8);
    let (bal, i9) = match parse_balance(s, i8w) {
        Some(p) => p,
        None => {
            return None;
        },
    };
    let i10 = match expect_char(s, i9, ',') {
        Some(j) => j,
        None => {
            return None;
        },
    };
    let i11 = match expect_lit(s, i10, "\"chat_id\"") {
        Some(j) => j,
        None => {
            return None;
        },
    };
    let i12 = match expect_char(s, i11, ':') {
        Some(j) => j,
        None => {
            return None;
        },
    };
    let i12w = skip_ws(s, i12);
    let (cid, i13) = match parse_i64_at(s, i12w) {
        Some(p) => p,
        None => {
            return None;
        },
    };
    let i14 = match expect_char(s, i13, '}') {
        Some(j) => j,
        None => {
            return None;
        },
    };
    let e = MonitoredAccount { account_id: chars_to_string(&acct), last_balance: bal, chat_id: cid };
    Some((e, i14))
}

/// Gluing an entry and then a prefix list is gluing the extended prefix.
proof fn lemma_join_list_step(
    a: Seq<MonitoredAccountView>,
    e: MonitoredAccountView,
    r: Option<(Seq<MonitoredAccountView>, int)>,
)
    ensures
        spec_join_list(a, spec_join_entries(e, r)) == spec_join_list(a.push(e), r),
{
    match r {
        Some((es, j)) => {
            assert(a + (seq![e] + es) =~= a.push(e) + es);
        },
        None => {},
    }
}

/// Parses the remainder of an entry list, exactly as
/// `spec_parse_entries_rest` describes.
fn parse_entries_rest(s: &Vec<char>, i: usize) -> (r: Option<(Vec<MonitoredAccount>, usize)>)
    requires
        i <= s@.len(),
    ensures
        match r {
            Some(p) => spec_parse_entries_rest(s@, i as int) == Some((p.0.deep_view(), p.1 as int))
                && p.1 <= s@.len(),
            None => spec_parse_entries_rest(s@, i as int) is None,
        },
{
    let mut acc: Vec<MonitoredAccount> = Vec::new();
    let mut k: usize = i;
    proof {
        assert(acc.deep_view() =~= Seq::<MonitoredAccountView>::empty());
        match spec_parse_entries_rest(s@, i as int) {
            Some((es, j)) => {
                assert(Seq::<MonitoredAccountView>::empty() + es =~= es);
            },
            None => {},
        }
    }
    loop
        invariant
            i <= k <= s@.len(),
            spec_parse_entries_rest(s@, i as int) == spec_join_list(
                acc.deep_view(),
                spec_parse_entries_rest(s@, k as int),
            ),
        decreases s@.len() - k,
    {
        let j = skip_ws(s, k);
        if j < s.len() && s[j] == ']' {
            return Some((acc, j + 1));
        }
        if !(j < s.len() && s[j] == ',') {
            return None;
        }
        match parse_entry(s, j + 1) {
            Some((e, m)) => {
                if k < m {
                    proof {
                        lemma_join_list_step(
                            acc.deep_view(),
                            e@,
                            spec_parse_entries_rest(s@, m as int),
                        );
                    }
                    let ghost acc0 = acc.deep_view();
                    acc.push(e);
                    proof {
                        assert(acc.deep_view() =~= acc0.push(e@));
                    }
                    k = m;
                } else {
                    return None;
                }
            },
            None => {
                return None;
            },
        }
    }
}

/// Parses a whole watchlist snapshot, exactly as `spec_parse_watchlist`
/// describes. `None` means the text is not a well-formed snapshot.
pub fn decode_watchlist(s: &str) -> (r: Option<Vec<MonitoredAccount>>)
    ensures
        match r {
            Some(v) => spec_parse_watchlist(s@) == Some(v.deep_view()),
            None => spec_parse_watchlist(s@) is None,
        },
{
    let cs = str_to_chars(s);
    let i1 = match expect_char(&cs, 0, '[') {
        Some(j) => j,
        None => {
            return None;
        },
    };
    let j = skip_ws(&cs, i1);
    if j < cs.len() && cs[j] == ']' {
        let j2 = skip_ws(&cs, j + 1);
        if j2 == cs.len() {
            let v: Vec<MonitoredAccount> = Vec::new();
            proof {
                assert(v.deep_view() =~= Seq::<MonitoredAccountView>::empty());
            }
            return Some(v);
        } else {
            return None;
        }
    }
    let (e, k) = match parse_entry(&cs, i1) {
        Some(p) => p,
        None => {
            return None;
        },
    };
    let (es, m) = match parse_entries_rest(&cs, k) {
        Some(p) => p,
        None => {
            return None;
        },
    };
    let j3 = skip_ws(&cs, m);
    if j3 == cs.len() {
        let ghost esdv = es.deep_view();
        let mut v: Vec<MonitoredAccount> = Vec::new();
        let ghost ev = e@;
        v.push(e);
        let mut rest = es;
        v.append(&mut rest);
        proof {
            assert(v.deep_view() =~= seq![ev] + esdv);
        }
        Some(v)
    } else {
        None
    }
}

/// Gluing a subscriber id and then a prefix list is gluing the extended
/// prefix.
proof fn lemma_join_ids_step(a: Seq<i64>, u: i64, r: Option<(Seq<i64>, int)>)
    ensures
        spec_join_ids(a, spec_join_users(u, r)) == spec_join_ids(a.push(u), r),
{
    match r {
        Some((us, j)) => {
            assert(a + (seq![u] + us) =~= a.push(u) + us);
        },
        None => {},
    }
}

/// Parses the remainder of a subscriber id list, exactly as
/// `spec_parse_users_rest` describes.
fn parse_users_rest(s: &Vec<char>, i: usize) -> (r: Option<(Vec<i64>, usize)>)
    requires
        i <= s@.len(),
    ensures
        match r {
            Some(p) => spec_parse_users_rest(s@, i as int) == Some((p.0@, p.1 as int)) && p.1
                <= s@.len(),
            None => spec_parse_users_rest(s@, i as int) is None,
        },
{
    let mut acc: Vec<i64> = Vec::new();
    let mut k: usize = i;
    proof {
        match spec_parse_users_rest(s@, i as int) {
            Some((us, j)) => {
                assert(Seq::<i64>::empty() + us =~= us);
            },
            None => {},
        }
    }
    loop
        invariant
            i <= k <= s@.len(),
            spec_parse_users_rest(s@, i as int) == spec_join_ids(
                acc@,
                spec_parse_users_rest(s@, k as int),
            ),
        decreases s@.len() - k,
    {
        let j = skip_ws(s, k);
        if j < s.len() && s[j] == ']' {
            return Some((acc, j + 1));
        }
        if !(j < s.len() && s[j] == ',') {
            return None;
        }
        let jw = skip_ws(s, j + 1);
        match parse_i64_at(s, jw) {
            Some((u, m)) => {
                if k < m {
                    proof {
                        lemma_join_ids_step(acc@, u, spec_parse_users_rest(s@, m as int));
                    }
                    let ghost acc0 = acc@;
                    acc.push(u);
                    proof {
                        assert(acc@ =~= acc0.push(u));
                    }
                    k = m;
                } else {
                    return None;
                }
            },
            None => {
                return None;
            },
        }
    }
}

/// Skipping whitespace at a non-whitespace character (or at the end of the
/// text) consumes nothing.
proof fn lemma_skip_ws_nop(s: Seq<char>, i: int)
    requires
        0 <= i,
        i < s.len() ==> !is_ws(s[i]),
    ensures
        spec_skip_ws(s, i) == i,
{
}

/// An expected character standing at the position is consumed.
proof fn lemma_expect_char_region(s: Seq<char>, i: int, c: char)
    requires
        region_is(s, i, seq![c]),
        !is_ws(c),
    ensures
        spec_expect_char(s, i, c) == Some(i + 1),
{
    lemma_region_index(s, i, seq![c], 0);
    lemma_skip_ws_nop(s, i);
}

/// An expected literal standing at the position is consumed.
proof fn lemma_expect_lit_region(s: Seq<char>, i: int, lit: Seq<char>)
    requires
        region_is(s, i, lit),
        lit.len() > 0,
        !is_ws(lit[0]),
    ensures
        spec_expect_lit(s, i, lit) == Some(i + lit.len() as int),
{
    lemma_region_index(s, i, lit, 0);
    lemma_skip_ws_nop(s, i);
}

/// Parsing an escaped string followed by its closing quote gives back the
/// original content and stops right after the quote.
proof fn lemma_parse_esc(s: Seq<char>, i: int, t: Seq<char>)
    requires
        region_is(s, i, spec_esc(t) + seq!['"']),
    ensures
        spec_parse_string_body(s, i) == Some((t, i + spec_esc(t).len() + 1)),
    decreases t.len(),
{
    if t.len() == 0 {
        lemma_region_index(s, i, spec_esc(t) + seq!['"'], 0);
        assert(s[i] == '"');
        assert(t =~= Seq::<char>::empty());
    } else {
        let c = t[0];
        let t1 = t.drop_first();
        assert(spec_esc(t) == spec_esc_char(c) + spec_esc(t1));
        assert((spec_esc_char(c) + spec_esc(t1)) + seq!['"'] =~= spec_esc_char(c) + (spec_esc(t1)
            + seq!['"']));
        lemma_region_split(s, i, spec_esc_char(c), spec_esc(t1) + seq!['"']);
        let d = spec_esc_char(c).len() as int;
        lemma_parse_esc(s, i + d, t1);
        if c == '"' || c == '\\' {
            lemma_region_index(s, i, spec_esc_char(c), 0);
            lemma_region_index(s, i, spec_esc_char(c), 1);
            assert(s[i] == '\\');
            assert(s[i + 1] == c);
            assert(seq![s[i + 1]] + t1 =~= t);
        } else {
            lemma_region_index(s, i, spec_esc_char(c), 0);
            assert(s[i] == c);
            assert(seq![s[i]] + t1 =~= t);
        }
    }
}

/// Parsing an encoded balance followed by a non-digit gives back the
/// balance and stops right after it.
proof fn lemma_parse_balance_region(s: Seq<char>, i: int, b: Option<u128>)
    requires
        region_is(s, i, spec_encode_balance(b)),
        i + spec_encode_balance(b).len() < s.len() ==> !is_digit(
            s[i + spec_encode_balance(b).len() as int],
        ),
    ensures
        spec_parse_balance(s, i) == Some((b, i + spec_encode_balance(b).len() as int)),
{
    reveal_strlit("null");
    match b {
        None => {
        },
        Some(v) => {
            crate::num::lemma_u128_to_dec_val(v);
            if region_is(s, i, "null"@) {
                lemma_region_index(s, i, "null"@, 0);
                lemma_region_index(s, i, spec_u128_to_dec(v), 0);
                assert(false);
            }
            crate::num::lemma_parse_print_u128(s, i, v);
        },
    }
}

/// The first character of an encoded entry is its opening brace.
proof fn lemma_encode_entry_head(e: MonitoredAccountView)
    ensures
        spec_encode_entry(e).len() >= 1,
        spec_encode_entry(e)[0] == '{',
{
    assert(spec_encode_entry(e)[0] == '{');
}

/// Parsing an encoded entry gives back the entry and stops right after its
/// closing brace.
proof fn lemma_parse_entry_region(s: Seq<char>, i: int, e: MonitoredAccountView)
    requires
        region_is(s, i, spec_encode_entry(e)),
    ensures
        spec_parse_entry(s, i) == Some((e, i + spec_encode_entry(e).len() as int)),
{
    reveal(spec_parse_entry);
    reveal_strlit("\"account_id\"");
    reveal_strlit("\"last_balance\"");
    reveal_strlit("\"chat_id\"");
    reveal_strlit("null");
    let p1 = seq!['{'];
    let p2 = "\"account_id\""@;
    let p3 = seq![':'];
    let p4 = seq!['"'];
    let p5 = spec_esc(e.account_id);
    let p6 = seq!['"'];
    let p7 = seq![','];
    let p8 = "\"last_balance\""@;
    let p9 = seq![':'];
    let p10 = spec_encode_balance(e.last_balance);
    let p11 = seq![','];
    let p12 = "\"chat_id\""@;
    let p13 = seq![':'];
    let p14 = spec_i64_to_dec(e.chat_id);
    let p15 = seq!['}'];
    let enc = spec_encode_entry(e);
    assert(enc == p1 + p2 + p3 + p4 + p5 + p6 + p7 + p8 + p9 + p10 + p11 + p12 + p13 + p14 + p15);
    lemma_region_split(s, i, p1 + p2 + p3 + p4 + p5 + p6 + p7 + p8 + p9 + p10 + p11 + p12 + p13
        + p14, p15);
    let q14 = i + enc.len() - 1;
    lemma_region_split(s, i, p1 + p2 + p3 + p4 + p5 + p6 + p7 + p8 + p9 + p10 + p11 + p12 + p13,
        p14);
    let q13 = q14 - p14.len();
    lemma_region_split(s, i, p1 + p2 + p3 + p4 + p5 + p6 + p7 + p8 + p9 + p10 + p11 + p12, p13);
    let q12 = q13 - 1;
    lemma_region_split(s, i, p1 + p2 + p3 + p4 + p5 + p6 + p7 + p8 + p9 + p10 + p11, p12);
    let q11 = q12 - p12.len();
    lemma_region_split(s, i, p1 + p2 + p3 + p4 + p5 + p6 + p7 + p8 + p9 + p10, p11);
    let q10 = q11 - 1;
    lemma_region_split(s, i, p1 + p2 + p3 + p4 + p5 + p6 + p7 + p8 + p9, p10);
    let q9 = q10 - p10.len();
    lemma_region_split(s, i, p1 + p2 + p3 + p4 + p5 + p6 + p7 + p8, p9);
    let q8 = q9 - 1;
    lemma_region_split(s, i, p1 + p2 + p3 + p4 + p5 + p6 + p7, p8);
    let q7 = q8 - p8.len();
    lemma_region_split(s, i, p1 + p2 + p3 + p4 + p5 + p6, p7);
    let q6 = q7 - 1;
    lemma_region_split(s, i, p1 + p2 + p3 + p4 + p5, p6);
    let q5 = q6 - 1;
    lemma_region_split(s, i, p1 + p2 + p3 + p4, p5);
    let q4 = q5 - p5.len();
    lemma_region_split(s, i, p1 + p2 + p3, p4);
    let q3 = q4 - 1;
    lemma_region_split(s, i, p1 + p2, p3);
    let q2 = q3 - 1;
    lemma_region_split(s, i, p1, p2);
    // The opening brace.
    lemma_expect_char_region(s, i, '{');
    // The account key, colon, and opening quote.
    lemma_expect_lit_region(s, i + 1, p2);
    lemma_expect_char_region(s, q2, ':');
    lemma_expect_char_region(s, q3, '"');
    // The escaped account text with its closing quote.
    lemma_region_join(s, q4, p5, p6);
    lemma_parse_esc(s, q4, e.account_id);
    // The comma, balance key and colon.
    lemma_expect_char_region(s, q5 + 1, ',');
    lemma_expect_lit_region(s, q6 + 1, p8);
    lemma_expect_char_region(s, q7 + p8.len(), ':');
    // The balance value; the comma after it is not a digit.
    assert(p10.len() > 0) by {
        match e.last_balance {
            None => {},
            Some(v) => {
                crate::num::lemma_u128_to_dec_val(v);
            },
        }
    }
    lemma_region_index(s, q9, p10, 0);
    assert(!is_ws(s[q9])) by {
        match e.last_balance {
            None => {},
            Some(v) => {
                crate::num::lemma_u128_to_dec_val(v);
            },
        }
    }
    lemma_skip_ws_nop(s, q9);
    lemma_region_index(s, q10, p11, 0);
    lemma_parse_balance_region(s, q9, e.last_balance);
    // The comma, chat key and colon.
    lemma_expect_char_region(s, q10, ',');
    lemma_expect_lit_region(s, q11, p12);
    lemma_expect_char_region(s, q12, ':');
    // The chat id; the closing brace after it is not a digit.
    assert(p14.len() > 0) by {
        if e.chat_id >= 0 {
            crate::num::lemma_u128_to_dec_val(e.chat_id as u128);
        }
    }
    lemma_region_index(s, q13, p14, 0);
    assert(!is_ws(s[q13])) by {
        if e.chat_id >= 0 {
            crate::num::lemma_u128_to_dec_val(e.chat_id as u128);
        } else {
            assert(p14[0] == '-');
        }
    }
    lemma_skip_ws_nop(s, q13);
    lemma_region_index(s, q14, p15, 0);
    crate::num::lemma_parse_print_i64(s, q13, e.chat_id);
    // The closing brace.
    lemma_expect_char_region(s, q14, '}');
}

/// Parsing an encoded entry-list tail followed by the closing bracket
/// gives back the entries and stops right after the bracket.
proof fn lemma_parse_entries_rest_region(s: Seq<char>, i: int, es: Seq<MonitoredAccountView>)
    requires
        region_is(s, i, spec_encode_entries_tail(es) + seq![']']),
    ensures
        spec_parse_entries_rest(s, i) == Some(
            (es, i + spec_encode_entries_tail(es).len() + 1),
        ),
    decreases es.len(),
{
    if es.len() == 0 {
        lemma_region_index(s, i, spec_encode_entries_tail(es) + seq![']'], 0);
        assert(s[i] == ']');
        lemma_skip_ws_nop(s, i);
        assert(es =~= Seq::<MonitoredAccountView>::empty());
    } else {
        let a = seq![','];
        let b = spec_encode_entry(es[0]);
        let c = spec_encode_entries_tail(es.drop_first());
        let d = seq![']'];
        assert(spec_encode_entries_tail(es) == a + b + c);
        assert((a + b + c) + d =~= (a + b) + (c + d));
        lemma_region_split(s, i, a + b, c + d);
        lemma_region_split(s, i, a, b);
        lemma_region_index(s, i, a, 0);
        assert(s[i] == ',');
        lemma_skip_ws_nop(s, i);
        lemma_parse_entry_region(s, i + 1, es[0]);
        let k: int = i + 1 + b.len();
        lemma_parse_entries_rest_region(s, k, es.drop_first());
        assert(seq![es[0]] + es.drop_first() =~= es);
    }
}

/// Parsing back an encoded watchlist snapshot yields exactly the entries
/// that were encoded: the persistence round trip loses nothing.
#[verifier::rlimit(100)]
pub proof fn lemma_watchlist_round_trip(es: Seq<MonitoredAccountView>)
    ensures
        spec_parse_watchlist(spec_encode_watchlist(es)) == Some(es),
{
    let s = spec_encode_watchlist(es);
    if es.len() == 0 {
        assert(s == seq!['['] + seq![']']);
        assert(s[0] == '[');
        assert(s[1] == ']');
        lemma_skip_ws_nop(s, 0);
        lemma_skip_ws_nop(s, 1);
        lemma_skip_ws_nop(s, 2);
        assert(spec_parse_watchlist(s) == Some(Seq::<MonitoredAccountView>::empty()));
        assert(es =~= Seq::<MonitoredAccountView>::empty());
    } else {
        lemma_watchlist_round_trip_cons(es);
    }
}

/// The non-empty case of the watchlist round trip.
#[verifier::rlimit(100)]
proof fn lemma_watchlist_round_trip_cons(es: Seq<MonitoredAccountView>)
    requires
        es.len() > 0,
    ensures
        spec_parse_watchlist(spec_encode_watchlist(es)) == Some(es),
{
    let s = spec_encode_watchlist(es);
    let a = seq!['['];
    let b = spec_encode_entry(es[0]);
    let c = spec_encode_entries_tail(es.drop_first());
    let d = seq![']'];
    assert(s == a + b + c + d);
    assert((a + b + c) + d =~= (a + b) + (c + d));
    assert(s.subrange(0, s.len() as int) =~= s);
    lemma_region_split(s, 0, a + b, c + d);
    lemma_region_split(s, 0, a, b);
    lemma_skip_ws_nop(s, 0);
    lemma_region_index(s, 0, a, 0);
    assert(spec_expect_char(s, 0, '[') == Some(1int));
    lemma_encode_entry_head(es[0]);
    lemma_region_index(s, 1, b, 0);
    assert(s[1] == '{');
    lemma_skip_ws_nop(s, 1);
    assert(spec_skip_ws(s, 1) == 1);
    lemma_parse_entry_region(s, 1, es[0]);
    let k: int = b.len() as int + 1;
    assert(spec_parse_entry(s, 1) == Some((es[0], k)));
    lemma_parse_entries_rest_region(s, k, es.drop_first());
    let m: int = k + c.len() + 1;
    assert(spec_parse_entries_rest(s, k) == Some((es.drop_first(), m)));
    assert(m == s.len());
    lemma_skip_ws_nop(s, s.len() as int);
    assert(seq![es[0]] + es.drop_first() =~= es);
}

/// The first character of a non-empty subscriber-list tail is its comma.
proof fn lemma_users_tail_head(us: Seq<i64>)
    requires
        us.len() > 0,
    ensures
        spec_encode_users_tail(us).len() >= 1,
        spec_encode_users_tail(us)[0] == ',',
{
    assert(spec_encode_users_tail(us)[0] == ',');
}

/// The decimal form of a subscriber id is non-empty and starts with a
/// minus sign or a digit.
proof fn lemma_i64_dec_head(u: i64)
    ensures
        spec_i64_to_dec(u).len() >= 1,
        spec_i64_to_dec(u)[0] == '-' || is_digit(spec_i64_to_dec(u)[0]),
{
    if u >= 0 {
        crate::num::lemma_u128_to_dec_val(u as u128);
    }
}

/// Parsing an encoded subscriber-list tail followed by the closing bracket
/// gives back the ids and stops right after the bracket.
proof fn lemma_parse_users_rest_region(s: Seq<char>, i: int, us: Seq<i64>)
    requires
        region_is(s, i, spec_encode_users_tail(us) + seq![']']),
    ensures
        spec_parse_users_rest(s, i) == Some((us, i + spec_encode_users_tail(us).len() + 1)),
    decreases us.len(),
{
    if us.len() == 0 {
        lemma_region_index(s, i, spec_encode_users_tail(us) + seq![']'], 0);
        assert(s[i] == ']');
        lemma_skip_ws_nop(s, i);
        assert(us =~= Seq::<i64>::empty());
    } else {
        let a = seq![','];
        let b = spec_i64_to_dec(us[0]);
        let c = spec_encode_users_tail(us.drop_first());
        let d = seq![']'];
        assert(spec_encode_users_tail(us) == a + b + c);
        assert((a + b + c) + d =~= (a + b) + (c + d));
        lemma_region_split(s, i, a + b, c + d);
        lemma_region_split(s, i, a, b);
        lemma_region_index(s, i, a, 0);
        assert(s[i] == ',');
        lemma_skip_ws_nop(s, i);
        lemma_i64_dec_head(us[0]);
        lemma_region_index(s, i + 1, b, 0);
        lemma_skip_ws_nop(s, i + 1);
        let k: int = i + 1 + b.len();
        // The character after the id is a comma or the bracket: not a digit.
        assert(k < s.len() ==> !is_digit(s[k])) by {
            if us.drop_first().len() == 0 {
                lemma_region_index(s, k, c + d, 0);
                assert((c + d)[0] == ']');
            } else {
                lemma_users_tail_head(us.drop_first());
                lemma_region_index(s, k, c + d, 0);
                assert((c + d)[0] == ',');
            }
        }
        crate::num::lemma_parse_print_i64(s, i + 1, us[0]);
        lemma_parse_users_rest_region(s, k, us.drop_first());
        assert(seq![us[0]] + us.drop_first() =~= us);
    }
}

/// Parsing back an encoded subscriber snapshot yields exactly the ids that
/// were encoded: the persistence round trip loses nothing.
pub proof fn lemma_users_round_trip(us: Seq<i64>)
    ensures
        spec_parse_users(spec_encode_users(us)) == Some(us),
{
    let s = spec_encode_users(us);
    if us.len() == 0 {
        assert(s == seq!['['] + seq![']']);
        assert(s[0] == '[');
        assert(s[1] == ']');
        lemma_skip_ws_nop(s, 0);
        lemma_skip_ws_nop(s, 1);
        lemma_skip_ws_nop(s, 2);
        assert(spec_parse_users(s) == Some(Seq::<i64>::empty()));
        assert(us =~= Seq::<i64>::empty());
    } else {
        let a = seq!['['];
        let b = spec_i64_to_dec(us[0]);
        let c = spec_encode_users_tail(us.drop_first());
        let d = seq![']'];
        assert(s == a + b + c + d);
        assert((a + b + c) + d =~= (a + b) + (c + d));
        assert(s.subrange(0, s.len() as int) =~= s);
        lemma_region_split(s, 0, a + b, c + d);
        lemma_region_split(s, 0, a, b);
        lemma_skip_ws_nop(s, 0);
        lemma_region_index(s, 0, a, 0);
        lemma_i64_dec_head(us[0]);
        lemma_region_index(s, 1, b, 0);
        lemma_skip_ws_nop(s, 1);
        let k: int = b.len() as int + 1;
        assert(k < s.len() ==> !is_digit(s[k])) by {
            if us.drop_first().len() == 0 {
                lemma_region_index(s, k, c + d, 0);
                assert((c + d)[0] == ']');
            } else {
                lemma_users_tail_head(us.drop_first());
                lemma_region_index(s, k, c + d, 0);
                assert((c + d)[0] == ',');
            }
        }
        crate::num::lemma_parse_print_i64(s, 1, us[0]);
        lemma_parse_users_rest_region(s, k, us.drop_first());
        lemma_skip_ws_nop(s, s.len() as int);
        assert(seq![us[0]] + us.drop_first() =~= us);
    }
}

/// Parses a whole subscriber snapshot, exactly as `spec_parse_users`
/// describes. `None` means the text is not a well-formed snapshot.
pub fn decode_users(s: &str) -> (r: Option<Vec<i64>>)
    ensures
        match r {
            Some(v) => spec_parse_users(s@) == Some(v@),
            None => spec_parse_users(s@) is None,
        },
{
    let cs = str_to_chars(s);
    let i1 = match expect_char(&cs, 0, '[') {
        Some(j) => j,
        None => {
            return None;
        },
    };
    let j = skip_ws(&cs, i1);
    if j < cs.len() && cs[j] == ']' {
        let j2 = skip_ws(&cs, j + 1);
        if j2 == cs.len() {
            let v: Vec<i64> = Vec::new();
            proof {
                assert(v@ =~= Seq::<i64>::empty());
            }
            return Some(v);
        } else {
            return None;
        }
    }
    let (u, k) = match parse_i64_at(&cs, j) {
        Some(p) => p,
        None => {
            return None;
        },
    };
    let (us, m) = match parse_users_rest(&cs, k) {
        Some(p) => p,
        None => {
            return None;
        },
    };
    let j3 = skip_ws(&cs, m);
    if j3 == cs.len() {
        let ghost usv = us@;
        let mut v: Vec<i64> = Vec::new();
        v.push(u);
        let mut rest = us;
        v.append(&mut rest);
        proof {
            assert(v@ =~= seq![u] + usv);
        }
        Some(v)
    } else {
        None
    }
}

} // verus!
