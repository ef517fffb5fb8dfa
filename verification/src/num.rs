//! Decimal rendering and parsing of the integer types the snapshot format
//! carries: unsigned 128-bit balances and signed 64-bit subscriber ids.

use vstd::prelude::*;

verus! {

/// The character standing for one decimal digit value.
pub open spec fn digit_char(d: int) -> char {
    if d == 0 {
        '0'
    } else if d == 1 {
        '1'
    } else if d == 2 {
        '2'
    } else if d == 3 {
        '3'
    } else if d == 4 {
        '4'
    } else if d == 5 {
        '5'
    } else if d == 6 {
        '6'
    } else if d == 7 {
        '7'
    } else if d == 8 {
        '8'
    } else {
        '9'
    }
}

/// Whether a character is a decimal digit.
pub open spec fn is_digit(c: char) -> bool {
    c == '0' || c == '1' || c == '2' || c == '3' || c == '4' || c == '5' || c == '6' || c == '7'
        || c == '8' || c == '9'
}

/// The value of a decimal digit character.
pub open spec fn digit_val(c: char) -> int {
    if c == '0' {
        0
    } else if c == '1' {
        1
    } else if c == '2' {
        2
    } else if c == '3' {
        3
    } else if c == '4' {
        4
    } else if c == '5' {
        5
    } else if c == '6' {
        6
    } else if c == '7' {
        7
    } else if c == '8' {
        8
    } else {
        9
    }
}

/// The decimal rendering of an unsigned value, most significant digit first,
/// with no leading zeros (`0` itself renders as a single digit).
pub open spec fn spec_u128_to_dec(n: u128) -> Seq<char>
    decreases n,
{
    if n < 10 {
        seq![digit_char(n as int)]
    } else {
        spec_u128_to_dec(n / 10).push(digit_char((n % 10) as int))
    }
}

/// The numeric value of a sequence of decimal digit characters.
pub open spec fn dec_val(s: Seq<char>) -> int
    decreases s.len(),
{
    if s.len() == 0 {
        0
    } else {
        dec_val(s.drop_last()) * 10 + digit_val(s.last())
    }
}

/// Whether every character of a sequence is a decimal digit.
pub open spec fn all_digits(s: Seq<char>) -> bool {
    forall|i: int| 0 <= i < s.len() ==> is_digit(s[i])
}

/// The decimal rendering of a value consists of digits, is non-empty,
/// and evaluates back to the value it was made from.
pub proof fn lemma_u128_to_dec_val(n: u128)
    ensures
        all_digits(spec_u128_to_dec(n)),
        spec_u128_to_dec(n).len() >= 1,
        dec_val(spec_u128_to_dec(n)) == n,
    decreases n,
{
    if n < 10 {
        let s = spec_u128_to_dec(n);
        assert(s =~= seq![digit_char(n as int)]);
        assert(s.drop_last() =~= Seq::<char>::empty());
        assert(dec_val(s) == dec_val(s.drop_last()) * 10 + digit_val(s.last()));
        assert(digit_val(digit_char(n as int)) == n);
    } else {
        lemma_u128_to_dec_val(n / 10);
        let s = spec_u128_to_dec(n);
        assert(s == spec_u128_to_dec(n / 10).push(digit_char((n % 10) as int)));
        lemma_dec_val_push(spec_u128_to_dec(n / 10), digit_char((n % 10) as int));
        assert(digit_val(digit_char((n % 10) as int)) == n % 10);
        assert(n as int == (n as int / 10) * 10 + (n as int % 10)) by (nonlinear_arith);
    }
}

/// The first position at or after `i` that does not hold a digit.
pub open spec fn digit_run_end(s: Seq<char>, i: int) -> int
    decreases s.len() - i,
{
    if i < s.len() && is_digit(s[i]) {
        digit_run_end(s, i + 1)
    } else {
        i
    }
}

/// The end of a digit run lies between its start and the end of the text,
/// everything inside the run is a digit, and the run stops at the first
/// non-digit.
pub proof fn lemma_digit_run_end(s: Seq<char>, i: int)
    requires
        0 <= i <= s.len(),
    ensures
        i <= digit_run_end(s, i) <= s.len(),
        forall|k: int| i <= k < digit_run_end(s, i) ==> is_digit(s[k]),
        digit_run_end(s, i) < s.len() ==> !is_digit(s[digit_run_end(s, i)]),
    decreases s.len() - i,
{
    if i < s.len() && is_digit(s[i]) {
        lemma_digit_run_end(s, i + 1);
    }
}

/// A run of digits followed by a non-digit (or by the end of the text) is
/// exactly where the digit run ends.
pub proof fn lemma_digit_run_end_is(s: Seq<char>, i: int, j: int)
    requires
        0 <= i <= j <= s.len(),
        forall|k: int| i <= k < j ==> is_digit(s[k]),
        j < s.len() ==> !is_digit(s[j]),
    ensures
        digit_run_end(s, i) == j,
    decreases j - i,
{
    if i < j {
        lemma_digit_run_end_is(s, i + 1, j);
    }
}

/// Appending one digit multiplies the value by ten and adds the digit.
pub proof fn lemma_dec_val_push(s: Seq<char>, c: char)
    ensures
        dec_val(s.push(c)) == dec_val(s) * 10 + digit_val(c),
{
    assert(s.push(c).drop_last() =~= s);
    assert(s.push(c).last() == c);
}

/// The value of a digit sequence only grows when digits are appended.
pub proof fn lemma_dec_val_prefix_le(s: Seq<char>, i: int, j: int, k: int)
    requires
        0 <= i <= j <= k <= s.len(),
    ensures
        dec_val(s.subrange(i, j)) >= 0,
        dec_val(s.subrange(i, j)) <= dec_val(s.subrange(i, k)),
    decreases k - j,
{
    if j == k {
        lemma_dec_val_nonneg(s.subrange(i, j));
    } else {
        lemma_dec_val_prefix_le(s, i, j, k - 1);
        lemma_dec_val_nonneg(s.subrange(i, j));
        assert(s.subrange(i, k) =~= s.subrange(i, k - 1).push(s[k - 1]));
        lemma_dec_val_push(s.subrange(i, k - 1), s[k - 1]);
        assert(dec_val(s.subrange(i, k - 1)) <= dec_val(s.subrange(i, k - 1)) * 10);
    }
}

/// A decimal value is never negative.
pub proof fn lemma_dec_val_nonneg(s: Seq<char>)
    ensures
        dec_val(s) >= 0,
    decreases s.len(),
{
    if s.len() > 0 {
        lemma_dec_val_nonneg(s.drop_last());
    }
}

/// The parse of an unsigned decimal number starting at position `i`:
/// the value of the digit run together with the position after it, or
/// nothing when there is no digit or the value does not fit in 128 bits.
pub open spec fn spec_parse_u128_at(s: Seq<char>, i: int) -> Option<(u128, int)> {
    let j = digit_run_end(s, i);
    if j == i {
        None
    } else if dec_val(s.subrange(i, j)) <= u128::MAX {
        Some((dec_val(s.subrange(i, j)) as u128, j))
    } else {
        None
    }
}

/// The exec digit test and value, matching `is_digit` and `digit_val`.
pub fn char_digit(c: char) -> (r: Option<u8>)
    ensures
        match r {
            Some(d) => is_digit(c) && d == digit_val(c),
            None => !is_digit(c),
        },
{
    if c == '0' {
        Some(0)
    } else if c == '1' {
        Some(1)
    } else if c == '2' {
        Some(2)
    } else if c == '3' {
        Some(3)
    } else if c == '4' {
        Some(4)
    } else if c == '5' {
        Some(5)
    } else if c == '6' {
        Some(6)
    } else if c == '7' {
        Some(7)
    } else if c == '8' {
        Some(8)
    } else if c == '9' {
        Some(9)
    } else {
        None
    }
}

/// The exec rendering of one digit, matching `digit_char`.
pub fn digit_to_char(d: u128) -> (c: char)
    requires
        d < 10,
    ensures
        c == digit_char(d as int),
{
    if d == 0 {
        '0'
    } else if d == 1 {
        '1'
    } else if d == 2 {
        '2'
    } else if d == 3 {
        '3'
    } else if d == 4 {
        '4'
    } else if d == 5 {
        '5'
    } else if d == 6 {
        '6'
    } else if d == 7 {
        '7'
    } else if d == 8 {
        '8'
    } else {
        '9'
    }
}

/// Renders an unsigned value in decimal.
pub fn u128_to_dec(n: u128) -> (v: Vec<char>)
    ensures
        v@ == spec_u128_to_dec(n),
    decreases n,
{
    if n < 10 {
        let mut v: Vec<char> = Vec::new();
        v.push(digit_to_char(n));
        proof {
            assert(v@ =~= seq![digit_char(n as int)]);
        }
        v
    } else {
        let mut v = u128_to_dec(n / 10);
        v.push(digit_to_char(n % 10));
        v
    }
}

/// Parses an unsigned decimal number starting at position `i`,
/// exactly as `spec_parse_u128_at` describes.
pub fn parse_u128_at(s: &Vec<char>, i: usize) -> (r: Option<(u128, usize)>)
    requires
        i <= s@.len(),
    ensures
        match r {
            Some((n, j)) => spec_parse_u128_at(s@, i as int) == Some((n, j as int)) && i < j
                <= s@.len(),
            None => spec_parse_u128_at(s@, i as int) is None,
        },
{
    proof {
        lemma_digit_run_end(s@, i as int);
    }
    let ghost j = digit_run_end(s@, i as int);
    let mut k: usize = i;
    let mut acc: u128 = 0;
    loop
        invariant
            i <= k <= j <= s@.len(),
            j == digit_run_end(s@, i as int),
            forall|t: int| i <= t < j ==> is_digit(s@[t]),
            j < s@.len() ==> !is_digit(s@[j]),
            acc == dec_val(s@.subrange(i as int, k as int)),
        ensures
            k == j,
            acc == dec_val(s@.subrange(i as int, k as int)),
        decreases s@.len() - k,
    {
        if k == s.len() {
            break ;
        }
        let d = match char_digit(s[k]) {
            Some(d) => d,
            None => { break ; },
        };
        proof {
            if k as int == j {
                assert(is_digit(s@[j]));
            }
            assert(s@.subrange(i as int, k + 1 as int) =~= s@.subrange(i as int, k as int).push(
                s@[k as int],
            ));
            lemma_dec_val_push(s@.subrange(i as int, k as int), s@[k as int]);
            lemma_dec_val_nonneg(s@.subrange(i as int, k as int));
        }
        if acc > (u128::MAX - d as u128) / 10 {
            proof {
                assert(dec_val(s@.subrange(i as int, k + 1 as int)) > u128::MAX) by (nonlinear_arith)
                    requires
                        dec_val(s@.subrange(i as int, k + 1 as int)) == acc * 10 + digit_val(
                            s@[k as int],
                        ),
                        acc > (u128::MAX - d as u128) / 10,
                        d == digit_val(s@[k as int]),
                        d < 10,
                ;
                lemma_dec_val_prefix_le(s@, i as int, k + 1 as int, j);
            }
            return None;
        }
        acc = acc * 10 + d as u128;
        k = k + 1;
    }
    if k == i {
        None
    } else {
        Some((acc, k))
    }
}

/// The decimal rendering of a signed value: a minus sign for negative
/// values, then the magnitude in decimal.
pub open spec fn spec_i64_to_dec(n: i64) -> Seq<char> {
    if n >= 0 {
        spec_u128_to_dec(n as u128)
    } else {
        seq!['-'] + spec_u128_to_dec((-(n as int)) as u128)
    }
}

/// The parse of a signed decimal number starting at position `i`: an
/// optional minus sign, then a digit run, refused when the value does not
/// fit in a signed 64-bit integer.
pub open spec fn spec_parse_i64_at(s: Seq<char>, i: int) -> Option<(i64, int)> {
    if i < s.len() && s[i] == '-' {
        match spec_parse_u128_at(s, i + 1) {
            Some((v, j)) => if v <= 0x8000000000000000u128 {
                Some(((-(v as int)) as i64, j))
            } else {
                None
            },
            None => None,
        }
    } else {
        match spec_parse_u128_at(s, i) {
            Some((v, j)) => if v <= i64::MAX as u128 {
                Some((v as i64, j))
            } else {
                None
            },
            None => None,
        }
    }
}

/// Renders a signed value in decimal.
pub fn i64_to_dec(n: i64) -> (v: Vec<char>)
    ensures
        v@ == spec_i64_to_dec(n),
{
    if n >= 0 {
        u128_to_dec(n as u128)
    } else {
        let m: u128 = if n == i64::MIN {
            9223372036854775808u128
        } else {
            (-n) as u128
        };
        let digits = u128_to_dec(m);
        let mut v: Vec<char> = Vec::new();
        v.push('-');
        let mut i: usize = 0;
        while i < digits.len()
            invariant
                i <= digits@.len(),
                v@ == seq!['-'] + digits@.subrange(0, i as int),
            decreases digits@.len() - i,
        {
            v.push(digits[i]);
            proof {
                assert(v@ =~= seq!['-'] + digits@.subrange(0, i + 1 as int));
            }
            i = i + 1;
        }
        proof {
            assert(digits@.subrange(0, digits@.len() as int) =~= digits@);
            assert(v@ =~= seq!['-'] + spec_u128_to_dec((-(n as int)) as u128));
        }
        v
    }
}

/// Parses a signed decimal number starting at position `i`,
/// exactly as `spec_parse_i64_at` describes.
pub fn parse_i64_at(s: &Vec<char>, i: usize) -> (r: Option<(i64, usize)>)
    requires
        i <= s@.len(),
    ensures
        match r {
            Some((n, j)) => spec_parse_i64_at(s@, i as int) == Some((n, j as int)) && i < j
                <= s@.len(),
            None => spec_parse_i64_at(s@, i as int) is None,
        },
{
    if i < s.len() && s[i] == '-' {
        match parse_u128_at(s, i + 1) {
            Some((v, j)) => {
                if v < 0x8000000000000000u128 {
                    Some((-(v as i64), j))
                } else if v == 0x8000000000000000u128 {
                    assert((-(v as int)) as i64 == i64::MIN);
                    Some((i64::MIN, j))
                } else {
                    None
                }
            },
            None => None,
        }
    } else {
        match parse_u128_at(s, i) {
            Some((v, j)) => {
                if v <= i64::MAX as u128 {
                    Some((v as i64, j))
                } else {
                    None
                }
            },
            None => None,
        }
    }
}

/// Rendering an unsigned value and parsing it back, with anything but a
/// digit following, yields the value and stops right after it.
pub proof fn lemma_parse_print_u128(s: Seq<char>, i: int, n: u128)
    requires
        0 <= i,
        i + spec_u128_to_dec(n).len() <= s.len(),
        s.subrange(i, i + spec_u128_to_dec(n).len() as int) == spec_u128_to_dec(n),
        i + spec_u128_to_dec(n).len() < s.len() ==> !is_digit(
            s[i + spec_u128_to_dec(n).len() as int],
        ),
    ensures
        spec_parse_u128_at(s, i) == Some((n, i + spec_u128_to_dec(n).len() as int)),
{
    let p = spec_u128_to_dec(n);
    let j = i + p.len() as int;
    lemma_u128_to_dec_val(n);
    assert forall|k: int| i <= k < j implies is_digit(s[k]) by {
        assert(s[k] == p[k - i]);
    }
    lemma_digit_run_end_is(s, i, j);
    assert(s.subrange(i, j) =~= p);
}

/// Rendering a signed value and parsing it back, with anything but a
/// digit following, yields the value and stops right after it.
pub proof fn lemma_parse_print_i64(s: Seq<char>, i: int, n: i64)
    requires
        0 <= i,
        i + spec_i64_to_dec(n).len() <= s.len(),
        s.subrange(i, i + spec_i64_to_dec(n).len() as int) == spec_i64_to_dec(n),
        i + spec_i64_to_dec(n).len() < s.len() ==> !is_digit(
            s[i + spec_i64_to_dec(n).len() as int],
        ),
    ensures
        spec_parse_i64_at(s, i) == Some((n, i + spec_i64_to_dec(n).len() as int)),
{
    let p = spec_i64_to_dec(n);
    assert(s.subrange(i, i + p.len() as int)[0] == s[i]);
    if n >= 0 {
        lemma_u128_to_dec_val(n as u128);
        assert(is_digit(p[0]));
        assert(s[i] != '-');
        lemma_parse_print_u128(s, i, n as u128);
    } else {
        let q = spec_u128_to_dec((-(n as int)) as u128);
        assert(p[0] == '-');
        assert(s[i] == '-');
        assert forall|k: int| 0 <= k < q.len() implies s.subrange(
            i + 1,
            i + 1 + q.len() as int,
        )[k] == q[k] by {
            assert(p[1 + k] == q[k]);
            assert(s.subrange(i, i + p.len() as int)[1 + k] == p[1 + k]);
        }
        assert(s.subrange(i + 1, i + 1 + q.len() as int) =~= q);
        lemma_parse_print_u128(s, i + 1, (-(n as int)) as u128);
    }
}

} // verus!
