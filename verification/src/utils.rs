//! Rendering of balances and timestamps for display.
//!
//! A balance in the smallest denomination unit (10^24 of them per whole
//! token) renders as the whole-token amount with four decimal places,
//! rounding the fifth half-up. Timestamps come in as nanosecond counts and
//! are rendered in the machine's local time zone, which only the time
//! library can know.

use vstd::prelude::*;
use vstd::arithmetic::div_mod::lemma_div_is_strictly_smaller;
use vstd::string::StringExecFns;

use crate::num::{
    digit_char, digit_to_char, parse_u128_at, spec_parse_u128_at, spec_u128_to_dec, u128_to_dec,
};
use crate::text::{chars_to_string, push_str_chars, str_to_chars};

verus! {

/// The four zero-padded decimal digits of a fraction below ten thousand.
pub open spec fn spec_pad4(frac: int) -> Seq<char> {
    seq![
        digit_char(frac / 1000 % 10),
        digit_char(frac / 100 % 10),
        digit_char(frac / 10 % 10),
        digit_char(frac % 10),
    ]
}

/// The balance scaled to units of one ten-thousandth of a whole token,
/// rounding half up.
pub open spec fn spec_scaled_tenthousandths(yocto: u128) -> int {
    let t = yocto as int / 100000000000000000000;
    if yocto as int % 100000000000000000000 >= 50000000000000000000 {
        t + 1
    } else {
        t
    }
}

/// The display text of a balance: whole tokens, a dot, four fractional
/// digits, and the unit name.
pub open spec fn spec_format_near(yocto: u128) -> Seq<char> {
    let scaled = spec_scaled_tenthousandths(yocto);
    spec_u128_to_dec((scaled / 10000) as u128) + seq!['.'] + spec_pad4(scaled % 10000)
        + " NEAR"@
}

/// Renders a balance for display, exactly as `spec_format_near` describes.
pub fn format_near(yocto: u128) -> (s: String)
    ensures
        s@ == spec_format_near(yocto),
{
    let t = yocto / 100000000000000000000u128;
    proof {
        if yocto > 0 {
            lemma_div_is_strictly_smaller(yocto as int, 100000000000000000000);
        }
    }
    let scaled: u128 = if yocto % 100000000000000000000u128 >= 50000000000000000000u128 {
        t + 1
    } else {
        t
    };
    let whole = scaled / 10000;
    let frac = scaled % 10000;
    let mut out = u128_to_dec(whole);
    out.push('.');
    out.push(digit_to_char(frac / 1000 % 10));
    out.push(digit_to_char(frac / 100 % 10));
    out.push(digit_to_char(frac / 10 % 10));
    out.push(digit_to_char(frac % 10));
    push_str_chars(&mut out, " NEAR");
    proof {
        assert(out@ =~= spec_format_near(yocto));
    }
    chars_to_string(&out)
}

/// The nanosecond count a timestamp text denotes, when the whole text is
/// one unsigned decimal number whose second count fits a signed 64-bit
/// value; otherwise nothing, and the rendering shows an invalid marker.
pub open spec fn spec_valid_ns(s: Seq<char>) -> Option<u128> {
    match spec_parse_u128_at(s, 0) {
        Some((v, j)) => if j == s.len() && v / 1000000000 <= i64::MAX {
            Some(v)
        } else {
            None
        },
        None => None,
    }
}

/// Relies on chrono's `TimeZone::timestamp_opt` on `Utc` and on the `Local`
/// time zone: renders the instant in local time as
/// "YYYY-MM-DD HH:MM:SS TZ", or nothing when the instant is out of chrono's
/// range. The text depends on the machine's time zone, so nothing more is
/// promised of it.
#[verifier::external_body]
fn render_local_timestamp(secs: i64, nsecs: u32) -> (r: Option<String>) {
    match chrono::TimeZone::timestamp_opt(&chrono::Utc, secs, nsecs) {
        chrono::LocalResult::Single(dt) => Some(
            dt.with_timezone(&chrono::Local).format("%Y-%m-%d %H:%M:%S %Z").to_string(),
        ),
        _ => None,
    }
}

/// Relies on chrono's `Local::now`: the current local time rendered as
/// "YYYY-MM-DD HH:MM:SS TZ". The text depends on the clock and the
/// machine's time zone, so nothing is promised of it.
#[verifier::external_body]
pub fn now_timestamp() -> (r: String) {
    chrono::Local::now().format("%Y-%m-%d %H:%M:%S %Z").to_string()
}

/// The rendering handed back by the time library, or the invalid marker
/// when it had none.
pub fn rendered_or_invalid(r: Option<String>) -> (s: String)
    ensures
        match r {
            Some(t) => s == t,
            None => s@ == "Invalid Timestamp"@,
        },
{
    match r {
        Some(t) => t,
        None => String::from_str("Invalid Timestamp"),
    }
}

/// Renders a nanosecond timestamp text in local time.
///
/// Text that is not one plain decimal number, a second count beyond the
/// signed 64-bit range, and an instant the time library refuses all render
/// as the invalid marker.
pub fn format_timestamp(ns_str: String) -> (s: String)
    ensures
        spec_valid_ns(ns_str@) is None ==> s@ == "Invalid Timestamp"@,
{
    let cs = str_to_chars(ns_str.as_str());
    let ns = match parse_u128_at(&cs, 0) {
        Some((v, j)) => {
            if j == cs.len() {
                v
            } else {
                return rendered_or_invalid(None);
            }
        },
        None => {
            return rendered_or_invalid(None);
        },
    };
    let secs_wide = ns / 1000000000;
    let nsecs = (ns % 1000000000) as u32;
    if secs_wide > i64::MAX as u128 {
        return rendered_or_invalid(None);
    }
    let secs = secs_wide as i64;
    rendered_or_invalid(render_local_timestamp(secs, nsecs))
}

} // verus!
