//! Timestamp parsing: a verified reader for decimal second counts, backed
//! by chrono's calendar arithmetic for the date-time itself.

use vstd::prelude::*;

use crate::text::{all_digits, digits_val, parse_digits_u64};

verus! {

/// Whether chrono can represent a date-time `secs` seconds from the epoch.
pub uninterp spec fn in_timestamp_range(secs: i64) -> bool;

/// Relies on chrono::DateTime::from_timestamp, which accepts exactly the
/// seconds values chrono can represent as a date-time, independently of
/// anything but that number.
#[verifier::external_body]
fn timestamp_representable(secs: i64) -> (r: bool)
    ensures
        r == in_timestamp_range(secs),
{
    chrono::DateTime::from_timestamp(secs, 0).is_some()
}

/// Whether `s` is a decimal integer as `i64::from_str` reads one: an
/// optional sign, then one or more digits.
pub open spec fn is_int_str(s: Seq<char>) -> bool {
    if s.len() > 0 && (s[0] == '+' || s[0] == '-') {
        s.len() > 1 && all_digits(s.drop_first())
    } else {
        s.len() > 0 && all_digits(s)
    }
}

/// The value a decimal integer denotes.
pub open spec fn int_val(s: Seq<char>) -> int {
    if s.len() > 0 && s[0] == '-' {
        -digits_val(s.drop_first())
    } else if s.len() > 0 && s[0] == '+' {
        digits_val(s.drop_first())
    } else {
        digits_val(s)
    }
}

/// Parses a decimal integer as `i64::from_str` does: an optional sign, one
/// or more ASCII digits, rejecting anything else and any value outside
/// `i64`'s range.
pub fn parse_i64(s: &str) -> (r: Option<i64>)
    ensures
        r is Some <==> is_int_str(s@) && i64::MIN <= int_val(s@) && int_val(s@) <= i64::MAX,
        r matches Some(v) ==> v == int_val(s@),
{
    let n = s.unicode_len();
    if n == 0 {
        return None;
    }
    let c0 = s.get_char(0);
    let neg = c0 == '-';
    let has_sign = neg || c0 == '+';
    let start: usize = if has_sign {
        1
    } else {
        0
    };
    if start >= n {
        return None;
    }
    let digits = s.substring_char(start, n);
    proof {
        if has_sign {
            assert(digits@ =~= s@.drop_first());
        } else {
            assert(digits@ =~= s@);
        }
    }
    match parse_digits_u64(digits) {
        None => {
            proof {
                if is_int_str(s@) {
                    assert(digits@.len() > 0 && all_digits(digits@));
                    assert(digits_val(digits@) > u64::MAX);
                }
            }
            None
        },
        Some(mag) => {
            if neg {
                if mag > 9223372036854775808u64 {
                    None
                } else if mag == 9223372036854775808u64 {
                    Some(i64::MIN)
                } else {
                    Some(-(mag as i64))
                }
            } else {
                if mag > 9223372036854775807u64 {
                    None
                } else {
                    Some(mag as i64)
                }
            }
        },
    }
}

/// Parses a UNIX timestamp: a decimal count of seconds since the epoch,
/// accepted when chrono can represent it as a date-time. The caller turns
/// the seconds into its own calendar value.
pub fn parse_source_date_epoch(raw: &str) -> (r: Result<i64, String>)
    ensures
        r is Ok <==> is_int_str(raw@) && i64::MIN <= int_val(raw@) && int_val(raw@) <= i64::MAX
            && in_timestamp_range(int_val(raw@) as i64),
        r matches Ok(secs) ==> secs == int_val(raw@),
        r matches Err(e) ==> (!(is_int_str(raw@) && i64::MIN <= int_val(raw@) && int_val(raw@)
            <= i64::MAX) && e@ == "timestamp must be decimal integer"@) || (e@
            == "timestamp out of range"@ && !in_timestamp_range(int_val(raw@) as i64)),
{
    match parse_i64(raw) {
        None => Err(String::from_str("timestamp must be decimal integer")),
        Some(secs) => {
            if timestamp_representable(secs) {
                Ok(secs)
            } else {
                Err(String::from_str("timestamp out of range"))
            }
        },
    }
}

} // verus!
