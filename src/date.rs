//! Decoding of `day/month/year` dates into comparable ordinals.
//!
//! The ordinal of a date is `year * 365 + month * 30 + day`: not a count of
//! calendar days, but monotonic over the dates that the index holds, and the
//! same formula is used for every comparison.

use vstd::prelude::*;
use crate::numeral::{chars_of, number_value, parse_unsigned};

verus! {

/// The index of the first `/` of `s` at or after `from`; `s.len()` if there
/// is none.
pub open spec fn slash_from(s: Seq<char>, from: int) -> int
    decreases s.len() - from,
{
    if from < 0 || from >= s.len() {
        s.len() as int
    } else if s[from] == '/' {
        from
    } else {
        slash_from(s, from + 1)
    }
}

/// The ordinal of a day, month and year.
pub open spec fn ordinal(day: nat, month: nat, year: nat) -> nat {
    year * 365 + month * 30 + day
}

/// The ordinal of the date that `s` writes as `day/month/year`: exactly
/// three numbers separated by two `/`. `None` when the text has another
/// shape, or when the ordinal does not fit in a `u32`.
pub open spec fn date_ordinal(s: Seq<char>) -> Option<u32> {
    let a = slash_from(s, 0);
    let b = slash_from(s, a + 1);
    let c = slash_from(s, b + 1);
    if a < s.len() && b < s.len() && c == s.len() {
        match (
            number_value(s.subrange(0, a)),
            number_value(s.subrange(a + 1, b)),
            number_value(s.subrange(b + 1, s.len() as int)),
        ) {
            (Some(d), Some(m), Some(y)) => if ordinal(d, m, y) <= u32::MAX {
                Some(ordinal(d, m, y) as u32)
            } else {
                None
            },
            _ => None,
        }
    } else {
        None
    }
}

/// The sort key of a date text: its ordinal, or `-1` for a text that does
/// not decode, so that such dates order before every valid one.
pub open spec fn date_key(s: Seq<char>) -> int {
    match date_ordinal(s) {
        Some(n) => n as int,
        None => -1,
    }
}

/// The index of the first `/` of `v` at or after `from`.
fn find_slash(v: &Vec<char>, from: usize) -> (r: usize)
    requires
        from <= v.len(),
    ensures
        r == slash_from(v@, from as int),
        from <= r <= v.len(),
{
    let mut i: usize = from;
    while i < v.len()
        invariant
            from <= i <= v.len(),
            slash_from(v@, i as int) == slash_from(v@, from as int),
        decreases v.len() - i,
    {
        if v[i] == '/' {
            return i;
        }
        i = i + 1;
    }
    i
}

/// Decodes a `day/month/year` date into its ordinal
/// `year * 365 + month * 30 + day`.
///
/// `None` when the text is not three numbers separated by `/`, or when the
/// ordinal exceeds `u32::MAX`.
pub fn date_to_days(date_str: &str) -> (r: Option<u32>)
    ensures
        r == date_ordinal(date_str@),
{
    let v = chars_of(date_str);
    let a = find_slash(&v, 0);
    if a == v.len() {
        return None;
    }
    let b = find_slash(&v, a + 1);
    if b == v.len() {
        return None;
    }
    let c = find_slash(&v, b + 1);
    if c != v.len() {
        return None;
    }
    let day = match parse_unsigned(&v, 0, a, u32::MAX as u64) {
        Some(n) => n,
        None => {
            return None;
        },
    };
    let month = match parse_unsigned(&v, a + 1, b, u32::MAX as u64) {
        Some(n) => n,
        None => {
            return None;
        },
    };
    let year = match parse_unsigned(&v, b + 1, v.len(), u32::MAX as u64) {
        Some(n) => n,
        None => {
            return None;
        },
    };
    let total: u64 = year * 365 + month * 30 + day;
    if total > u32::MAX as u64 {
        None
    } else {
        Some(total as u32)
    }
}

/// The ordinal of a date that is known to decode.
pub fn convert_date_to_days(date_str: &str) -> (r: u32)
    requires
        date_ordinal(date_str@) is Some,
    ensures
        r == date_ordinal(date_str@)->0,
{
    match date_to_days(date_str) {
        Some(n) => n,
        None => 0,
    }
}

/// The sort key of a date text: its ordinal, or `-1` when it does not
/// decode.
pub fn sort_key(date_str: &str) -> (r: i64)
    ensures
        r == date_key(date_str@),
{
    match date_to_days(date_str) {
        Some(n) => n as i64,
        None => -1,
    }
}

} // verus!
