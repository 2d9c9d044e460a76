//! Timestamps, as servers write them: RFC 3339 text to unix seconds.
use vstd::prelude::*;

use crate::text::{ascii_digit, chars, is_digit};

verus! {

/// The two-digit number at a place.
pub open spec fn two_digits(s: Seq<char>, at: int) -> Option<int> {
    if 0 <= at && at + 2 <= s.len() && ascii_digit(s[at]) && ascii_digit(s[at + 1]) {
        Some((s[at] as u32 - 48) * 10 + (s[at + 1] as u32 - 48))
    } else {
        None
    }
}

fn pair_at(cs: &Vec<char>, at: usize) -> (r: Option<u64>)
    ensures
        match r {
            Some(n) => two_digits(cs@, at as int) == Some(n as int) && n <= 99,
            None => two_digits(cs@, at as int) is None,
        },
{
    if cs.len() < 2 || at > cs.len() - 2 {
        return None;
    }
    let a: char = cs[at];
    let b: char = cs[at + 1];
    if is_digit(a) && is_digit(b) {
        let x: u64 = (a as u32) as u64;
        let y: u64 = (b as u32) as u64;
        Some((x - 48) * 10 + (y - 48))
    } else {
        None
    }
}

/// How far the digits of a fraction run.
pub open spec fn past_digits(s: Seq<char>, at: int) -> int
    decreases s.len() - at,
{
    if 0 <= at < s.len() && ascii_digit(s[at]) {
        past_digits(s, at + 1)
    } else {
        at
    }
}

/// Whether a year has a 29th of February.
pub open spec fn leap(year: int) -> bool {
    year % 4 == 0 && (year % 100 != 0 || year % 400 == 0)
}

/// The days of a month.
pub open spec fn month_length(year: int, month: int) -> int {
    if month == 2 {
        if leap(year) {
            29
        } else {
            28
        }
    } else if month == 4 || month == 6 || month == 9 || month == 11 {
        30
    } else {
        31
    }
}

/// The days of a year.
pub open spec fn year_length(year: int) -> int {
    if leap(year) {
        366
    } else {
        365
    }
}

/// The days from the start of 1970 to the start of a year.
pub open spec fn days_to_year(year: int) -> int
    decreases year,
{
    if year <= 1970 {
        0
    } else {
        days_to_year(year - 1) + year_length(year - 1)
    }
}

/// The days from the start of a year to the start of a month.
pub open spec fn days_to_month(year: int, month: int) -> int
    decreases month,
{
    if month <= 1 {
        0
    } else {
        days_to_month(year, month - 1) + month_length(year, month - 1)
    }
}

/// The offset a timestamp ends in, in seconds east: `Z`, or a sign, hours and
/// minutes, with nothing behind it.
pub open spec fn offset_at(s: Seq<char>, at: int) -> Option<int> {
    if 0 <= at && at + 1 == s.len() && (s[at] == 'Z' || s[at] == 'z') {
        Some(0)
    } else if 0 <= at && at + 6 == s.len() && (s[at] == '+' || s[at] == '-') && s[at + 3] == ':' {
        match (two_digits(s, at + 1), two_digits(s, at + 4)) {
            (Some(h), Some(m)) => if h <= 23 && m <= 59 {
                Some(
                    if s[at] == '-' {
                        -(h * 3600 + m * 60)
                    } else {
                        h * 3600 + m * 60
                    },
                )
            } else {
                None
            },
            _ => None,
        }
    } else {
        None
    }
}

/// The unix seconds of a timestamp of the form `2026-09-11T18:31:42.5-07:00`,
/// from 1970 on; what lies behind the point is dropped.
pub open spec fn unix_seconds(s: Seq<char>) -> Option<u64> {
    if s.len() < 20 || s[4] != '-' || s[7] != '-' || (s[10] != 'T' && s[10] != 't') || s[13] != ':'
        || s[16] != ':' {
        None
    } else {
        match (
            (two_digits(s, 0), two_digits(s, 2), two_digits(s, 5), two_digits(s, 8)),
            (two_digits(s, 11), two_digits(s, 14), two_digits(s, 17)),
        ) {
            ((Some(c), Some(y), Some(month), Some(day)), (Some(h), Some(m), Some(sec))) => {
                let year = c * 100 + y;
                let behind = if s[19] == '.' {
                    past_digits(s, 20)
                } else {
                    19
                };
                if year < 1970 || month < 1 || month > 12 || day < 1 || day > month_length(
                    year,
                    month,
                ) || h > 23 || m > 59 || sec > 59 || behind == 20 {
                    None
                } else {
                    match offset_at(s, behind) {
                        Some(east) => {
                            let t = (days_to_year(year) + days_to_month(year, month) + day - 1)
                                * 86400 + h * 3600 + m * 60 + sec - east;
                            if t >= 0 {
                                Some(t as u64)
                            } else {
                                None
                            }
                        },
                        None => None,
                    }
                }
            },
            _ => None,
        }
    }
}

fn is_leap(year: u64) -> (r: bool)
    ensures
        r == leap(year as int),
{
    year % 4 == 0 && (year % 100 != 0 || year % 400 == 0)
}

fn length_of_month(year: u64, month: u64) -> (r: u64)
    ensures
        r == month_length(year as int, month as int),
        28 <= r <= 31,
{
    if month == 2 {
        if is_leap(year) {
            29
        } else {
            28
        }
    } else if month == 4 || month == 6 || month == 9 || month == 11 {
        30
    } else {
        31
    }
}

fn days_before(year: u64, month: u64) -> (r: u64)
    requires
        1970 <= year <= 9999,
        1 <= month <= 12,
    ensures
        r == days_to_year(year as int) + days_to_month(year as int, month as int),
        r <= 366 * 9000,
{
    let mut days: u64 = 0;
    let mut y: u64 = 1970;
    while y < year
        invariant
            1970 <= y <= year <= 9999,
            days == days_to_year(y as int),
            days <= 366 * (y - 1970),
        decreases year - y,
    {
        days = days + if is_leap(y) {
            366
        } else {
            365
        };
        y += 1;
    }
    let mut m: u64 = 1;
    let ghost start = days;
    while m < month
        invariant
            1 <= m <= month <= 12,
            days == start + days_to_month(year as int, m as int),
            days <= start + 31 * (m - 1),
            start <= 366 * 8029,
        decreases month - m,
    {
        days = days + length_of_month(year, m);
        m += 1;
    }
    days
}

fn offset_of(cs: &Vec<char>, at: usize) -> (r: Option<i64>)
    requires
        at <= cs@.len(),
    ensures
        match r {
            Some(n) => offset_at(cs@, at as int) == Some(n as int) && -90000 < n < 90000,
            None => offset_at(cs@, at as int) is None,
        },
{
    let left: usize = cs.len() - at;
    if left == 1 && (cs[at] == 'Z' || cs[at] == 'z') {
        return Some(0);
    }
    if left == 6 && (cs[at] == '+' || cs[at] == '-') && cs[at + 3] == ':' {
        match (pair_at(cs, at + 1), pair_at(cs, at + 4)) {
            (Some(h), Some(m)) => {
                if h <= 23 && m <= 59 {
                    let seconds: i64 = (h * 3600 + m * 60) as i64;
                    if cs[at] == '-' {
                        return Some(-seconds);
                    }
                    return Some(seconds);
                }
                return None;
            },
            _ => {
                return None;
            },
        }
    }
    None
}

/// Reads a timestamp.
pub fn unix_time(text: &str) -> (r: Option<u64>)
    ensures
        r == unix_seconds(text@),
{
    let cs = chars(text);
    if cs.len() < 20 || cs[4] != '-' || cs[7] != '-' || (cs[10] != 'T' && cs[10] != 't') || cs[13]
        != ':' || cs[16] != ':' {
        return None;
    }
    let date = (pair_at(&cs, 0), pair_at(&cs, 2), pair_at(&cs, 5), pair_at(&cs, 8));
    let time = (pair_at(&cs, 11), pair_at(&cs, 14), pair_at(&cs, 17));
    match (date, time) {
        ((Some(c), Some(y), Some(month), Some(day)), (Some(h), Some(m), Some(sec))) => {
            let year: u64 = c * 100 + y;
            let mut behind: usize = 19;
            if cs[19] == '.' {
                behind = 20;
                while behind < cs.len() && is_digit(cs[behind])
                    invariant
                        20 <= behind <= cs@.len(),
                        past_digits(cs@, 20) == past_digits(cs@, behind as int),
                    decreases cs.len() - behind,
                {
                    behind += 1;
                }
            }
            if year < 1970 || month < 1 || month > 12 || day < 1 || day > length_of_month(
                year,
                month,
            ) || h > 23 || m > 59 || sec > 59 || behind == 20 {
                return None;
            }
            match offset_of(&cs, behind) {
                Some(east) => {
                    let days: i64 = (days_before(year, month) + (day - 1)) as i64;
                    let t: i64 = days * 86400 + (h * 3600 + m * 60 + sec) as i64 - east;
                    if t >= 0 {
                        Some(t as u64)
                    } else {
                        None
                    }
                },
                None => None,
            }
        },
        _ => None,
    }
}

/// A year is its months: from the start of one to the start of the next lie the
/// days of its twelve months, with a 29th of February in every fourth year but
/// in those of a hundred that are not also of four hundred. Counting starts in
/// 1970.
pub proof fn a_year_is_its_months(year: int)
    ensures
        days_to_year(1970) == 0,
        year >= 1970 ==> days_to_year(year + 1) - days_to_year(year) == days_to_month(year, 13),
        days_to_month(year, 1) == 0,
        days_to_month(year, 13) == if (year % 4 == 0 && year % 100 != 0) || year % 400 == 0 {
            366int
        } else {
            365int
        },
        days_to_month(year, 2) == 31,
        days_to_month(year, 13) - days_to_month(year, 12) == 31,
        days_to_month(year, 3) == days_to_month(year, 13) - 306,
        days_to_month(year, 8) - days_to_month(year, 3) == 153,
        days_to_month(year, 7) - days_to_month(year, 3) == 122,
        days_to_month(year, 5) - days_to_month(year, 3) == 61,
        days_to_month(year, 4) - days_to_month(year, 3) == 31,
{
    reveal_with_fuel(days_to_month, 14);
    assert(year % 400 == 0 ==> year % 4 == 0);
}

proof fn lemma_days_bound(year: int, month: int)
    ensures
        year <= 9999 ==> 0 <= days_to_year(year) <= 366 * 8030,
        year <= 1970 ==> days_to_year(year) == 0,
        year > 1970 ==> 0 <= days_to_year(year) <= 366 * (year - 1970),
        month <= 13 ==> 0 <= days_to_month(year, month) <= 31 * 12,
        month > 1 ==> 0 <= days_to_month(year, month) <= 31 * (month - 1),
    decreases year, month,
{
    if year > 1970 {
        lemma_days_bound(year - 1, 1);
    }
    if month > 1 {
        lemma_days_bound(year, month - 1);
    }
}

proof fn lemma_same_digits(s: Seq<char>, t: Seq<char>, at: int)
    requires
        s.len() == t.len(),
        0 <= at,
        forall|i: int| at <= i < s.len() ==> #[trigger] s[i] == t[i],
    ensures
        past_digits(s, at) == past_digits(t, at),
        past_digits(s, at) >= at,
    decreases s.len() - at,
{
    if at < s.len() {
        assert(s[at] == t[at]);
        if ascii_digit(s[at]) {
            lemma_same_digits(s, t, at + 1);
        }
    }
}

/// A later time of day is so much later: two timestamps that differ in their
/// day, hours, minutes and seconds alone lie apart by what those do.
#[verifier::rlimit(40)]
pub proof fn a_later_time_is_so_much_later(s: Seq<char>, t: Seq<char>)
    requires
        s.len() == t.len(),
        unix_seconds(s) is Some,
        unix_seconds(t) is Some,
        forall|i: int| 0 <= i < 8 ==> #[trigger] s[i] == t[i],
        forall|i: int| 19 <= i < s.len() ==> #[trigger] s[i] == t[i],
    ensures
        unix_seconds(t)->0 - unix_seconds(s)->0 == 86400 * (two_digits(t, 8)->0 - two_digits(s, 8)->0)
            + 3600 * (two_digits(t, 11)->0 - two_digits(s, 11)->0) + 60 * (two_digits(t, 14)->0
            - two_digits(s, 14)->0) + (two_digits(t, 17)->0 - two_digits(s, 17)->0),
        two_digits(s, 11)->0 < 24 && two_digits(s, 14)->0 < 60 && two_digits(s, 17)->0 < 60,
{
    assert(s[0] == t[0] && s[1] == t[1] && s[2] == t[2] && s[3] == t[3]);
    assert(s[5] == t[5] && s[6] == t[6] && s[19] == t[19]);
    let year = two_digits(s, 0)->0 * 100 + two_digits(s, 2)->0;
    let month = two_digits(s, 5)->0;
    lemma_days_bound(year, month);
    assert forall|i: int| 20 <= i < s.len() implies #[trigger] s[i] == t[i] by {}
    lemma_same_digits(s, t, 20);
    let behind = if s[19] == '.' {
        past_digits(s, 20)
    } else {
        19
    };
    let days = days_to_year(year) + days_to_month(year, month);
    let a = (days + two_digits(s, 8)->0 - 1) * 86400 + two_digits(s, 11)->0 * 3600 + two_digits(
        s,
        14,
    )->0 * 60 + two_digits(s, 17)->0;
    let b = (days + two_digits(t, 8)->0 - 1) * 86400 + two_digits(t, 11)->0 * 3600 + two_digits(
        t,
        14,
    )->0 * 60 + two_digits(t, 17)->0;
    assert(unix_seconds(s)->0 == a - offset_at(s, behind)->0);
    assert(offset_at(s, behind) == offset_at(t, behind)) by {
        assert forall|i: int| behind <= i < s.len() implies #[trigger] s[i] == t[i] by {}
        if behind < s.len() {
            assert(s[behind] == t[behind]);
        }
        if behind + 6 == s.len() {
            assert(s[behind + 1] == t[behind + 1]);
            assert(s[behind + 2] == t[behind + 2]);
            assert(s[behind + 3] == t[behind + 3]);
            assert(s[behind + 4] == t[behind + 4]);
            assert(s[behind + 5] == t[behind + 5]);
        }
    }
    assert(unix_seconds(t)->0 == b - offset_at(t, behind)->0);
}

/// An hour and a minute east of Greenwich are as much earlier, and west as much
/// later.
pub proof fn east_is_earlier(s: Seq<char>, at: int)
    requires
        0 <= at,
        at + 6 == s.len(),
        s[at] == '+' || s[at] == '-',
        offset_at(s, at) is Some,
    ensures
        s[at] == '+' ==> offset_at(s, at)->0 == 3600 * two_digits(s, at + 1)->0 + 60 * two_digits(
            s,
            at + 4,
        )->0,
        s[at] == '-' ==> offset_at(s, at)->0 + 3600 * two_digits(s, at + 1)->0 + 60 * two_digits(
            s,
            at + 4,
        )->0 == 0,
{
}

} // verus!
