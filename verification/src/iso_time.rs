//! Points in time as timetables write them: `2024-05-17T08:30:00`.

use vstd::prelude::*;
use crate::time::{DateTime, Duration};

verus! {

pub open spec fn is_leap(y: int) -> bool {
    y % 4 == 0 && (y % 100 != 0 || y % 400 == 0)
}

pub open spec fn days_in_year(y: int) -> int {
    if is_leap(y) {
        366
    } else {
        365
    }
}

pub open spec fn days_in_month(y: int, m: int) -> int {
    if m == 2 {
        if is_leap(y) {
            29
        } else {
            28
        }
    } else if m == 4 || m == 6 || m == 9 || m == 11 {
        30
    } else {
        31
    }
}

/// The days from the first of January 1970 to the first of January of `y`.
pub open spec fn days_before_year(y: int) -> int
    decreases y,
{
    if y <= 1970 {
        0
    } else {
        days_before_year(y - 1) + days_in_year(y - 1)
    }
}

/// The days from the first of January of `y` to the first of month `m`.
pub open spec fn days_before_month(y: int, m: int) -> int
    decreases m,
{
    if m <= 1 {
        0
    } else {
        days_before_month(y, m - 1) + days_in_month(y, m - 1)
    }
}

/// The value of a byte that is a digit.
pub open spec fn digit(b: u8) -> Option<int> {
    if 48 <= b <= 57 {
        Some(b - 48)
    } else {
        None
    }
}

/// The number that `n` digits from position `i` on write.
pub open spec fn number_at(text: Seq<u8>, i: int, n: int) -> Option<int>
    decreases n,
{
    if n <= 0 {
        Some(0)
    } else if i + n > text.len() || i < 0 {
        None
    } else {
        match (number_at(text, i, n - 1), digit(text[i + n - 1])) {
            (Some(front), Some(last)) => Some(10 * front + last),
            _ => None,
        }
    }
}

/// The seconds since the beginning of 1970 that a text names, if it is of
/// the form `YYYY-MM-DDThh:mm:ss` or `YYYY-MM-DDThh:mm`, with or without a
/// `Z` behind it, names a day that there is from 1970 on, and a time of day.
pub open spec fn iso_seconds(text: Seq<u8>) -> Option<int> {
    let body = if text.len() > 0 && text.last() == 90 {
        text.drop_last()
    } else {
        text
    };
    if body.len() != 16 && body.len() != 19 {
        None
    } else if body[4] != 45 || body[7] != 45 || body[10] != 84 || body[13] != 58 || (body.len()
        == 19 && body[16] != 58) {
        None
    } else {
        match (
            number_at(body, 0, 4),
            number_at(body, 5, 2),
            number_at(body, 8, 2),
            number_at(body, 11, 2),
            number_at(body, 14, 2),
            if body.len() == 19 {
                number_at(body, 17, 2)
            } else {
                Some(0int)
            },
        ) {
            (Some(y), Some(mo), Some(d), Some(h), Some(mi), Some(s)) => if y >= 1970 && 1 <= mo
                <= 12 && 1 <= d <= days_in_month(y, mo) && h < 24 && mi < 60 && s < 60 {
                Some(
                    (days_before_year(y) + days_before_month(y, mo) + d - 1) * 86400 + h * 3600
                        + mi * 60 + s,
                )
            } else {
                None
            },
            _ => None,
        }
    }
}

/// The number that `n` digits from position `i` on write.
pub fn read_number(text: &[u8], i: usize, n: usize) -> (r: Option<u64>)
    requires
        n <= 4,
        i + n <= usize::MAX,
    ensures
        match r {
            Some(x) => number_at(text@, i as int, n as int) == Some(x as int) && x < 10000,
            None => number_at(text@, i as int, n as int) is None,
        },
{
    if i + n > text.len() {
        if n == 0 {
            return Some(0);
        }
        return None;
    }
    let mut value: u64 = 0;
    let mut k: usize = 0;
    while k < n
        invariant
            k <= n <= 4,
            i + n <= text@.len(),
            i + n <= usize::MAX,
            number_at(text@, i as int, k as int) == Some(value as int),
            value < pow10(k as int),
        decreases n - k,
    {
        let b = text[i + k];
        if b < 48 || b > 57 {
            proof {
                lemma_number_stops(text@, i as int, k as int + 1, n as int);
            }
            return None;
        }
        value = value * 10 + (b - 48) as u64;
        k += 1;
    }
    Some(value)
}

pub open spec fn pow10(k: int) -> int {
    if k <= 0 {
        1
    } else if k == 1 {
        10
    } else if k == 2 {
        100
    } else if k == 3 {
        1000
    } else {
        10000
    }
}

/// Digits that write no number write none with more digits behind them.
proof fn lemma_number_stops(text: Seq<u8>, i: int, k: int, n: int)
    requires
        0 <= i,
        1 <= k <= n,
        i + n <= text.len(),
        number_at(text, i, k) is None,
    ensures
        number_at(text, i, n) is None,
    decreases n - k,
{
    if k < n {
        lemma_number_stops(text, i, k, n - 1);
    }
}

pub fn leap(y: u64) -> (b: bool)
    ensures
        b == is_leap(y as int),
{
    y % 4 == 0 && (y % 100 != 0 || y % 400 == 0)
}

pub fn month_length(y: u64, m: u64) -> (d: u64)
    ensures
        d == days_in_month(y as int, m as int),
        28 <= d <= 31,
{
    if m == 2 {
        if leap(y) {
            29
        } else {
            28
        }
    } else if m == 4 || m == 6 || m == 9 || m == 11 {
        30
    } else {
        31
    }
}

/// The point in time that a text names.
pub fn parse_iso(text: &[u8]) -> (r: Option<DateTime>)
    ensures
        match r {
            Some(t) => iso_seconds(text@) matches Some(s) && t == DateTime::Point(s as u64),
            None => iso_seconds(text@) is None,
        },
{
    let len = text.len();
    let n = if len > 0 && text[len - 1] == 90 {
        len - 1
    } else {
        len
    };
    if n != 16 && n != 19 {
        return None;
    }
    let ghost body = text@.subrange(0, n as int);
    proof {
        if n < len {
            assert(text@.drop_last() =~= body);
        } else {
            assert(text@ =~= body);
        }
        lemma_numbers_of_prefix(text@, body, 0, 4);
        lemma_numbers_of_prefix(text@, body, 5, 2);
        lemma_numbers_of_prefix(text@, body, 8, 2);
        lemma_numbers_of_prefix(text@, body, 11, 2);
        lemma_numbers_of_prefix(text@, body, 14, 2);
        if n == 19 {
            lemma_numbers_of_prefix(text@, body, 17, 2);
        }
    }
    if text[4] != 45 || text[7] != 45 || text[10] != 84 || text[13] != 58 || (n == 19 && text[16]
        != 58) {
        return None;
    }
    let y = match read_number(text, 0, 4) {
        Some(x) => x,
        None => {
            return None;
        },
    };
    let mo = match read_number(text, 5, 2) {
        Some(x) => x,
        None => {
            return None;
        },
    };
    let d = match read_number(text, 8, 2) {
        Some(x) => x,
        None => {
            return None;
        },
    };
    let h = match read_number(text, 11, 2) {
        Some(x) => x,
        None => {
            return None;
        },
    };
    let mi = match read_number(text, 14, 2) {
        Some(x) => x,
        None => {
            return None;
        },
    };
    let s = if n == 19 {
        match read_number(text, 17, 2) {
            Some(x) => x,
            None => {
                return None;
            },
        }
    } else {
        0
    };
    if y < 1970 || mo < 1 || mo > 12 || d < 1 || d > month_length(y, mo) || h >= 24 || mi >= 60
        || s >= 60 {
        return None;
    }
    let mut days: u64 = 0;
    let mut year: u64 = 1970;
    while year < y
        invariant
            1970 <= year <= y < 10000,
            days == days_before_year(year as int),
            days <= (year - 1970) * 366,
        decreases y - year,
    {
        days = days + if leap(year) {
            366
        } else {
            365
        };
        year += 1;
    }
    let mut month: u64 = 1;
    let ghost year_days = days;
    while month < mo
        invariant
            1 <= month <= mo <= 12,
            y < 10000,
            year_days == days_before_year(y as int),
            year_days <= 8030 * 366,
            days == year_days + days_before_month(y as int, month as int),
            days <= year_days + (month - 1) * 31,
        decreases mo - month,
    {
        days = days + month_length(y, month);
        month += 1;
    }
    days = days + d - 1;
    Some(DateTime::Point(days * 86400 + h * 3600 + mi * 60 + s))
}

/// The seconds that a text of the form `PThhHmmM` names: so many hours and
/// so many minutes, fewer than sixty.
pub open spec fn travel_seconds(text: Seq<u8>) -> Option<int> {
    if text.len() != 8 || text[0] != 80 || text[1] != 84 || text[4] != 72 || text[7] != 77 {
        None
    } else {
        match (number_at(text, 2, 2), number_at(text, 5, 2)) {
            (Some(h), Some(m)) => if m < 60 {
                Some(h * 3600 + m * 60)
            } else {
                None
            },
            _ => None,
        }
    }
}

/// The travel time that a text names.
pub fn parse_travel_time(text: &[u8]) -> (r: Option<Duration>)
    ensures
        match r {
            Some(d) => travel_seconds(text@) matches Some(s) && d == Duration::Length(s as u64),
            None => travel_seconds(text@) is None,
        },
{
    if text.len() != 8 || text[0] != 80 || text[1] != 84 || text[4] != 72 || text[7] != 77 {
        return None;
    }
    let h = match read_number(text, 2, 2) {
        Some(x) => x,
        None => {
            return None;
        },
    };
    let m = match read_number(text, 5, 2) {
        Some(x) => x,
        None => {
            return None;
        },
    };
    if m >= 60 {
        return None;
    }
    Some(Duration::Length(h * 3600 + m * 60))
}

/// The digits of a text at a place are the digits of what the text starts
/// with, if the place lies in it.
proof fn lemma_numbers_of_prefix(text: Seq<u8>, body: Seq<u8>, i: int, n: int)
    requires
        0 <= i,
        0 <= n,
        i + n <= body.len() <= text.len(),
        body == text.subrange(0, body.len() as int),
    ensures
        number_at(text, i, n) == number_at(body, i, n),
    decreases n,
{
    if n > 0 {
        lemma_numbers_of_prefix(text, body, i, n - 1);
        assert(body[i + n - 1] == text[i + n - 1]);
    }
}

} // verus!
