//! Calendar dates as plain year/month/day values: validity, ordering,
//! Gregorian weekday computation, month names, and the `DD.MM.YYYY` codec.

use crate::digits::{
    all_digits, chars_to_nat, lemma_nat_to_chars_digits, lemma_numeral_round_trip, nat_to_chars,
    parse_number_range,
};
use crate::errors::HoursError;
use crate::text::{find_char, lemma_find_char_absent, lemma_find_char_concat, seq_no_char};
use crate::util::{lemma_digits_no_char, lemma_pad_chars, pad2_string, pad_chars};
use vstd::prelude::*;
use vstd::string::StringExecFns;

verus! {

/// A Gregorian calendar date. Valid dates (see [`date_valid`]) have a year
/// between 1 and 9999, so every date fits the `DD.MM.YYYY` report format.
#[derive(Clone, Copy, Debug, PartialEq, Eq, Structural)]
pub struct Date {
    pub year: u32,
    pub month: u32,
    pub day: u32,
}

pub open spec fn is_leap_year(y: int) -> bool {
    y % 4 == 0 && (y % 100 != 0 || y % 400 == 0)
}

pub open spec fn days_in_month_spec(y: int, m: int) -> int {
    if m == 2 {
        if is_leap_year(y) {
            29
        } else {
            28
        }
    } else if m == 4 || m == 6 || m == 9 || m == 11 {
        30
    } else {
        31
    }
}

pub open spec fn date_valid(d: Date) -> bool {
    1 <= d.year <= 9999 && 1 <= d.month <= 12 && 1 <= d.day <= days_in_month_spec(
        d.year as int,
        d.month as int,
    )
}

/// Strict chronological order.
pub open spec fn date_lt(a: Date, b: Date) -> bool {
    a.year < b.year || (a.year == b.year && (a.month < b.month || (a.month == b.month && a.day
        < b.day)))
}

pub fn is_leap(y: u32) -> (r: bool)
    ensures
        r == is_leap_year(y as int),
{
    y % 4 == 0 && (y % 100 != 0 || y % 400 == 0)
}

pub fn days_in_month(y: u32, m: u32) -> (r: u32)
    requires
        1 <= m <= 12,
    ensures
        r == days_in_month_spec(y as int, m as int),
        28 <= r <= 31,
{
    if m == 2 {
        if is_leap(y) {
            29
        } else {
            28
        }
    } else if m == 4 || m == 6 || m == 9 || m == 11 {
        30
    } else {
        31
    }
}

impl Date {
    /// The date `d.m.y`, when those fields name a real calendar day.
    pub fn new(year: u32, month: u32, day: u32) -> (r: Option<Date>)
        ensures
            ({
                let d = (Date { year, month, day });
                match r {
                    Some(dt) => dt == d && date_valid(d),
                    None => !date_valid(d),
                }
            }),
    {
        if 1 <= year && year <= 9999 && 1 <= month && month <= 12 && 1 <= day && day
            <= days_in_month(year, month) {
            Some(Date { year, month, day })
        } else {
            None
        }
    }

    pub fn before(&self, other: &Date) -> (r: bool)
        ensures
            r == date_lt(*self, *other),
    {
        self.year < other.year || (self.year == other.year && (self.month < other.month || (
        self.month == other.month && self.day < other.day)))
    }
}

/// Weekday of a valid date, `0` = Monday through `6` = Sunday, by Zeller's
/// congruence for the Gregorian calendar.
pub open spec fn weekday_spec(y: int, m: int, d: int) -> int {
    let zy = if m < 3 {
        y - 1
    } else {
        y
    };
    let zm = if m < 3 {
        m + 12
    } else {
        m
    };
    let kk = zy % 100;
    let jj = zy / 100;
    let h = (d + (13 * (zm + 1)) / 5 + kk + kk / 4 + jj / 4 + 5 * jj) % 7;
    (h + 5) % 7
}

/// Saturdays and Sundays are not working days; no holidays are modeled.
pub open spec fn is_working_weekday(w: int) -> bool {
    0 <= w < 5
}

pub fn weekday(y: u32, m: u32, d: u32) -> (r: u32)
    requires
        1 <= y <= 9999,
        1 <= m <= 12,
        1 <= d <= 31,
    ensures
        r == weekday_spec(y as int, m as int, d as int),
        r < 7,
{
    let zy: u32 = if m < 3 {
        y - 1
    } else {
        y
    };
    let zm: u32 = if m < 3 {
        m + 12
    } else {
        m
    };
    let kk = zy % 100;
    let jj = zy / 100;
    let h = (d + (13 * (zm + 1)) / 5 + kk + kk / 4 + jj / 4 + 5 * jj) % 7;
    (h + 5) % 7
}

pub fn is_working_day(w: u32) -> (r: bool)
    ensures
        r == is_working_weekday(w as int),
{
    w < 5
}

/// Number of working days with day-of-month in `lo..=hi` of month `m` of
/// year `y`.
pub open spec fn count_working_days(y: int, m: int, lo: int, hi: int) -> int
    decreases hi + 1 - lo,
{
    if lo > hi {
        0
    } else {
        (if is_working_weekday(weekday_spec(y, m, lo)) {
            1int
        } else {
            0int
        }) + count_working_days(y, m, lo + 1, hi)
    }
}

pub proof fn lemma_count_working_days_bound(y: int, m: int, lo: int, hi: int)
    ensures
        0 <= count_working_days(y, m, lo, hi) <= (if hi + 1 - lo >= 0 {
            hi + 1 - lo
        } else {
            0
        }),
    decreases hi + 1 - lo,
{
    if lo <= hi {
        lemma_count_working_days_bound(y, m, lo + 1, hi);
    }
}

/// Counts the working days of month `m` of year `y` whose day-of-month is
/// `lo` or later.
pub fn working_days_from(y: u32, m: u32, lo: u32) -> (r: u8)
    requires
        1 <= y <= 9999,
        1 <= m <= 12,
        1 <= lo <= 32,
    ensures
        r as int == count_working_days(
            y as int,
            m as int,
            lo as int,
            days_in_month_spec(y as int, m as int),
        ),
{
    let dim = days_in_month(y, m);
    let mut day = lo;
    let mut c: u8 = 0;
    proof {
        lemma_count_working_days_bound(y as int, m as int, lo as int, dim as int);
    }
    if day > dim {
        return 0;
    }
    while day <= dim
        invariant
            1 <= y <= 9999,
            1 <= m <= 12,
            1 <= lo <= day,
            day <= dim + 1,
            dim == days_in_month_spec(y as int, m as int),
            c as int + count_working_days(y as int, m as int, day as int, dim as int)
                == count_working_days(y as int, m as int, lo as int, dim as int),
            c as int <= day - lo,
        decreases dim + 1 - day,
    {
        proof {
            lemma_count_working_days_bound(y as int, m as int, day as int + 1, dim as int);
        }
        let w = weekday(y, m, day);
        if is_working_day(w) {
            c = c + 1;
        }
        day = day + 1;
    }
    c
}

/// English month names, as the report's subtotal lines spell them.
pub open spec fn month_name_chars(m: int) -> Seq<char> {
    if m == 1 {
        seq!['J', 'a', 'n', 'u', 'a', 'r', 'y']
    } else if m == 2 {
        seq!['F', 'e', 'b', 'r', 'u', 'a', 'r', 'y']
    } else if m == 3 {
        seq!['M', 'a', 'r', 'c', 'h']
    } else if m == 4 {
        seq!['A', 'p', 'r', 'i', 'l']
    } else if m == 5 {
        seq!['M', 'a', 'y']
    } else if m == 6 {
        seq!['J', 'u', 'n', 'e']
    } else if m == 7 {
        seq!['J', 'u', 'l', 'y']
    } else if m == 8 {
        seq!['A', 'u', 'g', 'u', 's', 't']
    } else if m == 9 {
        seq!['S', 'e', 'p', 't', 'e', 'm', 'b', 'e', 'r']
    } else if m == 10 {
        seq!['O', 'c', 't', 'o', 'b', 'e', 'r']
    } else if m == 11 {
        seq!['N', 'o', 'v', 'e', 'm', 'b', 'e', 'r']
    } else {
        seq!['D', 'e', 'c', 'e', 'm', 'b', 'e', 'r']
    }
}

pub fn month_name(m: u32) -> (r: &'static str)
    requires
        1 <= m <= 12,
    ensures
        r@ =~= month_name_chars(m as int),
{
    proof {
        reveal_strlit("January");
        reveal_strlit("February");
        reveal_strlit("March");
        reveal_strlit("April");
        reveal_strlit("May");
        reveal_strlit("June");
        reveal_strlit("July");
        reveal_strlit("August");
        reveal_strlit("September");
        reveal_strlit("October");
        reveal_strlit("November");
        reveal_strlit("December");
    }
    if m == 1 {
        "January"
    } else if m == 2 {
        "February"
    } else if m == 3 {
        "March"
    } else if m == 4 {
        "April"
    } else if m == 5 {
        "May"
    } else if m == 6 {
        "June"
    } else if m == 7 {
        "July"
    } else if m == 8 {
        "August"
    } else if m == 9 {
        "September"
    } else if m == 10 {
        "October"
    } else if m == 11 {
        "November"
    } else {
        "December"
    }
}

/// Month names hold no newline, space or digit-like character that could
/// confuse line splitting or trimming.
pub proof fn lemma_month_name_clean(m: int)
    requires
        1 <= m <= 12,
    ensures
        month_name_chars(m).len() > 0,
        seq_no_char(month_name_chars(m), '\n'),
{
}

/// The `DD.MM.YYYY` rendering of a date (day and month zero-padded to two
/// digits, year unpadded).
pub open spec fn date_chars(d: Date) -> Seq<char> {
    pad_chars(d.day as nat) + seq!['.'] + pad_chars(d.month as nat) + seq!['.'] + nat_to_chars(
        d.year as nat,
    )
}

/// The date grammar: three nonempty all-digit fields separated by `.`,
/// read as day, month and year, naming a real calendar day.
pub open spec fn date_parse(s: Seq<char>) -> Option<Date> {
    let i = find_char(s, '.');
    if i == s.len() {
        None
    } else {
        let f1 = s.subrange(0, i);
        let rest = s.subrange(i + 1, s.len() as int);
        let j = find_char(rest, '.');
        if j == rest.len() {
            None
        } else {
            let f2 = rest.subrange(0, j);
            let f3 = rest.subrange(j + 1, rest.len() as int);
            if find_char(f3, '.') != f3.len() {
                None
            } else if !(f1.len() > 0 && all_digits(f1) && f2.len() > 0 && all_digits(f2)
                && f3.len() > 0 && all_digits(f3)) {
                None
            } else {
                let d0 = chars_to_nat(f1);
                let m0 = chars_to_nat(f2);
                let y0 = chars_to_nat(f3);
                if 1 <= y0 <= 9999 && 1 <= m0 <= 12 && 1 <= d0 <= days_in_month_spec(
                    y0 as int,
                    m0 as int,
                ) {
                    Some(Date { year: y0 as u32, month: m0 as u32, day: d0 as u32 })
                } else {
                    None
                }
            }
        }
    }
}

/// Renders a date as `DD.MM.YYYY`.
pub fn format_date(d: &Date) -> (r: String)
    requires
        date_valid(*d),
    ensures
        r@ == date_chars(*d),
{
    proof {
        reveal_strlit(".");
    }
    let mut out = pad2_string(d.day as u64);
    out.append(".");
    let mm = pad2_string(d.month as u64);
    out.append(mm.as_str());
    out.append(".");
    let yy = crate::digits::u64_to_string(d.year as u64);
    out.append(yy.as_str());
    proof {
        assert("."@ =~= seq!['.']);
        assert(out@ =~= date_chars(*d));
    }
    out
}

/// Parses `DD.MM.YYYY` text; `FormatError` exactly when the text does not
/// name a real calendar day.
pub fn parse_date(s: &str) -> (r: Result<Date, HoursError>)
    ensures
        ({
            let p = date_parse(s@);
            match r {
                Ok(d) => p == Some(d),
                Err(e) => p is None && e == HoursError::FormatError,
            }
        }),
{
    let n = s.unicode_len();
    proof {
        assert(s@.subrange(0, n as int) =~= s@);
    }
    parse_date_range(s, n, 0, n)
}

/// As `parse_date`, over the char range `start..end` of `s`.
#[verifier::rlimit(50)]
pub fn parse_date_range(s: &str, n: usize, start: usize, end: usize) -> (r: Result<
    Date,
    HoursError,
>)
    requires
        n == s@.len(),
        start <= end <= n,
    ensures
        ({
            let p = date_parse(s@.subrange(start as int, end as int));
            match r {
                Ok(d) => p == Some(d),
                Err(e) => p is None && e == HoursError::FormatError,
            }
        }),
{
    let ghost whole = s@.subrange(start as int, end as int);
    let i = crate::text::find_char_from(s, n, start, '.');
    let i = if i > end {
        end
    } else {
        i
    };
    proof {
        if i < end {
            assert(whole[i - start] == s@[i as int]);
        }
        assert forall|j: int| 0 <= j < i - start implies #[trigger] whole[j] != '.' by {
            assert(whole[j] == s@[start + j]);
        }
        if i == end {
            assert forall|j: int| 0 <= j < whole.len() implies #[trigger] whole[j] != '.' by {
                assert(whole[j] == s@[start + j]);
            }
            crate::text::lemma_find_char_at(whole, '.', end - start);
        } else {
            crate::text::lemma_find_char_at(whole, '.', i - start);
        }
    }
    if i == end {
        return Err(HoursError::FormatError);
    }
    let ghost f1 = whole.subrange(0, i - start);
    let ghost rest = whole.subrange(i - start + 1, whole.len() as int);
    let j = crate::text::find_char_from(s, n, i + 1, '.');
    let j = if j > end {
        end
    } else {
        j
    };
    proof {
        if j < end {
            assert(rest[j - i - 1] == s@[j as int]);
        }
        assert forall|k: int| 0 <= k < j - i - 1 implies #[trigger] rest[k] != '.' by {
            assert(rest[k] == s@[i + 1 + k]);
        }
        if j == end {
            assert forall|k: int| 0 <= k < rest.len() implies #[trigger] rest[k] != '.' by {
                assert(rest[k] == s@[i + 1 + k]);
            }
            crate::text::lemma_find_char_at(rest, '.', rest.len() as int);
        } else {
            crate::text::lemma_find_char_at(rest, '.', j - i - 1);
        }
    }
    if j == end {
        return Err(HoursError::FormatError);
    }
    let ghost f2 = rest.subrange(0, j - i - 1);
    let ghost f3 = rest.subrange(j - i - 1 + 1, rest.len() as int);
    let k = crate::text::find_char_from(s, n, j + 1, '.');
    let k = if k > end {
        end
    } else {
        k
    };
    proof {
        assert(f3 =~= s@.subrange(j + 1, end as int));
        if k < end {
            assert(f3[k - j - 1] == s@[k as int]);
        }
        assert forall|t: int| 0 <= t < k - j - 1 implies #[trigger] f3[t] != '.' by {
            assert(f3[t] == s@[j + 1 + t]);
        }
        if k == end {
            assert forall|t: int| 0 <= t < f3.len() implies #[trigger] f3[t] != '.' by {
                assert(f3[t] == s@[j + 1 + t]);
            }
            crate::text::lemma_find_char_at(f3, '.', f3.len() as int);
        } else {
            crate::text::lemma_find_char_at(f3, '.', k - j - 1);
        }
    }
    if k != end {
        return Err(HoursError::FormatError);
    }
    proof {
        assert(f1 =~= s@.subrange(start as int, i as int));
        assert(f2 =~= s@.subrange(i + 1, j as int));
    }
    let dv = parse_number_range(s, n, start, i);
    let mv = parse_number_range(s, n, i + 1, j);
    let yv = parse_number_range(s, n, j + 1, end);
    let (d0, m0, y0) = match (dv, mv, yv) {
        (Some(a), Some(b), Some(c)) => (a, b, c),
        _ => {
            proof {
                // A field whose value does not fit in u64 cannot lie in the
                // small valid ranges either.
            }
            return Err(HoursError::FormatError);
        },
    };
    if 1 <= y0 && y0 <= 9999 && 1 <= m0 && m0 <= 12 && 1 <= d0 && d0 <= days_in_month(
        y0 as u32,
        m0 as u32,
    ) as u64 {
        Ok(Date { year: y0 as u32, month: m0 as u32, day: d0 as u32 })
    } else {
        Err(HoursError::FormatError)
    }
}

/// Whatever `date_parse` accepts is a valid calendar date.
pub proof fn lemma_date_parse_valid(s: Seq<char>)
    ensures
        match date_parse(s) {
            Some(d) => date_valid(d),
            None => true,
        },
{
}

/// Date codec round trip: parsing the rendered `DD.MM.YYYY` text of a valid
/// date yields the date again.
pub proof fn lemma_date_round_trip(d: Date)
    requires
        date_valid(d),
    ensures
        date_parse(date_chars(d)) == Some(d),
{
    let f1 = pad_chars(d.day as nat);
    let f2 = pad_chars(d.month as nat);
    let f3 = nat_to_chars(d.year as nat);
    lemma_pad_chars(d.day as nat);
    lemma_pad_chars(d.month as nat);
    lemma_nat_to_chars_digits(d.year as nat);
    lemma_numeral_round_trip(d.year as nat);
    lemma_digits_no_char(f1, '.');
    lemma_digits_no_char(f2, '.');
    lemma_digits_no_char(f3, '.');
    let text = date_chars(d);
    assert(text =~= f1 + seq!['.'] + (f2 + seq!['.'] + f3));
    lemma_find_char_concat(f1, f2 + seq!['.'] + f3, '.');
    let i = find_char(text, '.');
    assert(i == f1.len());
    assert(text.subrange(0, i) =~= f1);
    let rest = text.subrange(i + 1, text.len() as int);
    assert(rest =~= f2 + seq!['.'] + f3);
    lemma_find_char_concat(f2, f3, '.');
    let j = find_char(rest, '.');
    assert(j == f2.len());
    assert(rest.subrange(0, j) =~= f2);
    assert(rest.subrange(j + 1, rest.len() as int) =~= f3);
    lemma_find_char_absent(f3, '.');
}

} // verus!
