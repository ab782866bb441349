//! The duration codec: a wall-clock duration rendered as `HH:MM:SS` text
//! (hours unbounded, minutes and seconds always two digits) and parsed back.

use crate::digits::{
    all_digits, chars_to_nat, is_digit, lemma_leading_zero, lemma_nat_to_chars_digits,
    lemma_numeral_round_trip, nat_to_chars, parse_number_range, u64_to_string,
};
use crate::errors::HoursError;
use crate::text::{
    find_char, lemma_find_char_absent, lemma_find_char_concat, seq_no_char,
};
use vstd::arithmetic::div_mod::{lemma_div_denominator, lemma_fundamental_div_mod};
use vstd::prelude::*;
use vstd::string::StrSliceExecFns;
use vstd::string::StringExecFns;

verus! {

/// A non-negative span of time with one-second precision.
#[derive(Clone, Copy, Debug, PartialEq, Eq, Structural)]
pub struct Duration {
    pub secs: u64,
}

impl Duration {
    pub fn seconds(s: u64) -> (r: Duration)
        ensures
            r.secs == s,
    {
        Duration { secs: s }
    }

    pub fn minutes(m: u64) -> (r: Duration)
        requires
            m * 60 <= u64::MAX,
        ensures
            r.secs == m * 60,
    {
        Duration { secs: m * 60 }
    }

    pub fn hours(h: u64) -> (r: Duration)
        requires
            h * 3600 <= u64::MAX,
        ensures
            r.secs == h * 3600,
    {
        Duration { secs: h * 3600 }
    }

    pub fn from_hms(h: u64, m: u64, s: u64) -> (r: Duration)
        requires
            h * 3600 + m * 60 + s <= u64::MAX,
        ensures
            r.secs == h * 3600 + m * 60 + s,
    {
        Duration { secs: h * 3600 + m * 60 + s }
    }
}

/// A numeral zero-padded on the left to at least two digits.
pub open spec fn pad_chars(k: nat) -> Seq<char> {
    if k < 10 {
        seq!['0'] + nat_to_chars(k)
    } else {
        nat_to_chars(k)
    }
}

/// The `HH:MM:SS` rendering of `n` seconds.
pub open spec fn dur_chars(n: nat) -> Seq<char> {
    pad_chars(n / 3600) + seq![':'] + pad_chars((n / 60) % 60) + seq![':'] + pad_chars(n % 60)
}

pub open spec fn dur_field_ok(f: Seq<char>) -> bool {
    f.len() > 0 && all_digits(f)
}

/// The duration grammar: exactly three nonempty all-digit fields separated
/// by `:`, summed as hours, minutes and seconds; the total must be
/// representable in seconds as a `u64`.
pub open spec fn dur_parse(s: Seq<char>) -> Option<nat> {
    let i = find_char(s, ':');
    if i == s.len() {
        None
    } else {
        let f1 = s.subrange(0, i);
        let rest = s.subrange(i + 1, s.len() as int);
        let j = find_char(rest, ':');
        if j == rest.len() {
            None
        } else {
            let f2 = rest.subrange(0, j);
            let f3 = rest.subrange(j + 1, rest.len() as int);
            if find_char(f3, ':') != f3.len() {
                None
            } else if !(dur_field_ok(f1) && dur_field_ok(f2) && dur_field_ok(f3)) {
                None
            } else {
                let v = chars_to_nat(f1) * 3600 + chars_to_nat(f2) * 60 + chars_to_nat(f3);
                if v > u64::MAX {
                    None
                } else {
                    Some(v)
                }
            }
        }
    }
}

pub proof fn lemma_pad_chars(k: nat)
    ensures
        all_digits(pad_chars(k)),
        pad_chars(k).len() >= 2,
        k < 100 ==> pad_chars(k).len() == 2,
        chars_to_nat(pad_chars(k)) == k,
{
    lemma_nat_to_chars_digits(k);
    if k < 10 {
        lemma_leading_zero(nat_to_chars(k));
        lemma_numeral_round_trip(k);
        let p = seq!['0'] + nat_to_chars(k);
        assert(is_digit(p[0]));
        assert forall|i: int| 0 <= i < p.len() implies is_digit(#[trigger] p[i]) by {
            if i >= 1 {
                assert(p[i] == nat_to_chars(k)[i - 1]);
            }
        }
    } else {
        lemma_numeral_round_trip(k);
        if k < 100 {
            lemma_nat_to_chars_digits(k / 10);
            assert(nat_to_chars(k) == nat_to_chars(k / 10).push(crate::digits::digit_char(k % 10)));
            assert(k / 10 < 10);
            assert(nat_to_chars(k / 10).len() == 1);
        }
    }
}

pub proof fn lemma_digits_no_char(s: Seq<char>, c: char)
    requires
        all_digits(s),
        !(48 <= c as int <= 57),
    ensures
        seq_no_char(s, c),
{
    assert forall|i: int| 0 <= i < s.len() implies #[trigger] s[i] != c by {
        assert(is_digit(s[i]));
    }
}

/// Renders a number zero-padded to at least two digits.
pub fn pad2_string(k: u64) -> (r: String)
    ensures
        r@ == pad_chars(k as nat),
{
    if k < 10 {
        proof {
            reveal_strlit("0");
        }
        let mut s = String::new();
        s.append("0");
        let digits = u64_to_string(k);
        s.append(digits.as_str());
        proof {
            assert(s@ =~= pad_chars(k as nat));
        }
        s
    } else {
        u64_to_string(k)
    }
}

/// Renders a duration as zero-padded `HH:MM:SS`; the hours field grows
/// beyond two digits when needed.
pub fn format_duration(duration: Duration) -> (r: String)
    ensures
        r@ == dur_chars(duration.secs as nat),
{
    proof {
        reveal_strlit(":");
    }
    let n = duration.secs;
    let mut out = pad2_string(n / 3600);
    out.append(":");
    let mm = pad2_string((n / 60) % 60);
    out.append(mm.as_str());
    out.append(":");
    let ss = pad2_string(n % 60);
    out.append(ss.as_str());
    proof {
        assert(":"@ =~= seq![':']);
        assert(out@ =~= dur_chars(duration.secs as nat));
    }
    out
}

/// Parses zero-padded `H:M:S` text into a duration; `FormatError` exactly
/// when the text does not match the duration grammar.
pub fn parse_duration(s: &str) -> (r: Result<Duration, HoursError>)
    ensures
        ({
            let p = dur_parse(s@);
            match r {
                Ok(d) => p == Some(d.secs as nat),
                Err(e) => p is None && e == HoursError::FormatError,
            }
        }),
{
    let n = s.unicode_len();
    proof {
        assert(s@.subrange(0, n as int) =~= s@);
    }
    parse_duration_range(s, n, 0, n)
}

/// As `parse_duration`, over the char range `start..end` of `s`.
#[verifier::rlimit(50)]
pub fn parse_duration_range(s: &str, n: usize, start: usize, end: usize) -> (r: Result<
    Duration,
    HoursError,
>)
    requires
        n == s@.len(),
        start <= end <= n,
    ensures
        ({
            let p = dur_parse(s@.subrange(start as int, end as int));
            match r {
                Ok(d) => p == Some(d.secs as nat),
                Err(e) => p is None && e == HoursError::FormatError,
            }
        }),
{
    let ghost whole = s@.subrange(start as int, end as int);
    let i = crate::text::find_char_from(s, n, start, ':');
    proof {
        assert(whole.subrange(start - start, end - start) =~= whole);
    }
    let i = if i > end {
        end
    } else {
        i
    };
    proof {
        // find_char on the line range: recompute against `whole`.
        if i < end {
            assert(whole[i - start] == s@[i as int]);
        }
        assert forall|j: int| 0 <= j < i - start implies #[trigger] whole[j] != ':' by {
            assert(whole[j] == s@[start + j]);
        }
        if i == end {
            crate::text::lemma_find_char_at(whole, ':', end - start);
        } else {
            crate::text::lemma_find_char_at(whole, ':', i - start);
        }
    }
    if i == end {
        return Err(HoursError::FormatError);
    }
    let ghost f1 = whole.subrange(0, i - start);
    let ghost rest = whole.subrange(i - start + 1, whole.len() as int);
    let j = crate::text::find_char_from(s, n, i + 1, ':');
    let j = if j > end {
        end
    } else {
        j
    };
    proof {
        if j < end {
            assert(rest[j - i - 1] == s@[j as int]);
        }
        assert forall|k: int| 0 <= k < j - i - 1 implies #[trigger] rest[k] != ':' by {
            assert(rest[k] == s@[i + 1 + k]);
        }
        if j == end {
            assert forall|k: int| 0 <= k < rest.len() implies #[trigger] rest[k] != ':' by {
                assert(rest[k] == s@[i + 1 + k]);
            }
            crate::text::lemma_find_char_at(rest, ':', rest.len() as int);
        } else {
            crate::text::lemma_find_char_at(rest, ':', j - i - 1);
        }
    }
    if j == end {
        return Err(HoursError::FormatError);
    }
    let ghost f2 = rest.subrange(0, j - i - 1);
    let ghost f3 = rest.subrange(j - i - 1 + 1, rest.len() as int);
    let k = crate::text::find_char_from(s, n, j + 1, ':');
    let k = if k > end {
        end
    } else {
        k
    };
    proof {
        assert(f3 =~= s@.subrange(j + 1, end as int));
        if k < end {
            assert(f3[k - j - 1] == s@[k as int]);
        }
        assert forall|t: int| 0 <= t < k - j - 1 implies #[trigger] f3[t] != ':' by {
            assert(f3[t] == s@[j + 1 + t]);
        }
        if k == end {
            assert forall|t: int| 0 <= t < f3.len() implies #[trigger] f3[t] != ':' by {
                assert(f3[t] == s@[j + 1 + t]);
            }
            crate::text::lemma_find_char_at(f3, ':', f3.len() as int);
        } else {
            crate::text::lemma_find_char_at(f3, ':', k - j - 1);
        }
    }
    if k != end {
        return Err(HoursError::FormatError);
    }
    proof {
        assert(f1 =~= s@.subrange(start as int, i as int));
        assert(f2 =~= s@.subrange(i + 1, j as int));
    }
    let hv = parse_number_range(s, n, start, i);
    let mv = parse_number_range(s, n, i + 1, j);
    let sv = parse_number_range(s, n, j + 1, end);
    proof {
        if chars_to_nat(f1) > u64::MAX || chars_to_nat(f2) > u64::MAX || chars_to_nat(f3)
            > u64::MAX {
            let v = chars_to_nat(f1) * 3600 + chars_to_nat(f2) * 60 + chars_to_nat(f3);
            assert(chars_to_nat(f1) * 3600 >= chars_to_nat(f1) * 1);
            assert(chars_to_nat(f2) * 60 >= chars_to_nat(f2) * 1);
            assert(v > u64::MAX);
        }
    }
    let (h, m, sec) = match (hv, mv, sv) {
        (Some(a), Some(b), Some(c)) => (a, b, c),
        _ => {
            return Err(HoursError::FormatError);
        },
    };
    let total = match h.checked_mul(3600) {
        Some(t) => match t.checked_add(match m.checked_mul(60) {
            Some(u) => u,
            None => {
                proof {
                    assert(m * 60 > u64::MAX);
                    assert(chars_to_nat(f1) * 3600 + chars_to_nat(f2) * 60 + chars_to_nat(f3)
                        > u64::MAX);
                }
                return Err(HoursError::FormatError);
            },
        }) {
            Some(u) => match u.checked_add(sec) {
                Some(v) => v,
                None => {
                    return Err(HoursError::FormatError);
                },
            },
            None => {
                return Err(HoursError::FormatError);
            },
        },
        None => {
            proof {
                assert(h * 3600 > u64::MAX);
                assert(chars_to_nat(f1) * 3600 + chars_to_nat(f2) * 60 + chars_to_nat(f3)
                    > u64::MAX);
            }
            return Err(HoursError::FormatError);
        },
    };
    Ok(Duration { secs: total })
}

/// Duration codec round trip: for every duration `d`, parsing the rendered
/// `HH:MM:SS` text yields `d` again, and the minutes and seconds fields of
/// the rendering are exactly two digits wide.
pub proof fn lemma_duration_round_trip(d: Duration)
    ensures
        dur_parse(dur_chars(d.secs as nat)) == Some(d.secs as nat),
        pad_chars(((d.secs as nat) / 60) % 60).len() == 2,
        pad_chars((d.secs as nat) % 60).len() == 2,
{
    let n = d.secs as nat;
    let h = n / 3600;
    let m = (n / 60) % 60;
    let s2 = n % 60;
    lemma_pad_chars(h);
    lemma_pad_chars(m);
    lemma_pad_chars(s2);
    let f1 = pad_chars(h);
    let f2 = pad_chars(m);
    let f3 = pad_chars(s2);
    let text = dur_chars(n);
    lemma_digits_no_char(f1, ':');
    lemma_digits_no_char(f2, ':');
    lemma_digits_no_char(f3, ':');
    assert(text =~= f1 + seq![':'] + (f2 + seq![':'] + f3));
    lemma_find_char_concat(f1, f2 + seq![':'] + f3, ':');
    let i = find_char(text, ':');
    assert(i == f1.len());
    assert(text.subrange(0, i) =~= f1);
    let rest = text.subrange(i + 1, text.len() as int);
    assert(rest =~= f2 + seq![':'] + f3);
    lemma_find_char_concat(f2, f3, ':');
    let j = find_char(rest, ':');
    assert(j == f2.len());
    assert(rest.subrange(0, j) =~= f2);
    assert(rest.subrange(j + 1, rest.len() as int) =~= f3);
    lemma_find_char_absent(f3, ':');
    // The three fields recombine to n.
    lemma_fundamental_div_mod(n as int, 60);
    lemma_fundamental_div_mod(n as int / 60, 60);
    lemma_div_denominator(n as int, 60, 60);
    assert(n == 3600 * h + 60 * m + s2);
}

} // verus!
