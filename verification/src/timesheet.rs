//! The timesheet: an ordered collection of per-day accumulated durations,
//! parsed from and serialized to the plain-text report format, with point
//! updates, range queries, and the remaining-work derivation.

use crate::date::{date_chars, date_lt, date_parse, date_valid, month_name_chars, Date};
use crate::digits::{all_digits, is_digit};
use crate::errors::HoursError;
use crate::remaining_work::RemainingWork;
use crate::report::Report;
use crate::text::{find_char, is_total_line, seq_no_char, trim_chars};
use crate::util::{dur_chars, dur_parse, Duration};
use vstd::prelude::*;
use vstd::string::StringExecFns;

verus! {

/// The monthly work quota the remaining-work derivation measures against.
pub const MONTHLY_QUOTA_SECONDS: u64 = 160 * 3600;

/// One day's accumulated work.
#[derive(Clone, Copy, Debug, PartialEq, Eq, Structural)]
pub struct Entry {
    pub date: Date,
    pub worked: Duration,
}

/// Total seconds worked over all entries.
pub open spec fn sum_secs(s: Seq<Entry>) -> nat
    decreases s.len(),
{
    if s.len() == 0 {
        0
    } else {
        sum_secs(s.drop_last()) + s.last().worked.secs as nat
    }
}

/// Entries strictly ascending by date (hence dates are unique).
pub open spec fn entries_ordered(s: Seq<Entry>) -> bool {
    forall|i: int, j: int| 0 <= i < j < s.len() ==> date_lt(#[trigger] s[i].date, #[trigger] s[j].date)
}

/// Well-formed entry sequences: strictly ascending valid dates, and a total
/// that stays representable in seconds as a `u64`.
pub open spec fn entries_wf(s: Seq<Entry>) -> bool {
    &&& entries_ordered(s)
    &&& forall|i: int| 0 <= i < s.len() ==> date_valid(#[trigger] s[i].date)
    &&& sum_secs(s) <= u64::MAX
}

pub open spec fn has_date(s: Seq<Entry>, d: Date) -> bool {
    exists|i: int| 0 <= i < s.len() && #[trigger] s[i].date == d
}

/// Strict ordering leaves no room for duplicate dates.
pub proof fn lemma_ordered_unique_dates(s: Seq<Entry>)
    requires
        entries_ordered(s),
    ensures
        forall|i: int, j: int|
            0 <= i < s.len() && 0 <= j < s.len() && i != j ==> (#[trigger] s[i].date)
                != (#[trigger] s[j].date),
{
    assert forall|i: int, j: int|
        0 <= i < s.len() && 0 <= j < s.len() && i != j implies (#[trigger] s[i].date)
        != (#[trigger] s[j].date) by {
        if i < j {
            assert(date_lt(s[i].date, s[j].date));
        } else {
            assert(date_lt(s[j].date, s[i].date));
        }
    }
}

pub proof fn lemma_sum_element(s: Seq<Entry>, i: int)
    requires
        0 <= i < s.len(),
    ensures
        s[i].worked.secs <= sum_secs(s),
    decreases s.len(),
{
    if i == s.len() - 1 {
    } else {
        assert(s.drop_last()[i] == s[i]);
        lemma_sum_element(s.drop_last(), i);
    }
}

pub proof fn lemma_sum_update(s: Seq<Entry>, i: int, e: Entry)
    requires
        0 <= i < s.len(),
    ensures
        sum_secs(s.update(i, e)) + s[i].worked.secs == sum_secs(s) + e.worked.secs,
    decreases s.len(),
{
    let t = s.update(i, e);
    if i == s.len() - 1 {
        assert(t.drop_last() =~= s.drop_last());
        assert(t.last() == e);
    } else {
        assert(t.drop_last() =~= s.drop_last().update(i, e));
        assert(t.last() == s.last());
        lemma_sum_update(s.drop_last(), i, e);
    }
}

pub proof fn lemma_sum_insert(s: Seq<Entry>, i: int, e: Entry)
    requires
        0 <= i <= s.len(),
    ensures
        sum_secs(s.insert(i, e)) == sum_secs(s) + e.worked.secs,
    decreases s.len(),
{
    let t = s.insert(i, e);
    if i == s.len() {
        assert(t.drop_last() =~= s);
        assert(t.last() == e);
    } else {
        assert(t.drop_last() =~= s.drop_last().insert(i, e));
        assert(t.last() == s.last());
        lemma_sum_insert(s.drop_last(), i, e);
    }
}

/// Seconds worked in the contiguous run of entries at the very end whose
/// month number equals `m` — the backward scan the remaining-work
/// derivation uses.
pub open spec fn suffix_month_sum(s: Seq<Entry>, m: int) -> nat
    decreases s.len(),
{
    if s.len() == 0 {
        0
    } else if s.last().date.month == m {
        suffix_month_sum(s.drop_last(), m) + s.last().worked.secs as nat
    } else {
        0
    }
}

pub proof fn lemma_suffix_month_sum_le(s: Seq<Entry>, m: int)
    ensures
        suffix_month_sum(s, m) <= sum_secs(s),
    decreases s.len(),
{
    if s.len() > 0 {
        lemma_suffix_month_sum_le(s.drop_last(), m);
    }
}

pub proof fn lemma_sum_cons(e: Entry, s: Seq<Entry>)
    ensures
        sum_secs(seq![e] + s) == e.worked.secs + sum_secs(s),
    decreases s.len(),
{
    if s.len() == 0 {
        assert(seq![e] + s =~= seq![e]);
        assert((seq![e]).drop_last() =~= Seq::<Entry>::empty());
        assert((seq![e]).last() == e);
        assert(sum_secs(seq![e]) == sum_secs((seq![e]).drop_last()) + e.worked.secs);
        assert(sum_secs((seq![e]).drop_last()) == 0);
    } else {
        assert((seq![e] + s).drop_last() =~= seq![e] + s.drop_last());
        assert((seq![e] + s).last() == s.last());
        lemma_sum_cons(e, s.drop_last());
        assert(sum_secs(seq![e] + s) == sum_secs(seq![e] + s.drop_last()) + s.last().worked.secs);
        assert(sum_secs(s) == sum_secs(s.drop_last()) + s.last().worked.secs);
    }
}

pub proof fn lemma_sum_concat(s: Seq<Entry>, i: int)
    requires
        0 <= i <= s.len(),
    ensures
        sum_secs(s) == sum_secs(s.subrange(0, i)) + sum_secs(s.subrange(i, s.len() as int)),
    decreases s.len() - i,
{
    if i == s.len() {
        assert(s.subrange(0, i) =~= s);
        assert(s.subrange(i, s.len() as int) =~= Seq::<Entry>::empty());
    } else {
        lemma_sum_concat(s, i + 1);
        let a = s.subrange(0, i + 1);
        assert(a.drop_last() =~= s.subrange(0, i));
        assert(a.last() == s[i]);
        let b = s.subrange(i, s.len() as int);
        let c = s.subrange(i + 1, s.len() as int);
        assert(b =~= seq![s[i]] + c);
        lemma_sum_cons(s[i], c);
    }
}

/// The text of one entry line: `DD.MM.YYYY HH:MM:SS`.
pub open spec fn entry_line_chars(e: Entry) -> Seq<char> {
    date_chars(e.date) + seq![' '] + dur_chars(e.worked.secs as nat)
}

/// The fixed lead of a subtotal line.
pub open spec fn total_label() -> Seq<char> {
    seq!['T', 'o', 't', 'a', 'l', ' ', 'f', 'o', 'r', ' ']
}

/// The text of a subtotal line: `Total for <MonthName> <Year> <HH:MM:SS>`.
pub open spec fn total_line_chars(m: int, y: nat, total: nat) -> Seq<char> {
    total_label() + month_name_chars(m) + seq![' '] + crate::digits::nat_to_chars(y) + seq![' ']
        + dur_chars(total)
}

/// One unfolding step of the serializer at position `i`.
proof fn lemma_ser_unfold(s: Seq<Entry>, i: int, acc: nat)
    requires
        0 <= i < s.len(),
    ensures
        ({
            let suffix = s.subrange(i, s.len() as int);
            let rest = s.subrange(i + 1, s.len() as int);
            let e = s[i];
            let month_end = rest.len() == 0 || rest[0].date.month != e.date.month;
            let tot = (acc + e.worked.secs) as nat;
            ser_chars(suffix, acc) == entry_line_chars(e) + (if month_end {
                seq!['\n'] + total_line_chars(e.date.month as int, e.date.year as nat, tot)
                    + seq!['\n']
            } else {
                Seq::<char>::empty()
            }) + (if rest.len() > 0 {
                seq!['\n']
            } else {
                Seq::<char>::empty()
            }) + ser_chars(
                rest,
                if month_end {
                    0
                } else {
                    tot
                },
            )
        }),
{
    let suffix = s.subrange(i, s.len() as int);
    let rest = s.subrange(i + 1, s.len() as int);
    assert(suffix[0] == s[i]);
    assert(suffix.subrange(1, suffix.len() as int) =~= rest);
    if rest.len() > 0 {
        assert(rest[0] == s[i + 1]);
    }
}

/// The serialized report text: one line per entry, and after the last entry
/// of each month (a change of month number, or the end) a subtotal line for
/// the accumulated month total `acc` plus everything since, followed by a
/// blank line separating it from the next month's block.
pub open spec fn ser_chars(s: Seq<Entry>, acc: nat) -> Seq<char>
    decreases s.len(),
{
    if s.len() == 0 {
        Seq::empty()
    } else {
        let e = s[0];
        let rest = s.subrange(1, s.len() as int);
        let month_end = rest.len() == 0 || rest[0].date.month != e.date.month;
        let tot = (acc + e.worked.secs) as nat;
        entry_line_chars(e) + (if month_end {
            seq!['\n'] + total_line_chars(e.date.month as int, e.date.year as nat, tot)
                + seq!['\n']
        } else {
            Seq::empty()
        }) + (if rest.len() > 0 {
            seq!['\n']
        } else {
            Seq::empty()
        }) + ser_chars(
            rest,
            if month_end {
                0
            } else {
                tot
            },
        )
    }
}

/// The `(month, year, total)` of each subtotal line the serializer emits,
/// in order of emission.
pub open spec fn subtotal_triples(s: Seq<Entry>, acc: nat) -> Seq<(int, nat, nat)>
    decreases s.len(),
{
    if s.len() == 0 {
        Seq::empty()
    } else {
        let e = s[0];
        let rest = s.subrange(1, s.len() as int);
        let month_end = rest.len() == 0 || rest[0].date.month != e.date.month;
        let tot = (acc + e.worked.secs) as nat;
        if month_end {
            seq![(e.date.month as int, e.date.year as nat, tot)] + subtotal_triples(rest, 0)
        } else {
            subtotal_triples(rest, tot)
        }
    }
}

/// The entry a trimmed report line denotes: a date and a duration separated
/// by a single space, with no third field.
pub open spec fn line_entry(t: Seq<char>) -> Option<Entry> {
    let i = find_char(t, ' ');
    if i == t.len() {
        None
    } else {
        let datef = t.subrange(0, i);
        let durf = t.subrange(i + 1, t.len() as int);
        if find_char(durf, ' ') != durf.len() {
            None
        } else {
            match date_parse(datef) {
                Option::None => None,
                Option::Some(d) => match dur_parse(durf) {
                    Option::None => None,
                    Option::Some(v) => Some(
                        Entry { date: d, worked: Duration { secs: v as u64 } },
                    ),
                },
            }
        }
    }
}

/// How the parser treats one raw line of report text.
pub enum LineClass {
    /// Blank, or a regenerated `total`-prefixed annotation: ignored.
    Skipped,
    /// A well-formed `<date> <duration>` entry.
    Parsed(Entry),
    /// Anything else: the whole parse fails, naming this line.
    Malformed,
}

pub open spec fn classify_line(line: Seq<char>) -> LineClass {
    let t = trim_chars(line);
    if t.len() == 0 || is_total_line(t) {
        LineClass::Skipped
    } else {
        match line_entry(t) {
            Option::Some(e) => LineClass::Parsed(e),
            Option::None => LineClass::Malformed,
        }
    }
}

/// The report grammar, line by line from line number `lineno`: blank and
/// `total`-prefixed lines are skipped, entry lines must be strictly
/// ascending by date (`prev` is the last date seen) and their running total
/// `acc` must stay representable; the first offending line number is the
/// error.
pub open spec fn parse_lines(
    text: Seq<char>,
    lineno: nat,
    prev: Option<Date>,
    acc: nat,
) -> Result<Seq<Entry>, nat>
    decreases text.len(),
{
    if text.len() == 0 {
        Ok(Seq::empty())
    } else {
        let k0 = find_char(text, '\n');
        let k = if 0 <= k0 < text.len() {
            k0
        } else {
            text.len() as int
        };
        let line = text.subrange(0, k);
        let rest = if k == text.len() {
            Seq::empty()
        } else {
            text.subrange(k + 1, text.len() as int)
        };
        match classify_line(line) {
            LineClass::Skipped => parse_lines(rest, lineno + 1, prev, acc),
            LineClass::Malformed => Err(lineno),
            LineClass::Parsed(e) => {
                let ok_order = match prev {
                    Option::Some(p) => date_lt(p, e.date),
                    Option::None => true,
                };
                if !ok_order || acc + e.worked.secs > u64::MAX {
                    Err(lineno)
                } else {
                    match parse_lines(
                        rest,
                        lineno + 1,
                        Some(e.date),
                        (acc + e.worked.secs) as nat,
                    ) {
                        Ok(es) => Ok(seq![e] + es),
                        Err(l) => Err(l),
                    }
                }
            },
        }
    }
}

/// Whatever `parse_lines` accepts is ordered, valid, above `prev`, and its
/// total together with `acc` stays representable.
pub proof fn lemma_parse_lines_wf(text: Seq<char>, lineno: nat, prev: Option<Date>, acc: nat)
    requires
        acc <= u64::MAX,
    ensures
        match parse_lines(text, lineno, prev, acc) {
            Ok(es) => {
                &&& entries_ordered(es)
                &&& forall|i: int| 0 <= i < es.len() ==> date_valid(#[trigger] es[i].date)
                &&& acc + sum_secs(es) <= u64::MAX
                &&& match prev {
                    Option::Some(p) => forall|i: int|
                        0 <= i < es.len() ==> date_lt(p, #[trigger] es[i].date),
                    Option::None => true,
                }
            },
            Err(_) => true,
        },
    decreases text.len(),
{
    if text.len() == 0 {
    } else {
        let k0 = find_char(text, '\n');
        let k = if 0 <= k0 < text.len() {
            k0
        } else {
            text.len() as int
        };
        let line = text.subrange(0, k);
        let rest = if k == text.len() {
            Seq::<char>::empty()
        } else {
            text.subrange(k + 1, text.len() as int)
        };
        match classify_line(line) {
            LineClass::Skipped => {
                lemma_parse_lines_wf(rest, lineno + 1, prev, acc);
            },
            LineClass::Malformed => {},
            LineClass::Parsed(e) => {
                let ok_order = match prev {
                    Option::Some(p) => date_lt(p, e.date),
                    Option::None => true,
                };
                if !ok_order || acc + e.worked.secs > u64::MAX {
                } else {
                    lemma_parse_lines_wf(
                        rest,
                        lineno + 1,
                        Some(e.date),
                        (acc + e.worked.secs) as nat,
                    );
                    let t = trim_chars(line);
                    let isp = find_char(t, ' ');
                    crate::text::lemma_find_char_bounds(t, ' ');
                    crate::date::lemma_date_parse_valid(t.subrange(0, isp));
                    assert(date_valid(e.date));
                    match parse_lines(
                        rest,
                        lineno + 1,
                        Some(e.date),
                        (acc + e.worked.secs) as nat,
                    ) {
                        Ok(es) => {
                            lemma_sum_cons(e, es);
                            let all = seq![e] + es;
                            assert(all[0] == e);
                            assert forall|i: int, j: int| 0 <= i < j < all.len() implies date_lt(
                                #[trigger] all[i].date,
                                #[trigger] all[j].date,
                            ) by {
                                if i > 0 {
                                    assert(all[i] == es[i - 1] && all[j] == es[j - 1]);
                                } else {
                                    assert(all[j] == es[j - 1]);
                                    assert(date_lt(e.date, es[j - 1].date));
                                }
                            }
                            assert forall|i: int| 0 <= i < all.len() implies date_valid(
                                #[trigger] all[i].date,
                            ) by {
                                if i > 0 {
                                    assert(all[i] == es[i - 1]);
                                }
                            }
                            match prev {
                                Option::Some(p) => {
                                    assert forall|i: int| 0 <= i < all.len() implies date_lt(
                                        p,
                                        #[trigger] all[i].date,
                                    ) by {
                                        if i > 0 {
                                            assert(all[i] == es[i - 1]);
                                            assert(date_lt(e.date, es[i - 1].date));
                                        }
                                    }
                                },
                                Option::None => {},
                            }
                        },
                        Err(_) => {},
                    }
                }
            },
        }
    }
}

/// The report text rebuilt from the entries and a given sequence of
/// subtotal triples, one consumed at each month end.
pub open spec fn render_with_subtotals(s: Seq<Entry>, ts: Seq<(int, nat, nat)>) -> Seq<char>
    decreases s.len(),
{
    if s.len() == 0 {
        Seq::empty()
    } else {
        let e = s[0];
        let rest = s.subrange(1, s.len() as int);
        let month_end = rest.len() == 0 || rest[0].date.month != e.date.month;
        entry_line_chars(e) + (if month_end {
            seq!['\n'] + total_line_chars(ts[0].0, ts[0].1, ts[0].2) + seq!['\n']
        } else {
            Seq::empty()
        }) + (if rest.len() > 0 {
            seq!['\n']
        } else {
            Seq::empty()
        }) + render_with_subtotals(
            rest,
            if month_end {
                ts.subrange(1, ts.len() as int)
            } else {
                ts
            },
        )
    }
}

/// The serialized report is exactly the entry lines interleaved with the
/// subtotal triples of [`subtotal_triples`]: what those triples hold is
/// what the subtotal lines say.
pub proof fn lemma_ser_emits_subtotals(s: Seq<Entry>, acc: nat)
    ensures
        ser_chars(s, acc) == render_with_subtotals(s, subtotal_triples(s, acc)),
    decreases s.len(),
{
    if s.len() == 0 {
    } else {
        let e = s[0];
        let rest = s.subrange(1, s.len() as int);
        let month_end = rest.len() == 0 || rest[0].date.month != e.date.month;
        let tot = (acc + e.worked.secs) as nat;
        let ts = subtotal_triples(s, acc);
        if month_end {
            lemma_ser_emits_subtotals(rest, 0);
            assert(ts == seq![(e.date.month as int, e.date.year as nat, tot)]
                + subtotal_triples(rest, 0));
            assert(ts[0] == (e.date.month as int, e.date.year as nat, tot));
            assert(ts.subrange(1, ts.len() as int) =~= subtotal_triples(rest, 0));
        } else {
            lemma_ser_emits_subtotals(rest, tot);
        }
    }
}

/// Length of the leading run of entries sharing the first entry's month
/// number.
pub open spec fn first_run_len(s: Seq<Entry>) -> int
    decreases s.len(),
{
    if s.len() <= 1 {
        s.len() as int
    } else if s[1].date.month == s[0].date.month {
        1 + first_run_len(s.subrange(1, s.len() as int))
    } else {
        1
    }
}

/// The partition of the entries into maximal contiguous runs of equal month
/// number — the month blocks of the report.
pub open spec fn month_runs(s: Seq<Entry>) -> Seq<Seq<Entry>>
    decreases s.len(),
{
    if s.len() == 0 {
        Seq::empty()
    } else {
        let k0 = first_run_len(s);
        let k = if 1 <= k0 <= s.len() {
            k0
        } else {
            1int
        };
        seq![s.subrange(0, k)] + month_runs(s.subrange(k, s.len() as int))
    }
}

pub proof fn lemma_first_run(s: Seq<Entry>)
    requires
        s.len() > 0,
    ensures
        1 <= first_run_len(s) <= s.len(),
        forall|i: int|
            0 <= i < first_run_len(s) ==> (#[trigger] s[i].date.month) == s[0].date.month,
        first_run_len(s) < s.len() ==> s[first_run_len(s)].date.month != s[0].date.month,
    decreases s.len(),
{
    if s.len() == 1 {
    } else if s[1].date.month == s[0].date.month {
        let t = s.subrange(1, s.len() as int);
        lemma_first_run(t);
        assert forall|i: int| 0 <= i < first_run_len(s) implies (#[trigger] s[i].date.month)
            == s[0].date.month by {
            if i >= 1 {
                assert(s[i] == t[i - 1]);
                assert(t[i - 1].date.month == t[0].date.month);
            }
        }
        if first_run_len(s) < s.len() {
            assert(s[first_run_len(s)] == t[first_run_len(t)]);
        }
    } else {
    }
}

/// The subtotal triples of a nonempty sequence: one triple for the leading
/// month run (carrying `acc` plus the run's sum), then those of the rest.
proof fn lemma_triples_run(s: Seq<Entry>, acc: nat)
    requires
        s.len() > 0,
    ensures
        ({
            let k = first_run_len(s);
            let head = s.subrange(0, k);
            let tail = s.subrange(k, s.len() as int);
            subtotal_triples(s, acc) == seq![
                (
                    head.last().date.month as int,
                    head.last().date.year as nat,
                    (acc + sum_secs(head)) as nat,
                ),
            ] + subtotal_triples(tail, 0)
        }),
    decreases s.len(),
{
    lemma_first_run(s);
    let k = first_run_len(s);
    let head = s.subrange(0, k);
    let tail = s.subrange(k, s.len() as int);
    let e = s[0];
    let rest = s.subrange(1, s.len() as int);
    if k == 1 {
        assert(rest.len() == 0 || rest[0].date.month != e.date.month) by {
            if rest.len() > 0 {
                assert(rest[0] == s[1]);
            }
        }
        assert(head =~= seq![e]);
        assert(sum_secs(head) == e.worked.secs) by {
            lemma_sum_cons(e, Seq::<Entry>::empty());
            assert(head =~= seq![e] + Seq::<Entry>::empty());
        }
        assert(head.last() == e);
        assert(tail =~= rest);
        assert(subtotal_triples(s, acc) == seq![
            (e.date.month as int, e.date.year as nat, (acc + e.worked.secs) as nat),
        ] + subtotal_triples(rest, 0));
    } else {
        assert(rest[0] == s[1]);
        assert(s[1].date.month == s[0].date.month) by {
            if s[1].date.month != s[0].date.month {
                assert(first_run_len(s) == 1);
            }
        }
        assert(subtotal_triples(s, acc) == subtotal_triples(
            rest,
            (acc + e.worked.secs) as nat,
        ));
        lemma_triples_run(rest, (acc + e.worked.secs) as nat);
        assert(first_run_len(rest) == k - 1);
        let rhead = rest.subrange(0, k - 1);
        let rtail = rest.subrange(k - 1, rest.len() as int);
        assert(rhead =~= s.subrange(1, k));
        assert(rtail =~= tail);
        assert(head =~= seq![e] + rhead);
        lemma_sum_cons(e, rhead);
        assert(head.last() == rhead.last());
        assert((acc + e.worked.secs) + sum_secs(rhead) == acc + sum_secs(head));
    }
}

/// Monthly subtotals: the serializer emits exactly one subtotal per month
/// block (immediately after that block's last entry, by construction of
/// [`ser_chars`]), and each subtotal carries that block's last entry's
/// month and year together with the sum of exactly that block's durations.
/// The blocks partition the entries in order, are nonempty and uniform in
/// month, and adjacent blocks have different months.
pub proof fn lemma_monthly_subtotals(s: Seq<Entry>)
    ensures
        month_runs(s).flatten() == s,
        forall|r: int| 0 <= r < month_runs(s).len() ==> (#[trigger] month_runs(s)[r]).len() > 0,
        forall|r: int, i: int|
            0 <= r < month_runs(s).len() && 0 <= i < month_runs(s)[r].len() ==> (
            #[trigger] month_runs(s)[r][i]).date.month == month_runs(s)[r][0].date.month,
        forall|r: int|
            0 <= r < month_runs(s).len() - 1 ==> (#[trigger] month_runs(s)[r + 1][0]).date.month
                != month_runs(s)[r].last().date.month,
        subtotal_triples(s, 0).len() == month_runs(s).len(),
        forall|r: int|
            0 <= r < month_runs(s).len() ==> #[trigger] subtotal_triples(s, 0)[r] == (
            month_runs(s)[r].last().date.month as int,
            month_runs(s)[r].last().date.year as nat,
            sum_secs(month_runs(s)[r]),
            ),
    decreases s.len(),
{
    if s.len() == 0 {
        assert(month_runs(s).flatten() =~= s);
    } else {
        lemma_first_run(s);
        let k = first_run_len(s);
        let head = s.subrange(0, k);
        let tail = s.subrange(k, s.len() as int);
        let runs = month_runs(s);
        lemma_monthly_subtotals(tail);
        lemma_triples_run(s, 0);
        assert(runs == seq![head] + month_runs(tail));
        assert(runs[0] == head);
        assert(runs.drop_first() =~= month_runs(tail));
        // The partition property.
        assert(runs.flatten() == head + month_runs(tail).flatten());
        assert(head + tail =~= s);
        // Nonempty, month-uniform blocks.
        assert forall|r: int| 0 <= r < runs.len() implies (#[trigger] runs[r]).len() > 0 by {
            if r > 0 {
                assert(runs[r] == month_runs(tail)[r - 1]);
            }
        }
        assert forall|r: int, i: int|
            0 <= r < runs.len() && 0 <= i < runs[r].len() implies (
        #[trigger] runs[r][i]).date.month == runs[r][0].date.month by {
            if r == 0 {
                assert(head[i] == s[i]);
                assert(head[0] == s[0]);
            } else {
                assert(runs[r] == month_runs(tail)[r - 1]);
            }
        }
        // Adjacent blocks differ in month.
        assert forall|r: int| 0 <= r < runs.len() - 1 implies (
        #[trigger] runs[r + 1][0]).date.month != runs[r].last().date.month by {
            if r == 0 {
                if k < s.len() {
                    assert(runs[1] == month_runs(tail)[0]);
                    assert(month_runs(tail)[0] == tail.subrange(
                        0,
                        if 1 <= first_run_len(tail) <= tail.len() {
                            first_run_len(tail)
                        } else {
                            1int
                        },
                    ));
                    assert(month_runs(tail)[0][0] == tail[0]);
                    assert(tail[0] == s[k]);
                    assert(head.last() == s[k - 1]);
                    assert(s[k - 1].date.month == s[0].date.month);
                }
            } else {
                assert(runs[r + 1] == month_runs(tail)[r]);
                assert(runs[r] == month_runs(tail)[r - 1]);
            }
        }
        // The triples line up with the blocks.
        let trips = subtotal_triples(s, 0);
        assert(trips == seq![
            (
                head.last().date.month as int,
                head.last().date.year as nat,
                (0 + sum_secs(head)) as nat,
            ),
        ] + subtotal_triples(tail, 0));
        assert forall|r: int| 0 <= r < runs.len() implies #[trigger] trips[r] == (
        runs[r].last().date.month as int,
        runs[r].last().date.year as nat,
        sum_secs(runs[r]),
        ) by {
            if r == 0 {
                assert(trips[0] == (
                    head.last().date.month as int,
                    head.last().date.year as nat,
                    sum_secs(head),
                ));
            } else {
                assert(trips[r] == subtotal_triples(tail, 0)[r - 1]);
                assert(runs[r] == month_runs(tail)[r - 1]);
            }
        }
    }
}

/// Three all-digit fields joined by a separator contain no character that
/// is neither a digit nor the separator.
proof fn lemma_sep3_no_char(f1: Seq<char>, f2: Seq<char>, f3: Seq<char>, sep: char, c: char)
    requires
        all_digits(f1),
        all_digits(f2),
        all_digits(f3),
        sep != c,
        !(48 <= c as int <= 57),
    ensures
        seq_no_char(f1 + seq![sep] + f2 + seq![sep] + f3, c),
{
    let s = f1 + seq![sep] + f2 + seq![sep] + f3;
    assert forall|i: int| 0 <= i < s.len() implies #[trigger] s[i] != c by {
        if i < f1.len() {
            assert(s[i] == f1[i]);
            assert(is_digit(f1[i]));
        } else if i == f1.len() {
            assert(s[i] == sep);
        } else if i < f1.len() + 1 + f2.len() {
            assert(s[i] == f2[i - f1.len() - 1]);
            assert(is_digit(f2[i - f1.len() - 1]));
        } else if i == f1.len() + 1 + f2.len() {
            assert(s[i] == sep);
        } else {
            assert(s[i] == f3[i - f1.len() - f2.len() - 2]);
            assert(is_digit(f3[i - f1.len() - f2.len() - 2]));
        }
    }
}

/// The rendered line of a valid entry is a single clean line that parses
/// back to the entry: no newline, nothing to trim, not `total`-prefixed.
proof fn lemma_entry_line(e: Entry)
    requires
        date_valid(e.date),
    ensures
        entry_line_chars(e).len() > 0,
        seq_no_char(entry_line_chars(e), '\n'),
        trim_chars(entry_line_chars(e)) == entry_line_chars(e),
        classify_line(entry_line_chars(e)) == LineClass::Parsed(e),
{
    let day = e.date.day as nat;
    let month = e.date.month as nat;
    let year = e.date.year as nat;
    let w = e.worked.secs as nat;
    let df1 = crate::util::pad_chars(day);
    let df2 = crate::util::pad_chars(month);
    let df3 = crate::digits::nat_to_chars(year);
    let uf1 = crate::util::pad_chars(w / 3600);
    let uf2 = crate::util::pad_chars((w / 60) % 60);
    let uf3 = crate::util::pad_chars(w % 60);
    crate::util::lemma_pad_chars(day);
    crate::util::lemma_pad_chars(month);
    crate::digits::lemma_nat_to_chars_digits(year);
    crate::util::lemma_pad_chars(w / 3600);
    crate::util::lemma_pad_chars((w / 60) % 60);
    crate::util::lemma_pad_chars(w % 60);
    let dc = date_chars(e.date);
    let du = dur_chars(w);
    let el = entry_line_chars(e);
    lemma_sep3_no_char(df1, df2, df3, '.', '\n');
    lemma_sep3_no_char(df1, df2, df3, '.', ' ');
    lemma_sep3_no_char(uf1, uf2, uf3, ':', '\n');
    lemma_sep3_no_char(uf1, uf2, uf3, ':', ' ');
    assert(dc =~= df1 + seq!['.'] + df2 + seq!['.'] + df3);
    assert(du =~= uf1 + seq![':'] + uf2 + seq![':'] + uf3);
    // No newline anywhere in the line.
    assert forall|i: int| 0 <= i < el.len() implies #[trigger] el[i] != '\n' by {
        if i < dc.len() {
            assert(el[i] == dc[i]);
        } else if i == dc.len() {
            assert(el[i] == ' ');
        } else {
            assert(el[i] == du[i - dc.len() - 1]);
        }
    }
    // Ends are digits, so trimming is the identity and the line is not a
    // `total` annotation.
    assert(el[0] == dc[0]);
    assert(dc[0] == df1[0]);
    assert(is_digit(df1[0]));
    assert(el.last() == du[du.len() - 1]);
    assert(du[du.len() - 1] == uf3[uf3.len() - 1]);
    assert(is_digit(uf3[uf3.len() - 1]));
    assert(!crate::text::is_space(el[0]));
    assert(!crate::text::is_space(el.last()));
    crate::text::lemma_trim_id(el);
    assert(!crate::text::matches_ci(el[0], 't'));
    assert(!is_total_line(el));
    // The line splits at its single space into the date and the duration.
    crate::text::lemma_find_char_concat(dc, du, ' ');
    assert(el =~= dc + seq![' '] + du);
    let isp = find_char(el, ' ');
    assert(isp == dc.len());
    assert(el.subrange(0, isp) =~= dc);
    assert(el.subrange(isp + 1, el.len() as int) =~= du);
    crate::text::lemma_find_char_absent(du, ' ');
    crate::date::lemma_date_round_trip(e.date);
    crate::util::lemma_duration_round_trip(e.worked);
    assert(line_entry(el) == Some(e));
}

/// The rendered subtotal line is a single clean line the parser skips.
proof fn lemma_total_line(m: int, y: nat, total: nat)
    requires
        1 <= m <= 12,
    ensures
        total_line_chars(m, y, total).len() > 0,
        seq_no_char(total_line_chars(m, y, total), '\n'),
        trim_chars(total_line_chars(m, y, total)) == total_line_chars(m, y, total),
        classify_line(total_line_chars(m, y, total)) == LineClass::Skipped,
{
    let label = total_label();
    let mn = month_name_chars(m);
    let ych = crate::digits::nat_to_chars(y);
    let tf1 = crate::util::pad_chars(total / 3600);
    let tf2 = crate::util::pad_chars((total / 60) % 60);
    let tf3 = crate::util::pad_chars(total % 60);
    let dch = dur_chars(total);
    crate::date::lemma_month_name_clean(m);
    crate::digits::lemma_nat_to_chars_digits(y);
    crate::util::lemma_pad_chars(total / 3600);
    crate::util::lemma_pad_chars((total / 60) % 60);
    crate::util::lemma_pad_chars(total % 60);
    lemma_sep3_no_char(tf1, tf2, tf3, ':', '\n');
    assert(dch =~= tf1 + seq![':'] + tf2 + seq![':'] + tf3);
    let tl = total_line_chars(m, y, total);
    assert forall|i: int| 0 <= i < tl.len() implies #[trigger] tl[i] != '\n' by {
        let a = label.len() as int;
        let b = a + mn.len();
        let c = b + 1;
        let d = c + ych.len();
        let f = d + 1;
        if i < a {
            assert(tl[i] == label[i]);
        } else if i < b {
            assert(tl[i] == mn[i - a]);
        } else if i == b {
            assert(tl[i] == ' ');
        } else if i < d {
            assert(tl[i] == ych[i - c]);
            assert(is_digit(ych[i - c]));
        } else if i == d {
            assert(tl[i] == ' ');
        } else {
            assert(tl[i] == dch[i - f]);
        }
    }
    assert(tl[0] == label[0]);
    assert(tl.last() == dch[dch.len() - 1]);
    assert(dch[dch.len() - 1] == tf3[tf3.len() - 1]);
    assert(is_digit(tf3[tf3.len() - 1]));
    assert(!crate::text::is_space(tl[0]));
    assert(!crate::text::is_space(tl.last()));
    crate::text::lemma_trim_id(tl);
    assert(tl[1] == label[1]);
    assert(tl[2] == label[2]);
    assert(tl[3] == label[3]);
    assert(tl[4] == label[4]);
    assert(is_total_line(tl));
}

/// Splitting `a + '\n' + b` at its first newline yields line `a`, rest `b`.
proof fn lemma_first_line(a: Seq<char>, b: Seq<char>)
    requires
        seq_no_char(a, '\n'),
    ensures
        find_char(a + seq!['\n'] + b, '\n') == a.len(),
        (a + seq!['\n'] + b).subrange(0, a.len() as int) == a,
        (a + seq!['\n'] + b).subrange(a.len() as int + 1, (a + seq!['\n'] + b).len() as int) == b,
{
    crate::text::lemma_find_char_concat(a, b, '\n');
    let text = a + seq!['\n'] + b;
    assert(text.subrange(0, a.len() as int) =~= a);
    assert(text.subrange(a.len() as int + 1, text.len() as int) =~= b);
}

/// The inductive heart of the round trip: serialized well-formed entries,
/// starting at any line number and with any pending month accumulator,
/// parse back to exactly those entries.
#[verifier::rlimit(100)]
proof fn lemma_round_trip_rec(
    s: Seq<Entry>,
    ser_acc: nat,
    lineno: nat,
    prev: Option<Date>,
    parse_acc: nat,
)
    requires
        entries_ordered(s),
        forall|i: int| 0 <= i < s.len() ==> date_valid(#[trigger] s[i].date),
        match prev {
            Option::Some(p) => s.len() > 0 ==> date_lt(p, s[0].date),
            Option::None => true,
        },
        parse_acc + sum_secs(s) <= u64::MAX,
    ensures
        parse_lines(ser_chars(s, ser_acc), lineno, prev, parse_acc) == Ok::<Seq<Entry>, nat>(s),
    decreases s.len(),
{
    if s.len() == 0 {
        assert(s =~= Seq::<Entry>::empty());
    } else {
        let e = s[0];
        let rest = s.subrange(1, s.len() as int);
        let month_end = rest.len() == 0 || rest[0].date.month != e.date.month;
        let tot = (ser_acc + e.worked.secs) as nat;
        let el = entry_line_chars(e);
        lemma_entry_line(e);
        assert(s.subrange(0, s.len() as int) =~= s);
        lemma_ser_unfold(s, 0, ser_acc);
        assert(s =~= seq![e] + rest);
        lemma_sum_cons(e, rest);
        assert forall|i: int, j: int| 0 <= i < j < rest.len() implies date_lt(
            #[trigger] rest[i].date,
            #[trigger] rest[j].date,
        ) by {
            assert(rest[i] == s[i + 1] && rest[j] == s[j + 1]);
        }
        assert forall|i: int| 0 <= i < rest.len() implies date_valid(#[trigger] rest[i].date) by {
            assert(rest[i] == s[i + 1]);
        }
        if rest.len() > 0 {
            assert(rest[0] == s[1]);
            assert(date_lt(e.date, rest[0].date));
        }
        let acc2 = (parse_acc + e.worked.secs) as nat;
        if !month_end {
            // text = el + '\n' + ser(rest, tot)
            let tail = ser_chars(rest, tot);
            assert(ser_chars(s, ser_acc) =~= el + seq!['\n'] + tail);
            lemma_first_line(el, tail);
            lemma_round_trip_rec(rest, tot, lineno + 1, Some(e.date), acc2);
            assert(parse_lines(el + seq!['\n'] + tail, lineno, prev, parse_acc)
                == Ok::<Seq<Entry>, nat>(seq![e] + rest));
        } else {
            let tl = total_line_chars(e.date.month as int, e.date.year as nat, tot);
            lemma_total_line(e.date.month as int, e.date.year as nat, tot);
            if rest.len() == 0 {
                // text = el + '\n' + (tl + '\n')
                let tail = tl + seq!['\n'];
                assert(ser_chars(s, ser_acc) =~= el + seq!['\n'] + tail);
                lemma_first_line(el, tail);
                // second line: tl, then nothing
                assert(tail =~= tl + seq!['\n'] + Seq::<char>::empty());
                lemma_first_line(tl, Seq::<char>::empty());
                assert(parse_lines(Seq::<char>::empty(), lineno + 2, Some(e.date), acc2)
                    == Ok::<Seq<Entry>, nat>(Seq::<Entry>::empty()));
                assert(parse_lines(tail, lineno + 1, Some(e.date), acc2) == Ok::<
                    Seq<Entry>,
                    nat,
                >(Seq::<Entry>::empty()));
                assert(seq![e] + Seq::<Entry>::empty() =~= s);
            } else {
                // text = el + '\n' + (tl + '\n' + ('\n' + ser(rest, 0)))
                let tail2 = ser_chars(rest, 0);
                let blankline = seq!['\n'] + tail2;
                let tail = tl + seq!['\n'] + blankline;
                assert(ser_chars(s, ser_acc) =~= el + seq!['\n'] + tail);
                lemma_first_line(el, tail);
                lemma_first_line(tl, blankline);
                // blank line, then the rest of the report
                assert(blankline =~= Seq::<char>::empty() + seq!['\n'] + tail2);
                lemma_first_line(Seq::<char>::empty(), tail2);
                assert(trim_chars(Seq::<char>::empty()).len() == 0);
                lemma_round_trip_rec(rest, 0, lineno + 3, Some(e.date), acc2);
                assert(parse_lines(blankline, lineno + 2, Some(e.date), acc2) == Ok::<
                    Seq<Entry>,
                    nat,
                >(rest));
                assert(parse_lines(tail, lineno + 1, Some(e.date), acc2) == Ok::<
                    Seq<Entry>,
                    nat,
                >(rest));
            }
        }
    }
}

/// Report round trip: a well-formed timesheet's serialized report parses
/// back to exactly the same entries.
pub proof fn lemma_report_round_trip(entries: Seq<Entry>)
    requires
        entries_wf(entries),
    ensures
        parse_lines(ser_chars(entries, 0), 1, None::<Date>, 0) == Ok::<Seq<Entry>, nat>(entries),
{
    lemma_round_trip_rec(entries, 0, 1, None::<Date>, 0);
}

/// An ordered collection of per-day worked durations, one entry per
/// calendar date.
#[derive(Debug)]
pub struct Timesheet {
    entries: Vec<Entry>,
}

impl View for Timesheet {
    type V = Seq<Entry>;

    closed spec fn view(&self) -> Seq<Entry> {
        self.entries@
    }
}

impl Timesheet {
    pub open spec fn wf(&self) -> bool {
        entries_wf(self@)
    }

    /// A timesheet holding exactly the given entries.
    pub fn from_entries(entries: Vec<Entry>) -> (r: Timesheet)
        ensures
            r@ == entries@,
    {
        Timesheet { entries }
    }

    pub fn entries(&self) -> (r: &Vec<Entry>)
        ensures
            r@ == self@,
    {
        &self.entries
    }

    /// Ordered search: the index of `date`, or the index where it would be
    /// inserted to keep entries ascending.
    pub fn binary_search(&self, date: &Date) -> (r: Result<usize, usize>)
        requires
            entries_ordered(self@),
        ensures
            match r {
                Ok(i) => 0 <= i < self@.len() && self@[i as int].date == *date,
                Err(i) => 0 <= i <= self@.len() && (forall|j: int|
                    0 <= j < i ==> date_lt(#[trigger] self@[j].date, *date)) && (forall|j: int|
                    i <= j < self@.len() ==> date_lt(*date, #[trigger] self@[j].date)),
            },
    {
        let mut lo: usize = 0;
        let mut hi: usize = self.entries.len();
        while lo < hi
            invariant
                0 <= lo <= hi <= self@.len(),
                entries_ordered(self@),
                forall|j: int| 0 <= j < lo ==> date_lt(#[trigger] self@[j].date, *date),
                forall|j: int| hi <= j < self@.len() ==> date_lt(*date, #[trigger] self@[j].date),
            decreases hi - lo,
        {
            let mid = lo + (hi - lo) / 2;
            let e = self.entries[mid];
            if e.date == *date {
                return Ok(mid);
            } else if e.date.before(date) {
                proof {
                    assert forall|j: int| 0 <= j < mid + 1 implies date_lt(
                        #[trigger] self@[j].date,
                        *date,
                    ) by {
                        if j < mid {
                            assert(date_lt(self@[j].date, self@[mid as int].date));
                        }
                    }
                }
                lo = mid + 1;
            } else {
                proof {
                    assert(date_lt(*date, self@[mid as int].date));
                    assert forall|j: int| mid <= j < self@.len() implies date_lt(
                        *date,
                        #[trigger] self@[j].date,
                    ) by {
                        if j > mid {
                            assert(date_lt(self@[mid as int].date, self@[j].date));
                        }
                    }
                }
                hi = mid;
            }
        }
        Err(lo)
    }

    /// Adds `duration` to the entry for `date`, inserting a fresh entry at
    /// the order-preserving position when the date is new. Merging changes
    /// exactly one entry; inserting adds exactly one.
    pub fn add_hours(&mut self, date: &Date, duration: &Duration)
        requires
            old(self).wf(),
            date_valid(*date),
            sum_secs(old(self)@) + duration.secs <= u64::MAX,
        ensures
            final(self).wf(),
            has_date(old(self)@, *date) ==> exists|i: int|
                0 <= i < old(self)@.len() && old(self)@[i].date == *date && final(self)@ == old(
                    self,
                )@.update(
                    i,
                    (Entry {
                        date: *date,
                        worked: (Duration {
                            secs: (old(self)@[i].worked.secs + duration.secs) as u64,
                        }),
                    }),
                ),
            !has_date(old(self)@, *date) ==> exists|i: int|
                0 <= i <= old(self)@.len() && final(self)@ == old(self)@.insert(
                    i,
                    (Entry { date: *date, worked: *duration }),
                ) && (forall|j: int|
                    0 <= j < i ==> date_lt(#[trigger] old(self)@[j].date, *date)) && (forall|
                    j: int,
                |
                    i <= j < old(self)@.len() ==> date_lt(*date, #[trigger] old(self)@[j].date)),
            sum_secs(final(self)@) == sum_secs(old(self)@) + duration.secs,
    {
        let ghost s0 = self@;
        match self.binary_search(date) {
            Ok(i) => {
                proof {
                    lemma_sum_element(s0, i as int);
                }
                let cur = self.entries[i];
                let e = Entry {
                    date: cur.date,
                    worked: Duration { secs: cur.worked.secs + duration.secs },
                };
                self.entries[i] = e;
                proof {
                    lemma_sum_update(s0, i as int, e);
                    assert(self@ == s0.update(i as int, e));
                    assert(has_date(s0, *date));
                    assert forall|a: int, b: int| 0 <= a < b < self@.len() implies date_lt(
                        #[trigger] self@[a].date,
                        #[trigger] self@[b].date,
                    ) by {
                        assert(self@[a].date == s0[a].date);
                        assert(self@[b].date == s0[b].date);
                    }
                    assert forall|a: int| 0 <= a < self@.len() implies date_valid(
                        #[trigger] self@[a].date,
                    ) by {
                        assert(self@[a].date == s0[a].date);
                    }
                }
            },
            Err(i) => {
                let e = Entry { date: *date, worked: *duration };
                self.entries.insert(i, e);
                proof {
                    lemma_sum_insert(s0, i as int, e);
                    assert(self@ == s0.insert(i as int, e));
                    if has_date(s0, *date) {
                        let w = choose|k: int| 0 <= k < s0.len() && s0[k].date == *date;
                        assert(date_lt(s0[w].date, *date) || date_lt(*date, s0[w].date));
                    }
                    assert forall|a: int, b: int| 0 <= a < b < self@.len() implies date_lt(
                        #[trigger] self@[a].date,
                        #[trigger] self@[b].date,
                    ) by {
                        if b < i {
                            assert(self@[a] == s0[a] && self@[b] == s0[b]);
                        } else if a > i {
                            assert(self@[a] == s0[a - 1] && self@[b] == s0[b - 1]);
                        } else if a < i && b == i {
                            assert(self@[a] == s0[a]);
                        } else if a == i && b > i {
                            assert(self@[b] == s0[b - 1]);
                        } else if a < i && b > i {
                            assert(self@[a] == s0[a] && self@[b] == s0[b - 1]);
                        }
                    }
                    assert forall|a: int| 0 <= a < self@.len() implies date_valid(
                        #[trigger] self@[a].date,
                    ) by {
                        if a < i {
                            assert(self@[a] == s0[a]);
                        } else if a > i {
                            assert(self@[a] == s0[a - 1]);
                        }
                    }
                }
            },
        }
    }

    /// The worked duration recorded for `date`, or zero when absent.
    pub fn get_hours(&self, date: &Date) -> (r: Duration)
        requires
            entries_ordered(self@),
        ensures
            has_date(self@, *date) ==> exists|i: int|
                0 <= i < self@.len() && self@[i].date == *date && r == self@[i].worked,
            !has_date(self@, *date) ==> r.secs == 0,
    {
        match self.binary_search(date) {
            Ok(i) => self.entries[i].worked,
            Err(i) => {
                proof {
                    if has_date(self@, *date) {
                        let w = choose|k: int| 0 <= k < self@.len() && self@[k].date == *date;
                        assert(date_lt(self@[w].date, *date) || date_lt(*date, self@[w].date));
                    }
                }
                Duration { secs: 0 }
            },
        }
    }

    /// Seconds worked in the trailing run of entries whose month number is
    /// `month` — with entries in date order, the current month's block when
    /// `month` is the latest entry's month.
    pub fn hours_worked_in_month(&self, month: u32) -> (r: Duration)
        requires
            sum_secs(self@) <= u64::MAX,
        ensures
            r.secs == suffix_month_sum(self@, month as int),
    {
        let ghost s = self@;
        let mut i: usize = self.entries.len();
        let mut total: u64 = 0;
        proof {
            assert(s.subrange(0, s.len() as int) =~= s);
            lemma_suffix_month_sum_le(s, month as int);
        }
        while i > 0 && self.entries[i - 1].date.month == month
            invariant
                0 <= i <= s.len(),
                s == self@,
                sum_secs(s) <= u64::MAX,
                total + suffix_month_sum(s.subrange(0, i as int), month as int)
                    == suffix_month_sum(s, month as int),
                suffix_month_sum(s, month as int) <= sum_secs(s),
            decreases i,
        {
            let ghost pre = s.subrange(0, i as int);
            proof {
                assert(pre.last() == s[i - 1]);
                assert(pre.drop_last() =~= s.subrange(0, i - 1));
            }
            total = total + self.entries[i - 1].worked.secs;
            i = i - 1;
        }
        proof {
            let pre = s.subrange(0, i as int);
            if i > 0 {
                assert(pre.last() == s[i - 1]);
            }
            assert(suffix_month_sum(pre, month as int) == 0);
        }
        Duration { secs: total }
    }

    /// Parses report text line by line: blank lines and `total`-prefixed
    /// annotation lines are skipped; every other line must be
    /// `<date> <duration>`. Entry dates must be strictly ascending (out of
    /// order or duplicated dates are rejected, since serialization and
    /// ordered search assume ascending order), and the running total must
    /// stay representable in seconds as a `u64`. The error names the first
    /// offending line, counted from 1.
    #[verifier::rlimit(100)]
    pub fn parse_report(report: &Report) -> (r: Result<Timesheet, HoursError>)
        ensures
            ({
                let p = parse_lines(report.0@, 1, None::<Date>, 0);
                match r {
                    Ok(ts) => p == Ok::<Seq<Entry>, nat>(ts@) && ts.wf(),
                    Err(e) => p is Err && e == (HoursError::ParseError {
                        line: p->Err_0 as usize,
                    }),
                }
            }),
    {
        let s = report.0.as_str();
        let n = s.unicode_len();
        let ghost text = s@;
        let mut entries: Vec<Entry> = Vec::new();
        let mut prev: Option<Date> = None;
        let mut acc: u64 = 0;
        let mut pos: usize = 0;
        let mut lineno: u128 = 1;
        proof {
            assert(text.subrange(0, n as int) =~= text);
            assert(entries@ + Seq::<Entry>::empty() =~= entries@);
        }
        while pos < n
            invariant
                n == text.len(),
                text == report.0@,
                text == s@,
                pos <= n,
                1 <= lineno <= pos + 1,
                entries_ordered(entries@),
                forall|i: int| 0 <= i < entries@.len() ==> date_valid(#[trigger] entries@[i].date),
                acc == sum_secs(entries@),
                prev == (if entries@.len() == 0 {
                    None::<Date>
                } else {
                    Some(entries@.last().date)
                }),
                ({
                    let inner = parse_lines(
                        text.subrange(pos as int, n as int),
                        lineno as nat,
                        prev,
                        acc as nat,
                    );
                    let outer = parse_lines(text, 1, None::<Date>, 0);
                    match inner {
                        Ok(es) => outer == Ok::<Seq<Entry>, nat>(entries@ + es),
                        Err(l) => outer == Err::<Seq<Entry>, nat>(l),
                    }
                }),
            decreases n - pos,
        {
            let ghost sub = text.subrange(pos as int, n as int);
            let ghost entries0 = entries@;
            let ghost acc0 = acc as nat;
            let ghost lineno0 = lineno as nat;
            let ghost prev0 = prev;
            let k = crate::text::find_char_from(s, n, pos, '\n');
            let ghost kk: int = if k - pos < sub.len() {
                k - pos
            } else {
                sub.len() as int
            };
            let ghost line = sub.subrange(0, kk);
            let ghost rest = if kk == sub.len() {
                Seq::<char>::empty()
            } else {
                sub.subrange(kk + 1, sub.len() as int)
            };
            let next_pos = if k < n {
                k + 1
            } else {
                n
            };
            proof {
                assert(line =~= text.subrange(pos as int, k as int));
                assert(rest =~= text.subrange(next_pos as int, n as int));
            }
            let (t0, t1) = crate::text::trim_range(s, n, pos, k);
            let ghost t = trim_chars(line);
            proof {
                assert(t == text.subrange(t0 as int, t1 as int));
            }
            let skip = t1 == t0 || crate::text::total_prefixed(s, n, t0, t1);
            if skip {
                proof {
                    assert(classify_line(line) is Skipped);
                    assert(parse_lines(sub, lineno0, prev0, acc0) == parse_lines(
                        rest,
                        lineno0 + 1,
                        prev0,
                        acc0,
                    ));
                }
                pos = next_pos;
                lineno = lineno + 1;
                continue;
            }
            // An entry line: exactly one space, a date, a duration.
            let sp = crate::text::find_char_from(s, n, t0, ' ');
            let ghost isp = find_char(t, ' ');
            proof {
                if sp < t1 {
                    assert(t[sp - t0] == text[sp as int]);
                    assert forall|j: int| 0 <= j < sp - t0 implies #[trigger] t[j] != ' ' by {
                        assert(t[j] == text[t0 + j]);
                    }
                    crate::text::lemma_find_char_at(t, ' ', sp - t0);
                } else {
                    assert forall|j: int| 0 <= j < t.len() implies #[trigger] t[j] != ' ' by {
                        assert(t[j] == text[t0 + j]);
                    }
                    crate::text::lemma_find_char_at(t, ' ', t.len() as int);
                }
            }
            if sp >= t1 {
                proof {
                    assert(line_entry(t) is None);
                    assert(classify_line(line) is Malformed);
                    assert(parse_lines(sub, lineno0, prev0, acc0) == Err::<Seq<Entry>, nat>(
                        lineno0,
                    ));
                }
                return Err(HoursError::ParseError { line: lineno as usize });
            }
            let ghost datef = t.subrange(0, isp);
            let ghost durf = t.subrange(isp + 1, t.len() as int);
            proof {
                assert(datef =~= text.subrange(t0 as int, sp as int));
                assert(durf =~= text.subrange(sp + 1, t1 as int));
            }
            let sp2 = crate::text::find_char_from(s, n, sp + 1, ' ');
            proof {
                if sp2 < t1 {
                    assert(durf[sp2 - sp - 1] == text[sp2 as int]);
                    assert forall|j: int| 0 <= j < sp2 - sp - 1 implies #[trigger] durf[j]
                        != ' ' by {
                        assert(durf[j] == text[sp + 1 + j]);
                    }
                    crate::text::lemma_find_char_at(durf, ' ', sp2 - sp - 1);
                } else {
                    assert forall|j: int| 0 <= j < durf.len() implies #[trigger] durf[j]
                        != ' ' by {
                        assert(durf[j] == text[sp + 1 + j]);
                    }
                    crate::text::lemma_find_char_at(durf, ' ', durf.len() as int);
                }
            }
            if sp2 < t1 {
                proof {
                    assert(line_entry(t) is None);
                    assert(classify_line(line) is Malformed);
                }
                return Err(HoursError::ParseError { line: lineno as usize });
            }
            let d = match crate::date::parse_date_range(s, n, t0, sp) {
                Ok(d) => d,
                Err(_) => {
                    proof {
                        assert(date_parse(datef) is None);
                        assert(line_entry(t) is None);
                        assert(classify_line(line) is Malformed);
                    }
                    return Err(HoursError::ParseError { line: lineno as usize });
                },
            };
            let dur = match crate::util::parse_duration_range(s, n, sp + 1, t1) {
                Ok(w) => w,
                Err(_) => {
                    proof {
                        assert(dur_parse(durf) is None);
                        assert(line_entry(t) is None);
                        assert(classify_line(line) is Malformed);
                    }
                    return Err(HoursError::ParseError { line: lineno as usize });
                },
            };
            let e = Entry { date: d, worked: dur };
            proof {
                assert(line_entry(t) == Some(e));
                assert(classify_line(line) == LineClass::Parsed(e));
                crate::date::lemma_date_parse_valid(datef);
            }
            let order_ok = match &prev {
                Some(p) => p.before(&d),
                None => true,
            };
            if !order_ok {
                proof {
                    assert(parse_lines(sub, lineno0, prev0, acc0) == Err::<Seq<Entry>, nat>(
                        lineno0,
                    ));
                }
                return Err(HoursError::ParseError { line: lineno as usize });
            }
            let acc2 = match acc.checked_add(dur.secs) {
                Some(a) => a,
                None => {
                    proof {
                        assert(acc0 + e.worked.secs > u64::MAX);
                        assert(parse_lines(sub, lineno0, prev0, acc0) == Err::<Seq<Entry>, nat>(
                            lineno0,
                        ));
                    }
                    return Err(HoursError::ParseError { line: lineno as usize });
                },
            };
            entries.push(e);
            prev = Some(d);
            acc = acc2;
            proof {
                assert(entries@ =~= entries0 + seq![e]);
                lemma_sum_cons(e, Seq::<Entry>::empty());
                assert(sum_secs(entries@) == sum_secs(entries0.push(e)));
                assert(entries0.push(e).drop_last() =~= entries0);
                assert(entries@.last() == e);
                assert forall|a: int, b: int| 0 <= a < b < entries@.len() implies date_lt(
                    #[trigger] entries@[a].date,
                    #[trigger] entries@[b].date,
                ) by {
                    if b < entries@.len() - 1 {
                        assert(entries@[a] == entries0[a] && entries@[b] == entries0[b]);
                    } else {
                        assert(entries@[b] == e);
                        if a < entries0.len() - 1 {
                            assert(entries@[a] == entries0[a]);
                            assert(date_lt(entries0[a].date, entries0.last().date));
                        } else {
                            assert(entries@[a] == entries0.last());
                        }
                    }
                }
                // Continuation invariant.
                let inner0 = parse_lines(sub, lineno0, prev0, acc0);
                let inner1 = parse_lines(
                    rest,
                    lineno0 + 1,
                    Some(e.date),
                    (acc0 + e.worked.secs) as nat,
                );
                match inner1 {
                    Ok(es) => {
                        assert(inner0 == Ok::<Seq<Entry>, nat>(seq![e] + es));
                        assert(entries0 + (seq![e] + es) =~= entries@ + es);
                    },
                    Err(_) => {},
                }
            }
            pos = next_pos;
            lineno = lineno + 1;
        }
        proof {
            assert(text.subrange(n as int, n as int) =~= Seq::<char>::empty());
            assert(entries@ + Seq::<Entry>::empty() =~= entries@);
        }
        Ok(Timesheet { entries })
    }

    /// Serializes the entries as report text: one `<date> <duration>` line
    /// per entry, a `Total for <MonthName> <Year> <duration>` subtotal after
    /// the last entry of each month, and a blank line between month blocks.
    #[verifier::rlimit(100)]
    pub fn generate_report(&self) -> (r: Report)
        requires
            self.wf(),
        ensures
            r.0@ == ser_chars(self@, 0),
    {
        let ghost s = self@;
        let n = self.entries.len();
        let mut out = String::new();
        let mut i: usize = 0;
        let mut acc: u64 = 0;
        proof {
            assert(s.subrange(0, n as int) =~= s);
            assert(out@ + ser_chars(s.subrange(0, n as int), 0) =~= ser_chars(s, 0));
        }
        while i < n
            invariant
                0 <= i <= n == s.len(),
                s == self@,
                self.wf(),
                acc <= sum_secs(s.subrange(0, i as int)),
                out@ + ser_chars(s.subrange(i as int, n as int), acc as nat) == ser_chars(s, 0),
            decreases n - i,
        {
            let ghost acc0 = acc as nat;
            let ghost out0 = out@;
            let ghost suffix = s.subrange(i as int, n as int);
            let ghost rest = s.subrange(i + 1, n as int);
            let e = self.entries[i];
            proof {
                assert(suffix[0] == s[i as int]);
                lemma_sum_concat(s, i + 1);
                assert(s.subrange(0, i + 1).drop_last() =~= s.subrange(0, i as int));
                assert(s.subrange(0, i + 1).last() == s[i as int]);
                if i + 1 < n {
                    assert(rest[0] == s[i + 1]);
                }
            }
            let month_end = i + 1 == n || self.entries[i + 1].date.month != e.date.month;
            let tot = acc + e.worked.secs;
            let ghost el = entry_line_chars(e);
            let ghost block: Seq<char> = if month_end {
                seq!['\n'] + total_line_chars(
                    e.date.month as int,
                    e.date.year as nat,
                    tot as nat,
                ) + seq!['\n']
            } else {
                Seq::empty()
            };
            let ghost sep: Seq<char> = if rest.len() > 0 {
                seq!['\n']
            } else {
                Seq::empty()
            };
            proof {
                lemma_ser_unfold(s, i as int, acc0);
                assert(ser_chars(suffix, acc0) == el + block + sep + ser_chars(
                    rest,
                    if month_end {
                        0
                    } else {
                        tot as nat
                    },
                ));
            }
            let dateline = crate::date::format_date(&e.date);
            out.append(dateline.as_str());
            out.append(" ");
            let durline = crate::util::format_duration(e.worked);
            out.append(durline.as_str());
            proof {
                reveal_strlit(" ");
                assert(" "@ =~= seq![' ']);
                assert(out@ =~= out0 + el);
            }
            if month_end {
                out.append("\n");
                out.append("Total for ");
                let mname = crate::date::month_name(e.date.month);
                out.append(mname);
                out.append(" ");
                let ytext = crate::digits::u64_to_string(e.date.year as u64);
                out.append(ytext.as_str());
                out.append(" ");
                let ttext = crate::util::format_duration(Duration { secs: tot });
                out.append(ttext.as_str());
                out.append("\n");
                proof {
                    reveal_strlit(" ");
                    reveal_strlit("\n");
                    reveal_strlit("Total for ");
                    assert("Total for "@ =~= total_label());
                    assert("\n"@ =~= seq!['\n']);
                    assert(" "@ =~= seq![' ']);
                    assert(out@ =~= out0 + el + block);
                }
            }
            if i + 1 < n {
                out.append("\n");
                proof {
                    reveal_strlit("\n");
                    assert("\n"@ =~= seq!['\n']);
                }
            }
            proof {
                assert(out@ =~= out0 + el + block + sep);
                assert(out@ + ser_chars(
                    rest,
                    if month_end {
                        0
                    } else {
                        tot as nat
                    },
                ) =~= out0 + ser_chars(suffix, acc0));
            }
            if month_end {
                acc = 0;
            } else {
                acc = tot;
            }
            i = i + 1;
        }
        proof {
            assert(s.subrange(n as int, n as int) =~= Seq::<Entry>::empty());
            assert(out@ =~= ser_chars(s, 0));
        }
        Report(out)
    }

    /// The remaining-work snapshot anchored at the latest entry: the given
    /// monthly quota minus the anchor month's worked time, floored at zero.
    /// `None` exactly when the timesheet is empty.
    pub fn remaining_work_for_quota(&self, monthly_quota: &Duration) -> (r: Option<
        RemainingWork,
    >)
        requires
            self.wf(),
        ensures
            self@.len() == 0 ==> r is None,
            self@.len() > 0 ==> ({
                let worked = suffix_month_sum(self@, self@.last().date.month as int);
                &&& r is Some
                &&& r.unwrap().date == self@.last().date
                &&& r.unwrap().remaining_time.secs == (if worked >= monthly_quota.secs {
                    0
                } else {
                    monthly_quota.secs - worked
                })
            }),
    {
        let n = self.entries.len();
        if n == 0 {
            return None;
        }
        let last = self.entries[n - 1];
        proof {
            assert(self@[n - 1] == self@.last());
        }
        let worked = self.hours_worked_in_month(last.date.month);
        let remaining = if worked.secs >= monthly_quota.secs {
            0
        } else {
            monthly_quota.secs - worked.secs
        };
        Some(RemainingWork::new(last.date, Duration { secs: remaining }))
    }

    /// As [`Timesheet::remaining_work_for_quota`], against the fixed
    /// monthly quota of 160 hours.
    pub fn remaining_work(&self) -> (r: Option<RemainingWork>)
        requires
            self.wf(),
        ensures
            self@.len() == 0 ==> r is None,
            self@.len() > 0 ==> ({
                let worked = suffix_month_sum(self@, self@.last().date.month as int);
                &&& r is Some
                &&& r.unwrap().date == self@.last().date
                &&& r.unwrap().remaining_time.secs == (if worked >= MONTHLY_QUOTA_SECONDS {
                    0
                } else {
                    MONTHLY_QUOTA_SECONDS - worked
                })
            }),
    {
        self.remaining_work_for_quota(&Duration { secs: MONTHLY_QUOTA_SECONDS })
    }
}

} // verus!
