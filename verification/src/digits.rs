//! Decimal numerals: the spec-level correspondence between natural numbers
//! and their sequences of ASCII digit characters, together with verified
//! executable conversion in both directions.

use vstd::arithmetic::div_mod::{
    lemma_div_denominator, lemma_div_pos_is_pos, lemma_fundamental_div_mod,
};
use vstd::prelude::*;

verus! {

/// An ASCII decimal digit `'0'..='9'`.
pub open spec fn is_digit(c: char) -> bool {
    48 <= c as int <= 57
}

/// Numeric value of a digit character.
pub open spec fn digit_val(c: char) -> nat {
    (c as int - 48) as nat
}

/// The digit character for a value below ten.
pub open spec fn digit_char(d: nat) -> char {
    if d == 0 {
        '0'
    } else if d == 1 {
        '1'
    } else if d == 2 {
        '2'
    } else if d == 3 {
        '3'
    } else if d == 4 {
        '4'
    } else if d == 5 {
        '5'
    } else if d == 6 {
        '6'
    } else if d == 7 {
        '7'
    } else if d == 8 {
        '8'
    } else {
        '9'
    }
}

pub open spec fn all_digits(s: Seq<char>) -> bool {
    forall|i: int| 0 <= i < s.len() ==> is_digit(#[trigger] s[i])
}

/// Value of a digit sequence read as a base-ten numeral (most significant
/// digit first); meaningful when `all_digits(s)`.
pub open spec fn chars_to_nat(s: Seq<char>) -> nat
    decreases s.len(),
{
    if s.len() == 0 {
        0
    } else {
        chars_to_nat(s.drop_last()) * 10 + digit_val(s.last())
    }
}

/// The canonical (no leading zero, except for zero itself) numeral of `n`.
pub open spec fn nat_to_chars(n: nat) -> Seq<char>
    decreases n,
{
    if n < 10 {
        seq![digit_char(n)]
    } else {
        nat_to_chars(n / 10).push(digit_char(n % 10))
    }
}

pub proof fn lemma_digit_char_val(d: nat)
    requires
        d < 10,
    ensures
        is_digit(digit_char(d)),
        digit_val(digit_char(d)) == d,
{
}

pub proof fn lemma_nat_to_chars_digits(n: nat)
    ensures
        nat_to_chars(n).len() >= 1,
        all_digits(nat_to_chars(n)),
    decreases n,
{
    if n < 10 {
        lemma_digit_char_val(n);
    } else {
        lemma_nat_to_chars_digits(n / 10);
        lemma_digit_char_val(n % 10);
        assert forall|i: int| 0 <= i < nat_to_chars(n).len() implies is_digit(
            #[trigger] nat_to_chars(n)[i],
        ) by {
            if i < nat_to_chars(n / 10).len() {
                assert(nat_to_chars(n)[i] == nat_to_chars(n / 10)[i]);
            }
        }
    }
}

/// Reading back the canonical numeral of `n` yields `n`.
pub proof fn lemma_numeral_round_trip(n: nat)
    ensures
        chars_to_nat(nat_to_chars(n)) == n,
    decreases n,
{
    if n < 10 {
        lemma_digit_char_val(n);
        let s = nat_to_chars(n);
        assert(s.len() == 1);
        assert(s.drop_last() =~= Seq::<char>::empty());
        assert(s.last() == digit_char(n));
        assert(chars_to_nat(s) == chars_to_nat(s.drop_last()) * 10 + digit_val(s.last()));
        assert(chars_to_nat(s.drop_last()) == 0);
    } else {
        lemma_numeral_round_trip(n / 10);
        lemma_digit_char_val(n % 10);
        let s = nat_to_chars(n);
        assert(s == nat_to_chars(n / 10).push(digit_char(n % 10)));
        assert(s.len() >= 1);
        assert(s.drop_last() =~= nat_to_chars(n / 10));
        assert(s.last() == digit_char(n % 10));
        assert(chars_to_nat(s) == chars_to_nat(s.drop_last()) * 10 + digit_val(s.last()));
        assert(chars_to_nat(s) == (n / 10) * 10 + n % 10);
        lemma_fundamental_div_mod(n as int, 10);
    }
}

/// A prefix of a digit sequence denotes at most what the whole does.
pub proof fn lemma_prefix_value_le(s: Seq<char>, k: int)
    requires
        0 <= k <= s.len(),
    ensures
        chars_to_nat(s.subrange(0, k)) <= chars_to_nat(s),
    decreases s.len() - k,
{
    if k == s.len() {
        assert(s.subrange(0, k) =~= s);
    } else {
        lemma_prefix_value_le(s, k + 1);
        let t = s.subrange(0, k + 1);
        assert(t.drop_last() =~= s.subrange(0, k));
        assert(chars_to_nat(s.subrange(0, k)) * 10 >= chars_to_nat(s.subrange(0, k)) * 1);
    }
}

/// A leading zero does not change the denoted value.
pub proof fn lemma_leading_zero(s: Seq<char>)
    ensures
        chars_to_nat(seq!['0'] + s) == chars_to_nat(s),
    decreases s.len(),
{
    if s.len() == 0 {
        assert(chars_to_nat(seq!['0'] + s) == chars_to_nat((seq!['0'] + s).drop_last()) * 10
            + digit_val((seq!['0'] + s).last()));
        assert((seq!['0'] + s).drop_last() =~= Seq::<char>::empty());
        assert(digit_val('0') == 0);
    } else {
        lemma_leading_zero(s.drop_last());
        assert((seq!['0'] + s).drop_last() =~= seq!['0'] + s.drop_last());
        assert((seq!['0'] + s).last() == s.last());
    }
}

/// The single-character numeral of a digit value.
fn digit_str(d: u64) -> (r: &'static str)
    requires
        d < 10,
    ensures
        r@ =~= seq![digit_char(d as nat)],
{
    proof {
        reveal_strlit("0");
        reveal_strlit("1");
        reveal_strlit("2");
        reveal_strlit("3");
        reveal_strlit("4");
        reveal_strlit("5");
        reveal_strlit("6");
        reveal_strlit("7");
        reveal_strlit("8");
        reveal_strlit("9");
    }
    if d == 0 {
        "0"
    } else if d == 1 {
        "1"
    } else if d == 2 {
        "2"
    } else if d == 3 {
        "3"
    } else if d == 4 {
        "4"
    } else if d == 5 {
        "5"
    } else if d == 6 {
        "6"
    } else if d == 7 {
        "7"
    } else if d == 8 {
        "8"
    } else {
        "9"
    }
}

/// Renders `n` as its canonical decimal numeral.
pub fn u64_to_string(n: u64) -> (r: String)
    ensures
        r@ == nat_to_chars(n as nat),
    decreases n,
{
    if n < 10 {
        let mut s = String::new();
        s.append(digit_str(n));
        proof {
            assert(s@ =~= nat_to_chars(n as nat));
        }
        s
    } else {
        proof {
            lemma_div_pos_is_pos(n as int, 10);
        }
        let mut s = u64_to_string(n / 10);
        s.append(digit_str(n % 10));
        proof {
            assert(s@ =~= nat_to_chars(n as nat));
        }
        s
    }
}

/// Reads the characters of `s` in positions `start..end` as a decimal
/// numeral. Returns the value exactly when the range is a nonempty
/// all-digit run whose value fits in a `u64`.
pub fn parse_number_range(s: &str, n: usize, start: usize, end: usize) -> (r: Option<u64>)
    requires
        n == s@.len(),
        start <= end <= n,
    ensures
        ({
            let field = s@.subrange(start as int, end as int);
            match r {
                Some(v) => start < end && all_digits(field) && v == chars_to_nat(field),
                None => !(start < end && all_digits(field) && chars_to_nat(field)
                    <= u64::MAX),
            }
        }),
{
    let ghost field = s@.subrange(start as int, end as int);
    if start == end {
        return None;
    }
    let mut acc: u64 = 0;
    let mut i: usize = start;
    while i < end
        invariant
            start <= i <= end <= n,
            n == s@.len(),
            field == s@.subrange(start as int, end as int),
            all_digits(field.subrange(0, i - start)),
            acc == chars_to_nat(field.subrange(0, i - start)),
        decreases end - i,
    {
        let c = s.get_char(i);
        let v = c as u32;
        proof {
            assert(field[i - start] == s@[i as int]);
        }
        if v < 48 || v > 57 {
            proof {
                assert(!is_digit(field[i - start]));
            }
            return None;
        }
        let d = (v - 48) as u64;
        let next = match acc.checked_mul(10) {
            Some(t) => t.checked_add(d),
            None => None,
        };
        proof {
            let pref = field.subrange(0, i + 1 - start);
            assert(pref.drop_last() =~= field.subrange(0, i - start));
            assert(chars_to_nat(pref) == acc * 10 + d);
            if acc * 10 + d > u64::MAX {
                lemma_prefix_value_le(field, i + 1 - start);
            }
        }
        match next {
            Some(t) => {
                acc = t;
            },
            None => {
                return None;
            },
        }
        i = i + 1;
    }
    proof {
        assert(field.subrange(0, end - start) =~= field);
    }
    Some(acc)
}

} // verus!
