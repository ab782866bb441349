//! Character-sequence helpers shared by the duration, date and report
//! grammars: first occurrence of a separator, ASCII whitespace trimming, and
//! the case-insensitive `total` line prefix.

use vstd::prelude::*;

verus! {

/// Index of the first occurrence of `c` in `s`, or `s.len()` when absent.
pub open spec fn find_char(s: Seq<char>, c: char) -> int
    decreases s.len(),
{
    if s.len() == 0 {
        0
    } else if s[0] == c {
        0
    } else {
        1 + find_char(s.subrange(1, s.len() as int), c)
    }
}

pub open spec fn seq_no_char(s: Seq<char>, c: char) -> bool {
    forall|i: int| 0 <= i < s.len() ==> #[trigger] s[i] != c
}

pub proof fn lemma_find_char_bounds(s: Seq<char>, c: char)
    ensures
        0 <= find_char(s, c) <= s.len(),
        forall|j: int| 0 <= j < find_char(s, c) ==> #[trigger] s[j] != c,
        find_char(s, c) < s.len() ==> s[find_char(s, c)] == c,
    decreases s.len(),
{
    if s.len() == 0 {
    } else if s[0] == c {
    } else {
        let t = s.subrange(1, s.len() as int);
        lemma_find_char_bounds(t, c);
        assert forall|j: int| 0 <= j < find_char(s, c) implies #[trigger] s[j] != c by {
            if j >= 1 {
                assert(s[j] == t[j - 1]);
            }
        }
        if find_char(s, c) < s.len() {
            assert(s[find_char(s, c)] == t[find_char(t, c)]);
        }
    }
}

/// `find_char` is pinned down by the characteristic facts of an index.
pub proof fn lemma_find_char_at(s: Seq<char>, c: char, k: int)
    requires
        0 <= k <= s.len(),
        forall|j: int| 0 <= j < k ==> #[trigger] s[j] != c,
        k < s.len() ==> s[k] == c,
        k == s.len() ==> seq_no_char(s, c),
    ensures
        find_char(s, c) == k,
    decreases s.len(),
{
    if s.len() == 0 {
    } else if k == 0 {
        if s.len() > 0 && k == s.len() {
        }
    } else {
        assert(s[0] != c);
        let t = s.subrange(1, s.len() as int);
        assert forall|j: int| 0 <= j < k - 1 implies #[trigger] t[j] != c by {
            assert(t[j] == s[j + 1]);
        }
        if k - 1 < t.len() {
            assert(t[k - 1] == s[k]);
        }
        if k - 1 == t.len() {
            assert forall|j: int| 0 <= j < t.len() implies #[trigger] t[j] != c by {
                assert(t[j] == s[j + 1]);
            }
        }
        lemma_find_char_at(t, c, k - 1);
    }
}

/// When `c` does not occur in `a`, the first `c` of `a + seq![c] + b` sits
/// exactly after `a`.
pub proof fn lemma_find_char_concat(a: Seq<char>, b: Seq<char>, c: char)
    requires
        seq_no_char(a, c),
    ensures
        find_char(a + seq![c] + b, c) == a.len(),
{
    let s = a + seq![c] + b;
    assert forall|j: int| 0 <= j < a.len() implies #[trigger] s[j] != c by {
        assert(s[j] == a[j]);
    }
    assert(s[a.len() as int] == c);
    lemma_find_char_at(s, c, a.len() as int);
}

/// When `c` occurs nowhere in `s`, `find_char` reports the length.
pub proof fn lemma_find_char_absent(s: Seq<char>, c: char)
    requires
        seq_no_char(s, c),
    ensures
        find_char(s, c) == s.len(),
{
    lemma_find_char_at(s, c, s.len() as int);
}

/// First occurrence of `c` at or after `from`; `n` is the char length of `s`.
pub fn find_char_from(s: &str, n: usize, from: usize, c: char) -> (r: usize)
    requires
        n == s@.len(),
        from <= n,
    ensures
        from <= r <= n,
        r - from == find_char(s@.subrange(from as int, n as int), c),
        forall|j: int| from <= j < r ==> #[trigger] s@[j] != c,
        r < n ==> s@[r as int] == c,
{
    let mut i = from;
    while i < n
        invariant
            from <= i <= n,
            n == s@.len(),
            forall|j: int| from <= j < i ==> #[trigger] s@[j] != c,
        decreases n - i,
    {
        if s.get_char(i) == c {
            proof {
                let sub = s@.subrange(from as int, n as int);
                assert forall|j: int| 0 <= j < i - from implies #[trigger] sub[j] != c by {
                    assert(sub[j] == s@[from + j]);
                }
                assert(sub[i - from] == s@[i as int]);
                lemma_find_char_at(sub, c, i - from);
            }
            return i;
        }
        i = i + 1;
    }
    proof {
        let sub = s@.subrange(from as int, n as int);
        assert forall|j: int| 0 <= j < sub.len() implies #[trigger] sub[j] != c by {
            assert(sub[j] == s@[from + j]);
        }
        lemma_find_char_at(sub, c, n - from);
    }
    n
}

/// ASCII whitespace, the only kind the report grammar produces.
pub open spec fn is_space(c: char) -> bool {
    c == ' ' || c == '\t' || c == '\r' || c == '\n'
}

/// `s` with leading and trailing ASCII whitespace removed.
pub open spec fn trim_chars(s: Seq<char>) -> Seq<char>
    decreases s.len(),
{
    if s.len() == 0 {
        s
    } else if is_space(s[0]) {
        trim_chars(s.subrange(1, s.len() as int))
    } else if is_space(s.last()) {
        trim_chars(s.drop_last())
    } else {
        s
    }
}

/// A sequence with non-space ends trims to itself.
pub proof fn lemma_trim_id(s: Seq<char>)
    requires
        s.len() > 0,
        !is_space(s[0]),
        !is_space(s.last()),
    ensures
        trim_chars(s) == s,
{
}

pub fn is_space_char(c: char) -> (r: bool)
    ensures
        r == is_space(c),
{
    c == ' ' || c == '\t' || c == '\r' || c == '\n'
}

/// Narrows `start..end` (char positions of `s`) to its trimmed core.
pub fn trim_range(s: &str, n: usize, start: usize, end: usize) -> (r: (usize, usize))
    requires
        n == s@.len(),
        start <= end <= n,
    ensures
        start <= r.0 <= r.1 <= end,
        trim_chars(s@.subrange(start as int, end as int)) == s@.subrange(
            r.0 as int,
            r.1 as int,
        ),
{
    let ghost whole = s@.subrange(start as int, end as int);
    let mut a = start;
    let mut b = end;
    while a < b && is_space_char(s.get_char(a))
        invariant
            start <= a <= b <= end <= n,
            n == s@.len(),
            trim_chars(whole) == trim_chars(s@.subrange(a as int, b as int)),
            whole == s@.subrange(start as int, end as int),
        decreases b - a,
    {
        proof {
            let cur = s@.subrange(a as int, b as int);
            assert(cur[0] == s@[a as int]);
            assert(cur.subrange(1, cur.len() as int) =~= s@.subrange(a + 1, b as int));
        }
        a = a + 1;
    }
    while a < b && is_space_char(s.get_char(b - 1))
        invariant
            start <= a <= b <= end <= n,
            n == s@.len(),
            trim_chars(whole) == trim_chars(s@.subrange(a as int, b as int)),
            whole == s@.subrange(start as int, end as int),
            a < b ==> !is_space(s@[a as int]),
        decreases b - a,
    {
        proof {
            let cur = s@.subrange(a as int, b as int);
            assert(cur[0] == s@[a as int]);
            assert(cur.last() == s@[b - 1]);
            assert(cur.drop_last() =~= s@.subrange(a as int, b - 1));
        }
        b = b - 1;
    }
    proof {
        let cur = s@.subrange(a as int, b as int);
        if a == b {
            assert(cur =~= Seq::<char>::empty());
        } else {
            assert(cur[0] == s@[a as int]);
            assert(cur.last() == s@[b - 1]);
            lemma_trim_id(cur);
        }
    }
    (a, b)
}

/// `c` equals the lower-case ASCII letter `lower`, ignoring ASCII case.
pub open spec fn matches_ci(c: char, lower: char) -> bool {
    c == lower || c as int + 32 == lower as int
}

/// The trimmed line starts with `total` in some ASCII casing: such lines are
/// regenerated subtotal annotations and are skipped by the parser.
pub open spec fn is_total_line(t: Seq<char>) -> bool {
    t.len() >= 5 && matches_ci(t[0], 't') && matches_ci(t[1], 'o') && matches_ci(t[2], 't')
        && matches_ci(t[3], 'a') && matches_ci(t[4], 'l')
}

fn matches_ci_char(c: char, lower: char) -> (r: bool)
    ensures
        r == matches_ci(c, lower),
{
    c == lower || (c as u32) + 32 == lower as u32
}

/// Decides `is_total_line` for the char range `start..end` of `s`.
pub fn total_prefixed(s: &str, n: usize, start: usize, end: usize) -> (r: bool)
    requires
        n == s@.len(),
        start <= end <= n,
    ensures
        r == is_total_line(s@.subrange(start as int, end as int)),
{
    let ghost t = s@.subrange(start as int, end as int);
    if end - start < 5 {
        return false;
    }
    proof {
        assert(t[0] == s@[start as int]);
        assert(t[1] == s@[start + 1]);
        assert(t[2] == s@[start + 2]);
        assert(t[3] == s@[start + 3]);
        assert(t[4] == s@[start + 4]);
    }
    matches_ci_char(s.get_char(start), 't') && matches_ci_char(s.get_char(start + 1), 'o')
        && matches_ci_char(s.get_char(start + 2), 't') && matches_ci_char(
        s.get_char(start + 3),
        'a',
    ) && matches_ci_char(s.get_char(start + 4), 'l')
}

} // verus!
