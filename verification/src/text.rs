//! Plain-text helpers over the characters of a string: whitespace trimming,
//! pattern search, line splitting and decimal parsing, each with the meaning
//! that `str`'s methods of the same purpose have.

use vstd::prelude::*;

verus! {

broadcast use vstd::string::group_string_axioms;

/// The characters of `s`, in order.
pub fn chars_of(s: &str) -> (v: Vec<char>)
    ensures
        v@ == s@,
{
    let mut v: Vec<char> = Vec::new();
    for c in it: s.chars()
        invariant
            v@ == it.seq().take(it.index() as int),
    {
        v.push(c);
    }
    v
}

/// Unicode `White_Space`, the set that `char::is_whitespace` tests.
pub open spec fn is_white(c: char) -> bool {
    let u = c as u32;
    (0x9 <= u <= 0xD) || u == 0x20 || u == 0x85 || u == 0xA0 || u == 0x1680 || (0x2000 <= u
        <= 0x200A) || u == 0x2028 || u == 0x2029 || u == 0x202F || u == 0x205F || u == 0x3000
}

fn is_white_char(c: char) -> (b: bool)
    ensures
        b == is_white(c),
{
    let u = c as u32;
    (0x9 <= u && u <= 0xD) || u == 0x20 || u == 0x85 || u == 0xA0 || u == 0x1680 || (0x2000 <= u
        && u <= 0x200A) || u == 0x2028 || u == 0x2029 || u == 0x202F || u == 0x205F || u == 0x3000
}

/// `s` without its leading whitespace.
pub open spec fn trim_start(s: Seq<char>) -> Seq<char>
    decreases s.len(),
{
    if s.len() > 0 && is_white(s[0]) {
        trim_start(s.drop_first())
    } else {
        s
    }
}

/// `s` without its trailing whitespace.
pub open spec fn trim_end(s: Seq<char>) -> Seq<char>
    decreases s.len(),
{
    if s.len() > 0 && is_white(s.last()) {
        trim_end(s.drop_last())
    } else {
        s
    }
}

/// `s` without leading and trailing whitespace, as `str::trim` gives it.
pub open spec fn trim(s: Seq<char>) -> Seq<char> {
    trim_end(trim_start(s))
}

/// The bounds within `s[from..to]` of that range trimmed of whitespace.
pub fn trim_bounds(s: &[char], from: usize, to: usize) -> (r: (usize, usize))
    requires
        from <= to <= s@.len(),
    ensures
        from <= r.0 <= r.1 <= to,
        s@.subrange(r.0 as int, r.1 as int) == trim(s@.subrange(from as int, to as int)),
        forall|k: int| from <= k < r.0 ==> is_white(#[trigger] s@[k]),
        forall|k: int| r.1 <= k < to ==> is_white(#[trigger] s@[k]),
        r.0 < r.1 ==> !is_white(s@[r.0 as int]) && !is_white(s@[r.1 - 1]),
{
    let ghost whole = s@.subrange(from as int, to as int);
    let mut a = from;
    while a < to && is_white_char(s[a])
        invariant
            from <= a <= to,
            to <= s@.len(),
            whole == s@.subrange(from as int, to as int),
            trim_start(whole) == trim_start(s@.subrange(a as int, to as int)),
            forall|k: int| from <= k < a ==> is_white(#[trigger] s@[k]),
        decreases to - a,
    {
        assert(s@.subrange(a as int, to as int).drop_first() =~= s@.subrange(a + 1, to as int));
        a = a + 1;
    }
    let ghost started = s@.subrange(a as int, to as int);
    assert(trim_start(started) == started);
    let mut b = to;
    while b > a && is_white_char(s[b - 1])
        invariant
            a <= b <= to,
            to <= s@.len(),
            started == s@.subrange(a as int, to as int),
            trim_end(started) == trim_end(s@.subrange(a as int, b as int)),
            forall|k: int| from <= k < a ==> is_white(#[trigger] s@[k]),
            forall|k: int| b <= k < to ==> is_white(#[trigger] s@[k]),
            a < to ==> !is_white(s@[a as int]),
        decreases b - a,
    {
        assert(s@.subrange(a as int, b as int).drop_last() =~= s@.subrange(a as int, b - 1));
        b = b - 1;
    }
    (a, b)
}

/// `pat` occurs in `s` starting at position `i`.
pub open spec fn occurs_at(s: Seq<char>, pat: Seq<char>, i: int) -> bool {
    0 <= i && i + pat.len() <= s.len() && s.subrange(i, i + pat.len()) == pat
}

/// The first position at or after `i` where `pat` occurs in `s`.
pub open spec fn find_from(s: Seq<char>, pat: Seq<char>, i: nat) -> Option<nat>
    decreases s.len() - i,
{
    if i + pat.len() > s.len() {
        None
    } else if occurs_at(s, pat, i as int) {
        Some(i)
    } else {
        proof {
            if pat.len() == 0 {
                assert(s.subrange(i as int, i as int) =~= pat);
            }
        }
        find_from(s, pat, i + 1)
    }
}

/// `s` contains `pat`, as `str::contains` tests it.
pub open spec fn contains_pat(s: Seq<char>, pat: Seq<char>) -> bool {
    find_from(s, pat, 0) is Some
}

/// `s` starts with `pat`, as `str::starts_with` tests it.
pub open spec fn starts_with(s: Seq<char>, pat: Seq<char>) -> bool {
    occurs_at(s, pat, 0)
}

/// Whether `pat` occurs in `s[from..to]` at offset `k` of that range.
pub fn occurs_in_range(s: &[char], from: usize, to: usize, pat: &[char], k: usize) -> (b: bool)
    requires
        from <= to <= s@.len(),
    ensures
        b == occurs_at(s@.subrange(from as int, to as int), pat@, k as int),
{
    let ghost line = s@.subrange(from as int, to as int);
    if k > to - from || pat.len() > to - from - k {
        return false;
    }
    let mut j: usize = 0;
    while j < pat.len()
        invariant
            j <= pat@.len(),
            k + pat@.len() <= to - from,
            from <= to <= s@.len(),
            line == s@.subrange(from as int, to as int),
            forall|t: int| 0 <= t < j ==> line[k + t] == pat@[t],
        decreases pat.len() - j,
    {
        if s[from + k + j] != pat[j] {
            assert(line.subrange(k as int, k + pat@.len())[j as int] != pat@[j as int]);
            return false;
        }
        j = j + 1;
    }
    assert(line.subrange(k as int, k + pat@.len()) =~= pat@);
    true
}

/// The first offset at or after `start`, within `s[from..to]`, where `pat`
/// occurs.
pub fn find_in_range(s: &[char], from: usize, to: usize, pat: &[char], start: usize) -> (r:
    Option<usize>)
    requires
        from <= to <= s@.len(),
        start <= to - from,
    ensures
        match r {
            Some(k) => find_from(s@.subrange(from as int, to as int), pat@, start as nat) == Some(
                k as nat,
            ) && start <= k && k + pat@.len() <= to - from,
            None => find_from(s@.subrange(from as int, to as int), pat@, start as nat) is None,
        },
{
    let ghost line = s@.subrange(from as int, to as int);
    let mut k = start;
    while pat.len() <= to - from - k
        invariant
            start <= k <= to - from,
            from <= to <= s@.len(),
            line == s@.subrange(from as int, to as int),
            find_from(line, pat@, start as nat) == find_from(line, pat@, k as nat),
        decreases to - from - k,
    {
        if occurs_in_range(s, from, to, pat, k) {
            return Some(k);
        }
        if k == to - from {
            assert(line.subrange(k as int, k as int) =~= pat@);
            return None;
        }
        k = k + 1;
    }
    None
}

/// Where the line that starts at `i` ends: at the next `'\n'`, or at the end
/// of the text.
pub open spec fn line_end(s: Seq<char>, i: nat) -> nat
    decreases s.len() - i,
{
    if i >= s.len() {
        s.len()
    } else if s[i as int] == '\n' {
        i
    } else {
        line_end(s, i + 1)
    }
}

pub proof fn lemma_line_end_bounds(s: Seq<char>, i: nat)
    requires
        i <= s.len(),
    ensures
        i <= line_end(s, i) <= s.len(),
        line_end(s, i) < s.len() ==> s[line_end(s, i) as int] == '\n',
        forall|k: int| i <= k < line_end(s, i) ==> s[k] != '\n',
    decreases s.len() - i,
{
    if i < s.len() && s[i as int] != '\n' {
        lemma_line_end_bounds(s, i + 1);
    }
}

/// Where the line that starts at `i` ends.
pub fn find_line_end(s: &[char], i: usize) -> (e: usize)
    requires
        i <= s@.len(),
    ensures
        e == line_end(s@, i as nat),
        i <= e <= s@.len(),
{
    let mut e = i;
    while e < s.len() && s[e] != '\n'
        invariant
            i <= e <= s@.len(),
            line_end(s@, i as nat) == line_end(s@, e as nat),
        decreases s.len() - e,
    {
        e = e + 1;
    }
    e
}

/// The first of the lines of `s`, from the one that starts at `i` on, that
/// satisfies `pred`. Lines are split at `'\n'`, and no line starts at the very
/// end, so a final line ending adds no empty line: the lines of `str::lines`,
/// except that a `'\r'` before a `'\n'` stays on its line. The callers in
/// this crate trim every part of a line they keep, and `'\r'` is whitespace,
/// so for them the two splittings give the same results.
pub open spec fn first_line_from(s: Seq<char>, i: nat, pred: spec_fn(Seq<char>) -> bool) -> Option<
    Seq<char>,
>
    decreases s.len() + 1 - i,
{
    if i >= s.len() {
        None
    } else {
        let e = line_end(s, i);
        proof {
            lemma_line_end_bounds(s, i);
        }
        if pred(s.subrange(i as int, e as int)) {
            Some(s.subrange(i as int, e as int))
        } else {
            first_line_from(s, e + 1, pred)
        }
    }
}

/// The first line of `s` that satisfies `pred`: `s.lines().find(pred)`, but
/// with a `'\r'` before a `'\n'` left on its line (see `first_line_from`).
pub open spec fn first_line(s: Seq<char>, pred: spec_fn(Seq<char>) -> bool) -> Option<Seq<char>> {
    first_line_from(s, 0, pred)
}

/// `c` is an ASCII decimal digit.
pub open spec fn is_digit(c: char) -> bool {
    '0' <= c <= '9'
}

/// The value of an ASCII decimal digit.
pub open spec fn digit_value(c: char) -> nat {
    (c as u32 - '0' as u32) as nat
}

/// The value of a string of decimal digits, most significant first.
pub open spec fn decimal_value(d: Seq<char>) -> nat
    decreases d.len(),
{
    if d.len() == 0 {
        0
    } else {
        decimal_value(d.drop_last()) * 10 + digit_value(d.last())
    }
}

/// Every character of `d` is a decimal digit.
pub open spec fn all_digits(d: Seq<char>) -> bool {
    forall|i: int| 0 <= i < d.len() ==> is_digit(#[trigger] d[i])
}

/// The digits of a number as `usize::from_str` reads them: an optional `'+'`,
/// then at least one decimal digit and nothing else. `None` when `s` is not of
/// that form.
pub open spec fn decimal_digits(s: Seq<char>) -> Option<Seq<char>> {
    let d = if s.len() > 0 && s[0] == '+' {
        s.drop_first()
    } else {
        s
    };
    if d.len() > 0 && all_digits(d) {
        Some(d)
    } else {
        None
    }
}

/// What `s.parse::<usize>().ok()` gives: the number when `s` is an optional
/// `'+'` and decimal digits whose value fits in a `usize`, else `None`.
pub open spec fn parse_usize_spec(s: Seq<char>) -> Option<usize> {
    match decimal_digits(s) {
        Some(d) => if decimal_value(d) <= usize::MAX {
            Some(decimal_value(d) as usize)
        } else {
            None
        },
        None => None,
    }
}

/// Parses `s[from..to]` as `usize::from_str` does.
pub fn parse_usize_in(s: &[char], from: usize, to: usize) -> (r: Option<usize>)
    requires
        from <= to <= s@.len(),
    ensures
        r == parse_usize_spec(s@.subrange(from as int, to as int)),
{
    let ghost t = s@.subrange(from as int, to as int);
    let mut i = from;
    if i < to && s[i] == '+' {
        i = i + 1;
    }
    let ghost d = if t.len() > 0 && t[0] == '+' {
        t.drop_first()
    } else {
        t
    };
    assert(d =~= s@.subrange(i as int, to as int));
    if i == to {
        return None;
    }
    let start = i;
    let mut value: usize = 0;
    let mut overflow = false;
    while i < to
        invariant
            from <= start <= i <= to <= s@.len(),
            d == s@.subrange(start as int, to as int),
            t == s@.subrange(from as int, to as int),
            d.len() > 0,
            decimal_digits(t) == if all_digits(d) {
                Some(d)
            } else {
                None
            },
            forall|k: int| 0 <= k < i - start ==> is_digit(#[trigger] d[k]),
            !overflow ==> value == decimal_value(d.take(i - start)),
            overflow ==> decimal_value(d.take(i - start)) > usize::MAX,
        decreases to - i,
    {
        let c = s[i];
        if !('0' <= c && c <= '9') {
            assert(!is_digit(d[i - start]));
            assert(!all_digits(d));
            return None;
        }
        let ghost k = i - start;
        assert(d.take(k + 1).drop_last() =~= d.take(k));
        assert(d.take(k + 1).last() == c);
        let dv = (c as u32 - '0' as u32) as usize;
        if !overflow {
            match value.checked_mul(10) {
                Some(v10) => match v10.checked_add(dv) {
                    Some(v) => {
                        value = v;
                    },
                    None => {
                        overflow = true;
                    },
                },
                None => {
                    overflow = true;
                },
            }
        }
        i = i + 1;
    }
    assert(d.take(i - start) =~= d);
    if overflow {
        None
    } else {
        Some(value)
    }
}

} // verus!
