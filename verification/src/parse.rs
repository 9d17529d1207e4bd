//! Reading values out of text the bookmakers send: substrings, trimming, unsigned
//! numbers as `str::parse` reads them, and decimal odds to the nearest thousandth.

use vstd::prelude::*;
use crate::text::{is_decimal_digit, is_whitespace, chars_of, char_is_whitespace, string_from_chars};

verus! {

/// Whether `pat` occurs in `s` at position `i`.
pub open spec fn occurs_at(s: Seq<char>, pat: Seq<char>, i: int) -> bool {
    &&& 0 <= i
    &&& i + pat.len() <= s.len()
    &&& s.subrange(i, i + pat.len()) == pat
}

/// Whether `pat` occurs somewhere in `s`.
pub open spec fn has_substring(s: Seq<char>, pat: Seq<char>) -> bool {
    exists|i: int| occurs_at(s, pat, i)
}

/// Whether `pat` occurs in `s` at position `i`, character by character.
fn matches_at(s: &Vec<char>, pat: &Vec<char>, i: usize) -> (r: bool)
    requires
        i + pat.len() <= s.len(),
    ensures
        r == occurs_at(s@, pat@, i as int),
{
    let mut k: usize = 0;
    while k < pat.len()
        invariant
            k <= pat@.len(),
            i + pat.len() <= s.len(),
            forall|q: int| 0 <= q < k ==> s@[i + q] == pat@[q],
        decreases pat@.len() - k,
    {
        if s[i + k] != pat[k] {
            proof {
                assert(s@.subrange(i as int, i + pat@.len())[k as int] != pat@[k as int]);
            }
            return false;
        }
        k = k + 1;
    }
    proof {
        assert(s@.subrange(i as int, i + pat@.len()) =~= pat@);
    }
    true
}

/// Whether `pat` occurs in `s` (`str::contains`).
pub fn contains(s: &str, pat: &str) -> (r: bool)
    ensures
        r == has_substring(s@, pat@),
{
    let sv = chars_of(s);
    let pv = chars_of(pat);
    if pv.len() == 0 {
        proof {
            assert(s@.subrange(0, 0) =~= pat@);
            assert(occurs_at(s@, pat@, 0));
        }
        return true;
    }
    if pv.len() > sv.len() {
        proof {
            assert forall|i: int| !occurs_at(s@, pat@, i) by {}
        }
        return false;
    }
    let last = sv.len() - pv.len();
    let mut i: usize = 0;
    while i <= last
        invariant
            sv@ == s@,
            pv@ == pat@,
            last == sv@.len() - pv@.len(),
            last < sv.len(),
            i <= last + 1,
            forall|j: int| 0 <= j < i ==> !occurs_at(s@, pat@, j),
        decreases last + 1 - i,
    {
        if matches_at(&sv, &pv, i) {
            return true;
        }
        i = i + 1;
    }
    proof {
        assert forall|j: int| !occurs_at(s@, pat@, j) by {
            if 0 <= j && j < i {
            }
        }
    }
    false
}

/// Whether `s` begins with `prefix`.
pub open spec fn begins_with(s: Seq<char>, prefix: Seq<char>) -> bool {
    prefix.len() <= s.len() && s.take(prefix.len() as int) == prefix
}

/// Whether `s` begins with `prefix` (`str::starts_with`).
pub fn starts_with(s: &str, prefix: &str) -> (r: bool)
    ensures
        r == begins_with(s@, prefix@),
{
    let sv = chars_of(s);
    let pv = chars_of(prefix);
    if pv.len() > sv.len() {
        return false;
    }
    let r = matches_at(&sv, &pv, 0);
    proof {
        assert(s@.subrange(0, pat_len(pv@)) == s@.take(pat_len(pv@)));
    }
    r
}

spec fn pat_len(p: Seq<char>) -> int {
    p.len() as int
}

/// The number of whitespace characters at the start of `s`.
pub open spec fn leading_spaces(s: Seq<char>) -> nat
    decreases s.len(),
{
    if s.len() > 0 && is_whitespace(s[0]) {
        1 + leading_spaces(s.drop_first())
    } else {
        0
    }
}

/// The number of whitespace characters at the end of `s`.
pub open spec fn trailing_spaces(s: Seq<char>) -> nat
    decreases s.len(),
{
    if s.len() > 0 && is_whitespace(s.last()) {
        1 + trailing_spaces(s.drop_last())
    } else {
        0
    }
}

/// `s` without whitespace at its start and its end.
pub open spec fn trimmed(s: Seq<char>) -> Seq<char> {
    let rest = s.skip(leading_spaces(s) as int);
    rest.take(rest.len() - trailing_spaces(rest))
}

/// The number of copies of `c` at the start of `s`.
pub open spec fn leading_char(s: Seq<char>, c: char) -> nat
    decreases s.len(),
{
    if s.len() > 0 && s[0] == c {
        1 + leading_char(s.drop_first(), c)
    } else {
        0
    }
}

/// The number of copies of `c` at the end of `s`.
pub open spec fn trailing_char(s: Seq<char>, c: char) -> nat
    decreases s.len(),
{
    if s.len() > 0 && s.last() == c {
        1 + trailing_char(s.drop_last(), c)
    } else {
        0
    }
}

/// `s` without the opening brackets at its start and the closing brackets at its end.
pub open spec fn unbracketed(s: Seq<char>) -> Seq<char> {
    let rest = s.skip(leading_char(s, '[') as int);
    rest.take(rest.len() - trailing_char(rest, ']'))
}

/// The characters of `v` from `from` to `to`, as a string.
pub(crate) fn string_of_range(v: &Vec<char>, from: usize, to: usize) -> (r: String)
    requires
        from <= to <= v@.len(),
    ensures
        r@ == v@.subrange(from as int, to as int),
{
    let mut w: Vec<char> = Vec::new();
    let mut i: usize = from;
    while i < to
        invariant
            from <= i <= to,
            to <= v@.len(),
            w@ == v@.subrange(from as int, i as int),
        decreases to - i,
    {
        w.push(v[i]);
        proof {
            assert(w@ =~= v@.subrange(from as int, i + 1));
        }
        i = i + 1;
    }
    string_from_chars(w)
}

/// `s` without whitespace at its start and end (`str::trim`).
pub fn trim(s: &str) -> (r: String)
    ensures
        r@ == trimmed(s@),
{
    let v = chars_of(s);
    let mut a: usize = 0;
    proof {
        assert(s@.skip(0) =~= s@);
    }
    while a < v.len() && char_is_whitespace(v[a])
        invariant
            v@ == s@,
            a <= v@.len(),
            leading_spaces(s@) == a + leading_spaces(s@.skip(a as int)),
        decreases v@.len() - a,
    {
        proof {
            assert(s@.skip(a as int).drop_first() =~= s@.skip(a + 1));
            assert(s@.skip(a as int)[0] == v@[a as int]);
        }
        a = a + 1;
    }
    proof {
        if a < v@.len() {
            assert(s@.skip(a as int)[0] == v@[a as int]);
        } else {
            assert(s@.skip(a as int).len() == 0);
        }
    }
    let ghost rest = s@.skip(a as int);
    let mut b: usize = v.len();
    proof {
        assert(rest.take(rest.len() as int) =~= rest);
    }
    while b > a && char_is_whitespace(v[b - 1])
        invariant
            v@ == s@,
            a <= b <= v@.len(),
            rest == s@.skip(a as int),
            trailing_spaces(rest) == (v@.len() - b) + trailing_spaces(rest.take(b - a)),
        decreases b - a,
    {
        proof {
            let n = b - a;
            assert(rest.take(n).drop_last() =~= rest.take(n - 1));
            assert(rest.take(n).last() == v@[b - 1]);
        }
        b = b - 1;
    }
    proof {
        let n = b - a;
        if n > 0 {
            assert(rest.take(n).last() == v@[b - 1]);
        } else {
            assert(rest.take(0).len() == 0);
        }
        assert(rest.take(rest.len() - trailing_spaces(rest)) =~= v@.subrange(a as int, b as int));
    }
    string_of_range(&v, a, b)
}

/// `s` without its leading `[` and trailing `]` characters
/// (`str::trim_start_matches('[')`, then `str::trim_end_matches(']')`).
pub fn trim_brackets(s: &str) -> (r: String)
    ensures
        r@ == unbracketed(s@),
{
    let v = chars_of(s);
    let mut a: usize = 0;
    proof {
        assert(s@.skip(0) =~= s@);
    }
    while a < v.len() && v[a] == '['
        invariant
            v@ == s@,
            a <= v@.len(),
            leading_char(s@, '[') == a + leading_char(s@.skip(a as int), '['),
        decreases v@.len() - a,
    {
        proof {
            assert(s@.skip(a as int).drop_first() =~= s@.skip(a + 1));
            assert(s@.skip(a as int)[0] == v@[a as int]);
        }
        a = a + 1;
    }
    proof {
        if a < v@.len() {
            assert(s@.skip(a as int)[0] == v@[a as int]);
        } else {
            assert(s@.skip(a as int).len() == 0);
        }
    }
    let ghost rest = s@.skip(a as int);
    let mut b: usize = v.len();
    proof {
        assert(rest.take(rest.len() as int) =~= rest);
    }
    while b > a && v[b - 1] == ']'
        invariant
            v@ == s@,
            a <= b <= v@.len(),
            rest == s@.skip(a as int),
            trailing_char(rest, ']') == (v@.len() - b) + trailing_char(rest.take(b - a), ']'),
        decreases b - a,
    {
        proof {
            let n = b - a;
            assert(rest.take(n).drop_last() =~= rest.take(n - 1));
            assert(rest.take(n).last() == v@[b - 1]);
        }
        b = b - 1;
    }
    proof {
        let n = b - a;
        if n > 0 {
            assert(rest.take(n).last() == v@[b - 1]);
        } else {
            assert(rest.take(0).len() == 0);
        }
        assert(rest.take(rest.len() - trailing_char(rest, ']')) =~= v@.subrange(a as int, b as int));
    }
    string_of_range(&v, a, b)
}

/// Whether every character of `s` is a decimal digit.
pub open spec fn all_digits(s: Seq<char>) -> bool {
    forall|i: int| 0 <= i < s.len() ==> is_decimal_digit(#[trigger] s[i])
}

/// The value of a decimal digit.
pub open spec fn digit_value(c: char) -> nat {
    (c as int - '0' as int) as nat
}

/// The value of some decimal digits.
pub open spec fn digits_value(s: Seq<char>) -> nat
    decreases s.len(),
{
    if s.len() == 0 {
        0
    } else {
        digits_value(s.drop_last()) * 10 + digit_value(s.last())
    }
}

/// `s` without a leading `+`.
pub open spec fn unsigned_part(s: Seq<char>) -> Seq<char> {
    if s.len() > 0 && s[0] == '+' {
        s.drop_first()
    } else {
        s
    }
}

/// What `str::parse` reads as an unsigned number from `s`, before the range check: an
/// optional `+`, then one or more decimal digits.
pub open spec fn unsigned_value(s: Seq<char>) -> Option<nat> {
    let d = unsigned_part(s);
    if d.len() > 0 && all_digits(d) {
        Some(digits_value(d))
    } else {
        None
    }
}

proof fn lemma_digits_step(s: Seq<char>, i: int)
    requires
        0 <= i < s.len(),
    ensures
        digits_value(s.take(i + 1)) == digits_value(s.take(i)) * 10 + digit_value(s[i]),
{
    assert(s.take(i + 1).drop_last() =~= s.take(i));
}

/// The digits `v[from..to]` as a number of at most `max`: `None` when one is not a
/// digit or the number exceeds `max`.
fn digits_at_most(v: &Vec<char>, from: usize, to: usize, max: u64) -> (r: Option<u64>)
    requires
        from <= to <= v@.len(),
    ensures
        ({
            let d = v@.subrange(from as int, to as int);
            r == if all_digits(d) && digits_value(d) <= max { Some(digits_value(d) as u64) } else { None::<u64> }
        }),
{
    let ghost d = v@.subrange(from as int, to as int);
    let mut acc: u64 = 0;
    let mut i: usize = from;
    proof {
        assert(d.take(0) =~= Seq::<char>::empty());
    }
    while i < to
        invariant
            from <= i <= to,
            to <= v@.len(),
            d == v@.subrange(from as int, to as int),
            forall|k: int| 0 <= k < i - from ==> is_decimal_digit(#[trigger] d[k]),
            acc == digits_value(d.take(i - from)),
            acc <= max,
        decreases to - i,
    {
        let c = v[i];
        proof {
            assert(d[i - from] == c);
            lemma_digits_step(d, i - from);
        }
        if !('0' <= c && c <= '9') {
            proof {
                assert(!is_decimal_digit(d[i - from]));
            }
            return None;
        }
        let digit = (c as u32 - '0' as u32) as u64;
        proof {
            assert(digit == digit_value(c));
        }
        if digit > max {
            proof {
                lemma_digits_monotone(d, i - from + 1);
            }
            return None;
        }
        if acc > (max - digit) / 10 {
            proof {
                assert(acc * 10 + digit > max) by (nonlinear_arith)
                    requires
                        acc > (max - digit) / 10,
                        digit <= max,
                ;
                lemma_digits_monotone(d, i - from + 1);
            }
            return None;
        }
        proof {
            assert(acc * 10 + digit <= max) by (nonlinear_arith)
                requires
                    acc <= (max - digit) / 10,
                    digit <= max,
            ;
        }
        acc = acc * 10 + digit;
        i = i + 1;
    }
    proof {
        assert(d.take(d.len() as int) =~= d);
    }
    Some(acc)
}

/// Reads an unsigned number of at most `max` as `str::parse` does for an unsigned
/// integer type whose largest value is `max`: `None` for anything but an optional `+`
/// and one or more digits, and for a value above `max`.
pub fn parse_unsigned(s: &str, max: u64) -> (r: Option<u64>)
    ensures
        r == match unsigned_value(s@) {
            Some(v) => if v <= max { Some(v as u64) } else { None::<u64> },
            None => None::<u64>,
        },
{
    let v = chars_of(s);
    let start: usize = if v.len() > 0 && v[0] == '+' { 1 } else { 0 };
    proof {
        assert(unsigned_part(s@) =~= v@.subrange(start as int, v@.len() as int));
    }
    if start == v.len() {
        return None;
    }
    digits_at_most(&v, start, v.len(), max)
}

/// The position of the first `.` in `s`, or its length when there is none.
pub open spec fn dot_position(s: Seq<char>) -> nat
    decreases s.len(),
{
    if s.len() == 0 || s[0] == '.' {
        0
    } else {
        1 + dot_position(s.drop_first())
    }
}

/// The value of the `k`-th digit of `f`, zero past its end.
pub open spec fn digit_at(f: Seq<char>, k: int) -> nat {
    if k < f.len() {
        digit_value(f[k])
    } else {
        0
    }
}

/// The thousandths that the fraction digits `f` (after the point) stand for, rounded
/// half up: the first three digits, and one more when the fourth is 5 or more.
pub open spec fn fraction_thousandths(f: Seq<char>) -> nat {
    100 * digit_at(f, 0) + 10 * digit_at(f, 1) + digit_at(f, 2) + if digit_at(f, 3) >= 5 { 1nat } else { 0nat }
}

/// Decimal odds written in `s`, in thousandths rounded half up: an optional `+`, digits,
/// optionally a point and more digits, with at least one digit in all.
pub open spec fn odds_value(s: Seq<char>) -> Option<nat> {
    let d = unsigned_part(s);
    let k = dot_position(d) as int;
    let whole = d.take(k);
    let frac = if k < d.len() { d.skip(k + 1) } else { Seq::<char>::empty() };
    if all_digits(whole) && all_digits(frac) && (whole.len() > 0 || frac.len() > 0) {
        Some(digits_value(whole) * 1000 + fraction_thousandths(frac))
    } else {
        None
    }
}

proof fn lemma_dot_position(s: Seq<char>)
    ensures
        dot_position(s) <= s.len(),
        forall|i: int| 0 <= i < dot_position(s) ==> #[trigger] s[i] != '.',
        dot_position(s) < s.len() ==> s[dot_position(s) as int] == '.',
    decreases s.len(),
{
    if s.len() > 0 && s[0] != '.' {
        lemma_dot_position(s.drop_first());
        assert forall|i: int| 0 <= i < dot_position(s) implies #[trigger] s[i] != '.' by {
            if i > 0 {
                assert(s[i] == s.drop_first()[i - 1]);
            }
        }
    }
}

/// The fraction digits `v[from..]` in thousandths rounded half up; `None` when one is
/// not a digit.
fn fraction_at(v: &Vec<char>, from: usize) -> (r: Option<u64>)
    requires
        from <= v@.len(),
    ensures
        ({
            let frac = v@.subrange(from as int, v@.len() as int);
            r == if all_digits(frac) { Some(fraction_thousandths(frac) as u64) } else { None::<u64> }
        }),
{
    let ghost frac = v@.subrange(from as int, v@.len() as int);
    let mut th: u64 = 0;
    let mut i: usize = from;
    let mut weight: u64 = 100;
    while i < v.len()
        invariant
            from <= i <= v@.len(),
            frac == v@.subrange(from as int, v@.len() as int),
            forall|q: int| 0 <= q < i - from ==> is_decimal_digit(#[trigger] frac[q]),
            i - from <= 3 ==> th == 100 * digit_at(frac.take(i - from), 0)
                + 10 * digit_at(frac.take(i - from), 1) + digit_at(frac.take(i - from), 2),
            i - from <= 3 ==> weight == if i - from == 0 { 100u64 } else if i - from == 1 { 10u64 } else if i - from == 2 { 1u64 } else { 0u64 },
            i - from > 3 ==> th == fraction_thousandths(frac),
            th <= 1000,
        decreases v@.len() - i,
    {
        let c = v[i];
        proof {
            assert(frac[i - from] == c);
        }
        if !('0' <= c && c <= '9') {
            proof {
                assert(!is_decimal_digit(frac[i - from]));
            }
            return None;
        }
        let digit = (c as u32 - '0' as u32) as u64;
        let n = i - from;
        if n < 3 {
            th = th + weight * digit;
            weight = weight / 10;
        } else if n == 3 {
            if digit >= 5 {
                th = th + 1;
            }
        }
        proof {
            let t = frac.take(n + 1);
            assert(t.len() == n + 1);
            assert forall|q: int| 0 <= q < n implies t[q] == frac.take(n as int)[q] by {}
            if n > 3 {
                assert(digit_at(frac, 3) == digit_value(frac[3]));
            }
        }
        i = i + 1;
    }
    proof {
        let n = v@.len() - from;
        if n <= 3 {
            assert(frac.take(n) =~= frac);
        }
    }
    Some(th)
}

/// The position of the first `.` in `v[start..]`, or the length of `v`.
fn find_dot(v: &Vec<char>, start: usize) -> (k: usize)
    requires
        start <= v@.len(),
    ensures
        start <= k <= v@.len(),
        dot_position(v@.subrange(start as int, v@.len() as int)) == k - start,
{
    let ghost d = v@.subrange(start as int, v@.len() as int);
    proof {
        lemma_dot_position(d);
    }
    let mut k: usize = start;
    while k < v.len() && v[k] != '.'
        invariant
            start <= k <= v@.len(),
            d == v@.subrange(start as int, v@.len() as int),
            forall|i: int| start <= i < k ==> #[trigger] v@[i] != '.',
        decreases v@.len() - k,
    {
        k = k + 1;
    }
    proof {
        lemma_dot_position(d);
        let p = dot_position(d) as int;
        if p < k - start {
            assert(d[p] == v@[start + p]);
        } else if p > k - start {
            assert(d[k - start] == v@[k as int]);
        }
    }
    k
}

/// Reads decimal odds (`1.85`, `2`, `+3.125`) in thousandths, rounded half up; `None`
/// for other text and for odds beyond `u32`.
#[verifier::spinoff_prover]
#[verifier::rlimit(40)]
pub fn parse_odds(s: &str) -> (r: Option<u32>)
    ensures
        r == match odds_value(s@) {
            Some(v) => if v <= u32::MAX { Some(v as u32) } else { None::<u32> },
            None => None::<u32>,
        },
{
    let v = chars_of(s);
    let start: usize = if v.len() > 0 && v[0] == '+' { 1 } else { 0 };
    let ghost d = unsigned_part(s@);
    proof {
        assert(d =~= v@.subrange(start as int, v@.len() as int));
        lemma_dot_position(d);
    }
    let k = find_dot(&v, start);
    let ghost whole = d.take(k - start);
    let ghost frac = if k < v.len() { d.skip(k - start + 1) } else { Seq::<char>::empty() };
    proof {
        assert(whole =~= v@.subrange(start as int, k as int));
    }
    let int_part = match digits_at_most(&v, start, k, 4294967) {
        Some(n) => n,
        None => {
            return None;
        },
    };
    let frac_from: usize = if k < v.len() { k + 1 } else { k };
    proof {
        assert(frac =~= v@.subrange(frac_from as int, v@.len() as int));
    }
    let th = match fraction_at(&v, frac_from) {
        Some(th) => th,
        None => {
            return None;
        },
    };
    if whole_is_empty(k, start) && frac_from == v.len() {
        return None;
    }
    let total = int_part * 1000 + th;
    if total > 4294967295 {
        return None;
    }
    Some(total as u32)
}

fn whole_is_empty(k: usize, start: usize) -> (r: bool)
    ensures
        r == (k == start),
{
    k == start
}

/// A number that starts with some digits is at least their value.
proof fn lemma_digits_monotone(s: Seq<char>, n: int)
    requires
        0 <= n <= s.len(),
    ensures
        digits_value(s.take(n)) <= digits_value(s),
    decreases s.len() - n,
{
    if n < s.len() {
        lemma_digits_monotone(s, n + 1);
        lemma_digits_step(s, n);
    } else {
        assert(s.take(n) =~= s);
    }
}


/// The pieces of `s` between the occurrences of `sep` (`str::split` by a character):
/// one piece more than there are separators.
pub open spec fn split_on(s: Seq<char>, sep: char) -> Seq<Seq<char>>
    decreases s.len(),
{
    if s.len() == 0 {
        seq![Seq::<char>::empty()]
    } else {
        let prev = split_on(s.drop_last(), sep);
        if s.last() == sep {
            prev.push(Seq::<char>::empty())
        } else {
            prev.update(prev.len() - 1, prev.last().push(s.last()))
        }
    }
}

pub proof fn lemma_split_nonempty(s: Seq<char>, sep: char)
    ensures
        split_on(s, sep).len() > 0,
    decreases s.len(),
{
    if s.len() > 0 {
        lemma_split_nonempty(s.drop_last(), sep);
    }
}

/// The views of some strings.
pub open spec fn string_views(v: Seq<String>) -> Seq<Seq<char>> {
    v.map_values(|t: String| t@)
}

/// Splits `s` at every `sep` (`str::split` by a character).
pub fn split(s: &str, sep: char) -> (r: Vec<String>)
    ensures
        string_views(r@) == split_on(s@, sep),
{
    let v = chars_of(s);
    let mut done: Vec<String> = Vec::new();
    let mut cur: Vec<char> = Vec::new();
    let mut i: usize = 0;
    proof {
        assert(s@.take(0) =~= Seq::<char>::empty());
        assert(string_views(done@).push(cur@) =~= split_on(s@.take(0), sep));
    }
    while i < v.len()
        invariant
            v@ == s@,
            i <= v@.len(),
            string_views(done@).push(cur@) == split_on(s@.take(i as int), sep),
        decreases v@.len() - i,
    {
        let c = v[i];
        let ghost before = string_views(done@).push(cur@);
        proof {
            let t = s@.take(i + 1);
            assert(t.drop_last() =~= s@.take(i as int));
            assert(t.last() == c);
            lemma_split_nonempty(s@.take(i as int), sep);
        }
        if c == sep {
            let piece = string_from_chars(cur);
            done.push(piece);
            cur = Vec::new();
            proof {
                assert(string_views(done@).push(cur@) =~= before.push(Seq::<char>::empty()));
            }
        } else {
            cur.push(c);
            proof {
                assert(string_views(done@).push(cur@) =~= before.update(before.len() - 1, before.last().push(c)));
            }
        }
        i = i + 1;
    }
    proof {
        assert(s@.take(v@.len() as int) =~= s@);
    }
    let last = string_from_chars(cur);
    done.push(last);
    proof {
        assert(string_views(done@) =~= split_on(s@, sep));
    }
    done
}


/// Whether `s` ends with `suffix`.
pub open spec fn ends_with(s: Seq<char>, suffix: Seq<char>) -> bool {
    suffix.len() <= s.len() && s.skip(s.len() - suffix.len()) == suffix
}

/// `s` without as many copies of `p` as it starts with (`str::trim_start_matches`).
pub open spec fn strip_prefixes(s: Seq<char>, p: Seq<char>) -> Seq<char>
    decreases s.len(),
{
    if p.len() > 0 && begins_with(s, p) {
        strip_prefixes(s.skip(p.len() as int), p)
    } else {
        s
    }
}

/// `s` without as many copies of `p` as it ends with (`str::trim_end_matches`).
pub open spec fn strip_suffixes(s: Seq<char>, p: Seq<char>) -> Seq<char>
    decreases s.len(),
{
    if p.len() > 0 && ends_with(s, p) {
        strip_suffixes(s.take(s.len() - p.len()), p)
    } else {
        s
    }
}

/// `s` without the copies of `prefix` it starts with and then of `suffix` it ends with.
pub fn strip_around(s: &str, prefix: &str, suffix: &str) -> (r: String)
    ensures
        r@ == strip_suffixes(strip_prefixes(s@, prefix@), suffix@),
{
    let v = chars_of(s);
    let p = chars_of(prefix);
    let q = chars_of(suffix);
    let mut a: usize = 0;
    proof {
        assert(s@.skip(0) =~= s@);
    }
    while p.len() > 0 && p.len() <= v.len() - a && matches_at(&v, &p, a)
        invariant
            v@ == s@,
            p@ == prefix@,
            a <= v@.len(),
            strip_prefixes(s@, prefix@) == strip_prefixes(s@.skip(a as int), prefix@),
        decreases v@.len() - a,
    {
        proof {
            let t = s@.skip(a as int);
            assert(t.take(p@.len() as int) =~= s@.subrange(a as int, a + p@.len()));
            assert(begins_with(t, prefix@));
            assert(t.skip(p@.len() as int) =~= s@.skip(a + p@.len()));
        }
        a = a + p.len();
    }
    proof {
        let t = s@.skip(a as int);
        if p@.len() > 0 && a + p@.len() <= v@.len() {
            assert(t.take(p@.len() as int) =~= s@.subrange(a as int, a + p@.len()));
        }
        if p@.len() > 0 && begins_with(t, prefix@) {
            assert(t.take(p@.len() as int) =~= s@.subrange(a as int, a + p@.len()));
        }
        assert(strip_prefixes(t, prefix@) == t);
    }
    let ghost mid = s@.skip(a as int);
    let mut b: usize = v.len();
    proof {
        assert(mid.take(mid.len() as int) =~= mid);
    }
    while q.len() > 0 && q.len() <= b - a && matches_at(&v, &q, b - q.len())
        invariant
            v@ == s@,
            q@ == suffix@,
            a <= b <= v@.len(),
            mid == s@.skip(a as int),
            strip_suffixes(mid, suffix@) == strip_suffixes(mid.take(b - a), suffix@),
        decreases b - a,
    {
        proof {
            let t = mid.take(b - a);
            assert(t.skip(t.len() - q@.len()) =~= s@.subrange(b - q@.len(), b as int));
            assert(ends_with(t, suffix@));
            assert(t.take(t.len() - q@.len()) =~= mid.take(b - q@.len() - a));
        }
        b = b - q.len();
    }
    proof {
        let t = mid.take(b - a);
        if q@.len() > 0 && ends_with(t, suffix@) {
            assert(t.skip(t.len() - q@.len()) =~= s@.subrange(b - q@.len(), b as int));
        }
        assert(strip_suffixes(t, suffix@) == t);
        assert(t =~= v@.subrange(a as int, b as int));
    }
    string_of_range(&v, a, b)
}

/// The position of the first `c` in `s`, or its length when there is none.
pub open spec fn char_position(s: Seq<char>, c: char) -> nat
    decreases s.len(),
{
    if s.len() == 0 || s[0] == c {
        0
    } else {
        1 + char_position(s.drop_first(), c)
    }
}

proof fn lemma_char_position(s: Seq<char>, c: char)
    ensures
        char_position(s, c) <= s.len(),
        char_position(s, c) < s.len() ==> s[char_position(s, c) as int] == c,
        forall|i: int| 0 <= i < char_position(s, c) ==> s[i] != c,
    decreases s.len(),
{
    if s.len() > 0 && s[0] != c {
        lemma_char_position(s.drop_first(), c);
        assert forall|i: int| 0 <= i < char_position(s, c) implies s[i] != c by {
            if i > 0 {
                assert(s[i] == s.drop_first()[i - 1]);
            }
        }
    }
}

/// `s` before the first `c` and after it; none when `c` does not occur.
pub open spec fn split_once(s: Seq<char>, c: char) -> Option<(Seq<char>, Seq<char>)> {
    let k = char_position(s, c);
    if k < s.len() {
        Some((s.take(k as int), s.skip(k as int + 1)))
    } else {
        None
    }
}

/// Splits `s` at its first `c` (`str::split_once` by a character).
pub fn split_once_at(s: &str, c: char) -> (r: Option<(String, String)>)
    ensures
        match split_once(s@, c) {
            Some((a, b)) => r matches Some((x, y)) && x@ == a && y@ == b,
            None => r is None,
        },
{
    let v = chars_of(s);
    proof {
        lemma_char_position(s@, c);
    }
    let mut k: usize = 0;
    while k < v.len() && v[k] != c
        invariant
            v@ == s@,
            k <= v@.len(),
            forall|i: int| 0 <= i < k ==> v@[i] != c,
        decreases v@.len() - k,
    {
        k = k + 1;
    }
    proof {
        let p = char_position(s@, c) as int;
        if p < k {
            assert(v@[p] == c);
        } else if p > k {
            assert(v@[k as int] == c);
        }
    }
    if k == v.len() {
        return None;
    }
    let a = string_of_range(&v, 0, k);
    let b = string_of_range(&v, k + 1, v.len());
    proof {
        assert(a@ =~= s@.take(k as int));
        assert(b@ =~= s@.skip(k + 1));
    }
    Some((a, b))
}

} // verus!
