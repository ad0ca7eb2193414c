//! Text as sequences of characters: lines, words and decimal numbers.
use crate::cost::{Cost, INFINITY};
use vstd::prelude::*;
use vstd::slice::slice_subrange;

verus! {

/// The characters of a string.
pub fn chars_of(s: &str) -> (r: Vec<char>)
    ensures
        r@ == s@,
{
    let mut r: Vec<char> = Vec::new();
    for c in it: s.chars()
        invariant
            r@ == s@.take(it.index() as int),
            it.seq() == s@,
    {
        r.push(c);
    }
    proof {
        assert(s@.take(s@.len() as int) =~= s@);
    }
    r
}

/// Whitespace: the characters of the Unicode property `White_Space`.
pub open spec fn is_white(c: char) -> bool {
    ||| '\u{9}' <= c <= '\u{d}'
    ||| c == ' '
    ||| c == '\u{85}'
    ||| c == '\u{a0}'
    ||| c == '\u{1680}'
    ||| '\u{2000}' <= c <= '\u{200a}'
    ||| c == '\u{2028}'
    ||| c == '\u{2029}'
    ||| c == '\u{202f}'
    ||| c == '\u{205f}'
    ||| c == '\u{3000}'
}

/// [`is_white`].
pub fn white(c: char) -> (r: bool)
    ensures
        r == is_white(c),
{
    ('\u{9}' <= c && c <= '\u{d}') || c == ' ' || c == '\u{85}' || c == '\u{a0}' || c == '\u{1680}'
        || ('\u{2000}' <= c && c <= '\u{200a}') || c == '\u{2028}' || c == '\u{2029}' || c
        == '\u{202f}' || c == '\u{205f}' || c == '\u{3000}'
}

// ---------------------------------------------------------------------------
// Trimming, lines and words
// ---------------------------------------------------------------------------

/// `s` without leading whitespace.
pub open spec fn trimmed_start(s: Seq<char>) -> Seq<char>
    decreases s.len(),
{
    if s.len() > 0 && is_white(s[0]) {
        trimmed_start(s.skip(1))
    } else {
        s
    }
}

/// `s` without trailing whitespace.
pub open spec fn trimmed_end(s: Seq<char>) -> Seq<char>
    decreases s.len(),
{
    if s.len() > 0 && is_white(s.last()) {
        trimmed_end(s.drop_last())
    } else {
        s
    }
}

/// `s` without whitespace at its ends.
pub open spec fn trimmed(s: Seq<char>) -> Seq<char> {
    trimmed_end(trimmed_start(s))
}

/// [`trimmed`].
pub fn trim(s: &[char]) -> (r: &[char])
    ensures
        r@ == trimmed(s@),
{
    let n: usize = s.len();
    let mut i: usize = 0;
    proof {
        assert(s@.skip(0) =~= s@);
    }
    while i < n && white(s[i])
        invariant
            i <= n == s@.len(),
            trimmed_start(s@) == trimmed_start(s@.skip(i as int)),
        decreases n - i,
    {
        proof {
            assert(s@.skip(i as int)[0] == s@[i as int]);
            assert(s@.skip(i as int).skip(1) =~= s@.skip(i + 1));
        }
        i += 1;
    }
    let ghost start = s@.skip(i as int);
    proof {
        if i < n {
            assert(start[0] == s@[i as int]);
        }
        assert(trimmed_start(s@) == start);
        assert(s@.subrange(i as int, n as int) =~= start);
    }
    let mut j: usize = n;
    while j > i && white(s[j - 1])
        invariant
            i <= j <= n == s@.len(),
            trimmed_end(start) == trimmed_end(s@.subrange(i as int, j as int)),
        decreases j,
    {
        proof {
            let here = s@.subrange(i as int, j as int);
            assert(here.last() == s@[j - 1]);
            assert(here.drop_last() =~= s@.subrange(i as int, j - 1));
        }
        j -= 1;
    }
    proof {
        if j > i {
            assert(s@.subrange(i as int, j as int).last() == s@[j - 1]);
        }
    }
    slice_subrange(s, i, j)
}

/// Where the line that starts at `i` ends.
pub open spec fn line_end(s: Seq<char>, i: int) -> int
    decreases s.len() - i,
{
    if i >= s.len() {
        s.len() as int
    } else if s[i] == '\n' {
        i
    } else {
        line_end(s, i + 1)
    }
}

/// A line that a line feed ended, without the carriage return before it.
pub open spec fn chomped(line: Seq<char>) -> Seq<char> {
    if line.len() > 0 && line.last() == '\r' {
        line.drop_last()
    } else {
        line
    }
}

/// The lines from `i` on.
pub open spec fn lines_from(s: Seq<char>, i: int) -> Seq<Seq<char>>
    decreases s.len() - i,
{
    if i < 0 || i >= s.len() {
        Seq::empty()
    } else {
        let e = line_end(s, i);
        let line = s.subrange(i, e);
        if i <= e < s.len() {
            seq![chomped(line)] + lines_from(s, e + 1)
        } else {
            seq![line]
        }
    }
}

/// The line that starts at `i`, and where the next one does.
pub fn next_line(s: &[char], i: usize) -> (r: (&[char], usize))
    requires
        i < s@.len(),
    ensures
        i < r.1 <= s@.len() + 1,
        r.1 <= s@.len() || line_end(s@, i as int) == s@.len(),
        lines_from(s@, i as int) == seq![r.0@] + lines_from(s@, r.1 as int),
{
    let n: usize = s.len();
    let mut e: usize = i;
    while e < n && s[e] != '\n'
        invariant
            i <= e <= n == s@.len(),
            line_end(s@, i as int) == line_end(s@, e as int),
        decreases n - e,
    {
        e += 1;
    }
    let line: &[char] = slice_subrange(s, i, e);
    if e == n {
        proof {
            assert(lines_from(s@, n as int) =~= Seq::empty());
            assert(seq![line@] + lines_from(s@, n as int) =~= seq![line@]);
        }
        return (line, n);
    }
    let m: usize = line.len();
    if m > 0 && line[m - 1] == '\r' {
        let cut: &[char] = slice_subrange(line, 0, m - 1);
        proof {
            assert(cut@ =~= line@.drop_last());
        }
        return (cut, e + 1);
    }
    (line, e + 1)
}

/// Where the word that starts at `i` ends.
pub open spec fn word_end(s: Seq<char>, i: int) -> int
    decreases s.len() - i,
{
    if i >= s.len() {
        s.len() as int
    } else if is_white(s[i]) {
        i
    } else {
        word_end(s, i + 1)
    }
}

/// The words from `i` on: what whitespace separates.
pub open spec fn words_from(s: Seq<char>, i: int) -> Seq<Seq<char>>
    decreases s.len() - i,
{
    if i < 0 || i >= s.len() {
        Seq::empty()
    } else if is_white(s[i]) {
        words_from(s, i + 1)
    } else {
        let e = word_end(s, i);
        if i < e <= s.len() {
            seq![s.subrange(i, e)] + words_from(s, e)
        } else {
            Seq::empty()
        }
    }
}

/// The words of `s`.
pub fn words(s: &[char]) -> (r: Vec<&[char]>)
    ensures
        r@.len() == words_from(s@, 0).len(),
        forall|k: int| 0 <= k < r@.len() ==> (#[trigger] r@[k])@ == words_from(s@, 0)[k],
{
    let n: usize = s.len();
    let ghost all = words_from(s@, 0);
    let mut r: Vec<&[char]> = Vec::new();
    let mut i: usize = 0;
    let ghost mut done: Seq<Seq<char>> = Seq::empty();
    proof {
        assert(done + words_from(s@, 0) =~= all);
    }
    while i < n
        invariant
            i <= n == s@.len(),
            all == done + words_from(s@, i as int),
            r@.len() == done.len(),
            forall|k: int| 0 <= k < r@.len() ==> (#[trigger] r@[k])@ == done[k],
        decreases n - i,
    {
        if white(s[i]) {
            i += 1;
            continue;
        }
        let mut e: usize = i + 1;
        while e < n && !white(s[e])
            invariant
                i < e <= n == s@.len(),
                word_end(s@, i as int) == word_end(s@, e as int),
            decreases n - e,
        {
            e += 1;
        }
        let word: &[char] = slice_subrange(s, i, e);
        r.push(word);
        proof {
            assert(word_end(s@, i as int) == e);
            assert(words_from(s@, i as int) == seq![word@] + words_from(s@, e as int));
            assert(done + words_from(s@, i as int) =~= done.push(word@) + words_from(
                s@,
                e as int,
            ));
            done = done.push(word@);
        }
        i = e;
    }
    proof {
        assert(words_from(s@, n as int) =~= Seq::empty());
        assert(all =~= done);
    }
    r
}

/// `s` begins with `p`.
pub open spec fn begins_with(s: Seq<char>, p: Seq<char>) -> bool {
    p.len() <= s.len() && s.take(p.len() as int) == p
}

/// `p` occurs in `s`.
pub open spec fn has_part(s: Seq<char>, p: Seq<char>) -> bool {
    exists|i: int| 0 <= i <= s.len() && #[trigger] begins_with(s.skip(i), p)
}

/// [`begins_with`], from position `at` on.
fn matches_at(s: &[char], at: usize, p: &[char]) -> (r: bool)
    requires
        at <= s@.len(),
    ensures
        r == begins_with(s@.skip(at as int), p@),
{
    let n: usize = p.len();
    let total: usize = s.len();
    if total - at < n {
        return false;
    }
    let ghost rest = s@.skip(at as int);
    let mut k: usize = 0;
    while k < n
        invariant
            k <= n == p@.len(),
            at + n <= s@.len() == total,
            rest == s@.skip(at as int),
            forall|q: int| 0 <= q < k ==> rest[q] == #[trigger] p@[q],
        decreases n - k,
    {
        if s[at + k] != p[k] {
            proof {
                assert(rest.take(n as int)[k as int] != p@[k as int]);
            }
            return false;
        }
        k += 1;
    }
    proof {
        assert(rest.take(n as int) =~= p@);
    }
    true
}

/// [`begins_with`].
pub fn starts_with(s: &[char], p: &[char]) -> (r: bool)
    ensures
        r == begins_with(s@, p@),
{
    proof {
        assert(s@.skip(0) =~= s@);
    }
    matches_at(s, 0, p)
}

/// [`has_part`].
pub fn contains(s: &[char], p: &[char]) -> (r: bool)
    ensures
        r == has_part(s@, p@),
{
    let n: usize = s.len();
    let mut i: usize = 0;
    loop
        invariant
            i <= n == s@.len(),
            forall|q: int| 0 <= q < i ==> !#[trigger] begins_with(s@.skip(q), p@),
        decreases n - i,
    {
        if matches_at(s, i, p) {
            assert(begins_with(s@.skip(i as int), p@));
            return true;
        }
        if i == n {
            proof {
                assert forall|q: int| 0 <= q <= s@.len() implies !#[trigger] begins_with(
                    s@.skip(q),
                    p@,
                ) by {}
            }
            return false;
        }
        i += 1;
    }
}

/// The code of a character, capital letters of the ASCII alphabet taken as
/// small ones.
pub open spec fn small(c: char) -> int {
    if 'A' <= c <= 'Z' {
        c as int + 32
    } else {
        c as int
    }
}

/// Two texts are the same but for the case of ASCII letters.
pub open spec fn same_word(a: Seq<char>, b: Seq<char>) -> bool {
    a.len() == b.len() && forall|k: int| 0 <= k < a.len() ==> small(#[trigger] a[k]) == small(b[k])
}

fn small_code(c: char) -> (r: u32)
    ensures
        r == small(c),
{
    if 'A' <= c && c <= 'Z' {
        c as u32 + 32
    } else {
        c as u32
    }
}

/// [`same_word`].
pub fn eq_word(a: &[char], b: &[char]) -> (r: bool)
    ensures
        r == same_word(a@, b@),
{
    if a.len() != b.len() {
        return false;
    }
    let mut k: usize = 0;
    while k < a.len()
        invariant
            k <= a@.len() == b@.len(),
            forall|q: int| 0 <= q < k ==> small(#[trigger] a@[q]) == small(b@[q]),
        decreases a@.len() - k,
    {
        if small_code(a[k]) != small_code(b[k]) {
            return false;
        }
        k += 1;
    }
    true
}

// ---------------------------------------------------------------------------
// Numbers
// ---------------------------------------------------------------------------

/// A number as written.
#[derive(Debug, Clone, Copy, PartialEq, Eq)]
pub enum Decimal {
    /// The nearest amount, halves away from zero.
    Finite(Cost),
    /// Infinity, or minus infinity where `negative`.
    Infinite { negative: bool },
    /// The word `nan`.
    NotANumber,
    /// A number too large to hold.
    TooLarge,
}

/// A decimal digit.
pub open spec fn is_digit(c: char) -> bool {
    '0' <= c <= '9'
}

/// The value of a digit.
pub open spec fn digit(c: char) -> int {
    c as int - 48
}

/// Where the digits from `i` on end.
pub open spec fn digits_end(s: Seq<char>, i: int) -> int
    decreases s.len() - i,
{
    if i >= s.len() {
        s.len() as int
    } else if is_digit(s[i]) {
        digits_end(s, i + 1)
    } else {
        i
    }
}

/// More than the exponent of any number that is not zero or too large.
pub const EXPONENT_CAP: i128 = 1_000_000_000_000_000_000_000_000;

/// The number that the digits `s[i..j]` write, at most [`EXPONENT_CAP`].
pub open spec fn exponent_value(s: Seq<char>, i: int, j: int) -> int
    decreases j - i,
{
    if j <= i {
        0
    } else {
        let v = exponent_value(s, i, j - 1) * 10 + digit(s[j - 1]);
        if v > EXPONENT_CAP {
            EXPONENT_CAP as int
        } else {
            v
        }
    }
}

/// The whole number that the first `k` of `digits` write, zeros following the
/// last one.
pub open spec fn leading(digits: Seq<char>, k: int) -> int
    decreases k,
{
    if k <= 0 {
        0
    } else {
        leading(digits, k - 1) * 10 + (if k - 1 < digits.len() {
            digit(digits[k - 1])
        } else {
            0
        })
    }
}

/// The whole number nearest to the number whose decimal point stands behind
/// the first `k` of `digits`, halves rounded up.
pub open spec fn rounded(digits: Seq<char>, k: int) -> int {
    leading(digits, k) + (if 0 <= k < digits.len() && digit(digits[k]) >= 5 {
        1int
    } else {
        0
    })
}

/// `s[i..]` is an exponent: nothing, or `e`, a sign and digits.
pub open spec fn exponent(s: Seq<char>, i: int) -> Option<int> {
    if i == s.len() {
        Some(0)
    } else if s[i] != 'e' && s[i] != 'E' {
        None
    } else {
        let signed = i + 1 < s.len() && (s[i + 1] == '+' || s[i + 1] == '-');
        let from = if signed {
            i + 2
        } else {
            i + 1
        };
        if from < s.len() && digits_end(s, from) == s.len() {
            let v = exponent_value(s, from, s.len() as int);
            Some(
                if signed && s[i + 1] == '-' {
                    -v
                } else {
                    v
                },
            )
        } else {
            None
        }
    }
}

/// The number that `s`, without a sign, writes, in millionths.
pub open spec fn unsigned(s: Seq<char>) -> Option<int> {
    let whole = digits_end(s, 0);
    let dotted = whole < s.len() && s[whole] == '.';
    let end = if dotted {
        digits_end(s, whole + 1)
    } else {
        whole
    };
    let digits = if dotted {
        s.take(whole) + s.subrange(whole + 1, end)
    } else {
        s.take(whole)
    };
    if digits.len() == 0 {
        None
    } else {
        match exponent(s, end) {
            Some(e) => Some(rounded(digits, whole + e + 6)),
            None => None,
        }
    }
}

/// What `s` writes: a number with or without a sign, a point and an exponent,
/// an infinity, or `nan`.
pub open spec fn decimal(s: Seq<char>) -> Option<Decimal> {
    let signed = s.len() > 0 && (s[0] == '+' || s[0] == '-');
    let negative = signed && s[0] == '-';
    let body = if signed {
        s.skip(1)
    } else {
        s
    };
    if same_word(body, "inf"@) || same_word(body, "infinity"@) {
        Some(Decimal::Infinite { negative })
    } else if same_word(body, "nan"@) {
        Some(Decimal::NotANumber)
    } else {
        match unsigned(body) {
            Some(v) => if v >= INFINITY {
                Some(Decimal::TooLarge)
            } else if negative {
                Some(Decimal::Finite((-v) as Cost))
            } else {
                Some(Decimal::Finite(v as Cost))
            },
            None => None,
        }
    }
}

fn end_of_digits(s: &[char], i: usize) -> (r: usize)
    requires
        i <= s@.len(),
    ensures
        r == digits_end(s@, i as int),
        i <= r <= s@.len(),
        forall|k: int| i <= k < r ==> is_digit(#[trigger] s@[k]),
{
    let mut e: usize = i;
    while e < s.len() && '0' <= s[e] && s[e] <= '9'
        invariant
            i <= e <= s@.len(),
            digits_end(s@, i as int) == digits_end(s@, e as int),
            forall|k: int| i <= k < e ==> is_digit(#[trigger] s@[k]),
        decreases s@.len() - e,
    {
        e += 1;
    }
    e
}

/// [`exponent`].
fn parse_exponent(s: &[char], i: usize) -> (r: Option<i128>)
    requires
        i <= s@.len(),
    ensures
        r is None <==> exponent(s@, i as int) is None,
        r matches Some(e) ==> exponent(s@, i as int) == Some(e as int) && -EXPONENT_CAP <= e
            <= EXPONENT_CAP,
{
    let n: usize = s.len();
    if i == n {
        return Some(0);
    }
    if s[i] != 'e' && s[i] != 'E' {
        return None;
    }
    let mut from: usize = i + 1;
    let mut negative: bool = false;
    if from < n && (s[from] == '+' || s[from] == '-') {
        negative = s[from] == '-';
        from += 1;
    }
    if from >= n {
        return None;
    }
    let end: usize = end_of_digits(s, from);
    if end != n {
        return None;
    }
    let mut v: i128 = 0;
    let mut k: usize = from;
    while k < n
        invariant
            from <= k <= n == s@.len(),
            0 <= v <= EXPONENT_CAP,
            v == exponent_value(s@, from as int, k as int),
            forall|q: int| from <= q < n ==> is_digit(#[trigger] s@[q]),
        decreases n - k,
    {
        assert(is_digit(s@[k as int]));
        let d: i128 = (s[k] as u32) as i128 - 48;
        v = v * 10 + d;
        if v > EXPONENT_CAP {
            v = EXPONENT_CAP;
        }
        k += 1;
    }
    if negative {
        Some(-v)
    } else {
        Some(v)
    }
}

proof fn lemma_leading_grows(digits: Seq<char>, k: int, m: int)
    requires
        k <= m,
        forall|q: int| 0 <= q < digits.len() ==> is_digit(#[trigger] digits[q]),
    ensures
        0 <= leading(digits, k) <= leading(digits, m),
    decreases m - k,
{
    if k < m {
        lemma_leading_grows(digits, k, m - 1);
        if 0 <= m - 1 < digits.len() {
            assert(is_digit(digits[m - 1]));
        }
    } else if k > 0 {
        lemma_leading_non_negative(digits, k);
    }
}

proof fn lemma_leading_non_negative(digits: Seq<char>, k: int)
    requires
        forall|q: int| 0 <= q < digits.len() ==> is_digit(#[trigger] digits[q]),
    ensures
        0 <= leading(digits, k),
    decreases k,
{
    if k > 0 {
        lemma_leading_non_negative(digits, k - 1);
        if k - 1 < digits.len() {
            assert(is_digit(digits[k - 1]));
        }
    }
}

proof fn lemma_leading_zero(digits: Seq<char>, k: int, m: int)
    requires
        digits.len() <= k <= m,
        leading(digits, k) == 0,
    ensures
        leading(digits, m) == 0,
    decreases m - k,
{
    if k < m {
        lemma_leading_zero(digits, k, m - 1);
    }
}

/// [`rounded`], `None` where it is [`INFINITY`] or more.
fn round_digits(digits: &[char], keep: i128) -> (r: Option<Cost>)
    requires
        forall|q: int| 0 <= q < digits@.len() ==> is_digit(#[trigger] digits@[q]),
    ensures
        r is None <==> rounded(digits@, keep as int) >= INFINITY,
        r matches Some(v) ==> v == rounded(digits@, keep as int) && 0 <= v,
{
    let len: usize = digits.len();
    let n: i128 = len as i128;
    let limit: i128 = INFINITY as i128;
    let mut acc: i128 = 0;
    let mut k: i128 = 0;
    while k < keep
        invariant
            n == len == digits@.len(),
            limit == INFINITY,
            forall|q: int| 0 <= q < digits@.len() ==> is_digit(#[trigger] digits@[q]),
            0 <= k,
            keep >= 0 ==> k <= keep,
            keep < 0 ==> k == 0,
            acc == leading(digits@, k as int),
            0 <= acc < limit,
        decreases keep - k,
    {
        if k >= n && acc == 0 {
            proof {
                lemma_leading_zero(digits@, k as int, keep as int);
            }
            return Some(0);
        }
        let d: i128 = if k < n {
            assert(is_digit(digits@[k as int]));
            (digits[k as usize] as u32) as i128 - 48
        } else {
            0
        };
        acc = acc * 10 + d;
        k += 1;
        if acc >= limit {
            proof {
                lemma_leading_grows(digits@, k as int, keep as int);
            }
            return None;
        }
    }
    proof {
        if keep < 0 {
            assert(leading(digits@, keep as int) == 0);
        }
        assert(acc == leading(digits@, keep as int));
    }
    if 0 <= keep && keep < n {
        assert(is_digit(digits@[keep as int]));
        let next: i128 = (digits[keep as usize] as u32) as i128 - 48;
        if next >= 5 {
            acc += 1;
        }
    }
    if acc >= limit {
        return None;
    }
    Some(acc as i64)
}

/// The digits `s[..whole]` and, behind a point, `s[whole + 1..end]`.
fn digits_around(s: &[char], whole: usize, end: usize) -> (r: Vec<char>)
    requires
        whole == end || whole + 1 <= end,
        end <= s@.len(),
    ensures
        r@ == (if whole < end {
            s@.take(whole as int) + s@.subrange(whole + 1, end as int)
        } else {
            s@.take(whole as int)
        }),
{
    let mut r: Vec<char> = Vec::new();
    let mut k: usize = 0;
    while k < whole
        invariant
            k <= whole <= s@.len(),
            r@ == s@.take(k as int),
        decreases whole - k,
    {
        r.push(s[k]);
        proof {
            assert(s@.take(k + 1) =~= s@.take(k as int).push(s@[k as int]));
        }
        k += 1;
    }
    if whole < end {
        let ghost front = s@.take(whole as int);
        let mut k: usize = whole + 1;
        proof {
            assert(front + s@.subrange(whole + 1, whole + 1) =~= front);
        }
        while k < end
            invariant
                whole + 1 <= k <= end <= s@.len(),
                r@ == front + s@.subrange(whole + 1, k as int),
            decreases end - k,
        {
            r.push(s[k]);
            proof {
                assert(front + s@.subrange(whole + 1, k + 1) =~= (front + s@.subrange(
                    whole + 1,
                    k as int,
                )).push(s@[k as int]));
            }
            k += 1;
        }
    }
    r
}

/// [`unsigned`]; a number too large to hold is `Some(None)`.
fn parse_unsigned(s: &[char]) -> (r: Option<Option<Cost>>)
    ensures
        r == (match unsigned(s@) {
            Some(v) => Some(
                if v >= INFINITY {
                    None
                } else {
                    Some(v as Cost)
                },
            ),
            None => None,
        }),
        unsigned(s@) matches Some(v) ==> 0 <= v,
{
    let whole: usize = end_of_digits(s, 0);
    let mut end: usize = whole;
    let dotted: bool = whole < s.len() && s[whole] == '.';
    if dotted {
        end = end_of_digits(s, whole + 1);
    }
    let digits: Vec<char> = digits_around(s, whole, end);
    proof {
        assert forall|q: int| 0 <= q < digits@.len() implies is_digit(#[trigger] digits@[q]) by {
            if q < whole {
                assert(digits@[q] == s@[q]);
            } else {
                assert(digits@[q] == s@[q + 1]);
            }
        }
    }
    if digits.len() == 0 {
        return None;
    }
    match parse_exponent(s, end) {
        Some(e) => Some(round_digits(digits.as_slice(), whole as i128 + e + 6)),
        None => None,
    }
}

/// [`decimal`].
pub fn parse_decimal(s: &[char]) -> (r: Option<Decimal>)
    ensures
        r == decimal(s@),
{
    let n: usize = s.len();
    let mut negative: bool = false;
    let mut from: usize = 0;
    if n > 0 && (s[0] == '+' || s[0] == '-') {
        negative = s[0] == '-';
        from = 1;
    }
    let body: &[char] = slice_subrange(s, from, n);
    proof {
        if from == 0 {
            assert(body@ =~= s@);
        } else {
            assert(body@ =~= s@.skip(1));
        }
    }
    let inf: Vec<char> = chars_of("inf");
    let infinity: Vec<char> = chars_of("infinity");
    let nan: Vec<char> = chars_of("nan");
    if eq_word(body, inf.as_slice()) || eq_word(body, infinity.as_slice()) {
        return Some(Decimal::Infinite { negative });
    }
    if eq_word(body, nan.as_slice()) {
        return Some(Decimal::NotANumber);
    }
    match parse_unsigned(body) {
        Some(Some(v)) => if negative {
            Some(Decimal::Finite(-v))
        } else {
            Some(Decimal::Finite(v))
        },
        Some(None) => Some(Decimal::TooLarge),
        None => None,
    }
}

/// The number that the digits of `s` write.
pub open spec fn digits_value(s: Seq<char>) -> int
    decreases s.len(),
{
    if s.len() == 0 {
        0
    } else {
        10 * digits_value(s.drop_last()) + digit(s.last())
    }
}

/// The text is digits, and there is one.
pub open spec fn all_digits(s: Seq<char>) -> bool {
    s.len() > 0 && forall|i: int| 0 <= i < s.len() ==> is_digit(#[trigger] s[i])
}

/// The text without a leading sign.
pub open spec fn without_sign(s: Seq<char>) -> Seq<char> {
    if s.len() > 0 && (s[0] == '+' || s[0] == '-') {
        s.skip(1)
    } else {
        s
    }
}

/// The whole number a text writes, with or without a sign, if it fits.
pub open spec fn whole_number(s: Seq<char>) -> Option<i32> {
    let body = without_sign(s);
    let size = digits_value(body);
    let value = if s.len() > 0 && s[0] == '-' {
        -size
    } else {
        size
    };
    if all_digits(body) && i32::MIN <= value <= i32::MAX {
        Some(value as i32)
    } else {
        None
    }
}

proof fn lemma_digits_rise(s: Seq<char>, k: int)
    requires
        0 <= k <= s.len(),
        forall|i: int| 0 <= i < s.len() ==> is_digit(#[trigger] s[i]),
    ensures
        0 <= digits_value(s.take(k)) <= digits_value(s),
    decreases s.len() - k,
{
    if k == s.len() {
        assert(s.take(k) =~= s);
        lemma_digits_not_negative(s);
    } else {
        lemma_digits_rise(s, k + 1);
        let next = s.take(k + 1);
        assert(next.drop_last() =~= s.take(k));
        assert(is_digit(s[k]));
        lemma_digits_not_negative(s.take(k));
    }
}

proof fn lemma_digits_not_negative(s: Seq<char>)
    requires
        forall|i: int| 0 <= i < s.len() ==> is_digit(#[trigger] s[i]),
    ensures
        digits_value(s) >= 0,
    decreases s.len(),
{
    if s.len() > 0 {
        lemma_digits_not_negative(s.drop_last());
        assert(is_digit(s[s.len() - 1]));
    }
}

/// [`whole_number`].
pub fn parse_whole(s: &[char]) -> (r: Option<i32>)
    ensures
        r == whole_number(s@),
{
    let n: usize = s.len();
    let negative: bool = n > 0 && s[0] == '-';
    let from: usize = if n > 0 && (s[0] == '+' || s[0] == '-') {
        1
    } else {
        0
    };
    let ghost body = without_sign(s@);
    proof {
        assert(body =~= s@.skip(from as int));
    }
    if from == n {
        return None;
    }
    let mut size: i64 = 0;
    let mut i: usize = from;
    while i < n
        invariant
            n == s@.len(),
            from <= i <= n,
            body == s@.skip(from as int),
            negative == (n > 0 && s@[0] == '-'),
            body == without_sign(s@),
            forall|k: int| 0 <= k < i - from ==> is_digit(#[trigger] body[k]),
            0 <= size <= 0x8000_0000,
            size == digits_value(body.take(i - from)),
        decreases n - i,
    {
        let c: char = s[i];
        assert(body[i - from] == c);
        if !('0' <= c && c <= '9') {
            assert(!is_digit(body[i - from]));
            return None;
        }
        let value: i64 = c as i64 - 48;
        proof {
            let next = body.take(i - from + 1);
            assert(next.drop_last() =~= body.take(i - from));
            assert(next.last() == c);
        }
        size = 10 * size + value;
        if size > 0x8000_0000 {
            proof {
                if all_digits(body) {
                    lemma_digits_rise(body, i - from + 1);
                }
            }
            return None;
        }
        i += 1;
    }
    proof {
        assert(body.take(n - from) =~= body);
    }
    if negative {
        Some((0 - size) as i32)
    } else if size <= 0x7fff_ffff {
        Some(size as i32)
    } else {
        None
    }
}

/// No character is NUL.
pub open spec fn is_nul_free(s: Seq<char>) -> bool {
    forall|i: int| 0 <= i < s.len() ==> (#[trigger] s[i]) != '\0'
}

/// Whether a text is not [`is_nul_free`].
pub fn has_nul(s: &str) -> (r: bool)
    ensures
        r == !is_nul_free(s@),
{
    let chars: Vec<char> = chars_of(s);
    let mut i: usize = 0;
    while i < chars.len()
        invariant
            chars@ == s@,
            forall|k: int| 0 <= k < i ==> (#[trigger] s@[k]) != '\0',
        decreases chars@.len() - i,
    {
        if chars[i] == '\0' {
            assert(s@[i as int] == '\0');
            return true;
        }
        i += 1;
    }
    false
}

} // verus!
