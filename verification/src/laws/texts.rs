//! How text is cut up and read.
use crate::cost::{Cost, INFINITY};
use crate::milp::gurobi;
use crate::milp::gurobi::{ParamError, ParamKind, ParamValue};
use crate::milp::highs;
use crate::milp::highs::{OptionError, OptionKind, OptionValue};
use crate::text::{
    all_digits, begins_with, chars_of, contains, decimal, digit, digits_end, digits_value, eq_word,
    exponent, exponent_value, has_nul, is_digit, is_white, leading, line_end, lines_from,
    parse_decimal, parse_whole, rounded, same_word, small, starts_with, trim, trimmed, trimmed_end,
    trimmed_start, unsigned, white, whole_number, word_end, words, words_from, Decimal,
    EXPONENT_CAP,
};
use vstd::prelude::*;

verus! {

// ---------------------------------------------------------------------------
// Space
// ---------------------------------------------------------------------------

/// Blanks, tabs and line feeds are space; letters, digits and signs are not.
pub proof fn space_is_blank(c: char, r: bool)
    requires
        call_ensures(white, (c,), r),
    ensures
        c == ' ' || c == '\t' || c == '\n' || c == '\r' ==> r,
        '!' <= c <= '~' ==> !r,
        r ==> is_white(c),
{
}

/// Every character of `s` is space.
pub open spec fn is_blank(s: Seq<char>) -> bool {
    forall|i: int| 0 <= i < s.len() ==> is_white(#[trigger] s[i])
}

proof fn lemma_trimmed_start(s: Seq<char>) -> (k: int)
    ensures
        0 <= k <= s.len(),
        is_blank(s.take(k)),
        trimmed_start(s) == s.skip(k),
        k < s.len() ==> !is_white(s[k]),
    decreases s.len(),
{
    if s.len() > 0 && is_white(s[0]) {
        let rest = s.skip(1);
        let k = lemma_trimmed_start(rest);
        assert(rest.skip(k) =~= s.skip(k + 1));
        assert forall|i: int| 0 <= i < k + 1 implies is_white(#[trigger] s.take(k + 1)[i]) by {
            if i > 0 {
                assert(rest.take(k)[i - 1] == s[i]);
            }
        }
        if k < rest.len() {
            assert(rest[k] == s[k + 1]);
        }
        k + 1
    } else {
        assert(s.skip(0) =~= s);
        0
    }
}

proof fn lemma_trimmed_end(s: Seq<char>) -> (k: int)
    ensures
        0 <= k <= s.len(),
        is_blank(s.skip(k)),
        trimmed_end(s) == s.take(k),
        k > 0 ==> !is_white(s[k - 1]),
    decreases s.len(),
{
    if s.len() > 0 && is_white(s.last()) {
        let front = s.drop_last();
        let k = lemma_trimmed_end(front);
        assert(front.take(k) =~= s.take(k));
        assert forall|i: int| 0 <= i < s.len() - k implies is_white(#[trigger] s.skip(k)[i]) by {
            if i < s.len() - k - 1 {
                assert(front.skip(k)[i] == s[k + i]);
            }
        }
        k
    } else {
        assert(s.take(s.len() as int) =~= s);
        s.len() as int
    }
}

/// Trimming takes the space off both ends, all of it and nothing else.
pub proof fn trimming_takes_off_space(s: &[char], r: &[char]) -> (ends: (Seq<char>, Seq<char>))
    requires
        call_ensures(trim, (s,), r),
    ensures
        s@ == ends.0 + r@ + ends.1,
        is_blank(ends.0),
        is_blank(ends.1),
        r@.len() > 0 ==> !is_white(r@[0]) && !is_white(r@.last()),
{
    let k = lemma_trimmed_start(s@);
    let mid = s@.skip(k);
    let m = lemma_trimmed_end(mid);
    let front = s@.take(k);
    let back = mid.skip(m);
    assert(r@ == mid.take(m));
    assert(s@ =~= front + r@ + back);
    if r@.len() > 0 {
        assert(r@[0] == s@[k]);
        assert(r@.last() == mid[m - 1]);
    }
    (front, back)
}

/// The words one after the other.
pub open spec fn joined(words: Seq<Seq<char>>) -> Seq<char>
    decreases words.len(),
{
    if words.len() == 0 {
        Seq::empty()
    } else {
        words[0] + joined(words.skip(1))
    }
}

/// The characters of `s` from `i` on that are no space.
pub open spec fn without_space(s: Seq<char>, i: int) -> Seq<char>
    decreases s.len() - i,
{
    if i < 0 || i >= s.len() {
        Seq::empty()
    } else if is_white(s[i]) {
        without_space(s, i + 1)
    } else {
        seq![s[i]] + without_space(s, i + 1)
    }
}

proof fn lemma_word_end(s: Seq<char>, i: int)
    requires
        0 <= i <= s.len(),
    ensures
        i <= word_end(s, i) <= s.len(),
        forall|k: int| i <= k < word_end(s, i) ==> !is_white(#[trigger] s[k]),
        word_end(s, i) < s.len() ==> is_white(s[word_end(s, i)]),
        without_space(s, i) == s.subrange(i, word_end(s, i)) + without_space(s, word_end(s, i)),
    decreases s.len() - i,
{
    if i < s.len() && !is_white(s[i]) {
        lemma_word_end(s, i + 1);
        let e = word_end(s, i + 1);
        assert(s.subrange(i, e) =~= seq![s[i]] + s.subrange(i + 1, e));
        assert(without_space(s, i) =~= s.subrange(i, e) + without_space(s, e));
    } else {
        assert(s.subrange(i, i) =~= Seq::empty());
        assert(without_space(s, i) =~= s.subrange(i, i) + without_space(s, i));
    }
}

proof fn lemma_words(s: Seq<char>, i: int)
    requires
        0 <= i <= s.len(),
    ensures
        joined(words_from(s, i)) == without_space(s, i),
        forall|k: int|
            0 <= k < words_from(s, i).len() ==> (#[trigger] words_from(s, i)[k]).len() > 0,
        forall|k: int, m: int|
            0 <= k < words_from(s, i).len() && 0 <= m < words_from(s, i)[k].len() ==> !is_white(
                #[trigger] words_from(s, i)[k][m],
            ),
    decreases s.len() - i,
{
    if i < s.len() {
        if is_white(s[i]) {
            lemma_words(s, i + 1);
        } else {
            lemma_word_end(s, i);
            let e = word_end(s, i);
            assert(e > i) by {
                lemma_word_end(s, i + 1);
            }
            lemma_words(s, e);
            let all = words_from(s, i);
            let rest = words_from(s, e);
            let word = s.subrange(i, e);
            assert(all == seq![word] + rest);
            assert(all.skip(1) =~= rest);
            assert(all[0] == word);
            assert forall|k: int| 0 <= k < all.len() implies (#[trigger] all[k]).len() > 0 by {
                if k > 0 {
                    assert(all[k] == rest[k - 1]);
                }
            }
            assert forall|k: int, m: int|
                0 <= k < all.len() && 0 <= m < all[k].len() implies !is_white(
                #[trigger] all[k][m],
            ) by {
                if k > 0 {
                    assert(all[k] == rest[k - 1]);
                    assert(!is_white(rest[k - 1][m]));
                } else {
                    assert(all[k][m] == s[i + m]);
                }
            }
        }
    }
}

/// The words of a text are what space separates: none is empty or has a space in it, and
/// together they are the text without its spaces. A space in the middle of a word makes
/// two of it.
pub proof fn words_are_what_space_separates(s: &[char], r: Vec<&[char]>)
    requires
        call_ensures(words, (s,), r),
    ensures
        joined(Seq::new(r@.len(), |k: int| r@[k]@)) == without_space(s@, 0),
        forall|k: int| 0 <= k < r@.len() ==> (#[trigger] r@[k])@.len() > 0,
        forall|k: int, m: int|
            0 <= k < r@.len() && 0 <= m < r@[k]@.len() ==> !is_white(#[trigger] r@[k]@[m]),
        is_blank(s@) <==> r@.len() == 0,
{
    lemma_words(s@, 0);
    let all = words_from(s@, 0);
    let listed = Seq::new(r@.len(), |k: int| r@[k]@);
    assert(listed =~= all);
    assert forall|k: int| 0 <= k < r@.len() implies (#[trigger] r@[k])@.len() > 0 by {
        assert(r@[k]@ == all[k]);
    }
    assert forall|k: int, m: int| 0 <= k < r@.len() && 0 <= m < r@[k]@.len() implies !is_white(
        #[trigger] r@[k]@[m],
    ) by {
        assert(r@[k]@ == all[k]);
        assert(!is_white(all[k][m]));
    }
    if is_blank(s@) {
        lemma_blank(s@, 0);
    }
    if r@.len() == 0 {
        assert(all =~= Seq::empty());
        lemma_no_words(s@, 0);
    }
}

proof fn lemma_blank(s: Seq<char>, i: int)
    requires
        0 <= i <= s.len(),
        is_blank(s),
    ensures
        words_from(s, i).len() == 0,
    decreases s.len() - i,
{
    if i < s.len() {
        assert(is_white(s[i]));
        lemma_blank(s, i + 1);
    }
}

proof fn lemma_no_words(s: Seq<char>, i: int)
    requires
        0 <= i <= s.len(),
        words_from(s, i).len() == 0,
    ensures
        forall|k: int| i <= k < s.len() ==> is_white(#[trigger] s[k]),
    decreases s.len() - i,
{
    if i < s.len() {
        if is_white(s[i]) {
            lemma_no_words(s, i + 1);
        } else {
            lemma_word_end(s, i);
            lemma_word_end(s, i + 1);
        }
    }
}

// ---------------------------------------------------------------------------
// Lines
// ---------------------------------------------------------------------------

proof fn lemma_line_end(a: Seq<char>, b: Seq<char>, i: int)
    requires
        0 <= i <= a.len(),
        forall|k: int| 0 <= k < a.len() ==> #[trigger] a[k] != '\n',
    ensures
        line_end(a.push('\n') + b, i) == a.len(),
    decreases a.len() - i,
{
    let s = a.push('\n') + b;
    if i < a.len() {
        assert(s[i] == a[i]);
        lemma_line_end(a, b, i + 1);
    } else {
        assert(s[i] == '\n');
    }
}

proof fn lemma_line_end_shift(front: Seq<char>, b: Seq<char>, i: int)
    requires
        0 <= i <= b.len(),
    ensures
        line_end(front + b, front.len() + i) == front.len() + line_end(b, i),
        i <= line_end(b, i) <= b.len(),
    decreases b.len() - i,
{
    let s = front + b;
    if i < b.len() {
        assert(s[front.len() + i] == b[i]);
        if b[i] != '\n' {
            lemma_line_end_shift(front, b, i + 1);
        }
    }
}

proof fn lemma_lines_shift(front: Seq<char>, b: Seq<char>, i: int)
    requires
        0 <= i <= b.len() + 1,
    ensures
        lines_from(front + b, front.len() + i) == lines_from(b, i),
    decreases b.len() + 1 - i,
{
    let s = front + b;
    if i < b.len() {
        lemma_line_end_shift(front, b, i);
        let e = line_end(b, i);
        assert(s.subrange(front.len() + i, front.len() + e) =~= b.subrange(i, e));
        if e < b.len() {
            lemma_lines_shift(front, b, e + 1);
        }
    }
}

/// A line feed ends a line: a text is its first line, without a carriage return before the
/// line feed, and the lines of the rest.
pub proof fn line_feeds_end_lines(a: Seq<char>, b: Seq<char>)
    requires
        forall|k: int| 0 <= k < a.len() ==> #[trigger] a[k] != '\n',
    ensures
        lines_from(a.push('\n') + b, 0) == seq![
            if a.len() > 0 && a.last() == '\r' {
                a.drop_last()
            } else {
                a
            },
        ] + lines_from(b, 0),
        a.len() > 0 ==> lines_from(a, 0) == seq![a],
        lines_from(Seq::empty(), 0) == Seq::<Seq<char>>::empty(),
{
    let front = a.push('\n');
    let s = front + b;
    lemma_line_end(a, b, 0);
    lemma_lines_shift(front, b, 0);
    assert(s.subrange(0, a.len() as int) =~= a);
    if a.len() > 0 {
        lemma_whole_line(a, 0);
        assert(a.subrange(0, a.len() as int) =~= a);
    }
}

proof fn lemma_whole_line(a: Seq<char>, i: int)
    requires
        0 <= i <= a.len(),
        forall|k: int| 0 <= k < a.len() ==> #[trigger] a[k] != '\n',
    ensures
        line_end(a, i) == a.len(),
    decreases a.len() - i,
{
    if i < a.len() {
        assert(a[i] != '\n');
        lemma_whole_line(a, i + 1);
    }
}

// ---------------------------------------------------------------------------
// Comparing
// ---------------------------------------------------------------------------

/// A text starts with another if its first characters are those of the other, and contains
/// it if it starts with it somewhere.
pub proof fn parts_are_found(s: &[char], p: &[char], at_start: bool, inside: bool, i: int)
    requires
        call_ensures(starts_with, (s, p), at_start),
        call_ensures(contains, (s, p), inside),
    ensures
        at_start <==> p@.len() <= s@.len() && forall|k: int|
            0 <= k < p@.len() ==> #[trigger] s@[k] == p@[k],
        0 <= i && i + p@.len() <= s@.len() && (forall|k: int|
            0 <= k < p@.len() ==> s@[i + k] == #[trigger] p@[k]) ==> inside,
        inside ==> exists|j: int|
            0 <= j && j + p@.len() <= s@.len() && #[trigger] s@.subrange(j, j + p@.len()) == p@,
{
    if at_start {
        assert forall|k: int| 0 <= k < p@.len() implies #[trigger] s@[k] == p@[k] by {
            assert(s@.take(p@.len() as int)[k] == p@[k]);
        }
    }
    if p@.len() <= s@.len() && forall|k: int| 0 <= k < p@.len() ==> #[trigger] s@[k] == p@[k] {
        assert(s@.take(p@.len() as int) =~= p@);
    }
    if 0 <= i && i + p@.len() <= s@.len() && (forall|k: int|
        0 <= k < p@.len() ==> s@[i + k] == #[trigger] p@[k]) {
        assert(s@.skip(i).take(p@.len() as int) =~= p@);
        assert(begins_with(s@.skip(i), p@));
    }
    if inside {
        let j = choose|j: int| 0 <= j <= s@.len() && #[trigger] begins_with(s@.skip(j), p@);
        assert(s@.subrange(j, j + p@.len()) =~= s@.skip(j).take(p@.len() as int));
        assert(s@.subrange(j, j + p@.len()) == p@);
    }
}

/// Two words are the same if they are so but for the case of letters.
pub proof fn case_does_not_matter(a: &[char], b: &[char], same: bool)
    requires
        call_ensures(eq_word, (a, b), same),
    ensures
        a@ == b@ ==> same,
        same ==> a@.len() == b@.len(),
        same ==> forall|k: int|
            0 <= k < a@.len() ==> #[trigger] a@[k] == b@[k] || ('A' <= a@[k] <= 'Z' && b@[k] as int
                == a@[k] as int + 32) || ('A' <= b@[k] <= 'Z' && a@[k] as int == b@[k] as int + 32),
        a@.len() == b@.len() && (forall|k: int|
            0 <= k < a@.len() ==> #[trigger] a@[k] == b@[k] || ('A' <= a@[k] <= 'Z' && b@[k] as int
                == a@[k] as int + 32) || ('A' <= b@[k] <= 'Z' && a@[k] as int == b@[k] as int + 32))
            ==> same,
{
    if same {
        assert forall|k: int| 0 <= k < a@.len() implies #[trigger] a@[k] == b@[k] || ('A' <= a@[k]
            <= 'Z' && b@[k] as int == a@[k] as int + 32) || ('A' <= b@[k] <= 'Z' && a@[k] as int
            == b@[k] as int + 32) by {
            assert(small(a@[k]) == small(b@[k]));
        }
    }
    if a@.len() == b@.len() && (forall|k: int|
        0 <= k < a@.len() ==> #[trigger] a@[k] == b@[k] || ('A' <= a@[k] <= 'Z' && b@[k] as int
            == a@[k] as int + 32) || ('A' <= b@[k] <= 'Z' && a@[k] as int == b@[k] as int + 32)) {
        assert forall|k: int| 0 <= k < a@.len() implies small(#[trigger] a@[k]) == small(b@[k]) by {
        }
    }
}

/// A text has a NUL exactly if one of its characters is.
pub proof fn nuls_are_found(s: &str, r: bool)
    requires
        call_ensures(has_nul, (s,), r),
    ensures
        r <==> exists|i: int| 0 <= i < s@.len() && #[trigger] s@[i] == '\0',
{
}

// ---------------------------------------------------------------------------
// Numbers
// ---------------------------------------------------------------------------

/// A whole number is read digit by digit, each ten times what is before it; a minus sign
/// negates, and what is no digit makes it none.
pub proof fn whole_numbers_are_read_digit_by_digit(s: Seq<char>, c: char, v: int)
    requires
        all_digits(s),
        v == digits_value(s),
    ensures
        s.len() == 1 ==> v == s[0] as int - 48,
        '0' <= c <= '9' ==> digits_value(s.push(c)) == 10 * v + (c as int - 48),
        v <= i32::MAX ==> whole_number(s) == Some(v as i32),
        v > i32::MAX ==> whole_number(s) is None,
        v <= i32::MAX ==> whole_number(seq!['-'] + s) == Some((-v) as i32),
        !('0' <= c <= '9') ==> whole_number(s.push(c)) is None,
        whole_number(Seq::empty()) is None,
{
    assert(is_digit(s[0]));
    assert(s.push(c).drop_last() =~= s);
    if s.len() == 1 {
        assert(s.drop_last() =~= Seq::empty());
        assert(digits_value(Seq::<char>::empty()) == 0);
    }
    let m = seq!['-'] + s;
    assert(m[0] == '-');
    assert(m.skip(1) =~= s);
    lemma_value_not_negative(s);
    if !('0' <= c <= '9') {
        let t = s.push(c);
        assert(t[0] == s[0]);
        assert(t[s.len() as int] == c);
        assert(!is_digit(t[s.len() as int]));
    }
}

proof fn lemma_value_not_negative(s: Seq<char>)
    requires
        forall|i: int| 0 <= i < s.len() ==> is_digit(#[trigger] s[i]),
    ensures
        digits_value(s) >= 0,
    decreases s.len(),
{
    if s.len() > 0 {
        assert(is_digit(s[s.len() - 1]));
        lemma_value_not_negative(s.drop_last());
    }
}

/// Ten to the `j`.
pub open spec fn ten_to(j: nat) -> int
    decreases j,
{
    if j == 0 {
        1
    } else {
        10 * ten_to((j - 1) as nat)
    }
}

proof fn lemma_tens(i: nat, j: nat)
    ensures
        ten_to(i) * ten_to(j) == ten_to(i + j),
        ten_to(i) > 0,
    decreases i,
{
    if i > 0 {
        lemma_tens((i - 1) as nat, j);
        let p = ten_to((i - 1) as nat);
        let q = ten_to(j);
        assert((10 * p) * q == 10 * (p * q)) by (nonlinear_arith);
    } else {
        assert(ten_to(0) * ten_to(j) == ten_to(j)) by {
            assert(ten_to(0) == 1);
        }
    }
}

proof fn lemma_leading_all(d: Seq<char>, k: nat)
    requires
        k <= d.len(),
    ensures
        leading(d, k as int) == digits_value(d.take(k as int)),
    decreases k,
{
    if k > 0 {
        lemma_leading_all(d, (k - 1) as nat);
        assert(d.take(k as int).drop_last() =~= d.take(k - 1));
    }
}

proof fn lemma_leading_zeros(d: Seq<char>, j: nat)
    ensures
        leading(d, (d.len() + j) as int) == digits_value(d) * ten_to(j),
    decreases j,
{
    if j == 0 {
        lemma_leading_all(d, d.len());
        assert(d.take(d.len() as int) =~= d);
    } else {
        lemma_leading_zeros(d, (j - 1) as nat);
        let v = digits_value(d);
        let t = ten_to((j - 1) as nat);
        assert((v * t) * 10 == v * (10 * t)) by (nonlinear_arith);
    }
}

proof fn lemma_digits_end(s: Seq<char>, i: int, e: int)
    requires
        0 <= i <= e <= s.len(),
        forall|k: int| i <= k < e ==> is_digit(#[trigger] s[k]),
        e < s.len() ==> !is_digit(s[e]),
    ensures
        digits_end(s, i) == e,
    decreases e - i,
{
    if i < e {
        assert(is_digit(s[i]));
        lemma_digits_end(s, i + 1, e);
    }
}

proof fn lemma_no_word(s: Seq<char>)
    requires
        s.len() > 0,
        is_digit(s[0]),
    ensures
        !same_word(s, "inf"@),
        !same_word(s, "infinity"@),
        !same_word(s, "nan"@),
{
    reveal_strlit("inf");
    reveal_strlit("infinity");
    reveal_strlit("nan");
    assert(small("inf"@[0]) == 105);
    assert(small("infinity"@[0]) == 105);
    assert(small("nan"@[0]) == 110);
    if same_word(s, "inf"@) {
        assert(small(s[0]) == small("inf"@[0]));
    }
    if same_word(s, "infinity"@) {
        assert(small(s[0]) == small("infinity"@[0]));
    }
    if same_word(s, "nan"@) {
        assert(small(s[0]) == small("nan"@[0]));
    }
}

/// A number without a point is that many units, and up to six digits behind a point are
/// that many parts of one; a minus sign negates.
pub proof fn decimals_are_read_to_a_millionth(a: Seq<char>, b: Seq<char>, v: int, w: int)
    requires
        all_digits(a),
        all_digits(b),
        b.len() <= 6,
        v == digits_value(a) * 1_000_000,
        w * ten_to(b.len()) == digits_value(a + b) * 1_000_000,
    ensures
        v < INFINITY ==> decimal(a) == Some(Decimal::Finite(v as Cost)),
        v < INFINITY ==> decimal(seq!['-'] + a) == Some(Decimal::Finite((-v) as Cost)),
        w < INFINITY ==> decimal(a + seq!['.'] + b) == Some(Decimal::Finite(w as Cost)),
        w < INFINITY ==> decimal(seq!['-'] + (a + seq!['.'] + b)) == Some(
            Decimal::Finite((-w) as Cost),
        ),
{
    reveal_with_fuel(ten_to, 8);
    let s = a + seq!['.'] + b;
    let whole = a.len() as int;
    assert(is_digit(a[0]));
    assert(s[0] == a[0]);
    assert(s[whole] == '.');
    assert(!is_digit(s[whole]));
    // Without a point.
    lemma_digits_end(a, 0, whole);
    assert(a.take(whole) =~= a);
    lemma_leading_zeros(a, 6);
    assert(rounded(a, whole + 6) == leading(a, whole + 6));
    assert(unsigned(a) == Some(v));
    lemma_no_word(a);
    lemma_value_not_negative(a);
    // With one.
    assert forall|k: int| 0 <= k < whole implies is_digit(#[trigger] s[k]) by {
        assert(s[k] == a[k]);
        assert(is_digit(a[k]));
    }
    assert forall|k: int| whole + 1 <= k < s.len() implies is_digit(#[trigger] s[k]) by {
        assert(s[k] == b[k - whole - 1]);
        assert(is_digit(b[k - whole - 1]));
    }
    lemma_digits_end(s, 0, whole);
    lemma_digits_end(s, whole + 1, s.len() as int);
    let digits = s.take(whole) + s.subrange(whole + 1, s.len() as int);
    assert(digits =~= a + b);
    let j = (6 - b.len()) as nat;
    lemma_leading_zeros(digits, j);
    assert(digits.len() + j == whole + 6);
    assert(rounded(digits, whole + 6) == leading(digits, whole + 6));
    let n = digits_value(digits);
    assert(n * ten_to(j) == w) by {
        let p = ten_to(b.len());
        let q = ten_to(j);
        lemma_tens(b.len(), j);
        assert(p * q == ten_to(6) && p > 0);
        assert(n * q == w) by (nonlinear_arith)
            requires
                w * p == n * 1_000_000,
                p * q == 1_000_000,
                p > 0,
        ;
    }
    assert(unsigned(s) == Some(w));
    lemma_no_word(s);
    assert forall|i: int| 0 <= i < digits.len() implies is_digit(#[trigger] digits[i]) by {
        if i < whole {
            assert(digits[i] == a[i]);
            assert(is_digit(a[i]));
        } else {
            assert(digits[i] == b[i - whole]);
            assert(is_digit(b[i - whole]));
        }
    }
    lemma_value_not_negative(digits);
    let x = seq!['-'] + a;
    assert(x[0] == '-');
    assert(x.skip(1) =~= a);
    let y = seq!['-'] + s;
    assert(y[0] == '-');
    assert(y.skip(1) =~= s);
}

/// Digits behind the sixth round to the nearest millionth, halves away from zero.
pub proof fn decimals_are_rounded(a: Seq<char>, b: Seq<char>, v: int)
    requires
        all_digits(a),
        all_digits(b),
        b.len() > 6,
        v == digits_value(a + b.take(6)),
    ensures
        b[6] < '5' && v < INFINITY ==> decimal(a + seq!['.'] + b) == Some(
            Decimal::Finite(v as Cost),
        ),
        b[6] >= '5' && v + 1 < INFINITY ==> decimal(a + seq!['.'] + b) == Some(
            Decimal::Finite((v + 1) as Cost),
        ),
{
    let s = a + seq!['.'] + b;
    let whole = a.len() as int;
    assert(is_digit(a[0]));
    assert(s[0] == a[0]);
    assert(s[whole] == '.');
    assert forall|k: int| 0 <= k < whole implies is_digit(#[trigger] s[k]) by {
        assert(s[k] == a[k]);
        assert(is_digit(a[k]));
    }
    assert forall|k: int| whole + 1 <= k < s.len() implies is_digit(#[trigger] s[k]) by {
        assert(s[k] == b[k - whole - 1]);
        assert(is_digit(b[k - whole - 1]));
    }
    lemma_digits_end(s, 0, whole);
    lemma_digits_end(s, whole + 1, s.len() as int);
    let digits = s.take(whole) + s.subrange(whole + 1, s.len() as int);
    assert(digits =~= a + b);
    lemma_leading_all(digits, (whole + 6) as nat);
    assert(digits.take(whole + 6) =~= a + b.take(6));
    assert(digits[whole + 6] == b[6]);
    assert(is_digit(b[6]));
    lemma_no_word(s);
}

proof fn lemma_exponent_value(s: Seq<char>, i: int, j: int)
    requires
        0 <= i <= j <= s.len(),
        forall|k: int| i <= k < j ==> is_digit(#[trigger] s[k]),
        digits_value(s.subrange(i, j)) <= EXPONENT_CAP,
    ensures
        exponent_value(s, i, j) == digits_value(s.subrange(i, j)),
    decreases j - i,
{
    let d = s.subrange(i, j);
    if j > i {
        assert(d.drop_last() =~= s.subrange(i, j - 1));
        assert(d.last() == s[j - 1]);
        assert(is_digit(s[j - 1]));
        lemma_value_not_negative(s.subrange(i, j - 1));
        lemma_exponent_value(s, i, j - 1);
    }
}

/// An exponent moves the point: to the right, or to the left where it has a minus sign.
pub proof fn exponents_move_the_point(a: Seq<char>, x: Seq<char>, up: int, down: int)
    requires
        all_digits(a),
        all_digits(x),
        digits_value(x) <= EXPONENT_CAP,
        up == digits_value(a) * ten_to((6 + digits_value(x)) as nat),
        down * ten_to(digits_value(x) as nat) == digits_value(a) * 1_000_000,
    ensures
        up < INFINITY ==> decimal(a + seq!['e'] + x) == Some(Decimal::Finite(up as Cost)),
        up < INFINITY ==> decimal(a + seq!['e', '+'] + x) == Some(Decimal::Finite(up as Cost)),
        digits_value(x) <= 6 && down < INFINITY ==> decimal(a + seq!['e', '-'] + x) == Some(
            Decimal::Finite(down as Cost),
        ),
{
    let e = digits_value(x);
    lemma_value_not_negative(x);
    lemma_value_not_negative(a);
    lemma_exponent(a, seq!['e'], x);
    lemma_exponent(a, seq!['e', '+'], x);
    lemma_exponent(a, seq!['e', '-'], x);
    lemma_leading_zeros(a, (6 + e) as nat);
    if e <= 6 {
        let j = (6 - e) as nat;
        lemma_leading_zeros(a, j);
        lemma_tens(e as nat, j);
        reveal_with_fuel(ten_to, 8);
        assert(ten_to(6) == 1_000_000);
        let p = ten_to(e as nat);
        let q = ten_to(j);
        let n = digits_value(a);
        assert(n * q == down) by (nonlinear_arith)
            requires
                down * p == n * 1_000_000,
                p * q == 1_000_000,
                p > 0,
        ;
    }
}

proof fn lemma_exponent(a: Seq<char>, mark: Seq<char>, x: Seq<char>)
    requires
        all_digits(a),
        all_digits(x),
        digits_value(x) <= EXPONENT_CAP,
        mark == seq!['e'] || mark == seq!['e', '+'] || mark == seq!['e', '-'],
    ensures
        ({
            let s = a + mark + x;
            let e = digits_value(x);
            let places = a.len() + (if mark == seq!['e', '-'] {
                -e
            } else {
                e
            }) + 6;
            &&& unsigned(s) == Some(rounded(a, places))
            &&& s.len() > 0
            &&& is_digit(s[0])
            &&& !same_word(s, "inf"@)
            &&& !same_word(s, "infinity"@)
            &&& !same_word(s, "nan"@)
        }),
{
    let s = a + mark + x;
    let whole = a.len() as int;
    let from = whole + mark.len();
    assert(is_digit(a[0]));
    assert(s[0] == a[0]);
    lemma_no_word(s);
    assert(s[whole] == mark[0]);
    assert(mark.len() == 2 ==> s[whole + 1] == mark[1]);
    assert(is_digit(x[0]));
    assert(mark.len() == 1 ==> s[whole + 1] == x[0]);
    assert forall|k: int| 0 <= k < whole implies is_digit(#[trigger] s[k]) by {
        assert(s[k] == a[k]);
        assert(is_digit(a[k]));
    }
    assert forall|k: int| from <= k < s.len() implies is_digit(#[trigger] s[k]) by {
        assert(s[k] == x[k - from]);
        assert(is_digit(x[k - from]));
    }
    lemma_digits_end(s, 0, whole);
    lemma_digits_end(s, from, s.len() as int);
    assert(s.take(whole) =~= a);
    assert(s.subrange(from, s.len() as int) =~= x);
    lemma_exponent_value(s, from, s.len() as int);
    assert(mark == seq!['e', '-'] ==> mark[1] == '-');
    assert(mark == seq!['e', '+'] ==> mark[1] == '+');
    assert(mark == seq!['e'] ==> mark.len() == 1);
    assert(seq!['e', '-'][1] == '-');
}

/// The infinities are read whatever their case and sign, a lone sign is no number, and a
/// number too large to hold is none that counts.
pub proof fn what_is_no_finite_number(s: Seq<char>)
    ensures
        same_word(s, "inf"@) || same_word(s, "infinity"@) ==> decimal(seq!['-'] + s) == Some(
            Decimal::Infinite { negative: true },
        ) && decimal(seq!['+'] + s) == Some(Decimal::Infinite { negative: false }),
        decimal(seq!['-']) is None,
        decimal(Seq::empty()) is None,
        (decimal(s) matches Some(Decimal::Finite(v)) ==> -INFINITY < v < INFINITY),
{
    reveal_strlit("inf");
    reveal_strlit("infinity");
    reveal_strlit("nan");
    let m = seq!['-'] + s;
    let p = seq!['+'] + s;
    assert(m[0] == '-' && m.skip(1) =~= s);
    assert(p[0] == '+' && p.skip(1) =~= s);
    let e = Seq::<char>::empty();
    assert(seq!['-'].skip(1) =~= e);
    assert(unsigned(e) is None) by {
        assert(e.take(0) =~= e);
    }
    let signed = s.len() > 0 && (s[0] == '+' || s[0] == '-');
    let body = if signed {
        s.skip(1)
    } else {
        s
    };
    lemma_unsigned_not_negative(body);
}

proof fn lemma_unsigned_not_negative(s: Seq<char>)
    ensures
        (unsigned(s) matches Some(v) ==> v >= 0),
{
    lemma_end_digits(s, 0);
    let whole = digits_end(s, 0);
    let dotted = whole < s.len() && s[whole] == '.';
    if dotted {
        lemma_end_digits(s, whole + 1);
    }
    let end = if dotted {
        digits_end(s, whole + 1)
    } else {
        whole
    };
    let digits = if dotted {
        s.take(whole) + s.subrange(whole + 1, end)
    } else {
        s.take(whole)
    };
    assert forall|i: int| 0 <= i < digits.len() implies is_digit(#[trigger] digits[i]) by {
        if i < whole {
            assert(digits[i] == s[i]);
        } else {
            assert(digits[i] == s[i + 1]);
        }
    }
    if let Some(e) = exponent(s, end) {
        lemma_leading_not_negative(digits, whole + e + 6);
    }
}

proof fn lemma_end_digits(s: Seq<char>, i: int)
    requires
        0 <= i <= s.len(),
    ensures
        i <= digits_end(s, i) <= s.len(),
        forall|k: int| i <= k < digits_end(s, i) ==> is_digit(#[trigger] s[k]),
    decreases s.len() - i,
{
    if i < s.len() && is_digit(s[i]) {
        lemma_end_digits(s, i + 1);
    }
}

proof fn lemma_leading_not_negative(d: Seq<char>, k: int)
    requires
        forall|i: int| 0 <= i < d.len() ==> is_digit(#[trigger] d[i]),
    ensures
        leading(d, k) >= 0,
    decreases k,
{
    if k > 0 {
        lemma_leading_not_negative(d, k - 1);
        if k - 1 < d.len() {
            assert(is_digit(d[k - 1]));
        }
    }
}

/// What is parsed is what the text writes.
pub proof fn numbers_are_parsed(
    s: &[char],
    number: Option<Decimal>,
    whole: Option<i32>,
    text: &str,
    chars: Vec<char>,
)
    requires
        call_ensures(parse_decimal, (s,), number),
        call_ensures(parse_whole, (s,), whole),
        call_ensures(chars_of, (text,), chars),
    ensures
        number == decimal(s@),
        whole == whole_number(s@),
        chars@ == text@,
{
}

// ---------------------------------------------------------------------------
// Parameters
// ---------------------------------------------------------------------------

/// A parameter of Gurobi is set to what its text writes in its type, and not at all if it
/// writes nothing in it.
pub proof fn gurobi_parameters_are_read_in_their_type(
    kind: ParamKind,
    text: &str,
    r: Result<ParamValue, ParamError>,
)
    requires
        call_ensures(gurobi::param_value, (kind, text), r),
    ensures
        kind == ParamKind::Int && whole_number(text@) is Some ==> r == Ok::<ParamValue, ParamError>(
            ParamValue::Int(whole_number(text@)->0),
        ),
        kind == ParamKind::Int && whole_number(text@) is None ==> r == Err::<
            ParamValue,
            ParamError,
        >(ParamError::NotAnInt),
        kind == ParamKind::Double && decimal(text@) is Some ==> r == Ok::<ParamValue, ParamError>(
            ParamValue::Double,
        ),
        kind == ParamKind::Double && decimal(text@) is None ==> r == Err::<ParamValue, ParamError>(
            ParamError::NotADouble,
        ),
        kind == ParamKind::Text ==> r == Ok::<ParamValue, ParamError>(ParamValue::Text),
        kind == ParamKind::Unknown ==> r == Err::<ParamValue, ParamError>(ParamError::Unknown),
{
}

/// An option of HiGHS is set to what its text writes in its type, space around it aside,
/// and not at all if it writes nothing in it; a text with a NUL is refused.
pub proof fn highs_options_are_read_in_their_type(
    kind: OptionKind,
    text: &str,
    r: Result<OptionValue, OptionError>,
    truth: Option<bool>,
)
    requires
        call_ensures(highs::option_value, (kind, text), r),
        call_ensures(highs::parse_truth, (text,), truth),
    ensures
        kind == OptionKind::Bool && truth is Some ==> r == Ok::<OptionValue, OptionError>(
            OptionValue::Bool(truth->0),
        ),
        kind == OptionKind::Bool && truth is None ==> r == Err::<OptionValue, OptionError>(
            OptionError::NotABool,
        ),
        kind == OptionKind::Int && whole_number(trimmed(text@)) is Some ==> r == Ok::<
            OptionValue,
            OptionError,
        >(OptionValue::Int(whole_number(trimmed(text@))->0)),
        kind == OptionKind::Int && whole_number(trimmed(text@)) is None ==> r == Err::<
            OptionValue,
            OptionError,
        >(OptionError::NotAnInt),
        kind == OptionKind::Double ==> (r is Ok <==> decimal(trimmed(text@)) is Some),
        kind == OptionKind::Text ==> (r is Err <==> exists|i: int|
            0 <= i < text@.len() && #[trigger] text@[i] == '\0'),
        kind == OptionKind::Unhandled ==> r is Err,
{
}

/// Truth has four names, and so has falsehood.
pub proof fn truth_is_named(text: &str, truth: Option<bool>)
    requires
        call_ensures(highs::parse_truth, (text,), truth),
    ensures
        same_word(trimmed(text@), "1"@) || same_word(trimmed(text@), "true"@) || same_word(
            trimmed(text@),
            "on"@,
        ) || same_word(trimmed(text@), "yes"@) ==> truth == Some(true),
        truth == Some(true) ==> same_word(trimmed(text@), "1"@) || same_word(
            trimmed(text@),
            "true"@,
        ) || same_word(trimmed(text@), "on"@) || same_word(trimmed(text@), "yes"@),
        truth == Some(false) <==> (truth != Some(true) && (same_word(trimmed(text@), "0"@)
            || same_word(trimmed(text@), "false"@) || same_word(trimmed(text@), "off"@)
            || same_word(trimmed(text@), "no"@))),
{
}

} // verus!
