//! Numbers as they stand in lines of data: decimal digits with an optional
//! sign, an optional point and an optional exponent, read in millionths.
use vstd::prelude::*;
use vstd::string::StrSliceExecFns;

verus! {

/// The largest value, in millionths, that a number can be given. Its negative
/// is the smallest. A number beyond them is given the nearer of the two, and
/// so is what is written `inf`.
pub const VALUE_LIMIT: i64 = 9_223_372_036_854_775_807;

/// The value that stands for what is written `NaN`: not a number.
pub const NOT_A_NUMBER: i64 = -9_223_372_036_854_775_808;

/// The size from which on an exponent is only known to be large.
pub const EXPONENT_CAP: i128 = 1_180_591_620_717_411_303_424;

/// The place of the first `c` in `s` from `from` on; the length of `s` where
/// there is none.
pub open spec fn find_char(s: Seq<char>, c: char, from: int) -> int
    decreases s.len() - from,
{
    if from < 0 || from >= s.len() || s[from] == c {
        from
    } else {
        find_char(s, c, from + 1)
    }
}

/// Where `find_char` points: within `s` from `from` on, behind characters
/// other than `c`, and at a `c` or at the end.
pub proof fn lemma_find_char(s: Seq<char>, c: char, from: int)
    requires
        0 <= from <= s.len(),
    ensures
        from <= find_char(s, c, from) <= s.len(),
        forall|k: int| from <= k < find_char(s, c, from) ==> s[k] != c,
        find_char(s, c, from) < s.len() ==> s[find_char(s, c, from)] == c,
    decreases s.len() - from,
{
    if from < s.len() && s[from] != c {
        lemma_find_char(s, c, from + 1);
    }
}

/// The first `c` from `from` on is the first `c` from `to` on, where no `c`
/// stands between the two.
pub proof fn lemma_find_char_skips(s: Seq<char>, c: char, from: int, to: int)
    requires
        0 <= from <= to <= s.len(),
        forall|k: int| from <= k < to ==> s[k] != c,
    ensures
        find_char(s, c, from) == find_char(s, c, to),
    decreases to - from,
{
    if from < to {
        lemma_find_char_skips(s, c, from + 1, to);
    }
}

/// The letter that stands in front of an exponent.
pub open spec fn is_exponent_mark(c: char) -> bool {
    c == 'e' || c == 'E'
}

/// The place of the first exponent mark in `s` from `from` on; the length of
/// `s` where there is none.
pub open spec fn find_mark(s: Seq<char>, from: int) -> int
    decreases s.len() - from,
{
    if from < 0 || from >= s.len() || is_exponent_mark(s[from]) {
        from
    } else {
        find_mark(s, from + 1)
    }
}

/// Where `find_mark` points: within `s` from `from` on, at an exponent mark
/// or at the end.
pub proof fn lemma_find_mark(s: Seq<char>, from: int)
    requires
        0 <= from <= s.len(),
    ensures
        from <= find_mark(s, from) <= s.len(),
    decreases s.len() - from,
{
    if from < s.len() && !is_exponent_mark(s[from]) {
        lemma_find_mark(s, from + 1);
    }
}

/// The first exponent mark from `from` on is the first from `to` on, where
/// none stands between the two.
pub proof fn lemma_find_mark_skips(s: Seq<char>, from: int, to: int)
    requires
        0 <= from <= to <= s.len(),
        forall|k: int| from <= k < to ==> !is_exponent_mark(s[k]),
    ensures
        find_mark(s, from) == find_mark(s, to),
    decreases to - from,
{
    if from < to {
        lemma_find_mark_skips(s, from + 1, to);
    }
}

/// A decimal digit.
pub open spec fn is_digit(c: char) -> bool {
    '0' <= c <= '9'
}

/// Every character is a decimal digit.
pub open spec fn all_digits(s: Seq<char>) -> bool {
    forall|i: int| 0 <= i < s.len() ==> is_digit(#[trigger] s[i])
}

/// The number that a row of decimal digits stands for.
pub open spec fn digits_value(s: Seq<char>) -> int
    decreases s.len(),
{
    if s.len() == 0 {
        0
    } else {
        digits_value(s.drop_last()) * 10 + (s.last() as int - '0' as int)
    }
}

/// The whole number in front of a decimal point that stands `point` places
/// from the left end of a row of digits. A point in front of the row leaves
/// nothing; a point behind the row stands behind as many zeros as it is
/// places behind.
pub open spec fn shifted_value(d: Seq<char>, point: int) -> int
    decreases point - d.len(),
{
    if point <= 0 {
        0
    } else if point <= d.len() {
        digits_value(d.take(point))
    } else {
        10 * shifted_value(d, point - 1)
    }
}

/// The text begins with a sign.
pub open spec fn has_sign(s: Seq<char>) -> bool {
    s.len() > 0 && (s[0] == '-' || s[0] == '+')
}

/// The text begins with a minus sign.
pub open spec fn is_negative(s: Seq<char>) -> bool {
    s.len() > 0 && s[0] == '-'
}

/// The text behind its sign, where it has one.
pub open spec fn without_sign(s: Seq<char>) -> Seq<char> {
    if has_sign(s) {
        s.skip(1)
    } else {
        s
    }
}

/// The exponent that a text stands for: an optional sign and at least one
/// digit. None where the text is no such number.
pub open spec fn parse_exponent(x: Seq<char>) -> Option<int> {
    let digits = without_sign(x);
    if digits.len() == 0 || !all_digits(digits) {
        None
    } else if is_negative(x) {
        Some(-digits_value(digits))
    } else {
        Some(digits_value(digits))
    }
}

/// What stands in front of the exponent mark of an unsigned number.
pub open spec fn mantissa_of(body: Seq<char>) -> Seq<char> {
    body.take(find_mark(body, 0))
}

/// The exponent of an unsigned number: what stands behind its exponent mark,
/// and 0 where it has none.
pub open spec fn exponent_of(body: Seq<char>) -> Option<int> {
    let mark = find_mark(body, 0);
    if mark < body.len() {
        parse_exponent(body.skip(mark + 1))
    } else {
        Some(0)
    }
}

/// What stands in front of the decimal point of a mantissa.
pub open spec fn whole_of(mantissa: Seq<char>) -> Seq<char> {
    mantissa.take(find_char(mantissa, '.', 0))
}

/// What stands behind the decimal point of a mantissa; nothing where it has
/// none.
pub open spec fn fraction_of(mantissa: Seq<char>) -> Seq<char> {
    let dot = find_char(mantissa, '.', 0);
    if dot < mantissa.len() {
        mantissa.skip(dot + 1)
    } else {
        Seq::empty()
    }
}

/// The lower-case letter of an upper-case letter; any other character
/// itself.
pub open spec fn lower_case(c: char) -> char {
    if 'A' <= c <= 'Z' {
        (c as int + 32) as char
    } else {
        c
    }
}

/// The text is the word, in upper-case or lower-case letters or both.
pub open spec fn spells(s: Seq<char>, word: Seq<char>) -> bool {
    s.len() == word.len() && forall|i: int|
        0 <= i < word.len() ==> lower_case(s[i]) == #[trigger] word[i]
}

/// The text is one of the two words for infinity.
pub open spec fn spells_infinity(s: Seq<char>) -> bool {
    spells(s, seq!['i', 'n', 'f']) || spells(s, seq!['i', 'n', 'f', 'i', 'n', 'i', 't', 'y'])
}

/// The text is the word for what is not a number.
pub open spec fn spells_nan(s: Seq<char>) -> bool {
    spells(s, seq!['n', 'a', 'n'])
}

/// The size of an unsigned number in millionths, rounded down, and no more
/// than the limit. An unsigned number is digits with an optional decimal
/// point among them, at least one digit in all, and optionally an exponent:
/// `e` or `E`, an optional sign and at least one digit. None where the text
/// is no such number.
pub open spec fn parse_magnitude(body: Seq<char>) -> Option<int> {
    let whole = whole_of(mantissa_of(body));
    let fraction = fraction_of(mantissa_of(body));
    let exponent = exponent_of(body);
    if !all_digits(whole) || !all_digits(fraction) || whole.len() + fraction.len() == 0
        || exponent is None {
        None
    } else {
        let magnitude = shifted_value(whole + fraction, whole.len() + exponent->0 + 6);
        if magnitude > VALUE_LIMIT {
            Some(VALUE_LIMIT as int)
        } else {
            Some(magnitude)
        }
    }
}

/// The value in millionths of a number as floats are written: an optional
/// sign, and behind it an unsigned number, a word for infinity, or the word
/// `nan`. A number is rounded towards zero and kept within the limit;
/// infinity is given the limit; `nan` is given the value that stands for it,
/// whatever its sign. None where the text is nothing of the kind.
pub open spec fn parse_millionths(s: Seq<char>) -> Option<int> {
    let body = without_sign(s);
    if spells_nan(body) {
        Some(NOT_A_NUMBER as int)
    } else {
        let size = if spells_infinity(body) {
            Some(VALUE_LIMIT as int)
        } else {
            parse_magnitude(body)
        };
        match size {
            None => None,
            Some(magnitude) => if is_negative(s) {
                Some(-magnitude)
            } else {
                Some(magnitude)
            },
        }
    }
}

/// A row of digits stands for a number that is not negative.
pub proof fn lemma_digits_value_sign(s: Seq<char>)
    requires
        all_digits(s),
    ensures
        0 <= digits_value(s),
    decreases s.len(),
{
    if s.len() > 0 {
        assert(is_digit(s.last()));
        lemma_digits_value_sign(s.drop_last());
    }
}

/// A longer row of digits stands for no smaller number.
pub proof fn lemma_digits_value_grows(s: Seq<char>, k: int)
    requires
        all_digits(s),
        0 <= k <= s.len(),
    ensures
        0 <= digits_value(s.take(k)) <= digits_value(s),
    decreases s.len() - k,
{
    if k < s.len() {
        lemma_digits_value_grows(s, k + 1);
        assert(s.take(k + 1).drop_last() == s.take(k));
        assert(is_digit(s[k]));
        lemma_digits_value_sign(s.take(k));
    } else {
        assert(s.take(k) == s);
        lemma_digits_value_sign(s);
    }
}

/// Moving the point to the right makes the number in front of it no smaller.
pub proof fn lemma_shifted_grows(d: Seq<char>, j: int, p: int)
    requires
        all_digits(d),
        j <= p,
    ensures
        0 <= shifted_value(d, j) <= shifted_value(d, p),
    decreases p - j,
{
    if j < p {
        lemma_shifted_grows(d, j + 1, p);
        lemma_shifted_step(d, j);
    } else {
        lemma_shifted_step(d, j);
    }
}

/// Moving the point one place to the right makes the number in front of it
/// no smaller.
proof fn lemma_shifted_step(d: Seq<char>, j: int)
    requires
        all_digits(d),
    ensures
        0 <= shifted_value(d, j) <= shifted_value(d, j + 1),
    decreases j - d.len(),
{
    if j <= 0 {
        if j == 0 && d.len() > 0 {
            lemma_digits_value_sign(d.take(1));
        } else if j == 0 {
            assert(shifted_value(d, 0) == 0);
            assert(shifted_value(d, 1) == 10 * shifted_value(d, 0));
        }
    } else if j < d.len() {
        let s = d.take(j + 1);
        lemma_digits_value_grows(s, j);
        assert(s.take(j) == d.take(j));
    } else if j == d.len() {
        lemma_digits_value_sign(d.take(j));
    } else {
        lemma_shifted_step(d, j - 1);
    }
}

/// Ten to the power of `k`.
pub open spec fn pow10(k: nat) -> nat
    decreases k,
{
    if k == 0 {
        1
    } else {
        10 * pow10((k - 1) as nat)
    }
}

/// A point `k` places behind a row of digits stands behind the number of the
/// row times ten to the power of `k`.
pub proof fn lemma_shifted_behind(d: Seq<char>, k: nat)
    ensures
        shifted_value(d, (d.len() + k) as int) == digits_value(d) * pow10(k),
    decreases k,
{
    let v = digits_value(d);
    if k == 0 {
        assert(pow10(0) == 1);
        assert(v * 1 == v);
        if d.len() > 0 {
            assert(d.take(d.len() as int) == d);
        }
    } else {
        lemma_shifted_behind(d, (k - 1) as nat);
        let before = pow10((k - 1) as nat);
        assert(pow10(k) == 10 * before);
        assert(shifted_value(d, (d.len() + k) as int) == 10 * shifted_value(d, d.len() + k - 1));
        assert(10 * (v * before) == v * (10 * before)) by (nonlinear_arith);
    }
}

/// A point nineteen places or more behind a row of digits leaves nothing in
/// front of it where the row is made of zeros, and more than the limit
/// otherwise.
pub proof fn lemma_far_point(d: Seq<char>, p: int)
    requires
        all_digits(d),
        p >= d.len() + 19,
    ensures
        digits_value(d) == 0 ==> shifted_value(d, p) == 0,
        digits_value(d) != 0 ==> shifted_value(d, p) > VALUE_LIMIT,
{
    lemma_digits_value_sign(d);
    lemma_shifted_behind(d, 19);
    lemma_shifted_behind(d, (p - d.len()) as nat);
    lemma_shifted_grows(d, (d.len() + 19) as int, p);
    assert(pow10(19) == 10_000_000_000_000_000_000) by {
        reveal_with_fuel(pow10, 20);
    }
    let v = digits_value(d);
    if v != 0 {
        assert(v * pow10(19) >= 10_000_000_000_000_000_000) by (nonlinear_arith)
            requires
                v >= 1,
                pow10(19) == 10_000_000_000_000_000_000,
        ;
    } else {
        assert(v * pow10((p - d.len()) as nat) == 0) by (nonlinear_arith)
            requires
                v == 0,
        ;
    }
}

/// How an unsigned number is made up, from what a walk over it has seen:
/// `w` digits, then, where `dotted`, a point and more digits, up to place
/// `end`. Where the walk ended at the end of the text or at an exponent mark,
/// the digits are the whole and the fraction of the number; where it ended at
/// anything else, the text is no number.
pub proof fn lemma_mantissa(body: Seq<char>, w: int, dotted: bool, end: int)
    requires
        0 <= w <= end <= body.len(),
        forall|k: int| 0 <= k < w ==> is_digit(#[trigger] body[k]),
        dotted ==> w < end && body[w] == '.',
        dotted ==> forall|k: int| w < k < end ==> is_digit(#[trigger] body[k]),
        !dotted ==> end == w,
        end < body.len() ==> !is_digit(body[end]),
        !dotted && end < body.len() ==> body[end] != '.',
    ensures
        end == body.len() || is_exponent_mark(body[end]) ==> {
            &&& find_mark(body, 0) == end
            &&& whole_of(mantissa_of(body)) == body.take(w)
            &&& fraction_of(mantissa_of(body)) == if dotted {
                body.subrange(w + 1, end)
            } else {
                Seq::empty()
            }
            &&& all_digits(whole_of(mantissa_of(body)))
            &&& all_digits(fraction_of(mantissa_of(body)))
        },
        end < body.len() && !is_exponent_mark(body[end]) ==> !all_digits(
            whole_of(mantissa_of(body)),
        ) || !all_digits(fraction_of(mantissa_of(body))),
{
    assert forall|k: int| 0 <= k < end implies !is_exponent_mark(body[k]) by {
        if k < w {
            assert(is_digit(body[k]));
        } else if k > w {
            assert(is_digit(body[k]));
        }
    }
    lemma_find_mark_skips(body, 0, end);
    if end < body.len() && !is_exponent_mark(body[end]) {
        lemma_find_mark(body, end + 1);
    }
    let mark = find_mark(body, 0);
    let m = body.take(mark);
    assert(end <= mark <= body.len());
    assert forall|k: int| 0 <= k < w implies m[k] != '.' by {
        assert(is_digit(body[k]));
    }
    lemma_find_char_skips(m, '.', 0, w);
    if dotted {
        assert(m[w] == '.');
        assert(find_char(m, '.', 0) == w);
        if mark == end {
            assert(m.take(w) =~= body.take(w));
            assert(m.skip(w + 1) =~= body.subrange(w + 1, end));
            assert forall|k: int| 0 <= k < end - w - 1 implies is_digit(
                #[trigger] body.subrange(w + 1, end)[k],
            ) by {
                assert(is_digit(body[w + 1 + k]));
            }
        } else {
            assert(m.skip(w + 1)[end - w - 1] == body[end]);
        }
    } else {
        if mark == end {
            assert(find_char(m, '.', 0) == w);
            assert(m.take(w) =~= body.take(w));
        } else {
            lemma_find_char(m, '.', w + 1);
            assert(find_char(m, '.', 0) == find_char(m, '.', w + 1));
            assert(whole_of(m)[w] == body[w]);
        }
    }
}

/// Walks over the digits that stand in a line from place `from` on, and says
/// where they end.
fn skip_digits(line: &str, from: usize) -> (to: usize)
    requires
        from <= line@.len(),
    ensures
        from <= to <= line@.len(),
        forall|k: int| from <= k < to ==> is_digit(#[trigger] line@[k]),
        to < line@.len() ==> !is_digit(line@[to as int]),
{
    let len = line.unicode_len();
    let mut to: usize = from;
    let mut more = true;
    while to < len && more
        invariant
            from <= to <= len,
            len == line@.len(),
            forall|k: int| from <= k < to ==> is_digit(#[trigger] line@[k]),
            !more ==> to < len && !is_digit(line@[to as int]),
        decreases len - to, if more { 1int } else { 0int },
    {
        let c = line.get_char(to);
        if '0' <= c && c <= '9' {
            to += 1;
        } else {
            more = false;
        }
    }
    to
}

/// An exponent, cut off where it is larger than anything that could matter.
pub open spec fn capped(e: int) -> int {
    if e > EXPONENT_CAP {
        EXPONENT_CAP as int
    } else if e < -EXPONENT_CAP {
        -EXPONENT_CAP
    } else {
        e
    }
}

/// Reads the exponent that stands in a line from place `from` to the end.
/// An exponent beyond the cap is given as the cap.
fn read_exponent(line: &str, from: usize) -> (r: Option<i128>)
    requires
        from <= line@.len(),
    ensures
        match r {
            Some(e) => parse_exponent(line@.skip(from as int)) is Some && e == capped(
                parse_exponent(line@.skip(from as int))->0,
            ),
            None => parse_exponent(line@.skip(from as int)) is None,
        },
{
    let len = line.unicode_len();
    let ghost x = line@.skip(from as int);
    let mut start: usize = from;
    let mut negative = false;
    if start < len {
        let c = line.get_char(start);
        assert(c == x[0]);
        if c == '-' {
            negative = true;
            start += 1;
        } else if c == '+' {
            start += 1;
        }
    }
    let ghost digits = line@.skip(start as int);
    assert(digits =~= without_sign(x));
    let end = skip_digits(line, start);
    if end < len {
        assert(digits[end - start] == line@[end as int]);
        return None;
    }
    if end == start {
        return None;
    }
    assert(all_digits(digits)) by {
        assert forall|k: int| 0 <= k < digits.len() implies is_digit(#[trigger] digits[k]) by {
            assert(is_digit(line@[start + k]));
        }
    }
    let mut size: i128 = 0;
    let mut i: usize = start;
    assert(digits.take(0) =~= Seq::empty());
    while i < len
        invariant
            start <= i <= len,
            len == line@.len(),
            digits == line@.skip(start as int),
            all_digits(digits),
            0 <= digits_value(digits.take(i - start)),
            size == if digits_value(digits.take(i - start)) > EXPONENT_CAP {
                EXPONENT_CAP as int
            } else {
                digits_value(digits.take(i - start))
            },
        decreases len - i,
    {
        let c = line.get_char(i);
        let ghost j = i - start;
        proof {
            assert(digits[j] == c);
            assert(is_digit(digits[j]));
            assert(digits.take(j + 1).drop_last() == digits.take(j));
            assert(digits.take(j + 1).last() == c);
        }
        let d = (c as u8 - 48u8) as i128;
        if size >= EXPONENT_CAP {
            size = EXPONENT_CAP;
        } else {
            size = size * 10 + d;
            if size > EXPONENT_CAP {
                size = EXPONENT_CAP;
            }
        }
        i += 1;
    }
    assert(digits.take(len - start) == digits);
    if negative {
        Some(-size)
    } else {
        Some(size)
    }
}

/// The digits of a number in a line: those of its whole from `start` to
/// `whole_end`, and those of its fraction from `fraction_start` to
/// `fraction_end`.
pub open spec fn digits_in(
    line: Seq<char>,
    start: int,
    whole_end: int,
    fraction_start: int,
    fraction_end: int,
) -> Seq<char> {
    line.subrange(start, whole_end) + line.subrange(fraction_start, fraction_end)
}

/// Works out the whole number in front of a decimal point that stands `point`
/// places from the left end of the digits of a number in a line; the limit
/// where it is beyond the limit.
fn shift_digits(
    line: &str,
    start: usize,
    whole_end: usize,
    fraction_start: usize,
    fraction_end: usize,
    point: i128,
) -> (v: i64)
    requires
        start <= whole_end <= fraction_start <= fraction_end <= line@.len(),
        forall|k: int| start <= k < whole_end ==> is_digit(#[trigger] line@[k]),
        forall|k: int| fraction_start <= k < fraction_end ==> is_digit(#[trigger] line@[k]),
    ensures
        0 <= v <= VALUE_LIMIT,
        v == if shifted_value(
            digits_in(
                line@,
                start as int,
                whole_end as int,
                fraction_start as int,
                fraction_end as int,
            ),
            point as int,
        ) > VALUE_LIMIT {
            VALUE_LIMIT as int
        } else {
            shifted_value(
                digits_in(
                    line@,
                    start as int,
                    whole_end as int,
                    fraction_start as int,
                    fraction_end as int,
                ),
                point as int,
            )
        },
{
    let ghost d = digits_in(
        line@,
        start as int,
        whole_end as int,
        fraction_start as int,
        fraction_end as int,
    );
    let whole_len: usize = whole_end - start;
    let count: usize = whole_len + (fraction_end - fraction_start);
    proof {
        assert(d.len() == count);
        assert forall|k: int| 0 <= k < d.len() implies is_digit(#[trigger] d[k]) by {
            if k < whole_len {
                assert(d[k] == line@[start + k]);
            } else {
                assert(d[k] == line@[fraction_start + (k - whole_len)]);
            }
        }
    }
    proof {
        lemma_shifted_grows(d, point as int, point as int);
    }
    if point <= 0 {
        return 0;
    }
    let keep: usize = if point < count as i128 {
        point as usize
    } else {
        count
    };
    let mut acc: u128 = 0;
    let mut k: usize = 0;
    while k < keep
        invariant
            k <= keep <= count,
            keep <= point,
            count == d.len(),
            whole_len == whole_end - start,
            count == whole_len + (fraction_end - fraction_start),
            start <= whole_end <= fraction_start <= fraction_end <= line@.len(),
            all_digits(d),
            d == digits_in(
                line@,
                start as int,
                whole_end as int,
                fraction_start as int,
                fraction_end as int,
            ),
            acc == shifted_value(d, k as int),
            acc <= VALUE_LIMIT,
        decreases keep - k,
    {
        let c = if k < whole_len {
            line.get_char(start + k)
        } else {
            line.get_char(fraction_start + (k - whole_len))
        };
        proof {
            if k < whole_len {
                assert(d[k as int] == line@[start + k]);
            } else {
                assert(d[k as int] == line@[fraction_start + (k - whole_len)]);
            }
            assert(d[k as int] == c);
            assert(is_digit(d[k as int]));
            let next = d.take(k + 1);
            assert(next.drop_last() == d.take(k as int));
            assert(next.last() == c);
            assert(digits_value(next) == digits_value(next.drop_last()) * 10 + (c as int
                - '0' as int));
            assert(shifted_value(d, k + 1) == digits_value(next));
            if k > 0 {
                assert(shifted_value(d, k as int) == digits_value(d.take(k as int)));
            } else {
                assert(d.take(0) =~= Seq::empty());
                assert(digits_value(d.take(0)) == 0);
            }
        }
        acc = acc * 10 + (c as u8 - 48u8) as u128;
        assert(acc == shifted_value(d, k + 1));
        if acc > 9_223_372_036_854_775_807u128 {
            proof {
                lemma_shifted_grows(d, k + 1, point as int);
            }
            return VALUE_LIMIT;
        }
        k += 1;
    }
    if point <= count as i128 {
        return acc as i64;
    }
    proof {
        assert(d.take(count as int) == d);
        lemma_shifted_behind(d, 0);
        assert(pow10(0) == 1);
    }
    if acc == 0 {
        proof {
            lemma_shifted_behind(d, (point - count) as nat);
            assert(digits_value(d) * pow10((point - count) as nat) == 0) by (nonlinear_arith)
                requires
                    digits_value(d) == 0,
            ;
        }
        return 0;
    }
    if point - (count as i128) >= 19 {
        proof {
            lemma_far_point(d, point as int);
        }
        return VALUE_LIMIT;
    }
    let zeros: u8 = (point - (count as i128)) as u8;
    let mut z: u8 = 0;
    while z < zeros
        invariant
            z <= zeros < 19,
            zeros == point - count,
            count == d.len(),
            all_digits(d),
            d == digits_in(
                line@,
                start as int,
                whole_end as int,
                fraction_start as int,
                fraction_end as int,
            ),
            acc == shifted_value(d, count + z),
            acc <= VALUE_LIMIT,
        decreases zeros - z,
    {
        proof {
            assert(shifted_value(d, count + z + 1) == 10 * shifted_value(d, count + z));
        }
        acc = acc * 10;
        if acc > 9_223_372_036_854_775_807u128 {
            proof {
                lemma_shifted_grows(d, count + z + 1, point as int);
            }
            return VALUE_LIMIT;
        }
        z += 1;
    }
    acc as i64
}

/// What a walk over a number in a line has found, said of the number: the
/// walk began at `start`, saw digits up to `whole_end`, then, where `dotted`,
/// a point and more digits, and ended at `end`.
pub proof fn lemma_number_in_line(
    line: Seq<char>,
    start: int,
    whole_end: int,
    dotted: bool,
    end: int,
)
    requires
        0 <= start <= whole_end <= end <= line.len(),
        forall|k: int| start <= k < whole_end ==> is_digit(#[trigger] line[k]),
        dotted ==> whole_end < end && line[whole_end] == '.',
        dotted ==> forall|k: int| whole_end < k < end ==> is_digit(#[trigger] line[k]),
        !dotted ==> end == whole_end,
        end < line.len() ==> !is_digit(line[end]),
        !dotted && end < line.len() ==> line[end] != '.',
    ensures
        end == line.len() || is_exponent_mark(line[end]) ==> {
            &&& find_mark(line.skip(start), 0) == end - start
            &&& all_digits(whole_of(mantissa_of(line.skip(start))))
            &&& all_digits(fraction_of(mantissa_of(line.skip(start))))
            &&& whole_of(mantissa_of(line.skip(start))).len() == whole_end - start
            &&& whole_of(mantissa_of(line.skip(start))) + fraction_of(
                mantissa_of(line.skip(start)),
            ) == digits_in(
                line,
                start,
                whole_end,
                if dotted {
                    whole_end + 1
                } else {
                    whole_end
                },
                end,
            )
        },
        end < line.len() && !is_exponent_mark(line[end]) ==> !all_digits(
            whole_of(mantissa_of(line.skip(start))),
        ) || !all_digits(fraction_of(mantissa_of(line.skip(start)))),
{
    let body = line.skip(start);
    let w = whole_end - start;
    assert forall|k: int| 0 <= k < w implies is_digit(#[trigger] body[k]) by {
        assert(is_digit(line[start + k]));
    }
    if dotted {
        assert forall|k: int| w < k < end - start implies is_digit(#[trigger] body[k]) by {
            assert(is_digit(line[start + k]));
        }
    }
    if end < line.len() {
        assert(body[end - start] == line[end]);
    }
    lemma_mantissa(body, w, dotted, end - start);
    if end == line.len() || is_exponent_mark(line[end]) {
        assert(body.take(w) =~= line.subrange(start, whole_end));
        if dotted {
            assert(body.subrange(w + 1, end - start) =~= line.subrange(whole_end + 1, end));
        } else {
            assert(line.subrange(whole_end, end) =~= Seq::empty());
        }
    }
}

/// An exponent beyond the cap leaves in front of the decimal point what the
/// cap leaves there, as far as the limit lets it be told.
pub proof fn lemma_capped_point(d: Seq<char>, w: int, e: int)
    requires
        all_digits(d),
        0 <= w <= d.len() <= usize::MAX,
    ensures
        shifted_value(d, w + e + 6) > VALUE_LIMIT <==> shifted_value(d, w + capped(e) + 6)
            > VALUE_LIMIT,
        shifted_value(d, w + e + 6) <= VALUE_LIMIT ==> shifted_value(d, w + e + 6)
            == shifted_value(d, w + capped(e) + 6),
{
    if e > EXPONENT_CAP {
        lemma_far_point(d, w + e + 6);
        lemma_far_point(d, w + capped(e) + 6);
    } else if e < -EXPONENT_CAP {
        assert(w + e + 6 <= 0 && w + capped(e) + 6 <= 0);
    }
}

/// Reads the unsigned number that stands in a line from place `start` to the
/// end, in millionths.
fn read_magnitude(line: &str, start: usize) -> (r: Option<i64>)
    requires
        start <= line@.len(),
    ensures
        match r {
            Some(v) => 0 <= v && parse_magnitude(line@.skip(start as int)) == Some(v as int),
            None => parse_magnitude(line@.skip(start as int)) is None,
        },
{
    let len = line.unicode_len();
    let ghost body = line@.skip(start as int);
    let whole_end = skip_digits(line, start);
    let mut dotted = false;
    let mut fraction_start = whole_end;
    let mut fraction_end = whole_end;
    if whole_end < len {
        if line.get_char(whole_end) == '.' {
            dotted = true;
            fraction_start = whole_end + 1;
            fraction_end = skip_digits(line, fraction_start);
        }
    }
    proof {
        lemma_number_in_line(line@, start as int, whole_end as int, dotted, fraction_end as int);
    }
    let mut exponent: i128 = 0;
    if fraction_end < len {
        let c = line.get_char(fraction_end);
        if c == 'e' || c == 'E' {
            assert(body.skip(fraction_end - start + 1) =~= line@.skip(fraction_end + 1));
            match read_exponent(line, fraction_end + 1) {
                None => {
                    return None;
                },
                Some(e) => {
                    exponent = e;
                },
            }
        } else {
            return None;
        }
    }
    if whole_end - start == 0 && fraction_end - fraction_start == 0 {
        return None;
    }
    let point: i128 = (whole_end - start) as i128 + 6 + exponent;
    proof {
        let d = whole_of(mantissa_of(body)) + fraction_of(mantissa_of(body));
        lemma_capped_point(d, whole_end - start, exponent_of(body)->0);
    }
    Some(shift_digits(line, start, whole_end, fraction_start, fraction_end, point))
}

/// Says whether what stands in a line from place `start` to the end is the
/// word, in upper-case or lower-case letters or both.
fn spells_word(line: &str, start: usize, word: &[char]) -> (b: bool)
    requires
        start <= line@.len(),
    ensures
        b == spells(line@.skip(start as int), word@),
{
    let len = line.unicode_len();
    if len - start != word.len() {
        return false;
    }
    let ghost s = line@.skip(start as int);
    let mut k: usize = 0;
    while k < word.len()
        invariant
            k <= word@.len(),
            start + word@.len() == len,
            len == line@.len(),
            s == line@.skip(start as int),
            forall|i: int| 0 <= i < k ==> lower_case(s[i]) == #[trigger] word@[i],
        decreases word@.len() - k,
    {
        let c = line.get_char(start + k);
        assert(c == s[k as int]);
        let low = if 'A' <= c && c <= 'Z' {
            (c as u8 + 32u8) as char
        } else {
            c
        };
        if low != word[k] {
            return false;
        }
        k += 1;
    }
    true
}

/// Reads what stands in a line from place `from` to the end as a number as
/// floats are written, in millionths.
pub fn read_value(line: &str, from: usize) -> (r: Option<i64>)
    requires
        from <= line@.len(),
    ensures
        match r {
            Some(v) => parse_millionths(line@.skip(from as int)) == Some(v as int),
            None => parse_millionths(line@.skip(from as int)) is None,
        },
{
    let len = line.unicode_len();
    let ghost s = line@.skip(from as int);
    let mut start: usize = from;
    let mut negative = false;
    if start < len {
        let c = line.get_char(start);
        assert(c == s[0]);
        if c == '-' {
            negative = true;
            start += 1;
        } else if c == '+' {
            start += 1;
        }
    }
    assert(line@.skip(start as int) =~= without_sign(s));
    let nan = ['n', 'a', 'n'];
    let inf = ['i', 'n', 'f'];
    let infinity = ['i', 'n', 'f', 'i', 'n', 'i', 't', 'y'];
    proof {
        assert(nan@ =~= seq!['n', 'a', 'n']);
        assert(inf@ =~= seq!['i', 'n', 'f']);
        assert(infinity@ =~= seq!['i', 'n', 'f', 'i', 'n', 'i', 't', 'y']);
    }
    if spells_word(line, start, nan.as_slice()) {
        return Some(NOT_A_NUMBER);
    }
    let size = if spells_word(line, start, inf.as_slice()) || spells_word(
        line,
        start,
        infinity.as_slice(),
    ) {
        Some(VALUE_LIMIT)
    } else {
        read_magnitude(line, start)
    };
    match size {
        None => None,
        Some(v) => if negative {
            Some(-v)
        } else {
            Some(v)
        },
    }
}

} // verus!
