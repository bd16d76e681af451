//! Reading the numbers of a mesh description: vertex indices and decimal
//! coordinates.

use vstd::prelude::*;
use crate::fixed::clamp;
use crate::text::{copy_range, find, is_digit, lemma_scan, scan, Mark};

verus! {

/// The number of decimal places that a coordinate keeps: `ONE` is ten to
/// this power.
pub const PLACES: usize = 6;

/// The value of a decimal digit.
pub open spec fn digit(c: char) -> int {
    c as int - 48
}

/// Whether `s` consists of decimal digits only.
pub open spec fn all_digits(s: Seq<char>) -> bool {
    forall|i: int| 0 <= i < s.len() ==> is_digit(#[trigger] s[i])
}

/// The number that a string of decimal digits writes.
pub open spec fn digits_value(s: Seq<char>) -> int
    decreases s.len(),
{
    if s.len() == 0 {
        0
    } else {
        digits_value(s.drop_last()) * 10 + digit(s.last())
    }
}

/// Ten to the power `n`.
pub open spec fn pow10(n: nat) -> int
    decreases n,
{
    if n == 0 {
        1
    } else {
        10 * pow10((n - 1) as nat)
    }
}

/// The digits of a string of digits write no negative number, and no part
/// of them at its start writes a larger one.
pub proof fn lemma_digits_value_grows(s: Seq<char>, k: int)
    requires
        all_digits(s),
        0 <= k <= s.len(),
    ensures
        0 <= digits_value(s.take(k)) <= digits_value(s),
    decreases s.len() - k,
{
    if k == s.len() {
        assert(s.take(k) =~= s);
        lemma_digits_value_nonnegative(s);
    } else {
        lemma_digits_value_grows(s, k + 1);
        let longer = s.take(k + 1);
        assert(longer.drop_last() =~= s.take(k));
        assert(is_digit(s[k]));
        assert(longer.last() == s[k]);
        lemma_digits_value_nonnegative(s.take(k));
    }
}

/// A string of digits writes no negative number.
pub proof fn lemma_digits_value_nonnegative(s: Seq<char>)
    requires
        all_digits(s),
    ensures
        0 <= digits_value(s),
    decreases s.len(),
{
    if s.len() > 0 {
        assert(is_digit(s[s.len() - 1]));
        lemma_digits_value_nonnegative(s.drop_last());
    }
}

/// Powers of ten are positive and grow with the exponent.
pub proof fn lemma_pow10_grows(m: nat, n: nat)
    requires
        m <= n,
    ensures
        1 <= pow10(m) <= pow10(n),
    decreases n,
{
    if n == 0 {
    } else if m == n {
        lemma_pow10_grows(0, (n - 1) as nat);
    } else {
        lemma_pow10_grows(m, (n - 1) as nat);
    }
}

/// The text without a leading plus sign.
pub open spec fn unsigned_body(s: Seq<char>) -> Seq<char> {
    if s.len() > 0 && s[0] == '+' {
        s.skip(1)
    } else {
        s
    }
}

/// The number that `s` writes as a vertex index: an optional plus sign and
/// one or more decimal digits that stay within `usize`.
pub open spec fn index_value(s: Seq<char>) -> Option<int> {
    let body = unsigned_body(s);
    if body.len() > 0 && all_digits(body) && digits_value(body) <= usize::MAX {
        Some(digits_value(body))
    } else {
        None
    }
}

/// Computes [`index_value`].
pub fn parse_index(s: &Vec<char>) -> (value: Option<usize>)
    ensures
        value is Some <==> index_value(s@) is Some,
        value is Some ==> value->0 == index_value(s@)->0,
{
    let start: usize = if s.len() > 0 && s[0] == '+' { 1 } else { 0 };
    let ghost body = unsigned_body(s@);
    assert(body =~= s@.subrange(start as int, s@.len() as int));
    if start == s.len() {
        return None;
    }
    let mut acc: usize = 0;
    let mut i: usize = start;
    while i < s.len()
        invariant
            start <= i <= s@.len(),
            body == unsigned_body(s@),
            body == s@.subrange(start as int, s@.len() as int),
            all_digits(body.take(i - start)),
            acc == digits_value(body.take(i - start)),
        decreases s@.len() - i,
    {
        let c = s[i];
        let ghost longer = body.take(i - start + 1);
        assert(longer.drop_last() =~= body.take(i - start));
        assert(longer.last() == c);
        if !('0' <= c && c <= '9') {
            assert(!is_digit(body[i - start]));
            return None;
        }
        let d: usize = (c as u32 - 48) as usize;
        if acc > (usize::MAX - d) / 10 {
            proof {
                if all_digits(body) {
                    lemma_digits_value_grows(body, i - start + 1);
                }
            }
            return None;
        }
        acc = acc * 10 + d;
        i += 1;
    }
    assert(body.take(i - start) =~= body);
    Some(acc)
}

/// A decimal number as it is written: sign, digits before and after the
/// point, and the power of ten that scales them.
pub struct Decimal {
    pub negative: bool,
    pub whole: Seq<char>,
    pub fraction: Seq<char>,
    pub exponent: int,
}

/// Whether `c` is a plus or a minus sign.
pub open spec fn is_sign(c: char) -> bool {
    c == '+' || c == '-'
}

/// The exponent that the end of a number writes: nothing, for zero, or the
/// letter `e` or `E`, an optional sign and one or more digits.
pub open spec fn exponent(s: Seq<char>) -> Option<int> {
    if s.len() == 0 {
        Some(0)
    } else if s[0] != 'e' && s[0] != 'E' {
        None
    } else {
        let signed = s.len() > 1 && is_sign(s[1]);
        let digits = s.skip(
            if signed {
                2
            } else {
                1
            },
        );
        if digits.len() > 0 && all_digits(digits) {
            Some(
                if signed && s[1] == '-' {
                    -digits_value(digits)
                } else {
                    digits_value(digits)
                },
            )
        } else {
            None
        }
    }
}

/// The parts of the decimal number that `s` writes: an optional sign,
/// digits with an optional point among them (at least one digit in all),
/// and an optional exponent.
pub open spec fn decimal(s: Seq<char>) -> Option<Decimal> {
    let signed = s.len() > 0 && is_sign(s[0]);
    let start: int = if signed {
        1
    } else {
        0
    };
    let whole_end = scan(s, start, Mark::NonDigit);
    let pointed = whole_end < s.len() && s[whole_end] == '.';
    let fraction_start = if pointed {
        whole_end + 1
    } else {
        whole_end
    };
    let fraction_end = scan(s, fraction_start, Mark::NonDigit);
    let whole = s.subrange(start, whole_end);
    let fraction = s.subrange(fraction_start, fraction_end);
    if whole.len() + fraction.len() == 0 {
        None
    } else {
        match exponent(s.subrange(fraction_end, s.len() as int)) {
            Some(e) => Some(
                Decimal { negative: signed && s[0] == '-', whole, fraction, exponent: e },
            ),
            None => None,
        }
    }
}

/// The number written by the first `keep` of the digits; where `keep`
/// exceeds their count, zeros are supplied.
pub open spec fn shifted(digits: Seq<char>, keep: int) -> int {
    if keep <= 0 {
        0
    } else if keep <= digits.len() {
        digits_value(digits.take(keep))
    } else {
        digits_value(digits) * pow10((keep - digits.len()) as nat)
    }
}

/// The magnitude of a decimal number in millionths, rounded towards zero.
pub open spec fn magnitude_of(d: Decimal) -> int {
    shifted(d.whole + d.fraction, d.whole.len() + d.exponent + PLACES)
}

/// The coordinate that `s` writes, in millionths and rounded towards zero:
/// nothing if `s` is no decimal number or its magnitude exceeds `i64::MAX`.
pub open spec fn coordinate_value(s: Seq<char>) -> Option<int> {
    match decimal(s) {
        Some(d) => if magnitude_of(d) <= i64::MAX {
            Some(
                if d.negative {
                    -magnitude_of(d)
                } else {
                    magnitude_of(d)
                },
            )
        } else {
            None
        },
        None => None,
    }
}

/// Exponents are computed up to this magnitude; beyond it every exponent
/// gives the same coordinate.
pub const EXPONENT_CAP: i128 = 0x10_0000_0000_0000_0000_0000_0000;

/// Reads the exponent that `s` writes from position `from` on, limited to
/// [`EXPONENT_CAP`] in magnitude.
fn parse_exponent(s: &Vec<char>, from: usize) -> (value: Option<i128>)
    requires
        from <= s@.len(),
    ensures
        value is Some <==> exponent(s@.subrange(from as int, s@.len() as int)) is Some,
        value is Some ==> value->0 == clamp(
            exponent(s@.subrange(from as int, s@.len() as int))->0,
            -EXPONENT_CAP as int,
            EXPONENT_CAP as int,
        ),
{
    let ghost tail = s@.subrange(from as int, s@.len() as int);
    if from == s.len() {
        return Some(0);
    }
    assert(tail[0] == s@[from as int]);
    if s[from] != 'e' && s[from] != 'E' {
        return None;
    }
    let signed = from + 1 < s.len() && (s[from + 1] == '+' || s[from + 1] == '-');
    if signed {
        assert(tail[1] == s@[from + 1]);
    }
    let negative = signed && s[from + 1] == '-';
    let start: usize = if signed { from + 2 } else { from + 1 };
    let ghost digits = tail.skip(
        if signed {
            2
        } else {
            1
        },
    );
    assert(digits =~= s@.subrange(start as int, s@.len() as int));
    if start == s.len() {
        return None;
    }
    let mut acc: i128 = 0;
    let mut i: usize = start;
    while i < s.len()
        invariant
            from <= start <= i <= s@.len(),
            tail == s@.subrange(from as int, s@.len() as int),
            digits == s@.subrange(start as int, s@.len() as int),
            digits.len() > 0,
            exponent(tail) == if all_digits(digits) {
                Some(
                    if negative {
                        -digits_value(digits)
                    } else {
                        digits_value(digits)
                    },
                )
            } else {
                None::<int>
            },
            all_digits(digits.take(i - start)),
            0 <= acc <= EXPONENT_CAP,
            acc == clamp(digits_value(digits.take(i - start)), 0, EXPONENT_CAP as int),
        decreases s@.len() - i,
    {
        let c = s[i];
        let ghost shorter = digits.take(i - start);
        let ghost longer = digits.take(i - start + 1);
        assert(longer.drop_last() =~= shorter);
        assert(longer.last() == c);
        if !('0' <= c && c <= '9') {
            assert(!is_digit(digits[i - start]));
            return None;
        }
        proof {
            lemma_digits_value_nonnegative(shorter);
        }
        let d: i128 = (c as u32 - 48) as i128;
        let next: i128 = acc * 10 + d;
        acc = if next > EXPONENT_CAP { EXPONENT_CAP } else { next };
        i += 1;
    }
    assert(digits.take(i - start) =~= digits);
    proof {
        lemma_digits_value_nonnegative(digits);
    }
    if negative {
        Some(-acc)
    } else {
        Some(acc)
    }
}

/// With more than nineteen zeros supplied, the digits either write zero or
/// a number beyond `i64::MAX`, however many zeros there are.
proof fn lemma_far_shift(digits: Seq<char>, keep: int, other: int)
    requires
        all_digits(digits),
        keep > digits.len() + 19,
        other > digits.len() + 19,
    ensures
        shifted(digits, keep) <= i64::MAX <==> shifted(digits, other) <= i64::MAX,
        shifted(digits, keep) <= i64::MAX ==> shifted(digits, keep) == shifted(digits, other),
{
    let value = digits_value(digits);
    let a = pow10((keep - digits.len()) as nat);
    let b = pow10((other - digits.len()) as nat);
    lemma_digits_value_nonnegative(digits);
    lemma_pow10_grows(19, (keep - digits.len()) as nat);
    lemma_pow10_grows(19, (other - digits.len()) as nat);
    assert(pow10(19) == 10_000_000_000_000_000_000) by {
        reveal_with_fuel(pow10, 20);
    }
    if value == 0 {
        assert(value * a == 0 && value * b == 0) by (nonlinear_arith)
            requires
                value == 0,
        ;
    } else {
        assert(value * a >= a && value * b >= b) by (nonlinear_arith)
            requires
                value >= 1,
                a >= 1,
                b >= 1,
        ;
    }
}

/// Limiting the exponent to [`EXPONENT_CAP`] does not change the
/// coordinate.
proof fn lemma_capped_keep(digits: Seq<char>, whole: int, exact: int, capped: int)
    requires
        all_digits(digits),
        0 <= whole <= digits.len() <= usize::MAX,
        capped == clamp(exact, -EXPONENT_CAP as int, EXPONENT_CAP as int),
    ensures
        shifted(digits, whole + exact + PLACES) <= i64::MAX <==> shifted(
            digits,
            whole + capped + PLACES,
        ) <= i64::MAX,
        shifted(digits, whole + exact + PLACES) <= i64::MAX ==> shifted(
            digits,
            whole + exact + PLACES,
        ) == shifted(digits, whole + capped + PLACES),
{
    if exact > EXPONENT_CAP {
        lemma_far_shift(digits, whole + exact + PLACES, whole + capped + PLACES);
    }
}

/// The digits of `first` followed by those of `second`.
fn concat(first: &Vec<char>, second: &Vec<char>) -> (both: Vec<char>)
    requires
        all_digits(first@),
        all_digits(second@),
    ensures
        both@ == first@ + second@,
        all_digits(both@),
{
    let mut both: Vec<char> = Vec::new();
    let mut i: usize = 0;
    while i < first.len()
        invariant
            i <= first@.len(),
            both@ == first@.take(i as int),
        decreases first@.len() - i,
    {
        both.push(first[i]);
        assert(both@ =~= first@.take(i + 1));
        i += 1;
    }
    assert(first@.take(i as int) =~= first@);
    let mut j: usize = 0;
    while j < second.len()
        invariant
            j <= second@.len(),
            both@ == first@ + second@.take(j as int),
        decreases second@.len() - j,
    {
        both.push(second[j]);
        assert(both@ =~= first@ + second@.take(j + 1));
        j += 1;
    }
    assert(second@.take(j as int) =~= second@);
    both
}

/// Computes [`shifted`] where the result fits a coordinate.
fn scale_digits(digits: &Vec<char>, keep: i128) -> (value: Option<i64>)
    requires
        all_digits(digits@),
    ensures
        value is Some <==> shifted(digits@, keep as int) <= i64::MAX,
        value is Some ==> value->0 == shifted(digits@, keep as int),
        value is Some ==> value->0 >= 0,
{
    if keep <= 0 {
        return Some(0);
    }
    let count: usize = if keep <= digits.len() as i128 { keep as usize } else { digits.len() };
    let ghost kept = digits@.take(count as int);
    let mut acc: i64 = 0;
    let mut i: usize = 0;
    while i < count
        invariant
            i <= count <= digits@.len(),
            count == (if keep <= digits@.len() { keep as int } else { digits@.len() as int }),
            keep > 0,
            all_digits(digits@),
            kept == digits@.take(count as int),
            0 <= acc,
            acc == digits_value(digits@.take(i as int)),
        decreases count - i,
    {
        let c = digits[i];
        assert(is_digit(digits@[i as int]));
        let ghost longer = digits@.take(i + 1);
        assert(longer.drop_last() =~= digits@.take(i as int));
        assert(longer.last() == c);
        let d: i64 = (c as u32 - 48) as i64;
        if acc > (i64::MAX - d) / 10 {
            proof {
                assert(digits_value(longer) > i64::MAX);
                assert(kept.take(i + 1) =~= longer);
                lemma_digits_value_grows(kept, i + 1);
                if keep > digits@.len() {
                    assert(kept =~= digits@);
                    let zeros = pow10((keep - digits@.len()) as nat);
                    lemma_pow10_grows(0, (keep - digits@.len()) as nat);
                    assert(digits_value(digits@) * zeros >= digits_value(digits@))
                        by (nonlinear_arith)
                        requires
                            digits_value(digits@) >= 0,
                            zeros >= 1,
                    ;
                }
            }
            return None;
        }
        acc = acc * 10 + d;
        i += 1;
    }
    if keep <= digits.len() as i128 {
        return Some(acc);
    }
    assert(digits@.take(count as int) =~= digits@);
    let ghost whole = digits_value(digits@);
    let ghost missing = (keep - digits@.len()) as nat;
    if acc == 0 {
        assert(whole * pow10(missing) == 0) by (nonlinear_arith)
            requires
                whole == 0,
        ;
        return Some(0);
    }
    let mut left: i128 = keep - digits.len() as i128;
    let ghost mut done: nat = 0;
    while left > 0
        invariant
            0 <= left,
            done + left == missing,
            whole >= 1,
            whole == digits_value(digits@),
            missing == keep - digits@.len(),
            keep > digits@.len(),
            acc == whole * pow10(done),
            acc >= 1,
        decreases left,
    {
        proof {
            lemma_pow10_grows(done + 1, missing);
            assert(whole * pow10(done + 1) == 10 * (whole * pow10(done))) by (nonlinear_arith)
                requires
                    pow10(done + 1) == 10 * pow10(done),
            ;
            assert(whole * pow10(done + 1) <= whole * pow10(missing)) by (nonlinear_arith)
                requires
                    whole >= 1,
                    pow10(done + 1) <= pow10(missing),
            ;
        }
        if acc > i64::MAX / 10 {
            return None;
        }
        acc = acc * 10;
        left = left - 1;
        proof {
            done = done + 1;
        }
    }
    Some(acc)
}

/// Reads a coordinate: computes [`coordinate_value`].
pub fn parse_coordinate(s: &Vec<char>) -> (value: Option<i64>)
    ensures
        value is Some <==> coordinate_value(s@) is Some,
        value is Some ==> value->0 == coordinate_value(s@)->0,
{
    let signed = s.len() > 0 && (s[0] == '+' || s[0] == '-');
    let negative = signed && s[0] == '-';
    let start: usize = if signed { 1 } else { 0 };
    let whole_end = find(s, start, Mark::NonDigit);
    let pointed = whole_end < s.len() && s[whole_end] == '.';
    let fraction_start: usize = if pointed { whole_end + 1 } else { whole_end };
    let fraction_end = find(s, fraction_start, Mark::NonDigit);
    if whole_end - start + (fraction_end - fraction_start) == 0 {
        return None;
    }
    let capped = match parse_exponent(s, fraction_end) {
        Some(e) => e,
        None => {
            return None;
        },
    };
    let whole = copy_range(s, start, whole_end);
    let fraction = copy_range(s, fraction_start, fraction_end);
    proof {
        lemma_scan(s@, start as int, Mark::NonDigit);
        lemma_scan(s@, fraction_start as int, Mark::NonDigit);
        assert(all_digits(whole@)) by {
            assert forall|i: int| 0 <= i < whole@.len() implies is_digit(#[trigger] whole@[i]) by {
                assert(whole@[i] == s@[start + i]);
            }
        }
        assert(all_digits(fraction@)) by {
            assert forall|i: int| 0 <= i < fraction@.len() implies is_digit(
                #[trigger] fraction@[i],
            ) by {
                assert(fraction@[i] == s@[fraction_start + i]);
            }
        }
    }
    let digits = concat(&whole, &fraction);
    let keep: i128 = (whole_end - start) as i128 + capped + PLACES as i128;
    proof {
        let written = decimal(s@)->0;
        assert(written.whole == whole@);
        assert(written.fraction == fraction@);
        lemma_capped_keep(digits@, whole@.len() as int, written.exponent, capped as int);
    }
    match scale_digits(&digits, keep) {
        Some(magnitude) => Some(if negative { -magnitude } else { magnitude }),
        None => None,
    }
}

} // verus!
