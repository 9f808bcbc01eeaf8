//! Fixed-point decimal parsing: a temperature written with one fractional
//! digit becomes an integer count of tenths.
use vstd::prelude::*;

verus! {

/// ASCII `-`.
pub const MINUS: u8 = 45;

/// ASCII `.`.
pub const DOT: u8 = 46;

/// ASCII `0`.
pub const ZERO: u8 = 48;

/// ASCII `9`.
pub const NINE: u8 = 57;

pub open spec fn is_digit(b: u8) -> bool {
    ZERO <= b && b <= NINE
}

/// Where the digits of `s` begin: after a leading minus sign, if any.
pub open spec fn digits_start(s: Seq<u8>) -> int {
    if s.len() > 0 && s[0] == MINUS {
        1
    } else {
        0
    }
}

/// The grammar `'-'? digit+ '.' digit`.
pub open spec fn is_measurement_text(s: Seq<u8>) -> bool {
    let st = digits_start(s);
    &&& s.len() >= st + 3
    &&& s[s.len() - 2] == DOT
    &&& is_digit(s[s.len() - 1])
    &&& forall|i: int| st <= i < s.len() - 2 ==> is_digit(#[trigger] s[i])
}

/// The number spelled by the digits of `s`, read left to right, with every
/// `.` skipped.
pub open spec fn digits_value(s: Seq<u8>) -> int
    decreases s.len(),
{
    if s.len() == 0 {
        0
    } else if s.last() == DOT {
        digits_value(s.drop_last())
    } else {
        digits_value(s.drop_last()) * 10 + (s.last() - ZERO)
    }
}

/// The magnitude of a measurement in tenths, sign left out.
pub open spec fn magnitude(s: Seq<u8>) -> int {
    digits_value(s.subrange(digits_start(s), s.len() as int))
}

/// The value of a measurement in tenths: ten times the decimal it spells.
pub open spec fn measurement_value(s: Seq<u8>) -> int {
    if digits_start(s) == 1 {
        -magnitude(s)
    } else {
        magnitude(s)
    }
}

/// A well-formed measurement whose value in tenths fits an `i16`.
pub open spec fn is_parsable(s: Seq<u8>) -> bool {
    is_measurement_text(s) && magnitude(s) <= i16::MAX
}

/// Reading one more digit or dot never makes the value smaller.
proof fn lemma_digits_value_monotone(s: Seq<u8>, j: int, k: int)
    requires
        0 <= j <= k <= s.len(),
        forall|i: int| 0 <= i < s.len() ==> is_digit(#[trigger] s[i]) || s[i] == DOT,
    ensures
        0 <= digits_value(s.subrange(0, j)) <= digits_value(s.subrange(0, k)),
    decreases k - j,
{
    if j < k {
        lemma_digits_value_monotone(s, j, k - 1);
        assert(s.subrange(0, k).drop_last() =~= s.subrange(0, k - 1));
    } else {
        lemma_digits_value_nonneg(s.subrange(0, j));
    }
}

proof fn lemma_digits_value_nonneg(s: Seq<u8>)
    requires
        forall|i: int| 0 <= i < s.len() ==> is_digit(#[trigger] s[i]) || s[i] == DOT,
    ensures
        digits_value(s) >= 0,
    decreases s.len(),
{
    if s.len() > 0 {
        lemma_digits_value_nonneg(s.drop_last());
    }
}

/// A measurement that parses has a value that fits an `i16`.
pub proof fn lemma_value_range(s: Seq<u8>)
    requires
        is_parsable(s),
    ensures
        i16::MIN <= measurement_value(s) <= i16::MAX,
{
    let start = digits_start(s);
    let digits = s.subrange(start, s.len() as int);
    assert forall|i: int| 0 <= i < digits.len() implies is_digit(#[trigger] digits[i])
        || digits[i] == DOT by {
        assert(digits[i] == s[i + start]);
        if i + start < s.len() - 2 {
            assert(is_digit(s[i + start]));
        }
    }
    lemma_digits_value_nonneg(digits);
}

/// Parses a temperature such as `-12.3` into tenths (`-123`).
///
/// The input is not validated: it must follow the measurement grammar and
/// its value must fit an `i16`.
pub fn parse_measurement(measurement: &[u8]) -> (r: i16)
    requires
        is_parsable(measurement@),
    ensures
        r as int == measurement_value(measurement@),
{
    let ghost s = measurement@;
    let neg: bool = measurement[0] == MINUS;
    let start: usize = if neg { 1 } else { 0 };
    let ghost digits = s.subrange(start as int, s.len() as int);
    assert forall|i: int| 0 <= i < digits.len() implies is_digit(#[trigger] digits[i])
        || digits[i] == DOT by {
        assert(digits[i] == s[i + start]);
        if i + start < s.len() - 2 {
            assert(is_digit(s[i + start]));
        }
    }
    let mut value: i16 = 0;
    let mut i: usize = start;
    while i < measurement.len()
        invariant
            s == measurement@,
            start == digits_start(s),
            digits == s.subrange(start as int, s.len() as int),
            forall|k: int| 0 <= k < digits.len() ==> is_digit(#[trigger] digits[k]) || digits[k]
                == DOT,
            digits_value(digits) <= i16::MAX,
            start <= i <= s.len(),
            value as int == digits_value(digits.subrange(0, i - start)),
        decreases s.len() - i,
    {
        proof {
            assert(digits.subrange(0, digits.len() as int) =~= digits);
            lemma_digits_value_monotone(digits, i - start + 1, digits.len() as int);
            let next = digits.subrange(0, i - start + 1);
            assert(next.drop_last() =~= digits.subrange(0, i - start));
            assert(next.last() == measurement[i as int]);
        }
        if measurement[i] == DOT {
            i += 1;
            continue;
        }
        value = value * 10 + (measurement[i] - ZERO) as i16;
        i += 1;
    }
    proof {
        assert(digits.subrange(0, i - start) =~= digits);
        lemma_digits_value_nonneg(digits);
        assert(value as int == magnitude(s));
    }
    if neg {
        value = -value;
    }
    value
}

/// Tells whether `measurement` follows the measurement grammar with a value
/// that fits an `i16`, which is what `parse_measurement` asks of its input.
pub fn is_parsable_measurement(measurement: &[u8]) -> (r: bool)
    ensures
        r == is_parsable(measurement@),
{
    let ghost s = measurement@;
    let len = measurement.len();
    let start: usize = if len > 0 && measurement[0] == MINUS { 1 } else { 0 };
    if len < start + 3 || measurement[len - 2] != DOT || measurement[len - 1] < ZERO
        || measurement[len - 1] > NINE {
        return false;
    }
    let mut i: usize = start;
    while i < len - 2
        invariant
            s == measurement@,
            len == s.len(),
            start == digits_start(s),
            s.len() >= start + 3,
            start <= i <= len - 2,
            forall|k: int| start <= k < i ==> is_digit(#[trigger] s[k]),
        decreases len - 2 - i,
    {
        if measurement[i] < ZERO || measurement[i] > NINE {
            return false;
        }
        i += 1;
    }
    assert(is_measurement_text(s));
    let ghost digits = s.subrange(start as int, s.len() as int);
    assert forall|k: int| 0 <= k < digits.len() implies is_digit(#[trigger] digits[k])
        || digits[k] == DOT by {
        assert(digits[k] == s[k + start]);
        if k + start < s.len() - 2 {
            assert(is_digit(s[k + start]));
        }
    }
    let mut value: u32 = 0;
    let mut j: usize = start;
    while j < len
        invariant
            s == measurement@,
            len == s.len(),
            start == digits_start(s),
            is_measurement_text(s),
            digits == s.subrange(start as int, s.len() as int),
            forall|k: int| 0 <= k < digits.len() ==> is_digit(#[trigger] digits[k]) || digits[k]
                == DOT,
            start <= j <= len,
            value <= i16::MAX,
            value as int == digits_value(digits.subrange(0, j - start)),
        decreases len - j,
    {
        proof {
            assert(digits.subrange(0, digits.len() as int) =~= digits);
            lemma_digits_value_monotone(digits, j - start + 1, digits.len() as int);
            let next = digits.subrange(0, j - start + 1);
            assert(next.drop_last() =~= digits.subrange(0, j - start));
            assert(next.last() == measurement[j as int]);
        }
        if measurement[j] != DOT {
            value = value * 10 + (measurement[j] - ZERO) as u32;
            if value > 32767 {
                return false;
            }
        }
        j += 1;
    }
    proof {
        assert(digits.subrange(0, j - start) =~= digits);
    }
    true
}

} // verus!
