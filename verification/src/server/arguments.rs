//! Arguments of the server programs.

use vstd::prelude::*;
use vstd::string::StringSliceAdditionalSpecFns;

verus! {

/// Is this the byte of a decimal digit?
pub open spec fn digit(b: u8) -> bool {
    0x30 <= b <= 0x39
}

/// The number that digits spell.
pub open spec fn decimal(digits: Seq<u8>) -> nat
    decreases digits.len(),
{
    if digits.len() == 0 {
        0
    } else {
        10 * decimal(digits.drop_last()) + (digits.last() - 0x30) as nat
    }
}

/// The digits of an argument: all of it, or all behind one plus sign.
pub open spec fn digits_of(bytes: Seq<u8>) -> Seq<u8> {
    if bytes.len() > 0 && bytes[0] == 0x2b {
        bytes.skip(1)
    } else {
        bytes
    }
}

/// The number that an argument spells, if it spells one of at most `max`.
pub open spec fn spelled(bytes: Seq<u8>, max: u64) -> Option<u64> {
    let digits = digits_of(bytes);
    if digits.len() > 0 && (forall|i: int| 0 <= i < digits.len() ==> digit(#[trigger] digits[i]))
        && decimal(digits) <= max {
        Some(decimal(digits) as u64)
    } else {
        None
    }
}

/// Longer spellings are of larger numbers.
proof fn lemma_decimal_grows(digits: Seq<u8>, n: int)
    requires
        0 <= n <= digits.len(),
        forall|i: int| 0 <= i < digits.len() ==> digit(#[trigger] digits[i]),
    ensures
        decimal(digits.take(n)) <= decimal(digits),
    decreases digits.len(),
{
    if n == digits.len() {
        assert(digits.take(n) =~= digits);
    } else {
        assert(digits.drop_last().take(n) =~= digits.take(n));
        lemma_decimal_grows(digits.drop_last(), n);
        assert(digit(digits[digits.len() - 1]));
    }
}

/// Reads a decimal number of at most `max`.
pub fn parse_number(bytes: &[u8], max: u64) -> (r: Option<u64>)
    ensures
        r == spelled(bytes@, max),
{
    let start: usize = if bytes.len() > 0 && bytes[0] == 0x2b {
        1
    } else {
        0
    };
    let ghost digits = digits_of(bytes@);
    assert(digits =~= bytes@.skip(start as int));
    if bytes.len() == start {
        return None;
    }
    let mut n: u64 = 0;
    let mut i: usize = start;
    assert(digits.take(0) =~= Seq::<u8>::empty());
    while i < bytes.len()
        invariant
            start <= i <= bytes@.len(),
            start < bytes@.len(),
            digits == digits_of(bytes@),
            digits == bytes@.skip(start as int),
            n == decimal(digits.take(i - start)),
            n <= max,
            forall|j: int| 0 <= j < i - start ==> digit(#[trigger] digits[j]),
        decreases bytes@.len() - i,
    {
        let b: u8 = bytes[i];
        assert(digits[i - start] == b);
        if b < 0x30 || b > 0x39 {
            return None;
        }
        let d: u64 = (b - 0x30) as u64;
        assert(digits.take(i - start + 1).drop_last() =~= digits.take(i - start));
        if d > max || n > (max - d) / 10 {
            assert(10 * n + d > max);
            proof {
                if forall|j: int| 0 <= j < digits.len() ==> digit(#[trigger] digits[j]) {
                    lemma_decimal_grows(digits, i - start + 1);
                }
            }
            return None;
        }
        n = n * 10 + d;
        i += 1;
    }
    assert(digits.take(i - start) =~= digits);
    Some(n)
}

/// The next argument as a number, and `default` where it is missing or spells
/// none of at most `max`.
pub fn parse_next(argument: Option<&str>, default: u64, max: u64) -> (r: u64)
    ensures
        r == match argument {
            Some(s) => match spelled(s.spec_bytes(), max) {
                Some(n) => n,
                None => default,
            },
            None => default,
        },
{
    match argument {
        Some(s) => match parse_number(s.as_bytes(), max) {
            Some(n) => n,
            None => default,
        },
        None => default,
    }
}

} // verus!
