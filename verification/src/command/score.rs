//! Scores of sorted-set members: numbers of the 64-bit IEEE 754 format, told by
//! their bits, without NaN and with one zero.

use super::hexadecimal::parse_hex;
use crate::buffer::{append, from_vec, is_word};
use crate::numbers::{decimal_text, signed_decimal_text};
use crate::buffer;
use crate::command::hexadecimal;
use crate::numbers;
use bytes::Bytes;
use vstd::arithmetic::power2::*;
use vstd::prelude::*;
use vstd::string::*;

verus! {


/// A floating-point score as the core sees it: its rank in the total order of
/// all scores, and the text that stands for it in replies.
#[derive(Clone, Debug, PartialEq, Eq)]
pub struct Score {
    /// Rank among all scores; equal scores have equal ranks.
    pub order: i64,
    /// Text of the score in a reply.
    pub text: Bytes,
}

/// The bits without the sign.
pub open spec fn size_bits(bits: u64) -> u64 {
    bits % 0x8000_0000_0000_0000
}

pub open spec fn is_nan(bits: u64) -> bool {
    size_bits(bits) > 0x7ff0_0000_0000_0000
}

pub open spec fn is_infinite(bits: u64) -> bool {
    size_bits(bits) == 0x7ff0_0000_0000_0000
}

/// The bits of a score: NaN is none, and there is one zero.
pub open spec fn canonical(bits: u64) -> Option<u64> {
    if is_nan(bits) {
        None
    } else if size_bits(bits) == 0 {
        Some(0u64)
    } else {
        Some(bits)
    }
}

/// Where the exponent of a decimal text is announced; at its end where it is not.
pub open spec fn decimal_mark(text: Seq<u8>) -> int
    decreases text.len(),
{
    if text.len() == 0 || text[0] == 101 || text[0] == 69 {
        0
    } else {
        1 + decimal_mark(text.skip(1))
    }
}

/// Whether a digit other than zero stands in a text.
pub open spec fn is_significant(text: Seq<u8>) -> bool {
    exists|i: int| 0 <= i < text.len() && 49 <= #[trigger] text[i] <= 57
}

/// Whether a text is hexadecimal.
pub open spec fn is_hexadecimal(text: Seq<u8>) -> bool {
    let digits = hexadecimal::unsigned(text);
    digits.len() >= 2 && digits[0] == 48 && (digits[1] == 120 || digits[1] == 88)
}

/// The bits of the score that a text tells. Those that the decimal reader makes
/// of it are given, where it takes the text: a number that it made infinite or
/// zero only for want of range is no score.
pub open spec fn score_bits(text: Seq<u8>, decimal: Option<u64>) -> Option<u64> {
    let digits = hexadecimal::unsigned(text);
    if is_hexadecimal(text) {
        hexadecimal::hex_bits(text)
    } else {
        match decimal {
            None => None,
            Some(bits) => if is_infinite(bits) && buffer::lower(digits) != "inf".spec_bytes()
                && buffer::lower(digits) != "infinity".spec_bytes() {
                None
            } else if size_bits(bits) == 0 && is_significant(digits.take(decimal_mark(digits))) {
                None
            } else {
                canonical(bits)
            },
        }
    }
}

/// The rank of a number in the order of all numbers.
pub open spec fn rank_of(bits: u64) -> i64 {
    if bits < 0x8000_0000_0000_0000 {
        bits as i64
    } else {
        (0x7fff_ffff_ffff_ffff - bits) as i64
    }
}

/// The significand of a number and the power of two that it is to be multiplied
/// with.
pub open spec fn parts_of(bits: u64) -> (nat, int) {
    let field = size_bits(bits) as int / 0x10_0000_0000_0000;
    let fraction = size_bits(bits) as int % 0x10_0000_0000_0000;
    if field == 0 {
        (fraction as nat, -1074)
    } else {
        ((0x10_0000_0000_0000 + fraction) as nat, field - 1075)
    }
}

/// The size of a number, where it is whole and at most two to the power of 62.
pub open spec fn whole_of(bits: u64) -> Option<nat> {
    let (significand, power) = parts_of(bits);
    if is_infinite(bits) || is_nan(bits) {
        None
    } else if power >= 0 {
        if significand * pow2(power as nat) <= 0x4000_0000_0000_0000 {
            Some(significand * pow2(power as nat))
        } else {
            None
        }
    } else if significand % pow2((-power) as nat) == 0 {
        Some(significand / pow2((-power) as nat))
    } else {
        None
    }
}

pub open spec fn zeros(count: int) -> Seq<u8> {
    Seq::new(count as nat, |i: int| 48u8)
}

pub open spec fn size_of(number: int) -> int {
    if number < 0 {
        -number
    } else {
        number
    }
}

/// The text of digits that are to be multiplied with a power of ten.
pub open spec fn digits_text(digits: Seq<u8>, power: int) -> Seq<u8> {
    let count = digits.len() as int;
    let exponent = power + count - 1;
    let point = count + power;
    if power >= 0 && size_of(exponent) < count + 7 {
        digits + zeros(power)
    } else if power < 0 && (power > -7 || size_of(exponent) < 4) {
        if point <= 0 {
            "0.".spec_bytes() + zeros(-point) + digits
        } else {
            digits.take(point) + seq![46u8] + digits.skip(point)
        }
    } else {
        digits.take(1) + (if count > 1 {
            seq![46u8] + digits.skip(1)
        } else {
            Seq::<u8>::empty()
        }) + seq![101u8] + (if exponent >= 0 {
            seq![43u8]
        } else {
            Seq::<u8>::empty()
        }) + numbers::signed_decimal(exponent)
    }
}

/// The sign of a text.
pub open spec fn sign_text(bits: u64) -> Seq<u8> {
    if bits >= 0x8000_0000_0000_0000 {
        seq![45u8]
    } else {
        Seq::<u8>::empty()
    }
}

/// The text of a score, with the shortest digits that tell its size.
pub open spec fn score_text(bits: u64, digits: Seq<u8>, power: int) -> Seq<u8> {
    if size_bits(bits) == 0 {
        "0".spec_bytes()
    } else if is_infinite(bits) {
        sign_text(bits) + "inf".spec_bytes()
    } else {
        match whole_of(bits) {
            Some(size) => sign_text(bits) + numbers::decimal(size),
            None => sign_text(bits) + digits_text(digits, power),
        }
    }
}

fn find_mark(text: &[u8]) -> (mark: usize)
    ensures
        mark == decimal_mark(text@),
        mark <= text@.len(),
{
    let mut index: usize = 0;
    assert(text@.skip(0) =~= text@);
    while index < text.len()
        invariant
            index <= text@.len(),
            decimal_mark(text@) == index + decimal_mark(text@.skip(index as int)),
        decreases text@.len() - index,
    {
        assert(text@.skip(index as int)[0] == text@[index as int]);
        if text[index] == 101 || text[index] == 69 {
            return index;
        }
        assert(text@.skip(index as int).skip(1) =~= text@.skip(index + 1));
        index += 1;
    }
    index
}

fn significant(text: &[u8], end: usize) -> (result: bool)
    requires
        end <= text@.len(),
    ensures
        result == is_significant(text@.take(end as int)),
{
    let ghost part = text@.take(end as int);
    let mut index: usize = 0;
    while index < end
        invariant
            index <= end <= text@.len(),
            part == text@.take(end as int),
            forall|i: int| 0 <= i < index ==> !(49 <= #[trigger] part[i] <= 57),
        decreases end - index,
    {
        assert(part[index as int] == text@[index as int]);
        if text[index] >= 49 && text[index] <= 57 {
            return true;
        }
        index += 1;
    }
    false
}

/// The bits of the score that a text tells; what the decimal reader makes of
/// the text is given by its bits, where it takes the text.
pub fn read_score(text: &[u8], decimal: Option<u64>) -> (result: Option<u64>)
    ensures
        result == score_bits(text@, decimal),
{
    let start: usize = if text.len() > 0 && (text[0] == 43 || text[0] == 45) {
        1
    } else {
        0
    };
    let digits = vstd::slice::slice_subrange(text, start, text.len());
    assert(digits@ =~= hexadecimal::unsigned(text@));
    if digits.len() >= 2 && digits[0] == 48 && (digits[1] == 120 || digits[1] == 88) {
        return parse_hex(text);
    }
    let bits: u64 = match decimal {
        None => return None,
        Some(bits) => bits,
    };
    let size: u64 = bits % 0x8000_0000_0000_0000;
    if size == 0x7ff0_0000_0000_0000 && !is_word(digits, "inf") && !is_word(digits, "infinity") {
        return None;
    }
    let mark: usize = find_mark(digits);
    if size == 0 && significant(digits, mark) {
        return None;
    }
    if size > 0x7ff0_0000_0000_0000 {
        None
    } else if size == 0 {
        Some(0)
    } else {
        Some(bits)
    }
}

fn push_zeros(text: &mut Vec<u8>, count: i32)
    requires
        count >= 0,
    ensures
        final(text)@ == old(text)@ + zeros(count as int),
{
    let mut index: i32 = 0;
    while index < count
        invariant
            0 <= index <= count,
            text@ =~= old(text)@ + zeros(index as int),
        decreases count - index,
    {
        text.push(48);
        index += 1;
    }
}

fn push_part(text: &mut Vec<u8>, digits: &[u8], start: usize, end: usize)
    requires
        start <= end <= digits@.len(),
    ensures
        final(text)@ == old(text)@ + digits@.subrange(start as int, end as int),
{
    let part = vstd::slice::slice_subrange(digits, start, end);
    append(text, part);
}

/// Appends digits that are to be multiplied with a power of ten.
fn push_digits(text: &mut Vec<u8>, digits: &[u8], power: i32)
    requires
        1 <= digits@.len() <= 1000,
        -10000 <= power <= 10000,
    ensures
        final(text)@ == old(text)@ + digits_text(digits@, power as int),
{
    let ghost before = text@;
    let count: i32 = digits.len() as i32;
    let exponent: i32 = power + count - 1;
    let size: i32 = if exponent < 0 {
        -exponent
    } else {
        exponent
    };
    let point: i32 = count + power;
    if power >= 0 && size < count + 7 {
        append(text, digits);
        push_zeros(text, power);
        assert(text@ =~= before + digits_text(digits@, power as int));
    } else if power < 0 && (power > -7 || size < 4) {
        if point <= 0 {
            append(text, "0.".as_bytes());
            push_zeros(text, -point);
            append(text, digits);
            assert(text@ =~= before + digits_text(digits@, power as int));
        } else {
            push_part(text, digits, 0, point as usize);
            text.push(46);
            push_part(text, digits, point as usize, digits.len());
            assert(digits@.subrange(0, point as int) =~= digits@.take(point as int));
            assert(digits@.subrange(point as int, digits@.len() as int) =~= digits@.skip(
                point as int,
            ));
            assert(text@ =~= before + digits_text(digits@, power as int));
        }
    } else {
        push_part(text, digits, 0, 1);
        assert(digits@.subrange(0, 1) =~= digits@.take(1));
        if digits.len() > 1 {
            text.push(46);
            push_part(text, digits, 1, digits.len());
            assert(digits@.subrange(1, digits@.len() as int) =~= digits@.skip(1));
        }
        text.push(101);
        if exponent >= 0 {
            text.push(43);
        }
        let tail = signed_decimal_text(exponent as i64);
        append(text, tail.as_slice());
        assert(text@ =~= before + digits_text(digits@, power as int));
    }
}

/// The size of a number, where it is whole and at most two to the power of 62.
fn read_whole(bits: u64) -> (result: Option<u64>)
    ensures
        match (result, whole_of(bits)) {
            (Some(size), Some(whole)) => size == whole,
            (None, None) => true,
            _ => false,
        },
{
    let size: u64 = bits % 0x8000_0000_0000_0000;
    if size >= 0x7ff0_0000_0000_0000 {
        return None;
    }
    let field: u64 = size / 0x10_0000_0000_0000;
    let fraction: u64 = size % 0x10_0000_0000_0000;
    proof {
        lemma2_to64();
        lemma2_to64_rest();
    }
    if field == 0 {
        if fraction == 0 {
            proof {
                lemma_pow2_pos(1074);
                vstd::arithmetic::div_mod::lemma_basic_div(0, pow2(1074) as int);
                vstd::arithmetic::div_mod::lemma_small_mod(0, pow2(1074));
            }
            return Some(0);
        }
        proof {
            lemma_pow2_strictly_increases(52, 1074);
            vstd::arithmetic::div_mod::lemma_small_mod(fraction as nat, pow2(1074));
        }
        return None;
    }
    let significand: u64 = 0x10_0000_0000_0000 + fraction;
    assert(parts_of(bits) == (significand as nat, field - 1075));
    if field >= 1075 {
        let power: u64 = field - 1075;
        if power > 10 {
            proof {
                let scale = pow2(power as nat);
                assert(pow2(10) == 1024);
                lemma_pow2_strictly_increases(10, power as nat);
                assert(significand * scale > 0x4000_0000_0000_0000) by (nonlinear_arith)
                    requires
                        significand >= 0x10_0000_0000_0000,
                        scale > 1024,
                ;
            }
            return None;
        }
        let scale: u128 = hexadecimal::power_of_two(power as u32);
        proof {
            assert(pow2(10) == 1024);
            if power < 10 {
                lemma_pow2_strictly_increases(power as nat, 10);
            }
            assert(significand * scale <= 0x20_0000_0000_0000 * 1024) by (nonlinear_arith)
                requires
                    significand <= 0x20_0000_0000_0000,
                    scale <= 1024,
            ;
        }
        let whole: u128 = significand as u128 * scale;
        if whole <= 0x4000_0000_0000_0000 {
            Some(whole as u64)
        } else {
            None
        }
    } else {
        let power: u64 = 1075 - field;
        if power > 52 {
            proof {
                assert(pow2(53) == 0x20_0000_0000_0000);
                if power > 53 {
                    lemma_pow2_strictly_increases(53, power as nat);
                }
                vstd::arithmetic::div_mod::lemma_small_mod(
                    significand as nat,
                    pow2(power as nat),
                );
            }
            return None;
        }
        let scale: u128 = hexadecimal::power_of_two(power as u32);
        proof {
            lemma_pow2_pos(power as nat);
        }
        if significand as u128 % scale == 0 {
            proof {
                vstd::arithmetic::div_mod::lemma_div_is_ordered_by_denominator(
                    significand as int,
                    1,
                    scale as int,
                );
            }
            Some((significand as u128 / scale) as u64)
        } else {
            None
        }
    }
}

/// The text of a score; the shortest digits that tell its size, and the power of
/// ten that they are to be multiplied with, are given.
pub fn show_score(bits: u64, digits: &[u8], power: i32) -> (text: Vec<u8>)
    requires
        1 <= digits@.len() <= 1000,
        -10000 <= power <= 10000,
    ensures
        text@ == score_text(bits, digits@, power as int),
{
    let mut text: Vec<u8> = Vec::new();
    let size: u64 = bits % 0x8000_0000_0000_0000;
    if size == 0 {
        append(&mut text, "0".as_bytes());
        assert(text@ =~= "0".spec_bytes());
        return text;
    }
    if bits >= 0x8000_0000_0000_0000 {
        text.push(45);
    }
    assert(text@ =~= sign_text(bits));
    if size == 0x7ff0_0000_0000_0000 {
        append(&mut text, "inf".as_bytes());
        return text;
    }
    match read_whole(bits) {
        Some(whole) => {
            let number = decimal_text(whole);
            append(&mut text, number.as_slice());
        },
        None => push_digits(&mut text, digits, power),
    }
    text
}

/// The rank of a number in the order of all numbers.
pub fn rank(bits: u64) -> (result: i64)
    ensures
        result == rank_of(bits),
{
    if bits < 0x8000_0000_0000_0000 {
        bits as i64
    } else {
        (0x7fff_ffff_ffff_ffffi128 - bits as i128) as i64
    }
}

impl Score {
    /// The score with these bits, where it is a number; the shortest digits that
    /// tell its size are given with their power of ten.
    pub fn new(bits: u64, digits: &[u8], power: i32) -> (result: Option<Score>)
        requires
            1 <= digits@.len() <= 1000,
            -10000 <= power <= 10000,
        ensures
            match (result, canonical(bits)) {
                (Some(score), Some(exact)) => {
                    &&& score.order == rank_of(exact)
                    &&& buffer::bytes_content(score.text) == score_text(
                        exact,
                        digits@,
                        power as int,
                    )
                },
                (None, None) => true,
                _ => false,
            },
    {
        let size: u64 = bits % 0x8000_0000_0000_0000;
        if size > 0x7ff0_0000_0000_0000 {
            return None;
        }
        let exact: u64 = if size == 0 {
            0
        } else {
            bits
        };
        let text = show_score(exact, digits, power);
        Some(Score { order: rank(exact), text: from_vec(text) })
    }
}

/// A number as a multiple of the least positive one; an infinite one is as great
/// as the next that the format could not tell.
pub open spec fn steps_of(bits: u64) -> int {
    let (significand, power) = parts_of(bits);
    let size = significand * pow2((power + 1074) as nat);
    if bits < 0x8000_0000_0000_0000 {
        size as int
    } else {
        -size
    }
}

proof fn lemma_sizes(left: u64, right: u64)
    requires
        left < right < 0x8000_0000_0000_0000,
    ensures
        0 <= steps_of(left) < steps_of(right),
{
    let (a, e) = parts_of(left);
    let (b, f) = parts_of(right);
    let x = pow2((e + 1074) as nat);
    let y = pow2((f + 1074) as nat);
    lemma2_to64();
    lemma_pow2_pos((e + 1074) as nat);
    assert(a * x >= 0) by (nonlinear_arith)
        requires
            x >= 1,
    ;
    if e == f {
        assert(a * x < b * x) by (nonlinear_arith)
            requires
                a < b,
                x >= 1,
        ;
    } else {
        assert(e < f);
        lemma_pow2_unfold((e + 1 + 1074) as nat);
        if e + 1 < f {
            lemma_pow2_strictly_increases((e + 1 + 1074) as nat, (f + 1074) as nat);
        }
        assert(a * x < b * y) by (nonlinear_arith)
            requires
                a < 0x20_0000_0000_0000,
                b >= 0x10_0000_0000_0000,
                2 * x <= y,
                x >= 1,
        ;
    }
}

/// Scores come in the order of their numbers.
pub proof fn law_ranks_follow_numbers(left: u64, right: u64)
    requires
        canonical(left) == Some(left),
        canonical(right) == Some(right),
    ensures
        rank_of(left) < rank_of(right) <==> steps_of(left) < steps_of(right),
        rank_of(left) == rank_of(right) <==> left == right,
{
    let a = size_bits(left);
    let b = size_bits(right);
    assert(parts_of(a) == parts_of(left));
    assert(parts_of(b) == parts_of(right));
    if a < b {
        lemma_sizes(a, b);
    }
    if b < a {
        lemma_sizes(b, a);
    }
    if 0 < a {
        lemma_zero();
        lemma_sizes(0, a);
    }
    if 0 < b {
        lemma_zero();
        lemma_sizes(0, b);
    }
    if a == 0 || b == 0 {
        lemma_zero();
    }
}

proof fn lemma_zero()
    ensures
        steps_of(0) == 0,
{
    assert(0 * pow2(0) == 0);
}

/// A number that is read from hexadecimal text is the multiple of its grid that
/// is nearest to what the text tells.
pub proof fn law_hexadecimal_numbers_are_nearest(number: nat, power: int)
    requires
        number > 0,
        hexadecimal::nearest(number, power) is Some,
    ensures
        ({
            let grid = hexadecimal::grid_of(number, power);
            steps_of(hexadecimal::nearest(number, power)->Some_0 as u64)
                == hexadecimal::rounded(number, power - grid) * pow2((grid + 1074) as nat)
        }),
{
    let grid = hexadecimal::grid_of(number, power);
    let steps = hexadecimal::rounded(number, power - grid);
    let bits = hexadecimal::nearest(number, power)->Some_0 as u64;
    hexadecimal::lemma_steps(number, power);
    if grid > -1074 {
        hexadecimal::lemma_steps_full(number, power);
    }
    lemma2_to64();
    let place = (grid + 1074) as nat;
    let unit = 0x10_0000_0000_0000int;
    assert(bits == place * unit + steps);
    assert(size_bits(bits) == bits);
    if steps == 2 * unit {
        assert(bits as int / unit == place + 2 && bits as int % unit == 0);
        assert(parts_of(bits) == (unit as nat, grid + 1));
        lemma_pow2_unfold((place + 1) as nat);
        assert(unit * (2 * pow2(place)) == steps * pow2(place)) by (nonlinear_arith)
            requires
                steps == 2 * unit,
        ;
    } else if steps >= unit {
        assert(bits as int / unit == place + 1 && bits as int % unit == steps - unit);
        assert(parts_of(bits) == (steps, grid));
    } else {
        assert(place == 0);
        assert(parts_of(bits) == (steps, -1074int));
    }
}

} // verus!
