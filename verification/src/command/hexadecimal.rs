//! Hexadecimal floating-point numbers, read with whole numbers alone. A number
//! is told by the bits of its 64-bit IEEE 754 format.

use vstd::arithmetic::power2::*;
use vstd::prelude::*;

verus! {

/// The value of a hexadecimal digit.
pub open spec fn digit_of(byte: u8) -> Option<int> {
    if 48 <= byte <= 57 {
        Some(byte - 48)
    } else if 97 <= byte <= 102 {
        Some(byte - 87)
    } else if 65 <= byte <= 70 {
        Some(byte - 55)
    } else {
        None
    }
}

/// The digits of a mantissa as one whole number, without its point.
pub open spec fn magnitude(text: Seq<u8>) -> nat
    decreases text.len(),
{
    if text.len() == 0 {
        0
    } else {
        match digit_of(text.last()) {
            None => magnitude(text.drop_last()),
            Some(digit) => (magnitude(text.drop_last()) * 16 + digit) as nat,
        }
    }
}

/// Whether a mantissa has a point.
pub open spec fn has_point(text: Seq<u8>) -> bool {
    exists|i: int| 0 <= i < text.len() && #[trigger] text[i] == 46
}

/// Whether a mantissa has a digit.
pub open spec fn has_digit(text: Seq<u8>) -> bool {
    exists|i: int| 0 <= i < text.len() && digit_of(#[trigger] text[i]) is Some
}

/// How many digits stand behind the point.
pub open spec fn places(text: Seq<u8>) -> nat
    decreases text.len(),
{
    if text.len() == 0 || text.last() == 46 {
        0
    } else if has_point(text.drop_last()) {
        places(text.drop_last()) + 1
    } else {
        0
    }
}

/// Whether a mantissa is made of digits and at most one point.
pub open spec fn spelled(text: Seq<u8>) -> bool {
    &&& forall|i: int|
        0 <= i < text.len() ==> digit_of(#[trigger] text[i]) is Some || text[i] == 46
    &&& forall|i: int, j: int|
        0 <= i < j < text.len() ==> !(#[trigger] text[i] == 46 && #[trigger] text[j] == 46)
}

/// The value of decimal digits.
pub open spec fn count_of(text: Seq<u8>) -> nat
    decreases text.len(),
{
    if text.len() == 0 {
        0
    } else {
        (count_of(text.drop_last()) * 10 + (text.last() - 48)) as nat
    }
}

/// The text behind a sign, where it has one.
pub open spec fn unsigned(text: Seq<u8>) -> Seq<u8> {
    if text.len() > 0 && (text[0] == 43 || text[0] == 45) {
        text.skip(1)
    } else {
        text
    }
}

pub open spec fn is_negative(text: Seq<u8>) -> bool {
    text.len() > 0 && text[0] == 45
}

/// The exponent that a text tells.
pub open spec fn exponent_of(text: Seq<u8>) -> Option<int> {
    let digits = unsigned(text);
    if digits.len() == 0 || exists|i: int|
        0 <= i < digits.len() && !(48 <= #[trigger] digits[i] <= 57) {
        None
    } else if is_negative(text) {
        Some(-count_of(digits))
    } else {
        Some(count_of(digits) as int)
    }
}

/// Where the exponent of a text is announced; at its end where it is not.
pub open spec fn exponent_mark(text: Seq<u8>) -> int
    decreases text.len(),
{
    if text.len() == 0 || text[0] == 112 || text[0] == 80 {
        0
    } else {
        1 + exponent_mark(text.skip(1))
    }
}

/// The number that the text behind `0x` tells, as a whole number and the power
/// of two that it is to be multiplied with.
pub open spec fn hex_reading(text: Seq<u8>) -> Option<(nat, int)> {
    let mark = exponent_mark(text);
    let mantissa = text.take(mark);
    let exponent = if mark < text.len() {
        exponent_of(text.skip(mark + 1))
    } else {
        Some(0int)
    };
    if exponent is None || !spelled(mantissa) || !has_digit(mantissa) {
        None
    } else {
        Some((magnitude(mantissa), exponent->Some_0 - 4 * places(mantissa)))
    }
}

/// The place of the highest bit of a positive number.
pub open spec fn top_bit(number: nat) -> nat
    decreases number,
{
    if number <= 1 {
        0
    } else {
        1 + top_bit(number / 2)
    }
}

/// A number times a power of two, rounded to the nearest whole number; of two
/// that are as near, to the even one.
pub open spec fn rounded(number: nat, power: int) -> nat {
    if power >= 0 {
        number * pow2(power as nat)
    } else {
        let divisor = pow2((-power) as nat);
        let whole = number / divisor;
        let rest = number % divisor;
        if 2 * rest > divisor || (2 * rest == divisor && whole % 2 == 1) {
            whole + 1
        } else {
            whole
        }
    }
}

/// The power of two whose multiples the format can tell near a number.
pub open spec fn grid_of(number: nat, power: int) -> int {
    let grid = top_bit(number) + power - 52;
    if grid < -1074 {
        -1074
    } else {
        grid
    }
}

/// The bits of the number that is nearest to a positive one. Numbers that are
/// too great for the format have none, nor have those that would become zero.
pub open spec fn nearest(number: nat, power: int) -> Option<nat> {
    let grid = grid_of(number, power);
    let steps = rounded(number, power - grid);
    if top_bit(number) + power > 1023 || steps == 0 || (grid == 971 && steps == 0x20_0000_0000_0000)
    {
        None
    } else {
        Some(((grid + 1074) * 0x10_0000_0000_0000 + steps) as nat)
    }
}

/// The bits of the number that a text without sign and `0x` tells.
pub open spec fn unsigned_bits(text: Seq<u8>) -> Option<nat> {
    match hex_reading(text) {
        None => None,
        Some((number, power)) => if number == 0 {
            Some(0)
        } else {
            nearest(number, power)
        },
    }
}

/// The bits of the number that a text with a sign and `0x` tells; zero has none.
pub open spec fn hex_bits(text: Seq<u8>) -> Option<u64> {
    match unsigned_bits(unsigned(text).skip(2)) {
        None => None,
        Some(bits) => Some(
            if is_negative(text) && bits != 0 {
                (0x8000_0000_0000_0000 + bits) as u64
            } else {
                bits as u64
            },
        ),
    }
}

proof fn lemma_pow2_next(exponent: nat)
    ensures
        pow2(exponent + 1) == 2 * pow2(exponent),
        pow2(exponent) >= 1,
{
    lemma_pow2_unfold(exponent + 1);
    lemma_pow2_pos(exponent);
}

proof fn lemma_sixteen(exponent: nat)
    ensures
        pow2(exponent + 4) == 16 * pow2(exponent),
{
    lemma_pow2_adds(exponent, 4);
    lemma2_to64();
    assert(pow2(exponent) * 16 == 16 * pow2(exponent));
}

proof fn lemma_top_bit(number: nat)
    requires
        number > 0,
    ensures
        pow2(top_bit(number)) <= number < pow2(top_bit(number) + 1),
    decreases number,
{
    if number <= 1 {
        lemma2_to64();
    } else {
        lemma_top_bit(number / 2);
        lemma_pow2_next(top_bit(number / 2));
        lemma_pow2_next(top_bit(number));
    }
}

proof fn lemma_top_bit_unique(number: nat, place: nat)
    requires
        pow2(place) <= number < pow2(place + 1),
    ensures
        top_bit(number) == place,
{
    lemma_pow2_pos(place);
    lemma_top_bit(number);
    if top_bit(number) < place {
        if top_bit(number) + 1 < place {
            lemma_pow2_strictly_increases(top_bit(number) + 1, place);
        }
    } else if top_bit(number) > place {
        if place + 1 < top_bit(number) {
            lemma_pow2_strictly_increases(place + 1, top_bit(number));
        }
    }
}

/// Two to this power.
pub fn power_of_two(exponent: u32) -> (result: u128)
    requires
        exponent <= 64,
    ensures
        result == pow2(exponent as nat),
        1 <= result <= 0x1_0000_0000_0000_0000,
{
    let mut result: u128 = 1;
    let mut index: u32 = 0;
    proof {
        lemma2_to64();
        lemma2_to64_rest();
    }
    while index < exponent
        invariant
            index <= exponent <= 64,
            result == pow2(index as nat),
            pow2(64) == 0x1_0000_0000_0000_0000,
        decreases exponent - index,
    {
        proof {
            lemma_pow2_next(index as nat);
            if index + 1 < 64 {
                lemma_pow2_strictly_increases((index + 1) as nat, 64);
            }
        }
        result = result * 2;
        index += 1;
    }
    proof {
        lemma_pow2_pos(exponent as nat);
        if exponent < 64 {
            lemma_pow2_strictly_increases(exponent as nat, 64);
        }
    }
    result
}

/// The place of the highest bit.
fn highest_bit(number: u64) -> (place: u32)
    requires
        number > 0,
    ensures
        place == top_bit(number as nat),
        place <= 63,
{
    let mut place: u32 = 0;
    let mut left: u64 = number;
    let ghost whole = number as nat;
    proof {
        lemma2_to64();
    }
    while left > 1
        invariant
            left >= 1,
            place + top_bit(left as nat) == top_bit(number as nat),
            left * pow2(place as nat) <= number,
            place <= 64,
            place < 64 || left <= 0,
        decreases left,
    {
        proof {
            lemma_pow2_next(place as nat);
            let half = (left / 2) as nat;
            assert(half * (2 * pow2(place as nat)) <= left * pow2(place as nat))
                by (nonlinear_arith)
                requires
                    half * 2 <= left,
                    pow2(place as nat) >= 1,
            ;
            if place == 63 {
                lemma2_to64_rest();
                assert(left * pow2(63) >= 2 * pow2(63)) by (nonlinear_arith)
                    requires
                        left >= 2,
                        pow2(63) >= 1,
                ;
                assert(pow2(63) == 0x8000_0000_0000_0000);
            }
        }
        left = left / 2;
        place += 1;
    }
    place
}

/// The digits of a mantissa that were kept, and what is known of the others.
struct Mantissa {
    /// The first significant digits, up to sixteen.
    value: u64,
    /// How many digits follow them.
    discarded: u64,
    /// Whether one of those is not zero.
    sticky: bool,
    /// How many digits stand behind the point.
    places: u64,
}

impl Mantissa {
    /// What the digits that were not kept amount to.
    spec fn tail(&self, number: nat) -> int {
        number - self.value * pow2((4 * self.discarded) as nat)
    }

    spec fn tells(&self, number: nat) -> bool {
        &&& 0 <= self.tail(number) < pow2((4 * self.discarded) as nat)
        &&& self.sticky == (self.tail(number) != 0)
        &&& self.discarded > 0 ==> self.value >= 0x1000_0000_0000_0000
    }
}

fn read_digit(byte: u8) -> (result: Option<u8>)
    ensures
        match (result, digit_of(byte)) {
            (Some(value), Some(digit)) => value == digit && value < 16,
            (None, None) => true,
            _ => false,
        },
{
    if byte >= 48 && byte <= 57 {
        Some(byte - 48)
    } else if byte >= 97 && byte <= 102 {
        Some(byte - 87)
    } else if byte >= 65 && byte <= 70 {
        Some(byte - 55)
    } else {
        None
    }
}

/// One digit more, where there is room to keep it.
proof fn lemma_kept(value: nat, kept: nat, digit: nat)
    requires
        value < pow2(4 * kept),
        kept < 16,
        digit < 16,
        kept > 0 ==> value >= pow2((4 * kept - 4) as nat),
        kept > 0 || digit > 0,
    ensures
        value * 16 + digit < pow2(4 * (kept + 1)),
        value * 16 + digit >= pow2(4 * kept),
        value * 16 + digit < 0x1_0000_0000_0000_0000,
{
    lemma_sixteen(4 * kept);
    lemma2_to64();
    lemma2_to64_rest();
    if kept > 0 {
        lemma_sixteen((4 * kept - 4) as nat);
    }
    if 4 * (kept + 1) < 64 {
        lemma_pow2_strictly_increases(4 * (kept + 1), 64);
    }
}

/// Digits that were all kept tell their number.
proof fn lemma_exact(mantissa: &Mantissa, number: nat)
    requires
        mantissa.discarded == 0,
        mantissa.value == number,
        !mantissa.sticky,
    ensures
        mantissa.tells(number),
{
    lemma2_to64();
    assert(mantissa.value * pow2(0) == mantissa.value) by (nonlinear_arith)
        requires
            pow2(0) == 1,
    ;
}

fn read_mantissa(text: &[u8]) -> (result: Option<Mantissa>)
    ensures
        match result {
            None => !(spelled(text@) && has_digit(text@)),
            Some(mantissa) => {
                &&& spelled(text@)
                &&& has_digit(text@)
                &&& mantissa.tells(magnitude(text@))
                &&& mantissa.places == places(text@)
                &&& mantissa.discarded <= text@.len()
            },
        },
{
    let mut value: u64 = 0;
    let mut kept: u32 = 0;
    let mut discarded: u64 = 0;
    let mut places_seen: u64 = 0;
    let mut point = false;
    let mut any = false;
    let mut sticky = false;
    let mut index: usize = 0;
    let size: usize = text.len();
    proof {
        lemma2_to64();
        lemma_exact(&Mantissa { value, discarded, sticky, places: places_seen }, 0);
    }
    while index < size
        invariant
            size == text@.len(),
            index <= size,
            spelled(text@.take(index as int)),
            point == has_point(text@.take(index as int)),
            any == has_digit(text@.take(index as int)),
            places_seen == places(text@.take(index as int)),
            places_seen <= index,
            discarded <= index,
            kept <= 16,
            kept < 16 ==> discarded == 0,
            discarded == 0 ==> !sticky,
            kept == 0 ==> value == 0,
            value < pow2((4 * kept) as nat),
            kept > 0 ==> value >= pow2((4 * kept - 4) as nat),
            discarded == 0 ==> value == magnitude(text@.take(index as int)),
            (Mantissa { value, discarded, sticky, places: places_seen }).tells(
                magnitude(text@.take(index as int)),
            ),
        decreases size - index,
    {
        let ghost front = text@.take(index as int);
        let ghost longer = text@.take(index + 1);
        let byte: u8 = text[index];
        proof {
            assert(longer.drop_last() =~= front);
            assert(longer.last() == byte);
            assert(forall|i: int| 0 <= i < index ==> #[trigger] longer[i] == front[i]);
        }
        if byte == 46 {
            if point {
                proof {
                    let i = choose|i: int| 0 <= i < front.len() && #[trigger] front[i] == 46;
                    assert(text@[i] == 46 && text@[index as int] == 46);
                }
                return None;
            }
            assert(has_point(longer)) by {
                assert(longer[index as int] == 46);
            }
            assert(digit_of(46u8) is None);
            assert(has_digit(longer) == has_digit(front)) by {
                if has_digit(front) {
                    let i = choose|i: int| 0 <= i < front.len() && digit_of(#[trigger] front[i]) is Some;
                    assert(digit_of(longer[i]) is Some);
                }
            }
            point = true;
            places_seen = 0;
            index += 1;
            assert(magnitude(longer) == magnitude(front));
            continue ;
        }
        let digit: u8 = match read_digit(byte) {
            None => {
                assert(digit_of(text@[index as int]) is None);
                return None;
            },
            Some(digit) => digit,
        };
        assert(has_digit(longer)) by {
            assert(digit_of(longer[index as int]) is Some);
        }
        assert(has_point(longer) == has_point(front)) by {
            if has_point(front) {
                let i = choose|i: int| 0 <= i < front.len() && #[trigger] front[i] == 46;
                assert(longer[i] == 46);
            }
        }
        let ghost number = magnitude(front);
        any = true;
        if point {
            places_seen = places_seen + 1;
        }
        if kept == 0 && digit == 0 {
            proof {
                lemma_exact(&Mantissa { value, discarded, sticky, places: places_seen }, 0);
            }
            index += 1;
            continue ;
        }
        if kept < 16 {
            proof {
                lemma_kept(value as nat, kept as nat, digit as nat);
            }
            value = value * 16 + digit as u64;
            kept += 1;
            proof {
                lemma_exact(
                    &Mantissa { value, discarded, sticky, places: places_seen },
                    value as nat,
                );
            }
        } else {
            proof {
                let before = (4 * discarded) as nat;
                let tail = number - value * pow2(before);
                lemma_sixteen(before);
                assert(value * (16 * pow2(before)) == 16 * (value * pow2(before)))
                    by (nonlinear_arith);
                assert(number * 16 + digit - value * pow2(before + 4) == tail * 16 + digit);
                lemma2_to64_rest();
                assert(pow2(60) == 0x1000_0000_0000_0000);
            }
            discarded = discarded + 1;
            sticky = sticky || digit != 0;
        }
        index += 1;
    }
    assert(text@.take(index as int) =~= text@);
    if !any {
        return None;
    }
    Some(Mantissa { value, discarded, sticky, places: places_seen })
}

/// What a text tells as an exponent, up to a bound that no text reaches through
/// its length.
fn read_exponent(text: &[u8]) -> (result: Option<i128>)
    ensures
        match (result, exponent_of(text@)) {
            (Some(power), Some(exponent)) => {
                &&& -0x1_0000_0000_0000_0000_0000 <= exponent <= 0x1_0000_0000_0000_0000_0000
                    ==> power == exponent
                &&& exponent > 0x1_0000_0000_0000_0000_0000 ==> power
                    == 0x1_0000_0000_0000_0000_0000
                &&& exponent < -0x1_0000_0000_0000_0000_0000 ==> power
                    == -0x1_0000_0000_0000_0000_0000
            },
            (None, None) => true,
            _ => false,
        },
{
    let negative = text.len() > 0 && text[0] == 45;
    let start: usize = if text.len() > 0 && (text[0] == 43 || text[0] == 45) {
        1
    } else {
        0
    };
    let ghost digits = unsigned(text@);
    assert(digits =~= text@.skip(start as int));
    if start == text.len() {
        return None;
    }
    let mut power: i128 = 0;
    let mut index: usize = start;
    assert(digits.take(0) =~= Seq::empty());
    while index < text.len()
        invariant
            start <= index <= text@.len(),
            digits == text@.skip(start as int),
            digits == unsigned(text@),
            forall|i: int| 0 <= i < index - start ==> 48 <= #[trigger] digits[i] <= 57,
            0 <= power <= 0x1_0000_0000_0000_0000_0000,
            count_of(digits.take(index - start)) <= 0x1_0000_0000_0000_0000_0000 ==> power
                == count_of(digits.take(index - start)),
            count_of(digits.take(index - start)) > 0x1_0000_0000_0000_0000_0000 ==> power
                == 0x1_0000_0000_0000_0000_0000,
        decreases text@.len() - index,
    {
        let byte: u8 = text[index];
        let ghost place = index - start;
        assert(digits[place] == byte);
        if byte < 48 || byte > 57 {
            return None;
        }
        assert(digits.take(place + 1).drop_last() =~= digits.take(place));
        assert(digits.take(place + 1).last() == byte);
        power = power * 10 + (byte - 48) as i128;
        if power > 0x1_0000_0000_0000_0000_0000 {
            power = 0x1_0000_0000_0000_0000_0000;
        }
        index += 1;
    }
    assert(digits.take(index - start) =~= digits);
    if negative {
        Some(-power)
    } else {
        Some(power)
    }
}

/// Rounding the kept digits rounds the whole number.
proof fn lemma_rounded(value: nat, tail: nat, more: nat, shift: nat)
    requires
        tail < pow2(more),
        shift >= 1,
    ensures
        ({
            let number = value * pow2(more) + tail;
            let divisor = pow2(shift);
            let whole = value / divisor;
            let rest = value % divisor;
            rounded(number, -(shift + more)) == if 2 * rest > divisor || (2 * rest == divisor && (
            tail != 0 || whole % 2 == 1)) {
                whole + 1
            } else {
                whole
            }
        }),
{
    let number = value * pow2(more) + tail;
    let divisor = pow2(shift);
    let scale = pow2(more);
    let whole = value / divisor;
    let rest = value % divisor;
    let left = rest * scale + tail;
    lemma_pow2_adds(shift, more);
    lemma_pow2_pos(shift);
    lemma_pow2_pos(more);
    vstd::arithmetic::div_mod::lemma_fundamental_div_mod(value as int, divisor as int);
    assert(number == whole * (divisor * scale) + left) by (nonlinear_arith)
        requires
            number == value * scale + tail,
            value == divisor * whole + rest,
            left == rest * scale + tail,
    ;
    assert(left < divisor * scale) by (nonlinear_arith)
        requires
            left == rest * scale + tail,
            rest < divisor,
            tail < scale,
    ;
    vstd::arithmetic::div_mod::lemma_fundamental_div_mod_converse(
        number as int,
        (divisor * scale) as int,
        whole as int,
        left as int,
    );
    assert(pow2(shift + more) == divisor * scale);
    // The divisor is even, so that twice the rest never falls just short of it.
    lemma_pow2_unfold(shift);
    let half = pow2((shift - 1) as nat);
    assert(divisor == 2 * half);
    if 2 * rest > divisor {
        assert(2 * left > divisor * scale) by (nonlinear_arith)
            requires
                left == rest * scale + tail,
                2 * rest >= divisor + 1,
                scale >= 1,
        ;
    } else if 2 * rest == divisor {
        assert(2 * left == divisor * scale + 2 * tail) by (nonlinear_arith)
            requires
                left == rest * scale + tail,
                2 * rest == divisor,
        ;
    } else {
        assert(2 * left < divisor * scale) by (nonlinear_arith)
            requires
                left == rest * scale + tail,
                rest <= half - 1,
                divisor == 2 * half,
                tail < scale,
        ;
    }
}

/// The highest bit of a number lies as many places above that of its first
/// digits as bits follow them.
proof fn lemma_top_of_whole(value: nat, tail: nat, more: nat)
    requires
        value > 0,
        tail < pow2(more),
    ensures
        top_bit(value * pow2(more) + tail) == top_bit(value) + more,
{
    let place = top_bit(value);
    let scale = pow2(more);
    lemma_top_bit(value);
    lemma_pow2_adds(place, more);
    lemma_pow2_adds(place + 1, more);
    lemma_pow2_pos(more);
    assert(pow2(place) * scale <= value * scale + tail < pow2(place + 1) * scale)
        by (nonlinear_arith)
        requires
            pow2(place) <= value,
            value + 1 <= pow2(place + 1),
            tail < scale,
            scale >= 1,
    ;
    lemma_top_bit_unique(value * scale + tail, place + more);
}

/// A number that is rounded on its grid has at most fifty-three bits.
pub proof fn lemma_steps(number: nat, power: int)
    requires
        number > 0,
    ensures
        rounded(number, power - grid_of(number, power)) <= 0x20_0000_0000_0000,
{
    let place = top_bit(number);
    let grid = grid_of(number, power);
    let shift = power - grid;
    lemma_top_bit(number);
    lemma2_to64();
    lemma2_to64_rest();
    if shift >= 0 {
        // The number keeps below bit 53.
        lemma_pow2_adds(place + 1, shift as nat);
        lemma_pow2_pos(shift as nat);
        assert(number * pow2(shift as nat) < pow2(place + 1) * pow2(shift as nat))
            by (nonlinear_arith)
            requires
                number < pow2(place + 1),
                pow2(shift as nat) >= 1,
        ;
        assert(place + 1 + shift <= 53);
        if place + 1 + shift < 53 {
            lemma_pow2_strictly_increases((place + 1 + shift) as nat, 53);
        }
    } else {
        let divisor = pow2((-shift) as nat);
        let whole = number / divisor;
        lemma_pow2_pos((-shift) as nat);
        vstd::arithmetic::div_mod::lemma_fundamental_div_mod(number as int, divisor as int);
        if place + 1 + shift <= 53 {
            // number < 2^(place + 1) <= 2^53 * divisor
            lemma_pow2_adds(53, (-shift) as nat);
            if place + 1 < 53 - shift {
                lemma_pow2_strictly_increases(place + 1, (53 - shift) as nat);
            }
            assert(whole < pow2(53)) by (nonlinear_arith)
                requires
                    number == divisor * whole + number % divisor,
                    number < pow2(53) * divisor,
                    0 <= number % divisor,
                    divisor >= 1,
            ;
        }
    }
}

/// Above the least grid a number has fifty-three bits.
pub proof fn lemma_steps_full(number: nat, power: int)
    requires
        number > 0,
        grid_of(number, power) > -1074,
    ensures
        rounded(number, power - grid_of(number, power)) >= 0x10_0000_0000_0000,
{
    let place = top_bit(number);
    let shift = power - grid_of(number, power);
    lemma_top_bit(number);
    lemma2_to64();
    lemma2_to64_rest();
    assert(pow2(52) == 0x10_0000_0000_0000);
    assert(place + shift == 52);
    if shift >= 0 {
        lemma_pow2_adds(place, shift as nat);
        assert(number * pow2(shift as nat) >= pow2(place) * pow2(shift as nat))
            by (nonlinear_arith)
            requires
                number >= pow2(place),
        ;
    } else {
        let divisor = pow2((-shift) as nat);
        lemma_pow2_adds(52, (-shift) as nat);
        lemma_pow2_pos((-shift) as nat);
        vstd::arithmetic::div_mod::lemma_fundamental_div_mod(number as int, divisor as int);
        let whole = number / divisor;
        let rest = number % divisor;
        let least = pow2(52);
        assert(number >= least * divisor);
        assert(whole >= least) by (nonlinear_arith)
            requires
                number == divisor * whole + rest,
                number >= least * divisor,
                rest < divisor,
        ;
    }
}

/// The bits of the nearest number, from the digits that were kept.
fn nearest_bits(mantissa: &Mantissa, power: i128, Ghost(number): Ghost<nat>) -> (result: Option<u64>)
    requires
        mantissa.tells(number),
        mantissa.value > 0,
        mantissa.discarded < 0x1_0000_0000_0000_0000,
        -0x4_0000_0000_0000_0000_0000 <= power <= 0x4_0000_0000_0000_0000_0000,
    ensures
        match (result, nearest(number, power - 4 * mantissa.discarded)) {
            (Some(bits), Some(expected)) => bits == expected && bits < 0x8000_0000_0000_0000,
            (None, None) => true,
            _ => false,
        },
{
    let ghost more = (4 * mantissa.discarded) as nat;
    let ghost tail = mantissa.tail(number) as nat;
    let ghost whole_power = power - more;
    let top: u32 = highest_bit(mantissa.value);
    proof {
        lemma_top_of_whole(mantissa.value as nat, tail, more);
        lemma_positive(mantissa, number);
        lemma_steps(number, whole_power);
        lemma2_to64();
        lemma2_to64_rest();
    }
    let highest: i128 = power + top as i128;
    if highest > 1023 {
        return None;
    }
    let grid: i128 = if highest - 52 < -1074 {
        -1074
    } else {
        highest - 52
    };
    assert(grid == grid_of(number, whole_power));
    let shift: i128 = grid - power;
    let steps: u128;
    if shift <= 0 {
        proof {
            // Sixteen digits reach beyond bit 52, so none was discarded.
            if mantissa.discarded > 0 {
                lemma_top_bit(mantissa.value as nat);
                if top < 60 {
                    if top + 1 < 60 {
                        lemma_pow2_strictly_increases((top + 1) as nat, 60);
                    }
                }
            }
            assert(mantissa.discarded == 0);
            assert(tail == 0);
            assert(number == mantissa.value) by (nonlinear_arith)
                requires
                    number == mantissa.value * pow2(more) + tail,
                    pow2(more) == 1,
                    tail == 0,
            ;
            assert(-shift <= 52);
        }
        let factor: u128 = power_of_two((-shift) as u32);
        proof {
            assert(number * pow2((-shift) as nat) <= 0x20_0000_0000_0000);
            assert(mantissa.value * factor == number * pow2((-shift) as nat));
        }
        steps = mantissa.value as u128 * factor;
    } else if shift > 64 {
        proof {
            lemma_rounded(mantissa.value as nat, tail, more, shift as nat);
            lemma_pow2_strictly_increases(64, shift as nat);
            lemma_pow2_unfold(shift as nat);
            if shift > 65 {
                lemma_pow2_strictly_increases(64, (shift - 1) as nat);
            }
            let divisor = pow2(shift as nat);
            vstd::arithmetic::div_mod::lemma_small_mod(mantissa.value as nat, divisor);
            vstd::arithmetic::div_mod::lemma_basic_div(mantissa.value as int, divisor as int);
            assert(number == mantissa.value * pow2(more) + tail);
        }
        return None;
    } else {
        let divisor: u128 = power_of_two(shift as u32);
        let whole: u128 = mantissa.value as u128 / divisor;
        let rest: u128 = mantissa.value as u128 % divisor;
        let up = 2 * rest > divisor || (2 * rest == divisor && (mantissa.sticky || whole % 2 == 1));
        steps = if up {
            whole + 1
        } else {
            whole
        };
        proof {
            lemma_rounded(mantissa.value as nat, tail, more, shift as nat);
            assert(number == mantissa.value * pow2(more) + tail);
        }
    }
    assert(steps == rounded(number, whole_power - grid));
    if steps == 0 || (grid == 971 && steps == 0x20_0000_0000_0000) {
        return None;
    }
    Some((grid + 1074) as u64 * 0x10_0000_0000_0000 + steps as u64)
}

/// Where the exponent of a text is announced.
fn find_mark(text: &[u8]) -> (mark: usize)
    ensures
        mark == exponent_mark(text@),
        mark <= text@.len(),
{
    let mut index: usize = 0;
    assert(text@.skip(0) =~= text@);
    while index < text.len()
        invariant
            index <= text@.len(),
            exponent_mark(text@) == index + exponent_mark(text@.skip(index as int)),
        decreases text@.len() - index,
    {
        assert(text@.skip(index as int)[0] == text@[index as int]);
        if text[index] == 112 || text[index] == 80 {
            return index;
        }
        assert(text@.skip(index as int).skip(1) =~= text@.skip(index + 1));
        index += 1;
    }
    index
}

/// The bits of a number from its mantissa and its exponent, which is exact
/// unless both it and the exact one lie far outside the format.
fn scaled(mantissa: &Mantissa, exponent: i128, Ghost(number): Ghost<nat>, Ghost(exact): Ghost<int>)
    -> (result: Option<u64>)
    requires
        mantissa.tells(number),
        mantissa.value > 0,
        -0x1_0000_0000_0000_0000_0000 <= exponent <= 0x1_0000_0000_0000_0000_0000,
        exact > 0x1_0000_0000_0000_0000_0000 ==> exponent == 0x1_0000_0000_0000_0000_0000,
        exact < -0x1_0000_0000_0000_0000_0000 ==> exponent == -0x1_0000_0000_0000_0000_0000,
        -0x1_0000_0000_0000_0000_0000 <= exact <= 0x1_0000_0000_0000_0000_0000 ==> exponent
            == exact,
    ensures
        match (result, nearest(number, exact - 4 * mantissa.places)) {
            (Some(bits), Some(expected)) => bits == expected && bits < 0x8000_0000_0000_0000,
            (None, None) => true,
            _ => false,
        },
{
    let power: i128 = exponent - 4 * mantissa.places as i128 + 4 * mantissa.discarded as i128;
    proof {
        let told = exponent - 4 * mantissa.places;
        lemma_positive(mantissa, number);
        lemma_top_of_whole(
            mantissa.value as nat,
            mantissa.tail(number) as nat,
            (4 * mantissa.discarded) as nat,
        );
        lemma_top_of_word(mantissa.value);
        if exact != exponent {
            lemma_extreme(number, exact - 4 * mantissa.places);
            lemma_extreme(number, told);
        }
    }
    nearest_bits(mantissa, power, Ghost(number))
}

/// Reads the text behind `0x`.
fn read_unsigned(digits: &[u8]) -> (result: Option<u64>)
    ensures
        match (result, unsigned_bits(digits@)) {
            (Some(bits), Some(expected)) => bits == expected && bits < 0x8000_0000_0000_0000,
            (None, None) => true,
            _ => false,
        },
{
    let mark: usize = find_mark(digits);
    let ghost mut exact: int = 0;
    let exponent: i128 = if mark < digits.len() {
        let announced = vstd::slice::slice_subrange(digits, mark + 1, digits.len());
        assert(announced@ =~= digits@.skip(mark + 1));
        match read_exponent(announced) {
            None => return None,
            Some(exponent) => {
                proof {
                    exact = exponent_of(announced@)->Some_0;
                }
                exponent
            },
        }
    } else {
        0
    };
    let front = vstd::slice::slice_subrange(digits, 0, mark);
    assert(front@ =~= digits@.take(mark as int));
    let mantissa = match read_mantissa(front) {
        None => return None,
        Some(mantissa) => mantissa,
    };
    let ghost number = magnitude(front@);
    assert(hex_reading(digits@) == Some((number, exact - 4 * mantissa.places)));
    if mantissa.value == 0 {
        proof {
            lemma_nothing(&mantissa, number);
        }
        return Some(0);
    }
    proof {
        lemma_positive(&mantissa, number);
    }
    scaled(&mantissa, exponent, Ghost(number), Ghost(exact))
}

/// Reads a hexadecimal number with its sign and `0x`.
pub fn parse_hex(text: &[u8]) -> (result: Option<u64>)
    requires
        unsigned(text@).len() >= 2,
    ensures
        result == hex_bits(text@),
{
    let negative = text[0] == 45;
    let start: usize = if text[0] == 43 || text[0] == 45 {
        3
    } else {
        2
    };
    let digits = vstd::slice::slice_subrange(text, start, text.len());
    assert(digits@ =~= unsigned(text@).skip(2));
    match read_unsigned(digits) {
        None => None,
        Some(bits) => if negative && bits != 0 {
            Some(0x8000_0000_0000_0000 + bits)
        } else {
            Some(bits)
        },
    }
}

/// Without a significant digit the number is zero.
proof fn lemma_nothing(mantissa: &Mantissa, number: nat)
    requires
        mantissa.tells(number),
        mantissa.value == 0,
    ensures
        number == 0,
{
    lemma2_to64();
    assert(mantissa.discarded == 0);
    assert(mantissa.value * pow2(0) == 0) by (nonlinear_arith)
        requires
            mantissa.value == 0,
    ;
}

/// Numbers far outside the format have no bits.
proof fn lemma_extreme(number: nat, power: int)
    requires
        number > 0,
        top_bit(number) + power > 1023 || top_bit(number) + power < -1080,
    ensures
        nearest(number, power) is None,
{
    if top_bit(number) + power < -1080 {
        let place = top_bit(number);
        let shift = (-1074 - power) as nat;
        let divisor = pow2(shift);
        lemma_top_bit(number);
        assert(place + 1 < shift - 1);
        lemma_pow2_strictly_increases(place + 1, (shift - 1) as nat);
        lemma_pow2_unfold(shift);
        vstd::arithmetic::div_mod::lemma_small_mod(number, divisor);
        vstd::arithmetic::div_mod::lemma_basic_div(number as int, divisor as int);
    }
}

proof fn lemma_top_of_word(value: u64)
    requires
        value > 0,
    ensures
        top_bit(value as nat) <= 63,
{
    lemma_top_bit(value as nat);
    lemma2_to64_rest();
    if top_bit(value as nat) > 63 {
        if top_bit(value as nat) > 64 {
            lemma_pow2_strictly_increases(64, top_bit(value as nat));
        }
        lemma2_to64();
    }
}

proof fn lemma_positive(mantissa: &Mantissa, number: nat)
    requires
        mantissa.tells(number),
        mantissa.value > 0,
    ensures
        number > 0,
{
    lemma_pow2_pos((4 * mantissa.discarded) as nat);
    assert(mantissa.value * pow2((4 * mantissa.discarded) as nat) > 0) by (nonlinear_arith)
        requires
            mantissa.value > 0,
            pow2((4 * mantissa.discarded) as nat) > 0,
    ;
}

} // verus!
