//! Decimal text of integers.

use vstd::prelude::*;

verus! {

pub open spec fn is_digit(byte: u8) -> bool {
    48 <= byte <= 57
}

/// Canonical decimal text: no sign, no leading zero but for zero itself.
pub open spec fn decimal(value: nat) -> Seq<u8>
    decreases value,
{
    if value < 10 {
        seq![(48 + value) as u8]
    } else {
        decimal(value / 10).push((48 + value % 10) as u8)
    }
}

/// Canonical decimal text of a signed integer.
pub open spec fn signed_decimal(value: int) -> Seq<u8> {
    if value < 0 {
        seq![45u8] + decimal((-value) as nat)
    } else {
        decimal(value as nat)
    }
}

/// What stops a run of digits from being a number.
#[derive(Clone, Copy, Debug, PartialEq, Eq, Structural)]
pub enum DigitFault {
    NotDigit,
    TooLarge,
}

/// The number that a run of digits denotes, read from the left; the first byte
/// that is not a digit, or that takes the number over `max`, decides the fault.
pub open spec fn digits_value(text: Seq<u8>, max: nat) -> Result<nat, DigitFault>
    decreases text.len(),
{
    if text.len() == 0 {
        Ok(0)
    } else {
        match digits_value(text.drop_last(), max) {
            Err(fault) => Err(fault),
            Ok(value) => if !is_digit(text.last()) {
                Err(DigitFault::NotDigit)
            } else if value * 10 + (text.last() - 48) > max {
                Err(DigitFault::TooLarge)
            } else {
                Ok((value * 10 + (text.last() - 48)) as nat)
            },
        }
    }
}

/// A fault in a prefix is the fault of the whole text.
pub proof fn lemma_fault_persists(text: Seq<u8>, count: int, max: nat)
    requires
        0 <= count <= text.len(),
        digits_value(text.take(count), max) is Err,
    ensures
        digits_value(text, max) == digits_value(text.take(count), max),
    decreases text.len() - count,
{
    if count < text.len() {
        assert(text.take(count + 1).drop_last() =~= text.take(count));
        lemma_fault_persists(text, count + 1, max);
    } else {
        assert(text.take(count) =~= text);
    }
}

/// Canonical text denotes the number it was made from.
pub proof fn lemma_decimal_value(value: nat, max: nat)
    requires
        value <= max,
    ensures
        digits_value(decimal(value), max) == Ok::<nat, DigitFault>(value),
        decimal(value).len() >= 1,
        forall|i: int| 0 <= i < decimal(value).len() ==> is_digit(#[trigger] decimal(value)[i]),
    decreases value,
{
    if value < 10 {
        let text = decimal(value);
        assert(text.drop_last() =~= Seq::<u8>::empty());
        assert(digits_value(text.drop_last(), max) == Ok::<nat, DigitFault>(0));
    } else {
        lemma_decimal_value(value / 10, max);
        let text = decimal(value);
        assert(text.drop_last() =~= decimal(value / 10));
    }
}

/// Digits without a leading zero are the canonical text of their number.
pub proof fn lemma_canonical(text: Seq<u8>, max: nat)
    requires
        text.len() >= 1,
        49 <= text[0] <= 57,
        digits_value(text, max) is Ok,
    ensures
        digits_value(text, max)->Ok_0 >= 1,
        decimal(digits_value(text, max)->Ok_0) == text,
    decreases text.len(),
{
    let value = digits_value(text, max)->Ok_0;
    let front = text.drop_last();
    if text.len() == 1 {
        assert(front =~= Seq::<u8>::empty());
        assert(digits_value(front, max) == Ok::<nat, DigitFault>(0));
        assert(decimal(value) =~= text);
    } else {
        assert(front[0] == text[0]);
        lemma_canonical(front, max);
        let rest = digits_value(front, max)->Ok_0;
        assert(value == rest * 10 + (text.last() - 48));
        assert(value / 10 == rest);
        assert(value % 10 == text.last() - 48);
        assert(front.push(text.last()) =~= text);
        assert(decimal(value) =~= text);
    }
}

/// Canonical text is at least one byte long and has no more bytes than any
/// other run of digits for the same number.
pub proof fn lemma_decimal_shortest(text: Seq<u8>, max: nat)
    requires
        text.len() >= 1,
        digits_value(text, max) is Ok,
    ensures
        decimal(digits_value(text, max)->Ok_0).len() <= text.len(),
    decreases text.len(),
{
    let value = digits_value(text, max)->Ok_0;
    if text.len() == 1 {
        assert(text.drop_last() =~= Seq::<u8>::empty());
        assert(digits_value(text.drop_last(), max) == Ok::<nat, DigitFault>(0));
    } else {
        lemma_decimal_shortest(text.drop_last(), max);
        if value >= 10 {
            assert(value / 10 == digits_value(text.drop_last(), max)->Ok_0);
        }
    }
}

/// A run of digits that denotes a number denotes none over `max`.
pub proof fn lemma_digits_bound(text: Seq<u8>, max: nat)
    ensures
        digits_value(text, max) matches Ok(value) ==> value <= max,
{
}

/// Canonical text of a positive number starts with a digit that is not zero.
pub proof fn lemma_decimal_first(value: nat)
    requires
        value > 0,
    ensures
        decimal(value).len() >= 1,
        49 <= decimal(value)[0] <= 57,
    decreases value,
{
    if value >= 10 {
        lemma_decimal_first(value / 10);
    }
}

/// The integer whose canonical text this is, if it is one.
pub open spec fn canonical_value(text: Seq<u8>) -> Option<i64> {
    if exists|value: i64| text == #[trigger] signed_decimal(value as int) {
        Some(choose|value: i64| text == #[trigger] signed_decimal(value as int))
    } else {
        None
    }
}

/// Different integers have different texts.
pub proof fn lemma_signed_injective(left: i64, right: i64)
    requires
        signed_decimal(left as int) == signed_decimal(right as int),
    ensures
        left == right,
{
    let text = signed_decimal(left as int);
    let max = 0x8000_0000_0000_0000nat;
    if left >= 0 {
        lemma_decimal_value(left as nat, max);
        assert(is_digit(decimal(left as nat)[0]));
    } else {
        lemma_decimal_value((-left) as nat, max);
        assert(text.skip(1) =~= decimal((-left) as nat));
    }
    if right >= 0 {
        lemma_decimal_value(right as nat, max);
        assert(is_digit(decimal(right as nat)[0]));
    } else {
        lemma_decimal_value((-right) as nat, max);
        assert(text.skip(1) =~= decimal((-right) as nat));
    }
}

/// Reads the canonical decimal text of an integer; nothing else is accepted.
pub fn parse_decimal(text: &[u8]) -> (result: Option<i64>)
    ensures
        result == canonical_value(text@),
{
    let ghost max = 0x8000_0000_0000_0000nat;
    if text.len() == 1 && text[0] == 48 {
        proof {
            assert(text@ =~= signed_decimal(0i64 as int));
            let value = choose|value: i64| text@ == #[trigger] signed_decimal(value as int);
            lemma_signed_injective(value, 0);
        }
        return Some(0);
    }
    let negative = text.len() > 0 && text[0] == 45;
    let from: usize = if negative {
        1
    } else {
        0
    };
    let digits = vstd::slice::slice_subrange(text, from, text.len());
    proof {
        if negative {
            assert(digits@ =~= text@.skip(1));
        } else {
            assert(digits@ =~= text@);
        }
        // The shape that a canonical text would have.
        assert forall|value: i64| text@ == #[trigger] signed_decimal(value as int) implies {
            &&& digits@.len() >= 1
            &&& 49 <= digits@[0] <= 57
            &&& negative == (value < 0)
            &&& digits@ == decimal(if value < 0 { (-value) as nat } else { value as nat })
        } by {
            if value < 0 {
                lemma_decimal_first((-value) as nat);
                assert(text@[0] == 45);
                assert(text@.skip(1) =~= decimal((-value) as nat));
            } else if value > 0 {
                lemma_decimal_first(value as nat);
            } else {
                assert(text@ =~= seq![48u8]);
                assert(false);
            }
        }
    }
    if digits.len() == 0 || digits[0] < 49 || digits[0] > 57 {
        return None;
    }
    match read_digits(digits, 0x8000_0000_0000_0000) {
        Err(_) => {
            proof {
                assert forall|value: i64| text@ != #[trigger] signed_decimal(value as int) by {
                    if text@ == signed_decimal(value as int) {
                        lemma_decimal_value(
                            if value < 0 {
                                (-value) as nat
                            } else {
                                value as nat
                            },
                            max,
                        );
                    }
                }
            }
            None
        },
        Ok(magnitude) => {
            proof {
                lemma_canonical(digits@, max);
            }
            if !negative && magnitude == 0x8000_0000_0000_0000 {
                proof {
                    assert forall|value: i64| text@ != #[trigger] signed_decimal(
                        value as int,
                    ) by {
                        if text@ == signed_decimal(value as int) {
                            lemma_decimal_value(value as nat, max);
                        }
                    }
                }
                return None;
            }
            let result: i64 = if negative {
                (-(magnitude as i128)) as i64
            } else {
                magnitude as i64
            };
            proof {
                if negative {
                    assert(text@ =~= seq![45u8] + digits@);
                }
                assert(text@ == signed_decimal(result as int));
                let value = choose|value: i64| text@ == #[trigger] signed_decimal(value as int);
                lemma_signed_injective(value, result);
            }
            Some(result)
        },
    }
}

/// Decimal text of an unsigned integer.
pub fn decimal_text(value: u64) -> (text: Vec<u8>)
    ensures
        text@ == decimal(value as nat),
    decreases value,
{
    if value < 10 {
        let mut text: Vec<u8> = Vec::new();
        text.push(48 + value as u8);
        assert(text@ =~= decimal(value as nat));
        text
    } else {
        let mut text = decimal_text(value / 10);
        text.push(48 + (value % 10) as u8);
        text
    }
}

/// The decimal text of a wide number.
pub fn wide_decimal_text(value: u128) -> (text: Vec<u8>)
    ensures
        text@ == decimal(value as nat),
    decreases value,
{
    if value < 10 {
        let mut text: Vec<u8> = Vec::new();
        text.push(48 + value as u8);
        assert(text@ =~= decimal(value as nat));
        text
    } else {
        let mut text = wide_decimal_text(value / 10);
        text.push(48 + (value % 10) as u8);
        text
    }
}

/// Decimal text of a signed integer.
pub fn signed_decimal_text(value: i64) -> (text: Vec<u8>)
    ensures
        text@ == signed_decimal(value as int),
{
    if value >= 0 {
        return decimal_text(value as u64);
    }
    let magnitude: u64 = (-(value as i128)) as u64;
    let mut digits = decimal_text(magnitude);
    let mut text: Vec<u8> = Vec::new();
    text.push(45);
    text.append(&mut digits);
    assert(text@ =~= signed_decimal(value as int));
    text
}

/// Reads a run of digits as a number of at most `max`.
pub fn read_digits(text: &[u8], max: u64) -> (result: Result<u64, DigitFault>)
    ensures
        match digits_value(text@, max as nat) {
            Ok(value) => result == Ok::<u64, DigitFault>(value as u64) && value <= max,
            Err(fault) => result == Err::<u64, DigitFault>(fault),
        },
{
    let mut value: u64 = 0;
    let mut index: usize = 0;
    while index < text.len()
        invariant
            index <= text@.len(),
            value <= max,
            digits_value(text@.take(index as int), max as nat) == Ok::<nat, DigitFault>(
                value as nat,
            ),
        decreases text@.len() - index,
    {
        let byte: u8 = text[index];
        assert(text@.take(index + 1).drop_last() =~= text@.take(index as int));
        if byte < 48 || byte > 57 {
            proof {
                lemma_fault_persists(text@, index + 1, max as nat);
            }
            return Err(DigitFault::NotDigit);
        }
        let next: u128 = (value as u128) * 10 + (byte - 48) as u128;
        if next > max as u128 {
            proof {
                lemma_fault_persists(text@, index + 1, max as nat);
            }
            return Err(DigitFault::TooLarge);
        }
        value = next as u64;
        index += 1;
    }
    assert(text@.take(index as int) =~= text@);
    Ok(value)
}

/// A greater number has no shorter text.
pub proof fn lemma_decimal_grows(small: nat, large: nat)
    requires
        small <= large,
    ensures
        decimal(small).len() <= decimal(large).len(),
    decreases large,
{
    if large >= 10 && small >= 10 {
        lemma_decimal_grows(small / 10, large / 10);
    }
}

} // verus!
