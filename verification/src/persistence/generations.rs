//! Names of the files that hold the generations of a log.

use super::config::AofError;
use crate::buffer::{append, same_bytes};
use crate::numbers::{decimal_text, read_digits, DigitFault};
use crate::numbers;
use vstd::prelude::*;
use vstd::string::*;

verus! {

/// A number in twenty digits.
pub open spec fn padded(value: u64) -> Seq<u8> {
    let digits = numbers::decimal(value as nat);
    Seq::new((20 - digits.len()) as nat, |i: int| 48u8) + digits
}

/// The name of the file that holds a generation.
pub open spec fn generation_file(generation: u64) -> Seq<u8> {
    "generation-".spec_bytes() + padded(generation) + ".aof".spec_bytes()
}

/// Whether the name is that of a generation, with something in the middle.
pub open spec fn names_generation(name: Seq<u8>) -> bool {
    let prefix = "generation-".spec_bytes();
    let suffix = ".aof".spec_bytes();
    &&& name.len() >= prefix.len() + suffix.len()
    &&& name.take(prefix.len() as int) == prefix
    &&& name.skip(name.len() - suffix.len()) == suffix
}

/// What stands in the middle of the name of a generation.
pub open spec fn generation_digits(name: Seq<u8>) -> Seq<u8> {
    name.subrange(
        "generation-".spec_bytes().len() as int,
        name.len() - ".aof".spec_bytes().len(),
    )
}

/// The generation that a name tells; `None` for other names, an error for
/// names that only look like one.
pub open spec fn named_generation(name: Seq<u8>) -> Result<Option<u64>, ()> {
    if !names_generation(name) {
        Ok(None)
    } else {
        let digits = generation_digits(name);
        if digits.len() != 20 {
            Err(())
        } else {
            match numbers::digits_value(digits, u64::MAX as nat) {
                Ok(value) => Ok(Some(value as u64)),
                Err(_) => Err(()),
            }
        }
    }
}

/// The latest generation among the names, or an error if one of them only
/// looks like a generation.
pub open spec fn latest_generation(names: Seq<Seq<u8>>) -> Result<Option<u64>, ()>
    decreases names.len(),
{
    if names.len() == 0 {
        Ok(None)
    } else {
        match (latest_generation(names.drop_last()), named_generation(names.last())) {
            (Ok(before), Ok(found)) => Ok(
                match (before, found) {
                    (Some(left), Some(right)) => Some(
                        if left >= right {
                            left
                        } else {
                            right
                        },
                    ),
                    (Some(left), None) => Some(left),
                    (None, found) => found,
                },
            ),
            _ => Err(()),
        }
    }
}

/// No text of a number of 64 bits is longer than twenty digits.
proof fn lemma_decimal_len(value: nat, digits: nat, bound: nat)
    requires
        value < bound,
        bound == vstd::arithmetic::power::pow(10, digits),
        digits >= 1,
    ensures
        numbers::decimal(value).len() <= digits,
    decreases digits,
{
    reveal(vstd::arithmetic::power::pow);
    if value >= 10 {
        let less = vstd::arithmetic::power::pow(10, (digits - 1) as nat);
        assert(bound == 10 * less);
        if digits == 1 {
            assert(less == 1);
            assert(false);
        }
        lemma_decimal_len(value / 10, (digits - 1) as nat, less as nat);
    }
}

proof fn lemma_padded(value: u64)
    ensures
        numbers::decimal(value as nat).len() <= 20,
        padded(value).len() == 20,
        numbers::digits_value(padded(value), u64::MAX as nat) == Ok::<nat, DigitFault>(value as nat),
{
    assert(vstd::arithmetic::power::pow(10, 20) == 100_000_000_000_000_000_000) by {
        reveal_with_fuel(vstd::arithmetic::power::pow, 21);
    }
    lemma_decimal_len(value as nat, 20, 100_000_000_000_000_000_000);
    numbers::lemma_decimal_value(value as nat, u64::MAX as nat);
    let digits = numbers::decimal(value as nat);
    lemma_leading_zeros((20 - digits.len()) as nat, digits);
}

proof fn lemma_leading_zeros(count: nat, digits: Seq<u8>)
    ensures
        numbers::digits_value(Seq::new(count, |i: int| 48u8) + digits, u64::MAX as nat) == numbers::digits_value(
            digits,
            u64::MAX as nat,
        ),
    decreases count + digits.len(),
{
    let zeros = Seq::new(count, |i: int| 48u8);
    let all = zeros + digits;
    if digits.len() > 0 {
        assert(all.drop_last() =~= zeros + digits.drop_last());
        lemma_leading_zeros(count, digits.drop_last());
    } else if count > 0 {
        let fewer = Seq::new((count - 1) as nat, |i: int| 48u8);
        assert(all.drop_last() =~= fewer + digits);
        lemma_leading_zeros((count - 1) as nat, digits);
    } else {
        assert(all =~= digits);
    }
}

/// The name of a generation tells the generation.
pub proof fn law_generation_names_are_read_back(generation: u64)
    ensures
        named_generation(generation_file(generation)) == Ok::<Option<u64>, ()>(Some(generation)),
{
    lemma_padded(generation);
    let name = generation_file(generation);
    let prefix = "generation-".spec_bytes();
    let suffix = ".aof".spec_bytes();
    assert(name.take(prefix.len() as int) =~= prefix);
    assert(name.skip(name.len() - suffix.len()) =~= suffix);
    assert(generation_digits(name) =~= padded(generation));
}

/// The name of the file that holds a generation.
pub fn generation_name(generation: u64) -> (name: Vec<u8>)
    ensures
        name@ == generation_file(generation),
{
    let digits = decimal_text(generation);
    proof {
        lemma_padded(generation);
    }
    let mut name: Vec<u8> = Vec::new();
    append(&mut name, "generation-".as_bytes());
    let ghost start = name@;
    let mut left: usize = 20 - digits.len();
    let ghost count = left;
    while left > 0
        invariant
            left <= count,
            name@ == start + Seq::new((count - left) as nat, |i: int| 48u8),
        decreases left,
    {
        name.push(48);
        left -= 1;
        assert(name@ =~= start + Seq::new((count - left) as nat, |i: int| 48u8));
    }
    append(&mut name, digits.as_slice());
    append(&mut name, ".aof".as_bytes());
    assert(name@ =~= generation_file(generation));
    name
}

/// The generation that a name tells.
pub fn read_generation(name: &[u8]) -> (result: Result<Option<u64>, AofError>)
    ensures
        match (result, named_generation(name@)) {
            (Ok(found), Ok(generation)) => found == generation,
            (Err(error), Err(_)) => error == AofError::Sequence,
            _ => false,
        },
{
    let prefix = "generation-".as_bytes();
    let suffix = ".aof".as_bytes();
    if name.len() < prefix.len() || name.len() - prefix.len() < suffix.len() {
        return Ok(None);
    }
    let end: usize = name.len() - suffix.len();
    let head = vstd::slice::slice_subrange(name, 0, prefix.len());
    let tail = vstd::slice::slice_subrange(name, end, name.len());
    assert(head@ =~= name@.take(prefix@.len() as int));
    assert(tail@ =~= name@.skip(end as int));
    if !same_bytes(head, prefix) || !same_bytes(tail, suffix) {
        return Ok(None);
    }
    let digits = vstd::slice::slice_subrange(name, prefix.len(), end);
    assert(digits@ =~= generation_digits(name@));
    if digits.len() != 20 {
        return Err(AofError::Sequence);
    }
    match read_digits(digits, u64::MAX) {
        Ok(value) => Ok(Some(value)),
        Err(_) => Err(AofError::Sequence),
    }
}

/// The latest generation among the names of a directory.
pub fn select_generation(names: &Vec<Vec<u8>>) -> (result: Result<Option<u64>, AofError>)
    ensures
        match (result, latest_generation(names@.map_values(|name: Vec<u8>| name@))) {
            (Ok(found), Ok(generation)) => found == generation,
            (Err(error), Err(_)) => error == AofError::Sequence,
            _ => false,
        },
{
    let ghost all = names@.map_values(|name: Vec<u8>| name@);
    let mut latest: Option<u64> = None;
    let mut index: usize = 0;
    assert(all.take(0) =~= Seq::<Seq<u8>>::empty());
    while index < names.len()
        invariant
            index <= names@.len(),
            all == names@.map_values(|name: Vec<u8>| name@),
            latest_generation(all.take(index as int)) == Ok::<Option<u64>, ()>(latest),
        decreases names@.len() - index,
    {
        proof {
            assert(all.take(index + 1).drop_last() =~= all.take(index as int));
            assert(all.take(index + 1).last() == names@[index as int]@);
            if latest_generation(all.take(index + 1)) is Err {
                lemma_latest_fault(all, index + 1);
            }
        }
        let found: Option<u64> = match read_generation(names[index].as_slice()) {
            Err(error) => return Err(error),
            Ok(found) => found,
        };
        latest = match (latest, found) {
            (Some(left), Some(right)) => if left >= right {
                Some(left)
            } else {
                Some(right)
            },
            (Some(left), None) => Some(left),
            (None, found) => found,
        };
        index += 1;
    }
    assert(all.take(index as int) =~= all);
    Ok(latest)
}

proof fn lemma_latest_fault(names: Seq<Seq<u8>>, count: int)
    requires
        0 <= count <= names.len(),
        latest_generation(names.take(count)) is Err,
    ensures
        latest_generation(names) is Err,
    decreases names.len() - count,
{
    if count < names.len() {
        assert(names.take(count + 1).drop_last() =~= names.take(count));
        lemma_latest_fault(names, count + 1);
    } else {
        assert(names.take(count) =~= names);
    }
}

/// The generation that is chosen is the greatest one that a name tells; none is chosen only
/// where no name tells one. A name that only looks like one stops the choice.
pub proof fn law_the_latest_generation_is_the_greatest(names: Seq<Seq<u8>>)
    ensures
        match latest_generation(names) {
            Ok(Some(latest)) => {
                &&& exists|i: int|
                    0 <= i < names.len() && named_generation(#[trigger] names[i]) == Ok::<
                        Option<u64>,
                        (),
                    >(Some(latest))
                &&& forall|i: int|
                    0 <= i < names.len() ==> (named_generation(#[trigger] names[i]) matches Ok(
                        Some(generation),
                    ) ==> generation <= latest)
                &&& forall|i: int|
                    0 <= i < names.len() ==> named_generation(#[trigger] names[i]) is Ok
            },
            Ok(None) => forall|i: int|
                0 <= i < names.len() ==> named_generation(#[trigger] names[i]) == Ok::<
                    Option<u64>,
                    (),
                >(None),
            Err(_) => exists|i: int|
                0 <= i < names.len() && named_generation(#[trigger] names[i]) is Err,
        },
    decreases names.len(),
{
    if names.len() > 0 {
        let front = names.drop_last();
        let last = names.len() - 1;
        law_the_latest_generation_is_the_greatest(front);
        assert(names[last] == names.last());
        assert forall|i: int| 0 <= i < front.len() implies front[i] == names[i] by {}
        match latest_generation(front) {
            Ok(Some(latest)) => {
                let i = choose|i: int|
                    0 <= i < front.len() && named_generation(#[trigger] front[i]) == Ok::<
                        Option<u64>,
                        (),
                    >(Some(latest));
                assert(names[i] == front[i]);
            },
            Ok(None) => {},
            Err(_) => {
                let i = choose|i: int|
                    0 <= i < front.len() && named_generation(#[trigger] front[i]) is Err;
                assert(names[i] == front[i]);
            },
        }
        assert forall|i: int| 0 <= i < names.len() implies i == last || front[i] == names[i] by {}
    }
}

} // verus!
