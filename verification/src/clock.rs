//! Instants of the machine's clock.

use std::time::{Duration, Instant};
use vstd::prelude::*;

verus! {

/// `std::time::Instant`: a reading of a clock that never goes back.
#[verifier::external_type_specification]
#[verifier::external_body]
pub struct ExInstant(Instant);

/// `Instant::now`. Nothing is claimed of the reading.
#[verifier::external_body]
fn now() -> (result: Instant)
{
    Instant::now()
}

/// `Instant::checked_add`: whether the machine can name the instant that comes
/// this long after another. Which spans it reaches is left to the machine; only
/// that an instant itself can be named is claimed.
#[verifier::external_body]
fn nameable(start: &Instant, seconds: u64, nanoseconds: u32) -> (result: bool)
    requires
        nanoseconds < 1_000_000_000,
    ensures
        seconds == 0 && nanoseconds == 0 ==> result,
{
    start.checked_add(Duration::new(seconds, nanoseconds)).is_some()
}

/// The whole seconds of so many nanoseconds and what is left of them, where a
/// `Duration` can tell them.
pub fn split(span: u128) -> (result: Option<(u64, u32)>)
    ensures
        match result {
            Some((seconds, nanoseconds)) => nanoseconds < 1_000_000_000 && seconds * 1_000_000_000
                + nanoseconds == span,
            None => span / 1_000_000_000 > u64::MAX,
        },
{
    let seconds: u128 = span / 1_000_000_000;
    if seconds > u64::MAX as u128 {
        return None;
    }
    Some((seconds as u64, (span % 1_000_000_000) as u32))
}

/// What the clock may answer when it is asked whether it can count a span: never
/// that it can count one that no `Duration` tells, always that it can count none
/// at all.
pub open spec fn answerable(span: u128, reached: bool) -> bool {
    &&& span / 1_000_000_000 > u64::MAX ==> !reached
    &&& span == 0 ==> reached
}

/// What the clock may answer to several questions, in their order.
pub open spec fn answerable_all(spans: Seq<u128>, reached: Seq<bool>) -> bool {
    &&& reached.len() == spans.len()
    &&& forall|i: int| 0 <= i < spans.len() ==> answerable(spans[i], #[trigger] reached[i])
}

/// Whether the clock can name the instant that comes this many nanoseconds
/// from now. No clock names one that is further away than a `Duration` tells.
pub fn reachable(span: u128) -> (result: bool)
    ensures
        answerable(span, result),
{
    match split(span) {
        None => false,
        Some((seconds, nanoseconds)) => {
            let start = now();
            nameable(&start, seconds, nanoseconds)
        },
    }
}

/// Asks the clock about each of the spans.
pub fn reachable_all(spans: &Vec<u128>) -> (result: Vec<bool>)
    ensures
        answerable_all(spans@, result@),
{
    let mut result: Vec<bool> = Vec::new();
    let mut index: usize = 0;
    while index < spans.len()
        invariant
            index <= spans@.len(),
            result@.len() == index,
            forall|i: int| 0 <= i < index ==> answerable(spans@[i], #[trigger] result@[i]),
        decreases spans@.len() - index,
    {
        result.push(reachable(spans[index]));
        index += 1;
    }
    result
}

} // verus!
