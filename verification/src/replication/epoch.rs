//! Epochs of primaries.

use vstd::prelude::*;

verus! {

/// Why there is no new epoch.
#[derive(Clone, Copy, Debug, PartialEq, Eq, Structural)]
pub enum EpochError {
    /// The machine gave no random bytes.
    Unavailable,
    /// The bytes are those that stand for no epoch.
    Reserved,
}

/// `getrandom::fill` over sixteen bytes: nothing where it reports a failure.
/// Which bytes come is chance, so nothing is claimed of them.
#[verifier::external_body]
fn random_bytes() -> (result: Option<[u8; 16]>)
{
    let mut bytes = [0u8; 16];
    match getrandom::fill(&mut bytes) {
        Ok(()) => Some(bytes),
        Err(_) => None,
    }
}

/// Whether bytes are those that stand for no epoch.
pub open spec fn reserved(epoch: Seq<u8>) -> bool {
    forall|i: int| 0 <= i < epoch.len() ==> #[trigger] epoch[i] == 0
}

/// The epoch that random bytes make.
pub fn epoch_from(bytes: Option<[u8; 16]>) -> (result: Result<[u8; 16], EpochError>)
    ensures
        match bytes {
            None => result == Err::<[u8; 16], EpochError>(EpochError::Unavailable),
            Some(epoch) => if reserved(epoch@) {
                result == Err::<[u8; 16], EpochError>(EpochError::Reserved)
            } else {
                result == Ok::<[u8; 16], EpochError>(epoch)
            },
        },
{
    let epoch = match bytes {
        None => return Err(EpochError::Unavailable),
        Some(epoch) => epoch,
    };
    let mut index: usize = 0;
    while index < 16
        invariant
            index <= 16,
            bytes == Some(epoch),
            forall|i: int| 0 <= i < index ==> epoch@[i] == 0,
        decreases 16 - index,
    {
        if epoch[index] != 0 {
            assert(epoch@[index as int] != 0);
            return Ok(epoch);
        }
        index += 1;
    }
    Err(EpochError::Reserved)
}

/// An independent epoch for each start of a primary and each promotion.
pub fn new_epoch() -> (result: Result<[u8; 16], EpochError>)
    ensures
        result matches Ok(epoch) ==> !reserved(epoch@),
{
    epoch_from(random_bytes())
}

} // verus!
