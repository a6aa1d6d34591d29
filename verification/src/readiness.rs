//! What a process that is ready says of itself.

use crate::buffer::{append, same_bytes};
use crate::numbers::decimal_text;
use crate::numbers;
use vstd::prelude::*;
use vstd::string::*;

verus! {

/// The readiness record: a line of JSON with the process, the host and the port
/// that was bound.
pub open spec fn record(pid: u32, host: Seq<u8>, port: u16) -> Seq<u8> {
    "{\"pid\":".spec_bytes() + numbers::decimal(pid as nat) + ",\"host\":\"".spec_bytes() + host
        + "\",\"port\":".spec_bytes() + numbers::decimal(port as nat) + "}\n".spec_bytes()
}

/// Writes the readiness record.
pub fn contents(pid: u32, host: &[u8], port: u16) -> (text: Vec<u8>)
    ensures
        text@ == record(pid, host@, port),
{
    let mut text: Vec<u8> = Vec::new();
    append(&mut text, "{\"pid\":".as_bytes());
    let number = decimal_text(pid as u64);
    append(&mut text, number.as_slice());
    append(&mut text, ",\"host\":\"".as_bytes());
    append(&mut text, host);
    append(&mut text, "\",\"port\":".as_bytes());
    let number = decimal_text(port as u64);
    append(&mut text, number.as_slice());
    append(&mut text, "}\n".as_bytes());
    assert(text@ =~= record(pid, host@, port));
    text
}

/// Whether the record on disk is still the one that this process wrote; only
/// then is it removed.
pub fn is_own(own: &[u8], found: &[u8]) -> (result: bool)
    ensures
        result == (own@ == found@),
{
    same_bytes(own, found)
}

} // verus!
