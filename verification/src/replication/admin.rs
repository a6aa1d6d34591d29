//! What an operator may ask of a running server.

use super::protocol::{Message, MessageModel};
use crate::buffer::same_bytes;
use vstd::prelude::*;
use vstd::string::*;

verus! {

#[derive(Clone, Copy, Debug, PartialEq, Eq, Structural)]
pub enum Operation {
    Status,
    /// Makes the role of a primary lasting and stops following.
    Promote,
}

#[derive(Clone, Copy, Debug, PartialEq, Eq, Structural)]
pub enum AdminError {
    /// The arguments are not an address and an operation.
    Arguments,
    /// A promotion has to be asked for on the machine itself.
    Remote,
    Unknown,
}

impl AdminError {
    pub open spec fn text(self) -> &'static str {
        match self {
            AdminError::Arguments => "argumentos inválidos; consulte --help",
            AdminError::Remote => "promoção exige endereço de loopback",
            AdminError::Unknown => "operação inválida; consulte --help",
        }
    }

    pub fn message(self) -> (text: &'static str)
        ensures
            text == self.text(),
    {
        match self {
            AdminError::Arguments => "argumentos inválidos; consulte --help",
            AdminError::Remote => "promoção exige endereço de loopback",
            AdminError::Unknown => "operação inválida; consulte --help",
        }
    }
}

/// The operation of a word, for an address on this machine or not.
pub open spec fn operation_of(word: Seq<u8>, local: bool) -> Result<Operation, AdminError> {
    if word == "--status".spec_bytes() {
        Ok(Operation::Status)
    } else if word == "--promote".spec_bytes() {
        if local {
            Ok(Operation::Promote)
        } else {
            Err(AdminError::Remote)
        }
    } else {
        Err(AdminError::Unknown)
    }
}

/// Reads an operation.
pub fn operation(word: &[u8], local: bool) -> (result: Result<Operation, AdminError>)
    ensures
        result == operation_of(word@, local),
{
    if same_bytes(word, "--status".as_bytes()) {
        Ok(Operation::Status)
    } else if same_bytes(word, "--promote".as_bytes()) {
        if local {
            Ok(Operation::Promote)
        } else {
            Err(AdminError::Remote)
        }
    } else {
        Err(AdminError::Unknown)
    }
}

/// Whether the arguments are `--addr`, an address and an operation.
pub fn check_arguments(count: usize, first: &[u8]) -> (result: Result<(), AdminError>)
    ensures
        result == if count == 3 && first@ == "--addr".spec_bytes() {
            Ok::<(), AdminError>(())
        } else {
            Err(AdminError::Arguments)
        },
{
    if count != 3 || !same_bytes(first, "--addr".as_bytes()) {
        return Err(AdminError::Arguments);
    }
    Ok(())
}

/// What is sent for an operation.
pub fn request(operation: Operation) -> (message: Message)
    ensures
        message.model() == match operation {
            Operation::Status => MessageModel::StatusRequest,
            Operation::Promote => MessageModel::Promote,
        },
        message.wf(),
{
    match operation {
        Operation::Status => Message::StatusRequest,
        Operation::Promote => Message::Promote,
    }
}

} // verus!
