//! Error types of the store and of the daemon.

use vstd::prelude::*;

verus! {

/// `std::io::Error`, carried through the library's error types.
#[verifier::external_type_specification]
#[verifier::external_body]
pub struct ExIoError(std::io::Error);

/// `prost::DecodeError`, carried through the store's error type.
#[verifier::external_type_specification]
#[verifier::external_body]
pub struct ExDecodeError(prost::DecodeError);

/// Errors of the chunk store.
#[derive(Debug)]
pub enum StoreError {
    Index(String),
    Storage(String),
    Serialization(String),
    Io(std::io::Error),
    Decode(prost::DecodeError),
}

/// Errors of the daemon.
#[derive(Debug)]
pub enum KeelError {
    Store(StoreError),
    Index(String),
    Grpc(String),
    Config(String),
}

} // verus!
