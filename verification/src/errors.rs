use vstd::prelude::*;

verus! {

/// The error type of the sled key-value store, declared so that it can
/// appear in signatures and fields. Verified code never looks inside a
/// value of it; it only carries it to the caller.
#[verifier::external_type_specification]
#[verifier::external_body]
pub struct ExSledError(sled::Error);

/// Everything that can go wrong in the store.
///
/// `Storage` carries the underlying key-value store's own error and may
/// indicate file corruption; callers should treat it as possibly fatal.
/// `Encode` and `Decode` surface serialization failures of a stored
/// document body. `BadValue` rejects values that cannot be indexed (a
/// NaN number, or a string holding one of the reserved separator
/// bytes). `InvalidQuery` rejects a conjunction that no document can
/// satisfy.
#[derive(Debug)]
pub enum DocDbError {
    Storage(sled::Error),
    Encode,
    Decode,
    BadValue,
    InvalidQuery,
}

impl From<sled::Error> for DocDbError {
    fn from(value: sled::Error) -> (r: DocDbError) {
        DocDbError::Storage(value)
    }
}

impl vstd::std_specs::convert::FromSpecImpl<sled::Error> for DocDbError {
    open spec fn obeys_from_spec() -> bool {
        true
    }

    open spec fn from_spec(value: sled::Error) -> DocDbError {
        DocDbError::Storage(value)
    }
}

} // verus!
