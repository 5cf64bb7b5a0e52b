//! The errors of the attribute tables.

use vstd::prelude::*;

verus! {

/// Why a table, a slot or a raw buffer could not be used.
#[derive(Clone, Copy, Debug, PartialEq, Eq, Structural)]
pub enum Error {
    /// A buffer does not hold a table.
    InvalidValue,
    /// There is no slot for another client.
    ConnectionLimitReached,
    /// No client is known under the given identity.
    NotFound,
}

/// The error codes of the attribute protocol that reads and writes are answered with.
#[allow(non_camel_case_types)]
#[derive(Clone, Copy, Debug, PartialEq, Eq, Structural)]
pub enum AttErrorCode {
    /// The offset lies past the end of the value.
    INVALID_OFFSET,
    /// The client has no attribute with the given handle.
    ATTRIBUTE_NOT_FOUND,
    /// The written value is too long for the attribute.
    INVALID_ATTRIBUTE_VALUE_LENGTH,
}

} // verus!
