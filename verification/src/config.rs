//! Sizes that are fixed when the host is built.

use vstd::prelude::*;

verus! {

/// Bytes of storage in one [`ClientAttTable`](crate::table::ClientAttTable), for the index and the
/// values together.
///
/// The builder needs room for the header, and offsets are 16 bits wide: any number of bytes from
/// [`HEADER_SIZE`](crate::layout::HEADER_SIZE) to `u16::MAX` will do.
pub const CLIENT_ATT_TABLE_SIZE: usize = 128;

} // verus!
