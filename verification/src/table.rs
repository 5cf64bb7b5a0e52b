//! The table of one client.

use vstd::prelude::*;

use crate::bytes;
use crate::config::CLIENT_ATT_TABLE_SIZE;
use crate::entry::Header;
use crate::error::AttErrorCode;
use crate::layout;
use crate::layout::{Attribute, VARIABLE_LEN_FLAG};
use crate::view::ClientAttTableView;

verus! {

/// What a write of `len` bytes to `key` at `offset` is answered with.
pub open spec fn write_result(a: Seq<Attribute>, key: int, offset: int, len: int) -> Result<
    (),
    AttErrorCode,
> {
    match layout::position(a, key) {
        None => Err(AttErrorCode::ATTRIBUTE_NOT_FOUND),
        Some(i) => if offset > a[i].value.len() {
            Err(AttErrorCode::INVALID_OFFSET)
        } else if offset + len > a[i].capacity {
            Err(AttErrorCode::INVALID_ATTRIBUTE_VALUE_LENGTH)
        } else {
            Ok(())
        },
    }
}

/// The table in `b` after a write of `data` to `key` at `offset`, which may have been refused.
pub open spec fn after_write(b: Seq<u8>, key: int, offset: int, data: Seq<u8>) -> Seq<u8> {
    if write_result(layout::attributes(b), key, offset, data.len() as int) is Ok {
        layout::written_bytes(b, layout::position(layout::attributes(b), key)->0, offset, data)
    } else {
        b
    }
}

/// A compact, fixed-size map of client-specific attribute values (e.g. CCCDs).
///
/// Entries are stored in a flat byte buffer with a sorted index for binary-search lookups.
/// [`CLIENT_ATT_TABLE_SIZE`] determines the total storage available for both the index and values.
#[derive(Clone, Copy, Debug)]
pub struct ClientAttTable {
    buf: [u8; CLIENT_ATT_TABLE_SIZE],
}

impl ClientAttTable {
    /// The storage of the table.
    pub closed spec fn bytes(&self) -> Seq<u8> {
        self.buf@
    }

    /// The storage holds a table.
    pub open spec fn wf(&self) -> bool {
        layout::valid_storage(self.bytes())
    }

    /// The attributes of the table.
    pub open spec fn attributes(&self) -> Seq<Attribute> {
        layout::attributes(self.bytes())
    }

    /// A table in the given storage.
    pub(crate) fn over(buf: [u8; CLIENT_ATT_TABLE_SIZE]) -> (r: Self)
        ensures
            r.bytes() == buf@,
    {
        Self { buf }
    }

    /// Get a read-only view of the table
    pub fn view(&self) -> (r: ClientAttTableView<'_>)
        ensures
            r.bytes() == self.bytes(),
    {
        ClientAttTableView::over(&self.buf)
    }

    pub(crate) fn header(&self) -> (r: Header)
        requires
            self.wf(),
        ensures
            bytes::le16(r.0@, 0) == layout::att_count(self.bytes()),
            bytes::le16(r.0@, 2) == layout::values_len(self.bytes()),
    {
        self.view().header()
    }

    /// If `i` is a variable length attribute, set its length to `len`. For fixed length attributes, do
    /// nothing.
    pub(crate) fn set_variable_len(&mut self, i: usize, len: u16)
        requires
            layout::valid_table(old(self).bytes()),
            i < layout::att_count(old(self).bytes()),
            len <= layout::value_capacity(old(self).bytes(), i as int),
        ensures
            final(self).bytes() == if layout::entry_variable(old(self).bytes(), i as int) {
                bytes::splice(
                    old(self).bytes(),
                    layout::raw_value_start(old(self).bytes(), i as int),
                    bytes::le16_bytes(len as int),
                )
            } else {
                old(self).bytes()
            },
    {
        proof {
            layout::lemma_places(self.bytes(), i as int);
        }
        if self.view().entry(i).is_variable_len() {
            let start: usize = self.view().raw_value_start(i);
            bytes::copy_into(&mut self.buf, start, &bytes::u16_to_le(len));
        }
    }

    /// Returns a reference to the value associated with the given attribute handle, or `None` if not
    /// found.
    pub fn get(&self, key: u16) -> (r: Option<&[u8]>)
        requires
            self.wf(),
        ensures
            match r {
                Some(v) => layout::lookup(self.attributes(), key as int) == Some(v@),
                None => layout::lookup(self.attributes(), key as int) is None,
            },
    {
        self.view().get(key)
    }

    /// Writes `data` to `key` starting at `offset`.
    ///
    /// A variable-length value ends where `data` ends. The bytes that a shorter value leaves unused
    /// stay in storage. A refused write changes nothing.
    #[verifier::rlimit(40)]
    pub fn write(&mut self, key: u16, offset: usize, data: &[u8]) -> (r: Result<(), AttErrorCode>)
        requires
            old(self).wf(),
        ensures
            final(self).wf(),
            r == write_result(
                old(self).attributes(),
                key as int,
                offset as int,
                data@.len() as int,
            ),
            final(self).bytes() == after_write(
                old(self).bytes(),
                key as int,
                offset as int,
                data@,
            ),
            r is Ok ==> final(self).attributes() == layout::written(
                old(self).attributes(),
                layout::position(old(self).attributes(), key as int)->0,
                offset as int,
                data@,
            ),
            r is Err ==> final(self).attributes() == old(self).attributes(),
    {
        let ghost b = self.bytes();
        if key >= VARIABLE_LEN_FLAG {
            proof {
                assert forall|i: int|
                    !layout::is_position(self.attributes(), key as int, i) by {}
            }
            return Err(AttErrorCode::ATTRIBUTE_NOT_FOUND);
        }
        let i: usize = match self.view().find(key) {
            Some(i) => i,
            None => {
                return Err(AttErrorCode::ATTRIBUTE_NOT_FOUND);
            },
        };
        proof {
            layout::lemma_places(b, i as int);
        }
        if offset > self.view().value_len(i) {
            return Err(AttErrorCode::INVALID_OFFSET);
        }
        if data.len() > self.view().value_capacity(i) - offset {
            return Err(AttErrorCode::INVALID_ATTRIBUTE_VALUE_LENGTH);
        }
        let start: usize = self.view().value_start(i) + offset;
        bytes::copy_into(&mut self.buf, start, data);
        proof {
            let c = self.bytes();
            layout::lemma_same_index(b, c);
            layout::lemma_same_places(b, c, i as int);
            layout::lemma_changed_attribute(b, c, i as int);
        }
        self.set_variable_len(i, (offset + data.len()) as u16);
        proof {
            layout::lemma_written(b, i as int, offset as int, data@);
            layout::lemma_valid_storage(b, self.bytes());
        }
        Ok(())
    }

    /// Gives attribute `i` the value `v`, cut to its capacity, and zeros the rest.
    fn set_value(&mut self, i: usize, v: &[u8])
        requires
            old(self).wf(),
            i < layout::att_count(old(self).bytes()),
        ensures
            layout::value_set(old(self).bytes(), final(self).bytes(), i as int, v@),
    {
        let ghost b = self.bytes();
        proof {
            layout::lemma_places(b, i as int);
        }
        let start: usize = self.view().value_start(i);
        let end: usize = self.view().value_end(i);
        let capacity: usize = self.view().value_capacity(i);
        let copy_len: usize = if capacity <= v.len() {
            capacity
        } else {
            v.len()
        };
        proof {
            assert(v@.subrange(0, copy_len as int) =~= layout::fitting(v@, capacity as int));
            layout::lemma_value_set(b, i as int, v@);
        }
        bytes::copy_into(&mut self.buf, start, &v[0..copy_len]);
        bytes::fill_zero(&mut self.buf, start + copy_len, end);
        self.set_variable_len(i, copy_len as u16);
    }

    /// Zeros the bytes of attribute `i`, its length included.
    fn zero_value(&mut self, i: usize)
        requires
            old(self).wf(),
            i < layout::att_count(old(self).bytes()),
        ensures
            layout::value_set(old(self).bytes(), final(self).bytes(), i as int, Seq::empty()),
    {
        let ghost b = self.bytes();
        proof {
            layout::lemma_places(b, i as int);
        }
        let start: usize = self.view().raw_value_start(i);
        let end: usize = self.view().value_end(i);
        bytes::fill_zero(&mut self.buf, start, end);
        proof {
            layout::lemma_filled(b, self.bytes(), i as int, Seq::empty());
        }
    }

    /// Copies values from `src` into this map for all matching keys.
    ///
    /// Keys present in this map but not in `src` are zeroed. If value sizes differ, only the smaller
    /// length is copied and the remainder is zeroed.
    pub fn set_values(&mut self, src: &ClientAttTableView<'_>)
        requires
            old(self).wf(),
            src.wf(),
        ensures
            final(self).wf(),
            final(self).attributes() == layout::restored(old(self).attributes(), src.attributes()),
            final(self).bytes() == layout::restored_bytes(old(self).bytes(), src.attributes()),
    {
        let ghost b = self.bytes();
        let ghost a = self.attributes();
        let count: usize = self.header().att_count();
        let mut i: usize = 0;
        while i < count
            invariant
                b == old(self).bytes(),
                a == layout::attributes(b),
                count == layout::att_count(b),
                i <= count,
                layout::valid_storage(b),
                src.wf(),
                self.wf(),
                layout::same_index(b, self.bytes()),
                self.bytes().len() == b.len(),
                forall|j: int|
                    0 <= j < b.len() && (forall|k: int| !layout::in_region(b, k, j))
                        ==> #[trigger] self.bytes()[j] == b[j],
                forall|k: int|
                    0 <= k < i ==> #[trigger] self.attributes()[k] == layout::restored(
                        a,
                        src.attributes(),
                    )[k],
                forall|k: int|
                    0 <= k < i ==> #[trigger] layout::region(self.bytes(), k)
                        == layout::restored_region(a[k], src.attributes()),
                forall|k: int| i <= k < count ==> #[trigger] self.attributes()[k] == a[k],
            decreases count - i,
        {
            let ghost before = self.bytes();
            assert(self.attributes()[i as int] == a[i as int]);
            let key: u16 = self.view().entry(i).key();
            match src.get(key) {
                Some(v) => self.set_value(i, v),
                None => self.zero_value(i),
            }
            proof {
                layout::lemma_same_places(b, before, i as int);
                layout::lemma_valid_storage(before, self.bytes());
                assert forall|j: int|
                    0 <= j < b.len() && (forall|k: int|
                        !layout::in_region(b, k, j)) implies #[trigger] self.bytes()[j] == b[j] by {
                    assert(!layout::in_region(b, i as int, j));
                    assert(before[j] == b[j]);
                }
            }
            i = i + 1;
        }
        proof {
            assert(self.attributes() =~= layout::restored(a, src.attributes()));
            layout::lemma_restored_bytes(b, self.bytes(), src.attributes());
        }
    }

    /// Zeros all values in the map, leaving the index structure intact.
    pub fn clear(&mut self)
        requires
            old(self).wf(),
        ensures
            final(self).wf(),
            final(self).bytes() == layout::cleared_bytes(old(self).bytes()),
            final(self).attributes() == layout::cleared(old(self).attributes()),
    {
        let header = self.header();
        bytes::fill_zero(&mut self.buf, header.values_base(), header.values_end());
        proof {
            layout::lemma_cleared(old(self).bytes());
            layout::lemma_valid_storage(old(self).bytes(), self.bytes());
        }
    }

    /// Returns the raw byte representation of the map, suitable for serialization or storage.
    pub fn raw(&self) -> (r: &[u8])
        requires
            self.wf(),
        ensures
            r@ == self.bytes().take(layout::values_end(self.bytes())),
    {
        self.view().raw()
    }
}

} // verus!
