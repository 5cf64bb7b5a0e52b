//! Read-only access to a serialized table.

use vstd::prelude::*;

use crate::bytes::u16_from_le;
use crate::entry::{Entry, Header};
use crate::error::Error;
use crate::layout;
use crate::layout::{Attribute, ENTRY_SIZE, HEADER_SIZE, VARIABLE_LEN_FLAG};

verus! {

/// A read-only view over a serialized [`ClientAttTable`](crate::table::ClientAttTable).
///
/// The view borrows the raw table format directly; see [`layout`](crate::layout). The borrowed bytes
/// may come from arbitrary storage. Use [`try_from_raw()`](Self::try_from_raw) to validate the buffer
/// before reading values.
#[derive(Clone, Copy, Debug)]
pub struct ClientAttTableView<'a> {
    buf: &'a [u8],
}

impl<'a> ClientAttTableView<'a> {
    /// The bytes that the view looks at.
    pub closed spec fn bytes(&self) -> Seq<u8> {
        self.buf@
    }

    /// The view looks at a table.
    pub open spec fn wf(&self) -> bool {
        layout::valid_table(self.bytes())
    }

    /// The attributes of the table.
    pub open spec fn attributes(&self) -> Seq<Attribute> {
        layout::attributes(self.bytes())
    }

    /// The header, the index and the values lie within the bytes.
    pub(crate) open spec fn in_bounds(&self) -> bool {
        &&& HEADER_SIZE <= self.bytes().len()
        &&& layout::values_end(self.bytes()) <= self.bytes().len()
    }

    /// A view over bytes that are known to start with a table.
    pub(crate) fn over(buf: &'a [u8]) -> (r: Self)
        ensures
            r.bytes() == buf@,
    {
        Self { buf }
    }

    /// Constructs a `ClientAttTableView` from raw serialized table bytes.
    ///
    /// The bytes are typically obtained from
    /// [`ClientAttTable::raw()`](crate::table::ClientAttTable::raw), but may also come from persistent
    /// storage or another byte buffer. Returns an error if the slice is too short, the index is
    /// malformed, or any value length is outside its encoded capacity. Bytes after the values are
    /// ignored.
    pub fn try_from_raw(data: &'a [u8]) -> (r: Result<Self, Error>)
        ensures
            r is Ok <==> layout::valid_table(data@),
            r matches Ok(v) ==> v.wf() && v.bytes() == data@,
            r matches Err(e) ==> e == Error::InvalidValue,
    {
        if data.len() < HEADER_SIZE {
            return Err(Error::InvalidValue);
        }
        let map = Self { buf: data };
        if map.header().values_end() > data.len() {
            return Err(Error::InvalidValue);
        }
        // Validate the index
        let count: usize = map.header().att_count();
        let mut last_key: u16 = 0;
        let mut last_offset: usize = 0;
        let mut i: usize = 0;
        while i < count
            invariant
                map.bytes() == data@,
                map.in_bounds(),
                count == layout::att_count(data@),
                i <= count,
                i == 0 ==> last_key == 0 && last_offset == 0,
                i > 0 ==> last_key == layout::entry_key(data@, i - 1) && last_offset
                    == layout::entry_offset(data@, i - 1),
                forall|k: int| 0 <= k < i ==> 0 < #[trigger] layout::entry_key(data@, k) <= last_key,
                forall|k: int| 0 <= k < i ==> #[trigger] layout::entry_offset(data@, k) <= last_offset,
                forall|k: int, l: int|
                    0 <= k < l < i ==> #[trigger] layout::entry_key(data@, k)
                        < #[trigger] layout::entry_key(data@, l),
                forall|k: int, l: int|
                    0 <= k < l < i ==> #[trigger] layout::entry_offset(data@, k)
                        <= #[trigger] layout::entry_offset(data@, l),
                forall|k: int|
                    0 <= k < i ==> #[trigger] layout::entry_offset(data@, k) <= layout::values_len(
                        data@,
                    ),
            decreases count - i,
        {
            let e = map.entry(i);
            let key: u16 = e.key();
            let offset: usize = e.offset();
            assert(key == layout::entry_key(data@, i as int));
            assert(offset == layout::entry_offset(data@, i as int));
            if key <= last_key || offset < last_offset || offset > map.header().values_len() {
                assert(!layout::valid_index(data@));
                return Err(Error::InvalidValue);
            }
            last_key = key;
            last_offset = offset;
            i = i + 1;
        }
        assert(layout::valid_index(data@));
        // Validate variable length attributes
        let mut i: usize = 0;
        while i < count
            invariant
                map.bytes() == data@,
                map.in_bounds(),
                layout::valid_index(data@),
                count == layout::att_count(data@),
                i <= count,
                forall|k: int|
                    0 <= k < i ==> layout::value_start(data@, k) <= #[trigger] layout::value_end(
                        data@,
                        k,
                    ),
                forall|k: int|
                    0 <= k < i ==> #[trigger] layout::value_len(data@, k) <= layout::value_capacity(
                        data@,
                        k,
                    ),
            decreases count - i,
        {
            if map.value_end(i) < map.value_start(i) {
                return Err(Error::InvalidValue);
            }
            proof {
                assert(layout::entry_offset(data@, i as int) <= layout::values_len(data@));
                if i + 1 < count {
                    assert(layout::entry_offset(data@, i + 1) <= layout::values_len(data@));
                }
            }
            if map.value_len(i) > map.value_capacity(i) {
                return Err(Error::InvalidValue);
            }
            i = i + 1;
        }
        Ok(map)
    }

    pub(crate) fn header(&self) -> (r: Header)
        requires
            HEADER_SIZE <= self.bytes().len(),
        ensures
            r.0@ == self.bytes().take(HEADER_SIZE as int),
            crate::bytes::le16(r.0@, 0) == layout::att_count(self.bytes()),
            crate::bytes::le16(r.0@, 2) == layout::values_len(self.bytes()),
    {
        let r = Header([self.buf[0], self.buf[1], self.buf[2], self.buf[3]]);
        assert(r.0@ =~= self.bytes().take(HEADER_SIZE as int));
        r
    }

    /// Entry `i` of the index.
    pub(crate) fn entry(&self, i: usize) -> (r: Entry)
        requires
            self.in_bounds(),
            i < layout::att_count(self.bytes()),
        ensures
            crate::bytes::le16(r.0@, 0) == layout::entry_word(self.bytes(), i as int),
            crate::bytes::le16(r.0@, 2) == layout::entry_offset(self.bytes(), i as int),
    {
        let at: usize = HEADER_SIZE + ENTRY_SIZE * i;
        Entry([self.buf[at], self.buf[at + 1], self.buf[at + 2], self.buf[at + 3]])
    }

    pub(crate) fn raw_value_start(&self, i: usize) -> (r: usize)
        requires
            self.in_bounds(),
            i < layout::att_count(self.bytes()),
        ensures
            r == layout::raw_value_start(self.bytes(), i as int),
    {
        let header = self.header();
        let entry = self.entry(i);
        entry.offset() + header.values_base()
    }

    pub(crate) fn value_start(&self, i: usize) -> (r: usize)
        requires
            self.in_bounds(),
            i < layout::att_count(self.bytes()),
        ensures
            r == layout::value_start(self.bytes(), i as int),
    {
        let header = self.header();
        let entry = self.entry(i);
        let start: usize = entry.offset() + header.values_base();
        if entry.is_variable_len() {
            start + 2
        } else {
            start
        }
    }

    pub(crate) fn value_end(&self, i: usize) -> (r: usize)
        requires
            self.in_bounds(),
            i < layout::att_count(self.bytes()),
        ensures
            r == layout::value_end(self.bytes(), i as int),
    {
        let header = self.header();
        let end: usize = if i + 1 < header.att_count() {
            self.entry(i + 1).offset()
        } else {
            header.values_len()
        };
        end + header.values_base()
    }

    pub(crate) fn value_capacity(&self, i: usize) -> (r: usize)
        requires
            self.in_bounds(),
            i < layout::att_count(self.bytes()),
        ensures
            layout::value_capacity(self.bytes(), i as int) >= 0 ==> r == layout::value_capacity(
                self.bytes(),
                i as int,
            ),
            layout::value_capacity(self.bytes(), i as int) < 0 ==> r == 0,
    {
        self.value_end(i).saturating_sub(self.value_start(i))
    }

    pub(crate) fn value_len(&self, i: usize) -> (r: usize)
        requires
            self.in_bounds(),
            i < layout::att_count(self.bytes()),
            layout::value_start(self.bytes(), i as int) <= layout::value_end(self.bytes(), i as int)
                <= self.bytes().len(),
        ensures
            r == layout::value_len(self.bytes(), i as int),
    {
        if self.entry(i).is_variable_len() {
            let start: usize = self.raw_value_start(i);
            u16_from_le(self.buf[start], self.buf[start + 1]) as usize
        } else {
            self.value_capacity(i)
        }
    }

    /// Searches the index for `key`.
    pub(crate) fn find(&self, key: u16) -> (r: Option<usize>)
        requires
            self.wf(),
        ensures
            match r {
                Some(i) => {
                    &&& layout::is_position(self.attributes(), key as int, i as int)
                    &&& layout::position(self.attributes(), key as int) == Some(i as int)
                },
                None => layout::position(self.attributes(), key as int) is None,
            },
    {
        let ghost b = self.bytes();
        let mut lo: usize = 0;
        let mut hi: usize = self.header().att_count();
        while lo < hi
            invariant
                self.wf(),
                b == self.bytes(),
                lo <= hi <= layout::att_count(b) <= u16::MAX,
                forall|k: int| 0 <= k < lo ==> #[trigger] layout::entry_key(b, k) < key,
                forall|k: int|
                    hi <= k < layout::att_count(b) ==> #[trigger] layout::entry_key(b, k) > key,
            decreases hi - lo,
        {
            let mid: usize = lo + (hi - lo) / 2;
            let mid_key: u16 = self.entry(mid).key();
            assert(mid_key == layout::entry_key(b, mid as int));
            if mid_key == key {
                proof {
                    layout::lemma_unique_keys(self.bytes());
                    layout::lemma_position(self.attributes(), key as int, mid as int);
                }
                return Some(mid);
            }
            if mid_key < key {
                lo = mid + 1;
            } else {
                hi = mid;
            }
        }
        proof {
            let a = self.attributes();
            assert forall|i: int| !layout::is_position(a, key as int, i) by {
                if 0 <= i < a.len() {
                    assert(a[i].key == layout::entry_key(b, i));
                }
            }
        }
        None
    }

    /// Returns a reference to the value associated with the given attribute handle, or `None` if not
    /// found.
    pub fn get(&self, key: u16) -> (r: Option<&'a [u8]>)
        requires
            self.wf(),
        ensures
            match r {
                Some(v) => layout::lookup(self.attributes(), key as int) == Some(v@),
                None => layout::lookup(self.attributes(), key as int) is None,
            },
    {
        if key >= VARIABLE_LEN_FLAG {
            proof {
                assert forall|i: int|
                    !layout::is_position(self.attributes(), key as int, i) by {}
            }
            None
        } else {
            match self.find(key) {
                Some(i) => {
                    proof {
                        layout::lemma_places(self.bytes(), i as int);
                    }
                    let start: usize = self.value_start(i);
                    let end: usize = start + self.value_len(i);
                    Some(&self.buf[start..end])
                },
                None => None,
            }
        }
    }

    /// Returns the raw byte representation of the map, suitable for serialization or storage.
    pub fn raw(&self) -> (r: &'a [u8])
        requires
            self.wf(),
        ensures
            r@ == self.bytes().take(layout::values_end(self.bytes())),
    {
        let header = self.header();
        let r = &self.buf[0..header.values_end()];
        assert(r@ =~= self.bytes().take(layout::values_end(self.bytes())));
        r
    }
}

} // verus!
