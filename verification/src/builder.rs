//! How tables are made.

use vstd::prelude::*;

use crate::bytes;
use crate::config::CLIENT_ATT_TABLE_SIZE;
use crate::entry::Entry;
use crate::layout;
use crate::layout::{Attribute, ENTRY_SIZE, HEADER_SIZE, MAX_VALUE_LEN, VARIABLE_LEN_FLAG};
use crate::table::ClientAttTable;

verus! {

/// Bytes that an attribute takes among the values.
pub open spec fn width(a: Attribute) -> int {
    layout::length_size(a.variable) + a.capacity
}

/// Bytes that the values of the given attributes take.
pub open spec fn total_width(s: Seq<Attribute>) -> int
    decreases s.len(),
{
    if s.len() == 0 {
        0
    } else {
        total_width(s.drop_last()) + width(s.last())
    }
}

/// Bytes that a table with the given attributes takes.
pub open spec fn needed_size(s: Seq<Attribute>) -> int {
    HEADER_SIZE + ENTRY_SIZE * s.len() + total_width(s)
}

/// The first word of the entry for an attribute.
pub open spec fn index_word(a: Attribute) -> int {
    if a.variable {
        a.key + VARIABLE_LEN_FLAG
    } else {
        a.key
    }
}

/// Attributes that a table can be made of: in ascending key order, with keys and capacities in range,
/// and without values.
pub open spec fn buildable(s: Seq<Attribute>) -> bool {
    &&& forall|i: int|
        0 <= i < s.len() ==> {
            &&& 0 < (#[trigger] s[i]).key < VARIABLE_LEN_FLAG
            &&& 0 <= s[i].capacity <= MAX_VALUE_LEN
            &&& s[i] == layout::blank(s[i].key, s[i].variable, s[i].capacity)
        }
    &&& forall|i: int, j: int|
        0 <= i < j < s.len() ==> (#[trigger] s[i]).key < (#[trigger] s[j]).key
}

/// The header of `b` announces the given attributes.
pub open spec fn announced(b: Seq<u8>, s: Seq<Attribute>) -> bool {
    &&& layout::att_count(b) == s.len()
    &&& layout::values_len(b) == total_width(s)
}

/// `b` holds an index of the given attributes, one right after the other, and zeros after it.
pub open spec fn indexed(b: Seq<u8>, s: Seq<Attribute>) -> bool {
    &&& forall|i: int|
        0 <= i < s.len() ==> #[trigger] layout::entry_word(b, i) == index_word(s[i])
    &&& forall|i: int|
        0 <= i < s.len() ==> #[trigger] layout::entry_offset(b, i) == total_width(s.take(i))
    &&& forall|j: int|
        HEADER_SIZE + ENTRY_SIZE * s.len() <= j < b.len() ==> #[trigger] b[j] == 0
}

/// One more attribute adds its width.
proof fn lemma_total_width_step(s: Seq<Attribute>, i: int)
    requires
        0 <= i < s.len(),
    ensures
        total_width(s.take(i + 1)) == total_width(s.take(i)) + width(s[i]),
{
    assert(s.take(i + 1).drop_last() =~= s.take(i));
}

/// More attributes take more bytes.
proof fn lemma_total_width_monotonic(s: Seq<Attribute>, i: int, j: int)
    requires
        buildable(s),
        0 <= i <= j <= s.len(),
    ensures
        total_width(s.take(i)) <= total_width(s.take(j)),
    decreases j - i,
{
    if i < j {
        lemma_total_width_monotonic(s, i, j - 1);
        lemma_total_width_step(s, j - 1);
    }
}

/// The first attributes take no more bytes than all.
pub(crate) proof fn lemma_total_width_bound(s: Seq<Attribute>, n: int)
    requires
        buildable(s),
        0 <= n <= s.len(),
    ensures
        total_width(s.take(n)) <= total_width(s),
{
    assert(s.take(s.len() as int) =~= s);
    lemma_total_width_monotonic(s, n, s.len() as int);
}

/// Ascending keys grow at least as fast as their positions.
pub(crate) proof fn lemma_key_after_position(s: Seq<Attribute>, i: int)
    requires
        buildable(s),
        0 <= i < s.len(),
    ensures
        i < s[i].key,
    decreases i,
{
    if i > 0 {
        lemma_key_after_position(s, i - 1);
        assert(s[i - 1].key < s[i].key);
    }
}

/// An entry of the index and zeros in its place among the values are a blank attribute.
proof fn lemma_indexed_attribute(b: Seq<u8>, s: Seq<Attribute>, i: int)
    requires
        buildable(s),
        announced(b, s),
        indexed(b, s),
        needed_size(s) <= b.len(),
        0 <= i < s.len(),
    ensures
        layout::entry_key(b, i) == s[i].key,
        0 <= layout::entry_offset(b, i) <= total_width(s),
        layout::value_start(b, i) <= layout::value_end(b, i),
        layout::value_capacity(b, i) == s[i].capacity,
        layout::value_len(b, i) <= layout::value_capacity(b, i),
        layout::attribute(b, i) == s[i],
{
    let n = s.len() as int;
    assert(s.take(n) =~= s);
    assert(s.take(0) =~= Seq::<Attribute>::empty());
    assert(layout::entry_word(b, i) == index_word(s[i]));
    assert(layout::entry_offset(b, i) == total_width(s.take(i)));
    lemma_total_width_step(s, i);
    lemma_total_width_monotonic(s, 0, i);
    lemma_total_width_monotonic(s, i, n);
    lemma_total_width_monotonic(s, i + 1, n);
    if i + 1 < n {
        assert(layout::entry_offset(b, i + 1) == total_width(s.take(i + 1)));
    }
    assert(layout::value_capacity(b, i) == s[i].capacity);
    let r = layout::region(b, i);
    assert(r =~= layout::stored_region(s[i].variable, s[i].capacity, Seq::empty()));
    layout::lemma_stored(b, i, Seq::empty());
}

/// An index of attributes and zeros after it are a table of those attributes.
pub(crate) proof fn lemma_indexed(b: Seq<u8>, s: Seq<Attribute>)
    requires
        buildable(s),
        announced(b, s),
        indexed(b, s),
        needed_size(s) <= b.len(),
        b.len() == CLIENT_ATT_TABLE_SIZE,
    ensures
        layout::valid_storage(b),
        layout::attributes(b) == s,
{
    let n = s.len() as int;
    assert(s.take(0) =~= Seq::<Attribute>::empty());
    assert forall|i: int| 0 <= i < n implies #[trigger] layout::entry_key(b, i) == s[i].key by {
        lemma_indexed_attribute(b, s, i);
    }
    assert forall|i: int, j: int| 0 <= i < j < n implies #[trigger] layout::entry_offset(b, i)
        <= #[trigger] layout::entry_offset(b, j) by {
        lemma_total_width_monotonic(s, i, j);
    }
    assert forall|i: int| 0 <= i < n implies #[trigger] layout::entry_offset(b, i)
        <= layout::values_len(b) by {
        lemma_indexed_attribute(b, s, i);
    }
    assert forall|i: int| 0 <= i < n implies layout::value_start(b, i)
        <= #[trigger] layout::value_end(b, i) by {
        lemma_indexed_attribute(b, s, i);
    }
    assert forall|i: int| 0 <= i < n implies #[trigger] layout::value_len(b, i)
        <= layout::value_capacity(b, i) by {
        lemma_indexed_attribute(b, s, i);
    }
    assert forall|i: int| 0 <= i < n implies #[trigger] layout::value_capacity(b, i)
        <= MAX_VALUE_LEN by {
        lemma_indexed_attribute(b, s, i);
    }
    if n > 0 {
        assert(layout::entry_offset(b, 0) == total_width(s.take(0)));
    }
    assert forall|i: int| 0 <= i < n implies #[trigger] layout::attributes(b)[i] == s[i] by {
        lemma_indexed_attribute(b, s, i);
    }
    assert(layout::attributes(b) =~= s);
}

/// An entry more makes an index of one attribute more.
proof fn lemma_pushed(b: Seq<u8>, c: Seq<u8>, s: Seq<Attribute>, a: Attribute)
    requires
        indexed(b, s),
        c.len() == b.len(),
        HEADER_SIZE + ENTRY_SIZE * (s.len() + 1) <= b.len(),
        layout::entry_word(c, s.len() as int) == index_word(a),
        layout::entry_offset(c, s.len() as int) == total_width(s),
        forall|j: int|
            HEADER_SIZE <= j < b.len() && !(HEADER_SIZE + ENTRY_SIZE * s.len() <= j < HEADER_SIZE
                + ENTRY_SIZE * (s.len() + 1)) ==> #[trigger] c[j] == b[j],
    ensures
        indexed(c, s.push(a)),
{
    let t = s.push(a);
    let n = s.len() as int;
    assert(t.take(n) =~= s);
    assert forall|i: int| 0 <= i < t.len() implies #[trigger] layout::entry_word(c, i)
        == index_word(t[i]) by {
        if i < n {
            assert(layout::entry_word(b, i) == index_word(s[i]));
        }
    }
    assert forall|i: int| 0 <= i < t.len() implies #[trigger] layout::entry_offset(c, i)
        == total_width(t.take(i)) by {
        if i < n {
            assert(layout::entry_offset(b, i) == total_width(s.take(i)));
            assert(t.take(i) =~= s.take(i));
        }
    }
}

/// A builder for [`ClientAttTable`].
///
/// Entries must be pushed in ascending key order. Use [`build()`](Self::build) to finalize.
pub struct ClientAttTableBuilder {
    buf: [u8; CLIENT_ATT_TABLE_SIZE],
    values_len: u16,
    pushed: Ghost<Seq<Attribute>>,
}

impl ClientAttTable {
    /// Creates a new [`ClientAttTableBuilder`] for constructing a `ClientAttTable`.
    pub fn builder() -> (r: ClientAttTableBuilder)
        ensures
            r.wf(),
            r.attributes() == Seq::<Attribute>::empty(),
    {
        assert(HEADER_SIZE <= CLIENT_ATT_TABLE_SIZE <= u16::MAX);
        ClientAttTableBuilder {
            buf: [0; CLIENT_ATT_TABLE_SIZE],
            values_len: 0,
            pushed: Ghost(Seq::empty()),
        }
    }
}

impl Clone for ClientAttTableBuilder {
    fn clone(&self) -> (r: Self)
        ensures
            r == *self,
    {
        Self { buf: self.buf, values_len: self.values_len, pushed: Ghost(self.pushed@) }
    }
}

impl ClientAttTableBuilder {
    /// The attributes that were pushed, without values.
    pub closed spec fn attributes(&self) -> Seq<Attribute> {
        self.pushed@
    }

    /// The header announces what was pushed, and the index lists it as long as there is room.
    pub closed spec fn wf(&self) -> bool {
        let s = self.pushed@;
        &&& buildable(s)
        &&& announced(self.buf@, s)
        &&& self.values_len == total_width(s)
        &&& needed_size(s) <= CLIENT_ATT_TABLE_SIZE ==> indexed(self.buf@, s)
    }

    /// Adds an entry with the given attribute handle and value size.
    ///
    /// The key must be greater than the previously pushed keys. More can be pushed than a table can
    /// hold; such a builder cannot be built, but [`needed()`](Self::needed) still tells the size.
    pub fn push(&mut self, key: u16, value_len: u16, variable_len: bool)
        requires
            old(self).wf(),
            value_len <= MAX_VALUE_LEN,
            0 < key < VARIABLE_LEN_FLAG,
            old(self).attributes().len() > 0 ==> old(self).attributes().last().key < key,
            total_width(old(self).attributes()) + layout::length_size(variable_len) + value_len
                <= u16::MAX,
        ensures
            final(self).wf(),
            final(self).attributes() == old(self).attributes().push(
                layout::blank(key as int, variable_len, value_len as int),
            ),
    {
        let ghost s = self.pushed@;
        let ghost a = layout::blank(key as int, variable_len, value_len as int);
        let ghost t = s.push(a);
        proof {
            if s.len() > 0 {
                lemma_key_after_position(s, s.len() - 1);
            }
            assert(t.drop_last() =~= s);
            assert(t.last() == a);
        }
        let old_att_count: usize = self.att_count();
        self.set_att_count(old_att_count + 1);
        let offset: u16 = self.values_len;
        let width: u16 = if variable_len {
            value_len + 2
        } else {
            value_len
        };
        self.values_len = self.values_len + width;
        self.set_values_len(self.values_len);
        // If we overflow, just keep tracking the total needed size
        if self.end() <= CLIENT_ATT_TABLE_SIZE {
            let mut entry = Entry([0, 0, 0, 0]);
            entry.set(key, offset, variable_len);
            self.set_entry(old_att_count, entry);
            proof {
                let n = s.len() as int;
                let at = HEADER_SIZE + ENTRY_SIZE * n;
                assert(self.buf@[at] == entry.0@[0]);
                assert(self.buf@[at + 1] == entry.0@[1]);
                assert(self.buf@[at + 2] == entry.0@[2]);
                assert(self.buf@[at + 3] == entry.0@[3]);
                lemma_pushed(old(self).buf@, self.buf@, s, a);
            }
        }
        assert(announced(self.buf@, t));
        self.pushed = Ghost(t);
    }

    /// Consumes the builder and returns the completed [`ClientAttTable`].
    pub fn build(self) -> (r: ClientAttTable)
        requires
            self.wf(),
            needed_size(self.attributes()) <= CLIENT_ATT_TABLE_SIZE,
        ensures
            r.wf(),
            r.attributes() == self.attributes(),
            buildable(self.attributes()),
            announced(r.bytes(), self.attributes()),
            indexed(r.bytes(), self.attributes()),
    {
        proof {
            lemma_indexed(self.buf@, self.pushed@);
        }
        ClientAttTable::over(self.buf)
    }

    /// Bytes that a table of what was pushed takes, which may be more than there are.
    pub fn needed(&self) -> (r: usize)
        requires
            self.wf(),
        ensures
            r == needed_size(self.attributes()),
    {
        self.end()
    }

    fn att_count(&self) -> (r: usize)
        ensures
            r == layout::att_count(self.buf@),
    {
        bytes::u16_from_le(self.buf[0], self.buf[1]) as usize
    }

    fn set_att_count(&mut self, len: usize)
        requires
            len <= u16::MAX,
        ensures
            final(self).buf@ == bytes::splice(old(self).buf@, 0, bytes::le16_bytes(len as int)),
            final(self).values_len == old(self).values_len,
            final(self).pushed == old(self).pushed,
    {
        bytes::copy_into(&mut self.buf, 0, &bytes::u16_to_le(len as u16));
    }

    fn set_values_len(&mut self, len: u16)
        ensures
            final(self).buf@ == bytes::splice(old(self).buf@, 2, bytes::le16_bytes(len as int)),
            final(self).values_len == old(self).values_len,
            final(self).pushed == old(self).pushed,
    {
        bytes::copy_into(&mut self.buf, 2, &bytes::u16_to_le(len));
    }

    /// Overwrites entry `i` of the index.
    fn set_entry(&mut self, i: usize, entry: Entry)
        requires
            HEADER_SIZE + ENTRY_SIZE * (i + 1) <= CLIENT_ATT_TABLE_SIZE,
        ensures
            final(self).buf@ == bytes::splice(
                old(self).buf@,
                HEADER_SIZE + ENTRY_SIZE * i,
                entry.0@,
            ),
            final(self).values_len == old(self).values_len,
            final(self).pushed == old(self).pushed,
    {
        bytes::copy_into(&mut self.buf, HEADER_SIZE + ENTRY_SIZE * i, &entry.0);
    }

    fn values_base(&self) -> (r: usize)
        ensures
            r == layout::values_base(self.buf@),
    {
        HEADER_SIZE + self.att_count() * ENTRY_SIZE
    }

    fn end(&self) -> (r: usize)
        ensures
            r == layout::values_base(self.buf@) + self.values_len,
    {
        self.values_base() + self.values_len as usize
    }
}

} // verus!
