//! The serialized form of a table, and what it means.
//!
//! A table is a little-endian entry count, a little-endian value byte length, an index of 4-byte
//! entries sorted by key, and the value bytes. An entry is a little-endian word, which holds the key
//! in its low 15 bits and the variable-length flag in the top one, and a little-endian offset into
//! the value bytes. The bytes of an attribute reach from its offset to that of the next one, or to
//! the end of the value bytes. A variable-length attribute starts with the two bytes of its current
//! length.

use vstd::prelude::*;

use crate::bytes::{le16, le16_bytes, same_outside, splice, zeroed, zeros};
use crate::config::CLIENT_ATT_TABLE_SIZE;

verus! {

/// Bytes in the header of a table.
pub const HEADER_SIZE: usize = 4;

/// Bytes in one entry of the index.
pub const ENTRY_SIZE: usize = 4;

/// The bit of an entry's first word that marks a variable-length attribute.
pub const VARIABLE_LEN_FLAG: u16 = 0x8000;

/// The longest value that an attribute can have.
pub const MAX_VALUE_LEN: u16 = 512;

// ---- Positions ----

/// How many attributes the table holds.
pub open spec fn att_count(b: Seq<u8>) -> int {
    le16(b, 0)
}

/// How many bytes the values take.
pub open spec fn values_len(b: Seq<u8>) -> int {
    le16(b, 2)
}

/// Where the values start.
pub open spec fn values_base(b: Seq<u8>) -> int {
    HEADER_SIZE + ENTRY_SIZE * att_count(b)
}

/// Where the values end, and with them the table.
pub open spec fn values_end(b: Seq<u8>) -> int {
    values_base(b) + values_len(b)
}

/// The first word of entry `i`: its key and its flag.
pub open spec fn entry_word(b: Seq<u8>, i: int) -> int {
    le16(b, HEADER_SIZE + ENTRY_SIZE * i)
}

/// The offset in entry `i`.
pub open spec fn entry_offset(b: Seq<u8>, i: int) -> int {
    le16(b, HEADER_SIZE + ENTRY_SIZE * i + 2)
}

/// The key of attribute `i`.
pub open spec fn entry_key(b: Seq<u8>, i: int) -> int {
    entry_word(b, i) % (VARIABLE_LEN_FLAG as int)
}

/// Whether attribute `i` has a variable length.
pub open spec fn entry_variable(b: Seq<u8>, i: int) -> bool {
    entry_word(b, i) >= VARIABLE_LEN_FLAG
}

/// Where the bytes of attribute `i` start, its length included.
pub open spec fn raw_value_start(b: Seq<u8>, i: int) -> int {
    values_base(b) + entry_offset(b, i)
}

/// Bytes that the current length of an attribute takes.
pub open spec fn length_size(variable: bool) -> int {
    if variable {
        2
    } else {
        0
    }
}

/// Where the value of attribute `i` starts.
pub open spec fn value_start(b: Seq<u8>, i: int) -> int {
    raw_value_start(b, i) + length_size(entry_variable(b, i))
}

/// Where the bytes of attribute `i` end.
pub open spec fn value_end(b: Seq<u8>, i: int) -> int {
    values_base(b) + if i + 1 < att_count(b) {
        entry_offset(b, i + 1)
    } else {
        values_len(b)
    }
}

/// How long the value of attribute `i` can be.
pub open spec fn value_capacity(b: Seq<u8>, i: int) -> int {
    value_end(b, i) - value_start(b, i)
}

/// How long the value of attribute `i` is.
pub open spec fn value_len(b: Seq<u8>, i: int) -> int {
    if entry_variable(b, i) {
        le16(b, raw_value_start(b, i))
    } else {
        value_capacity(b, i)
    }
}

/// The value of attribute `i`.
pub open spec fn value(b: Seq<u8>, i: int) -> Seq<u8> {
    b.subrange(value_start(b, i), value_start(b, i) + value_len(b, i))
}

/// The bytes of attribute `i`: its length, if that is variable, its value and the unused rest.
pub open spec fn region(b: Seq<u8>, i: int) -> Seq<u8> {
    b.subrange(raw_value_start(b, i), value_end(b, i))
}

// ---- Meaning ----

/// An attribute as the users of a table see it.
#[verifier::ext_equal]
pub struct Attribute {
    /// The attribute handle.
    pub key: int,
    /// Whether writes can change the length of the value.
    pub variable: bool,
    /// How long the value can be.
    pub capacity: int,
    /// The current value.
    pub value: Seq<u8>,
}

/// Attribute `i` of the table in `b`.
pub open spec fn attribute(b: Seq<u8>, i: int) -> Attribute {
    Attribute {
        key: entry_key(b, i),
        variable: entry_variable(b, i),
        capacity: value_capacity(b, i),
        value: value(b, i),
    }
}

/// The attributes of the table in `b`, in the order of their keys.
pub open spec fn attributes(b: Seq<u8>) -> Seq<Attribute> {
    Seq::new(att_count(b) as nat, |i: int| attribute(b, i))
}

/// The keys, kinds and capacities in the index of `b` describe values that lie within `b`.
pub open spec fn valid_index(b: Seq<u8>) -> bool {
    &&& HEADER_SIZE <= b.len()
    &&& values_end(b) <= b.len()
    &&& forall|i: int| 0 <= i < att_count(b) ==> 0 < #[trigger] entry_key(b, i)
    &&& forall|i: int, j: int|
        0 <= i < j < att_count(b) ==> #[trigger] entry_key(b, i) < #[trigger] entry_key(b, j)
    &&& forall|i: int, j: int|
        0 <= i < j < att_count(b) ==> #[trigger] entry_offset(b, i) <= #[trigger] entry_offset(b, j)
    &&& forall|i: int| 0 <= i < att_count(b) ==> #[trigger] entry_offset(b, i) <= values_len(b)
}

/// `b` starts with a table: its index is sorted and its values lie within `b`.
pub open spec fn valid_table(b: Seq<u8>) -> bool {
    &&& valid_index(b)
    &&& forall|i: int|
        0 <= i < att_count(b) ==> value_start(b, i) <= #[trigger] value_end(b, i)
    &&& forall|i: int|
        0 <= i < att_count(b) ==> #[trigger] value_len(b, i) <= value_capacity(b, i)
}

/// The bytes of the attributes, one after the other, are the values.
pub open spec fn packed(b: Seq<u8>) -> bool {
    if att_count(b) == 0 {
        values_len(b) == 0
    } else {
        entry_offset(b, 0) == 0
    }
}

/// `b` is the storage of a [`ClientAttTable`](crate::table::ClientAttTable): a table without gaps, of
/// attributes that are as long as Bluetooth allows.
pub open spec fn valid_storage(b: Seq<u8>) -> bool {
    &&& b.len() == CLIENT_ATT_TABLE_SIZE
    &&& valid_table(b)
    &&& packed(b)
    &&& forall|i: int| 0 <= i < att_count(b) ==> #[trigger] value_capacity(b, i) <= MAX_VALUE_LEN
}

/// Position `i` of `a` holds the attribute with the given key.
pub open spec fn is_position(a: Seq<Attribute>, key: int, i: int) -> bool {
    0 <= i < a.len() && a[i].key == key
}

/// Where `a` holds the attribute with the given key.
pub open spec fn position(a: Seq<Attribute>, key: int) -> Option<int> {
    if exists|i: int| is_position(a, key, i) {
        Some(choose|i: int| is_position(a, key, i))
    } else {
        None
    }
}

/// The value that `a` holds for the given key.
pub open spec fn lookup(a: Seq<Attribute>, key: int) -> Option<Seq<u8>> {
    match position(a, key) {
        Some(i) => Some(a[i].value),
        None => None,
    }
}

/// The bytes of an attribute that was given the value `v` and nothing else: the unused rest is zero.
pub open spec fn stored_region(variable: bool, capacity: int, v: Seq<u8>) -> Seq<u8> {
    if variable {
        le16_bytes(v.len() as int) + v + zeros(capacity - v.len())
    } else {
        v + zeros(capacity - v.len())
    }
}

/// What reads back of an attribute that was given the value `v` and nothing else.
pub open spec fn stored_value(variable: bool, capacity: int, v: Seq<u8>) -> Seq<u8> {
    if variable {
        v
    } else {
        v + zeros(capacity - v.len())
    }
}

/// As much of `v` as an attribute with the given capacity can hold.
pub open spec fn fitting(v: Seq<u8>, capacity: int) -> Seq<u8> {
    if v.len() <= capacity {
        v
    } else {
        v.take(capacity)
    }
}

/// The value to copy from `src` to an attribute with the given key: nothing, if `src` has no such
/// key.
pub open spec fn source_value(src: Seq<Attribute>, key: int) -> Seq<u8> {
    match lookup(src, key) {
        Some(v) => v,
        None => Seq::empty(),
    }
}

/// An attribute that nothing was written to since it was made or cleared.
pub open spec fn blank(key: int, variable: bool, capacity: int) -> Attribute {
    Attribute { key, variable, capacity, value: stored_value(variable, capacity, Seq::empty()) }
}

/// The attributes of a table after its values were cleared.
pub open spec fn cleared(a: Seq<Attribute>) -> Seq<Attribute> {
    Seq::new(a.len(), |i: int| blank(a[i].key, a[i].variable, a[i].capacity))
}

/// The attributes of a table after the values of `src` were copied to it.
pub open spec fn restored(a: Seq<Attribute>, src: Seq<Attribute>) -> Seq<Attribute> {
    Seq::new(
        a.len(),
        |i: int|
            Attribute {
                value: stored_value(
                    a[i].variable,
                    a[i].capacity,
                    fitting(source_value(src, a[i].key), a[i].capacity),
                ),
                ..a[i]
            },
    )
}

/// The bytes of an attribute after the values of `src` were copied to its table.
pub open spec fn restored_region(a: Attribute, src: Seq<Attribute>) -> Seq<u8> {
    stored_region(a.variable, a.capacity, fitting(source_value(src, a.key), a.capacity))
}

/// The value of an attribute after `data` was written to it at `offset`. A variable-length value ends
/// where `data` ends; a fixed-length one keeps what follows.
pub open spec fn written_value(a: Attribute, offset: int, data: Seq<u8>) -> Seq<u8> {
    if a.variable {
        a.value.take(offset) + data
    } else {
        a.value.take(offset) + data + a.value.skip(offset + data.len())
    }
}

/// The attributes of a table after `data` was written to attribute `i` at `offset`.
pub open spec fn written(a: Seq<Attribute>, i: int, offset: int, data: Seq<u8>) -> Seq<Attribute> {
    a.update(i, Attribute { value: written_value(a[i], offset, data), ..a[i] })
}

/// No two attributes of `a` have the same key.
pub open spec fn unique_keys(a: Seq<Attribute>) -> bool {
    forall|i: int, j: int|
        0 <= i < a.len() && 0 <= j < a.len() && #[trigger] a[i].key == #[trigger] a[j].key ==> i
            == j
}

/// Where keys are unique, a key is found where it stands.
pub(crate) proof fn lemma_position(a: Seq<Attribute>, key: int, i: int)
    requires
        unique_keys(a),
        is_position(a, key, i),
    ensures
        position(a, key) == Some(i),
        lookup(a, key) == Some(a[i].value),
{
    let k = choose|k: int| is_position(a, key, k);
    assert(is_position(a, key, k));
    assert(a[k].key == a[i].key);
}

/// The keys of a table are unique.
pub(crate) proof fn lemma_unique_keys(b: Seq<u8>)
    requires
        valid_table(b),
    ensures
        unique_keys(attributes(b)),
{
    let a = attributes(b);
    assert forall|i: int, j: int|
        0 <= i < a.len() && 0 <= j < a.len() && #[trigger] a[i].key == #[trigger] a[j].key implies i
        == j by {
        assert(a[i].key == entry_key(b, i));
        assert(a[j].key == entry_key(b, j));
    }
}

/// The table in `b` after `data` was written to attribute `i` at `offset`.
pub open spec fn written_bytes(b: Seq<u8>, i: int, offset: int, data: Seq<u8>) -> Seq<u8> {
    let c = splice(b, value_start(b, i) + offset, data);
    if entry_variable(b, i) {
        splice(c, raw_value_start(b, i), le16_bytes(offset + data.len()))
    } else {
        c
    }
}

/// The table in `b` after its values were cleared.
pub open spec fn cleared_bytes(b: Seq<u8>) -> Seq<u8> {
    zeroed(b, values_base(b), values_end(b))
}

/// Byte `j` of `b` belongs to attribute `i`.
pub open spec fn in_region(b: Seq<u8>, i: int, j: int) -> bool {
    0 <= i < att_count(b) && raw_value_start(b, i) <= j < value_end(b, i)
}

/// The table in `b` after the values of `src` were copied to it.
pub open spec fn restored_bytes(b: Seq<u8>, src: Seq<Attribute>) -> Seq<u8> {
    Seq::new(
        b.len(),
        |j: int|
            if exists|i: int| in_region(b, i, j) {
                let i = choose|i: int| in_region(b, i, j);
                restored_region(attribute(b, i), src)[j - raw_value_start(b, i)]
            } else {
                b[j]
            },
    )
}

// ---- What depends on which bytes ----

/// `a` and `b` have the same header and the same index.
pub open spec fn same_index(a: Seq<u8>, b: Seq<u8>) -> bool {
    &&& att_count(a) == att_count(b)
    &&& values_len(a) == values_len(b)
    &&& forall|i: int|
        0 <= i < att_count(a) ==> #[trigger] entry_word(b, i) == entry_word(a, i)
    &&& forall|i: int|
        0 <= i < att_count(a) ==> #[trigger] entry_offset(b, i) == entry_offset(a, i)
}

/// The header and the index depend on the bytes before the values alone.
pub(crate) proof fn lemma_same_index(a: Seq<u8>, b: Seq<u8>)
    requires
        HEADER_SIZE <= values_base(a) <= a.len(),
        values_base(a) <= b.len(),
        forall|j: int| 0 <= j < values_base(a) ==> #[trigger] b[j] == a[j],
    ensures
        same_index(a, b),
{
}

/// With the same index, attributes lie at the same places.
pub(crate) proof fn lemma_same_places(a: Seq<u8>, b: Seq<u8>, i: int)
    requires
        same_index(a, b),
        0 <= i < att_count(a),
    ensures
        entry_key(b, i) == entry_key(a, i),
        entry_variable(b, i) == entry_variable(a, i),
        raw_value_start(b, i) == raw_value_start(a, i),
        value_start(b, i) == value_start(a, i),
        value_end(b, i) == value_end(a, i),
        value_capacity(b, i) == value_capacity(a, i),
{
    assert(entry_word(b, i) == entry_word(a, i));
    assert(entry_offset(b, i) == entry_offset(a, i));
    if i + 1 < att_count(a) {
        assert(entry_offset(b, i + 1) == entry_offset(a, i + 1));
    }
}

/// The bytes of an attribute lie among the values.
pub(crate) proof fn lemma_places(b: Seq<u8>, i: int)
    requires
        valid_table(b),
        0 <= i < att_count(b),
    ensures
        0 < entry_key(b, i) < VARIABLE_LEN_FLAG,
        HEADER_SIZE <= values_base(b) <= raw_value_start(b, i) <= value_start(b, i) <= value_end(b, i)
            <= values_end(b) <= b.len(),
        0 <= value_len(b, i) <= value_capacity(b, i) <= u16::MAX,
        values_base(b) + entry_offset(b, i) <= values_end(b),
{
    assert(entry_offset(b, i) <= values_len(b));
    assert(value_start(b, i) <= value_end(b, i));
    assert(value_len(b, i) <= value_capacity(b, i));
    if i + 1 < att_count(b) {
        assert(entry_offset(b, i + 1) <= values_len(b));
    }
}

/// The bytes of different attributes do not overlap.
pub(crate) proof fn lemma_disjoint(b: Seq<u8>, i: int, j: int)
    requires
        valid_table(b),
        0 <= i < j < att_count(b),
    ensures
        value_end(b, i) <= raw_value_start(b, j),
{
    assert(entry_offset(b, i + 1) <= entry_offset(b, j));
}

/// An attribute depends on the index and on its own bytes alone.
pub(crate) proof fn lemma_same_attribute(a: Seq<u8>, b: Seq<u8>, i: int)
    requires
        valid_table(a),
        same_index(a, b),
        values_end(a) <= b.len(),
        0 <= i < att_count(a),
        forall|j: int|
            raw_value_start(a, i) <= j < value_end(a, i) ==> #[trigger] b[j] == a[j],
    ensures
        value_len(b, i) == value_len(a, i),
        attribute(b, i) == attribute(a, i),
        region(b, i) == region(a, i),
{
    lemma_places(a, i);
    lemma_same_places(a, b, i);
    assert(value_len(b, i) == value_len(a, i));
    assert(value(b, i) =~= value(a, i));
    assert(region(b, i) =~= region(a, i));
}

/// A table that differs from a valid one in the values only is valid, if its lengths are.
pub(crate) proof fn lemma_valid_values(a: Seq<u8>, b: Seq<u8>)
    requires
        valid_table(a),
        same_index(a, b),
        values_end(a) <= b.len(),
        forall|i: int| 0 <= i < att_count(a) ==> #[trigger] value_len(b, i) <= value_capacity(a, i),
    ensures
        valid_table(b),
{
    assert forall|i: int| 0 <= i < att_count(b) implies 0 < #[trigger] entry_key(b, i) by {
        lemma_same_places(a, b, i);
        assert(0 < entry_key(a, i));
    }
    assert forall|i: int, j: int| 0 <= i < j < att_count(b) implies #[trigger] entry_key(b, i)
        < #[trigger] entry_key(b, j) by {
        lemma_same_places(a, b, i);
        lemma_same_places(a, b, j);
        assert(entry_key(a, i) < entry_key(a, j));
    }
    assert forall|i: int, j: int| 0 <= i < j < att_count(b) implies #[trigger] entry_offset(b, i)
        <= #[trigger] entry_offset(b, j) by {
        assert(entry_offset(a, i) <= entry_offset(a, j));
    }
    assert forall|i: int| 0 <= i < att_count(b) implies #[trigger] entry_offset(b, i)
        <= values_len(b) by {
        assert(entry_offset(a, i) <= values_len(a));
    }
    assert forall|i: int| 0 <= i < att_count(b) implies value_start(b, i) <= #[trigger] value_end(
        b,
        i,
    ) by {
        lemma_same_places(a, b, i);
        assert(value_start(a, i) <= value_end(a, i));
    }
    assert forall|i: int| 0 <= i < att_count(b) implies #[trigger] value_len(b, i)
        <= value_capacity(b, i) by {
        lemma_same_places(a, b, i);
    }
}

/// Changing the bytes of one attribute changes that attribute's value and nothing else.
pub(crate) proof fn lemma_changed_attribute(a: Seq<u8>, b: Seq<u8>, i: int)
    requires
        valid_table(a),
        0 <= i < att_count(a),
        same_outside(a, b, raw_value_start(a, i), value_end(a, i)),
        value_len(b, i) <= value_capacity(a, i),
    ensures
        valid_table(b),
        same_index(a, b),
        attributes(b) == attributes(a).update(
            i,
            Attribute { value: value(b, i), ..attributes(a)[i] },
        ),
        forall|k: int| 0 <= k < att_count(a) && k != i ==> #[trigger] region(b, k) == region(a, k),
{
    lemma_places(a, i);
    lemma_same_index(a, b);
    assert forall|k: int| 0 <= k < att_count(a) && k != i implies value_len(b, k) == value_len(a, k)
        && attribute(b, k) == attribute(a, k) && #[trigger] region(b, k) == region(a, k) by {
        lemma_places(a, k);
        if k < i {
            lemma_disjoint(a, k, i);
        } else {
            lemma_disjoint(a, i, k);
        }
        lemma_same_attribute(a, b, k);
    }
    assert forall|k: int| 0 <= k < att_count(a) implies #[trigger] value_len(b, k)
        <= value_capacity(a, k) by {
        if k != i {
            assert(region(b, k) == region(a, k));
            assert(value_len(a, k) <= value_capacity(a, k));
        }
    }
    lemma_valid_values(a, b);
    lemma_same_places(a, b, i);
    assert forall|k: int| 0 <= k < att_count(a) implies #[trigger] attributes(b)[k] == attributes(
        a,
    ).update(i, Attribute { value: value(b, i), ..attributes(a)[i] })[k] by {
        if k != i {
            assert(region(b, k) == region(a, k));
        }
    }
    assert(attributes(b) =~= attributes(a).update(
        i,
        Attribute { value: value(b, i), ..attributes(a)[i] },
    ));
}

/// What an attribute reads back as, given its bytes.
pub(crate) proof fn lemma_stored(b: Seq<u8>, i: int, v: Seq<u8>)
    requires
        0 <= i < att_count(b),
        values_base(b) <= raw_value_start(b, i) <= value_start(b, i) <= value_end(b, i) <= b.len(),
        v.len() <= value_capacity(b, i) <= u16::MAX,
        region(b, i) == stored_region(entry_variable(b, i), value_capacity(b, i), v),
    ensures
        value_len(b, i) <= value_capacity(b, i),
        value(b, i) == stored_value(entry_variable(b, i), value_capacity(b, i), v),
{
    let r = region(b, i);
    let start = raw_value_start(b, i);
    assert forall|j: int| 0 <= j < r.len() implies #[trigger] b[start + j] == r[j] by {}
    if entry_variable(b, i) {
        assert(r[0] == le16_bytes(v.len() as int)[0]);
        assert(r[1] == le16_bytes(v.len() as int)[1]);
        assert(b[start + 0] == r[0]);
        assert(b[start + 1] == r[1]);
        assert(value_len(b, i) == v.len());
        assert forall|j: int| 0 <= j < v.len() implies #[trigger] value(b, i)[j] == v[j] by {
            assert(b[start + (j + 2)] == r[j + 2]);
        }
        assert(value(b, i) =~= v);
    } else {
        assert(value(b, i) =~= r);
    }
}

/// Storage stays storage while its index stays the same.
pub(crate) proof fn lemma_valid_storage(a: Seq<u8>, b: Seq<u8>)
    requires
        valid_storage(a),
        valid_table(b),
        same_index(a, b),
        a.len() == b.len(),
    ensures
        valid_storage(b),
{
    if att_count(b) > 0 {
        assert(entry_offset(b, 0) == entry_offset(a, 0));
    }
    assert forall|i: int| 0 <= i < att_count(b) implies #[trigger] value_capacity(b, i)
        <= MAX_VALUE_LEN by {
        lemma_same_places(a, b, i);
        assert(value_capacity(a, i) <= MAX_VALUE_LEN);
    }
}

/// A write changes the value that it is meant for and nothing else.
pub(crate) proof fn lemma_written(b: Seq<u8>, i: int, offset: int, data: Seq<u8>)
    requires
        valid_table(b),
        0 <= i < att_count(b),
        0 <= offset <= value_len(b, i),
        offset + data.len() <= value_capacity(b, i),
    ensures
        valid_table(written_bytes(b, i, offset, data)),
        same_index(b, written_bytes(b, i, offset, data)),
        attributes(written_bytes(b, i, offset, data)) == written(attributes(b), i, offset, data),
{
    let c = written_bytes(b, i, offset, data);
    let start = value_start(b, i);
    lemma_places(b, i);
    lemma_same_index(b, c);
    lemma_same_places(b, c, i);
    if entry_variable(b, i) {
        assert(c[raw_value_start(b, i)] == le16_bytes(offset + data.len())[0]);
        assert(c[raw_value_start(b, i) + 1] == le16_bytes(offset + data.len())[1]);
        assert(value_len(c, i) == offset + data.len());
    }
    lemma_changed_attribute(b, c, i);
    assert(value(c, i) =~= written_value(attribute(b, i), offset, data));
}

/// `b` is `a` after attribute `i` was given the value `v`, cut to its capacity.
pub open spec fn value_set(a: Seq<u8>, b: Seq<u8>, i: int, v: Seq<u8>) -> bool {
    let fit = fitting(v, value_capacity(a, i));
    &&& valid_table(b)
    &&& same_index(a, b)
    &&& same_outside(a, b, raw_value_start(a, i), value_end(a, i))
    &&& attributes(b) == attributes(a).update(
        i,
        Attribute {
            value: stored_value(entry_variable(a, i), value_capacity(a, i), fit),
            ..attributes(a)[i]
        },
    )
    &&& region(b, i) == stored_region(entry_variable(a, i), value_capacity(a, i), fit)
    &&& forall|k: int| 0 <= k < att_count(a) && k != i ==> #[trigger] region(b, k) == region(a, k)
}

/// Giving an attribute a value changes that attribute's value and nothing else.
pub(crate) proof fn lemma_filled(a: Seq<u8>, b: Seq<u8>, i: int, v: Seq<u8>)
    requires
        valid_table(a),
        0 <= i < att_count(a),
        same_outside(a, b, raw_value_start(a, i), value_end(a, i)),
        v.len() <= value_capacity(a, i),
        b.subrange(raw_value_start(a, i), value_end(a, i)) =~= stored_region(
            entry_variable(a, i),
            value_capacity(a, i),
            v,
        ),
    ensures
        valid_table(b),
        same_index(a, b),
        attributes(b) == attributes(a).update(
            i,
            Attribute {
                value: stored_value(entry_variable(a, i), value_capacity(a, i), v),
                ..attributes(a)[i]
            },
        ),
        region(b, i) == stored_region(entry_variable(a, i), value_capacity(a, i), v),
        forall|k: int| 0 <= k < att_count(a) && k != i ==> #[trigger] region(b, k) == region(a, k),
{
    lemma_places(a, i);
    lemma_same_index(a, b);
    lemma_same_places(a, b, i);
    lemma_stored(b, i, v);
    lemma_changed_attribute(a, b, i);
}

/// The value bytes of attribute `i` of `b` after it was given the value `v`, cut to its capacity, and
/// before its length was set.
pub(crate) open spec fn overwritten(b: Seq<u8>, i: int, v: Seq<u8>) -> Seq<u8> {
    let fit = fitting(v, value_capacity(b, i));
    zeroed(
        splice(b, value_start(b, i), fit),
        value_start(b, i) + fit.len(),
        value_end(b, i),
    )
}

/// Overwriting the value bytes of an attribute and then setting its length gives it a value.
pub(crate) proof fn lemma_value_set(b: Seq<u8>, i: int, v: Seq<u8>)
    requires
        valid_table(b),
        0 <= i < att_count(b),
    ensures
        valid_table(overwritten(b, i, v)),
        att_count(overwritten(b, i, v)) == att_count(b),
        entry_variable(overwritten(b, i, v), i) == entry_variable(b, i),
        raw_value_start(overwritten(b, i, v), i) == raw_value_start(b, i),
        value_capacity(overwritten(b, i, v), i) == value_capacity(b, i),
        value_set(
            b,
            if entry_variable(b, i) {
                splice(
                    overwritten(b, i, v),
                    raw_value_start(b, i),
                    le16_bytes(fitting(v, value_capacity(b, i)).len() as int),
                )
            } else {
                overwritten(b, i, v)
            },
            i,
            v,
        ),
{
    let fit = fitting(v, value_capacity(b, i));
    let c = overwritten(b, i, v);
    lemma_places(b, i);
    lemma_same_index(b, c);
    lemma_same_places(b, c, i);
    assert(value_len(c, i) == value_len(b, i));
    lemma_changed_attribute(b, c, i);
    let d = if entry_variable(b, i) {
        splice(c, raw_value_start(b, i), le16_bytes(fit.len() as int))
    } else {
        c
    };
    assert(d.subrange(raw_value_start(b, i), value_end(b, i)) =~= stored_region(
        entry_variable(b, i),
        value_capacity(b, i),
        fit,
    ));
    lemma_filled(b, d, i, fit);
}

/// Restoring every attribute restores the table.
pub(crate) proof fn lemma_restored_bytes(a: Seq<u8>, b: Seq<u8>, src: Seq<Attribute>)
    requires
        valid_table(a),
        a.len() == b.len(),
        same_index(a, b),
        forall|j: int|
            0 <= j < a.len() && (forall|k: int| !in_region(a, k, j)) ==> #[trigger] b[j] == a[j],
        forall|i: int|
            0 <= i < att_count(a) ==> #[trigger] region(b, i) == restored_region(
                attributes(a)[i],
                src,
            ),
    ensures
        b == restored_bytes(a, src),
{
    assert forall|j: int| 0 <= j < b.len() implies b[j] == #[trigger] restored_bytes(a, src)[j] by {
        if exists|i: int| in_region(a, i, j) {
            let i = choose|i: int| in_region(a, i, j);
            lemma_places(a, i);
            lemma_same_places(a, b, i);
            assert(region(b, i) == restored_region(attributes(a)[i], src));
            assert(region(b, i)[j - raw_value_start(a, i)] == b[j]);
        } else {
            assert forall|k: int| !in_region(a, k, j) by {}
        }
    }
    assert(b =~= restored_bytes(a, src));
}

/// Restoring a table restores every attribute.
pub(crate) proof fn lemma_restored(b: Seq<u8>, src: Seq<Attribute>)
    requires
        valid_table(b),
    ensures
        valid_table(restored_bytes(b, src)),
        same_index(b, restored_bytes(b, src)),
        attributes(restored_bytes(b, src)) == restored(attributes(b), src),
{
    let c = restored_bytes(b, src);
    assert forall|j: int| 0 <= j < values_base(b) implies #[trigger] c[j] == b[j] by {
        assert forall|k: int| !in_region(b, k, j) by {
            if 0 <= k < att_count(b) {
                lemma_places(b, k);
            }
        }
    }
    lemma_same_index(b, c);
    assert forall|i: int| 0 <= i < att_count(b) implies #[trigger] value_len(c, i)
        <= value_capacity(b, i) && attribute(c, i) == restored(attributes(b), src)[i] by {
        lemma_places(b, i);
        lemma_same_places(b, c, i);
        let r = restored_region(attribute(b, i), src);
        let start = raw_value_start(b, i);
        assert forall|j: int| 0 <= j < r.len() implies #[trigger] region(c, i)[j] == r[j] by {
            let at = start + j;
            assert(in_region(b, i, at));
            let k = choose|k: int| in_region(b, k, at);
            assert(in_region(b, k, at));
            lemma_places(b, k);
            if k < i {
                lemma_disjoint(b, k, i);
            } else if i < k {
                lemma_disjoint(b, i, k);
            }
        }
        assert(region(c, i) =~= r);
        lemma_stored(
            c,
            i,
            fitting(source_value(src, entry_key(b, i)), value_capacity(b, i)),
        );
    }
    lemma_valid_values(b, c);
    assert forall|i: int| 0 <= i < att_count(b) implies #[trigger] attributes(c)[i] == restored(
        attributes(b),
        src,
    )[i] by {
        assert(value_len(c, i) <= value_capacity(b, i));
    }
    assert(attributes(c) =~= restored(attributes(b), src));
}

/// Clearing the values empties the variable-length ones and zeroes the others.
pub(crate) proof fn lemma_cleared(b: Seq<u8>)
    requires
        valid_table(b),
    ensures
        valid_table(cleared_bytes(b)),
        same_index(b, cleared_bytes(b)),
        attributes(cleared_bytes(b)) == cleared(attributes(b)),
{
    let c = cleared_bytes(b);
    lemma_same_index(b, c);
    assert forall|i: int| 0 <= i < att_count(b) implies #[trigger] value_len(c, i)
        <= value_capacity(b, i) && attribute(c, i) == cleared(attributes(b))[i] by {
        lemma_places(b, i);
        lemma_same_places(b, c, i);
        assert(region(c, i) =~= stored_region(
            entry_variable(c, i),
            value_capacity(c, i),
            Seq::empty(),
        ));
        lemma_stored(c, i, Seq::empty());
    }
    lemma_valid_values(b, c);
    assert forall|i: int| 0 <= i < att_count(b) implies #[trigger] attributes(c)[i] == cleared(
        attributes(b),
    )[i] by {
        assert(value_len(c, i) <= value_capacity(b, i));
    }
    assert(attributes(c) =~= cleared(attributes(b)));
}

} // verus!
