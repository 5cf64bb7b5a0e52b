//! What holds of tables whatever is done with them.
//!
//! The laws speak of the bytes of a table and of its attributes, as the contracts of
//! [`ClientAttTable`](crate::table::ClientAttTable) and
//! [`ClientAttTableView`](crate::view::ClientAttTableView) do.

use vstd::prelude::*;

use crate::builder::{announced, buildable, indexed, needed_size};
use crate::bytes::zeros;
use crate::config::CLIENT_ATT_TABLE_SIZE;
use crate::error::AttErrorCode;
use crate::format_laws::{
    entries, flagged, stored_key, stored_offset, theorem_what_is_found, theorem_what_is_read,
    theorem_where_a_table_ends, theorem_where_an_attribute_lies, value_bytes, values_at,
};
use crate::layout;
use crate::layout::{
    att_count, attributes, cleared, cleared_bytes, lookup, position, restored, restored_bytes,
    valid_storage, valid_table, value_capacity, values_end, Attribute, MAX_VALUE_LEN,
    VARIABLE_LEN_FLAG,
};
use crate::table::{after_write, write_result};

verus! {

/// The same keys in the same order, with the same kinds and capacities.
pub open spec fn same_shape(a: Seq<Attribute>, b: Seq<Attribute>) -> bool {
    &&& a.len() == b.len()
    &&& forall|i: int|
        0 <= i < a.len() ==> {
            &&& (#[trigger] a[i]).key == b[i].key
            &&& a[i].variable == b[i].variable
            &&& a[i].capacity == b[i].capacity
        }
}

/// Keys stand in ascending order between 1 and 0x7fff, so each is found at most once, and a value is
/// never longer than its capacity, nor that than Bluetooth allows. Fixed-length values fill theirs.
pub proof fn theorem_attributes_in_range(b: Seq<u8>)
    requires
        valid_storage(b),
    ensures
        forall|i: int, j: int|
            0 <= i < j < attributes(b).len() ==> (#[trigger] attributes(b)[i]).key < (
            #[trigger] attributes(b)[j]).key,
        forall|i: int|
            0 <= i < attributes(b).len() ==> {
                let a = #[trigger] attributes(b)[i];
                &&& 0 < a.key < VARIABLE_LEN_FLAG
                &&& a.value.len() <= a.capacity <= MAX_VALUE_LEN
                &&& !a.variable ==> a.value.len() == a.capacity
                &&& lookup(attributes(b), a.key) == Some(a.value)
            },
{
    layout::lemma_unique_keys(b);
    assert forall|i: int, j: int| 0 <= i < j < attributes(b).len() implies (
    #[trigger] attributes(b)[i]).key < (#[trigger] attributes(b)[j]).key by {
        assert(layout::entry_key(b, i) < layout::entry_key(b, j));
    }
    assert forall|i: int| 0 <= i < attributes(b).len() implies {
        let a = #[trigger] attributes(b)[i];
        &&& 0 < a.key < VARIABLE_LEN_FLAG
        &&& a.value.len() <= a.capacity <= MAX_VALUE_LEN
        &&& !a.variable ==> a.value.len() == a.capacity
        &&& lookup(attributes(b), a.key) == Some(a.value)
    } by {
        layout::lemma_places(b, i);
        assert(value_capacity(b, i) <= MAX_VALUE_LEN);
        layout::lemma_position(attributes(b), attributes(b)[i].key, i);
    }
}

/// A key that no attribute can have is not found.
pub proof fn theorem_reserved_keys_not_found(b: Seq<u8>, key: int)
    requires
        valid_table(b),
        key <= 0 || key >= VARIABLE_LEN_FLAG,
    ensures
        lookup(attributes(b), key) is None,
{
    assert forall|i: int| !layout::is_position(attributes(b), key, i) by {
        if 0 <= i < attributes(b).len() {
            layout::lemma_places(b, i);
        }
    }
}

/// A table is read from its own bytes alone: whatever follows them in storage is ignored.
pub proof fn theorem_trailing_storage_ignored(b: Seq<u8>, c: Seq<u8>)
    requires
        valid_table(b),
        values_end(b) <= c.len(),
        c.take(values_end(b)) == b.take(values_end(b)),
    ensures
        valid_table(c),
        values_end(c) == values_end(b),
        attributes(c) == attributes(b),
{
    let end = values_end(b);
    assert forall|j: int| 0 <= j < end implies #[trigger] c[j] == b[j] by {
        assert(c.take(end)[j] == b.take(end)[j]);
    }
    layout::lemma_same_index(b, c);
    assert forall|i: int| 0 <= i < att_count(b) implies #[trigger] layout::value_len(c, i)
        <= value_capacity(b, i) by {
        layout::lemma_places(b, i);
        layout::lemma_same_attribute(b, c, i);
    }
    layout::lemma_valid_values(b, c);
    assert forall|i: int| 0 <= i < att_count(b) implies #[trigger] attributes(c)[i] == attributes(
        b,
    )[i] by {
        layout::lemma_places(b, i);
        layout::lemma_same_attribute(b, c, i);
    }
    assert(attributes(c) =~= attributes(b));
}

/// The raw bytes of a table are a table with the same attributes and the same raw bytes.
pub proof fn theorem_raw_round_trip(b: Seq<u8>)
    requires
        valid_table(b),
    ensures
        valid_table(b.take(values_end(b))),
        attributes(b.take(values_end(b))) == attributes(b),
        b.take(values_end(b)).take(values_end(b.take(values_end(b)))) == b.take(values_end(b)),
{
    let c = b.take(values_end(b));
    assert(c.take(values_end(b)) =~= b.take(values_end(b)));
    theorem_trailing_storage_ignored(b, c);
}

/// A key reads back as what was written to it.
pub proof fn theorem_write_then_get(b: Seq<u8>, key: int, offset: int, data: Seq<u8>)
    requires
        valid_table(b),
        offset >= 0,
        write_result(attributes(b), key, offset, data.len() as int) is Ok,
    ensures
        valid_table(after_write(b, key, offset, data)),
        ({
            let a = attributes(b)[position(attributes(b), key)->0];
            &&& lookup(attributes(b), key) == Some(a.value)
            &&& lookup(attributes(after_write(b, key, offset, data)), key) == Some(
                layout::written_value(a, offset, data),
            )
            &&& layout::written_value(a, offset, data).subrange(offset, offset + data.len()) == data
            &&& layout::written_value(a, offset, data).take(offset) == a.value.take(offset)
            &&& a.variable ==> layout::written_value(a, offset, data).len() == offset + data.len()
            &&& !a.variable ==> layout::written_value(a, offset, data).len() == a.value.len()
        }),
{
    let s = attributes(b);
    let i = position(s, key)->0;
    assert(layout::is_position(s, key, i));
    layout::lemma_places(b, i);
    layout::lemma_written(b, i, offset, data);
    let t = attributes(after_write(b, key, offset, data));
    layout::lemma_unique_keys(b);
    layout::lemma_unique_keys(after_write(b, key, offset, data));
    layout::lemma_position(s, key, i);
    layout::lemma_position(t, key, i);
    let w = layout::written_value(s[i], offset, data);
    assert(w.subrange(offset, offset + data.len()) =~= data);
    assert(w.take(offset) =~= s[i].value.take(offset));
}

/// A write at the end of a variable-length value appends to it.
pub proof fn theorem_write_at_end_appends(a: Attribute, data: Seq<u8>)
    requires
        a.variable,
    ensures
        layout::written_value(a, a.value.len() as int, data) == a.value + data,
{
    assert(a.value.take(a.value.len() as int) =~= a.value);
}

/// A write keeps the shape of the table and the values of all other keys.
pub proof fn theorem_write_keeps_the_rest(
    b: Seq<u8>,
    key: int,
    offset: int,
    data: Seq<u8>,
    other: int,
)
    requires
        valid_table(b),
        offset >= 0,
        other != key,
    ensures
        same_shape(attributes(b), attributes(after_write(b, key, offset, data))),
        lookup(attributes(after_write(b, key, offset, data)), other) == lookup(
            attributes(b),
            other,
        ),
{
    let s = attributes(b);
    let t = attributes(after_write(b, key, offset, data));
    if write_result(s, key, offset, data.len() as int) is Ok {
        let i = position(s, key)->0;
        assert(layout::is_position(s, key, i));
        layout::lemma_places(b, i);
        layout::lemma_written(b, i, offset, data);
        layout::lemma_unique_keys(b);
        layout::lemma_unique_keys(after_write(b, key, offset, data));
        lemma_same_keys_found(s, t, other);
    }
}

/// Tables of the same shape have the same keys, at the same places.
proof fn lemma_same_keys_found(s: Seq<Attribute>, t: Seq<Attribute>, key: int)
    requires
        same_shape(s, t),
        layout::unique_keys(s),
    ensures
        position(t, key) == position(s, key),
{
    assert forall|i: int| layout::is_position(t, key, i) <==> layout::is_position(s, key, i) by {
        if 0 <= i < s.len() {
            assert(s[i].key == t[i].key);
        }
    }
    if exists|i: int| layout::is_position(s, key, i) {
        let i = choose|i: int| layout::is_position(s, key, i);
        assert forall|k: int, l: int|
            0 <= k < t.len() && 0 <= l < t.len() && #[trigger] t[k].key
                == #[trigger] t[l].key implies k == l by {
            assert(s[k].key == t[k].key);
            assert(s[l].key == t[l].key);
        }
        assert(layout::is_position(t, key, i));
        layout::lemma_position(s, key, i);
        layout::lemma_position(t, key, i);
    }
}

/// Copying from another table keeps the shape. A key of both tables reads back as the copied value,
/// cut to the capacity and, if its length is fixed, filled up with zeros; a key that the other table
/// lacks reads back as if it was never written; a key that only the other table has stays unknown.
pub proof fn theorem_copied_values(b: Seq<u8>, src: Seq<Attribute>, key: int)
    requires
        valid_table(b),
    ensures
        valid_table(restored_bytes(b, src)),
        attributes(restored_bytes(b, src)) == restored(attributes(b), src),
        same_shape(attributes(b), attributes(restored_bytes(b, src))),
        match position(attributes(b), key) {
            Some(i) => {
                let a = attributes(b)[i];
                lookup(attributes(restored_bytes(b, src)), key) == Some(
                    layout::stored_value(
                        a.variable,
                        a.capacity,
                        match lookup(src, key) {
                            Some(v) => layout::fitting(v, a.capacity),
                            None => Seq::empty(),
                        },
                    ),
                )
            },
            None => lookup(attributes(restored_bytes(b, src)), key) is None,
        },
{
    let a = attributes(b);
    layout::lemma_restored(b, src);
    layout::lemma_unique_keys(b);
    lemma_same_keys_found(a, restored(a, src), key);
    if position(a, key) is Some {
        let i = position(a, key)->0;
        assert(layout::is_position(a, key, i));
        layout::lemma_places(b, i);
    }
}

/// What a table of some shape was saved as restores its attributes to any table of that shape.
pub proof fn theorem_saved_values_restored(dst: Seq<u8>, src: Seq<u8>)
    requires
        valid_table(dst),
        valid_table(src),
        same_shape(attributes(dst), attributes(src)),
    ensures
        valid_table(src.take(values_end(src))),
        restored(attributes(dst), attributes(src.take(values_end(src)))) == attributes(src),
        attributes(restored_bytes(dst, attributes(src.take(values_end(src))))) == attributes(src),
{
    theorem_raw_round_trip(src);
    let d = attributes(dst);
    let s = attributes(src);
    layout::lemma_unique_keys(src);
    assert forall|i: int| 0 <= i < d.len() implies #[trigger] restored(d, s)[i] == s[i] by {
        assert(d[i].key == s[i].key);
        layout::lemma_position(s, s[i].key, i);
        layout::lemma_places(src, i);
        assert(layout::stored_value(s[i].variable, s[i].capacity, s[i].value) =~= s[i].value);
    }
    assert(restored(d, s) =~= s);
    layout::lemma_restored(dst, s);
}

/// Copying the same values again changes nothing.
pub proof fn theorem_copying_again_changes_nothing(a: Seq<Attribute>, src: Seq<Attribute>)
    ensures
        restored(restored(a, src), src) == restored(a, src),
{
    assert(restored(restored(a, src), src) =~= restored(a, src));
}

/// Clearing keeps the shape, empties variable-length values and zeros fixed-length ones.
pub proof fn theorem_cleared_values(b: Seq<u8>, key: int)
    requires
        valid_table(b),
    ensures
        valid_table(cleared_bytes(b)),
        attributes(cleared_bytes(b)) == cleared(attributes(b)),
        same_shape(attributes(b), attributes(cleared_bytes(b))),
        match position(attributes(b), key) {
            Some(i) => lookup(attributes(cleared_bytes(b)), key) == Some(
                if attributes(b)[i].variable {
                    Seq::empty()
                } else {
                    zeros(attributes(b)[i].capacity)
                },
            ),
            None => lookup(attributes(cleared_bytes(b)), key) is None,
        },
{
    layout::lemma_cleared(b);
    layout::lemma_unique_keys(b);
    let a = attributes(b);
    lemma_same_keys_found(a, cleared(a), key);
    if position(a, key) is Some {
        let i = position(a, key)->0;
        assert(layout::is_position(a, key, i));
        assert(layout::stored_value(a[i].variable, a[i].capacity, Seq::empty()) =~= if a[i].variable {
            Seq::empty()
        } else {
            zeros(a[i].capacity)
        });
    }
}

/// Clearing forgets every write, and clearing twice is clearing once.
pub proof fn theorem_clearing_forgets(b: Seq<u8>, key: int, offset: int, data: Seq<u8>)
    requires
        valid_table(b),
        offset >= 0,
    ensures
        cleared_bytes(after_write(b, key, offset, data)) == cleared_bytes(b),
        cleared_bytes(cleared_bytes(b)) == cleared_bytes(b),
{
    let c = after_write(b, key, offset, data);
    layout::lemma_cleared(b);
    if write_result(attributes(b), key, offset, data.len() as int) is Ok {
        let i = position(attributes(b), key)->0;
        assert(layout::is_position(attributes(b), key, i));
        layout::lemma_places(b, i);
        layout::lemma_written(b, i, offset, data);
    }
    assert(cleared_bytes(c) =~= cleared_bytes(b));
    assert(cleared_bytes(cleared_bytes(b)) =~= cleared_bytes(b));
}

/// A table that was just built is cleared already, and takes the bytes that were asked for.
pub proof fn theorem_built_table(b: Seq<u8>, s: Seq<Attribute>)
    requires
        valid_storage(b),
        buildable(s),
        announced(b, s),
        indexed(b, s),
        needed_size(s) <= CLIENT_ATT_TABLE_SIZE,
    ensures
        values_end(b) == needed_size(s),
        cleared_bytes(b) == b,
        forall|i: int|
            0 <= i < s.len() ==> lookup(attributes(b), (#[trigger] s[i]).key) == Some(s[i].value),
{
    assert(cleared_bytes(b) =~= b);
    crate::builder::lemma_indexed(b, s);
    layout::lemma_unique_keys(b);
    assert forall|i: int| 0 <= i < s.len() implies lookup(attributes(b), (#[trigger] s[i]).key)
        == Some(s[i].value) by {
        layout::lemma_position(s, s[i].key, i);
    }
}

/// A write that fits changes one value and nothing else of what is read. Before `offset` the value
/// stays as it was, from there on it is `data`, and behind that a fixed-length value stays as it was
/// while a variable-length one ends.
pub proof fn theorem_what_a_write_does(b: Seq<u8>, i: int, offset: int, data: Seq<u8>)
    requires
        valid_table(b),
        0 <= i < attributes(b).len(),
        0 <= offset <= attributes(b)[i].value.len(),
        offset + data.len() <= attributes(b)[i].capacity,
    ensures
        ({
            let a = attributes(b)[i];
            let c = after_write(b, a.key, offset, data);
            let w = attributes(c)[i];
            &&& write_result(attributes(b), a.key, offset, data.len() as int) == Ok::<
                (),
                AttErrorCode,
            >(())
            &&& valid_table(c)
            &&& attributes(c).len() == attributes(b).len()
            &&& forall|k: int|
                0 <= k < attributes(b).len() && k != i ==> #[trigger] attributes(c)[k]
                    == attributes(b)[k]
            &&& w.key == a.key
            &&& w.variable == a.variable
            &&& w.capacity == a.capacity
            &&& w.value.len() == if a.variable {
                offset + data.len()
            } else {
                a.value.len() as int
            }
            &&& forall|j: int| 0 <= j < offset ==> #[trigger] w.value[j] == a.value[j]
            &&& forall|j: int|
                offset <= j < offset + data.len() ==> #[trigger] w.value[j] == data[j - offset]
            &&& forall|j: int|
                offset + data.len() <= j < w.value.len() ==> #[trigger] w.value[j] == a.value[j]
            &&& !a.variable ==> w.value.skip(offset + data.len()) == a.value.skip(
                offset + data.len(),
            )
            &&& lookup(attributes(c), a.key) == Some(w.value)
        }),
{
    let s = attributes(b);
    let c = after_write(b, s[i].key, offset, data);
    layout::lemma_unique_keys(b);
    layout::lemma_position(s, s[i].key, i);
    layout::lemma_places(b, i);
    layout::lemma_written(b, i, offset, data);
    layout::lemma_unique_keys(c);
    layout::lemma_position(attributes(c), s[i].key, i);
    if !s[i].variable {
        assert(attributes(c)[i].value.skip(offset + data.len()) =~= s[i].value.skip(
            offset + data.len(),
        ));
    }
}

/// A write is refused if no attribute has the key, if it starts behind the end of the value, and if it
/// ends behind the capacity; in this order. A refused write changes no byte.
pub proof fn theorem_refused_writes(b: Seq<u8>, key: int, i: int, offset: int, data: Seq<u8>)
    requires
        valid_table(b),
    ensures
        (forall|k: int| 0 <= k < attributes(b).len() ==> (#[trigger] attributes(b)[k]).key != key)
            ==> {
            &&& write_result(attributes(b), key, offset, data.len() as int) == Err::<
                (),
                AttErrorCode,
            >(AttErrorCode::ATTRIBUTE_NOT_FOUND)
            &&& after_write(b, key, offset, data) == b
        },
        0 <= i < attributes(b).len() && attributes(b)[i].key == key && offset > attributes(
            b,
        )[i].value.len() ==> {
            &&& write_result(attributes(b), key, offset, data.len() as int) == Err::<
                (),
                AttErrorCode,
            >(AttErrorCode::INVALID_OFFSET)
            &&& after_write(b, key, offset, data) == b
        },
        0 <= i < attributes(b).len() && attributes(b)[i].key == key && offset <= attributes(
            b,
        )[i].value.len() && offset + data.len() > attributes(b)[i].capacity ==> {
            &&& write_result(attributes(b), key, offset, data.len() as int) == Err::<
                (),
                AttErrorCode,
            >(AttErrorCode::INVALID_ATTRIBUTE_VALUE_LENGTH)
            &&& after_write(b, key, offset, data) == b
        },
{
    theorem_what_is_found(b, key, i);
}

/// The bytes that a write that fits changes: those that `data` goes to, and the length of a
/// variable-length value. All others, unused ones among them, stay as they were.
pub proof fn theorem_which_bytes_a_write_changes(
    b: Seq<u8>,
    i: int,
    offset: int,
    data: Seq<u8>,
    j: int,
)
    requires
        valid_table(b),
        0 <= i < attributes(b).len(),
        0 <= offset <= attributes(b)[i].value.len(),
        offset + data.len() <= attributes(b)[i].capacity,
        0 <= j < b.len(),
    ensures
        ({
            let c = after_write(b, attributes(b)[i].key, offset, data);
            let at = values_at(b) + stored_offset(b, i);
            let start = if flagged(b, i) {
                at + 2
            } else {
                at
            };
            &&& c.len() == b.len()
            &&& start + offset <= j < start + offset + data.len() ==> c[j] == data[j - start
                - offset]
            &&& flagged(b, i) && at <= j < at + 2 ==> c[at] + 256 * c[at + 1] == offset
                + data.len()
            &&& j < at || start <= j < start + offset || start + offset + data.len() <= j ==> c[j]
                == b[j]
        }),
{
    let s = attributes(b);
    let c = after_write(b, s[i].key, offset, data);
    theorem_what_is_read(b, i);
    theorem_where_an_attribute_lies(b, i);
    layout::lemma_places(b, i);
    theorem_what_a_write_does(b, i, offset, data);
    layout::lemma_unique_keys(b);
    layout::lemma_position(s, s[i].key, i);
    if flagged(b, i) {
        let at = values_at(b) + stored_offset(b, i);
        assert(c[at] == crate::bytes::le16_bytes(offset + data.len())[0]);
        assert(c[at + 1] == crate::bytes::le16_bytes(offset + data.len())[1]);
    }
}

/// Writing a value over itself changes no byte.
#[verifier::rlimit(40)]
pub proof fn theorem_writing_back_changes_nothing(b: Seq<u8>, i: int)
    requires
        valid_table(b),
        0 <= i < attributes(b).len(),
    ensures
        after_write(b, attributes(b)[i].key, 0, attributes(b)[i].value) == b,
{
    let a = attributes(b)[i];
    let c = after_write(b, a.key, 0, a.value);
    layout::lemma_places(b, i);
    theorem_what_is_read(b, i);
    theorem_what_a_write_does(b, i, 0, a.value);
    assert forall|j: int| 0 <= j < b.len() implies #[trigger] c[j] == b[j] by {
        theorem_which_bytes_a_write_changes(b, i, 0, a.value, j);
    }
    assert(c =~= b);
}

/// A write can be split: writing one part and then the other behind it gives the same bytes as writing
/// both at once.
#[verifier::rlimit(40)]
pub proof fn theorem_split_write(b: Seq<u8>, i: int, offset: int, one: Seq<u8>, two: Seq<u8>)
    requires
        valid_table(b),
        0 <= i < attributes(b).len(),
        0 <= offset <= attributes(b)[i].value.len(),
        offset + one.len() + two.len() <= attributes(b)[i].capacity,
    ensures
        ({
            let key = attributes(b)[i].key;
            after_write(after_write(b, key, offset, one), key, offset + one.len(), two)
                == after_write(b, key, offset, one + two)
        }),
{
    let key = attributes(b)[i].key;
    let c = after_write(b, key, offset, one);
    let d = after_write(c, key, offset + one.len(), two);
    let e = after_write(b, key, offset, one + two);
    layout::lemma_places(b, i);
    theorem_what_is_read(b, i);
    theorem_what_a_write_does(b, i, offset, one);
    theorem_what_a_write_does(c, i, offset + one.len(), two);
    layout::lemma_unique_keys(b);
    layout::lemma_position(attributes(b), key, i);
    layout::lemma_unique_keys(c);
    layout::lemma_position(attributes(c), key, i);
    layout::lemma_written(b, i, offset, one);
    layout::lemma_same_places(b, c, i);
    theorem_where_an_attribute_lies(b, i);
    theorem_where_an_attribute_lies(c, i);
    theorem_what_is_read(c, i);
    assert forall|j: int| 0 <= j < b.len() implies #[trigger] d[j] == e[j] by {
        theorem_which_bytes_a_write_changes(b, i, offset, one, j);
        theorem_which_bytes_a_write_changes(b, i, offset, one + two, j);
        theorem_which_bytes_a_write_changes(c, i, offset + one.len(), two, j);
    }
    assert(d =~= e);
}

/// What is copied from another table, whatever other keys either has. Each byte of a value is that of
/// the other table's value for the same key; where that is shorter or missing, a variable-length value
/// ends and a fixed-length one is zero.
pub proof fn theorem_what_is_copied(b: Seq<u8>, src: Seq<u8>, i: int, k: int)
    requires
        valid_table(b),
        valid_table(src),
        0 <= i < attributes(b).len(),
    ensures
        ({
            let a = attributes(b)[i];
            let c = attributes(restored_bytes(b, attributes(src)));
            let v = attributes(src)[k].value;
            let w = c[i].value;
            let n = if v.len() <= a.capacity {
                v.len() as int
            } else {
                a.capacity
            };
            &&& valid_table(restored_bytes(b, attributes(src)))
            &&& c.len() == attributes(b).len()
            &&& c[i].key == a.key
            &&& c[i].variable == a.variable
            &&& c[i].capacity == a.capacity
            &&& lookup(c, a.key) == Some(w)
            &&& a.variable || w.len() == a.capacity
            &&& 0 <= k < attributes(src).len() && attributes(src)[k].key == a.key ==> {
                &&& a.variable ==> w.len() == n
                &&& forall|j: int| 0 <= j < n ==> #[trigger] w[j] == v[j]
                &&& forall|j: int| n <= j < w.len() ==> #[trigger] w[j] == 0
            }
            &&& (forall|l: int|
                0 <= l < attributes(src).len() ==> (#[trigger] attributes(src)[l]).key != a.key) ==> {
                &&& a.variable ==> w.len() == 0
                &&& forall|j: int| 0 <= j < w.len() ==> #[trigger] w[j] == 0
            }
        }),
{
    let a = attributes(b)[i];
    let s = attributes(src);
    let c = restored_bytes(b, s);
    layout::lemma_places(b, i);
    layout::lemma_restored(b, s);
    layout::lemma_unique_keys(c);
    layout::lemma_position(attributes(c), a.key, i);
    theorem_what_is_found(src, a.key, k);
}

/// Copying changes no byte outside the values: not the header, not the index, not what follows.
pub proof fn theorem_which_bytes_copying_changes(b: Seq<u8>, src: Seq<Attribute>, j: int)
    requires
        valid_table(b),
        0 <= j < b.len(),
    ensures
        restored_bytes(b, src).len() == b.len(),
        j < values_at(b) || values_at(b) + value_bytes(b) <= j ==> restored_bytes(b, src)[j]
            == b[j],
{
    theorem_where_a_table_ends(b);
    if j < values_at(b) || values_at(b) + value_bytes(b) <= j {
        assert forall|k: int| !layout::in_region(b, k, j) by {
            if 0 <= k < att_count(b) {
                layout::lemma_places(b, k);
            }
        }
    }
}

/// Copying leaves zeros in the bytes of an attribute that its value does not use.
pub proof fn theorem_copying_zeros_unused_bytes(b: Seq<u8>, src: Seq<Attribute>, i: int, j: int)
    requires
        valid_table(b),
        0 <= i < attributes(b).len(),
        attributes(restored_bytes(b, src))[i].value.len() <= j < attributes(b)[i].capacity,
    ensures
        restored_bytes(b, src)[layout::value_start(b, i) + j] == 0,
{
    let c = restored_bytes(b, src);
    let a = attributes(b)[i];
    let at = layout::value_start(b, i) + j;
    layout::lemma_places(b, i);
    layout::lemma_restored(b, src);
    assert(layout::in_region(b, i, at));
    let k = choose|k: int| layout::in_region(b, k, at);
    assert(layout::in_region(b, k, at));
    layout::lemma_places(b, k);
    if k < i {
        layout::lemma_disjoint(b, k, i);
    } else if i < k {
        layout::lemma_disjoint(b, i, k);
    }
}

/// What clearing does. Every byte of the values becomes zero and no other byte changes, so that
/// variable-length values end up empty and fixed-length ones zero, and nothing else is read otherwise.
pub proof fn theorem_what_clearing_does(b: Seq<u8>, i: int, j: int)
    requires
        valid_table(b),
        0 <= i < attributes(b).len(),
        0 <= j < b.len(),
    ensures
        ({
            let a = attributes(b)[i];
            let c = attributes(cleared_bytes(b));
            &&& cleared_bytes(b).len() == b.len()
            &&& cleared_bytes(b)[j] == if values_at(b) <= j < values_at(b) + value_bytes(b) {
                0
            } else {
                b[j]
            }
            &&& c.len() == attributes(b).len()
            &&& c[i].key == a.key
            &&& c[i].variable == a.variable
            &&& c[i].capacity == a.capacity
            &&& c[i].value.len() == if a.variable {
                0
            } else {
                a.capacity
            }
            &&& forall|l: int| 0 <= l < c[i].value.len() ==> #[trigger] c[i].value[l] == 0
        }),
{
    theorem_where_a_table_ends(b);
    layout::lemma_places(b, i);
    layout::lemma_cleared(b);
}

/// A key that a table lacks is not found after a write, after copying and after clearing either.
pub proof fn theorem_no_key_appears(
    b: Seq<u8>,
    key: int,
    offset: int,
    data: Seq<u8>,
    src: Seq<Attribute>,
    other: int,
)
    requires
        valid_table(b),
        offset >= 0,
        forall|k: int| 0 <= k < attributes(b).len() ==> (#[trigger] attributes(b)[k]).key != other,
    ensures
        lookup(attributes(after_write(b, key, offset, data)), other) is None,
        lookup(attributes(restored_bytes(b, src)), other) is None,
        lookup(attributes(cleared_bytes(b)), other) is None,
{
    theorem_what_is_found(b, other, 0);
    if key != other {
        theorem_write_keeps_the_rest(b, key, offset, data, other);
    } else {
        theorem_refused_writes(b, key, 0, offset, data);
    }
    theorem_copied_values(b, src, other);
    theorem_cleared_values(b, other);
}

// ---- New tables ----

/// A new attribute is what was asked for, and has no value: none at all if its length is variable, and
/// otherwise zeros.
pub proof fn theorem_new_attribute(key: int, variable: bool, capacity: int)
    requires
        capacity >= 0,
    ensures
        ({
            let a = layout::blank(key, variable, capacity);
            &&& a.key == key
            &&& a.variable == variable
            &&& a.capacity == capacity
            &&& a.value.len() == if variable {
                0
            } else {
                capacity
            }
            &&& forall|j: int| 0 <= j < a.value.len() ==> #[trigger] a.value[j] == 0
        }),
{
}

/// A table takes 4 bytes, and for each attribute 4 more, its capacity, and 2 if its length is variable.
pub proof fn theorem_bytes_needed(s: Seq<Attribute>, a: Attribute)
    ensures
        needed_size(Seq::empty()) == 4,
        needed_size(s.push(a)) == needed_size(s) + 4 + a.capacity + if a.variable {
            2int
        } else {
            0int
        },
{
    assert(s.push(a).drop_last() =~= s);
}

/// A table can be made of attributes one after the other: none at all, and one more if its key is above
/// the last one and in range, its capacity is at most 512, and it has no value.
pub proof fn theorem_what_can_be_built(s: Seq<Attribute>, a: Attribute)
    ensures
        buildable(Seq::empty()),
        buildable(s.push(a)) <==> {
            &&& buildable(s)
            &&& s.len() > 0 ==> s.last().key < a.key
            &&& 1 <= a.key <= 0x7fff
            &&& 0 <= a.capacity <= 512
            &&& a.value.len() == if a.variable {
                0
            } else {
                a.capacity
            }
            &&& forall|j: int| 0 <= j < a.value.len() ==> #[trigger] a.value[j] == 0
        },
{
    let t = s.push(a);
    let n = s.len() as int;
    let blank = layout::blank(a.key, a.variable, a.capacity);
    assert(t[n] == a);
    if buildable(t) {
        assert forall|i: int| 0 <= i < n implies #[trigger] s[i] == t[i] by {}
        assert(buildable(s));
        if n > 0 {
            assert(t[n - 1].key < t[n].key);
        }
        assert(a == blank);
    }
    if a.capacity >= 0 && a.value.len() == blank.value.len() && (forall|j: int|
        0 <= j < a.value.len() ==> #[trigger] a.value[j] == 0) {
        assert(a.value =~= blank.value);
    }
    if buildable(s) && (n > 0 ==> s.last().key < a.key) && 1 <= a.key <= 0x7fff && 0 <= a.capacity
        <= 512 && a == blank {
        assert forall|i: int, j: int| 0 <= i < j < t.len() implies (#[trigger] t[i]).key < (
        #[trigger] t[j]).key by {
            if j == n && i < n - 1 {
                assert(s[i].key < s[n - 1].key);
            }
        }
        assert(buildable(t));
    }
}

/// How a new table lies in its bytes: an entry per attribute with its key and its flag, the bytes of
/// each attribute right behind those of the one before, and nothing but zeros behind the index.
pub proof fn theorem_how_a_new_table_lies(b: Seq<u8>, s: Seq<Attribute>, i: int, j: int)
    requires
        valid_storage(b),
        buildable(s),
        announced(b, s),
        indexed(b, s),
        needed_size(s) <= CLIENT_ATT_TABLE_SIZE,
        0 <= i < s.len(),
        4 + 4 * s.len() <= j < b.len(),
    ensures
        entries(b) == s.len(),
        stored_key(b, i) == s[i].key,
        flagged(b, i) == s[i].variable,
        stored_offset(b, 0) == 0,
        stored_offset(b, i + 1) == stored_offset(b, i) + s[i].capacity + if s[i].variable {
            2int
        } else {
            0int
        },
        b[j] == 0,
{
    crate::builder::lemma_indexed(b, s);
    theorem_what_is_read(b, i);
    theorem_what_is_read(b, 0);
    crate::format_laws::theorem_what_is_storage(b);
}

} // verus!
