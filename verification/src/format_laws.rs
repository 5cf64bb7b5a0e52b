//! What the bytes of a table mean, byte by byte.
//!
//! The laws say which byte strings are tables and what is read from them, in terms of the bytes alone.

use vstd::prelude::*;

use crate::bytes::{le16, le16_bytes, splice, zeroed, zeros};
use crate::config::CLIENT_ATT_TABLE_SIZE;
use crate::layout;
use crate::layout::{attributes, lookup, position, valid_storage, valid_table};
use crate::table::ClientAttTable;
use crate::view::ClientAttTableView;

verus! {

// ---- The words of a table ----

/// The number that a low and a high byte stand for.
pub open spec fn number(lo: u8, hi: u8) -> int {
    lo + 256 * hi
}

/// How many entries the first two bytes announce.
pub open spec fn entries(b: Seq<u8>) -> int {
    number(b[0], b[1])
}

/// How many value bytes the next two bytes announce.
pub open spec fn value_bytes(b: Seq<u8>) -> int {
    number(b[2], b[3])
}

/// The four bytes of entry `i`.
pub open spec fn entry_at(b: Seq<u8>, i: int) -> Seq<u8> {
    b.subrange(4 + 4 * i, 8 + 4 * i)
}

/// The low 15 bits of the first word of entry `i`.
pub open spec fn stored_key(b: Seq<u8>, i: int) -> int {
    number(entry_at(b, i)[0], entry_at(b, i)[1]) % 0x8000
}

/// The top bit of the first word of entry `i`.
pub open spec fn flagged(b: Seq<u8>, i: int) -> bool {
    entry_at(b, i)[1] >= 0x80
}

/// The second word of entry `i` or, past the last entry, the number of value bytes.
pub open spec fn stored_offset(b: Seq<u8>, i: int) -> int {
    if i < entries(b) {
        number(entry_at(b, i)[2], entry_at(b, i)[3])
    } else {
        value_bytes(b)
    }
}

/// Where offset 0 lies.
pub open spec fn values_at(b: Seq<u8>) -> int {
    4 + 4 * entries(b)
}

/// Bytes between the offset in entry `i` and the next one, without those of a length.
pub open spec fn room(b: Seq<u8>, i: int) -> int {
    stored_offset(b, i + 1) - stored_offset(b, i) - if flagged(b, i) {
        2int
    } else {
        0int
    }
}

/// The length that a flagged attribute starts with.
pub open spec fn stored_len(b: Seq<u8>, i: int) -> int {
    let at = values_at(b) + stored_offset(b, i);
    number(b[at], b[at + 1])
}

/// The layout's places are these words.
proof fn lemma_words(b: Seq<u8>, i: int)
    requires
        4 <= b.len(),
        values_at(b) <= b.len(),
        0 <= i < entries(b),
    ensures
        layout::att_count(b) == entries(b),
        layout::values_len(b) == value_bytes(b),
        layout::values_base(b) == values_at(b),
        layout::entry_key(b, i) == stored_key(b, i),
        layout::entry_variable(b, i) == flagged(b, i),
        layout::entry_offset(b, i) == stored_offset(b, i),
        layout::value_end(b, i) == values_at(b) + stored_offset(b, i + 1),
        layout::value_capacity(b, i) == room(b, i),
        flagged(b, i) ==> layout::value_len(b, i) == stored_len(b, i),
{
    let e = entry_at(b, i);
    assert(e[0] == b[4 + 4 * i]);
    assert(e[1] == b[5 + 4 * i]);
    assert(e[2] == b[6 + 4 * i]);
    assert(e[3] == b[7 + 4 * i]);
    if i + 1 < entries(b) {
        let f = entry_at(b, i + 1);
        assert(f[2] == b[10 + 4 * i]);
        assert(f[3] == b[11 + 4 * i]);
    }
}

/// The next entry is no less, so every later one is no less.
proof fn lemma_chain(b: Seq<u8>, i: int, j: int)
    requires
        0 <= i < j < entries(b),
        forall|k: int| 0 < k < entries(b) ==> stored_key(b, k - 1) < #[trigger] stored_key(b, k),
        forall|k: int|
            0 < k < entries(b) ==> stored_offset(b, k - 1) <= #[trigger] stored_offset(b, k),
    ensures
        stored_key(b, i) < stored_key(b, j),
        stored_offset(b, i) <= stored_offset(b, j),
    decreases j - i,
{
    assert(stored_key(b, j - 1) < stored_key(b, j));
    assert(stored_offset(b, j - 1) <= stored_offset(b, j));
    if i < j - 1 {
        lemma_chain(b, i, j - 1);
    }
}

/// A byte string is accepted as a table exactly if it is long enough for its entries and its value
/// bytes, its first key is not 0, each key is greater than the one before, each offset is no less than
/// the one before and none lies past the value bytes, and a flagged attribute has room for its length
/// and for as many bytes as that says.
pub proof fn theorem_what_is_a_table(b: Seq<u8>)
    ensures
        valid_table(b) <==> {
            &&& 4 <= b.len()
            &&& values_at(b) + value_bytes(b) <= b.len()
            &&& entries(b) > 0 ==> stored_key(b, 0) > 0
            &&& forall|k: int|
                0 < k < entries(b) ==> stored_key(b, k - 1) < #[trigger] stored_key(b, k)
            &&& forall|k: int|
                0 < k < entries(b) ==> stored_offset(b, k - 1) <= #[trigger] stored_offset(b, k)
            &&& forall|k: int|
                0 <= k < entries(b) ==> #[trigger] stored_offset(b, k) <= value_bytes(b)
            &&& forall|k: int| 0 <= k < entries(b) && flagged(b, k) ==> 0 <= #[trigger] room(b, k)
            &&& forall|k: int|
                0 <= k < entries(b) && flagged(b, k) ==> #[trigger] stored_len(b, k) <= room(b, k)
        },
{
    if valid_table(b) {
        assert forall|k: int| 0 <= k < entries(b) implies #[trigger] stored_offset(b, k)
            <= value_bytes(b) by {
            lemma_words(b, k);
        }
        assert forall|k: int| 0 < k < entries(b) implies stored_key(b, k - 1)
            < #[trigger] stored_key(b, k) by {
            lemma_words(b, k);
            lemma_words(b, k - 1);
            assert(layout::entry_key(b, k - 1) < layout::entry_key(b, k));
        }
        assert forall|k: int| 0 < k < entries(b) implies stored_offset(b, k - 1)
            <= #[trigger] stored_offset(b, k) by {
            lemma_words(b, k);
            lemma_words(b, k - 1);
            assert(layout::entry_offset(b, k - 1) <= layout::entry_offset(b, k));
        }
        assert forall|k: int| 0 <= k < entries(b) && flagged(b, k) implies 0 <= #[trigger] room(
            b,
            k,
        ) by {
            lemma_words(b, k);
            assert(layout::value_start(b, k) <= layout::value_end(b, k));
        }
        assert forall|k: int| 0 <= k < entries(b) && flagged(b, k) implies #[trigger] stored_len(
            b,
            k,
        ) <= room(b, k) by {
            lemma_words(b, k);
            assert(layout::value_len(b, k) <= layout::value_capacity(b, k));
        }
        if entries(b) > 0 {
            lemma_words(b, 0);
            assert(0 < layout::entry_key(b, 0));
        }
    }
    if {
        &&& 4 <= b.len()
        &&& values_at(b) + value_bytes(b) <= b.len()
        &&& entries(b) > 0 ==> stored_key(b, 0) > 0
        &&& forall|k: int|
            0 < k < entries(b) ==> stored_key(b, k - 1) < #[trigger] stored_key(b, k)
        &&& forall|k: int|
            0 < k < entries(b) ==> stored_offset(b, k - 1) <= #[trigger] stored_offset(b, k)
        &&& forall|k: int|
            0 <= k < entries(b) ==> #[trigger] stored_offset(b, k) <= value_bytes(b)
        &&& forall|k: int| 0 <= k < entries(b) && flagged(b, k) ==> 0 <= #[trigger] room(b, k)
        &&& forall|k: int|
            0 <= k < entries(b) && flagged(b, k) ==> #[trigger] stored_len(b, k) <= room(b, k)
    } {
        assert forall|i: int| 0 <= i < layout::att_count(b) implies 0 < #[trigger] layout::entry_key(
            b,
            i,
        ) by {
            lemma_words(b, i);
            if i > 0 {
                lemma_chain(b, 0, i);
            }
        }
        assert forall|i: int, j: int|
            0 <= i < j < layout::att_count(b) implies #[trigger] layout::entry_key(b, i)
            < #[trigger] layout::entry_key(b, j) by {
            lemma_words(b, i);
            lemma_words(b, j);
            lemma_chain(b, i, j);
        }
        assert forall|i: int, j: int|
            0 <= i < j < layout::att_count(b) implies #[trigger] layout::entry_offset(b, i)
            <= #[trigger] layout::entry_offset(b, j) by {
            lemma_words(b, i);
            lemma_words(b, j);
            lemma_chain(b, i, j);
        }
        assert forall|i: int|
            0 <= i < layout::att_count(b) implies #[trigger] layout::entry_offset(b, i)
            <= layout::values_len(b) by {
            lemma_words(b, i);
            assert(stored_offset(b, i) <= value_bytes(b));
        }
        assert forall|i: int| 0 <= i < layout::att_count(b) implies layout::value_start(b, i)
            <= #[trigger] layout::value_end(b, i) by {
            lemma_words(b, i);
            assert(stored_offset(b, i) <= value_bytes(b));
            if flagged(b, i) {
                assert(0 <= room(b, i));
            } else if i + 1 < entries(b) {
                assert(stored_offset(b, (i + 1) - 1) <= stored_offset(b, i + 1));
            }
        }
        assert forall|i: int| 0 <= i < layout::att_count(b) implies #[trigger] layout::value_len(b, i)
            <= layout::value_capacity(b, i) by {
            lemma_words(b, i);
            if flagged(b, i) {
                assert(stored_len(b, i) <= room(b, i));
            }
        }
        assert(valid_table(b));
    }
}

/// What is read from a table. There is an attribute per entry, with the entry's key and flag. Its
/// capacity is the room up to the next offset. Its value is, byte for byte, what stands at its offset:
/// all of its room or, if it is flagged, as much behind the length as that says.
pub proof fn theorem_what_is_read(b: Seq<u8>, i: int)
    requires
        valid_table(b),
        0 <= i < entries(b),
    ensures
        attributes(b).len() == entries(b),
        attributes(b)[i].key == stored_key(b, i),
        attributes(b)[i].variable == flagged(b, i),
        attributes(b)[i].capacity == room(b, i),
        attributes(b)[i].value.len() == if flagged(b, i) {
            stored_len(b, i)
        } else {
            room(b, i)
        },
        forall|j: int|
            0 <= j < attributes(b)[i].value.len() ==> #[trigger] attributes(b)[i].value[j]
                == b[values_at(b) + stored_offset(b, i) + if flagged(b, i) {
                2int
            } else {
                0int
            } + j],
{
    lemma_words(b, i);
    layout::lemma_places(b, i);
}

/// A table has no attributes but those of its entries, and ends with its value bytes.
pub proof fn theorem_where_a_table_ends(b: Seq<u8>)
    requires
        valid_table(b),
    ensures
        attributes(b).len() == entries(b),
        layout::values_base(b) == values_at(b),
        layout::values_end(b) == values_at(b) + value_bytes(b),
{
}

/// Where the bytes of an attribute lie.
pub proof fn theorem_where_an_attribute_lies(b: Seq<u8>, i: int)
    requires
        valid_table(b),
        0 <= i < entries(b),
    ensures
        layout::raw_value_start(b, i) == values_at(b) + stored_offset(b, i),
        layout::value_start(b, i) == values_at(b) + stored_offset(b, i) + if flagged(b, i) {
            2int
        } else {
            0int
        },
        layout::value_end(b, i) == values_at(b) + stored_offset(b, i + 1),
{
    lemma_words(b, i);
}

/// Storage holds a table exactly if the bytes of its attributes follow each other from the start of the
/// value bytes on, and none has room for more than 512 bytes.
pub proof fn theorem_what_is_storage(b: Seq<u8>)
    ensures
        valid_storage(b) <==> {
            &&& b.len() == CLIENT_ATT_TABLE_SIZE
            &&& valid_table(b)
            &&& stored_offset(b, 0) == 0
            &&& forall|k: int| 0 <= k < entries(b) ==> #[trigger] room(b, k) <= 512
        },
{
    if valid_table(b) {
        assert forall|k: int| 0 <= k < entries(b) implies #[trigger] room(b, k)
            == layout::value_capacity(b, k) by {
            lemma_words(b, k);
        }
        assert forall|k: int| 0 <= k < entries(b) implies room(b, k)
            == #[trigger] layout::value_capacity(b, k) by {
            lemma_words(b, k);
        }
        if entries(b) > 0 {
            lemma_words(b, 0);
        }
    }
}

/// The attributes of a table and of a view are those of their bytes.
pub proof fn theorem_whose_attributes(t: ClientAttTable, v: ClientAttTableView<'_>)
    ensures
        t.wf() == valid_storage(t.bytes()),
        t.attributes() == attributes(t.bytes()),
        v.wf() == valid_table(v.bytes()),
        v.attributes() == attributes(v.bytes()),
{
}

// ---- Finding ----

/// A key is found exactly if an attribute has it, and then with the value of that attribute.
pub proof fn theorem_what_is_found(b: Seq<u8>, key: int, i: int)
    requires
        valid_table(b),
    ensures
        0 <= i < attributes(b).len() && attributes(b)[i].key == key ==> position(attributes(b), key)
            == Some(i) && lookup(attributes(b), key) == Some(attributes(b)[i].value),
        (forall|k: int| 0 <= k < attributes(b).len() ==> (#[trigger] attributes(b)[k]).key != key)
            ==> position(attributes(b), key) is None && lookup(attributes(b), key) is None,
{
    layout::lemma_unique_keys(b);
    if 0 <= i < attributes(b).len() && attributes(b)[i].key == key {
        layout::lemma_position(attributes(b), key, i);
    }
}

// ---- Bytes ----

/// A word is its low byte and, 256 times, its high byte, and reads back as the number it was made of.
pub proof fn theorem_words(b: Seq<u8>, at: int, x: int)
    requires
        0 <= x < 0x1_0000,
    ensures
        le16(b, at) == number(b[at], b[at + 1]),
        le16_bytes(x).len() == 2,
        number(le16_bytes(x)[0], le16_bytes(x)[1]) == x,
{
}

/// Writing over bytes changes those that are written over, and no others.
pub proof fn theorem_overwritten_bytes(b: Seq<u8>, at: int, s: Seq<u8>, j: int)
    requires
        0 <= j < b.len(),
    ensures
        splice(b, at, s).len() == b.len(),
        at <= j < at + s.len() ==> splice(b, at, s)[j] == s[j - at],
        j < at || at + s.len() <= j ==> splice(b, at, s)[j] == b[j],
{
}

/// Zeroing bytes makes those zero that it is meant for, and changes no others.
pub proof fn theorem_zeroed_bytes(b: Seq<u8>, from: int, to: int, j: int)
    requires
        0 <= j < b.len(),
    ensures
        zeroed(b, from, to).len() == b.len(),
        from <= j < to ==> zeroed(b, from, to)[j] == 0,
        j < from || to <= j ==> zeroed(b, from, to)[j] == b[j],
{
}

/// Zeros are zeros, as many as asked for.
pub proof fn theorem_zeros(n: int, j: int)
    requires
        0 <= j < n,
    ensures
        zeros(n).len() == n,
        zeros(n)[j] == 0,
{
}

} // verus!
