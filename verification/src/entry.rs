//! The fixed-size parts of a table: its header and the entries of its index.

use vstd::prelude::*;

use crate::bytes::{le16, u16_from_le, u16_to_le};
use crate::layout::{ENTRY_SIZE, HEADER_SIZE, VARIABLE_LEN_FLAG};

verus! {

/// The header of a table: how many attributes there are, and how many bytes their values take.
#[derive(Clone, Copy, Debug)]
pub(crate) struct Header(pub(crate) [u8; 4]);

impl Header {
    pub(crate) fn att_count(&self) -> (r: usize)
        ensures
            r == le16(self.0@, 0),
    {
        u16_from_le(self.0[0], self.0[1]) as usize
    }

    pub(crate) fn values_base(&self) -> (r: usize)
        ensures
            r == HEADER_SIZE + ENTRY_SIZE * le16(self.0@, 0),
    {
        HEADER_SIZE + self.att_count() * ENTRY_SIZE
    }

    pub(crate) fn values_len(&self) -> (r: usize)
        ensures
            r == le16(self.0@, 2),
    {
        u16_from_le(self.0[2], self.0[3]) as usize
    }

    pub(crate) fn values_end(&self) -> (r: usize)
        ensures
            r == HEADER_SIZE + ENTRY_SIZE * le16(self.0@, 0) + le16(self.0@, 2),
    {
        self.values_base() + self.values_len()
    }
}

/// The top bit of a word is its flag; the others are the key.
proof fn lemma_flag(word: u16)
    ensures
        word & !VARIABLE_LEN_FLAG == word % VARIABLE_LEN_FLAG,
        word & VARIABLE_LEN_FLAG != 0 <==> word >= VARIABLE_LEN_FLAG,
        word | 0 == word,
        word | VARIABLE_LEN_FLAG == if word >= VARIABLE_LEN_FLAG {
            word as int
        } else {
            word + VARIABLE_LEN_FLAG
        },
{
    assert(word & !0x8000u16 == word % 0x8000u16) by (bit_vector);
    assert(word & 0x8000u16 != 0 <==> word >= 0x8000u16) by (bit_vector);
    assert(word | 0u16 == word) by (bit_vector);
    assert(word >= 0x8000u16 ==> word | 0x8000u16 == word) by (bit_vector);
    assert(word < 0x8000u16 ==> word | 0x8000u16 == word + 0x8000u16) by (bit_vector);
}

/// An entry of the index: the key of an attribute, whether its length is variable, and where its
/// bytes start.
#[derive(Clone, Copy, Debug)]
pub(crate) struct Entry(pub(crate) [u8; 4]);

impl Entry {
    pub(crate) fn key(&self) -> (r: u16)
        ensures
            r == le16(self.0@, 0) % (VARIABLE_LEN_FLAG as int),
            r < VARIABLE_LEN_FLAG,
    {
        let key: u16 = u16_from_le(self.0[0], self.0[1]);
        proof {
            lemma_flag(key);
        }
        key & !VARIABLE_LEN_FLAG
    }

    pub(crate) fn offset(&self) -> (r: usize)
        ensures
            r == le16(self.0@, 2),
            r <= u16::MAX,
    {
        u16_from_le(self.0[2], self.0[3]) as usize
    }

    pub(crate) fn is_variable_len(&self) -> (r: bool)
        ensures
            r <==> le16(self.0@, 0) >= VARIABLE_LEN_FLAG,
    {
        let key: u16 = u16_from_le(self.0[0], self.0[1]);
        proof {
            lemma_flag(key);
        }
        (key & VARIABLE_LEN_FLAG) != 0
    }

    pub(crate) fn set(&mut self, key: u16, offset: u16, variable_len: bool)
        ensures
            le16(final(self).0@, 0) == if variable_len && key < VARIABLE_LEN_FLAG {
                key + VARIABLE_LEN_FLAG
            } else {
                key as int
            },
            le16(final(self).0@, 2) == offset,
    {
        proof {
            lemma_flag(key);
        }
        let flag: u16 = if variable_len {
            VARIABLE_LEN_FLAG
        } else {
            0
        };
        let key = u16_to_le(key | flag);
        let offset = u16_to_le(offset);
        self.0 = [key[0], key[1], offset[0], offset[1]];
    }
}

} // verus!
