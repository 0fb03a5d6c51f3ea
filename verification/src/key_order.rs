//! The order of the keys of the map and array tables: by the id of the map or
//! array first, then by the field name or the index.

use crate::cloudstate::{CloudstateArrayItemKey, CloudstateMapFieldKey};
use std::cmp::Ordering;
use vstd::prelude::*;
use vstd::utf8::encode_utf8;

verus! {

/// The lexicographic order of two byte strings: -1, 0 or 1.
pub open spec fn bytes_order(a: Seq<u8>, b: Seq<u8>) -> int
    decreases a.len(),
{
    if a.len() == 0 {
        if b.len() == 0 {
            0
        } else {
            -1
        }
    } else if b.len() == 0 {
        1
    } else if a[0] < b[0] {
        -1
    } else if a[0] > b[0] {
        1
    } else {
        bytes_order(a.drop_first(), b.drop_first())
    }
}

/// The order of two strings: that of their UTF-8 encodings.
pub open spec fn string_order(a: Seq<char>, b: Seq<char>) -> int {
    bytes_order(encode_utf8(a), encode_utf8(b))
}

/// An ordering as -1, 0 or 1.
pub open spec fn ordering_value(o: Ordering) -> int {
    match o {
        Ordering::Less => -1,
        Ordering::Equal => 0,
        Ordering::Greater => 1,
    }
}

/// The order of two keys given the order of their first parts and that of
/// their second parts.
pub open spec fn then_order(first: int, second: int) -> int {
    if first != 0 {
        first
    } else {
        second
    }
}

/// The order of two indexes.
pub open spec fn index_order(a: i32, b: i32) -> int {
    if a < b {
        -1
    } else if a > b {
        1
    } else {
        0
    }
}

fn order_bytes(a: &[u8], b: &[u8]) -> (r: i8)
    ensures
        r == bytes_order(a@, b@),
{
    let mut i: usize = 0;
    assert(a@.skip(0) =~= a@);
    assert(b@.skip(0) =~= b@);
    while i < a.len() && i < b.len()
        invariant
            i <= a@.len(),
            i <= b@.len(),
            bytes_order(a@, b@) == bytes_order(a@.skip(i as int), b@.skip(i as int)),
        decreases a.len() - i,
    {
        assert(a@.skip(i as int)[0] == a@[i as int]);
        assert(b@.skip(i as int)[0] == b@[i as int]);
        if a[i] < b[i] {
            return -1;
        }
        if a[i] > b[i] {
            return 1;
        }
        assert(a@.skip(i as int).drop_first() =~= a@.skip(i + 1));
        assert(b@.skip(i as int).drop_first() =~= b@.skip(i + 1));
        i = i + 1;
    }
    if i < a.len() {
        1
    } else if i < b.len() {
        -1
    } else {
        0
    }
}

fn order_strings(a: &String, b: &String) -> (r: i8)
    ensures
        r == string_order(a@, b@),
{
    let x = a.as_str().as_bytes();
    let y = b.as_str().as_bytes();
    order_bytes(x, y)
}

fn ordering_of(v: i8) -> (r: Ordering)
    requires
        -1 <= v <= 1,
    ensures
        ordering_value(r) == v,
{
    if v < 0 {
        Ordering::Less
    } else if v > 0 {
        Ordering::Greater
    } else {
        Ordering::Equal
    }
}

impl CloudstateMapFieldKey {
    /// The order of two keys of the maps table: by map id, then by field
    /// name, each compared by its UTF-8 bytes.
    pub fn cmp(&self, other: &Self) -> (r: Ordering)
        ensures
            ordering_value(r) == then_order(
                string_order(self.id@, other.id@),
                string_order(self.field@, other.field@),
            ),
    {
        let first = order_strings(&self.id, &other.id);
        if first != 0 {
            proof {
                lemma_bytes_order_range(encode_utf8(self.id@), encode_utf8(other.id@));
            }
            ordering_of(first)
        } else {
            proof {
                lemma_bytes_order_range(encode_utf8(self.field@), encode_utf8(other.field@));
            }
            ordering_of(order_strings(&self.field, &other.field))
        }
    }

    /// [`Self::cmp`], which orders every pair of keys.
    pub fn partial_cmp(&self, other: &Self) -> (r: Option<Ordering>)
        ensures
            r matches Some(o) && ordering_value(o) == then_order(
                string_order(self.id@, other.id@),
                string_order(self.field@, other.field@),
            ),
    {
        Some(self.cmp(other))
    }
}

impl CloudstateArrayItemKey {
    /// The order of two keys of the arrays table: by array id, compared by its
    /// UTF-8 bytes, then by index.
    pub fn cmp(&self, other: &Self) -> (r: Ordering)
        ensures
            ordering_value(r) == then_order(
                string_order(self.id@, other.id@),
                index_order(self.index, other.index),
            ),
    {
        let first = order_strings(&self.id, &other.id);
        if first != 0 {
            proof {
                lemma_bytes_order_range(encode_utf8(self.id@), encode_utf8(other.id@));
            }
            ordering_of(first)
        } else if self.index < other.index {
            Ordering::Less
        } else if self.index > other.index {
            Ordering::Greater
        } else {
            Ordering::Equal
        }
    }

    /// [`Self::cmp`], which orders every pair of keys.
    pub fn partial_cmp(&self, other: &Self) -> (r: Option<Ordering>)
        ensures
            r matches Some(o) && ordering_value(o) == then_order(
                string_order(self.id@, other.id@),
                index_order(self.index, other.index),
            ),
    {
        Some(self.cmp(other))
    }
}

/// The order of byte strings is -1, 0 or 1.
pub proof fn lemma_bytes_order_range(a: Seq<u8>, b: Seq<u8>)
    ensures
        -1 <= bytes_order(a, b) <= 1,
    decreases a.len(),
{
    if a.len() > 0 && b.len() > 0 && a[0] == b[0] {
        lemma_bytes_order_range(a.drop_first(), b.drop_first());
    }
}

/// Byte strings are equal in the order exactly when they are equal, and
/// swapping them reverses their order.
pub proof fn lemma_bytes_order_antisymmetric(a: Seq<u8>, b: Seq<u8>)
    ensures
        bytes_order(a, b) == 0 <==> a == b,
        bytes_order(b, a) == -bytes_order(a, b),
    decreases a.len(),
{
    if a.len() == 0 && b.len() == 0 {
        assert(a =~= b);
    } else if a.len() > 0 && b.len() > 0 && a[0] == b[0] {
        lemma_bytes_order_antisymmetric(a.drop_first(), b.drop_first());
        if a.drop_first() == b.drop_first() {
            assert(a =~= seq![a[0]] + a.drop_first());
            assert(b =~= seq![b[0]] + b.drop_first());
        }
    } else if a.len() > 0 && b.len() > 0 {
        assert(a[0] != b[0]);
    }
}

/// Two strings are equal in the order exactly when they are equal, and
/// swapping them reverses their order.
pub proof fn lemma_string_order_antisymmetric(a: Seq<char>, b: Seq<char>)
    ensures
        string_order(a, b) == 0 <==> a == b,
        string_order(b, a) == -string_order(a, b),
{
    lemma_bytes_order_antisymmetric(encode_utf8(a), encode_utf8(b));
    vstd::utf8::encode_utf8_decode_utf8(a);
    vstd::utf8::encode_utf8_decode_utf8(b);
}

/// Two keys of the maps table compare equal exactly when their ids and field
/// names are equal, and swapping them reverses the order.
pub proof fn lemma_map_key_order(a_id: Seq<char>, a_field: Seq<char>, b_id: Seq<char>, b_field: Seq<char>)
    ensures
        then_order(string_order(a_id, b_id), string_order(a_field, b_field)) == 0 <==> (a_id
            == b_id && a_field == b_field),
        then_order(string_order(b_id, a_id), string_order(b_field, a_field)) == -then_order(
            string_order(a_id, b_id),
            string_order(a_field, b_field),
        ),
{
    lemma_string_order_antisymmetric(a_id, b_id);
    lemma_string_order_antisymmetric(a_field, b_field);
}

/// Two keys of the arrays table compare equal exactly when their ids and
/// indexes are equal, and swapping them reverses the order.
pub proof fn lemma_array_key_order(a_id: Seq<char>, a_index: i32, b_id: Seq<char>, b_index: i32)
    ensures
        then_order(string_order(a_id, b_id), index_order(a_index, b_index)) == 0 <==> (
        a_id == b_id && a_index == b_index),
        then_order(string_order(b_id, a_id), index_order(b_index, a_index))
            == -then_order(string_order(a_id, b_id), index_order(a_index, b_index)),
{
    lemma_string_order_antisymmetric(a_id, b_id);
}

} // verus!
