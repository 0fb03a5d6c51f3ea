//! What each JavaScript op of the runtime computes from the table entries it
//! reads: the value it hands back to JavaScript and the edits it makes to its
//! table.
//!
//! An op that looks up one key takes what the lookup found; an op that walks a
//! table takes the table's entries in the table's order.

use vstd::prelude::*;
use crate::cloudstate::{
    CloudstateArrayItemKey, CloudstateArrayItemValue, CloudstateMapFieldKey,
    CloudstateMapFieldValue, CloudstateObjectData, CloudstateObjectKey, CloudstateObjectValue,
    CloudstatePrimitiveData, CloudstateRootKey, CloudstateRootValue, ObjectReference, ObjectView,
    PrimitiveValue, fields_view,
};
use crate::blob_storage::{
    BlobStorageError, CloudstateBlobMetadata, CloudstateBlobStorage, CloudstateBlobStorageEngine,
    CloudstateBlobValue, blob_slice, slice_in_bounds,
};
use crate::cloudstate::CloudstateBlobKey;
use crate::table::{
    TableEdit, apply_edit, apply_edits, entries_view, keys_unique, lemma_table_map_dom,
    lemma_table_map_index, table_map,
};

verus! {

/// Why an op refused a request.
#[derive(Debug)]
pub enum CloudstateOpError {
    ObjectNotFound,
    BlobNotFound,
}

impl CloudstateOpError {
    /// The message that JavaScript is handed for the error.
    pub fn message(&self) -> (r: String)
        ensures
            r@ == match self {
                CloudstateOpError::ObjectNotFound => "Object not found"@,
                CloudstateOpError::BlobNotFound => "Blob not found"@,
            },
    {
        match self {
            CloudstateOpError::ObjectNotFound => String::from_str("Object not found"),
            CloudstateOpError::BlobNotFound => String::from_str("Blob not found"),
        }
    }
}

/// Entries of the maps table, by view.
pub type MapsView = Seq<((Seq<char>, Seq<char>), PrimitiveValue)>;

/// Entries of the arrays table, by view.
pub type ArraysView = Seq<((Seq<char>, i32), PrimitiveValue)>;

/// The entries of the map `id`, in table order.
pub open spec fn map_entries_of(maps: MapsView, id: Seq<char>) -> MapsView
    decreases maps.len(),
{
    if maps.len() == 0 {
        Seq::empty()
    } else {
        let rest = map_entries_of(maps.drop_last(), id);
        if maps.last().0.0 == id {
            rest.push(maps.last())
        } else {
            rest
        }
    }
}

/// The items of the array `id`, in table order.
pub open spec fn array_items_of(arrays: ArraysView, id: Seq<char>) -> ArraysView
    decreases arrays.len(),
{
    if arrays.len() == 0 {
        Seq::empty()
    } else {
        let rest = array_items_of(arrays.drop_last(), id);
        if arrays.last().0.0 == id {
            rest.push(arrays.last())
        } else {
            rest
        }
    }
}

/// The key lies in the range from `(id, 0)` up to `(id` followed by a NUL
/// character`, 0)`: it is an item of `id` at an index of at least zero, or an
/// item of the id that follows with a NUL character at a negative index.
pub open spec fn in_length_range(key: (Seq<char>, i32), id: Seq<char>) -> bool {
    (key.0 == id && key.1 >= 0) || (key.0 == id.push('\0') && key.1 < 0)
}

/// The items in the length range of the array `id`, in table order.
pub open spec fn array_length_items(arrays: ArraysView, id: Seq<char>) -> ArraysView
    decreases arrays.len(),
{
    if arrays.len() == 0 {
        Seq::empty()
    } else {
        let rest = array_length_items(arrays.drop_last(), id);
        if in_length_range(arrays.last().0, id) {
            rest.push(arrays.last())
        } else {
            rest
        }
    }
}

pub open spec fn string_value(s: Seq<char>) -> PrimitiveValue {
    PrimitiveValue::String(s)
}

pub open spec fn primitive_views(s: Seq<CloudstatePrimitiveData>) -> Seq<PrimitiveValue> {
    s.map_values(|p: CloudstatePrimitiveData| p@)
}

pub open spec fn pair_views(s: Seq<Vec<CloudstatePrimitiveData>>) -> Seq<Seq<PrimitiveValue>> {
    s.map_values(|p: Vec<CloudstatePrimitiveData>| primitive_views(p@))
}

pub open spec fn string_views(s: Seq<String>) -> Seq<Seq<char>> {
    s.map_values(|p: String| p@)
}

fn string_eq(a: &String, b: &String) -> (r: bool)
    ensures
        r == (a@ == b@),
{
    *a == *b
}

/// The edit that stores `value` as the object `id`.
pub fn op_cloudstate_object_set(id: String, value: CloudstateObjectData) -> (edit: TableEdit<
    CloudstateObjectKey,
    CloudstateObjectValue,
>)
    ensures
        edit@ == TableEdit::<Seq<char>, ObjectView>::Insert(id@, value@),
{
    TableEdit::Insert(CloudstateObjectKey { id }, CloudstateObjectValue { data: value })
}

/// What a key's lookup in a table finds.
pub open spec fn lookup<K, V>(m: Map<K, V>, k: K) -> Option<V> {
    if m.contains_key(k) {
        Some(m[k])
    } else {
        None
    }
}

/// A looked-up value taken by its view.
pub open spec fn stored_view<T: View>(stored: Option<T>) -> Option<T::V> {
    match stored {
        Some(v) => Some(v@),
        None => None,
    }
}

/// What getting an object answers for what the lookup of its id found.
pub open spec fn object_get_answer(stored: Option<ObjectView>) -> Result<ObjectView, CloudstateOpError> {
    match stored {
        Some(v) => Ok(v),
        None => Err(CloudstateOpError::ObjectNotFound),
    }
}

/// What asking for a blob's type answers for what the lookup of its metadata
/// found.
pub open spec fn blob_type_answer(stored: Option<Seq<char>>) -> Result<Seq<char>, CloudstateOpError> {
    match stored {
        Some(t) => Ok(t),
        None => Err(CloudstateOpError::BlobNotFound),
    }
}

/// A result whose value is taken by its view.
pub open spec fn result_view<T: View>(r: Result<T, CloudstateOpError>) -> Result<T::V, CloudstateOpError> {
    match r {
        Ok(v) => Ok(v@),
        Err(e) => Err(e),
    }
}

/// The stored object, or why there is none.
pub fn op_cloudstate_object_get(stored: Option<CloudstateObjectValue>) -> (r: Result<
    CloudstateObjectData,
    CloudstateOpError,
>)
    ensures
        result_view(r) == object_get_answer(stored_view(stored)),
{
    match stored {
        Some(v) => Ok(v.data),
        None => Err(CloudstateOpError::ObjectNotFound),
    }
}

/// The aliases of all roots, in table order.
pub fn op_cloudstate_list_roots(roots: &Vec<(CloudstateRootKey, CloudstateRootValue)>) -> (r: Vec<
    String,
>)
    ensures
        string_views(r@) == entries_view(roots@).map_values(
            |e: (Seq<char>, Seq<char>)| e.0,
        ),
{
    let ghost rv = entries_view(roots@);
    let mut out: Vec<String> = Vec::new();
    for i in 0..roots.len()
        invariant
            rv == entries_view(roots@),
            string_views(out@) == rv.take(i as int).map_values(|e: (Seq<char>, Seq<char>)| e.0),
    {
        let ghost before = string_views(out@);
        let alias = roots[i].0.alias.clone();
        out.push(alias);
        assert(string_views(out@) =~= before.push(alias@));
        assert(rv[i as int].0 == roots@[i as int].0@);
        assert(string_views(out@) =~= rv.take(i + 1).map_values(|e: (Seq<char>, Seq<char>)| e.0));
    }
    assert(rv.take(roots.len() as int) =~= rv);
    out
}

/// The edit that stores `value` under `field` in the map `id`.
pub fn op_cloudstate_map_set(id: String, field: String, value: CloudstatePrimitiveData) -> (edit:
    TableEdit<CloudstateMapFieldKey, CloudstateMapFieldValue>)
    ensures
        edit@ == TableEdit::<(Seq<char>, Seq<char>), PrimitiveValue>::Insert(
            (id@, field@),
            value@,
        ),
{
    TableEdit::Insert(CloudstateMapFieldKey { id, field }, CloudstateMapFieldValue { data: value })
}

/// Deleting `field` from the map `map_id`: the edit, and whether the entry
/// existed.
pub fn op_cloudstate_map_delete(map_id: String, field: String, stored: Option<CloudstateMapFieldValue>) -> (r: (
    TableEdit<CloudstateMapFieldKey, CloudstateMapFieldValue>,
    bool,
))
    ensures
        r.0@ == TableEdit::<(Seq<char>, Seq<char>), PrimitiveValue>::Remove((map_id@, field@)),
        r.1 == stored is Some,
{
    (TableEdit::Remove(CloudstateMapFieldKey { id: map_id, field }), stored.is_some())
}

/// The value stored under a map field, or `undefined`.
pub fn op_cloudstate_map_get(stored: Option<CloudstateMapFieldValue>) -> (r: CloudstatePrimitiveData)
    ensures
        r@ == match stored {
            Some(v) => v.data@,
            None => PrimitiveValue::Undefined,
        },
{
    match stored {
        Some(v) => v.data,
        None => CloudstatePrimitiveData::Undefined,
    }
}

/// Whether a map field is stored, as a JavaScript boolean.
pub fn op_cloudstate_map_has(stored: Option<CloudstateMapFieldValue>) -> (r: CloudstatePrimitiveData)
    ensures
        r@ == PrimitiveValue::Boolean(stored is Some),
{
    match stored {
        Some(_) => CloudstatePrimitiveData::Boolean(true),
        None => CloudstatePrimitiveData::Boolean(false),
    }
}

/// The edit that stores `value` at `index` of the array `id`.
pub fn op_cloudstate_array_set(id: String, index: i32, value: CloudstatePrimitiveData) -> (edit:
    TableEdit<CloudstateArrayItemKey, CloudstateArrayItemValue>)
    ensures
        edit@ == TableEdit::<(Seq<char>, i32), PrimitiveValue>::Insert((id@, index), value@),
{
    TableEdit::Insert(CloudstateArrayItemKey { id, index }, CloudstateArrayItemValue { data: value })
}

/// The item stored at an array index, or `undefined`.
pub fn op_cloudstate_array_get(stored: Option<CloudstateArrayItemValue>) -> (r: CloudstatePrimitiveData)
    ensures
        r@ == match stored {
            Some(v) => v.data@,
            None => PrimitiveValue::Undefined,
        },
{
    match stored {
        Some(v) => v.data,
        None => CloudstatePrimitiveData::Undefined,
    }
}

/// The id of the root object stored under an alias, if any.
pub fn op_cloudstate_object_root_get(stored: Option<CloudstateRootValue>) -> (r: Option<String>)
    ensures
        match stored {
            Some(v) => r matches Some(id) && id@ == v.id@,
            None => r is None,
        },
        stored_view(r) == stored_view(stored),
{
    match stored {
        Some(v) => Some(v.id),
        None => None,
    }
}

/// The edit that stores the object `id` as the root `alias`.
pub fn op_cloudstate_object_root_set(alias: String, id: String) -> (edit: TableEdit<
    CloudstateRootKey,
    CloudstateRootValue,
>)
    ensures
        edit@ == TableEdit::<Seq<char>, Seq<char>>::Insert(alias@, id@),
{
    TableEdit::Insert(CloudstateRootKey { alias }, CloudstateRootValue { id })
}

/// The number of entries of the map `map_id`.
pub fn op_cloudstate_map_size(map_id: &String, maps: &Vec<(CloudstateMapFieldKey, CloudstateMapFieldValue)>) -> (r: i32)
    requires
        maps@.len() <= i32::MAX,
    ensures
        r == map_entries_of(entries_view(maps@), map_id@).len(),
{
    let ghost mv = entries_view(maps@);
    let mut count: i32 = 0;
    for i in 0..maps.len()
        invariant
            mv == entries_view(maps@),
            maps@.len() <= i32::MAX,
            count == map_entries_of(mv.take(i as int), map_id@).len(),
            count <= i,
    {
        assert(mv.take(i + 1).drop_last() =~= mv.take(i as int));
        assert(mv[i as int].0 == maps@[i as int].0@);
        if string_eq(&maps[i].0.id, map_id) {
            count = count + 1;
        }
    }
    assert(mv.take(maps.len() as int) =~= mv);
    count
}

/// The fields of the map `map_id` as JavaScript strings, in table order.
pub fn op_cloudstate_map_keys(map_id: &String, maps: &Vec<(CloudstateMapFieldKey, CloudstateMapFieldValue)>) -> (r: Vec<CloudstatePrimitiveData>)
    ensures
        primitive_views(r@) == map_entries_of(entries_view(maps@), map_id@).map_values(
            |e: ((Seq<char>, Seq<char>), PrimitiveValue)| string_value(e.0.1),
        ),
{
    let ghost mv = entries_view(maps@);
    let mut out: Vec<CloudstatePrimitiveData> = Vec::new();
    for i in 0..maps.len()
        invariant
            mv == entries_view(maps@),
            primitive_views(out@) == map_entries_of(mv.take(i as int), map_id@).map_values(
                |e: ((Seq<char>, Seq<char>), PrimitiveValue)| string_value(e.0.1),
            ),
    {
        assert(mv.take(i + 1).drop_last() =~= mv.take(i as int));
        assert(mv[i as int] == (maps@[i as int].0@, maps@[i as int].1@));
        if string_eq(&maps[i].0.id, map_id) {
            let ghost before = primitive_views(out@);
            let key = CloudstatePrimitiveData::String(maps[i].0.field.clone());
            out.push(key);
            assert(primitive_views(out@) =~= before.push(key@));
        }
        assert(primitive_views(out@) =~= map_entries_of(mv.take(i + 1), map_id@).map_values(
            |e: ((Seq<char>, Seq<char>), PrimitiveValue)| string_value(e.0.1),
        ));
    }
    assert(mv.take(maps.len() as int) =~= mv);
    out
}

/// The values of the map `map_id`, in table order.
pub fn op_cloudstate_map_values(map_id: &String, maps: &Vec<(CloudstateMapFieldKey, CloudstateMapFieldValue)>) -> (r: Vec<CloudstatePrimitiveData>)
    ensures
        primitive_views(r@) == map_entries_of(entries_view(maps@), map_id@).map_values(
            |e: ((Seq<char>, Seq<char>), PrimitiveValue)| e.1,
        ),
{
    let ghost mv = entries_view(maps@);
    let mut out: Vec<CloudstatePrimitiveData> = Vec::new();
    for i in 0..maps.len()
        invariant
            mv == entries_view(maps@),
            primitive_views(out@) == map_entries_of(mv.take(i as int), map_id@).map_values(
                |e: ((Seq<char>, Seq<char>), PrimitiveValue)| e.1,
            ),
    {
        assert(mv.take(i + 1).drop_last() =~= mv.take(i as int));
        assert(mv[i as int] == (maps@[i as int].0@, maps@[i as int].1@));
        if string_eq(&maps[i].0.id, map_id) {
            let ghost before = primitive_views(out@);
            let value = maps[i].1.data.clone();
            out.push(value);
            assert(primitive_views(out@) =~= before.push(value@));
        }
        assert(primitive_views(out@) =~= map_entries_of(mv.take(i + 1), map_id@).map_values(
            |e: ((Seq<char>, Seq<char>), PrimitiveValue)| e.1,
        ));
    }
    assert(mv.take(maps.len() as int) =~= mv);
    out
}

/// The entries of the map `map_id` as `[field, value]` pairs, in table order.
pub fn op_cloudstate_map_entries(map_id: &String, maps: &Vec<(CloudstateMapFieldKey, CloudstateMapFieldValue)>) -> (r: Vec<Vec<CloudstatePrimitiveData>>)
    ensures
        pair_views(r@) == map_entries_of(entries_view(maps@), map_id@).map_values(
            |e: ((Seq<char>, Seq<char>), PrimitiveValue)| seq![string_value(e.0.1), e.1],
        ),
{
    let ghost mv = entries_view(maps@);
    let mut out: Vec<Vec<CloudstatePrimitiveData>> = Vec::new();
    for i in 0..maps.len()
        invariant
            mv == entries_view(maps@),
            pair_views(out@) == map_entries_of(mv.take(i as int), map_id@).map_values(
                |e: ((Seq<char>, Seq<char>), PrimitiveValue)| seq![string_value(e.0.1), e.1],
            ),
    {
        assert(mv.take(i + 1).drop_last() =~= mv.take(i as int));
        assert(mv[i as int] == (maps@[i as int].0@, maps@[i as int].1@));
        if string_eq(&maps[i].0.id, map_id) {
            let ghost before = pair_views(out@);
            let mut pair: Vec<CloudstatePrimitiveData> = Vec::new();
            pair.push(CloudstatePrimitiveData::String(maps[i].0.field.clone()));
            pair.push(maps[i].1.data.clone());
            assert(primitive_views(pair@) =~= seq![string_value(mv[i as int].0.1), mv[i as int].1]);
            out.push(pair);
            assert(pair_views(out@) =~= before.push(primitive_views(pair@)));
        }
        assert(pair_views(out@) =~= map_entries_of(mv.take(i + 1), map_id@).map_values(
            |e: ((Seq<char>, Seq<char>), PrimitiveValue)| seq![string_value(e.0.1), e.1],
        ));
    }
    assert(mv.take(maps.len() as int) =~= mv);
    out
}

/// Removals of every entry of the map `id`, in table order.
pub open spec fn clear_edits(maps: MapsView, id: Seq<char>) -> Seq<
    TableEdit<(Seq<char>, Seq<char>), PrimitiveValue>,
>
    decreases maps.len(),
{
    if maps.len() == 0 {
        Seq::empty()
    } else {
        let rest = clear_edits(maps.drop_last(), id);
        if maps.last().0.0 == id {
            rest.push(TableEdit::Remove(maps.last().0))
        } else {
            rest
        }
    }
}

/// The edits that remove every entry of the map `map_id`, in table order.
pub fn op_cloudstate_map_clear(map_id: &String, maps: &Vec<(CloudstateMapFieldKey, CloudstateMapFieldValue)>) -> (edits: Vec<TableEdit<CloudstateMapFieldKey, CloudstateMapFieldValue>>)
    ensures
        crate::table::edits_view(edits@) == clear_edits(entries_view(maps@), map_id@),
        forall|f: Seq<char>|
            !(#[trigger] apply_edits(table_map(entries_view(maps@)), crate::table::edits_view(edits@)).contains_key(
                (map_id@, f),
            )),
        forall|k: (Seq<char>, Seq<char>)|
            k.0 != map_id@ ==> (#[trigger] apply_edits(table_map(entries_view(maps@)), crate::table::edits_view(edits@)).contains_key(k))
                == table_map(entries_view(maps@)).contains_key(k),
{
    let ghost mv = entries_view(maps@);
    let mut out: Vec<TableEdit<CloudstateMapFieldKey, CloudstateMapFieldValue>> = Vec::new();
    for i in 0..maps.len()
        invariant
            mv == entries_view(maps@),
            crate::table::edits_view(out@) == clear_edits(mv.take(i as int), map_id@),
    {
        assert(mv.take(i + 1).drop_last() =~= mv.take(i as int));
        assert(mv[i as int] == (maps@[i as int].0@, maps@[i as int].1@));
        if string_eq(&maps[i].0.id, map_id) {
            let ghost before = crate::table::edits_view(out@);
            let edit = TableEdit::Remove(maps[i].0.clone());
            out.push(edit);
            assert(crate::table::edits_view(out@) =~= before.push(edit@));
        }
        assert(crate::table::edits_view(out@) =~= clear_edits(mv.take(i + 1), map_id@));
    }
    assert(mv.take(maps.len() as int) =~= mv);
    proof {
        lemma_clear_effect(mv, map_id@);
    }
    out
}

/// The length of the array `id`: the number of entries in the key range from
/// `(id, 0)` up to `(id` followed by a NUL character`, 0)`, which are its items
/// at an index of at least zero and the negative items of the id that follows
/// it with a NUL character.
pub fn op_cloudstate_array_length(id: &String, arrays: &Vec<(CloudstateArrayItemKey, CloudstateArrayItemValue)>) -> (r: i32)
    requires
        arrays@.len() <= i32::MAX,
    ensures
        r == array_length_items(entries_view(arrays@), id@).len(),
{
    let ghost av = entries_view(arrays@);
    let mut next_id = id.clone();
    next_id.append("\u{0}");
    proof {
        reveal_strlit("\u{0}");
        assert(next_id@ =~= id@.push('\0'));
    }
    let mut count: i32 = 0;
    for i in 0..arrays.len()
        invariant
            av == entries_view(arrays@),
            arrays@.len() <= i32::MAX,
            next_id@ == id@.push('\0'),
            count == array_length_items(av.take(i as int), id@).len(),
            count <= i,
    {
        assert(av.take(i + 1).drop_last() =~= av.take(i as int));
        assert(av[i as int].0 == arrays@[i as int].0@);
        let key = &arrays[i].0;
        let in_range = (string_eq(&key.id, id) && key.index >= 0) || (string_eq(&key.id, &next_id)
            && key.index < 0);
        if in_range {
            count = count + 1;
        }
    }
    assert(av.take(arrays.len() as int) =~= av);
    count
}

/// Within each array, items come in ascending order of their index, as the
/// table orders its keys.
pub open spec fn items_ascending(arrays: ArraysView) -> bool {
    forall|i: int, j: int|
        0 <= i < j < arrays.len() && arrays[i].0.0 == arrays[j].0.0 ==> arrays[i].0.1
            < arrays[j].0.1
}

proof fn lemma_array_items_len(arrays: ArraysView, id: Seq<char>)
    ensures
        array_items_of(arrays, id).len() <= arrays.len(),
        forall|i: int|
            0 <= i < array_items_of(arrays, id).len() ==> (#[trigger] array_items_of(arrays, id)[i]).0.0
                == id,
    decreases arrays.len(),
{
    if arrays.len() > 0 {
        lemma_array_items_len(arrays.drop_last(), id);
    }
}

/// The positions of the items of the array `id`, in table order.
fn positions_of_array(id: &String, arrays: &Vec<(CloudstateArrayItemKey, CloudstateArrayItemValue)>) -> (r: Vec<usize>)
    ensures
        r@.len() == array_items_of(entries_view(arrays@), id@).len(),
        forall|k: int| 0 <= k < r@.len() ==> #[trigger] r@[k] < arrays@.len(),
        forall|k: int|
            0 <= k < r@.len() ==> entries_view(arrays@)[#[trigger] r@[k] as int] == array_items_of(
                entries_view(arrays@),
                id@,
            )[k],
        forall|k: int, l: int| 0 <= k < l < r@.len() ==> r@[k] < r@[l],
{
    let ghost av = entries_view(arrays@);
    let mut out: Vec<usize> = Vec::new();
    for i in 0..arrays.len()
        invariant
            av == entries_view(arrays@),
            av.len() == arrays@.len(),
            out@.len() == array_items_of(av.take(i as int), id@).len(),
            forall|k: int| 0 <= k < out@.len() ==> #[trigger] out@[k] < i,
            forall|k: int|
                0 <= k < out@.len() ==> av[#[trigger] out@[k] as int] == array_items_of(
                    av.take(i as int),
                    id@,
                )[k],
            forall|k: int, l: int| 0 <= k < l < out@.len() ==> out@[k] < out@[l],
    {
        let ghost prev = array_items_of(av.take(i as int), id@);
        let ghost old_out = out@;
        assert(av.take(i + 1).drop_last() =~= av.take(i as int));
        assert(av.take(i + 1).last() == av[i as int]);
        assert(av[i as int].0 == arrays@[i as int].0@);
        if string_eq(&arrays[i].0.id, id) {
            out.push(i);
            assert(array_items_of(av.take(i + 1), id@) == prev.push(av[i as int]));
            assert forall|k: int|
                0 <= k < out@.len() implies av[#[trigger] out@[k] as int] == array_items_of(
                    av.take(i + 1),
                    id@,
                )[k] by {
                if k < old_out.len() {
                    assert(out@[k] == old_out[k]);
                }
            }
        } else {
            assert(array_items_of(av.take(i + 1), id@) == prev);
        }
    }
    assert(av.take(arrays.len() as int) =~= av);
    out
}

/// Popping the array `array_id`: the edit, if any, and the popped item.
///
/// The array's length is the number of its items; the item at the last index
/// of that length is removed and handed back. An empty array, or one with no
/// item at that index, hands back `undefined` and stays as it is.
pub fn op_cloudstate_array_pop(array_id: &String, arrays: &Vec<(CloudstateArrayItemKey, CloudstateArrayItemValue)>) -> (r: (
    Option<TableEdit<CloudstateArrayItemKey, CloudstateArrayItemValue>>,
    CloudstatePrimitiveData,
))
    requires
        arrays@.len() <= i32::MAX,
        keys_unique(entries_view(arrays@)),
    ensures
        ({
            let items = array_items_of(entries_view(arrays@), array_id@);
            let n = items.len();
            if exists|i: int| 0 <= i < n && items[i].0.1 == n - 1 {
                forall|i: int|
                    0 <= i < n && items[i].0.1 == n - 1 ==> {
                        &&& r.0 matches Some(e) && e@ == TableEdit::<
                            (Seq<char>, i32),
                            PrimitiveValue,
                        >::Remove(items[i].0)
                        &&& r.1@ == items[i].1
                    }
            } else {
                r.0 is None && r.1@ == PrimitiveValue::Undefined
            }
        }),
{
    let ghost av = entries_view(arrays@);
    let ghost items = array_items_of(av, array_id@);
    let positions = positions_of_array(array_id, arrays);
    proof {
        lemma_array_items_len(av, array_id@);
    }
    let length = positions.len() as i32;
    if length == 0 {
        return (None, CloudstatePrimitiveData::Undefined);
    }
    let mut k: usize = 0;
    while k < positions.len()
        invariant
            av == entries_view(arrays@),
            items == array_items_of(av, array_id@),
            positions@.len() == items.len(),
            length == items.len(),
            forall|x: int| 0 <= x < positions@.len() ==> #[trigger] positions@[x] < arrays@.len(),
            forall|x: int|
                0 <= x < positions@.len() ==> av[#[trigger] positions@[x] as int] == items[x],
            forall|x: int, y: int| 0 <= x < y < positions@.len() ==> positions@[x] < positions@[y],
            forall|x: int| 0 <= x < k ==> items[x].0.1 != length - 1,
            forall|x: int| 0 <= x < items.len() ==> (#[trigger] items[x]).0.0 == array_id@,
            keys_unique(av),
        decreases positions.len() - k,
    {
        let pos = positions[k];
        assert(av[pos as int] == items[k as int]);
        assert(av[pos as int].0 == arrays@[pos as int].0@);
        assert(av[pos as int].1 == arrays@[pos as int].1@);
        if arrays[pos].0.index == length - 1 {
            proof {
                assert(items[k as int].0.1 == length - 1);
                assert forall|c: int| 0 <= c < items.len() && items[c].0.1 == length - 1 implies c
                    == k by {
                    if c != k {
                        assert(av[positions@[c] as int] == items[c]);
                        assert(positions@[c] != positions@[k as int]);
                        assert(items[c].0.0 == array_id@);
                        assert(items[k as int].0.0 == array_id@);
                        assert(av[positions@[c] as int].0 == av[pos as int].0);
                    }
                }
            }
            let edit = TableEdit::Remove(arrays[pos].0.clone());
            return (Some(edit), arrays[pos].1.data.clone());
        }
        k += 1;
    }
    (None, CloudstatePrimitiveData::Undefined)
}

/// The edits that reversing writes: the key of each item takes the value of
/// the item as far from the end as it is from the start.
pub open spec fn reverse_edits(items: ArraysView) -> Seq<TableEdit<(Seq<char>, i32), PrimitiveValue>> {
    Seq::new(
        items.len(),
        |i: int|
            TableEdit::<(Seq<char>, i32), PrimitiveValue>::Insert(
                items[i].0,
                items[items.len() - 1 - i].1,
            ),
    )
}

/// Reversing the array `array_id`: its first item's key takes the last item's
/// value, and so on.
pub fn op_cloudstate_array_reverse(array_id: &String, arrays: &Vec<(CloudstateArrayItemKey, CloudstateArrayItemValue)>) -> (edits: Vec<TableEdit<CloudstateArrayItemKey, CloudstateArrayItemValue>>)
    ensures
        ({
            let items = array_items_of(entries_view(arrays@), array_id@);
            crate::table::edits_view(edits@) == reverse_edits(items)
        }),
        keys_unique(entries_view(arrays@)) ==> ({
            let m = table_map(entries_view(arrays@));
            let items = array_items_of(entries_view(arrays@), array_id@);
            let r = apply_edits(m, crate::table::edits_view(edits@));
            &&& r.dom() == m.dom()
            &&& forall|i: int|
                0 <= i < items.len() ==> r[#[trigger] items[i].0] == items[items.len() - 1 - i].1
            &&& forall|k: (Seq<char>, i32)| k.0 != array_id@ ==> r[k] == m[k]
        }),
{
    let ghost av = entries_view(arrays@);
    let ghost items = array_items_of(av, array_id@);
    proof {
        if keys_unique(av) {
            lemma_reverse_effect(av, array_id@);
        }
    }
    let positions = positions_of_array(array_id, arrays);
    let n = positions.len();
    let mut edits: Vec<TableEdit<CloudstateArrayItemKey, CloudstateArrayItemValue>> = Vec::new();
    for k in 0..n
        invariant
            av == entries_view(arrays@),
            items == array_items_of(av, array_id@),
            n == positions@.len(),
            positions@.len() == items.len(),
            forall|x: int| 0 <= x < positions@.len() ==> #[trigger] positions@[x] < arrays@.len(),
            forall|x: int|
                0 <= x < positions@.len() ==> av[#[trigger] positions@[x] as int] == items[x],
            crate::table::edits_view(edits@) == Seq::new(
                k as nat,
                |i: int|
                    TableEdit::<(Seq<char>, i32), PrimitiveValue>::Insert(
                        items[i].0,
                        items[items.len() - 1 - i].1,
                    ),
            ),
    {
        let pos = positions[k];
        let src = positions[n - 1 - k];
        assert(av[pos as int] == items[k as int]);
        assert(av[src as int] == items[n - 1 - k]);
        assert(av[pos as int].0 == arrays@[pos as int].0@);
        assert(av[src as int].1 == arrays@[src as int].1@);
        let ghost before = crate::table::edits_view(edits@);
        let edit = TableEdit::Insert(arrays[pos].0.clone(), CloudstateArrayItemValue { data: arrays[src].1.data.clone() });
        edits.push(edit);
        assert(crate::table::edits_view(edits@) =~= before.push(edit@));
        assert(crate::table::edits_view(edits@) =~= Seq::new(
            (k + 1) as nat,
            |i: int|
                TableEdit::<(Seq<char>, i32), PrimitiveValue>::Insert(
                    items[i].0,
                    items[items.len() - 1 - i].1,
                ),
        ));
    }
    assert(crate::table::edits_view(edits@) =~= reverse_edits(items));
    edits
}

/// The edits that shifting makes for each item, first to last: each item is
/// removed, and one at an index of at least one is stored again one index
/// lower.
pub open spec fn shift_edits(items: ArraysView) -> Seq<TableEdit<(Seq<char>, i32), PrimitiveValue>>
    decreases items.len(),
{
    if items.len() == 0 {
        Seq::empty()
    } else {
        let last = items.last();
        let rest = shift_edits(items.drop_last()).push(TableEdit::Remove(last.0));
        if last.0.1 >= 1 {
            rest.push(TableEdit::Insert((last.0.0, (last.0.1 - 1) as i32), last.1))
        } else {
            rest
        }
    }
}

/// What shifting hands back: the value of the last item at an index below
/// one, or `undefined` when there is none.
pub open spec fn shift_result(items: ArraysView) -> PrimitiveValue
    decreases items.len(),
{
    if items.len() == 0 {
        PrimitiveValue::Undefined
    } else if items.last().0.1 < 1 {
        items.last().1
    } else {
        shift_result(items.drop_last())
    }
}

/// Shifting the array `array_id`: the edits, in the order in which they are
/// made, and the value handed back.
pub fn op_cloudstate_array_shift(array_id: &String, arrays: &Vec<(CloudstateArrayItemKey, CloudstateArrayItemValue)>) -> (r: (Vec<TableEdit<CloudstateArrayItemKey, CloudstateArrayItemValue>>, CloudstatePrimitiveData))
    requires
        forall|i: int|
            0 <= i < arrays@.len() && arrays@[i].0.id@ == array_id@ ==> arrays@[i].0.index
                > i32::MIN,
    ensures
        crate::table::edits_view(r.0@) == shift_edits(array_items_of(entries_view(arrays@), array_id@)),
        r.1@ == shift_result(array_items_of(entries_view(arrays@), array_id@)),
        keys_unique(entries_view(arrays@)) && items_ascending(entries_view(arrays@)) ==> apply_edits(
            table_map(entries_view(arrays@)),
            crate::table::edits_view(r.0@),
        ) == shifted_table(table_map(entries_view(arrays@)), array_id@),
{
    let ghost av = entries_view(arrays@);
    let mut edits: Vec<TableEdit<CloudstateArrayItemKey, CloudstateArrayItemValue>> = Vec::new();
    let mut result: Option<CloudstatePrimitiveData> = None;
    for i in 0..arrays.len()
        invariant
            av == entries_view(arrays@),
            av.len() == arrays@.len(),
            forall|j: int|
                0 <= j < arrays@.len() && arrays@[j].0.id@ == array_id@ ==> arrays@[j].0.index
                    > i32::MIN,
            crate::table::edits_view(edits@) == shift_edits(array_items_of(av.take(i as int), array_id@)),
            match result {
                Some(v) => v@ == shift_result(array_items_of(av.take(i as int), array_id@)),
                None => shift_result(array_items_of(av.take(i as int), array_id@))
                    == PrimitiveValue::Undefined,
            },
    {
        assert(av.take(i + 1).drop_last() =~= av.take(i as int));
        assert(av.take(i + 1).last() == av[i as int]);
        assert(av[i as int] == (arrays@[i as int].0@, arrays@[i as int].1@));
        let key = &arrays[i].0;
        let ghost prev = array_items_of(av.take(i as int), array_id@);
        if string_eq(&key.id, array_id) {
            assert(array_items_of(av.take(i + 1), array_id@) == prev.push(av[i as int]));
            assert(prev.push(av[i as int]).drop_last() =~= prev);
            let ghost before = crate::table::edits_view(edits@);
            let removal = TableEdit::Remove(key.clone());
            edits.push(removal);
            assert(crate::table::edits_view(edits@) =~= before.push(removal@));
            let value = arrays[i].1.data.clone();
            if key.index - 1 >= 0 {
                let ghost mid = crate::table::edits_view(edits@);
                let insertion = TableEdit::Insert(
                    CloudstateArrayItemKey { id: key.id.clone(), index: key.index - 1 },
                    CloudstateArrayItemValue { data: value },
                );
                edits.push(insertion);
                assert(crate::table::edits_view(edits@) =~= mid.push(insertion@));
            } else {
                result = Some(value);
            }
        } else {
            assert(array_items_of(av.take(i + 1), array_id@) == prev);
        }
    }
    assert(av.take(arrays.len() as int) =~= av);
    proof {
        if keys_unique(av) && items_ascending(av) {
            assert forall|i: int| 0 <= i < av.len() && av[i].0.0 == array_id@ implies av[i].0.1
                > i32::MIN by {
                assert(av[i] == (arrays@[i].0@, arrays@[i].1@));
            }
            lemma_shift_effect(av, array_id@);
        }
    }
    match result {
        Some(v) => (edits, v),
        None => (edits, CloudstatePrimitiveData::Undefined),
    }
}

/// Setting `property` of the object `id` to `value`: the edit that stores the
/// changed object, or why there is none.
pub fn op_cloudstate_object_set_property(
    id: String,
    property: String,
    value: CloudstatePrimitiveData,
    stored: Option<CloudstateObjectValue>,
) -> (r: Result<TableEdit<CloudstateObjectKey, CloudstateObjectValue>, CloudstateOpError>)
    requires
        stored matches Some(o) ==> o.data.well_formed(),
    ensures
        match stored {
            None => r matches Err(CloudstateOpError::ObjectNotFound),
            Some(o) => r matches Ok(TableEdit::Insert(k, v)) && k@ == id@ && v.data.well_formed()
                && table_map(v@.fields) == table_map(o@.fields).insert(property@, value@)
                && v@.constructor_name == o@.constructor_name,
        },
{
    match stored {
        None => Err(CloudstateOpError::ObjectNotFound),
        Some(mut object) => {
            object.data.insert_field(property, value);
            Ok(TableEdit::Insert(CloudstateObjectKey { id }, object))
        },
    }
}

/// The object has a field `id` that holds the string `id`.
pub open spec fn has_id_field(o: ObjectView, id: Seq<char>) -> bool {
    exists|j: int| 0 <= j < o.fields.len() && o.fields[j] == (seq!['i', 'd'], PrimitiveValue::String(id))
}

fn is_string_equal_to(v: &CloudstatePrimitiveData, s: &String) -> (r: bool)
    ensures
        r == (v@ == PrimitiveValue::String(s@)),
{
    match v {
        CloudstatePrimitiveData::String(x) => string_eq(x, s),
        _ => false,
    }
}

fn object_has_id(data: &CloudstateObjectData, id: &String, id_name: &String) -> (r: bool)
    requires
        id_name@ == seq!['i', 'd'],
    ensures
        r == has_id_field(data@, id@),
{
    let ghost fv = data@.fields;
    let mut j: usize = 0;
    while j < data.fields.len()
        invariant
            j <= data.fields@.len(),
            fv == data@.fields,
            fv == fields_view(data.fields@),
            fv.len() == data.fields@.len(),
            id_name@ == seq!['i', 'd'],
            forall|x: int| 0 <= x < j ==> fv[x] != (seq!['i', 'd'], PrimitiveValue::String(id@)),
        decreases data.fields.len() - j,
    {
        assert(fv[j as int] == (data.fields@[j as int].0@, data.fields@[j as int].1@));
        let field = &data.fields[j];
        let name_matches = string_eq(&field.0, id_name);
        let value_matches = is_string_equal_to(&field.1, id);
        let matched = name_matches && value_matches;
        assert(fv[j as int] == (field.0@, field.1@));
        assert(matched == (fv[j as int] == (seq!['i', 'd'], PrimitiveValue::String(id@))));
        if matched {
            return true;
        }
        j += 1;
    }
    false
}

/// The object whose field `id` holds the string `id`: a reference to the
/// first such object in table order, or `undefined`.
pub fn op_cloudstate_cloudstate_get(id: &String, objects: &Vec<(CloudstateObjectKey, CloudstateObjectValue)>) -> (r: CloudstatePrimitiveData)
    ensures
        ({
            let ov = entries_view(objects@);
            ||| (r@ == PrimitiveValue::Undefined && forall|i: int|
                0 <= i < ov.len() ==> !has_id_field(#[trigger] ov[i].1, id@))
            ||| exists|i: int|
                0 <= i < ov.len() && has_id_field(#[trigger] ov[i].1, id@) && (forall|j: int|
                    0 <= j < i ==> !has_id_field(ov[j].1, id@)) && r@
                    == PrimitiveValue::ObjectReference(ov[i].0)
        }),
{
    let ghost ov = entries_view(objects@);
    let id_name = String::from_str("id");
    proof {
        reveal_strlit("id");
    }
    let mut i: usize = 0;
    while i < objects.len()
        invariant
            i <= objects@.len(),
            ov == entries_view(objects@),
            ov.len() == objects@.len(),
            id_name@ == seq!['i', 'd'],
            forall|j: int| 0 <= j < i ==> !has_id_field(ov[j].1, id@),
        decreases objects.len() - i,
    {
        assert(ov[i as int] == (objects@[i as int].0@, objects@[i as int].1@));
        if object_has_id(&objects[i].1.data, id, &id_name) {
            assert(has_id_field(ov[i as int].1, id@));
            return CloudstatePrimitiveData::ObjectReference(
                ObjectReference { id: objects[i].0.id.clone() },
            );
        }
        i += 1;
    }
    CloudstatePrimitiveData::Undefined
}

/// Each item of the array `id` is an entry of the table, and each entry of
/// the table that belongs to the array is one of its items.
proof fn lemma_array_items_membership(arrays: ArraysView, id: Seq<char>)
    ensures
        forall|t: int|
            0 <= t < array_items_of(arrays, id).len() ==> exists|i: int|
                0 <= i < arrays.len() && arrays[i] == #[trigger] array_items_of(arrays, id)[t],
        forall|i: int|
            0 <= i < arrays.len() && (#[trigger] arrays[i]).0.0 == id ==> exists|t: int|
                0 <= t < array_items_of(arrays, id).len() && array_items_of(arrays, id)[t]
                    == arrays[i],
    decreases arrays.len(),
{
    lemma_array_items_len(arrays, id);
    if arrays.len() > 0 {
        let dl = arrays.drop_last();
        lemma_array_items_membership(dl, id);
        lemma_array_items_len(dl, id);
        let rest = array_items_of(dl, id);
        let items = array_items_of(arrays, id);
        assert forall|t: int| 0 <= t < items.len() implies exists|i: int|
            0 <= i < arrays.len() && arrays[i] == #[trigger] items[t] by {
            if t < rest.len() {
                assert(items[t] == rest[t]);
                let i = choose|i: int| 0 <= i < dl.len() && dl[i] == #[trigger] rest[t];
                assert(arrays[i] == dl[i]);
            } else {
                assert(items[t] == arrays[arrays.len() - 1]);
            }
        }
        assert forall|i: int| 0 <= i < arrays.len() && (#[trigger] arrays[i]).0.0 == id implies exists|
            t: int,
        | 0 <= t < items.len() && items[t] == arrays[i] by {
            if i < arrays.len() - 1 {
                assert(dl[i] == arrays[i]);
                let t = choose|t: int| 0 <= t < rest.len() && rest[t] == dl[i];
                assert(items[t] == rest[t]);
            } else {
                assert(items[rest.len() as int] == arrays[i]);
            }
        }
    }
}

/// In a table whose arrays list their items in ascending index order, the
/// items of one array have strictly ascending indexes.
proof fn lemma_array_items_ascending(arrays: ArraysView, id: Seq<char>)
    requires
        items_ascending(arrays),
    ensures
        forall|t: int, u: int|
            0 <= t < u < array_items_of(arrays, id).len() ==> array_items_of(arrays, id)[t].0.1
                < array_items_of(arrays, id)[u].0.1,
    decreases arrays.len(),
{
    if arrays.len() > 0 {
        let dl = arrays.drop_last();
        assert(items_ascending(dl));
        lemma_array_items_ascending(dl, id);
        lemma_array_items_membership(dl, id);
        lemma_array_items_len(dl, id);
        lemma_array_items_len(arrays, id);
        let rest = array_items_of(dl, id);
        let items = array_items_of(arrays, id);
        if arrays.last().0.0 == id {
            assert forall|t: int, u: int| 0 <= t < u < items.len() implies items[t].0.1
                < items[u].0.1 by {
                if u == items.len() - 1 {
                    assert(items[t] == rest[t]);
                    let i = choose|i: int| 0 <= i < dl.len() && dl[i] == #[trigger] rest[t];
                    assert(arrays[i] == dl[i]);
                    assert(items[u] == arrays[arrays.len() - 1]);
                    assert(rest[t].0.0 == id);
                } else {
                    assert(items[t] == rest[t]);
                    assert(items[u] == rest[u]);
                }
            }
        }
    }
}

/// The arrays table, as a map, after shifting the array `id`: every item at an
/// index of at least one moves one index down, and the item at index zero and
/// any at a negative index are gone.
pub open spec fn shifted_table(
    m: Map<(Seq<char>, i32), PrimitiveValue>,
    id: Seq<char>,
) -> Map<(Seq<char>, i32), PrimitiveValue> {
    Map::new(
        |k: (Seq<char>, i32)|
            if k.0 == id {
                0 <= k.1 < i32::MAX && m.contains_key((id, (k.1 + 1) as i32))
            } else {
                m.contains_key(k)
            },
        |k: (Seq<char>, i32)|
            if k.0 == id {
                m[(id, (k.1 + 1) as i32)]
            } else {
                m[k]
            },
    )
}

/// The table while shifting, once the items up to index `hi` have been moved.
spec fn shift_state(
    m: Map<(Seq<char>, i32), PrimitiveValue>,
    id: Seq<char>,
    hi: int,
) -> Map<(Seq<char>, i32), PrimitiveValue> {
    Map::new(
        |k: (Seq<char>, i32)|
            if k.0 == id {
                (m.contains_key(k) && k.1 > hi) || (0 <= k.1 && k.1 + 1 <= hi && m.contains_key(
                    (id, (k.1 + 1) as i32),
                ))
            } else {
                m.contains_key(k)
            },
        |k: (Seq<char>, i32)|
            if k.0 == id && !(m.contains_key(k) && k.1 > hi) {
                m[(id, (k.1 + 1) as i32)]
            } else {
                m[k]
            },
    )
}

spec fn shift_hi(items: ArraysView, p: int) -> int {
    if p == 0 {
        i32::MIN - 1
    } else {
        items[p - 1].0.1 as int
    }
}

spec fn array_items_describe(
    m: Map<(Seq<char>, i32), PrimitiveValue>,
    id: Seq<char>,
    items: ArraysView,
) -> bool {
    &&& forall|t: int| 0 <= t < items.len() ==> m.contains_key(#[trigger] items[t].0)
    &&& forall|t: int| 0 <= t < items.len() ==> m[#[trigger] items[t].0] == items[t].1
    &&& forall|t: int| 0 <= t < items.len() ==> (#[trigger] items[t]).0.0 == id
    &&& forall|t: int| 0 <= t < items.len() ==> (#[trigger] items[t]).0.1 > i32::MIN
    &&& forall|t: int, u: int| 0 <= t < u < items.len() ==> items[t].0.1 < items[u].0.1
    &&& forall|j: i32| #[trigger]
        m.contains_key((id, j)) ==> exists|t: int| 0 <= t < items.len() && items[t].0 == (id, j)
}

proof fn lemma_shift_prefix(
    m: Map<(Seq<char>, i32), PrimitiveValue>,
    id: Seq<char>,
    items: ArraysView,
    p: int,
)
    requires
        array_items_describe(m, id, items),
        0 <= p <= items.len(),
    ensures
        apply_edits(m, shift_edits(items.take(p))) == shift_state(m, id, shift_hi(items, p)),
    decreases p,
{
    let n = items.len();
    if p == 0 {
        assert(shift_state(m, id, i32::MIN - 1) =~= m);
        assert(items.take(0) =~= Seq::<((Seq<char>, i32), PrimitiveValue)>::empty());
    } else {
        let q = p - 1;
        lemma_shift_prefix(m, id, items, q);
        let hi = shift_hi(items, q);
        let key = items[q].0;
        let x = key.1;
        let v = items[q].1;
        assert(key == (id, x));
        assert(hi < x) by {
            if q > 0 {
                assert(items[q - 1].0.1 < items[q].0.1);
            }
        }
        // No key of the array lies strictly between hi and x.
        assert forall|j: i32| hi < j < x implies !m.contains_key((id, j)) by {
            if m.contains_key((id, j)) {
                let t = choose|t: int| 0 <= t < n && items[t].0 == (id, j);
                if t < q {
                    if t < q - 1 {
                        assert(items[t].0.1 < items[q - 1].0.1);
                    }
                } else if t > q {
                    assert(items[q].0.1 < items[t].0.1);
                }
            }
        }
        let s0 = shift_state(m, id, hi);
        let s1 = s0.remove(key);
        let s2 = if x >= 1 {
            s1.insert((id, (x - 1) as i32), v)
        } else {
            s1
        };
        assert(items.take(p).drop_last() =~= items.take(q));
        assert(items.take(p).last() == items[q]);
        let before = shift_edits(items.take(q));
        let with_removal = before.push(TableEdit::Remove(key));
        assert(apply_edits(m, with_removal) == s1) by {
            assert(with_removal.drop_last() =~= before);
        }
        if x >= 1 {
            let with_insert = with_removal.push(TableEdit::Insert((id, (x - 1) as i32), v));
            assert(with_insert.drop_last() =~= with_removal);
            assert(shift_edits(items.take(p)) == with_insert);
        } else {
            assert(shift_edits(items.take(p)) == with_removal);
        }
        assert(apply_edits(m, shift_edits(items.take(p))) == s2);
        assert(0 <= q < n);
        assert(m.contains_key(items[q].0) && m[items[q].0] == items[q].1);
        assert(s2 =~= shift_state(m, id, x as int)) by {
            assert forall|k: (Seq<char>, i32)| #[trigger] s2.contains_key(k) == shift_state(
                m,
                id,
                x as int,
            ).contains_key(k) by {
                if k.0 == id {
                    let j = k.1;
                    if j + 1 < x && j + 1 > hi && j + 1 <= i32::MAX {
                        assert(!m.contains_key((id, (j + 1) as i32)));
                    }
                    if j < x && j > hi {
                        assert(!m.contains_key((id, j)));
                    }
                    if j == x {
                        assert(k == key);
                    }
                }
            }
            assert forall|k: (Seq<char>, i32)| #[trigger] s2.contains_key(k) implies s2[k]
                == shift_state(m, id, x as int)[k] by {
                if k.0 == id {
                    let j = k.1;
                    if j < x && j > hi {
                        assert(!m.contains_key((id, j)));
                    }
                }
            }
        }
    }
}

/// Shifting moves each item of the array one index down, as [`shifted_table`]
/// says, when the table lists each array's items in ascending index order.
pub proof fn lemma_shift_effect(arrays: ArraysView, id: Seq<char>)
    requires
        keys_unique(arrays),
        items_ascending(arrays),
        forall|i: int| 0 <= i < arrays.len() && arrays[i].0.0 == id ==> arrays[i].0.1 > i32::MIN,
    ensures
        apply_edits(table_map(arrays), shift_edits(array_items_of(arrays, id))) == shifted_table(
            table_map(arrays),
            id,
        ),
{
    let m = table_map(arrays);
    let items = array_items_of(arrays, id);
    let n = items.len();
    lemma_array_items_len(arrays, id);
    lemma_array_items_membership(arrays, id);
    lemma_array_items_ascending(arrays, id);
    assert forall|j: i32| #[trigger] m.contains_key((id, j)) implies exists|t: int|
        0 <= t < n && items[t].0 == (id, j) by {
        lemma_table_map_dom(arrays, (id, j));
        let i = choose|i: int| 0 <= i < arrays.len() && arrays[i].0 == (id, j);
        assert(arrays[i].0.0 == id);
        let t = choose|t: int| 0 <= t < n && items[t] == arrays[i];
    }
    assert forall|t: int| 0 <= t < n implies m.contains_key(#[trigger] items[t].0) && m[items[t].0]
        == items[t].1 && items[t].0.0 == id && items[t].0.1 > i32::MIN by {
        let i = choose|i: int| 0 <= i < arrays.len() && arrays[i] == #[trigger] items[t];
        lemma_table_map_index(arrays, i);
    }
    assert(array_items_describe(m, id, items));
    lemma_shift_prefix(m, id, items, n as int);
    assert(items.take(n as int) =~= items);
    lemma_shift_final(m, id, items);
}

proof fn lemma_shift_final(
    m: Map<(Seq<char>, i32), PrimitiveValue>,
    id: Seq<char>,
    items: ArraysView,
)
    requires
        array_items_describe(m, id, items),
    ensures
        shift_state(m, id, shift_hi(items, items.len() as int)) == shifted_table(m, id),
{
    let n = items.len();
    let hi = shift_hi(items, n as int);
    assert(shift_state(m, id, hi) =~= shifted_table(m, id)) by {
        assert forall|k: (Seq<char>, i32)| #[trigger] shift_state(m, id, hi).contains_key(k)
            == shifted_table(m, id).contains_key(k) by {
            if k.0 == id {
                if m.contains_key(k) {
                    let t = choose|t: int| 0 <= t < n && items[t].0 == (id, k.1);
                    if t < n - 1 {
                        assert(items[t].0.1 < items[n - 1].0.1);
                    }
                }
                if k.1 < i32::MAX && m.contains_key((id, (k.1 + 1) as i32)) {
                    let t = choose|t: int| 0 <= t < n && items[t].0 == (id, (k.1 + 1) as i32);
                    if t < n - 1 {
                        assert(items[t].0.1 < items[n - 1].0.1);
                    }
                }
            }
        }
        assert forall|k: (Seq<char>, i32)| #[trigger] shift_state(m, id, hi).contains_key(k)
            implies shift_state(m, id, hi)[k] == shifted_table(m, id)[k] by {
            if k.0 == id && m.contains_key(k) {
                let t = choose|t: int| 0 <= t < n && items[t].0 == (id, k.1);
                if t < n - 1 {
                    assert(items[t].0.1 < items[n - 1].0.1);
                }
            }
        }
    }
}

/// Reversing stores under each item's key the value of the item at the
/// mirrored position, and leaves every other entry as it was.
pub proof fn lemma_reverse_effect(arrays: ArraysView, id: Seq<char>)
    requires
        keys_unique(arrays),
    ensures
        ({
            let m = table_map(arrays);
            let items = array_items_of(arrays, id);
            let r = apply_edits(m, reverse_edits(items));
            &&& r.dom() == m.dom()
            &&& forall|i: int|
                0 <= i < items.len() ==> r[#[trigger] items[i].0] == items[items.len() - 1 - i].1
            &&& forall|k: (Seq<char>, i32)| k.0 != id ==> r[k] == m[k]
        }),
{
    let m = table_map(arrays);
    let items = array_items_of(arrays, id);
    let n = items.len();
    lemma_array_items_len(arrays, id);
    lemma_array_items_membership(arrays, id);
    let es = reverse_edits(items);
    assert forall|t: int| 0 <= t < n implies m.contains_key(#[trigger] items[t].0) by {
        let i = choose|i: int| 0 <= i < arrays.len() && arrays[i] == #[trigger] items[t];
        lemma_table_map_index(arrays, i);
    }
    assert forall|t: int, u: int| 0 <= t < u < n implies items[t].0 != items[u].0 by {
        let i = choose|i: int| 0 <= i < arrays.len() && arrays[i] == #[trigger] items[t];
        let j = choose|j: int| 0 <= j < arrays.len() && arrays[j] == #[trigger] items[u];
        if items[t].0 == items[u].0 {
            lemma_array_items_distinct_positions(arrays, id, t, u);
        }
    }
    lemma_apply_inserts_prefix(m, items, es, n as int);
    assert(es.take(n as int) =~= es);
}

/// Two different items of an array come from two different entries.
proof fn lemma_array_items_distinct_positions(arrays: ArraysView, id: Seq<char>, t: int, u: int)
    requires
        keys_unique(arrays),
        0 <= t < u < array_items_of(arrays, id).len(),
    ensures
        array_items_of(arrays, id)[t].0 != array_items_of(arrays, id)[u].0,
    decreases arrays.len(),
{
    let dl = arrays.drop_last();
    let rest = array_items_of(dl, id);
    let items = array_items_of(arrays, id);
    lemma_array_items_len(dl, id);
    assert(keys_unique(dl));
    if u < rest.len() {
        assert(items[t] == rest[t]);
        assert(items[u] == rest[u]);
        lemma_array_items_distinct_positions(dl, id, t, u);
    } else {
        lemma_array_items_membership(dl, id);
        assert(items[t] == rest[t]);
        let i = choose|i: int| 0 <= i < dl.len() && dl[i] == #[trigger] rest[t];
        assert(arrays[i] == dl[i]);
        assert(items[u] == arrays[arrays.len() - 1]);
    }
}

proof fn lemma_apply_inserts_prefix(
    m: Map<(Seq<char>, i32), PrimitiveValue>,
    items: ArraysView,
    es: Seq<TableEdit<(Seq<char>, i32), PrimitiveValue>>,
    p: int,
)
    requires
        0 <= p <= items.len(),
        es.len() == items.len(),
        forall|i: int|
            0 <= i < items.len() ==> #[trigger] es[i] == TableEdit::<
                (Seq<char>, i32),
                PrimitiveValue,
            >::Insert(items[i].0, items[items.len() - 1 - i].1),
        forall|t: int| 0 <= t < items.len() ==> m.contains_key(#[trigger] items[t].0),
        forall|t: int, u: int| 0 <= t < u < items.len() ==> items[t].0 != items[u].0,
    ensures
        ({
            let r = apply_edits(m, es.take(p));
            &&& r.dom() == m.dom()
            &&& forall|i: int|
                0 <= i < p ==> r[#[trigger] items[i].0] == items[items.len() - 1 - i].1
            &&& forall|k: (Seq<char>, i32)|
                (forall|i: int| 0 <= i < p ==> items[i].0 != k) ==> r[k] == m[k]
        }),
    decreases p,
{
    if p == 0 {
        assert(es.take(0) =~= Seq::<TableEdit<(Seq<char>, i32), PrimitiveValue>>::empty());
    } else {
        lemma_apply_inserts_prefix(m, items, es, p - 1);
        assert(es.take(p).drop_last() =~= es.take(p - 1));
        assert(es.take(p).last() == es[p - 1]);
        let r0 = apply_edits(m, es.take(p - 1));
        let r = apply_edits(m, es.take(p));
        assert(r == r0.insert(items[p - 1].0, items[items.len() - 1 - (p - 1)].1));
        assert(r.dom() =~= m.dom());
    }
}

/// After clearing the map `id`, the table holds no entry of that map, and
/// every other entry is as it was.
pub proof fn lemma_clear_effect(maps: MapsView, id: Seq<char>)
    ensures
        forall|f: Seq<char>|
            !(#[trigger] apply_edits(table_map(maps), clear_edits(maps, id)).contains_key((id, f))),
        forall|k: (Seq<char>, Seq<char>)|
            k.0 != id ==> (#[trigger] apply_edits(table_map(maps), clear_edits(maps, id)).contains_key(k))
                == table_map(maps).contains_key(k) && (table_map(maps).contains_key(k) ==> apply_edits(
                table_map(maps),
                clear_edits(maps, id),
            )[k] == table_map(maps)[k]),
    decreases maps.len(),
{
    let m = table_map(maps);
    if maps.len() > 0 {
        let dl = maps.drop_last();
        lemma_clear_effect(dl, id);
        lemma_clear_edits_id(dl, id);
        let es = clear_edits(maps, id);
        let es0 = clear_edits(dl, id);
        let m0 = table_map(dl);
        let r0 = apply_edits(m0, es0);
        let last = maps.last();
        assert(m == m0.insert(last.0, last.1));
        lemma_apply_edits_commute_insert(m0, es0, last.0, last.1);
        let a = apply_edits(m, es0);
        if last.0.0 == id {
            assert(es == es0.push(TableEdit::Remove(last.0)));
            assert(es.drop_last() =~= es0);
            assert(apply_edits(m, es) == a.remove(last.0));
            assert forall|g: Seq<char>| !apply_edits(m, es).contains_key((id, g)) by {
                if (id, g) != last.0 {
                    assert(!r0.contains_key((id, g)));
                }
            }
            assert forall|k: (Seq<char>, Seq<char>)| k.0 != id implies apply_edits(
                m,
                es,
            ).contains_key(k) == m.contains_key(k) && (m.contains_key(k) ==> apply_edits(m, es)[k]
                == m[k]) by {
                assert(k != last.0);
                assert(r0.contains_key(k) == m0.contains_key(k));
                assert(a.contains_key(k) == r0.contains_key(k));
                assert(m.contains_key(k) == m0.contains_key(k));
                if m.contains_key(k) {
                    assert(r0[k] == m0[k]);
                    assert(a[k] == r0[k]);
                    assert(m[k] == m0[k]);
                    assert(a.remove(last.0)[k] == a[k]);
                }
            }
        } else {
            assert(es == es0);
            assert(!(exists|i: int|
                0 <= i < es0.len() && es0[i] == TableEdit::<
                    (Seq<char>, Seq<char>),
                    PrimitiveValue,
                >::Remove(last.0)));
            assert forall|g: Seq<char>| !apply_edits(m, es).contains_key((id, g)) by {
                assert(!r0.contains_key((id, g)));
            }
            assert forall|k: (Seq<char>, Seq<char>)| k.0 != id implies apply_edits(
                m,
                es,
            ).contains_key(k) == m.contains_key(k) && (m.contains_key(k) ==> apply_edits(m, es)[k]
                == m[k]) by {
                if k != last.0 {
                    assert(r0.contains_key(k) == m0.contains_key(k));
                    assert(a.contains_key(k) == r0.contains_key(k));
                    assert(m.contains_key(k) == m0.contains_key(k));
                    if m.contains_key(k) {
                        assert(r0[k] == m0[k]);
                        assert(a[k] == r0[k]);
                        assert(m[k] == m0[k]);
                    }
                }
            }
        }
    }
}

proof fn lemma_clear_edits_id(maps: MapsView, id: Seq<char>)
    ensures
        forall|i: int|
            0 <= i < clear_edits(maps, id).len() ==> (#[trigger] clear_edits(maps, id)[i]) is Remove
                && clear_edits(maps, id)[i]->Remove_0.0 == id,
    decreases maps.len(),
{
    if maps.len() > 0 {
        lemma_clear_edits_id(maps.drop_last(), id);
        let rest = clear_edits(maps.drop_last(), id);
        if maps.last().0.0 == id {
            assert forall|i: int| 0 <= i < clear_edits(maps, id).len() implies (
            #[trigger] clear_edits(maps, id)[i]) is Remove && clear_edits(maps, id)[i]->Remove_0.0
                == id by {
                if i < rest.len() {
                    assert(clear_edits(maps, id)[i] == rest[i]);
                }
            }
        }
    }
}

/// Removals of keys other than `k` do not disturb an entry stored under `k`
/// beforehand, and a removal of `k` takes it away.
proof fn lemma_apply_edits_commute_insert(
    m: Map<(Seq<char>, Seq<char>), PrimitiveValue>,
    es: Seq<TableEdit<(Seq<char>, Seq<char>), PrimitiveValue>>,
    k: (Seq<char>, Seq<char>),
    v: PrimitiveValue,
)
    requires
        forall|i: int| 0 <= i < es.len() ==> (#[trigger] es[i]) is Remove,
    ensures
        forall|key: (Seq<char>, Seq<char>)|
            #![trigger apply_edits(m.insert(k, v), es).contains_key(key)]
            #![trigger apply_edits(m, es).contains_key(key)]
            key != k ==> apply_edits(m.insert(k, v), es).contains_key(key) == apply_edits(
                m,
                es,
            ).contains_key(key) && (apply_edits(m, es).contains_key(key) ==> apply_edits(
                m.insert(k, v),
                es,
            )[key] == apply_edits(m, es)[key]),
        (exists|i: int| 0 <= i < es.len() && es[i] == TableEdit::<(Seq<char>, Seq<char>), PrimitiveValue>::Remove(k))
            ==> !apply_edits(m.insert(k, v), es).contains_key(k),
        !(exists|i: int| 0 <= i < es.len() && es[i] == TableEdit::<(Seq<char>, Seq<char>), PrimitiveValue>::Remove(k))
            ==> apply_edits(m.insert(k, v), es).contains_key(k) && apply_edits(m.insert(k, v), es)[k] == v,
    decreases es.len(),
{
    let mk = m.insert(k, v);
    if es.len() == 0 {
        assert forall|key: (Seq<char>, Seq<char>)| key != k implies mk.contains_key(key)
            == m.contains_key(key) && (m.contains_key(key) ==> mk[key] == m[key]) by {}
    } else {
        let dl = es.drop_last();
        assert forall|i: int| 0 <= i < dl.len() implies (#[trigger] dl[i]) is Remove by {
            assert(dl[i] == es[i]);
        }
        lemma_apply_edits_commute_insert(m, dl, k, v);
        let e = es[es.len() - 1];
        assert(e is Remove);
        let x = e->Remove_0;
        let a0 = apply_edits(mk, dl);
        let b0 = apply_edits(m, dl);
        assert(apply_edits(mk, es) == a0.remove(x));
        assert(apply_edits(m, es) == b0.remove(x));
        assert forall|key: (Seq<char>, Seq<char>)| key != k implies a0.remove(x).contains_key(key)
            == b0.remove(x).contains_key(key) && (b0.remove(x).contains_key(key) ==> a0.remove(
            x,
        )[key] == b0.remove(x)[key]) by {
            assert(a0.contains_key(key) == b0.contains_key(key));
            if b0.contains_key(key) {
                assert(a0[key] == b0[key]);
            }
        }
        let removes_k = exists|i: int|
            0 <= i < es.len() && es[i] == TableEdit::<
                (Seq<char>, Seq<char>),
                PrimitiveValue,
            >::Remove(k);
        let removes_k0 = exists|i: int|
            0 <= i < dl.len() && dl[i] == TableEdit::<
                (Seq<char>, Seq<char>),
                PrimitiveValue,
            >::Remove(k);
        if removes_k0 {
            let i = choose|i: int|
                0 <= i < dl.len() && dl[i] == TableEdit::<
                    (Seq<char>, Seq<char>),
                    PrimitiveValue,
                >::Remove(k);
            assert(es[i] == dl[i]);
        }
        if removes_k && !removes_k0 {
            let i = choose|i: int|
                0 <= i < es.len() && es[i] == TableEdit::<
                    (Seq<char>, Seq<char>),
                    PrimitiveValue,
                >::Remove(k);
            if i < es.len() - 1 {
                assert(dl[i] == es[i]);
            }
            assert(x == k);
        }
        if !removes_k {
            assert(x != k);
            assert forall|i: int| 0 <= i < dl.len() implies dl[i] != TableEdit::<
                (Seq<char>, Seq<char>),
                PrimitiveValue,
            >::Remove(k) by {
                assert(dl[i] == es[i]);
            }
        }
    }
}

/// `String::from_utf8` of std: the bytes as a string when they are valid
/// UTF-8. The contract takes vstd's UTF-8 definitions to be the ones that std
/// checks and decodes by.
#[verifier::external_body]
fn string_from_utf8(bytes: Vec<u8>) -> (r: Option<String>)
    ensures
        r is Some <==> vstd::utf8::valid_utf8(bytes@),
        r matches Some(s) ==> s@ == vstd::utf8::decode_utf8(bytes@),
{
    String::from_utf8(bytes).ok()
}

/// Stores a blob and its MIME type: the edit to the blobs table, and how
/// storing the bytes went.
pub fn op_cloudstate_blob_set<E: CloudstateBlobStorageEngine>(
    storage: &mut CloudstateBlobStorage<E>,
    blob_id: String,
    blob_type: String,
    blob_data: Vec<u8>,
) -> (r: (TableEdit<CloudstateBlobKey, CloudstateBlobMetadata>, Result<(), BlobStorageError>))
    ensures
        r.0@ == TableEdit::<Seq<char>, Seq<char>>::Insert(blob_id@, blob_type@),
        r.1 is Ok ==> final(storage).blobs() == old(storage).blobs().insert(blob_id@, blob_data@),
        old(storage).infallible() ==> r.1 is Ok,
        final(storage).infallible() == old(storage).infallible(),
{
    storage.put_blob(
        blob_id.as_str(),
        CloudstateBlobValue { data: blob_data },
        CloudstateBlobMetadata { type_: blob_type },
    )
}

/// The bytes of a blob.
pub fn op_cloudstate_blob_get_array_buffer<E: CloudstateBlobStorageEngine>(
    storage: &CloudstateBlobStorage<E>,
    blob_id: &String,
) -> (r: Result<Vec<u8>, BlobStorageError>)
    ensures
        r matches Ok(v) ==> storage.blobs().contains_key(blob_id@) && v@ == storage.blobs()[blob_id@],
        storage.infallible() ==> (r is Ok <==> storage.blobs().contains_key(blob_id@)),
        storage.infallible() && r is Err ==> (r matches Err(BlobStorageError::NotFound { blob_id: id })
            && id@ == blob_id@),
{
    match storage.get_blob_data(blob_id.as_str()) {
        Ok(v) => Ok(v.data),
        Err(e) => Err(e),
    }
}

/// The bytes of a blob, for a `Uint8Array`.
pub fn op_cloudstate_blob_get_uint8array<E: CloudstateBlobStorageEngine>(
    storage: &CloudstateBlobStorage<E>,
    blob_id: &String,
) -> (r: Result<Vec<u8>, BlobStorageError>)
    ensures
        r matches Ok(v) ==> storage.blobs().contains_key(blob_id@) && v@ == storage.blobs()[blob_id@],
        storage.infallible() ==> (r is Ok <==> storage.blobs().contains_key(blob_id@)),
        storage.infallible() && r is Err ==> (r matches Err(BlobStorageError::NotFound { blob_id: id })
            && id@ == blob_id@),
{
    op_cloudstate_blob_get_array_buffer(storage, blob_id)
}

/// The text of a blob, which must be valid UTF-8.
pub fn op_cloudstate_blob_get_text<E: CloudstateBlobStorageEngine>(
    storage: &CloudstateBlobStorage<E>,
    blob_id: &String,
) -> (r: Result<String, BlobStorageError>)
    requires
        storage.blobs().contains_key(blob_id@) ==> vstd::utf8::valid_utf8(storage.blobs()[blob_id@]),
    ensures
        r matches Ok(t) ==> storage.blobs().contains_key(blob_id@) && t@ == vstd::utf8::decode_utf8(
            storage.blobs()[blob_id@],
        ),
        storage.infallible() ==> (r is Ok <==> storage.blobs().contains_key(blob_id@)),
        storage.infallible() && r is Err ==> (r matches Err(BlobStorageError::NotFound { blob_id: id })
            && id@ == blob_id@),
{
    match storage.get_blob_data(blob_id.as_str()) {
        Ok(v) => Ok(string_from_utf8(v.data).unwrap()),
        Err(e) => Err(e),
    }
}

/// The size of a blob in bytes, as an `i32`.
pub fn op_cloudstate_blob_get_size<E: CloudstateBlobStorageEngine>(
    storage: &CloudstateBlobStorage<E>,
    blob_id: &String,
) -> (r: Result<i32, BlobStorageError>)
    ensures
        r matches Ok(n) ==> storage.blobs().contains_key(blob_id@) && n == storage.blobs()[blob_id@].len() as i32,
        storage.infallible() ==> (r is Ok <==> storage.blobs().contains_key(blob_id@)),
        storage.infallible() && r is Err ==> (r matches Err(BlobStorageError::NotFound { blob_id: id })
            && id@ == blob_id@),
{
    match storage.get_blob_size(blob_id.as_str()) {
        Ok(n) => Ok(n as i32),
        Err(e) => Err(e),
    }
}

/// The MIME type of a blob from what the blobs table holds for it.
pub fn op_cloudstate_blob_get_type<E: CloudstateBlobStorageEngine>(
    storage: &CloudstateBlobStorage<E>,
    blob_id: &String,
    stored: Option<CloudstateBlobMetadata>,
) -> (r: Result<String, CloudstateOpError>)
    ensures
        result_view(r) == blob_type_answer(stored_view(stored)),
{
    match storage.get_blob_metadata(blob_id.as_str(), stored) {
        Ok(metadata) => Ok(metadata.type_),
        Err(_) => Err(CloudstateOpError::BlobNotFound),
    }
}

/// A slice of a blob's bytes.
pub fn op_cloudstate_blob_slice<E: CloudstateBlobStorageEngine>(
    storage: &CloudstateBlobStorage<E>,
    blob_id: &String,
    start: Option<i32>,
    end: Option<i32>,
) -> (r: Result<Vec<u8>, BlobStorageError>)
    requires
        storage.blobs().contains_key(blob_id@) ==> slice_in_bounds(
            start,
            end,
            storage.blobs()[blob_id@].len(),
        ),
    ensures
        r matches Ok(v) ==> storage.blobs().contains_key(blob_id@) && v@ == blob_slice(
            storage.blobs()[blob_id@],
            start,
            end,
        ),
        storage.infallible() ==> (r is Ok <==> storage.blobs().contains_key(blob_id@)),
        storage.infallible() && r is Err ==> (r matches Err(BlobStorageError::NotFound { blob_id: id })
            && id@ == blob_id@),
{
    storage.get_blob_slice(blob_id.as_str(), start, end)
}

/// The keys of the items, in order.
pub open spec fn item_keys(items: ArraysView) -> Seq<(Seq<char>, i32)> {
    items.map_values(|e: ((Seq<char>, i32), PrimitiveValue)| e.0)
}

/// `m` with the values under `keys` in reverse order: the first key takes the
/// value of the last, and so on; every other key keeps its value.
pub open spec fn reverse_values<K, V>(m: Map<K, V>, keys: Seq<K>) -> Map<K, V> {
    Map::new(
        |k: K| m.contains_key(k),
        |k: K|
            if keys.contains(k) {
                m[keys[keys.len() - 1 - (choose|i: int| 0 <= i < keys.len() && keys[i] == k)]]
            } else {
                m[k]
            },
    )
}

proof fn lemma_reverse_values_at<K, V>(m: Map<K, V>, keys: Seq<K>, i: int)
    requires
        keys.no_duplicates(),
        0 <= i < keys.len(),
        m.contains_key(keys[i]),
    ensures
        reverse_values(m, keys)[keys[i]] == m[keys[keys.len() - 1 - i]],
{
    assert(keys.contains(keys[i]));
    let j = choose|j: int| 0 <= j < keys.len() && keys[j] == keys[i];
    assert(j == i);
}

/// Reversing the values under the same distinct keys twice restores every
/// value.
pub proof fn lemma_reverse_values_twice<K, V>(m: Map<K, V>, keys: Seq<K>)
    requires
        keys.no_duplicates(),
        forall|t: int| 0 <= t < keys.len() ==> m.contains_key(#[trigger] keys[t]),
    ensures
        reverse_values(reverse_values(m, keys), keys) == m,
{
    let r = reverse_values(m, keys);
    let rr = reverse_values(r, keys);
    let n = keys.len();
    assert forall|k: K| #[trigger] rr.contains_key(k) implies rr[k] == m[k] by {
        if keys.contains(k) {
            let i = choose|i: int| 0 <= i < keys.len() && keys[i] == k;
            assert(m.contains_key(keys[n - 1 - i]));
            lemma_reverse_values_at(r, keys, i);
            lemma_reverse_values_at(m, keys, n - 1 - i);
        }
    }
    assert(rr =~= m);
}

/// The keys of an array's items are distinct entries of the table, each
/// holding its item's value, and every entry of the array is among them.
proof fn lemma_item_keys(arrays: ArraysView, id: Seq<char>)
    requires
        keys_unique(arrays),
    ensures
        ({
            let m = table_map(arrays);
            let items = array_items_of(arrays, id);
            let keys = item_keys(items);
            &&& keys.len() == items.len()
            &&& keys.no_duplicates()
            &&& forall|t: int|
                0 <= t < keys.len() ==> m.contains_key(#[trigger] keys[t]) && keys[t] == items[t].0
                    && m[keys[t]] == items[t].1
            &&& forall|k: (Seq<char>, i32)| m.contains_key(k) && k.0 == id ==> keys.contains(k)
        }),
{
    let m = table_map(arrays);
    let items = array_items_of(arrays, id);
    let keys = item_keys(items);
    let n = items.len();
    lemma_array_items_membership(arrays, id);
    assert forall|t: int| 0 <= t < n implies m.contains_key(#[trigger] keys[t]) && keys[t]
        == items[t].0 && m[keys[t]] == items[t].1 by {
        let i = choose|i: int| 0 <= i < arrays.len() && arrays[i] == #[trigger] items[t];
        lemma_table_map_index(arrays, i);
    }
    assert forall|t: int, u: int| 0 <= t < n && 0 <= u < n && t != u implies keys[t] != keys[u] by {
        if t < u {
            lemma_array_items_distinct_positions(arrays, id, t, u);
        } else {
            lemma_array_items_distinct_positions(arrays, id, u, t);
        }
    }
    assert forall|k: (Seq<char>, i32)| m.contains_key(k) && k.0 == id implies keys.contains(k) by {
        lemma_table_map_dom(arrays, k);
        let j = choose|j: int| 0 <= j < arrays.len() && arrays[j].0 == k;
        let t = choose|t: int| 0 <= t < n && items[t] == arrays[j];
        assert(keys[t] == k);
    }
}

/// Reversing an array through the op's edits reverses the values of its
/// items; reversing it again restores them.
pub proof fn lemma_reverse_twice_restores(arrays: ArraysView, id: Seq<char>)
    requires
        keys_unique(arrays),
    ensures
        ({
            let m = table_map(arrays);
            let keys = item_keys(array_items_of(arrays, id));
            &&& apply_edits(m, reverse_edits(array_items_of(arrays, id))) == reverse_values(m, keys)
            &&& reverse_values(reverse_values(m, keys), keys) == m
        }),
{
    let m = table_map(arrays);
    let items = array_items_of(arrays, id);
    let keys = item_keys(items);
    let n = items.len();
    let r = apply_edits(m, reverse_edits(items));
    let rv = reverse_values(m, keys);
    lemma_reverse_effect(arrays, id);
    lemma_item_keys(arrays, id);
    lemma_array_items_len(arrays, id);
    assert forall|k: (Seq<char>, i32)| #[trigger] r.contains_key(k) implies r[k] == rv[k] by {
        if keys.contains(k) {
            let i = choose|i: int| 0 <= i < keys.len() && keys[i] == k;
            lemma_reverse_values_at(m, keys, i);
            assert(r[items[i].0] == items[n - 1 - i].1);
            assert(m[keys[n - 1 - i]] == items[n - 1 - i].1);
        }
    }
    assert(r =~= rv);
    lemma_reverse_values_twice(m, keys);
}

/// What a set stores, the matching get reads back: an object is got as it
/// was set, a root names the object it was set to, and a blob's type is the
/// one stored with it. Each table is any table before the set, and the set's
/// edit is the one that its op makes.
pub proof fn lemma_get_after_set(
    objects: Map<Seq<char>, ObjectView>,
    id: Seq<char>,
    value: ObjectView,
    roots: Map<Seq<char>, Seq<char>>,
    alias: Seq<char>,
    root_id: Seq<char>,
    metadata: Map<Seq<char>, Seq<char>>,
    blob_id: Seq<char>,
    blob_type: Seq<char>,
)
    ensures
        object_get_answer(lookup(apply_edit(objects, TableEdit::Insert(id, value)), id)) == Ok::<
            ObjectView,
            CloudstateOpError,
        >(value),
        lookup(apply_edit(roots, TableEdit::Insert(alias, root_id)), alias) == Some(root_id),
        blob_type_answer(lookup(apply_edit(metadata, TableEdit::Insert(blob_id, blob_type)), blob_id))
            == Ok::<Seq<char>, CloudstateOpError>(blob_type),
{
}

proof fn lemma_shift_result_at(items: ArraysView, t: int)
    requires
        0 <= t < items.len(),
        items[t].0.1 < 1,
        forall|u: int| t < u < items.len() ==> items[u].0.1 >= 1,
    ensures
        shift_result(items) == items[t].1,
    decreases items.len(),
{
    if t < items.len() - 1 {
        let dl = items.drop_last();
        assert(dl[t] == items[t]);
        assert forall|u: int| t < u < dl.len() implies dl[u].0.1 >= 1 by {
            assert(dl[u] == items[u]);
        }
        lemma_shift_result_at(dl, t);
    }
}

proof fn lemma_shift_result_undefined(items: ArraysView)
    requires
        forall|u: int| 0 <= u < items.len() ==> items[u].0.1 >= 1,
    ensures
        shift_result(items) == PrimitiveValue::Undefined,
    decreases items.len(),
{
    if items.len() > 0 {
        let dl = items.drop_last();
        assert forall|u: int| 0 <= u < dl.len() implies dl[u].0.1 >= 1 by {
            assert(dl[u] == items[u]);
        }
        lemma_shift_result_undefined(dl);
    }
}

/// Shifting an array hands back the value of its item at index 0, however
/// many other items it has, and `undefined` when it has no item at an index
/// below one.
pub proof fn lemma_shift_returns_first_item(arrays: ArraysView, id: Seq<char>)
    requires
        keys_unique(arrays),
        items_ascending(arrays),
    ensures
        forall|i: int|
            0 <= i < arrays.len() && (#[trigger] arrays[i]).0 == (id, 0i32) ==> shift_result(
                array_items_of(arrays, id),
            ) == arrays[i].1,
        (forall|i: int| 0 <= i < arrays.len() && (#[trigger] arrays[i]).0.0 == id ==> arrays[i].0.1 >= 1)
            ==> shift_result(array_items_of(arrays, id)) == PrimitiveValue::Undefined,
{
    let items = array_items_of(arrays, id);
    lemma_array_items_len(arrays, id);
    lemma_array_items_membership(arrays, id);
    lemma_array_items_ascending(arrays, id);
    assert forall|i: int|
        0 <= i < arrays.len() && (#[trigger] arrays[i]).0 == (id, 0i32) implies shift_result(
        items,
    ) == arrays[i].1 by {
        let t = choose|t: int| 0 <= t < items.len() && items[t] == arrays[i];
        assert forall|u: int| t < u < items.len() implies items[u].0.1 >= 1 by {
            assert(items[t].0.1 < items[u].0.1);
        }
        lemma_shift_result_at(items, t);
    }
    if forall|i: int| 0 <= i < arrays.len() && (#[trigger] arrays[i]).0.0 == id ==> arrays[i].0.1 >= 1 {
        assert forall|u: int| 0 <= u < items.len() implies items[u].0.1 >= 1 by {
            let i = choose|i: int| 0 <= i < arrays.len() && arrays[i] == #[trigger] items[u];
            assert(arrays[i].0.0 == id);
        }
        lemma_shift_result_undefined(items);
    }
}

/// The length of an array counts keys, whatever the items hold: an empty table
/// gives length 0, and one more entry adds one exactly when its key is an index
/// of at least zero of the array, or a negative index of the id that follows
/// it with a NUL character; tables with the same keys give the same length.
pub proof fn lemma_array_length_counts_keys(
    a: ArraysView,
    b: ArraysView,
    id: Seq<char>,
    key: (Seq<char>, i32),
    value: PrimitiveValue,
)
    ensures
        array_length_items(Seq::empty(), id).len() == 0,
        array_length_items(a.push((key, value)), id).len() == array_length_items(a, id).len() + if (
        key.0 == id && key.1 >= 0) || (key.0 == id.push('\0') && key.1 < 0) {
            1int
        } else {
            0int
        },
        a.len() == b.len() && (forall|i: int| 0 <= i < a.len() ==> (#[trigger] a[i]).0 == b[i].0)
            ==> array_length_items(a, id).len() == array_length_items(b, id).len(),
    decreases a.len(),
{
    assert(a.push((key, value)).drop_last() =~= a);
    if a.len() == b.len() && (forall|i: int| 0 <= i < a.len() ==> (#[trigger] a[i]).0 == b[i].0) {
        if a.len() > 0 {
            assert(a =~= a.drop_last().push(a.last()));
            assert(b =~= b.drop_last().push(b.last()));
            assert forall|i: int| 0 <= i < a.drop_last().len() implies (
            #[trigger] a.drop_last()[i]).0 == b.drop_last()[i].0 by {
                assert(a[i].0 == b[i].0);
            }
            lemma_array_length_counts_keys(a.drop_last(), b.drop_last(), id, key, value);
        }
    }
}

/// `op_cloudstate_cloudstate_get` finds objects by their field named `id`: an
/// object, whose field names are unique, matches exactly when that field is
/// present and holds the string `id`; an object whose `id` field is absent or
/// holds something else never matches, whatever its other fields hold.
pub proof fn lemma_id_field_match(o: ObjectView, id: Seq<char>)
    requires
        keys_unique(o.fields),
    ensures
        has_id_field(o, id) <==> (table_map(o.fields).contains_key(seq!['i', 'd'])
            && table_map(o.fields)[seq!['i', 'd']] == PrimitiveValue::String(id)),
{
    let key = seq!['i', 'd'];
    if has_id_field(o, id) {
        let j = choose|j: int|
            0 <= j < o.fields.len() && o.fields[j] == (seq!['i', 'd'], PrimitiveValue::String(id));
        lemma_table_map_index(o.fields, j);
    }
    if table_map(o.fields).contains_key(key) && table_map(o.fields)[key] == PrimitiveValue::String(
        id,
    ) {
        lemma_table_map_dom(o.fields, key);
        let i = choose|i: int| 0 <= i < o.fields.len() && o.fields[i].0 == key;
        lemma_table_map_index(o.fields, i);
        assert(o.fields[i] == (seq!['i', 'd'], PrimitiveValue::String(id)));
    }
}

} // verus!
