//! Mark-and-sweep garbage collection over the object, map and array tables.
//!
//! Marking starts from the objects that the roots table names and follows every
//! object, map and array reference that a stored value holds. Sweeping lists
//! every object that was not reached, and every map entry and array item whose
//! map or array was not reached.

use vstd::prelude::*;
use crate::cloudstate::{
    fields_view, CloudstateArrayItemKey, CloudstateArrayItemValue, CloudstateMapFieldKey,
    CloudstateMapFieldValue, CloudstateObjectKey, CloudstateObjectValue, CloudstatePrimitiveData,
    CloudstateRootKey, CloudstateRootValue, ObjectView, PrimitiveValue,
};
use crate::table::{entries_view, keys_unique};

verus! {

/// A position in the database that the collector marks or deletes.
pub enum Pointer {
    Object(CloudstateObjectKey),
    JsMap(CloudstateObjectKey),
    Array(CloudstateObjectKey),
    MapField(CloudstateMapFieldKey),
    ArrayItem(CloudstateArrayItemKey),
}

/// The mathematical value of a [`Pointer`].
pub enum PointerView {
    Object(Seq<char>),
    JsMap(Seq<char>),
    Array(Seq<char>),
    MapField(Seq<char>, Seq<char>),
    ArrayItem(Seq<char>, i32),
}

impl View for Pointer {
    type V = PointerView;

    open spec fn view(&self) -> PointerView {
        match self {
            Pointer::Object(k) => PointerView::Object(k.id@),
            Pointer::JsMap(k) => PointerView::JsMap(k.id@),
            Pointer::Array(k) => PointerView::Array(k.id@),
            Pointer::MapField(k) => PointerView::MapField(k.id@, k.field@),
            Pointer::ArrayItem(k) => PointerView::ArrayItem(k.id@, k.index),
        }
    }
}

/// The contents of the roots, objects, maps and arrays tables, each in the
/// order in which the table lists its entries.
pub struct CloudstateTables {
    pub roots: Vec<(CloudstateRootKey, CloudstateRootValue)>,
    pub objects: Vec<(CloudstateObjectKey, CloudstateObjectValue)>,
    pub maps: Vec<(CloudstateMapFieldKey, CloudstateMapFieldValue)>,
    pub arrays: Vec<(CloudstateArrayItemKey, CloudstateArrayItemValue)>,
}

/// The mathematical value of [`CloudstateTables`].
pub struct TablesView {
    pub roots: Seq<(Seq<char>, Seq<char>)>,
    pub objects: Seq<(Seq<char>, ObjectView)>,
    pub maps: Seq<((Seq<char>, Seq<char>), PrimitiveValue)>,
    pub arrays: Seq<((Seq<char>, i32), PrimitiveValue)>,
}

impl View for CloudstateTables {
    type V = TablesView;

    open spec fn view(&self) -> TablesView {
        TablesView {
            roots: entries_view(self.roots@),
            objects: entries_view(self.objects@),
            maps: entries_view(self.maps@),
            arrays: entries_view(self.arrays@),
        }
    }
}

/// The pointers, each taken by its view.
pub open spec fn pointer_views(s: Seq<Pointer>) -> Seq<PointerView> {
    s.map_values(|p: Pointer| p@)
}

/// What a stored value refers to, if it is a reference.
pub open spec fn reference_target(v: PrimitiveValue) -> Option<PointerView> {
    match v {
        PrimitiveValue::ObjectReference(id) => Some(PointerView::Object(id)),
        PrimitiveValue::MapReference(id) => Some(PointerView::JsMap(id)),
        PrimitiveValue::ArrayReference(id) => Some(PointerView::Array(id)),
        _ => None,
    }
}

/// The object that a root names.
pub open spec fn is_root(t: TablesView, p: PointerView) -> bool {
    exists|i: int| 0 <= i < t.roots.len() && p == PointerView::Object(t.roots[i].1)
}

/// A field of the stored object `id` refers to `q`.
pub open spec fn object_points_to(
    objects: Seq<(Seq<char>, ObjectView)>,
    id: Seq<char>,
    q: PointerView,
) -> bool {
    exists|i: int, j: int|
        0 <= i < objects.len() && objects[i].0 == id && 0 <= j < objects[i].1.fields.len()
            && reference_target(#[trigger] objects[i].1.fields[j].1) == Some(q)
}

/// An entry of the map `id` refers to `q`.
pub open spec fn map_points_to(
    maps: Seq<((Seq<char>, Seq<char>), PrimitiveValue)>,
    id: Seq<char>,
    q: PointerView,
) -> bool {
    exists|i: int| 0 <= i < maps.len() && maps[i].0.0 == id && reference_target(#[trigger] maps[i].1) == Some(q)
}

/// An item of the array `id` refers to `q`.
pub open spec fn array_points_to(
    arrays: Seq<((Seq<char>, i32), PrimitiveValue)>,
    id: Seq<char>,
    q: PointerView,
) -> bool {
    exists|i: int|
        0 <= i < arrays.len() && arrays[i].0.0 == id && reference_target(#[trigger] arrays[i].1) == Some(q)
}

/// Marking `p` leads the collector to `q`.
pub open spec fn points_to(t: TablesView, p: PointerView, q: PointerView) -> bool {
    match p {
        PointerView::Object(id) => object_points_to(t.objects, id, q),
        PointerView::JsMap(id) => map_points_to(t.maps, id, q),
        PointerView::Array(id) => array_points_to(t.arrays, id, q),
        _ => false,
    }
}

/// `s` holds every root and everything that its members point to.
pub open spec fn closed_set(t: TablesView, s: Set<PointerView>) -> bool {
    &&& forall|p: PointerView| #[trigger] is_root(t, p) ==> s.contains(p)
    &&& forall|p: PointerView, q: PointerView|
        #[trigger] s.contains(p) && #[trigger] points_to(t, p, q) ==> s.contains(q)
}

/// `p` lies in every set that holds the roots and is closed under references:
/// it can be reached from a root.
pub open spec fn is_reachable(t: TablesView, p: PointerView) -> bool {
    forall|s: Set<PointerView>| #[trigger] closed_set(t, s) ==> s.contains(p)
}

/// Everything that can be reached from a root.
pub open spec fn reachable_set(t: TablesView) -> Set<PointerView> {
    Set::new(|p: PointerView| is_reachable(t, p))
}

/// A stand-in for values that refer to nothing, so that every value has a place
/// in [`universe`].
pub open spec fn target_or_default(v: PrimitiveValue) -> PointerView {
    match reference_target(v) {
        Some(p) => p,
        None => PointerView::Object(Seq::empty()),
    }
}

pub open spec fn field_targets(fields: Seq<(Seq<char>, PrimitiveValue)>) -> Seq<PointerView> {
    fields.map_values(|f: (Seq<char>, PrimitiveValue)| target_or_default(f.1))
}

pub open spec fn object_targets(objects: Seq<(Seq<char>, ObjectView)>) -> Seq<PointerView>
    decreases objects.len(),
{
    if objects.len() == 0 {
        Seq::empty()
    } else {
        object_targets(objects.drop_last()) + field_targets(objects.last().1.fields)
    }
}

pub open spec fn root_targets(t: TablesView) -> Seq<PointerView> {
    t.roots.map_values(|r: (Seq<char>, Seq<char>)| PointerView::Object(r.1))
}

pub open spec fn map_targets(t: TablesView) -> Seq<PointerView> {
    t.maps.map_values(|e: ((Seq<char>, Seq<char>), PrimitiveValue)| target_or_default(e.1))
}

pub open spec fn array_targets(t: TablesView) -> Seq<PointerView> {
    t.arrays.map_values(|e: ((Seq<char>, i32), PrimitiveValue)| target_or_default(e.1))
}

/// A finite sequence that holds every pointer the collector can meet.
pub open spec fn universe(t: TablesView) -> Seq<PointerView> {
    root_targets(t) + object_targets(t.objects) + map_targets(t) + array_targets(t)
}

proof fn lemma_object_targets_contains(objects: Seq<(Seq<char>, ObjectView)>, i: int, j: int)
    requires
        0 <= i < objects.len(),
        0 <= j < objects[i].1.fields.len(),
    ensures
        object_targets(objects).contains(target_or_default(objects[i].1.fields[j].1)),
    decreases objects.len(),
{
    let x = target_or_default(objects[i].1.fields[j].1);
    let a = object_targets(objects.drop_last());
    let b = field_targets(objects.last().1.fields);
    if i == objects.len() - 1 {
        assert(b[j] == x);
        assert((a + b)[a.len() + j] == x);
    } else {
        assert(objects.drop_last()[i] == objects[i]);
        lemma_object_targets_contains(objects.drop_last(), i, j);
        let k = choose|k: int| 0 <= k < a.len() && a[k] == x;
        assert((a + b)[k] == x);
    }
}

/// Every root and every pointer that marking follows lies in the universe.
proof fn lemma_in_universe(t: TablesView, p: PointerView, q: PointerView)
    ensures
        is_root(t, q) ==> universe(t).contains(q),
        points_to(t, p, q) ==> universe(t).contains(q),
{
    let r = root_targets(t);
    let o = object_targets(t.objects);
    let m = map_targets(t);
    let a = array_targets(t);
    let u = universe(t);
    assert(u == r + o + m + a);
    if is_root(t, q) {
        let i = choose|i: int| 0 <= i < t.roots.len() && q == PointerView::Object(t.roots[i].1);
        assert(u[i] == r[i]);
    }
    if points_to(t, p, q) {
        match p {
            PointerView::Object(id) => {
                let (i, j) = choose|i: int, j: int|
                    0 <= i < t.objects.len() && t.objects[i].0 == id && 0 <= j
                        < t.objects[i].1.fields.len() && reference_target(
                        #[trigger] t.objects[i].1.fields[j].1,
                    ) == Some(q);
                lemma_object_targets_contains(t.objects, i, j);
                let k = choose|k: int| 0 <= k < o.len() && o[k] == q;
                assert(u[r.len() + k] == q);
            },
            PointerView::JsMap(id) => {
                let i = choose|i: int|
                    0 <= i < t.maps.len() && t.maps[i].0.0 == id && reference_target(
                        #[trigger] t.maps[i].1,
                    ) == Some(q);
                assert(m[i] == q);
                assert(u[r.len() + o.len() + i] == q);
            },
            PointerView::Array(id) => {
                let i = choose|i: int|
                    0 <= i < t.arrays.len() && t.arrays[i].0.0 == id && reference_target(
                        #[trigger] t.arrays[i].1,
                    ) == Some(q);
                assert(a[i] == q);
                assert(u[r.len() + o.len() + m.len() + i] == q);
            },
            _ => {},
        }
    }
}

/// A sequence without repetitions drawn from `u` is no longer than `u`.
proof fn lemma_no_dup_bounded(r: Seq<PointerView>, u: Seq<PointerView>)
    requires
        r.no_duplicates(),
        forall|i: int| 0 <= i < r.len() ==> u.contains(#[trigger] r[i]),
    ensures
        r.len() <= u.len(),
{
    r.unique_seq_to_set();
    u.lemma_cardinality_of_set();
    assert(r.to_set().subset_of(u.to_set())) by {
        assert forall|x: PointerView| r.to_set().contains(x) implies u.to_set().contains(x) by {
            let i = choose|i: int| 0 <= i < r.len() && r[i] == x;
        }
    }
    vstd::set_lib::lemma_len_subset(r.to_set(), u.to_set());
}

fn string_eq(a: &String, b: &String) -> (r: bool)
    ensures
        r == (a@ == b@),
{
    *a == *b
}

/// Whether two pointers are equal.
pub fn pointer_eq(a: &Pointer, b: &Pointer) -> (r: bool)
    ensures
        r == (a@ == b@),
{
    match (a, b) {
        (Pointer::Object(x), Pointer::Object(y)) => string_eq(&x.id, &y.id),
        (Pointer::JsMap(x), Pointer::JsMap(y)) => string_eq(&x.id, &y.id),
        (Pointer::Array(x), Pointer::Array(y)) => string_eq(&x.id, &y.id),
        (Pointer::MapField(x), Pointer::MapField(y)) => string_eq(&x.id, &y.id) && string_eq(
            &x.field,
            &y.field,
        ),
        (Pointer::ArrayItem(x), Pointer::ArrayItem(y)) => string_eq(&x.id, &y.id) && x.index
            == y.index,
        _ => false,
    }
}

/// Whether `p` occurs among the pointers.
pub fn contains_pointer(v: &Vec<Pointer>, p: &Pointer) -> (r: bool)
    ensures
        r == pointer_views(v@).contains(p@),
{
    let mut i: usize = 0;
    while i < v.len()
        invariant
            i <= v.len(),
            forall|k: int| 0 <= k < i ==> v@[k]@ != p@,
        decreases v.len() - i,
    {
        if pointer_eq(&v[i], p) {
            assert(pointer_views(v@)[i as int] == p@);
            return true;
        }
        i += 1;
    }
    assert forall|k: int| 0 <= k < pointer_views(v@).len() implies pointer_views(v@)[k] != p@ by {
        assert(pointer_views(v@)[k] == v@[k]@);
    }
    false
}

/// The pointer that a stored value holds, if it is a reference.
pub fn reference_pointer(v: &CloudstatePrimitiveData) -> (r: Option<Pointer>)
    ensures
        match r {
            Some(p) => reference_target(v@) == Some(p@),
            None => reference_target(v@) is None,
        },
{
    match v {
        CloudstatePrimitiveData::ObjectReference(o) => Some(
            Pointer::Object(CloudstateObjectKey { id: o.id.clone() }),
        ),
        CloudstatePrimitiveData::MapReference(m) => Some(
            Pointer::JsMap(CloudstateObjectKey { id: m.clone() }),
        ),
        CloudstatePrimitiveData::ArrayReference(a) => Some(
            Pointer::Array(CloudstateObjectKey { id: a.clone() }),
        ),
        _ => None,
    }
}

/// The position of the stored object `id`, if the table holds it.
pub fn find_object(objects: &Vec<(CloudstateObjectKey, CloudstateObjectValue)>, id: &CloudstateObjectKey) -> (r: Option<usize>)
    ensures
        entries_view(objects@).len() == objects@.len(),
        match r {
            Some(i) => i < objects@.len() && entries_view(objects@)[i as int].0 == id@,
            None => forall|k: int| 0 <= k < objects@.len() ==> entries_view(objects@)[k].0 != id@,
        },
{
    let ghost ov = entries_view(objects@);
    let mut i: usize = 0;
    while i < objects.len()
        invariant
            i <= objects.len(),
            ov == entries_view(objects@),
            ov.len() == objects@.len(),
            forall|k: int| 0 <= k < i ==> ov[k].0 != id@,
        decreases objects.len() - i,
    {
        if string_eq(&objects[i].0.id, &id.id) {
            assert(ov[i as int].0 == id@);
            return Some(i);
        }
        i += 1;
    }
    None
}

/// Pushes onto the stack what the object `id` refers to.
fn push_object_targets(
    objects: &Vec<(CloudstateObjectKey, CloudstateObjectValue)>,
    id: &CloudstateObjectKey,
    stack: &mut Vec<Pointer>,
)
    requires
        keys_unique(entries_view(objects@)),
    ensures
        pointer_views(final(stack)@).len() >= pointer_views(old(stack)@).len(),
        pointer_views(final(stack)@).subrange(0, old(stack)@.len() as int) == pointer_views(
            old(stack)@,
        ),
        forall|k: int|
            old(stack)@.len() <= k < final(stack)@.len() ==> object_points_to(
                entries_view(objects@),
                id@,
                #[trigger] pointer_views(final(stack)@)[k],
            ),
        forall|q: PointerView|
            #[trigger] object_points_to(entries_view(objects@), id@, q) ==> pointer_views(
                final(stack)@,
            ).contains(q),
{
    let ghost ov = entries_view(objects@);
    let ghost old_stack = pointer_views(stack@);
    let found = find_object(objects, id);
    match found {
        None => {
            assert forall|q: PointerView| !object_points_to(ov, id@, q) by {
                if object_points_to(ov, id@, q) {
                    let (a, b) = choose|a: int, b: int|
                        0 <= a < ov.len() && ov[a].0 == id@ && 0 <= b < ov[a].1.fields.len()
                            && reference_target(#[trigger] ov[a].1.fields[b].1) == Some(q);
                }
            }
            assert(pointer_views(stack@).subrange(0, old(stack)@.len() as int) =~= old_stack);
        },
        Some(idx) => {
            assert(ov[idx as int].0 == id@);
            let fields = &objects[idx].1.data.fields;
            let ghost fv = ov[idx as int].1.fields;
            assert(fv == fields_view(fields@));
            for j in 0..fields.len()
                invariant
                    ov == entries_view(objects@),
                    idx < objects.len(),
                    ov[idx as int].0 == id@,
                    fv == ov[idx as int].1.fields,
                    fv == fields_view(fields@),
                    fields == &objects@[idx as int].1.data.fields,
                    pointer_views(stack@).len() >= old_stack.len(),
                    pointer_views(stack@).subrange(0, old_stack.len() as int) == old_stack,
                    forall|k: int|
                        old_stack.len() <= k < stack@.len() ==> object_points_to(
                            ov,
                            id@,
                            #[trigger] pointer_views(stack@)[k],
                        ),
                    forall|b: int|
                        0 <= b < j && (#[trigger] reference_target(fv[b].1)) is Some
                            ==> pointer_views(stack@).contains(reference_target(fv[b].1)->0),
            {
                assert(fv[j as int] == (fields@[j as int].0@, fields@[j as int].1@));
                match reference_pointer(&fields[j].1) {
                    Some(q) => {
                        let ghost before = pointer_views(stack@);
                        stack.push(q);
                        assert(pointer_views(stack@) =~= before.push(q@));
                        assert(object_points_to(ov, id@, q@)) by {
                            assert(reference_target(ov[idx as int].1.fields[j as int].1) == Some(
                                q@,
                            ));
                        }
                        assert(pointer_views(stack@)[before.len() as int] == q@);
                        assert forall|b: int|
                            0 <= b < j + 1 && (#[trigger] reference_target(
                                fv[b].1,
                            )) is Some implies pointer_views(stack@).contains(
                            reference_target(fv[b].1)->0,
                        ) by {
                            if b < j {
                                let x = reference_target(fv[b].1)->0;
                                let k = choose|k: int| 0 <= k < before.len() && before[k] == x;
                                assert(pointer_views(stack@)[k] == x);
                            }
                        }
                    },
                    None => {},
                }
            }
            assert forall|q: PointerView| #[trigger]
                object_points_to(ov, id@, q) implies pointer_views(stack@).contains(q) by {
                let (a, b) = choose|a: int, b: int|
                    0 <= a < ov.len() && ov[a].0 == id@ && 0 <= b < ov[a].1.fields.len()
                        && reference_target(#[trigger] ov[a].1.fields[b].1) == Some(q);
                if a != idx {
                    assert(ov[a].0 == ov[idx as int].0);
                }
                assert(reference_target(fv[b].1) == Some(q));
            }
        },
    }
}

/// Pushes onto the stack what the entries of the map `id` refer to.
fn push_map_targets(
    maps: &Vec<(CloudstateMapFieldKey, CloudstateMapFieldValue)>,
    id: &CloudstateObjectKey,
    stack: &mut Vec<Pointer>,
)
    ensures
        pointer_views(final(stack)@).len() >= pointer_views(old(stack)@).len(),
        pointer_views(final(stack)@).subrange(0, old(stack)@.len() as int) == pointer_views(
            old(stack)@,
        ),
        forall|k: int|
            old(stack)@.len() <= k < final(stack)@.len() ==> map_points_to(
                entries_view(maps@),
                id@,
                #[trigger] pointer_views(final(stack)@)[k],
            ),
        forall|q: PointerView|
            #[trigger] map_points_to(entries_view(maps@), id@, q) ==> pointer_views(
                final(stack)@,
            ).contains(q),
{
    let ghost mv = entries_view(maps@);
    let ghost old_stack = pointer_views(stack@);
    for i in 0..maps.len()
        invariant
            mv == entries_view(maps@),
            mv.len() == maps@.len(),
            pointer_views(stack@).len() >= old_stack.len(),
            pointer_views(stack@).subrange(0, old_stack.len() as int) == old_stack,
            forall|k: int|
                old_stack.len() <= k < stack@.len() ==> map_points_to(
                    mv,
                    id@,
                    #[trigger] pointer_views(stack@)[k],
                ),
            forall|b: int|
                0 <= b < i && mv[b].0.0 == id@ && (#[trigger] reference_target(mv[b].1)) is Some
                    ==> pointer_views(stack@).contains(reference_target(mv[b].1)->0),
    {
        assert(mv[i as int] == (maps@[i as int].0@, maps@[i as int].1@));
        if string_eq(&maps[i].0.id, &id.id) {
            match reference_pointer(&maps[i].1.data) {
                Some(q) => {
                    let ghost before = pointer_views(stack@);
                    stack.push(q);
                    assert(pointer_views(stack@) =~= before.push(q@));
                    assert(map_points_to(mv, id@, q@)) by {
                        assert(reference_target(mv[i as int].1) == Some(q@));
                    }
                    assert(pointer_views(stack@)[before.len() as int] == q@);
                    assert forall|b: int|
                        0 <= b < i + 1 && mv[b].0.0 == id@ && (#[trigger] reference_target(
                            mv[b].1,
                        )) is Some implies pointer_views(stack@).contains(
                        reference_target(mv[b].1)->0,
                    ) by {
                        if b < i {
                            let x = reference_target(mv[b].1)->0;
                            let k = choose|k: int| 0 <= k < before.len() && before[k] == x;
                            assert(pointer_views(stack@)[k] == x);
                        }
                    }
                },
                None => {},
            }
        }
    }
    assert forall|q: PointerView| #[trigger]
        map_points_to(mv, id@, q) implies pointer_views(stack@).contains(q) by {
        let a = choose|a: int|
            0 <= a < mv.len() && mv[a].0.0 == id@ && reference_target(#[trigger] mv[a].1) == Some(q);
    }
}

/// Pushes onto the stack what the items of the array `id` refer to.
fn push_array_targets(
    arrays: &Vec<(CloudstateArrayItemKey, CloudstateArrayItemValue)>,
    id: &CloudstateObjectKey,
    stack: &mut Vec<Pointer>,
)
    ensures
        pointer_views(final(stack)@).len() >= pointer_views(old(stack)@).len(),
        pointer_views(final(stack)@).subrange(0, old(stack)@.len() as int) == pointer_views(
            old(stack)@,
        ),
        forall|k: int|
            old(stack)@.len() <= k < final(stack)@.len() ==> array_points_to(
                entries_view(arrays@),
                id@,
                #[trigger] pointer_views(final(stack)@)[k],
            ),
        forall|q: PointerView|
            #[trigger] array_points_to(entries_view(arrays@), id@, q) ==> pointer_views(
                final(stack)@,
            ).contains(q),
{
    let ghost av = entries_view(arrays@);
    let ghost old_stack = pointer_views(stack@);
    for i in 0..arrays.len()
        invariant
            av == entries_view(arrays@),
            av.len() == arrays@.len(),
            pointer_views(stack@).len() >= old_stack.len(),
            pointer_views(stack@).subrange(0, old_stack.len() as int) == old_stack,
            forall|k: int|
                old_stack.len() <= k < stack@.len() ==> array_points_to(
                    av,
                    id@,
                    #[trigger] pointer_views(stack@)[k],
                ),
            forall|b: int|
                0 <= b < i && av[b].0.0 == id@ && (#[trigger] reference_target(av[b].1)) is Some
                    ==> pointer_views(stack@).contains(reference_target(av[b].1)->0),
    {
        assert(av[i as int] == (arrays@[i as int].0@, arrays@[i as int].1@));
        if string_eq(&arrays[i].0.id, &id.id) {
            match reference_pointer(&arrays[i].1.data) {
                Some(q) => {
                    let ghost before = pointer_views(stack@);
                    stack.push(q);
                    assert(pointer_views(stack@) =~= before.push(q@));
                    assert(array_points_to(av, id@, q@)) by {
                        assert(reference_target(av[i as int].1) == Some(q@));
                    }
                    assert(pointer_views(stack@)[before.len() as int] == q@);
                    assert forall|b: int|
                        0 <= b < i + 1 && av[b].0.0 == id@ && (#[trigger] reference_target(
                            av[b].1,
                        )) is Some implies pointer_views(stack@).contains(
                        reference_target(av[b].1)->0,
                    ) by {
                        if b < i {
                            let x = reference_target(av[b].1)->0;
                            let k = choose|k: int| 0 <= k < before.len() && before[k] == x;
                            assert(pointer_views(stack@)[k] == x);
                        }
                    }
                },
                None => {},
            }
        }
    }
    assert forall|q: PointerView| #[trigger]
        array_points_to(av, id@, q) implies pointer_views(stack@).contains(q) by {
        let a = choose|a: int|
            0 <= a < av.len() && av[a].0.0 == id@ && reference_target(#[trigger] av[a].1) == Some(q);
    }
}

/// Pushes onto the stack what marking `pointer` leads to.
fn push_targets(tables: &CloudstateTables, pointer: &Pointer, stack: &mut Vec<Pointer>)
    requires
        keys_unique(tables@.objects),
    ensures
        pointer_views(final(stack)@).len() >= pointer_views(old(stack)@).len(),
        pointer_views(final(stack)@).subrange(0, old(stack)@.len() as int) == pointer_views(
            old(stack)@,
        ),
        forall|k: int|
            old(stack)@.len() <= k < final(stack)@.len() ==> points_to(
                tables@,
                pointer@,
                #[trigger] pointer_views(final(stack)@)[k],
            ),
        forall|q: PointerView|
            #[trigger] points_to(tables@, pointer@, q) ==> pointer_views(final(stack)@).contains(q),
{
    let ghost old_stack = pointer_views(stack@);
    match pointer {
        Pointer::Object(k) => push_object_targets(&tables.objects, k, stack),
        Pointer::JsMap(k) => push_map_targets(&tables.maps, k, stack),
        Pointer::Array(k) => push_array_targets(&tables.arrays, k, stack),
        _ => {},
    }
    proof {
        if !(pointer is Object || pointer is JsMap || pointer is Array) {
            assert(pointer_views(stack@).subrange(0, stack@.len() as int) =~= old_stack);
        }
        assert forall|q: PointerView| #[trigger]
            points_to(tables@, pointer@, q) implies pointer_views(stack@).contains(q) by {
            match pointer {
                Pointer::Object(k) => {
                    assert(pointer@ == PointerView::Object(k@));
                    assert(tables@.objects == entries_view(tables.objects@));
                    assert(points_to(tables@, pointer@, q) == object_points_to(tables@.objects, k@, q));
                    assert(object_points_to(entries_view(tables.objects@), k@, q));
                    assert(pointer_views(stack@).contains(q));
                },
                Pointer::JsMap(k) => {
                    assert(map_points_to(entries_view(tables.maps@), k@, q));
                },
                Pointer::Array(k) => {
                    assert(array_points_to(entries_view(tables.arrays@), k@, q));
                },
                _ => {},
            }
        }
    }
}

/// The pointers that can be reached from the roots, each once.
pub fn mark(tables: &CloudstateTables) -> (reachable: Vec<Pointer>)
    requires
        keys_unique(tables@.objects),
    ensures
        pointer_views(reachable@).no_duplicates(),
        pointer_views(reachable@).to_set() == reachable_set(tables@),
{
    let ghost t = tables@;
    let ghost u = universe(t);
    let mut stack: Vec<Pointer> = Vec::new();
    for i in 0..tables.roots.len()
        invariant
            t == tables@,
            pointer_views(stack@) == root_targets(t).take(i as int),
    {
        let ghost before = pointer_views(stack@);
        let root = Pointer::Object(CloudstateObjectKey { id: tables.roots[i].1.id.clone() });
        stack.push(root);
        assert(pointer_views(stack@) =~= before.push(root@));
        assert(t.roots[i as int] == (tables.roots@[i as int].0@, tables.roots@[i as int].1@));
        assert(pointer_views(stack@) =~= root_targets(t).take(i + 1));
    }
    assert(root_targets(t).take(tables.roots.len() as int) =~= root_targets(t));
    assert forall|p: PointerView| #[trigger] is_root(t, p) implies pointer_views(stack@).contains(
        p,
    ) by {
        let i = choose|i: int| 0 <= i < t.roots.len() && p == PointerView::Object(t.roots[i].1);
        assert(root_targets(t)[i] == p);
    }
    assert forall|k: int| 0 <= k < stack@.len() implies u.contains(
        #[trigger] pointer_views(stack@)[k],
    ) by {
        assert(is_root(t, root_targets(t)[k]));
        lemma_in_universe(t, root_targets(t)[k], root_targets(t)[k]);
    }
    assert forall|s: Set<PointerView>| #[trigger] closed_set(t, s) implies pointer_views(
        stack@,
    ).to_set().subset_of(s) by {
        assert forall|x: PointerView| pointer_views(stack@).to_set().contains(x) implies s.contains(
            x,
        ) by {
            let k = choose|k: int| 0 <= k < stack@.len() && pointer_views(stack@)[k] == x;
            assert(is_root(t, root_targets(t)[k]));
        }
    }
    let mut reachable: Vec<Pointer> = Vec::new();
    assert(pointer_views(reachable@) =~= Seq::<PointerView>::empty());
    while stack.len() > 0
        invariant
            t == tables@,
            u == universe(t),
            keys_unique(t.objects),
            pointer_views(reachable@).no_duplicates(),
            forall|k: int|
                0 <= k < reachable@.len() ==> u.contains(#[trigger] pointer_views(reachable@)[k]),
            forall|k: int| 0 <= k < stack@.len() ==> u.contains(#[trigger] pointer_views(stack@)[k]),
            forall|s: Set<PointerView>| #[trigger]
                closed_set(t, s) ==> pointer_views(reachable@).to_set().subset_of(s)
                    && pointer_views(stack@).to_set().subset_of(s),
            forall|p: PointerView, q: PointerView|
                #[trigger] pointer_views(reachable@).contains(p) && #[trigger] points_to(t, p, q)
                    ==> pointer_views(reachable@).contains(q) || pointer_views(stack@).contains(q),
            forall|p: PointerView| #[trigger]
                is_root(t, p) ==> pointer_views(reachable@).contains(p) || pointer_views(
                    stack@,
                ).contains(p),
        decreases u.len() - reachable@.len(), stack@.len(),
    {
        let ghost old_stack = pointer_views(stack@);
        let ghost old_reach = pointer_views(reachable@);
        let pointer = stack.pop().unwrap();
        let ghost p = pointer@;
        let ghost rest = pointer_views(stack@);
        assert(rest =~= old_stack.drop_last());
        assert(old_stack.last() == p);
        assert(u.contains(p)) by {
            assert(old_stack[old_stack.len() - 1] == p);
        }
        if contains_pointer(&reachable, &pointer) {
            assert forall|p2: PointerView, q: PointerView|
                #[trigger] pointer_views(reachable@).contains(p2) && #[trigger] points_to(t, p2, q)
                    implies pointer_views(reachable@).contains(q) || pointer_views(
                    stack@,
                ).contains(q) by {
                if old_stack.contains(q) && q != p {
                    let k = choose|k: int| 0 <= k < old_stack.len() && old_stack[k] == q;
                    assert(rest[k] == q);
                }
            }
            assert forall|r: PointerView| #[trigger] is_root(t, r) implies pointer_views(
                reachable@,
            ).contains(r) || pointer_views(stack@).contains(r) by {
                if old_stack.contains(r) && r != p {
                    let k = choose|k: int| 0 <= k < old_stack.len() && old_stack[k] == r;
                    assert(rest[k] == r);
                }
            }
            assert forall|k: int| 0 <= k < stack@.len() implies u.contains(
                #[trigger] pointer_views(stack@)[k],
            ) by {
                assert(rest[k] == old_stack[k]);
            }
            assert forall|s: Set<PointerView>| #[trigger] closed_set(t, s) implies pointer_views(
                stack@,
            ).to_set().subset_of(s) by {
                assert forall|x: PointerView| pointer_views(stack@).to_set().contains(x) implies s.contains(
                    x,
                ) by {
                    let k = choose|k: int| 0 <= k < rest.len() && rest[k] == x;
                    assert(old_stack[k] == x);
                    assert(old_stack.to_set().contains(x));
                }
            }
            continue;
        }
        push_targets(tables, &pointer, &mut stack);
        let ghost n = pointer_views(stack@);
        reachable.push(pointer);
        let ghost r2 = pointer_views(reachable@);
        assert(r2 =~= old_reach.push(p));
        assert(r2.no_duplicates()) by {
            assert forall|i: int, j: int| 0 <= i < j < r2.len() implies r2[i] != r2[j] by {
                if j == r2.len() - 1 {
                    assert(r2[i] == old_reach[i]);
                }
            }
        }
        assert forall|k: int| 0 <= k < reachable@.len() implies u.contains(
            #[trigger] pointer_views(reachable@)[k],
        ) by {
            if k < old_reach.len() {
                assert(r2[k] == old_reach[k]);
            }
        }
        assert forall|k: int| 0 <= k < stack@.len() implies u.contains(
            #[trigger] pointer_views(stack@)[k],
        ) by {
            if k < rest.len() {
                assert(n[k] == n.subrange(0, rest.len() as int)[k]);
                assert(rest[k] == old_stack[k]);
            } else {
                assert(points_to(t, p, n[k]));
                lemma_in_universe(t, p, n[k]);
            }
        }
        assert forall|s: Set<PointerView>| #[trigger] closed_set(t, s) implies r2.to_set().subset_of(
            s,
        ) && n.to_set().subset_of(s) by {
            assert(old_stack.to_set().contains(p));
            assert(s.contains(p));
            assert forall|x: PointerView| r2.to_set().contains(x) implies s.contains(x) by {
                let k = choose|k: int| 0 <= k < r2.len() && r2[k] == x;
                if k < old_reach.len() {
                    assert(old_reach[k] == x);
                    assert(old_reach.to_set().contains(x));
                }
            }
            assert forall|x: PointerView| n.to_set().contains(x) implies s.contains(x) by {
                let k = choose|k: int| 0 <= k < n.len() && n[k] == x;
                if k < rest.len() {
                    assert(n.subrange(0, rest.len() as int)[k] == x);
                    assert(old_stack[k] == x);
                    assert(old_stack.to_set().contains(x));
                } else {
                    assert(points_to(t, p, n[k]));
                }
            }
        }
        assert forall|p2: PointerView, q: PointerView|
            #[trigger] r2.contains(p2) && #[trigger] points_to(t, p2, q) implies r2.contains(q)
                || n.contains(q) by {
            if p2 == p {
            } else {
                let k = choose|k: int| 0 <= k < r2.len() && r2[k] == p2;
                assert(old_reach[k] == p2);
                assert(old_reach.contains(p2));
                if old_reach.contains(q) {
                    let k2 = choose|k2: int| 0 <= k2 < old_reach.len() && old_reach[k2] == q;
                    assert(r2[k2] == q);
                } else if q == p {
                    assert(r2[old_reach.len() as int] == q);
                } else {
                    let k2 = choose|k2: int| 0 <= k2 < old_stack.len() && old_stack[k2] == q;
                    assert(k2 < rest.len());
                    assert(n.subrange(0, rest.len() as int)[k2] == q);
                    assert(n[k2] == q);
                }
            }
        }
        assert forall|r: PointerView| #[trigger] is_root(t, r) implies r2.contains(r) || n.contains(
            r,
        ) by {
            if old_reach.contains(r) {
                let k2 = choose|k2: int| 0 <= k2 < old_reach.len() && old_reach[k2] == r;
                assert(r2[k2] == r);
            } else if r == p {
                assert(r2[old_reach.len() as int] == r);
            } else {
                let k2 = choose|k2: int| 0 <= k2 < old_stack.len() && old_stack[k2] == r;
                assert(k2 < rest.len());
                assert(n.subrange(0, rest.len() as int)[k2] == r);
                assert(n[k2] == r);
            }
        }
        proof {
            lemma_no_dup_bounded(r2, u);
        }
    }
    let ghost rv = pointer_views(reachable@);
    assert(closed_set(t, rv.to_set())) by {
        assert forall|p: PointerView| #[trigger] is_root(t, p) implies rv.to_set().contains(p) by {
            assert(rv.contains(p));
        }
        assert forall|p: PointerView, q: PointerView|
            #[trigger] rv.to_set().contains(p) && #[trigger] points_to(t, p, q) implies rv.to_set().contains(
                q,
            ) by {
            assert(rv.contains(p));
            assert(rv.contains(q));
        }
    }
    assert(rv.to_set() =~= reachable_set(t)) by {
        assert forall|x: PointerView| rv.to_set().contains(x) implies is_reachable(t, x) by {
            assert forall|s: Set<PointerView>| #[trigger] closed_set(t, s) implies s.contains(x) by {
                assert(rv.to_set().subset_of(s));
            }
        }
        assert forall|x: PointerView| is_reachable(t, x) implies rv.to_set().contains(x) by {
            assert(closed_set(t, rv.to_set()));
        }
    }
    reachable
}

/// The objects of the table that `live` does not hold, in table order.
pub open spec fn object_garbage(
    objects: Seq<(Seq<char>, ObjectView)>,
    live: Set<PointerView>,
) -> Seq<PointerView>
    decreases objects.len(),
{
    if objects.len() == 0 {
        Seq::empty()
    } else {
        let p = PointerView::Object(objects.last().0);
        object_garbage(objects.drop_last(), live) + if live.contains(p) {
            Seq::empty()
        } else {
            seq![p]
        }
    }
}

/// The map entries whose map `live` does not hold, in table order.
pub open spec fn map_garbage(
    maps: Seq<((Seq<char>, Seq<char>), PrimitiveValue)>,
    live: Set<PointerView>,
) -> Seq<PointerView>
    decreases maps.len(),
{
    if maps.len() == 0 {
        Seq::empty()
    } else {
        let k = maps.last().0;
        map_garbage(maps.drop_last(), live) + if live.contains(PointerView::JsMap(k.0)) {
            Seq::empty()
        } else {
            seq![PointerView::MapField(k.0, k.1)]
        }
    }
}

/// The array items whose array `live` does not hold, in table order.
pub open spec fn array_garbage(
    arrays: Seq<((Seq<char>, i32), PrimitiveValue)>,
    live: Set<PointerView>,
) -> Seq<PointerView>
    decreases arrays.len(),
{
    if arrays.len() == 0 {
        Seq::empty()
    } else {
        let k = arrays.last().0;
        array_garbage(arrays.drop_last(), live) + if live.contains(PointerView::Array(k.0)) {
            Seq::empty()
        } else {
            seq![PointerView::ArrayItem(k.0, k.1)]
        }
    }
}

/// What sweeping deletes when `live` is what marking reached: unreached
/// objects, then the entries of unreached maps, then the items of unreached
/// arrays.
pub open spec fn garbage(t: TablesView, live: Set<PointerView>) -> Seq<PointerView> {
    object_garbage(t.objects, live) + map_garbage(t.maps, live) + array_garbage(t.arrays, live)
}

/// The pointers to delete: every object that `reachable` does not hold, and
/// every map entry and array item whose map or array it does not hold.
pub fn sweep(tables: &CloudstateTables, reachable: &Vec<Pointer>) -> (to_delete: Vec<Pointer>)
    ensures
        pointer_views(to_delete@) == garbage(tables@, pointer_views(reachable@).to_set()),
{
    let ghost t = tables@;
    let ghost live = pointer_views(reachable@).to_set();
    let mut to_delete: Vec<Pointer> = Vec::new();
    assert(pointer_views(to_delete@) =~= Seq::<PointerView>::empty());
    for i in 0..tables.objects.len()
        invariant
            t == tables@,
            t.objects.len() == tables.objects@.len(),
            live == pointer_views(reachable@).to_set(),
            pointer_views(to_delete@) == object_garbage(t.objects.take(i as int), live),
    {
        let ghost before = pointer_views(to_delete@);
        assert(t.objects.take(i + 1).drop_last() =~= t.objects.take(i as int));
        assert(t.objects[i as int].0 == tables.objects@[i as int].0@);
        let p = Pointer::Object(tables.objects[i].0.clone());
        if !contains_pointer(reachable, &p) {
            to_delete.push(p);
            assert(pointer_views(to_delete@) =~= before.push(p@));
        }
        assert(pointer_views(to_delete@) =~= object_garbage(t.objects.take(i + 1), live));
    }
    assert(t.objects.take(tables.objects.len() as int) =~= t.objects);
    let ghost objs = pointer_views(to_delete@);
    for i in 0..tables.maps.len()
        invariant
            t == tables@,
            t.maps.len() == tables.maps@.len(),
            live == pointer_views(reachable@).to_set(),
            objs == object_garbage(t.objects, live),
            pointer_views(to_delete@) == objs + map_garbage(t.maps.take(i as int), live),
    {
        let ghost before = pointer_views(to_delete@);
        assert(t.maps.take(i + 1).drop_last() =~= t.maps.take(i as int));
        assert(t.maps[i as int].0 == tables.maps@[i as int].0@);
        let key = &tables.maps[i].0;
        let p = Pointer::JsMap(CloudstateObjectKey { id: key.id.clone() });
        if !contains_pointer(reachable, &p) {
            let d = Pointer::MapField(key.clone());
            to_delete.push(d);
            assert(pointer_views(to_delete@) =~= before.push(d@));
        }
        assert(pointer_views(to_delete@) =~= objs + map_garbage(t.maps.take(i + 1), live));
    }
    assert(t.maps.take(tables.maps.len() as int) =~= t.maps);
    let ghost objs_maps = pointer_views(to_delete@);
    for i in 0..tables.arrays.len()
        invariant
            t == tables@,
            t.arrays.len() == tables.arrays@.len(),
            live == pointer_views(reachable@).to_set(),
            objs_maps == object_garbage(t.objects, live) + map_garbage(t.maps, live),
            pointer_views(to_delete@) == objs_maps + array_garbage(t.arrays.take(i as int), live),
    {
        let ghost before = pointer_views(to_delete@);
        assert(t.arrays.take(i + 1).drop_last() =~= t.arrays.take(i as int));
        assert(t.arrays[i as int].0 == tables.arrays@[i as int].0@);
        let key = &tables.arrays[i].0;
        let p = Pointer::Array(CloudstateObjectKey { id: key.id.clone() });
        if !contains_pointer(reachable, &p) {
            let d = Pointer::ArrayItem(key.clone());
            to_delete.push(d);
            assert(pointer_views(to_delete@) =~= before.push(d@));
        }
        assert(pointer_views(to_delete@) =~= objs_maps + array_garbage(t.arrays.take(i + 1), live));
    }
    assert(t.arrays.take(tables.arrays.len() as int) =~= t.arrays);
    to_delete
}

/// One garbage collection: marks what the roots reach and returns what to
/// delete.
pub fn mark_and_sweep(tables: &CloudstateTables) -> (to_delete: Vec<Pointer>)
    requires
        keys_unique(tables@.objects),
    ensures
        pointer_views(to_delete@) == garbage(tables@, reachable_set(tables@)),
{
    let reachable = mark(tables);
    sweep(tables, &reachable)
}

/// What a sweep given `live` deletes: objects of the table that `live` does not
/// hold, and map entries and array items of the tables whose map or array it
/// does not hold.
pub open spec fn collectable(t: TablesView, live: Set<PointerView>, p: PointerView) -> bool {
    match p {
        PointerView::Object(k) => (exists|i: int| 0 <= i < t.objects.len() && t.objects[i].0 == k)
            && !live.contains(p),
        PointerView::MapField(id, f) => (exists|i: int|
            0 <= i < t.maps.len() && t.maps[i].0 == (id, f)) && !live.contains(
            PointerView::JsMap(id),
        ),
        PointerView::ArrayItem(id, n) => (exists|i: int|
            0 <= i < t.arrays.len() && t.arrays[i].0 == (id, n)) && !live.contains(
            PointerView::Array(id),
        ),
        _ => false,
    }
}

proof fn lemma_object_garbage_contains(
    objects: Seq<(Seq<char>, ObjectView)>,
    live: Set<PointerView>,
    p: PointerView,
)
    ensures
        object_garbage(objects, live).contains(p) <==> (p matches PointerView::Object(k) && (exists|
            i: int,
        | 0 <= i < objects.len() && objects[i].0 == k) && !live.contains(p)),
    decreases objects.len(),
{
    if objects.len() > 0 {
        let rest = objects.drop_last();
        lemma_object_garbage_contains(rest, live, p);
        let last = PointerView::Object(objects.last().0);
        let tail = if live.contains(last) { Seq::empty() } else { seq![last] };
        let g = object_garbage(rest, live);
        assert(object_garbage(objects, live) == g + tail);
        if object_garbage(objects, live).contains(p) {
            let k = choose|k: int| 0 <= k < (g + tail).len() && (g + tail)[k] == p;
            if k >= g.len() {
                assert(tail[k - g.len()] == p);
                assert(objects[objects.len() - 1].0 == objects.last().0);
            } else {
                assert(g[k] == p);
                assert(g.contains(p));
                if let PointerView::Object(id) = p {
                    let i = choose|i: int| 0 <= i < rest.len() && rest[i].0 == id;
                    assert(objects[i].0 == id);
                }
            }
        }
        if let PointerView::Object(id) = p {
            if (exists|i: int| 0 <= i < objects.len() && objects[i].0 == id) && !live.contains(p) {
                let i = choose|i: int| 0 <= i < objects.len() && objects[i].0 == id;
                if i == objects.len() - 1 {
                    assert((g + tail)[g.len() as int] == p);
                } else {
                    assert(rest[i].0 == id);
                    assert(g.contains(p));
                    let k = choose|k: int| 0 <= k < g.len() && g[k] == p;
                    assert((g + tail)[k] == p);
                }
            }
        }
    }
}

proof fn lemma_map_garbage_contains(
    maps: Seq<((Seq<char>, Seq<char>), PrimitiveValue)>,
    live: Set<PointerView>,
    p: PointerView,
)
    ensures
        map_garbage(maps, live).contains(p) <==> (p matches PointerView::MapField(id, f) && (exists|
            i: int,
        | 0 <= i < maps.len() && maps[i].0 == (id, f)) && !live.contains(PointerView::JsMap(id))),
    decreases maps.len(),
{
    if maps.len() > 0 {
        let rest = maps.drop_last();
        lemma_map_garbage_contains(rest, live, p);
        let k0 = maps.last().0;
        let last = PointerView::MapField(k0.0, k0.1);
        let tail = if live.contains(PointerView::JsMap(k0.0)) {
            Seq::empty()
        } else {
            seq![last]
        };
        let g = map_garbage(rest, live);
        assert(map_garbage(maps, live) == g + tail);
        if map_garbage(maps, live).contains(p) {
            let k = choose|k: int| 0 <= k < (g + tail).len() && (g + tail)[k] == p;
            if k >= g.len() {
                assert(tail[k - g.len()] == p);
                assert(maps[maps.len() - 1].0 == k0);
            } else {
                assert(g[k] == p);
                assert(g.contains(p));
                if let PointerView::MapField(id, f) = p {
                    let i = choose|i: int| 0 <= i < rest.len() && rest[i].0 == (id, f);
                    assert(maps[i].0 == (id, f));
                }
            }
        }
        if let PointerView::MapField(id, f) = p {
            if (exists|i: int| 0 <= i < maps.len() && maps[i].0 == (id, f)) && !live.contains(
                PointerView::JsMap(id),
            ) {
                let i = choose|i: int| 0 <= i < maps.len() && maps[i].0 == (id, f);
                if i == maps.len() - 1 {
                    assert((g + tail)[g.len() as int] == p);
                } else {
                    assert(rest[i].0 == (id, f));
                    assert(g.contains(p));
                    let k = choose|k: int| 0 <= k < g.len() && g[k] == p;
                    assert((g + tail)[k] == p);
                }
            }
        }
    }
}

proof fn lemma_array_garbage_contains(
    arrays: Seq<((Seq<char>, i32), PrimitiveValue)>,
    live: Set<PointerView>,
    p: PointerView,
)
    ensures
        array_garbage(arrays, live).contains(p) <==> (p matches PointerView::ArrayItem(id, n) && (exists|
            i: int,
        | 0 <= i < arrays.len() && arrays[i].0 == (id, n)) && !live.contains(PointerView::Array(id))),
    decreases arrays.len(),
{
    if arrays.len() > 0 {
        let rest = arrays.drop_last();
        lemma_array_garbage_contains(rest, live, p);
        let k0 = arrays.last().0;
        let last = PointerView::ArrayItem(k0.0, k0.1);
        let tail = if live.contains(PointerView::Array(k0.0)) {
            Seq::empty()
        } else {
            seq![last]
        };
        let g = array_garbage(rest, live);
        assert(array_garbage(arrays, live) == g + tail);
        if array_garbage(arrays, live).contains(p) {
            let k = choose|k: int| 0 <= k < (g + tail).len() && (g + tail)[k] == p;
            if k >= g.len() {
                assert(tail[k - g.len()] == p);
                assert(arrays[arrays.len() - 1].0 == k0);
            } else {
                assert(g[k] == p);
                assert(g.contains(p));
                if let PointerView::ArrayItem(id, n) = p {
                    let i = choose|i: int| 0 <= i < rest.len() && rest[i].0 == (id, n);
                    assert(arrays[i].0 == (id, n));
                }
            }
        }
        if let PointerView::ArrayItem(id, n) = p {
            if (exists|i: int| 0 <= i < arrays.len() && arrays[i].0 == (id, n)) && !live.contains(
                PointerView::Array(id),
            ) {
                let i = choose|i: int| 0 <= i < arrays.len() && arrays[i].0 == (id, n);
                if i == arrays.len() - 1 {
                    assert((g + tail)[g.len() as int] == p);
                } else {
                    assert(rest[i].0 == (id, n));
                    assert(g.contains(p));
                    let k = choose|k: int| 0 <= k < g.len() && g[k] == p;
                    assert((g + tail)[k] == p);
                }
            }
        }
    }
}

/// Sweeping deletes exactly the unreached objects and the entries and items of
/// unreached maps and arrays, and nothing else.
pub proof fn lemma_sweep_deletes_exactly_unreached(t: TablesView, live: Set<PointerView>, p: PointerView)
    ensures
        garbage(t, live).contains(p) <==> collectable(t, live, p),
{
    let a = object_garbage(t.objects, live);
    let b = map_garbage(t.maps, live);
    let c = array_garbage(t.arrays, live);
    lemma_object_garbage_contains(t.objects, live, p);
    lemma_map_garbage_contains(t.maps, live, p);
    lemma_array_garbage_contains(t.arrays, live, p);
    let g = garbage(t, live);
    assert(g == a + b + c);
    if g.contains(p) {
        let k = choose|k: int| 0 <= k < g.len() && g[k] == p;
        if k < a.len() {
            assert(a[k] == p);
            assert(a.contains(p));
        } else if k < a.len() + b.len() {
            assert(b[k - a.len()] == p);
            assert(b.contains(p));
        } else {
            assert(c[k - a.len() - b.len()] == p);
            assert(c.contains(p));
        }
    }
    if a.contains(p) {
        let k = choose|k: int| 0 <= k < a.len() && a[k] == p;
        assert(g[k] == p);
    }
    if b.contains(p) {
        let k = choose|k: int| 0 <= k < b.len() && b[k] == p;
        assert(g[a.len() + k] == p);
    }
    if c.contains(p) {
        let k = choose|k: int| 0 <= k < c.len() && c[k] == p;
        assert(g[a.len() + b.len() + k] == p);
    }
}

/// The reachable set holds every root and everything its members refer to,
/// and lies inside every set with that property.
pub proof fn lemma_reachable_is_least_closed_set(t: TablesView)
    ensures
        closed_set(t, reachable_set(t)),
        forall|s: Set<PointerView>| #[trigger] closed_set(t, s) ==> reachable_set(t).subset_of(s),
{
    assert forall|p: PointerView| #[trigger] is_root(t, p) implies reachable_set(t).contains(p) by {
        assert forall|s: Set<PointerView>| #[trigger] closed_set(t, s) implies s.contains(p) by {}
    }
    assert forall|p: PointerView, q: PointerView|
        #[trigger] reachable_set(t).contains(p) && #[trigger] points_to(t, p, q) implies reachable_set(
            t,
        ).contains(q) by {
        assert forall|s: Set<PointerView>| #[trigger] closed_set(t, s) implies s.contains(q) by {
            assert(s.contains(p));
        }
    }
}

/// A collection never deletes an object that a root reaches, nor the entries
/// or items of a reached map or array; it deletes every stored object that no
/// root reaches.
pub proof fn lemma_collection_keeps_exactly_reachable(t: TablesView, p: PointerView)
    ensures
        p is Object && is_reachable(t, p) ==> !garbage(t, reachable_set(t)).contains(p),
        (p matches PointerView::Object(k) && (exists|i: int|
            0 <= i < t.objects.len() && t.objects[i].0 == k) && !is_reachable(t, p)) ==> garbage(
            t,
            reachable_set(t),
        ).contains(p),
        forall|id: Seq<char>, f: Seq<char>|
            #[trigger] garbage(t, reachable_set(t)).contains(PointerView::MapField(id, f))
                ==> !is_reachable(t, PointerView::JsMap(id)),
        forall|id: Seq<char>, n: i32|
            #[trigger] garbage(t, reachable_set(t)).contains(PointerView::ArrayItem(id, n))
                ==> !is_reachable(t, PointerView::Array(id)),
{
    lemma_sweep_deletes_exactly_unreached(t, reachable_set(t), p);
    assert forall|id: Seq<char>, f: Seq<char>|
        #[trigger] garbage(t, reachable_set(t)).contains(PointerView::MapField(id, f))
            implies !is_reachable(t, PointerView::JsMap(id)) by {
        lemma_sweep_deletes_exactly_unreached(t, reachable_set(t), PointerView::MapField(id, f));
    }
    assert forall|id: Seq<char>, n: i32|
        #[trigger] garbage(t, reachable_set(t)).contains(PointerView::ArrayItem(id, n))
            implies !is_reachable(t, PointerView::Array(id)) by {
        lemma_sweep_deletes_exactly_unreached(t, reachable_set(t), PointerView::ArrayItem(id, n));
    }
}

/// No root object is ever deleted by a collection.
pub proof fn lemma_roots_survive_collection(t: TablesView, p: PointerView)
    requires
        is_root(t, p),
    ensures
        !garbage(t, reachable_set(t)).contains(p),
{
    lemma_reachable_is_least_closed_set(t);
    assert(reachable_set(t).contains(p));
    lemma_sweep_deletes_exactly_unreached(t, reachable_set(t), p);
}

/// Whether an object entry survives a collection that keeps `live`.
pub open spec fn keeps_object(live: Set<PointerView>) -> spec_fn((Seq<char>, ObjectView)) -> bool {
    |e: (Seq<char>, ObjectView)| live.contains(PointerView::Object(e.0))
}

/// Whether a map entry survives a collection that keeps `live`.
pub open spec fn keeps_map_entry(live: Set<PointerView>) -> spec_fn(
    ((Seq<char>, Seq<char>), PrimitiveValue),
) -> bool {
    |e: ((Seq<char>, Seq<char>), PrimitiveValue)| live.contains(PointerView::JsMap(e.0.0))
}

/// Whether an array item survives a collection that keeps `live`.
pub open spec fn keeps_array_item(live: Set<PointerView>) -> spec_fn(
    ((Seq<char>, i32), PrimitiveValue),
) -> bool {
    |e: ((Seq<char>, i32), PrimitiveValue)| live.contains(PointerView::Array(e.0.0))
}

/// The tables once a collection has deleted its garbage: the roots, and the
/// objects, map entries and array items that a root reaches, in table order.
pub open spec fn collected(t: TablesView) -> TablesView {
    let live = reachable_set(t);
    TablesView {
        roots: t.roots,
        objects: t.objects.filter(keeps_object(live)),
        maps: t.maps.filter(keeps_map_entry(live)),
        arrays: t.arrays.filter(keeps_array_item(live)),
    }
}

/// A pointer that a root reaches refers, in the collected tables, to all that
/// it referred to before.
proof fn lemma_collected_keeps_references(t: TablesView, p: PointerView, q: PointerView)
    requires
        reachable_set(t).contains(p),
        points_to(t, p, q),
    ensures
        points_to(collected(t), p, q),
{
    let live = reachable_set(t);
    let c = collected(t);
    match p {
        PointerView::Object(id) => {
            let (i, j) = choose|i: int, j: int|
                0 <= i < t.objects.len() && t.objects[i].0 == id && 0 <= j
                    < t.objects[i].1.fields.len() && reference_target(
                    #[trigger] t.objects[i].1.fields[j].1,
                ) == Some(q);
            t.objects.lemma_filter_contains(keeps_object(live), i);
            let k = choose|k: int| 0 <= k < c.objects.len() && c.objects[k] == t.objects[i];
            assert(reference_target(c.objects[k].1.fields[j].1) == Some(q));
        },
        PointerView::JsMap(id) => {
            let i = choose|i: int|
                0 <= i < t.maps.len() && t.maps[i].0.0 == id && reference_target(
                    #[trigger] t.maps[i].1,
                ) == Some(q);
            t.maps.lemma_filter_contains(keeps_map_entry(live), i);
            let k = choose|k: int| 0 <= k < c.maps.len() && c.maps[k] == t.maps[i];
            assert(reference_target(c.maps[k].1) == Some(q));
        },
        PointerView::Array(id) => {
            let i = choose|i: int|
                0 <= i < t.arrays.len() && t.arrays[i].0.0 == id && reference_target(
                    #[trigger] t.arrays[i].1,
                ) == Some(q);
            t.arrays.lemma_filter_contains(keeps_array_item(live), i);
            let k = choose|k: int| 0 <= k < c.arrays.len() && c.arrays[k] == t.arrays[i];
            assert(reference_target(c.arrays[k].1) == Some(q));
        },
        _ => {},
    }
}

/// What a root reaches before a collection, it still reaches after it.
pub proof fn lemma_collection_keeps_reachability(t: TablesView, p: PointerView)
    requires
        is_reachable(t, p),
    ensures
        is_reachable(collected(t), p),
{
    let live = reachable_set(t);
    let c = collected(t);
    lemma_reachable_is_least_closed_set(t);
    assert forall|s: Set<PointerView>| #[trigger] closed_set(c, s) implies s.contains(p) by {
        let both = s.intersect(live);
        assert forall|x: PointerView| #[trigger] is_root(t, x) implies both.contains(x) by {
            let i = choose|i: int| 0 <= i < t.roots.len() && x == PointerView::Object(t.roots[i].1);
            assert(c.roots[i] == t.roots[i]);
            assert(is_root(c, x));
        }
        assert forall|x: PointerView, y: PointerView|
            #[trigger] both.contains(x) && #[trigger] points_to(t, x, y) implies both.contains(y) by {
            lemma_collected_keeps_references(t, x, y);
        }
        assert(closed_set(t, both));
        assert(live.subset_of(both));
        assert(live.contains(p));
    }
}

/// A second collection right after a first one deletes nothing.
pub proof fn lemma_collection_is_idempotent(t: TablesView)
    ensures
        garbage(collected(t), reachable_set(collected(t))).len() == 0,
{
    let live = reachable_set(t);
    let c = collected(t);
    let g = garbage(c, reachable_set(c));
    if g.len() > 0 {
        let x = g[0];
        assert(g.contains(x));
        lemma_sweep_deletes_exactly_unreached(c, reachable_set(c), x);
        match x {
            PointerView::Object(k) => {
                let i = choose|i: int| 0 <= i < c.objects.len() && c.objects[i].0 == k;
                t.objects.lemma_filter_pred(keeps_object(live), i);
                lemma_collection_keeps_reachability(t, x);
            },
            PointerView::MapField(id, f) => {
                let i = choose|i: int| 0 <= i < c.maps.len() && c.maps[i].0 == (id, f);
                t.maps.lemma_filter_pred(keeps_map_entry(live), i);
                lemma_collection_keeps_reachability(t, PointerView::JsMap(id));
            },
            PointerView::ArrayItem(id, n) => {
                let i = choose|i: int| 0 <= i < c.arrays.len() && c.arrays[i].0 == (id, n);
                t.arrays.lemma_filter_pred(keeps_array_item(live), i);
                lemma_collection_keeps_reachability(t, PointerView::Array(id));
            },
            _ => {},
        }
    }
}

/// The collected tables are the tables without what the sweep deletes: an
/// object, map entry or array item stays exactly when the sweep does not
/// name it.
pub proof fn lemma_collected_removes_exactly_garbage(t: TablesView, i: int)
    ensures
        0 <= i < t.objects.len() ==> (collected(t).objects.contains(t.objects[i]) <==> !garbage(
            t,
            reachable_set(t),
        ).contains(PointerView::Object(t.objects[i].0))),
        0 <= i < t.maps.len() ==> (collected(t).maps.contains(t.maps[i]) <==> !garbage(
            t,
            reachable_set(t),
        ).contains(PointerView::MapField(t.maps[i].0.0, t.maps[i].0.1))),
        0 <= i < t.arrays.len() ==> (collected(t).arrays.contains(t.arrays[i]) <==> !garbage(
            t,
            reachable_set(t),
        ).contains(PointerView::ArrayItem(t.arrays[i].0.0, t.arrays[i].0.1))),
{
    let live = reachable_set(t);
    let c = collected(t);
    if 0 <= i < t.objects.len() {
        let e = t.objects[i];
        lemma_sweep_deletes_exactly_unreached(t, live, PointerView::Object(e.0));
        if c.objects.contains(e) {
            let k = choose|k: int| 0 <= k < c.objects.len() && c.objects[k] == e;
            t.objects.lemma_filter_pred(keeps_object(live), k);
        }
        if live.contains(PointerView::Object(e.0)) {
            t.objects.lemma_filter_contains(keeps_object(live), i);
        }
    }
    if 0 <= i < t.maps.len() {
        let e = t.maps[i];
        lemma_sweep_deletes_exactly_unreached(t, live, PointerView::MapField(e.0.0, e.0.1));
        if c.maps.contains(e) {
            let k = choose|k: int| 0 <= k < c.maps.len() && c.maps[k] == e;
            t.maps.lemma_filter_pred(keeps_map_entry(live), k);
        }
        if live.contains(PointerView::JsMap(e.0.0)) {
            t.maps.lemma_filter_contains(keeps_map_entry(live), i);
        }
    }
    if 0 <= i < t.arrays.len() {
        let e = t.arrays[i];
        lemma_sweep_deletes_exactly_unreached(t, live, PointerView::ArrayItem(e.0.0, e.0.1));
        if c.arrays.contains(e) {
            let k = choose|k: int| 0 <= k < c.arrays.len() && c.arrays[k] == e;
            t.arrays.lemma_filter_pred(keeps_array_item(live), k);
        }
        if live.contains(PointerView::Array(e.0.0)) {
            t.arrays.lemma_filter_contains(keeps_array_item(live), i);
        }
    }
}

/// What a stored value refers to is reached whenever the value is: the object,
/// map or array named by an `ObjectReference`, `MapReference` or
/// `ArrayReference`.
pub open spec fn reference_reached(t: TablesView, v: PrimitiveValue) -> bool {
    match v {
        PrimitiveValue::ObjectReference(x) => is_reachable(t, PointerView::Object(x)),
        PrimitiveValue::MapReference(x) => is_reachable(t, PointerView::JsMap(x)),
        PrimitiveValue::ArrayReference(x) => is_reachable(t, PointerView::Array(x)),
        _ => true,
    }
}

proof fn lemma_target_reached(t: TablesView, p: PointerView, v: PrimitiveValue)
    requires
        is_reachable(t, p),
        reference_target(v) matches Some(q) ==> points_to(t, p, q),
    ensures
        reference_reached(t, v),
{
    lemma_reachable_is_least_closed_set(t);
    let live = reachable_set(t);
    assert(live.contains(p));
    if let Some(q) = reference_target(v) {
        assert(points_to(t, p, q));
        assert(live.contains(q));
    }
}

/// Marking follows every reference held by what it reaches: every reference in
/// a field of a reached object, in an entry of a reached map and in an item of
/// a reached array is reached too, so a collection deletes no object that such
/// a field, entry or item refers to.
pub proof fn lemma_references_of_reached_are_reached(t: TablesView)
    ensures
        forall|i: int, j: int|
            0 <= i < t.objects.len() && 0 <= j < t.objects[i].1.fields.len() && is_reachable(
                t,
                PointerView::Object(t.objects[i].0),
            ) ==> reference_reached(t, #[trigger] t.objects[i].1.fields[j].1),
        forall|i: int|
            0 <= i < t.maps.len() && is_reachable(t, PointerView::JsMap(t.maps[i].0.0))
                ==> reference_reached(t, (#[trigger] t.maps[i]).1),
        forall|i: int|
            0 <= i < t.arrays.len() && is_reachable(t, PointerView::Array(t.arrays[i].0.0))
                ==> reference_reached(t, (#[trigger] t.arrays[i]).1),
        forall|i: int|
            0 <= i < t.arrays.len() && is_reachable(t, PointerView::Array(t.arrays[i].0.0))
                ==> match (#[trigger] t.arrays[i]).1 {
                PrimitiveValue::ObjectReference(x) => !garbage(t, reachable_set(t)).contains(
                    PointerView::Object(x),
                ),
                _ => true,
            },
{
    assert forall|i: int, j: int|
        0 <= i < t.objects.len() && 0 <= j < t.objects[i].1.fields.len() && is_reachable(
            t,
            PointerView::Object(t.objects[i].0),
        ) implies reference_reached(t, #[trigger] t.objects[i].1.fields[j].1) by {
        let v = t.objects[i].1.fields[j].1;
        if let Some(q) = reference_target(v) {
            assert(reference_target(t.objects[i].1.fields[j].1) == Some(q));
            assert(object_points_to(t.objects, t.objects[i].0, q));
        }
        lemma_target_reached(t, PointerView::Object(t.objects[i].0), v);
    }
    assert forall|i: int|
        0 <= i < t.maps.len() && is_reachable(t, PointerView::JsMap(t.maps[i].0.0))
            implies reference_reached(t, (#[trigger] t.maps[i]).1) by {
        let v = t.maps[i].1;
        if let Some(q) = reference_target(v) {
            assert(reference_target(t.maps[i].1) == Some(q));
            assert(map_points_to(t.maps, t.maps[i].0.0, q));
        }
        lemma_target_reached(t, PointerView::JsMap(t.maps[i].0.0), v);
    }
    assert forall|i: int|
        0 <= i < t.arrays.len() && is_reachable(t, PointerView::Array(t.arrays[i].0.0))
            implies reference_reached(t, (#[trigger] t.arrays[i]).1) by {
        let v = t.arrays[i].1;
        if let Some(q) = reference_target(v) {
            assert(reference_target(t.arrays[i].1) == Some(q));
            assert(array_points_to(t.arrays, t.arrays[i].0.0, q));
        }
        lemma_target_reached(t, PointerView::Array(t.arrays[i].0.0), v);
    }
    assert forall|i: int|
        0 <= i < t.arrays.len() && is_reachable(t, PointerView::Array(t.arrays[i].0.0))
            implies match (#[trigger] t.arrays[i]).1 {
        PrimitiveValue::ObjectReference(x) => !garbage(t, reachable_set(t)).contains(
            PointerView::Object(x),
        ),
        _ => true,
    } by {
        assert(reference_reached(t, t.arrays[i].1));
        if let PrimitiveValue::ObjectReference(x) = t.arrays[i].1 {
            lemma_collection_keeps_exactly_reachable(t, PointerView::Object(x));
        }
    }
}

/// The stored value refers to `p`.
pub open spec fn refers_to(v: PrimitiveValue, p: PointerView) -> bool {
    match v {
        PrimitiveValue::ObjectReference(x) => p == PointerView::Object(x),
        PrimitiveValue::MapReference(x) => p == PointerView::JsMap(x),
        PrimitiveValue::ArrayReference(x) => p == PointerView::Array(x),
        _ => false,
    }
}

/// A field of a reached object, an entry of a reached map or an item of a
/// reached array refers to `p`.
pub open spec fn referenced_by_reached(t: TablesView, p: PointerView) -> bool {
    ||| exists|i: int, j: int|
        0 <= i < t.objects.len() && 0 <= j < t.objects[i].1.fields.len() && is_reachable(
            t,
            PointerView::Object(t.objects[i].0),
        ) && refers_to(#[trigger] t.objects[i].1.fields[j].1, p)
    ||| exists|i: int|
        0 <= i < t.maps.len() && is_reachable(t, PointerView::JsMap(t.maps[i].0.0)) && refers_to(
            (#[trigger] t.maps[i]).1,
            p,
        )
    ||| exists|i: int|
        0 <= i < t.arrays.len() && is_reachable(t, PointerView::Array(t.arrays[i].0.0))
            && refers_to((#[trigger] t.arrays[i]).1, p)
}

proof fn lemma_referenced_is_reached(t: TablesView, p: PointerView)
    requires
        referenced_by_reached(t, p),
    ensures
        is_reachable(t, p),
{
    lemma_references_of_reached_are_reached(t);
    if exists|i: int, j: int|
        0 <= i < t.objects.len() && 0 <= j < t.objects[i].1.fields.len() && is_reachable(
            t,
            PointerView::Object(t.objects[i].0),
        ) && refers_to(#[trigger] t.objects[i].1.fields[j].1, p) {
        let (i, j) = choose|i: int, j: int|
            0 <= i < t.objects.len() && 0 <= j < t.objects[i].1.fields.len() && is_reachable(
                t,
                PointerView::Object(t.objects[i].0),
            ) && refers_to(#[trigger] t.objects[i].1.fields[j].1, p);
        assert(reference_reached(t, t.objects[i].1.fields[j].1));
    } else if exists|i: int|
        0 <= i < t.maps.len() && is_reachable(t, PointerView::JsMap(t.maps[i].0.0)) && refers_to(
            (#[trigger] t.maps[i]).1,
            p,
        ) {
        let i = choose|i: int|
            0 <= i < t.maps.len() && is_reachable(t, PointerView::JsMap(t.maps[i].0.0))
                && refers_to((#[trigger] t.maps[i]).1, p);
        assert(reference_reached(t, t.maps[i].1));
    } else {
        let i = choose|i: int|
            0 <= i < t.arrays.len() && is_reachable(t, PointerView::Array(t.arrays[i].0.0))
                && refers_to((#[trigger] t.arrays[i]).1, p);
        assert(reference_reached(t, t.arrays[i].1));
    }
}

/// Marking reaches nothing more than the roots and what reached fields,
/// entries and items refer to: a pointer is reached exactly when it is a root
/// or one of them refers to it.
pub proof fn lemma_reached_exactly_roots_and_references(t: TablesView, p: PointerView)
    ensures
        is_reachable(t, p) <==> (is_root(t, p) || referenced_by_reached(t, p)),
{
    lemma_reachable_is_least_closed_set(t);
    let j = Set::new(|q: PointerView| is_root(t, q) || referenced_by_reached(t, q));
    assert forall|a: PointerView, b: PointerView|
        #[trigger] j.contains(a) && #[trigger] points_to(t, a, b) implies j.contains(b) by {
        if is_root(t, a) {
            assert(reachable_set(t).contains(a));
        } else {
            lemma_referenced_is_reached(t, a);
        }
        match a {
            PointerView::Object(id) => {
                let (i, k) = choose|i: int, k: int|
                    0 <= i < t.objects.len() && t.objects[i].0 == id && 0 <= k
                        < t.objects[i].1.fields.len() && reference_target(
                        #[trigger] t.objects[i].1.fields[k].1,
                    ) == Some(b);
                assert(refers_to(t.objects[i].1.fields[k].1, b));
            },
            PointerView::JsMap(id) => {
                let i = choose|i: int|
                    0 <= i < t.maps.len() && t.maps[i].0.0 == id && reference_target(
                        #[trigger] t.maps[i].1,
                    ) == Some(b);
                assert(refers_to(t.maps[i].1, b));
            },
            PointerView::Array(id) => {
                let i = choose|i: int|
                    0 <= i < t.arrays.len() && t.arrays[i].0.0 == id && reference_target(
                        #[trigger] t.arrays[i].1,
                    ) == Some(b);
                assert(refers_to(t.arrays[i].1, b));
            },
            _ => {},
        }
    }
    assert(closed_set(t, j));
    assert(reachable_set(t).subset_of(j));
    if is_reachable(t, p) {
        assert(reachable_set(t).contains(p));
    }
    if is_root(t, p) {
        assert(reachable_set(t).contains(p));
    }
    if referenced_by_reached(t, p) {
        lemma_referenced_is_reached(t, p);
    }
}

} // verus!
