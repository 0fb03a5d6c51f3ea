//! The values that Cloudstate stores: primitives, object records and the
//! keys and values of its tables.

use vstd::prelude::*;

verus! {

/// A reference from a stored value to a stored object.
pub struct ObjectReference {
    pub id: String,
}

/// A reference from a stored value to a stored blob.
pub struct Blob {
    pub id: String,
}

/// A JavaScript value as it is stored in a table.
///
/// A JavaScript number is kept as the bit pattern of its IEEE-754 double; a
/// date as its milliseconds since the Unix epoch, `None` for an invalid date;
/// a BigInt as its sign (`true` when negative) and its magnitude in 64-bit
/// words, least significant first.
pub enum CloudstatePrimitiveData {
    Number(u64),
    String(String),
    Boolean(bool),
    BigInt(bool, Vec<u64>),
    Undefined,
    Null,
    Date(Option<i64>),
    Blob(Blob),
    Url(String),
    ObjectReference(ObjectReference),
    MapReference(String),
    ArrayReference(String),
}

/// The mathematical value of a [`CloudstatePrimitiveData`].
pub enum PrimitiveValue {
    Number(u64),
    String(Seq<char>),
    Boolean(bool),
    BigInt(bool, Seq<u64>),
    Undefined,
    Null,
    Date(Option<i64>),
    Blob(Seq<char>),
    Url(Seq<char>),
    ObjectReference(Seq<char>),
    MapReference(Seq<char>),
    ArrayReference(Seq<char>),
}

impl View for CloudstatePrimitiveData {
    type V = PrimitiveValue;

    open spec fn view(&self) -> PrimitiveValue {
        match self {
            CloudstatePrimitiveData::Number(n) => PrimitiveValue::Number(*n),
            CloudstatePrimitiveData::String(s) => PrimitiveValue::String(s@),
            CloudstatePrimitiveData::Boolean(b) => PrimitiveValue::Boolean(*b),
            CloudstatePrimitiveData::BigInt(n, w) => PrimitiveValue::BigInt(*n, w@),
            CloudstatePrimitiveData::Undefined => PrimitiveValue::Undefined,
            CloudstatePrimitiveData::Null => PrimitiveValue::Null,
            CloudstatePrimitiveData::Date(d) => PrimitiveValue::Date(*d),
            CloudstatePrimitiveData::Blob(b) => PrimitiveValue::Blob(b.id@),
            CloudstatePrimitiveData::Url(u) => PrimitiveValue::Url(u@),
            CloudstatePrimitiveData::ObjectReference(r) => PrimitiveValue::ObjectReference(r.id@),
            CloudstatePrimitiveData::MapReference(m) => PrimitiveValue::MapReference(m@),
            CloudstatePrimitiveData::ArrayReference(a) => PrimitiveValue::ArrayReference(a@),
        }
    }
}

fn clone_words(w: &Vec<u64>) -> (r: Vec<u64>)
    ensures
        r@ == w@,
{
    let mut r: Vec<u64> = Vec::new();
    for i in 0..w.len()
        invariant
            r@ == w@.take(i as int),
    {
        r.push(w[i]);
    }
    assert(w@.take(w.len() as int) == w@);
    r
}

impl Clone for CloudstatePrimitiveData {
    fn clone(&self) -> (r: Self)
        ensures
            r@ == self@,
    {
        match self {
            CloudstatePrimitiveData::Number(n) => CloudstatePrimitiveData::Number(*n),
            CloudstatePrimitiveData::String(s) => CloudstatePrimitiveData::String(s.clone()),
            CloudstatePrimitiveData::Boolean(b) => CloudstatePrimitiveData::Boolean(*b),
            CloudstatePrimitiveData::BigInt(n, w) => CloudstatePrimitiveData::BigInt(
                *n,
                clone_words(w),
            ),
            CloudstatePrimitiveData::Undefined => CloudstatePrimitiveData::Undefined,
            CloudstatePrimitiveData::Null => CloudstatePrimitiveData::Null,
            CloudstatePrimitiveData::Date(d) => CloudstatePrimitiveData::Date(*d),
            CloudstatePrimitiveData::Blob(b) => CloudstatePrimitiveData::Blob(Blob { id: b.id.clone() }),
            CloudstatePrimitiveData::Url(u) => CloudstatePrimitiveData::Url(u.clone()),
            CloudstatePrimitiveData::ObjectReference(r) => CloudstatePrimitiveData::ObjectReference(
                ObjectReference { id: r.id.clone() },
            ),
            CloudstatePrimitiveData::MapReference(m) => CloudstatePrimitiveData::MapReference(m.clone()),
            CloudstatePrimitiveData::ArrayReference(a) => CloudstatePrimitiveData::ArrayReference(
                a.clone(),
            ),
        }
    }
}


/// A stored object: its own fields and the name of its class, if it has one
/// other than `Object`. A field name occurs at most once.
pub struct CloudstateObjectData {
    pub fields: Vec<(String, CloudstatePrimitiveData)>,
    pub constructor_name: Option<String>,
}

/// The mathematical value of a [`CloudstateObjectData`].
pub struct ObjectView {
    pub fields: Seq<(Seq<char>, PrimitiveValue)>,
    pub constructor_name: Option<Seq<char>>,
}

pub open spec fn option_string_view(o: Option<String>) -> Option<Seq<char>> {
    match o {
        Some(s) => Some(s@),
        None => None,
    }
}

pub open spec fn fields_view(fields: Seq<(String, CloudstatePrimitiveData)>) -> Seq<
    (Seq<char>, PrimitiveValue),
> {
    fields.map_values(|f: (String, CloudstatePrimitiveData)| (f.0@, f.1@))
}

impl View for CloudstateObjectData {
    type V = ObjectView;

    open spec fn view(&self) -> ObjectView {
        ObjectView {
            fields: fields_view(self.fields@),
            constructor_name: option_string_view(self.constructor_name),
        }
    }
}

impl CloudstateObjectData {
    /// Field names are unique.
    pub open spec fn well_formed(&self) -> bool {
        crate::table::keys_unique(self@.fields)
    }
}

fn clone_option_string(o: &Option<String>) -> (r: Option<String>)
    ensures
        option_string_view(r) == option_string_view(*o),
{
    match o {
        Some(s) => Some(s.clone()),
        None => None,
    }
}

impl Clone for CloudstateObjectData {
    fn clone(&self) -> (r: Self)
        ensures
            r@ == self@,
    {
        let mut fields: Vec<(String, CloudstatePrimitiveData)> = Vec::new();
        for i in 0..self.fields.len()
            invariant
                fields_view(fields@) == fields_view(self.fields@).take(i as int),
        {
            let f = &self.fields[i];
            let name = f.0.clone();
            let value = f.1.clone();
            let ghost before = fields@;
            fields.push((name, value));
            assert(fields@ == before.push((name, value)));
            assert(fields_view(fields@) =~= fields_view(before).push((name@, value@)));
            assert(fields_view(fields@) =~= fields_view(self.fields@).take(i + 1));
        }
        assert(fields_view(self.fields@).take(self.fields.len() as int) =~= fields_view(
            self.fields@,
        ));
        CloudstateObjectData { fields, constructor_name: clone_option_string(&self.constructor_name) }
    }
}

/// Key of the roots table: the alias under which a root object is stored.
pub struct CloudstateRootKey {
    pub alias: String,
}

/// Value of the roots table: the id of the root object.
pub struct CloudstateRootValue {
    pub id: String,
}

/// Key of the objects table.
pub struct CloudstateObjectKey {
    pub id: String,
}

/// Value of the objects table.
pub struct CloudstateObjectValue {
    pub data: CloudstateObjectData,
}

/// Key of the maps table: one entry of the map `id`.
pub struct CloudstateMapFieldKey {
    pub id: String,
    pub field: String,
}

/// Value of the maps table.
pub struct CloudstateMapFieldValue {
    pub data: CloudstatePrimitiveData,
}

/// Key of the arrays table: the item at `index` of the array `id`.
pub struct CloudstateArrayItemKey {
    pub id: String,
    pub index: i32,
}

/// Value of the arrays table.
pub struct CloudstateArrayItemValue {
    pub data: CloudstatePrimitiveData,
}

/// Key of the blobs table.
pub struct CloudstateBlobKey {
    pub id: String,
}

impl View for CloudstateRootKey {
    type V = Seq<char>;

    open spec fn view(&self) -> Seq<char> {
        self.alias@
    }
}

impl View for CloudstateRootValue {
    type V = Seq<char>;

    open spec fn view(&self) -> Seq<char> {
        self.id@
    }
}

impl View for CloudstateObjectKey {
    type V = Seq<char>;

    open spec fn view(&self) -> Seq<char> {
        self.id@
    }
}

impl View for CloudstateObjectValue {
    type V = ObjectView;

    open spec fn view(&self) -> ObjectView {
        self.data@
    }
}

impl View for CloudstateMapFieldKey {
    type V = (Seq<char>, Seq<char>);

    open spec fn view(&self) -> (Seq<char>, Seq<char>) {
        (self.id@, self.field@)
    }
}

impl View for CloudstateMapFieldValue {
    type V = PrimitiveValue;

    open spec fn view(&self) -> PrimitiveValue {
        self.data@
    }
}

impl View for CloudstateArrayItemKey {
    type V = (Seq<char>, i32);

    open spec fn view(&self) -> (Seq<char>, i32) {
        (self.id@, self.index)
    }
}

impl View for CloudstateArrayItemValue {
    type V = PrimitiveValue;

    open spec fn view(&self) -> PrimitiveValue {
        self.data@
    }
}

impl View for CloudstateBlobKey {
    type V = Seq<char>;

    open spec fn view(&self) -> Seq<char> {
        self.id@
    }
}

impl Clone for CloudstateMapFieldKey {
    fn clone(&self) -> (r: Self)
        ensures
            r@ == self@,
    {
        CloudstateMapFieldKey { id: self.id.clone(), field: self.field.clone() }
    }
}

impl Clone for CloudstateArrayItemKey {
    fn clone(&self) -> (r: Self)
        ensures
            r@ == self@,
    {
        CloudstateArrayItemKey { id: self.id.clone(), index: self.index }
    }
}

impl Clone for CloudstateObjectKey {
    fn clone(&self) -> (r: Self)
        ensures
            r@ == self@,
    {
        CloudstateObjectKey { id: self.id.clone() }
    }
}

impl From<String> for CloudstateBlobKey {
    fn from(id: String) -> (r: Self) {
        CloudstateBlobKey { id }
    }
}

impl vstd::std_specs::convert::FromSpecImpl<String> for CloudstateBlobKey {
    open spec fn obeys_from_spec() -> bool {
        true
    }

    open spec fn from_spec(v: String) -> Self {
        CloudstateBlobKey { id: v }
    }
}

impl CloudstateObjectData {
    /// Stores `value` under the field `name`, replacing the value that the
    /// field held, if any.
    pub fn insert_field(&mut self, name: String, value: CloudstatePrimitiveData)
        requires
            old(self).well_formed(),
        ensures
            final(self).well_formed(),
            crate::table::table_map(final(self)@.fields) == crate::table::table_map(
                old(self)@.fields,
            ).insert(name@, value@),
            final(self)@.constructor_name == old(self)@.constructor_name,
    {
        let ghost old_fields = self@.fields;
        let mut i: usize = 0;
        while i < self.fields.len()
            invariant
                i <= self.fields@.len(),
                self@ == old(self)@,
                self@.fields == old_fields,
                crate::table::keys_unique(old_fields),
                old_fields == fields_view(self.fields@),
                old_fields.len() == self.fields@.len(),
                forall|k: int| 0 <= k < i ==> old_fields[k].0 != name@,
            decreases self.fields.len() - i,
        {
            if self.fields[i].0 == name {
                assert(old_fields[i as int].0 == name@);
                proof {
                    crate::table::lemma_table_map_update(old_fields, i as int, value@);
                }
                let ghost cn = self@.constructor_name;
                self.fields.set(i, (name, value));
                assert(fields_view(self.fields@) =~= old_fields.update(i as int, (old_fields[i as int].0, value@)));
                assert(self@.constructor_name == cn);
                return;
            }
            i += 1;
        }
        proof {
            crate::table::lemma_table_map_push(old_fields, name@, value@);
        }
        let ghost before = self.fields@;
        self.fields.push((name, value));
        assert(fields_view(self.fields@) =~= old_fields.push((name@, value@)));
    }
}

} // verus!
