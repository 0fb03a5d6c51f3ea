//! How stored values become JavaScript values and back.
//!
//! A JavaScript value is described by [`JsValue`]: its kind and what the
//! conversion reads of it. A reference to stored data travels to JavaScript as
//! an object of one of four classes that carries the id in a string property.

use chrono::TimeZone;
use crate::cloudstate::{
    Blob,
    CloudstateObjectData,
    CloudstatePrimitiveData,
    ObjectReference,
    PrimitiveValue,
    fields_view,
};
use crate::table::{keys_unique, table_map};
use vstd::prelude::*;

verus! {

/// A JavaScript object that stands for stored data: the name of its class and
/// its own properties whose values are strings.
pub struct JsObject {
    pub class_name: String,
    pub string_properties: Vec<(String, String)>,
}

/// A JavaScript value, as far as the conversion reads or writes it.
///
/// A number is the bit pattern of its IEEE-754 double; a date is its time
/// value in milliseconds since the Unix epoch, which JavaScript keeps whole,
/// or `None` for an invalid date; a BigInt is its sign and its magnitude in
/// 64-bit words, least significant first.
pub enum JsValue {
    Null,
    Undefined,
    BigInt { negative: bool, words: Vec<u64> },
    Number(u64),
    String(String),
    Boolean(bool),
    Date(Option<i64>),
    Object(JsObject),
    /// A value of no other kind, such as a symbol.
    Other,
}

/// The mathematical value of a [`JsValue`].
pub enum JsValueView {
    Null,
    Undefined,
    BigInt(bool, Seq<u64>),
    Number(u64),
    String(Seq<char>),
    Boolean(bool),
    Date(Option<i64>),
    Object(Seq<char>, Seq<(Seq<char>, Seq<char>)>),
    Other,
}

pub open spec fn string_pairs_view(s: Seq<(String, String)>) -> Seq<(Seq<char>, Seq<char>)> {
    s.map_values(|p: (String, String)| (p.0@, p.1@))
}

impl View for JsValue {
    type V = JsValueView;

    open spec fn view(&self) -> JsValueView {
        match self {
            JsValue::Null => JsValueView::Null,
            JsValue::Undefined => JsValueView::Undefined,
            JsValue::BigInt { negative, words } => JsValueView::BigInt(*negative, words@),
            JsValue::Number(n) => JsValueView::Number(*n),
            JsValue::String(s) => JsValueView::String(s@),
            JsValue::Boolean(b) => JsValueView::Boolean(*b),
            JsValue::Date(d) => JsValueView::Date(*d),
            JsValue::Object(o) => JsValueView::Object(
                o.class_name@,
                string_pairs_view(o.string_properties@),
            ),
            JsValue::Other => JsValueView::Other,
        }
    }
}

/// The value of the first property named `key`, if there is one.
pub open spec fn first_property(props: Seq<(Seq<char>, Seq<char>)>, key: Seq<char>) -> Option<
    Seq<char>,
>
    decreases props.len(),
{
    if props.len() == 0 {
        None
    } else if props[0].0 == key {
        Some(props[0].1)
    } else {
        first_property(props.drop_first(), key)
    }
}

/// The object that stands for stored data of the class `class`, with the id
/// under `key`.
pub open spec fn reference_object(class: Seq<char>, key: Seq<char>, id: Seq<char>) -> JsValueView {
    JsValueView::Object(class, seq![(key, id)])
}

/// The JavaScript value of a stored value. A URL becomes its text.
pub open spec fn primitive_to_js_spec(p: PrimitiveValue) -> JsValueView {
    match p {
        PrimitiveValue::Number(n) => JsValueView::Number(n),
        PrimitiveValue::String(s) => JsValueView::String(s),
        PrimitiveValue::Boolean(b) => JsValueView::Boolean(b),
        PrimitiveValue::BigInt(n, w) => JsValueView::BigInt(n, w),
        PrimitiveValue::Undefined => JsValueView::Undefined,
        PrimitiveValue::Null => JsValueView::Null,
        PrimitiveValue::Date(d) => JsValueView::Date(d),
        PrimitiveValue::Url(u) => JsValueView::String(u),
        PrimitiveValue::Blob(id) => reference_object(
            "CloudstateBlobReference"@,
            "blobId"@,
            id,
        ),
        PrimitiveValue::ObjectReference(id) => reference_object(
            "CloudstateObjectReference"@,
            "objectId"@,
            id,
        ),
        PrimitiveValue::MapReference(id) => reference_object(
            "CloudstateMapReference"@,
            "objectId"@,
            id,
        ),
        PrimitiveValue::ArrayReference(id) => reference_object(
            "CloudstateArrayReference"@,
            "objectId"@,
            id,
        ),
    }
}

/// The value can be read without a precondition failing: a valid date lies in
/// the range of instants that can be stored, and an object is of one of the
/// four reference classes and carries its id as a string.
pub open spec fn js_readable(v: JsValueView) -> bool {
    match v {
        JsValueView::Date(Some(ms)) => chrono_date_in_range(ms),
        JsValueView::Object(class, props) => if class == "CloudstateBlobReference"@ {
            first_property(props, "blobId"@) is Some
        } else if class == "CloudstateObjectReference"@ || class == "CloudstateMapReference"@
            || class == "CloudstateArrayReference"@ {
            first_property(props, "objectId"@) is Some
        } else {
            false
        },
        _ => true,
    }
}

/// The stored value of a readable JavaScript value, or `None` for a value of
/// no supported kind.
pub open spec fn primitive_from_js_spec(v: JsValueView) -> Option<PrimitiveValue> {
    match v {
        JsValueView::Null => Some(PrimitiveValue::Null),
        JsValueView::Undefined => Some(PrimitiveValue::Undefined),
        JsValueView::BigInt(n, w) => Some(PrimitiveValue::BigInt(n, w)),
        JsValueView::Number(n) => Some(PrimitiveValue::Number(n)),
        JsValueView::String(s) => Some(PrimitiveValue::String(s)),
        JsValueView::Boolean(b) => Some(PrimitiveValue::Boolean(b)),
        JsValueView::Date(d) => Some(PrimitiveValue::Date(d)),
        JsValueView::Object(class, props) => if class == "CloudstateBlobReference"@ {
            Some(PrimitiveValue::Blob(first_property(props, "blobId"@).unwrap()))
        } else if class == "CloudstateObjectReference"@ {
            Some(PrimitiveValue::ObjectReference(first_property(props, "objectId"@).unwrap()))
        } else if class == "CloudstateMapReference"@ {
            Some(PrimitiveValue::MapReference(first_property(props, "objectId"@).unwrap()))
        } else {
            Some(PrimitiveValue::ArrayReference(first_property(props, "objectId"@).unwrap()))
        },
        JsValueView::Other => None,
    }
}

/// The first instant that `chrono` can represent, -262143-01-01T00:00:00Z, in
/// milliseconds since the Unix epoch.
pub open spec fn chrono_min_millis() -> int {
    -8_334_601_228_800_000
}

/// The last millisecond that `chrono` can represent, the end of
/// +262142-12-31, in milliseconds since the Unix epoch.
pub open spec fn chrono_max_millis() -> int {
    8_210_266_876_799_999
}

/// The time value lies in the range of instants that `chrono` represents.
pub open spec fn chrono_date_in_range(ms: i64) -> bool {
    chrono_min_millis() <= ms <= chrono_max_millis()
}

/// `chrono::Utc.timestamp_millis_opt`, read back with `timestamp_millis`.
///
/// chrono represents the days whose year lies from -262143 to 262142
/// (`MIN_YEAR`, `MAX_YEAR`); a time value within them is turned into an
/// instant, which its documentation says reads back as the same time value,
/// and one outside them gives `None`.
#[verifier::external_body]
fn utc_from_millis(ms: i64) -> (r: Option<i64>)
    ensures
        r == (if chrono_date_in_range(ms) {
            Some(ms)
        } else {
            None::<i64>
        }),
{
    match chrono::Utc.timestamp_millis_opt(ms).single() {
        Some(d) => Some(d.timestamp_millis()),
        None => None,
    }
}

/// Why a JavaScript value could not be read.
#[derive(PartialEq, Eq, Structural, Clone, Copy, Debug)]
pub enum ConversionError {
    /// The value is of no supported kind.
    NotImplemented,
}

impl ConversionError {
    /// The message of the error. The runtime may follow it with `for` and a
    /// rendering of the value, which depends on the JavaScript engine.
    pub fn message(&self) -> (r: String)
        ensures
            r@ == "Conversion from V8 to CloudstatePrimitiveData not implemented"@,
    {
        String::from_str("Conversion from V8 to CloudstatePrimitiveData not implemented")
    }
}

fn string_eq(a: &String, b: &str) -> (r: bool)
    ensures
        r == (a@ == b@),
{
    let t = String::from_str(b);
    *a == t
}

fn reference_value(class: &str, key: &str, id: &String) -> (r: JsValue)
    ensures
        r@ == reference_object(class@, key@, id@),
{
    let mut props: Vec<(String, String)> = Vec::new();
    props.push((String::from_str(key), id.clone()));
    assert(string_pairs_view(props@) =~= seq![(key@, id@)]);
    JsValue::Object(JsObject { class_name: String::from_str(class), string_properties: props })
}

/// The JavaScript value of a stored value.
pub fn primitive_to_js(p: &CloudstatePrimitiveData) -> (r: JsValue)
    ensures
        r@ == primitive_to_js_spec(p@),
{
    match p {
        CloudstatePrimitiveData::Number(n) => JsValue::Number(*n),
        CloudstatePrimitiveData::String(s) => JsValue::String(s.clone()),
        CloudstatePrimitiveData::Boolean(b) => JsValue::Boolean(*b),
        CloudstatePrimitiveData::BigInt(n, w) => {
            let mut words: Vec<u64> = Vec::new();
            for i in 0..w.len()
                invariant
                    words@ == w@.take(i as int),
            {
                words.push(w[i]);
            }
            assert(w@.take(w.len() as int) =~= w@);
            JsValue::BigInt { negative: *n, words }
        },
        CloudstatePrimitiveData::Undefined => JsValue::Undefined,
        CloudstatePrimitiveData::Null => JsValue::Null,
        CloudstatePrimitiveData::Date(d) => JsValue::Date(*d),
        CloudstatePrimitiveData::Url(u) => JsValue::String(u.clone()),
        CloudstatePrimitiveData::Blob(b) => reference_value(
            "CloudstateBlobReference",
            "blobId",
            &b.id,
        ),
        CloudstatePrimitiveData::ObjectReference(r) => reference_value(
            "CloudstateObjectReference",
            "objectId",
            &r.id,
        ),
        CloudstatePrimitiveData::MapReference(id) => reference_value(
            "CloudstateMapReference",
            "objectId",
            id,
        ),
        CloudstatePrimitiveData::ArrayReference(id) => reference_value(
            "CloudstateArrayReference",
            "objectId",
            id,
        ),
    }
}

fn find_property(props: &Vec<(String, String)>, key: &str) -> (r: Option<String>)
    ensures
        match r {
            Some(v) => first_property(string_pairs_view(props@), key@) == Some(v@),
            None => first_property(string_pairs_view(props@), key@) is None,
        },
{
    let ghost pv = string_pairs_view(props@);
    let mut i: usize = 0;
    assert(pv.skip(0) =~= pv);
    while i < props.len()
        invariant
            pv == string_pairs_view(props@),
            i <= props.len(),
            first_property(pv, key@) == first_property(pv.skip(i as int), key@),
        decreases props.len() - i,
    {
        assert(pv.skip(i as int)[0] == (props@[i as int].0@, props@[i as int].1@));
        assert(pv.skip(i as int).drop_first() =~= pv.skip(i + 1));
        if string_eq(&props[i].0, key) {
            return Some(props[i].1.clone());
        }
        i = i + 1;
    }
    None
}

/// The stored value of a JavaScript value; a value of no supported kind is
/// refused. A date is kept as it is, an invalid one too.
pub fn primitive_from_js(v: &JsValue) -> (r: Result<CloudstatePrimitiveData, ConversionError>)
    requires
        js_readable(v@),
    ensures
        match primitive_from_js_spec(v@) {
            Some(p) => r matches Ok(q) && q@ == p,
            None => r == Err::<CloudstatePrimitiveData, ConversionError>(
                ConversionError::NotImplemented,
            ),
        },
{
    proof {
        reveal_strlit("CloudstateBlobReference");
        reveal_strlit("CloudstateObjectReference");
        reveal_strlit("CloudstateMapReference");
        reveal_strlit("CloudstateArrayReference");
    }
    match v {
        JsValue::Null => Ok(CloudstatePrimitiveData::Null),
        JsValue::Undefined => Ok(CloudstatePrimitiveData::Undefined),
        JsValue::BigInt { negative, words } => {
            let mut w: Vec<u64> = Vec::new();
            for i in 0..words.len()
                invariant
                    w@ == words@.take(i as int),
            {
                w.push(words[i]);
            }
            assert(words@.take(words.len() as int) =~= words@);
            Ok(CloudstatePrimitiveData::BigInt(*negative, w))
        },
        JsValue::Number(n) => Ok(CloudstatePrimitiveData::Number(*n)),
        JsValue::String(s) => Ok(CloudstatePrimitiveData::String(s.clone())),
        JsValue::Boolean(b) => Ok(CloudstatePrimitiveData::Boolean(*b)),
        JsValue::Date(None) => Ok(CloudstatePrimitiveData::Date(None)),
        JsValue::Date(Some(d)) => match utc_from_millis(*d) {
            Some(ms) => Ok(CloudstatePrimitiveData::Date(Some(ms))),
            None => vstd::pervasive::unreached(),
        },
        JsValue::Object(o) => {
            if string_eq(&o.class_name, "CloudstateBlobReference") {
                let id = find_property(&o.string_properties, "blobId");
                Ok(CloudstatePrimitiveData::Blob(Blob { id: id.unwrap() }))
            } else {
                let id = find_property(&o.string_properties, "objectId").unwrap();
                if string_eq(&o.class_name, "CloudstateObjectReference") {
                    Ok(CloudstatePrimitiveData::ObjectReference(ObjectReference { id }))
                } else if string_eq(&o.class_name, "CloudstateMapReference") {
                    Ok(CloudstatePrimitiveData::MapReference(id))
                } else {
                    Ok(CloudstatePrimitiveData::ArrayReference(id))
                }
            }
        },
        JsValue::Other => Err(ConversionError::NotImplemented),
    }
}

/// A plain JavaScript object: the name of its constructor and its own
/// properties in order.
pub struct JsPlainObject {
    pub constructor_name: String,
    pub properties: Vec<(String, JsValue)>,
}

pub open spec fn properties_view(s: Seq<(String, JsValue)>) -> Seq<(Seq<char>, JsValueView)> {
    s.map_values(|p: (String, JsValue)| (p.0@, p.1@))
}

impl View for JsPlainObject {
    type V = (Seq<char>, Seq<(Seq<char>, JsValueView)>);

    open spec fn view(&self) -> (Seq<char>, Seq<(Seq<char>, JsValueView)>) {
        (self.constructor_name@, properties_view(self.properties@))
    }
}

/// The property under which a stored object passes the name of its class to
/// JavaScript.
pub open spec fn constructor_name_property() -> Seq<char> {
    "__cloudstate__constructorName"@
}

/// The plain object of a stored object: each field as a property, in order,
/// and the class name, if there is one, as a last string property.
pub open spec fn object_to_js_spec(o: crate::cloudstate::ObjectView) -> (
    Seq<char>,
    Seq<(Seq<char>, JsValueView)>,
) {
    let props = o.fields.map_values(
        |f: (Seq<char>, PrimitiveValue)| (f.0, primitive_to_js_spec(f.1)),
    );
    (
        "Object"@,
        match o.constructor_name {
            Some(n) => props.push((constructor_name_property(), JsValueView::String(n))),
            None => props,
        },
    )
}

/// The plain object that stands for a stored object.
pub fn object_to_js(o: &CloudstateObjectData) -> (r: JsPlainObject)
    ensures
        r@ == object_to_js_spec(o@),
{
    let ghost fv = o@.fields;
    let ghost target = fv.map_values(
        |f: (Seq<char>, PrimitiveValue)| (f.0, primitive_to_js_spec(f.1)),
    );
    let mut properties: Vec<(String, JsValue)> = Vec::new();
    for i in 0..o.fields.len()
        invariant
            fv == fields_view(o.fields@),
            fv.len() == o.fields@.len(),
            target == fv.map_values(
                |f: (Seq<char>, PrimitiveValue)| (f.0, primitive_to_js_spec(f.1)),
            ),
            properties_view(properties@) == target.take(i as int),
    {
        let name = o.fields[i].0.clone();
        let value = primitive_to_js(&o.fields[i].1);
        let ghost before = properties@;
        properties.push((name, value));
        assert(properties@ == before.push((name, value)));
        assert(fv[i as int] == (o.fields@[i as int].0@, o.fields@[i as int].1@));
        assert(target[i as int] == (fv[i as int].0, primitive_to_js_spec(fv[i as int].1)));
        assert(properties_view(properties@) =~= properties_view(before).push((name@, value@)));
        assert(target.take(i + 1) =~= target.take(i as int).push(target[i as int]));
        assert(properties_view(properties@) =~= target.take(i + 1));
    }
    assert(target.take(o.fields.len() as int) =~= target);
    match &o.constructor_name {
        Some(n) => {
            let ghost before = properties@;
            properties.push(
                (String::from_str("__cloudstate__constructorName"), JsValue::String(n.clone())),
            );
            assert(properties_view(properties@) =~= properties_view(before).push(
                (constructor_name_property(), JsValueView::String(n@)),
            ));
        },
        None => {},
    }
    JsPlainObject { constructor_name: String::from_str("Object"), properties }
}

/// Every property value can be read and is of a supported kind.
pub open spec fn properties_readable(props: Seq<(Seq<char>, JsValueView)>) -> bool {
    forall|i: int|
        0 <= i < props.len() ==> js_readable(#[trigger] props[i].1) && primitive_from_js_spec(
            props[i].1,
        ) is Some
}

/// The fields that the properties give: each property's stored value under
/// its name, a later property replacing an earlier one of the same name.
pub open spec fn fields_from_properties(props: Seq<(Seq<char>, JsValueView)>) -> Map<
    Seq<char>,
    PrimitiveValue,
> {
    table_map(
        props.map_values(
            |p: (Seq<char>, JsValueView)| (p.0, primitive_from_js_spec(p.1).unwrap()),
        ),
    )
}

/// The class name that a constructor name stands for: none for `Object`.
pub open spec fn class_of_constructor(name: Seq<char>) -> Option<Seq<char>> {
    if name == "Object"@ {
        None
    } else {
        Some(name)
    }
}

/// The stored object of a plain JavaScript object.
pub fn object_from_js(obj: &JsPlainObject) -> (r: Result<CloudstateObjectData, ConversionError>)
    requires
        properties_readable(obj@.1),
    ensures
        r matches Ok(o) && o.well_formed() && table_map(o@.fields) == fields_from_properties(
            obj@.1,
        ) && o@.constructor_name == class_of_constructor(obj@.0),
{
    let ghost pv = obj@.1;
    let ghost converted = pv.map_values(
        |p: (Seq<char>, JsValueView)| (p.0, primitive_from_js_spec(p.1).unwrap()),
    );
    let mut data = CloudstateObjectData { fields: Vec::new(), constructor_name: None };
    assert(fields_view(data.fields@) =~= Seq::<(Seq<char>, PrimitiveValue)>::empty());
    assert(converted.take(0) =~= Seq::<(Seq<char>, PrimitiveValue)>::empty());
    for i in 0..obj.properties.len()
        invariant
            pv == properties_view(obj.properties@),
            pv.len() == obj.properties@.len(),
            properties_readable(pv),
            converted == pv.map_values(
                |p: (Seq<char>, JsValueView)| (p.0, primitive_from_js_spec(p.1).unwrap()),
            ),
            data.well_formed(),
            data@.constructor_name is None,
            table_map(data@.fields) == table_map(converted.take(i as int)),
    {
        let name = obj.properties[i].0.clone();
        assert(pv[i as int] == (obj.properties@[i as int].0@, obj.properties@[i as int].1@));
        assert(js_readable(pv[i as int].1));
        let value = match primitive_from_js(&obj.properties[i].1) {
            Ok(v) => v,
            Err(_) => vstd::pervasive::unreached(),
        };
        assert(converted.take(i + 1).drop_last() =~= converted.take(i as int));
        assert(converted[i as int] == (name@, value@));
        data.insert_field(name, value);
    }
    assert(converted.take(obj.properties.len() as int) =~= converted);
    let constructor_name = if string_eq(&obj.constructor_name, "Object") {
        None
    } else {
        Some(obj.constructor_name.clone())
    };
    proof {
        reveal_strlit("Object");
    }
    Ok(CloudstateObjectData { fields: data.fields, constructor_name })
}

/// The JavaScript values of a list of stored values, in order.
pub fn values_to_js(values: &Vec<CloudstatePrimitiveData>) -> (r: Vec<JsValue>)
    ensures
        r@.len() == values@.len(),
        forall|i: int| 0 <= i < values@.len() ==> (#[trigger] r@[i])@ == primitive_to_js_spec(
            values@[i]@,
        ),
{
    let mut r: Vec<JsValue> = Vec::new();
    for i in 0..values.len()
        invariant
            r@.len() == i,
            forall|j: int| 0 <= j < i ==> (#[trigger] r@[j])@ == primitive_to_js_spec(
                values@[j]@,
            ),
    {
        r.push(primitive_to_js(&values[i]));
    }
    r
}

/// The JavaScript pairs of a list of stored entries: each entry's first two
/// values, in order.
pub fn entries_to_js(entries: &Vec<Vec<CloudstatePrimitiveData>>) -> (r: Vec<(JsValue, JsValue)>)
    requires
        forall|i: int| 0 <= i < entries@.len() ==> (#[trigger] entries@[i])@.len() >= 2,
    ensures
        r@.len() == entries@.len(),
        forall|i: int|
            0 <= i < entries@.len() ==> (#[trigger] r@[i]).0@ == primitive_to_js_spec(
                entries@[i]@[0]@,
            ) && r@[i].1@ == primitive_to_js_spec(entries@[i]@[1]@),
{
    let mut r: Vec<(JsValue, JsValue)> = Vec::new();
    for i in 0..entries.len()
        invariant
            r@.len() == i,
            forall|k: int| 0 <= k < entries@.len() ==> (#[trigger] entries@[k])@.len() >= 2,
            forall|j: int|
                0 <= j < i ==> (#[trigger] r@[j]).0@ == primitive_to_js_spec(entries@[j]@[0]@)
                    && r@[j].1@ == primitive_to_js_spec(entries@[j]@[1]@),
    {
        let entry = &entries[i];
        assert(entry@.len() >= 2);
        let key = primitive_to_js(&entry[0]);
        let value = primitive_to_js(&entry[1]);
        r.push((key, value));
    }
    r
}

/// Writing a stored value to JavaScript and reading it back gives the value
/// itself, except that a URL comes back as a string of its text. A valid date
/// must lie in the range of instants that can be stored: reading a date
/// outside it is a fault.
pub proof fn lemma_js_round_trip(p: PrimitiveValue)
    requires
        p matches PrimitiveValue::Date(Some(ms)) ==> chrono_date_in_range(ms),
    ensures
        js_readable(primitive_to_js_spec(p)),
        primitive_from_js_spec(primitive_to_js_spec(p)) == Some(
            match p {
                PrimitiveValue::Url(u) => PrimitiveValue::String(u),
                _ => p,
            },
        ),
{
    reveal_strlit("CloudstateBlobReference");
    reveal_strlit("CloudstateObjectReference");
    reveal_strlit("CloudstateMapReference");
    reveal_strlit("CloudstateArrayReference");
    reveal_strlit("blobId");
    reveal_strlit("objectId");
    assert("CloudstateBlobReference"@.len() == 23);
    assert("CloudstateObjectReference"@.len() == 25);
    assert("CloudstateMapReference"@.len() == 22);
    assert("CloudstateArrayReference"@.len() == 24);
    match p {
        PrimitiveValue::Blob(id) => {
            let v = primitive_to_js_spec(p);
            assert(v == JsValueView::Object("CloudstateBlobReference"@, seq![("blobId"@, id)]));
            assert(seq![("blobId"@, id)][0].0 == "blobId"@);
            assert(first_property(seq![("blobId"@, id)], "blobId"@) == Some(id));
            assert(js_readable(v));
            assert(primitive_from_js_spec(v) == Some(p));
        },
        PrimitiveValue::ObjectReference(id) => {
            let v = primitive_to_js_spec(p);
            assert(v == JsValueView::Object("CloudstateObjectReference"@, seq![("objectId"@, id)]));
            assert(seq![("objectId"@, id)][0].0 == "objectId"@);
            assert(first_property(seq![("objectId"@, id)], "objectId"@) == Some(id));
            assert(js_readable(v));
            assert(primitive_from_js_spec(v) == Some(p));
        },
        PrimitiveValue::MapReference(id) => {
            let v = primitive_to_js_spec(p);
            assert(v == JsValueView::Object("CloudstateMapReference"@, seq![("objectId"@, id)]));
            assert(seq![("objectId"@, id)][0].0 == "objectId"@);
            assert(first_property(seq![("objectId"@, id)], "objectId"@) == Some(id));
            assert(js_readable(v));
            assert(primitive_from_js_spec(v) == Some(p));
        },
        PrimitiveValue::ArrayReference(id) => {
            let v = primitive_to_js_spec(p);
            assert(v == JsValueView::Object("CloudstateArrayReference"@, seq![("objectId"@, id)]));
            assert(seq![("objectId"@, id)][0].0 == "objectId"@);
            assert(first_property(seq![("objectId"@, id)], "objectId"@) == Some(id));
            assert(js_readable(v));
            assert(primitive_from_js_spec(v) == Some(p));
        },
        _ => {},
    }
}

/// The stored object of a plain JavaScript object has a field for each of
/// its property names and no other, and each field holds what reading the
/// value of the last property of its name gives: a `null` property stays
/// `null`, an `undefined` one `undefined`.
pub proof fn lemma_object_fields_are_converted_properties(props: Seq<(Seq<char>, JsValueView)>)
    ensures
        forall|k: Seq<char>|
            #[trigger] fields_from_properties(props).contains_key(k) <==> exists|i: int|
                0 <= i < props.len() && (#[trigger] props[i]).0 == k,
        forall|i: int|
            0 <= i < props.len() && (forall|j: int| i < j < props.len() ==> props[j].0 != props[i].0)
                ==> fields_from_properties(props)[(#[trigger] props[i]).0] == primitive_from_js_spec(
                props[i].1,
            ).unwrap(),
        forall|i: int|
            0 <= i < props.len() && (forall|j: int| i < j < props.len() ==> props[j].0 != props[i].0)
                && (#[trigger] props[i]).1 == JsValueView::Null ==> fields_from_properties(props)[props[i].0]
                == PrimitiveValue::Null,
        forall|i: int|
            0 <= i < props.len() && (forall|j: int| i < j < props.len() ==> props[j].0 != props[i].0)
                && (#[trigger] props[i]).1 == JsValueView::Undefined ==> fields_from_properties(
                props,
            )[props[i].0] == PrimitiveValue::Undefined,
{
    let converted = props.map_values(
        |p: (Seq<char>, JsValueView)| (p.0, primitive_from_js_spec(p.1).unwrap()),
    );
    assert(fields_from_properties(props) == table_map(converted));
    assert forall|k: Seq<char>|
        #[trigger] fields_from_properties(props).contains_key(k) <==> exists|i: int|
            0 <= i < props.len() && (#[trigger] props[i]).0 == k by {
        crate::table::lemma_table_map_dom(converted, k);
        if exists|i: int| 0 <= i < props.len() && (#[trigger] props[i]).0 == k {
            let i = choose|i: int| 0 <= i < props.len() && (#[trigger] props[i]).0 == k;
            assert(converted[i].0 == k);
        }
        if exists|i: int| 0 <= i < converted.len() && converted[i].0 == k {
            let i = choose|i: int| 0 <= i < converted.len() && converted[i].0 == k;
            assert(props[i].0 == k);
        }
    }
    assert forall|i: int|
        0 <= i < props.len() && (forall|j: int| i < j < props.len() ==> props[j].0 != props[i].0)
            implies fields_from_properties(props)[(#[trigger] props[i]).0] == primitive_from_js_spec(
        props[i].1,
    ).unwrap() by {
        assert forall|j: int| i < j < converted.len() implies converted[j].0 != converted[i].0 by {
            assert(props[j].0 != props[i].0);
        }
        crate::table::lemma_table_map_last(converted, i);
    }
}

} // verus!
