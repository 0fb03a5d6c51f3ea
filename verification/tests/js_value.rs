use cloudstate::cloudstate::{Blob, CloudstateObjectData, CloudstatePrimitiveData, ObjectReference};
use cloudstate::js_value::{
    entries_to_js, object_from_js, object_to_js, primitive_from_js, primitive_to_js, values_to_js,
    ConversionError, JsObject, JsPlainObject, JsValue,
};

fn describe(v: &JsValue) -> String {
    match v {
        JsValue::Null => "null".to_string(),
        JsValue::Undefined => "undefined".to_string(),
        JsValue::BigInt { negative, words } => format!("bigint {} {:?}", negative, words),
        JsValue::Number(n) => format!("number {}", f64::from_bits(*n)),
        JsValue::String(s) => format!("string {}", s),
        JsValue::Boolean(b) => format!("boolean {}", b),
        JsValue::Date(d) => format!("date {:?}", d),
        JsValue::Object(o) => format!("{} {:?}", o.class_name, o.string_properties),
        JsValue::Other => "other".to_string(),
    }
}

fn stored(p: &CloudstatePrimitiveData) -> String {
    match p {
        CloudstatePrimitiveData::String(x) => format!("String({})", x),
        CloudstatePrimitiveData::Number(n) => format!("Number({})", f64::from_bits(*n)),
        CloudstatePrimitiveData::Boolean(b) => format!("Boolean({})", b),
        CloudstatePrimitiveData::Undefined => "Undefined".to_string(),
        CloudstatePrimitiveData::Null => "Null".to_string(),
        CloudstatePrimitiveData::ObjectReference(r) => format!("ObjectReference({})", r.id),
        CloudstatePrimitiveData::MapReference(id) => format!("MapReference({})", id),
        CloudstatePrimitiveData::ArrayReference(id) => format!("ArrayReference({})", id),
        CloudstatePrimitiveData::Blob(b) => format!("Blob({})", b.id),
        CloudstatePrimitiveData::Url(u) => format!("Url({})", u),
        CloudstatePrimitiveData::Date(d) => format!("Date({:?})", d),
        CloudstatePrimitiveData::BigInt(n, w) => format!("BigInt({}, {:?})", n, w),
    }
}

fn all_values() -> Vec<CloudstatePrimitiveData> {
    vec![
        CloudstatePrimitiveData::Number(2.5f64.to_bits()),
        CloudstatePrimitiveData::String("hi".to_string()),
        CloudstatePrimitiveData::Boolean(true),
        CloudstatePrimitiveData::BigInt(false, vec![1, 2]),
        CloudstatePrimitiveData::BigInt(true, vec![5]),
        CloudstatePrimitiveData::Undefined,
        CloudstatePrimitiveData::Null,
        CloudstatePrimitiveData::Date(Some(1_700_000_000_000)),
        CloudstatePrimitiveData::Date(None),
        CloudstatePrimitiveData::Blob(Blob { id: "b1".to_string() }),
        CloudstatePrimitiveData::ObjectReference(ObjectReference { id: "o1".to_string() }),
        CloudstatePrimitiveData::MapReference("m1".to_string()),
        CloudstatePrimitiveData::ArrayReference("a1".to_string()),
    ]
}

#[test]
fn references_become_reference_objects() {
    let got: Vec<String> = all_values().iter().map(|v| describe(&primitive_to_js(v))).collect();
    assert_eq!(
        got,
        vec![
            "number 2.5",
            "string hi",
            "boolean true",
            "bigint false [1, 2]",
            "bigint true [5]",
            "undefined",
            "null",
            "date Some(1700000000000)",
            "date None",
            "CloudstateBlobReference [(\"blobId\", \"b1\")]",
            "CloudstateObjectReference [(\"objectId\", \"o1\")]",
            "CloudstateMapReference [(\"objectId\", \"m1\")]",
            "CloudstateArrayReference [(\"objectId\", \"a1\")]",
        ]
    );
}

#[test]
fn url_is_written_as_its_text() {
    let v = primitive_to_js(&CloudstatePrimitiveData::Url("https://a.b/".to_string()));
    assert_eq!(describe(&v), "string https://a.b/");
    assert_eq!(stored(&primitive_from_js(&v).unwrap()), "String(https://a.b/)");
}

#[test]
fn every_stored_value_reads_back() {
    for v in all_values() {
        let back = primitive_from_js(&primitive_to_js(&v)).unwrap();
        assert_eq!(stored(&back), stored(&v));
    }
}

#[test]
fn negative_bigint_keeps_its_sign() {
    let v = JsValue::BigInt { negative: true, words: vec![5] };
    let back = primitive_from_js(&v).unwrap();
    assert_eq!(stored(&back), "BigInt(true, [5])");
    assert_eq!(describe(&primitive_to_js(&back)), "bigint true [5]");
}

#[test]
fn unsupported_values_refused_and_dates_kept() {
    assert_eq!(primitive_from_js(&JsValue::Other).err(), Some(ConversionError::NotImplemented));
    assert_eq!(stored(&primitive_from_js(&JsValue::Date(Some(-1))).unwrap()), "Date(Some(-1))");
    assert_eq!(stored(&primitive_from_js(&JsValue::Date(None)).unwrap()), "Date(None)");
    assert_eq!(
        stored(&primitive_from_js(&JsValue::Date(Some(-8_334_601_228_800_000))).unwrap()),
        "Date(Some(-8334601228800000))"
    );
    assert_eq!(
        stored(&primitive_from_js(&JsValue::Date(Some(8_210_266_876_799_999))).unwrap()),
        "Date(Some(8210266876799999))"
    );
}

#[test]
fn reference_uses_first_id_property() {
    let v = JsValue::Object(JsObject {
        class_name: "CloudstateObjectReference".to_string(),
        string_properties: vec![
            ("constructorName".to_string(), "Counter".to_string()),
            ("objectId".to_string(), "o9".to_string()),
        ],
    });
    assert_eq!(stored(&primitive_from_js(&v).unwrap()), "ObjectReference(o9)");
}

#[test]
fn object_to_js_adds_class_name_property() {
    let data = CloudstateObjectData {
        fields: vec![
            ("a".to_string(), CloudstatePrimitiveData::Null),
            ("b".to_string(), CloudstatePrimitiveData::MapReference("m".to_string())),
        ],
        constructor_name: Some("Counter".to_string()),
    };
    let o = object_to_js(&data);
    assert_eq!(o.constructor_name, "Object");
    let props: Vec<String> = o.properties.iter().map(|(k, v)| format!("{}={}", k, describe(v))).collect();
    assert_eq!(
        props,
        vec![
            "a=null",
            "b=CloudstateMapReference [(\"objectId\", \"m\")]",
            "__cloudstate__constructorName=string Counter",
        ]
    );
}

#[test]
fn object_from_js_reads_fields_and_class() {
    let o = JsPlainObject {
        constructor_name: "Counter".to_string(),
        properties: vec![
            ("count".to_string(), JsValue::Number(3.0f64.to_bits())),
            ("when".to_string(), JsValue::Date(Some(0))),
        ],
    };
    let data = object_from_js(&o).unwrap();
    assert_eq!(data.constructor_name, Some("Counter".to_string()));
    let fields: Vec<String> = data.fields.iter().map(|(k, v)| format!("{}={}", k, stored(v))).collect();
    assert_eq!(fields, vec!["count=Number(3)", "when=Date(Some(0))"]);
    let plain = JsPlainObject { constructor_name: "Object".to_string(), properties: vec![] };
    assert_eq!(object_from_js(&plain).unwrap().constructor_name, None);
}

#[test]
fn object_from_js_later_property_wins() {
    let o = JsPlainObject {
        constructor_name: "Object".to_string(),
        properties: vec![
            ("x".to_string(), JsValue::Boolean(true)),
            ("x".to_string(), JsValue::Boolean(false)),
        ],
    };
    let data = object_from_js(&o).unwrap();
    assert_eq!(data.fields.len(), 1);
    assert_eq!(stored(&data.fields[0].1), "Boolean(false)");
}

#[test]
fn lists_and_entries_to_js() {
    let values = vec![CloudstatePrimitiveData::Boolean(false), CloudstatePrimitiveData::Null];
    let got: Vec<String> = values_to_js(&values).iter().map(describe).collect();
    assert_eq!(got, vec!["boolean false", "null"]);
    let entries = vec![vec![
        CloudstatePrimitiveData::String("k".to_string()),
        CloudstatePrimitiveData::ArrayReference("a".to_string()),
    ]];
    let got: Vec<String> =
        entries_to_js(&entries).iter().map(|(k, v)| format!("{} -> {}", describe(k), describe(v))).collect();
    assert_eq!(got, vec!["string k -> CloudstateArrayReference [(\"objectId\", \"a\")]"]);
}

#[test]
fn conversion_error_message() {
    assert_eq!(
        ConversionError::NotImplemented.message(),
        "Conversion from V8 to CloudstatePrimitiveData not implemented"
    );
}
