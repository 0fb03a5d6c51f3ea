use cloudstate::blob_storage::{CloudstateBlobMetadata, CloudstateBlobStorage, InMemoryBlobStore};
use cloudstate::cloudstate::{
    CloudstateArrayItemKey, CloudstateArrayItemValue, CloudstateMapFieldKey,
    CloudstateMapFieldValue, CloudstateObjectData, CloudstateObjectKey, CloudstateObjectValue,
    CloudstatePrimitiveData, CloudstateRootKey, CloudstateRootValue,
};
use cloudstate::ops::{
    op_cloudstate_array_get, op_cloudstate_array_length, op_cloudstate_array_pop,
    op_cloudstate_array_reverse, op_cloudstate_array_set, op_cloudstate_array_shift,
    op_cloudstate_blob_get_array_buffer, op_cloudstate_blob_get_size, op_cloudstate_blob_get_text,
    op_cloudstate_blob_get_type, op_cloudstate_blob_get_uint8array, op_cloudstate_blob_set,
    op_cloudstate_blob_slice, op_cloudstate_cloudstate_get, op_cloudstate_list_roots,
    op_cloudstate_map_clear, op_cloudstate_map_delete, op_cloudstate_map_entries,
    op_cloudstate_map_get, op_cloudstate_map_has, op_cloudstate_map_keys, op_cloudstate_map_set,
    op_cloudstate_map_size, op_cloudstate_map_values, op_cloudstate_object_get,
    op_cloudstate_object_root_get, op_cloudstate_object_root_set, op_cloudstate_object_set,
    op_cloudstate_object_set_property, CloudstateOpError,
};
use cloudstate::table::TableEdit;

fn s(x: &str) -> CloudstatePrimitiveData {
    CloudstatePrimitiveData::String(x.to_string())
}

fn text(p: &CloudstatePrimitiveData) -> String {
    match p {
        CloudstatePrimitiveData::String(x) => format!("str:{}", x),
        CloudstatePrimitiveData::Number(n) => format!("num:{}", f64::from_bits(*n)),
        CloudstatePrimitiveData::Boolean(b) => format!("bool:{}", b),
        CloudstatePrimitiveData::Undefined => "undefined".to_string(),
        CloudstatePrimitiveData::Null => "null".to_string(),
        CloudstatePrimitiveData::ObjectReference(r) => format!("obj:{}", r.id),
        CloudstatePrimitiveData::MapReference(id) => format!("map:{}", id),
        CloudstatePrimitiveData::ArrayReference(id) => format!("array:{}", id),
        CloudstatePrimitiveData::Blob(b) => format!("blob:{}", b.id),
        CloudstatePrimitiveData::Url(u) => format!("url:{}", u),
        CloudstatePrimitiveData::Date(d) => format!("date:{:?}", d),
        CloudstatePrimitiveData::BigInt(n, w) => format!("bigint:{}{:?}", n, w),
    }
}

fn map_entry(id: &str, field: &str, v: CloudstatePrimitiveData) -> (CloudstateMapFieldKey, CloudstateMapFieldValue) {
    (
        CloudstateMapFieldKey { id: id.to_string(), field: field.to_string() },
        CloudstateMapFieldValue { data: v },
    )
}

fn item(id: &str, index: i32, v: CloudstatePrimitiveData) -> (CloudstateArrayItemKey, CloudstateArrayItemValue) {
    (CloudstateArrayItemKey { id: id.to_string(), index }, CloudstateArrayItemValue { data: v })
}

fn sample_maps() -> Vec<(CloudstateMapFieldKey, CloudstateMapFieldValue)> {
    vec![
        map_entry("m", "a", s("1")),
        map_entry("m", "b", s("2")),
        map_entry("other", "a", s("x")),
        map_entry("m", "c", CloudstatePrimitiveData::Null),
    ]
}

fn sample_array() -> Vec<(CloudstateArrayItemKey, CloudstateArrayItemValue)> {
    vec![
        item("arr", 0, s("a")),
        item("arr", 1, s("b")),
        item("arr", 2, s("c")),
        item("zzz", 0, s("other")),
    ]
}

fn data(fields: Vec<(&str, CloudstatePrimitiveData)>) -> CloudstateObjectData {
    CloudstateObjectData {
        fields: fields.into_iter().map(|(k, v)| (k.to_string(), v)).collect(),
        constructor_name: None,
    }
}

#[test]
fn object_set_then_get() {
    let edit = op_cloudstate_object_set("o1".to_string(), data(vec![("x", s("y"))]));
    let stored = match edit {
        TableEdit::Insert(k, v) => {
            assert_eq!(k.id, "o1");
            v
        }
        TableEdit::Remove(_) => panic!("a set inserts"),
    };
    let got = op_cloudstate_object_get(Some(stored)).unwrap();
    assert_eq!(got.fields.len(), 1);
    assert_eq!(got.fields[0].0, "x");
    assert_eq!(text(&got.fields[0].1), "str:y");
}

#[test]
fn object_get_missing_is_not_found() {
    assert!(matches!(op_cloudstate_object_get(None), Err(CloudstateOpError::ObjectNotFound)));
}

#[test]
fn list_roots_in_order() {
    let roots = vec![
        (CloudstateRootKey { alias: "a".to_string() }, CloudstateRootValue { id: "1".to_string() }),
        (CloudstateRootKey { alias: "b".to_string() }, CloudstateRootValue { id: "2".to_string() }),
    ];
    assert_eq!(op_cloudstate_list_roots(&roots), vec!["a".to_string(), "b".to_string()]);
}

#[test]
fn root_set_then_get() {
    match op_cloudstate_object_root_set("main".to_string(), "o7".to_string()) {
        TableEdit::Insert(k, v) => {
            assert_eq!(k.alias, "main");
            assert_eq!(op_cloudstate_object_root_get(Some(v)), Some("o7".to_string()));
        }
        TableEdit::Remove(_) => panic!("a set inserts"),
    }
    assert_eq!(op_cloudstate_object_root_get(None), None);
}

#[test]
fn map_set_get_has_delete() {
    let edit = op_cloudstate_map_set("m".to_string(), "f".to_string(), s("v"));
    let stored = match edit {
        TableEdit::Insert(k, v) => {
            assert_eq!((k.id.as_str(), k.field.as_str()), ("m", "f"));
            v
        }
        TableEdit::Remove(_) => panic!("a set inserts"),
    };
    assert_eq!(text(&op_cloudstate_map_get(Some(CloudstateMapFieldValue { data: s("v") }))), "str:v");
    assert_eq!(text(&op_cloudstate_map_has(Some(stored))), "bool:true");
    assert_eq!(text(&op_cloudstate_map_get(None)), "undefined");
    assert_eq!(text(&op_cloudstate_map_has(None)), "bool:false");
    let (edit, existed) = op_cloudstate_map_delete("m".to_string(), "f".to_string(), None);
    assert!(!existed);
    assert!(matches!(edit, TableEdit::Remove(k) if k.id == "m" && k.field == "f"));
    let (_, existed) = op_cloudstate_map_delete(
        "m".to_string(),
        "f".to_string(),
        Some(CloudstateMapFieldValue { data: s("v") }),
    );
    assert!(existed);
}

#[test]
fn map_size_keys_values_entries() {
    let maps = sample_maps();
    let id = "m".to_string();
    assert_eq!(op_cloudstate_map_size(&id, &maps), 3);
    let keys: Vec<String> = op_cloudstate_map_keys(&id, &maps).iter().map(text).collect();
    assert_eq!(keys, vec!["str:a", "str:b", "str:c"]);
    let values: Vec<String> = op_cloudstate_map_values(&id, &maps).iter().map(text).collect();
    assert_eq!(values, vec!["str:1", "str:2", "null"]);
    let entries: Vec<Vec<String>> = op_cloudstate_map_entries(&id, &maps)
        .iter()
        .map(|e| e.iter().map(text).collect())
        .collect();
    assert_eq!(
        entries,
        vec![vec!["str:a", "str:1"], vec!["str:b", "str:2"], vec!["str:c", "null"]]
    );
    assert_eq!(op_cloudstate_map_size(&"none".to_string(), &maps), 0);
}

#[test]
fn map_clear_removes_only_that_map() {
    let maps = sample_maps();
    let edits = op_cloudstate_map_clear(&"m".to_string(), &maps);
    let removed: Vec<String> = edits
        .iter()
        .map(|e| match e {
            TableEdit::Remove(k) => format!("{}/{}", k.id, k.field),
            TableEdit::Insert(_, _) => panic!("clearing only removes"),
        })
        .collect();
    assert_eq!(removed, vec!["m/a", "m/b", "m/c"]);
}

#[test]
fn array_set_get_length() {
    match op_cloudstate_array_set("arr".to_string(), 4, s("x")) {
        TableEdit::Insert(k, v) => {
            assert_eq!((k.id.as_str(), k.index), ("arr", 4));
            assert_eq!(text(&op_cloudstate_array_get(Some(v))), "str:x");
        }
        TableEdit::Remove(_) => panic!("a set inserts"),
    }
    assert_eq!(text(&op_cloudstate_array_get(None)), "undefined");
    assert_eq!(op_cloudstate_array_length(&"arr".to_string(), &sample_array()), 3);
    assert_eq!(op_cloudstate_array_length(&"none".to_string(), &sample_array()), 0);
}

#[test]
fn array_length_counts_the_key_range() {
    let arrays = vec![
        item("arr", -1, s("neg")),
        item("arr", 0, s("a")),
        item("arr", 1, s("b")),
        item("arr\u{0}", -3, s("in range")),
        item("arr\u{0}", 0, s("out of range")),
        item("arrx", 0, s("other")),
    ];
    assert_eq!(op_cloudstate_array_length(&"arr".to_string(), &arrays), 3);
}

#[test]
fn array_pop_takes_last_item() {
    let (edit, value) = op_cloudstate_array_pop(&"arr".to_string(), &sample_array());
    assert_eq!(text(&value), "str:c");
    assert!(matches!(edit, Some(TableEdit::Remove(k)) if k.id == "arr" && k.index == 2));
    let (edit, value) = op_cloudstate_array_pop(&"none".to_string(), &sample_array());
    assert!(edit.is_none());
    assert_eq!(text(&value), "undefined");
}

#[test]
fn array_pop_with_gap_is_undefined() {
    let arrays = vec![item("arr", 0, s("a")), item("arr", 5, s("b"))];
    let (edit, value) = op_cloudstate_array_pop(&"arr".to_string(), &arrays);
    assert!(edit.is_none());
    assert_eq!(text(&value), "undefined");
}

#[test]
fn array_reverse_swaps_values() {
    let edits = op_cloudstate_array_reverse(&"arr".to_string(), &sample_array());
    let written: Vec<String> = edits
        .iter()
        .map(|e| match e {
            TableEdit::Insert(k, v) => format!("{}={}", k.index, text(&v.data)),
            TableEdit::Remove(_) => panic!("reversing only writes"),
        })
        .collect();
    assert_eq!(written, vec!["0=str:c", "1=str:b", "2=str:a"]);
}

#[test]
fn array_shift_moves_items_down() {
    let (edits, value) = op_cloudstate_array_shift(&"arr".to_string(), &sample_array());
    assert_eq!(text(&value), "str:a");
    let made: Vec<String> = edits
        .iter()
        .map(|e| match e {
            TableEdit::Insert(k, v) => format!("put {}={}", k.index, text(&v.data)),
            TableEdit::Remove(k) => format!("del {}", k.index),
        })
        .collect();
    assert_eq!(
        made,
        vec!["del 0", "del 1", "put 0=str:b", "del 2", "put 1=str:c"]
    );
    let (edits, value) = op_cloudstate_array_shift(&"none".to_string(), &sample_array());
    assert!(edits.is_empty());
    assert_eq!(text(&value), "undefined");
}

#[test]
fn object_set_property_updates_or_adds() {
    let stored = CloudstateObjectValue { data: data(vec![("a", s("1")), ("b", s("2"))]) };
    let edit = op_cloudstate_object_set_property("o".to_string(), "b".to_string(), s("3"), Some(stored))
        .unwrap();
    match edit {
        TableEdit::Insert(k, v) => {
            assert_eq!(k.id, "o");
            let fields: Vec<String> =
                v.data.fields.iter().map(|(n, x)| format!("{}={}", n, text(x))).collect();
            assert_eq!(fields, vec!["a=str:1", "b=str:3"]);
        }
        TableEdit::Remove(_) => panic!("setting a property writes the object"),
    }
    let stored = CloudstateObjectValue { data: data(vec![("a", s("1"))]) };
    match op_cloudstate_object_set_property("o".to_string(), "c".to_string(), s("4"), Some(stored))
        .unwrap()
    {
        TableEdit::Insert(_, v) => assert_eq!(v.data.fields.len(), 2),
        TableEdit::Remove(_) => panic!("setting a property writes the object"),
    }
    assert!(matches!(
        op_cloudstate_object_set_property("o".to_string(), "c".to_string(), s("4"), None),
        Err(CloudstateOpError::ObjectNotFound)
    ));
}

#[test]
fn cloudstate_get_finds_object_by_id_field() {
    let objects = vec![
        (CloudstateObjectKey { id: "k1".to_string() }, CloudstateObjectValue { data: data(vec![("id", s("other"))]) }),
        (CloudstateObjectKey { id: "k2".to_string() }, CloudstateObjectValue { data: data(vec![("name", s("x")), ("id", s("counter"))]) }),
        (CloudstateObjectKey { id: "k3".to_string() }, CloudstateObjectValue { data: data(vec![("id", s("counter"))]) }),
    ];
    assert_eq!(text(&op_cloudstate_cloudstate_get(&"counter".to_string(), &objects)), "obj:k2");
    assert_eq!(text(&op_cloudstate_cloudstate_get(&"missing".to_string(), &objects)), "undefined");
}

#[test]
fn blob_ops_round_trip() {
    let mut storage = CloudstateBlobStorage::new(InMemoryBlobStore::new());
    let (edit, stored) = op_cloudstate_blob_set(
        &mut storage,
        "b1".to_string(),
        "text/plain".to_string(),
        b"hello world".to_vec(),
    );
    assert!(stored.is_ok());
    let metadata = match edit {
        TableEdit::Insert(k, m) => {
            assert_eq!(k.id, "b1");
            m
        }
        TableEdit::Remove(_) => panic!("storing a blob inserts its metadata"),
    };
    let id = "b1".to_string();
    assert_eq!(op_cloudstate_blob_get_array_buffer(&storage, &id).unwrap(), b"hello world".to_vec());
    assert_eq!(op_cloudstate_blob_get_uint8array(&storage, &id).unwrap(), b"hello world".to_vec());
    assert_eq!(op_cloudstate_blob_get_text(&storage, &id).unwrap(), "hello world");
    assert_eq!(op_cloudstate_blob_get_size(&storage, &id).unwrap(), 11);
    assert_eq!(op_cloudstate_blob_get_type(&storage, &id, Some(metadata)).unwrap(), "text/plain");
    assert_eq!(op_cloudstate_blob_slice(&storage, &id, Some(6), None).unwrap(), b"world".to_vec());
    assert_eq!(op_cloudstate_blob_slice(&storage, &id, None, Some(5)).unwrap(), b"hello".to_vec());
    assert_eq!(op_cloudstate_blob_slice(&storage, &id, Some(2), Some(2)).unwrap(), Vec::<u8>::new());
}

#[test]
fn blob_ops_on_missing_blob() {
    let storage = CloudstateBlobStorage::new(InMemoryBlobStore::new());
    let id = "nope".to_string();
    assert!(op_cloudstate_blob_get_array_buffer(&storage, &id).is_err());
    assert!(op_cloudstate_blob_get_text(&storage, &id).is_err());
    assert!(op_cloudstate_blob_get_size(&storage, &id).is_err());
    assert!(op_cloudstate_blob_slice(&storage, &id, None, None).is_err());
    assert!(matches!(
        op_cloudstate_blob_get_type(&storage, &id, None),
        Err(CloudstateOpError::BlobNotFound)
    ));
    let _ = CloudstateBlobMetadata { type_: String::new() };
}

fn apply(arrays: &mut Vec<(CloudstateArrayItemKey, CloudstateArrayItemValue)>, edits: Vec<TableEdit<CloudstateArrayItemKey, CloudstateArrayItemValue>>) {
    for e in edits {
        match e {
            TableEdit::Insert(k, v) => {
                match arrays.iter_mut().find(|(x, _)| x.id == k.id && x.index == k.index) {
                    Some(entry) => entry.1 = v,
                    None => arrays.push((k, v)),
                }
            }
            TableEdit::Remove(k) => arrays.retain(|(x, _)| !(x.id == k.id && x.index == k.index)),
        }
    }
}

#[test]
fn array_reverse_twice_restores() {
    let mut arrays = sample_array();
    let edits = op_cloudstate_array_reverse(&"arr".to_string(), &arrays);
    apply(&mut arrays, edits);
    let once: Vec<String> = arrays.iter().map(|(_, v)| text(&v.data)).collect();
    assert_eq!(once, vec!["str:c", "str:b", "str:a", "str:other"]);
    let edits = op_cloudstate_array_reverse(&"arr".to_string(), &arrays);
    apply(&mut arrays, edits);
    let twice: Vec<String> = arrays.iter().map(|(_, v)| text(&v.data)).collect();
    assert_eq!(twice, vec!["str:a", "str:b", "str:c", "str:other"]);
}

#[test]
fn op_error_messages() {
    assert_eq!(CloudstateOpError::ObjectNotFound.message(), "Object not found");
    assert_eq!(CloudstateOpError::BlobNotFound.message(), "Blob not found");
}
