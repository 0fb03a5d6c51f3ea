use cloudstate::cloudstate::{
    CloudstateArrayItemKey, CloudstateArrayItemValue, CloudstateMapFieldKey,
    CloudstateMapFieldValue, CloudstateObjectData, CloudstateObjectKey, CloudstateObjectValue,
    CloudstatePrimitiveData, CloudstateRootKey, CloudstateRootValue, ObjectReference,
};
use cloudstate::gc::{mark, mark_and_sweep, sweep, CloudstateTables, Pointer};

fn object(id: &str, fields: Vec<(&str, CloudstatePrimitiveData)>) -> (CloudstateObjectKey, CloudstateObjectValue) {
    (
        CloudstateObjectKey { id: id.to_string() },
        CloudstateObjectValue {
            data: CloudstateObjectData {
                fields: fields.into_iter().map(|(k, v)| (k.to_string(), v)).collect(),
                constructor_name: None,
            },
        },
    )
}

fn obj_ref(id: &str) -> CloudstatePrimitiveData {
    CloudstatePrimitiveData::ObjectReference(ObjectReference { id: id.to_string() })
}

fn sample_tables() -> CloudstateTables {
    CloudstateTables {
        roots: vec![(
            CloudstateRootKey { alias: "main".to_string() },
            CloudstateRootValue { id: "a".to_string() },
        )],
        objects: vec![
            object(
                "a",
                vec![
                    ("child", obj_ref("b")),
                    ("list", CloudstatePrimitiveData::ArrayReference("arr1".to_string())),
                ],
            ),
            object("b", vec![("m", CloudstatePrimitiveData::MapReference("m1".to_string()))]),
            object("c", vec![("n", CloudstatePrimitiveData::Number(1.5f64.to_bits()))]),
            object("d", vec![("x", obj_ref("e"))]),
            object("e", vec![]),
        ],
        maps: vec![
            (
                CloudstateMapFieldKey { id: "m1".to_string(), field: "k".to_string() },
                CloudstateMapFieldValue { data: obj_ref("c") },
            ),
            (
                CloudstateMapFieldKey { id: "m2".to_string(), field: "k".to_string() },
                CloudstateMapFieldValue { data: obj_ref("d") },
            ),
        ],
        arrays: vec![
            (
                CloudstateArrayItemKey { id: "arr1".to_string(), index: 0 },
                CloudstateArrayItemValue { data: CloudstatePrimitiveData::Null },
            ),
            (
                CloudstateArrayItemKey { id: "arr2".to_string(), index: 0 },
                CloudstateArrayItemValue { data: CloudstatePrimitiveData::String("s".to_string()) },
            ),
        ],
    }
}

fn describe(p: &Pointer) -> String {
    match p {
        Pointer::Object(k) => format!("object {}", k.id),
        Pointer::JsMap(k) => format!("map {}", k.id),
        Pointer::Array(k) => format!("array {}", k.id),
        Pointer::MapField(k) => format!("map field {} {}", k.id, k.field),
        Pointer::ArrayItem(k) => format!("array item {} {}", k.id, k.index),
    }
}

#[test]
fn gc_deletes_unreached_objects_maps_and_arrays() {
    let tables = sample_tables();
    let deleted: Vec<String> = mark_and_sweep(&tables).iter().map(describe).collect();
    assert_eq!(
        deleted,
        vec![
            "object d".to_string(),
            "object e".to_string(),
            "map field m2 k".to_string(),
            "array item arr2 0".to_string(),
        ]
    );
}

#[test]
fn gc_five_objects_leave_three() {
    let tables = sample_tables();
    let deleted = mark_and_sweep(&tables);
    let deleted_objects = deleted.iter().filter(|p| matches!(p, Pointer::Object(_))).count();
    assert_eq!(tables.objects.len(), 5);
    assert_eq!(tables.objects.len() - deleted_objects, 3);
}

#[test]
fn gc_mark_reaches_roots_and_references() {
    let tables = sample_tables();
    let mut reached: Vec<String> = mark(&tables).iter().map(describe).collect();
    reached.sort();
    assert_eq!(
        reached,
        vec![
            "array arr1".to_string(),
            "map m1".to_string(),
            "object a".to_string(),
            "object b".to_string(),
            "object c".to_string(),
        ]
    );
}

#[test]
fn gc_without_roots_deletes_everything() {
    let mut tables = sample_tables();
    tables.roots.clear();
    let deleted = mark_and_sweep(&tables);
    assert_eq!(deleted.len(), 5 + 2 + 2);
}

#[test]
fn gc_second_collection_deletes_nothing() {
    let tables = sample_tables();
    let collected = CloudstateTables {
        roots: tables.roots,
        objects: tables
            .objects
            .into_iter()
            .filter(|(k, _)| k.id != "d" && k.id != "e")
            .collect(),
        maps: tables.maps.into_iter().filter(|(k, _)| k.id != "m2").collect(),
        arrays: tables.arrays.into_iter().filter(|(k, _)| k.id != "arr2").collect(),
    };
    assert!(mark_and_sweep(&collected).is_empty());
}

#[test]
fn gc_sweep_keeps_everything_marked_live() {
    let tables = sample_tables();
    let live = vec![
        Pointer::Object(CloudstateObjectKey { id: "a".to_string() }),
        Pointer::Object(CloudstateObjectKey { id: "b".to_string() }),
        Pointer::Object(CloudstateObjectKey { id: "c".to_string() }),
        Pointer::Object(CloudstateObjectKey { id: "d".to_string() }),
        Pointer::Object(CloudstateObjectKey { id: "e".to_string() }),
        Pointer::JsMap(CloudstateObjectKey { id: "m1".to_string() }),
        Pointer::JsMap(CloudstateObjectKey { id: "m2".to_string() }),
        Pointer::Array(CloudstateObjectKey { id: "arr1".to_string() }),
        Pointer::Array(CloudstateObjectKey { id: "arr2".to_string() }),
    ];
    assert!(sweep(&tables, &live).is_empty());
}

#[test]
fn gc_cycle_without_root_is_collected() {
    let tables = CloudstateTables {
        roots: vec![],
        objects: vec![object("x", vec![("y", obj_ref("y"))]), object("y", vec![("x", obj_ref("x"))])],
        maps: vec![],
        arrays: vec![],
    };
    let deleted: Vec<String> = mark_and_sweep(&tables).iter().map(describe).collect();
    assert_eq!(deleted, vec!["object x".to_string(), "object y".to_string()]);
}

#[test]
fn gc_unreached_map_entries_leave_none() {
    let tables = CloudstateTables {
        roots: vec![(
            CloudstateRootKey { alias: "main".to_string() },
            CloudstateRootValue { id: "a".to_string() },
        )],
        objects: vec![object("a", vec![("n", CloudstatePrimitiveData::Null)])],
        maps: vec![
            (
                CloudstateMapFieldKey { id: "m".to_string(), field: "x".to_string() },
                CloudstateMapFieldValue { data: CloudstatePrimitiveData::Null },
            ),
            (
                CloudstateMapFieldKey { id: "m".to_string(), field: "y".to_string() },
                CloudstateMapFieldValue { data: obj_ref("a") },
            ),
        ],
        arrays: vec![],
    };
    let deleted = mark_and_sweep(&tables);
    let map_fields = deleted.iter().filter(|p| matches!(p, Pointer::MapField(_))).count();
    assert_eq!(tables.maps.len(), 2);
    assert_eq!(tables.maps.len() - map_fields, 0);
}

#[test]
fn gc_nine_array_items_leave_five() {
    let mut arrays = Vec::new();
    for i in 0..5 {
        arrays.push((
            CloudstateArrayItemKey { id: "kept".to_string(), index: i },
            CloudstateArrayItemValue { data: CloudstatePrimitiveData::Null },
        ));
    }
    for i in 0..4 {
        arrays.push((
            CloudstateArrayItemKey { id: "lost".to_string(), index: i },
            CloudstateArrayItemValue { data: CloudstatePrimitiveData::Null },
        ));
    }
    let tables = CloudstateTables {
        roots: vec![(
            CloudstateRootKey { alias: "main".to_string() },
            CloudstateRootValue { id: "a".to_string() },
        )],
        objects: vec![object("a", vec![("list", CloudstatePrimitiveData::ArrayReference("kept".to_string()))])],
        maps: vec![],
        arrays,
    };
    let deleted = mark_and_sweep(&tables);
    let items = deleted.iter().filter(|p| matches!(p, Pointer::ArrayItem(_))).count();
    assert_eq!(tables.arrays.len(), 9);
    assert_eq!(tables.arrays.len() - items, 5);
}
