use cloudstate::blob_storage::{
    fs_has_blob, BlobStorageError, CloudstateBlobMetadata, CloudstateBlobStorage,
    CloudstateBlobStorageEngine, CloudstateBlobValue, FileLookup, FsBlobStore, InMemoryBlobStore,
};
use cloudstate::table::TableEdit;

#[test]
fn in_memory_put_get_delete() {
    let mut store = InMemoryBlobStore::new();
    assert!(!store.has_blob("a").unwrap());
    store.put_blob("a", CloudstateBlobValue::from(vec![1, 2, 3])).unwrap();
    assert!(store.has_blob("a").unwrap());
    assert_eq!(store.get_blob_data("a").unwrap().data, vec![1, 2, 3]);
    assert_eq!(store.get_blob_size("a").unwrap(), 3);
    store.put_blob("a", CloudstateBlobValue { data: vec![9] }).unwrap();
    assert_eq!(store.get_blob_data("a").unwrap().data, vec![9]);
    store.delete_blob("a").unwrap();
    assert!(!store.has_blob("a").unwrap());
    assert!(store.get_blob_data("a").is_err());
    store.delete_blob("a").unwrap();
}

#[test]
fn in_memory_missing_blob_message() {
    let store = InMemoryBlobStore::default();
    match store.get_blob_data("missing") {
        Err(e) => assert_eq!(e.message(), "Blob not found: missing"),
        Ok(_) => panic!("nothing was stored"),
    }
    assert!(matches!(store.get_blob_size("missing"), Err(BlobStorageError::NotFound { .. })));
}

#[test]
fn in_memory_slices() {
    let mut store = InMemoryBlobStore::new();
    store.put_blob("b", CloudstateBlobValue::from(b"abcdef".to_vec())).unwrap();
    assert_eq!(store.get_blob_slice("b", None, None).unwrap(), b"abcdef".to_vec());
    assert_eq!(store.get_blob_slice("b", Some(1), Some(4)).unwrap(), b"bcd".to_vec());
    assert_eq!(store.get_blob_slice("b", Some(6), None).unwrap(), Vec::<u8>::new());
    assert!(store.get_blob_slice("c", None, None).is_err());
}

#[test]
fn storage_put_and_delete_edit_metadata_table() {
    let mut storage: CloudstateBlobStorage<InMemoryBlobStore> = CloudstateBlobStorage::default();
    let (edit, result) = storage.put_blob(
        "x",
        CloudstateBlobValue::from(vec![7]),
        CloudstateBlobMetadata { type_: "image/png".to_string() },
    );
    assert!(result.is_ok());
    assert!(matches!(edit, TableEdit::Insert(k, m) if k.id == "x" && m.type_ == "image/png"));
    assert!(storage.has_blob("x").unwrap());
    assert_eq!(storage.get_blob_size("x").unwrap(), 1);
    let (edit, result) = storage.delete_blob("x");
    assert!(result.is_ok());
    assert!(matches!(edit, TableEdit::Remove(k) if k.id == "x"));
    assert!(!storage.has_blob("x").unwrap());
}

#[test]
fn storage_metadata_lookup() {
    let storage = CloudstateBlobStorage::new(InMemoryBlobStore::new());
    let found = storage
        .get_blob_metadata("x", Some(CloudstateBlobMetadata { type_: "a/b".to_string() }))
        .unwrap();
    assert_eq!(found.type_, "a/b");
    match storage.get_blob_metadata("x", None) {
        Err(e) => {
            assert!(matches!(e, BlobStorageError::MetadataNotFound));
            assert_eq!(e.message(), "Blob not found");
        }
        Ok(_) => panic!("no metadata was given"),
    }
}

#[test]
fn fs_store_root_and_lookup_outcomes() {
    let store = FsBlobStore::new("/tmp/blobs".to_string());
    assert_eq!(store.root(), "/tmp/blobs");
    assert!(fs_has_blob(FileLookup::Found).unwrap());
    assert!(!fs_has_blob(FileLookup::NotFound).unwrap());
    match fs_has_blob(FileLookup::Failed { message: "permission denied".to_string() }) {
        Err(e) => assert_eq!(e.message(), "permission denied"),
        Ok(_) => panic!("a failed lookup is an error"),
    }
}
