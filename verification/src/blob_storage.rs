//! Blob storage: the bytes of each blob live in a storage engine, keyed by the
//! blob's id, while its metadata lives in the blobs table of the database.

use vstd::prelude::*;
use crate::cloudstate::CloudstateBlobKey;
use crate::table::{TableEdit, entries_view, keys_unique, table_map};

verus! {

/// The bytes of a blob.
pub struct CloudstateBlobValue {
    pub data: Vec<u8>,
}

/// What the blobs table keeps about a blob: its MIME type.
pub struct CloudstateBlobMetadata {
    pub type_: String,
}

impl View for CloudstateBlobValue {
    type V = Seq<u8>;

    open spec fn view(&self) -> Seq<u8> {
        self.data@
    }
}

impl View for CloudstateBlobMetadata {
    type V = Seq<char>;

    open spec fn view(&self) -> Seq<char> {
        self.type_@
    }
}

fn copy_bytes(b: &Vec<u8>, from: usize, to: usize) -> (r: Vec<u8>)
    requires
        from <= to <= b@.len(),
    ensures
        r@ == b@.subrange(from as int, to as int),
{
    let mut r: Vec<u8> = Vec::new();
    let mut i = from;
    while i < to
        invariant
            from <= i <= to <= b@.len(),
            r@ == b@.subrange(from as int, i as int),
        decreases to - i,
    {
        r.push(b[i]);
        assert(r@ =~= b@.subrange(from as int, i + 1));
        i += 1;
    }
    r
}

impl Clone for CloudstateBlobValue {
    fn clone(&self) -> (r: Self)
        ensures
            r@ == self@,
    {
        let data = copy_bytes(&self.data, 0, self.data.len());
        assert(self.data@.subrange(0, self.data@.len() as int) =~= self.data@);
        CloudstateBlobValue { data }
    }
}

impl From<Vec<u8>> for CloudstateBlobValue {
    fn from(data: Vec<u8>) -> (r: Self) {
        CloudstateBlobValue { data }
    }
}

impl vstd::std_specs::convert::FromSpecImpl<Vec<u8>> for CloudstateBlobValue {
    open spec fn obeys_from_spec() -> bool {
        true
    }

    open spec fn from_spec(v: Vec<u8>) -> Self {
        CloudstateBlobValue { data: v }
    }
}

/// Why a blob operation failed.
#[derive(Debug)]
pub enum BlobStorageError {
    /// No blob has this id.
    NotFound { blob_id: String },
    /// The blobs table holds no metadata for the blob.
    MetadataNotFound,
    /// The storage behind the engine failed.
    Backend { message: String },
}

impl BlobStorageError {
    /// The message that the error reports.
    pub fn message(&self) -> (r: String)
        ensures
            match self {
                BlobStorageError::NotFound { blob_id } => r@ == "Blob not found: "@ + blob_id@,
                BlobStorageError::MetadataNotFound => r@ == "Blob not found"@,
                BlobStorageError::Backend { message } => r@ == message@,
            },
    {
        match self {
            BlobStorageError::NotFound { blob_id } => {
                let mut r = String::from_str("Blob not found: ");
                r.append(blob_id.as_str());
                r
            },
            BlobStorageError::MetadataNotFound => String::from_str("Blob not found"),
            BlobStorageError::Backend { message } => message.clone(),
        }
    }
}

/// Where a slice of a blob starts.
pub open spec fn slice_start(start: Option<i32>) -> int {
    match start {
        Some(s) => s as int,
        None => 0,
    }
}

/// Where a slice of a blob of `len` bytes ends.
pub open spec fn slice_end(end: Option<i32>, len: nat) -> int {
    match end {
        Some(e) => e as int,
        None => len as int,
    }
}

/// The slice lies inside the blob, and a missing end is the blob's length,
/// which then fits in an `i32`.
pub open spec fn slice_in_bounds(start: Option<i32>, end: Option<i32>, len: nat) -> bool {
    &&& end is None ==> len <= i32::MAX
    &&& 0 <= slice_start(start) <= slice_end(end, len) <= len
}

/// The bytes of a slice of a blob.
pub open spec fn blob_slice(data: Seq<u8>, start: Option<i32>, end: Option<i32>) -> Seq<u8> {
    data.subrange(slice_start(start), slice_end(end, data.len()))
}

/// A place where the bytes of blobs are kept.
pub trait CloudstateBlobStorageEngine: Sized {
    /// The blobs that the engine holds, by id.
    spec fn blobs(&self) -> Map<Seq<char>, Seq<u8>>;

    /// The engine fails only where a blob is missing: every write succeeds, a
    /// read of a stored blob succeeds, and a read of a missing blob says that
    /// it was not found. An engine whose storage can fail of itself does not
    /// promise this.
    spec fn infallible(&self) -> bool;

    fn get_blob_data(&self, blob_id: &str) -> (r: Result<CloudstateBlobValue, BlobStorageError>)
        ensures
            r matches Ok(v) ==> self.blobs().contains_key(blob_id@) && v@ == self.blobs()[blob_id@],
            self.infallible() ==> (r is Ok <==> self.blobs().contains_key(blob_id@)),
            self.infallible() && r is Err ==> (r matches Err(BlobStorageError::NotFound { blob_id: id })
                && id@ == blob_id@),
    ;

    fn get_blob_size(&self, blob_id: &str) -> (r: Result<usize, BlobStorageError>)
        ensures
            r matches Ok(n) ==> self.blobs().contains_key(blob_id@) && n == self.blobs()[blob_id@].len(),
            self.infallible() ==> (r is Ok <==> self.blobs().contains_key(blob_id@)),
            self.infallible() && r is Err ==> (r matches Err(BlobStorageError::NotFound { blob_id: id })
                && id@ == blob_id@),
    {
        match self.get_blob_data(blob_id) {
            Ok(v) => Ok(v.data.len()),
            Err(e) => Err(e),
        }
    }

    fn put_blob(&mut self, blob_id: &str, blob_data: CloudstateBlobValue) -> (r: Result<
        (),
        BlobStorageError,
    >)
        ensures
            r is Ok ==> final(self).blobs() == old(self).blobs().insert(blob_id@, blob_data@),
            old(self).infallible() ==> r is Ok,
            final(self).infallible() == old(self).infallible(),
    ;

    fn delete_blob(&mut self, blob_id: &str) -> (r: Result<(), BlobStorageError>)
        ensures
            r is Ok ==> final(self).blobs() == old(self).blobs().remove(blob_id@),
            old(self).infallible() ==> r is Ok,
            final(self).infallible() == old(self).infallible(),
    ;

    fn has_blob(&self, blob_id: &str) -> (r: Result<bool, BlobStorageError>)
        ensures
            r matches Ok(b) ==> b == self.blobs().contains_key(blob_id@),
            self.infallible() ==> r is Ok,
    ;

    fn get_blob_slice(&self, blob_id: &str, start: Option<i32>, end: Option<i32>) -> (r: Result<
        Vec<u8>,
        BlobStorageError,
    >)
        requires
            self.blobs().contains_key(blob_id@) ==> slice_in_bounds(
                start,
                end,
                self.blobs()[blob_id@].len(),
            ),
        ensures
            r matches Ok(v) ==> self.blobs().contains_key(blob_id@) && v@ == blob_slice(
                self.blobs()[blob_id@],
                start,
                end,
            ),
            self.infallible() ==> (r is Ok <==> self.blobs().contains_key(blob_id@)),
            self.infallible() && r is Err ==> (r matches Err(BlobStorageError::NotFound { blob_id: id })
                && id@ == blob_id@),
    ;
}

/// Blobs kept in memory. An id occurs at most once.
pub struct InMemoryBlobStore {
    blobs: Vec<(String, CloudstateBlobValue)>,
}

impl InMemoryBlobStore {
    #[verifier::type_invariant]
    spec fn ids_unique(&self) -> bool {
        keys_unique(entries_view(self.blobs@))
    }

    /// The blobs, by id.
    pub closed spec fn contents(&self) -> Map<Seq<char>, Seq<u8>> {
        table_map(entries_view(self.blobs@))
    }

    /// An empty store.
    pub fn new() -> (r: Self)
        ensures
            r.contents() == Map::<Seq<char>, Seq<u8>>::empty(),
    {
        let r = InMemoryBlobStore { blobs: Vec::new() };
        assert(entries_view(r.blobs@) =~= Seq::<(Seq<char>, Seq<u8>)>::empty());
        r
    }

    fn find(&self, blob_id: &str) -> (r: Option<usize>)
        ensures
            match r {
                Some(i) => i < self.blobs@.len() && entries_view(self.blobs@)[i as int].0 == blob_id@
                    && self.contents().contains_key(blob_id@) && self.contents()[blob_id@]
                    == entries_view(self.blobs@)[i as int].1,
                None => !self.contents().contains_key(blob_id@),
            },
    {
        proof {
            use_type_invariant(self);
        }
        let ghost ev = entries_view(self.blobs@);
        let id = blob_id.to_owned();
        let mut i: usize = 0;
        while i < self.blobs.len()
            invariant
                i <= self.blobs@.len(),
                ev == entries_view(self.blobs@),
                ev.len() == self.blobs@.len(),
                id@ == blob_id@,
                keys_unique(ev),
                forall|k: int| 0 <= k < i ==> ev[k].0 != blob_id@,
            decreases self.blobs.len() - i,
        {
            assert(ev[i as int] == (self.blobs@[i as int].0@, self.blobs@[i as int].1@));
            if self.blobs[i].0 == id {
                proof {
                    crate::table::lemma_table_map_index(ev, i as int);
                }
                return Some(i);
            }
            i += 1;
        }
        proof {
            crate::table::lemma_table_map_dom(ev, blob_id@);
        }
        None
    }
}

impl Default for InMemoryBlobStore {
    fn default() -> (r: Self)
        ensures
            r.contents() == Map::<Seq<char>, Seq<u8>>::empty(),
    {
        Self::new()
    }
}

impl CloudstateBlobStorageEngine for InMemoryBlobStore {
    open spec fn blobs(&self) -> Map<Seq<char>, Seq<u8>> {
        self.contents()
    }

    /// Memory does not fail: only a missing blob makes a read fail.
    open spec fn infallible(&self) -> bool {
        true
    }

    fn get_blob_data(&self, blob_id: &str) -> (r: Result<CloudstateBlobValue, BlobStorageError>)
        ensures
            r is Ok <==> self.blobs().contains_key(blob_id@),
            r matches Err(e) ==> e matches BlobStorageError::NotFound { blob_id: id } && id@
                == blob_id@,
    {
        match self.find(blob_id) {
            Some(i) => Ok(self.blobs[i].1.clone()),
            None => Err(BlobStorageError::NotFound { blob_id: blob_id.to_owned() }),
        }
    }

    fn get_blob_size(&self, blob_id: &str) -> (r: Result<usize, BlobStorageError>)
        ensures
            r is Ok <==> self.blobs().contains_key(blob_id@),
            r matches Err(e) ==> e matches BlobStorageError::NotFound { blob_id: id } && id@
                == blob_id@,
    {
        match self.find(blob_id) {
            Some(i) => Ok(self.blobs[i].1.data.len()),
            None => Err(BlobStorageError::NotFound { blob_id: blob_id.to_owned() }),
        }
    }

    fn put_blob(&mut self, blob_id: &str, blob_data: CloudstateBlobValue) -> (r: Result<
        (),
        BlobStorageError,
    >)
        ensures
            r is Ok,
    {
        proof {
            use_type_invariant(&*self);
        }
        let ghost ev = entries_view(self.blobs@);
        match self.find(blob_id) {
            Some(i) => {
                proof {
                    crate::table::lemma_table_map_update(ev, i as int, blob_data@);
                }
                let id = blob_id.to_owned();
                let ghost entry = (id, blob_data);
                let mut blobs: Vec<(String, CloudstateBlobValue)> = Vec::new();
                std::mem::swap(&mut blobs, &mut self.blobs);
                blobs.set(i, (id, blob_data));
                assert(entries_view(blobs@) =~= ev.update(i as int, (ev[i as int].0, entry.1@)));
                self.blobs = blobs;
            },
            None => {
                proof {
                    assert forall|k: int| 0 <= k < ev.len() implies ev[k].0 != blob_id@ by {
                        crate::table::lemma_table_map_index(ev, k);
                    }
                    crate::table::lemma_table_map_push(ev, blob_id@, blob_data@);
                }
                let id = blob_id.to_owned();
                let ghost entry = (id, blob_data);
                let mut blobs: Vec<(String, CloudstateBlobValue)> = Vec::new();
                std::mem::swap(&mut blobs, &mut self.blobs);
                blobs.push((id, blob_data));
                assert(entries_view(blobs@) =~= ev.push((blob_id@, entry.1@)));
                self.blobs = blobs;
            },
        }
        Ok(())
    }

    fn delete_blob(&mut self, blob_id: &str) -> (r: Result<(), BlobStorageError>)
        ensures
            r is Ok,
    {
        proof {
            use_type_invariant(&*self);
        }
        let ghost ev = entries_view(self.blobs@);
        match self.find(blob_id) {
            Some(i) => {
                proof {
                    lemma_table_map_remove(ev, i as int);
                }
                let mut blobs: Vec<(String, CloudstateBlobValue)> = Vec::new();
                std::mem::swap(&mut blobs, &mut self.blobs);
                blobs.remove(i);
                assert(entries_view(blobs@) =~= ev.remove(i as int));
                self.blobs = blobs;
            },
            None => {
                assert(self.contents().remove(blob_id@) =~= self.contents());
            },
        }
        Ok(())
    }

    fn has_blob(&self, blob_id: &str) -> (r: Result<bool, BlobStorageError>)
        ensures
            r is Ok,
    {
        Ok(self.find(blob_id).is_some())
    }

    fn get_blob_slice(&self, blob_id: &str, start: Option<i32>, end: Option<i32>) -> (r: Result<
        Vec<u8>,
        BlobStorageError,
    >)
        ensures
            r is Ok <==> self.blobs().contains_key(blob_id@),
            r matches Err(e) ==> e matches BlobStorageError::NotFound { blob_id: id } && id@
                == blob_id@,
    {
        match self.find(blob_id) {
            Some(i) => {
                let data = &self.blobs[i].1.data;
                let from: i32 = match start {
                    Some(s) => s,
                    None => 0,
                };
                let to: i32 = match end {
                    Some(e) => e,
                    None => data.len() as i32,
                };
                Ok(copy_bytes(data, from as usize, to as usize))
            },
            None => Err(BlobStorageError::NotFound { blob_id: blob_id.to_owned() }),
        }
    }
}

/// Removing an entry removes its key from the map, and the keys stay unique.
proof fn lemma_table_map_remove<K, V>(s: Seq<(K, V)>, i: int)
    requires
        keys_unique(s),
        0 <= i < s.len(),
    ensures
        keys_unique(s.remove(i)),
        table_map(s.remove(i)) == table_map(s).remove(s[i].0),
    decreases s.len(),
{
    let r = s.remove(i);
    assert(keys_unique(r)) by {
        assert forall|a: int, b: int| 0 <= a < b < r.len() implies r[a].0 != r[b].0 by {
            let a2 = if a < i { a } else { a + 1 };
            let b2 = if b < i { b } else { b + 1 };
            assert(r[a] == s[a2]);
            assert(r[b] == s[b2]);
        }
    }
    if i == s.len() - 1 {
        assert(r =~= s.drop_last());
        crate::table::lemma_table_map_dom(s.drop_last(), s[i].0);
        assert(table_map(r) =~= table_map(s).remove(s[i].0)) by {
            if table_map(s.drop_last()).dom().contains(s[i].0) {
                let j = choose|j: int| 0 <= j < s.drop_last().len() && s.drop_last()[j].0 == s[i].0;
                assert(s[j].0 == s[i].0);
            }
        }
    } else {
        assert(r.drop_last() =~= s.drop_last().remove(i));
        assert(r.last() == s.last());
        assert(keys_unique(s.drop_last()));
        lemma_table_map_remove(s.drop_last(), i);
        assert(s.last().0 != s[i].0);
        assert(table_map(r) =~= table_map(s).remove(s[i].0));
    }
}

/// Files of a directory as blob storage: the blob `id` is the file `id` under
/// the root directory.
pub struct FsBlobStore {
    root: String,
}

impl FsBlobStore {
    pub fn new(root: String) -> (r: Self)
        ensures
            r.root_view() == root@,
    {
        FsBlobStore { root }
    }

    /// The directory that holds the blobs.
    pub fn root(&self) -> (r: &String)
        ensures
            r@ == self.root_view(),
    {
        &self.root
    }

    pub closed spec fn root_view(&self) -> Seq<char> {
        self.root@
    }
}

/// How looking up the metadata of a blob's file ended.
pub enum FileLookup {
    Found,
    NotFound,
    Failed { message: String },
}

/// Whether a blob file exists: a file that is found exists, one that is not
/// found does not, and any other failure is an error.
pub fn fs_has_blob(lookup: FileLookup) -> (r: Result<bool, BlobStorageError>)
    ensures
        match lookup {
            FileLookup::Found => r == Ok::<bool, BlobStorageError>(true),
            FileLookup::NotFound => r == Ok::<bool, BlobStorageError>(false),
            FileLookup::Failed { message } => r matches Err(BlobStorageError::Backend { message: m })
                && m@ == message@,
        },
{
    match lookup {
        FileLookup::Found => Ok(true),
        FileLookup::NotFound => Ok(false),
        FileLookup::Failed { message } => Err(BlobStorageError::Backend { message }),
    }
}

/// Blob storage as the runtime uses it: the engine that keeps the bytes.
pub struct CloudstateBlobStorage<E: CloudstateBlobStorageEngine> {
    inner_storage: E,
}

impl<E: CloudstateBlobStorageEngine> CloudstateBlobStorage<E> {
    /// The blobs that the engine holds.
    pub closed spec fn blobs(&self) -> Map<Seq<char>, Seq<u8>> {
        self.inner_storage.blobs()
    }

    /// The engine fails only where a blob is missing.
    pub closed spec fn infallible(&self) -> bool {
        self.inner_storage.infallible()
    }

    pub fn new(inner_storage: E) -> (r: Self)
        ensures
            r.blobs() == inner_storage.blobs(),
            r.infallible() == inner_storage.infallible(),
    {
        CloudstateBlobStorage { inner_storage }
    }

    pub fn get_blob_data(&self, blob_id: &str) -> (r: Result<CloudstateBlobValue, BlobStorageError>)
        ensures
            r matches Ok(v) ==> self.blobs().contains_key(blob_id@) && v@ == self.blobs()[blob_id@],
            self.infallible() ==> (r is Ok <==> self.blobs().contains_key(blob_id@)),
            self.infallible() && r is Err ==> (r matches Err(BlobStorageError::NotFound { blob_id: id })
                && id@ == blob_id@),
    {
        self.inner_storage.get_blob_data(blob_id)
    }

    pub fn get_blob_size(&self, blob_id: &str) -> (r: Result<usize, BlobStorageError>)
        ensures
            r matches Ok(n) ==> self.blobs().contains_key(blob_id@) && n == self.blobs()[blob_id@].len(),
            self.infallible() ==> (r is Ok <==> self.blobs().contains_key(blob_id@)),
            self.infallible() && r is Err ==> (r matches Err(BlobStorageError::NotFound { blob_id: id })
                && id@ == blob_id@),
    {
        self.inner_storage.get_blob_size(blob_id)
    }

    /// Stores a blob: the edit that records its metadata in the blobs table,
    /// and how storing its bytes went.
    pub fn put_blob(
        &mut self,
        blob_id: &str,
        blob_data: CloudstateBlobValue,
        blob_metadata: CloudstateBlobMetadata,
    ) -> (r: (TableEdit<CloudstateBlobKey, CloudstateBlobMetadata>, Result<(), BlobStorageError>))
        ensures
            r.0@ == TableEdit::<Seq<char>, Seq<char>>::Insert(blob_id@, blob_metadata@),
            r.1 is Ok ==> final(self).blobs() == old(self).blobs().insert(blob_id@, blob_data@),
            old(self).infallible() ==> r.1 is Ok,
            final(self).infallible() == old(self).infallible(),
    {
        let edit = TableEdit::Insert(CloudstateBlobKey { id: blob_id.to_owned() }, blob_metadata);
        let stored = self.inner_storage.put_blob(blob_id, blob_data);
        (edit, stored)
    }

    /// Deletes a blob: the edit that removes its metadata from the blobs
    /// table, and how deleting its bytes went.
    pub fn delete_blob(&mut self, blob_id: &str) -> (r: (
        TableEdit<CloudstateBlobKey, CloudstateBlobMetadata>,
        Result<(), BlobStorageError>,
    ))
        ensures
            r.0@ == TableEdit::<Seq<char>, Seq<char>>::Remove(blob_id@),
            r.1 is Ok ==> final(self).blobs() == old(self).blobs().remove(blob_id@),
            old(self).infallible() ==> r.1 is Ok,
            final(self).infallible() == old(self).infallible(),
    {
        let edit = TableEdit::Remove(CloudstateBlobKey { id: blob_id.to_owned() });
        let deleted = self.inner_storage.delete_blob(blob_id);
        (edit, deleted)
    }

    pub fn has_blob(&self, blob_id: &str) -> (r: Result<bool, BlobStorageError>)
        ensures
            r matches Ok(b) ==> b == self.blobs().contains_key(blob_id@),
            self.infallible() ==> r is Ok,
    {
        self.inner_storage.has_blob(blob_id)
    }

    /// The metadata that the blobs table holds for a blob, or why there is
    /// none.
    pub fn get_blob_metadata(&self, blob_id: &str, stored: Option<CloudstateBlobMetadata>) -> (r: Result<
        CloudstateBlobMetadata,
        BlobStorageError,
    >)
        ensures
            match stored {
                Some(m) => r matches Ok(x) && x@ == m@,
                None => r matches Err(BlobStorageError::MetadataNotFound),
            },
    {
        match stored {
            Some(m) => Ok(m),
            None => Err(BlobStorageError::MetadataNotFound),
        }
    }

    pub fn get_blob_slice(&self, blob_id: &str, start: Option<i32>, end: Option<i32>) -> (r: Result<
        Vec<u8>,
        BlobStorageError,
    >)
        requires
            self.blobs().contains_key(blob_id@) ==> slice_in_bounds(
                start,
                end,
                self.blobs()[blob_id@].len(),
            ),
        ensures
            r matches Ok(v) ==> self.blobs().contains_key(blob_id@) && v@ == blob_slice(
                self.blobs()[blob_id@],
                start,
                end,
            ),
            self.infallible() ==> (r is Ok <==> self.blobs().contains_key(blob_id@)),
            self.infallible() && r is Err ==> (r matches Err(BlobStorageError::NotFound { blob_id: id })
                && id@ == blob_id@),
    {
        self.inner_storage.get_blob_slice(blob_id, start, end)
    }
}

impl Default for CloudstateBlobStorage<InMemoryBlobStore> {
    fn default() -> (r: Self)
        ensures
            r.blobs() == Map::<Seq<char>, Seq<u8>>::empty(),
            r.infallible(),
    {
        Self::new(InMemoryBlobStore::new())
    }
}

/// What an engine holds after a put, a read of the same id gives back, and
/// after a delete the id is gone; the other blobs stay as they were.
pub proof fn lemma_blob_read_after_write(
    blobs: Map<Seq<char>, Seq<u8>>,
    id: Seq<char>,
    data: Seq<u8>,
    other: Seq<char>,
)
    requires
        other != id,
    ensures
        blobs.insert(id, data).contains_key(id),
        blobs.insert(id, data)[id] == data,
        !blobs.remove(id).contains_key(id),
        blobs.insert(id, data).contains_key(other) == blobs.contains_key(other),
        blobs.remove(id).contains_key(other) == blobs.contains_key(other),
        blobs.contains_key(other) ==> blobs.insert(id, data)[other] == blobs[other]
            && blobs.remove(id)[other] == blobs[other],
{
}

/// A write to an engine: a put of bytes under an id, or a delete of an id.
pub enum BlobWrite {
    Put(Seq<char>, Seq<u8>),
    Delete(Seq<char>),
}

/// The blobs after the writes, first to last, as `put_blob` and `delete_blob`
/// make them when they succeed.
pub open spec fn apply_blob_writes(blobs: Map<Seq<char>, Seq<u8>>, writes: Seq<BlobWrite>) -> Map<
    Seq<char>,
    Seq<u8>,
>
    decreases writes.len(),
{
    if writes.len() == 0 {
        blobs
    } else {
        let before = apply_blob_writes(blobs, writes.drop_last());
        match writes.last() {
            BlobWrite::Put(id, data) => before.insert(id, data),
            BlobWrite::Delete(id) => before.remove(id),
        }
    }
}

/// Whether `id` is stored after the writes: the last write to it decides, a
/// put storing it and a delete taking it away; with no write to it, it is
/// stored as it was (`stored`).
pub open spec fn stored_after(stored: bool, writes: Seq<BlobWrite>, id: Seq<char>) -> bool
    decreases writes.len(),
{
    if writes.len() == 0 {
        stored
    } else {
        match writes.last() {
            BlobWrite::Put(k, _) => if k == id {
                true
            } else {
                stored_after(stored, writes.drop_last(), id)
            },
            BlobWrite::Delete(k) => if k == id {
                false
            } else {
                stored_after(stored, writes.drop_last(), id)
            },
        }
    }
}

/// What `has_blob` answers follows the history of puts and deletes: after any
/// writes, an id is held exactly when its last write was a put, or, with no
/// write to it, when it was held before.
pub proof fn lemma_has_blob_follows_history(
    blobs: Map<Seq<char>, Seq<u8>>,
    writes: Seq<BlobWrite>,
    id: Seq<char>,
)
    ensures
        apply_blob_writes(blobs, writes).contains_key(id) == stored_after(
            blobs.contains_key(id),
            writes,
            id,
        ),
    decreases writes.len(),
{
    if writes.len() > 0 {
        lemma_has_blob_follows_history(blobs, writes.drop_last(), id);
    }
}

} // verus!
