//! The local index: which objects are dirty, which byte ranges were written, which
//! objects lie in the cache directory, and the manifest last committed.
use vstd::prelude::*;
use vstd::string::StringExecFns;

use crate::backend::RemoteObjectRefView;
use crate::config::joined_path;
use crate::manifest::{Manifest, ManifestObjectView, ManifestView};
use crate::text::{
    append_fixed_hex, fixed_hex, lemma_fixed_hex_injective, lemma_fixed_hex_len,
    lemma_hex_capacity_of_u64,
};

verus! {

/// An object with local changes that are not committed yet.
#[derive(Debug, PartialEq, Eq)]
pub struct DirtyObject {
    pub object_id: u64,
    pub generation: u64,
    pub cache_path: String,
    pub sha256: String,
}

/// The value of a [`DirtyObject`].
#[verifier::ext_equal]
pub struct DirtyView {
    pub object_id: u64,
    pub generation: u64,
    pub cache_path: Seq<char>,
    pub sha256: Seq<char>,
}

impl View for DirtyObject {
    type V = DirtyView;

    open spec fn view(&self) -> DirtyView {
        DirtyView {
            object_id: self.object_id,
            generation: self.generation,
            cache_path: self.cache_path@,
            sha256: self.sha256@,
        }
    }
}

impl Clone for DirtyObject {
    fn clone(&self) -> (copy: Self)
        ensures
            copy == *self,
    {
        DirtyObject {
            object_id: self.object_id,
            generation: self.generation,
            cache_path: self.cache_path.clone(),
            sha256: self.sha256.clone(),
        }
    }
}

/// A byte range of an object that was written in a generation.
#[derive(Debug, PartialEq, Eq)]
pub struct WalEntry {
    pub object_id: u64,
    pub offset: u64,
    pub len: u64,
    pub generation: u64,
    pub sha256: String,
}

/// The value of a [`WalEntry`].
#[verifier::ext_equal]
pub struct WalView {
    pub object_id: u64,
    pub offset: u64,
    pub len: u64,
    pub generation: u64,
    pub sha256: Seq<char>,
}

impl View for WalEntry {
    type V = WalView;

    open spec fn view(&self) -> WalView {
        WalView {
            object_id: self.object_id,
            offset: self.offset,
            len: self.len,
            generation: self.generation,
            sha256: self.sha256@,
        }
    }
}

/// A file in the cache directory.
#[derive(Debug, PartialEq, Eq)]
pub struct CacheEntry {
    pub object_id: u64,
    pub generation: u64,
    pub cache_path: String,
    pub sha256: String,
    pub dirty: bool,
    pub last_access_at: String,
}

/// The value of a [`CacheEntry`].
#[verifier::ext_equal]
pub struct CacheView {
    pub object_id: u64,
    pub generation: u64,
    pub cache_path: Seq<char>,
    pub sha256: Seq<char>,
    pub dirty: bool,
    pub last_access_at: Seq<char>,
}

impl View for CacheEntry {
    type V = CacheView;

    open spec fn view(&self) -> CacheView {
        CacheView {
            object_id: self.object_id,
            generation: self.generation,
            cache_path: self.cache_path@,
            sha256: self.sha256@,
            dirty: self.dirty,
            last_access_at: self.last_access_at@,
        }
    }
}

impl Clone for CacheEntry {
    fn clone(&self) -> (copy: Self)
        ensures
            copy == *self,
    {
        CacheEntry {
            object_id: self.object_id,
            generation: self.generation,
            cache_path: self.cache_path.clone(),
            sha256: self.sha256.clone(),
            dirty: self.dirty,
            last_access_at: self.last_access_at.clone(),
        }
    }
}

/// How many rows the index holds.
#[derive(Debug, Clone, Copy, PartialEq, Eq, Structural)]
pub struct LocalStats {
    pub dirty_objects: usize,
    pub cache_entries: usize,
    pub wal_entries: usize,
}

/// Why the index refuses a request.
#[derive(Debug, Clone, Copy, PartialEq, Eq, Structural)]
pub enum StoreError {
    CacheChecksum { object_id: u64 },
    DuplicateObject { object_id: u64 },
    CorruptTables,
}

/// The values of a run of dirty objects.
pub open spec fn dirty_views(rows: Seq<DirtyObject>) -> Seq<DirtyView> {
    Seq::new(rows.len(), |i: int| rows[i]@)
}

/// The values of a run of written ranges.
pub open spec fn wal_views(rows: Seq<WalEntry>) -> Seq<WalView> {
    Seq::new(rows.len(), |i: int| rows[i]@)
}

/// The values of a run of cache entries.
pub open spec fn cache_views(rows: Seq<CacheEntry>) -> Seq<CacheView> {
    Seq::new(rows.len(), |i: int| rows[i]@)
}

/// The key by which dirty objects are ordered: the object number, read as a signed
/// integer of the same width, as the database column holds it.
pub open spec fn row_key(object_id: u64) -> int {
    if object_id < 0x8000_0000_0000_0000 {
        object_id as int
    } else {
        object_id - 0x1_0000_0000_0000_0000
    }
}

/// Tells whether a dirty object comes before another one.
pub fn key_less(left: u64, right: u64) -> (less: bool)
    ensures
        less == (row_key(left) < row_key(right)),
{
    let left_negative = left >= 0x8000_0000_0000_0000;
    let right_negative = right >= 0x8000_0000_0000_0000;
    if left_negative == right_negative {
        left < right
    } else {
        left_negative
    }
}

/// Dirty objects come in the order of their keys, each once.
pub open spec fn dirty_in_order(rows: Seq<DirtyView>) -> bool {
    forall|i: int, j: int|
        0 <= i < j < rows.len() ==> row_key(#[trigger] rows[i].object_id) < row_key(
            #[trigger] rows[j].object_id,
        )
}

/// The dirty object with the given number.
pub open spec fn dirty_at(rows: Seq<DirtyView>, object_id: u64) -> Option<DirtyView>
    decreases rows.len(),
{
    if rows.len() == 0 {
        None
    } else if rows.last().object_id == object_id {
        Some(rows.last())
    } else {
        dirty_at(rows.drop_last(), object_id)
    }
}

/// The dirty objects with `row` in its place; it replaces an earlier row of the same
/// object.
pub open spec fn put_dirty(rows: Seq<DirtyView>, row: DirtyView) -> Seq<DirtyView>
    decreases rows.len(),
{
    if rows.len() == 0 {
        seq![row]
    } else if rows.last().object_id == row.object_id {
        rows.drop_last().push(row)
    } else if row_key(rows.last().object_id) < row_key(row.object_id) {
        rows.push(row)
    } else {
        put_dirty(rows.drop_last(), row).push(rows.last())
    }
}

/// `row` is the file of the given generation of the given object.
pub open spec fn is_file_of(row: CacheView, object_id: u64, generation: u64) -> bool {
    row.object_id == object_id && row.generation == generation
}

/// No two cache entries are for the same generation of the same object.
pub open spec fn cache_keys_distinct(rows: Seq<CacheView>) -> bool {
    forall|i: int, j: int|
        0 <= i < j < rows.len() ==> !is_file_of(
            #[trigger] rows[i],
            (#[trigger] rows[j]).object_id,
            rows[j].generation,
        )
}

/// The cache entry for a generation of an object.
pub open spec fn cache_at(rows: Seq<CacheView>, object_id: u64, generation: u64) -> Option<
    CacheView,
>
    decreases rows.len(),
{
    if rows.len() == 0 {
        None
    } else if is_file_of(rows.last(), object_id, generation) {
        Some(rows.last())
    } else {
        cache_at(rows.drop_last(), object_id, generation)
    }
}

/// The cache entries other than the one for a generation of an object.
pub open spec fn cache_without(rows: Seq<CacheView>, object_id: u64, generation: u64) -> Seq<
    CacheView,
> {
    rows.filter(|row: CacheView| !is_file_of(row, object_id, generation))
}

/// The cache entries with `row` as the newest; it replaces an earlier entry for the
/// same file.
pub open spec fn put_cache(rows: Seq<CacheView>, row: CacheView) -> Seq<CacheView> {
    cache_without(rows, row.object_id, row.generation).push(row)
}

/// The row is a range of the given generation of the given object that overlaps or
/// borders on `start` to `end`.
pub open spec fn touches(row: WalView, object_id: u64, generation: u64, start: int, end: int) -> bool {
    &&& row.object_id == object_id
    &&& row.generation == generation
    &&& row.offset <= end
    &&& row.offset + row.len >= start
}

/// The range `start` to `end`, widened to all ranges that it touches.
pub open spec fn widened(
    rows: Seq<WalView>,
    object_id: u64,
    generation: u64,
    start: int,
    end: int,
) -> (int, int)
    decreases rows.len(),
{
    if rows.len() == 0 {
        (start, end)
    } else {
        let (low, high) = widened(rows.drop_last(), object_id, generation, start, end);
        let row = rows.last();
        if touches(row, object_id, generation, start, end) {
            (
                if row.offset < low {
                    row.offset as int
                } else {
                    low
                },
                if row.offset + row.len > high {
                    row.offset + row.len
                } else {
                    high
                },
            )
        } else {
            (low, high)
        }
    }
}

/// The ranges that do not touch `start` to `end`.
pub open spec fn wal_apart(
    rows: Seq<WalView>,
    object_id: u64,
    generation: u64,
    start: int,
    end: int,
) -> Seq<WalView> {
    rows.filter(|row: WalView| !touches(row, object_id, generation, start, end))
}

/// The ranges after those that touch `start` to `end` were replaced by it.
pub open spec fn wal_merged(
    rows: Seq<WalView>,
    object_id: u64,
    generation: u64,
    start: int,
    end: int,
    sha256: Seq<char>,
) -> Seq<WalView> {
    wal_apart(rows, object_id, generation, start, end).push(
        WalView {
            object_id,
            offset: start as u64,
            len: (end - start) as u64,
            generation,
            sha256,
        },
    )
}

/// Every range ends where a signed 64-bit database column can say so.
pub open spec fn wal_fits(rows: Seq<WalView>) -> bool {
    forall|i: int|
        0 <= i < rows.len() ==> (#[trigger] rows[i]).offset + rows[i].len <= i64::MAX
}

/// The remote references of the objects that have one, under the objects' own numbers.
pub open spec fn stored_refs(objects: Seq<ManifestObjectView>) -> Seq<RemoteObjectRefView>
    decreases objects.len(),
{
    if objects.len() == 0 {
        Seq::empty()
    } else {
        let refs = stored_refs(objects.drop_last());
        match objects.last().remote {
            Some(remote) => refs.push(
                RemoteObjectRefView { object_id: objects.last().object_id, ..remote },
            ),
            None => refs,
        }
    }
}

/// The remote reference stored under an object's number.
pub open spec fn ref_at(refs: Seq<RemoteObjectRefView>, object_id: u64) -> Option<
    RemoteObjectRefView,
>
    decreases refs.len(),
{
    if refs.len() == 0 {
        None
    } else if refs.last().object_id == object_id {
        Some(refs.last())
    } else {
        ref_at(refs.drop_last(), object_id)
    }
}

/// The value of a [`LocalStore`].
#[verifier::ext_equal]
pub struct StoreView {
    pub cache_dir: Seq<char>,
    pub dirty: Seq<DirtyView>,
    pub wal: Seq<WalView>,
    pub cache: Seq<CacheView>,
    pub refs: Seq<RemoteObjectRefView>,
    pub manifest: Option<Seq<u8>>,
}

/// The file name of a generation of an object.
pub open spec fn object_file_name(object_id: u64, generation: u64) -> Seq<char> {
    fixed_hex(object_id as nat, 16) + "-"@ + fixed_hex(generation as nat, 16) + ".bin"@
}

/// The file that holds a generation of an object.
pub open spec fn object_path(cache_dir: Seq<char>, object_id: u64, generation: u64) -> Seq<char> {
    joined_path(joined_path(cache_dir, "objects"@), object_file_name(object_id, generation))
}

/// The file name of a generation of an object.
pub fn file_name(object_id: u64, generation: u64) -> (name: String)
    ensures
        name@ == object_file_name(object_id, generation),
{
    let mut name = String::new();
    append_fixed_hex(&mut name, object_id, 16);
    name.append("-");
    append_fixed_hex(&mut name, generation, 16);
    name.append(".bin");
    assert(name@ =~= object_file_name(object_id, generation));
    name
}

/// Different generations and different objects have different files.
pub proof fn law_object_paths_are_distinct(
    cache_dir: Seq<char>,
    object_id: u64,
    generation: u64,
    other_id: u64,
    other_generation: u64,
)
    requires
        object_path(cache_dir, object_id, generation) == object_path(
            cache_dir,
            other_id,
            other_generation,
        ),
    ensures
        object_id == other_id,
        generation == other_generation,
{
    let dir = joined_path(cache_dir, "objects"@);
    let a = object_file_name(object_id, generation);
    let b = object_file_name(other_id, other_generation);
    lemma_file_name_parts(object_id, generation);
    lemma_file_name_parts(other_id, other_generation);
    let path = object_path(cache_dir, object_id, generation);
    assert(a =~= path.skip(path.len() - a.len()));
    assert(b =~= path.skip(path.len() - b.len()));
    lemma_hex_capacity_of_u64();
    lemma_fixed_hex_injective(object_id as nat, other_id as nat, 16);
    lemma_fixed_hex_injective(generation as nat, other_generation as nat, 16);
}

proof fn lemma_file_name_parts(object_id: u64, generation: u64)
    ensures
        object_file_name(object_id, generation).len() == 33 + ".bin"@.len(),
        object_file_name(object_id, generation).take(16) == fixed_hex(object_id as nat, 16),
        object_file_name(object_id, generation).subrange(17, 33) == fixed_hex(
            generation as nat,
            16,
        ),
{
    let name = object_file_name(object_id, generation);
    lemma_fixed_hex_len(object_id as nat, 16);
    lemma_fixed_hex_len(generation as nat, 16);
    reveal_strlit("-");
    assert(name.take(16) =~= fixed_hex(object_id as nat, 16));
    assert(name.subrange(17, 33) =~= fixed_hex(generation as nat, 16));
}

/// A row operation on the tables that keep the index.
#[derive(Debug, PartialEq, Eq)]
pub enum StoreChange {
    /// Replaces the object and reference tables and the manifest.
    ReplaceManifest { manifest: Manifest, hash: String, encoded: Vec<u8>, updated_at: String },
    /// Inserts a dirty object, or replaces the one with its number.
    PutDirty { row: DirtyObject, updated_at: String },
    /// Replaces all ranges that touch `start` to `end` by that one range.
    MergeWal {
        object_id: u64,
        generation: u64,
        start: u64,
        end: u64,
        sha256: String,
        created_at: String,
    },
    /// Inserts a cache entry, or replaces the one for the same file.
    PutCache { entry: CacheEntry },
    /// Removes a cache entry and its file.
    RemoveCache { object_id: u64, generation: u64, cache_path: String },
    /// Removes all dirty objects and ranges, and marks every cache entry clean.
    ClearDirtyAndWal,
}

/// The value of a [`StoreChange`].
#[verifier::ext_equal]
pub enum ChangeView {
    ReplaceManifest {
        manifest: ManifestView,
        hash: Seq<char>,
        encoded: Seq<u8>,
        updated_at: Seq<char>,
    },
    PutDirty { row: DirtyView, updated_at: Seq<char> },
    MergeWal {
        object_id: u64,
        generation: u64,
        start: u64,
        end: u64,
        sha256: Seq<char>,
        created_at: Seq<char>,
    },
    PutCache { entry: CacheView },
    RemoveCache { object_id: u64, generation: u64, cache_path: Seq<char> },
    ClearDirtyAndWal,
}

impl View for StoreChange {
    type V = ChangeView;

    open spec fn view(&self) -> ChangeView {
        match self {
            StoreChange::ReplaceManifest { manifest, hash, encoded, updated_at } => {
                ChangeView::ReplaceManifest {
                    manifest: manifest@,
                    hash: hash@,
                    encoded: encoded@,
                    updated_at: updated_at@,
                }
            },
            StoreChange::PutDirty { row, updated_at } => ChangeView::PutDirty {
                row: row@,
                updated_at: updated_at@,
            },
            StoreChange::MergeWal { object_id, generation, start, end, sha256, created_at } => {
                ChangeView::MergeWal {
                    object_id: *object_id,
                    generation: *generation,
                    start: *start,
                    end: *end,
                    sha256: sha256@,
                    created_at: created_at@,
                }
            },
            StoreChange::PutCache { entry } => ChangeView::PutCache { entry: entry@ },
            StoreChange::RemoveCache { object_id, generation, cache_path } => {
                ChangeView::RemoveCache {
                    object_id: *object_id,
                    generation: *generation,
                    cache_path: cache_path@,
                }
            },
            StoreChange::ClearDirtyAndWal => ChangeView::ClearDirtyAndWal,
        }
    }
}

/// The values of a run of changes.
pub open spec fn change_views(changes: Seq<StoreChange>) -> Seq<ChangeView> {
    Seq::new(changes.len(), |i: int| changes[i]@)
}

/// A cache entry that is no longer dirty.
pub open spec fn cleaned(row: CacheView) -> CacheView {
    CacheView { dirty: false, ..row }
}

/// The index after one row operation.
pub open spec fn changed(store: StoreView, change: ChangeView) -> StoreView {
    match change {
        ChangeView::ReplaceManifest { manifest, encoded, .. } => StoreView {
            refs: stored_refs(manifest.objects),
            manifest: Some(encoded),
            ..store
        },
        ChangeView::PutDirty { row, .. } => StoreView {
            dirty: put_dirty(store.dirty, row),
            ..store
        },
        ChangeView::MergeWal { object_id, generation, start, end, sha256, .. } => StoreView {
            wal: wal_merged(store.wal, object_id, generation, start as int, end as int, sha256),
            ..store
        },
        ChangeView::PutCache { entry } => StoreView {
            cache: put_cache(store.cache, entry),
            ..store
        },
        ChangeView::RemoveCache { object_id, generation, .. } => StoreView {
            cache: cache_without(store.cache, object_id, generation),
            ..store
        },
        ChangeView::ClearDirtyAndWal => StoreView {
            dirty: Seq::empty(),
            wal: Seq::empty(),
            cache: Seq::new(store.cache.len(), |i: int| cleaned(store.cache[i])),
            ..store
        },
    }
}

/// The index after a run of row operations.
pub open spec fn changed_by(store: StoreView, changes: Seq<ChangeView>) -> StoreView
    decreases changes.len(),
{
    if changes.len() == 0 {
        store
    } else {
        changed(changed_by(store, changes.drop_last()), changes.last())
    }
}

} // verus!
