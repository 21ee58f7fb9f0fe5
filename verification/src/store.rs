//! The local index in memory, and the row operations that keep its tables in step.
use std::collections::HashSet;
use vstd::prelude::*;

use crate::backend::{clone_bytes, ref_views, RemoteObjectRef};
use crate::cache::{
    cache_at, cache_keys_distinct, cache_views, cache_without, changed, cleaned, dirty_at,
    dirty_in_order, dirty_views, file_name, is_file_of, key_less, object_path, put_cache, put_dirty,
    ref_at, row_key, stored_refs, touches, wal_fits, wal_merged, wal_views, widened, CacheEntry,
    CacheView, ChangeView, DirtyObject, DirtyView, LocalStats, StoreChange, StoreError, StoreView,
    WalEntry, WalView,
};
use crate::config::join_path;
use crate::manifest::Manifest;

verus! {

broadcast use vstd::std_specs::hash::group_hash_axioms;

/// The rows of the tables that keep an index.
#[derive(Debug, PartialEq, Eq)]
pub struct StoreTables {
    pub dirty: Vec<DirtyObject>,
    pub wal: Vec<WalEntry>,
    pub cache: Vec<CacheEntry>,
    pub refs: Vec<RemoteObjectRef>,
    pub manifest: Option<Vec<u8>>,
}

/// The value of bytes that may be absent.
pub open spec fn opt_bytes_view(bytes: Option<Vec<u8>>) -> Option<Seq<u8>> {
    match bytes {
        Some(b) => Some(b@),
        None => None,
    }
}

impl StoreTables {
    /// Tables without rows.
    pub fn empty() -> (tables: Self)
        ensures
            tables.dirty@.len() == 0,
            tables.wal@.len() == 0,
            tables.cache@.len() == 0,
            tables.refs@.len() == 0,
            tables.manifest is None,
    {
        StoreTables {
            dirty: Vec::new(),
            wal: Vec::new(),
            cache: Vec::new(),
            refs: Vec::new(),
            manifest: None,
        }
    }

    /// The index that these tables keep.
    pub open spec fn index(&self, cache_dir: Seq<char>) -> StoreView {
        StoreView {
            cache_dir,
            dirty: dirty_views(self.dirty@),
            wal: wal_views(self.wal@),
            cache: cache_views(self.cache@),
            refs: ref_views(self.refs@),
            manifest: opt_bytes_view(self.manifest),
        }
    }
}

/// Rows as every index holds them: dirty objects in order, one cache entry for each
/// file, ranges that end within the column type.
pub open spec fn well_formed(store: StoreView) -> bool {
    &&& dirty_in_order(store.dirty)
    &&& cache_keys_distinct(store.cache)
    &&& wal_fits(store.wal)
}

/// The local index.
#[derive(Debug)]
pub struct LocalStore {
    cache_dir: String,
    dirty: Vec<DirtyObject>,
    wal: Vec<WalEntry>,
    cache: Vec<CacheEntry>,
    refs: Vec<RemoteObjectRef>,
    manifest: Option<Vec<u8>>,
}

impl View for LocalStore {
    type V = StoreView;

    closed spec fn view(&self) -> StoreView {
        StoreView {
            cache_dir: self.cache_dir@,
            dirty: dirty_views(self.dirty@),
            wal: wal_views(self.wal@),
            cache: cache_views(self.cache@),
            refs: ref_views(self.refs@),
            manifest: opt_bytes_view(self.manifest),
        }
    }
}

/// Object number and generation in one integer.
spec fn file_key(object_id: u64, generation: u64) -> u128 {
    (object_id * 0x1_0000_0000_0000_0000 + generation) as u128
}

fn keys_distinct(rows: &Vec<CacheEntry>) -> (distinct: bool)
    ensures
        distinct == cache_keys_distinct(cache_views(rows@)),
{
    let ghost views = cache_views(rows@);
    let mut seen: HashSet<u128> = HashSet::new();
    let mut i: usize = 0;
    while i < rows.len()
        invariant
            i <= rows@.len(),
            views == cache_views(rows@),
            forall|key: u128|
                #[trigger] seen@.contains(key) <==> exists|k: int|
                    0 <= k < i && file_key(
                        (#[trigger] views[k]).object_id,
                        views[k].generation,
                    ) == key,
            forall|a: int, b: int|
                0 <= a < b < i ==> !is_file_of(
                    #[trigger] views[a],
                    (#[trigger] views[b]).object_id,
                    views[b].generation,
                ),
        decreases rows@.len() - i,
    {
        let key: u128 = (rows[i].object_id as u128) * 0x1_0000_0000_0000_0000 + (
        rows[i].generation as u128);
        let ghost before = seen@;
        assert(key == file_key(views[i as int].object_id, views[i as int].generation));
        let new = seen.insert(key);
        if !new {
            assert(before.contains(key));
            let ghost k = choose|k: int|
                0 <= k < i && file_key((#[trigger] views[k]).object_id, views[k].generation) == key;
            assert(is_file_of(views[k], views[i as int].object_id, views[i as int].generation));
            return false;
        }
        assert forall|a: int| 0 <= a < i implies !is_file_of(
            #[trigger] views[a],
            views[i as int].object_id,
            views[i as int].generation,
        ) by {
            if is_file_of(views[a], views[i as int].object_id, views[i as int].generation) {
                assert(before.contains(key));
            }
        }
        assert forall|other: u128| #[trigger] seen@.contains(other) <==> exists|k: int|
            0 <= k < i + 1 && file_key((#[trigger] views[k]).object_id, views[k].generation)
                == other by {
            if seen@.contains(other) {
                if other == key {
                    assert(file_key(views[i as int].object_id, views[i as int].generation)
                        == other);
                } else {
                    assert(before.contains(other));
                }
            }
        }
        i += 1;
    }
    true
}

fn dirty_sorted(rows: &Vec<DirtyObject>) -> (sorted: bool)
    ensures
        sorted == dirty_in_order(dirty_views(rows@)),
{
    let ghost views = dirty_views(rows@);
    let mut i: usize = 1;
    while i < rows.len()
        invariant
            1 <= i,
            i <= rows@.len() || rows@.len() == 0,
            views == dirty_views(rows@),
            forall|a: int, b: int|
                0 <= a < b < i && b < rows@.len() ==> row_key(#[trigger] views[a].object_id)
                    < row_key(#[trigger] views[b].object_id),
        decreases rows@.len() - i,
    {
        if !key_less(rows[i - 1].object_id, rows[i].object_id) {
            assert(row_key(views[i - 1].object_id) >= row_key(views[i as int].object_id));
            return false;
        }
        assert forall|a: int| 0 <= a < i implies row_key(#[trigger] views[a].object_id) < row_key(
            views[i as int].object_id,
        ) by {
            if a < i - 1 {
                assert(row_key(views[a].object_id) < row_key(views[i - 1].object_id));
            }
        }
        i += 1;
    }
    true
}

fn ranges_fit(rows: &Vec<WalEntry>) -> (fit: bool)
    ensures
        fit == wal_fits(wal_views(rows@)),
{
    let mut i: usize = 0;
    while i < rows.len()
        invariant
            i <= rows@.len(),
            forall|k: int|
                0 <= k < i ==> (#[trigger] wal_views(rows@)[k]).offset + wal_views(rows@)[k].len
                    <= i64::MAX,
        decreases rows@.len() - i,
    {
        if rows[i].offset > i64::MAX as u64 || rows[i].len > i64::MAX as u64 - rows[i].offset {
            assert(wal_views(rows@)[i as int].offset + wal_views(rows@)[i as int].len > i64::MAX);
            return false;
        }
        i += 1;
    }
    true
}

impl LocalStore {
    /// The index kept by the given tables, for files in `cache_dir`.
    pub fn open(cache_dir: String, tables: StoreTables) -> (result: Result<Self, StoreError>)
        ensures
            match result {
                Ok(store) => well_formed(store@) && store@ == tables.index(cache_dir@),
                Err(error) => !well_formed(tables.index(cache_dir@)) && error
                    == StoreError::CorruptTables,
            },
    {
        if !dirty_sorted(&tables.dirty) || !keys_distinct(&tables.cache) || !ranges_fit(
            &tables.wal,
        ) {
            return Err(StoreError::CorruptTables);
        }
        Ok(
            LocalStore {
                cache_dir,
                dirty: tables.dirty,
                wal: tables.wal,
                cache: tables.cache,
                refs: tables.refs,
                manifest: tables.manifest,
            },
        )
    }

    /// The file that holds a generation of an object.
    pub fn cache_path(&self, object_id: u64, generation: u64) -> (path: String)
        ensures
            path@ == object_path(self@.cache_dir, object_id, generation),
    {
        let dir = join_path(self.cache_dir.as_str(), "objects");
        let name = file_name(object_id, generation);
        join_path(dir.as_str(), name.as_str())
    }

    /// The encoded form of the manifest last committed.
    pub fn load_manifest(&self) -> (encoded: Option<Vec<u8>>)
        ensures
            opt_bytes_view(encoded) == self@.manifest,
    {
        match &self.manifest {
            Some(bytes) => Some(clone_bytes(bytes)),
            None => None,
        }
    }

    /// How many rows the index holds.
    pub fn stats(&self) -> (stats: LocalStats)
        ensures
            stats.dirty_objects == self@.dirty.len(),
            stats.cache_entries == self@.cache.len(),
            stats.wal_entries == self@.wal.len(),
    {
        LocalStats {
            dirty_objects: self.dirty.len(),
            cache_entries: self.cache.len(),
            wal_entries: self.wal.len(),
        }
    }

    /// All dirty objects, in the order of their keys.
    pub fn dirty_objects(&self) -> (rows: Vec<DirtyObject>)
        ensures
            dirty_views(rows@) == self@.dirty,
    {
        let mut rows: Vec<DirtyObject> = Vec::new();
        let mut i: usize = 0;
        while i < self.dirty.len()
            invariant
                i <= self.dirty@.len(),
                dirty_views(rows@) == self@.dirty.take(i as int),
            decreases self.dirty@.len() - i,
        {
            let ghost before = rows@;
            rows.push(self.dirty[i].clone());
            assert(dirty_views(rows@) =~= dirty_views(before).push(self@.dirty[i as int]));
            assert(self@.dirty.take(i + 1) =~= self@.dirty.take(i as int).push(
                self@.dirty[i as int],
            ));
            i += 1;
        }
        assert(self@.dirty.take(i as int) =~= self@.dirty);
        rows
    }

    /// The dirty object with the given number.
    pub fn dirty_object(&self, object_id: u64) -> (row: Option<DirtyObject>)
        ensures
            match row {
                Some(r) => dirty_at(self@.dirty, object_id) == Some(r@),
                None => dirty_at(self@.dirty, object_id) is None,
            },
    {
        let mut i: usize = self.dirty.len();
        assert(self@.dirty.take(i as int) =~= self@.dirty);
        while i > 0
            invariant
                i <= self.dirty@.len(),
                dirty_at(self@.dirty.take(i as int), object_id) == dirty_at(self@.dirty, object_id),
            decreases i,
        {
            let ghost head = self@.dirty.take(i as int);
            assert(head.drop_last() =~= self@.dirty.take(i - 1));
            assert(head.last() == self.dirty@[i - 1]@);
            if self.dirty[i - 1].object_id == object_id {
                return Some(self.dirty[i - 1].clone());
            }
            i -= 1;
        }
        None
    }

    /// The remote reference stored under an object's number.
    pub fn remote_ref(&self, object_id: u64) -> (reference: Option<RemoteObjectRef>)
        ensures
            match reference {
                Some(r) => ref_at(self@.refs, object_id) == Some(r@),
                None => ref_at(self@.refs, object_id) is None,
            },
    {
        let mut i: usize = self.refs.len();
        assert(self@.refs.take(i as int) =~= self@.refs);
        while i > 0
            invariant
                i <= self.refs@.len(),
                ref_at(self@.refs.take(i as int), object_id) == ref_at(self@.refs, object_id),
            decreases i,
        {
            let ghost head = self@.refs.take(i as int);
            assert(head.drop_last() =~= self@.refs.take(i - 1));
            assert(head.last() == self.refs@[i - 1]@);
            if self.refs[i - 1].object_id == object_id {
                return Some(self.refs[i - 1].clone());
            }
            i -= 1;
        }
        None
    }

    /// The cache entry for a generation of an object.
    pub fn cache_entry(&self, object_id: u64, generation: u64) -> (entry: Option<CacheEntry>)
        ensures
            match entry {
                Some(e) => cache_at(self@.cache, object_id, generation) == Some(e@),
                None => cache_at(self@.cache, object_id, generation) is None,
            },
    {
        let mut i: usize = self.cache.len();
        assert(self@.cache.take(i as int) =~= self@.cache);
        while i > 0
            invariant
                i <= self.cache@.len(),
                cache_at(self@.cache.take(i as int), object_id, generation) == cache_at(
                    self@.cache,
                    object_id,
                    generation,
                ),
            decreases i,
        {
            let ghost head = self@.cache.take(i as int);
            assert(head.drop_last() =~= self@.cache.take(i - 1));
            assert(head.last() == self.cache@[i - 1]@);
            if self.cache[i - 1].object_id == object_id && self.cache[i - 1].generation
                == generation {
                return Some(self.cache[i - 1].clone());
            }
            i -= 1;
        }
        None
    }

    /// The cache entries that are not dirty, in the order of their rows.
    pub fn clean_entries(&self) -> (entries: Vec<CacheEntry>)
        ensures
            cache_views(entries@) == clean_rows(self@.cache),
    {
        let mut entries: Vec<CacheEntry> = Vec::new();
        let ghost rows = self@.cache;
        let mut i: usize = 0;
        proof {
            reveal(Seq::filter);
            assert(clean_rows(rows.take(0)) =~= cache_views(entries@));
        }
        while i < self.cache.len()
            invariant
                i <= self.cache@.len(),
                rows == self@.cache,
                cache_views(entries@) == clean_rows(rows.take(i as int)),
            decreases self.cache@.len() - i,
        {
            let ghost head = rows.take(i + 1);
            proof {
                reveal(Seq::filter);
                assert(head.drop_last() =~= rows.take(i as int));
                assert(head.last() == self.cache@[i as int]@);
            }
            if !self.cache[i].dirty {
                let ghost before = entries@;
                entries.push(self.cache[i].clone());
                assert(cache_views(entries@) =~= cache_views(before).push(self.cache@[i as int]@));
            }
            i += 1;
        }
        assert(rows.take(i as int) =~= rows);
        entries
    }

    /// The range `start` to `end`, widened to all written ranges that it touches.
    pub fn touching_range(&self, object_id: u64, generation: u64, start: u64, end: u64) -> (range: (
        u64,
        u64,
    ))
        requires
            wal_fits(self@.wal),
            start <= end <= i64::MAX,
        ensures
            (range.0 as int, range.1 as int) == widened(
                self@.wal,
                object_id,
                generation,
                start as int,
                end as int,
            ),
            range.0 <= start,
            end <= range.1 <= i64::MAX,
    {
        let ghost rows = self@.wal;
        let mut low: u64 = start;
        let mut high: u64 = end;
        let mut i: usize = 0;
        while i < self.wal.len()
            invariant
                i <= self.wal@.len(),
                rows == self@.wal,
                wal_fits(rows),
                (low as int, high as int) == widened(
                    rows.take(i as int),
                    object_id,
                    generation,
                    start as int,
                    end as int,
                ),
                low <= start,
                end <= high <= i64::MAX,
            decreases self.wal@.len() - i,
        {
            let ghost head = rows.take(i + 1);
            proof {
                assert(head.drop_last() =~= rows.take(i as int));
                assert(head.last() == self.wal@[i as int]@);
                assert(rows[i as int] == self.wal@[i as int]@);
            }
            let row = &self.wal[i];
            let row_end: u64 = row.offset + row.len;
            if row.object_id == object_id && row.generation == generation && row.offset <= end
                && row_end >= start {
                if row.offset < low {
                    low = row.offset;
                }
                if row_end > high {
                    high = row_end;
                }
            }
            i += 1;
        }
        assert(rows.take(i as int) =~= rows);
        (low, high)
    }

    /// The written ranges, as offset and length, in the order of their offsets; ranges
    /// with the same offset come in the order of their rows.
    pub fn wal_ranges(&self) -> (ranges: Vec<(u64, u64)>)
        ensures
            ranges@ == ordered_ranges(self@.wal),
    {
        let mut ranges: Vec<(u64, u64)> = Vec::new();
        let mut i: usize = 0;
        while i < self.wal.len()
            invariant
                i <= self.wal@.len(),
                ranges@ == ordered_ranges(self@.wal.take(i as int)),
            decreases self.wal@.len() - i,
        {
            let ghost head = self@.wal.take(i + 1);
            assert(head.drop_last() =~= self@.wal.take(i as int));
            assert(head.last() == self.wal@[i as int]@);
            let offset = self.wal[i].offset;
            let mut at: usize = ranges.len();
            assert(ranges@.take(at as int) =~= ranges@);
            while at > 0 && ranges[at - 1].0 > offset
                invariant
                    at <= ranges@.len(),
                    range_place(ranges@.take(at as int), offset) == range_place(ranges@, offset),
                decreases at,
            {
                assert(ranges@.take(at as int).drop_last() =~= ranges@.take(at - 1));
                at -= 1;
            }
            ranges.insert(at, (offset, self.wal[i].len));
            i += 1;
        }
        assert(self@.wal.take(i as int) =~= self@.wal);
        ranges
    }
}

impl LocalStore {
    /// Carries out one row operation.
    pub fn apply(&mut self, change: &StoreChange)
        requires
            well_formed(old(self)@),
            applicable(change@),
        ensures
            final(self)@ == changed(old(self)@, change@),
            well_formed(final(self)@),
    {
        let ghost before = self@;
        match change {
            StoreChange::ReplaceManifest { manifest, hash: _, encoded, updated_at: _ } => {
                self.refs = refs_of(manifest);
                self.manifest = Some(clone_bytes(encoded));
            },
            StoreChange::PutDirty { row, updated_at: _ } => {
                self.put_dirty_row(row);
            },
            StoreChange::MergeWal {
                object_id,
                generation,
                start,
                end,
                sha256,
                created_at: _,
            } => {
                self.merge_wal(*object_id, *generation, *start, *end, sha256);
            },
            StoreChange::PutCache { entry } => {
                self.remove_cache(entry.object_id, entry.generation);
                let ghost kept = self.cache@;
                self.cache.push(entry.clone());
                proof {
                    assert(cache_views(self.cache@) =~= cache_views(kept).push(entry@));
                    lemma_put_cache_distinct(before.cache, entry@);
                }
            },
            StoreChange::RemoveCache { object_id, generation, cache_path: _ } => {
                self.remove_cache(*object_id, *generation);
                proof {
                    lemma_cache_without(before.cache, *object_id, *generation);
                }
            },
            StoreChange::ClearDirtyAndWal => {
                self.dirty = Vec::new();
                self.wal = Vec::new();
                self.mark_cache_clean();
                assert(self@.dirty =~= Seq::<DirtyView>::empty());
                assert(self@.wal =~= Seq::<WalView>::empty());
            },
        }
        assert(self@ =~= changed(before, change@));
    }

    fn mark_cache_clean(&mut self)
        ensures
            final(self)@ == (StoreView {
                cache: Seq::new(old(self)@.cache.len(), |i: int| cleaned(old(self)@.cache[i])),
                ..old(self)@
            }),
            cache_keys_distinct(old(self)@.cache) ==> cache_keys_distinct(final(self)@.cache),
    {
        let ghost before = self@;
        let mut cache: Vec<CacheEntry> = Vec::new();
        let mut i: usize = 0;
        while i < self.cache.len()
            invariant
                i <= self.cache@.len(),
                before == self@,
                cache@.len() == i,
                forall|k: int| 0 <= k < i ==> (#[trigger] cache@[k])@ == cleaned(before.cache[k]),
            decreases self.cache@.len() - i,
        {
            let mut entry = self.cache[i].clone();
            entry.dirty = false;
            cache.push(entry);
            i += 1;
        }
        self.cache = cache;
        proof {
            let rows = Seq::new(before.cache.len(), |k: int| cleaned(before.cache[k]));
            assert(cache_views(cache@) =~= rows);
            if cache_keys_distinct(before.cache) {
                assert forall|a: int, b: int| 0 <= a < b < rows.len() implies !is_file_of(
                    #[trigger] rows[a],
                    (#[trigger] rows[b]).object_id,
                    rows[b].generation,
                ) by {
                    assert(!is_file_of(
                        before.cache[a],
                        before.cache[b].object_id,
                        before.cache[b].generation,
                    ));
                }
            }
        }
    }

    fn remove_cache(&mut self, object_id: u64, generation: u64)
        requires
            cache_keys_distinct(old(self)@.cache),
        ensures
            final(self)@ == (StoreView {
                cache: cache_without(old(self)@.cache, object_id, generation),
                ..old(self)@
            }),
    {
        let ghost rows = self@.cache;
        let ghost before = self@;
        let mut i: usize = 0;
        while i < self.cache.len()
            invariant
                i <= self.cache@.len(),
                self@ == before,
                before == old(self)@,
                rows == before.cache,
                cache_keys_distinct(rows),
                forall|k: int|
                    0 <= k < i ==> !is_file_of(#[trigger] rows[k], object_id, generation),
            decreases self.cache@.len() - i,
        {
            if self.cache[i].object_id == object_id && self.cache[i].generation == generation {
                proof {
                    assert(is_file_of(rows[i as int], object_id, generation));
                    lemma_cache_without_one(rows, object_id, generation, i as int);
                }
                let _ = self.cache.remove(i);
                assert(cache_views(self.cache@) =~= rows.remove(i as int));
                return ;
            }
            i += 1;
        }
        proof {
            lemma_cache_without_none(rows, object_id, generation);
        }
    }

    fn put_dirty_row(&mut self, row: &DirtyObject)
        requires
            dirty_in_order(old(self)@.dirty),
        ensures
            final(self)@ == (StoreView {
                dirty: put_dirty(old(self)@.dirty, row@),
                ..old(self)@
            }),
            dirty_in_order(final(self)@.dirty),
    {
        let ghost before = self@;
        let ghost rows = self@.dirty;
        proof {
            lemma_put_dirty_in_order(rows, row@);
        }
        let mut at: usize = self.dirty.len();
        assert(rows.take(at as int) =~= rows);
        assert(rows.skip(at as int) =~= Seq::<DirtyView>::empty());
        while at > 0 && key_less(row.object_id, self.dirty[at - 1].object_id)
            invariant
                at <= self.dirty@.len(),
                self@ == before,
                rows == before.dirty,
                put_dirty(rows, row@) == put_dirty(rows.take(at as int), row@) + rows.skip(
                    at as int,
                ),
            decreases at,
        {
            let ghost head = rows.take(at as int);
            proof {
                assert(head.drop_last() =~= rows.take(at - 1));
                assert(head.last() == self.dirty@[at - 1]@);
                assert(seq![head.last()] + rows.skip(at as int) =~= rows.skip(at - 1));
                assert(put_dirty(head.drop_last(), row@).push(head.last()) + rows.skip(at as int)
                    =~= put_dirty(rows.take(at - 1), row@) + rows.skip(at - 1));
            }
            at -= 1;
        }
        let ghost head = rows.take(at as int);
        if at > 0 && self.dirty[at - 1].object_id == row.object_id {
            proof {
                assert(head.last() == self.dirty@[at - 1]@);
                assert(head.drop_last().push(row@) + rows.skip(at as int) =~= rows.update(
                    at - 1,
                    row@,
                ));
            }
            self.dirty.set(at - 1, row.clone());
            assert(dirty_views(self.dirty@) =~= rows.update(at - 1, row@));
        } else {
            proof {
                if at > 0 {
                    assert(head.last() == self.dirty@[at - 1]@);
                    assert(put_dirty(head, row@) =~= head.push(row@));
                } else {
                    assert(put_dirty(head, row@) =~= head.push(row@));
                }
                assert(head.push(row@) + rows.skip(at as int) =~= rows.insert(at as int, row@));
            }
            self.dirty.insert(at, row.clone());
            assert(dirty_views(self.dirty@) =~= rows.insert(at as int, row@));
        }
    }

    fn merge_wal(&mut self, object_id: u64, generation: u64, start: u64, end: u64, sha256: &String)
        requires
            wal_fits(old(self)@.wal),
            start <= end <= i64::MAX,
        ensures
            final(self)@ == (StoreView {
                wal: wal_merged(
                    old(self)@.wal,
                    object_id,
                    generation,
                    start as int,
                    end as int,
                    sha256@,
                ),
                ..old(self)@
            }),
            wal_fits(final(self)@.wal),
    {
        let ghost before = self@;
        let ghost apart = |row: WalView|
            !touches(row, object_id, generation, start as int, end as int);
        let mut kept: Vec<WalEntry> = Vec::new();
        let mut i: usize = 0;
        proof {
            reveal(Seq::filter);
            assert(before.wal.take(0).filter(apart) =~= Seq::<WalView>::empty());
        }
        while i < self.wal.len()
            invariant
                i <= self.wal@.len(),
                self@ == before,
                wal_fits(before.wal),
                start <= end <= i64::MAX,
                apart == (|row: WalView|
                    !touches(row, object_id, generation, start as int, end as int)),
                wal_views(kept@) == before.wal.take(i as int).filter(apart),
                wal_fits(wal_views(kept@)),
            decreases self.wal@.len() - i,
        {
            let ghost head = before.wal.take(i + 1);
            proof {
                reveal(Seq::filter);
                assert(head.drop_last() =~= before.wal.take(i as int));
                assert(head.last() == before.wal[i as int]);
                assert(before.wal[i as int] == self.wal@[i as int]@);
            }
            let row = &self.wal[i];
            let touching = row.object_id == object_id && row.generation == generation && row.offset
                <= end && row.offset + row.len >= start;
            if !touching {
                let ghost sofar = kept@;
                kept.push(
                    WalEntry {
                        object_id: row.object_id,
                        offset: row.offset,
                        len: row.len,
                        generation: row.generation,
                        sha256: row.sha256.clone(),
                    },
                );
                assert(wal_views(kept@) =~= wal_views(sofar).push(row@));
            }
            i += 1;
        }
        assert(before.wal.take(i as int) =~= before.wal);
        let ghost sofar = kept@;
        let added = WalEntry {
            object_id,
            offset: start,
            len: end - start,
            generation,
            sha256: sha256.clone(),
        };
        kept.push(added);
        assert(wal_views(kept@) =~= wal_views(sofar).push(added@));
        self.wal = kept;
    }
}

/// A row operation whose range can be written.
pub open spec fn applicable(change: ChangeView) -> bool {
    change matches ChangeView::MergeWal { start, end, .. } ==> start <= end <= i64::MAX
}

/// The references of the objects that have one.
fn refs_of(manifest: &Manifest) -> (refs: Vec<RemoteObjectRef>)
    ensures
        ref_views(refs@) == stored_refs(manifest@.objects),
{
    let mut refs: Vec<RemoteObjectRef> = Vec::new();
    let ghost objects = manifest@.objects;
    assert(ref_views(refs@) =~= stored_refs(objects.take(0)));
    let mut i: usize = 0;
    while i < manifest.objects.len()
        invariant
            i <= manifest.objects@.len(),
            objects == manifest@.objects,
            ref_views(refs@) == stored_refs(objects.take(i as int)),
        decreases manifest.objects@.len() - i,
    {
        let ghost head = objects.take(i + 1);
        proof {
            assert(head.drop_last() =~= objects.take(i as int));
            assert(head.last() == manifest.objects@[i as int]@);
        }
        let object = &manifest.objects[i];
        if let Some(remote) = &object.remote {
            let ghost sofar = refs@;
            let mut reference = remote.clone();
            reference.object_id = object.object_id;
            refs.push(reference);
            assert(ref_views(refs@) =~= ref_views(sofar).push(reference@));
        }
        i += 1;
    }
    assert(objects.take(i as int) =~= objects);
    refs
}

/// Where no entry is for a file, taking that file away changes nothing.
pub proof fn lemma_cache_without_none(rows: Seq<CacheView>, object_id: u64, generation: u64)
    requires
        forall|k: int|
            0 <= k < rows.len() ==> !is_file_of(#[trigger] rows[k], object_id, generation),
    ensures
        cache_without(rows, object_id, generation) == rows,
    decreases rows.len(),
{
    reveal(Seq::filter);
    if rows.len() > 0 {
        let head = rows.drop_last();
        assert forall|k: int| 0 <= k < head.len() implies !is_file_of(
            #[trigger] head[k],
            object_id,
            generation,
        ) by {
            assert(head[k] == rows[k]);
        }
        lemma_cache_without_none(head, object_id, generation);
        assert(!is_file_of(rows[rows.len() - 1], object_id, generation));
        assert(head.push(rows.last()) =~= rows);
    } else {
        assert(cache_without(rows, object_id, generation) =~= rows);
    }
}

/// Where one entry is for a file, taking that file away removes this entry.
pub proof fn lemma_cache_without_one(rows: Seq<CacheView>, object_id: u64, generation: u64, at: int)
    requires
        cache_keys_distinct(rows),
        0 <= at < rows.len(),
        is_file_of(rows[at], object_id, generation),
    ensures
        cache_without(rows, object_id, generation) == rows.remove(at),
    decreases rows.len(),
{
    reveal(Seq::filter);
    let head = rows.drop_last();
    assert forall|i: int, j: int| 0 <= i < j < head.len() implies !is_file_of(
        #[trigger] head[i],
        (#[trigger] head[j]).object_id,
        head[j].generation,
    ) by {
        assert(!is_file_of(rows[i], rows[j].object_id, rows[j].generation));
    }
    if at == rows.len() - 1 {
        assert forall|k: int| 0 <= k < head.len() implies !is_file_of(
            #[trigger] head[k],
            object_id,
            generation,
        ) by {
            assert(!is_file_of(rows[k], rows[at].object_id, rows[at].generation));
        }
        lemma_cache_without_none(head, object_id, generation);
        assert(rows.remove(at) =~= head);
    } else {
        lemma_cache_without_one(head, object_id, generation, at);
        assert(!is_file_of(rows.last(), object_id, generation)) by {
            assert(!is_file_of(rows[at], rows[rows.len() - 1].object_id, rows[rows.len()
                - 1].generation));
        }
        assert(rows.remove(at) =~= head.remove(at).push(rows.last()));
    }
}

/// Taking an entry away leaves distinct entries, none of them for that file.
pub proof fn lemma_cache_without(rows: Seq<CacheView>, object_id: u64, generation: u64)
    requires
        cache_keys_distinct(rows),
    ensures
        cache_keys_distinct(cache_without(rows, object_id, generation)),
        forall|k: int|
            0 <= k < cache_without(rows, object_id, generation).len() ==> !is_file_of(
                #[trigger] cache_without(rows, object_id, generation)[k],
                object_id,
                generation,
            ),
{
    let rest = cache_without(rows, object_id, generation);
    if exists|k: int| 0 <= k < rows.len() && is_file_of(#[trigger] rows[k], object_id, generation) {
        let at = choose|k: int|
            0 <= k < rows.len() && is_file_of(#[trigger] rows[k], object_id, generation);
        lemma_cache_without_one(rows, object_id, generation, at);
        assert forall|i: int, j: int| 0 <= i < j < rest.len() implies !is_file_of(
            #[trigger] rest[i],
            (#[trigger] rest[j]).object_id,
            rest[j].generation,
        ) by {
            let p = if i < at { i } else { i + 1 };
            let q = if j < at { j } else { j + 1 };
            assert(rest[i] == rows[p] && rest[j] == rows[q]);
        }
        assert forall|k: int| 0 <= k < rest.len() implies !is_file_of(
            #[trigger] rest[k],
            object_id,
            generation,
        ) by {
            let p = if k < at { k } else { k + 1 };
            assert(rest[k] == rows[p]);
            if p < at {
                assert(!is_file_of(rows[p], rows[at].object_id, rows[at].generation));
            } else {
                assert(!is_file_of(rows[at], rows[p].object_id, rows[p].generation));
            }
        }
    } else {
        lemma_cache_without_none(rows, object_id, generation);
    }
}

/// Putting an entry in keeps one entry for each file.
pub proof fn lemma_put_cache_distinct(rows: Seq<CacheView>, entry: CacheView)
    requires
        cache_keys_distinct(rows),
    ensures
        cache_keys_distinct(put_cache(rows, entry)),
{
    let rest = cache_without(rows, entry.object_id, entry.generation);
    lemma_cache_without(rows, entry.object_id, entry.generation);
    let all = rest.push(entry);
    assert forall|i: int, j: int| 0 <= i < j < all.len() implies !is_file_of(
        #[trigger] all[i],
        (#[trigger] all[j]).object_id,
        all[j].generation,
    ) by {
        assert(all[i] == rest[i]);
        if j < rest.len() {
            assert(all[j] == rest[j]);
        }
    }
}

/// Putting a dirty object in its place keeps the order, and keeps the largest key at
/// the end.
pub proof fn lemma_put_dirty_in_order(rows: Seq<DirtyView>, row: DirtyView)
    requires
        dirty_in_order(rows),
    ensures
        dirty_in_order(put_dirty(rows, row)),
        put_dirty(rows, row).len() > 0,
        forall|k: int|
            0 <= k < put_dirty(rows, row).len() ==> row_key(
                #[trigger] put_dirty(rows, row)[k].object_id,
            ) <= row_key(row.object_id) || exists|m: int|
                0 <= m < rows.len() && #[trigger] rows[m].object_id == put_dirty(
                    rows,
                    row,
                )[k].object_id,
    decreases rows.len(),
{
    if rows.len() > 0 {
        let head = rows.drop_last();
        assert forall|i: int, j: int| 0 <= i < j < head.len() implies row_key(
            #[trigger] head[i].object_id,
        ) < row_key(#[trigger] head[j].object_id) by {
            assert(row_key(rows[i].object_id) < row_key(rows[j].object_id));
        }
        lemma_put_dirty_in_order(head, row);
        let all = put_dirty(rows, row);
        let last = rows.last();
        if last.object_id == row.object_id {
            assert forall|i: int, j: int| 0 <= i < j < all.len() implies row_key(
                #[trigger] all[i].object_id,
            ) < row_key(#[trigger] all[j].object_id) by {
                assert(row_key(rows[i].object_id) < row_key(rows[j].object_id));
            }
        } else if row_key(last.object_id) < row_key(row.object_id) {
            assert forall|i: int, j: int| 0 <= i < j < all.len() implies row_key(
                #[trigger] all[i].object_id,
            ) < row_key(#[trigger] all[j].object_id) by {
                if j < rows.len() {
                    assert(row_key(rows[i].object_id) < row_key(rows[j].object_id));
                } else if i < rows.len() - 1 {
                    assert(row_key(rows[i].object_id) < row_key(rows[rows.len() - 1].object_id));
                }
            }
        } else {
            let part = put_dirty(head, row);
            assert forall|i: int, j: int| 0 <= i < j < all.len() implies row_key(
                #[trigger] all[i].object_id,
            ) < row_key(#[trigger] all[j].object_id) by {
                if j == part.len() {
                    assert(all[i] == part[i]);
                    if !(row_key(part[i].object_id) <= row_key(row.object_id)) {
                        let m = choose|m: int|
                            0 <= m < head.len() && #[trigger] head[m].object_id
                                == part[i].object_id;
                        assert(row_key(rows[m].object_id) < row_key(rows[rows.len()
                            - 1].object_id));
                    }
                } else {
                    assert(all[i] == part[i] && all[j] == part[j]);
                }
            }
            assert forall|k: int| 0 <= k < all.len() implies row_key(#[trigger] all[k].object_id)
                <= row_key(row.object_id) || exists|m: int|
                0 <= m < rows.len() && #[trigger] rows[m].object_id == all[k].object_id by {
                if k == part.len() {
                    assert(rows[rows.len() - 1].object_id == all[k].object_id);
                } else {
                    assert(all[k] == part[k]);
                    if !(row_key(part[k].object_id) <= row_key(row.object_id)) {
                        let m = choose|m: int|
                            0 <= m < head.len() && #[trigger] head[m].object_id
                                == part[k].object_id;
                        assert(rows[m].object_id == all[k].object_id);
                    }
                }
            }
        }
    }
}

/// The cache entries that are not dirty.
pub open spec fn clean_rows(rows: Seq<CacheView>) -> Seq<CacheView> {
    rows.filter(|row: CacheView| !row.dirty)
}

/// Where a range goes among ranges ordered by offset: behind those whose offset is not
/// larger.
pub open spec fn range_place(ranges: Seq<(u64, u64)>, offset: u64) -> int
    decreases ranges.len(),
{
    if ranges.len() == 0 || ranges.last().0 <= offset {
        ranges.len() as int
    } else {
        range_place(ranges.drop_last(), offset)
    }
}

/// The offsets and lengths of written ranges, ordered by offset.
pub open spec fn ordered_ranges(rows: Seq<WalView>) -> Seq<(u64, u64)>
    decreases rows.len(),
{
    if rows.len() == 0 {
        Seq::empty()
    } else {
        let ranges = ordered_ranges(rows.drop_last());
        ranges.insert(range_place(ranges, rows.last().offset), (rows.last().offset, rows.last().len))
    }
}

} // verus!
