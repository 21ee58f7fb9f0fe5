//! What the device does with its local index: each operation changes the index in
//! memory and hands back the row operations that bring the tables in step.
use std::collections::HashSet;
use vstd::prelude::*;

use crate::cache::{
    cache_at, cache_views, change_views, changed, changed_by, object_path, widened, CacheEntry,
    CacheView, ChangeView, DirtyObject, DirtyView, StoreChange, StoreError, StoreView,
};
use crate::clock::{now_text, utc_text_of, writable_time};
use crate::digest::{sha256_hex, sha256_text};
use crate::manifest::{Manifest, ManifestObjectView};
use crate::store::{clean_rows, well_formed, LocalStore};
use crate::text::{text_before, text_equal, text_less};

verus! {

broadcast use vstd::std_specs::hash::group_hash_axioms;

/// The cache entry after the file of a generation of an object was read.
pub open spec fn touched_entry(
    store: StoreView,
    object_id: u64,
    generation: u64,
    sha256: Seq<char>,
    now: Seq<char>,
) -> CacheView {
    CacheView {
        object_id,
        generation,
        cache_path: object_path(store.cache_dir, object_id, generation),
        sha256,
        dirty: match cache_at(store.cache, object_id, generation) {
            Some(entry) => entry.dirty,
            None => false,
        },
        last_access_at: now,
    }
}

/// The cache entry after the file of a generation of an object was written.
pub open spec fn saved_entry(
    store: StoreView,
    object_id: u64,
    generation: u64,
    bytes: Seq<u8>,
    dirty: bool,
    now: Seq<char>,
) -> CacheView {
    CacheView {
        object_id,
        generation,
        cache_path: object_path(store.cache_dir, object_id, generation),
        sha256: sha256_text(bytes),
        dirty,
        last_access_at: now,
    }
}

/// What marking an object dirty does to the tables: the object gets its row, and the
/// written range replaces those that it touches.
pub open spec fn dirty_changes(
    store: StoreView,
    row: DirtyView,
    offset: u64,
    len: u64,
    now: Seq<char>,
) -> Seq<ChangeView> {
    let (start, end) = widened(
        store.wal,
        row.object_id,
        row.generation,
        offset as int,
        offset + len,
    );
    seq![
        ChangeView::PutDirty { row, updated_at: now },
        ChangeView::MergeWal {
            object_id: row.object_id,
            generation: row.generation,
            start: start as u64,
            end: end as u64,
            sha256: row.sha256,
            created_at: now,
        },
    ]
}

/// The number of the first object whose number an earlier object has too.
pub open spec fn first_repeat(objects: Seq<ManifestObjectView>) -> Option<u64>
    decreases objects.len(),
{
    if objects.len() == 0 {
        None
    } else if first_repeat(objects.drop_last()) is Some {
        first_repeat(objects.drop_last())
    } else if exists|k: int|
        0 <= k < objects.len() - 1 && (#[trigger] objects[k]).object_id
            == objects.last().object_id {
        Some(objects.last().object_id)
    } else {
        None
    }
}

/// Where a cache entry goes among entries ordered by the text of the last access: behind
/// those whose text is not above its own.
pub open spec fn access_place(entries: Seq<CacheView>, accessed: Seq<char>) -> int
    decreases entries.len(),
{
    if entries.len() == 0 || !text_before(accessed, entries.last().last_access_at) {
        entries.len() as int
    } else {
        access_place(entries.drop_last(), accessed)
    }
}

/// Cache entries ordered by the text of the last access, the lowest first; entries with the
/// same text keep their order.
pub open spec fn by_access(entries: Seq<CacheView>) -> Seq<CacheView>
    decreases entries.len(),
{
    if entries.len() == 0 {
        Seq::empty()
    } else {
        let ordered = by_access(entries.drop_last());
        ordered.insert(access_place(ordered, entries.last().last_access_at), entries.last())
    }
}

/// The clean cache entries that have to go so that at most `max_entries` of them stay: the
/// lowest by the text of the last access.
pub open spec fn victims(rows: Seq<CacheView>, max_entries: int) -> Seq<CacheView> {
    let clean = clean_rows(rows);
    if clean.len() <= max_entries {
        Seq::empty()
    } else {
        by_access(clean).take(clean.len() - max_entries)
    }
}

/// Taking a cache entry away, as a row operation.
pub open spec fn removal(entry: CacheView) -> ChangeView {
    ChangeView::RemoveCache {
        object_id: entry.object_id,
        generation: entry.generation,
        cache_path: entry.cache_path,
    }
}

/// Taking several cache entries away.
pub open spec fn removals(entries: Seq<CacheView>) -> Seq<ChangeView> {
    Seq::new(entries.len(), |i: int| removal(entries[i]))
}

/// One row operation more.
pub proof fn lemma_changed_by_push(store: StoreView, changes: Seq<ChangeView>, change: ChangeView)
    ensures
        changed_by(store, changes.push(change)) == changed(changed_by(store, changes), change),
{
    assert(changes.push(change).drop_last() =~= changes);
}

/// The index after one row operation.
pub proof fn lemma_changed_by_one(store: StoreView, change: ChangeView)
    ensures
        changed_by(store, seq![change]) == changed(store, change),
{
    lemma_changed_by_push(store, Seq::empty(), change);
    assert(Seq::<ChangeView>::empty().push(change) =~= seq![change]);
}

/// The index after two row operations.
pub proof fn lemma_changed_by_two(store: StoreView, first: ChangeView, second: ChangeView)
    ensures
        changed_by(store, seq![first, second]) == changed(changed(store, first), second),
{
    lemma_changed_by_one(store, first);
    lemma_changed_by_push(store, seq![first], second);
    assert(seq![first].push(second) =~= seq![first, second]);
}

impl LocalStore {
    /// Takes over a manifest, given with its encoded form, at the time `now`.
    pub fn replace_from_manifest_at(
        &mut self,
        manifest: &Manifest,
        encoded: Vec<u8>,
        now: &str,
    ) -> (result: Result<StoreChange, StoreError>)
        requires
            well_formed(old(self)@),
        ensures
            match result {
                Ok(change) => {
                    &&& first_repeat(manifest@.objects) is None
                    &&& change@ == (ChangeView::ReplaceManifest {
                        manifest: manifest@,
                        hash: sha256_text(encoded@),
                        encoded: encoded@,
                        updated_at: now@,
                    })
                    &&& final(self)@ == changed(old(self)@, change@)
                },
                Err(error) => {
                    &&& first_repeat(manifest@.objects) is Some
                    &&& error == (StoreError::DuplicateObject {
                        object_id: first_repeat(manifest@.objects)->0,
                    })
                    &&& final(self)@ == old(self)@
                },
            },
            well_formed(final(self)@),
    {
        if let Some(object_id) = find_repeat(manifest) {
            return Err(StoreError::DuplicateObject { object_id });
        }
        let hash = Manifest::hash_hex(encoded.as_slice());
        let change = StoreChange::ReplaceManifest {
            manifest: manifest.clone(),
            hash,
            encoded,
            updated_at: now.to_owned(),
        };
        self.apply(&change);
        Ok(change)
    }

    /// Takes over a manifest, given with its encoded form.
    pub fn replace_from_manifest(&mut self, manifest: &Manifest, encoded: Vec<u8>) -> (result:
        Result<StoreChange, StoreError>)
        requires
            well_formed(old(self)@),
        ensures
            match result {
                Ok(change) => {
                    &&& first_repeat(manifest@.objects) is None
                    &&& exists|time: int|
                        writable_time(time) && change@ == (ChangeView::ReplaceManifest {
                            manifest: manifest@,
                            hash: sha256_text(encoded@),
                            encoded: encoded@,
                            updated_at: #[trigger] utc_text_of(time),
                        })
                    &&& final(self)@ == changed(old(self)@, change@)
                },
                Err(error) => {
                    &&& first_repeat(manifest@.objects) is Some
                    &&& error == (StoreError::DuplicateObject {
                        object_id: first_repeat(manifest@.objects)->0,
                    })
                    &&& final(self)@ == old(self)@
                },
            },
            well_formed(final(self)@),
    {
        let now = now_text();
        self.replace_from_manifest_at(manifest, encoded, now.as_str())
    }

    /// Takes note that the file of a generation of an object was read at the time `now`.
    /// `file` is what the file holds, if it exists.
    pub fn read_cache_at(
        &mut self,
        object_id: u64,
        generation: u64,
        expected_sha: &str,
        file: Option<Vec<u8>>,
        now: &str,
    ) -> (result: Result<Option<(Vec<u8>, StoreChange)>, StoreError>)
        requires
            well_formed(old(self)@),
        ensures
            match result {
                Ok(Some((bytes, change))) => {
                    &&& file is Some
                    &&& bytes@ == file->0@
                    &&& sha256_text(bytes@) == expected_sha@
                    &&& change@ == (ChangeView::PutCache {
                        entry: touched_entry(
                            old(self)@,
                            object_id,
                            generation,
                            expected_sha@,
                            now@,
                        ),
                    })
                    &&& final(self)@ == changed(old(self)@, change@)
                },
                Ok(None) => file is None && final(self)@ == old(self)@,
                Err(error) => {
                    &&& file is Some
                    &&& sha256_text(file->0@) != expected_sha@
                    &&& error == (StoreError::CacheChecksum { object_id })
                    &&& final(self)@ == old(self)@
                },
            },
            well_formed(final(self)@),
    {
        let bytes = match file {
            None => {
                return Ok(None);
            },
            Some(bytes) => bytes,
        };
        let actual = sha256_hex(bytes.as_slice());
        if !text_equal(actual.as_str(), expected_sha) {
            return Err(StoreError::CacheChecksum { object_id });
        }
        let dirty = match self.cache_entry(object_id, generation) {
            Some(entry) => entry.dirty,
            None => false,
        };
        let change = StoreChange::PutCache {
            entry: CacheEntry {
                object_id,
                generation,
                cache_path: self.cache_path(object_id, generation),
                sha256: expected_sha.to_owned(),
                dirty,
                last_access_at: now.to_owned(),
            },
        };
        self.apply(&change);
        Ok(Some((bytes, change)))
    }

    /// Takes note that the file of a generation of an object was read. `file` is what
    /// the file holds, if it exists.
    pub fn read_cache(
        &mut self,
        object_id: u64,
        generation: u64,
        expected_sha: &str,
        file: Option<Vec<u8>>,
    ) -> (result: Result<Option<(Vec<u8>, StoreChange)>, StoreError>)
        requires
            well_formed(old(self)@),
        ensures
            match result {
                Ok(Some((bytes, change))) => {
                    &&& file is Some
                    &&& bytes@ == file->0@
                    &&& sha256_text(bytes@) == expected_sha@
                    &&& exists|time: int|
                        writable_time(time) && change@ == (ChangeView::PutCache {
                            entry: touched_entry(
                                old(self)@,
                                object_id,
                                generation,
                                expected_sha@,
                                #[trigger] utc_text_of(time),
                            ),
                        })
                    &&& final(self)@ == changed(old(self)@, change@)
                },
                Ok(None) => file is None && final(self)@ == old(self)@,
                Err(error) => {
                    &&& file is Some
                    &&& sha256_text(file->0@) != expected_sha@
                    &&& error == (StoreError::CacheChecksum { object_id })
                    &&& final(self)@ == old(self)@
                },
            },
            well_formed(final(self)@),
    {
        let now = now_text();
        self.read_cache_at(object_id, generation, expected_sha, file, now.as_str())
    }

    /// Takes note that `bytes` were written to the file of a generation of an object at
    /// the time `now`, and hands back their digest.
    pub fn write_cache_at(
        &mut self,
        object_id: u64,
        generation: u64,
        bytes: &[u8],
        dirty: bool,
        now: &str,
    ) -> (result: (String, StoreChange))
        requires
            well_formed(old(self)@),
        ensures
            result.0@ == sha256_text(bytes@),
            result.1@ == (ChangeView::PutCache {
                entry: saved_entry(old(self)@, object_id, generation, bytes@, dirty, now@),
            }),
            final(self)@ == changed(old(self)@, result.1@),
            well_formed(final(self)@),
    {
        let sha = sha256_hex(bytes);
        let change = StoreChange::PutCache {
            entry: CacheEntry {
                object_id,
                generation,
                cache_path: self.cache_path(object_id, generation),
                sha256: sha.clone(),
                dirty,
                last_access_at: now.to_owned(),
            },
        };
        self.apply(&change);
        (sha, change)
    }

    /// Takes note that `bytes` were written to the file of a generation of an object,
    /// and hands back their digest.
    pub fn write_cache(&mut self, object_id: u64, generation: u64, bytes: &[u8], dirty: bool) -> (
    result: (String, StoreChange))
        requires
            well_formed(old(self)@),
        ensures
            result.0@ == sha256_text(bytes@),
            exists|time: int|
                writable_time(time) && result.1@ == (ChangeView::PutCache {
                    entry: saved_entry(
                        old(self)@,
                        object_id,
                        generation,
                        bytes@,
                        dirty,
                        #[trigger] utc_text_of(time),
                    ),
                }),
            final(self)@ == changed(old(self)@, result.1@),
            well_formed(final(self)@),
    {
        let now = now_text();
        self.write_cache_at(object_id, generation, bytes, dirty, now.as_str())
    }

    /// Marks an object dirty at the time `now`: `len` bytes from `offset` on were written
    /// in the given generation.
    pub fn mark_dirty_at(
        &mut self,
        object_id: u64,
        generation: u64,
        cache_path: &str,
        sha256: &str,
        offset: u64,
        len: u64,
        now: &str,
    ) -> (changes: Vec<StoreChange>)
        requires
            well_formed(old(self)@),
            offset + len <= i64::MAX,
        ensures
            change_views(changes@) == dirty_changes(
                old(self)@,
                (DirtyView { object_id, generation, cache_path: cache_path@, sha256: sha256@ }),
                offset,
                len,
                now@,
            ),
            final(self)@ == changed_by(old(self)@, change_views(changes@)),
            well_formed(final(self)@),
    {
        let ghost before = self@;
        let row = DirtyObject {
            object_id,
            generation,
            cache_path: cache_path.to_owned(),
            sha256: sha256.to_owned(),
        };
        let (start, end) = self.touching_range(object_id, generation, offset, offset + len);
        let put = StoreChange::PutDirty { row, updated_at: now.to_owned() };
        let merge = StoreChange::MergeWal {
            object_id,
            generation,
            start,
            end,
            sha256: sha256.to_owned(),
            created_at: now.to_owned(),
        };
        self.apply(&put);
        self.apply(&merge);
        let ghost (first, second) = (put@, merge@);
        let mut changes: Vec<StoreChange> = Vec::new();
        changes.push(put);
        changes.push(merge);
        proof {
            assert(change_views(changes@) =~= seq![first, second]);
            lemma_changed_by_two(before, first, second);
        }
        changes
    }

    /// Marks an object dirty: `len` bytes from `offset` on were written in the given
    /// generation.
    pub fn mark_dirty(
        &mut self,
        object_id: u64,
        generation: u64,
        cache_path: &str,
        sha256: &str,
        offset: u64,
        len: u64,
    ) -> (changes: Vec<StoreChange>)
        requires
            well_formed(old(self)@),
            offset + len <= i64::MAX,
        ensures
            exists|time: int|
                writable_time(time) && change_views(changes@) == dirty_changes(
                    old(self)@,
                    (DirtyView { object_id, generation, cache_path: cache_path@, sha256: sha256@ }),
                    offset,
                    len,
                    #[trigger] utc_text_of(time),
                ),
            final(self)@ == changed_by(old(self)@, change_views(changes@)),
            well_formed(final(self)@),
    {
        let now = now_text();
        self.mark_dirty_at(object_id, generation, cache_path, sha256, offset, len, now.as_str())
    }

    /// Forgets all dirty objects and written ranges; every cache entry is clean.
    pub fn clear_dirty_and_wal(&mut self) -> (change: StoreChange)
        requires
            well_formed(old(self)@),
        ensures
            change@ == ChangeView::ClearDirtyAndWal,
            final(self)@ == changed(old(self)@, change@),
            well_formed(final(self)@),
    {
        let change = StoreChange::ClearDirtyAndWal;
        self.apply(&change);
        change
    }

    /// Takes clean cache entries away, so that at most `max_entries` clean ones stay; the
    /// lowest by the text of the last access go.
    pub fn evict_clean_lru(&mut self, max_entries: usize) -> (changes: Vec<StoreChange>)
        requires
            well_formed(old(self)@),
        ensures
            change_views(changes@) == removals(victims(old(self)@.cache, max_entries as int)),
            final(self)@ == changed_by(old(self)@, change_views(changes@)),
            well_formed(final(self)@),
    {
        let ghost before = self@;
        let clean = self.clean_entries();
        let ghost rows = clean_rows(before.cache);
        let mut changes: Vec<StoreChange> = Vec::new();
        if clean.len() <= max_entries {
            assert(change_views(changes@) =~= removals(victims(before.cache, max_entries as int)));
            return changes;
        }
        let count: usize = clean.len() - max_entries;
        let ordered = order_by_access(clean);
        proof {
            lemma_by_access_len(rows);
        }
        let ghost out = victims(before.cache, max_entries as int);
        assert(out.len() == count);
        let mut i: usize = 0;
        assert(change_views(changes@) =~= removals(out.take(0)));
        while i < count
            invariant
                i <= count,
                count <= ordered@.len(),
                out == cache_views(ordered@).take(count as int),
                change_views(changes@) == removals(out.take(i as int)),
                self@ == changed_by(before, change_views(changes@)),
                well_formed(self@),
            decreases count - i,
        {
            let entry = &ordered[i];
            let change = StoreChange::RemoveCache {
                object_id: entry.object_id,
                generation: entry.generation,
                cache_path: entry.cache_path.clone(),
            };
            self.apply(&change);
            let ghost sofar = change_views(changes@);
            proof {
                lemma_changed_by_push(before, sofar, change@);
                assert(change@ == removal(out[i as int]));
                assert(removals(out.take(i + 1)) =~= sofar.push(change@));
            }
            let ghost added = change@;
            changes.push(change);
            assert(change_views(changes@) =~= sofar.push(added));
            i += 1;
        }
        assert(out.take(i as int) =~= out);
        changes
    }
}

/// The number of the first object whose number an earlier object has too.
fn find_repeat(manifest: &Manifest) -> (found: Option<u64>)
    ensures
        found == first_repeat(manifest@.objects),
{
    let ghost objects = manifest@.objects;
    let mut seen: HashSet<u64> = HashSet::new();
    let mut i: usize = 0;
    while i < manifest.objects.len()
        invariant
            i <= manifest.objects@.len(),
            objects == manifest@.objects,
            first_repeat(objects.take(i as int)) is None,
            forall|id: u64|
                #[trigger] seen@.contains(id) <==> exists|k: int|
                    0 <= k < i && (#[trigger] objects[k]).object_id == id,
        decreases manifest.objects@.len() - i,
    {
        let object_id = manifest.objects[i].object_id;
        let ghost before = seen@;
        let ghost head = objects.take(i + 1);
        proof {
            assert(head.drop_last() =~= objects.take(i as int));
            assert(head.last() == objects[i as int]);
            assert(objects[i as int].object_id == object_id);
            assert forall|k: int| 0 <= k < i implies #[trigger] head[k] == objects[k] by {}
        }
        let new = seen.insert(object_id);
        if !new {
            proof {
                assert(before.contains(object_id));
                let k = choose|k: int| 0 <= k < i && (#[trigger] objects[k]).object_id == object_id;
                assert(head[k].object_id == head.last().object_id);
                assert(first_repeat(head) == Some(object_id));
                lemma_first_repeat_stays(objects, i + 1);
            }
            return Some(object_id);
        }
        proof {
            assert(!before.contains(object_id));
            assert forall|k: int| 0 <= k < i implies (#[trigger] head[k]).object_id
                != object_id by {
                assert(head[k] == objects[k]);
                if objects[k].object_id == object_id {
                    assert(before.contains(object_id));
                }
            }
            assert forall|id: u64| #[trigger] seen@.contains(id) <==> exists|k: int|
                0 <= k < i + 1 && (#[trigger] objects[k]).object_id == id by {
                if seen@.contains(id) {
                    if id == object_id {
                        assert(objects[i as int].object_id == id);
                    } else {
                        assert(before.contains(id));
                    }
                }
            }
        }
        i += 1;
    }
    assert(objects.take(i as int) =~= objects);
    None
}

proof fn lemma_first_repeat_stays(objects: Seq<ManifestObjectView>, count: int)
    requires
        0 <= count <= objects.len(),
        first_repeat(objects.take(count)) is Some,
    ensures
        first_repeat(objects) == first_repeat(objects.take(count)),
    decreases objects.len(),
{
    if count < objects.len() {
        assert(objects.drop_last().take(count) =~= objects.take(count));
        lemma_first_repeat_stays(objects.drop_last(), count);
    } else {
        assert(objects.take(count) =~= objects);
    }
}

proof fn lemma_by_access_len(entries: Seq<CacheView>)
    ensures
        by_access(entries).len() == entries.len(),
    decreases entries.len(),
{
    if entries.len() > 0 {
        lemma_by_access_len(entries.drop_last());
        lemma_access_place(by_access(entries.drop_last()), entries.last().last_access_at);
    }
}

proof fn lemma_access_place(entries: Seq<CacheView>, accessed: Seq<char>)
    ensures
        0 <= access_place(entries, accessed) <= entries.len(),
    decreases entries.len(),
{
    if entries.len() > 0 {
        lemma_access_place(entries.drop_last(), accessed);
    }
}

/// The position at which an entry with the given last access goes among ordered entries.
fn place_by_access(ordered: &Vec<CacheEntry>, accessed: &str) -> (at: usize)
    ensures
        at == access_place(cache_views(ordered@), accessed@),
        at <= ordered@.len(),
{
    let ghost rows = cache_views(ordered@);
    let mut at: usize = ordered.len();
    assert(rows.take(at as int) =~= rows);
    while at > 0 && text_less(accessed, ordered[at - 1].last_access_at.as_str())
        invariant
            at <= ordered@.len(),
            rows == cache_views(ordered@),
            access_place(rows.take(at as int), accessed@) == access_place(rows, accessed@),
        decreases at,
    {
        assert(rows.take(at as int).drop_last() =~= rows.take(at - 1));
        assert(rows.take(at as int).last() == ordered@[at - 1]@);
        at -= 1;
    }
    proof {
        if at > 0 {
            assert(rows.take(at as int).last() == ordered@[at - 1]@);
        }
    }
    at
}

/// Puts an entry where it goes among ordered entries.
fn insert_by_access(ordered: &mut Vec<CacheEntry>, entry: CacheEntry)
    ensures
        cache_views(final(ordered)@) == cache_views(old(ordered)@).insert(
            access_place(cache_views(old(ordered)@), entry@.last_access_at),
            entry@,
        ),
{
    let ghost rows = cache_views(ordered@);
    let ghost added = entry@;
    let at = place_by_access(ordered, entry.last_access_at.as_str());
    ordered.insert(at, entry);
    assert(cache_views(ordered@) =~= rows.insert(at as int, added));
}

/// Cache entries ordered by the text of the last access.
fn order_by_access(entries: Vec<CacheEntry>) -> (ordered: Vec<CacheEntry>)
    ensures
        cache_views(ordered@) == by_access(cache_views(entries@)),
{
    let ghost rows = cache_views(entries@);
    let mut ordered: Vec<CacheEntry> = Vec::new();
    let mut i: usize = 0;
    assert(cache_views(ordered@) =~= by_access(rows.take(0)));
    while i < entries.len()
        invariant
            i <= entries@.len(),
            rows == cache_views(entries@),
            cache_views(ordered@) == by_access(rows.take(i as int)),
        decreases entries@.len() - i,
    {
        proof {
            let head = rows.take(i + 1);
            assert(head.drop_last() =~= rows.take(i as int));
            assert(head.last() == entries@[i as int]@);
        }
        insert_by_access(&mut ordered, entries[i].clone());
        i += 1;
    }
    assert(rows.take(i as int) =~= rows);
    ordered
}

} // verus!
