//! What each row operation does to the local index, and what it leaves.
use vstd::prelude::*;

use crate::backend::RemoteObjectRefView;
use crate::cache::{
    cache_at, changed, dirty_at, dirty_in_order, is_file_of, object_path, ref_at, row_key,
    stored_refs, wal_fits, widened, CacheView, ChangeView, DirtyView, StoreView, WalView,
};
use crate::device::{
    object_at, object_size, place_at, read_started, resumed, saving, span_at, touching,
    write_started, DeviceError, DeviceView, OpView, OutcomeView, ReplyView, StoredView,
    WriteStageView,
};
use crate::device_laws::lemma_span;
use crate::digest::sha256_text;
use crate::index::{dirty_changes, first_repeat, removals};
use crate::index_laws::{law_cache_lookup, law_dirty_lookup, lemma_cache_at_other};
use crate::manifest::{ManifestObjectView, ManifestView};
use crate::store::{ordered_ranges, range_place};
use crate::text::text_before;

verus! {

/// Everything but the dirty objects is the same.
pub open spec fn same_but_dirty(store: StoreView, after: StoreView) -> bool {
    &&& after.cache_dir == store.cache_dir
    &&& after.wal == store.wal
    &&& after.cache == store.cache
    &&& after.refs == store.refs
    &&& after.manifest == store.manifest
}

/// Everything but the cache entries is the same.
pub open spec fn same_but_cache(store: StoreView, after: StoreView) -> bool {
    &&& after.cache_dir == store.cache_dir
    &&& after.dirty == store.dirty
    &&& after.wal == store.wal
    &&& after.refs == store.refs
    &&& after.manifest == store.manifest
}

/// Each row operation changes one table and no other: putting a dirty object makes it the one
/// found under its number, putting a cache entry makes it the one found for its file, removing
/// one makes none found; other numbers and files are found as before. Clearing leaves no dirty
/// object and no range, and every cache entry, now clean. Taking a manifest over changes the
/// references and the manifest alone.
pub proof fn law_row_operations_change_one_table(
    store: StoreView,
    row: DirtyView,
    entry: CacheView,
    manifest: ManifestView,
    encoded: Seq<u8>,
    hash: Seq<char>,
    now: Seq<char>,
    object_id: u64,
    generation: u64,
    path: Seq<char>,
)
    ensures
        ({
            let after = changed(store, ChangeView::PutDirty { row, updated_at: now });
            &&& same_but_dirty(store, after)
            &&& dirty_at(after.dirty, object_id) == if object_id == row.object_id {
                Some(row)
            } else {
                dirty_at(store.dirty, object_id)
            }
        }),
        ({
            let after = changed(store, ChangeView::PutCache { entry });
            &&& same_but_cache(store, after)
            &&& cache_at(after.cache, object_id, generation) == if object_id == entry.object_id
                && generation == entry.generation {
                Some(entry)
            } else {
                cache_at(store.cache, object_id, generation)
            }
        }),
        ({
            let after = changed(
                store,
                ChangeView::RemoveCache {
                    object_id: entry.object_id,
                    generation: entry.generation,
                    cache_path: path,
                },
            );
            &&& same_but_cache(store, after)
            &&& cache_at(after.cache, object_id, generation) == if object_id == entry.object_id
                && generation == entry.generation {
                None
            } else {
                cache_at(store.cache, object_id, generation)
            }
        }),
        ({
            let after = changed(store, ChangeView::ClearDirtyAndWal);
            &&& after.cache_dir == store.cache_dir
            &&& after.refs == store.refs
            &&& after.manifest == store.manifest
            &&& after.dirty.len() == 0
            &&& after.wal.len() == 0
            &&& cache_at(after.cache, object_id, generation) == match cache_at(
                store.cache,
                object_id,
                generation,
            ) {
                Some(found) => Some(
                    CacheView {
                        object_id: found.object_id,
                        generation: found.generation,
                        cache_path: found.cache_path,
                        sha256: found.sha256,
                        dirty: false,
                        last_access_at: found.last_access_at,
                    },
                ),
                None => None,
            }
        }),
        ({
            let after = changed(
                store,
                ChangeView::ReplaceManifest { manifest, hash, encoded, updated_at: now },
            );
            &&& after.cache_dir == store.cache_dir
            &&& after.dirty == store.dirty
            &&& after.wal == store.wal
            &&& after.cache == store.cache
            &&& after.manifest == Some(encoded)
        }),
{
    law_dirty_lookup(store.dirty, row, object_id);
    law_cache_lookup(store.cache, entry, object_id, generation);
    if object_id == entry.object_id && generation == entry.generation {
        lemma_taken_away(store.cache, object_id, generation);
    } else {
        lemma_cache_at_other(
            store.cache,
            entry.object_id,
            entry.generation,
            object_id,
            generation,
        );
    }
    lemma_cleaned(store.cache, object_id, generation);
}

proof fn lemma_taken_away(rows: Seq<CacheView>, object_id: u64, generation: u64)
    ensures
        cache_at(crate::cache::cache_without(rows, object_id, generation), object_id, generation)
            is None,
    decreases rows.len(),
{
    reveal(Seq::filter);
    if rows.len() > 0 {
        lemma_taken_away(rows.drop_last(), object_id, generation);
        let part = crate::cache::cache_without(rows.drop_last(), object_id, generation);
        if !is_file_of(rows.last(), object_id, generation) {
            assert(part.push(rows.last()).drop_last() =~= part);
        }
    }
}

proof fn lemma_cleaned(rows: Seq<CacheView>, object_id: u64, generation: u64)
    ensures
        ({
            let after = Seq::new(rows.len(), |i: int| crate::cache::cleaned(rows[i]));
            cache_at(after, object_id, generation) == match cache_at(rows, object_id, generation) {
                Some(found) => Some(crate::cache::cleaned(found)),
                None => None,
            }
        }),
    decreases rows.len(),
{
    let after = Seq::new(rows.len(), |i: int| crate::cache::cleaned(rows[i]));
    if rows.len() > 0 {
        let head = rows.drop_last();
        lemma_cleaned(head, object_id, generation);
        assert(after.drop_last() =~= Seq::new(
            head.len(),
            |i: int| crate::cache::cleaned(head[i]),
        ));
    }
}

/// Reading a cache file makes its entry as new as the reading and keeps it dirty if it was;
/// writing one makes its entry say what was written, with its digest, at that time, in the file
/// of its number and generation.
pub proof fn law_cache_entries_say_what_was_done(
    device: DeviceView,
    object: StoredView,
    bytes: Seq<u8>,
    dirty: bool,
    now: Seq<char>,
)
    ensures
        ({
            let found = cache_at(
                changed(device.store, touching(device, object, now)).cache,
                object.object_id,
                object.generation,
            );
            &&& found is Some
            &&& found->0.last_access_at == now
            &&& found->0.sha256 == object.sha256
            &&& found->0.cache_path == object_path(
                device.store.cache_dir,
                object.object_id,
                object.generation,
            )
            &&& found->0.dirty <==> {
                let before = cache_at(device.store.cache, object.object_id, object.generation);
                before is Some && before->0.dirty
            }
        }),
        ({
            let change = saving(
                device,
                object.object_id,
                object.generation,
                bytes,
                dirty,
                now,
            );
            let found = cache_at(
                changed(device.store, change).cache,
                object.object_id,
                object.generation,
            );
            &&& found is Some
            &&& found->0.last_access_at == now
            &&& found->0.sha256 == sha256_text(bytes)
            &&& found->0.cache_path == object_path(
                device.store.cache_dir,
                object.object_id,
                object.generation,
            )
            &&& found->0.dirty == dirty
        }),
{
    let touch = touching(device, object, now);
    let save = saving(device, object.object_id, object.generation, bytes, dirty, now);
    law_cache_lookup(device.store.cache, touch->entry, object.object_id, object.generation);
    law_cache_lookup(device.store.cache, save->entry, object.object_id, object.generation);
}

/// The index keeps the reference of every object of the manifest that has one, under the
/// object's number, and none for the others.
pub proof fn law_references_follow_the_manifest(objects: Seq<ManifestObjectView>, i: int)
    requires
        forall|a: int, b: int|
            0 <= a < b < objects.len() ==> (#[trigger] objects[a]).object_id != (
            #[trigger] objects[b]).object_id,
        0 <= i < objects.len(),
    ensures
        ref_at(stored_refs(objects), objects[i].object_id) == match objects[i].remote {
            Some(remote) => Some(
                RemoteObjectRefView {
                    chat_id: remote.chat_id,
                    message_id: remote.message_id,
                    object_id: objects[i].object_id,
                    generation: remote.generation,
                    sha256: remote.sha256,
                },
            ),
            None => None,
        },
    decreases objects.len(),
{
    let head = objects.drop_last();
    let refs = stored_refs(head);
    assert forall|a: int, b: int| 0 <= a < b < head.len() implies (#[trigger] head[a]).object_id
        != (#[trigger] head[b]).object_id by {
        assert(objects[a].object_id != objects[b].object_id);
    }
    let last = objects.len() - 1;
    if objects.last().remote is Some {
        assert(stored_refs(objects).drop_last() =~= refs);
    }
    if i < last {
        law_references_follow_the_manifest(head, i);
        assert(objects[i].object_id != objects[last].object_id);
    } else {
        assert forall|k: int| 0 <= k < head.len() implies (#[trigger] head[k]).object_id
            != objects[last].object_id by {
            assert(objects[k].object_id != objects[last].object_id);
        }
        lemma_no_reference(head, objects[last].object_id);
    }
}

proof fn lemma_no_reference(objects: Seq<ManifestObjectView>, object_id: u64)
    requires
        forall|k: int| 0 <= k < objects.len() ==> (#[trigger] objects[k]).object_id != object_id,
    ensures
        ref_at(stored_refs(objects), object_id) is None,
    decreases objects.len(),
{
    if objects.len() > 0 {
        let head = objects.drop_last();
        assert forall|k: int| 0 <= k < head.len() implies (#[trigger] head[k]).object_id
            != object_id by {
            assert(objects[k].object_id != object_id);
        }
        lemma_no_reference(head, object_id);
        assert(objects[objects.len() - 1].object_id != object_id);
        if objects.last().remote is Some {
            assert(stored_refs(objects).drop_last() =~= stored_refs(head));
        }
    }
}

/// A manifest is taken over exactly where no two of its objects have the same number.
pub proof fn law_repeated_number_is_found(objects: Seq<ManifestObjectView>)
    ensures
        first_repeat(objects) is None <==> forall|a: int, b: int|
            0 <= a < b < objects.len() ==> (#[trigger] objects[a]).object_id != (
            #[trigger] objects[b]).object_id,
        first_repeat(objects) matches Some(id) ==> exists|a: int, b: int|
            0 <= a < b < objects.len() && (#[trigger] objects[a]).object_id == id && (
            #[trigger] objects[b]).object_id == id,
    decreases objects.len(),
{
    if objects.len() > 0 {
        let head = objects.drop_last();
        let last = objects.len() - 1;
        law_repeated_number_is_found(head);
        assert(forall|k: int| 0 <= k < head.len() ==> #[trigger] head[k] == objects[k]);
        if first_repeat(head) is Some {
            let id = first_repeat(head)->0;
            let (a, b) = choose|a: int, b: int|
                0 <= a < b < head.len() && (#[trigger] head[a]).object_id == id && (
                #[trigger] head[b]).object_id == id;
            assert(objects[a].object_id == id && objects[b].object_id == id);
        } else if exists|k: int|
            0 <= k < last && (#[trigger] objects[k]).object_id == objects.last().object_id {
            let k = choose|k: int|
                0 <= k < last && (#[trigger] objects[k]).object_id == objects.last().object_id;
            assert(objects[k].object_id == objects[last].object_id);
        } else {
            assert forall|a: int, b: int| 0 <= a < b < objects.len() implies (
            #[trigger] objects[a]).object_id != (#[trigger] objects[b]).object_id by {
                if b < last {
                    assert(head[a].object_id != head[b].object_id);
                }
            }
        }
    }
}

/// Ranges come in the order of their offsets.
pub open spec fn in_range_order(ranges: Seq<(u64, u64)>) -> bool {
    forall|i: int, j: int|
        0 <= i < j < ranges.len() ==> (#[trigger] ranges[i]).0 <= (#[trigger] ranges[j]).0
}

/// The offset and the length of a written range.
pub open spec fn range_of(row: WalView) -> (u64, u64) {
    (row.offset, row.len)
}

/// Ordering written ranges orders them by offset, and neither loses nor adds one.
pub proof fn law_ranges_come_in_order(rows: Seq<WalView>)
    ensures
        in_range_order(ordered_ranges(rows)),
        ordered_ranges(rows).to_multiset() == rows.map_values(
            |row: WalView| range_of(row),
        ).to_multiset(),
    decreases rows.len(),
{
    broadcast use vstd::seq_lib::group_to_multiset_ensures;

    let pairs = rows.map_values(|row: WalView| range_of(row));
    if rows.len() > 0 {
        let head = rows.drop_last();
        law_ranges_come_in_order(head);
        let ranges = ordered_ranges(head);
        let new = range_of(rows.last());
        let at = range_place(ranges, new.0);
        lemma_range_place(ranges, new.0);
        let all = ranges.insert(at, new);
        assert forall|i: int, j: int| 0 <= i < j < all.len() implies (#[trigger] all[i]).0 <= (
        #[trigger] all[j]).0 by {
            let p = if i < at {
                i
            } else {
                i - 1
            };
            let q = if j < at {
                j
            } else {
                j - 1
            };
            if i != at {
                assert(all[i] == ranges[p]);
            }
            if j != at {
                assert(all[j] == ranges[q]);
            }
        }
        vstd::seq_lib::to_multiset_insert(ranges, at, new);
        assert(pairs =~= head.map_values(|row: WalView| range_of(row)).push(new));
    } else {
        assert(pairs =~= Seq::<(u64, u64)>::empty());
    }
}

proof fn lemma_range_place(ranges: Seq<(u64, u64)>, offset: u64)
    requires
        in_range_order(ranges),
    ensures
        0 <= range_place(ranges, offset) <= ranges.len(),
        forall|k: int| 0 <= k < range_place(ranges, offset) ==> (#[trigger] ranges[k]).0 <= offset,
        forall|k: int|
            range_place(ranges, offset) <= k < ranges.len() ==> offset < (#[trigger] ranges[k]).0,
    decreases ranges.len(),
{
    if ranges.len() > 0 {
        let last = ranges.len() - 1;
        if ranges.last().0 <= offset {
            assert forall|k: int| 0 <= k < ranges.len() implies (#[trigger] ranges[k]).0
                <= offset by {
                if k < last {
                    assert(ranges[k].0 <= ranges[last].0);
                }
            }
        } else {
            let head = ranges.drop_last();
            assert forall|i: int, j: int| 0 <= i < j < head.len() implies (#[trigger] head[i]).0
                <= (#[trigger] head[j]).0 by {
                assert(ranges[i].0 <= ranges[j].0);
            }
            lemma_range_place(head, offset);
            assert forall|k: int| range_place(ranges, offset) <= k < ranges.len() implies offset < (
            #[trigger] ranges[k]).0 by {
                if k < last {
                    assert(head[k] == ranges[k]);
                }
            }
            assert forall|k: int| 0 <= k < range_place(ranges, offset) implies (
            #[trigger] ranges[k]).0 <= offset by {
                assert(head[k] == ranges[k]);
            }
        }
    }
}

/// Texts are ordered by the first character in which they differ; one that goes on where the
/// other ends comes behind it.
pub proof fn law_texts_are_ordered_by_the_first_difference(
    start: Seq<char>,
    left: Seq<char>,
    right: Seq<char>,
)
    ensures
        left.len() > 0 && right.len() > 0 && left[0] != right[0] ==> (text_before(
            start + left,
            start + right,
        ) <==> (left[0] as int) < (right[0] as int)),
        right.len() > 0 ==> text_before(start, start + right),
        !text_before(start + left, start),
    decreases start.len(),
{
    if start.len() > 0 {
        law_texts_are_ordered_by_the_first_difference(start.skip(1), left, right);
        assert((start + left).skip(1) =~= start.skip(1) + left);
        assert((start + right).skip(1) =~= start.skip(1) + right);
    } else {
        assert(start + left =~= left);
        assert(start + right =~= right);
    }
}

/// Dirty objects come in the order of their numbers, read as signed integers.
pub proof fn law_dirty_objects_come_in_signed_order(rows: Seq<DirtyView>, i: int, j: int)
    requires
        dirty_in_order(rows),
        0 <= i < j < rows.len(),
    ensures
        (rows[i].object_id as i64) < (rows[j].object_id as i64),
{
    let (a, b) = (rows[i].object_id, rows[j].object_id);
    assert(row_key(a) < row_key(b));
    assert(a < 0x8000_0000_0000_0000 ==> a as i64 == a) by (bit_vector);
    assert(b < 0x8000_0000_0000_0000 ==> b as i64 == b) by (bit_vector);
    assert(a >= 0x8000_0000_0000_0000 ==> a as i64 == a - 0x1_0000_0000_0000_0000) by (bit_vector);
    assert(b >= 0x8000_0000_0000_0000 ==> b as i64 == b - 0x1_0000_0000_0000_0000) by (bit_vector);
}

/// A row operation says when it was done, and what it is about: a manifest comes with the digest
/// of its encoded form, and a range with the digest of an object that was written.
pub open spec fn is_row_of(change: ChangeView, manifest: ManifestView, now: Seq<char>) -> bool {
    match change {
        ChangeView::ReplaceManifest { manifest: taken, hash, encoded, updated_at } => {
            &&& taken == manifest
            &&& hash == sha256_text(encoded)
            &&& updated_at == now
        },
        ChangeView::PutDirty { updated_at, .. } => updated_at == now,
        ChangeView::MergeWal { start, end, created_at, .. } => start <= end && created_at == now,
        ChangeView::PutCache { entry } => entry.last_access_at == now,
        ChangeView::RemoveCache { .. } => false,
        ChangeView::ClearDirtyAndWal => true,
    }
}

proof fn lemma_widened(
    rows: Seq<WalView>,
    object_id: u64,
    generation: u64,
    start: int,
    end: int,
)
    requires
        wal_fits(rows),
        0 <= start <= end <= i64::MAX,
    ensures
        ({
            let (low, high) = widened(rows, object_id, generation, start, end);
            0 <= low <= start && end <= high <= i64::MAX
        }),
    decreases rows.len(),
{
    if rows.len() > 0 {
        let head = rows.drop_last();
        assert forall|i: int| 0 <= i < head.len() implies (#[trigger] head[i]).offset + head[i].len
            <= i64::MAX by {
            assert(rows[i].offset + rows[i].len <= i64::MAX);
        }
        lemma_widened(head, object_id, generation, start, end);
        assert(rows[rows.len() - 1].offset + rows[rows.len() - 1].len <= i64::MAX);
    }
}

/// Marking an object dirty puts its row and one range, which has the row's number, generation and
/// digest and takes the written bytes in.
pub proof fn law_written_object_gets_row_and_range(
    store: StoreView,
    row: DirtyView,
    offset: u64,
    len: u64,
    now: Seq<char>,
)
    requires
        offset + len <= i64::MAX,
        wal_fits(store.wal),
    ensures
        ({
            let changes = dirty_changes(store, row, offset, len, now);
            &&& changes.len() == 2
            &&& changes[0] == (ChangeView::PutDirty { row, updated_at: now })
            &&& changes[1] matches ChangeView::MergeWal {
                object_id,
                generation,
                start,
                end,
                sha256,
                created_at,
            } && {
                &&& object_id == row.object_id
                &&& generation == row.generation
                &&& sha256 == row.sha256
                &&& created_at == now
                &&& start <= offset
                &&& offset + len <= end
            }
        }),
{
    lemma_widened(store.wal, row.object_id, row.generation, offset as int, offset + len);
}

/// Every row operation of a request carries the time of the reply that led to it, and says what
/// the device then is: reads put cache entries and nothing else; a flush takes the manifest over
/// with its digest, and clears what was dirty.
pub proof fn law_rows_say_when_and_what(
    device: DeviceView,
    op: OpView,
    reply: ReplyView,
    now: Seq<char>,
    k: int,
)
    requires
        wal_fits(device.store.wal),
        object_size(device) > 0,
        op matches OpView::Write { cursor, input, at, .. } ==> 0 <= cursor && 0 <= at
            < input.len(),
        0 <= k < resumed(device, op, reply, now).changes.len(),
    ensures
        ({
            let next = resumed(device, op, reply, now);
            &&& is_row_of(next.changes[k], next.device.manifest, now)
            &&& op is Read ==> next.changes[k] is PutCache
            &&& op is Flush ==> next.changes[k] is ReplaceManifest || next.changes[k]
                is ClearDirtyAndWal
        }),
{
    let next = resumed(device, op, reply, now);
    match op {
        OpView::Write { cursor, input, at, stage } => match stage {
            WriteStageView::Saving { generation, encoded } => {
                let span = span_at(device, cursor, input.len() - at);
                lemma_span(device, cursor, input.len() - at);
                let place = place_at(device, cursor);
                let id = object_at(device, cursor);
                let change = saving(device, id, generation, encoded, true, now);
                let row = DirtyView {
                    object_id: id,
                    generation,
                    cache_path: object_path(device.store.cache_dir, id, generation),
                    sha256: sha256_text(encoded),
                };
                let saved = changed(device.store, change);
                law_written_object_gets_row_and_range(
                    saved,
                    row,
                    place as u64,
                    span as u64,
                    now,
                );
                if reply is Done {
                    assert(next.changes =~= seq![change] + dirty_changes(
                        saved,
                        row,
                        place as u64,
                        span as u64,
                        now,
                    ));
                }
            },
            _ => {},
        },
        _ => {},
    }
}

/// What is evicted is named in full: each row operation takes one entry away, with its file.
pub proof fn law_eviction_names_entry_and_file(entries: Seq<CacheView>, i: int)
    requires
        0 <= i < entries.len(),
    ensures
        removals(entries).len() == entries.len(),
        removals(entries)[i] == (ChangeView::RemoveCache {
            object_id: entries[i].object_id,
            generation: entries[i].generation,
            cache_path: entries[i].cache_path,
        }),
{
}

/// A request that reaches beyond the device is refused at once, as a whole, and changes nothing.
/// One that does not is never refused for that.
pub proof fn law_requests_beyond_the_device_are_refused(
    device: DeviceView,
    offset: int,
    len: int,
    input: Seq<u8>,
)
    ensures
        offset + len > device.map.device_size ==> {
            let step = read_started(device, offset, len);
            &&& step.outcome == (OutcomeView::Refused { error: DeviceError::ReadOutOfBounds })
            &&& step.device == device
            &&& step.changes.len() == 0
        },
        offset + input.len() > device.map.device_size ==> {
            let step = write_started(device, offset, input);
            &&& step.outcome == (OutcomeView::Refused { error: DeviceError::WriteOutOfBounds })
            &&& step.device == device
            &&& step.changes.len() == 0
        },
        offset + input.len() <= device.map.device_size ==> write_started(
            device,
            offset,
            input,
        ).outcome != (OutcomeView::Refused { error: DeviceError::WriteOutOfBounds }),
{
}

} // verus!
