//! What holds of the local index through its operations.
use vstd::prelude::*;

use crate::cache::{
    cache_at, cache_keys_distinct, cache_without, changed_by, dirty_at, dirty_in_order, is_file_of,
    put_cache, put_dirty, touches, wal_apart, wal_fits, wal_merged, widened, CacheView, DirtyView,
    StoreView, WalView,
};
use crate::index::{
    access_place, by_access, dirty_changes, lemma_changed_by_push, lemma_changed_by_two, removal,
    removals, victims,
};
use crate::store::{
    clean_rows, lemma_cache_without, lemma_cache_without_one, lemma_put_dirty_in_order,
};
use crate::text::{lemma_text_order, text_before};

verus! {

/// A dirty object that was put in is the one found under its number; those under other
/// numbers are as before.
pub proof fn law_dirty_lookup(rows: Seq<DirtyView>, row: DirtyView, object_id: u64)
    ensures
        dirty_at(put_dirty(rows, row), object_id) == if object_id == row.object_id {
            Some(row)
        } else {
            dirty_at(rows, object_id)
        },
    decreases rows.len(),
{
    if rows.len() == 0 {
        assert(seq![row].drop_last() =~= rows);
    } else if rows.last().object_id == row.object_id {
        assert(rows.drop_last().push(row).drop_last() =~= rows.drop_last());
    } else if crate::cache::row_key(rows.last().object_id) < crate::cache::row_key(row.object_id) {
        assert(rows.push(row).drop_last() =~= rows);
    } else {
        let part = put_dirty(rows.drop_last(), row);
        assert(part.push(rows.last()).drop_last() =~= part);
        law_dirty_lookup(rows.drop_last(), row, object_id);
    }
}

/// A cache entry that was put in is the one found for its file; those for other files
/// are as before.
pub proof fn law_cache_lookup(rows: Seq<CacheView>, entry: CacheView, object_id: u64, generation: u64)
    ensures
        cache_at(put_cache(rows, entry), object_id, generation) == if is_file_of(
            entry,
            object_id,
            generation,
        ) {
            Some(entry)
        } else {
            cache_at(rows, object_id, generation)
        },
{
    let rest = cache_without(rows, entry.object_id, entry.generation);
    assert(rest.push(entry).drop_last() =~= rest);
    if !is_file_of(entry, object_id, generation) {
        lemma_cache_at_other(rows, entry.object_id, entry.generation, object_id, generation);
    }
}

/// Taking a file away leaves the entries for other files.
pub proof fn lemma_cache_at_other(
    rows: Seq<CacheView>,
    gone_id: u64,
    gone_generation: u64,
    object_id: u64,
    generation: u64,
)
    requires
        gone_id != object_id || gone_generation != generation,
    ensures
        cache_at(cache_without(rows, gone_id, gone_generation), object_id, generation) == cache_at(
            rows,
            object_id,
            generation,
        ),
    decreases rows.len(),
{
    reveal(Seq::filter);
    if rows.len() > 0 {
        lemma_cache_at_other(rows.drop_last(), gone_id, gone_generation, object_id, generation);
        let rest = cache_without(rows.drop_last(), gone_id, gone_generation);
        assert(rest.push(rows.last()).drop_last() =~= rest);
    }
}

/// The row is a range of the given generation of the given object, and holds the byte
/// at `at`.
pub open spec fn row_holds(row: WalView, object_id: u64, generation: u64, at: int) -> bool {
    row.object_id == object_id && row.generation == generation && row.offset <= at < row.offset
        + row.len
}

/// Some range holds the byte at `at` of the given generation of the given object.
pub open spec fn written(rows: Seq<WalView>, object_id: u64, generation: u64, at: int) -> bool {
    exists|k: int| 0 <= k < rows.len() && row_holds(#[trigger] rows[k], object_id, generation, at)
}

/// The rows are ranges of the same generation of the same object that overlap or
/// border on each other.
pub open spec fn rows_touch(left: WalView, right: WalView) -> bool {
    touches(
        left,
        right.object_id,
        right.generation,
        right.offset as int,
        right.offset + right.len,
    )
}

/// No two ranges of the same generation of an object overlap or border on each other.
pub open spec fn ranges_apart(rows: Seq<WalView>) -> bool {
    forall|i: int, j: int|
        0 <= i < j < rows.len() ==> !rows_touch(#[trigger] rows[i], #[trigger] rows[j])
}

/// The widened range reaches down to its own start or to that of a range that it
/// touches, and up to its own end or to that of a range that it touches; and it holds
/// every range that it touches.
proof fn lemma_widened(rows: Seq<WalView>, object_id: u64, generation: u64, start: int, end: int)
    requires
        start <= end,
    ensures
        ({
            let (low, high) = widened(rows, object_id, generation, start, end);
            &&& low <= start
            &&& end <= high
            &&& low == start || exists|k: int|
                0 <= k < rows.len() && touches(
                    #[trigger] rows[k],
                    object_id,
                    generation,
                    start,
                    end,
                ) && rows[k].offset == low
            &&& high == end || exists|k: int|
                0 <= k < rows.len() && touches(
                    #[trigger] rows[k],
                    object_id,
                    generation,
                    start,
                    end,
                ) && rows[k].offset + rows[k].len == high
            &&& forall|k: int|
                0 <= k < rows.len() && touches(
                    #[trigger] rows[k],
                    object_id,
                    generation,
                    start,
                    end,
                ) ==> low <= rows[k].offset && rows[k].offset + rows[k].len <= high
        }),
    decreases rows.len(),
{
    if rows.len() > 0 {
        let head = rows.drop_last();
        let last = rows.len() - 1;
        lemma_widened(head, object_id, generation, start, end);
        let (low, high) = widened(head, object_id, generation, start, end);
        let (new_low, new_high) = widened(rows, object_id, generation, start, end);
        if new_low != start {
            if new_low == low {
                let k = choose|k: int|
                    0 <= k < head.len() && touches(
                        #[trigger] head[k],
                        object_id,
                        generation,
                        start,
                        end,
                    ) && head[k].offset == low;
                assert(rows[k] == head[k]);
            } else {
                assert(touches(rows[last], object_id, generation, start, end));
            }
        }
        if new_high != end {
            if new_high == high {
                let k = choose|k: int|
                    0 <= k < head.len() && touches(
                        #[trigger] head[k],
                        object_id,
                        generation,
                        start,
                        end,
                    ) && head[k].offset + head[k].len == high;
                assert(rows[k] == head[k]);
            } else {
                assert(touches(rows[last], object_id, generation, start, end));
            }
        }
        assert forall|k: int|
            0 <= k < rows.len() && touches(
                #[trigger] rows[k],
                object_id,
                generation,
                start,
                end,
            ) implies new_low <= rows[k].offset && rows[k].offset + rows[k].len <= new_high by {
            if k < last {
                assert(head[k] == rows[k]);
            }
        }
    }
}

/// A range that touches the widened range touches the range itself, where no two
/// ranges touch each other.
proof fn lemma_widened_is_closed(
    rows: Seq<WalView>,
    object_id: u64,
    generation: u64,
    start: int,
    end: int,
    at: int,
)
    requires
        ranges_apart(rows),
        start <= end,
        0 <= at < rows.len(),
        ({
            let (low, high) = widened(rows, object_id, generation, start, end);
            touches(rows[at], object_id, generation, low, high)
        }),
    ensures
        touches(rows[at], object_id, generation, start, end),
{
    lemma_widened(rows, object_id, generation, start, end);
    let (low, high) = widened(rows, object_id, generation, start, end);
    let row = rows[at];
    if row.offset > end {
        let k = choose|k: int|
            0 <= k < rows.len() && touches(#[trigger] rows[k], object_id, generation, start, end)
                && rows[k].offset + rows[k].len == high;
        if k < at {
            assert(rows_touch(rows[k], rows[at]));
        } else {
            assert(rows_touch(rows[at], rows[k]));
        }
    }
    if row.offset + row.len < start {
        let k = choose|k: int|
            0 <= k < rows.len() && touches(#[trigger] rows[k], object_id, generation, start, end)
                && rows[k].offset == low;
        if k < at {
            assert(rows_touch(rows[k], rows[at]));
        } else {
            assert(rows_touch(rows[at], rows[k]));
        }
    }
}

/// The rows that a filter keeps are rows, and are as far apart.
proof fn lemma_kept_apart(rows: Seq<WalView>, keep: spec_fn(WalView) -> bool)
    requires
        ranges_apart(rows),
    ensures
        ranges_apart(rows.filter(keep)),
        forall|k: int|
            0 <= k < rows.filter(keep).len() ==> rows.contains(#[trigger] rows.filter(keep)[k]),
    decreases rows.len(),
{
    reveal(Seq::filter);
    if rows.len() > 0 {
        let head = rows.drop_last();
        assert forall|i: int, j: int| 0 <= i < j < head.len() implies !rows_touch(
            #[trigger] head[i],
            #[trigger] head[j],
        ) by {
            assert(!rows_touch(rows[i], rows[j]));
        }
        lemma_kept_apart(head, keep);
        let kept = head.filter(keep);
        assert forall|k: int| 0 <= k < kept.len() implies rows.contains(#[trigger] kept[k])
            && !rows_touch(kept[k], rows.last()) by {
            let m = choose|m: int| 0 <= m < head.len() && head[m] == kept[k];
            assert(rows[m] == kept[k]);
            assert(!rows_touch(rows[m], rows[rows.len() - 1]));
        }
        assert(rows[rows.len() - 1] == rows.last());
        assert forall|k: int| 0 <= k < rows.filter(keep).len() implies rows.contains(
            #[trigger] rows.filter(keep)[k],
        ) by {
            if k < kept.len() {
                assert(rows.filter(keep)[k] == kept[k]);
            }
        }
        assert forall|i: int, j: int| 0 <= i < j < rows.filter(keep).len() implies !rows_touch(
            #[trigger] rows.filter(keep)[i],
            #[trigger] rows.filter(keep)[j],
        ) by {
            assert(rows.filter(keep)[i] == kept[i]);
            if j < kept.len() {
                assert(rows.filter(keep)[j] == kept[j]);
            }
        }
    }
}

/// Where no two ranges touch, none do after one more was merged in, and exactly the bytes of
/// the ranges and of the new one are in them.
proof fn lemma_merged_apart(
    rows: Seq<WalView>,
    id: u64,
    gen: u64,
    start: int,
    end: int,
    sha256: Seq<char>,
)
    requires
        ranges_apart(rows),
        wal_fits(rows),
        0 <= start <= end <= i64::MAX,
    ensures
        ({
            let (low, high) = widened(rows, id, gen, start, end);
            let after = wal_merged(rows, id, gen, low, high, sha256);
            &&& 0 <= low <= high <= i64::MAX
            &&& ranges_apart(after)
            &&& forall|object_id: u64, generation: u64, at: int|
                #[trigger] written(after, object_id, generation, at) <==> written(
                    rows,
                    object_id,
                    generation,
                    at,
                ) || (object_id == id && generation == gen && start <= at < end)
        }),
{
    let (low, high) = widened(rows, id, gen, start, end);
    lemma_widened(rows, id, gen, start, end);
    if high != end {
        let k = choose|k: int|
            0 <= k < rows.len() && touches(#[trigger] rows[k], id, gen, start, end)
                && rows[k].offset + rows[k].len == high;
        assert(high <= i64::MAX);
    }
    let after = wal_merged(rows, id, gen, low, high, sha256);
    let keep = |r: WalView| !touches(r, id, gen, low, high);
    let kept = rows.filter(keep);
    assert(wal_apart(rows, id, gen, low, high) == kept);
    lemma_kept_apart(rows, keep);
    let last = after.len() - 1;
    assert(after[last].offset == low && after[last].len == high - low);
    assert forall|i: int, j: int| 0 <= i < j < after.len() implies !rows_touch(
        #[trigger] after[i],
        #[trigger] after[j],
    ) by {
        assert(after[i] == kept[i]);
        if j < last {
            assert(after[j] == kept[j]);
        } else {
            rows.lemma_filter_pred(keep, i);
        }
    }
    assert forall|object_id: u64, generation: u64, at: int| #[trigger]
        written(after, object_id, generation, at) <==> written(rows, object_id, generation, at) || (
    object_id == id && generation == gen && start <= at < end) by {
        if written(after, object_id, generation, at) {
            let k = choose|k: int|
                0 <= k < after.len() && row_holds(#[trigger] after[k], object_id, generation, at);
            if k < last {
                assert(rows.contains(kept[k]));
                let m = choose|m: int| 0 <= m < rows.len() && rows[m] == kept[k];
                assert(row_holds(rows[m], object_id, generation, at));
            } else if at < start {
                let m = choose|m: int|
                    0 <= m < rows.len() && touches(#[trigger] rows[m], id, gen, start, end)
                        && rows[m].offset == low;
                assert(row_holds(rows[m], object_id, generation, at));
            } else if at >= end {
                let m = choose|m: int|
                    0 <= m < rows.len() && touches(#[trigger] rows[m], id, gen, start, end)
                        && rows[m].offset + rows[m].len == high;
                assert(row_holds(rows[m], object_id, generation, at));
            }
        }
        if written(rows, object_id, generation, at) {
            let k = choose|k: int|
                0 <= k < rows.len() && row_holds(#[trigger] rows[k], object_id, generation, at);
            if keep(rows[k]) {
                rows.lemma_filter_contains(keep, k);
                let m = choose|m: int| 0 <= m < kept.len() && kept[m] == rows[k];
                assert(after[m] == kept[m]);
                assert(row_holds(after[m], object_id, generation, at));
            } else {
                lemma_widened_is_closed(rows, id, gen, start, end, k);
                assert(row_holds(after[last], object_id, generation, at));
            }
        }
        if object_id == id && generation == gen && start <= at < end {
            assert(row_holds(after[last], object_id, generation, at));
        }
    }
}

/// The ranges of a generation of an object.
pub open spec fn ranges_of(rows: Seq<WalView>, object_id: u64, generation: u64) -> Seq<WalView> {
    rows.filter(|row: WalView| row.object_id == object_id && row.generation == generation)
}

/// It does not matter which of two filters comes first; and one that keeps all that the other
/// keeps does nothing beside it.
proof fn lemma_filters(
    rows: Seq<WalView>,
    keep: spec_fn(WalView) -> bool,
    mine: spec_fn(WalView) -> bool,
)
    ensures
        rows.filter(keep).filter(mine) == rows.filter(mine).filter(keep),
        (forall|row: WalView| #[trigger] mine(row) ==> keep(row)) ==> rows.filter(keep).filter(mine)
            == rows.filter(mine),
    decreases rows.len(),
{
    reveal(Seq::filter);
    if rows.len() > 0 {
        let head = rows.drop_last();
        let last = rows.last();
        lemma_filters(head, keep, mine);
        assert(head.filter(keep).push(last).drop_last() =~= head.filter(keep));
        assert(head.filter(mine).push(last).drop_last() =~= head.filter(mine));
    }
}

/// A range is widened by ranges of its own generation of its own object alone.
proof fn lemma_widened_by_own(
    rows: Seq<WalView>,
    object_id: u64,
    generation: u64,
    start: int,
    end: int,
)
    ensures
        widened(rows, object_id, generation, start, end) == widened(
            ranges_of(rows, object_id, generation),
            object_id,
            generation,
            start,
            end,
        ),
    decreases rows.len(),
{
    reveal(Seq::filter);
    if rows.len() > 0 {
        let head = rows.drop_last();
        lemma_widened_by_own(head, object_id, generation, start, end);
        let own = ranges_of(head, object_id, generation);
        assert(own.push(rows.last()).drop_last() =~= own);
    }
}

/// What is written of a generation of an object is in its own ranges.
pub proof fn lemma_written_in_own(rows: Seq<WalView>, object_id: u64, generation: u64, at: int)
    ensures
        written(rows, object_id, generation, at) <==> written(
            ranges_of(rows, object_id, generation),
            object_id,
            generation,
            at,
        ),
{
    let mine = |row: WalView| row.object_id == object_id && row.generation == generation;
    let own = rows.filter(mine);
    assert(ranges_of(rows, object_id, generation) == own);
    if written(rows, object_id, generation, at) {
        let k = choose|k: int|
            0 <= k < rows.len() && row_holds(#[trigger] rows[k], object_id, generation, at);
        rows.lemma_filter_contains(mine, k);
        let m = choose|m: int| 0 <= m < own.len() && own[m] == rows[k];
        assert(row_holds(own[m], object_id, generation, at));
    }
    if written(own, object_id, generation, at) {
        let k = choose|k: int|
            0 <= k < own.len() && row_holds(#[trigger] own[k], object_id, generation, at);
        rows.lemma_filter_contains_rev(mine, own[k]);
        let m = choose|m: int| 0 <= m < rows.len() && rows[m] == own[k];
        assert(row_holds(rows[m], object_id, generation, at));
    }
}

/// Merging a range in leaves the ranges of other objects and generations, and is merging it
/// into those of its own.
proof fn lemma_merged_in_own(
    rows: Seq<WalView>,
    id: u64,
    gen: u64,
    low: int,
    high: int,
    sha256: Seq<char>,
    object_id: u64,
    generation: u64,
)
    ensures
        ranges_of(wal_merged(rows, id, gen, low, high, sha256), object_id, generation) == if id
            == object_id && gen == generation {
            wal_merged(ranges_of(rows, id, gen), id, gen, low, high, sha256)
        } else {
            ranges_of(rows, object_id, generation)
        },
{
    reveal(Seq::filter);
    let keep = |row: WalView| !touches(row, id, gen, low, high);
    let mine = |row: WalView| row.object_id == object_id && row.generation == generation;
    lemma_filters(rows, keep, mine);
    let kept = rows.filter(keep);
    assert(wal_apart(rows, id, gen, low, high) == kept);
    let after = wal_merged(rows, id, gen, low, high, sha256);
    assert(after.drop_last() =~= kept);
    assert(ranges_of(rows, object_id, generation) == rows.filter(mine));
    assert(ranges_of(after, object_id, generation) == after.filter(mine));
    assert(wal_apart(rows.filter(mine), id, gen, low, high) == rows.filter(mine).filter(keep));
}

/// Marking an object dirty coalesces the ranges written in its generation: where no two of
/// them touch, none do afterwards, and exactly the bytes written before and the bytes written
/// now are recorded as written. The ranges of every other object and generation stay as they
/// are. The object is then found under its number as it was marked, every other one as
/// before, and no number has two records where none had.
pub proof fn law_written_ranges_coalesce(
    store: StoreView,
    row: DirtyView,
    offset: u64,
    len: u64,
    now: Seq<char>,
)
    requires
        ranges_apart(ranges_of(store.wal, row.object_id, row.generation)),
        offset + len <= i64::MAX,
        wal_fits(store.wal),
    ensures
        ({
            let after = changed_by(store, dirty_changes(store, row, offset, len, now));
            &&& ranges_apart(ranges_of(after.wal, row.object_id, row.generation))
            &&& forall|at: int|
                #[trigger] written(after.wal, row.object_id, row.generation, at) <==> written(
                    store.wal,
                    row.object_id,
                    row.generation,
                    at,
                ) || offset <= at < offset + len
            &&& forall|object_id: u64, generation: u64|
                object_id != row.object_id || generation != row.generation
                    ==> #[trigger] ranges_of(after.wal, object_id, generation) == ranges_of(
                    store.wal,
                    object_id,
                    generation,
                )
            &&& forall|object_id: u64| #[trigger]
                dirty_at(after.dirty, object_id) == if object_id == row.object_id {
                    Some(row)
                } else {
                    dirty_at(store.dirty, object_id)
                }
            &&& dirty_in_order(store.dirty) ==> dirty_in_order(after.dirty)
            &&& wal_fits(after.wal)
        }),
{
    let rows = store.wal;
    let id = row.object_id;
    let gen = row.generation;
    let start = offset as int;
    let end = offset + len;
    let own = ranges_of(rows, id, gen);
    let mine = |row: WalView| row.object_id == id && row.generation == gen;
    assert(own == rows.filter(mine));
    assert forall|i: int| 0 <= i < own.len() implies (#[trigger] own[i]).offset + own[i].len
        <= i64::MAX by {
        rows.lemma_filter_contains_rev(mine, own[i]);
        let m = choose|m: int| 0 <= m < rows.len() && rows[m] == own[i];
        assert(rows[m].offset + rows[m].len <= i64::MAX);
    }
    lemma_merged_apart(own, id, gen, start, end, row.sha256);
    lemma_widened_by_own(rows, id, gen, start, end);
    let (low, high) = widened(rows, id, gen, start, end);
    let changes = dirty_changes(store, row, offset, len, now);
    lemma_changed_by_two(store, changes[0], changes[1]);
    assert(changes =~= seq![changes[0], changes[1]]);
    let after = changed_by(store, changes);
    assert(after.wal == wal_merged(rows, id, gen, low, high, row.sha256));
    lemma_merged_in_own(rows, id, gen, low, high, row.sha256, id, gen);
    assert forall|at: int| #[trigger]
        written(after.wal, id, gen, at) <==> written(rows, id, gen, at) || start <= at < end by {
        lemma_written_in_own(after.wal, id, gen, at);
        lemma_written_in_own(rows, id, gen, at);
    }
    assert forall|object_id: u64, generation: u64|
        object_id != id || generation != gen implies #[trigger] ranges_of(
        after.wal,
        object_id,
        generation,
    ) == ranges_of(rows, object_id, generation) by {
        lemma_merged_in_own(rows, id, gen, low, high, row.sha256, object_id, generation);
    }
    assert forall|i: int| 0 <= i < after.wal.len() implies (#[trigger] after.wal[i]).offset
        + after.wal[i].len <= i64::MAX by {
        let keep = |r: WalView| !touches(r, id, gen, low, high);
        let kept = rows.filter(keep);
        assert(wal_apart(rows, id, gen, low, high) == kept);
        if i < kept.len() {
            assert(after.wal[i] == kept[i]);
            rows.lemma_filter_contains_rev(keep, kept[i]);
            let m = choose|m: int| 0 <= m < rows.len() && rows[m] == kept[i];
            assert(rows[m].offset + rows[m].len <= i64::MAX);
        }
    }
    assert(after.dirty == put_dirty(store.dirty, row));
    assert forall|object_id: u64| #[trigger]
        dirty_at(after.dirty, object_id) == if object_id == id {
            Some(row)
        } else {
            dirty_at(store.dirty, object_id)
        } by {
        law_dirty_lookup(store.dirty, row, object_id);
    }
    if dirty_in_order(store.dirty) {
        lemma_put_dirty_in_order(store.dirty, row);
    }
}

/// Cache entries stand in the order of the texts of their last access.
pub open spec fn access_ordered(entries: Seq<CacheView>) -> bool {
    forall|i: int, j: int|
        0 <= i < j < entries.len() ==> !text_before(
            (#[trigger] entries[j]).last_access_at,
            (#[trigger] entries[i]).last_access_at,
        )
}

/// Where an entry goes, the text of the last access is not above its own in all entries
/// before it, and is above it in all behind.
proof fn lemma_access_place(entries: Seq<CacheView>, accessed: Seq<char>)
    requires
        access_ordered(entries),
    ensures
        ({
            let at = access_place(entries, accessed);
            &&& 0 <= at <= entries.len()
            &&& forall|k: int|
                0 <= k < at ==> !text_before(accessed, (#[trigger] entries[k]).last_access_at)
            &&& forall|k: int|
                at <= k < entries.len() ==> text_before(
                    accessed,
                    (#[trigger] entries[k]).last_access_at,
                )
        }),
    decreases entries.len(),
{
    if entries.len() > 0 {
        let last = entries.last();
        if text_before(accessed, last.last_access_at) {
            let head = entries.drop_last();
            assert forall|i: int, j: int| 0 <= i < j < head.len() implies !text_before(
                (#[trigger] head[j]).last_access_at,
                (#[trigger] head[i]).last_access_at,
            ) by {
                assert(head[i] == entries[i] && head[j] == entries[j]);
            }
            lemma_access_place(head, accessed);
            let at = access_place(entries, accessed);
            assert forall|k: int| 0 <= k < at implies !text_before(
                accessed,
                (#[trigger] entries[k]).last_access_at,
            ) by {
                assert(entries[k] == head[k]);
            }
            assert forall|k: int| at <= k < entries.len() implies text_before(
                accessed,
                (#[trigger] entries[k]).last_access_at,
            ) by {
                if k < head.len() {
                    assert(entries[k] == head[k]);
                }
            }
        } else {
            assert forall|k: int| 0 <= k < entries.len() implies !text_before(
                accessed,
                (#[trigger] entries[k]).last_access_at,
            ) by {
                if k < entries.len() - 1 {
                    assert(!text_before(
                        entries[entries.len() - 1].last_access_at,
                        entries[k].last_access_at,
                    ));
                    lemma_text_order(
                        accessed,
                        entries[k].last_access_at,
                        last.last_access_at,
                    );
                    lemma_text_order(entries[k].last_access_at, last.last_access_at, accessed);
                }
            }
        }
    }
}

/// Ordering cache entries by the text of the last access orders them, and neither loses nor adds
/// an entry.
pub proof fn law_access_order(entries: Seq<CacheView>)
    ensures
        access_ordered(by_access(entries)),
        by_access(entries).to_multiset() == entries.to_multiset(),
    decreases entries.len(),
{
    broadcast use vstd::seq_lib::group_to_multiset_ensures;

    if entries.len() > 0 {
        let head = entries.drop_last();
        let last = entries.last();
        law_access_order(head);
        let ordered = by_access(head);
        let at = access_place(ordered, last.last_access_at);
        lemma_access_place(ordered, last.last_access_at);
        let all = ordered.insert(at, last);
        assert forall|i: int, j: int| 0 <= i < j < all.len() implies !text_before(
            (#[trigger] all[j]).last_access_at,
            (#[trigger] all[i]).last_access_at,
        ) by {
            let p = if i < at { i } else { i - 1 };
            let q = if j < at { j } else { j - 1 };
            if i != at && j != at {
                assert(all[i] == ordered[p] && all[j] == ordered[q]);
            } else if i == at {
                assert(all[j] == ordered[q]);
                lemma_text_order(
                    last.last_access_at,
                    ordered[q].last_access_at,
                    last.last_access_at,
                );
            } else {
                assert(all[i] == ordered[p]);
            }
        }
        vstd::seq_lib::to_multiset_insert(ordered, at, last);
        assert(head.push(last) =~= entries);
    }
}

/// The cache entries after those for the files of `gone` were taken away.
spec fn removed(rows: Seq<CacheView>, gone: Seq<CacheView>) -> Seq<CacheView>
    decreases gone.len(),
{
    if gone.len() == 0 {
        rows
    } else {
        cache_without(
            removed(rows, gone.drop_last()),
            gone.last().object_id,
            gone.last().generation,
        )
    }
}

proof fn lemma_removals(store: StoreView, gone: Seq<CacheView>)
    ensures
        changed_by(store, removals(gone)) == (StoreView {
            cache: removed(store.cache, gone),
            ..store
        }),
    decreases gone.len(),
{
    if gone.len() > 0 {
        lemma_removals(store, gone.drop_last());
        lemma_changed_by_push(store, removals(gone.drop_last()), removal(gone.last()));
        assert(removals(gone) =~= removals(gone.drop_last()).push(removal(gone.last())));
    }
}

proof fn lemma_clean_rows(rows: Seq<CacheView>)
    requires
        cache_keys_distinct(rows),
    ensures
        cache_keys_distinct(clean_rows(rows)),
        forall|row: CacheView| #[trigger]
            clean_rows(rows).contains(row) <==> rows.contains(row) && !row.dirty,
    decreases rows.len(),
{
    reveal(Seq::filter);
    if rows.len() > 0 {
        let head = rows.drop_last();
        let last = rows.last();
        assert forall|i: int, j: int| 0 <= i < j < head.len() implies !is_file_of(
            #[trigger] head[i],
            (#[trigger] head[j]).object_id,
            head[j].generation,
        ) by {
            assert(!is_file_of(rows[i], rows[j].object_id, rows[j].generation));
        }
        lemma_clean_rows(head);
        let part = clean_rows(head);
        let all = clean_rows(rows);
        assert(rows =~= head.push(last));
        assert forall|row: CacheView| #[trigger] all.contains(row) <==> rows.contains(row)
            && !row.dirty by {
            if all.contains(row) {
                let k = choose|k: int| 0 <= k < all.len() && all[k] == row;
                if k < part.len() {
                    assert(part[k] == row);
                    assert(part.contains(row));
                    let m = choose|m: int| 0 <= m < head.len() && head[m] == row;
                    assert(rows[m] == row);
                } else {
                    assert(rows[rows.len() - 1] == row);
                }
            }
            if rows.contains(row) && !row.dirty {
                let m = choose|m: int| 0 <= m < rows.len() && rows[m] == row;
                if m < head.len() {
                    assert(head[m] == row);
                    assert(part.contains(row));
                    let k = choose|k: int| 0 <= k < part.len() && part[k] == row;
                    assert(all[k] == row);
                } else {
                    assert(all[all.len() - 1] == row);
                }
            }
        }
        assert forall|i: int, j: int| 0 <= i < j < all.len() implies !is_file_of(
            #[trigger] all[i],
            (#[trigger] all[j]).object_id,
            all[j].generation,
        ) by {
            assert(all[i] == part[i]);
            if j < part.len() {
                assert(all[j] == part[j]);
            } else {
                assert(part.contains(part[i]));
                let m = choose|m: int| 0 <= m < head.len() && head[m] == part[i];
                assert(!is_file_of(
                    rows[m],
                    rows[rows.len() - 1].object_id,
                    rows[rows.len() - 1].generation,
                ));
            }
        }
    }
}

proof fn lemma_clean_count_without(rows: Seq<CacheView>, at: int)
    requires
        0 <= at < rows.len(),
        !rows[at].dirty,
    ensures
        clean_rows(rows.remove(at)).len() == clean_rows(rows).len() - 1,
{
    let clean = |row: CacheView| !row.dirty;
    let before = rows.take(at);
    let behind = rows.skip(at + 1);
    let one = seq![rows[at]];
    assert(rows =~= before + one + behind);
    assert(rows.remove(at) =~= before + behind);
    Seq::filter_distributes_over_add(before + one, behind, clean);
    Seq::filter_distributes_over_add(before, one, clean);
    Seq::filter_distributes_over_add(before, behind, clean);
    assert(one.filter(clean).len() == 1) by {
        reveal(Seq::filter);
        reveal_with_fuel(Seq::filter, 2);
        assert(one.drop_last() =~= Seq::<CacheView>::empty());
    }
}

proof fn lemma_removed(rows: Seq<CacheView>, gone: Seq<CacheView>)
    requires
        cache_keys_distinct(rows),
        cache_keys_distinct(gone),
        forall|k: int|
            0 <= k < gone.len() ==> rows.contains(#[trigger] gone[k]) && !gone[k].dirty,
    ensures
        cache_keys_distinct(removed(rows, gone)),
        clean_rows(removed(rows, gone)).len() == clean_rows(rows).len() - gone.len(),
        forall|row: CacheView| #[trigger]
            removed(rows, gone).contains(row) <==> rows.contains(row) && forall|k: int|
                0 <= k < gone.len() ==> !is_file_of(
                    row,
                    (#[trigger] gone[k]).object_id,
                    gone[k].generation,
                ),
    decreases gone.len(),
{
    if gone.len() > 0 {
        let head = gone.drop_last();
        let last = gone.last();
        let n = gone.len() - 1;
        assert forall|i: int, j: int| 0 <= i < j < head.len() implies !is_file_of(
            #[trigger] head[i],
            (#[trigger] head[j]).object_id,
            head[j].generation,
        ) by {
            assert(!is_file_of(gone[i], gone[j].object_id, gone[j].generation));
        }
        assert forall|k: int| 0 <= k < head.len() implies rows.contains(#[trigger] head[k])
            && !head[k].dirty by {
            assert(head[k] == gone[k]);
        }
        lemma_removed(rows, head);
        let rest = removed(rows, head);
        assert(gone[n] == last);
        assert(rest.contains(last)) by {
            assert forall|k: int| 0 <= k < head.len() implies !is_file_of(
                last,
                (#[trigger] head[k]).object_id,
                head[k].generation,
            ) by {
                assert(!is_file_of(gone[k], gone[n].object_id, gone[n].generation));
            }
        }
        let at = choose|m: int| 0 <= m < rest.len() && rest[m] == last;
        lemma_cache_without_one(rest, last.object_id, last.generation, at);
        lemma_cache_without(rest, last.object_id, last.generation);
        lemma_clean_count_without(rest, at);
        let after = removed(rows, gone);
        assert forall|row: CacheView| #[trigger] after.contains(row) <==> rows.contains(row)
            && forall|k: int|
            0 <= k < gone.len() ==> !is_file_of(
                row,
                (#[trigger] gone[k]).object_id,
                gone[k].generation,
            ) by {
            if after.contains(row) {
                let m = choose|m: int| 0 <= m < after.len() && after[m] == row;
                let p = if m < at { m } else { m + 1 };
                assert(rest[p] == row);
                assert(rest.contains(row));
                assert forall|k: int| 0 <= k < gone.len() implies !is_file_of(
                    row,
                    (#[trigger] gone[k]).object_id,
                    gone[k].generation,
                ) by {
                    if k < n {
                        assert(head[k] == gone[k]);
                    }
                }
            }
            if rows.contains(row) && forall|k: int|
                0 <= k < gone.len() ==> !is_file_of(
                    row,
                    (#[trigger] gone[k]).object_id,
                    gone[k].generation,
                ) {
                assert forall|k: int| 0 <= k < head.len() implies !is_file_of(
                    row,
                    (#[trigger] head[k]).object_id,
                    head[k].generation,
                ) by {
                    assert(head[k] == gone[k]);
                }
                assert(rest.contains(row));
                let p = choose|p: int| 0 <= p < rest.len() && rest[p] == row;
                assert(!is_file_of(row, gone[n].object_id, gone[n].generation));
                let m = if p < at { p } else { p - 1 };
                assert(after[m] == row);
            }
        }
    }
}

/// Eviction never takes a dirty entry. It leaves at most as many clean entries as
/// asked for, takes none where there are no more than that, and what it takes is, by the
/// text of the last access, not above any clean entry that stays.
pub proof fn law_eviction_spares_dirty_and_recent(store: StoreView, max_entries: int)
    requires
        cache_keys_distinct(store.cache),
        max_entries >= 0,
    ensures
        ({
            let gone = victims(store.cache, max_entries);
            let after = changed_by(store, removals(gone)).cache;
            let count = clean_rows(store.cache).len();
            &&& forall|k: int|
                0 <= k < gone.len() ==> store.cache.contains(#[trigger] gone[k]) && !gone[k].dirty
            &&& forall|row: CacheView| #[trigger]
                store.cache.contains(row) && row.dirty ==> after.contains(row)
            &&& forall|row: CacheView| #[trigger] after.contains(row) ==> store.cache.contains(row)
            &&& clean_rows(after).len() == if count <= max_entries {
                count as int
            } else {
                max_entries
            }
            &&& forall|stays: CacheView, k: int|
                #![trigger after.contains(stays), gone[k]]
                after.contains(stays) && !stays.dirty && 0 <= k < gone.len() ==> !text_before(
                    stays.last_access_at,
                    gone[k].last_access_at,
                )
        }),
{
    broadcast use vstd::seq_lib::group_to_multiset_ensures;

    let rows = store.cache;
    let clean = clean_rows(rows);
    let gone = victims(rows, max_entries);
    let ordered = by_access(clean);
    let after = changed_by(store, removals(gone)).cache;
    lemma_removals(store, gone);
    lemma_clean_rows(rows);
    law_access_order(clean);
    assert(ordered.len() == clean.len()) by {
        assert(ordered.to_multiset().len() == clean.to_multiset().len());
    }
    assert forall|k: int| 0 <= k < ordered.len() implies clean.contains(#[trigger] ordered[k]) by {
        assert(ordered.contains(ordered[k]));
        assert(ordered.to_multiset().count(ordered[k]) > 0);
        assert(clean.to_multiset().count(ordered[k]) > 0);
    }
    assert(clean.no_duplicates()) by {
        assert forall|i: int, j: int| 0 <= i < j < clean.len() implies clean[i] != clean[j] by {
            assert(!is_file_of(clean[i], clean[j].object_id, clean[j].generation));
        }
    }
    clean.lemma_multiset_has_no_duplicates();
    assert(ordered.no_duplicates()) by {
        ordered.lemma_multiset_has_no_duplicates_conv();
    }
    assert forall|i: int, j: int| 0 <= i < j < ordered.len() implies !is_file_of(
        #[trigger] ordered[i],
        (#[trigger] ordered[j]).object_id,
        ordered[j].generation,
    ) by {
        assert(clean.contains(ordered[i]) && clean.contains(ordered[j]));
        let p = choose|p: int| 0 <= p < clean.len() && clean[p] == ordered[i];
        let q = choose|q: int| 0 <= q < clean.len() && clean[q] == ordered[j];
        assert(ordered[i] != ordered[j]);
        if p < q {
            assert(!is_file_of(clean[p], clean[q].object_id, clean[q].generation));
        } else {
            assert(!is_file_of(clean[q], clean[p].object_id, clean[p].generation));
        }
    }
    assert forall|k: int| 0 <= k < gone.len() implies rows.contains(#[trigger] gone[k])
        && !gone[k].dirty by {
        assert(gone[k] == ordered[k]);
        assert(clean.contains(ordered[k]));
    }
    assert forall|i: int, j: int| 0 <= i < j < gone.len() implies !is_file_of(
        #[trigger] gone[i],
        (#[trigger] gone[j]).object_id,
        gone[j].generation,
    ) by {
        assert(gone[i] == ordered[i] && gone[j] == ordered[j]);
    }
    lemma_removed(rows, gone);
    assert forall|row: CacheView| #[trigger]
        rows.contains(row) && row.dirty implies after.contains(row) by {
        let m = choose|m: int| 0 <= m < rows.len() && rows[m] == row;
        assert forall|k: int| 0 <= k < gone.len() implies !is_file_of(
            row,
            (#[trigger] gone[k]).object_id,
            gone[k].generation,
        ) by {
            let p = choose|p: int| 0 <= p < rows.len() && rows[p] == gone[k];
            if m < p {
                assert(!is_file_of(rows[m], rows[p].object_id, rows[p].generation));
            } else {
                assert(!is_file_of(rows[p], rows[m].object_id, rows[m].generation));
            }
        }
    }
    assert forall|stays: CacheView, k: int|
        #![trigger after.contains(stays), gone[k]]
        after.contains(stays) && !stays.dirty && 0 <= k < gone.len() implies !text_before(
        stays.last_access_at,
        gone[k].last_access_at,
    ) by {
        assert(clean.contains(stays));
        assert(clean.to_multiset().count(stays) > 0);
        assert(ordered.to_multiset().count(stays) > 0);
        assert(ordered.contains(stays));
        let m = choose|m: int| 0 <= m < ordered.len() && ordered[m] == stays;
        if m < gone.len() {
            assert(gone[m] == stays);
        }
        assert(gone[k] == ordered[k]);
    }
}

} // verus!
