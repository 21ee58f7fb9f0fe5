//! What holds of manifests that are stored as trees.
use vstd::prelude::*;

use crate::manifest::{
    empty_manifest, entry_index, joined_objects, leaf_error, leaf_magic, leaf_place, leaves_error,
    lemma_entry_index_is, manifest_leaves, manifest_magic, nth_leaf, nth_run, numbered_in_order,
    ordered_leaves, run_count, tree_manifest, ManifestObjectView, ManifestTreeError, ManifestView,
    TreeLeafView, TreeRootView,
};

verus! {

/// The leaves come in the order of their indices.
pub open spec fn in_leaf_order(leaves: Seq<TreeLeafView>) -> bool {
    forall|i: int, j: int|
        0 <= i <= j < leaves.len() ==> #[trigger] leaves[i].leaf_index
            <= #[trigger] leaves[j].leaf_index
}

proof fn lemma_leaf_place_splits(ordered: Seq<TreeLeafView>, leaf_index: u64)
    requires
        in_leaf_order(ordered),
    ensures
        0 <= leaf_place(ordered, leaf_index) <= ordered.len(),
        forall|k: int|
            0 <= k < leaf_place(ordered, leaf_index) ==> #[trigger] ordered[k].leaf_index
                <= leaf_index,
        forall|k: int|
            leaf_place(ordered, leaf_index) <= k < ordered.len() ==> leaf_index
                < #[trigger] ordered[k].leaf_index,
    decreases ordered.len(),
{
    if ordered.len() == 0 || ordered.last().leaf_index <= leaf_index {
        assert forall|k: int| 0 <= k < ordered.len() implies #[trigger] ordered[k].leaf_index
            <= leaf_index by {
            assert(ordered[k].leaf_index <= ordered[ordered.len() - 1].leaf_index);
        }
    } else {
        let shorter = ordered.drop_last();
        assert(in_leaf_order(shorter));
        lemma_leaf_place_splits(shorter, leaf_index);
        assert forall|k: int| 0 <= k < shorter.len() implies #[trigger] ordered[k]
            == shorter[k] by {}
    }
}

/// Ordering leaves loses none, adds none, and puts them in the order of their
/// indices.
pub proof fn law_ordered_leaves(leaves: Seq<TreeLeafView>)
    ensures
        ordered_leaves(leaves).to_multiset() == leaves.to_multiset(),
        in_leaf_order(ordered_leaves(leaves)),
    decreases leaves.len(),
{
    if leaves.len() > 0 {
        let ordered = ordered_leaves(leaves.drop_last());
        let leaf = leaves.last();
        law_ordered_leaves(leaves.drop_last());
        let at = leaf_place(ordered, leaf.leaf_index);
        lemma_leaf_place_splits(ordered, leaf.leaf_index);
        let result = ordered.insert(at, leaf);
        vstd::seq_lib::to_multiset_insert(ordered, at, leaf);
        vstd::seq_lib::to_multiset_build(leaves.drop_last(), leaf);
        assert(leaves.drop_last().push(leaf) =~= leaves);
        assert forall|i: int, j: int| 0 <= i <= j < result.len() implies #[trigger] result[i].leaf_index
            <= #[trigger] result[j].leaf_index by {
            if i < at {
                assert(result[i] == ordered[i]);
            } else if i > at {
                assert(result[i] == ordered[i - 1]);
            }
            if j < at {
                assert(result[j] == ordered[j]);
            } else if j > at {
                assert(result[j] == ordered[j - 1]);
            }
        }
    }
}

/// Two ordered runs of the same leaves are the same run, where no index repeats.
proof fn lemma_order_is_unique(a: Seq<TreeLeafView>, b: Seq<TreeLeafView>)
    requires
        in_leaf_order(a),
        forall|i: int, j: int|
            0 <= i < j < b.len() ==> #[trigger] b[i].leaf_index < #[trigger] b[j].leaf_index,
        a.to_multiset() == b.to_multiset(),
    ensures
        a == b,
    decreases b.len(),
{
    a.to_multiset_ensures();
    b.to_multiset_ensures();
    assert(a.len() == b.len());
    if b.len() > 0 {
        let n = b.len() - 1;
        assert(a.contains(a[n]));
        assert(b.contains(b[n]));
        assert(a.to_multiset().count(a[n]) > 0);
        assert(b.to_multiset().count(b[n]) > 0);
        assert(b.contains(a[n]));
        assert(a.contains(b[n]));
        let i = choose|i: int| 0 <= i < b.len() && b[i] == a[n];
        let j = choose|j: int| 0 <= j < a.len() && a[j] == b[n];
        assert(a[j].leaf_index <= a[n].leaf_index);
        assert(i == n);
        assert(a[n] == b[n]);
        assert(a.remove(n) =~= a.drop_last());
        assert(b.remove(n) =~= b.drop_last());
        assert(a.remove(n).to_multiset() == a.to_multiset().remove(a[n]));
        assert(b.remove(n).to_multiset() == b.to_multiset().remove(b[n]));
        assert forall|p: int, q: int| 0 <= p <= q < n implies #[trigger] a.drop_last()[p].leaf_index
            <= #[trigger] a.drop_last()[q].leaf_index by {
            assert(a[p].leaf_index <= a[q].leaf_index);
        }
        assert forall|p: int, q: int| 0 <= p < q < n implies #[trigger] b.drop_last()[p].leaf_index
            < #[trigger] b.drop_last()[q].leaf_index by {
            assert(b[p].leaf_index < b[q].leaf_index);
        }
        lemma_order_is_unique(a.drop_last(), b.drop_last());
        assert(a =~= a.drop_last().push(a[n]));
        assert(b =~= b.drop_last().push(b[n]));
    } else {
        assert(a =~= b);
    }
}

/// No two leaves have the same index.
pub open spec fn indices_distinct(leaves: Seq<TreeLeafView>) -> bool {
    forall|i: int, j: int|
        0 <= i < j < leaves.len() ==> #[trigger] leaves[i].leaf_index
            != #[trigger] leaves[j].leaf_index
}

/// The indices of the leaves are the numbers below their count, each once.
pub open spec fn leaves_numbered(leaves: Seq<TreeLeafView>) -> bool {
    &&& forall|i: int| 0 <= i < leaves.len() ==> #[trigger] leaves[i].leaf_index < leaves.len()
    &&& indices_distinct(leaves)
}

/// The leaf is one, of the device and the generation of the root.
pub open spec fn leaf_sound(root: TreeRootView, leaf: TreeLeafView) -> bool {
    &&& leaf.magic == leaf_magic()
    &&& leaf.format_version == 1
    &&& leaf.device_uuid == root.device_uuid
    &&& leaf.generation == root.generation
}

/// The leaf with the index, if there is one.
pub open spec fn leaf_with(leaves: Seq<TreeLeafView>, index: int) -> TreeLeafView {
    leaves[choose|k: int| 0 <= k < leaves.len() && #[trigger] leaves[k].leaf_index == index]
}

/// The leaf with index 0, then that with index 1, and so on.
pub open spec fn leaves_by_index(leaves: Seq<TreeLeafView>) -> Seq<TreeLeafView> {
    Seq::new(leaves.len(), |i: int| leaf_with(leaves, i))
}

/// Leaves without a repeated index are ordered strictly.
proof fn lemma_ordered_strictly(leaves: Seq<TreeLeafView>)
    requires
        indices_distinct(leaves),
    ensures
        ordered_leaves(leaves).len() == leaves.len(),
        forall|i: int, j: int|
            0 <= i < j < leaves.len() ==> #[trigger] ordered_leaves(leaves)[i].leaf_index
                < #[trigger] ordered_leaves(leaves)[j].leaf_index,
{
    let ordered = ordered_leaves(leaves);
    law_ordered_leaves(leaves);
    leaves.to_multiset_ensures();
    ordered.to_multiset_ensures();
    assert(leaves.no_duplicates()) by {
        assert forall|i: int, j: int|
            0 <= i < leaves.len() && 0 <= j < leaves.len() && i != j implies leaves[i]
            != leaves[j] by {
            if i < j {
                assert(leaves[i].leaf_index != leaves[j].leaf_index);
            } else {
                assert(leaves[j].leaf_index != leaves[i].leaf_index);
            }
        }
    }
    leaves.lemma_multiset_has_no_duplicates();
    ordered.lemma_multiset_has_no_duplicates_conv();
    assert forall|i: int, j: int| 0 <= i < j < leaves.len() implies #[trigger] ordered[i].leaf_index
        < #[trigger] ordered[j].leaf_index by {
        assert(ordered[i].leaf_index <= ordered[j].leaf_index);
        let p = lemma_ordered_is_leaf(leaves, i);
        let q = lemma_ordered_is_leaf(leaves, j);
        assert(ordered[i] != ordered[j]);
        assert(p != q);
        if p < q {
            assert(leaves[p].leaf_index != leaves[q].leaf_index);
        } else {
            assert(leaves[q].leaf_index != leaves[p].leaf_index);
        }
    }
}

/// An ordered leaf is one of the leaves.
proof fn lemma_ordered_is_leaf(leaves: Seq<TreeLeafView>, i: int) -> (k: int)
    requires
        0 <= i < ordered_leaves(leaves).len(),
    ensures
        0 <= k < leaves.len(),
        leaves[k] == ordered_leaves(leaves)[i],
{
    let ordered = ordered_leaves(leaves);
    law_ordered_leaves(leaves);
    leaves.to_multiset_ensures();
    ordered.to_multiset_ensures();
    assert(ordered.contains(ordered[i]));
    assert(leaves.to_multiset().count(ordered[i]) > 0);
    assert(leaves.contains(ordered[i]));
    choose|k: int| 0 <= k < leaves.len() && leaves[k] == ordered[i]
}

/// A leaf is one of the ordered leaves.
proof fn lemma_leaf_is_ordered(leaves: Seq<TreeLeafView>, k: int) -> (i: int)
    requires
        0 <= k < leaves.len(),
    ensures
        0 <= i < ordered_leaves(leaves).len(),
        leaves[k] == ordered_leaves(leaves)[i],
{
    let ordered = ordered_leaves(leaves);
    law_ordered_leaves(leaves);
    leaves.to_multiset_ensures();
    ordered.to_multiset_ensures();
    assert(leaves.contains(leaves[k]));
    assert(ordered.to_multiset().count(leaves[k]) > 0);
    assert(ordered.contains(leaves[k]));
    choose|i: int| 0 <= i < ordered.len() && ordered[i] == leaves[k]
}

/// A strictly ordered run is at no position below the position.
proof fn lemma_strict_run_climbs(run: Seq<TreeLeafView>, i: int)
    requires
        forall|p: int, q: int|
            0 <= p < q < run.len() ==> #[trigger] run[p].leaf_index < #[trigger] run[q].leaf_index,
        0 <= i < run.len(),
    ensures
        run[i].leaf_index >= i,
        run[i].leaf_index + (run.len() - 1 - i) <= run[run.len() - 1].leaf_index,
    decreases run.len(),
{
    let shorter = run.drop_last();
    if i < run.len() - 1 {
        assert forall|p: int, q: int|
            0 <= p < q < shorter.len() implies #[trigger] shorter[p].leaf_index
            < #[trigger] shorter[q].leaf_index by {
            assert(run[p].leaf_index < run[q].leaf_index);
        }
        lemma_strict_run_climbs(shorter, i);
        assert(run[shorter.len() - 1].leaf_index < run[run.len() - 1].leaf_index);
    } else if i > 0 {
        assert forall|p: int, q: int|
            0 <= p < q < shorter.len() implies #[trigger] shorter[p].leaf_index
            < #[trigger] shorter[q].leaf_index by {
            assert(run[p].leaf_index < run[q].leaf_index);
        }
        lemma_strict_run_climbs(shorter, i - 1);
        assert(run[i - 1].leaf_index < run[i].leaf_index);
    }
}

/// Numbered leaves are ordered by index, each at the position that its index names.
proof fn lemma_numbered_order(leaves: Seq<TreeLeafView>)
    requires
        leaves_numbered(leaves),
    ensures
        ordered_leaves(leaves) == leaves_by_index(leaves),
        forall|i: int|
            0 <= i < leaves.len() ==> #[trigger] ordered_leaves(leaves)[i].leaf_index == i,
{
    let ordered = ordered_leaves(leaves);
    lemma_ordered_strictly(leaves);
    assert forall|i: int| 0 <= i < leaves.len() implies #[trigger] ordered[i].leaf_index == i
        && ordered[i] == leaf_with(leaves, i) by {
        lemma_strict_run_climbs(ordered, i);
        let top = lemma_ordered_is_leaf(leaves, ordered.len() - 1);
        assert(leaves[top].leaf_index < leaves.len());
        let k = lemma_ordered_is_leaf(leaves, i);
        assert(leaves[k].leaf_index == i);
        let m = choose|m: int| 0 <= m < leaves.len() && #[trigger] leaves[m].leaf_index == i;
        if m < k {
            assert(leaves[m].leaf_index != leaves[k].leaf_index);
        }
        if k < m {
            assert(leaves[k].leaf_index != leaves[m].leaf_index);
        }
    }
    assert forall|i: int| 0 <= i < leaves.len() implies #[trigger] ordered[i] == leaf_with(
        leaves,
        i,
    ) by {
        assert(ordered[i].leaf_index == i);
    }
    assert(ordered =~= leaves_by_index(leaves));
}

/// A run of leaves has nothing wrong with it exactly where no leaf has.
proof fn lemma_no_leaf_error(root: TreeRootView, leaves: Seq<TreeLeafView>)
    ensures
        leaves_error(root, leaves) is None <==> forall|i: int|
            0 <= i < leaves.len() ==> leaf_error(root, #[trigger] leaves[i], i) is None,
    decreases leaves.len(),
{
    if leaves.len() > 0 {
        let head = leaves.drop_last();
        lemma_no_leaf_error(root, head);
        assert forall|i: int| 0 <= i < head.len() implies #[trigger] head[i] == leaves[i] by {}
        if leaves_error(root, leaves) is None {
            assert forall|i: int| 0 <= i < leaves.len() implies leaf_error(
                root,
                #[trigger] leaves[i],
                i,
            ) is None by {
                if i < head.len() {
                    assert(leaf_error(root, head[i], i) is None);
                }
            }
        }
        if forall|i: int|
            0 <= i < leaves.len() ==> leaf_error(root, #[trigger] leaves[i], i) is None {
            assert forall|i: int| 0 <= i < head.len() implies leaf_error(
                root,
                #[trigger] head[i],
                i,
            ) is None by {
                assert(leaf_error(root, leaves[i], i) is None);
            }
            assert(leaf_error(root, leaves[leaves.len() - 1], leaves.len() - 1) is None);
        }
    }
}

/// Nothing is wrong with leaves exactly where all are sound and they are numbered.
proof fn lemma_leaves_accepted(root: TreeRootView, leaves: Seq<TreeLeafView>)
    ensures
        leaves_error(root, ordered_leaves(leaves)) is None <==> leaves_numbered(leaves) && forall|
            i: int,
        |
            0 <= i < leaves.len() ==> leaf_sound(root, #[trigger] leaves[i]),
{
    let ordered = ordered_leaves(leaves);
    law_ordered_leaves(leaves);
    leaves.to_multiset_ensures();
    ordered.to_multiset_ensures();
    lemma_no_leaf_error(root, ordered);
    if leaves_error(root, ordered) is None {
        assert forall|i: int| 0 <= i < ordered.len() implies #[trigger] ordered[i].leaf_index == i
            && leaf_sound(root, ordered[i]) by {
            assert(leaf_error(root, ordered[i], i) is None);
        }
        assert forall|k: int| 0 <= k < leaves.len() implies (#[trigger] leaves[k]).leaf_index
            < leaves.len() && leaf_sound(root, leaves[k]) by {
            let i = lemma_leaf_is_ordered(leaves, k);
            assert(ordered[i].leaf_index == i);
        }
        assert(ordered.no_duplicates());
        ordered.lemma_multiset_has_no_duplicates();
        leaves.lemma_multiset_has_no_duplicates_conv();
        assert forall|j: int, k: int|
            0 <= j < k < leaves.len() implies #[trigger] leaves[j].leaf_index
            != #[trigger] leaves[k].leaf_index by {
            let p = lemma_leaf_is_ordered(leaves, j);
            let q = lemma_leaf_is_ordered(leaves, k);
            assert(leaves[j] != leaves[k]);
            assert(ordered[p].leaf_index == p && ordered[q].leaf_index == q);
        }
    }
    if leaves_numbered(leaves) && (forall|i: int|
        0 <= i < leaves.len() ==> leaf_sound(root, #[trigger] leaves[i])) {
        lemma_numbered_order(leaves);
        assert forall|i: int| 0 <= i < ordered.len() implies leaf_error(
            root,
            #[trigger] ordered[i],
            i,
        ) is None by {
            let k = lemma_ordered_is_leaf(leaves, i);
            assert(leaf_sound(root, leaves[k]));
            assert(ordered[i].leaf_index == i);
        }
    }
}

/// A root and leaves make up a manifest exactly where every leaf is one, of the device and
/// the generation of the root, where the indices of the leaves are the numbers below their
/// count, each once, and where the objects of the leaves, joined in the order of the
/// indices, are as many as the root says and each has its position as its number. The
/// manifest then holds these objects, and the rest of it is what the root says.
pub proof fn law_tree_accepts_sound_leaves(root: TreeRootView, leaves: Seq<TreeLeafView>)
    ensures
        tree_manifest(root, leaves) is Ok <==> {
            let objects = joined_objects(leaves_by_index(leaves));
            &&& forall|i: int| 0 <= i < leaves.len() ==> leaf_sound(root, #[trigger] leaves[i])
            &&& leaves_numbered(leaves)
            &&& objects.len() == root.object_count
            &&& numbered_in_order(objects)
        },
        tree_manifest(root, leaves) matches Ok(manifest) ==> {
            &&& manifest.objects == joined_objects(leaves_by_index(leaves))
            &&& manifest.magic == manifest_magic()
            &&& manifest.format_version == 1
            &&& root_matches(root, manifest)
        },
{
    lemma_leaves_accepted(root, leaves);
    if leaves_numbered(leaves) {
        lemma_numbered_order(leaves);
    }
}

/// The order in which leaves come does not matter: the same leaves make up the same
/// manifest, or none, in every order; and where no index repeats, what is wrong with them
/// is the same too.
pub proof fn law_leaf_order_does_not_matter(
    root: TreeRootView,
    leaves: Seq<TreeLeafView>,
    other: Seq<TreeLeafView>,
)
    requires
        leaves.to_multiset() == other.to_multiset(),
    ensures
        tree_manifest(root, leaves) is Ok <==> tree_manifest(root, other) is Ok,
        tree_manifest(root, leaves) is Ok || indices_distinct(leaves) ==> tree_manifest(
            root,
            leaves,
        ) == tree_manifest(root, other),
{
    law_tree_accepts_sound_leaves(root, leaves);
    law_tree_accepts_sound_leaves(root, other);
    law_ordered_leaves(leaves);
    law_ordered_leaves(other);
    if indices_distinct(leaves) {
        lemma_ordered_strictly(leaves);
        lemma_order_is_unique(ordered_leaves(other), ordered_leaves(leaves));
    }
    if indices_distinct(other) {
        lemma_ordered_strictly(other);
        lemma_order_is_unique(ordered_leaves(leaves), ordered_leaves(other));
    }
}

/// A manifest as the device keeps it: one object for each number, in order.
pub open spec fn well_formed_manifest(manifest: ManifestView) -> bool {
    &&& manifest.magic == manifest_magic()
    &&& manifest.format_version == 1
    &&& manifest.object_count == manifest.objects.len()
    &&& numbered_in_order(manifest.objects)
}

/// The root names the device, generation and sizes of the manifest, and its garbage.
pub open spec fn root_matches(root: TreeRootView, manifest: ManifestView) -> bool {
    &&& root.device_uuid == manifest.device_uuid
    &&& root.generation == manifest.generation
    &&& root.object_size == manifest.object_size
    &&& root.object_count == manifest.object_count
    &&& root.garbage == manifest.garbage
}

/// The number of elements in the first `count` runs of `span`.
spec fn covered(len: nat, span: nat, count: nat) -> int {
    if count * span < len {
        (count * span) as int
    } else {
        len as int
    }
}

proof fn lemma_run_bounds(len: nat, span: nat, i: int)
    requires
        span > 0,
        0 <= i < run_count(len, span),
    ensures
        0 <= i * span < len,
        (i + 1) * span == i * span + span,
        run_count(len, span) <= len,
{
    let n = run_count(len, span) as int;
    let total = len + span - 1;
    vstd::arithmetic::div_mod::lemma_fundamental_div_mod(total, span as int);
    let r = total % (span as int);
    assert(total == span * n + r);
    assert(0 <= r < span);
    assert((i + 1) * span == i * span + span) by (nonlinear_arith);
    assert((i + 1) * span <= n * span) by (nonlinear_arith)
        requires
            i + 1 <= n,
            span > 0,
    ;
    assert(span * n == n * span) by (nonlinear_arith);
    assert(i * span >= 0) by (nonlinear_arith)
        requires
            i >= 0,
            span > 0,
    ;
    assert(n <= len) by (nonlinear_arith)
        requires
            n * span <= len + span - 1,
            span >= 1,
            n >= 0,
    ;
}

proof fn lemma_joined_runs(manifest: ManifestView, span: nat, count: nat)
    requires
        span > 0,
        count <= run_count(manifest.objects.len(), span),
    ensures
        joined_objects(manifest_leaves(manifest, span).take(count as int))
            == manifest.objects.take(covered(manifest.objects.len(), span, count)),
    decreases count,
{
    let len = manifest.objects.len();
    let leaves = manifest_leaves(manifest, span);
    if count == 0 {
        assert(count * span == 0) by (nonlinear_arith)
            requires
                count == 0,
        ;
        assert(manifest.objects.take(0) =~= Seq::<ManifestObjectView>::empty());
        assert(covered(len, span, 0) == 0);
    } else {
        let i = count - 1;
        lemma_run_bounds(len, span, i);
        lemma_joined_runs(manifest, span, i as nat);
        assert(leaves.take(count as int).drop_last() =~= leaves.take(i));
        assert(leaves.take(count as int).last() == nth_leaf(manifest, span, i));
        let run = nth_run(manifest.objects, span, i);
        assert(manifest.objects.take(covered(len, span, i as nat)) + run
            =~= manifest.objects.take(covered(len, span, count)));
    }
}

proof fn lemma_leaves_fit(root: TreeRootView, manifest: ManifestView, span: nat, count: nat)
    requires
        span > 0,
        root_matches(root, manifest),
        manifest.objects.len() <= u64::MAX,
        count <= run_count(manifest.objects.len(), span),
    ensures
        leaves_error(root, manifest_leaves(manifest, span).take(count as int)) is None,
    decreases count,
{
    if count > 0 {
        let leaves = manifest_leaves(manifest, span);
        let i = count - 1;
        lemma_run_bounds(manifest.objects.len(), span, i);
        lemma_leaves_fit(root, manifest, span, i as nat);
        assert(leaves.take(count as int).drop_last() =~= leaves.take(i));
        assert(leaves.take(count as int).last() == nth_leaf(manifest, span, i));
    }
}

/// A manifest survives storage as a tree: its root and its leaves, fetched in any
/// order, make up the manifest again.
pub proof fn law_tree_round_trip(
    manifest: ManifestView,
    span: nat,
    root: TreeRootView,
    leaves: Seq<TreeLeafView>,
)
    requires
        span > 0,
        well_formed_manifest(manifest),
        root_matches(root, manifest),
        leaves.to_multiset() == manifest_leaves(manifest, span).to_multiset(),
    ensures
        tree_manifest(root, leaves) == Ok::<ManifestView, ManifestTreeError>(manifest),
{
    let len = manifest.objects.len();
    let stored = manifest_leaves(manifest, span);
    law_ordered_leaves(leaves);
    assert forall|i: int, j: int| 0 <= i < j < stored.len() implies #[trigger] stored[i].leaf_index
        < #[trigger] stored[j].leaf_index by {
        lemma_run_bounds(len, span, i);
    }
    lemma_order_is_unique(ordered_leaves(leaves), stored);
    lemma_joined_runs(manifest, span, stored.len());
    lemma_leaves_fit(root, manifest, span, stored.len());
    assert(stored.take(stored.len() as int) =~= stored);
    if stored.len() > 0 {
        lemma_run_bounds(len, span, stored.len() - 1);
    }
    let total = len + span - 1;
    vstd::arithmetic::div_mod::lemma_fundamental_div_mod(total, span as int);
    assert(stored.len() * span >= len) by {
        assert(span * stored.len() == stored.len() * span) by (nonlinear_arith);
    }
    assert(covered(len, span, stored.len()) == len);
    assert(manifest.objects.take(len as int) =~= manifest.objects);
    assert(tree_manifest(root, leaves)->Ok_0 =~= manifest);
}

/// In a manifest as the device keeps it, the object with a number is the one at that
/// position.
pub proof fn law_numbered_lookup(objects: Seq<ManifestObjectView>, object_id: u64)
    requires
        numbered_in_order(objects),
        objects.len() <= u64::MAX,
    ensures
        entry_index(objects, object_id) == if object_id < objects.len() {
            Some(object_id as int)
        } else {
            None
        },
{
    if object_id < objects.len() {
        lemma_entry_index_is(objects, object_id, object_id as int);
    } else {
        crate::manifest::lemma_entry_index(objects, object_id);
    }
}

/// The manifest of a new device: it has the given identity and sizes and generation 0, nothing
/// in it is garbage, and each of its objects has its position as its number, was never written,
/// and is stored nowhere.
pub proof fn law_new_manifest_lists_unwritten_objects(
    device_uuid: u128,
    object_size: u32,
    object_count: u64,
    i: int,
)
    requires
        0 <= i < object_count,
    ensures
        ({
            let manifest = empty_manifest(device_uuid, object_size, object_count);
            let object = manifest.objects[i];
            &&& manifest.magic == "TGDRIVE_MANIFEST"@
            &&& manifest.format_version == 1
            &&& manifest.device_uuid == device_uuid
            &&& manifest.generation == 0
            &&& manifest.object_size == object_size
            &&& manifest.object_count == object_count
            &&& manifest.objects.len() == object_count
            &&& manifest.garbage.len() == 0
            &&& object.object_id == i
            &&& object.generation == 0
            &&& object.remote is None
            &&& object.sha256 is None
            &&& object.zero
            &&& well_formed_manifest(manifest)
        }),
{
}

/// What is wrong with leaves is what is wrong with the first bad one of them, in the order of
/// their indices, and there what is wrong first: its magic text, its version, its device, its
/// generation, or its index.
pub proof fn law_first_bad_leaf_is_told(root: TreeRootView, ordered: Seq<TreeLeafView>, k: int)
    requires
        0 <= k < ordered.len(),
        forall|i: int|
            0 <= i < k ==> leaf_sound(root, #[trigger] ordered[i]) && ordered[i].leaf_index == i,
        !leaf_sound(root, ordered[k]) || ordered[k].leaf_index != k,
    ensures
        ({
            let leaf = ordered[k];
            leaves_error(root, ordered) == Some(
                if leaf.magic != "TGDRIVE_MANIFEST_LEAF"@ {
                    ManifestTreeError::LeafMagic
                } else if leaf.format_version != 1 {
                    ManifestTreeError::LeafVersion
                } else if leaf.device_uuid != root.device_uuid {
                    ManifestTreeError::LeafUuid
                } else if leaf.generation != root.generation {
                    ManifestTreeError::LeafGeneration
                } else {
                    ManifestTreeError::LeafIndex
                },
            )
        }),
    decreases ordered.len(),
{
    let head = ordered.drop_last();
    if k < head.len() {
        law_first_bad_leaf_is_told(root, head, k);
    } else {
        lemma_good_leaves(root, head);
    }
}

proof fn lemma_good_leaves(root: TreeRootView, ordered: Seq<TreeLeafView>)
    requires
        forall|i: int|
            0 <= i < ordered.len() ==> leaf_sound(root, #[trigger] ordered[i])
                && ordered[i].leaf_index == i,
    ensures
        leaves_error(root, ordered) is None,
    decreases ordered.len(),
{
    if ordered.len() > 0 {
        let head = ordered.drop_last();
        assert forall|i: int| 0 <= i < head.len() implies leaf_sound(root, #[trigger] head[i])
            && head[i].leaf_index == i by {
            assert(head[i] == ordered[i]);
        }
        lemma_good_leaves(root, head);
        assert(leaf_sound(root, ordered[ordered.len() - 1]));
    }
}

} // verus!
