//! The manifest: which remote object holds which part of the device.
use vstd::prelude::*;

use crate::backend::{
    clone_opt_ref, clone_opt_text, clone_refs, opt_ref_view, opt_text_view, ref_views,
    RemoteObjectRef, RemoteObjectRefView,
};
use crate::digest::{sha256_hex, sha256_text};

verus! {

/// The object number under which manifests are stored.
pub const MANIFEST_OBJECT_ID: u64 = 0xffff_ffff_ffff_fffe;

/// The object number of the first manifest leaf; later leaves count down from it.
pub const MANIFEST_TREE_LEAF_BASE_OBJECT_ID: u64 = 18_446_744_073_708_551_615;

/// How many objects one manifest leaf lists.
pub const MANIFEST_TREE_LEAF_SPAN: usize = 4096;

/// How a manifest is laid out remotely.
#[derive(Debug, Clone, Copy, PartialEq, Eq, Structural)]
pub enum ManifestEncoding {
    FlatJson,
    Tree,
}

/// One object of the device.
#[derive(Debug, PartialEq, Eq)]
pub struct ManifestObject {
    pub object_id: u64,
    pub generation: u64,
    pub remote: Option<RemoteObjectRef>,
    pub sha256: Option<String>,
    pub zero: bool,
}

/// The value of a [`ManifestObject`].
#[verifier::ext_equal]
pub struct ManifestObjectView {
    pub object_id: u64,
    pub generation: u64,
    pub remote: Option<RemoteObjectRefView>,
    pub sha256: Option<Seq<char>>,
    pub zero: bool,
}

impl View for ManifestObject {
    type V = ManifestObjectView;

    open spec fn view(&self) -> ManifestObjectView {
        ManifestObjectView {
            object_id: self.object_id,
            generation: self.generation,
            remote: opt_ref_view(self.remote),
            sha256: opt_text_view(self.sha256),
            zero: self.zero,
        }
    }
}

impl Clone for ManifestObject {
    fn clone(&self) -> (copy: Self)
        ensures
            copy == *self,
    {
        ManifestObject {
            object_id: self.object_id,
            generation: self.generation,
            remote: clone_opt_ref(&self.remote),
            sha256: clone_opt_text(&self.sha256),
            zero: self.zero,
        }
    }
}

/// The values of a run of objects.
pub open spec fn object_views(objects: Seq<ManifestObject>) -> Seq<ManifestObjectView> {
    Seq::new(objects.len(), |i: int| objects[i]@)
}

/// The whole device: its identity, its objects in order, and the remote objects that
/// are no longer in use.
#[derive(Debug, PartialEq, Eq)]
pub struct Manifest {
    pub magic: String,
    pub format_version: u16,
    pub device_uuid: u128,
    pub generation: u64,
    pub object_size: u32,
    pub object_count: u64,
    pub objects: Vec<ManifestObject>,
    pub garbage: Vec<RemoteObjectRef>,
}

/// The value of a [`Manifest`].
#[verifier::ext_equal]
pub struct ManifestView {
    pub magic: Seq<char>,
    pub format_version: u16,
    pub device_uuid: u128,
    pub generation: u64,
    pub object_size: u32,
    pub object_count: u64,
    pub objects: Seq<ManifestObjectView>,
    pub garbage: Seq<RemoteObjectRefView>,
}

impl View for Manifest {
    type V = ManifestView;

    open spec fn view(&self) -> ManifestView {
        ManifestView {
            magic: self.magic@,
            format_version: self.format_version,
            device_uuid: self.device_uuid,
            generation: self.generation,
            object_size: self.object_size,
            object_count: self.object_count,
            objects: object_views(self.objects@),
            garbage: ref_views(self.garbage@),
        }
    }
}

/// Where a leaf of the manifest tree is stored.
#[derive(Debug, PartialEq, Eq)]
pub struct ManifestTreeLeafRef {
    pub leaf_index: u64,
    pub start_object_id: u64,
    pub object_count: u64,
    pub remote: RemoteObjectRef,
}

/// The value of a [`ManifestTreeLeafRef`].
#[verifier::ext_equal]
pub struct LeafRefView {
    pub leaf_index: u64,
    pub start_object_id: u64,
    pub object_count: u64,
    pub remote: RemoteObjectRefView,
}

impl View for ManifestTreeLeafRef {
    type V = LeafRefView;

    open spec fn view(&self) -> LeafRefView {
        LeafRefView {
            leaf_index: self.leaf_index,
            start_object_id: self.start_object_id,
            object_count: self.object_count,
            remote: self.remote@,
        }
    }
}

/// The values of a run of leaf references.
pub open spec fn leaf_ref_views(leaves: Seq<ManifestTreeLeafRef>) -> Seq<LeafRefView> {
    Seq::new(leaves.len(), |i: int| leaves[i]@)
}

/// The root of a manifest that is stored as a tree.
#[derive(Debug, PartialEq, Eq)]
pub struct ManifestTreeRoot {
    pub magic: String,
    pub format_version: u16,
    pub device_uuid: u128,
    pub generation: u64,
    pub object_size: u32,
    pub object_count: u64,
    pub leaf_span: usize,
    pub leaves: Vec<ManifestTreeLeafRef>,
    pub garbage: Vec<RemoteObjectRef>,
}

/// The value of a [`ManifestTreeRoot`].
#[verifier::ext_equal]
pub struct TreeRootView {
    pub magic: Seq<char>,
    pub format_version: u16,
    pub device_uuid: u128,
    pub generation: u64,
    pub object_size: u32,
    pub object_count: u64,
    pub leaf_span: usize,
    pub leaves: Seq<LeafRefView>,
    pub garbage: Seq<RemoteObjectRefView>,
}

impl View for ManifestTreeRoot {
    type V = TreeRootView;

    open spec fn view(&self) -> TreeRootView {
        TreeRootView {
            magic: self.magic@,
            format_version: self.format_version,
            device_uuid: self.device_uuid,
            generation: self.generation,
            object_size: self.object_size,
            object_count: self.object_count,
            leaf_span: self.leaf_span,
            leaves: leaf_ref_views(self.leaves@),
            garbage: ref_views(self.garbage@),
        }
    }
}

/// A run of consecutive objects of a manifest that is stored as a tree.
#[derive(Debug, PartialEq, Eq)]
pub struct ManifestTreeLeaf {
    pub magic: String,
    pub format_version: u16,
    pub device_uuid: u128,
    pub generation: u64,
    pub leaf_index: u64,
    pub start_object_id: u64,
    pub objects: Vec<ManifestObject>,
}

/// The value of a [`ManifestTreeLeaf`].
#[verifier::ext_equal]
pub struct TreeLeafView {
    pub magic: Seq<char>,
    pub format_version: u16,
    pub device_uuid: u128,
    pub generation: u64,
    pub leaf_index: u64,
    pub start_object_id: u64,
    pub objects: Seq<ManifestObjectView>,
}

impl View for ManifestTreeLeaf {
    type V = TreeLeafView;

    open spec fn view(&self) -> TreeLeafView {
        TreeLeafView {
            magic: self.magic@,
            format_version: self.format_version,
            device_uuid: self.device_uuid,
            generation: self.generation,
            leaf_index: self.leaf_index,
            start_object_id: self.start_object_id,
            objects: object_views(self.objects@),
        }
    }
}

/// The values of a run of leaves.
pub open spec fn leaf_views(leaves: Seq<ManifestTreeLeaf>) -> Seq<TreeLeafView> {
    Seq::new(leaves.len(), |i: int| leaves[i]@)
}

/// Why leaves and a root do not make up a manifest.
#[derive(Debug, Clone, Copy, PartialEq, Eq, Structural)]
pub enum ManifestTreeError {
    LeafMagic,
    LeafVersion,
    LeafUuid,
    LeafGeneration,
    LeafIndex,
    ObjectCount,
    ObjectId,
}

/// The manifest's encoded form does not have the expected digest.
#[derive(Debug, Clone, Copy, PartialEq, Eq, Structural)]
pub struct ManifestHashMismatch;

/// The magic text of a manifest.
pub open spec fn manifest_magic() -> Seq<char> {
    "TGDRIVE_MANIFEST"@
}

/// The magic text of a manifest leaf.
pub open spec fn leaf_magic() -> Seq<char> {
    "TGDRIVE_MANIFEST_LEAF"@
}

/// The magic text of a manifest root.
pub open spec fn root_magic() -> Seq<char> {
    "TGDRIVE_MANIFEST_ROOT"@
}

/// An object of a device that was never written.
pub open spec fn unwritten_object(object_id: u64) -> ManifestObjectView {
    ManifestObjectView { object_id, generation: 0, remote: None, sha256: None, zero: true }
}

/// The manifest of a device that was never written.
pub open spec fn empty_manifest(
    device_uuid: u128,
    object_size: u32,
    object_count: u64,
) -> ManifestView {
    ManifestView {
        magic: manifest_magic(),
        format_version: 1,
        device_uuid,
        generation: 0,
        object_size,
        object_count,
        objects: Seq::new(object_count as nat, |i: int| unwritten_object(i as u64)),
        garbage: Seq::empty(),
    }
}

/// The position of the first object with the given number.
pub open spec fn entry_index(objects: Seq<ManifestObjectView>, object_id: u64) -> Option<int>
    decreases objects.len(),
{
    if objects.len() == 0 {
        None
    } else {
        match entry_index(objects.drop_last(), object_id) {
            Some(i) => Some(i),
            None => if objects.last().object_id == object_id {
                Some(objects.len() - 1)
            } else {
                None
            },
        }
    }
}

/// What `entry_index` finds is the first position with the number, if there is one.
pub proof fn lemma_entry_index(objects: Seq<ManifestObjectView>, object_id: u64)
    ensures
        match entry_index(objects, object_id) {
            Some(i) => 0 <= i < objects.len() && objects[i].object_id == object_id && forall|k: int|
                0 <= k < i ==> #[trigger] objects[k].object_id != object_id,
            None => forall|k: int|
                0 <= k < objects.len() ==> #[trigger] objects[k].object_id != object_id,
        },
    decreases objects.len(),
{
    if objects.len() > 0 {
        lemma_entry_index(objects.drop_last(), object_id);
        assert forall|k: int| 0 <= k < objects.len() - 1 implies #[trigger] objects[k]
            == objects.drop_last()[k] by {}
    }
}

/// A position that is the first with its number is what `entry_index` finds.
pub proof fn lemma_entry_index_is(objects: Seq<ManifestObjectView>, object_id: u64, at: int)
    requires
        0 <= at < objects.len(),
        objects[at].object_id == object_id,
        forall|k: int| 0 <= k < at ==> #[trigger] objects[k].object_id != object_id,
    ensures
        entry_index(objects, object_id) == Some(at),
{
    lemma_entry_index(objects, object_id);
    let found = entry_index(objects, object_id);
    assert(objects[at].object_id == object_id);
    if found is Some {
        let i = found->0;
        assert(objects[i].object_id == object_id);
        if i < at {
            assert(objects[i].object_id != object_id);
        }
        if at < i {
            assert(objects[at].object_id != object_id);
        }
    }
}

/// The number of runs of at most `span` elements that `len` elements fill.
pub open spec fn run_count(len: nat, span: nat) -> nat {
    ((len + span - 1) / (span as int)) as nat
}

/// The `i`-th run of `span` elements; the last run may be shorter.
pub open spec fn nth_run<T>(items: Seq<T>, span: nat, i: int) -> Seq<T> {
    let from = i * span;
    let to = from + span;
    items.subrange(from, if to < items.len() { to } else { items.len() as int })
}

/// The leaf of `manifest` that lists the `i`-th run of objects.
pub open spec fn nth_leaf(manifest: ManifestView, span: nat, i: int) -> TreeLeafView {
    let objects = nth_run(manifest.objects, span, i);
    TreeLeafView {
        magic: leaf_magic(),
        format_version: 1,
        device_uuid: manifest.device_uuid,
        generation: manifest.generation,
        leaf_index: i as u64,
        start_object_id: objects[0].object_id,
        objects,
    }
}

/// All leaves of `manifest`, in order.
pub open spec fn manifest_leaves(manifest: ManifestView, span: nat) -> Seq<TreeLeafView> {
    Seq::new(run_count(manifest.objects.len(), span), |i: int| nth_leaf(manifest, span, i))
}

/// Where a leaf goes in a run that is ordered by leaf index: behind every leaf whose
/// index is not larger.
pub open spec fn leaf_place(ordered: Seq<TreeLeafView>, leaf_index: u64) -> int
    decreases ordered.len(),
{
    if ordered.len() == 0 || ordered.last().leaf_index <= leaf_index {
        ordered.len() as int
    } else {
        leaf_place(ordered.drop_last(), leaf_index)
    }
}

/// The leaves ordered by index; leaves with the same index keep their order.
pub open spec fn ordered_leaves(leaves: Seq<TreeLeafView>) -> Seq<TreeLeafView>
    decreases leaves.len(),
{
    if leaves.len() == 0 {
        leaves
    } else {
        let ordered = ordered_leaves(leaves.drop_last());
        ordered.insert(leaf_place(ordered, leaves.last().leaf_index), leaves.last())
    }
}

/// What is wrong with the leaf at position `position` of the ordered leaves.
pub open spec fn leaf_error(root: TreeRootView, leaf: TreeLeafView, position: int) -> Option<
    ManifestTreeError,
> {
    if leaf.magic != leaf_magic() {
        Some(ManifestTreeError::LeafMagic)
    } else if leaf.format_version != 1 {
        Some(ManifestTreeError::LeafVersion)
    } else if leaf.device_uuid != root.device_uuid {
        Some(ManifestTreeError::LeafUuid)
    } else if leaf.generation != root.generation {
        Some(ManifestTreeError::LeafGeneration)
    } else if leaf.leaf_index != position {
        Some(ManifestTreeError::LeafIndex)
    } else {
        None
    }
}

/// What is wrong with the first bad leaf.
pub open spec fn leaves_error(root: TreeRootView, leaves: Seq<TreeLeafView>) -> Option<
    ManifestTreeError,
>
    decreases leaves.len(),
{
    if leaves.len() == 0 {
        None
    } else {
        match leaves_error(root, leaves.drop_last()) {
            Some(error) => Some(error),
            None => leaf_error(root, leaves.last(), leaves.len() - 1),
        }
    }
}

/// The objects of all leaves, one leaf behind the other.
pub open spec fn joined_objects(leaves: Seq<TreeLeafView>) -> Seq<ManifestObjectView>
    decreases leaves.len(),
{
    if leaves.len() == 0 {
        Seq::empty()
    } else {
        joined_objects(leaves.drop_last()) + leaves.last().objects
    }
}

/// Every object has its position as its number.
pub open spec fn numbered_in_order(objects: Seq<ManifestObjectView>) -> bool {
    forall|i: int| 0 <= i < objects.len() ==> #[trigger] objects[i].object_id == i
}

/// The manifest that a root and its leaves make up.
pub open spec fn tree_manifest(root: TreeRootView, leaves: Seq<TreeLeafView>) -> Result<
    ManifestView,
    ManifestTreeError,
> {
    let ordered = ordered_leaves(leaves);
    let objects = joined_objects(ordered);
    match leaves_error(root, ordered) {
        Some(error) => Err(error),
        None => if objects.len() != root.object_count {
            Err(ManifestTreeError::ObjectCount)
        } else if !numbered_in_order(objects) {
            Err(ManifestTreeError::ObjectId)
        } else {
            Ok(
                ManifestView {
                    magic: manifest_magic(),
                    format_version: 1,
                    device_uuid: root.device_uuid,
                    generation: root.generation,
                    object_size: root.object_size,
                    object_count: root.object_count,
                    objects,
                    garbage: root.garbage,
                },
            )
        },
    }
}

/// The root of the tree that stores `manifest`, given where its leaves went.
pub open spec fn tree_root_of(manifest: ManifestView, leaves: Seq<LeafRefView>) -> TreeRootView {
    TreeRootView {
        magic: root_magic(),
        format_version: 1,
        device_uuid: manifest.device_uuid,
        generation: manifest.generation,
        object_size: manifest.object_size,
        object_count: manifest.object_count,
        leaf_span: MANIFEST_TREE_LEAF_SPAN,
        leaves,
        garbage: manifest.garbage,
    }
}

/// Copies the objects from `from` up to `to`.
pub fn clone_objects(objects: &Vec<ManifestObject>, from: usize, to: usize) -> (copy: Vec<
    ManifestObject,
>)
    requires
        from <= to <= objects@.len(),
    ensures
        copy@ == objects@.subrange(from as int, to as int),
{
    let mut copy: Vec<ManifestObject> = Vec::new();
    let mut i: usize = from;
    while i < to
        invariant
            from <= i <= to <= objects@.len(),
            copy@ == objects@.subrange(from as int, i as int),
        decreases to - i,
    {
        copy.push(objects[i].clone());
        assert(objects@.subrange(from as int, i + 1) =~= objects@.subrange(
            from as int,
            i as int,
        ).push(objects@[i as int]));
        i += 1;
    }
    copy
}

/// The number of runs that cover `len` elements and would not with one less.
pub proof fn lemma_run_count(len: nat, span: nat, i: nat)
    requires
        span > 0,
        i * span >= len,
        i == 0 || (i - 1) * span < len,
    ensures
        run_count(len, span) == i,
{
    let r = len + span - 1 - i * span;
    if i > 0 {
        assert((i - 1) * span == i * span - span) by (nonlinear_arith);
    }
    assert(len + span - 1 == i * span + r);
    vstd::arithmetic::div_mod::lemma_fundamental_div_mod_converse(
        len + span - 1,
        span as int,
        i as int,
        r,
    );
}

impl Clone for Manifest {
    fn clone(&self) -> (copy: Self)
        ensures
            copy@ == self@,
    {
        let objects = clone_objects(&self.objects, 0, self.objects.len());
        assert(objects@ =~= self.objects@);
        Manifest {
            magic: self.magic.clone(),
            format_version: self.format_version,
            device_uuid: self.device_uuid,
            generation: self.generation,
            object_size: self.object_size,
            object_count: self.object_count,
            objects,
            garbage: clone_refs(&self.garbage),
        }
    }
}

impl Manifest {
    /// The manifest of a device that was never written.
    pub fn empty(device_uuid: u128, object_size: u32, object_count: u64) -> (manifest: Self)
        ensures
            manifest@ == empty_manifest(device_uuid, object_size, object_count),
    {
        let mut objects: Vec<ManifestObject> = Vec::new();
        let mut object_id: u64 = 0;
        while object_id < object_count
            invariant
                object_id <= object_count,
                objects@.len() == object_id,
                forall|i: int|
                    0 <= i < object_id ==> (#[trigger] objects@[i])@ == unwritten_object(i as u64),
            decreases object_count - object_id,
        {
            objects.push(
                ManifestObject { object_id, generation: 0, remote: None, sha256: None, zero: true },
            );
            object_id += 1;
        }
        let manifest = Manifest {
            magic: "TGDRIVE_MANIFEST".to_owned(),
            format_version: 1,
            device_uuid,
            generation: 0,
            object_size,
            object_count,
            objects,
            garbage: Vec::new(),
        };
        assert(manifest@ =~= empty_manifest(device_uuid, object_size, object_count));
        manifest
    }

    /// The digest of a manifest's encoded form.
    pub fn hash_hex(encoded: &[u8]) -> (text: String)
        ensures
            text@ == sha256_text(encoded@),
    {
        sha256_hex(encoded)
    }

    /// Checks the digest of a manifest's encoded form.
    pub fn verify_hash(encoded: &[u8], expected: &str) -> (result: Result<
        (),
        ManifestHashMismatch,
    >)
        ensures
            result is Ok <==> sha256_text(encoded@) == expected@,
    {
        let actual = Self::hash_hex(encoded);
        if crate::text::text_equal(actual.as_str(), expected) {
            Ok(())
        } else {
            Err(ManifestHashMismatch)
        }
    }

    /// The position of the first object with the given number.
    pub fn position(&self, object_id: u64) -> (found: Option<usize>)
        ensures
            match found {
                Some(i) => entry_index(self@.objects, object_id) == Some(i as int) && i
                    < self.objects@.len(),
                None => entry_index(self@.objects, object_id) is None,
            },
    {
        let mut i: usize = 0;
        while i < self.objects.len()
            invariant
                i <= self.objects@.len(),
                forall|k: int| 0 <= k < i ==> #[trigger] self@.objects[k].object_id != object_id,
            decreases self.objects@.len() - i,
        {
            if self.objects[i].object_id == object_id {
                proof {
                    lemma_entry_index_is(self@.objects, object_id, i as int);
                }
                return Some(i);
            }
            i += 1;
        }
        proof {
            lemma_entry_index(self@.objects, object_id);
        }
        None
    }

    /// The leaves that list the objects, `leaf_span` in each but possibly the last.
    pub fn tree_leaves(&self, leaf_span: usize) -> (leaves: Vec<ManifestTreeLeaf>)
        requires
            leaf_span > 0,
        ensures
            leaf_views(leaves@) == manifest_leaves(self@, leaf_span as nat),
    {
        let len = self.objects.len();
        let ghost span = leaf_span as nat;
        let mut leaves: Vec<ManifestTreeLeaf> = Vec::new();
        let mut start: usize = 0;
        assert(leaves@.len() * span == 0) by (nonlinear_arith)
            requires
                leaves@.len() == 0,
        ;
        while start < len
            invariant
                len == self.objects@.len(),
                span == leaf_span,
                span > 0,
                start <= len,
                start < len ==> start == leaves@.len() * span,
                start == len ==> leaves@.len() * span >= len,
                leaves@.len() == 0 || (leaves@.len() - 1) * span < len,
                leaves@.len() <= start,
                forall|i: int|
                    0 <= i < leaves@.len() ==> (#[trigger] leaves@[i])@ == nth_leaf(self@, span, i),
            decreases len - start,
        {
            let ghost i = leaves@.len();
            let take = if leaf_span < len - start {
                leaf_span
            } else {
                len - start
            };
            let objects = clone_objects(&self.objects, start, start + take);
            let start_object_id = self.objects[start].object_id;
            let leaf = ManifestTreeLeaf {
                magic: "TGDRIVE_MANIFEST_LEAF".to_owned(),
                format_version: 1,
                device_uuid: self.device_uuid,
                generation: self.generation,
                leaf_index: leaves.len() as u64,
                start_object_id,
                objects,
            };
            proof {
                assert((i + 1) * span == i * span + span) by (nonlinear_arith);
                let run = nth_run(self@.objects, span, i as int);
                assert(object_views(objects@) =~= run);
                assert(leaf@ =~= nth_leaf(self@, span, i as int));
            }
            leaves.push(leaf);
            start += take;
        }
        proof {
            lemma_run_count(len as nat, span, leaves@.len());
            assert(leaf_views(leaves@) =~= manifest_leaves(self@, span));
        }
        leaves
    }

    /// Puts a manifest together from its stored root and leaves, in whatever order the
    /// leaves come.
    pub fn from_tree_root_and_leaves(
        root: ManifestTreeRoot,
        leaves: Vec<ManifestTreeLeaf>,
    ) -> (result: Result<Self, ManifestTreeError>)
        ensures
            match result {
                Ok(manifest) => tree_manifest(root@, leaf_views(leaves@)) == Ok::<
                    ManifestView,
                    ManifestTreeError,
                >(manifest@),
                Err(error) => tree_manifest(root@, leaf_views(leaves@)) == Err::<
                    ManifestView,
                    ManifestTreeError,
                >(error),
            },
    {
        let ordered = order_leaves(leaves);
        let ghost views = leaf_views(ordered@);
        let count = ordered.len();
        let mut objects: Vec<ManifestObject> = Vec::new();
        let mut position: u64 = 0;
        for leaf in it: ordered
            invariant
                count == ordered@.len(),
                it.seq() == ordered@,
                views == leaf_views(ordered@),
                views == ordered_leaves(leaf_views(leaves@)),
                position == it.index(),
                object_views(objects@) == joined_objects(views.take(it.index())),
                leaves_error(root@, views.take(it.index())) is None,
        {
            let ghost i = it.index();
            let ghost next = views.take(i + 1);
            proof {
                assert(next.drop_last() =~= views.take(i));
                assert(next.last() == leaf@);
            }
            if let Some(error) = check_leaf(&root, &leaf, position) {
                proof {
                    lemma_first_leaf_error(root@, views, i);
                }
                return Err(error);
            }
            let mut leaf = leaf;
            let ghost before = objects@;
            let ghost added = leaf.objects@;
            objects.append(&mut leaf.objects);
            assert(object_views(objects@) =~= object_views(before) + object_views(added));
            position += 1;
        }
        assert(views.take(views.len() as int) =~= views);
        if objects.len() as u64 != root.object_count {
            return Err(ManifestTreeError::ObjectCount);
        }
        let mut i: usize = 0;
        while i < objects.len()
            invariant
                i <= objects@.len(),
                views == ordered_leaves(leaf_views(leaves@)),
                leaves_error(root@, views) is None,
                object_views(objects@) == joined_objects(views),
                objects@.len() == root.object_count,
                forall|k: int| 0 <= k < i ==> #[trigger] object_views(objects@)[k].object_id == k,
            decreases objects@.len() - i,
        {
            if objects[i].object_id != i as u64 {
                assert(object_views(objects@)[i as int].object_id != i);
                return Err(ManifestTreeError::ObjectId);
            }
            i += 1;
        }
        Ok(
            Manifest {
                magic: "TGDRIVE_MANIFEST".to_owned(),
                format_version: 1,
                device_uuid: root.device_uuid,
                generation: root.generation,
                object_size: root.object_size,
                object_count: root.object_count,
                objects,
                garbage: root.garbage,
            },
        )
    }

    /// The root of the tree that stores this manifest, given where its leaves went.
    pub fn tree_root(&self, leaves: Vec<ManifestTreeLeafRef>) -> (root: ManifestTreeRoot)
        ensures
            root@ == tree_root_of(self@, leaf_ref_views(leaves@)),
    {
        ManifestTreeRoot {
            magic: "TGDRIVE_MANIFEST_ROOT".to_owned(),
            format_version: 1,
            device_uuid: self.device_uuid,
            generation: self.generation,
            object_size: self.object_size,
            object_count: self.object_count,
            leaf_span: MANIFEST_TREE_LEAF_SPAN,
            leaves,
            garbage: clone_refs(&self.garbage),
        }
    }

    /// The channel messages that hold remote objects no longer in use.
    pub fn garbage_message_ids(&self) -> (ids: Vec<i32>)
        ensures
            ids@ == Seq::new(self@.garbage.len(), |i: int| self@.garbage[i].message_id),
    {
        let mut ids: Vec<i32> = Vec::new();
        let mut i: usize = 0;
        while i < self.garbage.len()
            invariant
                i <= self.garbage@.len(),
                ids@ == Seq::new(i as nat, |k: int| self@.garbage[k].message_id),
            decreases self.garbage@.len() - i,
        {
            ids.push(self.garbage[i].message_id);
            assert(ids@ =~= Seq::new((i + 1) as nat, |k: int| self@.garbage[k].message_id));
            i += 1;
        }
        ids
    }
}

impl ManifestTreeLeaf {
    /// The object number under which a leaf is stored.
    pub fn object_id_for_index(leaf_index: u64) -> (object_id: u64)
        requires
            leaf_index <= MANIFEST_TREE_LEAF_BASE_OBJECT_ID,
        ensures
            object_id == MANIFEST_TREE_LEAF_BASE_OBJECT_ID - leaf_index,
    {
        MANIFEST_TREE_LEAF_BASE_OBJECT_ID - leaf_index
    }
}

impl ManifestTreeRoot {
    /// The channel messages that hold the leaves, in the order of the references.
    pub fn leaf_message_ids(&self) -> (ids: Vec<i32>)
        ensures
            ids@ == Seq::new(self@.leaves.len(), |i: int| self@.leaves[i].remote.message_id),
    {
        let mut ids: Vec<i32> = Vec::new();
        let mut i: usize = 0;
        while i < self.leaves.len()
            invariant
                i <= self.leaves@.len(),
                ids@ == Seq::new(i as nat, |k: int| self@.leaves[k].remote.message_id),
            decreases self.leaves@.len() - i,
        {
            ids.push(self.leaves[i].remote.message_id);
            assert(ids@ =~= Seq::new((i + 1) as nat, |k: int| self@.leaves[k].remote.message_id));
            i += 1;
        }
        ids
    }
}

fn check_leaf(root: &ManifestTreeRoot, leaf: &ManifestTreeLeaf, position: u64) -> (error: Option<
    ManifestTreeError,
>)
    ensures
        error == leaf_error(root@, leaf@, position as int),
{
    if !crate::text::text_equal(leaf.magic.as_str(), "TGDRIVE_MANIFEST_LEAF") {
        Some(ManifestTreeError::LeafMagic)
    } else if leaf.format_version != 1 {
        Some(ManifestTreeError::LeafVersion)
    } else if leaf.device_uuid != root.device_uuid {
        Some(ManifestTreeError::LeafUuid)
    } else if leaf.generation != root.generation {
        Some(ManifestTreeError::LeafGeneration)
    } else if leaf.leaf_index != position {
        Some(ManifestTreeError::LeafIndex)
    } else {
        None
    }
}

proof fn lemma_leaf_place(ordered: Seq<TreeLeafView>, leaf_index: u64, at: int)
    requires
        0 <= at <= ordered.len(),
        forall|k: int| at <= k < ordered.len() ==> #[trigger] ordered[k].leaf_index > leaf_index,
        at > 0 ==> ordered[at - 1].leaf_index <= leaf_index,
    ensures
        leaf_place(ordered, leaf_index) == at,
    decreases ordered.len(),
{
    if ordered.len() > at {
        assert(ordered[ordered.len() - 1].leaf_index > leaf_index);
        let shorter = ordered.drop_last();
        assert forall|k: int| at <= k < shorter.len() implies #[trigger] shorter[k].leaf_index
            > leaf_index by {
            assert(shorter[k] == ordered[k]);
        }
        lemma_leaf_place(shorter, leaf_index, at);
    }
}

/// Orders the leaves by index, keeping the order of equal ones.
fn order_leaves(leaves: Vec<ManifestTreeLeaf>) -> (ordered: Vec<ManifestTreeLeaf>)
    ensures
        leaf_views(ordered@) == ordered_leaves(leaf_views(leaves@)),
{
    let ghost views = leaf_views(leaves@);
    let mut ordered: Vec<ManifestTreeLeaf> = Vec::new();
    assert(leaf_views(ordered@) =~= ordered_leaves(views.take(0)));
    for leaf in it: leaves
        invariant
            it.seq() == leaves@,
            views == leaf_views(leaves@),
            leaf_views(ordered@) == ordered_leaves(views.take(it.index())),
    {
        let ghost i = it.index();
        let ghost sorted = leaf_views(ordered@);
        let mut at: usize = ordered.len();
        while at > 0 && ordered[at - 1].leaf_index > leaf.leaf_index
            invariant
                at <= ordered@.len(),
                sorted == leaf_views(ordered@),
                forall|k: int|
                    at <= k < ordered@.len() ==> #[trigger] sorted[k].leaf_index > leaf.leaf_index,
            decreases at,
        {
            at -= 1;
        }
        proof {
            lemma_leaf_place(sorted, leaf.leaf_index, at as int);
            assert(views.take(i + 1).drop_last() =~= views.take(i));
            assert(views.take(i + 1).last() == leaf@);
        }
        let ghost before = ordered@;
        ordered.insert(at, leaf);
        assert(leaf_views(ordered@) =~= sorted.insert(at as int, leaf@));
    }
    assert(views.take(views.len() as int) =~= views);
    ordered
}

/// The first bad leaf decides the error for the whole run.
proof fn lemma_first_leaf_error(root: TreeRootView, leaves: Seq<TreeLeafView>, at: int)
    requires
        0 <= at < leaves.len(),
        leaves_error(root, leaves.take(at)) is None,
        leaf_error(root, leaves[at], at) is Some,
    ensures
        leaves_error(root, leaves) == leaf_error(root, leaves[at], at),
    decreases leaves.len(),
{
    if at == leaves.len() - 1 {
        assert(leaves.drop_last() =~= leaves.take(at));
    } else {
        let shorter = leaves.drop_last();
        assert(shorter.take(at) =~= leaves.take(at));
        lemma_first_leaf_error(root, shorter, at);
    }
}

} // verus!
