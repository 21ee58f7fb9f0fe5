//! The superblock: the small text in the channel that leads to the manifest.
use vstd::prelude::*;
use vstd::string::StringExecFns;

use crate::backend::{clone_opt_text, opt_text_view, RemoteObjectRef, RemoteObjectRefView};
use crate::clock::{is_random_uuid, now_utc, random_uuid, writable_time, Timestamp};
use crate::manifest::{ManifestEncoding, MANIFEST_OBJECT_ID};
use crate::text::strip_prefix;

verus! {

/// The device's identity and sizes, and where its current and previous manifests lie.
#[derive(Debug, PartialEq, Eq)]
pub struct Superblock {
    pub magic: String,
    pub format_version: u16,
    pub device_uuid: u128,
    pub device_size: u64,
    pub logical_sector_size: u32,
    pub object_size: u32,
    pub current_manifest_message_id: i32,
    pub manifest_generation: u64,
    pub manifest_hash: String,
    pub previous_manifest_message_id: Option<i32>,
    pub previous_manifest_hash: Option<String>,
    pub previous_manifest_generation: Option<u64>,
    pub manifest_encoding: ManifestEncoding,
    pub root_index_message_id: Option<i32>,
    pub created_at: Timestamp,
    pub last_commit_at: Timestamp,
}

/// The value of a [`Superblock`].
#[verifier::ext_equal]
pub struct SuperblockView {
    pub magic: Seq<char>,
    pub format_version: u16,
    pub device_uuid: u128,
    pub device_size: u64,
    pub logical_sector_size: u32,
    pub object_size: u32,
    pub current_manifest_message_id: i32,
    pub manifest_generation: u64,
    pub manifest_hash: Seq<char>,
    pub previous_manifest_message_id: Option<i32>,
    pub previous_manifest_hash: Option<Seq<char>>,
    pub previous_manifest_generation: Option<u64>,
    pub manifest_encoding: ManifestEncoding,
    pub root_index_message_id: Option<i32>,
    pub created_at: Timestamp,
    pub last_commit_at: Timestamp,
}

impl View for Superblock {
    type V = SuperblockView;

    open spec fn view(&self) -> SuperblockView {
        SuperblockView {
            magic: self.magic@,
            format_version: self.format_version,
            device_uuid: self.device_uuid,
            device_size: self.device_size,
            logical_sector_size: self.logical_sector_size,
            object_size: self.object_size,
            current_manifest_message_id: self.current_manifest_message_id,
            manifest_generation: self.manifest_generation,
            manifest_hash: self.manifest_hash@,
            previous_manifest_message_id: self.previous_manifest_message_id,
            previous_manifest_hash: opt_text_view(self.previous_manifest_hash),
            previous_manifest_generation: self.previous_manifest_generation,
            manifest_encoding: self.manifest_encoding,
            root_index_message_id: self.root_index_message_id,
            created_at: self.created_at,
            last_commit_at: self.last_commit_at,
        }
    }
}

/// The magic text of a superblock.
pub open spec fn superblock_magic() -> Seq<char> {
    "TGDRIVE_SUPERBLOCK"@
}

/// The line that every superblock text starts with.
pub open spec fn superblock_prefix() -> Seq<char> {
    "TGDRIVE_SUPERBLOCK_V1\n"@
}

/// The superblock that leads to a flat manifest stored at `manifest_ref`, committed at
/// `now` over the superblock `previous`.
pub open spec fn flat_superblock(
    device_uuid: u128,
    device_size: u64,
    logical_sector_size: u32,
    object_size: u32,
    manifest_ref: RemoteObjectRefView,
    previous: Option<SuperblockView>,
    now: Timestamp,
) -> SuperblockView {
    SuperblockView {
        magic: superblock_magic(),
        format_version: 1,
        device_uuid,
        device_size,
        logical_sector_size,
        object_size,
        current_manifest_message_id: manifest_ref.message_id,
        manifest_generation: manifest_ref.generation,
        manifest_hash: manifest_ref.sha256,
        previous_manifest_message_id: match previous {
            Some(p) => Some(p.current_manifest_message_id),
            None => None,
        },
        previous_manifest_hash: match previous {
            Some(p) => Some(p.manifest_hash),
            None => None,
        },
        previous_manifest_generation: match previous {
            Some(p) => Some(p.manifest_generation),
            None => None,
        },
        manifest_encoding: ManifestEncoding::FlatJson,
        root_index_message_id: None,
        created_at: match previous {
            Some(p) => p.created_at,
            None => now,
        },
        last_commit_at: now,
    }
}

/// The same for a manifest that is stored as a tree whose root lies at `root_ref`.
pub open spec fn tree_superblock(
    device_uuid: u128,
    device_size: u64,
    logical_sector_size: u32,
    object_size: u32,
    root_ref: RemoteObjectRefView,
    previous: Option<SuperblockView>,
    now: Timestamp,
) -> SuperblockView {
    SuperblockView {
        manifest_encoding: ManifestEncoding::Tree,
        root_index_message_id: Some(root_ref.message_id),
        ..flat_superblock(
            device_uuid,
            device_size,
            logical_sector_size,
            object_size,
            root_ref,
            previous,
            now,
        )
    }
}

/// The value of a superblock that may be absent.
pub open spec fn opt_superblock_view(superblock: Option<&Superblock>) -> Option<SuperblockView> {
    match superblock {
        Some(s) => Some(s@),
        None => None,
    }
}

/// The text is no superblock.
#[derive(Debug, Clone, Copy, PartialEq, Eq, Structural)]
pub struct MissingPrefix;

/// What a superblock lacks for going back to the manifest before the current one.
#[derive(Debug, Clone, Copy, PartialEq, Eq, Structural)]
pub enum NoPrevious {
    Manifest,
    Hash,
    Generation,
}

/// The superblock as it would read if the previous manifest were the current one.
pub open spec fn stepped_back(superblock: SuperblockView) -> Result<SuperblockView, NoPrevious> {
    match (
        superblock.previous_manifest_message_id,
        superblock.previous_manifest_hash,
        superblock.previous_manifest_generation,
    ) {
        (None, _, _) => Err(NoPrevious::Manifest),
        (_, None, _) => Err(NoPrevious::Hash),
        (_, _, None) => Err(NoPrevious::Generation),
        (Some(message_id), Some(hash), Some(generation)) => Ok(
            SuperblockView {
                current_manifest_message_id: message_id,
                manifest_hash: hash,
                manifest_generation: generation,
                previous_manifest_message_id: None,
                previous_manifest_hash: None,
                previous_manifest_generation: None,
                ..superblock
            },
        ),
    }
}

/// Where the manifest lies that a superblock leads to.
pub open spec fn manifest_ref_of(superblock: SuperblockView, chat_id: i64) -> RemoteObjectRefView {
    RemoteObjectRefView {
        chat_id,
        message_id: superblock.current_manifest_message_id,
        object_id: MANIFEST_OBJECT_ID,
        generation: superblock.manifest_generation,
        sha256: superblock.manifest_hash,
    }
}

impl Clone for Superblock {
    fn clone(&self) -> (copy: Self)
        ensures
            copy == *self,
    {
        Superblock {
            magic: self.magic.clone(),
            format_version: self.format_version,
            device_uuid: self.device_uuid,
            device_size: self.device_size,
            logical_sector_size: self.logical_sector_size,
            object_size: self.object_size,
            current_manifest_message_id: self.current_manifest_message_id,
            manifest_generation: self.manifest_generation,
            manifest_hash: self.manifest_hash.clone(),
            previous_manifest_message_id: self.previous_manifest_message_id,
            previous_manifest_hash: clone_opt_text(&self.previous_manifest_hash),
            previous_manifest_generation: self.previous_manifest_generation,
            manifest_encoding: self.manifest_encoding,
            root_index_message_id: self.root_index_message_id,
            created_at: self.created_at,
            last_commit_at: self.last_commit_at,
        }
    }
}

impl Superblock {
    /// The first superblock of a new device, which gets a random identity.
    pub fn new(
        device_size: u64,
        logical_sector_size: u32,
        object_size: u32,
        manifest_ref: &RemoteObjectRef,
    ) -> (superblock: Self)
        ensures
            is_random_uuid(superblock.device_uuid),
            superblock.last_commit_at.offset_seconds == 0,
            writable_time(superblock.last_commit_at.unix_nanos as int),
            superblock@ == flat_superblock(
                superblock.device_uuid,
                device_size,
                logical_sector_size,
                object_size,
                manifest_ref@,
                None,
                superblock.last_commit_at,
            ),
    {
        let now = now_utc();
        let device_uuid = random_uuid();
        Self::for_manifest_at(
            device_uuid,
            device_size,
            logical_sector_size,
            object_size,
            manifest_ref,
            None,
            now,
        )
    }

    /// The superblock that leads to a flat manifest, committed at `now`.
    pub fn for_manifest_at(
        device_uuid: u128,
        device_size: u64,
        logical_sector_size: u32,
        object_size: u32,
        manifest_ref: &RemoteObjectRef,
        previous: Option<&Superblock>,
        now: Timestamp,
    ) -> (superblock: Self)
        ensures
            superblock@ == flat_superblock(
                device_uuid,
                device_size,
                logical_sector_size,
                object_size,
                manifest_ref@,
                opt_superblock_view(previous),
                now,
            ),
    {
        Superblock {
            magic: "TGDRIVE_SUPERBLOCK".to_owned(),
            format_version: 1,
            device_uuid,
            device_size,
            logical_sector_size,
            object_size,
            current_manifest_message_id: manifest_ref.message_id,
            manifest_generation: manifest_ref.generation,
            manifest_hash: manifest_ref.sha256.clone(),
            previous_manifest_message_id: match previous {
                Some(p) => Some(p.current_manifest_message_id),
                None => None,
            },
            previous_manifest_hash: match previous {
                Some(p) => Some(p.manifest_hash.clone()),
                None => None,
            },
            previous_manifest_generation: match previous {
                Some(p) => Some(p.manifest_generation),
                None => None,
            },
            manifest_encoding: ManifestEncoding::FlatJson,
            root_index_message_id: None,
            created_at: match previous {
                Some(p) => p.created_at,
                None => now,
            },
            last_commit_at: now,
        }
    }

    /// The superblock that leads to a flat manifest, committed now.
    pub fn for_manifest(
        device_uuid: u128,
        device_size: u64,
        logical_sector_size: u32,
        object_size: u32,
        manifest_ref: &RemoteObjectRef,
        previous: Option<&Superblock>,
    ) -> (superblock: Self)
        ensures
            superblock.last_commit_at.offset_seconds == 0,
            writable_time(superblock.last_commit_at.unix_nanos as int),
            superblock@ == flat_superblock(
                device_uuid,
                device_size,
                logical_sector_size,
                object_size,
                manifest_ref@,
                opt_superblock_view(previous),
                superblock.last_commit_at,
            ),
    {
        let now = now_utc();
        Self::for_manifest_at(
            device_uuid,
            device_size,
            logical_sector_size,
            object_size,
            manifest_ref,
            previous,
            now,
        )
    }

    /// The superblock that leads to a manifest stored as a tree, committed at `now`.
    pub fn for_tree_manifest_at(
        device_uuid: u128,
        device_size: u64,
        logical_sector_size: u32,
        object_size: u32,
        root_ref: &RemoteObjectRef,
        previous: Option<&Superblock>,
        now: Timestamp,
    ) -> (superblock: Self)
        ensures
            superblock@ == tree_superblock(
                device_uuid,
                device_size,
                logical_sector_size,
                object_size,
                root_ref@,
                opt_superblock_view(previous),
                now,
            ),
    {
        let mut superblock = Self::for_manifest_at(
            device_uuid,
            device_size,
            logical_sector_size,
            object_size,
            root_ref,
            previous,
            now,
        );
        superblock.manifest_encoding = ManifestEncoding::Tree;
        superblock.root_index_message_id = Some(root_ref.message_id);
        superblock
    }

    /// The superblock that leads to a manifest stored as a tree, committed now.
    pub fn for_tree_manifest(
        device_uuid: u128,
        device_size: u64,
        logical_sector_size: u32,
        object_size: u32,
        root_ref: &RemoteObjectRef,
        previous: Option<&Superblock>,
    ) -> (superblock: Self)
        ensures
            superblock.last_commit_at.offset_seconds == 0,
            writable_time(superblock.last_commit_at.unix_nanos as int),
            superblock@ == tree_superblock(
                device_uuid,
                device_size,
                logical_sector_size,
                object_size,
                root_ref@,
                opt_superblock_view(previous),
                superblock.last_commit_at,
            ),
    {
        let now = now_utc();
        Self::for_tree_manifest_at(
            device_uuid,
            device_size,
            logical_sector_size,
            object_size,
            root_ref,
            previous,
            now,
        )
    }

    /// The channel text of a superblock, from its encoded fields.
    pub fn encode_text(encoded: &str) -> (text: String)
        ensures
            text@ == superblock_prefix() + encoded@,
    {
        let mut text = "TGDRIVE_SUPERBLOCK_V1\n".to_owned();
        text.append(encoded);
        text
    }

    /// The encoded fields in the channel text of a superblock.
    pub fn decode_text(text: &str) -> (result: Result<String, MissingPrefix>)
        ensures
            match result {
                Ok(encoded) => text@ == superblock_prefix() + encoded@,
                Err(_) => !superblock_prefix().is_prefix_of(text@),
            },
    {
        match strip_prefix(text, "TGDRIVE_SUPERBLOCK_V1\n") {
            Some(encoded) => Ok(encoded),
            None => Err(MissingPrefix),
        }
    }

    /// The superblock as it would read if the previous manifest were the current one.
    pub fn step_back(&self) -> (result: Result<Superblock, NoPrevious>)
        ensures
            match result {
                Ok(previous) => stepped_back(self@) == Ok::<SuperblockView, NoPrevious>(previous@),
                Err(missing) => stepped_back(self@) == Err::<SuperblockView, NoPrevious>(missing),
            },
    {
        let message_id = match self.previous_manifest_message_id {
            Some(id) => id,
            None => return Err(NoPrevious::Manifest),
        };
        let hash = match &self.previous_manifest_hash {
            Some(hash) => hash.clone(),
            None => return Err(NoPrevious::Hash),
        };
        let generation = match self.previous_manifest_generation {
            Some(generation) => generation,
            None => return Err(NoPrevious::Generation),
        };
        let mut previous = self.clone();
        previous.current_manifest_message_id = message_id;
        previous.manifest_hash = hash;
        previous.manifest_generation = generation;
        previous.previous_manifest_message_id = None;
        previous.previous_manifest_hash = None;
        previous.previous_manifest_generation = None;
        Ok(previous)
    }

    /// Where the manifest lies that this superblock leads to.
    pub fn manifest_ref(&self, chat_id: i64) -> (reference: RemoteObjectRef)
        ensures
            reference@ == manifest_ref_of(self@, chat_id),
    {
        RemoteObjectRef {
            chat_id,
            message_id: self.current_manifest_message_id,
            object_id: MANIFEST_OBJECT_ID,
            generation: self.manifest_generation,
            sha256: self.manifest_hash.clone(),
        }
    }
}

/// Every text that was written for a superblock is recognised, and gives back the
/// encoded fields.
pub proof fn law_superblock_text_round_trip(encoded: Seq<char>, text: Seq<char>, rest: Seq<char>)
    requires
        text == superblock_prefix() + encoded,
    ensures
        superblock_prefix().is_prefix_of(text),
        text == superblock_prefix() + rest ==> rest == encoded,
{
    assert(text.take(superblock_prefix().len() as int) =~= superblock_prefix());
    if text == superblock_prefix() + rest {
        assert(rest =~= text.skip(superblock_prefix().len() as int));
        assert(encoded =~= text.skip(superblock_prefix().len() as int));
    }
}

/// A commit can be undone: going back from the superblock of a commit leads to the
/// manifest that was current before it, on the same device.
pub proof fn law_commit_can_be_undone(
    device_size: u64,
    logical_sector_size: u32,
    object_size: u32,
    manifest_ref: RemoteObjectRefView,
    previous: SuperblockView,
    now: Timestamp,
    chat_id: i64,
)
    ensures
        ({
            let committed = flat_superblock(
                previous.device_uuid,
                device_size,
                logical_sector_size,
                object_size,
                manifest_ref,
                Some(previous),
                now,
            );
            &&& stepped_back(committed) is Ok
            &&& manifest_ref_of(stepped_back(committed)->Ok_0, chat_id) == manifest_ref_of(
                previous,
                chat_id,
            )
            &&& stepped_back(committed)->Ok_0.device_uuid == previous.device_uuid
            &&& committed.created_at == previous.created_at
        }),
{
}

/// A superblock says what it was made from: the identity and the sizes of the device, where the
/// manifest lies, and where the one before it lay; it keeps the time at which the device began.
/// That of a tree says so and names its root, and is like that of a flat manifest otherwise.
pub proof fn law_superblock_says_what_it_was_made_from(
    device_uuid: u128,
    device_size: u64,
    logical_sector_size: u32,
    object_size: u32,
    reference: RemoteObjectRefView,
    previous: Option<SuperblockView>,
    now: Timestamp,
    chat_id: i64,
)
    ensures
        ({
            let flat = flat_superblock(
                device_uuid,
                device_size,
                logical_sector_size,
                object_size,
                reference,
                previous,
                now,
            );
            let tree = tree_superblock(
                device_uuid,
                device_size,
                logical_sector_size,
                object_size,
                reference,
                previous,
                now,
            );
            &&& flat.magic == "TGDRIVE_SUPERBLOCK"@
            &&& flat.format_version == 1
            &&& flat.device_uuid == device_uuid
            &&& flat.device_size == device_size
            &&& flat.logical_sector_size == logical_sector_size
            &&& flat.object_size == object_size
            &&& flat.current_manifest_message_id == reference.message_id
            &&& flat.manifest_generation == reference.generation
            &&& flat.manifest_hash == reference.sha256
            &&& flat.manifest_encoding is FlatJson
            &&& flat.root_index_message_id is None
            &&& flat.last_commit_at == now
            &&& flat.created_at == if previous is Some {
                previous->0.created_at
            } else {
                now
            }
            &&& previous is None ==> flat.previous_manifest_message_id is None
                && flat.previous_manifest_hash is None && flat.previous_manifest_generation is None
            &&& previous is Some ==> {
                &&& flat.previous_manifest_message_id == Some(
                    previous->0.current_manifest_message_id,
                )
                &&& flat.previous_manifest_hash == Some(previous->0.manifest_hash)
                &&& flat.previous_manifest_generation == Some(previous->0.manifest_generation)
            }
            &&& tree.manifest_encoding is Tree
            &&& tree.root_index_message_id == Some(reference.message_id)
            &&& flat == (SuperblockView {
                manifest_encoding: flat.manifest_encoding,
                root_index_message_id: flat.root_index_message_id,
                ..tree
            })
            &&& manifest_ref_of(flat, chat_id).chat_id == chat_id
            &&& manifest_ref_of(flat, chat_id).message_id == reference.message_id
            &&& manifest_ref_of(flat, chat_id).object_id == 0xffff_ffff_ffff_fffe
            &&& manifest_ref_of(flat, chat_id).generation == reference.generation
            &&& manifest_ref_of(flat, chat_id).sha256 == reference.sha256
        }),
{
}

/// Going back takes all that names the previous manifest, and names what is missing first; it
/// changes where the manifest lies and nothing of the device, and can be done once.
pub proof fn law_going_back_needs_the_previous_manifest(superblock: SuperblockView)
    ensures
        ({
            let back = stepped_back(superblock);
            let (id, hash, generation) = (
                superblock.previous_manifest_message_id,
                superblock.previous_manifest_hash,
                superblock.previous_manifest_generation,
            );
            &&& back == Err::<SuperblockView, NoPrevious>(NoPrevious::Manifest) <==> id is None
            &&& back == Err::<SuperblockView, NoPrevious>(NoPrevious::Hash) <==> id is Some && hash
                is None
            &&& back == Err::<SuperblockView, NoPrevious>(NoPrevious::Generation) <==> id is Some
                && hash is Some && generation is None
            &&& back is Ok <==> id is Some && hash is Some && generation is Some
            &&& back is Ok ==> {
                let b = back->Ok_0;
                &&& b.current_manifest_message_id == id->0
                &&& b.manifest_hash == hash->0
                &&& b.manifest_generation == generation->0
                &&& b.magic == superblock.magic
                &&& b.format_version == superblock.format_version
                &&& b.device_uuid == superblock.device_uuid
                &&& b.device_size == superblock.device_size
                &&& b.logical_sector_size == superblock.logical_sector_size
                &&& b.object_size == superblock.object_size
                &&& b.manifest_encoding == superblock.manifest_encoding
                &&& b.root_index_message_id == superblock.root_index_message_id
                &&& b.created_at == superblock.created_at
                &&& b.last_commit_at == superblock.last_commit_at
                &&& stepped_back(b) is Err
            }
        }),
{
}

} // verus!
