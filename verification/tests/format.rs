use tgdrive::backend::{MemoryBackend, MessageNotFound, RemoteObjectRef};
use tgdrive::digest::sha256_hex;
use tgdrive::envelope::{FormatError, ObjectEnvelope};
use tgdrive::manifest::{
    Manifest, ManifestTreeError, ManifestTreeLeaf, ManifestTreeLeafRef, ManifestTreeRoot,
    MANIFEST_OBJECT_ID, MANIFEST_TREE_LEAF_SPAN,
};
use tgdrive::wire::{
    bytes_equal, push_bytes, push_u16, push_u32, push_u64, read_u16, read_u32, read_u64,
};
use uuid::Uuid;

#[test]
fn object_round_trip_is_strict() {
    let envelope = ObjectEnvelope {
        object_id: 7,
        generation: 3,
        object_size: 256 * 1024,
        flags: 0,
        payload: b"hello".to_vec(),
    };
    let encoded = envelope.encode();
    assert_eq!(ObjectEnvelope::decode(&encoded, 7, 3).unwrap(), envelope);
    assert!(matches!(
        ObjectEnvelope::decode(&encoded, 8, 3),
        Err(FormatError::ObjectIdMismatch { .. })
    ));
    assert!(matches!(
        ObjectEnvelope::decode(&encoded, 7, 4),
        Err(FormatError::GenerationMismatch { .. })
    ));

    let mut corrupted = encoded;
    let last = corrupted.len() - 1;
    corrupted[last] ^= 1;
    assert!(matches!(
        ObjectEnvelope::decode(&corrupted, 7, 3),
        Err(FormatError::ChecksumMismatch)
    ));

    assert!(matches!(
        ObjectEnvelope::decode(b"short", 7, 3),
        Err(FormatError::Truncated)
    ));

    let mut malformed = envelope.encode();
    malformed[0] = b'X';
    assert!(matches!(
        ObjectEnvelope::decode(&malformed, 7, 3),
        Err(FormatError::InvalidMagic)
    ));
}

#[test]
fn envelopes_have_their_layout() {
    let envelope = ObjectEnvelope {
        object_id: 0x0102_0304_0506_0708,
        generation: 9,
        object_size: 65536,
        flags: 7,
        payload: b"abc".to_vec(),
    };
    let encoded = envelope.encode();
    assert_eq!(encoded.len(), 79);
    assert_eq!(&encoded[..12], b"TGDRV001\x00\x01\x00\x00");
    assert_eq!(&encoded[12..20], &[1, 2, 3, 4, 5, 6, 7, 8]);
    assert_eq!(&encoded[20..28], &[0, 0, 0, 0, 0, 0, 0, 9]);
    assert_eq!(&encoded[28..36], &[0, 0, 0, 0, 0, 0, 0, 3]);
    assert_eq!(&encoded[36..40], &[0, 1, 0, 0]);
    assert_eq!(&encoded[40..44], &[0xba, 0x78, 0x16, 0xbf]);
    assert_eq!(&encoded[68..72], &[0xf2, 0x00, 0x15, 0xad]);
    assert_eq!(&encoded[72..], &[0, 0, 0, 7, b'a', b'b', b'c']);
    assert_eq!(envelope.sha256_hex(), sha256_hex(&encoded));
}

#[test]
fn faulty_envelopes_are_told_apart() {
    let envelope = ObjectEnvelope {
        object_id: 7,
        generation: 3,
        object_size: 64,
        flags: 0,
        payload: b"hello".to_vec(),
    };
    let encoded = envelope.encode();
    assert_eq!(
        ObjectEnvelope::decode(&encoded, 8, 3),
        Err(FormatError::ObjectIdMismatch { expected: 8, actual: 7 })
    );
    assert_eq!(
        ObjectEnvelope::decode(&encoded, 7, 4),
        Err(FormatError::GenerationMismatch { expected: 4, actual: 3 })
    );
    let mut versioned = encoded.clone();
    versioned[9] = 2;
    assert_eq!(
        ObjectEnvelope::decode(&versioned, 7, 3),
        Err(FormatError::UnsupportedVersion(2))
    );
    assert_eq!(
        ObjectEnvelope::decode(&encoded[..80], 7, 3),
        Err(FormatError::PayloadLengthMismatch)
    );
    assert_eq!(ObjectEnvelope::decode(&encoded[..75], 7, 3), Err(FormatError::Truncated));
}

#[test]
fn digests_are_written_in_lower_case() {
    assert_eq!(
        sha256_hex(b"abc"),
        "ba7816bf8f01cfea414140de5dae2223b00361a396177a9cb410ff61f20015ad"
    );
    assert_eq!(
        sha256_hex(b""),
        "e3b0c44298fc1c149afbf4c8996fb92427ae41e4649b934ca495991b7852b855"
    );
}

#[test]
fn manifest_hash_verifies() {
    let manifest = Manifest::empty(Uuid::new_v4().as_u128(), 256 * 1024, 2);
    let encoded = format!("{:?}", manifest).into_bytes();
    let hash = Manifest::hash_hex(&encoded);
    Manifest::verify_hash(&encoded, &hash).unwrap();
    assert!(Manifest::verify_hash(&encoded, "bad").is_err());
}

#[test]
fn manifest_tree_round_trip_rebuilds_flat_manifest() {
    let mut manifest = Manifest::empty(Uuid::new_v4().as_u128(), 256 * 1024, 5);
    manifest.generation = 3;
    manifest.objects[2].zero = false;
    manifest.objects[2].sha256 = Some("abc".to_string());
    let leaves = manifest.tree_leaves(2);
    assert_eq!(leaves.len(), 3);
    let refs = leaf_refs(&leaves);
    let root = ManifestTreeRoot {
        magic: "TGDRIVE_MANIFEST_ROOT".to_string(),
        format_version: 1,
        device_uuid: manifest.device_uuid,
        generation: manifest.generation,
        object_size: manifest.object_size,
        object_count: manifest.object_count,
        leaf_span: 2,
        leaves: refs,
        garbage: manifest.garbage.clone(),
    };
    assert_eq!(
        Manifest::from_tree_root_and_leaves(root, leaves).unwrap(),
        manifest
    );
}

fn leaf_refs(leaves: &[ManifestTreeLeaf]) -> Vec<ManifestTreeLeafRef> {
    leaves
        .iter()
        .map(|leaf| ManifestTreeLeafRef {
            leaf_index: leaf.leaf_index,
            start_object_id: leaf.start_object_id,
            object_count: leaf.objects.len() as u64,
            remote: RemoteObjectRef {
                chat_id: -100,
                message_id: leaf.leaf_index as i32 + 10,
                object_id: ManifestTreeLeaf::object_id_for_index(leaf.leaf_index),
                generation: leaf.generation,
                sha256: format!("sha{}", leaf.leaf_index),
            },
        })
        .collect()
}

/// A small manifest, cut into leaves, with its root.
fn small_tree() -> (ManifestTreeRoot, Vec<ManifestTreeLeaf>) {
    let manifest = Manifest::empty(7, 256 * 1024, 5);
    let leaves = manifest.tree_leaves(2);
    (manifest.tree_root(leaf_refs(&leaves)), leaves)
}

#[test]
fn leaves_come_in_any_order() {
    let (root, mut leaves) = small_tree();
    leaves.reverse();
    let manifest = Manifest::from_tree_root_and_leaves(root, leaves).unwrap();
    assert_eq!(manifest, Manifest::empty(7, 256 * 1024, 5));
}

#[test]
fn repeated_leaves_are_refused_in_every_order() {
    let (root, mut leaves) = small_tree();
    leaves[0].leaf_index = 1;
    assert_eq!(
        Manifest::from_tree_root_and_leaves(root, leaves),
        Err(ManifestTreeError::LeafIndex)
    );
    let (root, mut leaves) = small_tree();
    leaves[0].leaf_index = 1;
    leaves.reverse();
    assert_eq!(
        Manifest::from_tree_root_and_leaves(root, leaves),
        Err(ManifestTreeError::LeafIndex)
    );
}

#[test]
fn faulty_trees_are_told_apart() {
    let broken = |change: fn(&mut ManifestTreeRoot, &mut Vec<ManifestTreeLeaf>)| {
        let (mut root, mut leaves) = small_tree();
        change(&mut root, &mut leaves);
        Manifest::from_tree_root_and_leaves(root, leaves).unwrap_err()
    };
    assert_eq!(broken(|_, leaves| leaves[1].magic.push('X')), ManifestTreeError::LeafMagic);
    assert_eq!(broken(|_, leaves| leaves[1].format_version = 2), ManifestTreeError::LeafVersion);
    assert_eq!(broken(|_, leaves| leaves[1].device_uuid = 8), ManifestTreeError::LeafUuid);
    assert_eq!(broken(|_, leaves| leaves[1].generation = 1), ManifestTreeError::LeafGeneration);
    assert_eq!(broken(|_, leaves| leaves[1].leaf_index = 2), ManifestTreeError::LeafIndex);
    assert_eq!(broken(|root, _| root.object_count = 6), ManifestTreeError::ObjectCount);
    assert_eq!(
        broken(|_, leaves| leaves[1].objects[0].object_id = 3),
        ManifestTreeError::ObjectId
    );
}

#[test]
fn empty_manifests_list_unwritten_objects() {
    let manifest = Manifest::empty(7, 65536, 3);
    assert_eq!(manifest.magic, "TGDRIVE_MANIFEST");
    assert_eq!((manifest.format_version, manifest.generation), (1, 0));
    assert_eq!((manifest.object_size, manifest.object_count), (65536, 3));
    let numbers: Vec<u64> = manifest.objects.iter().map(|object| object.object_id).collect();
    assert_eq!(numbers, vec![0, 1, 2]);
    assert!(manifest.objects.iter().all(|object| object.zero && object.remote.is_none()));
    assert_eq!(manifest.position(2), Some(2));
    assert_eq!(manifest.position(3), None);
    assert!(manifest.tree_leaves(4).len() == 1);
    assert_eq!(manifest.tree_leaves(2)[1].start_object_id, 2);
    assert_eq!(manifest.tree_leaves(2)[1].magic, "TGDRIVE_MANIFEST_LEAF");
}

#[test]
fn leaves_are_numbered_from_the_top() {
    assert_eq!(ManifestTreeLeaf::object_id_for_index(0), u64::MAX - 1_000_000);
    assert_eq!(ManifestTreeLeaf::object_id_for_index(7), u64::MAX - 1_000_007);
    assert_eq!(MANIFEST_OBJECT_ID, u64::MAX - 1);
    let (root, _) = small_tree();
    assert_eq!(root.leaf_message_ids(), vec![10, 11, 12]);
    assert_eq!(root.leaf_span, MANIFEST_TREE_LEAF_SPAN);
}

#[test]
fn garbage_is_listed_by_message() {
    let mut manifest = Manifest::empty(7, 65536, 1);
    assert!(manifest.garbage_message_ids().is_empty());
    let (root, _) = small_tree();
    manifest.garbage = root.leaves.iter().map(|leaf| leaf.remote.clone()).collect();
    assert_eq!(manifest.garbage_message_ids(), vec![10, 11, 12]);
}

#[test]
fn messages_are_kept_by_number() {
    let mut backend = MemoryBackend::new(-100);
    assert_eq!(backend.next_message_id(), 1);
    let first = backend.send_object(4, 2, b"one".to_vec(), "sha".to_string());
    let second = backend.send_object(5, 2, b"two".to_vec(), "sha".to_string());
    assert_eq!((first.message_id, first.object_id, first.generation), (1, 4, 2));
    assert_eq!(backend.fetch_object(&second).unwrap(), b"two");
    let missing = RemoteObjectRef { message_id: 9, ..first };
    assert_eq!(backend.fetch_object(&missing), Err(MessageNotFound { message_id: 9 }));
    assert_eq!(
        backend.get_messages_by_id(&[2, 9, 1]),
        vec![Some(b"two".to_vec()), None, Some(b"one".to_vec())]
    );
}

#[test]
fn numbers_are_written_big_end_first() {
    let mut out = Vec::new();
    push_u16(&mut out, 0x0102);
    push_u32(&mut out, 0x0304_0506);
    push_u64(&mut out, 7);
    push_bytes(&mut out, b"x");
    assert_eq!(out, vec![1, 2, 3, 4, 5, 6, 0, 0, 0, 0, 0, 0, 0, 7, b'x']);
    assert_eq!(read_u16(&out, 0), 0x0102);
    assert_eq!(read_u32(&out, 2), 0x0304_0506);
    assert_eq!(read_u64(&out, 6), 7);
    assert!(bytes_equal(b"ab", b"ab"));
    assert!(!bytes_equal(b"ab", b"abc"));
}
