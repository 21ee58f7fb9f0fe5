use tgdrive::backend::{MemoryBackend, RemoteObjectRef};
use tgdrive::block::BlockMap;
use tgdrive::clock::Timestamp;
use tgdrive::commit::{CommitAction, CommitError, CommitReply, CommitStep};
use tgdrive::config::TgDriveConfig;
use tgdrive::digest::sha256_hex;
use tgdrive::envelope::{FormatError, ObjectEnvelope};
use tgdrive::manifest::{
    Manifest, ManifestEncoding, ManifestTreeLeaf, ManifestTreeRoot, MANIFEST_OBJECT_ID,
};
use tgdrive::recovery::{
    resume_fetch, resume_recovery, same_device, start_recovery, FetchAction, FetchReply, FetchStep,
    ManifestFetchError, RecoverError, RecoverStep,
};
use tgdrive::superblock::{MissingPrefix, NoPrevious, Superblock};
use tgdrive::telegram::{
    batches, check_fetched, classify_error, classify_invocation_error, has_title, plan_publish,
    prepare_upload, rpc_name_is, says_none_pinned, ErrorCause, FetchError, InvalidChannel,
    InvocationFailure, PeerPlan, PinnedMessage, PublishPlan, SuperblockScan, TelegramClientConfig,
    TelegramErrorKind,
};

const THEN: Timestamp = Timestamp { unix_nanos: 1_000, offset_seconds: 0 };
const LATER: Timestamp = Timestamp { unix_nanos: 2_000, offset_seconds: 0 };

fn map() -> BlockMap {
    BlockMap::new(64 * 1024 * 1024, 4096, 256 * 1024).unwrap()
}

fn reference(message_id: i32, generation: u64) -> RemoteObjectRef {
    RemoteObjectRef {
        chat_id: -100,
        message_id,
        object_id: MANIFEST_OBJECT_ID,
        generation,
        sha256: format!("sha{}", message_id),
    }
}

fn superblock(message_id: i32, previous: Option<&Superblock>) -> Superblock {
    Superblock::for_manifest_at(
        7,
        64 * 1024 * 1024,
        4096,
        256 * 1024,
        &reference(message_id, message_id as u64),
        previous,
        THEN,
    )
}

/// A channel that keeps the values behind the texts and bytes that it was asked to write:
/// the position in a list stands for the content.
struct Channel {
    messages: MemoryBackend,
    manifests: Vec<Manifest>,
    leaves: Vec<ManifestTreeLeaf>,
    roots: Vec<ManifestTreeRoot>,
    superblocks: Vec<Superblock>,
    published: Vec<String>,
}

fn mark(kind: u8, at: usize) -> Vec<u8> {
    let mut bytes = vec![kind];
    bytes.extend((at as u32).to_be_bytes());
    bytes
}

fn marked(kind: u8, bytes: &[u8]) -> usize {
    assert_eq!(bytes[0], kind);
    u32::from_be_bytes(bytes[1..5].try_into().unwrap()) as usize
}

impl Channel {
    fn new() -> Self {
        Channel {
            messages: MemoryBackend::new(-100),
            manifests: Vec::new(),
            leaves: Vec::new(),
            roots: Vec::new(),
            superblocks: Vec::new(),
            published: Vec::new(),
        }
    }

    fn payload(&self, reference: &RemoteObjectRef) -> Option<Vec<u8>> {
        self.messages.fetch_object(reference).ok()
    }

    fn answer(&mut self, manifest: &Manifest, action: CommitAction) -> CommitReply {
        match action {
            CommitAction::EncodeManifest => {
                self.manifests.push(manifest.clone());
                CommitReply::Encoded { bytes: mark(b'm', self.manifests.len() - 1) }
            }
            CommitAction::EncodeLeaf { leaf } => {
                self.leaves.push(leaf);
                CommitReply::Encoded { bytes: mark(b'l', self.leaves.len() - 1) }
            }
            CommitAction::EncodeRoot { root } => {
                self.roots.push(root);
                CommitReply::Encoded { bytes: mark(b'r', self.roots.len() - 1) }
            }
            CommitAction::Send { object_id, generation, payload, sha256 } => {
                assert_eq!(sha256, sha256_hex(&payload));
                CommitReply::Sent {
                    reference: self.messages.send_object(object_id, generation, payload, sha256),
                }
            }
            CommitAction::Fetch { reference } => {
                CommitReply::Fetched { payload: self.payload(&reference) }
            }
            CommitAction::ReadPinned => {
                CommitReply::Pinned { superblock: self.superblocks.last().cloned() }
            }
            CommitAction::EncodeSuperblock { superblock } => {
                self.superblocks.push(superblock);
                CommitReply::Text { encoded: format!("{}", self.superblocks.len() - 1) }
            }
            CommitAction::Publish { text } => {
                self.published.push(text);
                CommitReply::Published
            }
        }
    }

    fn commit(&mut self, manifest: &Manifest) -> Result<(), CommitError> {
        let mut step = manifest.start_commit();
        loop {
            match step {
                CommitStep::Finished => return Ok(()),
                CommitStep::Refused { error } => return Err(error),
                CommitStep::Wait { op, action } => {
                    let reply = self.answer(manifest, action);
                    step = manifest.resume_commit_at(&map(), op, reply, LATER);
                }
            }
        }
    }

    fn fetch(&self, superblock: &Superblock) -> Result<Manifest, ManifestFetchError> {
        let mut step = superblock.start_fetch(-100);
        loop {
            match step {
                FetchStep::Found { manifest } => return Ok(manifest),
                FetchStep::Refused { error } => return Err(error),
                FetchStep::Wait { op, action } => {
                    let reply = match action {
                        FetchAction::Fetch { reference } => {
                            FetchReply::Fetched { payload: self.payload(&reference) }
                        }
                        FetchAction::FetchMany { ids } => {
                            FetchReply::Messages { payloads: self.messages.get_messages_by_id(&ids) }
                        }
                        FetchAction::DecodeManifest { payload } => FetchReply::Manifest {
                            manifest: self.manifests[marked(b'm', &payload)].clone(),
                        },
                        FetchAction::DecodeRoot { payload } => {
                            let root = &self.roots[marked(b'r', &payload)];
                            FetchReply::Root { root: copy_of_root(root) }
                        }
                        FetchAction::DecodeLeaf { payload } => {
                            let leaf = &self.leaves[marked(b'l', &payload)];
                            FetchReply::Leaf { leaf: copy_of_leaf(leaf) }
                        }
                    };
                    step = resume_fetch(op, reply);
                }
            }
        }
    }
}

fn copy_of_root(root: &ManifestTreeRoot) -> ManifestTreeRoot {
    ManifestTreeRoot {
        magic: root.magic.clone(),
        format_version: root.format_version,
        device_uuid: root.device_uuid,
        generation: root.generation,
        object_size: root.object_size,
        object_count: root.object_count,
        leaf_span: root.leaf_span,
        leaves: root
            .leaves
            .iter()
            .map(|leaf| tgdrive::manifest::ManifestTreeLeafRef {
                leaf_index: leaf.leaf_index,
                start_object_id: leaf.start_object_id,
                object_count: leaf.object_count,
                remote: leaf.remote.clone(),
            })
            .collect(),
        garbage: root.garbage.clone(),
    }
}

fn copy_of_leaf(leaf: &ManifestTreeLeaf) -> ManifestTreeLeaf {
    ManifestTreeLeaf {
        magic: leaf.magic.clone(),
        format_version: leaf.format_version,
        device_uuid: leaf.device_uuid,
        generation: leaf.generation,
        leaf_index: leaf.leaf_index,
        start_object_id: leaf.start_object_id,
        objects: leaf.objects.clone(),
    }
}

#[test]
fn committed_manifests_are_recovered() {
    let mut channel = Channel::new();
    let mut manifest = Manifest::empty(7, 256 * 1024, 256);
    manifest.generation = 3;
    channel.commit(&manifest).unwrap();
    assert_eq!(channel.published, vec!["TGDRIVE_SUPERBLOCK_V1\n0".to_string()]);
    let found = &channel.superblocks[0];
    assert_eq!(found.manifest_encoding, ManifestEncoding::FlatJson);
    assert_eq!((found.current_manifest_message_id, found.manifest_generation), (1, 3));
    assert_eq!((found.device_uuid, found.created_at), (7, LATER));
    assert_eq!(channel.fetch(found).unwrap(), manifest);
}

#[test]
fn large_manifests_are_committed_as_trees() {
    let mut channel = Channel::new();
    let mut manifest = Manifest::empty(7, 256 * 1024, 4097);
    manifest.generation = 2;
    channel.commit(&manifest).unwrap();
    assert_eq!((channel.leaves.len(), channel.roots.len()), (2, 1));
    assert_eq!(channel.roots[0].leaves[1].object_count, 1);
    assert_eq!(channel.roots[0].leaves[1].remote.object_id, u64::MAX - 1_000_001);
    let found = &channel.superblocks[0];
    assert_eq!(found.manifest_encoding, ManifestEncoding::Tree);
    assert_eq!(found.root_index_message_id, Some(3));
    assert_eq!(channel.fetch(found).unwrap(), manifest);
}

#[test]
fn a_second_commit_leads_back_to_the_first() {
    let mut channel = Channel::new();
    let mut manifest = Manifest::empty(7, 256 * 1024, 2);
    channel.commit(&manifest).unwrap();
    manifest.generation = 1;
    channel.commit(&manifest).unwrap();
    let second = channel.superblocks[1].clone();
    assert_eq!(second.previous_manifest_message_id, Some(1));
    assert_eq!(second.previous_manifest_generation, Some(0));
    assert_eq!(channel.fetch(&second.step_back().unwrap()).unwrap().generation, 0);
}

#[test]
fn a_manifest_that_does_not_come_back_is_not_published() {
    let manifest = Manifest::empty(7, 256 * 1024, 2);
    let mut step = manifest.start_commit();
    let mut channel = Channel::new();
    let error = loop {
        match step {
            CommitStep::Finished => panic!("published"),
            CommitStep::Refused { error } => break error,
            CommitStep::Wait { op, action } => {
                let reply = match action {
                    CommitAction::Fetch { .. } => CommitReply::Fetched { payload: None },
                    other => channel.answer(&manifest, other),
                };
                step = manifest.resume_commit(&map(), op, reply);
            }
        }
    };
    assert_eq!(error, CommitError::ReadBack(FetchError::NotFound { message_id: 1 }));
    assert!(channel.published.is_empty());

    if let CommitStep::Wait { op, .. } = manifest.start_commit() {
        assert_eq!(
            manifest.resume_commit(&map(), op, CommitReply::Failed),
            CommitStep::Refused { error: CommitError::Outside }
        );
    }
    if let CommitStep::Wait { op, .. } = manifest.start_commit() {
        assert_eq!(
            manifest.resume_commit(&map(), op, CommitReply::Published),
            CommitStep::Refused { error: CommitError::UnexpectedReply }
        );
    }
}

#[test]
fn faulty_remote_manifests_are_told_apart() {
    let mut channel = Channel::new();
    let manifest = Manifest::empty(7, 256 * 1024, 4097);
    channel.commit(&manifest).unwrap();
    let found = channel.superblocks[0].clone();

    let mut elsewhere = found.clone();
    elsewhere.current_manifest_message_id = 9;
    assert_eq!(
        channel.fetch(&elsewhere),
        Err(ManifestFetchError::Named(FetchError::NotFound { message_id: 9 }))
    );
    let mut renumbered = found.clone();
    renumbered.manifest_generation = 5;
    assert_eq!(
        channel.fetch(&renumbered),
        Err(ManifestFetchError::Named(FetchError::Format(FormatError::GenerationMismatch {
            expected: 5,
            actual: 0,
        })))
    );
    let mut unhashed = found.clone();
    unhashed.manifest_hash = "other".to_string();
    assert_eq!(
        channel.fetch(&unhashed),
        Err(ManifestFetchError::Named(FetchError::Checksum))
    );

    channel.roots[0].leaves[1].remote.message_id = 8;
    assert_eq!(
        channel.fetch(&found),
        Err(ManifestFetchError::LeafMissing { leaf_index: 1 })
    );
    channel.roots[0].leaves[1].remote.message_id = 1;
    assert!(matches!(channel.fetch(&found), Err(ManifestFetchError::LeafFormat(_))));
    channel.roots[0].leaves[1].remote.message_id = 2;
    channel.roots[0].leaves[1].remote.sha256 = "other".to_string();
    assert_eq!(channel.fetch(&found), Err(ManifestFetchError::LeafChecksum));
    channel.roots[0].leaves.pop();
    assert!(matches!(channel.fetch(&found), Err(ManifestFetchError::Tree(_))));

    if let FetchStep::Wait { op, .. } = found.start_fetch(-100) {
        assert_eq!(
            resume_fetch(op, FetchReply::Failed),
            FetchStep::Refused { error: ManifestFetchError::Outside }
        );
    }
    if let FetchStep::Wait { op, .. } = found.start_fetch(-100) {
        assert_eq!(
            resume_fetch(op, FetchReply::Messages { payloads: Vec::new() }),
            FetchStep::Refused { error: ManifestFetchError::UnexpectedReply }
        );
    }
}

fn settings() -> TgDriveConfig {
    TgDriveConfig {
        device_size: 64 * 1024 * 1024,
        logical_sector_size: 4096,
        object_size: 256 * 1024,
        cache_dir: "cache".to_string(),
        sqlite_path: "cache/db.sqlite3".to_string(),
        telegram_api_id: None,
        telegram_api_hash: None,
        telegram_session_path: "cache/session".to_string(),
        telegram_channel_id: None,
        telegram_channel_access_hash: None,
        telegram_channel_title: None,
        read_only: false,
    }
}

fn refused(step: RecoverStep) -> RecoverError {
    match step {
        RecoverStep::Refused { error } => error,
        other => panic!("not refused: {:?}", other),
    }
}

#[test]
fn recovery_falls_back_to_the_previous_manifest() {
    let first = superblock(1, None);
    let second = superblock(2, Some(&first));
    let manifest = Manifest::empty(7, 256 * 1024, 256);

    let step = start_recovery(&settings(), Some(second.clone()));
    assert_eq!(step, RecoverStep::Fetch { superblock: second.clone(), current: true });
    assert_eq!(
        resume_recovery(&second, true, Some(manifest.clone())),
        RecoverStep::Recovered { manifest: manifest.clone() }
    );
    let previous = second.step_back().unwrap();
    assert_eq!(previous.current_manifest_message_id, 1);
    assert_eq!(
        resume_recovery(&second, true, None),
        RecoverStep::Fetch { superblock: previous.clone(), current: false }
    );
    assert_eq!(
        resume_recovery(&previous, false, Some(manifest.clone())),
        RecoverStep::Recovered { manifest }
    );
    assert_eq!(refused(resume_recovery(&previous, false, None)), RecoverError::Fetch);
}

#[test]
fn faulty_recoveries_are_told_apart() {
    let found = superblock(1, None);
    assert_eq!(refused(start_recovery(&settings(), None)), RecoverError::NoSuperblock);
    let mut other = settings();
    other.device_size = 4096;
    assert_eq!(refused(start_recovery(&other, Some(found.clone()))), RecoverError::DeviceSize);
    let mut other = settings();
    other.object_size = 65536;
    assert_eq!(refused(start_recovery(&other, Some(found.clone()))), RecoverError::ObjectSize);
    assert_eq!(
        refused(resume_recovery(&found, true, None)),
        RecoverError::NoPrevious(NoPrevious::Manifest)
    );
    let stranger = Manifest::empty(8, 256 * 1024, 256);
    assert!(!same_device(&stranger, Some(&found)));
    assert!(same_device(&stranger, None));
    assert_eq!(
        refused(resume_recovery(&found, true, Some(stranger))),
        RecoverError::DeviceUuid
    );
}

#[test]
fn superblocks_follow_each_other() {
    let first = superblock(1, None);
    assert_eq!(first.magic, "TGDRIVE_SUPERBLOCK");
    assert_eq!(first.format_version, 1);
    assert_eq!(first.previous_manifest_message_id, None);
    let second = Superblock::for_tree_manifest_at(
        7,
        64 * 1024 * 1024,
        4096,
        256 * 1024,
        &reference(2, 2),
        Some(&first),
        LATER,
    );
    assert_eq!(second.manifest_encoding, ManifestEncoding::Tree);
    assert_eq!(second.root_index_message_id, Some(2));
    assert_eq!(second.previous_manifest_hash.as_deref(), Some("sha1"));
    assert_eq!((second.created_at, second.last_commit_at), (THEN, LATER));
    let named = second.manifest_ref(-7);
    assert_eq!((named.chat_id, named.message_id, named.generation), (-7, 2, 2));
    assert_eq!((named.object_id, named.sha256.as_str()), (MANIFEST_OBJECT_ID, "sha2"));
}

#[test]
fn steps_back_need_all_three_fields() {
    let first = superblock(1, None);
    let second = superblock(2, Some(&first));
    assert_eq!(first.step_back(), Err(NoPrevious::Manifest));
    let mut broken = second.clone();
    broken.previous_manifest_hash = None;
    assert_eq!(broken.step_back(), Err(NoPrevious::Hash));
    let mut broken = second.clone();
    broken.previous_manifest_generation = None;
    assert_eq!(broken.step_back(), Err(NoPrevious::Generation));
    let back = second.step_back().unwrap();
    assert_eq!(back.manifest_hash, "sha1");
    assert_eq!(back.previous_manifest_message_id, None);
}

#[test]
fn a_rollback_can_be_rolled_back() {
    let first = superblock(1, None);
    let second = superblock(2, Some(&first));
    let back = second.roll_back_at(7, -100, LATER).unwrap();
    assert_eq!(back.current_manifest_message_id, 1);
    assert_eq!(back.previous_manifest_message_id, Some(2));
    assert_eq!((back.created_at, back.last_commit_at), (THEN, LATER));
    let forth = back.roll_back_at(7, -100, LATER).unwrap();
    assert_eq!(forth.current_manifest_message_id, 2);
    assert_eq!(forth.manifest_hash, "sha2");
    assert_eq!(first.roll_back(7, -100), Err(NoPrevious::Manifest));
    assert!(second.roll_back(7, -100).unwrap().last_commit_at.unix_nanos > 2_000);
}

#[test]
fn a_rolled_back_manifest_is_recovered() {
    let mut channel = Channel::new();
    let first = Manifest::empty(7, 256 * 1024, 2);
    channel.commit(&first).unwrap();
    let mut second = first.clone();
    second.generation = 1;
    channel.commit(&second).unwrap();
    let current = channel.superblocks[1].clone();
    let back = current.roll_back_at(7, -100, LATER).unwrap();
    assert_eq!(channel.fetch(&back).unwrap(), first);
    let forth = back.roll_back_at(7, -100, LATER).unwrap();
    assert_eq!(channel.fetch(&forth).unwrap(), second);
}

#[test]
fn new_superblocks_take_the_time_and_an_identifier() {
    let made = Superblock::new(8192, 4096, 65536, &reference(4, 2));
    assert_eq!((made.device_size, made.object_size), (8192, 65536));
    assert_eq!((made.current_manifest_message_id, made.manifest_generation), (4, 2));
    assert_eq!((made.device_uuid >> 76) & 0xf, 4);
    assert_eq!(made.created_at, made.last_commit_at);
    assert!(made.created_at.unix_nanos > 1_600_000_000_000_000_000);
    let flat = Superblock::for_manifest(7, 8192, 4096, 65536, &reference(4, 2), Some(&made));
    assert_eq!(flat.created_at, made.created_at);
    let tree = Superblock::for_tree_manifest(7, 8192, 4096, 65536, &reference(4, 2), None);
    assert_eq!(tree.manifest_encoding, ManifestEncoding::Tree);
}

#[test]
fn superblock_texts_carry_a_prefix() {
    assert_eq!(Superblock::encode_text("{}"), "TGDRIVE_SUPERBLOCK_V1\n{}");
    assert_eq!(
        Superblock::decode_text("TGDRIVE_SUPERBLOCK_V1\n{}"),
        Ok("{}".to_string())
    );
    assert_eq!(Superblock::decode_text("TGDRIVE_SUPERBLOCK_V1{}"), Err(MissingPrefix));
    assert_eq!(Superblock::decode_text(""), Err(MissingPrefix));
}

fn rpc(code: i32, name: &str) -> InvocationFailure {
    InvocationFailure::Rpc { code, name: name.to_string() }
}

#[test]
fn classifies_error_kinds() {
    let flood = vec![ErrorCause::Invocation { failure: rpc(420, "FLOOD_WAIT") }];
    assert_eq!(
        classify_error(&flood, "request error: rpc error 420: FLOOD_WAIT (value: 10)"),
        TelegramErrorKind::RateLimited
    );

    let server = vec![ErrorCause::Invocation { failure: rpc(500, "INTERNAL") }];
    assert_eq!(
        classify_error(&server, "request error: rpc error 500: INTERNAL"),
        TelegramErrorKind::Retryable
    );

    let corrupt = vec![ErrorCause::Other];
    assert_eq!(
        classify_error(&corrupt, "remote payload checksum mismatch"),
        TelegramErrorKind::Corruption
    );
}

#[test]
fn every_failure_has_a_kind() {
    let kind = |failure: InvocationFailure| classify_invocation_error(&failure);
    assert_eq!(kind(rpc(401, "AUTH_KEY_UNREGISTERED")), TelegramErrorKind::Authentication);
    assert_eq!(kind(rpc(401, "SESSION_REVOKED")), TelegramErrorKind::Authentication);
    assert_eq!(kind(rpc(401, "USER_DEACTIVATED_BAN")), TelegramErrorKind::Authentication);
    assert_eq!(kind(rpc(400, "PHONE_CODE_INVALID")), TelegramErrorKind::Authentication);
    assert_eq!(kind(rpc(400, "OTHER")), TelegramErrorKind::Permanent);
    assert_eq!(kind(InvocationFailure::Io), TelegramErrorKind::Retryable);
    assert_eq!(kind(InvocationFailure::Dropped), TelegramErrorKind::Retryable);
    assert_eq!(kind(InvocationFailure::Transport), TelegramErrorKind::Retryable);
    assert_eq!(kind(InvocationFailure::Authentication), TelegramErrorKind::Authentication);
    assert_eq!(kind(InvocationFailure::InvalidDc), TelegramErrorKind::Authentication);
    assert_eq!(kind(InvocationFailure::Deserialize), TelegramErrorKind::Corruption);
    assert_eq!(kind(InvocationFailure::Session), TelegramErrorKind::Permanent);
}

#[test]
fn the_outermost_known_cause_decides() {
    let causes = vec![
        ErrorCause::Other,
        ErrorCause::Format,
        ErrorCause::Invocation { failure: InvocationFailure::Io },
    ];
    assert_eq!(classify_error(&causes, "message 7 not found"), TelegramErrorKind::Corruption);
    let kind = |text: &str| classify_error(&Vec::new(), text);
    assert_eq!(kind("message 7 not found"), TelegramErrorKind::NotFound);
    assert_eq!(kind("message 7 has no media"), TelegramErrorKind::Corruption);
    assert_eq!(kind("wrong object, not found"), TelegramErrorKind::Corruption);
    assert_eq!(kind("wrong generation"), TelegramErrorKind::Corruption);
    assert_eq!(kind("other"), TelegramErrorKind::Permanent);
}

#[test]
fn names_match_as_the_client_matches_them() {
    for (name, pattern) in [
        ("AUTH_KEY_INVALID", "AUTH_KEY_*"),
        ("AUTH_KEY", "AUTH_KEY_*"),
        ("FLOOD_WAIT", "*_WAIT"),
        ("FLOOD", "*_WAIT"),
        ("SAME", "SAME"),
        ("SAME", "OTHER"),
        ("*", "*"),
        ("", ""),
    ] {
        let error = grammers_mtsender::RpcError {
            code: 400,
            name: name.to_string(),
            value: None,
            caused_by: None,
        };
        assert_eq!(rpc_name_is(name, pattern), error.is(pattern));
    }
    assert!(rpc_name_is("AUTH_KEY_INVALID", "AUTH_KEY_*"));
    assert!(says_none_pinned(&rpc(400, "MESSAGE_IDS_EMPTY")));
    assert!(!says_none_pinned(&rpc(400, "MESSAGE_IDS_EMPTY_X")));
    assert!(!says_none_pinned(&InvocationFailure::Io));
}

fn client(channel_id: i64, access_hash: Option<i64>, title: Option<&str>) -> TelegramClientConfig {
    TelegramClientConfig {
        api_id: 1,
        api_hash: "hash".to_string(),
        session_path: "session".to_string(),
        channel_id,
        channel_access_hash: access_hash,
        channel_title: title.map(|title| title.to_string()),
    }
}

#[test]
fn channels_are_found_by_hash_title_or_number() {
    let id = -1001234567890;
    assert_eq!(
        client(id, Some(5), Some("title")).plan_peer(),
        Ok(PeerPlan::Known { dialog_id: id, access_hash: 5 })
    );
    assert_eq!(
        client(id, None, Some("title")).plan_peer(),
        Ok(PeerPlan::Search { title: "title".to_string() })
    );
    assert_eq!(client(id, None, None).plan_peer(), Ok(PeerPlan::Ambient { dialog_id: id }));
    assert_eq!(
        client(0, Some(5), None).plan_peer(),
        Err(InvalidChannel { channel_id: 0 })
    );
    assert_eq!(
        client(0, None, Some("title")).plan_peer_by_number(),
        Err(InvalidChannel { channel_id: 0 })
    );
    assert!(has_title(&Some("title".to_string()), "title"));
    assert!(!has_title(&Some("other".to_string()), "title"));
    assert!(!has_title(&None, "title"));
}

#[test]
fn dialog_numbers_lose_their_mark() {
    let of = |id: i64| client(1, None, Some("t")).resolved_channel(id, 9);
    let channel = of(-1001234567890).unwrap();
    assert_eq!(channel.bot_api_chat_id, -1001234567890);
    assert_eq!(channel.bare_channel_id, 1234567890);
    assert_eq!((channel.access_hash, channel.title.as_deref()), (9, Some("t")));
    assert_eq!(of(42).unwrap().bare_channel_id, 42);
    assert_eq!(of(-42).unwrap().bare_channel_id, 42);
    assert_eq!(of(0), Err(InvalidChannel { channel_id: 0 }));
    for id in [
        1,
        0xff_ffff_ffff,
        0x100_0000_0000,
        -1,
        -999_999_999_999,
        -1_000_000_000_000,
        -1_000_000_000_001,
        -1_997_852_516_352,
        -1_997_852_516_353,
        -2_002_147_483_648,
        -2_002_147_483_649,
        -4_000_000_000_000,
        -4_000_000_000_001,
    ] {
        let peer = grammers_session::types::PeerId::from_bot_api_dialog_id(id);
        assert_eq!(
            of(id).ok().map(|channel| channel.bare_channel_id),
            peer.and_then(|peer| peer.bare_id())
        );
    }
}

#[test]
fn message_numbers_go_in_batches() {
    let ids: Vec<i32> = (0..250).collect();
    let parts = batches(&ids);
    assert_eq!(parts.iter().map(|part| part.len()).collect::<Vec<_>>(), vec![100, 100, 50]);
    assert_eq!(parts.concat(), ids);
    assert!(batches(&[]).is_empty());
}

#[test]
fn the_newest_superblock_is_found() {
    let mut scan = SuperblockScan::new();
    scan.offer("chatter", None);
    scan.offer("three", Some(3));
    scan.offer("five", Some(5));
    scan.offer("again", Some(5));
    scan.offer("four", Some(4));
    assert_eq!(scan.finish(Some("pinned".to_string()), true), Some("five".to_string()));
    let scan = SuperblockScan::new();
    assert_eq!(scan.finish(Some("pinned".to_string()), true), Some("pinned".to_string()));
    let scan = SuperblockScan::new();
    assert_eq!(scan.finish(Some("pinned".to_string()), false), None);
}

#[test]
fn a_pinned_superblock_stays_pinned() {
    let pinned = |text: &str| Some(PinnedMessage { message_id: 4, text: text.to_string() });
    assert_eq!(
        plan_publish(&pinned("TGDRIVE_SUPERBLOCK_V1\n{}")),
        PublishPlan::Keep { message_id: 4 }
    );
    assert_eq!(plan_publish(&pinned("hello")), PublishPlan::Pin);
    assert_eq!(plan_publish(&None), PublishPlan::Pin);
}

#[test]
fn uploads_are_named_and_checked() {
    let envelope = ObjectEnvelope {
        object_id: 255,
        generation: 16,
        object_size: 64,
        flags: 0,
        payload: b"x".to_vec(),
    };
    let payload = envelope.encode();
    let upload = prepare_upload(255, 16, &payload, "sha").unwrap();
    assert_eq!(upload.name, "tgdrive-00000000000000ff-0000000000000010.bin");
    assert_eq!(upload.caption, "TGDRIVE object=255 generation=16 sha256=sha");
    assert_eq!(prepare_upload(255, 16, b"x", "sha"), Err(FormatError::Truncated));

    let mut reference = RemoteObjectRef {
        chat_id: -100,
        message_id: 3,
        object_id: 255,
        generation: 16,
        sha256: sha256_hex(&payload),
    };
    assert_eq!(check_fetched(&reference, Some(payload.clone())).unwrap(), payload);
    assert_eq!(check_fetched(&reference, None), Err(FetchError::NotFound { message_id: 3 }));
    assert_eq!(
        check_fetched(&reference, Some(Vec::new())),
        Err(FetchError::Format(FormatError::Truncated))
    );
    reference.sha256 = "other".to_string();
    assert_eq!(check_fetched(&reference, Some(payload)), Err(FetchError::Checksum));
}
