use std::collections::{HashMap, HashSet};

use serde_json::Value;
use tgdrive::backend::MemoryBackend;
use tgdrive::block::BlockMap;
use tgdrive::cache::{StoreChange, StoreError};
use tgdrive::device::{Action, BlockDevice, DeviceError, Op, Outcome, Reply, Step};
use tgdrive::digest::sha256_hex;
use tgdrive::envelope::{FormatError, ObjectEnvelope};
use tgdrive::manifest::Manifest;
use tgdrive::requests::pad_object;
use tgdrive::store::{LocalStore, StoreTables};

const KIB: usize = 1024;

/// Writes a manifest down, in some form that names all that a test looks at.
fn encoded(manifest: &Manifest) -> Vec<u8> {
    let mut fields = serde_json::Map::new();
    fields.insert("generation".to_string(), Value::from(manifest.generation));
    fields.insert("object_count".to_string(), Value::from(manifest.object_count));
    serde_json::to_vec_pretty(&Value::Object(fields)).unwrap()
}

fn empty_store() -> LocalStore {
    LocalStore::open("cache".to_string(), StoreTables::empty()).unwrap()
}

/// A device with what it works on: the cache files, the remote messages, and a second
/// index that is kept by the row operations alone.
struct Host {
    device: BlockDevice,
    remote: MemoryBackend,
    files: HashMap<String, Vec<u8>>,
    mirror: LocalStore,
    failing_commits: usize,
    fetches: usize,
    deleted: HashSet<i32>,
}

impl Host {
    fn new(device_size: u64, objects: u64) -> Self {
        let map = BlockMap::new(device_size, 4096, 256 * 1024).unwrap();
        let manifest = Manifest::empty(7, 256 * 1024, objects);
        Host {
            device: BlockDevice::new(map, empty_store(), manifest),
            remote: MemoryBackend::new(-100),
            files: HashMap::new(),
            mirror: empty_store(),
            failing_commits: 0,
            fetches: 0,
            deleted: HashSet::new(),
        }
    }

    fn with_committer(mut self) -> Self {
        self.device = self.device.with_committer();
        self
    }

    fn perform(&mut self, action: Action) -> Reply {
        match action {
            Action::ReadFile { path } => match self.files.get(&path) {
                Some(content) => Reply::File { content: content.clone() },
                None => Reply::NoFile,
            },
            Action::WriteFile { path, bytes } => {
                self.files.insert(path, bytes);
                Reply::Done
            }
            Action::Fetch { reference } => {
                self.fetches += 1;
                if self.deleted.contains(&reference.message_id) {
                    return Reply::Failed;
                }
                match self.remote.fetch_object(&reference) {
                    Ok(payload) => Reply::Fetched { payload, ms: 3 },
                    Err(_) => Reply::Failed,
                }
            }
            Action::FetchMany { ids } => {
                self.fetches += 1;
                let mut payloads = self.remote.get_messages_by_id(&ids);
                for (id, payload) in ids.iter().zip(payloads.iter_mut()) {
                    if self.deleted.contains(id) {
                        *payload = None;
                    }
                }
                Reply::Messages { payloads, ms: 5 }
            }
            Action::Send { object_id, generation, payload, sha256 } => Reply::Sent {
                reference: self.remote.send_object(object_id, generation, payload, sha256),
                ms: 7,
            },
            Action::Commit => {
                if self.failing_commits > 0 {
                    self.failing_commits -= 1;
                    Reply::Failed
                } else {
                    Reply::Done
                }
            }
            Action::EncodeManifest => Reply::Encoded { manifest: encoded(&self.device.manifest) },
        }
    }

    fn run(&mut self, first: Step) -> Result<Vec<u8>, DeviceError> {
        let mut step = first;
        loop {
            for change in &step.changes {
                self.mirror.apply(change);
            }
            match step.outcome {
                Outcome::Finished { bytes } => return Ok(bytes),
                Outcome::Refused { error } => return Err(error),
                Outcome::Wait { op, action } => {
                    let reply = self.perform(action);
                    step = self.device.resume(op, reply);
                }
            }
        }
    }

    fn read(&mut self, offset: u64, len: usize) -> Result<Vec<u8>, DeviceError> {
        let step = self.device.read_at(offset, len);
        self.run(step)
    }

    fn write(&mut self, offset: u64, bytes: &[u8]) -> Result<Vec<u8>, DeviceError> {
        let step = self.device.write_at(offset, bytes.to_vec());
        self.run(step)
    }

    fn flush(&mut self) -> Result<Vec<u8>, DeviceError> {
        let step = self.device.flush();
        self.run(step)
    }
}

fn waiting(step: Step) -> (Op, Action) {
    match step.outcome {
        Outcome::Wait { op, action } => (op, action),
        other => panic!("nothing is asked for: {:?}", other),
    }
}

#[test]
fn partial_write_round_trip_across_objects() {
    let mut host = Host::new(512 * 1024, 2);

    let offset = 256 * 1024 - 2;
    host.write(offset, b"abcd").unwrap();
    assert_eq!(host.read(offset, 4).unwrap(), b"abcd");
    host.flush().unwrap();
    assert_eq!(host.read(offset, 4).unwrap(), b"abcd");
}

#[test]
fn full_object_write_does_not_need_read_before_write() {
    let mut host = Host::new(256 * 1024, 1);
    let bytes = vec![7u8; 256 * 1024];
    host.write(0, &bytes).unwrap();
    assert_eq!(host.read(0, bytes.len()).unwrap(), bytes);
}

#[test]
fn a_whole_object_is_saved_at_once() {
    let mut host = Host::new(256 * 1024, 1);
    let bytes = vec![7u8; 256 * 1024];
    let (_, action) = waiting(host.device.write_at(0, bytes.clone()));
    let envelope = ObjectEnvelope {
        object_id: 0,
        generation: 1,
        object_size: 256 * 1024,
        flags: 0,
        payload: bytes,
    };
    assert_eq!(
        action,
        Action::WriteFile {
            path: "cache/objects/0000000000000000-0000000000000001.bin".to_string(),
            bytes: envelope.encode(),
        }
    );
}

#[test]
fn interrupted_manifest_commit_can_retry() {
    let mut host = Host::new(256 * 1024, 1).with_committer();
    host.failing_commits = 1;

    host.write(0, b"survives").unwrap();
    assert!(host.flush().is_err());
    assert_eq!(host.device.store.stats().dirty_objects, 1);

    host.flush().unwrap();
    assert_eq!(host.device.store.stats().dirty_objects, 0);
    assert_eq!(host.read(0, 8).unwrap(), b"survives");
}

#[test]
fn unwritten_bytes_are_zero() {
    let mut host = Host::new(512 * 1024, 2);
    assert_eq!(host.read(100, 3).unwrap(), vec![0, 0, 0]);
    host.write(256 * 1024, b"x").unwrap();
    assert_eq!(host.read(256 * 1024 - 1, 3).unwrap(), vec![0, b'x', 0]);
}

#[test]
fn a_write_changes_its_bytes_only() {
    let mut host = Host::new(512 * 1024, 2);
    host.write(0, &vec![1u8; 512 * KIB]).unwrap();
    host.write(256 * 1024 - 3, b"abcdef").unwrap();
    let mut expected = vec![1u8; 512 * KIB];
    expected[256 * KIB - 3..256 * KIB + 3].copy_from_slice(b"abcdef");
    assert_eq!(host.read(0, 512 * KIB).unwrap(), expected);
}

#[test]
fn flushed_content_is_read_back_from_the_remote() {
    let mut host = Host::new(512 * 1024, 2);
    host.write(0, b"first").unwrap();
    host.write(256 * 1024, b"second").unwrap();
    host.flush().unwrap();
    assert!(host.device.store.dirty_objects().is_empty());

    host.files.clear();
    assert_eq!(host.read(0, 5).unwrap(), b"first");
    assert_eq!(host.read(256 * 1024, 6).unwrap(), b"second");
    assert_eq!(host.fetches, 2);
}

#[test]
fn uploads_enter_the_manifest() {
    let mut host = Host::new(512 * 1024, 2);
    host.write(0, b"one").unwrap();
    host.flush().unwrap();
    assert_eq!(host.device.manifest.generation, 1);
    let entry = &host.device.manifest.objects[0];
    let remote = entry.remote.as_ref().unwrap();
    assert_eq!((entry.generation, entry.zero), (1, false));
    assert_eq!((remote.chat_id, remote.message_id, remote.object_id), (-100, 1, 0));
    assert_eq!(entry.sha256.as_ref(), Some(&remote.sha256));
    assert!(host.device.manifest.garbage.is_empty());

    host.write(0, b"two").unwrap();
    host.flush().unwrap();
    assert_eq!(host.device.manifest.generation, 2);
    assert_eq!(host.device.manifest.garbage.len(), 1);
    assert_eq!(host.device.manifest.garbage[0].message_id, 1);
    assert_eq!(host.device.manifest.objects[0].remote.as_ref().unwrap().message_id, 2);
    assert!(host.device.manifest.objects[1].zero);
    assert_eq!(
        host.device.store.load_manifest().unwrap(),
        encoded(&host.device.manifest)
    );
    assert_eq!(host.device.store.remote_ref(0).unwrap().message_id, 2);
    assert_eq!(host.device.store.remote_ref(1), None);
}

#[test]
fn the_row_operations_rebuild_the_index() {
    let mut host = Host::new(512 * 1024, 2);
    host.write(10, b"abc").unwrap();
    host.write(256 * 1024 - 1, b"de").unwrap();
    assert_eq!(host.mirror.dirty_objects(), host.device.store.dirty_objects());
    assert_eq!(host.mirror.wal_ranges(), host.device.store.wal_ranges());
    assert_eq!(host.mirror.wal_ranges(), vec![(0, 1), (10, 3), (256 * 1024 - 1, 1)]);
    assert_eq!(host.mirror.stats(), host.device.store.stats());
    host.flush().unwrap();
    host.read(0, 10).unwrap();
    assert_eq!(host.mirror.stats(), host.device.store.stats());
    assert_eq!(host.mirror.clean_entries(), host.device.store.clean_entries());
    assert_eq!(host.mirror.load_manifest(), host.device.store.load_manifest());
    assert_eq!(host.mirror.remote_ref(1), host.device.store.remote_ref(1));
}

#[test]
fn the_next_objects_are_fetched_ahead() {
    let mut host = Host::new(6 * 256 * 1024, 6);
    for object in 0..6u64 {
        host.write(object * 256 * 1024, &[object as u8 + 1]).unwrap();
    }
    host.flush().unwrap();
    host.files.clear();

    assert_eq!(host.read(256 * 1024 - 1, 1).unwrap(), vec![0]);
    assert_eq!(host.fetches, 2);
    assert_eq!(host.files.len(), 5);
    assert_eq!(host.read(4 * 256 * 1024, 1).unwrap(), vec![5]);
    assert_eq!(host.fetches, 2);
    assert_eq!(host.read(5 * 256 * 1024, 1).unwrap(), vec![6]);
    assert_eq!(host.fetches, 3);

    let metrics = host.device.metrics();
    assert_eq!((metrics.cache_hits, metrics.cache_misses), (1, 6));
    assert_eq!((metrics.uploads, metrics.upload_ms_total), (6, 42));
    assert_eq!((metrics.downloads, metrics.download_ms_total), (3, 11));
}

#[test]
fn a_failed_fetch_ahead_does_not_fail_the_read() {
    let mut host = Host::new(512 * 1024, 2);
    host.write(256 * 1024, b"ahead").unwrap();
    host.flush().unwrap();
    host.files.clear();
    let (op, action) = waiting(host.device.read_at(256 * 1024 - 2, 2));
    assert!(matches!(action, Action::ReadFile { .. }));
    let (op, action) = waiting(host.device.resume(op, Reply::NoFile));
    assert_eq!(action, Action::FetchMany { ids: vec![1] });
    let step = host.device.resume(op, Reply::Failed);
    assert_eq!(step.outcome, Outcome::Finished { bytes: vec![0, 0] });
}

#[test]
fn requests_beyond_the_device_are_refused() {
    let mut host = Host::new(512 * 1024, 2);
    assert_eq!(host.read(512 * 1024 - 1, 2), Err(DeviceError::ReadOutOfBounds));
    assert_eq!(host.write(512 * 1024 - 1, b"xy"), Err(DeviceError::WriteOutOfBounds));
    assert_eq!(host.read(512 * 1024, 0), Ok(Vec::new()));
    assert_eq!(host.write(512 * 1024, b""), Ok(Vec::new()));
}

#[test]
fn changed_files_and_messages_are_refused() {
    let mut host = Host::new(512 * 1024, 2);
    host.write(0, b"kept").unwrap();
    let path = host.device.store.cache_path(0, 1);
    let saved = host.files[&path].clone();

    host.files.insert(path.clone(), b"other".to_vec());
    assert_eq!(host.read(0, 4), Err(DeviceError::DirtyChecksum { object_id: 0 }));
    assert_eq!(host.flush(), Err(DeviceError::Format(FormatError::Truncated)));
    let mut renamed = saved.clone();
    renamed[75] = 1;
    host.files.insert(path.clone(), renamed);
    assert_eq!(host.flush(), Err(DeviceError::DirtyChecksum { object_id: 0 }));
    host.files.remove(&path);
    assert_eq!(host.read(0, 4), Err(DeviceError::Outside));
    assert_eq!(host.flush(), Err(DeviceError::Outside));

    host.files.insert(path.clone(), saved);
    host.flush().unwrap();
    host.files.insert(path.clone(), b"other".to_vec());
    assert_eq!(host.read(0, 4), Err(DeviceError::CacheChecksum { object_id: 0 }));

    let (op, _) = waiting(host.device.read_at(0, 4));
    let (op, action) = waiting(host.device.resume(op, Reply::NoFile));
    assert!(matches!(action, Action::Fetch { .. }));
    let step = host.device.resume(op, Reply::Fetched { payload: b"other".to_vec(), ms: 0 });
    assert_eq!(
        step.outcome,
        Outcome::Refused { error: DeviceError::RemoteChecksum { object_id: 0 } }
    );
}

#[test]
fn faulty_manifests_are_refused() {
    let mut host = Host::new(512 * 1024, 1);
    assert_eq!(
        host.read(256 * 1024, 1),
        Err(DeviceError::NotInManifest { object_id: 1 })
    );
    host.device.manifest.objects[0].zero = false;
    assert_eq!(host.read(0, 1), Err(DeviceError::NoRemote { object_id: 0 }));
    let reference = host.remote.send_object(0, 0, Vec::new(), "sha".to_string());
    host.device.manifest.objects[0].remote = Some(reference);
    assert_eq!(host.read(0, 1), Err(DeviceError::NoChecksum { object_id: 0 }));

    host.write(256 * 1024, &vec![1; 256 * KIB]).unwrap();
    assert_eq!(host.flush(), Err(DeviceError::ManifestMissing { object_id: 1 }));

    let mut twice = Host::new(256 * 1024, 1);
    let again = twice.device.manifest.objects[0].clone();
    twice.device.manifest.objects.push(again);
    twice.write(0, b"x").unwrap();
    assert_eq!(twice.flush(), Err(DeviceError::DuplicateObject { object_id: 0 }));
    assert_eq!(twice.device.store.stats().dirty_objects, 1);
}

#[test]
fn too_many_dirty_objects_hold_writes_back() {
    let mut host = Host::new(512 * 1024, 2);
    host.device.max_dirty_objects = 1;
    host.write(0, b"first").unwrap();
    assert_eq!(host.write(256 * 1024, b"second"), Err(DeviceError::Backpressure));
    host.flush().unwrap();
    host.write(256 * 1024, b"second").unwrap();
    assert_eq!(host.read(256 * 1024, 6).unwrap(), b"second");
}

#[test]
fn a_reply_of_another_kind_is_refused() {
    let mut host = Host::new(256 * 1024, 1);
    let (op, _) = waiting(host.device.write_at(0, b"x".to_vec()));
    let step = host.device.resume(op, Reply::NoFile);
    assert_eq!(
        step.outcome,
        Outcome::Refused { error: DeviceError::UnexpectedReply }
    );
    let (op, _) = waiting(host.device.write_at(0, b"x".to_vec()));
    let step = host.device.resume(op, Reply::Failed);
    assert_eq!(step.outcome, Outcome::Refused { error: DeviceError::Outside });
}

#[test]
fn an_empty_flush_asks_for_nothing() {
    let mut host = Host::new(256 * 1024, 1).with_committer();
    let step = host.device.flush();
    assert!(step.changes.is_empty());
    assert_eq!(step.outcome, Outcome::Finished { bytes: Vec::new() });
}

#[test]
fn payloads_are_brought_to_length() {
    assert_eq!(pad_object(vec![1, 2], 4), vec![1, 2, 0, 0]);
    assert_eq!(pad_object(vec![1, 2, 3], 2), vec![1, 2]);
}

#[test]
fn sqlite_rebuilds_from_manifest() {
    let mut store = empty_store();
    let manifest = Manifest::empty(7, 256 * 1024, 2);
    store.replace_from_manifest(&manifest, encoded(&manifest)).unwrap();
    let loaded: Value = serde_json::from_slice(&store.load_manifest().unwrap()).unwrap();
    assert_eq!(loaded.get("object_count").unwrap().as_u64().unwrap(), 2);
}

#[test]
fn does_not_evict_dirty_objects() {
    let mut store = empty_store();
    let (sha, _) = store.write_cache(1, 1, b"dirty", true);
    let path = store.cache_path(1, 1);
    store.mark_dirty(1, 1, &path, &sha, 0, 5);
    let removed = store.evict_clean_lru(0);
    assert_eq!(removed.len(), 0);
    assert_eq!(store.cache_entry(1, 1).unwrap().cache_path, path);
}

#[test]
fn coalesces_adjacent_wal_ranges() {
    let mut store = empty_store();
    let (sha, _) = store.write_cache(1, 1, b"dirty", true);
    let path = store.cache_path(1, 1);
    store.mark_dirty(1, 1, &path, &sha, 0, 4);
    store.mark_dirty(1, 1, &path, &sha, 4, 4);
    store.mark_dirty(1, 1, &path, &sha, 16, 4);
    assert_eq!(store.wal_ranges(), vec![(0, 8), (16, 4)]);
}

#[test]
fn ranges_of_other_objects_and_generations_stay_apart() {
    let mut store = empty_store();
    store.mark_dirty(1, 1, "path", "sha", 0, 8);
    store.mark_dirty(1, 2, "path", "sha", 4, 8);
    store.mark_dirty(2, 1, "path", "sha", 8, 8);
    assert_eq!(store.wal_ranges(), vec![(0, 8), (4, 8), (8, 8)]);
    store.mark_dirty(1, 1, "path", "sha", 20, 4);
    store.mark_dirty(1, 1, "path", "sha", 6, 16);
    assert_eq!(store.wal_ranges(), vec![(0, 24), (4, 8), (8, 8)]);
    assert_eq!(store.touching_range(1, 1, 24, 30), (0, 30));
    assert_eq!(store.touching_range(1, 1, 25, 30), (25, 30));
}

#[test]
fn dirty_objects_come_in_order_and_newest_wins() {
    let mut store = empty_store();
    store.mark_dirty(9, 1, "nine", "sha9", 0, 1);
    store.mark_dirty(2, 1, "two", "sha2", 0, 1);
    store.mark_dirty(9, 2, "later", "sha", 0, 1);
    let ids: Vec<u64> = store.dirty_objects().iter().map(|row| row.object_id).collect();
    assert_eq!(ids, vec![2, 9]);
    let row = store.dirty_object(9).unwrap();
    assert_eq!((row.generation, row.cache_path.as_str()), (2, "later"));
    assert_eq!(store.dirty_object(3), None);

    assert_eq!(store.clear_dirty_and_wal(), StoreChange::ClearDirtyAndWal);
    assert!(store.dirty_objects().is_empty());
    assert!(store.wal_ranges().is_empty());
}

#[test]
fn the_least_recently_used_entries_go_first() {
    let mut store = empty_store();
    store.write_cache_at(1, 1, b"one", false, "2024-01-03");
    store.write_cache_at(2, 1, b"two", false, "2024-01-01");
    store.write_cache_at(3, 1, b"three", true, "2024-01-00");
    store.write_cache_at(4, 1, b"four", false, "2024-01-02");
    let path = store.cache_path(2, 1);
    assert_eq!(
        store.evict_clean_lru(2),
        vec![StoreChange::RemoveCache { object_id: 2, generation: 1, cache_path: path }]
    );
    assert_eq!(store.cache_entry(2, 1), None);
    assert!(store.cache_entry(3, 1).is_some());
    assert_eq!(store.clean_entries().len(), 2);
    assert!(store.evict_clean_lru(2).is_empty());

    let sha = sha256_hex(b"four");
    store.read_cache_at(4, 1, &sha, Some(b"four".to_vec()), "2024-01-09").unwrap().unwrap();
    store.evict_clean_lru(1);
    assert_eq!(store.cache_entry(1, 1), None);
    assert_eq!(store.cache_entry(4, 1).unwrap().last_access_at, "2024-01-09");
}

#[test]
fn reads_of_the_cache_check_the_content() {
    let mut store = empty_store();
    let (sha, change) = store.write_cache(5, 2, b"content", true);
    assert_eq!(sha, sha256_hex(b"content"));
    assert!(matches!(change, StoreChange::PutCache { .. }));
    assert_eq!(store.read_cache(5, 2, &sha, None), Ok(None));
    assert_eq!(
        store.read_cache(5, 2, &sha, Some(b"changed".to_vec())),
        Err(StoreError::CacheChecksum { object_id: 5 })
    );
    let (bytes, _) = store.read_cache(5, 2, &sha, Some(b"content".to_vec())).unwrap().unwrap();
    assert_eq!(bytes, b"content");
    assert!(store.cache_entry(5, 2).unwrap().dirty);
    assert!(!store.cache_entry(5, 2).unwrap().last_access_at.is_empty());
}

#[test]
fn cache_files_are_named_by_object_and_generation() {
    let store = empty_store();
    assert_eq!(
        store.cache_path(255, 0x1234_5678_9abc_def0),
        "cache/objects/00000000000000ff-123456789abcdef0.bin"
    );
    assert_ne!(store.cache_path(1, 2), store.cache_path(2, 1));
}

#[test]
fn manifests_and_tables_with_repeats_are_refused() {
    let mut store = empty_store();
    let mut manifest = Manifest::empty(7, 256 * 1024, 2);
    manifest.objects[1].object_id = 0;
    assert_eq!(
        store.replace_from_manifest(&manifest, Vec::new()),
        Err(StoreError::DuplicateObject { object_id: 0 })
    );
    assert_eq!(store.load_manifest(), None);

    let mut rows = empty_store();
    rows.mark_dirty(2, 1, "path", "sha", 0, 1);
    rows.mark_dirty(1, 1, "path", "sha", 0, 1);
    let mut tables = StoreTables::empty();
    tables.dirty = rows.dirty_objects();
    tables.dirty.reverse();
    assert!(matches!(
        LocalStore::open("cache".to_string(), tables),
        Err(StoreError::CorruptTables)
    ));
}

#[test]
fn a_new_machine_reads_what_was_flushed() {
    let mut host = Host::new(512 * 1024, 2);
    host.write(256 * 1024 - 2, b"abcd").unwrap();
    host.flush().unwrap();

    let mut fresh = Host::new(512 * 1024, 2);
    fresh.device.manifest = host.device.manifest.clone();
    fresh.remote = host.remote;
    assert_eq!(fresh.read(256 * 1024 - 2, 4).unwrap(), b"abcd");
    assert_eq!(fresh.read(0, 4).unwrap(), vec![0; 4]);
}

#[test]
fn a_flush_that_stops_on_its_way_loses_nothing() {
    let mut host = Host::new(512 * 1024, 2);
    host.write(0, b"first").unwrap();
    host.write(256 * 1024, b"second").unwrap();
    let before = host.device.manifest.clone();

    let (op, action) = waiting(host.device.flush());
    let reply = host.perform(action);
    let (op, action) = waiting(host.device.resume(op, reply));
    assert!(matches!(action, Action::Send { object_id: 0, .. }));
    let reply = host.perform(action);
    let (_, action) = waiting(host.device.resume(op, reply));
    assert!(matches!(action, Action::ReadFile { .. }));

    host.device.manifest = before;
    assert_eq!(host.device.store.stats().dirty_objects, 2);
    assert_eq!(host.read(0, 5).unwrap(), b"first");
    assert_eq!(host.read(256 * 1024, 6).unwrap(), b"second");
    host.flush().unwrap();
    assert_eq!(host.device.store.stats().dirty_objects, 0);
    assert_eq!(host.read(0, 5).unwrap(), b"first");
}

#[test]
fn eviction_takes_no_content_away() {
    let mut host = Host::new(768 * 1024, 3);
    host.write(0, b"clean").unwrap();
    host.write(256 * 1024, b"too").unwrap();
    host.flush().unwrap();
    host.write(512 * 1024, b"dirty").unwrap();

    let removed = host.device.store.evict_clean_lru(0);
    assert_eq!(removed.len(), 2);
    for change in &removed {
        if let StoreChange::RemoveCache { cache_path, .. } = change {
            assert!(host.files.remove(cache_path).is_some());
        }
    }
    assert_eq!(host.files.len(), 1);
    assert_eq!(host.read(0, 5).unwrap(), b"clean");
    assert_eq!(host.read(256 * 1024, 3).unwrap(), b"too");
    assert_eq!(host.read(512 * 1024, 5).unwrap(), b"dirty");
}

#[test]
fn neighbouring_reads_join() {
    let mut host = Host::new(512 * 1024, 2);
    host.write(256 * 1024 - 4, b"abcdefgh").unwrap();
    let offset = 256 * 1024 - 6;
    let whole = host.read(offset, 12).unwrap();
    let left = host.read(offset, 5).unwrap();
    let right = host.read(offset + 5, 7).unwrap();
    assert_eq!(whole, [left, right].concat());
    assert_eq!(whole, b"\0\0abcdefgh\0\0");
    assert_eq!(host.read(offset, 12).unwrap(), whole);
    assert_eq!(host.read(512 * 1024 - 3, 4), Err(DeviceError::ReadOutOfBounds));
}

#[test]
fn a_flush_shows_in_no_read() {
    let mut host = Host::new(512 * 1024, 2).with_committer();
    host.write(0, b"first").unwrap();
    host.write(256 * 1024, b"second").unwrap();
    let before = host.read(0, 512 * KIB).unwrap();
    host.failing_commits = 1;
    assert_eq!(host.flush(), Err(DeviceError::Outside));
    assert_eq!(host.read(0, 512 * KIB).unwrap(), before);
    host.flush().unwrap();
    assert_eq!(host.read(0, 512 * KIB).unwrap(), before);
}

#[test]
fn replaced_copies_become_garbage_in_order() {
    let mut host = Host::new(3 * 256 * 1024, 3);
    host.write(2 * 256 * 1024, b"two").unwrap();
    host.write(0, b"zero").unwrap();
    host.flush().unwrap();
    let message = |host: &Host, object: usize| {
        host.device.manifest.objects[object].remote.as_ref().unwrap().message_id
    };
    let replaced = vec![message(&host, 0), message(&host, 2)];
    let untouched = host.device.manifest.objects[1].clone();
    assert!(host.device.manifest.garbage.is_empty());

    host.write(2 * 256 * 1024, b"TWO").unwrap();
    host.write(0, b"ZERO").unwrap();
    host.flush().unwrap();
    let garbage: Vec<i32> =
        host.device.manifest.garbage.iter().map(|remote| remote.message_id).collect();
    assert_eq!(garbage, replaced);
    assert_eq!(host.device.manifest.objects[1], untouched);
    assert_eq!(host.device.manifest.generation, 2);
    assert_eq!(
        host.device.store.load_manifest().unwrap(),
        encoded(&host.device.manifest)
    );
    assert!(host.device.store.dirty_objects().is_empty());
}

#[test]
fn dirty_objects_may_lie_in_another_directory() {
    let mut host = Host::new(512 * 1024, 2);
    let mut payload = vec![0u8; 256 * KIB];
    payload[..5].copy_from_slice(b"moved");
    let envelope = ObjectEnvelope {
        object_id: 1,
        generation: 4,
        object_size: 256 * 1024,
        flags: 0,
        payload,
    };
    let bytes = envelope.encode();
    let path = "elsewhere/object.bin";
    host.device.store.mark_dirty(1, 4, path, &sha256_hex(&bytes), 0, 5);
    host.files.insert(path.to_string(), bytes);

    assert_eq!(host.read(256 * 1024, 5).unwrap(), b"moved");
    host.write(0, b"near").unwrap();
    assert_eq!(host.read(256 * 1024, 5).unwrap(), b"moved");
    host.flush().unwrap();
    assert_eq!(host.device.manifest.objects[1].generation, 4);
    assert_eq!(host.read(256 * 1024, 5).unwrap(), b"moved");
    host.files.clear();
    assert_eq!(host.read(256 * 1024, 5).unwrap(), b"moved");
    assert_eq!(host.read(0, 4).unwrap(), b"near");
}

#[test]
fn deleting_garbage_takes_no_content_away() {
    let mut host = Host::new(3 * 256 * 1024, 3);
    for round in 1..4u8 {
        host.write(0, &[round]).unwrap();
        host.write(2 * 256 * 1024, &[round + 10]).unwrap();
        host.flush().unwrap();
    }
    let garbage = host.device.manifest.garbage_message_ids();
    assert_eq!(garbage, vec![1, 2, 3, 4]);
    let live: Vec<i32> = host
        .device
        .manifest
        .objects
        .iter()
        .filter_map(|entry| entry.remote.as_ref())
        .map(|remote| remote.message_id)
        .collect();
    assert_eq!(live, vec![5, 6]);

    let before = host.read(0, 3 * 256 * KIB).unwrap();
    host.deleted = garbage.into_iter().collect();
    host.files.clear();
    assert_eq!(host.read(0, 3 * 256 * KIB).unwrap(), before);
    assert_eq!((before[0], before[2 * 256 * KIB]), (3, 13));
}
