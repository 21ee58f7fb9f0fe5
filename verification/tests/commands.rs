use tgdrive::clock::{now_text, now_utc};
use tgdrive::commands::{
    bench_plan, bench_steps, check_manifest, deterministic_bytes, format_settings, may_replace,
    nbd_options, new_manifest, parse_size, pseudo_random_index, size_fits, BenchStep, NotASize,
    ObjectCountMismatch,
};
use tgdrive::config::{ConfigError, TgDriveConfig};
use tgdrive::envfile::upsert_env;
use tgdrive::manifest::Manifest;
use tgdrive::session::{ChannelProgress, ProgressUpdate, UpdateProgress};
use tgdrive::text::{
    append_decimal, append_fixed_hex, contains, parse_i64, parse_u64, text_less, trim,
};

fn settings() -> TgDriveConfig {
    TgDriveConfig {
        device_size: 64 * 1024 * 1024,
        logical_sector_size: 4096,
        object_size: 256 * 1024,
        cache_dir: "cache".to_string(),
        sqlite_path: "cache/db.sqlite3".to_string(),
        telegram_api_id: None,
        telegram_api_hash: None,
        telegram_session_path: "cache/session".to_string(),
        telegram_channel_id: None,
        telegram_channel_access_hash: None,
        telegram_channel_title: None,
        read_only: false,
    }
}

#[test]
fn sizes_are_read_with_their_unit() {
    assert_eq!(parse_size("64MiB"), Ok(64 * 1024 * 1024));
    assert_eq!(parse_size("256KiB"), Ok(256 * 1024));
    assert_eq!(parse_size("2GiB"), Ok(2 * 1024 * 1024 * 1024));
    assert_eq!(parse_size("3M"), Ok(3_000_000));
    assert_eq!(parse_size("3G"), Ok(3_000_000_000));
    assert_eq!(parse_size("3K"), Ok(3000));
    assert_eq!(parse_size(" 12 K "), Ok(12_000));
    assert_eq!(parse_size("4096"), Ok(4096));
    assert_eq!(parse_size("4k"), Err(NotASize));
    assert_eq!(parse_size(""), Err(NotASize));
    assert_eq!(parse_size("-1M"), Err(NotASize));
    assert_eq!(parse_size("18446744073709551616"), Err(NotASize));
}

#[test]
fn sizes_that_do_not_fit_are_known_beforehand() {
    assert!(size_fits("17179869183GiB"));
    assert!(!size_fits("17179869184GiB"));
    assert!(size_fits("18446744073709551615"));
    assert!(size_fits("no size"));
}

#[test]
fn generated_bytes_repeat() {
    assert_eq!(
        deterministic_bytes(8, 0x54474452495645),
        vec![169, 2, 118, 112, 68, 36, 72, 74]
    );
    assert_eq!(deterministic_bytes(4, 0x52414e444f4d), vec![147, 58, 72, 112]);
    assert!(deterministic_bytes(0, 1).is_empty());
}

#[test]
fn indexes_are_scattered() {
    let indexes: Vec<u64> = (0..4).map(|i| pseudo_random_index(i, 4096)).collect();
    assert_eq!(indexes, vec![1, 3886, 3675, 3464]);
    assert_eq!(pseudo_random_index(0x1001, 1000), 78);
    assert_eq!(pseudo_random_index(7, 0), 0);
}

#[test]
fn benchmarks_stay_on_the_device() {
    let plan = bench_plan(5 * 4096, 2 * 4096, 4096, 3);
    assert_eq!(plan.extents, vec![(0, 8192), (8192, 8192), (16384, 4096)]);
    assert_eq!(plan.random_reads.len(), 3);
    assert_eq!(plan.random_reads[0], 4096);
    assert!(plan.random_reads.iter().all(|offset| offset + 4096 <= 5 * 4096));
    assert!(plan.random_writes.iter().all(|offset| offset + 4096 <= 5 * 4096));
    assert_eq!(plan.object, deterministic_bytes(8192, 0x54474452495645));
    assert_eq!(plan.sector, deterministic_bytes(4096, 0x52414e444f4d));
}

#[test]
fn benchmarks_go_through_their_phases_in_order() {
    let plan = bench_plan(3 * 4096, 2 * 4096, 4096, 2);
    assert_eq!(
        bench_steps(&plan),
        vec![
            BenchStep::WriteExtent { offset: 0, len: 8192 },
            BenchStep::WriteExtent { offset: 8192, len: 4096 },
            BenchStep::FirstFlush,
            BenchStep::ReadExtent { offset: 0, len: 8192 },
            BenchStep::ReadExtent { offset: 8192, len: 4096 },
            BenchStep::ReadSector { offset: plan.random_reads[0] },
            BenchStep::ReadSector { offset: plan.random_reads[1] },
            BenchStep::WriteSector { offset: plan.random_writes[0] },
            BenchStep::WriteSector { offset: plan.random_writes[1] },
            BenchStep::FinalFlush,
        ]
    );
    let empty = bench_plan(0, 4096, 4096, 0);
    assert_eq!(bench_steps(&empty), vec![BenchStep::FirstFlush, BenchStep::FinalFlush]);
}

#[test]
fn exports_take_the_device_from_the_settings() {
    let options = nbd_options("bind".to_string(), "name".to_string(), &settings());
    assert_eq!((options.bind.as_str(), options.export_name.as_str()), ("bind", "name"));
    assert_eq!(options.device_size, 64 * 1024 * 1024);
    assert_eq!(options.logical_block_size, 4096);
    assert_eq!(options.max_inflight, 64);
}

#[test]
fn formatting_takes_other_sizes() {
    let resized = format_settings(&settings(), Some(1024 * 1024), Some(64 * 1024)).unwrap();
    assert_eq!((resized.device_size, resized.object_size), (1024 * 1024, 64 * 1024));
    assert_eq!(format_settings(&settings(), None, None).unwrap(), settings());
    assert_eq!(
        format_settings(&settings(), Some(1000), None),
        Err(ConfigError::DeviceSizeAlignment)
    );
    let cut = format_settings(&settings(), None, Some((1 << 32) + 128 * 1024)).unwrap();
    assert_eq!(cut.object_size, 128 * 1024);
}

#[test]
fn metadata_is_replaced_by_force_only() {
    assert!(may_replace(false, false));
    assert!(may_replace(true, true));
    assert!(!may_replace(true, false));
}

#[test]
fn new_devices_have_random_identifiers() {
    let first = new_manifest(65536, 2);
    let second = new_manifest(65536, 2);
    assert_ne!(first.device_uuid, second.device_uuid);
    assert_eq!((first.device_uuid >> 76) & 0xf, 4);
    assert_eq!((first.device_uuid >> 62) & 3, 2);
    assert_eq!(first, Manifest::empty(first.device_uuid, 65536, 2));
}

#[test]
fn manifests_are_checked_against_the_settings() {
    let manifest = Manifest::empty(7, 256 * 1024, 256);
    assert_eq!(
        check_manifest(&settings(), &manifest, b"abc").unwrap(),
        "ba7816bf8f01cfea414140de5dae2223b00361a396177a9cb410ff61f20015ad"
    );
    let short = Manifest::empty(7, 256 * 1024, 255);
    assert_eq!(check_manifest(&settings(), &short, b"abc"), Err(ObjectCountMismatch));
}

#[test]
fn variables_are_set_in_place() {
    assert_eq!(upsert_env("A=1\nB=2\n", "A", "3"), "A=3\nB=2\n");
    assert_eq!(upsert_env("A=1\r\nB=2", "C", "3"), "A=1\nB=2\nC=3\n");
    assert_eq!(upsert_env("", "A", "1"), "A=1\n");
    assert_eq!(upsert_env("A=1\nAB=2\nA=3\n", "A", "x"), "A=x\nAB=2\nA=x\n");
    assert_eq!(upsert_env("\n\n", "A", "1"), "\n\nA=1\n");
}

#[test]
fn update_progress_is_kept_by_kind() {
    let mut progress = UpdateProgress { pts: 1, qts: 2, date: 3, seq: 4, channels: Vec::new() };
    progress.set_update_state(ProgressUpdate::Primary { pts: 5, date: 6, seq: 7 });
    progress.set_update_state(ProgressUpdate::Secondary { qts: 8 });
    progress.set_update_state(ProgressUpdate::Channel { id: 10, pts: 1 });
    progress.set_update_state(ProgressUpdate::Channel { id: 11, pts: 2 });
    progress.set_update_state(ProgressUpdate::Channel { id: 10, pts: 3 });
    assert_eq!((progress.pts, progress.qts, progress.date, progress.seq), (5, 8, 6, 7));
    assert_eq!(
        progress.channels,
        vec![ChannelProgress { id: 11, pts: 2 }, ChannelProgress { id: 10, pts: 3 }]
    );
    let anew = UpdateProgress { pts: 9, qts: 9, date: 9, seq: 9, channels: Vec::new() };
    progress.set_update_state(ProgressUpdate::All { progress: anew });
    assert_eq!(progress.pts, 9);
    assert!(progress.channels.is_empty());
}

#[test]
fn the_clock_runs_and_is_written() {
    let first = now_utc();
    let second = now_utc();
    assert!(first.unix_nanos > 1_600_000_000_000_000_000);
    assert!(second.unix_nanos >= first.unix_nanos);
    assert_eq!(first.offset_seconds, 0);
    let text = now_text();
    assert!(text.starts_with('2'));
    assert!(text.ends_with("+00:00:00"));
}

#[test]
fn numbers_are_written_and_read() {
    let mut out = String::new();
    append_decimal(&mut out, 0);
    append_decimal(&mut out, u64::MAX);
    append_fixed_hex(&mut out, 0xbeef, 6);
    assert_eq!(out, "01844674407370955161500beef");
    assert_eq!(parse_u64("+7"), Some(7));
    assert_eq!(parse_u64("+"), None);
    assert_eq!(parse_i64("-9223372036854775808"), Some(i64::MIN));
    assert_eq!(parse_i64("9223372036854775808"), None);
    assert_eq!(trim("\u{2003} a b\t\n"), "a b");
    assert!(contains("abcabd", "abd"));
    assert!(!contains("ab", "abc"));
    assert!(text_less("a", "b") && text_less("a", "ab") && !text_less("a", "a"));
}
