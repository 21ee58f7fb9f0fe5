use tgdrive::config::{
    join_path, merge_env, ConfigError, EnvError, EnvOverrides, EnvValue, Setting, TgDriveConfig,
    TgDriveConfigFile,
};
use tgdrive::telegram::{telegram_config, MissingSetting};

#[test]
fn rejects_misaligned_device_size() {
    let cfg = TgDriveConfig {
        device_size: 1000,
        logical_sector_size: 4096,
        object_size: 256 * 1024,
        cache_dir: "cache".to_string(),
        sqlite_path: "cache/db.sqlite3".to_string(),
        telegram_api_id: None,
        telegram_api_hash: None,
        telegram_session_path: "cache/session".to_string(),
        telegram_channel_id: None,
        telegram_channel_access_hash: None,
        telegram_channel_title: None,
        read_only: false,
    };
    assert!(matches!(
        cfg.validate(),
        Err(ConfigError::DeviceSizeAlignment)
    ));
}

fn empty_file() -> TgDriveConfigFile {
    TgDriveConfigFile {
        device_size: None,
        logical_sector_size: None,
        object_size: None,
        cache_dir: None,
        sqlite_path: None,
        telegram_api_id: None,
        telegram_api_hash: None,
        telegram_session_path: None,
        telegram_channel_id: None,
        telegram_channel_access_hash: None,
        telegram_channel_title: None,
        read_only: None,
    }
}

fn unset() -> EnvOverrides {
    EnvOverrides {
        device_size: EnvValue::Unset,
        logical_sector_size: EnvValue::Unset,
        object_size: EnvValue::Unset,
        cache_dir: None,
        sqlite_path: None,
        telegram_api_id: EnvValue::Unset,
        telegram_api_hash: EnvValue::Unset,
        telegram_session_path: None,
        telegram_channel_id: EnvValue::Unset,
        telegram_channel_access_hash: EnvValue::Unset,
        telegram_channel_title: EnvValue::Unset,
        read_only: EnvValue::Unset,
    }
}

fn text(value: &str) -> EnvValue {
    EnvValue::Text(value.to_string())
}

fn loaded() -> TgDriveConfig {
    TgDriveConfig::load(empty_file(), Some("/home/user/.cache".to_string()), None).unwrap()
}

#[test]
fn defaults_fill_what_is_not_set() {
    let config = loaded();
    assert_eq!(config.device_size, 64 * 1024 * 1024);
    assert_eq!(config.logical_sector_size, 4096);
    assert_eq!(config.object_size, 256 * 1024);
    assert_eq!(config.cache_dir, "/home/user/.cache/tgdrive");
    assert_eq!(config.sqlite_path, "/home/user/.cache/tgdrive/metadata.sqlite3");
    assert_eq!(config.telegram_session_path, "/home/user/.cache/tgdrive/telegram.session");
    assert!(!config.read_only);
    assert_eq!(config.object_count(), 256);
}

#[test]
fn what_is_set_is_kept() {
    let mut file = empty_file();
    file.cache_dir = Some("dir/".to_string());
    file.sqlite_path = Some("db".to_string());
    file.read_only = Some(true);
    let config = TgDriveConfig::load(file, None, None).unwrap();
    assert_eq!(config.sqlite_path, "db");
    assert_eq!(config.telegram_session_path, "dir/telegram.session");
    assert!(config.read_only);
    let mut file = empty_file();
    file.cache_dir = Some("dir".to_string());
    file.read_only = Some(true);
    assert!(!TgDriveConfig::load(file, None, Some(false)).unwrap().read_only);
}

#[test]
fn faulty_settings_are_told_apart() {
    assert_eq!(
        TgDriveConfig::load(empty_file(), None, None),
        Err(ConfigError::Missing("cache_dir"))
    );
    let with = |change: fn(&mut TgDriveConfig)| {
        let mut config = loaded();
        change(&mut config);
        config.validate()
    };
    assert_eq!(with(|_| ()), Ok(()));
    assert_eq!(with(|c| c.object_size = 1000), Err(ConfigError::ObjectSizeAlignment));
    assert_eq!(with(|c| c.object_size = 32 * 1024), Err(ConfigError::ObjectSizeTooSmall));
    assert_eq!(with(|c| c.cache_dir.clear()), Err(ConfigError::CacheRequired));
    assert_eq!(
        with(|c| {
            c.cache_dir.clear();
            c.read_only = true;
        }),
        Ok(())
    );
}

#[test]
fn the_environment_overrides_the_file() {
    let mut file = empty_file();
    file.device_size = Some(1);
    file.telegram_api_hash = Some("file".to_string());
    file.telegram_channel_title = Some("title".to_string());
    let mut env = unset();
    env.device_size = text("8192");
    env.object_size = text("+65536");
    env.cache_dir = Some("cache".to_string());
    env.telegram_api_id = text("-5");
    env.telegram_api_hash = text("env");
    env.telegram_channel_id = text("-1001234567890");
    env.telegram_channel_title = EnvValue::NotUnicode;
    env.read_only = text("yes");
    let merged = merge_env(file, env).unwrap();
    assert_eq!(merged.device_size, Some(8192));
    assert_eq!(merged.object_size, Some(65536));
    assert_eq!(merged.logical_sector_size, None);
    assert_eq!(merged.cache_dir.as_deref(), Some("cache"));
    assert_eq!(merged.telegram_api_id, Some(-5));
    assert_eq!(merged.telegram_api_hash.as_deref(), Some("env"));
    assert_eq!(merged.telegram_channel_id, Some(-1001234567890));
    assert_eq!(merged.telegram_channel_title.as_deref(), Some("title"));
    assert_eq!(merged.read_only, Some(true));
}

#[test]
fn an_empty_environment_changes_nothing() {
    let mut file = empty_file();
    file.read_only = Some(true);
    file.object_size = Some(7);
    let merged = merge_env(file, unset()).unwrap();
    assert_eq!(merged.read_only, Some(true));
    assert_eq!(merged.object_size, Some(7));
}

#[test]
fn switches_know_five_words() {
    for word in ["1", "true", "TRUE", "yes", "YES"] {
        let mut env = unset();
        env.read_only = text(word);
        assert_eq!(merge_env(empty_file(), env).unwrap().read_only, Some(true));
    }
    for word in ["0", "True", "on", ""] {
        let mut env = unset();
        env.read_only = text(word);
        assert_eq!(merge_env(empty_file(), env).unwrap().read_only, Some(false));
    }
}

#[test]
fn faulty_variables_are_told_apart() {
    let with = |change: fn(&mut EnvOverrides)| {
        let mut env = unset();
        change(&mut env);
        merge_env(empty_file(), env)
    };
    assert_eq!(
        with(|env| env.device_size = text("1k")),
        Err(EnvError::NotANumber(Setting::DeviceSize))
    );
    assert_eq!(
        with(|env| env.logical_sector_size = text("4294967296")),
        Err(EnvError::NotANumber(Setting::LogicalSectorSize))
    );
    assert_eq!(
        with(|env| env.object_size = text("-1")),
        Err(EnvError::NotANumber(Setting::ObjectSize))
    );
    assert_eq!(
        with(|env| env.telegram_api_id = text("2147483648")),
        Err(EnvError::NotANumber(Setting::TelegramApiId))
    );
    assert_eq!(
        with(|env| env.telegram_channel_id = text("")),
        Err(EnvError::NotANumber(Setting::TelegramChannelId))
    );
    assert_eq!(
        with(|env| env.telegram_channel_access_hash = EnvValue::NotUnicode),
        Err(EnvError::NotUnicode(Setting::TelegramChannelAccessHash))
    );
    assert_eq!(
        with(|env| env.read_only = EnvValue::NotUnicode),
        Err(EnvError::NotUnicode(Setting::ReadOnly))
    );
}

#[test]
fn paths_are_joined() {
    assert_eq!(join_path("a", "b"), "a/b");
    assert_eq!(join_path("a/", "b"), "a/b");
    assert_eq!(join_path("", "b"), "b");
}

#[test]
fn the_connection_needs_three_settings() {
    let mut config = loaded();
    assert_eq!(telegram_config(&config), Err(MissingSetting::ApiId));
    config.telegram_api_id = Some(12);
    assert_eq!(telegram_config(&config), Err(MissingSetting::ApiHash));
    config.telegram_api_hash = Some("hash".to_string());
    assert_eq!(telegram_config(&config), Err(MissingSetting::ChannelId));
    config.telegram_channel_id = Some(-1001234567890);
    config.telegram_channel_title = Some("TGDrive".to_string());
    let client = telegram_config(&config).unwrap();
    assert_eq!((client.api_id, client.api_hash.as_str()), (12, "hash"));
    assert_eq!(client.channel_id, -1001234567890);
    assert_eq!(client.session_path, config.telegram_session_path);
    assert_eq!(client.channel_access_hash, None);
    assert_eq!(client.channel_title.as_deref(), Some("TGDrive"));
}
