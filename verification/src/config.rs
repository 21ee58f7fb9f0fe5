//! Settings: from a file, overridden by the environment, completed by defaults.
use vstd::prelude::*;
use vstd::string::StringExecFns;

use crate::backend::{clone_opt_text, opt_text_view};
use crate::block::{count_parts, divides, is_multiple, parts_of};
use crate::text::{ends_with, parse_i64, parse_u64, signed_value, text_equal, unsigned_value};

verus! {

/// The smallest object size that a device may have.
pub const MIN_OBJECT_SIZE: u32 = 65_536;

/// Why settings cannot be used.
#[derive(Debug, Clone, Copy, PartialEq, Eq)]
pub enum ConfigError {
    Missing(&'static str),
    DeviceSizeAlignment,
    ObjectSizeAlignment,
    ObjectSizeTooSmall,
    CacheRequired,
}

/// Settings as a file gives them; anything may be absent.
#[derive(Debug, PartialEq, Eq)]
pub struct TgDriveConfigFile {
    pub device_size: Option<u64>,
    pub logical_sector_size: Option<u32>,
    pub object_size: Option<u32>,
    pub cache_dir: Option<String>,
    pub sqlite_path: Option<String>,
    pub telegram_api_id: Option<i32>,
    pub telegram_api_hash: Option<String>,
    pub telegram_session_path: Option<String>,
    pub telegram_channel_id: Option<i64>,
    pub telegram_channel_access_hash: Option<i64>,
    pub telegram_channel_title: Option<String>,
    pub read_only: Option<bool>,
}

/// The value of a [`TgDriveConfigFile`].
#[verifier::ext_equal]
pub struct ConfigFileView {
    pub device_size: Option<u64>,
    pub logical_sector_size: Option<u32>,
    pub object_size: Option<u32>,
    pub cache_dir: Option<Seq<char>>,
    pub sqlite_path: Option<Seq<char>>,
    pub telegram_api_id: Option<i32>,
    pub telegram_api_hash: Option<Seq<char>>,
    pub telegram_session_path: Option<Seq<char>>,
    pub telegram_channel_id: Option<i64>,
    pub telegram_channel_access_hash: Option<i64>,
    pub telegram_channel_title: Option<Seq<char>>,
    pub read_only: Option<bool>,
}

impl View for TgDriveConfigFile {
    type V = ConfigFileView;

    open spec fn view(&self) -> ConfigFileView {
        ConfigFileView {
            device_size: self.device_size,
            logical_sector_size: self.logical_sector_size,
            object_size: self.object_size,
            cache_dir: opt_text_view(self.cache_dir),
            sqlite_path: opt_text_view(self.sqlite_path),
            telegram_api_id: self.telegram_api_id,
            telegram_api_hash: opt_text_view(self.telegram_api_hash),
            telegram_session_path: opt_text_view(self.telegram_session_path),
            telegram_channel_id: self.telegram_channel_id,
            telegram_channel_access_hash: self.telegram_channel_access_hash,
            telegram_channel_title: opt_text_view(self.telegram_channel_title),
            read_only: self.read_only,
        }
    }
}

/// Complete settings.
#[derive(Debug, PartialEq, Eq)]
pub struct TgDriveConfig {
    pub device_size: u64,
    pub logical_sector_size: u32,
    pub object_size: u32,
    pub cache_dir: String,
    pub sqlite_path: String,
    pub telegram_api_id: Option<i32>,
    pub telegram_api_hash: Option<String>,
    pub telegram_session_path: String,
    pub telegram_channel_id: Option<i64>,
    pub telegram_channel_access_hash: Option<i64>,
    pub telegram_channel_title: Option<String>,
    pub read_only: bool,
}

/// The value of a [`TgDriveConfig`].
#[verifier::ext_equal]
pub struct ConfigView {
    pub device_size: u64,
    pub logical_sector_size: u32,
    pub object_size: u32,
    pub cache_dir: Seq<char>,
    pub sqlite_path: Seq<char>,
    pub telegram_api_id: Option<i32>,
    pub telegram_api_hash: Option<Seq<char>>,
    pub telegram_session_path: Seq<char>,
    pub telegram_channel_id: Option<i64>,
    pub telegram_channel_access_hash: Option<i64>,
    pub telegram_channel_title: Option<Seq<char>>,
    pub read_only: bool,
}

impl View for TgDriveConfig {
    type V = ConfigView;

    open spec fn view(&self) -> ConfigView {
        ConfigView {
            device_size: self.device_size,
            logical_sector_size: self.logical_sector_size,
            object_size: self.object_size,
            cache_dir: self.cache_dir@,
            sqlite_path: self.sqlite_path@,
            telegram_api_id: self.telegram_api_id,
            telegram_api_hash: opt_text_view(self.telegram_api_hash),
            telegram_session_path: self.telegram_session_path@,
            telegram_channel_id: self.telegram_channel_id,
            telegram_channel_access_hash: self.telegram_channel_access_hash,
            telegram_channel_title: opt_text_view(self.telegram_channel_title),
            read_only: self.read_only,
        }
    }
}

impl Clone for TgDriveConfig {
    fn clone(&self) -> (copy: Self)
        ensures
            copy == *self,
    {
        TgDriveConfig {
            device_size: self.device_size,
            logical_sector_size: self.logical_sector_size,
            object_size: self.object_size,
            cache_dir: self.cache_dir.clone(),
            sqlite_path: self.sqlite_path.clone(),
            telegram_api_id: self.telegram_api_id,
            telegram_api_hash: clone_opt_text(&self.telegram_api_hash),
            telegram_session_path: self.telegram_session_path.clone(),
            telegram_channel_id: self.telegram_channel_id,
            telegram_channel_access_hash: self.telegram_channel_access_hash,
            telegram_channel_title: clone_opt_text(&self.telegram_channel_title),
            read_only: self.read_only,
        }
    }
}

/// What an environment variable holds.
#[derive(Debug, PartialEq, Eq)]
pub enum EnvValue {
    Unset,
    Text(String),
    NotUnicode,
}

/// The environment variables that override settings. Paths are taken as they are,
/// without a reading as text.
#[derive(Debug, PartialEq, Eq)]
pub struct EnvOverrides {
    pub device_size: EnvValue,
    pub logical_sector_size: EnvValue,
    pub object_size: EnvValue,
    pub cache_dir: Option<String>,
    pub sqlite_path: Option<String>,
    pub telegram_api_id: EnvValue,
    pub telegram_api_hash: EnvValue,
    pub telegram_session_path: Option<String>,
    pub telegram_channel_id: EnvValue,
    pub telegram_channel_access_hash: EnvValue,
    pub telegram_channel_title: EnvValue,
    pub read_only: EnvValue,
}

/// The settings that must be read from the environment as a number or a switch.
#[derive(Debug, Clone, Copy, PartialEq, Eq, Structural)]
pub enum Setting {
    DeviceSize,
    LogicalSectorSize,
    ObjectSize,
    TelegramApiId,
    TelegramChannelId,
    TelegramChannelAccessHash,
    ReadOnly,
}

/// A variable that cannot be read.
#[derive(Debug, Clone, Copy, PartialEq, Eq, Structural)]
pub enum EnvError {
    NotUnicode(Setting),
    NotANumber(Setting),
}

/// The text of a variable that may be read as text or not at all.
pub open spec fn env_text(value: EnvValue) -> Option<Seq<char>> {
    match value {
        EnvValue::Text(text) => Some(text@),
        _ => None,
    }
}

/// An unsigned number no larger than `max` from the environment.
pub open spec fn env_unsigned(value: EnvValue, max: int, setting: Setting) -> Result<
    Option<int>,
    EnvError,
> {
    match value {
        EnvValue::Unset => Ok(None),
        EnvValue::NotUnicode => Err(EnvError::NotUnicode(setting)),
        EnvValue::Text(text) => match unsigned_value(text@) {
            Some(n) => if n <= max {
                Ok(Some(n as int))
            } else {
                Err(EnvError::NotANumber(setting))
            },
            None => Err(EnvError::NotANumber(setting)),
        },
    }
}

/// A signed number between `min` and `max` from the environment.
pub open spec fn env_signed(value: EnvValue, min: int, max: int, setting: Setting) -> Result<
    Option<int>,
    EnvError,
> {
    match value {
        EnvValue::Unset => Ok(None),
        EnvValue::NotUnicode => Err(EnvError::NotUnicode(setting)),
        EnvValue::Text(text) => match signed_value(text@) {
            Some(n) => if min <= n <= max {
                Ok(Some(n))
            } else {
                Err(EnvError::NotANumber(setting))
            },
            None => Err(EnvError::NotANumber(setting)),
        },
    }
}

/// The spellings that turn a switch on; every other text turns it off.
pub open spec fn switched_on(text: Seq<char>) -> bool {
    text == "1"@ || text == "true"@ || text == "TRUE"@ || text == "yes"@ || text == "YES"@
}

/// A switch from the environment.
pub open spec fn env_switch(value: EnvValue) -> Result<Option<bool>, EnvError> {
    match value {
        EnvValue::Unset => Ok(None),
        EnvValue::NotUnicode => Err(EnvError::NotUnicode(Setting::ReadOnly)),
        EnvValue::Text(text) => Ok(Some(switched_on(text@))),
    }
}

/// `first` where it is there, else `second`.
pub open spec fn or_else<T>(first: Option<T>, second: Option<T>) -> Option<T> {
    match first {
        Some(v) => Some(v),
        None => second,
    }
}

fn read_unsigned(value: &EnvValue, max: u64, setting: Setting) -> (result: Result<
    Option<u64>,
    EnvError,
>)
    ensures
        match result {
            Ok(Some(n)) => env_unsigned(*value, max as int, setting) == Ok::<Option<int>, EnvError>(
                Some(n as int),
            ) && n <= max,
            Ok(None) => env_unsigned(*value, max as int, setting) == Ok::<Option<int>, EnvError>(
                None,
            ),
            Err(e) => env_unsigned(*value, max as int, setting) == Err::<Option<int>, EnvError>(e),
        },
{
    match value {
        EnvValue::Unset => Ok(None),
        EnvValue::NotUnicode => Err(EnvError::NotUnicode(setting)),
        EnvValue::Text(text) => match parse_u64(text.as_str()) {
            Some(n) if n <= max => Ok(Some(n)),
            _ => Err(EnvError::NotANumber(setting)),
        },
    }
}

fn read_signed(value: &EnvValue, min: i64, max: i64, setting: Setting) -> (result: Result<
    Option<i64>,
    EnvError,
>)
    ensures
        match result {
            Ok(Some(n)) => env_signed(*value, min as int, max as int, setting) == Ok::<
                Option<int>,
                EnvError,
            >(Some(n as int)) && min <= n <= max,
            Ok(None) => env_signed(*value, min as int, max as int, setting) == Ok::<
                Option<int>,
                EnvError,
            >(None),
            Err(e) => env_signed(*value, min as int, max as int, setting) == Err::<
                Option<int>,
                EnvError,
            >(e),
        },
{
    match value {
        EnvValue::Unset => Ok(None),
        EnvValue::NotUnicode => Err(EnvError::NotUnicode(setting)),
        EnvValue::Text(text) => match parse_i64(text.as_str()) {
            Some(n) if min <= n && n <= max => Ok(Some(n)),
            _ => Err(EnvError::NotANumber(setting)),
        },
    }
}

fn read_switch(value: &EnvValue) -> (result: Result<Option<bool>, EnvError>)
    ensures
        result == env_switch(*value),
{
    match value {
        EnvValue::Unset => Ok(None),
        EnvValue::NotUnicode => Err(EnvError::NotUnicode(Setting::ReadOnly)),
        EnvValue::Text(text) => {
            let t = text.as_str();
            Ok(
                Some(
                    text_equal(t, "1") || text_equal(t, "true") || text_equal(t, "TRUE")
                        || text_equal(t, "yes") || text_equal(t, "YES"),
                ),
            )
        },
    }
}

fn text_or(value: EnvValue, other: Option<String>) -> (result: Option<String>)
    ensures
        opt_text_view(result) == or_else(env_text(value), opt_text_view(other)),
{
    match value {
        EnvValue::Text(text) => Some(text),
        _ => other,
    }
}

fn path_or(first: Option<String>, second: Option<String>) -> (result: Option<String>)
    ensures
        opt_text_view(result) == or_else(opt_text_view(first), opt_text_view(second)),
{
    match first {
        Some(path) => Some(path),
        None => second,
    }
}

/// The first variable that cannot be read, in the order in which they are read.
pub open spec fn env_problem(env: EnvOverrides) -> Option<EnvError> {
    if env_unsigned(env.device_size, u64::MAX as int, Setting::DeviceSize) is Err {
        Some(env_unsigned(env.device_size, u64::MAX as int, Setting::DeviceSize)->Err_0)
    } else if env_unsigned(
        env.logical_sector_size,
        u32::MAX as int,
        Setting::LogicalSectorSize,
    ) is Err {
        Some(
            env_unsigned(
                env.logical_sector_size,
                u32::MAX as int,
                Setting::LogicalSectorSize,
            )->Err_0,
        )
    } else if env_unsigned(env.object_size, u32::MAX as int, Setting::ObjectSize) is Err {
        Some(env_unsigned(env.object_size, u32::MAX as int, Setting::ObjectSize)->Err_0)
    } else if env_signed(
        env.telegram_api_id,
        i32::MIN as int,
        i32::MAX as int,
        Setting::TelegramApiId,
    ) is Err {
        Some(
            env_signed(
                env.telegram_api_id,
                i32::MIN as int,
                i32::MAX as int,
                Setting::TelegramApiId,
            )->Err_0,
        )
    } else if env_signed(
        env.telegram_channel_id,
        i64::MIN as int,
        i64::MAX as int,
        Setting::TelegramChannelId,
    ) is Err {
        Some(
            env_signed(
                env.telegram_channel_id,
                i64::MIN as int,
                i64::MAX as int,
                Setting::TelegramChannelId,
            )->Err_0,
        )
    } else if env_signed(
        env.telegram_channel_access_hash,
        i64::MIN as int,
        i64::MAX as int,
        Setting::TelegramChannelAccessHash,
    ) is Err {
        Some(
            env_signed(
                env.telegram_channel_access_hash,
                i64::MIN as int,
                i64::MAX as int,
                Setting::TelegramChannelAccessHash,
            )->Err_0,
        )
    } else if env_switch(env.read_only) is Err {
        Some(env_switch(env.read_only)->Err_0)
    } else {
        None
    }
}

/// `file` with every setting replaced that a readable variable gives.
pub open spec fn overridden(file: ConfigFileView, env: EnvOverrides) -> ConfigFileView {
    ConfigFileView {
        device_size: match env_unsigned(env.device_size, u64::MAX as int, Setting::DeviceSize) {
            Ok(Some(n)) => Some(n as u64),
            _ => file.device_size,
        },
        logical_sector_size: match env_unsigned(
            env.logical_sector_size,
            u32::MAX as int,
            Setting::LogicalSectorSize,
        ) {
            Ok(Some(n)) => Some(n as u32),
            _ => file.logical_sector_size,
        },
        object_size: match env_unsigned(env.object_size, u32::MAX as int, Setting::ObjectSize) {
            Ok(Some(n)) => Some(n as u32),
            _ => file.object_size,
        },
        cache_dir: or_else(opt_text_view(env.cache_dir), file.cache_dir),
        sqlite_path: or_else(opt_text_view(env.sqlite_path), file.sqlite_path),
        telegram_api_id: match env_signed(
            env.telegram_api_id,
            i32::MIN as int,
            i32::MAX as int,
            Setting::TelegramApiId,
        ) {
            Ok(Some(n)) => Some(n as i32),
            _ => file.telegram_api_id,
        },
        telegram_api_hash: or_else(env_text(env.telegram_api_hash), file.telegram_api_hash),
        telegram_session_path: or_else(
            opt_text_view(env.telegram_session_path),
            file.telegram_session_path,
        ),
        telegram_channel_id: match env_signed(
            env.telegram_channel_id,
            i64::MIN as int,
            i64::MAX as int,
            Setting::TelegramChannelId,
        ) {
            Ok(Some(n)) => Some(n as i64),
            _ => file.telegram_channel_id,
        },
        telegram_channel_access_hash: match env_signed(
            env.telegram_channel_access_hash,
            i64::MIN as int,
            i64::MAX as int,
            Setting::TelegramChannelAccessHash,
        ) {
            Ok(Some(n)) => Some(n as i64),
            _ => file.telegram_channel_access_hash,
        },
        telegram_channel_title: or_else(
            env_text(env.telegram_channel_title),
            file.telegram_channel_title,
        ),
        read_only: match env_switch(env.read_only) {
            Ok(Some(on)) => Some(on),
            _ => file.read_only,
        },
    }
}

/// Replaces every setting that the environment gives.
pub fn merge_env(file: TgDriveConfigFile, env: EnvOverrides) -> (result: Result<
    TgDriveConfigFile,
    EnvError,
>)
    ensures
        match result {
            Ok(merged) => env_problem(env) is None && merged@ == overridden(file@, env),
            Err(error) => env_problem(env) == Some(error),
        },
{
    let device_size = match read_unsigned(&env.device_size, u64::MAX, Setting::DeviceSize) {
        Ok(Some(n)) => Some(n),
        Ok(None) => file.device_size,
        Err(e) => return Err(e),
    };
    let logical_sector_size = match read_unsigned(
        &env.logical_sector_size,
        u32::MAX as u64,
        Setting::LogicalSectorSize,
    ) {
        Ok(Some(n)) => Some(n as u32),
        Ok(None) => file.logical_sector_size,
        Err(e) => return Err(e),
    };
    let object_size = match read_unsigned(&env.object_size, u32::MAX as u64, Setting::ObjectSize) {
        Ok(Some(n)) => Some(n as u32),
        Ok(None) => file.object_size,
        Err(e) => return Err(e),
    };
    let telegram_api_id = match read_signed(
        &env.telegram_api_id,
        i32::MIN as i64,
        i32::MAX as i64,
        Setting::TelegramApiId,
    ) {
        Ok(Some(n)) => Some(n as i32),
        Ok(None) => file.telegram_api_id,
        Err(e) => return Err(e),
    };
    let telegram_channel_id = match read_signed(
        &env.telegram_channel_id,
        i64::MIN,
        i64::MAX,
        Setting::TelegramChannelId,
    ) {
        Ok(Some(n)) => Some(n),
        Ok(None) => file.telegram_channel_id,
        Err(e) => return Err(e),
    };
    let telegram_channel_access_hash = match read_signed(
        &env.telegram_channel_access_hash,
        i64::MIN,
        i64::MAX,
        Setting::TelegramChannelAccessHash,
    ) {
        Ok(Some(n)) => Some(n),
        Ok(None) => file.telegram_channel_access_hash,
        Err(e) => return Err(e),
    };
    let read_only = match read_switch(&env.read_only) {
        Ok(Some(on)) => Some(on),
        Ok(None) => file.read_only,
        Err(e) => return Err(e),
    };
    Ok(
        TgDriveConfigFile {
            device_size,
            logical_sector_size,
            object_size,
            cache_dir: path_or(env.cache_dir, file.cache_dir),
            sqlite_path: path_or(env.sqlite_path, file.sqlite_path),
            telegram_api_id,
            telegram_api_hash: text_or(env.telegram_api_hash, file.telegram_api_hash),
            telegram_session_path: path_or(env.telegram_session_path, file.telegram_session_path),
            telegram_channel_id,
            telegram_channel_access_hash,
            telegram_channel_title: text_or(env.telegram_channel_title, file.telegram_channel_title),
            read_only,
        },
    )
}

/// The path of `name` in the directory `dir`.
pub open spec fn joined_path(dir: Seq<char>, name: Seq<char>) -> Seq<char> {
    if dir.len() == 0 || dir.last() == '/' {
        dir + name
    } else {
        dir.push('/') + name
    }
}

/// The path of `name`, which is relative, in the directory `dir`.
pub fn join_path(dir: &str, name: &str) -> (path: String)
    ensures
        path@ == joined_path(dir@, name@),
{
    proof {
        reveal_strlit("/");
    }
    let mut path = dir.to_owned();
    if !dir.is_empty() && !ends_with(dir, "/") {
        path.append("/");
        assert(path@ =~= dir@.push('/'));
        assert(dir@.last() != '/') by {
            if dir@.last() == '/' {
                assert(dir@.skip(dir@.len() - 1) =~= "/"@);
            }
        }
    } else if !dir.is_empty() {
        assert(dir@.last() == "/"@[0]);
    }
    path.append(name);
    path
}

/// The device size where none is set.
pub const DEFAULT_DEVICE_SIZE: u64 = 67_108_864;

/// The sector size where none is set.
pub const DEFAULT_LOGICAL_SECTOR_SIZE: u32 = 4_096;

/// The object size where none is set.
pub const DEFAULT_OBJECT_SIZE: u32 = 262_144;

/// The directory for the cache: as set, else below the user's cache directory.
pub open spec fn chosen_cache_dir(
    set: Option<Seq<char>>,
    user_cache_dir: Option<Seq<char>>,
) -> Option<Seq<char>> {
    match set {
        Some(dir) => Some(dir),
        None => match user_cache_dir {
            Some(dir) => Some(joined_path(dir, "tgdrive"@)),
            None => None,
        },
    }
}

/// Complete settings in which the cache lies in `cache_dir`.
pub open spec fn completed(
    file: ConfigFileView,
    cache_dir: Seq<char>,
    read_only_override: Option<bool>,
) -> ConfigView {
    ConfigView {
        device_size: match file.device_size {
            Some(n) => n,
            None => DEFAULT_DEVICE_SIZE,
        },
        logical_sector_size: match file.logical_sector_size {
            Some(n) => n,
            None => DEFAULT_LOGICAL_SECTOR_SIZE,
        },
        object_size: match file.object_size {
            Some(n) => n,
            None => DEFAULT_OBJECT_SIZE,
        },
        cache_dir,
        sqlite_path: match file.sqlite_path {
            Some(path) => path,
            None => joined_path(cache_dir, "metadata.sqlite3"@),
        },
        telegram_api_id: file.telegram_api_id,
        telegram_api_hash: file.telegram_api_hash,
        telegram_session_path: match file.telegram_session_path {
            Some(path) => path,
            None => joined_path(cache_dir, "telegram.session"@),
        },
        telegram_channel_id: file.telegram_channel_id,
        telegram_channel_access_hash: file.telegram_channel_access_hash,
        telegram_channel_title: file.telegram_channel_title,
        read_only: match read_only_override {
            Some(on) => on,
            None => match file.read_only {
                Some(on) => on,
                None => false,
            },
        },
    }
}

/// What is wrong with complete settings; the first check that fails decides.
pub open spec fn config_problem(config: ConfigView) -> Option<ConfigError> {
    if !divides(config.device_size as int, config.logical_sector_size as int) {
        Some(ConfigError::DeviceSizeAlignment)
    } else if !divides(config.object_size as int, config.logical_sector_size as int) {
        Some(ConfigError::ObjectSizeAlignment)
    } else if config.object_size < MIN_OBJECT_SIZE {
        Some(ConfigError::ObjectSizeTooSmall)
    } else if !config.read_only && config.cache_dir.len() == 0 {
        Some(ConfigError::CacheRequired)
    } else {
        None
    }
}

impl TgDriveConfig {
    /// Completes settings that were read and overridden, and checks them.
    pub fn load(
        file: TgDriveConfigFile,
        user_cache_dir: Option<String>,
        read_only_override: Option<bool>,
    ) -> (result: Result<Self, ConfigError>)
        ensures
            match chosen_cache_dir(file@.cache_dir, opt_text_view(user_cache_dir)) {
                None => result matches Err(ConfigError::Missing(name)) && name@ == "cache_dir"@,
                Some(dir) => {
                    let config = completed(file@, dir, read_only_override);
                    match result {
                        Ok(loaded) => config_problem(config) is None && loaded@ == config,
                        Err(error) => config_problem(config) == Some(error),
                    }
                },
            },
    {
        let cache_dir = match file.cache_dir {
            Some(dir) => dir,
            None => match user_cache_dir {
                Some(dir) => join_path(dir.as_str(), "tgdrive"),
                None => return Err(ConfigError::Missing("cache_dir")),
            },
        };
        let sqlite_path = match file.sqlite_path {
            Some(path) => path,
            None => join_path(cache_dir.as_str(), "metadata.sqlite3"),
        };
        let telegram_session_path = match file.telegram_session_path {
            Some(path) => path,
            None => join_path(cache_dir.as_str(), "telegram.session"),
        };
        let config = TgDriveConfig {
            device_size: match file.device_size {
                Some(n) => n,
                None => DEFAULT_DEVICE_SIZE,
            },
            logical_sector_size: match file.logical_sector_size {
                Some(n) => n,
                None => DEFAULT_LOGICAL_SECTOR_SIZE,
            },
            object_size: match file.object_size {
                Some(n) => n,
                None => DEFAULT_OBJECT_SIZE,
            },
            cache_dir,
            sqlite_path,
            telegram_api_id: file.telegram_api_id,
            telegram_api_hash: file.telegram_api_hash,
            telegram_session_path,
            telegram_channel_id: file.telegram_channel_id,
            telegram_channel_access_hash: file.telegram_channel_access_hash,
            telegram_channel_title: file.telegram_channel_title,
            read_only: match read_only_override {
                Some(on) => on,
                None => match file.read_only {
                    Some(on) => on,
                    None => false,
                },
            },
        };
        match config.validate() {
            Ok(()) => Ok(config),
            Err(error) => Err(error),
        }
    }

    /// Checks the sizes, and that a writable device has a cache.
    pub fn validate(&self) -> (result: Result<(), ConfigError>)
        ensures
            match result {
                Ok(()) => config_problem(self@) is None,
                Err(error) => config_problem(self@) == Some(error),
            },
    {
        if !is_multiple(self.device_size, self.logical_sector_size as u64) {
            return Err(ConfigError::DeviceSizeAlignment);
        }
        if !is_multiple(self.object_size as u64, self.logical_sector_size as u64) {
            return Err(ConfigError::ObjectSizeAlignment);
        }
        if self.object_size < MIN_OBJECT_SIZE {
            return Err(ConfigError::ObjectSizeTooSmall);
        }
        if !self.read_only && self.cache_dir.as_str().is_empty() {
            return Err(ConfigError::CacheRequired);
        }
        Ok(())
    }

    /// The number of objects that the device falls into.
    pub fn object_count(&self) -> (count: u64)
        requires
            self.object_size > 0,
        ensures
            count == parts_of(self.device_size as int, self.object_size as int),
    {
        count_parts(self.device_size, self.object_size as u64)
    }
}

/// Settings that were accepted describe a usable device: sectors and objects are not
/// empty, and device and objects consist of whole sectors.
pub proof fn law_accepted_settings_are_usable(config: ConfigView)
    requires
        config_problem(config) is None,
    ensures
        config.logical_sector_size > 0,
        config.object_size >= MIN_OBJECT_SIZE,
        config.device_size as int % config.logical_sector_size as int == 0,
        config.object_size as int % config.logical_sector_size as int == 0,
        config.read_only || config.cache_dir.len() > 0,
{
}

} // verus!
