//! What settings, errors of the service and update states come to.
use vstd::prelude::*;

use crate::backend::RemoteObjectRefView;
use crate::config::{
    chosen_cache_dir, completed, config_problem, env_problem, joined_path, overridden,
    ConfigError, ConfigFileView, ConfigView, EnvError, EnvOverrides, EnvValue, Setting,
};
use crate::digest::sha256_text;
use crate::envelope::{
    envelope_bytes, law_envelope_round_trip, law_first_wrong_field_decides, right_fields,
    EnvelopeView,
};
use crate::session::{channels_without, progressed, ChannelProgress, ProgressUpdate, ProgressView};
use crate::telegram::{
    cause_kind, fetch_problem, invocation_kind, missing_setting, text_kind, ErrorCause, FetchError,
    InvocationFailure, MissingSetting, TelegramErrorKind,
};
use crate::text::{signed_value, unsigned_value};
use crate::text_laws::law_part_is_found_anywhere;

verus! {

/// Why settings are refused, and that all others are accepted: device and objects must consist
/// of whole sectors, an object must have at least 65536 bytes, and a device that is not
/// read-only needs a directory for its cache. The first of these that is missing is named.
pub proof fn law_settings_are_refused_for_a_reason(config: ConfigView)
    ensures
        ({
            let sector = config.logical_sector_size as int;
            let device = config.device_size as int;
            let object = config.object_size as int;
            let device_fits = if sector == 0 {
                device == 0
            } else {
                device % sector == 0
            };
            let object_fits = if sector == 0 {
                object == 0
            } else {
                object % sector == 0
            };
            let problem = config_problem(config);
            &&& problem == Some(ConfigError::DeviceSizeAlignment) <==> !device_fits
            &&& problem == Some(ConfigError::ObjectSizeAlignment) <==> device_fits && !object_fits
            &&& problem == Some(ConfigError::ObjectSizeTooSmall) <==> device_fits && object_fits
                && object < 65536
            &&& problem == Some(ConfigError::CacheRequired) <==> device_fits && object_fits
                && object >= 65536 && !config.read_only && config.cache_dir.len() == 0
            &&& problem is None <==> device_fits && object_fits && object >= 65536 && (
            config.read_only || config.cache_dir.len() > 0)
        }),
{
}

/// `name` lies in the directory `dir`: one slash stands between them, which may be the
/// directory's own, and none where the directory has no name.
pub open spec fn lies_in(path: Seq<char>, dir: Seq<char>, name: Seq<char>) -> bool {
    if dir.len() == 0 {
        path == name
    } else if dir.last() == '/' {
        path == dir + name
    } else {
        path == dir + seq!['/'] + name
    }
}

/// What is set stays as it is set, and what is not set has its default: a device of 64 MiB in
/// objects of 256 KiB and sectors of 4 KiB, its index and session below the cache directory, and
/// not read-only. The cache is where it is set to be, else below the user's.
pub proof fn law_defaults_fill_what_is_not_set(
    file: ConfigFileView,
    dir: Seq<char>,
    user_dir: Seq<char>,
    read_only: Option<bool>,
)
    ensures
        ({
            let config = completed(file, dir, read_only);
            &&& config.device_size == if file.device_size is Some {
                file.device_size->0
            } else {
                67_108_864
            }
            &&& config.logical_sector_size == if file.logical_sector_size is Some {
                file.logical_sector_size->0
            } else {
                4096
            }
            &&& config.object_size == if file.object_size is Some {
                file.object_size->0
            } else {
                262_144
            }
            &&& config.cache_dir == dir
            &&& file.sqlite_path is Some ==> config.sqlite_path == file.sqlite_path->0
            &&& file.sqlite_path is None ==> lies_in(
                config.sqlite_path,
                dir,
                "metadata.sqlite3"@,
            )
            &&& file.telegram_session_path is Some ==> config.telegram_session_path
                == file.telegram_session_path->0
            &&& file.telegram_session_path is None ==> lies_in(
                config.telegram_session_path,
                dir,
                "telegram.session"@,
            )
            &&& config.telegram_api_id == file.telegram_api_id
            &&& config.telegram_api_hash == file.telegram_api_hash
            &&& config.telegram_channel_id == file.telegram_channel_id
            &&& config.telegram_channel_access_hash == file.telegram_channel_access_hash
            &&& config.telegram_channel_title == file.telegram_channel_title
            &&& config.read_only <==> (read_only == Some(true) || (read_only is None
                && file.read_only == Some(true)))
        }),
        chosen_cache_dir(Some(dir), Some(user_dir)) == Some(dir),
        chosen_cache_dir(Some(dir), None) == Some(dir),
        chosen_cache_dir(None, None) is None,
        chosen_cache_dir(None, Some(user_dir)) is Some,
        lies_in(chosen_cache_dir(None, Some(user_dir))->0, user_dir, "tgdrive"@),
{
    assert forall|name: Seq<char>| lies_in(#[trigger] joined_path(dir, name), dir, name) by {
        assert(joined_path(dir, name) =~= if dir.len() == 0 {
            name
        } else if dir.last() == '/' {
            dir + name
        } else {
            dir + seq!['/'] + name
        });
    }
    let name = "tgdrive"@;
    assert(joined_path(user_dir, name) =~= if user_dir.len() == 0 {
        name
    } else if user_dir.last() == '/' {
        user_dir + name
    } else {
        user_dir + seq!['/'] + name
    });
    assert(lies_in(joined_path(dir, "metadata.sqlite3"@), dir, "metadata.sqlite3"@));
    assert(lies_in(joined_path(dir, "telegram.session"@), dir, "telegram.session"@));
}

/// What a variable says of a setting that was `set`: nothing where it is not set; else the
/// number that its text spells.
pub open spec fn says(value: EnvValue, set: Option<int>, now: Option<int>) -> bool {
    match value {
        EnvValue::Unset => now == set,
        EnvValue::Text(text) => signed_value(text@) is Some && now == signed_value(text@),
        EnvValue::NotUnicode => false,
    }
}

/// A setting as a number of any width.
pub open spec fn as_number(value: Option<u64>) -> Option<int> {
    match value {
        Some(n) => Some(n as int),
        None => None,
    }
}

/// A text that a variable gives replaces the one that was set; one that cannot be read does not.
pub open spec fn says_text(
    value: EnvValue,
    set: Option<Seq<char>>,
    now: Option<Seq<char>>,
) -> bool {
    match value {
        EnvValue::Text(text) => now == Some(text@),
        _ => now == set,
    }
}

/// A variable that is set to a number takes the place of what the file says, and one that is not
/// set leaves it; texts and paths likewise.
pub proof fn law_environment_overrides_the_file(file: ConfigFileView, env: EnvOverrides)
    requires
        env_problem(env) is None,
    ensures
        ({
            let merged = overridden(file, env);
            &&& says(env.device_size, as_number(file.device_size), as_number(merged.device_size))
            &&& says(
                env.logical_sector_size,
                match file.logical_sector_size {
                    Some(n) => Some(n as int),
                    None => None,
                },
                match merged.logical_sector_size {
                    Some(n) => Some(n as int),
                    None => None,
                },
            )
            &&& says(
                env.object_size,
                match file.object_size {
                    Some(n) => Some(n as int),
                    None => None,
                },
                match merged.object_size {
                    Some(n) => Some(n as int),
                    None => None,
                },
            )
            &&& says(
                env.telegram_api_id,
                match file.telegram_api_id {
                    Some(n) => Some(n as int),
                    None => None,
                },
                match merged.telegram_api_id {
                    Some(n) => Some(n as int),
                    None => None,
                },
            )
            &&& says(
                env.telegram_channel_id,
                match file.telegram_channel_id {
                    Some(n) => Some(n as int),
                    None => None,
                },
                match merged.telegram_channel_id {
                    Some(n) => Some(n as int),
                    None => None,
                },
            )
            &&& says(
                env.telegram_channel_access_hash,
                match file.telegram_channel_access_hash {
                    Some(n) => Some(n as int),
                    None => None,
                },
                match merged.telegram_channel_access_hash {
                    Some(n) => Some(n as int),
                    None => None,
                },
            )
            &&& says_text(env.telegram_api_hash, file.telegram_api_hash, merged.telegram_api_hash)
            &&& says_text(
                env.telegram_channel_title,
                file.telegram_channel_title,
                merged.telegram_channel_title,
            )
            &&& merged.cache_dir == if env.cache_dir is Some {
                Some(env.cache_dir->0@)
            } else {
                file.cache_dir
            }
            &&& merged.sqlite_path == if env.sqlite_path is Some {
                Some(env.sqlite_path->0@)
            } else {
                file.sqlite_path
            }
            &&& merged.telegram_session_path == if env.telegram_session_path is Some {
                Some(env.telegram_session_path->0@)
            } else {
                file.telegram_session_path
            }
            &&& match env.read_only {
                EnvValue::Text(text) => merged.read_only == Some(
                    text@ == "1"@ || text@ == "true"@ || text@ == "TRUE"@ || text@ == "yes"@
                        || text@ == "YES"@,
                ),
                _ => merged.read_only == file.read_only,
            }
        }),
{
}

/// A variable can be read as a number within bounds, or is not set.
pub open spec fn is_readable(value: EnvValue, signed: bool, min: int, max: int) -> bool {
    match value {
        EnvValue::Unset => true,
        EnvValue::NotUnicode => false,
        EnvValue::Text(text) => {
            &&& signed_value(text@) is Some
            &&& signed || unsigned_value(text@) is Some
            &&& min <= signed_value(text@)->0 <= max
        },
    }
}

/// The environment is refused exactly where a variable that must be a number or a switch cannot
/// be read, and the variable is named.
pub proof fn law_unreadable_variable_is_named(env: EnvOverrides)
    ensures
        ({
            let size = is_readable(env.device_size, false, 0, u64::MAX as int);
            let sector = is_readable(env.logical_sector_size, false, 0, u32::MAX as int);
            let object = is_readable(env.object_size, false, 0, u32::MAX as int);
            let api = is_readable(
                env.telegram_api_id,
                true,
                i32::MIN as int,
                i32::MAX as int,
            );
            let channel = is_readable(
                env.telegram_channel_id,
                true,
                i64::MIN as int,
                i64::MAX as int,
            );
            let access = is_readable(
                env.telegram_channel_access_hash,
                true,
                i64::MIN as int,
                i64::MAX as int,
            );
            let switch = !(env.read_only is NotUnicode);
            let named = match env_problem(env) {
                Some(EnvError::NotUnicode(setting)) => Some(setting),
                Some(EnvError::NotANumber(setting)) => Some(setting),
                None => None,
            };
            &&& env_problem(env) is None <==> size && sector && object && api && channel && access
                && switch
            &&& named == Some(Setting::DeviceSize) <==> !size
            &&& named == Some(Setting::LogicalSectorSize) <==> size && !sector
            &&& named == Some(Setting::ObjectSize) <==> size && sector && !object
            &&& named == Some(Setting::TelegramApiId) <==> size && sector && object && !api
            &&& named == Some(Setting::TelegramChannelId) <==> size && sector && object && api
                && !channel
            &&& named == Some(Setting::TelegramChannelAccessHash) <==> size && sector && object
                && api && channel && !access
            &&& named == Some(Setting::ReadOnly) <==> size && sector && object && api && channel
                && access && !switch
        }),
{
}

/// The connection needs a program number, its hash and a channel; the first that is absent is
/// named.
pub proof fn law_connection_needs_three_settings(config: ConfigView)
    ensures
        missing_setting(config) is None <==> config.telegram_api_id is Some
            && config.telegram_api_hash is Some && config.telegram_channel_id is Some,
        missing_setting(config) == Some(MissingSetting::ApiId) <==> config.telegram_api_id is None,
        missing_setting(config) == Some(MissingSetting::ApiHash) <==> config.telegram_api_id is Some
            && config.telegram_api_hash is None,
{
}

/// An error is classified by the first of its causes that says anything, whatever others stand
/// around it; where none does, nothing is said of it.
pub proof fn law_first_known_cause_decides(
    before: Seq<ErrorCause>,
    cause: ErrorCause,
    after: Seq<ErrorCause>,
)
    requires
        forall|i: int| 0 <= i < before.len() ==> (#[trigger] before[i]) is Other,
    ensures
        cause_kind(before) is None,
        cause matches ErrorCause::Invocation { failure } ==> cause_kind(
            before + seq![cause] + after,
        ) == Some(invocation_kind(failure)),
        cause is Format ==> cause_kind(before + seq![cause] + after) == Some(
            TelegramErrorKind::Corruption,
        ),
    decreases before.len(),
{
    let all = before + seq![cause] + after;
    if before.len() > 0 {
        let rest = before.skip(1);
        assert forall|i: int| 0 <= i < rest.len() implies (#[trigger] rest[i]) is Other by {
            assert(rest[i] == before[i + 1]);
        }
        law_first_known_cause_decides(rest, cause, after);
        assert(all.skip(1) =~= rest + seq![cause] + after);
        assert(all[0] == before[0]);
    } else {
        assert(all[0] == cause);
    }
}

/// What errors of the service ask for, by code and name: too many calls are told by code 420
/// whatever the name; a login that is not valid by how the name begins; any other error from code
/// 500 on is worth another try, and one below is not.
pub proof fn law_service_errors_are_told_by_code_and_name(
    code: i32,
    name: String,
    rest: Seq<char>,
)
    ensures
        ({
            let kind = invocation_kind(InvocationFailure::Rpc { code, name });
            let login = name@ == "AUTH_KEY_"@ + rest || name@ == "SESSION_"@ + rest || name@
                == "USER_DEACTIVATED"@ + rest || name@ == "PHONE_"@ + rest;
            &&& kind == TelegramErrorKind::RateLimited <==> code == 420
            &&& code != 420 && login ==> kind == TelegramErrorKind::Authentication
            &&& code != 420 && kind != TelegramErrorKind::Authentication ==> kind == if code
                >= 500 {
                TelegramErrorKind::Retryable
            } else {
                TelegramErrorKind::Permanent
            }
            &&& kind == TelegramErrorKind::Authentication ==> "AUTH_KEY_"@.is_prefix_of(name@)
                || "SESSION_"@.is_prefix_of(name@) || "USER_DEACTIVATED"@.is_prefix_of(name@)
                || "PHONE_"@.is_prefix_of(name@)
        }),
{
    reveal_strlit("AUTH_KEY_*");
    reveal_strlit("SESSION_*");
    reveal_strlit("USER_DEACTIVATED*");
    reveal_strlit("PHONE_*");
    reveal_strlit("AUTH_KEY_");
    reveal_strlit("SESSION_");
    reveal_strlit("USER_DEACTIVATED");
    reveal_strlit("PHONE_");
    assert("AUTH_KEY_*"@.drop_last() =~= "AUTH_KEY_"@);
    assert("SESSION_*"@.drop_last() =~= "SESSION_"@);
    assert("USER_DEACTIVATED*"@.drop_last() =~= "USER_DEACTIVATED"@);
    assert("PHONE_*"@.drop_last() =~= "PHONE_"@);
    assert forall|start: Seq<char>| name@ == #[trigger] (start + rest) implies start.is_prefix_of(
        name@,
    ) by {
        assert((start + rest).take(start.len() as int) =~= start);
    }
}

/// Without a known cause an error is told by its text: words of damage make it one of damage,
/// wherever they stand; else words of absence make it one of absence.
pub proof fn law_errors_are_told_by_their_words(before: Seq<char>, after: Seq<char>)
    ensures
        text_kind(before + "checksum"@ + after) == TelegramErrorKind::Corruption,
        text_kind(before + "wrong object"@ + after) == TelegramErrorKind::Corruption,
        text_kind(before + "wrong generation"@ + after) == TelegramErrorKind::Corruption,
        text_kind(before + "has no media"@ + after) == TelegramErrorKind::Corruption,
        text_kind(before + "not found"@ + after) == TelegramErrorKind::NotFound || text_kind(
            before + "not found"@ + after,
        ) == TelegramErrorKind::Corruption,
{
    law_part_is_found_anywhere(before, "checksum"@, after);
    law_part_is_found_anywhere(before, "wrong object"@, after);
    law_part_is_found_anywhere(before, "wrong generation"@, after);
    law_part_is_found_anywhere(before, "has no media"@, after);
    law_part_is_found_anywhere(before, "not found"@, after);
}

/// What a reference led to is accepted exactly where it is there, is the stored form of the
/// generation of the object that the reference names, and has the digest that it names. What was
/// stored as such is accepted.
pub proof fn law_fetched_object_is_the_one_referred_to(
    reference: RemoteObjectRefView,
    payload: Option<Seq<u8>>,
    content: Seq<u8>,
    stored_size: u32,
    flags: u32,
)
    requires
        payload is Some ==> payload->0.len() <= u64::MAX,
        content.len() <= u64::MAX,
    ensures
        ({
            let problem = fetch_problem(reference, payload);
            let right = right_fields(payload->0, reference.object_id, reference.generation);
            &&& problem is None <==> payload is Some && right == 7 && sha256_text(payload->0)
                == reference.sha256
            &&& problem == Some(FetchError::NotFound { message_id: reference.message_id })
                <==> payload is None
            &&& problem is Some && problem->0 is Format <==> payload is Some && right < 7
            &&& problem == Some(FetchError::Checksum) <==> payload is Some && right == 7
                && sha256_text(payload->0) != reference.sha256
        }),
        ({
            let stored = envelope_bytes(
                EnvelopeView {
                    object_id: reference.object_id,
                    generation: reference.generation,
                    object_size: stored_size,
                    flags,
                    payload: content,
                },
            );
            sha256_text(stored) == reference.sha256 ==> fetch_problem(reference, Some(stored))
                is None
        }),
{
    if payload is Some {
        law_first_wrong_field_decides(payload->0, reference.object_id, reference.generation);
    }
    law_envelope_round_trip(
        EnvelopeView {
            object_id: reference.object_id,
            generation: reference.generation,
            object_size: stored_size,
            flags,
            payload: content,
        },
    );
}

/// News of updates changes what it is about and nothing else: news of a channel changes how far
/// that channel was read and no other, and the primary and the secondary counters stay.
pub proof fn law_news_changes_what_it_is_about(
    before: ProgressView,
    id: i64,
    pts: i32,
    date: i32,
    seq: i32,
    qts: i32,
    other: ChannelProgress,
)
    ensures
        ({
            let after = progressed(before, ProgressUpdate::Channel { id, pts });
            &&& after.pts == before.pts
            &&& after.qts == before.qts
            &&& after.date == before.date
            &&& after.seq == before.seq
            &&& after.channels.contains(ChannelProgress { id, pts })
            &&& other.id != id ==> (after.channels.contains(other) <==> before.channels.contains(
                other,
            ))
        }),
        progressed(before, ProgressUpdate::Primary { pts, date, seq }) == (ProgressView {
            pts,
            qts: before.qts,
            date,
            seq,
            channels: before.channels,
        }),
        progressed(before, ProgressUpdate::Secondary { qts }) == (ProgressView {
            pts: before.pts,
            qts,
            date: before.date,
            seq: before.seq,
            channels: before.channels,
        }),
{
    let after = progressed(before, ProgressUpdate::Channel { id, pts });
    let rest = channels_without(before.channels, id);
    assert(after.channels[rest.len() as int] == (ChannelProgress { id, pts }));
    if other.id != id {
        lemma_other_channel(before.channels, id, other);
        if rest.contains(other) {
            let k = choose|k: int| 0 <= k < rest.len() && rest[k] == other;
            assert(after.channels[k] == other);
        }
        if after.channels.contains(other) {
            let k = choose|k: int| 0 <= k < after.channels.len() && after.channels[k] == other;
            assert(rest[k] == other);
        }
    }
}

proof fn lemma_other_channel(channels: Seq<ChannelProgress>, id: i64, other: ChannelProgress)
    requires
        other.id != id,
    ensures
        channels_without(channels, id).contains(other) <==> channels.contains(other),
    decreases channels.len(),
{
    reveal(Seq::filter);
    if channels.len() > 0 {
        let head = channels.drop_last();
        let part = channels_without(head, id);
        let all = channels_without(channels, id);
        lemma_other_channel(head, id, other);
        if channels.contains(other) {
            let k = choose|k: int| 0 <= k < channels.len() && channels[k] == other;
            if k < head.len() {
                assert(head[k] == other);
                let m = choose|m: int| 0 <= m < part.len() && part[m] == other;
                assert(all[m] == other);
            } else {
                assert(all[part.len() as int] == other);
            }
        }
        if all.contains(other) {
            let k = choose|k: int| 0 <= k < all.len() && all[k] == other;
            if k < part.len() {
                assert(part[k] == other);
                let m = choose|m: int| 0 <= m < head.len() && head[m] == other;
                assert(channels[m] == other);
            } else {
                assert(channels[channels.len() - 1] == other);
            }
        }
    }
}

} // verus!
