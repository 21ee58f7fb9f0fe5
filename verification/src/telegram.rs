//! How the device uses its channel: the settings of the connection, the names under
//! which objects are uploaded, the checks on what comes back, and what errors mean.
use vstd::prelude::*;
use vstd::string::StringExecFns;

use crate::backend::{clone_opt_text, opt_text_view, RemoteObjectRef, RemoteObjectRefView};
use crate::cache::{file_name, object_file_name};
use crate::config::{ConfigView, TgDriveConfig};
use crate::digest::{sha256_hex, sha256_text};
use crate::envelope::{open_envelope, EnvelopeView, FormatError, ObjectEnvelope};
use crate::manifest::{nth_run, run_count};
use crate::store::opt_bytes_view;
use crate::superblock::superblock_prefix;
use crate::text::{append_decimal, contains, decimal, ends_with, has_part, starts_with, text_equal};

verus! {

/// How many messages one request may name.
pub const MESSAGE_BATCH: usize = 100;

/// How many messages are searched for a superblock.
pub const SCAN_LIMIT: usize = 200;

/// How many uploads may run at once.
pub const UPLOAD_LIMIT: usize = 4;

/// How many downloads may run at once.
pub const DOWNLOAD_LIMIT: usize = 8;

/// What an error asks for.
#[derive(Debug, Clone, Copy, PartialEq, Eq, Structural)]
pub enum TelegramErrorKind {
    Retryable,
    RateLimited,
    Authentication,
    Corruption,
    NotFound,
    Permanent,
}

/// Why a call to the service failed.
#[derive(Debug, PartialEq, Eq)]
pub enum InvocationFailure {
    /// The service answered with an error.
    Rpc { code: i32, name: String },
    Io,
    Dropped,
    Transport,
    Authentication,
    InvalidDc,
    Deserialize,
    /// The session could not be read or written.
    Session,
}

/// One link in the chain of causes of an error.
#[derive(Debug, PartialEq, Eq)]
pub enum ErrorCause {
    Invocation { failure: InvocationFailure },
    /// Bytes that are not the stored form of an object.
    Format,
    Other,
}

/// The name of a service error matches a pattern: a star at its end stands for any
/// rest, a star at its start for any beginning.
pub open spec fn name_matches(name: Seq<char>, pattern: Seq<char>) -> bool {
    if pattern.len() > 0 && pattern.last() == '*' {
        pattern.drop_last().is_prefix_of(name)
    } else if pattern.len() > 0 && pattern[0] == '*' {
        pattern.skip(1).is_suffix_of(name)
    } else {
        name == pattern
    }
}

/// The name of a service error says that the login is not valid.
pub open spec fn is_login_error(name: Seq<char>) -> bool {
    ||| name_matches(name, "AUTH_KEY_*"@)
    ||| name_matches(name, "SESSION_*"@)
    ||| name_matches(name, "USER_DEACTIVATED*"@)
    ||| name_matches(name, "PHONE_*"@)
}

/// What a failed call asks for.
pub open spec fn invocation_kind(failure: InvocationFailure) -> TelegramErrorKind {
    match failure {
        InvocationFailure::Rpc { code, name } => if code == 420 {
            TelegramErrorKind::RateLimited
        } else if is_login_error(name@) {
            TelegramErrorKind::Authentication
        } else if code >= 500 {
            TelegramErrorKind::Retryable
        } else {
            TelegramErrorKind::Permanent
        },
        InvocationFailure::Io => TelegramErrorKind::Retryable,
        InvocationFailure::Dropped => TelegramErrorKind::Retryable,
        InvocationFailure::Transport => TelegramErrorKind::Retryable,
        InvocationFailure::Authentication => TelegramErrorKind::Authentication,
        InvocationFailure::InvalidDc => TelegramErrorKind::Authentication,
        InvocationFailure::Deserialize => TelegramErrorKind::Corruption,
        InvocationFailure::Session => TelegramErrorKind::Permanent,
    }
}

/// What the outermost cause with a known meaning asks for.
pub open spec fn cause_kind(causes: Seq<ErrorCause>) -> Option<TelegramErrorKind>
    decreases causes.len(),
{
    if causes.len() == 0 {
        None
    } else {
        match causes[0] {
            ErrorCause::Invocation { failure } => Some(invocation_kind(failure)),
            ErrorCause::Format => Some(TelegramErrorKind::Corruption),
            ErrorCause::Other => cause_kind(causes.skip(1)),
        }
    }
}

/// What the text of an error without a known cause asks for.
pub open spec fn text_kind(text: Seq<char>) -> TelegramErrorKind {
    if has_part(text, "checksum"@) || has_part(text, "wrong object"@) || has_part(
        text,
        "wrong generation"@,
    ) || has_part(text, "has no media"@) {
        TelegramErrorKind::Corruption
    } else if has_part(text, "not found"@) {
        TelegramErrorKind::NotFound
    } else {
        TelegramErrorKind::Permanent
    }
}

/// Tells whether the name of a service error matches a pattern.
pub fn rpc_name_is(name: &str, pattern: &str) -> (found: bool)
    ensures
        found == name_matches(name@, pattern@),
{
    proof {
        reveal_strlit("*");
    }
    if let Some(start) = crate::text::strip_suffix(pattern, "*") {
        proof {
            assert(pattern@.last() == "*"@[0]);
            assert(pattern@.drop_last() =~= start@);
        }
        return starts_with(name, start.as_str());
    }
    assert(pattern@.len() > 0 ==> pattern@.last() != '*') by {
        if pattern@.len() > 0 && pattern@.last() == '*' {
            assert(pattern@.skip(pattern@.len() - 1) =~= "*"@);
            assert("*"@.is_suffix_of(pattern@));
        }
    }
    if let Some(end) = crate::text::strip_prefix(pattern, "*") {
        proof {
            assert(pattern@[0] == "*"@[0]);
            assert(pattern@.skip(1) =~= end@);
        }
        return ends_with(name, end.as_str());
    }
    assert(pattern@.len() > 0 ==> pattern@[0] != '*') by {
        if pattern@.len() > 0 && pattern@[0] == '*' {
            assert(pattern@.take(1) =~= "*"@);
            assert("*"@.is_prefix_of(pattern@));
        }
    }
    text_equal(name, pattern)
}

/// Classifies a failed call.
pub fn classify_invocation_error(failure: &InvocationFailure) -> (kind: TelegramErrorKind)
    ensures
        kind == invocation_kind(*failure),
{
    match failure {
        InvocationFailure::Rpc { code, name } => {
            if *code == 420 {
                return TelegramErrorKind::RateLimited;
            }
            if rpc_name_is(name.as_str(), "AUTH_KEY_*") || rpc_name_is(name.as_str(), "SESSION_*")
                || rpc_name_is(name.as_str(), "USER_DEACTIVATED*") || rpc_name_is(
                name.as_str(),
                "PHONE_*",
            ) {
                return TelegramErrorKind::Authentication;
            }
            if *code >= 500 {
                TelegramErrorKind::Retryable
            } else {
                TelegramErrorKind::Permanent
            }
        },
        InvocationFailure::Io => TelegramErrorKind::Retryable,
        InvocationFailure::Dropped => TelegramErrorKind::Retryable,
        InvocationFailure::Transport => TelegramErrorKind::Retryable,
        InvocationFailure::Authentication => TelegramErrorKind::Authentication,
        InvocationFailure::InvalidDc => TelegramErrorKind::Authentication,
        InvocationFailure::Deserialize => TelegramErrorKind::Corruption,
        InvocationFailure::Session => TelegramErrorKind::Permanent,
    }
}

/// Tells whether a failed call says that no message is pinned.
pub fn says_none_pinned(failure: &InvocationFailure) -> (none_pinned: bool)
    ensures
        none_pinned == match *failure {
            InvocationFailure::Rpc { name, .. } => name_matches(name@, "MESSAGE_IDS_EMPTY"@),
            _ => false,
        },
{
    match failure {
        InvocationFailure::Rpc { code: _, name } => rpc_name_is(name.as_str(), "MESSAGE_IDS_EMPTY"),
        _ => false,
    }
}

/// Classifies an error by its causes, the outermost first, and by its text where no
/// cause has a known meaning.
pub fn classify_error(causes: &Vec<ErrorCause>, text: &str) -> (kind: TelegramErrorKind)
    ensures
        kind == match cause_kind(causes@) {
            Some(known) => known,
            None => text_kind(text@),
        },
{
    let mut i: usize = 0;
    assert(causes@.skip(0) =~= causes@);
    while i < causes.len()
        invariant
            i <= causes@.len(),
            cause_kind(causes@.skip(i as int)) == cause_kind(causes@),
        decreases causes@.len() - i,
    {
        assert(causes@.skip(i as int)[0] == causes@[i as int]);
        assert(causes@.skip(i as int).skip(1) =~= causes@.skip(i + 1));
        match &causes[i] {
            ErrorCause::Invocation { failure } => {
                return classify_invocation_error(failure);
            },
            ErrorCause::Format => {
                return TelegramErrorKind::Corruption;
            },
            ErrorCause::Other => {},
        }
        i += 1;
    }
    if contains(text, "checksum") || contains(text, "wrong object") || contains(
        text,
        "wrong generation",
    ) || contains(text, "has no media") {
        TelegramErrorKind::Corruption
    } else if contains(text, "not found") {
        TelegramErrorKind::NotFound
    } else {
        TelegramErrorKind::Permanent
    }
}

/// Settings of the connection to the channel.
#[derive(Debug, PartialEq, Eq)]
pub struct TelegramClientConfig {
    pub api_id: i32,
    pub api_hash: String,
    pub session_path: String,
    pub channel_id: i64,
    pub channel_access_hash: Option<i64>,
    pub channel_title: Option<String>,
}

impl Clone for TelegramClientConfig {
    fn clone(&self) -> (copy: Self)
        ensures
            copy == *self,
    {
        TelegramClientConfig {
            api_id: self.api_id,
            api_hash: self.api_hash.clone(),
            session_path: self.session_path.clone(),
            channel_id: self.channel_id,
            channel_access_hash: self.channel_access_hash,
            channel_title: clone_opt_text(&self.channel_title),
        }
    }
}

/// A setting that the connection needs and that is absent.
#[derive(Debug, Clone, Copy, PartialEq, Eq, Structural)]
pub enum MissingSetting {
    ApiId,
    ApiHash,
    ChannelId,
}

/// The first setting that the connection needs and that is absent.
pub open spec fn missing_setting(config: ConfigView) -> Option<MissingSetting> {
    if config.telegram_api_id is None {
        Some(MissingSetting::ApiId)
    } else if config.telegram_api_hash is None {
        Some(MissingSetting::ApiHash)
    } else if config.telegram_channel_id is None {
        Some(MissingSetting::ChannelId)
    } else {
        None
    }
}

/// The connection's part of the settings.
pub fn telegram_config(config: &TgDriveConfig) -> (result: Result<
    TelegramClientConfig,
    MissingSetting,
>)
    ensures
        match result {
            Ok(client) => {
                &&& missing_setting(config@) is None
                &&& Some(client.api_id) == config@.telegram_api_id
                &&& Some(client.api_hash@) == config@.telegram_api_hash
                &&& client.session_path@ == config@.telegram_session_path
                &&& Some(client.channel_id) == config@.telegram_channel_id
                &&& client.channel_access_hash == config@.telegram_channel_access_hash
                &&& opt_text_view(client.channel_title) == config@.telegram_channel_title
            },
            Err(missing) => missing_setting(config@) == Some(missing),
        },
{
    let api_id = match config.telegram_api_id {
        Some(id) => id,
        None => return Err(MissingSetting::ApiId),
    };
    let api_hash = match &config.telegram_api_hash {
        Some(hash) => hash.clone(),
        None => return Err(MissingSetting::ApiHash),
    };
    let channel_id = match config.telegram_channel_id {
        Some(id) => id,
        None => return Err(MissingSetting::ChannelId),
    };
    Ok(
        TelegramClientConfig {
            api_id,
            api_hash,
            session_path: config.telegram_session_path.clone(),
            channel_id,
            channel_access_hash: config.telegram_channel_access_hash,
            channel_title: clone_opt_text(&config.telegram_channel_title),
        },
    )
}

/// The number is a dialog of the service: a user, a group, a channel, or a channel's
/// direct messages.
pub open spec fn is_dialog_id(id: int) -> bool {
    ||| 1 <= id <= 0xff_ffff_ffff
    ||| -999_999_999_999 <= id <= -1
    ||| -1_997_852_516_352 <= id <= -1_000_000_000_001
    ||| -4_000_000_000_000 <= id <= -2_002_147_483_649
}

/// The number of a dialog without the mark of its kind.
pub open spec fn bare_dialog_id(id: int) -> int {
    if id > 0 {
        id
    } else if id >= -999_999_999_999 {
        -id
    } else {
        -id - 1_000_000_000_000
    }
}

/// Calls `grammers_session::types::PeerId::from_bot_api_dialog_id`. Claimed of it: it
/// accepts exactly the numbers in the four ranges that dialogs have.
#[verifier::external_body]
fn dialog_exists(id: i64) -> (known: bool)
    ensures
        known == is_dialog_id(id as int),
{
    grammers_session::types::PeerId::from_bot_api_dialog_id(id).is_some()
}

/// Calls `grammers_session::types::PeerId::bare_id`. Claimed of it: a user's number
/// stays as it is, a group's loses its sign, and a channel's loses its sign and the
/// leading digits that mark channels.
#[verifier::external_body]
fn dialog_bare_id(id: i64) -> (bare: i64)
    requires
        is_dialog_id(id as int),
    ensures
        bare == bare_dialog_id(id as int),
{
    grammers_session::types::PeerId::from_bot_api_dialog_id(id).unwrap().bare_id().unwrap()
}

/// A channel, as the service names it.
#[derive(Debug, PartialEq, Eq)]
pub struct ResolvedChannel {
    pub bot_api_chat_id: i64,
    pub bare_channel_id: i64,
    pub access_hash: i64,
    pub title: Option<String>,
}

/// The channel does not have the number of a dialog.
#[derive(Debug, Clone, Copy, PartialEq, Eq, Structural)]
pub struct InvalidChannel {
    pub channel_id: i64,
}

/// How the channel is found.
#[derive(Debug, PartialEq, Eq)]
pub enum PeerPlan {
    /// By its number and access hash.
    Known { dialog_id: i64, access_hash: i64 },
    /// By its title among the dialogs, and by its number alone if none has the title.
    Search { title: String },
    /// By its number alone.
    Ambient { dialog_id: i64 },
}

impl TelegramClientConfig {
    /// Decides how the channel is found.
    pub fn plan_peer(&self) -> (result: Result<PeerPlan, InvalidChannel>)
        ensures
            match result {
                Ok(plan) => match (self.channel_access_hash, self.channel_title) {
                    (Some(access_hash), _) => is_dialog_id(self.channel_id as int) && plan == (
                    PeerPlan::Known { dialog_id: self.channel_id, access_hash }),
                    (None, Some(title)) => plan matches PeerPlan::Search { title: t } && t@
                        == title@,
                    (None, None) => is_dialog_id(self.channel_id as int) && plan == (
                    PeerPlan::Ambient { dialog_id: self.channel_id }),
                },
                Err(error) => {
                    &&& error.channel_id == self.channel_id
                    &&& !is_dialog_id(self.channel_id as int)
                    &&& self.channel_access_hash is Some || self.channel_title is None
                },
            },
    {
        if let Some(access_hash) = self.channel_access_hash {
            if !dialog_exists(self.channel_id) {
                return Err(InvalidChannel { channel_id: self.channel_id });
            }
            return Ok(PeerPlan::Known { dialog_id: self.channel_id, access_hash });
        }
        if let Some(title) = &self.channel_title {
            return Ok(PeerPlan::Search { title: title.clone() });
        }
        self.plan_peer_by_number()
    }

    /// Decides how the channel is found when no dialog has its title.
    pub fn plan_peer_by_number(&self) -> (result: Result<PeerPlan, InvalidChannel>)
        ensures
            result == if is_dialog_id(self.channel_id as int) {
                Ok::<PeerPlan, InvalidChannel>(PeerPlan::Ambient { dialog_id: self.channel_id })
            } else {
                Err(InvalidChannel { channel_id: self.channel_id })
            },
    {
        if dialog_exists(self.channel_id) {
            Ok(PeerPlan::Ambient { dialog_id: self.channel_id })
        } else {
            Err(InvalidChannel { channel_id: self.channel_id })
        }
    }

    /// What is known of the channel once it is found.
    pub fn resolved_channel(&self, dialog_id: i64, access_hash: i64) -> (result: Result<
        ResolvedChannel,
        InvalidChannel,
    >)
        ensures
            match result {
                Ok(channel) => {
                    &&& is_dialog_id(dialog_id as int)
                    &&& channel.bot_api_chat_id == dialog_id
                    &&& channel.bare_channel_id == bare_dialog_id(dialog_id as int)
                    &&& channel.access_hash == access_hash
                    &&& channel.title == self.channel_title
                },
                Err(error) => !is_dialog_id(dialog_id as int) && error.channel_id == dialog_id,
            },
    {
        if !dialog_exists(dialog_id) {
            return Err(InvalidChannel { channel_id: dialog_id });
        }
        Ok(
            ResolvedChannel {
                bot_api_chat_id: dialog_id,
                bare_channel_id: dialog_bare_id(dialog_id),
                access_hash,
                title: clone_opt_text(&self.channel_title),
            },
        )
    }
}

/// Tells whether a dialog has the title that is searched for.
pub fn has_title(name: &Option<String>, title: &str) -> (found: bool)
    ensures
        found == (opt_text_view(*name) == Some(title@)),
{
    match name {
        Some(text) => text_equal(text.as_str(), title),
        None => false,
    }
}

/// Message numbers in batches of at most one request's size.
pub fn batches(ids: &[i32]) -> (parts: Vec<Vec<i32>>)
    ensures
        parts@.len() == run_count(ids@.len(), 100),
        forall|i: int|
            0 <= i < parts@.len() ==> (#[trigger] parts@[i])@ == nth_run(ids@, 100, i),
{
    let ghost span = MESSAGE_BATCH as nat;
    let len = ids.len();
    let mut parts: Vec<Vec<i32>> = Vec::new();
    let mut start: usize = 0;
    while start < len
        invariant
            len == ids@.len(),
            span == MESSAGE_BATCH,
            start <= len,
            start < len ==> start == parts@.len() * span,
            start == len ==> parts@.len() * span >= len,
            parts@.len() == 0 || (parts@.len() - 1) * span < len,
            forall|i: int|
                0 <= i < parts@.len() ==> (#[trigger] parts@[i])@ == nth_run(ids@, span, i),
        decreases len - start,
    {
        let ghost i = parts@.len();
        let end: usize = if MESSAGE_BATCH < len - start {
            start + MESSAGE_BATCH
        } else {
            len
        };
        let part = vstd::slice::slice_to_vec(vstd::slice::slice_subrange(ids, start, end));
        assert(part@ =~= nth_run(ids@, span, i as int));
        parts.push(part);
        start = end;
    }
    proof {
        crate::manifest::lemma_run_count(len as nat, span, parts@.len());
    }
    parts
}

/// The batches, one behind the other, are the message numbers in their order.
pub proof fn law_batches_cover_all(ids: Seq<i32>, at: int)
    requires
        0 <= at < ids.len(),
    ensures
        ({
            let span: nat = 100;
            let i = at / (span as int);
            &&& 0 <= i < run_count(ids.len(), span)
            &&& 0 <= at % (span as int) < nth_run(ids, span, i).len()
            &&& nth_run(ids, span, i)[at % (span as int)] == ids[at]
            &&& nth_run(ids, span, i).len() <= span
        }),
{
    let n = run_count(ids.len(), 100);
    assert(n == (ids.len() + 99) / 100);
}

/// What a search of messages has found so far: the superblock text with the newest
/// generation, the first of those.
#[derive(Debug, PartialEq, Eq)]
pub struct SuperblockScan {
    pub best: Option<FoundText>,
}

/// A superblock text and the generation that it leads to.
#[derive(Debug, PartialEq, Eq)]
pub struct FoundText {
    pub generation: u64,
    pub text: String,
}

/// The value of a [`FoundText`].
#[verifier::ext_equal]
pub struct FoundView {
    pub generation: u64,
    pub text: Seq<char>,
}

/// A message that was searched: its text, and the generation if it is a superblock.
pub struct Sighting {
    pub text: Seq<char>,
    pub generation: Option<u64>,
}

/// The best of the messages searched so far.
pub open spec fn best_sighting(seen: Seq<Sighting>) -> Option<FoundView>
    decreases seen.len(),
{
    if seen.len() == 0 {
        None
    } else {
        let best = best_sighting(seen.drop_last());
        match seen.last().generation {
            None => best,
            Some(generation) => if best is None || generation > best->0.generation {
                Some(FoundView { generation, text: seen.last().text })
            } else {
                best
            },
        }
    }
}

impl View for SuperblockScan {
    type V = Option<FoundView>;

    open spec fn view(&self) -> Option<FoundView> {
        match self.best {
            Some(found) => Some(
                FoundView { generation: found.generation, text: found.text@ },
            ),
            None => None,
        }
    }
}

/// The `k`-th message seen holds what was found; every superblock seen before it is older, and
/// none seen after it is newer.
pub open spec fn is_first_newest(seen: Seq<Sighting>, k: int, found: FoundView) -> bool {
    &&& seen[k].generation == Some(found.generation)
    &&& seen[k].text == found.text
    &&& forall|j: int|
        0 <= j < k ==> ((#[trigger] seen[j]).generation matches Some(g) ==> g < found.generation)
    &&& forall|j: int|
        k < j < seen.len() ==> ((#[trigger] seen[j]).generation matches Some(g)
            ==> g <= found.generation)
}

impl SuperblockScan {
    /// A search that has not begun.
    pub fn new() -> (scan: Self)
        ensures
            scan@ == best_sighting(Seq::empty()),
    {
        SuperblockScan { best: None }
    }

    /// Takes note of a message; `generation` is that of the superblock in its text, if it
    /// holds one.
    pub fn offer(&mut self, text: &str, generation: Option<u64>)
        ensures
            final(self)@ == match generation {
                None => old(self)@,
                Some(g) => if old(self)@ is None || g > old(self)@->0.generation {
                    Some(FoundView { generation: g, text: text@ })
                } else {
                    old(self)@
                },
            },
            forall|seen: Seq<Sighting>|
                #![trigger best_sighting(seen)]
                old(self)@ == best_sighting(seen) ==> final(self)@ == best_sighting(
                    seen.push(Sighting { text: text@, generation }),
                ),
    {
        let ghost before = self@;
        if let Some(g) = generation {
            let newer = match &self.best {
                Some(best) => g > best.generation,
                None => true,
            };
            if newer {
                self.best = Some(FoundText { generation: g, text: text.to_owned() });
            }
        }
        assert forall|seen: Seq<Sighting>|
            #![trigger best_sighting(seen)]
            before == best_sighting(seen) implies self@ == best_sighting(
            seen.push(Sighting { text: text@, generation }),
        ) by {
            let longer = seen.push(Sighting { text: text@, generation });
            assert(longer.drop_last() =~= seen);
        }
    }

    /// The text that the search found; if none, the pinned text, if that is a
    /// superblock.
    pub fn finish(self, pinned: Option<String>, pinned_is_superblock: bool) -> (text: Option<
        String,
    >)
        ensures
            opt_text_view(text) == match self@ {
                Some(found) => Some(found.text),
                None => if pinned_is_superblock {
                    opt_text_view(pinned)
                } else {
                    None
                },
            },
    {
        match self.best {
            Some(found) => Some(found.text),
            None => if pinned_is_superblock {
                pinned
            } else {
                None
            },
        }
    }
}

/// The search finds the superblock of the newest generation, wherever one was seen; of those
/// of that generation it finds the one seen first, which is the last to have been sent where
/// messages are gone through from the newest on.
pub proof fn law_scan_finds_the_newest(seen: Seq<Sighting>)
    ensures
        match best_sighting(seen) {
            Some(found) => exists|k: int|
                0 <= k < seen.len() && #[trigger] is_first_newest(seen, k, found),
            None => forall|k: int| 0 <= k < seen.len() ==> (#[trigger] seen[k]).generation is None,
        },
    decreases seen.len(),
{
    if seen.len() > 0 {
        let head = seen.drop_last();
        law_scan_finds_the_newest(head);
        assert forall|k: int| 0 <= k < head.len() implies #[trigger] seen[k] == head[k] by {}
        let last = seen.len() - 1;
        assert(seen[last] == seen.last());
        if best_sighting(head) is Some {
            let found = best_sighting(head)->0;
            let k = choose|k: int|
                0 <= k < head.len() && #[trigger] is_first_newest(head, k, found);
            if best_sighting(seen) == best_sighting(head) {
                assert(is_first_newest(seen, k, found));
            } else {
                assert(is_first_newest(seen, last, best_sighting(seen)->0));
            }
        } else if best_sighting(seen) is Some {
            assert(is_first_newest(seen, last, best_sighting(seen)->0));
        }
    }
}

/// How a new superblock is published.
#[derive(Debug, Clone, Copy, PartialEq, Eq, Structural)]
pub enum PublishPlan {
    /// The pinned message is a superblock and stays; the new text is sent beside it.
    Keep { message_id: i32 },
    /// The new text is sent and pinned, and sent again beside it.
    Pin,
}

/// The pinned message: its number and its text.
#[derive(Debug, PartialEq, Eq)]
pub struct PinnedMessage {
    pub message_id: i32,
    pub text: String,
}

/// Decides how a new superblock is published.
pub fn plan_publish(pinned: &Option<PinnedMessage>) -> (plan: PublishPlan)
    ensures
        plan == match *pinned {
            Some(message) => if superblock_prefix().is_prefix_of(message.text@) {
                PublishPlan::Keep { message_id: message.message_id }
            } else {
                PublishPlan::Pin
            },
            None => PublishPlan::Pin,
        },
{
    match pinned {
        Some(message) => if starts_with(message.text.as_str(), "TGDRIVE_SUPERBLOCK_V1\n") {
            PublishPlan::Keep { message_id: message.message_id }
        } else {
            PublishPlan::Pin
        },
        None => PublishPlan::Pin,
    }
}

/// The name and the caption under which an object is uploaded.
#[derive(Debug, PartialEq, Eq)]
pub struct Upload {
    pub name: String,
    pub caption: String,
}

/// The file name of an uploaded object.
pub open spec fn upload_name(object_id: u64, generation: u64) -> Seq<char> {
    "tgdrive-"@ + object_file_name(object_id, generation)
}

/// The caption of an uploaded object.
pub open spec fn upload_caption(object_id: u64, generation: u64, sha256: Seq<char>) -> Seq<char> {
    "TGDRIVE object="@ + decimal(object_id as nat) + " generation="@ + decimal(generation as nat)
        + " sha256="@ + sha256
}

/// Checks that a payload is the stored form of an object, and names its upload.
pub fn prepare_upload(object_id: u64, generation: u64, payload: &[u8], sha256: &str) -> (result:
    Result<Upload, FormatError>)
    ensures
        match result {
            Ok(upload) => {
                &&& open_envelope(payload@, object_id, generation) is Ok
                &&& upload.name@ == upload_name(object_id, generation)
                &&& upload.caption@ == upload_caption(object_id, generation, sha256@)
            },
            Err(error) => open_envelope(payload@, object_id, generation) == Err::<
                EnvelopeView,
                FormatError,
            >(error),
        },
{
    if let Err(error) = ObjectEnvelope::decode(payload, object_id, generation) {
        return Err(error);
    }
    let mut name = "tgdrive-".to_owned();
    let file = file_name(object_id, generation);
    name.append(file.as_str());
    let mut caption = "TGDRIVE object=".to_owned();
    append_decimal(&mut caption, object_id);
    caption.append(" generation=");
    append_decimal(&mut caption, generation);
    caption.append(" sha256=");
    caption.append(sha256);
    Ok(Upload { name, caption })
}

/// Why a fetched object is not the one that a reference names.
#[derive(Debug, Clone, Copy, PartialEq, Eq, Structural)]
pub enum FetchError {
    NotFound { message_id: i32 },
    Format(FormatError),
    Checksum,
}

/// What is wrong with the payload that a reference led to; the first check that fails
/// decides.
pub open spec fn fetch_problem(reference: RemoteObjectRefView, payload: Option<Seq<u8>>) -> Option<
    FetchError,
> {
    match payload {
        None => Some(FetchError::NotFound { message_id: reference.message_id }),
        Some(bytes) => match open_envelope(bytes, reference.object_id, reference.generation) {
            Err(error) => Some(FetchError::Format(error)),
            Ok(_) => if sha256_text(bytes) != reference.sha256 {
                Some(FetchError::Checksum)
            } else {
                None
            },
        },
    }
}

/// Checks the payload that a reference led to.
pub fn check_fetched(reference: &RemoteObjectRef, payload: Option<Vec<u8>>) -> (result: Result<
    Vec<u8>,
    FetchError,
>)
    ensures
        match result {
            Ok(bytes) => fetch_problem(reference@, opt_bytes_view(payload)) is None && Some(bytes@)
                == opt_bytes_view(payload),
            Err(error) => fetch_problem(reference@, opt_bytes_view(payload)) == Some(error),
        },
{
    let bytes = match payload {
        None => {
            return Err(FetchError::NotFound { message_id: reference.message_id });
        },
        Some(bytes) => bytes,
    };
    if let Err(error) = ObjectEnvelope::decode(
        bytes.as_slice(),
        reference.object_id,
        reference.generation,
    ) {
        return Err(FetchError::Format(error));
    }
    let sha = sha256_hex(bytes.as_slice());
    if !text_equal(sha.as_str(), reference.sha256.as_str()) {
        return Err(FetchError::Checksum);
    }
    Ok(bytes)
}

} // verus!
