//! The session and the settings kept between two launches, and what is
//! decided when they are read back: tokens never stay in the files, they go
//! to the system keyring, and a file written before that rule is migrated once.

use crate::error::AppError;
use vstd::prelude::*;

verus! {

/// Personal Modrinth token pasted by the user, checked, then kept. It never
/// goes back to the interface: the commands only hand out a user name.
#[derive(Debug, Clone, PartialEq, Eq)]
pub struct Session {
    pub token: String,
    pub user_id: String,
    pub username: String,
    pub obtained_at: String,
}

#[derive(Debug, Clone, PartialEq, Eq)]
pub struct Settings {
    pub curseforge_username: Option<String>,
    pub range_days: i64,
    /// Display currency, as a three-letter ISO code.
    pub currency: String,
    /// Minutes between two automatic refreshes; see `clamp_auto_sync`.
    pub auto_sync_minutes: i64,
    /// CurseForge upload token; it lives in the keyring, not in the file.
    pub curseforge_upload_token: Option<String>,
    /// Look for a new version at start-up.
    pub auto_update: bool,
}

pub const DEFAULT_RANGE_DAYS: i64 = 30;
pub const DEFAULT_AUTO_SYNC_MINUTES: i64 = 10;
pub const MIN_AUTO_SYNC_MINUTES: i64 = 10;
pub const MAX_AUTO_SYNC_MINUTES: i64 = 1440;

/// The settings of a fresh install, and of every field that an older file
/// does not carry.
pub open spec fn default_settings(s: Settings) -> bool {
    &&& s.curseforge_username is None
    &&& s.range_days == DEFAULT_RANGE_DAYS
    &&& s.currency@ == "USD"@
    &&& s.auto_sync_minutes == DEFAULT_AUTO_SYNC_MINUTES
    &&& s.curseforge_upload_token is None
    &&& s.auto_update
}

impl Default for Settings {
    fn default() -> (r: Self)
        ensures
            default_settings(r),
    {
        let currency = "USD".to_string();
        proof {
            reveal_strlit("USD");
        }
        Settings {
            curseforge_username: None,
            range_days: DEFAULT_RANGE_DAYS,
            currency,
            auto_sync_minutes: DEFAULT_AUTO_SYNC_MINUTES,
            curseforge_upload_token: None,
            auto_update: true,
        }
    }
}

pub open spec fn clamped(v: int, low: int, high: int) -> int {
    if v < low {
        low
    } else if v > high {
        high
    } else {
        v
    }
}

/// Cadence of the automatic refreshes. The floor of ten minutes is there for
/// CurseForge, whose figures are only read through a browser session that a
/// faster clock would make conspicuous; the ceiling of one day keeps an extreme
/// setting from freezing the data.
pub fn clamp_auto_sync(minutes: i64) -> (r: i64)
    ensures
        r == clamped(minutes as int, MIN_AUTO_SYNC_MINUTES as int, MAX_AUTO_SYNC_MINUTES as int),
        MIN_AUTO_SYNC_MINUTES <= r <= MAX_AUTO_SYNC_MINUTES,
{
    if minutes < MIN_AUTO_SYNC_MINUTES {
        MIN_AUTO_SYNC_MINUTES
    } else if minutes > MAX_AUTO_SYNC_MINUTES {
        MAX_AUTO_SYNC_MINUTES
    } else {
        minutes
    }
}

pub open spec fn missing_session_message() -> Seq<char> {
    "aucune session Modrinth, connecte-toi d'abord"@
}

/// The session that the calls to Modrinth need, or the error that says what
/// is missing.
pub fn require_token(session: Option<Session>) -> (r: Result<Session, AppError>)
    ensures
        match session {
            Some(s) => r == Ok::<Session, AppError>(s),
            None => r matches Err(AppError::Config(m)) && m@ == missing_session_message(),
        },
{
    match session {
        Some(s) => Ok(s),
        None => {
            let m = "aucune session Modrinth, connecte-toi d'abord".to_string();
            Err(AppError::Config(m))
        },
    }
}

/// A session file that still holds its token in the clear: it comes from a
/// version older than the keyring, and the token is to be moved there.
pub fn needs_migration(file: &Session) -> (r: bool)
    ensures
        r == (file.token@.len() > 0),
{
    !file.token.as_str().is_empty()
}

/// The session as read back: the one of the file, its token taken from the
/// file when it still holds one, else from what the keyring answered.
/// Without a file, or without a token anywhere, there is no session: better
/// ask for the token again than open the application on calls that will all fail.
pub open spec fn session_after_load(file: Option<Session>, kept: Result<Option<String>, AppError>) -> Option<Session> {
    match file {
        None => None,
        Some(s) => if s.token@.len() > 0 {
            Some(s)
        } else {
            match kept {
                Ok(Some(t)) => Some(Session { token: t, ..s }),
                _ => None,
            }
        },
    }
}

pub fn load_session(file: Option<Session>, kept: Result<Option<String>, AppError>) -> (r: Option<Session>)
    ensures
        r == session_after_load(file, kept),
{
    match file {
        None => None,
        Some(s) => {
            if !s.token.as_str().is_empty() {
                Some(s)
            } else {
                match kept {
                    Ok(Some(t)) => Some(Session { token: t, ..s }),
                    _ => None,
                }
            }
        },
    }
}

/// A settings file that still holds the upload token in the clear.
pub fn settings_need_migration(file: &Settings) -> (r: bool)
    ensures
        r == (file.curseforge_upload_token matches Some(t) && t@.len() > 0),
{
    match &file.curseforge_upload_token {
        Some(t) => !t.as_str().is_empty(),
        None => false,
    }
}

/// The settings as read back: those of the file, or the defaults without one;
/// the upload token is the one still in the file, else the keyring's.
pub open spec fn settings_after_load(base: Settings, kept: Result<Option<String>, AppError>) -> Settings {
    match base.curseforge_upload_token {
        Some(t) if t@.len() > 0 => base,
        _ => Settings {
            curseforge_upload_token: match kept {
                Ok(Some(t)) => Some(t),
                _ => None,
            },
            ..base
        },
    }
}

pub fn load_settings(file: Option<Settings>, kept: Result<Option<String>, AppError>) -> (r: Settings)
    ensures
        match file {
            Some(f) => r == settings_after_load(f, kept),
            None => exists|d: Settings| default_settings(d) && r == settings_after_load(d, kept),
        },
{
    let mut settings = match file {
        Some(f) => f,
        None => Settings::default(),
    };
    let ghost base = settings;
    let keep = match &settings.curseforge_upload_token {
        Some(t) => !t.as_str().is_empty(),
        None => false,
    };
    if !keep {
        settings.curseforge_upload_token = match kept {
            Ok(Some(t)) => Some(t),
            _ => None,
        };
    }
    proof {
        if file is None {
            assert(default_settings(base));
        }
    }
    settings
}

/// The upload token to hand to the keyring when the settings are saved: one
/// that is present and not empty. Settings saved without one leave the
/// keyring's in place; only a logout clears it.
pub fn upload_token_to_store(settings: &Settings) -> (r: Option<String>)
    ensures
        match settings.curseforge_upload_token {
            Some(t) if t@.len() > 0 => r matches Some(x) && x@ == t@,
            _ => r is None,
        },
{
    match &settings.curseforge_upload_token {
        Some(t) => if !t.as_str().is_empty() {
            Some(t.clone())
        } else {
            None
        },
        None => None,
    }
}

/// What the settings file holds: every setting but the upload token, which
/// goes to the keyring instead.
pub open spec fn settings_file_of(s: Settings) -> Settings {
    Settings { curseforge_upload_token: None, ..s }
}

/// The settings as written to disk when they are saved.
pub fn settings_file(settings: Settings) -> (r: Settings)
    ensures
        r == settings_file_of(settings),
{
    Settings { curseforge_upload_token: None, ..settings }
}

/// What a save writes, a load gives back. The file keeps every setting but
/// the upload token; a token that was there to store went to the keyring, and
/// reading the file back with the keyring's answer gives the settings saved.
/// Saved without a token, the settings read back carry whatever the keyring
/// still held.
pub proof fn saving_then_loading_gives_the_settings_back(s: Settings, kept: Result<Option<String>, AppError>)
    ensures
        settings_file_of(s).curseforge_upload_token is None,
        (s.curseforge_upload_token matches Some(t) && t@.len() > 0) ==> settings_after_load(
            settings_file_of(s),
            Ok(s.curseforge_upload_token),
        ) == s,
        !(s.curseforge_upload_token matches Some(t) && t@.len() > 0) ==> settings_after_load(
            settings_file_of(s),
            kept,
        ) == (Settings {
            curseforge_upload_token: match kept {
                Ok(Some(t)) => Some(t),
                _ => None,
            },
            ..s
        }),
{
}

} // verus!
