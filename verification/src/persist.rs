//! Where the store is kept on disk, and what to do about its lock.

use vstd::prelude::*;
use vstd::string::StringExecFns;

verus! {

/// How long a caller waits for the lock before it gives up, in milliseconds.
pub const LOCK_TIMEOUT_MILLIS: u64 = 5000;

/// The age, in seconds, beyond which a lock without a live owner is stale.
pub const STALE_LOCK_SECS: u64 = 60;

/// The directory of the store: the directory named for the store itself where
/// there is one; else `skatos` under the user's configuration directory; else
/// `.skatos` under the user's home; none where all three are missing.
pub open spec fn store_dir_of(
    store_home: Option<Seq<char>>,
    config_home: Option<Seq<char>>,
    home: Option<Seq<char>>,
) -> Option<Seq<char>> {
    match store_home {
        Some(d) => Some(d),
        None => match config_home {
            Some(c) => Some(c + "/skatos"@),
            None => match home {
                Some(h) => Some(h + "/.skatos"@),
                None => None,
            },
        },
    }
}

/// The text of an optional string.
pub open spec fn text_of(s: Option<&str>) -> Option<Seq<char>> {
    match s {
        Some(t) => Some(t@),
        None => None,
    }
}

/// Resolves the directory of the store from the three places that may name
/// it, in their order of precedence.
pub fn store_dir(store_home: Option<&str>, config_home: Option<&str>, home: Option<&str>) -> (r:
    Option<String>)
    ensures
        match r {
            Some(d) => store_dir_of(text_of(store_home), text_of(config_home), text_of(home))
                == Some(d@),
            None => store_dir_of(text_of(store_home), text_of(config_home), text_of(home))
                .is_none(),
        },
{
    match store_home {
        Some(d) => Some(String::from_str(d)),
        None => match config_home {
            Some(c) => Some(String::from_str(c).concat("/skatos")),
            None => match home {
                Some(h) => Some(String::from_str(h).concat("/.skatos")),
                None => None,
            },
        },
    }
}

/// The file that holds the store, in its directory.
pub fn store_file(dir: &str) -> (r: String)
    ensures
        r@ == dir@ + "/store.json"@,
{
    String::from_str(dir).concat("/store.json")
}

/// The file that carries the lock, beside the store.
pub fn lock_file(dir: &str) -> (r: String)
    ensures
        r@ == dir@ + "/store.lock"@,
{
    String::from_str(dir).concat("/store.lock")
}

/// The file that new content is written to before it replaces the store.
pub fn temp_file(dir: &str) -> (r: String)
    ensures
        r@ == dir@ + "/store.json.tmp"@,
{
    String::from_str(dir).concat("/store.json.tmp")
}

/// What a caller that wants the lock does next.
#[derive(Clone, Copy, Debug, PartialEq, Eq, Structural)]
pub enum LockAction {
    /// The lock is free: take it.
    Acquire,
    /// The lock is stale: warn, then take it.
    TakeOverStale,
    /// The lock is held: wait and look again.
    Wait,
    /// The lock is held and the time is up: fail.
    GiveUp,
}

/// The next step towards the lock. A lock that nobody holds is taken. A held
/// lock whose owner is gone and which is older than 60 seconds is stale and
/// is taken over. Any other held lock is waited for, until 5 seconds have
/// been spent waiting.
pub open spec fn lock_action_of(
    held: bool,
    owner_alive: bool,
    age_secs: u64,
    waited_millis: u64,
) -> LockAction {
    if !held {
        LockAction::Acquire
    } else if !owner_alive && age_secs > STALE_LOCK_SECS {
        LockAction::TakeOverStale
    } else if waited_millis >= LOCK_TIMEOUT_MILLIS {
        LockAction::GiveUp
    } else {
        LockAction::Wait
    }
}

/// Decides the next step towards the lock from what was seen of it.
pub fn lock_action(held: bool, owner_alive: bool, age_secs: u64, waited_millis: u64) -> (r:
    LockAction)
    ensures
        r == lock_action_of(held, owner_alive, age_secs, waited_millis),
{
    if !held {
        LockAction::Acquire
    } else if !owner_alive && age_secs > STALE_LOCK_SECS {
        LockAction::TakeOverStale
    } else if waited_millis >= LOCK_TIMEOUT_MILLIS {
        LockAction::GiveUp
    } else {
        LockAction::Wait
    }
}

} // verus!
