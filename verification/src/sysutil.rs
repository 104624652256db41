//! Decisions about the host: its clock, its mode file, files written
//! atomically, and the lock shared with `toggle`.

use vstd::prelude::*;
use crate::number::{number_text, numeral};
use crate::text::{split_words, trim, trimmed, words};

verus! {

/// The field of `/proc/uptime` that holds the seconds since boot: the first
/// one, if there is any.
pub fn uptime_field(text: &str) -> (r: Option<String>)
    ensures
        r is Some <==> words(text@).len() > 0,
        r matches Some(f) ==> f@ == words(text@)[0],
{
    let fields = split_words(text);
    if fields.len() == 0 {
        None
    } else {
        assert(words(text@)[0] == fields@[0]@);
        Some(fields[0].clone())
    }
}

/// The boot id that was read; empty if there is none.
pub fn boot_id(text: Option<&str>) -> (r: String)
    ensures
        r@ == (match text {
            Some(t) => trimmed(t@),
            None => Seq::empty(),
        }),
{
    match text {
        Some(t) => trim(t),
        None => String::new(),
    }
}

/// The mode that the content of the state file stands for; `maintenance` when
/// the file is absent or blank, matching `toggle`'s default.
pub open spec fn mode_of(text: Option<Seq<char>>) -> Seq<char> {
    match text {
        Some(t) => if trimmed(t).len() == 0 {
            "maintenance"@
        } else {
            trimmed(t)
        },
        None => "maintenance"@,
    }
}

/// Content of the searcher network state file; `maintenance` when absent,
/// matching `toggle`'s default.
pub fn read_mode(text: Option<&str>) -> (r: String)
    ensures
        r@ == mode_of(
            match text {
                Some(t) => Some(t@),
                None => None,
            },
        ),
{
    match text {
        Some(t) => {
            let m = trim(t);
            if m.as_str().is_empty() {
                "maintenance".to_owned()
            } else {
                m
            }
        },
        None => "maintenance".to_owned(),
    }
}

/// The name of the temporary file that takes the place of `file_name` once it
/// is complete; process `pid` writes it.
pub fn temporary_name(file_name: &str, pid: u32) -> (r: String)
    ensures
        r@ == "."@ + file_name@ + ".tmp."@ + numeral(pid as nat),
{
    let mut s = ".".to_owned();
    s.append(file_name);
    s.append(".tmp.");
    s.append(number_text(pid as u64).as_str());
    s
}

/// What to do after an attempt to take a lock.
#[derive(Debug, Clone, Copy, PartialEq, Eq, Structural)]
pub enum LockStep {
    /// The lock is held.
    Held,
    /// The attempt failed for a reason that waiting does not mend.
    Broken,
    /// Somebody else holds the lock and there is no time left.
    TimedOut,
    /// Somebody else holds the lock, or the attempt was interrupted: wait a
    /// moment and try again.
    Again,
}

/// What to do after an attempt to take a lock: `taken` if it succeeded,
/// `busy` if it failed because the lock is held or the attempt was
/// interrupted, `expired` if the time to wait is over.
pub fn lock_step(taken: bool, busy: bool, expired: bool) -> (r: LockStep)
    ensures
        r == (if taken {
            LockStep::Held
        } else if !busy {
            LockStep::Broken
        } else if expired {
            LockStep::TimedOut
        } else {
            LockStep::Again
        }),
{
    if taken {
        LockStep::Held
    } else if !busy {
        LockStep::Broken
    } else if expired {
        LockStep::TimedOut
    } else {
        LockStep::Again
    }
}

/// The error of a lock that could not be taken in time.
pub fn lock_timeout_error(path: &str) -> (r: String)
    ensures
        r@ == "timed out waiting for lock "@ + path@,
{
    let mut s = "timed out waiting for lock ".to_owned();
    s.append(path);
    s
}

} // verus!
