//! Deciding whether an output base is in use right now.
//!
//! Deleting an output base out from under a running bazel server corrupts the build it
//! is in the middle of, so liveness is a hard veto in `policy`, never a heuristic to be
//! weighed. Two independent signals, either of which vetoes:
//!
//!   * `<base>/lock` -- the bazel server holds an exclusive flock on this for its whole
//!     life. Probing it is the same mechanism bazel itself uses, so it stays correct
//!     even if a server dies without cleaning up its pid file.
//!   * `<base>/server/server.pid.txt` -- covers servers whose lock we can't open (e.g.
//!     EPERM), and gives us a pid to report.
//!
//! Anything ambiguous -- a lock that cannot be probed, a pid file that cannot be read or
//! does not hold a number -- reads as in use: it must not authorize a delete.

use crate::disk::ErrorKind;
use crate::paths;
use crate::text;
use vstd::prelude::*;
use vstd::string::*;

verus! {

/// What came of an attempt to take a base's lock.
#[derive(Debug, Clone, Copy, PartialEq, Eq, Structural)]
pub enum LockProbe {
    /// The lock file could not be opened.
    OpenFailed(ErrorKind),
    /// What a non-blocking exclusive flock on the open lock file returned.
    Flock(i32),
}

/// What came of an attempt to read a base's pid file.
#[derive(Debug)]
pub enum PidFile {
    /// The pid file could not be read as text.
    ReadFailed(ErrorKind),
    /// What the pid file holds.
    Text(String),
}

/// What came of sending a process the null signal.
#[derive(Debug, Clone, Copy, PartialEq, Eq, Structural)]
pub struct SignalProbe {
    /// What `kill` returned.
    pub rc: i32,
    /// The error number it left, where it failed.
    pub errno: i32,
}

/// The error number of a process that does not exist.
pub const NO_SUCH_PROCESS: i32 = 3;

/// The constant `libc::ESRCH`: on Linux, error number 3, that of a process that does not
/// exist.
#[verifier::external_body]
fn no_such_process() -> (r: i32)
    ensures
        r == NO_SUCH_PROCESS,
{
    libc::ESRCH
}

/// The file that the bazel server of a base holds its lock on.
pub open spec fn lock_file(base: Seq<u8>) -> Seq<u8> {
    paths::joined_text(base, "lock"@)
}

/// Where the bazel server of a base keeps its lock.
pub fn lock_path(base: &[u8]) -> (r: Vec<u8>)
    ensures
        r@ == lock_file(base@),
{
    paths::join_text(base, "lock")
}

/// The file that the bazel server of a base records its pid in.
pub open spec fn pid_file(base: Seq<u8>) -> Seq<u8> {
    paths::joined_text(paths::joined_text(base, "server"@), "server.pid.txt"@)
}

/// Where the bazel server of a base records its pid.
pub fn pid_path(base: &[u8]) -> (r: Vec<u8>)
    ensures
        r@ == pid_file(base@),
{
    paths::join_text(paths::join_text(base, "server").as_slice(), "server.pid.txt")
}

/// The number that a pid file holds.
pub open spec fn pid_in(file: PidFile) -> Option<i32> {
    match file {
        PidFile::Text(raw) => text::integer_value(text::trimmed(raw@)),
        PidFile::ReadFailed(_) => None,
    }
}

/// The pid that a pid file holds.
pub fn recorded_pid(file: &PidFile) -> (r: Option<i32>)
    ensures
        r == pid_in(*file),
{
    match file {
        PidFile::Text(raw) => text::parse_i32(text::trim(raw.as_str())),
        PidFile::ReadFailed(_) => None,
    }
}

/// The process that a pid file names, if its number can name one.
pub open spec fn process_in(file: PidFile) -> Option<i32> {
    match pid_in(file) {
        Some(pid) => if pid > 0 {
            Some(pid)
        } else {
            None
        },
        None => None,
    }
}

/// The process to send the null signal before a pid file can be judged. A number that is
/// not positive names no process, and must not reach `kill`, which would take it for a
/// process group.
pub fn pid_to_signal(file: &PidFile) -> (r: Option<i32>)
    ensures
        r == process_in(*file),
{
    match recorded_pid(file) {
        Some(pid) => if pid > 0 {
            Some(pid)
        } else {
            None
        },
        None => None,
    }
}

/// The process is alive: it can be signalled, or at least it is not known to be missing.
pub open spec fn alive(pid: i32, probe: Option<SignalProbe>) -> bool {
    pid > 0 && match probe {
        Some(p) => p.rc == 0 || p.errno != NO_SUCH_PROCESS,
        None => true,
    }
}

/// Whether `pid` names a live process, given what the null signal to it came to. One that is
/// not ours to signal is alive, and so is one that was not probed.
pub fn pid_alive(pid: i32, probe: Option<SignalProbe>) -> (r: bool)
    ensures
        r == alive(pid, probe),
{
    if pid <= 0 {
        return false;
    }
    match probe {
        Some(p) => p.rc == 0 || p.errno != no_such_process(),
        None => true,
    }
}

/// The process that a pid file names, if it is alive.
pub open spec fn server_in(file: PidFile, probe: Option<SignalProbe>) -> Option<i32> {
    match pid_in(file) {
        Some(pid) => if alive(pid, probe) {
            Some(pid)
        } else {
            None
        },
        None => None,
    }
}

/// The pid recorded by the server that owns a base, if it is still running.
pub fn server_pid(file: &PidFile, probe: Option<SignalProbe>) -> (r: Option<i32>)
    ensures
        r == server_in(*file, probe),
{
    match recorded_pid(file) {
        Some(pid) => if pid_alive(pid, probe) {
            Some(pid)
        } else {
            None
        },
        None => None,
    }
}

/// A bazel server holds the lock, or it cannot be told that none does.
pub open spec fn held(lock: LockProbe) -> bool {
    match lock {
        LockProbe::OpenFailed(kind) => kind != ErrorKind::NotFound,
        LockProbe::Flock(rc) => rc != 0,
    }
}

/// Whether a bazel server holds a base's lock.
///
/// A missing lock file means no server ever started here. Anything we can't interpret is
/// reported as held: an ambiguous answer must not authorize a delete.
pub fn lock_held(lock: LockProbe) -> (r: bool)
    ensures
        r == held(lock),
{
    match lock {
        LockProbe::OpenFailed(kind) => kind != ErrorKind::NotFound,
        LockProbe::Flock(rc) => rc != 0,
    }
}

/// A pid file that is there, but does not say whether a server runs.
pub open spec fn ambiguous(file: PidFile) -> bool {
    match file {
        PidFile::ReadFailed(kind) => !kind.absent(),
        PidFile::Text(_) => pid_in(file) is None,
    }
}

/// Something is actively using a base, or it cannot be told that nothing is.
pub open spec fn used(lock: LockProbe, file: PidFile, probe: Option<SignalProbe>) -> bool {
    ||| held(lock)
    ||| ambiguous(file)
    ||| pid_in(file) matches Some(pid) && alive(pid, probe)
}

/// Whether anything is actively using a base.
pub fn in_use(lock: LockProbe, file: &PidFile, probe: Option<SignalProbe>) -> (r: bool)
    ensures
        r == used(lock, *file, probe),
{
    if lock_held(lock) {
        return true;
    }
    match file {
        PidFile::ReadFailed(kind) => !kind.is_absent(),
        PidFile::Text(_) => match recorded_pid(file) {
            Some(_) => server_pid(file, probe).is_some(),
            None => true,
        },
    }
}

} // verus!
