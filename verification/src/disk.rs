//! What the sweeps ask of the filesystem, and what it answers.

use crate::paths;
use vstd::prelude::*;

verus! {

/// The reasons for a failed filesystem call that the rules tell apart.
#[derive(Debug, Clone, Copy, PartialEq, Eq, Structural)]
pub enum ErrorKind {
    NotFound,
    /// A component of the path, other than the last, is no directory.
    NotADirectory,
    PermissionDenied,
    Other,
}

impl ErrorKind {
    /// A failed look at a path says that there is nothing there: it is missing, or it leads
    /// through something that is no directory.
    pub open spec fn absent(self) -> bool {
        self == ErrorKind::NotFound || self == ErrorKind::NotADirectory
    }

    /// Whether a failed look at a path says that there is nothing there.
    pub fn is_absent(self) -> (r: bool)
        ensures
            r == self.absent(),
    {
        self == ErrorKind::NotFound || self == ErrorKind::NotADirectory
    }
}

/// A failed filesystem call.
#[derive(Debug, Clone)]
pub struct IoError {
    pub kind: ErrorKind,
    pub message: String,
}

/// What `lstat` says of a path, a symlink itself and not its target.
#[derive(Debug, Clone, Copy)]
pub struct Lstat {
    pub symlink: bool,
    pub mode: u32,
    pub nlink: u64,
    pub blocks: u64,
}

/// One readable entry of a directory.
#[derive(Debug, Clone)]
pub struct Listed {
    pub name: Vec<u8>,
    /// Whether the entry, symlinks followed, is a directory; none if that stat failed.
    pub leads_to_dir: Option<bool>,
}

/// One call to make, `P` being a path.
#[derive(Debug)]
pub enum Request<P> {
    /// Read a directory, and stat each entry with symlinks followed.
    List(P),
    /// `lstat` the path.
    Lstat(P),
    /// Set the mode of the path.
    Chmod(P, u32),
    /// Remove the path as a file.
    Unlink(P),
    /// Remove the path as an empty directory.
    Rmdir(P),
}

impl Request<Vec<u8>> {
    /// The request over the path's bytes.
    pub open spec fn view(self) -> Request<Seq<u8>> {
        match self {
            Request::List(p) => Request::List(p@),
            Request::Lstat(p) => Request::Lstat(p@),
            Request::Chmod(p, mode) => Request::Chmod(p@, mode),
            Request::Unlink(p) => Request::Unlink(p@),
            Request::Rmdir(p) => Request::Rmdir(p@),
        }
    }
}

/// The answer to a [`Request`].
#[derive(Debug)]
pub enum Reply {
    /// The entries of a directory, an unreadable one as none; none if it cannot be read.
    Listing(Option<Vec<Option<Listed>>>),
    /// What `lstat` gave.
    Stat(Result<Lstat, IoError>),
    /// Whether a change was made.
    Done(Result<(), IoError>),
}

impl Reply {
    /// The reply is of the kind that the request calls for.
    pub open spec fn answers<P>(self, request: Request<P>) -> bool {
        match request {
            Request::List(_) => self is Listing,
            Request::Lstat(_) => self is Stat,
            Request::Chmod(_, _) => self is Done,
            Request::Unlink(_) => self is Done,
            Request::Rmdir(_) => self is Done,
        }
    }

    /// Every name in a listing is a single ordinary component.
    pub open spec fn names_are_plain(self) -> bool {
        match self {
            Reply::Listing(Some(entries)) => forall|i: int|
                0 <= i < entries@.len() ==> match #[trigger] entries@[i] {
                    Some(listed) => paths::plain_name(listed.name@),
                    None => true,
                },
            _ => true,
        }
    }
}

/// An error that is a refusal: the path is there, and stays.
pub open spec fn refusal(e: IoError) -> bool {
    e.kind != ErrorKind::NotFound
}

} // verus!
