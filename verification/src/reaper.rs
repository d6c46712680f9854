//! Removing what policy condemned, and counting what that gave back.
//!
//! Space is counted *during* the delete, never predicted before it. Measuring a tree up
//! front means walking every inode just to produce a number the delete would hand us for
//! free. So a dry run reports *what* would go and says nothing about bytes, and only an
//! applied sweep reports space, which it knows exactly.
//!
//! The accounting leans on a property of unlink: a file with more than one link frees
//! nothing when you remove one of them. Counting blocks only when the link count is one
//! is therefore exactly right, and needs no dedupe bookkeeping -- for a tree holding two
//! links to one inode, the first unlink counts nothing and the second counts the blocks.
//!
//! Deletion is idempotent, so a missing path is success, not failure: the goal is that
//! the thing be gone, and it is gone. Another sweeper may race the walk and delete
//! entries between our listing and our unlink. Only a real refusal counts against us.
//!
//! The sweeps here touch no disk. Each one says which call it needs next, is fed the
//! answer, and ends in a [`Removal`].

use crate::disk;
use crate::disk::{ErrorKind, IoError, Listed, Reply, Request};
use crate::paths;
use crate::text;
use crate::util;
use std::collections::VecDeque;
use vstd::prelude::*;
use vstd::slice::*;
use vstd::string::*;

verus! {

/// Bytes in one block of a stat.
pub const BLOCK: u64 = 512;

/// The outcome of removing one path.
#[derive(Debug, Clone)]
pub struct Removal {
    /// The path this outcome describes.
    pub path: Vec<u8>,
    /// Bytes actually handed back. Always 0 for a dry run, which does not measure.
    pub freed: u64,
    pub error: Option<String>,
}

/// The characters of a text that may be absent.
pub open spec fn text_of(s: Option<String>) -> Option<Seq<char>> {
    match s {
        Some(s) => Some(s@),
        None => None,
    }
}

impl Removal {
    /// Nothing was refused.
    pub fn ok(&self) -> (r: bool)
        ensures
            r == (self.error is None),
    {
        self.error.is_none()
    }
}

/// The owner-write bit of a mode.
pub const OWNER_WRITE: u32 = 0o200;

/// The constant `libc::S_IWUSR`: the owner-write bit of a mode, octal 200.
#[verifier::external_body]
fn owner_write() -> (r: u32)
    ensures
        r == OWNER_WRITE,
{
    libc::S_IWUSR
}

/// The mode that lets a directory's entries be unlinked, where `mode` does not.
pub open spec fn writable_mode(mode: u32) -> Option<u32> {
    if mode & OWNER_WRITE == 0 {
        Some(mode | OWNER_WRITE)
    } else {
        None
    }
}

/// The mode to give a directory so that its entries can be unlinked, if it needs one.
///
/// Bazel marks action output directories read-only to protect build outputs from being
/// edited. Unlink checks the *parent directory's* write bit, not the file's, so without
/// this every delete inside them fails, the directory is left non-empty, and the rmdir
/// cascade fails all the way up. We are removing the tree outright, so relaxing the mode
/// on the way down costs nothing.
pub fn force_writable(mode: u32) -> (r: Option<u32>)
    ensures
        r == writable_mode(mode),
{
    if mode & owner_write() == 0 {
        Some(mode | owner_write())
    } else {
        None
    }
}

/// Space an unlink of an inode with these link and block counts releases.
pub open spec fn released_bytes(nlink: u64, blocks: u64) -> int {
    if nlink == 1 {
        blocks * BLOCK
    } else {
        0
    }
}

/// Space an unlink of an inode with these link and block counts releases.
pub fn freed_by_unlink(nlink: u64, blocks: u64) -> (r: u64)
    requires
        released_bytes(nlink, blocks) <= u64::MAX,
    ensures
        r == released_bytes(nlink, blocks),
{
    if nlink == 1 {
        blocks * BLOCK
    } else {
        0
    }
}

/// Whether the space that an unlink releases can be counted.
fn countable(nlink: u64, blocks: u64) -> (r: bool)
    ensures
        r == (released_bytes(nlink, blocks) <= u64::MAX),
{
    nlink != 1 || blocks <= u64::MAX / BLOCK
}

/// One pending step of a tree sweep, `P` being a path.
#[derive(Debug)]
pub enum Task<P> {
    /// List a directory, and plan the removal of what is in it.
    Walk(P),
    /// Walk a subdirectory, unless it is a symlink.
    Descend(P),
    /// See whether a directory lets its entries be unlinked.
    Relax(P),
    /// Give a directory a mode that does.
    Grant(P, u32),
    /// Look at a file before it goes.
    Weigh(P),
    /// Unlink a file that had this many links and blocks.
    Unlink(P, u64, u64),
    /// Remove an emptied subdirectory.
    Prune(P),
    /// Unlink what would not go as a directory: a symlink to one.
    PruneLink(P),
    /// Remove the emptied root of the tree.
    RemoveRoot(P),
}

impl Task<Vec<u8>> {
    /// The task over the path's bytes.
    pub open spec fn view(self) -> Task<Seq<u8>> {
        match self {
            Task::Walk(p) => Task::Walk(p@),
            Task::Descend(p) => Task::Descend(p@),
            Task::Relax(p) => Task::Relax(p@),
            Task::Grant(p, mode) => Task::Grant(p@, mode),
            Task::Weigh(p) => Task::Weigh(p@),
            Task::Unlink(p, nlink, blocks) => Task::Unlink(p@, nlink, blocks),
            Task::Prune(p) => Task::Prune(p@),
            Task::PruneLink(p) => Task::PruneLink(p@),
            Task::RemoveRoot(p) => Task::RemoveRoot(p@),
        }
    }
}

impl Task<Seq<u8>> {
    /// The path that the task is about.
    pub open spec fn path(self) -> Seq<u8> {
        match self {
            Task::Walk(p) => p,
            Task::Descend(p) => p,
            Task::Relax(p) => p,
            Task::Grant(p, _) => p,
            Task::Weigh(p) => p,
            Task::Unlink(p, _, _) => p,
            Task::Prune(p) => p,
            Task::PruneLink(p) => p,
            Task::RemoveRoot(p) => p,
        }
    }

    /// The call that the task makes.
    pub open spec fn request(self) -> Request<Seq<u8>> {
        match self {
            Task::Walk(p) => Request::List(p),
            Task::Descend(p) => Request::Lstat(p),
            Task::Relax(p) => Request::Lstat(p),
            Task::Grant(p, mode) => Request::Chmod(p, mode),
            Task::Weigh(p) => Request::Lstat(p),
            Task::Unlink(p, _, _) => Request::Unlink(p),
            Task::Prune(p) => Request::Rmdir(p),
            Task::PruneLink(p) => Request::Unlink(p),
            Task::RemoveRoot(p) => Request::Rmdir(p),
        }
    }

    /// What is left to do in the task's place once it is answered.
    ///
    /// A listed directory is emptied bottom-up: first its subdirectories are descended
    /// into, then the directory is made writable, then its files go, and last its emptied
    /// subdirectories.
    pub open spec fn follow_up(self, reply: Reply) -> Seq<Task<Seq<u8>>> {
        match (self, reply) {
            (Task::Walk(d), Reply::Listing(Some(entries))) => children(d, entries@, true).map_values(
                |p: Seq<u8>| Task::Descend(p),
            ) + seq![Task::Relax(d)] + children(d, entries@, false).map_values(
                |p: Seq<u8>| Task::Weigh(p),
            ) + children(d, entries@, true).map_values(|p: Seq<u8>| Task::Prune(p)),
            (Task::Descend(d), Reply::Stat(Ok(stat))) => if stat.symlink {
                seq![]
            } else {
                seq![Task::Walk(d)]
            },
            (Task::Descend(d), Reply::Stat(Err(_))) => seq![Task::Walk(d)],
            (Task::Relax(d), Reply::Stat(Ok(stat))) => match writable_mode(stat.mode) {
                Some(mode) => seq![Task::Grant(d, mode)],
                None => seq![],
            },
            (Task::Weigh(f), Reply::Stat(Ok(stat))) => seq![
                Task::Unlink(f, stat.nlink, stat.blocks),
            ],
            (Task::Prune(d), Reply::Done(Err(e))) => if disk::refusal(e) {
                seq![Task::PruneLink(d)]
            } else {
                seq![]
            },
            _ => seq![],
        }
    }

    /// The bytes that the answer says were handed back.
    pub open spec fn released(self, reply: Reply) -> int {
        match (self, reply) {
            (Task::Unlink(_, nlink, blocks), Reply::Done(Ok(_))) => released_bytes(nlink, blocks),
            _ => 0,
        }
    }

    /// The answer says that an entry is there and stays.
    pub open spec fn refused(self, reply: Reply) -> bool {
        match (self, reply) {
            (Task::Weigh(_), Reply::Stat(Err(e))) => disk::refusal(e),
            (Task::Unlink(_, _, _), Reply::Done(Err(e))) => disk::refusal(e),
            (Task::PruneLink(_), Reply::Done(Err(e))) => disk::refusal(e),
            _ => false,
        }
    }

    /// The message of an answer that says that the root stays.
    pub open spec fn root_refused(self, reply: Reply) -> Option<Seq<char>> {
        match (self, reply) {
            (Task::RemoveRoot(_), Reply::Done(Err(e))) => if disk::refusal(e) {
                Some(e.message@)
            } else {
                None
            },
            _ => None,
        }
    }
}

/// The listed entry is, symlinks followed, a directory.
pub open spec fn is_subdir(listed: Listed) -> bool {
    listed.leads_to_dir == Some(true)
}

/// The paths of the listed directories of `d`, or of its other entries, in listed order.
pub open spec fn children(d: Seq<u8>, entries: Seq<Option<Listed>>, subdirs: bool) -> Seq<Seq<u8>>
    decreases entries.len(),
{
    if entries.len() == 0 {
        seq![]
    } else {
        let before = children(d, entries.drop_last(), subdirs);
        match entries.last() {
            Some(listed) => if is_subdir(listed) == subdirs {
                before.push(paths::joined(d, listed.name@))
            } else {
                before
            },
            None => before,
        }
    }
}

/// Where a tree sweep stands.
pub struct TreeState {
    /// What is left to do, the next task first.
    pub todo: Seq<Task<Seq<u8>>>,
    /// Bytes handed back so far.
    pub freed: int,
    /// Entries that stay, so far.
    pub failures: int,
    /// Why the root stays.
    pub error: Option<Seq<char>>,
}

impl TreeState {
    /// The sweep of `root` before its first call. A dry run has nothing to do.
    pub open spec fn start(root: Seq<u8>, dry_run: bool) -> TreeState {
        TreeState {
            todo: if dry_run {
                seq![]
            } else {
                seq![Task::Walk(root), Task::RemoveRoot(root)]
            },
            freed: 0,
            failures: 0,
            error: None,
        }
    }

    /// The sweep once its next task is answered.
    pub open spec fn after(self, reply: Reply) -> TreeState {
        let task = self.todo[0];
        TreeState {
            todo: task.follow_up(reply) + self.todo.skip(1),
            freed: self.freed + task.released(reply),
            failures: self.failures + if task.refused(reply) {
                1int
            } else {
                0
            },
            error: match task.root_refused(reply) {
                Some(message) => Some(message),
                None => self.error,
            },
        }
    }

    /// The counts still fit once the next task is answered so.
    pub open spec fn room(self, reply: Reply) -> bool {
        &&& self.freed + self.todo[0].released(reply) <= u64::MAX
        &&& self.todo[0].refused(reply) ==> self.failures < u64::MAX
    }

    /// What a finished sweep reports: why the root stays, or else how many entries do.
    pub open spec fn verdict(self) -> Option<Seq<char>> {
        match self.error {
            Some(message) => Some(message),
            None => if self.failures > 0 {
                Some(text::decimal(self.failures as nat) + " entries could not be removed"@)
            } else {
                None
            },
        }
    }
}

/// The removal of one directory tree, as a run of filesystem calls.
#[derive(Debug)]
pub struct TreeSweep {
    root: Vec<u8>,
    tasks: VecDeque<Task<Vec<u8>>>,
    freed: u64,
    failures: u64,
    error: Option<String>,
}

/// Tasks over their paths' bytes.
pub open spec fn task_views(tasks: Seq<Task<Vec<u8>>>) -> Seq<Task<Seq<u8>>> {
    tasks.map_values(|t: Task<Vec<u8>>| t.view())
}

/// Remove a directory tree, counting space as each inode goes.
///
/// Deletes bottom-up so directories are empty by the time we rmdir them. A file we
/// cannot stat or unlink is skipped rather than aborting the sweep: one unreadable
/// inode in one base should not strand the others.
pub fn sweep_tree(path: &[u8], dry_run: bool) -> (r: TreeSweep)
    ensures
        r.root() == path@,
        r@ == TreeState::start(path@, dry_run),
{
    let mut tasks: VecDeque<Task<Vec<u8>>> = VecDeque::new();
    if !dry_run {
        tasks.push_back(Task::Walk(slice_to_vec(path)));
        tasks.push_back(Task::RemoveRoot(slice_to_vec(path)));
    }
    assert(task_views(tasks@) =~= TreeState::start(path@, dry_run).todo);
    TreeSweep { root: slice_to_vec(path), tasks, freed: 0, failures: 0, error: None }
}

/// The paths of the listed directories of `d`, or of its other entries, in listed order.
fn list_children(d: &[u8], entries: &Vec<Option<Listed>>, subdirs: bool) -> (r: Vec<Vec<u8>>)
    ensures
        r@.map_values(|p: Vec<u8>| p@) == children(d@, entries@, subdirs),
{
    let mut r: Vec<Vec<u8>> = Vec::new();
    let mut i: usize = 0;
    let ghost bytes = |p: Vec<u8>| p@;
    assert(r@.map_values(bytes) =~= children(d@, entries@.take(0), subdirs));
    while i < entries.len()
        invariant
            i <= entries.len(),
            bytes == (|p: Vec<u8>| p@),
            r@.map_values(bytes) == children(d@, entries@.take(i as int), subdirs),
        decreases entries.len() - i,
    {
        let ghost before = r@;
        assert(entries@.take(i + 1).drop_last() =~= entries@.take(i as int));
        match &entries[i] {
            Some(listed) => {
                let is_dir: bool = match listed.leads_to_dir {
                    Some(b) => b,
                    None => false,
                };
                if is_dir == subdirs {
                    r.push(paths::join(d, listed.name.as_slice()));
                    assert(r@.map_values(bytes) =~= before.map_values(bytes).push(
                        paths::joined(d@, listed.name@),
                    ));
                }
            },
            None => {},
        }
        i = i + 1;
    }
    assert(entries@.take(i as int) =~= entries@);
    r
}

/// Plans the removal of what a directory listing names.
fn plan_directory(d: Vec<u8>, entries: &Vec<Option<Listed>>) -> (r: Vec<Task<Vec<u8>>>)
    ensures
        forall|reply: Reply|
            reply matches Reply::Listing(Some(found)) && found@ == entries@ ==> task_views(r@)
                == #[trigger] Task::Walk(d@).follow_up(reply),
{
    let ghost subdirs = children(d@, entries@, true);
    let ghost files = children(d@, entries@, false);
    let ghost bytes = |p: Vec<u8>| p@;
    let ghost descends = subdirs.map_values(|p: Seq<u8>| Task::Descend(p));
    let ghost weighs = files.map_values(|p: Seq<u8>| Task::Weigh(p));
    let ghost prunes = subdirs.map_values(|p: Seq<u8>| Task::Prune(p));
    let dirs = list_children(d.as_slice(), entries, true);
    let others = list_children(d.as_slice(), entries, false);
    let mut r: Vec<Task<Vec<u8>>> = Vec::new();
    let mut i: usize = 0;
    while i < dirs.len()
        invariant
            i <= dirs.len(),
            dirs@.map_values(bytes) == subdirs,
            bytes == (|p: Vec<u8>| p@),
            descends == subdirs.map_values(|p: Seq<u8>| Task::Descend(p)),
            task_views(r@) =~= descends.take(i as int),
        decreases dirs.len() - i,
    {
        assert(dirs@.map_values(bytes)[i as int] == dirs@[i as int]@);
        let ghost before = r@;
        r.push(Task::Descend(slice_to_vec(dirs[i].as_slice())));
        assert(task_views(r@) =~= task_views(before).push(descends[i as int]));
        i = i + 1;
    }
    assert(dirs@.map_values(bytes).len() == dirs@.len());
    assert(task_views(r@) =~= descends);
    r.push(Task::Relax(slice_to_vec(d.as_slice())));
    let mut i: usize = 0;
    let ghost head = descends + seq![Task::Relax(d@)];
    while i < others.len()
        invariant
            i <= others.len(),
            others@.map_values(bytes) == files,
            bytes == (|p: Vec<u8>| p@),
            weighs == files.map_values(|p: Seq<u8>| Task::Weigh(p)),
            task_views(r@) =~= head + weighs.take(i as int),
        decreases others.len() - i,
    {
        assert(others@.map_values(bytes)[i as int] == others@[i as int]@);
        let ghost before = r@;
        r.push(Task::Weigh(slice_to_vec(others[i].as_slice())));
        assert(task_views(r@) =~= task_views(before).push(weighs[i as int]));
        i = i + 1;
    }
    assert(others@.map_values(bytes).len() == others@.len());
    let mut i: usize = 0;
    let ghost head = head + weighs;
    assert(task_views(r@) =~= head);
    while i < dirs.len()
        invariant
            i <= dirs.len(),
            dirs@.map_values(bytes) == subdirs,
            bytes == (|p: Vec<u8>| p@),
            prunes == subdirs.map_values(|p: Seq<u8>| Task::Prune(p)),
            task_views(r@) =~= head + prunes.take(i as int),
        decreases dirs.len() - i,
    {
        assert(dirs@.map_values(bytes)[i as int] == dirs@[i as int]@);
        let ghost before = r@;
        r.push(Task::Prune(slice_to_vec(dirs[i].as_slice())));
        assert(task_views(r@) =~= task_views(before).push(prunes[i as int]));
        i = i + 1;
    }
    assert(task_views(r@) =~= head + prunes);
    r
}

impl TreeSweep {
    /// Where the sweep stands.
    pub closed spec fn view(self) -> TreeState {
        TreeState {
            todo: task_views(self.tasks@),
            freed: self.freed as int,
            failures: self.failures as int,
            error: text_of(self.error),
        }
    }

    /// The root of the tree.
    pub closed spec fn root(self) -> Seq<u8> {
        self.root@
    }

    /// The call that the sweep needs next, or none when it is finished.
    pub fn next(&self) -> (r: Option<Request<Vec<u8>>>)
        ensures
            match r {
                Some(request) => self@.todo.len() > 0 && request@ == self@.todo[0].request(),
                None => self@.todo.len() == 0,
            },
    {
        if self.tasks.len() == 0 {
            return None;
        }
        let task: &Task<Vec<u8>> = &self.tasks[0];
        assert(self@.todo[0] == task.view());
        Some(
            match task {
                Task::Walk(p) => Request::List(slice_to_vec(p.as_slice())),
                Task::Descend(p) => Request::Lstat(slice_to_vec(p.as_slice())),
                Task::Relax(p) => Request::Lstat(slice_to_vec(p.as_slice())),
                Task::Grant(p, mode) => Request::Chmod(slice_to_vec(p.as_slice()), *mode),
                Task::Weigh(p) => Request::Lstat(slice_to_vec(p.as_slice())),
                Task::Unlink(p, _, _) => Request::Unlink(slice_to_vec(p.as_slice())),
                Task::Prune(p) => Request::Rmdir(slice_to_vec(p.as_slice())),
                Task::PruneLink(p) => Request::Unlink(slice_to_vec(p.as_slice())),
                Task::RemoveRoot(p) => Request::Rmdir(slice_to_vec(p.as_slice())),
            },
        )
    }

    /// Whether the counts still fit once the next task is answered so.
    pub fn has_room(&self, reply: &Reply) -> (r: bool)
        requires
            self@.todo.len() > 0,
        ensures
            r == self@.room(*reply),
    {
        let task: &Task<Vec<u8>> = &self.tasks[0];
        assert(self@.todo[0] == task.view());
        match (task, reply) {
            (Task::Unlink(_, nlink, blocks), Reply::Done(Ok(_))) => {
                countable(*nlink, *blocks) && freed_by_unlink(*nlink, *blocks) <= u64::MAX
                    - self.freed
            },
            (Task::Weigh(_), Reply::Stat(Err(e))) => {
                e.kind == ErrorKind::NotFound || self.failures < u64::MAX
            },
            (Task::Unlink(_, _, _), Reply::Done(Err(e))) => {
                e.kind == ErrorKind::NotFound || self.failures < u64::MAX
            },
            (Task::PruneLink(_), Reply::Done(Err(e))) => {
                e.kind == ErrorKind::NotFound || self.failures < u64::MAX
            },
            _ => true,
        }
    }

    /// Takes the answer to the call that the sweep needed.
    pub fn feed(&mut self, reply: Reply)
        requires
            old(self)@.todo.len() > 0,
            reply.answers(old(self)@.todo[0].request()),
            old(self)@.room(reply),
        ensures
            final(self).root() == old(self).root(),
            final(self)@ == old(self)@.after(reply),
    {
        let ghost state = self@;
        let ghost todo = self.tasks@;
        assert(task_views(todo.skip(1)) =~= state.todo.skip(1));
        match self.tasks.pop_front() {
            Some(task) => {
                assert(task.view() == state.todo[0]);
                let mut plan: Vec<Task<Vec<u8>>> = Vec::new();
                match (task, reply) {
                    (Task::Walk(d), Reply::Listing(Some(entries))) => {
                        plan = plan_directory(d, &entries);
                        assert(task_views(plan@) == state.todo[0].follow_up(reply));
                    },
                    (Task::Descend(d), Reply::Stat(Ok(stat))) => {
                        if !stat.symlink {
                            plan.push(Task::Walk(d));
                        }
                    },
                    (Task::Descend(d), Reply::Stat(Err(_))) => {
                        plan.push(Task::Walk(d));
                    },
                    (Task::Relax(d), Reply::Stat(Ok(stat))) => {
                        match force_writable(stat.mode) {
                            Some(mode) => {
                                plan.push(Task::Grant(d, mode));
                            },
                            None => {},
                        }
                    },
                    (Task::Weigh(f), Reply::Stat(Ok(stat))) => {
                        plan.push(Task::Unlink(f, stat.nlink, stat.blocks));
                    },
                    (Task::Weigh(_), Reply::Stat(Err(e))) => {
                        if e.kind != ErrorKind::NotFound {
                            self.failures = self.failures + 1;
                        }
                    },
                    (Task::Unlink(_, nlink, blocks), Reply::Done(Ok(_))) => {
                        self.freed = self.freed + freed_by_unlink(nlink, blocks);
                    },
                    (Task::Unlink(_, _, _), Reply::Done(Err(e))) => {
                        if e.kind != ErrorKind::NotFound {
                            self.failures = self.failures + 1;
                        }
                    },
                    (Task::Prune(d), Reply::Done(Err(e))) => {
                        if e.kind != ErrorKind::NotFound {
                            plan.push(Task::PruneLink(d));
                        }
                    },
                    (Task::PruneLink(_), Reply::Done(Err(e))) => {
                        if e.kind != ErrorKind::NotFound {
                            self.failures = self.failures + 1;
                        }
                    },
                    (Task::RemoveRoot(_), Reply::Done(Err(e))) => {
                        if e.kind != ErrorKind::NotFound {
                            self.error = Some(e.message);
                        }
                    },
                    _ => {},
                }
                assert(task_views(plan@) =~= state.todo[0].follow_up(reply));
                let ghost planned = plan@;
                util::put_first(&mut self.tasks, plan);
                assert(task_views(planned + todo.skip(1)) =~= task_views(planned) + task_views(
                    todo.skip(1),
                ));
            },
            None => {},
        }
    }

    /// What the finished sweep comes to.
    pub fn outcome(self) -> (r: Removal)
        requires
            self@.todo.len() == 0,
        ensures
            r.path@ == self.root(),
            r.freed == self@.freed,
            text_of(r.error) == self@.verdict(),
    {
        let error = match self.error {
            Some(message) => Some(message),
            None => {
                if self.failures > 0 {
                    let mut message = text::decimal_text(self.failures as u128);
                    message.append(" entries could not be removed");
                    Some(message)
                } else {
                    None
                }
            },
        };
        Removal { path: self.root, freed: self.freed, error }
    }
}

/// Where a file sweep stands, `T` being a text.
#[derive(Debug)]
pub enum FileStage<T> {
    /// Look at the file before it goes.
    Weigh,
    /// Unlink the file, which had this many links and blocks.
    Unlink(u64, u64),
    /// See whether the file's directory lets its entries be unlinked.
    RelaxParent(u64, u64),
    /// Give the file's directory this mode, which does.
    GrantParent(u32, u64, u64),
    /// Unlink the file, for the second and last time.
    UnlinkAgain(u64, u64),
    /// Over: the bytes handed back, and why the file stays if it does.
    Finished(u64, Option<T>),
}

impl FileStage<String> {
    /// The stage over the message's characters.
    pub open spec fn view(self) -> FileStage<Seq<char>> {
        match self {
            FileStage::Weigh => FileStage::Weigh,
            FileStage::Unlink(nlink, blocks) => FileStage::Unlink(nlink, blocks),
            FileStage::RelaxParent(nlink, blocks) => FileStage::RelaxParent(nlink, blocks),
            FileStage::GrantParent(mode, nlink, blocks) => FileStage::GrantParent(
                mode,
                nlink,
                blocks,
            ),
            FileStage::UnlinkAgain(nlink, blocks) => FileStage::UnlinkAgain(nlink, blocks),
            FileStage::Finished(freed, error) => FileStage::Finished(freed, text_of(error)),
        }
    }
}

impl FileStage<Seq<char>> {
    /// The sweep before its first call. A dry run is over at once.
    pub open spec fn start(dry_run: bool) -> FileStage<Seq<char>> {
        if dry_run {
            FileStage::Finished(0, None)
        } else {
            FileStage::Weigh
        }
    }

    /// The call that the sweep of the file at `path` needs next.
    pub open spec fn request(self, path: Seq<u8>) -> Option<Request<Seq<u8>>> {
        match self {
            FileStage::Weigh => Some(Request::Lstat(path)),
            FileStage::Unlink(_, _) => Some(Request::Unlink(path)),
            FileStage::RelaxParent(_, _) => match paths::parent_of(path) {
                Some(d) => Some(Request::Lstat(d)),
                None => None,
            },
            FileStage::GrantParent(mode, _, _) => match paths::parent_of(path) {
                Some(d) => Some(Request::Chmod(d, mode)),
                None => None,
            },
            FileStage::UnlinkAgain(_, _) => Some(Request::Unlink(path)),
            FileStage::Finished(_, _) => None,
        }
    }

    /// The sweep of the file at `path` once the call it needed is answered. A refused unlink is
    /// tried again, once, with the file's directory made writable; what another sweeper removed
    /// first is gone, but was not released here.
    pub open spec fn after(self, path: Seq<u8>, reply: Reply) -> FileStage<Seq<char>> {
        match (self, reply) {
            (FileStage::Weigh, Reply::Stat(Ok(stat))) => FileStage::Unlink(stat.nlink, stat.blocks),
            (FileStage::Weigh, Reply::Stat(Err(e))) => gave_up(e),
            (FileStage::Unlink(nlink, blocks), Reply::Done(Ok(_))) => unlinked(nlink, blocks),
            (FileStage::Unlink(nlink, blocks), Reply::Done(Err(e))) => if e.kind
                != ErrorKind::PermissionDenied {
                gave_up(e)
            } else if paths::parent_of(path) is Some {
                FileStage::RelaxParent(nlink, blocks)
            } else {
                FileStage::UnlinkAgain(nlink, blocks)
            },
            (FileStage::RelaxParent(nlink, blocks), Reply::Stat(Ok(stat))) => match writable_mode(
                stat.mode,
            ) {
                Some(mode) => FileStage::GrantParent(mode, nlink, blocks),
                None => FileStage::UnlinkAgain(nlink, blocks),
            },
            (FileStage::RelaxParent(nlink, blocks), _) => FileStage::UnlinkAgain(nlink, blocks),
            (FileStage::GrantParent(_, nlink, blocks), _) => FileStage::UnlinkAgain(nlink, blocks),
            (FileStage::UnlinkAgain(nlink, blocks), Reply::Done(Ok(_))) => unlinked(nlink, blocks),
            (FileStage::UnlinkAgain(_, _), Reply::Done(Err(e))) => gave_up(e),
            _ => self,
        }
    }

    /// The count of bytes fits once the call is answered so.
    pub open spec fn room(self, reply: Reply) -> bool {
        match (self, reply) {
            (FileStage::Unlink(nlink, blocks), Reply::Done(Ok(_))) => released_bytes(nlink, blocks)
                <= u64::MAX,
            (FileStage::UnlinkAgain(nlink, blocks), Reply::Done(Ok(_))) => released_bytes(
                nlink,
                blocks,
            ) <= u64::MAX,
            _ => true,
        }
    }
}

/// A file is gone that had this many links and blocks.
pub open spec fn unlinked(nlink: u64, blocks: u64) -> FileStage<Seq<char>> {
    FileStage::Finished(released_bytes(nlink, blocks) as u64, None)
}

/// A call failed for good: a success if the file is missing, else an error.
pub open spec fn gave_up(e: IoError) -> FileStage<Seq<char>> {
    FileStage::Finished(
        0,
        if disk::refusal(e) {
            Some(e.message@)
        } else {
            None
        },
    )
}

/// The removal of one file, as a run of filesystem calls.
#[derive(Debug)]
pub struct FileSweep {
    path: Vec<u8>,
    stage: FileStage<String>,
}

/// Unlink a single file, counting the space it actually released.
pub fn sweep_file(path: &[u8], dry_run: bool) -> (r: FileSweep)
    ensures
        r.path() == path@,
        r@ == FileStage::start(dry_run),
{
    FileSweep {
        path: slice_to_vec(path),
        stage: if dry_run {
            FileStage::Finished(0, None)
        } else {
            FileStage::Weigh
        },
    }
}

/// Ends a file sweep on a failed call.
fn give_up(e: IoError) -> (r: FileStage<String>)
    ensures
        r@ == gave_up(e),
{
    if e.kind == ErrorKind::NotFound {
        FileStage::Finished(0, None)
    } else {
        FileStage::Finished(0, Some(e.message))
    }
}

impl FileSweep {
    /// The sweep sees to the file's directory only where there is one.
    #[verifier::type_invariant]
    spec fn inv(self) -> bool {
        self.stage is RelaxParent || self.stage is GrantParent ==> paths::parent_of(
            self.path@,
        ) is Some
    }

    /// Where the sweep stands.
    pub closed spec fn view(self) -> FileStage<Seq<char>> {
        self.stage.view()
    }

    /// The file to remove.
    pub closed spec fn path(self) -> Seq<u8> {
        self.path@
    }

    /// The call that the sweep needs next, or none when it is finished.
    pub fn next(&self) -> (r: Option<Request<Vec<u8>>>)
        ensures
            match r {
                Some(request) => self@.request(self.path()) == Some(request@),
                None => self@ is Finished,
            },
    {
        proof {
            use_type_invariant(self);
        }
        let path: &[u8] = self.path.as_slice();
        match &self.stage {
            FileStage::Weigh => Some(Request::Lstat(slice_to_vec(path))),
            FileStage::Unlink(_, _) => Some(Request::Unlink(slice_to_vec(path))),
            FileStage::RelaxParent(_, _) => match paths::parent(path) {
                Some(d) => Some(Request::Lstat(d)),
                None => None,
            },
            FileStage::GrantParent(mode, _, _) => match paths::parent(path) {
                Some(d) => Some(Request::Chmod(d, *mode)),
                None => None,
            },
            FileStage::UnlinkAgain(_, _) => Some(Request::Unlink(slice_to_vec(path))),
            FileStage::Finished(_, _) => None,
        }
    }

    /// Whether the count of bytes fits once the call is answered so.
    pub fn has_room(&self, reply: &Reply) -> (r: bool)
        ensures
            r == self@.room(*reply),
    {
        match (&self.stage, reply) {
            (FileStage::Unlink(nlink, blocks), Reply::Done(Ok(_))) => {
                countable(*nlink, *blocks)
            },
            (FileStage::UnlinkAgain(nlink, blocks), Reply::Done(Ok(_))) => {
                countable(*nlink, *blocks)
            },
            _ => true,
        }
    }

    /// Takes the answer to the call that the sweep needed.
    pub fn feed(&mut self, reply: Reply)
        requires
            old(self)@.request(old(self).path()) matches Some(request) && reply.answers(request),
            old(self)@.room(reply),
        ensures
            final(self).path() == old(self).path(),
            final(self)@ == old(self)@.after(old(self).path(), reply),
    {
        proof {
            use_type_invariant(&*self);
        }
        match (&self.stage, reply) {
            (FileStage::Weigh, Reply::Stat(Ok(stat))) => {
                self.stage = FileStage::Unlink(stat.nlink, stat.blocks);
            },
            (FileStage::Weigh, Reply::Stat(Err(e))) => {
                self.stage = give_up(e);
            },
            (FileStage::Unlink(nlink, blocks), Reply::Done(Ok(_))) => {
                self.stage = FileStage::Finished(freed_by_unlink(*nlink, *blocks), None);
            },
            (FileStage::Unlink(nlink, blocks), Reply::Done(Err(e))) => {
                if e.kind != ErrorKind::PermissionDenied {
                    self.stage = give_up(e);
                } else if paths::parent(self.path.as_slice()).is_some() {
                    self.stage = FileStage::RelaxParent(*nlink, *blocks);
                } else {
                    self.stage = FileStage::UnlinkAgain(*nlink, *blocks);
                }
            },
            (FileStage::RelaxParent(nlink, blocks), Reply::Stat(Ok(stat))) => {
                match force_writable(stat.mode) {
                    Some(mode) => {
                        self.stage = FileStage::GrantParent(mode, *nlink, *blocks);
                    },
                    None => {
                        self.stage = FileStage::UnlinkAgain(*nlink, *blocks);
                    },
                }
            },
            (FileStage::RelaxParent(nlink, blocks), _) => {
                self.stage = FileStage::UnlinkAgain(*nlink, *blocks);
            },
            (FileStage::GrantParent(_, nlink, blocks), _) => {
                self.stage = FileStage::UnlinkAgain(*nlink, *blocks);
            },
            (FileStage::UnlinkAgain(nlink, blocks), Reply::Done(Ok(_))) => {
                self.stage = FileStage::Finished(freed_by_unlink(*nlink, *blocks), None);
            },
            (FileStage::UnlinkAgain(_, _), Reply::Done(Err(e))) => {
                self.stage = give_up(e);
            },
            _ => {},
        }
    }

    /// What the finished sweep comes to.
    pub fn outcome(self) -> (r: Removal)
        requires
            self@ is Finished,
        ensures
            r.path@ == self.path(),
            self@ == FileStage::Finished(r.freed, text_of(r.error)),
    {
        match self.stage {
            FileStage::Finished(freed, error) => Removal { path: self.path, freed, error },
            _ => Removal { path: self.path, freed: 0, error: None },
        }
    }
}

/// The bytes in each unit of a rendered size.
pub const KIB: u64 = 1024;

pub const MIB: u64 = 1_048_576;

pub const GIB: u64 = 1_073_741_824;

pub const TIB: u64 = 1_099_511_627_776;

/// A byte count: whole bytes below 1024, else one digit behind the point, in the largest
/// unit of which there is at least one.
pub open spec fn magnitude_text(size: nat) -> Seq<char> {
    if size < KIB {
        text::decimal(size) + "B"@
    } else if size < MIB {
        text::one_decimal(size, KIB as nat) + "K"@
    } else if size < GIB {
        text::one_decimal(size, MIB as nat) + "M"@
    } else if size < TIB {
        text::one_decimal(size, GIB as nat) + "G"@
    } else {
        text::one_decimal(size, TIB as nat) + "T"@
    }
}

/// A signed byte count: the unit goes by its magnitude.
pub open spec fn human_text(size: int) -> Seq<char> {
    if size < 0 {
        "-"@ + magnitude_text((-size) as nat)
    } else {
        magnitude_text(size as nat)
    }
}

/// Render a byte count the way df does. The digit behind the point is that of the exact quotient,
/// also of a count past 2^53, which floating point would round first.
pub fn human(size: i128) -> (r: String)
    ensures
        r@ == human_text(size as int),
{
    let bytes: u128 = if size < 0 {
        (-(size + 1)) as u128 + 1
    } else {
        size as u128
    };
    let (number, unit) = if bytes < KIB as u128 {
        (text::decimal_text(bytes), "B")
    } else if bytes < MIB as u128 {
        (text::one_decimal_text(bytes, KIB as u128), "K")
    } else if bytes < GIB as u128 {
        (text::one_decimal_text(bytes, MIB as u128), "M")
    } else if bytes < TIB as u128 {
        (text::one_decimal_text(bytes, GIB as u128), "G")
    } else {
        (text::one_decimal_text(bytes, TIB as u128), "T")
    };
    let r = number.concat(unit);
    if size < 0 {
        "-".to_owned().concat(r.as_str())
    } else {
        r
    }
}

} // verus!
