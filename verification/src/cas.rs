//! LRU sweep of Bazel's repository cache CAS.
//!
//! The repository cache (`<output_user_root>/cache/repos/v1/content_addressable/<algo>/
//! <hash>/<file>`) holds every external archive bazel has ever downloaded, forever --
//! it has no eviction of its own. Everything in it is by definition re-fetchable, so
//! evicting a hot entry costs one download over the lab link, not a rebuild.
//!
//! atime is the right signal here (an entry is *read* on cache hit, not written), with
//! one caveat worth knowing: these filesystems mount `relatime`, which only refreshes
//! atime when the existing one is over 24h stale. So an atime can lag real access by up
//! to 24h, and a 48h cutoff can evict something last touched ~24h ago. That is a
//! re-download, not a correctness problem -- but it is why the cutoff should stay
//! comfortably above 24h.

use crate::order;
use crate::paths;
use crate::util::{Hours, Timestamp};
use std::collections::VecDeque;
use vstd::prelude::*;
use vstd::slice::*;

verus! {

/// The default cutoff in hours for direct callers of [`stale`].
pub const DEFAULT_MAX_AGE_HOURS: i32 = 48;

/// The content-addressable store under a repository cache.
pub open spec fn store_root(output_user_root: Seq<u8>) -> Seq<u8> {
    paths::joined_text(
        paths::joined_text(
            paths::joined_text(paths::joined_text(output_user_root, "cache"@), "repos"@),
            "v1"@,
        ),
        "content_addressable"@,
    )
}

/// The content-addressable store under a repository cache.
pub fn cas_root(output_user_root: &[u8]) -> (r: Vec<u8>)
    ensures
        r@ == store_root(output_user_root@),
{
    let cache = paths::join_text(output_user_root, "cache");
    let repos = paths::join_text(cache.as_slice(), "repos");
    let v1 = paths::join_text(repos.as_slice(), "v1");
    paths::join_text(v1.as_slice(), "content_addressable")
}

/// One cached file in the CAS.
#[derive(Debug, Clone)]
pub struct CasEntry {
    pub path: Vec<u8>,
    pub atime: Timestamp,
    /// Apparent size in bytes; space actually reclaimed is measured in the reaper.
    pub size: u64,
    pub nlink: u64,
}

/// A cached file over the bytes of its path.
pub struct EntryView {
    pub path: Seq<u8>,
    pub atime: Timestamp,
    pub size: u64,
    pub nlink: u64,
}

impl CasEntry {
    /// The entry over the bytes of its path.
    pub open spec fn view(self) -> EntryView {
        EntryView { path: self.path@, atime: self.atime, size: self.size, nlink: self.nlink }
    }

    /// Whether this file is hardlinked elsewhere.
    ///
    /// Defensive, not load-bearing: bazel *copies* cache entries into output bases by
    /// default. It only becomes real under --experimental_repository_cache_hardlinks,
    /// where unlinking an entry would free nothing until the base holding the other link
    /// goes too.
    pub fn shared(&self) -> (r: bool)
        ensures
            r == (self.nlink > 1),
    {
        self.nlink > 1
    }
}

/// One call that a scan needs, `P` being a path.
#[derive(Debug)]
pub enum CasRequest<P> {
    /// Read the names in a directory.
    List(P),
    /// `lstat` the path: is it a directory, a symlink to one aside?
    Lstat(P),
    /// `stat` the path, symlinks followed.
    Stat(P),
}

impl CasRequest<Vec<u8>> {
    /// The request over the path's bytes.
    pub open spec fn view(self) -> CasRequest<Seq<u8>> {
        match self {
            CasRequest::List(p) => CasRequest::List(p@),
            CasRequest::Lstat(p) => CasRequest::Lstat(p@),
            CasRequest::Stat(p) => CasRequest::Stat(p@),
        }
    }
}

/// What `stat` says of a path, symlinks followed.
#[derive(Debug, Clone, Copy)]
pub struct FileStat {
    pub is_file: bool,
    pub atime: Timestamp,
    pub size: u64,
    pub nlink: u64,
}

/// The answer to a [`CasRequest`].
#[derive(Debug)]
pub enum CasReply {
    /// The names in a directory, an unreadable one as none; none if it cannot be read.
    Names(Option<Vec<Option<Vec<u8>>>>),
    /// Whether the path is itself a directory; none if the call failed.
    RealDir(Option<bool>),
    /// What the path leads to; none if the call failed.
    Target(Option<FileStat>),
}

impl CasReply {
    /// The reply is of the kind that the request calls for.
    pub open spec fn answers<P>(self, request: CasRequest<P>) -> bool {
        match request {
            CasRequest::List(_) => self is Names,
            CasRequest::Lstat(_) => self is RealDir,
            CasRequest::Stat(_) => self is Target,
        }
    }

    /// Every name given is a single ordinary component.
    pub open spec fn names_are_plain(self) -> bool {
        match self {
            CasReply::Names(Some(names)) => forall|i: int|
                0 <= i < readable(names@).len() ==> paths::plain_name(
                    #[trigger] readable(names@)[i]@,
                ),
            _ => true,
        }
    }
}

/// The names that could be read.
pub open spec fn readable(names: Seq<Option<Vec<u8>>>) -> Seq<Vec<u8>>
    decreases names.len(),
{
    if names.len() == 0 {
        seq![]
    } else {
        let before = readable(names.drop_last());
        match names.last() {
            Some(name) => before.push(name),
            None => before,
        }
    }
}

/// The paths of the given names in `d`, sorted.
pub open spec fn sorted_children(d: Seq<u8>, names: Seq<Vec<u8>>) -> Seq<Seq<u8>> {
    order::order_of(names).map_values(|i: int| paths::joined(d, names[i]@))
}

/// One pending step of a scan, `P` being a path.
#[derive(Debug)]
pub enum CasTask<P> {
    /// Read a directory.
    List(P),
    /// Read the path if it is itself a directory, else look at it.
    Enter(P),
    /// Take the path if it leads to a regular file.
    Look(P),
}

impl CasTask<Vec<u8>> {
    /// The task over the path's bytes.
    pub open spec fn view(self) -> CasTask<Seq<u8>> {
        match self {
            CasTask::List(p) => CasTask::List(p@),
            CasTask::Enter(p) => CasTask::Enter(p@),
            CasTask::Look(p) => CasTask::Look(p@),
        }
    }
}

impl CasTask<Seq<u8>> {
    /// The path that the task is about.
    pub open spec fn path(self) -> Seq<u8> {
        match self {
            CasTask::List(p) => p,
            CasTask::Enter(p) => p,
            CasTask::Look(p) => p,
        }
    }

    /// The call that the task makes.
    pub open spec fn request(self) -> CasRequest<Seq<u8>> {
        match self {
            CasTask::List(p) => CasRequest::List(p),
            CasTask::Enter(p) => CasRequest::Lstat(p),
            CasTask::Look(p) => CasRequest::Stat(p),
        }
    }

    /// What is left to do in the task's place once it is answered. Only *real* directories
    /// are entered, never a symlinked one.
    pub open spec fn follow_up(self, reply: CasReply) -> Seq<CasTask<Seq<u8>>> {
        match (self, reply) {
            (CasTask::List(d), CasReply::Names(Some(names))) => sorted_children(
                d,
                readable(names@),
            ).map_values(|p: Seq<u8>| CasTask::Enter(p)),
            (CasTask::Enter(p), CasReply::RealDir(is_dir)) => if is_dir == Some(true) {
                seq![CasTask::List(p)]
            } else {
                seq![CasTask::Look(p)]
            },
            _ => seq![],
        }
    }

    /// The entry that the answer shows, if it shows one: a path that leads to a regular
    /// file.
    pub open spec fn shown(self, reply: CasReply) -> Option<EntryView> {
        match (self, reply) {
            (CasTask::Look(p), CasReply::Target(Some(stat))) => if stat.is_file {
                Some(
                    EntryView { path: p, atime: stat.atime, size: stat.size, nlink: stat.nlink },
                )
            } else {
                None
            },
            _ => None,
        }
    }
}

/// Where a scan stands.
pub struct CasState {
    /// What is left to do, the next task first.
    pub todo: Seq<CasTask<Seq<u8>>>,
    /// The entries found so far.
    pub found: Seq<EntryView>,
}

impl CasState {
    /// The scan before its first call. There is nothing to do in a store that is not there.
    pub open spec fn start(root: Seq<u8>, present: bool) -> CasState {
        CasState {
            todo: if present {
                seq![CasTask::List(root)]
            } else {
                seq![]
            },
            found: seq![],
        }
    }

    /// The scan once its next task is answered.
    pub open spec fn after(self, reply: CasReply) -> CasState {
        let task = self.todo[0];
        CasState {
            todo: task.follow_up(reply) + self.todo.skip(1),
            found: match task.shown(reply) {
                Some(entry) => self.found.push(entry),
                None => self.found,
            },
        }
    }
}

/// The census of a CAS, as a run of filesystem calls.
#[derive(Debug)]
pub struct CasScan {
    tasks: VecDeque<CasTask<Vec<u8>>>,
    entries: Vec<CasEntry>,
}

/// Tasks over their paths' bytes.
pub open spec fn task_views(tasks: Seq<CasTask<Vec<u8>>>) -> Seq<CasTask<Seq<u8>>> {
    tasks.map_values(|t: CasTask<Vec<u8>>| t.view())
}

/// Entries over their paths' bytes.
pub open spec fn entry_views(entries: Seq<CasEntry>) -> Seq<EntryView> {
    entries.map_values(|e: CasEntry| e.view())
}

/// Every file in the CAS, given whether its root exists.
///
/// Recurses only into *real* directories, and for every other entry stats with symlinks
/// followed, keeping the ones that resolve to a regular file.
pub fn iter_entries(root: &[u8], present: bool) -> (r: CasScan)
    ensures
        r@ == CasState::start(root@, present),
{
    let mut tasks: VecDeque<CasTask<Vec<u8>>> = VecDeque::new();
    if present {
        tasks.push_back(CasTask::List(slice_to_vec(root)));
    }
    let r = CasScan { tasks, entries: Vec::new() };
    assert(r@.todo =~= CasState::start(root@, present).todo);
    assert(r@.found =~= CasState::start(root@, present).found);
    r
}

/// The names that could be read.
fn readable_names(names: Vec<Option<Vec<u8>>>) -> (r: Vec<Vec<u8>>)
    ensures
        r@ == readable(names@),
{
    let mut r: Vec<Vec<u8>> = Vec::new();
    let ghost all = names@;
    assert(all.take(0) =~= seq![]);
    for name in it: names
        invariant
            it.seq() == all,
            r@ == readable(all.take(it.index() as int)),
    {
        assert(all.take(it.index() + 1).drop_last() =~= all.take(it.index() as int));
        match name {
            Some(name) => {
                r.push(name);
            },
            None => {},
        }
    }
    assert(all.take(all.len() as int) =~= all);
    r
}

impl CasScan {
    /// Where the scan stands.
    pub closed spec fn view(self) -> CasState {
        CasState { todo: task_views(self.tasks@), found: entry_views(self.entries@) }
    }

    /// The call that the scan needs next, or none when it is finished.
    pub fn next(&self) -> (r: Option<CasRequest<Vec<u8>>>)
        ensures
            match r {
                Some(request) => self@.todo.len() > 0 && request@ == self@.todo[0].request(),
                None => self@.todo.len() == 0,
            },
    {
        if self.tasks.len() == 0 {
            return None;
        }
        let task: &CasTask<Vec<u8>> = &self.tasks[0];
        assert(self@.todo[0] == task.view());
        Some(
            match task {
                CasTask::List(p) => CasRequest::List(slice_to_vec(p.as_slice())),
                CasTask::Enter(p) => CasRequest::Lstat(slice_to_vec(p.as_slice())),
                CasTask::Look(p) => CasRequest::Stat(slice_to_vec(p.as_slice())),
            },
        )
    }

    /// Puts the sorted children of a directory before everything else there is to do.
    fn enter_children(&mut self, d: &[u8], names: Vec<Vec<u8>>)
        ensures
            final(self)@.todo == sorted_children(d@, names@).map_values(
                |p: Seq<u8>| CasTask::Enter(p),
            ) + old(self)@.todo,
            final(self)@.found == old(self)@.found,
    {
        let sorted = order::sorted_order(&names);
        let ghost children = sorted_children(d@, names@).map_values(
            |p: Seq<u8>| CasTask::Enter(p),
        );
        let ghost rest = self@.todo;
        let ghost found = self@.found;
        let mut n: usize = sorted.len();
        assert(children.skip(n as int) + rest =~= rest);
        while n > 0
            invariant
                n <= sorted@.len(),
                order::stable_order(names@, order::indices(sorted@)),
                order::indices(sorted@) == order::order_of(names@),
                children == sorted_children(d@, names@).map_values(
                    |p: Seq<u8>| CasTask::Enter(p),
                ),
                self@.todo == children.skip(n as int) + rest,
                self@.found == found,
            decreases n,
        {
            n = n - 1;
            let ghost before = self.tasks@;
            let ghost i = order::indices(sorted@)[n as int];
            assert(i == sorted@[n as int]);
            self.tasks.push_front(CasTask::Enter(paths::join(d, names[sorted[n]].as_slice())));
            assert(self@.todo =~= seq![children[n as int]] + task_views(before));
            assert(children.skip(n as int) =~= seq![children[n as int]] + children.skip(n + 1));
            assert(self@.todo =~= children.skip(n as int) + rest);
        }
        assert(children.skip(0) =~= children);
    }

    /// Takes the answer to the call that the scan needed.
    pub fn feed(&mut self, reply: CasReply)
        requires
            old(self)@.todo.len() > 0,
            reply.answers(old(self)@.todo[0].request()),
        ensures
            final(self)@ == old(self)@.after(reply),
    {
        let ghost state = self@;
        let ghost todo = self.tasks@;
        assert(task_views(todo.skip(1)) =~= state.todo.skip(1));
        match self.tasks.pop_front() {
            Some(task) => {
                assert(task.view() == state.todo[0]);
                let ghost rest = self@.todo;
                assert(rest == state.todo.skip(1));
                match (task, reply) {
                    (CasTask::List(d), CasReply::Names(Some(names))) => {
                        self.enter_children(d.as_slice(), readable_names(names));
                    },
                    (CasTask::Enter(p), CasReply::RealDir(is_dir)) => {
                        let enter: bool = match is_dir {
                            Some(b) => b,
                            None => false,
                        };
                        let ghost before = self.tasks@;
                        if enter {
                            self.tasks.push_front(CasTask::List(p));
                        } else {
                            self.tasks.push_front(CasTask::Look(p));
                        }
                        assert(self@.todo =~= state.todo[0].follow_up(reply) + task_views(before));
                    },
                    (CasTask::Look(p), CasReply::Target(Some(stat))) => {
                        let ghost before = self.entries@;
                        if stat.is_file {
                            self.entries.push(
                                CasEntry {
                                    path: p,
                                    atime: stat.atime,
                                    size: stat.size,
                                    nlink: stat.nlink,
                                },
                            );
                            assert(self@.found =~= entry_views(before).push(
                                state.todo[0].shown(reply)->0,
                            ));
                        }
                        assert(seq![] + rest =~= rest);
                    },
                    _ => {
                        assert(seq![] + rest =~= rest);
                    },
                }
                assert(self@.todo =~= state.after(reply).todo);
            },
            None => {},
        }
    }

    /// What the finished scan found.
    pub fn entries(self) -> (r: Vec<CasEntry>)
        requires
            self@.todo.len() == 0,
        ensures
            entry_views(r@) == self@.found,
    {
        self.entries
    }
}

/// The entry was last read longer ago than the cutoff.
pub open spec fn unread(entry: CasEntry, now: Timestamp, max_age: Hours) -> bool {
    max_age.passed(now.ns() - entry.atime.ns())
}

/// The entries not read within `max_age`, in order.
pub open spec fn unread_among(
    entries: Seq<CasEntry>,
    now: Timestamp,
    max_age: Hours,
) -> Seq<CasEntry> {
    entries.filter(|e: CasEntry| unread(e, now, max_age))
}

/// The entries not read within `max_age`.
pub fn stale(entries: Vec<CasEntry>, now: Timestamp, max_age: Hours) -> (r: Vec<CasEntry>)
    ensures
        r@ == unread_among(entries@, now, max_age),
{
    let mut r: Vec<CasEntry> = Vec::new();
    let ghost all = entries@;
    let ghost doomed = |e: CasEntry| unread(e, now, max_age);
    proof {
        reveal(Seq::filter);
        assert(all.take(0) =~= seq![]);
        assert(all.take(0).filter(doomed) =~= seq![]);
    }
    for e in it: entries
        invariant
            it.seq() == all,
            doomed == (|e: CasEntry| unread(e, now, max_age)),
            r@ == all.take(it.index() as int).filter(doomed),
    {
        proof {
            reveal(Seq::filter);
            assert(all.take(it.index() + 1).drop_last() =~= all.take(it.index() as int));
        }
        if max_age.is_passed(now.since(e.atime)) {
            r.push(e);
        }
    }
    assert(all.take(all.len() as int) =~= all);
    r
}

} // verus!
