//! A tree removal call by call: what each answer leads to, what is counted, and what is said in
//! the end.

use crate::disk::{Listed, Reply, Request};
use crate::paths;
use crate::reaper;
use crate::reaper::{Task, TreeState};
use crate::reaper_laws;
use crate::text;
use vstd::prelude::*;

verus! {

/// The call that the removal of the tree at `root` makes next, once it was given these answers.
pub open spec fn next_call(root: Seq<u8>, replies: Seq<Reply>) -> Option<Request<Seq<u8>>> {
    let todo = reaper_laws::run(TreeState::start(root, false), replies).todo;
    if todo.len() > 0 {
        Some(todo[0].request())
    } else {
        None
    }
}

/// Nothing was counted, and nothing was said, in between.
pub open spec fn counts_are_kept(before: TreeState, after: TreeState) -> bool {
    &&& after.freed == before.freed
    &&& after.failures == before.failures
    &&& after.error == before.error
}

/// A request and its answer are of a kind: a listing answers a read of a directory, a stat an
/// `lstat`, and everything else says whether a change was made. Nothing more is asked of an
/// answer.
pub proof fn law_answers_fit_by_their_kind(p: Seq<u8>, mode: u32, reply: Reply)
    ensures
        reply.answers(Request::List(p)) <==> reply is Listing,
        reply.answers(Request::Lstat(p)) <==> reply is Stat,
        reply.answers(Request::Chmod(p, mode)) <==> reply is Done,
        reply.answers(Request::Unlink(p)) <==> reply is Done,
        reply.answers(Request::Rmdir(p)) <==> reply is Done,
{
}

/// A request over bytes is the same request over the bytes' sequence.
pub proof fn law_requests_keep_their_kind(p: Vec<u8>, mode: u32)
    ensures
        Request::List(p)@ == Request::List(p@),
        Request::Lstat(p)@ == Request::Lstat(p@),
        Request::Chmod(p, mode)@ == Request::Chmod(p@, mode),
        Request::Unlink(p)@ == Request::Unlink(p@),
        Request::Rmdir(p)@ == Request::Rmdir(p@),
{
}

/// A dry run makes no call. Else the root is read first, and if that fails it is the next to go.
pub proof fn law_removal_starts_at_the_root(root: Seq<u8>, dry_run: bool)
    ensures
        dry_run ==> TreeState::start(root, dry_run).todo.len() == 0,
        next_call(root, seq![]) == Some(Request::List(root)),
        next_call(root, seq![Reply::Listing(None)]) == Some(Request::Rmdir(root)),
        TreeState::start(root, false).todo.len() == 2,
        TreeState::start(root, dry_run).freed == 0,
        TreeState::start(root, dry_run).failures == 0,
        TreeState::start(root, dry_run).error is None,
{
    let one = seq![Reply::Listing(None)];
    assert(one.drop_last() =~= seq![]);
    assert(reaper_laws::run(TreeState::start(root, false), one) == reaper_laws::run(
        TreeState::start(root, false),
        one.drop_last(),
    ).after(one.last()));
}

/// The paths of those entries of a listing of `d` that can be read and that `wanted` picks out,
/// in the order listed.
pub open spec fn listed_paths(
    d: Seq<u8>,
    entries: Seq<Option<Listed>>,
    wanted: spec_fn(Listed) -> bool,
) -> Seq<Seq<u8>> {
    entries.filter(|e: Option<Listed>| e is Some && wanted(e->0)).map_values(
        |e: Option<Listed>| paths::joined(d, e->0.name@),
    )
}

proof fn lemma_children_are_listed(d: Seq<u8>, entries: Seq<Option<Listed>>)
    ensures
        reaper::children(d, entries, true) == listed_paths(
            d,
            entries,
            |l: Listed| l.leads_to_dir == Some(true),
        ),
        reaper::children(d, entries, false) == listed_paths(
            d,
            entries,
            |l: Listed| l.leads_to_dir != Some(true),
        ),
    decreases entries.len(),
{
    reveal(Seq::filter);
    let dir = |l: Listed| l.leads_to_dir == Some(true);
    let other = |l: Listed| l.leads_to_dir != Some(true);
    if entries.len() == 0 {
        assert(listed_paths(d, entries, dir) =~= seq![]);
        assert(listed_paths(d, entries, other) =~= seq![]);
    } else {
        lemma_children_are_listed(d, entries.drop_last());
        assert(reaper::children(d, entries, true) =~= listed_paths(d, entries, dir));
        assert(reaper::children(d, entries, false) =~= listed_paths(d, entries, other));
    }
}

/// When a directory has been read, each of its entries is dealt with and nothing else is added:
/// every entry that leads to a directory is first looked at, to be walked, then the directory is
/// looked at, to be made writable, then every other entry is looked at, to be unlinked, and at
/// last every entry that leads to a directory is removed as one, all in the order listed. What
/// there was to do before comes after that.
pub proof fn law_listed_entries_are_all_dealt_with(
    root: Seq<u8>,
    replies: Seq<Reply>,
    k: int,
    d: Seq<u8>,
    entries: Vec<Option<Listed>>,
)
    requires
        reaper_laws::fed(TreeState::start(root, false), replies),
        0 <= k < replies.len(),
        reaper_laws::answered(TreeState::start(root, false), replies, k).request() == Request::List(
            d,
        ),
        replies[k] == Reply::Listing(Some(entries)),
    ensures
        ({
            let start = TreeState::start(root, false);
            let before = reaper_laws::run(start, replies.take(k)).todo;
            let after = reaper_laws::run(start, replies.take(k + 1)).todo;
            let dirs = listed_paths(d, entries@, |l: Listed| l.leads_to_dir == Some(true));
            let others = listed_paths(d, entries@, |l: Listed| l.leads_to_dir != Some(true));
            let n = dirs.len() as int;
            let m = others.len() as int;
            &&& counts_are_kept(
                reaper_laws::run(start, replies.take(k)),
                reaper_laws::run(start, replies.take(k + 1)),
            )
            &&& after.len() == n + 1 + m + n + before.len() - 1
            &&& forall|i: int|
                0 <= i < n ==> #[trigger] after[i] == Task::Descend(dirs[i]) && after[i].request()
                    == Request::Lstat(dirs[i])
            &&& after[n] == Task::Relax(d) && after[n].request() == Request::Lstat(d)
            &&& forall|i: int|
                n + 1 <= i < n + 1 + m ==> #[trigger] after[i] == Task::Weigh(others[i - n - 1])
                    && after[i].request() == Request::Lstat(others[i - n - 1])
            &&& forall|i: int|
                n + 1 + m <= i < n + 1 + m + n ==> #[trigger] after[i] == Task::Prune(
                    dirs[i - n - 1 - m],
                ) && after[i].request() == Request::Rmdir(dirs[i - n - 1 - m])
            &&& forall|i: int|
                n + 1 + m + n <= i < after.len() ==> #[trigger] after[i] == before[i - n - 1 - m - n
                    + 1]
        }),
{
    let start = TreeState::start(root, false);
    reaper_laws::lemma_fed_at(start, replies, k);
    lemma_children_are_listed(d, entries@);
    assert(reaper_laws::answered(start, replies, k) == Task::Walk(d));
}

/// A directory that cannot be read is left alone: nothing is added, and nothing is counted.
pub proof fn law_unreadable_directory_adds_nothing(root: Seq<u8>, replies: Seq<Reply>, k: int)
    requires
        reaper_laws::fed(TreeState::start(root, false), replies),
        0 <= k < replies.len(),
        replies[k] == Reply::Listing(None),
    ensures
        ({
            let start = TreeState::start(root, false);
            let before = reaper_laws::run(start, replies.take(k));
            let after = reaper_laws::run(start, replies.take(k + 1));
            &&& after.todo == before.todo.skip(1)
            &&& after.freed == before.freed
            &&& after.failures == before.failures
            &&& after.error == before.error
        }),
{
    let start = TreeState::start(root, false);
    reaper_laws::lemma_fed_at(start, replies, k);
    let rest = reaper_laws::run(start, replies.take(k)).todo.skip(1);
    assert(Seq::<Task<Seq<u8>>>::empty() + rest =~= rest);
}

/// A listed directory that is looked at before a walk is walked next, whatever is said of it but
/// that it is a symlink; and if it is one, it is not.
pub proof fn law_directory_is_walked_unless_a_symlink(
    root: Seq<u8>,
    replies: Seq<Reply>,
    k: int,
    d: Seq<u8>,
)
    requires
        reaper_laws::fed(TreeState::start(root, false), replies),
        0 <= k < replies.len(),
        reaper_laws::answered(TreeState::start(root, false), replies, k) == Task::Descend(d),
    ensures
        ({
            let start = TreeState::start(root, false);
            let before = reaper_laws::run(start, replies.take(k)).todo;
            let after = reaper_laws::run(start, replies.take(k + 1)).todo;
            let is_symlink = match replies[k] {
                Reply::Stat(Ok(stat)) => stat.symlink,
                _ => false,
            };
            &&& counts_are_kept(
                reaper_laws::run(start, replies.take(k)),
                reaper_laws::run(start, replies.take(k + 1)),
            )
            &&& before[0].request() == Request::Lstat(d)
            &&& is_symlink ==> after == before.skip(1)
            &&& !is_symlink ==> {
                &&& next_call(root, replies.take(k + 1)) == Some(Request::List(d))
                &&& after.skip(1) == before.skip(1)
            }
        }),
{
    let start = TreeState::start(root, false);
    reaper_laws::lemma_fed_at(start, replies, k);
    let rest = reaper_laws::run(start, replies.take(k)).todo.skip(1);
    let after = reaper_laws::run(start, replies.take(k + 1)).todo;
    assert(Seq::<Task<Seq<u8>>>::empty() + rest =~= rest);
    assert((seq![Task::Walk(d)] + rest).skip(1) =~= rest);
}

/// A finished removal has read every directory that it was shown, but for symlinks to one.
pub proof fn law_every_real_directory_is_read(
    root: Seq<u8>,
    replies: Seq<Reply>,
    k: int,
    d: Seq<u8>,
    entries: Vec<Option<Listed>>,
    i: int,
) -> (m: int)
    requires
        reaper_laws::fed(TreeState::start(root, false), replies),
        reaper_laws::run(TreeState::start(root, false), replies).todo.len() == 0,
        0 <= k < replies.len(),
        reaper_laws::answered(TreeState::start(root, false), replies, k).request() == Request::List(
            d,
        ),
        replies[k] == Reply::Listing(Some(entries)),
        0 <= i < entries@.len(),
        entries@[i] matches Some(l) && l.leads_to_dir == Some(true),
    ensures
        k < m < replies.len(),
        ({
            let start = TreeState::start(root, false);
            let path = paths::joined(d, entries@[i]->0.name@);
            &&& reaper_laws::answered(start, replies, m).request() == Request::Lstat(path)
            &&& (replies[m] matches Reply::Stat(Ok(stat)) && stat.symlink) || (m + 1
                < replies.len() && reaper_laws::answered(start, replies, m + 1).request()
                == Request::List(path))
        }),
{
    let start = TreeState::start(root, false);
    let path = paths::joined(d, entries@[i]->0.name@);
    let dirs = listed_paths(d, entries@, |l: Listed| l.leads_to_dir == Some(true));
    let wanted = |e: Option<Listed>| e is Some && e->0.leads_to_dir == Some(true);
    law_listed_entries_are_all_dealt_with(root, replies, k, d, entries);
    assert(entries@.filter(wanted).contains(entries@[i]));
    let j = choose|j: int|
        0 <= j < entries@.filter(wanted).len() && entries@.filter(wanted)[j] == entries@[i];
    assert(dirs =~= entries@.filter(wanted).map_values(
        |e: Option<Listed>| paths::joined(d, e->0.name@),
    )) by {
        let dir = |l: Listed| l.leads_to_dir == Some(true);
        let same = |e: Option<Listed>| e is Some && dir(e->0);
        assert(same =~= wanted);
    }
    assert(dirs[j] == path);
    let after = reaper_laws::run(start, replies.take(k + 1)).todo;
    assert(after[j] == Task::Descend(path));
    reaper_laws::law_nothing_is_skipped(root, replies, k + 1, j);
    let m = choose|m: int|
        k + 1 <= m < replies.len() && #[trigger] reaper_laws::answered(start, replies, m)
            == after[j];
    law_directory_is_walked_unless_a_symlink(root, replies, m, path);
    if m + 1 == replies.len() {
        assert(replies.take(m + 1) =~= replies);
    }
    m
}

/// A directory about to be emptied is given the owner's write bit, and no other, if it lacks it;
/// else, or if nothing is known of it, its mode is left as it is.
pub proof fn law_directory_is_made_writable(
    root: Seq<u8>,
    replies: Seq<Reply>,
    k: int,
    d: Seq<u8>,
)
    requires
        reaper_laws::fed(TreeState::start(root, false), replies),
        0 <= k < replies.len(),
        reaper_laws::answered(TreeState::start(root, false), replies, k) == Task::Relax(d),
    ensures
        ({
            let start = TreeState::start(root, false);
            let before = reaper_laws::run(start, replies.take(k)).todo;
            let after = reaper_laws::run(start, replies.take(k + 1)).todo;
            &&& counts_are_kept(
                reaper_laws::run(start, replies.take(k)),
                reaper_laws::run(start, replies.take(k + 1)),
            )
            &&& before[0].request() == Request::Lstat(d)
            &&& match replies[k] {
                Reply::Stat(Ok(stat)) => if stat.mode & 0o200 == 0 {
                    &&& next_call(root, replies.take(k + 1)) == Some(
                        Request::Chmod(d, stat.mode | 0o200),
                    )
                    &&& after.skip(1) == before.skip(1)
                } else {
                    after == before.skip(1)
                },
                _ => after == before.skip(1),
            }
        }),
{
    let start = TreeState::start(root, false);
    reaper_laws::lemma_fed_at(start, replies, k);
    let rest = reaper_laws::run(start, replies.take(k)).todo.skip(1);
    assert(Seq::<Task<Seq<u8>>>::empty() + rest =~= rest);
    match replies[k] {
        Reply::Stat(Ok(stat)) => {
            assert((seq![Task::Grant(d, stat.mode | 0o200)] + rest).skip(1) =~= rest);
        },
        _ => {},
    }
}

/// Whether a mode could be set makes no difference: the removal goes on as it would have.
pub proof fn law_mode_set_or_not_the_removal_goes_on(root: Seq<u8>, replies: Seq<Reply>, k: int)
    requires
        reaper_laws::fed(TreeState::start(root, false), replies),
        0 <= k < replies.len(),
        reaper_laws::answered(TreeState::start(root, false), replies, k).request() is Chmod,
    ensures
        ({
            let start = TreeState::start(root, false);
            let before = reaper_laws::run(start, replies.take(k));
            let after = reaper_laws::run(start, replies.take(k + 1));
            &&& after.todo == before.todo.skip(1)
            &&& after.freed == before.freed
            &&& after.failures == before.failures
            &&& after.error == before.error
        }),
{
    let start = TreeState::start(root, false);
    reaper_laws::lemma_fed_at(start, replies, k);
    let rest = reaper_laws::run(start, replies.take(k)).todo.skip(1);
    assert(Seq::<Task<Seq<u8>>>::empty() + rest =~= rest);
}

/// A file that could be looked at is unlinked next. If that works, the bytes of its blocks count
/// as freed exactly if the look had found one link; if it fails, the file counts as a failure
/// unless it is missing. A file that could not be looked at is passed over, and counts as a
/// failure unless it is missing.
pub proof fn law_file_is_weighed_and_unlinked(
    root: Seq<u8>,
    replies: Seq<Reply>,
    k: int,
    f: Seq<u8>,
)
    requires
        reaper_laws::fed(TreeState::start(root, false), replies),
        0 <= k < replies.len(),
        reaper_laws::answered(TreeState::start(root, false), replies, k) == Task::Weigh(f),
    ensures
        ({
            let start = TreeState::start(root, false);
            let before = reaper_laws::run(start, replies.take(k));
            let after = reaper_laws::run(start, replies.take(k + 1));
            &&& before.todo[0].request() == Request::Lstat(f)
            &&& after.freed == before.freed
            &&& after.error == before.error
            &&& replies[k] matches Reply::Stat(Err(e)) ==> {
                &&& after.todo == before.todo.skip(1)
                &&& after.failures == before.failures + if e.kind is NotFound {
                    0int
                } else {
                    1
                }
            }
            &&& replies[k] matches Reply::Stat(Ok(stat)) ==> {
                &&& next_call(root, replies.take(k + 1)) == Some(Request::Unlink(f))
                &&& after.todo.skip(1) == before.todo.skip(1)
                &&& after.failures == before.failures
                &&& k + 1 < replies.len() ==> {
                    let done = reaper_laws::run(start, replies.take(k + 2));
                    &&& done.todo == before.todo.skip(1)
                    &&& done.error == before.error
                    &&& replies[k + 1] matches Reply::Done(Ok(_)) ==> {
                        &&& done.failures == before.failures
                        &&& stat.nlink == 1 ==> done.freed == before.freed + stat.blocks * 512
                        &&& stat.nlink != 1 ==> done.freed == before.freed
                    }
                    &&& replies[k + 1] matches Reply::Done(Err(e)) ==> {
                        &&& done.freed == before.freed
                        &&& done.failures == before.failures + if e.kind is NotFound {
                            0int
                        } else {
                            1
                        }
                    }
                }
            }
        }),
{
    let start = TreeState::start(root, false);
    reaper_laws::lemma_fed_at(start, replies, k);
    let before = reaper_laws::run(start, replies.take(k));
    let rest = before.todo.skip(1);
    assert(Seq::<Task<Seq<u8>>>::empty() + rest =~= rest);
    match replies[k] {
        Reply::Stat(Ok(stat)) => {
            let unlink = Task::Unlink(f, stat.nlink, stat.blocks);
            assert((seq![unlink] + rest).skip(1) =~= rest);
            if k + 1 < replies.len() {
                reaper_laws::lemma_fed_at(start, replies, k + 1);
                assert(reaper_laws::run(start, replies.take(k + 1)).todo[0] == unlink);
            }
        },
        _ => {},
    }
}

/// A subdirectory that cannot be removed as one, for any reason but that it is missing, is
/// unlinked next, in case it is a symlink; it counts as a failure exactly if that fails too, for
/// any reason but that it is missing. Nothing is counted as freed.
pub proof fn law_subdirectory_is_removed_or_unlinked(
    root: Seq<u8>,
    replies: Seq<Reply>,
    k: int,
    d: Seq<u8>,
)
    requires
        reaper_laws::fed(TreeState::start(root, false), replies),
        0 <= k < replies.len(),
        reaper_laws::answered(TreeState::start(root, false), replies, k) == Task::Prune(d),
    ensures
        ({
            let start = TreeState::start(root, false);
            let before = reaper_laws::run(start, replies.take(k));
            let after = reaper_laws::run(start, replies.take(k + 1));
            let refused = replies[k] matches Reply::Done(Err(e)) && !(e.kind is NotFound);
            &&& before.todo[0].request() == Request::Rmdir(d)
            &&& after.freed == before.freed
            &&& after.failures == before.failures
            &&& after.error == before.error
            &&& !refused ==> after.todo == before.todo.skip(1)
            &&& refused ==> {
                &&& next_call(root, replies.take(k + 1)) == Some(Request::Unlink(d))
                &&& after.todo.skip(1) == before.todo.skip(1)
                &&& k + 1 < replies.len() ==> {
                    let done = reaper_laws::run(start, replies.take(k + 2));
                    &&& done.todo == before.todo.skip(1)
                    &&& done.freed == before.freed
                    &&& done.error == before.error
                    &&& done.failures == before.failures + if replies[k + 1] matches Reply::Done(
                        Err(e),
                    ) && !(e.kind is NotFound) {
                        1int
                    } else {
                        0
                    }
                }
            }
        }),
{
    let start = TreeState::start(root, false);
    reaper_laws::lemma_fed_at(start, replies, k);
    let before = reaper_laws::run(start, replies.take(k));
    let rest = before.todo.skip(1);
    assert(Seq::<Task<Seq<u8>>>::empty() + rest =~= rest);
    assert((seq![Task::PruneLink(d)] + rest).skip(1) =~= rest);
    if replies[k] matches Reply::Done(Err(e)) && !(e.kind is NotFound) && k + 1 < replies.len() {
        reaper_laws::lemma_fed_at(start, replies, k + 1);
        assert(reaper_laws::run(start, replies.take(k + 1)).todo[0] == Task::PruneLink(d));
    }
}

/// The root goes last, by the only call of that kind that is not for an entry, and the message
/// of a refusal, unless it says that the root is missing, is what the removal reports.
pub proof fn law_root_goes_last(root: Seq<u8>, replies: Seq<Reply>, k: int, p: Seq<u8>)
    requires
        reaper_laws::fed(TreeState::start(root, false), replies),
        0 <= k < replies.len(),
        reaper_laws::answered(TreeState::start(root, false), replies, k) == Task::RemoveRoot(p),
    ensures
        ({
            let start = TreeState::start(root, false);
            let before = reaper_laws::run(start, replies.take(k));
            let after = reaper_laws::run(start, replies.take(k + 1));
            &&& before.todo[0].request() == Request::Rmdir(p)
            &&& after.todo == before.todo.skip(1)
            &&& after.freed == before.freed
            &&& after.failures == before.failures
            &&& after.error == match replies[k] {
                Reply::Done(Err(e)) => if e.kind is NotFound {
                    before.error
                } else {
                    Some(e.message@)
                },
                _ => before.error,
            }
        }),
{
    let start = TreeState::start(root, false);
    reaper_laws::lemma_fed_at(start, replies, k);
    let rest = reaper_laws::run(start, replies.take(k)).todo.skip(1);
    assert(Seq::<Task<Seq<u8>>>::empty() + rest =~= rest);
}

/// What a removal reports: why the root stays, or else how many entries do, or else nothing.
pub proof fn law_verdict_of_a_removal(state: TreeState)
    ensures
        state.error is Some ==> state.verdict() == state.error,
        state.error is None && state.failures > 0 ==> state.verdict() == Some(
            text::decimal(state.failures as nat) + " entries could not be removed"@,
        ),
        state.error is None && state.failures <= 0 ==> state.verdict() is None,
{
}

/// The counts have room for an answer exactly if they do not outgrow 64 bits by it.
pub proof fn law_room_is_64_bits(state: TreeState, reply: Reply)
    requires
        state.todo.len() > 0,
    ensures
        state.room(reply) <==> state.after(reply).freed <= 0xffff_ffff_ffff_ffff && (
        state.after(reply).failures == state.failures || state.after(reply).failures
            <= 0xffff_ffff_ffff_ffff),
{
}

/// The space that an unlink releases: all blocks of 512 bytes on the last link, else none.
pub proof fn law_last_link_releases_the_blocks(nlink: u64, blocks: u64)
    ensures
        reaper::released_bytes(nlink, blocks) == if nlink == 1 {
            blocks * 512
        } else {
            0
        },
{
}

/// The mode that makes a directory writable, where it is needed.
pub proof fn law_writable_mode_has_the_owners_bit(mode: u32)
    ensures
        mode & 0o200 == 0 ==> reaper::writable_mode(mode) == Some(mode | 0o200),
        mode & 0o200 != 0 ==> reaper::writable_mode(mode) is None,
{
}

/// A text that may be absent is its characters.
pub proof fn law_text_is_its_characters(s: Option<String>)
    ensures
        match s {
            Some(t) => reaper::text_of(s) == Some(t@),
            None => reaper::text_of(s) is None,
        },
{
}

/// A task over bytes is the same task over the bytes' sequence, with the numbers that it keeps.
pub proof fn law_tasks_keep_their_kind(p: Vec<u8>, mode: u32, nlink: u64, blocks: u64)
    ensures
        Task::Walk(p)@ == Task::Walk(p@),
        Task::Descend(p)@ == Task::Descend(p@),
        Task::Relax(p)@ == Task::Relax(p@),
        Task::Grant(p, mode)@ == Task::Grant(p@, mode),
        Task::Weigh(p)@ == Task::Weigh(p@),
        Task::Unlink(p, nlink, blocks)@ == Task::Unlink(p@, nlink, blocks),
        Task::Prune(p)@ == Task::Prune(p@),
        Task::PruneLink(p)@ == Task::PruneLink(p@),
        Task::RemoveRoot(p)@ == Task::RemoveRoot(p@),
{
}

} // verus!
