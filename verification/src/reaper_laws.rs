//! What holds of every sweep, whatever the filesystem answers.

use crate::disk;
use crate::disk::{Listed, Reply, Request};
use crate::paths;
use crate::reaper;
use crate::reaper::{FileStage, Task, TreeState};
use vstd::prelude::*;

verus! {

/// A tree sweep once the replies are fed to it, in order.
pub open spec fn run(state: TreeState, replies: Seq<Reply>) -> TreeState
    decreases replies.len(),
{
    if replies.len() == 0 {
        state
    } else {
        run(state, replies.drop_last()).after(replies.last())
    }
}

/// Each of the replies answers the call that the sweep needed by then.
pub open spec fn fed(state: TreeState, replies: Seq<Reply>) -> bool
    decreases replies.len(),
{
    replies.len() > 0 ==> {
        let before = run(state, replies.drop_last());
        &&& fed(state, replies.drop_last())
        &&& before.todo.len() > 0
        &&& replies.last().answers(before.todo[0].request())
    }
}

/// The task that the reply number `k` answers.
pub open spec fn answered(state: TreeState, replies: Seq<Reply>, k: int) -> Task<Seq<u8>> {
    run(state, replies.take(k)).todo[0]
}

/// Every name that a listing gives is a single ordinary component.
pub open spec fn plain_names(replies: Seq<Reply>) -> bool {
    forall|k: int| 0 <= k < replies.len() ==> (#[trigger] replies[k]).names_are_plain()
}

pub(crate) proof fn lemma_plain_prefix(replies: Seq<Reply>, k: int)
    requires
        plain_names(replies),
        0 <= k <= replies.len(),
    ensures
        plain_names(replies.take(k)),
{
    assert forall|i: int| 0 <= i < k implies (
    #[trigger] replies.take(k)[i]).names_are_plain() by {
        assert(replies[i].names_are_plain());
    }
}

proof fn lemma_children(d: Seq<u8>, entries: Seq<Option<Listed>>, subdirs: bool, i: int)
    requires
        forall|k: int|
            0 <= k < entries.len() ==> match #[trigger] entries[k] {
                Some(listed) => paths::plain_name(listed.name@),
                None => true,
            },
        0 <= i < reaper::children(d, entries, subdirs).len(),
    ensures
        exists|name: Seq<u8>|
            paths::plain_name(name) && reaper::children(d, entries, subdirs)[i]
                == #[trigger] paths::joined(d, name),
    decreases entries.len(),
{
    let before = reaper::children(d, entries.drop_last(), subdirs);
    if i < before.len() {
        lemma_children(d, entries.drop_last(), subdirs, i);
    } else {
        let listed = entries.last()->0;
        assert(entries[entries.len() - 1] == entries.last());
        assert(paths::plain_name(listed.name@));
        assert(reaper::children(d, entries, subdirs)[i] == paths::joined(d, listed.name@));
    }
}

/// A task's follow-up is about the task's own path, or about a name listed in it.
proof fn lemma_follow_up_path(task: Task<Seq<u8>>, reply: Reply, i: int)
    requires
        reply.names_are_plain(),
        0 <= i < task.follow_up(reply).len(),
    ensures
        (task.follow_up(reply)[i].path() == task.path() && (task.follow_up(reply).len() == 1
            || task.follow_up(reply)[i] is Relax)) || (task is Walk && exists|name: Seq<u8>|
            paths::plain_name(name) && task.follow_up(reply)[i].path() == #[trigger] paths::joined(
                task.path(),
                name,
            )),
{
    match (task, reply) {
        (Task::Walk(d), Reply::Listing(Some(entries))) => {
            let dirs = reaper::children(d, entries@, true);
            let files = reaper::children(d, entries@, false);
            if i < dirs.len() {
                lemma_children(d, entries@, true, i);
            } else if i == dirs.len() {
            } else if i < dirs.len() + 1 + files.len() {
                lemma_children(d, entries@, false, i - dirs.len() - 1);
            } else {
                lemma_children(d, entries@, true, i - dirs.len() - 1 - files.len());
            }
        },
        _ => {},
    }
}

/// A dry run makes no call at all, frees nothing and fails at nothing.
pub proof fn law_dry_run_does_nothing(root: Seq<u8>, replies: Seq<Reply>)
    requires
        fed(TreeState::start(root, true), replies),
    ensures
        replies.len() == 0,
        run(TreeState::start(root, true), replies).todo.len() == 0,
        run(TreeState::start(root, true), replies).freed == 0,
        run(TreeState::start(root, true), replies).verdict() is None,
    decreases replies.len(),
{
    if replies.len() > 0 {
        law_dry_run_does_nothing(root, replies.drop_last());
    }
}

/// A sweep never names a path outside the tree: every call it makes is for the root, or
/// for a path reached from it by listed names alone.
pub proof fn law_sweep_stays_inside_the_tree(root: Seq<u8>, replies: Seq<Reply>)
    requires
        fed(TreeState::start(root, false), replies),
        plain_names(replies),
    ensures
        forall|i: int|
            0 <= i < run(TreeState::start(root, false), replies).todo.len() ==> paths::inside(
                root,
                (#[trigger] run(TreeState::start(root, false), replies).todo[i]).path(),
            ),
    decreases replies.len(),
{
    let start = TreeState::start(root, false);
    if replies.len() > 0 {
        let before = run(start, replies.drop_last());
        let reply = replies.last();
        let task = before.todo[0];
        lemma_plain_prefix(replies, replies.len() - 1);
        assert(replies.take(replies.len() - 1) =~= replies.drop_last());
        law_sweep_stays_inside_the_tree(root, replies.drop_last());
        assert(replies[replies.len() - 1].names_are_plain());
        let after = run(start, replies);
        let n = task.follow_up(reply).len();
        assert forall|i: int| 0 <= i < after.todo.len() implies paths::inside(
            root,
            (#[trigger] after.todo[i]).path(),
        ) by {
            if i < n {
                lemma_follow_up_path(task, reply, i);
                assert(paths::inside(root, task.path()));
                if after.todo[i].path() != task.path() {
                    let name = choose|name: Seq<u8>|
                        paths::plain_name(name) && task.follow_up(reply)[i].path()
                            == #[trigger] paths::joined(task.path(), name);
                    paths::law_inside_is_closed(root, task.path(), name);
                }
            } else {
                assert(after.todo[i] == before.todo[i - n + 1]);
            }
        }
    }
}

/// Whenever the path is asked about, `lstat` says that it is a symlink.
pub open spec fn told_symlink(state: TreeState, replies: Seq<Reply>, link: Seq<u8>) -> bool {
    forall|k: int|
        0 <= k < replies.len() && (#[trigger] answered(state, replies, k)).request()
            == Request::Lstat(link) ==> match replies[k] {
            Reply::Stat(Ok(stat)) => stat.symlink,
            _ => false,
        }
}

/// A symlink in the tree is never followed: the sweep does not list it, does not set its mode,
/// which would set its target's, and makes no call for anything below it.
pub proof fn law_symlinks_are_not_followed(root: Seq<u8>, link: Seq<u8>, replies: Seq<Reply>)
    requires
        fed(TreeState::start(root, false), replies),
        plain_names(replies),
        paths::under(root, link),
        link.last() != paths::SLASH,
        told_symlink(TreeState::start(root, false), replies, link),
    ensures
        forall|i: int|
            #![trigger run(TreeState::start(root, false), replies).todo[i]]
            0 <= i < run(TreeState::start(root, false), replies).todo.len() ==> {
                let task = run(TreeState::start(root, false), replies).todo[i];
                &&& task.request() != Request::List(link)
                &&& task.path() == link ==> !(task is Relax || task is Grant)
                &&& !paths::under(link, task.path())
            },
    decreases replies.len(),
{
    let start = TreeState::start(root, false);
    if replies.len() > 0 {
        let before = run(start, replies.drop_last());
        let reply = replies.last();
        let task = before.todo[0];
        let last = replies.len() - 1;
        assert forall|k: int| 0 <= k < last implies (#[trigger] answered(
            start,
            replies.drop_last(),
            k,
        )) == answered(start, replies, k) by {
            assert(replies.drop_last().take(k) =~= replies.take(k));
        }
        assert(replies.take(last) =~= replies.drop_last());
        assert(answered(start, replies, last) == task);
        lemma_plain_prefix(replies, last);
        law_symlinks_are_not_followed(root, link, replies.drop_last());
        law_sweep_stays_inside_the_tree(root, replies.drop_last());
        assert(replies[last].names_are_plain());
        let after = run(start, replies);
        let n = task.follow_up(reply).len();
        assert forall|i: int| 0 <= i < after.todo.len() implies {
            &&& (#[trigger] after.todo[i]).request() != Request::List(link)
            &&& after.todo[i].path() == link ==> !(after.todo[i] is Relax || after.todo[i] is Grant)
            &&& !paths::under(link, after.todo[i].path())
        } by {
            if i < n {
                lemma_follow_up_path(task, reply, i);
                assert(before.todo[0] == task);
                if after.todo[i].path() != task.path() {
                    let name = choose|name: Seq<u8>|
                        paths::plain_name(name) && task.follow_up(reply)[i].path()
                            == #[trigger] paths::joined(task.path(), name);
                    if paths::under(link, after.todo[i].path()) {
                        paths::law_below_a_listed_directory(root, link, task.path(), name);
                    }
                }
            } else {
                assert(after.todo[i] == before.todo[i - n + 1]);
            }
        }
    }
}

/// The task walks, or removes, its path as a directory.
pub open spec fn takes_directory(task: Task<Seq<u8>>) -> bool {
    task is Walk || task is Descend || task is Prune || task is PruneLink || task is RemoveRoot
}

/// Nothing below a directory comes after that directory's own walk or removal.
pub open spec fn bottom_up(todo: Seq<Task<Seq<u8>>>) -> bool {
    forall|i: int, j: int|
        0 <= i < j < todo.len() && takes_directory(#[trigger] todo[i]) ==> !paths::under(
            todo[i].path(),
            (#[trigger] todo[j]).path(),
        )
}

/// The tree goes bottom-up: when a directory's removal is next, nothing below that
/// directory is left to do.
pub proof fn law_directories_go_last(root: Seq<u8>, replies: Seq<Reply>)
    requires
        fed(TreeState::start(root, false), replies),
        plain_names(replies),
    ensures
        bottom_up(run(TreeState::start(root, false), replies).todo),
    decreases replies.len(),
{
    let start = TreeState::start(root, false);
    if replies.len() > 0 {
        let before = run(start, replies.drop_last());
        let reply = replies.last();
        let task = before.todo[0];
        lemma_plain_prefix(replies, replies.len() - 1);
        assert(replies.take(replies.len() - 1) =~= replies.drop_last());
        law_directories_go_last(root, replies.drop_last());
        assert(replies[replies.len() - 1].names_are_plain());
        let todo = run(start, replies).todo;
        let n = task.follow_up(reply).len();
        assert forall|i: int, j: int|
            0 <= i < j < todo.len() && takes_directory(#[trigger] todo[i]) implies !paths::under(
            todo[i].path(),
            (#[trigger] todo[j]).path(),
        ) by {
            if i >= n {
                assert(todo[i] == before.todo[i - n + 1]);
                assert(todo[j] == before.todo[j - n + 1]);
            } else {
                lemma_follow_up_path(task, reply, i);
                if j >= n {
                    assert(todo[j] == before.todo[j - n + 1]);
                    assert(before.todo[0] == task);
                    if takes_directory(task) {
                        assert(!paths::under(task.path(), todo[j].path()));
                        if todo[i].path() != task.path() {
                            let a = choose|name: Seq<u8>|
                                paths::plain_name(name) && task.follow_up(reply)[i].path()
                                    == #[trigger] paths::joined(task.path(), name);
                            paths::law_join_is_under(task.path(), a);
                            if paths::under(todo[i].path(), todo[j].path()) {
                                paths::law_under_is_transitive(
                                    task.path(),
                                    todo[i].path(),
                                    todo[j].path(),
                                );
                            }
                        }
                    }
                } else {
                    lemma_follow_up_path(task, reply, j);
                    if todo[i].path() != task.path() {
                        let a = choose|name: Seq<u8>|
                            paths::plain_name(name) && task.follow_up(reply)[i].path()
                                == #[trigger] paths::joined(task.path(), name);
                        if todo[j].path() != task.path() {
                            let b = choose|name: Seq<u8>|
                                paths::plain_name(name) && task.follow_up(reply)[j].path()
                                    == #[trigger] paths::joined(task.path(), name);
                            paths::law_siblings_are_apart(task.path(), a, b);
                        } else {
                            paths::law_parent_is_not_under_child(task.path(), a);
                        }
                    }
                }
            }
        }
    }
}

/// What the unlinks that went through released, in all.
pub open spec fn released_by(state: TreeState, replies: Seq<Reply>) -> int
    decreases replies.len(),
{
    if replies.len() == 0 {
        0
    } else {
        released_by(state, replies.drop_last()) + run(state, replies.drop_last()).todo[0].released(
            replies.last(),
        )
    }
}

/// The bytes that a sweep reports are those that its unlinks released, each counted once.
pub proof fn law_freed_is_what_was_released(root: Seq<u8>, replies: Seq<Reply>)
    requires
        fed(TreeState::start(root, false), replies),
    ensures
        run(TreeState::start(root, false), replies).freed == released_by(
            TreeState::start(root, false),
            replies,
        ),
        run(TreeState::start(root, false), replies).freed >= 0,
    decreases replies.len(),
{
    if replies.len() > 0 {
        law_freed_is_what_was_released(root, replies.drop_last());
    }
}

/// How many of the files that `linked` picks out were unlinked.
pub open spec fn links_removed(
    state: TreeState,
    replies: Seq<Reply>,
    linked: spec_fn(Seq<u8>) -> bool,
) -> nat
    decreases replies.len(),
{
    if replies.len() == 0 {
        0
    } else {
        let task = run(state, replies.drop_last()).todo[0];
        links_removed(state, replies.drop_last(), linked) + if task is Unlink && linked(task.path())
            && (replies.last() matches Reply::Done(Ok(_))) {
            1nat
        } else {
            0
        }
    }
}

/// What the unlinks of the files that `linked` picks out released, in all.
pub open spec fn released_from(
    state: TreeState,
    replies: Seq<Reply>,
    linked: spec_fn(Seq<u8>) -> bool,
) -> int
    decreases replies.len(),
{
    if replies.len() == 0 {
        0
    } else {
        let task = run(state, replies.drop_last()).todo[0];
        released_from(state, replies.drop_last(), linked) + if linked(task.path()) {
            task.released(replies.last())
        } else {
            0
        }
    }
}

/// The files that `linked` picks out are, by what the replies say of them, links to one inode
/// of so many links and blocks, and none of its links comes or goes but by this sweep.
pub open spec fn one_inode(
    state: TreeState,
    replies: Seq<Reply>,
    linked: spec_fn(Seq<u8>) -> bool,
    links: nat,
    blocks: u64,
) -> bool {
    forall|k: int|
        0 <= k < replies.len() && (#[trigger] answered(state, replies, k)) is Weigh && linked(
            answered(state, replies, k).path(),
        ) ==> match replies[k] {
            Reply::Stat(Ok(stat)) => {
                &&& stat.blocks == blocks
                &&& stat.nlink >= 1
                &&& stat.nlink == links - links_removed(state, replies.take(k), linked)
            },
            _ => true,
        }
}

/// A file is unlinked right after it was looked at, and the counts it had then still stand.
spec fn fresh_counts(
    state: TreeState,
    replies: Seq<Reply>,
    linked: spec_fn(Seq<u8>) -> bool,
    links: nat,
    blocks: u64,
) -> bool {
    let todo = run(state, replies).todo;
    forall|i: int|
        0 <= i < todo.len() ==> match #[trigger] todo[i] {
            Task::Unlink(p, nlink, b) => {
                &&& i == 0
                &&& linked(p) ==> b == blocks && nlink >= 1 && nlink == links - links_removed(
                    state,
                    replies,
                    linked,
                )
            },
            _ => true,
        }
}

/// An inode is counted once however many links to it the tree holds, on the unlink that
/// removes its last one; while a link is left, in the tree or elsewhere, nothing is counted.
pub proof fn law_hardlinked_inode_is_counted_once(
    root: Seq<u8>,
    replies: Seq<Reply>,
    linked: spec_fn(Seq<u8>) -> bool,
    links: nat,
    blocks: u64,
)
    requires
        fed(TreeState::start(root, false), replies),
        one_inode(TreeState::start(root, false), replies, linked, links, blocks),
        links >= 1,
    ensures
        links_removed(TreeState::start(root, false), replies, linked) <= links,
        released_from(TreeState::start(root, false), replies, linked) == if links_removed(
            TreeState::start(root, false),
            replies,
            linked,
        ) == links {
            blocks * reaper::BLOCK
        } else {
            0
        },
{
    lemma_counted_once(root, replies, linked, links, blocks);
}

proof fn lemma_counted_once(
    root: Seq<u8>,
    replies: Seq<Reply>,
    linked: spec_fn(Seq<u8>) -> bool,
    links: nat,
    blocks: u64,
)
    requires
        fed(TreeState::start(root, false), replies),
        one_inode(TreeState::start(root, false), replies, linked, links, blocks),
        links >= 1,
    ensures
        fresh_counts(TreeState::start(root, false), replies, linked, links, blocks),
        links_removed(TreeState::start(root, false), replies, linked) <= links,
        released_from(TreeState::start(root, false), replies, linked) == if links_removed(
            TreeState::start(root, false),
            replies,
            linked,
        ) == links {
            blocks * reaper::BLOCK
        } else {
            0
        },
    decreases replies.len(),
{
    let start = TreeState::start(root, false);
    if replies.len() > 0 {
        let init = replies.drop_last();
        let last = replies.len() - 1;
        let reply = replies.last();
        let before = run(start, init).todo;
        let task = before[0];
        assert(replies.take(last) =~= init);
        assert(answered(start, replies, last) == task);
        assert(one_inode(start, init, linked, links, blocks)) by {
            assert forall|k: int| 0 <= k < last implies (#[trigger] answered(start, init, k))
                == answered(start, replies, k) && init.take(k) == replies.take(k) by {
                assert(init.take(k) =~= replies.take(k));
            }
        }
        lemma_counted_once(root, init, linked, links, blocks);
        assert(before[0] == task);
        let plan = task.follow_up(reply);
        let todo = run(start, replies).todo;
        assert forall|i: int| 0 <= i < todo.len() implies match #[trigger] todo[i] {
            Task::Unlink(p, nlink, b) => {
                &&& i == 0
                &&& linked(p) ==> b == blocks && nlink >= 1 && nlink == links - links_removed(
                    start,
                    replies,
                    linked,
                )
            },
            _ => true,
        } by {
            if i < plan.len() {
                assert(todo[i] == plan[i]);
                assert(plan[i] is Unlink ==> task is Weigh && i == 0);
            } else {
                assert(todo[i] == before[i - plan.len() + 1]);
            }
        }
    }
}

/// The sum of `f` over the numbers below `n`.
pub open spec fn sum_below(n: nat, f: spec_fn(nat) -> int) -> int
    decreases n,
{
    if n == 0 {
        0
    } else {
        sum_below((n - 1) as nat, f) + f((n - 1) as nat)
    }
}

proof fn lemma_sum_grows(
    n: nat,
    f: spec_fn(nat) -> int,
    g: spec_fn(nat) -> int,
    at: nat,
    more: int,
)
    requires
        forall|i: nat|
            i < n ==> #[trigger] g(i) == f(i) + if i == at {
                more
            } else {
                0
            },
    ensures
        sum_below(n, g) == sum_below(n, f) + if at < n {
            more
        } else {
            0
        },
    decreases n,
{
    if n > 0 {
        lemma_sum_grows((n - 1) as nat, f, g, at, more);
        assert(g((n - 1) as nat) == g((n - 1) as nat));
    }
}

/// The paths that name the inode with the number `id`.
pub open spec fn links_to(inode: spec_fn(Seq<u8>) -> nat, id: nat) -> spec_fn(Seq<u8>) -> bool {
    |p: Seq<u8>| inode(p) == id
}

proof fn lemma_released_by_inode(
    state: TreeState,
    replies: Seq<Reply>,
    inode: spec_fn(Seq<u8>) -> nat,
    n: nat,
)
    requires
        forall|p: Seq<u8>| #[trigger] inode(p) < n,
    ensures
        released_by(state, replies) == sum_below(
            n,
            |id: nat| released_from(state, replies, links_to(inode, id)),
        ),
    decreases replies.len(),
{
    let after = |id: nat| released_from(state, replies, links_to(inode, id));
    if replies.len() == 0 {
        lemma_sum_grows(n, |id: nat| 0int, after, 0, 0);
        lemma_sum_of_nothing(n);
    } else {
        let init = replies.drop_last();
        let before = |id: nat| released_from(state, init, links_to(inode, id));
        let task = run(state, init).todo[0];
        lemma_released_by_inode(state, init, inode, n);
        lemma_sum_grows(n, before, after, inode(task.path()), task.released(replies.last()));
    }
}

proof fn lemma_sum_of_nothing(n: nat)
    ensures
        sum_below(n, |id: nat| 0int) == 0,
    decreases n,
{
    if n > 0 {
        lemma_sum_of_nothing((n - 1) as nat);
    }
}

/// The bytes that a sweep reports are the blocks of the inodes whose last link it removed, each
/// inode counted once, and of no other.
pub proof fn law_freed_is_the_sum_over_inodes(
    root: Seq<u8>,
    replies: Seq<Reply>,
    inode: spec_fn(Seq<u8>) -> nat,
    n: nat,
    links: spec_fn(nat) -> nat,
    blocks: spec_fn(nat) -> u64,
)
    requires
        fed(TreeState::start(root, false), replies),
        forall|p: Seq<u8>| #[trigger] inode(p) < n,
        forall|id: nat|
            id < n ==> #[trigger] links(id) >= 1 && one_inode(
                TreeState::start(root, false),
                replies,
                links_to(inode, id),
                links(id),
                blocks(id),
            ),
    ensures
        run(TreeState::start(root, false), replies).freed == sum_below(
            n,
            |id: nat|
                if links_removed(TreeState::start(root, false), replies, links_to(inode, id))
                    == links(id) {
                    blocks(id) * reaper::BLOCK
                } else {
                    0
                },
        ),
{
    let start = TreeState::start(root, false);
    let released = |id: nat| released_from(start, replies, links_to(inode, id));
    let counted = |id: nat|
        if links_removed(start, replies, links_to(inode, id)) == links(id) {
            blocks(id) * reaper::BLOCK
        } else {
            0
        };
    law_freed_is_what_was_released(root, replies);
    lemma_released_by_inode(start, replies, inode, n);
    assert forall|id: nat| id < n implies #[trigger] counted(id) == released(id) by {
        assert(links(id) >= 1);
        law_hardlinked_inode_is_counted_once(
            root,
            replies,
            links_to(inode, id),
            links(id),
            blocks(id),
        );
    }
    lemma_sum_grows(n, released, counted, 0, 0);
}

/// The reply says that what the task would remove is there and stays.
pub open spec fn stays(task: Task<Seq<u8>>, reply: Reply) -> bool {
    task.refused(reply) || task.root_refused(reply) is Some
}

/// A sweep reports an error exactly if some removal was refused; in particular a path
/// that is already gone never counts against it.
pub proof fn law_only_refusals_are_errors(root: Seq<u8>, replies: Seq<Reply>)
    requires
        fed(TreeState::start(root, false), replies),
    ensures
        run(TreeState::start(root, false), replies).failures >= 0,
        run(TreeState::start(root, false), replies).verdict() is Some <==> exists|k: int|
            0 <= k < replies.len() && stays(
                #[trigger] answered(TreeState::start(root, false), replies, k),
                replies[k],
            ),
    decreases replies.len(),
{
    let start = TreeState::start(root, false);
    if replies.len() > 0 {
        let last = replies.len() - 1;
        let init = replies.drop_last();
        law_only_refusals_are_errors(root, init);
        assert(replies.take(last) =~= init);
        assert forall|k: int| 0 <= k < last implies (#[trigger] answered(start, init, k))
            == answered(start, replies, k) by {
            assert(init.take(k) =~= replies.take(k));
        }
        let before = run(start, init);
        assert(answered(start, replies, last) == before.todo[0]);
        if before.verdict() is Some {
            let k = choose|k: int|
                0 <= k < init.len() && stays(#[trigger] answered(start, init, k), init[k]);
            assert(stays(answered(start, replies, k), replies[k]));
        }
        if exists|k: int|
            0 <= k < replies.len() && stays(#[trigger] answered(start, replies, k), replies[k]) {
            let k = choose|k: int|
                0 <= k < replies.len() && stays(#[trigger] answered(start, replies, k), replies[k]);
            if k < last {
                assert(answered(start, init, k) == answered(start, replies, k));
                assert(init[k] == replies[k]);
                assert(before.verdict() is Some);
            }
        }
    }
}

/// How many answers said that an entry stays.
pub open spec fn refusals_in(state: TreeState, replies: Seq<Reply>) -> int
    decreases replies.len(),
{
    if replies.len() == 0 {
        0
    } else {
        refusals_in(state, replies.drop_last()) + if run(
            state,
            replies.drop_last(),
        ).todo[0].refused(replies.last()) {
            1int
        } else {
            0
        }
    }
}

/// The failures that a sweep counts are the answers that said that an entry stays.
pub proof fn law_failures_are_refusals(root: Seq<u8>, replies: Seq<Reply>)
    requires
        fed(TreeState::start(root, false), replies),
    ensures
        run(TreeState::start(root, false), replies).failures == refusals_in(
            TreeState::start(root, false),
            replies,
        ),
    decreases replies.len(),
{
    if replies.len() > 0 {
        law_failures_are_refusals(root, replies.drop_last());
    }
}

/// Whether the reply is an error other than that the path is missing.
pub open spec fn is_refusal(reply: Reply) -> bool {
    match reply {
        Reply::Stat(Err(e)) => disk::refusal(e),
        Reply::Done(Err(e)) => disk::refusal(e),
        _ => false,
    }
}

/// A sweep during which every failed call failed because the path was already gone
/// succeeds.
pub proof fn law_missing_is_success(root: Seq<u8>, replies: Seq<Reply>)
    requires
        fed(TreeState::start(root, false), replies),
        forall|k: int| 0 <= k < replies.len() ==> !is_refusal(#[trigger] replies[k]),
    ensures
        run(TreeState::start(root, false), replies).verdict() is None,
{
    law_only_refusals_are_errors(root, replies);
    let start = TreeState::start(root, false);
    assert forall|k: int| 0 <= k < replies.len() implies !stays(
        #[trigger] answered(start, replies, k),
        replies[k],
    ) by {
        assert(!is_refusal(replies[k]));
    }
}

/// The calls that a task takes at most, those that a listing will add aside.
pub open spec fn cost(task: Task<Seq<u8>>) -> int {
    match task {
        Task::Walk(_) => 1,
        Task::Descend(_) => 2,
        Task::Relax(_) => 2,
        Task::Grant(_, _) => 1,
        Task::Weigh(_) => 2,
        Task::Unlink(_, _, _) => 1,
        Task::Prune(_) => 2,
        Task::PruneLink(_) => 1,
        Task::RemoveRoot(_) => 1,
    }
}

/// The calls that a list of tasks takes at most, those that listings will add aside.
pub open spec fn total_cost(todo: Seq<Task<Seq<u8>>>) -> int
    decreases todo.len(),
{
    if todo.len() == 0 {
        0
    } else {
        total_cost(todo.drop_last()) + cost(todo.last())
    }
}

/// The calls that the entries of a listing can lead to.
pub open spec fn entries_cost(reply: Reply) -> int {
    match reply {
        Reply::Listing(Some(entries)) => 4 * entries@.len() as int + 2,
        _ => 0,
    }
}

/// The calls that the listed entries of all the replies can lead to.
pub open spec fn listed_cost(replies: Seq<Reply>) -> int
    decreases replies.len(),
{
    if replies.len() == 0 {
        0
    } else {
        listed_cost(replies.drop_last()) + entries_cost(replies.last())
    }
}

proof fn lemma_total_cost_of_concat(a: Seq<Task<Seq<u8>>>, b: Seq<Task<Seq<u8>>>)
    ensures
        total_cost(a + b) == total_cost(a) + total_cost(b),
    decreases b.len(),
{
    if b.len() == 0 {
        assert(a + b =~= a);
    } else {
        assert((a + b).drop_last() =~= a + b.drop_last());
        assert((a + b).last() == b.last());
        lemma_total_cost_of_concat(a, b.drop_last());
    }
}

proof fn lemma_uniform_cost(todo: Seq<Task<Seq<u8>>>, c: int)
    requires
        forall|i: int| 0 <= i < todo.len() ==> cost(#[trigger] todo[i]) == c,
    ensures
        total_cost(todo) == c * todo.len(),
    decreases todo.len(),
{
    if todo.len() > 0 {
        lemma_uniform_cost(todo.drop_last(), c);
        assert(cost(todo[todo.len() - 1]) == c);
        assert(c * todo.len() == c * (todo.len() - 1) + c) by (nonlinear_arith);
    } else {
        assert(c * 0 == 0) by (nonlinear_arith);
    }
}

proof fn lemma_children_count(d: Seq<u8>, entries: Seq<Option<Listed>>)
    ensures
        reaper::children(d, entries, true).len() + reaper::children(d, entries, false).len()
            <= entries.len(),
    decreases entries.len(),
{
    if entries.len() > 0 {
        lemma_children_count(d, entries.drop_last());
    }
}

proof fn lemma_follow_up_cost(task: Task<Seq<u8>>, reply: Reply)
    ensures
        total_cost(task.follow_up(reply)) + 1 <= cost(task) + entries_cost(reply),
{
    match (task, reply) {
        (Task::Walk(d), Reply::Listing(Some(entries))) => {
            let dirs = reaper::children(d, entries@, true);
            let files = reaper::children(d, entries@, false);
            let descends = dirs.map_values(|p: Seq<u8>| Task::Descend(p));
            let relax = seq![Task::Relax(d)];
            let weighs = files.map_values(|p: Seq<u8>| Task::Weigh(p));
            let prunes = dirs.map_values(|p: Seq<u8>| Task::Prune(p));
            lemma_children_count(d, entries@);
            lemma_uniform_cost(descends, 2);
            lemma_uniform_cost(relax, 2);
            lemma_uniform_cost(weighs, 2);
            lemma_uniform_cost(prunes, 2);
            lemma_total_cost_of_concat(descends, relax);
            lemma_total_cost_of_concat(descends + relax, weighs);
            lemma_total_cost_of_concat(descends + relax + weighs, prunes);
        },
        _ => {
            let plan = task.follow_up(reply);
            if plan.len() > 0 {
                assert(plan.len() == 1);
                assert(total_cost(plan.drop_last()) == 0);
            }
        },
    }
}

/// A sweep comes to an end: it makes at most two calls, and for each directory that it
/// reads two more and four for each entry.
pub proof fn law_sweep_ends(root: Seq<u8>, replies: Seq<Reply>)
    requires
        fed(TreeState::start(root, false), replies),
    ensures
        replies.len() + total_cost(run(TreeState::start(root, false), replies).todo) <= 2
            + listed_cost(replies),
        total_cost(run(TreeState::start(root, false), replies).todo) >= 0,
        replies.len() <= 2 + listed_cost(replies),
    decreases replies.len(),
{
    let start = TreeState::start(root, false);
    lemma_total_cost_is_nat(run(start, replies).todo);
    if replies.len() == 0 {
        assert(start.todo.drop_last().drop_last() =~= seq![]);
        assert(total_cost(start.todo.drop_last().drop_last()) == 0);
        assert(total_cost(start.todo.drop_last()) == 1);
    } else {
        let before = run(start, replies.drop_last());
        let reply = replies.last();
        let task = before.todo[0];
        law_sweep_ends(root, replies.drop_last());
        lemma_follow_up_cost(task, reply);
        lemma_total_cost_of_concat(task.follow_up(reply), before.todo.skip(1));
        lemma_total_cost_of_concat(seq![task], before.todo.skip(1));
        assert(before.todo =~= seq![task] + before.todo.skip(1));
        lemma_uniform_cost(seq![task], cost(task));
    }
}

proof fn lemma_total_cost_is_nat(todo: Seq<Task<Seq<u8>>>)
    ensures
        total_cost(todo) >= 0,
    decreases todo.len(),
{
    if todo.len() > 0 {
        lemma_total_cost_is_nat(todo.drop_last());
    }
}

/// The task removes an entry of some directory.
pub open spec fn removes_entry(task: Task<Seq<u8>>) -> bool {
    task is Weigh || task is Unlink || task is Prune || task is PruneLink
}

/// The directory's mode was looked at, and relaxed if need be, by the time of the replies.
pub open spec fn was_readied(state: TreeState, replies: Seq<Reply>, d: Seq<u8>) -> bool {
    exists|k: int|
        0 <= k < replies.len() && #[trigger] answered(state, replies, k) == Task::Relax(d)
}

/// The directory's mode is to be looked at before the task number `i`.
pub open spec fn will_be_readied(todo: Seq<Task<Seq<u8>>>, i: int, d: Seq<u8>) -> bool {
    exists|j: int| 0 <= j < i && #[trigger] todo[j] == Task::Relax(d)
}

/// The path is an entry of a directory that is readied before the task number `i`.
pub open spec fn readied_first(
    state: TreeState,
    replies: Seq<Reply>,
    todo: Seq<Task<Seq<u8>>>,
    i: int,
) -> bool {
    exists|d: Seq<u8>, name: Seq<u8>|
        paths::plain_name(name) && todo[i].path() == #[trigger] paths::joined(d, name) && (
        will_be_readied(todo, i, d) || was_readied(state, replies, d))
}

proof fn lemma_listing_readies_first(
    state: TreeState,
    replies: Seq<Reply>,
    rest: Seq<Task<Seq<u8>>>,
    d: Seq<u8>,
    entries: Vec<Option<Listed>>,
    i: int,
)
    requires
        Reply::Listing(Some(entries)).names_are_plain(),
        0 <= i < Task::Walk(d).follow_up(Reply::Listing(Some(entries))).len(),
        removes_entry(Task::Walk(d).follow_up(Reply::Listing(Some(entries)))[i]),
    ensures
        readied_first(
            state,
            replies,
            Task::Walk(d).follow_up(Reply::Listing(Some(entries))) + rest,
            i,
        ),
{
    let plan = Task::Walk(d).follow_up(Reply::Listing(Some(entries)));
    let todo = plan + rest;
    let dirs = reaper::children(d, entries@, true);
    let files = reaper::children(d, entries@, false);
    let ready = dirs.len() as int;
    assert(todo[i] == plan[i]);
    assert(todo[ready] == Task::Relax(d));
    assert(will_be_readied(todo, i, d));
    let name = if i < dirs.len() + 1 + files.len() {
        lemma_children(d, entries@, false, i - dirs.len() - 1);
        choose|name: Seq<u8>|
            paths::plain_name(name) && files[i - dirs.len() - 1] == #[trigger] paths::joined(d, name)
    } else {
        lemma_children(d, entries@, true, i - dirs.len() - 1 - files.len());
        choose|name: Seq<u8>|
            paths::plain_name(name) && dirs[i - dirs.len() - 1 - files.len()]
                == #[trigger] paths::joined(d, name)
    };
    assert(paths::plain_name(name) && todo[i].path() == paths::joined(d, name));
}

/// Nothing in a directory is removed before the sweep has seen to it that the directory
/// lets its entries go.
pub proof fn law_directories_are_readied_first(root: Seq<u8>, replies: Seq<Reply>)
    requires
        fed(TreeState::start(root, false), replies),
        plain_names(replies),
    ensures
        forall|i: int|
            0 <= i < run(TreeState::start(root, false), replies).todo.len() && removes_entry(
                #[trigger] run(TreeState::start(root, false), replies).todo[i],
            ) ==> readied_first(
                TreeState::start(root, false),
                replies,
                run(TreeState::start(root, false), replies).todo,
                i,
            ),
    decreases replies.len(),
{
    let start = TreeState::start(root, false);
    if replies.len() > 0 {
        let init = replies.drop_last();
        let last = replies.len() - 1;
        let reply = replies.last();
        let before = run(start, init).todo;
        let todo = run(start, replies).todo;
        let task = before[0];
        let n = task.follow_up(reply).len() as int;
        lemma_plain_prefix(replies, last);
        assert(replies.take(last) =~= init);
        law_directories_are_readied_first(root, init);
        assert(replies[last].names_are_plain());
        assert(answered(start, replies, last) == task);
        assert forall|d: Seq<u8>| was_readied(start, init, d) implies was_readied(
            start,
            replies,
            d,
        ) by {
            let k = choose|k: int|
                0 <= k < init.len() && #[trigger] answered(start, init, k) == Task::Relax(d);
            assert(init.take(k) =~= replies.take(k));
            assert(answered(start, replies, k) == Task::Relax(d));
        }
        assert forall|i: int| 0 <= i < todo.len() && removes_entry(#[trigger] todo[i]) implies 
            readied_first(start, replies, todo, i) by {
            if i < n && task is Walk {
                lemma_listing_readies_first(
                    start,
                    replies,
                    before.skip(1),
                    task->Walk_0,
                    reply->Listing_0->0,
                    i,
                );
            } else {
                let was = if i < n {
                    0
                } else {
                    i - n + 1
                };
                assert(removes_entry(before[was]) && before[was].path() == todo[i].path());
                let (d, name) = choose|d: Seq<u8>, name: Seq<u8>|
                    paths::plain_name(name) && before[was].path() == #[trigger] paths::joined(
                        d,
                        name,
                    ) && (will_be_readied(before, was, d) || was_readied(start, init, d));
                if will_be_readied(before, was, d) {
                    let j = choose|j: int| 0 <= j < was && #[trigger] before[j] == Task::Relax(d);
                    if j == 0 {
                        assert(was_readied(start, replies, d));
                    } else {
                        assert(todo[j - 1 + n] == Task::Relax(d));
                        assert(will_be_readied(todo, i, d));
                    }
                }
                assert(paths::plain_name(name) && todo[i].path() == paths::joined(d, name));
            }
        }
    }
}

/// A finished sweep has skipped nothing: whatever it had to do at some point, it did at
/// that point or later.
pub proof fn law_nothing_is_skipped(root: Seq<u8>, replies: Seq<Reply>, k: int, i: int)
    requires
        fed(TreeState::start(root, false), replies),
        run(TreeState::start(root, false), replies).todo.len() == 0,
        0 <= k <= replies.len(),
        0 <= i < run(TreeState::start(root, false), replies.take(k)).todo.len(),
    ensures
        exists|m: int|
            k <= m < replies.len() && #[trigger] answered(TreeState::start(root, false), replies, m)
                == run(TreeState::start(root, false), replies.take(k)).todo[i],
    decreases replies.len() - k,
{
    let start = TreeState::start(root, false);
    let here = run(start, replies.take(k));
    if k == replies.len() {
        assert(replies.take(k) =~= replies);
    } else if i == 0 {
        assert(answered(start, replies, k) == here.todo[0]);
    } else {
        let next = replies.take(k + 1);
        assert(next.drop_last() =~= replies.take(k));
        let n = here.todo[0].follow_up(replies[k]).len();
        assert(run(start, next).todo[i - 1 + n] == here.todo[i]);
        law_nothing_is_skipped(root, replies, k + 1, i - 1 + n);
        let m = choose|m: int|
            k + 1 <= m < replies.len() && #[trigger] answered(start, replies, m) == run(
                start,
                next,
            ).todo[i - 1 + n];
        assert(answered(start, replies, m) == here.todo[i]);
    }
}

/// The answer says that the task's path is gone: it was removed, or was missing already.
pub open spec fn is_gone(task: Task<Seq<u8>>, reply: Reply) -> bool {
    match reply {
        Reply::Stat(Err(e)) => task is Weigh && !disk::refusal(e),
        Reply::Done(Ok(_)) => task is Unlink || task is Prune || task is PruneLink
            || task is RemoveRoot,
        Reply::Done(Err(e)) => (task is Unlink || task is Prune || task is PruneLink
            || task is RemoveRoot) && !disk::refusal(e),
        _ => false,
    }
}

/// From the reply number `k` on, some answer says that the path is gone.
pub open spec fn seen_gone(state: TreeState, replies: Seq<Reply>, k: int, path: Seq<u8>) -> bool {
    exists|m: int|
        k <= m < replies.len() && (#[trigger] answered(state, replies, m)).path() == path && is_gone(
            answered(state, replies, m),
            replies[m],
        )
}

pub(crate) proof fn lemma_fed_at(state: TreeState, replies: Seq<Reply>, k: int)
    requires
        fed(state, replies),
        0 <= k < replies.len(),
    ensures
        run(state, replies.take(k)).todo.len() > 0,
        replies[k].answers(answered(state, replies, k).request()),
        run(state, replies.take(k + 1)) == run(state, replies.take(k)).after(replies[k]),
    decreases replies.len(),
{
    let init = replies.drop_last();
    assert(replies.take(k + 1).drop_last() =~= replies.take(k));
    if k < replies.len() - 1 {
        lemma_fed_at(state, init, k);
        assert(init.take(k) =~= replies.take(k));
    } else {
        assert(replies.take(k) =~= init);
    }
}

proof fn lemma_removal_is_seen(root: Seq<u8>, replies: Seq<Reply>, k: int)
    requires
        fed(TreeState::start(root, false), replies),
        run(TreeState::start(root, false), replies).todo.len() == 0,
        run(TreeState::start(root, false), replies).verdict() is None,
        0 <= k < replies.len(),
        removes_entry(answered(TreeState::start(root, false), replies, k)) || answered(
            TreeState::start(root, false),
            replies,
            k,
        ) is RemoveRoot,
    ensures
        seen_gone(
            TreeState::start(root, false),
            replies,
            k,
            answered(TreeState::start(root, false), replies, k).path(),
        ),
    decreases replies.len() - k,
{
    let start = TreeState::start(root, false);
    let task = answered(start, replies, k);
    lemma_fed_at(start, replies, k);
    law_only_refusals_are_errors(root, replies);
    assert(!stays(task, replies[k]));
    if !is_gone(task, replies[k]) {
        let plan = task.follow_up(replies[k]);
        let next = run(start, replies.take(k + 1));
        assert(plan.len() == 1 && removes_entry(plan[0]) && plan[0].path() == task.path());
        assert(next.todo[0] == plan[0]);
        law_nothing_is_skipped(root, replies, k + 1, 0);
        let m = choose|m: int|
            k + 1 <= m < replies.len() && #[trigger] answered(start, replies, m) == next.todo[0];
        lemma_removal_is_seen(root, replies, m);
    }
}

proof fn lemma_listed_is_child(d: Seq<u8>, entries: Seq<Option<Listed>>, i: int) -> (j: int)
    requires
        0 <= i < entries.len(),
        entries[i] is Some,
    ensures
        0 <= j < reaper::children(d, entries, reaper::is_subdir(entries[i]->0)).len(),
        reaper::children(d, entries, reaper::is_subdir(entries[i]->0))[j] == paths::joined(
            d,
            entries[i]->0.name@,
        ),
    decreases entries.len(),
{
    if i < entries.len() - 1 {
        lemma_listed_is_child(d, entries.drop_last(), i)
    } else {
        reaper::children(d, entries.drop_last(), reaper::is_subdir(entries[i]->0)).len() as int
    }
}

/// A sweep that reports no error has seen the root go.
pub proof fn law_success_means_the_root_is_gone(root: Seq<u8>, replies: Seq<Reply>)
    requires
        fed(TreeState::start(root, false), replies),
        run(TreeState::start(root, false), replies).todo.len() == 0,
        run(TreeState::start(root, false), replies).verdict() is None,
    ensures
        seen_gone(TreeState::start(root, false), replies, 0, root),
{
    let start = TreeState::start(root, false);
    assert(replies.take(0) =~= seq![]);
    assert(run(start, replies.take(0)).todo[1] == Task::RemoveRoot(root));
    law_nothing_is_skipped(root, replies, 0, 1);
    let m = choose|m: int|
        0 <= m < replies.len() && #[trigger] answered(start, replies, m) == Task::RemoveRoot(root);
    lemma_removal_is_seen(root, replies, m);
}

/// A sweep of a tree that is not there, such as one that a sweep before has removed, makes two
/// calls, frees nothing, and succeeds.
pub proof fn law_missing_tree_frees_nothing(root: Seq<u8>, replies: Seq<Reply>)
    requires
        fed(TreeState::start(root, false), replies),
        run(TreeState::start(root, false), replies).todo.len() == 0,
        forall|k: int|
            0 <= k < replies.len() ==> match #[trigger] replies[k] {
                Reply::Listing(entries) => entries is None,
                Reply::Stat(stat) => stat matches Err(e) && !disk::refusal(e),
                Reply::Done(done) => done matches Err(e) && !disk::refusal(e),
            },
    ensures
        replies.len() == 2,
        run(TreeState::start(root, false), replies).freed == 0,
        run(TreeState::start(root, false), replies).verdict() is None,
{
    let start = TreeState::start(root, false);
    assert(replies.take(0) =~= seq![]);
    assert(start.todo == seq![Task::Walk(root), Task::RemoveRoot(root)]);
    assert(replies.len() > 0);
    lemma_fed_at(start, replies, 0);
    let one = run(start, replies.take(1));
    assert(one.todo =~= seq![Task::RemoveRoot(root)]);
    if replies.len() == 1 {
        assert(replies.take(1) =~= replies);
    } else {
        lemma_fed_at(start, replies, 1);
        let two = run(start, replies.take(2));
        assert(two.todo =~= seq![]);
        if replies.len() > 2 {
            lemma_fed_at(start, replies, 2);
        }
        assert(replies.take(2) =~= replies);
    }
}

proof fn lemma_fed_prefix(state: TreeState, replies: Seq<Reply>, k: int)
    requires
        fed(state, replies),
        0 <= k <= replies.len(),
    ensures
        fed(state, replies.take(k)),
    decreases replies.len(),
{
    if k < replies.len() {
        lemma_fed_prefix(state, replies.drop_last(), k);
        assert(replies.drop_last().take(k) =~= replies.take(k));
    } else {
        assert(replies.take(k) =~= replies);
    }
}

/// What the sweep removes as an entry lies below the root, and the root is removed last.
proof fn lemma_entries_are_below(root: Seq<u8>, replies: Seq<Reply>)
    requires
        fed(TreeState::start(root, false), replies),
        plain_names(replies),
    ensures
        forall|i: int|
            #![trigger run(TreeState::start(root, false), replies).todo[i]]
            0 <= i < run(TreeState::start(root, false), replies).todo.len() ==> {
                let task = run(TreeState::start(root, false), replies).todo[i];
                &&& removes_entry(task) ==> paths::under(root, task.path())
                &&& task is RemoveRoot ==> i == run(
                    TreeState::start(root, false),
                    replies,
                ).todo.len() - 1
            },
    decreases replies.len(),
{
    let start = TreeState::start(root, false);
    if replies.len() > 0 {
        let init = replies.drop_last();
        let reply = replies.last();
        let before = run(start, init).todo;
        let task = before[0];
        let todo = run(start, replies).todo;
        let n = task.follow_up(reply).len();
        lemma_plain_prefix(replies, replies.len() - 1);
        assert(replies.take(replies.len() - 1) =~= init);
        lemma_entries_are_below(root, init);
        law_sweep_stays_inside_the_tree(root, init);
        assert(replies[replies.len() - 1].names_are_plain());
        assert forall|i: int| 0 <= i < todo.len() implies {
            &&& removes_entry(#[trigger] todo[i]) ==> paths::under(root, todo[i].path())
            &&& todo[i] is RemoveRoot ==> i == todo.len() - 1
        } by {
            if i < n {
                assert(before[0] == task);
                lemma_follow_up_path(task, reply, i);
                assert(todo[i] == task.follow_up(reply)[i]);
                if removes_entry(todo[i]) && task is Walk {
                    let name = choose|name: Seq<u8>|
                        paths::plain_name(name) && task.follow_up(reply)[i].path()
                            == #[trigger] paths::joined(task.path(), name);
                    paths::law_inside_is_root_or_under(root, task.path());
                    paths::law_join_is_under(task.path(), name);
                    if task.path() != root {
                        paths::law_under_is_transitive(root, task.path(), todo[i].path());
                    }
                }
            } else {
                assert(todo[i] == before[i - n + 1]);
            }
        }
    }
}

/// The disk keeps what it refused to remove, and does not remove a directory that something is
/// left in.
pub open spec fn keeps_what_it_refused(state: TreeState, replies: Seq<Reply>) -> bool {
    forall|k: int, m: int|
        #![trigger answered(state, replies, k), answered(state, replies, m)]
        0 <= k < m < replies.len() && stays(answered(state, replies, k), replies[k]) && (answered(
            state,
            replies,
            m,
        ) is Prune || answered(state, replies, m) is RemoveRoot) && paths::under(
            answered(state, replies, m).path(),
            answered(state, replies, k).path(),
        ) ==> is_refusal(replies[m])
}

/// A sweep succeeds exactly if the root goes: one that reports no error has seen it go, and one
/// that reports an error has not, on a disk that keeps what it refused to remove.
pub proof fn law_sweep_succeeds_iff_the_root_goes(root: Seq<u8>, replies: Seq<Reply>)
    requires
        fed(TreeState::start(root, false), replies),
        plain_names(replies),
        keeps_what_it_refused(TreeState::start(root, false), replies),
        run(TreeState::start(root, false), replies).todo.len() == 0,
    ensures
        run(TreeState::start(root, false), replies).verdict() is None <==> seen_gone(
            TreeState::start(root, false),
            replies,
            0,
            root,
        ),
{
    let start = TreeState::start(root, false);
    if run(start, replies).verdict() is None {
        law_success_means_the_root_is_gone(root, replies);
    } else if seen_gone(start, replies, 0, root) {
        law_only_refusals_are_errors(root, replies);
        let k = choose|k: int|
            0 <= k < replies.len() && stays(#[trigger] answered(start, replies, k), replies[k]);
        let m = choose|m: int|
            0 <= m < replies.len() && (#[trigger] answered(start, replies, m)).path() == root
                && is_gone(answered(start, replies, m), replies[m]);
        lemma_answered_entry(root, replies, k);
        lemma_answered_entry(root, replies, m);
        assert(!paths::under(root, root));
        assert(answered(start, replies, m) is RemoveRoot);
        assert(m == replies.len() - 1);
        if k < m {
            assert(removes_entry(answered(start, replies, k)));
            assert(is_refusal(replies[m]));
        }
    }
}

/// An answered removal of an entry is below the root, and that of the root is the last answer.
proof fn lemma_answered_entry(root: Seq<u8>, replies: Seq<Reply>, k: int)
    requires
        fed(TreeState::start(root, false), replies),
        plain_names(replies),
        0 <= k < replies.len(),
    ensures
        removes_entry(answered(TreeState::start(root, false), replies, k)) ==> paths::under(
            root,
            answered(TreeState::start(root, false), replies, k).path(),
        ),
        answered(TreeState::start(root, false), replies, k) is RemoveRoot ==> k == replies.len()
            - 1,
{
    let start = TreeState::start(root, false);
    let here = run(start, replies.take(k));
    lemma_fed_prefix(start, replies, k);
    lemma_plain_prefix(replies, k);
    lemma_entries_are_below(root, replies.take(k));
    lemma_fed_at(start, replies, k);
    assert(here.todo[0] == answered(start, replies, k));
    if here.todo[0] is RemoveRoot && k < replies.len() - 1 {
        lemma_fed_at(start, replies, k + 1);
        assert(run(start, replies.take(k + 1)).todo =~= seq![]);
    }
}

/// A sweep that reports no error has seen everything go that it was ever shown of a directory
/// in the tree.
pub proof fn law_success_means_all_is_gone(
    root: Seq<u8>,
    replies: Seq<Reply>,
    k: int,
    d: Seq<u8>,
    entries: Vec<Option<Listed>>,
    i: int,
)
    requires
        fed(TreeState::start(root, false), replies),
        run(TreeState::start(root, false), replies).todo.len() == 0,
        run(TreeState::start(root, false), replies).verdict() is None,
        0 <= k < replies.len(),
        answered(TreeState::start(root, false), replies, k) == Task::Walk(d),
        replies[k] == Reply::Listing(Some(entries)),
        0 <= i < entries@.len(),
        entries@[i] is Some,
    ensures
        seen_gone(
            TreeState::start(root, false),
            replies,
            k,
            paths::joined(d, entries@[i]->0.name@),
        ),
{
    let start = TreeState::start(root, false);
    lemma_fed_at(start, replies, k);
    let path = paths::joined(d, entries@[i]->0.name@);
    let dirs = reaper::children(d, entries@, true);
    let files = reaper::children(d, entries@, false);
    let j = lemma_listed_is_child(d, entries@, i);
    let at = if reaper::is_subdir(entries@[i]->0) {
        dirs.len() + 1 + files.len() + j
    } else {
        dirs.len() + 1 + j
    };
    let next = run(start, replies.take(k + 1));
    assert(removes_entry(next.todo[at]) && next.todo[at].path() == path);
    law_nothing_is_skipped(root, replies, k + 1, at);
    let m = choose|m: int|
        k + 1 <= m < replies.len() && #[trigger] answered(start, replies, m) == next.todo[at];
    lemma_removal_is_seen(root, replies, m);
}

/// Making a directory writable adds the owner's write bit and changes no other.
pub proof fn law_force_writable_adds_one_bit(mode: u32)
    ensures
        match reaper::writable_mode(mode) {
            Some(relaxed) => {
                &&& mode & reaper::OWNER_WRITE == 0
                &&& relaxed & reaper::OWNER_WRITE != 0
                &&& relaxed & !reaper::OWNER_WRITE == mode
            },
            None => mode & reaper::OWNER_WRITE != 0,
        },
{
    assert(mode & 0o200u32 == 0 ==> (mode | 0o200u32) & 0o200u32 != 0) by (bit_vector);
    assert(mode & 0o200u32 == 0 ==> (mode | 0o200u32) & !0o200u32 == mode) by (bit_vector);
}

/// A file sweep once the replies are fed to it, in order.
pub open spec fn file_run(path: Seq<u8>, replies: Seq<Reply>) -> FileStage<Seq<char>>
    decreases replies.len(),
{
    if replies.len() == 0 {
        FileStage::start(false)
    } else {
        file_run(path, replies.drop_last()).after(path, replies.last())
    }
}

/// Each of the replies answers the call that the sweep needed by then, and leaves a count
/// of bytes that fits.
pub open spec fn file_fed(path: Seq<u8>, replies: Seq<Reply>) -> bool
    decreases replies.len(),
{
    replies.len() > 0 ==> {
        let before = file_run(path, replies.drop_last());
        &&& file_fed(path, replies.drop_last())
        &&& before.room(replies.last())
        &&& match before.request(path) {
            Some(request) => replies.last().answers(request),
            None => false,
        }
    }
}

/// The first reply gave these link and block counts.
pub open spec fn weighed(replies: Seq<Reply>, nlink: u64, blocks: u64) -> bool {
    match replies[0] {
        Reply::Stat(Ok(stat)) => stat.nlink == nlink && stat.blocks == blocks,
        _ => false,
    }
}

/// A dry run of a file sweep makes no call, frees nothing and fails at nothing.
pub proof fn law_file_dry_run_does_nothing(path: Seq<u8>)
    ensures
        FileStage::start(true) == FileStage::<Seq<char>>::Finished(0, None),
        FileStage::start(true).request(path) is None,
{
}

/// A file sweep unlinks no path but the one it was given, and gives a mode to none but the
/// directory that holds it.
pub proof fn law_file_sweep_touches_one_file(path: Seq<u8>, replies: Seq<Reply>)
    ensures
        match file_run(path, replies).request(path) {
            Some(Request::Unlink(p)) => p == path,
            Some(Request::Chmod(d, _)) => paths::parent_of(path) == Some(d),
            Some(Request::Lstat(p)) => p == path || paths::parent_of(path) == Some(p),
            Some(_) => false,
            None => true,
        },
{
}

/// A file sweep is over after five calls at most. It reports an error exactly if its last
/// call was refused, and bytes only if its last call removed the file: those that the
/// inode, as first looked at, gave back.
pub proof fn law_file_sweep_outcome(path: Seq<u8>, replies: Seq<Reply>)
    requires
        file_fed(path, replies),
    ensures
        replies.len() <= 5,
        replies.len() == 5 ==> file_run(path, replies) is Finished,
        match file_run(path, replies) {
            FileStage::Finished(freed, error) => {
                &&& replies.len() > 0
                &&& error is Some <==> is_refusal(replies.last())
                &&& match replies.last() {
                    Reply::Done(Ok(_)) => exists|nlink: u64, blocks: u64|
                        weighed(replies, nlink, blocks) && freed == #[trigger] reaper::released_bytes(
                            nlink,
                            blocks,
                        ),
                    _ => freed == 0,
                }
            },
            FileStage::Weigh => replies.len() == 0,
            FileStage::Unlink(nlink, blocks) => replies.len() == 1 && weighed(
                replies,
                nlink,
                blocks,
            ),
            FileStage::RelaxParent(nlink, blocks) => {
                &&& replies.len() == 2
                &&& paths::parent_of(path) is Some
                &&& weighed(replies, nlink, blocks)
            },
            FileStage::GrantParent(_, nlink, blocks) => {
                &&& replies.len() == 3
                &&& paths::parent_of(path) is Some
                &&& weighed(replies, nlink, blocks)
            },
            FileStage::UnlinkAgain(nlink, blocks) => 2 <= replies.len() <= 4 && weighed(
                replies,
                nlink,
                blocks,
            ),
        },
    decreases replies.len(),
{
    if replies.len() > 0 {
        law_file_sweep_outcome(path, replies.drop_last());
        if replies.len() > 1 {
            assert(replies.drop_last()[0] == replies[0]);
        }
    }
}

} // verus!
