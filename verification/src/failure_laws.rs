//! That a tree sweep counts each entry that stays once, however it is told of it.

use crate::disk::{Listed, Reply};
use crate::paths;
use crate::reaper;
use crate::reaper::{Task, TreeState};
use crate::reaper_laws;
use vstd::prelude::*;

verus! {

/// The two paths part at some directory: different names lead to them.
pub open spec fn apart(p: Seq<u8>, q: Seq<u8>) -> bool {
    exists|d: Seq<u8>, a: Seq<u8>, b: Seq<u8>|
        #![trigger paths::joined(d, a), paths::joined(d, b)]
        parted_at(d, a, b, p, q)
}

/// The two paths part at the directory `d`, by way of the names `a` and `b`.
pub open spec fn parted_at(
    d: Seq<u8>,
    a: Seq<u8>,
    b: Seq<u8>,
    p: Seq<u8>,
    q: Seq<u8>,
) -> bool {
    &&& paths::plain_name(a)
    &&& paths::plain_name(b)
    &&& a != b
    &&& paths::inside(paths::joined(d, a), p)
    &&& paths::inside(paths::joined(d, b), q)
}

/// Nothing listed in `w` is `q`, nor is anything below: the two part, or `q` is `w` or above it.
spec fn clear_of(w: Seq<u8>, q: Seq<u8>) -> bool {
    apart(w, q) || paths::inside(q, w)
}

/// The reply gives no name twice.
pub open spec fn names_are_distinct(reply: Reply) -> bool {
    match reply {
        Reply::Listing(Some(entries)) => forall|i: int, j: int|
            0 <= i < j < entries@.len() && (#[trigger] entries@[i]) is Some && (
            #[trigger] entries@[j]) is Some ==> entries@[i]->0.name@ != entries@[j]->0.name@,
        _ => true,
    }
}

/// No listing gives a name twice.
pub open spec fn distinct_names(replies: Seq<Reply>) -> bool {
    forall|k: int| 0 <= k < replies.len() ==> names_are_distinct(#[trigger] replies[k])
}

proof fn lemma_apart_is_symmetric(p: Seq<u8>, q: Seq<u8>)
    requires
        apart(p, q),
    ensures
        apart(q, p),
        p != q,
{
    let (d, a, b) = choose|d: Seq<u8>, a: Seq<u8>, b: Seq<u8>|
        #![trigger paths::joined(d, a), paths::joined(d, b)]
        parted_at(d, a, b, p, q);
    assert(parted_at(d, b, a, q, p));
    paths::law_siblings_share_nothing(d, a, b, p);
}

proof fn lemma_apart_below(p: Seq<u8>, q: Seq<u8>, name: Seq<u8>)
    requires
        apart(p, q),
        paths::plain_name(name),
    ensures
        apart(paths::joined(p, name), q),
{
    let (d, a, b) = choose|d: Seq<u8>, a: Seq<u8>, b: Seq<u8>|
        #![trigger paths::joined(d, a), paths::joined(d, b)]
        parted_at(d, a, b, p, q);
    paths::law_inside_is_closed(paths::joined(d, a), p, name);
    assert(parted_at(d, a, b, paths::joined(p, name), q));
}

proof fn lemma_clear_below(w: Seq<u8>, q: Seq<u8>, name: Seq<u8>)
    requires
        clear_of(w, q),
        paths::plain_name(name),
    ensures
        clear_of(paths::joined(w, name), q),
        paths::joined(w, name) != q,
{
    if apart(w, q) {
        lemma_apart_below(w, q, name);
        lemma_apart_is_symmetric(paths::joined(w, name), q);
    } else {
        paths::law_inside_is_closed(q, w, name);
        paths::law_inside_is_root_or_under(q, w);
        assert(name.contains(name[0]));
    }
}

proof fn lemma_siblings_part(d: Seq<u8>, a: Seq<u8>, b: Seq<u8>)
    requires
        paths::plain_name(a),
        paths::plain_name(b),
        a != b,
    ensures
        apart(paths::joined(d, a), paths::joined(d, b)),
        paths::joined(d, a) != paths::joined(d, b),
{
    assert(parted_at(d, a, b, paths::joined(d, a), paths::joined(d, b)));
    lemma_apart_is_symmetric(paths::joined(d, a), paths::joined(d, b));
}

/// Which of the listed entries the child number `i` is.
spec fn origin(entries: Seq<Option<Listed>>, subdirs: bool, i: int) -> int
    decreases entries.len(),
{
    if entries.len() == 0 {
        0
    } else {
        let before = reaper::children(seq![], entries.drop_last(), subdirs);
        if i < before.len() {
            origin(entries.drop_last(), subdirs, i)
        } else {
            entries.len() - 1
        }
    }
}

proof fn lemma_origin(d: Seq<u8>, entries: Seq<Option<Listed>>, subdirs: bool, i: int)
    requires
        0 <= i < reaper::children(d, entries, subdirs).len(),
    ensures
        0 <= origin(entries, subdirs, i) < entries.len(),
        entries[origin(entries, subdirs, i)] matches Some(listed) && reaper::is_subdir(listed)
            == subdirs && reaper::children(d, entries, subdirs)[i] == paths::joined(
            d,
            listed.name@,
        ),
    decreases entries.len(),
{
    lemma_children_count(d, entries.drop_last(), subdirs);
    let before = reaper::children(d, entries.drop_last(), subdirs);
    if i < before.len() {
        lemma_origin(d, entries.drop_last(), subdirs, i);
    }
}

proof fn lemma_children_count(d: Seq<u8>, entries: Seq<Option<Listed>>, subdirs: bool)
    ensures
        reaper::children(d, entries, subdirs).len() == reaper::children(
            seq![],
            entries,
            subdirs,
        ).len(),
    decreases entries.len(),
{
    if entries.len() > 0 {
        lemma_children_count(d, entries.drop_last(), subdirs);
    }
}

proof fn lemma_origins_differ(
    d: Seq<u8>,
    entries: Seq<Option<Listed>>,
    subdirs: bool,
    i: int,
    j: int,
)
    requires
        0 <= i < j < reaper::children(d, entries, subdirs).len(),
    ensures
        origin(entries, subdirs, i) < origin(entries, subdirs, j),
    decreases entries.len(),
{
    lemma_children_count(d, entries.drop_last(), subdirs);
    let before = reaper::children(d, entries.drop_last(), subdirs);
    if j < before.len() {
        lemma_origins_differ(d, entries.drop_last(), subdirs, i, j);
    } else {
        lemma_origin(d, entries.drop_last(), subdirs, i);
    }
}

/// Which of the listed entries the task number `i` of a directory's plan is about.
spec fn plan_origin(entries: Seq<Option<Listed>>, i: int) -> int {
    let dirs = reaper::children(seq![], entries, true).len();
    let files = reaper::children(seq![], entries, false).len();
    if i < dirs {
        origin(entries, true, i)
    } else if i < dirs + 1 + files {
        origin(entries, false, i - dirs - 1)
    } else {
        origin(entries, true, i - dirs - 1 - files)
    }
}

/// The task walks its path, or will unless it is a symlink.
pub open spec fn walks(task: Task<Seq<u8>>) -> bool {
    task is Walk || task is Descend
}

proof fn lemma_plan_task(d: Seq<u8>, entries: Vec<Option<Listed>>, i: int)
    requires
        Reply::Listing(Some(entries)).names_are_plain(),
        0 <= i < Task::Walk(d).follow_up(Reply::Listing(Some(entries))).len(),
    ensures
        ({
            let task = Task::Walk(d).follow_up(Reply::Listing(Some(entries)))[i];
            let from = plan_origin(entries@, i);
            walks(task) || reaper_laws::removes_entry(task) ==> {
                &&& 0 <= from < entries@.len()
                &&& entries@[from] is Some
                &&& paths::plain_name(entries@[from]->0.name@)
                &&& task.path() == paths::joined(d, entries@[from]->0.name@)
            }
        }),
{
    lemma_children_count(d, entries@, true);
    lemma_children_count(d, entries@, false);
    let dirs = reaper::children(d, entries@, true);
    let files = reaper::children(d, entries@, false);
    if i < dirs.len() {
        lemma_origin(d, entries@, true, i);
    } else if i == dirs.len() {
    } else if i < dirs.len() + 1 + files.len() {
        lemma_origin(d, entries@, false, i - dirs.len() - 1);
    } else {
        lemma_origin(d, entries@, true, i - dirs.len() - 1 - files.len());
    }
}

proof fn lemma_plan_tasks_differ(d: Seq<u8>, entries: Vec<Option<Listed>>, i: int, j: int)
    requires
        0 <= i < j < Task::Walk(d).follow_up(Reply::Listing(Some(entries))).len(),
        ({
            let plan = Task::Walk(d).follow_up(Reply::Listing(Some(entries)));
            (walks(plan[i]) && walks(plan[j])) || (reaper_laws::removes_entry(plan[i])
                && reaper_laws::removes_entry(plan[j]))
        }),
    ensures
        plan_origin(entries@, i) != plan_origin(entries@, j),
{
    lemma_children_count(d, entries@, true);
    lemma_children_count(d, entries@, false);
    let dirs = reaper::children(d, entries@, true).len();
    let files = reaper::children(d, entries@, false).len();
    if j < dirs {
        lemma_origins_differ(d, entries@, true, i, j);
    } else if j < dirs + 1 + files {
        lemma_origins_differ(d, entries@, false, i - dirs - 1, j - dirs - 1);
    } else if i < dirs + 1 + files {
        lemma_origin(d, entries@, false, i - dirs - 1);
        lemma_origin(d, entries@, true, j - dirs - 1 - files);
    } else {
        lemma_origins_differ(
            d,
            entries@,
            true,
            i - dirs - 1 - files,
            j - dirs - 1 - files,
        );
    }
}

/// With the reply number `k` the sweep is done with an entry.
spec fn settled(state: TreeState, replies: Seq<Reply>, k: int) -> bool {
    let task = reaper_laws::answered(state, replies, k);
    reaper_laws::removes_entry(task) && task.follow_up(replies[k]).len() == 0
}

/// The path of the task that the reply number `k` answers.
spec fn path_at(state: TreeState, replies: Seq<Reply>, k: int) -> Seq<u8> {
    reaper_laws::answered(state, replies, k).path()
}

/// The walks and removals that are left do not get into each other's way.
spec fn todo_is_clear(todo: Seq<Task<Seq<u8>>>) -> bool {
    &&& forall|i: int, j: int|
        0 <= i < todo.len() && 0 <= j < todo.len() && i != j && walks(#[trigger] todo[i]) && walks(
            #[trigger] todo[j],
        ) ==> apart(todo[i].path(), todo[j].path())
    &&& forall|i: int, j: int|
        0 <= i < todo.len() && 0 <= j < todo.len() && walks(#[trigger] todo[i])
            && reaper_laws::removes_entry(#[trigger] todo[j]) ==> clear_of(
            todo[i].path(),
            todo[j].path(),
        )
    &&& forall|i: int, j: int|
        0 <= i < todo.len() && 0 <= j < todo.len() && i != j && reaper_laws::removes_entry(
            #[trigger] todo[i],
        ) && reaper_laws::removes_entry(#[trigger] todo[j]) ==> todo[i].path() != todo[j].path()
}

/// Nor does anything that is left get into the way of what is done.
spec fn done_is_clear(state: TreeState, replies: Seq<Reply>, todo: Seq<Task<Seq<u8>>>) -> bool {
    &&& forall|i: int, k: int|
        0 <= i < todo.len() && 0 <= k < replies.len() && walks(#[trigger] todo[i])
            && #[trigger] settled(state, replies, k) ==> clear_of(
            todo[i].path(),
            path_at(state, replies, k),
        )
    &&& forall|i: int, k: int|
        0 <= i < todo.len() && 0 <= k < replies.len() && reaper_laws::removes_entry(
            #[trigger] todo[i],
        ) && #[trigger] settled(state, replies, k) ==> todo[i].path() != path_at(state, replies, k)
}

/// No entry is done with twice.
spec fn settled_once(state: TreeState, replies: Seq<Reply>) -> bool {
    forall|k: int, m: int|
        0 <= k < m < replies.len() && #[trigger] settled(state, replies, k) && #[trigger] settled(
            state,
            replies,
            m,
        ) ==> path_at(state, replies, k) != path_at(state, replies, m)
}

/// What a listing adds is clear of itself.
proof fn lemma_plan_is_clear(d: Seq<u8>, entries: Vec<Option<Listed>>)
    requires
        Reply::Listing(Some(entries)).names_are_plain(),
        names_are_distinct(Reply::Listing(Some(entries))),
    ensures
        todo_is_clear(Task::Walk(d).follow_up(Reply::Listing(Some(entries)))),
{
    let plan = Task::Walk(d).follow_up(Reply::Listing(Some(entries)));
    assert forall|i: int, j: int|
        0 <= i < plan.len() && 0 <= j < plan.len() && i != j && walks(#[trigger] plan[i]) && walks(
            #[trigger] plan[j],
        ) implies apart(plan[i].path(), plan[j].path()) by {
        lemma_two_of_a_plan(d, entries, i, j);
    }
    assert forall|i: int, j: int|
        0 <= i < plan.len() && 0 <= j < plan.len() && walks(#[trigger] plan[i])
            && reaper_laws::removes_entry(#[trigger] plan[j]) implies clear_of(
        plan[i].path(),
        plan[j].path(),
    ) by {
        lemma_two_of_a_plan(d, entries, i, j);
    }
    assert forall|i: int, j: int|
        0 <= i < plan.len() && 0 <= j < plan.len() && i != j && reaper_laws::removes_entry(
            #[trigger] plan[i],
        ) && reaper_laws::removes_entry(#[trigger] plan[j]) implies plan[i].path()
        != plan[j].path() by {
        lemma_two_of_a_plan(d, entries, i, j);
    }
}

proof fn lemma_two_of_a_plan(d: Seq<u8>, entries: Vec<Option<Listed>>, i: int, j: int)
    requires
        Reply::Listing(Some(entries)).names_are_plain(),
        names_are_distinct(Reply::Listing(Some(entries))),
        0 <= i < Task::Walk(d).follow_up(Reply::Listing(Some(entries))).len(),
        0 <= j < Task::Walk(d).follow_up(Reply::Listing(Some(entries))).len(),
        i != j,
    ensures
        ({
            let plan = Task::Walk(d).follow_up(Reply::Listing(Some(entries)));
            &&& walks(plan[i]) && walks(plan[j]) ==> apart(plan[i].path(), plan[j].path())
            &&& walks(plan[i]) && reaper_laws::removes_entry(plan[j]) ==> clear_of(
                plan[i].path(),
                plan[j].path(),
            )
            &&& reaper_laws::removes_entry(plan[i]) && reaper_laws::removes_entry(plan[j])
                ==> plan[i].path() != plan[j].path()
        }),
{
    let plan = Task::Walk(d).follow_up(Reply::Listing(Some(entries)));
    let a = plan_origin(entries@, i);
    let b = plan_origin(entries@, j);
    lemma_plan_task(d, entries, i);
    lemma_plan_task(d, entries, j);
    if (walks(plan[i]) && walks(plan[j])) || (reaper_laws::removes_entry(plan[i])
        && reaper_laws::removes_entry(plan[j])) {
        if i < j {
            lemma_plan_tasks_differ(d, entries, i, j);
        } else {
            lemma_plan_tasks_differ(d, entries, j, i);
        }
    }
    if (walks(plan[i]) || reaper_laws::removes_entry(plan[i])) && (walks(plan[j])
        || reaper_laws::removes_entry(plan[j])) && a != b {
        let x = entries@[a]->0.name@;
        let y = entries@[b]->0.name@;
        assert(x != y) by {
            if a < b {
                assert(entries@[a]->0.name@ != entries@[b]->0.name@);
            } else {
                assert(entries@[b]->0.name@ != entries@[a]->0.name@);
            }
        }
        lemma_siblings_part(d, x, y);
    } else if walks(plan[i]) && reaper_laws::removes_entry(plan[j]) {
        assert(paths::inside(plan[j].path(), plan[i].path()));
    }
}

/// What a task leads to is clear of whatever the task was clear of.
proof fn lemma_follow_up_is_clear(task: Task<Seq<u8>>, reply: Reply, i: int, q: Seq<u8>)
    requires
        reply.names_are_plain(),
        0 <= i < task.follow_up(reply).len(),
    ensures
        ({
            let next = task.follow_up(reply)[i];
            let listing = task is Walk;
            &&& walks(next) ==> walks(task)
            &&& reaper_laws::removes_entry(next) ==> listing || (reaper_laws::removes_entry(task)
                && next.path() == task.path())
            &&& walks(next) && apart(task.path(), q) ==> apart(next.path(), q)
            &&& walks(next) && clear_of(task.path(), q) ==> clear_of(next.path(), q)
            &&& reaper_laws::removes_entry(next) && listing && apart(task.path(), q) ==> apart(
                next.path(),
                q,
            )
            &&& reaper_laws::removes_entry(next) && listing && clear_of(task.path(), q)
                ==> next.path() != q
        }),
{
    let next = task.follow_up(reply)[i];
    match (task, reply) {
        (Task::Walk(d), Reply::Listing(Some(entries))) => {
            if walks(next) || reaper_laws::removes_entry(next) {
                lemma_plan_task(d, entries, i);
                let name = entries@[plan_origin(entries@, i)]->0.name@;
                if apart(d, q) {
                    lemma_apart_below(d, q, name);
                }
                if clear_of(d, q) {
                    lemma_clear_below(d, q, name);
                }
            }
        },
        _ => {},
    }
}

proof fn lemma_todo_stays_clear(before: Seq<Task<Seq<u8>>>, reply: Reply)
    requires
        before.len() > 0,
        reply.names_are_plain(),
        names_are_distinct(reply),
        todo_is_clear(before),
    ensures
        todo_is_clear(before[0].follow_up(reply) + before.skip(1)),
{
    let task = before[0];
    let plan = task.follow_up(reply);
    let todo = plan + before.skip(1);
    let n = plan.len() as int;
    if task is Walk && reply is Listing && reply->Listing_0 is Some {
        lemma_plan_is_clear(task->Walk_0, reply->Listing_0->0);
    }
    assert(todo_is_clear(plan));
    assert forall|i: int| n <= i < todo.len() implies #[trigger] todo[i] == before[i - n + 1] by {}
    assert forall|i: int| 0 <= i < n implies #[trigger] todo[i] == plan[i] by {}
    assert forall|i: int, j: int|
        0 <= i < todo.len() && 0 <= j < todo.len() && i != j && walks(#[trigger] todo[i]) && walks(
            #[trigger] todo[j],
        ) implies apart(todo[i].path(), todo[j].path()) by {
        if i < n && j < n {
            assert(walks(plan[i]) && walks(plan[j]));
        } else if i < n {
            lemma_follow_up_is_clear(task, reply, i, todo[j].path());
            assert(walks(before[0]) && walks(before[j - n + 1]));
        } else if j < n {
            lemma_follow_up_is_clear(task, reply, j, todo[i].path());
            assert(walks(before[0]) && walks(before[i - n + 1]));
            lemma_apart_is_symmetric(todo[j].path(), todo[i].path());
        } else {
            assert(walks(before[i - n + 1]) && walks(before[j - n + 1]));
        }
    }
    assert forall|i: int, j: int|
        0 <= i < todo.len() && 0 <= j < todo.len() && walks(#[trigger] todo[i])
            && reaper_laws::removes_entry(#[trigger] todo[j]) implies clear_of(
        todo[i].path(),
        todo[j].path(),
    ) by {
        if i < n && j < n {
            assert(walks(plan[i]) && reaper_laws::removes_entry(plan[j]));
        } else if i < n {
            lemma_follow_up_is_clear(task, reply, i, todo[j].path());
            assert(walks(before[0]) && reaper_laws::removes_entry(before[j - n + 1]));
        } else if j < n {
            lemma_follow_up_is_clear(task, reply, j, todo[i].path());
            assert(walks(before[i - n + 1]));
            if task is Walk {
                assert(walks(before[0]));
                lemma_apart_is_symmetric(todo[j].path(), todo[i].path());
            } else {
                assert(reaper_laws::removes_entry(before[0]));
            }
        } else {
            assert(walks(before[i - n + 1]) && reaper_laws::removes_entry(before[j - n + 1]));
        }
    }
    assert forall|i: int, j: int|
        0 <= i < todo.len() && 0 <= j < todo.len() && i != j && reaper_laws::removes_entry(
            #[trigger] todo[i],
        ) && reaper_laws::removes_entry(#[trigger] todo[j]) implies todo[i].path()
        != todo[j].path() by {
        if i < n && j < n {
            assert(reaper_laws::removes_entry(plan[i]) && reaper_laws::removes_entry(plan[j]));
        } else if i >= n && j >= n {
            assert(reaper_laws::removes_entry(before[i - n + 1]) && reaper_laws::removes_entry(
                before[j - n + 1],
            ));
        } else {
            let new = if i < n {
                i
            } else {
                j
            };
            let old = if i < n {
                j
            } else {
                i
            };
            lemma_follow_up_is_clear(task, reply, new, todo[old].path());
            assert(reaper_laws::removes_entry(before[old - n + 1]));
            if task is Walk {
                assert(walks(before[0]));
            } else {
                assert(reaper_laws::removes_entry(before[0]));
            }
        }
    }
}

proof fn lemma_nothing_is_settled_twice(root: Seq<u8>, replies: Seq<Reply>)
    requires
        reaper_laws::fed(TreeState::start(root, false), replies),
        reaper_laws::plain_names(replies),
        distinct_names(replies),
    ensures
        todo_is_clear(reaper_laws::run(TreeState::start(root, false), replies).todo),
        done_is_clear(
            TreeState::start(root, false),
            replies,
            reaper_laws::run(TreeState::start(root, false), replies).todo,
        ),
        settled_once(TreeState::start(root, false), replies),
    decreases replies.len(),
{
    let start = TreeState::start(root, false);
    if replies.len() > 0 {
        let init = replies.drop_last();
        let last = replies.len() - 1;
        let reply = replies.last();
        let before = reaper_laws::run(start, init).todo;
        let todo = reaper_laws::run(start, replies).todo;
        let task = before[0];
        let plan = task.follow_up(reply);
        let n = plan.len() as int;
        reaper_laws::lemma_plain_prefix(replies, last);
        assert(replies.take(last) =~= init);
        assert(distinct_names(init)) by {
            assert forall|k: int| 0 <= k < last implies names_are_distinct(#[trigger] init[k]) by {
                assert(names_are_distinct(replies[k]));
            }
        }
        assert(replies[last].names_are_plain());
        assert(names_are_distinct(replies[last]));
        lemma_nothing_is_settled_twice(root, init);
        lemma_todo_stays_clear(before, reply);
        assert(reaper_laws::answered(start, replies, last) == task);
        assert forall|k: int| 0 <= k < last implies #[trigger] settled(start, replies, k)
            == settled(start, init, k) && path_at(start, replies, k) == path_at(
            start,
            init,
            k,
        ) by {
            assert(init.take(k) =~= replies.take(k));
        }
        assert forall|i: int, k: int|
            0 <= i < todo.len() && 0 <= k < replies.len() && walks(#[trigger] todo[i])
                && #[trigger] settled(start, replies, k) implies clear_of(
            todo[i].path(),
            path_at(start, replies, k),
        ) by {
            if k < last {
                assert(settled(start, init, k));
                if i < n {
                    assert(todo[i] == plan[i]);
                    lemma_follow_up_is_clear(task, reply, i, path_at(start, replies, k));
                    assert(walks(before[0]));
                } else {
                    assert(todo[i] == before[i - n + 1]);
                    assert(walks(before[i - n + 1]));
                }
            } else {
                assert(todo[i] == before[i + 1]);
                assert(walks(before[i + 1]) && reaper_laws::removes_entry(before[0]));
            }
        }
        assert forall|i: int, k: int|
            0 <= i < todo.len() && 0 <= k < replies.len() && reaper_laws::removes_entry(
                #[trigger] todo[i],
            ) && #[trigger] settled(start, replies, k) implies todo[i].path() != path_at(
            start,
            replies,
            k,
        ) by {
            if k < last {
                assert(settled(start, init, k));
                if i < n {
                    assert(todo[i] == plan[i]);
                    lemma_follow_up_is_clear(task, reply, i, path_at(start, replies, k));
                    if task is Walk {
                        assert(walks(before[0]));
                    } else {
                        assert(reaper_laws::removes_entry(before[0]));
                    }
                } else {
                    assert(todo[i] == before[i - n + 1]);
                    assert(reaper_laws::removes_entry(before[i - n + 1]));
                }
            } else {
                assert(todo[i] == before[i + 1]);
                assert(reaper_laws::removes_entry(before[i + 1]) && reaper_laws::removes_entry(
                    before[0],
                ));
            }
        }
        assert forall|k: int, m: int|
            0 <= k < m < replies.len() && #[trigger] settled(start, replies, k)
                && #[trigger] settled(start, replies, m) implies path_at(start, replies, k)
            != path_at(start, replies, m) by {
            assert(settled(start, init, k));
            if m < last {
                assert(settled(start, init, m));
            } else {
                assert(reaper_laws::removes_entry(before[0]));
            }
        }
    }
}

/// Each failure is of another entry: no two answers that say that an entry stays are about the
/// same path. So the failures that a sweep counts are the entries that stay.
pub proof fn law_each_entry_fails_once(root: Seq<u8>, replies: Seq<Reply>, k: int, m: int)
    requires
        reaper_laws::fed(TreeState::start(root, false), replies),
        reaper_laws::plain_names(replies),
        distinct_names(replies),
        0 <= k < m < replies.len(),
        reaper_laws::answered(TreeState::start(root, false), replies, k).refused(replies[k]),
        reaper_laws::answered(TreeState::start(root, false), replies, m).refused(replies[m]),
    ensures
        reaper_laws::answered(TreeState::start(root, false), replies, k).path()
            != reaper_laws::answered(TreeState::start(root, false), replies, m).path(),
{
    let start = TreeState::start(root, false);
    lemma_nothing_is_settled_twice(root, replies);
    assert(settled(start, replies, k));
    assert(settled(start, replies, m));
}

} // verus!
