//! What holds of every census of a CAS, whatever the filesystem answers.

use crate::cas;
use crate::cas::{CasEntry, CasReply, CasRequest, CasState, CasTask, EntryView};
use crate::order;
use crate::paths;
use crate::util;
use crate::util::{Hours, Timestamp};
use vstd::prelude::*;

verus! {

/// A scan once the replies are fed to it, in order.
pub open spec fn run(state: CasState, replies: Seq<CasReply>) -> CasState
    decreases replies.len(),
{
    if replies.len() == 0 {
        state
    } else {
        run(state, replies.drop_last()).after(replies.last())
    }
}

/// Each of the replies answers the call that the scan needed by then.
pub open spec fn fed(state: CasState, replies: Seq<CasReply>) -> bool
    decreases replies.len(),
{
    replies.len() > 0 ==> {
        let before = run(state, replies.drop_last());
        &&& fed(state, replies.drop_last())
        &&& before.todo.len() > 0
        &&& replies.last().answers(before.todo[0].request())
    }
}

/// The task that the reply number `k` answers.
pub open spec fn answered(state: CasState, replies: Seq<CasReply>, k: int) -> CasTask<Seq<u8>> {
    run(state, replies.take(k)).todo[0]
}

/// Every name that a listing gives is a single ordinary component.
pub open spec fn plain_names(replies: Seq<CasReply>) -> bool {
    forall|k: int| 0 <= k < replies.len() ==> (#[trigger] replies[k]).names_are_plain()
}

/// A task's follow-up is about the task's own path, or about a name listed in it.
proof fn lemma_follow_up_path(task: CasTask<Seq<u8>>, reply: CasReply, i: int)
    requires
        reply.names_are_plain(),
        0 <= i < task.follow_up(reply).len(),
    ensures
        (task.follow_up(reply)[i].path() == task.path() && task is Enter) || (task is List
            && exists|name: Seq<u8>|
            paths::plain_name(name) && task.follow_up(reply)[i].path() == #[trigger] paths::joined(
                task.path(),
                name,
            )),
{
    match (task, reply) {
        (CasTask::List(d), CasReply::Names(Some(names))) => {
            let all = cas::readable(names@);
            order::law_stable_order_exists(all);
            let k = order::order_of(all)[i];
            assert(paths::plain_name(all[k]@));
            assert(task.follow_up(reply)[i].path() == paths::joined(task.path(), all[k]@));
        },
        _ => {},
    }
}

proof fn lemma_plain_prefix(replies: Seq<CasReply>)
    requires
        plain_names(replies),
        replies.len() > 0,
    ensures
        plain_names(replies.drop_last()),
        replies.last().names_are_plain(),
{
    assert forall|k: int| 0 <= k < replies.len() - 1 implies (
    #[trigger] replies.drop_last()[k]).names_are_plain() by {
        assert(replies[k].names_are_plain());
    }
    assert(replies[replies.len() - 1].names_are_plain());
}

/// A store that is not there yields nothing, without a call.
pub proof fn law_missing_store_yields_nothing(root: Seq<u8>, replies: Seq<CasReply>)
    requires
        fed(CasState::start(root, false), replies),
    ensures
        replies.len() == 0,
        run(CasState::start(root, false), replies).todo.len() == 0,
        run(CasState::start(root, false), replies).found.len() == 0,
    decreases replies.len(),
{
    if replies.len() > 0 {
        law_missing_store_yields_nothing(root, replies.drop_last());
    }
}

/// A scan names no path outside the store, and finds none: each is the root, or is reached
/// from it by listed names alone.
pub proof fn law_scan_stays_inside_the_store(root: Seq<u8>, replies: Seq<CasReply>)
    requires
        fed(CasState::start(root, true), replies),
        plain_names(replies),
    ensures
        forall|i: int|
            0 <= i < run(CasState::start(root, true), replies).todo.len() ==> paths::inside(
                root,
                (#[trigger] run(CasState::start(root, true), replies).todo[i]).path(),
            ),
        forall|i: int|
            0 <= i < run(CasState::start(root, true), replies).found.len() ==> paths::inside(
                root,
                (#[trigger] run(CasState::start(root, true), replies).found[i]).path,
            ),
    decreases replies.len(),
{
    let start = CasState::start(root, true);
    if replies.len() > 0 {
        let before = run(start, replies.drop_last());
        let reply = replies.last();
        let task = before.todo[0];
        lemma_plain_prefix(replies);
        law_scan_stays_inside_the_store(root, replies.drop_last());
        let after = run(start, replies);
        let n = task.follow_up(reply).len();
        assert(paths::inside(root, task.path()));
        assert forall|i: int| 0 <= i < after.todo.len() implies paths::inside(
            root,
            (#[trigger] after.todo[i]).path(),
        ) by {
            if i < n {
                lemma_follow_up_path(task, reply, i);
                if task is List {
                    let name = choose|name: Seq<u8>|
                        paths::plain_name(name) && task.follow_up(reply)[i].path()
                            == #[trigger] paths::joined(task.path(), name);
                    paths::law_inside_is_closed(root, task.path(), name);
                }
            } else {
                assert(after.todo[i] == before.todo[i - n + 1]);
            }
        }
        assert forall|i: int| 0 <= i < after.found.len() implies paths::inside(
            root,
            (#[trigger] after.found[i]).path,
        ) by {
            if i < before.found.len() {
                assert(after.found[i] == before.found[i]);
            }
        }
    }
}

/// Whenever the path is asked about, `lstat` does not say that it is a directory: it is a
/// symlink, for one.
pub open spec fn told_no_directory(state: CasState, replies: Seq<CasReply>, link: Seq<u8>) -> bool {
    forall|k: int|
        0 <= k < replies.len() && (#[trigger] answered(state, replies, k)).request()
            == CasRequest::Lstat(link) ==> replies[k] != CasReply::RealDir(Some(true))
}

/// A symlinked directory is not descended into: the scan does not list it, makes no call for
/// anything below it, and finds nothing there.
pub proof fn law_symlinked_directory_is_not_entered(
    root: Seq<u8>,
    link: Seq<u8>,
    replies: Seq<CasReply>,
)
    requires
        fed(CasState::start(root, true), replies),
        plain_names(replies),
        paths::under(root, link),
        link.last() != paths::SLASH,
        told_no_directory(CasState::start(root, true), replies, link),
    ensures
        forall|i: int|
            #![trigger run(CasState::start(root, true), replies).todo[i]]
            0 <= i < run(CasState::start(root, true), replies).todo.len() ==> {
                let task = run(CasState::start(root, true), replies).todo[i];
                &&& task.request() != CasRequest::List(link)
                &&& !paths::under(link, task.path())
            },
        forall|i: int|
            0 <= i < run(CasState::start(root, true), replies).found.len() ==> !paths::under(
                link,
                (#[trigger] run(CasState::start(root, true), replies).found[i]).path,
            ),
    decreases replies.len(),
{
    let start = CasState::start(root, true);
    if replies.len() > 0 {
        let before = run(start, replies.drop_last());
        let reply = replies.last();
        let task = before.todo[0];
        let last = replies.len() - 1;
        assert forall|k: int| 0 <= k < last implies (#[trigger] answered(
            start,
            replies.drop_last(),
            k,
        )) == answered(start, replies, k) by {
            assert(replies.drop_last().take(k) =~= replies.take(k));
        }
        assert(replies.take(last) =~= replies.drop_last());
        assert(answered(start, replies, last) == task);
        lemma_plain_prefix(replies);
        law_symlinked_directory_is_not_entered(root, link, replies.drop_last());
        law_scan_stays_inside_the_store(root, replies.drop_last());
        let after = run(start, replies);
        let n = task.follow_up(reply).len();
        assert(before.todo[0] == task);
        assert forall|i: int| 0 <= i < after.todo.len() implies {
            &&& (#[trigger] after.todo[i]).request() != CasRequest::List(link)
            &&& !paths::under(link, after.todo[i].path())
        } by {
            if i < n {
                lemma_follow_up_path(task, reply, i);
                if task is List {
                    let name = choose|name: Seq<u8>|
                        paths::plain_name(name) && task.follow_up(reply)[i].path()
                            == #[trigger] paths::joined(task.path(), name);
                    if paths::under(link, after.todo[i].path()) {
                        paths::law_below_a_listed_directory(root, link, task.path(), name);
                    }
                }
            } else {
                assert(after.todo[i] == before.todo[i - n + 1]);
            }
        }
        assert forall|i: int| 0 <= i < after.found.len() implies !paths::under(
            link,
            (#[trigger] after.found[i]).path,
        ) by {
            if i < before.found.len() {
                assert(after.found[i] == before.found[i]);
            }
        }
    }
}

/// A scan finds exactly the regular files it was shown.
pub proof fn law_found_is_what_was_shown(root: Seq<u8>, replies: Seq<CasReply>, entry: EntryView)
    requires
        fed(CasState::start(root, true), replies),
    ensures
        run(CasState::start(root, true), replies).found.contains(entry) <==> exists|k: int|
            0 <= k < replies.len() && (#[trigger] answered(
                CasState::start(root, true),
                replies,
                k,
            )).shown(replies[k]) == Some(entry),
    decreases replies.len(),
{
    let start = CasState::start(root, true);
    if replies.len() > 0 {
        let init = replies.drop_last();
        let last = replies.len() - 1;
        let before = run(start, init);
        let after = run(start, replies);
        law_found_is_what_was_shown(root, init, entry);
        assert(replies.take(last) =~= init);
        assert(answered(start, replies, last) == before.todo[0]);
        assert forall|k: int| 0 <= k < last implies (#[trigger] answered(start, init, k))
            == answered(start, replies, k) by {
            assert(init.take(k) =~= replies.take(k));
        }
        if after.found.contains(entry) {
            let i = choose|i: int| 0 <= i < after.found.len() && after.found[i] == entry;
            if i < before.found.len() {
                assert(before.found[i] == entry);
                let k = choose|k: int|
                    0 <= k < init.len() && (#[trigger] answered(start, init, k)).shown(init[k])
                        == Some(entry);
                assert(answered(start, replies, k).shown(replies[k]) == Some(entry));
            }
        }
        if exists|k: int|
            0 <= k < replies.len() && (#[trigger] answered(start, replies, k)).shown(replies[k])
                == Some(entry) {
            let k = choose|k: int|
                0 <= k < replies.len() && (#[trigger] answered(start, replies, k)).shown(replies[k])
                    == Some(entry);
            if k < last {
                assert(answered(start, init, k).shown(init[k]) == Some(entry));
                let i = choose|i: int| 0 <= i < before.found.len() && before.found[i] == entry;
                assert(after.found[i] == entry);
            } else {
                assert(after.found[after.found.len() - 1] == entry);
            }
        }
    }
}

/// A finished scan has skipped nothing: whatever it had to do at some point, it did at that
/// point or later.
pub proof fn law_nothing_is_skipped(root: Seq<u8>, replies: Seq<CasReply>, k: int, i: int)
    requires
        fed(CasState::start(root, true), replies),
        run(CasState::start(root, true), replies).todo.len() == 0,
        0 <= k <= replies.len(),
        0 <= i < run(CasState::start(root, true), replies.take(k)).todo.len(),
    ensures
        exists|m: int|
            k <= m < replies.len() && #[trigger] answered(CasState::start(root, true), replies, m)
                == run(CasState::start(root, true), replies.take(k)).todo[i],
    decreases replies.len() - k,
{
    let start = CasState::start(root, true);
    let here = run(start, replies.take(k));
    if k == replies.len() {
        assert(replies.take(k) =~= replies);
    } else if i == 0 {
        assert(answered(start, replies, k) == here.todo[0]);
    } else {
        let next = replies.take(k + 1);
        assert(next.drop_last() =~= replies.take(k));
        let n = here.todo[0].follow_up(replies[k]).len();
        assert(run(start, next).todo[i - 1 + n] == here.todo[i]);
        law_nothing_is_skipped(root, replies, k + 1, i - 1 + n);
        let m = choose|m: int|
            k + 1 <= m < replies.len() && #[trigger] answered(start, replies, m) == run(
                start,
                next,
            ).todo[i - 1 + n];
        assert(answered(start, replies, m) == here.todo[i]);
    }
}

/// `p` comes before `q` component by component: they part at some directory, where the name
/// that leads to `p` is the lesser one.
pub open spec fn comes_before(p: Seq<u8>, q: Seq<u8>) -> bool {
    exists|d: Seq<u8>, a: Seq<u8>, b: Seq<u8>|
        #![trigger paths::joined(d, a), paths::joined(d, b)]
        parted_at(d, a, b, p, q)
}

/// `p` and `q` part at the directory `d`, `p` by way of the name `a` and `q` by way of the
/// greater name `b`.
pub open spec fn parted_at(
    d: Seq<u8>,
    a: Seq<u8>,
    b: Seq<u8>,
    p: Seq<u8>,
    q: Seq<u8>,
) -> bool {
    &&& paths::plain_name(a)
    &&& paths::plain_name(b)
    &&& a != b
    &&& order::bytes_at_most(a, b)
    &&& paths::inside(paths::joined(d, a), p)
    &&& paths::inside(paths::joined(d, b), q)
}

/// No listing gives a name twice.
pub open spec fn distinct_names(replies: Seq<CasReply>) -> bool {
    forall|k: int| 0 <= k < replies.len() ==> names_are_distinct(#[trigger] replies[k])
}

/// The reply gives no name twice.
pub open spec fn names_are_distinct(reply: CasReply) -> bool {
    match reply {
        CasReply::Names(Some(names)) => forall|i: int, j: int|
            0 <= i < j < cas::readable(names@).len() ==> (#[trigger] cas::readable(names@)[i])@ != (
            #[trigger] cas::readable(names@)[j])@,
        _ => true,
    }
}

/// A path that comes before another is another path.
pub proof fn law_order_is_strict(p: Seq<u8>, q: Seq<u8>)
    requires
        comes_before(p, q),
    ensures
        p != q,
{
    let (d, a, b) = choose|d: Seq<u8>, a: Seq<u8>, b: Seq<u8>|
        #![trigger paths::joined(d, a), paths::joined(d, b)]
        parted_at(d, a, b, p, q);
    paths::law_siblings_share_nothing(d, a, b, p);
}

proof fn lemma_order_holds_below(p: Seq<u8>, q: Seq<u8>, name: Seq<u8>)
    requires
        comes_before(p, q),
        paths::plain_name(name),
    ensures
        comes_before(paths::joined(p, name), q),
        comes_before(p, paths::joined(q, name)),
{
    let (d, a, b) = choose|d: Seq<u8>, a: Seq<u8>, b: Seq<u8>|
        #![trigger paths::joined(d, a), paths::joined(d, b)]
        parted_at(d, a, b, p, q);
    paths::law_inside_is_closed(paths::joined(d, a), p, name);
    paths::law_inside_is_closed(paths::joined(d, b), q, name);
    assert(parted_at(d, a, b, paths::joined(p, name), q));
    assert(parted_at(d, a, b, p, paths::joined(q, name)));
}

/// Paths stand in order, each before every later one.
pub open spec fn ascending(ps: Seq<Seq<u8>>) -> bool {
    forall|i: int, j: int|
        0 <= i < j < ps.len() ==> comes_before(#[trigger] ps[i], #[trigger] ps[j])
}

/// The paths that a scan has found, and then those that it still has to look at.
pub open spec fn paths_of(state: CasState) -> Seq<Seq<u8>> {
    state.found.map_values(|e: EntryView| e.path) + state.todo.map_values(
        |t: CasTask<Seq<u8>>| t.path(),
    )
}

proof fn lemma_children_ascend(d: Seq<u8>, reply: CasReply, i: int, j: int)
    requires
        reply.names_are_plain(),
        names_are_distinct(reply),
        0 <= i < j < CasTask::List(d).follow_up(reply).len(),
    ensures
        comes_before(
            CasTask::List(d).follow_up(reply)[i].path(),
            CasTask::List(d).follow_up(reply)[j].path(),
        ),
{
    match reply {
        CasReply::Names(Some(names)) => {
            let all = cas::readable(names@);
            order::law_stable_order_exists(all);
            let order = order::order_of(all);
            assert(order::precedes(all, order[i], order[j]));
            order::law_stable_order_has_no_duplicates(all, order, i, j);
            let a = all[order[i]]@;
            let b = all[order[j]]@;
            assert(a != b) by {
                if order[i] < order[j] {
                    assert(all[order[i]]@ != all[order[j]]@);
                } else {
                    assert(all[order[j]]@ != all[order[i]]@);
                }
            }
            assert(paths::inside(paths::joined(d, a), paths::joined(d, a)));
            assert(paths::inside(paths::joined(d, b), paths::joined(d, b)));
            assert(parted_at(d, a, b, paths::joined(d, a), paths::joined(d, b)));
        },
        _ => {},
    }
}

proof fn lemma_scan_ascends(root: Seq<u8>, replies: Seq<CasReply>)
    requires
        fed(CasState::start(root, true), replies),
        plain_names(replies),
        distinct_names(replies),
    ensures
        ascending(paths_of(run(CasState::start(root, true), replies))),
    decreases replies.len(),
{
    let start = CasState::start(root, true);
    let after = run(start, replies);
    let ps = paths_of(after);
    if replies.len() > 0 {
        let init = replies.drop_last();
        let reply = replies.last();
        let before = run(start, init);
        let task = before.todo[0];
        let plan = task.follow_up(reply);
        let was = paths_of(before);
        lemma_plain_prefix(replies);
        assert(distinct_names(init)) by {
            assert forall|k: int| 0 <= k < init.len() implies names_are_distinct(
                #[trigger] init[k],
            ) by {
                assert(names_are_distinct(replies[k]));
            }
        }
        assert(names_are_distinct(replies[replies.len() - 1]));
        lemma_scan_ascends(root, init);
        let f = before.found.len() as int;
        let g = after.found.len() as int;
        let n = plan.len() as int;
        assert(was[f] == task.path());
        assert forall|i: int, j: int| 0 <= i < j < ps.len() implies comes_before(
            #[trigger] ps[i],
            #[trigger] ps[j],
        ) by {
            // Where the path stood before: that of the task, for what the task led to.
            let pi = if i < f {
                i
            } else if i < g + n {
                f
            } else {
                i - g - n + f + 1
            };
            let pj = if j < f {
                j
            } else if j < g + n {
                f
            } else {
                j - g - n + f + 1
            };
            lemma_path_comes_from(root, init, reply, i);
            lemma_path_comes_from(root, init, reply, j);
            if pi < pj {
                assert(comes_before(was[pi], was[pj]));
                if ps[i] != was[pi] {
                    let name = choose|name: Seq<u8>|
                        paths::plain_name(name) && ps[i] == #[trigger] paths::joined(was[pi], name);
                    lemma_order_holds_below(was[pi], was[pj], name);
                }
                if ps[j] != was[pj] {
                    let name = choose|name: Seq<u8>|
                        paths::plain_name(name) && ps[j] == #[trigger] paths::joined(was[pj], name);
                    lemma_order_holds_below(ps[i], was[pj], name);
                }
            } else {
                assert(task is List);
                lemma_children_ascend(task.path(), reply, i - g, j - g);
            }
        }
    }
}

/// After a step, each path of a scan is one of those before it, or a name listed in the path of
/// the task that was next.
proof fn lemma_path_comes_from(root: Seq<u8>, init: Seq<CasReply>, reply: CasReply, i: int)
    requires
        run(CasState::start(root, true), init).todo.len() > 0,
        reply.names_are_plain(),
        0 <= i < paths_of(run(CasState::start(root, true), init).after(reply)).len(),
    ensures
        ({
            let before = run(CasState::start(root, true), init);
            let after = before.after(reply);
            let f = before.found.len() as int;
            let g = after.found.len() as int;
            let n = before.todo[0].follow_up(reply).len() as int;
            let p = paths_of(after)[i];
            let was = paths_of(before);
            if i < f {
                p == was[i]
            } else if i < g + n {
                p == was[f] || exists|name: Seq<u8>|
                    paths::plain_name(name) && p == #[trigger] paths::joined(was[f], name)
            } else {
                p == was[i - g - n + f + 1]
            }
        }),
{
    let before = run(CasState::start(root, true), init);
    let after = before.after(reply);
    let task = before.todo[0];
    let g = after.found.len() as int;
    if g <= i < g + task.follow_up(reply).len() {
        lemma_follow_up_path(task, reply, i - g);
        assert(paths_of(after)[i] == task.follow_up(reply)[i - g].path());
    }
}

/// A scan finds its entries in ascending order, component by component, and none twice.
pub proof fn law_census_ascends(root: Seq<u8>, replies: Seq<CasReply>)
    requires
        fed(CasState::start(root, true), replies),
        plain_names(replies),
        distinct_names(replies),
    ensures
        forall|i: int, j: int|
            0 <= i < j < run(CasState::start(root, true), replies).found.len() ==> comes_before(
                (#[trigger] run(CasState::start(root, true), replies).found[i]).path,
                (#[trigger] run(CasState::start(root, true), replies).found[j]).path,
            ),
        forall|i: int, j: int|
            0 <= i < j < run(CasState::start(root, true), replies).found.len() ==> (
            #[trigger] run(CasState::start(root, true), replies).found[i]).path != (
            #[trigger] run(CasState::start(root, true), replies).found[j]).path,
{
    let state = run(CasState::start(root, true), replies);
    let ps = paths_of(state);
    lemma_scan_ascends(root, replies);
    assert forall|i: int, j: int| 0 <= i < j < state.found.len() implies comes_before(
        (#[trigger] state.found[i]).path,
        (#[trigger] state.found[j]).path,
    ) by {
        assert(ps[i] == state.found[i].path);
        assert(ps[j] == state.found[j].path);
    }
    assert forall|i: int, j: int| 0 <= i < j < state.found.len() implies (
    #[trigger] state.found[i]).path != (#[trigger] state.found[j]).path by {
        law_order_is_strict(state.found[i].path, state.found[j].path);
    }
}

/// The calls that a task takes at most, those that a listing will add aside.
pub open spec fn cost(task: CasTask<Seq<u8>>) -> int {
    if task is Enter {
        2
    } else {
        1
    }
}

/// The calls that a list of tasks takes at most, those that listings will add aside.
pub open spec fn total_cost(todo: Seq<CasTask<Seq<u8>>>) -> int
    decreases todo.len(),
{
    if todo.len() == 0 {
        0
    } else {
        total_cost(todo.drop_last()) + cost(todo.last())
    }
}

/// The names that all the replies give.
pub open spec fn names_given(replies: Seq<CasReply>) -> int
    decreases replies.len(),
{
    if replies.len() == 0 {
        0
    } else {
        names_given(replies.drop_last()) + names_in(replies.last())
    }
}

/// The names that a reply gives.
pub open spec fn names_in(reply: CasReply) -> int {
    match reply {
        CasReply::Names(Some(names)) => names@.len() as int,
        _ => 0,
    }
}

proof fn lemma_total_cost_of_concat(a: Seq<CasTask<Seq<u8>>>, b: Seq<CasTask<Seq<u8>>>)
    ensures
        total_cost(a + b) == total_cost(a) + total_cost(b),
    decreases b.len(),
{
    if b.len() == 0 {
        assert(a + b =~= a);
    } else {
        assert((a + b).drop_last() =~= a + b.drop_last());
        assert((a + b).last() == b.last());
        lemma_total_cost_of_concat(a, b.drop_last());
    }
}

proof fn lemma_total_cost_bounds(todo: Seq<CasTask<Seq<u8>>>)
    ensures
        0 <= total_cost(todo) <= 2 * todo.len(),
    decreases todo.len(),
{
    if todo.len() > 0 {
        lemma_total_cost_bounds(todo.drop_last());
    }
}

proof fn lemma_readable_count(names: Seq<Option<Vec<u8>>>)
    ensures
        cas::readable(names).len() <= names.len(),
    decreases names.len(),
{
    if names.len() > 0 {
        lemma_readable_count(names.drop_last());
    }
}

proof fn lemma_follow_up_cost(task: CasTask<Seq<u8>>, reply: CasReply)
    ensures
        total_cost(task.follow_up(reply)) + 1 <= cost(task) + 2 * names_in(reply),
{
    match (task, reply) {
        (CasTask::List(d), CasReply::Names(Some(names))) => {
            lemma_readable_count(names@);
            order::law_stable_order_exists(cas::readable(names@));
            lemma_total_cost_bounds(task.follow_up(reply));
        },
        _ => {
            let plan = task.follow_up(reply);
            if plan.len() > 0 {
                assert(plan.len() == 1);
                assert(total_cost(plan.drop_last()) == 0);
            }
        },
    }
}

/// A scan comes to an end: it makes one call, and two at most for each name it is given.
pub proof fn law_scan_ends(root: Seq<u8>, replies: Seq<CasReply>)
    requires
        fed(CasState::start(root, true), replies),
    ensures
        replies.len() + total_cost(run(CasState::start(root, true), replies).todo) <= 1 + 2
            * names_given(replies),
        replies.len() <= 1 + 2 * names_given(replies),
    decreases replies.len(),
{
    let start = CasState::start(root, true);
    lemma_total_cost_bounds(run(start, replies).todo);
    if replies.len() == 0 {
        assert(total_cost(start.todo.drop_last()) == 0);
    } else {
        let before = run(start, replies.drop_last());
        let reply = replies.last();
        let task = before.todo[0];
        law_scan_ends(root, replies.drop_last());
        lemma_follow_up_cost(task, reply);
        lemma_total_cost_of_concat(task.follow_up(reply), before.todo.skip(1));
        lemma_total_cost_of_concat(seq![task], before.todo.skip(1));
        assert(before.todo =~= seq![task] + before.todo.skip(1));
        assert(total_cost(seq![task].drop_last()) == 0);
    }
}

/// An entry read at the cutoff, or since, is kept; one read before it goes.
pub proof fn law_stale_is_unread_past_the_cutoff(
    entry: CasEntry,
    now: Timestamp,
    max_age: Hours,
    ns: int,
)
    requires
        max_age.lasts(ns),
    ensures
        cas::unread(entry, now, max_age) <==> entry.atime.ns() < now.ns() - ns,
{
    util::law_spans_compare_exactly(max_age, ns, now.ns() - entry.atime.ns());
}

/// What is stale now is stale later, if it is not read in between.
pub proof fn law_stale_stays_stale(
    entry: CasEntry,
    now: Timestamp,
    later: Timestamp,
    max_age: Hours,
)
    requires
        now.ns() <= later.ns(),
        cas::unread(entry, now, max_age),
    ensures
        cas::unread(entry, later, max_age),
{
    util::law_spans_stay_reached(
        max_age,
        now.ns() - entry.atime.ns(),
        later.ns() - entry.atime.ns(),
    );
}

/// The store lies in the repository cache of the output_user_root.
pub proof fn law_store_is_in_the_repository_cache(root: Seq<u8>)
    ensures
        paths::inside(paths::joined_text(root, "cache"@), cas::store_root(root)),
        paths::under(root, cas::store_root(root)),
{
    reveal_strlit("cache");
    reveal_strlit("repos");
    reveal_strlit("v1");
    reveal_strlit("content_addressable");
    paths::lemma_word_is_plain("cache"@);
    paths::lemma_word_is_plain("repos"@);
    paths::lemma_word_is_plain("v1"@);
    paths::lemma_word_is_plain("content_addressable"@);
    let cache = paths::joined_text(root, "cache"@);
    let repos = paths::joined_text(cache, "repos"@);
    let v1 = paths::joined_text(repos, "v1"@);
    paths::law_inside_is_closed(cache, cache, vstd::utf8::encode_utf8("repos"@));
    paths::law_inside_is_closed(cache, repos, vstd::utf8::encode_utf8("v1"@));
    paths::law_inside_is_closed(cache, v1, vstd::utf8::encode_utf8("content_addressable"@));
    paths::law_inside_is_root_or_under(cache, cas::store_root(root));
    paths::law_join_is_under(root, vstd::utf8::encode_utf8("cache"@));
    if cas::store_root(root) != cache {
        paths::law_under_is_transitive(root, cache, cas::store_root(root));
    }
}

} // verus!
