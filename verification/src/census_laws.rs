//! The census of the repository cache call by call: what each answer leads to, and what is
//! found.

use crate::cas;
use crate::cas::{CasEntry, CasReply, CasRequest, CasState, CasTask, EntryView};
use crate::cas_laws;
use crate::order;
use crate::paths;
use crate::util::{Hours, Timestamp};
use vstd::prelude::*;

verus! {

/// The call that the census of the store at `root` makes next, once it was given these answers.
pub open spec fn next_call(root: Seq<u8>, replies: Seq<CasReply>) -> Option<CasRequest<Seq<u8>>> {
    let todo = cas_laws::run(CasState::start(root, true), replies).todo;
    if todo.len() > 0 {
        Some(todo[0].request())
    } else {
        None
    }
}

/// The call that the reply number `k` answers.
pub open spec fn call_at(root: Seq<u8>, replies: Seq<CasReply>, k: int) -> CasRequest<Seq<u8>> {
    cas_laws::answered(CasState::start(root, true), replies, k).request()
}

/// A call and its answer are of a kind, and nothing more is asked of an answer; a call over bytes
/// is the same call over the bytes' sequence.
pub proof fn law_calls_and_answers_fit_by_their_kind(p: Vec<u8>, reply: CasReply)
    ensures
        reply.answers(CasRequest::List(p@)) <==> reply is Names,
        reply.answers(CasRequest::Lstat(p@)) <==> reply is RealDir,
        reply.answers(CasRequest::Stat(p@)) <==> reply is Target,
        CasRequest::List(p)@ == CasRequest::List(p@),
        CasRequest::Lstat(p)@ == CasRequest::Lstat(p@),
        CasRequest::Stat(p)@ == CasRequest::Stat(p@),
{
}

/// An entry over its bytes keeps everything that is known of it.
pub proof fn law_entries_keep_what_is_known(e: CasEntry, es: Seq<CasEntry>)
    ensures
        e@.path == e.path@ && e@.atime == e.atime && e@.size == e.size && e@.nlink == e.nlink,
        cas::entry_views(es).len() == es.len(),
        forall|i: int| 0 <= i < es.len() ==> #[trigger] cas::entry_views(es)[i] == es[i]@,
{
}

/// The census of a store that is there starts by reading it, and there is nothing else to do yet;
/// that of one that is not there is over.
pub proof fn law_census_starts_at_the_root(root: Seq<u8>)
    ensures
        next_call(root, seq![]) == Some(CasRequest::List(root)),
        CasState::start(root, true).todo.len() == 1,
        CasState::start(root, true).found.len() == 0,
        CasState::start(root, false).todo.len() == 0,
        CasState::start(root, false).found.len() == 0,
{
}

/// The names that can be read are those that are there, in the order given.
pub proof fn law_readable_names_are_those_given(names: Seq<Option<Vec<u8>>>)
    ensures
        cas::readable(names) == names.filter(|n: Option<Vec<u8>>| n is Some).map_values(
            |n: Option<Vec<u8>>| n->0,
        ),
    decreases names.len(),
{
    reveal(Seq::filter);
    let there = |n: Option<Vec<u8>>| n is Some;
    let bare = |n: Option<Vec<u8>>| n->0;
    if names.len() == 0 {
        assert(cas::readable(names) =~= names.filter(there).map_values(bare));
    } else {
        law_readable_names_are_those_given(names.drop_last());
        assert(cas::readable(names) =~= names.filter(there).map_values(bare));
    }
}

/// When a directory has been read, each of the names in it that can be read is looked at, once,
/// in the order of the names, and nothing else is added. What there was to do before comes after
/// that, and nothing is found yet.
pub proof fn law_every_name_is_looked_at(
    root: Seq<u8>,
    replies: Seq<CasReply>,
    k: int,
    d: Seq<u8>,
    names: Vec<Option<Vec<u8>>>,
)
    requires
        cas_laws::fed(CasState::start(root, true), replies),
        0 <= k < replies.len(),
        call_at(root, replies, k) == CasRequest::List(d),
        replies[k] == CasReply::Names(Some(names)),
    ensures
        ({
            let start = CasState::start(root, true);
            let before = cas_laws::run(start, replies.take(k));
            let after = cas_laws::run(start, replies.take(k + 1));
            let given = names@.filter(|n: Option<Vec<u8>>| n is Some).map_values(
                |n: Option<Vec<u8>>| n->0,
            );
            let order = order::order_of(given);
            let n = given.len() as int;
            &&& after.found == before.found
            &&& after.todo.len() == n + before.todo.len() - 1
            &&& forall|i: int|
                0 <= i < n ==> {
                    &&& 0 <= order[i] < n
                    &&& (#[trigger] after.todo[i]).request() == CasRequest::Lstat(
                        paths::joined(d, given[order[i]]@),
                    )
                }
            &&& forall|i: int, j: int|
                0 <= i < j < n ==> order[i] != order[j] && order::bytes_at_most(
                    given[#[trigger] order[i]]@,
                    given[#[trigger] order[j]]@,
                )
            &&& forall|i: int|
                n <= i < after.todo.len() ==> #[trigger] after.todo[i] == before.todo[i - n + 1]
        }),
{
    let start = CasState::start(root, true);
    lemma_fed_at(start, replies, k);
    law_readable_names_are_those_given(names@);
    let given = cas::readable(names@);
    order::law_order_sorts(given);
    let order = order::order_of(given);
    assert(cas_laws::answered(start, replies, k) == CasTask::List(d));
    assert forall|i: int, j: int| 0 <= i < j < given.len() implies order[i] != order[j]
        && order::bytes_at_most(given[#[trigger] order[i]]@, given[#[trigger] order[j]]@) by {
        order::law_ranks_are_what_they_seem(
            given[order[i]],
            given[order[j]],
            Timestamp { secs: 0, nsecs: 0 },
            Timestamp { secs: 0, nsecs: 0 },
        );
    }
}

proof fn lemma_fed_at(state: CasState, replies: Seq<CasReply>, k: int)
    requires
        cas_laws::fed(state, replies),
        0 <= k < replies.len(),
    ensures
        cas_laws::run(state, replies.take(k)).todo.len() > 0,
        replies[k].answers(cas_laws::answered(state, replies, k).request()),
        cas_laws::run(state, replies.take(k + 1)) == cas_laws::run(state, replies.take(k)).after(
            replies[k],
        ),
    decreases replies.len(),
{
    let init = replies.drop_last();
    assert(replies.take(k + 1).drop_last() =~= replies.take(k));
    if k < replies.len() - 1 {
        lemma_fed_at(state, init, k);
        assert(init.take(k) =~= replies.take(k));
    } else {
        assert(replies.take(k) =~= init);
    }
}

/// A directory that cannot be read adds nothing.
pub proof fn law_unreadable_directory_adds_nothing(root: Seq<u8>, replies: Seq<CasReply>, k: int)
    requires
        cas_laws::fed(CasState::start(root, true), replies),
        0 <= k < replies.len(),
        replies[k] == CasReply::Names(None),
    ensures
        ({
            let start = CasState::start(root, true);
            let before = cas_laws::run(start, replies.take(k));
            let after = cas_laws::run(start, replies.take(k + 1));
            after.todo == before.todo.skip(1) && after.found == before.found
        }),
{
    let start = CasState::start(root, true);
    lemma_fed_at(start, replies, k);
    let rest = cas_laws::run(start, replies.take(k)).todo.skip(1);
    assert(Seq::<CasTask<Seq<u8>>>::empty() + rest =~= rest);
}

/// A path that was found to be a directory itself is read next; any other, a symlink to one and
/// one of which nothing is known among them, is looked at with symlinks followed. Nothing else
/// changes.
pub proof fn law_real_directories_are_read(
    root: Seq<u8>,
    replies: Seq<CasReply>,
    k: int,
    p: Seq<u8>,
)
    requires
        cas_laws::fed(CasState::start(root, true), replies),
        0 <= k < replies.len(),
        call_at(root, replies, k) == CasRequest::Lstat(p),
    ensures
        ({
            let start = CasState::start(root, true);
            let before = cas_laws::run(start, replies.take(k));
            let after = cas_laws::run(start, replies.take(k + 1));
            &&& next_call(root, replies.take(k + 1)) == Some(
                if replies[k] matches CasReply::RealDir(Some(is_dir)) && is_dir {
                    CasRequest::List(p)
                } else {
                    CasRequest::Stat(p)
                },
            )
            &&& after.todo.skip(1) == before.todo.skip(1)
            &&& after.found == before.found
        }),
{
    let start = CasState::start(root, true);
    lemma_fed_at(start, replies, k);
    let rest = cas_laws::run(start, replies.take(k)).todo.skip(1);
    assert(cas_laws::answered(start, replies, k) == CasTask::Enter(p));
    assert((seq![CasTask::List(p)] + rest).skip(1) =~= rest);
    assert((seq![CasTask::Look(p)] + rest).skip(1) =~= rest);
}

/// The regular files that the answers show, in order: one for each look at a path, symlinks
/// followed, that says that it is a regular file, with what it says of it.
pub open spec fn files_shown(root: Seq<u8>, replies: Seq<CasReply>) -> Seq<EntryView>
    decreases replies.len(),
{
    if replies.len() == 0 {
        seq![]
    } else {
        let before = files_shown(root, replies.drop_last());
        match (call_at(root, replies, replies.len() - 1), replies.last()) {
            (CasRequest::Stat(p), CasReply::Target(Some(stat))) => if stat.is_file {
                before.push(
                    EntryView { path: p, atime: stat.atime, size: stat.size, nlink: stat.nlink },
                )
            } else {
                before
            },
            _ => before,
        }
    }
}

/// The census finds every regular file that it is shown, whatever its size and age, and nothing
/// else.
pub proof fn law_census_finds_every_file(root: Seq<u8>, replies: Seq<CasReply>)
    requires
        cas_laws::fed(CasState::start(root, true), replies),
    ensures
        cas_laws::run(CasState::start(root, true), replies).found == files_shown(root, replies),
    decreases replies.len(),
{
    if replies.len() > 0 {
        let init = replies.drop_last();
        law_census_finds_every_file(root, init);
        assert(replies.take(replies.len() - 1) =~= init);
        lemma_files_shown_prefix(root, replies, init);
    } else {
        assert(cas_laws::run(CasState::start(root, true), replies).found =~= files_shown(
            root,
            replies,
        ));
    }
}

proof fn lemma_files_shown_prefix(root: Seq<u8>, replies: Seq<CasReply>, init: Seq<CasReply>)
    requires
        replies.len() > 0,
        init == replies.drop_last(),
    ensures
        call_at(root, replies, replies.len() - 1) == cas_laws::run(
            CasState::start(root, true),
            init,
        ).todo[0].request(),
{
    assert(replies.take(replies.len() - 1) =~= init);
}

/// For each look at a path that says that it is a regular file there is an entry with that path
/// and with the times, size and links that it says.
pub proof fn law_shown_file_is_found(root: Seq<u8>, replies: Seq<CasReply>, k: int, p: Seq<u8>)
    requires
        cas_laws::fed(CasState::start(root, true), replies),
        0 <= k < replies.len(),
        call_at(root, replies, k) == CasRequest::Stat(p),
        replies[k] matches CasReply::Target(Some(stat)) && stat.is_file,
    ensures
        replies[k] matches CasReply::Target(Some(stat)) && cas_laws::run(
            CasState::start(root, true),
            replies,
        ).found.contains(
            EntryView { path: p, atime: stat.atime, size: stat.size, nlink: stat.nlink },
        ),
    decreases replies.len(),
{
    let start = CasState::start(root, true);
    let init = replies.drop_last();
    let before = cas_laws::run(start, init).found;
    let found = cas_laws::run(start, replies).found;
    let stat = replies[k]->Target_0->0;
    let entry = EntryView { path: p, atime: stat.atime, size: stat.size, nlink: stat.nlink };
    assert(replies.take(replies.len() - 1) =~= init);
    if k < replies.len() - 1 {
        assert(init.take(k) =~= replies.take(k));
        law_shown_file_is_found(root, init, k, p);
        let i = choose|i: int| 0 <= i < before.len() && before[i] == entry;
        assert(found[i] == entry);
    } else {
        assert(found[found.len() - 1] == entry);
    }
}

/// A look at a path, symlinks followed, adds nothing to do, whatever it shows.
pub proof fn law_look_adds_nothing_to_do(
    root: Seq<u8>,
    replies: Seq<CasReply>,
    k: int,
    p: Seq<u8>,
)
    requires
        cas_laws::fed(CasState::start(root, true), replies),
        0 <= k < replies.len(),
        call_at(root, replies, k) == CasRequest::Stat(p),
    ensures
        cas_laws::run(CasState::start(root, true), replies.take(k + 1)).todo == cas_laws::run(
            CasState::start(root, true),
            replies.take(k),
        ).todo.skip(1),
{
    let start = CasState::start(root, true);
    lemma_fed_at(start, replies, k);
    let rest = cas_laws::run(start, replies.take(k)).todo.skip(1);
    assert(Seq::<CasTask<Seq<u8>>>::empty() + rest =~= rest);
}

/// A finished census has looked at every name that it was shown.
pub proof fn law_every_shown_name_was_looked_at(
    root: Seq<u8>,
    replies: Seq<CasReply>,
    k: int,
    d: Seq<u8>,
    names: Vec<Option<Vec<u8>>>,
    i: int,
) -> (m: int)
    requires
        cas_laws::fed(CasState::start(root, true), replies),
        cas_laws::run(CasState::start(root, true), replies).todo.len() == 0,
        0 <= k < replies.len(),
        call_at(root, replies, k) == CasRequest::List(d),
        replies[k] == CasReply::Names(Some(names)),
        0 <= i < names@.len(),
        names@[i] is Some,
    ensures
        k < m < replies.len(),
        call_at(root, replies, m) == CasRequest::Lstat(paths::joined(d, names@[i]->0@)),
{
    let start = CasState::start(root, true);
    let there = |n: Option<Vec<u8>>| n is Some;
    let bare = |n: Option<Vec<u8>>| n->0;
    let given = names@.filter(there).map_values(bare);
    lemma_fed_at(start, replies, k);
    law_every_name_is_looked_at(root, replies, k, d, names);
    assert(names@.filter(there).contains(names@[i]));
    let g = choose|g: int|
        0 <= g < names@.filter(there).len() && names@.filter(there)[g] == names@[i];
    assert(given[g] == names@[i]->0);
    order::law_stable_order_exists(given);
    order::law_stable_order_is_complete(given, order::order_of(given), g);
    let o = choose|o: int| 0 <= o < given.len() && order::order_of(given)[o] == g;
    let after = cas_laws::run(start, replies.take(k + 1)).todo;
    assert(after[o].request() == CasRequest::Lstat(paths::joined(d, given[g]@)));
    cas_laws::law_nothing_is_skipped(root, replies, k + 1, o);
    choose|m: int|
        k + 1 <= m < replies.len() && #[trigger] cas_laws::answered(start, replies, m) == after[o]
}

/// An entry is stale exactly if the time since it was read is more than the cutoff.
pub proof fn law_entry_is_stale_past_the_cutoff(e: CasEntry, now: Timestamp, max_age: Hours)
    ensures
        cas::unread(e, now, max_age) <==> max_age.passed(
            (now.secs - e.atime.secs) * 1_000_000_000 + (now.nsecs - e.atime.nsecs),
        ),
{
}

/// The stale entries are those that are stale, each once, in the order given, and unchanged.
pub proof fn law_stale_entries_are_filtered(es: Seq<CasEntry>, now: Timestamp, max_age: Hours)
    ensures
        cas::unread_among(es, now, max_age) == es.filter(
            |e: CasEntry|
                max_age.passed(
                    (now.secs - e.atime.secs) * 1_000_000_000 + (now.nsecs - e.atime.nsecs),
                ),
        ),
{
    let stale = |e: CasEntry|
        max_age.passed((now.secs - e.atime.secs) * 1_000_000_000 + (now.nsecs - e.atime.nsecs));
    assert(stale =~= |e: CasEntry| cas::unread(e, now, max_age));
}

/// A task over bytes is the same task over the bytes' sequence.
pub proof fn law_tasks_keep_their_kind(p: Vec<u8>)
    ensures
        CasTask::List(p)@ == CasTask::List(p@),
        CasTask::Enter(p)@ == CasTask::Enter(p@),
        CasTask::Look(p)@ == CasTask::Look(p@),
{
}

} // verus!
