//! A sweep step by step: what it asks for, and what each answer leads to.

use crate::cas::CasEntry;
use crate::disk::Request;
use crate::policy::Judgement;
use crate::reaper::{FileStage, Removal};
use crate::report;
use crate::sweep::{Step, SweepAction, SweepOptions, SweepReply, SweepState};
use crate::sweep_laws;
use vstd::prelude::*;

verus! {

/// Where the sweep stands once it was given the first `k` of the replies.
pub open spec fn standing(options: SweepOptions, replies: Seq<SweepReply>, k: int) -> SweepState {
    sweep_laws::run(SweepState::start(options), replies.take(k))
}

/// The reply number `k` answers the step.
pub open spec fn answers_at(
    options: SweepOptions,
    replies: Seq<SweepReply>,
    k: int,
    step: Step,
) -> bool {
    &&& sweep_laws::fed(SweepState::start(options), replies)
    &&& 0 <= k < replies.len()
    &&& standing(options, replies, k).todo[0] == step
}

/// Nothing was counted in between.
pub open spec fn sums_are_kept(before: SweepState, after: SweepState) -> bool {
    &&& after.freed == before.freed
    &&& after.cas_freed == before.cas_freed
    &&& after.failures == before.failures
}

proof fn lemma_fed_at(options: SweepOptions, replies: Seq<SweepReply>, k: int)
    requires
        sweep_laws::fed(SweepState::start(options), replies),
        0 <= k < replies.len(),
    ensures
        standing(options, replies, k).todo.len() > 0,
        replies[k].answers(standing(options, replies, k).todo[0]),
        standing(options, replies, k + 1) == standing(options, replies, k).after(replies[k]),
    decreases replies.len(),
{
    let init = replies.drop_last();
    assert(replies.take(k + 1).drop_last() =~= replies.take(k));
    if k < replies.len() - 1 {
        lemma_fed_at(options, init, k);
        assert(init.take(k) =~= replies.take(k));
    } else {
        assert(replies.take(k) =~= init);
    }
}

/// Each step is answered by its kind of reply, and nothing more is asked of one.
pub proof fn law_answers_fit_by_their_kind(step: Step, reply: SweepReply)
    ensures
        step is Judge ==> (reply.answers(step) <==> reply is Judged),
        step is ScanCache ==> (reply.answers(step) <==> reply is Stale),
        step is SweepBase || step is SweepEntry ==> (reply.answers(step) <==> reply is Removed),
        step is TellBases || step is TellBase || step is TellCache || step is TellEnd ==> (
        reply.answers(step) <==> reply is Printed),
{
}

/// A sweep starts with the options that it was given and nothing counted. It has the bases
/// judged, unless they are to be skipped, then the cache scanned, unless that is to be skipped,
/// and then says what it came to.
pub proof fn law_sweep_starts_with_what_is_asked(options: SweepOptions)
    ensures
        ({
            let start = SweepState::start(options);
            &&& start.options == options
            &&& start.freed == 0 && start.cas_freed == 0 && start.failures == 0
            &&& options.cas_only && options.bases_only ==> start.todo == seq![Step::TellEnd]
            &&& options.cas_only && !options.bases_only ==> start.todo == seq![
                Step::ScanCache,
                Step::TellEnd,
            ]
            &&& !options.cas_only && options.bases_only ==> start.todo == seq![
                Step::Judge,
                Step::TellEnd,
            ]
            &&& !options.cas_only && !options.bases_only ==> start.todo == seq![
                Step::Judge,
                Step::ScanCache,
                Step::TellEnd,
            ]
        }),
{
}

/// However far a sweep has come, it has the bases judged by the tunables that it was given, each
/// of the three unchanged, and the cache searched by the same cutoff.
pub proof fn law_sweep_goes_by_its_options(
    options: SweepOptions,
    replies: Seq<SweepReply>,
    action: SweepAction,
)
    requires
        sweep_laws::run(SweepState::start(options), replies).todo.len() > 0,
        sweep_laws::run(SweepState::start(options), replies).calls_for(action),
    ensures
        sweep_laws::run(SweepState::start(options), replies).options == options,
        action matches SweepAction::Judge(p) ==> p == options.params,
        action matches SweepAction::ScanCache(hours) ==> hours == options.params.max_age_hours,
{
    sweep_laws::lemma_options_stay(options, replies);
}

/// Each step asks for what it is about: judging for a judgement, a base for the removal of its
/// tree, a scan for a scan, an entry for the removal of its file, and the others for a line.
pub proof fn law_step_asks_for_what_it_is_about(
    options: SweepOptions,
    replies: Seq<SweepReply>,
    action: SweepAction,
)
    requires
        sweep_laws::run(SweepState::start(options), replies).todo.len() > 0,
        sweep_laws::run(SweepState::start(options), replies).calls_for(action),
    ensures
        ({
            let step = sweep_laws::run(SweepState::start(options), replies).todo[0];
            &&& action is Judge <==> step is Judge
            &&& action is RemoveTree <==> step is SweepBase
            &&& action is ScanCache <==> step is ScanCache
            &&& action is RemoveFile <==> step is SweepEntry
            &&& action is Print <==> step is TellBases || step is TellBase || step is TellCache
                || step is TellEnd
        }),
{
}

/// A condemned base is removed at its own path. With `--apply` its directory is read first; else
/// there is nothing to do.
pub proof fn law_base_is_removed_at_its_path(
    options: SweepOptions,
    replies: Seq<SweepReply>,
    action: SweepAction,
    j: Judgement,
)
    requires
        sweep_laws::run(SweepState::start(options), replies).todo.len() > 0,
        sweep_laws::run(SweepState::start(options), replies).todo[0] == Step::SweepBase(j),
        sweep_laws::run(SweepState::start(options), replies).calls_for(action),
    ensures
        action matches SweepAction::RemoveTree(removal) && {
            &&& removal.root() == j.base.path@
            &&& removal@.freed == 0 && removal@.failures == 0 && removal@.error is None
            &&& options.apply ==> removal@.todo.len() > 0 && removal@.todo[0].request()
                == Request::List(j.base.path@)
            &&& !options.apply ==> removal@.todo.len() == 0
        },
{
    sweep_laws::lemma_options_stay(options, replies);
}

/// A stale entry is removed at its own path. With `--apply` it is looked at first; else there is
/// nothing to do.
pub proof fn law_entry_is_removed_at_its_path(
    options: SweepOptions,
    replies: Seq<SweepReply>,
    action: SweepAction,
    e: CasEntry,
)
    requires
        sweep_laws::run(SweepState::start(options), replies).todo.len() > 0,
        sweep_laws::run(SweepState::start(options), replies).todo[0] == Step::SweepEntry(e),
        sweep_laws::run(SweepState::start(options), replies).calls_for(action),
    ensures
        action matches SweepAction::RemoveFile(removal) && {
            &&& removal.path() == e.path@
            &&& options.apply ==> removal@.request(e.path@) == Some(Request::Lstat(e.path@))
            &&& !options.apply ==> removal@ == FileStage::<Seq<char>>::Finished(0, None)
        },
{
    sweep_laws::lemma_options_stay(options, replies);
}

/// What a sweep says is an error exactly if it is about a base that could not be removed. It
/// tells a dry run from an applied one, and counts what was counted by then.
pub proof fn law_sweep_says_what_it_counted(
    options: SweepOptions,
    replies: Seq<SweepReply>,
    action: SweepAction,
)
    requires
        sweep_laws::run(SweepState::start(options), replies).todo.len() > 0,
        sweep_laws::run(SweepState::start(options), replies).calls_for(action),
    ensures
        action matches SweepAction::Print(line) ==> {
            let state = sweep_laws::run(SweepState::start(options), replies);
            let dry = !options.apply;
            match state.todo[0] {
                Step::TellBases(total, doomed) => !line.is_error && line.text@
                    == report::bases_text(total as nat, doomed as nat),
                Step::TellBase(j, r) => {
                    &&& line.is_error <==> r.error is Some
                    &&& r.error is None ==> line.text@ == report::swept_line(dry, j, r.freed)
                    &&& r.error matches Some(e) ==> line.text@ == report::failed_line(j, e@)
                },
                Step::TellCache(entries, shared) => !line.is_error && line.text@
                    == report::cache_text(
                    dry,
                    entries as nat,
                    shared as nat,
                    state.cas_freed as nat,
                    options.params.max_age_hours,
                ),
                _ => !line.is_error && line.text@ == report::closing_text(dry, state.freed as nat),
            }
        },
{
    sweep_laws::lemma_options_stay(options, replies);
}

/// Once the bases are judged, the sweep says how many there are and how many of them are idle or
/// orphaned, removes those, each once and in the order given, and goes on with what there was to
/// do before.
pub proof fn law_condemned_bases_are_swept_next(
    options: SweepOptions,
    replies: Seq<SweepReply>,
    k: int,
    js: Vec<Judgement>,
)
    requires
        answers_at(options, replies, k, Step::Judge),
        replies[k] == SweepReply::Judged(js),
    ensures
        ({
            let before = standing(options, replies, k);
            let after = standing(options, replies, k + 1);
            let doomed = js@.filter(|j: Judgement| j.verdict is Orphaned || j.verdict is Idle);
            &&& after.todo.len() == 1 + doomed.len() + before.todo.len() - 1
            &&& after.todo[0] matches Step::TellBases(total, count) && total == js@.len() && count
                == doomed.len()
            &&& forall|i: int|
                0 <= i < doomed.len() ==> #[trigger] after.todo[1 + i] == Step::SweepBase(doomed[i])
            &&& after.todo.skip(doomed.len() as int + 1) == before.todo.skip(1)
            &&& sums_are_kept(before, after)
        }),
{
    lemma_fed_at(options, replies, k);
    let before = standing(options, replies, k);
    let after = standing(options, replies, k + 1);
    let idle = |j: Judgement| j.verdict is Orphaned || j.verdict is Idle;
    let condemning = |j: Judgement| j.verdict.condemns();
    assert(idle =~= condemning);
    let doomed = js@.filter(idle);
    report::law_counts_add_up(js@);
    assert(js.len() == js@.len());
    assert(after.todo.skip(doomed.len() as int + 1) =~= before.todo.skip(1));
}

/// Once the removal of a base is over, the sweep says so next. What it freed is added to the
/// whole, and not to what the cache freed; a removal that ended in an error counts as one failure.
pub proof fn law_removed_base_is_counted(
    options: SweepOptions,
    replies: Seq<SweepReply>,
    k: int,
    j: Judgement,
    r: Removal,
)
    requires
        answers_at(options, replies, k, Step::SweepBase(j)),
        replies[k] == SweepReply::Removed(r),
    ensures
        ({
            let before = standing(options, replies, k);
            let after = standing(options, replies, k + 1);
            &&& after.todo == seq![Step::TellBase(j, r)] + before.todo.skip(1)
            &&& after.freed == before.freed + r.freed
            &&& after.cas_freed == before.cas_freed
            &&& after.failures == before.failures + if r.error is Some {
                1int
            } else {
                0
            }
        }),
{
    lemma_fed_at(options, replies, k);
}

/// Once the cache is searched, the sweep removes every entry that was found, each once and in the
/// order given, then says how many there were and how many of them have more links than one, and
/// goes on with what there was to do before.
pub proof fn law_stale_entries_are_swept_next(
    options: SweepOptions,
    replies: Seq<SweepReply>,
    k: int,
    es: Vec<CasEntry>,
)
    requires
        answers_at(options, replies, k, Step::ScanCache),
        replies[k] == SweepReply::Stale(es),
    ensures
        ({
            let before = standing(options, replies, k);
            let after = standing(options, replies, k + 1);
            let shared = es@.filter(|e: CasEntry| e.nlink > 1);
            let n = es@.len() as int;
            &&& after.todo.len() == n + 1 + before.todo.len() - 1
            &&& forall|i: int| 0 <= i < n ==> #[trigger] after.todo[i] == Step::SweepEntry(es@[i])
            &&& after.todo[n] matches Step::TellCache(total, count) && total == n && count
                == shared.len()
            &&& after.todo.skip(n + 1) == before.todo.skip(1)
            &&& sums_are_kept(before, after)
        }),
{
    lemma_fed_at(options, replies, k);
    let before = standing(options, replies, k);
    let after = standing(options, replies, k + 1);
    let n = es@.len() as int;
    law_shared_entries_have_more_links(es@);
    assert(es.len() == es@.len());
    assert(after.todo.skip(n + 1) =~= before.todo.skip(1));
}

/// The entries that are hardlinked elsewhere are those with more links than one.
pub proof fn law_shared_entries_have_more_links(es: Seq<CasEntry>)
    ensures
        report::shared_among(es) == es.filter(|e: CasEntry| e.nlink > 1).len(),
        report::shared_among(es) <= es.len(),
    decreases es.len(),
{
    reveal(Seq::filter);
    if es.len() > 0 {
        law_shared_entries_have_more_links(es.drop_last());
    }
}

/// Once the removal of an entry is over, the sweep goes on. What it freed is added to the whole
/// and to what the cache freed; a removal that ended in an error counts as one failure.
pub proof fn law_removed_entry_is_counted(
    options: SweepOptions,
    replies: Seq<SweepReply>,
    k: int,
    e: CasEntry,
    r: Removal,
)
    requires
        answers_at(options, replies, k, Step::SweepEntry(e)),
        replies[k] == SweepReply::Removed(r),
    ensures
        ({
            let before = standing(options, replies, k);
            let after = standing(options, replies, k + 1);
            &&& after.todo == before.todo.skip(1)
            &&& after.freed == before.freed + r.freed
            &&& after.cas_freed == before.cas_freed + r.freed
            &&& after.failures == before.failures + if r.error is Some {
                1int
            } else {
                0
            }
        }),
{
    lemma_fed_at(options, replies, k);
    let rest = standing(options, replies, k).todo.skip(1);
    assert(Seq::<Step>::empty() + rest =~= rest);
}

/// Once something is printed, the sweep goes on, and nothing else changes.
pub proof fn law_printing_counts_nothing(
    options: SweepOptions,
    replies: Seq<SweepReply>,
    k: int,
    step: Step,
)
    requires
        answers_at(options, replies, k, step),
        replies[k] is Printed,
    ensures
        standing(options, replies, k + 1).todo == standing(options, replies, k).todo.skip(1),
        sums_are_kept(standing(options, replies, k), standing(options, replies, k + 1)),
{
    lemma_fed_at(options, replies, k);
    let rest = standing(options, replies, k).todo.skip(1);
    assert(Seq::<Step>::empty() + rest =~= rest);
}

/// The exit code is 1 if a removal ended in an error, and 0 if none did.
pub proof fn law_exit_code_goes_by_the_errors(options: SweepOptions, replies: Seq<SweepReply>)
    requires
        sweep_laws::fed(SweepState::start(options), replies),
    ensures
        sweep_laws::run(SweepState::start(options), replies).code() == if exists|k: int|
            0 <= k < replies.len() && (#[trigger] replies[k] matches SweepReply::Removed(r)
                && r.error is Some) {
            1int
        } else {
            0
        },
{
    sweep_laws::law_sweep_adds_up(options, replies);
    assert forall|k: int| 0 <= k < replies.len() implies (#[trigger] replies[k]).failed() == (
    replies[k] matches SweepReply::Removed(r) && r.error is Some) by {}
}

/// The counts of a sweep are of 64 bits: there is no room for a removal that would take the bytes
/// or the failures past what they hold, and there is for any other reply.
pub proof fn law_room_is_64_bits(state: SweepState, reply: SweepReply)
    requires
        0 <= state.freed <= 0xffff_ffff_ffff_ffff,
    ensures
        state.room(reply) == (match reply {
            SweepReply::Removed(r) => state.freed + r.freed <= 0xffff_ffff_ffff_ffff && (
            r.error is Some ==> state.failures < 0xffff_ffff_ffff_ffff),
            _ => true,
        }),
{
}

} // verus!
