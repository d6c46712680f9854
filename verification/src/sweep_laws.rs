//! What holds of every whole sweep, whatever it is told.

use crate::cas;
use crate::cas::CasEntry;
use crate::layout::OutputBase;
use crate::policy;
use crate::policy::{Judgement, Probe};
use crate::reaper;
use crate::reaper::{FileStage, TreeState};
use crate::sweep;
use crate::sweep::{Step, SweepAction, SweepOptions, SweepReply, SweepState};
use crate::util::Timestamp;
use vstd::prelude::*;

verus! {

/// A sweep once the replies are fed to it, in order.
pub open spec fn run(state: SweepState, replies: Seq<SweepReply>) -> SweepState
    decreases replies.len(),
{
    if replies.len() == 0 {
        state
    } else {
        run(state, replies.drop_last()).after(replies.last())
    }
}

/// Each of the replies answers the step that was next by then.
pub open spec fn fed(state: SweepState, replies: Seq<SweepReply>) -> bool
    decreases replies.len(),
{
    replies.len() > 0 ==> {
        let before = run(state, replies.drop_last());
        &&& fed(state, replies.drop_last())
        &&& before.todo.len() > 0
        &&& replies.last().answers(before.todo[0])
    }
}

/// The step that the reply number `k` answers.
pub open spec fn answered(state: SweepState, replies: Seq<SweepReply>, k: int) -> Step {
    run(state, replies.take(k)).todo[0]
}

/// The step may stand before the other in a list of steps: the bases are judged before one is
/// swept, they go before the cache is scanned, and the end comes last.
pub open spec fn may_precede(a: Step, b: Step) -> bool {
    match a {
        Step::Judge => b is ScanCache || b is TellEnd,
        Step::TellBases(_, _) => !(b is Judge),
        Step::SweepBase(_) => !(b is Judge),
        Step::TellBase(_, _) => !(b is Judge),
        Step::ScanCache => b is TellEnd,
        Step::SweepEntry(_) => b is SweepEntry || b is TellCache || b is TellEnd,
        Step::TellCache(_, _) => b is SweepEntry || b is TellCache || b is TellEnd,
        Step::TellEnd => false,
    }
}

/// Every step stands where it may.
pub open spec fn well_ordered(todo: Seq<Step>) -> bool {
    forall|i: int, j: int|
        0 <= i < j < todo.len() ==> may_precede(#[trigger] todo[i], #[trigger] todo[j])
}

/// A sweep keeps its order whatever it is told: judging, bases, cache, end. In particular no
/// base is left once the cache is scanned.
pub proof fn law_bases_go_first(options: SweepOptions, replies: Seq<SweepReply>)
    requires
        fed(SweepState::start(options), replies),
    ensures
        well_ordered(run(SweepState::start(options), replies).todo),
    decreases replies.len(),
{
    let start = SweepState::start(options);
    if replies.len() > 0 {
        let before = run(start, replies.drop_last()).todo;
        let todo = run(start, replies).todo;
        let plan = before[0].follow_up(replies.last());
        law_bases_go_first(options, replies.drop_last());
        assert forall|i: int, j: int| 0 <= i < j < todo.len() implies may_precede(
            #[trigger] todo[i],
            #[trigger] todo[j],
        ) by {
            if j >= plan.len() {
                assert(todo[j] == before[j - plan.len() + 1]);
                assert(may_precede(before[0], before[j - plan.len() + 1]));
            }
            if i >= plan.len() {
                assert(todo[i] == before[i - plan.len() + 1]);
            } else {
                assert(todo[i] == plan[i]);
            }
        }
    }
}

/// The bases among the steps to sweep, in order.
pub open spec fn bases_in(todo: Seq<Step>) -> Seq<Judgement>
    decreases todo.len(),
{
    if todo.len() == 0 {
        seq![]
    } else {
        match todo.last() {
            Step::SweepBase(j) => bases_in(todo.drop_last()).push(j),
            _ => bases_in(todo.drop_last()),
        }
    }
}

/// The entries among the steps to sweep, in order.
pub open spec fn entries_in(todo: Seq<Step>) -> Seq<CasEntry>
    decreases todo.len(),
{
    if todo.len() == 0 {
        seq![]
    } else {
        match todo.last() {
            Step::SweepEntry(e) => entries_in(todo.drop_last()).push(e),
            _ => entries_in(todo.drop_last()),
        }
    }
}

/// The steps that were answered, in order.
pub open spec fn done(state: SweepState, replies: Seq<SweepReply>) -> Seq<Step> {
    Seq::new(replies.len(), |k: int| answered(state, replies, k))
}

/// The bases that the judgements given to a sweep condemn, in order.
pub open spec fn condemned_by(replies: Seq<SweepReply>) -> Seq<Judgement>
    decreases replies.len(),
{
    if replies.len() == 0 {
        seq![]
    } else {
        condemned_by(replies.drop_last()) + match replies.last() {
            SweepReply::Judged(js) => sweep::condemned_bases(js@),
            _ => seq![],
        }
    }
}

/// The stale entries given to a sweep, in order.
pub open spec fn stale_among(replies: Seq<SweepReply>) -> Seq<CasEntry>
    decreases replies.len(),
{
    if replies.len() == 0 {
        seq![]
    } else {
        stale_among(replies.drop_last()) + match replies.last() {
            SweepReply::Stale(entries) => entries@,
            _ => seq![],
        }
    }
}

proof fn lemma_in_concat(a: Seq<Step>, b: Seq<Step>)
    ensures
        bases_in(a + b) == bases_in(a) + bases_in(b),
        entries_in(a + b) == entries_in(a) + entries_in(b),
    decreases b.len(),
{
    if b.len() == 0 {
        assert(a + b =~= a);
        assert(bases_in(a) + bases_in(b) =~= bases_in(a));
        assert(entries_in(a) + entries_in(b) =~= entries_in(a));
    } else {
        assert((a + b).drop_last() =~= a + b.drop_last());
        assert((a + b).last() == b.last());
        lemma_in_concat(a, b.drop_last());
        assert(bases_in(a + b) =~= bases_in(a) + bases_in(b));
        assert(entries_in(a + b) =~= entries_in(a) + entries_in(b));
    }
}

proof fn lemma_none_in(todo: Seq<Step>)
    ensures
        (forall|i: int| 0 <= i < todo.len() ==> !(#[trigger] todo[i] is SweepBase)) ==> bases_in(
            todo,
        ).len() == 0,
        (forall|i: int| 0 <= i < todo.len() ==> !(#[trigger] todo[i] is SweepEntry)) ==> entries_in(
            todo,
        ).len() == 0,
    decreases todo.len(),
{
    if todo.len() > 0 {
        let init = todo.drop_last();
        lemma_none_in(init);
        assert(todo.last() == todo[todo.len() - 1]);
        assert(forall|i: int| 0 <= i < init.len() ==> #[trigger] init[i] == todo[i]);
    }
}

proof fn lemma_bases_mapped(js: Seq<Judgement>)
    ensures
        bases_in(js.map_values(|j: Judgement| Step::SweepBase(j))) == js,
        entries_in(js.map_values(|j: Judgement| Step::SweepBase(j))).len() == 0,
    decreases js.len(),
{
    let steps = js.map_values(|j: Judgement| Step::SweepBase(j));
    if js.len() > 0 {
        lemma_bases_mapped(js.drop_last());
        assert(steps.drop_last() =~= js.drop_last().map_values(|j: Judgement| Step::SweepBase(j)));
        assert(js.drop_last().push(js.last()) =~= js);
    } else {
        assert(js =~= seq![]);
    }
}

proof fn lemma_entries_mapped(es: Seq<CasEntry>)
    ensures
        entries_in(es.map_values(|e: CasEntry| Step::SweepEntry(e))) == es,
        bases_in(es.map_values(|e: CasEntry| Step::SweepEntry(e))).len() == 0,
    decreases es.len(),
{
    let steps = es.map_values(|e: CasEntry| Step::SweepEntry(e));
    if es.len() > 0 {
        lemma_entries_mapped(es.drop_last());
        assert(steps.drop_last() =~= es.drop_last().map_values(|e: CasEntry| Step::SweepEntry(e)));
        assert(es.drop_last().push(es.last()) =~= es);
    } else {
        assert(es =~= seq![]);
    }
}

proof fn lemma_follow_up_in(step: Step, reply: SweepReply)
    requires
        reply.answers(step),
    ensures
        bases_in(step.follow_up(reply)) == match reply {
            SweepReply::Judged(js) => sweep::condemned_bases(js@),
            _ => seq![],
        },
        entries_in(step.follow_up(reply)) == match reply {
            SweepReply::Stale(entries) => entries@,
            _ => seq![],
        },
{
    let plan = step.follow_up(reply);
    match (step, reply) {
        (Step::Judge, SweepReply::Judged(js)) => {
            let doomed = sweep::condemned_bases(js@);
            let head = seq![plan[0]];
            let tail = doomed.map_values(|j: Judgement| Step::SweepBase(j));
            assert(plan =~= head + tail);
            lemma_bases_mapped(doomed);
            lemma_none_in(head);
            lemma_in_concat(head, tail);
            assert(bases_in(plan) =~= doomed);
            assert(entries_in(plan) =~= seq![]);
        },
        (Step::ScanCache, SweepReply::Stale(entries)) => {
            let head = entries@.map_values(|e: CasEntry| Step::SweepEntry(e));
            let tail = seq![plan[plan.len() - 1]];
            assert(plan =~= head + tail);
            lemma_entries_mapped(entries@);
            lemma_none_in(tail);
            lemma_in_concat(head, tail);
            assert(entries_in(plan) =~= entries@);
            assert(bases_in(plan) =~= seq![]);
        },
        _ => {
            lemma_none_in(plan);
            assert(bases_in(plan) =~= seq![]);
            assert(entries_in(plan) =~= seq![]);
        },
    }
}

/// At every point, what was swept and what is still to be swept make up what was condemned and
/// what was found stale, each once and in order.
pub proof fn law_nothing_is_lost(options: SweepOptions, replies: Seq<SweepReply>)
    requires
        fed(SweepState::start(options), replies),
    ensures
        bases_in(done(SweepState::start(options), replies)) + bases_in(
            run(SweepState::start(options), replies).todo,
        ) == condemned_by(replies),
        entries_in(done(SweepState::start(options), replies)) + entries_in(
            run(SweepState::start(options), replies).todo,
        ) == stale_among(replies),
    decreases replies.len(),
{
    let start = SweepState::start(options);
    let past = done(start, replies);
    if replies.len() == 0 {
        lemma_none_in(start.todo);
        assert(bases_in(past) + bases_in(start.todo) =~= seq![]);
        assert(entries_in(past) + entries_in(start.todo) =~= seq![]);
    } else {
        let init = replies.drop_last();
        let reply = replies.last();
        let before = run(start, init).todo;
        let step = before[0];
        let rest = before.skip(1);
        let plan = step.follow_up(reply);
        law_nothing_is_lost(options, init);
        law_bases_go_first(options, init);
        assert(replies.take(replies.len() - 1) =~= init);
        assert(past =~= done(start, init).push(step)) by {
            assert forall|k: int| 0 <= k < init.len() implies past[k] == done(start, init)[k] by {
                assert(init.take(k) =~= replies.take(k));
            }
        }
        assert(past.drop_last() =~= done(start, init));
        lemma_follow_up_in(step, reply);
        lemma_in_concat(plan, rest);
        lemma_in_concat(seq![step], rest);
        assert(before =~= seq![step] + rest);
        assert(seq![step].drop_last() =~= Seq::<Step>::empty());
        assert(bases_in(seq![step].drop_last()).len() == 0);
        assert(entries_in(seq![step].drop_last()).len() == 0);
        assert(forall|i: int|
            0 <= i < rest.len() ==> #[trigger] rest[i] == before[i + 1] && may_precede(
                step,
                before[i + 1],
            ));
        lemma_none_in(rest);
        assert(bases_in(past) + bases_in(plan + rest) =~= condemned_by(replies));
        assert(entries_in(past) + entries_in(plan + rest) =~= stale_among(replies));
    }
}

/// A finished sweep has taken exactly the bases that were condemned, in order, and then every
/// entry that was stale.
pub proof fn law_sweep_takes_what_is_condemned(options: SweepOptions, replies: Seq<SweepReply>)
    requires
        fed(SweepState::start(options), replies),
        run(SweepState::start(options), replies).todo.len() == 0,
    ensures
        bases_in(done(SweepState::start(options), replies)) == condemned_by(replies),
        entries_in(done(SweepState::start(options), replies)) == stale_among(replies),
{
    let past = done(SweepState::start(options), replies);
    law_nothing_is_lost(options, replies);
    assert(bases_in(past) =~= condemned_by(replies));
    assert(entries_in(past) =~= stale_among(replies));
}

/// Each reply with judgements holds those on the bases that `bases` gives for it, at the time
/// that `now` gives for it, by the sweep's own tunables.
pub open spec fn judged_truly(
    options: SweepOptions,
    replies: Seq<SweepReply>,
    bases: spec_fn(int) -> Seq<(OutputBase, Probe)>,
    now: spec_fn(int) -> Timestamp,
) -> bool {
    forall|k: int|
        0 <= k < replies.len() ==> match #[trigger] replies[k] {
            SweepReply::Judged(js) => policy::judged(js@, bases(k), now(k), options.params),
            _ => true,
        }
}

/// Each reply with stale entries holds those of the entries that `entries` gives for it that
/// were unread, at the time that `now` gives for it, within the sweep's own cutoff.
pub open spec fn scanned_truly(
    options: SweepOptions,
    replies: Seq<SweepReply>,
    entries: spec_fn(int) -> Seq<CasEntry>,
    now: spec_fn(int) -> Timestamp,
) -> bool {
    forall|k: int|
        0 <= k < replies.len() ==> match #[trigger] replies[k] {
            SweepReply::Stale(es) => es@ == cas::unread_among(
                entries(k),
                now(k),
                options.params.max_age_hours,
            ),
            _ => true,
        }
}

/// The judgement is on the base number `i` of those that the reply number `k` judges, and the
/// rules, by the sweep's own tunables, condemn that base: nothing is using it.
pub open spec fn condemned_at(
    options: SweepOptions,
    replies: Seq<SweepReply>,
    bases: spec_fn(int) -> Seq<(OutputBase, Probe)>,
    now: spec_fn(int) -> Timestamp,
    j: Judgement,
    k: int,
    i: int,
) -> bool {
    let (base, probe) = bases(k)[i];
    &&& 0 <= k < replies.len()
    &&& replies[k] is Judged
    &&& 0 <= i < bases(k).len()
    &&& j.base == base
    &&& j.verdict == policy::verdict_on(base@, probe, now(k), options.params)
    &&& j.verdict.condemns()
    &&& !probe.live()
}

/// The judgement is on some base that was judged and that the rules condemn.
pub open spec fn rightly_condemned(
    options: SweepOptions,
    replies: Seq<SweepReply>,
    bases: spec_fn(int) -> Seq<(OutputBase, Probe)>,
    now: spec_fn(int) -> Timestamp,
    j: Judgement,
) -> bool {
    exists|k: int, i: int| condemned_at(options, replies, bases, now, j, k, i)
}

/// The entry was scanned for the reply number `k`, and had not been read within the sweep's own
/// cutoff.
pub open spec fn unread_at(
    options: SweepOptions,
    replies: Seq<SweepReply>,
    entries: spec_fn(int) -> Seq<CasEntry>,
    now: spec_fn(int) -> Timestamp,
    e: CasEntry,
    k: int,
) -> bool {
    &&& 0 <= k < replies.len()
    &&& replies[k] is Stale
    &&& entries(k).contains(e)
    &&& cas::unread(e, now(k), options.params.max_age_hours)
}

/// The entry was scanned, and had not been read within the sweep's own cutoff.
pub open spec fn rightly_stale(
    options: SweepOptions,
    replies: Seq<SweepReply>,
    entries: spec_fn(int) -> Seq<CasEntry>,
    now: spec_fn(int) -> Timestamp,
    e: CasEntry,
) -> bool {
    exists|k: int| unread_at(options, replies, entries, now, e, k)
}

proof fn lemma_condemned_by(replies: Seq<SweepReply>, n: int) -> (at: (int, int))
    requires
        0 <= n < condemned_by(replies).len(),
    ensures
        0 <= at.0 < replies.len(),
        replies[at.0] matches SweepReply::Judged(js) && 0 <= at.1 < js@.len() && js@[at.1]
            == condemned_by(replies)[n] && js@[at.1].verdict.condemns(),
    decreases replies.len(),
{
    let init = replies.drop_last();
    if n < condemned_by(init).len() {
        lemma_condemned_by(init, n)
    } else {
        let js = replies.last()->Judged_0@;
        let doomed = |j: Judgement| j.verdict.condemns();
        let m = n - condemned_by(init).len();
        assert(js.filter(doomed)[m] == condemned_by(replies)[n]);
        assert(js.filter(doomed).contains(js.filter(doomed)[m]));
        js.lemma_filter_contains_rev(doomed, js.filter(doomed)[m]);
        assert(doomed(js.filter(doomed)[m]));
        (replies.len() - 1, choose|i: int| 0 <= i < js.len() && js[i] == js.filter(doomed)[m])
    }
}

proof fn lemma_stale_among(replies: Seq<SweepReply>, n: int) -> (at: (int, int))
    requires
        0 <= n < stale_among(replies).len(),
    ensures
        0 <= at.0 < replies.len(),
        replies[at.0] matches SweepReply::Stale(es) && 0 <= at.1 < es@.len() && es@[at.1]
            == stale_among(replies)[n],
    decreases replies.len(),
{
    let init = replies.drop_last();
    if n < stale_among(init).len() {
        lemma_stale_among(init, n)
    } else {
        (replies.len() - 1, n - stale_among(init).len())
    }
}

/// A sweep takes no base but one that the rules condemn: no base that anything is using, or that
/// anything might be using, is ever swept.
pub proof fn law_no_base_in_use_is_swept(
    options: SweepOptions,
    replies: Seq<SweepReply>,
    bases: spec_fn(int) -> Seq<(OutputBase, Probe)>,
    now: spec_fn(int) -> Timestamp,
)
    requires
        fed(SweepState::start(options), replies),
        judged_truly(options, replies, bases, now),
    ensures
        forall|n: int|
            0 <= n < bases_in(done(SweepState::start(options), replies)).len()
                ==> rightly_condemned(
                options,
                replies,
                bases,
                now,
                #[trigger] bases_in(done(SweepState::start(options), replies))[n],
            ),
{
    let swept = bases_in(done(SweepState::start(options), replies));
    law_nothing_is_lost(options, replies);
    assert forall|n: int| 0 <= n < swept.len() implies rightly_condemned(
        options,
        replies,
        bases,
        now,
        #[trigger] swept[n],
    ) by {
        assert(condemned_by(replies)[n] == swept[n]);
        let (k, i) = lemma_condemned_by(replies, n);
        assert(replies[k]->Judged_0@[i] == swept[n]);
        assert(condemned_at(options, replies, bases, now, swept[n], k, i));
    }
}

/// A sweep takes no entry but one that was not read within the sweep's own cutoff.
pub proof fn law_no_entry_in_use_is_swept(
    options: SweepOptions,
    replies: Seq<SweepReply>,
    entries: spec_fn(int) -> Seq<CasEntry>,
    now: spec_fn(int) -> Timestamp,
)
    requires
        fed(SweepState::start(options), replies),
        scanned_truly(options, replies, entries, now),
    ensures
        forall|n: int|
            0 <= n < entries_in(done(SweepState::start(options), replies)).len() ==> rightly_stale(
                options,
                replies,
                entries,
                now,
                #[trigger] entries_in(done(SweepState::start(options), replies))[n],
            ),
{
    let swept = entries_in(done(SweepState::start(options), replies));
    law_nothing_is_lost(options, replies);
    assert forall|n: int| 0 <= n < swept.len() implies rightly_stale(
        options,
        replies,
        entries,
        now,
        #[trigger] swept[n],
    ) by {
        assert(stale_among(replies)[n] == swept[n]);
        let (k, i) = lemma_stale_among(replies, n);
        let unread = |e: CasEntry| cas::unread(e, now(k), options.params.max_age_hours);
        assert(entries(k).filter(unread).contains(entries(k).filter(unread)[i]));
        assert(entries(k).filter(unread)[i] == swept[n]);
        entries(k).lemma_filter_contains_rev(unread, swept[n]);
        assert(unread(entries(k).filter(unread)[i]));
        assert(unread_at(options, replies, entries, now, swept[n], k));
    }
}

/// A finished sweep has taken every base that the rules condemn, by the sweep's own tunables,
/// among those that were judged.
pub proof fn law_every_condemned_base_is_swept(
    options: SweepOptions,
    replies: Seq<SweepReply>,
    bases: spec_fn(int) -> Seq<(OutputBase, Probe)>,
    now: spec_fn(int) -> Timestamp,
    k: int,
    i: int,
)
    requires
        fed(SweepState::start(options), replies),
        run(SweepState::start(options), replies).todo.len() == 0,
        judged_truly(options, replies, bases, now),
        0 <= k < replies.len(),
        replies[k] is Judged,
        0 <= i < bases(k).len(),
        policy::verdict_on(bases(k)[i].0@, bases(k)[i].1, now(k), options.params).condemns(),
    ensures
        exists|n: int|
            0 <= n < bases_in(done(SweepState::start(options), replies)).len() && (
            #[trigger] bases_in(done(SweepState::start(options), replies))[n]).base
                == bases(k)[i].0,
{
    let swept = bases_in(done(SweepState::start(options), replies));
    let js = replies[k]->Judged_0@;
    law_sweep_takes_what_is_condemned(options, replies);
    assert(policy::judged(js, bases(k), now(k), options.params));
    assert(js[i].base == bases(k)[i].0);
    lemma_condemned_contains(replies, k, i);
    let n = choose|n: int| 0 <= n < swept.len() && swept[n] == js[i];
    assert(swept[n].base == bases(k)[i].0);
}

proof fn lemma_condemned_contains(replies: Seq<SweepReply>, k: int, i: int)
    requires
        0 <= k < replies.len(),
        replies[k] matches SweepReply::Judged(js) && 0 <= i < js@.len()
            && js@[i].verdict.condemns(),
    ensures
        condemned_by(replies).contains(replies[k]->Judged_0@[i]),
    decreases replies.len(),
{
    let init = replies.drop_last();
    let all = condemned_by(replies);
    let before = condemned_by(init);
    let js = replies[k]->Judged_0@;
    if k < init.len() {
        lemma_condemned_contains(init, k, i);
        let n = choose|n: int| 0 <= n < before.len() && before[n] == js[i];
        assert(all[n] == js[i]);
    } else {
        let doomed = |j: Judgement| j.verdict.condemns();
        assert(js.filter(doomed).contains(js[i]));
        let m = choose|m: int| 0 <= m < js.filter(doomed).len() && js.filter(doomed)[m] == js[i];
        assert(all[before.len() + m] == js[i]);
    }
}

/// A finished sweep has taken every entry that was not read within the sweep's own cutoff, among
/// those that were scanned.
pub proof fn law_every_stale_entry_is_swept(
    options: SweepOptions,
    replies: Seq<SweepReply>,
    entries: spec_fn(int) -> Seq<CasEntry>,
    now: spec_fn(int) -> Timestamp,
    k: int,
    i: int,
)
    requires
        fed(SweepState::start(options), replies),
        run(SweepState::start(options), replies).todo.len() == 0,
        scanned_truly(options, replies, entries, now),
        0 <= k < replies.len(),
        replies[k] is Stale,
        0 <= i < entries(k).len(),
        cas::unread(entries(k)[i], now(k), options.params.max_age_hours),
    ensures
        entries_in(done(SweepState::start(options), replies)).contains(entries(k)[i]),
{
    let unread = |e: CasEntry| cas::unread(e, now(k), options.params.max_age_hours);
    law_sweep_takes_what_is_condemned(options, replies);
    assert(entries(k).filter(unread).contains(entries(k)[i]));
    assert(replies[k]->Stale_0@ == entries(k).filter(unread));
    lemma_stale_contains(replies, k, entries(k)[i]);
}

proof fn lemma_stale_contains(replies: Seq<SweepReply>, k: int, e: CasEntry)
    requires
        0 <= k < replies.len(),
        replies[k] matches SweepReply::Stale(es) && es@.contains(e),
    ensures
        stale_among(replies).contains(e),
    decreases replies.len(),
{
    let init = replies.drop_last();
    let all = stale_among(replies);
    let before = stale_among(init);
    if k < init.len() {
        lemma_stale_contains(init, k, e);
        let n = choose|n: int| 0 <= n < before.len() && before[n] == e;
        assert(all[n] == e);
    } else {
        let es = replies[k]->Stale_0@;
        let m = choose|m: int| 0 <= m < es.len() && es[m] == e;
        assert(all[before.len() + m] == e);
    }
}

/// The step is about output bases.
pub open spec fn about_bases(step: Step) -> bool {
    step is Judge || step is TellBases || step is SweepBase || step is TellBase
}

/// The step is about the repository cache.
pub open spec fn about_cache(step: Step) -> bool {
    step is ScanCache || step is SweepEntry || step is TellCache
}

/// A sweep of the cache alone never looks at a base, and a sweep of the bases alone never looks
/// at the cache.
pub proof fn law_skipped_phase_is_skipped(options: SweepOptions, replies: Seq<SweepReply>)
    requires
        fed(SweepState::start(options), replies),
    ensures
        forall|i: int|
            #![trigger run(SweepState::start(options), replies).todo[i]]
            0 <= i < run(SweepState::start(options), replies).todo.len() ==> {
                let step = run(SweepState::start(options), replies).todo[i];
                &&& options.cas_only ==> !about_bases(step)
                &&& options.bases_only ==> !about_cache(step)
            },
    decreases replies.len(),
{
    let start = SweepState::start(options);
    if replies.len() > 0 {
        let before = run(start, replies.drop_last()).todo;
        let todo = run(start, replies).todo;
        let plan = before[0].follow_up(replies.last());
        law_skipped_phase_is_skipped(options, replies.drop_last());
        assert(before[0] == before[0]);
        assert forall|i: int| 0 <= i < todo.len() implies {
            &&& options.cas_only ==> !about_bases(#[trigger] todo[i])
            &&& options.bases_only ==> !about_cache(todo[i])
        } by {
            if i < plan.len() {
                assert(todo[i] == plan[i]);
                assert(about_bases(plan[i]) ==> about_bases(before[0]));
                assert(about_cache(plan[i]) ==> about_cache(before[0]));
            } else {
                assert(todo[i] == before[i - plan.len() + 1]);
            }
        }
    }
}

/// A sweep that does not skip the bases has them judged first thing; one that does not skip the
/// cache scans it before it ends.
pub proof fn law_unskipped_phase_is_run(options: SweepOptions, replies: Seq<SweepReply>)
    requires
        fed(SweepState::start(options), replies),
        run(SweepState::start(options), replies).todo.len() == 0,
    ensures
        !options.cas_only ==> done(SweepState::start(options), replies).contains(Step::Judge),
        !options.bases_only ==> done(SweepState::start(options), replies).contains(Step::ScanCache),
        done(SweepState::start(options), replies).contains(Step::TellEnd),
{
    let start = SweepState::start(options);
    assert(replies.take(0) =~= seq![]);
    assert forall|i: int| 0 <= i < start.todo.len() implies done(start, replies).contains(
        #[trigger] start.todo[i],
    ) by {
        lemma_step_is_taken(options, replies, 0, i);
    }
    assert(start.todo[start.todo.len() - 1] == Step::TellEnd);
    if !options.cas_only {
        assert(start.todo[0] == Step::Judge);
    }
    if !options.bases_only {
        assert(start.todo[start.todo.len() - 2] == Step::ScanCache);
    }
}

proof fn lemma_step_is_taken(options: SweepOptions, replies: Seq<SweepReply>, k: int, i: int)
    requires
        fed(SweepState::start(options), replies),
        run(SweepState::start(options), replies).todo.len() == 0,
        0 <= k <= replies.len(),
        0 <= i < run(SweepState::start(options), replies.take(k)).todo.len(),
    ensures
        done(SweepState::start(options), replies).contains(
            run(SweepState::start(options), replies.take(k)).todo[i],
        ),
    decreases replies.len() - k,
{
    let start = SweepState::start(options);
    let here = run(start, replies.take(k));
    if k == replies.len() {
        assert(replies.take(k) =~= replies);
    } else if i == 0 {
        assert(done(start, replies)[k] == here.todo[0]);
    } else {
        let next = replies.take(k + 1);
        assert(next.drop_last() =~= replies.take(k));
        let n = here.todo[0].follow_up(replies[k]).len();
        assert(run(start, next).todo[i - 1 + n] == here.todo[i]);
        lemma_step_is_taken(options, replies, k + 1, i - 1 + n);
    }
}

/// The bytes that the replies say were handed back, in all.
pub open spec fn bytes_in(replies: Seq<SweepReply>) -> int
    decreases replies.len(),
{
    if replies.len() == 0 {
        0
    } else {
        bytes_in(replies.drop_last()) + replies.last().freed()
    }
}

/// The bytes that the replies say the repository cache handed back.
pub open spec fn cache_bytes_in(state: SweepState, replies: Seq<SweepReply>) -> int
    decreases replies.len(),
{
    if replies.len() == 0 {
        0
    } else {
        cache_bytes_in(state, replies.drop_last()) + if run(
            state,
            replies.drop_last(),
        ).todo[0] is SweepEntry {
            replies.last().freed()
        } else {
            0
        }
    }
}

/// How many removals failed.
pub open spec fn failed_in(replies: Seq<SweepReply>) -> int
    decreases replies.len(),
{
    if replies.len() == 0 {
        0
    } else {
        failed_in(replies.drop_last()) + if replies.last().failed() {
            1int
        } else {
            0
        }
    }
}

/// A sweep adds up to its removals: the bytes it reports are the sum of theirs, and the exit
/// code is 1 exactly if one of them failed.
pub proof fn law_sweep_adds_up(options: SweepOptions, replies: Seq<SweepReply>)
    requires
        fed(SweepState::start(options), replies),
    ensures
        run(SweepState::start(options), replies).freed == bytes_in(replies),
        run(SweepState::start(options), replies).cas_freed == cache_bytes_in(
            SweepState::start(options),
            replies,
        ),
        run(SweepState::start(options), replies).failures == failed_in(replies),
        run(SweepState::start(options), replies).failures >= 0,
        run(SweepState::start(options), replies).code() == 1 <==> exists|k: int|
            0 <= k < replies.len() && (#[trigger] replies[k]).failed(),
    decreases replies.len(),
{
    if replies.len() > 0 {
        let init = replies.drop_last();
        law_sweep_adds_up(options, init);
        if exists|k: int| 0 <= k < init.len() && (#[trigger] init[k]).failed() {
            let k = choose|k: int| 0 <= k < init.len() && (#[trigger] init[k]).failed();
            assert(replies[k].failed());
        }
        if exists|k: int| 0 <= k < replies.len() && (#[trigger] replies[k]).failed() {
            let k = choose|k: int| 0 <= k < replies.len() && (#[trigger] replies[k]).failed();
            if k < init.len() {
                assert(init[k].failed());
            }
        }
    }
}

pub(crate) proof fn lemma_options_stay(options: SweepOptions, replies: Seq<SweepReply>)
    ensures
        run(SweepState::start(options), replies).options == options,
    decreases replies.len(),
{
    if replies.len() > 0 {
        lemma_options_stay(options, replies.drop_last());
    }
}

/// Without `--apply` nothing is deleted: the removals that a dry run asks for make no call.
pub proof fn law_only_apply_deletes(
    options: SweepOptions,
    replies: Seq<SweepReply>,
    action: SweepAction,
)
    requires
        !options.apply,
        run(SweepState::start(options), replies).todo.len() > 0,
        run(SweepState::start(options), replies).calls_for(action),
    ensures
        match action {
            SweepAction::RemoveTree(removal) => removal@.todo.len() == 0,
            SweepAction::RemoveFile(removal) => removal@.request(removal.path()) is None,
            _ => true,
        },
{
    lemma_options_stay(options, replies);
}

/// The reply is what the removal that the step asks for comes to without a single call.
pub open spec fn without_a_call(step: Step, reply: SweepReply) -> bool {
    match (step, reply) {
        (Step::SweepBase(j), SweepReply::Removed(r)) => {
            let removal = TreeState::start(j.base@.path, true);
            r.freed == removal.freed && reaper::text_of(r.error) == removal.verdict()
        },
        (Step::SweepEntry(_), SweepReply::Removed(r)) => FileStage::start(true)
            == FileStage::Finished(r.freed, reaper::text_of(r.error)),
        _ => true,
    }
}

/// A dry run ends well: it frees nothing, fails at nothing, and its exit code is 0.
pub proof fn law_dry_run_ends_well(options: SweepOptions, replies: Seq<SweepReply>)
    requires
        !options.apply,
        fed(SweepState::start(options), replies),
        forall|k: int|
            0 <= k < replies.len() ==> without_a_call(
                #[trigger] answered(SweepState::start(options), replies, k),
                replies[k],
            ),
    ensures
        run(SweepState::start(options), replies).freed == 0,
        run(SweepState::start(options), replies).failures == 0,
        run(SweepState::start(options), replies).code() == 0,
    decreases replies.len(),
{
    let start = SweepState::start(options);
    if replies.len() > 0 {
        let init = replies.drop_last();
        let last = replies.len() - 1;
        assert forall|k: int| 0 <= k < last implies without_a_call(
            #[trigger] answered(start, init, k),
            init[k],
        ) by {
            assert(init.take(k) =~= replies.take(k));
            assert(without_a_call(answered(start, replies, k), replies[k]));
        }
        law_dry_run_ends_well(options, init);
        assert(replies.take(last) =~= init);
        assert(without_a_call(answered(start, replies, last), replies[last]));
    }
}

} // verus!
