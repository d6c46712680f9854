//! A whole sweep: which bases and cache entries it takes, in which order, what it prints, and
//! what it adds up to.
//!
//! Dry-run is the default for every sweep; nothing is deleted without `--apply`.
//!
//! Like the removals it is made of, a sweep touches nothing itself. It says what it needs done
//! next, is told what came of it, and ends in an exit code.

use crate::cas::CasEntry;
use crate::policy::{Judgement, Params};
use crate::reaper;
use crate::reaper::{FileStage, FileSweep, Removal, TreeState, TreeSweep};
use crate::report;
use crate::report::Line;
use crate::util;
use crate::util::Hours;
use std::collections::VecDeque;
use vstd::prelude::*;

verus! {

/// What a sweep is asked to do.
#[derive(Debug, Clone, Copy)]
pub struct SweepOptions {
    /// Actually delete; otherwise dry-run.
    pub apply: bool,
    /// Skip output bases.
    pub cas_only: bool,
    /// Skip the repository cache.
    pub bases_only: bool,
    /// The tunables of the policy; the cutoff is the repository cache's too.
    pub params: Params,
}

/// One pending step of a sweep.
#[derive(Debug)]
pub enum Step {
    /// Have every output base judged.
    Judge,
    /// Say how many bases there are, and how many are condemned.
    TellBases(usize, usize),
    /// Remove a condemned base.
    SweepBase(Judgement),
    /// Say what came of a base.
    TellBase(Judgement, Removal),
    /// Have the repository cache searched for stale entries.
    ScanCache,
    /// Remove a stale entry.
    SweepEntry(CasEntry),
    /// Say how many entries there were, and how many of them hardlinked elsewhere.
    TellCache(usize, usize),
    /// Say what the sweep came to.
    TellEnd,
}

/// What a sweep needs done.
#[derive(Debug)]
pub enum SweepAction {
    /// Find and judge every output base, by these tunables.
    Judge(Params),
    /// Run the removal of a tree.
    RemoveTree(TreeSweep),
    /// Find the entries of the repository cache that were not read within so many hours.
    ScanCache(Hours),
    /// Run the removal of a file.
    RemoveFile(FileSweep),
    /// Print something.
    Print(Line),
}

/// What came of a [`SweepAction`].
#[derive(Debug)]
pub enum SweepReply {
    Judged(Vec<Judgement>),
    Removed(Removal),
    Stale(Vec<CasEntry>),
    Printed,
}

impl SweepReply {
    /// The reply is of the kind that the step calls for.
    pub open spec fn answers(self, step: Step) -> bool {
        match step {
            Step::Judge => self is Judged,
            Step::TellBases(_, _) => self is Printed,
            Step::SweepBase(_) => self is Removed,
            Step::TellBase(_, _) => self is Printed,
            Step::ScanCache => self is Stale,
            Step::SweepEntry(_) => self is Removed,
            Step::TellCache(_, _) => self is Printed,
            Step::TellEnd => self is Printed,
        }
    }

    /// The bytes that the reply says were handed back.
    pub open spec fn freed(self) -> int {
        match self {
            SweepReply::Removed(r) => r.freed as int,
            _ => 0,
        }
    }

    /// The reply says that something could not be removed.
    pub open spec fn failed(self) -> bool {
        match self {
            SweepReply::Removed(r) => r.error is Some,
            _ => false,
        }
    }
}

/// The judgements that condemn their base, in order.
pub open spec fn condemned_bases(js: Seq<Judgement>) -> Seq<Judgement> {
    js.filter(|j: Judgement| j.verdict.condemns())
}

impl Step {
    /// What is left to do in the step's place once it is answered.
    pub open spec fn follow_up(self, reply: SweepReply) -> Seq<Step> {
        match (self, reply) {
            (Step::Judge, SweepReply::Judged(js)) => seq![
                Step::TellBases(js@.len() as usize, report::condemned(js@) as usize),
            ] + condemned_bases(js@).map_values(|j: Judgement| Step::SweepBase(j)),
            (Step::SweepBase(j), SweepReply::Removed(r)) => seq![Step::TellBase(j, r)],
            (Step::ScanCache, SweepReply::Stale(entries)) => entries@.map_values(
                |e: CasEntry| Step::SweepEntry(e),
            ) + seq![
                Step::TellCache(entries@.len() as usize, report::shared_among(entries@) as usize),
            ],
            _ => seq![],
        }
    }
}

/// Where a sweep stands.
pub struct SweepState {
    pub options: SweepOptions,
    /// What is left to do, the next step first.
    pub todo: Seq<Step>,
    /// Bytes handed back so far, in all.
    pub freed: int,
    /// Bytes handed back so far by the repository cache.
    pub cas_freed: int,
    /// Bases and entries that could not be removed, so far.
    pub failures: int,
}

impl SweepState {
    /// A sweep before it starts: the bases first, then the repository cache, each unless it is
    /// to be skipped.
    pub open spec fn start(options: SweepOptions) -> SweepState {
        SweepState {
            options,
            todo: (if options.cas_only {
                seq![]
            } else {
                seq![Step::Judge]
            }) + (if options.bases_only {
                seq![]
            } else {
                seq![Step::ScanCache]
            }) + seq![Step::TellEnd],
            freed: 0,
            cas_freed: 0,
            failures: 0,
        }
    }

    /// The sweep once its next step is answered.
    pub open spec fn after(self, reply: SweepReply) -> SweepState {
        let step = self.todo[0];
        SweepState {
            options: self.options,
            todo: step.follow_up(reply) + self.todo.skip(1),
            freed: self.freed + reply.freed(),
            cas_freed: self.cas_freed + if step is SweepEntry {
                reply.freed()
            } else {
                0
            },
            failures: self.failures + if reply.failed() {
                1int
            } else {
                0
            },
        }
    }

    /// The counts still fit once the next step is answered so.
    pub open spec fn room(self, reply: SweepReply) -> bool {
        &&& self.freed + reply.freed() <= u64::MAX
        &&& reply.failed() ==> self.failures < u64::MAX
    }

    /// The next step is to print this, and whether as an error.
    pub open spec fn tells(self, is_error: bool, said: Seq<char>) -> bool {
        let dry = !self.options.apply;
        match self.todo[0] {
            Step::TellBases(total, doomed) => !is_error && said == report::bases_text(
                total as nat,
                doomed as nat,
            ),
            Step::TellBase(j, r) => match r.error {
                None => !is_error && said == report::swept_line(dry, j, r.freed),
                Some(error) => is_error && said == report::failed_line(j, error@),
            },
            Step::TellCache(entries, shared) => !is_error && said == report::cache_text(
                dry,
                entries as nat,
                shared as nat,
                self.cas_freed as nat,
                self.options.params.max_age_hours,
            ),
            Step::TellEnd => !is_error && said == report::closing_text(dry, self.freed as nat),
            _ => false,
        }
    }

    /// The next step calls for the action.
    pub open spec fn calls_for(self, action: SweepAction) -> bool {
        let dry = !self.options.apply;
        match self.todo[0] {
            Step::Judge => action == SweepAction::Judge(self.options.params),
            Step::SweepBase(j) => match action {
                SweepAction::RemoveTree(sweep) => sweep.root() == j.base@.path && sweep@
                    == TreeState::start(j.base@.path, dry),
                _ => false,
            },
            Step::ScanCache => action == SweepAction::ScanCache(self.options.params.max_age_hours),
            Step::SweepEntry(entry) => match action {
                SweepAction::RemoveFile(sweep) => sweep.path() == entry.path@ && sweep@
                    == FileStage::start(dry),
                _ => false,
            },
            _ => match action {
                SweepAction::Print(line) => self.tells(line.is_error, line.text@),
                _ => false,
            },
        }
    }

    /// The exit code of a finished sweep: 1 if anything could not be removed.
    pub open spec fn code(self) -> int {
        if self.failures > 0 {
            1
        } else {
            0
        }
    }
}

/// A sweep of output bases and of the repository cache, as far as it has come.
#[derive(Debug)]
pub struct SweepRun {
    options: SweepOptions,
    steps: VecDeque<Step>,
    freed: u64,
    cas_freed: u64,
    failures: u64,
}

impl SweepRun {
    /// What the repository cache handed back is part of the whole, and no more bases are
    /// condemned than there are.
    #[verifier::type_invariant]
    spec fn inv(self) -> bool {
        &&& self.cas_freed <= self.freed
        &&& forall|i: int|
            0 <= i < self.steps@.len() ==> match #[trigger] self.steps@[i] {
                Step::TellBases(total, doomed) => doomed <= total,
                _ => true,
            }
    }

    /// Where the sweep stands.
    pub closed spec fn view(self) -> SweepState {
        SweepState {
            options: self.options,
            todo: self.steps@,
            freed: self.freed as int,
            cas_freed: self.cas_freed as int,
            failures: self.failures as int,
        }
    }

    /// A sweep before it starts.
    pub fn new(options: SweepOptions) -> (r: SweepRun)
        ensures
            r@ == SweepState::start(options),
    {
        let mut steps: VecDeque<Step> = VecDeque::new();
        if !options.cas_only {
            steps.push_back(Step::Judge);
        }
        if !options.bases_only {
            steps.push_back(Step::ScanCache);
        }
        steps.push_back(Step::TellEnd);
        assert(steps@ =~= SweepState::start(options).todo);
        SweepRun { options, steps, freed: 0, cas_freed: 0, failures: 0 }
    }

    /// What the sweep needs done next, or none when it is finished.
    pub fn next(&self) -> (r: Option<SweepAction>)
        ensures
            match r {
                Some(action) => self@.todo.len() > 0 && self@.calls_for(action),
                None => self@.todo.len() == 0,
            },
            match r {
                Some(SweepAction::Judge(params)) => self@.todo[0] is Judge && params
                    == self@.options.params,
                Some(SweepAction::ScanCache(hours)) => self@.todo[0] is ScanCache && hours
                    == self@.options.params.max_age_hours,
                Some(SweepAction::RemoveTree(_)) => self@.todo[0] is SweepBase,
                Some(SweepAction::RemoveFile(_)) => self@.todo[0] is SweepEntry,
                Some(SweepAction::Print(_)) => self@.todo[0] is TellBases || self@.todo[0] is TellBase
                    || self@.todo[0] is TellCache || self@.todo[0] is TellEnd,
                None => true,
            },
    {
        proof {
            use_type_invariant(self);
        }
        if self.steps.len() == 0 {
            return None;
        }
        let dry: bool = !self.options.apply;
        let step: &Step = &self.steps[0];
        assert(self.steps@[0] == *step);
        Some(
            match step {
                Step::Judge => SweepAction::Judge(self.options.params),
                Step::TellBases(total, doomed) => SweepAction::Print(
                    Line { is_error: false, text: report::bases_report(*total, *doomed) },
                ),
                Step::SweepBase(j) => SweepAction::RemoveTree(
                    reaper::sweep_tree(j.base.path.as_slice(), dry),
                ),
                Step::TellBase(j, r) => SweepAction::Print(report::base_report(dry, j, r)),
                Step::ScanCache => SweepAction::ScanCache(self.options.params.max_age_hours),
                Step::SweepEntry(entry) => SweepAction::RemoveFile(
                    reaper::sweep_file(entry.path.as_slice(), dry),
                ),
                Step::TellCache(entries, shared) => SweepAction::Print(
                    Line {
                        is_error: false,
                        text: report::cache_report(
                            dry,
                            *entries,
                            *shared,
                            self.cas_freed,
                            self.options.params.max_age_hours,
                        ),
                    },
                ),
                Step::TellEnd => SweepAction::Print(
                    Line { is_error: false, text: report::closing_report(dry, self.freed) },
                ),
            },
        )
    }

    /// Whether the counts still fit once the next step is answered so.
    pub fn has_room(&self, reply: &SweepReply) -> (fits: bool)
        ensures
            fits == self@.room(*reply),
    {
        match reply {
            SweepReply::Removed(r) => r.freed <= u64::MAX - self.freed && (r.ok() || self.failures
                < u64::MAX),
            _ => true,
        }
    }

    /// Takes what came of what the sweep needed done.
    pub fn feed(&mut self, reply: SweepReply)
        requires
            old(self)@.todo.len() > 0,
            reply.answers(old(self)@.todo[0]),
            old(self)@.room(reply),
        ensures
            final(self)@ == old(self)@.after(reply),
    {
        proof {
            use_type_invariant(&*self);
        }
        let ghost state = self@;
        let ghost todo = self.steps@;
        let mut steps: VecDeque<Step> = VecDeque::new();
        std::mem::swap(&mut steps, &mut self.steps);
        let mut freed: u64 = self.freed;
        let mut cas_freed: u64 = self.cas_freed;
        let mut failures: u64 = self.failures;
        match steps.pop_front() {
            Some(step) => {
                assert(step == state.todo[0]);
                assert(steps@ =~= todo.skip(1));
                let mut plan: Vec<Step> = Vec::new();
                match (step, reply) {
                    (Step::Judge, SweepReply::Judged(js)) => {
                        plan = plan_bases(js);
                    },
                    (Step::SweepBase(j), SweepReply::Removed(r)) => {
                        freed = freed + r.freed;
                        if !r.ok() {
                            failures = failures + 1;
                        }
                        plan.push(Step::TellBase(j, r));
                    },
                    (Step::ScanCache, SweepReply::Stale(entries)) => {
                        plan = plan_entries(entries);
                    },
                    (Step::SweepEntry(_), SweepReply::Removed(r)) => {
                        freed = freed + r.freed;
                        cas_freed = cas_freed + r.freed;
                        if !r.ok() {
                            failures = failures + 1;
                        }
                    },
                    _ => {},
                }
                assert(plan@ =~= state.todo[0].follow_up(reply));
                util::put_first(&mut steps, plan);
                assert(steps@ == state.after(reply).todo);
                assert forall|i: int| 0 <= i < steps@.len() implies match #[trigger] steps@[i] {
                    Step::TellBases(total, doomed) => doomed <= total,
                    _ => true,
                } by {
                    let n = state.todo[0].follow_up(reply).len();
                    if i < n {
                        assert(steps@[i] == state.todo[0].follow_up(reply)[i]);
                        lemma_plan_counts(state.todo[0], reply, i);
                    } else {
                        assert(steps@[i] == todo[i - n + 1]);
                    }
                }
            },
            None => {},
        }
        *self = SweepRun { options: self.options, steps, freed, cas_freed, failures };
    }

    /// The exit code of the finished sweep: 1 if anything could not be removed.
    pub fn exit_code(&self) -> (r: i32)
        ensures
            r == self@.code(),
    {
        if self.failures > 0 {
            1
        } else {
            0
        }
    }
}

proof fn lemma_plan_counts(step: Step, reply: SweepReply, i: int)
    requires
        0 <= i < step.follow_up(reply).len(),
    ensures
        match step.follow_up(reply)[i] {
            Step::TellBases(total, doomed) => doomed <= total,
            _ => true,
        },
{
    match (step, reply) {
        (Step::Judge, SweepReply::Judged(js)) => {
            report::law_counts_add_up(js@);
            assert(js.len() == js@.len());
        },
        _ => {},
    }
}

/// Plans the removal of the bases that the judgements condemn.
fn plan_bases(js: Vec<Judgement>) -> (r: Vec<Step>)
    ensures
        forall|reply: SweepReply|
            reply matches SweepReply::Judged(given) && given@ == js@ ==> r@
                == #[trigger] Step::Judge.follow_up(reply),
{
    let ghost all = js@;
    let ghost doomed = |j: Judgement| j.verdict.condemns();
    let ghost step = |j: Judgement| Step::SweepBase(j);
    let ghost first = Step::TellBases(all.len() as usize, report::condemned(all) as usize);
    let total: usize = js.len();
    let count: usize = report::doomed_count(&js);
    let mut r: Vec<Step> = Vec::new();
    r.push(Step::TellBases(total, count));
    proof {
        reveal(Seq::filter);
        assert(all.take(0) =~= seq![]);
        assert(r@ =~= seq![first] + all.take(0).filter(doomed).map_values(step));
    }
    for j in it: js
        invariant
            it.seq() == all,
            doomed == (|j: Judgement| j.verdict.condemns()),
            step == (|j: Judgement| Step::SweepBase(j)),
            r@ == seq![first] + all.take(it.index() as int).filter(doomed).map_values(step),
    {
        proof {
            reveal(Seq::filter);
            assert(all.take(it.index() + 1).drop_last() =~= all.take(it.index() as int));
        }
        if j.sweep() {
            r.push(Step::SweepBase(j));
            assert(r@ =~= seq![first] + all.take(it.index() + 1).filter(doomed).map_values(step));
        }
    }
    assert(all.take(all.len() as int) =~= all);
    r
}

/// Plans the removal of stale entries.
fn plan_entries(entries: Vec<CasEntry>) -> (r: Vec<Step>)
    ensures
        forall|reply: SweepReply|
            reply matches SweepReply::Stale(given) && given@ == entries@ ==> r@
                == #[trigger] Step::ScanCache.follow_up(reply),
{
    let ghost all = entries@;
    let ghost step = |e: CasEntry| Step::SweepEntry(e);
    let total: usize = entries.len();
    let shared: usize = report::shared_count(&entries);
    let mut r: Vec<Step> = Vec::new();
    assert(r@ =~= all.take(0).map_values(step));
    for e in it: entries
        invariant
            it.seq() == all,
            step == (|e: CasEntry| Step::SweepEntry(e)),
            r@ == all.take(it.index() as int).map_values(step),
    {
        r.push(Step::SweepEntry(e));
        assert(r@ =~= all.take(it.index() + 1).map_values(step));
    }
    assert(all.take(all.len() as int) =~= all);
    r.push(Step::TellCache(total, shared));
    r
}

} // verus!
