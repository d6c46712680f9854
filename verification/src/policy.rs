//! What to keep, what to sweep, and why.
//!
//! Policy is pure: it reads facts and returns a verdict per output base, so the reasons
//! printed in a dry run are the ones an applied sweep acts on.
//!
//! Rule order matters -- the first match wins:
//!
//! 1. IN_USE -- a server holds the base. Hard veto; never swept, at any age.
//! 2. ORPHANED -- the workspace is gone, so nothing can ever use this base again.
//!    Swept once past a short grace period, regardless of age. This is the rule that
//!    actually reclaims the disk: agent worktrees are torn down constantly and leave
//!    their bases behind.
//! 3. IDLE -- untouched past the age cutoff. The plain LRU sweep.
//! 4. FRESH -- recently used and still attached to a live workspace. Kept.
//!
//! The grace period exists for a narrow race: a worktree that is being created, whose
//! bazel server has started but whose directory is momentarily absent, would otherwise
//! read as an orphan and be swept mid-build.

use crate::layout::{BaseView, OutputBase, WorkspaceProbe};
use crate::liveness;
use crate::liveness::{LockProbe, PidFile, SignalProbe};
use crate::util;
use crate::util::{Hours, Timestamp};
use vstd::prelude::*;
use vstd::string::*;

verus! {

/// The age, in hours, past which a base is swept.
pub const DEFAULT_MAX_AGE_HOURS: i32 = 48;

/// The age, in hours, within which an orphan is kept.
pub const DEFAULT_ORPHAN_GRACE_HOURS: i32 = 1;

#[derive(Debug, Clone, Copy, PartialEq, Eq, Structural)]
pub enum Verdict {
    InUse,
    Orphaned,
    Idle,
    Fresh,
}

impl Verdict {
    /// The label of a verdict.
    pub open spec fn label(self) -> Seq<char> {
        match self {
            Verdict::InUse => "in-use"@,
            Verdict::Orphaned => "orphaned"@,
            Verdict::Idle => "idle"@,
            Verdict::Fresh => "fresh"@,
        }
    }

    /// The verdict condemns its base.
    pub open spec fn condemns(self) -> bool {
        self is Orphaned || self is Idle
    }

    /// The stable string label.
    pub fn value(self) -> (r: &'static str)
        ensures
            r@ == self.label(),
    {
        match self {
            Verdict::InUse => "in-use",
            Verdict::Orphaned => "orphaned",
            Verdict::Idle => "idle",
            Verdict::Fresh => "fresh",
        }
    }

    /// Whether a base with this verdict is swept.
    pub fn sweep(self) -> (r: bool)
        ensures
            r == self.condemns(),
    {
        matches!(self, Verdict::Orphaned | Verdict::Idle)
    }
}

#[derive(Debug, Clone)]
pub struct Judgement {
    pub base: OutputBase,
    pub verdict: Verdict,
    pub reason: String,
}

impl Judgement {
    /// Whether the judged base is swept.
    pub fn sweep(&self) -> (r: bool)
        ensures
            r == self.verdict.condemns(),
    {
        self.verdict.sweep()
    }
}

/// Tunables for [`judge`].
#[derive(Debug, Clone, Copy)]
pub struct Params {
    pub max_age_hours: Hours,
    pub orphan_grace_hours: Hours,
    pub sweep_orphans: bool,
}

impl Default for Params {
    fn default() -> (r: Self)
        ensures
            r.max_age_hours == Hours::Finite(48, 0),
            r.orphan_grace_hours == Hours::Finite(1, 0),
            r.sweep_orphans,
    {
        Params {
            max_age_hours: Hours::whole(DEFAULT_MAX_AGE_HOURS),
            orphan_grace_hours: Hours::whole(DEFAULT_ORPHAN_GRACE_HOURS),
            sweep_orphans: true,
        }
    }
}

/// What the machine says of a base and its workspace right now.
#[derive(Debug)]
pub struct Probe {
    pub lock: LockProbe,
    pub pid_file: PidFile,
    /// What the null signal to the recorded pid came to, if it was sent.
    pub signal: Option<SignalProbe>,
    /// What a look at the workspace that the base names came to.
    pub workspace: WorkspaceProbe,
}

impl Probe {
    /// Something is actively using the base, or it cannot be told that nothing is.
    pub open spec fn live(self) -> bool {
        liveness::used(self.lock, self.pid_file, self.signal)
    }
}

/// The age of a base, in nanoseconds.
pub open spec fn age_of(base: BaseView, now: Timestamp) -> int {
    now.ns() - base.last_used.ns()
}

/// The verdict on a base: the first rule that matches.
pub open spec fn verdict_on(base: BaseView, probe: Probe, now: Timestamp, p: Params) -> Verdict {
    if probe.live() {
        Verdict::InUse
    } else if base.gone(probe.workspace) && p.sweep_orphans {
        if p.orphan_grace_hours.above(age_of(base, now)) {
            Verdict::Fresh
        } else {
            Verdict::Orphaned
        }
    } else if p.max_age_hours.reached(age_of(base, now)) {
        Verdict::Idle
    } else {
        Verdict::Fresh
    }
}

/// Why the verdict on a base is what it is.
pub open spec fn reason_for(base: BaseView, probe: Probe, now: Timestamp, p: Params) -> Seq<char> {
    let age = util::age_text(age_of(base, now));
    if probe.live() {
        "bazel server is running here"@
    } else if base.gone(probe.workspace) && p.sweep_orphans {
        if p.orphan_grace_hours.above(age_of(base, now)) {
            "workspace "@ + base.workspace->0 + " is missing but the base was touched "@ + age
                + "h ago, inside the "@ + util::hours_text(p.orphan_grace_hours)
                + "h grace period"@
        } else {
            "workspace "@ + base.workspace->0 + " no longer exists"@
        }
    } else if p.max_age_hours.reached(age_of(base, now)) {
        "unused for "@ + age + "h (cutoff "@ + util::hours_text(p.max_age_hours) + "h)"@
    } else {
        "used "@ + age + "h ago"@
    }
}

/// Decide the fate of a single output base against a fixed `now`.
pub fn judge(base: OutputBase, probe: &Probe, now: Timestamp, p: Params) -> (r: Judgement)
    ensures
        r.base == base,
        r.verdict == verdict_on(base@, *probe, now, p),
        r.reason@ == reason_for(base@, *probe, now, p),
{
    let age: i128 = now.since(base.last_used);
    if liveness::in_use(probe.lock, &probe.pid_file, probe.signal) {
        return Judgement {
            base,
            verdict: Verdict::InUse,
            reason: "bazel server is running here".to_owned(),
        };
    }
    if base.orphaned(probe.workspace) && p.sweep_orphans {
        let mut reason = "workspace ".to_owned();
        match &base.workspace {
            Some(ws) => {
                reason.append(ws.as_str());
            },
            None => {},
        }
        if p.orphan_grace_hours.is_above(age) {
            reason.append(" is missing but the base was touched ");
            reason.append(util::fmt_age(age).as_str());
            reason.append("h ago, inside the ");
            reason.append(util::fmt_g(p.orphan_grace_hours).as_str());
            reason.append("h grace period");
            return Judgement { base, verdict: Verdict::Fresh, reason };
        }
        reason.append(" no longer exists");
        return Judgement { base, verdict: Verdict::Orphaned, reason };
    }
    if p.max_age_hours.is_reached(age) {
        let mut reason = "unused for ".to_owned();
        reason.append(util::fmt_age(age).as_str());
        reason.append("h (cutoff ");
        reason.append(util::fmt_g(p.max_age_hours).as_str());
        reason.append("h)");
        return Judgement { base, verdict: Verdict::Idle, reason };
    }
    let mut reason = "used ".to_owned();
    reason.append(util::fmt_age(age).as_str());
    reason.append("h ago");
    Judgement { base, verdict: Verdict::Fresh, reason }
}

/// The judgements are those on the bases, each by what the machine says of it, against a single
/// `now`.
pub open spec fn judged(
    js: Seq<Judgement>,
    bases: Seq<(OutputBase, Probe)>,
    now: Timestamp,
    p: Params,
) -> bool {
    &&& js.len() == bases.len()
    &&& forall|i: int|
        #![trigger js[i]]
        0 <= i < js.len() ==> {
            &&& js[i].base == bases[i].0
            &&& js[i].verdict == verdict_on(bases[i].0@, bases[i].1, now, p)
            &&& js[i].reason@ == reason_for(bases[i].0@, bases[i].1, now, p)
        }
}

/// Judge every base against a single consistent `now`.
pub fn judge_all(bases: Vec<(OutputBase, Probe)>, now: Timestamp, p: Params) -> (r: Vec<Judgement>)
    ensures
        judged(r@, bases@, now, p),
{
    let mut r: Vec<Judgement> = Vec::new();
    for pair in it: bases
        invariant
            it.seq() == bases@,
            r@.len() == it.index(),
            forall|i: int|
                #![trigger r@[i]]
                0 <= i < r@.len() ==> {
                    &&& r@[i].base == bases@[i].0
                    &&& r@[i].verdict == verdict_on(bases@[i].0@, bases@[i].1, now, p)
                    &&& r@[i].reason@ == reason_for(bases@[i].0@, bases@[i].1, now, p)
                },
    {
        let (base, probe) = pair;
        r.push(judge(base, &probe, now, p));
    }
    r
}

/// A base in use is never swept, at any age, orphaned or not, whatever the tunables.
pub proof fn law_live_base_is_never_swept(base: BaseView, probe: Probe, now: Timestamp, p: Params)
    requires
        probe.live(),
    ensures
        verdict_on(base, probe, now, p) == Verdict::InUse,
        !verdict_on(base, probe, now, p).condemns(),
{
}

/// A held lock, a lock that cannot be probed, a pid file that cannot be read or does not
/// hold a number, and a running server each veto a sweep on their own.
pub proof fn law_each_signal_vetoes(base: BaseView, probe: Probe, now: Timestamp, p: Params)
    requires
        liveness::held(probe.lock) || liveness::ambiguous(probe.pid_file) || (liveness::pid_in(
            probe.pid_file,
        ) is Some && liveness::alive(liveness::pid_in(probe.pid_file)->0, probe.signal)),
    ensures
        !verdict_on(base, probe, now, p).condemns(),
{
}

/// A lock that can be taken and a pid whose process is gone do not pin a base: it is in use
/// no more than if neither file were there.
pub proof fn law_leftovers_do_not_veto(probe: Probe)
    requires
        !liveness::held(probe.lock),
        liveness::pid_in(probe.pid_file) is Some,
        !liveness::alive(liveness::pid_in(probe.pid_file)->0, probe.signal),
    ensures
        !probe.live(),
{
}

/// An orphan past its grace period is swept however recently it was used.
pub proof fn law_orphan_past_grace_is_swept(base: BaseView, probe: Probe, now: Timestamp, p: Params)
    requires
        !probe.live(),
        base.gone(probe.workspace),
        p.sweep_orphans,
        !p.orphan_grace_hours.above(age_of(base, now)),
    ensures
        verdict_on(base, probe, now, p) == Verdict::Orphaned,
        verdict_on(base, probe, now, p).condemns(),
{
}

/// An orphan inside its grace period is kept, whatever the age cutoff.
pub proof fn law_orphan_inside_grace_is_kept(
    base: BaseView,
    probe: Probe,
    now: Timestamp,
    p: Params,
)
    requires
        base.gone(probe.workspace),
        p.sweep_orphans,
        p.orphan_grace_hours.above(age_of(base, now)),
    ensures
        !verdict_on(base, probe, now, p).condemns(),
{
}

/// A base that names no workspace is never an orphan: it is left to the age rule.
pub proof fn law_nameless_base_is_left_to_age(
    base: BaseView,
    probe: Probe,
    now: Timestamp,
    p: Params,
)
    requires
        base.workspace is None,
        !probe.live(),
    ensures
        verdict_on(base, probe, now, p) == if p.max_age_hours.reached(age_of(base, now)) {
            Verdict::Idle
        } else {
            Verdict::Fresh
        },
{
}

/// With orphans not swept as such, whether the workspace exists makes no difference, neither to
/// the verdict nor to the reason.
pub proof fn law_no_orphans_means_age_alone(
    base: BaseView,
    a: Probe,
    b: Probe,
    now: Timestamp,
    p: Params,
)
    requires
        !p.sweep_orphans,
        a.lock == b.lock,
        a.pid_file == b.pid_file,
        a.signal == b.signal,
    ensures
        verdict_on(base, a, now, p) == verdict_on(base, b, now, p),
        reason_for(base, a, now, p) == reason_for(base, b, now, p),
        !(verdict_on(base, a, now, p) is Orphaned),
{
}

/// The age cutoff is inclusive: a base exactly as old as the cutoff is swept.
pub proof fn law_cutoff_is_inclusive(base: BaseView, probe: Probe, now: Timestamp, p: Params)
    requires
        !probe.live(),
        !base.gone(probe.workspace) || !p.sweep_orphans,
        p.max_age_hours.lasts(age_of(base, now)),
    ensures
        verdict_on(base, probe, now, p) == Verdict::Idle,
{
}

/// What is swept now is swept later: as long as nothing else changes, age only condemns.
pub proof fn law_age_only_condemns(
    base: BaseView,
    probe: Probe,
    now: Timestamp,
    later: Timestamp,
    p: Params,
)
    requires
        now.ns() <= later.ns(),
        verdict_on(base, probe, now, p).condemns(),
    ensures
        verdict_on(base, probe, later, p).condemns(),
{
    util::law_spans_stay_reached(p.max_age_hours, age_of(base, now), age_of(base, later));
    util::law_spans_stay_reached(p.orphan_grace_hours, age_of(base, now), age_of(base, later));
}

/// No two verdicts share a label.
pub proof fn law_labels_are_distinct(a: Verdict, b: Verdict)
    ensures
        a.label() == b.label() <==> a == b,
{
    reveal_strlit("in-use");
    reveal_strlit("orphaned");
    reveal_strlit("idle");
    reveal_strlit("fresh");
    assert("in-use"@.len() == 6);
    assert("fresh"@.len() == 5);
    assert("idle"@.len() == 4);
    assert("orphaned"@.len() == 8);
}

} // verus!
