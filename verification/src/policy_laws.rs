//! The rules and what vetoes them, in plain terms.

use crate::disk;
use crate::disk::{ErrorKind, IoError};
use crate::layout::{BaseView, OutputBase, WorkspaceProbe};
use crate::liveness;
use crate::liveness::{LockProbe, PidFile, SignalProbe};
use crate::policy;
use crate::policy::{Judgement, Params, Probe, Verdict};
use crate::text;
use crate::time_laws;
use crate::util;
use crate::util::Timestamp;
use vstd::prelude::*;

verus! {

/// Only a missing path is no refusal.
pub proof fn law_refusals_are_all_but_missing(e: IoError)
    ensures
        disk::refusal(e) <==> e.kind is NotADirectory || e.kind is PermissionDenied
            || e.kind is Other,
        e.kind.absent() <==> e.kind is NotFound || e.kind is NotADirectory,
{
}

/// No lock is held exactly if there is no lock file, or the lock could be taken.
pub proof fn law_lock_is_free_if_missing_or_taken(lock: LockProbe)
    ensures
        !liveness::held(lock) <==> lock == LockProbe::OpenFailed(ErrorKind::NotFound) || lock
            == LockProbe::Flock(0),
{
}

/// A process is not alive exactly if its number names none, or a signal to it failed because
/// there is no such process.
pub proof fn law_process_is_dead_if_missing(pid: i32, probe: Option<SignalProbe>)
    ensures
        !liveness::alive(pid, probe) <==> pid <= 0 || (probe matches Some(p) && p.rc != 0 && p.errno
            == 3),
{
}

/// The number that a pid file holds is its text as an integer, white space round it aside.
pub proof fn law_pid_is_the_trimmed_number(file: PidFile)
    ensures
        file matches PidFile::Text(raw) ==> liveness::pid_in(file) == text::integer_value(
            text::trimmed(raw@),
        ),
        file is ReadFailed ==> liveness::pid_in(file) is None,
{
}

/// A process is signalled exactly if the pid file holds its number, and that is positive; it is
/// the base's server exactly if besides the signal does not say that it is missing.
pub proof fn law_server_is_the_recorded_process(
    file: PidFile,
    probe: Option<SignalProbe>,
    pid: i32,
)
    ensures
        liveness::process_in(file) == Some(pid) <==> pid > 0 && (file matches PidFile::Text(raw)
            && text::integer_value(text::trimmed(raw@)) == Some(pid)),
        liveness::server_in(file, probe) == Some(pid) <==> pid > 0 && (file matches PidFile::Text(
            raw,
        ) && text::integer_value(text::trimmed(raw@)) == Some(pid)) && !(probe matches Some(p)
            && p.rc != 0 && p.errno == 3),
{
}

/// A base is free exactly if its lock is free and its pid file names no live process: the file
/// is not there, or it holds a number that names none, or that of a process that is missing.
pub proof fn law_base_is_free_exactly_if_nothing_speaks_for_it(
    lock: LockProbe,
    file: PidFile,
    probe: Option<SignalProbe>,
)
    ensures
        !liveness::used(lock, file, probe) <==> {
            &&& lock == LockProbe::OpenFailed(ErrorKind::NotFound) || lock == LockProbe::Flock(0)
            &&& match file {
                PidFile::ReadFailed(kind) => kind is NotFound || kind is NotADirectory,
                PidFile::Text(raw) => text::integer_value(text::trimmed(raw@)) matches Some(pid)
                    && (pid <= 0 || (probe matches Some(p) && p.rc != 0 && p.errno == 3)),
            }
        },
{
}

/// What a probe says of liveness is what its lock, pid file and signal say.
pub proof fn law_probe_is_live_by_its_parts(probe: Probe)
    ensures
        probe.live() <==> liveness::used(probe.lock, probe.pid_file, probe.signal),
{
}

/// The age of a base is the time since its last use.
pub proof fn law_age_is_time_since_last_use(base: BaseView, now: Timestamp)
    ensures
        policy::age_of(base, now) == (now.secs - base.last_used.secs) * 1_000_000_000 + (now.nsecs
            - base.last_used.nsecs),
{
}

/// Whether the base is to be judged as an orphan: nothing uses it, its workspace is gone, and
/// orphans are swept.
pub open spec fn is_orphan(base: BaseView, probe: Probe, p: Params) -> bool {
    &&& !probe.live()
    &&& p.sweep_orphans
    &&& base.workspace is Some
    &&& probe.workspace == WorkspaceProbe::StatFailed(ErrorKind::NotFound) || probe.workspace
        == WorkspaceProbe::StatFailed(ErrorKind::NotADirectory)
}

/// A base that nothing uses and that is not judged as an orphan is idle from its cutoff on, and
/// fresh before it, whatever else is known of it.
pub proof fn law_no_base_is_condemned_before_its_cutoff(
    base: BaseView,
    probe: Probe,
    now: Timestamp,
    p: Params,
    ns: int,
)
    requires
        !probe.live(),
        !is_orphan(base, probe, p),
        p.max_age_hours.lasts(ns),
    ensures
        policy::age_of(base, now) < ns ==> policy::verdict_on(base, probe, now, p)
            == Verdict::Fresh,
        policy::age_of(base, now) >= ns ==> policy::verdict_on(base, probe, now, p)
            == Verdict::Idle,
{
    util::law_spans_compare_exactly(p.max_age_hours, ns, policy::age_of(base, now));
}

/// An orphan is kept as fresh before its grace period is over, and swept from then on, whatever
/// the cutoff and whatever else is known of it.
pub proof fn law_no_orphan_is_condemned_before_its_grace(
    base: BaseView,
    probe: Probe,
    now: Timestamp,
    p: Params,
    ns: int,
)
    requires
        is_orphan(base, probe, p),
        p.orphan_grace_hours.lasts(ns),
    ensures
        policy::age_of(base, now) < ns ==> policy::verdict_on(base, probe, now, p)
            == Verdict::Fresh,
        policy::age_of(base, now) >= ns ==> policy::verdict_on(base, probe, now, p)
            == Verdict::Orphaned,
{
    util::law_spans_compare_exactly(p.orphan_grace_hours, ns, policy::age_of(base, now));
}

/// Where the span that decides is no number of hours, the verdict goes by what it is: an endless
/// span is never over, its opposite always is, and what is no number is never reached as a
/// cutoff and never holds as a grace period.
pub proof fn law_verdict_by_spans_that_are_no_number(
    base: BaseView,
    probe: Probe,
    now: Timestamp,
    p: Params,
)
    requires
        !probe.live(),
    ensures
        ({
            let verdict = policy::verdict_on(base, probe, now, p);
            if is_orphan(base, probe, p) {
                &&& p.orphan_grace_hours is PosInfinity ==> verdict == Verdict::Fresh
                &&& p.orphan_grace_hours is NegInfinity ==> verdict == Verdict::Orphaned
                &&& p.orphan_grace_hours is NotANumber ==> verdict == Verdict::Orphaned
            } else {
                &&& p.max_age_hours is PosInfinity ==> verdict == Verdict::Fresh
                &&& p.max_age_hours is NegInfinity ==> verdict == Verdict::Idle
                &&& p.max_age_hours is NotANumber ==> verdict == Verdict::Fresh
            }
        }),
{
    time_laws::law_age_is_held_against_no_number(policy::age_of(base, now));
}

/// Where a span is no whole number of nanoseconds, the verdict still goes by whether the age has
/// reached it.
pub proof fn law_verdict_goes_by_the_span_reached(
    base: BaseView,
    probe: Probe,
    now: Timestamp,
    p: Params,
)
    ensures
        ({
            let verdict = policy::verdict_on(base, probe, now, p);
            let age = policy::age_of(base, now);
            &&& verdict == Verdict::InUse <==> probe.live()
            &&& verdict == Verdict::Orphaned <==> is_orphan(base, probe, p)
                && !p.orphan_grace_hours.above(age)
            &&& verdict == Verdict::Idle <==> !probe.live() && !is_orphan(base, probe, p)
                && p.max_age_hours.reached(age)
        }),
{
}

/// The verdict rests on the age, not on when the base was used and judged.
pub proof fn law_verdict_rests_on_the_age(
    a: BaseView,
    b: BaseView,
    probe: Probe,
    now: Timestamp,
    later: Timestamp,
    p: Params,
)
    requires
        a.workspace == b.workspace,
        policy::age_of(a, now) == policy::age_of(b, later),
    ensures
        policy::verdict_on(a, probe, now, p) == policy::verdict_on(b, probe, later, p),
        policy::reason_for(a, probe, now, p) == policy::reason_for(b, probe, later, p),
{
}

/// The reason given fits the verdict, and names the workspace, the age and the span that it
/// rests on.
pub proof fn law_reason_fits_the_verdict(
    base: BaseView,
    probe: Probe,
    now: Timestamp,
    p: Params,
)
    ensures
        ({
            let verdict = policy::verdict_on(base, probe, now, p);
            let reason = policy::reason_for(base, probe, now, p);
            let age = util::age_text(policy::age_of(base, now));
            match verdict {
                Verdict::InUse => reason == "bazel server is running here"@,
                Verdict::Orphaned => reason == "workspace "@ + base.workspace->0
                    + " no longer exists"@,
                Verdict::Idle => reason == "unused for "@ + age + "h (cutoff "@ + util::hours_text(
                    p.max_age_hours,
                ) + "h)"@,
                Verdict::Fresh => if is_orphan(base, probe, p) {
                    reason == "workspace "@ + base.workspace->0
                        + " is missing but the base was touched "@ + age + "h ago, inside the "@
                        + util::hours_text(p.orphan_grace_hours) + "h grace period"@
                } else {
                    reason == "used "@ + age + "h ago"@
                },
            }
        }),
{
}

/// The labels, and which verdicts condemn a base.
pub proof fn law_verdicts_are_what_they_are_called(verdict: Verdict)
    ensures
        Verdict::InUse.label() == "in-use"@,
        Verdict::Orphaned.label() == "orphaned"@,
        Verdict::Idle.label() == "idle"@,
        Verdict::Fresh.label() == "fresh"@,
        verdict.condemns() <==> verdict == Verdict::Orphaned || verdict == Verdict::Idle,
{
}

/// The judgements are one on each base, in order: on that base, by its own probe, at one time.
pub proof fn law_each_base_is_judged_by_itself(
    js: Seq<Judgement>,
    bases: Seq<(OutputBase, Probe)>,
    now: Timestamp,
    p: Params,
)
    ensures
        policy::judged(js, bases, now, p) <==> js.len() == bases.len() && forall|i: int|
            0 <= i < bases.len() ==> {
                &&& (#[trigger] js[i]).base == bases[i].0
                &&& js[i].verdict == policy::verdict_on(bases[i].0@, bases[i].1, now, p)
                &&& js[i].reason@ == policy::reason_for(bases[i].0@, bases[i].1, now, p)
            },
        forall|base: OutputBase|
            #![trigger base@]
            base@.path == base.path@ && base@.last_used == base.last_used && match base.workspace {
                Some(ws) => base@.workspace == Some(ws@),
                None => base@.workspace is None,
            },
{
}

} // verus!
