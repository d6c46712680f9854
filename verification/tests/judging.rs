//! The census of output bases, the rules, and the safety properties that must hold
//! regardless of the rules.

use roomba::disk::ErrorKind;
use roomba::layout::{
    default_output_user_root, freshness_markers, is_output_base_name, iter_output_bases,
    is_base_name, last_used, read_workspace, workspace_marker, BaseFacts, OutputBase,
    WorkspaceProbe,
};
use roomba::liveness::{
    in_use, lock_held, lock_path, pid_alive, pid_path, pid_to_signal, recorded_pid, server_pid,
    LockProbe, PidFile, SignalProbe,
};
use roomba::paths::{file_name, join, parent};
use roomba::policy::{judge, judge_all, Judgement, Params, Probe, Verdict};
use roomba::util::{now, Hours, Timestamp};

const MD5_A: &str = "00000000000000000000000000000000";
const MD5_B: &str = "11111111111111111111111111111111";
const ROOT: &[u8] = b"/tmp/_bazel_test";

const NOW: Timestamp = Timestamp {
    secs: 1_700_000_000,
    nsecs: 0,
};

fn hours_ago(hours: f64) -> Timestamp {
    let back = (hours * 3600.0 * 1e9).round() as i128;
    let ns = 1_700_000_000_000_000_000i128 - back;
    Timestamp {
        secs: (ns / 1_000_000_000) as i64,
        nsecs: (ns % 1_000_000_000) as i64,
    }
}

/// An output base that names a workspace, its freshness marker and itself this old.
fn make_base(name: &str, workspace: Option<&str>, age_hours: f64) -> BaseFacts {
    let when = hours_ago(age_hours);
    BaseFacts {
        name: name.as_bytes().to_vec(),
        is_dir: true,
        workspace: workspace.map(|ws| format!("{ws}\n")),
        markers: vec![Some(when), None, None, None],
        own: Some(when),
    }
}

fn census(found: Vec<BaseFacts>) -> Vec<OutputBase> {
    iter_output_bases(ROOT, &found)
}

const MISSING: WorkspaceProbe = WorkspaceProbe::StatFailed(ErrorKind::NotFound);

/// A base with a lock that nobody holds, and no pid file.
fn unlocked(workspace_exists: bool) -> Probe {
    let workspace = if workspace_exists {
        WorkspaceProbe::Found
    } else {
        MISSING
    };
    Probe {
        lock: LockProbe::Flock(0),
        pid_file: PidFile::ReadFailed(ErrorKind::NotFound),
        signal: None,
        workspace,
    }
}

fn judged(facts: BaseFacts, probe: Probe, p: Params) -> Judgement {
    let base = census(vec![facts]).remove(0);
    judge_all(vec![(base, probe)], NOW, p).remove(0)
}

fn gone() -> SignalProbe {
    SignalProbe { rc: -1, errno: 3 }
}

#[test]
fn reads_workspace_from_do_not_build_here() {
    assert_eq!(
        read_workspace(Some("/tmp/workspace\n")),
        Some("/tmp/workspace".to_string())
    );
    assert_eq!(
        workspace_marker(b"/r/base"),
        b"/r/base/DO_NOT_BUILD_HERE".to_vec()
    );
}

#[test]
fn workspace_is_none_when_marker_missing() {
    assert_eq!(read_workspace(None), None);
    assert_eq!(read_workspace(Some(" \t\n")), None);
    assert_eq!(read_workspace(Some("")), None);
}

#[test]
fn workspace_is_trimmed_at_both_ends_only() {
    assert_eq!(
        read_workspace(Some("\u{a0} /w s/\u{e9} \r\n\u{3000}")),
        Some("/w s/\u{e9}".to_string())
    );
}

#[test]
fn iter_skips_cache_and_install_siblings() {
    // The repository cache and install base live beside the output bases; sweeping
    // either would be a disaster, so they must never be enumerated.
    let mut found = vec![make_base(MD5_A, Some("/tmp/workspace"), 0.0)];
    for name in ["cache", "install", "not-an-md5", &"f".repeat(31)] {
        found.push(make_base(name, None, 0.0));
    }
    let names: Vec<String> = census(found).iter().map(|b| b.name()).collect();
    assert_eq!(names, vec![MD5_A.to_string()]);
}

#[test]
fn bases_are_sorted_directories() {
    let mut file = make_base("22222222222222222222222222222222", None, 0.0);
    file.is_dir = false;
    let bases = census(vec![
        make_base(MD5_B, Some("/w/b"), 2.0),
        file,
        make_base(MD5_A, Some("/w/a"), 1.0),
    ]);
    assert_eq!(bases.len(), 2);
    assert_eq!(bases[0].name(), MD5_A);
    assert_eq!(
        bases[0].path,
        b"/tmp/_bazel_test/00000000000000000000000000000000".to_vec()
    );
    assert_eq!(bases[0].workspace, Some("/w/a".to_string()));
    assert_eq!(bases[0].last_used, hours_ago(1.0));
    assert_eq!(bases[1].name(), MD5_B);
}

#[test]
fn only_digests_name_bases() {
    assert!(is_base_name(MD5_A.as_bytes()));
    assert!(!is_base_name(b"cache"));
    assert!(!is_base_name(b"install"));
    assert!(!is_base_name(b"0000000000000000000000000000000\xff"));
}

#[test]
fn names_that_are_not_text_are_no_bases() {
    let mut odd = make_base(MD5_A, Some("/w"), 1.0);
    odd.name[31] = 0xff;
    assert!(census(vec![odd]).is_empty());
}

#[test]
fn base_names_are_md5_digests() {
    assert!(is_output_base_name("0123456789abcdef0123456789abcdef"));
    assert!(!is_output_base_name("0123456789ABCDEF0123456789abcdef"));
    assert!(!is_output_base_name("0123456789abcdef0123456789abcdeg"));
    assert!(!is_output_base_name("0123456789abcdef0123456789abcde"));
    assert!(!is_output_base_name("0123456789abcdef0123456789abcdef0"));
    assert!(!is_output_base_name("\u{e9}123456789abcdef0123456789abcd"));
    assert!(!is_output_base_name(""));
}

#[test]
fn orphaned_tracks_workspace_existence() {
    let bases = census(vec![
        make_base(MD5_A, Some("/tmp/workspace"), 0.0),
        make_base(MD5_B, Some("/tmp/vanished"), 0.0),
    ]);
    assert!(!bases[0].orphaned(WorkspaceProbe::Found));
    assert!(bases[1].orphaned(MISSING));
}

#[test]
fn unreadable_workspace_is_not_an_orphan() {
    // A base too broken to name its workspace is left to the age rule, not swept.
    let found = census(vec![make_base(MD5_A, None, 0.0)]);
    assert_eq!(found[0].workspace, None);
    assert!(!found[0].orphaned(MISSING));
    assert!(!found[0].orphaned(WorkspaceProbe::NotProbed));
    assert_eq!(
        judged(make_base(MD5_A, None, 2.0), unlocked(false), Params::default()).verdict,
        Verdict::Fresh
    );
    assert_eq!(
        judged(make_base(MD5_A, None, 72.0), unlocked(false), Params::default()).verdict,
        Verdict::Idle
    );
}

#[test]
fn unreachable_workspace_is_not_an_orphan() {
    // A workspace that cannot be looked at is not known to be gone.
    let denied = WorkspaceProbe::StatFailed(ErrorKind::PermissionDenied);
    let bases = census(vec![make_base(MD5_A, Some("/tmp/private"), 2.0)]);
    assert!(!bases[0].orphaned(denied));
    assert!(!bases[0].orphaned(WorkspaceProbe::StatFailed(ErrorKind::Other)));
    assert!(!bases[0].orphaned(WorkspaceProbe::NotProbed));

    let mut probe = unlocked(true);
    probe.workspace = denied;
    let base = || make_base(MD5_A, Some("/tmp/private"), 2.0);
    let j = judged(base(), probe, Params::default());
    assert_eq!(j.verdict, Verdict::Fresh);
    assert_eq!(j.reason, "used 2.0h ago");
}

#[test]
fn workspace_below_a_file_is_gone() {
    // A path that leads through something that is no directory names nothing.
    let below = WorkspaceProbe::StatFailed(ErrorKind::NotADirectory);
    let bases = census(vec![make_base(MD5_A, Some("/tmp/file/w"), 2.0)]);
    assert!(bases[0].orphaned(below));
    let mut probe = unlocked(true);
    probe.workspace = below;
    let base = make_base(MD5_A, Some("/tmp/file/w"), 2.0);
    let j = judged(base, probe, Params::default());
    assert_eq!(j.verdict, Verdict::Orphaned);
    assert_eq!(j.reason, "workspace /tmp/file/w no longer exists");
}

#[test]
fn last_used_prefers_newest_marker() {
    // A cold base with one recently-touched marker counts as recently used.
    let starttime = hours_ago(1.0);
    let markers = vec![
        Some(hours_ago(100.0)),
        Some(starttime),
        None,
        Some(hours_ago(100.0)),
    ];
    assert_eq!(last_used(&markers, Some(hours_ago(100.0))), starttime);
    assert_eq!(
        freshness_markers(b"/b"),
        vec![
            b"/b/command.profile.gz".to_vec(),
            b"/b/server/server.starttime".to_vec(),
            b"/b/action_cache".to_vec(),
            b"/b/server".to_vec(),
        ]
    );
}

#[test]
fn last_used_falls_back_to_the_base() {
    let none = vec![None, None, None, None];
    let epoch = Timestamp { secs: 0, nsecs: 0 };
    assert_eq!(last_used(&none, Some(hours_ago(3.0))), hours_ago(3.0));
    assert_eq!(last_used(&none, None), epoch);
    assert_eq!(last_used(&vec![Some(epoch)], Some(NOW)), epoch);
    let before = Timestamp {
        secs: -1,
        nsecs: 999_999_999,
    };
    assert_eq!(last_used(&vec![Some(before)], Some(NOW)), before);
    let marker = Timestamp { secs: -5, nsecs: 0 };
    let own = Timestamp {
        secs: 100,
        nsecs: 0,
    };
    assert_eq!(last_used(&vec![Some(marker)], Some(own)), marker);
    assert_eq!(
        last_used(&vec![None, Some(marker), Some(before)], Some(own)),
        before
    );
}

#[test]
fn clock_before_the_epoch_reads_as_the_epoch() {
    assert_eq!(now(Some(NOW)), NOW);
    assert_eq!(now(None), Timestamp { secs: 0, nsecs: 0 });
}

#[test]
fn default_root_follows_the_environment() {
    let root = |t, h, u| String::from_utf8(default_output_user_root(t, h, u)).unwrap();
    let home: Option<&[u8]> = Some(b"/home/ann");
    assert_eq!(
        root(None, home, Some("bob")),
        "/home/ann/.cache/bazel/_bazel_bob"
    );
    assert_eq!(root(None, home, None), "/home/ann/.cache/bazel/_bazel_ann");
    assert_eq!(
        root(Some(""), home, Some("")),
        "/home/ann/.cache/bazel/_bazel_ann"
    );
    assert_eq!(root(Some("/t"), home, Some("bob")), "/t");
    assert_eq!(root(None, None, None), "./.cache/bazel/_bazel_");
    assert_eq!(
        root(None, Some(b"/"), None),
        "/.cache/bazel/_bazel_"
    );
    // A home directory whose name is not text lends no name.
    assert_eq!(
        default_output_user_root(None, Some(b"/h\xff"), None),
        b"/h\xff/.cache/bazel/_bazel_".to_vec()
    );
}

#[test]
fn joining_and_naming_agree_with_std() {
    for dir in [
        "", "/", "a", "a/", "/a/b", "a//", "a/.", "..", "a/..", ".", "./", "/.", "//", "./.", ".a",
        "/..", "a/./", "//a", "./a/.", "../.",
    ] {
        for name in ["x", "x/y", "/abs", "", ".", "..", "x/", "./x", "../x", "x//y", "x/./y", "x/.", ".x", "..x"] {
            let ours = join(dir.as_bytes(), name.as_bytes());
            let theirs = std::path::Path::new(dir).join(name);
            assert_eq!(ours, theirs.to_str().unwrap().as_bytes().to_vec());
            assert_eq!(
                file_name(&ours).map(|n| n.to_vec()),
                theirs
                    .file_name()
                    .map(|n| n.to_str().unwrap().as_bytes().to_vec()),
                "{theirs:?}"
            );
            assert_eq!(
                parent(&ours),
                theirs
                    .parent()
                    .map(|d| d.to_str().unwrap().as_bytes().to_vec()),
                "{theirs:?}"
            );
        }
    }
}

#[test]
fn fresh_base_is_kept() {
    let j = judged(
        make_base(MD5_A, Some("/tmp/workspace"), 1.0),
        unlocked(true),
        Params::default(),
    );
    assert_eq!(j.verdict, Verdict::Fresh);
    assert_eq!(j.reason, "used 1.0h ago");
}

#[test]
fn idle_base_past_cutoff_is_swept() {
    let j = judged(
        make_base(MD5_A, Some("/tmp/workspace"), 72.0),
        unlocked(true),
        Params::default(),
    );
    assert_eq!(j.verdict, Verdict::Idle);
    assert!(j.sweep());
    assert_eq!(j.reason, "unused for 72.0h (cutoff 48h)");
}

#[test]
fn cutoff_boundary_is_inclusive() {
    let base = || make_base(MD5_A, Some("/tmp/workspace"), 47.9);
    assert_eq!(
        judged(base(), unlocked(true), Params::default()).verdict,
        Verdict::Fresh
    );
    let p = Params {
        max_age_hours: Hours::whole(24),
        ..Params::default()
    };
    assert_eq!(judged(base(), unlocked(true), p).verdict, Verdict::Idle);

    let p = Params {
        max_age_hours: Hours::Finite(479, -1),
        ..Params::default()
    };
    let j = judged(base(), unlocked(true), p);
    assert_eq!(j.verdict, Verdict::Idle);
    assert_eq!(j.reason, "unused for 47.9h (cutoff 47.9h)");
    let p = Params {
        max_age_hours: Hours::Finite(47_900_000_001, -9),
        ..Params::default()
    };
    assert_eq!(judged(base(), unlocked(true), p).verdict, Verdict::Fresh);
}

#[test]
fn orphan_is_swept_even_when_recently_used() {
    // The whole point: an agent worktree torn down an hour ago is dead weight.
    let j = judged(
        make_base(MD5_A, Some("/tmp/vanished"), 2.0),
        unlocked(false),
        Params::default(),
    );
    assert_eq!(j.verdict, Verdict::Orphaned);
    assert!(j.sweep());
    assert_eq!(j.reason, "workspace /tmp/vanished no longer exists");
}

#[test]
fn orphan_inside_grace_period_is_kept() {
    // Don't race a worktree that is mid-creation.
    let j = judged(
        make_base(MD5_A, Some("/tmp/not-yet"), 0.1),
        unlocked(false),
        Params::default(),
    );
    assert_eq!(j.verdict, Verdict::Fresh);
    assert_eq!(
        j.reason,
        "workspace /tmp/not-yet is missing but the base was touched 0.1h ago, inside the 1h grace period"
    );
}

#[test]
fn grace_period_ends_at_its_boundary() {
    let at = |hours| {
        judged(
            make_base(MD5_A, Some("/tmp/vanished"), hours),
            unlocked(false),
            Params::default(),
        )
        .verdict
    };
    assert_eq!(at(1.0), Verdict::Orphaned);
    assert_eq!(at(0.999), Verdict::Fresh);
    // Inside the grace period the age cutoff does not apply either.
    let p = Params {
        max_age_hours: Hours::Finite(0, 0),
        ..Params::default()
    };
    let j = judged(
        make_base(MD5_A, Some("/tmp/vanished"), 0.5),
        unlocked(false),
        p,
    );
    assert_eq!(j.verdict, Verdict::Fresh);
}

#[test]
fn no_orphans_falls_back_to_pure_age() {
    let p = Params {
        sweep_orphans: false,
        ..Params::default()
    };
    assert_eq!(
        judged(
            make_base(MD5_A, Some("/tmp/vanished"), 2.0),
            unlocked(false),
            p
        )
        .verdict,
        Verdict::Fresh
    );
}

#[test]
fn live_server_is_never_swept_even_when_orphaned_and_ancient() {
    // Liveness is a hard veto -- deleting a base under a running server corrupts it.
    let mut probe = unlocked(false);
    probe.lock = LockProbe::Flock(-1);
    let j = judged(
        make_base(MD5_A, Some("/tmp/vanished"), 1000.0),
        probe,
        Params::default(),
    );
    assert_eq!(j.verdict, Verdict::InUse);
    assert!(!j.sweep());
    assert_eq!(j.reason, "bazel server is running here");
}

#[test]
fn unlocked_base_is_not_in_use() {
    // An abandoned lock file must not pin a base forever.
    assert_eq!(
        judged(
            make_base(MD5_A, Some("/tmp/vanished"), 72.0),
            unlocked(false),
            Params::default()
        )
        .verdict,
        Verdict::Orphaned
    );
}

#[test]
fn live_pid_vetoes_sweep() {
    let probe = Probe {
        lock: LockProbe::OpenFailed(ErrorKind::NotFound),
        pid_file: PidFile::Text("4242".to_string()),
        signal: Some(SignalProbe { rc: 0, errno: 0 }),
        workspace: MISSING,
    };
    assert_eq!(
        judged(
            make_base(MD5_A, Some("/tmp/vanished"), 72.0),
            probe,
            Params::default()
        )
        .verdict,
        Verdict::InUse
    );
}

#[test]
fn stale_pid_does_not_veto_sweep() {
    // A server that died without cleaning up must not pin its base forever.
    let pid_file = PidFile::Text("999999999".to_string());
    assert_eq!(pid_to_signal(&pid_file), Some(999999999));
    let probe = Probe {
        lock: LockProbe::OpenFailed(ErrorKind::NotFound),
        pid_file,
        signal: Some(gone()),
        workspace: MISSING,
    };
    assert_eq!(
        judged(
            make_base(MD5_A, Some("/tmp/vanished"), 72.0),
            probe,
            Params::default()
        )
        .verdict,
        Verdict::Orphaned
    );
}

#[test]
fn ambiguous_locks_read_as_held() {
    assert!(!lock_held(LockProbe::OpenFailed(ErrorKind::NotFound)));
    assert!(lock_held(LockProbe::OpenFailed(ErrorKind::PermissionDenied)));
    assert!(lock_held(LockProbe::OpenFailed(ErrorKind::Other)));
    assert!(lock_held(LockProbe::OpenFailed(ErrorKind::NotADirectory)));
    assert!(!lock_held(LockProbe::Flock(0)));
    assert!(lock_held(LockProbe::Flock(-1)));
    assert_eq!(lock_path(b"/b"), b"/b/lock".to_vec());
}

#[test]
fn ambiguous_pid_files_read_as_in_use() {
    let free = LockProbe::Flock(0);
    assert!(!in_use(free, &PidFile::ReadFailed(ErrorKind::NotFound), None));
    assert!(in_use(free, &PidFile::ReadFailed(ErrorKind::Other), None));
    // Below a `server` that is no directory there is no pid file.
    assert!(!in_use(
        free,
        &PidFile::ReadFailed(ErrorKind::NotADirectory),
        None
    ));
    assert!(in_use(
        free,
        &PidFile::ReadFailed(ErrorKind::PermissionDenied),
        None
    ));
    assert!(in_use(free, &PidFile::Text("not a pid".to_string()), None));
    assert!(in_use(free, &PidFile::Text("".to_string()), None));
    // A pid that was not probed is not known to be gone.
    assert!(in_use(free, &PidFile::Text("17".to_string()), None));
    assert!(!in_use(free, &PidFile::Text("17".to_string()), Some(gone())));
    assert!(!in_use(free, &PidFile::Text("0".to_string()), None));
    assert_eq!(pid_path(b"/b"), b"/b/server/server.pid.txt".to_vec());
}

#[test]
fn processes_are_alive_unless_missing() {
    assert!(pid_alive(17, Some(SignalProbe { rc: 0, errno: 0 })));
    assert!(pid_alive(17, Some(SignalProbe { rc: -1, errno: 1 })));
    assert!(pid_alive(17, Some(SignalProbe { rc: -1, errno: 22 })));
    assert!(!pid_alive(17, Some(SignalProbe { rc: -1, errno: libc::ESRCH })));
    assert!(!pid_alive(17, Some(gone())));
    assert!(!pid_alive(0, Some(SignalProbe { rc: 0, errno: 0 })));
    assert!(!pid_alive(-1, Some(SignalProbe { rc: 0, errno: 0 })));
    let file = PidFile::Text(" 17\n".to_string());
    assert_eq!(
        server_pid(&file, Some(SignalProbe { rc: 0, errno: 0 })),
        Some(17)
    );
    assert_eq!(server_pid(&file, Some(gone())), None);
}

#[test]
fn pids_parse_like_integers() {
    for raw in [
        "1", "+1", "-1", "0", "007", "2147483647", "2147483648", "-2147483648", "-2147483649",
        "", "+", "-", "1 2", "1a", "0x10", "+-1", "\u{0661}", "00000000000000000000001", " 5\t",
        "99999999999999999999",
    ] {
        let expected: Option<i32> = raw.trim().parse().ok();
        let file = PidFile::Text(raw.to_string());
        assert_eq!(recorded_pid(&file), expected, "{raw:?}");
        assert_eq!(pid_to_signal(&file), expected.filter(|pid| *pid > 0));
    }
    assert_eq!(recorded_pid(&PidFile::ReadFailed(ErrorKind::NotFound)), None);
}

#[test]
fn verdicts_have_labels() {
    assert_eq!(Verdict::InUse.value(), "in-use");
    assert_eq!(Verdict::Orphaned.value(), "orphaned");
    assert_eq!(Verdict::Idle.value(), "idle");
    assert_eq!(Verdict::Fresh.value(), "fresh");
    assert!(!Verdict::InUse.sweep());
    assert!(Verdict::Orphaned.sweep());
    assert!(Verdict::Idle.sweep());
    assert!(!Verdict::Fresh.sweep());
}

#[test]
fn odd_cutoffs_keep_their_meaning() {
    let at = |cutoff| {
        let p = Params {
            max_age_hours: cutoff,
            ..Params::default()
        };
        judged(make_base(MD5_A, Some("/w"), 1.0), unlocked(true), p)
    };
    assert_eq!(at(Hours::PosInfinity).verdict, Verdict::Fresh);
    assert_eq!(at(Hours::NotANumber).verdict, Verdict::Fresh);
    let j = at(Hours::NegInfinity);
    assert_eq!(j.verdict, Verdict::Idle);
    assert_eq!(j.reason, "unused for 1.0h (cutoff -infh)");

    let grace = |h| {
        let p = Params {
            orphan_grace_hours: h,
            ..Params::default()
        };
        judged(make_base(MD5_A, Some("/w"), 1.0), unlocked(false), p)
    };
    assert_eq!(grace(Hours::NotANumber).verdict, Verdict::Orphaned);
    assert_eq!(grace(Hours::NegInfinity).verdict, Verdict::Orphaned);
    let j = grace(Hours::PosInfinity);
    assert_eq!(j.verdict, Verdict::Fresh);
    assert!(j.reason.ends_with("inside the infh grace period"));
}

#[test]
fn ages_render_with_one_digit() {
    let reason = |secs: i64, nsecs: i64| {
        let base = OutputBase {
            path: b"/b".to_vec(),
            workspace: None,
            last_used: Timestamp { secs: 0, nsecs: 0 },
        };
        let p = Params {
            max_age_hours: Hours::PosInfinity,
            ..Params::default()
        };
        judge(base, &unlocked(true), Timestamp { secs, nsecs }, p).reason
    };
    assert_eq!(reason(0, 0), "used 0.0h ago");
    assert_eq!(reason(900, 0), "used 0.2h ago");
    assert_eq!(reason(2700, 0), "used 0.8h ago");
    assert_eq!(reason(900, 1), "used 0.3h ago");
    assert_eq!(reason(-1, 0), "used -0.0h ago");
    assert_eq!(reason(-7200, 0), "used -2.0h ago");
    let mut secs: i64 = 1;
    while secs < 40_000_000_000 {
        let age = secs as f64 / 3600.0;
        assert_eq!(reason(secs, 0), format!("used {age:.1}h ago"));
        assert_eq!(reason(-secs, 0), format!("used {:.1}h ago", -age));
        secs = secs * 3 + 1;
    }
}

#[test]
fn ages_on_a_tie_go_to_the_even_digit() {
    let reason = |secs: i64| {
        let base = OutputBase {
            path: b"/b".to_vec(),
            workspace: None,
            last_used: Timestamp { secs: 0, nsecs: 0 },
        };
        judge(
            base,
            &unlocked(true),
            Timestamp { secs, nsecs: 0 },
            Params::default(),
        )
        .reason
    };
    // Exactly 0.05 and 0.15 hours, which no floating-point number is.
    assert_eq!(reason(180), "used 0.0h ago");
    assert_eq!(reason(540), "used 0.2h ago");
    assert_eq!(reason(179), "used 0.0h ago");
    assert_eq!(reason(181), "used 0.1h ago");
    assert_eq!(reason(539), "used 0.1h ago");
    assert_eq!(reason(541), "used 0.2h ago");
}

#[test]
fn cutoffs_of_any_size_are_compared_exactly() {
    let at = |digits: i64, exponent: i16| {
        let p = Params {
            max_age_hours: Hours::Finite(digits, exponent),
            ..Params::default()
        };
        judged(make_base(MD5_A, Some("/w"), 1.0), unlocked(true), p).verdict
    };
    assert_eq!(at(1, 0), Verdict::Idle);
    assert_eq!(at(10, -1), Verdict::Idle);
    assert_eq!(at(1_000_000_000_000_000_000, -18), Verdict::Idle);
    assert_eq!(at(1_000_000_000_000_000_001, -18), Verdict::Fresh);
    assert_eq!(at(1, 300), Verdict::Fresh);
    assert_eq!(at(-1, 300), Verdict::Idle);
    assert_eq!(at(1, -300), Verdict::Idle);
    assert_eq!(at(0, 300), Verdict::Idle);
    assert_eq!(at(i64::MAX, i16::MAX), Verdict::Fresh);
    assert_eq!(at(i64::MIN, i16::MAX), Verdict::Idle);
    assert_eq!(at(i64::MAX, i16::MIN), Verdict::Idle);
    assert_eq!(at(1, 1), Verdict::Fresh);
}

#[test]
fn age_spans_the_whole_clock() {
    let base = OutputBase {
        path: Vec::new(),
        workspace: None,
        last_used: Timestamp {
            secs: i64::MIN,
            nsecs: i64::MIN,
        },
    };
    let end = Timestamp {
        secs: i64::MAX,
        nsecs: i64::MAX,
    };
    let j = judge(base, &unlocked(true), end, Params::default());
    assert_eq!(j.verdict, Verdict::Idle);
}
