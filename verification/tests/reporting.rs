//! What is printed: sizes, hours, scans and sweeps.

use roomba::cas::CasEntry;
use roomba::disk::ErrorKind;
use roomba::layout::{OutputBase, WorkspaceProbe};
use roomba::liveness::{LockProbe, PidFile};
use roomba::policy::{judge_all, Judgement, Params, Probe, Verdict};
use roomba::reaper::{human, Removal};
use roomba::report::{
    base_report, bases_report, cache_report, closing_report, doomed_count, scan_report,
    shared_count,
};
use roomba::sweep::{SweepAction, SweepOptions, SweepReply, SweepRun};
use roomba::text::{decimal_text, parse_i32, right_align, trim};
use roomba::util::{fmt_g, Hours, Timestamp};

fn judgement(name: &str, secs: i64, verdict: Verdict, reason: &str) -> Judgement {
    Judgement {
        base: OutputBase {
            path: format!("/r/{name}").into_bytes(),
            workspace: None,
            last_used: Timestamp { secs, nsecs: 0 },
        },
        verdict,
        reason: reason.to_string(),
    }
}

fn removal(freed: u64, error: Option<&str>) -> Removal {
    Removal {
        path: b"/r/a".to_vec(),
        freed,
        error: error.map(|e| e.to_string()),
    }
}

fn entry(nlink: u64) -> CasEntry {
    CasEntry {
        path: b"/c/f".to_vec(),
        atime: Timestamp { secs: 0, nsecs: 0 },
        size: 1,
        nlink,
    }
}

#[test]
fn human_renders_like_df() {
    assert_eq!(human(512), "512B");
    assert_eq!(human(1536), "1.5K");
    assert_eq!(human(5 * 1024i128.pow(3)), "5.0G");
}

#[test]
fn human_steps_at_1024_and_stops_at_t() {
    assert_eq!(human(0), "0B");
    assert_eq!(human(1023), "1023B");
    assert_eq!(human(1024), "1.0K");
    assert_eq!(human(-1536), "-1.5K");
    assert_eq!(human(-1), "-1B");
    assert_eq!(human(1024i128.pow(5)), "1024.0T");
    assert_eq!(human(i128::MIN), "-154742504910672534362390528.0T");
}

#[test]
fn human_agrees_with_floating_point() {
    fn by_float(mut size: f64) -> String {
        for unit in ["B", "K", "M", "G", "T"] {
            if size.abs() < 1024.0 || unit == "T" {
                return if unit == "B" {
                    format!("{size:.0}{unit}")
                } else {
                    format!("{size:.1}{unit}")
                };
            }
            size /= 1024.0;
        }
        format!("{size:.1}T")
    }
    for exact in [
        0, 1, 1023, 1024, 1075, 1076, 1126, 1127, 1280, 1792, 1048524, 1048525, 1048575, 1048576,
        1310720, 1073741823, 1073741824, 1099511627775, 1099511627776, u64::MAX as i128,
    ] {
        assert_eq!(human(exact), by_float(exact as f64));
    }
    let mut size: i128 = 1;
    while size < 1 << 52 {
        assert_eq!(human(size), by_float(size as f64));
        assert_eq!(human(-size), by_float(-size as f64));
        size = size * 5 / 4 + 1;
    }
}

/// The digits and the exponent of a floating-point number.
fn decimal(x: f64) -> Hours {
    let shown = format!("{x:e}");
    let (mantissa, exponent) = shown.split_once('e').unwrap();
    let places = mantissa.split_once('.').map_or(0, |(_, d)| d.len());
    let digits: i64 = mantissa.replace('.', "").parse().unwrap();
    let exponent: i16 = exponent.parse().unwrap();
    Hours::Finite(digits, exponent - places as i16)
}

#[test]
fn hours_render_without_trailing_zeros() {
    assert_eq!(fmt_g(Hours::whole(48)), "48");
    assert_eq!(fmt_g(Hours::whole(1)), "1");
    assert_eq!(fmt_g(Hours::Finite(0, 0)), "0");
    assert_eq!(fmt_g(Hours::Finite(0, 7)), "0");
    assert_eq!(fmt_g(Hours::Finite(0, -7)), "0");
    assert_eq!(fmt_g(Hours::Finite(479, -1)), "47.9");
    assert_eq!(fmt_g(Hours::Finite(47_900, -3)), "47.9");
    assert_eq!(fmt_g(Hours::Finite(5, -1)), "0.5");
    assert_eq!(fmt_g(Hours::Finite(-5, -1)), "-0.5");
    assert_eq!(fmt_g(Hours::Finite(1_000_000_001, -9)), "1.000000001");
    assert_eq!(fmt_g(Hours::Finite(5, -2)), "0.05");
    assert_eq!(fmt_g(Hours::Finite(-3, 0)), "-3");
    assert_eq!(fmt_g(Hours::Finite(300, -2)), "3");
    assert_eq!(fmt_g(Hours::Finite(1, 10)), "10000000000");
    assert_eq!(fmt_g(Hours::Finite(i64::MIN, -9)), "-9223372036.854775808");
    assert_eq!(fmt_g(Hours::PosInfinity), format!("{}", f64::INFINITY));
    assert_eq!(fmt_g(Hours::NegInfinity), format!("{}", f64::NEG_INFINITY));
    assert_eq!(fmt_g(Hours::NotANumber), format!("{}", f64::NAN));
    assert_eq!(fmt_g(Hours::Finite(7, i16::MIN)).len(), 32770);
    assert_eq!(fmt_g(Hours::Finite(7, i16::MAX)).len(), 32768);
}

#[test]
fn hours_of_any_magnitude_read_back() {
    for x in [
        0.0, -0.0, 0.5, 47.9, 48.0, 1.0 / 3.0, 1e10, 1e15, 1e16, 1.5e16, -2.5e-7, 1e300, f64::MAX,
        f64::MIN, f64::MIN_POSITIVE, 5e-324, 123456.789, -1e15, 999999999999999.9,
    ] {
        let shown = fmt_g(decimal(x));
        assert_eq!(shown.parse::<f64>(), Ok(x));
        assert_eq!(shown.contains('.'), x != x.trunc());
        if x != 0.0 {
            assert_eq!(shown, format!("{x}"));
        }
    }
}

#[test]
fn texts_are_trimmed_and_aligned() {
    assert_eq!(trim(" \u{2003}a b\u{85}\n"), "a b");
    assert_eq!(trim("\u{200b}x"), "\u{200b}x");
    assert_eq!(right_align("idle", 8), "    idle");
    assert_eq!(right_align("orphaned", 8), "orphaned");
    assert_eq!(right_align("overlong label", 8), "overlong label");
    assert_eq!(
        decimal_text(u128::MAX),
        "340282366920938463463374607431768211455"
    );
    assert_eq!(parse_i32("-12"), Some(-12));
    let mut c: u32 = 0;
    while c < 0x11000 {
        if let Some(c) = char::from_u32(c) {
            let text = format!("{c}.{c}");
            assert_eq!(trim(&text), text.trim());
        }
        c += 1;
    }
}

#[test]
fn scan_of_nothing_says_so() {
    assert_eq!(
        scan_report("/r", &Vec::new(), true),
        "no output bases under /r\n"
    );
}

#[test]
fn scan_lists_the_longest_unused_first() {
    let js = vec![
        judgement("a", 30, Verdict::Fresh, "used 1.0h ago"),
        judgement("b", 10, Verdict::Idle, "unused for 72.0h (cutoff 48h)"),
        judgement("c", 20, Verdict::InUse, "bazel server is running here"),
        judgement("d", 10, Verdict::Orphaned, "workspace /w no longer exists"),
        judgement("e", 5, Verdict::Fresh, "used 2.0h ago"),
    ];
    assert_eq!(doomed_count(&js), 2);
    let counts = "\n5 output bases under /r\n     fresh  2\n      idle  1\n    in-use  1\n  orphaned  1\n\n2 would be swept; run `roomba sweep --apply` to do it.\n";
    assert_eq!(
        scan_report("/r", &js, true),
        format!(
            "   fresh  e  used 2.0h ago\n    idle  b  unused for 72.0h (cutoff 48h)\norphaned  d  workspace /w no longer exists\n  in-use  c  bazel server is running here\n   fresh  a  used 1.0h ago\n{counts}"
        )
    );
    assert_eq!(
        scan_report("/r", &js, false),
        format!(
            "    idle  b  unused for 72.0h (cutoff 48h)\norphaned  d  workspace /w no longer exists\n{counts}"
        )
    );
}

#[test]
fn scan_counts_only_what_there_is() {
    let js = vec![judgement("a", 30, Verdict::InUse, "busy")];
    assert_eq!(
        scan_report("/r", &js, false),
        "\n1 output bases under /r\n    in-use  1\n\n0 would be swept; run `roomba sweep --apply` to do it.\n"
    );
}

fn options(apply: bool) -> SweepOptions {
    SweepOptions {
        apply,
        cas_only: false,
        bases_only: false,
        params: Params::default(),
    }
}

/// What a sweep came to that was told of these judgements and entries: what it did, what it
/// printed, what it printed as errors, and its exit code.
fn sweep(
    options: SweepOptions,
    js: Vec<Judgement>,
    stale: Vec<CasEntry>,
    removals: Vec<Removal>,
) -> (Vec<String>, String, String, i32) {
    let mut run = SweepRun::new(options);
    let (mut js, mut stale) = (Some(js), Some(stale));
    let mut removals = removals.into_iter();
    let (mut did, mut out, mut err) = (Vec::new(), String::new(), String::new());
    while let Some(action) = run.next() {
        let reply = match action {
            SweepAction::Judge(p) => {
                did.push(format!("judge {}", fmt_g(p.orphan_grace_hours)));
                SweepReply::Judged(js.take().unwrap())
            }
            SweepAction::RemoveTree(sweep) => {
                assert_eq!(sweep.next().is_none(), !options.apply);
                did.push("tree".to_string());
                SweepReply::Removed(removals.next().unwrap())
            }
            SweepAction::ScanCache(h) => {
                did.push(format!("scan {}", fmt_g(h)));
                SweepReply::Stale(stale.take().unwrap())
            }
            SweepAction::RemoveFile(sweep) => {
                assert_eq!(sweep.next().is_none(), !options.apply);
                did.push("file".to_string());
                SweepReply::Removed(removals.next().unwrap())
            }
            SweepAction::Print(line) => {
                if line.is_error {
                    err.push_str(&line.text);
                } else {
                    out.push_str(&line.text);
                }
                SweepReply::Printed
            }
        };
        assert!(run.has_room(&reply));
        run.feed(reply);
    }
    assert!(removals.next().is_none());
    (did, out, err, run.exit_code())
}

fn some_judgements() -> Vec<Judgement> {
    vec![
        judgement("a", 0, Verdict::Orphaned, "workspace /w no longer exists"),
        judgement("b", 0, Verdict::Fresh, "used 1.0h ago"),
        judgement("c", 0, Verdict::Idle, "unused for 72.0h (cutoff 48h)"),
        judgement("d", 0, Verdict::InUse, "bazel server is running here"),
    ]
}

#[test]
fn applied_sweep_adds_up() {
    let (did, out, err, code) = sweep(
        options(true),
        some_judgements(),
        vec![entry(1), entry(2)],
        vec![
            removal(1536, None),
            removal(512, Some("Directory not empty")),
            removal(1024, None),
            removal(0, Some("Permission denied")),
        ],
    );
    assert_eq!(did, vec!["judge 1", "tree", "tree", "scan 48", "file", "file"]);
    assert_eq!(
        out,
        "output bases: 4 total, 2 retained, 2 to sweep\n  swept a  1.5K  (orphaned: workspace /w no longer exists)\n\nrepository cache: 2 entries unread in 48h\n  1 still hardlinked into an output base; those free nothing yet -- sweep bases first\n  freed 1.0K\n\nfreed 3.0K total\n"
    );
    assert_eq!(err, "  FAILED c: Directory not empty\n");
    assert_eq!(code, 1);
}

#[test]
fn failed_entry_alone_fails_a_sweep() {
    let (_, out, err, code) = sweep(
        options(true),
        Vec::new(),
        vec![entry(1)],
        vec![removal(0, Some("Permission denied"))],
    );
    assert_eq!(
        out,
        "output bases: 0 total, 0 retained, 0 to sweep\n\nrepository cache: 1 entries unread in 48h\n  freed 0B\n\nfreed 0B total\n"
    );
    assert_eq!(err, "");
    assert_eq!(code, 1);
}

#[test]
fn dry_run_ends_well_and_mentions_no_bytes() {
    let (did, out, err, code) = sweep(
        options(false),
        some_judgements(),
        vec![entry(1)],
        vec![removal(0, None), removal(0, None), removal(0, None)],
    );
    assert_eq!(did, vec!["judge 1", "tree", "tree", "scan 48", "file"]);
    assert_eq!(
        out,
        "output bases: 4 total, 2 retained, 2 to sweep\n  would sweep a  (orphaned: workspace /w no longer exists)\n  would sweep c  (idle: unused for 72.0h (cutoff 48h))\n\nrepository cache: 1 entries unread in 48h\n\ndry run -- nothing was deleted, and nothing was measured. re-run with --apply.\n"
    );
    assert_eq!(err, "");
    assert_eq!(code, 0);
}

#[test]
fn base_in_use_is_never_swept() {
    // Two ancient orphans, one of them with a held lock.
    let base = |name: &str| OutputBase {
        path: format!("/r/{name}").into_bytes(),
        workspace: Some("/w".to_string()),
        last_used: Timestamp { secs: 0, nsecs: 0 },
    };
    let probe = |flock: i32| Probe {
        lock: LockProbe::Flock(flock),
        pid_file: PidFile::ReadFailed(ErrorKind::NotFound),
        signal: None,
        workspace: WorkspaceProbe::StatFailed(ErrorKind::NotFound),
    };
    let bases = vec![(base("live"), probe(-1)), (base("dead"), probe(0))];
    let now = Timestamp {
        secs: 3_600_000,
        nsecs: 0,
    };
    let mut only = options(true);
    only.bases_only = true;
    let js = judge_all(bases, now, only.params);
    let (did, out, _, _) = sweep(only, js, Vec::new(), vec![removal(0, None)]);
    assert_eq!(did, vec!["judge 1", "tree"]);
    assert!(out.contains("swept dead"));
    assert!(!out.contains("live"));
}

#[test]
fn phases_can_be_skipped() {
    let mut only = options(true);
    only.cas_only = true;
    let (did, out, _, code) = sweep(only, Vec::new(), Vec::new(), Vec::new());
    assert_eq!(did, vec!["scan 48"]);
    assert_eq!(
        out,
        "\nrepository cache: 0 entries unread in 48h\n  freed 0B\n\nfreed 0B total\n"
    );
    assert_eq!(code, 0);

    let mut only = options(true);
    only.bases_only = true;
    let (did, out, _, _) = sweep(only, some_judgements(), Vec::new(), vec![
        removal(1, None),
        removal(2, None),
    ]);
    assert_eq!(did, vec!["judge 1", "tree", "tree"]);
    assert!(out.ends_with("\nfreed 3B total\n"));

    only.cas_only = true;
    let (did, out, _, _) = sweep(only, Vec::new(), Vec::new(), Vec::new());
    assert!(did.is_empty());
    assert_eq!(out, "\nfreed 0B total\n");
}

#[test]
fn sweep_removes_the_path_it_judged() {
    let mut run = SweepRun::new(options(true));
    run.feed(SweepReply::Judged(some_judgements()));
    run.feed(SweepReply::Printed);
    match run.next() {
        Some(SweepAction::RemoveTree(sweep)) => match sweep.next() {
            Some(roomba::disk::Request::List(p)) => assert_eq!(p, b"/r/a".to_vec()),
            _ => panic!(),
        },
        _ => panic!(),
    }
}

#[test]
fn reports_render_one_by_one() {
    assert_eq!(
        bases_report(3, 1),
        "output bases: 3 total, 2 retained, 1 to sweep\n"
    );
    let j = judgement("a", 0, Verdict::Idle, "why");
    assert_eq!(
        base_report(false, &j, &removal(2048, None)).text,
        "  swept a  2.0K  (idle: why)\n"
    );
    assert!(base_report(true, &j, &removal(0, Some("no"))).is_error);
    assert_eq!(shared_count(&vec![entry(1), entry(2), entry(3)]), 2);
    assert_eq!(
        cache_report(true, 1, 0, 7, Hours::Finite(5, -1)),
        "\nrepository cache: 1 entries unread in 0.5h\n"
    );
    assert_eq!(closing_report(false, 1023), "\nfreed 1023B total\n");
}

#[test]
fn totals_that_would_overflow_are_noticed() {
    let mut only = options(true);
    only.cas_only = true;
    let mut run = SweepRun::new(only);
    run.feed(SweepReply::Stale(vec![entry(1), entry(1)]));
    run.feed(SweepReply::Removed(removal(u64::MAX, None)));
    assert!(run.has_room(&SweepReply::Removed(removal(0, None))));
    assert!(!run.has_room(&SweepReply::Removed(removal(1, None))));
}
