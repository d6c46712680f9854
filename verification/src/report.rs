//! What a scan and a sweep print.

use crate::cas::CasEntry;
use crate::order;
use crate::paths;
use crate::policy::{Judgement, Verdict};
use crate::reaper;
use crate::reaper::Removal;
use crate::text;
use crate::util;
use crate::util::{Hours, Timestamp};
use vstd::prelude::*;
use vstd::string::*;

verus! {

/// The name of a judged base.
pub open spec fn base_name(j: Judgement) -> Seq<char> {
    paths::final_name_text(j.base@.path)
}

/// How many of the judgements give the verdict.
pub open spec fn tally(js: Seq<Judgement>, verdict: Verdict) -> nat
    decreases js.len(),
{
    if js.len() == 0 {
        0
    } else {
        tally(js.drop_last(), verdict) + if js.last().verdict == verdict {
            1nat
        } else {
            0
        }
    }
}

/// How many of the judgements condemn their base.
pub open spec fn condemned(js: Seq<Judgement>) -> nat {
    tally(js, Verdict::Idle) + tally(js, Verdict::Orphaned)
}

/// The line of a scan about one base.
pub open spec fn scan_line(j: Judgement) -> Seq<char> {
    text::right_aligned(j.verdict.label(), 8) + "  "@ + base_name(j) + "  "@ + j.reason@ + "\n"@
}

/// The lines of a scan about the first `n` bases of an order: the condemned ones, or all.
pub open spec fn scan_lines(js: Seq<Judgement>, order: Seq<int>, all: bool, n: int) -> Seq<char>
    decreases n,
{
    if n <= 0 {
        seq![]
    } else {
        let before = scan_lines(js, order, all, n - 1);
        let j = js[order[n - 1]];
        if all || j.verdict.condemns() {
            before + scan_line(j)
        } else {
            before
        }
    }
}

/// The line of a scan that counts a verdict, where there is something to count.
pub open spec fn count_line(js: Seq<Judgement>, verdict: Verdict) -> Seq<char> {
    if tally(js, verdict) == 0 {
        seq![]
    } else {
        "  "@ + text::right_aligned(verdict.label(), 8) + "  "@ + text::decimal(tally(js, verdict))
            + "\n"@
    }
}

/// When the judged bases were last used.
pub open spec fn last_uses(js: Seq<Judgement>) -> Seq<Timestamp> {
    js.map_values(|j: Judgement| j.base.last_used)
}

/// What a scan prints: the bases from the longest unused on, then how many there are of each
/// verdict, by label, and how many a sweep would take.
pub open spec fn scan_text(root: Seq<char>, js: Seq<Judgement>, all: bool) -> Seq<char> {
    if js.len() == 0 {
        "no output bases under "@ + root + "\n"@
    } else {
        scan_lines(js, order::order_of(last_uses(js)), all, js.len() as int) + "\n"@ + text::decimal(
            js.len(),
        ) + " output bases under "@ + root + "\n"@ + count_line(js, Verdict::Fresh) + count_line(
            js,
            Verdict::Idle,
        ) + count_line(js, Verdict::InUse) + count_line(js, Verdict::Orphaned) + "\n"@
            + text::decimal(condemned(js))
            + " would be swept; run `roomba sweep --apply` to do it.\n"@
    }
}

fn count(js: &Vec<Judgement>, verdict: Verdict) -> (r: usize)
    ensures
        r == tally(js@, verdict),
        r <= js@.len(),
{
    let mut n: usize = 0;
    let mut i: usize = 0;
    assert(js@.take(0) =~= seq![]);
    while i < js.len()
        invariant
            i <= js@.len(),
            n == tally(js@.take(i as int), verdict),
            n <= i,
        decreases js@.len() - i,
    {
        assert(js@.take(i + 1).drop_last() =~= js@.take(i as int));
        if js[i].verdict == verdict {
            n = n + 1;
        }
        i = i + 1;
    }
    assert(js@.take(i as int) =~= js@);
    n
}

/// How many of the judgements condemn their base.
pub fn doomed_count(js: &Vec<Judgement>) -> (r: usize)
    ensures
        r == condemned(js@),
        r <= js@.len(),
{
    let mut n: usize = 0;
    let mut i: usize = 0;
    assert(js@.take(0) =~= seq![]);
    while i < js.len()
        invariant
            i <= js@.len(),
            n == condemned(js@.take(i as int)),
            n <= i,
        decreases js@.len() - i,
    {
        assert(js@.take(i + 1).drop_last() =~= js@.take(i as int));
        if js[i].sweep() {
            n = n + 1;
        }
        i = i + 1;
    }
    assert(js@.take(i as int) =~= js@);
    n
}

fn append_count(out: &mut String, js: &Vec<Judgement>, verdict: Verdict)
    ensures
        final(out)@ == old(out)@ + count_line(js@, verdict),
{
    let n: usize = count(js, verdict);
    if n > 0 {
        out.append("  ");
        out.append(text::right_align(verdict.value(), 8).as_str());
        out.append("  ");
        out.append(text::decimal_text(n as u128).as_str());
        out.append("\n");
    }
    assert(out@ =~= old(out)@ + count_line(js@, verdict));
}

/// What a scan of the bases under `root` prints; with `all`, the retained bases too.
pub fn scan_report(root: &str, js: &Vec<Judgement>, all: bool) -> (r: String)
    ensures
        r@ == scan_text(root@, js@, all),
{
    if js.len() == 0 {
        let mut r = "no output bases under ".to_owned();
        r.append(root);
        r.append("\n");
        return r;
    }
    let mut keys: Vec<Timestamp> = Vec::new();
    let mut i: usize = 0;
    while i < js.len()
        invariant
            i <= js@.len(),
            keys@ =~= last_uses(js@.take(i as int)),
        decreases js@.len() - i,
    {
        keys.push(js[i].base.last_used);
        i = i + 1;
    }
    assert(js@.take(i as int) =~= js@);
    let sorted = order::sorted_order(&keys);
    let ghost order = order::order_of(last_uses(js@));
    let mut r = String::new();
    let mut n: usize = 0;
    while n < sorted.len()
        invariant
            n <= sorted@.len(),
            sorted@.len() == js@.len(),
            keys@ == last_uses(js@),
            order == order::indices(sorted@),
            order::stable_order(keys@, order),
            r@ == scan_lines(js@, order, all, n as int),
        decreases sorted@.len() - n,
    {
        assert(order[n as int] == sorted@[n as int]);
        let j: &Judgement = &js[sorted[n]];
        if all || j.sweep() {
            let ghost before = r@;
            r.append(text::right_align(j.verdict.value(), 8).as_str());
            r.append("  ");
            r.append(j.base.name().as_str());
            r.append("  ");
            r.append(j.reason.as_str());
            r.append("\n");
            assert(r@ =~= before + scan_line(*j));
        }
        n = n + 1;
    }
    r.append("\n");
    r.append(text::decimal_text(js.len() as u128).as_str());
    r.append(" output bases under ");
    r.append(root);
    r.append("\n");
    append_count(&mut r, js, Verdict::Fresh);
    append_count(&mut r, js, Verdict::Idle);
    append_count(&mut r, js, Verdict::InUse);
    append_count(&mut r, js, Verdict::Orphaned);
    r.append("\n");
    r.append(text::decimal_text(doomed_count(js) as u128).as_str());
    r.append(" would be swept; run `roomba sweep --apply` to do it.\n");
    r
}

/// The verdicts of a scan add up to its bases, and what a sweep would take is what the
/// verdicts condemn.
pub proof fn law_counts_add_up(js: Seq<Judgement>)
    ensures
        tally(js, Verdict::Fresh) + tally(js, Verdict::Idle) + tally(js, Verdict::InUse) + tally(
            js,
            Verdict::Orphaned,
        ) == js.len(),
        condemned(js) == js.filter(|j: Judgement| j.verdict.condemns()).len(),
    decreases js.len(),
{
    reveal(Seq::filter);
    if js.len() > 0 {
        law_counts_add_up(js.drop_last());
    }
}

/// Something to print.
#[derive(Debug)]
pub struct Line {
    /// Whether it goes to the error output.
    pub is_error: bool,
    pub text: String,
}

/// The end of a line about a base: why it goes.
pub open spec fn why(j: Judgement) -> Seq<char> {
    "  ("@ + j.verdict.label() + ": "@ + j.reason@ + ")"@
}

/// The line about a base that was swept, or that would be.
pub open spec fn swept_line(dry: bool, j: Judgement, freed: u64) -> Seq<char> {
    "  "@ + (if dry {
        "would sweep"@
    } else {
        "swept"@
    }) + " "@ + base_name(j) + (if dry {
        seq![]
    } else {
        "  "@ + reaper::human_text(freed as int)
    }) + why(j) + "\n"@
}

/// The line about a base that could not be swept.
pub open spec fn failed_line(j: Judgement, error: Seq<char>) -> Seq<char> {
    "  FAILED "@ + base_name(j) + ": "@ + error + "\n"@
}

/// What a sweep prints before it takes so many condemned bases out of a total.
pub open spec fn bases_text(total: nat, doomed: nat) -> Seq<char> {
    "output bases: "@ + text::decimal(total) + " total, "@ + text::decimal((total - doomed) as nat)
        + " retained, "@ + text::decimal(doomed) + " to sweep\n"@
}

/// How many entries are hardlinked elsewhere.
pub open spec fn shared_among(entries: Seq<CasEntry>) -> nat
    decreases entries.len(),
{
    if entries.len() == 0 {
        0
    } else {
        shared_among(entries.drop_last()) + if entries.last().nlink > 1 {
            1nat
        } else {
            0
        }
    }
}

/// What a sweep prints about the repository cache: how many entries it took, how many of them
/// were hardlinked elsewhere, and what they gave back.
pub open spec fn cache_text(
    dry: bool,
    entries: nat,
    shared: nat,
    freed: nat,
    max_age_hours: Hours,
) -> Seq<char> {
    "\nrepository cache: "@ + text::decimal(entries) + " entries unread in "@ + util::hours_text(
        max_age_hours,
    ) + "h\n"@ + (if shared > 0 {
        "  "@ + text::decimal(shared)
            + " still hardlinked into an output base; those free nothing yet -- sweep bases first\n"@
    } else {
        seq![]
    }) + (if dry {
        seq![]
    } else {
        "  freed "@ + reaper::human_text(freed as int) + "\n"@
    })
}

/// What a sweep prints at its end.
pub open spec fn closing_text(dry: bool, freed: nat) -> Seq<char> {
    if dry {
        "\ndry run -- nothing was deleted, and nothing was measured. re-run with --apply.\n"@
    } else {
        "\nfreed "@ + reaper::human_text(freed as int) + " total\n"@
    }
}

/// A dry run says nothing about bytes: no text of it depends on a count of them.
pub proof fn law_dry_run_says_nothing_of_bytes(
    j: Judgement,
    freed: u64,
    other: u64,
    entries: nat,
    shared: nat,
    max_age_hours: Hours,
)
    ensures
        swept_line(true, j, freed) == swept_line(true, j, other),
        cache_text(true, entries, shared, freed as nat, max_age_hours) == cache_text(
            true,
            entries,
            shared,
            other as nat,
            max_age_hours,
        ),
        closing_text(true, freed as nat) == closing_text(true, other as nat),
{
}

/// A dry run gives the reason that an applied sweep acts on: both lines end in the judgement's
/// own.
pub proof fn law_dry_run_gives_the_reason_acted_on(dry: bool, j: Judgement, freed: u64)
    ensures
        (why(j) + "\n"@).is_suffix_of(swept_line(dry, j, freed)),
{
    let line = swept_line(dry, j, freed);
    let end = why(j) + "\n"@;
    assert(line.subrange(line.len() - end.len(), line.len() as int) =~= end);
}

/// What a sweep prints before it takes so many condemned bases out of a total.
pub fn bases_report(total: usize, doomed: usize) -> (r: String)
    requires
        doomed <= total,
    ensures
        r@ == bases_text(total as nat, doomed as nat),
{
    let mut r = "output bases: ".to_owned();
    r.append(text::decimal_text(total as u128).as_str());
    r.append(" total, ");
    r.append(text::decimal_text((total - doomed) as u128).as_str());
    r.append(" retained, ");
    r.append(text::decimal_text(doomed as u128).as_str());
    r.append(" to sweep\n");
    r
}

/// What a sweep prints about a condemned base once it was dealt with.
pub fn base_report(dry: bool, j: &Judgement, r: &Removal) -> (line: Line)
    ensures
        match r.error {
            None => !line.is_error && line.text@ == swept_line(dry, *j, r.freed),
            Some(error) => line.is_error && line.text@ == failed_line(*j, error@),
        },
{
    let name = j.base.name();
    match &r.error {
        None => {
            let mut line = "  ".to_owned();
            if dry {
                line.append("would sweep");
            } else {
                line.append("swept");
            }
            line.append(" ");
            line.append(name.as_str());
            if !dry {
                line.append("  ");
                line.append(reaper::human(r.freed as i128).as_str());
            }
            line.append("  (");
            line.append(j.verdict.value());
            line.append(": ");
            line.append(j.reason.as_str());
            line.append(")");
            line.append("\n");
            assert(line@ =~= swept_line(dry, *j, r.freed));
            Line { is_error: false, text: line }
        },
        Some(error) => {
            let mut line = "  FAILED ".to_owned();
            line.append(name.as_str());
            line.append(": ");
            line.append(error.as_str());
            line.append("\n");
            Line { is_error: true, text: line }
        },
    }
}

/// How many entries are hardlinked elsewhere.
pub fn shared_count(entries: &Vec<CasEntry>) -> (r: usize)
    ensures
        r == shared_among(entries@),
{
    let mut shared: usize = 0;
    let mut i: usize = 0;
    assert(entries@.take(0) =~= seq![]);
    while i < entries.len()
        invariant
            i <= entries@.len(),
            shared == shared_among(entries@.take(i as int)),
            shared <= i,
        decreases entries@.len() - i,
    {
        assert(entries@.take(i + 1).drop_last() =~= entries@.take(i as int));
        if entries[i].shared() {
            shared = shared + 1;
        }
        i = i + 1;
    }
    assert(entries@.take(i as int) =~= entries@);
    shared
}

/// What a sweep prints about the repository cache.
///
/// Entries bazel still has hardlinked into an output base free nothing until that base goes
/// too, so say so rather than let the bytes look mysteriously short of the entry count.
pub fn cache_report(
    dry: bool,
    entries: usize,
    shared: usize,
    freed: u64,
    max_age_hours: Hours,
) -> (r: String)
    ensures
        r@ == cache_text(dry, entries as nat, shared as nat, freed as nat, max_age_hours),
{
    let mut r = "\nrepository cache: ".to_owned();
    r.append(text::decimal_text(entries as u128).as_str());
    r.append(" entries unread in ");
    r.append(util::fmt_g(max_age_hours).as_str());
    r.append("h\n");
    if shared > 0 {
        r.append("  ");
        r.append(text::decimal_text(shared as u128).as_str());
        r.append(
            " still hardlinked into an output base; those free nothing yet -- sweep bases first\n",
        );
    }
    if !dry {
        r.append("  freed ");
        r.append(reaper::human(freed as i128).as_str());
        r.append("\n");
    }
    assert(r@ =~= cache_text(dry, entries as nat, shared as nat, freed as nat, max_age_hours));
    r
}

/// What a sweep prints at its end.
pub fn closing_report(dry: bool, freed: u64) -> (r: String)
    ensures
        r@ == closing_text(dry, freed as nat),
{
    if dry {
        "\ndry run -- nothing was deleted, and nothing was measured. re-run with --apply.\n".to_owned()
    } else {
        let mut r = "\nfreed ".to_owned();
        r.append(reaper::human(freed as i128).as_str());
        r.append(" total\n");
        r
    }
}

} // verus!
