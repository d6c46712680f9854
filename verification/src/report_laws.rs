//! What a scan and a sweep print, told by what can be read off it.

use crate::order;
use crate::paths;
use crate::policy::{Judgement, Verdict};
use crate::reaper;
use crate::report;
use crate::text;
use crate::text_laws;
use crate::util;
use crate::util::{Hours, Timestamp};
use vstd::prelude::*;

verus! {

/// A count of fewer than 1024 bytes is told in whole bytes, and a negative one as its opposite
/// behind a sign.
pub proof fn law_few_bytes_are_told_one_by_one(size: int)
    ensures
        0 <= size < 1024 ==> reaper::human_text(size) == text::decimal(size as nat).push('B'),
        size < 0 ==> reaper::human_text(size) == seq!['-'] + reaper::human_text(-size),
{
    reveal_strlit("B");
    reveal_strlit("-");
    if 0 <= size < 1024 {
        assert(reaper::human_text(size) =~= text::decimal(size as nat).push('B'));
    }
    assert("-"@ =~= seq!['-']);
}

/// The unit of a count of bytes, each 1024 times the one before, and its letter.
pub open spec fn unit_of(size: nat) -> (nat, char) {
    if size < 1024 * 1024 {
        (1024, 'K')
    } else if size < 1024 * 1024 * 1024 {
        (1024 * 1024, 'M')
    } else if size < 1024 * 1024 * 1024 * 1024 {
        (1024 * 1024 * 1024, 'G')
    } else {
        (1024 * 1024 * 1024 * 1024, 'T')
    }
}

/// A count of 1024 bytes or more is told in the largest of the units that it reaches: as the
/// number of tenths nearest to it, the even one of two that are equally near, and the unit's
/// letter.
pub proof fn law_bytes_are_told_to_the_nearest_tenth(size: nat) -> (tenths: nat)
    requires
        size >= 1024,
    ensures
        ({
            let told = reaper::human_text(size as int);
            let (unit, letter) = unit_of(size);
            &&& told.len() > 0 && told.last() == letter
            &&& text::numeral(told.drop_last()) == Some((tenths, Some(1nat)))
            &&& text_laws::no_leading_zero(told.drop_last())
            &&& -unit <= 2 * (10 * size - tenths * unit) <= unit
            &&& 2 * (10 * size - tenths * unit) == unit || 2 * (10 * size - tenths * unit)
                == -unit ==> tenths % 2 == 0
        }),
{
    reveal_strlit("K");
    reveal_strlit("M");
    reveal_strlit("G");
    reveal_strlit("T");
    let (unit, letter) = unit_of(size);
    let told = reaper::human_text(size as int);
    assert(told.drop_last() =~= text::one_decimal(size, unit));
    text_laws::law_one_decimal_is_nearest(size, unit)
}

/// A base goes by the last component of its path.
pub proof fn law_base_goes_by_the_end_of_its_path(j: Judgement)
    ensures
        report::base_name(j) == paths::final_name_text(j.base.path@),
{
}

/// Judgements are counted by the verdict that they give, each once.
pub proof fn law_judgements_are_counted_by_verdict(js: Seq<Judgement>, verdict: Verdict)
    ensures
        report::tally(js, verdict) == js.filter(|j: Judgement| j.verdict == verdict).len(),
        report::condemned(js) == js.filter(
            |j: Judgement| j.verdict == Verdict::Idle || j.verdict == Verdict::Orphaned,
        ).len(),
    decreases js.len(),
{
    reveal(Seq::filter);
    if js.len() > 0 {
        law_judgements_are_counted_by_verdict(js.drop_last(), verdict);
    }
}

/// The line of a scan about a base: the verdict in a column of eight, the name, the reason.
pub proof fn law_scan_line_has_verdict_name_and_reason(j: Judgement)
    ensures
        report::scan_line(j) == text::right_aligned(j.verdict.label(), 8) + "  "@
            + paths::final_name_text(j.base.path@) + "  "@ + j.reason@ + "\n"@,
{
}

/// The lines of a scan are those about the condemned bases, or about all of them if so asked, in
/// the given order.
pub proof fn law_scan_lists_the_condemned_or_all(
    js: Seq<Judgement>,
    order: Seq<int>,
    all: bool,
    n: nat,
)
    ensures
        report::scan_lines(js, order, all, n as int) == Seq::new(
            n,
            |i: int| js[order[i]],
        ).filter(
            |j: Judgement| all || j.verdict == Verdict::Idle || j.verdict == Verdict::Orphaned,
        ).map_values(|j: Judgement| report::scan_line(j)).flatten(),
    decreases n,
{
    reveal(Seq::filter);
    let shown = |j: Judgement|
        all || j.verdict == Verdict::Idle || j.verdict == Verdict::Orphaned;
    let line = |j: Judgement| report::scan_line(j);
    let bases = Seq::new(n, |i: int| js[order[i]]);
    let lines = bases.filter(shown).map_values(line);
    lines.lemma_flatten_and_flatten_alt_are_equivalent();
    if n > 0 {
        let before = Seq::new((n - 1) as nat, |i: int| js[order[i]]);
        let lines_before = before.filter(shown).map_values(line);
        law_scan_lists_the_condemned_or_all(js, order, all, (n - 1) as nat);
        lines_before.lemma_flatten_and_flatten_alt_are_equivalent();
        assert(bases.drop_last() =~= before);
        assert(bases.last() == js[order[n - 1]]);
        if shown(bases.last()) {
            assert(lines.drop_last() =~= lines_before);
            assert(lines.last() == report::scan_line(bases.last()));
        } else {
            assert(lines =~= lines_before);
        }
    } else {
        assert(lines =~= seq![]);
    }
}

/// The bases of a scan come from the longest unused on, those that were last used at one time in
/// the order given, and each comes once.
pub proof fn law_scan_goes_from_the_longest_unused(js: Seq<Judgement>)
    ensures
        ({
            let order = order::order_of(report::last_uses(js));
            &&& order.len() == js.len()
            &&& forall|i: int| 0 <= i < js.len() ==> 0 <= #[trigger] order[i] < js.len()
            &&& forall|i: int, j: int|
                0 <= i < j < js.len() ==> {
                    let a = js[#[trigger] order[i]].base.last_used;
                    let b = js[#[trigger] order[j]].base.last_used;
                    let from = a.secs * 1_000_000_000 + a.nsecs;
                    let to = b.secs * 1_000_000_000 + b.nsecs;
                    &&& order[i] != order[j]
                    &&& from <= to
                    &&& from == to ==> order[i] < order[j]
                }
        }),
{
    let keys = report::last_uses(js);
    let order = order::order_of(keys);
    order::law_order_sorts(keys);
    assert forall|i: int, j: int| 0 <= i < j < js.len() implies {
        let a = js[#[trigger] order[i]].base.last_used;
        let b = js[#[trigger] order[j]].base.last_used;
        let from = a.secs * 1_000_000_000 + a.nsecs;
        let to = b.secs * 1_000_000_000 + b.nsecs;
        &&& order[i] != order[j]
        &&& from <= to
        &&& from == to ==> order[i] < order[j]
    } by {
        let a: Timestamp = keys[order[i]];
        let b: Timestamp = keys[order[j]];
        let none: Vec<u8> = arbitrary();
        order::law_ranks_are_what_they_seem(none, none, a, b);
        order::law_ranks_are_what_they_seem(none, none, b, a);
        assert(a == js[order[i]].base.last_used);
        assert(b == js[order[j]].base.last_used);
    }
}

/// What a scan prints if there is no base: that there is none.
pub proof fn law_empty_scan_says_so(root: Seq<char>, all: bool)
    ensures
        report::scan_text(root, seq![], all) == "no output bases under "@ + root + "\n"@,
{
}

/// What a scan prints about bases: their lines, how many there are, how many there are of each
/// verdict, and how many would be swept.
pub proof fn law_scan_says_how_many(root: Seq<char>, js: Seq<Judgement>, all: bool)
    requires
        js.len() > 0,
    ensures
        report::scan_text(root, js, all) == report::scan_lines(
            js,
            order::order_of(report::last_uses(js)),
            all,
            js.len() as int,
        ) + "\n"@ + text::decimal(js.len()) + " output bases under "@ + root + "\n"@
            + report::count_line(js, Verdict::Fresh) + report::count_line(js, Verdict::Idle)
            + report::count_line(js, Verdict::InUse) + report::count_line(js, Verdict::Orphaned)
            + "\n"@ + text::decimal(
            js.filter(
                |j: Judgement| j.verdict == Verdict::Idle || j.verdict == Verdict::Orphaned,
            ).len(),
        ) + " would be swept; run `roomba sweep --apply` to do it.\n"@,
{
    law_judgements_are_counted_by_verdict(js, Verdict::Fresh);
}

/// A verdict that no judgement gives has no line of its own; any other has one that counts its
/// judgements.
pub proof fn law_verdict_is_counted_if_given(js: Seq<Judgement>, verdict: Verdict)
    ensures
        ({
            let n = js.filter(|j: Judgement| j.verdict == verdict).len();
            report::count_line(js, verdict) == if n == 0 {
                seq![]
            } else {
                "  "@ + text::right_aligned(verdict.label(), 8) + "  "@ + text::decimal(n) + "\n"@
            }
        }),
{
    law_judgements_are_counted_by_verdict(js, verdict);
}

/// A sweep that was applied says of a base that it was swept, and how many bytes that gave back;
/// a dry run says that it would be swept, and nothing of bytes. Both say why.
pub proof fn law_swept_base_is_told_with_its_reason(j: Judgement, freed: u64)
    ensures
        report::swept_line(true, j, freed) == "  "@ + "would sweep"@ + " "@
            + paths::final_name_text(j.base.path@) + "  ("@ + j.verdict.label() + ": "@ + j.reason@
            + ")"@ + "\n"@,
        report::swept_line(false, j, freed) == "  "@ + "swept"@ + " "@ + paths::final_name_text(
            j.base.path@,
        ) + "  "@ + reaper::human_text(freed as int) + "  ("@ + j.verdict.label() + ": "@
            + j.reason@ + ")"@ + "\n"@,
{
    let end = "  ("@ + j.verdict.label() + ": "@ + j.reason@ + ")"@;
    assert(report::swept_line(true, j, freed) =~= "  "@ + "would sweep"@ + " "@
        + paths::final_name_text(j.base.path@) + "  ("@ + j.verdict.label() + ": "@ + j.reason@
        + ")"@ + "\n"@);
    assert(report::swept_line(false, j, freed) =~= "  "@ + "swept"@ + " "@ + paths::final_name_text(
        j.base.path@,
    ) + "  "@ + reaper::human_text(freed as int) + "  ("@ + j.verdict.label() + ": "@ + j.reason@
        + ")"@ + "\n"@);
}

/// A base that could not be swept is told with the error.
pub proof fn law_failed_base_is_told_with_its_error(j: Judgement, error: Seq<char>)
    ensures
        report::failed_line(j, error) == "  FAILED "@ + paths::final_name_text(j.base.path@)
            + ": "@ + error + "\n"@,
{
}

/// Before the bases go it is said how many there are, how many stay, and how many go; the two add
/// up to the first.
pub proof fn law_bases_are_told_by_what_stays_and_goes(retained: nat, doomed: nat)
    ensures
        report::bases_text(retained + doomed, doomed) == "output bases: "@ + text::decimal(
            retained + doomed,
        ) + " total, "@ + text::decimal(retained) + " retained, "@ + text::decimal(doomed)
            + " to sweep\n"@,
{
}

/// What is said of the cache, part by part: the entries and the cutoff always, the hardlinked
/// ones if there are any, and the bytes unless it is a dry run.
pub proof fn law_cache_is_told_part_by_part(
    entries: nat,
    shared: nat,
    freed: nat,
    max_age_hours: Hours,
)
    ensures
        ({
            let head = "\nrepository cache: "@ + text::decimal(entries) + " entries unread in "@
                + util::hours_text(max_age_hours) + "h\n"@;
            let linked = "  "@ + text::decimal(shared)
                + " still hardlinked into an output base; those free nothing yet -- sweep bases first\n"@;
            let bytes = "  freed "@ + reaper::human_text(freed as int) + "\n"@;
            let dry = report::cache_text(true, entries, shared, freed, max_age_hours);
            let applied = report::cache_text(false, entries, shared, freed, max_age_hours);
            &&& shared == 0 ==> dry == head && applied == head + bytes
            &&& shared > 0 ==> dry == head + linked && applied == head + linked + bytes
        }),
{
    let head = "\nrepository cache: "@ + text::decimal(entries) + " entries unread in "@
        + util::hours_text(max_age_hours) + "h\n"@;
    let linked = "  "@ + text::decimal(shared)
        + " still hardlinked into an output base; those free nothing yet -- sweep bases first\n"@;
    let dry = report::cache_text(true, entries, shared, freed, max_age_hours);
    let applied = report::cache_text(false, entries, shared, freed, max_age_hours);
    let bytes = "  freed "@ + reaper::human_text(freed as int) + "\n"@;
    if shared == 0 {
        assert(dry =~= head);
        assert(applied =~= head + bytes);
    } else {
        assert(dry =~= head + linked);
        assert(applied =~= head + linked + bytes);
    }
}

/// An applied sweep ends with the bytes that it freed, and a dry run with how to apply it.
pub proof fn law_end_is_told_by_bytes_or_as_a_dry_run(freed: nat)
    ensures
        report::closing_text(true, freed)
            == "\ndry run -- nothing was deleted, and nothing was measured. re-run with --apply.\n"@,
        report::closing_text(false, freed) == "\nfreed "@ + reaper::human_text(freed as int)
            + " total\n"@,
{
}

} // verus!
