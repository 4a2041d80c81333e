//! Text of progress updates, outcome lines and final summaries.

use crate::harness::model::{category_label, CaseOutcome, OutcomeStats, LABEL_WIDTH};
use crate::telemetry::Summary;
use crate::text::decimal_text;
use vstd::prelude::*;

verus! {

/// The interactive refresh cadence in milliseconds while waiting for the next completed case.
pub const PROGRESS_HEARTBEAT_MILLIS: u64 = 100;

/// Digits in groups of three from the right, with commas between the groups.
pub open spec fn grouped(digits: Seq<char>) -> Seq<char>
    decreases digits.len(),
{
    if digits.len() <= 3 {
        digits
    } else {
        grouped(digits.take(digits.len() - 3)) + ","@ + digits.skip(digits.len() - 3)
    }
}

/// The text of a count.
pub open spec fn count_text(n: nat) -> Seq<char> {
    grouped(decimal_text(n))
}

/// `indicatif::HumanCount`: displays a count in decimal digits with commas between groups of three,
/// counted from the right.
#[verifier::external_body]
pub(crate) fn human_count(n: u64) -> (text: String)
    ensures
        text@ == count_text(n as nat),
{
    indicatif::HumanCount(n).to_string()
}

/// Appends a label and a count.
pub fn append_count(text: &mut String, label: &str, n: u64)
    ensures
        final(text)@ == old(text)@ + label@ + count_text(n as nat),
{
    text.append(label);
    let count = human_count(n);
    text.append(count.as_str());
}

/// A breakdown with one more counter, left out where it is zero.
pub open spec fn with_detail(text: Seq<char>, label: Seq<char>, count: nat) -> Seq<char> {
    if count == 0 {
        text
    } else if text.len() == 0 {
        label + count_text(count)
    } else {
        text + " "@ + label + count_text(count)
    }
}

/// The non-zero failure counters.
pub open spec fn breakdown(stats: OutcomeStats) -> Seq<char> {
    let text = with_detail(Seq::empty(), "wrong "@, stats.wrong as nat);
    let text = with_detail(text, "parse "@, stats.parse as nat);
    let text = with_detail(text, "time "@, stats.timeout as nat);
    let text = with_detail(text, "panic "@, stats.panic as nat);
    let text = with_detail(text, "killed "@, stats.killed as nat);
    with_detail(text, "error "@, stats.harness as nat)
}

/// The live status counters.
pub open spec fn progress_text(stats: OutcomeStats, running: nat) -> Seq<char> {
    let text = "run "@ + count_text(running) + " | ok "@ + count_text(stats.pass as nat)
        + " | no-oracle "@ + count_text(stats.no_oracle as nat) + " | fail "@ + count_text(
        stats.failures(),
    );
    if stats.failures() == 0 {
        text
    } else {
        text + " ["@ + breakdown(stats) + "]"@
    }
}

/// Adds one counter to a breakdown, unless it is zero.
fn add_detail(text: &mut String, label: &str, count: usize)
    requires
        label@.len() > 0,
    ensures
        final(text)@ == with_detail(old(text)@, label@, count as nat),
        old(text)@.len() > 0 ==> final(text)@.len() > 0,
{
    if count == 0 {
        return ;
    }
    if text.as_str().unicode_len() == 0 {
        append_count(text, label, count as u64);
        proof {
            assert(Seq::<char>::empty() + label@ =~= label@);
        }
    } else {
        text.append(" ");
        append_count(text, label, count as u64);
    }
}

/// Returns the number of failing outcomes.
pub fn failure_count(stats: &OutcomeStats) -> (count: usize)
    requires
        stats.failures() <= usize::MAX,
    ensures
        count == stats.failures(),
{
    stats.wrong + stats.parse + stats.timeout + stats.panic + stats.killed + stats.harness
}

/// Formats the live status counters shown beside the progress bar.
pub fn progress_message(stats: &OutcomeStats, running: usize) -> (message: String)
    requires
        stats.failures() <= usize::MAX,
    ensures
        message@ == progress_text(*stats, running as nat),
{
    let failures = failure_count(stats);
    proof {
        reveal_strlit("");
        reveal_strlit("wrong ");
        reveal_strlit("parse ");
        reveal_strlit("time ");
        reveal_strlit("panic ");
        reveal_strlit("killed ");
        reveal_strlit("error ");
    }
    let mut message = "run ".to_owned();
    let count = human_count(running as u64);
    message.append(count.as_str());
    append_count(&mut message, " | ok ", stats.pass as u64);
    append_count(&mut message, " | no-oracle ", stats.no_oracle as u64);
    append_count(&mut message, " | fail ", failures as u64);
    if failures > 0 {
        let mut details = "".to_owned();
        proof {
            assert(details@ =~= Seq::<char>::empty());
        }
        add_detail(&mut details, "wrong ", stats.wrong);
        add_detail(&mut details, "parse ", stats.parse);
        add_detail(&mut details, "time ", stats.timeout);
        add_detail(&mut details, "panic ", stats.panic);
        add_detail(&mut details, "killed ", stats.killed);
        add_detail(&mut details, "error ", stats.harness);
        message.append(" [");
        message.append(details.as_str());
        message.append("]");
    }
    message
}

/// A run of spaces.
pub open spec fn spaces(n: nat) -> Seq<char> {
    Seq::new(n, |i: int| ' ')
}

/// As many spaces as a text falls short of a width.
pub open spec fn padding(text: Seq<char>, width: nat) -> Seq<char> {
    spaces(
        if text.len() < width {
            (width - text.len()) as nat
        } else {
            0
        },
    )
}

/// A text filled with spaces on the right up to a width.
pub open spec fn left_aligned(text: Seq<char>, width: nat) -> Seq<char> {
    text + padding(text, width)
}

/// A text filled with spaces on the left up to a width.
pub open spec fn right_aligned(text: Seq<char>, width: nat) -> Seq<char> {
    padding(text, width) + text
}

/// Appends the spaces by which a text falls short of a width.
fn append_padding(line: &mut String, text: &str, width: usize)
    ensures
        final(line)@ == old(line)@ + padding(text@, width as nat),
{
    let length = text.unicode_len();
    let missing: usize = if length < width {
        width - length
    } else {
        0
    };
    let ghost before = line@;
    proof {
        assert(before + spaces(0) =~= before);
    }
    let mut i: usize = 0;
    while i < missing
        invariant
            0 <= i <= missing,
            line@ == before + spaces(i as nat),
        decreases missing - i,
    {
        line.append(" ");
        proof {
            reveal_strlit(" ");
            assert(line@ =~= before + spaces((i + 1) as nat));
        }
        i += 1;
    }
}

/// Appends a text filled with spaces on the right up to a width.
pub fn append_left(line: &mut String, text: &str, width: usize)
    ensures
        final(line)@ == old(line)@ + left_aligned(text@, width as nat),
{
    let ghost before = line@;
    line.append(text);
    append_padding(line, text, width);
    proof {
        assert(line@ =~= before + left_aligned(text@, width as nat));
    }
}

/// Appends a text filled with spaces on the left up to a width.
pub fn append_right(line: &mut String, text: &str, width: usize)
    ensures
        final(line)@ == old(line)@ + right_aligned(text@, width as nat),
{
    let ghost before = line@;
    append_padding(line, text, width);
    line.append(text);
    proof {
        assert(line@ =~= before + right_aligned(text@, width as nat));
    }
}

/// The width of a column of elapsed times.
pub const ELAPSED_WIDTH: usize = 6;

/// The suffix for an optional detail.
pub open spec fn detail_suffix(detail: Option<String>) -> Seq<char> {
    match detail {
        Some(detail) => " :: "@ + detail@,
        None => Seq::empty(),
    }
}

/// Appends the suffix for an optional detail.
pub fn append_detail(line: &mut String, detail: &Option<String>)
    ensures
        final(line)@ == old(line)@ + detail_suffix(*detail),
{
    let ghost before = line@;
    if let Some(detail) = detail {
        line.append(" :: ");
        line.append(detail.as_str());
    }
    proof {
        assert(line@ =~= before + detail_suffix(*detail));
    }
}

/// One compact telemetry summary.
pub open spec fn telemetry_text(summary: Summary) -> Seq<char> {
    "sat conf "@ + count_text(summary.sat.total_conflicts as nat) + " prop "@ + count_text(
        summary.sat.total_propagations as nat,
    ) + " dec "@ + count_text(summary.sat.total_decisions as nat) + " | euf eq "@ + count_text(
        summary.euf.total_input_equalities as nat,
    ) + " cong "@ + count_text(summary.euf.total_congruence_merges as nat) + " tprop "@
        + count_text(summary.euf.total_theory_propagations as nat) + " tconf "@ + count_text(
        summary.euf.total_theory_conflicts as nat,
    ) + " | peak-lvl "@ + count_text(summary.sat.peak_decision_level as nat) + " peak-assign "@
        + count_text(summary.sat.peak_assigned_vars as nat) + " peak-terms "@ + count_text(
        summary.euf.peak_registry_terms as nat,
    )
}

/// Formats one compact telemetry summary for a per-case outcome line.
pub fn format_telemetry_summary(summary: &Summary) -> (text: String)
    ensures
        text@ == telemetry_text(*summary),
{
    let mut text = "sat conf ".to_owned();
    let conflicts = human_count(summary.sat.total_conflicts);
    text.append(conflicts.as_str());
    append_count(&mut text, " prop ", summary.sat.total_propagations);
    append_count(&mut text, " dec ", summary.sat.total_decisions);
    append_count(&mut text, " | euf eq ", summary.euf.total_input_equalities);
    append_count(&mut text, " cong ", summary.euf.total_congruence_merges);
    append_count(&mut text, " tprop ", summary.euf.total_theory_propagations);
    append_count(&mut text, " tconf ", summary.euf.total_theory_conflicts);
    append_count(&mut text, " | peak-lvl ", summary.sat.peak_decision_level);
    append_count(&mut text, " peak-assign ", summary.sat.peak_assigned_vars);
    append_count(&mut text, " peak-terms ", summary.euf.peak_registry_terms);
    text
}

/// One compact telemetry summary of a run without theories.
pub open spec fn sat_telemetry_text(summary: Summary) -> Seq<char> {
    "tele conf "@ + count_text(summary.sat.total_conflicts as nat) + " prop "@ + count_text(
        summary.sat.total_propagations as nat,
    ) + " dec "@ + count_text(summary.sat.total_decisions as nat) + " rst "@ + count_text(
        summary.sat.total_restarts as nat,
    ) + " red "@ + count_text(summary.sat.total_reductions as nat) + " peak-lvl "@ + count_text(
        summary.sat.peak_decision_level as nat,
    ) + " peak-assign "@ + count_text(summary.sat.peak_assigned_vars as nat) + " final-learnt "@
        + count_text(summary.sat.final_live_learnt_clauses as nat)
}

/// Formats one compact telemetry summary of a run without theories.
pub fn format_sat_telemetry_summary(summary: &Summary) -> (text: String)
    ensures
        text@ == sat_telemetry_text(*summary),
{
    let mut text = "tele conf ".to_owned();
    let conflicts = human_count(summary.sat.total_conflicts);
    text.append(conflicts.as_str());
    append_count(&mut text, " prop ", summary.sat.total_propagations);
    append_count(&mut text, " dec ", summary.sat.total_decisions);
    append_count(&mut text, " rst ", summary.sat.total_restarts);
    append_count(&mut text, " red ", summary.sat.total_reductions);
    append_count(&mut text, " peak-lvl ", summary.sat.peak_decision_level);
    append_count(&mut text, " peak-assign ", summary.sat.peak_assigned_vars);
    append_count(&mut text, " final-learnt ", summary.sat.final_live_learnt_clauses);
    text
}

/// One outcome line, made of an aligned label, an elapsed time, a path, a detail suffix and, on a
/// line of its own, optional metrics.
pub open spec fn outcome_text(
    label: Seq<char>,
    elapsed: Seq<char>,
    path: Seq<char>,
    detail: Option<String>,
    metrics: Option<Seq<char>>,
) -> Seq<char> {
    "    "@ + label + " "@ + right_aligned(elapsed, ELAPSED_WIDTH as nat) + " "@ + path
        + detail_suffix(detail) + match metrics {
        Some(metrics) => "\n    "@ + metrics,
        None => Seq::empty(),
    }
}

/// Assembles one outcome line from its parts.
pub fn assembled_line(
    label: &str,
    elapsed: &str,
    path: &str,
    detail: &Option<String>,
    metrics: &Option<String>,
) -> (line: String)
    ensures
        line@ == outcome_text(
            label@,
            elapsed@,
            path@,
            *detail,
            match *metrics {
                Some(metrics) => Some(metrics@),
                None => None,
            },
        ),
{
    let mut line = "    ".to_owned();
    line.append(label);
    line.append(" ");
    append_right(&mut line, elapsed, ELAPSED_WIDTH);
    line.append(" ");
    line.append(path);
    append_detail(&mut line, detail);
    let ghost before = line@;
    match metrics {
        Some(metrics) => {
            line.append("\n    ");
            line.append(metrics.as_str());
            proof {
                assert(line@ =~= before + ("\n    "@ + metrics@));
            }
        },
        None => {
            proof {
                assert(line@ =~= before + Seq::<char>::empty());
            }
        },
    }
    line
}

/// Assembles one outcome line from an aligned label, an elapsed time and optional metrics.
pub fn outcome_line(
    outcome: &CaseOutcome,
    label: &str,
    elapsed: &str,
    metrics: &Option<String>,
) -> (line: String)
    ensures
        line@ == outcome_text(
            label@,
            elapsed@,
            outcome.case.key@,
            outcome.detail,
            match *metrics {
                Some(metrics) => Some(metrics@),
                None => None,
            },
        ),
{
    assembled_line(label, elapsed, outcome.case.key.as_str(), &outcome.detail, metrics)
}

/// Formats one case outcome line that can be printed immediately during the run, given the text of
/// its elapsed time.
pub fn format_outcome(outcome: &CaseOutcome, elapsed: &str) -> (line: String)
    ensures
        line@ == outcome_text(
            left_aligned(category_label(outcome.category), LABEL_WIDTH as nat),
            elapsed@,
            outcome.case.key@,
            outcome.detail,
            match outcome.telemetry {
                Some(telemetry) => Some(telemetry_text(telemetry.summary)),
                None => None,
            },
        ),
{
    let mut label = "".to_owned();
    append_left(&mut label, outcome.category.label(), LABEL_WIDTH);
    proof {
        reveal_strlit("");
        assert(label@ =~= left_aligned(category_label(outcome.category), LABEL_WIDTH as nat));
    }
    let metrics = match &outcome.telemetry {
        Some(telemetry) => Some(format_telemetry_summary(&telemetry.summary)),
        None => None,
    };
    outcome_line(outcome, label.as_str(), elapsed, &metrics)
}

/// Formats the totals of a finished run.
pub fn totals_line(total: usize, stats: &OutcomeStats) -> (line: String)
    requires
        stats.balanced(),
    ensures
        line@ == " total "@ + count_text(total as nat) + " | pass "@ + count_text(stats.pass as nat)
            + " | no-oracle "@ + count_text(stats.no_oracle as nat) + " | fail "@ + count_text(
            stats.failures(),
        ),
{
    let mut line = " total ".to_owned();
    let count = human_count(total as u64);
    line.append(count.as_str());
    append_count(&mut line, " | pass ", stats.pass as u64);
    append_count(&mut line, " | no-oracle ", stats.no_oracle as u64);
    append_count(&mut line, " | fail ", (stats.done - stats.pass - stats.no_oracle) as u64);
    line
}

/// Formats the failure counters of a finished run.
pub fn failures_line(stats: &OutcomeStats) -> (line: String)
    ensures
        line@ == " wrong "@ + count_text(stats.wrong as nat) + " | timeout "@ + count_text(
            stats.timeout as nat,
        ) + " | panic "@ + count_text(stats.panic as nat) + " | parse "@ + count_text(
            stats.parse as nat,
        ) + " | killed "@ + count_text(stats.killed as nat) + " | harness "@ + count_text(
            stats.harness as nat,
        ),
{
    let mut line = " wrong ".to_owned();
    let count = human_count(stats.wrong as u64);
    line.append(count.as_str());
    append_count(&mut line, " | timeout ", stats.timeout as u64);
    append_count(&mut line, " | panic ", stats.panic as u64);
    append_count(&mut line, " | parse ", stats.parse as u64);
    append_count(&mut line, " | killed ", stats.killed as u64);
    append_count(&mut line, " | harness ", stats.harness as u64);
    line
}

} // verus!
