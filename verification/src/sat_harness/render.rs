//! The outcome line of cases with one answer.

use crate::harness::model::LABEL_WIDTH;
use crate::harness::render::{
    append_left, assembled_line, format_sat_telemetry_summary, left_aligned, outcome_text,
    sat_telemetry_text,
};
use crate::sat_harness::model::{short_label, short_label_text, CaseOutcome};
use crate::telemetry::Summary;
use vstd::prelude::*;

verus! {

/// Formats one case outcome line that can be printed immediately during the run, given the texts of
/// its elapsed time and of its path.
pub fn format_outcome(
    outcome: &CaseOutcome,
    elapsed: &str,
    path: &str,
    telemetry: &Option<Summary>,
) -> (line: String)
    ensures
        line@ == outcome_text(
            left_aligned(short_label_text(outcome.category), LABEL_WIDTH as nat),
            elapsed@,
            path@,
            outcome.detail,
            match *telemetry {
                Some(summary) => Some(sat_telemetry_text(summary)),
                None => None,
            },
        ),
{
    let mut label = "".to_owned();
    append_left(&mut label, short_label(outcome.category), LABEL_WIDTH);
    proof {
        reveal_strlit("");
        assert(label@ =~= left_aligned(short_label_text(outcome.category), LABEL_WIDTH as nat));
    }
    let metrics = match telemetry {
        Some(summary) => Some(format_sat_telemetry_summary(summary)),
        None => None,
    };
    assembled_line(label.as_str(), elapsed, path, &outcome.detail, &metrics)
}

} // verus!
