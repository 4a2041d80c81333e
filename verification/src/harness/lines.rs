//! What the lines that show counts say.

use crate::harness::model::OutcomeStats;
use crate::harness::render::{
    breakdown, count_text, progress_text, sat_telemetry_text, telemetry_text, with_detail,
};
use crate::strings::{begins, occurs, occurs_at};
use crate::telemetry::Summary;
use vstd::prelude::*;

verus! {

/// The text shows the count behind the label.
pub open spec fn shows(text: Seq<char>, label: Seq<char>, count: nat) -> bool {
    occurs(text, label + count_text(count))
}

proof fn lemma_shown(text: Seq<char>, start: Seq<char>, label: Seq<char>, count: nat)
    requires
        begins(text, start + label + count_text(count)),
    ensures
        shows(text, label, count),
        begins(text, start),
{
    let part = label + count_text(count);
    let upto = start + label + count_text(count);
    let i = start.len() as int;
    assert forall|k: int| 0 <= k < upto.len() implies text[k] == #[trigger] upto[k] by {
        assert(text.take(upto.len() as int)[k] == upto[k]);
    }
    assert(text.subrange(i, i + part.len()) =~= part) by {
        assert forall|k: int| 0 <= k < part.len() implies text[i + k] == #[trigger] part[k] by {
            assert(upto[i + k] == part[k]);
        }
    }
    assert(occurs_at(text, part, i));
    assert(text.take(i) =~= start) by {
        assert forall|k: int| 0 <= k < i implies text[k] == #[trigger] start[k] by {
            assert(upto[k] == start[k]);
        }
    }
}

/// The summary line of a run shows each of its counts behind its label.
pub proof fn lemma_telemetry_shown(summary: Summary)
    ensures
        shows(telemetry_text(summary), "sat conf "@, summary.sat.total_conflicts as nat),
        shows(telemetry_text(summary), " prop "@, summary.sat.total_propagations as nat),
        shows(telemetry_text(summary), " dec "@, summary.sat.total_decisions as nat),
        shows(telemetry_text(summary), " | euf eq "@, summary.euf.total_input_equalities as nat),
        shows(telemetry_text(summary), " cong "@, summary.euf.total_congruence_merges as nat),
        shows(telemetry_text(summary), " tprop "@, summary.euf.total_theory_propagations as nat),
        shows(telemetry_text(summary), " tconf "@, summary.euf.total_theory_conflicts as nat),
        shows(telemetry_text(summary), " | peak-lvl "@, summary.sat.peak_decision_level as nat),
        shows(telemetry_text(summary), " peak-assign "@, summary.sat.peak_assigned_vars as nat),
        shows(telemetry_text(summary), " peak-terms "@, summary.euf.peak_registry_terms as nat),
{
    let text = telemetry_text(summary);
    let t0 = Seq::<char>::empty();
    let t1 = t0 + "sat conf "@ + count_text(summary.sat.total_conflicts as nat);
    let t2 = t1 + " prop "@ + count_text(summary.sat.total_propagations as nat);
    let t3 = t2 + " dec "@ + count_text(summary.sat.total_decisions as nat);
    let t4 = t3 + " | euf eq "@ + count_text(summary.euf.total_input_equalities as nat);
    let t5 = t4 + " cong "@ + count_text(summary.euf.total_congruence_merges as nat);
    let t6 = t5 + " tprop "@ + count_text(summary.euf.total_theory_propagations as nat);
    let t7 = t6 + " tconf "@ + count_text(summary.euf.total_theory_conflicts as nat);
    let t8 = t7 + " | peak-lvl "@ + count_text(summary.sat.peak_decision_level as nat);
    let t9 = t8 + " peak-assign "@ + count_text(summary.sat.peak_assigned_vars as nat);
    let t10 = t9 + " peak-terms "@ + count_text(summary.euf.peak_registry_terms as nat);
    assert(t0 + "sat conf "@ =~= "sat conf "@);
    assert(text =~= t10);
    assert(text.take(t10.len() as int) =~= t10);
    lemma_shown(text, t9, " peak-terms "@, summary.euf.peak_registry_terms as nat);
    lemma_shown(text, t8, " peak-assign "@, summary.sat.peak_assigned_vars as nat);
    lemma_shown(text, t7, " | peak-lvl "@, summary.sat.peak_decision_level as nat);
    lemma_shown(text, t6, " tconf "@, summary.euf.total_theory_conflicts as nat);
    lemma_shown(text, t5, " tprop "@, summary.euf.total_theory_propagations as nat);
    lemma_shown(text, t4, " cong "@, summary.euf.total_congruence_merges as nat);
    lemma_shown(text, t3, " | euf eq "@, summary.euf.total_input_equalities as nat);
    lemma_shown(text, t2, " dec "@, summary.sat.total_decisions as nat);
    lemma_shown(text, t1, " prop "@, summary.sat.total_propagations as nat);
    lemma_shown(text, t0, "sat conf "@, summary.sat.total_conflicts as nat);
}

/// The summary line of a run without theories shows each of its counts behind its label.
pub proof fn lemma_sat_telemetry_shown(summary: Summary)
    ensures
        shows(sat_telemetry_text(summary), "tele conf "@, summary.sat.total_conflicts as nat),
        shows(sat_telemetry_text(summary), " prop "@, summary.sat.total_propagations as nat),
        shows(sat_telemetry_text(summary), " dec "@, summary.sat.total_decisions as nat),
        shows(sat_telemetry_text(summary), " rst "@, summary.sat.total_restarts as nat),
        shows(sat_telemetry_text(summary), " red "@, summary.sat.total_reductions as nat),
        shows(sat_telemetry_text(summary), " peak-lvl "@, summary.sat.peak_decision_level as nat),
        shows(sat_telemetry_text(summary), " peak-assign "@, summary.sat.peak_assigned_vars as nat),
        shows(sat_telemetry_text(summary), " final-learnt "@, summary.sat.final_live_learnt_clauses as nat),
{
    let text = sat_telemetry_text(summary);
    let t0 = Seq::<char>::empty();
    let t1 = t0 + "tele conf "@ + count_text(summary.sat.total_conflicts as nat);
    let t2 = t1 + " prop "@ + count_text(summary.sat.total_propagations as nat);
    let t3 = t2 + " dec "@ + count_text(summary.sat.total_decisions as nat);
    let t4 = t3 + " rst "@ + count_text(summary.sat.total_restarts as nat);
    let t5 = t4 + " red "@ + count_text(summary.sat.total_reductions as nat);
    let t6 = t5 + " peak-lvl "@ + count_text(summary.sat.peak_decision_level as nat);
    let t7 = t6 + " peak-assign "@ + count_text(summary.sat.peak_assigned_vars as nat);
    let t8 = t7 + " final-learnt "@ + count_text(summary.sat.final_live_learnt_clauses as nat);
    assert(t0 + "tele conf "@ =~= "tele conf "@);
    assert(text =~= t8);
    assert(text.take(t8.len() as int) =~= t8);
    lemma_shown(text, t7, " final-learnt "@, summary.sat.final_live_learnt_clauses as nat);
    lemma_shown(text, t6, " peak-assign "@, summary.sat.peak_assigned_vars as nat);
    lemma_shown(text, t5, " peak-lvl "@, summary.sat.peak_decision_level as nat);
    lemma_shown(text, t4, " red "@, summary.sat.total_reductions as nat);
    lemma_shown(text, t3, " rst "@, summary.sat.total_restarts as nat);
    lemma_shown(text, t2, " dec "@, summary.sat.total_decisions as nat);
    lemma_shown(text, t1, " prop "@, summary.sat.total_propagations as nat);
    lemma_shown(text, t0, "tele conf "@, summary.sat.total_conflicts as nat);
}

/// The progress line shows how many cases run, pass, lack an expected answer and fail.
pub proof fn lemma_progress_shown(stats: OutcomeStats, running: nat)
    ensures
        shows(progress_text(stats, running), "run "@, running),
        shows(progress_text(stats, running), " | ok "@, stats.pass as nat),
        shows(progress_text(stats, running), " | no-oracle "@, stats.no_oracle as nat),
        shows(progress_text(stats, running), " | fail "@, stats.failures()),
{
    let text = progress_text(stats, running);
    let t0 = Seq::<char>::empty();
    let t1 = t0 + "run "@ + count_text(running);
    let t2 = t1 + " | ok "@ + count_text(stats.pass as nat);
    let t3 = t2 + " | no-oracle "@ + count_text(stats.no_oracle as nat);
    let t4 = t3 + " | fail "@ + count_text(stats.failures());
    assert(t0 + "run "@ =~= "run "@);
    assert(text.take(t4.len() as int) =~= t4);
    lemma_shown(text, t3, " | fail "@, stats.failures());
    lemma_shown(text, t2, " | no-oracle "@, stats.no_oracle as nat);
    lemma_shown(text, t1, " | ok "@, stats.pass as nat);
    lemma_shown(text, t0, "run "@, running);
}

proof fn lemma_shown_more(text: Seq<char>, label: Seq<char>, count: nat, more: Seq<char>)
    requires
        shows(text, label, count),
    ensures
        shows(text + more, label, count),
{
    let part = label + count_text(count);
    let i = choose|i: int| 0 <= i <= text.len() - part.len() && #[trigger] occurs_at(text, part, i);
    assert((text + more).subrange(i, i + part.len()) =~= part) by {
        assert forall|k: int| 0 <= k < part.len() implies (text + more)[i + k]
            == #[trigger] part[k] by {
            assert(text.subrange(i, i + part.len())[k] == part[k]);
        }
    }
    assert(occurs_at(text + more, part, i));
}

proof fn lemma_detail_kept(
    text: Seq<char>,
    label: Seq<char>,
    count: nat,
    other: Seq<char>,
    number: nat,
)
    ensures
        count > 0 ==> shows(with_detail(text, label, count), label, count),
        shows(text, other, number) ==> shows(with_detail(text, label, count), other, number),
{
    let part = label + count_text(count);
    let longer = with_detail(text, label, count);
    if count > 0 {
        if text.len() == 0 {
            assert(longer.subrange(0, part.len() as int) =~= part);
            assert(occurs_at(longer, part, 0));
            if shows(text, other, number) {
                lemma_shown_more(text, other, number, longer);
                assert(text + longer =~= longer);
            }
        } else {
            let i = (text + " "@).len() as int;
            assert(longer.subrange(i, i + part.len()) =~= part);
            assert(occurs_at(longer, part, i));
            if shows(text, other, number) {
                let more = " "@ + label + count_text(count);
                lemma_shown_more(text, other, number, more);
                assert(text + more =~= longer);
            }
        }
    }
}

/// The breakdown of failures shows every count that is not zero behind its label.
pub proof fn lemma_breakdown_shown(stats: OutcomeStats)
    ensures
        stats.wrong > 0 ==> shows(breakdown(stats), "wrong "@, stats.wrong as nat),
        stats.parse > 0 ==> shows(breakdown(stats), "parse "@, stats.parse as nat),
        stats.timeout > 0 ==> shows(breakdown(stats), "time "@, stats.timeout as nat),
        stats.panic > 0 ==> shows(breakdown(stats), "panic "@, stats.panic as nat),
        stats.killed > 0 ==> shows(breakdown(stats), "killed "@, stats.killed as nat),
        stats.harness > 0 ==> shows(breakdown(stats), "error "@, stats.harness as nat),
{
    let t0 = Seq::<char>::empty();
    let t1 = with_detail(t0, "wrong "@, stats.wrong as nat);
    lemma_detail_kept(t0, "wrong "@, stats.wrong as nat, "wrong "@, stats.wrong as nat);
    let t2 = with_detail(t1, "parse "@, stats.parse as nat);
    lemma_detail_kept(t1, "parse "@, stats.parse as nat, "wrong "@, stats.wrong as nat);
    lemma_detail_kept(t1, "parse "@, stats.parse as nat, "parse "@, stats.parse as nat);
    let t3 = with_detail(t2, "time "@, stats.timeout as nat);
    lemma_detail_kept(t2, "time "@, stats.timeout as nat, "wrong "@, stats.wrong as nat);
    lemma_detail_kept(t2, "time "@, stats.timeout as nat, "parse "@, stats.parse as nat);
    lemma_detail_kept(t2, "time "@, stats.timeout as nat, "time "@, stats.timeout as nat);
    let t4 = with_detail(t3, "panic "@, stats.panic as nat);
    lemma_detail_kept(t3, "panic "@, stats.panic as nat, "wrong "@, stats.wrong as nat);
    lemma_detail_kept(t3, "panic "@, stats.panic as nat, "parse "@, stats.parse as nat);
    lemma_detail_kept(t3, "panic "@, stats.panic as nat, "time "@, stats.timeout as nat);
    lemma_detail_kept(t3, "panic "@, stats.panic as nat, "panic "@, stats.panic as nat);
    let t5 = with_detail(t4, "killed "@, stats.killed as nat);
    lemma_detail_kept(t4, "killed "@, stats.killed as nat, "wrong "@, stats.wrong as nat);
    lemma_detail_kept(t4, "killed "@, stats.killed as nat, "parse "@, stats.parse as nat);
    lemma_detail_kept(t4, "killed "@, stats.killed as nat, "time "@, stats.timeout as nat);
    lemma_detail_kept(t4, "killed "@, stats.killed as nat, "panic "@, stats.panic as nat);
    lemma_detail_kept(t4, "killed "@, stats.killed as nat, "killed "@, stats.killed as nat);
    let t6 = with_detail(t5, "error "@, stats.harness as nat);
    lemma_detail_kept(t5, "error "@, stats.harness as nat, "wrong "@, stats.wrong as nat);
    lemma_detail_kept(t5, "error "@, stats.harness as nat, "parse "@, stats.parse as nat);
    lemma_detail_kept(t5, "error "@, stats.harness as nat, "time "@, stats.timeout as nat);
    lemma_detail_kept(t5, "error "@, stats.harness as nat, "panic "@, stats.panic as nat);
    lemma_detail_kept(t5, "error "@, stats.harness as nat, "killed "@, stats.killed as nat);
    lemma_detail_kept(t5, "error "@, stats.harness as nat, "error "@, stats.harness as nat);
}

} // verus!
