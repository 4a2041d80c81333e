//! What is read from manifests, from solver output and from sample files.

use crate::harness::case_io::{encoding_named, Encoding};
use crate::harness::cases::{case_found, default_answer, larger_first, lemma_larger_first};
use crate::harness::child::answers_in;
use crate::harness::discover::{
    answers_of, first_match, lemma_manifest_ordered, lemma_rule_slot, longest_first, manifest_rules,
    merged_answers, prefix_bytes, slot, supported_name, with_rule, MetadataView, RuleView,
};
use crate::harness::model::{
    answer_labelled, CaseOutcome, CaseTelemetry, ChildReport, DiscoveredCase, Elapsed,
    OutcomeCategory, QueryAnswer,
};
use crate::harness::parent::{
    by_key, classified, filled_rows, lemma_by_key, workers, ChildStatus,
};
use crate::lower::search::{smtlib_word, SatResult};
use crate::order::{lemma_sorted, lemma_text_total, path_before, sorted, text_before};
use crate::qfuf::driver::frames_satisfiable;
use crate::qfuf::script::{verdict, State};
use crate::strings::{begins, ends, parts, trimmed};
use crate::wording::{joined_by, lemma_split, lemma_split_joined};
use vstd::prelude::*;

verus! {

/// The line holds a row: it is not blank, and no comment.
pub open spec fn is_row(line: Seq<char>) -> bool {
    trimmed(line).len() > 0 && trimmed(line)[0] != '#'
}

/// Three columns with tabs between them.
pub open spec fn row_text(prefix: Seq<char>, label: Seq<char>, source: Seq<char>) -> Seq<char> {
    joined_by(seq![prefix, label, source], '\t')
}

/// The line is a row of three columns between tabs: the rule's prefix, the label of its answer, and its
/// source.
pub open spec fn row_says(line: Seq<char>, rule: RuleView) -> bool {
    &&& is_row(line)
    &&& exists|label: Seq<char>| #[trigger]
        row_text(rule.prefix, label, rule.source) == trimmed(line)
            && !rule.prefix.contains('\t') && !label.contains('\t') && !rule.source.contains('\t')
            && answer_labelled(label) == Ok::<QueryAnswer, Seq<char>>(rule.expected)
}

proof fn lemma_row(line: Seq<char>, rule: RuleView)
    ensures
        row_says(line, rule) <==> {
            let columns = parts(trimmed(line), '\t');
            &&& is_row(line)
            &&& columns.len() == 3
            &&& columns[0] == rule.prefix
            &&& columns[2] == rule.source
            &&& answer_labelled(columns[1]) == Ok::<QueryAnswer, Seq<char>>(rule.expected)
        },
{
    let columns = parts(trimmed(line), '\t');
    if row_says(line, rule) {
        let label = choose|label: Seq<char>| #[trigger]
            row_text(rule.prefix, label, rule.source) == trimmed(line)
                && !rule.prefix.contains('\t') && !label.contains('\t') && !rule.source.contains(
                '\t',
            ) && answer_labelled(label) == Ok::<QueryAnswer, Seq<char>>(rule.expected);
        let list = seq![rule.prefix, label, rule.source];
        lemma_split_joined(list, '\t');
        assert(columns == list);
    }
    if is_row(line) && columns.len() == 3 && columns[0] == rule.prefix && columns[2] == rule.source
        && answer_labelled(columns[1]) == Ok::<QueryAnswer, Seq<char>>(rule.expected) {
        lemma_split(trimmed(line), '\t');
        assert(columns =~= seq![rule.prefix, columns[1], rule.source]);
        assert(!columns[0].contains('\t') && !columns[1].contains('\t') && !columns[2].contains(
            '\t',
        ));
        assert(row_text(rule.prefix, columns[1], rule.source) == trimmed(line));
    }
}

/// The line can be read: it is blank, a comment, or a row that says a rule.
pub open spec fn line_readable(line: Seq<char>) -> bool {
    is_row(line) ==> exists|rule: RuleView| row_says(line, rule)
}

/// A manifest is refused exactly when one of its rows says no rule.
pub proof fn lemma_manifest_refused(lines: Seq<Seq<char>>, manifest: Seq<char>, n: nat)
    requires
        n <= lines.len(),
    ensures
        manifest_rules(lines, manifest, n) is Ok <==> forall|k: int|
            0 <= k < n ==> line_readable(#[trigger] lines[k]),
    decreases n,
{
    if n > 0 {
        lemma_manifest_refused(lines, manifest, (n - 1) as nat);
        let line = lines[n - 1];
        let columns = parts(trimmed(line), '\t');
        if is_row(line) {
            if columns.len() == 3 && answer_labelled(columns[1]) is Ok {
                let rule = RuleView {
                    prefix: columns[0],
                    expected: answer_labelled(columns[1])->Ok_0,
                    source: columns[2],
                };
                lemma_row(line, rule);
                assert(row_says(line, rule));
            }
            if line_readable(line) {
                let rule = choose|rule: RuleView| row_says(line, rule);
                lemma_row(line, rule);
            }
        }
    }
}

proof fn lemma_last_line(lines: Seq<Seq<char>>, manifest: Seq<char>, n: nat, rule: RuleView)
    requires
        0 < n <= lines.len(),
        manifest_rules(lines, manifest, n) is Ok,
    ensures
        manifest_rules(lines, manifest, (n - 1) as nat) is Ok,
        ({
            let before = manifest_rules(lines, manifest, (n - 1) as nat)->Ok_0;
            let rules = manifest_rules(lines, manifest, n)->Ok_0;
            &&& row_says(lines[n - 1], rule) ==> rules == with_rule(before, rule)
            &&& !is_row(lines[n - 1]) ==> rules == before
            &&& line_readable(lines[n - 1])
        }),
{
    lemma_row(lines[n - 1], rule);
    if is_row(lines[n - 1]) {
        let columns = parts(trimmed(lines[n - 1]), '\t');
        let other = RuleView {
            prefix: columns[0],
            expected: answer_labelled(columns[1])->Ok_0,
            source: columns[2],
        };
        lemma_row(lines[n - 1], other);
        assert(row_says(lines[n - 1], other));
    }
}

/// The rules of a manifest are those that its rows say.
pub proof fn lemma_manifest_rules(
    lines: Seq<Seq<char>>,
    manifest: Seq<char>,
    n: nat,
    rule: RuleView,
)
    requires
        n <= lines.len(),
        manifest_rules(lines, manifest, n) is Ok,
    ensures
        (manifest_rules(lines, manifest, n)->Ok_0).contains(rule) <==> exists|k: int|
            0 <= k < n && row_says(#[trigger] lines[k], rule),
    decreases n,
{
    if n > 0 {
        let m = (n - 1) as nat;
        let line = lines[m as int];
        lemma_last_line(lines, manifest, n, rule);
        lemma_manifest_rules(lines, manifest, m, rule);
        let before = manifest_rules(lines, manifest, m)->Ok_0;
        let rules = manifest_rules(lines, manifest, n)->Ok_0;
        if is_row(line) {
            let other = choose|other: RuleView| row_says(line, other);
            lemma_last_line(lines, manifest, n, other);
            lemma_row(line, rule);
            lemma_row(line, other);
            lemma_rule_slot(before, other, before.len());
            let at = slot(before, other, before.len()) as int;
            assert(rules == before.insert(at, other));
            assert(rules[at] == other);
            if rules.contains(rule) {
                let i = choose|i: int| 0 <= i < rules.len() && rules[i] == rule;
                if i < at {
                    assert(before[i] == rule);
                    assert(before.contains(rule));
                } else if i > at {
                    assert(before[i - 1] == rule);
                    assert(before.contains(rule));
                } else {
                    assert(row_says(lines[m as int], rule));
                }
                if before.contains(rule) {
                    let k = choose|k: int| 0 <= k < m && row_says(#[trigger] lines[k], rule);
                    assert(row_says(lines[k], rule));
                }
            }
            if exists|k: int| 0 <= k < n && row_says(#[trigger] lines[k], rule) {
                let k = choose|k: int| 0 <= k < n && row_says(#[trigger] lines[k], rule);
                if k < m {
                    assert(before.contains(rule));
                    let i = choose|i: int| 0 <= i < before.len() && before[i] == rule;
                    if i < at {
                        assert(rules[i] == rule);
                    } else {
                        assert(rules[i + 1] == rule);
                    }
                } else {
                    assert(rule == other);
                    assert(rules[at] == rule);
                }
            }
        }
    }
}

/// A rule that row `k` says applies to the path, and no other rule that does so has a longer prefix, or
/// one as long and an earlier row.
pub open spec fn decides(
    lines: Seq<Seq<char>>,
    n: nat,
    path: Seq<char>,
    k: int,
    rule: RuleView,
) -> bool {
    &&& 0 <= k < n
    &&& row_says(lines[k], rule)
    &&& begins(path, rule.prefix)
    &&& forall|j: int, other: RuleView|
        0 <= j < n && #[trigger] row_says(lines[j], other) && begins(path, other.prefix)
            ==> prefix_bytes(other) < prefix_bytes(rule) || (prefix_bytes(other) == prefix_bytes(
            rule,
        ) && j >= k)
}

/// No row says a rule that applies to the path.
pub open spec fn undecided(lines: Seq<Seq<char>>, n: nat, path: Seq<char>) -> bool {
    forall|j: int, other: RuleView|
        0 <= j < n && #[trigger] row_says(lines[j], other) ==> !begins(path, other.prefix)
}

proof fn lemma_first_match(path: Seq<char>, rules: Seq<RuleView>, i: nat)
    requires
        i <= rules.len(),
    ensures
        match first_match(path, rules, i) {
            Some(k) => i <= k < rules.len() && begins(path, rules[k].prefix) && forall|j: int|
                i <= j < k ==> !begins(path, (#[trigger] rules[j]).prefix),
            None => forall|j: int|
                i <= j < rules.len() ==> !begins(path, (#[trigger] rules[j]).prefix),
        },
    decreases rules.len() - i,
{
    if i < rules.len() && !begins(path, rules[i as int].prefix) {
        lemma_first_match(path, rules, i + 1);
    }
}

proof fn lemma_match_kept(path: Seq<char>, rules: Seq<RuleView>, rule: RuleView)
    requires
        longest_first(rules),
    ensures
        ({
            let old = first_match(path, rules, 0);
            let more = with_rule(rules, rule);
            let new = first_match(path, more, 0);
            if begins(path, rule.prefix) && (old is None || prefix_bytes(rules[old->0])
                < prefix_bytes(rule)) {
                new is Some && more[new->0] == rule
            } else {
                &&& old is Some <==> new is Some
                &&& old is Some ==> more[new->0] == rules[old->0]
            }
        }),
{
    let more = with_rule(rules, rule);
    let at = slot(rules, rule, rules.len()) as int;
    lemma_rule_slot(rules, rule, rules.len());
    lemma_first_match(path, rules, 0);
    lemma_first_match(path, more, 0);
    let old = first_match(path, rules, 0);
    let new = first_match(path, more, 0);
    assert(more[at] == rule);
    if new is Some && new->0 != at {
        let w = new->0;
        let back = if w < at {
            w
        } else {
            w - 1
        };
        assert(more[w] == rules[back]);
        assert(old is Some && old->0 <= back);
    }
    if old is Some {
        let o = old->0;
        let moved = if o < at {
            o
        } else {
            o + 1
        };
        assert(more[moved] == rules[o]);
        assert(new is Some && new->0 <= moved);
        if o < at {
            if o < at - 1 {
                assert(prefix_bytes(rules[o]) >= prefix_bytes(rules[at - 1]));
            }
            assert(prefix_bytes(rules[o]) >= prefix_bytes(rule));
        } else {
            assert(prefix_bytes(rules[o]) < prefix_bytes(rule));
        }
    }
}

proof fn lemma_decided(
    lines: Seq<Seq<char>>,
    manifest: Seq<char>,
    n: nat,
    path: Seq<char>,
) -> (found: Option<int>)
    requires
        n <= lines.len(),
        manifest_rules(lines, manifest, n) is Ok,
    ensures
        ({
            let rules = manifest_rules(lines, manifest, n)->Ok_0;
            match first_match(path, rules, 0) {
                Some(i) => found is Some && decides(lines, n, path, found->0, rules[i]),
                None => undecided(lines, n, path),
            }
        }),
    decreases n,
{
    if n == 0 {
        None
    } else {
        let m = (n - 1) as nat;
        let line = lines[m as int];
        let anything = RuleView {
            prefix: Seq::empty(),
            expected: QueryAnswer::Unknown,
            source: Seq::empty(),
        };
        lemma_last_line(lines, manifest, n, anything);
        let found = lemma_decided(lines, manifest, m, path);
        let before = manifest_rules(lines, manifest, m)->Ok_0;
        let rules = manifest_rules(lines, manifest, n)->Ok_0;
        if !is_row(line) {
            found
        } else {
            let rule = choose|rule: RuleView| row_says(line, rule);
            lemma_last_line(lines, manifest, n, rule);
            lemma_manifest_ordered(lines, manifest, m);
            lemma_match_kept(path, before, rule);
            lemma_first_match(path, before, 0);
            lemma_row(line, rule);
            assert forall|other: RuleView| #[trigger] row_says(lines[m as int], other) implies other
                == rule by {
                lemma_row(line, other);
            }
            let old = first_match(path, before, 0);
            if begins(path, rule.prefix) && (old is None || prefix_bytes(before[old->0])
                < prefix_bytes(rule)) {
                assert(decides(lines, n, path, m as int, rule));
                Some(m as int)
            } else {
                found
            }
        }
    }
}

/// The answer for a path is that of the longest matching prefix in the manifest, from the first row that
/// gives it; where no prefix matches there is none.
pub proof fn lemma_manifest_lookup(
    lines: Seq<Seq<char>>,
    manifest: Seq<char>,
    path: Seq<char>,
    k: int,
    rule: RuleView,
)
    requires
        manifest_rules(lines, manifest, lines.len()) is Ok,
    ensures
        ({
            let rules = manifest_rules(lines, manifest, lines.len())->Ok_0;
            &&& decides(lines, lines.len(), path, k, rule) ==> default_answer(path, rules) == Some(
                rule.expected,
            )
            &&& undecided(lines, lines.len(), path) ==> default_answer(path, rules) is None
        }),
{
    let n = lines.len();
    let rules = manifest_rules(lines, manifest, n)->Ok_0;
    let found = lemma_decided(lines, manifest, n, path);
    lemma_first_match(path, rules, 0);
    if decides(lines, n, path, k, rule) {
        if first_match(path, rules, 0) is Some {
            let other = rules[first_match(path, rules, 0)->0];
            let j = found->0;
            assert(row_says(lines[j], other));
            assert(row_says(lines[k], rule));
            assert(j == k);
            lemma_row(lines[k], rule);
            lemma_row(lines[k], other);
        }
    }
    if undecided(lines, n, path) && first_match(path, rules, 0) is Some {
        assert(row_says(lines[found->0], rules[first_match(path, rules, 0)->0]));
    }
}

/// A default answer stands in for every unknown one and for the only one of a trace without queries, and
/// changes no other.
pub proof fn lemma_merged(answers: Seq<QueryAnswer>, default: Option<QueryAnswer>, i: int)
    ensures
        ({
            let merged = merged_answers(answers, default);
            &&& default is None ==> merged == answers
            &&& default is Some && answers.len() == 0 ==> merged.len() == 1 && merged[0] == default->0
            &&& answers.len() > 0 ==> merged.len() == answers.len()
            &&& 0 <= i < answers.len() && answers[i] != QueryAnswer::Unknown ==> merged[i]
                == answers[i]
            &&& 0 <= i < answers.len() && answers[i] == QueryAnswer::Unknown && default is Some
                ==> merged[i] == default->0
        }),
{
}

/// The number of lines, among the first `n`, that are not blank.
pub open spec fn filled(lines: Seq<Seq<char>>, n: nat) -> nat
    decreases n,
{
    if n == 0 {
        0
    } else {
        filled(lines, (n - 1) as nat) + if trimmed(lines[n - 1]).len() > 0 {
            1nat
        } else {
            0
        }
    }
}

/// Solver output is refused exactly when a line of it is neither blank nor an answer; otherwise each line
/// that is not blank gives one answer, in order.
pub proof fn lemma_answers(lines: Seq<Seq<char>>, n: nat, k: nat)
    requires
        n <= lines.len(),
    ensures
        answers_in(lines, n) is Ok <==> forall|j: int|
            0 <= j < n && trimmed(#[trigger] lines[j]).len() > 0 ==> answer_labelled(
                trimmed(lines[j]),
            ) is Ok,
        answers_in(lines, n) matches Ok(answers) ==> {
            &&& answers.len() == filled(lines, n)
            &&& k < n && trimmed(lines[k as int]).len() > 0 ==> filled(lines, k) < answers.len()
                && answer_labelled(trimmed(lines[k as int])) == Ok::<QueryAnswer, Seq<char>>(
                answers[filled(lines, k) as int],
            )
        },
    decreases n,
{
    if n > 0 {
        lemma_answers(lines, (n - 1) as nat, k);
    }
}

/// The rows of a sample file are its lines that are not blank, trimmed, each with its number.
pub proof fn lemma_sample_rows(lines: Seq<Seq<char>>, n: nat, k: nat)
    requires
        n <= lines.len(),
    ensures
        filled_rows(lines, n).len() == filled(lines, n),
        k < n && trimmed(lines[k as int]).len() > 0 ==> filled(lines, k) < filled_rows(
            lines,
            n,
        ).len() && filled_rows(lines, n)[filled(lines, k) as int] == (
            (k + 1) as nat,
            trimmed(lines[k as int]),
        ),
    decreases n,
{
    if n > 0 {
        lemma_sample_rows(lines, (n - 1) as nat, k);
    }
}

/// As many workers run as are asked for, but no more than there are cases, and always one.
pub proof fn lemma_workers(requested: nat, cases: nat)
    ensures
        workers(requested, cases) >= 1,
        workers(requested, cases) <= requested || requested == 0 || cases == 0,
        workers(requested, cases) <= cases || cases == 0,
        1 <= requested <= cases ==> workers(requested, cases) == requested,
        1 <= cases <= requested ==> workers(requested, cases) == cases,
        requested == 0 || cases == 0 ==> workers(requested, cases) == 1,
{
}

/// A case file is a name with one of the three suffixes.
pub proof fn lemma_supported_name(name: Seq<char>, stem: Seq<char>)
    ensures
        name == stem + ".smt2"@ || name == stem + ".smt2.gz"@ || name == stem + ".smt2.bz2"@
            ==> supported_name(name),
        supported_name(name) ==> exists|start: Seq<char>|
            #![trigger start + ".smt2"@]
            name == start + ".smt2"@ || name == start + ".smt2.gz"@ || name == start
                + ".smt2.bz2"@,
{
    if name == stem + ".smt2"@ {
        assert(name.skip(name.len() - ".smt2"@.len()) =~= ".smt2"@);
    } else if name == stem + ".smt2.gz"@ {
        assert(name.skip(name.len() - ".smt2.gz"@.len()) =~= ".smt2.gz"@);
    } else if name == stem + ".smt2.bz2"@ {
        assert(name.skip(name.len() - ".smt2.bz2"@.len()) =~= ".smt2.bz2"@);
    }
    if supported_name(name) {
        let suffix = if ends(name, ".smt2"@) {
            ".smt2"@
        } else if ends(name, ".smt2.gz"@) {
            ".smt2.gz"@
        } else {
            ".smt2.bz2"@
        };
        let start = name.take(name.len() - suffix.len());
        assert(start + suffix =~= name);
        let first = start + ".smt2"@;
    }
}

/// A run is judged by its answers exactly when the child succeeded and its report and its samples could
/// be read; a parse error is one that such a child reported.
pub proof fn lemma_judged(
    outcome: CaseOutcome,
    case: DiscoveredCase,
    elapsed: Elapsed,
    status: ChildStatus,
    report: Option<Result<ChildReport, String>>,
    stderr: Seq<char>,
    telemetry: Result<Option<CaseTelemetry>, String>,
)
    requires
        classified(outcome, case, elapsed, status, report, stderr, telemetry),
    ensures
        ({
            let read = status.success && report is Some && report->0 is Ok && telemetry is Ok;
            let judged = outcome.category == OutcomeCategory::Pass || outcome.category
                == OutcomeCategory::WrongAnswer || outcome.category == OutcomeCategory::NoOracle;
            &&& judged <==> read && (report->0)->Ok_0 is Completed
            &&& outcome.category == OutcomeCategory::ParseError <==> read && (report->0)->Ok_0
                is ParseError
            &&& outcome.category != OutcomeCategory::Timeout
            &&& outcome.category == OutcomeCategory::Panic || outcome.category
                == OutcomeCategory::Killed ==> !status.success
            &&& outcome.case == case.record
            &&& outcome.total_elapsed == elapsed
            &&& !judged ==> outcome.queries@.len() == 0 && outcome.solver_elapsed is None
        }),
{
}

/// What the drivers print on a query is read as the answer that it stands for.
pub proof fn lemma_verdict_read(state: State, result: SatResult)
    ensures
        answer_labelled(verdict(state)) == Ok::<QueryAnswer, Seq<char>>(
            if frames_satisfiable(state.frames) {
                QueryAnswer::Sat
            } else {
                QueryAnswer::Unsat
            },
        ),
        answer_labelled(smtlib_word(result)) == Ok::<QueryAnswer, Seq<char>>(
            match result {
                SatResult::Sat => QueryAnswer::Sat,
                SatResult::Unsat => QueryAnswer::Unsat,
                _ => QueryAnswer::Unknown,
            },
        ),
{
    reveal_strlit("sat");
    reveal_strlit("unsat");
    reveal_strlit("unknown");
    assert("sat"@.len() == 3 && "unsat"@.len() == 5 && "unknown"@.len() == 7);
}

/// A file is stored as its suffix says, and plainly without one.
pub proof fn lemma_encoding(name: Seq<char>, stem: Seq<char>)
    ensures
        name == stem + ".gz"@ ==> encoding_named(name) == Encoding::Gzip,
        name == stem + ".bz2"@ ==> encoding_named(name) == Encoding::Bzip2,
        encoding_named(name) != Encoding::Plain ==> exists|start: Seq<char>|
            #![trigger start + ".gz"@]
            name == start + ".gz"@ || name == start + ".bz2"@,
{
    reveal_strlit(".gz");
    reveal_strlit(".bz2");
    if name == stem + ".gz"@ {
        assert(name.skip(name.len() - ".gz"@.len()) =~= ".gz"@);
    }
    if name == stem + ".bz2"@ {
        assert(name.skip(name.len() - ".bz2"@.len()) =~= ".bz2"@);
        assert(name.last() == '2');
        if ends(name, ".gz"@) {
            assert(name.skip(name.len() - 3)[2] == 'z');
        }
    }
    if ends(name, ".gz"@) {
        assert(name.take(name.len() - 3) + ".gz"@ =~= name);
    } else if ends(name, ".bz2"@) {
        let start = name.take(name.len() - 4);
        assert(start + ".bz2"@ =~= name);
        let other = start + ".gz"@;
    }
}

/// Cases are run from the largest file to the smallest, and files of one size in the order of their paths;
/// every case is run as often as it was found.
pub proof fn lemma_cases_ordered(cases: Seq<DiscoveredCase>, i: int, j: int)
    requires
        0 <= i < j < cases.len(),
    ensures
        ({
            let list = sorted(cases, larger_first());
            &&& list.to_multiset() == cases.to_multiset()
            &&& list.len() == cases.len()
            &&& list[i].record.bytes >= list[j].record.bytes
            &&& list[i].record.bytes == list[j].record.bytes ==> !path_before(
                list[j].absolute_path@,
                list[i].absolute_path@,
            )
        }),
{
    lemma_larger_first();
    lemma_sorted(cases, larger_first(), cases.len());
    assert(cases.take(cases.len() as int) =~= cases);
    let list = sorted(cases, larger_first());
    assert(!larger_first()(list[j], list[i]));
}

/// A case expects of each query what its trace announces, and where the trace leaves it open what the rule
/// for its key says; a trace without queries expects the rule's answer of one.
pub proof fn lemma_case(
    case: DiscoveredCase,
    path: Seq<char>,
    key: Seq<char>,
    bytes: u64,
    lines: Seq<Seq<char>>,
    manifest: Seq<char>,
    metadata: MetadataView,
    k: int,
    rule: RuleView,
    i: int,
)
    requires
        manifest_rules(lines, manifest, lines.len()) is Ok,
        case_found(
            case,
            path,
            key,
            bytes,
            manifest_rules(lines, manifest, lines.len())->Ok_0,
            metadata,
        ),
        0 <= i < case.expected_queries@.len(),
    ensures
        case.record.key@ == key,
        case.absolute_path@ == path,
        case.record.query_count == Some(case.expected_queries@.len() as usize),
        case.expected_queries@[i].query_index == i,
        ({
            let expected = case.expected_queries@[i].expected;
            let announced = i < metadata.expected.len() && metadata.expected[i]
                != QueryAnswer::Unknown;
            &&& announced ==> expected == metadata.expected[i]
            &&& !announced && decides(lines, lines.len(), key, k, rule) ==> expected
                == rule.expected
            &&& !announced && undecided(lines, lines.len(), key) ==> expected
                == QueryAnswer::Unknown
        }),
        metadata.expected.len() > 0 ==> case.expected_queries@.len() == metadata.expected.len(),
        metadata.expected.len() == 0 ==> case.expected_queries@.len() == 1,
{
    let rules = manifest_rules(lines, manifest, lines.len())->Ok_0;
    lemma_manifest_lookup(lines, manifest, key, k, rule);
    let answers = merged_answers(metadata.expected, default_answer(key, rules));
    lemma_merged(metadata.expected, default_answer(key, rules), i);
    assert(answers_of(case.expected_queries@).len() == case.expected_queries@.len());
    assert(answers_of(case.expected_queries@)[i] == case.expected_queries@[i].expected);
    assert(answers.len() == case.expected_queries@.len());
    assert(case.expected_queries@[i].query_index == i);
}

/// Saved outcomes stand in the order of their keys, and none is lost or added.
pub proof fn lemma_outcomes_ordered(outcomes: Seq<CaseOutcome>, i: int, j: int)
    requires
        0 <= i < j < outcomes.len(),
    ensures
        ({
            let list = sorted(outcomes, by_key());
            &&& list.to_multiset() == outcomes.to_multiset()
            &&& list.len() == outcomes.len()
            &&& list[i].case.key@ == list[j].case.key@ || text_before(
                list[i].case.key@,
                list[j].case.key@,
            )
        }),
{
    lemma_by_key();
    lemma_sorted(outcomes, by_key(), outcomes.len());
    assert(outcomes.take(outcomes.len() as int) =~= outcomes);
    let list = sorted(outcomes, by_key());
    assert(!by_key()(list[j], list[i]));
    lemma_text_total(list[i].case.key@, list[j].case.key@);
}

} // verus!
