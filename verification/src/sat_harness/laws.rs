//! What holds of CPU lists, traces, profiles and outcomes.

use crate::harness::model::{answer_labelled, Elapsed, OutcomeCategory, QueryAnswer};
use crate::harness::parent::ChildStatus;
use crate::qfuf::sexpr::Form;
use crate::sat_harness::child::{
    components, components_to, profile_arguments, profile_name, profile_path, solver_arguments,
};
use crate::sat_harness::discover::{after_form, after_forms, head_of};
use crate::sat_harness::jobs::{
    allowed_text, cpu_index, cpu_list, dash_at, listed_cpus, number_range, segment_cpus,
};
use crate::sat_harness::model::{CaseOutcome, CaseSpec, ChildReportKind, ExpectedResult};
use crate::sat_harness::parent::classified;
use crate::strings::{begins, trimmed};
use crate::text::{all_digits, decimal_text, white_space};
use crate::wording::{joined_by, lemma_decimal_read_back, lemma_nothing_to_trim, lemma_split_joined};
use vstd::prelude::*;

verus! {

/// One entry of a CPU list: a single CPU, or the CPUs from one to another.
pub struct CpuSpan {
    /// The first CPU.
    pub first: nat,
    /// The last CPU of a range.
    pub last: Option<nat>,
}

impl CpuSpan {
    /// The entry as it is written.
    pub open spec fn text(self) -> Seq<char> {
        match self.last {
            None => decimal_text(self.first),
            Some(last) => decimal_text(self.first).push('-') + decimal_text(last),
        }
    }

    /// The entry covers the CPU.
    pub open spec fn covers(self, cpu: nat) -> bool {
        match self.last {
            None => cpu == self.first,
            Some(last) => self.first <= cpu <= last,
        }
    }

    /// The range does not run backwards.
    pub open spec fn ascends(self) -> bool {
        match self.last {
            None => true,
            Some(last) => self.first <= last,
        }
    }

    /// All numbers fit into a machine word.
    pub open spec fn fits(self) -> bool {
        &&& self.first <= usize::MAX
        &&& self.last matches Some(last) ==> last <= usize::MAX
    }
}

/// A CPU list as it is written.
pub open spec fn list_text(spans: Seq<CpuSpan>) -> Seq<char> {
    joined_by(spans.map_values(|span: CpuSpan| span.text()), ',')
}

proof fn lemma_dash(text: Seq<char>, i: nat, k: int)
    requires
        i <= k <= text.len(),
        forall|j: int| i <= j < k ==> #[trigger] text[j] != '-',
        k < text.len() ==> text[k] == '-',
    ensures
        dash_at(text, i) == if k < text.len() {
            Some(k)
        } else {
            None
        },
    decreases k - i,
{
    if i < k {
        assert(text[i as int] != '-');
        lemma_dash(text, i + 1, k);
    }
}

proof fn lemma_digits(text: Seq<char>)
    requires
        all_digits(text),
    ensures
        forall|i: int| 0 <= i < text.len() ==> !white_space(#[trigger] text[i]) && text[i] != '-'
            && text[i] != ',',
{
    assert forall|i: int| 0 <= i < text.len() implies !white_space(#[trigger] text[i]) && text[i]
        != '-' && text[i] != ',' by {
        assert('0' <= text[i] <= '9');
    }
}

proof fn lemma_span(span: CpuSpan)
    requires
        span.fits(),
    ensures
        !span.text().contains(','),
        segment_cpus(span.text()) is Ok <==> span.ascends(),
        segment_cpus(span.text()) matches Ok(cpus) ==> cpus == number_range(
            span.first,
            match span.last {
                None => span.first,
                Some(last) => last,
            },
        ),
{
    let text = span.text();
    let a = decimal_text(span.first);
    lemma_decimal_read_back(span.first);
    lemma_digits(a);
    match span.last {
        None => {
            lemma_nothing_to_trim(text);
            lemma_dash(text, 0, text.len() as int);
            assert(cpu_index(text) == Ok::<nat, Seq<char>>(span.first));
            assert(seq![span.first] =~= number_range(span.first, span.first));
        },
        Some(last) => {
            let b = decimal_text(last);
            lemma_decimal_read_back(last);
            lemma_digits(b);
            let k = a.len() as int;
            assert forall|i: int| 0 <= i < text.len() implies !white_space(#[trigger] text[i])
                && text[i] != ',' by {
                if i < k {
                    assert(text[i] == a[i]);
                } else if i > k {
                    assert(text[i] == b[i - k - 1]);
                }
            }
            lemma_nothing_to_trim(text);
            assert forall|j: int| 0 <= j < k implies #[trigger] text[j] != '-' by {
                assert(text[j] == a[j]);
            }
            lemma_dash(text, 0, k);
            assert(text.take(k) =~= a);
            assert(text.skip(k + 1) =~= b);
            lemma_nothing_to_trim(a);
            lemma_nothing_to_trim(b);
            assert(cpu_index(a) == Ok::<nat, Seq<char>>(span.first));
            assert(cpu_index(b) == Ok::<nat, Seq<char>>(last));
        },
    }
}

proof fn lemma_listed(spans: Seq<CpuSpan>, segments: Seq<Seq<char>>, n: nat)
    requires
        n <= spans.len(),
        segments == spans.map_values(|span: CpuSpan| span.text()),
        forall|k: int| 0 <= k < spans.len() ==> (#[trigger] spans[k]).fits(),
    ensures
        listed_cpus(segments, n) is Ok <==> forall|k: int|
            0 <= k < n ==> (#[trigger] spans[k]).ascends(),
        listed_cpus(segments, n) matches Ok(cpus) ==> {
            &&& forall|cpu: nat| #[trigger] cpus.contains(cpu) <==> exists|k: int|
                0 <= k < n && (#[trigger] spans[k]).covers(cpu)
            &&& (forall|j: int, k: int, x: nat, y: nat|
                #![trigger spans[j].covers(x), spans[k].covers(y)]
                0 <= j < k < n && spans[j].covers(x) && spans[k].covers(y) ==> x < y) ==> forall|
                p: int,
                q: int,
            |
                #![trigger cpus[p], cpus[q]]
                0 <= p < q < cpus.len() ==> cpus[p] < cpus[q]
        },
    decreases n,
{
    if n > 0 {
        let m = (n - 1) as nat;
        lemma_listed(spans, segments, m);
        let span = spans[m as int];
        assert(span.fits());
        lemma_span(span);
        assert(segments[m as int] == span.text());
        if listed_cpus(segments, n) is Ok {
            let before = listed_cpus(segments, m)->Ok_0;
            let more = segment_cpus(segments[m as int])->Ok_0;
            let cpus = before + more;
            assert forall|i: int| 0 <= i < more.len() implies span.covers(#[trigger] more[i])
                && more[i] == span.first + i by {}
            assert forall|cpu: nat| #[trigger] cpus.contains(cpu) <==> exists|k: int|
                0 <= k < n && (#[trigger] spans[k]).covers(cpu) by {
                if cpus.contains(cpu) {
                    let i = choose|i: int| 0 <= i < cpus.len() && cpus[i] == cpu;
                    if i < before.len() {
                        assert(before[i] == cpu);
                        assert(before.contains(cpu));
                        let k = choose|k: int| 0 <= k < m && (#[trigger] spans[k]).covers(cpu);
                        assert(spans[k].covers(cpu));
                    } else {
                        assert(more[i - before.len()] == cpu);
                        assert(spans[m as int].covers(cpu));
                    }
                }
                if exists|k: int| 0 <= k < n && (#[trigger] spans[k]).covers(cpu) {
                    let k = choose|k: int| 0 <= k < n && (#[trigger] spans[k]).covers(cpu);
                    if k < m {
                        assert(before.contains(cpu));
                        let i = choose|i: int| 0 <= i < before.len() && before[i] == cpu;
                        assert(cpus[i] == cpu);
                    } else {
                        let i = cpu - span.first;
                        assert(more[i] == cpu);
                        assert(cpus[before.len() + i] == cpu);
                    }
                }
            }
            if forall|j: int, k: int, x: nat, y: nat|
                #![trigger spans[j].covers(x), spans[k].covers(y)]
                0 <= j < k < n && spans[j].covers(x) && spans[k].covers(y) ==> x < y {
                assert forall|p: int, q: int|
                    #![trigger cpus[p], cpus[q]]
                    0 <= p < q < cpus.len() implies cpus[p] < cpus[q] by {
                    if q < before.len() {
                        assert(cpus[p] == before[p] && cpus[q] == before[q]);
                    } else if p >= before.len() {
                        assert(cpus[p] == more[p - before.len()]);
                        assert(cpus[q] == more[q - before.len()]);
                    } else {
                        assert(cpus[p] == before[p]);
                        assert(before.contains(cpus[p]));
                        let j = choose|j: int| 0 <= j < m && (#[trigger] spans[j]).covers(cpus[p]);
                        assert(cpus[q] == more[q - before.len()]);
                        assert(spans[j].covers(cpus[p]));
                        assert(spans[m as int].covers(cpus[q]));
                    }
                }
            }
        }
    }
}

/// A CPU list is refused exactly when a range of it runs backwards. Otherwise it stands for the CPUs
/// that its entries cover, in ascending order and without repetition where the entries ascend.
pub proof fn lemma_cpu_list(spans: Seq<CpuSpan>)
    requires
        spans.len() > 0,
        forall|k: int| 0 <= k < spans.len() ==> (#[trigger] spans[k]).fits(),
    ensures
        cpu_list(list_text(spans)) is Ok <==> forall|k: int|
            0 <= k < spans.len() ==> (#[trigger] spans[k]).ascends(),
        cpu_list(list_text(spans)) matches Ok(cpus) ==> {
            &&& forall|cpu: nat| #[trigger] cpus.contains(cpu) <==> exists|k: int|
                0 <= k < spans.len() && (#[trigger] spans[k]).covers(cpu)
            &&& (forall|j: int, k: int, x: nat, y: nat|
                #![trigger spans[j].covers(x), spans[k].covers(y)]
                0 <= j < k < spans.len() && spans[j].covers(x) && spans[k].covers(y) ==> x < y)
                ==> forall|p: int, q: int|
                #![trigger cpus[p], cpus[q]]
                0 <= p < q < cpus.len() ==> cpus[p] < cpus[q]
        },
{
    let segments = spans.map_values(|span: CpuSpan| span.text());
    assert forall|i: int| 0 <= i < segments.len() implies !(#[trigger] segments[i]).contains(
        ',',
    ) by {
        assert(spans[i].fits());
        lemma_span(spans[i]);
        assert(segments[i] == spans[i].text());
    }
    lemma_split_joined(segments, ',');
    lemma_listed(spans, segments, spans.len());
}

/// The allowed CPUs are those of the first line with their label.
pub proof fn lemma_allowed_line(lines: Seq<Seq<char>>, i: nat, k: nat)
    requires
        i <= k <= lines.len(),
        forall|j: int| i <= j < k ==> !begins(#[trigger] lines[j], "Cpus_allowed_list:"@),
    ensures
        k == lines.len() ==> allowed_text(lines, i) is None,
        forall|list: Seq<char>| #![trigger "Cpus_allowed_list:"@ + list]
            k < lines.len() && lines[k as int] == "Cpus_allowed_list:"@ + list ==> allowed_text(
                lines,
                i,
            ) == Some(trimmed(list)),
    decreases k - i,
{
    if i < k {
        assert(!begins(lines[i as int], "Cpus_allowed_list:"@));
        lemma_allowed_line(lines, i + 1, k);
    } else {
        assert forall|list: Seq<char>| #![trigger "Cpus_allowed_list:"@ + list]
            k < lines.len() && lines[k as int] == "Cpus_allowed_list:"@ + list implies allowed_text(
            lines,
            i,
        ) == Some(trimmed(list)) by {
            let label = "Cpus_allowed_list:"@;
            assert((label + list).take(label.len() as int) =~= label);
            assert((label + list).skip(label.len() as int) =~= list);
        }
    }
}

/// The expression is a query.
pub open spec fn asks(form: Form) -> bool {
    form matches Form::List(items) && items.len() > 0 && items[0] == Form::Atom("check-sat"@)
}

/// The expression announces a status.
pub open spec fn is_announcement(form: Form) -> bool {
    form matches Form::List(items) && items.len() == 3 && items[0] == Form::Atom("set-info"@)
        && items[1] == Form::Atom(":status"@) && items[2] is Atom
}

/// The status that an expression announces.
pub open spec fn announced(form: Form) -> Seq<char> {
    (form->List_0)[2]->Atom_0
}

/// The number of queries among the first `n` expressions.
pub open spec fn asked(items: Seq<Form>, n: nat) -> nat
    decreases n,
{
    if n == 0 {
        0
    } else {
        asked(items, (n - 1) as nat) + if asks(items[n - 1]) {
            1nat
        } else {
            0
        }
    }
}

/// Expression `k` is the last announcement before `n`, with no query in between.
pub open spec fn in_force(items: Seq<Form>, k: int, n: int) -> bool {
    &&& 0 <= k < n <= items.len()
    &&& is_announcement(items[k])
    &&& forall|j: int| k < j < n ==> !is_announcement(#[trigger] items[j]) && !asks(items[j])
}

/// No announcement is in force before `n`.
pub open spec fn nothing_in_force(items: Seq<Form>, n: int) -> bool {
    forall|k: int| !#[trigger] in_force(items, k, n)
}

proof fn lemma_words()
    ensures
        "set-logic"@ != "set-info"@,
        "set-logic"@ != "check-sat"@,
        "set-info"@ != "check-sat"@,
{
    reveal_strlit("set-logic");
    reveal_strlit("set-info");
    reveal_strlit("check-sat");
    assert("set-logic"@.len() != "set-info"@.len());
    assert("set-logic"@[0] != "check-sat"@[0]);
    assert("set-info"@.len() != "check-sat"@.len());
}

proof fn lemma_force_kept(items: Seq<Form>, n: nat)
    requires
        n < items.len(),
    ensures
        is_announcement(items[n as int]) ==> in_force(items, n as int, n as int + 1),
        asks(items[n as int]) ==> nothing_in_force(items, n as int + 1),
        !is_announcement(items[n as int]) && !asks(items[n as int]) ==> forall|k: int| #[trigger]
            in_force(items, k, n as int + 1) == in_force(items, k, n as int),
{
    lemma_words();
    if !is_announcement(items[n as int]) && !asks(items[n as int]) {
        assert forall|k: int| #[trigger] in_force(items, k, n as int + 1) == in_force(
            items,
            k,
            n as int,
        ) by {}
    }
    if asks(items[n as int]) {
        assert forall|k: int| !#[trigger] in_force(items, k, n as int + 1) by {
            if in_force(items, k, n as int + 1) {
                assert(!asks(items[n as int]) || k == n);
            }
        }
    }
}

proof fn lemma_pending(items: Seq<Form>, n: nat)
    requires
        n <= items.len(),
        after_forms(items, n) is Ok,
    ensures
        ({
            let state = after_forms(items, n)->Ok_0;
            &&& state.pending is None ==> nothing_in_force(items, n as int)
            &&& state.pending matches Some(answer) ==> exists|k: int| #[trigger]
                in_force(items, k, n as int) && answer_labelled(announced(items[k])) == Ok::<
                    QueryAnswer,
                    Seq<char>,
                >(answer)
            &&& state.metadata.expected.len() == asked(items, n)
        }),
    decreases n,
{
    lemma_words();
    if n > 0 {
        let m = (n - 1) as nat;
        lemma_pending(items, m);
        lemma_force_kept(items, m);
        let before = after_forms(items, m)->Ok_0;
        let state = after_forms(items, n)->Ok_0;
        let form = items[m as int];
        assert(is_announcement(form) ==> head_of(form) == Some("set-info"@));
        assert(asks(form) == (head_of(form) == Some("check-sat"@)));
        if is_announcement(form) {
            assert(in_force(items, m as int, n as int));
        } else if !asks(form) {
            assert(state.pending == before.pending);
            if state.pending is Some {
                let answer = state.pending->0;
                let k = choose|k: int| #[trigger] in_force(items, k, m as int) && answer_labelled(
                    announced(items[k]),
                ) == Ok::<QueryAnswer, Seq<char>>(answer);
                assert(in_force(items, k, n as int));
            } else {
                assert forall|k: int| !#[trigger] in_force(items, k, n as int) by {
                    assert(in_force(items, k, n as int) == in_force(items, k, m as int));
                    assert(!in_force(items, k, m as int));
                }
            }
        }
    } else {
        assert forall|k: int| !#[trigger] in_force(items, k, 0) by {}
    }
}

proof fn lemma_unique_in_force(items: Seq<Form>, j: int, k: int, n: int)
    requires
        in_force(items, j, n),
        in_force(items, k, n),
    ensures
        j == k,
{
    if j < k {
        assert(!is_announcement(items[k]));
    } else if k < j {
        assert(!is_announcement(items[j]));
    }
}

/// The expected answer of a query is the status announced last since the query before it, whatever else
/// stands in between, and unknown where none was announced.
pub proof fn lemma_expected_answer(items: Seq<Form>, n: nat, i: nat, k: int)
    requires
        n <= items.len(),
        after_forms(items, n) is Ok,
        i < n,
        asks(items[i as int]),
    ensures
        ({
            let expected = (after_forms(items, n)->Ok_0).metadata.expected;
            &&& expected.len() == asked(items, n)
            &&& asked(items, i) < expected.len()
            &&& in_force(items, k, i as int) ==> answer_labelled(announced(items[k])) == Ok::<
                QueryAnswer,
                Seq<char>,
            >(expected[asked(items, i) as int])
            &&& nothing_in_force(items, i as int) ==> expected[asked(items, i) as int]
                == QueryAnswer::Unknown
        }),
    decreases n,
{
    lemma_words();
    lemma_pending(items, n);
    let m = (n - 1) as nat;
    let form = items[m as int];
    lemma_pending(items, m);
    let before = after_forms(items, m)->Ok_0;
    assert(asks(form) == (head_of(form) == Some("check-sat"@)));
    if i == m {
        if before.pending is Some {
            let answer = before.pending->0;
            let j = choose|j: int| #[trigger] in_force(items, j, m as int) && answer_labelled(
                announced(items[j]),
            ) == Ok::<QueryAnswer, Seq<char>>(answer);
            if in_force(items, k, i as int) {
                lemma_unique_in_force(items, j, k, m as int);
            }
        }
    } else {
        lemma_expected_answer(items, m, i, k);
    }
}

/// The expression chooses a logic.
pub open spec fn chooses(form: Form) -> bool {
    form matches Form::List(items) && items.len() == 2 && items[0] == Form::Atom("set-logic"@)
        && items[1] is Atom
}

/// The logic of a trace is the one chosen last, and a trace that chooses none has none.
pub proof fn lemma_chosen_logic(items: Seq<Form>, n: nat, k: int)
    requires
        n <= items.len(),
        after_forms(items, n) is Ok,
    ensures
        0 <= k < n && chooses(items[k]) && (forall|j: int|
            k < j < n ==> !chooses(#[trigger] items[j])) ==> (after_forms(
            items,
            n,
        )->Ok_0).metadata.logic == Some((items[k]->List_0)[1]->Atom_0),
        (forall|j: int| 0 <= j < n ==> !chooses(#[trigger] items[j])) ==> (after_forms(
            items,
            n,
        )->Ok_0).metadata.logic is None,
    decreases n,
{
    lemma_words();
    if n > 0 {
        let m = (n - 1) as nat;
        lemma_chosen_logic(items, m, k);
        let form = items[m as int];
        assert(chooses(form) ==> head_of(form) == Some("set-logic"@));
        if k < m && !chooses(form) {
            assert((after_forms(items, n)->Ok_0).metadata.logic == (after_forms(
                items,
                m,
            )->Ok_0).metadata.logic);
        }
    }
}

/// A trace is refused exactly when it announces a status that is no answer.
pub proof fn lemma_trace_refused(items: Seq<Form>, n: nat)
    requires
        n <= items.len(),
    ensures
        after_forms(items, n) is Err <==> exists|k: int|
            0 <= k < n && is_announcement(#[trigger] items[k]) && answer_labelled(
                announced(items[k]),
            ) is Err,
    decreases n,
{
    lemma_words();
    if n > 0 {
        let m = (n - 1) as nat;
        lemma_trace_refused(items, m);
        let form = items[m as int];
        assert(is_announcement(form) ==> head_of(form) == Some("set-info"@));
        if after_forms(items, m) is Ok {
            let before = after_forms(items, m)->Ok_0;
            assert(after_form(before, form) is Err <==> is_announcement(form) && answer_labelled(
                announced(form),
            ) is Err);
        }
    }
}

/// The part of a path counts as a component.
pub open spec fn counts() -> spec_fn(Seq<char>) -> bool {
    |part: Seq<char>| part.len() > 0 && part != "."@
}

proof fn lemma_components(list: Seq<Seq<char>>, n: nat)
    requires
        n <= list.len(),
    ensures
        components_to(list, n) == list.take(n as int).filter(counts()),
    decreases n,
{
    reveal(Seq::filter);
    if n > 0 {
        lemma_components(list, (n - 1) as nat);
        let more = list.take(n as int);
        assert(more.drop_last() =~= list.take(n - 1));
        assert(more.last() == list[n - 1]);
    } else {
        assert(list.take(0) =~= Seq::<Seq<char>>::empty());
    }
}

/// The name can be that of a directory or a file.
pub open spec fn plain_name(name: Seq<char>) -> bool {
    name.len() > 0 && name != "."@ && name != ".."@ && !name.contains('/')
}

proof fn lemma_ending(dirs: Seq<Seq<char>>, names: Seq<Seq<char>>)
    requires
        forall|i: int| 0 <= i < dirs.len() ==> !(#[trigger] dirs[i]).contains('/'),
        forall|i: int| 0 <= i < names.len() ==> plain_name(#[trigger] names[i]),
        names.len() > 0,
    ensures
        components(joined_by(dirs + names, '/')) == dirs.filter(counts()) + names,
{
    let list = dirs + names;
    assert forall|i: int| 0 <= i < list.len() implies !(#[trigger] list[i]).contains('/') by {
        if i < dirs.len() {
            assert(list[i] == dirs[i]);
        } else {
            assert(plain_name(names[i - dirs.len()]));
        }
    }
    lemma_split_joined(list, '/');
    lemma_components(list, list.len());
    assert(list.take(list.len() as int) =~= list);
    Seq::filter_distributes_over_add(dirs, names, counts());
    lemma_all_count(names);
}

proof fn lemma_all_count(names: Seq<Seq<char>>)
    requires
        forall|i: int| 0 <= i < names.len() ==> plain_name(#[trigger] names[i]),
    ensures
        names.filter(counts()) == names,
    decreases names.len(),
{
    reveal(Seq::filter);
    if names.len() > 0 {
        let less = names.drop_last();
        assert forall|i: int| 0 <= i < less.len() implies plain_name(#[trigger] less[i]) by {
            assert(less[i] == names[i]);
        }
        lemma_all_count(less);
        assert(plain_name(names[names.len() - 1]));
        assert(less.push(names.last()) =~= names);
    }
}

/// The profile is the name of the directory under `target` that holds the executable, or that holds the
/// `deps` directory with the executable. Below any other directory there is none.
pub proof fn lemma_profile(
    dirs: Seq<Seq<char>>,
    above: Seq<char>,
    profile: Seq<char>,
    executable: Seq<char>,
)
    requires
        forall|i: int| 0 <= i < dirs.len() ==> !(#[trigger] dirs[i]).contains('/'),
        plain_name(above),
        plain_name(profile),
        profile != "deps"@,
        plain_name(executable),
    ensures
        profile_name(joined_by(dirs + seq![above, profile, executable], '/')) == if above
            == "target"@ {
            Some(profile)
        } else {
            None
        },
        profile_name(joined_by(dirs + seq![above, profile, "deps"@, executable], '/')) == if above
            == "target"@ {
            Some(profile)
        } else {
            None
        },
{
    reveal_strlit("deps");
    assert(!"deps"@.contains('/'));
    assert(".."@.len() == 2 && "."@.len() == 1) by {
        reveal_strlit("..");
        reveal_strlit(".");
    }
    assert(plain_name("deps"@));
    let start = dirs.filter(counts());
    let short = seq![above, profile, executable];
    let long = seq![above, profile, "deps"@, executable];
    lemma_ending(dirs, short);
    lemma_ending(dirs, long);
    let first = joined_by(dirs + short, '/');
    let second = joined_by(dirs + long, '/');
    assert((start + short).drop_last() =~= start + seq![above, profile]);
    assert(profile_path(first) =~= start + seq![above, profile]);
    assert((start + long).drop_last() =~= start + seq![above, profile, "deps"@]);
    assert(profile_path(second) =~= start + seq![above, profile]);
}

/// The solver is run with the profile that the executable was built with: the default one with no
/// argument, the optimised one with its flag, any other by name.
pub proof fn lemma_profile_passed(current_exe: Seq<char>, manifest: Seq<char>)
    ensures
        ({
            let arguments = solver_arguments(current_exe, manifest);
            let name = profile_name(current_exe);
            &&& arguments.len() >= 6
            &&& arguments[0] == "run"@
            &&& arguments[1] == "--quiet"@
            &&& arguments.skip(arguments.len() - 4) == seq![
                "--manifest-path"@,
                manifest,
                "--bin"@,
                "qfuf"@,
            ]
            &&& arguments.len() == 6 <==> name is None || name == Some("debug"@)
            &&& arguments.len() == 7 <==> name == Some("release"@)
            &&& arguments.len() == 7 ==> arguments[2] == "--release"@
            &&& arguments.len() == 8 ==> arguments[2] == "--profile"@ && name == Some(arguments[3])
            &&& arguments.len() <= 8
        }),
{
    reveal_strlit("debug");
    reveal_strlit("release");
    assert("debug"@.len() != "release"@.len());
    let arguments = solver_arguments(current_exe, manifest);
    let chosen = profile_arguments(profile_name(current_exe));
    assert(arguments.len() == 6 + chosen.len());
    assert(arguments.skip(arguments.len() - 4) =~= seq![
        "--manifest-path"@,
        manifest,
        "--bin"@,
        "qfuf"@,
    ]);
    assert forall|i: int| 0 <= i < chosen.len() implies arguments[2 + i] == chosen[i] by {}
    if chosen.len() > 0 {
        assert(arguments[2] == chosen[0]);
    }
    if chosen.len() > 1 {
        assert(arguments[3] == chosen[1]);
    }
}

/// A run passes exactly when the solver succeeds and gives the expected answer; it is a wrong answer
/// exactly when the solver succeeds and gives the other; without an expected answer it is neither.
pub proof fn lemma_outcome(
    outcome: CaseOutcome,
    case: CaseSpec,
    elapsed: Elapsed,
    status: ChildStatus,
    report: Option<Result<ChildReportKind, String>>,
    stderr: Seq<char>,
)
    requires
        classified(outcome, case, elapsed, status, report, stderr),
    ensures
        ({
            let sat = status.success && report == Some(
                Ok::<ChildReportKind, String>(ChildReportKind::Sat),
            );
            let unsat = status.success && report == Some(
                Ok::<ChildReportKind, String>(ChildReportKind::Unsat),
            );
            &&& outcome.category == OutcomeCategory::Pass <==> {
                ||| sat && case.expected == Some(ExpectedResult::Sat)
                ||| unsat && case.expected == Some(ExpectedResult::Unsat)
            }
            &&& outcome.category == OutcomeCategory::WrongAnswer <==> {
                ||| sat && case.expected == Some(ExpectedResult::Unsat)
                ||| unsat && case.expected == Some(ExpectedResult::Sat)
            }
            &&& outcome.category == OutcomeCategory::NoOracle <==> (sat || unsat) && case.expected
                is None
            &&& outcome.actual == Some(ExpectedResult::Sat) <==> sat
            &&& outcome.actual == Some(ExpectedResult::Unsat) <==> unsat
            &&& outcome.category == OutcomeCategory::ParseError <==> status.success && report
                is Some && report->0 is Ok && (report->0)->Ok_0 is ParseError
            &&& outcome.category != OutcomeCategory::Timeout
            &&& outcome.detail is None <==> outcome.category == OutcomeCategory::Pass
                || outcome.category == OutcomeCategory::NoOracle
        }),
{
}

} // verus!
