//! What holds of scripts as a whole.

use crate::qfuf::denote::{two_valued, Prop, Structure};
use crate::qfuf::driver::{frames_hold, frames_satisfiable};
use crate::qfuf::models::internal;
use crate::qfuf::parser::{commands_of, CommandView};
use crate::qfuf::script::{
    asserted, clean_commands, commands_ran, deepened, initial_state, lemma_clean, lemma_run_error,
    lemma_script_clean, line_end, line_ok, next_state, plain_answers, run_commands, script_result,
    verdict, State,
};
use crate::qfuf::sexpr::{
    flat_all, lemma_parse_prefix, lemma_tokens_of_lines, overclosed, proper_all, tokens_of,
    unclosed, Form,
};
use crate::strings::lines_text;
use vstd::prelude::*;

verus! {

/// A pop undoes a push of as many levels.
pub proof fn lemma_pop_undoes_push(state: State, levels: u32)
    requires
        state.frames.len() > 0,
    ensures
        next_state(state, CommandView::Push(levels)) is Ok,
        next_state(
            next_state(state, CommandView::Push(levels))->Ok_0,
            CommandView::Pop(levels),
        ) == Ok::<State, Seq<char>>(state),
{
    let deep = deepened(state.frames, levels as nat);
    assert(deep.take(deep.len() - levels) =~= state.frames);
}

/// The frames with more formulas in the innermost one.
pub open spec fn all_asserted(frames: Seq<Seq<Prop>>, ps: Seq<Prop>) -> Seq<Seq<Prop>>
    decreases ps.len(),
{
    if ps.len() == 0 {
        frames
    } else {
        asserted(all_asserted(frames, ps.drop_last()), ps.last())
    }
}

proof fn lemma_all_asserted(frames: Seq<Seq<Prop>>, ps: Seq<Prop>)
    requires
        frames.len() > 0,
    ensures
        all_asserted(frames, ps).len() == frames.len(),
        forall|i: int|
            0 <= i < frames.len() - 1 ==> (#[trigger] all_asserted(frames, ps)[i]) == frames[i],
    decreases ps.len(),
{
    if ps.len() > 0 {
        lemma_all_asserted(frames, ps.drop_last());
    }
}

/// What is asserted after a push does not outlive the pop.
pub proof fn lemma_scoped_assertions(frames: Seq<Seq<Prop>>, levels: nat, ps: Seq<Prop>)
    requires
        frames.len() > 0,
        levels > 0,
    ensures
        ({
            let deep = all_asserted(deepened(frames, levels), ps);
            deep.take(deep.len() - levels) == frames
        }),
{
    lemma_all_asserted(deepened(frames, levels), ps);
    let deep = all_asserted(deepened(frames, levels), ps);
    assert(deep.take(deep.len() - levels) =~= frames);
}

/// Metadata, queries and `exit` change nothing that later answers depend on.
pub proof fn lemma_harmless(state: State)
    ensures
        next_state(state, CommandView::SetInfo) == Ok::<State, Seq<char>>(state),
        next_state(state, CommandView::CheckSat) == Ok::<State, Seq<char>>(state),
        next_state(state, CommandView::Exit) == Ok::<State, Seq<char>>(state),
{
}

/// One more assertion never makes an unsatisfiable set satisfiable.
pub proof fn lemma_assertion_restricts(frames: Seq<Seq<Prop>>, p: Prop)
    requires
        frames.len() > 0,
        frames_satisfiable(asserted(frames, p)),
    ensures
        frames_satisfiable(frames),
{
    let more = asserted(frames, p);
    let s = choose|s: Structure| two_valued(s) && #[trigger] frames_hold(more, s);
    assert forall|i: int, j: int| 0 <= i < frames.len() && 0 <= j < frames[i].len() implies (
    #[trigger] frames[i][j])(s) by {
        assert(more[i][j] == frames[i][j]);
        assert(more[i][j](s));
    }
    assert(frames_hold(frames, s));
}

/// The number of queries among commands.
pub open spec fn queries(commands: Seq<CommandView>) -> nat
    decreases commands.len(),
{
    if commands.len() == 0 {
        0
    } else {
        queries(commands.drop_last()) + if commands.last() is CheckSat {
            1nat
        } else {
            0
        }
    }
}

/// A script that runs gives one answer for each query, `sat` or `unsat`, and nothing else.
pub proof fn lemma_one_answer_each(commands: Seq<CommandView>)
    requires
        run_commands(commands) is Ok,
    ensures
        (run_commands(commands)->Ok_0).1.len() == queries(commands),
        plain_answers((run_commands(commands)->Ok_0).1),
    decreases commands.len(),
{
    if commands.len() > 0 {
        lemma_one_answer_each(commands.drop_last());
    }
}

proof fn lemma_commands_prefix(items: Seq<Form>, n: nat)
    requires
        n <= items.len(),
        commands_of(items) is Ok,
    ensures
        (commands_of(items)->Ok_0).len() == items.len(),
        commands_of(items.take(n as int)) == Ok::<Seq<CommandView>, Seq<char>>(
            (commands_of(items)->Ok_0).take(n as int),
        ),
    decreases items.len(),
{
    let commands = commands_of(items)->Ok_0;
    if items.len() == 0 {
        assert(items.take(0) =~= items);
        assert(commands.take(0) =~= commands);
    } else {
        let shorter = commands_of(items.drop_last())->Ok_0;
        if n == items.len() {
            lemma_commands_prefix(items.drop_last(), (n - 1) as nat);
            assert(items.take(n as int) =~= items);
            assert(commands.take(n as int) =~= commands);
        } else {
            lemma_commands_prefix(items.drop_last(), n);
            assert(items.drop_last().take(n as int) =~= items.take(n as int));
            assert(shorter.take(n as int) =~= commands.take(n as int));
        }
    }
}

/// The commands of a script that runs give, up to any of them, the first of its answers.
pub proof fn lemma_answers_prefix(commands: Seq<CommandView>, n: nat)
    requires
        n <= commands.len(),
        run_commands(commands) is Ok,
    ensures
        run_commands(commands.take(n as int)) is Ok,
        ({
            let first = (run_commands(commands.take(n as int))->Ok_0).1;
            let whole = (run_commands(commands)->Ok_0).1;
            first.len() <= whole.len() && first == whole.take(first.len() as int)
        }),
    decreases commands.len(),
{
    let whole = (run_commands(commands)->Ok_0).1;
    if n == commands.len() {
        assert(commands.take(n as int) =~= commands);
        assert(whole.take(whole.len() as int) =~= whole);
    } else {
        let shorter = commands.drop_last();
        lemma_answers_prefix(shorter, n);
        assert(shorter.take(n as int) =~= commands.take(n as int));
        let first = (run_commands(commands.take(n as int))->Ok_0).1;
        let most = (run_commands(shorter)->Ok_0).1;
        assert(most.take(first.len() as int) =~= whole.take(first.len() as int));
    }
}

proof fn lemma_lines_prefix(lines: Seq<Seq<char>>, n: nat)
    requires
        n <= lines.len(),
    ensures
        lines_text(lines.take(n as int)).len() <= lines_text(lines).len(),
        lines_text(lines.take(n as int)) == lines_text(lines).take(
            lines_text(lines.take(n as int)).len() as int,
        ),
    decreases lines.len(),
{
    let first = lines_text(lines.take(n as int));
    if n == lines.len() {
        assert(lines.take(n as int) =~= lines);
        assert(first.take(first.len() as int) =~= first);
    } else {
        let shorter = lines.drop_last();
        lemma_lines_prefix(shorter, n);
        assert(shorter.take(n as int) =~= lines.take(n as int));
        assert(lines_text(shorter).take(first.len() as int) =~= lines_text(lines).take(
            first.len() as int,
        ));
    }
}

/// The output of a script starts with the output of its first lines, where these are complete
/// commands: later commands neither change nor take back an answer.
pub proof fn lemma_output_prefix(
    lines: Seq<char>,
    more: Seq<char>,
    first: Result<String, String>,
    whole: Result<String, String>,
)
    requires
        !overclosed(tokens_of(lines)),
        !unclosed(tokens_of(lines), 0),
        script_result(lines, first),
        script_result(lines + seq!['\n'] + more, whole),
        whole is Ok,
    ensures
        first is Ok,
        first->Ok_0@.len() <= whole->Ok_0@.len(),
        first->Ok_0@ == whole->Ok_0@.take(first->Ok_0@.len() as int),
{
    let script = lines + seq!['\n'] + more;
    lemma_tokens_of_lines(lines, more);
    let items = choose|items: Seq<Form>| #[trigger]
        flat_all(items) == tokens_of(lines) && proper_all(items) && match commands_of(items) {
            Err(error) => first is Err && first->Err_0@ == error,
            Ok(commands) => commands_ran(commands, first),
        };
    let all = choose|all: Seq<Form>| #[trigger]
        flat_all(all) == tokens_of(script) && proper_all(all) && match commands_of(all) {
            Err(error) => whole is Err && whole->Err_0@ == error,
            Ok(commands) => commands_ran(commands, whole),
        };
    lemma_parse_prefix(items, all, tokens_of(more));
    let n = items.len();
    lemma_commands_prefix(all, n);
    let commands = commands_of(all)->Ok_0;
    let start = commands.take(n as int);
    lemma_answers_prefix(commands, n);
    let answers = (run_commands(commands)->Ok_0).1;
    let given = (run_commands(start)->Ok_0).1;
    lemma_lines_prefix(answers, given.len());
}

/// One step of a script: the state after the command, and the text with its line.
pub open spec fn step_taken(
    state: State,
    text: Seq<char>,
    command: CommandView,
    next: State,
    longer: Seq<char>,
) -> bool {
    &&& next_state(state, command) == Ok::<State, Seq<char>>(next)
    &&& exists|line: Option<Seq<char>>| #[trigger]
        line_ok(state, command, line) && longer == text + line_end(line)
}

/// The states and texts that a script goes through, from the start to the last step taken.
pub open spec fn steps_taken(
    plan: Seq<CommandView>,
    states: Seq<State>,
    texts: Seq<Seq<char>>,
) -> bool {
    &&& states.len() == texts.len()
    &&& 1 <= states.len() <= plan.len() + 1
    &&& states[0] == initial_state()
    &&& texts[0] == Seq::<char>::empty()
    &&& forall|i: int|
        0 <= i < states.len() - 1 ==> step_taken(
            #[trigger] states[i],
            texts[i],
            plan[i],
            states[i + 1],
            texts[i + 1],
        )
}

proof fn lemma_steps(plan: Seq<CommandView>, states: Seq<State>, texts: Seq<Seq<char>>, n: nat)
    requires
        clean_commands(plan),
        steps_taken(plan, states, texts),
        n < states.len(),
    ensures
        run_commands(plan.take(n as int)) is Ok,
        (run_commands(plan.take(n as int))->Ok_0).0 == states[n as int],
        texts[n as int] == lines_text((run_commands(plan.take(n as int))->Ok_0).1),
    decreases n,
{
    if n == 0 {
        assert(plan.take(0) =~= Seq::<CommandView>::empty());
    } else {
        let i = n - 1;
        lemma_steps(plan, states, texts, i as nat);
        let now = plan.take(i);
        let next = plan.take(n as int);
        assert(next.drop_last() =~= now);
        assert(next.last() == plan[i]);
        assert(clean_commands(now)) by {
            assert forall|k: int|
                0 <= k < now.len() && (#[trigger] now[k]) is DeclareFun implies !internal(
                now[k]->DeclareFun_name,
            ) by {
                assert(now[k] == plan[k]);
            }
        }
        lemma_clean(now);
        let answers = (run_commands(now)->Ok_0).1;
        assert(step_taken(states[i], texts[i], plan[i], states[i + 1], texts[i + 1]));
        let line = choose|line: Option<Seq<char>>| #[trigger]
            line_ok(states[i], plan[i], line) && texts[n as int] == texts[i] + line_end(line);
        if plan[i] is CheckSat {
            assert(answers.push(verdict(states[i])).drop_last() =~= answers);
        } else {
            assert(texts[i] + Seq::<char>::empty() =~= texts[i]);
        }
    }
}

/// Executing a script command by command gives what running it gives: the same output where every
/// command succeeds, and the error of the first that fails.
pub proof fn lemma_stepping(
    input: Seq<char>,
    items: Seq<Form>,
    states: Seq<State>,
    texts: Seq<Seq<char>>,
    result: Result<String, String>,
)
    requires
        !overclosed(tokens_of(input)),
        !unclosed(tokens_of(input), 0),
        flat_all(items) == tokens_of(input),
        proper_all(items),
        commands_of(items) is Ok,
        steps_taken(commands_of(items)->Ok_0, states, texts),
        ({
            let plan = commands_of(items)->Ok_0;
            if states.len() == plan.len() + 1 {
                result is Ok && result->Ok_0@ == texts.last()
            } else {
                result is Err && next_state(states.last(), plan[states.len() - 1]) == Err::<
                    State,
                    Seq<char>,
                >(result->Err_0@)
            }
        }),
    ensures
        script_result(input, result),
{
    let plan = commands_of(items)->Ok_0;
    let n = (states.len() - 1) as nat;
    lemma_script_clean(input, items);
    lemma_steps(plan, states, texts, n);
    if n == plan.len() {
        assert(plan.take(n as int) =~= plan);
    } else {
        let next = plan.take(n as int + 1);
        assert(next.drop_last() =~= plan.take(n as int));
        assert(next.last() == plan[n as int]);
        lemma_run_error(plan, n as int + 1);
    }
    assert(commands_ran(plan, result));
    assert(flat_all(items) == tokens_of(input));
}

} // verus!
