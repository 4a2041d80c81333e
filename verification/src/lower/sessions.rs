//! What a query of a session asks: the assertions that are in force where it stands.

use crate::lower::command::{command_of, CommandView, SolverError};
use crate::lower::denote::{claim, Claim, Definition, Model, Names};
use crate::lower::search::SatResult;
use crate::lower::solver::{
    asserted_claim, defined, handled, stack_holds, stack_satisfiable, with_claim, Solver,
    SolverEvent, State, MAX_DEPTH,
};
use crate::qfuf::sexpr::Form;
use crate::text::{unsigned_text, unsigned_value};
use vstd::prelude::*;

verus! {

/// A solver handles commands one after another, from the start, and refuses none.
pub open spec fn session(
    states: Seq<Solver>,
    commands: Seq<CommandView>,
    results: Seq<Result<SolverEvent, SolverError>>,
) -> bool {
    &&& states.len() == commands.len() + 1
    &&& results.len() == commands.len()
    &&& states[0].state().definitions == Map::<Seq<char>, Definition>::empty()
    &&& states[0].state().stack == seq![Seq::<Claim>::empty()]
    &&& forall|i: int|
        0 <= i < commands.len() ==> (#[trigger] results[i]) is Ok && handled(
            &states[i],
            &states[i + 1],
            commands[i],
            results[i],
        )
}

/// By how much a command changes the number of open frames.
pub open spec fn scope_change(command: CommandView) -> int {
    match command {
        CommandView::Push(amount) => amount as int,
        CommandView::Pop(amount) => -(amount as int),
        _ => 0,
    }
}

/// How many frames are open after the first `n` commands.
pub open spec fn depth(commands: Seq<CommandView>, n: nat) -> int
    decreases n,
{
    if n == 0 {
        0
    } else {
        depth(commands, (n - 1) as nat) + scope_change(commands[n - 1])
    }
}

/// Command `i` is an assertion, and the frame that it was made in is still open after the first `n`
/// commands.
pub open spec fn in_force(commands: Seq<CommandView>, i: nat, n: nat) -> bool {
    &&& i < n <= commands.len()
    &&& commands[i as int] is Assert
    &&& forall|k: nat| i < k <= n ==> #[trigger] depth(commands, k) >= depth(commands, i)
}

/// Assertion `i` holds in the model, its names read as defined before it.
pub open spec fn assertion_holds(
    states: Seq<Solver>,
    commands: Seq<CommandView>,
    i: nat,
    model: Model,
) -> bool {
    asserted_claim(states[i as int].state(), commands[i as int]->Assert_0) matches Ok(p) && p(model)
}

/// Every assertion that is in force after the first `n` commands holds in the model.
pub open spec fn all_in_force_hold(
    states: Seq<Solver>,
    commands: Seq<CommandView>,
    n: nat,
    model: Model,
) -> bool {
    forall|i: nat| #[trigger]
        in_force(commands, i, n) ==> assertion_holds(states, commands, i, model)
}

/// Some model satisfies every assertion that is in force after the first `n` commands.
pub open spec fn consistent(states: Seq<Solver>, commands: Seq<CommandView>, n: nat) -> bool {
    exists|model: Model| #[trigger] all_in_force_hold(states, commands, n, model)
}

/// Every claim of a frame holds.
spec fn frame_holds(frame: Seq<Claim>, model: Model) -> bool {
    forall|j: int| 0 <= j < frame.len() ==> (#[trigger] frame[j])(model)
}

/// The assertions in force of one depth hold.
spec fn level_holds(
    states: Seq<Solver>,
    commands: Seq<CommandView>,
    n: nat,
    k: int,
    model: Model,
) -> bool {
    forall|i: nat| #[trigger]
        in_force(commands, i, n) && depth(commands, i) == k ==> assertion_holds(
            states,
            commands,
            i,
            model,
        )
}

proof fn lemma_force_step(commands: Seq<CommandView>, i: nat, n: nat)
    requires
        n < commands.len(),
        i < n,
    ensures
        in_force(commands, i, n + 1) <==> in_force(commands, i, n) && depth(commands, n + 1)
            >= depth(commands, i),
{
    if in_force(commands, i, n + 1) {
        assert(depth(commands, n + 1) >= depth(commands, i));
    }
    if in_force(commands, i, n) && depth(commands, n + 1) >= depth(commands, i) {
        assert forall|k: nat| i < k <= n + 1 implies #[trigger] depth(commands, k) >= depth(
            commands,
            i,
        ) by {}
    }
}

proof fn lemma_levels(
    states: Seq<Solver>,
    commands: Seq<CommandView>,
    results: Seq<Result<SolverEvent, SolverError>>,
    n: nat,
    model: Model,
)
    requires
        session(states, commands, results),
        n <= commands.len(),
    ensures
        depth(commands, n) >= 0,
        states[n as int].state().stack.len() == depth(commands, n) + 1,
        forall|k: int|
            0 <= k <= depth(commands, n) ==> #[trigger] frame_holds(
                states[n as int].state().stack[k],
                model,
            ) == level_holds(states, commands, n, k, model),
    decreases n,
{
    if n > 0 {
        let m = (n - 1) as nat;
        lemma_levels(states, commands, results, m, model);
        assert(results[m as int] is Ok);
        let before = states[m as int].state().stack;
        let after = states[n as int].state().stack;
        let command = commands[m as int];
        assert(handled(&states[m as int], &states[n as int], command, results[m as int]));
        assert forall|i: nat| #[trigger] in_force(commands, i, n) && i < m implies in_force(
            commands,
            i,
            m,
        ) && depth(commands, n) >= depth(commands, i) by {
            lemma_force_step(commands, i, m);
        }
        assert forall|i: nat| #[trigger] in_force(commands, i, m) && depth(commands, n) >= depth(
            commands,
            i,
        ) implies in_force(commands, i, n) by {
            lemma_force_step(commands, i, m);
        }
        assert forall|i: nat| #[trigger] in_force(commands, i, m) implies depth(commands, m)
            >= depth(commands, i) by {}
        assert forall|k: int| 0 <= k <= depth(commands, n) implies #[trigger] frame_holds(
            after[k],
            model,
        ) == level_holds(states, commands, n, k, model) by {
            if command is Assert {
                let p = asserted_claim(states[m as int].state(), command->Assert_0)->Ok_0;
                assert(after == with_claim(before, p));
                assert(frame_holds(before[k], model) == level_holds(states, commands, m, k, model));
                assert(in_force(commands, m, n)) by {
                    assert forall|x: nat| m < x <= n implies #[trigger] depth(commands, x)
                        >= depth(commands, m) by {}
                }
                if k == depth(commands, m) {
                    assert(after[k] == before[k].push(p));
                    if frame_holds(after[k], model) {
                        assert(after[k][before[k].len() as int](model));
                        assert forall|j: int| 0 <= j < before[k].len() implies (
                        #[trigger] before[k][j])(model) by {
                            assert(after[k][j](model));
                        }
                        assert forall|i: nat| #[trigger]
                            in_force(commands, i, n) && depth(commands, i)
                                == k implies assertion_holds(states, commands, i, model) by {}
                    }
                    if level_holds(states, commands, n, k, model) {
                        assert(assertion_holds(states, commands, m, model));
                        assert(level_holds(states, commands, m, k, model));
                        assert forall|j: int| 0 <= j < after[k].len() implies (
                        #[trigger] after[k][j])(model) by {
                            if j < before[k].len() {
                                assert(before[k][j](model));
                            }
                        }
                    }
                } else {
                    assert(after[k] == before[k]);
                    assert(level_holds(states, commands, n, k, model) == level_holds(
                        states,
                        commands,
                        m,
                        k,
                        model,
                    ));
                }
            } else {
                if k < before.len() {
                    assert(after[k] == before[k]);
                    assert(frame_holds(before[k], model) == level_holds(
                        states,
                        commands,
                        m,
                        k,
                        model,
                    ));
                    if level_holds(states, commands, n, k, model) {
                        assert(level_holds(states, commands, m, k, model));
                    }
                    if level_holds(states, commands, m, k, model) {
                        assert forall|i: nat| #[trigger]
                            in_force(commands, i, n) && depth(commands, i)
                                == k implies assertion_holds(states, commands, i, model) by {}
                    }
                } else {
                    assert(after[k].len() == 0);
                }
            }
        }
    } else {
        assert(states[0].state().stack[0].len() == 0);
    }
}

/// At every point of a session, what is asserted is exactly the assertions in force, and the number of
/// open frames is the frames pushed less the frames popped.
pub proof fn lemma_asserted_in_force(
    states: Seq<Solver>,
    commands: Seq<CommandView>,
    results: Seq<Result<SolverEvent, SolverError>>,
    n: nat,
    model: Model,
)
    requires
        session(states, commands, results),
        n <= commands.len(),
    ensures
        depth(commands, n) >= 0,
        states[n as int].state().stack.len() == depth(commands, n) + 1,
        stack_holds(states[n as int].state().stack, model) <==> all_in_force_hold(
            states,
            commands,
            n,
            model,
        ),
{
    lemma_levels(states, commands, results, n, model);
    let stack = states[n as int].state().stack;
    if stack_holds(stack, model) {
        assert forall|i: nat| #[trigger] in_force(commands, i, n) implies assertion_holds(
            states,
            commands,
            i,
            model,
        ) by {
            lemma_levels(states, commands, results, i, model);
            let k = depth(commands, i);
            assert(depth(commands, n) >= k);
            assert(frame_holds(stack[k], model)) by {
                assert forall|j: int| 0 <= j < stack[k].len() implies (#[trigger] stack[k][j])(
                    model,
                ) by {}
            }
            assert(level_holds(states, commands, n, k, model));
        }
    }
    if all_in_force_hold(states, commands, n, model) {
        assert forall|k: int, j: int| 0 <= k < stack.len() && 0 <= j < stack[k].len() implies (
        #[trigger] stack[k][j])(model) by {
            assert(level_holds(states, commands, n, k, model));
            assert(frame_holds(stack[k], model));
        }
    }
}

/// A query that is not interrupted is answered `sat` exactly when some model satisfies every assertion
/// that is in force where the query stands, and `unsat` otherwise.
pub proof fn lemma_query_answered(
    states: Seq<Solver>,
    commands: Seq<CommandView>,
    results: Seq<Result<SolverEvent, SolverError>>,
    n: nat,
)
    requires
        session(states, commands, results),
        n < commands.len(),
        commands[n as int] is CheckSat,
    ensures
        results[n as int] matches Ok(SolverEvent::CheckSat(answer)) && (answer
            != SatResult::Interrupted ==> answer == if consistent(states, commands, n) {
            SatResult::Sat
        } else {
            SatResult::Unsat
        }),
{
    assert(results[n as int] is Ok);
    assert(handled(
        &states[n as int],
        &states[n as int + 1],
        commands[n as int],
        results[n as int],
    ));
    let stack = states[n as int].state().stack;
    if stack_satisfiable(stack) {
        let model = choose|model: Model| #[trigger] stack_holds(stack, model);
        lemma_asserted_in_force(states, commands, results, n, model);
        assert(all_in_force_hold(states, commands, n, model));
    }
    if consistent(states, commands, n) {
        let model = choose|model: Model| #[trigger] all_in_force_hold(states, commands, n, model);
        lemma_asserted_in_force(states, commands, results, n, model);
        assert(stack_holds(stack, model));
    }
}

/// Command `i` defines the name.
pub open spec fn defines(commands: Seq<CommandView>, i: nat, name: Seq<char>) -> bool {
    &&& i < commands.len()
    &&& commands[i as int] matches CommandView::DefineFun { name: given, .. } && given == name
}

/// A name is defined where some earlier command defines it, as what the last such command's body meant
/// there; closing a frame takes no definition back.
pub proof fn lemma_definitions(
    states: Seq<Solver>,
    commands: Seq<CommandView>,
    results: Seq<Result<SolverEvent, SolverError>>,
    n: nat,
    name: Seq<char>,
    i: nat,
)
    requires
        session(states, commands, results),
        n <= commands.len(),
    ensures
        states[n as int].state().definitions.contains_key(name) <==> exists|j: nat|
            j < n && #[trigger] defines(commands, j, name),
        i < n && defines(commands, i, name) && (forall|j: nat|
            i < j < n ==> !#[trigger] defines(commands, j, name)) ==> Ok::<Definition, Seq<char>>(
            states[n as int].state().definitions[name],
        ) == defined(
            states[i as int].state(),
            name,
            commands[i as int]->binders.len(),
            commands[i as int]->boolean,
            commands[i as int]->body,
        ),
    decreases n,
{
    if n > 0 {
        let m = (n - 1) as nat;
        lemma_definitions(states, commands, results, m, name, i);
        assert(results[m as int] is Ok);
        assert(handled(
            &states[m as int],
            &states[n as int],
            commands[m as int],
            results[m as int],
        ));
        if states[n as int].state().definitions.contains_key(name)
            && !states[m as int].state().definitions.contains_key(name) {
            assert(defines(commands, m, name));
        }
        if i < n && defines(commands, i, name) && (forall|j: nat|
            i < j < n ==> !#[trigger] defines(commands, j, name)) {
            if i < m {
                assert(!defines(commands, m, name));
            }
        }
    }
}

/// Frames are closed from the innermost on. A pop of more frames than are open is refused, and closes
/// them all; what was asserted outside of them stays.
pub proof fn lemma_pop_closes(
    s: &Solver,
    new: &Solver,
    amount: u32,
    result: Result<SolverEvent, SolverError>,
)
    requires
        s.state().stack.len() > 0,
        handled(s, new, CommandView::Pop(amount), result),
    ensures
        result is Err <==> amount > s.state().stack.len() - 1,
        forall|i: int|
            0 <= i < new.state().stack.len() ==> #[trigger] new.state().stack[i]
                == s.state().stack[i],
        result is Ok ==> new.state().stack.len() + amount == s.state().stack.len(),
        result is Err ==> new.state().stack.len() == 1,
        new.state().definitions == s.state().definitions,
{
}

/// The atom of a text.
pub open spec fn atom(text: Seq<char>) -> Form {
    Form::Atom(text)
}

/// The text is a decimal number of frames.
pub open spec fn amount_text(text: Seq<char>, amount: u32) -> bool {
    unsigned_text(text) && unsigned_value(text) == amount
}

proof fn lemma_command_heads()
    ensures
        forall|i: int, j: int|
            0 <= i < j < 11 ==> #[trigger] command_heads()[i] != #[trigger] command_heads()[j],
{
    reveal_strlit("set-logic");
    reveal_strlit("set-info");
    reveal_strlit("set-option");
    reveal_strlit("declare-sort");
    reveal_strlit("declare-fun");
    reveal_strlit("declare-const");
    reveal_strlit("define-fun");
    reveal_strlit("assert");
    reveal_strlit("push");
    reveal_strlit("pop");
    reveal_strlit("check-sat");
    reveal_strlit("exit");
    let h = command_heads();
    assert(h[0].len() == 9 && h[1].len() == 8 && h[2].len() == 10 && h[3].len() == 12 && h[4].len()
        == 11 && h[5].len() == 13 && h[6].len() == 10 && h[7].len() == 6 && h[8].len() == 4
        && h[9].len() == 3 && h[10].len() == 9);
    assert(h[0][0] == 's' && h[10][0] == 'c' && h[2][0] == 's' && h[6][0] == 'd' && h[8][0] == 'p');
    assert("exit"@.len() == 4 && "exit"@[0] == 'e');
}

/// The words that commands start with, but for the last.
spec fn command_heads() -> Seq<Seq<char>> {
    seq![
        "set-logic"@,
        "set-info"@,
        "set-option"@,
        "declare-sort"@,
        "declare-fun"@,
        "declare-const"@,
        "define-fun"@,
        "assert"@,
        "push"@,
        "pop"@,
        "check-sat"@,
    ]
}

/// Every command that changes or asks something is read back from the form that it is written as. Frames
/// are opened and closed one at a time where no number is given.
pub proof fn lemma_command_read_back(
    name: Seq<char>,
    binders: Seq<Form>,
    sort: Form,
    body: Form,
    amount: u32,
    text: Seq<char>,
)
    requires
        amount_text(text, amount),
    ensures
        command_of(
            Form::List(
                seq![atom("define-fun"@), atom(name), Form::List(binders), sort, body],
            ),
        ) == Ok::<CommandView, Seq<char>>(
            CommandView::DefineFun {
                name,
                binders,
                result: sort,
                boolean: sort == atom("Bool"@),
                body,
            },
        ),
        command_of(Form::List(seq![atom("assert"@), body])) == Ok::<CommandView, Seq<char>>(
            CommandView::Assert(body),
        ),
        command_of(Form::List(seq![atom("push"@), atom(text)])) == Ok::<CommandView, Seq<char>>(
            CommandView::Push(amount),
        ),
        command_of(Form::List(seq![atom("pop"@), atom(text)])) == Ok::<CommandView, Seq<char>>(
            CommandView::Pop(amount),
        ),
        command_of(Form::List(seq![atom("push"@)])) == Ok::<CommandView, Seq<char>>(
            CommandView::Push(1),
        ),
        command_of(Form::List(seq![atom("pop"@)])) == Ok::<CommandView, Seq<char>>(
            CommandView::Pop(1),
        ),
        command_of(Form::List(seq![atom("check-sat"@)])) == Ok::<CommandView, Seq<char>>(
            CommandView::CheckSat,
        ),
        command_of(Form::List(seq![atom("exit"@)])) == Ok::<CommandView, Seq<char>>(
            CommandView::Exit,
        ),
{
    lemma_command_heads();
    let h = command_heads();
    assert(h[0] == "set-logic"@ && h[1] == "set-info"@ && h[2] == "set-option"@ && h[3]
        == "declare-sort"@ && h[4] == "declare-fun"@ && h[5] == "declare-const"@ && h[6]
        == "define-fun"@ && h[7] == "assert"@ && h[8] == "push"@ && h[9] == "pop"@ && h[10]
        == "check-sat"@);
    assert("exit"@ != h[8] && "exit"@.len() == 4) by {
        reveal_strlit("exit");
        reveal_strlit("push");
        assert("exit"@[0] == 'e' && "push"@[0] == 'p');
    }
    assert(h[0].len() == 9 && h[1].len() == 8 && h[2].len() == 10 && h[3].len() == 12 && h[4].len()
        == 11 && h[5].len() == 13 && h[6].len() == 10 && h[7].len() == 6 && h[9].len() == 3
        && h[10].len() == 9) by {
        reveal_strlit("set-logic");
        reveal_strlit("set-info");
        reveal_strlit("set-option");
        reveal_strlit("declare-sort");
        reveal_strlit("declare-fun");
        reveal_strlit("declare-const");
        reveal_strlit("define-fun");
        reveal_strlit("assert");
        reveal_strlit("pop");
        reveal_strlit("check-sat");
    }
}

/// Only definitions without parameters are accepted. One of sort `Bool` defines a formula, any other a
/// term, and none is its own name.
pub proof fn lemma_definition(state: State, name: Seq<char>, arity: nat, boolean: bool, body: Form)
    ensures
        arity != 0 ==> defined(state, name, arity, boolean, body) is Err,
        defined(state, name, arity, boolean, body) matches Ok(value) ==> (value is Formula
            <==> boolean),
        body == atom(name) && (boolean || name != "true"@ && name != "false"@) ==> defined(
            state,
            name,
            arity,
            boolean,
            body,
        ) is Err,
{
    if body == atom(name) {
        let names = Names { definitions: state.definitions, active: seq![name] };
        assert(names.active[0] == name);
        assert(names.active.contains(name));
        assert(MAX_DEPTH > 0);
        assert(claim(names, Map::empty(), body, MAX_DEPTH as nat) is Err);
    }
}

} // verus!
