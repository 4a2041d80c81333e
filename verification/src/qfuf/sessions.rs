//! What a query of a script asks: the assertions that are in force where it stands.

use crate::euf::registry::SortView;
use crate::qfuf::denote::{formula, two_valued, Prop, Sig, Structure};
use crate::qfuf::driver::{frames_hold, frames_satisfiable};
use crate::qfuf::laws::{lemma_answers_prefix, queries};
use crate::qfuf::parser::{command_of, CommandView};
use crate::qfuf::script::{
    asserted, declaration, next_state, run_commands, sorts_named, verdict, State,
};
use crate::qfuf::sexpr::Form;
use crate::text::{unsigned_text, unsigned_value};
use vstd::prelude::*;

verus! {

/// By how much a command changes the number of open scopes.
pub open spec fn scope_change(command: CommandView) -> int {
    match command {
        CommandView::Push(levels) => levels as int,
        CommandView::Pop(levels) => -(levels as int),
        _ => 0,
    }
}

/// How many scopes are open after the first `n` commands.
pub open spec fn depth(commands: Seq<CommandView>, n: nat) -> int
    decreases n,
{
    if n == 0 {
        0
    } else {
        depth(commands, (n - 1) as nat) + scope_change(commands[n - 1])
    }
}

/// Command `i` is an assertion, and the scope that it was made in is still open after the first `n`
/// commands.
pub open spec fn in_force(commands: Seq<CommandView>, i: nat, n: nat) -> bool {
    &&& i < n <= commands.len()
    &&& commands[i as int] is Assert
    &&& forall|k: nat| i < k <= n ==> #[trigger] depth(commands, k) >= depth(commands, i)
}

/// The state after the first `n` commands of a script that runs.
pub open spec fn state_after(commands: Seq<CommandView>, n: nat) -> State {
    (run_commands(commands.take(n as int))->Ok_0).0
}

/// Assertion `i` holds in the structure, its names read as declared before it.
pub open spec fn assertion_holds(commands: Seq<CommandView>, i: nat, s: Structure) -> bool {
    formula(state_after(commands, i).funs, Seq::empty(), commands[i as int]->Assert_0) matches Ok(
        p,
    ) && p(s)
}

/// Every assertion that is in force after the first `n` commands holds in the structure.
pub open spec fn all_in_force_hold(commands: Seq<CommandView>, n: nat, s: Structure) -> bool {
    forall|i: nat| #[trigger] in_force(commands, i, n) ==> assertion_holds(commands, i, s)
}

/// Some two-valued structure satisfies every assertion that is in force after the first `n` commands.
pub open spec fn consistent(commands: Seq<CommandView>, n: nat) -> bool {
    exists|s: Structure| two_valued(s) && #[trigger] all_in_force_hold(commands, n, s)
}

proof fn lemma_step(commands: Seq<CommandView>, n: nat)
    requires
        run_commands(commands) is Ok,
        n < commands.len(),
    ensures
        run_commands(commands.take(n as int)) is Ok,
        run_commands(commands.take(n as int + 1)) is Ok,
        next_state(state_after(commands, n), commands[n as int]) == Ok::<State, Seq<char>>(
            state_after(commands, n + 1),
        ),
        (run_commands(commands.take(n as int + 1))->Ok_0).1 == if commands[n as int] is CheckSat {
            (run_commands(commands.take(n as int))->Ok_0).1.push(
                verdict(state_after(commands, n)),
            )
        } else {
            (run_commands(commands.take(n as int))->Ok_0).1
        },
{
    lemma_answers_prefix(commands, n);
    lemma_answers_prefix(commands, n + 1);
    let more = commands.take(n as int + 1);
    assert(more.drop_last() =~= commands.take(n as int));
    assert(more.last() == commands[n as int]);
}

/// Every formula of a frame holds.
spec fn frame_holds(frame: Seq<Prop>, s: Structure) -> bool {
    forall|j: int| 0 <= j < frame.len() ==> (#[trigger] frame[j])(s)
}

/// The assertions in force of one depth hold.
spec fn level_holds(commands: Seq<CommandView>, n: nat, k: int, s: Structure) -> bool {
    forall|i: nat| #[trigger]
        in_force(commands, i, n) && depth(commands, i) == k ==> assertion_holds(commands, i, s)
}

proof fn lemma_force_step(commands: Seq<CommandView>, i: nat, n: nat)
    requires
        n < commands.len(),
        i < n,
    ensures
        in_force(commands, i, n + 1) <==> in_force(commands, i, n) && depth(commands, n + 1)
            >= depth(commands, i),
{
    if in_force(commands, i, n + 1) {
        assert(depth(commands, n + 1) >= depth(commands, i));
    }
    if in_force(commands, i, n) && depth(commands, n + 1) >= depth(commands, i) {
        assert forall|k: nat| i < k <= n + 1 implies #[trigger] depth(commands, k) >= depth(
            commands,
            i,
        ) by {}
    }
}

proof fn lemma_levels(commands: Seq<CommandView>, n: nat, s: Structure)
    requires
        run_commands(commands) is Ok,
        n <= commands.len(),
    ensures
        depth(commands, n) >= 0,
        state_after(commands, n).frames.len() == depth(commands, n) + 1,
        forall|k: int|
            0 <= k <= depth(commands, n) ==> #[trigger] frame_holds(
                state_after(commands, n).frames[k],
                s,
            ) == level_holds(commands, n, k, s),
    decreases n,
{
    if n == 0 {
        assert(commands.take(0) =~= Seq::<CommandView>::empty());
    } else {
        let m = (n - 1) as nat;
        lemma_levels(commands, m, s);
        lemma_step(commands, m);
        let before = state_after(commands, m).frames;
        let after = state_after(commands, n).frames;
        let command = commands[m as int];
        assert forall|i: nat| #[trigger] in_force(commands, i, n) && i < m implies in_force(
            commands,
            i,
            m,
        ) && depth(commands, n) >= depth(commands, i) by {
            lemma_force_step(commands, i, m);
        }
        assert forall|i: nat| #[trigger] in_force(commands, i, m) && depth(commands, n) >= depth(
            commands,
            i,
        ) implies in_force(commands, i, n) by {
            lemma_force_step(commands, i, m);
        }
        assert forall|i: nat| #[trigger] in_force(commands, i, m) implies depth(commands, m)
            >= depth(commands, i) by {}
        assert forall|k: int| 0 <= k <= depth(commands, n) implies #[trigger] frame_holds(
            after[k],
            s,
        ) == level_holds(commands, n, k, s) by {
            if command is Assert {
                let p = formula(
                    state_after(commands, m).funs,
                    Seq::empty(),
                    command->Assert_0,
                )->Ok_0;
                assert(after == asserted(before, p));
                assert(frame_holds(before[k], s) == level_holds(commands, m, k, s));
                assert(in_force(commands, m, n)) by {
                    assert forall|x: nat| m < x <= n implies #[trigger] depth(commands, x)
                        >= depth(commands, m) by {}
                }
                if k == depth(commands, m) {
                    assert(after[k] == before[k].push(p));
                    if frame_holds(after[k], s) {
                        assert(after[k][before[k].len() as int](s));
                        assert forall|j: int| 0 <= j < before[k].len() implies (
                        #[trigger] before[k][j])(s) by {
                            assert(after[k][j](s));
                        }
                        assert forall|i: nat| #[trigger]
                            in_force(commands, i, n) && depth(commands, i)
                                == k implies assertion_holds(commands, i, s) by {}
                    }
                    if level_holds(commands, n, k, s) {
                        assert(assertion_holds(commands, m, s));
                        assert(level_holds(commands, m, k, s));
                        assert forall|j: int| 0 <= j < after[k].len() implies (
                        #[trigger] after[k][j])(s) by {
                            if j < before[k].len() {
                                assert(before[k][j](s));
                            }
                        }
                    }
                } else {
                    assert(after[k] == before[k]);
                    assert(level_holds(commands, n, k, s) == level_holds(commands, m, k, s));
                }
            } else {
                if k < before.len() {
                    assert(after[k] == before[k]);
                    assert(frame_holds(before[k], s) == level_holds(commands, m, k, s));
                    if level_holds(commands, n, k, s) {
                        assert(level_holds(commands, m, k, s));
                    }
                    if level_holds(commands, m, k, s) {
                        assert forall|i: nat| #[trigger]
                            in_force(commands, i, n) && depth(commands, i)
                                == k implies assertion_holds(commands, i, s) by {}
                    }
                } else {
                    assert(after[k].len() == 0);
                }
            }
        }
    }
}

/// At every point of a script that runs, what is asserted is exactly the assertions in force, and the
/// number of open scopes is the levels pushed less the levels popped.
pub proof fn lemma_asserted_in_force(commands: Seq<CommandView>, n: nat, s: Structure)
    requires
        run_commands(commands) is Ok,
        n <= commands.len(),
    ensures
        depth(commands, n) >= 0,
        state_after(commands, n).frames.len() == depth(commands, n) + 1,
        frames_hold(state_after(commands, n).frames, s) <==> all_in_force_hold(commands, n, s),
{
    lemma_levels(commands, n, s);
    let frames = state_after(commands, n).frames;
    if frames_hold(frames, s) {
        assert forall|i: nat| #[trigger] in_force(commands, i, n) implies assertion_holds(
            commands,
            i,
            s,
        ) by {
            lemma_levels(commands, i, s);
            let k = depth(commands, i);
            assert(depth(commands, n) >= k);
            assert(frame_holds(frames[k], s)) by {
                assert forall|j: int| 0 <= j < frames[k].len() implies (#[trigger] frames[k][j])(
                    s,
                ) by {}
            }
            assert(level_holds(commands, n, k, s));
        }
    }
    if all_in_force_hold(commands, n, s) {
        assert forall|k: int, j: int| 0 <= k < frames.len() && 0 <= j < frames[k].len() implies (
        #[trigger] frames[k][j])(s) by {
            assert(level_holds(commands, n, k, s));
            assert(frame_holds(frames[k], s));
        }
    }
}

/// A query is answered `sat` exactly when some structure satisfies every assertion that is in force
/// where the query stands, and `unsat` otherwise.
pub proof fn lemma_query_answered(commands: Seq<CommandView>, n: nat)
    requires
        run_commands(commands) is Ok,
        n < commands.len(),
        commands[n as int] is CheckSat,
    ensures
        ({
            let answers = (run_commands(commands)->Ok_0).1;
            let q = queries(commands.take(n as int));
            &&& q < answers.len()
            &&& answers[q as int] == if consistent(commands, n) {
                "sat"@
            } else {
                "unsat"@
            }
        }),
{
    lemma_step(commands, n);
    lemma_answers_prefix(commands, n + 1);
    crate::qfuf::laws::lemma_one_answer_each(commands.take(n as int));
    let frames = state_after(commands, n).frames;
    if frames_satisfiable(frames) {
        let s = choose|s: Structure| two_valued(s) && #[trigger] frames_hold(frames, s);
        lemma_asserted_in_force(commands, n, s);
        assert(all_in_force_hold(commands, n, s));
    }
    if consistent(commands, n) {
        let s = choose|s: Structure| two_valued(s) && #[trigger] all_in_force_hold(commands, n, s);
        lemma_asserted_in_force(commands, n, s);
        assert(frames_hold(frames, s));
    }
    let answers = (run_commands(commands)->Ok_0).1;
    let first = (run_commands(commands.take(n as int + 1))->Ok_0).1;
    let q = queries(commands.take(n as int));
    assert(first[q as int] == answers[q as int]);
}

/// After commands that run, a pop is refused exactly when it asks for more levels than are open, and
/// an assertion exactly when its expression is no formula over what is declared by then.
pub proof fn lemma_refusals(commands: Seq<CommandView>, command: CommandView)
    requires
        run_commands(commands) is Ok,
    ensures
        command is Pop ==> (run_commands(commands.push(command)) is Err <==> command->Pop_0 > depth(
            commands,
            commands.len(),
        )),
        command is Assert ==> (run_commands(commands.push(command)) is Err <==> formula(
            state_after(commands, commands.len()).funs,
            Seq::empty(),
            command->Assert_0,
        ) is Err),
        command is Push || command is CheckSat || command is Exit || command is SetInfo
            || command is DeclareSort ==> run_commands(commands.push(command)) is Ok,
        command is SetLogic ==> (run_commands(commands.push(command)) is Err <==> command->SetLogic_0
            != "QF_UF"@),
{
    let more = commands.push(command);
    assert(more.drop_last() =~= commands);
    assert(commands.take(commands.len() as int) =~= commands);
    lemma_levels(commands, commands.len(), |sig: Sig, values: Seq<int>| 0int);
}

/// Command `i` declares the function symbol.
pub open spec fn declares(commands: Seq<CommandView>, i: nat, name: Seq<char>) -> bool {
    &&& i < commands.len()
    &&& commands[i as int] matches CommandView::DeclareFun { name: declared, .. } && declared == name
}

/// A sort of this name is declared before command `n`.
pub open spec fn sort_known(commands: Seq<CommandView>, n: nat, name: Seq<char>) -> bool {
    name == "Bool"@ || exists|i: nat|
        i < n && #[trigger] commands[i as int] == (CommandView::DeclareSort { name })
}

/// The sort of this name.
pub open spec fn sort_of(name: Seq<char>) -> SortView {
    if name == "Bool"@ {
        SortView::Bool
    } else {
        SortView::Named(name)
    }
}

proof fn lemma_sorts_declared(commands: Seq<CommandView>, n: nat, name: Seq<char>)
    requires
        run_commands(commands) is Ok,
        n <= commands.len(),
    ensures
        state_after(commands, n).sorts.contains(name) <==> exists|i: nat|
            i < n && #[trigger] commands[i as int] == (CommandView::DeclareSort { name }),
    decreases n,
{
    if n == 0 {
        assert(commands.take(0) =~= Seq::<CommandView>::empty());
    } else {
        let m = (n - 1) as nat;
        lemma_sorts_declared(commands, m, name);
        lemma_step(commands, m);
        if state_after(commands, n).sorts.contains(name) && !state_after(commands, m).sorts.contains(
            name,
        ) {
            assert(commands[m as int] == (CommandView::DeclareSort { name }));
        }
    }
}

proof fn lemma_sort_names(sorts: Set<Seq<char>>, names: Seq<Seq<char>>, n: nat)
    requires
        n <= names.len(),
    ensures
        sorts_named(sorts, names, n) is Ok <==> forall|k: int|
            0 <= k < n ==> (#[trigger] names[k]) == "Bool"@ || sorts.contains(names[k]),
        sorts_named(sorts, names, n) matches Ok(list) ==> list.len() == n && forall|k: int|
            0 <= k < n ==> #[trigger] list[k] == sort_of(names[k]),
    decreases n,
{
    if n > 0 {
        lemma_sort_names(sorts, names, (n - 1) as nat);
    }
}

/// A function declaration is refused exactly when one of its sorts is not known by then, or its
/// arguments outnumber what an arity can hold.
pub proof fn lemma_declaration_refused(commands: Seq<CommandView>, command: CommandView)
    requires
        run_commands(commands) is Ok,
        command is DeclareFun,
    ensures
        run_commands(commands.push(command)) is Ok <==> {
            &&& forall|k: int|
                0 <= k < command->DeclareFun_args.len() ==> sort_known(
                    commands,
                    commands.len(),
                    #[trigger] command->DeclareFun_args[k],
                )
            &&& sort_known(commands, commands.len(), command->DeclareFun_result)
            &&& command->DeclareFun_args.len() <= u32::MAX
        },
{
    let more = commands.push(command);
    let n = commands.len();
    assert(more.drop_last() =~= commands);
    assert(commands.take(n as int) =~= commands);
    let args = command->DeclareFun_args;
    let sorts = state_after(commands, n).sorts;
    lemma_sort_names(sorts, args, args.len());
    lemma_sorts_declared(commands, n, command->DeclareFun_result);
    assert forall|k: int| 0 <= k < args.len() implies sort_known(commands, n, #[trigger] args[k])
        == (args[k] == "Bool"@ || sorts.contains(args[k])) by {
        lemma_sorts_declared(commands, n, args[k]);
    }
}

/// A symbol is declared where some earlier command declares it, with the sorts that the last such
/// command names.
pub proof fn lemma_declared(commands: Seq<CommandView>, n: nat, name: Seq<char>, i: nat)
    requires
        run_commands(commands) is Ok,
        n <= commands.len(),
    ensures
        state_after(commands, n).funs.contains_key(name) <==> exists|j: nat|
            j < n && #[trigger] declares(commands, j, name),
        declares(commands, i, name) && i < n && (forall|j: nat|
            i < j < n ==> !#[trigger] declares(commands, j, name)) ==> {
            let sig = state_after(commands, n).funs[name];
            let args = commands[i as int]->DeclareFun_args;
            &&& sig.name == name
            &&& sig.args.len() == args.len()
            &&& forall|k: int| 0 <= k < args.len() ==> #[trigger] sig.args[k] == sort_of(args[k])
            &&& sig.result == sort_of(commands[i as int]->DeclareFun_result)
        },
    decreases n,
{
    if n == 0 {
        assert(commands.take(0) =~= Seq::<CommandView>::empty());
    } else {
        let m = (n - 1) as nat;
        lemma_declared(commands, m, name, i);
        lemma_step(commands, m);
        if declares(commands, m, name) {
            let args = commands[m as int]->DeclareFun_args;
            lemma_sort_names(state_after(commands, m).sorts, args, args.len());
        }
        if declares(commands, i, name) && i < n && (forall|j: nat|
            i < j < n ==> !#[trigger] declares(commands, j, name)) {
            if i < m {
                assert(!declares(commands, m, name));
            }
        }
    }
}

/// The atom of a text.
pub open spec fn atom(text: Seq<char>) -> Form {
    Form::Atom(text)
}

/// The form that a command is written as. `levels` is the decimal text of the levels that it pushes or
/// pops.
pub open spec fn command_form(command: CommandView, levels: Seq<char>) -> Form {
    match command {
        CommandView::SetLogic(logic) => Form::List(seq![atom("set-logic"@), atom(logic)]),
        CommandView::SetInfo => Form::List(seq![atom("set-info"@)]),
        CommandView::DeclareSort { name } => Form::List(
            seq![atom("declare-sort"@), atom(name), atom("0"@)],
        ),
        CommandView::DeclareFun { name, args, result } => Form::List(
            seq![
                atom("declare-fun"@),
                atom(name),
                Form::List(args.map_values(|text: Seq<char>| atom(text))),
                atom(result),
            ],
        ),
        CommandView::Assert(form) => Form::List(seq![atom("assert"@), form]),
        CommandView::Push(_) => Form::List(seq![atom("push"@), atom(levels)]),
        CommandView::Pop(_) => Form::List(seq![atom("pop"@), atom(levels)]),
        CommandView::CheckSat => Form::List(seq![atom("check-sat"@)]),
        CommandView::Exit => Form::List(seq![atom("exit"@)]),
    }
}

/// The text is a decimal number of the levels that the command pushes or pops.
pub open spec fn levels_text(command: CommandView, levels: Seq<char>) -> bool {
    match command {
        CommandView::Push(n) => unsigned_text(levels) && unsigned_value(levels) == n,
        CommandView::Pop(n) => unsigned_text(levels) && unsigned_value(levels) == n,
        _ => true,
    }
}

proof fn lemma_command_heads()
    ensures
        "set-logic"@ != "set-info"@,
        "declare-sort"@ != "declare-fun"@,
        "declare-sort"@ != "declare-const"@,
        "declare-fun"@ != "declare-const"@,
        "push"@ != "pop"@,
        forall|i: int, j: int|
            0 <= i < j < 10 ==> #[trigger] command_heads()[i] != #[trigger] command_heads()[j],
{
    reveal_strlit("set-logic");
    reveal_strlit("set-info");
    reveal_strlit("declare-sort");
    reveal_strlit("declare-fun");
    reveal_strlit("declare-const");
    reveal_strlit("assert");
    reveal_strlit("push");
    reveal_strlit("pop");
    reveal_strlit("check-sat");
    reveal_strlit("exit");
    let h = command_heads();
    assert(h[0].len() == 9 && h[1].len() == 8 && h[2].len() == 12 && h[3].len() == 11 && h[4].len()
        == 13 && h[5].len() == 6 && h[6].len() == 4 && h[7].len() == 3 && h[8].len() == 9
        && h[9].len() == 4);
    assert(h[0][0] == 's' && h[8][0] == 'c' && h[6][0] == 'p' && h[9][0] == 'e');
}

/// The words that commands start with.
spec fn command_heads() -> Seq<Seq<char>> {
    seq![
        "set-logic"@,
        "set-info"@,
        "declare-sort"@,
        "declare-fun"@,
        "declare-const"@,
        "assert"@,
        "push"@,
        "pop"@,
        "check-sat"@,
        "exit"@,
    ]
}

/// Every command is read back from the form that it is written as; a constant's declaration is that of a
/// function without arguments.
pub proof fn lemma_command_read_back(command: CommandView, levels: Seq<char>)
    requires
        levels_text(command, levels),
    ensures
        command_of(command_form(command, levels)) == Ok::<CommandView, Seq<char>>(command),
        command matches CommandView::DeclareFun { name, args, result } ==> args.len() == 0
            ==> command_of(Form::List(seq![atom("declare-const"@), atom(name), atom(result)])) == Ok::<
            CommandView,
            Seq<char>,
        >(command),
{
    lemma_command_heads();
    let h = command_heads();
    assert(h[0] == "set-logic"@ && h[1] == "set-info"@ && h[2] == "declare-sort"@ && h[3]
        == "declare-fun"@ && h[4] == "declare-const"@ && h[5] == "assert"@ && h[6] == "push"@ && h[7]
        == "pop"@ && h[8] == "check-sat"@ && h[9] == "exit"@);
    match command {
        CommandView::DeclareFun { name, args, result } => {
            let list = args.map_values(|text: Seq<char>| atom(text));
            let back = list.map_values(|f: Form| crate::qfuf::parser::atom_text(f));
            assert(back =~= args);
            if args.len() == 0 {
                assert(args =~= Seq::empty());
            }
        },
        _ => {},
    }
}

} // verus!
