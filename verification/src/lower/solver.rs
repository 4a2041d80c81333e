//! The incremental solver: definitions, assertions, frames and queries.

use crate::batch::{supply_of, Batch};
use crate::effort::metered;
use crate::euf_core::{CheckBudget, UnlimitedBudget};
use crate::lower::backend::{
    lemma_denotes_grow, node_denotes, nodes_kept, value_claims, value_true, Entry, Fault,
};
use crate::lower::budget::{lemma_batched, units, QUANTUM};
use crate::lower::command::{
    bool_sort, is_bool_sort, Command, CommandView, DefineFun, SolverError,
};
use crate::lower::context::{definition_ok, LowerContext, LoweredDefinitionValue};
use crate::lower::cost::charged;
use crate::lower::denote::{claim, quantity, Claim, Definition, Model, Names};
use crate::lower::encode::guard_key;
use crate::lower::frames::{
    ActivationLiteral, AssertedFormula, AssertedFormulaId, Frame, FrameId,
};
use crate::lower::lowering::LetEnv;
use crate::lower::nodes::node_true;
use crate::lower::search::SatResult;
use crate::lower::symbols::{is_live, live_entries_hold};
use crate::lower::work::{formula_work, term_work};
use crate::qfuf::sexpr::{forms, lemma_forms, text_copy, token_texts, Form, SExpr};
use crate::sat::Assignment;
use crate::semantics::Interp;
use crate::text::{decimal, decimal_text, joined3};
use vstd::prelude::*;

verus! {

broadcast use lemma_forms;

/// Result payload emitted by a `check-sat` command.
pub type CheckSatResult = SatResult;

/// Observable effect of handling one command.
#[derive(Debug, Clone, Copy, PartialEq, Eq, Structural)]
pub enum SolverEvent {
    /// The command updated internal state without producing user-visible output.
    Updated,
    /// The command produced a satisfiability result.
    CheckSat(SatResult),
    /// The command requested termination.
    Exit,
}

/// How deeply expressions may be nested.
pub const MAX_DEPTH: u32 = 0xFFFF_FFFF;

/// What a solver knows.
pub struct State {
    /// Zero-arity definitions.
    pub definitions: Map<Seq<char>, Definition>,
    /// Asserted claims outside all frames and inside each open one.
    pub stack: Seq<Seq<Claim>>,
    /// Number of frames opened so far.
    pub opened: nat,
}

/// All asserted claims hold in the model.
pub open spec fn stack_holds(stack: Seq<Seq<Claim>>, model: Model) -> bool {
    forall|i: int, j: int|
        0 <= i < stack.len() && 0 <= j < stack[i].len() ==> (#[trigger] stack[i][j])(model)
}

/// Some model satisfies all asserted claims.
pub open spec fn stack_satisfiable(stack: Seq<Seq<Claim>>) -> bool {
    exists|model: Model| #[trigger] stack_holds(stack, model)
}

/// What an assertion says.
pub open spec fn asserted_claim(state: State, form: Form) -> Result<Claim, Seq<char>> {
    claim(
        Names { definitions: state.definitions, active: Seq::empty() },
        Map::empty(),
        form,
        MAX_DEPTH as nat,
    )
}

/// What a definition defines.
pub open spec fn defined(
    state: State,
    name: Seq<char>,
    arity: nat,
    boolean: bool,
    body: Form,
) -> Result<Definition, Seq<char>> {
    let names = Names { definitions: state.definitions, active: seq![name] };
    if arity != 0 {
        Err(
            "define-fun `"@ + name + "` has arity "@ + decimal_text(arity)
                + "; only arity-0 definitions are supported in this path"@,
        )
    } else if boolean {
        match claim(names, Map::empty(), body, MAX_DEPTH as nat) {
            Err(error) => Err(error),
            Ok(p) => Ok(Definition::Formula(p)),
        }
    } else {
        match quantity(names, Map::empty(), body, MAX_DEPTH as nat) {
            Err(error) => Err(error),
            Ok(None) => Err("define-fun `"@ + name + "` body does not lower to a term"@),
            Ok(Some(u)) => Ok(Definition::Term(u)),
        }
    }
}

/// The most handles that handling a command takes.
pub open spec fn command_work(state: State, command: CommandView) -> nat {
    match command {
        CommandView::Assert(form) => formula_work(
            Names { definitions: state.definitions, active: Seq::empty() },
            Map::empty(),
            form,
            MAX_DEPTH as nat,
        ) + 2,
        CommandView::DefineFun { name, binders, result: _, boolean, body } => {
            let names = Names { definitions: state.definitions, active: seq![name] };
            if binders.len() != 0 {
                0
            } else if boolean {
                formula_work(names, Map::empty(), body, MAX_DEPTH as nat)
            } else {
                term_work(names, Map::empty(), body, MAX_DEPTH as nat)
            }
        },
        _ => 0,
    }
}

/// The stack with one more claim in the innermost frame.
pub open spec fn with_claim(stack: Seq<Seq<Claim>>, p: Claim) -> Seq<Seq<Claim>> {
    stack.update(stack.len() - 1, stack.last().push(p))
}

/// The stack with `n` more empty frames.
pub open spec fn with_frames(stack: Seq<Seq<Claim>>, n: nat) -> Seq<Seq<Claim>> {
    stack + Seq::new(n, |i: int| Seq::empty())
}

/// The first `n` claim lists after one another.
pub open spec fn flattened(stack: Seq<Seq<Claim>>, n: nat) -> Seq<Claim>
    decreases n,
{
    if n == 0 {
        Seq::empty()
    } else {
        flattened(stack, (n - 1) as nat) + stack[n - 1]
    }
}

proof fn lemma_flattened_same(x: Seq<Seq<Claim>>, y: Seq<Seq<Claim>>, n: nat)
    requires
        n <= x.len(),
        n <= y.len(),
        forall|i: int| 0 <= i < n ==> #[trigger] x[i] == y[i],
    ensures
        flattened(x, n) == flattened(y, n),
    decreases n,
{
    if n > 0 {
        lemma_flattened_same(x, y, (n - 1) as nat);
        assert(x[n - 1] == y[n - 1]);
    }
}

proof fn lemma_flattened_grows(x: Seq<Seq<Claim>>, m: nat, n: nat)
    requires
        m <= n <= x.len(),
    ensures
        flattened(x, m).len() <= flattened(x, n).len(),
        flattened(x, n).take(flattened(x, m).len() as int) == flattened(x, m),
    decreases n,
{
    if m < n {
        lemma_flattened_grows(x, m, (n - 1) as nat);
        let a = flattened(x, m);
        let b = flattened(x, (n - 1) as nat);
        let c = flattened(x, n);
        assert(c.take(a.len() as int) =~= b.take(a.len() as int));
    } else {
        assert(flattened(x, n).take(flattened(x, m).len() as int) =~= flattened(x, m));
    }
}

/// Incremental solver state.
pub struct Solver {
    /// Top-level asserted formulas in stack order across all active frames.
    assertions: Vec<AssertedFormula>,
    /// Open frames, newest last.
    frames: Vec<Frame>,
    /// Definitions, persistent formulas and backend.
    context: LowerContext,
    /// Next frame identifier.
    next_frame: u32,
    /// Next activation identifier.
    next_activation: u32,
    /// Next asserted formula identifier.
    next_asserted_formula: u32,
    /// Asserted claims outside all frames and inside each open one.
    stack: Ghost<Seq<Seq<Claim>>>,
}

/// The entry belongs to level `i` of the stack.
spec fn at_level(frames: Seq<Frame>, entry: Entry, i: int) -> bool {
    if i == 0 {
        entry.guard is None
    } else {
        entry.guard == Some(guard_key(frames[i - 1].activation.0))
    }
}

/// The entries of level `i` are the claims of that level.
spec fn level_ok(
    entries: Seq<Entry>,
    frames: Seq<Frame>,
    stack: Seq<Seq<Claim>>,
    i: int,
) -> bool {
    &&& forall|e: int|
        0 <= e < entries.len() && at_level(frames, #[trigger] entries[e], i) ==> stack[i].contains(
            entries[e].claim,
        )
    &&& forall|j: int|
        0 <= j < stack[i].len() ==> has_entry(entries, frames, i, #[trigger] stack[i][j])
}

/// Some entry of level `i` has this claim.
spec fn has_entry(entries: Seq<Entry>, frames: Seq<Frame>, i: int, p: Claim) -> bool {
    exists|e: int|
        0 <= e < entries.len() && at_level(frames, #[trigger] entries[e], i) && entries[e].claim
            == p
}

impl Solver {
    /// What the solver knows.
    pub closed spec fn state(&self) -> State {
        State {
            definitions: self.context.meanings@,
            stack: self.stack@,
            opened: self.next_frame as nat,
        }
    }

    /// The open frames, newest last.
    pub closed spec fn open_frames(&self) -> Seq<Frame> {
        self.frames@
    }

    /// The asserted formulas, newest last.
    pub closed spec fn asserted(&self) -> Seq<AssertedFormula> {
        self.assertions@
    }

    /// Frames and assertions carry increasing identifiers and nest.
    spec fn frames_ok(&self) -> bool {
        let frames = self.frames@;
        &&& self.stack@.len() == frames.len() + 1
        &&& self.next_frame == self.next_activation
        &&& forall|i: int|
            0 <= i < frames.len() ==> {
                &&& (#[trigger] frames[i]).activation.0 < self.next_activation
                &&& frames[i].id.0 == frames[i].activation.0
                &&& frames[i].asserted_len == flattened(self.stack@, (i + 1) as nat).len()
            }
        &&& forall|i: int, j: int|
            0 <= i < j < frames.len() ==> (#[trigger] frames[i]).activation.0 < (
            #[trigger] frames[j]).activation.0
        &&& self.assertions@.len() == flattened(self.stack@, self.stack@.len()).len()
        &&& forall|i: int|
            0 <= i < self.assertions@.len() ==> (#[trigger] self.assertions@[i]).id.0
                < self.next_asserted_formula
        &&& forall|i: int, j: int|
            0 <= i < j < self.assertions@.len() ==> (#[trigger] self.assertions@[i]).id.0 < (
            #[trigger] self.assertions@[j]).id.0
    }

    /// The asserted formulas say what the stack says.
    spec fn assertions_ok(&self) -> bool {
        forall|i: int|
            0 <= i < self.assertions@.len() ==> node_denotes(
                self.context.ground(),
                self.context.nodes(),
                (#[trigger] self.assertions@[i]).formula.id(),
                flattened(self.stack@, self.stack@.len())[i],
            )
    }

    /// The backend's entries say what the stack says.
    spec fn entries_ok(&self) -> bool {
        let entries = self.context.backend.entries@;
        &&& forall|i: int|
            0 <= i < self.stack@.len() ==> #[trigger] level_ok(
                entries,
                self.frames@,
                self.stack@,
                i,
            )
        &&& forall|e: int|
            0 <= e < entries.len() && (#[trigger] entries[e]).guard is Some ==> {
                let k = entries[e].guard->0;
                k.len() == 1 && k[0] < self.next_activation
            }
    }

    /// The solver is consistent.
    pub closed spec fn wf(&self) -> bool {
        &&& self.context.wf()
        &&& self.frames_ok()
        &&& self.assertions_ok()
        &&& self.entries_ok()
    }

    /// A handle space is used up.
    pub closed spec fn full(&self) -> bool {
        ||| self.context.full()
        ||| self.next_asserted_formula == u32::MAX
    }

    /// The handles in use, and those that encoding the stored formulas may still take.
    pub closed spec fn used(&self) -> nat {
        self.context.used() + self.next_asserted_formula as nat
    }

    /// The most units of a budget that one query draws: as many as it takes to start all batches of
    /// the checkpoints of a search that decides every variable both ways.
    pub closed spec fn search_units(&self) -> nat {
        units(self.context.backend.checkpoint_bound())
    }

    /// A handle space is used up only where as many handles are in use.
    pub proof fn lemma_full(&self)
        ensures
            self.full() ==> self.used() >= u32::MAX,
    {
        self.context.lemma_full();
    }

    /// Creates an empty solver with no declarations, assertions, or frames.
    pub fn new() -> (solver: Self)
        ensures
            solver.wf(),
            !solver.full(),
            solver.used() == 0,
            solver.state() == (State {
                definitions: Map::empty(),
                stack: seq![Seq::empty()],
                opened: 0,
            }),
    {
        let ghost first: Seq<Seq<Claim>> = seq![Seq::empty()];
        let solver = Solver {
            assertions: Vec::new(),
            frames: Vec::new(),
            context: LowerContext::new(),
            next_frame: 0,
            next_activation: 0,
            next_asserted_formula: 0,
            stack: Ghost(first),
        };
        proof {
            assert(flattened(first, 0) =~= Seq::<Claim>::empty());
            assert(flattened(first, 1) =~= Seq::<Claim>::empty());
            assert(solver.frames_ok());
            assert forall|i: int| 0 <= i < first.len() implies #[trigger] level_ok(
                solver.context.backend.entries@,
                solver.frames@,
                first,
                i,
            ) by {
                assert(first[i].len() == 0);
            }
        }
        solver
    }

    /// The solver stays consistent when the context grows.
    proof fn lemma_context_grown(&self, new: &Solver)
        requires
            self.wf(),
            *new == (Solver { context: new.context, ..*self }),
            new.context.wf(),
            self.context.grows_to(&new.context),
        ensures
            new.wf(),
    {
        assert forall|i: int| 0 <= i < new.assertions@.len() implies node_denotes(
            new.context.ground(),
            new.context.nodes(),
            (#[trigger] new.assertions@[i]).formula.id(),
            flattened(new.stack@, new.stack@.len())[i],
        ) by {
            self.context.lemma_denotes(
                &new.context,
                self.assertions@[i].formula.id(),
                flattened(self.stack@, self.stack@.len())[i],
            );
        }
        assert(new.context.backend.entries == self.context.backend.entries);
    }

    /// Solves the current assertion stack.
    ///
    /// The result depends only on the asserted formulas and definitions currently in scope.
    pub fn check_sat(&mut self) -> (result: SatResult)
        requires
            old(self).wf(),
        ensures
            *final(self) == *old(self),
            result == SatResult::Sat || result == SatResult::Unsat,
            result == SatResult::Sat <==> stack_satisfiable(old(self).state().stack),
    {
        let mut budget = UnlimitedBudget;
        self.check_sat_with_budget(&mut budget)
    }

    /// Solves the current assertion stack under `budget`.
    ///
    /// `Interrupted` preserves the distinction between semantic incompleteness and caller-imposed
    /// resource limits. The search draws one unit of `budget` for every batch of its own checkpoints
    /// that it starts.
    pub fn check_sat_with_budget<B: CheckBudget>(&mut self, budget: &mut B) -> (result: SatResult)
        requires
            old(self).wf(),
        ensures
            *final(self) == *old(self),
            result != SatResult::Unknown,
            result == SatResult::Sat ==> stack_satisfiable(old(self).state().stack),
            result == SatResult::Unsat ==> !stack_satisfiable(old(self).state().stack),
            old(budget).unlimited() ==> result != SatResult::Interrupted,
            metered(
                supply_of(old(budget)),
                supply_of(final(budget)),
                result != SatResult::Interrupted,
                old(self).search_units(),
            ),
    {
        let mut batch = Batch::new(QUANTUM);
        let ghost start = batch;
        let ghost nodes = self.context.nodes();
        let result = self.context.backend.check_with_budget(
            &self.frames,
            budget,
            &mut batch,
            Ghost(nodes),
        );
        proof {
            lemma_batched(
                old(budget),
                start,
                budget,
                batch,
                result != SatResult::Interrupted,
                self.context.backend.checkpoint_bound(),
            );
            let entries = self.context.backend.entries@;
            assert forall|model: Model| live_entries_hold(
                entries,
                self.frames@,
                model,
            ) == #[trigger] stack_holds(self.stack@, model) by {
                self.lemma_live(model);
            }
            if result == SatResult::Sat {
                let model = choose|model: Model| live_entries_hold(entries, self.frames@, model);
                assert(stack_holds(self.stack@, model));
            }
            if result == SatResult::Unsat {
                assert forall|model: Model| !#[trigger] stack_holds(self.stack@, model) by {
                    assert(!live_entries_hold(entries, self.frames@, model));
                }
            }
        }
        result
    }

    /// The live entries hold exactly when the stack does.
    proof fn lemma_live(&self, model: Model)
        requires
            self.wf(),
        ensures
            live_entries_hold(self.context.backend.entries@, self.frames@, model) == stack_holds(
                self.stack@,
                model,
            ),
    {
        let entries = self.context.backend.entries@;
        let frames = self.frames@;
        let stack = self.stack@;
        if live_entries_hold(entries, frames, model) {
            assert forall|i: int, j: int|
                0 <= i < stack.len() && 0 <= j < stack[i].len() implies (#[trigger] stack[i][j])(
                model,
            ) by {
                assert(level_ok(entries, frames, stack, i));
                assert(has_entry(entries, frames, i, stack[i][j]));
                let e = choose|e: int|
                    0 <= e < entries.len() && at_level(frames, #[trigger] entries[e], i)
                        && entries[e].claim == stack[i][j];
                if i > 0 {
                    assert(guard_key(frames[i - 1].activation.0) == entries[e].guard->0);
                    assert(is_live(frames, entries[e].guard->0));
                }
            }
        }
        if stack_holds(stack, model) {
            assert forall|e: int|
                0 <= e < entries.len() && ((#[trigger] entries[e]).guard is None || is_live(
                    frames,
                    entries[e].guard->0,
                )) implies (entries[e].claim)(model) by {
                let i = if entries[e].guard is None {
                    0
                } else {
                    1 + choose|i: int|
                        0 <= i < frames.len() && guard_key((#[trigger] frames[i]).activation.0)
                            == entries[e].guard->0
                };
                assert(level_ok(entries, frames, stack, i));
                assert(at_level(frames, entries[e], i));
                assert(stack[i].contains(entries[e].claim));
                let j = choose|j: int| 0 <= j < stack[i].len() && stack[i][j] == entries[e].claim;
                assert(stack[i][j](model));
            }
        }
    }

    /// Stores a zero-arity lowered definition; other arities remain unsupported.
    fn define_fun(&mut self, define: &DefineFun) -> (result: Result<(), Fault>)
        requires
            old(self).wf(),
        ensures
            final(self).wf(),
            final(self).open_frames() == old(self).open_frames(),
            charged(
                old(self).used(),
                final(self).used(),
                result,
                command_work(
                    old(self).state(),
                    CommandView::DefineFun {
                        name: define.name@,
                        binders: forms(define.binders),
                        result: define.result.form(),
                        boolean: bool_sort(define.result),
                        body: define.body.form(),
                    },
                ),
            ),
            final(self).asserted() == old(self).asserted(),
            ({
                let value = defined(
                    old(self).state(),
                    define.name@,
                    define.binders@.len(),
                    bool_sort(define.result),
                    define.body.form(),
                );
                match result {
                    Ok(_) => value is Ok && final(self).state() == (State {
                        definitions: old(self).state().definitions.insert(
                            define.name@,
                            value->Ok_0,
                        ),
                        ..old(self).state()
                    }),
                    Err(Fault::Text(text)) => value == Err::<Definition, Seq<char>>(text@)
                        && final(self).state() == old(self).state(),
                    Err(Fault::Full(_)) => final(self).full() && final(self).state() == old(self).state(),
                }
            }),
    {
        let ghost s0 = *self;
        if define.binders.len() != 0 {
            let start = joined3("define-fun `", define.name.as_str(), "` has arity ");
            let number = decimal(define.binders.len() as u64);
            return Err(
                Fault::Text(
                    joined3(
                        start.as_str(),
                        number.as_str(),
                        "; only arity-0 definitions are supported in this path",
                    ),
                ),
            );
        }
        let mut active: Vec<String> = Vec::new();
        active.push(text_copy(&define.name));
        proof {
            assert(token_texts(active@) =~= seq![define.name@]);
        }
        let mut env = LetEnv::new();
        let (value, meaning) = if is_bool_sort(&define.result) {
            let ghost names = Names {
                definitions: s0.context.meanings@,
                active: seq![define.name@],
            };
            let ghost p = claim(names, Map::empty(), define.body.form(), MAX_DEPTH as nat)->Ok_0;
            match self.context.lower_formula(&define.body, &mut env, &active, MAX_DEPTH) {
                Err(fault) => {
                    proof {
                        s0.lemma_context_grown(self);
                    }
                    return Err(fault);
                },
                Ok(id) => (LoweredDefinitionValue::Formula(id), Ghost(Definition::Formula(p))),
            }
        } else {
            let ghost names = Names {
                definitions: s0.context.meanings@,
                active: seq![define.name@],
            };
            let ghost u = (quantity(
                names,
                Map::empty(),
                define.body.form(),
                MAX_DEPTH as nat,
            )->Ok_0)->0;
            match self.context.lower_maybe_term(&define.body, &mut env, &active, MAX_DEPTH) {
                Err(fault) => {
                    proof {
                        s0.lemma_context_grown(self);
                    }
                    return Err(fault);
                },
                Ok(None) => {
                    proof {
                        s0.lemma_context_grown(self);
                    }
                    return Err(
                        Fault::Text(
                            joined3(
                                "define-fun `",
                                define.name.as_str(),
                                "` body does not lower to a term",
                            ),
                        ),
                    );
                },
                Ok(Some(t)) => (LoweredDefinitionValue::Term(t), Ghost(Definition::Term(u))),
            }
        };
        let ghost s1 = *self;
        proof {
            s0.lemma_context_grown(&s1);
        }
        let ghost key = define.name@;
        self.context.definitions.insert(text_copy(&define.name), value);
        self.context.meanings = Ghost(s1.context.meanings@.insert(key, meaning@));
        proof {
            let c = self.context;
            assert(c.ground() == s1.context.ground());
            assert(c.definitions@.dom() =~= c.meanings@.dom());
            assert forall|n: Seq<char>| #[trigger] c.meanings@.contains_key(
                n,
            ) implies definition_ok(c.ground(), c.nodes(), c.definitions@[n], c.meanings@[n]) by {
                if n != key {
                    assert(s1.context.meanings@.contains_key(n));
                }
            }
            assert(c.wf());
        }
        Ok(())
    }

    /// Lowers one formula and pushes it onto the assertion stack.
    fn assert_formula(&mut self, formula: &SExpr) -> (result: Result<(), Fault>)
        requires
            old(self).wf(),
        ensures
            final(self).wf(),
            final(self).open_frames() == old(self).open_frames(),
            charged(
                old(self).used(),
                final(self).used(),
                result,
                command_work(old(self).state(), CommandView::Assert(formula.form())),
            ),
            ({
                let meaning = asserted_claim(old(self).state(), formula.form());
                match result {
                    Ok(_) => meaning is Ok && final(self).state() == (State {
                        stack: with_claim(old(self).state().stack, meaning->Ok_0),
                        ..old(self).state()
                    }),
                    Err(Fault::Text(text)) => meaning == Err::<Claim, Seq<char>>(text@)
                        && final(self).state() == old(self).state(),
                    Err(Fault::Full(_)) => final(self).full() && final(self).state() == old(self).state(),
                }
            }),
    {
        let ghost s0 = *self;
        let active: Vec<String> = Vec::new();
        let mut env = LetEnv::new();
        proof {
            assert(token_texts(active@) =~= Seq::<Seq<char>>::empty());
        }
        let ghost names = Names { definitions: s0.context.meanings@, active: Seq::empty() };
        let ghost p = claim(names, Map::empty(), formula.form(), MAX_DEPTH as nat)->Ok_0;
        let lowered = match self.context.lower_formula(formula, &mut env, &active, MAX_DEPTH) {
            Err(fault) => {
                proof {
                    s0.lemma_context_grown(self);
                }
                return Err(fault);
            },
            Ok(id) => id,
        };
        let ghost s1 = *self;
        proof {
            s0.lemma_context_grown(&s1);
        }
        if self.next_asserted_formula == u32::MAX {
            return Err(Fault::Full("asserted formula id overflow".to_owned()));
        }
        let activation = if self.frames.len() > 0 {
            Some(self.frames[self.frames.len() - 1].activation)
        } else {
            None
        };
        let value = match self.context.backend.formula(&self.context.arena, lowered) {
            Err(fault) => {
                proof {
                    s1.context.lemma_tables_grow(&self.context);
                    s1.lemma_context_grown(self);
                }
                return Err(fault);
            },
            Ok(value) => value,
        };
        let ghost s2 = *self;
        let ghost nodes = self.context.nodes();
        proof {
            s1.context.lemma_tables_grow(&s2.context);
            s1.lemma_context_grown(&s2);
            s1.context.lemma_denotes(&s2.context, lowered.id(), p);
            let g = s2.context.ground();
            assert(value_claims(g, value, p)) by {
                assert forall|model: Model, m: Interp, a: Assignment| #[trigger] g.good(
                    model,
                    m,
                    a,
                ) implies value_true(a, value) == p(model) by {
                    assert(node_true(nodes, g.terms, m, a, lowered.id()) == p(model));
                }
            }
        }
        match self.context.backend.assert_value(value, activation, Ghost(p), Ghost(nodes)) {
            Err(fault) => {
                proof {
                    s2.context.lemma_tables_grow(&self.context);
                    s2.lemma_context_grown(self);
                    self.context.lemma_full();
                }
                return Err(fault);
            },
            Ok(_) => {},
        }
        let ghost s3 = *self;
        let id = AssertedFormulaId(self.next_asserted_formula);
        self.next_asserted_formula = self.next_asserted_formula + 1;
        self.assertions.push(AssertedFormula { id, formula: lowered, activation });
        self.stack = Ghost(with_claim(s2.stack@, p));
        proof {
            s2.context.lemma_tables_grow(&s3.context);
            assert(self.assertions@.drop_last() =~= s2.assertions@);
            s2.lemma_claim_added(self, p, activation, lowered.id());
        }
        Ok(())
    }

    /// The solver stays consistent when a claim is asserted.
    proof fn lemma_claim_added(
        &self,
        new: &Solver,
        p: Claim,
        activation: Option<ActivationLiteral>,
        formula: int,
    )
        requires
            self.wf(),
            self.next_asserted_formula < u32::MAX,
            new.context.wf(),
            self.context.ground().extends_to(new.context.ground()),
            nodes_kept(self.context.nodes(), new.context.nodes()),
            new.frames == self.frames,
            new.next_frame == self.next_frame,
            new.next_activation == self.next_activation,
            new.next_asserted_formula == self.next_asserted_formula + 1,
            new.stack@ == with_claim(self.stack@, p),
            activation == (if self.frames@.len() > 0 {
                Some(self.frames@.last().activation)
            } else {
                None
            }),
            new.context.backend.entries@ == self.context.backend.entries@.push(
                Entry {
                    guard: match activation {
                        None => None,
                        Some(act) => Some(guard_key(act.0)),
                    },
                    claim: p,
                },
            ),
            new.assertions@.len() == self.assertions@.len() + 1,
            new.assertions@.drop_last() == self.assertions@,
            new.assertions@.last().id.0 == self.next_asserted_formula,
            new.assertions@.last().formula.id() == formula,
            node_denotes(self.context.ground(), self.context.nodes(), formula, p),
        ensures
            new.wf(),
    {
        let x = self.stack@;
        let y = new.stack@;
        let n = x.len();
        let frames = self.frames@;
        let e0 = self.context.backend.entries@;
        let e1 = new.context.backend.entries@;
        let added = e1.last();
        lemma_flattened_same(x, y, (n - 1) as nat);
        assert(flattened(y, n) =~= flattened(x, n).push(p));
        assert forall|i: int| 0 <= i < frames.len() implies flattened(x, (i + 1) as nat)
            == #[trigger] flattened(y, (i + 1) as nat) by {
            lemma_flattened_same(x, y, (i + 1) as nat);
        }
        assert forall|i: int| 0 <= i < self.assertions@.len() implies new.assertions@[i]
            == self.assertions@[i] by {
            assert(new.assertions@.drop_last()[i] == new.assertions@[i]);
        }
        assert(new.frames_ok()) by {
            assert forall|i: int| 0 <= i < frames.len() implies {
                &&& (#[trigger] frames[i]).activation.0 < new.next_activation
                &&& frames[i].id.0 == frames[i].activation.0
                &&& frames[i].asserted_len == flattened(y, (i + 1) as nat).len()
            } by {
                assert(flattened(x, (i + 1) as nat) == flattened(y, (i + 1) as nat));
            }
        }
        let flat0 = flattened(x, n);
        let flat1 = flattened(y, n);
        assert forall|i: int| 0 <= i < new.assertions@.len() implies node_denotes(
            new.context.ground(),
            new.context.nodes(),
            (#[trigger] new.assertions@[i]).formula.id(),
            flat1[i],
        ) by {
            if i < self.assertions@.len() {
                assert(node_denotes(
                    self.context.ground(),
                    self.context.nodes(),
                    self.assertions@[i].formula.id(),
                    flat0[i],
                ));
                lemma_denotes_grow(
                    self.context.ground(),
                    new.context.ground(),
                    self.context.nodes(),
                    new.context.nodes(),
                    self.assertions@[i].formula.id(),
                    flat0[i],
                );
            } else {
                lemma_denotes_grow(
                    self.context.ground(),
                    new.context.ground(),
                    self.context.nodes(),
                    new.context.nodes(),
                    formula,
                    p,
                );
            }
        }
        assert forall|i: int| 0 <= i < y.len() implies #[trigger] level_ok(e1, frames, y, i) by {
            assert(level_ok(e0, frames, x, i));
            assert forall|e: int|
                0 <= e < e1.len() && at_level(frames, #[trigger] e1[e], i) implies y[i].contains(
                e1[e].claim,
            ) by {
                if e < e0.len() {
                    assert(e1[e] == e0[e]);
                    assert(x[i].contains(e0[e].claim));
                    let j = choose|j: int| 0 <= j < x[i].len() && x[i][j] == e0[e].claim;
                    assert(y[i][j] == e0[e].claim);
                } else {
                    assert(e1[e] == added);
                    if i < n - 1 {
                        if i == 0 {
                            assert(frames.len() > 0);
                        } else {
                            let a = frames[i - 1].activation.0;
                            let b = frames[frames.len() - 1].activation.0;
                            assert(guard_key(a)[0] == a);
                            assert(guard_key(b)[0] == b);
                            assert(guard_key(a) == guard_key(b));
                            assert(a < b);
                        }
                    } else {
                        assert(y[i][x[i].len() as int] == p);
                    }
                }
            }
            assert forall|j: int| 0 <= j < y[i].len() implies has_entry(
                e1,
                frames,
                i,
                #[trigger] y[i][j],
            ) by {
                if j < x[i].len() {
                    assert(y[i][j] == x[i][j]);
                    assert(has_entry(e0, frames, i, x[i][j]));
                    let e = choose|e: int|
                        0 <= e < e0.len() && at_level(frames, #[trigger] e0[e], i) && e0[e].claim
                            == x[i][j];
                    assert(e1[e] == e0[e]);
                } else {
                    assert(e1[e0.len() as int] == added);
                    assert(at_level(frames, e1[e0.len() as int], i));
                }
            }
        }
        assert forall|e: int| 0 <= e < e1.len() && (#[trigger] e1[e]).guard is Some implies {
            let k = e1[e].guard->0;
            k.len() == 1 && k[0] < new.next_activation
        } by {
            if e < e0.len() {
                assert(e1[e] == e0[e]);
            } else {
                let b = frames[frames.len() - 1].activation.0;
                assert(guard_key(b)[0] == b);
            }
        }
    }

    /// Records `amount` fresh frames.
    fn push(&mut self, amount: u32) -> (result: Result<(), SolverError>)
        requires
            old(self).wf(),
        ensures
            final(self).used() == old(self).used(),
            final(self).wf(),
            ({
                let room = u32::MAX - old(self).state().opened;
                let n = if amount <= room {
                    amount as int
                } else {
                    room
                };
                &&& result is Ok <==> amount <= room
                &&& result matches Err(error) ==> error.text() == "frame id overflow"@
                &&& final(self).state() == (State {
                    stack: with_frames(old(self).state().stack, n as nat),
                    opened: (old(self).state().opened + n) as nat,
                    ..old(self).state()
                })
            }),
    {
        let ghost s0 = *self;
        let mut i: u32 = 0;
        proof {
            assert(with_frames(s0.stack@, 0) =~= s0.stack@);
        }
        while i < amount
            invariant
                0 <= i <= amount,
                s0 == *old(self),
                self.used() == s0.used(),
                self.wf(),
                i <= u32::MAX - s0.state().opened,
                self.state() == (State {
                    stack: with_frames(s0.state().stack, i as nat),
                    opened: s0.state().opened + i as nat,
                    ..s0.state()
                }),
            decreases amount - i,
        {
            let ghost s1 = *self;
            if self.next_frame == u32::MAX {
                return Err(SolverError::new("frame id overflow".to_owned()));
            }
            let frame = Frame {
                id: FrameId(self.next_frame),
                activation: ActivationLiteral(self.next_activation),
                asserted_len: self.assertions.len(),
            };
            self.next_frame = self.next_frame + 1;
            self.next_activation = self.next_activation + 1;
            self.frames.push(frame);
            self.stack = Ghost(s1.stack@.push(Seq::empty()));
            proof {
                s1.lemma_pushed(self, frame);
                assert(with_frames(s0.state().stack, (i + 1) as nat) =~= with_frames(
                    s0.state().stack,
                    i as nat,
                ).push(Seq::empty()));
            }
            i += 1;
        }
        Ok(())
    }

    /// The solver stays consistent when a frame is opened.
    proof fn lemma_pushed(&self, new: &Solver, frame: Frame)
        requires
            self.wf(),
            self.next_frame < u32::MAX,
            new.context == self.context,
            new.assertions == self.assertions,
            new.next_asserted_formula == self.next_asserted_formula,
            new.next_frame == self.next_frame + 1,
            new.next_activation == self.next_activation + 1,
            new.frames@ == self.frames@.push(frame),
            new.stack@ == self.stack@.push(Seq::empty()),
            frame.id.0 == self.next_frame,
            frame.activation.0 == self.next_activation,
            frame.asserted_len == self.assertions@.len(),
        ensures
            new.wf(),
    {
        let x = self.stack@;
        let y = new.stack@;
        let n = x.len();
        let f0 = self.frames@;
        let f1 = new.frames@;
        let entries = self.context.backend.entries@;
        assert forall|i: nat| i <= n implies #[trigger] flattened(x, i) == flattened(y, i) by {
            lemma_flattened_same(x, y, i);
        }
        assert(flattened(y, n + 1) =~= flattened(x, n)) by {
            assert(flattened(y, n) == flattened(x, n));
            assert(y[n as int] =~= Seq::<Claim>::empty());
        }
        assert(new.frames_ok()) by {
            assert forall|i: int| 0 <= i < f1.len() implies {
                &&& (#[trigger] f1[i]).activation.0 < new.next_activation
                &&& f1[i].id.0 == f1[i].activation.0
                &&& f1[i].asserted_len == flattened(y, (i + 1) as nat).len()
            } by {
                if i < f0.len() {
                    assert(f1[i] == f0[i]);
                    assert(flattened(x, (i + 1) as nat) == flattened(y, (i + 1) as nat));
                } else {
                    assert(flattened(x, n) == flattened(y, n));
                }
            }
            assert forall|i: int, j: int| 0 <= i < j < f1.len() implies (
            #[trigger] f1[i]).activation.0 < (#[trigger] f1[j]).activation.0 by {
                assert(f1[i] == f0[i]);
                if j < f0.len() {
                    assert(f1[j] == f0[j]);
                }
            }
        }
        assert forall|i: int| 0 <= i < new.assertions@.len() implies node_denotes(
            new.context.ground(),
            new.context.nodes(),
            (#[trigger] new.assertions@[i]).formula.id(),
            flattened(y, y.len())[i],
        ) by {
            assert(self.assertions_ok());
        }
        assert forall|i: int| 0 <= i < y.len() implies #[trigger] level_ok(entries, f1, y, i) by {
            if i < n {
                assert(level_ok(entries, f0, x, i));
                assert forall|e: int|
                    0 <= e < entries.len() && at_level(
                        f1,
                        #[trigger] entries[e],
                        i,
                    ) implies y[i].contains(entries[e].claim) by {
                    assert(at_level(f0, entries[e], i));
                }
                assert forall|j: int| 0 <= j < y[i].len() implies has_entry(
                    entries,
                    f1,
                    i,
                    #[trigger] y[i][j],
                ) by {
                    assert(has_entry(entries, f0, i, x[i][j]));
                    let e = choose|e: int|
                        0 <= e < entries.len() && at_level(f0, #[trigger] entries[e], i)
                            && entries[e].claim == x[i][j];
                    assert(at_level(f1, entries[e], i));
                }
            } else {
                assert forall|e: int|
                    0 <= e < entries.len() && at_level(
                        f1,
                        #[trigger] entries[e],
                        i,
                    ) implies y[i].contains(entries[e].claim) by {
                    let k = entries[e].guard->0;
                    assert(k == guard_key(frame.activation.0));
                    assert(k[0] == frame.activation.0);
                }
            }
        }
    }

    /// Reverts the newest `amount` pushes, as far as there are any.
    fn pop(&mut self, amount: u32) -> (result: Result<(), SolverError>)
        requires
            old(self).wf(),
        ensures
            final(self).used() == old(self).used(),
            final(self).wf(),
            ({
                let frames = old(self).state().stack.len() - 1;
                let n = if amount <= frames {
                    amount as int
                } else {
                    frames
                };
                &&& result is Ok <==> amount <= frames
                &&& result matches Err(error) ==> error.text()
                    == "pop beyond current assertion stack"@
                &&& final(self).state() == (State {
                    stack: old(self).state().stack.take(frames + 1 - n),
                    ..old(self).state()
                })
            }),
    {
        let ghost s0 = *self;
        let mut i: u32 = 0;
        proof {
            assert(s0.stack@.take(s0.stack@.len() as int) =~= s0.stack@);
        }
        while i < amount
            invariant
                0 <= i <= amount,
                s0 == *old(self),
                self.used() == s0.used(),
                self.wf(),
                i < s0.stack@.len(),
                self.state() == (State {
                    stack: s0.state().stack.take(s0.state().stack.len() - i),
                    ..s0.state()
                }),
            decreases amount - i,
        {
            let ghost s1 = *self;
            match self.frames.pop() {
                None => {
                    return Err(SolverError::new("pop beyond current assertion stack".to_owned()));
                },
                Some(frame) => {
                    self.assertions.truncate(frame.asserted_len);
                    self.stack = Ghost(s1.stack@.drop_last());
                    proof {
                        s1.lemma_popped(self, frame);
                        assert(s1.stack@.drop_last() =~= s0.state().stack.take(
                            s0.state().stack.len() - (i + 1),
                        ));
                    }
                },
            }
            i += 1;
        }
        Ok(())
    }

    /// The solver stays consistent when a frame is closed.
    proof fn lemma_popped(&self, new: &Solver, frame: Frame)
        requires
            self.wf(),
            self.frames@.len() > 0,
            frame == self.frames@.last(),
            new.context == self.context,
            new.next_asserted_formula == self.next_asserted_formula,
            new.next_frame == self.next_frame,
            new.next_activation == self.next_activation,
            new.frames@ == self.frames@.drop_last(),
            new.stack@ == self.stack@.drop_last(),
            new.assertions@ == if frame.asserted_len <= self.assertions@.len() {
                self.assertions@.take(frame.asserted_len as int)
            } else {
                self.assertions@
            },
        ensures
            new.wf(),
    {
        let x = self.stack@;
        let y = new.stack@;
        let n = y.len();
        let f0 = self.frames@;
        let f1 = new.frames@;
        let entries = self.context.backend.entries@;
        assert forall|i: nat| i <= n implies #[trigger] flattened(x, i) == flattened(y, i) by {
            lemma_flattened_same(x, y, i);
        }
        assert(f0[f0.len() - 1] == frame);
        assert(frame.asserted_len == flattened(x, n).len());
        lemma_flattened_grows(x, n, x.len());
        assert(flattened(x, n) == flattened(y, n));
        assert(new.frames_ok()) by {
            assert forall|i: int| 0 <= i < f1.len() implies {
                &&& (#[trigger] f1[i]).activation.0 < new.next_activation
                &&& f1[i].id.0 == f1[i].activation.0
                &&& f1[i].asserted_len == flattened(y, (i + 1) as nat).len()
            } by {
                assert(f1[i] == f0[i]);
                assert(flattened(x, (i + 1) as nat) == flattened(y, (i + 1) as nat));
            }
            assert forall|i: int, j: int| 0 <= i < j < f1.len() implies (
            #[trigger] f1[i]).activation.0 < (#[trigger] f1[j]).activation.0 by {
                assert(f1[i] == f0[i]);
                assert(f1[j] == f0[j]);
            }
        }
        assert forall|i: int| 0 <= i < new.assertions@.len() implies node_denotes(
            new.context.ground(),
            new.context.nodes(),
            (#[trigger] new.assertions@[i]).formula.id(),
            flattened(y, n)[i],
        ) by {
            assert(new.assertions@[i] == self.assertions@[i]);
            assert(flattened(x, x.len()).take(flattened(x, n).len() as int)[i] == flattened(
                x,
                x.len(),
            )[i]);
        }
        assert forall|i: int| 0 <= i < n implies #[trigger] level_ok(entries, f1, y, i) by {
            assert(level_ok(entries, f0, x, i));
            assert forall|e: int|
                0 <= e < entries.len() && at_level(f1, #[trigger] entries[e], i) implies y[i].contains(
            entries[e].claim) by {
                assert(at_level(f0, entries[e], i));
            }
            assert forall|j: int| 0 <= j < y[i].len() implies has_entry(
                entries,
                f1,
                i,
                #[trigger] y[i][j],
            ) by {
                assert(has_entry(entries, f0, i, x[i][j]));
                let e = choose|e: int|
                    0 <= e < entries.len() && at_level(f0, #[trigger] entries[e], i)
                        && entries[e].claim == x[i][j];
                assert(at_level(f1, entries[e], i));
            }
        }
    }

    /// Applies one parsed command to the incremental solver state.
    ///
    /// `set-info` commands are accepted as metadata and ignored. In particular, benchmark annotations
    /// such as `:status` never override the real `check-sat` result.
    pub fn handle_command(&mut self, command: &Command) -> (result: Result<SolverEvent, SolverError>)
        requires
            old(self).wf(),
        ensures
            final(self).wf(),
            handled(old(self), final(self), command.meaning(), result),
            old(self).used() + command_work(old(self).state(), command.meaning()) < u32::MAX
                ==> final(self).used() <= old(self).used() + command_work(
                old(self).state(),
                command.meaning(),
            ),
            result != Ok::<SolverEvent, SolverError>(SolverEvent::CheckSat(SatResult::Interrupted)),
    {
        let mut budget = UnlimitedBudget;
        self.handle_command_with_budget(command, &mut budget)
    }

    /// Applies one parsed command to the incremental solver state under `budget`.
    ///
    /// The supplied budget is consumed only by work that can grow with input size.
    pub fn handle_command_with_budget<B: CheckBudget>(
        &mut self,
        command: &Command,
        budget: &mut B,
    ) -> (result: Result<SolverEvent, SolverError>)
        requires
            old(self).wf(),
        ensures
            final(self).wf(),
            handled(old(self), final(self), command.meaning(), result),
            old(self).used() + command_work(old(self).state(), command.meaning()) < u32::MAX
                ==> final(self).used() <= old(self).used() + command_work(
                old(self).state(),
                command.meaning(),
            ),
            old(budget).unlimited() ==> result != Ok::<SolverEvent, SolverError>(
                SolverEvent::CheckSat(SatResult::Interrupted),
            ),
            if command.meaning() is CheckSat {
                metered(
                    supply_of(old(budget)),
                    supply_of(final(budget)),
                    result != Ok::<SolverEvent, SolverError>(
                        SolverEvent::CheckSat(SatResult::Interrupted),
                    ),
                    old(self).search_units(),
                )
            } else {
                *final(budget) == *old(budget)
            },
    {
        match command {
            Command::SetLogic(_) => Ok(SolverEvent::Updated),
            Command::SetInfo(_) => Ok(SolverEvent::Updated),
            Command::DeclareSort(_) => Ok(SolverEvent::Updated),
            Command::DeclareFun(_) => Ok(SolverEvent::Updated),
            Command::DefineFun(define) => match self.define_fun(define) {
                Ok(_) => Ok(SolverEvent::Updated),
                Err(Fault::Text(text)) => Err(SolverError::new(text)),
                Err(Fault::Full(text)) => Err(SolverError::new(text)),
            },
            Command::Assert(expr) => match self.assert_formula(expr) {
                Ok(_) => Ok(SolverEvent::Updated),
                Err(Fault::Text(text)) => Err(SolverError::new(text)),
                Err(Fault::Full(text)) => Err(SolverError::new(text)),
            },
            Command::Push(amount) => match self.push(*amount) {
                Ok(_) => Ok(SolverEvent::Updated),
                Err(error) => Err(error),
            },
            Command::Pop(amount) => match self.pop(*amount) {
                Ok(_) => Ok(SolverEvent::Updated),
                Err(error) => Err(error),
            },
            Command::CheckSat => Ok(SolverEvent::CheckSat(self.check_sat_with_budget(budget))),
            Command::Exit => Ok(SolverEvent::Exit),
        }
    }
}

/// The result is the error with this message.
pub open spec fn failed(result: Result<SolverEvent, SolverError>, text: Seq<char>) -> bool {
    result is Err && (result->Err_0).text() == text
}

/// The handle spaces are used up, and the command is refused without changing what is known.
///
/// This cannot happen while the handles in use and those that the command takes are fewer than
/// there are.
pub open spec fn refused(
    s: &Solver,
    new: &Solver,
    command: CommandView,
    result: Result<SolverEvent, SolverError>,
) -> bool {
    &&& s.used() + command_work(s.state(), command) >= u32::MAX
    &&& new.full()
    &&& result is Err
    &&& new.state() == s.state()
}

/// What handling a command does.
///
/// A solver whose handle spaces are used up may also refuse definitions and assertions, without
/// changing what it knows.
pub open spec fn handled(
    s: &Solver,
    new: &Solver,
    command: CommandView,
    result: Result<SolverEvent, SolverError>,
) -> bool {
    let state = s.state();
    match command {
        CommandView::SetLogic(_) | CommandView::SetInfo(_) | CommandView::DeclareSort(_)
        | CommandView::DeclareFun(_) => result == Ok::<SolverEvent, SolverError>(
            SolverEvent::Updated,
        ) && new.state() == state,
        CommandView::Exit => result == Ok::<SolverEvent, SolverError>(SolverEvent::Exit)
            && new.state() == state,
        CommandView::CheckSat => {
            &&& new.state() == state
            &&& result matches Ok(SolverEvent::CheckSat(answer)) && {
                &&& answer != SatResult::Unknown
                &&& answer == SatResult::Sat ==> stack_satisfiable(state.stack)
                &&& answer == SatResult::Unsat ==> !stack_satisfiable(state.stack)
            }
        },
        CommandView::DefineFun { name, binders, result: _, boolean, body } => {
            ||| match defined(state, name, binders.len(), boolean, body) {
                Ok(value) => result == Ok::<SolverEvent, SolverError>(SolverEvent::Updated)
                    && new.state() == (State {
                    definitions: state.definitions.insert(name, value),
                    ..state
                }),
                Err(error) => failed(result, error) && new.state() == state,
            }
            ||| refused(s, new, command, result)
        },
        CommandView::Assert(form) => {
            ||| match asserted_claim(state, form) {
                Ok(p) => result == Ok::<SolverEvent, SolverError>(SolverEvent::Updated) && new.state()
                    == (State { stack: with_claim(state.stack, p), ..state }),
                Err(error) => failed(result, error) && new.state() == state,
            }
            ||| refused(s, new, command, result)
        },
        CommandView::Push(amount) => if amount <= u32::MAX - state.opened {
            &&& result == Ok::<SolverEvent, SolverError>(SolverEvent::Updated)
            &&& new.state() == (State {
                stack: with_frames(state.stack, amount as nat),
                opened: state.opened + amount as nat,
                ..state
            })
        } else {
            &&& failed(result, "frame id overflow"@)
            &&& new.state() == (State {
                stack: with_frames(state.stack, (u32::MAX - state.opened) as nat),
                opened: u32::MAX as nat,
                ..state
            })
        },
        CommandView::Pop(amount) => if amount < state.stack.len() {
            &&& result == Ok::<SolverEvent, SolverError>(SolverEvent::Updated)
            &&& new.state() == (State {
                stack: state.stack.take(state.stack.len() - amount),
                ..state
            })
        } else {
            &&& failed(result, "pop beyond current assertion stack"@)
            &&& new.state() == (State { stack: state.stack.take(1), ..state })
        },
    }
}

} // verus!
