//! Execution of scripts.
//!
//! A script is a sequence of commands. What it declares and asserts makes up a state; a query is
//! answered `sat` exactly when some two-valued structure satisfies everything that is asserted.

use crate::euf::ids::{SortId, SortRef, SymbolRef, TermRef};
use crate::euf::registry::{RegistryView, SortView, SymbolView};
use crate::euf::theory::{accepts, interp_matches, EufTheory};
use crate::qfuf::denote::{
    false_sig, falsity, formula, true_sig, truth, two_valued, Env, Funs, Prop, Sig, Structure, Val,
};
use crate::qfuf::driver::{
    frames_hold, frames_satisfiable, view_denotes, view_true, BoolView, Driver, FunDecl, LowerError,
};
use crate::qfuf::models::{
    extended, internal, interp_of, lemma_constants_plain, lemma_repaired, plain_prop, repaired,
    sig_of, Base,
};
use crate::qfuf::parser::{
    command_of, commands_from, commands_of, commands_result, meanings, parse_commands, Command, CommandView,
};
use crate::qfuf::sexpr::{
    flat_all, forms, lemma_atoms_unspaced, overclosed, proper_all, text_copy, token_texts,
    tokens_of, unclosed, Form, SExpr,
};
use crate::qfuf::terms::lemma_completed;
use crate::sat::{
    clause_true, clauses_true, lit_true, lits_true, tautology, AddClauseResult, Assignment, Lit,
    SatResult, Solver, Theory, Var,
};
use crate::semantics::{lemma_value_unfold, value, values, Interp};
use crate::strings::lines_text;
use crate::telemetry::{Counters, EufCounter, SatCounter};
use crate::text::{joined, joined3, same_text, white_space};
use crate::qfuf::work::{command_work, commands_work, lemma_commands_grow};
use vstd::hash_map::StringHashMap;
use vstd::prelude::*;

verus! {

/// What a script has declared and asserted.
pub struct State {
    /// Declared sorts.
    pub sorts: Set<Seq<char>>,
    /// Declared function symbols.
    pub funs: Funs,
    /// Asserted formulas of the outermost and all open scopes.
    pub frames: Seq<Seq<Prop>>,
    /// No declared name is reserved for introduced constants.
    pub clean: bool,
}

/// The state before the first command.
pub open spec fn initial_state() -> State {
    State {
        sorts: Set::empty(),
        funs: Map::empty(),
        frames: seq![Seq::empty()],
        clean: true,
    }
}

/// The sort that a name stands for.
pub open spec fn sort_named(sorts: Set<Seq<char>>, name: Seq<char>) -> Result<SortView, Seq<char>> {
    if name == "Bool"@ {
        Ok(SortView::Bool)
    } else if sorts.contains(name) {
        Ok(SortView::Named(name))
    } else {
        Err("unknown sort: "@ + name)
    }
}

/// The sorts that the first `n` names stand for.
pub open spec fn sorts_named(sorts: Set<Seq<char>>, names: Seq<Seq<char>>, n: nat) -> Result<
    Seq<SortView>,
    Seq<char>,
>
    decreases n,
{
    if n == 0 {
        Ok(Seq::empty())
    } else {
        match sorts_named(sorts, names, (n - 1) as nat) {
            Err(error) => Err(error),
            Ok(list) => match sort_named(sorts, names[n - 1]) {
                Err(error) => Err(error),
                Ok(sort) => Ok(list.push(sort)),
            },
        }
    }
}

/// The signature that a declaration gives.
pub open spec fn declaration(
    sorts: Set<Seq<char>>,
    name: Seq<char>,
    args: Seq<Seq<char>>,
    result: Seq<char>,
) -> Result<Sig, Seq<char>> {
    match sorts_named(sorts, args, args.len()) {
        Err(error) => Err(error),
        Ok(list) => if args.len() > u32::MAX {
            Err("function arity exceeds u32"@)
        } else {
            match sort_named(sorts, result) {
                Err(error) => Err(error),
                Ok(sort) => Ok(Sig { name, args: list, result: sort }),
            }
        },
    }
}

/// The frames with one more formula in the innermost one.
pub open spec fn asserted(frames: Seq<Seq<Prop>>, p: Prop) -> Seq<Seq<Prop>> {
    frames.update(frames.len() - 1, frames.last().push(p))
}

/// The frames with `n` more empty ones.
pub open spec fn deepened(frames: Seq<Seq<Prop>>, n: nat) -> Seq<Seq<Prop>> {
    frames + Seq::new(n, |i: int| Seq::empty())
}

/// The state after a command, or the error message.
pub open spec fn next_state(state: State, command: CommandView) -> Result<State, Seq<char>> {
    match command {
        CommandView::SetLogic(logic) => if logic == "QF_UF"@ {
            Ok(state)
        } else {
            Err("unsupported logic: "@ + logic)
        },
        CommandView::SetInfo => Ok(state),
        CommandView::DeclareSort { name } => Ok(State { sorts: state.sorts.insert(name), ..state }),
        CommandView::DeclareFun { name, args, result } => match declaration(
            state.sorts,
            name,
            args,
            result,
        ) {
            Err(error) => Err(error),
            Ok(sig) => Ok(
                State {
                    funs: state.funs.insert(name, sig),
                    clean: state.clean && !internal(name),
                    ..state
                },
            ),
        },
        CommandView::Assert(form) => match formula(state.funs, Seq::empty(), form) {
            Err(error) => Err(error),
            Ok(p) => Ok(State { frames: asserted(state.frames, p), ..state }),
        },
        CommandView::Push(levels) => Ok(
            State { frames: deepened(state.frames, levels as nat), ..state },
        ),
        CommandView::Pop(levels) => if levels < state.frames.len() {
            Ok(State { frames: state.frames.take(state.frames.len() - levels), ..state })
        } else {
            Err("pop failed: ScopeUnderflow"@)
        },
        CommandView::CheckSat => Ok(state),
        CommandView::Exit => Ok(state),
    }
}

/// The answer to a query in this state.
pub open spec fn verdict(state: State) -> Seq<char> {
    if frames_satisfiable(state.frames) {
        "sat"@
    } else {
        "unsat"@
    }
}

/// The output line is the one that the command gives in this state.
pub open spec fn line_ok(state: State, command: CommandView, line: Option<Seq<char>>) -> bool {
    match command {
        CommandView::CheckSat => {
            &&& line == Some("sat"@) || line == Some("unsat"@)
            &&& state.clean ==> line == Some(verdict(state))
        },
        _ => line is None,
    }
}

/// The text of an optional line.
pub open spec fn line_text(line: Option<String>) -> Option<Seq<char>> {
    match line {
        Some(text) => Some(text@),
        None => None,
    }
}

/// The message when a handle space is used up.
pub open spec fn exhausted() -> Seq<char> {
    "handle space exhausted"@
}

/// What executing a command in a state may do.
pub open spec fn executed(
    d: &Driver,
    new: &Driver,
    command: CommandView,
    result: Result<Option<String>, String>,
) -> bool {
    match next_state(d.state(), command) {
        Ok(next) => {
            &&& result is Ok
            &&& new.state() == next
            &&& line_ok(d.state(), command, line_text(result->Ok_0))
        },
        Err(error) => {
            &&& result is Err
            &&& result->Err_0@ == error
            &&& new.state() == d.state()
        },
    }
}

/// Accepts one clause-insertion result.
pub fn accept_add_result(result: AddClauseResult) -> (outcome: Result<(), String>)
    ensures
        outcome is Ok,
{
    match result {
        AddClauseResult::Added => Ok(()),
        AddClauseResult::Satisfied => Ok(()),
        AddClauseResult::Inconsistent => Ok(()),
    }
}

proof fn lemma_sorts_named_err(sorts: Set<Seq<char>>, names: Seq<Seq<char>>, k: nat, n: nat)
    requires
        k <= n,
        sorts_named(sorts, names, k) is Err,
    ensures
        sorts_named(sorts, names, n) == sorts_named(sorts, names, k),
    decreases n,
{
    if k < n {
        lemma_sorts_named_err(sorts, names, k, (n - 1) as nat);
    }
}

impl Driver {
    /// What has been declared and asserted.
    pub open spec fn state(&self) -> State {
        State {
            sorts: self.sorts@.dom(),
            funs: self.decls@,
            frames: self.frames@,
            clean: self.clean@,
        }
    }

    /// The driver is consistent and no expression is being lowered.
    pub open spec fn ready(&self) -> bool {
        &&& self.wf()
        &&& self.let_scopes@.len() == 0
    }

    /// Creates one empty driver.
    pub fn new() -> (driver: Self)
        ensures
            driver.used() <= 8,
            driver.ready(),
            driver.state() == initial_state(),
    {
        let mut euf = EufTheory::new();
        let bool_sort = euf.intern_sort(SortRef::Bool);
        let yes = euf.intern_symbol(
            SymbolRef { name: "true", arg_sorts: &[], result_sort: bool_sort },
        );
        let no = euf.intern_symbol(
            SymbolRef { name: "false", arg_sorts: &[], result_sort: bool_sort },
        );
        proof {
            assert(euf.interned().sorts =~= seq![SortView::Bool]);
            assert(euf.interned().symbols[0].name == "true"@);
            reveal_strlit("true");
            reveal_strlit("false");
            assert("true"@.len() != "false"@.len());
        }
        let true_term = euf.intern_term(TermRef::nullary(yes), bool_sort);
        let false_term = euf.intern_term(TermRef::nullary(no), bool_sort);
        let ghost first = initial_state().frames;
        let mut driver = Driver {
            sat: Solver::new(),
            euf,
            sorts: StringHashMap::new(),
            funs: StringHashMap::new(),
            bool_sort,
            true_term,
            false_term,
            let_scopes: Vec::new(),
            fresh_const_counter: 0,
            fresh: Ghost(Map::empty()),
            clean: Ghost(true),
            decls: Ghost(Map::empty()),
            frames: Ghost(first),
        };
        proof {
            let symbols = driver.euf.interned().symbols;
            assert(symbols[0].arg_sorts =~= Seq::<SortId>::empty());
            assert(symbols[1].arg_sorts =~= Seq::<SortId>::empty());
            driver.lemma_first_steady(yes.0 as int, no.0 as int);
        }
        let ghost d0 = driver;
        let equal = driver.equality_literal(true_term, false_term);
        let ghost d1 = driver;
        let mut clause: Vec<Lit> = Vec::new();
        clause.push(equal.negate());
        proof {
            assert(clause@ =~= seq![equal.spec_negate()]);
            assert forall|s: Structure, a: Assignment|
                two_valued(s) && #[trigger] d1.base().good(
                    extended(d1.base().fresh, s),
                    a,
                ) implies clause_true(a, clause@) by {
                let e = extended(d1.base().fresh, s);
                d1.base().lemma_extended(s);
                d1.lemma_constant_values(e);
                assert(lit_true(a, clause@[0]));
            }
        }
        driver.define_clause(&clause);
        proof {
            d0.lemma_grows_trans(&d1, &driver);
            assert forall|s: Structure, a: Assignment| #[trigger] driver.base().good(
                s,
                a,
            ) implies truth(s) != falsity(s) by {
                assert(d1.base().good(s, a));
                d1.lemma_constant_values(s);
                let k = choose|k: int| 0 <= k < clause@.len() && lit_true(a, #[trigger] clause@[k]);
                assert(clause@[k] == equal.spec_negate());
            }
            assert forall|t: int|
                0 <= t < driver.base().reg.terms.len() && driver.base().sort(t)
                    == SortView::Bool implies #[trigger] driver.domain_ok(t) by {
                assert forall|s: Structure, a: Assignment| #[trigger]
                    driver.base().good(s, a) implies driver.base().value(s, t) == truth(s)
                    || driver.base().value(s, t) == falsity(s) by {
                    driver.lemma_constant_values(s);
                }
            }
            assert forall|k: int| 0 <= k < driver.frames@.len() implies #[trigger] driver.frame_ok(
                k,
            ) by {}
            assert(driver.sorts@.dom() =~= Set::<Seq<char>>::empty());
        }
        driver
    }

    /// A driver that knows the constants for truth and falsity only is consistent.
    proof fn lemma_first_steady(&self, yes: int, no: int)
        requires
            self.euf.wf(),
            self.sat.wf(),
            self.sat.var_count() == 0,
            self.sat.rooted() == Seq::<Seq<Lit>>::empty(),
            self.euf.bindings().len() == 0,
            self.euf.interned().atoms.len() == 0,
            self.euf.interned().sorts == seq![SortView::Bool],
            self.euf.interned().symbols.len() == 2,
            yes == 0,
            no == 1,
            self.euf.interned().symbols[0] == (SymbolView {
                name: "true"@,
                arg_sorts: Seq::<SortId>::empty(),
                result_sort: self.bool_sort,
            }),
            self.euf.interned().symbols[1] == (SymbolView {
                name: "false"@,
                arg_sorts: Seq::<SortId>::empty(),
                result_sort: self.bool_sort,
            }),
            self.bool_sort.0 == 0,
            self.euf.interned().terms.len() == 2,
            self.true_term.0 == 0,
            self.false_term.0 == 1,
            self.euf.interned().terms[0].fun == yes,
            self.euf.interned().terms[1].fun == no,
            self.euf.interned().terms[0].args.len() == 0,
            self.euf.interned().terms[1].args.len() == 0,
            self.euf.interned().term_sorts[0] == self.bool_sort,
            self.euf.interned().term_sorts[1] == self.bool_sort,
            self.sorts@ == Map::<Seq<char>, SortId>::empty(),
            self.funs@ == Map::<Seq<char>, FunDecl>::empty(),
            self.decls@ == Map::<Seq<char>, Sig>::empty(),
            self.fresh@ == Map::<Sig, Val>::empty(),
            self.clean@,
        ensures
            self.steady(),
    {
        let b = self.base();
        let reg = b.reg;
        self.euf.lemma_context();
        lemma_constants_plain();
        assert(b.context() == self.euf.context());
        assert(b.ok()) by {
            assert forall|f: int| 0 <= f < reg.symbols.len() implies #[trigger] b.symbol_ok(f) by {
                assert(f == 0 || f == 1);
            }
            assert forall|t: int| 0 <= t < reg.term_sorts.len() implies (
            #[trigger] reg.term_sorts[t]).0 < reg.sorts.len() by {
                assert(t == 0 || t == 1);
            }
        }
        assert(b.realizable()) by {
            assert forall|s: Structure| #[trigger] two_valued(s) implies b.completable(s) by {
                let a = |v: int| false;
                let e = extended(b.fresh, s);
                assert(interp_matches(b.context(), interp_of(reg, e), a)) by {
                    assert forall|var: Var| !(#[trigger] b.context().bound(var)) by {}
                }
                assert(b.good(e, a));
            }
        }
        assert(sig_of(reg, reg.symbols[0]) =~= true_sig());
        assert(sig_of(reg, reg.symbols[1]) =~= false_sig());
        assert(self.is_constant(self.true_term, true_sig()));
        assert(self.is_constant(self.false_term, false_sig()));
        assert(self.funs@.dom() =~= self.decls@.dom());
        assert(self.declared());
        assert forall|f: int|
            0 <= f < reg.symbols.len() && internal(
                (#[trigger] reg.symbols[f]).name,
            ) implies self.used_name(reg.symbols[f].name) by {
            assert(f == 0 || f == 1);
        }
        assert(self.fresh_names());
    }

    /// Resolves one sort name into one canonical sort identifier.
    fn resolve_sort(&self, name: &str) -> (result: Result<SortId, String>)
        requires
            self.wf(),
        ensures
            match sort_named(self.state().sorts, name@) {
                Ok(sort) => {
                    &&& result is Ok
                    &&& (result->Ok_0).0 < self.base().reg.sorts.len()
                    &&& self.base().reg.sorts[(result->Ok_0).0 as int] == sort
                },
                Err(error) => result is Err && result->Err_0@ == error,
            },
    {
        if same_text(name, "Bool") {
            return Ok(self.bool_sort);
        }
        match self.sorts.get(name) {
            Some(sort) => Ok(*sort),
            None => Err(joined("unknown sort: ", name)),
        }
    }

    /// Resolves a list of sort names.
    fn resolve_sorts(&self, names: &Vec<String>) -> (result: Result<Vec<SortId>, String>)
        requires
            self.wf(),
        ensures
            match sorts_named(self.state().sorts, token_texts(names@), names@.len()) {
                Ok(sorts) => {
                    &&& result is Ok
                    &&& result->Ok_0@.len() == names@.len()
                    &&& sorts.len() == names@.len()
                    &&& forall|k: int|
                        0 <= k < sorts.len() ==> (#[trigger] result->Ok_0@[k]).0
                            < self.base().reg.sorts.len()
                            && self.base().reg.sorts[result->Ok_0@[k].0 as int] == sorts[k]
                },
                Err(error) => result is Err && result->Err_0@ == error,
            },
    {
        let mut list: Vec<SortId> = Vec::new();
        let ghost texts = token_texts(names@);
        let ghost known = self.state().sorts;
        let ghost mut sorts: Seq<SortView> = Seq::empty();
        let mut i: usize = 0;
        while i < names.len()
            invariant
                0 <= i <= names.len(),
                self.wf(),
                texts == token_texts(names@),
                known == self.state().sorts,
                sorts_named(known, texts, i as nat) == Ok::<Seq<SortView>, Seq<char>>(sorts),
                list@.len() == i,
                sorts.len() == i,
                forall|k: int|
                    0 <= k < sorts.len() ==> (#[trigger] list@[k]).0 < self.base().reg.sorts.len()
                        && self.base().reg.sorts[list@[k].0 as int] == sorts[k],
            decreases names.len() - i,
        {
            proof {
                assert(texts[i as int] == names@[i as int]@);
            }
            match self.resolve_sort(names[i].as_str()) {
                Err(error) => {
                    proof {
                        lemma_sorts_named_err(known, texts, (i + 1) as nat, names@.len());
                    }
                    return Err(error);
                },
                Ok(sort) => {
                    list.push(sort);
                    proof {
                        sorts = sorts.push(sort_named(known, texts[i as int])->Ok_0);
                    }
                },
            }
            i += 1;
        }
        Ok(list)
    }

    /// Declares one sort.
    fn declare_sort(&mut self, name: String) -> (result: Result<(), LowerError>)
        requires
            old(self).ready(),
        ensures
            final(self).used() <= old(self).used() + 1,
            final(self).ready(),
            result is Ok ==> final(self).state() == (State {
                sorts: old(self).state().sorts.insert(name@),
                ..old(self).state()
            }),
            result matches Err(error) ==> error is Full && final(self).full() && final(self).state()
                == old(self).state(),
    {
        if !self.has_room() {
            return Err(LowerError::Full);
        }
        let ghost d0 = *self;
        let sort = self.euf.intern_sort(SortRef::Uninterpreted { name: name.as_str() });
        let ghost d1 = *self;
        proof {
            let b0 = d0.base();
            let b1 = d1.base();
            assert(b0.extends_to(b1));
            d1.euf.lemma_context();
            assert(b1.context() == d1.euf.context());
            assert(b1.ok()) by {
                assert forall|f: int| 0 <= f < b1.reg.symbols.len() implies #[trigger] b1.symbol_ok(
                    f,
                ) by {
                    assert(b0.symbol_ok(f));
                }
                assert forall|s: Sig| #[trigger] b1.fresh.contains_key(s) implies internal(s.name)
                    && b1.plain_value(b1.fresh[s]) && (s.result == SortView::Bool
                    ==> crate::qfuf::models::boolean_val(b1.fresh[s])) by {
                    assert(b0.fresh.contains_key(s));
                }
                assert forall|t: int| 0 <= t < b1.reg.term_sorts.len() implies (
                #[trigger] b1.reg.term_sorts[t]).0 < b1.reg.sorts.len() by {
                    assert(b0.reg.term_sorts[t].0 < b0.reg.sorts.len());
                }
            }
            b0.lemma_realizable_interned(b1);
            d0.lemma_declared_grow(&d1);
            d0.lemma_fresh_names_same(&d1);
            assert(d1.steady());
            d0.lemma_wf_grow(&d1);
        }
        let ghost key = name@;
        self.sorts.insert(name, sort);
        proof {
            d1.lemma_redeclared(self);
            assert(self.sorts@.dom() =~= d0.sorts@.dom().insert(key));
        }
        Ok(())
    }

    /// The driver stays consistent when a declaration is entered.
    proof fn lemma_redeclared(&self, new: &Driver)
        requires
            self.wf(),
            *new == (Driver {
                sorts: new.sorts,
                funs: new.funs,
                decls: new.decls,
                clean: new.clean,
                ..*self
            }),
            new.clean@ ==> self.clean@,
            new.declared(),
        ensures
            new.wf(),
    {
        let b0 = self.base();
        let b1 = new.base();
        assert(b1 == (Base { clean: b1.clean, ..b0 }));
        assert(b1.context() == b0.context());
        assert(b1.ok()) by {
            assert forall|f: int| 0 <= f < b1.reg.symbols.len() implies #[trigger] b1.symbol_ok(
                f,
            ) by {
                assert(b0.symbol_ok(f));
            }
        }
        assert forall|s: Structure, a: Assignment| #[trigger] b1.good(s, a) implies b0.good(
            s,
            a,
        ) by {}
        if b1.clean {
            assert(b1 == b0);
        }
        assert(b1.realizable());
        assert(new.fresh_names()) by {
            if new.clean@ {
                assert forall|f: int|
                    0 <= f < b1.reg.symbols.len() && internal(
                        (#[trigger] b1.reg.symbols[f]).name,
                    ) implies new.used_name(b1.reg.symbols[f].name) by {
                    assert(self.used_name(b0.reg.symbols[f].name));
                    let m = choose|m: nat|
                        m < self.fresh_const_counter && b0.reg.symbols[f].name
                            == #[trigger] crate::qfuf::driver::fresh_name(m);
                    assert(crate::qfuf::driver::fresh_name(m) == b1.reg.symbols[f].name);
                }
            }
        }
        assert(new.steady());
        assert forall|t: int|
            0 <= t < b1.reg.terms.len() && b1.sort(t)
                == SortView::Bool implies #[trigger] new.domain_ok(t) by {
            assert(self.domain_ok(t));
        }
        assert forall|k: int| 0 <= k < new.frames@.len() implies #[trigger] new.frame_ok(k) by {
            assert(self.frame_ok(k));
        }
    }

    /// Declares one function symbol.
    fn declare_fun(&mut self, name: String, args: &Vec<String>, result_name: &String) -> (result:
        Result<(), LowerError>)
        requires
            old(self).ready(),
        ensures
            final(self).used() <= old(self).used() + 1,
            final(self).ready(),
            match result {
                Err(LowerError::Full) => final(self).full() && final(self).state() == old(self).state(),
                Err(LowerError::Text(text)) => final(self).state() == old(self).state()
                    && declaration(
                    old(self).state().sorts,
                    name@,
                    token_texts(args@),
                    result_name@,
                ) == Err::<Sig, Seq<char>>(text@),
                Ok(_) => {
                    let sig = declaration(
                        old(self).state().sorts,
                        name@,
                        token_texts(args@),
                        result_name@,
                    );
                    &&& sig is Ok
                    &&& final(self).state() == (State {
                        funs: old(self).state().funs.insert(name@, sig->Ok_0),
                        clean: old(self).state().clean && !internal(name@),
                        ..old(self).state()
                    })
                },
            },
    {
        if !self.has_room() {
            return Err(LowerError::Full);
        }
        let ghost texts = token_texts(args@);
        let arg_sorts = match self.resolve_sorts(args) {
            Err(error) => return Err(LowerError::Text(error)),
            Ok(list) => list,
        };
        if arg_sorts.len() > 0xFFFF_FFFF {
            return Err(LowerError::Text("function arity exceeds u32".to_owned()));
        }
        let arity = arg_sorts.len() as u32;
        let result_sort = match self.resolve_sort(result_name.as_str()) {
            Err(error) => return Err(LowerError::Text(error)),
            Ok(sort) => sort,
        };
        let ghost sig = declaration(self.state().sorts, name@, texts, result_name@)->Ok_0;
        let ghost key = name@;
        let ghost d0 = *self;
        let ghost clean = d0.clean@ && !internal(name@);
        self.clean = Ghost(clean);
        let ghost dc = *self;
        proof {
            assert forall|n: Seq<char>| #[trigger] dc.funs@.contains_key(n) implies dc.fun_ok(n) by {
                assert(d0.fun_ok(n));
            }
            assert(dc.declared());
            d0.lemma_redeclared(&dc);
        }
        let symbol = self.euf.intern_symbol(
            SymbolRef { name: name.as_str(), arg_sorts: arg_sorts.as_slice(), result_sort },
        );
        let ghost d1 = *self;
        proof {
            let b0 = dc.base();
            let b1 = d1.base();
            assert(b0.extends_to(b1));
            d1.euf.lemma_context();
            assert(b1.context() == d1.euf.context());
            assert(b1.ok()) by {
                assert forall|f: int| 0 <= f < b1.reg.symbols.len() implies #[trigger] b1.symbol_ok(
                    f,
                ) by {
                    if f < b0.reg.symbols.len() {
                        assert(b0.symbol_ok(f));
                        assert(b1.reg.symbols[f] == b0.reg.symbols[f]);
                    } else {
                        assert(b1.reg.symbols[f].arg_sorts == arg_sorts@);
                    }
                }
                assert forall|s: Sig| #[trigger] b1.fresh.contains_key(s) implies internal(s.name)
                    && b1.plain_value(b1.fresh[s]) && (s.result == SortView::Bool
                    ==> crate::qfuf::models::boolean_val(b1.fresh[s])) by {
                    assert(b0.fresh.contains_key(s));
                }
            }
            b0.lemma_realizable_interned(b1);
            dc.lemma_declared_grow(&d1);
            assert(d1.fresh_names()) by {
                if d1.clean@ {
                    assert forall|f: int|
                        0 <= f < b1.reg.symbols.len() && internal(
                            (#[trigger] b1.reg.symbols[f]).name,
                        ) implies d1.used_name(b1.reg.symbols[f].name) by {
                        assert(b1.reg.symbols[f] == b0.reg.symbols[f]);
                        assert(dc.used_name(b0.reg.symbols[f].name));
                        let m = choose|m: nat|
                            m < dc.fresh_const_counter && b0.reg.symbols[f].name
                                == #[trigger] crate::qfuf::driver::fresh_name(m);
                        assert(crate::qfuf::driver::fresh_name(m) == b1.reg.symbols[f].name);
                    }
                }
            }
            assert(d1.steady());
            dc.lemma_wf_grow(&d1);
        }
        self.funs.insert(name, FunDecl { symbol, arity, result_sort });
        self.decls = Ghost(d1.decls@.insert(key, sig));
        proof {
            let reg = self.base().reg;
            assert(sig_of(reg, reg.symbols[symbol.0 as int]) =~= sig) by {
                let made = sig_of(reg, reg.symbols[symbol.0 as int]);
                assert(made.args.len() == sig.args.len());
                assert forall|k: int| 0 <= k < sig.args.len() implies made.args[k] == sig.args[k] by {
                    assert(arg_sorts@[k].0 < d0.base().reg.sorts.len());
                }
                assert(made.args =~= sig.args);
            }
            assert(self.funs@.dom() =~= self.decls@.dom());
            assert forall|n: Seq<char>| #[trigger] self.funs@.contains_key(n) implies self.fun_ok(
                n,
            ) by {
                if n != key {
                    assert(d1.funs@.contains_key(n));
                    assert(d1.fun_ok(n));
                }
            }
            assert forall|n: Seq<char>| #[trigger] self.sorts@.contains_key(n) implies self.sorts@[n].0
                < reg.sorts.len() && reg.sorts[self.sorts@[n].0 as int] == SortView::Named(n) by {
                assert(d1.sorts@.contains_key(n));
            }
            d1.lemma_redeclared(self);
        }
        Ok(())
    }

    /// Asserts one lowered Boolean view.
    fn assert_bool_view(&mut self, view: BoolView, Ghost(p): Ghost<Prop>) -> (result: Result<
        (),
        String,
    >)
        requires
            old(self).ready(),
            view_denotes(old(self).base(), view, p),
        ensures
            final(self).used() == old(self).used(),
            final(self).ready(),
            result is Ok,
            final(self).state() == (State {
                frames: asserted(old(self).state().frames, p),
                ..old(self).state()
            }),
    {
        let ghost d0 = *self;
        let mut clause: Vec<Lit> = Vec::new();
        let result = match view {
            BoolView::True => Ok(()),
            BoolView::False => accept_add_result(self.sat.add_clause(clause.as_slice())),
            BoolView::Lit(lit) => {
                clause.push(lit);
                accept_add_result(self.sat.add_clause(clause.as_slice()))
            },
        };
        self.frames = Ghost(asserted(d0.frames@, p));
        proof {
            d0.lemma_asserted(self, view, clause@, p);
        }
        result
    }

    /// The driver stays consistent when a formula and its clause are added.
    proof fn lemma_asserted(&self, new: &Driver, view: BoolView, clause: Seq<Lit>, p: Prop)
        requires
            self.ready(),
            view_denotes(self.base(), view, p),
            new.sat.wf(),
            *new == (Driver { sat: new.sat, frames: new.frames, ..*self }),
            new.frames@ == asserted(self.frames@, p),
            new.sat.var_count() == self.sat.var_count(),
            new.sat.rooted() == self.sat.rooted(),
            new.sat.scope_starts() == self.sat.scope_starts(),
            view == BoolView::True ==> new.sat.scoped() == self.sat.scoped(),
            view != BoolView::True ==> new.sat.scoped() == if tautology(clause) {
                self.sat.scoped()
            } else {
                self.sat.scoped().push(clause)
            },
            view == BoolView::False ==> clause.len() == 0,
            view matches BoolView::Lit(lit) ==> clause == seq![lit],
        ensures
            new.ready(),
    {
        let b0 = self.base();
        assert(new.base() == b0);
        self.sat.lemma_wf();
        assert(!tautology(clause) || view == BoolView::True);
        self.lemma_same_base(new);
        let last = self.frames@.len() - 1;
        assert forall|k: int| 0 <= k < new.frames@.len() implies #[trigger] new.frame_ok(k) by {
            assert(self.frame_ok(k));
            let x = self.frames@.take(k + 1);
            let y = new.frames@.take(k + 1);
            let scoped = self.sat.scoped();
            let more = new.sat.scoped();
            if k < last {
                assert(x =~= y);
                assert(new.frame_end(k) == self.frame_end(k));
                assert(more.take(new.frame_end(k)) =~= scoped.take(self.frame_end(k)));
            } else {
                assert(x =~= self.frames@);
                assert(y =~= new.frames@);
                assert(scoped.take(self.frame_end(k)) =~= scoped);
                assert(more.take(new.frame_end(k)) =~= more);
                assert forall|s: Structure, a: Assignment| #[trigger]
                    new.base().good(s, a) implies (frames_hold(y, repaired(s)) <==> clauses_true(
                    a,
                    more,
                )) by {
                    lemma_asserted_frames(self.frames@, p, repaired(s));
                    assert(view_true(a, view) == p(repaired(s)));
                    if view != BoolView::True {
                        lemma_clauses_push(a, scoped, clause);
                        if let BoolView::Lit(lit) = view {
                            assert(clause[0] == lit);
                        }
                        assert(clause_true(a, clause) == view_true(a, view));
                    }
                }
            }
        }
        assert forall|i: int, j: int|
            0 <= i < new.frames@.len() && 0 <= j < new.frames@[i].len() implies new.base().plain(
            #[trigger] new.frames@[i][j],
        ) by {
            if i < last {
                assert(new.frames@[i] == self.frames@[i]);
                assert(self.base().plain(self.frames@[i][j]));
            } else if j < self.frames@[i].len() {
                assert(new.frames@[i][j] == self.frames@[i][j]);
                assert(self.base().plain(self.frames@[i][j]));
            }
        }
    }

    /// Consistency apart from the frames depends on the definitions and declarations alone.
    proof fn lemma_same_base(&self, new: &Driver)
        requires
            self.wf(),
            new.sat.wf(),
            new.euf.wf(),
            *new == (Driver { sat: new.sat, euf: new.euf, frames: new.frames, ..*self }),
            new.base() == self.base(),
        ensures
            new.steady(),
            new.two_valued_terms(),
    {
        assert forall|n: Seq<char>| #[trigger] new.funs@.contains_key(n) implies new.fun_ok(n) by {
            assert(self.fun_ok(n));
        }
        self.lemma_fresh_names_same(new);
        assert(new.declared());
        assert forall|t: int|
            0 <= t < new.base().reg.terms.len() && new.base().sort(t)
                == SortView::Bool implies #[trigger] new.domain_ok(t) by {
            assert(self.domain_ok(t));
        }
    }

    /// Hands out the event counters and starts them again at zero.
    pub fn take_counters(&mut self) -> (counters: Counters)
        requires
            old(self).ready(),
        ensures
            counters.sat == old(self).sat.counters(),
            counters.euf == old(self).euf.counters(),
            forall|field: SatCounter| #[trigger] final(self).sat.counters().get(field) == 0,
            forall|field: EufCounter| #[trigger] final(self).euf.counters().get(field) == 0,
            final(self).ready(),
            final(self).used() == old(self).used(),
            final(self).state() == old(self).state(),
    {
        let sat = self.sat.take_counters();
        let euf = self.euf.take_counters();
        proof {
            assert(self.base() == old(self).base());
            old(self).lemma_same_base(self);
            assert forall|k: int| 0 <= k < self.frames@.len() implies #[trigger] self.frame_ok(k) by {
                assert(old(self).frame_ok(k));
            }
        }
        Counters { sat, euf }
    }

    /// Opens scopes.
    fn push_levels(&mut self, levels: u32)
        requires
            old(self).ready(),
        ensures
            final(self).used() == old(self).used(),
            final(self).ready(),
            final(self).state() == (State {
                frames: deepened(old(self).state().frames, levels as nat),
                ..old(self).state()
            }),
    {
        let ghost d0 = *self;
        let mut i: u32 = 0;
        proof {
            assert(deepened(d0.frames@, 0) =~= d0.frames@);
        }
        while i < levels
            invariant
                self.used() == old(self).used(),
                0 <= i <= levels,
                self.ready(),
                self.state() == (State {
                    frames: deepened(d0.frames@, i as nat),
                    ..d0.state()
                }),
            decreases levels - i,
        {
            let ghost d1 = *self;
            self.sat.push();
            self.frames = Ghost(d1.frames@.push(Seq::empty()));
            proof {
                d1.lemma_pushed(self);
                assert(deepened(d0.frames@, (i + 1) as nat) =~= deepened(
                    d0.frames@,
                    i as nat,
                ).push(Seq::empty()));
            }
            i += 1;
        }
    }

    /// The driver stays consistent when a scope is opened.
    proof fn lemma_pushed(&self, new: &Driver)
        requires
            self.ready(),
            new.sat.wf(),
            *new == (Driver { sat: new.sat, frames: new.frames, ..*self }),
            new.frames@ == self.frames@.push(Seq::empty()),
            new.sat.var_count() == self.sat.var_count(),
            new.sat.rooted() == self.sat.rooted(),
            new.sat.scoped() == self.sat.scoped(),
            new.sat.scope_starts() == self.sat.scope_starts().push(self.sat.scoped().len()),
        ensures
            new.ready(),
    {
        assert(new.base() == self.base());
        self.lemma_same_base(new);
        let last = self.frames@.len() - 1;
        assert forall|k: int| 0 <= k < new.frames@.len() implies #[trigger] new.frame_ok(k) by {
            if k <= last {
                assert(self.frame_ok(k));
                assert(new.frames@.take(k + 1) =~= self.frames@.take(k + 1));
                assert(new.frame_end(k) == self.frame_end(k));
            } else {
                assert(self.frame_ok(last));
                let x = self.frames@.take(last + 1);
                let y = new.frames@.take(k + 1);
                assert(x =~= self.frames@);
                assert(y =~= new.frames@);
                assert(new.frame_end(k) == self.frame_end(last));
                assert forall|s: Structure| frames_hold(y, s) == #[trigger] frames_hold(x, s) by {
                    if frames_hold(x, s) {
                        assert forall|i: int, j: int|
                            0 <= i < y.len() && 0 <= j < y[i].len() implies (#[trigger] y[i][j])(
                            s,
                        ) by {
                            assert(y[i] == x[i]);
                            assert(x[i][j](s));
                        }
                    }
                    if frames_hold(y, s) {
                        assert forall|i: int, j: int|
                            0 <= i < x.len() && 0 <= j < x[i].len() implies (#[trigger] x[i][j])(
                            s,
                        ) by {
                            assert(y[i] == x[i]);
                            assert(y[i][j](s));
                        }
                    }
                }
            }
        }
        assert forall|i: int, j: int|
            0 <= i < new.frames@.len() && 0 <= j < new.frames@[i].len() implies new.base().plain(
            #[trigger] new.frames@[i][j],
        ) by {
            assert(new.frames@[i] == self.frames@[i]);
            assert(self.base().plain(self.frames@[i][j]));
        }
    }

    /// Closes scopes.
    fn pop_levels(&mut self, levels: u32) -> (result: Result<(), String>)
        requires
            old(self).ready(),
        ensures
            final(self).used() == old(self).used(),
            final(self).ready(),
            levels < old(self).frames@.len() ==> result is Ok && final(self).state() == (State {
                frames: old(self).frames@.take(old(self).frames@.len() - levels),
                ..old(self).state()
            }),
            levels >= old(self).frames@.len() ==> result is Err && result->Err_0@
                == "pop failed: ScopeUnderflow"@ && final(self).state() == old(self).state(),
    {
        let ghost d0 = *self;
        match self.sat.pop(levels as usize) {
            Err(_) => Err("pop failed: ScopeUnderflow".to_owned()),
            Ok(_) => {
                self.frames = Ghost(d0.frames@.take(d0.frames@.len() - levels));
                proof {
                    d0.lemma_popped(self, levels as int);
                }
                Ok(())
            },
        }
    }

    /// The driver stays consistent when scopes are closed.
    proof fn lemma_popped(&self, new: &Driver, levels: int)
        requires
            self.ready(),
            new.sat.wf(),
            0 <= levels < self.frames@.len(),
            *new == (Driver { sat: new.sat, frames: new.frames, ..*self }),
            new.frames@ == self.frames@.take(self.frames@.len() - levels),
            new.sat.var_count() == self.sat.var_count(),
            new.sat.rooted() == self.sat.rooted(),
            ({
                let kept = self.sat.scope_starts().len() - levels;
                &&& new.sat.scope_starts() == self.sat.scope_starts().take(kept)
                &&& new.sat.scoped() == if levels == 0 {
                    self.sat.scoped()
                } else {
                    self.sat.scoped().take(self.sat.scope_starts()[kept] as int)
                }
            }),
        ensures
            new.ready(),
    {
        assert(new.base() == self.base());
        self.lemma_same_base(new);
        self.sat.lemma_wf();
        let kept = self.sat.scope_starts().len() - levels;
        let scoped = self.sat.scoped();
        let less = new.sat.scoped();
        assert forall|k: int| 0 <= k < new.frames@.len() implies #[trigger] new.frame_ok(k) by {
            assert(self.frame_ok(k));
            assert(new.frames@.take(k + 1) =~= self.frames@.take(k + 1));
            assert(new.frame_end(k) == self.frame_end(k));
            assert(less.take(new.frame_end(k)) =~= scoped.take(self.frame_end(k)));
        }
        assert forall|i: int, j: int|
            0 <= i < new.frames@.len() && 0 <= j < new.frames@[i].len() implies new.base().plain(
            #[trigger] new.frames@[i][j],
        ) by {
            assert(new.frames@[i] == self.frames@[i]);
            assert(self.base().plain(self.frames@[i][j]));
        }
    }

    /// Decides whether the asserted formulas are satisfiable.
    fn check_sat(&mut self) -> (result: SatResult)
        requires
            old(self).ready(),
        ensures
            final(self).used() == old(self).used(),
            final(self).ready(),
            final(self).state() == old(self).state(),
            old(self).state().clean ==> (result == SatResult::Sat <==> frames_satisfiable(
                old(self).frames@,
            )),
    {
        let ghost d0 = *self;
        proof {
            assert forall|var: Var| #[trigger] self.euf.constraints().binds(var) implies var.0
                < self.sat.var_count() by {
                assert(self.base().context() == self.euf.context());
                assert(self.base().bindings.len() <= self.base().vars);
            }
            self.euf.lemma_context();
        }
        let assumptions: Vec<Lit> = Vec::new();
        let result = self.sat.solve_with_assumptions(assumptions.as_slice(), &mut self.euf);
        proof {
            assert(self.euf.setting() == d0.euf.setting());
            assert(self.base() == d0.base());
            d0.lemma_same_base(self);
            assert forall|k: int| 0 <= k < self.frames@.len() implies #[trigger] self.frame_ok(
                k,
            ) by {
                assert(d0.frame_ok(k));
            }
            if d0.clean@ {
                let ctx = d0.euf.context();
                if result == SatResult::Sat {
                    let a = choose|a: Assignment|
                        {
                            &&& #[trigger] clauses_true(a, d0.sat.active())
                            &&& lits_true(a, assumptions@)
                            &&& d0.euf.constraints().admits(a)
                        };
                    assert(accepts(ctx, a));
                    let m = choose|m: Interp| interp_matches(ctx, m, a);
                    d0.lemma_model_found(m, a);
                }
                if frames_satisfiable(d0.frames@) {
                    let s = choose|s: Structure|
                        two_valued(s) && #[trigger] frames_hold(d0.frames@, s);
                    let a = d0.lemma_model_completes(s);
                    assert(accepts(ctx, a)) by {
                        assert(interp_matches(
                            ctx,
                            interp_of(d0.base().reg, extended(d0.base().fresh, s)),
                            a,
                        ));
                    }
                    assert(d0.euf.constraints().admits(a));
                    assert(lits_true(a, assumptions@));
                    assert(clauses_true(a, d0.sat.active()));
                }
            }
        }
        result
    }

    /// An assignment that the search finds gives a structure that satisfies the asserted formulas.
    proof fn lemma_model_found(&self, m: Interp, a: Assignment)
        requires
            self.wf(),
            self.clean@,
            clauses_true(a, self.sat.active()),
            interp_matches(self.euf.context(), m, a),
        ensures
            frames_satisfiable(self.frames@),
    {
        let b = self.base();
        let s = structure_of(b.reg, m);
        let n = interp_of(b.reg, s);
        assert forall|f: int, args: Seq<int>| 0 <= f < b.reg.symbols.len() implies #[trigger] n(
            f,
            args,
        ) == m(f, args) by {
            lemma_structure_of(b, m, f, args);
        }
        let ctx = b.context();
        assert(ctx == self.euf.context());
        assert(interp_matches(ctx, n, a)) by {
            assert forall|var: Var| #[trigger] ctx.bound(var) implies a(var.0 as int)
                == ctx.equal_in(n, Lit { var, negated: false }) by {
                let lit = Lit { var, negated: false };
                assert(ctx.var_atoms[var.0 as int] is Some);
                assert(ctx.atoms[ctx.atom(lit)].0.0 < ctx.terms.len());
                lemma_values_agree(b, m, n, ctx.lhs(lit));
                lemma_values_agree(b, m, n, ctx.rhs(lit));
                assert(a(var.0 as int) == ctx.equal_in(m, lit));
            }
        }
        let rooted = self.sat.rooted();
        let scoped = self.sat.scoped();
        let active = self.sat.active();
        assert(clauses_true(a, rooted)) by {
            assert forall|i: int| 0 <= i < rooted.len() implies clause_true(
                a,
                #[trigger] rooted[i],
            ) by {
                assert(active[i] == rooted[i]);
                assert(clause_true(a, active[i]));
            }
        }
        assert(clauses_true(a, scoped)) by {
            assert forall|i: int| 0 <= i < scoped.len() implies clause_true(
                a,
                #[trigger] scoped[i],
            ) by {
                assert(active[rooted.len() + i] == scoped[i]);
                assert(clause_true(a, active[rooted.len() + i]));
            }
        }
        assert(b.good(s, a));
        let last = self.frames@.len() - 1;
        assert(self.frame_ok(last));
        assert(self.frames@.take(last + 1) =~= self.frames@);
        assert(scoped.take(self.frame_end(last)) =~= scoped);
        lemma_repaired(s);
        assert(frames_hold(self.frames@, repaired(s)));
    }

    /// A structure that satisfies the asserted formulas gives an assignment that the search can find.
    proof fn lemma_model_completes(&self, s: Structure) -> (a: Assignment)
        requires
            self.wf(),
            self.clean@,
            two_valued(s),
            frames_hold(self.frames@, s),
        ensures
            clauses_true(a, self.sat.active()),
            interp_matches(
                self.euf.context(),
                interp_of(self.base().reg, extended(self.base().fresh, s)),
                a,
            ),
    {
        let b = self.base();
        let e = extended(b.fresh, s);
        assert(b.completable(s));
        let a = choose|a: Assignment| b.good(e, a);
        let r = repaired(e);
        lemma_completed(b, s);
        assert(b.context() == self.euf.context());
        assert(frames_hold(self.frames@, r)) by {
            assert forall|i: int, j: int|
                0 <= i < self.frames@.len() && 0 <= j < self.frames@[i].len() implies (
            #[trigger] self.frames@[i][j])(r) by {
                let p = self.frames@[i][j];
                assert(b.plain(p));
                assert(plain_prop(p));
                assert(p(r) == p(s));
                assert(self.frames@[i][j](s));
            }
        }
        let rooted = self.sat.rooted();
        let scoped = self.sat.scoped();
        let active = self.sat.active();
        let last = self.frames@.len() - 1;
        assert(self.frame_ok(last));
        assert(self.frames@.take(last + 1) =~= self.frames@);
        assert(scoped.take(self.frame_end(last)) =~= scoped);
        assert(clauses_true(a, scoped));
        assert forall|i: int| 0 <= i < active.len() implies clause_true(a, #[trigger] active[i]) by {
            if i < rooted.len() {
                assert(active[i] == rooted[i]);
                assert(clause_true(a, rooted[i]));
            } else {
                assert(active[i] == scoped[i - rooted.len()]);
                assert(clause_true(a, scoped[i - rooted.len()]));
            }
        }
        a
    }

    /// Executes one parsed command and optionally returns one output line.
    pub fn execute(&mut self, command: &Command) -> (result: Result<Option<String>, String>)
        requires
            old(self).ready(),
        ensures
            final(self).used() <= old(self).used() + command_work(command.meaning()),
            final(self).ready(),
            executed(old(self), final(self), command.meaning(), result) || (result is Err
                && result->Err_0@ == exhausted() && final(self).full() && final(self).state()
                == old(self).state()),
    {
        match command {
            Command::SetLogic(logic) => {
                if !same_text(logic.as_str(), "QF_UF") {
                    return Err(joined("unsupported logic: ", logic.as_str()));
                }
                Ok(None)
            },
            Command::SetInfo => Ok(None),
            Command::DeclareSort { name } => match self.declare_sort(text_copy(name)) {
                Ok(_) => Ok(None),
                Err(_) => Err("handle space exhausted".to_owned()),
            },
            Command::DeclareFun { name, args, result } => match self.declare_fun(
                text_copy(name),
                args,
                result,
            ) {
                Ok(_) => Ok(None),
                Err(LowerError::Text(text)) => Err(text),
                Err(LowerError::Full) => Err("handle space exhausted".to_owned()),
            },
            Command::DeclareConst { name, sort } => {
                let args: Vec<String> = Vec::new();
                proof {
                    assert(token_texts(args@) =~= Seq::<Seq<char>>::empty());
                }
                match self.declare_fun(text_copy(name), &args, sort) {
                    Ok(_) => Ok(None),
                    Err(LowerError::Text(text)) => Err(text),
                    Err(LowerError::Full) => Err("handle space exhausted".to_owned()),
                }
            },
            Command::Assert(expr) => {
                let ghost d0 = *self;
                let ghost env: Env = Seq::empty();
                proof {
                    assert(self.env_ok(env));
                }
                match self.lower_formula(expr, Ghost(env)) {
                    Err(LowerError::Text(text)) => Err(text),
                    Err(LowerError::Full) => Err("handle space exhausted".to_owned()),
                    Ok(view) => {
                        let ghost p = formula(d0.decls@, env, expr.form())->Ok_0;
                        match self.assert_bool_view(view, Ghost(p)) {
                            Err(error) => Err(error),
                            Ok(_) => Ok(None),
                        }
                    },
                }
            },
            Command::Push(levels) => {
                self.push_levels(*levels);
                Ok(None)
            },
            Command::Pop(levels) => match self.pop_levels(*levels) {
                Err(error) => Err(error),
                Ok(_) => Ok(None),
            },
            Command::CheckSat => match self.check_sat() {
                SatResult::Sat => Ok(Some("sat".to_owned())),
                SatResult::Unsat => Ok(Some("unsat".to_owned())),
            },
            Command::Exit => Ok(None),
        }
    }
}

/// The state and output after a list of commands, or the error message of the first that fails.
///
/// `answers` holds the answers to the queries, in order.
pub open spec fn run_commands(commands: Seq<CommandView>) -> Result<(State, Seq<Seq<char>>), Seq<
    char,
>>
    decreases commands.len(),
{
    if commands.len() == 0 {
        Ok((initial_state(), Seq::empty()))
    } else {
        match run_commands(commands.drop_last()) {
            Err(error) => Err(error),
            Ok((state, answers)) => match next_state(state, commands.last()) {
                Err(error) => Err(error),
                Ok(next) => Ok(
                    (
                        next,
                        if commands.last() is CheckSat {
                            answers.push(verdict(state))
                        } else {
                            answers
                        },
                    ),
                ),
            },
        }
    }
}

/// All states that the commands go through are clean.
pub open spec fn clean_commands(commands: Seq<CommandView>) -> bool {
    forall|i: int|
        0 <= i < commands.len() && (#[trigger] commands[i]) is DeclareFun ==> !internal(
            commands[i]->DeclareFun_name,
        )
}

/// Every answer is `sat` or `unsat`.
pub open spec fn plain_answers(answers: Seq<Seq<char>>) -> bool {
    forall|i: int|
        0 <= i < answers.len() ==> (#[trigger] answers[i]) == "sat"@ || answers[i] == "unsat"@
}

/// The result of running commands is what their meaning says.
pub open spec fn commands_ran(commands: Seq<CommandView>, result: Result<String, String>) -> bool {
    match run_commands(commands) {
        Err(error) => result is Err && result->Err_0@ == error,
        Ok((_, answers)) => result is Ok && result->Ok_0@ == lines_text(answers),
    }
}

/// Running a script that parses gives what its commands mean.
pub open spec fn script_ran(tokens: Seq<Seq<char>>, result: Result<String, String>) -> bool {
    exists|items: Seq<Form>| #[trigger]
        flat_all(items) == tokens && proper_all(items) && match commands_of(items) {
            Err(error) => result is Err && result->Err_0@ == error,
            Ok(commands) => commands_ran(commands, result),
        }
}

/// What running a script returns, as long as no handle space is used up.
pub open spec fn script_result(input: Seq<char>, result: Result<String, String>) -> bool {
    let tokens = tokens_of(input);
    if overclosed(tokens) {
        result is Err && result->Err_0@ == "trailing tokens after parse"@
    } else if unclosed(tokens, 0) {
        result is Err && result->Err_0@ == "missing closing `)`"@
    } else {
        script_ran(tokens, result)
    }
}

/// The structure that gives every registered symbol its interpretation.
spec fn structure_of(reg: RegistryView, m: Interp) -> Structure {
    |sig: Sig, args: Seq<int>|
        m(
            choose|f: int|
                0 <= f < reg.symbols.len() && sig_of(reg, #[trigger] reg.symbols[f]) == sig,
            args,
        )
}

proof fn lemma_structure_of(b: Base, m: Interp, f: int, args: Seq<int>)
    requires
        b.ok(),
        0 <= f < b.reg.symbols.len(),
    ensures
        interp_of(b.reg, structure_of(b.reg, m))(f, args) == m(f, args),
{
    let reg = b.reg;
    let sig = sig_of(reg, reg.symbols[f]);
    assert(sig_of(reg, reg.symbols[f]) == sig);
    let g = choose|g: int|
        0 <= g < reg.symbols.len() && sig_of(reg, #[trigger] reg.symbols[g]) == sig;
    let x = reg.symbols[f];
    let y = reg.symbols[g];
    assert(b.symbol_ok(f) && b.symbol_ok(g));
    let xs = sig_of(reg, x);
    let ys = sig_of(reg, y);
    assert(x.name == y.name);
    assert(x.result_sort.0 == y.result_sort.0);
    assert(xs.args.len() == x.arg_sorts.len() && ys.args.len() == y.arg_sorts.len());
    assert forall|k: int| 0 <= k < x.arg_sorts.len() implies x.arg_sorts[k] == y.arg_sorts[k] by {
        assert(xs.args[k] == reg.sorts[x.arg_sorts[k].0 as int]);
        assert(ys.args[k] == reg.sorts[y.arg_sorts[k].0 as int]);
        assert(x.arg_sorts[k].0 < reg.sorts.len());
        assert(y.arg_sorts[k].0 < reg.sorts.len());
    }
    assert(x.arg_sorts =~= y.arg_sorts);
    assert(x == y);
    assert(f == g);
}

/// Interpretations that agree on registered symbols give terms the same values.
proof fn lemma_values_agree(b: Base, m: Interp, n: Interp, t: int)
    requires
        b.ok(),
        0 <= t < b.reg.terms.len(),
        forall|f: int, args: Seq<int>|
            0 <= f < b.reg.symbols.len() ==> #[trigger] n(f, args) == m(f, args),
    ensures
        value(b.reg.terms, m, t) == value(b.reg.terms, n, t),
    decreases t,
{
    let terms = b.reg.terms;
    lemma_value_unfold(terms, m, t);
    lemma_value_unfold(terms, n, t);
    let args = terms[t].args;
    assert forall|k: int| 0 <= k < args.len() implies value(terms, m, args[k]) == value(
        terms,
        n,
        args[k],
    ) by {
        assert(0 <= terms[t].args[k] < t);
        lemma_values_agree(b, m, n, args[k]);
    }
    assert(values(terms, m, args) =~= values(terms, n, args));
    assert(b.reg.well_sorted(t));
    assert(n(terms[t].fun, values(terms, m, args)) == m(terms[t].fun, values(terms, m, args)));
}

proof fn lemma_asserted_frames(frames: Seq<Seq<Prop>>, p: Prop, s: Structure)
    requires
        frames.len() > 0,
    ensures
        frames_hold(asserted(frames, p), s) == (frames_hold(frames, s) && p(s)),
{
    let more = asserted(frames, p);
    let last = frames.len() - 1;
    let n = frames[last].len() as int;
    assert(more[last][n] == p);
    if frames_hold(more, s) {
        assert(more[last][n](s));
        assert forall|i: int, j: int|
            0 <= i < frames.len() && 0 <= j < frames[i].len() implies (#[trigger] frames[i][j])(
            s,
        ) by {
            assert(more[i][j] == frames[i][j]);
            assert(more[i][j](s));
        }
    }
    if frames_hold(frames, s) && p(s) {
        assert forall|i: int, j: int|
            0 <= i < more.len() && 0 <= j < more[i].len() implies (#[trigger] more[i][j])(s) by {
            if i < last || j < n {
                assert(more[i][j] == frames[i][j]);
                assert(frames[i][j](s));
            }
        }
    }
}

proof fn lemma_clauses_push(a: Assignment, clauses: Seq<Seq<Lit>>, clause: Seq<Lit>)
    ensures
        clauses_true(a, clauses.push(clause)) == (clauses_true(a, clauses) && clause_true(
            a,
            clause,
        )),
{
    let more = clauses.push(clause);
    let n = clauses.len() as int;
    assert(more[n] == clause);
    if clauses_true(a, more) {
        assert(clause_true(a, more[n]));
        assert forall|i: int| 0 <= i < n implies clause_true(a, #[trigger] clauses[i]) by {
            assert(clause_true(a, more[i]));
        }
    }
    if clauses_true(a, clauses) && clause_true(a, clause) {
        assert forall|i: int| 0 <= i < more.len() implies clause_true(a, #[trigger] more[i]) by {
            if i < n {
                assert(clause_true(a, clauses[i]));
            }
        }
    }
}

pub proof fn lemma_run_error(commands: Seq<CommandView>, n: int)
    requires
        0 <= n <= commands.len(),
        run_commands(commands.take(n)) is Err,
    ensures
        run_commands(commands) == run_commands(commands.take(n)),
    decreases commands.len() - n,
{
    if n < commands.len() {
        assert(commands.take(n + 1).drop_last() =~= commands.take(n));
        lemma_run_error(commands, n + 1);
    } else {
        assert(commands.take(n) =~= commands);
    }
}

/// Only declarations of reserved names make a state unclean.
pub proof fn lemma_clean(commands: Seq<CommandView>)
    requires
        run_commands(commands) is Ok,
    ensures
        (run_commands(commands)->Ok_0).0.clean <==> clean_commands(commands),
    decreases commands.len(),
{
    if commands.len() > 0 {
        let less = commands.drop_last();
        lemma_clean(less);
        if clean_commands(less) && !(commands.last() is DeclareFun && internal(
            commands.last()->DeclareFun_name,
        )) {
            assert forall|i: int|
                0 <= i < commands.len() && (#[trigger] commands[i]) is DeclareFun implies !internal(
                commands[i]->DeclareFun_name,
            ) by {
                if i < less.len() {
                    assert(less[i] == commands[i]);
                }
            }
        }
        if clean_commands(commands) {
            assert forall|i: int|
                0 <= i < less.len() && (#[trigger] less[i]) is DeclareFun implies !internal(
                less[i]->DeclareFun_name,
            ) by {
                assert(less[i] == commands[i]);
            }
            assert(commands[commands.len() - 1] == commands.last());
        }
    }
}

/// No script declares a name of an introduced constant.
pub proof fn lemma_script_clean(input: Seq<char>, items: Seq<Form>)
    requires
        flat_all(items) == tokens_of(input),
        commands_of(items) is Ok,
    ensures
        clean_commands(commands_of(items)->Ok_0),
{
    let commands = commands_of(items)->Ok_0;
    lemma_commands_len(items);
    assert forall|i: int|
        0 <= i < commands.len() && (#[trigger] commands[i]) is DeclareFun implies !internal(
        commands[i]->DeclareFun_name,
    ) by {
        lemma_command_at(items, i);
        let name = commands[i]->DeclareFun_name;
        lemma_atoms_unspaced(input, items, i, 1);
        if internal(name) {
            reveal_strlit("|@qfuf ");
            assert(name[6] == name.take(7)[6]);
            assert(white_space(name[6]));
        }
    }
}

proof fn lemma_commands_len(items: Seq<Form>)
    requires
        commands_of(items) is Ok,
    ensures
        (commands_of(items)->Ok_0).len() == items.len(),
    decreases items.len(),
{
    if items.len() > 0 {
        lemma_commands_len(items.drop_last());
    }
}

/// Every command is that of its form.
proof fn lemma_command_at(items: Seq<Form>, i: int)
    requires
        commands_of(items) is Ok,
        0 <= i < items.len(),
    ensures
        command_of(items[i]) == Ok::<CommandView, Seq<char>>((commands_of(items)->Ok_0)[i]),
    decreases items.len(),
{
    let less = items.drop_last();
    lemma_commands_len(less);
    if i < less.len() {
        lemma_command_at(less, i);
    }
}

/// The script parses into commands that may use up a handle space of which `used` handles are in use.
pub open spec fn script_heavy(input: Seq<char>, used: nat) -> bool {
    exists|items: Seq<Form>| #[trigger]
        flat_all(items) == tokens_of(input) && proper_all(items) && commands_of(items) is Ok
            && used + commands_work(
            commands_of(items)->Ok_0,
            (commands_of(items)->Ok_0).len(),
        ) >= 0x7FFF_FFFE
}

/// A parsed script that is executed command by command.
pub struct ScriptRun {
    /// The commands.
    commands: Vec<Command>,
    /// The number of commands that have been executed.
    next: usize,
    /// The lines given so far.
    output: String,
}

impl ScriptRun {
    /// The meanings of the commands.
    pub closed spec fn plan(&self) -> Seq<CommandView> {
        meanings(self.commands@)
    }

    /// The number of commands that have been executed.
    pub closed spec fn position(&self) -> nat {
        self.next as nat
    }

    /// The text given so far.
    pub closed spec fn text(&self) -> Seq<char> {
        self.output@
    }

    /// The position lies within the script.
    pub closed spec fn wf(&self) -> bool {
        self.next <= self.commands@.len()
    }

    /// Parses a script.
    pub fn start(input: &str) -> (result: Result<ScriptRun, String>)
        ensures
            overclosed(tokens_of(input@)) ==> result is Err && result->Err_0@
                == "trailing tokens after parse"@,
            unclosed(tokens_of(input@), 0) ==> result is Err && result->Err_0@
                == "missing closing `)`"@,
            !overclosed(tokens_of(input@)) && !unclosed(tokens_of(input@), 0) ==> exists|
                items: Seq<Form>,
            | #[trigger]
                flat_all(items) == tokens_of(input@) && proper_all(items) && match commands_of(
                    items,
                ) {
                    Err(error) => result is Err && result->Err_0@ == error,
                    Ok(plan) => {
                        &&& result is Ok
                        &&& (result->Ok_0).wf()
                        &&& (result->Ok_0).plan() == plan
                        &&& clean_commands(plan)
                        &&& (result->Ok_0).position() == 0
                        &&& (result->Ok_0).text() == Seq::<char>::empty()
                    },
                },
    {
        match parse_commands(input) {
            Err(error) => {
                proof {
                    let tokens = tokens_of(input@);
                    if !overclosed(tokens) && !unclosed(tokens, 0) {
                        let items = choose|items: Seq<Form>| #[trigger]
                            flat_all(items) == tokens && proper_all(items) && commands_result(
                                Err::<Vec<Command>, String>(error),
                                commands_of(items),
                            );
                        assert(flat_all(items) == tokens);
                    }
                }
                Err(error)
            },
            Ok(commands) => {
                let run = ScriptRun { commands, next: 0, output: String::new() };
                proof {
                    let tokens = tokens_of(input@);
                    assert(run.text() =~= Seq::<char>::empty());
                    let items = choose|items: Seq<Form>| #[trigger]
                        flat_all(items) == tokens && proper_all(items) && commands_result(
                            Ok::<Vec<Command>, String>(commands),
                            commands_of(items),
                        );
                    assert(flat_all(items) == tokens);
                    lemma_script_clean(input@, items);
                }
                Ok(run)
            },
        }
    }

    /// Starts a script whose top-level expressions have been read.
    pub fn from_exprs(exprs: &Vec<SExpr>) -> (result: Result<ScriptRun, String>)
        ensures
            match commands_of(forms(*exprs)) {
                Err(error) => result is Err && result->Err_0@ == error,
                Ok(plan) => {
                    &&& result is Ok
                    &&& (result->Ok_0).wf()
                    &&& (result->Ok_0).plan() == plan
                    &&& (result->Ok_0).position() == 0
                    &&& (result->Ok_0).text() == Seq::<char>::empty()
                },
            },
    {
        match commands_from(exprs) {
            Err(error) => Err(error),
            Ok(commands) => {
                let run = ScriptRun { commands, next: 0, output: String::new() };
                proof {
                    assert(run.text() =~= Seq::<char>::empty());
                }
                Ok(run)
            },
        }
    }

    /// Returns whether every command has been executed.
    pub fn done(&self) -> (answer: bool)
        requires
            self.wf(),
        ensures
            self.position() <= self.plan().len(),
            answer == (self.position() == self.plan().len()),
    {
        self.next == self.commands.len()
    }

    /// Executes the next command and keeps the line that it gives.
    pub fn step(&mut self, driver: &mut Driver) -> (result: Result<(), String>)
        requires
            old(self).wf(),
            old(self).position() < old(self).plan().len(),
            old(driver).ready(),
        ensures
            final(self).wf(),
            final(self).plan() == old(self).plan(),
            final(driver).ready(),
            final(driver).used() <= old(driver).used() + command_work(
                old(self).plan()[old(self).position() as int],
            ),
            ({
                let command = old(self).plan()[old(self).position() as int];
                match (next_state(old(driver).state(), command), result) {
                    (Ok(next), Ok(_)) => {
                        &&& final(driver).state() == next
                        &&& final(self).position() == old(self).position() + 1
                        &&& exists|line: Option<Seq<char>>| #[trigger]
                            line_ok(old(driver).state(), command, line) && final(self).text()
                                == old(self).text() + line_end(line)
                    },
                    (Err(error), Err(message)) => {
                        ||| message@ == error && final(driver).state() == old(driver).state()
                        ||| message@ == exhausted() && final(driver).full()
                    },
                    (Ok(_), Err(message)) => message@ == exhausted() && final(driver).full(),
                    (Err(_), Ok(_)) => false,
                }
            }),
    {
        let ghost d0 = *driver;
        let ghost before = self.output@;
        let count = self.commands.len();
        proof {
            assert(self.next < count);
        }
        let command = &self.commands[self.next];
        let ghost meaning = command.meaning();
        let line = match driver.execute(command) {
            Err(error) => return Err(error),
            Ok(line) => line,
        };
        self.next = self.next + 1;
        if let Some(text) = &line {
            self.output.append(text.as_str());
            self.output.push('\n');
            proof {
                assert(self.output@ =~= before + text@.push('\n'));
            }
        } else {
            proof {
                assert(before + Seq::<char>::empty() =~= before);
            }
        }
        proof {
            assert(line_ok(d0.state(), meaning, line_text(line)));
        }
        Ok(())
    }

    /// Returns the lines given so far.
    pub fn into_output(self) -> (output: String)
        ensures
            output@ == self.text(),
    {
        self.output
    }
}

/// An optional line with its end.
pub open spec fn line_end(line: Option<Seq<char>>) -> Seq<char> {
    match line {
        Some(text) => text.push('\n'),
        None => Seq::empty(),
    }
}

/// Runs the script using one fresh driver.
///
/// When a handle space is used up the driver is full and the error says so. Only a heavy script can
/// use one up.
pub fn run_script_with_driver(driver: &mut Driver, input: &str) -> (result: Result<String, String>)
    requires
        old(driver).ready(),
        old(driver).state() == initial_state(),
    ensures
        final(driver).ready(),
        script_result(input@, result) || (final(driver).full() && script_heavy(
            input@,
            old(driver).used(),
        ) && result is Err && result->Err_0@ == exhausted()),
{
    let ghost tokens = tokens_of(input@);
    let started = ScriptRun::start(input);
    let ghost items = choose|items: Seq<Form>| #[trigger]
        flat_all(items) == tokens && proper_all(items) && match commands_of(items) {
            Err(error) => started is Err && started->Err_0@ == error,
            Ok(plan) => {
                &&& started is Ok
                &&& (started->Ok_0).wf()
                &&& (started->Ok_0).plan() == plan
                &&& clean_commands(plan)
                &&& (started->Ok_0).position() == 0
                &&& (started->Ok_0).text() == Seq::<char>::empty()
            },
        };
    let mut run = match started {
        Err(error) => {
            proof {
                if !overclosed(tokens) && !unclosed(tokens, 0) {
                    assert(flat_all(items) == tokens);
                }
            }
            return Err(error);
        },
        Ok(run) => run,
    };
    let ghost views = run.plan();
    let ghost mut answers: Seq<Seq<char>> = Seq::empty();
    proof {
        assert(views.take(0) =~= Seq::<CommandView>::empty());
    }
    while !run.done()
        invariant
            run.wf(),
            views == run.plan(),
            run.position() <= views.len(),
            driver.ready(),
            run_commands(views.take(run.position() as int)) is Ok,
            (run_commands(views.take(run.position() as int))->Ok_0).0 == driver.state(),
            (run_commands(views.take(run.position() as int))->Ok_0).1 == answers,
            clean_commands(views),
            run.text() == lines_text(answers),
            driver.used() <= old(driver).used() + commands_work(views, run.position()),
            flat_all(items) == tokens,
            proper_all(items),
            tokens == tokens_of(input@),
            !overclosed(tokens),
            !unclosed(tokens, 0),
            commands_of(items) == Ok::<Seq<CommandView>, Seq<char>>(views),
        decreases views.len() - run.position(),
    {
        let ghost i = run.position() as int;
        let ghost now = views.take(i);
        let ghost next = views.take(i + 1);
        let ghost state = driver.state();
        let ghost before = run.text();
        let ghost command = views[i];
        proof {
            assert(next.drop_last() =~= now);
            assert(next.last() == command);
            assert(clean_commands(now)) by {
                assert forall|k: int|
                    0 <= k < now.len() && (#[trigger] now[k]) is DeclareFun implies !internal(
                    now[k]->DeclareFun_name,
                ) by {
                    assert(now[k] == views[k]);
                }
            }
            lemma_clean(now);
        }
        match run.step(driver) {
            Err(error) => {
                proof {
                    if next_state(state, command) == Err::<State, Seq<char>>(error@) {
                        lemma_run_error(views, i + 1);
                        assert(commands_ran(views, Err::<String, String>(error)));
                    } else {
                        driver.lemma_full();
                        lemma_commands_grow(views, (i + 1) as nat, views.len());
                        assert(flat_all(items) == tokens_of(input@));
                    }
                }
                return Err(error);
            },
            Ok(_) => {},
        }
        proof {
            let line = choose|line: Option<Seq<char>>| #[trigger]
                line_ok(state, command, line) && run.text() == before + line_end(line);
            if command is CheckSat {
                let text = line->0;
                let longer = answers.push(verdict(state));
                assert(longer.drop_last() =~= answers);
                answers = longer;
                assert(text == verdict(state));
            } else {
                assert(before + Seq::<char>::empty() =~= before);
            }
        }
    }
    proof {
        assert(views.take(run.position() as int) =~= views);
    }
    let output = run.into_output();
    proof {
        assert(commands_ran(views, Ok::<String, String>(output)));
    }
    Ok(output)
}

/// Runs the solver over one complete SMT-LIB input string and returns the textual responses produced
/// by query commands.
///
/// An input that uses up a handle space gets an error that says so; only a heavy one can.
pub fn run_script(input: &str) -> (result: Result<String, String>)
    ensures
        script_result(input@, result) || (script_heavy(input@, 8) && result is Err
            && result->Err_0@ == exhausted()),
{
    let mut driver = Driver::new();
    let ghost used = driver.used();
    let result = run_script_with_driver(&mut driver, input);
    proof {
        if script_heavy(input@, used) {
            let items = choose|items: Seq<Form>| #[trigger]
                flat_all(items) == tokens_of(input@) && proper_all(items) && commands_of(
                    items,
                ) is Ok && used + commands_work(
                    commands_of(items)->Ok_0,
                    (commands_of(items)->Ok_0).len(),
                ) >= 0x7FFF_FFFE;
            assert(flat_all(items) == tokens_of(input@));
        }
    }
    result
}

/// Returns the error of a recorder that could not be started.
pub fn start_failure(error: &str) -> (message: String)
    ensures
        message@ == "failed to start telemetry recorder: "@ + error@,
{
    joined("failed to start telemetry recorder: ", error)
}

/// Merges the result of a script with that of finishing its telemetry: an output counts only where
/// both succeeded, and two errors are joined.
pub fn finish_telemetry(result: Result<String, String>, finished: Result<(), String>) -> (merged:
    Result<String, String>)
    ensures
        match (result, finished) {
            (Ok(output), Ok(_)) => merged == Ok::<String, String>(output),
            (Ok(_), Err(error)) => merged is Err && merged->Err_0@
                == "failed to finalize telemetry recorder: "@ + error@,
            (Err(error), Ok(_)) => merged == Err::<String, String>(error),
            (Err(error), Err(finish_error)) => merged is Err && merged->Err_0@ == error@ + "; "@ + (
            "failed to finalize telemetry recorder: "@ + finish_error@),
        },
{
    match (result, finished) {
        (Ok(output), Ok(_)) => Ok(output),
        (Ok(_), Err(error)) => Err(
            joined("failed to finalize telemetry recorder: ", error.as_str()),
        ),
        (Err(error), Ok(_)) => Err(error),
        (Err(error), Err(finish_error)) => {
            let finish = joined("failed to finalize telemetry recorder: ", finish_error.as_str());
            Err(joined3(error.as_str(), "; ", finish.as_str()))
        },
    }
}

} // verus!
