//! What the lowered expressions mean.
//!
//! A model gives every Boolean symbol a truth value and every function symbol a function over the
//! integers. An expression in formula position denotes a predicate over models, one in term position
//! an integer, or nothing where it has the shape of a formula.
//!
//! Names bound by `let` stand for expressions, which are read where the name is used. Reading a
//! binding that leads back to itself never ends, so every meaning is taken up to a nesting depth.

use crate::qfuf::denote::head_of;
use crate::qfuf::sexpr::Form;
use vstd::prelude::*;

verus! {

/// An interpretation of all symbols.
pub struct Model {
    /// Truth value of each Boolean symbol.
    pub bools: spec_fn(Seq<char>) -> bool,
    /// Function of each function symbol, at every number of arguments.
    pub funs: spec_fn(Seq<char>, Seq<int>) -> int,
}

/// A predicate over models.
pub type Claim = spec_fn(Model) -> bool;

/// An integer that depends on the model.
pub type Quantity = spec_fn(Model) -> int;

/// What a zero-arity definition stands for.
pub enum Definition {
    /// A formula.
    Formula(Claim),
    /// A term.
    Term(Quantity),
}

/// The names that an expression can refer to.
pub struct Names {
    /// Zero-arity definitions.
    pub definitions: Map<Seq<char>, Definition>,
    /// Definitions whose body is being read.
    pub active: Seq<Seq<char>>,
}

/// Expressions that `let` names stand for.
pub type Bindings = Map<Seq<char>, Form>;

/// The message for an expression that is nested too deeply.
pub open spec fn too_deep() -> Seq<char> {
    "expression nesting too deep"@
}

/// The message for a definition that refers to itself.
pub open spec fn cyclic(name: Seq<char>) -> Seq<char> {
    "cyclic define-fun reference involving `"@ + name + "`"@
}

/// The message for a term definition in formula position.
pub open spec fn not_a_formula(name: Seq<char>) -> Seq<char> {
    "symbol `"@ + name + "` denotes a term definition, not a formula"@
}

/// The message for a formula of unknown shape.
pub open spec fn unsupported_shape(head: Seq<char>) -> Seq<char> {
    "unsupported formula shape headed by `"@ + head + "`"@
}

/// Every claim of the list holds.
pub open spec fn all_claims(ps: Seq<Claim>) -> Claim {
    |m: Model| forall|i: int| 0 <= i < ps.len() ==> (#[trigger] ps[i])(m)
}

/// Some claim of the list holds.
pub open spec fn any_claim(ps: Seq<Claim>) -> Claim {
    |m: Model| exists|i: int| 0 <= i < ps.len() && (#[trigger] ps[i])(m)
}

/// Neighbouring claims have the same truth value.
pub open spec fn claims_chain(ps: Seq<Claim>) -> Claim {
    |m: Model| forall|i: int| 0 <= i && i + 1 < ps.len() ==> (#[trigger] ps[i])(m) == ps[i + 1](m)
}

/// Neighbouring quantities are equal.
pub open spec fn quantities_chain(us: Seq<Quantity>) -> Claim {
    |m: Model| forall|i: int| 0 <= i && i + 1 < us.len() ==> (#[trigger] us[i])(m) == us[i + 1](m)
}

/// All quantities differ from each other.
pub open spec fn quantities_distinct(us: Seq<Quantity>) -> Claim {
    |m: Model|
        forall|i: int, j: int|
            0 <= i < j < us.len() ==> (#[trigger] us[i])(m) != (#[trigger] us[j])(m)
}

/// One of two quantities, depending on a claim.
pub open spec fn either(c: Claim, u: Quantity, v: Quantity) -> Quantity {
    |m: Model|
        if c(m) {
            u(m)
        } else {
            v(m)
        }
}

/// A function symbol applied to quantities.
pub open spec fn applied(name: Seq<char>, us: Seq<Quantity>) -> Quantity {
    |m: Model| (m.funs)(name, Seq::new(us.len(), |i: int| us[i](m)))
}

/// All entries are quantities.
pub open spec fn all_terms(us: Seq<Option<Quantity>>) -> bool {
    forall|i: int| 0 <= i < us.len() ==> (#[trigger] us[i]) is Some
}

/// The quantities of a list that holds only quantities.
pub open spec fn terms_only(us: Seq<Option<Quantity>>) -> Seq<Quantity> {
    us.map_values(|u: Option<Quantity>| u->0)
}

/// The bindings extended by the first `n` pairs, in order.
pub open spec fn bind_pairs(env: Bindings, pairs: Seq<Form>, n: nat) -> Result<Bindings, Seq<char>>
    decreases n,
{
    if n == 0 {
        Ok(env)
    } else {
        match bind_pairs(env, pairs, (n - 1) as nat) {
            Err(error) => Err(error),
            Ok(more) => match pairs[n - 1] {
                Form::Atom(_) => Err("let binding must be a list"@),
                Form::List(pair) => if pair.len() != 2 {
                    Err("let binding must contain name and value"@)
                } else if pair[0] !is Atom {
                    Err("let binding name must be an atom"@)
                } else {
                    Ok(more.insert(pair[0]->Atom_0, pair[1]))
                },
            },
        }
    }
}

/// The bindings extended by a binding list.
pub open spec fn bind(env: Bindings, list: Form) -> Result<Bindings, Seq<char>> {
    match list {
        Form::Atom(_) => Err("let bindings must be a list"@),
        Form::List(pairs) => bind_pairs(env, pairs, pairs.len()),
    }
}

/// The head names a connective or a relation.
pub open spec fn formula_head(head: Seq<char>) -> bool {
    ||| head == "and"@
    ||| head == "or"@
    ||| head == "not"@
    ||| head == "=>"@
    ||| head == "="@
    ||| head == "distinct"@
}

/// What an expression in formula position denotes.
pub open spec fn claim(names: Names, env: Bindings, form: Form, depth: nat) -> Result<
    Claim,
    Seq<char>,
>
    decreases depth, 0nat,
{
    if depth == 0 {
        Err(too_deep())
    } else {
        let d = (depth - 1) as nat;
        match form {
            Form::Atom(atom) => if env.contains_key(atom) {
                claim(names, env, env[atom], d)
            } else if names.active.contains(atom) {
                Err(cyclic(atom))
            } else if names.definitions.contains_key(atom) {
                match names.definitions[atom] {
                    Definition::Formula(p) => Ok(p),
                    Definition::Term(_) => Err(not_a_formula(atom)),
                }
            } else if atom == "true"@ {
                Ok(|m: Model| true)
            } else if atom == "false"@ {
                Ok(|m: Model| false)
            } else {
                Ok(|m: Model| (m.bools)(atom))
            },
            Form::List(items) => match head_of(items) {
                None => Err("formula list must start with an atom"@),
                Some(head) => if head == "and"@ {
                    match claims(names, env, items, items.len(), d) {
                        Err(error) => Err(error),
                        Ok(ps) => Ok(all_claims(ps)),
                    }
                } else if head == "or"@ {
                    match claims(names, env, items, items.len(), d) {
                        Err(error) => Err(error),
                        Ok(ps) => Ok(any_claim(ps)),
                    }
                } else if head == "not"@ && items.len() == 2 {
                    match claim(names, env, items[1], d) {
                        Err(error) => Err(error),
                        Ok(p) => Ok(|m: Model| !p(m)),
                    }
                } else if head == "=>"@ && items.len() == 3 {
                    match claim(names, env, items[1], d) {
                        Err(error) => Err(error),
                        Ok(p) => match claim(names, env, items[2], d) {
                            Err(error) => Err(error),
                            Ok(q) => Ok(|m: Model| p(m) ==> q(m)),
                        },
                    }
                } else if head == "="@ {
                    if items.len() < 3 {
                        Ok(|m: Model| true)
                    } else {
                        match quantities(names, env, items, items.len(), d) {
                            Err(error) => Err(error),
                            Ok(us) => if all_terms(us) {
                                Ok(quantities_chain(terms_only(us)))
                            } else {
                                match claims(names, env, items, items.len(), d) {
                                    Err(error) => Err(error),
                                    Ok(ps) => Ok(claims_chain(ps)),
                                }
                            },
                        }
                    }
                } else if head == "distinct"@ {
                    if items.len() < 3 {
                        Ok(|m: Model| true)
                    } else {
                        match quantities(names, env, items, items.len(), d) {
                            Err(error) => Err(error),
                            Ok(us) => if all_terms(us) {
                                Ok(quantities_distinct(terms_only(us)))
                            } else {
                                Err("distinct contains a non-term argument"@)
                            },
                        }
                    }
                } else if head == "ite"@ && items.len() == 4 {
                    match claim(names, env, items[1], d) {
                        Err(error) => Err(error),
                        Ok(c) => match claim(names, env, items[2], d) {
                            Err(error) => Err(error),
                            Ok(p) => match claim(names, env, items[3], d) {
                                Err(error) => Err(error),
                                Ok(q) => Ok(
                                    |m: Model|
                                        if c(m) {
                                            p(m)
                                        } else {
                                            q(m)
                                        },
                                ),
                            },
                        },
                    }
                } else if head == "let"@ && items.len() == 3 {
                    match bind(env, items[1]) {
                        Err(error) => Err(error),
                        Ok(more) => claim(names, more, items[2], d),
                    }
                } else {
                    Err(unsupported_shape(head))
                },
            },
        }
    }
}

/// What items `1` to `n - 1` denote as formulas.
pub open spec fn claims(names: Names, env: Bindings, items: Seq<Form>, n: nat, depth: nat) -> Result<
    Seq<Claim>,
    Seq<char>,
>
    decreases depth, n,
{
    if n <= 1 {
        Ok(Seq::empty())
    } else {
        match claims(names, env, items, (n - 1) as nat, depth) {
            Err(error) => Err(error),
            Ok(ps) => match claim(names, env, items[n - 1], depth) {
                Err(error) => Err(error),
                Ok(p) => Ok(ps.push(p)),
            },
        }
    }
}

/// What an expression in term position denotes, or nothing where it has the shape of a formula.
pub open spec fn quantity(names: Names, env: Bindings, form: Form, depth: nat) -> Result<
    Option<Quantity>,
    Seq<char>,
>
    decreases depth, 0nat,
{
    if depth == 0 {
        Err(too_deep())
    } else {
        let d = (depth - 1) as nat;
        match form {
            Form::Atom(atom) => if atom == "true"@ || atom == "false"@ {
                Ok(None)
            } else if env.contains_key(atom) {
                quantity(names, env, env[atom], d)
            } else if names.active.contains(atom) {
                Err(cyclic(atom))
            } else if names.definitions.contains_key(atom) {
                match names.definitions[atom] {
                    Definition::Formula(_) => Ok(None),
                    Definition::Term(u) => Ok(Some(u)),
                }
            } else {
                Ok(Some(applied(atom, Seq::empty())))
            },
            Form::List(items) => match head_of(items) {
                None => Err("term list must start with an atom"@),
                Some(head) => if head == "let"@ && items.len() == 3 {
                    match bind(env, items[1]) {
                        Err(error) => Err(error),
                        Ok(more) => quantity(names, more, items[2], d),
                    }
                } else if head == "ite"@ && items.len() == 4 {
                    match claim(names, env, items[1], d) {
                        Err(error) => Err(error),
                        Ok(c) => match quantity(names, env, items[2], d) {
                            Err(error) => Err(error),
                            Ok(None) => Err("term ite then-branch is not a term"@),
                            Ok(Some(u)) => match quantity(names, env, items[3], d) {
                                Err(error) => Err(error),
                                Ok(None) => Err("term ite else-branch is not a term"@),
                                Ok(Some(v)) => Ok(Some(either(c, u, v))),
                            },
                        },
                    }
                } else if formula_head(head) {
                    Ok(None)
                } else {
                    match quantities(names, env, items, items.len(), d) {
                        Err(error) => Err(error),
                        Ok(us) => if all_terms(us) {
                            Ok(Some(applied(head, terms_only(us))))
                        } else {
                            Err("function application contains a non-term argument"@)
                        },
                    }
                },
            },
        }
    }
}

/// What items `1` to `n - 1` denote as terms.
pub open spec fn quantities(names: Names, env: Bindings, items: Seq<Form>, n: nat, depth: nat) -> Result<
    Seq<Option<Quantity>>,
    Seq<char>,
>
    decreases depth, n,
{
    if n <= 1 {
        Ok(Seq::empty())
    } else {
        match quantities(names, env, items, (n - 1) as nat, depth) {
            Err(error) => Err(error),
            Ok(us) => match quantity(names, env, items[n - 1], depth) {
                Err(error) => Err(error),
                Ok(u) => Ok(us.push(u)),
            },
        }
    }
}

/// Once a prefix of the formulas is refused, all longer ones are.
pub proof fn lemma_claims_err(
    names: Names,
    env: Bindings,
    items: Seq<Form>,
    k: nat,
    n: nat,
    depth: nat,
)
    requires
        k <= n,
        claims(names, env, items, k, depth) is Err,
    ensures
        claims(names, env, items, n, depth) == claims(names, env, items, k, depth),
    decreases n,
{
    if k < n {
        lemma_claims_err(names, env, items, k, (n - 1) as nat, depth);
    }
}

/// Once a prefix of the terms is refused, all longer ones are.
pub proof fn lemma_quantities_err(
    names: Names,
    env: Bindings,
    items: Seq<Form>,
    k: nat,
    n: nat,
    depth: nat,
)
    requires
        k <= n,
        quantities(names, env, items, k, depth) is Err,
    ensures
        quantities(names, env, items, n, depth) == quantities(names, env, items, k, depth),
    decreases n,
{
    if k < n {
        lemma_quantities_err(names, env, items, k, (n - 1) as nat, depth);
    }
}

/// Once a prefix of the bindings is refused, all longer ones are.
pub proof fn lemma_bind_err(env: Bindings, pairs: Seq<Form>, k: nat, n: nat)
    requires
        k <= n,
        bind_pairs(env, pairs, k) is Err,
    ensures
        bind_pairs(env, pairs, n) == bind_pairs(env, pairs, k),
    decreases n,
{
    if k < n {
        lemma_bind_err(env, pairs, k, (n - 1) as nat);
    }
}

} // verus!
