//! What the expressions of the input language mean.
//!
//! A structure gives every function symbol a function over the integers. Formulas denote predicates
//! over structures, terms denote integers. An expression that the language does not accept has an
//! error message in place of a denotation.

use crate::euf::registry::SortView;
use crate::qfuf::sexpr::Form;
use crate::text::decimal_text;
use vstd::prelude::*;

verus! {

/// One function symbol: its name, argument sorts and result sort.
#[verifier::ext_equal]
pub struct Sig {
    /// Symbol name.
    pub name: Seq<char>,
    /// Argument sorts.
    pub args: Seq<SortView>,
    /// Result sort.
    pub result: SortView,
}

/// An interpretation of all function symbols.
pub type Structure = spec_fn(Sig, Seq<int>) -> int;

/// A predicate over structures.
pub type Prop = spec_fn(Structure) -> bool;

/// An integer that depends on the structure.
pub type Val = spec_fn(Structure) -> int;

/// The declared function symbols by name.
pub type Funs = Map<Seq<char>, Sig>;

/// What a name bound by `let` denotes.
pub enum Den {
    /// A formula.
    Bool(Prop),
    /// A term of some sort.
    Term {
        /// Sort of the term.
        sort: SortView,
        /// Value of the term.
        val: Val,
    },
}

/// Enclosing `let` scopes, innermost last.
pub type Env = Seq<Map<Seq<char>, Den>>;

/// The constant of sort Bool that stands for truth.
pub open spec fn true_sig() -> Sig {
    Sig { name: "true"@, args: Seq::empty(), result: SortView::Bool }
}

/// The constant of sort Bool that stands for falsity.
pub open spec fn false_sig() -> Sig {
    Sig { name: "false"@, args: Seq::empty(), result: SortView::Bool }
}

/// The value that stands for truth.
pub open spec fn truth(s: Structure) -> int {
    s(true_sig(), Seq::empty())
}

/// The value that stands for falsity.
pub open spec fn falsity(s: Structure) -> int {
    s(false_sig(), Seq::empty())
}

/// Truth and falsity differ, and every value of sort Bool is one of them.
pub open spec fn two_valued(s: Structure) -> bool {
    &&& truth(s) != falsity(s)
    &&& forall|sig: Sig, args: Seq<int>|
        sig.result == SortView::Bool ==> {
            ||| #[trigger] s(sig, args) == truth(s)
            ||| s(sig, args) == falsity(s)
        }
}

/// What the innermost scope that binds `name` binds it to.
pub open spec fn lookup(env: Env, name: Seq<char>) -> Option<Den>
    decreases env.len(),
{
    if env.len() == 0 {
        None
    } else if env.last().contains_key(name) {
        Some(env.last()[name])
    } else {
        lookup(env.drop_last(), name)
    }
}

/// The formula that a Bool term with this value stands for.
pub open spec fn holds(val: Val) -> Prop {
    |s: Structure| val(s) == truth(s)
}

/// The value of a formula in term position.
pub open spec fn reified(p: Prop) -> Val {
    |s: Structure|
        if p(s) {
            truth(s)
        } else {
            falsity(s)
        }
}

/// The head atom of a non-empty list that starts with one.
pub open spec fn head_of(items: Seq<Form>) -> Option<Seq<char>> {
    if items.len() > 0 && items[0] is Atom {
        Some(items[0]->Atom_0)
    } else {
        None
    }
}

/// The head names a Boolean connective or a relation.
pub open spec fn is_connective(head: Seq<char>) -> bool {
    ||| head == "not"@
    ||| head == "and"@
    ||| head == "or"@
    ||| head == "=>"@
    ||| head == "xor"@
    ||| head == "="@
    ||| head == "distinct"@
}

/// The error for a term that is used as a formula and is not of sort Bool.
pub open spec fn non_boolean() -> Seq<char> {
    "non-Boolean term used as formula"@
}

/// The formula that a term stands for, if it is of sort Bool.
pub open spec fn term_as_formula(term: Result<(SortView, Val), Seq<char>>) -> Result<
    Prop,
    Seq<char>,
> {
    match term {
        Err(error) => Err(error),
        Ok((sort, val)) => if sort == SortView::Bool {
            Ok(holds(val))
        } else {
            Err(non_boolean())
        },
    }
}

/// What an expression in formula position denotes.
pub open spec fn formula(funs: Funs, env: Env, form: Form) -> Result<Prop, Seq<char>>
    decreases form, 4nat,
{
    match form {
        Form::Atom(atom) => if atom == "true"@ {
            Ok(|s: Structure| true)
        } else if atom == "false"@ {
            Ok(|s: Structure| false)
        } else {
            match lookup(env, atom) {
                Some(Den::Bool(p)) => Ok(p),
                Some(Den::Term { sort, val }) => if sort == SortView::Bool {
                    Ok(holds(val))
                } else {
                    Err(non_boolean())
                },
                None => term_as_formula(term(funs, env, form)),
            }
        },
        Form::List(items) => {
            if head_of(items) == Some("let"@) {
                if items.len() == 3 && items[1] is List {
                    match let_scope(funs, env, items[1]->List_0, (items[1]->List_0).len()) {
                        Err(error) => Err(error),
                        Ok(scope) => formula(funs, env.push(scope), items[2]),
                    }
                } else {
                    Err("malformed let"@)
                }
            } else if head_of(items) == Some("ite"@) {
                if items.len() == 4 {
                    match formula(funs, env, items[1]) {
                        Err(error) => Err(error),
                        Ok(c) => match formula(funs, env, items[2]) {
                            Err(error) => Err(error),
                            Ok(t) => match formula(funs, env, items[3]) {
                                Err(error) => Err(error),
                                Ok(e) => Ok(
                                    |s: Structure|
                                        if c(s) {
                                            t(s)
                                        } else {
                                            e(s)
                                        },
                                ),
                            },
                        },
                    }
                } else {
                    Err("`ite` expects exactly three arguments"@)
                }
            } else if head_of(items) is Some && is_connective(head_of(items)->0) {
                connective(funs, env, form)
            } else {
                term_as_formula(term(funs, env, form))
            }
        },
    }
}

/// What an application of a connective denotes.
pub open spec fn connective(funs: Funs, env: Env, form: Form) -> Result<Prop, Seq<char>>
    decreases form, 1nat,
{
    match form {
        Form::Atom(atom) => Err(Seq::empty()),
        Form::List(items) => {
            let head = items[0]->Atom_0;
            if head == "not"@ {
                if items.len() == 2 {
                    match formula(funs, env, items[1]) {
                        Err(error) => Err(error),
                        Ok(p) => Ok(|s: Structure| !p(s)),
                    }
                } else {
                    Err("`not` expects exactly one argument"@)
                }
            } else if head == "and"@ {
                match formulas(funs, env, items, items.len()) {
                    Err(error) => Err(error),
                    Ok(ps) => Ok(all_of(ps)),
                }
            } else if head == "or"@ {
                match formulas(funs, env, items, items.len()) {
                    Err(error) => Err(error),
                    Ok(ps) => Ok(any_of(ps)),
                }
            } else if head == "distinct"@ {
                if items.len() <= 2 {
                    Ok(|s: Structure| true)
                } else {
                    match distinct_pairs(funs, env, items, (items.len() - 1) as nat) {
                        Err(error) => Err(error),
                        Ok(ps) => Ok(all_of(ps)),
                    }
                }
            } else if head == "=>"@ {
                if items.len() == 3 {
                    match formula(funs, env, items[1]) {
                        Err(error) => Err(error),
                        Ok(p) => match formula(funs, env, items[2]) {
                            Err(error) => Err(error),
                            Ok(q) => Ok(|s: Structure| p(s) ==> q(s)),
                        },
                    }
                } else {
                    Err("`=>` expects exactly two arguments"@)
                }
            } else if head == "xor"@ {
                if items.len() == 3 {
                    match formula(funs, env, items[1]) {
                        Err(error) => Err(error),
                        Ok(p) => match formula(funs, env, items[2]) {
                            Err(error) => Err(error),
                            Ok(q) => Ok(|s: Structure| p(s) != q(s)),
                        },
                    }
                } else {
                    Err("`xor` expects exactly two arguments"@)
                }
            } else {
                if items.len() == 3 {
                    equality(funs, env, items, 1, 2)
                } else {
                    Err("`=` expects exactly two arguments"@)
                }
            }
        },
    }
}

/// Every predicate of the list holds.
pub open spec fn all_of(ps: Seq<Prop>) -> Prop {
    |s: Structure| forall|i: int| 0 <= i < ps.len() ==> (#[trigger] ps[i])(s)
}

/// Some predicate of the list holds.
pub open spec fn any_of(ps: Seq<Prop>) -> Prop {
    |s: Structure| exists|i: int| 0 <= i < ps.len() && (#[trigger] ps[i])(s)
}

/// The predicates that items `1` to `n - 1` denote.
pub open spec fn formulas(funs: Funs, env: Env, items: Seq<Form>, n: nat) -> Result<
    Seq<Prop>,
    Seq<char>,
>
    decreases items, n,
{
    if n <= 1 || n > items.len() {
        Ok(Seq::empty())
    } else {
        match formulas(funs, env, items, (n - 1) as nat) {
            Err(error) => Err(error),
            Ok(ps) => match formula(funs, env, items[n - 1]) {
                Err(error) => Err(error),
                Ok(p) => Ok(ps.push(p)),
            },
        }
    }
}

/// That items `i` and `j` are equal: as formulas if one of them is Boolean, as terms otherwise.
pub open spec fn equality(funs: Funs, env: Env, items: Seq<Form>, i: int, j: int) -> Result<
    Prop,
    Seq<char>,
>
    decreases items, 1nat,
{
    if 0 <= i < items.len() && 0 <= j < items.len() {
        match either_boolean(funs, env, items, i, j) {
            Err(error) => Err(error),
            Ok(true) => match formula(funs, env, items[i]) {
                Err(error) => Err(error),
                Ok(p) => match formula(funs, env, items[j]) {
                    Err(error) => Err(error),
                    Ok(q) => Ok(|s: Structure| p(s) == q(s)),
                },
            },
            Ok(false) => match term(funs, env, items[i]) {
                Err(error) => Err(error),
                Ok((_, u)) => match term(funs, env, items[j]) {
                    Err(error) => Err(error),
                    Ok((_, v)) => Ok(|s: Structure| u(s) == v(s)),
                },
            },
        }
    } else {
        Err(Seq::empty())
    }
}

/// Whether item `i` or else item `j` is known to be Boolean.
pub open spec fn either_boolean(funs: Funs, env: Env, items: Seq<Form>, i: int, j: int) -> Result<
    bool,
    Seq<char>,
>
    decreases items, 0nat,
{
    if 0 <= i < items.len() && 0 <= j < items.len() {
        match is_boolean(funs, env, items[i]) {
            Err(error) => Err(error),
            Ok(true) => Ok(true),
            Ok(false) => is_boolean(funs, env, items[j]),
        }
    } else {
        Err(Seq::empty())
    }
}

/// That item `i` differs from each of items `i + 1` to `j - 1`.
pub open spec fn distinct_row(funs: Funs, env: Env, items: Seq<Form>, i: nat, j: nat) -> Result<
    Seq<Prop>,
    Seq<char>,
>
    decreases items, 2nat, j,
{
    if j <= i + 1 || j > items.len() {
        Ok(Seq::empty())
    } else {
        match distinct_row(funs, env, items, i, (j - 1) as nat) {
            Err(error) => Err(error),
            Ok(ps) => match equality(funs, env, items, i as int, j - 1) {
                Err(error) => Err(error),
                Ok(p) => Ok(ps.push(|s: Structure| !p(s))),
            },
        }
    }
}

/// That each of items `1` to `n - 1` differs from all later items.
pub open spec fn distinct_pairs(funs: Funs, env: Env, items: Seq<Form>, n: nat) -> Result<
    Seq<Prop>,
    Seq<char>,
>
    decreases items, 3nat, n,
{
    if n <= 1 || n > items.len() {
        Ok(Seq::empty())
    } else {
        match distinct_pairs(funs, env, items, (n - 1) as nat) {
            Err(error) => Err(error),
            Ok(ps) => match distinct_row(funs, env, items, (n - 1) as nat, items.len()) {
                Err(error) => Err(error),
                Ok(row) => Ok(ps + row),
            },
        }
    }
}

/// Whether an expression is known to denote a formula.
pub open spec fn is_boolean(funs: Funs, env: Env, form: Form) -> Result<bool, Seq<char>>
    decreases form, 4nat,
{
    match form {
        Form::Atom(atom) => Ok(
            if atom == "true"@ || atom == "false"@ {
                true
            } else {
                match lookup(env, atom) {
                    Some(Den::Bool(_)) => true,
                    Some(Den::Term { sort, val }) => sort == SortView::Bool,
                    None => false,
                }
            },
        ),
        Form::List(items) => {
            if head_of(items) is Some && is_connective(head_of(items)->0) {
                Ok(true)
            } else if head_of(items) == Some("let"@) {
                if items.len() == 3 && items[1] is List {
                    match let_scope(funs, env, items[1]->List_0, (items[1]->List_0).len()) {
                        Err(error) => Err(error),
                        Ok(scope) => is_boolean(funs, env.push(scope), items[2]),
                    }
                } else {
                    Err("malformed let"@)
                }
            } else if head_of(items) == Some("ite"@) {
                if items.len() == 4 {
                    match is_boolean(funs, env, items[2]) {
                        Err(error) => Err(error),
                        Ok(false) => Ok(false),
                        Ok(true) => is_boolean(funs, env, items[3]),
                    }
                } else {
                    Err("`ite` expects exactly three arguments"@)
                }
            } else {
                match term(funs, env, form) {
                    Err(error) => Err(error),
                    Ok((sort, _)) => Ok(sort == SortView::Bool),
                }
            }
        },
    }
}

/// The message for a symbol that has not been declared.
pub open spec fn unknown_symbol(name: Seq<char>) -> Seq<char> {
    "unknown symbol: "@ + name
}

/// The message for a bare symbol that expects arguments.
pub open spec fn bare_symbol(name: Seq<char>, arity: nat) -> Seq<char> {
    "symbol `"@ + name + "` expects "@ + decimal_text(arity) + " arguments"@
}

/// The message for an application to the wrong number of arguments.
pub open spec fn wrong_arity(name: Seq<char>, arity: nat, got: nat) -> Seq<char> {
    bare_symbol(name, arity) + ", got "@ + decimal_text(got)
}

/// What an expression in term position denotes: its sort and value.
pub open spec fn term(funs: Funs, env: Env, form: Form) -> Result<(SortView, Val), Seq<char>>
    decreases form, 3nat,
{
    match form {
        Form::Atom(atom) => if atom == "true"@ {
            Ok((SortView::Bool, |s: Structure| truth(s)))
        } else if atom == "false"@ {
            Ok((SortView::Bool, |s: Structure| falsity(s)))
        } else {
            match lookup(env, atom) {
                Some(Den::Bool(p)) => Ok((SortView::Bool, reified(p))),
                Some(Den::Term { sort, val }) => Ok((sort, val)),
                None => if !funs.contains_key(atom) {
                    Err(unknown_symbol(atom))
                } else if funs[atom].args.len() != 0 {
                    Err(bare_symbol(atom, funs[atom].args.len()))
                } else {
                    Ok((funs[atom].result, applied(funs[atom], Seq::empty())))
                },
            }
        },
        Form::List(items) => {
            if head_of(items) == Some("let"@) {
                if items.len() == 3 && items[1] is List {
                    match let_scope(funs, env, items[1]->List_0, (items[1]->List_0).len()) {
                        Err(error) => Err(error),
                        Ok(scope) => term(funs, env.push(scope), items[2]),
                    }
                } else {
                    Err("malformed let"@)
                }
            } else if head_of(items) == Some("ite"@) {
                if items.len() == 4 {
                    match formula(funs, env, items[1]) {
                        Err(error) => Err(error),
                        Ok(c) => match term(funs, env, items[2]) {
                            Err(error) => Err(error),
                            Ok((sort, u)) => match term(funs, env, items[3]) {
                                Err(error) => Err(error),
                                Ok((other, v)) => if sort == other {
                                    Ok((sort, chosen(c, u, v)))
                                } else {
                                    Err("`ite` branches must have the same sort"@)
                                },
                            },
                        },
                    }
                } else {
                    Err("`ite` expects exactly three arguments"@)
                }
            } else if head_of(items) is Some && is_connective(head_of(items)->0) {
                match connective(funs, env, form) {
                    Err(error) => Err(error),
                    Ok(p) => Ok((SortView::Bool, reified(p))),
                }
            } else if head_of(items) is None {
                Err("application head must be an atom"@)
            } else {
                let head = head_of(items)->0;
                if !funs.contains_key(head) {
                    Err(unknown_symbol(head))
                } else if items.len() - 1 != funs[head].args.len() {
                    Err(wrong_arity(head, funs[head].args.len(), (items.len() - 1) as nat))
                } else {
                    match terms(funs, env, items, items.len()) {
                        Err(error) => Err(error),
                        Ok(vals) => if argument_sorts(vals) == funs[head].args {
                            Ok((funs[head].result, applied(funs[head], argument_vals(vals))))
                        } else {
                            Err("term argument sort must match the declared symbol signature"@)
                        },
                    }
                }
            }
        },
    }
}

/// The value of a symbol applied to values.
pub open spec fn applied(sig: Sig, vals: Seq<Val>) -> Val {
    |s: Structure| s(sig, Seq::new(vals.len(), |i: int| vals[i](s)))
}

/// One of two values, depending on a formula.
pub open spec fn chosen(c: Prop, u: Val, v: Val) -> Val {
    |s: Structure|
        if c(s) {
            u(s)
        } else {
            v(s)
        }
}

/// The sorts of a list of terms.
pub open spec fn argument_sorts(vals: Seq<(SortView, Val)>) -> Seq<SortView> {
    vals.map_values(|v: (SortView, Val)| v.0)
}

/// The values of a list of terms.
pub open spec fn argument_vals(vals: Seq<(SortView, Val)>) -> Seq<Val> {
    vals.map_values(|v: (SortView, Val)| v.1)
}

/// What items `1` to `n - 1` denote as terms.
pub open spec fn terms(funs: Funs, env: Env, items: Seq<Form>, n: nat) -> Result<
    Seq<(SortView, Val)>,
    Seq<char>,
>
    decreases items, n,
{
    if n <= 1 || n > items.len() {
        Ok(Seq::empty())
    } else {
        match terms(funs, env, items, (n - 1) as nat) {
            Err(error) => Err(error),
            Ok(vals) => match term(funs, env, items[n - 1]) {
                Err(error) => Err(error),
                Ok(val) => Ok(vals.push(val)),
            },
        }
    }
}

/// The scope that the first `n` bindings of a `let` open. All values are taken in the outer scope.
pub open spec fn let_scope(funs: Funs, env: Env, bindings: Seq<Form>, n: nat) -> Result<
    Map<Seq<char>, Den>,
    Seq<char>,
>
    decreases bindings, n,
{
    if n == 0 || n > bindings.len() {
        Ok(Map::empty())
    } else {
        match let_scope(funs, env, bindings, (n - 1) as nat) {
            Err(error) => Err(error),
            Ok(scope) => match bindings[n - 1] {
                Form::Atom(_) => Err("let binding must be a pair"@),
                Form::List(pair) => if pair.len() == 2 && pair[0] is Atom {
                    match is_boolean(funs, env, pair[1]) {
                        Err(error) => Err(error),
                        Ok(true) => match formula(funs, env, pair[1]) {
                            Err(error) => Err(error),
                            Ok(p) => Ok(scope.insert(pair[0]->Atom_0, Den::Bool(p))),
                        },
                        Ok(false) => match term(funs, env, pair[1]) {
                            Err(error) => Err(error),
                            Ok((sort, val)) => Ok(
                                scope.insert(pair[0]->Atom_0, Den::Term { sort, val }),
                            ),
                        },
                    }
                } else {
                    Err("let binding must be `(name value)`"@)
                },
            },
        }
    }
}

} // verus!
