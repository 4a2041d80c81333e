//! What formulas and terms mean, by their shape, in two-valued structures.

use crate::euf::registry::SortView;
use crate::qfuf::denote::{
    all_of, argument_sorts, argument_vals, connective, distinct_pairs, distinct_row, equality,
    falsity, formula, formulas, head_of, holds, is_boolean, is_connective, let_scope, lookup,
    reified, term, terms, truth, two_valued, Den, Env, Funs, Prop, Structure, Val,
};
use crate::qfuf::sexpr::Form;
use vstd::prelude::*;

verus! {

/// The value is truth or falsity in every two-valued structure.
pub open spec fn boolean_valued(val: Val) -> bool {
    forall|s: Structure| #[trigger]
        two_valued(s) ==> val(s) == truth(s) || val(s) == falsity(s)
}

/// Names that are bound to terms of sort Bool have Boolean values.
pub open spec fn well_bound(env: Env) -> bool {
    forall|i: int, name: Seq<char>|
        0 <= i < env.len() && #[trigger] env[i].contains_key(name) ==> well_denoted(env[i][name])
}

/// A term of sort Bool has a Boolean value.
pub open spec fn well_denoted(den: Den) -> bool {
    match den {
        Den::Bool(_) => true,
        Den::Term { sort, val } => sort == SortView::Bool ==> boolean_valued(val),
    }
}

/// The expression is the application of this head to `n` arguments.
pub open spec fn is_call(form: Form, head: Seq<char>, n: nat) -> bool {
    &&& form is List
    &&& (form->List_0).len() == n + 1
    &&& (form->List_0)[0] == Form::Atom(head)
}

/// Argument `i` of an application, from one on.
pub open spec fn arg(form: Form, i: int) -> Form {
    (form->List_0)[i]
}

/// What binds a name: the innermost scope that has it.
pub proof fn lemma_lookup(env: Env, name: Seq<char>, i: int)
    ensures
        (forall|j: int| 0 <= j < env.len() ==> !(#[trigger] env[j]).contains_key(name)) ==> lookup(
            env,
            name,
        ) is None,
        0 <= i < env.len() && env[i].contains_key(name) && (forall|j: int|
            i < j < env.len() ==> !(#[trigger] env[j]).contains_key(name)) ==> lookup(env, name)
            == Some(env[i][name]),
    decreases env.len(),
{
    if env.len() > 0 {
        let less = env.drop_last();
        lemma_lookup(less, name, i);
        if forall|j: int| 0 <= j < env.len() ==> !(#[trigger] env[j]).contains_key(name) {
            assert(!env[env.len() - 1].contains_key(name));
            assert forall|j: int| 0 <= j < less.len() implies !(#[trigger] less[j]).contains_key(
                name,
            ) by {
                assert(!env[j].contains_key(name));
            }
        }
        if 0 <= i < env.len() && env[i].contains_key(name) && (forall|j: int|
            i < j < env.len() ==> !(#[trigger] env[j]).contains_key(name)) {
            if i < env.len() - 1 {
                assert(!env[env.len() - 1].contains_key(name));
                assert forall|j: int| i < j < less.len() implies !(
                #[trigger] less[j]).contains_key(name) by {
                    assert(!env[j].contains_key(name));
                }
            }
        }
    }
}

proof fn lemma_lookup_from(env: Env, name: Seq<char>)
    requires
        well_bound(env),
        lookup(env, name) is Some,
    ensures
        well_denoted(lookup(env, name)->0),
    decreases env.len(),
{
    let last = env.len() - 1;
    if env.last().contains_key(name) {
        assert(env[last].contains_key(name));
    } else {
        let less = env.drop_last();
        assert forall|i: int, n: Seq<char>|
            0 <= i < less.len() && #[trigger] less[i].contains_key(n) implies well_denoted(
            less[i][n],
        ) by {
            assert(env[i].contains_key(n));
        }
        lemma_lookup_from(less, name);
    }
}

/// The words that start expressions with a rule of their own differ.
pub proof fn lemma_heads()
    ensures
        !is_connective("let"@),
        !is_connective("ite"@),
        "let"@ != "ite"@,
        "true"@ != "false"@,
        "not"@ != "and"@,
        "not"@ != "or"@,
        "not"@ != "=>"@,
        "not"@ != "xor"@,
        "not"@ != "="@,
        "not"@ != "distinct"@,
        "and"@ != "or"@,
        "and"@ != "=>"@,
        "and"@ != "xor"@,
        "and"@ != "="@,
        "and"@ != "distinct"@,
        "or"@ != "=>"@,
        "or"@ != "xor"@,
        "or"@ != "="@,
        "or"@ != "distinct"@,
        "=>"@ != "xor"@,
        "=>"@ != "="@,
        "=>"@ != "distinct"@,
        "xor"@ != "="@,
        "xor"@ != "distinct"@,
        "="@ != "distinct"@,
{
    reveal_strlit("let");
    reveal_strlit("ite");
    reveal_strlit("true");
    reveal_strlit("false");
    reveal_strlit("not");
    reveal_strlit("and");
    reveal_strlit("or");
    reveal_strlit("=>");
    reveal_strlit("xor");
    reveal_strlit("=");
    reveal_strlit("distinct");
    assert("let"@[0] == 'l' && "ite"@[0] == 'i' && "true"@[0] == 't' && "false"@[0] == 'f');
    assert("not"@[0] == 'n' && "and"@[0] == 'a' && "or"@[0] == 'o' && "=>"@[0] == '=' && "xor"@[0]
        == 'x' && "="@[0] == '=' && "distinct"@[0] == 'd');
    assert("="@.len() == 1 && "=>"@.len() == 2);
}

/// Formulas and terms of sort Bool are the same expressions, and a formula holds exactly where its value
/// as a term is truth.
pub proof fn lemma_formula_is_term(funs: Funs, env: Env, form: Form)
    requires
        well_bound(env),
    ensures
        formula(funs, env, form) is Ok <==> (term(funs, env, form) matches Ok((sort, val)) && sort
            == SortView::Bool),
        formula(funs, env, form) matches Ok(p) ==> forall|s: Structure| #[trigger]
            two_valued(s) ==> p(s) == ((term(funs, env, form)->Ok_0).1(s) == truth(s)),
        term(funs, env, form) matches Ok((sort, val)) ==> sort == SortView::Bool
            ==> boolean_valued(val),
        term(funs, env, form) matches Ok((sort, val)) ==> is_boolean(funs, env, form) is Ok,
        is_boolean(funs, env, form) == Ok::<bool, Seq<char>>(true) ==> (term(funs, env, form)
            matches Ok((sort, val)) ==> sort == SortView::Bool),
    decreases form, 1nat,
{
    lemma_heads();
    match form {
        Form::Atom(atom) => {
            if lookup(env, atom) is Some {
                lemma_lookup_from(env, atom);
            }
            if term(funs, env, form) is Ok && (term(funs, env, form)->Ok_0).0 == SortView::Bool {
                let val = (term(funs, env, form)->Ok_0).1;
                assert forall|s: Structure| #[trigger] two_valued(s) implies val(s) == truth(s)
                    || val(s) == falsity(s) by {}
            }
        },
        Form::List(items) => {
            if head_of(items) == Some("let"@) {
                if items.len() == 3 && items[1] is List {
                    let bindings = items[1]->List_0;
                    assert(decreases_to!(form => items));
assert(decreases_to!(items => items[1]));
assert(decreases_to!(items[1] => bindings));
                    assert(decreases_to!(form => items));
assert(decreases_to!(items => items[2]));
                    lemma_scope_bound(funs, env, bindings, bindings.len());
                    if let_scope(funs, env, bindings, bindings.len()) is Ok {
                        let scope = let_scope(funs, env, bindings, bindings.len())->Ok_0;
                        lemma_env_push(env, scope);
                        lemma_formula_is_term(funs, env.push(scope), items[2]);
                    }
                }
            } else if head_of(items) == Some("ite"@) {
                if items.len() == 4 {
                    assert(decreases_to!(form => items));
assert(decreases_to!(items => items[1]));
                    assert(decreases_to!(form => items));
assert(decreases_to!(items => items[2]));
                    assert(decreases_to!(form => items));
assert(decreases_to!(items => items[3]));
                    lemma_formula_is_term(funs, env, items[1]);
                    lemma_formula_is_term(funs, env, items[2]);
                    lemma_formula_is_term(funs, env, items[3]);
                    if term(funs, env, form) is Ok {
                        let (sort, val) = term(funs, env, form)->Ok_0;
                        if sort == SortView::Bool {
                            assert(boolean_valued(val));
                        }
                    }
                }
            } else if head_of(items) is Some && is_connective(head_of(items)->0) {
                if connective(funs, env, form) is Ok {
                    let p = connective(funs, env, form)->Ok_0;
                    assert(boolean_valued(reified(p)));
                }
            } else {
                if term(funs, env, form) is Ok {
                    let (sort, val) = term(funs, env, form)->Ok_0;
                    if sort == SortView::Bool {
                        assert(boolean_valued(val));
                    }
                }
            }
        },
    }
}

proof fn lemma_env_push(env: Env, scope: Map<Seq<char>, Den>)
    requires
        well_bound(env),
        forall|name: Seq<char>| #[trigger] scope.contains_key(name) ==> well_denoted(scope[name]),
    ensures
        well_bound(env.push(scope)),
{
    let more = env.push(scope);
    assert forall|i: int, n: Seq<char>|
        0 <= i < more.len() && #[trigger] more[i].contains_key(n) implies well_denoted(
        more[i][n],
    ) by {
        if i < env.len() {
            assert(env[i].contains_key(n));
        }
    }
}

proof fn lemma_scope_bound(funs: Funs, env: Env, bindings: Seq<Form>, n: nat)
    requires
        well_bound(env),
    ensures
        let_scope(funs, env, bindings, n) matches Ok(scope) ==> forall|name: Seq<char>| #[trigger]
            scope.contains_key(name) ==> well_denoted(scope[name]),
    decreases bindings, n,
{
    if 0 < n && n <= bindings.len() {
        lemma_scope_bound(funs, env, bindings, (n - 1) as nat);
        if bindings[n - 1] is List {
            let pair = bindings[n - 1]->List_0;
            if pair.len() == 2 {
                assert(decreases_to!(bindings => bindings[n - 1]));
assert(decreases_to!(bindings[n - 1] => pair));
assert(decreases_to!(pair => pair[1]));
                lemma_formula_is_term(funs, env, pair[1]);
            }
        }
    }
}

/// The constants mean truth and falsity.
pub proof fn lemma_constants(funs: Funs, env: Env, s: Structure)
    requires
        two_valued(s),
    ensures
        formula(funs, env, Form::Atom("true"@)) matches Ok(p) && p(s),
        formula(funs, env, Form::Atom("false"@)) matches Ok(p) && !p(s),
{
    lemma_heads();
}

/// A negation holds exactly where its argument does not.
pub proof fn lemma_not(funs: Funs, env: Env, form: Form, s: Structure)
    requires
        is_call(form, "not"@, 1),
    ensures
        formula(funs, env, form) is Ok <==> formula(funs, env, arg(form, 1)) is Ok,
        formula(funs, env, form) matches Ok(p) ==> p(s) == !(formula(
            funs,
            env,
            arg(form, 1),
        )->Ok_0)(s),
{
    lemma_heads();
    assert(head_of(form->List_0) == Some("not"@));
    assert(formula(funs, env, form) == connective(funs, env, form));
}

/// An implication fails exactly where its premise holds and its conclusion does not; an exclusive
/// disjunction holds exactly where one of its arguments does.
pub proof fn lemma_binary(funs: Funs, env: Env, form: Form, s: Structure)
    requires
        is_call(form, "=>"@, 2) || is_call(form, "xor"@, 2),
    ensures
        formula(funs, env, form) is Ok <==> formula(funs, env, arg(form, 1)) is Ok && formula(
            funs,
            env,
            arg(form, 2),
        ) is Ok,
        formula(funs, env, form) matches Ok(p) ==> {
            let q = formula(funs, env, arg(form, 1))->Ok_0;
            let r = formula(funs, env, arg(form, 2))->Ok_0;
            &&& is_call(form, "=>"@, 2) ==> (!p(s) <==> q(s) && !r(s))
            &&& is_call(form, "xor"@, 2) ==> (p(s) <==> q(s) && !r(s) || !q(s) && r(s))
        },
{
    lemma_heads();
    assert(head_of(form->List_0) == Some("=>"@) || head_of(form->List_0) == Some("xor"@));
    assert(formula(funs, env, form) == connective(funs, env, form));
}

proof fn lemma_formulas(funs: Funs, env: Env, items: Seq<Form>, n: nat)
    requires
        n <= items.len(),
    ensures
        formulas(funs, env, items, n) is Ok <==> forall|i: int|
            1 <= i < n ==> formula(funs, env, #[trigger] items[i]) is Ok,
        formulas(funs, env, items, n) matches Ok(ps) ==> {
            &&& ps.len() == if n <= 1 {
                0
            } else {
                n - 1
            }
            &&& forall|i: int|
                1 <= i < n ==> formula(funs, env, #[trigger] items[i]) == Ok::<Prop, Seq<char>>(
                    ps[i - 1],
                )
        },
    decreases n,
{
    if n > 1 {
        lemma_formulas(funs, env, items, (n - 1) as nat);
    }
}

/// A conjunction holds exactly where all of its arguments do, a disjunction exactly where one does; so
/// the empty conjunction always holds, and the empty disjunction never.
pub proof fn lemma_junctions(funs: Funs, env: Env, form: Form, n: nat, s: Structure)
    requires
        is_call(form, "and"@, n) || is_call(form, "or"@, n),
    ensures
        formula(funs, env, form) is Ok <==> forall|i: int|
            1 <= i <= n ==> formula(funs, env, #[trigger] arg(form, i)) is Ok,
        formula(funs, env, form) matches Ok(p) ==> {
            &&& is_call(form, "and"@, n) ==> (p(s) <==> forall|i: int|
                1 <= i <= n ==> (formula(funs, env, #[trigger] arg(form, i))->Ok_0)(s))
            &&& is_call(form, "or"@, n) ==> (p(s) <==> exists|i: int|
                1 <= i <= n && (formula(funs, env, #[trigger] arg(form, i))->Ok_0)(s))
        },
{
    lemma_heads();
    let items = form->List_0;
    assert(head_of(items) == Some("and"@) || head_of(items) == Some("or"@));
    assert(formula(funs, env, form) == connective(funs, env, form));
    lemma_formulas(funs, env, items, items.len());
    assert forall|i: int| 1 <= i <= n implies #[trigger] arg(form, i) == items[i] by {}
    if forall|i: int| 1 <= i <= n ==> formula(funs, env, #[trigger] arg(form, i)) is Ok {
        assert forall|i: int| 1 <= i < items.len() implies formula(
            funs,
            env,
            #[trigger] items[i],
        ) is Ok by {
            assert(formula(funs, env, arg(form, i)) is Ok);
        }
    }
    if formulas(funs, env, items, items.len()) is Ok {
        let ps = formulas(funs, env, items, items.len())->Ok_0;
        let p = formula(funs, env, form)->Ok_0;
        assert forall|i: int| 1 <= i <= n implies formula(funs, env, #[trigger] arg(form, i))
            == Ok::<Prop, Seq<char>>(ps[i - 1]) by {
            assert(formula(funs, env, items[i]) == Ok::<Prop, Seq<char>>(ps[i - 1]));
        }
        if is_call(form, "and"@, n) {
            if p(s) {
                assert forall|i: int| 1 <= i <= n implies (formula(
                    funs,
                    env,
                    #[trigger] arg(form, i),
                )->Ok_0)(s) by {
                    assert(ps[i - 1](s));
                }
            }
            if forall|i: int|
                1 <= i <= n ==> (formula(funs, env, #[trigger] arg(form, i))->Ok_0)(s) {
                assert forall|k: int| 0 <= k < ps.len() implies (#[trigger] ps[k])(s) by {
                    assert((formula(funs, env, arg(form, k + 1))->Ok_0)(s));
                }
            }
        } else {
            if p(s) {
                let k = choose|k: int| 0 <= k < ps.len() && (#[trigger] ps[k])(s);
                assert((formula(funs, env, arg(form, k + 1))->Ok_0)(s));
            }
            if exists|i: int|
                1 <= i <= n && (formula(funs, env, #[trigger] arg(form, i))->Ok_0)(s) {
                let i = choose|i: int|
                    1 <= i <= n && (formula(funs, env, #[trigger] arg(form, i))->Ok_0)(s);
                assert(ps[i - 1](s));
            }
        }
    }
}

/// That items `i` and `j` are equal says that their values are.
proof fn lemma_equality(funs: Funs, env: Env, items: Seq<Form>, i: int, j: int)
    requires
        well_bound(env),
        0 <= i < items.len(),
        0 <= j < items.len(),
    ensures
        equality(funs, env, items, i, j) matches Ok(p) ==> {
            &&& term(funs, env, items[i]) is Ok
            &&& term(funs, env, items[j]) is Ok
            &&& forall|s: Structure| #[trigger]
                two_valued(s) ==> p(s) == ((term(funs, env, items[i])->Ok_0).1(s) == (term(
                    funs,
                    env,
                    items[j],
                )->Ok_0).1(s))
        },
        term(funs, env, items[i]) is Ok && term(funs, env, items[j]) is Ok && (term(
            funs,
            env,
            items[i],
        )->Ok_0).0 == (term(funs, env, items[j])->Ok_0).0 ==> equality(funs, env, items, i, j)
            is Ok,
{
    lemma_formula_is_term(funs, env, items[i]);
    lemma_formula_is_term(funs, env, items[j]);
}

/// An equality holds exactly where the values of its two sides are equal. It is accepted wherever both
/// sides are terms of one sort.
pub proof fn lemma_equals(funs: Funs, env: Env, form: Form, s: Structure)
    requires
        well_bound(env),
        is_call(form, "="@, 2),
        two_valued(s),
    ensures
        ({
            let x = term(funs, env, arg(form, 1));
            let y = term(funs, env, arg(form, 2));
            &&& formula(funs, env, form) matches Ok(p) ==> x is Ok && y is Ok && (p(s) <==> (
            x->Ok_0).1(s) == (y->Ok_0).1(s))
            &&& x is Ok && y is Ok && (x->Ok_0).0 == (y->Ok_0).0 ==> formula(funs, env, form) is Ok
        }),
{
    lemma_heads();
    let items = form->List_0;
    assert(head_of(items) == Some("="@));
    assert(formula(funs, env, form) == connective(funs, env, form));
    lemma_equality(funs, env, items, 1, 2);
}

proof fn lemma_row(funs: Funs, env: Env, items: Seq<Form>, i: nat, j: nat)
    requires
        j <= items.len(),
        1 <= i,
    ensures
        distinct_row(funs, env, items, i, j) is Ok <==> forall|k: int|
            i < k < j ==> (#[trigger] equality(funs, env, items, i as int, k)) is Ok,
        distinct_row(funs, env, items, i, j) matches Ok(ps) ==> forall|s: Structure| #[trigger]
            all_of(ps)(s) <==> forall|k: int|
                i < k < j ==> !((#[trigger] equality(funs, env, items, i as int, k))->Ok_0)(s),
    decreases j,
{
    if j > i + 1 {
        lemma_row(funs, env, items, i, (j - 1) as nat);
        let before = distinct_row(funs, env, items, i, (j - 1) as nat);
        let last = equality(funs, env, items, i as int, j - 1);
        if distinct_row(funs, env, items, i, j) is Ok {
            let ps = before->Ok_0;
            let p = last->Ok_0;
            let differs = |s: Structure| !p(s);
            let more = ps.push(differs);
            assert(distinct_row(funs, env, items, i, j)->Ok_0 == more);
            assert forall|s: Structure| #[trigger] all_of(more)(s) <==> forall|k: int|
                i < k < j ==> !((#[trigger] equality(
                    funs,
                    env,
                    items,
                    i as int,
                    k,
                ))->Ok_0)(s) by {
                assert(more[ps.len() as int] == differs);
                if all_of(more)(s) {
                    assert(more[ps.len() as int](s));
                    assert(all_of(ps)(s)) by {
                        assert forall|x: int| 0 <= x < ps.len() implies (#[trigger] ps[x])(s) by {
                            assert(more[x](s));
                        }
                    }
                }
                if forall|k: int|
                    i < k < j ==> !((#[trigger] equality(
                        funs,
                        env,
                        items,
                        i as int,
                        k,
                    ))->Ok_0)(s) {
                    assert(!(equality(funs, env, items, i as int, j - 1)->Ok_0)(s));
                    assert(all_of(ps)(s));
                    assert forall|x: int| 0 <= x < more.len() implies (#[trigger] more[x])(s) by {
                        if x < ps.len() {
                            assert(ps[x](s));
                        }
                    }
                }
            }
        }
    } else if distinct_row(funs, env, items, i, j) is Ok {
        let ps = distinct_row(funs, env, items, i, j)->Ok_0;
        assert forall|s: Structure| #[trigger] all_of(ps)(s) by {}
    }
}

proof fn lemma_pairs(funs: Funs, env: Env, items: Seq<Form>, n: nat)
    requires
        n <= items.len(),
    ensures
        distinct_pairs(funs, env, items, n) is Ok <==> forall|i: int, k: int|
            1 <= i < n && i < k < items.len() ==> (#[trigger] equality(funs, env, items, i, k))
                is Ok,
        distinct_pairs(funs, env, items, n) matches Ok(ps) ==> forall|s: Structure| #[trigger]
            all_of(ps)(s) <==> forall|i: int, k: int|
                1 <= i < n && i < k < items.len() ==> !((#[trigger] equality(
                    funs,
                    env,
                    items,
                    i,
                    k,
                ))->Ok_0)(s),
    decreases n,
{
    if n > 1 {
        let m = (n - 1) as nat;
        lemma_pairs(funs, env, items, m);
        lemma_row(funs, env, items, m, items.len());
        let before = distinct_pairs(funs, env, items, m);
        let row = distinct_row(funs, env, items, m, items.len());
        if distinct_pairs(funs, env, items, n) is Ok {
            let ps = before->Ok_0;
            let qs = row->Ok_0;
            let both = ps + qs;
            assert forall|s: Structure| #[trigger] all_of(both)(s) <==> forall|i: int, k: int|
                1 <= i < n && i < k < items.len() ==> !((#[trigger] equality(
                    funs,
                    env,
                    items,
                    i,
                    k,
                ))->Ok_0)(s) by {
                if all_of(both)(s) {
                    assert(all_of(ps)(s)) by {
                        assert forall|x: int| 0 <= x < ps.len() implies (#[trigger] ps[x])(s) by {
                            assert(both[x](s));
                        }
                    }
                    assert(all_of(qs)(s)) by {
                        assert forall|x: int| 0 <= x < qs.len() implies (#[trigger] qs[x])(s) by {
                            assert(both[ps.len() + x](s));
                        }
                    }
                }
                if forall|i: int, k: int|
                    1 <= i < n && i < k < items.len() ==> !((#[trigger] equality(
                        funs,
                        env,
                        items,
                        i,
                        k,
                    ))->Ok_0)(s) {
                    assert(all_of(ps)(s));
                    assert(all_of(qs)(s));
                    assert forall|x: int| 0 <= x < both.len() implies (#[trigger] both[x])(s) by {
                        if x < ps.len() {
                            assert(ps[x](s));
                        } else {
                            assert(qs[x - ps.len()](s));
                        }
                    }
                }
            }
        }
    } else if distinct_pairs(funs, env, items, n) is Ok {
        let ps = distinct_pairs(funs, env, items, n)->Ok_0;
        assert forall|s: Structure| #[trigger] all_of(ps)(s) by {}
    }
}

/// Constructs with a fixed number of arguments are refused with any other.
pub proof fn lemma_arities(funs: Funs, env: Env, form: Form, n: nat)
    ensures
        is_call(form, "not"@, n) && n != 1 ==> formula(funs, env, form) is Err,
        is_call(form, "="@, n) && n != 2 ==> formula(funs, env, form) is Err,
        is_call(form, "=>"@, n) && n != 2 ==> formula(funs, env, form) is Err,
        is_call(form, "xor"@, n) && n != 2 ==> formula(funs, env, form) is Err,
        is_call(form, "ite"@, n) && n != 3 ==> formula(funs, env, form) is Err && term(
            funs,
            env,
            form,
        ) is Err,
        is_call(form, "let"@, n) && n != 2 ==> formula(funs, env, form) is Err && term(
            funs,
            env,
            form,
        ) is Err,
{
    lemma_heads();
    if form is List && (form->List_0).len() > 0 && (form->List_0)[0] is Atom {
        let head = (form->List_0)[0]->Atom_0;
        assert(head_of(form->List_0) == Some(head));
        if is_connective(head) {
            assert(formula(funs, env, form) == connective(funs, env, form));
        }
    }
}

/// The values of arguments `i` and `j` are equal in the structure.
pub open spec fn same_values(funs: Funs, env: Env, form: Form, i: int, j: int, s: Structure) -> bool {
    (term(funs, env, arg(form, i))->Ok_0).1(s) == (term(funs, env, arg(form, j))->Ok_0).1(s)
}

/// A distinctness formula holds exactly where, for every pair of different argument positions, the
/// values of the two arguments differ. Of a single argument it always holds. It is accepted wherever
/// all arguments are terms of one sort.
pub proof fn lemma_distinct(funs: Funs, env: Env, form: Form, n: nat, s: Structure)
    requires
        well_bound(env),
        is_call(form, "distinct"@, n),
        two_valued(s),
    ensures
        formula(funs, env, form) matches Ok(p) ==> {
            &&& n > 1 ==> forall|i: int|
                1 <= i <= n ==> term(funs, env, #[trigger] arg(form, i)) is Ok
            &&& p(s) <==> forall|i: int, j: int|
                1 <= i < j <= n ==> !#[trigger] same_values(funs, env, form, i, j, s)
        },
        (forall|i: int|
            1 <= i <= n ==> term(funs, env, #[trigger] arg(form, i)) is Ok && (term(
                funs,
                env,
                arg(form, i),
            )->Ok_0).0 == (term(funs, env, arg(form, 1))->Ok_0).0) ==> formula(funs, env, form)
            is Ok,
{
    lemma_heads();
    let items = form->List_0;
    assert(head_of(items) == Some("distinct"@));
    assert(formula(funs, env, form) == connective(funs, env, form));
    if n > 1 {
        let m = (items.len() - 1) as nat;
        lemma_pairs(funs, env, items, m);
        assert forall|i: int, k: int| 1 <= i < k <= n implies {
            let eq = #[trigger] equality(funs, env, items, i, k);
            &&& eq is Ok ==> term(funs, env, arg(form, i)) is Ok && term(funs, env, arg(form, k))
                is Ok && (eq->Ok_0)(s) == same_values(funs, env, form, i, k, s)
            &&& term(funs, env, arg(form, i)) is Ok && term(funs, env, arg(form, k)) is Ok && (term(
                funs,
                env,
                arg(form, i),
            )->Ok_0).0 == (term(funs, env, arg(form, k))->Ok_0).0 ==> eq is Ok
        } by {
            lemma_equality(funs, env, items, i, k);
        }
        if formula(funs, env, form) is Ok {
            let p = formula(funs, env, form)->Ok_0;
            assert forall|i: int| 1 <= i <= n implies term(
                funs,
                env,
                #[trigger] arg(form, i),
            ) is Ok by {
                if i < n {
                    assert(equality(funs, env, items, i, n as int) is Ok);
                } else {
                    assert(equality(funs, env, items, 1, i) is Ok);
                }
            }
            if p(s) {
                assert forall|i: int, j: int| 1 <= i < j <= n implies !#[trigger] same_values(
                    funs,
                    env,
                    form,
                    i,
                    j,
                    s,
                ) by {
                    assert(!(equality(funs, env, items, i, j)->Ok_0)(s));
                }
            }
            if forall|i: int, j: int|
                1 <= i < j <= n ==> !#[trigger] same_values(funs, env, form, i, j, s) {
                assert forall|i: int, k: int|
                    1 <= i < m && i < k < items.len() implies !((#[trigger] equality(
                    funs,
                    env,
                    items,
                    i,
                    k,
                ))->Ok_0)(s) by {
                    assert(!same_values(funs, env, form, i, k, s));
                }
            }
        }
        if forall|i: int|
            1 <= i <= n ==> term(funs, env, #[trigger] arg(form, i)) is Ok && (term(
                funs,
                env,
                arg(form, i),
            )->Ok_0).0 == (term(funs, env, arg(form, 1))->Ok_0).0 {
            assert forall|i: int, k: int| 1 <= i < m && i < k < items.len() implies (
            #[trigger] equality(funs, env, items, i, k)) is Ok by {
                assert(term(funs, env, arg(form, i)) is Ok);
                assert(term(funs, env, arg(form, k)) is Ok);
            }
        }
    }
}

/// A conditional has the meaning of the branch that its condition chooses.
pub proof fn lemma_ite(funs: Funs, env: Env, form: Form, s: Structure)
    requires
        is_call(form, "ite"@, 3),
    ensures
        formula(funs, env, form) is Ok <==> formula(funs, env, arg(form, 1)) is Ok && formula(
            funs,
            env,
            arg(form, 2),
        ) is Ok && formula(funs, env, arg(form, 3)) is Ok,
        formula(funs, env, form) matches Ok(p) ==> {
            let c = (formula(funs, env, arg(form, 1))->Ok_0)(s);
            &&& c ==> p(s) == (formula(funs, env, arg(form, 2))->Ok_0)(s)
            &&& !c ==> p(s) == (formula(funs, env, arg(form, 3))->Ok_0)(s)
        },
        term(funs, env, form) is Ok <==> formula(funs, env, arg(form, 1)) is Ok && term(
            funs,
            env,
            arg(form, 2),
        ) is Ok && term(funs, env, arg(form, 3)) is Ok && (term(funs, env, arg(form, 2))->Ok_0).0
            == (term(funs, env, arg(form, 3))->Ok_0).0,
        term(funs, env, form) matches Ok((sort, val)) ==> {
            let c = (formula(funs, env, arg(form, 1))->Ok_0)(s);
            let t = term(funs, env, arg(form, 2))->Ok_0;
            let e = term(funs, env, arg(form, 3))->Ok_0;
            &&& sort == t.0
            &&& sort == e.0
            &&& c ==> val(s) == t.1(s)
            &&& !c ==> val(s) == e.1(s)
        },
{
    lemma_heads();
    assert(head_of(form->List_0) == Some("ite"@));
}

proof fn lemma_terms(funs: Funs, env: Env, items: Seq<Form>, n: nat)
    requires
        n <= items.len(),
    ensures
        terms(funs, env, items, n) is Ok <==> forall|i: int|
            1 <= i < n ==> term(funs, env, #[trigger] items[i]) is Ok,
        terms(funs, env, items, n) matches Ok(vals) ==> {
            &&& vals.len() == if n <= 1 {
                0
            } else {
                n - 1
            }
            &&& forall|i: int|
                1 <= i < n ==> term(funs, env, #[trigger] items[i]) == Ok::<
                    (SortView, Val),
                    Seq<char>,
                >(vals[i - 1])
        },
    decreases n,
{
    if n > 1 {
        lemma_terms(funs, env, items, (n - 1) as nat);
    }
}

/// The head is the name of a function, not of a construct.
pub open spec fn is_function_name(head: Seq<char>) -> bool {
    head != "let"@ && head != "ite"@ && !is_connective(head)
}

/// An application is accepted exactly where its function is declared and its arguments are terms of the
/// declared sorts. Its value is that of the function at the values of its arguments.
pub proof fn lemma_application(funs: Funs, env: Env, form: Form, head: Seq<char>, n: nat, s: Structure)
    requires
        is_call(form, head, n),
        is_function_name(head),
    ensures
        term(funs, env, form) is Ok <==> {
            &&& funs.contains_key(head)
            &&& funs[head].args.len() == n
            &&& forall|i: int|
                1 <= i <= n ==> term(funs, env, #[trigger] arg(form, i)) is Ok && (term(
                    funs,
                    env,
                    arg(form, i),
                )->Ok_0).0 == funs[head].args[i - 1]
        },
        term(funs, env, form) matches Ok((sort, val)) ==> {
            &&& sort == funs[head].result
            &&& forall|values: Seq<int>|
                values.len() == n && (forall|i: int|
                    1 <= i <= n ==> #[trigger] values[i - 1] == (term(
                        funs,
                        env,
                        arg(form, i),
                    )->Ok_0).1(s)) ==> val(s) == #[trigger] s(funs[head], values)
        },
{
    let items = form->List_0;
    assert(head_of(items) == Some(head));
    lemma_terms(funs, env, items, items.len());
    assert forall|i: int| 1 <= i <= n implies #[trigger] arg(form, i) == items[i] by {}
    let accepted = funs.contains_key(head) && funs[head].args.len() == n && forall|i: int|
        1 <= i <= n ==> term(funs, env, #[trigger] arg(form, i)) is Ok && (term(
            funs,
            env,
            arg(form, i),
        )->Ok_0).0 == funs[head].args[i - 1];
    if accepted {
        assert forall|i: int| 1 <= i < items.len() implies term(
            funs,
            env,
            #[trigger] items[i],
        ) is Ok by {
            assert(term(funs, env, arg(form, i)) is Ok);
        }
        let vals = terms(funs, env, items, items.len())->Ok_0;
        assert(argument_sorts(vals) =~= funs[head].args) by {
            assert forall|k: int| 0 <= k < vals.len() implies argument_sorts(vals)[k]
                == funs[head].args[k] by {
                assert(term(funs, env, items[k + 1]) == Ok::<(SortView, Val), Seq<char>>(vals[k]));
                assert((term(funs, env, arg(form, k + 1))->Ok_0).0 == funs[head].args[k]);
            }
        }
    }
    if term(funs, env, form) is Ok {
        let vals = terms(funs, env, items, items.len())->Ok_0;
        assert forall|i: int| 1 <= i <= n implies term(funs, env, #[trigger] arg(form, i)) is Ok
            && (term(funs, env, arg(form, i))->Ok_0).0 == funs[head].args[i - 1] by {
            assert(term(funs, env, items[i]) == Ok::<(SortView, Val), Seq<char>>(vals[i - 1]));
            assert(argument_sorts(vals)[i - 1] == vals[i - 1].0);
        }
        let val = (term(funs, env, form)->Ok_0).1;
        let list = argument_vals(vals);
        assert forall|values: Seq<int>|
            values.len() == n && (forall|i: int|
                1 <= i <= n ==> #[trigger] values[i - 1] == (term(
                    funs,
                    env,
                    arg(form, i),
                )->Ok_0).1(s)) implies val(s) == #[trigger] s(funs[head], values) by {
            let computed = Seq::new(list.len(), |i: int| list[i](s));
            assert(computed =~= values) by {
                assert forall|k: int| 0 <= k < values.len() implies computed[k] == values[k] by {
                    assert(term(funs, env, items[k + 1]) == Ok::<(SortView, Val), Seq<char>>(
                        vals[k],
                    ));
                    assert(values[(k + 1) - 1] == (term(funs, env, arg(form, k + 1))->Ok_0).1(s));
                }
            }
        }
    }
}

/// A name that no scope binds is a declared constant; one that a scope binds has the meaning that it was
/// bound to.
pub proof fn lemma_name(funs: Funs, env: Env, name: Seq<char>, s: Structure)
    requires
        name != "true"@,
        name != "false"@,
    ensures
        lookup(env, name) is None ==> {
            &&& term(funs, env, Form::Atom(name)) is Ok <==> funs.contains_key(name)
                && funs[name].args.len() == 0
            &&& term(funs, env, Form::Atom(name)) matches Ok((sort, val)) ==> sort
                == funs[name].result && val(s) == s(funs[name], Seq::empty())
        },
        lookup(env, name) matches Some(Den::Bool(p)) ==> (formula(funs, env, Form::Atom(name))
            matches Ok(q) && q(s) == p(s)),
        lookup(env, name) matches Some(Den::Term { sort, val }) ==> (term(
            funs,
            env,
            Form::Atom(name),
        ) matches Ok((found, v)) && found == sort && v(s) == val(s)),
{
    if lookup(env, name) is None && funs.contains_key(name) && funs[name].args.len() == 0 {
        let none: Seq<Val> = Seq::empty();
        assert(Seq::new(none.len(), |i: int| none[i](s)) =~= Seq::<int>::empty());
    }
}

/// What a `let` binds: every name of its list, the last time that the list gives it, to what its
/// expression means outside.
pub open spec fn binds_outside(
    funs: Funs,
    env: Env,
    bindings: Seq<Form>,
    scope: Map<Seq<char>, Den>,
) -> bool {
    &&& forall|k: int|
        0 <= k < bindings.len() ==> is_binding(#[trigger] bindings[k]) && scope.contains_key(
            bound_name(bindings[k]),
        )
    &&& forall|name: Seq<char>| #[trigger]
        scope.contains_key(name) ==> exists|k: int|
            0 <= k < bindings.len() && bound_name(#[trigger] bindings[k]) == name
    &&& forall|k: int|
        0 <= k < bindings.len() && (forall|j: int|
            k < j < bindings.len() ==> bound_name(#[trigger] bindings[j]) != bound_name(
                bindings[k],
            )) ==> match scope[bound_name(#[trigger] bindings[k])] {
            Den::Bool(p) => formula(funs, env, bound_value(bindings[k])) == Ok::<Prop, Seq<char>>(
                p,
            ),
            Den::Term { sort, val } => term(funs, env, bound_value(bindings[k])) == Ok::<
                (SortView, Val),
                Seq<char>,
            >((sort, val)),
        }
}

/// The expression is a pair of a name and an expression.
pub open spec fn is_binding(form: Form) -> bool {
    form is List && (form->List_0).len() == 2 && (form->List_0)[0] is Atom
}

/// The name of a binding.
pub open spec fn bound_name(form: Form) -> Seq<char> {
    (form->List_0)[0]->Atom_0
}

/// The expression of a binding.
pub open spec fn bound_value(form: Form) -> Form {
    (form->List_0)[1]
}

proof fn lemma_scope(funs: Funs, env: Env, bindings: Seq<Form>, n: nat)
    requires
        n <= bindings.len(),
        let_scope(funs, env, bindings, n) is Ok,
    ensures
        binds_outside(
            funs,
            env,
            bindings.take(n as int),
            let_scope(funs, env, bindings, n)->Ok_0,
        ),
    decreases n,
{
    let list = bindings.take(n as int);
    let scope = let_scope(funs, env, bindings, n)->Ok_0;
    if n > 0 {
        lemma_scope(funs, env, bindings, (n - 1) as nat);
        let less = bindings.take(n - 1);
        let before = let_scope(funs, env, bindings, (n - 1) as nat)->Ok_0;
        let last = bindings[n - 1];
        assert(list[n - 1] == last);
        assert forall|k: int| 0 <= k < list.len() implies is_binding(#[trigger] list[k])
            && scope.contains_key(bound_name(list[k])) by {
            if k < n - 1 {
                assert(less[k] == list[k]);
                assert(is_binding(less[k]));
            }
        }
        assert forall|name: Seq<char>| #[trigger] scope.contains_key(name) implies exists|k: int|
            0 <= k < list.len() && bound_name(#[trigger] list[k]) == name by {
            if name == bound_name(last) {
                assert(bound_name(list[n - 1]) == name);
            } else {
                let k = choose|k: int| 0 <= k < less.len() && bound_name(#[trigger] less[k]) == name;
                assert(list[k] == less[k]);
            }
        }
        assert forall|k: int|
            0 <= k < list.len() && (forall|j: int|
                k < j < list.len() ==> bound_name(#[trigger] list[j]) != bound_name(
                    list[k],
                )) implies match scope[bound_name(#[trigger] list[k])] {
            Den::Bool(p) => formula(funs, env, bound_value(list[k])) == Ok::<Prop, Seq<char>>(p),
            Den::Term { sort, val } => term(funs, env, bound_value(list[k])) == Ok::<
                (SortView, Val),
                Seq<char>,
            >((sort, val)),
        } by {
            if k < n - 1 {
                assert(list[k] == less[k]);
                assert(bound_name(list[n - 1]) != bound_name(list[k]));
                assert forall|j: int| k < j < less.len() implies bound_name(#[trigger] less[j])
                    != bound_name(less[k]) by {
                    assert(list[j] == less[j]);
                }
            }
        }
    } else {
        assert(list.len() == 0);
    }
}

/// The expression is a binding of a name to a term.
pub open spec fn binds_term(funs: Funs, env: Env, form: Form) -> bool {
    is_binding(form) && term(funs, env, bound_value(form)) is Ok
}

proof fn lemma_scope_accepted(funs: Funs, env: Env, bindings: Seq<Form>, n: nat)
    requires
        well_bound(env),
        n <= bindings.len(),
    ensures
        let_scope(funs, env, bindings, n) is Ok <==> forall|k: int|
            0 <= k < n ==> binds_term(funs, env, #[trigger] bindings[k]),
    decreases n,
{
    if n > 0 {
        lemma_scope_accepted(funs, env, bindings, (n - 1) as nat);
        if is_binding(bindings[n - 1]) {
            lemma_formula_is_term(funs, env, bound_value(bindings[n - 1]));
        }
    }
}

/// A `let` means what its body means once its names stand for what their expressions mean outside of it.
/// It is refused where a binding is not one of a name to a term.
pub proof fn lemma_let(funs: Funs, env: Env, form: Form)
    requires
        well_bound(env),
        is_call(form, "let"@, 2),
        arg(form, 1) is List,
    ensures
        ({
            let bindings = arg(form, 1)->List_0;
            if forall|k: int| 0 <= k < bindings.len() ==> binds_term(funs, env, #[trigger] bindings[k]) {
                exists|scope: Map<Seq<char>, Den>| #[trigger]
                    binds_outside(funs, env, bindings, scope) && formula(funs, env, form) == formula(
                        funs,
                        env.push(scope),
                        arg(form, 2),
                    ) && term(funs, env, form) == term(funs, env.push(scope), arg(form, 2))
            } else {
                formula(funs, env, form) is Err && term(funs, env, form) is Err
            }
        }),
{
    lemma_heads();
    let items = form->List_0;
    assert(head_of(items) == Some("let"@));
    let bindings = items[1]->List_0;
    lemma_scope_accepted(funs, env, bindings, bindings.len());
    if let_scope(funs, env, bindings, bindings.len()) is Ok {
        let scope = let_scope(funs, env, bindings, bindings.len())->Ok_0;
        lemma_scope(funs, env, bindings, bindings.len());
        assert(bindings.take(bindings.len() as int) =~= bindings);
        assert(binds_outside(funs, env, bindings, scope));
    }
}

} // verus!
