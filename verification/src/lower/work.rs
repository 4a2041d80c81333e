//! How many handles lowering an expression may take.

use crate::lower::cost::list_cost;
use crate::lower::denote::{all_terms, bind, formula_head, quantities, Bindings, Names};
use crate::qfuf::denote::head_of;
use crate::qfuf::sexpr::Form;
use vstd::prelude::*;

verus! {

/// The most handles that an expression in formula position takes.
pub open spec fn formula_work(names: Names, env: Bindings, form: Form, depth: nat) -> nat
    decreases depth, 0nat,
{
    if depth == 0 {
        0
    } else {
        let d = (depth - 1) as nat;
        match form {
            Form::Atom(atom) => if env.contains_key(atom) {
                formula_work(names, env, env[atom], d)
            } else {
                list_cost(1) + 1
            },
            Form::List(items) => if head_of(items) == Some("let"@) && items.len() == 3 {
                match bind(env, items[1]) {
                    Err(_) => 0,
                    Ok(more) => formula_work(names, more, items[2], d),
                }
            } else if head_of(items) == Some("distinct"@) {
                terms_work(names, env, items, items.len(), d) + list_cost(items.len())
            } else if head_of(items) == Some("="@) {
                terms_work(names, env, items, items.len(), d) + match quantities(
                    names,
                    env,
                    items,
                    items.len(),
                    d,
                ) {
                    Err(_) => 0,
                    Ok(us) => if all_terms(us) {
                        0
                    } else {
                        formulas_work(names, env, items, items.len(), d)
                    },
                } + list_cost(items.len())
            } else {
                formulas_work(names, env, items, items.len(), d) + list_cost(items.len())
            },
        }
    }
}

/// The most handles that items `1` to `n - 1` take as formulas.
pub open spec fn formulas_work(
    names: Names,
    env: Bindings,
    items: Seq<Form>,
    n: nat,
    depth: nat,
) -> nat
    decreases depth, n,
{
    if n <= 1 {
        0
    } else {
        formulas_work(names, env, items, (n - 1) as nat, depth) + formula_work(
            names,
            env,
            items[n - 1],
            depth,
        )
    }
}

/// The most handles that an expression in term position takes.
pub open spec fn term_work(names: Names, env: Bindings, form: Form, depth: nat) -> nat
    decreases depth, 0nat,
{
    if depth == 0 {
        0
    } else {
        let d = (depth - 1) as nat;
        match form {
            Form::Atom(atom) => if env.contains_key(atom) {
                term_work(names, env, env[atom], d)
            } else {
                3
            },
            Form::List(items) => match head_of(items) {
                None => 0,
                Some(head) => if head == "let"@ && items.len() == 3 {
                    match bind(env, items[1]) {
                        Err(_) => 0,
                        Ok(more) => term_work(names, more, items[2], d),
                    }
                } else if head == "ite"@ && items.len() == 4 {
                    formula_work(names, env, items[1], d) + term_work(names, env, items[2], d)
                        + term_work(names, env, items[3], d) + 9
                } else if formula_head(head) {
                    0
                } else {
                    terms_work(names, env, items, items.len(), d) + 3
                },
            },
        }
    }
}

/// The most handles that items `1` to `n - 1` take as terms.
pub open spec fn terms_work(
    names: Names,
    env: Bindings,
    items: Seq<Form>,
    n: nat,
    depth: nat,
) -> nat
    decreases depth, n,
{
    if n <= 1 {
        0
    } else {
        terms_work(names, env, items, (n - 1) as nat, depth) + term_work(
            names,
            env,
            items[n - 1],
            depth,
        )
    }
}

/// The first items take no more than all of them.
pub proof fn lemma_formulas_work(
    names: Names,
    env: Bindings,
    items: Seq<Form>,
    k: nat,
    n: nat,
    depth: nat,
)
    requires
        k <= n,
    ensures
        formulas_work(names, env, items, k, depth) <= formulas_work(names, env, items, n, depth),
    decreases n,
{
    if k < n {
        lemma_formulas_work(names, env, items, k, (n - 1) as nat, depth);
    }
}

/// What the items of short lists take.
pub proof fn lemma_short_lists(names: Names, env: Bindings, items: Seq<Form>, depth: nat)
    ensures
        formulas_work(names, env, items, 2, depth) == formula_work(names, env, items[1], depth),
        formulas_work(names, env, items, 3, depth) == formula_work(names, env, items[1], depth)
            + formula_work(names, env, items[2], depth),
        formulas_work(names, env, items, 4, depth) == formula_work(names, env, items[1], depth)
            + formula_work(names, env, items[2], depth) + formula_work(
            names,
            env,
            items[3],
            depth,
        ),
{
    assert(formulas_work(names, env, items, 1, depth) == 0);
    assert(formulas_work(names, env, items, 2, depth) == formulas_work(names, env, items, 1, depth)
        + formula_work(names, env, items[1], depth));
    assert(formulas_work(names, env, items, 3, depth) == formulas_work(names, env, items, 2, depth)
        + formula_work(names, env, items[2], depth));
}

/// The first items take no more than all of them.
pub proof fn lemma_terms_work(
    names: Names,
    env: Bindings,
    items: Seq<Form>,
    k: nat,
    n: nat,
    depth: nat,
)
    requires
        k <= n,
    ensures
        terms_work(names, env, items, k, depth) <= terms_work(names, env, items, n, depth),
    decreases n,
{
    if k < n {
        lemma_terms_work(names, env, items, k, (n - 1) as nat, depth);
    }
}

/// Longer lists cost no less.
pub proof fn lemma_list_cost(k: nat, n: nat)
    requires
        k <= n,
    ensures
        list_cost(k) <= list_cost(n),
{
    assert(k * k <= n * n) by (nonlinear_arith)
        requires
            k <= n,
    ;
}

/// The heads of lists with a rule of their own differ from each other.
pub proof fn lemma_heads_apart()
    ensures
        "let"@ != "and"@,
        "let"@ != "or"@,
        "let"@ != "not"@,
        "let"@ != "=>"@,
        "let"@ != "="@,
        "let"@ != "distinct"@,
        "let"@ != "ite"@,
        "distinct"@ != "and"@,
        "distinct"@ != "or"@,
        "distinct"@ != "not"@,
        "distinct"@ != "=>"@,
        "distinct"@ != "="@,
        "distinct"@ != "ite"@,
        "="@ != "and"@,
        "="@ != "or"@,
        "="@ != "not"@,
        "="@ != "=>"@,
        "="@ != "ite"@,
{
    reveal_strlit("let");
    reveal_strlit("and");
    reveal_strlit("or");
    reveal_strlit("not");
    reveal_strlit("=>");
    reveal_strlit("=");
    reveal_strlit("distinct");
    reveal_strlit("ite");
    assert("let"@[0] == 'l' && "distinct"@[0] == 'd' && "="@.len() == 1);
    assert("and"@[0] == 'a' && "or"@[0] == 'o' && "not"@[0] == 'n' && "ite"@[0] == 'i' && "=>"@[0]
        == '=');
}

} // verus!
