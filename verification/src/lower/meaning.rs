//! What expressions mean, by their shape.

use crate::lower::denote::{
    all_claims, all_terms, any_claim, applied, bind, bind_pairs, claim, claims, claims_chain,
    formula_head, quantities, quantities_chain, quantities_distinct, quantity, terms_only, Bindings,
    Claim, Definition, Model, Names, Quantity,
};
use crate::qfuf::denote::head_of;
use crate::qfuf::meaning::{arg, bound_name, bound_value, is_binding, is_call, lemma_heads};
use crate::qfuf::sexpr::Form;
use vstd::prelude::*;

verus! {

/// What an argument says, as a formula.
pub open spec fn says(names: Names, env: Bindings, form: Form, i: int, depth: nat, m: Model) -> bool {
    claim(names, env, arg(form, i), depth) matches Ok(p) && p(m)
}

/// An argument is a term.
pub open spec fn is_term(names: Names, env: Bindings, form: Form, i: int, depth: nat) -> bool {
    quantity(names, env, arg(form, i), depth) matches Ok(u) && u is Some
}

/// The value of an argument, as a term.
pub open spec fn value_at(names: Names, env: Bindings, form: Form, i: int, depth: nat, m: Model) -> int {
    ((quantity(names, env, arg(form, i), depth)->Ok_0)->0)(m)
}

proof fn lemma_claims(names: Names, env: Bindings, items: Seq<Form>, n: nat, depth: nat)
    requires
        n <= items.len(),
    ensures
        claims(names, env, items, n, depth) is Ok <==> forall|i: int|
            1 <= i < n ==> claim(names, env, #[trigger] items[i], depth) is Ok,
        claims(names, env, items, n, depth) matches Ok(ps) ==> {
            &&& ps.len() == if n <= 1 {
                0
            } else {
                n - 1
            }
            &&& forall|i: int|
                1 <= i < n ==> claim(names, env, #[trigger] items[i], depth) == Ok::<
                    Claim,
                    Seq<char>,
                >(ps[i - 1])
        },
    decreases n,
{
    if n > 1 {
        lemma_claims(names, env, items, (n - 1) as nat, depth);
    }
}

proof fn lemma_quantities(names: Names, env: Bindings, items: Seq<Form>, n: nat, depth: nat)
    requires
        n <= items.len(),
    ensures
        quantities(names, env, items, n, depth) is Ok <==> forall|i: int|
            1 <= i < n ==> quantity(names, env, #[trigger] items[i], depth) is Ok,
        quantities(names, env, items, n, depth) matches Ok(us) ==> {
            &&& us.len() == if n <= 1 {
                0
            } else {
                n - 1
            }
            &&& forall|i: int|
                1 <= i < n ==> quantity(names, env, #[trigger] items[i], depth) == Ok::<
                    Option<Quantity>,
                    Seq<char>,
                >(us[i - 1])
        },
    decreases n,
{
    if n > 1 {
        lemma_quantities(names, env, items, (n - 1) as nat, depth);
    }
}

/// A negation holds exactly where its argument does not, and an implication fails exactly where its
/// premise holds and its conclusion does not.
pub proof fn lemma_not_implies(names: Names, env: Bindings, form: Form, depth: nat, m: Model)
    ensures
        is_call(form, "not"@, 1) ==> {
            &&& claim(names, env, form, depth + 1) is Ok <==> claim(
                names,
                env,
                arg(form, 1),
                depth,
            ) is Ok
            &&& claim(names, env, form, depth + 1) matches Ok(p) ==> p(m) == !says(
                names,
                env,
                form,
                1,
                depth,
                m,
            )
        },
        is_call(form, "=>"@, 2) ==> {
            &&& claim(names, env, form, depth + 1) is Ok <==> claim(
                names,
                env,
                arg(form, 1),
                depth,
            ) is Ok && claim(names, env, arg(form, 2), depth) is Ok
            &&& claim(names, env, form, depth + 1) matches Ok(p) ==> (!p(m) <==> says(
                names,
                env,
                form,
                1,
                depth,
                m,
            ) && !says(names, env, form, 2, depth, m))
        },
{
    lemma_heads();
    if is_call(form, "not"@, 1) || is_call(form, "=>"@, 2) {
        assert(head_of(form->List_0) == Some((form->List_0)[0]->Atom_0));
    }
}

/// A conjunction holds exactly where all of its arguments do, a disjunction exactly where one does.
pub proof fn lemma_junctions(names: Names, env: Bindings, form: Form, n: nat, depth: nat, m: Model)
    requires
        is_call(form, "and"@, n) || is_call(form, "or"@, n),
    ensures
        claim(names, env, form, depth + 1) is Ok <==> forall|i: int|
            1 <= i <= n ==> claim(names, env, #[trigger] arg(form, i), depth) is Ok,
        claim(names, env, form, depth + 1) matches Ok(p) ==> {
            &&& is_call(form, "and"@, n) ==> (p(m) <==> forall|i: int|
                1 <= i <= n ==> #[trigger] says(names, env, form, i, depth, m))
            &&& is_call(form, "or"@, n) ==> (p(m) <==> exists|i: int|
                1 <= i <= n && #[trigger] says(names, env, form, i, depth, m))
        },
{
    lemma_heads();
    let items = form->List_0;
    assert(head_of(items) == Some(items[0]->Atom_0));
    lemma_claims(names, env, items, items.len(), depth);
    assert forall|i: int| 1 <= i <= n implies #[trigger] arg(form, i) == items[i] by {}
    if forall|i: int| 1 <= i <= n ==> claim(names, env, #[trigger] arg(form, i), depth) is Ok {
        assert forall|i: int| 1 <= i < items.len() implies claim(
            names,
            env,
            #[trigger] items[i],
            depth,
        ) is Ok by {
            assert(claim(names, env, arg(form, i), depth) is Ok);
        }
    }
    if claim(names, env, form, depth + 1) is Ok {
        let ps = claims(names, env, items, items.len(), depth)->Ok_0;
        let p = claim(names, env, form, depth + 1)->Ok_0;
        assert forall|i: int| 1 <= i <= n implies #[trigger] says(names, env, form, i, depth, m)
            == ps[i - 1](m) by {
            assert(claim(names, env, items[i], depth) == Ok::<Claim, Seq<char>>(ps[i - 1]));
        }
        if is_call(form, "and"@, n) {
            assert(p == all_claims(ps));
            if p(m) {
                assert forall|i: int| 1 <= i <= n implies #[trigger] says(
                    names,
                    env,
                    form,
                    i,
                    depth,
                    m,
                ) by {
                    assert(ps[i - 1](m));
                }
            }
            if forall|i: int| 1 <= i <= n ==> #[trigger] says(names, env, form, i, depth, m) {
                assert forall|k: int| 0 <= k < ps.len() implies (#[trigger] ps[k])(m) by {
                    assert(says(names, env, form, k + 1, depth, m));
                }
            }
        } else {
            assert(p == any_claim(ps));
            if p(m) {
                let k = choose|k: int| 0 <= k < ps.len() && (#[trigger] ps[k])(m);
                assert(says(names, env, form, k + 1, depth, m));
            }
            if exists|i: int| 1 <= i <= n && #[trigger] says(names, env, form, i, depth, m) {
                let i = choose|i: int| 1 <= i <= n && #[trigger] says(names, env, form, i, depth, m);
                assert(ps[i - 1](m));
            }
        }
    }
}

proof fn lemma_chain_all(values: spec_fn(int) -> int, n: int, i: int, j: int)
    requires
        1 <= i <= j <= n,
        forall|k: int| 1 <= k < n ==> #[trigger] values(k) == values(k + 1),
    ensures
        values(i) == values(j),
    decreases j - i,
{
    if i < j {
        lemma_chain_all(values, n, i, j - 1);
    }
}

/// An equality of terms holds exactly where the values of all its arguments are the same.
pub proof fn lemma_equal_terms(names: Names, env: Bindings, form: Form, n: nat, depth: nat, m: Model)
    requires
        is_call(form, "="@, n),
        forall|i: int| 1 <= i <= n ==> #[trigger] is_term(names, env, form, i, depth),
    ensures
        claim(names, env, form, depth + 1) matches Ok(p) && (p(m) <==> forall|i: int, j: int|
            1 <= i <= n && 1 <= j <= n ==> #[trigger] value_at(names, env, form, i, depth, m)
                == #[trigger] value_at(names, env, form, j, depth, m)),
{
    lemma_heads();
    let items = form->List_0;
    assert(head_of(items) == Some("="@));
    if n >= 2 {
        lemma_quantities(names, env, items, items.len(), depth);
        assert forall|i: int| 1 <= i < items.len() implies quantity(
            names,
            env,
            #[trigger] items[i],
            depth,
        ) is Ok by {
            assert(is_term(names, env, form, i, depth));
        }
        let us = quantities(names, env, items, items.len(), depth)->Ok_0;
        assert forall|k: int| 0 <= k < us.len() implies (#[trigger] us[k]) is Some && terms_only(
            us,
        )[k](m) == value_at(names, env, form, k + 1, depth, m) by {
            assert(is_term(names, env, form, k + 1, depth));
            assert(quantity(names, env, items[k + 1], depth) == Ok::<Option<Quantity>, Seq<char>>(
                us[k],
            ));
        }
        let list = terms_only(us);
        let p = claim(names, env, form, depth + 1)->Ok_0;
        assert(p == quantities_chain(list));
        let values = |i: int| value_at(names, env, form, i, depth, m);
        if p(m) {
            assert forall|k: int| 1 <= k < n implies #[trigger] values(k) == values(k + 1) by {
                assert(us[k - 1] is Some && us[k] is Some);
                assert(list[k - 1](m) == list[k - 1 + 1](m));
            }
            assert forall|i: int, j: int| 1 <= i <= n && 1 <= j <= n implies #[trigger] value_at(
                names,
                env,
                form,
                i,
                depth,
                m,
            ) == #[trigger] value_at(names, env, form, j, depth, m) by {
                if i <= j {
                    lemma_chain_all(values, n as int, i, j);
                } else {
                    lemma_chain_all(values, n as int, j, i);
                }
                assert(values(i) == values(j));
            }
        }
        if forall|i: int, j: int|
            1 <= i <= n && 1 <= j <= n ==> #[trigger] value_at(names, env, form, i, depth, m)
                == #[trigger] value_at(names, env, form, j, depth, m) {
            assert forall|k: int| 0 <= k && k + 1 < list.len() implies (#[trigger] list[k])(m)
                == list[k + 1](m) by {
                assert(us[k] is Some && us[k + 1] is Some);
                assert(value_at(names, env, form, k + 1, depth, m) == value_at(
                    names,
                    env,
                    form,
                    k + 2,
                    depth,
                    m,
                ));
            }
        }
    }
}

/// An equality with an argument that is no term holds exactly where all its arguments have the same truth
/// value.
pub proof fn lemma_equal_formulas(
    names: Names,
    env: Bindings,
    form: Form,
    n: nat,
    depth: nat,
    m: Model,
)
    requires
        is_call(form, "="@, n),
        n >= 2,
        !forall|i: int| 1 <= i <= n ==> #[trigger] is_term(names, env, form, i, depth),
    ensures
        claim(names, env, form, depth + 1) matches Ok(p) ==> {
            &&& forall|i: int|
                1 <= i <= n ==> claim(names, env, #[trigger] arg(form, i), depth) is Ok
            &&& p(m) <==> forall|i: int, j: int|
                1 <= i <= n && 1 <= j <= n ==> #[trigger] says(names, env, form, i, depth, m)
                    == #[trigger] says(names, env, form, j, depth, m)
        },
{
    lemma_heads();
    let items = form->List_0;
    assert(head_of(items) == Some("="@));
    if claim(names, env, form, depth + 1) is Ok {
        lemma_quantities(names, env, items, items.len(), depth);
        lemma_claims(names, env, items, items.len(), depth);
        let us = quantities(names, env, items, items.len(), depth)->Ok_0;
        let t = choose|i: int| 1 <= i <= n && !#[trigger] is_term(names, env, form, i, depth);
        assert(quantity(names, env, items[t], depth) == Ok::<Option<Quantity>, Seq<char>>(
            us[t - 1],
        ));
        assert(!all_terms(us));
        let ps = claims(names, env, items, items.len(), depth)->Ok_0;
        let p = claim(names, env, form, depth + 1)->Ok_0;
        assert(p == claims_chain(ps));
        assert forall|i: int| 1 <= i <= n implies claim(
            names,
            env,
            #[trigger] arg(form, i),
            depth,
        ) is Ok by {
            assert(claim(names, env, items[i], depth) is Ok);
        }
        assert forall|i: int| 1 <= i <= n implies #[trigger] says(names, env, form, i, depth, m)
            == ps[i - 1](m) by {
            assert(claim(names, env, items[i], depth) == Ok::<Claim, Seq<char>>(ps[i - 1]));
        }
        let values = |i: int|
            if says(names, env, form, i, depth, m) {
                1int
            } else {
                0int
            };
        if p(m) {
            assert forall|k: int| 1 <= k < n implies #[trigger] values(k) == values(k + 1) by {
                assert(ps[k - 1](m) == ps[k - 1 + 1](m));
                assert(says(names, env, form, k, depth, m) == says(
                    names,
                    env,
                    form,
                    k + 1,
                    depth,
                    m,
                ));
            }
            assert forall|i: int, j: int| 1 <= i <= n && 1 <= j <= n implies #[trigger] says(
                names,
                env,
                form,
                i,
                depth,
                m,
            ) == #[trigger] says(names, env, form, j, depth, m) by {
                if i <= j {
                    lemma_chain_all(values, n as int, i, j);
                } else {
                    lemma_chain_all(values, n as int, j, i);
                }
                assert(values(i) == values(j));
            }
        }
        if forall|i: int, j: int|
            1 <= i <= n && 1 <= j <= n ==> #[trigger] says(names, env, form, i, depth, m)
                == #[trigger] says(names, env, form, j, depth, m) {
            assert forall|k: int| 0 <= k && k + 1 < ps.len() implies (#[trigger] ps[k])(m) == ps[k
                + 1](m) by {
                assert(says(names, env, form, k + 1, depth, m) == says(
                    names,
                    env,
                    form,
                    k + 2,
                    depth,
                    m,
                ));
            }
        }
    }
}

/// A distinctness formula holds exactly where the values of any two of its arguments differ. With two
/// arguments or more it is accepted exactly where all of them are terms.
pub proof fn lemma_distinct(names: Names, env: Bindings, form: Form, n: nat, depth: nat, m: Model)
    requires
        is_call(form, "distinct"@, n),
    ensures
        n >= 2 ==> (claim(names, env, form, depth + 1) is Ok <==> forall|i: int|
            1 <= i <= n ==> #[trigger] is_term(names, env, form, i, depth)),
        claim(names, env, form, depth + 1) matches Ok(p) ==> (p(m) <==> forall|i: int, j: int|
            1 <= i < j <= n ==> #[trigger] value_at(names, env, form, i, depth, m)
                != #[trigger] value_at(names, env, form, j, depth, m)),
{
    lemma_heads();
    let items = form->List_0;
    assert(head_of(items) == Some("distinct"@));
    if n >= 2 {
        lemma_quantities(names, env, items, items.len(), depth);
        if forall|i: int| 1 <= i <= n ==> #[trigger] is_term(names, env, form, i, depth) {
            assert forall|i: int| 1 <= i < items.len() implies quantity(
                names,
                env,
                #[trigger] items[i],
                depth,
            ) is Ok by {
                assert(is_term(names, env, form, i, depth));
            }
            let us = quantities(names, env, items, items.len(), depth)->Ok_0;
            assert forall|k: int| 0 <= k < us.len() implies (#[trigger] us[k]) is Some by {
                assert(is_term(names, env, form, k + 1, depth));
                assert(quantity(names, env, items[k + 1], depth) == Ok::<
                    Option<Quantity>,
                    Seq<char>,
                >(us[k]));
            }
        }
        if claim(names, env, form, depth + 1) is Ok {
            let us = quantities(names, env, items, items.len(), depth)->Ok_0;
            let list = terms_only(us);
            let p = claim(names, env, form, depth + 1)->Ok_0;
            assert(p == quantities_distinct(list));
            assert forall|i: int| 1 <= i <= n implies #[trigger] is_term(
                names,
                env,
                form,
                i,
                depth,
            ) && value_at(names, env, form, i, depth, m) == list[i - 1](m) by {
                assert(quantity(names, env, items[i], depth) == Ok::<Option<Quantity>, Seq<char>>(
                    us[i - 1],
                ));
                assert(us[i - 1] is Some);
            }
            if p(m) {
                assert forall|i: int, j: int| 1 <= i < j <= n implies #[trigger] value_at(
                    names,
                    env,
                    form,
                    i,
                    depth,
                    m,
                ) != #[trigger] value_at(names, env, form, j, depth, m) by {
                    assert(is_term(names, env, form, i, depth));
                    assert(is_term(names, env, form, j, depth));
                    assert(list[i - 1](m) != list[j - 1](m));
                }
            }
            if forall|i: int, j: int|
                1 <= i < j <= n ==> #[trigger] value_at(names, env, form, i, depth, m)
                    != #[trigger] value_at(names, env, form, j, depth, m) {
                assert forall|x: int, y: int| 0 <= x < y < list.len() implies (#[trigger] list[x])(
                    m,
                ) != (#[trigger] list[y])(m) by {
                    assert(is_term(names, env, form, x + 1, depth));
                    assert(is_term(names, env, form, y + 1, depth));
                    assert(value_at(names, env, form, x + 1, depth, m) != value_at(
                        names,
                        env,
                        form,
                        y + 1,
                        depth,
                        m,
                    ));
                }
            }
        }
    }
}

/// A conditional has the meaning of the branch that its condition chooses.
pub proof fn lemma_ite(names: Names, env: Bindings, form: Form, depth: nat, m: Model)
    requires
        is_call(form, "ite"@, 3),
    ensures
        claim(names, env, form, depth + 1) is Ok <==> claim(names, env, arg(form, 1), depth) is Ok
            && claim(names, env, arg(form, 2), depth) is Ok && claim(
            names,
            env,
            arg(form, 3),
            depth,
        ) is Ok,
        claim(names, env, form, depth + 1) matches Ok(p) ==> {
            &&& says(names, env, form, 1, depth, m) ==> p(m) == says(names, env, form, 2, depth, m)
            &&& !says(names, env, form, 1, depth, m) ==> p(m) == says(names, env, form, 3, depth, m)
        },
        (quantity(names, env, form, depth + 1) matches Ok(u) && u is Some) <==> claim(
            names,
            env,
            arg(form, 1),
            depth,
        ) is Ok && is_term(names, env, form, 2, depth) && is_term(names, env, form, 3, depth),
        quantity(names, env, form, depth + 1) matches Ok(Some(u)) ==> {
            &&& says(names, env, form, 1, depth, m) ==> u(m) == value_at(
                names,
                env,
                form,
                2,
                depth,
                m,
            )
            &&& !says(names, env, form, 1, depth, m) ==> u(m) == value_at(
                names,
                env,
                form,
                3,
                depth,
                m,
            )
        },
{
    lemma_heads();
    assert(head_of(form->List_0) == Some("ite"@));
}

/// The head is the name of a function, not of a construct.
pub open spec fn is_function_name(head: Seq<char>) -> bool {
    head != "let"@ && head != "ite"@ && !formula_head(head)
}

/// An application is a term exactly where all its arguments are; its value is that of the function at
/// the values of its arguments.
pub proof fn lemma_application(
    names: Names,
    env: Bindings,
    form: Form,
    head: Seq<char>,
    n: nat,
    depth: nat,
    m: Model,
)
    requires
        is_call(form, head, n),
        is_function_name(head),
    ensures
        quantity(names, env, form, depth + 1) is Ok <==> forall|i: int|
            1 <= i <= n ==> #[trigger] is_term(names, env, form, i, depth),
        quantity(names, env, form, depth + 1) matches Ok(u) ==> u is Some && forall|
            values: Seq<int>,
        |
            values.len() == n && (forall|i: int|
                1 <= i <= n ==> #[trigger] values[i - 1] == value_at(
                    names,
                    env,
                    form,
                    i,
                    depth,
                    m,
                )) ==> (u->0)(m) == #[trigger] (m.funs)(head, values),
{
    let items = form->List_0;
    assert(head_of(items) == Some(head));
    lemma_quantities(names, env, items, items.len(), depth);
    if forall|i: int| 1 <= i <= n ==> #[trigger] is_term(names, env, form, i, depth) {
        assert forall|i: int| 1 <= i < items.len() implies quantity(
            names,
            env,
            #[trigger] items[i],
            depth,
        ) is Ok by {
            assert(is_term(names, env, form, i, depth));
        }
        let us = quantities(names, env, items, items.len(), depth)->Ok_0;
        assert forall|k: int| 0 <= k < us.len() implies (#[trigger] us[k]) is Some by {
            assert(is_term(names, env, form, k + 1, depth));
            assert(quantity(names, env, items[k + 1], depth) == Ok::<Option<Quantity>, Seq<char>>(
                us[k],
            ));
        }
    }
    if quantity(names, env, form, depth + 1) is Ok {
        let us = quantities(names, env, items, items.len(), depth)->Ok_0;
        let list = terms_only(us);
        let u = (quantity(names, env, form, depth + 1)->Ok_0)->0;
        assert(u == applied(head, list));
        assert forall|i: int| 1 <= i <= n implies #[trigger] is_term(names, env, form, i, depth)
            && value_at(names, env, form, i, depth, m) == list[i - 1](m) by {
            assert(quantity(names, env, items[i], depth) == Ok::<Option<Quantity>, Seq<char>>(
                us[i - 1],
            ));
            assert(us[i - 1] is Some);
        }
        assert forall|values: Seq<int>|
            values.len() == n && (forall|i: int|
                1 <= i <= n ==> #[trigger] values[i - 1] == value_at(
                    names,
                    env,
                    form,
                    i,
                    depth,
                    m,
                )) implies u(m) == #[trigger] (m.funs)(head, values) by {
            let computed = Seq::new(list.len(), |i: int| list[i](m));
            assert(computed =~= values) by {
                assert forall|k: int| 0 <= k < values.len() implies computed[k] == values[k] by {
                    assert(is_term(names, env, form, k + 1, depth));
                    assert(values[(k + 1) - 1] == value_at(names, env, form, k + 1, depth, m));
                }
            }
        }
    }
}

/// The constants mean truth and falsity, and a name that is neither bound nor defined is a symbol of the
/// model: a truth value in formula position, a constant in term position.
pub proof fn lemma_symbols(names: Names, env: Bindings, name: Seq<char>, depth: nat, m: Model)
    requires
        !env.contains_key(name),
        !names.active.contains(name),
        !names.definitions.contains_key(name),
    ensures
        claim(names, env, Form::Atom(name), depth + 1) matches Ok(p) && p(m) == if name == "true"@ {
            true
        } else if name == "false"@ {
            false
        } else {
            (m.bools)(name)
        },
        quantity(names, env, Form::Atom(name), depth + 1) matches Ok(u) && if name == "true"@ || name
            == "false"@ {
            u is None
        } else {
            u is Some && (u->0)(m) == (m.funs)(name, Seq::empty())
        },
{
    lemma_heads();
    reveal_strlit("true");
    reveal_strlit("false");
    assert("true"@.len() != "false"@.len());
    let none: Seq<Quantity> = Seq::empty();
    assert(Seq::new(none.len(), |i: int| none[i](m)) =~= Seq::<int>::empty());
}

/// A bound name means what its expression means, a defined one what it was defined as; a name whose
/// definition is being read has no meaning.
pub proof fn lemma_names(names: Names, env: Bindings, name: Seq<char>, depth: nat)
    requires
        name != "true"@,
        name != "false"@,
    ensures
        env.contains_key(name) ==> claim(names, env, Form::Atom(name), depth + 1) == claim(
            names,
            env,
            env[name],
            depth,
        ) && quantity(names, env, Form::Atom(name), depth + 1) == quantity(
            names,
            env,
            env[name],
            depth,
        ),
        !env.contains_key(name) && names.active.contains(name) ==> claim(
            names,
            env,
            Form::Atom(name),
            depth + 1,
        ) is Err && quantity(names, env, Form::Atom(name), depth + 1) is Err,
        !env.contains_key(name) && !names.active.contains(name) && names.definitions.contains_key(
            name,
        ) ==> match names.definitions[name] {
            Definition::Formula(p) => claim(names, env, Form::Atom(name), depth + 1) == Ok::<
                Claim,
                Seq<char>,
            >(p),
            Definition::Term(u) => quantity(names, env, Form::Atom(name), depth + 1) == Ok::<
                Option<Quantity>,
                Seq<char>,
            >(Some(u)),
        },
{
}

/// The bindings that a list adds: every name of the list stands for the last expression that the list
/// gives it, every other name for what it stood for.
pub open spec fn rebound(env: Bindings, bindings: Seq<Form>, more: Bindings) -> bool {
    &&& forall|k: int| 0 <= k < bindings.len() ==> is_binding(#[trigger] bindings[k])
    &&& forall|k: int|
        0 <= k < bindings.len() && (forall|j: int|
            k < j < bindings.len() ==> bound_name(#[trigger] bindings[j]) != bound_name(
                bindings[k],
            )) ==> more.contains_key(bound_name(#[trigger] bindings[k])) && more[bound_name(
            bindings[k],
        )] == bound_value(bindings[k])
    &&& forall|name: Seq<char>|
        (forall|k: int| 0 <= k < bindings.len() ==> bound_name(#[trigger] bindings[k]) != name) ==> (
        #[trigger] more.contains_key(name) == env.contains_key(name) && (env.contains_key(name)
            ==> more[name] == env[name]))
}

proof fn lemma_bind_accepted(env: Bindings, pairs: Seq<Form>, n: nat)
    requires
        n <= pairs.len(),
    ensures
        bind_pairs(env, pairs, n) is Ok <==> forall|k: int|
            0 <= k < n ==> is_binding(#[trigger] pairs[k]),
    decreases n,
{
    if n > 0 {
        lemma_bind_accepted(env, pairs, (n - 1) as nat);
    }
}

proof fn lemma_bind_pairs(env: Bindings, pairs: Seq<Form>, n: nat)
    requires
        n <= pairs.len(),
        bind_pairs(env, pairs, n) is Ok,
    ensures
        rebound(env, pairs.take(n as int), bind_pairs(env, pairs, n)->Ok_0),
    decreases n,
{
    if n > 0 {
        lemma_bind_pairs(env, pairs, (n - 1) as nat);
        lemma_bind_accepted(env, pairs, n);
        let before = bind_pairs(env, pairs, (n - 1) as nat);
        let last = pairs[n - 1];
        assert(is_binding(last));
        let more = bind_pairs(env, pairs, n)->Ok_0;
        let less = before->Ok_0;
        assert(more == less.insert(bound_name(last), bound_value(last)));
        let list = pairs.take(n as int);
        let shorter = pairs.take(n - 1);
        assert(list =~= shorter.push(last));
        lemma_rebound_push(env, shorter, last, less);
    }
}

proof fn lemma_rebound_push(env: Bindings, shorter: Seq<Form>, last: Form, less: Bindings)
    requires
        rebound(env, shorter, less),
        is_binding(last),
    ensures
        rebound(env, shorter.push(last), less.insert(bound_name(last), bound_value(last))),
{
    let list = shorter.push(last);
    let n = list.len() as int;
    let more = less.insert(bound_name(last), bound_value(last));
    assert forall|k: int| 0 <= k < list.len() implies is_binding(#[trigger] list[k]) by {
        if k < shorter.len() {
            assert(is_binding(shorter[k]));
        }
    }
    assert forall|k: int|
        0 <= k < list.len() && (forall|j: int|
            k < j < list.len() ==> bound_name(#[trigger] list[j]) != bound_name(
                list[k],
            )) implies more.contains_key(bound_name(#[trigger] list[k]))
        && more[bound_name(list[k])] == bound_value(list[k]) by {
        if k < n - 1 {
            assert(shorter[k] == list[k]);
            assert(bound_name(list[n - 1]) != bound_name(list[k]));
            assert forall|j: int| k < j < shorter.len() implies bound_name(
                #[trigger] shorter[j],
            ) != bound_name(shorter[k]) by {
                assert(shorter[j] == list[j]);
            }
        }
    }
    assert forall|name: Seq<char>|
        (forall|k: int|
            0 <= k < list.len() ==> bound_name(#[trigger] list[k]) != name) implies (
    #[trigger] more.contains_key(name) == env.contains_key(name) && (env.contains_key(name)
        ==> more[name] == env[name])) by {
        assert(bound_name(list[n - 1]) != name);
        assert forall|k: int| 0 <= k < shorter.len() implies bound_name(
            #[trigger] shorter[k],
        ) != name by {
            assert(shorter[k] == list[k]);
        }
        assert(less.contains_key(name) == env.contains_key(name));
    }
}

/// A `let` means what its body means once its names are bound; it is refused where a binding is no pair
/// of a name and an expression.
pub proof fn lemma_let(names: Names, env: Bindings, form: Form, depth: nat)
    requires
        is_call(form, "let"@, 2),
        arg(form, 1) is List,
    ensures
        ({
            let bindings = arg(form, 1)->List_0;
            if forall|k: int| 0 <= k < bindings.len() ==> is_binding(#[trigger] bindings[k]) {
                exists|more: Bindings| #[trigger]
                    rebound(env, bindings, more) && claim(names, env, form, depth + 1) == claim(
                        names,
                        more,
                        arg(form, 2),
                        depth,
                    ) && quantity(names, env, form, depth + 1) == quantity(
                        names,
                        more,
                        arg(form, 2),
                        depth,
                    )
            } else {
                claim(names, env, form, depth + 1) is Err && quantity(names, env, form, depth + 1)
                    is Err
            }
        }),
{
    lemma_heads();
    let bindings = arg(form, 1)->List_0;
    assert(head_of(form->List_0) == Some("let"@));
    lemma_bind_accepted(env, bindings, bindings.len());
    if bind_pairs(env, bindings, bindings.len()) is Ok {
        lemma_bind_pairs(env, bindings, bindings.len());
    }
    assert(bindings.take(bindings.len() as int) =~= bindings);
    if bind(env, arg(form, 1)) is Ok {
        let more = bind(env, arg(form, 1))->Ok_0;
        assert(rebound(env, bindings, more));
    }
}

/// The limit on nesting refuses and does nothing else: what is accepted means the same under a higher one.
pub proof fn lemma_deeper(names: Names, env: Bindings, form: Form, depth: nat)
    ensures
        claim(names, env, form, depth) is Ok ==> claim(names, env, form, depth + 1) == claim(
            names,
            env,
            form,
            depth,
        ),
        quantity(names, env, form, depth) is Ok ==> quantity(names, env, form, depth + 1)
            == quantity(names, env, form, depth),
    decreases depth, 0nat,
{
    if depth > 0 {
        let d = (depth - 1) as nat;
        match form {
            Form::Atom(atom) => {
                if env.contains_key(atom) {
                    lemma_deeper(names, env, env[atom], d);
                }
            },
            Form::List(items) => {
                lemma_deeper_lists(names, env, items, items.len(), d);
                if items.len() > 1 {
                    lemma_deeper(names, env, items[1], d);
                }
                if items.len() > 2 {
                    lemma_deeper(names, env, items[2], d);
                    if bind(env, items[1]) is Ok {
                        lemma_deeper(names, bind(env, items[1])->Ok_0, items[2], d);
                    }
                }
                if items.len() > 3 {
                    lemma_deeper(names, env, items[3], d);
                }
            },
        }
    }
}

proof fn lemma_deeper_lists(names: Names, env: Bindings, items: Seq<Form>, n: nat, depth: nat)
    requires
        n <= items.len(),
    ensures
        claims(names, env, items, n, depth) is Ok ==> claims(names, env, items, n, depth + 1)
            == claims(names, env, items, n, depth),
        quantities(names, env, items, n, depth) is Ok ==> quantities(
            names,
            env,
            items,
            n,
            depth + 1,
        ) == quantities(names, env, items, n, depth),
    decreases depth, n,
{
    if n > 1 {
        lemma_deeper_lists(names, env, items, (n - 1) as nat, depth);
        lemma_deeper(names, env, items[n - 1], depth);
    }
}

} // verus!
