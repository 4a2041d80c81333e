//! How many handles lowering may use up.

use crate::qfuf::denote::head_of;
use crate::qfuf::parser::CommandView;
use crate::qfuf::sexpr::Form;
use vstd::prelude::*;

verus! {

/// A bound on the handles that lowering an expression uses. Both sides of an equality are looked at
/// twice, once for their sort; `distinct` stands for the equalities of all pairs; the value of a `let`
/// binding is looked at twice.
pub open spec fn work(form: Form) -> nat
    decreases form, 0nat,
{
    match form {
        Form::Atom(_) => 128,
        Form::List(items) => 128 + if head_of(items) == Some("let"@) {
            if items.len() == 3 && items[1] is List {
                bindings_work(items[1]->List_0, items[1]->List_0.len()) + work(items[2])
            } else {
                0
            }
        } else if head_of(items) == Some("="@) {
            2 * total_work(items, items.len())
        } else if head_of(items) == Some("distinct"@) {
            3 * items.len() * items.len() * total_work(items, items.len())
        } else {
            total_work(items, items.len())
        },
    }
}

/// A bound for the first `n` expressions.
pub open spec fn total_work(items: Seq<Form>, n: nat) -> nat
    decreases items, n,
{
    if n == 0 || n > items.len() {
        0
    } else {
        total_work(items, (n - 1) as nat) + work(items[n - 1])
    }
}

/// A bound for one `let` binding.
pub open spec fn binding_work(pair: Form) -> nat
    decreases pair, 1nat,
{
    match pair {
        Form::List(items) => if items.len() == 2 {
            2 * work(items[1])
        } else {
            0
        },
        Form::Atom(_) => 0,
    }
}

/// A bound for the first `n` `let` bindings.
pub open spec fn bindings_work(items: Seq<Form>, n: nat) -> nat
    decreases items, n,
{
    if n == 0 || n > items.len() {
        0
    } else {
        bindings_work(items, (n - 1) as nat) + binding_work(items[n - 1])
    }
}

/// A bound on the handles that a command uses.
pub open spec fn command_work(command: CommandView) -> nat {
    match command {
        CommandView::Assert(form) => work(form),
        CommandView::DeclareSort { .. } => 1,
        CommandView::DeclareFun { .. } => 1,
        _ => 0,
    }
}

/// A bound on the handles that the first `n` commands use.
pub open spec fn commands_work(commands: Seq<CommandView>, n: nat) -> nat
    decreases n,
{
    if n == 0 {
        0
    } else {
        commands_work(commands, (n - 1) as nat) + command_work(commands[n - 1])
    }
}

/// Every expression counts.
pub proof fn lemma_work_positive(form: Form)
    ensures
        work(form) >= 128,
{
}

/// The bound for more expressions is no smaller.
pub proof fn lemma_total_grows(items: Seq<Form>, k: nat, n: nat)
    requires
        k <= n <= items.len(),
    ensures
        total_work(items, k) <= total_work(items, n),
    decreases n,
{
    if k < n {
        lemma_total_grows(items, k, (n - 1) as nat);
    }
}

/// Two different expressions together stay within the bound for all.
pub proof fn lemma_two_work(items: Seq<Form>, i: int, j: int)
    requires
        0 <= i < j < items.len(),
    ensures
        work(items[i]) + work(items[j]) <= total_work(items, items.len()),
{
    lemma_total_grows(items, i as nat, (i + 1) as nat);
    lemma_total_grows(items, (i + 1) as nat, j as nat);
    lemma_total_grows(items, (j + 1) as nat, items.len());
}

/// One expression stays within the bound for all.
pub proof fn lemma_one_work(items: Seq<Form>, i: int)
    requires
        0 <= i < items.len(),
    ensures
        work(items[i]) <= total_work(items, items.len()),
{
    lemma_total_grows(items, (i + 1) as nat, items.len());
}

/// The words that expressions start with differ.
pub proof fn lemma_words()
    ensures
        "and"@ != "let"@,
        "or"@ != "let"@,
        "not"@ != "let"@,
        "=>"@ != "let"@,
        "xor"@ != "let"@,
        "ite"@ != "let"@,
        "distinct"@ != "let"@,
        "="@ != "let"@,
        "and"@ != "="@,
        "or"@ != "="@,
        "not"@ != "="@,
        "=>"@ != "="@,
        "xor"@ != "="@,
        "ite"@ != "="@,
        "distinct"@ != "="@,
        "and"@ != "distinct"@,
        "or"@ != "distinct"@,
        "not"@ != "distinct"@,
        "=>"@ != "distinct"@,
        "xor"@ != "distinct"@,
        "ite"@ != "distinct"@,
{
    reveal_strlit("and");
    reveal_strlit("or");
    reveal_strlit("not");
    reveal_strlit("=>");
    reveal_strlit("xor");
    reveal_strlit("ite");
    reveal_strlit("distinct");
    reveal_strlit("=");
    reveal_strlit("let");
    assert("and"@.len() == 3);
    assert("and"@[0] == 'a');
    assert("or"@.len() == 2);
    assert("or"@[0] == 'o');
    assert("not"@.len() == 3);
    assert("not"@[0] == 'n');
    assert("=>"@.len() == 2);
    assert("=>"@[0] == '=');
    assert("xor"@.len() == 3);
    assert("xor"@[0] == 'x');
    assert("ite"@.len() == 3);
    assert("ite"@[0] == 'i');
    assert("distinct"@.len() == 8);
    assert("distinct"@[0] == 'd');
    assert("="@.len() == 1);
    assert("="@[0] == '=');
    assert("let"@.len() == 3);
    assert("let"@[0] == 'l');
}

/// The bound for four expressions.
pub proof fn lemma_four_work(items: Seq<Form>)
    requires
        items.len() == 4,
    ensures
        total_work(items, 4) == work(items[0]) + work(items[1]) + work(items[2]) + work(items[3]),
{
    reveal_with_fuel(total_work, 5);
}

/// A bound for the equality of one pair of items.
pub open spec fn pair_work(items: Seq<Form>) -> nat {
    2 * total_work(items, items.len()) + 16
}

/// A bound for the equalities of one item with all later ones.
pub open spec fn row_work(items: Seq<Form>) -> nat {
    items.len() * pair_work(items)
}

/// Some pairs stay within the bound for a row.
pub proof fn lemma_row_work(items: Seq<Form>, k: int)
    requires
        0 <= k <= items.len(),
    ensures
        k * pair_work(items) <= row_work(items),
{
    assert(k * pair_work(items) <= items.len() * pair_work(items)) by (nonlinear_arith)
        requires
            k <= items.len(),
            pair_work(items) >= 0,
    ;
}

/// Some rows stay within the bound for `distinct`.
pub proof fn lemma_distinct_work(items: Seq<Form>, k: int)
    requires
        0 <= k <= items.len(),
        items.len() > 0,
    ensures
        k * row_work(items) <= 3 * items.len() * items.len() * total_work(items, items.len()),
{
    let n = items.len();
    let t = total_work(items, n);
    lemma_work_positive(items[0]);
    lemma_one_work(items, 0);
    let p = pair_work(items);
    assert(p <= 3 * t);
    assert(k * row_work(items) <= n * row_work(items)) by (nonlinear_arith)
        requires
            k <= n,
            row_work(items) >= 0,
    ;
    assert(n * (n * p) <= 3 * n * n * t) by (nonlinear_arith)
        requires
            p <= 3 * t,
    ;
}

/// The bound for more `let` bindings is no smaller.
pub proof fn lemma_bindings_grow(items: Seq<Form>, k: nat, n: nat)
    requires
        k <= n <= items.len(),
    ensures
        bindings_work(items, k) <= bindings_work(items, n),
    decreases n,
{
    if k < n {
        lemma_bindings_grow(items, k, (n - 1) as nat);
    }
}

/// The bound for more commands is no smaller.
pub proof fn lemma_commands_grow(commands: Seq<CommandView>, k: nat, n: nat)
    requires
        k <= n,
    ensures
        commands_work(commands, k) <= commands_work(commands, n),
    decreases n,
{
    if k < n {
        lemma_commands_grow(commands, k, (n - 1) as nat);
    }
}

} // verus!
