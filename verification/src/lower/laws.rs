//! What holds of the solver on assertion frames as a whole.

use crate::lower::denote::{Claim, Model};
use crate::lower::solver::{stack_holds, stack_satisfiable, with_claim, with_frames};
use vstd::prelude::*;

verus! {

/// A pop undoes a push of as many frames.
pub proof fn lemma_pop_undoes_push(stack: Seq<Seq<Claim>>, amount: nat)
    ensures
        with_frames(stack, amount).take(with_frames(stack, amount).len() - amount) == stack,
{
    let deep = with_frames(stack, amount);
    assert(deep.take(deep.len() - amount) =~= stack);
}

/// The stack with more claims in the innermost frame.
pub open spec fn with_claims(stack: Seq<Seq<Claim>>, ps: Seq<Claim>) -> Seq<Seq<Claim>>
    decreases ps.len(),
{
    if ps.len() == 0 {
        stack
    } else {
        with_claim(with_claims(stack, ps.drop_last()), ps.last())
    }
}

proof fn lemma_with_claims(stack: Seq<Seq<Claim>>, ps: Seq<Claim>)
    requires
        stack.len() > 0,
    ensures
        with_claims(stack, ps).len() == stack.len(),
        forall|i: int|
            0 <= i < stack.len() - 1 ==> (#[trigger] with_claims(stack, ps)[i]) == stack[i],
    decreases ps.len(),
{
    if ps.len() > 0 {
        lemma_with_claims(stack, ps.drop_last());
    }
}

/// What is asserted after a push lies dormant after the pop.
pub proof fn lemma_scoped_assertions(stack: Seq<Seq<Claim>>, amount: nat, ps: Seq<Claim>)
    requires
        stack.len() > 0,
        amount > 0,
    ensures
        ({
            let deep = with_claims(with_frames(stack, amount), ps);
            deep.take(deep.len() - amount) == stack
        }),
{
    lemma_with_claims(with_frames(stack, amount), ps);
    let deep = with_claims(with_frames(stack, amount), ps);
    assert(deep.take(deep.len() - amount) =~= stack);
}

/// One more assertion never makes an unsatisfiable stack satisfiable.
pub proof fn lemma_assertion_restricts(stack: Seq<Seq<Claim>>, p: Claim)
    requires
        stack.len() > 0,
        stack_satisfiable(with_claim(stack, p)),
    ensures
        stack_satisfiable(stack),
{
    let more = with_claim(stack, p);
    let model = choose|model: Model| #[trigger] stack_holds(more, model);
    assert forall|i: int, j: int| 0 <= i < stack.len() && 0 <= j < stack[i].len() implies (
    #[trigger] stack[i][j])(model) by {
        assert(more[i][j] == stack[i][j]);
        assert(more[i][j](model));
    }
    assert(stack_holds(stack, model));
}

} // verus!
