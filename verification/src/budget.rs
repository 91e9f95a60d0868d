//! A termination measure for backtracking searches.
//!
//! A backtracking search keeps a stack of levels, each with a budget of
//! moves that it may still spend. A move at the top level either spends one
//! unit there, or spends one unit and opens a new level with a fresh budget,
//! or closes a level whose budget is used up. The potential defined here goes
//! down with each of these moves, so such a search cannot run forever.
use vstd::prelude::*;

verus! {

/// `base` to the power `exp`.
pub open spec fn weight(base: nat, exp: nat) -> nat
    decreases exp,
{
    if exp == 0 {
        1
    } else {
        base * weight(base, (exp - 1) as nat)
    }
}

/// The potential of a stack of budgets: the budget at level `k`, plus one,
/// counts `base` to the power `depth - k`.
pub open spec fn potential(budgets: Seq<nat>, base: nat, depth: nat) -> nat
    decreases budgets.len(),
{
    if budgets.len() == 0 {
        0
    } else {
        potential(budgets.drop_last(), base, depth) + (budgets.last() + 1) * weight(
            base,
            (depth - (budgets.len() - 1)) as nat,
        )
    }
}

/// A power of a positive base is positive.
pub proof fn lemma_weight_positive(base: nat, exp: nat)
    requires
        base > 0,
    ensures
        weight(base, exp) > 0,
    decreases exp,
{
    if exp > 0 {
        lemma_weight_positive(base, (exp - 1) as nat);
        assert(base * weight(base, (exp - 1) as nat) > 0) by (nonlinear_arith)
            requires
                base > 0,
                weight(base, (exp - 1) as nat) > 0,
        ;
    }
}

/// Spending at the top level lowers the potential.
pub proof fn lemma_spend(budgets: Seq<nat>, base: nat, depth: nat, left: nat)
    requires
        base > 0,
        0 < budgets.len() <= depth + 1,
        left < budgets.last(),
    ensures
        potential(budgets.update(budgets.len() - 1, left), base, depth) < potential(
            budgets,
            base,
            depth,
        ),
{
    let after = budgets.update(budgets.len() - 1, left);
    let w = weight(base, (depth - (budgets.len() - 1)) as nat);
    lemma_weight_positive(base, (depth - (budgets.len() - 1)) as nat);
    assert(after.drop_last() =~= budgets.drop_last());
    assert((left + 1) * w < (budgets.last() + 1) * w) by (nonlinear_arith)
        requires
            left < budgets.last(),
            w > 0,
    ;
}

/// Spending at the top level and opening a new level with a budget of
/// `fresh` lowers the potential, as long as `fresh + 2 <= base`.
pub proof fn lemma_descend(budgets: Seq<nat>, base: nat, depth: nat, left: nat, fresh: nat)
    requires
        0 < budgets.len() <= depth,
        left < budgets.last(),
        fresh + 2 <= base,
    ensures
        potential(budgets.update(budgets.len() - 1, left).push(fresh), base, depth) < potential(
            budgets,
            base,
            depth,
        ),
{
    let spent = budgets.update(budgets.len() - 1, left);
    let after = spent.push(fresh);
    let below = weight(base, (depth - budgets.len()) as nat);
    let here = weight(base, (depth - (budgets.len() - 1)) as nat);
    lemma_weight_positive(base, (depth - budgets.len()) as nat);
    assert(after.drop_last() =~= spent);
    assert(spent.drop_last() =~= budgets.drop_last());
    assert(potential(spent, base, depth) == potential(budgets.drop_last(), base, depth) + (left
        + 1) * here);
    assert((left + 1) * (base * below) + (fresh + 1) * below < (budgets.last() + 1) * (base
        * below)) by (nonlinear_arith)
        requires
            left < budgets.last(),
            fresh + 2 <= base,
            below > 0,
    ;
}

/// Closing the top level lowers the potential.
pub proof fn lemma_retreat(budgets: Seq<nat>, base: nat, depth: nat)
    requires
        base > 0,
        0 < budgets.len() <= depth + 1,
    ensures
        potential(budgets.drop_last(), base, depth) < potential(budgets, base, depth),
{
    let w = weight(base, (depth - (budgets.len() - 1)) as nat);
    lemma_weight_positive(base, (depth - (budgets.len() - 1)) as nat);
    assert((budgets.last() + 1) * w > 0) by (nonlinear_arith)
        requires
            w > 0,
    ;
}

} // verus!
