//! Laws of the clause-set model that relate whole solver runs: what a
//! verdict means is pinned by `Solver::solve`'s contract (a `true` verdict
//! comes with an assignment whose every total extension satisfies the
//! clause set; a `false` verdict proves no total assignment does), so laws
//! about verdicts are stated here as laws about satisfiability.

use vstd::prelude::*;

use crate::formula::{
    full_clause_sat, full_lit_sat, full_sat, is_taut, lemma_taut_sat, lits_ok,
};

verus! {

/// Tautology irrelevance: a clause holding both a literal and its
/// negation is satisfied by every total assignment, so adding it to a
/// clause set leaves satisfiability — and with it the solver's verdict —
/// unchanged, for every total assignment over the same variables.
pub proof fn lemma_tautology_irrelevant(cs: Seq<Seq<i32>>, c: Seq<i32>, n: int)
    requires
        is_taut(c),
        lits_ok(c, n),
    ensures
        forall|sigma: Seq<bool>|
            sigma.len() == n + 1 ==> (full_sat(sigma, cs.push(c)) <==> full_sat(sigma, cs)),
{
    assert forall|sigma: Seq<bool>| sigma.len() == n + 1 implies (full_sat(sigma, cs.push(c))
        <==> full_sat(sigma, cs)) by {
        if full_sat(sigma, cs) {
            assert forall|k: int| 0 <= k < cs.push(c).len() implies full_clause_sat(
                sigma,
                #[trigger] cs.push(c)[k],
            ) by {
                if k == cs.len() {
                    lemma_taut_sat(sigma, c, n);
                    assert(cs.push(c)[k] == c);
                } else {
                    assert(cs.push(c)[k] == cs[k]);
                }
            }
        }
        if full_sat(sigma, cs.push(c)) {
            assert forall|k: int| 0 <= k < cs.len() implies full_clause_sat(
                sigma,
                #[trigger] cs[k],
            ) by {
                assert(cs.push(c)[k] == cs[k]);
            }
        }
    }
}

/// An empty clause admits no satisfying total assignment at all, so a
/// clause set holding one is unsatisfiable and the solver's verdict on it
/// is `false`.
pub proof fn lemma_empty_clause_unsat(cs: Seq<Seq<i32>>, k: int)
    requires
        0 <= k < cs.len(),
        cs[k].len() == 0,
    ensures
        forall|sigma: Seq<bool>| !full_sat(sigma, cs),
{
    assert forall|sigma: Seq<bool>| !full_sat(sigma, cs) by {
        if full_sat(sigma, cs) {
            assert(full_clause_sat(sigma, cs[k]));
            let i = choose|i: int| 0 <= i < cs[k].len() && full_lit_sat(sigma, cs[k][i] as int);
            assert(false);
        }
    }
}

} // verus!
