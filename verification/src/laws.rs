//! Global properties of the UCB1 selection rule, stated over the same spec
//! functions that `Searcher::best_child`'s contract uses.

use vstd::prelude::*;
use vstd::arithmetic::div_mod::{
    lemma_div_is_ordered, lemma_div_is_ordered_by_denominator, lemma_div_multiples_vanish,
};
use crate::game_state::GameState;
use crate::search::Searcher;
use crate::tree::NodeId;
use crate::ucb::{
    lemma_isqrt_bounds, spec_exploit_fp, spec_explore_fp, spec_ucb1, FP_SCALE,
};

verus! {

/// At exploration factor zero, UCB1 is the exploitation term alone: the
/// mean score of the child, in fixed point.
pub proof fn lemma_ucb1_pure_exploitation(score: int, visits: nat, parent_visits: nat)
    requires
        visits >= 1,
    ensures
        spec_ucb1(score, visits, parent_visits, 0) == spec_exploit_fp(score, visits),
{
    assert(0 * spec_explore_fp(parent_visits, visits) == 0) by (nonlinear_arith);
    assert(0int / (FP_SCALE as int) == 0);
}

/// With exploration factor zero, the best child is the one with the highest
/// mean score, regardless of visit counts: if child `a` has a strictly
/// greater exploitation term than every other child, then any index that
/// maximizes UCB1 at factor zero (as `best_child`'s contract provides) is
/// `a` itself.
pub proof fn lemma_factor_zero_prefers_higher_mean<G: GameState>(
    s: Searcher<G>,
    parent: NodeId,
    a: int,
    k: int,
)
    requires
        s.tree.is_live(parent),
        0 <= a < s.tree.node(parent).children@.len(),
        0 <= k < s.tree.node(parent).children@.len(),
        forall|j: int|
            0 <= j < s.tree.node(parent).children@.len() ==> s.tree.node(
                #[trigger] s.tree.node(parent).children@[j],
            ).visits >= 1,
        forall|j: int|
            0 <= j < s.tree.node(parent).children@.len() && j != a ==> spec_exploit_fp(
                s.tree.node(#[trigger] s.tree.node(parent).children@[j]).score as int,
                s.tree.node(s.tree.node(parent).children@[j]).visits as nat,
            ) < spec_exploit_fp(
                s.tree.node(s.tree.node(parent).children@[a]).score as int,
                s.tree.node(s.tree.node(parent).children@[a]).visits as nat,
            ),
        forall|j: int|
            0 <= j < s.tree.node(parent).children@.len() ==> s.spec_ucb1_of(
                parent,
                #[trigger] s.tree.node(parent).children@[j],
                0,
            ) <= s.spec_ucb1_of(parent, s.tree.node(parent).children@[k], 0),
    ensures
        k == a,
{
    let cs = s.tree.node(parent).children@;
    let pv = s.tree.node(parent).visits as nat;
    lemma_ucb1_pure_exploitation(
        s.tree.node(cs[a]).score as int,
        s.tree.node(cs[a]).visits as nat,
        pv,
    );
    if k != a {
        lemma_ucb1_pure_exploitation(
            s.tree.node(cs[k]).score as int,
            s.tree.node(cs[k]).visits as nat,
            pv,
        );
        assert(s.spec_ucb1_of(parent, cs[a], 0) <= s.spec_ucb1_of(parent, cs[k], 0));
        assert(false);
    }
}

/// The integer square root is monotone.
proof fn lemma_isqrt_monotone(a: nat, b: nat)
    requires
        a <= b,
    ensures
        crate::ucb::spec_isqrt(a) <= crate::ucb::spec_isqrt(b),
{
    lemma_isqrt_bounds(a);
    lemma_isqrt_bounds(b);
    let ra = crate::ucb::spec_isqrt(a);
    let rb = crate::ucb::spec_isqrt(b);
    if ra > rb {
        assert((rb + 1) * (rb + 1) <= ra * ra) by (nonlinear_arith)
            requires rb + 1 <= ra;
    }
}

/// A less-visited child has an exploration term at least as large as a
/// more-visited sibling's.
pub proof fn lemma_explore_antitone(parent_visits: nat, va: nat, vb: nat)
    requires
        1 <= va <= vb,
    ensures
        spec_explore_fp(parent_visits, va) >= spec_explore_fp(parent_visits, vb),
{
    let num = 2 * crate::ucb::spec_ln_fp(parent_visits) * (FP_SCALE as nat);
    lemma_div_is_ordered_by_denominator(num as int, va as int, vb as int);
    lemma_isqrt_monotone((num / vb) as nat, (num / va) as nat);
}

/// A sufficiently large exploration factor lets a less-visited child win
/// UCB1 against a more-visited, higher-mean one, whenever the fixed-point
/// exploration terms separate the two visit counts at all: there is a
/// factor at which the less-visited child's UCB1 is strictly greater.
pub proof fn lemma_large_factor_prefers_less_visited(
    score_a: int,
    visits_a: nat,
    score_b: int,
    visits_b: nat,
    parent_visits: nat,
)
    requires
        1 <= visits_a < visits_b,
        spec_explore_fp(parent_visits, visits_a) > spec_explore_fp(parent_visits, visits_b),
    ensures
        exists|factor: int|
            factor >= 0 && spec_ucb1(score_a, visits_a, parent_visits, factor) > spec_ucb1(
                score_b,
                visits_b,
                parent_visits,
                factor,
            ),
{
    let ea = spec_explore_fp(parent_visits, visits_a);
    let eb = spec_explore_fp(parent_visits, visits_b);
    let xa = spec_exploit_fp(score_a, visits_a);
    let xb = spec_exploit_fp(score_b, visits_b);
    let m = if xb - xa >= 0 {
        xb - xa + 1
    } else {
        1
    };
    let factor = FP_SCALE as int * m;
    assert(factor >= 0) by (nonlinear_arith)
        requires factor == FP_SCALE as int * m, m >= 1, FP_SCALE == 65536;
    assert(factor * ea == FP_SCALE as int * (m * ea)) by (nonlinear_arith)
        requires factor == FP_SCALE as int * m;
    assert(factor * eb == FP_SCALE as int * (m * eb)) by (nonlinear_arith)
        requires factor == FP_SCALE as int * m;
    lemma_div_multiples_vanish(m * ea, FP_SCALE as int);
    lemma_div_multiples_vanish(m * eb, FP_SCALE as int);
    assert(m * ea >= m * eb + m) by (nonlinear_arith)
        requires m >= 1, ea >= eb + 1;
    assert(spec_ucb1(score_a, visits_a, parent_visits, factor) == xa + m * ea);
    assert(spec_ucb1(score_b, visits_b, parent_visits, factor) == xb + m * eb);
    assert(xa + m * ea > xb + m * eb);
}

} // verus!
