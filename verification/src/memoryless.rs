//! Memoryless strategy profiles: a joint action chosen as a function of the
//! location alone, and when such a choice wins a reachability game.

use vstd::prelude::*;
use crate::types::{Loc, Act};
use crate::game::Game;

verus! {

/// Every play from `l` in which the agents play what `sel` chooses reaches
/// a goal of `g` within `k` moves: `l` is a goal, or `sel` chooses a joint
/// action at `l` that leads somewhere, and every location it leads to
/// does so within `k - 1` moves.
pub open spec fn wins_under(g: Game, sel: spec_fn(int) -> Option<Seq<Act>>, l: int, k: nat) -> bool
    decreases k,
{
    g.loc@[l].is_winning || (k > 0 && match sel(l) {
        Some(a) => g.post_spec(l, a).len() > 0 && forall|j: int| 0 <= j < g.post_spec(l, a).len() ==>
            wins_under(g, sel, (#[trigger] g.post_spec(l, a)[j]).0 as int, (k - 1) as nat),
        None => false,
    })
}

/// Every play from `l` in which the agents play what `sel` chooses reaches
/// a goal of `g`.
pub open spec fn wins_from(g: Game, sel: spec_fn(int) -> Option<Seq<Act>>, l: int) -> bool {
    exists|k: nat| wins_under(g, sel, l, k)
}

/// The targets of transitions are locations of the game.
pub proof fn lemma_post_target(g: Game, l: int, a: Seq<Act>, j: int)
    requires
        g.wf(),
        0 <= l < g.nloc(),
        0 <= j < g.post_spec(l, a).len(),
    ensures
        (g.post_spec(l, a)[j].0 as int) < g.nloc(),
{
    let x = g.post_spec(l, a)[j];
    assert(g.post_spec(l, a).contains(x));
    crate::game::lemma_targets_with_contains(g.succ(l), a, x);
    let q = choose|q: int| 0 <= q < g.succ(l).len() && g.succ(l)[q] == (a, x);
    assert(g.valid_edge(g.succ(l)[q]));
}

/// Winning within `k1` moves is winning within any `k2 >= k1` moves.
pub proof fn lemma_wins_fuel(g: Game, sel: spec_fn(int) -> Option<Seq<Act>>, l: int, k1: nat, k2: nat)
    requires
        k1 <= k2,
        wins_under(g, sel, l, k1),
    ensures
        wins_under(g, sel, l, k2),
    decreases k1,
{
    if !g.loc@[l].is_winning {
        let a = sel(l).unwrap();
        assert forall|j: int| 0 <= j < g.post_spec(l, a).len() implies
            wins_under(g, sel, (#[trigger] g.post_spec(l, a)[j]).0 as int, (k2 - 1) as nat) by {
            lemma_wins_fuel(g, sel, g.post_spec(l, a)[j].0 as int, (k1 - 1) as nat, (k2 - 1) as nat);
        }
    }
}

/// A choice that agrees with `sel1` wherever `sel1` chooses wins wherever
/// `sel1` wins, within as many moves.
pub proof fn lemma_wins_extend(g: Game, sel1: spec_fn(int) -> Option<Seq<Act>>,
    sel2: spec_fn(int) -> Option<Seq<Act>>, l: int, k: nat)
    requires
        g.wf(),
        0 <= l < g.nloc(),
        forall|x: int| 0 <= x < g.nloc() && (#[trigger] sel1(x)) is Some ==> sel2(x) == sel1(x),
        wins_under(g, sel1, l, k),
    ensures
        wins_under(g, sel2, l, k),
    decreases k,
{
    if !g.loc@[l].is_winning {
        let a = sel1(l).unwrap();
        assert(sel2(l) == sel1(l));
        assert forall|j: int| 0 <= j < g.post_spec(l, a).len() implies
            wins_under(g, sel2, (#[trigger] g.post_spec(l, a)[j]).0 as int, (k - 1) as nat) by {
            lemma_post_target(g, l, a, j);
            lemma_wins_extend(g, sel1, sel2, g.post_spec(l, a)[j].0 as int, (k - 1) as nat);
        }
    }
}

/// When every location of `ls` wins within some number of moves, there is
/// one number of moves within which all of them win.
pub proof fn lemma_wins_common_fuel(g: Game, sel: spec_fn(int) -> Option<Seq<Act>>, ls: Seq<Loc>) -> (k: nat)
    requires
        forall|j: int| 0 <= j < ls.len() ==> wins_from(g, sel, (#[trigger] ls[j]).0 as int),
    ensures
        forall|j: int| 0 <= j < ls.len() ==> wins_under(g, sel, (#[trigger] ls[j]).0 as int, k),
    decreases ls.len(),
{
    if ls.len() == 0 {
        0
    } else {
        let d = ls.drop_last();
        assert forall|j: int| 0 <= j < d.len() implies wins_from(g, sel, (#[trigger] d[j]).0 as int) by {
            assert(d[j] == ls[j]);
        }
        let k1 = lemma_wins_common_fuel(g, sel, d);
        let last = ls[ls.len() - 1];
        let k2 = choose|k: nat| wins_under(g, sel, last.0 as int, k);
        let m: nat = if k1 <= k2 { k2 } else { k1 };
        assert forall|j: int| 0 <= j < ls.len() implies wins_under(g, sel, (#[trigger] ls[j]).0 as int, m) by {
            if j < ls.len() - 1 {
                assert(d[j] == ls[j]);
                lemma_wins_fuel(g, sel, ls[j].0 as int, k1, m);
            } else {
                lemma_wins_fuel(g, sel, ls[j].0 as int, k2, m);
            }
        }
        m
    }
}

} // verus!
