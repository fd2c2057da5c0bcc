//! Copies of explicit games that agree with the copied game in everything the
//! specifications read.

use vstd::prelude::*;
use crate::types::{Loc, Obs};
use crate::game::{Game, LocData, Profile, edge_view};
use crate::explore::clone_profile;

verus! {

/// `a` and `b` agree in every part of a game that specifications read.
pub open spec fn same_game(a: Game, b: Game) -> bool {
    &&& a.n_actions@ == b.n_actions@
    &&& a.obs@.len() == b.obs@.len()
    &&& forall|i: int| 0 <= i < a.obs@.len() ==> (#[trigger] a.obs@[i])@.len() == b.obs@[i]@.len()
    &&& forall|i: int, o: int| 0 <= i < a.obs@.len() && 0 <= o < a.obs@[i]@.len() ==>
        #[trigger] a.obs_set_spec(i, o) == b.obs_set_spec(i, o)
    &&& a.loc@.len() == b.loc@.len()
    &&& forall|l: int| 0 <= l < a.loc@.len() ==> {
        &&& (#[trigger] a.loc@[l]).is_winning == b.loc@[l].is_winning
        &&& a.loc@[l].obs@ == b.loc@[l].obs@
        &&& a.loc@[l].obs_offset@ == b.loc@[l].obs_offset@
        &&& a.succ(l) == b.succ(l)
        &&& a.pred(l) == b.pred(l)
    }
}

fn copy_edges(es: &Vec<(Profile, Loc)>) -> (r: Vec<(Profile, Loc)>)
    ensures
        r@.map_values(|e: (Profile, Loc)| edge_view(e)) == es@.map_values(|e: (Profile, Loc)| edge_view(e)),
{
    let mut r: Vec<(Profile, Loc)> = Vec::new();
    let mut i: usize = 0;
    while i < es.len()
        invariant
            i <= es@.len(),
            r@.len() == i,
            forall|k: int| 0 <= k < i ==> edge_view(#[trigger] r@[k]) == edge_view(es@[k]),
        decreases es@.len() - i,
    {
        r.push((clone_profile(&es[i].0), es[i].1));
        i = i + 1;
    }
    proof {
        assert(r@.map_values(|e: (Profile, Loc)| edge_view(e)) =~= es@.map_values(|e: (Profile, Loc)| edge_view(e)));
    }
    r
}

fn copy_locs(v: &Vec<Loc>) -> (r: Vec<Loc>)
    ensures
        r@ == v@,
{
    let mut r: Vec<Loc> = Vec::new();
    let mut i: usize = 0;
    while i < v.len()
        invariant
            i <= v@.len(),
            r@ == v@.subrange(0, i as int),
        decreases v@.len() - i,
    {
        r.push(v[i]);
        i = i + 1;
        proof {
            assert(r@ =~= v@.subrange(0, i as int));
        }
    }
    proof {
        assert(r@ =~= v@);
    }
    r
}

fn copy_obs(v: &Vec<Obs>) -> (r: Vec<Obs>)
    ensures
        r@ == v@,
{
    let mut r: Vec<Obs> = Vec::new();
    let mut i: usize = 0;
    while i < v.len()
        invariant
            i <= v@.len(),
            r@ == v@.subrange(0, i as int),
        decreases v@.len() - i,
    {
        r.push(v[i]);
        i = i + 1;
        proof {
            assert(r@ =~= v@.subrange(0, i as int));
        }
    }
    proof {
        assert(r@ =~= v@);
    }
    r
}

fn copy_usizes(v: &Vec<usize>) -> (r: Vec<usize>)
    ensures
        r@ == v@,
{
    let mut r: Vec<usize> = Vec::new();
    let mut i: usize = 0;
    while i < v.len()
        invariant
            i <= v@.len(),
            r@ == v@.subrange(0, i as int),
        decreases v@.len() - i,
    {
        r.push(v[i]);
        i = i + 1;
        proof {
            assert(r@ =~= v@.subrange(0, i as int));
        }
    }
    proof {
        assert(r@ =~= v@);
    }
    r
}

/// A copy of `g`.
pub fn copy_game(g: &Game) -> (r: Game)
    ensures
        same_game(*g, r),
{
    let mut loc: Vec<LocData> = Vec::new();
    let mut l: usize = 0;
    while l < g.loc.len()
        invariant
            l <= g.loc@.len(),
            loc@.len() == l,
            forall|k: int| 0 <= k < l ==> {
                &&& (#[trigger] loc@[k]).is_winning == g.loc@[k].is_winning
                &&& loc@[k].obs@ == g.loc@[k].obs@
                &&& loc@[k].obs_offset@ == g.loc@[k].obs_offset@
                &&& loc@[k].successors@.map_values(|e: (Profile, Loc)| edge_view(e))
                    == g.loc@[k].successors@.map_values(|e: (Profile, Loc)| edge_view(e))
                &&& loc@[k].predecessors@.map_values(|e: (Profile, Loc)| edge_view(e))
                    == g.loc@[k].predecessors@.map_values(|e: (Profile, Loc)| edge_view(e))
            },
        decreases g.loc@.len() - l,
    {
        let d = &g.loc[l];
        loc.push(LocData {
            successors: copy_edges(&d.successors),
            predecessors: copy_edges(&d.predecessors),
            is_winning: d.is_winning,
            obs: copy_obs(&d.obs),
            obs_offset: copy_usizes(&d.obs_offset),
        });
        l = l + 1;
    }
    let mut obs: Vec<Vec<Vec<Loc>>> = Vec::new();
    let mut i: usize = 0;
    while i < g.obs.len()
        invariant
            i <= g.obs@.len(),
            obs@.len() == i,
            forall|k: int| 0 <= k < i ==> (#[trigger] obs@[k])@.len() == g.obs@[k]@.len(),
            forall|k: int, o: int| 0 <= k < i && 0 <= o < g.obs@[k]@.len() ==> (#[trigger] obs@[k]@[o])@ == g.obs@[k]@[o]@,
        decreases g.obs@.len() - i,
    {
        let mut sets: Vec<Vec<Loc>> = Vec::new();
        let mut o: usize = 0;
        while o < g.obs[i].len()
            invariant
                i < g.obs@.len(),
                o <= g.obs@[i as int]@.len(),
                sets@.len() == o,
                forall|p: int| 0 <= p < o ==> (#[trigger] sets@[p])@ == g.obs@[i as int]@[p]@,
            decreases g.obs@[i as int]@.len() - o,
        {
            sets.push(copy_locs(&g.obs[i][o]));
            o = o + 1;
        }
        obs.push(sets);
        i = i + 1;
    }
    let r = Game { loc, n_actions: copy_usizes(&g.n_actions), obs };
    proof {
        assert forall|k: int, o: int| 0 <= k < g.obs@.len() && 0 <= o < g.obs@[k]@.len() implies
            #[trigger] g.obs_set_spec(k, o) == r.obs_set_spec(k, o) by {
            assert(r.obs@[k]@[o]@ == g.obs@[k]@[o]@);
        }
    }
    r
}

/// Copies agree on being well formed.
pub proof fn lemma_same_game_wf(a: Game, b: Game)
    requires
        same_game(a, b),
        a.wf(),
    ensures
        b.wf(),
{
    assert(b.n_agents() == a.n_agents());
    assert(b.nloc() == a.nloc());
    assert forall|i: int| 0 <= i < b.n_agents() implies (#[trigger] b.obs@[i]).len() <= u32::MAX by {
        assert(a.obs@[i].len() <= u32::MAX);
    }
    assert(b.wf_sizes());
    assert forall|l: int| 0 <= l < b.nloc() implies {
        &&& (#[trigger] b.loc@[l]).obs@.len() == b.n_agents()
        &&& b.loc@[l].obs_offset@.len() == b.n_agents()
        &&& forall|i: int| 0 <= i < b.n_agents() ==> {
            &&& (#[trigger] b.loc@[l].obs@[i]).0 < b.obs@[i].len()
            &&& b.loc@[l].obs_offset@[i] < b.obs_set_spec(i, b.loc@[l].obs@[i].0 as int).len()
            &&& b.obs_set_spec(i, b.loc@[l].obs@[i].0 as int)[b.loc@[l].obs_offset@[i] as int] == Loc(l as u32)
        }
    } by {
        assert(a.loc@[l].obs@ == b.loc@[l].obs@);
        assert forall|i: int| 0 <= i < b.n_agents() implies {
            &&& (#[trigger] b.loc@[l].obs@[i]).0 < b.obs@[i].len()
            &&& b.loc@[l].obs_offset@[i] < b.obs_set_spec(i, b.loc@[l].obs@[i].0 as int).len()
            &&& b.obs_set_spec(i, b.loc@[l].obs@[i].0 as int)[b.loc@[l].obs_offset@[i] as int] == Loc(l as u32)
        } by {
            assert(a.loc@[l].obs@[i].0 < a.obs@[i].len());
            assert(a.obs_set_spec(i, a.loc@[l].obs@[i].0 as int) == b.obs_set_spec(i, b.loc@[l].obs@[i].0 as int));
        }
    }
    assert(b.wf_loc_obs());
    assert forall|i: int, o: int, k: int|
        0 <= i < b.n_agents() && 0 <= o < b.obs@[i].len() && 0 <= k < b.obs_set_spec(i, o).len() implies {
            let l = #[trigger] b.obs_set_spec(i, o)[k];
            &&& (l.0 as int) < b.nloc()
            &&& b.loc@[l.0 as int].obs@[i].0 == o
            &&& b.loc@[l.0 as int].obs_offset@[i] == k
        } by {
        assert(a.obs_set_spec(i, o) == b.obs_set_spec(i, o));
        let l = a.obs_set_spec(i, o)[k];
        assert(a.loc@[l.0 as int] == a.loc@[l.0 as int]);
    }
    assert(b.wf_obs_sets());
    assert forall|i: int, o: int| 0 <= i < b.n_agents() && 0 <= o < b.obs@[i].len()
        implies #[trigger] b.obs_set_spec(i, o).len() > 0 by {
        assert(a.obs_set_spec(i, o) == b.obs_set_spec(i, o));
    }
    assert(b.wf_nonempty_obs());
    assert forall|l: int, k: int| 0 <= l < b.nloc() && 0 <= k < b.succ(l).len()
        implies b.valid_edge(#[trigger] b.succ(l)[k]) by {
        assert(a.succ(l) == b.succ(l));
        assert(a.valid_edge(a.succ(l)[k]));
    }
    assert forall|l: int, k: int| 0 <= l < b.nloc() && 0 <= k < b.pred(l).len()
        implies b.valid_edge(#[trigger] b.pred(l)[k]) by {
        assert(a.pred(l) == b.pred(l));
        assert(a.valid_edge(a.pred(l)[k]));
    }
    assert forall|l: int, l2: int, x: Seq<crate::types::Act>| 0 <= l < b.nloc() && 0 <= l2 < b.nloc() implies
        (#[trigger] b.succ(l).contains((x, Loc(l2 as u32))) <==> #[trigger] b.pred(l2).contains((x, Loc(l as u32)))) by {
        assert(a.succ(l) == b.succ(l));
        assert(a.pred(l2) == b.pred(l2));
        assert(a.succ(l).contains((x, Loc(l2 as u32))) <==> a.pred(l2).contains((x, Loc(l as u32))));
    }
    assert(b.wf_edges());
}

} // verus!
