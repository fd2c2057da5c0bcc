//! The projection of a game onto a single agent: the same locations and
//! transitions, with only that agent's actions and observations.

use vstd::prelude::*;
use crate::types::{Loc, Obs, Act, Agt};
use crate::game::{Game, Profile, edge_view};
use crate::construct::{AbstractGame, valid_profile_for};

verus! {

/// The game `g` as seen by agent `agt` alone.
#[derive(Debug)]
pub struct Project<'a> {
    pub g: &'a Game,
    pub agt: Agt,
}

impl<'a> Project<'a> {
    pub fn new(g: &'a Game, agt: Agt) -> (r: Project<'a>)
        ensures *r.g == *g, r.agt == agt,
    {
        Project { g, agt }
    }

    /// Agent `agt`'s part of an action profile.
    pub open spec fn proj_edge(&self, e: (Seq<Act>, Loc)) -> (Seq<Act>, Loc) {
        (seq![e.0[self.agt.0 as int]], e.1)
    }
}

impl<'a> AbstractGame for Project<'a> {
    type Loc = Loc;
    type Obs = Obs;

    open spec fn inv(&self) -> bool {
        &&& self.g.wf()
        &&& (self.agt.0 as int) < self.g.n_agents()
    }

    open spec fn l0_spec(&self) -> Loc {
        Loc(0)
    }

    open spec fn n_actions_spec(&self) -> Seq<usize> {
        seq![self.g.n_actions@[self.agt.0 as int]]
    }

    open spec fn loc_ok(&self, l: Loc) -> bool {
        (l.0 as int) < self.g.nloc()
    }

    open spec fn obs_spec(&self, l: Loc) -> Seq<Obs> {
        seq![self.g.loc@[l.0 as int].obs@[self.agt.0 as int]]
    }

    open spec fn winning_spec(&self, l: Loc) -> bool {
        self.g.loc@[l.0 as int].is_winning
    }

    open spec fn succ_spec(&self, l: Loc) -> Seq<(Seq<Act>, Loc)> {
        self.g.succ(l.0 as int).map_values(|e: (Seq<Act>, Loc)| self.proj_edge(e))
    }

    fn l0(&self) -> (r: Loc) {
        Loc(0)
    }

    fn n_actions(&self) -> (r: Vec<usize>) {
        let v = vec![self.g.n_actions[self.agt.index()]];
        assert(v@ =~= seq![self.g.n_actions@[self.agt.0 as int]]);
        v
    }

    fn obs(&self, l: &Loc) -> (r: Vec<Obs>) {
        proof {
            assert(self.g.loc@[l.0 as int].obs@.len() == self.g.n_agents());
        }
        let v = vec![self.g.loc[l.index()].obs[self.agt.index()]];
        assert(v@.map_values(|o: Obs| o@) =~= self.obs_spec(l@));
        v
    }

    fn is_winning(&self, l: &Loc) -> (r: bool) {
        self.g.is_winning(*l)
    }

    fn succ(&self, l: &Loc) -> (r: Vec<(Profile, Loc)>) {
        let es = self.g.successors(*l);
        let ghost ev = self.g.succ(l.0 as int);
        let mut r: Vec<(Profile, Loc)> = Vec::new();
        let mut k: usize = 0;
        while k < es.len()
            invariant
                self.inv(),
                (l.0 as int) < self.g.nloc(),
                ev == self.g.succ(l.0 as int),
                es@.map_values(|e: (Profile, Loc)| edge_view(e)) == ev,
                k <= es@.len(),
                r@.len() == k,
                r@.map_values(|e: (Profile, Loc)| (e.0@, e.1@))
                    == ev.subrange(0, k as int).map_values(|e: (Seq<Act>, Loc)| self.proj_edge(e)),
                forall|q: int| 0 <= q < r@.len() ==> self.loc_ok((#[trigger] r@[q]).1@)
                    && valid_profile_for(self.n_actions_spec(), r@[q].0@),
            decreases es@.len() - k,
        {
            proof {
                assert(ev[k as int] == edge_view(es@[k as int]));
                assert(self.g.valid_edge(ev[k as int]));
            }
            let a = es[k].0[self.agt.index()];
            let p = vec![a];
            let ghost r0 = r@;
            proof {
                assert(p@ =~= seq![a]);
                assert(ev[k as int].0 == es@[k as int].0@);
                assert((p@, es@[k as int].1) == self.proj_edge(ev[k as int]));
            }
            r.push((p, es[k].1));
            proof {
                assert(r@ == r0.push(r@[k as int]));
                assert(r@.map_values(|e: (Profile, Loc)| (e.0@, e.1@))
                    =~= r0.map_values(|e: (Profile, Loc)| (e.0@, e.1@)).push(self.proj_edge(ev[k as int])));
                assert(ev.subrange(0, k as int + 1).map_values(|e: (Seq<Act>, Loc)| self.proj_edge(e))
                    =~= ev.subrange(0, k as int).map_values(|e: (Seq<Act>, Loc)| self.proj_edge(e))
                        .push(self.proj_edge(ev[k as int])));
                assert(r@.map_values(|e: (Profile, Loc)| (e.0@, e.1@))
                    =~= ev.subrange(0, k as int + 1).map_values(|e: (Seq<Act>, Loc)| self.proj_edge(e)));
            }
            k = k + 1;
        }
        assert(ev.subrange(0, ev.len() as int) =~= ev);
        r
    }

    fn loc_eq(&self, a: &Loc, b: &Loc) -> (r: bool) {
        *a == *b
    }

    fn obs_eq(&self, a: &Obs, b: &Obs) -> (r: bool) {
        *a == *b
    }

    fn loc_clone(&self, l: &Loc) -> (r: Loc) {
        *l
    }

    fn obs_clone(&self, o: &Obs) -> (r: Obs) {
        *o
    }
}

} // verus!
