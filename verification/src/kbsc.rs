//! The knowledge-based subset construction of a one-agent game: the
//! locations are the sets of locations the agent considers possible.

use vstd::prelude::*;
use crate::types::{Loc, Obs, Act, Agt};
use crate::game::Game;
use crate::loc_set::LocSet;
use crate::construct::{AbstractGame, valid_profile_for};
use crate::explore::clone_profile;

verus! {

/// The knowledge game of the one-agent game `g`.
#[derive(Debug)]
pub struct KBSC {
    pub g: Game,
}

/// A knowledge state: the possible locations, and the number of locations
/// of the game.
pub type Knowledge = (Set<nat>, nat);

/// The locations with observation `o` that an `a`-transition reaches from
/// a location of `s`.
pub open spec fn kbsc_group(g: Game, s: Set<nat>, a: int, o: int) -> Set<nat> {
    Set::new(|l2: nat| l2 < g.nloc() && g.loc@[l2 as int].obs@[0].0 == o
        && exists|l: nat| s.contains(l) && #[trigger] g.has_edge(l as int, seq![Act(a as u16)], Loc(l2 as u32)))
}

/// The nonempty groups of action `a`, for the observations below `k`.
pub open spec fn kbsc_groups(g: Game, s: Set<nat>, a: int, k: nat) -> Seq<(Seq<Act>, Knowledge)>
    decreases k,
{
    if k == 0 {
        Seq::empty()
    } else {
        let prev = kbsc_groups(g, s, a, (k - 1) as nat);
        let grp = kbsc_group(g, s, a, k - 1);
        if grp == Set::<nat>::empty() {
            prev
        } else {
            prev.push((seq![Act(a as u16)], (grp, g.nloc())))
        }
    }
}

/// The transitions of the knowledge state `s` for the actions below `m`.
pub open spec fn kbsc_succ_upto(g: Game, s: Set<nat>, m: nat) -> Seq<(Seq<Act>, Knowledge)>
    decreases m,
{
    if m == 0 {
        Seq::empty()
    } else {
        kbsc_succ_upto(g, s, (m - 1) as nat) + kbsc_groups(g, s, m - 1, g.obs@[0]@.len())
    }
}

/// The transitions of the knowledge state `s`: for each action and then
/// each observation, in increasing order, the locations the action can
/// lead to with that observation, when there are any.
pub open spec fn kbsc_succ(g: Game, s: Set<nat>) -> Seq<(Seq<Act>, Knowledge)> {
    kbsc_succ_upto(g, s, g.n_actions@[0] as nat)
}

pub open spec fn knowledge_view(v: Seq<(Vec<Act>, LocSet)>) -> Seq<(Seq<Act>, Knowledge)> {
    v.map_values(|e: (Vec<Act>, LocSet)| (e.0@, e.1@))
}

impl KBSC {
    pub fn new(g: Game) -> (r: KBSC)
        ensures r.g == g,
    {
        KBSC { g }
    }
}

impl AbstractGame for KBSC {
    type Loc = LocSet;
    type Obs = LocSet;

    open spec fn inv(&self) -> bool {
        &&& self.g.wf()
        &&& self.g.n_agents() == 1
    }

    open spec fn l0_spec(&self) -> Knowledge {
        (set![0nat], self.g.nloc())
    }

    open spec fn n_actions_spec(&self) -> Seq<usize> {
        self.g.n_actions@
    }

    open spec fn loc_ok(&self, s: Knowledge) -> bool {
        &&& s.1 == self.g.nloc()
        &&& forall|i: nat| s.0.contains(i) ==> i < s.1
    }

    open spec fn obs_spec(&self, s: Knowledge) -> Seq<Knowledge> {
        seq![s]
    }

    open spec fn winning_spec(&self, s: Knowledge) -> bool {
        forall|i: nat| s.0.contains(i) ==> #[trigger] self.g.loc@[i as int].is_winning
    }

    open spec fn succ_spec(&self, s: Knowledge) -> Seq<(Seq<Act>, Knowledge)> {
        kbsc_succ(self.g, s.0)
    }

    fn l0(&self) -> (r: LocSet) {
        LocSet::singleton(&self.g, Loc(0))
    }

    fn n_actions(&self) -> (r: Vec<usize>) {
        let mut v: Vec<usize> = Vec::new();
        v.push(self.g.n_actions[0]);
        assert(v@ =~= self.g.n_actions@);
        v
    }

    fn obs(&self, s: &LocSet) -> (r: Vec<LocSet>) {
        let mut v: Vec<LocSet> = Vec::new();
        v.push(s.clone());
        assert(v@.map_values(|o: LocSet| o@) =~= seq![s@]);
        v
    }

    fn is_winning(&self, s: &LocSet) -> (r: bool) {
        assert(s@.0 == s.bits() && s@.1 == s.cap());
        let members = s.iter();
        let mut k: usize = 0;
        while k < members.len()
            invariant
                self.inv(),
                k <= members@.len(),
                forall|l: Loc| members@.contains(l) <==> s.bits().contains(l.0 as nat),
                forall|j: int| 0 <= j < k ==> self.g.loc@[members@[j].0 as int].is_winning,
                forall|i: nat| s.bits().contains(i) ==> i < self.g.nloc(),
            decreases members@.len() - k,
        {
            assert(members@.contains(members@[k as int]));
            if !self.g.is_winning(members[k]) {
                return false;
            }
            k = k + 1;
        }
        proof {
            assert forall|i: nat| s.bits().contains(i) implies #[trigger] self.g.loc@[i as int].is_winning by {
                assert(members@.contains(Loc(i as u32)));
                let j = choose|j: int| 0 <= j < members@.len() && members@[j] == Loc(i as u32);
            }
        }
        true
    }

    fn succ(&self, s: &LocSet) -> (r: Vec<(Vec<Act>, LocSet)>) {
        assert(s@.0 == s.bits() && s@.1 == s.cap());
        let members = s.iter();
        let na = self.g.n_actions[0];
        let nobs = self.g.obs[0].len();
        let mut r: Vec<(Vec<Act>, LocSet)> = Vec::new();
        let mut a: usize = 0;
        while a < na
            invariant
                self.inv(),
                self.loc_ok(s@),
                na == self.g.n_actions@[0],
                nobs == self.g.obs@[0].len(),
                forall|l: Loc| members@.contains(l) <==> s.bits().contains(l.0 as nat),
                a <= na,
                forall|i: nat| s.bits().contains(i) ==> i < self.g.nloc(),
                knowledge_view(r@) == kbsc_succ_upto(self.g, s.bits(), a as nat),
                forall|q: int| 0 <= q < r@.len() ==> self.loc_ok((#[trigger] r@[q]).1@)
                    && valid_profile_for(self.n_actions_spec(), r@[q].0@),
            decreases na - a,
        {
            let prof: Vec<Act> = vec![Act(a as u16)];
            proof {
                assert(prof@ =~= seq![Act(a as u16)]);
                assert forall|k: int| 0 <= k < members@.len() implies (#[trigger] members@[k]).0 < self.g.nloc() by {
                    assert(members@.contains(members@[k]));
                    assert(s.bits().contains(members@[k].0 as nat));
                }
            }
            let post = self.g.post_set(&members, &prof);
            proof {
                assert forall|k: int| 0 <= k < post@.len() implies ((#[trigger] post@[k]).0 as int) < self.g.nloc() by {
                    self.g.lemma_sets_valid(members@, prof@, post@[k]);
                }
            }
            let p = LocSet::from_iter(&self.g, &post);
            proof {
                assert forall|l2: nat| p.bits().contains(l2) <==> (l2 < self.g.nloc() && exists|l: nat|
                    s.bits().contains(l) && #[trigger] self.g.has_edge(l as int, prof@, Loc(l2 as u32))) by {
                    let x = Loc(l2 as u32);
                    self.g.lemma_post_set_contains(members@, prof@, x);
                    if p.bits().contains(l2) {
                        let k = choose|k: int| 0 <= k < post@.len() && (#[trigger] post@[k]).0 == l2;
                        assert(post@[k] == x);
                        assert(post@.contains(x));
                        let k2 = choose|k2: int| 0 <= k2 < members@.len() && #[trigger] self.g.has_edge(members@[k2].0 as int, prof@, x);
                        assert(members@.contains(members@[k2]));
                        assert(s.bits().contains(members@[k2].0 as nat));
                        assert(self.g.has_edge((members@[k2].0 as nat) as int, prof@, Loc(l2 as u32)));
                    }
                    if l2 < self.g.nloc() && exists|l: nat| s.bits().contains(l) && #[trigger] self.g.has_edge(l as int, prof@, Loc(l2 as u32)) {
                        let l = choose|l: nat| s.bits().contains(l) && #[trigger] self.g.has_edge(l as int, prof@, Loc(l2 as u32));
                        assert(l < self.g.nloc());
                        assert(Loc(l as u32).0 as nat == l);
                        assert(members@.contains(Loc(l as u32)));
                        let k2 = choose|k2: int| 0 <= k2 < members@.len() && members@[k2] == Loc(l as u32);
                        assert(self.g.has_edge(members@[k2].0 as int, prof@, x));
                        assert(post@.contains(x));
                        let k = choose|k: int| 0 <= k < post@.len() && post@[k] == x;
                        assert(post@[k].0 == l2);
                    }
                }
            }
            let ghost base = r@;
            let mut o: usize = 0;
            while o < nobs
                invariant
                    self.inv(),
                    self.loc_ok(s@),
                    na == self.g.n_actions@[0],
                    nobs == self.g.obs@[0].len(),
                    a < na,
                    prof@ == seq![Act(a as u16)],
                    p.wf(),
                    p.cap() == self.g.nloc(),
                    forall|l2: nat| p.bits().contains(l2) <==> (l2 < self.g.nloc() && exists|l: nat|
                        s.bits().contains(l) && #[trigger] self.g.has_edge(l as int, prof@, Loc(l2 as u32))),
                    o <= nobs,
                    knowledge_view(base) == kbsc_succ_upto(self.g, s.bits(), a as nat),
                    knowledge_view(r@) == knowledge_view(base) + kbsc_groups(self.g, s.bits(), a as int, o as nat),
                    forall|q: int| 0 <= q < r@.len() ==> self.loc_ok((#[trigger] r@[q]).1@)
                        && valid_profile_for(self.n_actions_spec(), r@[q].0@),
                decreases nobs - o,
            {
                let set_o = self.g.obs_set(Agt(0), Obs(o as u32));
                let mut grp = LocSet::new(&self.g);
                let mut q: usize = 0;
                while q < set_o.len()
                    invariant
                        self.inv(),
                        (o as int) < self.g.obs@[0].len(),
                        set_o@ == self.g.obs_set_spec(0, o as int),
                        q <= set_o@.len(),
                        grp.wf(),
                        grp.cap() == self.g.nloc(),
                        p.cap() == self.g.nloc(),
                        forall|l2: nat| grp.bits().contains(l2) <==> (p.bits().contains(l2)
                            && exists|j: int| 0 <= j < q && (#[trigger] set_o@[j]).0 == l2),
                    decreases set_o@.len() - q,
                {
                    proof {
                        assert(self.g.obs_set_spec(0, o as int).contains(set_o@[q as int]));
                        self.g.lemma_obs_set_members(0, o as int, set_o@[q as int]);
                    }
                    if p.contains(set_o[q]) {
                        grp.insert(set_o[q]);
                    }
                    proof {
                        assert forall|l2: nat| grp.bits().contains(l2) <==> (p.bits().contains(l2)
                            && exists|j: int| 0 <= j < q + 1 && (#[trigger] set_o@[j]).0 == l2) by {
                            if exists|j: int| 0 <= j < q + 1 && (#[trigger] set_o@[j]).0 == l2 {
                                let j = choose|j: int| 0 <= j < q + 1 && (#[trigger] set_o@[j]).0 == l2;
                                if j < q {
                                    assert(exists|j2: int| 0 <= j2 < q && (#[trigger] set_o@[j2]).0 == l2);
                                }
                            }
                            if set_o@[q as int].0 == l2 {
                                assert(0 <= q < q + 1 && set_o@[q as int].0 == l2);
                            }
                        }
                    }
                    q = q + 1;
                }
                proof {
                    assert forall|l2: nat| grp.bits().contains(l2) <==> kbsc_group(self.g, s.bits(), a as int, o as int).contains(l2) by {
                        if l2 < self.g.nloc() {
                            self.g.lemma_obs_set_members(0, o as int, Loc(l2 as u32));
                            if self.g.obs_set_spec(0, o as int).contains(Loc(l2 as u32)) {
                                let j = choose|j: int| 0 <= j < set_o@.len() && set_o@[j] == Loc(l2 as u32);
                                assert(set_o@[j].0 == l2);
                            }
                        }
                        if exists|j: int| 0 <= j < set_o@.len() && (#[trigger] set_o@[j]).0 == l2 {
                            let j = choose|j: int| 0 <= j < set_o@.len() && (#[trigger] set_o@[j]).0 == l2;
                            assert(self.g.obs_set_spec(0, o as int).contains(set_o@[j]));
                            self.g.lemma_obs_set_members(0, o as int, set_o@[j]);
                        }
                    }
                    assert(grp.bits() =~= kbsc_group(self.g, s.bits(), a as int, o as int));
                }
                let ghost r0 = r@;
                if !grp.is_empty() {
                    let pc = clone_profile(&prof);
                    r.push((pc, grp));
                    proof {
                        assert(knowledge_view(r@) =~= knowledge_view(r0).push((prof@, (kbsc_group(self.g, s.bits(), a as int, o as int), self.g.nloc()))));
                    }
                }
                proof {
                    let k1 = (o + 1) as nat;
                    assert(((k1 - 1) as nat) == o as nat);
                    assert(knowledge_view(r@) =~= knowledge_view(base) + kbsc_groups(self.g, s.bits(), a as int, k1));
                }
                o = o + 1;
            }
            proof {
                let m1 = (a + 1) as nat;
                assert(((m1 - 1) as nat) == a as nat);
                assert(kbsc_succ_upto(self.g, s.bits(), m1)
                    == kbsc_succ_upto(self.g, s.bits(), a as nat) + kbsc_groups(self.g, s.bits(), a as int, self.g.obs@[0]@.len()));
            }
            a = a + 1;
        }
        r
    }

    fn loc_eq(&self, a: &LocSet, b: &LocSet) -> (r: bool) {
        a.eq(b)
    }

    fn obs_eq(&self, a: &LocSet, b: &LocSet) -> (r: bool) {
        a.eq(b)
    }

    fn loc_clone(&self, l: &LocSet) -> (r: LocSet) {
        l.clone()
    }

    fn obs_clone(&self, o: &LocSet) -> (r: LocSet) {
        o.clone()
    }
}

} // verus!
