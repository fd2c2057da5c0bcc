//! Subsets of one observation of a single-agent game, stored as bit sets
//! over the positions of the locations within the observation.

use vstd::prelude::*;
use fixedbitset::FixedBitSet;
use crate::types::{Loc, Obs, agt};
use crate::game::Game;
use crate::loc_set::{fbs_bits, fbs_len, fbs_with_capacity, fbs_put, fbs_count_ones, fbs_ones, fbs_eq, fbs_clone,
    lemma_nat_range_finite};

verus! {

/// Locations of the observation `obs`, by their positions in it.
#[derive(Debug)]
pub struct ObsSubset {
    pub obs: Obs,
    pub set: FixedBitSet,
}

impl ObsSubset {
    /// The positions of the members within the observation.
    pub open spec fn bits(&self) -> Set<nat> {
        fbs_bits(self.set)
    }

    /// The size of the observation the subset was made for.
    pub open spec fn cap(&self) -> nat {
        fbs_len(self.set)
    }

    /// Every member is a position of the observation.
    pub open spec fn bits_ok(&self) -> bool {
        forall|i: nat| self.bits().contains(i) ==> i < self.cap()
    }

    /// The subset belongs to an observation of the single agent of `g`.
    pub open spec fn wf(&self, g: Game) -> bool {
        &&& g.n_agents() == 1
        &&& (self.obs.0 as int) < g.obs@[0].len()
        &&& self.cap() == g.obs_set_spec(0, self.obs.0 as int).len()
        &&& self.bits_ok()
    }

    /// The location at position `i` of the observation.
    pub open spec fn loc_at(&self, g: Game, i: int) -> Loc {
        g.obs_set_spec(0, self.obs.0 as int)[i]
    }

    /// `l` is a member.
    pub open spec fn member(&self, g: Game, l: Loc) -> bool {
        exists|i: nat| #[trigger] self.bits().contains(i) && self.loc_at(g, i as int) == l
    }

    /// The empty subset of observation `obs`.
    pub fn new(g: &Game, obs: Obs) -> (r: ObsSubset)
        requires
            g.wf(),
            g.n_agents() == 1,
            (obs.0 as int) < g.obs@[0].len(),
        ensures
            r.wf(*g),
            r.obs == obs,
            r.bits() == Set::<nat>::empty(),
    {
        let set = fbs_with_capacity(g.obs_set(agt(0), obs).len());
        ObsSubset { obs, set }
    }

    /// The subset holding the initial location in its observation.
    pub fn s0(g: &Game) -> (r: ObsSubset)
        requires
            g.wf(),
            g.n_agents() == 1,
        ensures
            r.wf(*g),
            r.obs == g.obs_of(0, 0),
            r.bits() == set![g.loc@[0].obs_offset@[0] as nat],
            r.loc_at(*g, g.loc@[0].obs_offset@[0] as int) == Loc(0),
    {
        let obs = g.observe(Loc(0));
        let off = g.obs_offset(Loc(0));
        proof {
            assert(g.loc@[0].obs@.len() == g.n_agents());
        }
        let mut result = Self::new(g, obs[0]);
        result.set_put(off[0]);
        proof {
            assert(result.bits() =~= set![g.loc@[0].obs_offset@[0] as nat]);
        }
        result
    }

    fn set_put(&mut self, i: usize) -> (r: bool)
        requires
            old(self).bits_ok(),
            (i as nat) < old(self).cap(),
        ensures
            final(self).bits_ok(),
            final(self).obs == old(self).obs,
            final(self).cap() == old(self).cap(),
            final(self).bits() == old(self).bits().insert(i as nat),
            r == old(self).bits().contains(i as nat),
    {
        let r = fbs_put(&mut self.set, i);
        proof {
            assert forall|x: nat| self.bits().contains(x) implies x < self.cap() by {
                if x != i as nat {
                    assert(old(self).bits().contains(x));
                }
            }
        }
        r
    }

    /// The members, in the order of their positions in the observation.
    pub fn iter(&self, g: &Game) -> (r: Vec<Loc>)
        requires
            g.wf(),
            self.wf(*g),
        ensures
            forall|l: Loc| r@.contains(l) <==> self.member(*g, l),
            forall|k: int, j: int| 0 <= k < j < r@.len() ==>
                g.loc@[r@[k].0 as int].obs_offset@[0] < g.loc@[r@[j].0 as int].obs_offset@[0],
    {
        let ones = fbs_ones(&self.set);
        let set = g.obs_set(agt(0), self.obs);
        let mut r: Vec<Loc> = Vec::new();
        let mut k: usize = 0;
        while k < ones.len()
            invariant
                g.wf(),
                self.wf(*g),
                set@ == g.obs_set_spec(0, self.obs.0 as int),
                forall|i: int, j: int| 0 <= i < j < ones@.len() ==> ones@[i] < ones@[j],
                forall|b: nat| b <= usize::MAX ==> (fbs_bits(self.set).contains(b) <==> ones@.contains(b as usize)),
                forall|i: int| 0 <= i < ones@.len() ==> fbs_bits(self.set).contains(#[trigger] ones@[i] as nat),
                k <= ones@.len(),
                r@.len() == k,
                forall|x: int| 0 <= x < k ==> r@[x] == #[trigger] self.loc_at(*g, ones@[x] as int),
            decreases ones@.len() - k,
        {
            proof {
                assert(fbs_bits(self.set).contains(ones@[k as int] as nat));
                assert(self.bits().contains(ones@[k as int] as nat));
                assert((ones@[k as int] as nat) < self.cap());
            }
            r.push(set[ones[k]]);
            k = k + 1;
        }
        proof {
            assert forall|l: Loc| r@.contains(l) <==> self.member(*g, l) by {
                if r@.contains(l) {
                    let x = choose|x: int| 0 <= x < r@.len() && r@[x] == l;
                    assert(self.bits().contains(ones@[x] as nat));
                }
                if self.member(*g, l) {
                    let i = choose|i: nat| #[trigger] self.bits().contains(i) && self.loc_at(*g, i as int) == l;
                    assert(ones@.contains(i as usize));
                    let x = choose|x: int| 0 <= x < ones@.len() && ones@[x] == i as usize;
                    assert(r@[x] == l);
                }
            }
            assert forall|x: int, j: int| 0 <= x < j < r@.len() implies
                g.loc@[r@[x].0 as int].obs_offset@[0] < g.loc@[r@[j].0 as int].obs_offset@[0] by {
                let o = self.obs.0 as int;
                assert(r@[x] == self.loc_at(*g, ones@[x] as int));
                assert(r@[j] == self.loc_at(*g, ones@[j] as int));
                assert(self.bits().contains(ones@[x] as nat));
                assert(self.bits().contains(ones@[j] as nat));
                assert(ones@[x] < ones@[j]);
                assert(g.wf_obs_sets());
                assert(g.loc@[g.obs_set_spec(0, o)[ones@[x] as int].0 as int].obs_offset@[0] == ones@[x]);
                assert(g.loc@[g.obs_set_spec(0, o)[ones@[j] as int].0 as int].obs_offset@[0] == ones@[j]);
            }
        }
        r
    }

    /// Adds `l`, which must be of the subset's observation; returns whether
    /// it was a member already.
    pub fn put(&mut self, g: &Game, l: Loc) -> (r: bool)
        requires
            g.wf(),
            old(self).wf(*g),
            (l.0 as int) < g.nloc(),
            g.obs_of(l.0 as int, 0) == old(self).obs,
        ensures
            final(self).wf(*g),
            final(self).obs == old(self).obs,
            final(self).bits() == old(self).bits().insert(g.loc@[l.0 as int].obs_offset@[0] as nat),
            final(self).loc_at(*g, g.loc@[l.0 as int].obs_offset@[0] as int) == l,
            r == old(self).bits().contains(g.loc@[l.0 as int].obs_offset@[0] as nat),
    {
        let off = g.obs_offset(l);
        proof {
            assert(g.loc@[l.0 as int].obs@.len() == g.n_agents());
        }
        self.set_put(off[0])
    }

    /// Whether the subset has no member.
    pub fn is_empty(&self) -> (r: bool)
        requires
            self.bits_ok(),
        ensures
            r == (self.bits() == Set::<nat>::empty()),
    {
        let n = fbs_count_ones(&self.set);
        proof {
            let f = fbs_bits(self.set).filter(|i: nat| i < fbs_len(self.set));
            assert(f =~= self.bits());
            lemma_nat_range_finite(fbs_len(self.set));
            vstd::set_lib::lemma_len_subset(f, Set::new(|i: nat| i < fbs_len(self.set)));
            if self.bits() == Set::<nat>::empty() {
                assert(f =~= Set::<nat>::empty());
            } else {
                if forall|x: nat| !f.contains(x) {
                    assert(f =~= Set::<nat>::empty());
                }
                let x = choose|x: nat| f.contains(x);
                vstd::set::axiom_set_remove_len(f, x);
                assert(f.remove(x).len() == f.len() - 1);
            }
        }
        n == 0
    }

    /// Same observation and same members.
    pub fn eq(&self, other: &ObsSubset) -> (r: bool)
        ensures
            r == (self.obs == other.obs && self.bits() == other.bits() && self.cap() == other.cap()),
    {
        self.obs.0 == other.obs.0 && fbs_eq(&self.set, &other.set)
    }
}

impl Clone for ObsSubset {
    fn clone(&self) -> (r: Self)
        ensures
            r.obs == self.obs,
            r.bits() == self.bits(),
            r.cap() == self.cap(),
    {
        ObsSubset { obs: self.obs, set: fbs_clone(&self.set) }
    }
}

} // verus!
