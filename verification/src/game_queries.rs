//! Further queries on explicit games.

use vstd::prelude::*;
use crate::types::{Loc, Obs, Act, Agt};
use crate::game::{Game, Profile, edge_view};
use crate::explore::clone_profile;

verus! {

/// A transition of the game: source, profile, target.
pub open spec fn triple_view(e: (Loc, Profile, Loc)) -> (Loc, Seq<Act>, Loc) {
    (e.0, e.1@, e.2)
}

/// All transitions, by source location and then in stored order.
pub open spec fn all_edges(g: Game, n: nat) -> Seq<(Loc, Seq<Act>, Loc)>
    decreases n,
{
    if n == 0 {
        Seq::empty()
    } else {
        all_edges(g, (n - 1) as nat) + g.succ(n - 1).map_values(|e: (Seq<Act>, Loc)| (Loc((n - 1) as u32), e.0, e.1))
    }
}

/// `s` without consecutive repetitions.
pub open spec fn dedup_consecutive(s: Seq<Loc>) -> Seq<Loc>
    decreases s.len(),
{
    if s.len() == 0 {
        Seq::empty()
    } else {
        let d = dedup_consecutive(s.drop_last());
        if s.len() >= 2 && s[s.len() - 2] == s.last() { d } else { d.push(s.last()) }
    }
}

/// The profiles of the transitions of `es` whose target is `l2`, in order.
pub open spec fn profiles_to(es: Seq<(Seq<Act>, Loc)>, l2: Loc) -> Seq<Seq<Act>>
    decreases es.len(),
{
    if es.len() == 0 {
        Seq::empty()
    } else if es.last().1 == l2 {
        profiles_to(es.drop_last(), l2).push(es.last().0)
    } else {
        profiles_to(es.drop_last(), l2)
    }
}

/// A group of transitions: source, profiles, target.
pub open spec fn group_view(e: (Loc, Vec<Profile>, Loc)) -> (Loc, Seq<Seq<Act>>, Loc) {
    (e.0, e.1@.map_values(|p: Profile| p@), e.2)
}

/// `(l, l2)` comes before `(m, m2)`: by source, then by target.
pub open spec fn pair_lt(l: Loc, l2: Loc, m: Loc, m2: Loc) -> bool {
    l.0 < m.0 || (l.0 == m.0 && l2.0 < m2.0)
}

/// The least target at least `lo` of the transitions `es`, if any.
/// Some transition of `es` goes to `l2` exactly when some profile does.
proof fn lemma_profiles_to_nonempty(es: Seq<(Seq<Act>, Loc)>, l2: Loc, q: int)
    requires
        0 <= q < es.len(),
        es[q].1 == l2,
    ensures
        profiles_to(es, l2).len() > 0,
    decreases es.len(),
{
    if q < es.len() - 1 {
        assert(es.drop_last()[q] == es[q]);
        lemma_profiles_to_nonempty(es.drop_last(), l2, q);
    }
}

/// The entries of `r` are groups of transitions of `g`, sorted by source
/// and target, each the profiles of every transition of its source to its
/// target.
pub open spec fn groups_ok(g: Game, r: Seq<(Loc, Vec<Profile>, Loc)>) -> bool {
    &&& forall|k: int| 0 <= k < r.len() ==> ((#[trigger] r[k]).0.0 as int) < g.nloc()
        && r[k].1@.len() > 0
        && group_view(r[k]).1 == profiles_to(g.succ(r[k].0.0 as int), r[k].2)
    &&& forall|k: int, j: int| 0 <= k < j < r.len() ==> pair_lt((#[trigger] r[k]).0, r[k].2, (#[trigger] r[j]).0, r[j].2)
}

/// Some group of `r` goes from `l` to `l2`.
pub open spec fn has_group(r: Seq<(Loc, Vec<Profile>, Loc)>, l: Loc, l2: Loc) -> bool {
    exists|k: int| 0 <= k < r.len() && (#[trigger] r[k]).0 == l && r[k].2 == l2
}

fn least_target_from(es: &Vec<(Profile, Loc)>, lo: u64) -> (r: Option<u32>)
    ensures
        match r {
            Some(m) => m >= lo
                && (exists|q: int| 0 <= q < es@.len() && (#[trigger] es@[q]).1.0 == m)
                && forall|q: int| 0 <= q < es@.len() && (#[trigger] es@[q]).1.0 >= lo ==> es@[q].1.0 >= m,
            None => forall|q: int| 0 <= q < es@.len() ==> (#[trigger] es@[q]).1.0 < lo,
        },
{
    let mut best: Option<u32> = None;
    let mut k: usize = 0;
    while k < es.len()
        invariant
            k <= es@.len(),
            match best {
                Some(m) => m >= lo
                    && (exists|q: int| 0 <= q < k && (#[trigger] es@[q]).1.0 == m)
                    && forall|q: int| 0 <= q < k && (#[trigger] es@[q]).1.0 >= lo ==> es@[q].1.0 >= m,
                None => forall|q: int| 0 <= q < k ==> (#[trigger] es@[q]).1.0 < lo,
            },
        decreases es@.len() - k,
    {
        let t = es[k].1.0;
        if t as u64 >= lo {
            match best {
                Some(m) => {
                    if t < m {
                        best = Some(t);
                    }
                },
                None => {
                    best = Some(t);
                },
            }
        }
        k = k + 1;
    }
    best
}

/// The profiles of the transitions `es` to `l2`, in order.
fn profiles_with_target(es: &Vec<(Profile, Loc)>, l2: Loc) -> (r: Vec<Profile>)
    ensures
        r@.map_values(|p: Profile| p@) == profiles_to(es@.map_values(|e: (Profile, Loc)| edge_view(e)), l2),
{
    let ghost ev = es@.map_values(|e: (Profile, Loc)| edge_view(e));
    let mut r: Vec<Profile> = Vec::new();
    let mut k: usize = 0;
    while k < es.len()
        invariant
            ev == es@.map_values(|e: (Profile, Loc)| edge_view(e)),
            k <= es@.len(),
            r@.map_values(|p: Profile| p@) == profiles_to(ev.subrange(0, k as int), l2),
        decreases es@.len() - k,
    {
        let ghost before = r@;
        proof {
            let s1 = ev.subrange(0, k as int + 1);
            assert(s1.drop_last() =~= ev.subrange(0, k as int));
            assert(s1.last() == edge_view(es@[k as int]));
        }
        if es[k].1 == l2 {
            let p = clone_profile(&es[k].0);
            r.push(p);
            proof {
                assert(r@.map_values(|p: Profile| p@) =~= before.map_values(|p: Profile| p@).push(es@[k as int].0@));
            }
        }
        k = k + 1;
    }
    proof {
        assert(ev.subrange(0, es@.len() as int) =~= ev);
    }
    r
}

/// The transitions of the locations of `s`, location by location.
pub open spec fn succ_set_spec(g: Game, s: Seq<Loc>) -> Seq<(Seq<Act>, Loc)>
    decreases s.len(),
{
    if s.len() == 0 {
        Seq::empty()
    } else {
        succ_set_spec(g, s.drop_last()) + g.succ(s.last().0 as int)
    }
}

impl Game {
    /// The agents, in order.
    pub fn iter_agt(&self) -> (r: Vec<Agt>)
        requires self.n_agents() <= 256,
        ensures
            r@.len() == self.n_agents(),
            forall|i: int| 0 <= i < r@.len() ==> (#[trigger] r@[i]).0 == i,
    {
        let mut r: Vec<Agt> = Vec::new();
        let mut i: usize = 0;
        while i < self.n_actions.len()
            invariant
                self.n_agents() <= 256,
                i <= self.n_agents(),
                r@.len() == i,
                forall|j: int| 0 <= j < i ==> (#[trigger] r@[j]).0 == j,
            decreases self.n_agents() - i,
        {
            r.push(Agt(i as u8));
            i = i + 1;
        }
        r
    }

    /// The actions of agent `agt`, in order.
    pub fn iter_act(&self, agt: Agt) -> (r: Vec<Act>)
        requires
            (agt.0 as int) < self.n_agents(),
            self.n_actions@[agt.0 as int] <= 65536,
        ensures
            r@.len() == self.n_actions@[agt.0 as int],
            forall|i: int| 0 <= i < r@.len() ==> (#[trigger] r@[i]).0 == i,
    {
        let n = self.n_actions[agt.index()];
        let mut r: Vec<Act> = Vec::new();
        let mut i: usize = 0;
        while i < n
            invariant
                n <= 65536,
                i <= n,
                r@.len() == i,
                forall|j: int| 0 <= j < i ==> (#[trigger] r@[j]).0 == j,
            decreases n - i,
        {
            r.push(Act(i as u16));
            i = i + 1;
        }
        r
    }

    /// All goals? Whether every location of observation `obs` of agent
    /// `agt` is a goal.
    pub fn is_obs_winning(&self, agt: Agt, obs: Obs) -> (r: bool)
        requires
            self.wf(),
            (agt.0 as int) < self.n_agents(),
            (obs.0 as int) < self.obs@[agt.0 as int].len(),
        ensures
            r == forall|k: int| 0 <= k < self.obs_set_spec(agt.0 as int, obs.0 as int).len()
                ==> self.loc@[(#[trigger] self.obs_set_spec(agt.0 as int, obs.0 as int)[k]).0 as int].is_winning,
    {
        let s = self.obs_set(agt, obs);
        let mut k: usize = 0;
        while k < s.len()
            invariant
                self.wf(),
                (agt.0 as int) < self.n_agents(),
                (obs.0 as int) < self.obs@[agt.0 as int].len(),
                s@ == self.obs_set_spec(agt.0 as int, obs.0 as int),
                k <= s@.len(),
                forall|q: int| 0 <= q < k ==> self.loc@[(#[trigger] s@[q]).0 as int].is_winning,
            decreases s@.len() - k,
        {
            proof {
                assert((s@[k as int].0 as int) < self.nloc());
            }
            if !self.is_winning(s[k]) {
                return false;
            }
            k = k + 1;
        }
        true
    }

    /// The only location of observation `obs` of agent `agt`, if it has
    /// only one.
    pub fn to_unique_loc(&self, obs: Obs, agt: Agt) -> (r: Option<Loc>)
        requires
            (agt.0 as int) < self.obs@.len(),
            (obs.0 as int) < self.obs@[agt.0 as int].len(),
        ensures
            match r {
                Some(l) => self.obs_set_spec(agt.0 as int, obs.0 as int) == seq![l],
                None => self.obs_set_spec(agt.0 as int, obs.0 as int).len() != 1,
            },
    {
        let s = self.obs_set(agt, obs);
        if s.len() == 1 {
            assert(s@ =~= seq![s@[0]]);
            Some(s[0])
        } else {
            None
        }
    }

    /// The targets of the transitions of `l`, consecutive repetitions
    /// removed.
    pub fn neighbors(&self, l: Loc) -> (r: Vec<Loc>)
        requires (l.0 as int) < self.nloc(),
        ensures r@ == dedup_consecutive(crate::game::targets(self.succ(l.0 as int))),
    {
        let es = self.successors(l);
        let ghost ts = crate::game::targets(self.succ(l.0 as int));
        let mut r: Vec<Loc> = Vec::new();
        let mut k: usize = 0;
        while k < es.len()
            invariant
                ts == crate::game::targets(es@.map_values(|e: (Profile, Loc)| edge_view(e))),
                ts.len() == es@.len(),
                k <= es@.len(),
                r@ == dedup_consecutive(ts.subrange(0, k as int)),
            decreases es@.len() - k,
        {
            let ghost t1 = ts.subrange(0, k as int + 1);
            proof {
                assert(t1.drop_last() =~= ts.subrange(0, k as int));
                assert(t1.last() == es@[k as int].1);
                if k > 0 {
                    assert(t1[t1.len() - 2] == es@[k - 1].1);
                }
            }
            if k == 0 || es[k - 1].1 != es[k].1 {
                r.push(es[k].1);
            }
            k = k + 1;
        }
        assert(ts.subrange(0, es@.len() as int) =~= ts);
        r
    }

    /// The transitions grouped by source and target, sorted by source and
    /// then by target, each group with the profiles of its transitions in
    /// stored order.
    pub fn edges_dedup(&self) -> (r: Vec<(Loc, Vec<Profile>, Loc)>)
        requires
            self.nloc() <= u32::MAX,
        ensures
            groups_ok(*self, r@),
            forall|l: int, q: int| 0 <= l < self.nloc() && 0 <= q < self.succ(l).len() ==>
                has_group(r@, Loc(l as u32), (#[trigger] self.succ(l)[q]).1),
            forall|k: int| 0 <= k < r@.len() ==>
                crate::game::targets(self.succ((#[trigger] r@[k]).0.0 as int)).contains(r@[k].2),
    {
        let mut r: Vec<(Loc, Vec<Profile>, Loc)> = Vec::new();
        let mut l: usize = 0;
        while l < self.loc.len()
            invariant
                self.nloc() <= u32::MAX,
                l <= self.nloc(),
                groups_ok(*self, r@),
                forall|k: int| 0 <= k < r@.len() ==> ((#[trigger] r@[k]).0.0 as int) < l,
                forall|x: int, q: int| 0 <= x < l && 0 <= q < self.succ(x).len() ==>
                    has_group(r@, Loc(x as u32), (#[trigger] self.succ(x)[q]).1),
                forall|k: int| 0 <= k < r@.len() ==>
                    crate::game::targets(self.succ((#[trigger] r@[k]).0.0 as int)).contains(r@[k].2),
            decreases self.nloc() - l,
        {
            let es = &self.loc[l].successors;
            let ghost sv = self.succ(l as int);
            let ghost r0 = r@;
            let mut lo: u64 = 0;
            loop
                invariant
                    self.nloc() <= u32::MAX,
                    l < self.nloc(),
                    *es == self.loc@[l as int].successors,
                    sv == self.succ(l as int),
                    sv == es@.map_values(|e: (Profile, Loc)| edge_view(e)),
                    lo <= 0x1_0000_0000,
                    groups_ok(*self, r@),
                    r0.len() <= r@.len(),
                    forall|k: int| 0 <= k < r0.len() ==> #[trigger] r@[k] == r0[k],
                    forall|k: int| 0 <= k < r0.len() ==> ((#[trigger] r0[k]).0.0 as int) < l,
                    forall|k: int| r0.len() <= k < r@.len() ==> (#[trigger] r@[k]).0.0 == l && (r@[k].2.0 as int) < lo,
                    forall|x: int, q: int| 0 <= x < l && 0 <= q < self.succ(x).len() ==>
                        has_group(r0, Loc(x as u32), (#[trigger] self.succ(x)[q]).1),
                    forall|q: int| 0 <= q < sv.len() && (sv[q].1.0 as int) < lo ==>
                        has_group(r@, Loc(l as u32), (#[trigger] sv[q]).1),
                    forall|k: int| 0 <= k < r@.len() ==>
                        crate::game::targets(self.succ((#[trigger] r@[k]).0.0 as int)).contains(r@[k].2),
                ensures
                    forall|q: int| 0 <= q < sv.len() ==> has_group(r@, Loc(l as u32), (#[trigger] sv[q]).1),
                decreases 0x1_0000_0000 - lo,
            {
                match least_target_from(es, lo) {
                    None => {
                        proof {
                            assert forall|q: int| 0 <= q < sv.len() implies (sv[q].1.0 as int) < lo by {
                                assert(sv[q].1 == es@[q].1);
                            }
                        }
                        break;
                    },
                    Some(m) => {
                        let ps = profiles_with_target(es, Loc(m));
                        let ghost before = r@;
                        proof {
                            let q = choose|q: int| 0 <= q < es@.len() && (#[trigger] es@[q]).1.0 == m;
                            assert(sv[q].1 == es@[q].1);
                            lemma_profiles_to_nonempty(sv, Loc(m), q);
                            assert(ps@.map_values(|p: Profile| p@).len() == ps@.len());
                        }
                        r.push((Loc(l as u32), ps, Loc(m)));
                        proof {
                            let t = before.len() as int;
                            assert(r@[t] == (Loc(l as u32), ps, Loc(m)));
                            assert forall|k: int| 0 <= k < r@.len() implies ((#[trigger] r@[k]).0.0 as int) < self.nloc()
                                && r@[k].1@.len() > 0
                                && group_view(r@[k]).1 == profiles_to(self.succ(r@[k].0.0 as int), r@[k].2) by {
                                if k < t {
                                    assert(r@[k] == before[k]);
                                }
                            }
                            assert forall|k: int, j: int| 0 <= k < j < r@.len() implies
                                pair_lt((#[trigger] r@[k]).0, r@[k].2, (#[trigger] r@[j]).0, r@[j].2) by {
                                if j < t {
                                    assert(r@[k] == before[k] && r@[j] == before[j]);
                                } else {
                                    assert(r@[k] == before[k]);
                                    if k >= r0.len() {
                                        assert((before[k].2.0 as int) < lo);
                                    }
                                }
                            }
                            assert forall|x: int, q: int| 0 <= x < l && 0 <= q < self.succ(x).len() implies
                                has_group(r0, Loc(x as u32), (#[trigger] self.succ(x)[q]).1) by {
                            }
                            assert forall|q: int| 0 <= q < sv.len() && (sv[q].1.0 as int) < m + 1 implies
                                has_group(r@, Loc(l as u32), (#[trigger] sv[q]).1) by {
                                assert(sv[q].1 == es@[q].1);
                                if (sv[q].1.0 as int) < lo {
                                    let k = choose|k: int| 0 <= k < before.len() && (#[trigger] before[k]).0 == Loc(l as u32)
                                        && before[k].2 == sv[q].1;
                                    assert(r@[k] == before[k]);
                                } else {
                                    assert(sv[q].1.0 == m);
                                    assert(r@[t].2 == sv[q].1);
                                }
                            }
                            assert forall|k: int| 0 <= k < r@.len() implies
                                crate::game::targets(self.succ((#[trigger] r@[k]).0.0 as int)).contains(r@[k].2) by {
                                if k < t {
                                    assert(r@[k] == before[k]);
                                } else {
                                    let q = choose|q: int| 0 <= q < es@.len() && (#[trigger] es@[q]).1.0 == m;
                                    assert(sv[q].1 == es@[q].1);
                                    assert(crate::game::targets(sv)[q] == r@[k].2);
                                }
                            }
                        }
                        lo = m as u64 + 1;
                    },
                }
            }
            proof {
                assert forall|x: int, q: int| 0 <= x < l + 1 && 0 <= q < self.succ(x).len() implies
                    has_group(r@, Loc(x as u32), (#[trigger] self.succ(x)[q]).1) by {
                    if x < l {
                        assert(has_group(r0, Loc(x as u32), self.succ(x)[q].1));
                        let k = choose|k: int| 0 <= k < r0.len() && (#[trigger] r0[k]).0 == Loc(x as u32)
                            && r0[k].2 == self.succ(x)[q].1;
                        assert(r@[k] == r0[k]);
                    } else {
                        assert(self.succ(x)[q] == sv[q]);
                    }
                }
                assert forall|k: int| 0 <= k < r@.len() implies ((#[trigger] r@[k]).0.0 as int) < l + 1 by {
                    if k < r0.len() {
                        assert(r@[k] == r0[k]);
                    }
                }
            }
            l = l + 1;
        }
        r
    }

    /// The agents that cannot tell `l` from `l2`, in order.
    pub fn shared_observations(&self, l: Loc, l2: Loc) -> (r: Vec<Agt>)
        requires
            self.wf(),
            (l.0 as int) < self.nloc(),
            (l2.0 as int) < self.nloc(),
        ensures
            forall|i: int, j: int| 0 <= i < j < r@.len() ==> r@[i].0 < r@[j].0,
            forall|i: int| 0 <= i < self.n_agents() ==>
                (r@.contains(Agt(i as u8)) <==> self.obs_of(l.0 as int, i) == self.obs_of(l2.0 as int, i)),
            forall|k: int| 0 <= k < r@.len() ==> ((#[trigger] r@[k]).0 as int) < self.n_agents(),
    {
        let o = self.observe(l);
        let o2 = self.observe(l2);
        proof {
            assert(self.loc@[l.0 as int].obs@.len() == self.n_agents());
            assert(self.loc@[l2.0 as int].obs@.len() == self.n_agents());
        }
        let mut r: Vec<Agt> = Vec::new();
        let mut i: usize = 0;
        while i < o.len()
            invariant
                self.wf(),
                o@ == self.loc@[l.0 as int].obs@,
                o2@ == self.loc@[l2.0 as int].obs@,
                o@.len() == self.n_agents(),
                o2@.len() == self.n_agents(),
                i <= o@.len(),
                forall|a: int, b: int| 0 <= a < b < r@.len() ==> r@[a].0 < r@[b].0,
                forall|k: int| 0 <= k < r@.len() ==> ((#[trigger] r@[k]).0 as int) < i,
                forall|x: int| 0 <= x < i ==>
                    (r@.contains(Agt(x as u8)) <==> self.obs_of(l.0 as int, x) == self.obs_of(l2.0 as int, x)),
            decreases o@.len() - i,
        {
            let ghost before = r@;
            if o[i].0 == o2[i].0 {
                r.push(Agt(i as u8));
            }
            proof {
                assert forall|x: int| 0 <= x < i + 1 implies
                    (r@.contains(Agt(x as u8)) <==> self.obs_of(l.0 as int, x) == self.obs_of(l2.0 as int, x)) by {
                    if x < i {
                        if r@.contains(Agt(x as u8)) && !before.contains(Agt(x as u8)) {
                            let k = choose|k: int| 0 <= k < r@.len() && r@[k] == Agt(x as u8);
                            if k < before.len() {
                                assert(before[k] == r@[k]);
                            }
                        }
                        if before.contains(Agt(x as u8)) {
                            let k = choose|k: int| 0 <= k < before.len() && before[k] == Agt(x as u8);
                            assert(r@[k] == before[k]);
                        }
                    } else {
                        if r@.contains(Agt(x as u8)) && !(o[i as int].0 == o2[i as int].0) {
                            let k = choose|k: int| 0 <= k < r@.len() && r@[k] == Agt(x as u8);
                            assert(r@[k] == before[k]);
                        }
                        if o[i as int].0 == o2[i as int].0 {
                            assert(r@[before.len() as int] == Agt(x as u8));
                        }
                    }
                }
            }
            i = i + 1;
        }
        r
    }

    /// The transitions of the locations of `s`, location by location and
    /// each in stored order.
    pub fn succ_set(&self, s: &Vec<Loc>) -> (r: Vec<(Profile, Loc)>)
        requires
            forall|k: int| 0 <= k < s@.len() ==> ((#[trigger] s@[k]).0 as int) < self.nloc(),
        ensures
            r@.map_values(|e: (Profile, Loc)| edge_view(e)) == succ_set_spec(*self, s@),
    {
        let mut r: Vec<(Profile, Loc)> = Vec::new();
        let mut i: usize = 0;
        while i < s.len()
            invariant
                i <= s@.len(),
                forall|k: int| 0 <= k < s@.len() ==> ((#[trigger] s@[k]).0 as int) < self.nloc(),
                r@.map_values(|e: (Profile, Loc)| edge_view(e)) == succ_set_spec(*self, s@.subrange(0, i as int)),
            decreases s@.len() - i,
        {
            proof {
                assert(s@.subrange(0, i + 1).drop_last() =~= s@.subrange(0, i as int));
                assert(s@.subrange(0, i + 1).last() == s@[i as int]);
            }
            let es = self.successors(s[i]);
            let ghost base = r@.map_values(|e: (Profile, Loc)| edge_view(e));
            let ghost sv = self.succ(s@[i as int].0 as int);
            let mut k: usize = 0;
            while k < es.len()
                invariant
                    sv == es@.map_values(|e: (Profile, Loc)| edge_view(e)),
                    k <= es@.len(),
                    r@.map_values(|e: (Profile, Loc)| edge_view(e)) == base + sv.subrange(0, k as int),
                decreases es@.len() - k,
            {
                let ghost before = r@;
                let p = clone_profile(&es[k].0);
                r.push((p, es[k].1));
                proof {
                    assert(sv[k as int] == edge_view(es@[k as int]));
                    assert(sv.subrange(0, k as int + 1) =~= sv.subrange(0, k as int).push(sv[k as int]));
                    assert(r@.map_values(|e: (Profile, Loc)| edge_view(e))
                        =~= before.map_values(|e: (Profile, Loc)| edge_view(e)).push(edge_view(r@[before.len() as int])));
                }
                k = k + 1;
            }
            proof {
                assert(sv.subrange(0, es@.len() as int) =~= sv);
            }
            i = i + 1;
        }
        proof {
            assert(s@.subrange(0, s@.len() as int) =~= s@);
        }
        r
    }

    /// All transitions, by source location and then in stored order.
    pub fn edges(&self) -> (r: Vec<(Loc, Profile, Loc)>)
        requires self.nloc() <= u32::MAX,
        ensures r@.map_values(|e: (Loc, Profile, Loc)| triple_view(e)) == all_edges(*self, self.nloc()),
    {
        let mut r: Vec<(Loc, Profile, Loc)> = Vec::new();
        let mut l: usize = 0;
        while l < self.loc.len()
            invariant
                self.nloc() <= u32::MAX,
                l <= self.nloc(),
                r@.map_values(|e: (Loc, Profile, Loc)| triple_view(e)) == all_edges(*self, l as nat),
            decreases self.nloc() - l,
        {
            let es = &self.loc[l].successors;
            let ghost base = r@.map_values(|e: (Loc, Profile, Loc)| triple_view(e));
            let ghost sv = self.succ(l as int);
            let ghost f = |e: (Seq<Act>, Loc)| (Loc(l as u32), e.0, e.1);
            let mut k: usize = 0;
            while k < es.len()
                invariant
                    l < self.nloc(),
                    self.nloc() <= u32::MAX,
                    *es == self.loc@[l as int].successors,
                    sv == self.succ(l as int),
                    f == (|e: (Seq<Act>, Loc)| (Loc(l as u32), e.0, e.1)),
                    k <= es@.len(),
                    r@.map_values(|e: (Loc, Profile, Loc)| triple_view(e)) == base + sv.subrange(0, k as int).map_values(f),
                decreases es@.len() - k,
            {
                let ghost before = r@;
                let p = clone_profile(&es[k].0);
                r.push((Loc(l as u32), p, es[k].1));
                proof {
                    assert(sv[k as int] == edge_view(es@[k as int]));
                    assert(sv.subrange(0, k as int + 1).map_values(f) =~= sv.subrange(0, k as int).map_values(f).push(f(sv[k as int])));
                    assert(r@.map_values(|e: (Loc, Profile, Loc)| triple_view(e))
                        =~= before.map_values(|e: (Loc, Profile, Loc)| triple_view(e)).push(triple_view(r@[before.len() as int])));
                }
                k = k + 1;
            }
            proof {
                assert(sv.subrange(0, es@.len() as int) =~= sv);
                let l1 = (l + 1) as nat;
                assert(((l1 - 1) as nat) == l as nat);
            }
            l = l + 1;
        }
        r
    }
}

} // verus!
