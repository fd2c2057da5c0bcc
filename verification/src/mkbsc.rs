//! The multi-agent knowledge-based subset construction: each agent's
//! knowledge game is built from its projection, and a location of the
//! construction is one knowledge state per agent.

use vstd::prelude::*;
use crate::types::{Loc, Act, Agt, Obs};
use crate::game::{Game, Profile};
use crate::loc_set::LocSet;
use crate::project::Project;
use crate::kbsc::KBSC;
use crate::construct::{
    AbstractGame, ConstructedGame, build_game, is_expansion, view_seq, obs_rev_view, valid_profile_for,
    reachable_locs,
};
use crate::combos::{combos, combos_exec, loc_lists, copy_locs};
use crate::profiles::{all_profiles, lemma_all_profiles_contains};

verus! {

/// The knowledge games of the agents of `g`, combined.
pub struct MKBSC {
    pub g: Game,
    /// For each agent, the location of `g` that each location of its
    /// projection stands for.
    pub proj: Vec<Vec<Loc>>,
    /// For each agent, the observation of `g` that each observation of its
    /// projection stands for.
    pub proj_obs: Vec<Vec<Vec<Obs>>>,
    /// The knowledge game of each agent's projection.
    pub gki: Vec<ConstructedGame<KBSC>>,
}

/// A reachable part small enough to number.
pub open spec fn small<V>(s: Set<V>) -> bool {
    s.finite() && s.len() <= u32::MAX
}

/// `p` is the projection of `g` onto agent `i`, built.
pub open spec fn is_projection(g: Game, i: int, p: Game) -> bool {
    exists|o: Seq<Loc>, ob: Seq<Seq<Obs>>| #[trigger] is_expansion(&Project { g: &g, agt: Agt(i as u8) }, p, o, ob)
}

/// The projection of `g` onto agent `i`, or its knowledge game, has too
/// many reachable locations to number.
pub open spec fn too_big_for(g: Game, i: int) -> bool {
    ||| !small(reachable_locs(&Project { g: &g, agt: Agt(i as u8) }))
    ||| exists|p: Game| #[trigger] is_projection(g, i, p) && !small(reachable_locs(&KBSC { g: p }))
}

impl MKBSC {
    pub open spec fn n(&self) -> nat {
        self.g.n_agents()
    }

    /// What agent `i` knows at location `x` of its knowledge game: the
    /// possible locations of its projection.
    pub open spec fn knowledge(&self, i: int, x: Loc) -> Set<nat> {
        self.gki@[i].origins()[x.0 as int].0
    }

    /// The same knowledge, as locations of `g`.
    pub open spec fn knowledge_g(&self, i: int, x: Loc) -> Set<nat> {
        Set::new(|l: nat| exists|p: nat| self.knowledge(i, x).contains(p) && #[trigger] self.proj@[i]@[p as int].0 == l)
    }

    /// The locations of `g` that every agent considers possible at `s`.
    pub open spec fn pre_locs(&self, s: Seq<Loc>) -> Set<nat> {
        Set::new(|l: nat| l < self.g.nloc() && forall|i: int| 0 <= i < self.n() ==> #[trigger] self.knowledge_g(i, s[i]).contains(l))
    }

    /// The locations of `g` that the profile `a` leads to from `pre_locs(s)`.
    pub open spec fn post_g(&self, s: Seq<Loc>, a: Seq<Act>) -> Set<nat> {
        Set::new(|l2: nat| l2 < self.g.nloc() && exists|l: nat| self.pre_locs(s).contains(l)
            && #[trigger] self.g.has_edge(l as int, a, Loc(l2 as u32)))
    }

    /// For each agent, its knowledge states after its action of `a`.
    pub open spec fn slices(&self, s: Seq<Loc>, a: Seq<Act>) -> Seq<Seq<Loc>> {
        Seq::new(self.n(), |i: int| self.gki@[i].game.post_spec(s[i].0 as int, seq![a[i]]))
    }

    /// Some location that `a` leads to is possible for every agent at `x`.
    pub open spec fn keep(&self, s: Seq<Loc>, a: Seq<Act>, x: Seq<Loc>) -> bool {
        exists|l: nat| self.post_g(s, a).contains(l)
            && forall|i: int| 0 <= i < self.n() ==> #[trigger] self.knowledge_g(i, x[i]).contains(l)
    }

    /// The transitions `(a, x)` for the combinations `xs` that are kept.
    pub open spec fn kept(&self, s: Seq<Loc>, a: Seq<Act>, xs: Seq<Seq<Loc>>) -> Seq<(Seq<Act>, Seq<Loc>)>
        decreases xs.len(),
    {
        if xs.len() == 0 {
            Seq::empty()
        } else {
            let p = self.kept(s, a, xs.drop_last());
            if self.keep(s, a, xs.last()) {
                p.push((a, xs.last()))
            } else {
                p
            }
        }
    }

    /// The transitions of `s` for the profiles `ps`, profile by profile.
    pub open spec fn succ_upto(&self, s: Seq<Loc>, ps: Seq<Seq<Act>>) -> Seq<(Seq<Act>, Seq<Loc>)>
        decreases ps.len(),
    {
        if ps.len() == 0 {
            Seq::empty()
        } else {
            self.succ_upto(s, ps.drop_last()) + self.kept(s, ps.last(), combos(self.slices(s, ps.last())))
        }
    }

    pub open spec fn wf(&self) -> bool {
        &&& self.g.wf()
        &&& self.proj@.len() == self.n()
        &&& self.proj_obs@.len() == self.n()
        &&& self.gki@.len() == self.n()
        &&& forall|i: int| 0 <= i < self.n() ==> is_expansion(&Project { g: &self.g, agt: Agt(i as u8) },
            (#[trigger] self.gki@[i]).source().g, view_seq(self.proj@[i]@), obs_rev_view(self.proj_obs@[i]@))
        &&& forall|i: int| 0 <= i < self.n() ==> (#[trigger] self.gki@[i]).wf()
    }
}


/// Every combination picks one element of each list.
pub proof fn lemma_combos_member(lists: Seq<Seq<Loc>>, x: Seq<Loc>)
    requires combos(lists).contains(x),
    ensures
        x.len() == lists.len(),
        forall|i: int| 0 <= i < lists.len() ==> #[trigger] lists[i].contains(x[i]),
    decreases lists.len(),
{
    if lists.len() > 0 {
        let rest = combos(lists.drop_first());
        lemma_expand_with_member(lists[0], rest, x);
        lemma_combos_member(lists.drop_first(), x.drop_first());
        assert forall|i: int| 0 <= i < lists.len() implies #[trigger] lists[i].contains(x[i]) by {
            if i > 0 {
                assert(lists.drop_first()[i - 1] == lists[i]);
                assert(x.drop_first()[i - 1] == x[i]);
            }
        }
    } else {
        assert(x == Seq::<Loc>::empty());
    }
}

proof fn lemma_expand_with_member(ys: Seq<Loc>, rest: Seq<Seq<Loc>>, x: Seq<Loc>)
    requires crate::combos::expand_with(ys, rest).contains(x),
    ensures x.len() >= 1, ys.contains(x[0]), rest.contains(x.drop_first()),
    decreases ys.len(),
{
    if ys.len() > 0 {
        let e = crate::combos::expand_with(ys.drop_last(), rest);
        let q = crate::combos::prepend_all(ys.last(), rest);
        let k = choose|k: int| 0 <= k < (e + q).len() && (e + q)[k] == x;
        if k < e.len() {
            assert(e[k] == x);
            lemma_expand_with_member(ys.drop_last(), rest, x);
            let j = choose|j: int| 0 <= j < ys.drop_last().len() && ys.drop_last()[j] == x[0];
            assert(ys[j] == x[0]);
        } else {
            assert(q[k - e.len()] == x);
            assert(x == seq![ys.last()] + rest[k - e.len()]);
            assert(x.drop_first() =~= rest[k - e.len()]);
            assert(ys[ys.len() - 1] == x[0]);
        }
    }
}

/// Without any kept combination, nothing is kept.
proof fn lemma_kept_none(m: &MKBSC, s: Seq<Loc>, a: Seq<Act>, xs: Seq<Seq<Loc>>)
    requires forall|x: Seq<Loc>| !#[trigger] m.keep(s, a, x),
    ensures m.kept(s, a, xs) == Seq::<(Seq<Act>, Seq<Loc>)>::empty(),
    decreases xs.len(),
{
    if xs.len() > 0 {
        lemma_kept_none(m, s, a, xs.drop_last());
        assert(!m.keep(s, a, xs.last()));
    }
}

impl MKBSC {
    /// Agent `i`'s knowledge at `x`, as a set of locations of `g`.
    fn knowledge_in_g(&self, i: usize, x: Loc) -> (r: LocSet)
        requires
            self.wf(),
            i < self.n(),
            (x.0 as int) < self.gki@[i as int].game.nloc(),
        ensures
            r.wf(),
            r.cap() == self.g.nloc(),
            r.bits() == self.knowledge_g(i as int, x),
    {
        let ghost gk = self.gki@[i as int];
        let ghost p = gk.source().g;
        let ghost ii = i as int;
        proof {
            assert(self.gki@[ii].wf());
            assert(is_expansion(&Project { g: &self.g, agt: Agt(ii as u8) }, p, view_seq(self.proj@[ii]@), obs_rev_view(self.proj_obs@[ii]@)));
            assert(gk.source().loc_ok(gk.origins()[x.0 as int]));
        }
        let k = self.gki[i].origin_loc(x);
        proof {
            assert(k@ == gk.origins()[x.0 as int]);
            assert(k.bits() == k@.0 && k.cap() == k@.1);
            assert(k.cap() == p.nloc());
            assert(view_seq(self.proj@[ii]@).len() == self.proj@[ii]@.len());
            assert forall|j: int| 0 <= j < p.nloc() implies (self.proj@[ii]@[j].0 as int) < self.g.nloc() by {
                assert(view_seq(self.proj@[ii]@)[j] == self.proj@[ii]@[j]);
                assert((Project { g: &self.g, agt: Agt(ii as u8) }).loc_ok(view_seq(self.proj@[ii]@)[j]));
            }
        }
        let members = k.iter();
        let mut mapped: Vec<Loc> = Vec::new();
        let mut q: usize = 0;
        while q < members.len()
            invariant
                self.wf(),
                i < self.n(),
                ii == i as int,
                forall|l: Loc| members@.contains(l) <==> k.bits().contains(l.0 as nat),
                forall|b: nat| k.bits().contains(b) ==> b < p.nloc(),
                k.bits() == self.knowledge(ii, x),
                self.proj@[ii]@.len() == p.nloc(),
                forall|j: int| 0 <= j < p.nloc() ==> (self.proj@[ii]@[j].0 as int) < self.g.nloc(),
                q <= members@.len(),
                mapped@.len() == q,
                forall|t: int| 0 <= t < q ==> #[trigger] mapped@[t] == self.proj@[ii]@[members@[t].0 as int],
            decreases members@.len() - q,
        {
            proof {
                assert(members@.contains(members@[q as int]));
                assert(k.bits().contains(members@[q as int].0 as nat));
                assert((members@[q as int].0 as nat) < p.nloc());
                assert(self.proj@.len() == self.n());
                assert((members@[q as int].0 as int) < self.proj@[ii]@.len());
            }
            let pl = members[q].index();
            let row = &self.proj[i];
            let target = row[pl];
            mapped.push(target);
            q = q + 1;
        }
        proof {
            assert forall|t: int| 0 <= t < mapped@.len() implies ((#[trigger] mapped@[t]).0 as int) < self.g.nloc() by {
                assert(members@.contains(members@[t]));
            }
        }
        let r = LocSet::from_iter(&self.g, &mapped);
        proof {
            assert forall|l: nat| r.bits().contains(l) <==> self.knowledge_g(ii, x).contains(l) by {
                if r.bits().contains(l) {
                    let t = choose|t: int| 0 <= t < mapped@.len() && (#[trigger] mapped@[t]).0 == l;
                    assert(members@.contains(members@[t]));
                    let pp = members@[t].0 as nat;
                    assert(self.knowledge(ii, x).contains(pp));
                    assert(self.proj@[ii]@[pp as int].0 == l);
                }
                if self.knowledge_g(ii, x).contains(l) {
                    let pp = choose|pp: nat| self.knowledge(ii, x).contains(pp) && #[trigger] self.proj@[ii]@[pp as int].0 == l;
                    assert(pp < p.nloc());
                    assert(members@.contains(Loc(pp as u32)));
                    let t = choose|t: int| 0 <= t < members@.len() && members@[t] == Loc(pp as u32);
                    assert(mapped@[t].0 == l);
                }
            }
            assert(r.bits() =~= self.knowledge_g(ii, x));
        }
        r
    }
}


/// The spec view of a list of transitions of the construction.
pub open spec fn mk_view(v: Seq<(Profile, Vec<Loc>)>) -> Seq<(Seq<Act>, Seq<Loc>)> {
    v.map_values(|e: (Profile, Vec<Loc>)| (e.0@, e.1@))
}

impl MKBSC {
    /// `s` is one location of each agent's knowledge game.
    pub open spec fn state_ok(&self, s: Seq<Loc>) -> bool {
        &&& s.len() == self.n()
        &&& forall|i: int| 0 <= i < self.n() ==> (#[trigger] s[i]).0 < self.gki@[i].game.nloc()
    }

    fn pre_set(&self, s: &Vec<Loc>) -> (r: LocSet)
        requires
            self.wf(),
            self.state_ok(s@),
        ensures
            r.wf(),
            r.cap() == self.g.nloc(),
            r.bits() == self.pre_locs(s@),
    {
        let mut r = self.knowledge_in_g(0, s[0]);
        let mut i: usize = 1;
        while i < s.len()
            invariant
                self.wf(),
                self.state_ok(s@),
                1 <= i <= s@.len(),
                r.wf(),
                r.cap() == self.g.nloc(),
                forall|l: nat| r.bits().contains(l) <==> (l < self.g.nloc()
                    && forall|j: int| 0 <= j < i ==> #[trigger] self.knowledge_g(j, s@[j]).contains(l)),
            decreases s@.len() - i,
        {
            let k = self.knowledge_in_g(i, s[i]);
            r.bitand_assign(&k);
            proof {
                assert forall|l: nat| r.bits().contains(l) <==> (l < self.g.nloc()
                    && forall|j: int| 0 <= j < i + 1 ==> #[trigger] self.knowledge_g(j, s@[j]).contains(l)) by {
                    if l < self.g.nloc() && forall|j: int| 0 <= j < i + 1 ==> #[trigger] self.knowledge_g(j, s@[j]).contains(l) {
                        assert(self.knowledge_g(i as int, s@[i as int]).contains(l));
                    }
                }
            }
            i = i + 1;
        }
        proof {
            assert(r.bits() =~= self.pre_locs(s@));
        }
        r
    }

    fn post_of(&self, pre: &LocSet, a: &Profile) -> (r: LocSet)
        requires
            self.g.wf(),
            pre.wf(),
            pre.cap() == self.g.nloc(),
        ensures
            r.wf(),
            r.cap() == self.g.nloc(),
            forall|l2: nat| r.bits().contains(l2) <==> (l2 < self.g.nloc() && exists|l: nat|
                pre.bits().contains(l) && #[trigger] self.g.has_edge(l as int, a@, Loc(l2 as u32))),
    {
        let members = pre.iter();
        proof {
            assert forall|k: int| 0 <= k < members@.len() implies (#[trigger] members@[k]).0 < self.g.nloc() by {
                assert(members@.contains(members@[k]));
                assert(pre.bits().contains(members@[k].0 as nat));
            }
        }
        let post = self.g.post_set(&members, a);
        proof {
            assert forall|k: int| 0 <= k < post@.len() implies ((#[trigger] post@[k]).0 as int) < self.g.nloc() by {
                self.g.lemma_sets_valid(members@, a@, post@[k]);
            }
        }
        let p = LocSet::from_iter(&self.g, &post);
        proof {
            assert forall|l2: nat| p.bits().contains(l2) <==> (l2 < self.g.nloc() && exists|l: nat|
                pre.bits().contains(l) && #[trigger] self.g.has_edge(l as int, a@, Loc(l2 as u32))) by {
                let x = Loc(l2 as u32);
                self.g.lemma_post_set_contains(members@, a@, x);
                if p.bits().contains(l2) {
                    let k = choose|k: int| 0 <= k < post@.len() && (#[trigger] post@[k]).0 == l2;
                    assert(post@[k] == x);
                    assert(post@.contains(x));
                    let k2 = choose|k2: int| 0 <= k2 < members@.len() && #[trigger] self.g.has_edge(members@[k2].0 as int, a@, x);
                    assert(members@.contains(members@[k2]));
                    assert(pre.bits().contains(members@[k2].0 as nat));
                    assert(self.g.has_edge((members@[k2].0 as nat) as int, a@, Loc(l2 as u32)));
                }
                if l2 < self.g.nloc() && exists|l: nat| pre.bits().contains(l) && #[trigger] self.g.has_edge(l as int, a@, Loc(l2 as u32)) {
                    let l = choose|l: nat| pre.bits().contains(l) && #[trigger] self.g.has_edge(l as int, a@, Loc(l2 as u32));
                    assert(l < self.g.nloc());
                    assert(Loc(l as u32).0 as nat == l);
                    assert(members@.contains(Loc(l as u32)));
                    let k2 = choose|k2: int| 0 <= k2 < members@.len() && members@[k2] == Loc(l as u32);
                    assert(self.g.has_edge(members@[k2].0 as int, a@, x));
                    assert(post@.contains(x));
                    let k = choose|k: int| 0 <= k < post@.len() && post@[k] == x;
                    assert(post@[k].0 == l2);
                }
            }
        }
        p
    }

    fn keeps(&self, pg: &LocSet, x: &Vec<Loc>) -> (r: bool)
        requires
            self.wf(),
            pg.wf(),
            pg.cap() == self.g.nloc(),
            self.state_ok(x@),
        ensures
            r == exists|l: nat| pg.bits().contains(l)
                && forall|i: int| 0 <= i < self.n() ==> #[trigger] self.knowledge_g(i, x@[i]).contains(l),
    {
        let mut blk = pg.clone();
        let mut i: usize = 0;
        while i < x.len()
            invariant
                self.wf(),
                self.state_ok(x@),
                i <= x@.len(),
                blk.wf(),
                blk.cap() == self.g.nloc(),
                forall|l: nat| blk.bits().contains(l) <==> (pg.bits().contains(l)
                    && forall|j: int| 0 <= j < i ==> #[trigger] self.knowledge_g(j, x@[j]).contains(l)),
            decreases x@.len() - i,
        {
            let k = self.knowledge_in_g(i, x[i]);
            blk.bitand_assign(&k);
            proof {
                assert forall|l: nat| blk.bits().contains(l) <==> (pg.bits().contains(l)
                    && forall|j: int| 0 <= j < i + 1 ==> #[trigger] self.knowledge_g(j, x@[j]).contains(l)) by {
                    if pg.bits().contains(l) && forall|j: int| 0 <= j < i + 1 ==> #[trigger] self.knowledge_g(j, x@[j]).contains(l) {
                        assert(self.knowledge_g(i as int, x@[i as int]).contains(l));
                    }
                }
            }
            i = i + 1;
        }
        let e = blk.is_empty();
        proof {
            if e {
                assert forall|l: nat| !(pg.bits().contains(l)
                    && forall|i: int| 0 <= i < self.n() ==> #[trigger] self.knowledge_g(i, x@[i]).contains(l)) by {
                    assert(!blk.bits().contains(l));
                }
            } else {
                assert(blk.bits() != Set::<nat>::empty());
                if forall|l: nat| !blk.bits().contains(l) {
                    assert(blk.bits() =~= Set::<nat>::empty());
                }
                let l = choose|l: nat| blk.bits().contains(l);
                assert(blk.bits().contains(l));
            }
        }
        !e
    }

    fn slices_exec(&self, s: &Vec<Loc>, a: &Profile) -> (r: Vec<Vec<Loc>>)
        requires
            self.wf(),
            self.state_ok(s@),
            a@.len() == self.n(),
        ensures
            loc_lists(r@) == self.slices(s@, a@),
    {
        let mut r: Vec<Vec<Loc>> = Vec::new();
        let mut i: usize = 0;
        while i < s.len()
            invariant
                self.wf(),
                self.state_ok(s@),
                a@.len() == self.n(),
                i <= s@.len(),
                r@.len() == i,
                forall|j: int| 0 <= j < i ==> (#[trigger] r@[j])@ == self.slices(s@, a@)[j],
            decreases s@.len() - i,
        {
            let p = vec![a[i]];
            proof {
                assert(p@ =~= seq![a@[i as int]]);
            }
            let post = self.gki[i].game.post(s[i], &p);
            r.push(post);
            i = i + 1;
        }
        proof {
            assert(loc_lists(r@) =~= self.slices(s@, a@));
        }
        r
    }
}


impl AbstractGame for MKBSC {
    type Loc = Vec<Loc>;
    type Obs = Loc;

    open spec fn inv(&self) -> bool {
        self.wf()
    }

    open spec fn l0_spec(&self) -> Seq<Loc> {
        Seq::new(self.n(), |i: int| Loc(0))
    }

    open spec fn n_actions_spec(&self) -> Seq<usize> {
        self.g.n_actions@
    }

    open spec fn loc_ok(&self, s: Seq<Loc>) -> bool {
        self.state_ok(s)
    }

    open spec fn obs_spec(&self, s: Seq<Loc>) -> Seq<Loc> {
        s
    }

    open spec fn winning_spec(&self, s: Seq<Loc>) -> bool {
        exists|i: int| 0 <= i < self.n() && #[trigger] self.gki@[i].game.loc@[s[i].0 as int].is_winning
    }

    open spec fn succ_spec(&self, s: Seq<Loc>) -> Seq<(Seq<Act>, Seq<Loc>)> {
        self.succ_upto(s, all_profiles(self.g.n_actions@))
    }

    fn l0(&self) -> (r: Vec<Loc>) {
        let mut r: Vec<Loc> = Vec::new();
        let mut i: usize = 0;
        while i < self.gki.len()
            invariant
                self.wf(),
                i <= self.n(),
                r@.len() == i,
                forall|j: int| 0 <= j < i ==> #[trigger] r@[j] == Loc(0),
            decreases self.n() - i,
        {
            proof {
                assert(self.gki@[i as int].wf());
            }
            r.push(Loc(0));
            i = i + 1;
        }
        proof {
            assert(r@ =~= self.l0_spec());
            assert forall|j: int| 0 <= j < self.n() implies (#[trigger] r@[j]).0 < self.gki@[j].game.nloc() by {
                assert(self.gki@[j].wf());
            }
        }
        r
    }

    fn n_actions(&self) -> (r: Vec<usize>) {
        let mut r: Vec<usize> = Vec::new();
        let mut i: usize = 0;
        while i < self.g.n_actions.len()
            invariant
                i <= self.g.n_actions@.len(),
                r@ == self.g.n_actions@.subrange(0, i as int),
            decreases self.g.n_actions@.len() - i,
        {
            r.push(self.g.n_actions[i]);
            i = i + 1;
            assert(r@ =~= self.g.n_actions@.subrange(0, i as int));
        }
        assert(self.g.n_actions@.subrange(0, self.g.n_actions@.len() as int) =~= self.g.n_actions@);
        r
    }

    fn obs(&self, s: &Vec<Loc>) -> (r: Vec<Loc>) {
        let r = copy_locs(s);
        assert(r@.map_values(|o: Loc| o@) =~= s@);
        r
    }

    fn is_winning(&self, s: &Vec<Loc>) -> (r: bool) {
        let mut i: usize = 0;
        while i < s.len()
            invariant
                self.wf(),
                self.state_ok(s@),
                i <= s@.len(),
                forall|j: int| 0 <= j < i ==> !#[trigger] self.gki@[j].game.loc@[s@[j].0 as int].is_winning,
            decreases s@.len() - i,
        {
            if self.gki[i].game.is_winning(s[i]) {
                return true;
            }
            i = i + 1;
        }
        false
    }

    fn succ(&self, s: &Vec<Loc>) -> (r: Vec<(Profile, Vec<Loc>)>) {
        let pre = self.pre_set(s);
        proof {
            assert forall|i: int| 0 <= i < self.g.n_actions@.len() implies #[trigger] self.g.n_actions@[i] <= 65536 by {}
        }
        let profiles = self.g.action_profiles();
        let ghost pv = profiles@.map_values(|p: Profile| p@);
        let mut out: Vec<(Profile, Vec<Loc>)> = Vec::new();
        let mut q: usize = 0;
        while q < profiles.len()
            invariant
                self.wf(),
                self.state_ok(s@),
                pre.wf(),
                pre.cap() == self.g.nloc(),
                pre.bits() == self.pre_locs(s@),
                pv == profiles@.map_values(|p: Profile| p@),
                pv == all_profiles(self.g.n_actions@),
                q <= profiles@.len(),
                mk_view(out@) == self.succ_upto(s@, pv.subrange(0, q as int)),
                forall|k: int| 0 <= k < out@.len() ==> self.state_ok((#[trigger] out@[k]).1@)
                    && valid_profile_for(self.g.n_actions@, out@[k].0@),
            decreases profiles@.len() - q,
        {
            let a = &profiles[q];
            let ghost av = a@;
            proof {
                assert(pv[q as int] == av);
                assert(all_profiles(self.g.n_actions@).contains(av));
                lemma_all_profiles_contains(self.g.n_actions@, av);
                let p1 = pv.subrange(0, q as int + 1);
                assert(p1.drop_last() =~= pv.subrange(0, q as int));
                assert(p1.last() == av);
            }
            let pg = self.post_of(&pre, a);
            proof {
                assert(pg.bits() =~= self.post_g(s@, av));
            }
            let ghost base = mk_view(out@);
            let ghost xs = combos(self.slices(s@, av));
            if pg.is_empty() {
                proof {
                    assert forall|x: Seq<Loc>| !#[trigger] self.keep(s@, av, x) by {
                        if self.keep(s@, av, x) {
                            let l = choose|l: nat| self.post_g(s@, av).contains(l)
                                && forall|i: int| 0 <= i < self.n() ==> #[trigger] self.knowledge_g(i, x[i]).contains(l);
                            assert(pg.bits().contains(l));
                        }
                    }
                    lemma_kept_none(self, s@, av, xs);
                    assert(mk_view(out@) =~= base + self.kept(s@, av, xs));
                }
            } else {
                let sl = self.slices_exec(s, a);
                let cs = combos_exec(&sl);
                proof {
                    assert(loc_lists(cs@) == xs);
                }
                let mut c: usize = 0;
                while c < cs.len()
                    invariant
                        self.wf(),
                        self.state_ok(s@),
                        pg.wf(),
                        pg.cap() == self.g.nloc(),
                        pg.bits() == self.post_g(s@, av),
                        av == a@,
                        valid_profile_for(self.g.n_actions@, av),
                        loc_lists(cs@) == xs,
                        xs == combos(self.slices(s@, av)),
                        c <= cs@.len(),
                        mk_view(out@) == base + self.kept(s@, av, xs.subrange(0, c as int)),
                        forall|k: int| 0 <= k < out@.len() ==> self.state_ok((#[trigger] out@[k]).1@)
                            && valid_profile_for(self.g.n_actions@, out@[k].0@),
                    decreases cs@.len() - c,
                {
                    let ghost x = cs@[c as int]@;
                    proof {
                        assert(xs[c as int] == x);
                        assert(xs.contains(x));
                        lemma_combos_member(self.slices(s@, av), x);
                        assert forall|i: int| 0 <= i < self.n() implies (#[trigger] x[i]).0 < self.gki@[i].game.nloc() by {
                            let gk = self.gki@[i].game;
                            assert(self.gki@[i].wf());
                            let sl_i = self.slices(s@, av)[i];
                            assert(sl_i.contains(x[i]));
                            crate::game::lemma_targets_with_contains(gk.succ(s@[i].0 as int), seq![av[i]], x[i]);
                            let k2 = choose|k2: int| 0 <= k2 < gk.succ(s@[i].0 as int).len() && gk.succ(s@[i].0 as int)[k2] == (seq![av[i]], x[i]);
                            assert(gk.valid_edge(gk.succ(s@[i].0 as int)[k2]));
                        }
                        let x1 = xs.subrange(0, c as int + 1);
                        assert(x1.drop_last() =~= xs.subrange(0, c as int));
                        assert(x1.last() == x);
                    }
                    let ghost before = out@;
                    if self.keeps(&pg, &cs[c]) {
                        let pa = crate::explore::clone_profile(a);
                        let xc = copy_locs(&cs[c]);
                        out.push((pa, xc));
                        proof {
                            assert(mk_view(out@) =~= mk_view(before).push((av, x)));
                        }
                    }
                    c = c + 1;
                }
                proof {
                    assert(xs.subrange(0, cs@.len() as int) =~= xs);
                }
            }
            q = q + 1;
        }
        proof {
            assert(pv.subrange(0, profiles@.len() as int) =~= pv);
        }
        out
    }

    fn loc_eq(&self, a: &Vec<Loc>, b: &Vec<Loc>) -> (r: bool) {
        if a.len() != b.len() {
            return false;
        }
        let mut i: usize = 0;
        while i < a.len()
            invariant
                a@.len() == b@.len(),
                i <= a@.len(),
                forall|j: int| 0 <= j < i ==> a@[j] == b@[j],
            decreases a@.len() - i,
        {
            if a[i] != b[i] {
                return false;
            }
            i = i + 1;
        }
        assert(a@ =~= b@);
        true
    }

    fn obs_eq(&self, a: &Loc, b: &Loc) -> (r: bool) {
        *a == *b
    }

    fn loc_clone(&self, l: &Vec<Loc>) -> (r: Vec<Loc>) {
        copy_locs(l)
    }

    fn obs_clone(&self, o: &Loc) -> (r: Loc) {
        *o
    }
}


impl MKBSC {
    /// Builds the projection of `g` onto each agent and its knowledge game.
    /// Fails when one of these has more than `u32::MAX` reachable
    /// locations.
    pub fn new(g: Game) -> (r: Option<MKBSC>)
        requires
            g.wf(),
        ensures
            match r {
                Some(m) => m.wf() && m.g == g,
                None => exists|i: int| 0 <= i < g.n_agents() && #[trigger] too_big_for(g, i),
            },
    {
        let n = g.n_actions.len();
        let mut proj: Vec<Vec<Loc>> = Vec::new();
        let mut proj_obs: Vec<Vec<Vec<Obs>>> = Vec::new();
        let mut gki: Vec<ConstructedGame<KBSC>> = Vec::new();
        let mut i: usize = 0;
        while i < n
            invariant
                g.wf(),
                n == g.n_agents(),
                i <= n,
                proj@.len() == i,
                proj_obs@.len() == i,
                gki@.len() == i,
                forall|j: int| 0 <= j < i ==> is_expansion(&Project { g: &g, agt: Agt(j as u8) },
                    (#[trigger] gki@[j]).source().g, view_seq(proj@[j]@), obs_rev_view(proj_obs@[j]@)),
                forall|j: int| 0 <= j < i ==> (#[trigger] gki@[j]).wf(),
            decreases n - i,
        {
            let p = Project::new(&g, Agt(i as u8));
            let c = match build_game(p) {
                Some(c) => c,
                None => {
                    proof {
                        assert(too_big_for(g, i as int));
                    }
                    return None;
                },
            };
            let ConstructedGame { game, origin: _, loc_map_reverse, obs_map_reverse } = c;
            let ghost pg = game;
            proof {
                assert(is_expansion(&Project { g: &g, agt: Agt(i as u8) }, pg, view_seq(loc_map_reverse@), obs_rev_view(obs_map_reverse@)));
                assert(pg.n_actions@ =~= seq![g.n_actions@[i as int]]);
            }
            let k = KBSC::new(game);
            let ck = match build_game(k) {
                Some(ck) => ck,
                None => {
                    proof {
                        assert(is_projection(g, i as int, pg));
                        assert(too_big_for(g, i as int));
                    }
                    return None;
                },
            };
            proof {
                assert(ck.source().g == pg);
            }
            proj.push(loc_map_reverse);
            proj_obs.push(obs_map_reverse);
            gki.push(ck);
            proof {
                assert forall|j: int| 0 <= j < i + 1 implies is_expansion(&Project { g: &g, agt: Agt(j as u8) },
                    (#[trigger] gki@[j]).source().g, view_seq(proj@[j]@), obs_rev_view(proj_obs@[j]@)) by {
                }
            }
            i = i + 1;
        }
        Some(MKBSC { g, proj, proj_obs, gki })
    }
}

} // verus!
