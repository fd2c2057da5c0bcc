//! Explicit concurrent games of imperfect information on finite graphs.
//!
//! A game has `n` agents. Each location records its successors (by action
//! profile), its predecessors, whether it is a goal, and for every agent the
//! observation (equivalence class) it belongs to.

use vstd::prelude::*;
use crate::types::{Loc, Obs, Act, Agt};

verus! {

/// An action profile: one action per agent.
pub type Profile = Vec<Act>;

/// The data stored for a single location.
#[derive(Clone, Debug)]
pub struct LocData {
    /// Outgoing transitions, labelled with the action profile taken.
    pub successors: Vec<(Profile, Loc)>,
    /// Incoming transitions, labelled with the action profile taken.
    pub predecessors: Vec<(Profile, Loc)>,
    pub is_winning: bool,
    /// The observation of each agent.
    pub obs: Vec<Obs>,
    /// The position of the location within each agent's observation.
    pub obs_offset: Vec<usize>,
}

/// An explicit game. Location 0 is the initial location.
#[derive(Clone, Debug)]
pub struct Game {
    pub loc: Vec<LocData>,
    /// Number of actions of each agent.
    pub n_actions: Vec<usize>,
    /// For each agent, the locations of each observation.
    pub obs: Vec<Vec<Vec<Loc>>>,
}

/// The spec view of a labelled transition.
pub open spec fn edge_view(e: (Profile, Loc)) -> (Seq<Act>, Loc) {
    (e.0@, e.1)
}

/// The targets of the transitions in `es` labelled `a`, in order.
pub open spec fn targets_with(es: Seq<(Seq<Act>, Loc)>, a: Seq<Act>) -> Seq<Loc>
    decreases es.len(),
{
    if es.len() == 0 {
        Seq::empty()
    } else if es.last().0 == a {
        targets_with(es.drop_last(), a).push(es.last().1)
    } else {
        targets_with(es.drop_last(), a)
    }
}

/// The targets of all transitions in `es`, in order.
pub open spec fn targets(es: Seq<(Seq<Act>, Loc)>) -> Seq<Loc> {
    es.map_values(|e: (Seq<Act>, Loc)| e.1)
}

/// The targets reached with `a` are distinct when the transitions are.
pub proof fn lemma_targets_with_distinct(es: Seq<(Seq<Act>, Loc)>, a: Seq<Act>)
    requires es.no_duplicates(),
    ensures targets_with(es, a).no_duplicates(),
    decreases es.len(),
{
    if es.len() > 0 {
        let d = es.drop_last();
        assert forall|i: int, j: int| 0 <= i < j < d.len() implies d[i] != d[j] by {
            assert(d[i] == es[i] && d[j] == es[j]);
        }
        lemma_targets_with_distinct(d, a);
        if es.last().0 == a {
            lemma_targets_with_contains(d, a, es.last().1);
            if d.contains((a, es.last().1)) {
                let k = choose|k: int| 0 <= k < d.len() && d[k] == (a, es.last().1);
                assert(es[k] == es[es.len() - 1]);
            }
        }
    }
}

pub proof fn lemma_targets_with_contains(es: Seq<(Seq<Act>, Loc)>, a: Seq<Act>, l: Loc)
    ensures targets_with(es, a).contains(l) <==> es.contains((a, l)),
    decreases es.len(),
{
    if es.len() > 0 {
        let d = es.drop_last();
        lemma_targets_with_contains(d, a, l);
        let t = targets_with(d, a);
        assert(es.contains((a, l)) <==> (d.contains((a, l)) || es.last() == (a, l))) by {
            if es.contains((a, l)) {
                let k = choose|k: int| 0 <= k < es.len() && es[k] == (a, l);
                if k < es.len() - 1 {
                    assert(d[k] == (a, l));
                }
            }
            if d.contains((a, l)) {
                let k = choose|k: int| 0 <= k < d.len() && d[k] == (a, l);
                assert(es[k] == (a, l));
            }
        }
        if es.last().0 == a {
            assert(t.push(es.last().1).contains(l) <==> (t.contains(l) || es.last().1 == l)) by {
                if t.push(es.last().1).contains(l) {
                    let k = choose|k: int| 0 <= k < t.len() + 1 && t.push(es.last().1)[k] == l;
                    if k < t.len() {
                        assert(t[k] == l);
                    }
                }
                if t.contains(l) {
                    let k = choose|k: int| 0 <= k < t.len() && t[k] == l;
                    assert(t.push(es.last().1)[k] == l);
                }
                assert(t.push(es.last().1)[t.len() as int] == es.last().1);
            }
        }
    }
}

impl Game {
    pub open spec fn n_agents(&self) -> nat {
        self.n_actions@.len()
    }

    pub open spec fn nloc(&self) -> nat {
        self.loc@.len()
    }

    /// The transitions leaving location `l`.
    pub open spec fn succ(&self, l: int) -> Seq<(Seq<Act>, Loc)> {
        self.loc@[l].successors@.map_values(|e: (Profile, Loc)| edge_view(e))
    }

    /// The transitions entering location `l`.
    pub open spec fn pred(&self, l: int) -> Seq<(Seq<Act>, Loc)> {
        self.loc@[l].predecessors@.map_values(|e: (Profile, Loc)| edge_view(e))
    }

    pub open spec fn obs_of(&self, l: int, i: int) -> Obs {
        self.loc@[l].obs@[i]
    }

    /// The locations of observation `o` of agent `i`.
    pub open spec fn obs_set_spec(&self, i: int, o: int) -> Seq<Loc> {
        self.obs@[i]@[o]@
    }

    pub open spec fn valid_profile(&self, a: Seq<Act>) -> bool {
        &&& a.len() == self.n_agents()
        &&& forall|i: int| 0 <= i < a.len() ==> (#[trigger] a[i]).0 < self.n_actions@[i]
    }

    pub open spec fn valid_edge(&self, e: (Seq<Act>, Loc)) -> bool {
        self.valid_profile(e.0) && (e.1.0 as int) < self.nloc()
    }

    /// There is a transition from `l` to `l2` labelled `a`.
    pub open spec fn has_edge(&self, l: int, a: Seq<Act>, l2: Loc) -> bool {
        self.succ(l).contains((a, l2))
    }

    /// The successors of `l` under profile `a`, in stored order.
    pub open spec fn post_spec(&self, l: int, a: Seq<Act>) -> Seq<Loc> {
        targets_with(self.succ(l), a)
    }

    /// The predecessors of `l` under profile `a`, in stored order.
    pub open spec fn pre_spec(&self, l: int, a: Seq<Act>) -> Seq<Loc> {
        targets_with(self.pred(l), a)
    }

    pub open spec fn wf_sizes(&self) -> bool {
        &&& 1 <= self.n_agents() <= 256
        &&& self.obs@.len() == self.n_agents()
        &&& forall|i: int| 0 <= i < self.n_agents() ==> #[trigger] self.n_actions@[i] <= 65536
        &&& 1 <= self.nloc() <= u32::MAX
        &&& forall|i: int| 0 <= i < self.n_agents() ==> (#[trigger] self.obs@[i]).len() <= u32::MAX
    }

    pub open spec fn wf_loc_obs(&self) -> bool {
        forall|l: int| 0 <= l < self.nloc() ==> {
            &&& (#[trigger] self.loc@[l]).obs@.len() == self.n_agents()
            &&& self.loc@[l].obs_offset@.len() == self.n_agents()
            &&& forall|i: int| 0 <= i < self.n_agents() ==> {
                &&& (#[trigger] self.loc@[l].obs@[i]).0 < self.obs@[i].len()
                &&& self.loc@[l].obs_offset@[i] < self.obs_set_spec(i, self.loc@[l].obs@[i].0 as int).len()
                &&& self.obs_set_spec(i, self.loc@[l].obs@[i].0 as int)[self.loc@[l].obs_offset@[i] as int]
                    == Loc(l as u32)
            }
        }
    }

    pub open spec fn wf_obs_sets(&self) -> bool {
        forall|i: int, o: int, k: int|
            0 <= i < self.n_agents() && 0 <= o < self.obs@[i].len() && 0 <= k < self.obs_set_spec(i, o).len()
            ==> {
                let l = #[trigger] self.obs_set_spec(i, o)[k];
                &&& (l.0 as int) < self.nloc()
                &&& self.loc@[l.0 as int].obs@[i].0 == o
                &&& self.loc@[l.0 as int].obs_offset@[i] == k
            }
    }

    pub open spec fn wf_nonempty_obs(&self) -> bool {
        forall|i: int, o: int| 0 <= i < self.n_agents() && 0 <= o < self.obs@[i].len()
            ==> #[trigger] self.obs_set_spec(i, o).len() > 0
    }

    pub open spec fn wf_edges(&self) -> bool {
        &&& forall|l: int, k: int| 0 <= l < self.nloc() && 0 <= k < self.succ(l).len()
            ==> self.valid_edge(#[trigger] self.succ(l)[k])
        &&& forall|l: int, k: int| 0 <= l < self.nloc() && 0 <= k < self.pred(l).len()
            ==> self.valid_edge(#[trigger] self.pred(l)[k])
        &&& forall|l: int, l2: int, a: Seq<Act>| 0 <= l < self.nloc() && 0 <= l2 < self.nloc() ==>
            (#[trigger] self.succ(l).contains((a, Loc(l2 as u32)))
                <==> #[trigger] self.pred(l2).contains((a, Loc(l as u32))))
    }

    /// The game is well formed: sizes fit their index types, observations
    /// partition the locations, and the transitions are valid and recorded
    /// consistently at both of their ends.
    pub open spec fn wf(&self) -> bool {
        &&& self.wf_sizes()
        &&& self.wf_loc_obs()
        &&& self.wf_obs_sets()
        &&& self.wf_nonempty_obs()
        &&& self.wf_edges()
    }

    pub fn n_loc(&self) -> (r: usize)
        ensures r == self.nloc(),
    {
        self.loc.len()
    }

    /// Number of observations of agent `agt`.
    pub fn n_obs(&self, agt: Agt) -> (r: usize)
        requires (agt.0 as int) < self.obs@.len(),
        ensures r == self.obs@[agt.0 as int].len(),
    {
        self.obs[agt.index()].len()
    }

    /// The observation of each agent at `l`.
    pub fn observe(&self, l: Loc) -> (r: Vec<Obs>)
        requires (l.0 as int) < self.nloc(),
        ensures r@ == self.loc@[l.0 as int].obs@,
    {
        self.loc[l.index()].obs.clone()
    }

    /// The position of `l` within the observation of each agent.
    pub fn obs_offset(&self, l: Loc) -> (r: Vec<usize>)
        requires (l.0 as int) < self.nloc(),
        ensures r@ == self.loc@[l.0 as int].obs_offset@,
    {
        self.loc[l.index()].obs_offset.clone()
    }

    pub fn is_winning(&self, l: Loc) -> (r: bool)
        requires (l.0 as int) < self.nloc(),
        ensures r == self.loc@[l.0 as int].is_winning,
    {
        self.loc[l.index()].is_winning
    }

    /// The locations that agent `agt` cannot tell apart under observation `o`.
    pub fn obs_set(&self, agt: Agt, o: Obs) -> (r: &Vec<Loc>)
        requires
            (agt.0 as int) < self.obs@.len(),
            (o.0 as int) < self.obs@[agt.0 as int].len(),
        ensures r@ == self.obs_set_spec(agt.0 as int, o.0 as int),
    {
        &self.obs[agt.index()][o.index()]
    }

    /// The transitions leaving `l`.
    pub fn successors(&self, l: Loc) -> (r: &Vec<(Profile, Loc)>)
        requires (l.0 as int) < self.nloc(),
        ensures r@.map_values(|e: (Profile, Loc)| edge_view(e)) == self.succ(l.0 as int),
    {
        &self.loc[l.index()].successors
    }

    /// The transitions entering `l`.
    pub fn predecessors(&self, l: Loc) -> (r: &Vec<(Profile, Loc)>)
        requires (l.0 as int) < self.nloc(),
        ensures r@.map_values(|e: (Profile, Loc)| edge_view(e)) == self.pred(l.0 as int),
    {
        &self.loc[l.index()].predecessors
    }

    /// The initial location.
    pub fn l0(&self) -> (r: Loc)
        ensures r == Loc(0),
    {
        Loc(0)
    }

    /// The observation of each agent at the initial location.
    pub fn obs0(&self) -> (r: Vec<Obs>)
        requires self.nloc() > 0,
        ensures r@ == self.loc@[0].obs@,
    {
        self.observe(self.l0())
    }
}

/// Compares two action profiles.
pub fn profile_eq(a: &Profile, b: &Profile) -> (r: bool)
    ensures r == (a@ == b@),
{
    if a.len() != b.len() {
        return false;
    }
    let mut i: usize = 0;
    while i < a.len()
        invariant
            a@.len() == b@.len(),
            i <= a@.len(),
            forall|j: int| 0 <= j < i ==> a@[j] == b@[j],
        decreases a@.len() - i,
    {
        if a[i] != b[i] {
            return false;
        }
        i = i + 1;
    }
    assert(a@ =~= b@);
    true
}

/// The targets of the transitions in `es` labelled `a`, in order.
pub fn filter_targets(es: &Vec<(Profile, Loc)>, a: &Profile) -> (r: Vec<Loc>)
    ensures r@ == targets_with(es@.map_values(|e: (Profile, Loc)| edge_view(e)), a@),
{
    let ghost ev = es@.map_values(|e: (Profile, Loc)| edge_view(e));
    let mut r: Vec<Loc> = Vec::new();
    let mut i: usize = 0;
    while i < es.len()
        invariant
            i <= es@.len(),
            ev == es@.map_values(|e: (Profile, Loc)| edge_view(e)),
            r@ == targets_with(ev.subrange(0, i as int), a@),
        decreases es@.len() - i,
    {
        assert(ev.subrange(0, i + 1).drop_last() =~= ev.subrange(0, i as int));
        if profile_eq(&es[i].0, a) {
            r.push(es[i].1);
        }
        i = i + 1;
    }
    assert(ev.subrange(0, es@.len() as int) =~= ev);
    r
}

impl Game {
    /// The locations reached from `l` with profile `a`.
    pub fn post(&self, l: Loc, a: &Profile) -> (r: Vec<Loc>)
        requires (l.0 as int) < self.nloc(),
        ensures r@ == self.post_spec(l.0 as int, a@),
    {
        filter_targets(&self.loc[l.index()].successors, a)
    }

    /// The locations from which `l` is reached with profile `a`.
    pub fn pre(&self, l: Loc, a: &Profile) -> (r: Vec<Loc>)
        requires (l.0 as int) < self.nloc(),
        ensures r@ == self.pre_spec(l.0 as int, a@),
    {
        filter_targets(&self.loc[l.index()].predecessors, a)
    }
}

/// Concatenation of `f(s[0]), f(s[1]), ...`.
pub open spec fn concat_map(s: Seq<Loc>, f: spec_fn(Loc) -> Seq<Loc>) -> Seq<Loc>
    decreases s.len(),
{
    if s.len() == 0 {
        Seq::empty()
    } else {
        concat_map(s.drop_last(), f) + f(s.last())
    }
}

pub proof fn lemma_concat_map_contains(s: Seq<Loc>, f: spec_fn(Loc) -> Seq<Loc>, x: Loc)
    ensures concat_map(s, f).contains(x) <==> exists|k: int| 0 <= k < s.len() && #[trigger] f(s[k]).contains(x),
    decreases s.len(),
{
    if s.len() > 0 {
        let d = s.drop_last();
        lemma_concat_map_contains(d, f, x);
        let c = concat_map(d, f);
        let t = f(s.last());
        assert((c + t).contains(x) <==> (c.contains(x) || t.contains(x))) by {
            if (c + t).contains(x) {
                let j = choose|j: int| 0 <= j < (c + t).len() && (c + t)[j] == x;
                if j < c.len() {
                    assert(c[j] == x);
                } else {
                    assert(t[j - c.len()] == x);
                }
            }
            if c.contains(x) {
                let j = choose|j: int| 0 <= j < c.len() && c[j] == x;
                assert((c + t)[j] == x);
            }
            if t.contains(x) {
                let j = choose|j: int| 0 <= j < t.len() && t[j] == x;
                assert((c + t)[j + c.len()] == x);
            }
        }
        if exists|k: int| 0 <= k < s.len() && #[trigger] f(s[k]).contains(x) {
            let k = choose|k: int| 0 <= k < s.len() && #[trigger] f(s[k]).contains(x);
            if k < s.len() - 1 {
                assert(f(d[k]).contains(x));
            }
        }
        if exists|k: int| 0 <= k < d.len() && #[trigger] f(d[k]).contains(x) {
            let k = choose|k: int| 0 <= k < d.len() && #[trigger] f(d[k]).contains(x);
            assert(f(s[k]).contains(x));
        }
    }
}

impl Game {
    /// The successors of the locations in `s` under profile `a`, location
    /// by location.
    pub open spec fn post_set_spec(&self, s: Seq<Loc>, a: Seq<Act>) -> Seq<Loc> {
        concat_map(s, |l: Loc| self.post_spec(l.0 as int, a))
    }

    /// The predecessors of the locations in `s` under profile `a`, location
    /// by location.
    pub open spec fn pre_set_spec(&self, s: Seq<Loc>, a: Seq<Act>) -> Seq<Loc> {
        concat_map(s, |l: Loc| self.pre_spec(l.0 as int, a))
    }

    pub fn post_set(&self, s: &Vec<Loc>, a: &Profile) -> (r: Vec<Loc>)
        requires forall|k: int| 0 <= k < s@.len() ==> (#[trigger] s@[k]).0 < self.nloc(),
        ensures r@ == self.post_set_spec(s@, a@),
    {
        let mut r: Vec<Loc> = Vec::new();
        let mut i: usize = 0;
        while i < s.len()
            invariant
                i <= s@.len(),
                forall|k: int| 0 <= k < s@.len() ==> (#[trigger] s@[k]).0 < self.nloc(),
                r@ == self.post_set_spec(s@.subrange(0, i as int), a@),
            decreases s@.len() - i,
        {
            assert(s@.subrange(0, i + 1).drop_last() =~= s@.subrange(0, i as int));
            let mut p = self.post(s[i], a);
            r.append(&mut p);
            i = i + 1;
        }
        assert(s@.subrange(0, s@.len() as int) =~= s@);
        r
    }

    pub fn pre_set(&self, s: &Vec<Loc>, a: &Profile) -> (r: Vec<Loc>)
        requires forall|k: int| 0 <= k < s@.len() ==> (#[trigger] s@[k]).0 < self.nloc(),
        ensures r@ == self.pre_set_spec(s@, a@),
    {
        let mut r: Vec<Loc> = Vec::new();
        let mut i: usize = 0;
        while i < s.len()
            invariant
                i <= s@.len(),
                forall|k: int| 0 <= k < s@.len() ==> (#[trigger] s@[k]).0 < self.nloc(),
                r@ == self.pre_set_spec(s@.subrange(0, i as int), a@),
            decreases s@.len() - i,
        {
            assert(s@.subrange(0, i + 1).drop_last() =~= s@.subrange(0, i as int));
            let mut p = self.pre(s[i], a);
            r.append(&mut p);
            i = i + 1;
        }
        assert(s@.subrange(0, s@.len() as int) =~= s@);
        r
    }

    /// Everything in `pre_set` and `post_set` is a location of the game.
    pub proof fn lemma_sets_valid(&self, s: Seq<Loc>, a: Seq<Act>, x: Loc)
        requires
            self.wf(),
            forall|k: int| 0 <= k < s.len() ==> (#[trigger] s[k]).0 < self.nloc(),
        ensures
            self.pre_set_spec(s, a).contains(x) ==> (x.0 as int) < self.nloc(),
            self.post_set_spec(s, a).contains(x) ==> (x.0 as int) < self.nloc(),
    {
        let f = |y: Loc| self.pre_spec(y.0 as int, a);
        let h = |y: Loc| self.post_spec(y.0 as int, a);
        lemma_concat_map_contains(s, f, x);
        lemma_concat_map_contains(s, h, x);
        if self.pre_set_spec(s, a).contains(x) {
            let k = choose|k: int| 0 <= k < s.len() && #[trigger] f(s[k]).contains(x);
            lemma_targets_with_contains(self.pred(s[k].0 as int), a, x);
            let q = choose|q: int| 0 <= q < self.pred(s[k].0 as int).len() && self.pred(s[k].0 as int)[q] == (a, x);
            assert(self.valid_edge(self.pred(s[k].0 as int)[q]));
        }
        if self.post_set_spec(s, a).contains(x) {
            let k = choose|k: int| 0 <= k < s.len() && #[trigger] h(s[k]).contains(x);
            lemma_targets_with_contains(self.succ(s[k].0 as int), a, x);
            let q = choose|q: int| 0 <= q < self.succ(s[k].0 as int).len() && self.succ(s[k].0 as int)[q] == (a, x);
            assert(self.valid_edge(self.succ(s[k].0 as int)[q]));
        }
    }

    /// Membership in `pre_set`: `l` has an `a`-transition into `s`.
    pub proof fn lemma_pre_set_contains(&self, s: Seq<Loc>, a: Seq<Act>, l: Loc)
        requires
            self.wf(),
            forall|k: int| 0 <= k < s.len() ==> (#[trigger] s[k]).0 < self.nloc(),
            (l.0 as int) < self.nloc(),
        ensures
            self.pre_set_spec(s, a).contains(l)
                <==> exists|k: int| 0 <= k < s.len() && #[trigger] self.has_edge(l.0 as int, a, s[k]),
    {
        let f = |x: Loc| self.pre_spec(x.0 as int, a);
        lemma_concat_map_contains(s, f, l);
        assert forall|k: int| 0 <= k < s.len() implies
            (#[trigger] f(s[k]).contains(l) <==> self.has_edge(l.0 as int, a, s[k])) by {
            lemma_targets_with_contains(self.pred(s[k].0 as int), a, l);
            assert(Loc(l.0 as int as u32) == l);
            assert(Loc(s[k].0 as int as u32) == s[k]);
        }
        if self.pre_set_spec(s, a).contains(l) {
            let k = choose|k: int| 0 <= k < s.len() && #[trigger] f(s[k]).contains(l);
            assert(self.has_edge(l.0 as int, a, s[k]));
        }
        if exists|k: int| 0 <= k < s.len() && #[trigger] self.has_edge(l.0 as int, a, s[k]) {
            let k = choose|k: int| 0 <= k < s.len() && #[trigger] self.has_edge(l.0 as int, a, s[k]);
            assert(f(s[k]).contains(l));
        }
    }
}


impl Game {
    /// Membership in `post_set`: an `a`-transition leads from `s` to `l`.
    pub proof fn lemma_post_set_contains(&self, s: Seq<Loc>, a: Seq<Act>, l: Loc)
        requires
            forall|k: int| 0 <= k < s.len() ==> (#[trigger] s[k]).0 < self.nloc(),
        ensures
            self.post_set_spec(s, a).contains(l)
                <==> exists|k: int| 0 <= k < s.len() && #[trigger] self.has_edge(s[k].0 as int, a, l),
    {
        let f = |x: Loc| self.post_spec(x.0 as int, a);
        lemma_concat_map_contains(s, f, l);
        assert forall|k: int| 0 <= k < s.len() implies
            (#[trigger] f(s[k]).contains(l) <==> self.has_edge(s[k].0 as int, a, l)) by {
            lemma_targets_with_contains(self.succ(s[k].0 as int), a, l);
        }
        if self.post_set_spec(s, a).contains(l) {
            let k = choose|k: int| 0 <= k < s.len() && #[trigger] f(s[k]).contains(l);
            assert(self.has_edge(s[k].0 as int, a, l));
        }
        if exists|k: int| 0 <= k < s.len() && #[trigger] self.has_edge(s[k].0 as int, a, l) {
            let k = choose|k: int| 0 <= k < s.len() && #[trigger] self.has_edge(s[k].0 as int, a, l);
            assert(f(s[k]).contains(l));
        }
    }

    /// The members of an observation are exactly the locations with that
    /// observation.
    pub proof fn lemma_obs_set_members(&self, i: int, o: int, l: Loc)
        requires
            self.wf(),
            0 <= i < self.n_agents(),
            0 <= o < self.obs@[i].len(),
        ensures
            self.obs_set_spec(i, o).contains(l)
                <==> ((l.0 as int) < self.nloc() && self.loc@[l.0 as int].obs@[i].0 == o),
    {
        if self.obs_set_spec(i, o).contains(l) {
            let k = choose|k: int| 0 <= k < self.obs_set_spec(i, o).len() && self.obs_set_spec(i, o)[k] == l;
            assert(self.obs_set_spec(i, o)[k] == l);
        }
        if (l.0 as int) < self.nloc() && self.loc@[l.0 as int].obs@[i].0 == o {
            let li = l.0 as int;
            assert(self.loc@[li].obs@[i].0 < self.obs@[i].len());
            let k = self.loc@[li].obs_offset@[i] as int;
            assert(self.obs_set_spec(i, o)[k] == Loc(li as u32));
            assert(Loc(li as u32) == l);
        }
    }
}

} // verus!
