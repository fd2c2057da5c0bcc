//! Abstract games, given by their initial location and successor function,
//! and their expansion into explicit games.

use vstd::prelude::*;
use crate::types::{Loc, Obs, Act, Agt};
use crate::game::{Game, LocData, Profile, edge_view};
use crate::order::{sorted_edges, insert_sorted, edge_lt};

verus! {

/// A game given implicitly: an initial location, observations, goals and
/// a successor function over locations of any type.
pub trait AbstractGame: Sized {
    type Loc: View;
    type Obs: View;

    /// The game is in a usable state.
    spec fn inv(&self) -> bool;
    spec fn l0_spec(&self) -> <Self::Loc as View>::V;
    spec fn n_actions_spec(&self) -> Seq<usize>;
    /// `l` is a location the game can be asked about.
    spec fn loc_ok(&self, l: <Self::Loc as View>::V) -> bool;
    spec fn obs_spec(&self, l: <Self::Loc as View>::V) -> Seq<<Self::Obs as View>::V>;
    spec fn winning_spec(&self, l: <Self::Loc as View>::V) -> bool;
    spec fn succ_spec(&self, l: <Self::Loc as View>::V) -> Seq<(Seq<Act>, <Self::Loc as View>::V)>;

    fn l0(&self) -> (r: Self::Loc)
        requires self.inv(),
        ensures r@ == self.l0_spec(), self.loc_ok(r@);

    fn n_actions(&self) -> (r: Vec<usize>)
        requires self.inv(),
        ensures
            r@ == self.n_actions_spec(),
            1 <= r@.len() <= 256,
            forall|i: int| 0 <= i < r@.len() ==> #[trigger] r@[i] <= 65536;

    fn obs(&self, l: &Self::Loc) -> (r: Vec<Self::Obs>)
        requires self.inv(), self.loc_ok(l@),
        ensures
            r@.map_values(|o: Self::Obs| o@) == self.obs_spec(l@),
            r@.len() == self.n_actions_spec().len();

    fn is_winning(&self, l: &Self::Loc) -> (r: bool)
        requires self.inv(), self.loc_ok(l@),
        ensures r == self.winning_spec(l@);

    fn succ(&self, l: &Self::Loc) -> (r: Vec<(Profile, Self::Loc)>)
        requires self.inv(), self.loc_ok(l@),
        ensures
            r@.map_values(|e: (Profile, Self::Loc)| (e.0@, e.1@)) == self.succ_spec(l@),
            forall|k: int| 0 <= k < r@.len() ==> self.loc_ok((#[trigger] r@[k]).1@)
                && valid_profile_for(self.n_actions_spec(), r@[k].0@);

    fn loc_eq(&self, a: &Self::Loc, b: &Self::Loc) -> (r: bool)
        ensures r == (a@ == b@);

    fn obs_eq(&self, a: &Self::Obs, b: &Self::Obs) -> (r: bool)
        ensures r == (a@ == b@);

    fn loc_clone(&self, l: &Self::Loc) -> (r: Self::Loc)
        ensures r@ == l@;

    fn obs_clone(&self, o: &Self::Obs) -> (r: Self::Obs)
        ensures r@ == o@;
}

/// `a` is an action profile for agents with `ns[i]` actions.
pub open spec fn valid_profile_for(ns: Seq<usize>, a: Seq<Act>) -> bool {
    &&& a.len() == ns.len()
    &&& forall|i: int| 0 <= i < a.len() ==> (#[trigger] a[i]).0 < ns[i]
}

/// Both transition lists of every location are strictly increasing.
pub open spec fn edges_sorted(r: Game) -> bool {
    forall|l: int| 0 <= l < r.nloc() ==> sorted_edges(#[trigger] r.succ(l)) && sorted_edges(r.pred(l))
}

/// The transitions of `l` as a set.
pub open spec fn succ_set(r: Game, l: int) -> Set<(Seq<Act>, Loc)> {
    r.succ(l).to_set()
}

/// The game is well formed, except that it may have no location yet.
pub open spec fn pre_wf(r: Game) -> bool {
    &&& 1 <= r.n_agents() <= 256
    &&& r.obs@.len() == r.n_agents()
    &&& forall|i: int| 0 <= i < r.n_agents() ==> #[trigger] r.n_actions@[i] <= 65536
    &&& r.nloc() <= u32::MAX
    &&& forall|i: int| 0 <= i < r.n_agents() ==> (#[trigger] r.obs@[i]).len() <= u32::MAX
    &&& r.wf_loc_obs()
    &&& r.wf_obs_sets()
    &&& r.wf_nonempty_obs()
    &&& r.wf_edges()
}

/// The observation tables of `r` record the observations of the abstract
/// game at the origins `orig` of its locations; `obs_rev[t][o]` is the
/// abstract observation of agent `t` that `o` stands for.
pub open spec fn obs_ok<G: AbstractGame>(
    g: &G,
    r: Game,
    orig: Seq<<G::Loc as View>::V>,
    obs_rev: Seq<Seq<<G::Obs as View>::V>>,
) -> bool {
    &&& orig.len() == r.nloc()
    &&& obs_rev.len() == r.n_agents()
    &&& forall|t: int| 0 <= t < r.n_agents() ==> (#[trigger] obs_rev[t]).len() == r.obs@[t].len()
        && obs_rev[t].no_duplicates()
    &&& forall|j: int, t: int| 0 <= j < r.nloc() && 0 <= t < r.n_agents()
        ==> obs_rev[t][(#[trigger] r.loc@[j].obs@[t]).0 as int] == g.obs_spec(orig[j])[t]
    &&& forall|j: int| 0 <= j < r.nloc() ==> g.obs_spec(orig[j]).len() == r.n_agents()
}

pub open spec fn view_seq<T: View>(v: Seq<T>) -> Seq<T::V> {
    v.map_values(|x: T| x@)
}

/// The position of an observation equal to `o` in `list`, if any.
fn find_obs<G: AbstractGame>(g: &G, list: &Vec<G::Obs>, o: &G::Obs) -> (r: Option<usize>)
    ensures
        match r {
            Some(k) => k < list@.len() && list@[k as int]@ == o@,
            None => !view_seq(list@).contains(o@),
        },
{
    let mut k: usize = 0;
    while k < list.len()
        invariant
            k <= list@.len(),
            forall|j: int| 0 <= j < k ==> list@[j]@ != o@,
        decreases list@.len() - k,
    {
        if g.obs_eq(&list[k], o) {
            return Some(k);
        }
        k = k + 1;
    }
    proof {
        if view_seq(list@).contains(o@) {
            let j = choose|j: int| 0 <= j < view_seq(list@).len() && view_seq(list@)[j] == o@;
            assert(list@[j]@ == o@);
        }
    }
    None
}

/// The position of a location equal to `l` in `list`, if any.
fn find_loc<G: AbstractGame>(g: &G, list: &Vec<G::Loc>, l: &G::Loc) -> (r: Option<usize>)
    ensures
        match r {
            Some(k) => k < list@.len() && list@[k as int]@ == l@,
            None => !view_seq(list@).contains(l@),
        },
{
    let mut k: usize = 0;
    while k < list.len()
        invariant
            k <= list@.len(),
            forall|j: int| 0 <= j < k ==> list@[j]@ != l@,
        decreases list@.len() - k,
    {
        if g.loc_eq(&list[k], l) {
            return Some(k);
        }
        k = k + 1;
    }
    proof {
        if view_seq(list@).contains(l@) {
            let j = choose|j: int| 0 <= j < view_seq(list@).len() && view_seq(list@)[j] == l@;
            assert(list@[j]@ == l@);
        }
    }
    None
}

/// Agent `t`'s observation table of `r` is that of `r0` with location `n`
/// added to observation `idx` at position `off`, a new observation if
/// `idx` is the old number of observations; `rev` extends `rev0`
/// accordingly, `ov` being the abstract observation.
pub open spec fn agent_updated<V>(
    r0: Game, r: Game, rev0: Seq<V>, rev: Seq<V>, t: int, idx: int, off: int, n: int, ov: V,
) -> bool {
    let old_len = r0.obs@[t].len();
    &&& 0 <= idx < r.obs@[t].len()
    &&& rev.len() == r.obs@[t].len()
    &&& rev[idx] == ov
    &&& rev.no_duplicates()
    &&& forall|o: int| 0 <= o < old_len && o != idx ==> #[trigger] r.obs_set_spec(t, o) == r0.obs_set_spec(t, o)
    &&& forall|o: int| 0 <= o < old_len ==> #[trigger] rev[o] == rev0[o]
    &&& if idx < old_len {
        &&& r.obs@[t].len() == old_len
        &&& r.obs_set_spec(t, idx) == r0.obs_set_spec(t, idx).push(Loc(n as u32))
        &&& off == r0.obs_set_spec(t, idx).len()
    } else {
        &&& idx == old_len
        &&& r.obs@[t].len() == old_len + 1
        &&& r.obs_set_spec(t, idx) == seq![Loc(n as u32)]
        &&& off == 0
    }
}

/// Records that the new location `n` has abstract observation `o` for
/// agent `t`; returns its observation and its position there.
fn record_obs<G: AbstractGame>(
    g: &G,
    r: &mut Game,
    obs_rev: &mut Vec<Vec<G::Obs>>,
    t: usize,
    o: &G::Obs,
    n: usize,
) -> (res: (Obs, usize))
    requires
        t < old(r).obs@.len(),
        old(obs_rev)@.len() == old(r).obs@.len(),
        view_seq(old(obs_rev)@[t as int]@).no_duplicates(),
        old(obs_rev)@[t as int]@.len() == old(r).obs@[t as int].len(),
        old(r).obs@[t as int].len() <= n < u32::MAX,
    ensures
        final(r).loc == old(r).loc,
        final(r).n_actions == old(r).n_actions,
        final(r).obs@.len() == old(r).obs@.len(),
        final(obs_rev)@.len() == old(obs_rev)@.len(),
        forall|u: int| 0 <= u < old(r).obs@.len() && u != t ==> #[trigger] final(r).obs@[u] == old(r).obs@[u]
            && final(obs_rev)@[u] == old(obs_rev)@[u],
        agent_updated(*old(r), *final(r), view_seq(old(obs_rev)@[t as int]@), view_seq(final(obs_rev)@[t as int]@),
            t as int, res.0.0 as int, res.1 as int, n as int, o@),
{
    let ghost r0 = *r;
    let ghost rev0 = view_seq(obs_rev@[t as int]@);
    let idx = match find_obs(g, &obs_rev[t], o) {
        Some(k) => k,
        None => {
            let k = r.obs[t].len();
            r.obs[t].push(Vec::new());
            let oc = g.obs_clone(o);
            obs_rev[t].push(oc);
            proof {
                let rev1 = view_seq(obs_rev@[t as int]@);
                assert(rev1 =~= rev0.push(o@));
                assert(rev1.no_duplicates()) by {
                    assert forall|i: int, j: int| 0 <= i < j < rev1.len() implies rev1[i] != rev1[j] by {
                        if j == rev1.len() - 1 {
                            assert(rev0.contains(rev1[i])) by { assert(rev0[i] == rev1[i]); }
                        }
                    }
                }
            }
            k
        },
    };
    let off = r.obs[t][idx].len();
    r.obs[t][idx].push(Loc(n as u32));
    proof {
        let rev = view_seq(obs_rev@[t as int]@);
        assert(rev[idx as int] == o@);
        assert forall|o2: int| 0 <= o2 < r0.obs@[t as int].len() implies #[trigger] rev[o2] == rev0[o2] by {}
        assert forall|o2: int| 0 <= o2 < r0.obs@[t as int].len() && o2 != idx implies
            #[trigger] r.obs_set_spec(t as int, o2) == r0.obs_set_spec(t as int, o2) by {}
        if idx < r0.obs@[t as int].len() {
            assert(r.obs_set_spec(t as int, idx as int) =~= r0.obs_set_spec(t as int, idx as int).push(Loc(n as u32)));
        } else {
            assert(r.obs_set_spec(t as int, idx as int) =~= seq![Loc(n as u32)]);
        }
    }
    (Obs(idx as u32), off)
}

proof fn lemma_to_set_contains<A>(s: Seq<A>, x: A)
    ensures s.to_set().contains(x) <==> s.contains(x),
{
}

/// Membership in the set of a sequence is membership in the sequence.
pub proof fn lemma_to_set_contains_pub<A>(s: Seq<A>, x: A)
    ensures s.to_set().contains(x) <==> s.contains(x),
{
}

/// Adds the transition `l --a--> l2`, unless present.
fn add_edge(r: &mut Game, l: Loc, a: &Profile, l2: Loc)
    requires
        old(r).wf(),
        edges_sorted(*old(r)),
        (l.0 as int) < old(r).nloc(),
        (l2.0 as int) < old(r).nloc(),
        old(r).valid_profile(a@),
    ensures
        final(r).wf(),
        edges_sorted(*final(r)),
        final(r).n_actions == old(r).n_actions,
        final(r).obs == old(r).obs,
        final(r).nloc() == old(r).nloc(),
        forall|j: int| 0 <= j < final(r).nloc() ==> {
            &&& (#[trigger] final(r).loc@[j]).is_winning == old(r).loc@[j].is_winning
            &&& final(r).loc@[j].obs == old(r).loc@[j].obs
            &&& final(r).loc@[j].obs_offset == old(r).loc@[j].obs_offset
        },
        succ_set(*final(r), l.0 as int) == succ_set(*old(r), l.0 as int).insert((a@, l2)),
        forall|j: int| 0 <= j < final(r).nloc() && j != l.0 ==> #[trigger] final(r).succ(j) == old(r).succ(j),
{
    let ghost r0 = *r;
    let ghost li = l.0 as int;
    let ghost l2i = l2.0 as int;
    let mut succ = Vec::new();
    std::mem::swap(&mut succ, &mut r.loc[l.index()].successors);
    assert(succ@ == r0.loc@[li].successors@);
    assert(succ@.map_values(|e: (Profile, Loc)| edge_view(e)) == r0.succ(li));
    let a1 = crate::explore::clone_profile(a);
    let inserted = insert_sorted(&mut succ, (a1, l2));
    std::mem::swap(&mut succ, &mut r.loc[l.index()].successors);
    let ghost r1 = *r;
    assert(r1.loc@ == r0.loc@.update(li, LocData { successors: r1.loc@[li].successors, ..r0.loc@[li] }));
    if inserted {
        let mut pred = Vec::new();
        std::mem::swap(&mut pred, &mut r.loc[l2.index()].predecessors);
        assert(pred@ == r1.loc@[l2i].predecessors@);
        assert(sorted_edges(r0.succ(l2i)));
        assert(pred@.map_values(|e: (Profile, Loc)| edge_view(e)) == r0.pred(l2i));
        let a2 = crate::explore::clone_profile(a);
        let _ = insert_sorted(&mut pred, (a2, l));
        std::mem::swap(&mut pred, &mut r.loc[l2.index()].predecessors);
    }
    proof {
        let rf = *r;
        let e = (a@, l2);
        let pe = (a@, l);
        assert(rf.n_actions == r0.n_actions && rf.obs == r0.obs && rf.nloc() == r0.nloc());
        assert forall|j: int| 0 <= j < rf.nloc() implies {
            &&& (#[trigger] rf.loc@[j]).is_winning == r0.loc@[j].is_winning
            &&& rf.loc@[j].obs == r0.loc@[j].obs
            &&& rf.loc@[j].obs_offset == r0.loc@[j].obs_offset
        } by {}
        assert(rf.succ(li).to_set() == r0.succ(li).to_set().insert(e));
        assert forall|j: int| 0 <= j < rf.nloc() && j != li implies #[trigger] rf.succ(j) == r0.succ(j) by {}
        assert forall|j: int| 0 <= j < rf.nloc() && j != l2i implies #[trigger] rf.pred(j) == r0.pred(j) by {}
        if inserted {
            assert(rf.pred(l2i).to_set() == r0.pred(l2i).to_set().insert(pe));
        } else {
            assert(rf.pred(l2i) == r0.pred(l2i));
            lemma_to_set_contains(r0.succ(li), e);
            assert(r0.succ(li).contains(e));
        }
        // succ and pred stay consistent
        assert forall|x: int, y: int, b: Seq<Act>| 0 <= x < rf.nloc() && 0 <= y < rf.nloc() implies
            (#[trigger] rf.succ(x).contains((b, Loc(y as u32)))
                <==> #[trigger] rf.pred(y).contains((b, Loc(x as u32)))) by {
            lemma_to_set_contains(rf.succ(x), (b, Loc(y as u32)));
            lemma_to_set_contains(r0.succ(x), (b, Loc(y as u32)));
            lemma_to_set_contains(rf.pred(y), (b, Loc(x as u32)));
            lemma_to_set_contains(r0.pred(y), (b, Loc(x as u32)));
            assert(r0.succ(x).contains((b, Loc(y as u32))) <==> r0.pred(y).contains((b, Loc(x as u32))));
            if x == li && y == l2i && b == a@ {
                assert(Loc(y as u32) == l2 && Loc(x as u32) == l);
                if !inserted {
                    lemma_to_set_contains(r0.pred(y), pe);
                }
            } else {
                if x == li {
                    assert(Loc(y as u32) != l2 || b != a@);
                }
                if y == l2i && inserted {
                    assert(Loc(x as u32) != l || b != a@);
                }
            }
        }
        assert forall|x: int, k: int| 0 <= x < rf.nloc() && 0 <= k < rf.succ(x).len()
            implies rf.valid_edge(#[trigger] rf.succ(x)[k]) by {
            let y = rf.succ(x)[k];
            assert(rf.succ(x).contains(y));
            lemma_to_set_contains(rf.succ(x), y);
            lemma_to_set_contains(r0.succ(x), y);
            if y != e || x != li {
                let k0 = choose|k0: int| 0 <= k0 < r0.succ(x).len() && r0.succ(x)[k0] == y;
                assert(r0.valid_edge(r0.succ(x)[k0]));
            }
        }
        assert forall|x: int, k: int| 0 <= x < rf.nloc() && 0 <= k < rf.pred(x).len()
            implies rf.valid_edge(#[trigger] rf.pred(x)[k]) by {
            let y = rf.pred(x)[k];
            assert(rf.pred(x).contains(y));
            lemma_to_set_contains(rf.pred(x), y);
            lemma_to_set_contains(r0.pred(x), y);
            if y != pe || x != l2i {
                let k0 = choose|k0: int| 0 <= k0 < r0.pred(x).len() && r0.pred(x)[k0] == y;
                assert(r0.valid_edge(r0.pred(x)[k0]));
            }
        }
        assert forall|x: int| 0 <= x < rf.nloc() implies sorted_edges(#[trigger] rf.succ(x)) && sorted_edges(rf.pred(x)) by {
            assert(sorted_edges(r0.succ(x)));
        }
        assert(rf.wf_sizes());
        assert(rf.wf_loc_obs()) by {
            assert forall|x: int| 0 <= x < rf.nloc() implies #[trigger] rf.loc@[x].obs == r0.loc@[x].obs
                && rf.loc@[x].obs_offset == r0.loc@[x].obs_offset by {}
        }
        assert(rf.obs == r0.obs);
        assert(rf.n_actions == r0.n_actions);
        assert(r0.wf_obs_sets() && r0.wf_nonempty_obs());
        assert(rf.wf_obs_sets()) by {
            assert forall|i: int, o: int, k: int|
                0 <= i < rf.n_agents() && 0 <= o < rf.obs@[i].len() && 0 <= k < rf.obs_set_spec(i, o).len()
                implies {
                    let x = #[trigger] rf.obs_set_spec(i, o)[k];
                    &&& (x.0 as int) < rf.nloc()
                    &&& rf.loc@[x.0 as int].obs@[i].0 == o
                    &&& rf.loc@[x.0 as int].obs_offset@[i] == k
                } by {
                assert(rf.obs_set_spec(i, o) == r0.obs_set_spec(i, o));
                let x = r0.obs_set_spec(i, o)[k];
                assert(rf.loc@[x.0 as int].obs == r0.loc@[x.0 as int].obs);
            }
        }
        assert(rf.wf_nonempty_obs()) by {
            assert forall|i: int, o: int| 0 <= i < rf.n_agents() && 0 <= o < rf.obs@[i].len()
                implies #[trigger] rf.obs_set_spec(i, o).len() > 0 by {
                assert(rf.obs_set_spec(i, o) == r0.obs_set_spec(i, o));
            }
        }
        assert(rf.wf_edges());
    }
}


/// The abstract observations named by `obs_rev`, agent by agent.
pub open spec fn obs_rev_view<O: View>(v: Seq<Vec<O>>) -> Seq<Seq<O::V>> {
    v.map_values(|x: Vec<O>| view_seq(x@))
}

/// No agent has more observations than the game has locations.
pub open spec fn obs_bounded(r: Game) -> bool {
    forall|t: int| 0 <= t < r.n_agents() ==> (#[trigger] r.obs@[t]).len() <= r.nloc()
}

/// The locations of every observation are listed in increasing order.
pub open spec fn obs_sets_sorted(r: Game) -> bool {
    forall|t: int, o: int, p: int, q: int|
        0 <= t < r.n_agents() && 0 <= o < r.obs@[t].len() && 0 <= p < q < r.obs_set_spec(t, o).len()
        ==> (#[trigger] r.obs_set_spec(t, o)[p]).0 < (#[trigger] r.obs_set_spec(t, o)[q]).0
}

proof fn lemma_agent_updated_frame<V>(
    r0: Game, r1: Game, r2: Game, rev0: Seq<V>, rev: Seq<V>, t: int, idx: int, off: int, n: int, ov: V,
)
    requires
        agent_updated(r0, r1, rev0, rev, t, idx, off, n, ov),
        r1.obs@[t] == r2.obs@[t],
    ensures
        agent_updated(r0, r2, rev0, rev, t, idx, off, n, ov),
{
    assert forall|o: int| 0 <= o < r1.obs@[t].len() implies
        #[trigger] r2.obs_set_spec(t, o) == r1.obs_set_spec(t, o) by {}
}

proof fn lemma_push_sorted(r0: Game, rf: Game, ld: LocData)
    requires
        edges_sorted(r0),
        rf.loc@ == r0.loc@.push(ld),
        ld.successors@.len() == 0,
        ld.predecessors@.len() == 0,
    ensures
        edges_sorted(rf),
{
    assert forall|l: int| 0 <= l < rf.nloc() implies sorted_edges(#[trigger] rf.succ(l)) by {
        if l < r0.nloc() {
            assert(rf.loc@[l] == r0.loc@[l]);
            assert(sorted_edges(r0.succ(l)));
            assert(rf.succ(l) == r0.succ(l));
        } else {
            assert(rf.loc@[l] == ld);
            assert(rf.succ(l) =~= Seq::empty());
        }
    }
    assert forall|l: int| 0 <= l < rf.nloc() implies sorted_edges(#[trigger] rf.pred(l)) by {
        if l < r0.nloc() {
            assert(rf.loc@[l] == r0.loc@[l]);
            assert(sorted_edges(r0.succ(l)));
            assert(rf.pred(l) == r0.pred(l));
        } else {
            assert(rf.loc@[l] == ld);
            assert(rf.pred(l) =~= Seq::empty());
        }
    }
}

/// The facts about a location just added by `visit`.
proof fn lemma_visit_done<G: AbstractGame>(
    g: &G,
    r0: Game,
    r1: Game,
    rf: Game,
    rev0: Seq<Seq<<G::Obs as View>::V>>,
    revf: Seq<Seq<<G::Obs as View>::V>>,
    orig0: Seq<<G::Loc as View>::V>,
    lv: <G::Loc as View>::V,
    ov: Seq<<G::Obs as View>::V>,
    ld: LocData,
)
    requires
        pre_wf(r0), edges_sorted(r0), obs_bounded(r0), obs_sets_sorted(r0),
        obs_ok(g, r0, orig0, rev0),
        r0.nloc() < u32::MAX,
        r1.loc == r0.loc,
        r1.n_actions == r0.n_actions,
        r1.obs@.len() == r0.obs@.len(),
        rf.loc@ == r1.loc@.push(ld),
        rf.n_actions == r1.n_actions,
        rf.obs == r1.obs,
        revf.len() == rev0.len(),
        ld.successors@.len() == 0,
        ld.predecessors@.len() == 0,
        ld.obs@.len() == r0.n_agents(),
        ld.obs_offset@.len() == r0.n_agents(),
        ov == g.obs_spec(lv),
        ov.len() == r0.n_agents(),
        forall|t: int| 0 <= t < r0.n_agents() ==> #[trigger] agent_updated(r0, r1, rev0[t], revf[t], t,
            ld.obs@[t].0 as int, ld.obs_offset@[t] as int, r0.nloc() as int, ov[t]),
    ensures
        pre_wf(rf), edges_sorted(rf), obs_bounded(rf), obs_sets_sorted(rf),
        obs_ok(g, rf, orig0.push(lv), revf),
        forall|t: int| 0 <= t < r0.n_agents() ==> #[trigger] revf[t] == (if rev0[t].contains(ov[t]) {
            rev0[t] } else { rev0[t].push(ov[t]) }),
{
    let n = r0.nloc() as int;
    let na = r0.n_agents() as int;
    assert forall|t: int| 0 <= t < na implies {
        &&& #[trigger] rf.obs@[t].len() <= r0.obs@[t].len() + 1
        &&& (ld.obs@[t].0 as int) < rf.obs@[t].len()
        &&& rf.obs_set_spec(t, ld.obs@[t].0 as int)[ld.obs_offset@[t] as int] == Loc(n as u32)
        &&& (ld.obs_offset@[t] as int) < rf.obs_set_spec(t, ld.obs@[t].0 as int).len()
        &&& revf[t] == (if rev0[t].contains(ov[t]) { rev0[t] } else { rev0[t].push(ov[t]) })
    } by {
        assert(agent_updated(r0, r1, rev0[t], revf[t], t,
            ld.obs@[t].0 as int, ld.obs_offset@[t] as int, n, ov[t]));
        let idx = ld.obs@[t].0 as int;
        let old_len = r0.obs@[t].len();
        if idx < old_len {
            assert(rev0[t][idx] == ov[t]);
            assert(revf[t] =~= rev0[t]);
        } else {
            if rev0[t].contains(ov[t]) {
                let k = choose|k: int| 0 <= k < rev0[t].len() && rev0[t][k] == ov[t];
                assert(revf[t][k] == rev0[t][k]);
            }
            assert(revf[t] =~= rev0[t].push(ov[t]));
        }
    }
    // sizes and observations of each location
    assert(rf.wf_loc_obs()) by {
        assert forall|l: int| 0 <= l < rf.nloc() implies {
            &&& (#[trigger] rf.loc@[l]).obs@.len() == rf.n_agents()
            &&& rf.loc@[l].obs_offset@.len() == rf.n_agents()
            &&& forall|i: int| 0 <= i < rf.n_agents() ==> {
                &&& (#[trigger] rf.loc@[l].obs@[i]).0 < rf.obs@[i].len()
                &&& rf.loc@[l].obs_offset@[i] < rf.obs_set_spec(i, rf.loc@[l].obs@[i].0 as int).len()
                &&& rf.obs_set_spec(i, rf.loc@[l].obs@[i].0 as int)[rf.loc@[l].obs_offset@[i] as int]
                    == Loc(l as u32)
            }
        } by {
            if l < n {
                assert(rf.loc@[l] == r0.loc@[l]);
                assert forall|i: int| 0 <= i < rf.n_agents() implies {
                    &&& (#[trigger] rf.loc@[l].obs@[i]).0 < rf.obs@[i].len()
                    &&& rf.loc@[l].obs_offset@[i] < rf.obs_set_spec(i, rf.loc@[l].obs@[i].0 as int).len()
                    &&& rf.obs_set_spec(i, rf.loc@[l].obs@[i].0 as int)[rf.loc@[l].obs_offset@[i] as int]
                        == Loc(l as u32)
                } by {
                    assert(agent_updated(r0, r1, rev0[i], revf[i], i,
                        ld.obs@[i].0 as int, ld.obs_offset@[i] as int, n, ov[i]));
                    let o = r0.loc@[l].obs@[i].0 as int;
                    assert(o < r0.obs@[i].len());
                    if o == ld.obs@[i].0 as int {
                        assert(rf.obs_set_spec(i, o)[r0.loc@[l].obs_offset@[i] as int]
                            == r0.obs_set_spec(i, o)[r0.loc@[l].obs_offset@[i] as int]);
                    } else {
                        assert(r1.obs_set_spec(i, o) == r0.obs_set_spec(i, o));
                        assert(rf.obs_set_spec(i, o) == r0.obs_set_spec(i, o));
                    }
                }
            } else {
                assert(rf.loc@[l] == ld);
            }
        }
    }
    assert(rf.wf_obs_sets()) by {
        assert forall|i: int, o: int, k: int|
            0 <= i < rf.n_agents() && 0 <= o < rf.obs@[i].len() && 0 <= k < rf.obs_set_spec(i, o).len()
            implies {
                let x = #[trigger] rf.obs_set_spec(i, o)[k];
                &&& (x.0 as int) < rf.nloc()
                &&& rf.loc@[x.0 as int].obs@[i].0 == o
                &&& rf.loc@[x.0 as int].obs_offset@[i] == k
            } by {
            assert(agent_updated(r0, r1, rev0[i], revf[i], i,
                ld.obs@[i].0 as int, ld.obs_offset@[i] as int, n, ov[i]));
            let idx = ld.obs@[i].0 as int;
            let x = rf.obs_set_spec(i, o)[k];
            if o != idx {
                assert(o < r0.obs@[i].len());
                assert(r1.obs_set_spec(i, o) == r0.obs_set_spec(i, o));
                assert(rf.obs_set_spec(i, o) == r0.obs_set_spec(i, o));
                assert(rf.loc@[x.0 as int] == r0.loc@[x.0 as int]);
            } else if idx < r0.obs@[i].len() && k < r0.obs_set_spec(i, o).len() {
                assert(x == r0.obs_set_spec(i, o)[k]);
                assert(rf.loc@[x.0 as int] == r0.loc@[x.0 as int]);
            } else {
                assert(x == Loc(n as u32));
                assert(rf.loc@[n] == ld);
            }
        }
    }
    assert(rf.wf_nonempty_obs()) by {
        assert forall|i: int, o: int| 0 <= i < rf.n_agents() && 0 <= o < rf.obs@[i].len()
            implies #[trigger] rf.obs_set_spec(i, o).len() > 0 by {
            assert(agent_updated(r0, r1, rev0[i], revf[i], i,
                ld.obs@[i].0 as int, ld.obs_offset@[i] as int, n, ov[i]));
            if o != ld.obs@[i].0 as int {
                assert(o < r0.obs@[i].len());
                assert(r1.obs_set_spec(i, o) == r0.obs_set_spec(i, o));
                assert(rf.obs_set_spec(i, o) == r0.obs_set_spec(i, o));
            }
        }
    }
    assert(obs_sets_sorted(rf)) by {
        assert forall|t: int, o: int, p: int, q: int|
            0 <= t < rf.n_agents() && 0 <= o < rf.obs@[t].len() && 0 <= p < q < rf.obs_set_spec(t, o).len()
            implies (#[trigger] rf.obs_set_spec(t, o)[p]).0 < (#[trigger] rf.obs_set_spec(t, o)[q]).0 by {
            assert(agent_updated(r0, r1, rev0[t], revf[t], t,
                ld.obs@[t].0 as int, ld.obs_offset@[t] as int, n, ov[t]));
            let idx = ld.obs@[t].0 as int;
            if o != idx {
                assert(o < r0.obs@[t].len());
                assert(r1.obs_set_spec(t, o) == r0.obs_set_spec(t, o));
                assert(rf.obs_set_spec(t, o) == r0.obs_set_spec(t, o));
            } else if idx < r0.obs@[t].len() {
                let s0 = r0.obs_set_spec(t, o);
                if q < s0.len() {
                    assert(rf.obs_set_spec(t, o)[p] == s0[p] && rf.obs_set_spec(t, o)[q] == s0[q]);
                } else {
                    assert(rf.obs_set_spec(t, o)[p] == s0[p]);
                    assert((s0[p].0 as int) < n);
                }
            }
        }
    }
    assert(rf.wf_edges()) by {
        assert forall|l: int| 0 <= l < rf.nloc() implies
            #[trigger] rf.succ(l) == (if l < n { r0.succ(l) } else { Seq::empty() })
            && rf.pred(l) == (if l < n { r0.pred(l) } else { Seq::empty() }) by {
            if l < n {
                assert(rf.loc@[l] == r0.loc@[l]);
                assert(sorted_edges(r0.succ(l)) && sorted_edges(r0.pred(l)));
                assert(rf.succ(l) == r0.succ(l) && rf.pred(l) == r0.pred(l));
            } else {
                assert(rf.loc@[l] == ld);
                assert(rf.succ(l) =~= Seq::empty());
                assert(rf.pred(l) =~= Seq::empty());
            }
        }
        assert forall|l: int, k: int| 0 <= l < rf.nloc() && 0 <= k < rf.succ(l).len()
            implies rf.valid_edge(#[trigger] rf.succ(l)[k]) by {
            assert(r0.valid_edge(r0.succ(l)[k]));
        }
        assert forall|l: int, k: int| 0 <= l < rf.nloc() && 0 <= k < rf.pred(l).len()
            implies rf.valid_edge(#[trigger] rf.pred(l)[k]) by {
            assert(r0.valid_edge(r0.pred(l)[k]));
        }
        assert forall|l: int, l2: int, a: Seq<Act>| 0 <= l < rf.nloc() && 0 <= l2 < rf.nloc() implies
            (#[trigger] rf.succ(l).contains((a, Loc(l2 as u32)))
                <==> #[trigger] rf.pred(l2).contains((a, Loc(l as u32)))) by {
            if l < n && l2 < n {
            } else if l < n {
                if r0.succ(l).contains((a, Loc(l2 as u32))) {
                    let k = choose|k: int| 0 <= k < r0.succ(l).len() && r0.succ(l)[k] == (a, Loc(l2 as u32));
                    assert(r0.valid_edge(r0.succ(l)[k]));
                }
            } else if l2 < n {
                if r0.pred(l2).contains((a, Loc(l as u32))) {
                    let k = choose|k: int| 0 <= k < r0.pred(l2).len() && r0.pred(l2)[k] == (a, Loc(l as u32));
                    assert(r0.valid_edge(r0.pred(l2)[k]));
                }
            }
        }
    }
    lemma_push_sorted(r0, rf, ld);
    let origf = orig0.push(lv);
    assert(obs_ok(g, rf, origf, revf)) by {
        assert forall|t: int| 0 <= t < rf.n_agents() implies (#[trigger] revf[t]).len() == rf.obs@[t].len()
            && revf[t].no_duplicates() by {
            assert(agent_updated(r0, r1, rev0[t], revf[t], t,
                ld.obs@[t].0 as int, ld.obs_offset@[t] as int, n, ov[t]));
        }
        assert forall|j: int, t: int| 0 <= j < rf.nloc() && 0 <= t < rf.n_agents()
            implies revf[t][(#[trigger] rf.loc@[j].obs@[t]).0 as int] == g.obs_spec(origf[j])[t] by {
            assert(agent_updated(r0, r1, rev0[t], revf[t], t,
                ld.obs@[t].0 as int, ld.obs_offset@[t] as int, n, ov[t]));
            if j < n {
                assert(rf.loc@[j] == r0.loc@[j]);
                assert(origf[j] == orig0[j]);
                assert(revf[t][r0.loc@[j].obs@[t].0 as int] == rev0[t][r0.loc@[j].obs@[t].0 as int]);
            } else {
                assert(rf.loc@[j] == ld);
            }
        }
        assert forall|j: int| 0 <= j < rf.nloc() implies g.obs_spec(#[trigger] origf[j]).len() == rf.n_agents() by {
            if j < n {
                assert(origf[j] == orig0[j]);
            }
        }
    }
}

/// Adds the location `l` of the abstract game as a new location of `r`,
/// with its observations and goal flag; returns its number.
fn visit<G: AbstractGame>(
    g: &G,
    r: &mut Game,
    obs_rev: &mut Vec<Vec<G::Obs>>,
    orig: &mut Vec<G::Loc>,
    l: G::Loc,
) -> (n: Loc)
    requires
        g.inv(),
        g.loc_ok(l@),
        pre_wf(*old(r)),
        edges_sorted(*old(r)),
        obs_bounded(*old(r)),
        obs_sets_sorted(*old(r)),
        old(r).n_actions@ == g.n_actions_spec(),
        obs_ok(g, *old(r), view_seq(old(orig)@), obs_rev_view(old(obs_rev)@)),
        old(r).nloc() < u32::MAX,
    ensures
        n == Loc(old(r).nloc() as u32),
        final(r).loc@.len() == old(r).loc@.len() + 1,
        forall|j: int| 0 <= j < old(r).nloc() ==> #[trigger] final(r).loc@[j] == old(r).loc@[j],
        final(r).loc@[old(r).nloc() as int].successors@.len() == 0,
        final(r).loc@[old(r).nloc() as int].predecessors@.len() == 0,
        final(r).loc@[old(r).nloc() as int].is_winning == g.winning_spec(l@),
        final(r).n_actions == old(r).n_actions,
        pre_wf(*final(r)),
        edges_sorted(*final(r)),
        obs_bounded(*final(r)),
        obs_sets_sorted(*final(r)),
        view_seq(final(orig)@) == view_seq(old(orig)@).push(l@),
        obs_ok(g, *final(r), view_seq(final(orig)@), obs_rev_view(final(obs_rev)@)),
        forall|t: int| 0 <= t < old(r).n_agents() ==> #[trigger] obs_rev_view(final(obs_rev)@)[t] == (
            if obs_rev_view(old(obs_rev)@)[t].contains(g.obs_spec(l@)[t]) {
                obs_rev_view(old(obs_rev)@)[t]
            } else {
                obs_rev_view(old(obs_rev)@)[t].push(g.obs_spec(l@)[t])
            }),
{
    let ghost r0 = *r;
    let ghost rev0 = obs_rev_view(obs_rev@);
    let ghost orig0 = view_seq(orig@);
    let n = r.loc.len();
    let o = g.obs(&l);
    let na = r.n_actions.len();
    let mut obs_v: Vec<Obs> = Vec::new();
    let mut offs: Vec<usize> = Vec::new();
    let mut t: usize = 0;
    while t < na
        invariant
            na == r0.n_agents(),
            n == r0.nloc(),
            n < u32::MAX,
            pre_wf(r0), obs_bounded(r0),
            obs_ok(g, r0, orig0, rev0),
            view_seq(o@) == g.obs_spec(l@),
            o@.len() == na,
            r.loc == r0.loc,
            r.n_actions == r0.n_actions,
            r.obs@.len() == r0.obs@.len(),
            obs_rev@.len() == r0.obs@.len(),
            t <= na,
            obs_v@.len() == t,
            offs@.len() == t,
            forall|u: int| t <= u < na ==> #[trigger] r.obs@[u] == r0.obs@[u]
                && obs_rev_view(obs_rev@)[u] == rev0[u],
            forall|u: int| 0 <= u < t ==> #[trigger] agent_updated(r0, *r, rev0[u], obs_rev_view(obs_rev@)[u], u,
                obs_v@[u].0 as int, offs@[u] as int, n as int, g.obs_spec(l@)[u]),
        decreases na - t,
    {
        let ghost rb = *r;
        let ghost ob = obs_rev@;
        let ghost revb = obs_rev_view(obs_rev@);
        proof {
            assert(r.obs@[t as int] == r0.obs@[t as int]);
            assert(view_seq(obs_rev@[t as int]@) == rev0[t as int]);
        }
        let (oi, off) = record_obs(g, r, obs_rev, t, &o[t], n);
        obs_v.push(oi);
        offs.push(off);
        proof {
            let rn = *r;
            let revn = obs_rev_view(obs_rev@);
            assert(o@[t as int]@ == g.obs_spec(l@)[t as int]);
            assert forall|u: int| 0 <= u < t + 1 implies #[trigger] agent_updated(r0, rn, rev0[u], revn[u], u,
                obs_v@[u].0 as int, offs@[u] as int, n as int, g.obs_spec(l@)[u]) by {
                if u < t {
                    assert(r.obs@[u] == rb.obs@[u]);
                    assert(obs_rev@[u] == ob[u]);
                    assert(revn[u] == revb[u]);
                    assert(agent_updated(r0, rb, rev0[u], revb[u], u,
                        obs_v@[u].0 as int, offs@[u] as int, n as int, g.obs_spec(l@)[u]));
                    lemma_agent_updated_frame(r0, rb, rn, rev0[u], revn[u], u,
                        obs_v@[u].0 as int, offs@[u] as int, n as int, g.obs_spec(l@)[u]);
                }
            }
            assert forall|u: int| t + 1 <= u < na implies #[trigger] rn.obs@[u] == r0.obs@[u]
                && revn[u] == rev0[u] by {
                assert(r.obs@[u] == rb.obs@[u]);
                assert(obs_rev@[u] == ob[u]);
                assert(revn[u] == revb[u]);
            }
        }
        t = t + 1;
    }
    let w = g.is_winning(&l);
    let ghost r1 = *r;
    let ld = LocData {
        successors: Vec::new(),
        predecessors: Vec::new(),
        is_winning: w,
        obs: obs_v,
        obs_offset: offs,
    };
    let ghost ldv = ld;
    r.loc.push(ld);
    let ghost lv = l@;
    orig.push(l);
    proof {
        let revf = obs_rev_view(obs_rev@);
        assert(revf.len() == rev0.len());
        lemma_visit_done(g, r0, r1, *r, rev0, revf, orig0, lv, g.obs_spec(lv), ldv);
        assert(view_seq(orig@) =~= orig0.push(lv));
    }
    Loc(n as u32)
}


/// The targets of the transitions in `es`, in order.
pub open spec fn targets_of<V>(es: Seq<(Seq<Act>, V)>) -> Seq<V> {
    es.map_values(|e: (Seq<Act>, V)| e.1)
}

/// `s` followed by the elements of `ts` that it does not contain yet,
/// each once, in order of first occurrence.
pub open spec fn append_new<V>(s: Seq<V>, ts: Seq<V>) -> Seq<V>
    decreases ts.len(),
{
    if ts.len() == 0 {
        s
    } else {
        let s2 = append_new(s, ts.drop_last());
        if s2.contains(ts.last()) {
            s2
        } else {
            s2.push(ts.last())
        }
    }
}

/// The first `s.len()` elements are kept, and the result holds exactly
/// the elements of `s` and `ts`, without adding duplicates.
pub proof fn lemma_append_new_props<V>(s: Seq<V>, ts: Seq<V>)
    ensures
        append_new(s, ts).len() >= s.len(),
        forall|i: int| 0 <= i < s.len() ==> #[trigger] append_new(s, ts)[i] == s[i],
        forall|x: V| #[trigger] append_new(s, ts).contains(x) <==> (s.contains(x) || ts.contains(x)),
        s.no_duplicates() ==> append_new(s, ts).no_duplicates(),
    decreases ts.len(),
{
    if ts.len() > 0 {
        let d = ts.drop_last();
        lemma_append_new_props(s, d);
        let s2 = append_new(s, d);
        assert forall|x: V| #[trigger] append_new(s, ts).contains(x) <==> (s.contains(x) || ts.contains(x)) by {
            if ts.contains(x) {
                let k = choose|k: int| 0 <= k < ts.len() && ts[k] == x;
                if k < ts.len() - 1 {
                    assert(d[k] == x);
                }
            }
            if d.contains(x) {
                let k = choose|k: int| 0 <= k < d.len() && d[k] == x;
                assert(ts[k] == x);
            }
            if !s2.contains(ts.last()) {
                let p = s2.push(ts.last());
                if p.contains(x) {
                    let k = choose|k: int| 0 <= k < p.len() && p[k] == x;
                    if k < s2.len() {
                        assert(s2[k] == x);
                    }
                }
                if s2.contains(x) {
                    let k = choose|k: int| 0 <= k < s2.len() && s2[k] == x;
                    assert(p[k] == x);
                }
                assert(p[s2.len() as int] == ts.last());
            }
        }
        if s.no_duplicates() && !s2.contains(ts.last()) {
            let p = s2.push(ts.last());
            assert forall|i: int, j: int| 0 <= i < j < p.len() implies p[i] != p[j] by {
                if j == s2.len() {
                    assert(s2[i] == p[i]);
                }
            }
        }
    }
}

/// The first observation of agent `t` at each of the locations `orig`,
/// without repetition, in order of first occurrence.
pub open spec fn first_obs<G: AbstractGame>(g: &G, orig: Seq<<G::Loc as View>::V>, t: int)
    -> Seq<<G::Obs as View>::V>
{
    append_new(Seq::empty(), orig.map_values(|l: <G::Loc as View>::V| g.obs_spec(l)[t]))
}

/// The locations of the abstract game in the order in which a
/// breadth-first search from the initial location discovers them, after
/// the first `k` of them have been expanded (successors in the order the
/// game lists them).
pub open spec fn bfs_order<G: AbstractGame>(g: &G, k: nat) -> Seq<<G::Loc as View>::V>
    decreases k,
{
    if k == 0 {
        seq![g.l0_spec()]
    } else {
        let s = bfs_order(g, (k - 1) as nat);
        if k - 1 < s.len() {
            append_new(s, targets_of(g.succ_spec(s[k - 1])))
        } else {
            s
        }
    }
}

/// `l` is the target of a transition from `l1` in the abstract game.
pub open spec fn abs_edge<G: AbstractGame>(g: &G, l1: <G::Loc as View>::V, l: <G::Loc as View>::V) -> bool {
    targets_of(g.succ_spec(l1)).contains(l)
}

/// The locations of the abstract game reached in at most `k` transitions.
pub open spec fn abs_reached<G: AbstractGame>(g: &G, k: nat) -> Set<<G::Loc as View>::V>
    decreases k,
{
    if k == 0 {
        set![g.l0_spec()]
    } else {
        let prev = abs_reached(g, (k - 1) as nat);
        prev.union(Set::new(|l: <G::Loc as View>::V| exists|l1: <G::Loc as View>::V|
            prev.contains(l1) && #[trigger] abs_edge(g, l1, l)))
    }
}

pub open spec fn abs_reach_within<G: AbstractGame>(g: &G, k: nat, l: <G::Loc as View>::V) -> bool {
    abs_reached(g, k).contains(l)
}

/// `l` is reachable from the initial location of the abstract game.
pub open spec fn abs_reachable<G: AbstractGame>(g: &G, l: <G::Loc as View>::V) -> bool {
    exists|k: nat| #[trigger] abs_reach_within(g, k, l)
}

/// The reachable locations of the abstract game.
pub open spec fn reachable_locs<G: AbstractGame>(g: &G) -> Set<<G::Loc as View>::V> {
    Set::new(|l: <G::Loc as View>::V| abs_reachable(g, l))
}

proof fn lemma_abs_reach_step<G: AbstractGame>(g: &G, l1: <G::Loc as View>::V, l: <G::Loc as View>::V)
    requires
        abs_reachable(g, l1),
        abs_edge(g, l1, l),
    ensures
        abs_reachable(g, l),
{
    let k = choose|k: nat| #[trigger] abs_reach_within(g, k, l1);
    let k1 = (k + 1) as nat;
    assert(((k1 - 1) as nat) == k);
    assert(abs_reached(g, k).contains(l1));
    assert(abs_reached(g, k1).contains(l));
    assert(abs_reach_within(g, k1, l));
}

proof fn lemma_abs_reach_l0<G: AbstractGame>(g: &G)
    ensures abs_reachable(g, g.l0_spec()),
{
    assert(abs_reached(g, 0).contains(g.l0_spec()));
    assert(abs_reach_within(g, 0, g.l0_spec()));
}

/// A set that holds the initial location and is closed under transitions
/// holds every location reached in `k` steps.
proof fn lemma_closed_holds_reached<G: AbstractGame>(g: &G, s: Set<<G::Loc as View>::V>, k: nat)
    requires
        s.contains(g.l0_spec()),
        forall|l1: <G::Loc as View>::V, l: <G::Loc as View>::V| s.contains(l1) && #[trigger] abs_edge(g, l1, l)
            ==> s.contains(l),
    ensures
        abs_reached(g, k).subset_of(s),
    decreases k,
{
    if k > 0 {
        lemma_closed_holds_reached(g, s, (k - 1) as nat);
    }
}

/// `r` is the explicit game of the abstract game `g`, with `orig[j]` the
/// origin of location `j` and `obs_rev[t][o]` the origin of observation
/// `o` of agent `t`:
/// the locations are the reachable ones, numbered in breadth-first order;
/// goals, observations and transitions are those of the origins;
/// observations are numbered by first occurrence, and both the
/// transitions and the members of each observation are sorted.
pub open spec fn is_expansion<G: AbstractGame>(
    g: &G,
    r: Game,
    orig: Seq<<G::Loc as View>::V>,
    obs_rev: Seq<Seq<<G::Obs as View>::V>>,
) -> bool {
    &&& g.inv()
    &&& r.wf()
    &&& edges_sorted(r)
    &&& obs_sets_sorted(r)
    &&& r.n_actions@ == g.n_actions_spec()
    &&& orig.len() == r.nloc()
    &&& orig == bfs_order(g, orig.len())
    &&& orig.no_duplicates()
    &&& forall|j: int| 0 <= j < orig.len() ==> g.loc_ok(#[trigger] orig[j])
    &&& forall|j: int| 0 <= j < orig.len() ==> (#[trigger] r.loc@[j]).is_winning == g.winning_spec(orig[j])
    &&& obs_ok(g, r, orig, obs_rev)
    &&& forall|t: int| 0 <= t < r.n_agents() ==> #[trigger] obs_rev[t] == first_obs(g, orig, t)
    &&& forall|j: int, a: Seq<Act>, k: int| 0 <= j < orig.len() && 0 <= k < orig.len() ==>
        (#[trigger] r.has_edge(j, a, Loc(k as u32)) <==> g.succ_spec(orig[j]).contains((a, orig[k])))
    &&& forall|j: int, q: int| 0 <= j < orig.len() && 0 <= q < g.succ_spec(orig[j]).len() ==>
        orig.contains(#[trigger] g.succ_spec(orig[j])[q].1)
}

/// What holds of a partly built game: all but the transitions.
pub open spec fn build_core<G: AbstractGame>(
    g: &G,
    r: Game,
    orig: Seq<<G::Loc as View>::V>,
    obs_rev: Seq<Seq<<G::Obs as View>::V>>,
) -> bool {
    &&& g.inv()
    &&& pre_wf(r)
    &&& r.nloc() >= 1
    &&& edges_sorted(r)
    &&& obs_bounded(r)
    &&& obs_sets_sorted(r)
    &&& r.n_actions@ == g.n_actions_spec()
    &&& obs_ok(g, r, orig, obs_rev)
    &&& orig.no_duplicates()
    &&& forall|j: int| 0 <= j < orig.len() ==> g.loc_ok(#[trigger] orig[j])
    &&& forall|j: int| 0 <= j < orig.len() ==> abs_reachable(g, #[trigger] orig[j])
    &&& forall|j: int| 0 <= j < orig.len() ==> (#[trigger] r.loc@[j]).is_winning == g.winning_spec(orig[j])
    &&& forall|t: int| 0 <= t < r.n_agents() ==> #[trigger] obs_rev[t] == first_obs(g, orig, t)
}

/// The locations before `done` have all their transitions, and the
/// targets of those are known locations.
pub open spec fn edges_done<G: AbstractGame>(g: &G, r: Game, orig: Seq<<G::Loc as View>::V>, done: int) -> bool {
    &&& forall|j: int, a: Seq<Act>, k: int| 0 <= j < done && 0 <= k < orig.len() ==>
        (#[trigger] r.has_edge(j, a, Loc(k as u32)) <==> g.succ_spec(orig[j]).contains((a, orig[k])))
    &&& forall|j: int, q: int| 0 <= j < done && 0 <= q < g.succ_spec(orig[j]).len() ==>
        orig.contains(#[trigger] g.succ_spec(orig[j])[q].1)
}

/// The location `i` has the transitions `ev[..k]`, and their targets are
/// known locations.
pub open spec fn edges_partial<V>(r: Game, orig: Seq<V>, i: int, ev: Seq<(Seq<Act>, V)>, k: int) -> bool {
    &&& forall|a: Seq<Act>, m: int| 0 <= m < orig.len() ==>
        (#[trigger] r.has_edge(i, a, Loc(m as u32)) <==> exists|q: int| 0 <= q < k && #[trigger] ev[q] == (a, orig[m]))
    &&& forall|q: int| 0 <= q < k ==> orig.contains(#[trigger] ev[q].1)
}

/// Reaching a location beyond the numbering limit.
proof fn lemma_too_many<G: AbstractGame>(g: &G, orig: Seq<<G::Loc as View>::V>, lv: <G::Loc as View>::V)
    requires
        orig.no_duplicates(),
        forall|j: int| 0 <= j < orig.len() ==> abs_reachable(g, #[trigger] orig[j]),
        abs_reachable(g, lv),
        !orig.contains(lv),
        orig.len() == u32::MAX,
    ensures
        !(reachable_locs(g).finite() && reachable_locs(g).len() <= u32::MAX),
{
    let s = orig.push(lv);
    assert(s.no_duplicates()) by {
        assert forall|i: int, j: int| 0 <= i < j < s.len() implies s[i] != s[j] by {
            if j == orig.len() {
                assert(s[i] == orig[i]);
            }
        }
    }
    s.unique_seq_to_set();
    assert(s.to_set().subset_of(reachable_locs(g))) by {
        assert forall|x| s.to_set().contains(x) implies reachable_locs(g).contains(x) by {
            let k = choose|k: int| 0 <= k < s.len() && s[k] == x;
            if k < orig.len() {
                assert(orig[k] == x);
            }
        }
    }
    if reachable_locs(g).finite() {
        vstd::set_lib::lemma_len_subset(s.to_set(), reachable_locs(g));
    }
}

/// A list of reachable locations that starts with the initial location
/// and holds the targets of all their transitions holds every reachable
/// location.
proof fn lemma_all_reachable<G: AbstractGame>(g: &G, orig: Seq<<G::Loc as View>::V>)
    requires
        orig.len() >= 1,
        orig[0] == g.l0_spec(),
        forall|j: int| 0 <= j < orig.len() ==> abs_reachable(g, #[trigger] orig[j]),
        forall|j: int, q: int| 0 <= j < orig.len() && 0 <= q < g.succ_spec(orig[j]).len() ==>
            orig.contains(#[trigger] g.succ_spec(orig[j])[q].1),
    ensures
        orig.to_set() == reachable_locs(g),
{
    let s = orig.to_set();
    assert(s.contains(g.l0_spec()));
    assert forall|l1: <G::Loc as View>::V, l: <G::Loc as View>::V| s.contains(l1) && #[trigger] abs_edge(g, l1, l)
        implies s.contains(l) by {
        let j = choose|j: int| 0 <= j < orig.len() && orig[j] == l1;
        let ts = targets_of(g.succ_spec(l1));
        let q = choose|q: int| 0 <= q < ts.len() && ts[q] == l;
        assert(g.succ_spec(orig[j])[q].1 == l);
    }
    assert forall|l| reachable_locs(g).contains(l) implies s.contains(l) by {
        let k = choose|k: nat| #[trigger] abs_reach_within(g, k, l);
        lemma_closed_holds_reached(g, s, k);
    }
    assert forall|l| s.contains(l) implies reachable_locs(g).contains(l) by {
        let j = choose|j: int| 0 <= j < orig.len() && orig[j] == l;
        assert(abs_reachable(g, orig[j]));
    }
    assert(s =~= reachable_locs(g));
}

/// An explicit game built from an abstract game, with the origin of each
/// location and observation.
pub struct ConstructedGame<G: AbstractGame> {
    pub game: Game,
    pub origin: G,
    pub loc_map_reverse: Vec<G::Loc>,
    pub obs_map_reverse: Vec<Vec<G::Obs>>,
}

impl<G: AbstractGame> ConstructedGame<G> {
    /// The abstract game this game was built from.
    pub open spec fn source(&self) -> G {
        self.origin
    }

    /// The origin of each location.
    pub open spec fn origins(&self) -> Seq<<G::Loc as View>::V> {
        view_seq(self.loc_map_reverse@)
    }

    /// The origin of each observation, agent by agent.
    pub open spec fn obs_origins(&self) -> Seq<Seq<<G::Obs as View>::V>> {
        obs_rev_view(self.obs_map_reverse@)
    }

    pub open spec fn wf(&self) -> bool {
        is_expansion(&self.source(), self.game, self.origins(), self.obs_origins())
    }

    /// The abstract game this game was built from.
    pub fn origin(&self) -> (r: &G)
        ensures *r == self.source(),
    {
        &self.origin
    }

    /// The location of the abstract game that `l` stands for.
    pub fn origin_loc(&self, l: Loc) -> (r: &G::Loc)
        requires
            self.wf(),
            (l.0 as int) < self.game.nloc(),
        ensures
            r@ == self.origins()[l.0 as int],
    {
        &self.loc_map_reverse[l.index()]
    }

    /// The observation of the abstract game that observation `o` of agent
    /// `agt` stands for.
    pub fn origin_obs(&self, agt: Agt, o: Obs) -> (r: &G::Obs)
        requires
            self.wf(),
            (agt.0 as int) < self.game.n_agents(),
            (o.0 as int) < self.game.obs@[agt.0 as int].len(),
        ensures
            r@ == self.obs_origins()[agt.0 as int][o.0 as int],
    {
        proof {
            let t = agt.0 as int;
            assert(self.obs_origins()[t] == view_seq(self.obs_map_reverse@[t]@));
            assert(self.obs_origins()[t].len() == self.game.obs@[t].len());
        }
        &self.obs_map_reverse[agt.index()][o.index()]
    }

    /// The location that stands for the location `l` of the abstract game.
    pub fn loc(&self, l: &G::Loc) -> (r: Loc)
        requires
            self.wf(),
            self.origins().contains(l@),
        ensures
            (r.0 as int) < self.game.nloc(),
            self.origins()[r.0 as int] == l@,
    {
        match find_loc(&self.origin, &self.loc_map_reverse, l) {
            Some(k) => Loc(k as u32),
            None => Loc(0),
        }
    }

    /// The observation of agent `key.0` that stands for the observation
    /// `key.1` of the abstract game.
    pub fn obs(&self, key: &(Agt, G::Obs)) -> (r: Obs)
        requires
            self.wf(),
            (key.0.0 as int) < self.game.n_agents(),
            self.obs_origins()[key.0.0 as int].contains(key.1@),
        ensures
            (r.0 as int) < self.game.obs@[key.0.0 as int].len(),
            self.obs_origins()[key.0.0 as int][r.0 as int] == key.1@,
    {
        match find_obs(&self.origin, &self.obs_map_reverse[key.0.index()], &key.1) {
            Some(k) => Obs(k as u32),
            None => Obs(0),
        }
    }
}


/// The invariant of the expansion of location `i`, after its first `k`
/// transitions `ev[..k]`.
pub open spec fn expand_inv<G: AbstractGame>(
    g: &G,
    r: Game,
    orig: Seq<<G::Loc as View>::V>,
    rev: Seq<Seq<<G::Obs as View>::V>>,
    i: int,
    ev: Seq<(Seq<Act>, <G::Loc as View>::V)>,
    k: int,
) -> bool {
    &&& build_core(g, r, orig, rev)
    &&& orig.len() == r.nloc()
    &&& 0 <= i < orig.len()
    &&& ev == g.succ_spec(orig[i])
    &&& 0 <= k <= ev.len()
    &&& edges_done(g, r, orig, i)
    &&& forall|j: int| i < j < orig.len() ==> (#[trigger] r.succ(j)).len() == 0
    &&& edges_partial(r, orig, i, ev, k)
}

proof fn lemma_after_visit<G: AbstractGame>(
    g: &G,
    r0: Game,
    rf: Game,
    orig0: Seq<<G::Loc as View>::V>,
    rev0: Seq<Seq<<G::Obs as View>::V>>,
    revf: Seq<Seq<<G::Obs as View>::V>>,
    i: int,
    ev: Seq<(Seq<Act>, <G::Loc as View>::V)>,
    k: int,
)
    requires
        expand_inv(g, r0, orig0, rev0, i, ev, k),
        k < ev.len(),
        !orig0.contains(ev[k].1),
        g.loc_ok(ev[k].1),
        rf.loc@.len() == r0.loc@.len() + 1,
        forall|j: int| 0 <= j < r0.nloc() ==> #[trigger] rf.loc@[j] == r0.loc@[j],
        rf.loc@[r0.nloc() as int].successors@.len() == 0,
        rf.loc@[r0.nloc() as int].is_winning == g.winning_spec(ev[k].1),
        rf.n_actions == r0.n_actions,
        pre_wf(rf), edges_sorted(rf), obs_bounded(rf), obs_sets_sorted(rf),
        obs_ok(g, rf, orig0.push(ev[k].1), revf),
        forall|t: int| 0 <= t < r0.n_agents() ==> #[trigger] revf[t] == (
            if rev0[t].contains(g.obs_spec(ev[k].1)[t]) { rev0[t] } else { rev0[t].push(g.obs_spec(ev[k].1)[t]) }),
    ensures
        expand_inv(g, rf, orig0.push(ev[k].1), revf, i, ev, k),
{
    let lv = ev[k].1;
    let origf = orig0.push(lv);
    let n = r0.nloc() as int;
    assert forall|j: int| 0 <= j < n implies #[trigger] rf.succ(j) == r0.succ(j) by {
        assert(rf.loc@[j] == r0.loc@[j]);
    }
    assert(rf.succ(n) =~= Seq::empty());
    // old transitions never lead to the new location
    assert forall|j: int, a: Seq<Act>| 0 <= j < n implies !#[trigger] rf.has_edge(j, a, Loc(n as u32)) by {
        assert(rf.succ(j) == r0.succ(j));
        if r0.succ(j).contains((a, Loc(n as u32))) {
            let q = choose|q: int| 0 <= q < r0.succ(j).len() && r0.succ(j)[q] == (a, Loc(n as u32));
            assert(r0.valid_edge(r0.succ(j)[q]));
        }
    }
    // reachability of the new location
    assert(abs_edge(g, orig0[i], lv)) by {
        assert(targets_of(g.succ_spec(orig0[i]))[k] == lv);
    }
    assert(abs_reachable(g, orig0[i]));
    lemma_abs_reach_step(g, orig0[i], lv);
    assert(origf.no_duplicates()) by {
        assert forall|x: int, y: int| 0 <= x < y < origf.len() implies origf[x] != origf[y] by {
            if y == n {
                assert(origf[x] == orig0[x]);
            }
        }
    }
    assert forall|x| orig0.contains(x) implies origf.contains(x) by {
        let q = choose|q: int| 0 <= q < orig0.len() && orig0[q] == x;
        assert(origf[q] == x);
    }
    assert forall|t: int| 0 <= t < rf.n_agents() implies #[trigger] revf[t] == first_obs(g, origf, t) by {
        let f = |l: <G::Loc as View>::V| g.obs_spec(l)[t];
        assert(origf.map_values(f) =~= orig0.map_values(f).push(f(lv)));
        assert(origf.map_values(f).drop_last() =~= orig0.map_values(f));
        assert(rev0[t] == first_obs(g, orig0, t));
    }
    assert(build_core(g, rf, origf, revf)) by {
        assert forall|j: int| 0 <= j < origf.len() implies g.loc_ok(#[trigger] origf[j])
            && abs_reachable(g, origf[j]) && rf.loc@[j].is_winning == g.winning_spec(origf[j]) by {
            if j < n {
                assert(origf[j] == orig0[j]);
                assert(rf.loc@[j] == r0.loc@[j]);
            }
        }
    }
    assert(edges_done(g, rf, origf, i)) by {
        assert forall|j: int, a: Seq<Act>, m: int| 0 <= j < i && 0 <= m < origf.len() implies
            (#[trigger] rf.has_edge(j, a, Loc(m as u32)) <==> g.succ_spec(origf[j]).contains((a, origf[m]))) by {
            assert(origf[j] == orig0[j]);
            assert(rf.succ(j) == r0.succ(j));
            if m < n {
                assert(origf[m] == orig0[m]);
                assert(r0.has_edge(j, a, Loc(m as u32)) <==> g.succ_spec(orig0[j]).contains((a, orig0[m])));
            } else {
                assert(!rf.has_edge(j, a, Loc(n as u32)));
                if g.succ_spec(orig0[j]).contains((a, lv)) {
                    let q = choose|q: int| 0 <= q < g.succ_spec(orig0[j]).len() && g.succ_spec(orig0[j])[q] == (a, lv);
                    assert(orig0.contains(g.succ_spec(orig0[j])[q].1));
                }
            }
        }
        assert forall|j: int, q: int| 0 <= j < i && 0 <= q < g.succ_spec(origf[j]).len() implies
            origf.contains(#[trigger] g.succ_spec(origf[j])[q].1) by {
            assert(origf[j] == orig0[j]);
            assert(orig0.contains(g.succ_spec(orig0[j])[q].1));
        }
    }
    assert forall|j: int| i < j < origf.len() implies (#[trigger] rf.succ(j)).len() == 0 by {
        if j < n {
            assert(rf.succ(j) == r0.succ(j));
        }
    }
    assert(edges_partial(rf, origf, i, ev, k)) by {
        assert(origf[i] == orig0[i]);
        assert(rf.succ(i) == r0.succ(i));
        assert forall|a: Seq<Act>, m: int| 0 <= m < origf.len() implies
            (#[trigger] rf.has_edge(i, a, Loc(m as u32)) <==> exists|q: int| 0 <= q < k && #[trigger] ev[q] == (a, origf[m])) by {
            if m < n {
                assert(origf[m] == orig0[m]);
                assert(r0.has_edge(i, a, Loc(m as u32)) <==> exists|q: int| 0 <= q < k && #[trigger] ev[q] == (a, orig0[m]));
            } else {
                assert(!rf.has_edge(i, a, Loc(n as u32)));
                if exists|q: int| 0 <= q < k && #[trigger] ev[q] == (a, lv) {
                    let q = choose|q: int| 0 <= q < k && #[trigger] ev[q] == (a, lv);
                    assert(orig0.contains(ev[q].1));
                }
            }
        }
        assert forall|q: int| 0 <= q < k implies origf.contains(#[trigger] ev[q].1) by {
            assert(orig0.contains(ev[q].1));
        }
    }
}

/// Everything but the transitions of a location is left alone.
pub open spec fn same_but_edges(r0: Game, r1: Game) -> bool {
    &&& r1.n_actions == r0.n_actions
    &&& r1.obs == r0.obs
    &&& r1.nloc() == r0.nloc()
    &&& forall|j: int| 0 <= j < r1.nloc() ==> {
        &&& (#[trigger] r1.loc@[j]).is_winning == r0.loc@[j].is_winning
        &&& r1.loc@[j].obs == r0.loc@[j].obs
        &&& r1.loc@[j].obs_offset == r0.loc@[j].obs_offset
    }
}

proof fn lemma_after_edge<G: AbstractGame>(
    g: &G,
    r0: Game,
    rf: Game,
    orig: Seq<<G::Loc as View>::V>,
    rev: Seq<Seq<<G::Obs as View>::V>>,
    i: int,
    ev: Seq<(Seq<Act>, <G::Loc as View>::V)>,
    k: int,
    m: int,
)
    requires
        expand_inv(g, r0, orig, rev, i, ev, k),
        k < ev.len(),
        0 <= m < orig.len(),
        orig[m] == ev[k].1,
        rf.wf(),
        edges_sorted(rf),
        same_but_edges(r0, rf),
        succ_set(rf, i) == succ_set(r0, i).insert((ev[k].0, Loc(m as u32))),
        forall|j: int| 0 <= j < rf.nloc() && j != i ==> #[trigger] rf.succ(j) == r0.succ(j),
    ensures
        expand_inv(g, rf, orig, rev, i, ev, k + 1),
{
    assert(build_core(g, rf, orig, rev)) by {
        assert forall|j: int| 0 <= j < orig.len() implies (#[trigger] rf.loc@[j]).is_winning == g.winning_spec(orig[j])
            && rf.loc@[j].obs == r0.loc@[j].obs by {
            assert(r0.loc@[j].is_winning == g.winning_spec(orig[j]));
        }
        assert(obs_ok(g, rf, orig, rev)) by {
            assert forall|j: int, t: int| 0 <= j < rf.nloc() && 0 <= t < rf.n_agents()
                implies rev[t][(#[trigger] rf.loc@[j].obs@[t]).0 as int] == g.obs_spec(orig[j])[t] by {
                assert(rf.loc@[j].obs == r0.loc@[j].obs);
                assert(rev[t][(r0.loc@[j].obs@[t]).0 as int] == g.obs_spec(orig[j])[t]);
            }
        }
    }
    assert forall|j: int| i < j < orig.len() implies (#[trigger] rf.succ(j)).len() == 0 by {
        assert(rf.succ(j) == r0.succ(j));
    }
    assert(edges_done(g, rf, orig, i)) by {
        assert forall|j: int, a: Seq<Act>, m2: int| 0 <= j < i && 0 <= m2 < orig.len() implies
            (#[trigger] rf.has_edge(j, a, Loc(m2 as u32)) <==> g.succ_spec(orig[j]).contains((a, orig[m2]))) by {
            assert(rf.succ(j) == r0.succ(j));
            assert(r0.has_edge(j, a, Loc(m2 as u32)) <==> g.succ_spec(orig[j]).contains((a, orig[m2])));
        }
    }
    assert(edges_partial(rf, orig, i, ev, k + 1)) by {
        assert forall|a: Seq<Act>, m2: int| 0 <= m2 < orig.len() implies
            (#[trigger] rf.has_edge(i, a, Loc(m2 as u32)) <==> exists|q: int| 0 <= q < k + 1 && #[trigger] ev[q] == (a, orig[m2])) by {
            lemma_to_set_contains(rf.succ(i), (a, Loc(m2 as u32)));
            lemma_to_set_contains(r0.succ(i), (a, Loc(m2 as u32)));
            assert(r0.has_edge(i, a, Loc(m2 as u32)) <==> exists|q: int| 0 <= q < k && #[trigger] ev[q] == (a, orig[m2]));
            if (a, Loc(m2 as u32)) == (ev[k].0, Loc(m as u32)) {
                assert(m2 == m);
                assert(ev[k] == (a, orig[m2]));
            } else {
                if ev[k] == (a, orig[m2]) {
                    assert(orig[m2] == orig[m]);
                    assert(m2 == m);
                }
                if exists|q: int| 0 <= q < k + 1 && #[trigger] ev[q] == (a, orig[m2]) {
                    let q = choose|q: int| 0 <= q < k + 1 && #[trigger] ev[q] == (a, orig[m2]);
                    if q < k {
                        assert(exists|q: int| 0 <= q < k && #[trigger] ev[q] == (a, orig[m2]));
                    }
                }
                if exists|q: int| 0 <= q < k && #[trigger] ev[q] == (a, orig[m2]) {
                    let q = choose|q: int| 0 <= q < k && #[trigger] ev[q] == (a, orig[m2]);
                    assert(0 <= q < k + 1 && ev[q] == (a, orig[m2]));
                }
            }
        }
        assert forall|q: int| 0 <= q < k + 1 implies orig.contains(#[trigger] ev[q].1) by {
            if q == k {
                assert(orig[m] == ev[k].1);
            }
        }
    }
}

/// Builds the explicit game of the reachable part of `g`. Fails when more
/// than `u32::MAX` locations are reachable, too many to number.
pub fn build_game<G: AbstractGame>(g: G) -> (res: Option<ConstructedGame<G>>)
    requires
        g.inv(),
    ensures
        res is Some <==> (reachable_locs(&g).finite() && reachable_locs(&g).len() <= u32::MAX),
        match res {
            Some(c) => {
                &&& c.wf()
                &&& c.source() == g
                &&& c.origins().to_set() == reachable_locs(&g)
            },
            None => true,
        },
{
    let na_v = g.n_actions();
    let na = na_v.len();
    let mut obs_tab: Vec<Vec<Vec<Loc>>> = Vec::new();
    let mut obs_rev: Vec<Vec<G::Obs>> = Vec::new();
    let mut t: usize = 0;
    while t < na
        invariant
            t <= na,
            na == na_v@.len(),
            obs_tab@.len() == t,
            obs_rev@.len() == t,
            forall|u: int| 0 <= u < t ==> (#[trigger] obs_tab@[u])@.len() == 0,
            forall|u: int| 0 <= u < t ==> (#[trigger] obs_rev@[u])@.len() == 0,
        decreases na - t,
    {
        obs_tab.push(Vec::new());
        obs_rev.push(Vec::new());
        t = t + 1;
    }
    let mut r = Game { loc: Vec::new(), n_actions: na_v, obs: obs_tab };
    let mut orig: Vec<G::Loc> = Vec::new();
    proof {
        assert forall|u: int| 0 <= u < na implies #[trigger] obs_rev_view(obs_rev@)[u] == Seq::<<G::Obs as View>::V>::empty() by {
            assert(obs_rev_view(obs_rev@)[u] == view_seq(obs_rev@[u]@));
            assert(obs_rev_view(obs_rev@)[u] =~= Seq::<<G::Obs as View>::V>::empty());
        }
        assert(view_seq(orig@) =~= Seq::<<G::Loc as View>::V>::empty());
    }
    let l0 = g.l0();
    let _ = visit(&g, &mut r, &mut obs_rev, &mut orig, l0);
    proof {
        let o = view_seq(orig@);
        let rv = obs_rev_view(obs_rev@);
        assert(o =~= seq![g.l0_spec()]);
        lemma_abs_reach_l0(&g);
        assert forall|u: int| 0 <= u < na implies #[trigger] rv[u] == first_obs(&g, o, u) by {
            let f = |l: <G::Loc as View>::V| g.obs_spec(l)[u];
            let e = Seq::<<G::Obs as View>::V>::empty();
            assert(o.map_values(f).drop_last() =~= e);
            assert(append_new(e, e) == e);
            assert(!e.contains(f(g.l0_spec())));
            assert(o.map_values(f).last() == f(g.l0_spec()));
            assert(first_obs(&g, o, u) == e.push(f(g.l0_spec())));
        }
        assert(r.succ(0) =~= Seq::empty());
    }
    let mut i: usize = 0;
    while i < orig.len()
        invariant
            build_core(&g, r, view_seq(orig@), obs_rev_view(obs_rev@)),
            orig@.len() == r.nloc(),
            i <= orig@.len(),
            view_seq(orig@) == bfs_order(&g, i as nat),
            edges_done(&g, r, view_seq(orig@), i as int),
            forall|j: int| i <= j < orig@.len() ==> (#[trigger] r.succ(j)).len() == 0,
        decreases u32::MAX - i,
    {
        proof {
            assert(view_seq(orig@)[i as int] == orig@[i as int]@);
        }
        let es = g.succ(&orig[i]);
        let ghost base = view_seq(orig@);
        let ghost ev = es@.map_values(|e: (Profile, G::Loc)| (e.0@, e.1@));
        proof {
            assert(base[i as int] == orig@[i as int]@);
            assert(edges_partial(r, base, i as int, ev, 0));
        }
        let mut k: usize = 0;
        while k < es.len()
            invariant
                expand_inv(&g, r, view_seq(orig@), obs_rev_view(obs_rev@), i as int, ev, k as int),
                orig@.len() == r.nloc(),
                base == bfs_order(&g, i as nat),
                i < base.len(),
                ev == es@.map_values(|e: (Profile, G::Loc)| (e.0@, e.1@)),
                forall|q: int| 0 <= q < es@.len() ==> g.loc_ok((#[trigger] es@[q]).1@)
                    && valid_profile_for(g.n_actions_spec(), es@[q].0@),
                view_seq(orig@) == append_new(base, targets_of(ev.subrange(0, k as int))),
            decreases es@.len() - k,
        {
            let ghost o0 = view_seq(orig@);
            let ghost tsk = targets_of(ev.subrange(0, k as int + 1));
            proof {
                assert(tsk.drop_last() =~= targets_of(ev.subrange(0, k as int)));
                assert(tsk.last() == ev[k as int].1);
                assert(es@[k as int].1@ == ev[k as int].1);
            }
            let n2 = match find_loc(&g, &orig, &es[k].1) {
                Some(m) => {
                    proof {
                        assert(o0[m as int] == ev[k as int].1);
                        assert(o0.contains(ev[k as int].1));
                    }
                    Loc(m as u32)
                },
                None => {
                    if r.loc.len() == u32::MAX as usize {
                        proof {
                            let lv = ev[k as int].1;
                            assert(abs_edge(&g, o0[i as int], lv)) by {
                                assert(targets_of(g.succ_spec(o0[i as int]))[k as int] == lv);
                            }
                            lemma_abs_reach_step(&g, o0[i as int], lv);
                            lemma_too_many(&g, o0, lv);
                        }
                        return None;
                    }
                    let l2 = g.loc_clone(&es[k].1);
                    let ghost rb = r;
                    let ghost rvb = obs_rev_view(obs_rev@);
                    let n2 = visit(&g, &mut r, &mut obs_rev, &mut orig, l2);
                    proof {
                        lemma_after_visit(&g, rb, r, o0, rvb, obs_rev_view(obs_rev@), i as int, ev, k as int);
                        let o1 = view_seq(orig@);
                        assert(o1[o0.len() as int] == ev[k as int].1);
                    }
                    n2
                },
            };
            let ghost r1 = r;
            let ghost o1 = view_seq(orig@);
            proof {
                assert(o1 == append_new(base, tsk));
                assert(o1[n2.0 as int] == ev[k as int].1);
                assert(r.valid_profile(es@[k as int].0@));
            }
            add_edge(&mut r, Loc(i as u32), &es[k].0, n2);
            proof {
                lemma_after_edge(&g, r1, r, o1, obs_rev_view(obs_rev@), i as int, ev, k as int, n2.0 as int);
            }
            k = k + 1;
        }
        proof {
            let o = view_seq(orig@);
            assert(ev.subrange(0, ev.len() as int) =~= ev);
            lemma_append_new_props(base, targets_of(ev));
            assert(o[i as int] == base[i as int]);
            assert(bfs_order(&g, (i + 1) as nat) == append_new(base, targets_of(g.succ_spec(base[i as int]))));
            assert(edges_done(&g, r, o, i + 1)) by {
                assert forall|j: int, a: Seq<Act>, m: int| 0 <= j < i + 1 && 0 <= m < o.len() implies
                    (#[trigger] r.has_edge(j, a, Loc(m as u32)) <==> g.succ_spec(o[j]).contains((a, o[m]))) by {
                    if j == i {
                        if g.succ_spec(o[j]).contains((a, o[m])) {
                            let q = choose|q: int| 0 <= q < ev.len() && ev[q] == (a, o[m]);
                            assert(0 <= q < ev.len() && ev[q] == (a, o[m]));
                        }
                    }
                }
                assert forall|j: int, q: int| 0 <= j < i + 1 && 0 <= q < g.succ_spec(o[j]).len() implies
                    o.contains(#[trigger] g.succ_spec(o[j])[q].1) by {
                    if j == i {
                        assert(o.contains(ev[q].1));
                    }
                }
            }
        }
        i = i + 1;
    }
    proof {
        let o = view_seq(orig@);
        assert(o[0] == g.l0_spec()) by {
            lemma_append_new_props(seq![g.l0_spec()], Seq::empty());
            lemma_bfs_order_head(&g, i as nat);
        }
        lemma_all_reachable(&g, o);
        o.unique_seq_to_set();
        vstd::seq_lib::seq_to_set_is_finite(o);
    }
    let c = ConstructedGame { game: r, origin: g, loc_map_reverse: orig, obs_map_reverse: obs_rev };
    Some(c)
}

pub proof fn lemma_bfs_order_head<G: AbstractGame>(g: &G, k: nat)
    ensures
        bfs_order(g, k).len() >= 1,
        bfs_order(g, k)[0] == g.l0_spec(),
    decreases k,
{
    if k > 0 {
        lemma_bfs_order_head(g, (k - 1) as nat);
        let s = bfs_order(g, (k - 1) as nat);
        if k - 1 < s.len() {
            lemma_append_new_props(s, targets_of(g.succ_spec(s[k - 1])));
        }
    }
}

} // verus!
