//! Why a profile found in an expansion wins the game the expansion was
//! made of: the knowledge an agent tracks while playing the game follows
//! the agent's location in its knowledge game, and the agents' knowledge
//! together follows the location of the expansion.

use vstd::prelude::*;
use crate::types::{Loc, Act, Agt};
use crate::game::Game;
use crate::construct::{AbstractGame, bfs_order, targets_of, append_new, lemma_append_new_props};
use crate::kbsc::{kbsc_group, kbsc_groups, kbsc_succ_upto};
use crate::mkbsc::MKBSC;
use crate::synthesis::{knowledge_obs, Strat, strat_sel, profile_wins, plays_knowledge, chosen_or_first};
use crate::strategy::{Transducer, wins, wins_within, initial_config, live, is_child, step, moves, goal, mem, profile_of, all_defined};
use crate::memoryless::wins_under;
use crate::stack::{top_knows, lower_level, lowered, base_chain, MKBSCStack};
use crate::copy::same_game;
use crate::synthesis::{plays_lowered, lowered_edge};
use crate::combos::{combos, expand_with, prepend_all};
use crate::profiles::{all_profiles, lemma_all_profiles_contains};
use crate::construct::{ConstructedGame, lemma_bfs_order_head};
use crate::game::lemma_targets_with_contains;
use crate::project::Project;
use crate::construct::{is_expansion, view_seq, obs_rev_view};

verus! {

/// A property that holds of the initial location and is passed on along
/// every transition holds of every location in breadth-first order.
pub proof fn lemma_bfs_all<G: AbstractGame>(g: &G, p: spec_fn(<G::Loc as View>::V) -> bool, k: nat)
    requires
        p(g.l0_spec()),
        forall|v: <G::Loc as View>::V, q: int| p(v) && 0 <= q < g.succ_spec(v).len() ==> p(#[trigger] g.succ_spec(v)[q].1),
    ensures
        forall|j: int| 0 <= j < bfs_order(g, k).len() ==> p(#[trigger] bfs_order(g, k)[j]),
    decreases k,
{
    if k > 0 {
        lemma_bfs_all(g, p, (k - 1) as nat);
        let s = bfs_order(g, (k - 1) as nat);
        if k - 1 < s.len() {
            let ts = targets_of(g.succ_spec(s[k - 1]));
            lemma_append_new_props(s, ts);
            assert forall|j: int| 0 <= j < bfs_order(g, k).len() implies p(#[trigger] bfs_order(g, k)[j]) by {
                let x = bfs_order(g, k)[j];
                assert(append_new(s, ts).contains(x));
                if s.contains(x) {
                    let i = choose|i: int| 0 <= i < s.len() && s[i] == x;
                    assert(p(s[i]));
                } else {
                    let q = choose|q: int| 0 <= q < ts.len() && ts[q] == x;
                    assert(ts[q] == g.succ_spec(s[k - 1])[q].1);
                }
            }
        }
    }
}

/// A transition of the knowledge game lists a nonempty group: the
/// locations with one observation that one action reaches.
pub open spec fn is_group_edge(g: Game, s: Set<nat>, e: (Seq<Act>, (Set<nat>, nat))) -> bool {
    exists|a: int, o: int| 0 <= a < g.n_actions@[0] && 0 <= o < g.obs@[0]@.len()
        && #[trigger] kbsc_group(g, s, a, o) != Set::<nat>::empty()
        && e == (seq![Act(a as u16)], (kbsc_group(g, s, a, o), g.nloc()))
}

proof fn lemma_groups_member(g: Game, s: Set<nat>, a: int, k: nat, e: (Seq<Act>, (Set<nat>, nat)))
    requires
        0 <= a < g.n_actions@[0],
        k <= g.obs@[0]@.len(),
        kbsc_groups(g, s, a, k).contains(e),
    ensures
        is_group_edge(g, s, e),
    decreases k,
{
    if k > 0 {
        let prev = kbsc_groups(g, s, a, (k - 1) as nat);
        let grp = kbsc_group(g, s, a, k - 1);
        if grp != Set::<nat>::empty() && e == (seq![Act(a as u16)], (grp, g.nloc())) {
            assert(is_group_edge(g, s, e));
        } else {
            if grp != Set::<nat>::empty() {
                let full = prev.push((seq![Act(a as u16)], (grp, g.nloc())));
                let q = choose|q: int| 0 <= q < full.len() && #[trigger] full[q] == e;
                assert(q < prev.len());
                assert(prev[q] == e);
            }
            lemma_groups_member(g, s, a, (k - 1) as nat, e);
        }
    }
}

/// Every transition of a knowledge state is a group edge.
pub proof fn lemma_kbsc_succ_member(g: Game, s: Set<nat>, m: nat, e: (Seq<Act>, (Set<nat>, nat)))
    requires
        m <= g.n_actions@[0],
        kbsc_succ_upto(g, s, m).contains(e),
    ensures
        is_group_edge(g, s, e),
    decreases m,
{
    if m > 0 {
        let p = kbsc_succ_upto(g, s, (m - 1) as nat);
        let gs = kbsc_groups(g, s, m - 1, g.obs@[0]@.len());
        let q = choose|q: int| 0 <= q < (p + gs).len() && (p + gs)[q] == e;
        if q < p.len() {
            assert(p[q] == e);
            lemma_kbsc_succ_member(g, s, (m - 1) as nat, e);
        } else {
            assert(gs[q - p.len()] == e);
            lemma_groups_member(g, s, m - 1, g.obs@[0]@.len(), e);
        }
    }
}

proof fn lemma_groups_has(g: Game, s: Set<nat>, a: int, o: int, k: nat)
    requires
        0 <= o < k,
        kbsc_group(g, s, a, o) != Set::<nat>::empty(),
    ensures
        kbsc_groups(g, s, a, k).contains((seq![Act(a as u16)], (kbsc_group(g, s, a, o), g.nloc()))),
    decreases k,
{
    let e = (seq![Act(a as u16)], (kbsc_group(g, s, a, o), g.nloc()));
    let prev = kbsc_groups(g, s, a, (k - 1) as nat);
    if o == k - 1 {
        assert(prev.push(e)[prev.len() as int] == e);
    } else {
        lemma_groups_has(g, s, a, o, (k - 1) as nat);
        let q = choose|q: int| 0 <= q < prev.len() && prev[q] == e;
        let grp = kbsc_group(g, s, a, k - 1);
        if grp != Set::<nat>::empty() {
            assert(prev.push((seq![Act(a as u16)], (grp, g.nloc())))[q] == e);
        }
    }
}

/// Every nonempty group is a transition of the knowledge state.
pub proof fn lemma_kbsc_succ_has(g: Game, s: Set<nat>, a: int, o: int, m: nat)
    requires
        0 <= a < m,
        0 <= o < g.obs@[0]@.len(),
        kbsc_group(g, s, a, o) != Set::<nat>::empty(),
    ensures
        kbsc_succ_upto(g, s, m).contains((seq![Act(a as u16)], (kbsc_group(g, s, a, o), g.nloc()))),
    decreases m,
{
    let e = (seq![Act(a as u16)], (kbsc_group(g, s, a, o), g.nloc()));
    let p = kbsc_succ_upto(g, s, (m - 1) as nat);
    let gs = kbsc_groups(g, s, m - 1, g.obs@[0]@.len());
    if a == m - 1 {
        lemma_groups_has(g, s, a, o, g.obs@[0]@.len());
        let q = choose|q: int| 0 <= q < gs.len() && gs[q] == e;
        assert((p + gs)[p.len() + q] == e);
    } else {
        lemma_kbsc_succ_has(g, s, a, o, (m - 1) as nat);
        let q = choose|q: int| 0 <= q < p.len() && p[q] == e;
        assert((p + gs)[q] == e);
    }
}

/// The projection of `m.g` onto agent `i`, as built.
pub open spec fn proj_game(m: MKBSC, i: int) -> Game {
    m.gki@[i].source().g
}

/// Two locations of the projection onto agent `i` have the same
/// observation exactly when the agent observes the same at their origins.
pub proof fn lemma_proj_obs(m: MKBSC, i: int, q1: int, q2: int)
    requires
        m.wf(),
        0 <= i < m.n(),
        0 <= q1 < proj_game(m, i).nloc(),
        0 <= q2 < proj_game(m, i).nloc(),
    ensures
        m.proj@[i]@.len() == proj_game(m, i).nloc(),
        (m.proj@[i]@[q1].0 as int) < m.g.nloc(),
        (proj_game(m, i).loc@[q1].obs@[0] == proj_game(m, i).loc@[q2].obs@[0])
            <==> (m.g.loc@[m.proj@[i]@[q1].0 as int].obs@[i] == m.g.loc@[m.proj@[i]@[q2].0 as int].obs@[i]),
{
    let pg = proj_game(m, i);
    let pr = Project { g: &m.g, agt: Agt(i as u8) };
    let orig = view_seq(m.proj@[i]@);
    let ob = obs_rev_view(m.proj_obs@[i]@);
    assert(is_expansion(&pr, pg, orig, ob));
    assert(orig[q1] == m.proj@[i]@[q1]);
    assert(orig[q2] == m.proj@[i]@[q2]);
    assert(pr.loc_ok(orig[q1]));
    assert(pg.wf());
    assert(pg.n_agents() == 1);
    let o1 = pg.loc@[q1].obs@[0];
    let o2 = pg.loc@[q2].obs@[0];
    assert(ob[0][o1.0 as int] == pr.obs_spec(orig[q1])[0]);
    assert(ob[0][o2.0 as int] == pr.obs_spec(orig[q2])[0]);
    assert(pg.loc@[q1].obs@.len() == 1);
    assert((o1.0 as int) < pg.obs@[0].len());
    assert((o2.0 as int) < pg.obs@[0].len());
    assert(ob[0].no_duplicates());
}

/// Every location of agent `i`'s knowledge game is a set of locations of
/// its projection that the agent observes alike.
pub proof fn lemma_knowledge_shape(m: MKBSC, i: int, x: int)
    requires
        m.wf(),
        0 <= i < m.n(),
        0 <= x < m.gki@[i].game.nloc(),
    ensures
        forall|q: nat| #[trigger] m.knowledge(i, Loc(x as u32)).contains(q) ==> q < proj_game(m, i).nloc(),
        forall|q1: nat, q2: nat| #[trigger] m.knowledge(i, Loc(x as u32)).contains(q1)
            && #[trigger] m.knowledge(i, Loc(x as u32)).contains(q2) ==>
            proj_game(m, i).loc@[q1 as int].obs@[0] == proj_game(m, i).loc@[q2 as int].obs@[0],
        m.knowledge(i, Loc(x as u32)) != Set::<nat>::empty(),
{
    let c = m.gki@[i];
    let pg = proj_game(m, i);
    let kb = c.source();
    assert(c.wf());
    let n = pg.nloc();
    let p = |v: (Set<nat>, nat)| v.1 == n && v.0 != Set::<nat>::empty()
        && (forall|q: nat| #[trigger] v.0.contains(q) ==> q < n)
        && (forall|q1: nat, q2: nat| #[trigger] v.0.contains(q1) && #[trigger] v.0.contains(q2) ==>
            pg.loc@[q1 as int].obs@[0] == pg.loc@[q2 as int].obs@[0]);
    assert(kb.inv());
    assert(p(kb.l0_spec())) by {
        assert(kb.l0_spec().0.contains(0));
        assert(pg.nloc() >= 1);
    }
    assert forall|v: (Set<nat>, nat), q: int| p(v) && 0 <= q < kb.succ_spec(v).len() implies p(#[trigger] kb.succ_spec(v)[q].1) by {
        let e = kb.succ_spec(v)[q];
        assert(kb.succ_spec(v).contains(e));
        lemma_kbsc_succ_member(pg, v.0, pg.n_actions@[0] as nat, e);
        let (a, o) = choose|a: int, o: int| 0 <= a < pg.n_actions@[0] && 0 <= o < pg.obs@[0]@.len()
            && #[trigger] kbsc_group(pg, v.0, a, o) != Set::<nat>::empty()
            && e == (seq![Act(a as u16)], (kbsc_group(pg, v.0, a, o), pg.nloc()));
        assert forall|q1: nat, q2: nat| #[trigger] e.1.0.contains(q1) && #[trigger] e.1.0.contains(q2) implies
            pg.loc@[q1 as int].obs@[0] == pg.loc@[q2 as int].obs@[0] by {
            assert(pg.loc@[q1 as int].obs@[0].0 == o);
            assert(pg.loc@[q2 as int].obs@[0].0 == o);
        }
    }
    let orig = c.origins();
    lemma_bfs_all(&kb, p, orig.len());
    assert(orig == bfs_order(&kb, orig.len()));
    assert(p(orig[x]));
}

/// A set of naturals with an element no larger than `v` has a least
/// element.
pub proof fn lemma_least(s: Set<nat>, v: nat)
    requires
        s.contains(v),
    ensures
        exists|p: nat| #[trigger] s.contains(p) && forall|q: nat| #[trigger] s.contains(q) ==> p <= q,
    decreases v,
{
    if exists|w: nat| #[trigger] s.contains(w) && w < v {
        let w = choose|w: nat| #[trigger] s.contains(w) && w < v;
        lemma_least(s, w);
    } else {
        assert forall|q: nat| #[trigger] s.contains(q) implies v <= q by {
            if q < v {
                assert(s.contains(q) && q < v);
            }
        }
    }
}

/// What agent `i` knows after a move: where the agent considers location
/// `l` of `m.g` possible at its knowledge location `x`, and a transition
/// with profile `a` leads from `l` to `l2`, the agent's own action leads
/// in its knowledge game from `x` to a knowledge location `y` at which it
/// considers `l2` possible and whose least location shows what it
/// observes at `l2`.
pub proof fn lemma_knowledge_step(m: MKBSC, i: int, x: int, q: nat, a: Seq<Act>, l2: Loc)
    requires
        m.wf(),
        0 <= i < m.n(),
        0 <= x < m.gki@[i].game.nloc(),
        m.knowledge(i, Loc(x as u32)).contains(q),
        (q as int) < m.proj@[i]@.len(),
        m.g.has_edge(m.proj@[i]@[q as int].0 as int, a, l2),
    ensures
        exists|y: int| 0 <= y < m.gki@[i].game.nloc()
            && #[trigger] m.gki@[i].game.has_edge(x, seq![a[i]], Loc(y as u32))
            && m.knowledge_g(i, Loc(y as u32)).contains(l2.0 as nat)
            && knowledge_obs(m, i, y, m.g.loc@[l2.0 as int].obs@[i].0),
{
    let g = m.g;
    let c = m.gki@[i];
    let kg = c.game;
    let kb = c.source();
    let pg = proj_game(m, i);
    let pr = Project { g: &m.g, agt: Agt(i as u8) };
    let orig = view_seq(m.proj@[i]@);
    let ob = obs_rev_view(m.proj_obs@[i]@);
    assert(is_expansion(&pr, pg, orig, ob));
    assert(c.wf());
    lemma_knowledge_shape(m, i, x);
    assert(q < pg.nloc());
    let l = m.proj@[i]@[q as int];
    assert(orig[q as int] == l);
    // the move in the projection
    let k0 = choose|k0: int| 0 <= k0 < g.succ(l.0 as int).len() && g.succ(l.0 as int)[k0] == (a, l2);
    assert(g.wf());
    assert(g.valid_edge(g.succ(l.0 as int)[k0]));
    assert(pr.succ_spec(orig[q as int])[k0] == (seq![a[i]], l2));
    assert(orig.contains(pr.succ_spec(orig[q as int])[k0].1));
    let q2 = choose|q2: int| 0 <= q2 < orig.len() && orig[q2] == l2;
    assert(pr.succ_spec(orig[q as int]).contains((seq![a[i]], orig[q2])));
    assert(pg.has_edge(q as int, seq![a[i]], Loc(q2 as u32)));
    // the group in the knowledge game
    let sk = kb.succ_spec(c.origins()[x]);
    let ks = m.knowledge(i, Loc(x as u32));
    assert(ks == c.origins()[x].0);
    let b = a[i].0 as int;
    assert(pg.wf());
    assert(pg.loc@[q2].obs@.len() == 1);
    let o = pg.loc@[q2].obs@[0].0 as int;
    assert(Act(b as u16) == a[i]);
    assert(seq![Act(b as u16)] =~= seq![a[i]]);
    assert(kbsc_group(pg, ks, b, o).contains(q2 as nat));
    assert(pg.n_actions@ == pr.n_actions_spec());
    lemma_kbsc_succ_has(pg, ks, b, o, pg.n_actions@[0] as nat);
    let grp = kbsc_group(pg, ks, b, o);
    let e = (seq![Act(b as u16)], (grp, pg.nloc()));
    assert(sk.contains(e));
    let qe = choose|qe: int| 0 <= qe < sk.len() && sk[qe] == e;
    assert(c.origins().contains(sk[qe].1));
    let y = choose|y: int| 0 <= y < c.origins().len() && c.origins()[y] == e.1;
    assert(kg.has_edge(x, seq![a[i]], Loc(y as u32)));
    assert(m.knowledge(i, Loc(y as u32)) == grp);
    assert(m.knowledge_g(i, Loc(y as u32)).contains(l2.0 as nat)) by {
        assert(m.proj@[i]@[q2].0 == l2.0);
    }
    lemma_least(grp, q2 as nat);
    let pm = choose|pm: nat| #[trigger] grp.contains(pm) && forall|qq: nat| #[trigger] grp.contains(qq) ==> pm <= qq;
    lemma_proj_obs(m, i, pm as int, q2);
    assert(knowledge_obs(m, i, y, m.g.loc@[l2.0 as int].obs@[i].0));
}

/// The location of agent `i`'s knowledge game that the origin `v` of a
/// transition from `x` with action `b` stands for is a group of that
/// action.
proof fn lemma_kg_edge_group(m: MKBSC, i: int, x: int, b: Act, y: int)
    requires
        m.wf(),
        0 <= i < m.n(),
        0 <= x < m.gki@[i].game.nloc(),
        0 <= y < m.gki@[i].game.nloc(),
        m.gki@[i].game.has_edge(x, seq![b], Loc(y as u32)),
    ensures
        exists|o: int| 0 <= o < proj_game(m, i).obs@[0]@.len()
            && m.knowledge(i, Loc(y as u32)) == #[trigger] kbsc_group(proj_game(m, i), m.knowledge(i, Loc(x as u32)), b.0 as int, o),
{
    let c = m.gki@[i];
    let kb = c.source();
    let pg = proj_game(m, i);
    assert(c.wf());
    let e = (seq![b], c.origins()[y]);
    assert(kb.succ_spec(c.origins()[x]).contains(e));
    lemma_kbsc_succ_member(pg, c.origins()[x].0, pg.n_actions@[0] as nat, e);
    let (a, o) = choose|a: int, o: int| 0 <= a < pg.n_actions@[0] && 0 <= o < pg.obs@[0]@.len()
        && #[trigger] kbsc_group(pg, c.origins()[x].0, a, o) != Set::<nat>::empty()
        && e == (seq![Act(a as u16)], (kbsc_group(pg, c.origins()[x].0, a, o), pg.nloc()));
    assert(e.0[0] == b);
    assert(Act(a as u16) == b);
    assert(pg.wf());
    assert(a <= 65536);
    assert(a as u16 == b.0);
    assert(a == b.0 as int);
    assert(c.game.wf());
    assert((Loc(y as u32).0 as int) == y);
    assert((Loc(x as u32).0 as int) == x);
    assert(m.knowledge(i, Loc(y as u32)) == c.origins()[y].0);
    assert(m.knowledge(i, Loc(x as u32)) == c.origins()[x].0);
    assert(m.knowledge(i, Loc(y as u32)) == kbsc_group(pg, m.knowledge(i, Loc(x as u32)), b.0 as int, o));
}

/// The least location of a knowledge, where the agent observes `o`.
proof fn lemma_obs_witness(m: MKBSC, i: int, y: int, o: u32) -> (p: nat)
    requires
        knowledge_obs(m, i, y, o),
    ensures
        m.knowledge(i, Loc(y as u32)).contains(p),
        (p as int) < m.proj@[i]@.len(),
        m.g.loc@[m.proj@[i]@[p as int].0 as int].obs@[i].0 == o,
{
    choose|p: nat| #[trigger] m.knowledge(i, Loc(y as u32)).contains(p)
        && (forall|q: nat| #[trigger] m.knowledge(i, Loc(y as u32)).contains(q) ==> p <= q)
        && (p as int) < m.proj@[i]@.len()
        && (m.proj@[i]@[p as int].0 as int) < m.g.nloc()
        && m.g.loc@[m.proj@[i]@[p as int].0 as int].obs@[i].0 == o
}

/// Two knowledge locations that one action leads to from `x`, and at
/// whose least locations the agent observes the same, are one.
pub proof fn lemma_knowledge_unique(m: MKBSC, i: int, x: int, b: Act, y1: int, y2: int, o: u32)
    requires
        m.wf(),
        0 <= i < m.n(),
        0 <= x < m.gki@[i].game.nloc(),
        0 <= y1 < m.gki@[i].game.nloc(),
        0 <= y2 < m.gki@[i].game.nloc(),
        m.gki@[i].game.has_edge(x, seq![b], Loc(y1 as u32)),
        m.gki@[i].game.has_edge(x, seq![b], Loc(y2 as u32)),
        knowledge_obs(m, i, y1, o),
        knowledge_obs(m, i, y2, o),
    ensures
        y1 == y2,
{
    let c = m.gki@[i];
    let pg = proj_game(m, i);
    let ks = m.knowledge(i, Loc(x as u32));
    assert(c.wf());
    lemma_kg_edge_group(m, i, x, b, y1);
    lemma_kg_edge_group(m, i, x, b, y2);
    let o1 = choose|o: int| 0 <= o < pg.obs@[0]@.len()
        && m.knowledge(i, Loc(y1 as u32)) == #[trigger] kbsc_group(pg, ks, b.0 as int, o);
    let o2 = choose|o: int| 0 <= o < pg.obs@[0]@.len()
        && m.knowledge(i, Loc(y2 as u32)) == #[trigger] kbsc_group(pg, ks, b.0 as int, o);
    let p1 = lemma_obs_witness(m, i, y1, o);
    let p2 = lemma_obs_witness(m, i, y2, o);
    lemma_knowledge_shape(m, i, y1);
    lemma_knowledge_shape(m, i, y2);
    lemma_proj_obs(m, i, p1 as int, p2 as int);
    assert(kbsc_group(pg, ks, b.0 as int, o1).contains(p1));
    assert(kbsc_group(pg, ks, b.0 as int, o2).contains(p2));
    assert(o1 == o2);
    assert(c.game.wf());
    assert(m.knowledge(i, Loc(y1 as u32)) == c.origins()[y1].0);
    assert(m.knowledge(i, Loc(y2 as u32)) == c.origins()[y2].0);
    assert(c.origins()[y1].0 == c.origins()[y2].0);
    assert(c.source().loc_ok(c.origins()[y1]));
    assert(c.source().loc_ok(c.origins()[y2]));
    assert(c.origins()[y1] == c.origins()[y2]);
    assert(c.origins().no_duplicates());
}

proof fn lemma_expand_with_has(ys: Seq<Loc>, rest: Seq<Seq<Loc>>, y: Loc, r: Seq<Loc>)
    requires
        ys.contains(y),
        rest.contains(r),
    ensures
        expand_with(ys, rest).contains(seq![y] + r),
    decreases ys.len(),
{
    let d = ys.drop_last();
    let k = choose|k: int| 0 <= k < rest.len() && rest[k] == r;
    if ys.last() == y {
        let pa = prepend_all(y, rest);
        assert(pa[k] == seq![y] + r);
        assert((expand_with(d, rest) + pa)[expand_with(d, rest).len() + k] == seq![y] + r);
    } else {
        let q = choose|q: int| 0 <= q < ys.len() && ys[q] == y;
        assert(d[q] == y);
        lemma_expand_with_has(d, rest, y, r);
        let e = expand_with(d, rest);
        let q2 = choose|q2: int| 0 <= q2 < e.len() && e[q2] == seq![y] + r;
        assert((e + prepend_all(ys.last(), rest))[q2] == seq![y] + r);
    }
}

/// Picking an element of each list gives a combination.
pub proof fn lemma_combos_has(lists: Seq<Seq<Loc>>, x: Seq<Loc>)
    requires
        x.len() == lists.len(),
        forall|i: int| 0 <= i < lists.len() ==> #[trigger] lists[i].contains(x[i]),
    ensures
        combos(lists).contains(x),
    decreases lists.len(),
{
    if lists.len() == 0 {
        assert(x =~= Seq::<Loc>::empty());
        assert(combos(lists)[0] == x);
    } else {
        let rest = lists.drop_first();
        assert forall|i: int| 0 <= i < rest.len() implies #[trigger] rest[i].contains(x.drop_first()[i]) by {
            assert(lists[i + 1].contains(x[i + 1]));
        }
        lemma_combos_has(rest, x.drop_first());
        assert(lists[0].contains(x[0]));
        lemma_expand_with_has(lists[0], combos(rest), x[0], x.drop_first());
        assert(seq![x[0]] + x.drop_first() =~= x);
    }
}

proof fn lemma_kept_has(m: MKBSC, s: Seq<Loc>, a: Seq<Act>, xs: Seq<Seq<Loc>>, x: Seq<Loc>)
    requires
        xs.contains(x),
        m.keep(s, a, x),
    ensures
        m.kept(s, a, xs).contains((a, x)),
    decreases xs.len(),
{
    let d = xs.drop_last();
    let p = m.kept(s, a, d);
    if xs.last() == x {
        assert(p.push((a, x))[p.len() as int] == (a, x));
    } else {
        let q = choose|q: int| 0 <= q < xs.len() && xs[q] == x;
        assert(d[q] == x);
        lemma_kept_has(m, s, a, d, x);
        let q2 = choose|q2: int| 0 <= q2 < p.len() && p[q2] == (a, x);
        if m.keep(s, a, xs.last()) {
            assert(p.push((a, xs.last()))[q2] == (a, x));
        }
    }
}

proof fn lemma_succ_upto_has(m: MKBSC, s: Seq<Loc>, ps: Seq<Seq<Act>>, a: Seq<Act>, x: Seq<Loc>)
    requires
        ps.contains(a),
        m.kept(s, a, combos(m.slices(s, a))).contains((a, x)),
    ensures
        m.succ_upto(s, ps).contains((a, x)),
    decreases ps.len(),
{
    let d = ps.drop_last();
    let k = m.kept(s, ps.last(), combos(m.slices(s, ps.last())));
    let p = m.succ_upto(s, d);
    if ps.last() == a {
        let q = choose|q: int| 0 <= q < k.len() && k[q] == (a, x);
        assert((p + k)[p.len() + q] == (a, x));
    } else {
        let q = choose|q: int| 0 <= q < ps.len() && ps[q] == a;
        assert(d[q] == a);
        lemma_succ_upto_has(m, s, d, a, x);
        let q2 = choose|q2: int| 0 <= q2 < p.len() && p[q2] == (a, x);
        assert((p + k)[q2] == (a, x));
    }
}

/// The expansion follows a move of the game: where every agent considers
/// location `l` possible at the location `j` of the expansion `c`, and a
/// transition with profile `a` leads from `l` to `l2`, while each agent's
/// action leads in its knowledge game to a location `x[i]` at which it
/// considers `l2` possible, the expansion has a transition with `a` from
/// `j` to the location that `x` stands for, where every agent considers
/// `l2` possible.
pub proof fn lemma_expansion_step(c: ConstructedGame<MKBSC>, j: int, l: nat, a: Seq<Act>, l2: Loc, x: Seq<Loc>)
    requires
        c.wf(),
        0 <= j < c.game.nloc(),
        c.origin.pre_locs(c.origins()[j]).contains(l),
        c.origin.g.has_edge(l as int, a, l2),
        x.len() == c.origin.n(),
        forall|i: int| 0 <= i < c.origin.n() ==> (#[trigger] x[i]).0 < c.origin.gki@[i].game.nloc()
            && c.origin.gki@[i].game.has_edge(c.origins()[j][i].0 as int, seq![a[i]], x[i])
            && c.origin.knowledge_g(i, x[i]).contains(l2.0 as nat),
    ensures
        exists|k: int| 0 <= k < c.game.nloc() && c.origins()[k] == x && #[trigger] c.game.has_edge(j, a, Loc(k as u32))
            && c.origin.pre_locs(x).contains(l2.0 as nat),
{
    let m = c.origin;
    let g = m.g;
    let s = c.origins()[j];
    assert(m.wf());
    assert(g.wf());
    assert(m.loc_ok(s));
    // the combination
    let sl = m.slices(s, a);
    assert forall|i: int| 0 <= i < sl.len() implies #[trigger] sl[i].contains(x[i]) by {
        lemma_targets_with_contains(m.gki@[i].game.succ(s[i].0 as int), seq![a[i]], x[i]);
    }
    lemma_combos_has(sl, x);
    // kept
    assert((l2.0 as int) < g.nloc()) by {
        let q = choose|q: int| 0 <= q < g.succ(l as int).len() && g.succ(l as int)[q] == (a, l2);
        assert(g.valid_edge(g.succ(l as int)[q]));
    }
    assert(Loc((l2.0 as nat) as u32) == l2);
    assert(m.post_g(s, a).contains(l2.0 as nat));
    assert(m.keep(s, a, x));
    lemma_kept_has(m, s, a, combos(sl), x);
    // the profile is one of all profiles
    assert(g.valid_profile(a)) by {
        let q = choose|q: int| 0 <= q < g.succ(l as int).len() && g.succ(l as int)[q] == (a, l2);
        assert(g.valid_edge(g.succ(l as int)[q]));
    }
    lemma_all_profiles_contains(g.n_actions@, a);
    lemma_succ_upto_has(m, s, all_profiles(g.n_actions@), a, x);
    assert(m.succ_spec(s).contains((a, x)));
    let q = choose|q: int| 0 <= q < m.succ_spec(s).len() && m.succ_spec(s)[q] == (a, x);
    assert(c.origins().contains(m.succ_spec(s)[q].1));
    let k = choose|k: int| 0 <= k < c.origins().len() && c.origins()[k] == x;
    assert(c.game.has_edge(j, a, Loc(k as u32)));
    assert(m.pre_locs(x).contains(l2.0 as nat));
}

proof fn lemma_kept_member(m: MKBSC, s: Seq<Loc>, a: Seq<Act>, xs: Seq<Seq<Loc>>, e: (Seq<Act>, Seq<Loc>))
    requires
        m.kept(s, a, xs).contains(e),
    ensures
        e.0 == a && m.keep(s, a, e.1),
    decreases xs.len(),
{
    let d = xs.drop_last();
    let p = m.kept(s, a, d);
    if m.keep(s, a, xs.last()) && e == (a, xs.last()) {
    } else {
        if m.keep(s, a, xs.last()) {
            let full = p.push((a, xs.last()));
            let q = choose|q: int| 0 <= q < full.len() && #[trigger] full[q] == e;
            assert(p[q] == e);
        }
        lemma_kept_member(m, s, a, d, e);
    }
}

/// Every transition of a location of the expansion is kept: some location
/// that its profile leads to is possible for every agent at its target.
pub proof fn lemma_succ_upto_member(m: MKBSC, s: Seq<Loc>, ps: Seq<Seq<Act>>, e: (Seq<Act>, Seq<Loc>))
    requires
        m.succ_upto(s, ps).contains(e),
    ensures
        m.keep(s, e.0, e.1),
    decreases ps.len(),
{
    let d = ps.drop_last();
    let k = m.kept(s, ps.last(), combos(m.slices(s, ps.last())));
    let p = m.succ_upto(s, d);
    let q = choose|q: int| 0 <= q < (p + k).len() && (p + k)[q] == e;
    if q < p.len() {
        assert(p[q] == e);
        lemma_succ_upto_member(m, s, d, e);
    } else {
        assert(k[q - p.len()] == e);
        lemma_kept_member(m, s, ps.last(), combos(m.slices(s, ps.last())), e);
    }
}

/// The locations every agent considers possible at a location of the
/// expansion are observed alike by every agent.
pub proof fn lemma_pre_locs_obs(m: MKBSC, s: Seq<Loc>, l1: nat, l2: nat, i: int)
    requires
        m.wf(),
        m.state_ok(s),
        m.pre_locs(s).contains(l1),
        m.pre_locs(s).contains(l2),
        0 <= i < m.n(),
    ensures
        m.g.loc@[l1 as int].obs@[i] == m.g.loc@[l2 as int].obs@[i],
{
    assert(m.knowledge_g(i, s[i]).contains(l1));
    assert(m.knowledge_g(i, s[i]).contains(l2));
    let q1 = choose|q: nat| m.knowledge(i, s[i]).contains(q) && #[trigger] m.proj@[i]@[q as int].0 == l1;
    let q2 = choose|q: nat| m.knowledge(i, s[i]).contains(q) && #[trigger] m.proj@[i]@[q as int].0 == l2;
    assert(Loc(s[i].0 as u32) == s[i]);
    lemma_knowledge_shape(m, i, s[i].0 as int);
    lemma_proj_obs(m, i, q1 as int, q2 as int);
}

/// A goal of the expansion is a goal of every location that every agent
/// considers possible there.
pub proof fn lemma_expansion_goal(c: ConstructedGame<MKBSC>, j: int, l: nat)
    requires
        c.wf(),
        0 <= j < c.game.nloc(),
        c.origin.pre_locs(c.origins()[j]).contains(l),
        c.game.loc@[j].is_winning,
    ensures
        c.origin.g.loc@[l as int].is_winning,
{
    let m = c.origin;
    let s = c.origins()[j];
    assert(m.winning_spec(s));
    let i = choose|i: int| 0 <= i < m.n() && #[trigger] m.gki@[i].game.loc@[s[i].0 as int].is_winning;
    let kc = m.gki@[i];
    assert(m.wf());
    assert(kc.wf());
    assert(m.loc_ok(s));
    assert(kc.source().winning_spec(kc.origins()[s[i].0 as int]));
    assert(m.knowledge_g(i, s[i]).contains(l));
    let q = choose|q: nat| m.knowledge(i, s[i]).contains(q) && #[trigger] m.proj@[i]@[q as int].0 == l;
    assert(Loc(s[i].0 as u32) == s[i]);
    lemma_knowledge_shape(m, i, s[i].0 as int);
    let pg = proj_game(m, i);
    let pr = Project { g: &m.g, agt: Agt(i as u8) };
    let orig = view_seq(m.proj@[i]@);
    let ob = obs_rev_view(m.proj_obs@[i]@);
    assert(is_expansion(&pr, pg, orig, ob));
    assert(pg.loc@[q as int].is_winning);
    assert(orig[q as int] == m.proj@[i]@[q as int]);
}

/// Whether a joint action leads anywhere from a location depends only on
/// what the agents observe there.
pub open spec fn moves_observable(g: Game) -> bool {
    forall|l1: int, l2: int, a: Seq<Act>|
        0 <= l1 < g.nloc() && 0 <= l2 < g.nloc()
        && (forall|i: int| 0 <= i < g.n_agents() ==> #[trigger] g.loc@[l1].obs@[i] == g.loc@[l2].obs@[i])
        && #[trigger] g.post_spec(l1, a).len() > 0 ==> #[trigger] g.post_spec(l2, a).len() > 0
}

/// The configuration `cfg` of the game under the knowledge transducers
/// follows the location `j` of the expansion: every agent's state is its
/// knowledge location at `j`, and every agent considers the location of
/// `cfg` possible there.
pub open spec fn follows(c: ConstructedGame<MKBSC>, j: int, cfg: Seq<u32>) -> bool {
    &&& 0 <= j < c.game.nloc()
    &&& cfg.len() == c.origin.n() + 1
    &&& (cfg[0] as int) < c.origin.g.nloc()
    &&& forall|i: int| 0 <= i < c.origin.n() ==> #[trigger] mem(cfg, i) == c.origins()[j][i].0
    &&& c.origin.pre_locs(c.origins()[j]).contains(cfg[0] as nat)
}

/// After a move from `l` to `l2` with the profile the knowledge
/// transducers play at `cfg`, each agent's transducer has a transition,
/// to a knowledge location at which the agent considers `l2` possible and
/// that its action leads to in its knowledge game.
proof fn lemma_knowledge_moves(c: ConstructedGame<MKBSC>, p: Seq<Strat>, ts: Seq<Transducer>, j: int, cfg: Seq<u32>,
    a: Seq<Act>, l2: Loc, i: int)
    requires
        c.wf(),
        top_knows(c.origin, p, ts),
        follows(c, j, cfg),
        profile_of(ts, cfg) == a,
        c.origin.g.has_edge(cfg[0] as int, a, l2),
        0 <= i < c.origin.n(),
    ensures
        ts[i].next(c.origin.g.obs_of(l2.0 as int, i).0, mem(cfg, i)) is Some,
        ({
            let y = ts[i].next(c.origin.g.obs_of(l2.0 as int, i).0, mem(cfg, i))->0;
            &&& (y as int) < c.origin.gki@[i].game.nloc()
            &&& c.origin.gki@[i].game.has_edge(c.origins()[j][i].0 as int, seq![a[i]], Loc(y))
            &&& c.origin.knowledge_g(i, Loc(y)).contains(l2.0 as nat)
        }),
{
    let m = c.origin;
    let s = c.origins()[j];
    let kg = m.gki@[i].game;
    let t = ts[i];
    let x = s[i].0 as int;
    let o = m.g.obs_of(l2.0 as int, i).0;
    assert(m.wf());
    assert(m.loc_ok(s));
    assert(m.gki@[i].wf());
    assert(kg.wf());
    assert(m.knowledge_g(i, s[i]).contains(cfg[0] as nat));
    let q = choose|q: nat| m.knowledge(i, s[i]).contains(q) && #[trigger] m.proj@[i]@[q as int].0 == cfg[0] as nat;
    assert(Loc(x as u32) == s[i]);
    lemma_knowledge_shape(m, i, x);
    lemma_proj_obs(m, i, q as int, q as int);
    lemma_knowledge_step(m, i, x, q, a, l2);
    let y = choose|y: int| 0 <= y < kg.nloc()
        && #[trigger] kg.has_edge(x, seq![a[i]], Loc(y as u32))
        && m.knowledge_g(i, Loc(y as u32)).contains(l2.0 as nat)
        && knowledge_obs(m, i, y, m.g.loc@[l2.0 as int].obs@[i].0);
    assert(plays_knowledge(m, i, p[i].choice@, t));
    assert(t.actions@[x] == a[i]) by {
        assert(profile_of(ts, cfg)[i] == t.actions@[mem(cfg, i) as int]);
    }
    lemma_targets_with_contains(kg.succ(x), seq![a[i]], Loc(y as u32));
    assert(kg.post_spec(x, seq![t.actions@[x]]).contains(Loc(y as u32)));
    assert(Loc(y as u32).0 as int == y);
    assert(knowledge_obs(m, i, Loc(y as u32).0 as int, o));
    assert(t.transitions@.contains_key((o, x as u32)));
    assert(mem(cfg, i) == x as u32);
    let n2 = t.transitions@[(o, x as u32)];
    assert((n2 as int) < kg.nloc());
    assert(kg.post_spec(x, seq![t.actions@[x]]).contains(Loc(n2)));
    lemma_targets_with_contains(kg.succ(x), seq![a[i]], Loc(n2));
    assert(knowledge_obs(m, i, n2 as int, o));
    assert(Loc((n2 as int) as u32) == Loc(n2));
    lemma_knowledge_unique(m, i, x, a[i], n2 as int, y, o);
}

/// From `c`, every play of `strat` reaches a goal within `k` steps, every
/// move leads somewhere, and every transducer follows every move to a
/// location that is no goal.
pub open spec fn wins_surely(g: Game, strat: Seq<Transducer>, c: Seq<u32>, k: nat) -> bool
    decreases k,
{
    goal(g, Loc(c[0])) || (k > 0 && moves(g, strat, c).len() > 0
        && forall|l2: Loc| #[trigger] moves(g, strat, c).contains(l2) ==> goal(g, l2)
            || (all_defined(g, strat, c, l2) && wins_surely(g, strat, step(g, strat, c, l2), (k - 1) as nat)))
}

/// Winning surely is winning.
pub proof fn lemma_surely_wins(g: Game, strat: Seq<Transducer>, c: Seq<u32>, k: nat)
    requires
        wins_surely(g, strat, c, k),
    ensures
        wins_within(g, strat, c, k),
    decreases k,
{
    if !goal(g, Loc(c[0])) {
        let mv = moves(g, strat, c);
        assert(mv.contains(mv[0]));
        assert(live(g, strat, c));
        assert forall|d: Seq<u32>| #[trigger] is_child(g, strat, c, d) implies wins_within(g, strat, d, (k - 1) as nat) by {
            let jj = choose|jj: int| 0 <= jj < mv.len() && !goal(g, #[trigger] mv[jj]) && all_defined(g, strat, c, mv[jj])
                && d == step(g, strat, c, mv[jj]);
            assert(mv.contains(mv[jj]));
            lemma_surely_wins(g, strat, d, (k - 1) as nat);
        }
    }
}

/// Plays of the knowledge transducers follow plays of the expansion: from
/// a configuration that follows a location of the expansion from which
/// the profile wins within `k` moves, the transducers win within `k`
/// steps.
proof fn lemma_knowledge_play(c: ConstructedGame<MKBSC>, p: Seq<Strat>, ts: Seq<Transducer>, j: int, cfg: Seq<u32>, k: nat)
    requires
        c.wf(),
        moves_observable(c.origin.g),
        top_knows(c.origin, p, ts),
        follows(c, j, cfg),
        wins_under(c.game, strat_sel(p, c.loc_map_reverse@), j, k),
    ensures
        wins_surely(c.origin.g, ts, cfg, k),
    decreases k,
{
    let m = c.origin;
    let g = m.g;
    let gk = c.game;
    let sel = strat_sel(p, c.loc_map_reverse@);
    let s = c.origins()[j];
    let l = cfg[0];
    assert(m.wf());
    assert(g.wf());
    assert(m.loc_ok(s));
    if gk.loc@[j].is_winning {
        lemma_expansion_goal(c, j, l as nat);
        assert(goal(g, Loc(cfg[0])));
        return;
    }
    let a = sel(j)->0;
    assert forall|i: int| 0 <= i < p.len() implies #[trigger] c.loc_map_reverse@[j]@[i] == s[i] by {}
    // the transducers play the profile's action
    assert(profile_of(ts, cfg) =~= a) by {
        assert forall|i: int| 0 <= i < ts.len() implies profile_of(ts, cfg)[i] == a[i] by {
            assert(plays_knowledge(m, i, p[i].choice@, ts[i]));
            assert(m.gki@[i].wf());
            assert((mem(cfg, i) as int) < m.gki@[i].game.nloc());
            assert(ts[i].actions@[mem(cfg, i) as int] == chosen_or_first(p[i].choice@, mem(cfg, i) as int));
        }
    }
    // some location considered possible has a move, and so does `l`
    let pk = gk.post_spec(j, a);
    assert(pk.contains(pk[0]));
    lemma_targets_with_contains(gk.succ(j), a, pk[0]);
    crate::memoryless::lemma_post_target(gk, j, a, 0);
    let k1 = pk[0].0 as int;
    assert(gk.has_edge(j, a, Loc(k1 as u32)));
    assert(m.succ_spec(s).contains((a, c.origins()[k1])));
    lemma_succ_upto_member(m, s, crate::profiles::all_profiles(g.n_actions@), (a, c.origins()[k1]));
    let l3 = choose|l3: nat| m.post_g(s, a).contains(l3)
        && forall|i: int| 0 <= i < m.n() ==> #[trigger] m.knowledge_g(i, c.origins()[k1][i]).contains(l3);
    let l0 = choose|l0: nat| m.pre_locs(s).contains(l0) && #[trigger] g.has_edge(l0 as int, a, Loc(l3 as u32));
    lemma_targets_with_contains(g.succ(l0 as int), a, Loc(l3 as u32));
    assert(g.post_spec(l0 as int, a).contains(Loc(l3 as u32)));
    assert forall|i: int| 0 <= i < g.n_agents() implies #[trigger] g.loc@[l0 as int].obs@[i] == g.loc@[l as int].obs@[i] by {
        lemma_pre_locs_obs(m, s, l0, l as nat, i);
    }
    assert(g.post_spec(l as int, a).len() > 0);
    // every move of `l` is followed by every transducer
    assert forall|l2: Loc| #[trigger] g.post_spec(l as int, a).contains(l2) implies all_defined(g, ts, cfg, l2) by {
        lemma_targets_with_contains(g.succ(l as int), a, l2);
        assert forall|i: int| 0 <= i < ts.len() implies
            (#[trigger] ts[i].next(g.obs_of(l2.0 as int, i).0, mem(cfg, i))) is Some by {
            lemma_knowledge_moves(c, p, ts, j, cfg, a, l2, i);
        }
    }
    assert(moves(g, ts, cfg) == g.post_spec(l as int, a));
    let mv = moves(g, ts, cfg);
    // every move that is no goal leads to a configuration following a location of the expansion
    assert forall|l2: Loc| #[trigger] mv.contains(l2) && !goal(g, l2) implies
        wins_surely(g, ts, step(g, ts, cfg, l2), (k - 1) as nat) by {
        let d = step(g, ts, cfg, l2);
        lemma_targets_with_contains(g.succ(l as int), a, l2);
        let jj = choose|jj: int| 0 <= jj < mv.len() && mv[jj] == l2;
        crate::memoryless::lemma_post_target(g, l as int, a, jj);
        let x = Seq::new(m.n(), |i: int| Loc(d[i + 1]));
        assert forall|i: int| 0 <= i < m.n() implies (#[trigger] x[i]).0 < m.gki@[i].game.nloc()
            && m.gki@[i].game.has_edge(s[i].0 as int, seq![a[i]], x[i])
            && m.knowledge_g(i, x[i]).contains(l2.0 as nat) by {
            lemma_knowledge_moves(c, p, ts, j, cfg, a, l2, i);
            assert(d[i + 1] == ts[i].next(g.obs_of(l2.0 as int, i).0, mem(cfg, i))->0);
        }
        assert(m.pre_locs(s).contains(l as nat));
        lemma_expansion_step(c, j, l as nat, a, l2, x);
        let k2 = choose|k2: int| 0 <= k2 < gk.nloc() && c.origins()[k2] == x && #[trigger] gk.has_edge(j, a, Loc(k2 as u32))
            && m.pre_locs(x).contains(l2.0 as nat);
        lemma_targets_with_contains(gk.succ(j), a, Loc(k2 as u32));
        let q = choose|q: int| 0 <= q < pk.len() && pk[q] == Loc(k2 as u32);
        assert(wins_under(gk, sel, pk[q].0 as int, (k - 1) as nat));
        assert(pk[q].0 as int == k2);
        assert(follows(c, k2, d)) by {
            assert(d[0] == l2.0);
            assert forall|i: int| 0 <= i < m.n() implies #[trigger] mem(d, i) == c.origins()[k2][i].0 by {
                assert(x[i] == Loc(d[i + 1]));
            }
        }
        lemma_knowledge_play(c, p, ts, k2, d, (k - 1) as nat);
    }
}

/// The initial configuration follows the initial location of the
/// expansion.
proof fn lemma_follows_initial(c: ConstructedGame<MKBSC>, ts: Seq<Transducer>)
    requires
        c.wf(),
        ts.len() == c.origin.n(),
    ensures
        follows(c, 0, initial_config(ts)),
{
    let m = c.origin;
    let cfg = initial_config(ts);
    assert(m.wf());
    assert(m.g.wf());
    lemma_bfs_order_head(&m, c.origins().len());
    assert(c.origins()[0] == m.l0_spec());
    assert forall|i: int| 0 <= i < m.n() implies #[trigger] m.knowledge_g(i, c.origins()[0][i]).contains(0) by {
        let kc = m.gki@[i];
        assert(kc.wf());
        lemma_bfs_order_head(&kc.source(), kc.origins().len());
        assert(kc.origins()[0] == kc.source().l0_spec());
        assert(m.knowledge(i, Loc(0)).contains(0));
        let pr = Project { g: &m.g, agt: Agt(i as u8) };
        let orig = view_seq(m.proj@[i]@);
        let ob = obs_rev_view(m.proj_obs@[i]@);
        assert(is_expansion(&pr, proj_game(m, i), orig, ob));
        lemma_bfs_order_head(&pr, orig.len());
        assert(orig[0] == m.proj@[i]@[0]);
        assert(m.proj@[i]@[0].0 == 0);
    }
    assert(m.pre_locs(c.origins()[0]).contains(cfg[0] as nat));
    assert forall|i: int| 0 <= i < m.n() implies #[trigger] mem(cfg, i) == c.origins()[0][i].0 by {}
}

/// A profile that wins the expansion `c`, played on the game the expansion
/// was made of by transducers that track each agent's knowledge
/// (`top_knows`), wins that game; where whether a joint action leads
/// anywhere depends only on what the agents observe.
pub proof fn lemma_knowledge_profile_wins(c: ConstructedGame<MKBSC>, p: Seq<Strat>, ts: Seq<Transducer>)
    requires
        c.wf(),
        moves_observable(c.origin.g),
        profile_wins(c.game, c.loc_map_reverse@, p),
        top_knows(c.origin, p, ts),
    ensures
        wins(c.origin.g, ts),
        exists|k: nat| wins_surely(c.origin.g, ts, initial_config(ts), k),
{
    let k = choose|k: nat| wins_under(c.game, strat_sel(p, c.loc_map_reverse@), 0, k);
    lemma_follows_initial(c, ts);
    lemma_knowledge_play(c, p, ts, 0, initial_config(ts), k);
    lemma_surely_wins(c.origin.g, ts, initial_config(ts), k);
}

/// `x1 * n + s1 == x2 * n + s2` with both remainders below `n` fixes both
/// parts.
proof fn lemma_decompose(x1: int, s1: int, x2: int, s2: int, n: int)
    requires
        0 <= x1,
        0 <= x2,
        0 <= s1 < n,
        0 <= s2 < n,
        x1 * n + s1 == x2 * n + s2,
    ensures
        x1 == x2,
        s1 == s2,
{
    if x1 < x2 {
        assert(x1 * n + s1 < x2 * n) by (nonlinear_arith)
            requires 0 <= x1 < x2, 0 <= s1 < n;
    } else if x2 < x1 {
        assert(x2 * n + s2 < x1 * n) by (nonlinear_arith)
            requires 0 <= x2 < x1, 0 <= s2 < n;
    }
}

/// Where the expansion has a move with `a` from `j`, so has every location
/// that every agent considers possible at `j`.
pub proof fn lemma_move_exists(c: ConstructedGame<MKBSC>, j: int, l: nat, a: Seq<Act>)
    requires
        c.wf(),
        moves_observable(c.origin.g),
        0 <= j < c.game.nloc(),
        c.origin.pre_locs(c.origins()[j]).contains(l),
        c.game.post_spec(j, a).len() > 0,
    ensures
        c.origin.g.post_spec(l as int, a).len() > 0,
{
    let m = c.origin;
    let g = m.g;
    let gk = c.game;
    let s = c.origins()[j];
    assert(m.wf());
    assert(m.loc_ok(s));
    let pk = gk.post_spec(j, a);
    assert(pk.contains(pk[0]));
    lemma_targets_with_contains(gk.succ(j), a, pk[0]);
    crate::memoryless::lemma_post_target(gk, j, a, 0);
    let k1 = pk[0].0 as int;
    assert(gk.has_edge(j, a, Loc(k1 as u32)));
    assert(m.succ_spec(s).contains((a, c.origins()[k1])));
    lemma_succ_upto_member(m, s, all_profiles(g.n_actions@), (a, c.origins()[k1]));
    let l3 = choose|l3: nat| m.post_g(s, a).contains(l3)
        && forall|i: int| 0 <= i < m.n() ==> #[trigger] m.knowledge_g(i, c.origins()[k1][i]).contains(l3);
    let l0 = choose|l0: nat| m.pre_locs(s).contains(l0) && #[trigger] g.has_edge(l0 as int, a, Loc(l3 as u32));
    lemma_targets_with_contains(g.succ(l0 as int), a, Loc(l3 as u32));
    assert(g.post_spec(l0 as int, a).contains(Loc(l3 as u32)));
    assert forall|i: int| 0 <= i < g.n_agents() implies #[trigger] g.loc@[l0 as int].obs@[i] == g.loc@[l as int].obs@[i] by {
        lemma_pre_locs_obs(m, s, l0, l, i);
    }
}

/// A move of the game from a location every agent considers possible at
/// `j` is followed by a move of the expansion from `j` to a location
/// whose components are the knowledge locations its agents reach, each
/// showing at its least location what the agent observes after the move.
pub proof fn lemma_successor_tuple(c: ConstructedGame<MKBSC>, j: int, l: nat, a: Seq<Act>, l2: Loc)
    requires
        c.wf(),
        0 <= j < c.game.nloc(),
        c.origin.pre_locs(c.origins()[j]).contains(l),
        c.origin.g.has_edge(l as int, a, l2),
    ensures
        exists|k2: int| 0 <= k2 < c.game.nloc() && #[trigger] c.game.has_edge(j, a, Loc(k2 as u32))
            && c.origin.pre_locs(c.origins()[k2]).contains(l2.0 as nat)
            && forall|i: int| 0 <= i < c.origin.n() ==> {
                &&& c.origin.gki@[i].game.has_edge(c.origins()[j][i].0 as int, seq![a[i]], #[trigger] c.origins()[k2][i])
                &&& knowledge_obs(c.origin, i, c.origins()[k2][i].0 as int, c.origin.g.loc@[l2.0 as int].obs@[i].0)
            },
{
    let m = c.origin;
    let g = m.g;
    let s = c.origins()[j];
    assert(m.wf());
    assert(m.loc_ok(s));
    let pick = |i: int| choose|y: int| 0 <= y < m.gki@[i].game.nloc()
        && #[trigger] m.gki@[i].game.has_edge(s[i].0 as int, seq![a[i]], Loc(y as u32))
        && m.knowledge_g(i, Loc(y as u32)).contains(l2.0 as nat)
        && knowledge_obs(m, i, y, g.loc@[l2.0 as int].obs@[i].0);
    let x = Seq::new(m.n(), |i: int| Loc(pick(i) as u32));
    assert forall|i: int| 0 <= i < m.n() implies (#[trigger] x[i]).0 < m.gki@[i].game.nloc()
        && m.gki@[i].game.has_edge(s[i].0 as int, seq![a[i]], x[i])
        && m.knowledge_g(i, x[i]).contains(l2.0 as nat)
        && knowledge_obs(m, i, x[i].0 as int, g.loc@[l2.0 as int].obs@[i].0) by {
        assert(m.knowledge_g(i, s[i]).contains(l));
        let q = choose|q: nat| m.knowledge(i, s[i]).contains(q) && #[trigger] m.proj@[i]@[q as int].0 == l;
        assert(Loc(s[i].0 as u32) == s[i]);
        lemma_knowledge_shape(m, i, s[i].0 as int);
        lemma_proj_obs(m, i, q as int, q as int);
        lemma_knowledge_step(m, i, s[i].0 as int, q, a, l2);
        assert(m.gki@[i].wf());
        assert(m.gki@[i].game.wf());
        assert(pick(i) as u32 as int == pick(i));
    }
    lemma_expansion_step(c, j, l, a, l2, x);
    let k2 = choose|k2: int| 0 <= k2 < c.game.nloc() && c.origins()[k2] == x && #[trigger] c.game.has_edge(j, a, Loc(k2 as u32))
        && m.pre_locs(x).contains(l2.0 as nat);
    assert(c.game.has_edge(j, a, Loc(k2 as u32)));
}

/// The configuration `cfg` of the game under lowered transducers follows
/// the configuration `ck` of the expansion under `t`: each agent's state
/// is its state in `t` and its knowledge location at the location of
/// `ck`, and every agent considers the location of `cfg` possible there.
pub open spec fn follows_lowered(c: ConstructedGame<MKBSC>, t: Seq<Transducer>, ck: Seq<u32>, cfg: Seq<u32>) -> bool {
    &&& (ck[0] as int) < c.game.nloc()
    &&& ck.len() == c.origin.n() + 1
    &&& cfg.len() == c.origin.n() + 1
    &&& t.len() == c.origin.n()
    &&& (cfg[0] as int) < c.origin.g.nloc()
    &&& forall|i: int| 0 <= i < c.origin.n() ==> (#[trigger] mem(ck, i) as int) < t[i].actions@.len()
        && mem(cfg, i) as int == mem(ck, i) * c.origin.gki@[i].game.nloc() + c.origins()[ck[0] as int][i].0
    &&& c.origin.pre_locs(c.origins()[ck[0] as int]).contains(cfg[0] as nat)
}

/// One agent's lowered transducer follows a move of the game that the
/// expansion follows with a move its transducer takes.
proof fn lemma_lowered_agent(c: ConstructedGame<MKBSC>, t: Seq<Transducer>, u: Seq<Transducer>, ck: Seq<u32>, cfg: Seq<u32>,
    a: Seq<Act>, l2: Loc, k2: int, i: int)
    requires
        c.wf(),
        lower_level(c, t, u),
        forall|q: int| 0 <= q < t.len() ==> (#[trigger] t[q]).wf(),
        follows_lowered(c, t, ck, cfg),
        profile_of(t, ck) == a,
        0 <= k2 < c.game.nloc(),
        c.game.has_edge(ck[0] as int, a, Loc(k2 as u32)),
        c.origin.gki@[i].game.has_edge(c.origins()[ck[0] as int][i].0 as int, seq![a[i]], c.origins()[k2][i]),
        knowledge_obs(c.origin, i, c.origins()[k2][i].0 as int, c.origin.g.loc@[l2.0 as int].obs@[i].0),
        t[i].next(c.game.obs_of(k2, i).0, mem(ck, i)) is Some,
        0 <= i < c.origin.n(),
    ensures
        u[i].next(c.origin.g.obs_of(l2.0 as int, i).0, mem(cfg, i)) is Some,
        u[i].next(c.origin.g.obs_of(l2.0 as int, i).0, mem(cfg, i))->0 as int
            == t[i].next(c.game.obs_of(k2, i).0, mem(ck, i))->0 * c.origin.gki@[i].game.nloc() + c.origins()[k2][i].0,
{
    let m = c.origin;
    let gk = c.game;
    let j = ck[0] as int;
    let ti = t[i];
    let ui = u[i];
    let kg = m.gki@[i].game;
    let ns = kg.nloc();
    let x = mem(ck, i) as int;
    let sj = c.origins()[j][i].0 as int;
    let y = c.origins()[k2][i];
    let o = m.g.obs_of(l2.0 as int, i).0;
    let oj = gk.obs_of(k2, i).0;
    assert(m.wf());
    assert(m.loc_ok(c.origins()[j]));
    assert(m.loc_ok(c.origins()[k2]));
    assert(gk.wf());
    assert(plays_lowered(c, i, ti, ui));
    // the observation of the expansion stands for the agent's knowledge location
    assert(gk.loc@[k2].obs@.len() == gk.n_agents());
    assert((oj as int) < gk.obs@[i]@.len());
    assert(c.obs_origins()[i][oj as int] == m.obs_spec(c.origins()[k2])[i]);
    assert(c.obs_map_reverse@[i]@[oj as int] == y);
    assert(ti.actions@[x] == a[i]) by {
        assert(profile_of(t, ck)[i] == ti.actions@[mem(ck, i) as int]);
    }
    lemma_targets_with_contains(kg.succ(sj), seq![a[i]], y);
    assert(lowered_edge(c, i, ti, x, sj, y, o, oj as int));
    assert(((x * ns + sj) as u32) == mem(cfg, i));
    assert(ui.transitions@.contains_key((o, mem(cfg, i))));
    let (x2, s2, y2, oj2) = choose|x2: int, s2: int, y2: Loc, oj2: int| #[trigger] lowered_edge(c, i, ti, x2, s2, y2, o, oj2)
        && mem(cfg, i) == x2 * ns + s2
        && ui.transitions@[(o, mem(cfg, i))] == ti.next(oj2 as u32, x2 as u32).unwrap() * ns + y2.0;
    lemma_decompose(x2, s2, x, sj, ns as int);
    lemma_targets_with_contains(kg.succ(sj), seq![a[i]], y2);
    assert(m.gki@[i].wf());
    assert(kg.wf());
    assert((y2.0 as int) < kg.nloc()) by {
        crate::game::lemma_targets_with_contains(kg.succ(sj), seq![ti.actions@[x2]], y2);
        let q = choose|q: int| 0 <= q < kg.succ(sj).len() && kg.succ(sj)[q] == (seq![ti.actions@[x2]], y2);
        assert(kg.valid_edge(kg.succ(sj)[q]));
    }
    assert(Loc(y2.0 as int as u32) == y2);
    assert(Loc(y.0 as int as u32) == y);
    lemma_knowledge_unique(m, i, sj, a[i], y2.0 as int, y.0 as int, o);
    assert(y2 == y);
    assert(c.obs_origins()[i].no_duplicates());
    assert(c.obs_origins()[i][oj2] == y2);
    assert(c.obs_origins()[i][oj as int] == y);
    assert(oj2 == oj as int);
}

/// Plays of the lowered transducers follow plays of `t` on the expansion:
/// from a configuration that follows one from which `t` wins surely within
/// `k` steps, the lowered transducers win surely within `k` steps.
proof fn lemma_lowered_play(c: ConstructedGame<MKBSC>, t: Seq<Transducer>, u: Seq<Transducer>, ck: Seq<u32>, cfg: Seq<u32>, k: nat)
    requires
        c.wf(),
        moves_observable(c.origin.g),
        lower_level(c, t, u),
        forall|q: int| 0 <= q < t.len() ==> (#[trigger] t[q]).wf(),
        follows_lowered(c, t, ck, cfg),
        wins_surely(c.game, t, ck, k),
    ensures
        wins_surely(c.origin.g, u, cfg, k),
    decreases k,
{
    let m = c.origin;
    let g = m.g;
    let gk = c.game;
    let j = ck[0] as int;
    let l = cfg[0];
    let s = c.origins()[j];
    assert(m.wf());
    assert(g.wf());
    assert(m.loc_ok(s));
    if goal(gk, Loc(ck[0])) {
        lemma_expansion_goal(c, j, l as nat);
        return;
    }
    let a = profile_of(t, ck);
    assert(profile_of(u, cfg) =~= a) by {
        assert forall|i: int| 0 <= i < u.len() implies profile_of(u, cfg)[i] == a[i] by {
            assert(plays_lowered(c, i, t[i], u[i]));
            assert((s[i].0 as int) < m.gki@[i].game.nloc());
            assert(u[i].actions@[mem(cfg, i) as int] == t[i].actions@[mem(ck, i) as int]);
        }
    }
    assert(moves(gk, t, ck) == gk.post_spec(j, a));
    lemma_move_exists(c, j, l as nat, a);
    let mv = moves(g, u, cfg);
    assert(mv == g.post_spec(l as int, a));
    assert forall|l2: Loc| #[trigger] mv.contains(l2) && !goal(g, l2) implies
        all_defined(g, u, cfg, l2) && wins_surely(g, u, step(g, u, cfg, l2), (k - 1) as nat) by {
        lemma_targets_with_contains(g.succ(l as int), a, l2);
        lemma_successor_tuple(c, j, l as nat, a, l2);
        let k2 = choose|k2: int| 0 <= k2 < gk.nloc() && #[trigger] gk.has_edge(j, a, Loc(k2 as u32))
            && m.pre_locs(c.origins()[k2]).contains(l2.0 as nat)
            && forall|i: int| 0 <= i < m.n() ==> {
                &&& m.gki@[i].game.has_edge(s[i].0 as int, seq![a[i]], #[trigger] c.origins()[k2][i])
                &&& knowledge_obs(m, i, c.origins()[k2][i].0 as int, g.loc@[l2.0 as int].obs@[i].0)
            };
        lemma_targets_with_contains(gk.succ(j), a, Loc(k2 as u32));
        assert(moves(gk, t, ck).contains(Loc(k2 as u32)));
        if goal(gk, Loc(k2 as u32)) {
            lemma_expansion_goal(c, k2, l2.0 as nat);
            assert(false);
        }
        assert(all_defined(gk, t, ck, Loc(k2 as u32)));
        let dk = step(gk, t, ck, Loc(k2 as u32));
        let d = step(g, u, cfg, l2);
        assert forall|i: int| 0 <= i < u.len() implies
            (#[trigger] u[i].next(g.obs_of(l2.0 as int, i).0, mem(cfg, i))) is Some
            && u[i].next(g.obs_of(l2.0 as int, i).0, mem(cfg, i))->0 as int
                == t[i].next(gk.obs_of(k2, i).0, mem(ck, i))->0 * m.gki@[i].game.nloc() + c.origins()[k2][i].0 by {
            assert(t[i].next(gk.obs_of(Loc(k2 as u32).0 as int, i).0, mem(ck, i)) is Some);
            lemma_lowered_agent(c, t, u, ck, cfg, a, l2, k2, i);
        }
        assert(all_defined(g, u, cfg, l2));
        crate::memoryless::lemma_post_target(g, l as int, a, choose|jj: int| 0 <= jj < mv.len() && mv[jj] == l2);
        assert(follows_lowered(c, t, dk, d)) by {
            assert(dk[0] == k2 as u32);
            assert(d[0] == l2.0);
            assert forall|i: int| 0 <= i < m.n() implies (#[trigger] mem(dk, i) as int) < t[i].actions@.len()
                && mem(d, i) as int == mem(dk, i) * m.gki@[i].game.nloc() + c.origins()[dk[0] as int][i].0 by {
                assert(mem(dk, i) == t[i].next(gk.obs_of(k2, i).0, mem(ck, i))->0);
                assert(t[i].wf());
                assert(t[i].transitions@.contains_key((gk.obs_of(k2, i).0, mem(ck, i))));
                assert(mem(d, i) == u[i].next(g.obs_of(l2.0 as int, i).0, mem(cfg, i))->0);
            }
        }
        lemma_lowered_play(c, t, u, dk, d, (k - 1) as nat);
    }
}

/// A profile of transducers that wins the expansion `c` surely, lowered
/// to the game the expansion was made of, wins that game surely; where
/// whether a joint action leads anywhere depends only on what the agents
/// observe.
pub proof fn lemma_lowered_wins(c: ConstructedGame<MKBSC>, t: Seq<Transducer>, u: Seq<Transducer>)
    requires
        c.wf(),
        moves_observable(c.origin.g),
        lower_level(c, t, u),
        forall|q: int| 0 <= q < t.len() ==> (#[trigger] t[q]).wf(),
        exists|k: nat| wins_surely(c.game, t, initial_config(t), k),
    ensures
        exists|k: nat| wins_surely(c.origin.g, u, initial_config(u), k),
        forall|q: int| 0 <= q < u.len() ==> (#[trigger] u[q]).wf(),
{
    let k = choose|k: nat| wins_surely(c.game, t, initial_config(t), k);
    let ck = initial_config(t);
    let cfg = initial_config(u);
    lemma_follows_initial(c, t);
    assert(c.origin.wf());
    assert(c.origin.g.wf());
    assert forall|q: int| 0 <= q < u.len() implies (#[trigger] u[q]).wf() by {
        assert(plays_lowered(c, q, t[q], u[q]));
    }
    assert(follows_lowered(c, t, ck, cfg)) by {
        assert forall|i: int| 0 <= i < c.origin.n() implies (#[trigger] mem(ck, i) as int) < t[i].actions@.len()
            && mem(cfg, i) as int == mem(ck, i) * c.origin.gki@[i].game.nloc() + c.origins()[ck[0] as int][i].0 by {
            assert(t[i].wf());
            assert(mem(ck, i) == 0);
            assert(mem(cfg, i) == 0);
            assert(c.origins()[0][i].0 == 0);
        }
    }
    lemma_lowered_play(c, t, u, ck, cfg, k);
}

/// `same_game` holds both ways.
pub proof fn lemma_same_game_sym(a: Game, b: Game)
    requires
        same_game(a, b),
    ensures
        same_game(b, a),
{
    assert forall|i: int, o: int| 0 <= i < b.obs@.len() && 0 <= o < b.obs@[i]@.len() implies
        #[trigger] b.obs_set_spec(i, o) == a.obs_set_spec(i, o) by {
        assert(a.obs@[i]@.len() == b.obs@[i]@.len());
    }
    assert forall|l: int| 0 <= l < b.loc@.len() implies {
        &&& (#[trigger] b.loc@[l]).is_winning == a.loc@[l].is_winning
        &&& b.loc@[l].obs@ == a.loc@[l].obs@
        &&& b.loc@[l].obs_offset@ == a.loc@[l].obs_offset@
        &&& b.succ(l) == a.succ(l)
        &&& b.pred(l) == a.pred(l)
    } by {
        assert(a.loc@[l].is_winning == b.loc@[l].is_winning);
    }
}

/// Whether a joint action leads anywhere carries over between games that
/// agree.
pub proof fn lemma_same_game_observable(a: Game, b: Game)
    requires
        same_game(a, b),
        moves_observable(a),
    ensures
        moves_observable(b),
{
    assert forall|l1: int, l2: int, x: Seq<Act>|
        0 <= l1 < b.nloc() && 0 <= l2 < b.nloc()
        && (forall|i: int| 0 <= i < b.n_agents() ==> #[trigger] b.loc@[l1].obs@[i] == b.loc@[l2].obs@[i])
        && #[trigger] b.post_spec(l1, x).len() > 0 implies #[trigger] b.post_spec(l2, x).len() > 0 by {
        assert(a.loc@[l1].obs@ == b.loc@[l1].obs@);
        assert(a.loc@[l2].obs@ == b.loc@[l2].obs@);
        assert(a.succ(l1) == b.succ(l1));
        assert(a.succ(l2) == b.succ(l2));
        assert(forall|i: int| 0 <= i < a.n_agents() ==> #[trigger] a.loc@[l1].obs@[i] == a.loc@[l2].obs@[i]);
        assert(a.post_spec(l1, x) == b.post_spec(l1, x));
        assert(a.post_spec(l2, x) == b.post_spec(l2, x));
        assert(a.post_spec(l1, x).len() > 0);
        assert(a.post_spec(l2, x).len() > 0);
    }
}

/// Winning surely carries over between games that agree.
pub proof fn lemma_same_game_surely(a: Game, b: Game, t: Seq<Transducer>, c: Seq<u32>, k: nat)
    requires
        same_game(a, b),
        a.wf(),
        (c[0] as int) < a.nloc(),
        wins_surely(a, t, c, k),
    ensures
        wins_surely(b, t, c, k),
    decreases k,
{
    let l = c[0] as int;
    assert(a.loc@[l].is_winning == b.loc@[l].is_winning);
    if !goal(a, Loc(c[0])) {
        assert(a.succ(l) == b.succ(l));
        let pa = profile_of(t, c);
        assert(moves(a, t, c) == moves(b, t, c));
        assert forall|l2: Loc| #[trigger] moves(b, t, c).contains(l2) implies goal(b, l2)
            || (all_defined(b, t, c, l2) && wins_surely(b, t, step(b, t, c, l2), (k - 1) as nat)) by {
            let mv = moves(a, t, c);
            let jj = choose|jj: int| 0 <= jj < mv.len() && mv[jj] == l2;
            crate::memoryless::lemma_post_target(a, l, pa, jj);
            assert(a.loc@[l2.0 as int].is_winning == b.loc@[l2.0 as int].is_winning);
            assert(a.loc@[l2.0 as int].obs@ == b.loc@[l2.0 as int].obs@);
            assert(step(a, t, c, l2) =~= step(b, t, c, l2));
            if !goal(a, l2) {
                assert(mv.contains(l2));
                assert(all_defined(a, t, c, l2));
                assert forall|i: int| 0 <= i < t.len() implies
                    (#[trigger] t[i].next(b.obs_of(l2.0 as int, i).0, crate::strategy::mem(c, i))) is Some by {
                    assert(t[i].next(a.obs_of(l2.0 as int, i).0, crate::strategy::mem(c, i)) is Some);
                }
                assert(all_defined(b, t, c, l2));
                lemma_same_game_surely(a, b, t, step(a, t, c, l2), (k - 1) as nat);
            }
        }
    }
}

/// In an expansion, no two locations look alike to every agent, so
/// whether a joint action leads anywhere depends only on what the agents
/// observe.
pub proof fn lemma_expansion_observable(c: ConstructedGame<MKBSC>)
    requires
        c.wf(),
    ensures
        moves_observable(c.game),
{
    let gk = c.game;
    let m = c.origin;
    assert(gk.wf());
    assert(m.wf());
    assert forall|l1: int, l2: int, x: Seq<Act>|
        0 <= l1 < gk.nloc() && 0 <= l2 < gk.nloc()
        && (forall|i: int| 0 <= i < gk.n_agents() ==> #[trigger] gk.loc@[l1].obs@[i] == gk.loc@[l2].obs@[i])
        && #[trigger] gk.post_spec(l1, x).len() > 0 implies #[trigger] gk.post_spec(l2, x).len() > 0 by {
        assert(m.loc_ok(c.origins()[l1]));
        assert(m.loc_ok(c.origins()[l2]));
        assert forall|i: int| 0 <= i < m.n() implies c.origins()[l1][i] == c.origins()[l2][i] by {
            assert(gk.loc@[l1].obs@[i] == gk.loc@[l2].obs@[i]);
            assert(c.obs_origins()[i][gk.loc@[l1].obs@[i].0 as int] == m.obs_spec(c.origins()[l1])[i]);
            assert(c.obs_origins()[i][gk.loc@[l2].obs@[i].0 as int] == m.obs_spec(c.origins()[l2])[i]);
        }
        assert(c.origins()[l1] =~= c.origins()[l2]);
        assert(c.origins().no_duplicates());
    }
}

/// Where no two locations of the base game that look alike to every agent
/// differ in whether a joint action leads anywhere, neither do those of
/// the game at any level of the stack, nor of what its expansion was made
/// of.
proof fn lemma_level_observable(st: MKBSCStack, k: int)
    requires
        st.wf(),
        moves_observable(st.base),
        0 <= k < st.stack@.len(),
    ensures
        moves_observable(st.game_at(k)),
        moves_observable(st.stack@[k].origin.g),
{
    if k > 0 {
        assert(st.stack@[k - 1].wf());
        lemma_expansion_observable(st.stack@[k - 1]);
    }
    assert(same_game(st.game_at(k), st.stack@[k].origin.g));
    lemma_same_game_observable(st.game_at(k), st.stack@[k].origin.g);
}

/// Lowering level after level keeps winning surely, down to the base game.
proof fn lemma_chain_wins(st: MKBSCStack, hi: int, a: Seq<Transducer>, b: Seq<Transducer>)
    requires
        st.wf(),
        moves_observable(st.base),
        0 <= hi <= st.stack@.len(),
        lowered(st.stack@, hi, 0, a, b),
        forall|q: int| 0 <= q < a.len() ==> (#[trigger] a[q]).wf(),
        exists|k: nat| wins_surely(st.game_at(hi), a, initial_config(a), k),
    ensures
        exists|k: nat| wins_surely(st.base, b, initial_config(b), k),
    decreases hi,
{
    if hi > 0 {
        let c = st.stack@[hi - 1];
        let mid = choose|mid: Seq<Transducer>| #[trigger] lower_level(st.stack@[hi - 1], a, mid)
            && lowered(st.stack@, hi - 1, 0, mid, b);
        assert(c.wf());
        assert(st.game_at(hi) == c.game);
        lemma_level_observable(st, hi - 1);
        lemma_lowered_wins(c, a, mid);
        let k = choose|k: nat| wins_surely(c.origin.g, mid, initial_config(mid), k);
        assert(same_game(st.game_at(hi - 1), c.origin.g));
        lemma_same_game_sym(st.game_at(hi - 1), c.origin.g);
        assert(c.origin.wf());
        assert(c.origin.g.wf());
        lemma_same_game_surely(c.origin.g, st.game_at(hi - 1), mid, initial_config(mid), k);
        lemma_chain_wins(st, hi - 1, mid, b);
    }
}

/// The synthesis law: a profile of strategies that wins the top expansion
/// of the stack, played on the base game by transducers that track each
/// agent's knowledge at every level (`base_chain`), wins the base game;
/// where no two locations of the base game that look alike to every agent
/// differ in whether a joint action leads anywhere.
pub proof fn lemma_base_chain_wins(st: MKBSCStack, p: Seq<Strat>, t: Seq<Transducer>)
    requires
        st.wf(),
        st.stack@.len() > 0,
        moves_observable(st.base),
        profile_wins(st.stack@.last().game, st.stack@.last().loc_map_reverse@, p),
        base_chain(st.stack@, p, t),
    ensures
        wins(st.base, t),
{
    let n = st.stack@.len() as int;
    let c = st.stack@[n - 1];
    assert(st.stack@.last() == c);
    let ts = choose|ts: Seq<Transducer>| #[trigger] top_knows(c.origin, p, ts) && lowered(st.stack@, n - 1, 0, ts, t);
    assert(c.wf());
    lemma_level_observable(st, n - 1);
    lemma_knowledge_profile_wins(c, p, ts);
    let k = choose|k: nat| wins_surely(c.origin.g, ts, initial_config(ts), k);
    assert(same_game(st.game_at(n - 1), c.origin.g));
    lemma_same_game_sym(st.game_at(n - 1), c.origin.g);
    assert(c.origin.wf());
    assert(c.origin.g.wf());
    lemma_same_game_surely(c.origin.g, st.game_at(n - 1), ts, initial_config(ts), k);
    assert forall|q: int| 0 <= q < ts.len() implies (#[trigger] ts[q]).wf() by {
        assert(plays_knowledge(c.origin, q, p[q].choice@, ts[q]));
    }
    lemma_chain_wins(st, n - 1, ts, t);
    let k2 = choose|k2: nat| wins_surely(st.base, t, initial_config(t), k2);
    lemma_surely_wins(st.base, t, initial_config(t), k2);
}

/// Where `l1` and `l2` look alike to every agent, every profile with a
/// move from `l1` has one from `l2`.
pub open spec fn pair_ok(g: Game, l1: int, l2: int) -> bool {
    (forall|i: int| 0 <= i < g.n_agents() ==> #[trigger] g.loc@[l1].obs@[i] == g.loc@[l2].obs@[i])
        ==> forall|q: int| 0 <= q < g.succ(l1).len() ==> #[trigger] g.post_spec(l2, g.succ(l1)[q].0).len() > 0
}

proof fn lemma_pairs_observable(g: Game)
    requires
        g.wf(),
    ensures
        moves_observable(g) <==> forall|l1: int, l2: int| 0 <= l1 < g.nloc() && 0 <= l2 < g.nloc() ==> #[trigger] pair_ok(g, l1, l2),
{
    if moves_observable(g) {
        assert forall|l1: int, l2: int| 0 <= l1 < g.nloc() && 0 <= l2 < g.nloc() implies #[trigger] pair_ok(g, l1, l2) by {
            if forall|i: int| 0 <= i < g.n_agents() ==> #[trigger] g.loc@[l1].obs@[i] == g.loc@[l2].obs@[i] {
                assert forall|q: int| 0 <= q < g.succ(l1).len() implies #[trigger] g.post_spec(l2, g.succ(l1)[q].0).len() > 0 by {
                    let e = g.succ(l1)[q];
                    lemma_targets_with_contains(g.succ(l1), e.0, e.1);
                    assert(g.post_spec(l1, e.0).contains(e.1));
                }
            }
        }
    }
    if forall|l1: int, l2: int| 0 <= l1 < g.nloc() && 0 <= l2 < g.nloc() ==> #[trigger] pair_ok(g, l1, l2) {
        assert forall|l1: int, l2: int, a: Seq<Act>|
            0 <= l1 < g.nloc() && 0 <= l2 < g.nloc()
            && (forall|i: int| 0 <= i < g.n_agents() ==> #[trigger] g.loc@[l1].obs@[i] == g.loc@[l2].obs@[i])
            && #[trigger] g.post_spec(l1, a).len() > 0 implies #[trigger] g.post_spec(l2, a).len() > 0 by {
            let pa = g.post_spec(l1, a);
            assert(pa.contains(pa[0]));
            lemma_targets_with_contains(g.succ(l1), a, pa[0]);
            let q = choose|q: int| 0 <= q < g.succ(l1).len() && g.succ(l1)[q] == (a, pa[0]);
            assert(pair_ok(g, l1, l2));
            assert(g.post_spec(l2, g.succ(l1)[q].0).len() > 0);
        }
    }
}

fn same_obs_all(g: &Game, l1: usize, l2: usize) -> (r: bool)
    requires
        g.wf(),
        l1 < g.nloc(),
        l2 < g.nloc(),
    ensures
        r == forall|i: int| 0 <= i < g.n_agents() ==> #[trigger] g.loc@[l1 as int].obs@[i] == g.loc@[l2 as int].obs@[i],
{
    let na = g.n_actions.len();
    assert(g.loc@[l1 as int].obs@.len() == g.n_agents());
    assert(g.loc@[l2 as int].obs@.len() == g.n_agents());
    let mut i: usize = 0;
    while i < na
        invariant
            na == g.n_agents(),
            l1 < g.loc@.len(),
            l2 < g.loc@.len(),
            g.loc@[l1 as int].obs@.len() == na,
            g.loc@[l2 as int].obs@.len() == na,
            i <= na,
            forall|k: int| 0 <= k < i ==> #[trigger] g.loc@[l1 as int].obs@[k] == g.loc@[l2 as int].obs@[k],
        decreases na - i,
    {
        if g.loc[l1].obs[i].0 != g.loc[l2].obs[i].0 {
            return false;
        }
        i = i + 1;
    }
    true
}

/// Whether a joint action leads anywhere depends only on what the agents
/// observe (`moves_observable`).
pub fn check_moves_observable(g: &Game) -> (r: bool)
    requires
        g.wf(),
    ensures
        r == moves_observable(*g),
{
    proof {
        lemma_pairs_observable(*g);
    }
    let n = g.loc.len();
    let mut l1: usize = 0;
    while l1 < n
        invariant
            g.wf(),
            n == g.nloc(),
            l1 <= n,
            forall|a: int, b: int| 0 <= a < l1 && 0 <= b < n ==> #[trigger] pair_ok(*g, a, b),
        decreases n - l1,
    {
        let mut l2: usize = 0;
        while l2 < n
            invariant
                g.wf(),
                n == g.nloc(),
                l1 < n,
                l2 <= n,
                forall|a: int, b: int| 0 <= a < l1 && 0 <= b < n ==> #[trigger] pair_ok(*g, a, b),
                forall|b: int| 0 <= b < l2 ==> #[trigger] pair_ok(*g, l1 as int, b),
            decreases n - l2,
        {
            if same_obs_all(g, l1, l2) {
                let es = &g.loc[l1].successors;
                let mut q: usize = 0;
                while q < es.len()
                    invariant
                        g.wf(),
                        n == g.nloc(),
                        l1 < n,
                        l2 < n,
                        *es == g.loc@[l1 as int].successors,
                        forall|i: int| 0 <= i < g.n_agents() ==> #[trigger] g.loc@[l1 as int].obs@[i] == g.loc@[l2 as int].obs@[i],
                        q <= es@.len(),
                        forall|k: int| 0 <= k < q ==> #[trigger] g.post_spec(l2 as int, g.succ(l1 as int)[k].0).len() > 0,
                    decreases es@.len() - q,
                {
                    assert(g.succ(l1 as int)[q as int].0 == es@[q as int].0@);
                    if g.post(Loc(l2 as u32), &es[q].0).len() == 0 {
                        proof {
                            assert(g.post_spec(l2 as int, g.succ(l1 as int)[q as int].0).len() == 0);
                            assert(!pair_ok(*g, l1 as int, l2 as int));
                            lemma_pairs_observable(*g);
                        }
                        return false;
                    }
                    q = q + 1;
                }
            }
            l2 = l2 + 1;
        }
        l1 = l1 + 1;
    }
    true
}

} // verus!
