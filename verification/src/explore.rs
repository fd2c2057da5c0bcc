//! Depth-first exploration of the reachable part of a game.

use vstd::prelude::*;
use crate::types::{Loc, Act};
use crate::game::{Game, Profile, edge_view, targets_with, lemma_targets_with_contains, lemma_targets_with_distinct};
use crate::loc_set::LocSet;
use crate::profiles::{all_profiles, lemma_all_profiles_contains, lemma_all_profiles_distinct};

verus! {

/// The locations reached from the initial location in at most `k`
/// transitions.
pub open spec fn reached(g: Game, k: nat) -> Set<Loc>
    decreases k,
{
    if k == 0 {
        set![Loc(0)]
    } else {
        let prev = reached(g, (k - 1) as nat);
        prev.union(Set::new(|l: Loc| exists|l1: Loc, a: Seq<Act>|
            prev.contains(l1) && #[trigger] edge_from(g, l1, a, l)))
    }
}

pub open spec fn reach_within(g: Game, k: nat, l: Loc) -> bool {
    reached(g, k).contains(l)
}

/// `l` is reachable from the initial location.
pub open spec fn reachable(g: Game, l: Loc) -> bool {
    exists|k: nat| #[trigger] reach_within(g, k, l)
}

/// There is a transition `l1 --a--> l`.
pub open spec fn edge_from(g: Game, l1: Loc, a: Seq<Act>, l: Loc) -> bool {
    (l1.0 as int) < g.nloc() && g.has_edge(l1.0 as int, a, l)
}


/// One call of the exploration: a location seen for the first time, or a
/// transition taken.
#[derive(Debug)]
pub enum ExploreEvent {
    Node(Loc),
    Edge(Loc, Profile, Loc),
}

impl ExploreEvent {
    pub open spec fn is_node(&self, l: Loc) -> bool {
        match *self {
            ExploreEvent::Node(x) => x == l,
            _ => false,
        }
    }

    pub open spec fn is_edge(&self, l: Loc, a: Seq<Act>, l2: Loc) -> bool {
        match *self {
            ExploreEvent::Edge(x, p, y) => x == l && p@ == a && y == l2,
            _ => false,
        }
    }
}

pub open spec fn has_node(ev: Seq<ExploreEvent>, l: Loc) -> bool {
    exists|i: int| 0 <= i < ev.len() && #[trigger] ev[i].is_node(l)
}

pub open spec fn has_edge_event(ev: Seq<ExploreEvent>, l: Loc, a: Seq<Act>, l2: Loc) -> bool {
    exists|i: int| 0 <= i < ev.len() && #[trigger] ev[i].is_edge(l, a, l2)
}

/// A copy of an action profile.
pub fn clone_profile(a: &Profile) -> (r: Profile)
    ensures r@ == a@,
{
    let mut r: Profile = Vec::new();
    let mut i: usize = 0;
    while i < a.len()
        invariant
            i <= a@.len(),
            r@ == a@.subrange(0, i as int),
        decreases a@.len() - i,
    {
        r.push(a[i]);
        i = i + 1;
        assert(r@ =~= a@.subrange(0, i as int));
    }
    assert(a@.subrange(0, a@.len() as int) =~= a@);
    r
}

proof fn lemma_visited_len(v: Set<nat>, n: nat)
    requires forall|i: nat| v.contains(i) ==> i < n,
    ensures v.finite(), v.len() <= n,
{
    crate::loc_set::lemma_nat_range_finite(n);
    vstd::set_lib::lemma_len_subset(v, Set::new(|i: nat| i < n));
    lemma_nat_range_len(n);
}

proof fn lemma_nat_range_len(n: nat)
    ensures Set::new(|i: nat| i < n).len() == n,
    decreases n,
{
    crate::loc_set::lemma_nat_range_finite(n);
    if n == 0 {
        assert(Set::new(|i: nat| i < n) =~= Set::<nat>::empty());
    } else {
        lemma_nat_range_len((n - 1) as nat);
        crate::loc_set::lemma_nat_range_finite((n - 1) as nat);
        assert(Set::new(|i: nat| i < n) =~= Set::new(|i: nat| i < (n - 1) as nat).insert((n - 1) as nat));
    }
}

/// The invariant of the exploration.
pub open spec fn explore_inv(g: Game, ev: Seq<ExploreEvent>, visited: Set<nat>, stack: Seq<Loc>, cur: Option<Loc>) -> bool {
    &&& forall|l: Loc| visited.contains(l.0 as nat) <==> has_node(ev, l)
    &&& forall|i: int, j: int, l: Loc| 0 <= i < ev.len() && 0 <= j < ev.len()
        && #[trigger] ev[i].is_node(l) && #[trigger] ev[j].is_node(l) ==> i == j
    &&& forall|l: Loc| has_node(ev, l) ==> (l.0 as int) < g.nloc() && reachable(g, l)
    &&& forall|k: int| 0 <= k < stack.len() ==> has_node(ev, #[trigger] stack[k])
    &&& stack.no_duplicates()
    &&& forall|k: int| 0 <= k < stack.len() ==> cur != Some(#[trigger] stack[k])
    &&& forall|l: Loc, a: Seq<Act>, l2: Loc| #[trigger] has_edge_event(ev, l, a, l2)
        ==> has_node(ev, l) && g.has_edge(l.0 as int, a, l2)
    &&& forall|k: int| 0 <= k < ev.len() ==> match #[trigger] ev[k] {
        ExploreEvent::Edge(l, _, l2) => (exists|i: int| 0 <= i < k && #[trigger] ev[i].is_node(l))
            && (exists|j: int| 0 <= j < k && #[trigger] ev[j].is_node(l2)),
        _ => true,
    }
    &&& forall|l: Loc, a: Seq<Act>, l2: Loc| has_node(ev, l) && !stack.contains(l) && cur != Some(l)
        && #[trigger] g.has_edge(l.0 as int, a, l2) ==> has_edge_event(ev, l, a, l2)
}

proof fn lemma_reach_step(g: Game, l: Loc, a: Seq<Act>, l2: Loc)
    requires
        reachable(g, l),
        (l.0 as int) < g.nloc(),
        g.has_edge(l.0 as int, a, l2),
    ensures reachable(g, l2),
{
    let k = choose|k: nat| #[trigger] reach_within(g, k, l);
    let k1 = (k + 1) as nat;
    assert(((k1 - 1) as nat) == k);
    assert(reach_within(g, (k1 - 1) as nat, l) && (l.0 as int) < g.nloc() && g.has_edge(l.0 as int, a, l2));
    assert(edge_from(g, l, a, l2));
    assert(reached(g, k).contains(l));
    assert(reached(g, k1).contains(l2));
    assert(reach_within(g, k1, l2));
}

/// How many times `ev` reports the transition `l --a--> l2`.
pub open spec fn edge_count(ev: Seq<ExploreEvent>, l: Loc, a: Seq<Act>, l2: Loc) -> nat
    decreases ev.len(),
{
    if ev.len() == 0 {
        0
    } else {
        edge_count(ev.drop_last(), l, a, l2) + (if ev.last().is_edge(l, a, l2) { 1nat } else { 0nat })
    }
}

/// How many times `x` occurs in `s`.
pub open spec fn occurrences(s: Seq<Loc>, x: Loc) -> nat
    decreases s.len(),
{
    if s.len() == 0 {
        0
    } else {
        occurrences(s.drop_last(), x) + (if s.last() == x { 1nat } else { 0nat })
    }
}

proof fn lemma_occurrences_prefix(s: Seq<Loc>, q: int, x: Loc)
    requires
        0 <= q < s.len(),
    ensures
        occurrences(s.subrange(0, q + 1), x) == occurrences(s.subrange(0, q), x) + (if s[q] == x { 1nat } else { 0nat }),
{
    assert(s.subrange(0, q + 1).drop_last() =~= s.subrange(0, q));
}

/// Only profiles that the game allows label transitions.
proof fn lemma_post_of_profile(g: Game, l: int, a: Seq<Act>)
    requires
        g.wf(),
        0 <= l < g.nloc(),
        !all_profiles(g.n_actions@).contains(a),
    ensures
        g.post_spec(l, a).len() == 0,
{
    if g.post_spec(l, a).len() > 0 {
        let x = g.post_spec(l, a)[0];
        assert(g.post_spec(l, a).contains(x));
        lemma_targets_with_contains(g.succ(l), a, x);
        let k = choose|k: int| 0 <= k < g.succ(l).len() && g.succ(l)[k] == (a, x);
        assert(g.valid_edge(g.succ(l)[k]));
        lemma_all_profiles_contains(g.n_actions@, a);
    }
}

/// No transition is reported twice in `ev`.
pub open spec fn edges_unique(ev: Seq<ExploreEvent>) -> bool {
    forall|i: int, j: int, l: Loc, a: Seq<Act>, l2: Loc| 0 <= i < ev.len() && 0 <= j < ev.len()
        && #[trigger] ev[i].is_edge(l, a, l2) && #[trigger] ev[j].is_edge(l, a, l2) ==> i == j
}

/// No location of `g` lists a transition twice.
pub open spec fn succ_distinct(g: Game) -> bool {
    forall|l: int| 0 <= l < g.nloc() ==> (#[trigger] g.succ(l)).no_duplicates()
}

/// Takes the transition `l --a--> l2`: reports `l2` if it is new, then the
/// transition.
fn explore_step(
    g: &Game,
    ev: &mut Vec<ExploreEvent>,
    visited: &mut LocSet,
    stack: &mut Vec<Loc>,
    l: Loc,
    a: &Profile,
    l2: Loc,
)
    requires
        g.wf(),
        old(visited).wf(),
        old(visited).cap() == g.nloc(),
        explore_inv(*g, old(ev)@, old(visited).bits(), old(stack)@, Some(l)),
        has_node(old(ev)@, l),
        g.has_edge(l.0 as int, a@, l2),
        (l2.0 as int) < g.nloc(),
    ensures
        final(visited).wf(),
        final(visited).cap() == g.nloc(),
        explore_inv(*g, final(ev)@, final(visited).bits(), final(stack)@, Some(l)),
        has_edge_event(final(ev)@, l, a@, l2),
        final(ev)@.len() >= old(ev)@.len(),
        forall|i: int| 0 <= i < old(ev)@.len() ==> #[trigger] final(ev)@[i] == old(ev)@[i],
        (final(stack)@ == old(stack)@ && final(visited).bits() == old(visited).bits())
            || (final(stack)@ == old(stack)@.push(l2) && !old(visited).bits().contains(l2.0 as nat)
                && final(visited).bits() == old(visited).bits().insert(l2.0 as nat)),
        forall|x: Loc, b: Seq<Act>, x2: Loc| #[trigger] has_edge_event(final(ev)@, x, b, x2) ==>
            has_edge_event(old(ev)@, x, b, x2) || (x == l && b == a@ && x2 == l2),
        forall|x: Loc, b: Seq<Act>, x2: Loc| #[trigger] edge_count(final(ev)@, x, b, x2) ==
            edge_count(old(ev)@, x, b, x2) + (if x == l && b == a@ && x2 == l2 { 1nat } else { 0nat }),
        edges_unique(old(ev)@) && !has_edge_event(old(ev)@, l, a@, l2) ==> edges_unique(final(ev)@),
{
    let ghost ev0 = ev@;
    let ghost st0 = stack@;
    let is_visited = visited.contains(l2);
    proof {
        lemma_reach_step(*g, l, a@, l2);
    }
    if !is_visited {
        ev.push(ExploreEvent::Node(l2));
    }
    let ghost ev1 = ev@;
    ev.push(ExploreEvent::Edge(l, clone_profile(a), l2));
    if !is_visited {
        visited.insert(l2);
        stack.push(l2);
    }
    proof {
        let evn = ev@;
        let k = evn.len() - 1;
        assert(evn[k].is_edge(l, a@, l2));
        assert(evn.drop_last() =~= ev1);
        if !is_visited {
            assert(ev1.drop_last() =~= ev0);
        }
        assert forall|x: Loc, b: Seq<Act>, x2: Loc| #[trigger] edge_count(evn, x, b, x2) ==
            edge_count(ev0, x, b, x2) + (if x == l && b == a@ && x2 == l2 { 1nat } else { 0nat }) by {
            assert(edge_count(evn, x, b, x2) == edge_count(ev1, x, b, x2) + (if evn.last().is_edge(x, b, x2) { 1nat } else { 0nat }));
            if !is_visited {
                assert(edge_count(ev1, x, b, x2) == edge_count(ev0, x, b, x2) + (if ev1.last().is_edge(x, b, x2) { 1nat } else { 0nat }));
            }
        }
        assert forall|i: int| 0 <= i < ev0.len() implies #[trigger] evn[i] == ev0[i] by {}
        // nodes
        assert forall|x: Loc| has_node(evn, x) <==> (has_node(ev0, x) || (!is_visited && x == l2)) by {
            if has_node(evn, x) {
                let i = choose|i: int| 0 <= i < evn.len() && #[trigger] evn[i].is_node(x);
                if i < ev0.len() {
                    assert(ev0[i].is_node(x));
                }
            }
            if has_node(ev0, x) {
                let i = choose|i: int| 0 <= i < ev0.len() && #[trigger] ev0[i].is_node(x);
                assert(evn[i].is_node(x));
            }
            if !is_visited && x == l2 {
                assert(evn[ev0.len() as int].is_node(x));
            }
        }
        assert(has_node(ev0, l2) == is_visited);
        assert forall|x: Loc| visited.bits().contains(x.0 as nat) <==> has_node(evn, x) by {
            if !is_visited && x.0 == l2.0 {
                assert(x == l2);
            }
        }
        assert forall|i: int, j: int, x: Loc| 0 <= i < evn.len() && 0 <= j < evn.len()
            && #[trigger] evn[i].is_node(x) && #[trigger] evn[j].is_node(x) implies i == j by {
            if i < ev0.len() && j < ev0.len() {
                assert(ev0[i].is_node(x) && ev0[j].is_node(x));
            } else if i < ev0.len() {
                assert(ev0[i].is_node(x));
                assert(has_node(ev0, x));
            } else if j < ev0.len() {
                assert(ev0[j].is_node(x));
                assert(has_node(ev0, x));
            }
        }
        assert forall|x: Loc, b: Seq<Act>, x2: Loc| #[trigger] has_edge_event(evn, x, b, x2)
            implies has_node(evn, x) && g.has_edge(x.0 as int, b, x2) by {
            let i = choose|i: int| 0 <= i < evn.len() && #[trigger] evn[i].is_edge(x, b, x2);
            if i < ev0.len() {
                assert(ev0[i].is_edge(x, b, x2));
                assert(has_edge_event(ev0, x, b, x2));
            } else if !(i == k) {
                assert(evn[i] == ev1[i]);
            }
        }
        assert forall|x: Loc, b: Seq<Act>, x2: Loc| #[trigger] has_edge_event(evn, x, b, x2) implies
            has_edge_event(ev0, x, b, x2) || (x == l && b == a@ && x2 == l2) by {
            let i = choose|i: int| 0 <= i < evn.len() && #[trigger] evn[i].is_edge(x, b, x2);
            if i < ev0.len() {
                assert(ev0[i].is_edge(x, b, x2));
            } else if i != k {
                assert(evn[i] == ev1[i]);
            }
        }
        if edges_unique(ev0) && !has_edge_event(ev0, l, a@, l2) {
            assert forall|i: int, j: int, x: Loc, b: Seq<Act>, x2: Loc| 0 <= i < evn.len() && 0 <= j < evn.len()
                && #[trigger] evn[i].is_edge(x, b, x2) && #[trigger] evn[j].is_edge(x, b, x2) implies i == j by {
                if i < ev0.len() && j < ev0.len() {
                    assert(ev0[i].is_edge(x, b, x2) && ev0[j].is_edge(x, b, x2));
                } else if i < ev0.len() {
                    assert(ev0[i].is_edge(x, b, x2));
                    if j != k {
                        assert(evn[j] == ev1[j]);
                    }
                } else if j < ev0.len() {
                    assert(ev0[j].is_edge(x, b, x2));
                    if i != k {
                        assert(evn[i] == ev1[i]);
                    }
                } else {
                    if i != k {
                        assert(evn[i] == ev1[i]);
                    }
                    if j != k {
                        assert(evn[j] == ev1[j]);
                    }
                }
            }
        }
        assert forall|t: int| 0 <= t < evn.len() implies match #[trigger] evn[t] {
            ExploreEvent::Edge(x, _, x2) => (exists|i: int| 0 <= i < t && #[trigger] evn[i].is_node(x))
                && (exists|j: int| 0 <= j < t && #[trigger] evn[j].is_node(x2)),
            _ => true,
        } by {
            if t < ev0.len() {
                match ev0[t] {
                    ExploreEvent::Edge(x, _, x2) => {
                        let i = choose|i: int| 0 <= i < t && #[trigger] ev0[i].is_node(x);
                        let j = choose|j: int| 0 <= j < t && #[trigger] ev0[j].is_node(x2);
                        assert(evn[i].is_node(x) && evn[j].is_node(x2));
                    },
                    _ => {},
                }
            } else if t == k {
                let i = choose|i: int| 0 <= i < ev0.len() && #[trigger] ev0[i].is_node(l);
                assert(evn[i].is_node(l));
                if is_visited {
                    let j = choose|j: int| 0 <= j < ev0.len() && #[trigger] ev0[j].is_node(l2);
                    assert(evn[j].is_node(l2));
                } else {
                    assert(evn[ev0.len() as int].is_node(l2));
                }
            } else {
                assert(evn[t] == ExploreEvent::Node(l2));
            }
        }
        assert forall|x: Loc, b: Seq<Act>, x2: Loc| has_node(evn, x) && !stack@.contains(x) && Some(l) != Some(x)
            && #[trigger] g.has_edge(x.0 as int, b, x2) implies has_edge_event(evn, x, b, x2) by {
            if !is_visited && x == l2 {
                assert(stack@[stack@.len() - 1] == l2);
            }
            assert(has_node(ev0, x));
            if !is_visited {
                assert forall|q: int| 0 <= q < st0.len() implies stack@[q] == st0[q] by {}
                if st0.contains(x) {
                    let q = choose|q: int| 0 <= q < st0.len() && st0[q] == x;
                    assert(stack@[q] == x);
                }
            }
            assert(has_edge_event(ev0, x, b, x2));
            let i = choose|i: int| 0 <= i < ev0.len() && #[trigger] ev0[i].is_edge(x, b, x2);
            assert(evn[i].is_edge(x, b, x2));
        }
        assert forall|q: int| 0 <= q < stack@.len() implies has_node(evn, #[trigger] stack@[q]) by {
            if q < st0.len() {
                assert(stack@[q] == st0[q]);
            }
        }
        if !is_visited {
            assert forall|q: int| 0 <= q < st0.len() implies st0[q] != l2 by {
                assert(has_node(ev0, st0[q]));
            }
            assert(stack@.no_duplicates()) by {
                assert forall|i: int, j: int| 0 <= i < j < stack@.len() implies stack@[i] != stack@[j] by {
                    if j == stack@.len() - 1 {
                        assert(stack@[i] == st0[i]);
                    } else {
                        assert(stack@[i] == st0[i] && stack@[j] == st0[j]);
                    }
                }
            }
            assert(l2 != l);
            assert forall|q: int| 0 <= q < stack@.len() implies Some(l) != Some(#[trigger] stack@[q]) by {
                if q < st0.len() {
                    assert(stack@[q] == st0[q]);
                }
            }
        }
    }
}

/// Every location reached within `k` transitions was reported, when the
/// reported locations include the initial one and are closed under
/// transitions.
proof fn lemma_reached_reported(g: Game, ev: Seq<ExploreEvent>, k: nat)
    requires
        has_node(ev, Loc(0)),
        forall|l: Loc, a: Seq<Act>, l2: Loc| has_node(ev, l) && #[trigger] edge_from(g, l, a, l2) ==> has_node(ev, l2),
    ensures forall|l: Loc| reached(g, k).contains(l) ==> has_node(ev, l),
    decreases k,
{
    if k > 0 {
        lemma_reached_reported(g, ev, (k - 1) as nat);
        let prev = reached(g, (k - 1) as nat);
        assert forall|l: Loc| reached(g, k).contains(l) implies has_node(ev, l) by {
            if !prev.contains(l) {
                let (l1, a) = choose|l1: Loc, a: Seq<Act>| prev.contains(l1) && #[trigger] edge_from(g, l1, a, l);
                assert(has_node(ev, l1));
            }
        }
    } else {
        assert forall|l: Loc| reached(g, k).contains(l) implies has_node(ev, l) by {
            assert(l == Loc(0));
        }
    }
}

/// Explores the locations reachable from the initial one, depth first.
///
/// Reports each reachable location exactly once (`Node`), the initial one
/// first, and each transition leaving a reachable location (`Edge`) as many
/// times as the location lists it, so once where no location lists a
/// transition twice; a location is reported before any transition that
/// starts or ends in it.
pub fn explore(g: &Game) -> (ev: Vec<ExploreEvent>)
    requires g.wf(),
    ensures
        forall|i: int, j: int, l: Loc| 0 <= i < ev@.len() && 0 <= j < ev@.len()
            && #[trigger] ev@[i].is_node(l) && #[trigger] ev@[j].is_node(l) ==> i == j,
        forall|l: Loc| has_node(ev@, l) <==> reachable(*g, l),
        forall|l: Loc, a: Seq<Act>, l2: Loc| #[trigger] has_edge_event(ev@, l, a, l2)
            <==> (reachable(*g, l) && g.has_edge(l.0 as int, a, l2)),
        forall|k: int| 0 <= k < ev@.len() ==> match #[trigger] ev@[k] {
            ExploreEvent::Edge(l, _, l2) => (exists|i: int| 0 <= i < k && #[trigger] ev@[i].is_node(l))
                && (exists|j: int| 0 <= j < k && #[trigger] ev@[j].is_node(l2)),
            _ => true,
        },
        ev@.len() > 0,
        ev@[0] == ExploreEvent::Node(Loc(0)),
        succ_distinct(*g) ==> edges_unique(ev@),
        forall|l: Loc, a: Seq<Act>, l2: Loc| #[trigger] edge_count(ev@, l, a, l2) ==
            (if reachable(*g, l) { occurrences(g.post_spec(l.0 as int, a), l2) } else { 0 }),
{
    let mut ev: Vec<ExploreEvent> = Vec::new();
    let mut stack: Vec<Loc> = Vec::new();
    let mut visited = LocSet::new(g);
    let profiles = g.action_profiles();
    let ghost pv = profiles@.map_values(|p: Profile| p@);
    let ghost nd = succ_distinct(*g);

    let l0 = g.l0();
    ev.push(ExploreEvent::Node(l0));
    visited.insert(l0);
    stack.push(l0);
    proof {
        assert(reach_within(*g, 0, l0));
        assert(ev@[0].is_node(l0));
        assert forall|l: Loc| visited.bits().contains(l.0 as nat) <==> has_node(ev@, l) by {
            if has_node(ev@, l) {
                let i = choose|i: int| 0 <= i < ev@.len() && #[trigger] ev@[i].is_node(l);
                assert(i == 0);
            }
            if visited.bits().contains(l.0 as nat) {
                assert(l == l0);
            }
        }
        assert forall|x: Loc, a: Seq<Act>, x2: Loc| #[trigger] has_edge_event(ev@, x, a, x2)
            implies has_node(ev@, x) && g.has_edge(x.0 as int, a, x2) by {
            let i = choose|i: int| 0 <= i < ev@.len() && #[trigger] ev@[i].is_edge(x, a, x2);
            assert(i == 0);
        }
        assert forall|x: Loc| has_node(ev@, x) implies (x.0 as int) < g.nloc() && reachable(*g, x) by {
            let i = choose|i: int| 0 <= i < ev@.len() && #[trigger] ev@[i].is_node(x);
            assert(i == 0);
        }
        assert(stack@.no_duplicates());
        assert forall|i: int, j: int, l: Loc| 0 <= i < ev@.len() && 0 <= j < ev@.len()
            && #[trigger] ev@[i].is_node(l) && #[trigger] ev@[j].is_node(l) implies i == j by {}
        assert forall|k: int| 0 <= k < ev@.len() implies match #[trigger] ev@[k] {
            ExploreEvent::Edge(l, _, l2) => (exists|i: int| 0 <= i < k && #[trigger] ev@[i].is_node(l))
                && (exists|j: int| 0 <= j < k && #[trigger] ev@[j].is_node(l2)),
            _ => true,
        } by {
            assert(k == 0);
        }
        assert forall|k: int| 0 <= k < stack@.len() implies has_node(ev@, #[trigger] stack@[k]) by {
            assert(ev@[0].is_node(stack@[k]));
        }
        assert forall|x: Loc, a: Seq<Act>, x2: Loc| has_node(ev@, x) && !stack@.contains(x) && None::<Loc> != Some(x)
            && #[trigger] g.has_edge(x.0 as int, a, x2) implies has_edge_event(ev@, x, a, x2) by {
            let i = choose|i: int| 0 <= i < ev@.len() && #[trigger] ev@[i].is_node(x);
            assert(i == 0);
            assert(stack@[0] == x);
        }
        assert(explore_inv(*g, ev@, visited.bits(), stack@, None));
        lemma_visited_len(visited.bits(), g.nloc());
        lemma_all_profiles_distinct(g.n_actions@);
        assert forall|x: Loc, b: Seq<Act>, x2: Loc| #[trigger] edge_count(ev@, x, b, x2) == 0 by {
            assert(ev@.drop_last() =~= Seq::<ExploreEvent>::empty());
            assert(edge_count(ev@.drop_last(), x, b, x2) == 0);
            assert(!ev@.last().is_edge(x, b, x2));
            assert(edge_count(ev@, x, b, x2) == edge_count(ev@.drop_last(), x, b, x2)
                + (if ev@.last().is_edge(x, b, x2) { 1nat } else { 0nat }));
        }
        assert forall|x: Loc| has_node(ev@, x) implies stack@.contains(x) by {
            let i = choose|i: int| 0 <= i < ev@.len() && #[trigger] ev@[i].is_node(x);
            assert(i == 0);
            assert(stack@[0] == x);
        }
        assert forall|x: Loc, b: Seq<Act>, x2: Loc| !has_edge_event(ev@, x, b, x2) by {
            if has_edge_event(ev@, x, b, x2) {
                let i = choose|i: int| 0 <= i < ev@.len() && #[trigger] ev@[i].is_edge(x, b, x2);
                assert(i == 0);
            }
        }
    }

    while stack.len() > 0
        invariant
            ev@.len() > 0,
            ev@[0] == ExploreEvent::Node(Loc(0)),
            g.wf(),
            pv == profiles@.map_values(|p: Profile| p@),
            pv == all_profiles(g.n_actions@),
            visited.wf(),
            visited.cap() == g.nloc(),
            explore_inv(*g, ev@, visited.bits(), stack@, None),
            has_node(ev@, Loc(0)),
            forall|x: Loc, b: Seq<Act>, x2: Loc| #[trigger] edge_count(ev@, x, b, x2) ==
                (if has_node(ev@, x) && !stack@.contains(x) { occurrences(g.post_spec(x.0 as int, b), x2) } else { 0 }),
            nd == succ_distinct(*g),
            nd ==> edges_unique(ev@),
            pv.no_duplicates(),
            forall|k: int, b: Seq<Act>, x2: Loc| #![trigger has_edge_event(ev@, stack@[k], b, x2)]
                0 <= k < stack@.len() ==> !has_edge_event(ev@, stack@[k], b, x2),
        decreases g.nloc() - visited.bits().len(), stack@.len(),
    {
        proof {
            lemma_visited_len(visited.bits(), g.nloc());
        }
        let ghost st_before = stack@;
        let ghost v0 = visited.bits().len();
        let l = stack.pop().unwrap();
        let ghost s0 = stack@.len();
        proof {
            assert(stack@ == st_before.drop_last());
            assert(has_node(ev@, l)) by { assert(st_before[st_before.len() - 1] == l); }
            assert forall|k: int| 0 <= k < stack@.len() implies Some(l) != Some(#[trigger] stack@[k]) by {
                assert(stack@[k] == st_before[k]);
            }
            assert forall|x: Loc, a: Seq<Act>, x2: Loc| has_node(ev@, x) && !stack@.contains(x) && Some(l) != Some(x)
                && #[trigger] g.has_edge(x.0 as int, a, x2) implies has_edge_event(ev@, x, a, x2) by {
                if st_before.contains(x) {
                    let q = choose|q: int| 0 <= q < st_before.len() && st_before[q] == x;
                    if q < st_before.len() - 1 {
                        assert(stack@[q] == x);
                    }
                }
            }
            assert(explore_inv(*g, ev@, visited.bits(), stack@, Some(l)));
            assert forall|b: Seq<Act>, x2: Loc| !has_edge_event(ev@, l, b, x2) by {
                assert(st_before[st_before.len() - 1] == l);
                assert(!has_edge_event(ev@, st_before[st_before.len() - 1], b, x2));
            }
            assert forall|k: int, b: Seq<Act>, x2: Loc| #![trigger has_edge_event(ev@, stack@[k], b, x2)]
                0 <= k < stack@.len() implies !has_edge_event(ev@, stack@[k], b, x2) by {
                assert(stack@[k] == st_before[k]);
                assert(!has_edge_event(ev@, st_before[k], b, x2));
            }
        }
        proof {
            assert forall|x: Loc, b: Seq<Act>, x2: Loc| #[trigger] edge_count(ev@, x, b, x2) ==
                (if x == l { if exists|t: int| 0 <= t < 0 && #[trigger] pv[t] == b { occurrences(g.post_spec(x.0 as int, b), x2) } else { 0 } }
                else if has_node(ev@, x) && !stack@.contains(x) { occurrences(g.post_spec(x.0 as int, b), x2) } else { 0 }) by {
                if x == l {
                    assert(st_before.contains(l)) by { assert(st_before[st_before.len() - 1] == l); }
                } else {
                    if st_before.contains(x) {
                        let k = choose|k: int| 0 <= k < st_before.len() && st_before[k] == x;
                        assert(k != st_before.len() - 1);
                        assert(stack@[k] == x);
                    }
                    if stack@.contains(x) {
                        let k = choose|k: int| 0 <= k < stack@.len() && stack@[k] == x;
                        assert(st_before[k] == x);
                    }
                }
            }
        }
        let mut p: usize = 0;
        while p < profiles.len()
            invariant
                ev@.len() > 0,
                ev@[0] == ExploreEvent::Node(Loc(0)),
                g.wf(),
                pv == profiles@.map_values(|p: Profile| p@),
                pv == all_profiles(g.n_actions@),
                p <= profiles@.len(),
                (l.0 as int) < g.nloc(),
                visited.wf(),
                visited.cap() == g.nloc(),
                explore_inv(*g, ev@, visited.bits(), stack@, Some(l)),
                has_node(ev@, l),
                has_node(ev@, Loc(0)),
                visited.bits().finite(),
                v0 <= visited.bits().len() <= g.nloc(),
                stack@.len() - s0 == visited.bits().len() - v0,
                s0 + 1 == st_before.len(),
                forall|a: Seq<Act>, l2: Loc| (exists|t: int| 0 <= t < p && #[trigger] pv[t] == a)
                    && g.has_edge(l.0 as int, a, l2) ==> #[trigger] has_edge_event(ev@, l, a, l2),
                nd == succ_distinct(*g),
                nd ==> edges_unique(ev@),
                pv.no_duplicates(),
                forall|k: int, b: Seq<Act>, x2: Loc| #![trigger has_edge_event(ev@, stack@[k], b, x2)]
                    0 <= k < stack@.len() ==> !has_edge_event(ev@, stack@[k], b, x2),
                forall|b: Seq<Act>, x2: Loc| #[trigger] has_edge_event(ev@, l, b, x2) ==>
                    exists|t: int| 0 <= t < p && #[trigger] pv[t] == b,
                forall|x: Loc, b: Seq<Act>, x2: Loc| #[trigger] edge_count(ev@, x, b, x2) ==
                    (if x == l { if exists|t: int| 0 <= t < p && #[trigger] pv[t] == b { occurrences(g.post_spec(x.0 as int, b), x2) } else { 0 } }
                    else if has_node(ev@, x) && !stack@.contains(x) { occurrences(g.post_spec(x.0 as int, b), x2) } else { 0 }),
            decreases profiles@.len() - p,
        {
            let post = g.post(l, &profiles[p]);
            assert(pv[p as int] == profiles@[p as int]@);
            proof {
                if nd {
                    assert(g.succ(l.0 as int).no_duplicates());
                    lemma_targets_with_distinct(g.succ(l.0 as int), profiles@[p as int]@);
                }
            }
            proof {
                assert forall|x: Loc, b: Seq<Act>, x2: Loc| #[trigger] edge_count(ev@, x, b, x2) ==
                    (if x == l { if b == pv[p as int] { occurrences(post@.subrange(0, 0), x2) }
                        else if exists|t: int| 0 <= t < p && #[trigger] pv[t] == b { occurrences(g.post_spec(x.0 as int, b), x2) } else { 0 } }
                    else if has_node(ev@, x) && !stack@.contains(x) { occurrences(g.post_spec(x.0 as int, b), x2) } else { 0 }) by {
                    if x == l && b == pv[p as int] {
                        if exists|t: int| 0 <= t < p && #[trigger] pv[t] == b {
                            let t = choose|t: int| 0 <= t < p && #[trigger] pv[t] == b;
                            assert(pv[t] == pv[p as int]);
                        }
                        assert(post@.subrange(0, 0) =~= Seq::<Loc>::empty());
                    }
                }
            }
            let mut q: usize = 0;
            while q < post.len()
                invariant
                    ev@.len() > 0,
                    ev@[0] == ExploreEvent::Node(Loc(0)),
                    g.wf(),
                    pv == profiles@.map_values(|p: Profile| p@),
                    pv == all_profiles(g.n_actions@),
                    p < profiles@.len(),
                    q <= post@.len(),
                    pv[p as int] == profiles@[p as int]@,
                    post@ == g.post_spec(l.0 as int, profiles@[p as int]@),
                    (l.0 as int) < g.nloc(),
                    visited.wf(),
                    visited.cap() == g.nloc(),
                    explore_inv(*g, ev@, visited.bits(), stack@, Some(l)),
                    has_node(ev@, l),
                    has_node(ev@, Loc(0)),
                    visited.bits().finite(),
                    v0 <= visited.bits().len() <= g.nloc(),
                    stack@.len() - s0 == visited.bits().len() - v0,
                    forall|a: Seq<Act>, l2: Loc| (exists|t: int| 0 <= t < p && #[trigger] pv[t] == a)
                        && g.has_edge(l.0 as int, a, l2) ==> #[trigger] has_edge_event(ev@, l, a, l2),
                    forall|t: int| 0 <= t < q ==> has_edge_event(ev@, l, profiles@[p as int]@, #[trigger] post@[t]),
                    nd == succ_distinct(*g),
                    nd ==> edges_unique(ev@),
                    pv.no_duplicates(),
                    forall|k: int, b: Seq<Act>, x2: Loc| #![trigger has_edge_event(ev@, stack@[k], b, x2)]
                        0 <= k < stack@.len() ==> !has_edge_event(ev@, stack@[k], b, x2),
                    nd ==> post@.no_duplicates(),
                    forall|b: Seq<Act>, x2: Loc| #[trigger] has_edge_event(ev@, l, b, x2) ==>
                        (exists|t: int| 0 <= t < p && #[trigger] pv[t] == b)
                        || (b == pv[p as int] && exists|q2: int| 0 <= q2 < q && #[trigger] post@[q2] == x2),
                    forall|x: Loc, b: Seq<Act>, x2: Loc| #[trigger] edge_count(ev@, x, b, x2) ==
                        (if x == l { if b == pv[p as int] { occurrences(post@.subrange(0, q as int), x2) }
                            else if exists|t: int| 0 <= t < p && #[trigger] pv[t] == b { occurrences(g.post_spec(x.0 as int, b), x2) } else { 0 } }
                        else if has_node(ev@, x) && !stack@.contains(x) { occurrences(g.post_spec(x.0 as int, b), x2) } else { 0 }),
                decreases post@.len() - q,
            {
                let l2 = post[q];
                proof {
                    assert(post@.contains(l2)) by { assert(post@[q as int] == l2); }
                    lemma_targets_with_contains(g.succ(l.0 as int), profiles@[p as int]@, l2);
                    let k = choose|k: int| 0 <= k < g.succ(l.0 as int).len()
                        && g.succ(l.0 as int)[k] == (profiles@[p as int]@, l2);
                    assert(g.valid_edge(g.succ(l.0 as int)[k]));
                }
                let ghost ev_before = ev@;
                let ghost st_b = stack@;
                proof {
                    if nd && has_edge_event(ev@, l, profiles@[p as int]@, l2) {
                        if exists|t: int| 0 <= t < p && #[trigger] pv[t] == profiles@[p as int]@ {
                            let t = choose|t: int| 0 <= t < p && #[trigger] pv[t] == profiles@[p as int]@;
                            assert(pv[t] == pv[p as int]);
                        } else {
                            let q2 = choose|q2: int| 0 <= q2 < q && #[trigger] post@[q2] == l2;
                            assert(post@[q2] == post@[q as int]);
                        }
                    }
                }
                explore_step(g, &mut ev, &mut visited, &mut stack, l, &profiles[p], l2);
                proof {
                    assert forall|b: Seq<Act>, x2: Loc| #[trigger] has_edge_event(ev@, l, b, x2) implies
                        (exists|t: int| 0 <= t < p && #[trigger] pv[t] == b)
                        || (b == pv[p as int] && exists|q2: int| 0 <= q2 < q + 1 && #[trigger] post@[q2] == x2) by {
                        if !has_edge_event(ev_before, l, b, x2) {
                            assert(post@[q as int] == x2);
                        }
                    }
                    assert forall|k: int, b: Seq<Act>, x2: Loc| #![trigger has_edge_event(ev@, stack@[k], b, x2)]
                        0 <= k < stack@.len() implies !has_edge_event(ev@, stack@[k], b, x2) by {
                        assert(stack@[k] != l);
                        if k < st_b.len() {
                            assert(stack@[k] == st_b[k]);
                            assert(!has_edge_event(ev_before, st_b[k], b, x2));
                        } else {
                            assert(stack@[k] == l2);
                            if has_edge_event(ev_before, l2, b, x2) {
                                assert(has_node(ev_before, l2));
                            }
                        }
                    }
                }
                proof {
                    lemma_visited_len(visited.bits(), g.nloc());
                    assert forall|a: Seq<Act>, x2: Loc| (exists|t: int| 0 <= t < p && #[trigger] pv[t] == a)
                        && g.has_edge(l.0 as int, a, x2) implies #[trigger] has_edge_event(ev@, l, a, x2) by {
                        assert(has_edge_event(ev_before, l, a, x2));
                        let i = choose|i: int| 0 <= i < ev_before.len() && #[trigger] ev_before[i].is_edge(l, a, x2);
                        assert(ev@[i] == ev_before[i]);
                    }
                    assert forall|t: int| 0 <= t < q + 1 implies has_edge_event(ev@, l, profiles@[p as int]@, #[trigger] post@[t]) by {
                        if t < q {
                            assert(has_edge_event(ev_before, l, profiles@[p as int]@, post@[t]));
                            let i = choose|i: int| 0 <= i < ev_before.len() && #[trigger] ev_before[i].is_edge(l, profiles@[p as int]@, post@[t]);
                            assert(ev@[i] == ev_before[i]);
                        }
                    }
                }
                proof {
                    lemma_occurrences_prefix(post@, q as int, l2);
                    assert forall|x: Loc, b: Seq<Act>, x2: Loc| #[trigger] edge_count(ev@, x, b, x2) ==
                        (if x == l { if b == pv[p as int] { occurrences(post@.subrange(0, q + 1), x2) }
                            else if exists|t: int| 0 <= t < p && #[trigger] pv[t] == b { occurrences(g.post_spec(x.0 as int, b), x2) } else { 0 } }
                        else if has_node(ev@, x) && !stack@.contains(x) { occurrences(g.post_spec(x.0 as int, b), x2) } else { 0 }) by {
                        assert(edge_count(ev@, x, b, x2) == edge_count(ev_before, x, b, x2)
                            + (if x == l && b == profiles@[p as int]@ && x2 == l2 { 1nat } else { 0nat }));
                        lemma_occurrences_prefix(post@, q as int, x2);
                        if x != l {
                            assert(has_node(ev@, x) <==> visited.bits().contains(x.0 as nat));
                            if stack@ != st_b {
                                if x == l2 {
                                    assert(stack@[stack@.len() - 1] == l2);
                                    assert(!has_node(ev_before, l2));
                                } else {
                                    if stack@.contains(x) {
                                        let k = choose|k: int| 0 <= k < stack@.len() && stack@[k] == x;
                                        assert(k < st_b.len());
                                        assert(st_b[k] == x);
                                    }
                                    if st_b.contains(x) {
                                        let k = choose|k: int| 0 <= k < st_b.len() && st_b[k] == x;
                                        assert(stack@[k] == x);
                                    }
                                    assert(has_node(ev@, x) == has_node(ev_before, x));
                                }
                            } else {
                                assert(has_node(ev@, x) == has_node(ev_before, x));
                            }
                        }
                    }
                }
                q = q + 1;
            }
            proof {
                assert forall|a: Seq<Act>, x2: Loc| (exists|t: int| 0 <= t < p + 1 && #[trigger] pv[t] == a)
                    && g.has_edge(l.0 as int, a, x2) implies #[trigger] has_edge_event(ev@, l, a, x2) by {
                    if a == pv[p as int] {
                        lemma_targets_with_contains(g.succ(l.0 as int), a, x2);
                        let t = choose|t: int| 0 <= t < post@.len() && post@[t] == x2;
                    } else {
                        let t = choose|t: int| 0 <= t < p + 1 && #[trigger] pv[t] == a;
                        assert(t < p);
                    }
                }
            }
            proof {
                assert(post@.subrange(0, post@.len() as int) =~= post@);
                assert forall|x: Loc, b: Seq<Act>, x2: Loc| #[trigger] edge_count(ev@, x, b, x2) ==
                    (if x == l { if exists|t: int| 0 <= t < p + 1 && #[trigger] pv[t] == b { occurrences(g.post_spec(x.0 as int, b), x2) } else { 0 } }
                    else if has_node(ev@, x) && !stack@.contains(x) { occurrences(g.post_spec(x.0 as int, b), x2) } else { 0 }) by {
                    if x == l && b != pv[p as int] {
                        if exists|t: int| 0 <= t < p + 1 && #[trigger] pv[t] == b {
                            let t = choose|t: int| 0 <= t < p + 1 && #[trigger] pv[t] == b;
                            assert(t < p);
                        }
                    }
                }
            }
            p = p + 1;
        }
        proof {
            assert forall|x: Loc, b: Seq<Act>, x2: Loc| #[trigger] edge_count(ev@, x, b, x2) ==
                (if has_node(ev@, x) && !stack@.contains(x) { occurrences(g.post_spec(x.0 as int, b), x2) } else { 0 }) by {
                if x == l {
                    assert forall|k: int| 0 <= k < stack@.len() implies stack@[k] != l by {
                        assert(Some(l) != Some(stack@[k]));
                    }
                    if !(exists|t: int| 0 <= t < profiles@.len() && #[trigger] pv[t] == b) {
                        if pv.contains(b) {
                            let t = choose|t: int| 0 <= t < pv.len() && pv[t] == b;
                        }
                        lemma_post_of_profile(*g, l.0 as int, b);
                        assert(g.post_spec(l.0 as int, b) =~= Seq::<Loc>::empty());
                    }
                }
            }
            assert forall|x: Loc, a: Seq<Act>, x2: Loc| has_node(ev@, x) && !stack@.contains(x) && None::<Loc> != Some(x)
                && #[trigger] g.has_edge(x.0 as int, a, x2) implies has_edge_event(ev@, x, a, x2) by {
                if x == l {
                    let k = choose|k: int| 0 <= k < g.succ(l.0 as int).len() && g.succ(l.0 as int)[k] == (a, x2);
                    assert(g.valid_edge(g.succ(l.0 as int)[k]));
                    assert(g.valid_profile(a));
                    lemma_all_profiles_contains(g.n_actions@, a);
                    let t = choose|t: int| 0 <= t < pv.len() && pv[t] == a;
                }
            }
            assert forall|k: int| 0 <= k < stack@.len() implies None::<Loc> != Some(#[trigger] stack@[k]) by {}
        }
    }
    proof {
        assert forall|l: Loc, a: Seq<Act>, l2: Loc| has_node(ev@, l) && #[trigger] edge_from(*g, l, a, l2)
            implies has_node(ev@, l2) by {
            assert(has_edge_event(ev@, l, a, l2));
            let i = choose|i: int| 0 <= i < ev@.len() && #[trigger] ev@[i].is_edge(l, a, l2);
            match ev@[i] {
                ExploreEvent::Edge(x, _, x2) => {
                    let j = choose|j: int| 0 <= j < i && #[trigger] ev@[j].is_node(x2);
                },
                _ => {},
            }
        }
        assert forall|l: Loc| reachable(*g, l) implies has_node(ev@, l) by {
            let k = choose|k: nat| #[trigger] reach_within(*g, k, l);
            lemma_reached_reported(*g, ev@, k);
        }
        assert forall|l: Loc, a: Seq<Act>, l2: Loc| (reachable(*g, l) && g.has_edge(l.0 as int, a, l2))
            implies #[trigger] has_edge_event(ev@, l, a, l2) by {
            assert(has_node(ev@, l));
        }
    }
    ev
}

} // verus!
