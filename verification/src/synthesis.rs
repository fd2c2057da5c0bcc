//! Search for a profile of memoryless strategies, one per agent in its own
//! knowledge game, that wins the expanded game: depth-first, trying the
//! actions that the outcome analysis ranks best first, and bounded in how
//! many locations the strategies decide.

use vstd::prelude::*;
use vec_map::VecMap;
use crate::types::{Loc, Act, Obs, TransducerState};
use crate::game::{Game, Profile};
use crate::outcome::{Outcome, OutcomeSet, outcome_le};
use crate::sparse::{vm_map, vm_new, vm_get, vm_insert, vm_clone};
use crate::isomorphism::lemma_bounded_len;
use vstd::set_lib::lemma_len_subset;
use crate::memoryless::{wins_under, wins_from, lemma_post_target, lemma_wins_extend, lemma_wins_common_fuel};
use crate::index::Stats;
use crate::construct::{ConstructedGame, AbstractGame};
use crate::mkbsc::MKBSC;
use crate::outcomes::{find_outcomes_checked, no_overflow, OutcomeSetView};
use crate::strategy::{Transducer, verify_strategy, wins, profile_ok, set_transition, mem, profile_of, all_defined,
    step, moves, live, is_child, goal, wins_within, initial_config};
use crate::construct::{obs_ok, view_seq};
use std::collections::BTreeMap;

verus! {

/// The actions worth trying at one location of an agent's knowledge game,
/// best first: `None` when every action loses. Unless `find_all`, a
/// location that is won outright offers only its first best action.
pub fn options_of(o: &OutcomeSet, find_all: bool) -> (r: Option<Vec<Act>>)
    requires
        o.action@.len() <= 65536,
    ensures
        match r {
            None => o.outcome == Outcome::Lose,
            Some(v) => {
                &&& !(o.outcome is Lose)
                &&& v@.no_duplicates()
                &&& forall|k: int| 0 <= k < v@.len() ==> (#[trigger] v@[k]).0 < o.action@.len()
                &&& (find_all || !(o.outcome is Win)) ==> v@.len() <= o.action@.len()
                    && (forall|k: int| 0 <= k < v@.len() ==> !(o.action@[(#[trigger] v@[k]).0 as int] is Lose))
                    && (forall|j: int| 0 <= j < o.action@.len() && !(#[trigger] o.action@[j] is Lose) ==>
                        v@.contains(Act(j as u16)))
                &&& forall|k: int, j: int| 0 <= k < j < v@.len() ==>
                    outcome_le(o.action@[(#[trigger] v@[k]).0 as int], o.action@[(#[trigger] v@[j]).0 as int])
                &&& (!find_all && o.outcome is Win && o.action@.len() > 0) ==> v@.len() == 1
                    && (forall|j: int| 0 <= j < o.action@.len() ==> outcome_le(o.action@[v@[0].0 as int], #[trigger] o.action@[j]))
                    && (forall|j: int| 0 <= j < v@[0].0 ==> !outcome_le(#[trigger] o.action@[j], o.action@[v@[0].0 as int]))
            },
        },
{
    if o.outcome.is_lose() {
        return None;
    }
    if !find_all && o.outcome.is_win() && o.action.len() > 0 {
            let n = o.action.len();
            let mut best: usize = 0;
            let mut k: usize = 1;
            while k < n
                invariant
                    n == o.action@.len(),
                    n <= 65536,
                    best < k <= n,
                    forall|j: int| 0 <= j < k ==> outcome_le(o.action@[best as int], #[trigger] o.action@[j]),
                    forall|j: int| 0 <= j < best ==> !outcome_le(#[trigger] o.action@[j], o.action@[best as int]),
                decreases n - k,
            {
                if !o.action[best].le(&o.action[k]) {
                    proof {
                        lemma_le_total_trans(o.action@[best as int], o.action@[k as int]);
                        assert forall|j: int| 0 <= j < k implies !outcome_le(#[trigger] o.action@[j], o.action@[k as int]) by {
                            if outcome_le(o.action@[j], o.action@[k as int]) {
                                lemma_le_trans(o.action@[j], o.action@[k as int], o.action@[best as int]);
                                if j > best {
                                    lemma_le_trans(o.action@[best as int], o.action@[j], o.action@[k as int]);
                                }
                            }
                        }
                    }
                    best = k;
                }
                k = k + 1;
            }
            let mut v: Vec<Act> = Vec::new();
            v.push(Act(best as u16));
            return Some(v);
    }
    {
            let n = o.action.len();
            let mut v: Vec<Act> = Vec::new();
            let mut k: usize = 0;
            while k < n
                invariant
                    n == o.action@.len(),
                    n <= 65536,
                    k <= n,
                    v@.len() <= k,
                    forall|q: int| 0 <= q < v@.len() ==> (#[trigger] v@[q]).0 < k
                        && !(o.action@[v@[q].0 as int] is Lose),
                    forall|j: int| 0 <= j < k && !(#[trigger] o.action@[j] is Lose) ==> v@.contains(Act(j as u16)),
                    forall|q: int, j: int| 0 <= q < j < v@.len() ==>
                        outcome_le(o.action@[(#[trigger] v@[q]).0 as int], o.action@[(#[trigger] v@[j]).0 as int]),
                    v@.no_duplicates(),
                decreases n - k,
            {
                let ghost prev = v@;
                if o.action[k].can_win() {
                    insert_by_outcome(&mut v, &o.action, Act(k as u16));
                }
                proof {
                    assert forall|q: int| 0 <= q < v@.len() implies (#[trigger] v@[q]).0 < k + 1
                        && !(o.action@[v@[q].0 as int] is Lose) by {
                        if v@[q] != Act(k as u16) {
                            let r = choose|r: int| 0 <= r < prev.len() && prev[r] == v@[q];
                        }
                    }
                }
                k = k + 1;
            }
            Some(v)
    }
}


/// The order of outcomes is total and transitive.
proof fn lemma_le_total_trans(a: Outcome, b: Outcome)
    requires
        !outcome_le(a, b),
    ensures
        outcome_le(b, a),
        forall|c: Outcome| #[trigger] outcome_le(a, c) ==> outcome_le(b, c),
        forall|c: Outcome| #[trigger] outcome_le(c, b) ==> !outcome_le(a, c),
{
}

proof fn lemma_le_trans(a: Outcome, b: Outcome, c: Outcome)
    requires
        outcome_le(a, b),
        outcome_le(b, c),
    ensures
        outcome_le(a, c),
{
}

/// Inserts `a` into `v`, kept sorted by the outcome of each action, after
/// the actions with an outcome at least as good.
fn insert_by_outcome(v: &mut Vec<Act>, action: &Vec<Outcome>, a: Act)
    requires
        (a.0 as int) < action@.len(),
        forall|q: int| 0 <= q < old(v)@.len() ==> (#[trigger] old(v)@[q]).0 < a.0,
        forall|q: int, j: int| 0 <= q < j < old(v)@.len() ==>
            outcome_le(action@[(#[trigger] old(v)@[q]).0 as int], action@[(#[trigger] old(v)@[j]).0 as int]),
    ensures
        final(v)@.len() == old(v)@.len() + 1,
        old(v)@.no_duplicates() ==> final(v)@.no_duplicates(),
        forall|q: int| 0 <= q < final(v)@.len() ==> #[trigger] final(v)@[q] == a || old(v)@.contains(final(v)@[q]),
        final(v)@.contains(a),
        forall|x: Act| old(v)@.contains(x) ==> final(v)@.contains(x),
        forall|q: int, j: int| 0 <= q < j < final(v)@.len() ==>
            outcome_le(action@[(#[trigger] final(v)@[q]).0 as int], action@[(#[trigger] final(v)@[j]).0 as int]),
{
    let ghost old_v = v@;
    let oa = action[a.index()];
    let mut p: usize = 0;
    while p < v.len() && action[v[p].index()].le(&oa)
        invariant
            v@ == old_v,
            (a.0 as int) < action@.len(),
            oa == action@[a.0 as int],
            forall|q: int| 0 <= q < v@.len() ==> (#[trigger] v@[q]).0 < a.0,
            p <= v@.len(),
            forall|q: int| 0 <= q < p ==> outcome_le(action@[(#[trigger] v@[q]).0 as int], oa),
        decreases v@.len() - p,
    {
        p = p + 1;
    }
    v.insert(p, a);
    proof {
        assert(v@ == old_v.insert(p as int, a));
        assert(v@[p as int] == a);
        if old_v.no_duplicates() {
            assert forall|q: int, j: int| 0 <= q < j < v@.len() implies v@[q] != v@[j] by {
                if q < p && j == p {
                    assert(v@[q] == old_v[q]);
                } else if q < p && j > p {
                    assert(v@[q] == old_v[q] && v@[j] == old_v[j - 1]);
                } else if q == p {
                    assert(v@[j] == old_v[j - 1]);
                } else if q > p {
                    assert(v@[j] == old_v[j - 1] && v@[q] == old_v[q - 1]);
                } else {
                    assert(v@[j] == old_v[j] && v@[q] == old_v[q]);
                }
            }
        }
        if p < old_v.len() {
            lemma_le_total_trans(action@[old_v[p as int].0 as int], oa);
        }
        assert forall|q: int, j: int| 0 <= q < j < v@.len() implies
            outcome_le(action@[(#[trigger] v@[q]).0 as int], action@[(#[trigger] v@[j]).0 as int]) by {
            if q < p && j == p {
            } else if q < p && j > p {
                assert(v@[j] == old_v[j - 1]);
                assert(outcome_le(action@[old_v[q].0 as int], action@[old_v[p as int].0 as int]) || p == j - 1);
                if p < j - 1 {
                    lemma_le_trans(action@[old_v[q].0 as int], action@[old_v[p as int].0 as int], action@[old_v[j - 1].0 as int]);
                }
            } else if q == p {
                assert(v@[j] == old_v[j - 1]);
                if j - 1 > p {
                    lemma_le_trans(oa, action@[old_v[p as int].0 as int], action@[old_v[j - 1].0 as int]);
                }
            } else if q > p {
                assert(v@[j] == old_v[j - 1]);
                assert(v@[q] == old_v[q - 1]);
            } else {
                assert(v@[j] == old_v[j]);
                assert(v@[q] == old_v[q]);
            }
        }
        assert forall|x: Act| old_v.contains(x) implies v@.contains(x) by {
            let q = choose|q: int| 0 <= q < old_v.len() && old_v[q] == x;
            if q < p {
                assert(v@[q] == x);
            } else {
                assert(v@[q + 1] == x);
            }
        }
        assert forall|q: int| 0 <= q < v@.len() implies #[trigger] v@[q] == a || old_v.contains(v@[q]) by {
            if q < p {
                assert(v@[q] == old_v[q]);
            } else if q > p {
                assert(v@[q] == old_v[q - 1]);
            }
        }
    }
}


/// A memoryless strategy of one agent in its knowledge game: the action
/// chosen at each of its locations, where one was needed.
#[derive(Debug)]
pub struct Strat {
    pub choice: Vec<Option<Act>>,
}

/// Each sequence of `ps` extended by each element of `xs`, the elements of
/// `xs` varying fastest.
pub open spec fn extend_all(ps: Seq<Seq<Act>>, xs: Seq<Act>) -> Seq<Seq<Act>>
    decreases ps.len(),
{
    if ps.len() == 0 {
        Seq::empty()
    } else {
        extend_all(ps.drop_last(), xs) + xs.map_values(|a: Act| ps.last().push(a))
    }
}

/// Every combination of one element of each sequence of `opts`, in order,
/// the first sequence varying slowest.
pub open spec fn product_spec(opts: Seq<Seq<Act>>) -> Seq<Seq<Act>>
    decreases opts.len(),
{
    if opts.len() == 0 {
        seq![Seq::<Act>::empty()]
    } else {
        extend_all(product_spec(opts.drop_last()), opts.last())
    }
}

spec fn profiles_view(v: Seq<Vec<Act>>) -> Seq<Seq<Act>> {
    v.map_values(|p: Vec<Act>| p@)
}

/// Every combination of one option per agent, the first agent's options
/// varying slowest.
fn product(opts: &Vec<Vec<Act>>) -> (r: Vec<Vec<Act>>)
    ensures
        forall|k: int| 0 <= k < r@.len() ==> (#[trigger] r@[k])@.len() == opts@.len(),
        profiles_view(r@) == product_spec(profiles_view(opts@)),
{
    let ghost ov = profiles_view(opts@);
    let mut r: Vec<Vec<Act>> = Vec::new();
    r.push(Vec::new());
    proof {
        assert(profiles_view(r@) =~= seq![Seq::<Act>::empty()]);
        assert(ov.subrange(0, 0) =~= Seq::<Seq<Act>>::empty());
    }
    let mut i: usize = 0;
    while i < opts.len()
        invariant
            ov == profiles_view(opts@),
            i <= opts@.len(),
            forall|k: int| 0 <= k < r@.len() ==> (#[trigger] r@[k])@.len() == i,
            profiles_view(r@) == product_spec(ov.subrange(0, i as int)),
        decreases opts@.len() - i,
    {
        let ghost rv = profiles_view(r@);
        let ghost xs = ov[i as int];
        let mut next: Vec<Vec<Act>> = Vec::new();
        let mut k: usize = 0;
        proof {
            assert(rv.subrange(0, 0) =~= Seq::<Seq<Act>>::empty());
            assert(profiles_view(next@) =~= extend_all(rv.subrange(0, 0), xs));
        }
        while k < r.len()
            invariant
                ov == profiles_view(opts@),
                i < opts@.len(),
                xs == ov[i as int],
                xs == opts@[i as int]@,
                rv == profiles_view(r@),
                k <= r@.len(),
                forall|q: int| 0 <= q < r@.len() ==> (#[trigger] r@[q])@.len() == i,
                forall|q: int| 0 <= q < next@.len() ==> (#[trigger] next@[q])@.len() == i + 1,
                profiles_view(next@) == extend_all(rv.subrange(0, k as int), xs),
            decreases r@.len() - k,
        {
            let ghost base = profiles_view(next@);
            let mut j: usize = 0;
            proof {
                assert(xs.subrange(0, 0).map_values(|a: Act| rv[k as int].push(a)) =~= Seq::<Seq<Act>>::empty());
                assert(profiles_view(next@) =~= base + xs.subrange(0, 0).map_values(|a: Act| rv[k as int].push(a)));
            }
            while j < opts[i].len()
                invariant
                    i < opts@.len(),
                    k < r@.len(),
                    xs == opts@[i as int]@,
                    rv == profiles_view(r@),
                    j <= opts@[i as int]@.len(),
                    forall|q: int| 0 <= q < r@.len() ==> (#[trigger] r@[q])@.len() == i,
                    forall|q: int| 0 <= q < next@.len() ==> (#[trigger] next@[q])@.len() == i + 1,
                    profiles_view(next@) == base + xs.subrange(0, j as int).map_values(|a: Act| rv[k as int].push(a)),
                decreases opts@[i as int]@.len() - j,
            {
                let ghost before = next@;
                let mut c = copy_profile(&r[k]);
                c.push(opts[i][j]);
                next.push(c);
                proof {
                    assert(rv[k as int] == r@[k as int]@);
                    assert(xs.subrange(0, j + 1).map_values(|a: Act| rv[k as int].push(a))
                        =~= xs.subrange(0, j as int).map_values(|a: Act| rv[k as int].push(a)).push(rv[k as int].push(xs[j as int])));
                    assert(profiles_view(next@) =~= profiles_view(before).push(next@[before.len() as int]@));
                }
                j = j + 1;
            }
            proof {
                assert(xs.subrange(0, xs.len() as int) =~= xs);
                let t1 = rv.subrange(0, k + 1);
                assert(t1.drop_last() =~= rv.subrange(0, k as int));
                assert(t1.last() == rv[k as int]);
            }
            k = k + 1;
        }
        proof {
            assert(rv.subrange(0, rv.len() as int) =~= rv);
            let o1 = ov.subrange(0, i + 1);
            assert(o1.drop_last() =~= ov.subrange(0, i as int));
            assert(o1.last() == xs);
        }
        r = next;
        i = i + 1;
    }
    proof {
        assert(ov.subrange(0, ov.len() as int) =~= ov);
    }
    r
}

fn copy_profile(a: &Vec<Act>) -> (r: Vec<Act>)
    ensures
        r@ == a@,
{
    let mut r: Vec<Act> = Vec::new();
    let mut i: usize = 0;
    while i < a.len()
        invariant
            i <= a@.len(),
            r@ == a@.subrange(0, i as int),
        decreases a@.len() - i,
    {
        r.push(a[i]);
        i = i + 1;
        proof {
            assert(r@ =~= a@.subrange(0, i as int));
        }
    }
    proof {
        assert(r@ =~= a@);
    }
    r
}

fn copy_tasks(a: &Vec<(bool, Loc)>) -> (r: Vec<(bool, Loc)>)
    ensures
        r@ == a@,
{
    let mut r: Vec<(bool, Loc)> = Vec::new();
    let mut i: usize = 0;
    while i < a.len()
        invariant
            i <= a@.len(),
            r@ == a@.subrange(0, i as int),
        decreases a@.len() - i,
    {
        r.push(a[i]);
        i = i + 1;
        proof {
            assert(r@ =~= a@.subrange(0, i as int));
        }
    }
    proof {
        assert(r@ =~= a@);
    }
    r
}

fn copy_maps(a: &Vec<VecMap<u32>>) -> (r: Vec<VecMap<u32>>)
    ensures
        r@.len() == a@.len(),
        forall|i: int| 0 <= i < a@.len() ==> vm_map(#[trigger] r@[i]) == vm_map(a@[i]),
{
    let mut r: Vec<VecMap<u32>> = Vec::new();
    let mut i: usize = 0;
    while i < a.len()
        invariant
            i <= a@.len(),
            r@.len() == i,
            forall|u: int| 0 <= u < i ==> vm_map(#[trigger] r@[u]) == vm_map(a@[u]),
        decreases a@.len() - i,
    {
        r.push(vm_clone(&a[i]));
        i = i + 1;
    }
    r
}

/// The shapes the search relies on: for each location of `gk` its location
/// in each agent's knowledge game, and for each agent and location of its
/// knowledge game the options there.
pub open spec fn tables_ok(gk: Game, to_gki: Seq<Vec<Loc>>, opts: Seq<Vec<Option<Vec<Act>>>>) -> bool {
    &&& to_gki.len() == gk.nloc()
    &&& opts.len() == gk.n_agents()
    &&& forall|i: int| 0 <= i < opts.len() ==> (#[trigger] opts[i])@.len() <= u32::MAX
    &&& forall|l: int| 0 <= l < to_gki.len() ==> (#[trigger] to_gki[l])@.len() == gk.n_agents()
    &&& forall|l: int, i: int| 0 <= l < to_gki.len() && 0 <= i < gk.n_agents() ==>
        (#[trigger] to_gki[l]@[i]).0 < opts[i]@.len()
}

/// Checks `tables_ok`.
pub fn check_tables(gk: &Game, to_gki: &Vec<Vec<Loc>>, opts: &Vec<Vec<Option<Vec<Act>>>>) -> (r: bool)
    ensures
        r == tables_ok(*gk, to_gki@, opts@),
{
    let na = gk.n_actions.len();
    if to_gki.len() != gk.n_loc() || opts.len() != na {
        return false;
    }
    let mut i: usize = 0;
    while i < na
        invariant
            opts@.len() == na,
            i <= na,
            forall|k: int| 0 <= k < i ==> (#[trigger] opts@[k])@.len() <= u32::MAX,
        decreases na - i,
    {
        if opts[i].len() > u32::MAX as usize {
            return false;
        }
        i = i + 1;
    }
    let mut l: usize = 0;
    while l < to_gki.len()
        invariant
            na == gk.n_agents(),
            opts@.len() == na,
            to_gki@.len() == gk.nloc(),
            l <= to_gki@.len(),
            forall|k: int| 0 <= k < l ==> (#[trigger] to_gki@[k])@.len() == na,
            forall|k: int, t: int| 0 <= k < l && 0 <= t < na ==> (#[trigger] to_gki@[k]@[t]).0 < opts@[t]@.len(),
        decreases to_gki@.len() - l,
    {
        if to_gki[l].len() != na {
            return false;
        }
        let mut t: usize = 0;
        while t < na
            invariant
                na == gk.n_agents(),
                opts@.len() == na,
                l < to_gki@.len(),
                to_gki@[l as int]@.len() == na,
                t <= na,
                forall|u: int| 0 <= u < t ==> (#[trigger] to_gki@[l as int]@[u]).0 < opts@[u]@.len(),
            decreases na - t,
        {
            if to_gki[l][t].index() >= opts[t].len() {
                return false;
            }
            t = t + 1;
        }
        l = l + 1;
    }
    true
}


/// Colours of the locations the search has reached.
pub const GRAY: u32 = 0;
pub const BLACK: u32 = 1;

/// The keys of `m` are finitely many locations of a game of `n` locations.
spec fn keys_below(m: Map<nat, u32>, n: nat) -> bool {
    &&& m.dom().finite()
    &&& forall|k: nat| #[trigger] m.dom().contains(k) ==> k < n
}

/// The joint action that the partial strategies `s` choose at location `l`
/// of the expanded game: agent `i` decides at its knowledge location
/// `to_gki[l][i]`, where `s[i]` maps knowledge locations to action numbers.
pub open spec fn maps_sel(s: Seq<Map<nat, u32>>, to_gki: Seq<Vec<Loc>>) -> spec_fn(int) -> Option<Seq<Act>> {
    |l: int| if forall|i: int| 0 <= i < s.len() ==> #[trigger] s[i].dom().contains(to_gki[l]@[i].0 as nat) {
        Some(Seq::new(s.len(), |i: int| Act(s[i][to_gki[l]@[i].0 as nat] as u16)))
    } else {
        None
    }
}

/// The joint action the profile `p` chooses at location `l` of the
/// expanded game, where every agent has chosen at its knowledge location.
pub open spec fn strat_sel(p: Seq<Strat>, to_gki: Seq<Vec<Loc>>) -> spec_fn(int) -> Option<Seq<Act>> {
    |l: int| if forall|i: int| 0 <= i < p.len() ==>
        (to_gki[l]@[i].0 as int) < (#[trigger] p[i]).choice@.len() && p[i].choice@[to_gki[l]@[i].0 as int] is Some {
        Some(Seq::new(p.len(), |i: int| p[i].choice@[to_gki[l]@[i].0 as int].unwrap()))
    } else {
        None
    }
}

/// The profile `p`, one strategy per agent of `gk` deciding at the agent's
/// knowledge locations `to_gki`, wins `gk` from its initial location.
pub open spec fn profile_wins(gk: Game, to_gki: Seq<Vec<Loc>>, p: Seq<Strat>) -> bool {
    p.len() == gk.n_agents() && wins_from(gk, strat_sel(p, to_gki), 0)
}

/// The maps held by `strat`.
spec fn maps_of(strat: Seq<VecMap<u32>>) -> Seq<Map<nat, u32>> {
    Seq::new(strat.len(), |i: int| vm_map(strat[i]))
}

spec fn is_black(v: Map<nat, u32>, l: int) -> bool {
    v.dom().contains(l as nat) && v[l as nat] == BLACK
}

spec fn is_gray(v: Map<nat, u32>, l: int) -> bool {
    v.dom().contains(l as nat) && v[l as nat] == GRAY
}

/// `l2` is finished, or pending above position `q`.
spec fn covered(v: Map<nat, u32>, tasks: Seq<(bool, Loc)>, q: int, l2: Loc) -> bool {
    is_black(v, l2.0 as int) || exists|q2: int| q < q2 < tasks.len() && (#[trigger] tasks[q2]).1 == l2
}

/// The location to finish at position `q` is in progress, its joint
/// action is decided and leads somewhere, and what it leads to is finished
/// or pending above it.
spec fn finish_ok(gk: Game, to_gki: Seq<Vec<Loc>>, v: Map<nat, u32>, s: Seq<Map<nat, u32>>,
    tasks: Seq<(bool, Loc)>, q: int) -> bool
{
    let l = tasks[q].1.0 as int;
    let sel = maps_sel(s, to_gki);
    &&& is_gray(v, l)
    &&& sel(l) is Some
    &&& gk.post_spec(l, sel(l).unwrap()).len() > 0
    &&& forall|j: int| 0 <= j < gk.post_spec(l, sel(l).unwrap()).len() ==>
        covered(v, tasks, q, #[trigger] gk.post_spec(l, sel(l).unwrap())[j])
}

/// What the search keeps: every finished location wins under the
/// strategies decided so far; every location to finish is as `finish_ok`
/// says, and none is to be finished twice; the initial location is
/// finished or pending.
spec fn search_ok(gk: Game, to_gki: Seq<Vec<Loc>>, v: Map<nat, u32>, s: Seq<Map<nat, u32>>,
    tasks: Seq<(bool, Loc)>) -> bool
{
    &&& forall|l: int| 0 <= l < gk.nloc() && #[trigger] is_black(v, l) ==> wins_from(gk, maps_sel(s, to_gki), l)
    &&& forall|q: int| 0 <= q < tasks.len() && (#[trigger] tasks[q]).0 ==> finish_ok(gk, to_gki, v, s, tasks, q)
    &&& forall|q: int, q2: int| 0 <= q < q2 < tasks.len() && (#[trigger] tasks[q]).0 && (#[trigger] tasks[q2]).0 ==>
        tasks[q].1 != tasks[q2].1
    &&& is_black(v, 0) || exists|q: int| 0 <= q < tasks.len() && (#[trigger] tasks[q]).1 == Loc(0)
}

/// `x` is reached and not finished.
spec fn in_progress(v: Map<nat, u32>, x: int) -> bool {
    v.dom().contains(x as nat) && !is_black(v, x)
}

/// Every location in progress is to be finished.
spec fn grays_pending(n: nat, v: Map<nat, u32>, tasks: Seq<(bool, Loc)>) -> bool {
    forall|x: int| 0 <= x < n && #[trigger] in_progress(v, x) ==>
        exists|q: int| 0 <= q < tasks.len() && (#[trigger] tasks[q]).0 && tasks[q].1.0 as int == x
}

/// Taking the top entry off and finishing locations keeps `grays_pending`,
/// unless a location still in progress loses its entry.
proof fn lemma_grays_pop(n: nat, v: Map<nat, u32>, v2: Map<nat, u32>, tasks: Seq<(bool, Loc)>)
    requires
        grays_pending(n, v, tasks),
        tasks.len() > 0,
        forall|x: int| 0 <= x < n && #[trigger] in_progress(v2, x) ==> in_progress(v, x)
            && (tasks.last().0 ==> tasks.last().1.0 as int != x),
    ensures
        grays_pending(n, v2, tasks.drop_last()),
{
    let t2 = tasks.drop_last();
    assert forall|x: int| 0 <= x < n && #[trigger] in_progress(v2, x) implies
        exists|q: int| 0 <= q < t2.len() && (#[trigger] t2[q]).0 && t2[q].1.0 as int == x by {
        assert(in_progress(v, x));
        let q = choose|q: int| 0 <= q < tasks.len() && (#[trigger] tasks[q]).0 && tasks[q].1.0 as int == x;
        assert(tasks[tasks.len() - 1] == tasks.last());
        assert(q != tasks.len() - 1);
        assert(t2[q] == tasks[q]);
    }
}

/// Entering the top location keeps `grays_pending`.
proof fn lemma_grays_branch(n: nat, v: Map<nat, u32>, tasks: Seq<(bool, Loc)>, next: Seq<(bool, Loc)>)
    requires
        grays_pending(n, v, tasks),
        tasks.len() > 0,
        !tasks.last().0,
        next.len() >= tasks.len(),
        forall|x: int| 0 <= x < tasks.len() - 1 ==> #[trigger] next[x] == tasks[x],
        next[tasks.len() - 1] == (true, tasks.last().1),
    ensures
        grays_pending(n, v.insert(tasks.last().1.0 as nat, GRAY), next),
{
    let l = tasks.last().1;
    let v2 = v.insert(l.0 as nat, GRAY);
    assert forall|x: int| 0 <= x < n && #[trigger] in_progress(v2, x) implies
        exists|q: int| 0 <= q < next.len() && (#[trigger] next[q]).0 && next[q].1.0 as int == x by {
        if x == l.0 as int {
            assert(next[tasks.len() - 1].0);
        } else {
            assert(in_progress(v, x));
            let q = choose|q: int| 0 <= q < tasks.len() && (#[trigger] tasks[q]).0 && tasks[q].1.0 as int == x;
            assert(tasks[tasks.len() - 1] == tasks.last());
            assert(q != tasks.len() - 1);
            assert(next[q] == tasks[q]);
        }
    }
}

/// The strategies `p` choose only among the options `opts`.
pub open spec fn drawn(opts: Seq<Vec<Option<Vec<Act>>>>, p: Seq<Map<nat, u32>>) -> bool {
    &&& p.len() == opts.len()
    &&& forall|i: int, x: nat| 0 <= i < p.len() && #[trigger] p[i].dom().contains(x) ==> {
        &&& (x as int) < opts[i]@.len()
        &&& opts[i]@[x as int] is Some
        &&& p[i][x] <= u16::MAX
        &&& opts[i]@[x as int].unwrap()@.contains(Act(p[i][x] as u16))
    }
}

/// `p` keeps every choice of `s`.
pub open spec fn extends_maps(s: Seq<Map<nat, u32>>, p: Seq<Map<nat, u32>>) -> bool {
    &&& s.len() == p.len()
    &&& forall|i: int, x: nat| 0 <= i < s.len() && #[trigger] s[i].dom().contains(x) ==>
        p[i].dom().contains(x) && p[i][x] == s[i][x]
}

/// From `x`, playing what `sel` chooses, some play reaches `y` within `k`
/// moves, without passing a goal before.
pub open spec fn reach_within(g: Game, sel: spec_fn(int) -> Option<Seq<Act>>, x: int, y: int, k: nat) -> bool
    decreases k,
{
    x == y || (k > 0 && !g.loc@[x].is_winning && sel(x) is Some
        && exists|j: int| 0 <= j < g.post_spec(x, sel(x).unwrap()).len()
            && reach_within(g, sel, (#[trigger] g.post_spec(x, sel(x).unwrap())[j]).0 as int, y, (k - 1) as nat))
}

pub open spec fn reaches(g: Game, sel: spec_fn(int) -> Option<Seq<Act>>, x: int, y: int) -> bool {
    exists|k: nat| #[trigger] reach_within(g, sel, x, y, k)
}

/// What a location wins within gives a bound for every location it reaches.
proof fn lemma_wins_along(g: Game, sel: spec_fn(int) -> Option<Seq<Act>>, x: int, y: int, k: nat, j: nat) -> (k2: nat)
    requires
        wins_under(g, sel, x, k),
        reach_within(g, sel, x, y, j),
    ensures
        k2 <= k,
        x != y ==> k2 < k,
        wins_under(g, sel, y, k2),
    decreases j,
{
    if x == y {
        k
    } else {
        let a = sel(x).unwrap();
        let jj = choose|jj: int| 0 <= jj < g.post_spec(x, a).len()
            && reach_within(g, sel, (#[trigger] g.post_spec(x, a)[jj]).0 as int, y, (j - 1) as nat);
        let z = g.post_spec(x, a)[jj].0 as int;
        assert(wins_under(g, sel, z, (k - 1) as nat));
        lemma_wins_along(g, sel, z, y, (k - 1) as nat, (j - 1) as nat)
    }
}

/// A location that wins is on no cycle of plays.
proof fn lemma_no_return(g: Game, sel: spec_fn(int) -> Option<Seq<Act>>, l: int, k: nat, a: Seq<Act>, q: int, j: nat)
    requires
        wins_under(g, sel, l, k),
        !g.loc@[l].is_winning,
        sel(l) == Some(a),
        0 <= q < g.post_spec(l, a).len(),
    ensures
        !reach_within(g, sel, g.post_spec(l, a)[q].0 as int, l, j),
    decreases k,
{
    let z = g.post_spec(l, a)[q].0 as int;
    if reach_within(g, sel, z, l, j) {
        assert(wins_under(g, sel, z, (k - 1) as nat));
        let k2 = lemma_wins_along(g, sel, z, l, (k - 1) as nat, j);
        lemma_no_return(g, sel, l, k2, a, q, j);
    }
}

/// One move more.
proof fn lemma_reach_step(g: Game, sel: spec_fn(int) -> Option<Seq<Act>>, x: int, a: Seq<Act>, q: int, y: int, j: nat)
    requires
        !g.loc@[x].is_winning,
        sel(x) == Some(a),
        0 <= q < g.post_spec(x, a).len(),
        reach_within(g, sel, g.post_spec(x, a)[q].0 as int, y, j),
    ensures
        reach_within(g, sel, x, y, j + 1),
{
    let k = (j + 1) as nat;
    let b = sel(x).unwrap();
    assert(b == a);
    assert((k - 1) as nat == j);
    assert(reach_within(g, sel, (g.post_spec(x, b)[q]).0 as int, y, (k - 1) as nat));
}

/// The extensions include every sequence of `ps` extended by an element of
/// `xs`.
proof fn lemma_extend_all_contains(ps: Seq<Seq<Act>>, xs: Seq<Act>, p: Seq<Act>, x: Act)
    requires
        ps.contains(p),
        xs.contains(x),
    ensures
        extend_all(ps, xs).contains(p.push(x)),
    decreases ps.len(),
{
    let k = choose|k: int| 0 <= k < ps.len() && ps[k] == p;
    let j = choose|j: int| 0 <= j < xs.len() && xs[j] == x;
    if k == ps.len() - 1 {
        let m = xs.map_values(|a: Act| ps.last().push(a));
        assert(m[j] == p.push(x));
        let e = extend_all(ps.drop_last(), xs);
        assert((e + m)[e.len() + j] == m[j]);
    } else {
        assert(ps.drop_last()[k] == p);
        lemma_extend_all_contains(ps.drop_last(), xs, p, x);
        let e = extend_all(ps.drop_last(), xs);
        let m = xs.map_values(|a: Act| ps.last().push(a));
        let i = choose|i: int| 0 <= i < e.len() && e[i] == p.push(x);
        assert((e + m)[i] == e[i]);
    }
}

/// What the extensions hold: a sequence of `ps` extended by an element of
/// `xs`.
proof fn lemma_extend_all_member(ps: Seq<Seq<Act>>, xs: Seq<Act>, c: Seq<Act>) -> (kj: (int, int))
    requires
        extend_all(ps, xs).contains(c),
    ensures
        0 <= kj.0 < ps.len(),
        0 <= kj.1 < xs.len(),
        c == ps[kj.0].push(xs[kj.1]),
    decreases ps.len(),
{
    if ps.len() == 0 {
        assert(extend_all(ps, xs).len() == 0);
        (0, 0)
    } else {
        let e = extend_all(ps.drop_last(), xs);
        let m = xs.map_values(|a: Act| ps.last().push(a));
        assert(extend_all(ps, xs) == e + m);
        let i = choose|i: int| 0 <= i < (e + m).len() && (e + m)[i] == c;
        if i < e.len() {
            assert(e[i] == c);
            let r = lemma_extend_all_member(ps.drop_last(), xs, c);
            assert(ps.drop_last()[r.0] == ps[r.0]);
            r
        } else {
            let j = i - e.len();
            assert(m[j] == c);
            assert(ps[ps.len() - 1] == ps.last());
            (ps.len() - 1, j)
        }
    }
}

/// Every combination picks one element of each sequence.
proof fn lemma_product_member(opts: Seq<Seq<Act>>, c: Seq<Act>)
    requires
        product_spec(opts).contains(c),
    ensures
        c.len() == opts.len(),
        forall|i: int| 0 <= i < c.len() ==> #[trigger] opts[i].contains(c[i]),
    decreases opts.len(),
{
    if opts.len() == 0 {
        assert(product_spec(opts) == seq![Seq::<Act>::empty()]);
        assert(c == Seq::<Act>::empty());
    } else {
        let ps = product_spec(opts.drop_last());
        let kj = lemma_extend_all_member(ps, opts.last(), c);
        let d = ps[kj.0];
        assert(ps.contains(d));
        lemma_product_member(opts.drop_last(), d);
        assert forall|i: int| 0 <= i < c.len() implies #[trigger] opts[i].contains(c[i]) by {
            if i < d.len() {
                assert(opts.drop_last()[i].contains(d[i]));
                assert(c[i] == d[i]);
            } else {
                assert(c[i] == opts.last()[kj.1]);
                assert(opts[i] == opts.last());
            }
        }
    }
}

/// The extensions are distinct when the sequences and the elements are.
proof fn lemma_extend_all_distinct(ps: Seq<Seq<Act>>, xs: Seq<Act>)
    requires
        ps.no_duplicates(),
        xs.no_duplicates(),
    ensures
        extend_all(ps, xs).no_duplicates(),
    decreases ps.len(),
{
    if ps.len() > 0 {
        let d = ps.drop_last();
        assert forall|i: int, j: int| 0 <= i < j < d.len() implies d[i] != d[j] by {
            assert(d[i] == ps[i] && d[j] == ps[j]);
        }
        lemma_extend_all_distinct(d, xs);
        let e = extend_all(d, xs);
        let m = xs.map_values(|a: Act| ps.last().push(a));
        assert(extend_all(ps, xs) == e + m);
        assert(ps[ps.len() - 1] == ps.last());
        assert forall|i: int, j: int| 0 <= i < j < (e + m).len() implies (e + m)[i] != (e + m)[j] by {
            if j < e.len() {
                assert((e + m)[i] == e[i] && (e + m)[j] == e[j]);
            } else if i < e.len() {
                assert((e + m)[i] == e[i]);
                assert((e + m)[j] == m[j - e.len()]);
                assert(e.contains(e[i]));
                let kj = lemma_extend_all_member(d, xs, e[i]);
                if e[i] == m[j - e.len()] {
                    assert(e[i].drop_last() =~= d[kj.0]);
                    assert(m[j - e.len()].drop_last() =~= ps.last());
                    assert(d[kj.0] == ps[kj.0]);
                }
            } else {
                let i2 = i - e.len();
                let j2 = j - e.len();
                assert((e + m)[i] == m[i2] && (e + m)[j] == m[j2]);
                if m[i2] == m[j2] {
                    assert(m[i2].last() == xs[i2]);
                    assert(m[j2].last() == xs[j2]);
                }
            }
        }
    }
}

/// The combinations are distinct when every sequence is.
proof fn lemma_product_distinct(opts: Seq<Seq<Act>>)
    requires
        forall|i: int| 0 <= i < opts.len() ==> (#[trigger] opts[i]).no_duplicates(),
    ensures
        product_spec(opts).no_duplicates(),
    decreases opts.len(),
{
    if opts.len() > 0 {
        let d = opts.drop_last();
        assert forall|i: int| 0 <= i < d.len() implies (#[trigger] d[i]).no_duplicates() by {
            assert(d[i] == opts[i]);
        }
        lemma_product_distinct(d);
        assert(opts[opts.len() - 1] == opts.last());
        lemma_extend_all_distinct(product_spec(d), opts.last());
    }
}

/// Every pick of one element of each sequence is a combination.
proof fn lemma_product_contains(opts: Seq<Seq<Act>>, a: Seq<Act>)
    requires
        a.len() == opts.len(),
        forall|i: int| 0 <= i < a.len() ==> #[trigger] opts[i].contains(a[i]),
    ensures
        product_spec(opts).contains(a),
    decreases opts.len(),
{
    if opts.len() == 0 {
        assert(a =~= Seq::<Act>::empty());
        assert(product_spec(opts)[0] == a);
    } else {
        let d = a.drop_last();
        assert forall|i: int| 0 <= i < d.len() implies #[trigger] opts.drop_last()[i].contains(d[i]) by {
            assert(opts[i].contains(a[i]));
        }
        lemma_product_contains(opts.drop_last(), d);
        assert(opts.last().contains(a.last())) by {
            assert(opts[a.len() - 1].contains(a[a.len() - 1]));
        }
        lemma_extend_all_contains(product_spec(opts.drop_last()), opts.last(), d, a.last());
        assert(d.push(a.last()) =~= a);
    }
}

/// Some strategies that keep the decisions made so far, choose among the
/// options and win from every location still to visit, where no such
/// location reaches one in progress below it.
spec fn good(gk: Game, to_gki: Seq<Vec<Loc>>, opts: Seq<Vec<Option<Vec<Act>>>>, v: Map<nat, u32>,
    s: Seq<Map<nat, u32>>, tasks: Seq<(bool, Loc)>, p: Seq<Map<nat, u32>>) -> bool
{
    let sel = maps_sel(p, to_gki);
    &&& drawn(opts, p)
    &&& extends_maps(s, p)
    &&& forall|q: int| 0 <= q < tasks.len() && !(#[trigger] tasks[q]).0 && !is_black(v, tasks[q].1.0 as int) ==>
        wins_from(gk, sel, tasks[q].1.0 as int)
    &&& forall|q: int, q2: int| 0 <= q2 < q < tasks.len() && !(#[trigger] tasks[q]).0 && !is_black(v, tasks[q].1.0 as int)
        && (#[trigger] tasks[q2]).0 ==> !reaches(gk, sel, tasks[q].1.0 as int, tasks[q2].1.0 as int)
}

/// Some strategies are `good`.
spec fn some_good(gk: Game, to_gki: Seq<Vec<Loc>>, opts: Seq<Vec<Option<Vec<Act>>>>, v: Map<nat, u32>,
    s: Seq<Map<nat, u32>>, tasks: Seq<(bool, Loc)>) -> bool
{
    exists|p: Seq<Map<nat, u32>>| good(gk, to_gki, opts, v, s, tasks, p)
}

/// Strategies that are `good`, where some are.
proof fn lemma_pick_good(gk: Game, to_gki: Seq<Vec<Loc>>, opts: Seq<Vec<Option<Vec<Act>>>>, v: Map<nat, u32>,
    s: Seq<Map<nat, u32>>, tasks: Seq<(bool, Loc)>) -> (p: Seq<Map<nat, u32>>)
    requires
        some_good(gk, to_gki, opts, v, s, tasks),
    ensures
        good(gk, to_gki, opts, v, s, tasks, p),
{
    choose|p: Seq<Map<nat, u32>>| good(gk, to_gki, opts, v, s, tasks, p)
}

/// Taking the top entry off and finishing locations keeps `good`.
proof fn lemma_good_pop(gk: Game, to_gki: Seq<Vec<Loc>>, opts: Seq<Vec<Option<Vec<Act>>>>, v: Map<nat, u32>,
    v2: Map<nat, u32>, s: Seq<Map<nat, u32>>, tasks: Seq<(bool, Loc)>, p: Seq<Map<nat, u32>>)
    requires
        good(gk, to_gki, opts, v, s, tasks, p),
        tasks.len() > 0,
        forall|x: int| #[trigger] is_black(v, x) ==> is_black(v2, x),
    ensures
        good(gk, to_gki, opts, v2, s, tasks.drop_last(), p),
{
    let t2 = tasks.drop_last();
    let sel = maps_sel(p, to_gki);
    assert forall|q: int| 0 <= q < t2.len() && !(#[trigger] t2[q]).0 && !is_black(v2, t2[q].1.0 as int) implies
        wins_from(gk, sel, t2[q].1.0 as int) by {
        assert(t2[q] == tasks[q]);
        if is_black(v, tasks[q].1.0 as int) {
            assert(is_black(v2, tasks[q].1.0 as int));
        }
    }
    assert forall|q: int, q2: int| 0 <= q2 < q < t2.len() && !(#[trigger] t2[q]).0 && !is_black(v2, t2[q].1.0 as int)
        && (#[trigger] t2[q2]).0 implies !reaches(gk, sel, t2[q].1.0 as int, t2[q2].1.0 as int) by {
        assert(t2[q] == tasks[q] && t2[q2] == tasks[q2]);
        if is_black(v, tasks[q].1.0 as int) {
            assert(is_black(v2, tasks[q].1.0 as int));
        }
    }
}

/// A location in progress is not to be visited again under strategies
/// that are `good`: it would reach itself.
proof fn lemma_good_in_progress(gk: Game, to_gki: Seq<Vec<Loc>>, opts: Seq<Vec<Option<Vec<Act>>>>,
    v: Map<nat, u32>, s: Seq<Map<nat, u32>>, tasks: Seq<(bool, Loc)>, p: Seq<Map<nat, u32>>)
    requires
        grays_pending(gk.nloc(), v, tasks),
        tasks.len() > 0,
        !tasks.last().0,
        (tasks.last().1.0 as int) < gk.nloc(),
        in_progress(v, tasks.last().1.0 as int),
    ensures
        !good(gk, to_gki, opts, v, s, tasks, p),
{
    let t = tasks.len() - 1;
    let l = tasks.last().1.0 as int;
    assert(tasks[t] == tasks.last());
    let q2 = choose|q: int| 0 <= q < tasks.len() && (#[trigger] tasks[q]).0 && tasks[q].1.0 as int == l;
    assert(q2 != t);
    assert(reach_within(gk, maps_sel(p, to_gki), l, l, 0));
    assert(reaches(gk, maps_sel(p, to_gki), l, tasks[q2].1.0 as int));
}

/// Under strategies that are `good`, the top location to visit, when it is
/// no goal, has a joint action whose options all exist and contain it, and
/// which leads somewhere.
proof fn lemma_good_options(gk: Game, to_gki: Seq<Vec<Loc>>, opts: Seq<Vec<Option<Vec<Act>>>>,
    v: Map<nat, u32>, s: Seq<Map<nat, u32>>, tasks: Seq<(bool, Loc)>, p: Seq<Map<nat, u32>>)
    requires
        tables_ok(gk, to_gki, opts),
        good(gk, to_gki, opts, v, s, tasks, p),
        tasks.len() > 0,
        !tasks.last().0,
        (tasks.last().1.0 as int) < gk.nloc(),
        !is_black(v, tasks.last().1.0 as int),
        !gk.loc@[tasks.last().1.0 as int].is_winning,
    ensures
        maps_sel(p, to_gki)(tasks.last().1.0 as int) is Some,
        gk.post_spec(tasks.last().1.0 as int, maps_sel(p, to_gki)(tasks.last().1.0 as int).unwrap()).len() > 0,
        forall|u: int| 0 <= u < gk.n_agents() ==> {
            let x = (#[trigger] to_gki[tasks.last().1.0 as int]@[u]).0 as int;
            &&& opts[u]@[x] is Some
            &&& opts[u]@[x].unwrap()@.contains(maps_sel(p, to_gki)(tasks.last().1.0 as int).unwrap()[u])
        },
{
    let t = tasks.len() - 1;
    let l = tasks.last().1.0 as int;
    let sel = maps_sel(p, to_gki);
    assert(tasks[t] == tasks.last());
    assert(wins_from(gk, sel, l));
    let k = choose|k: nat| wins_under(gk, sel, l, k);
    assert(sel(l) is Some);
    assert forall|u: int| 0 <= u < gk.n_agents() implies {
        let x = (#[trigger] to_gki[l]@[u]).0 as int;
        &&& opts[u]@[x] is Some
        &&& opts[u]@[x].unwrap()@.contains(sel(l).unwrap()[u])
    } by {
        assert(p[u].dom().contains(to_gki[l]@[u].0 as nat));
    }
}

/// Entering the top location with the joint action that `good` strategies
/// choose there keeps them `good`.
proof fn lemma_good_branch(gk: Game, to_gki: Seq<Vec<Loc>>, opts: Seq<Vec<Option<Vec<Act>>>>,
    v: Map<nat, u32>, s: Seq<Map<nat, u32>>, s2: Seq<Map<nat, u32>>, tasks: Seq<(bool, Loc)>,
    next: Seq<(bool, Loc)>, p: Seq<Map<nat, u32>>)
    requires
        gk.wf(),
        good(gk, to_gki, opts, v, s, tasks, p),
        tasks.len() > 0,
        !tasks.last().0,
        (tasks.last().1.0 as int) < gk.nloc(),
        !v.dom().contains(tasks.last().1.0 as nat),
        !gk.loc@[tasks.last().1.0 as int].is_winning,
        maps_sel(p, to_gki)(tasks.last().1.0 as int) is Some,
        s2.len() == s.len(),
        forall|i: int| 0 <= i < s.len() ==> #[trigger] s2[i] == s[i].insert(to_gki[tasks.last().1.0 as int]@[i].0 as nat,
            maps_sel(p, to_gki)(tasks.last().1.0 as int).unwrap()[i].0 as u32),
        next.len() == tasks.len() + gk.post_spec(tasks.last().1.0 as int,
            maps_sel(p, to_gki)(tasks.last().1.0 as int).unwrap()).len(),
        forall|x: int| 0 <= x < tasks.len() - 1 ==> #[trigger] next[x] == tasks[x],
        next[tasks.len() - 1] == (true, tasks.last().1),
        forall|j: int| 0 <= j < gk.post_spec(tasks.last().1.0 as int, maps_sel(p, to_gki)(tasks.last().1.0 as int).unwrap()).len() ==>
            next[tasks.len() + j] == (false, #[trigger] gk.post_spec(tasks.last().1.0 as int,
                maps_sel(p, to_gki)(tasks.last().1.0 as int).unwrap())[j]),
    ensures
        good(gk, to_gki, opts, v.insert(tasks.last().1.0 as nat, GRAY), s2, next, p),
{
    let t = tasks.len() - 1;
    let l = tasks.last().1.0 as int;
    let sel = maps_sel(p, to_gki);
    let a = sel(l).unwrap();
    let post = gk.post_spec(l, a);
    let v2 = v.insert(l as nat, GRAY);
    assert(tasks[t] == tasks.last());
    assert(wins_from(gk, sel, l));
    let k = choose|k: nat| wins_under(gk, sel, l, k);
    assert(k > 0);
    assert forall|i: int, x: nat| 0 <= i < s2.len() && #[trigger] s2[i].dom().contains(x) implies
        p[i].dom().contains(x) && p[i][x] == s2[i][x] by {
        assert(s2[i] == s[i].insert(to_gki[l]@[i].0 as nat, a[i].0 as u32));
        if x != to_gki[l]@[i].0 as nat {
            assert(s[i].dom().contains(x));
        } else {
            assert(p[i].dom().contains(x));
            assert(p[i][x] <= u16::MAX);
        }
    }
    assert(extends_maps(s2, p));
    assert forall|q: int| 0 <= q < next.len() && !(#[trigger] next[q]).0 && !is_black(v2, next[q].1.0 as int) implies
        wins_from(gk, sel, next[q].1.0 as int) by {
        if q < t {
            assert(next[q] == tasks[q]);
        } else {
            let j = q - tasks.len();
            assert(next[tasks.len() + j] == (false, post[j]));
            assert(wins_under(gk, sel, post[j].0 as int, (k - 1) as nat));
        }
    }
    assert forall|q: int, q2: int| 0 <= q2 < q < next.len() && !(#[trigger] next[q]).0 && !is_black(v2, next[q].1.0 as int)
        && (#[trigger] next[q2]).0 implies !reaches(gk, sel, next[q].1.0 as int, next[q2].1.0 as int) by {
        if q < t {
            assert(next[q] == tasks[q] && next[q2] == tasks[q2]);
        } else if q == t {
            assert(next[t].0);
        } else {
            let j = q - tasks.len();
            assert(next[tasks.len() + j] == (false, post[j]));
            let z = post[j].0 as int;
            if q2 > t {
                let j2 = q2 - tasks.len();
                assert(next[tasks.len() + j2] == (false, post[j2]));
            } else if q2 == t {
                if reaches(gk, sel, z, l) {
                    let kk = choose|kk: nat| #[trigger] reach_within(gk, sel, z, l, kk);
                    lemma_no_return(gk, sel, l, k, a, j, kk);
                }
            } else {
                assert(next[q2] == tasks[q2]);
                let y = tasks[q2].1.0 as int;
                if reaches(gk, sel, z, y) {
                    let kk = choose|kk: nat| #[trigger] reach_within(gk, sel, z, y, kk);
                    lemma_reach_step(gk, sel, l, a, j, y, kk);
                    assert(reaches(gk, sel, l, y));
                }
            }
        }
    }
}

/// The locations of `gk` that are no goal and that a play from the
/// initial location, played as `sel` chooses, reaches before any goal.
pub open spec fn reached(gk: Game, sel: spec_fn(int) -> Option<Seq<Act>>) -> Set<nat> {
    Set::new(|y: nat| (y as int) < gk.nloc() && !gk.loc@[y as int].is_winning && reaches(gk, sel, 0, y as int))
}

/// The reached locations that are no goal.
spec fn decided(gk: Game, v: Map<nat, u32>) -> Set<nat> {
    Set::new(|x: nat| v.dom().contains(x) && !gk.loc@[x as int].is_winning)
}

/// Every finished location that is no goal has a joint action under
/// `sel`, and every location it leads to is finished.
spec fn closed_under(gk: Game, v: Map<nat, u32>, sel: spec_fn(int) -> Option<Seq<Act>>) -> bool {
    forall|x: int| 0 <= x < gk.nloc() && #[trigger] is_black(v, x) && !gk.loc@[x].is_winning ==> {
        &&& sel(x) is Some
        &&& forall|j: int| 0 <= j < gk.post_spec(x, sel(x).unwrap()).len() ==>
            is_black(v, (#[trigger] gk.post_spec(x, sel(x).unwrap())[j]).0 as int)
    }
}

/// Reaching a location adds it to `decided` when it is no goal.
proof fn lemma_decided_insert(gk: Game, v: Map<nat, u32>, k: nat, c: u32)
    requires
        v.dom().finite(),
    ensures
        decided(gk, v).finite(),
        decided(gk, v).len() <= v.dom().len(),
        (!v.dom().contains(k) && !gk.loc@[k as int].is_winning) ==>
            decided(gk, v.insert(k, c)).len() == decided(gk, v).len() + 1,
        !(!v.dom().contains(k) && !gk.loc@[k as int].is_winning) ==>
            decided(gk, v.insert(k, c)).len() == decided(gk, v).len(),
{
    lemma_len_subset(decided(gk, v), v.dom());
    if !v.dom().contains(k) && !gk.loc@[k as int].is_winning {
        assert(decided(gk, v.insert(k, c)) =~= decided(gk, v).insert(k));
    } else {
        assert(decided(gk, v.insert(k, c)) =~= decided(gk, v));
    }
}

/// What is reached from a finished location is finished.
proof fn lemma_reach_black(gk: Game, v: Map<nat, u32>, sel: spec_fn(int) -> Option<Seq<Act>>, x: int, y: int, k: nat)
    requires
        gk.wf(),
        closed_under(gk, v, sel),
        0 <= x < gk.nloc(),
        is_black(v, x),
        reach_within(gk, sel, x, y, k),
    ensures
        is_black(v, y),
    decreases k,
{
    if x != y {
        let a = sel(x).unwrap();
        let j = choose|j: int| 0 <= j < gk.post_spec(x, a).len()
            && reach_within(gk, sel, (#[trigger] gk.post_spec(x, a)[j]).0 as int, y, (k - 1) as nat);
        lemma_post_target(gk, x, a, j);
        lemma_reach_black(gk, v, sel, gk.post_spec(x, a)[j].0 as int, y, (k - 1) as nat);
    }
}

/// Under strategies closed over the finished locations, from a finished
/// initial location, only decided locations are reached.
proof fn lemma_reached_decided(gk: Game, v: Map<nat, u32>, sel: spec_fn(int) -> Option<Seq<Act>>)
    requires
        gk.wf(),
        closed_under(gk, v, sel),
        is_black(v, 0),
        v.dom().finite(),
    ensures
        reached(gk, sel).finite(),
        reached(gk, sel).len() <= decided(gk, v).len(),
        forall|y: nat| #[trigger] reached(gk, sel).contains(y) ==> decided(gk, v).contains(y),
{
    assert forall|y: nat| #[trigger] reached(gk, sel).contains(y) implies decided(gk, v).contains(y) by {
        let k = choose|k: nat| #[trigger] reach_within(gk, sel, 0, y as int, k);
        lemma_reach_black(gk, v, sel, 0, y as int, k);
    }
    lemma_len_subset(decided(gk, v), v.dom());
    lemma_len_subset(reached(gk, sel), decided(gk, v));
}

/// Finishing a goal, or a location whose targets are finished, keeps
/// `closed_under`.
proof fn lemma_closed_insert_black(gk: Game, v: Map<nat, u32>, sel: spec_fn(int) -> Option<Seq<Act>>, l: int)
    requires
        closed_under(gk, v, sel),
        0 <= l < gk.nloc(),
        !gk.loc@[l].is_winning ==> sel(l) is Some && forall|j: int| 0 <= j < gk.post_spec(l, sel(l).unwrap()).len() ==>
            is_black(v, (#[trigger] gk.post_spec(l, sel(l).unwrap())[j]).0 as int)
            || gk.post_spec(l, sel(l).unwrap())[j].0 as int == l,
    ensures
        closed_under(gk, v.insert(l as nat, BLACK), sel),
{
    let v2 = v.insert(l as nat, BLACK);
    assert forall|x: int| 0 <= x < gk.nloc() && #[trigger] is_black(v2, x) && !gk.loc@[x].is_winning implies {
        &&& sel(x) is Some
        &&& forall|j: int| 0 <= j < gk.post_spec(x, sel(x).unwrap()).len() ==>
            is_black(v2, (#[trigger] gk.post_spec(x, sel(x).unwrap())[j]).0 as int)
    } by {
        let a = sel(x).unwrap();
        if x != l {
            assert(is_black(v, x));
        }
        assert forall|j: int| 0 <= j < gk.post_spec(x, a).len() implies
            is_black(v2, (#[trigger] gk.post_spec(x, a)[j]).0 as int) by {
            if gk.post_spec(x, a)[j].0 as int != l {
                assert(is_black(v, gk.post_spec(x, a)[j].0 as int));
            }
        }
    }
}

/// Entering a location and deciding there keeps `closed_under`.
proof fn lemma_closed_branch(gk: Game, to_gki: Seq<Vec<Loc>>, v: Map<nat, u32>, s: Seq<Map<nat, u32>>,
    s2: Seq<Map<nat, u32>>, l: int, a: Seq<Act>)
    requires
        closed_under(gk, v, maps_sel(s, to_gki)),
        !v.dom().contains(l as nat),
        s.len() == a.len(),
        s2.len() == s.len(),
        forall|i: int| 0 <= i < s.len() ==> #[trigger] s2[i] == s[i].insert(to_gki[l]@[i].0 as nat, a[i].0 as u32),
        forall|i: int| 0 <= i < s.len() && (#[trigger] s[i]).dom().contains(to_gki[l]@[i].0 as nat) ==>
            s[i][to_gki[l]@[i].0 as nat] == a[i].0 as u32,
    ensures
        closed_under(gk, v.insert(l as nat, GRAY), maps_sel(s2, to_gki)),
{
    let v2 = v.insert(l as nat, GRAY);
    let sel = maps_sel(s, to_gki);
    let sel2 = maps_sel(s2, to_gki);
    assert forall|x: int| 0 <= x < gk.nloc() && #[trigger] is_black(v2, x) && !gk.loc@[x].is_winning implies {
        &&& sel2(x) is Some
        &&& forall|j: int| 0 <= j < gk.post_spec(x, sel2(x).unwrap()).len() ==>
            is_black(v2, (#[trigger] gk.post_spec(x, sel2(x).unwrap())[j]).0 as int)
    } by {
        assert(x != l);
        assert(is_black(v, x));
        assert(sel(x) is Some);
        assert forall|i: int| 0 <= i < s2.len() implies #[trigger] s2[i].dom().contains(to_gki[x]@[i].0 as nat) by {
            assert(s[i].dom().contains(to_gki[x]@[i].0 as nat));
            assert(s2[i] == s[i].insert(to_gki[l]@[i].0 as nat, a[i].0 as u32));
        }
        let b1 = Seq::new(s.len(), |i: int| Act(s[i][to_gki[x]@[i].0 as nat] as u16));
        let b2 = Seq::new(s2.len(), |i: int| Act(s2[i][to_gki[x]@[i].0 as nat] as u16));
        assert forall|i: int| 0 <= i < s.len() implies b1[i] == b2[i] by {
            assert(s[i].dom().contains(to_gki[x]@[i].0 as nat));
            assert(s2[i] == s[i].insert(to_gki[l]@[i].0 as nat, a[i].0 as u32));
        }
        assert(b1 =~= b2);
        assert(sel2(x) == sel(x));
        assert forall|j: int| 0 <= j < gk.post_spec(x, sel(x).unwrap()).len() implies
            is_black(v2, (#[trigger] gk.post_spec(x, sel(x).unwrap())[j]).0 as int) by {
            assert(is_black(v, gk.post_spec(x, sel(x).unwrap())[j].0 as int));
        }
    }
}

/// What a play reaches under `sel` it reaches under any `sel2` that
/// agrees with `sel` wherever `sel` chooses.
proof fn lemma_reach_mono(gk: Game, sel: spec_fn(int) -> Option<Seq<Act>>, sel2: spec_fn(int) -> Option<Seq<Act>>,
    x: int, y: int, k: nat)
    requires
        gk.wf(),
        0 <= x < gk.nloc(),
        forall|z: int| 0 <= z < gk.nloc() && (#[trigger] sel(z)) is Some ==> sel2(z) == sel(z),
        reach_within(gk, sel, x, y, k),
    ensures
        reach_within(gk, sel2, x, y, k),
    decreases k,
{
    if x != y {
        let a = sel(x).unwrap();
        let j = choose|j: int| 0 <= j < gk.post_spec(x, a).len()
            && reach_within(gk, sel, (#[trigger] gk.post_spec(x, a)[j]).0 as int, y, (k - 1) as nat);
        lemma_post_target(gk, x, a, j);
        lemma_reach_mono(gk, sel, sel2, gk.post_spec(x, a)[j].0 as int, y, (k - 1) as nat);
        lemma_reach_step(gk, sel2, x, a, j, y, (k - 1) as nat);
    }
}

/// A play that reaches `y` goes on along a transition that `sel` takes at
/// `y`.
proof fn lemma_reach_append(gk: Game, sel: spec_fn(int) -> Option<Seq<Act>>, x: int, y: int, k: nat, a: Seq<Act>, j: int)
    requires
        gk.wf(),
        0 <= x < gk.nloc(),
        reach_within(gk, sel, x, y, k),
        !gk.loc@[y].is_winning,
        sel(y) == Some(a),
        0 <= j < gk.post_spec(y, a).len(),
    ensures
        reach_within(gk, sel, x, gk.post_spec(y, a)[j].0 as int, k + 1),
    decreases k,
{
    let z = gk.post_spec(y, a)[j].0 as int;
    if x == y {
        assert(reach_within(gk, sel, z, z, k));
        lemma_reach_step(gk, sel, x, a, j, z, k);
    } else {
        let b = sel(x).unwrap();
        let i = choose|i: int| 0 <= i < gk.post_spec(x, b).len()
            && reach_within(gk, sel, (#[trigger] gk.post_spec(x, b)[i]).0 as int, y, (k - 1) as nat);
        lemma_post_target(gk, x, b, i);
        lemma_reach_append(gk, sel, gk.post_spec(x, b)[i].0 as int, y, (k - 1) as nat, a, j);
        assert(((k - 1) as nat + 1) as nat == k);
        lemma_reach_step(gk, sel, x, b, i, z, k);
    }
}

/// Every location reached and every location pending is reached by a play
/// from the initial location under the strategies decided so far.
spec fn all_reached(gk: Game, to_gki: Seq<Vec<Loc>>, v: Map<nat, u32>, s: Seq<Map<nat, u32>>,
    tasks: Seq<(bool, Loc)>) -> bool
{
    &&& forall|x: nat| #[trigger] v.dom().contains(x) ==> reaches(gk, maps_sel(s, to_gki), 0, x as int)
    &&& forall|q: int| 0 <= q < tasks.len() ==> reaches(gk, maps_sel(s, to_gki), 0, (#[trigger] tasks[q]).1.0 as int)
}

/// Each strategy decides exactly at the knowledge locations of the
/// decided locations.
spec fn keys_ok(gk: Game, to_gki: Seq<Vec<Loc>>, v: Map<nat, u32>, s: Seq<Map<nat, u32>>) -> bool {
    forall|i: int, key: nat| 0 <= i < s.len() ==> (#[trigger] s[i].dom().contains(key) <==>
        exists|x: nat| #[trigger] decided(gk, v).contains(x) && to_gki[x as int]@[i].0 as nat == key)
}

/// Taking the top entry off, and finishing it where it is reached already
/// or a goal, keeps `all_reached` and `keys_ok`.
proof fn lemma_reached_pop(gk: Game, to_gki: Seq<Vec<Loc>>, v: Map<nat, u32>, s: Seq<Map<nat, u32>>,
    tasks: Seq<(bool, Loc)>, finish: bool)
    requires
        all_reached(gk, to_gki, v, s, tasks),
        keys_ok(gk, to_gki, v, s),
        tasks.len() > 0,
        finish ==> v.dom().contains(tasks.last().1.0 as nat) || gk.loc@[tasks.last().1.0 as int].is_winning,
    ensures
        all_reached(gk, to_gki, if finish { v.insert(tasks.last().1.0 as nat, BLACK) } else { v }, s, tasks.drop_last()),
        keys_ok(gk, to_gki, if finish { v.insert(tasks.last().1.0 as nat, BLACK) } else { v }, s),
{
    let l = tasks.last().1.0 as nat;
    let v2 = if finish { v.insert(l, BLACK) } else { v };
    assert(tasks[tasks.len() - 1] == tasks.last());
    assert forall|x: nat| #[trigger] v2.dom().contains(x) implies reaches(gk, maps_sel(s, to_gki), 0, x as int) by {
        if x != l {
            assert(v.dom().contains(x));
        } else if !v.dom().contains(x) {
            assert(reaches(gk, maps_sel(s, to_gki), 0, tasks[tasks.len() - 1].1.0 as int));
        }
    }
    assert forall|q: int| 0 <= q < tasks.drop_last().len() implies
        reaches(gk, maps_sel(s, to_gki), 0, (#[trigger] tasks.drop_last()[q]).1.0 as int) by {
        assert(tasks.drop_last()[q] == tasks[q]);
    }
    assert(decided(gk, v2) =~= decided(gk, v));
}

/// Deciding `a` at `l`'s knowledge locations, consistently with `s`,
/// keeps every choice of `s` and chooses `a` at `l`.
proof fn lemma_sel_extends(to_gki: Seq<Vec<Loc>>, s: Seq<Map<nat, u32>>, s2: Seq<Map<nat, u32>>, l: int, a: Seq<Act>)
    requires
        s.len() == a.len(),
        s2.len() == s.len(),
        forall|i: int| 0 <= i < s.len() ==> #[trigger] s2[i] == s[i].insert(to_gki[l]@[i].0 as nat, a[i].0 as u32),
        forall|i: int| 0 <= i < s.len() && (#[trigger] s[i]).dom().contains(to_gki[l]@[i].0 as nat) ==>
            s[i][to_gki[l]@[i].0 as nat] == a[i].0 as u32,
    ensures
        forall|z: int| (#[trigger] maps_sel(s, to_gki)(z)) is Some ==> maps_sel(s2, to_gki)(z) == maps_sel(s, to_gki)(z),
        maps_sel(s2, to_gki)(l) == Some(a),
{
    let sel = maps_sel(s, to_gki);
    let sel2 = maps_sel(s2, to_gki);
    assert forall|z: int| (#[trigger] sel(z)) is Some implies sel2(z) == sel(z) by {
        assert forall|i: int| 0 <= i < s2.len() implies #[trigger] s2[i].dom().contains(to_gki[z]@[i].0 as nat) by {
            assert(s[i].dom().contains(to_gki[z]@[i].0 as nat));
            assert(s2[i] == s[i].insert(to_gki[l]@[i].0 as nat, a[i].0 as u32));
        }
        let b1 = Seq::new(s.len(), |i: int| Act(s[i][to_gki[z]@[i].0 as nat] as u16));
        let b2 = Seq::new(s2.len(), |i: int| Act(s2[i][to_gki[z]@[i].0 as nat] as u16));
        assert forall|i: int| 0 <= i < s.len() implies b1[i] == b2[i] by {
            assert(s[i].dom().contains(to_gki[z]@[i].0 as nat));
            assert(s2[i] == s[i].insert(to_gki[l]@[i].0 as nat, a[i].0 as u32));
        }
        assert(b1 =~= b2);
    }
    assert forall|i: int| 0 <= i < s2.len() implies #[trigger] s2[i].dom().contains(to_gki[l]@[i].0 as nat) by {
        assert(s2[i] == s[i].insert(to_gki[l]@[i].0 as nat, a[i].0 as u32));
    }
    let b = Seq::new(s2.len(), |i: int| Act(s2[i][to_gki[l]@[i].0 as nat] as u16));
    assert forall|i: int| 0 <= i < a.len() implies b[i] == a[i] by {
        assert(s2[i] == s[i].insert(to_gki[l]@[i].0 as nat, a[i].0 as u32));
    }
    assert(b =~= a);
}

/// Entering the top location with the joint action `a` keeps
/// `all_reached` and `keys_ok`.
proof fn lemma_reached_branch(gk: Game, to_gki: Seq<Vec<Loc>>, v: Map<nat, u32>, s: Seq<Map<nat, u32>>,
    s2: Seq<Map<nat, u32>>, tasks: Seq<(bool, Loc)>, next: Seq<(bool, Loc)>, a: Seq<Act>)
    requires
        gk.wf(),
        0 < gk.nloc(),
        all_reached(gk, to_gki, v, s, tasks),
        keys_ok(gk, to_gki, v, s),
        tasks.len() > 0,
        (tasks.last().1.0 as int) < gk.nloc(),
        !v.dom().contains(tasks.last().1.0 as nat),
        !gk.loc@[tasks.last().1.0 as int].is_winning,
        s.len() == a.len(),
        s2.len() == s.len(),
        forall|i: int| 0 <= i < s.len() ==> #[trigger] s2[i] ==
            s[i].insert(to_gki[tasks.last().1.0 as int]@[i].0 as nat, a[i].0 as u32),
        forall|i: int| 0 <= i < s.len() && (#[trigger] s[i]).dom().contains(to_gki[tasks.last().1.0 as int]@[i].0 as nat) ==>
            s[i][to_gki[tasks.last().1.0 as int]@[i].0 as nat] == a[i].0 as u32,
        next.len() == tasks.len() + gk.post_spec(tasks.last().1.0 as int, a).len(),
        forall|x: int| 0 <= x < tasks.len() - 1 ==> #[trigger] next[x] == tasks[x],
        next[tasks.len() - 1] == (true, tasks.last().1),
        forall|j: int| 0 <= j < gk.post_spec(tasks.last().1.0 as int, a).len() ==>
            next[tasks.len() + j] == (false, #[trigger] gk.post_spec(tasks.last().1.0 as int, a)[j]),
    ensures
        all_reached(gk, to_gki, v.insert(tasks.last().1.0 as nat, GRAY), s2, next),
        keys_ok(gk, to_gki, v.insert(tasks.last().1.0 as nat, GRAY), s2),
{
    let t = tasks.len() - 1;
    let l = tasks.last().1.0 as int;
    let v2 = v.insert(l as nat, GRAY);
    let sel = maps_sel(s, to_gki);
    let sel2 = maps_sel(s2, to_gki);
    assert(tasks[t] == tasks.last());
    lemma_sel_extends(to_gki, s, s2, l, a);
    assert forall|y: int| reaches(gk, sel, 0, y) implies reaches(gk, sel2, 0, y) by {
        let k = choose|k: nat| #[trigger] reach_within(gk, sel, 0, y, k);
        lemma_reach_mono(gk, sel, sel2, 0, y, k);
    }
    assert(reaches(gk, sel, 0, l));
    let kl = choose|k: nat| #[trigger] reach_within(gk, sel2, 0, l, k);
    assert forall|x: nat| #[trigger] v2.dom().contains(x) implies reaches(gk, sel2, 0, x as int) by {
        if x != l as nat {
            assert(v.dom().contains(x));
        }
    }
    assert forall|q: int| 0 <= q < next.len() implies reaches(gk, sel2, 0, (#[trigger] next[q]).1.0 as int) by {
        if q < t {
            assert(next[q] == tasks[q]);
            assert(reaches(gk, sel, 0, tasks[q].1.0 as int));
        } else if q > t {
            let j = q - tasks.len();
            assert(next[tasks.len() + j] == (false, gk.post_spec(l, a)[j]));
            lemma_reach_append(gk, sel2, 0, l, kl, a, j);
        }
    }
    lemma_decided_insert_set(gk, v, l as nat, GRAY);
    assert forall|i: int, key: nat| 0 <= i < s2.len() implies (#[trigger] s2[i].dom().contains(key) <==>
        exists|x: nat| #[trigger] decided(gk, v2).contains(x) && to_gki[x as int]@[i].0 as nat == key) by {
        assert(s2[i] == s[i].insert(to_gki[l]@[i].0 as nat, a[i].0 as u32));
        if s2[i].dom().contains(key) {
            if key == to_gki[l]@[i].0 as nat {
                assert(decided(gk, v2).contains(l as nat));
            } else {
                assert(s[i].dom().contains(key));
                let x = choose|x: nat| #[trigger] decided(gk, v).contains(x) && to_gki[x as int]@[i].0 as nat == key;
                assert(decided(gk, v2).contains(x));
            }
        }
        if exists|x: nat| #[trigger] decided(gk, v2).contains(x) && to_gki[x as int]@[i].0 as nat == key {
            let x = choose|x: nat| #[trigger] decided(gk, v2).contains(x) && to_gki[x as int]@[i].0 as nat == key;
            if x != l as nat {
                assert(decided(gk, v).contains(x));
                assert(s[i].dom().contains(key));
            }
        }
    }
}

/// Reaching a location that is no goal adds it to `decided`.
proof fn lemma_decided_insert_set(gk: Game, v: Map<nat, u32>, k: nat, c: u32)
    requires
        !gk.loc@[k as int].is_winning,
    ensures
        decided(gk, v.insert(k, c)) == decided(gk, v).insert(k),
{
    assert(decided(gk, v.insert(k, c)) =~= decided(gk, v).insert(k));
}

/// Strategies `s` drawn from the options decide exactly at the knowledge
/// locations of the `d` locations `dset`, none of them a goal, and reach a
/// further location `l` that is no goal: a search bounded by `d` decided
/// locations can be cut there.
pub open spec fn cut_at(gk: Game, to_gki: Seq<Vec<Loc>>, opts: Seq<Vec<Option<Vec<Act>>>>, d: nat,
    s: Seq<Map<nat, u32>>, dset: Set<nat>, l: int) -> bool
{
    &&& drawn(opts, s)
    &&& s.len() == gk.n_agents()
    &&& dset.finite()
    &&& dset.len() == d
    &&& forall|x: nat| #[trigger] dset.contains(x) ==> (x as int) < gk.nloc() && !gk.loc@[x as int].is_winning
    &&& forall|i: int, key: nat| 0 <= i < s.len() ==> (#[trigger] s[i].dom().contains(key) <==>
        exists|x: nat| #[trigger] dset.contains(x) && to_gki[x as int]@[i].0 as nat == key)
    &&& 0 <= l < gk.nloc()
    &&& !dset.contains(l as nat)
    &&& !gk.loc@[l].is_winning
    &&& reaches(gk, maps_sel(s, to_gki), 0, l)
}

/// Some strategies drawn from the options reach a location past `d`
/// decided ones (`cut_at`).
pub open spec fn can_cut(gk: Game, to_gki: Seq<Vec<Loc>>, opts: Seq<Vec<Option<Vec<Act>>>>, d: nat) -> bool {
    exists|s: Seq<Map<nat, u32>>, dset: Set<nat>, l: int| #[trigger] cut_at(gk, to_gki, opts, d, s, dset, l)
}

/// After the branch `b` of the joint actions `branches` at the knowledge
/// locations `lk`: the profiles found since `old_len` each carry one
/// branch from `b` on, keep `s0`, and differ pairwise.
proof fn lemma_branch_found(opts: Seq<Vec<Option<Vec<Act>>>>, s0: Seq<Map<nat, u32>>, s2: Seq<Map<nat, u32>>,
    lk: Seq<Loc>, branches: Seq<Seq<Act>>, b: int, old_len: int, fb: Seq<Vec<Strat>>, found: Seq<Vec<Strat>>)
    requires
        s0.len() == lk.len(),
        opts.len() == s0.len(),
        forall|i: int| 0 <= i < lk.len() ==> (#[trigger] lk[i]).0 < opts[i]@.len(),
        forall|q: int| 0 <= q < branches.len() ==> (#[trigger] branches[q]).len() == s0.len(),
        forall|q1: int, q2: int| 0 <= q1 < q2 < branches.len() ==> branches[q1] != branches[q2],
        0 <= b < branches.len(),
        s2.len() == s0.len(),
        forall|i: int| 0 <= i < s0.len() ==> #[trigger] s2[i] == s0[i].insert(lk[i].0 as nat, branches[b][i].0 as u32),
        forall|i: int| 0 <= i < s0.len() && (#[trigger] s0[i]).dom().contains(lk[i].0 as nat) ==>
            s0[i][lk[i].0 as nat] == branches[b][i].0 as u32,
        0 <= old_len <= fb.len() <= found.len(),
        forall|q: int| 0 <= q < fb.len() ==> #[trigger] found[q] == fb[q],
        branch_tagged(fb, old_len, lk, branches, b + 1),
        forall|q: int| old_len <= q < fb.len() ==> extends_strat((#[trigger] fb[q])@, s0, opts),
        new_distinct(fb, old_len),
        forall|q: int| fb.len() <= q < found.len() ==> extends_strat((#[trigger] found[q])@, s2, opts),
        new_distinct(found, fb.len() as int),
        found_drawn(opts, found),
    ensures
        branch_tagged(found, old_len, lk, branches, b),
        forall|q: int| old_len <= q < found.len() ==> extends_strat((#[trigger] found[q])@, s0, opts),
        new_distinct(found, old_len),
{
    assert forall|q: int| fb.len() <= q < found.len() implies has_branch((#[trigger] found[q])@, lk, branches[b]) by {
        assert forall|i: int| 0 <= i < branches[b].len() implies #[trigger] found[q]@[i].choice@[lk[i].0 as int] == Some(branches[b][i]) by {
            assert(s2[i].dom().contains(lk[i].0 as nat));
            assert(Act(s2[i][lk[i].0 as nat] as u16) == branches[b][i]);
        }
    }
    assert forall|q: int| old_len <= q < found.len() implies exists|bb: int| b <= bb < branches.len()
        && has_branch((#[trigger] found[q])@, lk, branches[bb]) by {
        if q < fb.len() {
            assert(found[q] == fb[q]);
        } else {
            assert(has_branch(found[q]@, lk, branches[b]));
        }
    }
    assert forall|q: int| old_len <= q < found.len() implies extends_strat((#[trigger] found[q])@, s0, opts) by {
        if q < fb.len() {
            assert(found[q] == fb[q]);
        } else {
            assert forall|i: int, key: nat| 0 <= i < s0.len() && #[trigger] s0[i].dom().contains(key) && (key as int) < opts[i]@.len()
                implies found[q]@[i].choice@[key as int] == Some(Act(s0[i][key] as u16)) by {
                assert(s2[i].dom().contains(key));
                assert(s2[i][key] == s0[i][key]);
            }
        }
    }
    assert forall|q1: int, q2: int| old_len <= q1 < q2 < found.len() implies
        profiles_differ((#[trigger] found[q1])@, (#[trigger] found[q2])@) by {
        if q2 < fb.len() {
            assert(found[q1] == fb[q1] && found[q2] == fb[q2]);
        } else if q1 >= fb.len() {
        } else {
            assert(found[q1] == fb[q1]);
            assert(exists|bb: int| b + 1 <= bb < branches.len() && has_branch(fb[q1]@, lk, branches[bb]));
            let bb = choose|bb: int| b + 1 <= bb < branches.len() && has_branch(fb[q1]@, lk, branches[bb]);
            assert(has_branch(fb[q1]@, lk, branches[bb]));
            assert(fb.len() <= q2 < found.len());
            assert(has_branch(found[q2]@, lk, branches[b]));
            assert(branches[bb] != branches[b]);
            assert(!(branches[bb] =~= branches[b]));
            assert(exists|i: int| 0 <= i < branches[b].len() && branches[bb][i] != branches[b][i]);
            let i = choose|i: int| 0 <= i < branches[b].len() && branches[bb][i] != branches[b][i];
            assert(branches[bb].len() == branches[b].len());
            assert(fb[q1]@[i].choice@[lk[i].0 as int] == Some(branches[bb][i]));
            assert(found[q1]@ == fb[q1]@);
            assert(found[q1]@[i].choice@[lk[i].0 as int] == Some(branches[bb][i]));
            assert(found[q2]@[i].choice@[lk[i].0 as int] == Some(branches[b][i]));
            assert(strat_drawn(opts, found[q1]@));
            assert(found[q1]@[i].choice@.len() == opts[i]@.len());
        }
    }
}

/// Finishing the top location keeps `search_ok`.
proof fn lemma_pop_finish(gk: Game, to_gki: Seq<Vec<Loc>>, v: Map<nat, u32>, s: Seq<Map<nat, u32>>,
    tasks: Seq<(bool, Loc)>)
    requires
        gk.wf(),
        search_ok(gk, to_gki, v, s, tasks),
        tasks.len() > 0,
        tasks.last().0,
        (tasks.last().1.0 as int) < gk.nloc(),
        forall|q: int| 0 <= q < tasks.len() ==> ((#[trigger] tasks[q]).1.0 as int) < gk.nloc(),
    ensures
        search_ok(gk, to_gki, v.insert(tasks.last().1.0 as nat, BLACK), s, tasks.drop_last()),
{
    let t = tasks.len() - 1;
    let l = tasks.last().1;
    let li = l.0 as int;
    let v2 = v.insert(l.0 as nat, BLACK);
    let t2 = tasks.drop_last();
    let sel = maps_sel(s, to_gki);
    assert(tasks[t] == tasks.last());
    assert(finish_ok(gk, to_gki, v, s, tasks, t));
    let a = sel(li).unwrap();
    let post = gk.post_spec(li, a);
    assert forall|j: int| 0 <= j < post.len() implies wins_from(gk, sel, (#[trigger] post[j]).0 as int) by {
        assert(covered(v, tasks, t, post[j]));
        lemma_post_target(gk, li, a, j);
        assert(is_black(v, post[j].0 as int));
    }
    let k = lemma_wins_common_fuel(gk, sel, post);
    assert(wins_under(gk, sel, li, k + 1));
    assert forall|x: int| 0 <= x < gk.nloc() && #[trigger] is_black(v2, x) implies wins_from(gk, sel, x) by {
        if x != li {
            assert(is_black(v, x));
        }
    }
    assert forall|q: int| 0 <= q < t2.len() && (#[trigger] t2[q]).0 implies finish_ok(gk, to_gki, v2, s, t2, q) by {
        assert(t2[q] == tasks[q]);
        assert(finish_ok(gk, to_gki, v, s, tasks, q));
        let lq = tasks[q].1.0 as int;
        assert(tasks[q].1 != tasks[t].1);
        assert(is_gray(v2, lq));
        let aq = sel(lq).unwrap();
        let pq = gk.post_spec(lq, aq);
        assert forall|j: int| 0 <= j < pq.len() implies covered(v2, t2, q, #[trigger] pq[j]) by {
            assert(covered(v, tasks, q, pq[j]));
            if is_black(v, pq[j].0 as int) {
                if pq[j].0 as int != li {
                    assert(is_black(v2, pq[j].0 as int));
                }
            } else {
                let q2 = choose|q2: int| q < q2 < tasks.len() && (#[trigger] tasks[q2]).1 == pq[j];
                if q2 < t {
                    assert(t2[q2] == tasks[q2]);
                } else {
                    assert(is_black(v2, pq[j].0 as int));
                }
            }
        }
    }
    assert forall|q: int, q2: int| 0 <= q < q2 < t2.len() && (#[trigger] t2[q]).0 && (#[trigger] t2[q2]).0 implies
        t2[q].1 != t2[q2].1 by {
        assert(t2[q] == tasks[q] && t2[q2] == tasks[q2]);
    }
    if !is_black(v, 0) {
        let q = choose|q: int| 0 <= q < tasks.len() && (#[trigger] tasks[q]).1 == Loc(0);
        if q < t {
            assert(t2[q] == tasks[q]);
        }
    } else if li != 0 {
        assert(is_black(v2, 0));
    }
}

/// Leaving a location that is finished already keeps `search_ok`.
proof fn lemma_pop_black(gk: Game, to_gki: Seq<Vec<Loc>>, v: Map<nat, u32>, s: Seq<Map<nat, u32>>,
    tasks: Seq<(bool, Loc)>)
    requires
        search_ok(gk, to_gki, v, s, tasks),
        tasks.len() > 0,
        !tasks.last().0,
        is_black(v, tasks.last().1.0 as int),
    ensures
        search_ok(gk, to_gki, v, s, tasks.drop_last()),
{
    let t = tasks.len() - 1;
    let t2 = tasks.drop_last();
    let sel = maps_sel(s, to_gki);
    assert(tasks[t] == tasks.last());
    assert forall|q: int| 0 <= q < t2.len() && (#[trigger] t2[q]).0 implies finish_ok(gk, to_gki, v, s, t2, q) by {
        assert(t2[q] == tasks[q]);
        assert(finish_ok(gk, to_gki, v, s, tasks, q));
        let lq = tasks[q].1.0 as int;
        let pq = gk.post_spec(lq, sel(lq).unwrap());
        assert forall|j: int| 0 <= j < pq.len() implies covered(v, t2, q, #[trigger] pq[j]) by {
            assert(covered(v, tasks, q, pq[j]));
            if !is_black(v, pq[j].0 as int) {
                let q2 = choose|q2: int| q < q2 < tasks.len() && (#[trigger] tasks[q2]).1 == pq[j];
                assert(q2 < t);
                assert(t2[q2] == tasks[q2]);
            }
        }
    }
    assert forall|q: int, q2: int| 0 <= q < q2 < t2.len() && (#[trigger] t2[q]).0 && (#[trigger] t2[q2]).0 implies
        t2[q].1 != t2[q2].1 by {
        assert(t2[q] == tasks[q] && t2[q2] == tasks[q2]);
    }
    if !is_black(v, 0) {
        let q = choose|q: int| 0 <= q < tasks.len() && (#[trigger] tasks[q]).1 == Loc(0);
        assert(q < t);
        assert(t2[q] == tasks[q]);
    }
}

/// Finishing at once a goal reached for the first time keeps `search_ok`.
proof fn lemma_pop_goal(gk: Game, to_gki: Seq<Vec<Loc>>, v: Map<nat, u32>, s: Seq<Map<nat, u32>>,
    tasks: Seq<(bool, Loc)>)
    requires
        search_ok(gk, to_gki, v, s, tasks),
        tasks.len() > 0,
        !tasks.last().0,
        !v.dom().contains(tasks.last().1.0 as nat),
        gk.loc@[tasks.last().1.0 as int].is_winning,
    ensures
        search_ok(gk, to_gki, v.insert(tasks.last().1.0 as nat, BLACK), s, tasks.drop_last()),
{
    let t = tasks.len() - 1;
    let l = tasks.last().1;
    let li = l.0 as int;
    let v2 = v.insert(l.0 as nat, BLACK);
    let t2 = tasks.drop_last();
    let sel = maps_sel(s, to_gki);
    assert(tasks[t] == tasks.last());
    assert(wins_under(gk, sel, li, 0));
    assert forall|x: int| 0 <= x < gk.nloc() && #[trigger] is_black(v2, x) implies wins_from(gk, sel, x) by {
        if x != li {
            assert(is_black(v, x));
        }
    }
    assert forall|q: int| 0 <= q < t2.len() && (#[trigger] t2[q]).0 implies finish_ok(gk, to_gki, v2, s, t2, q) by {
        assert(t2[q] == tasks[q]);
        assert(finish_ok(gk, to_gki, v, s, tasks, q));
        let lq = tasks[q].1.0 as int;
        assert(is_gray(v2, lq));
        let pq = gk.post_spec(lq, sel(lq).unwrap());
        assert forall|j: int| 0 <= j < pq.len() implies covered(v2, t2, q, #[trigger] pq[j]) by {
            assert(covered(v, tasks, q, pq[j]));
            if is_black(v, pq[j].0 as int) {
                assert(is_black(v2, pq[j].0 as int));
            } else {
                let q2 = choose|q2: int| q < q2 < tasks.len() && (#[trigger] tasks[q2]).1 == pq[j];
                if q2 < t {
                    assert(t2[q2] == tasks[q2]);
                } else {
                    assert(is_black(v2, pq[j].0 as int));
                }
            }
        }
    }
    assert forall|q: int, q2: int| 0 <= q < q2 < t2.len() && (#[trigger] t2[q]).0 && (#[trigger] t2[q2]).0 implies
        t2[q].1 != t2[q2].1 by {
        assert(t2[q] == tasks[q] && t2[q2] == tasks[q2]);
    }
    if !is_black(v, 0) {
        let q = choose|q: int| 0 <= q < tasks.len() && (#[trigger] tasks[q]).1 == Loc(0);
        if q < t {
            assert(t2[q] == tasks[q]);
        }
    } else {
        assert(is_black(v2, 0));
    }
}

/// Deciding the joint action `a` at the top location, reached for the first
/// time, and pending its finish above and its successors above that keeps
/// `search_ok`, when `a` agrees with what was decided already.
proof fn lemma_branch(gk: Game, to_gki: Seq<Vec<Loc>>, v: Map<nat, u32>, s: Seq<Map<nat, u32>>,
    s2: Seq<Map<nat, u32>>, tasks: Seq<(bool, Loc)>, next: Seq<(bool, Loc)>, a: Seq<Act>)
    requires
        gk.wf(),
        search_ok(gk, to_gki, v, s, tasks),
        tasks.len() > 0,
        !tasks.last().0,
        forall|x: int| 0 <= x < tasks.len() ==> ((#[trigger] tasks[x]).1.0 as int) < gk.nloc(),
        !v.dom().contains(tasks.last().1.0 as nat),
        s.len() == a.len(),
        s2.len() == s.len(),
        forall|i: int| 0 <= i < s.len() ==> #[trigger] s2[i] ==
            s[i].insert(to_gki[tasks.last().1.0 as int]@[i].0 as nat, a[i].0 as u32),
        forall|i: int| 0 <= i < s.len() && (#[trigger] s[i]).dom().contains(to_gki[tasks.last().1.0 as int]@[i].0 as nat) ==>
            s[i][to_gki[tasks.last().1.0 as int]@[i].0 as nat] == a[i].0 as u32,
        gk.post_spec(tasks.last().1.0 as int, a).len() > 0,
        next.len() == tasks.len() + gk.post_spec(tasks.last().1.0 as int, a).len(),
        forall|x: int| 0 <= x < tasks.len() - 1 ==> #[trigger] next[x] == tasks[x],
        next[tasks.len() - 1] == (true, tasks.last().1),
        forall|j: int| 0 <= j < gk.post_spec(tasks.last().1.0 as int, a).len() ==>
            next[tasks.len() + j] == (false, #[trigger] gk.post_spec(tasks.last().1.0 as int, a)[j]),
    ensures
        search_ok(gk, to_gki, v.insert(tasks.last().1.0 as nat, GRAY), s2, next),
{
    let t = tasks.len() - 1;
    let l = tasks.last().1;
    let li = l.0 as int;
    let v2 = v.insert(l.0 as nat, GRAY);
    let sel = maps_sel(s, to_gki);
    let sel2 = maps_sel(s2, to_gki);
    let post = gk.post_spec(li, a);
    assert(tasks[t] == tasks.last());
    lemma_loc_bound(gk, tasks, t);
    assert(sel2(li) == Some(a)) by {
        assert forall|i: int| 0 <= i < s2.len() implies #[trigger] s2[i].dom().contains(to_gki[li]@[i].0 as nat) by {
            assert(s2[i] == s[i].insert(to_gki[li]@[i].0 as nat, a[i].0 as u32));
        }
        let b = Seq::new(s2.len(), |i: int| Act(s2[i][to_gki[li]@[i].0 as nat] as u16));
        assert forall|i: int| 0 <= i < a.len() implies b[i] == a[i] by {
            assert(s2[i] == s[i].insert(to_gki[li]@[i].0 as nat, a[i].0 as u32));
        }
        assert(b =~= a);
    }
    assert forall|x: int| 0 <= x < gk.nloc() && (#[trigger] sel(x)) is Some implies sel2(x) == sel(x) by {
        assert forall|i: int| 0 <= i < s2.len() implies #[trigger] s2[i].dom().contains(to_gki[x]@[i].0 as nat) by {
            assert(s[i].dom().contains(to_gki[x]@[i].0 as nat));
            assert(s2[i] == s[i].insert(to_gki[li]@[i].0 as nat, a[i].0 as u32));
        }
        let b1 = Seq::new(s.len(), |i: int| Act(s[i][to_gki[x]@[i].0 as nat] as u16));
        let b2 = Seq::new(s2.len(), |i: int| Act(s2[i][to_gki[x]@[i].0 as nat] as u16));
        assert forall|i: int| 0 <= i < b1.len() implies b2[i] == b1[i] by {
            assert(s[i].dom().contains(to_gki[x]@[i].0 as nat));
            assert(s2[i] == s[i].insert(to_gki[li]@[i].0 as nat, a[i].0 as u32));
        }
        assert(b2 =~= b1);
    }
    assert forall|x: int| 0 <= x < gk.nloc() && #[trigger] is_black(v2, x) implies wins_from(gk, sel2, x) by {
        assert(is_black(v, x));
        let k = choose|k: nat| wins_under(gk, sel, x, k);
        lemma_wins_extend(gk, sel, sel2, x, k);
    }
    assert forall|q: int| 0 <= q < next.len() && (#[trigger] next[q]).0 implies finish_ok(gk, to_gki, v2, s2, next, q) by {
        if q < t {
            assert(next[q] == tasks[q]);
            assert(finish_ok(gk, to_gki, v, s, tasks, q));
            let lq = tasks[q].1.0 as int;
            assert(lq != li);
            assert(is_gray(v2, lq));
            lemma_loc_bound(gk, tasks, q);
            assert(sel2(lq) == sel(lq));
            let pq = gk.post_spec(lq, sel(lq).unwrap());
            assert forall|j: int| 0 <= j < pq.len() implies covered(v2, next, q, #[trigger] pq[j]) by {
                assert(covered(v, tasks, q, pq[j]));
                if is_black(v, pq[j].0 as int) {
                    assert(is_black(v2, pq[j].0 as int));
                } else {
                    let q2 = choose|q2: int| q < q2 < tasks.len() && (#[trigger] tasks[q2]).1 == pq[j];
                    if q2 < t {
                        assert(next[q2] == tasks[q2]);
                    } else {
                        assert(next[t].1 == pq[j]);
                    }
                }
            }
        } else if q == t {
            assert(is_gray(v2, li));
            assert forall|j: int| 0 <= j < post.len() implies covered(v2, next, q, #[trigger] post[j]) by {
                assert(next[tasks.len() + j] == (false, post[j]));
                assert(next[t + 1 + j].1 == post[j]);
            }
        } else {
            let j = q - tasks.len();
            assert(next[tasks.len() + j] == (false, post[j]));
        }
    }
    assert forall|q: int, q2: int| 0 <= q < q2 < next.len() && (#[trigger] next[q]).0 && (#[trigger] next[q2]).0 implies
        next[q].1 != next[q2].1 by {
        if q2 < t {
            assert(next[q] == tasks[q] && next[q2] == tasks[q2]);
        } else if q2 == t {
            assert(next[q] == tasks[q]);
            assert(finish_ok(gk, to_gki, v, s, tasks, q));
        } else {
            let j = q2 - tasks.len();
            assert(next[tasks.len() + j] == (false, post[j]));
        }
    }
    if !is_black(v, 0) {
        let q = choose|q: int| 0 <= q < tasks.len() && (#[trigger] tasks[q]).1 == Loc(0);
        if q < t {
            assert(next[q] == tasks[q]);
        } else {
            assert(next[t].1 == Loc(0));
        }
    } else {
        assert(is_black(v2, 0));
    }
}

/// The locations of pending entries are locations of the game.
proof fn lemma_loc_bound(gk: Game, tasks: Seq<(bool, Loc)>, q: int)
    requires
        0 <= q < tasks.len(),
        forall|x: int| 0 <= x < tasks.len() ==> ((#[trigger] tasks[x]).1.0 as int) < gk.nloc(),
    ensures
        (tasks[q].1.0 as int) < gk.nloc(),
{
    assert(tasks[q] == tasks[q]);
}

/// A profile read off the partial strategies `s` chooses what they choose.
proof fn lemma_snapshot_sel(gk: Game, to_gki: Seq<Vec<Loc>>, opts: Seq<Vec<Option<Vec<Act>>>>,
    s: Seq<Map<nat, u32>>, p: Seq<Strat>)
    requires
        tables_ok(gk, to_gki, opts),
        s.len() == gk.n_agents(),
        p.len() == s.len(),
        forall|i: int| 0 <= i < p.len() ==> (#[trigger] p[i]).choice@.len() == opts[i]@.len(),
        forall|i: int, x: int| 0 <= i < p.len() && 0 <= x < opts[i]@.len() ==>
            #[trigger] p[i].choice@[x] == (if s[i].dom().contains(x as nat) {
                Some(Act(s[i][x as nat] as u16))
            } else {
                None
            }),
    ensures
        forall|l: int| 0 <= l < gk.nloc() ==> #[trigger] strat_sel(p, to_gki)(l) == maps_sel(s, to_gki)(l),
{
    assert forall|l: int| 0 <= l < gk.nloc() implies #[trigger] strat_sel(p, to_gki)(l) == maps_sel(s, to_gki)(l) by {
        let key = |i: int| to_gki[l]@[i].0 as int;
        assert forall|i: int| 0 <= i < p.len() implies
            (key(i) < (#[trigger] p[i]).choice@.len() && p[i].choice@[key(i)] is Some) == s[i].dom().contains(key(i) as nat)
            && (s[i].dom().contains(key(i) as nat) ==> p[i].choice@[key(i)].unwrap() == Act(s[i][key(i) as nat] as u16)) by {
            assert(key(i) < opts[i]@.len());
            assert(p[i].choice@[key(i)] == (if s[i].dom().contains(key(i) as nat) {
                Some(Act(s[i][key(i) as nat] as u16))
            } else {
                None
            }));
        }
        if forall|i: int| 0 <= i < s.len() ==> #[trigger] s[i].dom().contains(to_gki[l]@[i].0 as nat) {
            let b1 = Seq::new(p.len(), |i: int| p[i].choice@[to_gki[l]@[i].0 as int].unwrap());
            let b2 = Seq::new(s.len(), |i: int| Act(s[i][to_gki[l]@[i].0 as nat] as u16));
            assert(b1 =~= b2);
        } else {
            let i = choose|i: int| 0 <= i < s.len() && !#[trigger] s[i].dom().contains(to_gki[l]@[i].0 as nat);
            assert(!(key(i) < p[i].choice@.len() && p[i].choice@[key(i)] is Some));
        }
    }
}

/// Every profile in `found` wins `gk`.
spec fn found_bounded(gk: Game, to_gki: Seq<Vec<Loc>>, found: Seq<Vec<Strat>>, k: nat) -> bool {
    forall|q: int| 0 <= q < found.len() ==> reached(gk, strat_sel((#[trigger] found[q])@, to_gki)).len() <= k
}

/// The profile `p` decides, for each agent, exactly at the knowledge
/// locations of the locations it reaches that are no goal.
pub open spec fn keys_exact(gk: Game, to_gki: Seq<Vec<Loc>>, p: Seq<Strat>) -> bool {
    forall|i: int, x: int| 0 <= i < p.len() && 0 <= x < p[i].choice@.len() ==>
        ((#[trigger] p[i].choice@[x]) is Some <==>
            exists|y: nat| #[trigger] reached(gk, strat_sel(p, to_gki)).contains(y) && to_gki[y as int]@[i].0 as int == x)
}

spec fn found_keys(gk: Game, to_gki: Seq<Vec<Loc>>, found: Seq<Vec<Strat>>) -> bool {
    forall|q: int| 0 <= q < found.len() ==> keys_exact(gk, to_gki, (#[trigger] found[q])@)
}

/// No action is offered twice at a location.
spec fn opts_distinct(opts: Seq<Vec<Option<Vec<Act>>>>) -> bool {
    forall|i: int, x: int| 0 <= i < opts.len() && 0 <= x < opts[i]@.len() && (#[trigger] opts[i]@[x]) is Some
        ==> opts[i]@[x].unwrap()@.no_duplicates()
}

/// The profile `p` keeps every choice of the strategies `s`.
spec fn extends_strat(p: Seq<Strat>, s: Seq<Map<nat, u32>>, opts: Seq<Vec<Option<Vec<Act>>>>) -> bool {
    forall|i: int, key: nat| 0 <= i < s.len() && #[trigger] s[i].dom().contains(key) && (key as int) < opts[i]@.len()
        ==> p[i].choice@[key as int] == Some(Act(s[i][key] as u16))
}

/// The profiles of `found` from position `from` on differ pairwise.
spec fn new_distinct(found: Seq<Vec<Strat>>, from: int) -> bool {
    forall|q1: int, q2: int| from <= q1 < q2 < found.len() ==> profiles_differ((#[trigger] found[q1])@, (#[trigger] found[q2])@)
}

/// Each profile of `found` from position `from` on chooses at the
/// knowledge locations `lk` one of the joint actions `branches` from
/// position `lo` on.
spec fn branch_tagged(found: Seq<Vec<Strat>>, from: int, lk: Seq<Loc>, branches: Seq<Seq<Act>>, lo: int) -> bool {
    forall|q: int| from <= q < found.len() ==> exists|bb: int| lo <= bb < branches.len()
        && has_branch((#[trigger] found[q])@, lk, branches[bb])
}

/// The profile `p` chooses the joint action `a` at the knowledge locations `lk`.
spec fn has_branch(p: Seq<Strat>, lk: Seq<Loc>, a: Seq<Act>) -> bool {
    forall|i: int| 0 <= i < a.len() ==> #[trigger] p[i].choice@[lk[i].0 as int] == Some(a[i])
}

spec fn found_drawn(opts: Seq<Vec<Option<Vec<Act>>>>, found: Seq<Vec<Strat>>) -> bool {
    forall|q: int| 0 <= q < found.len() ==> strat_drawn(opts, (#[trigger] found[q])@)
}

spec fn found_ok(gk: Game, to_gki: Seq<Vec<Loc>>, found: Seq<Vec<Strat>>) -> bool {
    forall|q: int| 0 <= q < found.len() ==> profile_wins(gk, to_gki, (#[trigger] found[q])@)
}

/// The strategies decided so far, as a profile.
fn snapshot(strat: &Vec<VecMap<u32>>, opts: &Vec<Vec<Option<Vec<Act>>>>) -> (r: Vec<Strat>)
    requires
        strat@.len() == opts@.len(),
    ensures
        r@.len() == strat@.len(),
        forall|i: int| 0 <= i < r@.len() ==> (#[trigger] r@[i]).choice@.len() == opts@[i]@.len(),
        forall|i: int, x: int| 0 <= i < r@.len() && 0 <= x < opts@[i]@.len() ==>
            #[trigger] r@[i].choice@[x] == (if vm_map(strat@[i]).dom().contains(x as nat) {
                Some(Act(vm_map(strat@[i])[x as nat] as u16))
            } else {
                None
            }),
{
    let mut r: Vec<Strat> = Vec::new();
    let mut i: usize = 0;
    while i < strat.len()
        invariant
            strat@.len() == opts@.len(),
            i <= strat@.len(),
            r@.len() == i,
            forall|u: int| 0 <= u < i ==> (#[trigger] r@[u]).choice@.len() == opts@[u]@.len(),
            forall|u: int, x: int| 0 <= u < i && 0 <= x < opts@[u]@.len() ==>
                #[trigger] r@[u].choice@[x] == (if vm_map(strat@[u]).dom().contains(x as nat) {
                    Some(Act(vm_map(strat@[u])[x as nat] as u16))
                } else {
                    None
                }),
        decreases strat@.len() - i,
    {
        let mut choice: Vec<Option<Act>> = Vec::new();
        let mut x: usize = 0;
        while x < opts[i].len()
            invariant
                i < strat@.len(),
                strat@.len() == opts@.len(),
                x <= opts@[i as int]@.len(),
                choice@.len() == x,
                forall|y: int| 0 <= y < x ==> #[trigger] choice@[y] == (if vm_map(strat@[i as int]).dom().contains(y as nat) {
                    Some(Act(vm_map(strat@[i as int])[y as nat] as u16))
                } else {
                    None
                }),
            decreases opts@[i as int]@.len() - x,
        {
            match vm_get(&strat[i], x) {
                Some(a) => choice.push(Some(Act(a as u16))),
                None => choice.push(None),
            }
            x = x + 1;
        }
        r.push(Strat { choice });
        i = i + 1;
    }
    r
}

/// The joint action `a` agrees with what the strategies already chose at
/// the agents' locations `l_gki`.
fn consistent(strat: &Vec<VecMap<u32>>, l_gki: &Vec<Loc>, a: &Vec<Act>) -> (r: bool)
    requires
        strat@.len() == l_gki@.len(),
        a@.len() == l_gki@.len(),
    ensures
        r == forall|i: int| 0 <= i < strat@.len() && vm_map(#[trigger] strat@[i]).dom().contains(l_gki@[i].0 as nat) ==>
            vm_map(strat@[i])[l_gki@[i].0 as nat] == a@[i].0 as u32,
{
    let mut i: usize = 0;
    while i < strat.len()
        invariant
            strat@.len() == l_gki@.len(),
            a@.len() == l_gki@.len(),
            i <= strat@.len(),
            forall|u: int| 0 <= u < i && vm_map(#[trigger] strat@[u]).dom().contains(l_gki@[u].0 as nat) ==>
                vm_map(strat@[u])[l_gki@[u].0 as nat] == a@[u].0 as u32,
        decreases strat@.len() - i,
    {
        match vm_get(&strat[i], l_gki[i].index()) {
            Some(x) => {
                if x != a[i].0 as u32 {
                    return false;
                }
            },
            None => {},
        }
        i = i + 1;
    }
    true
}

/// Processes the pending entries `tasks` (a stack of locations to visit
/// and of locations to finish), branching at each location reached for
/// the first time over the joint actions its agents' options allow.
/// Every profile under which all pending locations are finished is
/// recorded in `found`, and wins; returns true to stop (a profile was found
/// and not all are wanted). Where some strategies drawn from the options
/// keep the decisions made and win from every location still to visit,
/// without reaching one in progress, a profile is found or the bound cut a
/// branch. Sets `hit` when a branch is cut at `max_depth`
/// decided locations, which cannot happen once `max_depth` is at least the
/// number of locations.
#[verifier::rlimit(100)]
#[verifier::spinoff_prover]
fn search(gk: &Game, to_gki: &Vec<Vec<Loc>>, opts: &Vec<Vec<Option<Vec<Act>>>>, max_depth: u32, find_all: bool,
    visit: &mut VecMap<u32>, strat: &mut Vec<VecMap<u32>>, depth: u32, tasks: &mut Vec<(bool, Loc)>,
    found: &mut Vec<Vec<Strat>>, stats: &mut Stats, hit: &mut bool) -> (stop: bool)
    requires
        gk.wf(),
        tables_ok(*gk, to_gki@, opts@),
        depth <= max_depth,
        keys_below(vm_map(*old(visit)), gk.nloc()),
        depth <= vm_map(*old(visit)).dom().len(),
        old(strat)@.len() == gk.n_agents(),
        forall|q: int| 0 <= q < old(tasks)@.len() ==> ((#[trigger] old(tasks)@[q]).1.0 as int) < gk.nloc(),
        search_ok(*gk, to_gki@, vm_map(*old(visit)), maps_of(old(strat)@), old(tasks)@),
        grays_pending(gk.nloc(), vm_map(*old(visit)), old(tasks)@),
        found_ok(*gk, to_gki@, old(found)@),
        drawn(opts@, maps_of(old(strat)@)),
        found_drawn(opts@, old(found)@),
        closed_under(*gk, vm_map(*old(visit)), maps_sel(maps_of(old(strat)@), to_gki@)),
        decided(*gk, vm_map(*old(visit))).len() == depth,
        found_bounded(*gk, to_gki@, old(found)@, max_depth as nat),
        all_reached(*gk, to_gki@, vm_map(*old(visit)), maps_of(old(strat)@), old(tasks)@),
        keys_ok(*gk, to_gki@, vm_map(*old(visit)), maps_of(old(strat)@)),
        found_keys(*gk, to_gki@, old(found)@),
        opts_distinct(opts@),
    ensures
        found_keys(*gk, to_gki@, final(found)@),
        forall|q: int| old(found)@.len() <= q < final(found)@.len() ==>
            extends_strat((#[trigger] final(found)@[q])@, maps_of(old(strat)@), opts@),
        new_distinct(final(found)@, old(found)@.len() as int),
        *final(hit) && !*old(hit) ==> can_cut(*gk, to_gki@, opts@, max_depth as nat),
        found_drawn(opts@, final(found)@),
        found_bounded(*gk, to_gki@, final(found)@, max_depth as nat),
        final(strat)@.len() == old(strat)@.len(),
        max_depth >= gk.nloc() ==> *final(hit) == *old(hit),
        *old(hit) ==> *final(hit),
        (some_good(*gk, to_gki@, opts@, vm_map(*old(visit)), maps_of(old(strat)@), old(tasks)@))
            ==> *final(hit) || final(found)@.len() > old(found)@.len(),
        found_ok(*gk, to_gki@, final(found)@),
        final(found)@.len() >= old(found)@.len(),
        forall|q: int| 0 <= q < old(found)@.len() ==> #[trigger] final(found)@[q] == old(found)@[q],
        !find_all ==> final(found)@.len() <= old(found)@.len() + 1,
        stop == (!find_all && final(found)@.len() > old(found)@.len()),
        old(tasks)@.len() == 0 ==> final(found)@.len() == old(found)@.len() + 1
            && final(found)@.last()@.len() == old(strat)@.len()
            && forall|i: int, x: int| 0 <= i < old(strat)@.len() && 0 <= x < opts@[i]@.len() ==>
                #[trigger] final(found)@.last()@[i].choice@[x] == (if vm_map(old(strat)@[i]).dom().contains(x as nat) {
                    Some(Act(vm_map(old(strat)@[i])[x as nat] as u16))
                } else {
                    None
                }),
    decreases max_depth - depth,
{
    let n = gk.n_loc();
    let na = gk.n_actions.len();
    let ghost hit0 = *hit;
    let ghost w0 = some_good(*gk, to_gki@, opts@, vm_map(*old(visit)), maps_of(old(strat)@), old(tasks)@);
    while tasks.len() > 0
        invariant
            grays_pending(n as nat, vm_map(*visit), tasks@),
            drawn(opts@, maps_of(strat@)),
            found_drawn(opts@, found@),
            closed_under(*gk, vm_map(*visit), maps_sel(maps_of(strat@), to_gki@)),
            decided(*gk, vm_map(*visit)).len() == depth,
            found_bounded(*gk, to_gki@, found@, max_depth as nat),
            all_reached(*gk, to_gki@, vm_map(*visit), maps_of(strat@), tasks@),
            keys_ok(*gk, to_gki@, vm_map(*visit), maps_of(strat@)),
            found_keys(*gk, to_gki@, found@),
            *hit && !hit0 ==> can_cut(*gk, to_gki@, opts@, max_depth as nat),
            hit0 ==> *hit,
            w0 == some_good(*gk, to_gki@, opts@, vm_map(*old(visit)), maps_of(old(strat)@), old(tasks)@),
            w0 ==> *hit || some_good(*gk, to_gki@, opts@, vm_map(*visit), maps_of(strat@), tasks@),
            gk.wf(),
            n == gk.nloc(),
            na == gk.n_agents(),
            tables_ok(*gk, to_gki@, opts@),
            depth <= max_depth,
            keys_below(vm_map(*visit), n as nat),
            depth <= vm_map(*visit).dom().len(),
            strat@.len() == na,
            strat@.len() == old(strat)@.len(),
            forall|q: int| 0 <= q < tasks@.len() ==> ((#[trigger] tasks@[q]).1.0 as int) < n,
            max_depth >= n ==> *hit == hit0,
            hit0 == *old(hit),
            search_ok(*gk, to_gki@, vm_map(*visit), maps_of(strat@), tasks@),
            found_ok(*gk, to_gki@, found@),
            found@ == old(found)@,
            old(tasks)@.len() == 0 ==> strat@ == old(strat)@ && tasks@.len() == 0,
            strat@ == old(strat)@,
            opts_distinct(opts@),
        decreases tasks@.len(),
    {
        let ghost t0 = tasks@;
        let ghost vv = vm_map(*visit);
        let ghost ss = maps_of(strat@);
        let ghost gw = w0 && !*hit;
        let ghost mut pp: Seq<Map<nat, u32>> = Seq::empty();
        proof {
            if gw {
                pp = lemma_pick_good(*gk, to_gki@, opts@, vv, ss, t0);
            }
        }
        let (fin, l) = tasks.pop().unwrap();
        proof {
            assert(t0.last() == (fin, l));
            assert(tasks@ == t0.drop_last());
            assert(t0[t0.len() - 1] == t0.last());
        }
        stats.steps = stats.steps.wrapping_add(1);
        if fin {
            proof {
                lemma_pop_finish(*gk, to_gki@, vm_map(*visit), maps_of(strat@), t0);
                let v2 = vv.insert(l.0 as nat, BLACK);
                assert forall|x: int| 0 <= x < n && #[trigger] in_progress(v2, x) implies in_progress(vv, x)
                    && (t0.last().0 ==> t0.last().1.0 as int != x) by {
                    if x == l.0 as int {
                        assert(is_black(v2, x));
                    }
                }
                lemma_grays_pop(n as nat, vv, v2, t0);
                if gw {
                    lemma_good_pop(*gk, to_gki@, opts@, vv, v2, ss, t0, pp);
                }
                let t = t0.len() - 1;
                assert(t0[t] == t0.last());
                assert(finish_ok(*gk, to_gki@, vv, ss, t0, t));
                let sel = maps_sel(ss, to_gki@);
                assert forall|j: int| 0 <= j < gk.post_spec(l.0 as int, sel(l.0 as int).unwrap()).len() implies
                    is_black(vv, (#[trigger] gk.post_spec(l.0 as int, sel(l.0 as int).unwrap())[j]).0 as int)
                    || gk.post_spec(l.0 as int, sel(l.0 as int).unwrap())[j].0 as int == l.0 as int by {
                    assert(covered(vv, t0, t, gk.post_spec(l.0 as int, sel(l.0 as int).unwrap())[j]));
                }
                lemma_closed_insert_black(*gk, vv, sel, l.0 as int);
                lemma_decided_insert(*gk, vv, l.0 as nat, BLACK);
                lemma_reached_pop(*gk, to_gki@, vv, ss, t0, true);
            }
            vm_insert(visit, l.index(), BLACK);
            continue;
        }
        match vm_get(visit, l.index()) {
            Some(c) => {
                if c == BLACK {
                    proof {
                        lemma_pop_black(*gk, to_gki@, vm_map(*visit), maps_of(strat@), t0);
                        lemma_grays_pop(n as nat, vv, vv, t0);
                        lemma_reached_pop(*gk, to_gki@, vv, ss, t0, false);
                        if gw {
                            lemma_good_pop(*gk, to_gki@, opts@, vv, vv, ss, t0, pp);
                        }
                    }
                    continue;
                }
                proof {
                    if gw {
                        lemma_good_in_progress(*gk, to_gki@, opts@, vv, ss, t0, pp);
                    }
                }
                stats.backtracks = stats.backtracks.wrapping_add(1);
                return false;
            },
            None => {},
        }
        if gk.is_winning(l) {
            proof {
                lemma_pop_goal(*gk, to_gki@, vm_map(*visit), maps_of(strat@), t0);
                let v2 = vv.insert(l.0 as nat, BLACK);
                assert forall|x: int| 0 <= x < n && #[trigger] in_progress(v2, x) implies in_progress(vv, x)
                    && (t0.last().0 ==> t0.last().1.0 as int != x) by {
                    if x == l.0 as int {
                        assert(is_black(v2, x));
                    }
                }
                lemma_grays_pop(n as nat, vv, v2, t0);
                if gw {
                    lemma_good_pop(*gk, to_gki@, opts@, vv, v2, ss, t0, pp);
                }
                lemma_closed_insert_black(*gk, vv, maps_sel(ss, to_gki@), l.0 as int);
                lemma_decided_insert(*gk, vv, l.0 as nat, BLACK);
                lemma_reached_pop(*gk, to_gki@, vv, ss, t0, true);
            }
            vm_insert(visit, l.index(), BLACK);
            continue;
        }
        proof {
            lemma_bounded_len(vm_map(*visit).dom().insert(l.0 as nat), n as nat);
        }
        if depth >= max_depth {
            proof {
                let v = vm_map(*visit);
                lemma_decided_insert(*gk, v, l.0 as nat, BLACK);
                let t = t0.len() - 1;
                assert(t0[t] == t0.last());
                assert(reaches(*gk, maps_sel(ss, to_gki@), 0, t0[t].1.0 as int));
                assert(cut_at(*gk, to_gki@, opts@, max_depth as nat, ss, decided(*gk, v), l.0 as int));
            }
            *hit = true;
            stats.backtracks = stats.backtracks.wrapping_add(1);
            return false;
        }
        stats.nodes = stats.nodes.wrapping_add(1);
        let l_gki = &to_gki[l.index()];
        let ghost ap = maps_sel(pp, to_gki@)(l.0 as int).unwrap();
        proof {
            if gw {
                lemma_good_options(*gk, to_gki@, opts@, vv, ss, t0, pp);
            }
        }
        let mut options: Vec<Vec<Act>> = Vec::new();
        let mut i: usize = 0;
        while i < na
            invariant
                gw ==> forall|u: int| 0 <= u < na ==> (opts@[u]@[(#[trigger] to_gki@[l.0 as int]@[u]).0 as int]) is Some,
                gw ==> forall|u: int| 0 <= u < na ==> opts@[u]@[(#[trigger] to_gki@[l.0 as int]@[u]).0 as int].unwrap()@.contains(ap[u]),
                gw ==> good(*gk, to_gki@, opts@, vv, ss, t0, pp),
                gw ==> maps_sel(pp, to_gki@)(l.0 as int) == Some(ap),
                gw ==> gk.post_spec(l.0 as int, ap).len() > 0,
                grays_pending(n as nat, vv, t0),
                vm_map(*visit) == vv,
                maps_of(strat@) == ss,
                !gk.loc@[l.0 as int].is_winning,
                t0.len() > 0,
                t0.last() == (false, l),
                forall|u: int| 0 <= u < i ==> (#[trigger] options@[u])@ == opts@[u]@[to_gki@[l.0 as int]@[u].0 as int].unwrap()@,
                forall|u: int| 0 <= u < i ==> (opts@[u]@[(#[trigger] to_gki@[l.0 as int]@[u]).0 as int]) is Some,
                found_drawn(opts@, found@),
                found_bounded(*gk, to_gki@, found@, max_depth as nat),
                found_keys(*gk, to_gki@, found@),
                *hit && !hit0 ==> can_cut(*gk, to_gki@, opts@, max_depth as nat),
                !gw ==> !w0 || *hit,
                hit0 ==> *hit,
                w0 == some_good(*gk, to_gki@, opts@, vm_map(*old(visit)), maps_of(old(strat)@), old(tasks)@),
                n == gk.nloc(),
                na == gk.n_agents(),
                tables_ok(*gk, to_gki@, opts@),
                (l.0 as int) < n,
                l_gki@ == to_gki@[l.0 as int]@,
                i <= na,
                options@.len() == i,
                strat@.len() == old(strat)@.len(),
                max_depth >= n ==> *hit == hit0,
                hit0 == *old(hit),
                found_ok(*gk, to_gki@, found@),
                found@ == old(found)@,
                old(tasks)@.len() > 0,
            decreases na - i,
        {
            match &opts[i][l_gki[i].index()] {
                Some(v) => {
                    let ghost o0 = options@;
                    options.push(copy_profile(v));
                    proof {
                        assert forall|u: int| 0 <= u < i + 1 implies (#[trigger] options@[u])@
                            == opts@[u]@[to_gki@[l.0 as int]@[u].0 as int].unwrap()@ by {
                            if u < i {
                                assert(options@[u] == o0[u]);
                            }
                        }
                    }
                },
                None => {
                    proof {
                        if gw {
                            assert(opts@[i as int]@[(to_gki@[l.0 as int]@[i as int]).0 as int] is Some);
                        }
                    }
                    stats.backtracks = stats.backtracks.wrapping_add(1);
                    return false;
                },
            }
            i = i + 1;
        }
        let ghost v0 = vm_map(*visit);
        let ghost s0 = maps_of(strat@);
        vm_insert(visit, l.index(), GRAY);
        let combos = product(&options);
        proof {
            let pv0 = profiles_view(options@);
            assert forall|i: int| 0 <= i < pv0.len() implies (#[trigger] pv0[i]).no_duplicates() by {
                assert(pv0[i] == options@[i]@);
                assert(opts@[i]@[(to_gki@[l.0 as int]@[i]).0 as int] is Some);
            }
            lemma_product_distinct(pv0);
        }
        proof {
            if gw {
                let pv = profiles_view(options@);
                assert forall|i: int| 0 <= i < ap.len() implies #[trigger] pv[i].contains(ap[i]) by {
                    assert(pv[i] == options@[i]@);
                    assert(opts@[i]@[(to_gki@[l.0 as int]@[i]).0 as int].unwrap()@.contains(ap[i]));
                }
                lemma_product_contains(pv, ap);
                let kq = choose|kq: int| 0 <= kq < product_spec(pv).len() && product_spec(pv)[kq] == ap;
                assert(profiles_view(combos@)[kq] == combos@[kq]@);
            }
        }
        let ghost kp = choose|kq: int| 0 <= kq < combos@.len() && (#[trigger] combos@[kq])@ == ap;
        let mut branches: Vec<Vec<Act>> = Vec::new();
        let mut at_least_one = false;
        let mut k: usize = 0;
        while k < combos.len()
            invariant
                gk.wf(),
                n == gk.nloc(),
                na == gk.n_agents(),
                (l.0 as int) < n,
                l_gki@.len() == na,
                strat@.len() == na,
                s0 == maps_of(strat@),
                options@.len() == na,
                forall|q: int| 0 <= q < combos@.len() ==> (#[trigger] combos@[q])@.len() == na,
                forall|q: int| 0 <= q < branches@.len() ==> (#[trigger] branches@[q])@.len() == na,
                forall|q: int| 0 <= q < branches@.len() ==> gk.post_spec(l.0 as int, (#[trigger] branches@[q])@).len() > 0,
                forall|q: int, u: int| 0 <= q < branches@.len() && 0 <= u < na &&
                    s0[u].dom().contains(l_gki@[u].0 as nat) ==>
                    s0[u][l_gki@[u].0 as nat] == (#[trigger] branches@[q]@[u]).0 as u32,
                gw ==> 0 <= kp < combos@.len() && combos@[kp]@ == ap,
                profiles_view(combos@) == product_spec(profiles_view(options@)),
                profiles_view(combos@).no_duplicates(),
                forall|q: int| 0 <= q < branches@.len() ==> exists|kk: int| 0 <= kk < k && (#[trigger] branches@[q])@ == combos@[kk]@,
                forall|q1: int, q2: int| 0 <= q1 < q2 < branches@.len() ==> (#[trigger] branches@[q1])@ != (#[trigger] branches@[q2])@,
                forall|q: int, u: int| 0 <= q < branches@.len() && 0 <= u < na ==> options@[u]@.contains(#[trigger] branches@[q]@[u]),
                gw ==> (k <= kp || exists|qb: int| 0 <= qb < branches@.len() && (#[trigger] branches@[qb])@ == ap),
                gw ==> good(*gk, to_gki@, opts@, v0, s0, t0, pp),
                gw ==> maps_sel(pp, to_gki@)(l.0 as int) == Some(ap),
                gw ==> gk.post_spec(l.0 as int, ap).len() > 0,
                l_gki@ == to_gki@[l.0 as int]@,
                k <= combos@.len(),
            decreases combos@.len() - k,
        {
            let a = &combos[k];
            let ghost b_before = branches@;
            proof {
                if gw && k == kp {
                    assert forall|u: int| 0 <= u < strat@.len() && vm_map(#[trigger] strat@[u]).dom().contains(l_gki@[u].0 as nat) implies
                        vm_map(strat@[u])[l_gki@[u].0 as nat] == a@[u].0 as u32 by {
                        assert(s0[u] == vm_map(strat@[u]));
                        assert(pp[u].dom().contains(l_gki@[u].0 as nat));
                        assert(pp[u][l_gki@[u].0 as nat] <= u16::MAX);
                    }
                }
            }
            if gk.post(l, a).len() > 0 {
                at_least_one = true;
                if consistent(strat, l_gki, a) {
                    proof {
                        assert(profiles_view(combos@)[k as int] == a@);
                        lemma_product_member(profiles_view(options@), a@);
                        assert forall|u: int| 0 <= u < na implies options@[u]@.contains(a@[u]) by {
                            assert(profiles_view(options@)[u] == options@[u]@);
                        }
                        assert forall|u: int| 0 <= u < na && s0[u].dom().contains(l_gki@[u].0 as nat) implies
                            s0[u][l_gki@[u].0 as nat] == a@[u].0 as u32 by {
                            assert(s0[u] == vm_map(strat@[u]));
                        }
                    }
                    branches.push(copy_profile(a));
                }
            }
            proof {
                assert forall|q: int| 0 <= q < branches@.len() implies exists|kk: int| 0 <= kk < k + 1 && (#[trigger] branches@[q])@ == combos@[kk]@ by {
                    if q < b_before.len() {
                        assert(branches@[q] == b_before[q]);
                        let kk = choose|kk: int| 0 <= kk < k && b_before[q]@ == combos@[kk]@;
                    } else {
                        assert(branches@[q]@ == combos@[k as int]@);
                    }
                }
                assert forall|q1: int, q2: int| 0 <= q1 < q2 < branches@.len() implies (#[trigger] branches@[q1])@ != (#[trigger] branches@[q2])@ by {
                    if q2 < b_before.len() {
                        assert(branches@[q1] == b_before[q1] && branches@[q2] == b_before[q2]);
                    } else {
                        assert(branches@[q1] == b_before[q1]);
                        let kk = choose|kk: int| 0 <= kk < k && b_before[q1]@ == combos@[kk]@;
                        assert(profiles_view(combos@)[kk] == combos@[kk]@);
                        assert(profiles_view(combos@)[k as int] == combos@[k as int]@);
                    }
                }
                if gw && k == kp {
                    assert(branches@[branches@.len() - 1]@ == ap);
                } else if gw && k > kp {
                    let qb = choose|qb: int| 0 <= qb < b_before.len() && (#[trigger] b_before[qb])@ == ap;
                    assert(branches@[qb] == b_before[qb]);
                }
            }
            k = k + 1;
        }
        let ghost bp = choose|qb: int| 0 <= qb < branches@.len() && (#[trigger] branches@[qb])@ == ap;
        if at_least_one {
            stats.backtracks = stats.backtracks.wrapping_sub(1);
        }
        stats.backtracks = stats.backtracks.wrapping_add(1);
        let mut b: usize = branches.len();
        while b > 0
            invariant
                gk.wf(),
                n == gk.nloc(),
                na == gk.n_agents(),
                tables_ok(*gk, to_gki@, opts@),
                depth < max_depth,
                (l.0 as int) < n,
                l_gki@ == to_gki@[l.0 as int]@,
                l_gki@.len() == na,
                keys_below(vm_map(*visit), n as nat),
                depth + 1 <= vm_map(*visit).dom().len(),
                strat@.len() == na,
                strat@.len() == old(strat)@.len(),
                b <= branches@.len(),
                forall|q: int| 0 <= q < branches@.len() ==> (#[trigger] branches@[q])@.len() == na,
                forall|q: int| 0 <= q < branches@.len() ==> gk.post_spec(l.0 as int, (#[trigger] branches@[q])@).len() > 0,
                forall|q: int, u: int| 0 <= q < branches@.len() && 0 <= u < na &&
                    s0[u].dom().contains(l_gki@[u].0 as nat) ==>
                    s0[u][l_gki@[u].0 as nat] == (#[trigger] branches@[q]@[u]).0 as u32,
                forall|q: int| 0 <= q < tasks@.len() ==> ((#[trigger] tasks@[q]).1.0 as int) < n,
                max_depth >= n ==> *hit == hit0,
                hit0 == *old(hit),
                t0.len() > 0,
                t0.last() == (false, l),
                tasks@ == t0.drop_last(),
                forall|q: int| 0 <= q < t0.len() ==> ((#[trigger] t0[q]).1.0 as int) < n,
                !v0.dom().contains(l.0 as nat),
                vm_map(*visit) == v0.insert(l.0 as nat, GRAY),
                maps_of(strat@) == s0,
                search_ok(*gk, to_gki@, v0, s0, t0),
                found_ok(*gk, to_gki@, found@),
                found@.len() >= old(found)@.len(),
                forall|q: int| 0 <= q < old(found)@.len() ==> #[trigger] found@[q] == old(found)@[q],
                !find_all ==> found@.len() == old(found)@.len(),
                old(tasks)@.len() > 0,
                gw ==> 0 <= bp < branches@.len() && branches@[bp]@ == ap,
                gw ==> good(*gk, to_gki@, opts@, v0, s0, t0, pp),
                gw ==> maps_sel(pp, to_gki@)(l.0 as int) == Some(ap),
                gw ==> (bp < b || *hit || found@.len() > old(found)@.len()),
                !gw ==> !w0 || *hit,
                hit0 ==> *hit,
                w0 == some_good(*gk, to_gki@, opts@, vm_map(*old(visit)), maps_of(old(strat)@), old(tasks)@),
                grays_pending(n as nat, v0, t0),
                !gk.loc@[l.0 as int].is_winning,
                b <= branches@.len(),
                drawn(opts@, s0),
                s0 == maps_of(old(strat)@),
                opts_distinct(opts@),
                forall|q1: int, q2: int| 0 <= q1 < q2 < branches@.len() ==> (#[trigger] branches@[q1])@ != (#[trigger] branches@[q2])@,
                branch_tagged(found@, old(found)@.len() as int, l_gki@, profiles_view(branches@), b as int),
                forall|q: int| old(found)@.len() <= q < found@.len() ==> extends_strat((#[trigger] found@[q])@, s0, opts@),
                new_distinct(found@, old(found)@.len() as int),
                found_drawn(opts@, found@),
                found_bounded(*gk, to_gki@, found@, max_depth as nat),
                all_reached(*gk, to_gki@, v0, s0, t0),
                keys_ok(*gk, to_gki@, v0, s0),
                found_keys(*gk, to_gki@, found@),
                *hit && !hit0 ==> can_cut(*gk, to_gki@, opts@, max_depth as nat),
                closed_under(*gk, v0, maps_sel(s0, to_gki@)),
                decided(*gk, v0).len() == depth,
                v0.dom().finite(),
                forall|q: int, u: int| 0 <= q < branches@.len() && 0 <= u < na ==> options@[u]@.contains(#[trigger] branches@[q]@[u]),
                forall|u: int| 0 <= u < na ==> (#[trigger] options@[u])@ == opts@[u]@[to_gki@[l.0 as int]@[u].0 as int].unwrap()@,
                forall|u: int| 0 <= u < na ==> (opts@[u]@[(#[trigger] to_gki@[l.0 as int]@[u]).0 as int]) is Some,
            decreases b,
        {
            let ghost found_head = found@;
            b = b - 1;
            let a = &branches[b];
            let saved_visit = vm_clone(visit);
            let saved_strat = copy_maps(strat);
            let mut i: usize = 0;
            while i < na
                invariant
                    na == gk.n_agents(),
                    tables_ok(*gk, to_gki@, opts@),
                    (l.0 as int) < gk.nloc(),
                    l_gki@ == to_gki@[l.0 as int]@,
                    a@.len() == na,
                    strat@.len() == na,
                    s0.len() == na,
                    i <= na,
                    forall|u: int| 0 <= u < i ==> vm_map(#[trigger] strat@[u]) == s0[u].insert(l_gki@[u].0 as nat, a@[u].0 as u32),
                    forall|u: int| i <= u < na ==> vm_map(#[trigger] strat@[u]) == s0[u],
                decreases na - i,
            {
                let key = l_gki[i].index();
                let mut e = strat.remove(i);
                vm_insert(&mut e, key, a[i].0 as u32);
                strat.insert(i, e);
                i = i + 1;
            }
            let ghost s2 = maps_of(strat@);
            let mut next = copy_tasks(tasks);
            next.push((true, l));
            let post = gk.post(l, a);
            let ghost tl = tasks@.len();
            let mut j: usize = 0;
            while j < post.len()
                invariant
                    gk.wf(),
                    n == gk.nloc(),
                    (l.0 as int) < n,
                    post@ == gk.post_spec(l.0 as int, a@),
                    tl == tasks@.len(),
                    j <= post@.len(),
                    next@.len() == tl + 1 + j,
                    forall|x: int| 0 <= x < tl ==> #[trigger] next@[x] == tasks@[x],
                    next@[tl as int] == (true, l),
                    forall|x: int| 0 <= x < j ==> next@[tl + 1 + x] == (false, #[trigger] post@[x]),
                    forall|q: int| 0 <= q < next@.len() ==> ((#[trigger] next@[q]).1.0 as int) < n,
                decreases post@.len() - j,
            {
                proof {
                    lemma_post_target(*gk, l.0 as int, a@, j as int);
                }
                next.push((false, post[j]));
                j = j + 1;
            }
            proof {
                assert forall|u: int| 0 <= u < s0.len() implies #[trigger] s2[u] ==
                    s0[u].insert(to_gki@[t0.last().1.0 as int]@[u].0 as nat, a@[u].0 as u32) by {
                    assert(s2[u] == vm_map(strat@[u]));
                }
                assert forall|x: int| 0 <= x < t0.len() - 1 implies #[trigger] next@[x] == t0[x] by {
                    assert(tasks@[x] == t0[x]);
                }
                assert forall|x: int| 0 <= x < gk.post_spec(t0.last().1.0 as int, a@).len() implies
                    next@[t0.len() + x] == (false, #[trigger] gk.post_spec(t0.last().1.0 as int, a@)[x]) by {
                    assert(next@[tl + 1 + x] == (false, post@[x]));
                }
                lemma_branch(*gk, to_gki@, v0, s0, s2, t0, next@, a@);
                lemma_bounded_len(vm_map(*visit).dom(), n as nat);
                lemma_grays_branch(n as nat, v0, t0, next@);
                lemma_closed_branch(*gk, to_gki@, v0, s0, s2, l.0 as int, a@);
                lemma_reached_branch(*gk, to_gki@, v0, s0, s2, t0, next@, a@);
                lemma_decided_insert(*gk, v0, l.0 as nat, GRAY);
                assert forall|u: int, x: nat| 0 <= u < s2.len() && #[trigger] s2[u].dom().contains(x) implies {
                    &&& (x as int) < opts@[u]@.len()
                    &&& opts@[u]@[x as int] is Some
                    &&& s2[u][x] <= u16::MAX
                    &&& opts@[u]@[x as int].unwrap()@.contains(Act(s2[u][x] as u16))
                } by {
                    let key = to_gki@[l.0 as int]@[u].0 as nat;
                    if x == key {
                        assert(options@[u]@.contains(branches@[b as int]@[u]));
                        assert(Act(s2[u][x] as u16) == a@[u]);
                    } else {
                        assert(s0[u].dom().contains(x));
                    }
                }
                if gw && b == bp {
                    lemma_good_branch(*gk, to_gki@, opts@, v0, s0, s2, t0, next@, pp);
                    assert(some_good(*gk, to_gki@, opts@, v0.insert(l.0 as nat, GRAY), s2, next@));
                }
            }
            let ghost fb = found@;
            let stop = search(gk, to_gki, opts, max_depth, find_all, visit, strat, depth + 1, &mut next, found, stats, hit);
            proof {
                let bv = profiles_view(branches@);
                assert forall|q: int| 0 <= q < bv.len() implies (#[trigger] bv[q]).len() == s0.len() by {
                    assert(bv[q] == branches@[q]@);
                }
                assert forall|q1: int, q2: int| 0 <= q1 < q2 < bv.len() implies bv[q1] != bv[q2] by {
                    assert(bv[q1] == branches@[q1]@ && bv[q2] == branches@[q2]@);
                }
                assert forall|i: int| 0 <= i < s0.len() implies #[trigger] s2[i] == s0[i].insert(l_gki@[i].0 as nat, bv[b as int][i].0 as u32) by {
                    assert(bv[b as int] == a@);
                }
                assert(fb == found_head);
                lemma_branch_found(opts@, s0, s2, l_gki@, bv, b as int, old(found)@.len() as int, fb, found@);
            }
            if stop {
                return true;
            }
            *visit = saved_visit;
            *strat = saved_strat;
            proof {
                assert(maps_of(strat@) =~= s0);
            }
        }
        return false;
    }
    let p = snapshot(strat, opts);
    proof {
        assert(is_black(vm_map(*visit), 0));
        let s = maps_of(strat@);
        let k = choose|k: nat| wins_under(*gk, maps_sel(s, to_gki@), 0, k);
        lemma_snapshot_sel(*gk, to_gki@, opts@, s, p@);
        lemma_wins_extend(*gk, maps_sel(s, to_gki@), strat_sel(p@, to_gki@), 0, k);
    }
    let ghost f0 = found@;
    proof {
        let s = maps_of(strat@);
        let v = vm_map(*visit);
        assert forall|x: int| 0 <= x < gk.nloc() && #[trigger] is_black(v, x) && !gk.loc@[x].is_winning implies {
            &&& strat_sel(p@, to_gki@)(x) is Some
            &&& forall|j: int| 0 <= j < gk.post_spec(x, strat_sel(p@, to_gki@)(x).unwrap()).len() ==>
                is_black(v, (#[trigger] gk.post_spec(x, strat_sel(p@, to_gki@)(x).unwrap())[j]).0 as int)
        } by {
            assert(strat_sel(p@, to_gki@)(x) == maps_sel(s, to_gki@)(x));
        }
        lemma_reached_decided(*gk, v, strat_sel(p@, to_gki@));
        let rs = reached(*gk, strat_sel(p@, to_gki@));
        assert forall|y: nat| #[trigger] decided(*gk, v).contains(y) implies rs.contains(y) by {
            assert(reaches(*gk, maps_sel(s, to_gki@), 0, y as int));
            let k = choose|k: nat| #[trigger] reach_within(*gk, maps_sel(s, to_gki@), 0, y as int, k);
            lemma_reach_mono(*gk, maps_sel(s, to_gki@), strat_sel(p@, to_gki@), 0, y as int, k);
        }
        assert forall|i: int, x: int| 0 <= i < p@.len() && 0 <= x < p@[i].choice@.len() implies
            ((#[trigger] p@[i].choice@[x]) is Some <==>
                exists|y: nat| #[trigger] rs.contains(y) && to_gki@[y as int]@[i].0 as int == x) by {
            assert(s[i] == vm_map(strat@[i]));
            if p@[i].choice@[x] is Some {
                assert(s[i].dom().contains(x as nat));
                let y = choose|y: nat| #[trigger] decided(*gk, v).contains(y) && to_gki@[y as int]@[i].0 as nat == x as nat;
                assert(rs.contains(y));
            }
            if exists|y: nat| #[trigger] rs.contains(y) && to_gki@[y as int]@[i].0 as int == x {
                let y = choose|y: nat| #[trigger] rs.contains(y) && to_gki@[y as int]@[i].0 as int == x;
                assert(decided(*gk, v).contains(y));
                assert(s[i].dom().contains(x as nat));
            }
        }
        assert(keys_exact(*gk, to_gki@, p@));
        assert forall|i: int, x: int| 0 <= i < p@.len() && 0 <= x < p@[i].choice@.len() && (#[trigger] p@[i].choice@[x]) is Some implies
            x < opts@[i]@.len() && opts@[i]@[x] is Some && opts@[i]@[x].unwrap()@.contains(p@[i].choice@[x].unwrap()) by {
            assert(s[i] == vm_map(strat@[i]));
            assert(s[i].dom().contains(x as nat));
        }
    }
    found.push(p);
    proof {
        assert forall|q: int| 0 <= q < found@.len() implies profile_wins(*gk, to_gki@, (#[trigger] found@[q])@) by {
            if q < f0.len() {
                assert(found@[q] == f0[q]);
            }
        }
        assert forall|q: int| 0 <= q < found@.len() implies strat_drawn(opts@, (#[trigger] found@[q])@) by {
            if q < f0.len() {
                assert(found@[q] == f0[q]);
            }
        }
        assert forall|q: int| 0 <= q < found@.len() implies
            reached(*gk, strat_sel((#[trigger] found@[q])@, to_gki@)).len() <= max_depth as nat by {
            if q < f0.len() {
                assert(found@[q] == f0[q]);
            }
        }
        assert forall|q: int| 0 <= q < found@.len() implies keys_exact(*gk, to_gki@, (#[trigger] found@[q])@) by {
            if q < f0.len() {
                assert(found@[q] == f0[q]);
            }
        }
    }
    if !find_all {
        return true;
    }
    stats.backtracks = stats.backtracks.wrapping_add(1);
    false
}


/// What the search found: for each bound on the number of decided
/// locations that was tried, from 0 up, the profiles found under it; the
/// search's counters; the options the agents chose among, per agent and
/// location of its knowledge game; and, per bound, whether it cut the
/// search.
#[derive(Debug)]
pub struct SearchResult {
    pub rounds: Vec<Vec<Vec<Strat>>>,
    pub stats: Stats,
    pub options: Vec<Vec<Option<Vec<Act>>>>,
    pub cut: Vec<bool>,
}

/// The actions `r` that the search may take at a location of a knowledge
/// game whose outcomes are `o`: none where it loses; otherwise actions that
/// do not lose, each once, best first (all of them where `find_all` or where the
/// location does not win for sure; else the first best action).
pub open spec fn option_ok(o: OutcomeSetView, find_all: bool, r: Option<Vec<Act>>) -> bool {
    match r {
        None => o.outcome == Outcome::Lose,
        Some(v) => {
            &&& !(o.outcome is Lose)
            &&& v@.no_duplicates()
            &&& forall|k: int| 0 <= k < v@.len() ==> (#[trigger] v@[k]).0 < o.action.len()
            &&& (find_all || !(o.outcome is Win)) ==> v@.len() <= o.action.len()
                && (forall|k: int| 0 <= k < v@.len() ==> !(o.action[(#[trigger] v@[k]).0 as int] is Lose))
                && (forall|j: int| 0 <= j < o.action.len() && !(#[trigger] o.action[j] is Lose) ==>
                    v@.contains(Act(j as u16)))
            &&& forall|k: int, j: int| 0 <= k < j < v@.len() ==>
                outcome_le(o.action[(#[trigger] v@[k]).0 as int], o.action[(#[trigger] v@[j]).0 as int])
            &&& (!find_all && o.outcome is Win && o.action.len() > 0) ==> v@.len() == 1
                && (forall|j: int| 0 <= j < o.action.len() ==> outcome_le(o.action[v@[0].0 as int], #[trigger] o.action[j]))
                && (forall|j: int| 0 <= j < v@[0].0 ==> !outcome_le(#[trigger] o.action[j], o.action[v@[0].0 as int]))
        },
    }
}

/// `opts` holds, for each agent of the expansion `g` and each location of
/// the agent's knowledge game, the actions that `option_ok` allows under
/// the outcomes of that knowledge game.
pub open spec fn options_fit(g: ConstructedGame<MKBSC>, find_all: bool, opts: Seq<Vec<Option<Vec<Act>>>>) -> bool {
    &&& opts.len() == g.origin.gki@.len()
    &&& forall|i: int| 0 <= i < opts.len() ==> row_fit(g.origin.gki@[i].game, find_all, (#[trigger] opts[i])@)
}

/// `row` holds, for each location of the single-agent game `gi`, the
/// actions that `option_ok` allows under the outcomes of `gi`.
pub open spec fn row_fit(gi: Game, find_all: bool, row: Seq<Option<Vec<Act>>>) -> bool {
    exists|w: Seq<OutcomeSetView>| {
        &&& #[trigger] crate::outcomes::is_outcome_fixpoint(gi, w)
        &&& row.len() == w.len()
        &&& forall|x: int| 0 <= x < w.len() ==> option_ok(w[x], find_all, #[trigger] row[x])
    }
}

/// Every strategy of `p` chooses, where it chooses, one of the options.
pub open spec fn strat_drawn(opts: Seq<Vec<Option<Vec<Act>>>>, p: Seq<Strat>) -> bool {
    &&& p.len() == opts.len()
    &&& forall|i: int| 0 <= i < p.len() ==> (#[trigger] p[i]).choice@.len() == opts[i]@.len()
    &&& forall|i: int, x: int| 0 <= i < p.len() && 0 <= x < p[i].choice@.len() && (#[trigger] p[i].choice@[x]) is Some ==>
        x < opts[i]@.len() && opts[i]@[x] is Some && opts[i]@[x].unwrap()@.contains(p[i].choice@[x].unwrap())
}

/// The profiles `p` and `q` choose differently somewhere.
pub open spec fn profiles_differ(p: Seq<Strat>, q: Seq<Strat>) -> bool {
    exists|i: int, x: int| 0 <= i < p.len() && 0 <= x < p[i].choice@.len() && #[trigger] p[i].choice@[x] != q[i].choice@[x]
}

/// Some profile drawn from the options `opts` wins `gk`, where `to_gki`
/// gives each location's knowledge locations.
pub open spec fn winnable(gk: Game, to_gki: Seq<Vec<Loc>>, opts: Seq<Vec<Option<Vec<Act>>>>) -> bool {
    exists|p: Seq<Strat>| strat_drawn(opts, p) && profile_wins(gk, to_gki, p)
}

/// The choices of `p` as maps to action numbers.
spec fn choice_maps(p: Seq<Strat>) -> Seq<Map<nat, u32>> {
    Seq::new(p.len(), |i: int| Map::new(
        |x: nat| (x as int) < p[i].choice@.len() && p[i].choice@[x as int] is Some,
        |x: nat| p[i].choice@[x as int].unwrap().0 as u32))
}

/// A winning profile drawn from the options, as maps, is drawn and wins.
proof fn lemma_choice_maps(gk: Game, to_gki: Seq<Vec<Loc>>, opts: Seq<Vec<Option<Vec<Act>>>>, p: Seq<Strat>)
    requires
        gk.wf(),
        strat_drawn(opts, p),
        profile_wins(gk, to_gki, p),
    ensures
        drawn(opts, choice_maps(p)),
        choice_maps(p).len() == p.len(),
        wins_from(gk, maps_sel(choice_maps(p), to_gki), 0),
{
    let m = choice_maps(p);
    assert forall|i: int, x: nat| 0 <= i < m.len() && #[trigger] m[i].dom().contains(x) implies {
        &&& (x as int) < opts[i]@.len()
        &&& opts[i]@[x as int] is Some
        &&& m[i][x] <= u16::MAX
        &&& opts[i]@[x as int].unwrap()@.contains(Act(m[i][x] as u16))
    } by {
        let a = p[i].choice@[x as int].unwrap();
        assert(p[i].choice@[x as int] is Some);
        assert(Act(m[i][x] as u16) == a);
    }
    let sel1 = strat_sel(p, to_gki);
    let sel2 = maps_sel(m, to_gki);
    assert forall|l: int| 0 <= l < gk.nloc() && (#[trigger] sel1(l)) is Some implies sel2(l) == sel1(l) by {
        assert forall|i: int| 0 <= i < m.len() implies #[trigger] m[i].dom().contains(to_gki[l]@[i].0 as nat) by {
            assert((to_gki[l]@[i].0 as int) < p[i].choice@.len() && p[i].choice@[to_gki[l]@[i].0 as int] is Some);
        }
        let b1 = Seq::new(p.len(), |i: int| p[i].choice@[to_gki[l]@[i].0 as int].unwrap());
        let b2 = Seq::new(m.len(), |i: int| Act(m[i][to_gki[l]@[i].0 as nat] as u16));
        assert(b1 =~= b2);
    }
    let k = choose|k: nat| wins_under(gk, sel1, 0, k);
    lemma_wins_extend(gk, sel1, sel2, 0, k);
}

/// The options of every agent at every location of its knowledge game.
/// The knowledge games of an expansion are single-agent games.
proof fn lemma_knowledge_single(g: ConstructedGame<MKBSC>, i: int)
    requires
        g.wf(),
        0 <= i < g.origin.gki@.len(),
    ensures
        g.origin.gki@[i].game.wf(),
        g.origin.gki@[i].game.n_agents() == 1,
{
    let m = g.origin;
    assert(m.wf());
    let k = m.gki@[i];
    assert(k.wf());
    assert(k.game.n_actions@ == k.source().g.n_actions@);
    assert(k.source().g.n_actions@ =~= seq![m.g.n_actions@[i]]);
}

/// The tables the search reads fit the expansion: every location of it
/// has one knowledge location per agent, each a location of that agent's
/// knowledge game.
proof fn lemma_tables(g: ConstructedGame<MKBSC>, opts: Seq<Vec<Option<Vec<Act>>>>)
    requires
        g.wf(),
        opts.len() == g.origin.gki@.len(),
        forall|i: int| 0 <= i < opts.len() ==> (#[trigger] opts[i])@.len() == g.origin.gki@[i].game.nloc(),
    ensures
        tables_ok(g.game, g.loc_map_reverse@, opts),
{
    let m = g.origin;
    assert(m.wf());
    let orig = g.origins();
    assert(g.game.n_actions@ == m.g.n_actions@);
    assert forall|i: int| 0 <= i < opts.len() implies (#[trigger] opts[i])@.len() <= u32::MAX by {
        assert(m.gki@[i].wf());
        assert(m.gki@[i].game.wf());
    }
    assert forall|l: int| 0 <= l < g.loc_map_reverse@.len() implies (#[trigger] g.loc_map_reverse@[l])@.len() == g.game.n_agents() by {
        assert(orig[l] == g.loc_map_reverse@[l]@);
        assert(m.loc_ok(orig[l]));
    }
    assert forall|l: int, i: int| 0 <= l < g.loc_map_reverse@.len() && 0 <= i < g.game.n_agents() implies
        (#[trigger] g.loc_map_reverse@[l]@[i]).0 < opts[i]@.len() by {
        assert(orig[l] == g.loc_map_reverse@[l]@);
        assert(m.loc_ok(orig[l]));
    }
}

fn options_table(g: &ConstructedGame<MKBSC>, find_all: bool) -> (r: Option<Vec<Vec<Option<Vec<Act>>>>>)
    requires
        g.wf(),
    ensures
        match r {
            Some(t) => {
                &&& t@.len() == g.origin.gki@.len()
                &&& forall|i: int| 0 <= i < t@.len() ==> (#[trigger] t@[i])@.len() == g.origin.gki@[i].game.nloc()
                &&& forall|i: int| 0 <= i < t@.len() ==> no_overflow(#[trigger] g.origin.gki@[i].game)
                &&& options_fit(*g, find_all, t@)
            },
            None => exists|i: int| 0 <= i < g.origin.gki@.len() && !no_overflow(#[trigger] g.origin.gki@[i].game),
        },
{
    let m = &g.origin;
    let mut t: Vec<Vec<Option<Vec<Act>>>> = Vec::new();
    let mut i: usize = 0;
    while i < m.gki.len()
        invariant
            g.wf(),
            m == &g.origin,
            i <= m.gki@.len(),
            t@.len() == i,
            forall|k: int| 0 <= k < i ==> (#[trigger] t@[k])@.len() == m.gki@[k].game.nloc(),
            forall|k: int| 0 <= k < i ==> no_overflow(#[trigger] m.gki@[k].game),
            forall|k: int| 0 <= k < i ==> row_fit(m.gki@[k].game, find_all, (#[trigger] t@[k])@),
        decreases m.gki@.len() - i,
    {
        let gi = &m.gki[i].game;
        proof {
            assert(m.wf());
            assert(m.gki@[i as int].wf());
            lemma_knowledge_single(*g, i as int);
        }
        if gi.n_actions.len() != 1 {
            return None;
        }
        let w = match find_outcomes_checked(gi) {
            Some(w) => w,
            None => return None,
        };
        let mut row: Vec<Option<Vec<Act>>> = Vec::new();
        let mut x: usize = 0;
        while x < w.len()
            invariant
                gi.wf(),
                gi.n_agents() == 1,
                crate::outcomes::shaped(*gi, crate::outcomes::views(w@)),
                x <= w@.len(),
                row@.len() == x,
                forall|y: int| 0 <= y < x ==> option_ok(crate::outcomes::views(w@)[y], find_all, #[trigger] row@[y]),
            decreases w@.len() - x,
        {
            proof {
                assert(crate::outcomes::views(w@)[x as int].action == w@[x as int].action@);
                assert(gi.n_actions@[0] <= 65536);
            }
            let ghost r0 = row@;
            row.push(options_of(&w[x], find_all));
            proof {
                assert forall|y: int| 0 <= y < x + 1 implies option_ok(crate::outcomes::views(w@)[y], find_all, #[trigger] row@[y]) by {
                    if y < x {
                        assert(row@[y] == r0[y]);
                    }
                }
            }
            x = x + 1;
        }
        proof {
            assert(row_fit(*gi, find_all, row@)) by {
                let vw = crate::outcomes::views(w@);
                assert(crate::outcomes::is_outcome_fixpoint(*gi, vw));
            }
        }
        let ghost t0 = t@;
        t.push(row);
        proof {
            assert forall|k: int| 0 <= k < i + 1 implies row_fit(m.gki@[k].game, find_all, (#[trigger] t@[k])@) by {
                if k < i {
                    assert(t@[k] == t0[k]);
                }
            }
        }
        i = i + 1;
    }
    Some(t)
}

/// Searches the expanded game `g` for a winning profile of memoryless
/// strategies of the agents in their knowledge games: depth-first under a
/// bound on the number of locations decided, the bound raised from 0 until
/// a profile is found (all of them are collected when `find_all`) or the
/// bound no longer cuts the search. The agents choose among the options
/// that the outcomes of their knowledge games leave them (`options_fit`).
/// Every profile found wins the expanded game and is drawn from those
/// options, and one is found exactly when some such profile exists; no
/// round finds a profile twice. A profile found under the bound `k`
/// reaches at most `k` locations that are no goal, and decides exactly at
/// their knowledge locations. A bound cuts the search only where
/// strategies drawn from the options reach past it (`can_cut`); the bound
/// is raised after every round that was cut and in which the search did
/// not stop at a profile found, and only then. `None`
/// when the outcome analysis of a knowledge game overflows its step counts.
pub fn find_strategy(g: &ConstructedGame<MKBSC>, find_all: bool) -> (r: Option<SearchResult>)
    requires
        g.wf(),
    ensures
        r is None <==> exists|i: int| 0 <= i < g.origin.gki@.len() && !no_overflow(#[trigger] g.origin.gki@[i].game),
        match r {
            Some(res) => {
                &&& res.rounds@.len() >= 1
                &&& res.rounds@.len() <= g.game.nloc() + 1
                &&& forall|k: int, q: int| 0 <= k < res.rounds@.len() && 0 <= q < res.rounds@[k]@.len() ==>
                    profile_wins(g.game, g.loc_map_reverse@, (#[trigger] res.rounds@[k]@[q])@)
                &&& !find_all ==> res.rounds@.last()@.len() <= 1
                    && forall|k: int| 0 <= k < res.rounds@.len() - 1 ==> (#[trigger] res.rounds@[k])@.len() == 0
                &&& options_fit(*g, find_all, res.options@)
                &&& forall|k: int, q: int| 0 <= k < res.rounds@.len() && 0 <= q < res.rounds@[k]@.len() ==>
                    strat_drawn(res.options@, (#[trigger] res.rounds@[k]@[q])@)
                &&& forall|k: int, q: int| 0 <= k < res.rounds@.len() && 0 <= q < res.rounds@[k]@.len() ==>
                    reached(g.game, strat_sel((#[trigger] res.rounds@[k]@[q])@, g.loc_map_reverse@)).len() <= k
                &&& forall|k: int, q: int| 0 <= k < res.rounds@.len() && 0 <= q < res.rounds@[k]@.len() ==>
                    keys_exact(g.game, g.loc_map_reverse@, (#[trigger] res.rounds@[k]@[q])@)
                &&& forall|k: int, q1: int, q2: int| 0 <= k < res.rounds@.len() && 0 <= q1 < q2 < res.rounds@[k]@.len() ==>
                    profiles_differ((#[trigger] res.rounds@[k]@[q1])@, (#[trigger] res.rounds@[k]@[q2])@)
                &&& winnable(g.game, g.loc_map_reverse@, res.options@) ==> res.rounds@.last()@.len() > 0
                &&& some_found(res) <==> winnable(g.game, g.loc_map_reverse@, res.options@)
                &&& res.cut@.len() == res.rounds@.len()
                &&& forall|k: int| 0 <= k < res.cut@.len() && #[trigger] res.cut@[k] ==>
                    can_cut(g.game, g.loc_map_reverse@, res.options@, k as nat)
                &&& forall|k: int| 0 <= k < res.cut@.len() - 1 ==> #[trigger] res.cut@[k]
                &&& !res.cut@.last() || (!find_all && res.rounds@.last()@.len() > 0)
            },
            None => true,
        },
{
    let opts = match options_table(g, find_all) {
        Some(t) => t,
        None => return None,
    };
    let gk = &g.game;
    proof {
        lemma_tables(*g, opts@);
    }
    if !check_tables(gk, &g.loc_map_reverse, &opts) {
        return None;
    }
    let n = gk.n_loc();
    let na = gk.n_actions.len();
    proof {
        assert forall|i: int, x: int| 0 <= i < opts@.len() && 0 <= x < opts@[i]@.len() && (#[trigger] opts@[i]@[x]) is Some
            implies opts@[i]@[x].unwrap()@.no_duplicates() by {
            assert(row_fit(g.origin.gki@[i].game, find_all, opts@[i]@));
            let ww = choose|ww: Seq<OutcomeSetView>| #[trigger] crate::outcomes::is_outcome_fixpoint(g.origin.gki@[i].game, ww)
                && opts@[i]@.len() == ww.len()
                && forall|y: int| 0 <= y < ww.len() ==> option_ok(ww[y], find_all, #[trigger] opts@[i]@[y]);
            assert(option_ok(ww[x], find_all, opts@[i]@[x]));
        }
        assert(opts_distinct(opts@));
    }
    let ghost w = winnable(*gk, g.loc_map_reverse@, opts@);
    let ghost mut pw: Seq<Map<nat, u32>> = Seq::empty();
    proof {
        if w {
            let p = choose|p: Seq<Strat>| strat_drawn(opts@, p) && profile_wins(*gk, g.loc_map_reverse@, p);
            lemma_choice_maps(*gk, g.loc_map_reverse@, opts@, p);
            pw = choice_maps(p);
        }
    }
    let mut rounds: Vec<Vec<Vec<Strat>>> = Vec::new();
    let mut cut: Vec<bool> = Vec::new();
    let mut stats = Stats { steps: 0, nodes: 0, backtracks: 0 };
    let mut max_depth: u32 = 0;
    loop
        invariant_except_break
            rounds@.len() == max_depth,
            forall|k: int| 0 <= k < cut@.len() ==> #[trigger] cut@[k],
            !find_all ==> forall|k: int| 0 <= k < rounds@.len() ==> (#[trigger] rounds@[k])@.len() == 0,
        invariant
            gk.wf(),
            n == gk.nloc(),
            na == gk.n_agents(),
            tables_ok(*gk, g.loc_map_reverse@, opts@),
            max_depth <= n,
            forall|k: int| 0 <= k < rounds@.len() ==> found_ok(*gk, g.loc_map_reverse@, (#[trigger] rounds@[k])@),
            forall|k: int| 0 <= k < rounds@.len() ==> found_drawn(opts@, (#[trigger] rounds@[k])@),
            forall|k: int| 0 <= k < rounds@.len() ==> found_bounded(*gk, g.loc_map_reverse@, (#[trigger] rounds@[k])@, k as nat),
            forall|k: int| 0 <= k < rounds@.len() ==> found_keys(*gk, g.loc_map_reverse@, (#[trigger] rounds@[k])@),
            forall|k: int| 0 <= k < rounds@.len() ==> new_distinct((#[trigger] rounds@[k])@, 0),
            opts_distinct(opts@),
            forall|i: int| 0 <= i < g.origin.gki@.len() ==> no_overflow(#[trigger] g.origin.gki@[i].game),
            w ==> drawn(opts@, pw) && pw.len() == na && wins_from(*gk, maps_sel(pw, g.loc_map_reverse@), 0),
            cut@.len() == rounds@.len(),
            forall|k: int| 0 <= k < cut@.len() && #[trigger] cut@[k] ==> can_cut(*gk, g.loc_map_reverse@, opts@, k as nat),
        ensures
            forall|k: int| 0 <= k < cut@.len() - 1 ==> #[trigger] cut@[k],
            !cut@.last() || (!find_all && rounds@.last()@.len() > 0),
            w ==> rounds@.last()@.len() > 0,
            !find_all ==> rounds@.last()@.len() <= 1
                && forall|k: int| 0 <= k < rounds@.len() - 1 ==> (#[trigger] rounds@[k])@.len() == 0,
            rounds@.len() == max_depth + 1,
            max_depth <= n,
        decreases n - max_depth,
    {
        let mut visit = vm_new();
        let mut strat: Vec<VecMap<u32>> = Vec::new();
        let mut i: usize = 0;
        while i < na
            invariant
                i <= na,
                strat@.len() == i,
                forall|k: int| 0 <= k < i ==> vm_map(#[trigger] strat@[k]).dom() == Set::<nat>::empty(),
            decreases na - i,
        {
            strat.push(vm_new());
            i = i + 1;
        }
        let mut tasks: Vec<(bool, Loc)> = Vec::new();
        tasks.push((false, Loc(0)));
        let mut found: Vec<Vec<Strat>> = Vec::new();
        let mut hit = false;
        proof {
            assert(vm_map(visit).dom() =~= Set::<nat>::empty());
            assert(tasks@[0].1 == Loc(0));
            assert(!is_black(vm_map(visit), 0));
            assert(decided(*gk, vm_map(visit)) =~= Set::<nat>::empty());
            let s0 = maps_of(strat@);
            assert(reach_within(*gk, maps_sel(s0, g.loc_map_reverse@), 0, 0, 0));
            assert(reaches(*gk, maps_sel(s0, g.loc_map_reverse@), 0, tasks@[0].1.0 as int));
            assert forall|i: int, key: nat| 0 <= i < s0.len() implies (#[trigger] s0[i].dom().contains(key) <==>
                exists|x: nat| #[trigger] decided(*gk, vm_map(visit)).contains(x) && g.loc_map_reverse@[x as int]@[i].0 as nat == key) by {
                assert(vm_map(strat@[i]).dom() == Set::<nat>::empty());
            }
            if w {
                let s0 = maps_of(strat@);
                assert forall|k: int, x: nat| 0 <= k < s0.len() && #[trigger] s0[k].dom().contains(x) implies
                    pw[k].dom().contains(x) && pw[k][x] == s0[k][x] by {
                    assert(vm_map(strat@[k]).dom() == Set::<nat>::empty());
                }
                assert(good(*gk, g.loc_map_reverse@, opts@, vm_map(visit), s0, tasks@, pw));
            }
        }
        let stop = search(gk, &g.loc_map_reverse, &opts, max_depth, find_all, &mut visit, &mut strat, 0,
            &mut tasks, &mut found, &mut stats, &mut hit);
        let ghost r0 = rounds@;
        let ghost c0 = cut@;
        rounds.push(found);
        cut.push(hit);
        proof {
            assert forall|k: int| 0 <= k < cut@.len() && #[trigger] cut@[k] implies can_cut(*gk, g.loc_map_reverse@, opts@, k as nat) by {
                if k < c0.len() {
                    assert(cut@[k] == c0[k]);
                }
            }
        }
        proof {
            assert forall|k: int| 0 <= k < rounds@.len() implies found_ok(*gk, g.loc_map_reverse@, (#[trigger] rounds@[k])@) by {
                if k < r0.len() {
                    assert(rounds@[k] == r0[k]);
                }
            }
            assert forall|k: int| 0 <= k < rounds@.len() implies found_drawn(opts@, (#[trigger] rounds@[k])@) by {
                if k < r0.len() {
                    assert(rounds@[k] == r0[k]);
                }
            }
            assert forall|k: int| 0 <= k < rounds@.len() implies
                found_bounded(*gk, g.loc_map_reverse@, (#[trigger] rounds@[k])@, k as nat) by {
                if k < r0.len() {
                    assert(rounds@[k] == r0[k]);
                }
            }
            assert forall|k: int| 0 <= k < rounds@.len() implies
                found_keys(*gk, g.loc_map_reverse@, (#[trigger] rounds@[k])@) by {
                if k < r0.len() {
                    assert(rounds@[k] == r0[k]);
                }
            }
            assert forall|k: int| 0 <= k < rounds@.len() implies new_distinct((#[trigger] rounds@[k])@, 0) by {
                if k < r0.len() {
                    assert(rounds@[k] == r0[k]);
                }
            }
        }
        if stop || !hit {
            break;
        }
        max_depth = max_depth + 1;
    }
    let res = SearchResult { rounds, stats, options: opts, cut };
    proof {
        if some_found(res) {
            let k = choose|k: int| 0 <= k < res.rounds@.len() && (#[trigger] res.rounds@[k])@.len() > 0;
            let p = res.rounds@[k]@[0]@;
            assert(found_drawn(opts@, res.rounds@[k]@));
            assert(strat_drawn(opts@, p) && profile_wins(*gk, g.loc_map_reverse@, p));
        }
        if w {
            assert(res.rounds@[res.rounds@.len() - 1] == res.rounds@.last());
        }
        assert forall|k: int, q: int| 0 <= k < res.rounds@.len() && 0 <= q < res.rounds@[k]@.len() implies
            reached(g.game, strat_sel((#[trigger] res.rounds@[k]@[q])@, g.loc_map_reverse@)).len() <= k by {
            assert(found_bounded(*gk, g.loc_map_reverse@, res.rounds@[k]@, k as nat));
        }
        assert forall|k: int, q: int| 0 <= k < res.rounds@.len() && 0 <= q < res.rounds@[k]@.len() implies
            keys_exact(g.game, g.loc_map_reverse@, (#[trigger] res.rounds@[k]@[q])@) by {
            assert(found_keys(*gk, g.loc_map_reverse@, res.rounds@[k]@));
        }
        assert forall|k: int, q1: int, q2: int| 0 <= k < res.rounds@.len() && 0 <= q1 < q2 < res.rounds@[k]@.len() implies
            profiles_differ((#[trigger] res.rounds@[k]@[q1])@, (#[trigger] res.rounds@[k]@[q2])@) by {
            assert(new_distinct(res.rounds@[k]@, 0));
        }
    }
    Some(res)
}


/// The action of `choice` at the knowledge location `origin[o]` behind
/// observation `o`, the first action where none was chosen.
pub open spec fn action_at_spec(choice: Seq<Option<Act>>, origin: Seq<Loc>, o: int) -> Act {
    if 0 <= o < origin.len() && (origin[o].0 as int) < choice.len() {
        match choice[origin[o].0 as int] {
            Some(a) => a,
            None => Act(0),
        }
    } else {
        Act(0)
    }
}

fn action_at(choice: &Vec<Option<Act>>, origin: &Vec<Loc>, o: usize) -> (r: Act)
    ensures
        r == action_at_spec(choice@, origin@, o as int),
{
    if o < origin.len() && origin[o].index() < choice.len() {
        match choice[origin[o].index()] {
            Some(a) => a,
            None => Act(0),
        }
    } else {
        Act(0)
    }
}

/// The transducer `t` plays for agent `i` of `gk` what `choice` chooses at
/// the knowledge location of the agent's last observation: in state 0
/// (before the first move) that of the initial location, in state `1 + o`
/// that of observation `o`; moving along a transition to a location of
/// observation `o2` it goes to state `1 + o2`.
pub open spec fn plays(gk: Game, i: int, choice: Seq<Option<Act>>, origin: Seq<Loc>, t: Transducer) -> bool {
    &&& t.wf()
    &&& t.actions@.len() == gk.obs@[i].len() + 1
    &&& t.actions@[0] == action_at_spec(choice, origin, gk.obs_of(0, i).0 as int)
    &&& forall|o: int| 0 <= o < gk.obs@[i].len() ==> #[trigger] t.actions@[o + 1] == action_at_spec(choice, origin, o)
    &&& forall|l: int, q: int| 0 <= l < gk.nloc() && 0 <= q < gk.succ(l).len() ==>
        t.next(gk.obs_of((#[trigger] gk.succ(l)[q]).1.0 as int, i).0, (gk.obs_of(l, i).0 + 1) as u32)
            == Some((gk.obs_of(gk.succ(l)[q].1.0 as int, i).0 + 1) as u32)
    &&& forall|q: int| 0 <= q < gk.succ(0).len() ==>
        t.next(gk.obs_of((#[trigger] gk.succ(0)[q]).1.0 as int, i).0, 0)
            == Some((gk.obs_of(gk.succ(0)[q].1.0 as int, i).0 + 1) as u32)
}

/// Agent `i`'s strategy as a transducer of the expanded game `gk`: its
/// state is 0 before the first move and `1 + o` after observing `o`, and
/// it plays what `choice` chose at the knowledge location of its last
/// observation (at the initial location's before the first move).
fn transducer_of(gk: &Game, i: usize, choice: &Vec<Option<Act>>, origin: &Vec<Loc>) -> (r: Transducer)
    requires
        gk.wf(),
        i < gk.n_agents(),
    ensures
        plays(*gk, i as int, choice@, origin@, r),
{
    proof {
        assert(gk.obs@[i as int].len() <= u32::MAX);
    }
    let n_obs = gk.obs[i].len();
    let mut actions: Vec<Act> = Vec::new();
    proof {
        assert(gk.loc@[0].obs@.len() == gk.n_agents());
    }
    actions.push(action_at(choice, origin, gk.loc[0].obs[i].index()));
    let mut o: usize = 0;
    while o < n_obs
        invariant
            o <= n_obs,
            actions@.len() == o + 1,
            actions@[0] == action_at_spec(choice@, origin@, gk.obs_of(0, i as int).0 as int),
            forall|x: int| 0 <= x < o ==> #[trigger] actions@[x + 1] == action_at_spec(choice@, origin@, x),
        decreases n_obs - o,
    {
        actions.push(action_at(choice, origin, o));
        proof {
            assert(actions@[o + 1] == action_at_spec(choice@, origin@, o as int));
        }
        o = o + 1;
    }
    let mut transitions: BTreeMap<(u32, u32), u32> = BTreeMap::new();
    let n = gk.n_loc();
    let mut l: usize = 0;
    while l < n
        invariant
            gk.wf(),
            i < gk.n_agents(),
            n == gk.nloc(),
            n_obs == gk.obs@[i as int].len(),
            n_obs <= u32::MAX,
            actions@.len() == n_obs + 1,
            l <= n,
            forall|k: (u32, u32)| #[trigger] transitions@.contains_key(k) ==> transitions@[k] == k.0 + 1,
            forall|k: (u32, u32)| #[trigger] transitions@.contains_key(k) ==> (transitions@[k] as int) < actions@.len(),
            forall|x: int, q: int| 0 <= x < l && 0 <= q < gk.succ(x).len() ==>
                transitions@.contains_key((gk.obs_of((#[trigger] gk.succ(x)[q]).1.0 as int, i as int).0,
                    (gk.obs_of(x, i as int).0 + 1) as u32)),
            l > 0 ==> forall|q: int| 0 <= q < gk.succ(0).len() ==>
                transitions@.contains_key((gk.obs_of((#[trigger] gk.succ(0)[q]).1.0 as int, i as int).0, 0u32)),
        decreases n - l,
    {
        proof {
            assert(gk.loc@[l as int].obs@.len() == gk.n_agents());
            assert(gk.loc@[l as int].obs@[i as int].0 < gk.obs@[i as int].len());
        }
        let o = gk.loc[l].obs[i].0;
        let succ = gk.successors(Loc(l as u32));
        let ghost t_before = transitions@;
        let mut k: usize = 0;
        while k < succ.len()
            invariant
                gk.wf(),
                i < gk.n_agents(),
                n == gk.nloc(),
                l < n,
                n_obs == gk.obs@[i as int].len(),
                n_obs <= u32::MAX,
                (o as int) < n_obs,
                o == gk.obs_of(l as int, i as int).0,
                actions@.len() == n_obs + 1,
                succ@.map_values(|e: (Profile, Loc)| crate::game::edge_view(e)) == gk.succ(l as int),
                k <= succ@.len(),
                forall|q: (u32, u32)| #[trigger] transitions@.contains_key(q) ==> transitions@[q] == q.0 + 1,
                forall|q: (u32, u32)| #[trigger] transitions@.contains_key(q) ==> (transitions@[q] as int) < actions@.len(),
                forall|q: (u32, u32)| #[trigger] t_before.contains_key(q) ==> transitions@.contains_key(q),
                forall|q: int| 0 <= q < k ==>
                    transitions@.contains_key((gk.obs_of((#[trigger] gk.succ(l as int)[q]).1.0 as int, i as int).0,
                        (o + 1) as u32)),
                l == 0 ==> forall|q: int| 0 <= q < k ==>
                    transitions@.contains_key((gk.obs_of((#[trigger] gk.succ(0)[q]).1.0 as int, i as int).0, 0u32)),
            decreases succ@.len() - k,
        {
            proof {
                assert(gk.valid_edge(gk.succ(l as int)[k as int]));
                assert(succ@[k as int].1 == gk.succ(l as int)[k as int].1);
            }
            let l2 = succ[k].1;
            proof {
                assert(gk.loc@[l2.0 as int].obs@.len() == gk.n_agents());
                assert(gk.loc@[l2.0 as int].obs@[i as int].0 < gk.obs@[i as int].len());
            }
            let o2 = gk.loc[l2.index()].obs[i].0;
            set_transition(&mut transitions, (o2, o + 1), o2 + 1);
            if l == 0 {
                set_transition(&mut transitions, (o2, 0), o2 + 1);
            }
            k = k + 1;
        }
        l = l + 1;
    }
    let r = Transducer { transitions, actions };
    proof {
        assert forall|x: int, q: int| 0 <= x < gk.nloc() && 0 <= q < gk.succ(x).len() implies
            r.next(gk.obs_of((#[trigger] gk.succ(x)[q]).1.0 as int, i as int).0, (gk.obs_of(x, i as int).0 + 1) as u32)
                == Some((gk.obs_of(gk.succ(x)[q].1.0 as int, i as int).0 + 1) as u32) by {
            assert(gk.valid_edge(gk.succ(x)[q]));
            assert(gk.loc@[gk.succ(x)[q].1.0 as int].obs@[i as int].0 < gk.obs@[i as int].len());
        }
        assert forall|q: int| 0 <= q < gk.succ(0).len() implies
            r.next(gk.obs_of((#[trigger] gk.succ(0)[q]).1.0 as int, i as int).0, 0)
                == Some((gk.obs_of(gk.succ(0)[q].1.0 as int, i as int).0 + 1) as u32) by {
            assert(gk.valid_edge(gk.succ(0)[q]));
        }
    }
    r
}

/// In the expanded game an agent's observation is its knowledge location:
/// observation `o` of agent `i` stands for the knowledge location that every
/// location of that observation has for `i`.
proof fn lemma_obs_knows(g: ConstructedGame<MKBSC>, l: int, i: int)
    requires
        g.wf(),
        0 <= l < g.game.nloc(),
        0 <= i < g.game.n_agents(),
    ensures
        g.obs_map_reverse@.len() == g.game.n_agents(),
        (g.game.obs_of(l, i).0 as int) < g.obs_map_reverse@[i]@.len(),
        g.obs_map_reverse@[i]@[g.game.obs_of(l, i).0 as int] == g.loc_map_reverse@[l]@[i],
{
    let r = g.game;
    let orig = g.origins();
    let rev = g.obs_origins();
    assert(obs_ok(&g.source(), r, orig, rev));
    assert(r.loc@[l].obs@.len() == r.n_agents());
    assert(r.loc@[l].obs@[i].0 < r.obs@[i].len());
    assert(rev[i][(r.loc@[l].obs@[i]).0 as int] == g.source().obs_spec(orig[l])[i]);
    assert(rev[i] == view_seq(g.obs_map_reverse@[i]@));
    assert(orig[l] == g.loc_map_reverse@[l]@);
}

/// The configuration in which every agent has observed where it is.
pub open spec fn canon_mem(gk: Game, c: Seq<u32>, l: int, n: nat) -> bool {
    &&& c.len() == n + 1
    &&& c[0] == l
    &&& forall|i: int| 0 <= i < n ==> #[trigger] mem(c, i) == (gk.obs_of(l, i).0 + 1) as u32
        || (l == 0 && mem(c, i) == 0)
}

/// Transducers that play a profile win from every configuration whose
/// location the profile wins from, within as many moves.
proof fn lemma_plays_wins(g: ConstructedGame<MKBSC>, p: Seq<Strat>, ts: Seq<Transducer>, l: int, c: Seq<u32>, k: nat)
    requires
        g.wf(),
        p.len() == g.game.n_agents(),
        ts.len() == p.len(),
        forall|i: int| 0 <= i < p.len() ==> plays(g.game, i, (#[trigger] p[i]).choice@, g.obs_map_reverse@[i]@, ts[i]),
        0 <= l < g.game.nloc(),
        canon_mem(g.game, c, l, p.len()),
        wins_under(g.game, strat_sel(p, g.loc_map_reverse@), l, k),
    ensures
        wins_within(g.game, ts, c, k),
    decreases k,
{
    let gk = g.game;
    let na = p.len();
    let sel = strat_sel(p, g.loc_map_reverse@);
    assert(Loc(c[0]).0 as int == l);
    if !gk.loc@[l].is_winning {
        let a = sel(l).unwrap();
        assert forall|i: int| 0 <= i < na implies #[trigger] profile_of(ts, c)[i] == a[i] by {
            lemma_obs_knows(g, l, i);
            let o = gk.obs_of(l, i).0 as int;
            assert(gk.loc@[l].obs@[i].0 < gk.obs@[i].len());
            assert(plays(gk, i, p[i].choice@, g.obs_map_reverse@[i]@, ts[i]));
            if mem(c, i) == (gk.obs_of(l, i).0 + 1) as u32 {
                assert(ts[i].actions@[o + 1] == action_at_spec(p[i].choice@, g.obs_map_reverse@[i]@, o));
            }
        }
        assert(profile_of(ts, c) =~= a);
        let post = gk.post_spec(l, a);
        assert forall|j: int| 0 <= j < post.len() implies all_defined(gk, ts, c, #[trigger] post[j])
            && step(gk, ts, c, post[j]) == seq![post[j].0] + Seq::new(na, |i: int| (gk.obs_of(post[j].0 as int, i).0 + 1) as u32) by {
            assert(post.contains(post[j]));
            crate::game::lemma_targets_with_contains(gk.succ(l), a, post[j]);
            let q = choose|q: int| 0 <= q < gk.succ(l).len() && gk.succ(l)[q] == (a, post[j]);
            assert(gk.succ(l)[q] == (a, post[j]));
            assert forall|i: int| 0 <= i < ts.len() implies
                (#[trigger] ts[i].next(gk.obs_of(post[j].0 as int, i).0, mem(c, i)))
                    == Some((gk.obs_of(post[j].0 as int, i).0 + 1) as u32) by {
                assert(plays(gk, i, p[i].choice@, g.obs_map_reverse@[i]@, ts[i]));
                if l == 0 && mem(c, i) == 0 {
                    assert(gk.succ(0)[q] == (a, post[j]));
                }
            }
            assert(step(gk, ts, c, post[j]) =~= seq![post[j].0] + Seq::new(na, |i: int| (gk.obs_of(post[j].0 as int, i).0 + 1) as u32));
        }
        assert(moves(gk, ts, c) == post);
        assert(all_defined(gk, ts, c, post[0]));
        assert(live(gk, ts, c));
        assert forall|d: Seq<u32>| #[trigger] is_child(gk, ts, c, d) implies wins_within(gk, ts, d, (k - 1) as nat) by {
            let j = choose|j: int| 0 <= j < moves(gk, ts, c).len()
                && !goal(gk, #[trigger] moves(gk, ts, c)[j])
                && all_defined(gk, ts, c, moves(gk, ts, c)[j])
                && d == step(gk, ts, c, moves(gk, ts, c)[j]);
            let l2 = post[j];
            lemma_post_target(gk, l, a, j);
            assert(wins_under(gk, sel, l2.0 as int, (k - 1) as nat));
            assert(d == seq![l2.0] + Seq::new(na, |i: int| (gk.obs_of(l2.0 as int, i).0 + 1) as u32));
            assert(canon_mem(gk, d, l2.0 as int, na)) by {
                assert forall|i: int| 0 <= i < na implies #[trigger] mem(d, i) == (gk.obs_of(l2.0 as int, i).0 + 1) as u32 by {
                    assert(d[i + 1] == (gk.obs_of(l2.0 as int, i).0 + 1) as u32);
                }
            }
            lemma_plays_wins(g, p, ts, l2.0 as int, d, (k - 1) as nat);
        }
    }
}

/// Transducers that play a winning profile win.
proof fn lemma_profile_transducers_win(g: ConstructedGame<MKBSC>, p: Seq<Strat>, ts: Seq<Transducer>)
    requires
        g.wf(),
        profile_wins(g.game, g.loc_map_reverse@, p),
        ts.len() == p.len(),
        forall|i: int| 0 <= i < p.len() ==> plays(g.game, i, (#[trigger] p[i]).choice@, g.obs_map_reverse@[i]@, ts[i]),
    ensures
        wins(g.game, ts),
{
    let k = choose|k: nat| wins_under(g.game, strat_sel(p, g.loc_map_reverse@), 0, k);
    let c = initial_config(ts);
    assert(canon_mem(g.game, c, 0, p.len()));
    lemma_plays_wins(g, p, ts, 0, c, k);
}

/// The profile as transducers of the expanded game.
pub fn profile_transducers(g: &ConstructedGame<MKBSC>, profile: &Vec<Strat>) -> (r: Option<Vec<Transducer>>)
    requires
        g.wf(),
    ensures
        r is Some <==> profile@.len() == g.game.n_agents(),
        match r {
            Some(t) => {
                &&& profile_ok(g.game, t@)
                &&& forall|i: int| 0 <= i < t@.len() ==>
                    plays(g.game, i, (#[trigger] profile@[i]).choice@, g.obs_map_reverse@[i]@, t@[i])
            },
            None => true,
        },
{
    let gk = &g.game;
    let na = gk.n_actions.len();
    proof {
        lemma_obs_knows(*g, 0, 0);
    }
    if profile.len() != na || g.obs_map_reverse.len() != na {
        return None;
    }
    let mut r: Vec<Transducer> = Vec::new();
    let mut i: usize = 0;
    while i < na
        invariant
            gk.wf(),
            na == gk.n_agents(),
            profile@.len() == na,
            g.obs_map_reverse@.len() == na,
            i <= na,
            r@.len() == i,
            forall|k: int| 0 <= k < i ==> (#[trigger] r@[k]).wf(),
            forall|k: int| 0 <= k < i ==>
                plays(*gk, k, (#[trigger] profile@[k]).choice@, g.obs_map_reverse@[k]@, r@[k]),
        decreases na - i,
    {
        r.push(transducer_of(gk, i, &profile[i].choice, &g.obs_map_reverse[i]));
        i = i + 1;
    }
    Some(r)
}

/// Every profile of `res` wins the expanded game.
pub open spec fn all_win(g: ConstructedGame<MKBSC>, res: SearchResult) -> bool {
    forall|k: int, q: int| 0 <= k < res.rounds@.len() && 0 <= q < res.rounds@[k]@.len() ==>
        profile_wins(g.game, g.loc_map_reverse@, (#[trigger] res.rounds@[k]@[q])@)
}

/// Some profile was found.
pub open spec fn some_found(res: SearchResult) -> bool {
    exists|k: int| 0 <= k < res.rounds@.len() && (#[trigger] res.rounds@[k])@.len() > 0
}

/// The first profile found that, as transducers, passes `verify_strategy`
/// on the expanded game; when every profile found wins, that is the first
/// profile found.
pub fn winning_profile(g: &ConstructedGame<MKBSC>, res: &SearchResult) -> (r: Option<Vec<Transducer>>)
    requires
        g.wf(),
    ensures
        match r {
            Some(t) => wins(g.game, t@),
            None => true,
        },
        all_win(*g, *res) ==> (r is Some <==> some_found(*res)),
{
    let mut k: usize = 0;
    while k < res.rounds.len()
        invariant
            g.wf(),
            k <= res.rounds@.len(),
            all_win(*g, *res) ==> forall|x: int| 0 <= x < k ==> (#[trigger] res.rounds@[x])@.len() == 0,
        decreases res.rounds@.len() - k,
    {
        let mut j: usize = 0;
        while j < res.rounds[k].len()
            invariant
                g.wf(),
                k < res.rounds@.len(),
                all_win(*g, *res) ==> j == 0,
            decreases res.rounds@[k as int]@.len() - j,
        {
            match profile_transducers(g, &res.rounds[k][j]) {
                Some(t) => {
                    proof {
                        if all_win(*g, *res) {
                            assert(profile_wins(g.game, g.loc_map_reverse@, res.rounds@[k as int]@[j as int]@));
                            lemma_profile_transducers_win(*g, res.rounds@[k as int]@[j as int]@, t@);
                        }
                    }
                    if verify_strategy(&g.game, &t) {
                        return Some(t);
                    }
                },
                None => {
                    proof {
                        if all_win(*g, *res) {
                            assert(profile_wins(g.game, g.loc_map_reverse@, res.rounds@[k as int]@[j as int]@));
                        }
                    }
                },
            }
            j = j + 1;
        }
        k = k + 1;
    }
    proof {
        if all_win(*g, *res) && some_found(*res) {
            let x = choose|x: int| 0 <= x < res.rounds@.len() && (#[trigger] res.rounds@[x])@.len() > 0;
            assert(res.rounds@[x]@.len() == 0);
        }
    }
    None
}


/// The choices of a profile.
pub open spec fn profile_view(p: Vec<Strat>) -> Seq<Seq<Option<Act>>> {
    p@.map_values(|s: Strat| s.choice@)
}

fn same_choice(a: &Vec<Option<Act>>, b: &Vec<Option<Act>>) -> (r: bool)
    ensures
        r == (a@ == b@),
{
    if a.len() != b.len() {
        return false;
    }
    let mut i: usize = 0;
    while i < a.len()
        invariant
            a@.len() == b@.len(),
            i <= a@.len(),
            forall|k: int| 0 <= k < i ==> a@[k] == b@[k],
        decreases a@.len() - i,
    {
        let same = match (a[i], b[i]) {
            (Some(x), Some(y)) => x.0 == y.0,
            (None, None) => true,
            _ => false,
        };
        if !same {
            return false;
        }
        i = i + 1;
    }
    proof {
        assert(a@ =~= b@);
    }
    true
}

/// Whether two profiles make the same choices.
pub fn same_profile(a: &Vec<Strat>, b: &Vec<Strat>) -> (r: bool)
    ensures
        r == (profile_view(*a) == profile_view(*b)),
{
    if a.len() != b.len() {
        proof {
            assert(profile_view(*a).len() != profile_view(*b).len());
        }
        return false;
    }
    let mut i: usize = 0;
    while i < a.len()
        invariant
            a@.len() == b@.len(),
            i <= a@.len(),
            forall|k: int| 0 <= k < i ==> (#[trigger] a@[k]).choice@ == b@[k].choice@,
        decreases a@.len() - i,
    {
        if !same_choice(&a[i].choice, &b[i].choice) {
            proof {
                assert(profile_view(*a)[i as int] != profile_view(*b)[i as int]);
            }
            return false;
        }
        i = i + 1;
    }
    proof {
        assert(profile_view(*a) =~= profile_view(*b));
    }
    true
}

/// A profile found earlier than position `j` of round `k`.
pub open spec fn found_before(rounds: Seq<Vec<Vec<Strat>>>, k: int, j: int, p: Seq<Seq<Option<Act>>>) -> bool {
    exists|k2: int, j2: int| #![trigger rounds[k2]@[j2]]
        0 <= k2 <= k && 0 <= j2 < rounds[k2]@.len() && (k2 < k || j2 < j)
        && profile_view(rounds[k2]@[j2]) == p
}

/// For each profile found, whether it was found for the first time.
pub fn first_occurrences(res: &SearchResult) -> (r: Vec<Vec<bool>>)
    ensures
        r@.len() == res.rounds@.len(),
        forall|k: int| 0 <= k < r@.len() ==> (#[trigger] r@[k])@.len() == res.rounds@[k]@.len(),
        forall|k: int, j: int| 0 <= k < r@.len() && 0 <= j < r@[k]@.len() ==>
            (#[trigger] r@[k]@[j] <==> !found_before(res.rounds@, k, j, profile_view(res.rounds@[k]@[j]))),
{
    let rounds = &res.rounds;
    let mut r: Vec<Vec<bool>> = Vec::new();
    let mut k: usize = 0;
    while k < rounds.len()
        invariant
            k <= rounds@.len(),
            r@.len() == k,
            forall|q: int| 0 <= q < k ==> (#[trigger] r@[q])@.len() == rounds@[q]@.len(),
            forall|q: int, j: int| 0 <= q < k && 0 <= j < r@[q]@.len() ==>
                (#[trigger] r@[q]@[j] <==> !found_before(rounds@, q, j, profile_view(rounds@[q]@[j]))),
        decreases rounds@.len() - k,
    {
        let mut row: Vec<bool> = Vec::new();
        let mut j: usize = 0;
        while j < rounds[k].len()
            invariant
                k < rounds@.len(),
                j <= rounds@[k as int]@.len(),
                row@.len() == j,
                forall|x: int| 0 <= x < j ==>
                    (#[trigger] row@[x] <==> !found_before(rounds@, k as int, x, profile_view(rounds@[k as int]@[x]))),
            decreases rounds@[k as int]@.len() - j,
        {
            let p = &rounds[k][j];
            let ghost pv = profile_view(*p);
            let mut seen = false;
            let mut k2: usize = 0;
            let nr = rounds.len();
            while k2 <= k && !seen
                invariant
                    nr == rounds@.len(),
                    k < rounds@.len(),
                    j < rounds@[k as int]@.len(),
                    *p == rounds@[k as int]@[j as int],
                    pv == profile_view(*p),
                    k2 <= k + 1,
                    seen ==> found_before(rounds@, k as int, j as int, pv),
                    !seen ==> forall|a: int, b: int| 0 <= a < k2 && 0 <= b < rounds@[a]@.len() && (a < k || b < j)
                        ==> profile_view(#[trigger] rounds@[a]@[b]) != pv,
                decreases k + 1 - k2, if seen { 0int } else { 1int },
            {
                let limit = if k2 < k { rounds[k2].len() } else { j };
                let mut j2: usize = 0;
                while j2 < limit && !seen
                    invariant
                        k < rounds@.len(),
                        j < rounds@[k as int]@.len(),
                        k2 <= k,
                        limit == (if k2 < k { rounds@[k2 as int]@.len() } else { j as nat }),
                        limit <= rounds@[k2 as int]@.len(),
                        *p == rounds@[k as int]@[j as int],
                        pv == profile_view(*p),
                        j2 <= limit,
                        seen ==> found_before(rounds@, k as int, j as int, pv),
                        !seen ==> forall|a: int, b: int| 0 <= a < k2 && 0 <= b < rounds@[a]@.len() && (a < k || b < j)
                            ==> profile_view(#[trigger] rounds@[a]@[b]) != pv,
                        !seen ==> forall|b: int| 0 <= b < j2 ==> profile_view(#[trigger] rounds@[k2 as int]@[b]) != pv,
                    decreases limit - j2,
                {
                    if same_profile(&rounds[k2][j2], p) {
                        seen = true;
                        proof {
                            assert(profile_view(rounds@[k2 as int]@[j2 as int]) == pv);
                        }
                    }
                    j2 = j2 + 1;
                }
                if !seen {
                    proof {
                        assert forall|a: int, b: int| 0 <= a < k2 + 1 && 0 <= b < rounds@[a]@.len() && (a < k || b < j)
                            implies profile_view(#[trigger] rounds@[a]@[b]) != pv by {
                            if a == k2 {
                                assert(b < limit);
                            }
                        }
                    }
                }
                k2 = k2 + 1;
            }
            proof {
                if !seen {
                    assert(!found_before(rounds@, k as int, j as int, pv));
                }
            }
            row.push(!seen);
            j = j + 1;
        }
        r.push(row);
        k = k + 1;
    }
    r
}


/// The action `choice` chose at knowledge location `s`, the first action
/// where it chose none.
pub open spec fn chosen_or_first(choice: Seq<Option<Act>>, s: int) -> Act {
    if 0 <= s < choice.len() {
        match choice[s] {
            Some(a) => a,
            None => Act(0),
        }
    } else {
        Act(0)
    }
}

/// Agent `i` observes `o` in `m.g` at the least location of its knowledge
/// at knowledge location `s2`.
pub open spec fn knowledge_obs(m: MKBSC, i: int, s2: int, o: u32) -> bool {
    exists|p: nat| #[trigger] m.knowledge(i, Loc(s2 as u32)).contains(p)
        && (forall|q: nat| #[trigger] m.knowledge(i, Loc(s2 as u32)).contains(q) ==> p <= q)
        && (p as int) < m.proj@[i]@.len()
        && (m.proj@[i]@[p as int].0 as int) < m.g.nloc()
        && m.g.loc@[m.proj@[i]@[p as int].0 as int].obs@[i].0 == o
}

/// The observation of the least location of a knowledge is unique.
proof fn lemma_knowledge_obs_unique(m: MKBSC, i: int, s2: int, o1: u32, o2: u32)
    requires
        knowledge_obs(m, i, s2, o1),
        knowledge_obs(m, i, s2, o2),
    ensures
        o1 == o2,
{
    let p1 = choose|p: nat| #[trigger] m.knowledge(i, Loc(s2 as u32)).contains(p)
        && (forall|q: nat| #[trigger] m.knowledge(i, Loc(s2 as u32)).contains(q) ==> p <= q)
        && (p as int) < m.proj@[i]@.len()
        && (m.proj@[i]@[p as int].0 as int) < m.g.nloc()
        && m.g.loc@[m.proj@[i]@[p as int].0 as int].obs@[i].0 == o1;
    let p2 = choose|p: nat| #[trigger] m.knowledge(i, Loc(s2 as u32)).contains(p)
        && (forall|q: nat| #[trigger] m.knowledge(i, Loc(s2 as u32)).contains(q) ==> p <= q)
        && (p as int) < m.proj@[i]@.len()
        && (m.proj@[i]@[p as int].0 as int) < m.g.nloc()
        && m.g.loc@[m.proj@[i]@[p as int].0 as int].obs@[i].0 == o2;
    assert(p1 <= p2 && p2 <= p1);
}

/// The transducer `t` plays for agent `i` on `m.g` what `choice` chose at
/// its state, a location of the agent's knowledge game; a transition from
/// state `s` on observation `o` leads to a knowledge location `s2` that the
/// action of `s` reaches and at whose least location the agent observes
/// `o`; and every such `s2` and `o` have a transition.
pub open spec fn plays_knowledge(m: MKBSC, i: int, choice: Seq<Option<Act>>, t: Transducer) -> bool {
    let kg = m.gki@[i].game;
    &&& t.wf()
    &&& t.actions@.len() == kg.nloc()
    &&& forall|s: int| 0 <= s < kg.nloc() ==> #[trigger] t.actions@[s] == chosen_or_first(choice, s)
    &&& forall|o: u32, s: u32| #[trigger] t.transitions@.contains_key((o, s)) ==> {
        &&& (s as int) < kg.nloc()
        &&& kg.post_spec(s as int, seq![t.actions@[s as int]]).contains(Loc(t.transitions@[(o, s)]))
        &&& knowledge_obs(m, i, t.transitions@[(o, s)] as int, o)
    }
    &&& forall|s: int, s2: Loc, o: u32|
        #![trigger kg.post_spec(s, seq![t.actions@[s]]).contains(s2), knowledge_obs(m, i, s2.0 as int, o)]
        0 <= s < kg.nloc() && kg.post_spec(s, seq![t.actions@[s]]).contains(s2)
            && knowledge_obs(m, i, s2.0 as int, o) ==> t.transitions@.contains_key((o, s as u32))
}

/// Agent `i`'s strategy, chosen in its knowledge game, played on the game
/// `m.g` that the knowledge game was made of: its state is its knowledge
/// (a location of the knowledge game), it plays what `choice` chose there,
/// and on observing `o` it moves to the knowledge reached with that action
/// whose locations show `o`.
fn knowledge_transducer(m: &MKBSC, i: usize, choice: &Vec<Option<Act>>) -> (r: Transducer)
    requires
        m.wf(),
        i < m.gki@.len(),
    ensures
        plays_knowledge(*m, i as int, choice@, r),
{
    let k = &m.gki[i];
    let kg = &k.game;
    let base = &m.g;
    proof {
        assert(k.wf());
        assert(kg.wf());
    }
    let n = kg.n_loc();
    let mut actions: Vec<Act> = Vec::new();
    let mut s: usize = 0;
    while s < n
        invariant
            s <= n,
            actions@.len() == s,
            forall|x: int| 0 <= x < s ==> #[trigger] actions@[x] == chosen_or_first(choice@, x),
        decreases n - s,
    {
        let a = if s < choice.len() {
            match choice[s] {
                Some(a) => a,
                None => Act(0),
            }
        } else {
            Act(0)
        };
        actions.push(a);
        proof {
            assert(actions@[s as int] == chosen_or_first(choice@, s as int));
        }
        s = s + 1;
    }
    let mut transitions: BTreeMap<(u32, u32), u32> = BTreeMap::new();
    let mut s: usize = 0;
    while s < n
        invariant
            m.wf(),
            i < m.gki@.len(),
            k == &m.gki@[i as int],
            kg == &k.game,
            base == &m.g,
            n == kg.nloc(),
            kg.wf(),
            k.wf(),
            s <= n,
            actions@.len() == n,
            forall|q: (u32, u32)| #[trigger] transitions@.contains_key(q) ==> (transitions@[q] as int) < actions@.len(),
            forall|o: u32, x: u32| #[trigger] transitions@.contains_key((o, x)) ==> {
                &&& (x as int) < s
                &&& kg.post_spec(x as int, seq![actions@[x as int]]).contains(Loc(transitions@[(o, x)]))
                &&& knowledge_obs(*m, i as int, transitions@[(o, x)] as int, o)
            },
            forall|x: int, s2: Loc, o: u32|
                #![trigger kg.post_spec(x, seq![actions@[x]]).contains(s2), knowledge_obs(*m, i as int, s2.0 as int, o)]
                0 <= x < s && kg.post_spec(x, seq![actions@[x]]).contains(s2)
                    && knowledge_obs(*m, i as int, s2.0 as int, o) ==> transitions@.contains_key((o, x as u32)),
        decreases n - s,
    {
        let mut a: Vec<Act> = Vec::new();
        a.push(actions[s]);
        proof {
            assert(a@ =~= seq![actions@[s as int]]);
        }
        let post = kg.post(Loc(s as u32), &a);
        let mut j: usize = 0;
        while j < post.len()
            invariant
                m.wf(),
                i < m.gki@.len(),
                k == &m.gki@[i as int],
                kg == &k.game,
                base == &m.g,
                n == kg.nloc(),
                kg.wf(),
                k.wf(),
                s < n,
                actions@.len() == n,
                a@ == seq![actions@[s as int]],
                post@ == kg.post_spec(s as int, a@),
                j <= post@.len(),
                forall|q: (u32, u32)| #[trigger] transitions@.contains_key(q) ==> (transitions@[q] as int) < actions@.len(),
                forall|o: u32, x: u32| #[trigger] transitions@.contains_key((o, x)) ==> {
                    &&& (x as int) <= s
                    &&& kg.post_spec(x as int, seq![actions@[x as int]]).contains(Loc(transitions@[(o, x)]))
                    &&& knowledge_obs(*m, i as int, transitions@[(o, x)] as int, o)
                },
                forall|x: int, s2: Loc, o: u32|
                    #![trigger kg.post_spec(x, seq![actions@[x]]).contains(s2), knowledge_obs(*m, i as int, s2.0 as int, o)]
                    0 <= x < s && kg.post_spec(x, seq![actions@[x]]).contains(s2)
                        && knowledge_obs(*m, i as int, s2.0 as int, o) ==> transitions@.contains_key((o, x as u32)),
                forall|q: int, o: u32| 0 <= q < j && #[trigger] knowledge_obs(*m, i as int, post@[q].0 as int, o) ==>
                    transitions@.contains_key((o, s as u32)),
            decreases post@.len() - j,
        {
            proof {
                lemma_post_target(*kg, s as int, a@, j as int);
            }
            let s2 = post[j];
            let set = &k.loc_map_reverse[s2.index()];
            proof {
                assert(k.origins().len() == kg.nloc());
                assert(k.origins()[s2.0 as int] == set@);
                assert(k.source().loc_ok(k.origins()[s2.0 as int]));
                assert(k.source().inv());
                assert(k.source().g.wf());
                assert(set@.1 == k.source().g.nloc());
                assert(set.cap() == set@.1);
                assert forall|x: nat| set.bits().contains(x) implies x < set.cap() by {
                    assert(set@.0.contains(x));
                }
                assert(set.wf());
                assert(m.knowledge(i as int, s2) == set.bits());
                assert(post@.contains(s2));
            }
            match set.first() {
                Some(p) => {
                    if p.index() < m.proj[i].len() {
                        let bl = m.proj[i][p.index()];
                        if bl.index() < base.n_loc() {
                            proof {
                                assert(base.loc@[bl.0 as int].obs@.len() == base.n_agents());
                            }
                            let o = base.loc[bl.index()].obs[i];
                            proof {
                                let kn = m.knowledge(i as int, Loc(s2.0 as u32));
                                assert(Loc(s2.0 as u32) == s2);
                                assert(kn == set.bits());
                                assert(kn.contains(p.0 as nat));
                                assert(forall|q: nat| #[trigger] kn.contains(q) ==> p.0 as nat <= q);
                                assert(m.proj@[i as int]@[p.0 as int] == bl);
                                assert(knowledge_obs(*m, i as int, s2.0 as int, o.0));
                            }
                            set_transition(&mut transitions, (o.0, s as u32), s2.0);
                            proof {
                                assert forall|q: int, o2: u32| 0 <= q < j + 1 && #[trigger] knowledge_obs(*m, i as int, post@[q].0 as int, o2) implies
                                    transitions@.contains_key((o2, s as u32)) by {
                                    if q == j {
                                        lemma_knowledge_obs_unique(*m, i as int, s2.0 as int, o.0, o2);
                                    }
                                }
                            }
                        } else {
                            proof {
                                assert forall|q: int, o2: u32| 0 <= q < j + 1 && #[trigger] knowledge_obs(*m, i as int, post@[q].0 as int, o2) implies
                                    transitions@.contains_key((o2, s as u32)) by {
                                    if q == j {
                                        let p2 = choose|p2: nat| #[trigger] m.knowledge(i as int, Loc(s2.0 as u32)).contains(p2)
                                            && (forall|q2: nat| #[trigger] m.knowledge(i as int, Loc(s2.0 as u32)).contains(q2) ==> p2 <= q2)
                                            && (p2 as int) < m.proj@[i as int]@.len()
                                            && (m.proj@[i as int]@[p2 as int].0 as int) < m.g.nloc()
                                            && m.g.loc@[m.proj@[i as int]@[p2 as int].0 as int].obs@[i as int].0 == o2;
                                        assert(p2 == p.0 as nat);
                                    }
                                }
                            }
                        }
                    } else {
                        proof {
                            assert forall|q: int, o2: u32| 0 <= q < j + 1 && #[trigger] knowledge_obs(*m, i as int, post@[q].0 as int, o2) implies
                                transitions@.contains_key((o2, s as u32)) by {
                                if q == j {
                                    let p2 = choose|p2: nat| #[trigger] m.knowledge(i as int, Loc(s2.0 as u32)).contains(p2)
                                        && (forall|q2: nat| #[trigger] m.knowledge(i as int, Loc(s2.0 as u32)).contains(q2) ==> p2 <= q2)
                                        && (p2 as int) < m.proj@[i as int]@.len()
                                        && (m.proj@[i as int]@[p2 as int].0 as int) < m.g.nloc()
                                        && m.g.loc@[m.proj@[i as int]@[p2 as int].0 as int].obs@[i as int].0 == o2;
                                    assert(p2 == p.0 as nat);
                                }
                            }
                        }
                    }
                },
                None => {},
            }
            j = j + 1;
        }
        proof {
            assert forall|x: int, s2: Loc, o: u32|
                0 <= x < s + 1 && kg.post_spec(x, seq![actions@[x]]).contains(s2)
                    && knowledge_obs(*m, i as int, s2.0 as int, o) implies transitions@.contains_key((o, x as u32)) by {
                if x == s {
                    let q = choose|q: int| 0 <= q < post@.len() && post@[q] == s2;
                    assert(knowledge_obs(*m, i as int, post@[q].0 as int, o));
                }
            }
        }
        s = s + 1;
    }
    Transducer { transitions, actions }
}

/// The observation of agent `i` in the expansion `c` that stands for the
/// location `s2` of the agent's knowledge game, if any.
fn obs_of_knowledge(c: &ConstructedGame<MKBSC>, i: usize, s2: Loc) -> (r: Option<u32>)
    requires
        i < c.obs_map_reverse@.len(),
        c.obs_map_reverse@[i as int]@.len() <= u32::MAX,
    ensures
        match r {
            Some(o) => (o as int) < c.obs_map_reverse@[i as int]@.len() && c.obs_map_reverse@[i as int]@[o as int] == s2,
            None => !c.obs_map_reverse@[i as int]@.contains(s2),
        },
{
    let v = &c.obs_map_reverse[i];
    let mut x: usize = 0;
    while x < v.len()
        invariant
            i < c.obs_map_reverse@.len(),
            *v == c.obs_map_reverse@[i as int],
            v@.len() <= u32::MAX,
            x <= v@.len(),
            forall|y: int| 0 <= y < x ==> v@[y] != s2,
        decreases v@.len() - x,
    {
        if v[x] == s2 {
            return Some(x as u32);
        }
        x = x + 1;
    }
    proof {
        if v@.contains(s2) {
            let y = choose|y: int| 0 <= y < v@.len() && v@[y] == s2;
            assert(v@[y] == s2);
        }
    }
    None
}

/// Where the knowledge `s2` has no least location, or it falls outside
/// the projection or the game, no `lowered_edge` leads to `s2`.
proof fn lemma_no_lowered(c: ConstructedGame<MKBSC>, i: int, t: Transducer, x: int, s: int, s2: Loc, o: u32, oj: int,
    bits: Set<nat>)
    requires
        lowered_edge(c, i, t, x, s, s2, o, oj),
        c.origin.knowledge(i, s2) == bits,
        Loc(s2.0 as u32) == s2,
    ensures
        exists|p: nat| #[trigger] bits.contains(p) && (forall|q: nat| #[trigger] bits.contains(q) ==> p <= q)
            && (p as int) < c.origin.proj@[i]@.len()
            && (c.origin.proj@[i]@[p as int].0 as int) < c.origin.g.nloc(),
{
}

/// `x2 * n + s2` lies below `x * n` when `x2 < x` and `s2 < n`.
proof fn lemma_index_below(x2: int, s2: int, x: int, n: int)
    requires
        0 <= x2 < x,
        0 <= s2 < n,
    ensures
        x2 * n + s2 < x * n,
{
    assert(x2 * n + s2 < x * n) by (nonlinear_arith)
        requires 0 <= x2 < x, 0 <= s2 < n;
}

/// In state `x` of `t` at knowledge location `s`, agent `i` plays
/// `t.actions[x]`, which may lead to knowledge `s2`, whose least location
/// shows `o`; `s2` is observation `oj` of the agent in the expansion `c`,
/// and `t` moves on `oj` from `x`.
pub open spec fn lowered_edge(c: ConstructedGame<MKBSC>, i: int, t: Transducer, x: int, s: int, s2: Loc, o: u32, oj: int) -> bool {
    let m = c.origin;
    let kg = m.gki@[i].game;
    &&& 0 <= x < t.actions@.len()
    &&& 0 <= s < kg.nloc()
    &&& kg.post_spec(s, seq![t.actions@[x]]).contains(s2)
    &&& knowledge_obs(m, i, s2.0 as int, o)
    &&& 0 <= oj < c.obs_map_reverse@[i]@.len()
    &&& c.obs_map_reverse@[i]@[oj] == s2
    &&& t.next(oj as u32, x as u32) is Some
}

/// `u` plays agent `i`'s transducer `t` of the expansion `c` on the game the
/// expansion was made of: state `x * n + s` (for `n` knowledge locations)
/// plays what `t` plays in `x`, and on observing `o` moves along a
/// `lowered_edge` to the state of `t` after the observation and the
/// knowledge reached; every `lowered_edge` gives a move.
pub open spec fn plays_lowered(c: ConstructedGame<MKBSC>, i: int, t: Transducer, u: Transducer) -> bool {
    let ns = c.origin.gki@[i].game.nloc();
    let nt = t.actions@.len();
    &&& u.wf()
    &&& u.actions@.len() == nt * ns
    &&& forall|x: int, s: int| 0 <= x < nt && 0 <= s < ns ==> #[trigger] u.actions@[x * ns + s] == t.actions@[x]
    &&& forall|o: u32, h: u32| #[trigger] u.transitions@.contains_key((o, h)) ==>
        exists|x: int, s: int, s2: Loc, oj: int| #[trigger] lowered_edge(c, i, t, x, s, s2, o, oj)
            && h == x * ns + s
            && u.transitions@[(o, h)] == t.next(oj as u32, x as u32).unwrap() * ns + s2.0
    &&& forall|x: int, s: int, s2: Loc, o: u32, oj: int| #[trigger] lowered_edge(c, i, t, x, s, s2, o, oj) ==>
        u.transitions@.contains_key((o, (x * ns + s) as u32))
}

/// Agent `i`'s transducer `t` of the expansion `c`, played on the game the
/// expansion was made of: the agent also keeps its location in its
/// knowledge game, which is its observation in the expansion. State
/// `m * n + s` (for `n` knowledge locations) is state `m` of `t` at
/// knowledge location `s`; it plays what `t` plays in `m`, and on observing
/// `o` it moves to the knowledge `s2` that this action reaches with `o` and
/// to the state `t` takes on observing `s2`. `None` when the states do not
/// fit `u32`.
pub fn lower_transducer(c: &ConstructedGame<MKBSC>, i: usize, t: &Transducer) -> (r: Option<Transducer>)
    requires
        c.wf(),
        i < c.origin.gki@.len(),
        t.wf(),
    ensures
        match r {
            Some(u) => plays_lowered(*c, i as int, *t, u),
            None => t.actions@.len() * c.origin.gki@[i as int].game.nloc() > u32::MAX,
        },
{
    let m = &c.origin;
    proof {
        assert(m.wf());
        assert(m.gki@[i as int].wf());
        lemma_obs_knows(*c, 0, 0);
    }
    let k = &m.gki[i];
    let kg = &k.game;
    let base = &m.g;
    proof {
        assert(c.obs_origins()[i as int] == view_seq(c.obs_map_reverse@[i as int]@));
        assert(c.obs_origins()[i as int].len() == c.game.obs@[i as int].len());
        assert(c.game.obs@[i as int].len() <= u32::MAX);
    }
    let ns = kg.n_loc();
    let nt = t.actions.len();
    let total = match nt.checked_mul(ns) {
        Some(x) => x,
        None => return None,
    };
    if total > u32::MAX as usize {
        return None;
    }
    let mut actions: Vec<Act> = Vec::new();
    let mut x: usize = 0;
    while x < nt
        invariant
            x <= nt,
            nt == t.actions@.len(),
            total == nt * ns,
            actions@.len() == x * ns,
            forall|x2: int, s2: int| 0 <= x2 < x && 0 <= s2 < ns ==> #[trigger] actions@[x2 * ns + s2] == t.actions@[x2],
        decreases nt - x,
    {
        let mut s: usize = 0;
        while s < ns
            invariant
                x < nt,
                nt == t.actions@.len(),
                s <= ns,
                actions@.len() == x * ns + s,
                forall|x2: int, s2: int| 0 <= x2 < x && 0 <= s2 < ns ==> #[trigger] actions@[x2 * ns + s2] == t.actions@[x2],
                forall|s2: int| 0 <= s2 < s ==> #[trigger] actions@[x * ns + s2] == t.actions@[x as int],
            decreases ns - s,
        {
            let ghost a0 = actions@;
            actions.push(t.actions[x]);
            proof {
                assert forall|x2: int, s2: int| 0 <= x2 < x && 0 <= s2 < ns implies #[trigger] actions@[x2 * ns + s2] == t.actions@[x2] by {
                    lemma_index_below(x2, s2, x as int, ns as int);
                    assert(actions@[x2 * ns + s2] == a0[x2 * ns + s2]);
                }
                assert forall|s2: int| 0 <= s2 < s + 1 implies #[trigger] actions@[x * ns + s2] == t.actions@[x as int] by {
                    if s2 < s {
                        assert(actions@[x * ns + s2] == a0[x * ns + s2]);
                    }
                }
            }
            s = s + 1;
        }
        proof {
            assert((x + 1) * ns == x * ns + ns) by (nonlinear_arith);
            assert forall|x2: int, s2: int| 0 <= x2 < x + 1 && 0 <= s2 < ns implies #[trigger] actions@[x2 * ns + s2] == t.actions@[x2] by {
                if x2 == x {
                    assert(actions@[x * ns + s2] == t.actions@[x as int]);
                }
            }
        }
        x = x + 1;
    }
    let ghost ci = i as int;
    let mut transitions: BTreeMap<(u32, u32), u32> = BTreeMap::new();
    let mut x: usize = 0;
    while x < nt
        invariant
            m.wf(),
            i < m.gki@.len(),
            c.wf(),
            m == &c.origin,
            ci == i,
            i < c.obs_map_reverse@.len(),
            c.obs_map_reverse@[i as int]@.len() <= u32::MAX,
            k == &m.gki@[i as int],
            kg == &k.game,
            base == &m.g,
            kg.wf(),
            k.wf(),
            ns == kg.nloc(),
            nt == t.actions@.len(),
            t.wf(),
            total == nt * ns,
            total <= u32::MAX,
            actions@.len() == total,
            x <= nt,
            forall|q: (u32, u32)| #[trigger] transitions@.contains_key(q) ==> (transitions@[q] as int) < total,
            forall|o: u32, h: u32| #[trigger] transitions@.contains_key((o, h)) ==>
                exists|x2: int, s: int, s2: Loc, oj: int| #[trigger] lowered_edge(*c, ci, *t, x2, s, s2, o, oj)
                    && h == x2 * ns + s
                    && transitions@[(o, h)] == t.next(oj as u32, x2 as u32).unwrap() * ns + s2.0,
            forall|x2: int, s: int, s2: Loc, o: u32, oj: int| #[trigger] lowered_edge(*c, ci, *t, x2, s, s2, o, oj) && x2 < x ==>
                transitions@.contains_key((o, (x2 * ns + s) as u32)),
        decreases nt - x,
    {
        let mut a: Vec<Act> = Vec::new();
        a.push(t.actions[x]);
        proof {
            assert(a@ =~= seq![t.actions@[x as int]]);
        }
        let mut s: usize = 0;
        while s < ns
            invariant
                m.wf(),
                i < m.gki@.len(),
                c.wf(),
                m == &c.origin,
                ci == i,
                i < c.obs_map_reverse@.len(),
                c.obs_map_reverse@[i as int]@.len() <= u32::MAX,
                k == &m.gki@[i as int],
                kg == &k.game,
                base == &m.g,
                kg.wf(),
                k.wf(),
                ns == kg.nloc(),
                nt == t.actions@.len(),
                t.wf(),
                total == nt * ns,
                total <= u32::MAX,
                x < nt,
                s <= ns,
                a@ == seq![t.actions@[x as int]],
                forall|q: (u32, u32)| #[trigger] transitions@.contains_key(q) ==> (transitions@[q] as int) < total,
                forall|o: u32, h: u32| #[trigger] transitions@.contains_key((o, h)) ==>
                    exists|x2: int, s3: int, s2: Loc, oj: int| #[trigger] lowered_edge(*c, ci, *t, x2, s3, s2, o, oj)
                        && h == x2 * ns + s3
                        && transitions@[(o, h)] == t.next(oj as u32, x2 as u32).unwrap() * ns + s2.0,
                forall|x2: int, s3: int, s2: Loc, o: u32, oj: int| #[trigger] lowered_edge(*c, ci, *t, x2, s3, s2, o, oj)
                    && (x2 < x || (x2 == x && s3 < s)) ==>
                    transitions@.contains_key((o, (x2 * ns + s3) as u32)),
            decreases ns - s,
        {
            proof {
                assert(x * ns + s < total) by (nonlinear_arith)
                    requires x < nt, s < ns, total == nt * ns;
                assert(x <= x * ns + s) by (nonlinear_arith)
                    requires s < ns;
            }
            let here = (x * ns + s) as u32;
            let post = kg.post(Loc(s as u32), &a);
            let mut j: usize = 0;
            while j < post.len()
                invariant
                    m.wf(),
                    i < m.gki@.len(),
                    c.wf(),
                    m == &c.origin,
                    ci == i,
                    i < c.obs_map_reverse@.len(),
                    c.obs_map_reverse@[i as int]@.len() <= u32::MAX,
                    x < nt,
                    (x as int) < total,
                    k == &m.gki@[i as int],
                    kg == &k.game,
                    base == &m.g,
                    kg.wf(),
                    k.wf(),
                    ns == kg.nloc(),
                    nt == t.actions@.len(),
                    t.wf(),
                    total == nt * ns,
                    total <= u32::MAX,
                    s < ns,
                    here == x * ns + s,
                    a@ == seq![t.actions@[x as int]],
                    post@ == kg.post_spec(s as int, a@),
                    j <= post@.len(),
                    forall|q: (u32, u32)| #[trigger] transitions@.contains_key(q) ==> (transitions@[q] as int) < total,
                    forall|o: u32, h: u32| #[trigger] transitions@.contains_key((o, h)) ==>
                        exists|x2: int, s3: int, s2: Loc, oj: int| #[trigger] lowered_edge(*c, ci, *t, x2, s3, s2, o, oj)
                            && h == x2 * ns + s3
                            && transitions@[(o, h)] == t.next(oj as u32, x2 as u32).unwrap() * ns + s2.0,
                    forall|x2: int, s3: int, s2: Loc, o: u32, oj: int| #[trigger] lowered_edge(*c, ci, *t, x2, s3, s2, o, oj)
                        && (x2 < x || (x2 == x && s3 < s)) ==>
                        transitions@.contains_key((o, (x2 * ns + s3) as u32)),
                    forall|s2: Loc, o: u32, oj: int| #[trigger] lowered_edge(*c, ci, *t, x as int, s as int, s2, o, oj)
                        && (exists|q: int| 0 <= q < j && post@[q] == s2) ==> transitions@.contains_key((o, here)),
                decreases post@.len() - j,
            {
                proof {
                    lemma_post_target(*kg, s as int, a@, j as int);
                }
                let s2 = post[j];
                let set = &k.loc_map_reverse[s2.index()];
                proof {
                    assert(k.origins().len() == kg.nloc());
                    assert(k.origins()[s2.0 as int] == set@);
                    assert(k.source().loc_ok(k.origins()[s2.0 as int]));
                    assert(k.source().inv());
                    assert(set@.1 == k.source().g.nloc());
                    assert(set.cap() == set@.1);
                    assert forall|y: nat| set.bits().contains(y) implies y < set.cap() by {
                        assert(set@.0.contains(y));
                    }
                    assert(set.wf());
                    assert(m.knowledge(i as int, s2) == set.bits());
                    assert(Loc(s2.0 as u32) == s2);
                }
                let ghost tr0 = transitions@;
                proof {
                    assert(c.obs_origins()[i as int] == view_seq(c.obs_map_reverse@[i as int]@));
                    assert(c.obs_origins()[i as int].no_duplicates());
                }
                match set.first() {
                    Some(p) => {
                        if p.index() < m.proj[i].len() {
                            let bl = m.proj[i][p.index()];
                            if bl.index() < base.n_loc() {
                                proof {
                                    assert(base.loc@[bl.0 as int].obs@.len() == base.n_agents());
                                }
                                let o = base.loc[bl.index()].obs[i];
                                proof {
                                    let kn = m.knowledge(i as int, Loc(s2.0 as u32));
                                    assert(kn.contains(p.0 as nat));
                                    assert(forall|q: nat| #[trigger] kn.contains(q) ==> p.0 as nat <= q);
                                    assert(m.proj@[i as int]@[p.0 as int] == bl);
                                    assert(knowledge_obs(*m, i as int, s2.0 as int, o.0));
                                }
                                match obs_of_knowledge(c, i, s2) {
                                    Some(oj) => {
                                        match t.update(Obs(oj), &TransducerState(x as u32)) {
                                            Some(m2) => {
                                                proof {
                                                    assert(t.transitions@.contains_key((oj, x as u32)));
                                                    assert((m2.0 as int) < nt);
                                                    assert(m2.0 * ns + s2.0 < total) by (nonlinear_arith)
                                                        requires m2.0 < nt, s2.0 < ns, total == nt * ns;
                                                    assert(post@.contains(s2)) by { assert(post@[j as int] == s2); }
                                                    assert(lowered_edge(*c, ci, *t, x as int, s as int, s2, o.0, oj as int));
                                                }
                                                set_transition(&mut transitions, (o.0, here), m2.0 * (ns as u32) + s2.0);
                                                proof {
                                                    assert forall|o2: u32, h: u32| #[trigger] transitions@.contains_key((o2, h)) implies
                                                        exists|x2: int, s3: int, s4: Loc, oj3: int| #[trigger] lowered_edge(*c, ci, *t, x2, s3, s4, o2, oj3)
                                                            && h == x2 * ns + s3
                                                            && transitions@[(o2, h)] == t.next(oj3 as u32, x2 as u32).unwrap() * ns + s4.0 by {
                                                        if (o2, h) == (o.0, here) {
                                                            assert(lowered_edge(*c, ci, *t, x as int, s as int, s2, o.0, oj as int));
                                                        } else {
                                                            assert(tr0.contains_key((o2, h)));
                                                        }
                                                    }
                                                    assert forall|o2: u32, oj2: int| lowered_edge(*c, ci, *t, x as int, s as int, s2, o2, oj2)
                                                        implies transitions@.contains_key((o2, here)) by {
                                                        lemma_knowledge_obs_unique(*m, i as int, s2.0 as int, o.0, o2);
                                                    }
                                                }
                                            },
                                            None => {
                                                proof {
                                                    assert forall|o2: u32, oj2: int| lowered_edge(*c, ci, *t, x as int, s as int, s2, o2, oj2)
                                                        implies transitions@.contains_key((o2, here)) by {
                                                        let vs = view_seq(c.obs_map_reverse@[i as int]@);
                                                        assert(vs[oj2] == vs[oj as int]);
                                                    }
                                                }
                                            },
                                        }
                                    },
                                    None => {
                                        proof {
                                            assert forall|o2: u32, oj2: int| lowered_edge(*c, ci, *t, x as int, s as int, s2, o2, oj2)
                                                implies transitions@.contains_key((o2, here)) by {
                                                assert(c.obs_map_reverse@[i as int]@[oj2] == s2);
                                            }
                                        }
                                    },
                                }
                            } else {
                                proof {
                    assert forall|o2: u32, oj2: int| lowered_edge(*c, ci, *t, x as int, s as int, s2, o2, oj2)
                        implies transitions@.contains_key((o2, here)) by {
                        lemma_no_lowered(*c, ci, *t, x as int, s as int, s2, o2, oj2, set.bits());
                    }
                }
                            }
                        } else {
                            proof {
                    assert forall|o2: u32, oj2: int| lowered_edge(*c, ci, *t, x as int, s as int, s2, o2, oj2)
                        implies transitions@.contains_key((o2, here)) by {
                        lemma_no_lowered(*c, ci, *t, x as int, s as int, s2, o2, oj2, set.bits());
                    }
                }
                        }
                    },
                    None => {
                        proof {
                    assert forall|o2: u32, oj2: int| lowered_edge(*c, ci, *t, x as int, s as int, s2, o2, oj2)
                        implies transitions@.contains_key((o2, here)) by {
                        lemma_no_lowered(*c, ci, *t, x as int, s as int, s2, o2, oj2, set.bits());
                    }
                }
                    },
                }
                proof {
                    assert forall|s4: Loc, o2: u32, oj2: int| #[trigger] lowered_edge(*c, ci, *t, x as int, s as int, s4, o2, oj2)
                        && (exists|q: int| 0 <= q < j + 1 && post@[q] == s4) implies transitions@.contains_key((o2, here)) by {
                        let q = choose|q: int| 0 <= q < j + 1 && post@[q] == s4;
                        if q < j {
                            assert(tr0.contains_key((o2, here)));
                        }
                    }
                }
                j = j + 1;
            }
            proof {
                assert forall|x2: int, s3: int, s4: Loc, o: u32, oj: int| #[trigger] lowered_edge(*c, ci, *t, x2, s3, s4, o, oj)
                    && (x2 < x || (x2 == x && s3 < s + 1)) implies
                    transitions@.contains_key((o, (x2 * ns + s3) as u32)) by {
                    if x2 == x && s3 == s {
                        let q = choose|q: int| 0 <= q < post@.len() && post@[q] == s4;
                        assert(exists|q: int| 0 <= q < j && post@[q] == s4);
                    }
                }
            }
            s = s + 1;
        }
        proof {
            assert forall|x2: int, s3: int, s4: Loc, o: u32, oj: int| #[trigger] lowered_edge(*c, ci, *t, x2, s3, s4, o, oj)
                && x2 < x + 1 implies transitions@.contains_key((o, (x2 * ns + s3) as u32)) by {
            }
        }
        x = x + 1;
    }
    proof {
        assert(total > 0) by (nonlinear_arith)
            requires nt > 0, ns > 0, total == nt * ns;
    }
    Some(Transducer { transitions, actions })
}

/// Every transducer of `ts`, one per agent of the expansion `c`, played on
/// the game the expansion was made of (`lower_transducer`).
pub fn lower_all(c: &ConstructedGame<MKBSC>, ts: &Vec<Transducer>) -> (r: Option<Vec<Transducer>>)
    requires
        c.wf(),
        ts@.len() == c.origin.gki@.len(),
        forall|i: int| 0 <= i < ts@.len() ==> (#[trigger] ts@[i]).wf(),
    ensures
        match r {
            Some(u) => u@.len() == ts@.len() && forall|i: int| 0 <= i < u@.len() ==> plays_lowered(*c, i, ts@[i], #[trigger] u@[i]),
            None => exists|i: int| 0 <= i < ts@.len()
                && (#[trigger] ts@[i]).actions@.len() * c.origin.gki@[i].game.nloc() > u32::MAX,
        },
{
    let mut r: Vec<Transducer> = Vec::new();
    let mut i: usize = 0;
    while i < ts.len()
        invariant
            c.wf(),
            ts@.len() == c.origin.gki@.len(),
            forall|q: int| 0 <= q < ts@.len() ==> (#[trigger] ts@[q]).wf(),
            i <= ts@.len(),
            r@.len() == i,
            forall|q: int| 0 <= q < i ==> plays_lowered(*c, q, ts@[q], #[trigger] r@[q]),
        decreases ts@.len() - i,
    {
        match lower_transducer(c, i, &ts[i]) {
            Some(u) => {
                let ghost r0 = r@;
                r.push(u);
                proof {
                    assert forall|q: int| 0 <= q < i + 1 implies plays_lowered(*c, q, ts@[q], #[trigger] r@[q]) by {
                        if q < i {
                            assert(r@[q] == r0[q]);
                        }
                    }
                }
            },
            None => return None,
        }
        i = i + 1;
    }
    Some(r)
}

/// The profile as transducers of the game the expansion `g` was made of,
/// each agent remembering its knowledge.
pub fn knowledge_transducers(g: &ConstructedGame<MKBSC>, profile: &Vec<Strat>) -> (r: Option<Vec<Transducer>>)
    requires
        g.wf(),
    ensures
        r is Some <==> profile@.len() == g.origin.gki@.len(),
        match r {
            Some(t) => {
                &&& profile_ok(g.origin.g, t@)
                &&& forall|i: int| 0 <= i < t@.len() ==>
                    plays_knowledge(g.origin, i, (#[trigger] profile@[i]).choice@, t@[i])
            },
            None => true,
        },
{
    let m = &g.origin;
    proof {
        assert(m.wf());
    }
    let na = m.gki.len();
    if profile.len() != na {
        return None;
    }
    let mut r: Vec<Transducer> = Vec::new();
    let mut i: usize = 0;
    while i < na
        invariant
            m.wf(),
            m == &g.origin,
            na == m.gki@.len(),
            profile@.len() == na,
            i <= na,
            r@.len() == i,
            forall|k: int| 0 <= k < i ==> (#[trigger] r@[k]).wf(),
            forall|k: int| 0 <= k < i ==> plays_knowledge(*m, k, (#[trigger] profile@[k]).choice@, r@[k]),
        decreases na - i,
    {
        r.push(knowledge_transducer(m, i, &profile[i].choice));
        i = i + 1;
    }
    Some(r)
}


} // verus!
