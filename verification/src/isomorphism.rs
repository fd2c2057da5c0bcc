//! Isomorphism of games: a search for a one-to-one correspondence of the
//! locations that keeps the initial location, goals, transitions and,
//! optionally, observations.

use vstd::prelude::*;
use crate::types::{Loc, Obs, Act, agt};
use crate::game::{Game, Profile, edge_view, profile_eq};
use crate::sparse::{vm_map, bs_set, vm_new, vm_len, vm_contains, vm_get, vm_insert, vm_remove,
    bs_new, bs_reserve_len, bs_clear, bs_contains, bs_insert};
use vec_map::VecMap;
use bit_set::BitSet;

verus! {

/// `f` maps `0..n` one to one into itself.
pub open spec fn is_perm(f: Seq<Loc>, n: nat) -> bool {
    &&& f.len() == n
    &&& forall|l: int| 0 <= l < n ==> (#[trigger] f[l]).0 < n
    &&& forall|l: int, k: int| 0 <= l < n && 0 <= k < n && l != k ==> #[trigger] f[l] != #[trigger] f[k]
}

/// `f` maps the locations of `g0` one to one onto those of `g1`, the
/// initial location to the initial location, and keeps goals and
/// transitions, and, when `check_obs`, which locations each agent can
/// tell apart.
pub open spec fn is_iso_map(g0: Game, g1: Game, f: Seq<Loc>, check_obs: bool) -> bool {
    let n = g0.nloc();
    &&& g1.nloc() == n
    &&& is_perm(f, n)
    &&& n > 0 ==> f[0] == Loc(0)
    &&& forall|l: int| 0 <= l < n ==> g0.loc@[l].is_winning == g1.loc@[(#[trigger] f[l]).0 as int].is_winning
    &&& forall|l: int, a: Seq<Act>, k: int| 0 <= l < n && 0 <= k < n ==>
        (#[trigger] g0.has_edge(l, a, Loc(k as u32)) <==> g1.has_edge(f[l].0 as int, a, f[k]))
    &&& check_obs ==> {
        &&& g1.n_agents() == g0.n_agents()
        &&& forall|t: int, l: int, k: int| 0 <= t < g0.n_agents() && 0 <= l < n && 0 <= k < n ==>
            (#[trigger] g0.obs_of(l, t) == #[trigger] g0.obs_of(k, t)
                <==> g1.obs_of(f[l].0 as int, t) == g1.obs_of(f[k].0 as int, t))
    }
}

/// The games are isomorphic.
pub open spec fn isomorphic(g0: Game, g1: Game, check_obs: bool) -> bool {
    exists|f: Seq<Loc>| #[trigger] is_iso_map(g0, g1, f, check_obs)
}

/// Whether `list` holds the transition `(a, l)`.
fn has_transition(list: &Vec<(Profile, Loc)>, a: &Profile, l: Loc) -> (r: bool)
    ensures r == list@.map_values(|e: (Profile, Loc)| edge_view(e)).contains((a@, l)),
{
    let ghost v = list@.map_values(|e: (Profile, Loc)| edge_view(e));
    let mut k: usize = 0;
    while k < list.len()
        invariant
            v == list@.map_values(|e: (Profile, Loc)| edge_view(e)),
            k <= list@.len(),
            forall|q: int| 0 <= q < k ==> v[q] != (a@, l),
        decreases list@.len() - k,
    {
        if list[k].1 == l && profile_eq(&list[k].0, a) {
            proof {
                assert(v[k as int] == (a@, l));
            }
            return true;
        }
        k = k + 1;
    }
    proof {
        if v.contains((a@, l)) {
            let q = choose|q: int| 0 <= q < v.len() && v[q] == (a@, l);
        }
    }
    false
}


/// The inverse of `f` if `f` is a one-to-one map of `0..n` into itself.
fn invert(f: &Vec<Loc>, n: usize) -> (r: Option<Vec<Loc>>)
    requires n <= u32::MAX,
    ensures
        match r {
            Some(inv) => {
                &&& f@.len() == n
                &&& inv@.len() == n
                &&& forall|l: int| 0 <= l < n ==> (#[trigger] f@[l]).0 < n && inv@[f@[l].0 as int] == Loc(l as u32)
                &&& forall|l: int, k: int| 0 <= l < n && 0 <= k < n && l != k ==> #[trigger] f@[l] != #[trigger] f@[k]
                &&& forall|x: int| 0 <= x < n ==> (#[trigger] inv@[x]).0 < n && f@[inv@[x].0 as int] == Loc(x as u32)
            },
            None => !is_perm(f@, n as nat),
        },
{
    if f.len() != n {
        return None;
    }
    let mut inv: Vec<Loc> = Vec::new();
    let mut seen: Vec<bool> = Vec::new();
    let mut i: usize = 0;
    while i < n
        invariant
            i <= n,
            inv@.len() == i,
            seen@.len() == i,
            forall|x: int| 0 <= x < i ==> !(#[trigger] seen@[x]),
        decreases n - i,
    {
        inv.push(Loc(0));
        seen.push(false);
        i = i + 1;
    }
    let mut l: usize = 0;
    while l < n
        invariant
            n <= u32::MAX,
            f@.len() == n,
            l <= n,
            inv@.len() == n,
            seen@.len() == n,
            forall|k: int| 0 <= k < l ==> (#[trigger] f@[k]).0 < n && seen@[f@[k].0 as int] && inv@[f@[k].0 as int] == Loc(k as u32),
            forall|x: int| 0 <= x < n && #[trigger] seen@[x] ==> (inv@[x].0 as int) < l && f@[inv@[x].0 as int] == Loc(x as u32),
        decreases n - l,
    {
        let x = f[l].index();
        if x >= n || seen[x] {
            proof {
                if x < n {
                    let k = inv@[x as int].0 as int;
                    assert(f@[k] == f@[l as int] && k != l);
                }
            }
            return None;
        }
        seen.set(x, true);
        inv.set(x, Loc(l as u32));
        l = l + 1;
    }
    let mut x: usize = 0;
    while x < n
        invariant
            x <= n,
            n <= u32::MAX,
            f@.len() == n,
            seen@.len() == n,
            forall|k: int| 0 <= k < n ==> (#[trigger] f@[k]).0 < n && seen@[f@[k].0 as int],
            forall|y: int| 0 <= y < x ==> #[trigger] seen@[y],
        decreases n - x,
    {
        if !seen[x] {
            proof {
                if is_perm(f@, n as nat) {
                    let fs = Seq::new(n as nat, |k: int| f@[k].0 as nat);
                    assert forall|i: int, j: int| 0 <= i < fs.len() && 0 <= j < fs.len() && i != j implies fs[i] != fs[j] by {
                        assert(f@[i] != f@[j]);
                    }
                    assert(fs.no_duplicates());
                    fs.unique_seq_to_set();
                    let img = fs.to_set();
                    assert(img.finite()) by {
                        vstd::seq_lib::seq_to_set_is_finite(fs);
                    }
                    assert forall|v: nat| #[trigger] img.insert(x as nat).contains(v) implies v < n by {
                        if v != x as nat {
                            assert(fs.contains(v));
                            let k = choose|k: int| 0 <= k < fs.len() && fs[k] == v;
                            assert(f@[k].0 < n);
                        }
                    }
                    assert(!img.contains(x as nat)) by {
                        if img.contains(x as nat) {
                            assert(fs.contains(x as nat));
                            let k = choose|k: int| 0 <= k < fs.len() && fs[k] == x as nat;
                            assert(seen@[f@[k].0 as int]);
                        }
                    }
                    lemma_bounded_len(img.insert(x as nat), n as nat);
                }
            }
            return None;
        }
        x = x + 1;
    }
    proof {
        assert forall|a: int, b: int| 0 <= a < n && 0 <= b < n && a != b implies #[trigger] f@[a] != #[trigger] f@[b] by {
            if f@[a] == f@[b] {
                assert(inv@[f@[a].0 as int] == Loc(a as u32));
                assert(inv@[f@[b].0 as int] == Loc(b as u32));
            }
        }
        assert forall|y: int| 0 <= y < n implies (#[trigger] inv@[y]).0 < n && f@[inv@[y].0 as int] == Loc(y as u32) by {
            assert(seen@[y]);
        }
    }
    Some(inv)
}

/// The transitions of `l` in `g0`, mapped by `f`, are those of `f[l]` in
/// `g1`.
fn check_edges_at(g0: &Game, g1: &Game, f: &Vec<Loc>, inv: &Vec<Loc>, l: usize) -> (r: bool)
    requires
        g0.wf(),
        g1.wf(),
        g0.nloc() == g1.nloc(),
        f@.len() == g0.nloc(),
        inv@.len() == g0.nloc(),
        l < g0.nloc(),
        forall|x: int| 0 <= x < g0.nloc() ==> (#[trigger] f@[x]).0 < g0.nloc() && inv@[f@[x].0 as int] == Loc(x as u32),
        forall|y: int| 0 <= y < g0.nloc() ==> (#[trigger] inv@[y]).0 < g0.nloc() && f@[inv@[y].0 as int] == Loc(y as u32),
    ensures
        r ==> forall|a: Seq<Act>, k: int| 0 <= k < g0.nloc() ==>
            (#[trigger] g0.has_edge(l as int, a, Loc(k as u32)) <==> g1.has_edge(f@[l as int].0 as int, a, f@[k])),
        !r ==> exists|a: Seq<Act>, k: int| 0 <= k < g0.nloc() &&
            !(#[trigger] g0.has_edge(l as int, a, Loc(k as u32)) <==> g1.has_edge(f@[l as int].0 as int, a, f@[k])),
{
    let n = g0.n_loc();
    let s0 = g0.successors(Loc(l as u32));
    let fl = f[l];
    let s1 = g1.successors(fl);
    let ghost v0 = g0.succ(l as int);
    let ghost v1 = g1.succ(fl.0 as int);
    let mut q: usize = 0;
    while q < s0.len()
        invariant
            g0.wf(),
            g1.wf(),
            n == g0.nloc(),
            g0.nloc() == g1.nloc(),
            f@.len() == n,
            v0 == s0@.map_values(|e: (Profile, Loc)| edge_view(e)),
            v1 == s1@.map_values(|e: (Profile, Loc)| edge_view(e)),
            v0 == g0.succ(l as int),
            v1 == g1.succ(fl.0 as int),
            fl == f@[l as int],
            l < n,
            forall|x: int| 0 <= x < n ==> (#[trigger] f@[x]).0 < n,
            q <= s0@.len(),
            forall|p: int| 0 <= p < q ==> v1.contains(((#[trigger] v0[p]).0, f@[v0[p].1.0 as int])),
        decreases s0@.len() - q,
    {
        proof {
            assert(g0.valid_edge(v0[q as int]));
        }
        let t = s0[q].1.index();
        if !has_transition(s1, &s0[q].0, f[t]) {
            proof {
                let a = v0[q as int].0;
                assert(v0[q as int] == (a, Loc(t as u32)));
                assert(g0.has_edge(l as int, a, Loc(t as u32)));
                assert(!g1.has_edge(f@[l as int].0 as int, a, f@[t as int]));
            }
            return false;
        }
        q = q + 1;
    }
    let mut p: usize = 0;
    while p < s1.len()
        invariant
            g0.wf(),
            g1.wf(),
            n == g0.nloc(),
            g0.nloc() == g1.nloc(),
            inv@.len() == n,
            v0 == s0@.map_values(|e: (Profile, Loc)| edge_view(e)),
            v1 == s1@.map_values(|e: (Profile, Loc)| edge_view(e)),
            v1 == g1.succ(fl.0 as int),
            v0 == g0.succ(l as int),
            fl == f@[l as int],
            l < n,
            f@.len() == n,
            (fl.0 as int) < n,
            forall|y: int| 0 <= y < n ==> (#[trigger] inv@[y]).0 < n && f@[inv@[y].0 as int] == Loc(y as u32),
            p <= s1@.len(),
            forall|o: int| 0 <= o < p ==> v0.contains(((#[trigger] v1[o]).0, inv@[v1[o].1.0 as int])),
        decreases s1@.len() - p,
    {
        proof {
            assert(g1.valid_edge(v1[p as int]));
        }
        let t = s1[p].1.index();
        if !has_transition(s0, &s1[p].0, inv[t]) {
            proof {
                let a = v1[p as int].0;
                let k = inv@[t as int].0 as int;
                assert(Loc(k as u32) == inv@[t as int]);
                assert(f@[k] == Loc(t as u32));
                assert(v1[p as int] == (a, f@[k]));
                assert(g1.has_edge(f@[l as int].0 as int, a, f@[k]));
                assert(!g0.has_edge(l as int, a, Loc(k as u32)));
            }
            return false;
        }
        p = p + 1;
    }
    proof {
        assert forall|a: Seq<Act>, k: int| 0 <= k < n implies
            (#[trigger] g0.has_edge(l as int, a, Loc(k as u32)) <==> g1.has_edge(f@[l as int].0 as int, a, f@[k])) by {
            if g0.has_edge(l as int, a, Loc(k as u32)) {
                let pp = choose|pp: int| 0 <= pp < v0.len() && v0[pp] == (a, Loc(k as u32));
                assert(v1.contains((v0[pp].0, f@[v0[pp].1.0 as int])));
            }
            if g1.has_edge(f@[l as int].0 as int, a, f@[k]) {
                let o = choose|o: int| 0 <= o < v1.len() && v1[o] == (a, f@[k]);
                assert(v0.contains((v1[o].0, inv@[v1[o].1.0 as int])));
                assert(inv@[f@[k].0 as int] == Loc(k as u32));
            }
        }
    }
    true
}

/// The observations of agent `t` correspond one to one under `f`.
fn check_obs_at(g0: &Game, g1: &Game, f: &Vec<Loc>, t: usize) -> (r: bool)
    requires
        g0.wf(),
        g1.wf(),
        g0.nloc() == g1.nloc(),
        f@.len() == g0.nloc(),
        t < g0.n_agents(),
        t < g1.n_agents(),
        forall|x: int| 0 <= x < g0.nloc() ==> (#[trigger] f@[x]).0 < g0.nloc(),
    ensures
        r ==> forall|l: int, k: int| 0 <= l < g0.nloc() && 0 <= k < g0.nloc() ==>
            (#[trigger] g0.obs_of(l, t as int) == #[trigger] g0.obs_of(k, t as int)
                <==> g1.obs_of(f@[l].0 as int, t as int) == g1.obs_of(f@[k].0 as int, t as int)),
        !r ==> exists|l: int, k: int| 0 <= l < g0.nloc() && 0 <= k < g0.nloc() &&
            !(#[trigger] g0.obs_of(l, t as int) == #[trigger] g0.obs_of(k, t as int)
                <==> g1.obs_of(f@[l].0 as int, t as int) == g1.obs_of(f@[k].0 as int, t as int)),
{
    let n = g0.n_loc();
    let n0 = g0.obs[t].len();
    let n1 = g1.obs[t].len();
    let mut h: Vec<Option<u32>> = Vec::new();
    let mut hr: Vec<Option<u32>> = Vec::new();
    let mut i: usize = 0;
    while i < n0
        invariant
            i <= n0,
            h@.len() == i,
            forall|x: int| 0 <= x < i ==> (#[trigger] h@[x]) is None,
        decreases n0 - i,
    {
        h.push(None);
        i = i + 1;
    }
    let mut i: usize = 0;
    while i < n1
        invariant
            i <= n1,
            hr@.len() == i,
            forall|x: int| 0 <= x < i ==> (#[trigger] hr@[x]) is None,
        decreases n1 - i,
    {
        hr.push(None);
        i = i + 1;
    }
    let ghost ti = t as int;
    let mut l: usize = 0;
    while l < n
        invariant
            g0.wf(),
            g1.wf(),
            n == g0.nloc(),
            g0.nloc() == g1.nloc(),
            f@.len() == n,
            ti == t as int,
            t < g0.n_agents(),
            t < g1.n_agents(),
            n0 == g0.obs@[ti].len(),
            n1 == g1.obs@[ti].len(),
            h@.len() == n0,
            hr@.len() == n1,
            forall|x: int| 0 <= x < n ==> (#[trigger] f@[x]).0 < n,
            l <= n,
            forall|k: int| 0 <= k < l ==> h@[(#[trigger] g0.obs_of(k, ti)).0 as int] == Some(g1.obs_of(f@[k].0 as int, ti).0)
                && hr@[g1.obs_of(f@[k].0 as int, ti).0 as int] == Some(g0.obs_of(k, ti).0),
            forall|o: int| 0 <= o < n0 && (#[trigger] h@[o]) is Some ==> (h@[o]->0 as int) < n1 && hr@[h@[o]->0 as int] == Some(o as u32),
            forall|o: int| 0 <= o < n1 && (#[trigger] hr@[o]) is Some ==> (hr@[o]->0 as int) < n0 && h@[hr@[o]->0 as int] == Some(o as u32),
            forall|o: int| 0 <= o < n0 && (#[trigger] h@[o]) is Some ==> exists|k: int| 0 <= k < l && (#[trigger] g0.obs_of(k, ti)).0 == o,
            forall|o: int| 0 <= o < n1 && (#[trigger] hr@[o]) is Some ==> exists|k: int| 0 <= k < l && (#[trigger] g1.obs_of(f@[k].0 as int, ti)).0 == o,
        decreases n - l,
    {
        let o0 = g0.loc[l].obs[t];
        let fl = f[l];
        let o1 = g1.loc[fl.index()].obs[t];
        proof {
            assert(g0.obs_of(l as int, ti) == o0);
            assert(g1.obs_of(fl.0 as int, ti) == o1);
        }
        proof {
            assert(o0.0 < n0 && o1.0 < n1);
        }
        match (h[o0.index()], hr[o1.index()]) {
            (None, None) => {
                h.set(o0.index(), Some(o1.0));
                hr.set(o1.index(), Some(o0.0));
                proof {
                    assert(g0.obs_of(l as int, ti).0 == o0.0);
                    assert(g1.obs_of(f@[l as int].0 as int, ti).0 == o1.0);
                }
            },
            (Some(x), Some(y)) => {
                if x != o1.0 || y != o0.0 {
                    proof {
                        if x != o1.0 {
                            let k = choose|k: int| 0 <= k < l && (#[trigger] g0.obs_of(k, ti)).0 == o0.0;
                            assert(h@[g0.obs_of(k, ti).0 as int] == Some(g1.obs_of(f@[k].0 as int, ti).0));
                            assert(g0.obs_of(k, ti) == g0.obs_of(l as int, ti));
                            assert(g1.obs_of(f@[k].0 as int, ti) != g1.obs_of(f@[l as int].0 as int, ti));
                        } else {
                            let k = choose|k: int| 0 <= k < l && (#[trigger] g1.obs_of(f@[k].0 as int, ti)).0 == o1.0;
                            assert(hr@[g1.obs_of(f@[k].0 as int, ti).0 as int] == Some(g0.obs_of(k, ti).0));
                            assert(g1.obs_of(f@[k].0 as int, ti) == g1.obs_of(f@[l as int].0 as int, ti));
                            assert(g0.obs_of(k, ti) != g0.obs_of(l as int, ti));
                        }
                    }
                    return false;
                }
            },
            (Some(x), None) => {
                proof {
                    let k = choose|k: int| 0 <= k < l && (#[trigger] g0.obs_of(k, ti)).0 == o0.0;
                    assert(h@[g0.obs_of(k, ti).0 as int] == Some(g1.obs_of(f@[k].0 as int, ti).0));
                    assert(hr@[x as int] == Some(o0.0));
                    assert(g0.obs_of(k, ti) == g0.obs_of(l as int, ti));
                    assert(g1.obs_of(f@[k].0 as int, ti) != g1.obs_of(f@[l as int].0 as int, ti));
                }
                return false;
            },
            (None, Some(y)) => {
                proof {
                    let k = choose|k: int| 0 <= k < l && (#[trigger] g1.obs_of(f@[k].0 as int, ti)).0 == o1.0;
                    assert(hr@[g1.obs_of(f@[k].0 as int, ti).0 as int] == Some(g0.obs_of(k, ti).0));
                    assert(h@[y as int] == Some(o1.0));
                    assert(g1.obs_of(f@[k].0 as int, ti) == g1.obs_of(f@[l as int].0 as int, ti));
                    assert(g0.obs_of(k, ti) != g0.obs_of(l as int, ti));
                }
                return false;
            },
        }
        l = l + 1;
    }
    proof {
        assert forall|a: int, b: int| 0 <= a < n && 0 <= b < n implies
            (#[trigger] g0.obs_of(a, ti) == #[trigger] g0.obs_of(b, ti)
                <==> g1.obs_of(f@[a].0 as int, ti) == g1.obs_of(f@[b].0 as int, ti)) by {
            let (oa, ob) = (g0.obs_of(a, ti), g0.obs_of(b, ti));
            let (pa, pb) = (g1.obs_of(f@[a].0 as int, ti), g1.obs_of(f@[b].0 as int, ti));
            assert(h@[oa.0 as int] == Some(pa.0) && hr@[pa.0 as int] == Some(oa.0));
            assert(h@[ob.0 as int] == Some(pb.0) && hr@[pb.0 as int] == Some(ob.0));
        }
    }
    true
}

/// Whether `f` is an isomorphism; when it says so, it is.
pub fn check_iso_map(g0: &Game, g1: &Game, f: &Vec<Loc>, check_obs: bool) -> (r: bool)
    requires
        g0.wf(),
        g1.wf(),
    ensures
        r == is_iso_map(*g0, *g1, f@, check_obs),
{
    let n = g0.n_loc();
    if g1.n_loc() != n {
        return false;
    }
    let inv = match invert(f, n) {
        None => return false,
        Some(inv) => inv,
    };
    if n > 0 && f[0] != Loc(0) {
        return false;
    }
    let mut l: usize = 0;
    while l < n
        invariant
            g0.wf(),
            g1.wf(),
            n == g0.nloc(),
            g0.nloc() == g1.nloc(),
            f@.len() == n,
            inv@.len() == n,
            is_perm(f@, n as nat),
            n > 0 ==> f@[0] == Loc(0),
            forall|x: int| 0 <= x < n ==> (#[trigger] f@[x]).0 < n && inv@[f@[x].0 as int] == Loc(x as u32),
            forall|y: int| 0 <= y < n ==> (#[trigger] inv@[y]).0 < n && f@[inv@[y].0 as int] == Loc(y as u32),
            l <= n,
            forall|x: int| 0 <= x < l ==> g0.loc@[x].is_winning == g1.loc@[(#[trigger] f@[x]).0 as int].is_winning,
            forall|x: int, a: Seq<Act>, k: int| 0 <= x < l && 0 <= k < n ==>
                (#[trigger] g0.has_edge(x, a, Loc(k as u32)) <==> g1.has_edge(f@[x].0 as int, a, f@[k])),
        decreases n - l,
    {
        if g0.is_winning(Loc(l as u32)) != g1.is_winning(f[l]) {
            proof {
                assert(g0.loc@[l as int].is_winning != g1.loc@[(f@[l as int]).0 as int].is_winning);
            }
            return false;
        }
        if !check_edges_at(g0, g1, f, &inv, l) {
            proof {
                let (a, k) = choose|a: Seq<Act>, k: int| 0 <= k < g0.nloc() &&
                    !(#[trigger] g0.has_edge(l as int, a, Loc(k as u32)) <==> g1.has_edge(f@[l as int].0 as int, a, f@[k]));
                assert(!(g0.has_edge(l as int, a, Loc(k as u32)) <==> g1.has_edge(f@[l as int].0 as int, a, f@[k])));
            }
            return false;
        }
        l = l + 1;
    }
    if check_obs {
        if g0.n_actions.len() != g1.n_actions.len() {
            return false;
        }
        let mut t: usize = 0;
        while t < g0.n_actions.len()
            invariant
                g0.wf(),
                g1.wf(),
                n == g0.nloc(),
                g0.nloc() == g1.nloc(),
                check_obs,
                g0.n_agents() == g1.n_agents(),
                f@.len() == n,
                forall|x: int| 0 <= x < n ==> (#[trigger] f@[x]).0 < n,
                t <= g0.n_agents(),
                forall|u: int, a: int, b: int| 0 <= u < t && 0 <= a < n && 0 <= b < n ==>
                    (#[trigger] g0.obs_of(a, u) == #[trigger] g0.obs_of(b, u)
                        <==> g1.obs_of(f@[a].0 as int, u) == g1.obs_of(f@[b].0 as int, u)),
            decreases g0.n_agents() - t,
        {
            if !check_obs_at(g0, g1, f, t) {
                proof {
                    let (a, b) = choose|a: int, b: int| 0 <= a < g0.nloc() && 0 <= b < g0.nloc() &&
                        !(#[trigger] g0.obs_of(a, t as int) == #[trigger] g0.obs_of(b, t as int)
                            <==> g1.obs_of(f@[a].0 as int, t as int) == g1.obs_of(f@[b].0 as int, t as int));
                    assert(!(g0.obs_of(a, t as int) == g0.obs_of(b, t as int)
                        <==> g1.obs_of(f@[a].0 as int, t as int) == g1.obs_of(f@[b].0 as int, t as int)));
                }
                return false;
            }
            t = t + 1;
        }
    }
    true
}


/// The keys of `m` are finitely many, each below `n`.
spec fn keys_below(m: Map<nat, u32>, n: nat) -> bool {
    &&& m.dom().finite()
    &&& forall|k: nat| #[trigger] m.dom().contains(k) ==> k < n
}

/// A finite set of numbers below `n` has at most `n` members.
pub proof fn lemma_bounded_len(s: Set<nat>, n: nat)
    requires
        s.finite(),
        forall|k: nat| #[trigger] s.contains(k) ==> k < n,
    ensures
        s.len() <= n,
    decreases n,
{
    if n == 0 {
        assert(s =~= Set::<nat>::empty());
    } else {
        let t = s.remove((n - 1) as nat);
        lemma_bounded_len(t, (n - 1) as nat);
    }
}

/// The locations of one game that the search has reached: the partial
/// correspondence `m` (to locations of the other game), the depths at which
/// locations entered the in- and out-frontiers, how many locations are in
/// either frontier, and, per agent, the correspondence of observations
/// with the depth at which each pair was made.
struct Side {
    m: VecMap<u32>,
    in_set: VecMap<u32>,
    out_set: VecMap<u32>,
    visited: usize,
    obs_val: Vec<VecMap<u32>>,
    obs_dep: Vec<VecMap<u32>>,
}

impl Side {
    spec fn frontier(&self) -> Set<nat> {
        vm_map(self.in_set).dom().union(vm_map(self.out_set).dom())
    }

    spec fn inv(&self, n: nat, na: nat) -> bool {
        &&& keys_below(vm_map(self.m), n)
        &&& keys_below(vm_map(self.in_set), n)
        &&& keys_below(vm_map(self.out_set), n)
        &&& self.visited == self.frontier().len()
        &&& self.obs_val@.len() == na
        &&& self.obs_dep@.len() == na
    }

    spec fn mapped(&self) -> Map<nat, u32> {
        vm_map(self.m)
    }
}

fn new_side(na: usize) -> (s: Side)
    ensures
        s.inv(0, na as nat),
        s.mapped() == Map::<nat, u32>::empty(),
{
    let mut obs_val: Vec<VecMap<u32>> = Vec::new();
    let mut obs_dep: Vec<VecMap<u32>> = Vec::new();
    let mut t: usize = 0;
    while t < na
        invariant
            t <= na,
            obs_val@.len() == t,
            obs_dep@.len() == t,
        decreases na - t,
    {
        obs_val.push(vm_new());
        obs_dep.push(vm_new());
        t = t + 1;
    }
    let s = Side { m: vm_new(), in_set: vm_new(), out_set: vm_new(), visited: 0, obs_val, obs_dep };
    proof {
        assert(vm_map(s.m).dom() =~= Set::<nat>::empty());
        assert(s.frontier() =~= Set::<nat>::empty());
    }
    s
}

/// Puts `l` into the frontier `set` at `depth` unless it is there already,
/// counting it as visited when it is in neither frontier.
fn frontier_insert(set: &mut VecMap<u32>, other: &VecMap<u32>, count: &mut usize, l: usize, depth: u32, Ghost(n): Ghost<nat>)
    requires
        n <= u32::MAX,
        l < n,
        keys_below(vm_map(*old(set)), n),
        keys_below(vm_map(*other), n),
        *old(count) == vm_map(*old(set)).dom().union(vm_map(*other).dom()).len(),
    ensures
        keys_below(vm_map(*final(set)), n),
        *final(count) == vm_map(*final(set)).dom().union(vm_map(*other).dom()).len(),
        vm_map(*final(set)) == (if vm_map(*old(set)).dom().contains(l as nat) {
            vm_map(*old(set))
        } else {
            vm_map(*old(set)).insert(l as nat, depth)
        }),
{
    let ghost u = vm_map(*set).dom().union(vm_map(*other).dom());
    if !vm_contains(set, l) {
        if !vm_contains(other, l) {
            proof {
                lemma_bounded_len(u.insert(l as nat), n);
            }
            *count = *count + 1;
        }
        vm_insert(set, l, depth);
        proof {
            assert(vm_map(*set).dom().union(vm_map(*other).dom()) =~= u.insert(l as nat));
        }
    }
}

/// Takes `l` out of the frontier `set` if it entered it at `depth`,
/// uncounting it when it is then in neither frontier.
fn frontier_remove(set: &mut VecMap<u32>, other: &VecMap<u32>, count: &mut usize, l: usize, depth: u32, Ghost(n): Ghost<nat>)
    requires
        keys_below(vm_map(*old(set)), n),
        keys_below(vm_map(*other), n),
        *old(count) == vm_map(*old(set)).dom().union(vm_map(*other).dom()).len(),
    ensures
        keys_below(vm_map(*final(set)), n),
        *final(count) == vm_map(*final(set)).dom().union(vm_map(*other).dom()).len(),
        vm_map(*final(set)) == (if vm_map(*old(set)).dom().contains(l as nat) && vm_map(*old(set))[l as nat] == depth {
            vm_map(*old(set)).remove(l as nat)
        } else {
            vm_map(*old(set))
        }),
{
    let ghost u = vm_map(*set).dom().union(vm_map(*other).dom());
    match vm_get(set, l) {
        Some(d) => {
            if d == depth {
                vm_remove(set, l);
                if !vm_contains(other, l) {
                    proof {
                        assert(vm_map(*set).dom().union(vm_map(*other).dom()) =~= u.remove(l as nat));
                    }
                    *count = *count - 1;
                } else {
                    proof {
                        assert(vm_map(*set).dom().union(vm_map(*other).dom()) =~= u);
                    }
                }
            }
        },
        None => {},
    }
}


/// Sets entry `key` of the `t`-th map of `v` to `value`.
fn insert_at(v: &mut Vec<VecMap<u32>>, t: usize, key: usize, value: u32)
    requires
        t < old(v)@.len(),
        key < usize::MAX,
    ensures
        final(v)@.len() == old(v)@.len(),
        vm_map(final(v)@[t as int]) == vm_map(old(v)@[t as int]).insert(key as nat, value),
        forall|u: int| 0 <= u < old(v)@.len() && u != t ==> vm_map(#[trigger] final(v)@[u]) == vm_map(old(v)@[u]),
{
    let mut e = v.remove(t);
    vm_insert(&mut e, key, value);
    v.insert(t, e);
}

/// Removes entry `key` of the `t`-th map of `v`.
fn remove_at(v: &mut Vec<VecMap<u32>>, t: usize, key: usize)
    requires
        t < old(v)@.len(),
    ensures
        final(v)@.len() == old(v)@.len(),
        vm_map(final(v)@[t as int]) == vm_map(old(v)@[t as int]).remove(key as nat),
        forall|u: int| 0 <= u < old(v)@.len() && u != t ==> vm_map(#[trigger] final(v)@[u]) == vm_map(old(v)@[u]),
{
    let mut e = v.remove(t);
    vm_remove(&mut e, key);
    v.insert(t, e);
}

/// The observations that `obs` gives every agent fit the maps of `side`.
spec fn obs_fit(obs: Seq<Obs>, na: nat) -> bool {
    &&& obs.len() == na
    &&& forall|t: int| 0 <= t < na ==> ((#[trigger] obs[t]).0 as int) < u32::MAX
}

/// The target of the `k`-th transition of `es` is a location of `g`.
proof fn lemma_edge_target(g: Game, es: Seq<(Profile, Loc)>, l: int, k: int, out: bool)
    requires
        g.wf(),
        0 <= l < g.nloc(),
        0 <= k < es.len(),
        out ==> es.map_values(|e: (Profile, Loc)| edge_view(e)) == g.succ(l),
        !out ==> es.map_values(|e: (Profile, Loc)| edge_view(e)) == g.pred(l),
    ensures
        (es[k].1.0 as int) < g.nloc(),
{
    if out {
        assert(g.valid_edge(g.succ(l)[k]));
    } else {
        assert(g.valid_edge(g.pred(l)[k]));
    }
}

/// Maps `l` to `partner` and puts `l` and its neighbours into the
/// frontiers at `depth`; with `check_obs`, also pairs the observations.
fn add_side(s: &mut Side, g: &Game, l: usize, partner: u32, obs_self: &Vec<Obs>, obs_other: &Vec<Obs>,
    depth: u32, check_obs: bool, Ghost(na): Ghost<nat>)
    requires
        g.wf(),
        old(s).inv(g.nloc(), na),
        l < g.nloc(),
        !old(s).mapped().dom().contains(l as nat),
        check_obs ==> obs_fit(obs_self@, na) && obs_other@.len() == na,
    ensures
        final(s).inv(g.nloc(), na),
        final(s).mapped() == old(s).mapped().insert(l as nat, partner),
{
    let ghost n = g.nloc();
    vm_insert(&mut s.m, l, partner);
    let ghost m_new = s.mapped();
    proof {
        assert(vm_map(s.out_set).dom().union(vm_map(s.in_set).dom()) =~= s.frontier());
    }
    frontier_insert(&mut s.out_set, &s.in_set, &mut s.visited, l, depth, Ghost(n));
    proof {
        assert(vm_map(s.out_set).dom().union(vm_map(s.in_set).dom()) =~= s.frontier());
    }
    frontier_insert(&mut s.in_set, &s.out_set, &mut s.visited, l, depth, Ghost(n));
    let succ = g.successors(Loc(l as u32));
    let mut k: usize = 0;
    while k < succ.len()
        invariant
            g.wf(),
            n == g.nloc(),
            l < n,
            s.inv(n, na),
            s.mapped() == m_new,
            succ@.map_values(|e: (Profile, Loc)| edge_view(e)) == g.succ(l as int),
        decreases succ@.len() - k,
    {
        proof {
            lemma_edge_target(*g, succ@, l as int, k as int, true);
            assert(vm_map(s.out_set).dom().union(vm_map(s.in_set).dom()) =~= s.frontier());
        }
        frontier_insert(&mut s.out_set, &s.in_set, &mut s.visited, succ[k].1.index(), depth, Ghost(n));
        proof {
            assert(vm_map(s.out_set).dom().union(vm_map(s.in_set).dom()) =~= s.frontier());
        }
        k = k + 1;
    }
    let pred = g.predecessors(Loc(l as u32));
    let mut k: usize = 0;
    while k < pred.len()
        invariant
            g.wf(),
            n == g.nloc(),
            l < n,
            s.inv(n, na),
            s.mapped() == m_new,
            pred@.map_values(|e: (Profile, Loc)| edge_view(e)) == g.pred(l as int),
        decreases pred@.len() - k,
    {
        proof {
            lemma_edge_target(*g, pred@, l as int, k as int, false);
        }
        frontier_insert(&mut s.in_set, &s.out_set, &mut s.visited, pred[k].1.index(), depth, Ghost(n));
        k = k + 1;
    }
    if check_obs {
        let mut t: usize = 0;
        while t < s.obs_val.len()
            invariant
                n == g.nloc(),
                s.inv(n, na),
                s.mapped() == m_new,
                obs_fit(obs_self@, na),
                obs_other@.len() == na,
            decreases na - t,
        {
            insert_at(&mut s.obs_val, t, obs_self[t].index(), obs_other[t].0);
            insert_at(&mut s.obs_dep, t, obs_self[t].index(), depth);
            t = t + 1;
        }
    }
}

/// Undoes `add_side` at `depth`: unmaps `l` and takes out of the frontiers
/// and observation maps what entered them at `depth`.
fn remove_side(s: &mut Side, g: &Game, l: usize, obs_self: &Vec<Obs>, depth: u32, check_obs: bool,
    Ghost(na): Ghost<nat>)
    requires
        g.wf(),
        old(s).inv(g.nloc(), na),
        l < g.nloc(),
        check_obs ==> obs_fit(obs_self@, na),
    ensures
        final(s).inv(g.nloc(), na),
        final(s).mapped() == old(s).mapped().remove(l as nat),
{
    let ghost n = g.nloc();
    vm_remove(&mut s.m, l);
    let ghost m_new = s.mapped();
    proof {
        assert(vm_map(s.out_set).dom().union(vm_map(s.in_set).dom()) =~= s.frontier());
    }
    frontier_remove(&mut s.out_set, &s.in_set, &mut s.visited, l, depth, Ghost(n));
    proof {
        assert(vm_map(s.out_set).dom().union(vm_map(s.in_set).dom()) =~= s.frontier());
    }
    frontier_remove(&mut s.in_set, &s.out_set, &mut s.visited, l, depth, Ghost(n));
    let succ = g.successors(Loc(l as u32));
    let mut k: usize = 0;
    while k < succ.len()
        invariant
            n == g.nloc(),
            s.inv(n, na),
            s.mapped() == m_new,
        decreases succ@.len() - k,
    {
        proof {
            assert(vm_map(s.out_set).dom().union(vm_map(s.in_set).dom()) =~= s.frontier());
        }
        frontier_remove(&mut s.out_set, &s.in_set, &mut s.visited, succ[k].1.index(), depth, Ghost(n));
        proof {
            assert(vm_map(s.out_set).dom().union(vm_map(s.in_set).dom()) =~= s.frontier());
        }
        k = k + 1;
    }
    let pred = g.predecessors(Loc(l as u32));
    let mut k: usize = 0;
    while k < pred.len()
        invariant
            n == g.nloc(),
            s.inv(n, na),
            s.mapped() == m_new,
        decreases pred@.len() - k,
    {
        frontier_remove(&mut s.in_set, &s.out_set, &mut s.visited, pred[k].1.index(), depth, Ghost(n));
        k = k + 1;
    }
    if check_obs {
        let mut t: usize = 0;
        while t < s.obs_val.len()
            invariant
                n == g.nloc(),
                s.inv(n, na),
                s.mapped() == m_new,
                obs_fit(obs_self@, na),
            decreases na - t,
        {
            let key = obs_self[t].index();
            match vm_get(&s.obs_dep[t], key) {
                Some(d) => {
                    if d == depth {
                        remove_at(&mut s.obs_val, t, key);
                        remove_at(&mut s.obs_dep, t, key);
                    }
                },
                None => {},
            }
            t = t + 1;
        }
    }
}


/// The key of a transition of the first game: its profile and the image of
/// its target under `m`, when the target is mapped.
spec fn key0(m: Map<nat, u32>, e: (Seq<Act>, Loc)) -> Option<(Seq<Act>, u32)> {
    if m.dom().contains(e.1.0 as nat) {
        Some((e.0, m[e.1.0 as nat]))
    } else {
        None
    }
}

/// The key of a transition of the second game: its profile and target.
spec fn key1(e: (Seq<Act>, Loc)) -> (Seq<Act>, u32) {
    (e.0, e.1.0)
}

/// How many transitions of `es` have the key `k` under `m`.
spec fn cnt0(m: Map<nat, u32>, es: Seq<(Seq<Act>, Loc)>, k: (Seq<Act>, u32)) -> nat
    decreases es.len(),
{
    if es.len() == 0 {
        0
    } else {
        cnt0(m, es.drop_last(), k) + (if key0(m, es.last()) == Some(k) { 1nat } else { 0nat })
    }
}

/// How many transitions of `es` have the key `k`.
spec fn cnt1(es: Seq<(Seq<Act>, Loc)>, k: (Seq<Act>, u32)) -> nat
    decreases es.len(),
{
    if es.len() == 0 {
        0
    } else {
        cnt1(es.drop_last(), k) + (if key1(es.last()) == k { 1nat } else { 0nat })
    }
}

/// The lists of transitions are equally long, and every transition of `e0`
/// to a location mapped by `m` can be paired with its own transition of
/// `e1` of the same profile to the target's image: for every key there are
/// at least as many in `e1` as in `e0`.
spec fn neighbors_match(m: Map<nat, u32>, e0: Seq<(Seq<Act>, Loc)>, e1: Seq<(Seq<Act>, Loc)>) -> bool {
    &&& e0.len() == e1.len()
    &&& forall|k: (Seq<Act>, u32)| #[trigger] cnt0(m, e0, k) <= cnt1(e1, k)
}

proof fn lemma_cnt0_step(m: Map<nat, u32>, es: Seq<(Seq<Act>, Loc)>, n: int, k: (Seq<Act>, u32))
    requires
        0 <= n < es.len(),
    ensures
        cnt0(m, es.subrange(0, n + 1), k) == cnt0(m, es.subrange(0, n), k)
            + (if key0(m, es[n]) == Some(k) { 1nat } else { 0nat }),
{
    let t = es.subrange(0, n + 1);
    assert(t.drop_last() =~= es.subrange(0, n));
    assert(t.last() == es[n]);
}

proof fn lemma_cnt1_step(es: Seq<(Seq<Act>, Loc)>, n: int, k: (Seq<Act>, u32))
    requires
        0 <= n < es.len(),
    ensures
        cnt1(es.subrange(0, n + 1), k) == cnt1(es.subrange(0, n), k) + (if key1(es[n]) == k { 1nat } else { 0nat }),
{
    let t = es.subrange(0, n + 1);
    assert(t.drop_last() =~= es.subrange(0, n));
    assert(t.last() == es[n]);
}

/// Counting over a longer prefix counts at least as many.
proof fn lemma_cnt0_mono(m: Map<nat, u32>, es: Seq<(Seq<Act>, Loc)>, a: int, b: int, k: (Seq<Act>, u32))
    requires
        0 <= a <= b <= es.len(),
    ensures
        cnt0(m, es.subrange(0, a), k) <= cnt0(m, es.subrange(0, b), k),
    decreases b - a,
{
    if a < b {
        lemma_cnt0_mono(m, es, a, b - 1, k);
        lemma_cnt0_step(m, es, b - 1, k);
    }
}

/// Counting over a longer prefix counts at least as many.
proof fn lemma_cnt1_mono(es: Seq<(Seq<Act>, Loc)>, a: int, b: int, k: (Seq<Act>, u32))
    requires
        0 <= a <= b <= es.len(),
    ensures
        cnt1(es.subrange(0, a), k) <= cnt1(es.subrange(0, b), k),
    decreases b - a,
{
    if a < b {
        lemma_cnt1_mono(es, a, b - 1, k);
        lemma_cnt1_step(es, b - 1, k);
    }
}

/// Pairs every transition of `n0` whose target is mapped by `m0` with a
/// distinct transition of `n1` of the same profile to the target's image.
fn match_neighbors(buf: &mut BitSet<u32>, m0: &VecMap<u32>, n0: &Vec<(Profile, Loc)>, n1: &Vec<(Profile, Loc)>) -> (r: bool)
    ensures
        r == neighbors_match(vm_map(*m0), n0@.map_values(|e: (Profile, Loc)| edge_view(e)),
            n1@.map_values(|e: (Profile, Loc)| edge_view(e))),
{
    let ghost m = vm_map(*m0);
    let ghost e0 = n0@.map_values(|e: (Profile, Loc)| edge_view(e));
    let ghost e1 = n1@.map_values(|e: (Profile, Loc)| edge_view(e));
    if n0.len() != n1.len() {
        return false;
    }
    bs_reserve_len(buf, n0.len());
    bs_clear(buf);
    let mut k: usize = 0;
    proof {
        assert(e0.subrange(0, 0) =~= Seq::<(Seq<Act>, Loc)>::empty());
    }
    while k < n0.len()
        invariant
            m == vm_map(*m0),
            e0 == n0@.map_values(|e: (Profile, Loc)| edge_view(e)),
            e1 == n1@.map_values(|e: (Profile, Loc)| edge_view(e)),
            n0@.len() == n1@.len(),
            k <= n0@.len(),
            forall|x: (Seq<Act>, u32)| #[trigger] cnt0(m, e0.subrange(0, k as int), x) <= cnt1(e1, x),
            forall|i: nat| #[trigger] bs_set(*buf).contains(i) <==> (i < e1.len()
                && cnt1(e1.subrange(0, i as int), key1(e1[i as int])) < cnt0(m, e0.subrange(0, k as int), key1(e1[i as int]))),
        decreases n0@.len() - k,
    {
        let ghost b0 = bs_set(*buf);
        proof {
            assert(e0[k as int] == edge_view(n0@[k as int]));
            assert forall|x: (Seq<Act>, u32)| key0(m, e0[k as int]) != Some(x) implies
                #[trigger] cnt0(m, e0.subrange(0, k + 1), x) == cnt0(m, e0.subrange(0, k as int), x) by {
                lemma_cnt0_step(m, e0, k as int, x);
            }
        }
        match vm_get(m0, n0[k].1.index()) {
            Some(l1) => {
                let ghost kk = (e0[k as int].0, l1);
                proof {
                    assert(key0(m, e0[k as int]) == Some(kk));
                    lemma_cnt0_step(m, e0, k as int, kk);
                }
                let ghost c = cnt0(m, e0.subrange(0, k as int), kk);
                let mut found = false;
                let mut i: usize = 0;
                proof {
                    assert(e1.subrange(0, 0) =~= Seq::<(Seq<Act>, Loc)>::empty());
                }
                while !found && i < n1.len()
                    invariant
                        k < n0@.len(),
                        n0@.len() == n1@.len(),
                        e1 == n1@.map_values(|e: (Profile, Loc)| edge_view(e)),
                        e0 == n0@.map_values(|e: (Profile, Loc)| edge_view(e)),
                        i <= n1@.len(),
                        kk == (e0[k as int].0, l1),
                        !found ==> bs_set(*buf) == b0 && cnt1(e1.subrange(0, i as int), kk) <= c,
                        found ==> i < n1@.len() && key1(e1[i as int]) == kk
                            && cnt1(e1.subrange(0, i as int), kk) == c
                            && bs_set(*buf) == b0.insert(i as nat),
                        forall|j: nat| #[trigger] b0.contains(j) <==> (j < e1.len()
                            && cnt1(e1.subrange(0, j as int), key1(e1[j as int])) < cnt0(m, e0.subrange(0, k as int), key1(e1[j as int]))),
                        c == cnt0(m, e0.subrange(0, k as int), kk),
                    decreases n1@.len() - i + (if found { 0int } else { 1int }),
                {
                    proof {
                        assert(e1[i as int] == edge_view(n1@[i as int]));
                        lemma_cnt1_step(e1, i as int, kk);
                    }
                    if n1[i].1.0 == l1 && profile_eq(&n1[i].0, &n0[k].0) && !bs_contains(buf, i) {
                        bs_insert(buf, i);
                        found = true;
                    } else {
                        i = i + 1;
                    }
                }
                if !found {
                    proof {
                        assert(e1.subrange(0, e1.len() as int) =~= e1);
                        lemma_cnt0_mono(m, e0, k + 1, e0.len() as int, kk);
                        assert(e0.subrange(0, e0.len() as int) =~= e0);
                        assert(cnt0(m, e0, kk) > cnt1(e1, kk));
                    }
                    return false;
                }
                proof {
                    let fi = i as int;
                    lemma_cnt1_step(e1, fi, kk);
                    lemma_cnt1_mono(e1, fi + 1, e1.len() as int, kk);
                    assert(e1.subrange(0, e1.len() as int) =~= e1);
                    assert forall|x: (Seq<Act>, u32)| #[trigger] cnt0(m, e0.subrange(0, k + 1), x) <= cnt1(e1, x) by {
                        lemma_cnt0_step(m, e0, k as int, x);
                    }
                    assert forall|j: nat| #[trigger] bs_set(*buf).contains(j) <==> (j < e1.len()
                        && cnt1(e1.subrange(0, j as int), key1(e1[j as int])) < cnt0(m, e0.subrange(0, k + 1), key1(e1[j as int]))) by {
                        lemma_cnt0_step(m, e0, k as int, key1(e1[j as int]));
                        if j < e1.len() && key1(e1[j as int]) == kk && j != fi {
                            if (j as int) < fi {
                                lemma_cnt1_step(e1, j as int, kk);
                                lemma_cnt1_mono(e1, j as int + 1, fi, kk);
                            } else {
                                lemma_cnt1_mono(e1, fi + 1, j as int, kk);
                            }
                        }
                    }
                }
            },
            None => {
                proof {
                    assert(key0(m, e0[k as int]) is None);
                }
            },
        }
        k = k + 1;
    }
    proof {
        assert(e0.subrange(0, e0.len() as int) =~= e0);
    }
    true
}

/// `l0` and `l1` agree on being goals, and their transitions to and from
/// mapped locations correspond.
fn is_feasible(buf: &mut BitSet<u32>, m0: &VecMap<u32>, g0: &Game, g1: &Game, l0: usize, l1: usize) -> (r: bool)
    requires
        l0 < g0.nloc(),
        l1 < g1.nloc(),
        g0.nloc() <= u32::MAX,
        g1.nloc() <= u32::MAX,
    ensures
        r == (g0.loc@[l0 as int].is_winning == g1.loc@[l1 as int].is_winning
            && neighbors_match(vm_map(*m0), g0.succ(l0 as int), g1.succ(l1 as int))
            && neighbors_match(vm_map(*m0), g0.pred(l0 as int), g1.pred(l1 as int))),
{
    if g0.is_winning(Loc(l0 as u32)) != g1.is_winning(Loc(l1 as u32)) {
        return false;
    }
    let (s0, s1) = (g0.successors(Loc(l0 as u32)), g1.successors(Loc(l1 as u32)));
    let (p0, p1) = (g0.predecessors(Loc(l0 as u32)), g1.predecessors(Loc(l1 as u32)));
    match_neighbors(buf, m0, s0, s1) && match_neighbors(buf, m0, p0, p1)
}

/// For agent `t`, the observations `o0` and `o1` are equally large and
/// either both unpaired or paired with each other.
spec fn obs_agree(s0: Side, s1: Side, g0: Game, g1: Game, t: int, o0: Obs, o1: Obs) -> bool {
    let v0 = vm_map(s0.obs_val@[t]);
    let v1 = vm_map(s1.obs_val@[t]);
    &&& g0.obs_set_spec(t, o0.0 as int).len() == g1.obs_set_spec(t, o1.0 as int).len()
    &&& (v0.dom().contains(o0.0 as nat) && v1.dom().contains(o1.0 as nat)
            && v0[o0.0 as nat] == o1.0 && v1[o1.0 as nat] == o0.0)
        || (!v0.dom().contains(o0.0 as nat) && !v1.dom().contains(o1.0 as nat))
}

/// With `check_obs`: for every agent, the observations `obs0` and `obs1`
/// are equally large and either both unpaired or paired with each other.
fn is_obs_feasible(check_obs: bool, s0: &Side, s1: &Side, g0: &Game, g1: &Game, obs0: &Vec<Obs>, obs1: &Vec<Obs>) -> (r: bool)
    requires
        g0.wf(),
        g1.wf(),
        check_obs ==> {
            &&& g1.n_agents() == g0.n_agents()
            &&& s0.obs_val@.len() == g0.n_agents()
            &&& s1.obs_val@.len() == g0.n_agents()
            &&& obs0@.len() == g0.n_agents()
            &&& obs1@.len() == g0.n_agents()
            &&& forall|t: int| 0 <= t < g0.n_agents() ==> (#[trigger] obs0@[t]).0 < g0.obs@[t].len()
            &&& forall|t: int| 0 <= t < g0.n_agents() ==> (#[trigger] obs1@[t]).0 < g1.obs@[t].len()
        },
    ensures
        r == (!check_obs || forall|t: int| 0 <= t < obs0@.len() ==>
            #[trigger] obs_agree(*s0, *s1, *g0, *g1, t, obs0@[t], obs1@[t])),
{
    if !check_obs {
        return true;
    }
    let mut t: usize = 0;
    while t < obs0.len()
        invariant
            g0.wf(),
            g1.wf(),
            g1.n_agents() == g0.n_agents(),
            s0.obs_val@.len() == g0.n_agents(),
            s1.obs_val@.len() == g0.n_agents(),
            obs0@.len() == g0.n_agents(),
            obs1@.len() == g0.n_agents(),
            forall|t: int| 0 <= t < g0.n_agents() ==> (#[trigger] obs0@[t]).0 < g0.obs@[t].len(),
            forall|t: int| 0 <= t < g0.n_agents() ==> (#[trigger] obs1@[t]).0 < g1.obs@[t].len(),
            check_obs,
            t <= obs0@.len(),
            forall|u: int| 0 <= u < t ==> #[trigger] obs_agree(*s0, *s1, *g0, *g1, u, obs0@[u], obs1@[u]),
        decreases obs0@.len() - t,
    {
        let a = agt(t);
        if g0.obs_set(a, obs0[t]).len() != g1.obs_set(a, obs1[t]).len() {
            proof {
                assert(!obs_agree(*s0, *s1, *g0, *g1, t as int, obs0@[t as int], obs1@[t as int]));
            }
            return false;
        }
        match (vm_get(&s0.obs_val[t], obs0[t].index()), vm_get(&s1.obs_val[t], obs1[t].index())) {
            (Some(o1), Some(o0)) => {
                if o0 != obs0[t].0 || o1 != obs1[t].0 {
                    proof {
                        assert(!obs_agree(*s0, *s1, *g0, *g1, t as int, obs0@[t as int], obs1@[t as int]));
                    }
                    return false;
                }
            },
            (None, None) => {},
            _ => {
                proof {
                    assert(!obs_agree(*s0, *s1, *g0, *g1, t as int, obs0@[t as int], obs1@[t as int]));
                }
                return false;
            },
        }
        proof {
            assert(obs_agree(*s0, *s1, *g0, *g1, t as int, obs0@[t as int], obs1@[t as int]));
        }
        t = t + 1;
    }
    true
}


/// Which unmapped locations the search extends the correspondence with.
enum Frontier {
    Out,
    In,
    Unmapped,
}

fn is_candidate(s: &Side, f: &Frontier, l: usize) -> (r: bool)
    ensures
        r == (!s.mapped().dom().contains(l as nat) && match *f {
            Frontier::Out => vm_map(s.out_set).dom().contains(l as nat),
            Frontier::In => vm_map(s.in_set).dom().contains(l as nat),
            Frontier::Unmapped => true,
        }),
{
    let mapped = vm_contains(&s.m, l);
    match f {
        Frontier::Out => vm_contains(&s.out_set, l) && !mapped,
        Frontier::In => vm_contains(&s.in_set, l) && !mapped,
        Frontier::Unmapped => !mapped,
    }
}

/// Unmapped locations in the in-frontier.
spec fn side_tin(s: Side) -> int {
    if vm_map(s.m).dom().len() <= vm_map(s.in_set).dom().len() {
        vm_map(s.in_set).dom().len() - vm_map(s.m).dom().len()
    } else {
        0
    }
}

spec fn side_tout(s: Side) -> int {
    if vm_map(s.m).dom().len() <= vm_map(s.out_set).dom().len() {
        vm_map(s.out_set).dom().len() - vm_map(s.m).dom().len()
    } else {
        0
    }
}

fn tin_len(s: &Side) -> (r: usize)
    ensures
        r == side_tin(*s),
        r == (if vm_map(s.m).dom().len() <= vm_map(s.in_set).dom().len() {
            vm_map(s.in_set).dom().len() - vm_map(s.m).dom().len()
        } else {
            0
        }),
{
    let (ml, il) = (vm_len(&s.m), vm_len(&s.in_set));
    if ml <= il { il - ml } else { 0 }
}

/// Unmapped locations in the out-frontier.
fn tout_len(s: &Side) -> (r: usize)
    ensures
        r == side_tout(*s),
        r == (if vm_map(s.m).dom().len() <= vm_map(s.out_set).dom().len() {
            vm_map(s.out_set).dom().len() - vm_map(s.m).dom().len()
        } else {
            0
        }),
{
    let (ml, ol) = (vm_len(&s.m), vm_len(&s.out_set));
    if ml <= ol { ol - ml } else { 0 }
}

/// The state of the search for an isomorphism from `g0` to `g1`.
struct Search {
    check_obs: bool,
    s0: Side,
    s1: Side,
    buf: BitSet<u32>,
}

impl Search {
    spec fn inv(&self, g0: Game, g1: Game) -> bool {
        &&& g0.wf()
        &&& g1.wf()
        &&& g1.nloc() == g0.nloc()
        &&& self.check_obs ==> g1.n_agents() == g0.n_agents()
        &&& self.s0.inv(g0.nloc(), g0.n_agents())
        &&& self.s1.inv(g0.nloc(), g0.n_agents())
        &&& self.s0.mapped().dom().len() == self.s1.mapped().dom().len()
    }
}

/// The observations at `l` fit the observation maps of the search.
proof fn lemma_obs_fit(g: Game, l: int, na: nat)
    requires
        g.wf(),
        0 <= l < g.nloc(),
        na == g.n_agents(),
    ensures
        obs_fit(g.loc@[l].obs@, na),
        forall|t: int| 0 <= t < na ==> (#[trigger] g.loc@[l].obs@[t]).0 < g.obs@[t].len(),
{
    assert forall|t: int| 0 <= t < na implies ((#[trigger] g.loc@[l].obs@[t]).0 as int) < u32::MAX
        && g.loc@[l].obs@[t].0 < g.obs@[t].len() by {
        assert(g.obs@[t].len() <= u32::MAX);
    }
}

/// Maps `l0` and `l1` to each other.
fn add_mapping(search: &mut Search, g0: &Game, g1: &Game, l0: usize, l1: usize, obs0: &Vec<Obs>, obs1: &Vec<Obs>)
    requires
        old(search).inv(*g0, *g1),
        l0 < g0.nloc(),
        l1 < g0.nloc(),
        !old(search).s0.mapped().dom().contains(l0 as nat),
        !old(search).s1.mapped().dom().contains(l1 as nat),
        obs0@ == g0.loc@[l0 as int].obs@,
        obs1@ == g1.loc@[l1 as int].obs@,
    ensures
        final(search).inv(*g0, *g1),
        final(search).check_obs == old(search).check_obs,
        final(search).s0.mapped() == old(search).s0.mapped().insert(l0 as nat, l1 as u32),
        final(search).s1.mapped() == old(search).s1.mapped().insert(l1 as nat, l0 as u32),
{
    let ghost n = g0.nloc();
    let ghost na = g0.n_agents();
    proof {
        lemma_bounded_len(search.s0.mapped().dom().insert(l0 as nat), n);
        lemma_obs_fit(*g0, l0 as int, na);
        if search.check_obs {
            lemma_obs_fit(*g1, l1 as int, na);
        }
    }
    let depth = (vm_len(&search.s0.m) + 1) as u32;
    let check_obs = search.check_obs;
    add_side(&mut search.s0, g0, l0, l1 as u32, obs0, obs1, depth, check_obs, Ghost(na));
    add_side(&mut search.s1, g1, l1, l0 as u32, obs1, obs0, depth, check_obs, Ghost(na));
}

/// Undoes `add_mapping` of `l0` and `l1`.
fn remove_mapping(search: &mut Search, g0: &Game, g1: &Game, l0: usize, l1: usize, obs0: &Vec<Obs>, obs1: &Vec<Obs>)
    requires
        old(search).inv(*g0, *g1),
        l0 < g0.nloc(),
        l1 < g0.nloc(),
        old(search).s0.mapped().dom().contains(l0 as nat),
        old(search).s1.mapped().dom().contains(l1 as nat),
        obs0@ == g0.loc@[l0 as int].obs@,
        obs1@ == g1.loc@[l1 as int].obs@,
    ensures
        final(search).inv(*g0, *g1),
        final(search).check_obs == old(search).check_obs,
        final(search).s0.mapped() == old(search).s0.mapped().remove(l0 as nat),
        final(search).s1.mapped() == old(search).s1.mapped().remove(l1 as nat),
{
    let ghost n = g0.nloc();
    let ghost na = g0.n_agents();
    proof {
        lemma_bounded_len(search.s0.mapped().dom(), n);
        lemma_obs_fit(*g0, l0 as int, na);
        if search.check_obs {
            lemma_obs_fit(*g1, l1 as int, na);
        }
    }
    let depth = vm_len(&search.s0.m) as u32;
    let check_obs = search.check_obs;
    remove_side(&mut search.s0, g0, l0, obs0, depth, check_obs, Ghost(na));
    remove_side(&mut search.s1, g1, l1, obs1, depth, check_obs, Ghost(na));
}

/// The correspondence as a sequence, if it maps every location.
fn mapping_of(s: &Side, n: usize) -> (r: Option<Vec<Loc>>)
    ensures
        match r {
            Some(f) => f@.len() == n && forall|l: int| 0 <= l < n ==>
                #[trigger] s.mapped().dom().contains(l as nat) && f@[l] == Loc(s.mapped()[l as nat]),
            None => exists|l: int| 0 <= l < n && !#[trigger] s.mapped().dom().contains(l as nat),
        },
{
    let mut f: Vec<Loc> = Vec::new();
    let mut l: usize = 0;
    while l < n
        invariant
            l <= n,
            f@.len() == l,
            forall|x: int| 0 <= x < l ==>
                #[trigger] s.mapped().dom().contains(x as nat) && f@[x] == Loc(s.mapped()[x as nat]),
        decreases n - l,
    {
        match vm_get(&s.m, l) {
            Some(v) => f.push(Loc(v)),
            None => {
                proof {
                    let li: int = l as int;
                    assert(0 <= li < n && !s.mapped().dom().contains(li as nat));
                }
                return None;
            },
        }
        l = l + 1;
    }
    Some(f)
}

/// The correspondence `m` of the locations below `n`, as a sequence.
spec fn mapping_seq(m: Map<nat, u32>, n: nat) -> Seq<Loc> {
    Seq::new(n, |l: int| Loc(m[l as nat]))
}

/// The two sides have as many unmapped locations in each frontier, and as
/// many locations in the frontiers.
spec fn balanced(search: Search) -> bool {
    &&& side_tin(search.s0) == side_tin(search.s1)
    &&& side_tout(search.s0) == side_tout(search.s1)
    &&& search.s0.visited == search.s1.visited
}

/// The locations below `n` are `n` many.
proof fn lemma_nat_range_len(n: nat)
    ensures
        Set::new(|i: nat| i < n).finite(),
        Set::new(|i: nat| i < n).len() == n,
    decreases n,
{
    if n == 0 {
        assert(Set::new(|i: nat| i < n) =~= Set::<nat>::empty());
    } else {
        lemma_nat_range_len((n - 1) as nat);
        assert(Set::new(|i: nat| i < n) =~= Set::new(|i: nat| i < (n - 1) as nat).insert((n - 1) as nat));
    }
}

/// Extends the correspondence of `search` by depth-first search; true when
/// it is completed to an isomorphism. When it fails, the correspondence is
/// as it was. When every location is mapped already and the frontiers
/// balance, it answers exactly whether the correspondence is an
/// isomorphism.
fn iso(search: &mut Search, g0: &Game, g1: &Game) -> (r: bool)
    requires
        old(search).inv(*g0, *g1),
    ensures
        final(search).inv(*g0, *g1),
        final(search).check_obs == old(search).check_obs,
        r ==> isomorphic(*g0, *g1, old(search).check_obs),
        !r ==> final(search).s0.mapped() == old(search).s0.mapped()
            && final(search).s1.mapped() == old(search).s1.mapped(),
        (forall|l: nat| l < g0.nloc() ==> #[trigger] old(search).s0.mapped().dom().contains(l)) && balanced(*old(search))
            ==> r == is_iso_map(*g0, *g1, mapping_seq(old(search).s0.mapped(), g0.nloc()), old(search).check_obs),
    decreases g0.nloc() - old(search).s0.mapped().dom().len(),
{
    proof {
        if forall|l: nat| l < g0.nloc() ==> #[trigger] search.s0.mapped().dom().contains(l) {
            lemma_nat_range_len(g0.nloc());
            assert(search.s0.mapped().dom() =~= Set::new(|i: nat| i < g0.nloc()));
        }
    }
    if tin_len(&search.s0) != tin_len(&search.s1) || tout_len(&search.s0) != tout_len(&search.s1)
        || search.s0.visited != search.s1.visited {
        return false;
    }
    let n = g0.n_loc();
    proof {
        lemma_bounded_len(search.s0.mapped().dom(), n as nat);
    }
    if vm_len(&search.s0.m) == n {
        return match mapping_of(&search.s0, n) {
            Some(f) => {
                let r = check_iso_map(g0, g1, &f, search.check_obs);
                proof {
                    if r {
                        assert(is_iso_map(*g0, *g1, f@, search.check_obs));
                    }
                    assert forall|l: int| 0 <= l < f@.len() implies f@[l] == mapping_seq(search.s0.mapped(), g0.nloc())[l] by {
                        assert(search.s0.mapped().dom().contains(l as nat));
                    }
                    assert(f@ =~= mapping_seq(search.s0.mapped(), g0.nloc()));
                }
                r
            },
            None => false,
        };
    }
    let (o0, o1, i0, i1) = (tout_len(&search.s0) > 0, tout_len(&search.s1) > 0,
        tin_len(&search.s0) > 0, tin_len(&search.s1) > 0);
    let kind = if o0 && o1 && i0 == i1 {
        Frontier::Out
    } else if !o0 && !o1 && i0 && i1 {
        Frontier::In
    } else if !o0 && !o1 && !i0 && !i1 {
        Frontier::Unmapped
    } else {
        return false;
    };
    let ghost m0 = search.s0.mapped();
    let ghost m1 = search.s1.mapped();
    let ghost check_obs = search.check_obs;
    let mut l1: usize = 0;
    while l1 < n
        invariant
            n == g0.nloc(),
            search.inv(*g0, *g1),
            search.check_obs == check_obs,
            search.s0.mapped() == m0,
            search.s1.mapped() == m1,
            m0 == old(search).s0.mapped(),
            m1 == old(search).s1.mapped(),
            check_obs == old(search).check_obs,
            m0.dom().len() < n,
            !(forall|l: nat| l < g0.nloc() ==> #[trigger] m0.dom().contains(l)),
        decreases n - l1,
    {
        if is_candidate(&search.s1, &kind, l1) {
            let mut l0: usize = 0;
            while l0 < n
                invariant
                    n == g0.nloc(),
                    l1 < n,
                    !m1.dom().contains(l1 as nat),
                    search.inv(*g0, *g1),
                    search.check_obs == check_obs,
                    search.s0.mapped() == m0,
                    search.s1.mapped() == m1,
                    m0 == old(search).s0.mapped(),
                    m1 == old(search).s1.mapped(),
                    check_obs == old(search).check_obs,
                    m0.dom().len() < n,
                    !(forall|l: nat| l < g0.nloc() ==> #[trigger] m0.dom().contains(l)),
                decreases n - l0,
            {
                if is_candidate(&search.s0, &kind, l0)
                    && is_feasible(&mut search.buf, &search.s0.m, g0, g1, l0, l1) {
                    let obs0 = g0.observe(Loc(l0 as u32));
                    let obs1 = g1.observe(Loc(l1 as u32));
                    proof {
                        lemma_obs_fit(*g0, l0 as int, g0.n_agents());
                        lemma_obs_fit(*g1, l1 as int, g1.n_agents());
                    }
                    if is_obs_feasible(search.check_obs, &search.s0, &search.s1, g0, g1, &obs0, &obs1) {
                        add_mapping(search, g0, g1, l0, l1, &obs0, &obs1);
                        if iso(search, g0, g1) {
                            return true;
                        }
                        remove_mapping(search, g0, g1, l0, l1, &obs0, &obs1);
                        proof {
                            assert(search.s0.mapped() =~= m0);
                            assert(search.s1.mapped() =~= m1);
                        }
                    }
                }
                l0 = l0 + 1;
            }
            return false;
        }
        l1 = l1 + 1;
    }
    false
}

/// `f` is a prefix of `h`: the two agree on the locations `f` maps.
pub open spec fn is_prefix(f: Seq<Loc>, h: Seq<Loc>) -> bool {
    f.len() <= h.len() && forall|x: int| 0 <= x < f.len() ==> #[trigger] h[x] == f[x]
}

/// Some isomorphism maps the locations below `f.len()` as `f` does.
pub open spec fn iso_extends(g0: Game, g1: Game, check_obs: bool, f: Seq<Loc>) -> bool {
    exists|h: Seq<Loc>| #[trigger] is_iso_map(g0, g1, h, check_obs) && is_prefix(f, h)
}

/// The pruned search for an isomorphism: it extends a partial
/// correspondence from the initial locations, trying first the locations
/// next to those mapped, and pruning pairs whose goals, transitions to
/// mapped locations or observations disagree.
fn pruned_search(g0: &Game, g1: &Game, check_obs: bool) -> (r: bool)
    requires
        g0.wf(),
        g1.wf(),
    ensures
        r ==> isomorphic(*g0, *g1, check_obs),
{
    let n = g0.n_loc();
    if g1.n_loc() != n {
        return false;
    }
    let na = g0.n_actions.len();
    if check_obs {
        if g1.n_actions.len() != na {
            return false;
        }
        let mut t: usize = 0;
        while t < na
            invariant
                g0.wf(),
                g1.wf(),
                na == g0.n_agents(),
                g1.n_agents() == na,
            decreases na - t,
        {
            if g0.n_obs(agt(t)) != g1.n_obs(agt(t)) {
                return false;
            }
            t = t + 1;
        }
    }
    let mut search = Search { check_obs, s0: new_side(na), s1: new_side(na), buf: bs_new() };
    proof {
        assert(search.s0.mapped().dom() =~= Set::<nat>::empty());
        assert(search.s1.mapped().dom() =~= Set::<nat>::empty());
    }
    let obs0 = g0.observe(g0.l0());
    let obs1 = g1.observe(g1.l0());
    proof {
        lemma_obs_fit(*g0, 0, na as nat);
        lemma_obs_fit(*g1, 0, g1.n_agents());
    }
    if !is_feasible(&mut search.buf, &search.s0.m, g0, g1, 0, 0)
        || !is_obs_feasible(check_obs, &search.s0, &search.s1, g0, g1, &obs0, &obs1) {
        return false;
    }
    add_mapping(&mut search, g0, g1, 0, 0, &obs0, &obs1);
    iso(&mut search, g0, g1)
}

/// Mapping location `f.len()` to `t` is not ruled out by its goal, or by
/// the transitions between it and the locations `f` maps (`t` itself
/// included): false only when no isomorphism extends `f` by `t`.
fn consistent_at(g0: &Game, g1: &Game, check_obs: bool, f: &Vec<Loc>, t: Loc) -> (r: bool)
    requires
        g0.wf(),
        g1.wf(),
        g0.nloc() == g1.nloc(),
        f@.len() < g0.nloc(),
        (t.0 as int) < g0.nloc(),
        forall|x: int| 0 <= x < f@.len() ==> ((#[trigger] f@[x]).0 as int) < g0.nloc(),
    ensures
        !r ==> !iso_extends(*g0, *g1, check_obs, f@.push(t)),
{
    let l = f.len();
    let ghost f2 = f@.push(t);
    if g0.is_winning(Loc(l as u32)) != g1.is_winning(t) {
        proof {
            if iso_extends(*g0, *g1, check_obs, f2) {
                let h = choose|h: Seq<Loc>| #[trigger] is_iso_map(*g0, *g1, h, check_obs) && is_prefix(f2, h);
                assert(h[l as int] == f2[l as int]);
            }
        }
        return false;
    }
    let s0 = g0.successors(Loc(l as u32));
    let s1 = g1.successors(t);
    let mut k: usize = 0;
    while k < s0.len()
        invariant
            g0.wf(),
            g1.wf(),
            g0.nloc() == g1.nloc(),
            l == f@.len(),
            l < g0.nloc(),
            (t.0 as int) < g0.nloc(),
            f2 == f@.push(t),
            forall|x: int| 0 <= x < f@.len() ==> ((#[trigger] f@[x]).0 as int) < g0.nloc(),
            s0@.map_values(|e: (Profile, Loc)| edge_view(e)) == g0.succ(l as int),
            s1@.map_values(|e: (Profile, Loc)| edge_view(e)) == g1.succ(t.0 as int),
        decreases s0@.len() - k,
    {
        let tk = s0[k].1;
        if tk.index() <= l {
            let img = if tk.index() == l { t } else { f[tk.index()] };
            if !has_transition(s1, &s0[k].0, img) {
                proof {
                    assert(g0.succ(l as int)[k as int] == edge_view(s0@[k as int]));
                    assert(g0.succ(l as int).contains((s0@[k as int].0@, tk)));
                    assert(img == f2[tk.0 as int]);
                    if iso_extends(*g0, *g1, check_obs, f2) {
                        let h = choose|h: Seq<Loc>| #[trigger] is_iso_map(*g0, *g1, h, check_obs) && is_prefix(f2, h);
                        assert(h[l as int] == t);
                        assert(h[tk.0 as int] == img);
                        assert(Loc(tk.0 as u32) == tk);
                        assert(g0.has_edge(l as int, s0@[k as int].0@, Loc(tk.0 as u32)));
                    }
                }
                return false;
            }
        }
        k = k + 1;
    }
    let p0 = g0.predecessors(Loc(l as u32));
    let p1 = g1.predecessors(t);
    let mut k: usize = 0;
    while k < p0.len()
        invariant
            g0.wf(),
            g1.wf(),
            g0.nloc() == g1.nloc(),
            l == f@.len(),
            l < g0.nloc(),
            (t.0 as int) < g0.nloc(),
            f2 == f@.push(t),
            forall|x: int| 0 <= x < f@.len() ==> ((#[trigger] f@[x]).0 as int) < g0.nloc(),
            p0@.map_values(|e: (Profile, Loc)| edge_view(e)) == g0.pred(l as int),
            p1@.map_values(|e: (Profile, Loc)| edge_view(e)) == g1.pred(t.0 as int),
        decreases p0@.len() - k,
    {
        let tk = p0[k].1;
        if tk.index() <= l {
            let img = if tk.index() == l { t } else { f[tk.index()] };
            if !has_transition(p1, &p0[k].0, img) {
                proof {
                    let a = p0@[k as int].0@;
                    assert(g0.pred(l as int)[k as int] == edge_view(p0@[k as int]));
                    assert(g0.pred(l as int).contains((a, tk)));
                    assert(img == f2[tk.0 as int]);
                    if iso_extends(*g0, *g1, check_obs, f2) {
                        let h = choose|h: Seq<Loc>| #[trigger] is_iso_map(*g0, *g1, h, check_obs) && is_prefix(f2, h);
                        assert(h[l as int] == t);
                        assert(h[tk.0 as int] == img);
                        assert(Loc(tk.0 as u32) == tk);
                        assert(Loc(l as u32) == Loc((l as int) as u32));
                        assert(g0.pred(l as int).contains((a, Loc(tk.0 as u32))));
                        assert(g0.succ(tk.0 as int).contains((a, Loc(l as u32))));
                        assert(g0.has_edge(tk.0 as int, a, Loc(l as u32)));
                        assert(g1.has_edge(h[tk.0 as int].0 as int, a, h[l as int]));
                        assert(Loc(t.0 as u32) == t);
                        assert(Loc(img.0 as u32) == img);
                        assert(g1.succ(img.0 as int).contains((a, Loc(t.0 as u32))));
                        assert(g1.pred(t.0 as int).contains((a, Loc(img.0 as u32))));
                    }
                }
                return false;
            }
        }
        k = k + 1;
    }
    true
}

/// Extends the correspondence `f` of the locations below `f.len()` (whose
/// images `used` marks) in every way, location by location, and checks each
/// complete one; true when one is an isomorphism. `f` and `used` come back
/// as they were.
fn complete_search(g0: &Game, g1: &Game, check_obs: bool, f: &mut Vec<Loc>, used: &mut Vec<bool>) -> (r: bool)
    requires
        g0.wf(),
        g1.wf(),
        g0.nloc() == g1.nloc(),
        old(f)@.len() <= g0.nloc(),
        old(used)@.len() == g0.nloc(),
        forall|x: int| 0 <= x < old(f)@.len() ==> ((#[trigger] old(f)@[x]).0 as int) < g0.nloc(),
        forall|y: int| 0 <= y < g0.nloc() && #[trigger] old(used)@[y] ==>
            exists|x: int| 0 <= x < old(f)@.len() && #[trigger] old(f)@[x] == Loc(y as u32),
    ensures
        final(f)@ == old(f)@,
        final(used)@ == old(used)@,
        r ==> isomorphic(*g0, *g1, check_obs),
        !r ==> !iso_extends(*g0, *g1, check_obs, old(f)@),
    decreases g0.nloc() - old(f)@.len(),
{
    let n = g0.n_loc();
    let ghost f0 = f@;
    if f.len() == n {
        let r = check_iso_map(g0, g1, f, check_obs);
        proof {
            if !r && iso_extends(*g0, *g1, check_obs, f0) {
                let h = choose|h: Seq<Loc>| #[trigger] is_iso_map(*g0, *g1, h, check_obs) && is_prefix(f0, h);
                assert(h =~= f0);
            }
        }
        return r;
    }
    let l = f.len();
    let ghost u0 = used@;
    let mut t: usize = 0;
    while t < n
        invariant
            g0.wf(),
            g1.wf(),
            g0.nloc() == g1.nloc(),
            n == g0.nloc(),
            l == f0.len(),
            l < n,
            f@ == f0,
            used@ == u0,
            f0 == old(f)@,
            u0 == old(used)@,
            u0.len() == n,
            t <= n,
            forall|x: int| 0 <= x < f0.len() ==> ((#[trigger] f0[x]).0 as int) < n,
            forall|y: int| 0 <= y < n && #[trigger] u0[y] ==>
                exists|x: int| 0 <= x < f0.len() && #[trigger] f0[x] == Loc(y as u32),
            forall|y: int| 0 <= y < t ==> !iso_extends(*g0, *g1, check_obs, #[trigger] f0.push(Loc(y as u32))),
        decreases n - t,
    {
        let tl = Loc(t as u32);
        if used[t] {
            proof {
                if iso_extends(*g0, *g1, check_obs, f0.push(tl)) {
                    let h = choose|h: Seq<Loc>| #[trigger] is_iso_map(*g0, *g1, h, check_obs) && is_prefix(f0.push(tl), h);
                    let x = choose|x: int| 0 <= x < f0.len() && #[trigger] f0[x] == Loc(t as u32);
                    assert(h[x] == f0.push(tl)[x]);
                    assert(h[l as int] == f0.push(tl)[l as int]);
                    assert(h[x] == h[l as int]);
                }
            }
        } else if consistent_at(g0, g1, check_obs, f, tl) {
            f.push(tl);
            used.set(t, true);
            proof {
                assert forall|y: int| 0 <= y < n && #[trigger] used@[y] implies
                    exists|x: int| 0 <= x < f@.len() && #[trigger] f@[x] == Loc(y as u32) by {
                    if y == t {
                        assert(f@[l as int] == Loc(y as u32));
                    } else {
                        assert(u0[y]);
                        let x = choose|x: int| 0 <= x < f0.len() && #[trigger] f0[x] == Loc(y as u32);
                        assert(f@[x] == f0[x]);
                    }
                }
            }
            proof {
                assert(f@.len() == f0.len() + 1);
                assert(g0.nloc() - f@.len() < g0.nloc() - f0.len());
            }
            let found = complete_search(g0, g1, check_obs, f, used);
            f.pop();
            used.set(t, false);
            proof {
                assert(f@ =~= f0);
                assert(used@ =~= u0);
            }
            if found {
                return true;
            }
        }
        t = t + 1;
    }
    proof {
        if iso_extends(*g0, *g1, check_obs, f0) {
            let h = choose|h: Seq<Loc>| #[trigger] is_iso_map(*g0, *g1, h, check_obs) && is_prefix(f0, h);
            let y = h[l as int].0 as int;
            assert(Loc(y as u32) == h[l as int]);
            assert(is_prefix(f0.push(Loc(y as u32)), h));
            assert(!iso_extends(*g0, *g1, check_obs, f0.push(Loc(y as u32))));
        }
    }
    false
}

/// Whether the games are isomorphic: whether some one-to-one
/// correspondence of their locations maps the initial location to the
/// initial location and keeps goals and transitions, and, with
/// `check_obs`, which locations each agent can tell apart. The pruned
/// search (`pruned_search`) settles most cases; when it finds nothing, a
/// search over all correspondences, location by location and pruned only
/// by goals and transitions among the mapped locations, settles the rest.
pub fn is_isomorphic(g0: &Game, g1: &Game, check_obs: bool) -> (r: bool)
    requires
        g0.wf(),
        g1.wf(),
    ensures
        r == isomorphic(*g0, *g1, check_obs),
{
    let n = g0.n_loc();
    if g1.n_loc() != n {
        return false;
    }
    if pruned_search(g0, g1, check_obs) {
        return true;
    }
    let mut f: Vec<Loc> = Vec::new();
    let mut used: Vec<bool> = Vec::new();
    let mut y: usize = 0;
    while y < n
        invariant
            y <= n,
            used@.len() == y,
            forall|x: int| 0 <= x < y ==> !#[trigger] used@[x],
        decreases n - y,
    {
        used.push(false);
        y = y + 1;
    }
    let r = complete_search(g0, g1, check_obs, &mut f, &mut used);
    proof {
        if !r && isomorphic(*g0, *g1, check_obs) {
            let h = choose|h: Seq<Loc>| #[trigger] is_iso_map(*g0, *g1, h, check_obs);
            assert(is_prefix(Seq::<Loc>::empty(), h));
            assert(f@ =~= Seq::<Loc>::empty());
        }
    }
    r
}

} // verus!
