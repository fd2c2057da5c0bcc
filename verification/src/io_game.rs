//! Games described by a list of statements: agents, actions, locations,
//! goals, the initial location, observations and transitions, all by name.

use vstd::prelude::*;
use crate::types::{Loc, Obs, Act};
use crate::game::{Profile, edge_view};
use crate::symbol::{Symbol, find_symbol};
use crate::union_find::{Partition, uf_reps, reps_ok, merged_into, uf_new, uf_union, uf_find};
use crate::construct::{AbstractGame, valid_profile_for};
use crate::order::{sorted_edges, insert_sorted};

verus! {

/// One statement of a game description.
#[derive(Debug)]
pub enum Statement {
    Agt(Vec<Symbol>),
    Act(Vec<Symbol>),
    Loc(Vec<Symbol>),
    Reach(Vec<Symbol>),
    L0(Symbol),
    /// An agent, and the groups of locations it cannot tell apart.
    Obs(Symbol, Vec<Vec<Symbol>>),
    /// Transitions: source, one action per agent, target.
    Delta(Vec<(Symbol, Vec<Symbol>, Symbol)>),
}

/// Why a description is not a game.
#[derive(Debug)]
pub enum IOGameError {
    DuplicateAgent(Symbol),
    DuplicateAction(Symbol),
    DuplicateLocation(Symbol),
    /// The number of agents is not between 1 and 8.
    UnsupportedAgents(usize),
    L0Multiple,
    UndefinedLocation(Symbol),
    UndefinedAgent(Symbol),
    UndefinedAction(Symbol),
    /// A transition has the wrong number of actions: expected, found.
    WrongActionCount(usize, usize),
    L0Undefined,
}

/// Something odd but harmless in a description.
#[derive(Debug)]
pub enum Warning {
    DuplicateReach(Symbol),
    DuplicateTransition(Symbol, Vec<Symbol>, Symbol),
}

pub open spec fn sym_views(l: Seq<Symbol>) -> Seq<Seq<char>> {
    l.map_values(|s: Symbol| s@)
}

/// The kinds of names a statement declares.
pub open spec fn decl_names(s: Statement, kind: int) -> Seq<Seq<char>> {
    match s {
        Statement::Agt(l) => if kind == 0 { sym_views(l@) } else { Seq::empty() },
        Statement::Act(l) => if kind == 1 { sym_views(l@) } else { Seq::empty() },
        Statement::Loc(l) => if kind == 2 { sym_views(l@) } else { Seq::empty() },
        Statement::Reach(l) => if kind == 3 { sym_views(l@) } else { Seq::empty() },
        _ => Seq::empty(),
    }
}

/// All the names of one kind (0 agents, 1 actions, 2 locations, 3 goals)
/// declared by `v`, in order.
pub open spec fn all_decls(v: Seq<Statement>, kind: int) -> Seq<Seq<char>>
    decreases v.len(),
{
    if v.len() == 0 {
        Seq::empty()
    } else {
        all_decls(v.drop_last(), kind) + decl_names(v.last(), kind)
    }
}

pub open spec fn agent_names(v: Seq<Statement>) -> Seq<Seq<char>> {
    all_decls(v, 0)
}

pub open spec fn action_names(v: Seq<Statement>) -> Seq<Seq<char>> {
    all_decls(v, 1)
}

pub open spec fn location_names(v: Seq<Statement>) -> Seq<Seq<char>> {
    all_decls(v, 2)
}

pub open spec fn goal_names(v: Seq<Statement>) -> Seq<Seq<char>> {
    all_decls(v, 3)
}

/// The statement is well formed with respect to the declared names.
pub open spec fn statement_ok(v: Seq<Statement>, s: Statement) -> bool {
    match s {
        Statement::L0(l) => location_names(v).contains(l@),
        Statement::Obs(a, groups) => {
            &&& agent_names(v).contains(a@)
            &&& forall|g: int, p: int| 0 <= g < groups@.len() && 0 <= p < groups@[g]@.len() - 1 ==>
                location_names(v).contains((#[trigger] groups@[g]@[p])@)
            &&& forall|g: int, p: int| 0 <= g < groups@.len() && 0 <= p < groups@[g]@.len() - 1 ==>
                location_names(v).contains((#[trigger] groups@[g]@[p + 1])@)
        },
        Statement::Delta(list) => forall|k: int| 0 <= k < list@.len() ==>
            entry_ok(#[trigger] list@[k], agent_names(v).len() as int, location_names(v), action_names(v)),
        _ => true,
    }
}

/// The transition `e` names declared locations and actions, one action
/// for each of the `n` agents.
pub open spec fn entry_ok(e: (Symbol, Vec<Symbol>, Symbol), n: int, locs: Seq<Seq<char>>, acts: Seq<Seq<char>>) -> bool {
    &&& locs.contains(e.0@)
    &&& e.1@.len() == n
    &&& forall|p: int| 0 <= p < e.1@.len() ==> acts.contains((#[trigger] e.1@[p])@)
    &&& locs.contains(e.2@)
}

pub open spec fn is_l0(s: Statement) -> bool {
    s is L0
}

/// `v` describes a game: no name is declared twice, there are between 1
/// and 8 agents, exactly one initial location, and every name used is
/// declared, with one action per agent in each transition.
pub open spec fn description_ok(v: Seq<Statement>) -> bool {
    &&& agent_names(v).no_duplicates()
    &&& action_names(v).no_duplicates()
    &&& location_names(v).no_duplicates()
    &&& 1 <= agent_names(v).len() <= 8
    &&& exists|i: int| 0 <= i < v.len() && #[trigger] is_l0(v[i])
    &&& forall|i: int, j: int| 0 <= i < v.len() && 0 <= j < v.len() && #[trigger] is_l0(v[i]) && #[trigger] is_l0(v[j]) ==> i == j
    &&& forall|i: int| 0 <= i < v.len() ==> statement_ok(v, #[trigger] v[i])
}


/// `x` occurs at least twice in `names`.
pub open spec fn dup_in(names: Seq<Seq<char>>, x: Seq<char>) -> bool {
    exists|i: int, j: int| 0 <= i < j < names.len() && #[trigger] names[i] == x && #[trigger] names[j] == x
}

proof fn lemma_decls_split(v: Seq<Statement>, i: int, kind: int)
    requires 0 <= i <= v.len(),
    ensures all_decls(v, kind) == all_decls(v.subrange(0, i), kind) + all_decls(v.subrange(i, v.len() as int), kind),
    decreases v.len(),
{
    if i == v.len() {
        assert(v.subrange(0, i) =~= v);
        assert(v.subrange(i, v.len() as int) =~= Seq::<Statement>::empty());
        assert(all_decls(v, kind) + Seq::empty() =~= all_decls(v, kind));
    } else {
        let w = v.drop_last();
        lemma_decls_split(w, i, kind);
        assert(w.subrange(0, i) =~= v.subrange(0, i));
        let t = v.subrange(i, v.len() as int);
        assert(t.drop_last() =~= w.subrange(i, w.len() as int));
        assert(t.last() == v.last());
        assert(all_decls(t, kind) == all_decls(t.drop_last(), kind) + decl_names(t.last(), kind));
        assert(all_decls(v, kind) =~= all_decls(v.subrange(0, i), kind) + all_decls(t, kind));
    }
}

proof fn lemma_decls_step(v: Seq<Statement>, i: int, kind: int)
    requires 0 <= i < v.len(),
    ensures all_decls(v.subrange(0, i + 1), kind) == all_decls(v.subrange(0, i), kind) + decl_names(v[i], kind),
{
    assert(v.subrange(0, i + 1).drop_last() =~= v.subrange(0, i));
}

proof fn lemma_dup_prefix(p: Seq<Seq<char>>, q: Seq<Seq<char>>, x: Seq<char>)
    requires dup_in(p, x),
    ensures dup_in(p + q, x),
{
    let (i, j) = choose|i: int, j: int| 0 <= i < j < p.len() && #[trigger] p[i] == x && #[trigger] p[j] == x;
    assert((p + q)[i] == x && (p + q)[j] == x);
}

/// Appends the names of `list` to `names`, stopping at the first one that
/// is there already, which it returns.
fn declare(names: &mut Vec<Symbol>, list: &Vec<Symbol>) -> (dup: Option<Symbol>)
    requires sym_views(old(names)@).no_duplicates(),
    ensures
        match dup {
            None => sym_views(final(names)@) == sym_views(old(names)@) + sym_views(list@)
                && sym_views(final(names)@).no_duplicates(),
            Some(s) => dup_in(sym_views(old(names)@) + sym_views(list@), s@),
        },
{
    let ghost n0 = sym_views(names@);
    let mut k: usize = 0;
    while k < list.len()
        invariant
            k <= list@.len(),
            n0 == sym_views(old(names)@),
            sym_views(names@) == n0 + sym_views(list@).subrange(0, k as int),
            sym_views(names@).no_duplicates(),
        decreases list@.len() - k,
    {
        let ghost cur = sym_views(names@);
        match find_symbol(names, &list[k]) {
            Some(j) => {
                proof {
                    let all = n0 + sym_views(list@);
                    let x = list@[k as int]@;
                    assert(cur.len() == n0.len() + k);
                    assert(cur[j as int] == names@[j as int]@);
                    if (j as int) < n0.len() {
                        assert(all[j as int] == n0[j as int] && cur[j as int] == n0[j as int]);
                    } else {
                        assert(all[j as int] == sym_views(list@)[j - n0.len()]);
                        assert(cur[j as int] == sym_views(list@).subrange(0, k as int)[j - n0.len()]);
                    }
                    assert(all[j as int] == x);
                    assert(all[n0.len() + k] == x);
                    assert(dup_in(all, x));
                }
                let r = list[k].copy();
                assert(dup_in(sym_views(old(names)@) + sym_views(list@), r@));
                return Some(r);
            },
            None => {
                names.push(list[k].copy());
                proof {
                    let nv = sym_views(names@);
                    assert(nv =~= cur.push(list@[k as int]@));
                    assert(nv =~= n0 + sym_views(list@).subrange(0, k + 1));
                    assert forall|x: int, y: int| 0 <= x < y < nv.len() implies nv[x] != nv[y] by {
                        if y == cur.len() {
                            assert(cur[x] == names@[x]@);
                        }
                    }
                }
            },
        }
        k = k + 1;
    }
    assert(sym_views(list@).subrange(0, list@.len() as int) =~= sym_views(list@));
    None
}

/// The declared names of a description: agents, actions, locations and
/// goals (each goal once).
pub struct Declarations {
    pub agents: Vec<Symbol>,
    pub actions: Vec<Symbol>,
    pub locations: Vec<Symbol>,
    pub reach: Vec<Symbol>,
}

/// Collects the declarations of `v`; fails on the first name declared
/// twice. A goal listed twice is a warning.
fn scan_declarations(v: &Vec<Statement>, warnings: &mut Vec<Warning>) -> (r: Result<Declarations, IOGameError>)
    ensures
        match r {
            Ok(d) => {
                &&& sym_views(d.agents@) == agent_names(v@)
                &&& sym_views(d.actions@) == action_names(v@)
                &&& sym_views(d.locations@) == location_names(v@)
                &&& agent_names(v@).no_duplicates()
                &&& action_names(v@).no_duplicates()
                &&& location_names(v@).no_duplicates()
                &&& forall|x: Seq<char>| sym_views(d.reach@).contains(x) <==> goal_names(v@).contains(x)
            },
            Err(e) => match e {
                IOGameError::DuplicateAgent(s) => dup_in(agent_names(v@), s@),
                IOGameError::DuplicateAction(s) => dup_in(action_names(v@), s@),
                IOGameError::DuplicateLocation(s) => dup_in(location_names(v@), s@),
                _ => false,
            },
        },
{
    let mut agents: Vec<Symbol> = Vec::new();
    let mut actions: Vec<Symbol> = Vec::new();
    let mut locations: Vec<Symbol> = Vec::new();
    let mut reach: Vec<Symbol> = Vec::new();
    let mut i: usize = 0;
    proof {
        assert(sym_views(agents@) =~= Seq::<Seq<char>>::empty());
        assert(sym_views(actions@) =~= Seq::<Seq<char>>::empty());
        assert(sym_views(locations@) =~= Seq::<Seq<char>>::empty());
        assert(sym_views(reach@) =~= Seq::<Seq<char>>::empty());
        assert(v@.subrange(0, 0) =~= Seq::<Statement>::empty());
    }
    while i < v.len()
        invariant
            i <= v@.len(),
            sym_views(agents@) == all_decls(v@.subrange(0, i as int), 0),
            sym_views(actions@) == all_decls(v@.subrange(0, i as int), 1),
            sym_views(locations@) == all_decls(v@.subrange(0, i as int), 2),
            sym_views(agents@).no_duplicates(),
            sym_views(actions@).no_duplicates(),
            sym_views(locations@).no_duplicates(),
            forall|x: Seq<char>| sym_views(reach@).contains(x) <==> all_decls(v@.subrange(0, i as int), 3).contains(x),
        decreases v@.len() - i,
    {
        proof {
            lemma_decls_step(v@, i as int, 0);
            lemma_decls_step(v@, i as int, 1);
            lemma_decls_step(v@, i as int, 2);
            lemma_decls_step(v@, i as int, 3);
            lemma_decls_split(v@, i as int + 1, 0);
            lemma_decls_split(v@, i as int + 1, 1);
            lemma_decls_split(v@, i as int + 1, 2);
            assert(all_decls(v@.subrange(0, i as int), 0) + Seq::<Seq<char>>::empty() =~= all_decls(v@.subrange(0, i as int), 0));
            assert(all_decls(v@.subrange(0, i as int), 1) + Seq::<Seq<char>>::empty() =~= all_decls(v@.subrange(0, i as int), 1));
            assert(all_decls(v@.subrange(0, i as int), 2) + Seq::<Seq<char>>::empty() =~= all_decls(v@.subrange(0, i as int), 2));
        }
        match &v[i] {
            Statement::Agt(list) => {
                assert(decl_names(v@[i as int], 0) == sym_views(list@));
                match declare(&mut agents, list) {
                    Some(s) => {
                        proof { lemma_dup_prefix(all_decls(v@.subrange(0, i as int + 1), 0), all_decls(v@.subrange(i as int + 1, v@.len() as int), 0), s@); }
                        return Err(IOGameError::DuplicateAgent(s));
                    },
                    None => {},
                }
                assert(sym_views(agents@) == all_decls(v@.subrange(0, i as int + 1), 0));
            },
            Statement::Act(list) => {
                assert(decl_names(v@[i as int], 1) == sym_views(list@));
                match declare(&mut actions, list) {
                    Some(s) => {
                        proof { lemma_dup_prefix(all_decls(v@.subrange(0, i as int + 1), 1), all_decls(v@.subrange(i as int + 1, v@.len() as int), 1), s@); }
                        return Err(IOGameError::DuplicateAction(s));
                    },
                    None => {},
                }
            },
            Statement::Loc(list) => {
                assert(decl_names(v@[i as int], 2) == sym_views(list@));
                match declare(&mut locations, list) {
                    Some(s) => {
                        proof { lemma_dup_prefix(all_decls(v@.subrange(0, i as int + 1), 2), all_decls(v@.subrange(i as int + 1, v@.len() as int), 2), s@); }
                        return Err(IOGameError::DuplicateLocation(s));
                    },
                    None => {},
                }
            },
            Statement::Reach(list) => {
                let ghost r0 = sym_views(reach@);
                let mut k: usize = 0;
                while k < list.len()
                    invariant
                        k <= list@.len(),
                        forall|x: Seq<char>| sym_views(reach@).contains(x)
                            <==> (r0.contains(x) || sym_views(list@).subrange(0, k as int).contains(x)),
                    decreases list@.len() - k,
                {
                    let ghost cur = sym_views(reach@);
                    assert(forall|x: Seq<char>| cur.contains(x)
                        <==> (r0.contains(x) || sym_views(list@).subrange(0, k as int).contains(x)));
                    match find_symbol(&reach, &list[k]) {
                        Some(j) => {
                            proof {
                                assert(cur[j as int] == reach@[j as int]@);
                                assert(cur.contains(list@[k as int]@));
                            }
                            warnings.push(Warning::DuplicateReach(list[k].copy()));
                            assert(sym_views(reach@) == cur && cur.contains(list@[k as int]@));
                            assert(sym_views(reach@).contains(list@[k as int]@));
                        },
                        None => {
                            reach.push(list[k].copy());
                            proof {
                                assert(sym_views(reach@) =~= cur.push(list@[k as int]@));
                                assert(sym_views(reach@)[cur.len() as int] == list@[k as int]@);
                            }
                        },
                    }
                    proof {
                        let sk = sym_views(list@).subrange(0, k as int);
                        let sk1 = sym_views(list@).subrange(0, k as int + 1);
                        let nv = sym_views(reach@);
                        let y = list@[k as int]@;
                        assert(sk1 =~= sk.push(y));
                        assert(nv.contains(y));
                        assert forall|x: Seq<char>| nv.contains(x) implies (r0.contains(x) || sk1.contains(x)) by {
                            let q = choose|q: int| 0 <= q < nv.len() && nv[q] == x;
                            if q < cur.len() {
                                assert(cur[q] == x);
                                assert(cur.contains(x));
                                if sk.contains(x) {
                                    let q2 = choose|q2: int| 0 <= q2 < sk.len() && sk[q2] == x;
                                    assert(sk1[q2] == x);
                                }
                            } else {
                                assert(x == y);
                                assert(sk1[k as int] == y);
                            }
                        }
                        assert forall|x: Seq<char>| (r0.contains(x) || sk1.contains(x)) implies nv.contains(x) by {
                            if sk1.contains(x) {
                                let q = choose|q: int| 0 <= q < sk1.len() && sk1[q] == x;
                                if q < k {
                                    assert(sk[q] == x);
                                } else {
                                    assert(x == y);
                                }
                            }
                            if x != y {
                                assert(cur.contains(x));
                                let q = choose|q: int| 0 <= q < cur.len() && cur[q] == x;
                                assert(nv[q] == x);
                            }
                        }
                    }
                    k = k + 1;
                }
                proof {
                    assert(sym_views(list@).subrange(0, list@.len() as int) =~= sym_views(list@));
                    assert(decl_names(v@[i as int], 0) =~= Seq::<Seq<char>>::empty());
                    assert(sym_views(agents@) == all_decls(v@.subrange(0, i as int + 1), 0));
                    assert(decl_names(v@[i as int], 3) == sym_views(list@));
                    assert forall|x: Seq<char>| sym_views(reach@).contains(x) <==> (all_decls(v@.subrange(0, i as int), 3).contains(x)
                        || decl_names(v@[i as int], 3).contains(x)) by {
                        assert(r0.contains(x) <==> all_decls(v@.subrange(0, i as int), 3).contains(x));
                    }
                }
            },
            _ => {
                assert(decl_names(v@[i as int], 0) =~= Seq::<Seq<char>>::empty());
                assert(sym_views(agents@) == all_decls(v@.subrange(0, i as int + 1), 0));
            },
        }
        proof {
            if !(v@[i as int] is Agt) {
                assert(decl_names(v@[i as int], 0) =~= Seq::<Seq<char>>::empty());
            }
            if !(v@[i as int] is Act) {
                assert(decl_names(v@[i as int], 1) =~= Seq::<Seq<char>>::empty());
            }
            if !(v@[i as int] is Loc) {
                assert(decl_names(v@[i as int], 2) =~= Seq::<Seq<char>>::empty());
            }
            if !(v@[i as int] is Reach) {
                assert(decl_names(v@[i as int], 3) =~= Seq::<Seq<char>>::empty());
            }
            assert(sym_views(agents@) == all_decls(v@.subrange(0, i as int + 1), 0));
            assert(sym_views(actions@) == all_decls(v@.subrange(0, i as int + 1), 1));
            let p = all_decls(v@.subrange(0, i as int), 3);
            let dn = decl_names(v@[i as int], 3);
            assert forall|x: Seq<char>| (p + dn).contains(x) <==> (p.contains(x) || dn.contains(x)) by {
                if (p + dn).contains(x) {
                    let q = choose|q: int| 0 <= q < (p + dn).len() && (p + dn)[q] == x;
                    if q < p.len() { assert(p[q] == x); } else { assert(dn[q - p.len()] == x); }
                }
                if p.contains(x) {
                    let q = choose|q: int| 0 <= q < p.len() && p[q] == x;
                    assert((p + dn)[q] == x);
                }
                if dn.contains(x) {
                    let q = choose|q: int| 0 <= q < dn.len() && dn[q] == x;
                    assert((p + dn)[q + p.len()] == x);
                }
            }
            if !(v@[i as int] is Reach) {
                assert forall|x: Seq<char>| sym_views(reach@).contains(x) <==> (p.contains(x) || dn.contains(x)) by {
                    assert(!dn.contains(x));
                }
            }
            assert forall|x: Seq<char>| sym_views(reach@).contains(x) <==> all_decls(v@.subrange(0, i as int + 1), 3).contains(x) by {
                assert((p + dn).contains(x) <==> (p.contains(x) || dn.contains(x)));
                assert(sym_views(reach@).contains(x) <==> (p.contains(x) || dn.contains(x)));
            }
        }
        i = i + 1;
    }
    proof {
        assert(v@.subrange(0, v@.len() as int) =~= v@);
    }
    Ok(Declarations { agents, actions, locations, reach })
}


/// The position of the name `x` in `names`.
pub open spec fn name_index(names: Seq<Seq<char>>, x: Seq<char>) -> int {
    choose|i: int| 0 <= i < names.len() && names[i] == x
}

/// The pairs of neighbours in the group `g`, as location numbers.
pub open spec fn window_pairs(g: Seq<Seq<char>>, locs: Seq<Seq<char>>) -> Seq<(int, int)>
    decreases g.len(),
{
    if g.len() < 2 {
        Seq::empty()
    } else {
        window_pairs(g.drop_last(), locs).push((name_index(locs, g[g.len() - 2]), name_index(locs, g.last())))
    }
}

pub open spec fn groups_pairs(gs: Seq<Vec<Symbol>>, locs: Seq<Seq<char>>) -> Seq<(int, int)>
    decreases gs.len(),
{
    if gs.len() == 0 {
        Seq::empty()
    } else {
        groups_pairs(gs.drop_last(), locs) + window_pairs(sym_views(gs.last()@), locs)
    }
}

pub open spec fn stmt_pairs(s: Statement, agent: Seq<char>, locs: Seq<Seq<char>>) -> Seq<(int, int)> {
    match s {
        Statement::Obs(a, groups) => if a@ == agent { groups_pairs(groups@, locs) } else { Seq::empty() },
        _ => Seq::empty(),
    }
}

/// The pairs of locations that the statements of `v` say `agent` cannot
/// tell apart, in order.
pub open spec fn obs_pairs(v: Seq<Statement>, agent: Seq<char>, locs: Seq<Seq<char>>) -> Seq<(int, int)>
    decreases v.len(),
{
    if v.len() == 0 {
        Seq::empty()
    } else {
        obs_pairs(v.drop_last(), agent, locs) + stmt_pairs(v.last(), agent, locs)
    }
}

/// `x` and `y` are in the same class of the partition made by joining the
/// classes of each pair in turn, starting from singletons.
pub open spec fn same_class(pairs: Seq<(int, int)>, x: int, y: int) -> bool
    decreases pairs.len(),
{
    if pairs.len() == 0 {
        x == y
    } else {
        let p = pairs.drop_last();
        let (a, b) = pairs.last();
        same_class(p, x, y) || ((same_class(p, x, a) || same_class(p, x, b))
            && (same_class(p, y, a) || same_class(p, y, b)))
    }
}

/// The transition `e` (source, actions, target) is `j --a--> m`.
pub open spec fn entry_means(
    e: (Symbol, Vec<Symbol>, Symbol),
    locs: Seq<Seq<char>>,
    acts: Seq<Seq<char>>,
    j: int,
    a: Seq<Act>,
    m: int,
) -> bool {
    &&& e.0@ == locs[j]
    &&& e.2@ == locs[m]
    &&& e.1@.len() == a.len()
    &&& forall|p: int| 0 <= p < a.len() ==> (#[trigger] a[p]).0 < acts.len() && acts[a[p].0 as int] == e.1@[p]@
}

/// One of the first `kb` transitions of the statement `s` is `j --a--> m`.
pub open spec fn stmt_has_edge(s: Statement, kb: int, locs: Seq<Seq<char>>, acts: Seq<Seq<char>>, j: int, a: Seq<Act>, m: int) -> bool {
    match s {
        Statement::Delta(list) => exists|k: int| 0 <= k < kb && k < list@.len()
            && #[trigger] entry_means(list@[k], locs, acts, j, a, m),
        _ => false,
    }
}

/// The statements of `v` give the transition `j --a--> m`.
pub open spec fn described_edge(v: Seq<Statement>, locs: Seq<Seq<char>>, acts: Seq<Seq<char>>, j: int, a: Seq<Act>, m: int) -> bool {
    exists|i: int| 0 <= i < v.len() && #[trigger] stmt_has_edge(v[i], v[i]->Delta_0@.len() as int, locs, acts, j, a, m)
}


/// The pair view of a list of location numbers.
pub open spec fn pair_view(v: Seq<(u32, u32)>) -> Seq<(int, int)> {
    v.map_values(|p: (u32, u32)| (p.0 as int, p.1 as int))
}

/// Appends the neighbour pairs of the groups to `pairs`; returns the
/// first name in a pair that is not a location, if any.
fn obs_statement(pairs: &mut Vec<(u32, u32)>, groups: &Vec<Vec<Symbol>>, locs: &Vec<Symbol>) -> (r: Option<Symbol>)
    requires
        sym_views(locs@).no_duplicates(),
        locs@.len() <= u32::MAX,
        forall|q: int| 0 <= q < old(pairs)@.len() ==> (#[trigger] old(pairs)@[q]).0 < locs@.len() && old(pairs)@[q].1 < locs@.len(),
    ensures
        forall|q: int| 0 <= q < final(pairs)@.len() ==> (#[trigger] final(pairs)@[q]).0 < locs@.len() && final(pairs)@[q].1 < locs@.len(),
        match r {
            None => {
                &&& pair_view(final(pairs)@) == pair_view(old(pairs)@) + groups_pairs(groups@, sym_views(locs@))
                &&& forall|g: int, p: int| 0 <= g < groups@.len() && 0 <= p < groups@[g]@.len() - 1 ==>
                    sym_views(locs@).contains((#[trigger] groups@[g]@[p])@)
                &&& forall|g: int, p: int| 0 <= g < groups@.len() && 0 <= p < groups@[g]@.len() - 1 ==>
                    sym_views(locs@).contains((#[trigger] groups@[g]@[p + 1])@)
            },
            Some(s) => {
                &&& !sym_views(locs@).contains(s@)
                &&& exists|g: int, p: int| 0 <= g < groups@.len() && 0 <= p < groups@[g]@.len() - 1
                    && ((#[trigger] groups@[g]@[p])@ == s@ || groups@[g]@[p + 1]@ == s@)
            },
        },
{
    let ghost lv = sym_views(locs@);
    let ghost p0 = pair_view(pairs@);
    let mut gi: usize = 0;
    while gi < groups.len()
        invariant
            lv == sym_views(locs@),
            lv.no_duplicates(),
            locs@.len() <= u32::MAX,
            p0 == pair_view(old(pairs)@),
            forall|q: int| 0 <= q < pairs@.len() ==> (#[trigger] pairs@[q]).0 < locs@.len() && pairs@[q].1 < locs@.len(),
            gi <= groups@.len(),
            pair_view(pairs@) == p0 + groups_pairs(groups@.subrange(0, gi as int), lv),
            forall|g: int, p: int| 0 <= g < gi && 0 <= p < groups@[g]@.len() - 1 ==>
                lv.contains((#[trigger] groups@[g]@[p])@),
            forall|g: int, p: int| 0 <= g < gi && 0 <= p < groups@[g]@.len() - 1 ==>
                lv.contains((#[trigger] groups@[g]@[p + 1])@),
        decreases groups@.len() - gi,
    {
        let group = &groups[gi];
        let ghost base = pair_view(pairs@);
        let ghost gv = sym_views(group@);
        if group.len() >= 2 {
            let mut p: usize = 0;
            let last = group.len() - 1;
            while p < last
                invariant
                    last == group@.len() - 1,
                    gi < groups@.len(),
                    *group == groups@[gi as int],
                    lv == sym_views(locs@),
                    lv.no_duplicates(),
                    locs@.len() <= u32::MAX,
                    gv == sym_views(group@),
                    forall|q: int| 0 <= q < pairs@.len() ==> (#[trigger] pairs@[q]).0 < locs@.len() && pairs@[q].1 < locs@.len(),
                    group@.len() >= 2,
                    p <= last,
                    pair_view(pairs@) == base + window_pairs(gv.subrange(0, p as int + 1), lv),
                    forall|q: int| 0 <= q < p ==> lv.contains((#[trigger] group@[q])@) && lv.contains(group@[q + 1]@),
                decreases group@.len() - p,
            {
                let x = match find_symbol(locs, &group[p]) {
                    Some(x) => x,
                    None => {
                        proof {
                            assert(!lv.contains(group@[p as int]@)) by {
                                if lv.contains(group@[p as int]@) {
                                    let j = choose|j: int| 0 <= j < lv.len() && lv[j] == group@[p as int]@;
                                    assert(locs@[j]@ == lv[j]);
                                }
                            }
                            assert(groups@[gi as int]@[p as int] == group@[p as int]);
                        }
                        return Some(group[p].copy());
                    },
                };
                let y = match find_symbol(locs, &group[p + 1]) {
                    Some(y) => y,
                    None => {
                        proof {
                            assert(!lv.contains(group@[p + 1]@)) by {
                                if lv.contains(group@[p + 1]@) {
                                    let j = choose|j: int| 0 <= j < lv.len() && lv[j] == group@[p + 1]@;
                                    assert(locs@[j]@ == lv[j]);
                                }
                            }
                            assert(groups@[gi as int]@[p as int] == group@[p as int]);
                        }
                        return Some(group[p + 1].copy());
                    },
                };
                let ghost before = pair_view(pairs@);
                pairs.push((x as u32, y as u32));
                proof {
                    assert(lv[x as int] == gv[p as int]);
                    assert(lv[y as int] == gv[p + 1]);
                    assert(name_index(lv, gv[p as int]) == x as int) by {
                        let c = name_index(lv, gv[p as int]);
                        assert(lv.contains(gv[p as int]));
                        assert(lv[c] == lv[x as int]);
                    }
                    assert(name_index(lv, gv[p + 1]) == y as int) by {
                        let c = name_index(lv, gv[p + 1]);
                        assert(lv.contains(gv[p + 1]));
                        assert(lv[c] == lv[y as int]);
                    }
                    let w = gv.subrange(0, p as int + 2);
                    assert(w.drop_last() =~= gv.subrange(0, p as int + 1));
                    assert(w[w.len() - 2] == gv[p as int]);
                    assert(w.last() == gv[p + 1]);
                    assert(pair_view(pairs@) =~= before.push((x as int, y as int)));
                    assert(lv.contains(gv[p as int]));
                    assert(lv.contains(gv[p + 1]));
                }
                p = p + 1;
            }
            proof {
                assert(gv.subrange(0, group@.len() as int) =~= gv);
                assert(forall|q: int| 0 <= q < group@.len() - 1 ==> lv.contains((#[trigger] group@[q])@) && lv.contains(group@[q + 1]@));
            }
        } else {
            proof {
                assert(window_pairs(gv, lv) =~= Seq::<(int, int)>::empty());
                assert(base + window_pairs(gv, lv) =~= base);
            }
        }
        proof {
            let gs1 = groups@.subrange(0, gi as int + 1);
            assert(gs1.drop_last() =~= groups@.subrange(0, gi as int));
            assert(gs1.last() == groups@[gi as int]);
            assert(groups_pairs(gs1, lv) == groups_pairs(groups@.subrange(0, gi as int), lv) + window_pairs(gv, lv));
            assert(pair_view(pairs@) =~= p0 + groups_pairs(gs1, lv));
            assert forall|g: int, p: int| 0 <= g < gi + 1 && 0 <= p < groups@[g]@.len() - 1 implies
                lv.contains((#[trigger] groups@[g]@[p])@) by {
                if g == gi {
                    assert(groups@[g] == *group);
                }
            }
            assert forall|g: int, p: int| 0 <= g < gi + 1 && 0 <= p < groups@[g]@.len() - 1 implies
                lv.contains((#[trigger] groups@[g]@[p + 1])@) by {
                if g == gi {
                    assert(groups@[g] == *group);
                } else {
                    assert(lv.contains((groups@[g]@[p + 1])@));
                }
            }
        }
        gi = gi + 1;
    }
    proof {
        assert(groups@.subrange(0, groups@.len() as int) =~= groups@);
    }
    None
}


pub open spec fn edges_of(v: Vec<(Profile, Loc)>) -> Seq<(Seq<Act>, Loc)> {
    v@.map_values(|e: (Profile, Loc)| edge_view(e))
}

/// Each location's transitions are sorted, with one action below `na` for
/// each of `n` agents and a target below `nl`.
pub open spec fn delta_ok(d: Seq<Vec<(Profile, Loc)>>, n: int, na: int, nl: int) -> bool {
    &&& d.len() == nl
    &&& forall|j: int| 0 <= j < d.len() ==> sorted_edges(#[trigger] edges_of(d[j]))
    &&& forall|j: int, k: int| 0 <= j < d.len() && 0 <= k < edges_of(d[j]).len() ==> {
        let e = #[trigger] edges_of(d[j])[k];
        &&& e.0.len() == n
        &&& forall|p: int| 0 <= p < e.0.len() ==> (#[trigger] e.0[p]).0 < na
        &&& (e.1.0 as int) < nl
    }
}

/// Copies of the names.
pub fn copy_symbols(v: &Vec<Symbol>) -> (r: Vec<Symbol>)
    ensures sym_views(r@) == sym_views(v@),
{
    let mut r: Vec<Symbol> = Vec::new();
    let mut i: usize = 0;
    while i < v.len()
        invariant
            i <= v@.len(),
            r@.len() == i,
            sym_views(r@) == sym_views(v@).subrange(0, i as int),
        decreases v@.len() - i,
    {
        let ghost r0 = r@;
        r.push(v[i].copy());
        proof {
            assert(r@ == r0.push(r@[i as int]));
            assert(sym_views(r@) =~= sym_views(r0).push(v@[i as int]@));
            assert(sym_views(r@) =~= sym_views(v@).subrange(0, i as int + 1));
        }
        i = i + 1;
    }
    proof {
        assert(sym_views(v@).subrange(0, v@.len() as int) =~= sym_views(v@));
    }
    r
}

/// The index of a name of `names`, which has no duplicates.
proof fn lemma_name_index(names: Seq<Seq<char>>, i: int)
    requires
        names.no_duplicates(),
        0 <= i < names.len(),
    ensures
        name_index(names, names[i]) == i,
{
    assert(names.contains(names[i]));
    let c = name_index(names, names[i]);
    assert(names[c] == names[i]);
}

/// The actions named `names`, or the position of the first name that is
/// not an action.
fn lookup_actions(acts: &Vec<Symbol>, names: &Vec<Symbol>) -> (r: Result<Vec<Act>, usize>)
    requires
        acts@.len() <= 65536,
    ensures
        match r {
            Ok(prof) => {
                &&& prof@.len() == names@.len()
                &&& forall|q: int| 0 <= q < names@.len() ==> (#[trigger] prof@[q]).0 < acts@.len()
                    && sym_views(acts@)[prof@[q].0 as int] == names@[q]@
            },
            Err(p) => p < names@.len() && !sym_views(acts@).contains(names@[p as int]@),
        },
{
    let ghost av = sym_views(acts@);
    let mut prof: Vec<Act> = Vec::new();
    let mut p: usize = 0;
    while p < names.len()
        invariant
            av == sym_views(acts@),
            acts@.len() <= 65536,
            p <= names@.len(),
            prof@.len() == p,
            forall|q: int| 0 <= q < p ==> (#[trigger] prof@[q]).0 < acts@.len() && av[prof@[q].0 as int] == names@[q]@,
        decreases names@.len() - p,
    {
        match find_symbol(acts, &names[p]) {
            Some(x) => {
                proof {
                    assert(av[x as int] == acts@[x as int]@);
                }
                prof.push(Act(x as u16));
            },
            None => {
                proof {
                    assert(!av.contains(names@[p as int]@)) by {
                        if av.contains(names@[p as int]@) {
                            let j = choose|j: int| 0 <= j < av.len() && av[j] == names@[p as int]@;
                            assert(acts@[j]@ == av[j]);
                        }
                    }
                }
                return Err(p);
            },
        }
        p = p + 1;
    }
    Ok(prof)
}

/// Adds the transitions of a `delta` statement; fails on the first one
/// that names something undeclared or has the wrong number of actions.
/// A transition given twice is a warning.
fn delta_statement(
    delta: &mut Vec<Vec<(Profile, Loc)>>,
    list: &Vec<(Symbol, Vec<Symbol>, Symbol)>,
    n: usize,
    acts: &Vec<Symbol>,
    locs: &Vec<Symbol>,
    warnings: &mut Vec<Warning>,
) -> (r: Result<(), IOGameError>)
    requires
        sym_views(locs@).no_duplicates(),
        sym_views(acts@).no_duplicates(),
        locs@.len() <= u32::MAX,
        acts@.len() <= 65536,
        delta_ok(old(delta)@, n as int, acts@.len() as int, locs@.len() as int),
    ensures
        delta_ok(final(delta)@, n as int, acts@.len() as int, locs@.len() as int),
        match r {
            Ok(_) => {
                &&& forall|k: int| 0 <= k < list@.len() ==>
                    entry_ok(#[trigger] list@[k], n as int, sym_views(locs@), sym_views(acts@))
                &&& forall|j: int, a: Seq<Act>, m: int| 0 <= j < locs@.len() && 0 <= m < locs@.len() ==>
                    (#[trigger] edges_of(final(delta)@[j]).contains((a, Loc(m as u32))) <==>
                        (edges_of(old(delta)@[j]).contains((a, Loc(m as u32)))
                        || exists|k: int| 0 <= k < list@.len()
                            && #[trigger] entry_means(list@[k], sym_views(locs@), sym_views(acts@), j, a, m)))
            },
            Err(e) => {
                &&& exists|k: int| 0 <= k < list@.len()
                    && !entry_ok(#[trigger] list@[k], n as int, sym_views(locs@), sym_views(acts@))
                &&& match e {
                    IOGameError::UndefinedLocation(s) => !sym_views(locs@).contains(s@),
                    IOGameError::UndefinedAction(s) => !sym_views(acts@).contains(s@),
                    IOGameError::WrongActionCount(x, y) => x == n && y != n,
                    _ => false,
                }
            },
        },
{
    let ghost lv = sym_views(locs@);
    let ghost av = sym_views(acts@);
    let ghost d0 = delta@;
    let mut k: usize = 0;
    while k < list.len()
        invariant
            lv == sym_views(locs@),
            av == sym_views(acts@),
            lv.no_duplicates(),
            av.no_duplicates(),
            locs@.len() <= u32::MAX,
            acts@.len() <= 65536,
            d0 == old(delta)@,
            k <= list@.len(),
            delta_ok(delta@, n as int, acts@.len() as int, locs@.len() as int),
            forall|q: int| 0 <= q < k ==> entry_ok(#[trigger] list@[q], n as int, lv, av),
            forall|j: int, a: Seq<Act>, m: int| 0 <= j < locs@.len() && 0 <= m < locs@.len() ==>
                (#[trigger] edges_of(delta@[j]).contains((a, Loc(m as u32))) <==>
                    (edges_of(d0[j]).contains((a, Loc(m as u32)))
                    || exists|q: int| 0 <= q < k && #[trigger] entry_means(list@[q], lv, av, j, a, m))),
        decreases list@.len() - k,
    {
        let e = &list[k];
        let src = match find_symbol(locs, &e.0) {
            Some(x) => x,
            None => {
                proof {
                    assert(!lv.contains(e.0@)) by {
                        if lv.contains(e.0@) {
                            let j = choose|j: int| 0 <= j < lv.len() && lv[j] == e.0@;
                            assert(locs@[j]@ == lv[j]);
                        }
                    }
                    assert(!entry_ok(list@[k as int], n as int, lv, av));
                }
                return Err(IOGameError::UndefinedLocation(e.0.copy()));
            },
        };
        if e.1.len() != n {
            proof {
                assert(!entry_ok(list@[k as int], n as int, lv, av));
            }
            return Err(IOGameError::WrongActionCount(n, e.1.len()));
        }
        let prof = match lookup_actions(acts, &e.1) {
            Ok(prof) => prof,
            Err(p) => {
                proof {
                    assert(!entry_ok(list@[k as int], n as int, lv, av));
                }
                return Err(IOGameError::UndefinedAction(e.1[p].copy()));
            },
        };
        let tgt = match find_symbol(locs, &e.2) {
            Some(x) => x,
            None => {
                proof {
                    assert(!lv.contains(e.2@)) by {
                        if lv.contains(e.2@) {
                            let j = choose|j: int| 0 <= j < lv.len() && lv[j] == e.2@;
                            assert(locs@[j]@ == lv[j]);
                        }
                    }
                    assert(!entry_ok(list@[k as int], n as int, lv, av));
                }
                return Err(IOGameError::UndefinedLocation(e.2.copy()));
            },
        };
        let ghost pv = prof@;
        let ghost dk = delta@;
        proof {
            assert(lv[src as int] == locs@[src as int]@);
            assert(lv[tgt as int] == locs@[tgt as int]@);
            assert(entry_ok(list@[k as int], n as int, lv, av)) by {
                assert forall|q: int| 0 <= q < e.1@.len() implies av.contains((#[trigger] e.1@[q])@) by {
                    assert(av[prof@[q].0 as int] == e.1@[q]@);
                }
            }
            assert(entry_means(list@[k as int], lv, av, src as int, pv, tgt as int));
            // the transition is determined by the entry
            assert forall|j: int, a: Seq<Act>, m: int| 0 <= j < locs@.len() && 0 <= m < locs@.len()
                && #[trigger] entry_means(list@[k as int], lv, av, j, a, m)
                implies j == src && m == tgt && a == pv by {
                lemma_name_index(lv, j);
                lemma_name_index(lv, src as int);
                lemma_name_index(lv, m);
                lemma_name_index(lv, tgt as int);
                assert forall|q: int| 0 <= q < a.len() implies a[q] == pv[q] by {
                    lemma_name_index(av, a[q].0 as int);
                    lemma_name_index(av, pv[q].0 as int);
                    assert(a[q].0 == pv[q].0);
                }
                assert(a =~= pv);
            }
        }
        let mut row: Vec<(Profile, Loc)> = Vec::new();
        std::mem::swap(&mut row, &mut delta[src]);
        proof {
            assert(sorted_edges(edges_of(dk[src as int])));
            assert(row@ == dk[src as int]@);
        }
        let inserted = insert_sorted(&mut row, (prof, Loc(tgt as u32)));
        std::mem::swap(&mut row, &mut delta[src]);
        if !inserted {
            let acts_copy = copy_symbols(&e.1);
            warnings.push(Warning::DuplicateTransition(e.0.copy(), acts_copy, e.2.copy()));
        }
        proof {
            let dn = delta@;
            assert(dn =~= dk.update(src as int, dn[src as int]));
            let x = (pv, Loc(tgt as u32));
            assert(edges_of(dn[src as int]).to_set() == edges_of(dk[src as int]).to_set().insert(x));
            assert(delta_ok(dn, n as int, acts@.len() as int, locs@.len() as int)) by {
                assert forall|j: int| 0 <= j < dn.len() implies sorted_edges(#[trigger] edges_of(dn[j])) by {
                    if j != src { assert(dn[j] == dk[j]); }
                }
                assert forall|j: int, q: int| 0 <= j < dn.len() && 0 <= q < edges_of(dn[j]).len() implies {
                    let e2 = #[trigger] edges_of(dn[j])[q];
                    &&& e2.0.len() == n
                    &&& forall|p2: int| 0 <= p2 < e2.0.len() ==> (#[trigger] e2.0[p2]).0 < acts@.len()
                    &&& (e2.1.0 as int) < locs@.len()
                } by {
                    let e2 = edges_of(dn[j])[q];
                    if j != src {
                        assert(dn[j] == dk[j]);
                    } else {
                        assert(edges_of(dn[j]).contains(e2));
                        crate::construct::lemma_to_set_contains_pub(edges_of(dn[j]), e2);
                        crate::construct::lemma_to_set_contains_pub(edges_of(dk[j]), e2);
                        if e2 != x {
                            let q2 = choose|q2: int| 0 <= q2 < edges_of(dk[j]).len() && edges_of(dk[j])[q2] == e2;
                            assert(edges_of(dk[j])[q2] == e2);
                        }
                    }
                }
            }
            assert forall|j: int, a: Seq<Act>, m: int| 0 <= j < locs@.len() && 0 <= m < locs@.len() implies
                (#[trigger] edges_of(dn[j]).contains((a, Loc(m as u32))) <==>
                    (edges_of(d0[j]).contains((a, Loc(m as u32)))
                    || exists|q: int| 0 <= q < k + 1 && #[trigger] entry_means(list@[q], lv, av, j, a, m))) by {
                assert(edges_of(dk[j]).contains((a, Loc(m as u32))) <==>
                    (edges_of(d0[j]).contains((a, Loc(m as u32)))
                    || exists|q: int| 0 <= q < k && #[trigger] entry_means(list@[q], lv, av, j, a, m)));
                if j == src {
                    crate::construct::lemma_to_set_contains_pub(edges_of(dn[j]), (a, Loc(m as u32)));
                    crate::construct::lemma_to_set_contains_pub(edges_of(dk[j]), (a, Loc(m as u32)));
                } else {
                    assert(dn[j] == dk[j]);
                }
                if entry_means(list@[k as int], lv, av, j, a, m) {
                    assert(j == src && m == tgt && a == pv);
                    assert(Loc(m as u32) == Loc(tgt as u32));
                }
                if j == src && a == pv && Loc(m as u32) == Loc(tgt as u32) {
                    assert(m == tgt);
                    assert(entry_means(list@[k as int], lv, av, j, a, m));
                }
                if exists|q: int| 0 <= q < k + 1 && #[trigger] entry_means(list@[q], lv, av, j, a, m) {
                    let q = choose|q: int| 0 <= q < k + 1 && #[trigger] entry_means(list@[q], lv, av, j, a, m);
                    if q < k {
                        assert(exists|q2: int| 0 <= q2 < k && #[trigger] entry_means(list@[q2], lv, av, j, a, m));
                    }
                }
                if exists|q: int| 0 <= q < k && #[trigger] entry_means(list@[q], lv, av, j, a, m) {
                    let q = choose|q: int| 0 <= q < k && #[trigger] entry_means(list@[q], lv, av, j, a, m);
                    assert(0 <= q < k + 1 && entry_means(list@[q], lv, av, j, a, m));
                }
            }
        }
        k = k + 1;
    }
    Ok(())
}


/// The partition of `0..nl` made by joining the classes of each pair of
/// `pairs` in turn.
fn make_partition(pairs: &Vec<(u32, u32)>, nl: usize) -> (r: Partition)
    requires
        nl <= u32::MAX,
        forall|q: int| 0 <= q < pairs@.len() ==> (#[trigger] pairs@[q]).0 < nl && pairs@[q].1 < nl,
    ensures
        uf_reps(r).len() == nl,
        reps_ok(uf_reps(r)),
        forall|x: int, y: int| 0 <= x < nl && 0 <= y < nl ==>
            (uf_reps(r)[x] == uf_reps(r)[y] <==> #[trigger] same_class(pair_view(pairs@), x, y)),
{
    let mut u = uf_new(nl);
    let mut k: usize = 0;
    proof {
        assert(pair_view(pairs@).subrange(0, 0) =~= Seq::<(int, int)>::empty());
    }
    while k < pairs.len()
        invariant
            nl <= u32::MAX,
            forall|q: int| 0 <= q < pairs@.len() ==> (#[trigger] pairs@[q]).0 < nl && pairs@[q].1 < nl,
            k <= pairs@.len(),
            uf_reps(u).len() == nl,
            reps_ok(uf_reps(u)),
            forall|x: int, y: int| 0 <= x < nl && 0 <= y < nl ==>
                (uf_reps(u)[x] == uf_reps(u)[y] <==> #[trigger] same_class(pair_view(pairs@).subrange(0, k as int), x, y)),
        decreases pairs@.len() - k,
    {
        let (a, b) = pairs[k];
        let ghost s0 = uf_reps(u);
        let ghost pk = pair_view(pairs@).subrange(0, k as int);
        uf_union(&mut u, a, b);
        proof {
            let s1 = uf_reps(u);
            let ra = s0[a as int];
            let rb = s0[b as int];
            let w = choose|w: nat| #[trigger] merged_into(s0, s1, ra, rb, w);
            assert(merged_into(s0, s1, ra, rb, w));
            let pk1 = pair_view(pairs@).subrange(0, k as int + 1);
            assert(pk1.drop_last() =~= pk);
            assert(pk1.last() == (a as int, b as int));
            assert(s0[ra as int] == ra && s0[rb as int] == rb);
            assert forall|x: int| 0 <= x < s1.len() implies #[trigger] s1[x] < s1.len() && s1[s1[x] as int] == s1[x] by {
                assert(s0[x] < s0.len());
                if s0[x] == ra || s0[x] == rb {
                    assert(s1[x] == w);
                    assert(s1[w as int] == w);
                } else {
                    assert(s1[x] == s0[x]);
                    assert(s0[s0[x] as int] == s0[x]);
                    assert(s1[s0[x] as int] == s0[x]);
                }
            }
            assert forall|x: int, y: int| 0 <= x < nl && 0 <= y < nl implies
                (s1[x] == s1[y] <==> #[trigger] same_class(pk1, x, y)) by {
                assert(s0[x] == s0[y] <==> same_class(pk, x, y));
                assert(s0[x] == s0[a as int] <==> same_class(pk, x, a as int));
                assert(s0[x] == s0[b as int] <==> same_class(pk, x, b as int));
                assert(s0[y] == s0[a as int] <==> same_class(pk, y, a as int));
                assert(s0[y] == s0[b as int] <==> same_class(pk, y, b as int));
                assert(s1[x] == (if s0[x] == ra || s0[x] == rb { w } else { s0[x] }));
                assert(s1[y] == (if s0[y] == ra || s0[y] == rb { w } else { s0[y] }));
            }
        }
        k = k + 1;
    }
    proof {
        assert(pair_view(pairs@).subrange(0, pairs@.len() as int) =~= pair_view(pairs@));
    }
    u
}

/// A game read from statements. Locations, actions and agents are
/// numbered in order of declaration.
pub struct IOGame {
    pub agt: Vec<Symbol>,
    pub act: Vec<Symbol>,
    pub loc: Vec<Symbol>,
    /// For each agent, the partition of the locations into observations.
    pub obs: Vec<Partition>,
    /// For each location, its transitions in increasing order.
    pub delta: Vec<Vec<(Profile, Loc)>>,
    pub l0: Loc,
    /// Whether each location is a goal.
    pub reach: Vec<bool>,
}

impl IOGame {
    pub open spec fn wf(&self) -> bool {
        &&& 1 <= self.agt@.len() <= 8
        &&& self.act@.len() <= 65536
        &&& self.loc@.len() <= u32::MAX
        &&& self.obs@.len() == self.agt@.len()
        &&& forall|t: int| 0 <= t < self.obs@.len() ==> uf_reps(#[trigger] self.obs@[t]).len() == self.loc@.len()
            && reps_ok(uf_reps(self.obs@[t]))
        &&& delta_ok(self.delta@, self.agt@.len() as int, self.act@.len() as int, self.loc@.len() as int)
        &&& (self.l0.0 as int) < self.loc@.len()
        &&& self.reach@.len() == self.loc@.len()
    }
}

/// `g` is the game that `v` describes.
pub open spec fn describes(v: Seq<Statement>, g: IOGame) -> bool {
    let lv = sym_views(g.loc@);
    let acv = sym_views(g.act@);
    &&& g.wf()
    &&& description_ok(v)
    &&& sym_views(g.agt@) == agent_names(v)
    &&& acv == action_names(v)
    &&& lv == location_names(v)
    &&& exists|i: int| 0 <= i < v.len() && #[trigger] is_l0(v[i]) && v[i]->L0_0@ == lv[g.l0.0 as int]
    &&& forall|j: int| 0 <= j < lv.len() ==> (#[trigger] g.reach@[j] <==> goal_names(v).contains(lv[j]))
    &&& forall|j: int, a: Seq<Act>, m: int| 0 <= j < lv.len() && 0 <= m < lv.len() ==>
        (#[trigger] edges_of(g.delta@[j]).contains((a, Loc(m as u32))) <==> described_edge(v, lv, acv, j, a, m))
    &&& forall|t: int, x: int, y: int| 0 <= t < g.agt@.len() && 0 <= x < lv.len() && 0 <= y < lv.len() ==>
        (uf_reps(g.obs@[t])[x] == uf_reps(g.obs@[t])[y]
            <==> #[trigger] same_class(obs_pairs(v, g.agt@[t]@, lv), x, y))
}


proof fn lemma_obs_pairs_step(v: Seq<Statement>, i: int, agent: Seq<char>, locs: Seq<Seq<char>>)
    requires 0 <= i < v.len(),
    ensures obs_pairs(v.subrange(0, i + 1), agent, locs) == obs_pairs(v.subrange(0, i), agent, locs) + stmt_pairs(v[i], agent, locs),
{
    assert(v.subrange(0, i + 1).drop_last() =~= v.subrange(0, i));
}

/// The facts the statement loop keeps about the statements before `i`.
pub open spec fn parts_inv(
    v: Seq<Statement>,
    i: int,
    agents: Seq<Seq<char>>,
    lv: Seq<Seq<char>>,
    acv: Seq<Seq<char>>,
    pairs: Seq<Vec<(u32, u32)>>,
    delta: Seq<Vec<(Profile, Loc)>>,
    l0: Option<usize>,
) -> bool {
    &&& 0 <= i <= v.len()
    &&& pairs.len() == agents.len()
    &&& forall|t: int| 0 <= t < agents.len() ==> pair_view((#[trigger] pairs[t])@) == obs_pairs(v.subrange(0, i), agents[t], lv)
    &&& forall|t: int, q: int| 0 <= t < agents.len() && 0 <= q < pairs[t]@.len() ==>
        (#[trigger] pairs[t]@[q]).0 < lv.len() && pairs[t]@[q].1 < lv.len()
    &&& delta_ok(delta, agents.len() as int, acv.len() as int, lv.len() as int)
    &&& forall|j: int, a: Seq<Act>, m: int| 0 <= j < lv.len() && 0 <= m < lv.len() ==>
        (#[trigger] edges_of(delta[j]).contains((a, Loc(m as u32))) <==>
            exists|i2: int| 0 <= i2 < i && #[trigger] stmt_has_edge(v[i2], v[i2]->Delta_0@.len() as int, lv, acv, j, a, m))
    &&& match l0 {
        None => forall|i2: int| 0 <= i2 < i ==> !#[trigger] is_l0(v[i2]),
        Some(x) => {
            &&& x < lv.len()
            &&& exists|i0: int| 0 <= i0 < i && #[trigger] is_l0(v[i0]) && v[i0]->L0_0@ == lv[x as int]
                && forall|i2: int| 0 <= i2 < i && #[trigger] is_l0(v[i2]) ==> i2 == i0
        },
    }
}

/// Builds the game from its statements and declarations.
fn from_parts(v: &Vec<Statement>, d: Declarations, warnings: &mut Vec<Warning>) -> (r: Result<IOGame, IOGameError>)
    requires
        sym_views(d.agents@) == agent_names(v@),
        sym_views(d.actions@) == action_names(v@),
        sym_views(d.locations@) == location_names(v@),
        agent_names(v@).no_duplicates(),
        action_names(v@).no_duplicates(),
        location_names(v@).no_duplicates(),
        forall|x: Seq<char>| sym_views(d.reach@).contains(x) <==> goal_names(v@).contains(x),
        action_names(v@).len() <= 65536,
        location_names(v@).len() <= u32::MAX,
    ensures
        match r {
            Ok(g) => describes(v@, g),
            Err(e) => !description_ok(v@) && match e {
                IOGameError::UnsupportedAgents(n) => n == agent_names(v@).len() && !(1 <= n <= 8),
                IOGameError::L0Multiple => exists|i: int, j: int| 0 <= i < j < v@.len() && #[trigger] is_l0(v@[i]) && #[trigger] is_l0(v@[j]),
                IOGameError::UndefinedLocation(s) => !location_names(v@).contains(s@),
                IOGameError::UndefinedAgent(s) => !agent_names(v@).contains(s@),
                IOGameError::UndefinedAction(s) => !action_names(v@).contains(s@),
                IOGameError::WrongActionCount(x, y) => x == agent_names(v@).len() && y != x,
                IOGameError::L0Undefined => forall|i: int| 0 <= i < v@.len() ==> !#[trigger] is_l0(v@[i]),
                _ => false,
            },
        },
{
    let ghost av = agent_names(v@);
    let ghost lv = location_names(v@);
    let ghost acv = action_names(v@);
    let n = d.agents.len();
    if n < 1 || n > 8 {
        return Err(IOGameError::UnsupportedAgents(n));
    }
    let nl = d.locations.len();
    let mut pairs: Vec<Vec<(u32, u32)>> = Vec::new();
    let mut t: usize = 0;
    while t < n
        invariant
            t <= n,
            pairs@.len() == t,
            forall|u: int| 0 <= u < t ==> (#[trigger] pairs@[u])@.len() == 0,
        decreases n - t,
    {
        pairs.push(Vec::new());
        t = t + 1;
    }
    let mut delta: Vec<Vec<(Profile, Loc)>> = Vec::new();
    let mut j: usize = 0;
    while j < nl
        invariant
            j <= nl,
            delta@.len() == j,
            forall|u: int| 0 <= u < j ==> (#[trigger] delta@[u])@.len() == 0,
        decreases nl - j,
    {
        delta.push(Vec::new());
        j = j + 1;
    }
    let mut l0: Option<usize> = None;
    proof {
        assert(v@.subrange(0, 0) =~= Seq::<Statement>::empty());
        assert forall|u: int| 0 <= u < n implies pair_view((#[trigger] pairs@[u])@) == obs_pairs(v@.subrange(0, 0), av[u], lv) by {
            assert(pair_view(pairs@[u]@) =~= Seq::<(int, int)>::empty());
        }
        assert forall|u: int| 0 <= u < delta@.len() implies sorted_edges(#[trigger] edges_of(delta@[u])) by {
            assert(edges_of(delta@[u]) =~= Seq::<(Seq<Act>, Loc)>::empty());
        }
        assert forall|jj: int, a: Seq<Act>, m: int| 0 <= jj < lv.len() && 0 <= m < lv.len() implies
            !(#[trigger] edges_of(delta@[jj]).contains((a, Loc(m as u32)))) by {
            assert(edges_of(delta@[jj]) =~= Seq::<(Seq<Act>, Loc)>::empty());
        }
    }
    let mut i: usize = 0;
    while i < v.len()
        invariant
            av == agent_names(v@),
            lv == location_names(v@),
            acv == action_names(v@),
            sym_views(d.agents@) == av,
            sym_views(d.actions@) == acv,
            sym_views(d.locations@) == lv,
            av.no_duplicates(),
            acv.no_duplicates(),
            lv.no_duplicates(),
            n == av.len(),
            1 <= n <= 8,
            nl == lv.len(),
            acv.len() <= 65536,
            lv.len() <= u32::MAX,
            i <= v@.len(),
            parts_inv(v@, i as int, av, lv, acv, pairs@, delta@, l0),
            forall|i2: int| 0 <= i2 < i ==> statement_ok(v@, #[trigger] v@[i2]),
        decreases v@.len() - i,
    {
        proof {
            assert forall|u: int| 0 <= u < n implies obs_pairs(v@.subrange(0, i as int + 1), av[u], lv)
                == obs_pairs(v@.subrange(0, i as int), av[u], lv) + stmt_pairs(v@[i as int], av[u], lv) by {
                lemma_obs_pairs_step(v@, i as int, av[u], lv);
            }
        }
        let ghost pairs0 = pairs@;
        let ghost delta0 = delta@;
        let ghost l00 = l0;
        match &v[i] {
            Statement::L0(name) => {
                if l0.is_some() {
                    proof {
                        let i0 = choose|i0: int| 0 <= i0 < i && #[trigger] is_l0(v@[i0]) && v@[i0]->L0_0@ == lv[l0.unwrap() as int]
                            && forall|i2: int| 0 <= i2 < i && #[trigger] is_l0(v@[i2]) ==> i2 == i0;
                        assert(is_l0(v@[i as int]));
                    }
                    return Err(IOGameError::L0Multiple);
                }
                match find_symbol(&d.locations, name) {
                    Some(x) => {
                        proof {
                            assert(lv[x as int] == d.locations@[x as int]@);
                            assert(lv.contains(name@));
                        }
                        l0 = Some(x);
                    },
                    None => {
                        proof {
                            assert(!lv.contains(name@)) by {
                                if lv.contains(name@) {
                                    let q = choose|q: int| 0 <= q < lv.len() && lv[q] == name@;
                                    assert(d.locations@[q]@ == lv[q]);
                                }
                            }
                            assert(!statement_ok(v@, v@[i as int]));
                        }
                        return Err(IOGameError::UndefinedLocation(name.copy()));
                    },
                }
            },
            Statement::Obs(agent, groups) => {
                let t = match find_symbol(&d.agents, agent) {
                    Some(t) => t,
                    None => {
                        proof {
                            assert(!av.contains(agent@)) by {
                                if av.contains(agent@) {
                                    let q = choose|q: int| 0 <= q < av.len() && av[q] == agent@;
                                    assert(d.agents@[q]@ == av[q]);
                                }
                            }
                            assert(!statement_ok(v@, v@[i as int]));
                        }
                        return Err(IOGameError::UndefinedAgent(agent.copy()));
                    },
                };
                let mut pt: Vec<(u32, u32)> = Vec::new();
                std::mem::swap(&mut pt, &mut pairs[t]);
                proof {
                    assert(pt@ == pairs0[t as int]@);
                    assert forall|q: int| 0 <= q < pt@.len() implies (#[trigger] pt@[q]).0 < lv.len() && pt@[q].1 < lv.len() by {
                        assert(pairs0[t as int]@[q] == pt@[q]);
                    }
                }
                let res = obs_statement(&mut pt, groups, &d.locations);
                std::mem::swap(&mut pt, &mut pairs[t]);
                match res {
                    Some(s) => {
                        proof {
                            assert(!statement_ok(v@, v@[i as int]));
                        }
                        return Err(IOGameError::UndefinedLocation(s));
                    },
                    None => {
                        proof {
                            assert(av[t as int] == d.agents@[t as int]@);
                            assert(av.contains(agent@));
                            assert(statement_ok(v@, v@[i as int]));
                        }
                    },
                }
            },
            Statement::Delta(list) => {
                let res = delta_statement(&mut delta, list, n, &d.actions, &d.locations, warnings);
                match res {
                    Err(e) => {
                        proof {
                            assert(!statement_ok(v@, v@[i as int]));
                        }
                        return Err(e);
                    },
                    Ok(()) => {
                        proof {
                            assert(statement_ok(v@, v@[i as int]));
                        }
                    },
                }
            },
            _ => {},
        }
        proof {
            let vi = v@[i as int];
            let ii = i as int;
            assert(statement_ok(v@, vi));
            assert(v@.subrange(0, ii + 1).drop_last() =~= v@.subrange(0, ii));
            // observation pairs
            assert forall|u: int| 0 <= u < n implies pair_view((#[trigger] pairs@[u])@) == obs_pairs(v@.subrange(0, ii + 1), av[u], lv) by {
                lemma_obs_pairs_step(v@, ii, av[u], lv);
                if vi is Obs && vi->Obs_0@ == av[u] {
                    assert(pair_view(pairs@[u]@) == pair_view(pairs0[u]@) + groups_pairs(vi->Obs_1@, lv));
                } else {
                    assert(stmt_pairs(vi, av[u], lv) =~= Seq::<(int, int)>::empty());
                    assert(pairs@[u] == pairs0[u]);
                    assert(obs_pairs(v@.subrange(0, ii), av[u], lv) + Seq::<(int, int)>::empty()
                        =~= obs_pairs(v@.subrange(0, ii), av[u], lv));
                }
            }
            assert forall|u: int, q: int| 0 <= u < n && 0 <= q < pairs@[u]@.len() implies
                (#[trigger] pairs@[u]@[q]).0 < lv.len() && pairs@[u]@[q].1 < lv.len() by {
                if !(vi is Obs && vi->Obs_0@ == av[u]) {
                    assert(pairs@[u] == pairs0[u]);
                }
            }
            // transitions
            assert forall|jj: int, a: Seq<Act>, m: int| 0 <= jj < lv.len() && 0 <= m < lv.len() implies
                (#[trigger] edges_of(delta@[jj]).contains((a, Loc(m as u32))) <==>
                    exists|i2: int| 0 <= i2 < ii + 1 && #[trigger] stmt_has_edge(v@[i2], v@[i2]->Delta_0@.len() as int, lv, acv, jj, a, m)) by {
                assert(edges_of(delta0[jj]).contains((a, Loc(m as u32))) <==>
                    exists|i2: int| 0 <= i2 < ii && #[trigger] stmt_has_edge(v@[i2], v@[i2]->Delta_0@.len() as int, lv, acv, jj, a, m));
                if !(vi is Delta) {
                    assert(!stmt_has_edge(vi, vi->Delta_0@.len() as int, lv, acv, jj, a, m));
                    assert(delta@ == delta0);
                }
                if exists|i2: int| 0 <= i2 < ii + 1 && #[trigger] stmt_has_edge(v@[i2], v@[i2]->Delta_0@.len() as int, lv, acv, jj, a, m) {
                    let i2 = choose|i2: int| 0 <= i2 < ii + 1 && #[trigger] stmt_has_edge(v@[i2], v@[i2]->Delta_0@.len() as int, lv, acv, jj, a, m);
                    if i2 < ii {
                        assert(exists|i3: int| 0 <= i3 < ii && #[trigger] stmt_has_edge(v@[i3], v@[i3]->Delta_0@.len() as int, lv, acv, jj, a, m));
                    }
                }
                if exists|i2: int| 0 <= i2 < ii && #[trigger] stmt_has_edge(v@[i2], v@[i2]->Delta_0@.len() as int, lv, acv, jj, a, m) {
                    let i2 = choose|i2: int| 0 <= i2 < ii && #[trigger] stmt_has_edge(v@[i2], v@[i2]->Delta_0@.len() as int, lv, acv, jj, a, m);
                    assert(0 <= i2 < ii + 1);
                }
                if stmt_has_edge(vi, vi->Delta_0@.len() as int, lv, acv, jj, a, m) {
                    assert(0 <= ii < ii + 1);
                }
            }
            // the initial location
            match l0 {
                None => {
                    assert forall|i2: int| 0 <= i2 < ii + 1 implies !#[trigger] is_l0(v@[i2]) by {}
                },
                Some(x) => {
                    if vi is L0 {
                        assert(l00 is None);
                        assert(is_l0(v@[ii]) && v@[ii]->L0_0@ == lv[x as int]);
                        assert forall|i2: int| 0 <= i2 < ii + 1 && #[trigger] is_l0(v@[i2]) implies i2 == ii by {}
                    } else {
                        assert(l00 == l0);
                        let i0 = choose|i0: int| 0 <= i0 < ii && #[trigger] is_l0(v@[i0]) && v@[i0]->L0_0@ == lv[x as int]
                            && forall|i2: int| 0 <= i2 < ii && #[trigger] is_l0(v@[i2]) ==> i2 == i0;
                        assert(is_l0(v@[i0]) && v@[i0]->L0_0@ == lv[x as int]);
                        assert forall|i2: int| 0 <= i2 < ii + 1 && #[trigger] is_l0(v@[i2]) implies i2 == i0 by {}
                    }
                },
            }
            assert(parts_inv(v@, ii + 1, av, lv, acv, pairs@, delta@, l0));
        }
        i = i + 1;
    }
    proof {
        assert(v@.subrange(0, v@.len() as int) =~= v@);
    }
    let x = match l0 {
        None => {
            return Err(IOGameError::L0Undefined);
        },
        Some(x) => x,
    };
    let mut obs: Vec<Partition> = Vec::new();
    let mut t: usize = 0;
    while t < n
        invariant
            n == av.len(),
            nl == lv.len(),
            nl <= u32::MAX,
            t <= n,
            parts_inv(v@, v@.len() as int, av, lv, acv, pairs@, delta@, l0),
            obs@.len() == t,
            forall|u: int| 0 <= u < t ==> uf_reps(#[trigger] obs@[u]).len() == nl && reps_ok(uf_reps(obs@[u])),
            forall|u: int, x1: int, y1: int| 0 <= u < t && 0 <= x1 < nl && 0 <= y1 < nl ==>
                (uf_reps(obs@[u])[x1] == uf_reps(obs@[u])[y1]
                    <==> #[trigger] same_class(obs_pairs(v@, av[u], lv), x1, y1)),
        decreases n - t,
    {
        proof {
            assert(pair_view(pairs@[t as int]@) == obs_pairs(v@.subrange(0, v@.len() as int), av[t as int], lv));
            assert(v@.subrange(0, v@.len() as int) =~= v@);
            assert forall|q: int| 0 <= q < pairs@[t as int]@.len() implies
                (#[trigger] pairs@[t as int]@[q]).0 < nl && pairs@[t as int]@[q].1 < nl by {
            }
        }
        let part = make_partition(&pairs[t], nl);
        obs.push(part);
        t = t + 1;
    }
    let mut reach: Vec<bool> = Vec::new();
    let mut j: usize = 0;
    while j < nl
        invariant
            nl == lv.len(),
            sym_views(d.locations@) == lv,
            forall|y: Seq<char>| sym_views(d.reach@).contains(y) <==> goal_names(v@).contains(y),
            j <= nl,
            reach@.len() == j,
            forall|q: int| 0 <= q < j ==> (#[trigger] reach@[q] <==> goal_names(v@).contains(lv[q])),
        decreases nl - j,
    {
        let found = find_symbol(&d.reach, &d.locations[j]);
        proof {
            assert(lv[j as int] == d.locations@[j as int]@);
            let rv = sym_views(d.reach@);
            match found {
                Some(q) => {
                    assert(rv[q as int] == d.reach@[q as int]@);
                    assert(rv.contains(lv[j as int]));
                },
                None => {
                    if rv.contains(lv[j as int]) {
                        let q = choose|q: int| 0 <= q < rv.len() && rv[q] == lv[j as int];
                        assert(d.reach@[q]@ == rv[q]);
                    }
                },
            }
        }
        reach.push(found.is_some());
        j = j + 1;
    }
    let g = IOGame {
        agt: d.agents,
        act: d.actions,
        loc: d.locations,
        obs,
        delta,
        l0: Loc(x as u32),
        reach,
    };
    proof {
        assert(g.wf());
        assert(description_ok(v@));
        let i0 = choose|i0: int| 0 <= i0 < v@.len() && #[trigger] is_l0(v@[i0]) && v@[i0]->L0_0@ == lv[x as int]
            && forall|i2: int| 0 <= i2 < v@.len() && #[trigger] is_l0(v@[i2]) ==> i2 == i0;
        assert(is_l0(v@[i0]) && v@[i0]->L0_0@ == lv[x as int]);
        assert forall|jj: int, a: Seq<Act>, m: int| 0 <= jj < lv.len() && 0 <= m < lv.len() implies
            (#[trigger] edges_of(g.delta@[jj]).contains((a, Loc(m as u32))) <==> described_edge(v@, lv, acv, jj, a, m)) by {
        }
        assert forall|u: int, x1: int, y1: int| 0 <= u < g.agt@.len() && 0 <= x1 < lv.len() && 0 <= y1 < lv.len() implies
            (uf_reps(g.obs@[u])[x1] == uf_reps(g.obs@[u])[y1]
                <==> #[trigger] same_class(obs_pairs(v@, g.agt@[u]@, lv), x1, y1)) by {
            assert(g.agt@[u]@ == av[u]);
        }
    }
    Ok(g)
}


/// A game read from statements, for any number of agents.
pub type IOGameEnum = IOGame;

/// What every game read from statements can tell.
pub trait IOGameTrait {
    spec fn agents_spec(&self) -> nat;

    fn n_agents(&self) -> (r: usize)
        ensures r == self.agents_spec();
}

impl IOGameTrait for IOGame {
    open spec fn agents_spec(&self) -> nat {
        self.agt@.len()
    }

    fn n_agents(&self) -> (r: usize) {
        self.agt.len()
    }
}

impl IOGame {
    /// The game the statements `v` describe, or why they describe none; a
    /// name declared twice is reported before any other fault. Goals and
    /// transitions given twice are reported in `warnings`.
    pub fn new(v: Vec<Statement>, warnings: &mut Vec<Warning>) -> (r: Result<IOGame, IOGameError>)
        requires
            action_names(v@).len() <= 65536,
            location_names(v@).len() <= u32::MAX,
        ensures
            r is Ok <==> description_ok(v@),
            !(agent_names(v@).no_duplicates() && action_names(v@).no_duplicates() && location_names(v@).no_duplicates())
                ==> (r matches Err(e) && (e is DuplicateAgent || e is DuplicateAction || e is DuplicateLocation)),
            match r {
                Ok(g) => describes(v@, g),
                Err(e) => match e {
                    IOGameError::DuplicateAgent(s) => dup_in(agent_names(v@), s@),
                    IOGameError::DuplicateAction(s) => dup_in(action_names(v@), s@),
                    IOGameError::DuplicateLocation(s) => dup_in(location_names(v@), s@),
                    IOGameError::UnsupportedAgents(n) => n == agent_names(v@).len() && !(1 <= n <= 8),
                    IOGameError::L0Multiple => exists|i: int, j: int| 0 <= i < j < v@.len()
                        && #[trigger] is_l0(v@[i]) && #[trigger] is_l0(v@[j]),
                    IOGameError::UndefinedLocation(s) => !location_names(v@).contains(s@),
                    IOGameError::UndefinedAgent(s) => !agent_names(v@).contains(s@),
                    IOGameError::UndefinedAction(s) => !action_names(v@).contains(s@),
                    IOGameError::WrongActionCount(x, y) => x == agent_names(v@).len() && y != x,
                    IOGameError::L0Undefined => forall|i: int| 0 <= i < v@.len() ==> !#[trigger] is_l0(v@[i]),
                },
            },
    {
        let d = match scan_declarations(&v, warnings) {
            Ok(d) => d,
            Err(e) => {
                proof {
                    match &e {
                        IOGameError::DuplicateAgent(s) => {
                            let (i, j) = choose|i: int, j: int| 0 <= i < j < agent_names(v@).len()
                                && #[trigger] agent_names(v@)[i] == s@ && #[trigger] agent_names(v@)[j] == s@;
                            assert(!agent_names(v@).no_duplicates());
                        },
                        IOGameError::DuplicateAction(s) => {
                            let (i, j) = choose|i: int, j: int| 0 <= i < j < action_names(v@).len()
                                && #[trigger] action_names(v@)[i] == s@ && #[trigger] action_names(v@)[j] == s@;
                            assert(!action_names(v@).no_duplicates());
                        },
                        IOGameError::DuplicateLocation(s) => {
                            let (i, j) = choose|i: int, j: int| 0 <= i < j < location_names(v@).len()
                                && #[trigger] location_names(v@)[i] == s@ && #[trigger] location_names(v@)[j] == s@;
                            assert(!location_names(v@).no_duplicates());
                        },
                        _ => {},
                    }
                }
                return Err(e);
            },
        };
        from_parts(&v, d, warnings)
    }

    /// The agent named `name`, if any.
    pub fn find_agent(&self, name: &Symbol) -> (r: Option<crate::types::Agt>)
        requires self.wf(),
        ensures
            match r {
                Some(a) => (a.0 as int) < self.agt@.len() && self.agt@[a.0 as int]@ == name@,
                None => forall|i: int| 0 <= i < self.agt@.len() ==> self.agt@[i]@ != name@,
            },
    {
        match find_symbol(&self.agt, name) {
            Some(i) => Some(crate::types::Agt(i as u8)),
            None => None,
        }
    }
}

impl AbstractGame for IOGame {
    type Loc = Loc;
    type Obs = Obs;

    open spec fn inv(&self) -> bool {
        self.wf()
    }

    open spec fn l0_spec(&self) -> Loc {
        self.l0
    }

    open spec fn n_actions_spec(&self) -> Seq<usize> {
        Seq::new(self.agt@.len(), |i: int| self.act@.len() as usize)
    }

    open spec fn loc_ok(&self, l: Loc) -> bool {
        (l.0 as int) < self.loc@.len()
    }

    open spec fn obs_spec(&self, l: Loc) -> Seq<Obs> {
        Seq::new(self.agt@.len(), |t: int| Obs(uf_reps(self.obs@[t])[l.0 as int] as u32))
    }

    open spec fn winning_spec(&self, l: Loc) -> bool {
        self.reach@[l.0 as int]
    }

    open spec fn succ_spec(&self, l: Loc) -> Seq<(Seq<Act>, Loc)> {
        edges_of(self.delta@[l.0 as int])
    }

    fn l0(&self) -> (r: Loc) {
        self.l0
    }

    fn n_actions(&self) -> (r: Vec<usize>) {
        let mut r: Vec<usize> = Vec::new();
        let na = self.act.len();
        let mut t: usize = 0;
        while t < self.agt.len()
            invariant
                t <= self.agt@.len(),
                na == self.act@.len(),
                r@.len() == t,
                forall|q: int| 0 <= q < t ==> #[trigger] r@[q] == na,
            decreases self.agt@.len() - t,
        {
            r.push(na);
            t = t + 1;
        }
        assert(r@ =~= self.n_actions_spec());
        r
    }

    fn obs(&self, l: &Loc) -> (r: Vec<Obs>) {
        let mut r: Vec<Obs> = Vec::new();
        let mut t: usize = 0;
        while t < self.obs.len()
            invariant
                self.wf(),
                (l.0 as int) < self.loc@.len(),
                t <= self.obs@.len(),
                r@.len() == t,
                forall|q: int| 0 <= q < t ==> #[trigger] r@[q] == Obs(uf_reps(self.obs@[q])[l.0 as int] as u32),
            decreases self.obs@.len() - t,
        {
            let o = uf_find(&self.obs[t], l.0);
            proof {
                assert(uf_reps(self.obs@[t as int]).len() == self.loc@.len());
                assert(reps_ok(uf_reps(self.obs@[t as int])));
                assert(uf_reps(self.obs@[t as int])[l.0 as int] < self.loc@.len());
            }
            r.push(Obs(o));
            t = t + 1;
        }
        assert(r@.map_values(|o: Obs| o@) =~= self.obs_spec(l@));
        r
    }

    fn is_winning(&self, l: &Loc) -> (r: bool) {
        self.reach[l.index()]
    }

    fn succ(&self, l: &Loc) -> (r: Vec<(Profile, Loc)>) {
        let es = &self.delta[l.index()];
        let ghost ev = edges_of(self.delta@[l.0 as int]);
        let mut r: Vec<(Profile, Loc)> = Vec::new();
        let mut k: usize = 0;
        while k < es.len()
            invariant
                self.wf(),
                (l.0 as int) < self.loc@.len(),
                *es == self.delta@[l.0 as int],
                ev == edges_of(*es),
                k <= es@.len(),
                r@.len() == k,
                r@.map_values(|e: (Profile, Loc)| (e.0@, e.1@)) == ev.subrange(0, k as int),
            decreases es@.len() - k,
        {
            let p = crate::explore::clone_profile(&es[k].0);
            let ghost r0 = r@;
            r.push((p, es[k].1));
            proof {
                assert(r@ == r0.push(r@[k as int]));
                assert(ev[k as int] == edge_view(es@[k as int]));
                assert(r@.map_values(|e: (Profile, Loc)| (e.0@, e.1@)) =~= ev.subrange(0, k as int + 1));
            }
            k = k + 1;
        }
        proof {
            assert(ev.subrange(0, ev.len() as int) =~= ev);
            assert forall|q: int| 0 <= q < r@.len() implies self.loc_ok((#[trigger] r@[q]).1@)
                && valid_profile_for(self.n_actions_spec(), r@[q].0@) by {
                assert(r@.map_values(|e: (Profile, Loc)| (e.0@, e.1@))[q] == ev[q]);
                assert(ev[q] == edges_of(self.delta@[l.0 as int])[q]);
            }
        }
        r
    }

    fn loc_eq(&self, a: &Loc, b: &Loc) -> (r: bool) {
        *a == *b
    }

    fn obs_eq(&self, a: &Obs, b: &Obs) -> (r: bool) {
        *a == *b
    }

    fn loc_clone(&self, l: &Loc) -> (r: Loc) {
        *l
    }

    fn obs_clone(&self, o: &Obs) -> (r: Obs) {
        *o
    }
}

} // verus!
