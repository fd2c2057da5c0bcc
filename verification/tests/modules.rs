use std::cmp::Ordering;

use mkbsc::construct::build_game;
use mkbsc::explore::{explore, ExploreEvent};
use mkbsc::game::Game;
use mkbsc::index::{action_index, agent_index, obs_index, DEdge, DNode, History, MapEntry, VecStrat};
use mkbsc::io_game::IOGame;
use mkbsc::loc_set::LocSet;
use mkbsc::obs_subset::ObsSubset;
use mkbsc::outcome::{Outcome, OutcomeSet};
use mkbsc::outcomes::find_outcomes;
use mkbsc::parser::parse;
use mkbsc::symbol::{find_symbol, intern};
use mkbsc::types::{Act, Agt, Loc, Obs};

fn game_of(text: &str) -> Game {
    let v = parse(text).ok().unwrap();
    let mut w = Vec::new();
    let g = IOGame::new(v, &mut w).ok().unwrap();
    build_game(g).unwrap().game
}

const SIMPLE: &str = "
agt: A
act: go, stay
loc: s, t
reach: t
l0: s
delta: s (go) t, s (stay) s, t (go, stay) t
";

const GUESS: &str = "
agt: A
act: a, b
loc: l0, l1, l2, win
reach: win
l0: l0
obs A: l1|l2
delta: l0 (a) (l1, l2), l1 (a) win, l2 (b) win, l1 (b) l0, l2 (a) l0, win (a, b) win
";

#[test]
fn outcome_kinds() {
    assert!(Outcome::Win(2).is_win());
    assert!(Outcome::Maybe(1, 2).is_maybe());
    assert!(Outcome::Lose.is_lose());
    assert!(Outcome::Maybe(0, 0).can_win());
    assert!(!Outcome::Lose.can_win());
    assert_eq!(Outcome::default(), Outcome::Lose);
}

#[test]
fn outcome_increment() {
    assert_eq!(Outcome::Win(1).increment(), Outcome::Win(2));
    assert_eq!(Outcome::Maybe(1, 4).increment(), Outcome::Maybe(2, 5));
    assert_eq!(Outcome::Lose.increment(), Outcome::Lose);
}

#[test]
fn outcome_order() {
    assert_eq!(Outcome::Win(1).cmp(&Outcome::Win(2)), Ordering::Less);
    assert_eq!(Outcome::Win(9).cmp(&Outcome::Maybe(0, 0)), Ordering::Less);
    // a sooner sure win is better; among uncertain ones, the second count decides first
    assert_eq!(Outcome::Maybe(5, 1).cmp(&Outcome::Maybe(1, 2)), Ordering::Less);
    assert_eq!(Outcome::Maybe(1, 2).cmp(&Outcome::Maybe(3, 2)), Ordering::Less);
    assert_eq!(Outcome::Lose.cmp(&Outcome::Maybe(7, 7)), Ordering::Greater);
    assert_eq!(Outcome::Lose.cmp(&Outcome::Lose), Ordering::Equal);
    assert!(Outcome::Win(3).le(&Outcome::Win(3)));
    assert!(!Outcome::Lose.le(&Outcome::Win(3)));
}

#[test]
fn outcome_and_or() {
    assert_eq!(Outcome::Win(1).bitand(Outcome::Win(3)), Outcome::Win(3));
    assert_eq!(Outcome::Win(2).bitand(Outcome::Lose), Outcome::Maybe(2, 0));
    assert_eq!(Outcome::Maybe(1, 5).bitand(Outcome::Maybe(3, 2)), Outcome::Maybe(1, 2));
    assert_eq!(Outcome::Lose.bitand(Outcome::Lose), Outcome::Lose);
    assert_eq!(Outcome::Win(1).bitor(Outcome::Win(3)), Outcome::Win(1));
    assert_eq!(Outcome::Maybe(1, 1).bitor(Outcome::Win(4)), Outcome::Win(4));
    assert_eq!(Outcome::Lose.bitor(Outcome::Maybe(2, 3)), Outcome::Maybe(2, 3));
    // laws on values: commutative, Lose is the unit of `or`
    for a in [Outcome::Win(2), Outcome::Maybe(1, 3), Outcome::Lose] {
        for b in [Outcome::Win(5), Outcome::Maybe(0, 1), Outcome::Lose] {
            assert_eq!(a.bitor(b), b.bitor(a));
            assert_eq!(a.bitand(b), b.bitand(a));
        }
        assert_eq!(a.bitor(Outcome::Lose), a);
        assert_eq!(a.bitor(a), a);
    }
    let mut x = Outcome::Lose;
    x.bitor_assign(Outcome::Win(2));
    assert_eq!(x, Outcome::Win(2));
    x.bitand_assign(Outcome::Lose);
    assert_eq!(x, Outcome::Maybe(2, 0));
}

#[test]
fn outcome_set_records_actions() {
    let mut o = OutcomeSet::new(2, false);
    assert_eq!(o.outcome, Outcome::Lose);
    let (changed, before) = o.insert(Act(1), Outcome::Win(2));
    assert!(changed);
    assert_eq!(before, Outcome::Lose);
    assert_eq!(o.action, vec![Outcome::Lose, Outcome::Win(2)]);
    assert_eq!(o.outcome, Outcome::Win(2));
    let (changed, _) = o.insert(Act(1), Outcome::Win(3));
    assert!(!changed);
    o.action[0] = Outcome::Win(1);
    o.calculate_outcome();
    assert_eq!(o.outcome, Outcome::Win(1));
    let goal = OutcomeSet::new(1, true);
    assert_eq!(goal.outcome, Outcome::Win(0));
}

#[test]
fn outcomes_of_a_simple_game() {
    let g = game_of(SIMPLE);
    let w = find_outcomes(&g);
    assert_eq!(w.len(), 2);
    // s: going wins in one step
    assert_eq!(w[0].action[0], Outcome::Win(1));
    assert!(w[0].outcome.is_win());
    assert_eq!(w[1].outcome, Outcome::Win(0));
}

#[test]
fn outcomes_of_a_guess() {
    let g = game_of(GUESS);
    let w = find_outcomes(&g);
    // seeing everything, the agent wins from everywhere
    for set in &w {
        assert!(set.outcome.is_win());
    }
    // at l1 only a wins at once, at l2 only b
    assert_eq!(w[1].action[0], Outcome::Win(1));
    assert_eq!(w[2].action[1], Outcome::Win(1));
}

#[test]
fn exploration_reports_each_location_once() {
    let g = game_of(GUESS);
    let ev = explore(&g);
    let nodes: Vec<Loc> = ev.iter().filter_map(|e| match e {
        ExploreEvent::Node(l) => Some(*l),
        _ => None,
    }).collect();
    assert_eq!(nodes.len(), 4);
    assert_eq!(nodes[0], Loc(0));
    let edges = ev.iter().filter(|e| matches!(e, ExploreEvent::Edge(_, _, _))).count();
    let total: usize = (0..g.n_loc()).map(|l| g.successors(Loc(l as u32)).len()).sum();
    assert_eq!(edges, total);
}

#[test]
fn location_sets() {
    let g = game_of(GUESS);
    let mut s = LocSet::new(&g);
    assert!(s.is_empty());
    assert_eq!(s.first(), None);
    s.insert(Loc(2));
    assert!(!s.put(Loc(1)));
    assert!(s.put(Loc(1)));
    assert!(s.contains(Loc(2)));
    assert!(!s.contains(Loc(0)));
    assert_eq!(s.iter(), vec![Loc(1), Loc(2)]);
    assert_eq!(s.first(), Some(Loc(1)));
    s.remove(Loc(1));
    assert_eq!(s.iter(), vec![Loc(2)]);
    let t = LocSet::from_iter(&g, &vec![Loc(2), Loc(3)]);
    let u = LocSet::intersection(&vec![&s, &t]);
    assert_eq!(u.iter(), vec![Loc(2)]);
    let single = LocSet::singleton(&g, Loc(2));
    assert!(single.eq(&u));
    s.clear();
    assert!(s.is_empty());
}

#[test]
fn observation_subsets() {
    let g = game_of(GUESS);
    let o = g.observe(Loc(1))[0];
    assert_eq!(g.observe(Loc(2))[0], o);
    let mut s = ObsSubset::new(&g, o);
    assert!(s.is_empty());
    assert!(!s.put(&g, Loc(2)));
    assert!(s.put(&g, Loc(2)));
    assert!(!s.is_empty());
    assert_eq!(s.iter(&g), vec![Loc(2)]);
    let before = s.clone();
    assert!(!s.put(&g, Loc(1)));
    assert_eq!(s.iter(&g), vec![Loc(1), Loc(2)]);
    assert!(!s.eq(&before));
    assert!(s.eq(&s.clone()));
    let start = ObsSubset::s0(&g);
    assert_eq!(start.obs, g.observe(Loc(0))[0]);
    assert_eq!(start.iter(&g), vec![Loc(0)]);
}

#[test]
fn profiles_of_two_agents() {
    let g = game_of("
agt: A, B
act: a, b, c
loc: s
l0: s
delta: s (a a) s
");
    let p = g.action_profiles();
    assert_eq!(p.len(), 9);
    assert_eq!(p[0], vec![Act(0), Act(0)]);
    assert_eq!(p[1], vec![Act(0), Act(1)]);
    assert_eq!(p[8], vec![Act(2), Act(2)]);
    assert_eq!(g.n_action_profiles(), 9);
    assert_eq!(g.iter_agt(), vec![Agt(0), Agt(1)]);
    assert_eq!(g.iter_act(Agt(1)).len(), 3);
}

#[test]
fn game_queries() {
    let g = game_of(GUESS);
    let o1 = g.observe(Loc(1))[0];
    assert_eq!(g.to_unique_loc(o1, Agt(0)), None);
    let o0 = g.observe(Loc(0))[0];
    assert_eq!(g.to_unique_loc(o0, Agt(0)), Some(Loc(0)));
    let ow = g.observe(Loc(3))[0];
    assert!(g.is_obs_winning(Agt(0), ow));
    assert!(!g.is_obs_winning(Agt(0), o1));
    assert_eq!(g.neighbors(Loc(0)), vec![Loc(1), Loc(2)]);
    assert_eq!(g.n_obs(Agt(0)), 3);
    assert_eq!(g.obs_set(Agt(0), o1).len(), 2);
    assert_eq!(g.edges().len(), 8);
    assert_eq!(g.post(Loc(0), &vec![Act(0)]), vec![Loc(1), Loc(2)]);
    assert!(g.post(Loc(0), &vec![Act(1)]).is_empty());
    assert_eq!(g.pre(Loc(0), &vec![Act(1)]), vec![Loc(1)]);
    assert_eq!(g.obs0(), vec![Obs(0)]);
}

#[test]
fn grouped_edges_and_shared_observations() {
    let g = game_of(GUESS);
    let d = g.edges_dedup();
    assert_eq!(d.len(), 7);
    assert_eq!((d[0].0, d[0].2), (Loc(0), Loc(1)));
    assert_eq!(d[0].1, vec![vec![Act(0)]]);
    assert_eq!((d[1].0, d[1].2), (Loc(0), Loc(2)));
    assert_eq!((d[2].0, d[2].2), (Loc(1), Loc(0)));
    assert_eq!(d[2].1, vec![vec![Act(1)]]);
    assert_eq!((d[6].0, d[6].2), (Loc(3), Loc(3)));
    assert_eq!(d[6].1.len(), 2);
    assert!(d[6].1.contains(&vec![Act(0)]));
    assert!(d[6].1.contains(&vec![Act(1)]));
    let ss = g.succ_set(&vec![Loc(3), Loc(0)]);
    assert_eq!(ss.len(), 4);
    assert_eq!(ss[0].1, Loc(3));
    assert_eq!(ss[1].1, Loc(3));
    assert_eq!(ss[2].0, vec![Act(0)]);
    assert_eq!(g.shared_observations(Loc(1), Loc(2)), vec![Agt(0)]);
    assert!(g.shared_observations(Loc(0), Loc(1)).is_empty());
}

#[test]
fn index_types() {
    assert_eq!(agent_index(3).index(), 3);
    assert_eq!(action_index(7).index(), 7);
    assert_eq!(obs_index(0).index(), 0);
    let e = DEdge::new(vec![action_index(1), action_index(0)]);
    assert_eq!(e.act.len(), 2);
    let n = DNode::new(true, vec![obs_index(2)], "x");
    assert!(n.is_winning);
    assert_eq!(n.data, "x");
    let s = VecStrat::new(&vec![1, 0, 2]);
    assert_eq!(s.0[2].index(), 2);
    let s1 = VecStrat::new1(&vec![4]);
    assert_eq!(s1.0[0][0].index(), 4);
    let m: MapEntry<u8> = MapEntry::Action(1, 5);
    assert_ne!(m, MapEntry::Absent);
    let h = vec![Loc(3), Loc(5)];
    assert_eq!(History::len(&h), 2);
    assert_eq!(History::loc(&h, 1), Loc(5));
}

#[test]
fn symbols() {
    let a = intern("alpha");
    let b = intern("alpha");
    assert!(a.same(&b));
    assert_eq!(a, b);
    assert_eq!(a.as_str(), "alpha");
    let names = vec![intern("x"), intern("alpha")];
    assert_eq!(find_symbol(&names, &a), Some(1));
    assert_eq!(find_symbol(&names, &intern("y")), None);
    assert_eq!(a.copy().as_str(), "alpha");
}

#[test]
fn exploration_starts_at_the_initial_location() {
    let g = game_of(SIMPLE);
    let ev = explore(&g);
    assert!(matches!(ev[0], ExploreEvent::Node(Loc(0))));
    let nodes = ev.iter().filter(|e| matches!(e, ExploreEvent::Node(_))).count();
    assert_eq!(nodes, 2);
}

#[test]
fn outcomes_lose_exactly_where_no_goal_is_reachable() {
    let g = game_of("
agt: A
act: a, b
loc: s, t, dead, win
reach: win
l0: s
delta: s (a) t, s (b) dead, t (a) win, t (b) t, dead (a, b) dead, win (a, b) win
");
    let w = find_outcomes(&g);
    assert_eq!(w.len(), 4);
    assert!(!matches!(w[0].outcome, Outcome::Lose));
    assert!(!matches!(w[1].outcome, Outcome::Lose));
    assert!(matches!(w[2].outcome, Outcome::Lose));
    assert!(!matches!(w[3].outcome, Outcome::Lose));
}

#[test]
fn outcomes_win_exactly_where_the_goal_can_be_forced() {
    let g = game_of("
agt: A
act: a, b
loc: s, t, dead, win
reach: win
l0: s
delta: s (a) (t, dead), s (b) s, t (a) win, t (b) t, dead (a, b) dead, win (a, b) win
");
    let w = find_outcomes(&g);
    assert!(w[1].outcome.is_win());
    assert!(w[3].outcome.is_win());
    assert!(!w[0].outcome.is_win());
    assert!(!matches!(w[0].outcome, Outcome::Lose));
    assert!(!w[0].action[0].is_win());
    assert!(w[1].action[0].is_win());
}

#[test]
fn exploration_reports_each_listed_transition() {
    let g = game_of(GUESS);
    let ev = explore(&g);
    for l in 0..g.n_loc() {
        let l = Loc(l as u32);
        for (a, l2) in g.successors(l).iter() {
            let listed = g.successors(l).iter().filter(|(b, x)| b == a && x == l2).count();
            let reported = ev.iter().filter(|e| matches!(e, ExploreEvent::Edge(x, b, y) if *x == l && b == a && y == l2)).count();
            assert_eq!(listed, reported);
        }
    }
}
