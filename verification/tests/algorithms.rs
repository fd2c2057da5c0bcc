use std::collections::BTreeMap;

use mkbsc::construct::build_game;
use mkbsc::game::Game;
use mkbsc::io_game::{IOGame, Statement};
use mkbsc::isomorphism::{check_iso_map, is_isomorphic};
use mkbsc::kbsc::KBSC;
use mkbsc::mkbsc::MKBSC;
use mkbsc::parser::parse;
use mkbsc::strategy::{verify_strategy, Transducer};
use mkbsc::tex::tex_escaped;
use mkbsc::types::{Act, Loc, Obs, TransducerState};

fn game_of(text: &str) -> Game {
    let v = parse(text).ok().unwrap();
    let mut w = Vec::new();
    let g = IOGame::new(v, &mut w).ok().unwrap();
    build_game(g).unwrap().game
}

const ONE_AGENT: &str = "
agt: A
act: a, b
loc: l0, l1, l2, win
reach: win
l0: l0
obs A: l1|l2
delta: l0 (a) (l1, l2), l1 (a) win, l2 (b) win, l1 (b) l0, l2 (a) l0, win (a, b) win
";

/// The same game with the locations declared in another order.
const ONE_AGENT_RENAMED: &str = "
agt: A
act: a, b
loc: s, win, m1, m2
reach: win
l0: s
obs A: m1|m2
delta: s (a) (m2, m1), m2 (a) win, m1 (b) win, m2 (b) s, m1 (a) s, win (a, b) win
";

/// The same graph as `ONE_AGENT`, but the agent sees everything.
const ONE_AGENT_SEEING: &str = "
agt: A
act: a, b
loc: l0, l1, l2, win
reach: win
l0: l0
delta: l0 (a) (l1, l2), l1 (a) win, l2 (b) win, l1 (b) l0, l2 (a) l0, win (a, b) win
";

#[test]
fn parse_reads_statements() {
    let v = parse(ONE_AGENT).ok().unwrap();
    assert_eq!(v.len(), 7);
    match &v[0] {
        Statement::Agt(l) => {
            assert_eq!(l.len(), 1);
            assert_eq!(l[0].as_str(), "A");
        }
        _ => panic!("expected agents first"),
    }
    match &v[5] {
        Statement::Obs(a, groups) => {
            assert_eq!(a.as_str(), "A");
            assert_eq!(groups.len(), 1);
            assert_eq!(groups[0].len(), 2);
        }
        _ => panic!("expected an observation"),
    }
}

#[test]
fn parse_expands_delta_options() {
    let v = parse("delta: (x, y) (a, b) z").ok().unwrap();
    assert_eq!(v.len(), 1);
    match &v[0] {
        Statement::Delta(es) => {
            assert_eq!(es.len(), 4);
            assert_eq!(es[0].0.as_str(), "x");
            assert_eq!(es[0].2.as_str(), "z");
        }
        _ => panic!("expected transitions"),
    }
}

#[test]
fn parse_keywords_ignore_case() {
    let v = parse("AGT: A\nL0: s").ok().unwrap();
    assert_eq!(v.len(), 2);
    assert!(matches!(&v[1], Statement::L0(s) if s.as_str() == "s"));
}

#[test]
fn parse_rejects_garbage() {
    assert!(parse("agt: A\n???").is_err());
    assert!(parse("").is_err());
}

#[test]
fn tex_escaping() {
    assert_eq!(tex_escaped("a_b{c}"), "a\\_b\\{c\\}");
    assert_eq!(tex_escaped("x~y"), "x\\textasciitilde y");
    assert_eq!(tex_escaped("p^q\\r"), "p\\textasciicircum q\\textbackslash r");
    assert_eq!(tex_escaped("100%&$#"), "100\\%\\&\\$\\#");
    assert_eq!(tex_escaped("plain"), "plain");
}

#[test]
fn isomorphic_to_itself() {
    let g = game_of(ONE_AGENT);
    assert!(is_isomorphic(&g, &g, true));
    assert!(is_isomorphic(&g, &g, false));
}

#[test]
fn isomorphic_after_renaming() {
    let g0 = game_of(ONE_AGENT);
    let g1 = game_of(ONE_AGENT_RENAMED);
    assert!(is_isomorphic(&g0, &g1, true));
    assert!(is_isomorphic(&g1, &g0, true));
}

#[test]
fn observations_tell_games_apart() {
    let g0 = game_of(ONE_AGENT);
    let g1 = game_of(ONE_AGENT_SEEING);
    assert!(is_isomorphic(&g0, &g1, false));
    assert!(!is_isomorphic(&g0, &g1, true));
}

#[test]
fn different_sizes_are_not_isomorphic() {
    let g0 = game_of(ONE_AGENT);
    let g1 = game_of("agt: A\nact: a\nloc: s\nl0: s\ndelta: s (a) s");
    assert!(!is_isomorphic(&g0, &g1, false));
}

#[test]
fn identity_is_an_isomorphism() {
    let g = game_of(ONE_AGENT);
    let f: Vec<Loc> = (0..g.n_loc() as u32).map(Loc).collect();
    assert!(check_iso_map(&g, &g, &f, true));
    let mut swapped = f.clone();
    swapped.swap(0, 1);
    assert!(!check_iso_map(&g, &g, &swapped, false));
}

#[test]
fn iso_map_rejects_maps_that_are_not_permutations() {
    let g = game_of(ONE_AGENT);
    let n = g.n_loc() as u32;
    let short: Vec<Loc> = (0..n - 1).map(Loc).collect();
    assert!(!check_iso_map(&g, &g, &short, false));
    let mut twice: Vec<Loc> = (0..n).map(Loc).collect();
    twice[2] = Loc(1);
    assert!(!check_iso_map(&g, &g, &twice, false));
    let mut outside: Vec<Loc> = (0..n).map(Loc).collect();
    outside[3] = Loc(n);
    assert!(!check_iso_map(&g, &g, &outside, false));
}

#[test]
fn iso_map_compares_observations_only_when_asked() {
    let g = game_of(ONE_AGENT);
    let seeing = game_of(ONE_AGENT_SEEING);
    let f: Vec<Loc> = (0..g.n_loc() as u32).map(Loc).collect();
    assert!(check_iso_map(&g, &seeing, &f, false));
    assert!(!check_iso_map(&g, &seeing, &f, true));
    assert!(is_isomorphic(&g, &seeing, false));
    assert!(!is_isomorphic(&g, &seeing, true));
}

#[test]
fn knowledge_game_of_perfect_information_is_isomorphic() {
    let g = game_of(ONE_AGENT_SEEING);
    let k = build_game(KBSC::new(g.clone())).unwrap();
    assert!(is_isomorphic(&g, &k.game, true));
}

#[test]
fn mkbsc_reaches_a_fixed_point() {
    let g = game_of(ONE_AGENT);
    let g1 = build_game(MKBSC::new(g.clone()).unwrap()).unwrap().game;
    let g2 = build_game(MKBSC::new(g1.clone()).unwrap()).unwrap().game;
    assert!(is_isomorphic(&g1, &g2, true));
}

fn memoryless(actions: Vec<u16>) -> Transducer {
    Transducer {
        transitions: BTreeMap::new(),
        actions: actions.into_iter().map(Act).collect(),
    }
}

const SIMPLE: &str = "
agt: A
act: go, stay
loc: s, t
reach: t
l0: s
delta: s (go) t, s (stay) s, t (go, stay) t
";

#[test]
fn strategy_that_moves_wins() {
    let g = game_of(SIMPLE);
    let go = memoryless(vec![0]);
    assert_eq!(go.init(), TransducerState(0));
    assert_eq!(go.action(&TransducerState(0)), Act(0));
    assert!(verify_strategy(&g, &vec![go]));
}

#[test]
fn strategy_that_stays_loses() {
    let g = game_of(SIMPLE);
    let mut stay = memoryless(vec![1]);
    // stays in s forever: a cycle that avoids the goal
    stay.transitions.insert((0, 0), 0);
    assert!(!verify_strategy(&g, &vec![stay]));
}

#[test]
fn strategy_without_transition_stops_the_play() {
    let g = game_of(SIMPLE);
    // staying, but the transducer has nothing to do after it: no play goes on
    let stay = memoryless(vec![1]);
    assert!(!verify_strategy(&g, &vec![stay]));
}

#[test]
fn strategy_with_memory_waits_once() {
    let g = game_of(SIMPLE);
    let o = g.observe(Loc(0))[0];
    let mut t = Transducer { transitions: BTreeMap::new(), actions: vec![Act(1), Act(0)] };
    // state 0 stays; after seeing s again, state 1 goes
    t.transitions.insert((o.0, 0), 1);
    assert_eq!(t.update(o, &TransducerState(0)), Some(TransducerState(1)));
    assert_eq!(t.update(Obs(o.0 + 1), &TransducerState(0)), None);
    assert!(verify_strategy(&g, &vec![t]));
}

#[test]
fn strategy_needs_a_move_for_each_agent() {
    let g = game_of("
agt: A, B
act: a, b
loc: s, t, u
reach: t
l0: s
delta: s (a a) t, s (a b) u, s (b a) u, s (b b) u, t (a a) t, u (a a) u
");
    assert!(verify_strategy(&g, &vec![memoryless(vec![0]), memoryless(vec![0])]));
    assert!(!verify_strategy(&g, &vec![memoryless(vec![0]), memoryless(vec![1])]));
}
