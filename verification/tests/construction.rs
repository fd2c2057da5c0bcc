use mkbsc::symbol::{intern, Symbol};
use mkbsc::io_game::{IOGame, IOGameError, Statement, Warning};
use mkbsc::construct::{build_game, AbstractGame};
use mkbsc::kbsc::KBSC;
use mkbsc::mkbsc::MKBSC;
use mkbsc::project::Project;
use mkbsc::types::{Loc, Obs, Agt, Act};

fn names(v: &[&str]) -> Vec<Symbol> {
    v.iter().map(|s| intern(s)).collect()
}

fn tr(l: &str, a: &[&str], l2: &str) -> (Symbol, Vec<Symbol>, Symbol) {
    (intern(l), names(a), intern(l2))
}

/// One agent, two actions; the agent cannot tell l1 from l2.
fn one_agent() -> Vec<Statement> {
    vec![
        Statement::Agt(names(&["A"])),
        Statement::Act(names(&["a", "b"])),
        Statement::Loc(names(&["l0", "l1", "l2", "win"])),
        Statement::Reach(names(&["win"])),
        Statement::L0(intern("l0")),
        Statement::Obs(intern("A"), vec![names(&["l1", "l2"])]),
        Statement::Delta(vec![
            tr("l0", &["a"], "l1"),
            tr("l0", &["a"], "l2"),
            tr("l1", &["a"], "win"),
            tr("l2", &["b"], "win"),
            tr("l1", &["b"], "l0"),
            tr("l2", &["a"], "l0"),
            tr("win", &["a"], "win"),
            tr("win", &["b"], "win"),
        ]),
    ]
}

#[test]
fn io_game_reads_names_in_order() {
    let mut w = Vec::new();
    let g = IOGame::new(one_agent(), &mut w).ok().unwrap();
    assert_eq!(g.agt.len(), 1);
    assert_eq!(g.act.len(), 2);
    assert_eq!(g.loc.len(), 4);
    assert_eq!(g.l0, Loc(0));
    assert_eq!(g.reach, vec![false, false, false, true]);
    assert!(w.is_empty());
}

#[test]
fn io_game_duplicate_location() {
    let mut v = one_agent();
    v.push(Statement::Loc(names(&["l1"])));
    let mut w = Vec::new();
    match IOGame::new(v, &mut w) {
        Err(IOGameError::DuplicateLocation(s)) => assert_eq!(s.as_str(), "l1"),
        other => panic!("unexpected {:?}", other.is_ok()),
    }
}

#[test]
fn io_game_undefined_location() {
    let mut v = one_agent();
    v.push(Statement::Delta(vec![tr("l0", &["a"], "nowhere")]));
    let mut w = Vec::new();
    match IOGame::new(v, &mut w) {
        Err(IOGameError::UndefinedLocation(s)) => assert_eq!(s.as_str(), "nowhere"),
        other => panic!("unexpected {:?}", other.is_ok()),
    }
}

#[test]
fn io_game_wrong_action_count() {
    let mut v = one_agent();
    v.push(Statement::Delta(vec![tr("l0", &["a", "b"], "l1")]));
    let mut w = Vec::new();
    match IOGame::new(v, &mut w) {
        Err(IOGameError::WrongActionCount(1, 2)) => {},
        other => panic!("unexpected {:?}", other.is_ok()),
    }
}

#[test]
fn io_game_no_l0() {
    let v: Vec<Statement> = one_agent().into_iter().filter(|s| !matches!(s, Statement::L0(_))).collect();
    let mut w = Vec::new();
    assert!(matches!(IOGame::new(v, &mut w), Err(IOGameError::L0Undefined)));
}

#[test]
fn io_game_two_l0() {
    let mut v = one_agent();
    v.push(Statement::L0(intern("l1")));
    let mut w = Vec::new();
    assert!(matches!(IOGame::new(v, &mut w), Err(IOGameError::L0Multiple)));
}

#[test]
fn io_game_duplicate_transition_warns() {
    let mut v = one_agent();
    v.push(Statement::Delta(vec![tr("l0", &["a"], "l1")]));
    let mut w = Vec::new();
    assert!(IOGame::new(v, &mut w).is_ok());
    assert_eq!(w.len(), 1);
    assert!(matches!(&w[0], Warning::DuplicateTransition(_, _, _)));
}

#[test]
fn io_game_observations_join_locations() {
    let mut w = Vec::new();
    let g = IOGame::new(one_agent(), &mut w).ok().unwrap();
    let o1 = g.obs(&Loc(1));
    let o2 = g.obs(&Loc(2));
    let o0 = g.obs(&Loc(0));
    assert_eq!(o1, o2);
    assert_ne!(o0, o1);
}

#[test]
fn build_numbers_locations_breadth_first() {
    let mut w = Vec::new();
    let g = IOGame::new(one_agent(), &mut w).ok().unwrap();
    let c = build_game(g).unwrap();
    assert_eq!(c.game.n_loc(), 4);
    // l0, then its successors l1 and l2, then win
    assert_eq!(*c.origin_loc(Loc(0)), Loc(0));
    assert_eq!(*c.origin_loc(Loc(1)), Loc(1));
    assert_eq!(*c.origin_loc(Loc(2)), Loc(2));
    assert_eq!(*c.origin_loc(Loc(3)), Loc(3));
    assert!(c.game.is_winning(Loc(3)));
    assert!(!c.game.is_winning(Loc(0)));
    // l1 and l2 share an observation, l0 has its own
    assert_eq!(c.game.observe(Loc(1)), c.game.observe(Loc(2)));
    assert_eq!(c.game.observe(Loc(0)), vec![Obs(0)]);
    assert_eq!(c.game.successors(Loc(0)).len(), 2);
}

#[test]
fn unreachable_locations_are_left_out() {
    let mut v = one_agent();
    v.push(Statement::Loc(names(&["island"])));
    let mut w = Vec::new();
    let g = IOGame::new(v, &mut w).ok().unwrap();
    let c = build_game(g).unwrap();
    assert_eq!(c.game.n_loc(), 4);
}

#[test]
fn knowledge_game_merges_indistinguishable_locations() {
    let mut w = Vec::new();
    let g = IOGame::new(one_agent(), &mut w).ok().unwrap();
    let c = build_game(g).unwrap();
    let k = build_game(KBSC::new(c.game)).unwrap();
    // {l0}, {l1, l2}, {win}, and after a from {l1,l2}: {win} or {l0}
    assert_eq!(k.game.n_loc(), 3);
    let s1 = k.origin_loc(Loc(1));
    assert!(s1.contains(Loc(1)) && s1.contains(Loc(2)) && !s1.contains(Loc(0)));
    assert!(k.game.is_winning(Loc(2)));
}

#[test]
fn projection_keeps_locations() {
    let mut w = Vec::new();
    let g = IOGame::new(one_agent(), &mut w).ok().unwrap();
    let c = build_game(g).unwrap();
    let p = build_game(Project::new(&c.game, Agt(0))).unwrap();
    assert_eq!(p.game.n_loc(), c.game.n_loc());
}

#[test]
fn mkbsc_of_one_agent_game() {
    let mut w = Vec::new();
    let g = IOGame::new(one_agent(), &mut w).ok().unwrap();
    let c = build_game(g).unwrap();
    let m = MKBSC::new(c.game).unwrap();
    let gk = build_game(m).unwrap();
    assert_eq!(gk.game.n_loc(), 3);
    assert_eq!(gk.game.n_actions, vec![2]);
    let a = vec![Act(0)];
    assert!(!gk.game.post(Loc(0), &a).is_empty());
}

#[test]
fn io_game_duplicate_agent_comes_first() {
    let v: Vec<Statement> = vec![
        Statement::Agt(names(&["p", "p"])),
        Statement::Act(names(&["a"])),
        Statement::Loc(names(&["l"])),
        Statement::Delta(vec![tr("l", &["a", "a"], "l")]),
    ];
    let mut w = Vec::new();
    match IOGame::new(v, &mut w) {
        Err(IOGameError::DuplicateAgent(s)) => assert_eq!(s, intern("p")),
        other => panic!("unexpected {:?}", other.is_ok()),
    }
}
