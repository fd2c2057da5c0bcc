use mkbsc::construct::build_game;
use mkbsc::game::Game;
use mkbsc::io_game::IOGame;
use mkbsc::isomorphism::is_isomorphic;
use mkbsc::parser::parse;
use mkbsc::stack::{expand, synthesize, ExpandStop, MKBSCStack, SynthesisStop};
use mkbsc::strategy::verify_strategy;
use mkbsc::transfer::check_moves_observable;

/// Two agents carry a cup; the second cannot tell a bad grip from a good one.
const CUP_GAME: &str = "
agt: A, B
act: g, s, l
loc: start, bad, good, lose, win
reach: win
l0: start
obs B: bad|good
delta:
    start (g g) (bad, good),
    bad (s s) good,
    good (s s) good,
    bad (l l, l s, s l) lose,
    good (s l, l s) lose,
    good (l l) win,
    win (l l) win,
    lose (s s) lose
";

fn cup_game() -> Game {
    let v = parse(CUP_GAME).ok().unwrap();
    let mut w = Vec::new();
    let g = IOGame::new(v, &mut w).ok().unwrap();
    build_game(g).unwrap().game
}

fn cup_stack(levels: usize) -> MKBSCStack {
    let mut stack = MKBSCStack::new(cup_game());
    for _ in 0..levels {
        assert!(stack.push());
    }
    stack
}

#[test]
fn isomorphism_test_cup_game() {
    let stack = cup_stack(4);
    for i in 0..=4 {
        for j in 0..=4 {
            let (g0, g1) = (stack.get(i), stack.get(j));
            assert_eq!(is_isomorphic(g0, g1, false), i == j || i.min(j) >= 1, "({}, {})", i, j);
            assert_eq!(is_isomorphic(g0, g1, true), i == j || i.min(j) >= 2, "({}, {}) with observations", i, j);
        }
    }
}

#[test]
fn mkbsc_stack_test_cup_game() {
    let mut stack = MKBSCStack::new(cup_game());
    assert!(stack.find_strategy_profile(false).is_none());
    assert!(stack.find_strategy_profile(true).is_none());

    assert!(stack.push());
    assert!(stack.find_strategy_profile(false).unwrap().base.is_none());
    assert!(stack.find_strategy_profile(true).unwrap().base.is_none());

    for _ in 0..2 {
        assert!(stack.push());
        for find_all in [false, true] {
            let x = stack.find_strategy_profile(find_all).unwrap();
            let b = x.base.unwrap();
            assert!(verify_strategy(stack.get(0), &b));
            let t = x.expanded.unwrap();
            assert!(verify_strategy(stack.last(), &t));
        }
    }
}

#[test]
fn cup_game_expansions_settle() {
    assert!(!cup_stack(1).settled());
    assert!(!cup_stack(2).settled());
    assert!(cup_stack(3).settled());
}

#[test]
fn cup_game_synthesis_needs_two_expansions() {
    for find_all in [false, true] {
        let (stack, rounds, stop) = synthesize(cup_game(), find_all, 10);
        assert_eq!(stop, SynthesisStop::Found);
        assert_eq!(rounds.len(), 3);
        assert!(rounds[1].synthesis.as_ref().unwrap().base.is_none());
        let b = rounds[2].synthesis.as_ref().unwrap().base.as_ref().unwrap();
        assert!(verify_strategy(stack.get(0), b));
    }
    let (_, rounds, stop) = synthesize(cup_game(), false, 1);
    assert_eq!(stop, SynthesisStop::Limit);
    assert_eq!(rounds.len(), 2);
}

#[test]
fn cup_game_expansion_stops_when_settled() {
    let (stack, stop) = expand(cup_game(), 10, true);
    assert_eq!(stop, ExpandStop::Settled);
    assert_eq!(stack.len(), 4);
    assert!(is_isomorphic(stack.get(3), stack.get(2), true));
    assert!(!is_isomorphic(stack.get(2), stack.get(1), true));
    let (stack, stop) = expand(cup_game(), 10, false);
    assert_eq!(stop, ExpandStop::Limit);
    assert_eq!(stack.len(), 11);
    let (stack, stop) = expand(cup_game(), 2, true);
    assert_eq!(stop, ExpandStop::Limit);
    assert_eq!(stack.len(), 3);
}

#[test]
fn cup_game_moves_are_observable() {
    let stack = cup_stack(3);
    for k in 0..=3 {
        assert!(check_moves_observable(stack.get(k)));
    }
}
