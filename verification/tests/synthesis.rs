use mkbsc::construct::build_game;
use mkbsc::copy::copy_game;
use mkbsc::game::Game;
use mkbsc::index::Stats;
use mkbsc::io_game::IOGame;
use mkbsc::isomorphism::is_isomorphic;
use mkbsc::outcome::{Outcome, OutcomeSet};
use mkbsc::parser::parse;
use mkbsc::stack::{synthesize, MKBSCStack, SynthesisStop};
use mkbsc::strategy::verify_strategy;
use mkbsc::text::{game_text_of, tikz_text_of};
use mkbsc::transfer::check_moves_observable;
use mkbsc::synthesis::{first_occurrences, options_of, same_profile, Strat};
use mkbsc::types::{Act, Agt};

fn game_of(text: &str) -> Game {
    let v = parse(text).ok().unwrap();
    let mut w = Vec::new();
    let g = IOGame::new(v, &mut w).ok().unwrap();
    build_game(g).unwrap().game
}

const SIMPLE: &str = "
agt: A
act: go, stay
loc: s, t
reach: t
l0: s
delta: s (go) t, s (stay) s, t (go, stay) t
";

const GUESS: &str = "
agt: A
act: a, b
loc: l0, l1, l2, win
reach: win
l0: l0
obs A: l1|l2
delta: l0 (a) (l1, l2), l1 (a) win, l2 (b) win, l1 (b) l0, l2 (a) l0, win (a, b) win
";

const TWO: &str = "
agt: A, B
act: a, b
loc: s, t, u
reach: t
l0: s
delta: s (a a) t, s (a b) u, s (b a) u, s (b b) u, t (a a, b b) t, u (a a, b b) u
";

#[test]
fn options_put_the_best_first() {
    let o = OutcomeSet {
        action: vec![Outcome::Win(3), Outcome::Lose, Outcome::Win(1), Outcome::Maybe(0, 2)],
        outcome: Outcome::Win(1),
        initial: Outcome::Lose,
    };
    let best = options_of(&o, false).unwrap();
    assert_eq!(best, vec![Act(2)]);
    let all = options_of(&o, true).unwrap();
    assert_eq!(all, vec![Act(2), Act(0), Act(3)]);
}

#[test]
fn options_of_a_lost_location() {
    let o = OutcomeSet {
        action: vec![Outcome::Lose, Outcome::Lose],
        outcome: Outcome::Lose,
        initial: Outcome::Lose,
    };
    assert!(options_of(&o, false).is_none());
    assert!(options_of(&o, true).is_none());
}

#[test]
fn options_when_winning_is_uncertain() {
    let o = OutcomeSet {
        action: vec![Outcome::Maybe(2, 3), Outcome::Lose, Outcome::Maybe(1, 1)],
        outcome: Outcome::Maybe(1, 1),
        initial: Outcome::Lose,
    };
    assert_eq!(options_of(&o, false).unwrap(), vec![Act(2), Act(0)]);
}

#[test]
fn stack_grows_by_expansion() {
    let g = game_of(GUESS);
    let mut stack = MKBSCStack::new(g);
    assert_eq!(stack.len(), 1);
    assert!(stack.mkbsc(0).is_none());
    assert!(stack.push());
    assert_eq!(stack.len(), 2);
    assert!(stack.mkbsc(1).is_some());
    assert_eq!(stack.last().n_loc(), 3);
    assert_eq!(stack.kbsc(0, Agt(0)).game.n_loc(), 3);
    assert_eq!(stack.projection(0, Agt(0)).n_loc(), 4);
    assert!(stack.push());
    assert!(is_isomorphic(stack.get(1), stack.get(2), true));
    stack.clear();
    assert_eq!(stack.len(), 1);
}

#[test]
fn no_search_on_the_base_game() {
    let stack = MKBSCStack::new(game_of(SIMPLE));
    assert!(stack.find_strategy_profile(false).is_none());
}

#[test]
fn synthesis_finds_the_move() {
    let mut stack = MKBSCStack::new(game_of(SIMPLE));
    assert!(stack.push());
    let x = stack.find_strategy_profile(false).unwrap();
    let res = &x.search;
    // the bound 0 cuts the search at the initial location; the bound 1 does not
    assert_eq!(res.rounds.len(), 2);
    assert!(res.rounds[0].is_empty());
    assert_eq!(res.rounds[1].len(), 1);
    assert_eq!(res.rounds[1][0][0].choice[0], Some(Act(0)));
    let t = x.expanded.unwrap();
    assert_eq!(t.len(), 1);
    assert!(verify_strategy(stack.last(), &t));
    let b = x.base.unwrap();
    assert!(verify_strategy(stack.get(0), &b));
}

#[test]
fn synthesis_of_all_strategies() {
    let mut stack = MKBSCStack::new(game_of(SIMPLE));
    assert!(stack.push());
    let x = stack.find_strategy_profile(true).unwrap();
    let res = &x.search;
    let found: usize = res.rounds.iter().map(|r| r.len()).sum();
    assert_eq!(found, 1);
    let first = first_occurrences(res);
    assert_eq!(first.len(), res.rounds.len());
    assert!(first[1][0]);
    assert!(x.expanded.is_some());
    assert!(x.base.is_some());
}

#[test]
fn guessing_game_has_no_strategy() {
    let mut stack = MKBSCStack::new(game_of(GUESS));
    assert!(stack.push());
    let x = stack.find_strategy_profile(true).unwrap();
    assert!(x.search.rounds.iter().all(|r| r.is_empty()));
    assert!(x.expanded.is_none());
    assert!(x.base.is_none());
}

#[test]
fn two_agents_agree() {
    let mut stack = MKBSCStack::new(game_of(TWO));
    assert!(stack.push());
    let x = stack.find_strategy_profile(false).unwrap();
    let res = &x.search;
    let p = &res.rounds[res.rounds.len() - 1][0];
    assert_eq!(p.len(), 2);
    let t = x.expanded.unwrap();
    assert!(verify_strategy(stack.last(), &t));
    let b = x.base.unwrap();
    assert_eq!(b.len(), 2);
    assert!(verify_strategy(stack.get(0), &b));
    let mut seen = Vec::new();
    for s in p {
        seen.push(Strat { choice: s.choice.clone() });
    }
    assert!(same_profile(p, &seen));
    seen[0].choice.push(None);
    assert!(!same_profile(p, &seen));
}

#[test]
fn deeper_expansions_give_base_strategies() {
    let mut stack = MKBSCStack::new(game_of(SIMPLE));
    assert!(stack.push());
    assert!(stack.push());
    let x = stack.find_strategy_profile(false).unwrap();
    assert!(x.expanded.is_some());
    let b = x.base.unwrap();
    assert!(verify_strategy(stack.get(0), &b));
    assert!(stack.push());
    let y = stack.find_strategy_profile(true).unwrap();
    let b = y.base.unwrap();
    assert!(verify_strategy(stack.get(0), &b));
}

#[test]
fn copies_are_isomorphic() {
    let g = game_of(TWO);
    let c = copy_game(&g);
    assert_eq!(c.n_loc(), g.n_loc());
    assert!(is_isomorphic(&g, &c, true));
}

#[test]
fn stats_add_up() {
    let a = Stats { steps: 3, nodes: 2, backtracks: -1 };
    let b = Stats { steps: 4, nodes: 1, backtracks: 5 };
    let c = a.add(b);
    assert_eq!(c.steps, 7);
    assert_eq!(c.nodes, 3);
    assert_eq!(c.backtracks, 4);
}

#[test]
fn found_profiles_choose_among_the_options() {
    let mut stack = MKBSCStack::new(game_of(SIMPLE));
    assert!(stack.push());
    let x = stack.find_strategy_profile(true).unwrap();
    let res = &x.search;
    assert_eq!(res.options.len(), 1);
    for round in res.rounds.iter() {
        for p in round.iter() {
            for (i, s) in p.iter().enumerate() {
                for (l, c) in s.choice.iter().enumerate() {
                    if let Some(a) = c {
                        assert!(res.options[i][l].as_ref().unwrap().contains(a));
                    }
                }
            }
        }
    }
}

#[test]
fn no_options_no_profile() {
    let mut stack = MKBSCStack::new(game_of(GUESS));
    assert!(stack.push());
    let x = stack.find_strategy_profile(false).unwrap();
    assert_eq!(x.search.options.len(), 1);
    assert!(x.search.rounds.last().unwrap().is_empty());
}

#[test]
fn found_profile_decides_only_where_it_plays() {
    let mut stack = MKBSCStack::new(game_of(SIMPLE));
    assert!(stack.push());
    let x = stack.find_strategy_profile(false).unwrap();
    let p = &x.search.rounds[1][0];
    let decided = p[0].choice.iter().filter(|c| c.is_some()).count();
    assert_eq!(decided, 1);
    assert_eq!(p[0].choice[0], Some(Act(0)));
}

#[test]
fn rounds_go_on_only_while_the_bound_cuts() {
    let mut stack = MKBSCStack::new(game_of(SIMPLE));
    assert!(stack.push());
    let x = stack.find_strategy_profile(true).unwrap();
    let res = &x.search;
    assert_eq!(res.cut.len(), res.rounds.len());
    assert!(res.cut[0]);
    assert!(!res.cut[res.cut.len() - 1]);
}

#[test]
fn synthesis_stops_at_the_first_base_strategy() {
    let (stack, rounds, stop) = synthesize(game_of(SIMPLE), false, 10);
    assert_eq!(stop, SynthesisStop::Found);
    assert_eq!(rounds.len(), 2);
    assert_eq!(stack.len(), 2);
    assert!(rounds[0].synthesis.is_none());
    for (k, r) in rounds.iter().enumerate() {
        assert_eq!(r.n_loc, stack.get(k).n_loc());
    }
    let b = rounds[1].synthesis.as_ref().unwrap().base.as_ref().unwrap();
    assert!(verify_strategy(stack.get(0), b));
}

#[test]
fn synthesis_stops_at_the_limit() {
    let (stack, rounds, stop) = synthesize(game_of(SIMPLE), false, 0);
    assert_eq!(stop, SynthesisStop::Limit);
    assert_eq!(rounds.len(), 1);
    assert_eq!(stack.len(), 1);
    assert!(rounds[0].synthesis.is_none());
}

#[test]
fn synthesis_stops_when_the_expansions_settle() {
    let (stack, rounds, stop) = synthesize(game_of(GUESS), true, 10);
    assert_eq!(stop, SynthesisStop::Settled);
    assert_eq!(rounds.len(), 3);
    assert!(rounds[1].synthesis.as_ref().unwrap().base.is_none());
    assert!(rounds[2].synthesis.is_none());
    assert!(is_isomorphic(stack.get(2), stack.get(1), true));
}

#[test]
fn game_text_lists_every_part() {
    let g = game_of(SIMPLE);
    let names = vec!["s".to_string(), "t".to_string()];
    assert_eq!(
        game_text_of(&g, &names),
        "agt: 0\nact: 0, 1\nloc: s, t\nl0: s\nreach: t\ndelta:\ns (0) t,\ns (1) s,\nt (0) t,\nt (1) t"
    );
}

#[test]
fn game_text_shows_shared_observations() {
    let g = game_of(GUESS);
    let names: Vec<String> = (0..g.n_loc()).map(|l| format!("x{}", l)).collect();
    let text = game_text_of(&g, &names);
    assert!(text.starts_with("agt: 0\nact: 0, 1\nloc: x0, x1, x2, x3\nl0: x0\nreach: "), "{}", text);
    assert_eq!(text.matches("\nobs 0: ").count(), 1, "{}", text);
    assert_eq!(text.matches(",\n").count() + 1, g.edges().len(), "{}", text);
}

#[test]
fn tikz_figure_of_a_small_game() {
    let g = game_of(SIMPLE);
    let names = vec!["s".to_string(), "t_1".to_string()];
    let expected = String::new()
        + "\\begin{figure}\n  \\centering\n  \\begin{tikzpicture}\n"
        + "    \\node[state, initial] (0) {s};\n"
        + "    \\node[state, accepting] (1) {t\\_1};\n"
        + "\n"
        + "    \\draw (0) edge[loop above] node{(a1)} ();\n"
        + "    \\draw (0) edge[] node{(a0)} (1);\n"
        + "    \\draw (1) edge[loop above] node{(a0),(a1)} ();\n"
        + "\n"
        + "\n  \\end{tikzpicture}\n  \\caption{Game}\n  \\label{fig:game}\n\\end{figure}\n";
    assert_eq!(tikz_text_of(&g, &names), expected);
}

#[test]
fn tikz_figure_marks_shared_observations() {
    let g = game_of(TWO);
    let names: Vec<String> = (0..g.n_loc()).map(|l| format!("x{}", l)).collect();
    let text = tikz_text_of(&g, &names);
    assert_eq!(text.matches("edge[obs]").count(), 0, "{}", text);
    let g = game_of(GUESS);
    let names: Vec<String> = (0..g.n_loc()).map(|l| format!("x{}", l)).collect();
    let text = tikz_text_of(&g, &names);
    assert_eq!(text.matches("edge[obs] node{\\textasciitilde 0}").count(), 1, "{}", text);
}

/// One agent cannot tell `a` from `b`, and only `a` has a move.
const DEAD_END: &str = "
agt: A
act: x
loc: s, a, b, win
reach: win
l0: s
obs A: a|b
delta: s (x) (a, b), a (x) win, win (x) win
";

#[test]
fn a_hidden_dead_end_defeats_the_base_strategy() {
    let mut stack = MKBSCStack::new(game_of(DEAD_END));
    assert!(!check_moves_observable(stack.get(0)));
    assert!(stack.push());
    assert!(check_moves_observable(stack.get(1)));
    let x = stack.find_strategy_profile(false).unwrap();
    assert!(x.expanded.is_some());
    assert!(x.base.is_none());
}

#[test]
fn observable_moves_give_base_strategies() {
    for text in [SIMPLE, TWO] {
        let g = game_of(text);
        assert!(check_moves_observable(&g));
        let mut stack = MKBSCStack::new(g);
        assert!(stack.push());
        let x = stack.find_strategy_profile(false).unwrap();
        assert_eq!(x.expanded.is_some(), x.base.is_some());
    }
}
