//! Finite-memory strategies (transducers) and the check that a profile of
//! them wins a game.

use vstd::prelude::*;
use std::collections::BTreeMap;
use crate::types::{Loc, Obs, Act, TransducerState};
use crate::game::Game;
use crate::isomorphism::lemma_bounded_len;
use crate::copy::same_game;

verus! {

/// A finite-memory strategy of one agent: a transition table from the
/// current observation and memory state to the next memory state, and the
/// action played in each memory state. The initial memory state is 0.
#[derive(Debug)]
pub struct Transducer {
    /// `(observation, state) -> next state`.
    pub transitions: BTreeMap<(u32, u32), u32>,
    /// The action of each state.
    pub actions: Vec<Act>,
}

/// The order of the transition keys is the order that `BTreeMap` relies on.
proof fn lemma_key_order()
    ensures
        vstd::laws_cmp::obeys_cmp::<(u32, u32)>(),
{
    broadcast use vstd::laws_cmp::group_laws_cmp;
}

/// Sets the transition from `key` (an observation and a state) to `next`.
pub fn set_transition(t: &mut BTreeMap<(u32, u32), u32>, key: (u32, u32), next: u32)
    ensures
        final(t)@ == old(t)@.insert(key, next),
{
    proof {
        lemma_key_order();
    }
    t.insert(key, next);
}

impl Transducer {
    /// The next memory state after observing `o` in state `m`, if any.
    pub open spec fn next(&self, o: u32, m: u32) -> Option<u32> {
        if self.transitions@.contains_key((o, m)) {
            Some(self.transitions@[(o, m)])
        } else {
            None
        }
    }

    /// There is a state, and every transition leads to a state.
    pub open spec fn wf(&self) -> bool {
        &&& self.actions@.len() > 0
        &&& forall|k: (u32, u32)| #[trigger] self.transitions@.contains_key(k)
            ==> (self.transitions@[k] as int) < self.actions@.len()
    }

    /// The state after observing `obs` in state `mem`.
    pub fn update(&self, obs: Obs, mem: &TransducerState) -> (r: Option<TransducerState>)
        ensures
            match r {
                Some(s) => self.next(obs.0, mem.0) == Some(s.0),
                None => self.next(obs.0, mem.0) is None,
            },
    {
        proof {
            lemma_key_order();
        }
        match self.transitions.get(&(obs.0, mem.0)) {
            Some(s) => Some(TransducerState(*s)),
            None => None,
        }
    }

    /// The action played in state `mem`.
    pub fn action(&self, mem: &TransducerState) -> (r: Act)
        requires
            (mem.0 as int) < self.actions@.len(),
        ensures
            r == self.actions@[mem.0 as int],
    {
        self.actions[mem.index()]
    }

    /// The initial state.
    pub fn init(&self) -> (r: TransducerState)
        ensures
            r == TransducerState(0),
    {
        TransducerState(0)
    }
}


/// The memory state of agent `i` in configuration `c`.
pub open spec fn mem(c: Seq<u32>, i: int) -> u32 {
    c[i + 1]
}

/// `c` is a configuration of `g` under `strat`: a location followed by one
/// memory state per agent.
pub open spec fn valid_config(g: Game, strat: Seq<Transducer>, c: Seq<u32>) -> bool {
    &&& c.len() == strat.len() + 1
    &&& (c[0] as int) < g.nloc()
    &&& forall|i: int| 0 <= i < strat.len() ==> (#[trigger] mem(c, i) as int) < strat[i].actions@.len()
}

/// The actions that the agents play in configuration `c`.
pub open spec fn profile_of(strat: Seq<Transducer>, c: Seq<u32>) -> Seq<Act> {
    Seq::new(strat.len(), |i: int| strat[i].actions@[mem(c, i) as int])
}

/// The successors of the location of `c` under the actions played in `c`.
pub open spec fn moves(g: Game, strat: Seq<Transducer>, c: Seq<u32>) -> Seq<Loc> {
    g.post_spec(c[0] as int, profile_of(strat, c))
}

pub open spec fn goal(g: Game, l: Loc) -> bool {
    g.loc@[l.0 as int].is_winning
}

/// Every agent's transducer has a transition on what it observes at `l2`.
pub open spec fn all_defined(g: Game, strat: Seq<Transducer>, c: Seq<u32>, l2: Loc) -> bool {
    forall|i: int| 0 <= i < strat.len() ==>
        (#[trigger] strat[i].next(g.obs_of(l2.0 as int, i).0, mem(c, i))) is Some
}

/// The configuration reached from `c` by moving to `l2`.
pub open spec fn step(g: Game, strat: Seq<Transducer>, c: Seq<u32>, l2: Loc) -> Seq<u32> {
    seq![l2.0] + Seq::new(strat.len(), |i: int| strat[i].next(g.obs_of(l2.0 as int, i).0, mem(c, i))->0)
}

/// Some successor of `c` is a goal or is followed by every transducer.
pub open spec fn live(g: Game, strat: Seq<Transducer>, c: Seq<u32>) -> bool {
    exists|j: int| 0 <= j < moves(g, strat, c).len()
        && (goal(g, #[trigger] moves(g, strat, c)[j]) || all_defined(g, strat, c, moves(g, strat, c)[j]))
}

/// The play continues from `c` to `d`: `d` is reached by moving to a
/// successor that is no goal and that every transducer follows.
pub open spec fn is_child(g: Game, strat: Seq<Transducer>, c: Seq<u32>, d: Seq<u32>) -> bool {
    exists|j: int| 0 <= j < moves(g, strat, c).len()
        && !goal(g, #[trigger] moves(g, strat, c)[j])
        && all_defined(g, strat, c, moves(g, strat, c)[j])
        && d == step(g, strat, c, moves(g, strat, c)[j])
}

/// From `c`, every play of `strat` reaches a goal within `k` steps, and
/// none stops at a location that is no goal for want of a successor.
pub open spec fn wins_within(g: Game, strat: Seq<Transducer>, c: Seq<u32>, k: nat) -> bool
    decreases k,
{
    goal(g, Loc(c[0])) || (k > 0 && live(g, strat, c)
        && forall|d: Seq<u32>| #[trigger] is_child(g, strat, c, d) ==> wins_within(g, strat, d, (k - 1) as nat))
}

/// The initial configuration: location 0, every transducer in state 0.
pub open spec fn initial_config(strat: Seq<Transducer>) -> Seq<u32> {
    Seq::new(strat.len() + 1, |i: int| 0u32)
}

/// The profile `strat` wins `g`: from the initial location, every play
/// consistent with it reaches a goal within a bounded number of steps.
/// A play ends where some transducer has no transition on what its agent
/// observes.
pub open spec fn wins(g: Game, strat: Seq<Transducer>) -> bool {
    exists|k: nat| wins_within(g, strat, initial_config(strat), k)
}

/// Winning within `k` steps is winning within any larger bound.
pub proof fn lemma_wins_mono(g: Game, strat: Seq<Transducer>, c: Seq<u32>, k: nat, k2: nat)
    requires
        wins_within(g, strat, c, k),
        k <= k2,
    ensures
        wins_within(g, strat, c, k2),
    decreases k,
{
    if !goal(g, Loc(c[0])) {
        assert forall|d: Seq<u32>| #[trigger] is_child(g, strat, c, d) implies wins_within(g, strat, d, (k2 - 1) as nat) by {
            lemma_wins_mono(g, strat, d, (k - 1) as nat, (k2 - 1) as nat);
        }
    }
}


/// A play of `strat` goes from `x` to `y` in `n` steps, through
/// configurations that are no goals (but for `y`).
pub open spec fn path(g: Game, strat: Seq<Transducer>, x: Seq<u32>, y: Seq<u32>, n: nat) -> bool
    decreases n,
{
    if n == 0 {
        x == y
    } else {
        &&& !goal(g, Loc(x[0]))
        &&& exists|z: Seq<u32>| #[trigger] is_child(g, strat, x, z) && path(g, strat, z, y, (n - 1) as nat)
    }
}

proof fn lemma_path_extend(g: Game, strat: Seq<Transducer>, x: Seq<u32>, y: Seq<u32>, z: Seq<u32>, n: nat)
    requires
        path(g, strat, x, y, n),
        !goal(g, Loc(y[0])),
        is_child(g, strat, y, z),
    ensures
        path(g, strat, x, z, n + 1),
    decreases n,
{
    if n == 0 {
        assert(path(g, strat, z, z, 0));
    } else {
        let w = choose|w: Seq<u32>| #[trigger] is_child(g, strat, x, w) && path(g, strat, w, y, (n - 1) as nat);
        lemma_path_extend(g, strat, w, y, z, (n - 1) as nat);
    }
}

/// Winning from `x` within `k` steps means winning from wherever a play
/// gets in `n` steps within the rest.
proof fn lemma_path_wins(g: Game, strat: Seq<Transducer>, x: Seq<u32>, y: Seq<u32>, n: nat, k: nat)
    requires
        path(g, strat, x, y, n),
        wins_within(g, strat, x, k),
    ensures
        n <= k,
        wins_within(g, strat, y, (k - n) as nat),
    decreases n,
{
    if n > 0 {
        let w = choose|w: Seq<u32>| #[trigger] is_child(g, strat, x, w) && path(g, strat, w, y, (n - 1) as nat);
        lemma_path_wins(g, strat, w, y, (n - 1) as nat, (k - 1) as nat);
    }
}

/// A play that can come back to where it is, without a goal, never wins.
proof fn lemma_cycle_loses(g: Game, strat: Seq<Transducer>, c: Seq<u32>, n: nat, k: nat)
    requires
        path(g, strat, c, c, n),
        n >= 1,
    ensures
        !wins_within(g, strat, c, k),
    decreases k,
{
    if wins_within(g, strat, c, k) {
        lemma_path_wins(g, strat, c, c, n, k);
        lemma_cycle_loses(g, strat, c, n, (k - n) as nat);
    }
}

/// No winning play passes through a configuration from which none wins.
proof fn lemma_bad_root(g: Game, strat: Seq<Transducer>, c: Seq<u32>, n: nat)
    requires
        path(g, strat, initial_config(strat), c, n),
        forall|k: nat| !#[trigger] wins_within(g, strat, c, k),
    ensures
        !wins(g, strat),
{
    if wins(g, strat) {
        let k = choose|k: nat| wins_within(g, strat, initial_config(strat), k);
        lemma_path_wins(g, strat, initial_config(strat), c, n, k);
    }
}

/// Whether a profile wins depends only on what copies of a game share.
pub proof fn lemma_same_game_wins(a: Game, b: Game, strat: Seq<Transducer>)
    requires
        same_game(a, b),
        a.wf(),
    ensures
        wins(a, strat) == wins(b, strat),
{
    assert forall|k: nat| #[trigger] wins_within(a, strat, initial_config(strat), k)
        == wins_within(b, strat, initial_config(strat), k) by {
        lemma_same_game_wins_within(a, b, strat, initial_config(strat), k);
    }
    if wins(a, strat) {
        let k = choose|k: nat| wins_within(a, strat, initial_config(strat), k);
        assert(wins_within(b, strat, initial_config(strat), k));
    }
    if wins(b, strat) {
        let k = choose|k: nat| wins_within(b, strat, initial_config(strat), k);
        assert(wins_within(a, strat, initial_config(strat), k));
    }
}

proof fn lemma_same_game_wins_within(a: Game, b: Game, strat: Seq<Transducer>, c: Seq<u32>, k: nat)
    requires
        same_game(a, b),
        a.wf(),
        c.len() > 0,
        (c[0] as int) < a.nloc(),
    ensures
        wins_within(a, strat, c, k) == wins_within(b, strat, c, k),
    decreases k,
{
    {
        assert(a.succ(c[0] as int) == b.succ(c[0] as int));
        assert(moves(a, strat, c) == moves(b, strat, c));
        assert(goal(a, Loc(c[0])) == goal(b, Loc(c[0])));
        assert forall|l2: Loc| #![trigger all_defined(a, strat, c, l2)] (l2.0 as int) < a.nloc() implies
            all_defined(a, strat, c, l2) == all_defined(b, strat, c, l2) && step(a, strat, c, l2) == step(b, strat, c, l2) by {
            assert(a.loc@[l2.0 as int].obs@ == b.loc@[l2.0 as int].obs@);
            assert forall|i: int| 0 <= i < strat.len() implies a.obs_of(l2.0 as int, i) == b.obs_of(l2.0 as int, i) by {}
            assert(step(a, strat, c, l2) =~= step(b, strat, c, l2));
        }
        let mv = moves(a, strat, c);
        assert forall|j: int| 0 <= j < mv.len() implies (mv[j].0 as int) < a.nloc() by {
            let x = mv[j];
            assert(a.post_spec(c[0] as int, profile_of(strat, c)).contains(x));
            crate::game::lemma_targets_with_contains(a.succ(c[0] as int), profile_of(strat, c), x);
            let q = choose|q: int| 0 <= q < a.succ(c[0] as int).len() && a.succ(c[0] as int)[q] == (profile_of(strat, c), x);
            assert(a.valid_edge(a.succ(c[0] as int)[q]));
        }
        assert(live(a, strat, c) == live(b, strat, c)) by {
            if live(a, strat, c) {
                let j = choose|j: int| 0 <= j < mv.len() && (goal(a, #[trigger] mv[j]) || all_defined(a, strat, c, mv[j]));
                assert(all_defined(a, strat, c, mv[j]) == all_defined(b, strat, c, mv[j]));
                assert(a.loc@[mv[j].0 as int].is_winning == b.loc@[mv[j].0 as int].is_winning);
            }
            if live(b, strat, c) {
                let j = choose|j: int| 0 <= j < mv.len() && (goal(b, #[trigger] moves(b, strat, c)[j]) || all_defined(b, strat, c, moves(b, strat, c)[j]));
                assert(all_defined(a, strat, c, mv[j]) == all_defined(b, strat, c, mv[j]));
                assert(a.loc@[mv[j].0 as int].is_winning == b.loc@[mv[j].0 as int].is_winning);
            }
        }
        assert forall|d: Seq<u32>| #![trigger is_child(a, strat, c, d)] #![trigger is_child(b, strat, c, d)]
            is_child(a, strat, c, d) == is_child(b, strat, c, d) by {
            if is_child(a, strat, c, d) {
                let j = choose|j: int| 0 <= j < mv.len() && !goal(a, #[trigger] mv[j])
                    && all_defined(a, strat, c, mv[j]) && d == step(a, strat, c, mv[j]);
                assert(all_defined(a, strat, c, mv[j]) == all_defined(b, strat, c, mv[j]));
                assert(a.loc@[mv[j].0 as int].is_winning == b.loc@[mv[j].0 as int].is_winning);
            }
            if is_child(b, strat, c, d) {
                let j = choose|j: int| 0 <= j < mv.len() && !goal(b, #[trigger] moves(b, strat, c)[j])
                    && all_defined(b, strat, c, moves(b, strat, c)[j]) && d == step(b, strat, c, moves(b, strat, c)[j]);
                assert(all_defined(a, strat, c, mv[j]) == all_defined(b, strat, c, mv[j]));
                assert(a.loc@[mv[j].0 as int].is_winning == b.loc@[mv[j].0 as int].is_winning);
            }
        }
        if k > 0 {
            assert forall|d: Seq<u32>| #![trigger is_child(a, strat, c, d)] #![trigger is_child(b, strat, c, d)]
                is_child(a, strat, c, d) implies
                wins_within(a, strat, d, (k - 1) as nat) == wins_within(b, strat, d, (k - 1) as nat) by {
                let j = choose|j: int| 0 <= j < mv.len() && !goal(a, #[trigger] mv[j])
                    && all_defined(a, strat, c, mv[j]) && d == step(a, strat, c, mv[j]);
                assert(d[0] == mv[j].0);
                lemma_same_game_wins_within(a, b, strat, d, (k - 1) as nat);
            }
            assert((forall|d: Seq<u32>| #[trigger] is_child(a, strat, c, d) ==> wins_within(a, strat, d, (k - 1) as nat))
                == (forall|d: Seq<u32>| #[trigger] is_child(b, strat, c, d) ==> wins_within(b, strat, d, (k - 1) as nat)));
        }
    }
}

/// The bound on each entry of a configuration: the number of locations,
/// then the number of states of each transducer.
spec fn config_bounds(g: Game, strat: Seq<Transducer>) -> Seq<nat> {
    seq![g.nloc()] + Seq::new(strat.len(), |i: int| strat[i].actions@.len())
}

/// Each entry of `c` is below the matching entry of `b`.
spec fn below(c: Seq<u32>, b: Seq<nat>) -> bool {
    &&& c.len() == b.len()
    &&& forall|i: int| 0 <= i < c.len() ==> (c[i] as nat) < #[trigger] b[i]
}

/// `c` read as a number in the mixed radix `b`.
spec fn code(c: Seq<u32>, b: Seq<nat>) -> nat
    decreases c.len(),
{
    if c.len() == 0 || b.len() == 0 {
        0
    } else {
        c[0] as nat + b[0] * code(c.drop_first(), b.drop_first())
    }
}

spec fn prod(b: Seq<nat>) -> nat
    decreases b.len(),
{
    if b.len() == 0 {
        1
    } else {
        b[0] * prod(b.drop_first())
    }
}

proof fn lemma_code_below(c: Seq<u32>, b: Seq<nat>)
    requires
        below(c, b),
    ensures
        code(c, b) < prod(b),
    decreases c.len(),
{
    if c.len() > 0 {
        let (c0, b0) = (c[0] as nat, b[0]);
        assert(below(c.drop_first(), b.drop_first())) by {
            assert forall|i: int| 0 <= i < c.drop_first().len() implies
                (c.drop_first()[i] as nat) < #[trigger] b.drop_first()[i] by {
                assert(b.drop_first()[i] == b[i + 1]);
                assert((c[i + 1] as nat) < b[i + 1]);
            }
        }
        lemma_code_below(c.drop_first(), b.drop_first());
        let (x, p) = (code(c.drop_first(), b.drop_first()), prod(b.drop_first()));
        assert(c0 < b0);
        assert(c0 + b0 * x < b0 * p) by (nonlinear_arith)
            requires c0 < b0, x < p;
    }
}

proof fn lemma_code_injective(c: Seq<u32>, d: Seq<u32>, b: Seq<nat>)
    requires
        below(c, b),
        below(d, b),
        code(c, b) == code(d, b),
    ensures
        c == d,
    decreases c.len(),
{
    if c.len() > 0 {
        let (c0, d0, b0) = (c[0] as nat, d[0] as nat, b[0]);
        assert(c0 < b0 && d0 < b0);
        assert(below(c.drop_first(), b.drop_first())) by {
            assert forall|i: int| 0 <= i < c.drop_first().len() implies
                (c.drop_first()[i] as nat) < #[trigger] b.drop_first()[i] by {
                assert((c[i + 1] as nat) < b[i + 1]);
            }
        }
        assert(below(d.drop_first(), b.drop_first())) by {
            assert forall|i: int| 0 <= i < d.drop_first().len() implies
                (d.drop_first()[i] as nat) < #[trigger] b.drop_first()[i] by {
                assert((d[i + 1] as nat) < b[i + 1]);
            }
        }
        let (x, y) = (code(c.drop_first(), b.drop_first()), code(d.drop_first(), b.drop_first()));
        assert(c0 == d0 && x == y) by (nonlinear_arith)
            requires c0 < b0, d0 < b0, c0 + b0 * x == d0 + b0 * y;
        lemma_code_injective(c.drop_first(), d.drop_first(), b.drop_first());
        assert(c =~= seq![c[0]] + c.drop_first());
        assert(d =~= seq![d[0]] + d.drop_first());
    } else {
        assert(c =~= d);
    }
}

proof fn lemma_config_below(g: Game, strat: Seq<Transducer>, c: Seq<u32>)
    requires
        valid_config(g, strat, c),
    ensures
        below(c, config_bounds(g, strat)),
{
    let b = config_bounds(g, strat);
    assert forall|i: int| 0 <= i < c.len() implies (c[i] as nat) < #[trigger] b[i] by {
        if i > 0 {
            assert(mem(c, i - 1) == c[i]);
        }
    }
}

/// Compares two configurations.
fn config_eq(a: &Vec<u32>, b: &Vec<u32>) -> (r: bool)
    ensures
        r == (a@ == b@),
{
    if a.len() != b.len() {
        return false;
    }
    let mut i: usize = 0;
    while i < a.len()
        invariant
            a@.len() == b@.len(),
            i <= a@.len(),
            forall|k: int| 0 <= k < i ==> a@[k] == b@[k],
        decreases a@.len() - i,
    {
        if a[i] != b[i] {
            return false;
        }
        i = i + 1;
    }
    proof {
        assert(a@ =~= b@);
    }
    true
}

/// The position of `c` among `keys`.
fn lookup(keys: &Vec<Vec<u32>>, c: &Vec<u32>) -> (r: Option<usize>)
    ensures
        match r {
            Some(i) => i < keys@.len() && keys@[i as int]@ == c@,
            None => forall|i: int| 0 <= i < keys@.len() ==> (#[trigger] keys@[i])@ != c@,
        },
{
    let mut i: usize = 0;
    while i < keys.len()
        invariant
            i <= keys@.len(),
            forall|k: int| 0 <= k < i ==> (#[trigger] keys@[k])@ != c@,
        decreases keys@.len() - i,
    {
        if config_eq(&keys[i], c) {
            return Some(i);
        }
        i = i + 1;
    }
    None
}


/// The transducers are well formed, one per agent of `g`.
pub open spec fn profile_ok(g: Game, strat: Seq<Transducer>) -> bool {
    &&& strat.len() == g.n_agents()
    &&& forall|i: int| 0 <= i < strat.len() ==> (#[trigger] strat[i]).wf()
}

/// The actions played in configuration `c`.
fn actions_at(strat: &Vec<Transducer>, c: &Vec<u32>) -> (a: Vec<Act>)
    requires
        c@.len() == strat@.len() + 1,
        forall|i: int| 0 <= i < strat@.len() ==> (#[trigger] mem(c@, i) as int) < strat@[i].actions@.len(),
    ensures
        a@ == profile_of(strat@, c@),
{
    let mut a: Vec<Act> = Vec::new();
    let mut i: usize = 0;
    while i < strat.len()
        invariant
            c@.len() == strat@.len() + 1,
            forall|k: int| 0 <= k < strat@.len() ==> (#[trigger] mem(c@, k) as int) < strat@[k].actions@.len(),
            i <= strat@.len(),
            a@.len() == i,
            forall|k: int| 0 <= k < i ==> a@[k] == #[trigger] strat@[k].actions@[mem(c@, k) as int],
        decreases strat@.len() - i,
    {
        assert(mem(c@, i as int) == c@[i + 1]);
        a.push(strat[i].action(&TransducerState(c[i + 1])));
        i = i + 1;
    }
    proof {
        assert(a@ =~= profile_of(strat@, c@));
    }
    a
}

/// The configuration reached from `c` by moving to `l2`, if every
/// transducer has a transition on what its agent observes there.
fn step_to(g: &Game, strat: &Vec<Transducer>, c: &Vec<u32>, l2: Loc) -> (r: Option<Vec<u32>>)
    requires
        g.wf(),
        profile_ok(*g, strat@),
        valid_config(*g, strat@, c@),
        (l2.0 as int) < g.nloc(),
    ensures
        match r {
            Some(d) => all_defined(*g, strat@, c@, l2) && d@ == step(*g, strat@, c@, l2)
                && valid_config(*g, strat@, d@),
            None => !all_defined(*g, strat@, c@, l2),
        },
{
    let mut d: Vec<u32> = Vec::new();
    d.push(l2.0);
    let mut i: usize = 0;
    while i < strat.len()
        invariant
            g.wf(),
            profile_ok(*g, strat@),
            valid_config(*g, strat@, c@),
            (l2.0 as int) < g.nloc(),
            i <= strat@.len(),
            d@.len() == i + 1,
            d@[0] == l2.0,
            forall|k: int| 0 <= k < i ==> (#[trigger] strat@[k].next(g.obs_of(l2.0 as int, k).0, mem(c@, k))) is Some
                && d@[k + 1] == strat@[k].next(g.obs_of(l2.0 as int, k).0, mem(c@, k))->0,
        decreases strat@.len() - i,
    {
        assert(mem(c@, i as int) == c@[i + 1]);
        assert(g.loc@[l2.0 as int].obs@.len() == g.n_agents());
        let o = g.loc[l2.index()].obs[i];
        match strat[i].update(o, &TransducerState(c[i + 1])) {
            Some(s) => d.push(s.0),
            None => {
                assert(strat@[i as int].next(g.obs_of(l2.0 as int, i as int).0, mem(c@, i as int)) is None);
                return None;
            },
        }
        i = i + 1;
    }
    proof {
        assert(d@ =~= step(*g, strat@, c@, l2));
        assert forall|k: int| 0 <= k < strat@.len() implies (#[trigger] mem(d@, k) as int) < strat@[k].actions@.len() by {
            let t = strat@[k];
            assert(t.wf());
            let key = (g.obs_of(l2.0 as int, k).0, mem(c@, k));
            assert(t.next(key.0, key.1) is Some);
            assert(t.transitions@.contains_key(key));
            assert(mem(d@, k) == d@[k + 1]);
        }
    }
    Some(d)
}


fn copy_config(c: &Vec<u32>) -> (r: Vec<u32>)
    ensures
        r@ == c@,
{
    let mut r: Vec<u32> = Vec::new();
    let mut i: usize = 0;
    while i < c.len()
        invariant
            i <= c@.len(),
            r@ == c@.subrange(0, i as int),
        decreases c@.len() - i,
    {
        r.push(c[i]);
        i = i + 1;
        proof {
            assert(r@ =~= c@.subrange(0, i as int));
        }
    }
    proof {
        assert(r@ =~= c@);
    }
    r
}

/// For a configuration `c` that is no goal: pushes an entry that finishes
/// `c` and, above it, an entry for each configuration that the play
/// continues to. Returns whether some successor of `c` is a goal or is
/// followed by every transducer; when none is, nothing is pushed.
fn expand(g: &Game, strat: &Vec<Transducer>, c: &Vec<u32>, stack: &mut Vec<(bool, Vec<u32>)>) -> (r: bool)
    requires
        g.wf(),
        profile_ok(*g, strat@),
        valid_config(*g, strat@, c@),
        !goal(*g, Loc(c@[0])),
    ensures
        r == live(*g, strat@, c@),
        final(stack)@.len() >= old(stack)@.len(),
        forall|q: int| 0 <= q < old(stack)@.len() ==> #[trigger] final(stack)@[q] == old(stack)@[q],
        !r ==> final(stack)@.len() == old(stack)@.len(),
        r ==> final(stack)@.len() > old(stack)@.len() && final(stack)@[old(stack)@.len() as int].0
            && final(stack)@[old(stack)@.len() as int].1@ == c@,
        forall|q: int| old(stack)@.len() < q < final(stack)@.len() ==>
            !(#[trigger] final(stack)@[q]).0 && valid_config(*g, strat@, final(stack)@[q].1@)
            && is_child(*g, strat@, c@, final(stack)@[q].1@),
        forall|d: Seq<u32>| #[trigger] is_child(*g, strat@, c@, d) ==>
            exists|q: int| old(stack)@.len() < q < final(stack)@.len() && (#[trigger] final(stack)@[q]).1@ == d,
{
    let ghost old_stack = stack@;
    let base = stack.len();
    let a = actions_at(strat, c);
    let l = Loc(c[0]);
    let post = g.post(l, &a);
    let ghost mv = moves(*g, strat@, c@);
    assert(post@ == mv);
    let mut at_least_one = false;
    let ghost mut w: int = 0;
    let mut j: usize = 0;
    while j < post.len()
        invariant
            g.wf(),
            profile_ok(*g, strat@),
            valid_config(*g, strat@, c@),
            post@ == mv,
            mv == moves(*g, strat@, c@),
            base == old_stack.len(),
            j <= post@.len(),
            stack@.len() >= base,
            forall|q: int| 0 <= q < base ==> #[trigger] stack@[q] == old_stack[q],
            at_least_one <==> stack@.len() > base,
            at_least_one ==> stack@[base as int].0 && stack@[base as int].1@ == c@,
            at_least_one ==> 0 <= w < j && (goal(*g, mv[w]) || all_defined(*g, strat@, c@, mv[w])),
            forall|q: int| base < q < stack@.len() ==>
                !(#[trigger] stack@[q]).0 && valid_config(*g, strat@, stack@[q].1@)
                && is_child(*g, strat@, c@, stack@[q].1@),
            forall|k: int| 0 <= k < j ==> !(goal(*g, #[trigger] mv[k]) || all_defined(*g, strat@, c@, mv[k])) || at_least_one,
            forall|k: int| 0 <= k < j && !goal(*g, #[trigger] mv[k]) && all_defined(*g, strat@, c@, mv[k]) ==>
                exists|q: int| base < q < stack@.len() && (#[trigger] stack@[q]).1@ == step(*g, strat@, c@, mv[k]),
        decreases post@.len() - j,
    {
        let l2 = post[j];
        let ghost prev = stack@;
        proof {
            lemma_move_target(*g, strat@, c@, j as int);
        }
        if g.is_winning(l2) {
            if !at_least_one {
                stack.push((true, copy_config(c)));
                at_least_one = true;
                proof { w = j as int; }
            }
        } else {
            match step_to(g, strat, c, l2) {
                Some(d) => {
                    if !at_least_one {
                        stack.push((true, copy_config(c)));
                        at_least_one = true;
                        proof { w = j as int; }
                    }
                    let ghost dv = d@;
                    proof {
                        assert(mv[j as int] == l2);
                        assert(is_child(*g, strat@, c@, dv));
                    }
                    stack.push((false, d));
                    proof {
                        assert(stack@[stack@.len() - 1].1@ == dv);
                    }
                },
                None => {},
            }
        }
        proof {
            assert forall|k: int| 0 <= k < j + 1 && !goal(*g, #[trigger] mv[k]) && all_defined(*g, strat@, c@, mv[k]) implies
                exists|q: int| base < q < stack@.len() && (#[trigger] stack@[q]).1@ == step(*g, strat@, c@, mv[k]) by {
                if k < j {
                    let q = choose|q: int| base < q < prev.len() && (#[trigger] prev[q]).1@ == step(*g, strat@, c@, mv[k]);
                    assert(stack@[q] == prev[q]);
                } else {
                    assert(stack@[stack@.len() - 1].1@ == step(*g, strat@, c@, mv[k]));
                }
            }
        }
        j = j + 1;
    }
    proof {
        if at_least_one {
            assert(goal(*g, mv[w]) || all_defined(*g, strat@, c@, mv[w]));
        }
        assert forall|d: Seq<u32>| #[trigger] is_child(*g, strat@, c@, d) implies
            exists|q: int| base < q < stack@.len() && (#[trigger] stack@[q]).1@ == d by {
            let k = choose|k: int| 0 <= k < mv.len() && !goal(*g, #[trigger] mv[k])
                && all_defined(*g, strat@, c@, mv[k]) && d == step(*g, strat@, c@, mv[k]);
            assert(!goal(*g, mv[k]));
        }
    }
    at_least_one
}

/// The successors of a configuration are locations of the game.
proof fn lemma_move_target(g: Game, strat: Seq<Transducer>, c: Seq<u32>, j: int)
    requires
        g.wf(),
        valid_config(g, strat, c),
        0 <= j < moves(g, strat, c).len(),
    ensures
        (moves(g, strat, c)[j].0 as int) < g.nloc(),
{
    let (l, a) = (c[0] as int, profile_of(strat, c));
    let x = moves(g, strat, c)[j];
    assert(g.post_spec(l, a).contains(x));
    crate::game::lemma_targets_with_contains(g.succ(l), a, x);
    let q = choose|q: int| 0 <= q < g.succ(l).len() && g.succ(l)[q] == (a, x);
    assert(g.valid_edge(g.succ(l)[q]));
}


/// After `cv` is appended to the keys and its code to `codes`, every code
/// is still that of some key.
proof fn lemma_codes_kept(codes: Set<nat>, k1: Seq<Vec<u32>>, k2: Seq<Vec<u32>>, b: Seq<nat>, cv: Seq<u32>)
    requires
        k2.len() == k1.len() + 1,
        forall|k: int| 0 <= k < k1.len() ==> #[trigger] k2[k] == k1[k],
        k2[k1.len() as int]@ == cv,
        forall|x: nat| #[trigger] codes.contains(x) ==> x == code(cv, b)
            || exists|k: int| 0 <= k < k1.len() && code((#[trigger] k1[k])@, b) == x,
    ensures
        forall|x: nat| #[trigger] codes.contains(x) ==> exists|k: int| 0 <= k < k2.len() && code((#[trigger] k2[k])@, b) == x,
{
    assert forall|x: nat| #[trigger] codes.contains(x) implies exists|k: int| 0 <= k < k2.len() && code((#[trigger] k2[k])@, b) == x by {
        if x == code(cv, b) {
            assert(code(k2[k1.len() as int]@, b) == x);
        } else {
            let k = choose|k: int| 0 <= k < k1.len() && code((#[trigger] k1[k])@, b) == x;
            assert(k2[k] == k1[k]);
        }
    }
}

/// `d` has been found winning.
spec fn is_black(keys: Seq<Vec<u32>>, black: Seq<bool>, d: Seq<u32>) -> bool {
    exists|i: int| 0 <= i < keys.len() && (#[trigger] keys[i])@ == d && black[i]
}

/// `d` has been found winning or is yet to be handled above position `p`.
spec fn pending(stack: Seq<(bool, Vec<u32>)>, keys: Seq<Vec<u32>>, black: Seq<bool>, d: Seq<u32>, p: int) -> bool {
    is_black(keys, black, d) || exists|q: int| p < q < stack.len() && (#[trigger] stack[q]).1@ == d
}

/// Handling the top entry of the stack, for `c`, keeps every claim that a
/// configuration is pending below it, as long as `c` ends up winning or is
/// again on the stack at or above the old top.
proof fn lemma_pending_kept(s1: Seq<(bool, Vec<u32>)>, k1: Seq<Vec<u32>>, b1: Seq<bool>,
    s2: Seq<(bool, Vec<u32>)>, k2: Seq<Vec<u32>>, b2: Seq<bool>, c: Seq<u32>, d: Seq<u32>, p: int)
    requires
        s1.len() > 0,
        s1[s1.len() - 1].1@ == c,
        s2.len() >= s1.len() - 1,
        forall|q: int| 0 <= q < s1.len() - 1 ==> #[trigger] s2[q] == s1[q],
        forall|x: Seq<u32>| is_black(k1, b1, x) ==> is_black(k2, b2, x),
        is_black(k2, b2, c) || exists|q: int| s1.len() - 1 <= q < s2.len() && (#[trigger] s2[q]).1@ == c,
        pending(s1, k1, b1, d, p),
        -1 <= p < s1.len() - 1,
    ensures
        pending(s2, k2, b2, d, p),
{
    if !is_black(k1, b1, d) {
        let q = choose|q: int| p < q < s1.len() && (#[trigger] s1[q]).1@ == d;
        if q < s1.len() - 1 {
            assert(s2[q] == s1[q]);
        } else if !is_black(k2, b2, c) {
            let q2 = choose|q2: int| s1.len() - 1 <= q2 < s2.len() && (#[trigger] s2[q2]).1@ == c;
        }
    }
}

/// Some play goes from `x` to `y`.
spec fn reaches(g: Game, strat: Seq<Transducer>, x: Seq<u32>, y: Seq<u32>) -> bool {
    exists|n: nat| path(g, strat, x, y, n)
}

/// Some play of at least one step goes from `x` to `y`.
spec fn leads(g: Game, strat: Seq<Transducer>, x: Seq<u32>, y: Seq<u32>) -> bool {
    exists|n: nat| n >= 1 && path(g, strat, x, y, n)
}

/// Every entry of the stack is reached by a play from `c0`.
#[verifier::opaque]
spec fn reach_ok(g: Game, strat: Seq<Transducer>, c0: Seq<u32>, s: Seq<(bool, Vec<u32>)>) -> bool {
    forall|q: int| 0 <= q < s.len() ==> reaches(g, strat, c0, (#[trigger] s[q]).1@)
}

/// A play goes from each configuration being finished to every entry
/// above it.
#[verifier::opaque]
spec fn chain_ok(g: Game, strat: Seq<Transducer>, s: Seq<(bool, Vec<u32>)>) -> bool {
    forall|p: int, q: int| 0 <= p < q < s.len() && (#[trigger] s[p]).0 ==>
        leads(g, strat, s[p].1@, (#[trigger] s[q]).1@)
}

/// Every configuration begun but not found winning is being finished.
#[verifier::opaque]
spec fn gray_ok(s: Seq<(bool, Vec<u32>)>, keys: Seq<Vec<u32>>, black: Seq<bool>) -> bool {
    forall|i: int| 0 <= i < keys.len() && !(#[trigger] black[i]) ==>
        exists|p: int| 0 <= p < s.len() && (#[trigger] s[p]).0 && s[p].1@ == keys[i]@
}

/// Popping the top of the stack keeps what is said of the entries below.
proof fn lemma_stack_prefix(g: Game, strat: Seq<Transducer>, c0: Seq<u32>, s1: Seq<(bool, Vec<u32>)>, s2: Seq<(bool, Vec<u32>)>)
    requires
        s1.len() > 0,
        s2.len() == s1.len() - 1,
        forall|q: int| 0 <= q < s2.len() ==> #[trigger] s2[q] == s1[q],
        reach_ok(g, strat, c0, s1),
        chain_ok(g, strat, s1),
    ensures
        reach_ok(g, strat, c0, s2),
        chain_ok(g, strat, s2),
{
    reveal(reach_ok);
    reveal(chain_ok);
    assert forall|q: int| 0 <= q < s2.len() implies reaches(g, strat, c0, (#[trigger] s2[q]).1@) by {
        assert(s2[q] == s1[q]);
    }
    assert forall|p: int, q: int| 0 <= p < q < s2.len() && (#[trigger] s2[p]).0 implies
        leads(g, strat, s2[p].1@, (#[trigger] s2[q]).1@) by {
        assert(s2[p] == s1[p] && s2[q] == s1[q]);
    }
}

/// After a new configuration `cv` at the top of `s1` is handled: a goal
/// is popped; any other is replaced by its finishing entry and the
/// configurations the play continues to.
proof fn lemma_new_visit(g: Game, strat: Seq<Transducer>, c0: Seq<u32>, s1: Seq<(bool, Vec<u32>)>,
    s2: Seq<(bool, Vec<u32>)>, cv: Seq<u32>, is_goal: bool)
    requires
        s1.len() > 0,
        s1[s1.len() - 1].1@ == cv,
        !s1[s1.len() - 1].0,
        is_goal == goal(g, Loc(cv[0])),
        is_goal ==> s2.len() == s1.len() - 1,
        !is_goal ==> s2.len() >= s1.len() && s2[s1.len() - 1].0 && s2[s1.len() - 1].1@ == cv,
        forall|q: int| 0 <= q < s1.len() - 1 ==> #[trigger] s2[q] == s1[q],
        forall|q: int| s1.len() - 1 < q < s2.len() ==> !(#[trigger] s2[q]).0 && is_child(g, strat, cv, s2[q].1@),
        reach_ok(g, strat, c0, s1),
        chain_ok(g, strat, s1),
    ensures
        reach_ok(g, strat, c0, s2),
        chain_ok(g, strat, s2),
{
    reveal(reach_ok);
    reveal(chain_ok);
    let t = s1.len() - 1;
    assert(reaches(g, strat, c0, s1[t].1@));
    let n0 = choose|n0: nat| path(g, strat, c0, s1[t].1@, n0);
    assert forall|q: int| 0 <= q < s2.len() implies reaches(g, strat, c0, (#[trigger] s2[q]).1@) by {
        if q < t {
            assert(s2[q] == s1[q]);
        } else if q == t {
            assert(path(g, strat, c0, s2[q].1@, n0));
        } else {
            lemma_path_extend(g, strat, c0, cv, s2[q].1@, n0);
        }
    }
    assert forall|p: int, q: int| 0 <= p < q < s2.len() && (#[trigger] s2[p]).0 implies
        leads(g, strat, s2[p].1@, (#[trigger] s2[q]).1@) by {
        if q < t {
            assert(s2[p] == s1[p] && s2[q] == s1[q]);
        } else if p < t {
            assert(s2[p] == s1[p]);
            assert(s1[p].0);
            assert(leads(g, strat, s1[p].1@, s1[t].1@));
            let n = choose|n: nat| n >= 1 && path(g, strat, s1[p].1@, s1[t].1@, n);
            if q > t {
                lemma_path_extend(g, strat, s1[p].1@, cv, s2[q].1@, n);
            } else {
                assert(path(g, strat, s2[p].1@, s2[q].1@, n));
            }
        } else {
            assert(p == t);
            assert(path(g, strat, cv, cv, 0));
            lemma_path_extend(g, strat, cv, cv, s2[q].1@, 0);
            assert(path(g, strat, s2[p].1@, s2[q].1@, 1));
        }
    }
}

/// Whether the profile `strat` wins `g`: a depth-first search over the
/// configurations (a location and one memory state per agent) reachable
/// from the initial one, failing at a configuration without a successor
/// that is a goal or that every transducer follows, and at a cycle that
/// avoids the goals.
#[verifier::rlimit(60)]
pub fn verify_strategy(g: &Game, strat: &Vec<Transducer>) -> (r: bool)
    requires
        g.wf(),
        profile_ok(*g, strat@),
    ensures
        r == wins(*g, strat@),
{
    let ghost b = config_bounds(*g, strat@);
    let ghost total = prod(b);
    let ghost c0 = initial_config(strat@);
    let mut init: Vec<u32> = Vec::new();
    let mut i: usize = 0;
    while i <= strat.len()
        invariant
            strat@.len() <= 256,
            i <= strat@.len() + 1,
            init@ == Seq::new(i as nat, |k: int| 0u32),
        decreases strat@.len() + 1 - i,
    {
        init.push(0);
        i = i + 1;
        proof {
            assert(init@ =~= Seq::new(i as nat, |k: int| 0u32));
        }
    }
    proof {
        assert(init@ =~= c0);
        assert forall|k: int| 0 <= k < strat@.len() implies (#[trigger] mem(init@, k) as int) < strat@[k].actions@.len() by {
            assert(strat@[k].wf());
        }
    }
    let mut stack: Vec<(bool, Vec<u32>)> = Vec::new();
    stack.push((false, init));
    let mut keys: Vec<Vec<u32>> = Vec::new();
    let mut black: Vec<bool> = Vec::new();
    let ghost mut rank: Seq<nat> = Seq::empty();
    let ghost mut counter: nat = 0;
    let ghost mut codes: Set<nat> = Set::empty();
    proof {
        assert(stack@[0].1@ == c0);
        assert(path(*g, strat@, c0, stack@[0].1@, 0));
        reveal(reach_ok);
        reveal(chain_ok);
        reveal(gray_ok);
    }
    while stack.len() > 0
        invariant
            g.wf(),
            profile_ok(*g, strat@),
            b == config_bounds(*g, strat@),
            total == prod(b),
            c0 == initial_config(strat@),
            forall|q: int| 0 <= q < stack@.len() ==> valid_config(*g, strat@, (#[trigger] stack@[q]).1@),
            keys@.len() == black@.len(),
            keys@.len() == rank.len(),
            forall|k: int| 0 <= k < keys@.len() ==> valid_config(*g, strat@, (#[trigger] keys@[k])@),
            codes.finite(),
            codes.len() == keys@.len(),
            forall|x: nat| #[trigger] codes.contains(x) ==> x < total,
            forall|x: nat| #[trigger] codes.contains(x) ==> exists|k: int| 0 <= k < keys@.len() && code((#[trigger] keys@[k])@, b) == x,
            forall|k: int| 0 <= k < keys@.len() ==> codes.contains(code((#[trigger] keys@[k])@, b)),
            forall|k: int| 0 <= k < keys@.len() && #[trigger] black@[k] ==>
                rank[k] <= counter && wins_within(*g, strat@, keys@[k]@, rank[k]),
            forall|q: int| 0 <= q < stack@.len() && (#[trigger] stack@[q]).0 ==> {
                let c = stack@[q].1@;
                &&& !goal(*g, Loc(c[0]))
                &&& live(*g, strat@, c)
                &&& forall|d: Seq<u32>| #[trigger] is_child(*g, strat@, c, d) ==> pending(stack@, keys@, black@, d, q)
            },
            pending(stack@, keys@, black@, c0, -1),
            reach_ok(*g, strat@, c0, stack@),
            chain_ok(*g, strat@, stack@),
            gray_ok(stack@, keys@, black@),
            forall|i: int, j: int| 0 <= i < j < keys@.len() ==> (#[trigger] keys@[i])@ != (#[trigger] keys@[j])@,
        decreases total - codes.len(), stack@.len(),
    {
        proof {
            lemma_bounded_len(codes, total);
        }
        let ghost s1 = stack@;
        let ghost k1 = keys@;
        let ghost b1 = black@;
        let (fin, c) = stack.pop().unwrap();
        let ghost t = stack@.len() as int;
        assert(s1[t] == (fin, c));
        assert(valid_config(*g, strat@, c@));
        if fin {
            let ghost cv = c@;
            proof {
                assert forall|d: Seq<u32>| #[trigger] is_child(*g, strat@, cv, d) implies
                    wins_within(*g, strat@, d, counter) by {
                    assert(pending(s1, k1, b1, d, t));
                    let k = choose|k: int| 0 <= k < k1.len() && (#[trigger] k1[k])@ == d && b1[k];
                    lemma_wins_mono(*g, strat@, d, rank[k], counter);
                }
                assert(wins_within(*g, strat@, cv, counter + 1));
            }
            match lookup(&keys, &c) {
                Some(k) => {
                    black.set(k, true);
                    proof {
                        rank = rank.update(k as int, counter + 1);
                        counter = counter + 1;
                        assert(is_black(keys@, black@, cv));
                    }
                },
                None => {
                    proof {
                        lemma_config_below(*g, strat@, cv);
                        lemma_code_below(cv, b);
                        if codes.contains(code(cv, b)) {
                            let k = choose|k: int| 0 <= k < keys@.len() && code((#[trigger] keys@[k])@, b) == code(cv, b);
                            lemma_config_below(*g, strat@, keys@[k]@);
                            lemma_code_injective(keys@[k]@, cv, b);
                        }
                        codes = codes.insert(code(cv, b));
                        rank = rank.push(counter + 1);
                        counter = counter + 1;
                    }
                    keys.push(c);
                    black.push(true);
                    proof {
                        assert(keys@[keys@.len() - 1]@ == cv);
                        assert(is_black(keys@, black@, cv));
                        lemma_codes_kept(codes, k1, keys@, b, cv);
                        lemma_bounded_len(codes, total);
                    }
                },
            }
            proof {
                assert forall|x: Seq<u32>| is_black(k1, b1, x) implies is_black(keys@, black@, x) by {
                    let k = choose|k: int| 0 <= k < k1.len() && (#[trigger] k1[k])@ == x && b1[k];
                    assert(keys@[k] == k1[k]);
                }
                assert forall|q: int| 0 <= q < stack@.len() && (#[trigger] stack@[q]).0 implies
                    forall|d: Seq<u32>| #[trigger] is_child(*g, strat@, stack@[q].1@, d) ==> pending(stack@, keys@, black@, d, q) by {
                    assert(s1[q] == stack@[q]);
                    assert forall|d: Seq<u32>| #[trigger] is_child(*g, strat@, stack@[q].1@, d) implies pending(stack@, keys@, black@, d, q) by {
                        lemma_pending_kept(s1, k1, b1, stack@, keys@, black@, cv, d, q);
                    }
                }
                lemma_pending_kept(s1, k1, b1, stack@, keys@, black@, cv, c0, -1);
                lemma_stack_prefix(*g, strat@, c0, s1, stack@);
                reveal(gray_ok);
                assert forall|i: int| 0 <= i < keys@.len() && !(#[trigger] black@[i]) implies
                    exists|p: int| 0 <= p < stack@.len() && (#[trigger] stack@[p]).0 && stack@[p].1@ == keys@[i]@ by {
                    assert(i < k1.len() && !b1[i] && keys@[i] == k1[i]);
                    let p = choose|p: int| 0 <= p < s1.len() && (#[trigger] s1[p]).0 && s1[p].1@ == k1[i]@;
                    if p == t {
                        assert(k1[i]@ == cv);
                        assert(false);
                    }
                    assert(stack@[p] == s1[p]);
                }
                assert forall|i: int, j: int| 0 <= i < j < keys@.len() implies (#[trigger] keys@[i])@ != (#[trigger] keys@[j])@ by {
                    if j < k1.len() {
                        assert(keys@[i] == k1[i] && keys@[j] == k1[j]);
                    } else {
                        assert(keys@[i] == k1[i]);
                    }
                }
            }
        } else {
            match lookup(&keys, &c) {
                Some(k) => {
                    if !black[k] {
                        proof {
                            reveal(gray_ok);
                            reveal(chain_ok);
                            reveal(reach_ok);
                            let p = choose|p: int| 0 <= p < s1.len() && (#[trigger] s1[p]).0 && s1[p].1@ == k1[k as int]@;
                            assert(p != t);
                            assert(leads(*g, strat@, s1[p].1@, s1[t].1@));
                            let n = choose|n: nat| n >= 1 && path(*g, strat@, s1[p].1@, s1[t].1@, n);
                            assert forall|m: nat| !#[trigger] wins_within(*g, strat@, c@, m) by {
                                lemma_cycle_loses(*g, strat@, c@, n, m);
                            }
                            assert(reaches(*g, strat@, c0, s1[t].1@));
                            let n0 = choose|n0: nat| path(*g, strat@, c0, s1[t].1@, n0);
                            lemma_bad_root(*g, strat@, c@, n0);
                        }
                        return false;
                    }
                    proof {
                        lemma_stack_prefix(*g, strat@, c0, s1, stack@);
                        reveal(gray_ok);
                        assert forall|i: int| 0 <= i < keys@.len() && !(#[trigger] black@[i]) implies
                            exists|p: int| 0 <= p < stack@.len() && (#[trigger] stack@[p]).0 && stack@[p].1@ == keys@[i]@ by {
                            let p = choose|p: int| 0 <= p < s1.len() && (#[trigger] s1[p]).0 && s1[p].1@ == k1[i]@;
                            assert(p != t);
                            assert(stack@[p] == s1[p]);
                        }
                        assert(is_black(keys@, black@, c@));
                        assert forall|q: int| 0 <= q < stack@.len() && (#[trigger] stack@[q]).0 implies
                            forall|d: Seq<u32>| #[trigger] is_child(*g, strat@, stack@[q].1@, d) ==> pending(stack@, keys@, black@, d, q) by {
                            assert(s1[q] == stack@[q]);
                            assert forall|d: Seq<u32>| #[trigger] is_child(*g, strat@, stack@[q].1@, d) implies pending(stack@, keys@, black@, d, q) by {
                                lemma_pending_kept(s1, k1, b1, stack@, keys@, black@, c@, d, q);
                            }
                        }
                        lemma_pending_kept(s1, k1, b1, stack@, keys@, black@, c@, c0, -1);
                    }
                },
                None => {
                    let ghost cv = c@;
                    proof {
                        lemma_config_below(*g, strat@, cv);
                        lemma_code_below(cv, b);
                        if codes.contains(code(cv, b)) {
                            let k = choose|k: int| 0 <= k < keys@.len() && code((#[trigger] keys@[k])@, b) == code(cv, b);
                            lemma_config_below(*g, strat@, keys@[k]@);
                            lemma_code_injective(keys@[k]@, cv, b);
                        }
                    }
                    let is_goal = g.is_winning(Loc(c[0]));
                    let ghost s2 = stack@;
                    if !is_goal {
                        if !expand(g, strat, &c, &mut stack) {
                            proof {
                                reveal(reach_ok);
                                assert forall|m: nat| !#[trigger] wins_within(*g, strat@, cv, m) by {}
                                assert(reaches(*g, strat@, c0, s1[t].1@));
                            let n0 = choose|n0: nat| path(*g, strat@, c0, s1[t].1@, n0);
                                lemma_bad_root(*g, strat@, cv, n0);
                            }
                            return false;
                        }
                    }
                    proof {
                        codes = codes.insert(code(cv, b));
                        rank = rank.push(0);
                    }
                    keys.push(c);
                    black.push(is_goal);
                    proof {
                        assert(keys@[keys@.len() - 1]@ == cv);
                        lemma_codes_kept(codes, k1, keys@, b, cv);
                        lemma_bounded_len(codes, total);
                        assert forall|x: Seq<u32>| is_black(k1, b1, x) implies is_black(keys@, black@, x) by {
                            let k = choose|k: int| 0 <= k < k1.len() && (#[trigger] k1[k])@ == x && b1[k];
                            assert(keys@[k] == k1[k]);
                        }
                        if is_goal {
                            assert(is_black(keys@, black@, cv));
                        } else {
                            assert(stack@[t].1@ == cv);
                        }
                        assert forall|q: int| 0 <= q < stack@.len() && (#[trigger] stack@[q]).0 implies {
                            let c = stack@[q].1@;
                            &&& !goal(*g, Loc(c[0]))
                            &&& live(*g, strat@, c)
                            &&& forall|d: Seq<u32>| #[trigger] is_child(*g, strat@, c, d) ==> pending(stack@, keys@, black@, d, q)
                        } by {
                            if q < t {
                                assert(s1[q] == stack@[q]);
                                assert forall|d: Seq<u32>| #[trigger] is_child(*g, strat@, stack@[q].1@, d) implies pending(stack@, keys@, black@, d, q) by {
                                    lemma_pending_kept(s1, k1, b1, stack@, keys@, black@, cv, d, q);
                                }
                            } else {
                                assert(q == t);
                                assert forall|d: Seq<u32>| #[trigger] is_child(*g, strat@, cv, d) implies pending(stack@, keys@, black@, d, q) by {
                                    let q2 = choose|q2: int| t < q2 < stack@.len() && (#[trigger] stack@[q2]).1@ == d;
                                }
                            }
                        }
                        lemma_pending_kept(s1, k1, b1, stack@, keys@, black@, cv, c0, -1);
                        lemma_new_visit(*g, strat@, c0, s1, stack@, cv, is_goal);
                        reveal(gray_ok);
                        assert forall|i: int| 0 <= i < keys@.len() && !(#[trigger] black@[i]) implies
                            exists|p: int| 0 <= p < stack@.len() && (#[trigger] stack@[p]).0 && stack@[p].1@ == keys@[i]@ by {
                            if i < k1.len() {
                                assert(keys@[i] == k1[i] && black@[i] == b1[i]);
                                let p = choose|p: int| 0 <= p < s1.len() && (#[trigger] s1[p]).0 && s1[p].1@ == k1[i]@;
                                assert(p != t);
                                assert(stack@[p] == s1[p]);
                            } else {
                                assert(!is_goal);
                                assert(stack@[t].0 && stack@[t].1@ == cv);
                            }
                        }
                        assert forall|i: int, j: int| 0 <= i < j < keys@.len() implies (#[trigger] keys@[i])@ != (#[trigger] keys@[j])@ by {
                            if j < k1.len() {
                                assert(keys@[i] == k1[i] && keys@[j] == k1[j]);
                            } else {
                                assert(keys@[i] == k1[i]);
                            }
                        }
                    }
                },
            }
        }
    }
    proof {
        let k = choose|k: int| 0 <= k < keys@.len() && (#[trigger] keys@[k])@ == c0 && black@[k];
        assert(wins_within(*g, strat@, c0, rank[k]));
    }
    true
}

} // verus!
