//! A game and its successive expansions by the multi-agent knowledge-based
//! subset construction.

use vstd::prelude::*;
use crate::types::Agt;
use crate::game::Game;
use crate::construct::{build_game, ConstructedGame, reachable_locs};
use crate::mkbsc::{MKBSC, too_big_for, small};
use crate::kbsc::KBSC;
use crate::copy::{copy_game, same_game, lemma_same_game_wf};
use crate::synthesis::{profile_wins, plays_lowered, plays_knowledge, find_strategy, winning_profile, knowledge_transducers, lower_all, SearchResult, Strat, some_found, all_win,
    options_fit, winnable};
use crate::outcomes::no_overflow;
use crate::isomorphism::{is_isomorphic, isomorphic};
use crate::strategy::{Transducer, wins, verify_strategy, profile_ok};
use crate::transfer::{moves_observable, lemma_base_chain_wins};

verus! {

/// What a search for strategies found.
#[derive(Debug)]
pub struct Synthesis {
    pub search: SearchResult,
    /// Transducers that win the last game.
    pub expanded: Option<Vec<Transducer>>,
    /// Transducers that win the base game, made from a profile found in the
    /// last game, each agent tracking its knowledge at every level below.
    pub base: Option<Vec<Transducer>>,
}

/// What `x`, found by searching the top of `stack` (made from `base`),
/// promises: transducers that win the top game exactly when some profile
/// drawn from the options wins it; and base transducers that win `base`
/// and come from a profile found, or none when every profile found is
/// `base_rejected`; and then, where whether a joint action leads anywhere
/// in `base` depends only on what the agents observe, no profile found
/// can be lowered within the state counts (`lowering_fits`).
#[verifier::opaque]
pub open spec fn synthesis_fits(stack: Seq<ConstructedGame<MKBSC>>, base: Game, find_all: bool, x: Synthesis) -> bool {
    &&& stack.len() > 0
    &&& (x.expanded matches Some(t) ==> wins(stack.last().game, t@))
    &&& (x.expanded is Some <==> some_found(x.search))
    &&& options_fit(stack.last(), find_all, x.search.options@)
    &&& (x.expanded is Some <==> winnable(stack.last().game, stack.last().loc_map_reverse@, x.search.options@))
    &&& all_win(stack.last(), x.search)
    &&& (x.base matches Some(t) ==> wins(base, t@) && exists|k: int, q: int| 0 <= k < x.search.rounds@.len()
        && 0 <= q < x.search.rounds@[k]@.len() && base_chain(stack, (#[trigger] x.search.rounds@[k]@[q])@, t@))
    &&& (x.base is None ==> forall|k: int, q: int| 0 <= k < x.search.rounds@.len() && 0 <= q < x.search.rounds@[k]@.len()
        ==> base_rejected(stack, base, (#[trigger] x.search.rounds@[k]@[q])@))
    &&& (x.base is None && moves_observable(base) ==> forall|k: int, q: int| 0 <= k < x.search.rounds@.len()
        && 0 <= q < x.search.rounds@[k]@.len() ==> !lowering_fits(stack, base, (#[trigger] x.search.rounds@[k]@[q])@))
    &&& (moves_observable(base) && states_fit(stack, base.n_agents()) && some_found(x.search) ==> x.base is Some)
}

/// Every agent's transducer, lowered from the top of `stack` to any level,
/// has at most `u32::MAX` states.
pub open spec fn states_fit(stack: Seq<ConstructedGame<MKBSC>>, n: nat) -> bool {
    forall|i: int, level: int| 0 <= i < n && 0 <= level < stack.len() - 1 ==> #[trigger] states_at(stack, i, level) <= u32::MAX
}

/// Every level of the stack has the agents of the base game.
proof fn lemma_agents_kept(st: MKBSCStack, k: int)
    requires
        st.wf(),
        0 <= k <= st.stack@.len(),
    ensures
        st.game_at(k).n_agents() == st.base.n_agents(),
        k < st.stack@.len() ==> st.stack@[k].origin.gki@.len() == st.base.n_agents(),
    decreases k,
{
    if k > 0 {
        lemma_agents_kept(st, k - 1);
        let c = st.stack@[k - 1];
        assert(c.wf());
        assert(same_game(st.game_at(k - 1), c.origin.g));
        assert(c.origin.wf());
        assert(c.game.n_actions@ == c.origin.g.n_actions@);
    }
    if k < st.stack@.len() {
        let c = st.stack@[k];
        assert(c.wf());
        assert(same_game(st.game_at(k), c.origin.g));
        assert(c.origin.wf());
    }
}

/// For a profile that wins the top expansion, lowering fits exactly when
/// the state counts do.
proof fn lemma_fits_states(st: MKBSCStack, p: Seq<Strat>)
    requires
        st.wf(),
        st.stack@.len() > 0,
        profile_wins(st.stack@.last().game, st.stack@.last().loc_map_reverse@, p),
    ensures
        lowering_fits(st.stack@, st.base, p) <==> states_fit(st.stack@, st.base.n_agents()),
{
    let n = st.stack@.len() as int;
    lemma_agents_kept(st, n);
    assert(st.game_at(n) == st.stack@.last().game);
    assert forall|k: int| 0 <= k < n implies (#[trigger] st.stack@[k]).origin.gki@.len() == p.len() by {
        lemma_agents_kept(st, k);
    }
}

/// A found profile that wins the top expansion is rejected only where it
/// cannot be lowered within the state counts.
proof fn lemma_rejected_unfit(st: MKBSCStack, p: Seq<Strat>)
    requires
        st.wf(),
        st.stack@.len() > 0,
        moves_observable(st.base),
        profile_wins(st.stack@.last().game, st.stack@.last().loc_map_reverse@, p),
        base_rejected(st.stack@, st.base, p),
    ensures
        !lowering_fits(st.stack@, st.base, p),
{
    reveal(base_rejected);
    if lowering_fits(st.stack@, st.base, p) {
        let t = choose|t: Seq<Transducer>| #[trigger] base_chain(st.stack@, p, t) && !wins(st.base, t);
        lemma_base_chain_wins(st, p, t);
    }
}

/// The outcome analysis of some knowledge game of `c` overflows its step
/// counts.
pub open spec fn overflows(c: ConstructedGame<MKBSC>) -> bool {
    exists|i: int| 0 <= i < c.origin.gki@.len() && !no_overflow(#[trigger] c.origin.gki@[i].game)
}

/// Why `synthesize` stopped.
#[derive(Debug, Clone, Copy, PartialEq, Eq, Structural)]
pub enum SynthesisStop {
    /// The search in the last game gave transducers that win the base game.
    Found,
    /// The last two expansions have the same structure.
    Settled,
    /// The last game is the expansion the limit allows.
    Limit,
    /// The next expansion has too many locations to number.
    TooBig,
}

/// A round of `synthesize`: the size of the game at its level, and what
/// searching it found.
#[derive(Debug)]
pub struct SynthesisRound {
    pub n_loc: usize,
    pub synthesis: Option<Synthesis>,
}

/// The round gave transducers that win the base game.
pub open spec fn found_base(r: SynthesisRound) -> bool {
    r.synthesis matches Some(x) && x.base is Some
}

/// `us` plays, agent by agent, the transducers `ts` of the expansion `c`
/// on the game the expansion was made of (`plays_lowered`).
pub open spec fn lower_level(c: ConstructedGame<MKBSC>, ts: Seq<Transducer>, us: Seq<Transducer>) -> bool {
    &&& ts.len() == c.origin.gki@.len()
    &&& us.len() == ts.len()
    &&& forall|i: int| 0 <= i < ts.len() ==> plays_lowered(c, i, ts[i], #[trigger] us[i])
}

/// `b`, on the game at level `lo`, comes from `a`, on the game at level
/// `hi`, by lowering level after level through the expansions of `stack`.
pub open spec fn lowered(stack: Seq<ConstructedGame<MKBSC>>, hi: int, lo: int, a: Seq<Transducer>, b: Seq<Transducer>) -> bool
    decreases hi - lo,
{
    if hi <= lo {
        b == a
    } else {
        exists|mid: Seq<Transducer>| #[trigger] lower_level(stack[hi - 1], a, mid) && lowered(stack, hi - 1, lo, mid, b)
    }
}

/// `ts` are the knowledge-tracking transducers of the profile `p` of the
/// knowledge games of `m`.
pub open spec fn top_knows(m: MKBSC, p: Seq<Strat>, ts: Seq<Transducer>) -> bool {
    &&& p.len() == m.gki@.len()
    &&& ts.len() == p.len()
    &&& forall|i: int| 0 <= i < ts.len() ==> plays_knowledge(m, i, (#[trigger] p[i]).choice@, ts[i])
}

/// The number of states of agent `i`'s transducer at level `level` when
/// lowered from the knowledge game of the top of `stack`.
pub open spec fn states_at(stack: Seq<ConstructedGame<MKBSC>>, i: int, level: int) -> int
    decreases stack.len() - 1 - level,
{
    if level >= stack.len() - 1 {
        stack[stack.len() - 1].origin.gki@[i].game.nloc() as int
    } else {
        states_at(stack, i, level + 1) * stack[level].origin.gki@[i].game.nloc()
    }
}

/// Lowering the profile `p` of the top of `stack` to the base game fits:
/// every level has one knowledge game per agent, and no transducer has more
/// states than `u32` counts.
pub open spec fn lowering_fits(stack: Seq<ConstructedGame<MKBSC>>, base: Game, p: Seq<Strat>) -> bool {
    &&& stack.len() > 0
    &&& p.len() == stack[stack.len() - 1].origin.gki@.len()
    &&& forall|k: int| 0 <= k < stack.len() ==> (#[trigger] stack[k]).origin.gki@.len() == p.len()
    &&& p.len() == base.n_agents()
    &&& forall|i: int, level: int| 0 <= i < p.len() && 0 <= level < stack.len() - 1 ==> #[trigger] states_at(stack, i, level) <= u32::MAX
}

/// `t` plays the profile `p` of the top of the stack on its base game,
/// each agent tracking its knowledge at every level.
pub open spec fn base_chain(stack: Seq<ConstructedGame<MKBSC>>, p: Seq<Strat>, t: Seq<Transducer>) -> bool {
    &&& stack.len() > 0
    &&& exists|ts: Seq<Transducer>| #[trigger] top_knows(stack[stack.len() - 1].origin, p, ts)
        && lowered(stack, stack.len() - 1, 0, ts, t)
}

/// The profile `p` of the top of `stack` yields no transducers that win
/// the base game: lowering it does not fit, or some way of playing it on
/// the base game loses.
#[verifier::opaque]
pub open spec fn base_rejected(stack: Seq<ConstructedGame<MKBSC>>, base: Game, p: Seq<Strat>) -> bool {
    !lowering_fits(stack, base, p) || exists|t: Seq<Transducer>| #[trigger] base_chain(stack, p, t) && !wins(base, t)
}

/// Lowering one more level extends `lowered`.
proof fn lemma_lowered_extend(stack: Seq<ConstructedGame<MKBSC>>, hi: int, lo: int, a: Seq<Transducer>,
    b: Seq<Transducer>, c: Seq<Transducer>)
    requires
        0 < lo <= hi,
        lowered(stack, hi, lo, a, b),
        lower_level(stack[lo - 1], b, c),
    ensures
        lowered(stack, hi, lo - 1, a, c),
    decreases hi - lo,
{
    if hi == lo {
        assert(b == a);
        assert(lowered(stack, hi - 1, lo - 1, c, c));
    } else {
        let mid = choose|mid: Seq<Transducer>| #[trigger] lower_level(stack[hi - 1], a, mid) && lowered(stack, hi - 1, lo, mid, b);
        lemma_lowered_extend(stack, hi - 1, lo, mid, b, c);
    }
}

/// The game `base`, and the expansion of each entry by the construction,
/// the first of `stack` being that of `base`.
pub struct MKBSCStack {
    pub base: Game,
    pub stack: Vec<ConstructedGame<MKBSC>>,
}

/// The construction cannot number the locations of the expansion of `g`:
/// the projection onto some agent or its knowledge game has too many, or
/// the expansion made of them has.
pub open spec fn too_big_to_expand(g: Game) -> bool {
    ||| exists|i: int| 0 <= i < g.n_agents() && #[trigger] too_big_for(g, i)
    ||| exists|m: MKBSC| #![trigger reachable_locs(&m)] m.wf() && m.g == g && !small(reachable_locs(&m))
}

impl MKBSCStack {
    pub open spec fn wf(&self) -> bool {
        &&& self.base.wf()
        &&& forall|k: int| 0 <= k < self.stack@.len() ==> (#[trigger] self.stack@[k]).wf()
        &&& forall|k: int| 0 <= k < self.stack@.len() ==> same_game(self.game_at(k), (#[trigger] self.stack@[k]).origin.g)
    }

    /// The game at position `i`: the base game, then the expansions.
    pub open spec fn game_at(&self, i: int) -> Game {
        if i == 0 {
            self.base
        } else {
            self.stack@[i - 1].game
        }
    }

    pub fn new(base: Game) -> (r: MKBSCStack)
        requires
            base.wf(),
        ensures
            r.wf(),
            r.base == base,
            r.stack@.len() == 0,
    {
        MKBSCStack { base, stack: Vec::new() }
    }

    /// The number of games: the base game and its expansions.
    pub fn len(&self) -> (r: usize)
        requires
            self.stack@.len() < usize::MAX,
        ensures
            r == self.stack@.len() + 1,
    {
        self.stack.len() + 1
    }

    /// The game at position `i`.
    pub fn get(&self, i: usize) -> (r: &Game)
        requires
            i <= self.stack@.len(),
        ensures
            *r == self.game_at(i as int),
    {
        if i == 0 {
            &self.base
        } else {
            &self.stack[i - 1].game
        }
    }

    /// The last two expansions have the same structure, observations
    /// included: expanding further gives nothing new.
    pub fn settled(&self) -> (r: bool)
        requires
            self.wf(),
        ensures
            r == (self.stack@.len() >= 2 && isomorphic(self.game_at(self.stack@.len() as int),
                self.game_at(self.stack@.len() - 1), true)),
    {
        let n = self.stack.len();
        if n < 2 {
            return false;
        }
        proof {
            assert(self.stack@[n - 1].wf());
            assert(self.stack@[n - 2].wf());
        }
        is_isomorphic(&self.stack[n - 1].game, &self.stack[n - 2].game, true)
    }

    /// The last game.
    pub fn last(&self) -> (r: &Game)
        ensures
            *r == self.game_at(self.stack@.len() as int),
    {
        if self.stack.len() == 0 {
            &self.base
        } else {
            &self.stack[self.stack.len() - 1].game
        }
    }

    /// The expansion at position `i`, which the base game is not.
    pub fn mkbsc(&self, i: usize) -> (r: Option<&ConstructedGame<MKBSC>>)
        requires
            i <= self.stack@.len(),
        ensures
            match r {
                Some(c) => i > 0 && *c == self.stack@[i - 1],
                None => i == 0,
            },
    {
        if i == 0 {
            None
        } else {
            Some(&self.stack[i - 1])
        }
    }

    /// The knowledge game of agent `agt` from which the expansion at
    /// position `i + 1` was made.
    pub fn kbsc(&self, i: usize, agt: Agt) -> (r: &ConstructedGame<KBSC>)
        requires
            i < self.stack@.len(),
            (agt.0 as int) < self.stack@[i as int].origin.gki@.len(),
        ensures
            *r == self.stack@[i as int].origin.gki@[agt.0 as int],
    {
        &self.stack[i].origin.gki[agt.index()]
    }

    /// The projection onto agent `agt` of the game at position `i`, as used
    /// for the expansion at position `i + 1`.
    pub fn projection(&self, i: usize, agt: Agt) -> (r: &Game)
        requires
            i < self.stack@.len(),
            (agt.0 as int) < self.stack@[i as int].origin.gki@.len(),
        ensures
            *r == self.stack@[i as int].origin.gki@[agt.0 as int].origin.g,
    {
        &self.stack[i].origin.gki[agt.index()].origin.g
    }

    /// Drops the expansions.
    pub fn clear(&mut self)
        ensures
            final(self).base == old(self).base,
            final(self).stack@.len() == 0,
    {
        self.stack.clear();
    }

    /// Expands the last game once more. False, with nothing changed, when a
    /// knowledge game or the expansion has too many locations to number.
    pub fn push(&mut self) -> (r: bool)
        requires
            old(self).wf(),
        ensures
            final(self).wf(),
            final(self).base == old(self).base,
            !r ==> final(self).stack@ == old(self).stack@,
            !r ==> exists|g: Game| #[trigger] same_game(old(self).game_at(old(self).stack@.len() as int), g)
                && too_big_to_expand(g),
            r ==> {
                &&& final(self).stack@.len() == old(self).stack@.len() + 1
                &&& final(self).stack@.subrange(0, old(self).stack@.len() as int) == old(self).stack@
                &&& same_game(old(self).game_at(old(self).stack@.len() as int),
                    final(self).stack@[old(self).stack@.len() as int].origin.g)
            },
    {
        let g = copy_game(self.last());
        proof {
            if self.stack@.len() > 0 {
                assert(self.stack@[self.stack@.len() - 1].wf());
            }
            lemma_same_game_wf(self.game_at(self.stack@.len() as int), g);
        }
        let ghost gv = g;
        let m = match MKBSC::new(g) {
            Some(m) => m,
            None => {
                proof {
                    assert(too_big_to_expand(gv));
                    assert(same_game(self.game_at(self.stack@.len() as int), gv));
                }
                return false;
            },
        };
        let ghost mv = m;
        let c = match build_game(m) {
            Some(c) => c,
            None => {
                proof {
                    assert(!small(reachable_locs(&mv)));
                    assert(too_big_to_expand(gv));
                    assert(same_game(self.game_at(self.stack@.len() as int), gv));
                }
                return false;
            },
        };
        let ghost old_stack = self.stack@;
        self.stack.push(c);
        proof {
            assert(self.stack@.subrange(0, old_stack.len() as int) =~= old_stack);
            assert forall|k: int| 0 <= k < self.stack@.len() implies (#[trigger] self.stack@[k]).wf() by {
                if k < old_stack.len() {
                    assert(self.stack@[k] == old_stack[k]);
                }
            }
            assert forall|k: int| 0 <= k < self.stack@.len() implies
                same_game(self.game_at(k), (#[trigger] self.stack@[k]).origin.g) by {
                if k < old_stack.len() {
                    assert(self.stack@[k] == old_stack[k]);
                    if k > 0 {
                        assert(self.stack@[k - 1] == old_stack[k - 1]);
                    }
                } else if k > 0 {
                    assert(self.stack@[k - 1] == old_stack[k - 1]);
                }
            }
        }
        true
    }

    /// The profile `profile`, found in the last game, as transducers of the
    /// base game: each agent tracks its knowledge location, at each level
    /// of the stack down to the base game, as its observation of the level
    /// above (`knowledge_transducers`, then `lower_all` level by level);
    /// given when these transducers pass `verify_strategy` on the base game.
    fn base_transducers(&self, profile: &Vec<Strat>) -> (r: Option<Vec<Transducer>>)
        requires
            self.wf(),
            self.stack@.len() > 0,
        ensures
            match r {
                Some(t) => wins(self.base, t@) && base_chain(self.stack@, profile@, t@),
                None => base_rejected(self.stack@, self.base, profile@),
            },
    {
        let top = self.stack.len() - 1;
        let ghost st = self.stack@;
        proof {
            assert(self.stack@[top as int].wf());
        }
        let mut ts = match knowledge_transducers(&self.stack[top], profile) {
            Some(t) => t,
            None => {
                proof {
                    reveal(base_rejected);
                }
                return None;
            },
        };
        let ghost ts_top = ts@;
        proof {
            assert(top_knows(st[top as int].origin, profile@, ts_top));
            assert(lowered(st, top as int, top as int, ts_top, ts@));
            assert forall|i: int| 0 <= i < ts@.len() implies (#[trigger] ts@[i]).actions@.len() == states_at(st, i, top as int) by {
                assert(plays_knowledge(st[top as int].origin, i, profile@[i].choice@, ts@[i]));
            }
        }
        let mut level = top;
        while level > 0
            invariant
                self.wf(),
                st == self.stack@,
                top == st.len() - 1,
                level <= top,
                top_knows(st[top as int].origin, profile@, ts_top),
                lowered(st, top as int, level as int, ts_top, ts@),
                ts@.len() == profile@.len(),
                forall|q: int| 0 <= q < ts@.len() ==> (#[trigger] ts@[q]).wf(),
                forall|q: int| 0 <= q < ts@.len() ==> (#[trigger] ts@[q]).actions@.len() == states_at(st, q, level as int),
            decreases level,
        {
            let c = &self.stack[level - 1];
            proof {
                assert(self.stack@[level - 1].wf());
            }
            if ts.len() != c.origin.gki.len() {
                proof {
                    reveal(base_rejected);
                }
                return None;
            }
            let ghost before = ts@;
            ts = match lower_all(c, &ts) {
                Some(t) => t,
                None => {
                    proof {
                        let i = choose|i: int| 0 <= i < before.len()
                            && (#[trigger] before[i]).actions@.len() * c.origin.gki@[i].game.nloc() > u32::MAX;
                        assert(states_at(st, i, level - 1) == states_at(st, i, level as int) * st[level - 1].origin.gki@[i].game.nloc());
                        reveal(base_rejected);
                    }
                    return None;
                },
            };
            proof {
                assert(lower_level(st[level - 1], before, ts@));
                lemma_lowered_extend(st, top as int, level as int, ts_top, before, ts@);
                assert forall|q: int| 0 <= q < ts@.len() implies (#[trigger] ts@[q]).actions@.len() == states_at(st, q, level - 1) by {
                    assert(plays_lowered(st[level - 1], q, before[q], ts@[q]));
                    assert(states_at(st, q, level - 1) == states_at(st, q, level as int) * st[level - 1].origin.gki@[q].game.nloc());
                }
                assert forall|q: int| 0 <= q < ts@.len() implies (#[trigger] ts@[q]).wf() by {
                    assert(plays_lowered(st[level - 1], q, before[q], ts@[q]));
                }
            }
            level = level - 1;
        }
        proof {
            assert(base_chain(st, profile@, ts@));
        }
        if ts.len() != self.base.n_actions.len() {
            proof {
                reveal(base_rejected);
            }
            return None;
        }
        if verify_strategy(&self.base, &ts) {
            Some(ts)
        } else {
            proof {
                reveal(base_rejected);
            }
            None
        }
    }

    /// The first profile of `res` that, played on the base game through
    /// `base_transducers`, wins it.
    #[verifier::rlimit(60)]
    fn base_of(&self, res: &SearchResult) -> (r: Option<Vec<Transducer>>)
        requires
            self.wf(),
            self.stack@.len() > 0,
        ensures
            match r {
                Some(t) => wins(self.base, t@) && exists|k: int, q: int| 0 <= k < res.rounds@.len()
                    && 0 <= q < res.rounds@[k]@.len() && base_chain(self.stack@, (#[trigger] res.rounds@[k]@[q])@, t@),
                None => forall|k: int, q: int| 0 <= k < res.rounds@.len() && 0 <= q < res.rounds@[k]@.len() ==>
                    base_rejected(self.stack@, self.base, (#[trigger] res.rounds@[k]@[q])@),
            },
    {
        let mut k: usize = 0;
        while k < res.rounds.len()
            invariant
                self.wf(),
                self.stack@.len() > 0,
                k <= res.rounds@.len(),
                forall|k2: int, q: int| 0 <= k2 < k && 0 <= q < res.rounds@[k2]@.len() ==>
                    base_rejected(self.stack@, self.base, (#[trigger] res.rounds@[k2]@[q])@),
            decreases res.rounds@.len() - k,
        {
            let mut j: usize = 0;
            while j < res.rounds[k].len()
                invariant
                    self.wf(),
                    self.stack@.len() > 0,
                    k < res.rounds@.len(),
                    j <= res.rounds@[k as int]@.len(),
                    forall|k2: int, q: int| 0 <= k2 < k && 0 <= q < res.rounds@[k2]@.len() ==>
                        base_rejected(self.stack@, self.base, (#[trigger] res.rounds@[k2]@[q])@),
                    forall|q: int| 0 <= q < j ==> base_rejected(self.stack@, self.base, (#[trigger] res.rounds@[k as int]@[q])@),
                decreases res.rounds@[k as int]@.len() - j,
            {
                match self.base_transducers(&res.rounds[k][j]) {
                    Some(t) => {
                        proof {
                            assert(base_chain(self.stack@, res.rounds@[k as int]@[j as int]@, t@));
                        }
                        return Some(t);
                    },
                    None => {},
                }
                j = j + 1;
            }
            proof {
                assert forall|k2: int, q: int| 0 <= k2 < k + 1 && 0 <= q < res.rounds@[k2]@.len() implies
                    base_rejected(self.stack@, self.base, (#[trigger] res.rounds@[k2]@[q])@) by {
                    if k2 == k {
                        assert(base_rejected(self.stack@, self.base, res.rounds@[k as int]@[q]@));
                    }
                }
            }
            k = k + 1;
        }
        None
    }

    /// Searches the last game, if it is an expansion, for a profile of
    /// strategies, which it finds exactly when some profile drawn from the
    /// options of the agents' knowledge games wins the last game. Also gives
    /// the first profile found that wins the last game, as transducers; and
    /// the first that, played on the base game with each agent tracking its
    /// knowledge at every level, wins it. Every profile found gives such
    /// transducers (`lemma_base_chain_wins`) where whether a joint action
    /// leads anywhere in the base game depends only on what the agents
    /// observe, unless the lowered transducers have more states than `u32`
    /// counts; so these are then given whenever a profile is found.
    pub fn find_strategy_profile(&self, find_all: bool) -> (r: Option<Synthesis>)
        requires
            self.wf(),
        ensures
            r is None <==> (self.stack@.len() == 0 || exists|i: int| 0 <= i < self.stack@.last().origin.gki@.len()
                && !no_overflow(#[trigger] self.stack@.last().origin.gki@[i].game)),
            r matches Some(x) ==> synthesis_fits(self.stack@, self.base, find_all, x),
    {
        if self.stack.len() == 0 {
            return None;
        }
        let c = &self.stack[self.stack.len() - 1];
        proof {
            assert(self.stack@[self.stack@.len() - 1].wf());
            assert(self.stack@.last() == self.stack@[self.stack@.len() - 1]);
        }
        match find_strategy(c, find_all) {
            Some(res) => {
                let expanded = winning_profile(c, &res);
                let base = self.base_of(&res);
                let x = Synthesis { search: res, expanded, base };
                proof {
                    if x.base is None && moves_observable(self.base) {
                        assert forall|k: int, q: int| 0 <= k < x.search.rounds@.len() && 0 <= q < x.search.rounds@[k]@.len()
                            implies !lowering_fits(self.stack@, self.base, (#[trigger] x.search.rounds@[k]@[q])@) by {
                            assert(profile_wins(c.game, c.loc_map_reverse@, x.search.rounds@[k]@[q]@));
                            lemma_rejected_unfit(*self, x.search.rounds@[k]@[q]@);
                        }
                    }
                    if moves_observable(self.base) && states_fit(self.stack@, self.base.n_agents()) && some_found(x.search) {
                        let k = choose|k: int| 0 <= k < x.search.rounds@.len() && (#[trigger] x.search.rounds@[k])@.len() > 0;
                        let p = x.search.rounds@[k]@[0]@;
                        assert(profile_wins(c.game, c.loc_map_reverse@, p));
                        lemma_fits_states(*self, p);
                        if x.base is None {
                            lemma_rejected_unfit(*self, p);
                        }
                    }
                    assert(synthesis_fits(self.stack@, self.base, find_all, x)) by {
                        reveal(synthesis_fits);
                    }
                }
                Some(x)
            },
            None => None,
        }
    }
}



/// What the rounds of `synthesize` so far record of `stack`, round `k`
/// being at level `k`.
#[verifier::opaque]
spec fn rounds_fit(stack: MKBSCStack, rounds: Seq<SynthesisRound>, find_all: bool) -> bool {
    &&& forall|k: int| 0 <= k < rounds.len() ==> (#[trigger] rounds[k]).n_loc == stack.game_at(k).nloc()
    &&& forall|k: int| 0 <= k < rounds.len() ==> ((#[trigger] rounds[k]).synthesis matches Some(x)
        ==> synthesis_fits(stack.stack@.subrange(0, k), stack.base, find_all, x))
    &&& rounds.len() > 0 ==> rounds[0].synthesis is None
    &&& forall|k: int| 1 <= k < rounds.len() ==> ((#[trigger] rounds[k]).synthesis is None <==> overflows(stack.stack@[k - 1]))
    &&& forall|k: int| 2 <= k < rounds.len() ==> !isomorphic(#[trigger] stack.game_at(k), stack.game_at(k - 1), true)
}

proof fn lemma_rounds_open(stack: MKBSCStack, rounds: Seq<SynthesisRound>, find_all: bool)
    requires
        rounds_fit(stack, rounds, find_all),
    ensures
        forall|k: int| 0 <= k < rounds.len() ==> (#[trigger] rounds[k]).n_loc == stack.game_at(k).nloc(),
        forall|k: int| 0 <= k < rounds.len() ==> ((#[trigger] rounds[k]).synthesis matches Some(x)
            ==> synthesis_fits(stack.stack@.subrange(0, k), stack.base, find_all, x)),
        rounds.len() > 0 ==> rounds[0].synthesis is None,
        forall|k: int| 1 <= k < rounds.len() ==> ((#[trigger] rounds[k]).synthesis is None <==> overflows(stack.stack@[k - 1])),
        forall|k: int| 2 <= k < rounds.len() ==> !isomorphic(#[trigger] stack.game_at(k), stack.game_at(k - 1), true),
        forall|k: int| 0 <= k < rounds.len() ==> ((#[trigger] rounds[k]).synthesis matches Some(x)
            && moves_observable(stack.base) && states_fit(stack.stack@.subrange(0, k), stack.base.n_agents())
            && some_found(x.search) ==> found_base(rounds[k])),
{
    reveal(rounds_fit);
    reveal(synthesis_fits);
}

/// Expanding once more keeps what the rounds record.
proof fn lemma_rounds_push(s0: MKBSCStack, s1: MKBSCStack, rounds: Seq<SynthesisRound>, find_all: bool)
    requires
        rounds_fit(s0, rounds, find_all),
        s1.base == s0.base,
        s1.stack@.len() >= s0.stack@.len(),
        s1.stack@.subrange(0, s0.stack@.len() as int) == s0.stack@,
        rounds.len() <= s0.stack@.len() + 1,
    ensures
        rounds_fit(s1, rounds, find_all),
{
    reveal(rounds_fit);
    let n = s0.stack@.len() as int;
    assert forall|k: int| 0 <= k <= n implies #[trigger] s1.game_at(k) == s0.game_at(k) by {
        if k > 0 {
            assert(s1.stack@[k - 1] == s1.stack@.subrange(0, n)[k - 1]);
        }
    }
    assert forall|k: int| 0 <= k <= n implies #[trigger] s1.stack@.subrange(0, k) == s0.stack@.subrange(0, k) by {
        assert(s1.stack@.subrange(0, k) =~= s1.stack@.subrange(0, n).subrange(0, k));
    }
    assert forall|k: int| 1 <= k <= n implies #[trigger] s1.stack@[k - 1] == s0.stack@[k - 1] by {
        assert(s1.stack@[k - 1] == s1.stack@.subrange(0, n)[k - 1]);
    }
    assert forall|k: int| 2 <= k < rounds.len() implies !isomorphic(#[trigger] s1.game_at(k), s1.game_at(k - 1), true) by {
        assert(s1.game_at(k) == s0.game_at(k));
        assert(s1.game_at(k - 1) == s0.game_at(k - 1));
    }
    assert forall|k: int| 0 <= k < rounds.len() implies ((#[trigger] rounds[k]).synthesis matches Some(x)
        ==> synthesis_fits(s1.stack@.subrange(0, k), s1.base, find_all, x)) by {
        assert(s1.stack@.subrange(0, k) == s0.stack@.subrange(0, k));
    }
    assert forall|k: int| 1 <= k < rounds.len() implies ((#[trigger] rounds[k]).synthesis is None <==> overflows(s1.stack@[k - 1])) by {
        assert(s1.stack@[k - 1] == s0.stack@[k - 1]);
    }
    assert forall|k: int| 0 <= k < rounds.len() implies (#[trigger] rounds[k]).n_loc == s1.game_at(k).nloc() by {
        assert(s1.game_at(k) == s0.game_at(k));
    }
}

/// Recording the round at the top level of `stack`.
proof fn lemma_rounds_add(stack: MKBSCStack, rounds: Seq<SynthesisRound>, find_all: bool, r: SynthesisRound)
    requires
        rounds_fit(stack, rounds, find_all),
        rounds.len() == stack.stack@.len(),
        r.n_loc == stack.game_at(rounds.len() as int).nloc(),
        r.synthesis matches Some(x) ==> synthesis_fits(stack.stack@, stack.base, find_all, x),
        rounds.len() == 0 ==> r.synthesis is None,
        rounds.len() >= 1 ==> (r.synthesis is None <==> overflows(stack.stack@[rounds.len() - 1])),
        rounds.len() >= 2 ==> !isomorphic(stack.game_at(rounds.len() as int), stack.game_at(rounds.len() - 1), true),
    ensures
        rounds_fit(stack, rounds.push(r), find_all),
{
    reveal(rounds_fit);
    let n = rounds.len() as int;
    let r2 = rounds.push(r);
    assert(stack.stack@.subrange(0, n) =~= stack.stack@);
    assert(r2[n] == r);
    assert forall|k: int| 0 <= k < n implies #[trigger] r2[k] == rounds[k] by {}
}

/// Synthesis on `base`: expands it level after level, from level 0 (the
/// game itself) up, and at each level searches the expansion for a profile
/// of strategies (`find_strategy_profile`; there is nothing to search at
/// level 0). It stops at the first level whose search gives transducers
/// that win `base` (which any level whose search finds a profile does,
/// where `moves_observable(base)` holds and the lowered transducers' state
/// counts fit); at the first level, from 2 on, whose expansion has the
/// structure of the one below, before searching it; after searching level
/// `max_iterations`; or when the next expansion has too many locations.
/// Gives the stack of expansions, a round per level reached, and why it
/// stopped.
#[verifier::spinoff_prover]
#[verifier::rlimit(60)]
pub fn synthesize(base: Game, find_all: bool, max_iterations: u64) -> (r: (MKBSCStack, Vec<SynthesisRound>, SynthesisStop))
    requires
        base.wf(),
        max_iterations < usize::MAX,
    ensures
        r.0.wf(),
        r.0.base == base,
        r.1@.len() >= 1,
        r.1@.len() <= max_iterations + 1,
        r.0.stack@.len() + 1 == r.1@.len(),
        forall|k: int| 0 <= k < r.1@.len() ==> (#[trigger] r.1@[k]).n_loc == r.0.game_at(k).nloc(),
        forall|k: int| 0 <= k < r.1@.len() ==> ((#[trigger] r.1@[k]).synthesis matches Some(x)
            ==> synthesis_fits(r.0.stack@.subrange(0, k), base, find_all, x)),
        r.1@[0].synthesis is None,
        forall|k: int| 1 <= k < r.1@.len() && !(r.2 == SynthesisStop::Settled && k == r.1@.len() - 1) ==>
            ((#[trigger] r.1@[k]).synthesis is None <==> overflows(r.0.stack@[k - 1])),
        forall|k: int| 0 <= k < r.1@.len() - 1 ==> !found_base(#[trigger] r.1@[k]),
        forall|k: int| 2 <= k < r.1@.len() && !(r.2 == SynthesisStop::Settled && k == r.1@.len() - 1) ==>
            !isomorphic(#[trigger] r.0.game_at(k), r.0.game_at(k - 1), true),
        (r.2 == SynthesisStop::Found) <==> found_base(r.1@.last()),
        r.2 == SynthesisStop::Settled ==> r.1@.len() >= 3 && r.1@.last().synthesis is None
            && isomorphic(r.0.game_at(r.1@.len() - 1), r.0.game_at(r.1@.len() - 2), true),
        r.2 == SynthesisStop::Limit ==> r.1@.len() == max_iterations + 1,
        r.2 == SynthesisStop::TooBig ==> r.1@.len() <= max_iterations && exists|g: Game|
            #[trigger] same_game(r.0.game_at(r.0.stack@.len() as int), g) && too_big_to_expand(g),
        forall|k: int| 0 <= k < r.1@.len() ==> ((#[trigger] r.1@[k]).synthesis matches Some(x)
            && moves_observable(base) && states_fit(r.0.stack@.subrange(0, k), base.n_agents())
            && some_found(x.search) ==> found_base(r.1@[k])),
{
    let mut stack = MKBSCStack::new(base);
    let mut rounds: Vec<SynthesisRound> = Vec::new();
    let mut i: usize = 0;
    proof {
        reveal(rounds_fit);
    }
    loop
        invariant
            stack.wf(),
            stack.base == base,
            rounds@.len() == i,
            i <= max_iterations,
            max_iterations < usize::MAX,
            stack.stack@.len() + 1 == i || (i == 0 && stack.stack@.len() == 0),
            rounds_fit(stack, rounds@, find_all),
            forall|k: int| 0 <= k < i ==> !found_base(#[trigger] rounds@[k]),
        decreases max_iterations - i,
    {
        let ghost s0 = stack;
        let ghost r0 = rounds@;
        if i >= 1 {
            if !stack.push() {
                proof {
                    assert(stack.game_at(stack.stack@.len() as int) == s0.game_at(s0.stack@.len() as int));
                    assert(stack.stack@.subrange(0, s0.stack@.len() as int) =~= s0.stack@);
                    lemma_rounds_push(s0, stack, rounds@, find_all);
                    lemma_rounds_open(stack, rounds@, find_all);
                }
                return (stack, rounds, SynthesisStop::TooBig);
            }
            proof {
                lemma_rounds_push(s0, stack, rounds@, find_all);
            }
            if stack.settled() {
                let n_loc = stack.last().n_loc();
                rounds.push(SynthesisRound { n_loc, synthesis: None });
                proof {
                    lemma_rounds_open(stack, r0, find_all);
                    assert(stack.stack@.subrange(0, i as int) =~= stack.stack@);
                    assert forall|k: int| 0 <= k < i implies #[trigger] rounds@[k] == r0[k] by {}
                }
                return (stack, rounds, SynthesisStop::Settled);
            }
        }
        let synthesis = stack.find_strategy_profile(find_all);
        let found = match &synthesis {
            Some(x) => x.base.is_some(),
            None => false,
        };
        let n_loc = stack.last().n_loc();
        let ghost nr = SynthesisRound { n_loc, synthesis };
        proof {
            if i >= 1 {
                assert(stack.stack@.last() == stack.stack@[i - 1]);
            }
            lemma_rounds_add(stack, rounds@, find_all, nr);
        }
        rounds.push(SynthesisRound { n_loc, synthesis });
        proof {
            assert(rounds@ == r0.push(nr));
            assert forall|k: int| 0 <= k < i implies #[trigger] rounds@[k] == r0[k] by {}
            lemma_rounds_open(stack, rounds@, find_all);
        }
        if found {
            return (stack, rounds, SynthesisStop::Found);
        }
        if i as u64 >= max_iterations {
            return (stack, rounds, SynthesisStop::Limit);
        }
        i = i + 1;
    }
}


/// Why `expand` stopped.
#[derive(Debug, Clone, Copy, PartialEq, Eq, Structural)]
pub enum ExpandStop {
    /// The last expansion has the structure of the game below it.
    Settled,
    /// The limit on the number of expansions was reached.
    Limit,
    /// The next expansion has too many locations to number.
    TooBig,
}

/// Expands `base` up to `max_iterations` times; when `check_iso`, stops
/// at the first expansion that has the structure (observations included)
/// of the game it was made of, keeping that expansion on the stack. Gives
/// the stack and why it stopped.
#[verifier::spinoff_prover]
#[verifier::rlimit(50)]
pub fn expand(base: Game, max_iterations: u64, check_iso: bool) -> (r: (MKBSCStack, ExpandStop))
    requires
        base.wf(),
    ensures
        r.0.wf(),
        r.0.base == base,
        r.0.stack@.len() <= max_iterations,
        forall|k: int| 1 <= k <= r.0.stack@.len() && !(r.1 == ExpandStop::Settled && k == r.0.stack@.len()) ==>
            !(check_iso && isomorphic(#[trigger] r.0.game_at(k), r.0.game_at(k - 1), true)),
        r.1 == ExpandStop::Settled ==> check_iso && r.0.stack@.len() >= 1
            && isomorphic(r.0.game_at(r.0.stack@.len() as int), r.0.game_at(r.0.stack@.len() - 1), true),
        r.1 == ExpandStop::Limit ==> r.0.stack@.len() == max_iterations,
        r.1 == ExpandStop::TooBig ==> exists|g: Game|
            #[trigger] same_game(r.0.game_at(r.0.stack@.len() as int), g) && too_big_to_expand(g),
{
    let mut stack = MKBSCStack::new(base);
    let mut i: u64 = 0;
    while i < max_iterations
        invariant
            stack.wf(),
            stack.base == base,
            stack.stack@.len() == i,
            i <= max_iterations,
            forall|k: int| 1 <= k <= i ==> !(check_iso && isomorphic(#[trigger] stack.game_at(k), stack.game_at(k - 1), true)),
        decreases max_iterations - i,
    {
        let ghost s0 = stack;
        if !stack.push() {
            proof {
                assert(stack.game_at(stack.stack@.len() as int) == s0.game_at(s0.stack@.len() as int));
                assert forall|k: int| 1 <= k <= i implies #[trigger] stack.game_at(k) == s0.game_at(k)
                    && stack.game_at(k - 1) == s0.game_at(k - 1) by {}
            }
            return (stack, ExpandStop::TooBig);
        }
        proof {
            assert forall|k: int| 0 <= k <= i implies #[trigger] stack.game_at(k) == s0.game_at(k) by {
                if k > 0 {
                    assert(stack.stack@[k - 1] == stack.stack@.subrange(0, i as int)[k - 1]);
                }
            }
            assert forall|k: int| 1 <= k <= i implies !(check_iso && isomorphic(#[trigger] stack.game_at(k), stack.game_at(k - 1), true)) by {
                assert(stack.game_at(k) == s0.game_at(k));
                assert(stack.game_at(k - 1) == s0.game_at(k - 1));
            }
        }
        let n = stack.stack.len();
        if check_iso {
            proof {
                assert(stack.stack@[n - 1].wf());
                if n >= 2 {
                    assert(stack.stack@[n - 2].wf());
                }
            }
            if is_isomorphic(stack.last(), stack.get(n - 1), true) {
                return (stack, ExpandStop::Settled);
            }
        }
        i = i + 1;
    }
    (stack, ExpandStop::Limit)
}

} // verus!
