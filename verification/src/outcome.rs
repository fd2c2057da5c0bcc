//! Outcomes of a reachability game seen from a single location: whether the
//! agent is guaranteed to win, may win, or surely loses, with step counts.

use vstd::prelude::*;
use std::cmp::Ordering;
use crate::types::Act;

verus! {

/// Number of steps.
pub type Depth = u16;

/// The outcome of playing from a location (or with an action).
#[derive(Clone, Copy, PartialEq, Eq, Structural, Hash, Debug)]
pub enum Outcome {
    /// Guaranteed to win in at most the given number of steps.
    Win(Depth),
    /// Possible to win after the first number of steps; possible to reach
    /// a `Win` location in the second number of steps.
    Maybe(Depth, Depth),
    /// Winning is impossible.
    Lose,
}

pub open spec fn min_u16(a: u16, b: u16) -> u16 {
    if a <= b { a } else { b }
}

pub open spec fn max_u16(a: u16, b: u16) -> u16 {
    if a >= b { a } else { b }
}

fn min16(a: u16, b: u16) -> (r: u16)
    ensures r == min_u16(a, b),
{
    if a <= b { a } else { b }
}

fn max16(a: u16, b: u16) -> (r: u16)
    ensures r == max_u16(a, b),
{
    if a >= b { a } else { b }
}

/// `a & b`: the outcome when the play may continue in either of two ways
/// that the agent cannot tell apart.
pub open spec fn outcome_and(a: Outcome, b: Outcome) -> Outcome {
    match (a, b) {
        (Outcome::Win(x), Outcome::Win(y)) => Outcome::Win(max_u16(x, y)),
        (Outcome::Win(x), Outcome::Maybe(y, _)) => Outcome::Maybe(min_u16(x, y), 0),
        (Outcome::Win(x), Outcome::Lose) => Outcome::Maybe(x, 0),
        (Outcome::Maybe(x, _), Outcome::Win(y)) => Outcome::Maybe(min_u16(x, y), 0),
        (Outcome::Maybe(x, y), Outcome::Maybe(z, w)) => Outcome::Maybe(min_u16(x, z), min_u16(y, w)),
        (Outcome::Maybe(x, y), Outcome::Lose) => Outcome::Maybe(x, y),
        (Outcome::Lose, Outcome::Win(x)) => Outcome::Maybe(x, 0),
        (Outcome::Lose, Outcome::Maybe(x, y)) => Outcome::Maybe(x, y),
        (Outcome::Lose, Outcome::Lose) => Outcome::Lose,
    }
}

/// `a | b`: the better of two options the agent can choose between.
pub open spec fn outcome_or(a: Outcome, b: Outcome) -> Outcome {
    match (a, b) {
        (Outcome::Win(x), Outcome::Win(y)) => Outcome::Win(min_u16(x, y)),
        (Outcome::Win(x), Outcome::Maybe(_, _)) => Outcome::Win(x),
        (Outcome::Maybe(_, _), Outcome::Win(x)) => Outcome::Win(x),
        (Outcome::Maybe(x, y), Outcome::Maybe(z, w)) => Outcome::Maybe(min_u16(x, z), min_u16(y, w)),
        (Outcome::Lose, x) => x,
        (x, Outcome::Lose) => x,
    }
}

/// One more step before the outcome.
pub open spec fn outcome_increment(a: Outcome) -> Outcome {
    match a {
        Outcome::Win(x) => Outcome::Win((x + 1) as u16),
        Outcome::Maybe(x, y) => Outcome::Maybe((x + 1) as u16, (y + 1) as u16),
        Outcome::Lose => Outcome::Lose,
    }
}

/// The step counts of `a` leave room for one more step.
pub open spec fn can_increment(a: Outcome) -> bool {
    match a {
        Outcome::Win(x) => x < u16::MAX,
        Outcome::Maybe(x, y) => x < u16::MAX && y < u16::MAX,
        Outcome::Lose => true,
    }
}

/// The key by which outcomes are ordered, best first: wins by their
/// depth, then maybes by their second and then first depth, then losses.
pub open spec fn outcome_key(a: Outcome) -> (int, int, int) {
    match a {
        Outcome::Win(x) => (0, x as int, 0),
        Outcome::Maybe(x, y) => (1, y as int, x as int),
        Outcome::Lose => (2, 0, 0),
    }
}

pub open spec fn key_lt(a: (int, int, int), b: (int, int, int)) -> bool {
    a.0 < b.0 || (a.0 == b.0 && (a.1 < b.1 || (a.1 == b.1 && a.2 < b.2)))
}

/// `a` is strictly better than `b`.
pub open spec fn outcome_lt(a: Outcome, b: Outcome) -> bool {
    key_lt(outcome_key(a), outcome_key(b))
}

/// `a` is at least as good as `b`.
pub open spec fn outcome_le(a: Outcome, b: Outcome) -> bool {
    outcome_lt(a, b) || a == b
}

impl Outcome {
    pub fn is_win(self) -> (r: bool)
        ensures r == (self is Win),
    {
        match self {
            Outcome::Win(_) => true,
            _ => false,
        }
    }

    pub fn is_maybe(self) -> (r: bool)
        ensures r == (self is Maybe),
    {
        match self {
            Outcome::Maybe(_, _) => true,
            _ => false,
        }
    }

    pub fn is_lose(self) -> (r: bool)
        ensures r == (self is Lose),
    {
        self == Outcome::Lose
    }

    pub fn can_win(self) -> (r: bool)
        ensures r == !(self is Lose),
    {
        self != Outcome::Lose
    }

    /// The step counts leave room for one more step.
    pub fn can_increment_exec(self) -> (r: bool)
        ensures r == can_increment(self),
    {
        match self {
            Outcome::Win(x) => x < u16::MAX,
            Outcome::Maybe(x, y) => x < u16::MAX && y < u16::MAX,
            Outcome::Lose => true,
        }
    }

    pub fn increment(self) -> (r: Outcome)
        requires can_increment(self),
        ensures r == outcome_increment(self),
    {
        match self {
            Outcome::Win(x) => Outcome::Win(x + 1),
            Outcome::Maybe(x, y) => Outcome::Maybe(x + 1, y + 1),
            Outcome::Lose => Outcome::Lose,
        }
    }

    /// Three-way comparison, best outcome first.
    pub fn cmp(&self, rhs: &Self) -> (r: Ordering)
        ensures
            (r == Ordering::Less) == outcome_lt(*self, *rhs),
            (r == Ordering::Equal) == (*self == *rhs),
            (r == Ordering::Greater) == outcome_lt(*rhs, *self),
    {
        match (*self, *rhs) {
            (Outcome::Win(a), Outcome::Win(b)) => {
                if a < b { Ordering::Less } else if a == b { Ordering::Equal } else { Ordering::Greater }
            },
            (Outcome::Win(_), _) => Ordering::Less,
            (_, Outcome::Win(_)) => Ordering::Greater,
            (Outcome::Maybe(a, b), Outcome::Maybe(c, d)) => {
                if b < d {
                    Ordering::Less
                } else if b > d {
                    Ordering::Greater
                } else if a < c {
                    Ordering::Less
                } else if a == c {
                    Ordering::Equal
                } else {
                    Ordering::Greater
                }
            },
            (Outcome::Maybe(_, _), Outcome::Lose) => Ordering::Less,
            (Outcome::Lose, Outcome::Maybe(_, _)) => Ordering::Greater,
            (Outcome::Lose, Outcome::Lose) => Ordering::Equal,
        }
    }

    /// `self` is at least as good as `rhs`.
    pub fn le(&self, rhs: &Self) -> (r: bool)
        ensures r == outcome_le(*self, *rhs),
    {
        match self.cmp(rhs) {
            Ordering::Greater => false,
            _ => true,
        }
    }

    pub fn bitand(self, rhs: Self) -> (r: Outcome)
        ensures r == outcome_and(self, rhs),
    {
        match (self, rhs) {
            (Outcome::Win(a), Outcome::Win(b)) => Outcome::Win(max16(a, b)),
            (Outcome::Win(a), Outcome::Maybe(b, _)) => Outcome::Maybe(min16(a, b), 0),
            (Outcome::Win(a), Outcome::Lose) => Outcome::Maybe(a, 0),
            (Outcome::Maybe(a, _), Outcome::Win(b)) => Outcome::Maybe(min16(a, b), 0),
            (Outcome::Maybe(a, b), Outcome::Maybe(c, d)) => Outcome::Maybe(min16(a, c), min16(b, d)),
            (Outcome::Maybe(a, b), Outcome::Lose) => Outcome::Maybe(a, b),
            (Outcome::Lose, Outcome::Win(a)) => Outcome::Maybe(a, 0),
            (Outcome::Lose, Outcome::Maybe(a, b)) => Outcome::Maybe(a, b),
            (Outcome::Lose, Outcome::Lose) => Outcome::Lose,
        }
    }

    pub fn bitor(self, rhs: Self) -> (r: Outcome)
        ensures r == outcome_or(self, rhs),
    {
        match (self, rhs) {
            (Outcome::Win(a), Outcome::Win(b)) => Outcome::Win(min16(a, b)),
            (Outcome::Win(a), Outcome::Maybe(_, _)) => Outcome::Win(a),
            (Outcome::Maybe(_, _), Outcome::Win(a)) => Outcome::Win(a),
            (Outcome::Maybe(a, b), Outcome::Maybe(c, d)) => Outcome::Maybe(min16(a, c), min16(b, d)),
            (Outcome::Lose, x) => x,
            (x, Outcome::Lose) => x,
        }
    }

    pub fn bitand_assign(&mut self, rhs: Self)
        ensures *final(self) == outcome_and(*old(self), rhs),
    {
        *self = self.bitand(rhs);
    }

    pub fn bitor_assign(&mut self, rhs: Self)
        ensures *final(self) == outcome_or(*old(self), rhs),
    {
        *self = self.bitor(rhs);
    }

    /// The default outcome is a loss.
    pub fn default() -> (r: Outcome)
        ensures r == Outcome::Lose,
    {
        Outcome::Lose
    }
}

// ---------------------------------------------------------------------
// Laws of the outcome algebra

/// `|` is commutative.
pub proof fn lemma_or_commutative(a: Outcome, b: Outcome)
    ensures outcome_or(a, b) == outcome_or(b, a),
{
}

/// `|` is associative.
pub proof fn lemma_or_associative(a: Outcome, b: Outcome, c: Outcome)
    ensures outcome_or(outcome_or(a, b), c) == outcome_or(a, outcome_or(b, c)),
{
}

/// `|` is idempotent.
pub proof fn lemma_or_idempotent(a: Outcome)
    ensures outcome_or(a, a) == a,
{
}

/// `Lose` is the identity of `|`.
pub proof fn lemma_or_lose_identity(a: Outcome)
    ensures
        outcome_or(Outcome::Lose, a) == a,
        outcome_or(a, Outcome::Lose) == a,
{
}

/// `a | b` is at least as good as each of `a` and `b`.
pub proof fn lemma_or_improves(a: Outcome, b: Outcome)
    ensures
        outcome_le(outcome_or(a, b), a),
        outcome_le(outcome_or(a, b), b),
{
}

/// `a | b` can win exactly when one of `a` and `b` can.
pub proof fn lemma_or_can_win(a: Outcome, b: Outcome)
    ensures (outcome_or(a, b) is Lose) == (a is Lose && b is Lose),
{
}

/// `&` is commutative.
pub proof fn lemma_and_commutative(a: Outcome, b: Outcome)
    ensures outcome_and(a, b) == outcome_and(b, a),
{
}

/// `&` is idempotent.
pub proof fn lemma_and_idempotent(a: Outcome)
    ensures outcome_and(a, a) == a,
{
}

/// `a & b` can win exactly when one of `a` and `b` can, and is a sure win
/// only when both are.
pub proof fn lemma_and_can_win(a: Outcome, b: Outcome)
    ensures
        (outcome_and(a, b) is Lose) == (a is Lose && b is Lose),
        (outcome_and(a, b) is Win) == (a is Win && b is Win),
{
}

/// The order on outcomes is a strict total order.
pub proof fn lemma_order_total(a: Outcome, b: Outcome, c: Outcome)
    ensures
        !outcome_lt(a, a),
        outcome_lt(a, b) ==> !outcome_lt(b, a),
        outcome_lt(a, b) && outcome_lt(b, c) ==> outcome_lt(a, c),
        a == b || outcome_lt(a, b) || outcome_lt(b, a),
{
}

/// Incrementing keeps the kind of outcome.
pub proof fn lemma_increment_kind(a: Outcome)
    ensures
        (outcome_increment(a) is Win) == (a is Win),
        (outcome_increment(a) is Maybe) == (a is Maybe),
        (outcome_increment(a) is Lose) == (a is Lose),
{
}

// ---------------------------------------------------------------------
// Outcome sets

/// The outcomes of every action at one location, and the overall outcome.
#[derive(Debug)]
pub struct OutcomeSet {
    pub action: Vec<Outcome>,
    pub outcome: Outcome,
    pub initial: Outcome,
}

/// The overall outcome when choosing among `actions`, starting from `init`.
pub open spec fn fold_or(init: Outcome, actions: Seq<Outcome>) -> Outcome
    decreases actions.len(),
{
    if actions.len() == 0 {
        init
    } else {
        outcome_or(fold_or(init, actions.drop_last()), actions.last())
    }
}

/// The outcome of a location with no known way to win yet.
pub open spec fn initial_outcome(is_goal: bool) -> Outcome {
    if is_goal { Outcome::Win(0) } else { Outcome::Lose }
}

/// Pointwise `&` over the first `n` actions, the rest unchanged.
pub open spec fn and_actions(a: Seq<Outcome>, b: Seq<Outcome>) -> Seq<Outcome> {
    Seq::new(a.len(), |i: int| if i < b.len() { outcome_and(a[i], b[i]) } else { a[i] })
}

impl Clone for OutcomeSet {
    fn clone(&self) -> (r: Self)
        ensures
            r.action@ == self.action@,
            r.outcome == self.outcome,
            r.initial == self.initial,
    {
        let mut action: Vec<Outcome> = Vec::new();
        let mut i: usize = 0;
        while i < self.action.len()
            invariant
                i <= self.action@.len(),
                action@ == self.action@.subrange(0, i as int),
            decreases self.action@.len() - i,
        {
            action.push(self.action[i]);
            i = i + 1;
            assert(action@ =~= self.action@.subrange(0, i as int));
        }
        assert(self.action@.subrange(0, self.action@.len() as int) =~= self.action@);
        OutcomeSet { action, outcome: self.outcome, initial: self.initial }
    }
}

impl OutcomeSet {
    /// A set for `n` actions, all losing; winning outright if `is_goal`.
    pub fn new(n: usize, is_goal: bool) -> (r: OutcomeSet)
        ensures
            r.action@ == Seq::new(n as nat, |i: int| Outcome::Lose),
            r.outcome == initial_outcome(is_goal),
            r.initial == initial_outcome(is_goal),
    {
        let outcome = if is_goal { Outcome::Win(0) } else { Outcome::Lose };
        let mut action: Vec<Outcome> = Vec::new();
        let mut i: usize = 0;
        while i < n
            invariant
                i <= n,
                action@ == Seq::new(i as nat, |j: int| Outcome::Lose),
            decreases n - i,
        {
            action.push(Outcome::Lose);
            i = i + 1;
        }
        OutcomeSet { action, outcome, initial: outcome }
    }

    /// Records `outcome` as achievable with action `a`; returns whether
    /// anything changed, and the overall outcome before the call.
    pub fn insert(&mut self, a: Act, outcome: Outcome) -> (r: (bool, Outcome))
        requires (a.0 as int) < old(self).action@.len(),
        ensures
            final(self).action@ == old(self).action@.update(
                a.0 as int,
                outcome_or(old(self).action@[a.0 as int], outcome),
            ),
            final(self).outcome == outcome_or(old(self).outcome, outcome),
            final(self).initial == old(self).initial,
            r.1 == old(self).outcome,
            r.0 == (final(self).action@[a.0 as int] != old(self).action@[a.0 as int]
                || final(self).outcome != old(self).outcome),
    {
        let i = a.index();
        let a_old = self.action[i];
        let a_new = a_old.bitor(outcome);
        self.action.set(i, a_new);

        let l_old = self.outcome;
        self.outcome = l_old.bitor(outcome);

        (a_new != a_old || self.outcome != l_old, l_old)
    }

    /// Recomputes the overall outcome from the initial one and the actions.
    pub fn calculate_outcome(&mut self)
        ensures
            final(self).action == old(self).action,
            final(self).initial == old(self).initial,
            final(self).outcome == fold_or(old(self).initial, old(self).action@),
    {
        let mut o = self.initial;
        let mut i: usize = 0;
        while i < self.action.len()
            invariant
                i <= self.action@.len(),
                o == fold_or(self.initial, self.action@.subrange(0, i as int)),
            decreases self.action@.len() - i,
        {
            assert(self.action@.subrange(0, i + 1).drop_last() =~= self.action@.subrange(0, i as int));
            o = o.bitor(self.action[i]);
            i = i + 1;
        }
        assert(self.action@.subrange(0, self.action@.len() as int) =~= self.action@);
        self.outcome = o;
    }

    /// Intersects the action outcomes pointwise with those of `rhs` (as far
    /// as both reach), then recomputes the overall outcome.
    pub fn bitand_assign(&mut self, rhs: &Self)
        ensures
            final(self).action@ == and_actions(old(self).action@, rhs.action@),
            final(self).initial == old(self).initial,
            final(self).outcome == fold_or(old(self).initial, final(self).action@),
    {
        let n = self.action.len();
        let mut i: usize = 0;
        while i < n && i < rhs.action.len()
            invariant
                n == old(self).action@.len(),
                self.action@.len() == n,
                self.initial == old(self).initial,
                i <= n,
                forall|j: int| 0 <= j < i ==> #[trigger] self.action@[j]
                    == and_actions(old(self).action@, rhs.action@)[j],
                forall|j: int| i <= j < n ==> #[trigger] self.action@[j] == old(self).action@[j],
            decreases n - i,
        {
            let x = self.action[i].bitand(rhs.action[i]);
            self.action.set(i, x);
            i = i + 1;
        }
        assert(self.action@ =~= and_actions(old(self).action@, rhs.action@));
        self.calculate_outcome();
    }
}

} // verus!
