//! Backward computation of the outcomes of a single-agent game of perfect
//! information: for every location and action, whether and how fast the
//! goal can be reached.

use vstd::prelude::*;
use crate::types::{Loc, Act, Agt, loc, act};
use crate::game::{Game, Profile};
use crate::outcome::{Outcome, OutcomeSet, outcome_and, outcome_or, outcome_increment, can_increment, fold_or, initial_outcome, lemma_or_associative, lemma_or_commutative, lemma_and_can_win, lemma_or_can_win, lemma_or_idempotent, lemma_or_lose_identity, and_actions};

verus! {

/// The spec view of an outcome set.
pub struct OutcomeSetView {
    pub action: Seq<Outcome>,
    pub outcome: Outcome,
    pub initial: Outcome,
}

impl View for OutcomeSet {
    type V = OutcomeSetView;

    open spec fn view(&self) -> OutcomeSetView {
        OutcomeSetView { action: self.action@, outcome: self.outcome, initial: self.initial }
    }
}

pub open spec fn views(w: Seq<OutcomeSet>) -> Seq<OutcomeSetView> {
    w.map_values(|o: OutcomeSet| o@)
}

/// `w[ls[0]].outcome & w[ls[1]].outcome & ...`, folded from the left.
pub open spec fn and_fold(w: Seq<OutcomeSetView>, ls: Seq<Loc>) -> Outcome
    decreases ls.len(),
{
    if ls.len() == 0 {
        Outcome::Lose
    } else if ls.len() == 1 {
        w[ls[0].0 as int].outcome
    } else {
        outcome_and(and_fold(w, ls.drop_last()), w[ls.last().0 as int].outcome)
    }
}

/// The profile of a single-agent game made of action `a`.
pub open spec fn single(a: int) -> Seq<Act> {
    seq![Act(a as u16)]
}

/// The outcome of taking action `a` at `l`, given the outcomes `w`.
pub open spec fn step(g: Game, w: Seq<OutcomeSetView>, l: int, a: int) -> Outcome {
    let p = g.post_spec(l, single(a));
    if p.len() == 0 { Outcome::Lose } else { outcome_increment(and_fold(w, p)) }
}

/// The action outcomes of `l` after one round.
pub open spec fn round_actions(g: Game, w: Seq<OutcomeSetView>, l: int) -> Seq<Outcome> {
    Seq::new(w[l].action.len(), |a: int| outcome_or(w[l].action[a], step(g, w, l, a)))
}

/// One round of the backward computation, applied to every location.
pub open spec fn round(g: Game, w: Seq<OutcomeSetView>) -> Seq<OutcomeSetView> {
    Seq::new(w.len(), |l: int| OutcomeSetView {
        action: round_actions(g, w, l),
        outcome: fold_or(w[l].initial, round_actions(g, w, l)),
        initial: w[l].initial,
    })
}

/// Goals win in 0 steps; everything else is lost until shown otherwise.
pub open spec fn initial_sets(g: Game) -> Seq<OutcomeSetView> {
    Seq::new(g.nloc(), |l: int| OutcomeSetView {
        action: Seq::new(g.n_actions@[0] as nat, |a: int| Outcome::Lose),
        outcome: initial_outcome(g.loc@[l].is_winning),
        initial: initial_outcome(g.loc@[l].is_winning),
    })
}

/// The outcomes after `k` rounds.
pub open spec fn iterate(g: Game, k: nat) -> Seq<OutcomeSetView>
    decreases k,
{
    if k == 0 { initial_sets(g) } else { round(g, iterate(g, (k - 1) as nat)) }
}

/// No step count of the round overflows.
pub open spec fn round_ok(g: Game, w: Seq<OutcomeSetView>) -> bool {
    forall|l: int, a: int| 0 <= l < g.nloc() && 0 <= a < g.n_actions@[0]
        && #[trigger] g.post_spec(l, single(a)).len() > 0
        ==> can_increment(and_fold(w, g.post_spec(l, single(a))))
}

/// No step count overflows in any round.
pub open spec fn no_overflow(g: Game) -> bool {
    forall|k: nat| #[trigger] round_ok(g, iterate(g, k))
}

/// `w` is the first fixed point reached by the rounds.
pub open spec fn is_outcome_fixpoint(g: Game, w: Seq<OutcomeSetView>) -> bool {
    exists|k: nat| #[trigger] iterate(g, k) == w && round(g, w) == w
}

/// The potential of an outcome; `|` never increases it.
pub open spec fn pot(o: Outcome) -> nat {
    match o {
        Outcome::Win(x) => x as nat,
        Outcome::Maybe(x, y) => 65536 + x as nat + y as nat,
        Outcome::Lose => 4 * 65536,
    }
}

proof fn lemma_pot_or(a: Outcome, b: Outcome)
    ensures
        pot(outcome_or(a, b)) <= pot(a),
        pot(outcome_or(a, b)) == pot(a) ==> outcome_or(a, b) == a,
{
}

pub open spec fn sum_pot(s: Seq<Outcome>) -> nat
    decreases s.len(),
{
    if s.len() == 0 { 0 } else { sum_pot(s.drop_last()) + pot(s.last()) }
}

pub open spec fn measure(w: Seq<OutcomeSetView>) -> nat
    decreases w.len(),
{
    if w.len() == 0 { 0 } else { measure(w.drop_last()) + sum_pot(w.last().action) }
}

proof fn lemma_sum_pot_le(s: Seq<Outcome>, t: Seq<Outcome>)
    requires
        s.len() == t.len(),
        forall|i: int| 0 <= i < s.len() ==> pot(#[trigger] t[i]) <= pot(s[i]),
    ensures
        sum_pot(t) <= sum_pot(s),
        sum_pot(t) == sum_pot(s) ==> forall|i: int| 0 <= i < s.len() ==> pot(#[trigger] t[i]) == pot(s[i]),
    decreases s.len(),
{
    if s.len() > 0 {
        let (ds, dt) = (s.drop_last(), t.drop_last());
        assert forall|i: int| 0 <= i < ds.len() implies pot(#[trigger] dt[i]) <= pot(ds[i]) by {
            assert(dt[i] == t[i] && ds[i] == s[i]);
        }
        lemma_sum_pot_le(ds, dt);
        assert(pot(t[t.len() - 1]) <= pot(s[s.len() - 1]));
        if sum_pot(t) == sum_pot(s) {
            assert forall|i: int| 0 <= i < s.len() implies pot(#[trigger] t[i]) == pot(s[i]) by {
                if i < s.len() - 1 {
                    assert(dt[i] == t[i] && ds[i] == s[i]);
                }
            }
        }
    }
}

proof fn lemma_measure_le(w: Seq<OutcomeSetView>, v: Seq<OutcomeSetView>)
    requires
        w.len() == v.len(),
        forall|l: int| 0 <= l < w.len() ==> (#[trigger] v[l]).action.len() == w[l].action.len(),
        forall|l: int, a: int| 0 <= l < w.len() && 0 <= a < w[l].action.len()
            ==> pot(#[trigger] v[l].action[a]) <= pot(w[l].action[a]),
    ensures
        measure(v) <= measure(w),
        measure(v) == measure(w) ==> forall|l: int, a: int| 0 <= l < w.len() && 0 <= a < w[l].action.len()
            ==> pot(#[trigger] v[l].action[a]) == pot(w[l].action[a]),
    decreases w.len(),
{
    if w.len() > 0 {
        let (dw, dv) = (w.drop_last(), v.drop_last());
        assert forall|l: int| 0 <= l < dw.len() implies (#[trigger] dv[l]).action.len() == dw[l].action.len() by {
            assert(dv[l] == v[l] && dw[l] == w[l]);
        }
        assert forall|l: int, a: int| 0 <= l < dw.len() && 0 <= a < dw[l].action.len()
            implies pot(#[trigger] dv[l].action[a]) <= pot(dw[l].action[a]) by {
            assert(dv[l] == v[l] && dw[l] == w[l]);
        }
        lemma_measure_le(dw, dv);
        let last = w.len() - 1;
        assert forall|a: int| 0 <= a < w[last].action.len()
            implies pot(#[trigger] v[last].action[a]) <= pot(w[last].action[a]) by {}
        lemma_sum_pot_le(w[last].action, v[last].action);
        if measure(v) == measure(w) {
            assert forall|l: int, a: int| 0 <= l < w.len() && 0 <= a < w[l].action.len()
                implies pot(#[trigger] v[l].action[a]) == pot(w[l].action[a]) by {
                if l < last {
                    assert(dv[l] == v[l] && dw[l] == w[l]);
                }
            }
        }
    }
}

/// Rounds never increase the measure, and keep it only at a fixed point.
proof fn lemma_round_measure(g: Game, w: Seq<OutcomeSetView>)
    requires
        forall|l: int| 0 <= l < w.len() ==> (#[trigger] w[l]).outcome == fold_or(w[l].initial, w[l].action),
    ensures
        measure(round(g, w)) <= measure(w),
        measure(round(g, w)) == measure(w) ==> round(g, w) == w,
{
    let v = round(g, w);
    assert forall|l: int, a: int| 0 <= l < w.len() && 0 <= a < w[l].action.len()
        implies pot(#[trigger] v[l].action[a]) <= pot(w[l].action[a]) by {
        lemma_pot_or(w[l].action[a], step(g, w, l, a));
    }
    lemma_measure_le(w, v);
    if measure(v) == measure(w) {
        assert forall|l: int| 0 <= l < w.len() implies #[trigger] v[l] == w[l] by {
            assert forall|a: int| 0 <= a < w[l].action.len() implies v[l].action[a] == w[l].action[a] by {
                lemma_pot_or(w[l].action[a], step(g, w, l, a));
                assert(pot(v[l].action[a]) == pot(w[l].action[a]));
            }
            assert(v[l].action =~= w[l].action);
        }
        assert(v =~= w);
    }
}

/// The outcome of a set stays the fold of its actions after an insert.
proof fn lemma_fold_or_update(init: Outcome, s: Seq<Outcome>, i: int, o: Outcome)
    requires 0 <= i < s.len(),
    ensures fold_or(init, s.update(i, outcome_or(s[i], o))) == outcome_or(fold_or(init, s), o),
    decreases s.len(),
{
    let t = s.update(i, outcome_or(s[i], o));
    if i == s.len() - 1 {
        assert(t.drop_last() =~= s.drop_last());
        lemma_or_associative(fold_or(init, s.drop_last()), s.last(), o);
    } else {
        assert(t.drop_last() =~= s.drop_last().update(i, outcome_or(s[i], o)));
        lemma_fold_or_update(init, s.drop_last(), i, o);
        let f = fold_or(init, s.drop_last());
        lemma_or_associative(f, o, s.last());
        lemma_or_commutative(o, s.last());
        lemma_or_associative(f, s.last(), o);
    }
}

/// A left `&`-fold is a loss exactly when every operand is.
proof fn lemma_and_fold_lose(w: Seq<OutcomeSetView>, ls: Seq<Loc>)
    requires ls.len() > 0,
    ensures
        (and_fold(w, ls) is Lose)
            <==> forall|k: int| 0 <= k < ls.len() ==> (#[trigger] w[ls[k].0 as int]).outcome is Lose,
    decreases ls.len(),
{
    if ls.len() > 1 {
        let d = ls.drop_last();
        lemma_and_fold_lose(w, d);
        lemma_and_can_win(and_fold(w, d), w[ls.last().0 as int].outcome);
        if forall|k: int| 0 <= k < d.len() ==> (#[trigger] w[d[k].0 as int]).outcome is Lose {
            if w[ls.last().0 as int].outcome is Lose {
                assert forall|k: int| 0 <= k < ls.len() implies (#[trigger] w[ls[k].0 as int]).outcome is Lose by {
                    if k < d.len() {
                        assert(d[k] == ls[k]);
                    }
                }
            }
        }
        if forall|k: int| 0 <= k < ls.len() ==> (#[trigger] w[ls[k].0 as int]).outcome is Lose {
            assert forall|k: int| 0 <= k < d.len() implies (#[trigger] w[d[k].0 as int]).outcome is Lose by {
                assert(d[k] == ls[k]);
            }
            assert(w[ls[ls.len() - 1].0 as int].outcome is Lose);
        }
    }
}

proof fn lemma_iterate_stable(g: Game, k: nat, j: nat)
    requires
        k <= j,
        round(g, iterate(g, k)) == iterate(g, k),
    ensures iterate(g, j) == iterate(g, k),
    decreases j - k,
{
    if j > k {
        lemma_iterate_stable(g, k, (j - 1) as nat);
    }
}

/// `w[p[0]].outcome & w[p[1]].outcome & ...`.
fn and_of(w: &Vec<OutcomeSet>, p: &Vec<Loc>) -> (r: Outcome)
    requires
        p@.len() > 0,
        forall|k: int| 0 <= k < p@.len() ==> ((#[trigger] p@[k]).0 as int) < w@.len(),
    ensures r == and_fold(views(w@), p@),
{
    let ghost wv = views(w@);
    let mut o = w[p[0].index()].outcome;
    assert(p@.subrange(0, 1) =~= seq![p@[0]]);
    let mut i: usize = 1;
    while i < p.len()
        invariant
            1 <= i <= p@.len(),
            wv == views(w@),
            forall|k: int| 0 <= k < p@.len() ==> ((#[trigger] p@[k]).0 as int) < w@.len(),
            o == and_fold(wv, p@.subrange(0, i as int)),
        decreases p@.len() - i,
    {
        assert(p@.subrange(0, i + 1).drop_last() =~= p@.subrange(0, i as int));
        assert(wv[p@[i as int].0 as int] == w@[p@[i as int].0 as int]@);
        o = o.bitand(w[p[i].index()].outcome);
        i = i + 1;
    }
    assert(p@.subrange(0, p@.len() as int) =~= p@);
    o
}

/// The shape of the outcome sets of a single-agent game.
pub open spec fn shaped(g: Game, w: Seq<OutcomeSetView>) -> bool {
    &&& w.len() == g.nloc()
    &&& forall|l: int| 0 <= l < w.len() ==> {
        &&& (#[trigger] w[l]).action.len() == g.n_actions@[0]
        &&& w[l].initial == initial_outcome(g.loc@[l].is_winning)
        &&& w[l].outcome == fold_or(w[l].initial, w[l].action)
    }
}

/// `list` holds exactly the locations whose outcome is not a loss.
pub open spec fn lists_winnable(g: Game, w: Seq<OutcomeSetView>, list: Seq<Loc>) -> bool {
    &&& forall|k: int| 0 <= k < list.len() ==> ((#[trigger] list[k]).0 as int) < g.nloc()
    &&& forall|l: int| 0 <= l < g.nloc() ==> (list.contains(Loc(l as u32)) <==> !(#[trigger] w[l].outcome is Lose))
}

/// An entry of the round buffer: location, action, outcome.
pub type Entry = (Loc, Act, Outcome);

pub open spec fn buf_correct(g: Game, w: Seq<OutcomeSetView>, buf: Seq<Entry>) -> bool {
    forall|j: int| 0 <= j < buf.len() ==> {
        let e = #[trigger] buf[j];
        &&& (e.0.0 as int) < g.nloc()
        &&& (e.1.0 as int) < g.n_actions@[0]
        &&& e.2 == step(g, w, e.0.0 as int, e.1.0 as int)
    }
}

pub open spec fn in_buf(buf: Seq<Entry>, l: int, a: int) -> bool {
    exists|j: int| 0 <= j < buf.len() && (#[trigger] buf[j]).0.0 == l && buf[j].1.0 == a
}

pub open spec fn buf_complete(g: Game, w: Seq<OutcomeSetView>, buf: Seq<Entry>, m: int) -> bool {
    forall|l: int, a: int| 0 <= l < g.nloc() && 0 <= a < m && !(#[trigger] step(g, w, l, a) is Lose)
        ==> in_buf(buf, l, a)
}

/// The outcomes of one round, for every location and action with a
/// successor that can still win.
fn compute_round(g: &Game, w: &Vec<OutcomeSet>, w_list: &Vec<Loc>) -> (r: Option<Vec<Entry>>)
    requires
        g.wf(),
        g.n_agents() == 1,
        shaped(*g, views(w@)),
        lists_winnable(*g, views(w@), w_list@),
    ensures
        match r {
            None => !round_ok(*g, views(w@)),
            Some(buf) => round_ok(*g, views(w@)) && buf_correct(*g, views(w@), buf@)
                && buf_complete(*g, views(w@), buf@, g.n_actions@[0] as int),
        },
{
    let ghost wv = views(w@);
    let m = g.n_actions[0];
    let mut buf: Vec<Entry> = Vec::new();
    let mut a: usize = 0;
    while a < m
        invariant
            g.wf(),
            g.n_agents() == 1,
            m == g.n_actions@[0],
            a <= m,
            wv == views(w@),
            shaped(*g, wv),
            lists_winnable(*g, wv, w_list@),
            buf_correct(*g, wv, buf@),
            buf_complete(*g, wv, buf@, a as int),
            forall|l: int, b: int| 0 <= l < g.nloc() && 0 <= b < a
                && #[trigger] g.post_spec(l, single(b)).len() > 0
                ==> can_increment(and_fold(wv, g.post_spec(l, single(b)))),
        decreases m - a,
    {
        let mut prof: Profile = Vec::new();
        prof.push(act(a));
        assert(prof@ =~= single(a as int));
        let pre = g.pre_set(w_list, &prof);
        let mut i: usize = 0;
        while i < pre.len()
            invariant
                g.wf(),
                g.n_agents() == 1,
                m == g.n_actions@[0],
                a < m,
                wv == views(w@),
                prof@ == single(a as int),
                shaped(*g, wv),
                lists_winnable(*g, wv, w_list@),
                pre@ == g.pre_set_spec(w_list@, single(a as int)),
                i <= pre@.len(),
                buf_correct(*g, wv, buf@),
                buf_complete(*g, wv, buf@, a as int),
                forall|k: int| 0 <= k < i ==> in_buf(buf@, (#[trigger] pre@[k]).0 as int, a as int),
                forall|l: int, b: int| 0 <= l < g.nloc() && 0 <= b < a
                    && #[trigger] g.post_spec(l, single(b)).len() > 0
                    ==> can_increment(and_fold(wv, g.post_spec(l, single(b)))),
                forall|k: int| 0 <= k < i ==> g.post_spec((#[trigger] pre@[k]).0 as int, single(a as int)).len() > 0
                    ==> can_increment(and_fold(wv, g.post_spec(pre@[k].0 as int, single(a as int)))),
            decreases pre@.len() - i,
        {
            let l = pre[i];
            proof {
                assert(pre@.contains(l)) by { assert(pre@[i as int] == l); }
                g.lemma_sets_valid(w_list@, single(a as int), l);
                g.lemma_pre_set_contains(w_list@, single(a as int), l);
                assert(pre@.contains(l)) by { assert(pre@[i as int] == l); }
            }
            let k = choose_witness(g, w_list, &prof, l);
            let p = g.post(l, &prof);
            proof {
                crate::game::lemma_targets_with_contains(g.succ(l.0 as int), single(a as int), w_list@[k as int]);
                assert forall|t: int| 0 <= t < p@.len() implies ((#[trigger] p@[t]).0 as int) < w@.len() by {
                    let x = p@[t];
                    assert(p@.contains(x));
                    crate::game::lemma_targets_with_contains(g.succ(l.0 as int), single(a as int), x);
                    let q = choose|q: int| 0 <= q < g.succ(l.0 as int).len() && g.succ(l.0 as int)[q] == (single(a as int), x);
                    assert(g.valid_edge(g.succ(l.0 as int)[q]));
                }
            }
            let o = and_of(w, &p);
            if !o.can_increment_exec() {
                proof {
                    assert(g.post_spec(l.0 as int, single(a as int)).len() > 0);
                }
                return None;
            }
            let ghost old_buf = buf@;
            buf.push((l, act(a), o.increment()));
            proof {
                assert(buf@[old_buf.len() as int] == (l, act_spec(a as int), outcome_increment(o)));
                assert forall|j: int| 0 <= j < buf@.len() implies {
                    let e = #[trigger] buf@[j];
                    &&& (e.0.0 as int) < g.nloc()
                    &&& (e.1.0 as int) < g.n_actions@[0]
                    &&& e.2 == step(*g, wv, e.0.0 as int, e.1.0 as int)
                } by {
                    if j < old_buf.len() {
                        assert(buf@[j] == old_buf[j]);
                    }
                }
                assert forall|l2: int, b: int| 0 <= l2 < g.nloc() && 0 <= b < a && !(#[trigger] step(*g, wv, l2, b) is Lose)
                    implies in_buf(buf@, l2, b) by {
                    assert(in_buf(old_buf, l2, b));
                    let j = choose|j: int| 0 <= j < old_buf.len() && (#[trigger] old_buf[j]).0.0 == l2 && old_buf[j].1.0 == b;
                    assert(buf@[j] == old_buf[j]);
                }
                assert forall|t: int| 0 <= t < i + 1 implies in_buf(buf@, (#[trigger] pre@[t]).0 as int, a as int) by {
                    if t < i {
                        let x = pre@[t];
                        assert(in_buf(old_buf, x.0 as int, a as int));
                        let j = choose|j: int| 0 <= j < old_buf.len() && (#[trigger] old_buf[j]).0.0 == x.0 as int && old_buf[j].1.0 == a as int;
                        assert(buf@[j] == old_buf[j]);
                    } else {
                        assert(buf@[old_buf.len() as int].0.0 == l.0);
                    }
                }
            }
            i = i + 1;
        }
        proof {
            assert forall|l: int, b: int| 0 <= l < g.nloc() && 0 <= b < a + 1 && !(#[trigger] step(*g, wv, l, b) is Lose)
                implies in_buf(buf@, l, b) by {
                if b == a {
                    lemma_step_in_pre(*g, wv, w_list@, l, b);
                    let t = choose|t: int| 0 <= t < pre@.len() && pre@[t] == Loc(l as u32);
                    assert(in_buf(buf@, (pre@[t]).0 as int, a as int));
                }
            }
            assert forall|l: int, b: int| 0 <= l < g.nloc() && 0 <= b < a + 1
                && #[trigger] g.post_spec(l, single(b)).len() > 0
                implies can_increment(and_fold(wv, g.post_spec(l, single(b)))) by {
                if b == a {
                    if !can_increment(and_fold(wv, g.post_spec(l, single(b)))) {
                        lemma_and_fold_lose(wv, g.post_spec(l, single(b)));
                        assert(!(step(*g, wv, l, b) is Lose));
                        lemma_step_in_pre(*g, wv, w_list@, l, b);
                        let t = choose|t: int| 0 <= t < pre@.len() && pre@[t] == Loc(l as u32);
                        assert(pre@[t].0 as int == l);
                    }
                }
            }
        }
        a = a + 1;
    }
    Some(buf)
}

/// The action outcomes after the first `j` buffer entries were applied.
pub open spec fn applied(g: Game, w: Seq<OutcomeSetView>, buf: Seq<Entry>, l: int, a: int) -> Outcome {
    if in_buf(buf, l, a) { outcome_or(w[l].action[a], step(g, w, l, a)) } else { w[l].action[a] }
}

/// The outcome sets after inserting `s` for action `a` at `l`.
pub open spec fn inserted(cur: Seq<OutcomeSetView>, l: int, a: int, s: Outcome) -> Seq<OutcomeSetView> {
    cur.update(l, OutcomeSetView {
        action: cur[l].action.update(a, outcome_or(cur[l].action[a], s)),
        outcome: outcome_or(cur[l].outcome, s),
        initial: cur[l].initial,
    })
}

proof fn lemma_apply_step(g: Game, ww: Seq<OutcomeSetView>, buf: Seq<Entry>, j: int, cur: Seq<OutcomeSetView>)
    requires
        g.n_agents() == 1,
        shaped(g, ww),
        shaped(g, cur),
        buf_correct(g, ww, buf),
        0 <= j < buf.len(),
        forall|l: int| 0 <= l < ww.len() ==> (#[trigger] cur[l]).initial == ww[l].initial,
        forall|l: int, a: int| 0 <= l < ww.len() && 0 <= a < g.n_actions@[0]
            ==> #[trigger] cur[l].action[a] == applied(g, ww, buf.subrange(0, j), l, a),
    ensures ({
        let (li, ai, s) = (buf[j].0.0 as int, buf[j].1.0 as int, buf[j].2);
        let nw = inserted(cur, li, ai, s);
        &&& shaped(g, nw)
        &&& forall|l: int| 0 <= l < ww.len() ==> (#[trigger] nw[l]).initial == ww[l].initial
        &&& forall|l: int, a: int| 0 <= l < ww.len() && 0 <= a < g.n_actions@[0]
            ==> #[trigger] nw[l].action[a] == applied(g, ww, buf.subrange(0, j + 1), l, a)
        &&& (nw[li].action[ai] != cur[li].action[ai] || nw[li].outcome != cur[li].outcome)
            ==> nw[li].action[ai] != ww[li].action[ai]
        &&& !(nw[li].action[ai] != cur[li].action[ai] || nw[li].outcome != cur[li].outcome)
            ==> nw == cur
        &&& (nw[li].outcome is Lose) == (cur[li].outcome is Lose && s is Lose)
    }),
{
    let (li, ai, s) = (buf[j].0.0 as int, buf[j].1.0 as int, buf[j].2);
    let nw = inserted(cur, li, ai, s);
    let m = g.n_actions@[0] as int;
    let pre_j = buf.subrange(0, j);
    let post_j = buf.subrange(0, j + 1);
    assert(s == step(g, ww, li, ai));
    assert(in_buf(post_j, li, ai)) by {
        assert(post_j[j] == buf[j]);
    }
    assert forall|l2: int, a2: int| !(l2 == li && a2 == ai) implies
        (#[trigger] in_buf(post_j, l2, a2) == in_buf(pre_j, l2, a2)) by {
        if in_buf(post_j, l2, a2) {
            let t = choose|t: int| 0 <= t < post_j.len() && (#[trigger] post_j[t]).0.0 == l2 && post_j[t].1.0 == a2;
            assert(t < j);
            assert(pre_j[t] == post_j[t]);
        }
        if in_buf(pre_j, l2, a2) {
            let t = choose|t: int| 0 <= t < pre_j.len() && (#[trigger] pre_j[t]).0.0 == l2 && pre_j[t].1.0 == a2;
            assert(pre_j[t] == post_j[t]);
        }
    }
    let x = cur[li].action[ai];
    lemma_or_associative(ww[li].action[ai], s, s);
    lemma_or_idempotent(s);
    lemma_fold_or_update(cur[li].initial, cur[li].action, ai, s);
    lemma_or_can_win(cur[li].outcome, s);
    assert(nw[li].action[ai] == outcome_or(ww[li].action[ai], s));
    assert forall|l: int| 0 <= l < nw.len() implies {
        &&& (#[trigger] nw[l]).action.len() == g.n_actions@[0]
        &&& nw[l].initial == initial_outcome(g.loc@[l].is_winning)
        &&& nw[l].outcome == fold_or(nw[l].initial, nw[l].action)
    } by {
        if l == li {
        } else {
            assert(nw[l] == cur[l]);
        }
    }
    assert forall|l: int, a: int| 0 <= l < ww.len() && 0 <= a < m
        implies #[trigger] nw[l].action[a] == applied(g, ww, post_j, l, a) by {
        if l == li && a == ai {
        } else if l == li {
            assert(nw[l].action[a] == cur[l].action[a]);
        } else {
            assert(nw[l] == cur[l]);
        }
    }
    if in_buf(pre_j, li, ai) {
        assert(x == outcome_or(ww[li].action[ai], s));
        assert(nw[li].action[ai] == x);
        assert(nw[li].action =~= cur[li].action);
        assert(nw[li].outcome == cur[li].outcome);
        assert(nw =~= cur);
    } else {
        assert(x == ww[li].action[ai]);
        if nw[li].action[ai] == x {
            assert(nw[li].action =~= cur[li].action);
            assert(nw[li].outcome == cur[li].outcome);
            assert(nw =~= cur);
        }
    }
}

/// Applies the buffered outcomes of a round; returns whether anything changed.
#[verifier::rlimit(30)]
fn apply_round(g: &Game, w: &mut Vec<OutcomeSet>, w_list: &mut Vec<Loc>, buf: &Vec<Entry>) -> (r: bool)
    requires
        g.wf(),
        g.n_agents() == 1,
        shaped(*g, views(old(w)@)),
        lists_winnable(*g, views(old(w)@), old(w_list)@),
        buf_correct(*g, views(old(w)@), buf@),
        buf_complete(*g, views(old(w)@), buf@, g.n_actions@[0] as int),
    ensures
        views(final(w)@) == round(*g, views(old(w)@)),
        shaped(*g, views(final(w)@)),
        lists_winnable(*g, views(final(w)@), final(w_list)@),
        r == (round(*g, views(old(w)@)) != views(old(w)@)),
{
    let ghost ww = views(w@);
    let ghost m = g.n_actions@[0] as int;
    let mut updated = false;
    let mut j: usize = 0;
    assert forall|l: int, a: int| 0 <= l < ww.len() && 0 <= a < m
        implies #[trigger] views(w@)[l].action[a] == applied(*g, ww, buf@.subrange(0, 0), l, a) by {}
    while j < buf.len()
        invariant
            g.wf(),
            g.n_agents() == 1,
            m == g.n_actions@[0],
            j <= buf@.len(),
            shaped(*g, ww),
            shaped(*g, views(w@)),
            buf_correct(*g, ww, buf@),
            buf_complete(*g, ww, buf@, m),
            forall|l: int| 0 <= l < ww.len() ==> (#[trigger] views(w@)[l]).initial == ww[l].initial,
            forall|l: int, a: int| 0 <= l < ww.len() && 0 <= a < m
                ==> #[trigger] views(w@)[l].action[a] == applied(*g, ww, buf@.subrange(0, j as int), l, a),
            updated == exists|l: int, a: int| 0 <= l < ww.len() && 0 <= a < m
                && #[trigger] views(w@)[l].action[a] != ww[l].action[a],
            lists_winnable(*g, views(w@), w_list@),
        decreases buf@.len() - j,
    {
        let (l, a, o) = buf[j];
        let ghost cur = views(w@);
        let ghost li = l.0 as int;
        let ghost ai = a.0 as int;
        assert(buf@[j as int] == (l, a, o));
        proof {
            lemma_apply_step(*g, ww, buf@, j as int, cur);
        }
        let ghost w_before = w@;
        let ghost old_list = w_list@;
        let (did_change, old) = w[l.index()].insert(a, o);
        proof {
            assert(views(w@) =~= inserted(cur, li, ai, o));
            assert(old == cur[li].outcome);
            assert(did_change == (views(w@)[li].action[ai] != cur[li].action[ai]
                || views(w@)[li].outcome != cur[li].outcome));
        }
        if did_change {
            if o.can_win() && !old.can_win() {
                w_list.push(l);
            }
            updated = true;
        }
        proof {
            let nw = views(w@);
            assert forall|t: int| 0 <= t < w_list@.len() implies ((#[trigger] w_list@[t]).0 as int) < g.nloc() by {}
            assert(w_list@ == old_list || w_list@ == old_list.push(l));
            assert forall|x: Loc| x != l implies (#[trigger] w_list@.contains(x) == old_list.contains(x)) by {
                if w_list@ == old_list.push(l) {
                    if w_list@.contains(x) {
                        let t = choose|t: int| 0 <= t < w_list@.len() && w_list@[t] == x;
                        assert(old_list[t] == x);
                    }
                    if old_list.contains(x) {
                        let t = choose|t: int| 0 <= t < old_list.len() && old_list[t] == x;
                        assert(w_list@[t] == x);
                    }
                }
            }
            assert(old_list.contains(l) ==> w_list@.contains(l)) by {
                if old_list.contains(l) {
                    let t = choose|t: int| 0 <= t < old_list.len() && old_list[t] == l;
                    assert(w_list@[t] == l);
                }
            }
            assert forall|l2: int| 0 <= l2 < g.nloc() implies
                (w_list@.contains(Loc(l2 as u32)) <==> !(#[trigger] nw[l2].outcome is Lose)) by {
                assert(old_list.contains(Loc(l2 as u32)) <==> !(cur[l2].outcome is Lose));
                if l2 == li {
                    assert(Loc(l2 as u32) == l);
                    assert(cur[li].outcome is Lose && !(o is Lose) ==> did_change);
                    if did_change && !(o is Lose) && (old is Lose) {
                        assert(w_list@[w_list@.len() - 1] == l);
                    }
                } else {
                    assert(nw[l2] == cur[l2]);
                }
            }
        }
        j = j + 1;
    }
    proof {
        let nw = views(w@);
        let rw = round(*g, ww);
        assert(buf@.subrange(0, buf@.len() as int) =~= buf@);
        assert forall|l: int| 0 <= l < ww.len() implies #[trigger] nw[l] == rw[l] by {
            assert forall|a: int| 0 <= a < m implies nw[l].action[a] == rw[l].action[a] by {
                if !in_buf(buf@, l, a) {
                    lemma_or_lose_identity(ww[l].action[a]);
                }
            }
            assert(nw[l].action =~= rw[l].action);
        }
        assert(nw =~= rw);
        if updated {
            let (l, a) = choose|l: int, a: int| 0 <= l < ww.len() && 0 <= a < m
                && #[trigger] nw[l].action[a] != ww[l].action[a];
            assert(nw[l] != ww[l]);
        } else {
            assert forall|l: int| 0 <= l < ww.len() implies #[trigger] nw[l] == ww[l] by {
                assert forall|a: int| 0 <= a < m implies nw[l].action[a] == ww[l].action[a] by {
                    assert(!(nw[l].action[a] != ww[l].action[a]));
                }
                assert(nw[l].action =~= ww[l].action);
            }
            assert(nw =~= ww);
        }
    }
    updated
}

proof fn lemma_fold_or_lose(init: Outcome, s: Seq<Outcome>)
    requires forall|i: int| 0 <= i < s.len() ==> #[trigger] s[i] == Outcome::Lose,
    ensures fold_or(init, s) == init,
    decreases s.len(),
{
    if s.len() > 0 {
        lemma_fold_or_lose(init, s.drop_last());
        lemma_or_lose_identity(init);
    }
}

/// Computes the outcomes of every location and action of a single-agent
/// game; `None` when a step count would overflow.
pub fn find_outcomes_checked(g: &Game) -> (r: Option<Vec<OutcomeSet>>)
    requires
        g.wf(),
        g.n_agents() == 1,
    ensures
        match r {
            None => !no_overflow(*g),
            Some(w) => no_overflow(*g) && is_outcome_fixpoint(*g, views(w@)) && shaped(*g, views(w@)),
        },
{
    let n = g.n_loc();
    let m = g.n_actions[0];
    let mut w: Vec<OutcomeSet> = Vec::new();
    let mut w_list: Vec<Loc> = Vec::new();
    let mut l: usize = 0;
    while l < n
        invariant
            g.wf(),
            g.n_agents() == 1,
            n == g.nloc(),
            m == g.n_actions@[0],
            l <= n,
            views(w@) == initial_sets(*g).subrange(0, l as int),
            forall|k: int| 0 <= k < w_list@.len() ==> ((#[trigger] w_list@[k]).0 as int) < l,
            forall|l2: int| 0 <= l2 < l ==> (w_list@.contains(Loc(l2 as u32)) <==> #[trigger] g.loc@[l2].is_winning),
        decreases n - l,
    {
        let ghost old_list = w_list@;
        let ghost old_w = w@;
        let win = g.is_winning(loc(l));
        let os = OutcomeSet::new(m, win);
        proof {
            assert(os@.action =~= initial_sets(*g)[l as int].action);
            assert(os@ == initial_sets(*g)[l as int]);
        }
        w.push(os);
        if win {
            w_list.push(loc(l));
        }
        proof {
            assert(w@ == old_w.push(os));
            assert(views(w@) =~= views(old_w).push(os@));
            let last = views(w@)[l as int];
            let want = initial_sets(*g)[l as int];
            assert(last.action =~= want.action);
            assert(last == want);
            assert(views(w@) =~= initial_sets(*g).subrange(0, l + 1));
            assert forall|l2: int| 0 <= l2 < l + 1 implies
                (w_list@.contains(Loc(l2 as u32)) <==> #[trigger] g.loc@[l2].is_winning) by {
                if l2 < l {
                    assert(old_list.contains(Loc(l2 as u32)) <==> g.loc@[l2].is_winning);
                    if w_list@.contains(Loc(l2 as u32)) {
                        let t = choose|t: int| 0 <= t < w_list@.len() && w_list@[t] == Loc(l2 as u32);
                        if win {
                            assert(t < old_list.len());
                        }
                        assert(old_list[t] == Loc(l2 as u32));
                    }
                    if old_list.contains(Loc(l2 as u32)) {
                        let t = choose|t: int| 0 <= t < old_list.len() && old_list[t] == Loc(l2 as u32);
                        assert(w_list@[t] == Loc(l2 as u32));
                    }
                } else {
                    if win {
                        assert(w_list@[w_list@.len() - 1] == Loc(l2 as u32));
                    } else {
                        if w_list@.contains(Loc(l2 as u32)) {
                            let t = choose|t: int| 0 <= t < w_list@.len() && w_list@[t] == Loc(l2 as u32);
                            assert(old_list[t] == Loc(l2 as u32));
                        }
                    }
                }
            }
        }
        l = l + 1;
    }
    proof {
        assert(initial_sets(*g).subrange(0, n as int) =~= initial_sets(*g));
        let w0 = views(w@);
        assert forall|l: int| 0 <= l < w0.len() implies {
            &&& (#[trigger] w0[l]).action.len() == g.n_actions@[0]
            &&& w0[l].initial == initial_outcome(g.loc@[l].is_winning)
            &&& w0[l].outcome == fold_or(w0[l].initial, w0[l].action)
        } by {
            lemma_fold_or_lose(w0[l].initial, w0[l].action);
        }
        assert forall|l2: int| 0 <= l2 < g.nloc() implies
            (w_list@.contains(Loc(l2 as u32)) <==> !(#[trigger] w0[l2].outcome is Lose)) by {
            assert(w_list@.contains(Loc(l2 as u32)) <==> g.loc@[l2].is_winning);
        }
    }
    let ghost mut k: nat = 0;
    loop
        invariant
            g.wf(),
            g.n_agents() == 1,
            views(w@) == iterate(*g, k),
            shaped(*g, views(w@)),
            lists_winnable(*g, views(w@), w_list@),
            forall|j: nat| j < k ==> #[trigger] round_ok(*g, iterate(*g, j)),
        ensures
            views(w@) == iterate(*g, k),
            round(*g, views(w@)) == views(w@),
            shaped(*g, views(w@)),
            forall|j: nat| j <= k ==> #[trigger] round_ok(*g, iterate(*g, j)),
        decreases measure(views(w@)),
    {
        let ghost before = views(w@);
        match compute_round(g, &w, &w_list) {
            None => {
                proof {
                    assert(!round_ok(*g, iterate(*g, k)));
                }
                return None;
            },
            Some(buf) => {
                let updated = apply_round(g, &mut w, &mut w_list, &buf);
                proof {
                    lemma_round_measure(*g, before);
                    assert(round_ok(*g, iterate(*g, k)));
                    k = k + 1;
                    assert(views(w@) == iterate(*g, k));
                }
                if !updated {
                    proof {
                        assert(before == views(w@));
                    }
                    break;
                }
            },
        }
    }
    proof {
        assert forall|j: nat| #[trigger] round_ok(*g, iterate(*g, j)) by {
            if j > k {
                lemma_iterate_stable(*g, k, j);
            }
        }
        assert(iterate(*g, k) == views(w@));
    }
    Some(w)
}

/// The first fixed point reached by the rounds.
pub open spec fn outcome_fixpoint(g: Game) -> Seq<OutcomeSetView> {
    choose|w: Seq<OutcomeSetView>| is_outcome_fixpoint(g, w)
}

/// The rounds reach at most one fixed point.
pub proof fn lemma_fixpoint_unique(g: Game, w: Seq<OutcomeSetView>)
    requires is_outcome_fixpoint(g, w),
    ensures outcome_fixpoint(g) == w,
{
    let v = outcome_fixpoint(g);
    assert(is_outcome_fixpoint(g, v));
    let k1 = choose|k: nat| #[trigger] iterate(g, k) == w && round(g, w) == w;
    let k2 = choose|k: nat| #[trigger] iterate(g, k) == v && round(g, v) == v;
    if k1 <= k2 {
        lemma_iterate_stable(g, k1, k2);
    } else {
        lemma_iterate_stable(g, k2, k1);
    }
}

/// Computes the outcomes of every location and action of a single-agent
/// game: the first fixed point of the backward rounds. A location is lost
/// exactly when no goal is reachable from it, and wins exactly when the
/// agent can force a goal from it, with `Win(d)` where it can do so within
/// `d` moves; an action wins exactly when it leads somewhere and every
/// location it leads to wins.
pub fn find_outcomes(g: &Game) -> (r: Vec<OutcomeSet>)
    requires
        g.wf(),
        g.n_agents() == 1,
        no_overflow(*g),
    ensures
        views(r@) == outcome_fixpoint(*g),
        shaped(*g, views(r@)),
        forall|l: int| 0 <= l < g.nloc() ==> ((#[trigger] r@[l]).outcome != Outcome::Lose <==> goal_reachable(*g, l)),
        forall|l: int| 0 <= l < g.nloc() ==> ((#[trigger] r@[l]).outcome is Win <==> can_force(*g, l)),
        forall|l: int, a: int| 0 <= l < g.nloc() && 0 <= a < g.n_actions@[0] ==>
            ((#[trigger] r@[l].action@[a]) is Win <==> (g.post_spec(l, single(a)).len() > 0
                && forall|j: int| 0 <= j < g.post_spec(l, single(a)).len()
                    ==> r@[(#[trigger] g.post_spec(l, single(a))[j]).0 as int].outcome is Win)),
        forall|l: int| 0 <= l < g.nloc() && (#[trigger] r@[l]).outcome is Win ==> force_within(*g, l, r@[l].outcome->Win_0 as nat),
{
    match find_outcomes_checked(g) {
        Some(w) => {
            proof {
                lemma_fixpoint_bounded(*g, views(w@));
                assert forall|l: int| 0 <= l < g.nloc() && (#[trigger] w@[l]).outcome is Win implies
                    force_within(*g, l, w@[l].outcome->Win_0 as nat) by {
                    assert(views(w@)[l] == w@[l]@);
                }
                lemma_fixpoint_unique(*g, views(w@));
                lemma_fixpoint_reach(*g, views(w@));
                lemma_fixpoint_force(*g, views(w@));
                assert forall|l: int| 0 <= l < g.nloc() implies
                    ((#[trigger] w@[l]).outcome != Outcome::Lose <==> goal_reachable(*g, l)) by {
                    assert(views(w@)[l] == w@[l]@);
                }
                assert forall|l: int| 0 <= l < g.nloc() implies
                    ((#[trigger] w@[l]).outcome is Win <==> can_force(*g, l)) by {
                    assert(views(w@)[l] == w@[l]@);
                }
                assert forall|l: int, a: int| 0 <= l < g.nloc() && 0 <= a < g.n_actions@[0] implies
                    ((#[trigger] w@[l].action@[a]) is Win <==> (g.post_spec(l, single(a)).len() > 0
                        && forall|j: int| 0 <= j < g.post_spec(l, single(a)).len()
                            ==> w@[(#[trigger] g.post_spec(l, single(a))[j]).0 as int].outcome is Win)) by {
                    assert(views(w@)[l] == w@[l]@);
                    let p = g.post_spec(l, single(a));
                    assert forall|j: int| 0 <= j < p.len() implies (#[trigger] p[j]).0 < g.nloc() by {
                        crate::memoryless::lemma_post_target(*g, l, single(a), j);
                    }
                    assert forall|j: int| 0 <= j < p.len() implies views(w@)[(#[trigger] p[j]).0 as int] == w@[p[j].0 as int]@ by {
                    }
                }
            }
            w
        },
        None => {
            assert(false);
            Vec::new()
        },
    }
}

/// `a &= b` on outcome sets.
pub open spec fn and_set(a: OutcomeSetView, b: OutcomeSetView) -> OutcomeSetView {
    OutcomeSetView {
        action: and_actions(a.action, b.action),
        outcome: fold_or(a.initial, and_actions(a.action, b.action)),
        initial: a.initial,
    }
}

/// The outcome set of an observation: the sets of its locations, combined
/// with `&=` from the first one on.
pub open spec fn obs_entry(w: Seq<OutcomeSetView>, set: Seq<Loc>) -> OutcomeSetView
    decreases set.len(),
{
    if set.len() <= 1 {
        w[set[0].0 as int]
    } else {
        and_set(obs_entry(w, set.drop_last()), w[set.last().0 as int])
    }
}

/// Outcomes of the observations of a single-agent game: for each
/// observation, the outcomes its locations have in common.
pub fn find_obs_outcomes(g: &Game) -> (r: Vec<OutcomeSet>)
    requires
        g.wf(),
        g.n_agents() == 1,
        no_overflow(*g),
    ensures
        r@.len() == g.obs@[0].len(),
        forall|o: int| 0 <= o < r@.len()
            ==> #[trigger] r@[o]@ == obs_entry(outcome_fixpoint(*g), g.obs_set_spec(0, o)),
{
    let sl = find_outcomes(g);
    let ghost sv = views(sl@);
    let n_obs = g.obs[0].len();
    let mut so: Vec<OutcomeSet> = Vec::with_capacity(n_obs);
    let mut o: usize = 0;
    while o < n_obs
        invariant
            g.wf(),
            g.n_agents() == 1,
            n_obs == g.obs@[0].len(),
            o <= n_obs,
            sv == views(sl@),
            sv == outcome_fixpoint(*g),
            shaped(*g, sv),
            so@.len() == o,
            forall|t: int| 0 <= t < o ==> #[trigger] so@[t]@ == obs_entry(sv, g.obs_set_spec(0, t)),
        decreases n_obs - o,
    {
        let set = &g.obs[0][o];
        let ghost sp = set@;
        assert(sp == g.obs_set_spec(0, o as int));
        assert(sp.len() > 0);
        assert forall|k: int| 0 <= k < sp.len() implies ((#[trigger] sp[k]).0 as int) < sl@.len() by {
            assert(g.obs_set_spec(0, o as int)[k] == sp[k]);
        }
        let mut entry = sl[set[0].index()].clone();
        assert(sp.subrange(0, 1) =~= seq![sp[0]]);
        assert(entry@ == sv[sp[0].0 as int]);
        let mut i: usize = 1;
        while i < set.len()
            invariant
                1 <= i <= sp.len(),
                sp == set@,
                sv == views(sl@),
                forall|k: int| 0 <= k < sp.len() ==> ((#[trigger] sp[k]).0 as int) < sl@.len(),
                entry@ == obs_entry(sv, sp.subrange(0, i as int)),
            decreases sp.len() - i,
        {
            assert(sp.subrange(0, i + 1).drop_last() =~= sp.subrange(0, i as int));
            entry.bitand_assign(&sl[set[i].index()]);
            i = i + 1;
        }
        assert(sp.subrange(0, sp.len() as int) =~= sp);
        so.push(entry);
        o = o + 1;
    }
    so
}

pub open spec fn act_spec(a: int) -> Act {
    Act(a as u16)
}

/// A location whose step outcome is not a loss has an `a`-transition into
/// a location that can still win.
proof fn lemma_step_in_pre(g: Game, wv: Seq<OutcomeSetView>, list: Seq<Loc>, l: int, a: int)
    requires
        g.wf(),
        g.n_agents() == 1,
        shaped(g, wv),
        lists_winnable(g, wv, list),
        0 <= l < g.nloc(),
        0 <= a < g.n_actions@[0],
        !(step(g, wv, l, a) is Lose),
    ensures g.pre_set_spec(list, single(a)).contains(Loc(l as u32)),
{
    let p = g.post_spec(l, single(a));
    assert(p.len() > 0);
    crate::outcome::lemma_increment_kind(and_fold(wv, p));
    lemma_and_fold_lose(wv, p);
    let k = choose|k: int| 0 <= k < p.len() && !((#[trigger] wv[p[k].0 as int]).outcome is Lose);
    let x = p[k];
    assert(p.contains(x));
    crate::game::lemma_targets_with_contains(g.succ(l), single(a), x);
    let q = choose|q: int| 0 <= q < g.succ(l).len() && g.succ(l)[q] == (single(a), x);
    assert(g.valid_edge(g.succ(l)[q]));
    assert(Loc(x.0 as int as u32) == x);
    assert(list.contains(x));
    let t = choose|t: int| 0 <= t < list.len() && list[t] == x;
    assert(g.has_edge(Loc(l as u32).0 as int, single(a), list[t]));
    g.lemma_pre_set_contains(list, single(a), Loc(l as u32));
}

/// The position in `list` of a location that `l` reaches with `a`.
fn choose_witness(g: &Game, list: &Vec<Loc>, a: &Profile, l: Loc) -> (k: usize)
    requires
        g.wf(),
        (l.0 as int) < g.nloc(),
        exists|k: int| 0 <= k < list@.len() && #[trigger] g.has_edge(l.0 as int, a@, list@[k]),
        forall|k: int| 0 <= k < list@.len() ==> ((#[trigger] list@[k]).0 as int) < g.nloc(),
    ensures
        k < list@.len(),
        g.has_edge(l.0 as int, a@, list@[k as int]),
{
    let mut k: usize = 0;
    while k < list.len()
        invariant
            g.wf(),
            (l.0 as int) < g.nloc(),
            exists|j: int| k <= j < list@.len() && #[trigger] g.has_edge(l.0 as int, a@, list@[j]),
            forall|j: int| 0 <= j < list@.len() ==> ((#[trigger] list@[j]).0 as int) < g.nloc(),
        decreases list@.len() - k,
    {
        let p = g.post(l, a);
        if contains_loc(&p, list[k]) {
            proof {
                crate::game::lemma_targets_with_contains(g.succ(l.0 as int), a@, list@[k as int]);
            }
            return k;
        }
        proof {
            crate::game::lemma_targets_with_contains(g.succ(l.0 as int), a@, list@[k as int]);
            let j = choose|j: int| k <= j < list@.len() && #[trigger] g.has_edge(l.0 as int, a@, list@[j]);
            assert(j != k);
        }
        k = k + 1;
    }
    assert(false);
    0
}

/// `v` contains `x`.
pub fn contains_loc(v: &Vec<Loc>, x: Loc) -> (r: bool)
    ensures r == v@.contains(x),
{
    let mut i: usize = 0;
    while i < v.len()
        invariant
            i <= v@.len(),
            forall|j: int| 0 <= j < i ==> v@[j] != x,
        decreases v@.len() - i,
    {
        if v[i] == x {
            return true;
        }
        i = i + 1;
    }
    false
}

/// A goal is reached from `l` within `k` moves, for some choice of
/// actions and of where each move leads.
pub open spec fn goal_within(g: Game, l: int, k: nat) -> bool
    decreases k,
{
    g.loc@[l].is_winning || (k > 0 && exists|a: int, j: int| 0 <= a < g.n_actions@[0]
        && 0 <= j < g.post_spec(l, single(a)).len()
        && goal_within(g, (#[trigger] g.post_spec(l, single(a))[j]).0 as int, (k - 1) as nat))
}

/// A goal is reachable from `l`.
pub open spec fn goal_reachable(g: Game, l: int) -> bool {
    exists|k: nat| #[trigger] goal_within(g, l, k)
}

proof fn lemma_goal_within_mono(g: Game, l: int, k: nat, k2: nat)
    requires
        goal_within(g, l, k),
        k <= k2,
    ensures
        goal_within(g, l, k2),
    decreases k,
{
    if !g.loc@[l].is_winning {
        let (a, j) = choose|a: int, j: int| 0 <= a < g.n_actions@[0]
            && 0 <= j < g.post_spec(l, single(a)).len()
            && goal_within(g, (#[trigger] g.post_spec(l, single(a))[j]).0 as int, (k - 1) as nat);
        lemma_goal_within_mono(g, g.post_spec(l, single(a))[j].0 as int, (k - 1) as nat, (k2 - 1) as nat);
        assert(goal_within(g, l, k2));
    }
}

/// A conjunction of outcomes is lost exactly when every outcome is.
proof fn lemma_and_fold_lost(w: Seq<OutcomeSetView>, ls: Seq<Loc>)
    ensures
        (and_fold(w, ls) != Outcome::Lose) <==> exists|i: int| 0 <= i < ls.len() && w[(#[trigger] ls[i]).0 as int].outcome != Outcome::Lose,
    decreases ls.len(),
{
    if ls.len() > 1 {
        lemma_and_fold_lost(w, ls.drop_last());
        if exists|i: int| 0 <= i < ls.len() && w[(#[trigger] ls[i]).0 as int].outcome != Outcome::Lose {
            let i = choose|i: int| 0 <= i < ls.len() && w[(#[trigger] ls[i]).0 as int].outcome != Outcome::Lose;
            if i < ls.len() - 1 {
                assert(ls.drop_last()[i] == ls[i]);
            }
        }
        if exists|i: int| 0 <= i < ls.drop_last().len() && w[(#[trigger] ls.drop_last()[i]).0 as int].outcome != Outcome::Lose {
            let i = choose|i: int| 0 <= i < ls.drop_last().len() && w[(#[trigger] ls.drop_last()[i]).0 as int].outcome != Outcome::Lose;
            assert(ls[i] == ls.drop_last()[i]);
        }
        assert(ls[ls.len() - 1] == ls.last());
    } else if ls.len() == 1 {
        if exists|i: int| 0 <= i < ls.len() && w[(#[trigger] ls[i]).0 as int].outcome != Outcome::Lose {
            let i = choose|i: int| 0 <= i < ls.len() && w[(#[trigger] ls[i]).0 as int].outcome != Outcome::Lose;
            assert(i == 0);
        }
    }
}

/// A disjunction of outcomes is lost exactly when every outcome is.
proof fn lemma_fold_or_lost(init: Outcome, acts: Seq<Outcome>)
    ensures
        (fold_or(init, acts) != Outcome::Lose) <==> (init != Outcome::Lose
            || exists|a: int| 0 <= a < acts.len() && #[trigger] acts[a] != Outcome::Lose),
    decreases acts.len(),
{
    if acts.len() > 0 {
        lemma_fold_or_lost(init, acts.drop_last());
        if exists|a: int| 0 <= a < acts.len() && #[trigger] acts[a] != Outcome::Lose {
            let a = choose|a: int| 0 <= a < acts.len() && #[trigger] acts[a] != Outcome::Lose;
            if a < acts.len() - 1 {
                assert(acts.drop_last()[a] == acts[a]);
            }
        }
        if exists|a: int| 0 <= a < acts.drop_last().len() && #[trigger] acts.drop_last()[a] != Outcome::Lose {
            let a = choose|a: int| 0 <= a < acts.drop_last().len() && #[trigger] acts.drop_last()[a] != Outcome::Lose;
            assert(acts[a] == acts.drop_last()[a]);
        }
        assert(acts[acts.len() - 1] == acts.last());
    }
}

/// After `k` rounds, an action is not lost exactly when some location it
/// leads to reaches a goal within `k - 1` moves, and a location is not lost
/// exactly when it reaches a goal within `k` moves.
proof fn lemma_iterate_lose(g: Game, k: nat)
    requires
        g.wf(),
        g.n_agents() == 1,
    ensures
        iterate(g, k).len() == g.nloc(),
        forall|l: int| 0 <= l < g.nloc() ==> (#[trigger] iterate(g, k)[l]).action.len() == g.n_actions@[0],
        forall|l: int| 0 <= l < g.nloc() ==> (#[trigger] iterate(g, k)[l]).initial == initial_outcome(g.loc@[l].is_winning),
        forall|l: int| 0 <= l < g.nloc() ==> ((#[trigger] iterate(g, k)[l]).outcome != Outcome::Lose <==> goal_within(g, l, k)),
        forall|l: int, a: int| 0 <= l < g.nloc() && 0 <= a < g.n_actions@[0] ==>
            ((#[trigger] iterate(g, k)[l].action[a]) != Outcome::Lose <==> (k > 0 && exists|j: int|
                0 <= j < g.post_spec(l, single(a)).len()
                && goal_within(g, (#[trigger] g.post_spec(l, single(a))[j]).0 as int, (k - 1) as nat))),
    decreases k,
{
    if k > 0 {
        let k1 = (k - 1) as nat;
        lemma_iterate_lose(g, k1);
        let w = iterate(g, k1);
        let w2 = iterate(g, k);
        assert(w2 == round(g, w));
        assert forall|l: int, a: int| 0 <= l < g.nloc() && 0 <= a < g.n_actions@[0] implies
            ((#[trigger] w2[l].action[a]) != Outcome::Lose <==> exists|j: int|
                0 <= j < g.post_spec(l, single(a)).len()
                && goal_within(g, (#[trigger] g.post_spec(l, single(a))[j]).0 as int, k1)) by {
            let p = g.post_spec(l, single(a));
            assert(w2[l].action[a] == outcome_or(w[l].action[a], step(g, w, l, a)));
            if p.len() > 0 {
                lemma_and_fold_lost(w, p);
                assert forall|j: int| 0 <= j < p.len() implies (#[trigger] p[j]).0 < g.nloc() by {
                    crate::memoryless::lemma_post_target(g, l, single(a), j);
                }
            }
            if w[l].action[a] != Outcome::Lose {
                let j = choose|j: int| 0 <= j < p.len() && goal_within(g, (#[trigger] p[j]).0 as int, (k1 - 1) as nat);
                lemma_goal_within_mono(g, p[j].0 as int, (k1 - 1) as nat, k1);
            }
            if exists|j: int| 0 <= j < p.len() && goal_within(g, (#[trigger] p[j]).0 as int, k1) {
                let j = choose|j: int| 0 <= j < p.len() && goal_within(g, (#[trigger] p[j]).0 as int, k1);
                crate::memoryless::lemma_post_target(g, l, single(a), j);
                assert(w[p[j].0 as int].outcome != Outcome::Lose);
            }
        }
        assert forall|l: int| 0 <= l < g.nloc() implies ((#[trigger] w2[l]).outcome != Outcome::Lose <==> goal_within(g, l, k)) by {
            lemma_fold_or_lost(w2[l].initial, w2[l].action);
            if exists|a: int| 0 <= a < w2[l].action.len() && #[trigger] w2[l].action[a] != Outcome::Lose {
                let a = choose|a: int| 0 <= a < w2[l].action.len() && #[trigger] w2[l].action[a] != Outcome::Lose;
                let j = choose|j: int| 0 <= j < g.post_spec(l, single(a)).len()
                    && goal_within(g, (#[trigger] g.post_spec(l, single(a))[j]).0 as int, k1);
                assert(goal_within(g, l, k));
            }
            if goal_within(g, l, k) && !g.loc@[l].is_winning {
                let (a, j) = choose|a: int, j: int| 0 <= a < g.n_actions@[0]
                    && 0 <= j < g.post_spec(l, single(a)).len()
                    && goal_within(g, (#[trigger] g.post_spec(l, single(a))[j]).0 as int, (k - 1) as nat);
                assert(w2[l].action[a] != Outcome::Lose);
            }
        }
    }
}

/// The outcome analysis of a single-agent game at its fixed point: a
/// location is not lost exactly when a goal is reachable from it.
pub proof fn lemma_fixpoint_reach(g: Game, w: Seq<OutcomeSetView>)
    requires
        g.wf(),
        g.n_agents() == 1,
        is_outcome_fixpoint(g, w),
    ensures
        w.len() == g.nloc(),
        forall|l: int| 0 <= l < g.nloc() ==> ((#[trigger] w[l]).outcome != Outcome::Lose <==> goal_reachable(g, l)),
{
    let k0 = choose|k: nat| #[trigger] iterate(g, k) == w && round(g, w) == w;
    lemma_iterate_lose(g, k0);
    assert forall|l: int| 0 <= l < g.nloc() implies ((#[trigger] w[l]).outcome != Outcome::Lose <==> goal_reachable(g, l)) by {
        if goal_reachable(g, l) {
            let k = choose|k: nat| #[trigger] goal_within(g, l, k);
            if k > k0 {
                lemma_iterate_fixed(g, w, k0, k);
                lemma_iterate_lose(g, k);
            } else {
                lemma_goal_within_mono(g, l, k, k0);
            }
        }
    }
}

/// Past the fixed point, the rounds change nothing.
proof fn lemma_iterate_fixed(g: Game, w: Seq<OutcomeSetView>, k0: nat, k: nat)
    requires
        iterate(g, k0) == w,
        round(g, w) == w,
        k0 <= k,
    ensures
        iterate(g, k) == w,
    decreases k,
{
    if k > k0 {
        lemma_iterate_fixed(g, w, k0, (k - 1) as nat);
    }
}

/// The agent can force a goal from `l` within `k` moves: `l` is a goal,
/// or some action at `l` leads somewhere and, wherever it leads, the agent
/// can force a goal within `k - 1` moves.
pub open spec fn force_within(g: Game, l: int, k: nat) -> bool
    decreases k,
{
    g.loc@[l].is_winning || (k > 0 && exists|a: int| 0 <= a < g.n_actions@[0]
        && #[trigger] g.post_spec(l, single(a)).len() > 0
        && forall|j: int| 0 <= j < g.post_spec(l, single(a)).len()
            ==> force_within(g, (#[trigger] g.post_spec(l, single(a))[j]).0 as int, (k - 1) as nat))
}

/// The agent can force a goal from `l`.
pub open spec fn can_force(g: Game, l: int) -> bool {
    exists|k: nat| #[trigger] force_within(g, l, k)
}

proof fn lemma_force_within_mono(g: Game, l: int, k: nat, k2: nat)
    requires
        force_within(g, l, k),
        k <= k2,
    ensures
        force_within(g, l, k2),
    decreases k,
{
    if !g.loc@[l].is_winning {
        let a = choose|a: int| 0 <= a < g.n_actions@[0]
            && #[trigger] g.post_spec(l, single(a)).len() > 0
            && forall|j: int| 0 <= j < g.post_spec(l, single(a)).len()
                ==> force_within(g, (#[trigger] g.post_spec(l, single(a))[j]).0 as int, (k - 1) as nat);
        assert forall|j: int| 0 <= j < g.post_spec(l, single(a)).len() implies
            force_within(g, (#[trigger] g.post_spec(l, single(a))[j]).0 as int, (k2 - 1) as nat) by {
            lemma_force_within_mono(g, g.post_spec(l, single(a))[j].0 as int, (k - 1) as nat, (k2 - 1) as nat);
        }
    }
}

/// A conjunction of outcomes wins exactly when every outcome does.
proof fn lemma_and_fold_win(w: Seq<OutcomeSetView>, ls: Seq<Loc>)
    requires
        ls.len() > 0,
    ensures
        (and_fold(w, ls) is Win) <==> forall|i: int| 0 <= i < ls.len() ==> w[(#[trigger] ls[i]).0 as int].outcome is Win,
    decreases ls.len(),
{
    if ls.len() > 1 {
        lemma_and_fold_win(w, ls.drop_last());
        assert(ls[ls.len() - 1] == ls.last());
        if forall|i: int| 0 <= i < ls.drop_last().len() ==> w[(#[trigger] ls.drop_last()[i]).0 as int].outcome is Win {
            assert forall|i: int| 0 <= i < ls.len() - 1 implies w[(#[trigger] ls[i]).0 as int].outcome is Win by {
                assert(ls.drop_last()[i] == ls[i]);
            }
        }
        if forall|i: int| 0 <= i < ls.len() ==> w[(#[trigger] ls[i]).0 as int].outcome is Win {
            assert forall|i: int| 0 <= i < ls.drop_last().len() implies w[(#[trigger] ls.drop_last()[i]).0 as int].outcome is Win by {
                assert(ls.drop_last()[i] == ls[i]);
            }
        }
    } else {
        assert(ls[0] == ls[ls.len() - 1]);
    }
}

/// A disjunction of outcomes wins exactly when some outcome does.
proof fn lemma_fold_or_win(init: Outcome, acts: Seq<Outcome>)
    ensures
        (fold_or(init, acts) is Win) <==> (init is Win || exists|a: int| 0 <= a < acts.len() && #[trigger] acts[a] is Win),
    decreases acts.len(),
{
    if acts.len() > 0 {
        lemma_fold_or_win(init, acts.drop_last());
        if exists|a: int| 0 <= a < acts.len() && #[trigger] acts[a] is Win {
            let a = choose|a: int| 0 <= a < acts.len() && #[trigger] acts[a] is Win;
            if a < acts.len() - 1 {
                assert(acts.drop_last()[a] == acts[a]);
            }
        }
        if exists|a: int| 0 <= a < acts.drop_last().len() && #[trigger] acts.drop_last()[a] is Win {
            let a = choose|a: int| 0 <= a < acts.drop_last().len() && #[trigger] acts.drop_last()[a] is Win;
            assert(acts[a] == acts.drop_last()[a]);
        }
        assert(acts[acts.len() - 1] == acts.last());
    }
}

/// After `k` rounds, an action wins exactly when it leads somewhere and
/// the agent can force a goal from wherever it leads within `k - 1`
/// moves, and a location wins exactly when the agent can force a goal from
/// it within `k` moves.
proof fn lemma_iterate_win(g: Game, k: nat)
    requires
        g.wf(),
        g.n_agents() == 1,
    ensures
        forall|l: int| 0 <= l < g.nloc() ==> ((#[trigger] iterate(g, k)[l]).outcome is Win <==> force_within(g, l, k)),
        forall|l: int, a: int| 0 <= l < g.nloc() && 0 <= a < g.n_actions@[0] ==>
            ((#[trigger] iterate(g, k)[l].action[a]) is Win <==> (k > 0 && g.post_spec(l, single(a)).len() > 0
                && forall|j: int| 0 <= j < g.post_spec(l, single(a)).len()
                    ==> force_within(g, (#[trigger] g.post_spec(l, single(a))[j]).0 as int, (k - 1) as nat))),
    decreases k,
{
    lemma_iterate_lose(g, k);
    if k > 0 {
        let k1 = (k - 1) as nat;
        lemma_iterate_win(g, k1);
        lemma_iterate_lose(g, k1);
        let w = iterate(g, k1);
        let w2 = iterate(g, k);
        assert(w2 == round(g, w));
        assert forall|l: int, a: int| 0 <= l < g.nloc() && 0 <= a < g.n_actions@[0] implies
            ((#[trigger] w2[l].action[a]) is Win <==> (g.post_spec(l, single(a)).len() > 0
                && forall|j: int| 0 <= j < g.post_spec(l, single(a)).len()
                    ==> force_within(g, (#[trigger] g.post_spec(l, single(a))[j]).0 as int, k1))) by {
            let p = g.post_spec(l, single(a));
            assert(w2[l].action[a] == outcome_or(w[l].action[a], step(g, w, l, a)));
            assert forall|j: int| 0 <= j < p.len() implies (#[trigger] p[j]).0 < g.nloc() by {
                crate::memoryless::lemma_post_target(g, l, single(a), j);
            }
            if p.len() > 0 {
                lemma_and_fold_win(w, p);
            }
            if w[l].action[a] is Win {
                assert forall|j: int| 0 <= j < p.len() implies force_within(g, (#[trigger] p[j]).0 as int, k1) by {
                    lemma_force_within_mono(g, p[j].0 as int, (k1 - 1) as nat, k1);
                }
            }
        }
        assert forall|l: int| 0 <= l < g.nloc() implies ((#[trigger] w2[l]).outcome is Win <==> force_within(g, l, k)) by {
            lemma_fold_or_win(w2[l].initial, w2[l].action);
            if exists|a: int| 0 <= a < w2[l].action.len() && #[trigger] w2[l].action[a] is Win {
                let a = choose|a: int| 0 <= a < w2[l].action.len() && #[trigger] w2[l].action[a] is Win;
                assert(g.post_spec(l, single(a)).len() > 0);
                assert(force_within(g, l, k));
            }
            if force_within(g, l, k) && !g.loc@[l].is_winning {
                let a = choose|a: int| 0 <= a < g.n_actions@[0]
                    && #[trigger] g.post_spec(l, single(a)).len() > 0
                    && forall|j: int| 0 <= j < g.post_spec(l, single(a)).len()
                        ==> force_within(g, (#[trigger] g.post_spec(l, single(a))[j]).0 as int, (k - 1) as nat);
                assert(w2[l].action[a] is Win);
            }
        }
    } else {
        assert forall|l: int| 0 <= l < g.nloc() implies ((#[trigger] iterate(g, k)[l]).outcome is Win <==> force_within(g, l, k)) by {
        }
    }
}

/// The forcing law of the outcome analysis of a single-agent game: at its
/// fixed point a location wins exactly when the agent can force a goal from
/// it, and an action wins exactly when it leads somewhere and every
/// location it leads to wins.
pub proof fn lemma_fixpoint_force(g: Game, w: Seq<OutcomeSetView>)
    requires
        g.wf(),
        g.n_agents() == 1,
        is_outcome_fixpoint(g, w),
    ensures
        w.len() == g.nloc(),
        forall|l: int| 0 <= l < g.nloc() ==> ((#[trigger] w[l]).outcome is Win <==> can_force(g, l)),
        forall|l: int, a: int| 0 <= l < g.nloc() && 0 <= a < g.n_actions@[0] ==>
            ((#[trigger] w[l].action[a]) is Win <==> (g.post_spec(l, single(a)).len() > 0
                && forall|j: int| 0 <= j < g.post_spec(l, single(a)).len()
                    ==> w[(#[trigger] g.post_spec(l, single(a))[j]).0 as int].outcome is Win)),
{
    let k0 = choose|k: nat| #[trigger] iterate(g, k) == w && round(g, w) == w;
    lemma_iterate_fixed(g, w, k0, k0 + 1);
    lemma_iterate_win(g, k0);
    lemma_iterate_win(g, k0 + 1);
    lemma_iterate_lose(g, k0);
    assert forall|l: int| 0 <= l < g.nloc() implies ((#[trigger] w[l]).outcome is Win <==> can_force(g, l)) by {
        if can_force(g, l) {
            let k = choose|k: nat| #[trigger] force_within(g, l, k);
            if k > k0 {
                lemma_iterate_fixed(g, w, k0, k);
                lemma_iterate_win(g, k);
            } else {
                lemma_force_within_mono(g, l, k, k0);
            }
        }
    }
    assert forall|l: int, a: int| 0 <= l < g.nloc() && 0 <= a < g.n_actions@[0] implies
        ((#[trigger] w[l].action[a]) is Win <==> (g.post_spec(l, single(a)).len() > 0
            && forall|j: int| 0 <= j < g.post_spec(l, single(a)).len()
                ==> w[(#[trigger] g.post_spec(l, single(a))[j]).0 as int].outcome is Win)) by {
        let p = g.post_spec(l, single(a));
        assert forall|j: int| 0 <= j < p.len() implies (#[trigger] p[j]).0 < g.nloc() by {
            crate::memoryless::lemma_post_target(g, l, single(a), j);
        }
        assert(iterate(g, k0 + 1) == w);
    }
}

/// The step bound of the outcome analysis: at its fixed point, a location
/// whose outcome is `Win(d)` lets the agent force a goal within `d` moves,
/// and an action whose outcome is `Win(d)` leads somewhere, and from
/// wherever it leads the agent can force a goal within `d - 1` moves.
pub proof fn lemma_fixpoint_bounded(g: Game, w: Seq<OutcomeSetView>)
    requires
        g.wf(),
        g.n_agents() == 1,
        no_overflow(g),
        is_outcome_fixpoint(g, w),
    ensures
        wins_bounded(g, w),
{
    let k0 = choose|k: nat| #[trigger] iterate(g, k) == w && round(g, w) == w;
    lemma_iterate_bounded(g, k0);
}

/// Every win in `w` carries a bound within which the agent can force a
/// goal: from the location, or, for an action, one step more than from
/// wherever the action leads.
pub open spec fn wins_bounded(g: Game, w: Seq<OutcomeSetView>) -> bool {
    &&& forall|l: int| 0 <= l < g.nloc() && (#[trigger] w[l]).outcome is Win ==> force_within(g, l, w[l].outcome->Win_0 as nat)
    &&& forall|l: int, a: int| 0 <= l < g.nloc() && 0 <= a < w[l].action.len() && (#[trigger] w[l].action[a]) is Win ==> {
        &&& w[l].action[a]->Win_0 >= 1
        &&& g.post_spec(l, single(a)).len() > 0
        &&& forall|j: int| 0 <= j < g.post_spec(l, single(a)).len() ==>
            force_within(g, (#[trigger] g.post_spec(l, single(a))[j]).0 as int, (w[l].action[a]->Win_0 - 1) as nat)
    }
}

proof fn lemma_iterate_lengths(g: Game, k: nat)
    ensures
        iterate(g, k).len() == g.nloc(),
        forall|l: int| 0 <= l < g.nloc() ==> (#[trigger] iterate(g, k)[l]).action.len() == g.n_actions@[0]
            && iterate(g, k)[l].initial == initial_outcome(g.loc@[l].is_winning),
    decreases k,
{
    if k > 0 {
        lemma_iterate_lengths(g, (k - 1) as nat);
    }
}

/// A conjunction that wins has every part winning, each within its bound.
proof fn lemma_and_fold_bound(w: Seq<OutcomeSetView>, ls: Seq<Loc>)
    requires
        and_fold(w, ls) is Win,
    ensures
        ls.len() > 0,
        forall|j: int| 0 <= j < ls.len() ==> (#[trigger] w[ls[j].0 as int]).outcome is Win
            && w[ls[j].0 as int].outcome->Win_0 <= and_fold(w, ls)->Win_0,
    decreases ls.len(),
{
    if ls.len() > 1 {
        let d = ls.drop_last();
        let a = and_fold(w, d);
        let b = w[ls.last().0 as int].outcome;
        assert(a is Win && b is Win);
        lemma_and_fold_bound(w, d);
        assert forall|j: int| 0 <= j < ls.len() implies (#[trigger] w[ls[j].0 as int]).outcome is Win
            && w[ls[j].0 as int].outcome->Win_0 <= and_fold(w, ls)->Win_0 by {
            if j < ls.len() - 1 {
                assert(ls[j] == d[j]);
            } else {
                assert(ls[j] == ls.last());
            }
        }
    }
}

/// A disjunction that wins with a bound takes it from one of its parts.
proof fn lemma_fold_or_source(init: Outcome, acts: Seq<Outcome>)
    requires
        fold_or(init, acts) is Win,
    ensures
        init == fold_or(init, acts) || exists|a: int| 0 <= a < acts.len() && #[trigger] acts[a] == fold_or(init, acts),
    decreases acts.len(),
{
    if acts.len() > 0 {
        let f = fold_or(init, acts.drop_last());
        let x = acts.last();
        assert(acts[acts.len() - 1] == x);
        if outcome_or(f, x) != x {
            assert(f == outcome_or(f, x));
            lemma_fold_or_source(init, acts.drop_last());
            if init != f {
                let a = choose|a: int| 0 <= a < acts.drop_last().len() && #[trigger] acts.drop_last()[a] == f;
                assert(acts[a] == f);
            }
        }
    }
}

/// After `k` rounds without overflow, every win carries its bound.
proof fn lemma_iterate_bounded(g: Game, k: nat)
    requires
        g.wf(),
        g.n_agents() == 1,
        no_overflow(g),
    ensures
        wins_bounded(g, iterate(g, k)),
    decreases k,
{
    lemma_iterate_lengths(g, k);
    if k > 0 {
        let k1 = (k - 1) as nat;
        lemma_iterate_bounded(g, k1);
        lemma_iterate_lengths(g, k1);
        let w = iterate(g, k1);
        let w2 = iterate(g, k);
        assert(round_ok(g, w));
        assert forall|l: int, a: int| 0 <= l < g.nloc() && 0 <= a < w2[l].action.len() && (#[trigger] w2[l].action[a]) is Win implies {
            &&& w2[l].action[a]->Win_0 >= 1
            &&& g.post_spec(l, single(a)).len() > 0
            &&& forall|j: int| 0 <= j < g.post_spec(l, single(a)).len() ==>
                force_within(g, (#[trigger] g.post_spec(l, single(a))[j]).0 as int, (w2[l].action[a]->Win_0 - 1) as nat)
        } by {
            let p = g.post_spec(l, single(a));
            let st = step(g, w, l, a);
            assert(w2[l].action[a] == outcome_or(w[l].action[a], st));
            if w2[l].action[a] == w[l].action[a] && w[l].action[a] is Win {
            } else {
                assert(w2[l].action[a] == st);
                assert(p.len() > 0);
                lemma_and_fold_bound(w, p);
                let d0 = and_fold(w, p)->Win_0;
                assert(can_increment(and_fold(w, p)));
                assert forall|j: int| 0 <= j < p.len() implies force_within(g, (#[trigger] p[j]).0 as int, (w2[l].action[a]->Win_0 - 1) as nat) by {
                    crate::memoryless::lemma_post_target(g, l, single(a), j);
                    lemma_force_within_mono(g, p[j].0 as int, w[p[j].0 as int].outcome->Win_0 as nat, d0 as nat);
                }
            }
        }
        assert forall|l: int| 0 <= l < g.nloc() && (#[trigger] w2[l]).outcome is Win implies force_within(g, l, w2[l].outcome->Win_0 as nat) by {
            lemma_fold_or_source(w2[l].initial, w2[l].action);
            assert(w2[l].outcome == fold_or(w2[l].initial, w2[l].action));
            if w2[l].initial != w2[l].outcome {
                let a = choose|a: int| 0 <= a < w2[l].action.len() && #[trigger] w2[l].action[a] == w2[l].outcome;
                assert(w2[l].action[a] is Win);
                assert(force_within(g, l, w2[l].outcome->Win_0 as nat));
            }
        }
    }
}

} // verus!
