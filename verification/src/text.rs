//! The text form of a game, in the format games are read in.

use vstd::prelude::*;
use crate::game::Game;
use crate::types::{Loc, Act};
use crate::tex::push_all;
use crate::parser::chars_of;
use crate::symbol::string_from_chars;
use crate::tex::{tex_text, tex_escaped};
use crate::game::Profile;
use crate::game_queries::{groups_ok, has_group, group_view};

verus! {

/// The character for the digit `d`.
pub open spec fn digit(d: nat) -> char {
    if d == 0 { '0' } else if d == 1 { '1' } else if d == 2 { '2' } else if d == 3 { '3' }
    else if d == 4 { '4' } else if d == 5 { '5' } else if d == 6 { '6' } else if d == 7 { '7' }
    else if d == 8 { '8' } else { '9' }
}

/// `n` in decimal.
pub open spec fn decimal(n: nat) -> Seq<char>
    decreases n,
{
    if n < 10 {
        seq![digit(n)]
    } else {
        decimal(n / 10).push(digit(n % 10))
    }
}

/// `parts` with `sep` between each two.
pub open spec fn joined(parts: Seq<Seq<char>>, sep: Seq<char>) -> Seq<char>
    decreases parts.len(),
{
    if parts.len() == 0 {
        Seq::empty()
    } else if parts.len() == 1 {
        parts[0]
    } else {
        joined(parts.drop_last(), sep) + sep + parts.last()
    }
}

/// The numbers below `n`, in decimal.
pub open spec fn numbers(n: nat) -> Seq<Seq<char>> {
    Seq::new(n, |i: int| decimal(i as nat))
}

/// The largest of `s`; 0 if it is empty.
pub open spec fn max_of(s: Seq<usize>) -> nat
    decreases s.len(),
{
    if s.len() == 0 {
        0
    } else if s.last() > max_of(s.drop_last()) {
        s.last() as nat
    } else {
        max_of(s.drop_last())
    }
}

/// The names of the goals among the first `k` locations.
pub open spec fn goal_names(g: Game, names: Seq<Seq<char>>, k: nat) -> Seq<Seq<char>>
    decreases k,
{
    if k == 0 {
        Seq::empty()
    } else if g.loc@[k - 1].is_winning {
        goal_names(g, names, (k - 1) as nat).push(names[k - 1])
    } else {
        goal_names(g, names, (k - 1) as nat)
    }
}

/// The names of the locations of `c`, with `|` between them.
pub open spec fn class_text(names: Seq<Seq<char>>, c: Seq<Loc>) -> Seq<char> {
    joined(c.map_values(|l: Loc| names[l.0 as int]), seq!['|'])
}

/// The observations of agent `i`, among its first `k`, that hold more than
/// one location, as text.
pub open spec fn obs_parts(g: Game, names: Seq<Seq<char>>, i: int, k: nat) -> Seq<Seq<char>>
    decreases k,
{
    if k == 0 {
        Seq::empty()
    } else if g.obs@[i]@[k - 1]@.len() > 1 {
        obs_parts(g, names, i, (k - 1) as nat).push(class_text(names, g.obs@[i]@[k - 1]@))
    } else {
        obs_parts(g, names, i, (k - 1) as nat)
    }
}

/// The line of agent `i`'s observations that hold more than one location;
/// nothing where there is none.
pub open spec fn obs_line(g: Game, names: Seq<Seq<char>>, i: int) -> Seq<char> {
    let ps = obs_parts(g, names, i, g.obs@[i]@.len());
    if ps.len() > 0 {
        seq!['\n', 'o', 'b', 's', ' '] + decimal(i as nat) + seq![':', ' '] + joined(ps, seq![',', ' '])
    } else {
        Seq::empty()
    }
}

/// The observation lines of the first `n` agents.
pub open spec fn obs_lines(g: Game, names: Seq<Seq<char>>, n: nat) -> Seq<char>
    decreases n,
{
    if n == 0 {
        Seq::empty()
    } else {
        obs_lines(g, names, (n - 1) as nat) + obs_line(g, names, n - 1)
    }
}

/// The actions of the profile `a`, with spaces between them.
pub open spec fn profile_text(a: Seq<Act>) -> Seq<char> {
    joined(a.map_values(|x: Act| decimal(x.0 as nat)), seq![' '])
}

/// The transition `e` from location `l`, as text.
pub open spec fn edge_text(names: Seq<Seq<char>>, l: int, e: (Seq<Act>, Loc)) -> Seq<char> {
    names[l] + seq![' ', '('] + profile_text(e.0) + seq![')', ' '] + names[e.1.0 as int]
}

/// The transitions from the first `n` locations, as text, in the order of
/// `all_edges`.
pub open spec fn edge_parts(g: Game, names: Seq<Seq<char>>, n: nat) -> Seq<Seq<char>>
    decreases n,
{
    if n == 0 {
        Seq::empty()
    } else {
        edge_parts(g, names, (n - 1) as nat) + g.succ(n - 1).map_values(|e: (Seq<Act>, Loc)| edge_text(names, n - 1, e))
    }
}

/// The text of the game `g` with its locations named `names`: its agents,
/// actions, locations and initial location, its goals (if any), for each
/// agent its observations that hold more than one location, and its
/// transitions.
pub open spec fn game_text(g: Game, names: Seq<Seq<char>>) -> Seq<char> {
    let goals = goal_names(g, names, g.nloc());
    seq!['a', 'g', 't', ':', ' '] + joined(numbers(g.n_agents()), seq![',', ' '])
        + seq!['\n', 'a', 'c', 't', ':', ' '] + joined(numbers(max_of(g.n_actions@)), seq![',', ' '])
        + seq!['\n', 'l', 'o', 'c', ':', ' '] + joined(names, seq![',', ' '])
        + seq!['\n', 'l', '0', ':', ' '] + names[0]
        + (if goals.len() > 0 { seq!['\n', 'r', 'e', 'a', 'c', 'h', ':', ' '] + joined(goals, seq![',', ' ']) } else { Seq::empty() })
        + obs_lines(g, names, g.n_agents())
        + seq!['\n', 'd', 'e', 'l', 't', 'a', ':', '\n'] + joined(edge_parts(g, names, g.nloc()), seq![',', '\n'])
}

/// Adding the part `p` to the parts `ps` joined by `sep`.
proof fn lemma_join_step(start: Seq<char>, ps: Seq<Seq<char>>, sep: Seq<char>, p: Seq<char>, mid: Seq<char>, end: Seq<char>)
    requires
        mid == start + joined(ps, sep),
        end == (if ps.len() == 0 { mid + p } else { mid + sep + p }),
    ensures
        end == start + joined(ps.push(p), sep),
{
    assert(ps.push(p).drop_last() =~= ps);
    if ps.len() == 0 {
        assert(joined(ps, sep) =~= Seq::<char>::empty());
        assert(end =~= start + joined(ps.push(p), sep));
    } else {
        assert(end =~= start + joined(ps.push(p), sep));
    }
}

fn digit_char(d: usize) -> (c: char)
    requires
        d < 10,
    ensures
        c == digit(d as nat),
{
    if d == 0 { '0' } else if d == 1 { '1' } else if d == 2 { '2' } else if d == 3 { '3' }
    else if d == 4 { '4' } else if d == 5 { '5' } else if d == 6 { '6' } else if d == 7 { '7' }
    else if d == 8 { '8' } else { '9' }
}

fn push_decimal(out: &mut Vec<char>, n: usize)
    ensures
        final(out)@ == old(out)@ + decimal(n as nat),
    decreases n,
{
    if n >= 10 {
        push_decimal(out, n / 10);
    }
    out.push(digit_char(n % 10));
    proof {
        if n >= 10 {
            assert(out@ =~= old(out)@ + decimal(n as nat));
        } else {
            assert(out@ =~= old(out)@ + decimal(n as nat));
        }
    }
}

/// Pushes the numbers below `n`, separated by ", ".
fn push_numbers(out: &mut Vec<char>, n: usize)
    ensures
        final(out)@ == old(out)@ + joined(numbers(n as nat), seq![',', ' ']),
{
    let ghost start = out@;
    let ghost all = numbers(n as nat);
    let mut i: usize = 0;
    while i < n
        invariant
            i <= n,
            all == numbers(n as nat),
            out@ == start + joined(all.take(i as int), seq![',', ' ']),
        decreases n - i,
    {
        let ghost mid = out@;
        if i > 0 {
            push_all(out, &[',', ' ']);
        }
        push_decimal(out, i);
        proof {
            assert([',', ' ']@ =~= seq![',', ' ']);
            lemma_join_step(start, all.take(i as int), seq![',', ' '], decimal(i as nat), mid, out@);
            assert(all.take(i as int + 1) =~= all.take(i as int).push(decimal(i as nat)));
        }
        i = i + 1;
    }
    assert(all.take(n as int) =~= all);
}

fn max_actions(v: &Vec<usize>) -> (m: usize)
    ensures
        m == max_of(v@),
{
    let mut m: usize = 0;
    let mut i: usize = 0;
    while i < v.len()
        invariant
            i <= v@.len(),
            m == max_of(v@.take(i as int)),
        decreases v@.len() - i,
    {
        proof {
            assert(v@.take(i as int + 1).drop_last() =~= v@.take(i as int));
        }
        if v[i] > m {
            m = v[i];
        }
        i = i + 1;
    }
    assert(v@.take(v@.len() as int) =~= v@);
    m
}

/// Pushes `parts`, whose views are `pv`, with `sep` between each two.
fn push_joined(out: &mut Vec<char>, parts: &Vec<Vec<char>>, sep: &[char], Ghost(pv): Ghost<Seq<Seq<char>>>)
    requires
        pv.len() == parts@.len(),
        forall|k: int| 0 <= k < pv.len() ==> #[trigger] parts@[k]@ == pv[k],
    ensures
        final(out)@ == old(out)@ + joined(pv, sep@),
{
    let ghost start = out@;
    let mut i: usize = 0;
    while i < parts.len()
        invariant
            i <= parts@.len(),
            pv.len() == parts@.len(),
            forall|k: int| 0 <= k < pv.len() ==> #[trigger] parts@[k]@ == pv[k],
            out@ == start + joined(pv.take(i as int), sep@),
        decreases parts@.len() - i,
    {
        let ghost mid = out@;
        if i > 0 {
            push_all(out, sep);
        }
        push_all(out, parts[i].as_slice());
        proof {
            lemma_join_step(start, pv.take(i as int), sep@, pv[i as int], mid, out@);
            assert(pv.take(i as int + 1) =~= pv.take(i as int).push(pv[i as int]));
        }
        i = i + 1;
    }
    assert(pv.take(pv.len() as int) =~= pv);
}

/// Pushes the actions of the profile `a`, with spaces between them.
fn push_profile(out: &mut Vec<char>, a: &Vec<Act>)
    ensures
        final(out)@ == old(out)@ + profile_text(a@),
{
    let ghost start = out@;
    let ghost pv = a@.map_values(|x: Act| decimal(x.0 as nat));
    let mut i: usize = 0;
    while i < a.len()
        invariant
            i <= a@.len(),
            pv == a@.map_values(|x: Act| decimal(x.0 as nat)),
            out@ == start + joined(pv.take(i as int), seq![' ']),
        decreases a@.len() - i,
    {
        let ghost mid = out@;
        if i > 0 {
            push_all(out, &[' ']);
        }
        push_decimal(out, a[i].0 as usize);
        proof {
            assert([' ']@ =~= seq![' ']);
            lemma_join_step(start, pv.take(i as int), seq![' '], pv[i as int], mid, out@);
            assert(pv.take(i as int + 1) =~= pv.take(i as int).push(pv[i as int]));
        }
        i = i + 1;
    }
    assert(pv.take(pv.len() as int) =~= pv);
}

/// The text of the game `g` with its locations named `names`
/// (`game_text`).
pub fn game_text_of(g: &Game, names: &Vec<String>) -> (r: String)
    requires
        g.wf(),
        names@.len() == g.nloc(),
    ensures
        r@ == game_text(*g, names@.map_values(|s: String| s@)),
{
    let ghost nv = names@.map_values(|s: String| s@);
    let mut nm: Vec<Vec<char>> = Vec::new();
    let mut j: usize = 0;
    while j < names.len()
        invariant
            j <= names@.len(),
            nv == names@.map_values(|s: String| s@),
            nm@.len() == j,
            forall|k: int| 0 <= k < j ==> #[trigger] nm@[k]@ == nv[k],
        decreases names@.len() - j,
    {
        nm.push(chars_of(names[j].as_str()));
        j = j + 1;
    }
    let n = g.loc.len();
    let mut out: Vec<char> = Vec::new();
    push_all(&mut out, &['a', 'g', 't', ':', ' ']);
    push_numbers(&mut out, g.n_actions.len());
    push_all(&mut out, &['\n', 'a', 'c', 't', ':', ' ']);
    push_numbers(&mut out, max_actions(&g.n_actions));
    push_all(&mut out, &['\n', 'l', 'o', 'c', ':', ' ']);
    push_joined(&mut out, &nm, &[',', ' '], Ghost(nv));
    push_all(&mut out, &['\n', 'l', '0', ':', ' ']);
    push_all(&mut out, nm[0].as_slice());
    let ghost head = out@;
    proof {
        assert(['a', 'g', 't', ':', ' ']@ =~= seq!['a', 'g', 't', ':', ' ']);
        assert(['\n', 'a', 'c', 't', ':', ' ']@ =~= seq!['\n', 'a', 'c', 't', ':', ' ']);
        assert(['\n', 'l', 'o', 'c', ':', ' ']@ =~= seq!['\n', 'l', 'o', 'c', ':', ' ']);
        assert([',', ' ']@ =~= seq![',', ' ']);
        assert(['\n', 'l', '0', ':', ' ']@ =~= seq!['\n', 'l', '0', ':', ' ']);
        assert(head =~= seq!['a', 'g', 't', ':', ' '] + joined(numbers(g.n_agents()), seq![',', ' '])
            + seq!['\n', 'a', 'c', 't', ':', ' '] + joined(numbers(max_of(g.n_actions@)), seq![',', ' '])
            + seq!['\n', 'l', 'o', 'c', ':', ' '] + joined(nv, seq![',', ' '])
            + seq!['\n', 'l', '0', ':', ' '] + nv[0]);
    }
    // goals
    let mut gs: Vec<char> = Vec::new();
    let mut any = false;
    let mut l: usize = 0;
    while l < n
        invariant
            n == g.nloc(),
            l <= n,
            nm@.len() == n,
            forall|k: int| 0 <= k < n ==> #[trigger] nm@[k]@ == nv[k],
            gs@ == joined(goal_names(*g, nv, l as nat), seq![',', ' ']),
            any == (goal_names(*g, nv, l as nat).len() > 0),
        decreases n - l,
    {
        if g.loc[l].is_winning {
            let ghost mid = gs@;
            if any {
                push_all(&mut gs, &[',', ' ']);
            }
            push_all(&mut gs, nm[l].as_slice());
            proof {
                assert([',', ' ']@ =~= seq![',', ' ']);
                lemma_join_step(Seq::empty(), goal_names(*g, nv, l as nat), seq![',', ' '], nv[l as int], mid, gs@);
                assert(Seq::<char>::empty() + joined(goal_names(*g, nv, l as nat), seq![',', ' ']) =~= mid);
                assert(Seq::<char>::empty() + joined(goal_names(*g, nv, (l + 1) as nat), seq![',', ' ']) =~= gs@);
            }
            any = true;
        }
        l = l + 1;
    }
    if any {
        push_all(&mut out, &['\n', 'r', 'e', 'a', 'c', 'h', ':', ' ']);
        push_all(&mut out, gs.as_slice());
        proof {
            assert(['\n', 'r', 'e', 'a', 'c', 'h', ':', ' ']@ =~= seq!['\n', 'r', 'e', 'a', 'c', 'h', ':', ' ']);
        }
    }
    let ghost after_goals = out@;
    proof {
        let goals = goal_names(*g, nv, g.nloc());
        assert(after_goals =~= head + (if goals.len() > 0 { seq!['\n', 'r', 'e', 'a', 'c', 'h', ':', ' '] + joined(goals, seq![',', ' ']) } else { Seq::empty() }));
    }
    // observations
    let na = g.obs.len();
    let mut i: usize = 0;
    while i < na
        invariant
            na == g.obs@.len(),
            g.wf(),
            i <= na,
            n == g.nloc(),
            nm@.len() == n,
            forall|k: int| 0 <= k < n ==> #[trigger] nm@[k]@ == nv[k],
            out@ == after_goals + obs_lines(*g, nv, i as nat),
        decreases na - i,
    {
        let classes = &g.obs[i];
        let mut os: Vec<char> = Vec::new();
        let mut some: bool = false;
        let mut c: usize = 0;
        while c < classes.len()
            invariant
                *classes == g.obs@[i as int],
                i < na,
                na == g.obs@.len(),
                g.wf(),
                c <= classes@.len(),
                n == g.nloc(),
                nm@.len() == n,
                forall|k: int| 0 <= k < n ==> #[trigger] nm@[k]@ == nv[k],
                os@ == joined(obs_parts(*g, nv, i as int, c as nat), seq![',', ' ']),
                some == (obs_parts(*g, nv, i as int, c as nat).len() > 0),
            decreases classes@.len() - c,
        {
            let set = &classes[c];
            if set.len() > 1 {
                let ghost mid = os@;
                if some {
                    push_all(&mut os, &[',', ' ']);
                }
                let ghost mid2 = os@;
                let ghost cv = set@.map_values(|x: Loc| nv[x.0 as int]);
                let mut k: usize = 0;
                while k < set.len()
                    invariant
                        *set == g.obs@[i as int]@[c as int],
                        i < na,
                        na == g.obs@.len(),
                        c < g.obs@[i as int]@.len(),
                        g.wf(),
                        k <= set@.len(),
                        n == g.nloc(),
                        nm@.len() == n,
                        forall|q: int| 0 <= q < n ==> #[trigger] nm@[q]@ == nv[q],
                        cv == set@.map_values(|x: Loc| nv[x.0 as int]),
                        os@ == mid2 + joined(cv.take(k as int), seq!['|']),
                    decreases set@.len() - k,
                {
                    let ghost mid3 = os@;
                    if k > 0 {
                        push_all(&mut os, &['|']);
                    }
                    proof {
                        assert(g.obs_set_spec(i as int, c as int)[k as int] == set@[k as int]);
                    }
                    push_all(&mut os, nm[set[k].0 as usize].as_slice());
                    proof {
                        assert(['|']@ =~= seq!['|']);
                        lemma_join_step(mid2, cv.take(k as int), seq!['|'], cv[k as int], mid3, os@);
                        assert(cv.take(k as int + 1) =~= cv.take(k as int).push(cv[k as int]));
                    }
                    k = k + 1;
                }
                proof {
                    assert(cv.take(set@.len() as int) =~= cv);
                    assert([',', ' ']@ =~= seq![',', ' ']);
                    lemma_join_step(Seq::empty(), obs_parts(*g, nv, i as int, c as nat), seq![',', ' '],
                        class_text(nv, set@), mid, os@);
                    assert(Seq::<char>::empty() + joined(obs_parts(*g, nv, i as int, c as nat), seq![',', ' ']) =~= mid);
                    assert(Seq::<char>::empty() + joined(obs_parts(*g, nv, i as int, (c + 1) as nat), seq![',', ' ']) =~= os@);
                }
                some = true;
            }
            c = c + 1;
        }
        if some {
            push_all(&mut out, &['\n', 'o', 'b', 's', ' ']);
            push_decimal(&mut out, i);
            push_all(&mut out, &[':', ' ']);
            push_all(&mut out, os.as_slice());
        }
        proof {
            assert(['\n', 'o', 'b', 's', ' ']@ =~= seq!['\n', 'o', 'b', 's', ' ']);
            assert([':', ' ']@ =~= seq![':', ' ']);
            assert(out@ =~= after_goals + obs_lines(*g, nv, (i + 1) as nat));
        }
        i = i + 1;
    }
    let ghost after_obs = out@;
    push_all(&mut out, &['\n', 'd', 'e', 'l', 't', 'a', ':', '\n']);
    proof {
        assert(['\n', 'd', 'e', 'l', 't', 'a', ':', '\n']@ =~= seq!['\n', 'd', 'e', 'l', 't', 'a', ':', '\n']);
    }
    // transitions
    let ghost start = out@;
    let ghost sep = seq![',', '\n'];
    let mut some_edge: bool = false;
    let mut l: usize = 0;
    while l < n
        invariant
            n == g.nloc(),
            g.wf(),
            l <= n,
            nm@.len() == n,
            forall|k: int| 0 <= k < n ==> #[trigger] nm@[k]@ == nv[k],
            sep == seq![',', '\n'],
            out@ == start + joined(edge_parts(*g, nv, l as nat), sep),
            some_edge == (edge_parts(*g, nv, l as nat).len() > 0),
        decreases n - l,
    {
        let es = &g.loc[l].successors;
        let ghost base = edge_parts(*g, nv, l as nat);
        let ghost sv = g.succ(l as int).map_values(|e: (Seq<Act>, Loc)| edge_text(nv, l as int, e));
        let mut k: usize = 0;
        while k < es.len()
            invariant
                *es == g.loc@[l as int].successors,
                n == g.nloc(),
                g.wf(),
                l < n,
                nm@.len() == n,
                forall|q: int| 0 <= q < n ==> #[trigger] nm@[q]@ == nv[q],
                sep == seq![',', '\n'],
                base == edge_parts(*g, nv, l as nat),
                sv == g.succ(l as int).map_values(|e: (Seq<Act>, Loc)| edge_text(nv, l as int, e)),
                k <= es@.len(),
                out@ == start + joined(base + sv.take(k as int), sep),
                some_edge == ((base + sv.take(k as int)).len() > 0),
            decreases es@.len() - k,
        {
            let ghost mid = out@;
            if some_edge {
                push_all(&mut out, &[',', '\n']);
            }
            proof {
                assert(g.valid_edge(g.succ(l as int)[k as int]));
                assert(g.succ(l as int)[k as int] == (es@[k as int].0@, es@[k as int].1));
            }
            push_all(&mut out, nm[l].as_slice());
            push_all(&mut out, &[' ', '(']);
            push_profile(&mut out, &es[k].0);
            push_all(&mut out, &[')', ' ']);
            push_all(&mut out, nm[es[k].1.0 as usize].as_slice());
            proof {
                assert([',', '\n']@ =~= sep);
                assert([' ', '(']@ =~= seq![' ', '(']);
                assert([')', ' ']@ =~= seq![')', ' ']);
                assert(sv[k as int] == edge_text(nv, l as int, g.succ(l as int)[k as int]));
                assert(out@ =~= (if (base + sv.take(k as int)).len() == 0 { mid + sv[k as int] } else { mid + sep + sv[k as int] }));
                lemma_join_step(start, base + sv.take(k as int), sep, sv[k as int], mid, out@);
                assert(base + sv.take(k as int + 1) =~= (base + sv.take(k as int)).push(sv[k as int]));
            }
            some_edge = true;
            k = k + 1;
        }
        proof {
            assert(sv.take(es@.len() as int) =~= sv);
            assert(edge_parts(*g, nv, (l + 1) as nat) =~= base + sv);
        }
        l = l + 1;
    }
    proof {
        assert(out@ =~= game_text(*g, nv));
    }
    string_from_chars(&out)
}

/// The line of the TikZ picture for location `l`: a state, initial for
/// location 0 and accepting for a goal, labelled with its name.
pub open spec fn node_line(g: Game, names: Seq<Seq<char>>, l: int) -> Seq<char> {
    "    \\node[state"@ + (if l == 0 { ", initial"@ } else { Seq::empty() })
        + (if g.loc@[l].is_winning { ", accepting"@ } else { Seq::empty() })
        + "] ("@ + decimal(l as nat) + ") {"@ + tex_text(names[l]) + "};\n"@
}

/// The node lines of the first `n` locations.
pub open spec fn node_lines(g: Game, names: Seq<Seq<char>>, n: nat) -> Seq<char>
    decreases n,
{
    if n == 0 {
        Seq::empty()
    } else {
        node_lines(g, names, (n - 1) as nat) + node_line(g, names, n - 1)
    }
}

/// The label of the profile `a` on an arrow.
pub open spec fn label_text(a: Seq<Act>) -> Seq<char> {
    "("@ + joined(a.map_values(|x: Act| seq!['a'] + decimal(x.0 as nat)), ","@) + ")"@
}

/// The arrow for the group `e` of transitions from one location to
/// another, labelled with their profiles.
pub open spec fn group_line(e: (Loc, Seq<Seq<Act>>, Loc)) -> Seq<char> {
    "    \\draw ("@ + decimal(e.0.0 as nat) + ") edge["@ + (if e.0 == e.2 { "loop above"@ } else { Seq::empty() })
        + "] node{"@ + joined(e.1.map_values(|a: Seq<Act>| label_text(a)), ","@) + "} ("@
        + (if e.0 != e.2 { decimal(e.2.0 as nat) } else { Seq::empty() }) + ");\n"@
}

/// The arrows for the groups `r`, in order.
pub open spec fn group_lines(r: Seq<(Loc, Seq<Seq<Act>>, Loc)>) -> Seq<char>
    decreases r.len(),
{
    if r.len() == 0 {
        Seq::empty()
    } else {
        group_lines(r.drop_last()) + group_line(r.last())
    }
}

/// The agents among the first `k` that cannot tell `l` from `l2`, in
/// decimal.
pub open spec fn shared_agents(g: Game, l: int, l2: int, k: nat) -> Seq<Seq<char>>
    decreases k,
{
    if k == 0 {
        Seq::empty()
    } else if g.obs_of(l, k - 1) == g.obs_of(l2, k - 1) {
        shared_agents(g, l, l2, (k - 1) as nat).push(decimal((k - 1) as nat))
    } else {
        shared_agents(g, l, l2, (k - 1) as nat)
    }
}

/// The dashed line between `l` and `l2`, labelled with the agents that
/// cannot tell them apart; nothing where there is none.
pub open spec fn pair_line(g: Game, l: int, l2: int) -> Seq<char> {
    let ags = shared_agents(g, l, l2, g.n_agents());
    if ags.len() > 0 {
        "    \\draw ("@ + decimal(l as nat) + ") edge[obs] node{\\textasciitilde "@ + joined(ags, ","@) + "} ("@
            + decimal(l2 as nat) + ");\n"@
    } else {
        Seq::empty()
    }
}

/// The lines between `l` and each location after it, below `m`.
pub open spec fn pair_lines_from(g: Game, l: int, m: nat) -> Seq<char>
    decreases m,
{
    if m == 0 || m <= l + 1 {
        Seq::empty()
    } else {
        pair_lines_from(g, l, (m - 1) as nat) + pair_line(g, l, m - 1)
    }
}

/// The lines between each two of the first `n` locations and those after
/// them.
pub open spec fn pair_lines(g: Game, n: nat) -> Seq<char>
    decreases n,
{
    if n == 0 {
        Seq::empty()
    } else {
        pair_lines(g, (n - 1) as nat) + pair_lines_from(g, n - 1, g.nloc())
    }
}

/// The TikZ figure of the game `g` with its locations named `names` and
/// its transitions grouped as `r`.
pub open spec fn tikz_text(g: Game, names: Seq<Seq<char>>, r: Seq<(Loc, Seq<Seq<Act>>, Loc)>) -> Seq<char> {
    "\\begin{figure}\n  \\centering\n  \\begin{tikzpicture}\n"@ + node_lines(g, names, g.nloc()) + "\n"@
        + group_lines(r) + "\n"@ + pair_lines(g, g.nloc())
        + "\n  \\end{tikzpicture}\n  \\caption{Game}\n  \\label{fig:game}\n\\end{figure}\n"@
}

/// `r` is the grouping of the transitions of `g` that `edges_dedup` gives:
/// a group for each source and target, sorted, each with the profiles of
/// its transitions in stored order.
pub open spec fn grouping(g: Game, r: Seq<(Loc, Vec<Profile>, Loc)>) -> bool {
    &&& groups_ok(g, r)
    &&& forall|l: int, q: int| 0 <= l < g.nloc() && 0 <= q < g.succ(l).len() ==>
        has_group(r, Loc(l as u32), (#[trigger] g.succ(l)[q]).1)
    &&& forall|k: int| 0 <= k < r.len() ==> crate::game::targets(g.succ((#[trigger] r[k]).0.0 as int)).contains(r[k].2)
}

fn push_str(out: &mut Vec<char>, s: &str)
    ensures
        final(out)@ == old(out)@ + s@,
{
    let v = chars_of(s);
    push_all(out, v.as_slice());
}

/// The TikZ figure of the game `g` with its locations named `names`
/// (`tikz_text`, over the grouping of its transitions).
pub fn tikz_text_of(g: &Game, names: &Vec<String>) -> (r: String)
    requires
        g.wf(),
        names@.len() == g.nloc(),
    ensures
        exists|gr: Seq<(Loc, Vec<Profile>, Loc)>| grouping(*g, gr)
            && r@ == tikz_text(*g, names@.map_values(|s: String| s@), gr.map_values(|e: (Loc, Vec<Profile>, Loc)| group_view(e))),
{
    let ghost nv = names@.map_values(|s: String| s@);
    let n = g.loc.len();
    let mut out: Vec<char> = Vec::new();
    push_str(&mut out, "\\begin{figure}\n  \\centering\n  \\begin{tikzpicture}\n");
    let ghost start = out@;
    let mut l: usize = 0;
    while l < n
        invariant
            n == g.nloc(),
            l <= n,
            names@.len() == n,
            nv == names@.map_values(|s: String| s@),
            out@ == start + node_lines(*g, nv, l as nat),
        decreases n - l,
    {
        let ghost mid = out@;
        push_str(&mut out, "    \\node[state");
        if l == 0 {
            push_str(&mut out, ", initial");
        }
        if g.loc[l].is_winning {
            push_str(&mut out, ", accepting");
        }
        push_str(&mut out, "] (");
        push_decimal(&mut out, l);
        push_str(&mut out, ") {");
        let esc = tex_escaped(names[l].as_str());
        push_str(&mut out, esc.as_str());
        push_str(&mut out, "};\n");
        proof {
            assert(out@ =~= mid + node_line(*g, nv, l as int));
        }
        l = l + 1;
    }
    push_str(&mut out, "\n");
    let groups = g.edges_dedup();
    let ghost gv = groups@.map_values(|e: (Loc, Vec<Profile>, Loc)| group_view(e));
    let ghost start2 = out@;
    let mut k: usize = 0;
    while k < groups.len()
        invariant
            k <= groups@.len(),
            gv == groups@.map_values(|e: (Loc, Vec<Profile>, Loc)| group_view(e)),
            out@ == start2 + group_lines(gv.take(k as int)),
        decreases groups@.len() - k,
    {
        let ghost mid = out@;
        let (src, profiles, dst) = (&groups[k].0, &groups[k].1, &groups[k].2);
        push_str(&mut out, "    \\draw (");
        push_decimal(&mut out, src.0 as usize);
        push_str(&mut out, ") edge[");
        if src.0 == dst.0 {
            push_str(&mut out, "loop above");
        }
        push_str(&mut out, "] node{");
        let ghost mid2 = out@;
        let ghost lv = gv[k as int].1.map_values(|a: Seq<Act>| label_text(a));
        let mut j: usize = 0;
        while j < profiles.len()
            invariant
                *profiles == groups@[k as int].1,
                k < groups@.len(),
                gv == groups@.map_values(|e: (Loc, Vec<Profile>, Loc)| group_view(e)),
                lv == gv[k as int].1.map_values(|a: Seq<Act>| label_text(a)),
                j <= profiles@.len(),
                out@ == mid2 + joined(lv.take(j as int), ","@),
            decreases profiles@.len() - j,
        {
            let ghost mid3 = out@;
            if j > 0 {
                push_str(&mut out, ",");
            }
            push_str(&mut out, "(");
            let a = &profiles[j];
            let ghost av = a@.map_values(|x: Act| seq!['a'] + decimal(x.0 as nat));
            let ghost mid4 = out@;
            let mut q: usize = 0;
            while q < a.len()
                invariant
                    q <= a@.len(),
                    av == a@.map_values(|x: Act| seq!['a'] + decimal(x.0 as nat)),
                    out@ == mid4 + joined(av.take(q as int), ","@),
                decreases a@.len() - q,
            {
                let ghost mid5 = out@;
                if q > 0 {
                    push_str(&mut out, ",");
                }
                out.push('a');
                push_decimal(&mut out, a[q].0 as usize);
                proof {
                    assert(av[q as int] == seq!['a'] + decimal(a@[q as int].0 as nat));
                    assert(out@ =~= (if q == 0 { mid5 + av[q as int] } else { mid5 + ","@ + av[q as int] }));
                    lemma_join_step(mid4, av.take(q as int), ","@, av[q as int], mid5, out@);
                    assert(av.take(q as int + 1) =~= av.take(q as int).push(av[q as int]));
                }
                q = q + 1;
            }
            push_str(&mut out, ")");
            proof {
                assert(av.take(a@.len() as int) =~= av);
                assert(gv[k as int].1[j as int] == a@);
                assert(lv[j as int] == label_text(a@));
                assert(out@ =~= (if j == 0 { mid3 } else { mid3 + ","@ }) + label_text(a@));
                lemma_join_step(mid2, lv.take(j as int), ","@, lv[j as int], mid3, out@);
                assert(lv.take(j as int + 1) =~= lv.take(j as int).push(lv[j as int]));
            }
            j = j + 1;
        }
        push_str(&mut out, "} (");
        if src.0 != dst.0 {
            push_decimal(&mut out, dst.0 as usize);
        }
        push_str(&mut out, ");\n");
        proof {
            assert(lv.take(profiles@.len() as int) =~= lv);
            assert(gv[k as int] == group_view(groups@[k as int]));
            assert(out@ =~= mid + group_line(gv[k as int]));
            assert(gv.take(k as int + 1).drop_last() =~= gv.take(k as int));
        }
        k = k + 1;
    }
    proof {
        assert(gv.take(groups@.len() as int) =~= gv);
    }
    push_str(&mut out, "\n");
    let ghost start3 = out@;
    let na = g.n_actions.len();
    let mut l: usize = 0;
    while l < n
        invariant
            n == g.nloc(),
            g.wf(),
            na == g.n_agents(),
            l <= n,
            out@ == start3 + pair_lines(*g, l as nat),
        decreases n - l,
    {
        let ghost mid = out@;
        let mut l2: usize = l + 1;
        while l2 < n
            invariant
                n == g.nloc(),
                g.wf(),
                na == g.n_agents(),
                l < n,
                l + 1 <= l2 <= n,
                out@ == mid + pair_lines_from(*g, l as int, l2 as nat),
            decreases n - l2,
        {
            let ghost mid2 = out@;
            let mut ags: Vec<char> = Vec::new();
            let mut some: bool = false;
            let mut i: usize = 0;
            while i < na
                invariant
                    n == g.nloc(),
                    g.wf(),
                    na == g.n_agents(),
                    l < n,
                    l2 < n,
                    i <= na,
                    ags@ == joined(shared_agents(*g, l as int, l2 as int, i as nat), ","@),
                    some == (shared_agents(*g, l as int, l2 as int, i as nat).len() > 0),
                decreases na - i,
            {
                proof {
                    assert(g.loc@[l as int].obs@.len() == g.n_agents());
                    assert(g.loc@[l2 as int].obs@.len() == g.n_agents());
                }
                if g.loc[l].obs[i].0 == g.loc[l2].obs[i].0 {
                    let ghost m6 = ags@;
                    if some {
                        push_str(&mut ags, ",");
                    }
                    push_decimal(&mut ags, i);
                    proof {
                        lemma_join_step(Seq::empty(), shared_agents(*g, l as int, l2 as int, i as nat), ","@,
                            decimal(i as nat), m6, ags@);
                        assert(Seq::<char>::empty() + joined(shared_agents(*g, l as int, l2 as int, i as nat), ","@) =~= m6);
                        assert(Seq::<char>::empty() + joined(shared_agents(*g, l as int, l2 as int, (i + 1) as nat), ","@) =~= ags@);
                    }
                    some = true;
                }
                i = i + 1;
            }
            if some {
                push_str(&mut out, "    \\draw (");
                push_decimal(&mut out, l);
                push_str(&mut out, ") edge[obs] node{\\textasciitilde ");
                push_all(&mut out, ags.as_slice());
                push_str(&mut out, "} (");
                push_decimal(&mut out, l2);
                push_str(&mut out, ");\n");
            }
            proof {
                assert(out@ =~= mid2 + pair_line(*g, l as int, l2 as int));
            }
            l2 = l2 + 1;
        }
        proof {
            assert(out@ =~= mid + pair_lines_from(*g, l as int, g.nloc()));
        }
        l = l + 1;
    }
    push_str(&mut out, "\n  \\end{tikzpicture}\n  \\caption{Game}\n  \\label{fig:game}\n\\end{figure}\n");
    proof {
        assert(out@ =~= tikz_text(*g, nv, gv));
    }
    let r = string_from_chars(&out);
    proof {
        assert(grouping(*g, groups@));
    }
    r
}

} // verus!
