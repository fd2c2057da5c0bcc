//! The text format of games: a sequence of statements
//!
//! ```text
//! agt: A, B          act: a, b          loc: l0, l1, l2
//! reach: l2          l0: l0
//! obs A: l0 | l1, l2
//! delta: l0 (a a, b b) (l1, l2), l1 (a b) l2
//! ```
//!
//! Keywords match regardless of ASCII case; names are runs of alphanumeric
//! characters; whitespace may follow every token. In a transition, each
//! part may list alternatives in parentheses, and the transitions are all
//! the combinations, by source, then actions, then target.

use vstd::prelude::*;
use crate::symbol::{Symbol, intern};
use crate::io_game::{Statement, sym_views, copy_symbols};

verus! {

/// `char::is_alphanumeric`: alphabetic or numeric in the Unicode sense.
pub uninterp spec fn alnum(c: char) -> bool;

/// `char::is_alphanumeric`.
#[verifier::external_body]
fn is_alphanumeric(c: char) -> (r: bool)
    ensures r == alnum(c),
{
    c.is_alphanumeric()
}

/// The characters of `s`.
pub fn chars_of(s: &str) -> (r: Vec<char>)
    ensures r@ == s@,
{
    let mut r: Vec<char> = Vec::new();
    for c in it: s.chars()
        invariant
            it.seq() == s@,
            r@ == s@.take(it.index() as int),
    {
        r.push(c);
        assert(r@ =~= s@.take(it.index() as int + 1));
    }
    assert(r@ =~= s@);
    r
}

pub open spec fn is_space(c: char) -> bool {
    c == ' ' || c == '\t' || c == '\r' || c == '\n'
}

/// The position after the whitespace starting at `i`.
pub open spec fn g_skip(s: Seq<char>, i: int) -> int
    decreases s.len() - i,
{
    if 0 <= i < s.len() && is_space(s[i]) {
        g_skip(s, i + 1)
    } else {
        i
    }
}

/// The position after the alphanumeric characters starting at `i`.
pub open spec fn g_alnum_end(s: Seq<char>, i: int) -> int
    decreases s.len() - i,
{
    if 0 <= i < s.len() && alnum(s[i]) {
        g_alnum_end(s, i + 1)
    } else {
        i
    }
}

/// A name and the whitespace after it.
pub open spec fn g_name(s: Seq<char>, i: int) -> Option<(Seq<char>, int)> {
    let j = g_alnum_end(s, i);
    if j == i {
        None
    } else {
        Some((s.subrange(i, j), g_skip(s, j)))
    }
}

/// The character `c` and the whitespace after it.
pub open spec fn g_token(s: Seq<char>, i: int, c: char) -> Option<int> {
    if 0 <= i < s.len() && s[i] == c {
        Some(g_skip(s, i + 1))
    } else {
        None
    }
}

/// `c` is `k`, or its ASCII capital.
pub open spec fn same_letter(c: char, k: char) -> bool {
    c == k || ('A' <= c <= 'Z' && c as u32 + 32 == k as u32)
}

/// The lower-case word `kw`, in any ASCII case.
pub open spec fn g_tag(s: Seq<char>, i: int, kw: Seq<char>) -> Option<int> {
    if 0 <= i && i + kw.len() <= s.len() && forall|k: int| 0 <= k < kw.len() ==> same_letter(#[trigger] s[i + k], kw[k]) {
        Some(i + kw.len())
    } else {
        None
    }
}

/// A keyword followed by a colon.
pub open spec fn g_keyword(s: Seq<char>, i: int, kw: Seq<char>) -> Option<int> {
    match g_tag(s, i, kw) {
        None => None,
        Some(j) => g_token(s, g_skip(s, j), ':'),
    }
}

/// Names separated by `sep`, from the one parsed up to `pos`.
pub open spec fn g_names_tail(s: Seq<char>, pos: int, acc: Seq<Seq<char>>, sep: char) -> (Seq<Seq<char>>, int)
    decreases s.len() - pos,
{
    match g_token(s, pos, sep) {
        None => (acc, pos),
        Some(k) => match g_name(s, k) {
            None => (acc, pos),
            Some((y, m)) => if pos < m <= s.len() { g_names_tail(s, m, acc.push(y), sep) } else { (acc, pos) },
        },
    }
}

/// Zero or more names separated by `sep`.
pub open spec fn g_names(s: Seq<char>, i: int, sep: char) -> (Seq<Seq<char>>, int) {
    match g_name(s, i) {
        None => (Seq::empty(), i),
        Some((x, j)) => g_names_tail(s, j, seq![x], sep),
    }
}

/// Groups of names separated by `|`, the groups separated by commas.
pub open spec fn g_groups_tail(s: Seq<char>, pos: int, acc: Seq<Seq<Seq<char>>>) -> (Seq<Seq<Seq<char>>>, int)
    decreases s.len() - pos,
{
    match g_token(s, pos, ',') {
        None => (acc, pos),
        Some(k) => {
            let (y, m) = g_names(s, k, '|');
            if pos < m <= s.len() { g_groups_tail(s, m, acc.push(y)) } else { (acc, pos) }
        },
    }
}

pub open spec fn g_groups(s: Seq<char>, i: int) -> (Seq<Seq<Seq<char>>>, int) {
    let (x, j) = g_names(s, i, '|');
    g_groups_tail(s, j, seq![x])
}

/// One or more names.
pub open spec fn g_many_tail(s: Seq<char>, pos: int, acc: Seq<Seq<char>>) -> (Seq<Seq<char>>, int)
    decreases s.len() - pos,
{
    match g_name(s, pos) {
        None => (acc, pos),
        Some((y, m)) => if pos < m <= s.len() { g_many_tail(s, m, acc.push(y)) } else { (acc, pos) },
    }
}

pub open spec fn g_many(s: Seq<char>, i: int) -> Option<(Seq<Seq<char>>, int)> {
    match g_name(s, i) {
        None => None,
        Some((x, j)) => Some(g_many_tail(s, j, seq![x])),
    }
}

/// Action lists separated by commas.
pub open spec fn g_acts_tail(s: Seq<char>, pos: int, acc: Seq<Seq<Seq<char>>>) -> (Seq<Seq<Seq<char>>>, int)
    decreases s.len() - pos,
{
    match g_token(s, pos, ',') {
        None => (acc, pos),
        Some(k) => match g_many(s, k) {
            None => (acc, pos),
            Some((y, m)) => if pos < m <= s.len() { g_acts_tail(s, m, acc.push(y)) } else { (acc, pos) },
        },
    }
}

pub open spec fn g_acts_list(s: Seq<char>, i: int) -> (Seq<Seq<Seq<char>>>, int) {
    match g_many(s, i) {
        None => (Seq::empty(), i),
        Some((x, j)) => g_acts_tail(s, j, seq![x]),
    }
}

/// The locations of one part of a transition: a name, or names in
/// parentheses.
pub open spec fn g_loc_entry(s: Seq<char>, i: int) -> Option<(Seq<Seq<char>>, int)> {
    match g_name(s, i) {
        Some((x, j)) => Some((seq![x], j)),
        None => match g_token(s, i, '(') {
            None => None,
            Some(j) => {
                let (l, k) = g_names(s, j, ',');
                match g_token(s, k, ')') {
                    None => None,
                    Some(m) => Some((l, m)),
                }
            },
        },
    }
}

/// The action choices of a transition, in parentheses.
pub open spec fn g_act_entry(s: Seq<char>, i: int) -> Option<(Seq<Seq<Seq<char>>>, int)> {
    match g_token(s, i, '(') {
        None => None,
        Some(j) => {
            let (l, k) = g_acts_list(s, j);
            match g_token(s, k, ')') {
                None => None,
                Some(m) => Some((l, m)),
            }
        },
    }
}

/// A transition entry: sources, action choices and targets.
pub type EntryView = (Seq<Seq<char>>, Seq<Seq<Seq<char>>>, Seq<Seq<char>>);

pub open spec fn g_entry(s: Seq<char>, i: int) -> Option<(EntryView, int)> {
    match g_loc_entry(s, i) {
        None => None,
        Some((l, j)) => match g_act_entry(s, j) {
            None => None,
            Some((a, k)) => match g_loc_entry(s, k) {
                None => None,
                Some((l2, m)) => Some(((l, a, l2), m)),
            },
        },
    }
}

pub type TransView = (Seq<char>, Seq<Seq<char>>, Seq<char>);

/// The transitions `(l, a, l2)` for `l2` in `ts`.
pub open spec fn prod_targets(l: Seq<char>, a: Seq<Seq<char>>, ts: Seq<Seq<char>>) -> Seq<TransView>
    decreases ts.len(),
{
    if ts.len() == 0 { Seq::empty() } else { prod_targets(l, a, ts.drop_last()).push((l, a, ts.last())) }
}

pub open spec fn prod_acts(l: Seq<char>, as_: Seq<Seq<Seq<char>>>, ts: Seq<Seq<char>>) -> Seq<TransView>
    decreases as_.len(),
{
    if as_.len() == 0 { Seq::empty() } else { prod_acts(l, as_.drop_last(), ts) + prod_targets(l, as_.last(), ts) }
}

/// All combinations of an entry, by source, then actions, then target.
pub open spec fn prod_entry(ls: Seq<Seq<char>>, as_: Seq<Seq<Seq<char>>>, ts: Seq<Seq<char>>) -> Seq<TransView>
    decreases ls.len(),
{
    if ls.len() == 0 { Seq::empty() } else { prod_entry(ls.drop_last(), as_, ts) + prod_acts(ls.last(), as_, ts) }
}

/// Further entries of a `delta` statement, each after a comma; fails on a
/// comma not followed by an entry.
pub open spec fn g_delta_tail(s: Seq<char>, pos: int, acc: Seq<TransView>) -> Option<(Seq<TransView>, int)>
    decreases s.len() - pos,
{
    if !(0 <= pos < s.len() && s[pos] == ',') {
        Some((acc, pos))
    } else {
        let k = g_skip(s, pos + 1);
        match g_entry(s, k) {
            None => None,
            Some((e, m)) => if pos < m <= s.len() { g_delta_tail(s, m, acc + prod_entry(e.0, e.1, e.2)) } else { None },
        }
    }
}

/// The spec form of a statement.
pub enum StatementView {
    Agt(Seq<Seq<char>>),
    Act(Seq<Seq<char>>),
    Loc(Seq<Seq<char>>),
    Reach(Seq<Seq<char>>),
    L0(Seq<char>),
    Obs(Seq<char>, Seq<Seq<Seq<char>>>),
    Delta(Seq<TransView>),
}

pub open spec fn kw_agt() -> Seq<char> { seq!['a', 'g', 't'] }
pub open spec fn kw_act() -> Seq<char> { seq!['a', 'c', 't'] }
pub open spec fn kw_loc() -> Seq<char> { seq!['l', 'o', 'c'] }
pub open spec fn kw_reach() -> Seq<char> { seq!['r', 'e', 'a', 'c', 'h'] }
pub open spec fn kw_l0() -> Seq<char> { seq!['l', '0'] }
pub open spec fn kw_obs() -> Seq<char> { seq!['o', 'b', 's'] }
pub open spec fn kw_delta() -> Seq<char> { seq!['d', 'e', 'l', 't', 'a'] }

pub open spec fn g_list_stmt(s: Seq<char>, i: int, kw: Seq<char>) -> Option<(Seq<Seq<char>>, int)> {
    match g_keyword(s, i, kw) {
        None => None,
        Some(j) => Some(g_names(s, j, ',')),
    }
}

pub open spec fn g_obs_stmt(s: Seq<char>, i: int) -> Option<((Seq<char>, Seq<Seq<Seq<char>>>), int)> {
    match g_tag(s, i, kw_obs()) {
        None => None,
        Some(j) => match g_name(s, g_skip(s, j)) {
            None => None,
            Some((a, k)) => match g_token(s, k, ':') {
                None => None,
                Some(m) => {
                    let (gs, e) = g_groups(s, m);
                    Some(((a, gs), e))
                },
            },
        },
    }
}

pub open spec fn g_delta_stmt(s: Seq<char>, i: int) -> Option<(Seq<TransView>, int)> {
    match g_keyword(s, i, kw_delta()) {
        None => None,
        Some(j) => match g_entry(s, j) {
            None => None,
            Some((e, k)) => if j < k <= s.len() { g_delta_tail(s, k, prod_entry(e.0, e.1, e.2)) } else { None },
        },
    }
}

/// One statement: the first kind that parses.
pub open spec fn g_statement(s: Seq<char>, i: int) -> Option<(StatementView, int)> {
    match g_list_stmt(s, i, kw_agt()) {
        Some((l, j)) => Some((StatementView::Agt(l), j)),
        None => match g_list_stmt(s, i, kw_act()) {
            Some((l, j)) => Some((StatementView::Act(l), j)),
            None => match g_list_stmt(s, i, kw_loc()) {
                Some((l, j)) => Some((StatementView::Loc(l), j)),
                None => match g_list_stmt(s, i, kw_reach()) {
                    Some((l, j)) => Some((StatementView::Reach(l), j)),
                    None => match g_keyword(s, i, kw_l0()) {
                        Some(j) => match g_name(s, j) {
                            Some((x, k)) => Some((StatementView::L0(x), k)),
                            None => g_statement_rest(s, i),
                        },
                        None => g_statement_rest(s, i),
                    },
                },
            },
        },
    }
}

pub open spec fn g_statement_rest(s: Seq<char>, i: int) -> Option<(StatementView, int)> {
    match g_obs_stmt(s, i) {
        Some(((a, gs), j)) => Some((StatementView::Obs(a, gs), j)),
        None => match g_delta_stmt(s, i) {
            Some((d, j)) => Some((StatementView::Delta(d), j)),
            None => None,
        },
    }
}

/// Statements from `pos` on, as many as parse.
pub open spec fn g_statements_tail(s: Seq<char>, pos: int, acc: Seq<StatementView>) -> (Seq<StatementView>, int)
    decreases s.len() - pos,
{
    match g_statement(s, pos) {
        None => (acc, pos),
        Some((st, m)) => if pos < m <= s.len() { g_statements_tail(s, m, acc.push(st)) } else { (acc, pos) },
    }
}

/// A whole file: whitespace, one or more statements, and nothing else.
/// On failure, the position where parsing stopped.
pub open spec fn g_file(s: Seq<char>) -> Result<Seq<StatementView>, int> {
    let i = g_skip(s, 0);
    match g_statement(s, i) {
        None => Err(i),
        Some((st, j)) => {
            let (sts, e) = if i < j <= s.len() { g_statements_tail(s, j, seq![st]) } else { (seq![st], j) };
            if e == s.len() { Ok(sts) } else { Err(e) }
        },
    }
}


/// The spec form of a statement.
pub open spec fn stmt_view(st: Statement) -> StatementView {
    match st {
        Statement::Agt(l) => StatementView::Agt(sym_views(l@)),
        Statement::Act(l) => StatementView::Act(sym_views(l@)),
        Statement::Loc(l) => StatementView::Loc(sym_views(l@)),
        Statement::Reach(l) => StatementView::Reach(sym_views(l@)),
        Statement::L0(x) => StatementView::L0(x@),
        Statement::Obs(a, gs) => StatementView::Obs(a@, groups_view(gs@)),
        Statement::Delta(list) => StatementView::Delta(trans_view(list@)),
    }
}

pub open spec fn groups_view(gs: Seq<Vec<Symbol>>) -> Seq<Seq<Seq<char>>> {
    gs.map_values(|g: Vec<Symbol>| sym_views(g@))
}

pub open spec fn trans_view(list: Seq<(Symbol, Vec<Symbol>, Symbol)>) -> Seq<TransView> {
    list.map_values(|e: (Symbol, Vec<Symbol>, Symbol)| (e.0@, sym_views(e.1@), e.2@))
}

fn skip(s: &Vec<char>, i: usize) -> (r: usize)
    requires i <= s@.len(),
    ensures r == g_skip(s@, i as int), i <= r <= s@.len(),
{
    let mut j = i;
    while j < s.len() && (s[j] == ' ' || s[j] == '\t' || s[j] == '\r' || s[j] == '\n')
        invariant
            i <= j <= s@.len(),
            g_skip(s@, j as int) == g_skip(s@, i as int),
        decreases s@.len() - j,
    {
        j = j + 1;
    }
    j
}

fn alnum_end(s: &Vec<char>, i: usize) -> (r: usize)
    requires i <= s@.len(),
    ensures r == g_alnum_end(s@, i as int), i <= r <= s@.len(),
{
    let mut j = i;
    while j < s.len() && is_alphanumeric(s[j])
        invariant
            i <= j <= s@.len(),
            g_alnum_end(s@, j as int) == g_alnum_end(s@, i as int),
        decreases s@.len() - j,
    {
        j = j + 1;
    }
    j
}

fn name(s: &Vec<char>, i: usize) -> (r: Option<(Symbol, usize)>)
    requires i <= s@.len(),
    ensures
        match r {
            None => g_name(s@, i as int) is None,
            Some((x, j)) => g_name(s@, i as int) == Some((x@, j as int)) && i < j <= s@.len(),
        },
{
    let j = alnum_end(s, i);
    if j == i {
        return None;
    }
    let mut v: Vec<char> = Vec::new();
    let mut k = i;
    while k < j
        invariant
            i <= k <= j <= s@.len(),
            v@ == s@.subrange(i as int, k as int),
        decreases j - k,
    {
        v.push(s[k]);
        k = k + 1;
        assert(v@ =~= s@.subrange(i as int, k as int));
    }
    let x = crate::symbol::symbol_from_chars(&v);
    let e = skip(s, j);
    Some((x, e))
}

fn token(s: &Vec<char>, i: usize, c: char) -> (r: Option<usize>)
    requires i <= s@.len(),
    ensures
        match r {
            None => g_token(s@, i as int, c) is None,
            Some(j) => g_token(s@, i as int, c) == Some(j as int) && i < j <= s@.len(),
        },
{
    if i < s.len() && s[i] == c {
        Some(skip(s, i + 1))
    } else {
        None
    }
}

fn tag(s: &Vec<char>, i: usize, kw: &[char]) -> (r: Option<usize>)
    requires
        i <= s@.len(),
        forall|k: int| 0 <= k < kw@.len() ==> 'a' <= #[trigger] kw@[k] <= 'z' || '0' <= kw@[k] <= '9',
    ensures
        match r {
            None => g_tag(s@, i as int, kw@) is None,
            Some(j) => g_tag(s@, i as int, kw@) == Some(j as int) && i <= j <= s@.len(),
        },
{
    if kw.len() > s.len() - i {
        return None;
    }
    let n = s.len();
    let mut k: usize = 0;
    while k < kw.len()
        invariant
            n == s@.len(),
            i + kw@.len() <= s@.len(),
            k <= kw@.len(),
            forall|q: int| 0 <= q < k ==> same_letter(#[trigger] s@[i + q], kw@[q]),
        decreases kw@.len() - k,
    {
        assert(i + k < s@.len());
        let c = s[i + k];
        let w = kw[k];
        let up = ('A' <= c && c <= 'Z' && (c as u32) + 32 == (w as u32));
        if !(c == w || up) {
            return None;
        }
        k = k + 1;
    }
    Some(i + kw.len())
}

fn keyword(s: &Vec<char>, i: usize, kw: &[char]) -> (r: Option<usize>)
    requires
        i <= s@.len(),
        forall|k: int| 0 <= k < kw@.len() ==> 'a' <= #[trigger] kw@[k] <= 'z' || '0' <= kw@[k] <= '9',
    ensures
        match r {
            None => g_keyword(s@, i as int, kw@) is None,
            Some(j) => g_keyword(s@, i as int, kw@) == Some(j as int) && i < j <= s@.len(),
        },
{
    match tag(s, i, kw) {
        None => None,
        Some(j) => {
            let k = skip(s, j);
            token(s, k, ':')
        },
    }
}

fn names(s: &Vec<char>, i: usize, sep: char) -> (r: (Vec<Symbol>, usize))
    requires i <= s@.len(),
    ensures
        g_names(s@, i as int, sep) == (sym_views(r.0@), r.1 as int),
        i <= r.1 <= s@.len(),
{
    match name(s, i) {
        None => {
            let v: Vec<Symbol> = Vec::new();
            assert(sym_views(v@) =~= Seq::<Seq<char>>::empty());
            (v, i)
        },
        Some((x, j)) => {
            let ghost target = g_names_tail(s@, j as int, seq![x@], sep);
            let mut acc: Vec<Symbol> = Vec::new();
            acc.push(x);
            assert(sym_views(acc@) =~= seq![x@]);
            let mut pos = j;
            loop
                invariant
                    i < pos <= s@.len(),
                    g_names_tail(s@, pos as int, sym_views(acc@), sep) == target,
                    target == g_names(s@, i as int, sep),
                decreases s@.len() - pos,
            {
                match token(s, pos, sep) {
                    None => return (acc, pos),
                    Some(k) => match name(s, k) {
                        None => return (acc, pos),
                        Some((y, m)) => {
                            let ghost before = acc@;
                            acc.push(y);
                            proof {
                                assert(sym_views(acc@) =~= sym_views(before).push(y@));
                            }
                            pos = m;
                        },
                    },
                }
            }
        },
    }
}

fn groups(s: &Vec<char>, i: usize) -> (r: (Vec<Vec<Symbol>>, usize))
    requires i <= s@.len(),
    ensures
        g_groups(s@, i as int) == (groups_view(r.0@), r.1 as int),
        i <= r.1 <= s@.len(),
{
    let (x, j) = names(s, i, '|');
    let ghost target = g_groups_tail(s@, j as int, seq![sym_views(x@)]);
    assert(target == g_groups(s@, i as int));
    let mut acc: Vec<Vec<Symbol>> = Vec::new();
    acc.push(x);
    assert(groups_view(acc@) =~= seq![sym_views(acc@[0]@)]);
    let mut pos = j;
    loop
        invariant
            i <= pos <= s@.len(),
            g_groups_tail(s@, pos as int, groups_view(acc@)) == target,
            target == g_groups(s@, i as int),
        decreases s@.len() - pos,
    {
        match token(s, pos, ',') {
            None => return (acc, pos),
            Some(k) => {
                let (y, m) = names(s, k, '|');
                let ghost before = acc@;
                let ghost yv = sym_views(y@);
                acc.push(y);
                proof {
                    assert(groups_view(acc@) =~= groups_view(before).push(yv));
                }
                pos = m;
            },
        }
    }
}

fn many(s: &Vec<char>, i: usize) -> (r: Option<(Vec<Symbol>, usize)>)
    requires i <= s@.len(),
    ensures
        match r {
            None => g_many(s@, i as int) is None,
            Some((x, j)) => g_many(s@, i as int) == Some((sym_views(x@), j as int)) && i < j <= s@.len(),
        },
{
    match name(s, i) {
        None => None,
        Some((x, j)) => {
            let ghost target = g_many_tail(s@, j as int, seq![x@]);
            let mut acc: Vec<Symbol> = Vec::new();
            acc.push(x);
            assert(sym_views(acc@) =~= seq![x@]);
            let mut pos = j;
            loop
                invariant
                    i < pos <= s@.len(),
                    g_many_tail(s@, pos as int, sym_views(acc@)) == target,
                    g_many(s@, i as int) == Some(target),
                decreases s@.len() - pos,
            {
                match name(s, pos) {
                    None => return Some((acc, pos)),
                    Some((y, m)) => {
                        let ghost before = acc@;
                        acc.push(y);
                        proof {
                            assert(sym_views(acc@) =~= sym_views(before).push(y@));
                        }
                        pos = m;
                    },
                }
            }
        },
    }
}

fn acts_list(s: &Vec<char>, i: usize) -> (r: (Vec<Vec<Symbol>>, usize))
    requires i <= s@.len(),
    ensures
        g_acts_list(s@, i as int) == (groups_view(r.0@), r.1 as int),
        i <= r.1 <= s@.len(),
{
    match many(s, i) {
        None => {
            let v: Vec<Vec<Symbol>> = Vec::new();
            assert(groups_view(v@) =~= Seq::<Seq<Seq<char>>>::empty());
            (v, i)
        },
        Some((x, j)) => {
            let ghost target = g_acts_tail(s@, j as int, seq![sym_views(x@)]);
            let mut acc: Vec<Vec<Symbol>> = Vec::new();
            acc.push(x);
            assert(groups_view(acc@) =~= seq![sym_views(acc@[0]@)]);
            let mut pos = j;
            loop
                invariant
                    i < pos <= s@.len(),
                    g_acts_tail(s@, pos as int, groups_view(acc@)) == target,
                    target == g_acts_list(s@, i as int),
                decreases s@.len() - pos,
            {
                match token(s, pos, ',') {
                    None => return (acc, pos),
                    Some(k) => match many(s, k) {
                        None => return (acc, pos),
                        Some((y, m)) => {
                            let ghost before = acc@;
                            let ghost yv = sym_views(y@);
                            acc.push(y);
                            proof {
                                assert(groups_view(acc@) =~= groups_view(before).push(yv));
                            }
                            pos = m;
                        },
                    },
                }
            }
        },
    }
}

fn loc_entry(s: &Vec<char>, i: usize) -> (r: Option<(Vec<Symbol>, usize)>)
    requires i <= s@.len(),
    ensures
        match r {
            None => g_loc_entry(s@, i as int) is None,
            Some((x, j)) => g_loc_entry(s@, i as int) == Some((sym_views(x@), j as int)) && i < j <= s@.len(),
        },
{
    match name(s, i) {
        Some((x, j)) => {
            let mut v: Vec<Symbol> = Vec::new();
            let ghost xv = x@;
            v.push(x);
            assert(sym_views(v@) =~= seq![xv]);
            Some((v, j))
        },
        None => match token(s, i, '(') {
            None => None,
            Some(j) => {
                let (l, k) = names(s, j, ',');
                match token(s, k, ')') {
                    None => None,
                    Some(m) => Some((l, m)),
                }
            },
        },
    }
}

fn act_entry(s: &Vec<char>, i: usize) -> (r: Option<(Vec<Vec<Symbol>>, usize)>)
    requires i <= s@.len(),
    ensures
        match r {
            None => g_act_entry(s@, i as int) is None,
            Some((x, j)) => g_act_entry(s@, i as int) == Some((groups_view(x@), j as int)) && i < j <= s@.len(),
        },
{
    match token(s, i, '(') {
        None => None,
        Some(j) => {
            let (l, k) = acts_list(s, j);
            match token(s, k, ')') {
                None => None,
                Some(m) => Some((l, m)),
            }
        },
    }
}


fn entry(s: &Vec<char>, i: usize) -> (r: Option<((Vec<Symbol>, Vec<Vec<Symbol>>, Vec<Symbol>), usize)>)
    requires i <= s@.len(),
    ensures
        match r {
            None => g_entry(s@, i as int) is None,
            Some((e, j)) => g_entry(s@, i as int) == Some(((sym_views(e.0@), groups_view(e.1@), sym_views(e.2@)), j as int))
                && i < j <= s@.len(),
        },
{
    match loc_entry(s, i) {
        None => None,
        Some((l, j)) => match act_entry(s, j) {
            None => None,
            Some((a, k)) => match loc_entry(s, k) {
                None => None,
                Some((l2, m)) => Some(((l, a, l2), m)),
            },
        },
    }
}

/// Appends all the transitions of an entry.
fn push_entry(out: &mut Vec<(Symbol, Vec<Symbol>, Symbol)>, ls: &Vec<Symbol>, as_: &Vec<Vec<Symbol>>, ts: &Vec<Symbol>)
    ensures
        trans_view(final(out)@) == trans_view(old(out)@) + prod_entry(sym_views(ls@), groups_view(as_@), sym_views(ts@)),
{
    let ghost base = trans_view(out@);
    let ghost lv = sym_views(ls@);
    let ghost av = groups_view(as_@);
    let ghost tv = sym_views(ts@);
    let mut li: usize = 0;
    while li < ls.len()
        invariant
            base == trans_view(old(out)@),
            lv == sym_views(ls@),
            av == groups_view(as_@),
            tv == sym_views(ts@),
            li <= ls@.len(),
            trans_view(out@) == base + prod_entry(lv.subrange(0, li as int), av, tv),
        decreases ls@.len() - li,
    {
        let ghost b1 = trans_view(out@);
        let ghost l = lv[li as int];
        let mut ai: usize = 0;
        while ai < as_.len()
            invariant
                av == groups_view(as_@),
                tv == sym_views(ts@),
                li < ls@.len(),
                l == sym_views(ls@)[li as int],
                ai <= as_@.len(),
                trans_view(out@) == b1 + prod_acts(l, av.subrange(0, ai as int), tv),
            decreases as_@.len() - ai,
        {
            let ghost b2 = trans_view(out@);
            let ghost a = av[ai as int];
            let mut ti: usize = 0;
            while ti < ts.len()
                invariant
                    tv == sym_views(ts@),
                    li < ls@.len(),
                    ai < as_@.len(),
                    l == sym_views(ls@)[li as int],
                    a == groups_view(as_@)[ai as int],
                    ti <= ts@.len(),
                    trans_view(out@) == b2 + prod_targets(l, a, tv.subrange(0, ti as int)),
                decreases ts@.len() - ti,
            {
                let ghost before = out@;
                let src = ls[li].copy();
                let acts = copy_symbols(&as_[ai]);
                let tgt = ts[ti].copy();
                out.push((src, acts, tgt));
                proof {
                    let t1 = tv.subrange(0, ti as int + 1);
                    assert(t1.drop_last() =~= tv.subrange(0, ti as int));
                    assert(t1.last() == tv[ti as int]);
                    assert(sym_views(ls@)[li as int] == ls@[li as int]@);
                    assert(groups_view(as_@)[ai as int] == sym_views(as_@[ai as int]@));
                    assert(sym_views(ts@)[ti as int] == ts@[ti as int]@);
                    assert(trans_view(out@) =~= trans_view(before).push((l, a, tv[ti as int])));
                }
                ti = ti + 1;
            }
            proof {
                assert(tv.subrange(0, ts@.len() as int) =~= tv);
                let a1 = av.subrange(0, ai as int + 1);
                assert(a1.drop_last() =~= av.subrange(0, ai as int));
                assert(a1.last() == a);
            }
            ai = ai + 1;
        }
        proof {
            assert(av.subrange(0, as_@.len() as int) =~= av);
            let l1 = lv.subrange(0, li as int + 1);
            assert(l1.drop_last() =~= lv.subrange(0, li as int));
            assert(l1.last() == l);
        }
        li = li + 1;
    }
    assert(lv.subrange(0, ls@.len() as int) =~= lv);
}

fn delta_stmt(s: &Vec<char>, i: usize) -> (r: Option<(Vec<(Symbol, Vec<Symbol>, Symbol)>, usize)>)
    requires i <= s@.len(),
    ensures
        match r {
            None => g_delta_stmt(s@, i as int) is None,
            Some((d, j)) => g_delta_stmt(s@, i as int) == Some((trans_view(d@), j as int)) && i < j <= s@.len(),
        },
{
    let kw = ['d', 'e', 'l', 't', 'a'];
    assert(kw@ =~= kw_delta());
    let j = match keyword(s, i, &kw) {
        None => return None,
        Some(j) => j,
    };
    let (e, k) = match entry(s, j) {
        None => return None,
        Some(x) => x,
    };
    let mut acc: Vec<(Symbol, Vec<Symbol>, Symbol)> = Vec::new();
    proof {
        assert(trans_view(acc@) =~= Seq::<TransView>::empty());
    }
    push_entry(&mut acc, &e.0, &e.1, &e.2);
    proof {
        assert(Seq::<TransView>::empty() + prod_entry(sym_views(e.0@), groups_view(e.1@), sym_views(e.2@))
            =~= prod_entry(sym_views(e.0@), groups_view(e.1@), sym_views(e.2@)));
    }
    let ghost target = g_delta_tail(s@, k as int, trans_view(acc@));
    let mut pos = k;
    while pos < s.len() && s[pos] == ','
        invariant
            i < pos <= s@.len(),
            g_delta_tail(s@, pos as int, trans_view(acc@)) == target,
            g_delta_stmt(s@, i as int) == target,
        decreases s@.len() - pos,
    {
        let kk = skip(s, pos + 1);
        match entry(s, kk) {
            None => return None,
            Some((e2, m)) => {
                push_entry(&mut acc, &e2.0, &e2.1, &e2.2);
                pos = m;
            },
        }
    }
    Some((acc, pos))
}

fn list_stmt(s: &Vec<char>, i: usize, kw: &[char]) -> (r: Option<(Vec<Symbol>, usize)>)
    requires
        i <= s@.len(),
        forall|k: int| 0 <= k < kw@.len() ==> 'a' <= #[trigger] kw@[k] <= 'z' || '0' <= kw@[k] <= '9',
    ensures
        match r {
            None => g_list_stmt(s@, i as int, kw@) is None,
            Some((l, j)) => g_list_stmt(s@, i as int, kw@) == Some((sym_views(l@), j as int)) && i < j <= s@.len(),
        },
{
    match keyword(s, i, kw) {
        None => None,
        Some(j) => {
            let (l, k) = names(s, j, ',');
            Some((l, k))
        },
    }
}

fn obs_stmt(s: &Vec<char>, i: usize) -> (r: Option<((Symbol, Vec<Vec<Symbol>>), usize)>)
    requires i <= s@.len(),
    ensures
        match r {
            None => g_obs_stmt(s@, i as int) is None,
            Some(((a, gs), j)) => g_obs_stmt(s@, i as int) == Some(((a@, groups_view(gs@)), j as int)) && i < j <= s@.len(),
        },
{
    let kw = ['o', 'b', 's'];
    assert(kw@ =~= kw_obs());
    match tag(s, i, &kw) {
        None => None,
        Some(j) => {
            let j2 = skip(s, j);
            match name(s, j2) {
                None => None,
                Some((a, k)) => match token(s, k, ':') {
                    None => None,
                    Some(m) => {
                        let (gs, e) = groups(s, m);
                        Some(((a, gs), e))
                    },
                },
            }
        },
    }
}

fn statement(s: &Vec<char>, i: usize) -> (r: Option<(Statement, usize)>)
    requires i <= s@.len(),
    ensures
        match r {
            None => g_statement(s@, i as int) is None,
            Some((st, j)) => g_statement(s@, i as int) == Some((stmt_view(st), j as int)) && i < j <= s@.len(),
        },
{
    let k_agt = ['a', 'g', 't'];
    let k_act = ['a', 'c', 't'];
    let k_loc = ['l', 'o', 'c'];
    let k_reach = ['r', 'e', 'a', 'c', 'h'];
    let k_l0 = ['l', '0'];
    assert(k_agt@ =~= kw_agt());
    assert(k_act@ =~= kw_act());
    assert(k_loc@ =~= kw_loc());
    assert(k_reach@ =~= kw_reach());
    assert(k_l0@ =~= kw_l0());
    if let Some((l, j)) = list_stmt(s, i, &k_agt) {
        return Some((Statement::Agt(l), j));
    }
    if let Some((l, j)) = list_stmt(s, i, &k_act) {
        return Some((Statement::Act(l), j));
    }
    if let Some((l, j)) = list_stmt(s, i, &k_loc) {
        return Some((Statement::Loc(l), j));
    }
    if let Some((l, j)) = list_stmt(s, i, &k_reach) {
        return Some((Statement::Reach(l), j));
    }
    if let Some(j) = keyword(s, i, &k_l0) {
        if let Some((x, k)) = name(s, j) {
            return Some((Statement::L0(x), k));
        }
    }
    if let Some(((a, gs), j)) = obs_stmt(s, i) {
        return Some((Statement::Obs(a, gs), j));
    }
    if let Some((d, j)) = delta_stmt(s, i) {
        return Some((Statement::Delta(d), j));
    }
    None
}

pub open spec fn stmts_view(v: Seq<Statement>) -> Seq<StatementView> {
    v.map_values(|st: Statement| stmt_view(st))
}

/// Parses a game description; on failure, the position where parsing
/// stopped.
pub fn parse_chars(s: &Vec<char>) -> (r: Result<Vec<Statement>, usize>)
    ensures
        match r {
            Ok(v) => g_file(s@) == Ok::<Seq<StatementView>, int>(stmts_view(v@)),
            Err(p) => g_file(s@) == Err::<Seq<StatementView>, int>(p as int),
        },
{
    let i = skip(s, 0);
    let (st, j) = match statement(s, i) {
        None => return Err(i),
        Some(x) => x,
    };
    let mut acc: Vec<Statement> = Vec::new();
    let ghost sv = stmt_view(st);
    acc.push(st);
    assert(stmts_view(acc@) =~= seq![sv]);
    let ghost target = g_statements_tail(s@, j as int, seq![sv]);
    let mut pos = j;
    loop
        invariant
            i < pos <= s@.len(),
            g_statements_tail(s@, pos as int, stmts_view(acc@)) == target,
            g_file(s@) == (if target.1 == s@.len() { Ok::<Seq<StatementView>, int>(target.0) } else { Err(target.1) }),
        decreases s@.len() - pos,
    {
        match statement(s, pos) {
            None => {
                if pos == s.len() {
                    return Ok(acc);
                } else {
                    return Err(pos);
                }
            },
            Some((st2, m)) => {
                let ghost before = acc@;
                let ghost sv2 = stmt_view(st2);
                acc.push(st2);
                proof {
                    assert(stmts_view(acc@) =~= stmts_view(before).push(sv2));
                }
                pos = m;
            },
        }
    }
}

/// Parses a game description; on failure, the position (in characters)
/// where parsing stopped.
pub fn parse(input: &str) -> (r: Result<Vec<Statement>, usize>)
    ensures
        match r {
            Ok(v) => g_file(input@) == Ok::<Seq<StatementView>, int>(stmts_view(v@)),
            Err(p) => g_file(input@) == Err::<Seq<StatementView>, int>(p as int),
        },
{
    let s = chars_of(input);
    parse_chars(&s)
}

} // verus!
