//! Reading back what is written: the text the library writes for a
//! transition, and the observation groups of a game description, are read
//! by the text reader as the transition and the groups they describe.

use vstd::prelude::*;
use crate::types::Act;
use crate::parser::{alnum, is_space, g_skip, g_alnum_end, g_name, g_token, g_names, g_names_tail, g_groups,
    g_groups_tail, g_many, g_many_tail, g_acts_list, g_acts_tail, g_loc_entry, g_act_entry, g_entry, g_tag,
    g_obs_stmt, kw_obs, same_letter};
use crate::text::{joined, decimal, digit, profile_text, edge_text, edge_parts, game_text};
use crate::game::Game;

verus! {

/// How `char::is_alphanumeric` treats the characters the text format is
/// made of: the decimal digits are alphanumeric; whitespace and the marks
/// `, | ( ) :` are not.
pub open spec fn reader_chars() -> bool {
    &&& forall|d: nat| d < 10 ==> #[trigger] alnum(digit(d))
    &&& !alnum(' ') && !alnum('\t') && !alnum('\r') && !alnum('\n')
    &&& !alnum(',') && !alnum('|') && !alnum('(') && !alnum(')') && !alnum(':')
}

/// `w` is a name: one or more alphanumeric characters.
pub open spec fn is_word(w: Seq<char>) -> bool {
    w.len() > 0 && forall|k: int| 0 <= k < w.len() ==> #[trigger] alnum(w[k])
}

/// `s` holds `t` from position `i` on.
pub open spec fn holds_at(s: Seq<char>, i: int, t: Seq<char>) -> bool {
    0 <= i && i + t.len() <= s.len() && s.subrange(i, i + t.len()) == t
}

/// A name cannot go on at position `i`: the text ends there, or a
/// character follows that is neither alphanumeric nor whitespace.
pub open spec fn stops_at(s: Seq<char>, i: int) -> bool {
    i == s.len() || (0 <= i < s.len() && !alnum(s[i]) && !is_space(s[i]))
}

/// `ws`, each after `sep`.
pub open spec fn lead(ws: Seq<Seq<char>>, sep: Seq<char>) -> Seq<char>
    decreases ws.len(),
{
    if ws.len() == 0 {
        Seq::empty()
    } else {
        sep + ws[0] + lead(ws.drop_first(), sep)
    }
}

proof fn lemma_holds_char(s: Seq<char>, i: int, t: Seq<char>, k: int)
    requires
        holds_at(s, i, t),
        0 <= k < t.len(),
    ensures
        s[i + k] == t[k],
{
    assert(s.subrange(i, i + t.len())[k] == s[i + k]);
}

proof fn lemma_holds_cat(s: Seq<char>, i: int, a: Seq<char>, b: Seq<char>)
    requires
        holds_at(s, i, a + b),
    ensures
        holds_at(s, i, a),
        holds_at(s, i + a.len(), b),
{
    assert forall|k: int| 0 <= k < a.len() implies s.subrange(i, i + a.len())[k] == a[k] by {
        lemma_holds_char(s, i, a + b, k);
    }
    assert(s.subrange(i, i + a.len()) =~= a);
    assert forall|k: int| 0 <= k < b.len() implies s.subrange(i + a.len(), i + a.len() + b.len())[k] == b[k] by {
        lemma_holds_char(s, i, a + b, a.len() + k);
    }
    assert(s.subrange(i + a.len(), i + a.len() + b.len()) =~= b);
}

proof fn lemma_lead_push(ws: Seq<Seq<char>>, sep: Seq<char>, w: Seq<char>)
    ensures
        lead(ws.push(w), sep) == lead(ws, sep) + sep + w,
    decreases ws.len(),
{
    if ws.len() == 0 {
        assert(ws.push(w).drop_first() =~= Seq::<Seq<char>>::empty());
        assert(ws.push(w)[0] == w);
        assert(lead(Seq::<Seq<char>>::empty(), sep) == Seq::<char>::empty());
        assert(lead(ws, sep) == Seq::<char>::empty());
        assert(lead(ws.push(w), sep) =~= lead(ws, sep) + sep + w);
    } else {
        assert(ws.push(w).drop_first() =~= ws.drop_first().push(w));
        lemma_lead_push(ws.drop_first(), sep, w);
        assert(ws.push(w)[0] == ws[0]);
        assert(lead(ws.push(w), sep) == sep + ws[0] + lead(ws.drop_first().push(w), sep));
        assert(lead(ws.push(w), sep) =~= lead(ws, sep) + sep + w);
    }
}

/// `joined` read from the front: the first part, then each other after
/// the separator.
proof fn lemma_joined_front(ws: Seq<Seq<char>>, sep: Seq<char>)
    requires
        ws.len() > 0,
    ensures
        joined(ws, sep) == ws[0] + lead(ws.drop_first(), sep),
    decreases ws.len(),
{
    if ws.len() == 1 {
        assert(ws.drop_first() =~= Seq::<Seq<char>>::empty());
        assert(joined(ws, sep) =~= ws[0] + lead(ws.drop_first(), sep));
    } else {
        let d = ws.drop_last();
        lemma_joined_front(d, sep);
        assert(ws.drop_first() =~= d.drop_first().push(ws.last()));
        lemma_lead_push(d.drop_first(), sep, ws.last());
        assert(d[0] == ws[0]);
        assert(joined(ws, sep) =~= ws[0] + lead(ws.drop_first(), sep));
    }
}

proof fn lemma_alnum_end(s: Seq<char>, i: int, w: Seq<char>)
    requires
        holds_at(s, i, w),
        forall|k: int| 0 <= k < w.len() ==> #[trigger] alnum(w[k]),
        i + w.len() == s.len() || !alnum(s[i + w.len()]),
    ensures
        g_alnum_end(s, i) == i + w.len(),
    decreases w.len(),
{
    if w.len() > 0 {
        lemma_holds_char(s, i, w, 0);
        assert(w =~= seq![w[0]] + w.drop_first());
        lemma_holds_cat(s, i, seq![w[0]], w.drop_first());
        assert forall|k: int| 0 <= k < w.drop_first().len() implies #[trigger] alnum(w.drop_first()[k]) by {
            assert(w.drop_first()[k] == w[k + 1]);
        }
        lemma_alnum_end(s, i + 1, w.drop_first());
    }
}

proof fn lemma_skip_stop(s: Seq<char>, i: int)
    requires
        0 <= i,
        i >= s.len() || !is_space(s[i]),
    ensures
        g_skip(s, i) == i,
{
}

proof fn lemma_skip_one(s: Seq<char>, i: int)
    requires
        0 <= i < s.len(),
        is_space(s[i]),
        i + 1 >= s.len() || !is_space(s[i + 1]),
    ensures
        g_skip(s, i) == i + 1,
{
    lemma_skip_stop(s, i + 1);
}

/// A name followed by a character that cannot go on with it is read whole.
proof fn lemma_name(s: Seq<char>, i: int, w: Seq<char>)
    requires
        reader_chars(),
        is_word(w),
        holds_at(s, i, w),
        i + w.len() == s.len() || !alnum(s[i + w.len()]),
    ensures
        g_name(s, i) == Some((w, g_skip(s, i + w.len()))),
{
    lemma_alnum_end(s, i, w);
    assert(s.subrange(i, i + w.len()) == w);
}

/// The names `ws`, each after `sep`, are read by `g_names_tail` as they are.
proof fn lemma_names_tail(s: Seq<char>, pos: int, acc: Seq<Seq<char>>, sep: char, ws: Seq<Seq<char>>)
    requires
        reader_chars(),
        !alnum(sep),
        !is_space(sep),
        forall|k: int| 0 <= k < ws.len() ==> is_word(#[trigger] ws[k]),
        holds_at(s, pos, lead(ws, seq![sep])),
        stops_at(s, pos + lead(ws, seq![sep]).len()),
        pos + lead(ws, seq![sep]).len() < s.len() ==> s[pos + lead(ws, seq![sep]).len()] != sep,
    ensures
        g_names_tail(s, pos, acc, sep) == (acc + ws, pos + lead(ws, seq![sep]).len()),
    decreases ws.len(),
{
    if ws.len() == 0 {
        assert(acc + ws =~= acc);
    } else {
        let w = ws[0];
        let rest = ws.drop_first();
        let r = lead(rest, seq![sep]);
        assert(lead(ws, seq![sep]) == seq![sep] + w + r);
        lemma_holds_cat(s, pos, seq![sep] + w, r);
        lemma_holds_cat(s, pos, seq![sep], w);
        lemma_holds_char(s, pos, seq![sep], 0);
        assert(is_word(w));
        lemma_holds_char(s, pos + 1, w, 0);
        lemma_skip_stop(s, pos + 1);
        let j = pos + 1 + w.len();
        if rest.len() > 0 {
            assert(r == seq![sep] + rest[0] + lead(rest.drop_first(), seq![sep]));
            assert(r =~= seq![sep] + (rest[0] + lead(rest.drop_first(), seq![sep])));
            lemma_holds_cat(s, j, seq![sep], rest[0] + lead(rest.drop_first(), seq![sep]));
            lemma_holds_char(s, j, seq![sep], 0);
        }
        lemma_name(s, pos + 1, w);
        lemma_skip_stop(s, j);
        assert(g_token(s, pos, sep) == Some(pos + 1));
        lemma_names_tail(s, j, acc.push(w), sep, rest);
        assert(acc.push(w) + rest =~= acc + ws);
    }
}

/// Names separated by `sep` are read by `g_names` as they are.
proof fn lemma_names(s: Seq<char>, i: int, sep: char, ws: Seq<Seq<char>>)
    requires
        reader_chars(),
        !alnum(sep),
        !is_space(sep),
        ws.len() > 0,
        forall|k: int| 0 <= k < ws.len() ==> is_word(#[trigger] ws[k]),
        holds_at(s, i, joined(ws, seq![sep])),
        stops_at(s, i + joined(ws, seq![sep]).len()),
        i + joined(ws, seq![sep]).len() < s.len() ==> s[i + joined(ws, seq![sep]).len()] != sep,
    ensures
        g_names(s, i, sep) == (ws, i + joined(ws, seq![sep]).len()),
{
    lemma_joined_front(ws, seq![sep]);
    let w = ws[0];
    let rest = ws.drop_first();
    let r = lead(rest, seq![sep]);
    lemma_holds_cat(s, i, w, r);
    assert(is_word(w));
    let j = i + w.len();
    if rest.len() > 0 {
        assert(r == seq![sep] + rest[0] + lead(rest.drop_first(), seq![sep]));
            assert(r =~= seq![sep] + (rest[0] + lead(rest.drop_first(), seq![sep])));
        lemma_holds_cat(s, j, seq![sep], rest[0] + lead(rest.drop_first(), seq![sep]));
        lemma_holds_char(s, j, seq![sep], 0);
    }
    lemma_name(s, i, w);
    lemma_skip_stop(s, j);
    lemma_names_tail(s, j, seq![w], sep, rest);
    assert(seq![w] + rest =~= ws);
}

/// The text of observation groups: the names of each group with `|`
/// between them, the groups with `, ` between them.
pub open spec fn groups_text(gs: Seq<Seq<Seq<char>>>) -> Seq<char> {
    joined(gs.map_values(|g: Seq<Seq<char>>| joined(g, seq!['|'])), seq![',', ' '])
}

/// Every group holds one or more names.
pub open spec fn word_groups(gs: Seq<Seq<Seq<char>>>) -> bool {
    forall|k: int| 0 <= k < gs.len() ==> (#[trigger] gs[k]).len() > 0
        && forall|q: int| 0 <= q < gs[k].len() ==> is_word(#[trigger] gs[k][q])
}

proof fn lemma_groups_tail(s: Seq<char>, pos: int, acc: Seq<Seq<Seq<char>>>, gs: Seq<Seq<Seq<char>>>)
    requires
        reader_chars(),
        word_groups(gs),
        holds_at(s, pos, lead(gs.map_values(|g: Seq<Seq<char>>| joined(g, seq!['|'])), seq![',', ' '])),
        stops_at(s, pos + lead(gs.map_values(|g: Seq<Seq<char>>| joined(g, seq!['|'])), seq![',', ' ']).len()),
        ({
            let e = pos + lead(gs.map_values(|g: Seq<Seq<char>>| joined(g, seq!['|'])), seq![',', ' ']).len();
            e < s.len() ==> s[e] != ',' && s[e] != '|'
        }),
    ensures
        g_groups_tail(s, pos, acc)
            == (acc + gs, pos + lead(gs.map_values(|g: Seq<Seq<char>>| joined(g, seq!['|'])), seq![',', ' ']).len()),
    decreases gs.len(),
{
    let ts = gs.map_values(|g: Seq<Seq<char>>| joined(g, seq!['|']));
    let sep = seq![',', ' '];
    if gs.len() == 0 {
        assert(acc + gs =~= acc);
        assert(lead(ts, sep) == Seq::<char>::empty());
    } else {
        let g = gs[0];
        let rest = gs.drop_first();
        let rts = rest.map_values(|g: Seq<Seq<char>>| joined(g, seq!['|']));
        assert(ts.drop_first() =~= rts);
        assert(ts[0] == joined(g, seq!['|']));
        let r = lead(rts, sep);
        assert(lead(ts, sep) == sep + joined(g, seq!['|']) + r);
        lemma_holds_cat(s, pos, sep + joined(g, seq!['|']), r);
        lemma_holds_cat(s, pos, sep, joined(g, seq!['|']));
        lemma_holds_char(s, pos, sep, 0);
        lemma_holds_char(s, pos, sep, 1);
        assert(g.len() > 0 && is_word(g[0]));
        lemma_joined_front(g, seq!['|']);
        lemma_holds_cat(s, pos + 2, g[0], lead(g.drop_first(), seq!['|']));
        lemma_holds_char(s, pos + 2, g[0], 0);
        lemma_skip_one(s, pos + 1);
        let m = pos + 2 + joined(g, seq!['|']).len();
        if rest.len() > 0 {
            assert(r == sep + rts[0] + lead(rts.drop_first(), sep));
            assert(r =~= sep + (rts[0] + lead(rts.drop_first(), sep)));
            lemma_holds_cat(s, m, sep, rts[0] + lead(rts.drop_first(), sep));
            lemma_holds_char(s, m, sep, 0);
        }
        assert forall|k: int| 0 <= k < g.len() implies is_word(#[trigger] g[k]) by {}
        lemma_names(s, pos + 2, '|', g);
        assert(g_token(s, pos, ',') == Some(pos + 2));
        assert(word_groups(rest)) by {
            assert forall|k: int| 0 <= k < rest.len() implies (#[trigger] rest[k]).len() > 0
                && forall|q: int| 0 <= q < rest[k].len() ==> is_word(#[trigger] rest[k][q]) by {
                assert(rest[k] == gs[k + 1]);
            }
        }
        lemma_groups_tail(s, m, acc.push(g), rest);
        assert(acc.push(g) + rest =~= acc + gs);
    }
}

/// Observation groups, written with `|` between the names of a group and
/// `, ` between groups, are read back as the same groups in the same
/// order, up to the end of their text, where a character follows that
/// cannot go on with them (or the text ends).
pub proof fn lemma_groups_read_back(s: Seq<char>, i: int, gs: Seq<Seq<Seq<char>>>)
    requires
        reader_chars(),
        gs.len() > 0,
        word_groups(gs),
        holds_at(s, i, groups_text(gs)),
        stops_at(s, i + groups_text(gs).len()),
        i + groups_text(gs).len() < s.len() ==> s[i + groups_text(gs).len()] != ',' && s[i + groups_text(gs).len()] != '|',
    ensures
        g_groups(s, i) == (gs, i + groups_text(gs).len()),
{
    let ts = gs.map_values(|g: Seq<Seq<char>>| joined(g, seq!['|']));
    let sep = seq![',', ' '];
    lemma_joined_front(ts, sep);
    let g = gs[0];
    let rest = gs.drop_first();
    let rts = rest.map_values(|g: Seq<Seq<char>>| joined(g, seq!['|']));
    assert(ts.drop_first() =~= rts);
    let r = lead(rts, sep);
    lemma_holds_cat(s, i, joined(g, seq!['|']), r);
    let m = i + joined(g, seq!['|']).len();
    if rest.len() > 0 {
        assert(r == sep + rts[0] + lead(rts.drop_first(), sep));
            assert(r =~= sep + (rts[0] + lead(rts.drop_first(), sep)));
        lemma_holds_cat(s, m, sep, rts[0] + lead(rts.drop_first(), sep));
        lemma_holds_char(s, m, sep, 0);
    }
    assert forall|k: int| 0 <= k < g.len() implies is_word(#[trigger] g[k]) by {}
    lemma_names(s, i, '|', g);
    assert(word_groups(rest)) by {
        assert forall|k: int| 0 <= k < rest.len() implies (#[trigger] rest[k]).len() > 0
            && forall|q: int| 0 <= q < rest[k].len() ==> is_word(#[trigger] rest[k][q]) by {
            assert(rest[k] == gs[k + 1]);
        }
    }
    lemma_groups_tail(s, m, seq![g], rest);
    assert(seq![g] + rest =~= gs);
}

/// An observation statement `obs a: ` followed by groups is read as the
/// statement of agent `a` with those groups, every group kept, in order.
pub proof fn lemma_obs_read_back(s: Seq<char>, i: int, a: Seq<char>, gs: Seq<Seq<Seq<char>>>)
    requires
        reader_chars(),
        is_word(a),
        gs.len() > 0,
        word_groups(gs),
        holds_at(s, i, seq!['o', 'b', 's', ' '] + a + seq![':', ' '] + groups_text(gs)),
        stops_at(s, i + 4 + a.len() + 2 + groups_text(gs).len()),
        ({
            let e = i + 4 + a.len() + 2 + groups_text(gs).len();
            e < s.len() ==> s[e] != ',' && s[e] != '|'
        }),
    ensures
        g_obs_stmt(s, i) == Some(((a, gs), i + 4 + a.len() + 2 + groups_text(gs).len())),
{
    let kw = seq!['o', 'b', 's', ' '];
    let c2 = seq![':', ' '];
    let t = groups_text(gs);
    lemma_holds_cat(s, i, kw + a + c2, t);
    lemma_holds_cat(s, i, kw + a, c2);
    lemma_holds_cat(s, i, kw, a);
    assert forall|k: int| 0 <= k < kw_obs().len() implies same_letter(#[trigger] s[i + k], kw_obs()[k]) by {
        lemma_holds_char(s, i, kw, k);
    }
    assert(g_tag(s, i, kw_obs()) == Some(i + 3));
    lemma_holds_char(s, i, kw, 3);
    lemma_holds_char(s, i + 4, a, 0);
    lemma_skip_one(s, i + 3);
    let p = i + 4 + a.len();
    lemma_holds_char(s, p, c2, 0);
    lemma_holds_char(s, p, c2, 1);
    lemma_name(s, i + 4, a);
    lemma_skip_stop(s, p);
    // the first name of the first group starts the groups
    let ts = gs.map_values(|g: Seq<Seq<char>>| joined(g, seq!['|']));
    lemma_joined_front(ts, seq![',', ' ']);
    lemma_joined_front(gs[0], seq!['|']);
    assert(ts[0] == joined(gs[0], seq!['|']));
    assert(gs[0].len() > 0 && is_word(gs[0][0]));
    assert(t == gs[0][0] + lead(gs[0].drop_first(), seq!['|']) + lead(ts.drop_first(), seq![',', ' ']));
    lemma_holds_cat(s, p + 2, gs[0][0] + lead(gs[0].drop_first(), seq!['|']), lead(ts.drop_first(), seq![',', ' ']));
    lemma_holds_cat(s, p + 2, gs[0][0], lead(gs[0].drop_first(), seq!['|']));
    lemma_holds_char(s, p + 2, gs[0][0], 0);
    lemma_skip_one(s, p + 1);
    assert(g_token(s, p, ':') == Some(p + 2));
    lemma_groups_read_back(s, p + 2, gs);
}

/// The value of the digit `c`.
pub open spec fn digit_value(c: char) -> nat {
    if c == '1' { 1 } else if c == '2' { 2 } else if c == '3' { 3 } else if c == '4' { 4 }
    else if c == '5' { 5 } else if c == '6' { 6 } else if c == '7' { 7 } else if c == '8' { 8 }
    else if c == '9' { 9 } else { 0 }
}

/// The number the decimal digits `w` stand for.
pub open spec fn decimal_value(w: Seq<char>) -> nat
    decreases w.len(),
{
    if w.len() == 0 { 0 } else { decimal_value(w.drop_last()) * 10 + digit_value(w.last()) }
}

/// A number in decimal reads back as that number, and is a name.
pub proof fn lemma_decimal_reads_back(n: nat)
    requires
        reader_chars(),
    ensures
        decimal_value(decimal(n)) == n,
        is_word(decimal(n)),
    decreases n,
{
    let d = n % 10;
    assert(digit_value(digit(d)) == d) by {
        assert(d < 10);
    }
    assert(alnum(digit(d)));
    if n < 10 {
        assert(d == n);
        assert(decimal(n) == seq![digit(n)]);
        assert(decimal(n).drop_last() =~= Seq::<char>::empty());
        assert(decimal_value(Seq::<char>::empty()) == 0);
        assert(decimal(n).last() == digit(d));
    } else {
        lemma_decimal_reads_back(n / 10);
        let w = decimal(n / 10);
        assert(decimal(n) == w.push(digit(d)));
        assert(decimal(n).drop_last() =~= w);
        assert(n == (n / 10) * 10 + d);
        assert(decimal(n).last() == digit(d));
        assert(decimal_value(decimal(n)) == decimal_value(w) * 10 + digit_value(digit(d)));
        assert forall|k: int| 0 <= k < decimal(n).len() implies #[trigger] alnum(decimal(n)[k]) by {
            if k < w.len() {
                assert(decimal(n)[k] == w[k]);
            }
        }
    }
}

/// Every action of `a` in decimal, in order.
pub open spec fn action_words(a: Seq<Act>) -> Seq<Seq<char>> {
    Seq::new(a.len(), |k: int| decimal(a[k].0 as nat))
}

/// Names separated by single spaces, up to a character that cannot go on
/// with them, are read by `g_many_tail` as they are.
proof fn lemma_many_tail(s: Seq<char>, pos: int, acc: Seq<Seq<char>>, ws: Seq<Seq<char>>)
    requires
        reader_chars(),
        forall|k: int| 0 <= k < ws.len() ==> is_word(#[trigger] ws[k]),
        ws.len() > 0 ==> holds_at(s, pos, joined(ws, seq![' '])),
        ws.len() > 0 ==> stops_at(s, pos + joined(ws, seq![' ']).len()),
        ws.len() == 0 ==> stops_at(s, pos),
    ensures
        g_many_tail(s, pos, acc) == (acc + ws, if ws.len() > 0 { pos + joined(ws, seq![' ']).len() } else { pos }),
    decreases ws.len(),
{
    if ws.len() == 0 {
        assert(acc + ws =~= acc);
        assert(g_alnum_end(s, pos) == pos);
    } else {
        let w = ws[0];
        let rest = ws.drop_first();
        lemma_joined_front(ws, seq![' ']);
        let r = lead(rest, seq![' ']);
        lemma_holds_cat(s, pos, w, r);
        let j = pos + w.len();
        assert(is_word(w));
        if rest.len() > 0 {
            lemma_joined_front(rest, seq![' ']);
            assert(r =~= seq![' '] + joined(rest, seq![' ']));
            lemma_holds_cat(s, j, seq![' '], joined(rest, seq![' ']));
            lemma_holds_char(s, j, seq![' '], 0);
            assert(is_word(rest[0]));
            assert(joined(rest, seq![' ']) == rest[0] + lead(rest.drop_first(), seq![' ']));
            lemma_holds_cat(s, j + 1, rest[0], lead(rest.drop_first(), seq![' ']));
            lemma_holds_char(s, j + 1, rest[0], 0);
            lemma_skip_one(s, j);
        } else {
            assert(r == Seq::<char>::empty());
            lemma_skip_stop(s, j);
        }
        lemma_name(s, pos, w);
        lemma_many_tail(s, g_skip(s, j), acc.push(w), rest);
        assert(acc.push(w) + rest =~= acc + ws);
    }
}

/// The transition `e` from location `l`, as the library writes it (its
/// source's name, its actions in parentheses and its target's name), is
/// read by the reader of transition entries as the source, a single
/// choice of actions that names every agent's action in decimal, in agent
/// order, and the target; and those names read back as the actions.
pub proof fn lemma_edge_text_reads_back(s: Seq<char>, i: int, names: Seq<Seq<char>>, l: int, e: (Seq<Act>, crate::types::Loc))
    requires
        reader_chars(),
        0 <= l < names.len(),
        0 <= e.1.0 < names.len(),
        is_word(names[l]),
        is_word(names[e.1.0 as int]),
        e.0.len() > 0,
        holds_at(s, i, edge_text(names, l, e)),
        stops_at(s, i + edge_text(names, l, e).len()),
    ensures
        g_entry(s, i) == Some(((seq![names[l]], seq![action_words(e.0)], seq![names[e.1.0 as int]]),
            i + edge_text(names, l, e).len())),
        action_words(e.0).len() == e.0.len(),
        forall|k: int| 0 <= k < e.0.len() ==> decimal_value(#[trigger] action_words(e.0)[k]) == e.0[k].0,
{
    let ws = action_words(e.0);
    assert(ws =~= e.0.map_values(|x: Act| decimal(x.0 as nat)));
    let src = names[l];
    let dst = names[e.1.0 as int];
    let p = profile_text(e.0);
    assert(p == joined(ws, seq![' ']));
    assert forall|k: int| 0 <= k < ws.len() implies is_word(#[trigger] ws[k]) && decimal_value(ws[k]) == e.0[k].0 by {
        lemma_decimal_reads_back(e.0[k].0 as nat);
    }
    let t = edge_text(names, l, e);
    assert(t == src + seq![' ', '('] + p + seq![')', ' '] + dst);
    lemma_holds_cat(s, i, src + seq![' ', '('] + p + seq![')', ' '], dst);
    lemma_holds_cat(s, i, src + seq![' ', '('] + p, seq![')', ' ']);
    lemma_holds_cat(s, i, src + seq![' ', '('], p);
    lemma_holds_cat(s, i, src, seq![' ', '(']);
    let a = i + src.len();
    let b = a + 2;
    let c = b + p.len();
    let d = c + 2;
    lemma_holds_char(s, a, seq![' ', '('], 0);
    lemma_holds_char(s, a, seq![' ', '('], 1);
    lemma_holds_char(s, c, seq![')', ' '], 0);
    lemma_holds_char(s, c, seq![')', ' '], 1);
    lemma_holds_char(s, d, dst, 0);
    lemma_joined_front(ws, seq![' ']);
    lemma_holds_cat(s, b, ws[0], lead(ws.drop_first(), seq![' ']));
    lemma_holds_char(s, b, ws[0], 0);
    // the source
    lemma_name(s, i, src);
    lemma_skip_one(s, a);
    assert(g_loc_entry(s, i) == Some((seq![src], b - 1)));
    // the actions
    lemma_skip_stop(s, b);
    lemma_many_tail(s, b, Seq::empty(), ws);
    assert(g_many_tail(s, b, Seq::empty()) == (ws, c));
    assert(is_word(ws[0]));
    let rest = ws.drop_first();
    if rest.len() > 0 {
        assert(lead(rest, seq![' ']) =~= seq![' '] + (rest[0] + lead(rest.drop_first(), seq![' '])));
        lemma_holds_cat(s, b + ws[0].len(), seq![' '], rest[0] + lead(rest.drop_first(), seq![' ']));
        lemma_holds_char(s, b + ws[0].len(), seq![' '], 0);
    } else {
        assert(lead(rest, seq![' ']) == Seq::<char>::empty());
    }
    lemma_name(s, b, ws[0]);
    assert(Seq::<Seq<char>>::empty().push(ws[0]) =~= seq![ws[0]]);
    assert(g_many(s, b) == Some((ws, c)));
    assert(g_acts_tail(s, c, seq![ws]) == (seq![ws], c));
    lemma_skip_one(s, c + 1);
    assert(g_act_entry(s, b - 1) == Some((seq![ws], d)));
    // the target
    lemma_name(s, d, dst);
    lemma_skip_stop(s, d + dst.len());
    assert(g_loc_entry(s, d) == Some((seq![dst], d + dst.len())));
}

proof fn lemma_holds_extend(x: Seq<char>, y: Seq<char>, p: int, t: Seq<char>)
    requires
        holds_at(x, p, t),
    ensures
        holds_at(x + y, p, t),
        holds_at(y + x, y.len() + p, t),
{
    assert((x + y).subrange(p, p + t.len()) =~= x.subrange(p, p + t.len()));
    assert((y + x).subrange(y.len() + p, y.len() + p + t.len()) =~= x.subrange(p, p + t.len()));
}

/// Every part of a joined text stands in it, followed by the separator
/// unless it ends the text.
proof fn lemma_joined_holds(ps: Seq<Seq<char>>, sep: Seq<char>, k: int) -> (p: int)
    requires
        0 <= k < ps.len(),
    ensures
        holds_at(joined(ps, sep), p, ps[k]),
        p + ps[k].len() == joined(ps, sep).len() || holds_at(joined(ps, sep), p + ps[k].len(), sep),
    decreases ps.len(),
{
    let j = joined(ps, sep);
    if ps.len() == 1 {
        assert(j.subrange(0, ps[0].len() as int) =~= ps[0]);
        0
    } else {
        let d = ps.drop_last();
        let jd = joined(d, sep);
        assert(j == jd + sep + ps.last());
        if k == ps.len() - 1 {
            let p: int = (jd.len() + sep.len()) as int;
            assert(j.subrange(p, p + ps[k].len()) =~= ps[k]);
            p
        } else {
            let p = lemma_joined_holds(d, sep, k);
            assert(d[k] == ps[k]);
            lemma_holds_extend(jd, sep + ps.last(), p, ps[k]);
            assert(jd + (sep + ps.last()) =~= j);
            if p + ps[k].len() == jd.len() {
                assert(j.subrange(jd.len() as int, (jd.len() + sep.len()) as int) =~= sep);
            } else {
                lemma_holds_extend(jd, sep + ps.last(), p + ps[k].len(), sep);
            }
            p
        }
    }
}

proof fn lemma_edge_parts_has(g: Game, names: Seq<Seq<char>>, n: nat, l: int, q: int) -> (k: int)
    requires
        0 <= l < n,
        0 <= q < g.succ(l).len(),
    ensures
        0 <= k < edge_parts(g, names, n).len(),
        edge_parts(g, names, n)[k] == edge_text(names, l, g.succ(l)[q]),
    decreases n,
{
    let prev = edge_parts(g, names, (n - 1) as nat);
    if l == n - 1 {
        prev.len() + q
    } else {
        lemma_edge_parts_has(g, names, (n - 1) as nat, l, q)
    }
}

/// The text of a game lists every transition of the game so that the
/// reader of transition entries reads it back: its source's name, one
/// choice naming every agent's action in decimal in agent order, and its
/// target's name.
pub proof fn lemma_game_text_reads_back(g: Game, names: Seq<Seq<char>>, l: int, q: int)
    requires
        reader_chars(),
        g.wf(),
        names.len() == g.nloc(),
        forall|k: int| 0 <= k < names.len() ==> is_word(#[trigger] names[k]),
        0 <= l < g.nloc(),
        0 <= q < g.succ(l).len(),
    ensures
        exists|p: int| #[trigger] g_entry(game_text(g, names), p) == Some(((seq![names[l]],
            seq![action_words(g.succ(l)[q].0)], seq![names[g.succ(l)[q].1.0 as int]]),
            p + edge_text(names, l, g.succ(l)[q]).len())),
        forall|k: int| 0 <= k < g.succ(l)[q].0.len() ==> decimal_value(#[trigger] action_words(g.succ(l)[q].0)[k]) == g.succ(l)[q].0[k].0,
        action_words(g.succ(l)[q].0).len() == g.succ(l)[q].0.len(),
        g.succ(l)[q].0.len() == g.n_agents(),
{
    let e = g.succ(l)[q];
    assert(g.valid_edge(e));
    let et = edge_text(names, l, e);
    let parts = edge_parts(g, names, g.nloc());
    let sep = seq![',', '\n'];
    let k = lemma_edge_parts_has(g, names, g.nloc(), l, q);
    let p0 = lemma_joined_holds(parts, sep, k);
    let gt = game_text(g, names);
    let body = joined(parts, sep);
    let head = gt.subrange(0, gt.len() - body.len());
    assert(gt =~= head + body);
    lemma_holds_extend(body, head, p0, et);
    let p = head.len() + p0;
    if p0 + et.len() != body.len() {
        lemma_holds_extend(body, head, p0 + et.len(), sep);
        lemma_holds_char(gt, p + et.len(), sep, 0);
    }
    assert(stops_at(gt, p + et.len()));
    lemma_edge_text_reads_back(gt, p, names, l, e);
}

} // verus!
