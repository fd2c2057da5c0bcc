//! The lexicographic order on labelled transitions, and sorted insertion.

use vstd::prelude::*;
use crate::types::{Loc, Act};
use crate::game::{Profile, edge_view};

verus! {

/// Lexicographic order on action profiles.
pub open spec fn prof_lt(a: Seq<Act>, b: Seq<Act>) -> bool
    decreases a.len(),
{
    if a.len() == 0 {
        b.len() > 0
    } else if b.len() == 0 {
        false
    } else if a[0].0 < b[0].0 {
        true
    } else if a[0].0 == b[0].0 {
        prof_lt(a.drop_first(), b.drop_first())
    } else {
        false
    }
}

/// Order on transitions: by profile, then by target.
pub open spec fn edge_lt(x: (Seq<Act>, Loc), y: (Seq<Act>, Loc)) -> bool {
    prof_lt(x.0, y.0) || (x.0 == y.0 && x.1.0 < y.1.0)
}

proof fn lemma_prof_lt_irrefl(a: Seq<Act>)
    ensures !prof_lt(a, a),
    decreases a.len(),
{
    if a.len() > 0 {
        lemma_prof_lt_irrefl(a.drop_first());
    }
}

proof fn lemma_prof_lt_asym(a: Seq<Act>, b: Seq<Act>)
    ensures prof_lt(a, b) ==> !prof_lt(b, a),
    decreases a.len(),
{
    if a.len() > 0 && b.len() > 0 {
        lemma_prof_lt_asym(a.drop_first(), b.drop_first());
    }
}

proof fn lemma_prof_lt_trans(a: Seq<Act>, b: Seq<Act>, c: Seq<Act>)
    ensures prof_lt(a, b) && prof_lt(b, c) ==> prof_lt(a, c),
    decreases a.len(),
{
    if a.len() > 0 && b.len() > 0 && c.len() > 0 {
        lemma_prof_lt_trans(a.drop_first(), b.drop_first(), c.drop_first());
    }
}

proof fn lemma_prof_lt_total(a: Seq<Act>, b: Seq<Act>)
    ensures a == b || prof_lt(a, b) || prof_lt(b, a),
    decreases a.len(),
{
    if a.len() > 0 && b.len() > 0 {
        lemma_prof_lt_total(a.drop_first(), b.drop_first());
        if a[0].0 == b[0].0 && a.drop_first() == b.drop_first() {
            assert forall|k: int| 0 <= k < a.len() implies a[k] == b[k] by {
                if k > 0 {
                    assert(a[k] == a.drop_first()[k - 1]);
                    assert(b[k] == b.drop_first()[k - 1]);
                } else {
                    assert(a[0] == Act(a[0].0) && b[0] == Act(b[0].0));
                }
            }
            assert(a =~= b);
        }
    } else if a.len() == 0 && b.len() == 0 {
        assert(a =~= b);
    }
}

pub proof fn lemma_prof_lt_order(a: Seq<Act>, b: Seq<Act>, c: Seq<Act>)
    ensures
        !prof_lt(a, a),
        prof_lt(a, b) ==> !prof_lt(b, a),
        prof_lt(a, b) && prof_lt(b, c) ==> prof_lt(a, c),
        a == b || prof_lt(a, b) || prof_lt(b, a),
{
    lemma_prof_lt_irrefl(a);
    lemma_prof_lt_asym(a, b);
    lemma_prof_lt_trans(a, b, c);
    lemma_prof_lt_total(a, b);
}

pub proof fn lemma_edge_lt_order(x: (Seq<Act>, Loc), y: (Seq<Act>, Loc), z: (Seq<Act>, Loc))
    ensures
        !edge_lt(x, x),
        edge_lt(x, y) ==> !edge_lt(y, x),
        edge_lt(x, y) && edge_lt(y, z) ==> edge_lt(x, z),
        x == y || edge_lt(x, y) || edge_lt(y, x),
{
    lemma_prof_lt_order(x.0, y.0, z.0);
    lemma_prof_lt_order(y.0, x.0, z.0);
    lemma_prof_lt_order(x.0, z.0, y.0);
    lemma_prof_lt_order(x.0, x.0, x.0);
    if x.0 == y.0 && x.1.0 == y.1.0 {
        assert(x.1 == y.1);
    }
}

/// `a` comes before `b` lexicographically.
pub fn profile_lt(a: &Profile, b: &Profile) -> (r: bool)
    ensures r == prof_lt(a@, b@),
{
    let mut i: usize = 0;
    assert(a@.subrange(0, a@.len() as int) =~= a@);
    assert(b@.subrange(0, b@.len() as int) =~= b@);
    while i < a.len() && i < b.len()
        invariant
            i <= a@.len(),
            i <= b@.len(),
            forall|j: int| 0 <= j < i ==> a@[j] == b@[j],
            prof_lt(a@, b@) == prof_lt(a@.subrange(i as int, a@.len() as int), b@.subrange(i as int, b@.len() as int)),
        decreases a@.len() - i,
    {
        let ghost sa = a@.subrange(i as int, a@.len() as int);
        let ghost sb = b@.subrange(i as int, b@.len() as int);
        assert(sa[0] == a@[i as int] && sb[0] == b@[i as int]);
        if a[i].0 < b[i].0 {
            return true;
        }
        if a[i].0 > b[i].0 {
            return false;
        }
        assert(sa.drop_first() =~= a@.subrange(i + 1, a@.len() as int));
        assert(sb.drop_first() =~= b@.subrange(i + 1, b@.len() as int));
        assert(a@[i as int] == b@[i as int]);
        i = i + 1;
    }
    let ghost sa = a@.subrange(i as int, a@.len() as int);
    let ghost sb = b@.subrange(i as int, b@.len() as int);
    if i < b.len() {
        assert(sa.len() == 0 && sb.len() > 0);
        true
    } else {
        assert(sb.len() == 0);
        false
    }
}

/// `x` comes before `y`.
pub fn edge_less(x: &(Profile, Loc), y: &(Profile, Loc)) -> (r: bool)
    ensures r == edge_lt(edge_view(*x), edge_view(*y)),
{
    if profile_lt(&x.0, &y.0) {
        true
    } else if crate::game::profile_eq(&x.0, &y.0) {
        x.1.0 < y.1.0
    } else {
        false
    }
}

/// The transitions are strictly increasing.
pub open spec fn sorted_edges(s: Seq<(Seq<Act>, Loc)>) -> bool {
    forall|i: int, j: int| 0 <= i < j < s.len() ==> edge_lt(s[i], s[j])
}

/// Inserts `x` into the strictly increasing `v`, unless already present;
/// returns whether it was inserted.
pub fn insert_sorted(v: &mut Vec<(Profile, Loc)>, x: (Profile, Loc)) -> (r: bool)
    requires sorted_edges(old(v)@.map_values(|e: (Profile, Loc)| edge_view(e))),
    ensures
        sorted_edges(final(v)@.map_values(|e: (Profile, Loc)| edge_view(e))),
        r == !old(v)@.map_values(|e: (Profile, Loc)| edge_view(e)).contains(edge_view(x)),
        final(v)@.map_values(|e: (Profile, Loc)| edge_view(e)).to_set()
            == old(v)@.map_values(|e: (Profile, Loc)| edge_view(e)).to_set().insert(edge_view(x)),
        final(v)@.len() == old(v)@.len() + (if r { 1int } else { 0int }),
{
    let ghost s0 = v@.map_values(|e: (Profile, Loc)| edge_view(e));
    let xv = Ghost(edge_view(x));
    let mut p: usize = 0;
    while p < v.len() && edge_less(&v[p], &x)
        invariant
            p <= v@.len(),
            s0 == v@.map_values(|e: (Profile, Loc)| edge_view(e)),
            v@ == old(v)@,
            xv@ == edge_view(x),
            forall|k: int| 0 <= k < p ==> edge_lt(#[trigger] s0[k], xv@),
        decreases v@.len() - p,
    {
        p = p + 1;
    }
    // every element from p on is not below x
    proof {
        assert forall|k: int| p <= k < s0.len() implies !edge_lt(#[trigger] s0[k], xv@) by {
            if k > p {
                lemma_edge_lt_order(s0[p as int], s0[k], xv@);
                lemma_edge_lt_order(s0[k], s0[p as int], xv@);
            }
        }
    }
    if p < v.len() {
        let ghost y = s0[p as int];
        if crate::game::profile_eq(&v[p].0, &x.0) && v[p].1 == x.1 {
            proof {
                assert(y == xv@);
                assert(s0.contains(xv@));
                assert(s0.to_set().insert(xv@) =~= s0.to_set());
            }
            return false;
        }
    }
    proof {
        assert(!s0.contains(xv@)) by {
            if s0.contains(xv@) {
                let k = choose|k: int| 0 <= k < s0.len() && s0[k] == xv@;
                lemma_edge_lt_order(xv@, xv@, xv@);
                if k != p {
                    if k > p {
                        lemma_edge_lt_order(s0[p as int], xv@, xv@);
                        lemma_edge_lt_order(xv@, s0[p as int], xv@);
                    }
                }
            }
        }
    }
    v.insert(p, x);
    proof {
        let s1 = v@.map_values(|e: (Profile, Loc)| edge_view(e));
        assert(s1 =~= s0.insert(p as int, xv@));
        assert forall|i: int, j: int| 0 <= i < j < s1.len() implies edge_lt(s1[i], s1[j]) by {
            if i < p && j == p {
            } else if i == p && j > p {
                lemma_edge_lt_order(xv@, s0[j - 1], xv@);
                lemma_edge_lt_order(s0[j - 1], xv@, xv@);
                if j - 1 > p {
                    lemma_edge_lt_order(s0[p as int], s0[j - 1], xv@);
                }
                lemma_edge_lt_order(xv@, s0[p as int], s0[j - 1]);
            } else if i < p && j > p {
                assert(s1[i] == s0[i] && s1[j] == s0[j - 1]);
            } else if j < p {
            } else {
                assert(s1[i] == s0[i - 1] && s1[j] == s0[j - 1]);
            }
        }
        assert forall|e| s1.to_set().contains(e) <==> s0.to_set().insert(xv@).contains(e) by {
            if s1.contains(e) {
                let k = choose|k: int| 0 <= k < s1.len() && s1[k] == e;
                if k < p { assert(s0[k] == e); } else if k > p { assert(s0[k - 1] == e); }
            }
            if s0.contains(e) {
                let k = choose|k: int| 0 <= k < s0.len() && s0[k] == e;
                if k < p { assert(s1[k] == e); } else { assert(s1[k + 1] == e); }
            }
            if e == xv@ {
                assert(s1[p as int] == e);
            }
        }
        assert(s1.to_set() =~= s0.to_set().insert(xv@));
    }
    true
}

} // verus!
