//! The cartesian product of lists of locations.

use vstd::prelude::*;
use crate::types::Loc;

verus! {

/// `rest` with `y` put in front of each sequence.
pub open spec fn prepend_all(y: Loc, rest: Seq<Seq<Loc>>) -> Seq<Seq<Loc>> {
    rest.map_values(|r: Seq<Loc>| seq![y] + r)
}

/// `rest` prefixed by each element of `ys`, in order.
pub open spec fn expand_with(ys: Seq<Loc>, rest: Seq<Seq<Loc>>) -> Seq<Seq<Loc>>
    decreases ys.len(),
{
    if ys.len() == 0 {
        Seq::empty()
    } else {
        expand_with(ys.drop_last(), rest) + prepend_all(ys.last(), rest)
    }
}

/// Every way to pick one element of each list, the first list varying
/// slowest.
pub open spec fn combos(lists: Seq<Seq<Loc>>) -> Seq<Seq<Loc>>
    decreases lists.len(),
{
    if lists.len() == 0 {
        seq![Seq::empty()]
    } else {
        expand_with(lists[0], combos(lists.drop_first()))
    }
}

pub open spec fn loc_lists(v: Seq<Vec<Loc>>) -> Seq<Seq<Loc>> {
    v.map_values(|x: Vec<Loc>| x@)
}

/// A copy of the locations.
pub fn copy_locs(v: &Vec<Loc>) -> (r: Vec<Loc>)
    ensures r@ == v@,
{
    let mut r: Vec<Loc> = Vec::new();
    let mut i: usize = 0;
    while i < v.len()
        invariant
            i <= v@.len(),
            r@ == v@.subrange(0, i as int),
        decreases v@.len() - i,
    {
        r.push(v[i]);
        i = i + 1;
        assert(r@ =~= v@.subrange(0, i as int));
    }
    assert(v@.subrange(0, v@.len() as int) =~= v@);
    r
}

fn expand_with_exec(ys: &Vec<Loc>, rest: &Vec<Vec<Loc>>) -> (r: Vec<Vec<Loc>>)
    ensures loc_lists(r@) == expand_with(ys@, loc_lists(rest@)),
{
    let ghost rv = loc_lists(rest@);
    let mut r: Vec<Vec<Loc>> = Vec::new();
    let mut a: usize = 0;
    while a < ys.len()
        invariant
            a <= ys@.len(),
            rv == loc_lists(rest@),
            loc_lists(r@) == expand_with(ys@.subrange(0, a as int), rv),
        decreases ys@.len() - a,
    {
        let ghost before = loc_lists(r@);
        let y = ys[a];
        let mut j: usize = 0;
        while j < rest.len()
            invariant
                j <= rest@.len(),
                rv == loc_lists(rest@),
                loc_lists(r@) == before + prepend_all(y, rv).subrange(0, j as int),
            decreases rest@.len() - j,
        {
            let mut p: Vec<Loc> = Vec::new();
            p.push(y);
            let mut t: usize = 0;
            while t < rest[j].len()
                invariant
                    j < rest@.len(),
                    t <= rest@[j as int]@.len(),
                    p@ == seq![y] + rest@[j as int]@.subrange(0, t as int),
                decreases rest@[j as int]@.len() - t,
            {
                p.push(rest[j][t]);
                t = t + 1;
                assert(p@ =~= seq![y] + rest@[j as int]@.subrange(0, t as int));
            }
            assert(rest@[j as int]@.subrange(0, t as int) =~= rest@[j as int]@);
            let ghost old_r = r@;
            r.push(p);
            proof {
                assert(rv[j as int] == rest@[j as int]@);
                assert(prepend_all(y, rv).subrange(0, j + 1) =~= prepend_all(y, rv).subrange(0, j as int).push(p@));
                assert(loc_lists(r@) =~= loc_lists(old_r).push(p@));
            }
            j = j + 1;
            assert(loc_lists(r@) =~= before + prepend_all(y, rv).subrange(0, j as int));
        }
        proof {
            assert(prepend_all(y, rv).subrange(0, rest@.len() as int) =~= prepend_all(y, rv));
            let ys1 = ys@.subrange(0, a as int + 1);
            assert(ys1.drop_last() =~= ys@.subrange(0, a as int));
            assert(ys1.last() == y);
        }
        a = a + 1;
    }
    assert(ys@.subrange(0, ys@.len() as int) =~= ys@);
    r
}

/// Every way to pick one location of each list, the first list varying
/// slowest.
pub fn combos_exec(lists: &Vec<Vec<Loc>>) -> (r: Vec<Vec<Loc>>)
    ensures loc_lists(r@) == combos(loc_lists(lists@)),
{
    let n = lists.len();
    let ghost lv = loc_lists(lists@);
    let mut r: Vec<Vec<Loc>> = Vec::new();
    r.push(Vec::new());
    assert(loc_lists(r@) =~= combos(lv.subrange(n as int, n as int)));
    let mut i: usize = n;
    while i > 0
        invariant
            n == lists@.len(),
            lv == loc_lists(lists@),
            i <= n,
            loc_lists(r@) == combos(lv.subrange(i as int, n as int)),
        decreases i,
    {
        i = i - 1;
        let ghost s = lv.subrange(i as int, n as int);
        assert(s.drop_first() =~= lv.subrange(i + 1, n as int));
        assert(s[0] == lists@[i as int]@);
        r = expand_with_exec(&lists[i], &r);
    }
    assert(lv.subrange(0, n as int) =~= lv);
    r
}

} // verus!
