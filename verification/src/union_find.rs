//! The disjoint-set forests of the `disjoint_sets` crate, seen as the
//! representative of each element.

use vstd::prelude::*;
use disjoint_sets::UnionFind;

verus! {

/// A `disjoint_sets::UnionFind<u32>`; Verus sees it through `uf_reps`.
#[verifier::external_body]
pub struct Partition {
    uf: UnionFind<u32>,
}

/// The representative of each element of a union-find: the root of its
/// tree.
pub uninterp spec fn uf_reps(u: Partition) -> Seq<nat>;

/// Every element's representative is an element that represents itself.
pub open spec fn reps_ok(s: Seq<nat>) -> bool {
    forall|x: int| 0 <= x < s.len() ==> #[trigger] s[x] < s.len() && s[s[x] as int] == s[x]
}

/// `new` is `old` with the sets represented by `ra` and `rb` joined and
/// represented by `w`, one of the two.
pub open spec fn merged_into(old: Seq<nat>, new: Seq<nat>, ra: nat, rb: nat, w: nat) -> bool {
    &&& w == ra || w == rb
    &&& new.len() == old.len()
    &&& forall|x: int| 0 <= x < old.len() ==> #[trigger] new[x] == (
        if old[x] == ra || old[x] == rb { w } else { old[x] })
}

/// `UnionFind::new`: `size` singleton sets, each element its own
/// representative. It panics when an element does not fit `u32`, which
/// `requires` rules out.
#[verifier::external_body]
pub(crate) fn uf_new(size: usize) -> (r: Partition)
    requires size <= 0x1_0000_0000,
    ensures uf_reps(r) == Seq::new(size as nat, |i: int| i as nat),
{
    Partition { uf: UnionFind::new(size) }
}

/// `UnionFind::union`: joins the sets of `a` and `b`. The joined set is
/// represented by one of the two old roots (the one the ranks pick);
/// every other set keeps its representative. Returns whether the sets
/// were different.
#[verifier::external_body]
pub(crate) fn uf_union(u: &mut Partition, a: u32, b: u32) -> (r: bool)
    requires
        (a as int) < uf_reps(*old(u)).len(),
        (b as int) < uf_reps(*old(u)).len(),
    ensures
        uf_reps(*final(u)).len() == uf_reps(*old(u)).len(),
        r == (uf_reps(*old(u))[a as int] != uf_reps(*old(u))[b as int]),
        exists|w: nat| #[trigger] merged_into(uf_reps(*old(u)), uf_reps(*final(u)),
            uf_reps(*old(u))[a as int], uf_reps(*old(u))[b as int], w),
{
    u.uf.union(a, b)
}

/// `UnionFind::find`: the representative of `x` (shortening paths as it
/// goes, which changes no representative).
#[verifier::external_body]
pub(crate) fn uf_find(u: &Partition, x: u32) -> (r: u32)
    requires (x as int) < uf_reps(*u).len(),
    ensures r as nat == uf_reps(*u)[x as int],
{
    u.uf.find(x)
}

} // verus!
