//! Sets of locations, stored as fixed-size bit sets.

use vstd::prelude::*;
use fixedbitset::FixedBitSet;
use crate::types::{Loc, loc};
use crate::game::Game;

verus! {

#[verifier::external_type_specification]
#[verifier::external_body]
pub struct ExFixedBitSet(FixedBitSet);

/// The positions of the enabled bits of a `FixedBitSet`, over all of its
/// storage blocks.
pub uninterp spec fn fbs_bits(s: FixedBitSet) -> Set<nat>;

/// The length in bits that a `FixedBitSet` was made with.
pub uninterp spec fn fbs_len(s: FixedBitSet) -> nat;

/// `FixedBitSet::with_capacity`: `bits` disabled bits.
#[verifier::external_body]
pub(crate) fn fbs_with_capacity(bits: usize) -> (r: FixedBitSet)
    ensures
        fbs_bits(r) == Set::<nat>::empty(),
        fbs_len(r) == bits,
{
    FixedBitSet::with_capacity(bits)
}

/// `FixedBitSet::contains`: whether bit `bit` is enabled (false past the
/// storage).
#[verifier::external_body]
fn fbs_contains(s: &FixedBitSet, bit: usize) -> (r: bool)
    ensures r == fbs_bits(*s).contains(bit as nat),
{
    s.contains(bit)
}

/// `FixedBitSet::put`: enables `bit`, returning whether it was enabled.
/// Panics when `bit` is out of bounds.
#[verifier::external_body]
pub(crate) fn fbs_put(s: &mut FixedBitSet, bit: usize) -> (r: bool)
    requires (bit as nat) < fbs_len(*old(s)),
    ensures
        fbs_bits(*final(s)) == fbs_bits(*old(s)).insert(bit as nat),
        fbs_len(*final(s)) == fbs_len(*old(s)),
        r == fbs_bits(*old(s)).contains(bit as nat),
{
    s.put(bit)
}

/// `FixedBitSet::set`: sets `bit` to `enabled`. Panics when `bit` is out
/// of bounds.
#[verifier::external_body]
fn fbs_set(s: &mut FixedBitSet, bit: usize, enabled: bool)
    requires (bit as nat) < fbs_len(*old(s)),
    ensures
        fbs_bits(*final(s)) == (if enabled { fbs_bits(*old(s)).insert(bit as nat) } else { fbs_bits(*old(s)).remove(bit as nat) }),
        fbs_len(*final(s)) == fbs_len(*old(s)),
{
    s.set(bit, enabled)
}

/// `FixedBitSet::clear`: disables every bit.
#[verifier::external_body]
fn fbs_clear(s: &mut FixedBitSet)
    ensures
        fbs_bits(*final(s)) == Set::<nat>::empty(),
        fbs_len(*final(s)) == fbs_len(*old(s)),
{
    s.clear()
}

/// `FixedBitSet::count_ones(..)`: the number of enabled bits below the length.
#[verifier::external_body]
pub(crate) fn fbs_count_ones(s: &FixedBitSet) -> (r: usize)
    ensures r == fbs_bits(*s).filter(|i: nat| i < fbs_len(*s)).len(),
{
    s.count_ones(..)
}

/// `FixedBitSet::ones`: the enabled bits in increasing order.
#[verifier::external_body]
pub(crate) fn fbs_ones(s: &FixedBitSet) -> (r: Vec<usize>)
    ensures
        forall|i: int, j: int| 0 <= i < j < r@.len() ==> r@[i] < r@[j],
        forall|b: nat| b <= usize::MAX ==> (fbs_bits(*s).contains(b) <==> r@.contains(b as usize)),
        forall|i: int| 0 <= i < r@.len() ==> fbs_bits(*s).contains(#[trigger] r@[i] as nat),
{
    s.ones().collect()
}

/// `FixedBitSet::intersect_with`: keeps the bits enabled in both.
#[verifier::external_body]
fn fbs_intersect_with(s: &mut FixedBitSet, other: &FixedBitSet)
    ensures
        fbs_bits(*final(s)) == fbs_bits(*old(s)).intersect(fbs_bits(*other)),
        fbs_len(*final(s)) == fbs_len(*old(s)),
{
    s.intersect_with(other)
}

/// `FixedBitSet::clone`.
#[verifier::external_body]
pub(crate) fn fbs_clone(s: &FixedBitSet) -> (r: FixedBitSet)
    ensures
        fbs_bits(r) == fbs_bits(*s),
        fbs_len(r) == fbs_len(*s),
{
    s.clone()
}

/// Overwrites the storage blocks of `s` with those of `src`, which has
/// the same length (`as_mut_slice` and `as_slice`).
#[verifier::external_body]
fn fbs_copy_from(s: &mut FixedBitSet, src: &FixedBitSet)
    requires fbs_len(*old(s)) == fbs_len(*src),
    ensures
        fbs_bits(*final(s)) == fbs_bits(*src),
        fbs_len(*final(s)) == fbs_len(*old(s)),
{
    s.as_mut_slice().copy_from_slice(src.as_slice())
}

/// `FixedBitSet == FixedBitSet`: same length and same enabled bits.
#[verifier::external_body]
pub(crate) fn fbs_eq(a: &FixedBitSet, b: &FixedBitSet) -> (r: bool)
    ensures r == (fbs_bits(*a) == fbs_bits(*b) && fbs_len(*a) == fbs_len(*b)),
{
    a == b
}

pub proof fn lemma_nat_range_finite(n: nat)
    ensures Set::new(|i: nat| i < n).finite(),
    decreases n,
{
    if n == 0 {
        assert(Set::new(|i: nat| i < n) =~= Set::<nat>::empty());
    } else {
        lemma_nat_range_finite((n - 1) as nat);
        assert(Set::new(|i: nat| i < n) =~= Set::new(|i: nat| i < (n - 1) as nat).insert((n - 1) as nat));
    }
}

/// A set of locations of a game with a fixed number of locations.
#[derive(Debug)]
pub struct LocSet {
    s: FixedBitSet,
}

impl LocSet {
    /// The indices of the locations in the set.
    pub closed spec fn bits(&self) -> Set<nat> {
        fbs_bits(self.s)
    }

    /// The number of locations of the game the set was made for.
    pub closed spec fn cap(&self) -> nat {
        fbs_len(self.s)
    }

    /// Every member is below the capacity, which fits the location type.
    pub open spec fn wf(&self) -> bool {
        &&& forall|i: nat| self.bits().contains(i) ==> i < self.cap()
        &&& self.cap() <= u32::MAX
    }

    /// The members, as locations.
    pub open spec fn locs(&self) -> Set<Loc> {
        Set::new(|l: Loc| self.bits().contains(l.0 as nat))
    }

    /// The empty set for the locations of `g`.
    pub fn new(g: &Game) -> (r: LocSet)
        requires g.nloc() <= u32::MAX,
        ensures r.wf(), r.bits() == Set::<nat>::empty(), r.cap() == g.nloc(),
    {
        LocSet { s: fbs_with_capacity(g.n_loc()) }
    }

    /// The set holding only `l`.
    pub fn singleton(g: &Game, l: Loc) -> (r: LocSet)
        requires g.nloc() <= u32::MAX, (l.0 as int) < g.nloc(),
        ensures r.wf(), r.bits() == set![l.0 as nat], r.cap() == g.nloc(),
    {
        let mut r = Self::new(g);
        r.insert(l);
        assert(r.bits() =~= set![l.0 as nat]);
        r
    }

    /// The set of the locations in `v`.
    pub fn from_iter(g: &Game, v: &Vec<Loc>) -> (r: LocSet)
        requires
            g.nloc() <= u32::MAX,
            forall|k: int| 0 <= k < v@.len() ==> ((#[trigger] v@[k]).0 as int) < g.nloc(),
        ensures
            r.wf(),
            r.cap() == g.nloc(),
            forall|i: nat| r.bits().contains(i) <==> exists|k: int| 0 <= k < v@.len() && (#[trigger] v@[k]).0 == i,
    {
        let mut r = Self::new(g);
        r.extend(v);
        r
    }

    /// Inserts every location of `v`.
    pub fn extend(&mut self, v: &Vec<Loc>)
        requires
            old(self).wf(),
            forall|k: int| 0 <= k < v@.len() ==> ((#[trigger] v@[k]).0 as int) < old(self).cap(),
        ensures
            final(self).wf(),
            final(self).cap() == old(self).cap(),
            forall|i: nat| final(self).bits().contains(i)
                <==> (old(self).bits().contains(i) || exists|k: int| 0 <= k < v@.len() && (#[trigger] v@[k]).0 == i),
    {
        let mut j: usize = 0;
        while j < v.len()
            invariant
                j <= v@.len(),
                self.wf(),
                self.cap() == old(self).cap(),
                forall|k: int| 0 <= k < v@.len() ==> ((#[trigger] v@[k]).0 as int) < old(self).cap(),
                forall|i: nat| self.bits().contains(i)
                    <==> (old(self).bits().contains(i) || exists|k: int| 0 <= k < j && (#[trigger] v@[k]).0 == i),
            decreases v@.len() - j,
        {
            self.insert(v[j]);
            proof {
                assert forall|i: nat| self.bits().contains(i)
                    <==> (old(self).bits().contains(i) || exists|k: int| 0 <= k < j + 1 && (#[trigger] v@[k]).0 == i) by {
                    if i == v@[j as int].0 {
                        assert(v@[j as int].0 == i);
                    }
                    if exists|k: int| 0 <= k < j + 1 && (#[trigger] v@[k]).0 == i {
                        let k = choose|k: int| 0 <= k < j + 1 && (#[trigger] v@[k]).0 == i;
                        if k < j {
                            assert(exists|k2: int| 0 <= k2 < j && (#[trigger] v@[k2]).0 == i);
                        }
                    }
                }
            }
            j = j + 1;
        }
    }

    /// The members in increasing order.
    pub fn iter(&self) -> (r: Vec<Loc>)
        requires self.wf(),
        ensures
            forall|i: int, j: int| 0 <= i < j < r@.len() ==> r@[i].0 < r@[j].0,
            forall|l: Loc| r@.contains(l) <==> self.bits().contains(l.0 as nat),
    {
        let ones = fbs_ones(&self.s);
        let mut r: Vec<Loc> = Vec::new();
        let mut k: usize = 0;
        while k < ones.len()
            invariant
                self.wf(),
                k <= ones@.len(),
                forall|i: int, j: int| 0 <= i < j < ones@.len() ==> ones@[i] < ones@[j],
                forall|b: nat| b <= usize::MAX ==> (fbs_bits(self.s).contains(b) <==> ones@.contains(b as usize)),
                forall|i: int| 0 <= i < ones@.len() ==> fbs_bits(self.s).contains(#[trigger] ones@[i] as nat),
                r@.len() == k,
                forall|i: int| 0 <= i < k ==> (#[trigger] r@[i]).0 == ones@[i],
            decreases ones@.len() - k,
        {
            assert(fbs_bits(self.s).contains(ones@[k as int] as nat));
            assert(self.bits().contains(ones@[k as int] as nat));
            r.push(loc(ones[k]));
            k = k + 1;
        }
        proof {
            assert forall|l: Loc| r@.contains(l) <==> self.bits().contains(l.0 as nat) by {
                if r@.contains(l) {
                    let i = choose|i: int| 0 <= i < r@.len() && r@[i] == l;
                    assert(fbs_bits(self.s).contains(ones@[i] as nat));
                }
                if self.bits().contains(l.0 as nat) {
                    assert(ones@.contains(l.0 as usize));
                    let i = choose|i: int| 0 <= i < ones@.len() && ones@[i] == l.0 as usize;
                    assert(r@[i] == l);
                }
            }
        }
        r
    }

    pub fn contains(&self, l: Loc) -> (r: bool)
        ensures r == self.bits().contains(l.0 as nat),
    {
        fbs_contains(&self.s, l.index())
    }

    pub fn is_empty(&self) -> (r: bool)
        requires self.wf(),
        ensures r == (self.bits() == Set::<nat>::empty()),
    {
        let n = fbs_count_ones(&self.s);
        proof {
            let f = fbs_bits(self.s).filter(|i: nat| i < fbs_len(self.s));
            assert(f =~= self.bits());
            lemma_nat_range_finite(fbs_len(self.s));
            vstd::set_lib::lemma_len_subset(f, Set::new(|i: nat| i < fbs_len(self.s)));
            if self.bits() == Set::<nat>::empty() {
                assert(f =~= Set::<nat>::empty());
            } else {
                if forall|x: nat| !f.contains(x) {
                    assert(f =~= Set::<nat>::empty());
                }
                let x = choose|x: nat| f.contains(x);
                vstd::set::axiom_set_remove_len(f, x);
                assert(f.remove(x).len() == f.len() - 1);
            }
        }
        n == 0
    }

    /// Inserts `l`.
    pub fn insert(&mut self, l: Loc)
        requires old(self).wf(), (l.0 as int) < old(self).cap(),
        ensures
            final(self).wf(),
            final(self).bits() == old(self).bits().insert(l.0 as nat),
            final(self).cap() == old(self).cap(),
    {
        fbs_put(&mut self.s, l.index());
        assert forall|i: nat| self.bits().contains(i) implies i < self.cap() by {
            if i != l.0 as nat { assert(old(self).bits().contains(i)); }
        }
    }

    /// Inserts `l`, returning whether it was already present.
    pub fn put(&mut self, l: Loc) -> (r: bool)
        requires old(self).wf(), (l.0 as int) < old(self).cap(),
        ensures
            final(self).wf(),
            final(self).bits() == old(self).bits().insert(l.0 as nat),
            final(self).cap() == old(self).cap(),
            r == old(self).bits().contains(l.0 as nat),
    {
        let r = fbs_put(&mut self.s, l.index());
        assert forall|i: nat| self.bits().contains(i) implies i < self.cap() by {
            if i != l.0 as nat { assert(old(self).bits().contains(i)); }
        }
        r
    }

    /// Removes `l`.
    pub fn remove(&mut self, l: Loc)
        requires old(self).wf(), (l.0 as int) < old(self).cap(),
        ensures
            final(self).wf(),
            final(self).bits() == old(self).bits().remove(l.0 as nat),
            final(self).cap() == old(self).cap(),
    {
        fbs_set(&mut self.s, l.index(), false);
        assert forall|i: nat| self.bits().contains(i) implies i < self.cap() by {
            assert(old(self).bits().contains(i));
        }
    }

    /// The smallest member, if any.
    pub fn first(&self) -> (r: Option<Loc>)
        requires self.wf(),
        ensures
            match r {
                None => self.bits() == Set::<nat>::empty(),
                Some(l) => self.bits().contains(l.0 as nat)
                    && forall|i: nat| self.bits().contains(i) ==> l.0 <= i,
            },
    {
        let v = self.iter();
        if v.len() == 0 {
            proof {
                assert forall|i: nat| !self.bits().contains(i) by {
                    if self.bits().contains(i) {
                        assert(v@.contains(Loc(i as u32)));
                    }
                }
                assert(self.bits() =~= Set::<nat>::empty());
            }
            None
        } else {
            proof {
                assert(v@.contains(v@[0]));
                assert forall|i: nat| self.bits().contains(i) implies v@[0].0 <= i by {
                    assert(v@.contains(Loc(i as u32)));
                    let k = choose|k: int| 0 <= k < v@.len() && v@[k] == Loc(i as u32);
                    if k > 0 {
                        assert(v@[0].0 < v@[k].0);
                    }
                }
            }
            Some(v[0])
        }
    }

    /// Removes every member.
    pub fn clear(&mut self)
        requires old(self).wf(),
        ensures
            final(self).wf(),
            final(self).bits() == Set::<nat>::empty(),
            final(self).cap() == old(self).cap(),
    {
        fbs_clear(&mut self.s);
    }

    /// Makes the set equal to `source`, which has the same capacity.
    pub fn replace_with(&mut self, source: &LocSet)
        requires old(self).wf(), source.wf(), old(self).cap() == source.cap(),
        ensures
            final(self).wf(),
            final(self).bits() == source.bits(),
            final(self).cap() == old(self).cap(),
    {
        fbs_copy_from(&mut self.s, &source.s);
        assert forall|i: nat| self.bits().contains(i) implies i < self.cap() by {
            assert(source.bits().contains(i));
        }
    }

    /// `self &= rhs`: keeps the members that are also in `rhs`, which has
    /// the same capacity.
    pub fn bitand_assign(&mut self, rhs: &LocSet)
        requires old(self).wf(), old(self).cap() == rhs.cap(),
        ensures
            final(self).wf(),
            final(self).bits() == old(self).bits().intersect(rhs.bits()),
            final(self).cap() == old(self).cap(),
    {
        fbs_intersect_with(&mut self.s, &rhs.s);
        assert forall|i: nat| self.bits().contains(i) implies i < self.cap() by {
            assert(old(self).bits().contains(i));
        }
    }

    /// Stores in `dest` the intersection of the sets in `s`, which have the
    /// capacity of `dest`.
    pub fn intersect(dest: &mut LocSet, s: &Vec<&LocSet>)
        requires
            old(dest).wf(),
            s@.len() > 0,
            forall|k: int| 0 <= k < s@.len() ==> (#[trigger] s@[k]).cap() == old(dest).cap() && s@[k].wf(),
        ensures
            final(dest).wf(),
            final(dest).cap() == old(dest).cap(),
            forall|i: nat| final(dest).bits().contains(i)
                <==> forall|k: int| 0 <= k < s@.len() ==> (#[trigger] s@[k]).bits().contains(i),
    {
        dest.replace_with(s[0]);
        let mut k: usize = 1;
        while k < s.len()
            invariant
                1 <= k <= s@.len(),
                dest.wf(),
                dest.cap() == old(dest).cap(),
                forall|t: int| 0 <= t < s@.len() ==> (#[trigger] s@[t]).cap() == old(dest).cap() && s@[t].wf(),
                forall|i: nat| dest.bits().contains(i)
                    <==> forall|t: int| 0 <= t < k ==> (#[trigger] s@[t]).bits().contains(i),
            decreases s@.len() - k,
        {
            dest.bitand_assign(s[k]);
            proof {
                assert forall|i: nat| dest.bits().contains(i)
                    <==> forall|t: int| 0 <= t < k + 1 ==> (#[trigger] s@[t]).bits().contains(i) by {
                    if forall|t: int| 0 <= t < k + 1 ==> (#[trigger] s@[t]).bits().contains(i) {
                        assert(s@[k as int].bits().contains(i));
                    }
                }
            }
            k = k + 1;
        }
    }

    /// The intersection of the sets in `s`, which share their capacity.
    pub fn intersection(s: &Vec<&LocSet>) -> (r: LocSet)
        requires
            s@.len() > 0,
            forall|k: int| 0 <= k < s@.len() ==> (#[trigger] s@[k]).cap() == s@[0].cap() && s@[k].wf(),
        ensures
            r.wf(),
            r.cap() == s@[0].cap(),
            forall|i: nat| r.bits().contains(i)
                <==> forall|k: int| 0 <= k < s@.len() ==> (#[trigger] s@[k]).bits().contains(i),
    {
        let mut dest = s[0].clone();
        Self::intersect(&mut dest, s);
        dest
    }

    /// The two sets have the same members and capacity.
    pub fn eq(&self, other: &LocSet) -> (r: bool)
        ensures r == (self.bits() == other.bits() && self.cap() == other.cap()),
    {
        fbs_eq(&self.s, &other.s)
    }
}

impl View for LocSet {
    type V = (Set<nat>, nat);

    /// The members and the capacity.
    open spec fn view(&self) -> (Set<nat>, nat) {
        (self.bits(), self.cap())
    }
}

impl Clone for LocSet {
    fn clone(&self) -> (r: Self)
        ensures r.bits() == self.bits(), r.cap() == self.cap(),
    {
        LocSet { s: fbs_clone(&self.s) }
    }
}

} // verus!
