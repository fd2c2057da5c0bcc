//! The maps of the `vec_map` crate and the sets of the `bit_set` crate,
//! seen through their contents.

use vstd::prelude::*;
use vec_map::VecMap;
use bit_set::BitSet;

verus! {

#[verifier::external_type_specification]
#[verifier::external_body]
#[verifier::reject_recursive_types(V)]
pub struct ExVecMap<V>(VecMap<V>);

#[verifier::external_type_specification]
#[verifier::external_body]
#[verifier::reject_recursive_types(B)]
pub struct ExBitSet<B>(BitSet<B>);

/// The entries of a `VecMap<u32>`.
pub uninterp spec fn vm_map(m: VecMap<u32>) -> Map<nat, u32>;

/// The members of a `BitSet`.
pub uninterp spec fn bs_set(b: BitSet<u32>) -> Set<nat>;

/// `VecMap::new`: an empty map.
#[verifier::external_body]
pub(crate) fn vm_new() -> (r: VecMap<u32>)
    ensures vm_map(r).dom() == Set::<nat>::empty(),
{
    VecMap::new()
}

/// `VecMap::clone`: a map with the same entries.
#[verifier::external_body]
pub(crate) fn vm_clone(m: &VecMap<u32>) -> (r: VecMap<u32>)
    ensures vm_map(r) == vm_map(*m),
{
    m.clone()
}

/// `VecMap::len`: the number of entries.
#[verifier::external_body]
pub(crate) fn vm_len(m: &VecMap<u32>) -> (r: usize)
    ensures r == vm_map(*m).dom().len(),
{
    m.len()
}

/// `VecMap::contains_key`.
#[verifier::external_body]
pub(crate) fn vm_contains(m: &VecMap<u32>, key: usize) -> (r: bool)
    ensures r == vm_map(*m).dom().contains(key as nat),
{
    m.contains_key(key)
}

/// `VecMap::get`, the value copied out.
#[verifier::external_body]
pub(crate) fn vm_get(m: &VecMap<u32>, key: usize) -> (r: Option<u32>)
    ensures
        match r {
            Some(v) => vm_map(*m).dom().contains(key as nat) && vm_map(*m)[key as nat] == v,
            None => !vm_map(*m).dom().contains(key as nat),
        },
{
    m.get(key).copied()
}

/// `VecMap::insert`: sets the entry of `key`, returning the value it had.
/// The storage grows to `key + 1` slots, so `key + 1` must not overflow.
#[verifier::external_body]
pub(crate) fn vm_insert(m: &mut VecMap<u32>, key: usize, value: u32) -> (r: Option<u32>)
    requires key < usize::MAX,
    ensures
        vm_map(*final(m)) == vm_map(*old(m)).insert(key as nat, value),
        match r {
            Some(v) => vm_map(*old(m)).dom().contains(key as nat) && vm_map(*old(m))[key as nat] == v,
            None => !vm_map(*old(m)).dom().contains(key as nat),
        },
{
    m.insert(key, value)
}

/// `VecMap::remove`: removes the entry of `key`, returning its value.
#[verifier::external_body]
pub(crate) fn vm_remove(m: &mut VecMap<u32>, key: usize) -> (r: Option<u32>)
    ensures
        vm_map(*final(m)) == vm_map(*old(m)).remove(key as nat),
        match r {
            Some(v) => vm_map(*old(m)).dom().contains(key as nat) && vm_map(*old(m))[key as nat] == v,
            None => !vm_map(*old(m)).dom().contains(key as nat),
        },
{
    m.remove(key)
}

/// `BitSet::new`: the empty set.
#[verifier::external_body]
pub(crate) fn bs_new() -> (r: BitSet<u32>)
    ensures bs_set(r) == Set::<nat>::empty(),
{
    BitSet::new()
}

/// `BitSet::reserve_len`: room for `len` elements, members unchanged.
#[verifier::external_body]
pub(crate) fn bs_reserve_len(b: &mut BitSet<u32>, len: usize)
    ensures bs_set(*final(b)) == bs_set(*old(b)),
{
    b.reserve_len(len)
}

/// `BitSet::clear`: removes every member.
#[verifier::external_body]
pub(crate) fn bs_clear(b: &mut BitSet<u32>)
    ensures bs_set(*final(b)) == Set::<nat>::empty(),
{
    b.clear()
}

/// `BitSet::contains`.
#[verifier::external_body]
pub(crate) fn bs_contains(b: &BitSet<u32>, value: usize) -> (r: bool)
    ensures r == bs_set(*b).contains(value as nat),
{
    b.contains(value)
}

/// `BitSet::insert`: adds `value`, returning whether it was absent. The
/// storage grows to `value + 1` bits, so `value + 1` must not overflow.
#[verifier::external_body]
pub(crate) fn bs_insert(b: &mut BitSet<u32>, value: usize) -> (r: bool)
    requires value < usize::MAX,
    ensures
        bs_set(*final(b)) == bs_set(*old(b)).insert(value as nat),
        r == !bs_set(*old(b)).contains(value as nat),
{
    b.insert(value)
}

} // verus!
