//! Compact index types for agents, actions and observations, and small
//! records built from them.

use vstd::prelude::*;

verus! {

/// The index that is always 0.
#[derive(Clone, Copy, PartialEq, Eq, Structural, PartialOrd, Ord, Hash, Debug, Default)]
pub struct ZeroIndex();

impl ZeroIndex {
    pub fn index(&self) -> (r: usize)
        ensures r == 0,
    {
        0
    }

    pub fn new(_x: usize) -> (r: ZeroIndex)
        ensures r == ZeroIndex(),
    {
        ZeroIndex()
    }

    pub fn max() -> (r: ZeroIndex)
        ensures r == ZeroIndex(),
    {
        ZeroIndex()
    }
}

/// An agent, stored in a byte.
#[derive(Clone, Copy, PartialEq, Eq, Structural, PartialOrd, Ord, Hash, Debug, Default)]
pub struct AgtIndex(pub u8);

/// An action, stored in two bytes.
#[derive(Clone, Copy, PartialEq, Eq, Structural, PartialOrd, Ord, Hash, Debug, Default)]
pub struct ActionIndex(pub u16);

/// An observation, stored in four bytes.
#[derive(Clone, Copy, PartialEq, Eq, Structural, PartialOrd, Ord, Hash, Debug, Default)]
pub struct ObsIndex(pub u32);

impl AgtIndex {
    pub fn new(x: usize) -> (r: AgtIndex)
        requires x <= u8::MAX,
        ensures r.0 == x,
    {
        AgtIndex(x as u8)
    }

    pub fn index(self) -> (r: usize)
        ensures r == self.0,
    {
        self.0 as usize
    }

    /// The largest index.
    pub fn end() -> (r: AgtIndex)
        ensures r.0 == u8::MAX,
    {
        AgtIndex(u8::MAX)
    }
}

impl ActionIndex {
    pub fn new(x: usize) -> (r: ActionIndex)
        requires x <= u16::MAX,
        ensures r.0 == x,
    {
        ActionIndex(x as u16)
    }

    pub fn index(self) -> (r: usize)
        ensures r == self.0,
    {
        self.0 as usize
    }

    /// The largest index.
    pub fn end() -> (r: ActionIndex)
        ensures r.0 == u16::MAX,
    {
        ActionIndex(u16::MAX)
    }
}

impl ObsIndex {
    pub fn new(x: usize) -> (r: ObsIndex)
        requires x <= u32::MAX,
        ensures r.0 == x,
    {
        ObsIndex(x as u32)
    }

    pub fn index(self) -> (r: usize)
        ensures r == self.0,
    {
        self.0 as usize
    }

    /// The largest index.
    pub fn end() -> (r: ObsIndex)
        ensures r.0 == u32::MAX,
    {
        ObsIndex(u32::MAX)
    }
}

/// Short for `AgtIndex::new`.
pub fn agent_index(index: usize) -> (r: AgtIndex)
    requires index <= u8::MAX,
    ensures r.0 == index,
{
    AgtIndex::new(index)
}

/// Short for `ActionIndex::new`.
pub fn action_index(index: usize) -> (r: ActionIndex)
    requires index <= u16::MAX,
    ensures r.0 == index,
{
    ActionIndex::new(index)
}

/// Short for `ObsIndex::new`.
pub fn obs_index(index: usize) -> (r: ObsIndex)
    requires index <= u32::MAX,
    ensures r.0 == index,
{
    ObsIndex::new(index)
}

/// A transition label: one action per agent.
#[derive(Clone, Debug)]
pub struct DEdge {
    pub act: Vec<ActionIndex>,
}

impl DEdge {
    pub fn new(act: Vec<ActionIndex>) -> (r: DEdge)
        ensures r.act == act,
    {
        DEdge { act }
    }
}

/// A location: whether it is a goal, the observation of each agent, and
/// data of the user's.
#[derive(Clone, Debug)]
pub struct DNode<T> {
    pub is_winning: bool,
    pub obs: Vec<ObsIndex>,
    pub data: T,
}

impl<T> DNode<T> {
    pub fn new(is_winning: bool, obs: Vec<ObsIndex>, data: T) -> (r: DNode<T>)
        ensures r.is_winning == is_winning, r.obs == obs, r.data == data,
    {
        DNode { is_winning, obs, data }
    }
}

/// An entry of a memoryless strategy: nothing, a goal, or an action with
/// the distance to the goal it is chosen for (at least 1).
#[derive(Clone, Copy, PartialEq, Eq, Debug)]
pub enum MapEntry<A> {
    Absent,
    Winning,
    Action(u32, A),
}

/// A memoryless strategy: the action at each location.
#[derive(Clone, Debug)]
pub struct VecStrat<A>(pub Vec<A>);

impl VecStrat<ActionIndex> {
    /// The strategy playing action `f[l]` at location `l`.
    pub fn new(f: &Vec<usize>) -> (r: VecStrat<ActionIndex>)
        requires forall|i: int| 0 <= i < f@.len() ==> #[trigger] f@[i] <= u16::MAX,
        ensures
            r.0@.len() == f@.len(),
            forall|i: int| 0 <= i < f@.len() ==> (#[trigger] r.0@[i]).0 == f@[i],
    {
        let mut v: Vec<ActionIndex> = Vec::new();
        let mut i: usize = 0;
        while i < f.len()
            invariant
                i <= f@.len(),
                forall|j: int| 0 <= j < f@.len() ==> #[trigger] f@[j] <= u16::MAX,
                v@.len() == i,
                forall|j: int| 0 <= j < i ==> (#[trigger] v@[j]).0 == f@[j],
            decreases f@.len() - i,
        {
            v.push(ActionIndex::new(f[i]));
            i = i + 1;
        }
        VecStrat(v)
    }
}

impl VecStrat<[ActionIndex; 1]> {
    /// The one-agent strategy playing action `f[l]` at location `l`.
    pub fn new1(f: &Vec<usize>) -> (r: VecStrat<[ActionIndex; 1]>)
        requires forall|i: int| 0 <= i < f@.len() ==> #[trigger] f@[i] <= u16::MAX,
        ensures
            r.0@.len() == f@.len(),
            forall|i: int| 0 <= i < f@.len() ==> (#[trigger] r.0@[i])[0].0 == f@[i],
    {
        let mut v: Vec<[ActionIndex; 1]> = Vec::new();
        let mut i: usize = 0;
        while i < f.len()
            invariant
                i <= f@.len(),
                forall|j: int| 0 <= j < f@.len() ==> #[trigger] f@[j] <= u16::MAX,
                v@.len() == i,
                forall|j: int| 0 <= j < i ==> (#[trigger] v@[j])[0].0 == f@[j],
            decreases f@.len() - i,
        {
            let a = [ActionIndex::new(f[i])];
            v.push(a);
            i = i + 1;
        }
        VecStrat(v)
    }
}

/// A sequence of locations visited so far.
pub trait History<N: Copy> {
    spec fn locs(&self) -> Seq<N>;

    fn len(&self) -> (r: usize)
        ensures r == self.locs().len();

    /// The `i`th location.
    fn loc(&self, i: usize) -> (r: N)
        requires i < self.locs().len(),
        ensures r == self.locs()[i as int];
}

impl<N: Copy> History<N> for Vec<N> {
    open spec fn locs(&self) -> Seq<N> {
        self@
    }

    fn len(&self) -> (r: usize) {
        self.len()
    }

    fn loc(&self, i: usize) -> (r: N) {
        self[i]
    }
}

/// Counters of a strategy search.
#[derive(Clone, Copy, Debug)]
pub struct Stats {
    pub steps: u64,
    pub nodes: u64,
    pub backtracks: i64,
}

impl Default for Stats {
    fn default() -> (r: Stats)
        ensures r.steps == 0 && r.nodes == 0 && r.backtracks == 0,
    {
        Stats { steps: 0, nodes: 0, backtracks: 0 }
    }
}

impl Stats {
    /// The counters of both searches added up.
    pub fn add(self, rhs: Stats) -> (r: Stats)
        requires
            self.steps + rhs.steps <= u64::MAX,
            self.nodes + rhs.nodes <= u64::MAX,
            i64::MIN <= self.backtracks + rhs.backtracks <= i64::MAX,
        ensures
            r.steps == self.steps + rhs.steps,
            r.nodes == self.nodes + rhs.nodes,
            r.backtracks == self.backtracks + rhs.backtracks,
    {
        Stats {
            steps: self.steps + rhs.steps,
            nodes: self.nodes + rhs.nodes,
            backtracks: self.backtracks + rhs.backtracks,
        }
    }

    pub fn add_assign(&mut self, rhs: Stats)
        requires
            old(self).steps + rhs.steps <= u64::MAX,
            old(self).nodes + rhs.nodes <= u64::MAX,
            i64::MIN <= old(self).backtracks + rhs.backtracks <= i64::MAX,
        ensures
            final(self).steps == old(self).steps + rhs.steps,
            final(self).nodes == old(self).nodes + rhs.nodes,
            final(self).backtracks == old(self).backtracks + rhs.backtracks,
    {
        *self = self.add(rhs);
    }
}

} // verus!
