//! Small index types used throughout the library: locations, observations,
//! actions, agents and transducer states.

use vstd::prelude::*;

verus! {

/// A location of an explicit game; an index into its location table.
#[derive(Clone, Copy, PartialEq, Eq, Structural, PartialOrd, Ord, Hash, Debug)]
pub struct Loc(pub u32);

/// An observation of one agent; an index into that agent's observation table.
#[derive(Clone, Copy, PartialEq, Eq, Structural, PartialOrd, Ord, Hash, Debug)]
pub struct Obs(pub u32);

/// An action of one agent.
#[derive(Clone, Copy, PartialEq, Eq, Structural, PartialOrd, Ord, Hash, Debug)]
pub struct Act(pub u16);

/// An agent.
#[derive(Clone, Copy, PartialEq, Eq, Structural, PartialOrd, Ord, Hash, Debug)]
pub struct Agt(pub u8);

/// A state of a finite-memory strategy (transducer).
#[derive(Clone, Copy, PartialEq, Eq, Structural, PartialOrd, Ord, Hash, Debug)]
pub struct TransducerState(pub u32);

impl View for Loc {
    type V = Loc;

    open spec fn view(&self) -> Loc {
        *self
    }
}

impl View for Obs {
    type V = Obs;

    open spec fn view(&self) -> Obs {
        *self
    }
}

impl Loc {
    pub fn new(x: u32) -> (r: Loc)
        ensures r.0 == x,
    {
        Loc(x)
    }

    pub fn index(self) -> (r: usize)
        ensures r == self.0,
    {
        self.0 as usize
    }

    pub fn value(self) -> (r: u32)
        ensures r == self.0,
    {
        self.0
    }
}

impl Obs {
    pub fn new(x: u32) -> (r: Obs)
        ensures r.0 == x,
    {
        Obs(x)
    }

    pub fn index(self) -> (r: usize)
        ensures r == self.0,
    {
        self.0 as usize
    }

    pub fn value(self) -> (r: u32)
        ensures r == self.0,
    {
        self.0
    }
}

impl Act {
    pub fn new(x: u16) -> (r: Act)
        ensures r.0 == x,
    {
        Act(x)
    }

    pub fn index(self) -> (r: usize)
        ensures r == self.0,
    {
        self.0 as usize
    }

    pub fn value(self) -> (r: u16)
        ensures r == self.0,
    {
        self.0
    }
}

impl Agt {
    pub fn new(x: u8) -> (r: Agt)
        ensures r.0 == x,
    {
        Agt(x)
    }

    pub fn index(self) -> (r: usize)
        ensures r == self.0,
    {
        self.0 as usize
    }

    pub fn value(self) -> (r: u8)
        ensures r == self.0,
    {
        self.0
    }
}

impl TransducerState {
    pub fn new(x: u32) -> (r: TransducerState)
        ensures r.0 == x,
    {
        TransducerState(x)
    }

    pub fn index(self) -> (r: usize)
        ensures r == self.0,
    {
        self.0 as usize
    }

    pub fn value(self) -> (r: u32)
        ensures r == self.0,
    {
        self.0
    }
}

/// The location with index `l`.
pub fn loc(l: usize) -> (r: Loc)
    requires l <= u32::MAX,
    ensures r.0 == l,
{
    Loc(l as u32)
}

/// The observation with index `o`.
pub fn obs(o: usize) -> (r: Obs)
    requires o <= u32::MAX,
    ensures r.0 == o,
{
    Obs(o as u32)
}

/// The action with index `a`.
pub fn act(a: usize) -> (r: Act)
    requires a <= u16::MAX,
    ensures r.0 == a,
{
    Act(a as u16)
}

/// The agent with index `a`.
pub fn agt(a: usize) -> (r: Agt)
    requires a <= u8::MAX,
    ensures r.0 == a,
{
    Agt(a as u8)
}

/// The transducer state with index `s`.
pub fn transducer_state(s: usize) -> (r: TransducerState)
    requires s <= u32::MAX,
    ensures r.0 == s,
{
    TransducerState(s as u32)
}

} // verus!
