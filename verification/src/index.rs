//! Indexes of the layered consensus pipeline.
use vstd::prelude::*;

verus! {

/// The value of the index in the consensus pipeline.
#[derive(Debug, Clone, Copy, PartialEq, Eq, PartialOrd, Ord, Hash, Structural)]
pub struct IndexValue(pub u64);

impl IndexValue {
    pub fn new(value: u64) -> (r: Self)
        ensures
            r.0 == value,
    {
        IndexValue(value)
    }

    pub fn genesis() -> (r: Self)
        ensures
            r.0 == 0,
    {
        IndexValue(0)
    }
}

/// Index of a certificate round in the layered consensus pipeline.
///
/// Each round value passes through the four stages in turn:
/// availability -> confirmation -> block -> transition.
#[derive(Debug, Clone, Copy, PartialEq, Eq, PartialOrd, Ord, Hash, Structural)]
pub enum Index {
    Availability(IndexValue),
    Confirmation(IndexValue),
    Block(IndexValue),
    Transition(IndexValue),
    Unassigned,
}

/// The index that follows `i` in the pipeline; none after `Unassigned`.
pub open spec fn spec_next(i: Index) -> Option<Index> {
    match i {
        Index::Availability(v) => Some(Index::Confirmation(v)),
        Index::Confirmation(v) => Some(Index::Block(v)),
        Index::Block(v) => Some(Index::Transition(v)),
        Index::Transition(v) => Some(Index::Availability(IndexValue((v.0 + 1) as u64))),
        Index::Unassigned => None,
    }
}

/// Whether the round after `i` has a value that fits: only a transition index at
/// the largest round value has none.
pub open spec fn has_next_value(i: Index) -> bool {
    !(i matches Index::Transition(v) && v.0 == u64::MAX)
}

/// The round value carried by `i`; zero for `Unassigned`.
pub open spec fn spec_value(i: Index) -> IndexValue {
    match i {
        Index::Availability(v) => v,
        Index::Confirmation(v) => v,
        Index::Block(v) => v,
        Index::Transition(v) => v,
        Index::Unassigned => IndexValue(0),
    }
}

impl Index {
    /// The next round of the pipeline.
    pub fn next(&self) -> (r: Option<Index>)
        requires
            has_next_value(*self),
        ensures
            r == spec_next(*self),
    {
        match self {
            Index::Availability(index) => Some(Index::Confirmation(*index)),
            Index::Confirmation(index) => Some(Index::Block(*index)),
            Index::Block(index) => Some(Index::Transition(*index)),
            Index::Transition(index) => Some(Index::Availability(IndexValue(index.0 + 1))),
            Index::Unassigned => None,
        }
    }

    /// The genesis index.
    pub open spec fn genesis_spec() -> Index {
        Index::Availability(IndexValue(0))
    }

    pub fn genesis() -> (r: Self)
        ensures
            r == Index::genesis_spec(),
    {
        Index::Availability(IndexValue::genesis())
    }

    pub fn is_availability(&self) -> (r: bool)
        ensures
            r == (*self is Availability),
    {
        matches!(self, Index::Availability(_))
    }

    pub fn is_transition(&self) -> (r: bool)
        ensures
            r == (*self is Transition),
    {
        matches!(self, Index::Transition(_))
    }

    pub fn is_confirmation(&self) -> (r: bool)
        ensures
            r == (*self is Confirmation),
    {
        matches!(self, Index::Confirmation(_))
    }

    pub fn is_block(&self) -> (r: bool)
        ensures
            r == (*self is Block),
    {
        matches!(self, Index::Block(_))
    }

    pub fn value(&self) -> (r: IndexValue)
        ensures
            r == spec_value(*self),
    {
        match self {
            Index::Availability(index) | Index::Confirmation(index) | Index::Block(index)
            | Index::Transition(index) => *index,
            Index::Unassigned => IndexValue(0),
        }
    }
}

/// Four steps of the pipeline lead from a stage of a round to the same stage of
/// the next round, and every step keeps or raises the round value.
pub proof fn lemma_four_steps_advance_round(i: Index)
    requires
        !(i is Unassigned),
        spec_value(i).0 < u64::MAX,
    ensures
        ({
            let a = spec_next(i).unwrap();
            let b = spec_next(a).unwrap();
            let c = spec_next(b).unwrap();
            let d = spec_next(c).unwrap();
            &&& spec_value(d).0 == spec_value(i).0 + 1
            &&& (i is Availability ==> d is Availability)
            &&& (i is Confirmation ==> d is Confirmation)
            &&& (i is Block ==> d is Block)
            &&& (i is Transition ==> d is Transition)
        }),
{
}

} // verus!
