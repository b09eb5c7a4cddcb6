//! Ball sizes.

use vstd::prelude::*;

verus! {

/// The size of a ball. Bigger balls are heavier to look at and play lower.
#[derive(Copy, Clone, PartialEq, Eq, Structural, Debug)]
pub enum Size {
    Small,
    Medium,
    Large,
}

impl Size {
    /// The octave a ball of this size plays in.
    pub open spec fn octave(self) -> int {
        match self {
            Size::Small => 4,
            Size::Medium => 3,
            Size::Large => 2,
        }
    }

    /// The radius of a ball of this size, in whole length units.
    pub open spec fn radius(self) -> int {
        match self {
            Size::Small => 10,
            Size::Medium => 15,
            Size::Large => 25,
        }
    }

    /// The position of this size in the order Small < Medium < Large.
    pub open spec fn rank(self) -> int {
        match self {
            Size::Small => 0,
            Size::Medium => 1,
            Size::Large => 2,
        }
    }

    /// The size of the given rank; ranks beyond either end give the nearest size.
    pub open spec fn of_rank(rank: int) -> Size {
        if rank <= 0 {
            Size::Small
        } else if rank == 1 {
            Size::Medium
        } else {
            Size::Large
        }
    }

    pub fn to_octave(&self) -> (octave: i32)
        ensures
            octave == self.octave(),
    {
        match self {
            Size::Small => 4,
            Size::Medium => 3,
            Size::Large => 2,
        }
    }

    pub fn to_radius(&self) -> (radius: u32)
        ensures
            radius == self.radius(),
    {
        match self {
            Size::Small => 10,
            Size::Medium => 15,
            Size::Large => 25,
        }
    }

    /// One size up; `Large` stays `Large`.
    pub fn increment(&self) -> (next: Size)
        ensures
            next == Size::of_rank(self.rank() + 1),
    {
        match self {
            Size::Small => Size::Medium,
            Size::Medium => Size::Large,
            Size::Large => Size::Large,
        }
    }

    /// One size down; `Small` stays `Small`.
    pub fn decrement(&self) -> (previous: Size)
        ensures
            previous == Size::of_rank(self.rank() - 1),
    {
        match self {
            Size::Small => Size::Small,
            Size::Medium => Size::Small,
            Size::Large => Size::Medium,
        }
    }
}

/// Smaller balls play higher: the octave falls by one with each step up in size.
pub proof fn lemma_octave_falls_with_size(size: Size)
    ensures
        size.octave() == 4 - size.rank(),
        2 <= size.octave() <= 4,
{
}

} // verus!
