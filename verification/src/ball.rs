//! Balls.

use vstd::prelude::*;

verus! {

use crate::size::Size;

/// What the instrument remembers of a ball.
#[derive(Clone, Copy, PartialEq, Eq, Structural, Debug)]
pub struct Ball {
    pub size: Size,
    /// How many times the ball has struck a pad.
    pub bounces: usize,
    /// When the ball was made, on any clock that never runs backwards.
    pub spawn_time: u64,
}

impl Ball {
    /// A ball that has not bounced yet.
    pub fn new(size: Size, spawn_time: u64) -> (ball: Ball)
        ensures
            ball == (Ball { size, bounces: 0, spawn_time }),
    {
        Ball { size, bounces: 0, spawn_time }
    }
}

/// A ball together with the identifier under which collisions name it, and
/// what the physics says of it: where it is and how fast it moves, in
/// thousandths of a length unit.
#[derive(Clone, Copy, PartialEq, Eq, Structural, Debug)]
pub struct BallEntry {
    pub entity: u64,
    pub ball: Ball,
    pub x: i64,
    pub y: i64,
    pub speed: u64,
}

/// The identifiers of the balls of a table, in its order.
pub open spec fn ball_ids(balls: Seq<BallEntry>) -> Seq<u64> {
    Seq::new(balls.len(), |i: int| balls[i].entity)
}

} // verus!
