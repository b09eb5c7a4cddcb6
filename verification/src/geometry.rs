//! The shape of the tombola and the places of its sides.

use vstd::prelude::*;

verus! {

/// The regular polygons that a tombola can be.
#[derive(Clone, Copy, PartialEq, Eq, Structural, Debug)]
pub enum Shape {
    Square,
    Pentagon,
    Hexagon,
    Heptagon,
    Octagon,
}

/// Where one side of a regular polygon lies, as exact fractions of a full turn.
///
/// The midpoint of the side lies at `step / sides` of a turn from the upward
/// direction towards the right, at the distance of the apothem from the
/// centre: at `apothem * (sin a, cos a)` for the angle `a` of that fraction.
/// The side itself is turned by the same fraction in the negative sense, which
/// lays it tangent to the inscribed circle.
#[derive(Clone, Copy, PartialEq, Eq, Structural, Debug)]
pub struct SideTransform {
    pub step: usize,
    pub sides: usize,
}

impl Shape {
    /// The number of sides of this shape.
    pub open spec fn num_sides(self) -> int {
        match self {
            Shape::Square => 4,
            Shape::Pentagon => 5,
            Shape::Hexagon => 6,
            Shape::Heptagon => 7,
            Shape::Octagon => 8,
        }
    }

    /// The name shown for this shape.
    pub open spec fn name(self) -> Seq<char> {
        match self {
            Shape::Square => "Square"@,
            Shape::Pentagon => "Pentagon"@,
            Shape::Hexagon => "Hexagon"@,
            Shape::Heptagon => "Heptagon"@,
            Shape::Octagon => "Octagon"@,
        }
    }

    pub fn to_string(&self) -> (name: String)
        ensures
            name@ == self.name(),
    {
        match self {
            Shape::Square => "Square".to_owned(),
            Shape::Pentagon => "Pentagon".to_owned(),
            Shape::Hexagon => "Hexagon".to_owned(),
            Shape::Heptagon => "Heptagon".to_owned(),
            Shape::Octagon => "Octagon".to_owned(),
        }
    }

    pub fn get_num_sides(&self) -> (sides: usize)
        ensures
            sides == self.num_sides(),
            4 <= sides <= 8,
    {
        match self {
            Shape::Square => 4,
            Shape::Pentagon => 5,
            Shape::Hexagon => 6,
            Shape::Heptagon => 7,
            Shape::Octagon => 8,
        }
    }

    /// The places of the sides of this shape, first side on top, going round
    /// in steps of one side.
    pub fn get_side_transforms(&self) -> (transforms: Vec<SideTransform>)
        ensures
            transforms@ == polygon_transforms(self.num_sides()),
            transforms@.len() == self.num_sides(),
    {
        polygon(self.get_num_sides())
    }
}

/// The places of the sides of a regular polygon with `num_sides` sides: side
/// `i` lies `i` steps round. Fewer than three sides make no polygon and have
/// no places.
pub open spec fn polygon_transforms(num_sides: int) -> Seq<SideTransform> {
    if num_sides < 3 {
        Seq::empty()
    } else {
        Seq::new(
            num_sides as nat,
            |i: int| (SideTransform { step: i as usize, sides: num_sides as usize }),
        )
    }
}

/// Lays out the sides of a regular polygon. Never fails: fewer than three
/// sides give an empty layout.
pub fn polygon(num_sides: usize) -> (transforms: Vec<SideTransform>)
    ensures
        transforms@ == polygon_transforms(num_sides as int),
{
    let mut transforms: Vec<SideTransform> = Vec::new();
    if num_sides < 3 {
        return transforms;
    }
    let mut step: usize = 0;
    while step < num_sides
        invariant
            3 <= num_sides,
            step <= num_sides,
            transforms@.len() == step,
            forall|i: int|
                0 <= i < step ==> transforms@[i] == (SideTransform {
                    step: i as usize,
                    sides: num_sides,
                }),
        decreases num_sides - step,
    {
        transforms.push(SideTransform { step, sides: num_sides });
        step += 1;
    }
    transforms
}

/// A polygon of three or more sides has one place for each side, all of the
/// same polygon, and each place lies exactly one step, the `num_sides`-th
/// part of a turn, beyond the one before it.
pub proof fn lemma_polygon_is_closed(num_sides: int)
    requires
        3 <= num_sides <= usize::MAX,
    ensures
        polygon_transforms(num_sides).len() == num_sides,
        polygon_transforms(num_sides)[0].step == 0,
        forall|i: int|
            0 <= i < num_sides ==> (#[trigger] polygon_transforms(num_sides)[i]).sides
                == num_sides,
        forall|i: int|
            1 <= i < num_sides ==> (#[trigger] polygon_transforms(num_sides)[i]).step
                == polygon_transforms(num_sides)[i - 1].step + 1,
{
}

} // verus!
