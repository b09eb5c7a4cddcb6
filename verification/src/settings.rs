//! Everything that the player can adjust.

use vstd::prelude::*;

verus! {

use crate::geometry::Shape;
use crate::midi::Note;

/// A cap on the number of balls in play.
pub struct NumBallsLimit {
    pub enabled: bool,
    pub limit: usize,
}

/// A cap on the number of times a ball may strike a pad.
pub struct BounceLimit {
    pub enabled: bool,
    pub limit: usize,
}

/// The physical world. Spin, bounciness and gravity are in thousandths.
pub struct World {
    pub tombola_shape: Shape,
    /// Thousandths of a radian per second.
    pub tombola_spin: i32,
    /// Thousandths of the coefficient of restitution.
    pub bounciness: u32,
    /// Thousandths of standard gravity.
    pub gravity: u32,
    pub max_balls: NumBallsLimit,
    pub max_bounces: BounceLimit,
}

/// Plays every note at `value` instead of the velocity of the impact.
pub struct FixedNoteVelocity {
    pub enabled: bool,
    pub value: u8,
}

/// Holds every note for `value` milliseconds instead of the length that the
/// impact gives.
pub struct FixedNoteLength {
    pub enabled: bool,
    pub value: u64,
}

pub struct Midi {
    /// The pitch class of each pad, by the index of the pad.
    pub tombola_notes: Vec<Note>,
    pub fixed_note_velocity: FixedNoteVelocity,
    pub fixed_note_length: FixedNoteLength,
}

pub struct Settings {
    pub world: World,
    pub midi: Midi,
}

impl World {
    /// The angular velocity of the tombola, in thousandths of a radian per
    /// second: it turns against the sign of its spin.
    pub fn angular_velocity(&self) -> (velocity: i64)
        ensures
            velocity == -(self.tombola_spin as int),
    {
        -(self.tombola_spin as i64)
    }
}

impl Default for Settings {
    /// A hexagon that plays C, E, G, Bb, D and F, with every cap and
    /// override switched off.
    fn default() -> (settings: Settings)
        ensures
            settings.world.tombola_shape == Shape::Hexagon,
            settings.world.tombola_spin == 1500,
            settings.world.bounciness == 1000,
            settings.world.gravity == 1000,
            !settings.world.max_balls.enabled,
            settings.world.max_balls.limit == 10,
            !settings.world.max_bounces.enabled,
            settings.world.max_bounces.limit == 5,
            settings.midi.tombola_notes@ == seq![
                Note::C,
                Note::E,
                Note::G,
                Note::ASharp,
                Note::D,
                Note::F,
            ],
            !settings.midi.fixed_note_velocity.enabled,
            settings.midi.fixed_note_velocity.value == 64,
            !settings.midi.fixed_note_length.enabled,
            settings.midi.fixed_note_length.value == 100,
    {
        let mut tombola_notes: Vec<Note> = Vec::new();
        tombola_notes.push(Note::C);
        tombola_notes.push(Note::E);
        tombola_notes.push(Note::G);
        tombola_notes.push(Note::ASharp);
        tombola_notes.push(Note::D);
        tombola_notes.push(Note::F);
        assert(tombola_notes@ =~= seq![
            Note::C,
            Note::E,
            Note::G,
            Note::ASharp,
            Note::D,
            Note::F,
        ]);
        Settings {
            world: World {
                tombola_shape: Shape::Hexagon,
                tombola_spin: 1500,
                bounciness: 1000,
                gravity: 1000,
                max_balls: NumBallsLimit { enabled: false, limit: 10 },
                max_bounces: BounceLimit { enabled: false, limit: 5 },
            },
            midi: Midi {
                tombola_notes,
                fixed_note_velocity: FixedNoteVelocity { enabled: false, value: 64 },
                fixed_note_length: FixedNoteLength { enabled: false, value: 100 },
            },
        }
    }
}

} // verus!
