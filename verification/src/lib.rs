//! A musical tombola: balls bounce inside a spinning polygon whose sides are
//! pads, and every impact becomes a MIDI note.
//!
//! This crate holds the rules of the instrument as plain data and verified
//! functions: how a ball's size and speed become a note, how long a pad keeps
//! a note sounding, when a note is switched off again, how the pad ring is
//! rebuilt when its shape changes, and which balls are retired.
//!
//! Quantities that a physics engine reports as real numbers are held as
//! integers in thousandths of the engine's unit (see [`midi::SPEED_SCALE`]).

pub mod ball;
pub mod geometry;
pub mod midi;
pub mod pad;
pub mod population;
pub mod settings;
pub mod size;
pub mod tombola;
