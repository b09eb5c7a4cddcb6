//! Notes, the events that announce them, and the bytes that carry them.

use vstd::prelude::*;

verus! {

use crate::size::Size;

/// Status byte of a note-on message (channel 1).
pub const NOTE_ON_MSG: u8 = 0x90;

/// Status byte of a note-off message (channel 1).
pub const NOTE_OFF_MSG: u8 = 0x80;

/// Status byte of a control change message (channel 1).
pub const CC: u8 = 0xB0;

/// Controller number of "all notes off".
pub const PANIC: u8 = 0x7B;

/// The release velocity sent with every note-off.
pub const NOTE_OFF_VELOCITY: u8 = 0x7F;

/// The octave in which [`Note::base`] is given.
pub const BASE_OCTAVE: i32 = 3;

/// The number of semitones from one octave to the next.
pub const NOTES_PER_OCTAVE: i32 = 12;

/// Speeds are integers in units of one `SPEED_SCALE`-th of a length unit per
/// second: a speed of 400 units per second is written `400 * SPEED_SCALE`.
pub const SPEED_SCALE: u64 = 1000;

/// Impacts at or below this speed (50 units per second) are played at
/// velocity 0.
pub const MIN_SPEED: u64 = 50_000;

/// Impacts at or above this speed (750 units per second) are played at full
/// velocity.
pub const MAX_SPEED: u64 = 750_000;

/// The loudest MIDI velocity.
pub const MAX_MIDI_VEL: u8 = 0x7F;

/// The longest note that an impact can start, in milliseconds.
pub const MAX_DURATION: u64 = 400;

/// One of the twelve pitch classes.
#[derive(Clone, Copy, PartialEq, Eq, Structural, Debug)]
pub enum Note {
    C,
    CSharp,
    D,
    DSharp,
    E,
    F,
    FSharp,
    G,
    GSharp,
    A,
    ASharp,
    B,
}

impl Note {
    /// The MIDI note number of this pitch class in octave [`BASE_OCTAVE`].
    pub open spec fn base(self) -> int {
        match self {
            Note::C => 0x3C,
            Note::CSharp => 0x3D,
            Note::D => 0x3E,
            Note::DSharp => 0x3F,
            Note::E => 0x40,
            Note::F => 0x41,
            Note::FSharp => 0x42,
            Note::G => 0x43,
            Note::GSharp => 0x44,
            Note::A => 0x45,
            Note::ASharp => 0x46,
            Note::B => 0x47,
        }
    }

    /// The note number before it is cut to a byte: twelve semitones per octave
    /// away from the base octave.
    pub open spec fn pitch(self, octave: int) -> int {
        self.base() + (octave - BASE_OCTAVE as int) * NOTES_PER_OCTAVE as int
    }

    /// The byte that stands for this pitch class in the given octave. Pitches
    /// outside of a byte wrap around, as a cast to `u8` does.
    pub open spec fn value(self, octave: int) -> int {
        self.pitch(octave) % 256
    }

    /// The name shown for this pitch class.
    pub open spec fn name(self) -> Seq<char> {
        match self {
            Note::C => "C"@,
            Note::CSharp => "C#"@,
            Note::D => "D"@,
            Note::DSharp => "Eb"@,
            Note::E => "E"@,
            Note::F => "F"@,
            Note::FSharp => "F#"@,
            Note::G => "G"@,
            Note::GSharp => "G#"@,
            Note::A => "A"@,
            Note::ASharp => "Bb"@,
            Note::B => "B"@,
        }
    }

    fn base_value(&self) -> (base: u8)
        ensures
            base == self.base(),
    {
        match self {
            Note::C => 0x3C,
            Note::CSharp => 0x3D,
            Note::D => 0x3E,
            Note::DSharp => 0x3F,
            Note::E => 0x40,
            Note::F => 0x41,
            Note::FSharp => 0x42,
            Note::G => 0x43,
            Note::GSharp => 0x44,
            Note::A => 0x45,
            Note::ASharp => 0x46,
            Note::B => 0x47,
        }
    }

    /// The MIDI note number of this pitch class in `octave`, for every octave.
    ///
    /// No octave is refused. A pitch that does not fit a byte wraps around
    /// modulo 256; [`lemma_ball_notes_are_midi_notes`] shows that the octaves
    /// which balls play never get there.
    pub fn to_value(&self, octave: i32) -> (value: u8)
        ensures
            value == self.value(octave as int),
    {
        // Twelve times 2^31: a multiple of 256 that lifts every pitch above zero.
        let lift: i64 = 25_769_803_776;
        let shift: i64 = octave as i64 - BASE_OCTAVE as i64;
        assert(shift * NOTES_PER_OCTAVE == shift * 12);
        let pitch: i64 = self.base_value() as i64 + shift * 12;
        assert(pitch == self.pitch(octave as int));
        let lifted: u64 = (pitch + lift) as u64;
        assert((pitch + 25_769_803_776) % 256 == pitch % 256);
        (lifted % 256) as u8
    }

    pub fn to_string(&self) -> (name: String)
        ensures
            name@ == self.name(),
    {
        match self {
            Note::C => "C".to_owned(),
            Note::CSharp => "C#".to_owned(),
            Note::D => "D".to_owned(),
            Note::DSharp => "Eb".to_owned(),
            Note::E => "E".to_owned(),
            Note::F => "F".to_owned(),
            Note::FSharp => "F#".to_owned(),
            Note::G => "G".to_owned(),
            Note::GSharp => "G#".to_owned(),
            Note::A => "A".to_owned(),
            Note::ASharp => "Bb".to_owned(),
            Note::B => "B".to_owned(),
        }
    }
}

/// What the instrument asks of a MIDI output.
#[derive(Clone, Copy, PartialEq, Eq, Structural, Debug)]
pub enum MidiOutputEvent {
    NoteOn { note: Note, octave: i32, velocity: u8 },
    NoteOff { note: Note, octave: i32 },
}

impl MidiOutputEvent {
    /// The octave of the note that this event starts or stops.
    pub open spec fn octave(self) -> i32 {
        match self {
            MidiOutputEvent::NoteOn { octave, .. } => octave,
            MidiOutputEvent::NoteOff { octave, .. } => octave,
        }
    }

    /// The three bytes of the message that carries this event.
    pub open spec fn message(self) -> Seq<u8> {
        match self {
            MidiOutputEvent::NoteOn { note, octave, velocity } => seq![
                NOTE_ON_MSG,
                note.value(octave as int) as u8,
                velocity,
            ],
            MidiOutputEvent::NoteOff { note, octave } => seq![
                NOTE_OFF_MSG,
                note.value(octave as int) as u8,
                NOTE_OFF_VELOCITY,
            ],
        }
    }

    /// Encodes this event as status byte, note number and velocity.
    pub fn to_message(&self) -> (bytes: [u8; 3])
        ensures
            bytes@ == self.message(),
    {
        match self {
            MidiOutputEvent::NoteOn { note, octave, velocity } => {
                [NOTE_ON_MSG, note.to_value(*octave), *velocity]
            },
            MidiOutputEvent::NoteOff { note, octave } => {
                [NOTE_OFF_MSG, note.to_value(*octave), NOTE_OFF_VELOCITY]
            },
        }
    }
}

/// The "all notes off" message, sent when an output is given up.
pub fn panic_message() -> (bytes: [u8; 3])
    ensures
        bytes@ == seq![CC, PANIC, 0u8],
{
    [CC, PANIC, 0]
}

/// Encodes a queue of events, one message each, in order.
pub fn encode_events(events: &Vec<MidiOutputEvent>) -> (messages: Vec<[u8; 3]>)
    ensures
        messages@.len() == events@.len(),
        forall|i: int| 0 <= i < events@.len() ==> (#[trigger] messages@[i])@ == events@[i].message(),
{
    let mut messages: Vec<[u8; 3]> = Vec::new();
    let mut i: usize = 0;
    while i < events.len()
        invariant
            i <= events@.len(),
            messages@.len() == i,
            forall|j: int| 0 <= j < i ==> (#[trigger] messages@[j])@ == events@[j].message(),
        decreases events@.len() - i,
    {
        messages.push(events[i].to_message());
        i += 1;
    }
    messages
}

/// The speed after clamping to the range that is told apart.
pub open spec fn clamped_speed(speed: int) -> int {
    if speed < MIN_SPEED {
        MIN_SPEED as int
    } else if speed > MAX_SPEED {
        MAX_SPEED as int
    } else {
        speed
    }
}

/// `top` times the place of `speed` between the slowest and the fastest impact
/// that are told apart, rounded down.
pub open spec fn scaled_speed(speed: int, top: int) -> int {
    top * (clamped_speed(speed) - MIN_SPEED) / ((MAX_SPEED - MIN_SPEED) as int)
}

/// The MIDI velocity of an impact at `speed`.
pub open spec fn velocity_at(speed: int) -> int {
    scaled_speed(speed, MAX_MIDI_VEL as int)
}

/// The length in milliseconds of the note that an impact at `speed` starts.
pub open spec fn duration_at(speed: int) -> int {
    scaled_speed(speed, MAX_DURATION as int)
}

fn scale_speed(speed: u64, top: u64) -> (scaled: u64)
    requires
        top <= 1000,
    ensures
        scaled == scaled_speed(speed as int, top as int),
        scaled <= top,
{
    let low: u64 = MIN_SPEED;
    let high: u64 = MAX_SPEED;
    let clamped: u64 = if speed < low {
        low
    } else if speed > high {
        high
    } else {
        speed
    };
    let span: u64 = high - low;
    assert(top * (clamped - low) <= top * span) by (nonlinear_arith)
        requires
            clamped - low <= span,
            0 <= top,
    ;
    assert(top * span <= 1000 * 700_000) by (nonlinear_arith)
        requires
            top <= 1000,
            span == 700_000,
    ;
    let scaled: u64 = top * (clamped - low) / span;
    assert(scaled <= top) by (nonlinear_arith)
        requires
            scaled == (top * (clamped - low)) / (span as int),
            top * (clamped - low) <= top * span,
            span > 0,
            top >= 0,
    ;
    scaled
}

/// Maps an impact speed (in thousandths) to a MIDI velocity: speeds are
/// clamped to `MIN_SPEED..=MAX_SPEED`, then mapped linearly onto `0..=127`,
/// rounding down.
pub fn to_velocity(speed: u64) -> (velocity: u8)
    ensures
        velocity == velocity_at(speed as int),
        velocity <= MAX_MIDI_VEL,
{
    scale_speed(speed, MAX_MIDI_VEL as u64) as u8
}

/// Maps an impact speed (in thousandths) to a note length in milliseconds:
/// speeds are clamped to `MIN_SPEED..=MAX_SPEED`, then mapped linearly onto
/// `0..=MAX_DURATION`, rounding down.
pub fn to_note_duration(speed: u64) -> (millis: u64)
    ensures
        millis == duration_at(speed as int),
        millis <= MAX_DURATION,
{
    scale_speed(speed, MAX_DURATION)
}

/// A faster impact is never played softer: the velocity does not fall as the
/// speed rises, whether or not the speeds lie inside the clamping range.
pub proof fn lemma_velocity_monotonic(slower: int, faster: int)
    requires
        slower <= faster,
    ensures
        velocity_at(slower) <= velocity_at(faster),
{
    lemma_scaled_speed_monotonic(slower, faster, MAX_MIDI_VEL as int);
}

/// Every velocity is a MIDI data byte. At or below `MIN_SPEED` it is 0, the
/// velocity of `MIN_SPEED` itself; at or above `MAX_SPEED` it is 127, the
/// velocity of `MAX_SPEED` itself.
pub proof fn lemma_velocity_clamps(speed: int)
    ensures
        0 <= velocity_at(speed) <= 127,
        speed <= MIN_SPEED ==> velocity_at(speed) == 0,
        speed >= MAX_SPEED ==> velocity_at(speed) == 127,
        velocity_at(MIN_SPEED as int) == 0,
        velocity_at(MAX_SPEED as int) == 127,
{
    lemma_scaled_speed_bounds(speed, MAX_MIDI_VEL as int);
    lemma_scaled_speed_bounds(MIN_SPEED as int, MAX_MIDI_VEL as int);
    lemma_scaled_speed_bounds(MAX_SPEED as int, MAX_MIDI_VEL as int);
}

/// A faster impact never starts a shorter note.
pub proof fn lemma_duration_monotonic(slower: int, faster: int)
    requires
        slower <= faster,
    ensures
        duration_at(slower) <= duration_at(faster),
{
    lemma_scaled_speed_monotonic(slower, faster, MAX_DURATION as int);
}

/// No note is longer than `MAX_DURATION`. At or below `MIN_SPEED` the length
/// is 0; at or above `MAX_SPEED` it is `MAX_DURATION`.
pub proof fn lemma_duration_clamps(speed: int)
    ensures
        0 <= duration_at(speed) <= MAX_DURATION,
        speed <= MIN_SPEED ==> duration_at(speed) == 0,
        speed >= MAX_SPEED ==> duration_at(speed) == MAX_DURATION,
{
    lemma_scaled_speed_bounds(speed, MAX_DURATION as int);
}

proof fn lemma_scaled_speed_monotonic(slower: int, faster: int, top: int)
    requires
        slower <= faster,
        0 <= top,
    ensures
        scaled_speed(slower, top) <= scaled_speed(faster, top),
{
    let a = clamped_speed(slower) - 50_000;
    let b = clamped_speed(faster) - 50_000;
    assert(top * a <= top * b) by (nonlinear_arith)
        requires
            a <= b,
            0 <= top,
    ;
    assert((top * a) / 700_000 <= (top * b) / 700_000);
}

proof fn lemma_scaled_speed_bounds(speed: int, top: int)
    requires
        0 <= top,
    ensures
        0 <= scaled_speed(speed, top) <= top,
        speed <= MIN_SPEED ==> scaled_speed(speed, top) == 0,
        speed >= MAX_SPEED ==> scaled_speed(speed, top) == top,
{
    let a = clamped_speed(speed) - 50_000;
    let product = top * a;
    assert(0 <= product <= top * 700_000 && (a == 0 ==> product == 0) && (a == 700_000
        ==> product == top * 700_000)) by (nonlinear_arith)
        requires
            0 <= a <= 700_000,
            0 <= top,
            product == top * a,
    ;
    assert(scaled_speed(speed, top) == product / 700_000);
    assert((top * 700_000) / 700_000 == top);
}

/// C in the base octave is middle C, and one octave up is twelve semitones up.
/// The second half holds wherever the higher note still fits a byte: beyond
/// that [`Note::value`] wraps around, and [`lemma_octave_step_wraps`] holds.
pub proof fn lemma_octave_step(note: Note, octave: int)
    requires
        note.value(octave) + 12 < 256,
    ensures
        Note::C.value(3) == 0x3C,
        note.value(octave + 1) == note.value(octave) + 12,
{
    lemma_octave_step_wraps(note, octave);
    assert(Note::C.pitch(3) == 0x3C);
}

/// One octave up is twelve semitones up modulo 256, for every note and octave.
pub proof fn lemma_octave_step_wraps(note: Note, octave: int)
    ensures
        note.pitch(octave + 1) == note.pitch(octave) + 12,
        note.value(octave + 1) == (note.value(octave) + 12) % 256,
{
    let pitch = note.pitch(octave);
    assert(note.pitch(octave + 1) == pitch + 12) by {
        assert((octave + 1 - 3) * 12 == (octave - 3) * 12 + 12);
    }
    lemma_add_after_wrapping(pitch, 12);
}

/// Wrapping to a byte before or after an addition gives the same byte.
proof fn lemma_add_after_wrapping(pitch: int, semitones: int)
    ensures
        (pitch + semitones) % 256 == (pitch % 256 + semitones) % 256,
{
    vstd::arithmetic::div_mod::lemma_add_mod_noop(pitch, semitones, 256);
    vstd::arithmetic::div_mod::lemma_add_mod_noop(pitch % 256, semitones, 256);
    vstd::arithmetic::div_mod::lemma_mod_twice(pitch, 256);
}

/// In the octaves that balls play, every pitch class is a MIDI data byte and
/// nothing wraps.
pub proof fn lemma_ball_notes_are_midi_notes(note: Note, size: Size)
    ensures
        note.value(size.octave()) == note.pitch(size.octave()),
        48 <= note.value(size.octave()) <= 83,
{
}

} // verus!
