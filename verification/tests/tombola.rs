use tombola::ball::{Ball, BallEntry};
use tombola::geometry::Shape;
use tombola::midi::{MidiOutputEvent, Note};
use tombola::pad::{note_off_pad, Pad, NANOS_PER_MILLI};
use tombola::settings::Settings;
use tombola::size::Size;
use tombola::tombola::{
    collide, handle_pad_collisions, note_off_pads, spawn_tombola, update_tombola_notes,
    update_tombola_shape, PadEntry,
};

fn entry(entity: u64, size: Size, speed: u64) -> BallEntry {
    BallEntry { entity, ball: Ball::new(size, 0), x: 0, y: 0, speed }
}

fn ring(settings: &Settings) -> Vec<PadEntry> {
    let entities: Vec<u64> = (100..108).collect();
    spawn_tombola(settings.world.tombola_shape, &settings.midi.tombola_notes, &entities).pads
}

#[test]
fn a_large_ball_strikes_a_silent_pad() {
    let settings = Settings::default();
    let mut pad = Pad::new(2, Note::G);
    let mut ball = Ball::new(Size::Large, 0);
    let mut midi = Vec::new();
    let mut highlights = Vec::new();
    collide(&mut pad, &mut ball, 400_000, &mut midi, &mut highlights, &settings);
    assert_eq!(midi, vec![MidiOutputEvent::NoteOn { note: Note::G, octave: 2, velocity: 63 }]);
    assert_eq!(pad.playing_notes.len(), 1);
    assert_eq!(pad.playing_notes.get(&2), Some(&(200 * NANOS_PER_MILLI)));
    assert_eq!(ball.bounces, 1);
    assert_eq!(ball.size, Size::Large);
    assert_eq!(highlights, vec![2]);
    assert_eq!(pad.index, 2);
    assert_eq!(pad.note, Note::G);
}

#[test]
fn a_retrigger_sends_note_off_then_note_on() {
    let settings = Settings::default();
    let mut pad = Pad::new(0, Note::C);
    let mut first = Ball::new(Size::Small, 0);
    let mut second = Ball::new(Size::Small, 1);
    let mut midi = Vec::new();
    let mut highlights = Vec::new();
    collide(&mut pad, &mut first, 750_000, &mut midi, &mut highlights, &settings);
    midi.clear();
    collide(&mut pad, &mut second, 225_000, &mut midi, &mut highlights, &settings);
    assert_eq!(
        midi,
        vec![
            MidiOutputEvent::NoteOff { note: Note::C, octave: 4 },
            MidiOutputEvent::NoteOn { note: Note::C, octave: 4, velocity: 31 },
        ]
    );
    assert_eq!(pad.playing_notes.len(), 1);
    assert_eq!(pad.playing_notes.get(&4), Some(&(100 * NANOS_PER_MILLI)));
    assert_eq!(highlights, vec![0, 0]);
    assert_eq!(first.bounces, 1);
    assert_eq!(second.bounces, 1);
}

#[test]
fn octaves_sound_side_by_side() {
    let settings = Settings::default();
    let mut pad = Pad::new(0, Note::E);
    let mut small = Ball::new(Size::Small, 0);
    let mut large = Ball::new(Size::Large, 0);
    let mut midi = Vec::new();
    let mut highlights = Vec::new();
    collide(&mut pad, &mut small, 400_000, &mut midi, &mut highlights, &settings);
    collide(&mut pad, &mut large, 750_000, &mut midi, &mut highlights, &settings);
    assert_eq!(
        midi,
        vec![
            MidiOutputEvent::NoteOn { note: Note::E, octave: 4, velocity: 63 },
            MidiOutputEvent::NoteOn { note: Note::E, octave: 2, velocity: 127 },
        ]
    );
    assert_eq!(pad.playing_notes.len(), 2);
    assert_eq!(pad.playing_notes.get(&4), Some(&(200 * NANOS_PER_MILLI)));
    assert_eq!(pad.playing_notes.get(&2), Some(&(400 * NANOS_PER_MILLI)));
}

#[test]
fn many_strikes_leave_one_countdown_per_octave() {
    let settings = Settings::default();
    let mut pad = Pad::new(0, Note::E);
    let mut midi = Vec::new();
    let mut highlights = Vec::new();
    let sizes = [Size::Small, Size::Large, Size::Small, Size::Medium, Size::Large, Size::Small];
    let mut ball = Ball::new(Size::Small, 0);
    for (i, size) in sizes.iter().enumerate() {
        ball.size = *size;
        collide(&mut pad, &mut ball, 100_000 * (i as u64 + 1), &mut midi, &mut highlights, &settings);
    }
    assert_eq!(pad.playing_notes.len(), 3);
    assert_eq!(ball.bounces, 6);
    let note_ons = midi.iter().filter(|e| matches!(e, MidiOutputEvent::NoteOn { .. })).count();
    let note_offs = midi.iter().filter(|e| matches!(e, MidiOutputEvent::NoteOff { .. })).count();
    assert_eq!(note_ons, 6);
    assert_eq!(note_offs, 3);
}

#[test]
fn fixed_velocity_overrides_the_speed() {
    let mut settings = Settings::default();
    settings.midi.fixed_note_velocity.enabled = true;
    settings.midi.fixed_note_velocity.value = 99;
    let mut pad = Pad::new(0, Note::D);
    let mut ball = Ball::new(Size::Medium, 0);
    let mut midi = Vec::new();
    let mut highlights = Vec::new();
    collide(&mut pad, &mut ball, 400_000, &mut midi, &mut highlights, &settings);
    assert_eq!(midi, vec![MidiOutputEvent::NoteOn { note: Note::D, octave: 3, velocity: 99 }]);
    assert_eq!(pad.playing_notes.get(&3), Some(&(200 * NANOS_PER_MILLI)));
}

#[test]
fn fixed_length_overrides_the_speed() {
    let mut settings = Settings::default();
    settings.midi.fixed_note_length.enabled = true;
    settings.midi.fixed_note_length.value = 1000;
    let mut pad = Pad::new(0, Note::D);
    let mut ball = Ball::new(Size::Medium, 0);
    let mut midi = Vec::new();
    let mut highlights = Vec::new();
    collide(&mut pad, &mut ball, 400_000, &mut midi, &mut highlights, &settings);
    assert_eq!(midi, vec![MidiOutputEvent::NoteOn { note: Note::D, octave: 3, velocity: 63 }]);
    assert_eq!(pad.playing_notes.get(&3), Some(&(1000 * NANOS_PER_MILLI)));
}

#[test]
fn the_longest_fixed_length_fits() {
    let mut settings = Settings::default();
    settings.midi.fixed_note_length.enabled = true;
    settings.midi.fixed_note_length.value = u64::MAX;
    let mut pad = Pad::new(0, Note::D);
    let mut ball = Ball::new(Size::Medium, 0);
    let mut midi = Vec::new();
    let mut highlights = Vec::new();
    collide(&mut pad, &mut ball, 0, &mut midi, &mut highlights, &settings);
    assert_eq!(pad.playing_notes.get(&3), Some(&(u64::MAX as u128 * 1_000_000)));
}

#[test]
fn a_note_runs_out_once() {
    let settings = Settings::default();
    let mut pad = Pad::new(0, Note::G);
    let mut ball = Ball::new(Size::Large, 0);
    let mut midi = Vec::new();
    let mut highlights = Vec::new();
    collide(&mut pad, &mut ball, 400_000, &mut midi, &mut highlights, &settings);
    midi.clear();
    note_off_pad(&mut pad, 150 * NANOS_PER_MILLI, &mut midi);
    assert_eq!(midi, vec![]);
    assert_eq!(pad.playing_notes.get(&2), Some(&(50 * NANOS_PER_MILLI)));
    note_off_pad(&mut pad, 50 * NANOS_PER_MILLI, &mut midi);
    assert_eq!(midi, vec![MidiOutputEvent::NoteOff { note: Note::G, octave: 2 }]);
    assert!(pad.playing_notes.is_empty());
    note_off_pad(&mut pad, 50 * NANOS_PER_MILLI, &mut midi);
    note_off_pad(&mut pad, u128::MAX, &mut midi);
    assert_eq!(midi, vec![MidiOutputEvent::NoteOff { note: Note::G, octave: 2 }]);
}

#[test]
fn a_sweep_of_no_time_changes_nothing_that_has_time_left() {
    let mut pad = Pad::new(0, Note::G);
    pad.playing_notes.insert(3, 1);
    let mut midi = Vec::new();
    note_off_pad(&mut pad, 0, &mut midi);
    assert_eq!(midi, vec![]);
    assert_eq!(pad.playing_notes.get(&3), Some(&1));
}

#[test]
fn a_note_of_no_length_runs_out_in_no_time() {
    let settings = Settings::default();
    let mut pad = Pad::new(0, Note::A);
    let mut ball = Ball::new(Size::Medium, 0);
    let mut midi = Vec::new();
    let mut highlights = Vec::new();
    collide(&mut pad, &mut ball, 10_000, &mut midi, &mut highlights, &settings);
    assert_eq!(midi, vec![MidiOutputEvent::NoteOn { note: Note::A, octave: 3, velocity: 0 }]);
    assert_eq!(pad.playing_notes.get(&3), Some(&0));
    midi.clear();
    note_off_pad(&mut pad, 0, &mut midi);
    assert_eq!(midi, vec![MidiOutputEvent::NoteOff { note: Note::A, octave: 3 }]);
    assert!(pad.playing_notes.is_empty());
}

#[test]
fn a_sweep_switches_off_what_ran_out_and_keeps_the_rest() {
    let mut pad = Pad::new(0, Note::F);
    pad.playing_notes.insert(2, 10);
    pad.playing_notes.insert(3, 20);
    pad.playing_notes.insert(4, 30);
    pad.playing_notes.insert(-1, 21);
    let mut midi = vec![MidiOutputEvent::NoteOn { note: Note::F, octave: 4, velocity: 1 }];
    note_off_pad(&mut pad, 20, &mut midi);
    assert_eq!(midi.len(), 3);
    assert_eq!(midi[0], MidiOutputEvent::NoteOn { note: Note::F, octave: 4, velocity: 1 });
    let mut offs = midi[1..].to_vec();
    offs.sort_by_key(|event| match event {
        MidiOutputEvent::NoteOff { octave, .. } => *octave,
        MidiOutputEvent::NoteOn { octave, .. } => *octave,
    });
    assert_eq!(
        offs,
        vec![
            MidiOutputEvent::NoteOff { note: Note::F, octave: 2 },
            MidiOutputEvent::NoteOff { note: Note::F, octave: 3 },
        ]
    );
    assert_eq!(pad.playing_notes.len(), 2);
    assert_eq!(pad.playing_notes.get(&4), Some(&10));
    assert_eq!(pad.playing_notes.get(&-1), Some(&1));
}

#[test]
fn a_retriggered_note_gets_a_fresh_countdown() {
    let settings = Settings::default();
    let mut pad = Pad::new(0, Note::G);
    let mut ball = Ball::new(Size::Large, 0);
    let mut midi = Vec::new();
    let mut highlights = Vec::new();
    collide(&mut pad, &mut ball, 400_000, &mut midi, &mut highlights, &settings);
    note_off_pad(&mut pad, 199 * NANOS_PER_MILLI, &mut midi);
    collide(&mut pad, &mut ball, 400_000, &mut midi, &mut highlights, &settings);
    note_off_pad(&mut pad, 199 * NANOS_PER_MILLI, &mut midi);
    assert_eq!(
        midi,
        vec![
            MidiOutputEvent::NoteOn { note: Note::G, octave: 2, velocity: 63 },
            MidiOutputEvent::NoteOff { note: Note::G, octave: 2 },
            MidiOutputEvent::NoteOn { note: Note::G, octave: 2, velocity: 63 },
        ]
    );
    assert_eq!(pad.playing_notes.get(&2), Some(&NANOS_PER_MILLI));
}

#[test]
fn a_new_tombola_is_silent_and_in_order() {
    let settings = Settings::default();
    let entities: Vec<u64> = (100..108).collect();
    let tombola = spawn_tombola(Shape::Hexagon, &settings.midi.tombola_notes, &entities);
    assert_eq!(tombola.shape, Shape::Hexagon);
    assert_eq!(tombola.pads.len(), 6);
    for (i, entry) in tombola.pads.iter().enumerate() {
        assert_eq!(entry.entity, 100 + i as u64);
        assert_eq!(entry.pad.index, i);
        assert_eq!(entry.pad.note, settings.midi.tombola_notes[i]);
        assert!(entry.pad.playing_notes.is_empty());
    }
}

#[test]
fn collisions_are_resolved_whichever_body_comes_first() {
    let settings = Settings::default();
    let mut pads = ring(&settings);
    let mut balls = vec![entry(1, Size::Large, 400_000), entry(2, Size::Small, 750_000)];
    let mut midi = Vec::new();
    let mut highlights = Vec::new();
    let collisions = vec![(102, 1), (2, 103)];
    handle_pad_collisions(&collisions, &mut midi, &mut pads, &mut balls, &mut highlights, &settings);
    assert_eq!(
        midi,
        vec![
            MidiOutputEvent::NoteOn { note: Note::G, octave: 2, velocity: 63 },
            MidiOutputEvent::NoteOn { note: Note::ASharp, octave: 4, velocity: 127 },
        ]
    );
    assert_eq!(highlights, vec![2, 3]);
    assert_eq!(balls[0].ball.bounces, 1);
    assert_eq!(balls[1].ball.bounces, 1);
    assert_eq!(pads[2].pad.playing_notes.get(&2), Some(&(200 * NANOS_PER_MILLI)));
    assert_eq!(pads[3].pad.playing_notes.get(&4), Some(&(400 * NANOS_PER_MILLI)));
    assert!(pads[0].pad.playing_notes.is_empty());
}

#[test]
fn collisions_with_missing_bodies_are_passed_over() {
    let settings = Settings::default();
    let mut pads = ring(&settings);
    let mut balls = vec![entry(1, Size::Large, 400_000), entry(2, Size::Small, 750_000)];
    let mut midi = Vec::new();
    let mut highlights = Vec::new();
    // A pad and a ball that is gone, two balls, two pads, two strangers.
    let collisions = vec![(102, 7), (7, 102), (1, 2), (100, 101), (8, 9)];
    handle_pad_collisions(&collisions, &mut midi, &mut pads, &mut balls, &mut highlights, &settings);
    assert_eq!(midi, vec![]);
    assert_eq!(highlights, Vec::<usize>::new());
    assert_eq!(balls, vec![entry(1, Size::Large, 400_000), entry(2, Size::Small, 750_000)]);
    assert!(pads.iter().all(|entry| entry.pad.playing_notes.is_empty()));
}

#[test]
fn every_collision_is_one_bounce() {
    let settings = Settings::default();
    let mut pads = ring(&settings);
    let mut balls = vec![entry(1, Size::Large, 400_000)];
    let mut midi = Vec::new();
    let mut highlights = Vec::new();
    let collisions = vec![(100, 1), (1, 101), (100, 1)];
    handle_pad_collisions(&collisions, &mut midi, &mut pads, &mut balls, &mut highlights, &settings);
    assert_eq!(balls[0].ball.bounces, 3);
    assert_eq!(highlights, vec![0, 1, 0]);
    assert_eq!(
        midi,
        vec![
            MidiOutputEvent::NoteOn { note: Note::C, octave: 2, velocity: 63 },
            MidiOutputEvent::NoteOn { note: Note::E, octave: 2, velocity: 63 },
            MidiOutputEvent::NoteOff { note: Note::C, octave: 2 },
            MidiOutputEvent::NoteOn { note: Note::C, octave: 2, velocity: 63 },
        ]
    );
}

#[test]
fn no_collisions_change_nothing() {
    let settings = Settings::default();
    let mut pads = ring(&settings);
    let mut balls = vec![entry(1, Size::Large, 400_000)];
    let mut midi = vec![MidiOutputEvent::NoteOff { note: Note::C, octave: 2 }];
    let mut highlights = vec![5];
    handle_pad_collisions(&Vec::new(), &mut midi, &mut pads, &mut balls, &mut highlights, &settings);
    assert_eq!(midi, vec![MidiOutputEvent::NoteOff { note: Note::C, octave: 2 }]);
    assert_eq!(highlights, vec![5]);
    assert_eq!(balls[0].ball.bounces, 0);
}

#[test]
fn the_ring_is_swept_pad_by_pad() {
    let settings = Settings::default();
    let mut pads = ring(&settings);
    pads[4].pad.playing_notes.insert(3, 5);
    pads[1].pad.playing_notes.insert(2, 5);
    pads[1].pad.playing_notes.insert(4, 6);
    pads[0].pad.playing_notes.insert(4, 5);
    let mut midi = Vec::new();
    note_off_pads(&mut pads, 5, &mut midi);
    assert_eq!(
        midi,
        vec![
            MidiOutputEvent::NoteOff { note: Note::C, octave: 4 },
            MidiOutputEvent::NoteOff { note: Note::E, octave: 2 },
            MidiOutputEvent::NoteOff { note: Note::D, octave: 3 },
        ]
    );
    assert!(pads[0].pad.playing_notes.is_empty());
    assert_eq!(pads[1].pad.playing_notes.len(), 1);
    assert_eq!(pads[1].pad.playing_notes.get(&4), Some(&1));
    assert!(pads[4].pad.playing_notes.is_empty());
    midi.clear();
    note_off_pads(&mut pads, 5, &mut midi);
    assert_eq!(midi, vec![MidiOutputEvent::NoteOff { note: Note::E, octave: 4 }]);
    midi.clear();
    note_off_pads(&mut pads, 5, &mut midi);
    assert_eq!(midi, vec![]);
}

#[test]
fn from_six_sides_to_four() {
    let mut settings = Settings::default();
    let entities: Vec<u64> = (100..108).collect();
    let mut tombola = spawn_tombola(Shape::Hexagon, &settings.midi.tombola_notes, &entities);
    tombola.pads[0].pad.playing_notes.insert(3, 1000);
    settings.world.tombola_shape = Shape::Square;
    let fresh: Vec<u64> = (200..208).collect();
    assert!(update_tombola_shape(&mut tombola, &mut settings, &fresh));
    assert_eq!(settings.midi.tombola_notes, vec![Note::C, Note::E, Note::G, Note::ASharp]);
    assert_eq!(tombola.shape, Shape::Square);
    assert_eq!(tombola.pads.len(), 4);
    for (i, entry) in tombola.pads.iter().enumerate() {
        assert_eq!(entry.entity, 200 + i as u64);
        assert_eq!(entry.pad.index, i);
        assert_eq!(entry.pad.note, settings.midi.tombola_notes[i]);
        assert!(entry.pad.playing_notes.is_empty());
    }
}

#[test]
fn from_four_sides_to_eight() {
    let mut settings = Settings::default();
    settings.world.tombola_shape = Shape::Square;
    settings.midi.tombola_notes = vec![Note::B, Note::A, Note::G, Note::F];
    let entities: Vec<u64> = (100..108).collect();
    let mut tombola = spawn_tombola(Shape::Square, &settings.midi.tombola_notes, &entities);
    settings.world.tombola_shape = Shape::Octagon;
    assert!(update_tombola_shape(&mut tombola, &mut settings, &entities));
    assert_eq!(
        settings.midi.tombola_notes,
        vec![Note::B, Note::A, Note::G, Note::F, Note::C, Note::C, Note::C, Note::C]
    );
    assert_eq!(tombola.shape, Shape::Octagon);
    assert_eq!(tombola.pads.len(), 8);
    assert_eq!(tombola.pads[3].pad.note, Note::F);
    assert_eq!(tombola.pads[7].pad.note, Note::C);
    assert_eq!(tombola.pads[7].pad.index, 7);
}

#[test]
fn the_same_shape_is_left_alone() {
    let mut settings = Settings::default();
    let entities: Vec<u64> = (100..108).collect();
    let mut tombola = spawn_tombola(Shape::Hexagon, &settings.midi.tombola_notes, &entities);
    tombola.pads[0].pad.playing_notes.insert(3, 1000);
    settings.midi.tombola_notes.push(Note::B);
    let fresh: Vec<u64> = (200..208).collect();
    assert!(!update_tombola_shape(&mut tombola, &mut settings, &fresh));
    assert_eq!(tombola.pads.len(), 6);
    assert_eq!(tombola.pads[0].entity, 100);
    assert_eq!(tombola.pads[0].pad.playing_notes.get(&3), Some(&1000));
    assert_eq!(settings.midi.tombola_notes.len(), 7);
}

#[test]
fn pads_take_their_notes_from_the_settings() {
    let mut settings = Settings::default();
    let mut pads = ring(&settings);
    pads[1].pad.playing_notes.insert(3, 1000);
    settings.midi.tombola_notes =
        vec![Note::B, Note::A, Note::GSharp, Note::FSharp, Note::DSharp, Note::CSharp];
    update_tombola_notes(&mut pads, &settings);
    let notes: Vec<Note> = pads.iter().map(|entry| entry.pad.note).collect();
    assert_eq!(notes, settings.midi.tombola_notes);
    assert_eq!(pads[1].pad.playing_notes.get(&3), Some(&1000));
    assert_eq!(pads[1].pad.index, 1);
    assert_eq!(pads[1].entity, 101);
}

#[test]
fn time_adds_up_over_sweeps() {
    let mut stepwise = Pad::new(0, Note::B);
    let mut at_once = Pad::new(0, Note::B);
    for pad in [&mut stepwise, &mut at_once] {
        pad.playing_notes.insert(2, 100);
        pad.playing_notes.insert(3, 101);
        pad.playing_notes.insert(4, 30);
    }
    let mut stepwise_midi = Vec::new();
    note_off_pad(&mut stepwise, 30, &mut stepwise_midi);
    assert_eq!(stepwise_midi, vec![MidiOutputEvent::NoteOff { note: Note::B, octave: 4 }]);
    note_off_pad(&mut stepwise, 70, &mut stepwise_midi);
    assert_eq!(
        stepwise_midi,
        vec![
            MidiOutputEvent::NoteOff { note: Note::B, octave: 4 },
            MidiOutputEvent::NoteOff { note: Note::B, octave: 2 },
        ]
    );
    let mut at_once_midi = Vec::new();
    note_off_pad(&mut at_once, 100, &mut at_once_midi);
    assert_eq!(at_once_midi.len(), 2);
    assert!(at_once_midi.contains(&MidiOutputEvent::NoteOff { note: Note::B, octave: 4 }));
    assert!(at_once_midi.contains(&MidiOutputEvent::NoteOff { note: Note::B, octave: 2 }));
    assert_eq!(stepwise.playing_notes, at_once.playing_notes);
    assert_eq!(stepwise.playing_notes.get(&3), Some(&1));
}

#[test]
fn a_long_sweep_silences_the_pad() {
    let mut pad = Pad::new(0, Note::B);
    pad.playing_notes.insert(2, 100);
    pad.playing_notes.insert(3, u128::MAX);
    pad.playing_notes.insert(4, 0);
    let mut midi = Vec::new();
    note_off_pad(&mut pad, u128::MAX, &mut midi);
    assert_eq!(midi.len(), 3);
    for octave in 2..=4 {
        assert!(midi.contains(&MidiOutputEvent::NoteOff { note: Note::B, octave }));
    }
    assert!(pad.playing_notes.is_empty());
}
