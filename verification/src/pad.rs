//! Pads: the sides of the tombola, and the notes that they keep sounding.

use std::collections::HashMap;
use vstd::prelude::*;
use vstd::std_specs::iter::IteratorSpec;

verus! {

use crate::midi::{MidiOutputEvent, Note};

/// Countdowns run in nanoseconds; note lengths are given in milliseconds.
pub const NANOS_PER_MILLI: u128 = 1_000_000;

/// One side of the tombola.
pub struct Pad {
    /// The place of the pad in the ring, counted from the top.
    pub index: usize,
    /// The pitch class that the pad plays.
    pub note: Note,
    /// The octaves in which the pad is sounding, each with the time in
    /// nanoseconds after which its note is switched off.
    pub playing_notes: HashMap<i32, u128>,
}

/// A pad as a mathematical value.
pub struct PadView {
    pub index: usize,
    pub note: Note,
    pub playing_notes: Map<i32, u128>,
}

impl View for Pad {
    type V = PadView;

    open spec fn view(&self) -> PadView {
        PadView { index: self.index, note: self.note, playing_notes: self.playing_notes@ }
    }
}

impl Pad {
    /// A silent pad.
    pub fn new(index: usize, note: Note) -> (pad: Pad)
        ensures
            pad@ == (PadView { index, note, playing_notes: Map::empty() }),
    {
        Pad { index, note, playing_notes: HashMap::new() }
    }
}

/// The octaves whose countdown runs out within `delta` nanoseconds.
pub open spec fn expired_octaves(notes: Map<i32, u128>, delta: u128) -> Set<i32> {
    Set::new(|octave: i32| notes.contains_key(octave) && notes[octave] <= delta)
}

/// What is still sounding `delta` nanoseconds later, with the time that is
/// left then.
pub open spec fn notes_after(notes: Map<i32, u128>, delta: u128) -> Map<i32, u128> {
    Map::new(
        |octave: i32| notes.contains_key(octave) && notes[octave] > delta,
        |octave: i32| (notes[octave] - delta) as u128,
    )
}

/// The note-offs of `note` in the given octaves, in that order.
pub open spec fn note_offs(note: Note, octaves: Seq<i32>) -> Seq<MidiOutputEvent> {
    Seq::new(octaves.len(), |i: int| (MidiOutputEvent::NoteOff { note, octave: octaves[i] }))
}

/// `events` switches `note` off once in each of `octaves`, in some order,
/// and holds nothing else.
pub open spec fn switches_off(events: Seq<MidiOutputEvent>, note: Note, octaves: Set<i32>) -> bool {
    &&& events == note_offs(note, octaves_of(events))
    &&& octaves_of(events).no_duplicates()
    &&& octaves_of(events).to_set() == octaves
}

/// The octave of each event.
pub open spec fn octaves_of(events: Seq<MidiOutputEvent>) -> Seq<i32> {
    Seq::new(events.len(), |i: int| events[i].octave())
}

/// Whether `octave` is among the first `count` of `octaves`.
spec fn among_first(octaves: Seq<i32>, count: int, octave: i32) -> bool {
    exists|j: int| 0 <= j < count && octaves[j] == octave
}

/// The octaves in which a pad is sounding, each once, in no particular order.
fn sounding_octaves(notes: &HashMap<i32, u128>) -> (octaves: Vec<i32>)
    ensures
        octaves@.no_duplicates(),
        octaves@.to_set() == notes@.dom(),
{
    let mut octaves: Vec<i32> = Vec::new();
    let ghost keys = notes.keys().remaining();
    proof {
        vstd::std_specs::hash::axiom_spec_keys_iter(notes);
    }
    for octave in it: notes.keys()
        invariant
            it.seq() == keys,
            octaves@.len() == it.index(),
            forall|j: int| 0 <= j < octaves@.len() ==> octaves@[j] == *keys[j],
    {
        octaves.push(*octave);
    }
    assert(octaves@ =~= keys.unref());
    assert(octaves@.no_duplicates());
    octaves
}

/// Lets `delta` nanoseconds pass on one pad. Every note whose countdown runs
/// out in that time is switched off, once, and forgotten; the others have
/// `delta` less to go. A countdown of zero runs out in any time, also in none.
///
/// The note-offs are added to the end of `midi`; their order among each
/// other is not fixed.
pub fn note_off_pad(pad: &mut Pad, delta: u128, midi: &mut Vec<MidiOutputEvent>)
    ensures
        final(pad)@ == (PadView {
            playing_notes: notes_after(old(pad)@.playing_notes, delta),
            ..old(pad)@
        }),
        old(midi)@.is_prefix_of(final(midi)@),
        switches_off(
            final(midi)@.skip(old(midi)@.len() as int),
            old(pad).note,
            expired_octaves(old(pad)@.playing_notes, delta),
        ),
{
    let note = pad.note;
    let octaves = sounding_octaves(&pad.playing_notes);
    let ghost before = pad.playing_notes@;
    let ghost queued = midi@;
    let ghost offs: Seq<i32> = Seq::empty();
    let mut i: usize = 0;
    assert(midi@ =~= queued + note_offs(note, offs));
    while i < octaves.len()
        invariant
            i <= octaves@.len(),
            octaves@.no_duplicates(),
            octaves@.to_set() == before.dom(),
            pad.index == old(pad).index,
            pad.note == note,
            forall|o: i32| #[trigger]
                pad.playing_notes@.contains_key(o) <==> before.contains_key(o) && (among_first(
                    octaves@,
                    i as int,
                    o,
                ) ==> before[o] > delta),
            forall|o: i32| #[trigger]
                pad.playing_notes@.contains_key(o) ==> pad.playing_notes@[o] == if among_first(
                    octaves@,
                    i as int,
                    o,
                ) {
                    (before[o] - delta) as u128
                } else {
                    before[o]
                },
            midi@ == queued + note_offs(note, offs),
            offs.no_duplicates(),
            forall|o: i32| #[trigger]
                offs.contains(o) <==> among_first(octaves@, i as int, o) && before[o] <= delta,
        decreases octaves@.len() - i,
    {
        let octave = octaves[i];
        proof {
            assert(octaves@.contains(octave));
            assert(octaves@.to_set().contains(octave));
            assert(before.contains_key(octave));
            assert(!among_first(octaves@, i as int, octave));
            assert(among_first(octaves@, i + 1, octave));
            assert forall|o: i32| o != octave implies (among_first(octaves@, i + 1, o)
                <==> among_first(octaves@, i as int, o)) by {
                if among_first(octaves@, i + 1, o) {
                    let j = choose|j: int| 0 <= j < i + 1 && octaves@[j] == o;
                    assert(0 <= j < i && octaves@[j] == o);
                }
                if among_first(octaves@, i as int, o) {
                    let j = choose|j: int| 0 <= j < i && octaves@[j] == o;
                    assert(0 <= j < i + 1 && octaves@[j] == o);
                }
            }
        }
        let left = pad.playing_notes.get(&octave);
        match left {
            Some(remaining) => {
                let remaining: u128 = *remaining;
                if remaining <= delta {
                    pad.playing_notes.remove(&octave);
                    midi.push(MidiOutputEvent::NoteOff { note, octave });
                    proof {
                        assert(!offs.contains(octave));
                        let ghost longer = offs.push(octave);
                        assert(midi@ =~= queued + note_offs(note, longer));
                        assert forall|o: i32| #[trigger]
                            longer.contains(o) <==> among_first(octaves@, i + 1, o) && before[o]
                                <= delta by {
                            if longer.contains(o) {
                                let k = choose|k: int| 0 <= k < longer.len() && longer[k] == o;
                                if k < offs.len() {
                                    assert(offs[k] == o);
                                    assert(offs.contains(o));
                                }
                            }
                            if among_first(octaves@, i + 1, o) && before[o] <= delta {
                                if o == octave {
                                    assert(longer[offs.len() as int] == o);
                                } else {
                                    assert(offs.contains(o));
                                    let k = choose|k: int| 0 <= k < offs.len() && offs[k] == o;
                                    assert(longer[k] == o);
                                }
                            }
                        }
                        offs = longer;
                    }
                } else {
                    pad.playing_notes.insert(octave, remaining - delta);
                }
            },
            None => {
                assert(false);
            },
        }
        i += 1;
    }
    proof {
        let emitted = midi@.skip(queued.len() as int);
        assert(emitted =~= note_offs(note, offs));
        assert(octaves_of(emitted) =~= offs);
        assert forall|o: i32| before.contains_key(o) implies among_first(
            octaves@,
            octaves@.len() as int,
            o,
        ) by {
            assert(octaves@.to_set().contains(o));
            assert(octaves@.contains(o));
        }
        assert(offs.to_set() =~= expired_octaves(before, delta));
        assert(pad.playing_notes@ =~= notes_after(before, delta));
    }
}

/// A note that has run out is switched off by the sweep in which it runs out
/// and by no later one: it is not sounding afterwards, so no later sweep can
/// find it again unless a new impact starts it anew.
pub proof fn lemma_expired_notes_are_gone(notes: Map<i32, u128>, delta: u128, later: u128)
    ensures
        expired_octaves(notes, delta).disjoint(notes_after(notes, delta).dom()),
        expired_octaves(notes_after(notes, delta), later).disjoint(expired_octaves(notes, delta)),
        notes_after(notes, delta).dom().union(expired_octaves(notes, delta)) == notes.dom(),
{
    assert(notes_after(notes, delta).dom().union(expired_octaves(notes, delta)) =~= notes.dom());
}

/// Time adds up: two sweeps one after the other leave what one sweep of the
/// whole time leaves, and between them switch off what it switches off. So a
/// note ends with the sweep in which the time since it was struck reaches its
/// length, however that time is cut into steps.
pub proof fn lemma_sweeps_add_up(notes: Map<i32, u128>, first: u128, second: u128)
    requires
        first + second <= u128::MAX,
    ensures
        notes_after(notes_after(notes, first), second) == notes_after(
            notes,
            (first + second) as u128,
        ),
        expired_octaves(notes, first).union(
            expired_octaves(notes_after(notes, first), second),
        ) == expired_octaves(notes, (first + second) as u128),
{
    assert(notes_after(notes_after(notes, first), second) =~= notes_after(
        notes,
        (first + second) as u128,
    ));
    assert(expired_octaves(notes, first).union(
        expired_octaves(notes_after(notes, first), second),
    ) =~= expired_octaves(notes, (first + second) as u128));
}

/// No note is held for ever: a sweep of as much time as the longest countdown
/// has left switches off every note and leaves the pad silent.
pub proof fn lemma_every_note_ends(notes: Map<i32, u128>, delta: u128)
    requires
        forall|octave: i32| #[trigger] notes.contains_key(octave) ==> notes[octave] <= delta,
    ensures
        notes_after(notes, delta) == Map::<i32, u128>::empty(),
        expired_octaves(notes, delta) == notes.dom(),
{
    assert(notes_after(notes, delta) =~= Map::<i32, u128>::empty());
    assert(expired_octaves(notes, delta) =~= notes.dom());
}

} // verus!
