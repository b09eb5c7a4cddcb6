//! The tombola: a ring of pads that balls strike.

use vstd::prelude::*;

verus! {

use crate::ball::{ball_ids, Ball, BallEntry};
use crate::geometry::Shape;
use crate::midi::{duration_at, to_note_duration, to_velocity, velocity_at, MidiOutputEvent, Note};
use crate::pad::{
    expired_octaves, note_off_pad, notes_after, octaves_of, switches_off, Pad, PadView,
    NANOS_PER_MILLI,
};
use crate::settings::Settings;

/// A pad together with the identifier under which collisions name it.
pub struct PadEntry {
    pub entity: u64,
    pub pad: Pad,
}

/// A pad entry as a mathematical value.
pub struct PadEntryView {
    pub entity: u64,
    pub pad: PadView,
}

impl View for PadEntry {
    type V = PadEntryView;

    open spec fn view(&self) -> PadEntryView {
        PadEntryView { entity: self.entity, pad: self.pad@ }
    }
}

/// The pads of a table as mathematical values.
pub open spec fn pad_views(pads: Seq<PadEntry>) -> Seq<PadEntryView> {
    Seq::new(pads.len(), |i: int| pads[i]@)
}

/// The identifiers of the pads of a table, in its order.
pub open spec fn pad_ids(pads: Seq<PadEntryView>) -> Seq<u64> {
    Seq::new(pads.len(), |i: int| pads[i].entity)
}

/// The velocity at which an impact at `speed` is played: the fixed velocity
/// where one is set, else the velocity of the speed.
pub open spec fn strike_velocity(settings: Settings, speed: u64) -> u8 {
    if settings.midi.fixed_note_velocity.enabled {
        settings.midi.fixed_note_velocity.value
    } else {
        velocity_at(speed as int) as u8
    }
}

/// The time in nanoseconds for which an impact at `speed` sounds: the fixed
/// length where one is set, else the length of the speed.
pub open spec fn strike_length(settings: Settings, speed: u64) -> u128 {
    if settings.midi.fixed_note_length.enabled {
        (settings.midi.fixed_note_length.value * NANOS_PER_MILLI) as u128
    } else {
        (duration_at(speed as int) * NANOS_PER_MILLI) as u128
    }
}

/// What a pad sends when it is struck in `octave`: a note-on, and before it
/// a note-off if the pad is still sounding in that octave.
pub open spec fn strike_events(pad: PadView, octave: i32, velocity: u8) -> Seq<MidiOutputEvent> {
    let note_on = MidiOutputEvent::NoteOn { note: pad.note, octave, velocity };
    if pad.playing_notes.contains_key(octave) {
        seq![MidiOutputEvent::NoteOff { note: pad.note, octave }, note_on]
    } else {
        seq![note_on]
    }
}

/// A pad after it was struck in `octave`: it sounds there for `length`
/// nanoseconds from now, whatever was left before.
pub open spec fn struck(pad: PadView, octave: i32, length: u128) -> PadView {
    PadView { playing_notes: pad.playing_notes.insert(octave, length), ..pad }
}

/// A ball after one more bounce.
pub open spec fn bounced(ball: Ball) -> Ball {
    Ball { bounces: (ball.bounces + 1) as usize, ..ball }
}

/// A ball moving at `speed` (in thousandths) strikes a pad.
///
/// The pad sends a note-on in the octave of the ball, after a note-off if it
/// was still sounding there, and from now on sounds there for the length that
/// the settings and the speed give. The index of the pad is added to
/// `highlights`, the pads that are to light up, and the ball has bounced once
/// more.
///
/// The count of bounces must have room for one more.
pub fn collide(
    pad: &mut Pad,
    ball: &mut Ball,
    speed: u64,
    midi: &mut Vec<MidiOutputEvent>,
    highlights: &mut Vec<usize>,
    settings: &Settings,
)
    requires
        old(ball).bounces < usize::MAX,
    ensures
        final(pad)@ == struck(
            old(pad)@,
            old(ball).size.octave() as i32,
            strike_length(*settings, speed),
        ),
        *final(ball) == bounced(*old(ball)),
        final(midi)@ == old(midi)@ + strike_events(
            old(pad)@,
            old(ball).size.octave() as i32,
            strike_velocity(*settings, speed),
        ),
        final(highlights)@ == old(highlights)@.push(old(pad).index),
{
    let octave = ball.size.to_octave();
    let ghost queued = midi@;
    if pad.playing_notes.contains_key(&octave) {
        midi.push(MidiOutputEvent::NoteOff { note: pad.note, octave });
    }
    let velocity = if settings.midi.fixed_note_velocity.enabled {
        settings.midi.fixed_note_velocity.value
    } else {
        to_velocity(speed)
    };
    midi.push(MidiOutputEvent::NoteOn { note: pad.note, octave, velocity });
    let millis = if settings.midi.fixed_note_length.enabled {
        settings.midi.fixed_note_length.value
    } else {
        to_note_duration(speed)
    };
    pad.playing_notes.insert(octave, millis as u128 * NANOS_PER_MILLI);
    highlights.push(pad.index);
    ball.bounces += 1;
    proof {
        assert(midi@ =~= queued + strike_events(
            old(pad)@,
            octave,
            strike_velocity(*settings, speed),
        ));
    }
}

/// A pad holds one countdown for each octave in which it sounds. Striking it
/// where it sounds already replaces that countdown and adds none; striking it
/// elsewhere adds the one countdown of that octave.
pub proof fn lemma_one_countdown_per_octave(pad: PadView, octave: i32, length: u128)
    requires
        pad.playing_notes.dom().finite(),
    ensures
        struck(pad, octave, length).playing_notes.dom() == pad.playing_notes.dom().insert(octave),
        struck(pad, octave, length).playing_notes[octave] == length,
        pad.playing_notes.contains_key(octave) ==> struck(pad, octave, length).playing_notes.len()
            == pad.playing_notes.len(),
        !pad.playing_notes.contains_key(octave) ==> struck(pad, octave, length).playing_notes.len()
            == pad.playing_notes.len() + 1,
{
    assert(struck(pad, octave, length).playing_notes.dom() =~= pad.playing_notes.dom().insert(
        octave,
    ));
}

/// Everything that a collision can change.
pub struct Scene {
    pub pads: Seq<PadEntryView>,
    pub balls: Seq<BallEntry>,
    pub midi: Seq<MidiOutputEvent>,
    pub highlights: Seq<usize>,
}

/// The scene after ball `b` has struck pad `p`.
pub open spec fn strike(scene: Scene, p: int, b: int, settings: Settings) -> Scene {
    let pad = scene.pads[p].pad;
    let entry = scene.balls[b];
    let octave = entry.ball.size.octave() as i32;
    Scene {
        pads: scene.pads.update(
            p,
            PadEntryView {
                pad: struck(pad, octave, strike_length(settings, entry.speed)),
                ..scene.pads[p]
            },
        ),
        balls: scene.balls.update(b, BallEntry { ball: bounced(entry.ball), ..entry }),
        midi: scene.midi + strike_events(pad, octave, strike_velocity(settings, entry.speed)),
        highlights: scene.highlights.push(pad.index),
    }
}

/// The scene after the first pad named `pad_entity` was struck by the first
/// ball named `ball_entity`. Where either name stands for nothing that is
/// there, nothing happens.
pub open spec fn meet(scene: Scene, pad_entity: u64, ball_entity: u64, settings: Settings) -> Scene {
    match (
        pad_ids(scene.pads).index_of_first(pad_entity),
        ball_ids(scene.balls).index_of_first(ball_entity),
    ) {
        (Some(p), Some(b)) => strike(scene, p, b, settings),
        _ => scene,
    }
}

/// The scene after one collision between two bodies, of which either may be
/// the pad and the other the ball.
pub open spec fn resolve(scene: Scene, collision: (u64, u64), settings: Settings) -> Scene {
    meet(meet(scene, collision.0, collision.1, settings), collision.1, collision.0, settings)
}

/// The scene after the given collisions, one after another.
pub open spec fn resolve_all(scene: Scene, collisions: Seq<(u64, u64)>, settings: Settings) -> Scene
    decreases collisions.len(),
{
    if collisions.len() == 0 {
        scene
    } else {
        resolve(resolve_all(scene, collisions.drop_last(), settings), collisions.last(), settings)
    }
}

/// Whatever collisions come, the ring stays as it is: every pad keeps its
/// name, its place and its note, goes on sounding wherever it sounded, and
/// starts to sound only in octaves that balls play.
pub proof fn lemma_collisions_keep_the_ring(
    scene: Scene,
    collisions: Seq<(u64, u64)>,
    settings: Settings,
)
    ensures
        resolve_all(scene, collisions, settings).pads.len() == scene.pads.len(),
        resolve_all(scene, collisions, settings).balls.len() == scene.balls.len(),
        forall|p: int|
            0 <= p < scene.pads.len() ==> {
                let before = scene.pads[p];
                let after = #[trigger] resolve_all(scene, collisions, settings).pads[p];
                &&& after.entity == before.entity
                &&& after.pad.index == before.pad.index
                &&& after.pad.note == before.pad.note
                &&& before.pad.playing_notes.dom().subset_of(after.pad.playing_notes.dom())
                &&& forall|octave: i32| #[trigger]
                    after.pad.playing_notes.contains_key(octave)
                        ==> before.pad.playing_notes.contains_key(octave) || 2 <= octave <= 4
            },
    decreases collisions.len(),
{
    if collisions.len() > 0 {
        let earlier = resolve_all(scene, collisions.drop_last(), settings);
        lemma_collisions_keep_the_ring(scene, collisions.drop_last(), settings);
        let first = collisions.last().0;
        let second = collisions.last().1;
        let middle = meet(earlier, first, second, settings);
        lemma_meet_keeps_the_ring(earlier, first, second, settings);
        lemma_meet_keeps_the_ring(middle, second, first, settings);
        let end = meet(middle, second, first, settings);
        assert(end == resolve_all(scene, collisions, settings));
        assert forall|p: int| 0 <= p < scene.pads.len() implies {
            let before = scene.pads[p];
            let after = #[trigger] end.pads[p];
            &&& after.entity == before.entity
            &&& after.pad.index == before.pad.index
            &&& after.pad.note == before.pad.note
            &&& before.pad.playing_notes.dom().subset_of(after.pad.playing_notes.dom())
            &&& forall|octave: i32| #[trigger]
                after.pad.playing_notes.contains_key(octave)
                    ==> before.pad.playing_notes.contains_key(octave) || 2 <= octave <= 4
        } by {
            let a = earlier.pads[p];
            let b = middle.pads[p];
            let c = end.pads[p];
            assert(pad_kept(a, b));
            assert(pad_kept(b, c));
        }
    }
}

/// A pad that was silent never holds more than three countdowns, whatever
/// collisions come: one at most for each octave that balls play.
pub proof fn lemma_three_countdowns_at_most(
    scene: Scene,
    collisions: Seq<(u64, u64)>,
    settings: Settings,
    p: int,
)
    requires
        0 <= p < scene.pads.len(),
        scene.pads[p].pad.playing_notes == Map::<i32, u128>::empty(),
    ensures
        resolve_all(scene, collisions, settings).pads[p].pad.playing_notes.dom().finite(),
        resolve_all(scene, collisions, settings).pads[p].pad.playing_notes.len() <= 3,
{
    lemma_collisions_keep_the_ring(scene, collisions, settings);
    let sounding = resolve_all(scene, collisions, settings).pads[p].pad.playing_notes.dom();
    let octaves = set![2i32, 3i32, 4i32];
    assert(sounding.subset_of(octaves)) by {
        assert forall|octave: i32| sounding.contains(octave) implies octaves.contains(octave) by {
            assert(resolve_all(scene, collisions, settings).pads[p].pad.playing_notes.contains_key(
                octave,
            ));
        }
    }
    assert(octaves.finite() && octaves.len() == 3) by {
        assert(octaves =~= Set::<i32>::empty().insert(2).insert(3).insert(4));
    }
    vstd::set_lib::lemma_len_subset(sounding, octaves);
}

/// Whether `after` is `before` but for notes that it started in the octaves
/// of balls.
spec fn pad_kept(before: PadEntryView, after: PadEntryView) -> bool {
    &&& after.entity == before.entity
    &&& after.pad.index == before.pad.index
    &&& after.pad.note == before.pad.note
    &&& forall|octave: i32| #[trigger]
        before.pad.playing_notes.contains_key(octave) ==> after.pad.playing_notes.contains_key(
            octave,
        )
    &&& forall|octave: i32| #[trigger]
        after.pad.playing_notes.contains_key(octave) ==> before.pad.playing_notes.contains_key(
            octave,
        ) || 2 <= octave <= 4
}

/// One meeting keeps the ring.
proof fn lemma_meet_keeps_the_ring(
    scene: Scene,
    pad_entity: u64,
    ball_entity: u64,
    settings: Settings,
)
    ensures
        meet(scene, pad_entity, ball_entity, settings).pads.len() == scene.pads.len(),
        meet(scene, pad_entity, ball_entity, settings).balls.len() == scene.balls.len(),
        forall|p: int|
            0 <= p < scene.pads.len() ==> pad_kept(
                scene.pads[p],
                #[trigger] meet(scene, pad_entity, ball_entity, settings).pads[p],
            ),
{
    ball_ids(scene.balls).index_of_first_ensures(ball_entity);
    pad_ids(scene.pads).index_of_first_ensures(pad_entity);
}

/// The index of the first pad named `entity`.
fn find_pad(pads: &Vec<PadEntry>, entity: u64) -> (found: Option<usize>)
    ensures
        match found {
            Some(i) => pad_ids(pad_views(pads@)).index_of_first(entity) == Some(i as int) && i
                < pads@.len(),
            None => pad_ids(pad_views(pads@)).index_of_first(entity) is None,
        },
{
    let ghost ids = pad_ids(pad_views(pads@));
    let mut i: usize = 0;
    while i < pads.len()
        invariant
            i <= pads@.len(),
            ids == pad_ids(pad_views(pads@)),
            forall|j: int| 0 <= j < i ==> ids[j] != entity,
        decreases pads@.len() - i,
    {
        if pads[i].entity == entity {
            proof {
                ids.index_of_first_ensures(entity);
                assert(ids[i as int] == entity);
            }
            return Some(i);
        }
        i += 1;
    }
    proof {
        ids.index_of_first_ensures(entity);
    }
    None
}

/// The index of the first ball named `entity`.
fn find_ball(balls: &Vec<BallEntry>, entity: u64) -> (found: Option<usize>)
    ensures
        match found {
            Some(i) => ball_ids(balls@).index_of_first(entity) == Some(i as int) && i
                < balls@.len(),
            None => ball_ids(balls@).index_of_first(entity) is None,
        },
{
    let ghost ids = ball_ids(balls@);
    let mut i: usize = 0;
    while i < balls.len()
        invariant
            i <= balls@.len(),
            ids == ball_ids(balls@),
            forall|j: int| 0 <= j < i ==> ids[j] != entity,
        decreases balls@.len() - i,
    {
        if balls[i].entity == entity {
            proof {
                ids.index_of_first_ensures(entity);
                assert(ids[i as int] == entity);
            }
            return Some(i);
        }
        i += 1;
    }
    proof {
        ids.index_of_first_ensures(entity);
    }
    None
}

/// The scene that the four collections make up.
pub open spec fn scene_of(
    pads: Seq<PadEntry>,
    balls: Seq<BallEntry>,
    midi: Seq<MidiOutputEvent>,
    highlights: Seq<usize>,
) -> Scene {
    Scene { pads: pad_views(pads), balls, midi, highlights }
}

/// Lets the pad named `pad_entity` be struck by the ball named `ball_entity`,
/// if both are there.
fn meet_bodies(
    pad_entity: u64,
    ball_entity: u64,
    midi: &mut Vec<MidiOutputEvent>,
    pads: &mut Vec<PadEntry>,
    balls: &mut Vec<BallEntry>,
    highlights: &mut Vec<usize>,
    settings: &Settings,
)
    requires
        forall|b: int| 0 <= b < old(balls)@.len() ==> old(balls)@[b].ball.bounces < usize::MAX,
    ensures
        scene_of(final(pads)@, final(balls)@, final(midi)@, final(highlights)@) == meet(
            scene_of(old(pads)@, old(balls)@, old(midi)@, old(highlights)@),
            pad_entity,
            ball_entity,
            *settings,
        ),
{
    let ghost before = scene_of(pads@, balls@, midi@, highlights@);
    match find_pad(pads, pad_entity) {
        Some(p) => {
            match find_ball(balls, ball_entity) {
                Some(b) => {
                    let speed = balls[b].speed;
                    collide(&mut pads[p].pad, &mut balls[b].ball, speed, midi, highlights, settings);
                    proof {
                        let after = scene_of(pads@, balls@, midi@, highlights@);
                        let expected = strike(before, p as int, b as int, *settings);
                        assert(after.pads =~= expected.pads);
                        assert(after.balls =~= expected.balls);
                    }
                },
                None => {},
            }
        },
        None => {},
    }
}

/// Resolves the collisions that started in this step, in order.
///
/// Each collision names two bodies. Where the first is a pad and the second
/// a ball, the ball strikes the pad as in [`collide`]; then the same is tried
/// with the two the other way round. A collision whose bodies are not a pad
/// and a ball that are there is passed over.
///
/// A collision counts at most two bounces, and the count of bounces of every
/// ball must have room for those of all the collisions.
pub fn handle_pad_collisions(
    collisions: &Vec<(u64, u64)>,
    midi: &mut Vec<MidiOutputEvent>,
    pads: &mut Vec<PadEntry>,
    balls: &mut Vec<BallEntry>,
    highlights: &mut Vec<usize>,
    settings: &Settings,
)
    requires
        forall|b: int|
            0 <= b < old(balls)@.len() ==> (#[trigger] old(balls)@[b]).ball.bounces + 2
                * collisions@.len() <= usize::MAX,
    ensures
        scene_of(final(pads)@, final(balls)@, final(midi)@, final(highlights)@) == resolve_all(
            scene_of(old(pads)@, old(balls)@, old(midi)@, old(highlights)@),
            collisions@,
            *settings,
        ),
{
    let ghost before = scene_of(pads@, balls@, midi@, highlights@);
    let mut i: usize = 0;
    while i < collisions.len()
        invariant
            i <= collisions@.len(),
            balls@.len() == old(balls)@.len(),
            forall|b: int|
                0 <= b < balls@.len() ==> (#[trigger] balls@[b]).ball.bounces + 2 * (
                collisions@.len() - i) <= usize::MAX,
            scene_of(pads@, balls@, midi@, highlights@) == resolve_all(
                before,
                collisions@.take(i as int),
                *settings,
            ),
        decreases collisions@.len() - i,
    {
        let first = collisions[i].0;
        let second = collisions[i].1;
        let ghost start = scene_of(pads@, balls@, midi@, highlights@);
        meet_bodies(first, second, midi, pads, balls, highlights, settings);
        proof {
            lemma_meet_bounces(start, first, second, *settings);
        }
        let ghost middle = scene_of(pads@, balls@, midi@, highlights@);
        meet_bodies(second, first, midi, pads, balls, highlights, settings);
        proof {
            lemma_meet_bounces(middle, second, first, *settings);
            let done = collisions@.take(i + 1);
            assert(done.drop_last() =~= collisions@.take(i as int));
            assert(done.last() == collisions@[i as int]);
        }
        i += 1;
    }
    proof {
        assert(collisions@.take(collisions@.len() as int) =~= collisions@);
    }
}

/// One meeting leaves every ball in its place and adds at most one bounce.
proof fn lemma_meet_bounces(scene: Scene, pad_entity: u64, ball_entity: u64, settings: Settings)
    ensures
        meet(scene, pad_entity, ball_entity, settings).balls.len() == scene.balls.len(),
        forall|b: int|
            0 <= b < scene.balls.len() ==> (#[trigger] meet(
                scene,
                pad_entity,
                ball_entity,
                settings,
            ).balls[b]).ball.bounces <= scene.balls[b].ball.bounces + 1,
{
    ball_ids(scene.balls).index_of_first_ensures(ball_entity);
    pad_ids(scene.pads).index_of_first_ensures(pad_entity);
}

/// A pad entry `delta` nanoseconds later.
pub open spec fn entry_after(entry: PadEntryView, delta: u128) -> PadEntryView {
    PadEntryView {
        pad: PadView { playing_notes: notes_after(entry.pad.playing_notes, delta), ..entry.pad },
        ..entry
    }
}

/// The number of notes that run out within `delta` nanoseconds on the first
/// `count` pads.
pub open spec fn expired_count(pads: Seq<PadEntryView>, delta: u128, count: int) -> int
    decreases count,
{
    if count <= 0 {
        0
    } else {
        expired_count(pads, delta, count - 1) + expired_octaves(
            pads[count - 1].pad.playing_notes,
            delta,
        ).len()
    }
}

/// The events of `midi` that pad `k` adds when `delta` nanoseconds pass on
/// `pads`, where `queued` events were there before.
pub open spec fn pad_segment(
    midi: Seq<MidiOutputEvent>,
    queued: int,
    pads: Seq<PadEntryView>,
    delta: u128,
    k: int,
) -> Seq<MidiOutputEvent> {
    midi.subrange(
        queued + expired_count(pads, delta, k),
        queued + expired_count(pads, delta, k + 1),
    )
}

/// Whether the events that pad `k` adds switch off what runs out on it.
#[verifier::opaque]
spec fn pad_switched_off(
    midi: Seq<MidiOutputEvent>,
    queued: int,
    pads: Seq<PadEntryView>,
    delta: u128,
    k: int,
) -> bool {
    switches_off(
        pad_segment(midi, queued, pads, delta, k),
        pads[k].pad.note,
        expired_octaves(pads[k].pad.playing_notes, delta),
    )
}

/// Lets `delta` nanoseconds pass on every pad, as [`note_off_pad`] does on one.
///
/// The note-offs are added to the end of `midi`, those of the first pad
/// first; the order among the note-offs of one pad is not fixed.
pub fn note_off_pads(pads: &mut Vec<PadEntry>, delta: u128, midi: &mut Vec<MidiOutputEvent>)
    ensures
        pad_views(final(pads)@) == Seq::new(
            old(pads)@.len(),
            |i: int| entry_after(old(pads)@[i]@, delta),
        ),
        old(midi)@.is_prefix_of(final(midi)@),
        final(midi)@.len() == old(midi)@.len() + expired_count(
            pad_views(old(pads)@),
            delta,
            old(pads)@.len() as int,
        ),
        forall|i: int|
            #![trigger old(pads)@[i]]
            0 <= i < old(pads)@.len() ==> switches_off(
                pad_segment(
                    final(midi)@,
                    old(midi)@.len() as int,
                    pad_views(old(pads)@),
                    delta,
                    i,
                ),
                old(pads)@[i].pad.note,
                expired_octaves(old(pads)@[i].pad.playing_notes@, delta),
            ),
{
    let ghost before = pad_views(pads@);
    let ghost queued = midi@;
    let mut i: usize = 0;
    while i < pads.len()
        invariant
            i <= pads@.len(),
            pads@.len() == before.len(),
            forall|k: int| 0 <= k < i ==> (#[trigger] pads@[k])@ == entry_after(before[k], delta),
            forall|k: int| i <= k < pads@.len() ==> (#[trigger] pads@[k])@ == before[k],
            queued.is_prefix_of(midi@),
            midi@.len() == queued.len() + expired_count(before, delta, i as int),
            forall|k: int|
                0 <= k < i ==> #[trigger] pad_switched_off(
                    midi@,
                    queued.len() as int,
                    before,
                    delta,
                    k,
                ),
        decreases pads@.len() - i,
    {
        let ghost so_far = midi@;
        note_off_pad(&mut pads[i].pad, delta, midi);
        proof {
            lemma_pad_switched_off(so_far, midi@, queued.len() as int, before, delta, i as int);
            assert forall|k: int| 0 <= k < i implies #[trigger] pad_switched_off(
                midi@,
                queued.len() as int,
                before,
                delta,
                k,
            ) by {
                lemma_pad_stays_switched_off(
                    so_far,
                    midi@,
                    queued.len() as int,
                    before,
                    delta,
                    k,
                    i as int,
                );
            }
        }
        i += 1;
    }
    proof {
        assert(pad_views(pads@) =~= Seq::new(
            old(pads)@.len(),
            |i: int| entry_after(old(pads)@[i]@, delta),
        ));
        assert forall|i: int| #![trigger old(pads)@[i]] 0 <= i < old(pads)@.len() implies switches_off(
            pad_segment(midi@, queued.len() as int, before, delta, i),
            old(pads)@[i].pad.note,
            expired_octaves(old(pads)@[i].pad.playing_notes@, delta),
        ) by {
            assert(pad_switched_off(midi@, queued.len() as int, before, delta, i));
            reveal(pad_switched_off);
        }
    }
}

/// What one pad adds to the end of the queue is its segment.
proof fn lemma_pad_switched_off(
    so_far: Seq<MidiOutputEvent>,
    midi: Seq<MidiOutputEvent>,
    queued: int,
    pads: Seq<PadEntryView>,
    delta: u128,
    k: int,
)
    requires
        0 <= k < pads.len(),
        so_far.len() == queued + expired_count(pads, delta, k),
        so_far.is_prefix_of(midi),
        switches_off(
            midi.skip(so_far.len() as int),
            pads[k].pad.note,
            expired_octaves(pads[k].pad.playing_notes, delta),
        ),
    ensures
        midi.len() == queued + expired_count(pads, delta, k + 1),
        pad_switched_off(midi, queued, pads, delta, k),
{
    reveal(pad_switched_off);
    let emitted = midi.skip(so_far.len() as int);
    lemma_switch_off_count(
        emitted,
        pads[k].pad.note,
        expired_octaves(pads[k].pad.playing_notes, delta),
    );
    assert(expired_count(pads, delta, k + 1) == expired_count(pads, delta, k) + expired_octaves(
        pads[k].pad.playing_notes,
        delta,
    ).len());
    assert(pad_segment(midi, queued, pads, delta, k) =~= emitted);
}

/// Events added behind the segment of a pad leave that segment as it is.
proof fn lemma_pad_stays_switched_off(
    so_far: Seq<MidiOutputEvent>,
    midi: Seq<MidiOutputEvent>,
    queued: int,
    pads: Seq<PadEntryView>,
    delta: u128,
    k: int,
    done: int,
)
    requires
        0 <= k < done,
        0 <= queued,
        so_far.len() == queued + expired_count(pads, delta, done),
        so_far.is_prefix_of(midi),
        pad_switched_off(so_far, queued, pads, delta, k),
    ensures
        pad_switched_off(midi, queued, pads, delta, k),
{
    reveal(pad_switched_off);
    lemma_expired_count_grows(pads, delta, k + 1, done);
    lemma_expired_count_grows(pads, delta, k, k + 1);
    assert(pad_segment(midi, queued, pads, delta, k) =~= pad_segment(
        so_far,
        queued,
        pads,
        delta,
        k,
    ));
}

/// As many events switch a note off as there are octaves to switch it off in.
proof fn lemma_switch_off_count(events: Seq<MidiOutputEvent>, note: Note, octaves: Set<i32>)
    requires
        switches_off(events, note, octaves),
    ensures
        events.len() == octaves.len(),
{
    octaves_of(events).unique_seq_to_set();
}

/// The count of notes that run out is never negative and does not fall as
/// more pads are counted.
proof fn lemma_expired_count_grows(pads: Seq<PadEntryView>, delta: u128, fewer: int, more: int)
    requires
        fewer <= more,
    ensures
        0 <= expired_count(pads, delta, fewer) <= expired_count(pads, delta, more),
    decreases more - fewer, fewer,
{
    if fewer < more {
        lemma_expired_count_grows(pads, delta, fewer, more - 1);
    } else if 0 < fewer {
        lemma_expired_count_grows(pads, delta, fewer - 1, fewer - 1);
    }
}

/// The rotating housing: a ring of pads, one for each side of its shape.
pub struct Tombola {
    pub shape: Shape,
    pub pads: Vec<PadEntry>,
}

impl Tombola {
    /// A tombola has one pad for each side of its shape, and every pad knows
    /// its place in the ring.
    pub open spec fn wf(&self) -> bool {
        &&& self.pads@.len() == self.shape.num_sides()
        &&& forall|i: int| 0 <= i < self.pads@.len() ==> (#[trigger] self.pads@[i]).pad.index == i
    }
}

/// The pad ring of a new tombola: silent pads that play `notes` in order and
/// go by the names in `entities`.
pub open spec fn fresh_pads(shape: Shape, notes: Seq<Note>, entities: Seq<u64>) -> Seq<
    PadEntryView,
> {
    Seq::new(
        shape.num_sides() as nat,
        |i: int|
            (PadEntryView {
                entity: entities[i],
                pad: PadView { index: i as usize, note: notes[i], playing_notes: Map::empty() },
            }),
    )
}

/// `notes` cut or padded to `len` entries: what fits is kept in place, and
/// new entries play C.
pub open spec fn resized_notes(notes: Seq<Note>, len: int) -> Seq<Note> {
    Seq::new(
        len as nat,
        |i: int|
            if i < notes.len() {
                notes[i]
            } else {
                Note::C
            },
    )
}

/// Resizing keeps what fits and fills up with C: the list has the new
/// length, every place that was there before and still is holds its old
/// note, and every new place holds C.
pub proof fn lemma_resized_notes(notes: Seq<Note>, len: int)
    requires
        0 <= len,
    ensures
        resized_notes(notes, len).len() == len,
        len <= notes.len() ==> resized_notes(notes, len) == notes.take(len),
        len >= notes.len() ==> resized_notes(notes, len).take(notes.len() as int) == notes,
        forall|i: int|
            notes.len() <= i < len ==> #[trigger] resized_notes(notes, len)[i] == Note::C,
{
    if len <= notes.len() {
        assert(resized_notes(notes, len) =~= notes.take(len));
    }
    if len >= notes.len() {
        assert(resized_notes(notes, len).take(notes.len() as int) =~= notes);
    }
}

/// Builds the tombola of the given shape. Pad `i` plays `notes[i]` and goes
/// by the name `entities[i]`, so there must be a note and a name for every
/// side.
pub fn spawn_tombola(shape: Shape, notes: &Vec<Note>, entities: &Vec<u64>) -> (tombola: Tombola)
    requires
        shape.num_sides() <= notes@.len(),
        shape.num_sides() <= entities@.len(),
    ensures
        tombola.shape == shape,
        pad_views(tombola.pads@) == fresh_pads(shape, notes@, entities@),
        tombola.wf(),
{
    let sides = shape.get_num_sides();
    let mut pads: Vec<PadEntry> = Vec::new();
    let mut index: usize = 0;
    while index < sides
        invariant
            index <= sides,
            sides == shape.num_sides(),
            sides <= notes@.len(),
            sides <= entities@.len(),
            pads@.len() == index,
            forall|i: int|
                0 <= i < index ==> (#[trigger] pads@[i])@ == (PadEntryView {
                    entity: entities@[i],
                    pad: PadView { index: i as usize, note: notes@[i], playing_notes: Map::empty() },
                }),
        decreases sides - index,
    {
        pads.push(PadEntry { entity: entities[index], pad: Pad::new(index, notes[index]) });
        index += 1;
    }
    proof {
        assert(pad_views(pads@) =~= fresh_pads(shape, notes@, entities@));
    }
    Tombola { shape, pads }
}

/// Brings the tombola into the shape that the settings ask for.
///
/// Where the shape is as asked, nothing happens. Otherwise the list of notes
/// in the settings is cut or padded to the new number of sides (see
/// [`resized_notes`]), and the pads are replaced by a new ring as
/// [`spawn_tombola`] builds it, named by `entities`, of which there must be
/// one for every side of the shape asked for. Notes that still sound on the
/// old pads are forgotten without a note-off.
pub fn update_tombola_shape(
    tombola: &mut Tombola,
    settings: &mut Settings,
    entities: &Vec<u64>,
) -> (rebuilt: bool)
    requires
        old(settings).world.tombola_shape.num_sides() <= entities@.len(),
    ensures
        rebuilt == (old(tombola).shape != old(settings).world.tombola_shape),
        !rebuilt ==> *final(tombola) == *old(tombola) && *final(settings) == *old(settings),
        final(settings).world == old(settings).world,
        final(settings).midi.fixed_note_velocity == old(settings).midi.fixed_note_velocity,
        final(settings).midi.fixed_note_length == old(settings).midi.fixed_note_length,
        rebuilt ==> {
            &&& final(settings).midi.tombola_notes@ == resized_notes(
                old(settings).midi.tombola_notes@,
                old(settings).world.tombola_shape.num_sides(),
            )
            &&& final(tombola).shape == old(settings).world.tombola_shape
            &&& pad_views(final(tombola).pads@) == fresh_pads(
                final(tombola).shape,
                final(settings).midi.tombola_notes@,
                entities@,
            )
            &&& final(tombola).wf()
        },
{
    if tombola.shape != settings.world.tombola_shape {
        let shape = settings.world.tombola_shape;
        let ghost notes = settings.midi.tombola_notes@;
        settings.midi.tombola_notes.resize(shape.get_num_sides(), Note::C);
        proof {
            assert(settings.midi.tombola_notes@ =~= resized_notes(notes, shape.num_sides()));
        }
        *tombola = spawn_tombola(shape, &settings.midi.tombola_notes, entities);
        true
    } else {
        false
    }
}

/// Gives every pad the note that the settings hold for its place in the
/// ring. The settings must hold a note for the place of every pad.
pub fn update_tombola_notes(pads: &mut Vec<PadEntry>, settings: &Settings)
    requires
        forall|i: int|
            0 <= i < old(pads)@.len() ==> (#[trigger] old(pads)@[i]).pad.index
                < settings.midi.tombola_notes@.len(),
    ensures
        pad_views(final(pads)@) == Seq::new(
            old(pads)@.len(),
            |i: int|
                (PadEntryView {
                    pad: PadView {
                        note: settings.midi.tombola_notes@[old(pads)@[i].pad.index as int],
                        ..old(pads)@[i].pad@
                    },
                    ..old(pads)@[i]@
                }),
        ),
{
    let mut i: usize = 0;
    while i < pads.len()
        invariant
            i <= pads@.len(),
            pads@.len() == old(pads)@.len(),
            forall|k: int|
                0 <= k < pads@.len() ==> (#[trigger] old(pads)@[k]).pad.index
                    < settings.midi.tombola_notes@.len(),
            forall|k: int|
                0 <= k < i ==> (#[trigger] pads@[k])@ == (PadEntryView {
                    pad: PadView {
                        note: settings.midi.tombola_notes@[old(pads)@[k].pad.index as int],
                        ..old(pads)@[k].pad@
                    },
                    ..old(pads)@[k]@
                }),
            forall|k: int| i <= k < pads@.len() ==> (#[trigger] pads@[k])@ == old(pads)@[k]@,
        decreases pads@.len() - i,
    {
        assert(pads@[i as int]@ == old(pads)@[i as int]@);
        let index = pads[i].pad.index;
        pads[i].pad.note = settings.midi.tombola_notes[index];
        i += 1;
    }
    proof {
        assert(pad_views(pads@) =~= Seq::new(
            old(pads)@.len(),
            |i: int|
                (PadEntryView {
                    pad: PadView {
                        note: settings.midi.tombola_notes@[old(pads)@[i].pad.index as int],
                        ..old(pads)@[i].pad@
                    },
                    ..old(pads)@[i]@
                }),
        ));
    }
}

} // verus!
