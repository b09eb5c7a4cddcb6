//! Which balls leave the game.

use vstd::prelude::*;

verus! {

use crate::ball::{ball_ids, BallEntry};
use crate::settings::Settings;

/// The playfield: a rectangle about the origin, given by half its width and
/// half its height in thousandths of a length unit. Its edges belong to it.
#[derive(Clone, Copy, PartialEq, Eq, Structural, Debug)]
pub struct Playfield {
    pub half_width: u64,
    pub half_height: u64,
}

impl Playfield {
    /// Whether the point lies on the playfield.
    pub open spec fn holds(self, x: int, y: int) -> bool {
        &&& -(self.half_width as int) <= x <= self.half_width
        &&& -(self.half_height as int) <= y <= self.half_height
    }

    pub fn contains(&self, x: i64, y: i64) -> (inside: bool)
        ensures
            inside == self.holds(x as int, y as int),
    {
        let x: i128 = x as i128;
        let y: i128 = y as i128;
        let half_width: i128 = self.half_width as i128;
        let half_height: i128 = self.half_height as i128;
        -half_width <= x && x <= half_width && -half_height <= y && y <= half_height
    }
}

/// Whether a ball has to go whatever the number of balls: it has left the
/// playfield, or it has bounced as often as the bounce limit allows.
pub open spec fn is_retired(entry: BallEntry, field: Playfield, settings: Settings) -> bool {
    ||| !field.holds(entry.x as int, entry.y as int)
    ||| settings.world.max_bounces.enabled && entry.ball.bounces
        >= settings.world.max_bounces.limit
}

/// The balls that are retired, in the order of the table.
pub open spec fn retired(balls: Seq<BallEntry>, field: Playfield, settings: Settings) -> Seq<
    BallEntry,
> {
    balls.filter(|entry: BallEntry| is_retired(entry, field, settings))
}

/// The balls that are not retired, in the order of the table.
pub open spec fn in_play(balls: Seq<BallEntry>, field: Playfield, settings: Settings) -> Seq<
    BallEntry,
> {
    balls.filter(|entry: BallEntry| !is_retired(entry, field, settings))
}

/// Whether ball `i` is the oldest of the table: no ball was made before it,
/// and of the balls made at the same time it stands last.
pub open spec fn is_oldest(balls: Seq<BallEntry>, i: int) -> bool {
    &&& 0 <= i < balls.len()
    &&& forall|j: int|
        0 <= j < balls.len() ==> balls[i].ball.spawn_time <= (#[trigger] balls[j]).ball.spawn_time
    &&& forall|j: int|
        i < j < balls.len() ==> balls[i].ball.spawn_time < (#[trigger] balls[j]).ball.spawn_time
}

/// The index of the oldest ball of a table that is not empty.
pub open spec fn oldest_index(balls: Seq<BallEntry>) -> int {
    choose|i: int| is_oldest(balls, i)
}

/// The table without the balls named `entity`.
pub open spec fn without(balls: Seq<BallEntry>, entity: u64) -> Seq<BallEntry> {
    balls.filter(|entry: BallEntry| entry.entity != entity)
}

/// The table after the oldest ball was taken out `count` times over, or
/// until no ball was left.
pub open spec fn evict_oldest(balls: Seq<BallEntry>, count: nat) -> Seq<BallEntry>
    decreases count,
{
    if count == 0 || balls.len() == 0 {
        balls
    } else {
        evict_oldest(without(balls, balls[oldest_index(balls)].entity), (count - 1) as nat)
    }
}

/// The names of the balls that [`evict_oldest`] takes out, oldest first.
pub open spec fn evicted(balls: Seq<BallEntry>, count: nat) -> Seq<u64>
    decreases count,
{
    if count == 0 || balls.len() == 0 {
        Seq::empty()
    } else {
        let oldest = balls[oldest_index(balls)].entity;
        seq![oldest] + evicted(without(balls, oldest), (count - 1) as nat)
    }
}

/// By how many balls a table exceeds the cap on the number of balls.
pub open spec fn surplus(balls: Seq<BallEntry>, settings: Settings) -> nat {
    if settings.world.max_balls.enabled && balls.len() > settings.world.max_balls.limit {
        (balls.len() - settings.world.max_balls.limit) as nat
    } else {
        0
    }
}

/// A table that is not empty has exactly one oldest ball.
pub proof fn lemma_oldest_is_unique(balls: Seq<BallEntry>, i: int)
    requires
        is_oldest(balls, i),
    ensures
        oldest_index(balls) == i,
{
    let k = oldest_index(balls);
    assert(is_oldest(balls, k));
    if k < i {
        assert(balls[k].ball.spawn_time < balls[i].ball.spawn_time);
        assert(balls[i].ball.spawn_time <= balls[k].ball.spawn_time);
    } else if i < k {
        assert(balls[i].ball.spawn_time < balls[k].ball.spawn_time);
        assert(balls[k].ball.spawn_time <= balls[i].ball.spawn_time);
    }
}

/// The name of the oldest ball: of the balls that were made first, the one
/// that stands last in the table. An empty table has none.
pub fn oldest_ball(balls: &Vec<BallEntry>) -> (oldest: Option<u64>)
    ensures
        match oldest {
            Some(entity) => balls@.len() > 0 && is_oldest(balls@, oldest_index(balls@)) && entity
                == balls@[oldest_index(balls@)].entity,
            None => balls@.len() == 0,
        },
{
    if balls.len() == 0 {
        return None;
    }
    let mut best: usize = 0;
    let mut i: usize = 1;
    while i < balls.len()
        invariant
            1 <= i <= balls@.len(),
            best < i,
            forall|j: int|
                0 <= j < i ==> balls@[best as int].ball.spawn_time <= (
                #[trigger] balls@[j]).ball.spawn_time,
            forall|j: int|
                best < j < i ==> balls@[best as int].ball.spawn_time < (
                #[trigger] balls@[j]).ball.spawn_time,
        decreases balls@.len() - i,
    {
        if balls[i].ball.spawn_time <= balls[best].ball.spawn_time {
            best = i;
        }
        i += 1;
    }
    proof {
        assert(is_oldest(balls@, best as int));
        lemma_oldest_is_unique(balls@, best as int);
    }
    Some(balls[best].entity)
}

/// Takes the balls named `entity` out of the table.
fn remove_ball(balls: &mut Vec<BallEntry>, entity: u64)
    ensures
        final(balls)@ == without(old(balls)@, entity),
{
    let ghost keep = |entry: BallEntry| entry.entity != entity;
    let mut kept: Vec<BallEntry> = Vec::new();
    let mut i: usize = 0;
    proof {
        reveal(Seq::filter);
        assert(balls@.take(0) =~= Seq::<BallEntry>::empty());
    }
    while i < balls.len()
        invariant
            i <= balls@.len(),
            keep == |entry: BallEntry| entry.entity != entity,
            kept@ == balls@.take(i as int).filter(keep),
        decreases balls@.len() - i,
    {
        proof {
            reveal(Seq::filter);
            assert(balls@.take(i + 1).drop_last() =~= balls@.take(i as int));
        }
        if balls[i].entity != entity {
            kept.push(balls[i]);
        }
        i += 1;
    }
    proof {
        assert(balls@.take(balls@.len() as int) =~= balls@);
    }
    *balls = kept;
}

/// Takes the oldest ball out of the table, `num_to_remove` times over or
/// until the table is empty, and returns the names of the balls taken out,
/// oldest first.
pub fn despawn_oldest_balls(num_to_remove: usize, balls: &mut Vec<BallEntry>) -> (despawned: Vec<
    u64,
>)
    ensures
        final(balls)@ == evict_oldest(old(balls)@, num_to_remove as nat),
        despawned@ == evicted(old(balls)@, num_to_remove as nat),
{
    let mut despawned: Vec<u64> = Vec::new();
    let mut round: usize = 0;
    while round < num_to_remove
        invariant
            round <= num_to_remove,
            evict_oldest(balls@, (num_to_remove - round) as nat) == evict_oldest(
                old(balls)@,
                num_to_remove as nat,
            ),
            despawned@ + evicted(balls@, (num_to_remove - round) as nat) == evicted(
                old(balls)@,
                num_to_remove as nat,
            ),
        decreases num_to_remove - round,
    {
        let ghost before = balls@;
        let ghost names = despawned@;
        match oldest_ball(balls) {
            Some(oldest) => {
                despawned.push(oldest);
                remove_ball(balls, oldest);
                proof {
                    let rest = evicted(balls@, (num_to_remove - round - 1) as nat);
                    assert(evicted(before, (num_to_remove - round) as nat) == seq![oldest] + rest);
                    assert(despawned@ + rest =~= names + (seq![oldest] + rest));
                }
            },
            None => {
                proof {
                    lemma_nothing_to_evict(balls@, (num_to_remove - round - 1) as nat);
                }
            },
        }
        round += 1;
    }
    proof {
        assert(despawned@ + Seq::<u64>::empty() =~= despawned@);
    }
    despawned
}

/// From an empty table nothing is taken.
proof fn lemma_nothing_to_evict(balls: Seq<BallEntry>, count: nat)
    requires
        balls.len() == 0,
    ensures
        evict_oldest(balls, count) == balls,
        evicted(balls, count) == Seq::<u64>::empty(),
{
}

/// Clears the table of the balls that have to go, and returns their names.
///
/// First every ball goes that has left the playfield or, where the bounce
/// limit is on, has bounced as often as it allows. Then, where the cap on the
/// number of balls is on and more balls than that are left, the oldest go
/// until the cap is met. The names come in that order: the retired in the
/// order of the table, then the evicted, oldest first.
pub fn clean_up_balls(balls: &mut Vec<BallEntry>, field: &Playfield, settings: &Settings) -> (despawned:
    Vec<u64>)
    ensures
        final(balls)@ == evict_oldest(
            in_play(old(balls)@, *field, *settings),
            surplus(in_play(old(balls)@, *field, *settings), *settings),
        ),
        despawned@ == ball_ids(retired(old(balls)@, *field, *settings)) + evicted(
            in_play(old(balls)@, *field, *settings),
            surplus(in_play(old(balls)@, *field, *settings), *settings),
        ),
{
    let ghost goes = |entry: BallEntry| is_retired(entry, *field, *settings);
    let ghost stays = |entry: BallEntry| !is_retired(entry, *field, *settings);
    let mut despawned: Vec<u64> = Vec::new();
    let mut kept: Vec<BallEntry> = Vec::new();
    let mut i: usize = 0;
    proof {
        reveal(Seq::filter);
        assert(balls@.take(0) =~= Seq::<BallEntry>::empty());
        assert(despawned@ =~= ball_ids(balls@.take(0).filter(goes)));
    }
    while i < balls.len()
        invariant
            i <= balls@.len(),
            goes == |entry: BallEntry| is_retired(entry, *field, *settings),
            stays == |entry: BallEntry| !is_retired(entry, *field, *settings),
            kept@ == balls@.take(i as int).filter(stays),
            despawned@ == ball_ids(balls@.take(i as int).filter(goes)),
        decreases balls@.len() - i,
    {
        proof {
            reveal(Seq::filter);
            assert(balls@.take(i + 1).drop_last() =~= balls@.take(i as int));
        }
        let entry = balls[i];
        let ghost names = despawned@;
        if !field.contains(entry.x, entry.y) || (settings.world.max_bounces.enabled
            && entry.ball.bounces >= settings.world.max_bounces.limit) {
            despawned.push(entry.entity);
            proof {
                assert(despawned@ =~= ball_ids(balls@.take(i + 1).filter(goes)));
            }
        } else {
            kept.push(entry);
        }
        i += 1;
    }
    proof {
        assert(balls@.take(balls@.len() as int) =~= balls@);
    }
    let ghost names = despawned@;
    if settings.world.max_balls.enabled && kept.len() > settings.world.max_balls.limit {
        let surplus = kept.len() - settings.world.max_balls.limit;
        let mut evicted = despawn_oldest_balls(surplus, &mut kept);
        despawned.append(&mut evicted);
    } else {
        proof {
            assert(despawned@ + Seq::<u64>::empty() =~= despawned@);
        }
    }
    *balls = kept;
    despawned
}

/// A table that is not empty has an oldest ball.
pub proof fn lemma_oldest_exists(balls: Seq<BallEntry>)
    requires
        balls.len() > 0,
    ensures
        is_oldest(balls, oldest_index(balls)),
    decreases balls.len(),
{
    if balls.len() == 1 {
        assert(is_oldest(balls, 0));
    } else {
        let front = balls.drop_last();
        lemma_oldest_exists(front);
        let k = oldest_index(front);
        let last = balls.len() - 1;
        if balls[last].ball.spawn_time <= front[k].ball.spawn_time {
            assert forall|j: int| 0 <= j < balls.len() implies balls[last].ball.spawn_time <= (
            #[trigger] balls[j]).ball.spawn_time by {
                if j < last {
                    assert(front[j] == balls[j]);
                }
            }
            assert(is_oldest(balls, last));
        } else {
            assert forall|j: int| 0 <= j < balls.len() implies balls[k].ball.spawn_time <= (
            #[trigger] balls[j]).ball.spawn_time by {
                if j < last {
                    assert(front[j] == balls[j]);
                }
            }
            assert forall|j: int| k < j < balls.len() implies balls[k].ball.spawn_time < (
            #[trigger] balls[j]).ball.spawn_time by {
                if j < last {
                    assert(front[j] == balls[j]);
                }
            }
            assert(is_oldest(balls, k));
        }
    }
}

/// Where no two balls share a name, taking out the balls of one name takes
/// out one ball.
proof fn lemma_without_one(balls: Seq<BallEntry>, i: int)
    requires
        ball_ids(balls).no_duplicates(),
        0 <= i < balls.len(),
    ensures
        without(balls, balls[i].entity) == balls.remove(i),
    decreases balls.len(),
{
    reveal(Seq::filter);
    let entity = balls[i].entity;
    let keep = |entry: BallEntry| entry.entity != entity;
    let front = balls.drop_last();
    let last = balls.len() - 1;
    assert forall|a: int, b: int| 0 <= a < b < balls.len() implies balls[a].entity
        != balls[b].entity by {
        assert(ball_ids(balls)[a] == balls[a].entity);
        assert(ball_ids(balls)[b] == balls[b].entity);
    }
    if i == last {
        assert forall|j: int| 0 <= j < front.len() implies keep(#[trigger] front[j]) by {
            assert(front[j] == balls[j]);
        }
        lemma_filter_keeps_all(front, keep);
        assert(balls.remove(i) =~= front);
    } else {
        assert(ball_ids(front) =~= ball_ids(balls).drop_last());
        assert(front[i] == balls[i]);
        lemma_without_one(front, i);
        assert(keep(balls[last]));
        assert(front.remove(i).push(balls[last]) =~= balls.remove(i));
    }
}

/// A filter that every entry passes changes nothing.
proof fn lemma_filter_keeps_all(balls: Seq<BallEntry>, keep: spec_fn(BallEntry) -> bool)
    requires
        forall|j: int| 0 <= j < balls.len() ==> keep(#[trigger] balls[j]),
    ensures
        balls.filter(keep) == balls,
    decreases balls.len(),
{
    reveal(Seq::filter);
    if balls.len() > 0 {
        let front = balls.drop_last();
        assert forall|j: int| 0 <= j < front.len() implies keep(#[trigger] front[j]) by {
            assert(front[j] == balls[j]);
        }
        lemma_filter_keeps_all(front, keep);
        assert(front.push(balls.last()) =~= balls);
    }
}

/// The cap on the number of balls keeps the newest.
///
/// Of a table in which no two balls share a name, taking out the oldest
/// `count` times takes out exactly `count` balls, each once. Every ball of
/// the table is either still there or among those taken out, never both, and
/// none that was taken out was made after one that is still there.
pub proof fn lemma_cap_keeps_newest(balls: Seq<BallEntry>, count: nat)
    requires
        ball_ids(balls).no_duplicates(),
        count <= balls.len(),
    ensures
        evict_oldest(balls, count).len() == balls.len() - count,
        evicted(balls, count).len() == count,
        evicted(balls, count).no_duplicates(),
        ball_ids(evict_oldest(balls, count)).no_duplicates(),
        forall|entry: BallEntry| #[trigger]
            evict_oldest(balls, count).contains(entry) ==> balls.contains(entry),
        forall|entity: u64| #[trigger]
            evicted(balls, count).contains(entity) ==> ball_ids(balls).contains(entity),
        forall|i: int|
            0 <= i < balls.len() ==> (evict_oldest(balls, count).contains(#[trigger] balls[i])
                <==> !evicted(balls, count).contains(balls[i].entity)),
        forall|i: int, j: int|
            0 <= i < balls.len() && 0 <= j < balls.len() && evicted(balls, count).contains(
                (#[trigger] balls[i]).entity,
            ) && evict_oldest(balls, count).contains(#[trigger] balls[j])
                ==> balls[i].ball.spawn_time <= balls[j].ball.spawn_time,
    decreases count,
{
    let survivors = evict_oldest(balls, count);
    let gone = evicted(balls, count);
    assert forall|a: int, b: int| 0 <= a < b < balls.len() implies balls[a].entity
        != balls[b].entity by {
        assert(ball_ids(balls)[a] == balls[a].entity);
        assert(ball_ids(balls)[b] == balls[b].entity);
    }
    if count == 0 {
        assert(gone =~= Seq::<u64>::empty());
    } else {
        lemma_oldest_exists(balls);
        let k = oldest_index(balls);
        let oldest = balls[k].entity;
        lemma_without_one(balls, k);
        let rest = balls.remove(k);
        assert forall|a: int| 0 <= a < rest.len() implies #[trigger] rest[a] == balls[if a < k {
            a
        } else {
            a + 1
        }] by {}
        assert(ball_ids(rest) =~= ball_ids(balls).remove(k));
        assert(ball_ids(rest).no_duplicates()) by {
            assert forall|a: int, b: int|
                0 <= a < rest.len() && 0 <= b < rest.len() && a != b implies ball_ids(rest)[a]
                != ball_ids(rest)[b] by {
                assert(rest[a].entity != rest[b].entity);
            }
        }
        lemma_cap_keeps_newest(rest, (count - 1) as nat);
        let rest_survivors = evict_oldest(rest, (count - 1) as nat);
        let rest_gone = evicted(rest, (count - 1) as nat);
        assert(survivors == rest_survivors);
        assert(gone == seq![oldest] + rest_gone);
        assert(gone[0] == oldest);
        assert forall|a: int| 0 <= a < rest_gone.len() implies gone[a + 1] == rest_gone[a] by {}
        assert forall|entity: u64| #[trigger] gone.contains(entity) <==> (entity == oldest
            || rest_gone.contains(entity)) by {
            if gone.contains(entity) {
                let a = choose|a: int| 0 <= a < gone.len() && gone[a] == entity;
                if a > 0 {
                    assert(rest_gone[a - 1] == entity);
                }
            }
            if rest_gone.contains(entity) {
                let a = choose|a: int| 0 <= a < rest_gone.len() && rest_gone[a] == entity;
                assert(gone[a + 1] == entity);
            }
        }
        assert forall|entity: u64| #[trigger] ball_ids(rest).contains(entity) implies entity
            != oldest && ball_ids(balls).contains(entity) by {
            let a = choose|a: int| 0 <= a < ball_ids(rest).len() && ball_ids(rest)[a] == entity;
            let b = if a < k {
                a
            } else {
                a + 1
            };
            assert(rest[a] == balls[b]);
            assert(ball_ids(balls)[b] == entity);
        }
        assert forall|entry: BallEntry| #[trigger] rest.contains(entry) implies entry.entity
            != oldest && balls.contains(entry) by {
            let a = choose|a: int| 0 <= a < rest.len() && rest[a] == entry;
            let b = if a < k {
                a
            } else {
                a + 1
            };
            assert(rest[a] == balls[b]);
        }
        assert(!rest_gone.contains(oldest));
        assert(gone.no_duplicates()) by {
            assert forall|a: int, b: int| 0 <= a < b < gone.len() implies gone[a] != gone[b] by {
                if a == 0 {
                    assert(rest_gone[b - 1] == gone[b]);
                    assert(rest_gone.contains(gone[b]));
                } else {
                    assert(rest_gone[a - 1] == gone[a]);
                    assert(rest_gone[b - 1] == gone[b]);
                }
            }
        }
        assert(ball_ids(balls)[k] == oldest);
        assert forall|i: int| 0 <= i < balls.len() implies (survivors.contains(
            #[trigger] balls[i],
        ) <==> !gone.contains(balls[i].entity)) by {
            if i == k {
                if survivors.contains(balls[i]) {
                    assert(rest.contains(balls[i]));
                }
            } else {
                let a = if i < k {
                    i
                } else {
                    i - 1
                };
                assert(rest[a] == balls[i]);
            }
        }
        assert forall|i: int, j: int|
            0 <= i < balls.len() && 0 <= j < balls.len() && gone.contains(
                (#[trigger] balls[i]).entity,
            ) && survivors.contains(#[trigger] balls[j]) implies balls[i].ball.spawn_time
            <= balls[j].ball.spawn_time by {
            if i != k {
                let a = if i < k {
                    i
                } else {
                    i - 1
                };
                assert(rest[a] == balls[i]);
                assert(rest.contains(balls[j]));
                let b = choose|b: int| 0 <= b < rest.len() && rest[b] == balls[j];
                assert(rest_gone.contains(rest[a].entity));
                assert(rest_survivors.contains(rest[b]));
            }
        }
    }
}

/// The balls that a filter keeps have different names if all had.
proof fn lemma_filter_keeps_names_apart(balls: Seq<BallEntry>, keep: spec_fn(BallEntry) -> bool)
    requires
        ball_ids(balls).no_duplicates(),
    ensures
        ball_ids(balls.filter(keep)).no_duplicates(),
        forall|entry: BallEntry| #[trigger]
            balls.filter(keep).contains(entry) ==> balls.contains(entry),
    decreases balls.len(),
{
    reveal(Seq::filter);
    if balls.len() > 0 {
        let front = balls.drop_last();
        let last = balls.last();
        assert(ball_ids(front) =~= ball_ids(balls).drop_last());
        lemma_filter_keeps_names_apart(front, keep);
        let kept = front.filter(keep);
        assert forall|entry: BallEntry| #[trigger] front.contains(entry) implies entry.entity
            != last.entity && balls.contains(entry) by {
            let a = choose|a: int| 0 <= a < front.len() && front[a] == entry;
            assert(balls[a] == entry);
            assert(ball_ids(balls)[a] == entry.entity);
            assert(ball_ids(balls)[balls.len() - 1] == last.entity);
        }
        assert(balls.contains(last)) by {
            assert(balls[balls.len() - 1] == last);
        }
        if keep(last) {
            let all = kept.push(last);
            assert forall|a: int, b: int| 0 <= a < b < all.len() implies ball_ids(all)[a]
                != ball_ids(all)[b] by {
                assert(kept.contains(all[a]));
                if b < kept.len() {
                    assert(ball_ids(kept)[a] == all[a].entity);
                    assert(ball_ids(kept)[b] == all[b].entity);
                }
            }
            assert forall|entry: BallEntry| #[trigger] all.contains(entry) implies balls.contains(
                entry,
            ) by {
                let a = choose|a: int| 0 <= a < all.len() && all[a] == entry;
                if a < kept.len() {
                    assert(kept.contains(entry));
                }
            }
        }
    }
}

/// One sweep meets the cap on the number of balls.
///
/// Where the cap is on and no two balls share a name, the sweep leaves as
/// many balls as the cap allows, or all that are in play if those are fewer.
/// It evicts exactly the surplus, and no evicted ball was made after one that
/// stays.
pub proof fn lemma_sweep_meets_cap(balls: Seq<BallEntry>, field: Playfield, settings: Settings)
    requires
        ball_ids(balls).no_duplicates(),
        settings.world.max_balls.enabled,
    ensures
        ({
            let kept = in_play(balls, field, settings);
            let count = surplus(kept, settings);
            let left = evict_oldest(kept, count);
            let gone = evicted(kept, count);
            &&& left.len() == if kept.len() > settings.world.max_balls.limit {
                settings.world.max_balls.limit as int
            } else {
                kept.len() as int
            }
            &&& gone.len() == kept.len() - left.len()
            &&& forall|i: int, j: int|
                0 <= i < kept.len() && 0 <= j < kept.len() && gone.contains(
                    (#[trigger] kept[i]).entity,
                ) && left.contains(#[trigger] kept[j]) ==> kept[i].ball.spawn_time
                    <= kept[j].ball.spawn_time
        }),
{
    let kept = in_play(balls, field, settings);
    lemma_filter_keeps_names_apart(
        balls,
        |entry: BallEntry| !is_retired(entry, field, settings),
    );
    lemma_cap_keeps_newest(kept, surplus(kept, settings));
}

} // verus!
