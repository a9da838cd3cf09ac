//! Obstacles: spawning in gap pairs, scrolling, and the collision and scoring
//! pass over the body.

use vstd::prelude::*;
use crate::geometry::{
    circle_intersects_box, circle_meets_box, diameter_sq, enclosing_diameter_sq,
    left_edge_beyond, left_edge_passed, GEOMETRY_LIMIT,
};
use crate::physics::{Body, MAX_STEP_MS, POSITION_LIMIT};

verus! {

/// Leftward scroll, 200 units/s, in micro-units per millisecond.
pub const SCROLL_SPEED: i64 = 200_000;

/// Half-extents of an obstacle's sprite: 292 by 855 at scale 0.5.
pub const OBSTACLE_HALF_WIDTH: i64 = 73_000_000;
pub const OBSTACLE_HALF_HEIGHT: i64 = 213_750_000;

/// How far the hitbox is shrunk on each side, relative to the sprite.
pub const INSET_X: i64 = 60_000_000;
pub const INSET_Y: i64 = 30_000_000;

/// Vertical offsets of a spawned obstacle are drawn from `[0, GAP_JITTER)`:
/// 90 units.
pub const GAP_JITTER: u64 = 90_000_000;

/// One obstacle: its identity, its center in micro-units, and the
/// half-extents of its sprite.
#[derive(Clone, Copy, Debug, PartialEq, Eq, Structural)]
pub struct Obstacle {
    pub id: u64,
    pub x: i64,
    pub y: i64,
    pub half_width: i64,
    pub half_height: i64,
}

impl Obstacle {
    /// Within the limits of a tick, with a non-empty hitbox.
    pub open spec fn fits(self) -> bool {
        -POSITION_LIMIT <= self.x <= POSITION_LIMIT
        && -POSITION_LIMIT <= self.y <= POSITION_LIMIT
        && INSET_X <= self.half_width <= POSITION_LIMIT
        && INSET_Y <= self.half_height <= POSITION_LIMIT
    }
}

/// The two obstacles of one spawn, for a viewport `width` by `height`: both on
/// the right edge, one hanging `upper_drop` below the top edge, one rising
/// `lower_rise` above the bottom edge. The edges stand at `-(height / 2)` and
/// `height - height / 2`, exactly `height` apart.
pub open spec fn spawned_pair(first_id: int, width: int, height: int, upper_drop: int, lower_rise: int) -> (Obstacle, Obstacle) {
    (
        Obstacle {
            id: first_id as u64,
            x: (width / 2) as i64,
            y: (height - height / 2 - upper_drop) as i64,
            half_width: OBSTACLE_HALF_WIDTH,
            half_height: OBSTACLE_HALF_HEIGHT,
        },
        Obstacle {
            id: (first_id + 1) as u64,
            x: (width / 2) as i64,
            y: (-(height / 2) + lower_rise) as i64,
            half_width: OBSTACLE_HALF_WIDTH,
            half_height: OBSTACLE_HALF_HEIGHT,
        },
    )
}

/// Builds the gap pair of one spawn from the two drawn offsets.
pub fn spawn_pair(first_id: u64, width: i64, height: i64, upper_drop: u64, lower_rise: u64) -> (r: (Obstacle, Obstacle))
    requires
        first_id < u64::MAX,
        0 <= width <= POSITION_LIMIT,
        0 <= height <= POSITION_LIMIT,
        upper_drop < GAP_JITTER,
        lower_rise < GAP_JITTER,
    ensures
        r == spawned_pair(first_id as int, width as int, height as int, upper_drop as int, lower_rise as int),
        r.0.fits(),
        r.1.fits(),
{
    let x = width / 2;
    let top = height - height / 2 - upper_drop as i64;
    let bottom = -(height / 2) + lower_rise as i64;
    (
        Obstacle { id: first_id, x, y: top, half_width: OBSTACLE_HALF_WIDTH, half_height: OBSTACLE_HALF_HEIGHT },
        Obstacle { id: first_id + 1, x, y: bottom, half_width: OBSTACLE_HALF_WIDTH, half_height: OBSTACLE_HALF_HEIGHT },
    )
}

/// The two obstacles of a spawn share their column, and the first stands
/// exactly `height - upper_drop - lower_rise` above the second: whenever the
/// two offsets together are less than the viewport height, there is a gap.
pub proof fn lemma_pair_shares_column(first_id: int, width: int, height: int, upper_drop: int, lower_rise: int)
    requires
        0 <= width <= POSITION_LIMIT,
        0 <= height <= POSITION_LIMIT,
        0 <= upper_drop < GAP_JITTER,
        0 <= lower_rise < GAP_JITTER,
    ensures
        spawned_pair(first_id, width, height, upper_drop, lower_rise).0.x
            == spawned_pair(first_id, width, height, upper_drop, lower_rise).1.x,
        spawned_pair(first_id, width, height, upper_drop, lower_rise).0.y
            - spawned_pair(first_id, width, height, upper_drop, lower_rise).1.y
            == height - upper_drop - lower_rise,
        upper_drop + lower_rise < height
            ==> spawned_pair(first_id, width, height, upper_drop, lower_rise).0.y
            > spawned_pair(first_id, width, height, upper_drop, lower_rise).1.y,
{
}

/// An obstacle after `dt` milliseconds of scrolling.
pub open spec fn scrolled(o: Obstacle, dt: int) -> Obstacle {
    Obstacle { x: (o.x - SCROLL_SPEED * dt) as i64, ..o }
}

/// Moves every obstacle left by the scroll speed times `dt_ms`.
pub fn scroll_obstacles(obstacles: &mut Vec<Obstacle>, dt_ms: u64)
    requires
        dt_ms <= MAX_STEP_MS,
        forall|i: int| 0 <= i < old(obstacles)@.len() ==> (#[trigger] old(obstacles)@[i]).fits(),
    ensures
        final(obstacles)@.len() == old(obstacles)@.len(),
        forall|i: int| 0 <= i < old(obstacles)@.len()
            ==> #[trigger] final(obstacles)@[i] == scrolled(old(obstacles)@[i], dt_ms as int),
{
    let shift = SCROLL_SPEED * dt_ms as i64;
    let n = obstacles.len();
    let mut i: usize = 0;
    while i < n
        invariant
            n == obstacles@.len(),
            n == old(obstacles)@.len(),
            0 <= i <= n,
            shift == SCROLL_SPEED * dt_ms,
            dt_ms <= MAX_STEP_MS,
            forall|j: int| 0 <= j < n ==> (#[trigger] old(obstacles)@[j]).fits(),
            forall|j: int| 0 <= j < i ==> #[trigger] obstacles@[j] == scrolled(old(obstacles)@[j], dt_ms as int),
            forall|j: int| i <= j < n ==> #[trigger] obstacles@[j] == old(obstacles)@[j],
        decreases n - i,
    {
        let mut o = obstacles[i];
        o.x = o.x - shift;
        obstacles.set(i, o);
        i = i + 1;
    }
}

/// Whether the body's enclosing circle meets the obstacle's inset hitbox.
pub open spec fn hits(b: Body, o: Obstacle) -> bool {
    circle_meets_box(
        b.x as int,
        b.y as int,
        diameter_sq(b.width as int, b.height as int),
        o.x as int,
        o.y as int,
        o.half_width - INSET_X,
        o.half_height - INSET_Y,
    )
}

/// Whether the body has fully cleared the obstacle: its left edge lies right
/// of the obstacle's center.
pub open spec fn cleared(b: Body, o: Obstacle) -> bool {
    left_edge_beyond(b.x as int, diameter_sq(b.width as int, b.height as int), o.x as int)
}

/// Whether the body hits any of the obstacles.
pub open spec fn hits_any(b: Body, obs: Seq<Obstacle>) -> bool {
    exists|i: int| 0 <= i < obs.len() && hits(b, #[trigger] obs[i])
}

/// The credited identities after a pass over `obs` in order: each obstacle
/// that is cleared without being hit, and is not credited yet, is appended.
pub open spec fn credited_after(b: Body, obs: Seq<Obstacle>, credited: Seq<u64>) -> Seq<u64>
    decreases obs.len(),
{
    if obs.len() == 0 {
        credited
    } else {
        let before = credited_after(b, obs.drop_last(), credited);
        let o = obs.last();
        if !hits(b, o) && cleared(b, o) && !before.contains(o.id) {
            before.push(o.id)
        } else {
            before
        }
    }
}

/// Limits under which the collision pass is free of overflow.
pub open spec fn checkable(b: Body, obs: Seq<Obstacle>) -> bool {
    &&& -GEOMETRY_LIMIT <= b.x <= GEOMETRY_LIMIT
    &&& -GEOMETRY_LIMIT <= b.y <= GEOMETRY_LIMIT
    &&& -GEOMETRY_LIMIT <= b.width <= GEOMETRY_LIMIT
    &&& -GEOMETRY_LIMIT <= b.height <= GEOMETRY_LIMIT
    &&& forall|i: int| 0 <= i < obs.len() ==> {
        let o = #[trigger] obs[i];
        &&& -GEOMETRY_LIMIT <= o.x <= GEOMETRY_LIMIT
        &&& -GEOMETRY_LIMIT <= o.y <= GEOMETRY_LIMIT
        &&& INSET_X <= o.half_width <= GEOMETRY_LIMIT
        &&& INSET_Y <= o.half_height <= GEOMETRY_LIMIT
    }
}

/// Whether `id` is among the credited identities.
pub fn is_credited(credited: &Vec<u64>, id: u64) -> (r: bool)
    ensures
        r == credited@.contains(id),
{
    let mut i: usize = 0;
    while i < credited.len()
        invariant
            0 <= i <= credited@.len(),
            forall|j: int| 0 <= j < i ==> credited@[j] != id,
        decreases credited@.len() - i,
    {
        if credited[i] == id {
            return true;
        }
        i = i + 1;
    }
    false
}

/// Tests the body against every obstacle: tells whether any is hit, and
/// credits each one cleared without being hit that is not credited yet.
pub fn collide_and_credit(body: &Body, obstacles: &Vec<Obstacle>, credited: &mut Vec<u64>) -> (hit: bool)
    requires
        checkable(*body, obstacles@),
    ensures
        hit == hits_any(*body, obstacles@),
        final(credited)@ == credited_after(*body, obstacles@, old(credited)@),
{
    let dsq = enclosing_diameter_sq(body.width, body.height);
    let mut hit = false;
    let mut i: usize = 0;
    while i < obstacles.len()
        invariant
            0 <= i <= obstacles@.len(),
            checkable(*body, obstacles@),
            dsq == diameter_sq(body.width as int, body.height as int),
            hit == exists|j: int| 0 <= j < i && hits(*body, #[trigger] obstacles@[j]),
            credited@ == credited_after(*body, obstacles@.take(i as int), old(credited)@),
        decreases obstacles@.len() - i,
    {
        let o = obstacles[i];
        assert(obstacles@.take(i + 1).drop_last() == obstacles@.take(i as int));
        assert(obstacles@.take(i + 1).last() == o);
        let meets = circle_intersects_box(
            body.x,
            body.y,
            dsq,
            o.x,
            o.y,
            o.half_width - INSET_X,
            o.half_height - INSET_Y,
        );
        if meets {
            hit = true;
        } else if left_edge_passed(body.x, dsq, o.x) {
            if !is_credited(credited, o.id) {
                credited.push(o.id);
            }
        }
        i = i + 1;
    }
    assert(obstacles@.take(obstacles@.len() as int) == obstacles@);
    hit
}

/// A collision pass only appends to the credited identities, appends none
/// already credited and none twice, and appends at most one per obstacle.
pub proof fn lemma_credit_appends_new(b: Body, obs: Seq<Obstacle>, credited: Seq<u64>)
    requires
        credited.no_duplicates(),
    ensures
        credited_after(b, obs, credited).no_duplicates(),
        credited.len() <= credited_after(b, obs, credited).len() <= credited.len() + obs.len(),
        credited_after(b, obs, credited).take(credited.len() as int) == credited,
        forall|i: int| credited.len() <= i < credited_after(b, obs, credited).len()
            ==> !credited.contains(#[trigger] credited_after(b, obs, credited)[i]),
    decreases obs.len(),
{
    if obs.len() > 0 {
        let before = credited_after(b, obs.drop_last(), credited);
        lemma_credit_appends_new(b, obs.drop_last(), credited);
        let o = obs.last();
        if !hits(b, o) && cleared(b, o) && !before.contains(o.id) {
            let after = before.push(o.id);
            assert(after.take(credited.len() as int) =~= before.take(credited.len() as int));
            assert forall|i: int, j: int| 0 <= i < after.len() && 0 <= j < after.len() && i != j
                implies after[i] != after[j] by {
                if i < before.len() && j < before.len() {
                } else if i == before.len() {
                    assert(before.contains(after[j]));
                } else {
                    assert(before.contains(after[i]));
                }
            }
            assert forall|i: int| credited.len() <= i < after.len()
                implies !credited.contains(#[trigger] after[i]) by {
                if i < before.len() {
                    assert(after[i] == before[i]);
                } else if credited.contains(after[i]) {
                    let k = choose|k: int| 0 <= k < credited.len() && credited[k] == after[i];
                    assert(before.take(credited.len() as int)[k] == before[k]);
                    assert(before.contains(o.id));
                }
            }
        }
    }
}

/// Whether the body scores on this obstacle when it is not credited yet:
/// cleared without being hit.
pub open spec fn scores_on(b: Body, o: Obstacle) -> bool {
    !hits(b, o) && cleared(b, o)
}

/// After a pass, every obstacle that the body clears without hitting it is
/// credited, and every identity newly credited is that of such an obstacle.
pub proof fn lemma_credit_covers(b: Body, obs: Seq<Obstacle>, credited: Seq<u64>)
    ensures
        forall|j: int| 0 <= j < obs.len() && scores_on(b, #[trigger] obs[j])
            ==> credited_after(b, obs, credited).contains(obs[j].id),
        forall|i: int| credited.len() <= i < credited_after(b, obs, credited).len()
            ==> exists|j: int| 0 <= j < obs.len() && scores_on(b, #[trigger] obs[j])
                && obs[j].id == #[trigger] credited_after(b, obs, credited)[i],
        credited.len() <= credited_after(b, obs, credited).len(),
        credited_after(b, obs, credited).take(credited.len() as int) == credited,
    decreases obs.len(),
{
    if obs.len() == 0 {
        assert(credited.take(credited.len() as int) =~= credited);
    } else {
        let prefix = obs.drop_last();
        let before = credited_after(b, prefix, credited);
        lemma_credit_covers(b, prefix, credited);
        let o = obs.last();
        let after = credited_after(b, obs, credited);
        assert forall|j: int| 0 <= j < obs.len() && scores_on(b, #[trigger] obs[j])
            implies after.contains(obs[j].id) by {
            if j < prefix.len() {
                assert(prefix[j] == obs[j]);
                let k = choose|k: int| 0 <= k < before.len() && before[k] == obs[j].id;
                if after != before {
                    assert(after == before.push(o.id));
                    assert(after[k] == before[k]);
                }
            } else if !before.contains(o.id) {
                assert(after == before.push(o.id));
                assert(after[before.len() as int] == o.id);
            }
        }
        assert forall|i: int| credited.len() <= i < after.len()
            implies exists|j: int| 0 <= j < obs.len() && scores_on(b, #[trigger] obs[j])
                && obs[j].id == #[trigger] after[i] by {
            if i < before.len() {
                let j = choose|j: int| 0 <= j < prefix.len() && scores_on(b, #[trigger] prefix[j])
                    && prefix[j].id == before[i];
                assert(obs[j] == prefix[j]);
                if after != before {
                    assert(after[i] == before[i]);
                }
            } else {
                assert(obs[obs.len() - 1] == o);
            }
        }
        if after != before {
            assert(after.take(credited.len() as int) =~= before.take(credited.len() as int));
        }
    }
}

/// A pass credits nothing more when every obstacle the body scores on is
/// credited already.
proof fn lemma_credit_settled(b: Body, obs: Seq<Obstacle>, credited: Seq<u64>)
    requires
        forall|j: int| 0 <= j < obs.len() && scores_on(b, #[trigger] obs[j]) ==> credited.contains(obs[j].id),
    ensures
        credited_after(b, obs, credited) == credited,
    decreases obs.len(),
{
    if obs.len() > 0 {
        let prefix = obs.drop_last();
        assert forall|j: int| 0 <= j < prefix.len() && scores_on(b, #[trigger] prefix[j])
            implies credited.contains(prefix[j].id) by {
            assert(prefix[j] == obs[j]);
        }
        lemma_credit_settled(b, prefix, credited);
        assert(obs[obs.len() - 1] == obs.last());
    }
}

/// Repeating a pass with the same body and obstacles credits nothing more,
/// however long an obstacle stays cleared.
pub proof fn lemma_credit_idempotent(b: Body, obs: Seq<Obstacle>, credited: Seq<u64>)
    ensures
        credited_after(b, obs, credited_after(b, obs, credited)) == credited_after(b, obs, credited),
{
    lemma_credit_covers(b, obs, credited);
    lemma_credit_settled(b, obs, credited_after(b, obs, credited));
}

} // verus!
