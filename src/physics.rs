//! Vertical motion of the controlled body under gravity and flap impulses.

use vstd::prelude::*;
use crate::state::GameState;

verus! {

/// Gravity, 800 units/s², as milli-units per second gained each millisecond.
pub const GRAVITY: i64 = 800;

/// Upward velocity set by a flap: 300 units/s.
pub const FLAP_VELOCITY: i64 = 300_000;

/// Horizontal position of the body: 200 units left of the center.
pub const BODY_X: i64 = -200_000_000;

/// Extents of the body's sprite: 558 by 447 at scale 0.2.
pub const BODY_WIDTH: i64 = 111_600_000;
pub const BODY_HEIGHT: i64 = 89_400_000;

/// Largest magnitude of a position or extent that a step accepts.
pub const POSITION_LIMIT: i64 = 1_125_899_906_842_624;

/// Largest magnitude of a velocity that a step accepts.
pub const VELOCITY_LIMIT: i64 = 1_099_511_627_776;

/// Longest step, in milliseconds.
pub const MAX_STEP_MS: u64 = 60_000;

/// The controlled body: position in micro-units, vertical velocity in
/// milli-units per second, and the extents of its sprite.
#[derive(Clone, Copy, Debug, PartialEq, Eq, Structural)]
pub struct Body {
    pub x: i64,
    pub y: i64,
    pub velocity: i64,
    pub width: i64,
    pub height: i64,
}

/// The lowest playable height for a viewport of the given height.
pub open spec fn lower_bound(view_height: int) -> int {
    -(view_height / 2)
}

/// Whether moving at the current velocity for `dt` milliseconds would take the
/// body below the playable area.
pub open spec fn falls_out(b: Body, dt: int, view_height: int) -> bool {
    b.y + b.velocity * dt < lower_bound(view_height)
}

/// The body after one step of `dt` milliseconds: stopped if it falls out,
/// else gravity is applied to the velocity and then the velocity to the height.
pub open spec fn body_after(b: Body, dt: int, view_height: int) -> Body {
    if falls_out(b, dt, view_height) {
        Body { velocity: 0, ..b }
    } else {
        let v = b.velocity - GRAVITY * dt;
        Body { velocity: v as i64, y: (b.y + v * dt) as i64, ..b }
    }
}

/// The body after a flap impulse.
pub open spec fn body_flapped(b: Body) -> Body {
    Body { velocity: FLAP_VELOCITY, ..b }
}

impl Body {
    /// Within the limits of a physics step.
    pub open spec fn fits(self) -> bool {
        -POSITION_LIMIT <= self.x <= POSITION_LIMIT
        && -POSITION_LIMIT <= self.y <= POSITION_LIMIT
        && -VELOCITY_LIMIT <= self.velocity <= VELOCITY_LIMIT
        && 0 <= self.width <= POSITION_LIMIT
        && 0 <= self.height <= POSITION_LIMIT
    }

    /// The body at the start of a run.
    pub open spec fn initial() -> Body {
        Body { x: BODY_X, y: 0, velocity: 0, width: BODY_WIDTH, height: BODY_HEIGHT }
    }

    /// The body at the start of a run: at rest, left of the center.
    pub fn new() -> (r: Body)
        ensures
            r == Body::initial(),
            r.fits(),
    {
        Body { x: BODY_X, y: 0, velocity: 0, width: BODY_WIDTH, height: BODY_HEIGHT }
    }
}

/// Applies a flap: unless the run has ended, the velocity becomes the flap
/// impulse (not added to it) and the run is started.
pub fn flap(body: &mut Body, state: &mut GameState)
    ensures
        old(state).ended ==> *final(body) == *old(body) && *final(state) == *old(state),
        !old(state).ended ==> *final(body) == body_flapped(*old(body))
            && *final(state) == (GameState { started: true, ended: false }),
{
    if !state.ended {
        body.velocity = FLAP_VELOCITY;
        state.started = true;
    }
}

/// One physics step of `dt_ms` milliseconds for a viewport `view_height` high.
/// Does nothing unless the run is running; ends the run when the body would
/// fall below the viewport.
pub fn advance_body(body: &mut Body, state: &mut GameState, dt_ms: u64, view_height: i64)
    requires
        old(state).running() ==> old(body).fits() && dt_ms <= MAX_STEP_MS && 0 <= view_height <= POSITION_LIMIT,
    ensures
        !old(state).running() ==> *final(body) == *old(body) && *final(state) == *old(state),
        old(state).running() ==> *final(body) == body_after(*old(body), dt_ms as int, view_height as int)
            && *final(state) == (GameState {
                started: true,
                ended: falls_out(*old(body), dt_ms as int, view_height as int),
            }),
        final(body).x == old(body).x,
        final(body).width == old(body).width,
        final(body).height == old(body).height,
        old(state).running() ==> -128 * POSITION_LIMIT <= final(body).y <= 128 * POSITION_LIMIT,
{
    if !state.started || state.ended {
        return;
    }
    let t = dt_ms as i64;
    proof {
        let v = body.velocity as int;
        assert(-VELOCITY_LIMIT * MAX_STEP_MS <= v * t <= VELOCITY_LIMIT * MAX_STEP_MS) by (nonlinear_arith)
            requires
                -VELOCITY_LIMIT <= v <= VELOCITY_LIMIT,
                0 <= t <= MAX_STEP_MS,
        ;
        let w = v - GRAVITY * t;
        assert(-2 * VELOCITY_LIMIT * MAX_STEP_MS <= w * t <= 2 * VELOCITY_LIMIT * MAX_STEP_MS) by (nonlinear_arith)
            requires
                -2 * VELOCITY_LIMIT <= w <= 2 * VELOCITY_LIMIT,
                0 <= t <= MAX_STEP_MS,
        ;
    }
    let delta = body.velocity * t;
    if body.y + delta < -(view_height / 2) {
        body.velocity = 0;
        state.ended = true;
    } else {
        body.velocity = body.velocity - GRAVITY * t;
        body.y = body.y + body.velocity * t;
    }
}

} // verus!
