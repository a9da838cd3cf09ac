//! The whole simulation: one body, the obstacle field, the spawn timer, the
//! score and the set of credited obstacles, advanced one tick at a time in a
//! fixed order: flap input, spawn, physics, scroll, collisions and scoring.

use vstd::prelude::*;
use rand::rngs::StdRng;
use crate::obstacles::{
    collide_and_credit, credited_after, hits_any, scroll_obstacles, scrolled, spawn_pair,
    spawned_pair, checkable, lemma_credit_appends_new, Obstacle, GAP_JITTER, INSET_X, INSET_Y,
};
use crate::physics::{
    VELOCITY_LIMIT, advance_body, body_after, body_flapped, falls_out, flap, Body, MAX_STEP_MS, POSITION_LIMIT,
};
use crate::random::{draw_below, seeded_rng};
use crate::state::GameState;
use crate::timer::{fires, lemma_spawn_cadence, run_timer, total, SpawnTimer, SPAWN_PERIOD_MS};

verus! {

/// The model of a world: everything but its random source.
pub struct WorldView {
    pub state: GameState,
    pub score: nat,
    pub body: Body,
    pub obstacles: Seq<Obstacle>,
    pub credited: Seq<u64>,
    pub timer: SpawnTimer,
    pub next_id: nat,
}

impl WorldView {
    /// The score counts the credited obstacles, each credited once.
    pub open spec fn wf(self) -> bool {
        &&& self.state.wf()
        &&& self.timer.wf()
        &&& self.timer.period == SPAWN_PERIOD_MS
        &&& self.score == self.credited.len()
        &&& self.credited.no_duplicates()
    }

    /// Limits under which a tick of `dt` milliseconds in a viewport `width`
    /// by `height` is free of overflow.
    pub open spec fn tick_fits(self, dt: int, width: int, height: int) -> bool {
        &&& 0 <= dt <= MAX_STEP_MS
        &&& 0 <= width <= POSITION_LIMIT
        &&& 0 <= height <= POSITION_LIMIT
        &&& self.body.fits()
        &&& forall|i: int| 0 <= i < self.obstacles.len() ==> (#[trigger] self.obstacles[i]).fits()
        &&& self.score + self.obstacles.len() + 2 <= u64::MAX
        &&& self.next_id + 2 <= u64::MAX
    }

    /// The flap input: unless the run has ended, set the flap velocity and start.
    pub open spec fn with_flap(self, pressed: bool) -> WorldView {
        if pressed && !self.state.ended {
            WorldView {
                body: body_flapped(self.body),
                state: GameState { started: true, ended: false },
                ..self
            }
        } else {
            self
        }
    }

    /// The spawn timer advances while running; when it fires a gap pair built
    /// from the offsets `upper_drop` and `lower_rise` is added.
    pub open spec fn with_spawn(self, dt: int, width: int, height: int, upper_drop: int, lower_rise: int) -> WorldView {
        if !self.state.running() {
            self
        } else if fires(self.timer.elapsed as int, self.timer.period as int, dt) {
            let pair = spawned_pair(self.next_id as int, width, height, upper_drop, lower_rise);
            WorldView {
                timer: self.timer.advanced(dt),
                obstacles: self.obstacles.push(pair.0).push(pair.1),
                next_id: self.next_id + 2,
                ..self
            }
        } else {
            WorldView { timer: self.timer.advanced(dt), ..self }
        }
    }

    /// The body moves while running; a fall out of the viewport ends the run.
    pub open spec fn with_physics(self, dt: int, height: int) -> WorldView {
        if !self.state.running() {
            self
        } else {
            WorldView {
                body: body_after(self.body, dt, height),
                state: GameState { started: true, ended: falls_out(self.body, dt, height) },
                ..self
            }
        }
    }

    /// The obstacles scroll left while running.
    pub open spec fn with_scroll(self, dt: int) -> WorldView {
        if !self.state.running() {
            self
        } else {
            WorldView { obstacles: self.obstacles.map_values(|o: Obstacle| scrolled(o, dt)), ..self }
        }
    }

    /// While running, a hit ends the run and each newly cleared obstacle is
    /// credited and scored.
    pub open spec fn with_collisions(self) -> WorldView {
        if !self.state.running() {
            self
        } else {
            let credited = credited_after(self.body, self.obstacles, self.credited);
            WorldView {
                state: GameState { started: true, ended: hits_any(self.body, self.obstacles) },
                credited: credited,
                score: credited.len(),
                ..self
            }
        }
    }

    /// One whole tick.
    pub open spec fn ticked(self, pressed: bool, dt: int, width: int, height: int, upper_drop: int, lower_rise: int) -> WorldView {
        self.with_flap(pressed)
            .with_spawn(dt, width, height, upper_drop, lower_rise)
            .with_physics(dt, height)
            .with_scroll(dt)
            .with_collisions()
    }
}

/// A run of the game, with its own seeded random source for the gap offsets.
/// An ended run stays ended; a new run is a new `World`.
pub struct World {
    state: GameState,
    score: u64,
    body: Body,
    obstacles: Vec<Obstacle>,
    credited: Vec<u64>,
    timer: SpawnTimer,
    next_id: u64,
    rng: StdRng,
}

impl View for World {
    type V = WorldView;

    closed spec fn view(&self) -> WorldView {
        WorldView {
            state: self.state,
            score: self.score as nat,
            body: self.body,
            obstacles: self.obstacles@,
            credited: self.credited@,
            timer: self.timer,
            next_id: self.next_id as nat,
        }
    }
}

impl World {
    /// A run that has not started: the body at rest, no obstacles, score zero.
    pub fn new(seed: u64) -> (r: World)
        ensures
            r@ == (WorldView {
                state: GameState { started: false, ended: false },
                score: 0,
                body: Body::initial(),
                obstacles: Seq::empty(),
                credited: Seq::empty(),
                timer: SpawnTimer { elapsed: 0, period: SPAWN_PERIOD_MS },
                next_id: 0,
            }),
            r@.wf(),
    {
        World {
            state: GameState::new(),
            score: 0,
            body: Body::new(),
            obstacles: Vec::new(),
            credited: Vec::new(),
            timer: SpawnTimer::new(),
            next_id: 0,
            rng: seeded_rng(seed),
        }
    }

    /// One tick; when the timer fires, the gap offsets are `given`, or drawn
    /// from the random source. Returns the offsets the tick stands for.
    fn step(&mut self, pressed: bool, dt_ms: u64, width: i64, height: i64, given: Option<(u64, u64)>) -> (used: (u64, u64))
        requires
            old(self)@.wf(),
            old(self)@.with_flap(pressed).state.running() ==> old(self)@.tick_fits(dt_ms as int, width as int, height as int),
            given matches Some(p) ==> p.0 < GAP_JITTER && p.1 < GAP_JITTER,
        ensures
            used.0 < GAP_JITTER,
            used.1 < GAP_JITTER,
            given matches Some(p) ==> used == p,
            final(self)@ == old(self)@.ticked(pressed, dt_ms as int, width as int, height as int, used.0 as int, used.1 as int),
            final(self)@.wf(),
    {
        if pressed {
            flap(&mut self.body, &mut self.state);
        }
        let ghost flapped = self@;
        assert(flapped == old(self)@.with_flap(pressed));

        let mut used: (u64, u64) = (0, 0);
        if let Some(p) = given {
            used = p;
        }
        if self.state.is_running() {
            let fired = self.timer.tick(dt_ms);
            if fired {
                if given.is_none() {
                    let upper = draw_below(&mut self.rng, GAP_JITTER);
                    let lower = draw_below(&mut self.rng, GAP_JITTER);
                    used = (upper, lower);
                }
                let pair = spawn_pair(self.next_id, width, height, used.0, used.1);
                self.obstacles.push(pair.0);
                self.obstacles.push(pair.1);
                self.next_id = self.next_id + 2;
            }
        }
        let ghost spawned = self@;
        assert(spawned == flapped.with_spawn(dt_ms as int, width as int, height as int, used.0 as int, used.1 as int));
        assert forall|i: int| flapped.state.running() && 0 <= i < self.obstacles@.len() implies (#[trigger] self.obstacles@[i]).fits() by {
            if i < flapped.obstacles.len() {
                assert(self.obstacles@[i] == flapped.obstacles[i]);
            }
        }

        advance_body(&mut self.body, &mut self.state, dt_ms, height);
        let ghost moved = self@;
        assert(moved == spawned.with_physics(dt_ms as int, height as int));

        if self.state.is_running() {
            scroll_obstacles(&mut self.obstacles, dt_ms);
            assert(self.obstacles@ =~= moved.obstacles.map_values(|o: Obstacle| scrolled(o, dt_ms as int)));
        }
        let ghost scrolled_view = self@;
        assert(scrolled_view == moved.with_scroll(dt_ms as int));

        if self.state.is_running() {
            assert(checkable(self.body, self.obstacles@));
            let hit = collide_and_credit(&self.body, &self.obstacles, &mut self.credited);
            proof {
                lemma_credit_appends_new(scrolled_view.body, scrolled_view.obstacles, scrolled_view.credited);
            }
            if hit {
                self.state.ended = true;
            }
            self.score = self.credited.len() as u64;
        }
        used
    }

    /// Advances the run by one tick of `dt_ms` milliseconds in a viewport
    /// `width` by `height`, with `pressed` telling whether the jump input was
    /// pressed this tick. When the spawn timer fires, the gap offsets are drawn
    /// from the run's random source; whatever they are, the tick is the one
    /// the model describes for them.
    pub fn tick(&mut self, pressed: bool, dt_ms: u64, width: i64, height: i64)
        requires
            old(self)@.wf(),
            old(self)@.with_flap(pressed).state.running() ==> old(self)@.tick_fits(dt_ms as int, width as int, height as int),
        ensures
            final(self)@.wf(),
            exists|upper_drop: int, lower_rise: int|
                0 <= upper_drop < GAP_JITTER && 0 <= lower_rise < GAP_JITTER
                && final(self)@ == old(self)@.ticked(pressed, dt_ms as int, width as int, height as int, upper_drop, lower_rise),
    {
        let used = self.step(pressed, dt_ms, width, height, None);
        assert(final(self)@ == old(self)@.ticked(pressed, dt_ms as int, width as int, height as int, used.0 as int, used.1 as int));
    }

    /// The tick of `tick`, with the gap offsets of a spawn given instead of
    /// drawn.
    pub fn tick_with_offsets(
        &mut self,
        pressed: bool,
        dt_ms: u64,
        width: i64,
        height: i64,
        upper_drop: u64,
        lower_rise: u64,
    )
        requires
            old(self)@.wf(),
            old(self)@.with_flap(pressed).state.running() ==> old(self)@.tick_fits(dt_ms as int, width as int, height as int),
            upper_drop < GAP_JITTER,
            lower_rise < GAP_JITTER,
        ensures
            final(self)@.wf(),
            final(self)@ == old(self)@.ticked(pressed, dt_ms as int, width as int, height as int, upper_drop as int, lower_rise as int),
    {
        self.step(pressed, dt_ms, width, height, Some((upper_drop, lower_rise)));
    }

    /// Whether a tick of `dt_ms` milliseconds in a viewport `width` by
    /// `height` stays within the limits of the integer representation.
    pub fn can_tick(&self, dt_ms: u64, width: i64, height: i64) -> (r: bool)
        requires
            self@.wf(),
        ensures
            r == self@.tick_fits(dt_ms as int, width as int, height as int),
    {
        if dt_ms > MAX_STEP_MS || width < 0 || width > POSITION_LIMIT || height < 0 || height > POSITION_LIMIT {
            return false;
        }
        let b = self.body;
        let body_fits = -POSITION_LIMIT <= b.x && b.x <= POSITION_LIMIT && -POSITION_LIMIT <= b.y && b.y <= POSITION_LIMIT
            && -VELOCITY_LIMIT <= b.velocity && b.velocity <= VELOCITY_LIMIT && 0 <= b.width && b.width <= POSITION_LIMIT
            && 0 <= b.height && b.height <= POSITION_LIMIT;
        if !body_fits {
            return false;
        }
        let n = self.obstacles.len();
        let mut i: usize = 0;
        while i < n
            invariant
                n == self.obstacles@.len(),
                0 <= i <= n,
                forall|j: int| 0 <= j < i ==> (#[trigger] self.obstacles@[j]).fits(),
            decreases n - i,
        {
            let o = self.obstacles[i];
            if !(-POSITION_LIMIT <= o.x && o.x <= POSITION_LIMIT && -POSITION_LIMIT <= o.y && o.y <= POSITION_LIMIT
                && INSET_X <= o.half_width && o.half_width <= POSITION_LIMIT && INSET_Y <= o.half_height
                && o.half_height <= POSITION_LIMIT) {
                return false;
            }
            i = i + 1;
        }
        (n as u64) <= u64::MAX - 2 && self.score <= u64::MAX - 2 - (n as u64) && self.next_id <= u64::MAX - 2
    }

    pub fn state(&self) -> (r: GameState)
        ensures
            r == self@.state,
    {
        self.state
    }

    /// The number of obstacles cleared so far.
    pub fn score(&self) -> (r: u64)
        ensures
            r == self@.score,
    {
        self.score
    }

    /// The score as shown to the player: obstacles come in pairs, so the
    /// shown score counts pairs.
    pub fn displayed_score(&self) -> (r: u64)
        ensures
            r == self@.score / 2,
    {
        self.score / 2
    }

    pub fn body(&self) -> (r: Body)
        ensures
            r == self@.body,
    {
        self.body
    }

    pub fn obstacles(&self) -> (r: &Vec<Obstacle>)
        ensures
            r@ == self@.obstacles,
    {
        &self.obstacles
    }

    /// The identities of the obstacles credited so far, in the order credited.
    pub fn credited(&self) -> (r: &Vec<u64>)
        ensures
            r@ == self@.credited,
    {
        &self.credited
    }

    pub fn timer(&self) -> (r: SpawnTimer)
        ensures
            r == self@.timer,
    {
        self.timer
    }
}


/// Scoring is idempotent per obstacle: a tick keeps the score equal to the
/// number of credited identities, keeps every earlier credit, and credits
/// only identities never credited before, each once.
pub proof fn lemma_score_once_per_obstacle(
    w: WorldView,
    pressed: bool,
    dt: int,
    width: int,
    height: int,
    upper_drop: int,
    lower_rise: int,
)
    requires
        w.wf(),
        0 <= upper_drop < GAP_JITTER,
        0 <= lower_rise < GAP_JITTER,
    ensures
        ({
            let next = w.ticked(pressed, dt, width, height, upper_drop, lower_rise);
            &&& next.score == next.credited.len()
            &&& next.credited.no_duplicates()
            &&& next.credited.take(w.credited.len() as int) == w.credited
            &&& forall|i: int| w.credited.len() <= i < next.credited.len()
                ==> !w.credited.contains(#[trigger] next.credited[i])
        }),
{
    lemma_tick_keeps_wf(w, pressed, dt, width, height, upper_drop, lower_rise);
}

/// Internal: the shape of a tick's effect on the credited identities.
proof fn lemma_tick_keeps_wf(
    w: WorldView,
    pressed: bool,
    dt: int,
    width: int,
    height: int,
    upper_drop: int,
    lower_rise: int,
)
    requires
        w.wf(),
        0 <= upper_drop < GAP_JITTER,
        0 <= lower_rise < GAP_JITTER,
    ensures
        ({
            let next = w.ticked(pressed, dt, width, height, upper_drop, lower_rise);
            &&& next.wf()
            &&& next.credited.take(w.credited.len() as int) == w.credited
            &&& w.credited.len() <= next.credited.len()
            &&& forall|i: int| w.credited.len() <= i < next.credited.len()
                ==> !w.credited.contains(#[trigger] next.credited[i])
        }),
{
    let before = w.with_flap(pressed).with_spawn(dt, width, height, upper_drop, lower_rise)
        .with_physics(dt, height).with_scroll(dt);
    assert(before.credited == w.credited);
    lemma_credit_appends_new(before.body, before.obstacles, before.credited);
    let next = w.ticked(pressed, dt, width, height, upper_drop, lower_rise);
    if !before.state.running() {
        assert(next == before);
        assert(w.credited.take(w.credited.len() as int) =~= w.credited);
    }
}

/// The score never decreases from one tick to the next.
pub proof fn lemma_score_monotonic(
    w: WorldView,
    pressed: bool,
    dt: int,
    width: int,
    height: int,
    upper_drop: int,
    lower_rise: int,
)
    requires
        w.wf(),
        0 <= upper_drop < GAP_JITTER,
        0 <= lower_rise < GAP_JITTER,
    ensures
        w.score <= w.ticked(pressed, dt, width, height, upper_drop, lower_rise).score,
{
    lemma_tick_keeps_wf(w, pressed, dt, width, height, upper_drop, lower_rise);
}

/// Once the run has ended, a tick changes nothing, whatever its input.
pub proof fn lemma_ended_is_sticky(
    w: WorldView,
    pressed: bool,
    dt: int,
    width: int,
    height: int,
    upper_drop: int,
    lower_rise: int,
)
    requires
        w.state.ended,
    ensures
        w.ticked(pressed, dt, width, height, upper_drop, lower_rise) == w,
{
}

/// Before the run starts, a tick without a flap changes nothing, however
/// long it lasts: no spawn, no motion, no score.
pub proof fn lemma_inert_before_start(
    w: WorldView,
    dt: int,
    width: int,
    height: int,
    upper_drop: int,
    lower_rise: int,
)
    requires
        !w.state.started,
    ensures
        w.ticked(false, dt, width, height, upper_drop, lower_rise) == w,
{
}

/// The inputs of one tick: the jump input, the step, the viewport, and the
/// gap offsets used should the spawn timer fire.
pub struct TickInput {
    pub pressed: bool,
    pub dt: int,
    pub width: int,
    pub height: int,
    pub upper_drop: int,
    pub lower_rise: int,
}

/// The world after ticking through `inputs` in order.
pub open spec fn run(w: WorldView, inputs: Seq<TickInput>) -> WorldView
    decreases inputs.len(),
{
    if inputs.len() == 0 {
        w
    } else {
        let i = inputs.last();
        run(w, inputs.drop_last()).ticked(i.pressed, i.dt, i.width, i.height, i.upper_drop, i.lower_rise)
    }
}

/// The step durations of a sequence of ticks.
pub open spec fn steps(inputs: Seq<TickInput>) -> Seq<int> {
    inputs.map_values(|i: TickInput| i.dt)
}

/// Over a whole run, scoring is idempotent per obstacle: the score equals the
/// number of credited identities, no identity is credited twice, and every
/// credit held at the start is kept, so an obstacle adds at most one point to
/// the score however many ticks it stays cleared.
pub proof fn lemma_run_credits_once(w: WorldView, inputs: Seq<TickInput>)
    requires
        w.wf(),
        forall|k: int| 0 <= k < inputs.len() ==> 0 <= (#[trigger] inputs[k]).upper_drop < GAP_JITTER
            && 0 <= inputs[k].lower_rise < GAP_JITTER,
    ensures
        run(w, inputs).wf(),
        run(w, inputs).score == run(w, inputs).credited.len(),
        run(w, inputs).credited.no_duplicates(),
        run(w, inputs).credited.take(w.credited.len() as int) == w.credited,
        w.score <= run(w, inputs).score,
    decreases inputs.len(),
{
    if inputs.len() == 0 {
        assert(w.credited.take(w.credited.len() as int) =~= w.credited);
    } else {
        let prefix = inputs.drop_last();
        assert forall|k: int| 0 <= k < prefix.len() implies 0 <= (#[trigger] prefix[k]).upper_drop < GAP_JITTER
            && 0 <= prefix[k].lower_rise < GAP_JITTER by {
            assert(prefix[k] == inputs[k]);
        }
        lemma_run_credits_once(w, prefix);
        let mid = run(w, prefix);
        let i = inputs.last();
        assert(inputs[inputs.len() - 1] == i);
        lemma_tick_keeps_wf(mid, i.pressed, i.dt, i.width, i.height, i.upper_drop, i.lower_rise);
        let next = run(w, inputs);
        assert(next.credited.take(w.credited.len() as int) =~= mid.credited.take(w.credited.len() as int)) by {
            assert forall|k: int| 0 <= k < w.credited.len() implies next.credited[k] == mid.credited[k] by {
                assert(next.credited.take(mid.credited.len() as int)[k] == mid.credited[k]);
            }
        }
    }
}

/// Internal: a tick that runs spawns two obstacles exactly when its timer
/// fires, and moves the timer on as `run_timer` does.
proof fn lemma_run_spawns(w: WorldView, inputs: Seq<TickInput>)
    requires
        w.wf(),
        forall|k: int| 0 <= k < inputs.len() ==> 0 <= #[trigger] inputs[k].dt
            && run(w, inputs.take(k)).with_flap(inputs[k].pressed).state.running(),
    ensures
        run(w, inputs).obstacles.len() == w.obstacles.len() + 2 * run_timer(SPAWN_PERIOD_MS as int, w.timer.elapsed as int, steps(inputs)).0,
        run(w, inputs).timer.elapsed == run_timer(SPAWN_PERIOD_MS as int, w.timer.elapsed as int, steps(inputs)).1,
        run(w, inputs).timer.period == SPAWN_PERIOD_MS,
        run(w, inputs).timer.wf(),
    decreases inputs.len(),
{
    if inputs.len() > 0 {
        let prefix = inputs.drop_last();
        assert forall|k: int| 0 <= k < prefix.len() implies 0 <= #[trigger] prefix[k].dt
            && run(w, prefix.take(k)).with_flap(prefix[k].pressed).state.running() by {
            assert(prefix[k] == inputs[k]);
            assert(prefix.take(k) =~= inputs.take(k));
        }
        lemma_run_spawns(w, prefix);
        let k = inputs.len() - 1;
        assert(inputs.take(k) =~= prefix);
        assert(inputs[k] == inputs.last());
        assert(steps(inputs).drop_last() =~= steps(prefix));
        assert(steps(inputs).last() == inputs.last().dt);
        let mid = run(w, prefix);
        let elapsed = mid.timer.elapsed as int;
        let dt = inputs.last().dt;
        assert(0 <= (elapsed + dt) % (SPAWN_PERIOD_MS as int) < SPAWN_PERIOD_MS);
    }
}

/// Spawn cadence of a whole run: started at the beginning of a timer period
/// and running through every tick, with no step longer than the spawn period,
/// the run spawns `floor(D / period)` gap pairs over a total duration `D`.
pub proof fn lemma_run_spawn_cadence(w: WorldView, inputs: Seq<TickInput>)
    requires
        w.wf(),
        w.timer.elapsed == 0,
        forall|k: int| 0 <= k < inputs.len() ==> 0 <= #[trigger] inputs[k].dt <= SPAWN_PERIOD_MS
            && run(w, inputs.take(k)).with_flap(inputs[k].pressed).state.running(),
    ensures
        run(w, inputs).obstacles.len() == w.obstacles.len() + 2 * (total(steps(inputs)) / SPAWN_PERIOD_MS as int),
{
    lemma_run_spawns(w, inputs);
    assert forall|i: int| 0 <= i < steps(inputs).len() implies 0 <= #[trigger] steps(inputs)[i] <= SPAWN_PERIOD_MS by {
        assert(steps(inputs)[i] == inputs[i].dt);
    }
    lemma_spawn_cadence(SPAWN_PERIOD_MS as int, steps(inputs));
}

} // verus!
