use flappy_core::geometry::{circle_intersects_box, enclosing_diameter_sq, left_edge_passed};
use flappy_core::obstacles::{
    collide_and_credit, is_credited, scroll_obstacles, spawn_pair, Obstacle, GAP_JITTER,
    OBSTACLE_HALF_HEIGHT, OBSTACLE_HALF_WIDTH,
};
use flappy_core::physics::{advance_body, flap, Body, BODY_X, FLAP_VELOCITY};
use flappy_core::state::GameState;
use flappy_core::timer::{SpawnTimer, SPAWN_PERIOD_MS};
use flappy_core::world::World;

const UNIT: i64 = 1_000_000;

fn running() -> GameState {
    GameState { started: true, ended: false }
}

#[test]
fn flap_then_tick_applies_gravity_before_displacement() {
    let mut body = Body::new();
    let mut state = GameState::new();
    flap(&mut body, &mut state);
    assert_eq!(body.velocity, FLAP_VELOCITY);
    assert!(state.is_running());
    advance_body(&mut body, &mut state, 100, 600 * UNIT);
    assert_eq!(body.velocity, 220_000);
    assert_eq!(body.y, 22 * UNIT);
    assert!(!state.ended);
}

#[test]
fn falling_below_viewport_ends_run() {
    let mut body = Body { y: -295 * UNIT, velocity: -100_000, ..Body::new() };
    let mut state = running();
    advance_body(&mut body, &mut state, 100, 600 * UNIT);
    assert!(state.ended);
    assert_eq!(body.velocity, 0);
    assert_eq!(body.y, -295 * UNIT);
}

#[test]
fn staying_above_bound_keeps_running() {
    let mut body = Body { y: -295 * UNIT, velocity: -40_000, ..Body::new() };
    let mut state = running();
    advance_body(&mut body, &mut state, 100, 600 * UNIT);
    assert!(!state.ended);
    assert_eq!(body.velocity, -120_000);
    assert_eq!(body.y, -307 * UNIT);
}

#[test]
fn physics_is_inert_unless_running() {
    let start = Body { y: 5 * UNIT, velocity: 1_000, ..Body::new() };
    let mut body = start;
    let mut state = GameState::new();
    advance_body(&mut body, &mut state, 500, 600 * UNIT);
    assert_eq!(body, start);
    let mut ended = GameState { started: true, ended: true };
    advance_body(&mut body, &mut ended, 500, 600 * UNIT);
    assert_eq!(body, start);
    assert!(ended.ended);
}

#[test]
fn flap_is_ignored_after_end() {
    let start = Body { velocity: -7, ..Body::new() };
    let mut body = start;
    let mut state = GameState { started: true, ended: true };
    flap(&mut body, &mut state);
    assert_eq!(body, start);
    assert_eq!(state, GameState { started: true, ended: true });
}

#[test]
fn spawn_pair_shares_column_with_gap() {
    let (top, bottom) = spawn_pair(4, 800 * UNIT, 600 * UNIT, 10 * UNIT as u64, 20 * UNIT as u64);
    assert_eq!(top.id, 4);
    assert_eq!(bottom.id, 5);
    assert_eq!(top.x, 400 * UNIT);
    assert_eq!(bottom.x, 400 * UNIT);
    assert_eq!(top.y, 290 * UNIT);
    assert_eq!(bottom.y, -280 * UNIT);
    assert_eq!(top.half_width, OBSTACLE_HALF_WIDTH);
    assert_eq!(bottom.half_height, OBSTACLE_HALF_HEIGHT);
}

#[test]
fn seeded_spawn_gives_equal_x_and_distinct_y() {
    let mut world = World::new(42);
    assert!(world.can_tick(1000, 800 * UNIT, 600 * UNIT));
    world.tick(true, 1000, 800 * UNIT, 600 * UNIT);
    let obstacles = world.obstacles();
    assert_eq!(obstacles.len(), 2);
    let (top, bottom) = (obstacles[0], obstacles[1]);
    assert_eq!(top.x, bottom.x);
    assert_ne!(top.y, bottom.y);
    assert!(top.y <= 300 * UNIT && top.y > 300 * UNIT - GAP_JITTER as i64);
    assert!(bottom.y >= -300 * UNIT && bottom.y < -300 * UNIT + GAP_JITTER as i64);
    let mut again = World::new(42);
    again.tick(true, 1000, 800 * UNIT, 600 * UNIT);
    assert_eq!(again.obstacles(), world.obstacles());
}

#[test]
fn circle_meets_box_along_axis() {
    let r: i64 = 50 * UNIT;
    let dsq = 4 * (r as i128) * (r as i128);
    let (hx, hy) = (13 * UNIT, 180 * UNIT);
    assert!(circle_intersects_box(0, 0, dsq, r + hx - 1, 0, hx, hy));
    assert!(circle_intersects_box(0, 0, dsq, 0, 0, hx, hy));
    assert!(!circle_intersects_box(0, 0, dsq, r + hx + 1, 0, hx, hy));
    assert!(circle_intersects_box(0, 0, dsq, r + hx, 0, hx, hy));
}

#[test]
fn circle_misses_box_diagonally() {
    let dsq = enclosing_diameter_sq(6, 8);
    assert_eq!(dsq, 100);
    assert!(!circle_intersects_box(0, 0, dsq, 8, 8, 4, 4));
    assert!(circle_intersects_box(0, 0, dsq, 7, 7, 4, 4));
}

#[test]
fn left_edge_must_pass_center() {
    let dsq = enclosing_diameter_sq(6, 8);
    assert!(!left_edge_passed(10, dsq, 5));
    assert!(left_edge_passed(10, dsq, 4));
    assert!(!left_edge_passed(0, dsq, 3));
}

#[test]
fn timer_fires_once_per_period() {
    let mut timer = SpawnTimer::new();
    assert_eq!(timer.period, SPAWN_PERIOD_MS);
    let mut fired = 0;
    for _ in 0..10 {
        if timer.tick(250) {
            fired += 1;
        }
    }
    assert_eq!(fired, 2);
    assert_eq!(timer.elapsed, 500);
    assert!(timer.tick(700));
    assert_eq!(timer.elapsed, 200);
}

fn far_obstacle(id: u64, x: i64) -> Obstacle {
    Obstacle { id, x, y: 5000 * UNIT, half_width: OBSTACLE_HALF_WIDTH, half_height: OBSTACLE_HALF_HEIGHT }
}

#[test]
fn cleared_obstacle_is_credited_once() {
    let body = Body::new();
    let obstacles = vec![far_obstacle(1, -300 * UNIT), far_obstacle(2, 100 * UNIT)];
    let mut credited = Vec::new();
    assert!(!collide_and_credit(&body, &obstacles, &mut credited));
    assert_eq!(credited, vec![1]);
    assert!(!collide_and_credit(&body, &obstacles, &mut credited));
    assert_eq!(credited, vec![1]);
    assert!(is_credited(&credited, 1));
    assert!(!is_credited(&credited, 2));
}

#[test]
fn hit_obstacle_is_not_credited() {
    let body = Body::new();
    let obstacles = vec![Obstacle { id: 9, x: BODY_X, y: 0, half_width: OBSTACLE_HALF_WIDTH, half_height: OBSTACLE_HALF_HEIGHT }];
    let mut credited = Vec::new();
    assert!(collide_and_credit(&body, &obstacles, &mut credited));
    assert!(credited.is_empty());
}

#[test]
fn scroll_moves_left_at_constant_speed() {
    let mut obstacles = vec![far_obstacle(1, 0), far_obstacle(2, 10 * UNIT)];
    scroll_obstacles(&mut obstacles, 100);
    assert_eq!(obstacles[0].x, -20 * UNIT);
    assert_eq!(obstacles[1].x, -10 * UNIT);
    assert_eq!(obstacles[1].y, 5000 * UNIT);
}

#[test]
fn world_is_inert_before_start() {
    let mut world = World::new(1);
    for _ in 0..5 {
        world.tick(false, 5000, 800 * UNIT, 600 * UNIT);
    }
    assert!(world.obstacles().is_empty());
    assert_eq!(world.body(), Body::new());
    assert_eq!(world.score(), 0);
    assert_eq!(world.timer().elapsed, 0);
    assert!(!world.state().started);
}

#[test]
fn world_scores_each_obstacle_once() {
    let (width, height) = (800 * UNIT, 40_000 * UNIT);
    let mut world = World::new(3);
    let mut last = 0;
    for t in 1..=60 {
        assert!(world.can_tick(100, width, height));
        world.tick_with_offsets(t == 1, 100, width, height, 0, 0);
        assert!(world.score() >= last);
        last = world.score();
        assert_eq!(world.score() as usize, world.credited().len());
        if t == 42 {
            assert_eq!(world.score(), 0);
        }
        if t == 43 {
            assert_eq!(world.score(), 2);
        }
    }
    assert!(!world.state().ended);
    assert_eq!(world.obstacles().len(), 12);
    assert_eq!(world.score(), 4);
    assert_eq!(world.displayed_score(), 2);
    assert_eq!(world.credited(), &vec![0, 1, 2, 3]);
}

#[test]
fn ended_world_stays_frozen() {
    let (width, height) = (800 * UNIT, 100 * UNIT);
    let mut world = World::new(5);
    world.tick(true, 100, width, height);
    let mut t = 0;
    while !world.state().ended {
        world.tick(false, 100, width, height);
        t += 1;
        assert!(t < 100);
    }
    let body = world.body();
    let obstacles = world.obstacles().clone();
    let score = world.score();
    for _ in 0..20 {
        world.tick(true, 1000, width, height);
    }
    assert_eq!(world.body(), body);
    assert_eq!(world.obstacles(), &obstacles);
    assert_eq!(world.score(), score);
    assert!(world.state().ended);
}

#[test]
fn overlong_step_is_refused() {
    let world = World::new(0);
    assert!(!world.can_tick(60_001, 800 * UNIT, 600 * UNIT));
    assert!(!world.can_tick(16, -1, 600 * UNIT));
    assert!(world.can_tick(16, 800 * UNIT, 600 * UNIT));
}

#[test]
fn odd_height_pair_keeps_a_gap() {
    let (top, bottom) = spawn_pair(0, 800 * UNIT, 179_999_999, 89_999_999, 89_999_999);
    assert_eq!(top.x, bottom.x);
    assert_eq!(top.y, 1);
    assert_eq!(bottom.y, 0);
    assert!(top.y > bottom.y);
}
