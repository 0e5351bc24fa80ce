use verlet_balls::geom::Vec2;
use verlet_balls::solver::{
    Body, Solver, ARENA_MAX_X, ARENA_MAX_Y, ARENA_MIN_X, ARENA_MIN_Y, GRAVITY, MAX_RADIUS,
};

const UNIT: i64 = 1_000_000;
const FRAME_60HZ: u64 = 16_667;

fn v(x: i64, y: i64) -> Vec2 {
    Vec2 { x, y }
}

fn contained(b: &Body) -> bool {
    let p = b.position_current;
    p.x - b.radius >= ARENA_MIN_X
        && p.x + b.radius <= ARENA_MAX_X
        && p.y - b.radius >= ARENA_MIN_Y
        && p.y + b.radius <= ARENA_MAX_Y
}

struct Lcg(u64);

impl Lcg {
    fn next(&mut self) -> u64 {
        self.0 = self.0.wrapping_mul(6364136223846793005).wrapping_add(1442695040888963407);
        self.0 >> 33
    }
}

#[test]
fn spawn_places_body_at_centre() {
    let mut s = Solver::new();
    let h = s.spawn(10 * UNIT, v(3, -4));
    assert_eq!(h, 0);
    assert_eq!(s.len(), 1);
    let b = s.body(0);
    assert_eq!(b.position_current, v(0, 0));
    assert_eq!(b.position_old, v(3, -4));
    assert_eq!(b.radius, 10 * UNIT);
    assert_eq!(b.acceleration, v(0, 0));
    let e = s.entries();
    assert_eq!(e.len(), 1);
    assert_eq!(e[0].0, 0);
    assert_eq!(e[0].1.min_x, -10 * UNIT);
    assert_eq!(e[0].1.max_y, 10 * UNIT);
}

#[test]
fn gravity_then_integration_exact() {
    let mut s = Solver::new();
    s.spawn_at(UNIT, v(100, 200), v(90, 200));
    s.apply_gravity();
    assert_eq!(s.body(0).acceleration, v(0, GRAVITY));
    s.update_position(3_333);
    let b = s.body(0);
    // drift = -1e9 * 3333^2 / 1e12 = -11108.889, rounded toward zero
    assert_eq!(b.position_current, v(110, 200 - 11_108));
    assert_eq!(b.position_old, v(100, 200));
    assert_eq!(b.acceleration, v(0, 0));
}

#[test]
fn one_frame_of_free_fall_exact() {
    let mut s = Solver::new();
    s.spawn_at(UNIT, v(0, 0), v(0, 0));
    s.step(FRAME_60HZ);
    // five substeps of 3333 us, drift -11108 each: -11108 * (1+2+3+4+5)
    assert_eq!(s.body(0).position_current, v(0, -11_108 * 15));
    assert_eq!(s.body(0).position_old, v(0, -11_108 * 10));
}

#[test]
fn free_fall_matches_closed_form() {
    let mut s = Solver::new();
    s.spawn_at(UNIT, v(0, 400 * UNIT), v(0, 400 * UNIT));
    let dt: u64 = 2_000;
    let n: i64 = 100;
    for _ in 0..n {
        s.apply_gravity();
        s.update_position(dt);
    }
    let c = GRAVITY * (dt as i64) * (dt as i64) / 1_000_000_000_000;
    let y = s.body(0).position_current.y;
    assert_eq!(y, 400 * UNIT + c * n * (n + 1) / 2);
    let t = (n as f64) * (dt as f64) / 1e6;
    let exact = 0.5 * (GRAVITY as f64) * t * t;
    let fallen = (y - 400 * UNIT) as f64;
    assert!((fallen - exact).abs() <= exact.abs() * 0.02);
    assert_eq!(s.body(0).position_current.x, 0);
}

#[test]
fn step_keeps_bodies_inside_the_arena() {
    let mut s = Solver::new();
    let r = 15 * UNIT;
    s.spawn_at(r, v(ARENA_MAX_X - r, 0), v(ARENA_MIN_X, 0));
    s.spawn_at(r, v(0, ARENA_MIN_Y + r), v(0, ARENA_MAX_Y));
    s.spawn_at(MAX_RADIUS, v(0, 0), v(0, 0));
    for _ in 0..10 {
        s.step(FRAME_60HZ);
        for h in 0..s.len() {
            assert!(contained(&s.body(h)));
        }
    }
}

#[test]
fn edge_clamp_is_a_position_clamp() {
    let mut s = Solver::new();
    let r = 10 * UNIT;
    s.spawn_at(r, v(ARENA_MAX_X - r, 0), v(ARENA_MAX_X - r - 5 * UNIT, 0));
    s.step(FRAME_60HZ);
    let b = s.body(0);
    assert_eq!(b.position_current.x, ARENA_MAX_X - r);
    assert!(contained(&b));
}

#[test]
fn coincident_bodies_separate_without_failure() {
    let mut s = Solver::new();
    s.spawn(10 * UNIT, v(0, 0));
    s.spawn(10 * UNIT, v(0, 0));
    s.update_quadtree();
    s.solve_collisions();
    // both are pushed along -x by half the overlap of 20 units
    assert_eq!(s.body(0).position_current, v(-10 * UNIT, 0));
    assert_eq!(s.body(1).position_current, v(-10 * UNIT, 0));
    for _ in 0..30 {
        s.step(FRAME_60HZ);
    }
    for h in 0..2 {
        assert!(contained(&s.body(h)));
    }
}

#[test]
fn stepping_coincident_spawns_stays_finite() {
    let mut s = Solver::new();
    s.spawn(10 * UNIT, v(1, 2));
    s.spawn(10 * UNIT, v(1, 2));
    for _ in 0..60 {
        s.step(FRAME_60HZ);
    }
    for h in 0..2 {
        assert!(contained(&s.body(h)));
    }
}

#[test]
fn overlapping_pair_separates_without_oscillation() {
    let mut s = Solver::new();
    let r = 10 * UNIT;
    s.spawn_at(r, v(0, 0), v(0, 0));
    s.spawn_at(r, v(15 * UNIT, 0), v(15 * UNIT, 0));
    let mut prev = 15 * UNIT;
    for pass in 0..10 {
        s.update_quadtree();
        s.solve_collisions();
        s.solve_constraints();
        let sep = s.body(1).position_current.x - s.body(0).position_current.x;
        assert!(sep >= prev);
        if pass == 0 {
            assert_eq!(s.body(0).position_current, v(-2_500_000, 0));
            assert_eq!(s.body(1).position_current, v(17_500_000, 0));
        }
        assert!(sep >= 20 * UNIT);
        prev = sep;
    }
}

#[test]
fn separated_pair_is_untouched() {
    let mut s = Solver::new();
    s.spawn_at(10 * UNIT, v(0, 0), v(0, 0));
    s.spawn_at(10 * UNIT, v(25 * UNIT, 0), v(25 * UNIT, 0));
    s.update_quadtree();
    s.solve_collisions();
    assert_eq!(s.body(0).position_current, v(0, 0));
    assert_eq!(s.body(1).position_current, v(25 * UNIT, 0));
}

#[test]
fn empty_simulation_steps() {
    let mut s = Solver::new();
    s.step(FRAME_60HZ);
    assert_eq!(s.len(), 0);
    assert!(s.entries().is_empty());
}

#[test]
fn thousand_jittered_bodies_stay_inside() {
    let mut g = Lcg(1);
    let mut s = Solver::new();
    for _ in 0..1000 {
        let r = 5 * UNIT + (g.next() % (10 * UNIT as u64)) as i64;
        let jx = (g.next() % UNIT as u64) as i64;
        let jy = (g.next() % UNIT as u64) as i64;
        s.spawn(r, v(jx, jy));
    }
    for _ in 0..60 {
        s.step(FRAME_60HZ);
    }
    for h in 0..s.len() {
        assert!(contained(&s.body(h)));
    }
    let mut handles: Vec<usize> = s.entries().iter().map(|e| e.0).collect();
    handles.sort();
    handles.dedup();
    assert_eq!(handles.len(), 1000);
    assert_eq!(s.nodes().len(), 1365);
}

#[test]
fn solver_nodes_cover_the_grown_arena() {
    let s = Solver::new();
    let nodes = s.nodes();
    assert_eq!(nodes.len(), 1365);
    let r = nodes[1].region;
    assert_eq!((r.min_x, r.min_y, r.max_x, r.max_y), (-950_000_000, -550_000_000, 0, 0));
    let last = nodes[1364].region;
    assert_eq!(last.max_x, 950_000_000);
    assert_eq!(last.max_y, 550_000_000);
    assert!(nodes[1364].is_leaf);
}

#[test]
fn lone_body_step_follows_free_fall() {
    let mut s = Solver::new();
    s.spawn_at(UNIT, v(0, 300 * UNIT), v(0, 300 * UNIT));
    for _ in 0..10 {
        s.step(FRAME_60HZ);
    }
    // fifty substeps of drift -11108: -11108 * 50 * 51 / 2
    assert_eq!(s.body(0).position_current, v(0, 300 * UNIT - 11_108 * 1275));
    assert_eq!(s.entries().len(), 1);
}
