use vstd::prelude::*;
use vstd::set_lib::{lemma_int_range, lemma_len_subset, set_int_range};
use vstd::arithmetic::div_mod::{lemma_div_is_ordered, lemma_div_multiples_vanish};
use crate::geom::{Vec2, Rect, centered_square, floor_sqrt, is_floor_sqrt};
use crate::quadtree::{Quadtree, NodeInfo, overlap_listing, node_region, NODE_COUNT, INNER_NODES};

verus! {

/// Left edge of the arena, in micro-units.
pub const ARENA_MIN_X: i64 = -900_000_000;

/// Right edge of the arena, in micro-units.
pub const ARENA_MAX_X: i64 = 900_000_000;

/// Bottom edge of the arena, in micro-units.
pub const ARENA_MIN_Y: i64 = -500_000_000;

/// Top edge of the arena, in micro-units.
pub const ARENA_MAX_Y: i64 = 500_000_000;

/// How far the index's root region reaches beyond the arena on every side.
pub const INDEX_MARGIN: i64 = 50_000_000;

/// Downward acceleration, in micro-units per second squared.
pub const GRAVITY: i64 = -1_000_000_000;

/// Substeps per frame.
pub const SUBSTEPS: u64 = 5;

/// Largest radius of a body: half the arena's height, so that every body fits.
pub const MAX_RADIUS: i64 = 500_000_000;

/// Longest frame, in microseconds.
pub const MAX_FRAME_DT: u64 = 10_000_000;

/// Most bodies a solver holds.
pub const MAX_BODIES: usize = 1_000_000;

/// Square of the number of microseconds in a second.
pub const MICROS_SQ: i128 = 1_000_000_000_000;

/// Coordinates stay within this bound between the phases of a substep.
pub const COORD_BOUND: i64 = 4_000_000_000_000_000;

/// One circle: its radius, its position now and one substep ago, and the acceleration
/// gathered for the coming substep. Velocity is `position_current - position_old`.
#[derive(Clone, Copy, Debug, PartialEq, Eq, Structural)]
pub struct Body {
    pub radius: i64,
    pub position_current: Vec2,
    pub position_old: Vec2,
    pub acceleration: Vec2,
}

/// The body's circle lies inside the arena.
pub open spec fn contained(b: Body) -> bool {
    &&& ARENA_MIN_X <= b.position_current.x - b.radius
    &&& b.position_current.x + b.radius <= ARENA_MAX_X
    &&& ARENA_MIN_Y <= b.position_current.y - b.radius
    &&& b.position_current.y + b.radius <= ARENA_MAX_Y
}

/// The point lies inside the arena.
pub open spec fn in_arena(p: Vec2) -> bool {
    &&& ARENA_MIN_X <= p.x <= ARENA_MAX_X
    &&& ARENA_MIN_Y <= p.y <= ARENA_MAX_Y
}

/// The state of a body between frames.
pub open spec fn at_rest(b: Body) -> bool {
    &&& 0 < b.radius <= MAX_RADIUS
    &&& contained(b)
    &&& in_arena(b.position_old)
    &&& b.acceleration == Vec2 { x: 0, y: 0 }
}

/// Integer division rounding toward zero.
pub open spec fn trunc_div(a: int, d: int) -> int {
    if a >= 0 {
        a / d
    } else {
        -((-a) / d)
    }
}

/// Distance travelled over `dt` microseconds under acceleration `a`, as the Verlet step
/// adds it: `a * dt^2`, rounded toward zero.
pub open spec fn drift(a: int, dt: int) -> int {
    trunc_div(a * dt * dt, MICROS_SQ as int)
}

/// The body after gravity is added to its acceleration.
pub open spec fn with_gravity(b: Body) -> Body {
    Body { acceleration: Vec2 { x: b.acceleration.x, y: (b.acceleration.y + GRAVITY) as i64 }, ..b }
}

/// The body after one Verlet step of `dt` microseconds.
pub open spec fn integrated(b: Body, dt: int) -> Body {
    Body {
        radius: b.radius,
        position_current: Vec2 {
            x: (2 * b.position_current.x - b.position_old.x + drift(b.acceleration.x as int, dt)) as i64,
            y: (2 * b.position_current.y - b.position_old.y + drift(b.acceleration.y as int, dt)) as i64,
        },
        position_old: b.position_current,
        acceleration: Vec2 { x: 0, y: 0 },
    }
}

/// The body's index box: the square of side `2 * radius` centred on it.
pub open spec fn index_box(b: Body) -> Rect {
    centered_square(b.position_current.x as int, b.position_current.y as int, b.radius as int)
}

/// Coordinate `x` of a circle of radius `r` pushed back inside `[lo, hi]`.
pub open spec fn clamp_axis(x: int, r: int, lo: int, hi: int) -> int {
    let a = if x - r < lo {
        lo + r
    } else {
        x
    };
    if a + r > hi {
        hi - r
    } else {
        a
    }
}

/// The body after the arena's walls have pushed it back inside.
pub open spec fn constrained(b: Body) -> Body {
    Body {
        position_current: Vec2 {
            x: clamp_axis(b.position_current.x as int, b.radius as int, ARENA_MIN_X as int, ARENA_MAX_X as int) as i64,
            y: clamp_axis(b.position_current.y as int, b.radius as int, ARENA_MIN_Y as int, ARENA_MAX_Y as int) as i64,
        },
        ..b
    }
}

/// The integer square root of `n`, rounded down.
pub open spec fn sqrt_floor(n: int) -> int {
    choose|r: int| is_floor_sqrt(n, r)
}

/// How far body `a` is moved away from body `b` when their circles overlap: half the
/// overlap, along the line from `b` to `a`, or along `-x` when their centres coincide.
pub open spec fn push(a: Body, b: Body) -> (int, int) {
    let dx = b.position_current.x - a.position_current.x;
    let dy = b.position_current.y - a.position_current.y;
    let reach = a.radius + b.radius;
    if dx * dx + dy * dy < reach * reach {
        let len = sqrt_floor(dx * dx + dy * dy);
        let overlap = reach - len;
        if len == 0 {
            (-(overlap / 2), 0)
        } else {
            (-trunc_div(dx * overlap, 2 * len), -trunc_div(dy * overlap, 2 * len))
        }
    } else {
        (0, 0)
    }
}

/// The sum of the pushes on body `i` from the bodies listed in `ids`, itself left out.
pub open spec fn push_total(bs: Seq<Body>, i: int, ids: Seq<usize>) -> (int, int)
    decreases ids.len(),
{
    if ids.len() == 0 {
        (0, 0)
    } else {
        let rest = push_total(bs, i, ids.drop_last());
        let j = ids.last() as int;
        if j == i {
            rest
        } else {
            (rest.0 + push(bs[i], bs[j]).0, rest.1 + push(bs[i], bs[j]).1)
        }
    }
}

/// Body `i` of `bs` after the pushes from the bodies listed in `ids`.
pub open spec fn resolved(bs: Seq<Body>, i: int, ids: Seq<usize>) -> Body {
    Body {
        position_current: Vec2 {
            x: (bs[i].position_current.x + push_total(bs, i, ids).0) as i64,
            y: (bs[i].position_current.y + push_total(bs, i, ids).1) as i64,
        },
        ..bs[i]
    }
}

/// `b` is body `i` of `bs` after the pushes from exactly the bodies whose entry in `idx`
/// overlaps its index box, each counted once.
pub open spec fn pushed_apart(idx: Seq<(usize, Rect)>, bs: Seq<Body>, i: int, b: Body) -> bool {
    exists|ids: Seq<usize>|
        #[trigger] overlap_listing(idx, index_box(bs[i]), ids) && b == resolved(bs, i, ids)
}

/// Every body of `bs` after gravity and one Verlet step of `dt` microseconds.
pub open spec fn moved(bs: Seq<Body>, dt: int) -> Seq<Body> {
    Seq::new(bs.len(), |j: int| integrated(with_gravity(bs[j]), dt))
}

/// Index entries that hold, for each body of `bs`, its handle and its index box.
pub open spec fn boxes(bs: Seq<Body>) -> Seq<(usize, Rect)> {
    Seq::new(bs.len(), |j: int| (j as usize, index_box(bs[j])))
}

/// `after` is `bs` after one substep of `dt` microseconds: gravity and integration,
/// collisions found through boxes at the integrated positions, then the walls.
pub open spec fn substepped(bs: Seq<Body>, dt: int, after: Seq<Body>) -> bool {
    &&& after.len() == bs.len()
    &&& forall|i: int| 0 <= i < bs.len() ==> body_substepped(bs, dt, i, #[trigger] after[i])
}

/// `b` is body `i` of `bs` after one substep of `dt` microseconds.
pub open spec fn body_substepped(bs: Seq<Body>, dt: int, i: int, b: Body) -> bool {
    exists|c: Body|
        #[trigger] pushed_apart(boxes(moved(bs, dt)), moved(bs, dt), i, c) && b == constrained(c)
}

/// `after` is `bs` after `k` substeps of `dt` microseconds.
pub open spec fn substepped_n(bs: Seq<Body>, dt: int, k: nat, after: Seq<Body>) -> bool
    decreases k,
{
    if k == 0 {
        after == bs
    } else {
        exists|mid: Seq<Body>|
            substepped_n(bs, dt, (k - 1) as nat, mid) && #[trigger] substepped(mid, dt, after)
    }
}

/// The root region of the index: the arena, grown by the margin.
pub open spec fn index_region() -> Rect {
    Rect {
        min_x: (ARENA_MIN_X - INDEX_MARGIN) as i64,
        min_y: (ARENA_MIN_Y - INDEX_MARGIN) as i64,
        max_x: (ARENA_MAX_X + INDEX_MARGIN) as i64,
        max_y: (ARENA_MAX_Y + INDEX_MARGIN) as i64,
    }
}

/// Radius in range and position within `bound` on both axes.
pub open spec fn bounded(b: Body, bound: int) -> bool {
    &&& 0 < b.radius <= MAX_RADIUS
    &&& -bound <= b.position_current.x <= bound
    &&& -bound <= b.position_current.y <= bound
}

pub(crate) proof fn lemma_sqrt_unique(n: int, r: int)
    requires
        is_floor_sqrt(n, r),
    ensures
        sqrt_floor(n) == r,
{
    let s = sqrt_floor(n);
    assert(is_floor_sqrt(n, s));
    if s < r {
        assert((s + 1) * (s + 1) <= r * r) by (nonlinear_arith)
            requires
                0 <= s < r,
        ;
    } else if s > r {
        assert((r + 1) * (r + 1) <= s * s) by (nonlinear_arith)
            requires
                0 <= r < s,
        ;
    }
}

proof fn lemma_unique_below(ids: Seq<usize>, n: int)
    requires
        ids.no_duplicates(),
        forall|k: int| 0 <= k < ids.len() ==> #[trigger] ids[k] < n,
        n >= 0,
    ensures
        ids.len() <= n,
{
    let m = ids.map_values(|x: usize| x as int);
    ids.lemma_no_duplicates_injective(|x: usize| x as int);
    m.unique_seq_to_set();
    lemma_int_range(0, n);
    assert forall|x: int| m.to_set().contains(x) implies set_int_range(0, n).contains(x) by {
        let k = choose|k: int| 0 <= k < m.len() && m[k] == x;
        assert(ids[k] < n);
    }
    lemma_len_subset(m.to_set(), set_int_range(0, n));
}

fn trunc_div_exec(a: i128, d: i128) -> (r: i128)
    requires
        d > 0,
        a > i128::MIN,
    ensures
        r == trunc_div(a as int, d as int),
{
    if a >= 0 {
        a / d
    } else {
        -((-a) / d)
    }
}

/// The push on `a` from `b`, as `push` states it.
fn push_of(a: &Body, b: &Body) -> (r: (i64, i64))
    requires
        bounded(*a, COORD_BOUND as int),
        bounded(*b, COORD_BOUND as int),
    ensures
        r.0 == push(*a, *b).0,
        r.1 == push(*a, *b).1,
        -2 * MAX_RADIUS <= r.0 <= 2 * MAX_RADIUS,
        -2 * MAX_RADIUS <= r.1 <= 2 * MAX_RADIUS,
{
    let dx: i128 = b.position_current.x as i128 - a.position_current.x as i128;
    let dy: i128 = b.position_current.y as i128 - a.position_current.y as i128;
    assert(dx * dx <= 64_000_000_000_000_000_000_000_000_000_000_000i128 && dy * dy
        <= 64_000_000_000_000_000_000_000_000_000_000_000i128)
        by (nonlinear_arith)
        requires
            -8_000_000_000_000_000i128 <= dx <= 8_000_000_000_000_000i128,
            -8_000_000_000_000_000i128 <= dy <= 8_000_000_000_000_000i128,
    ;
    assert(dx * dx >= 0 && dy * dy >= 0) by (nonlinear_arith);
    let s: i128 = dx * dx + dy * dy;
    let reach: i128 = a.radius as i128 + b.radius as i128;
    assert(reach * reach <= 1_000_000_000_000_000_000i128) by (nonlinear_arith)
        requires
            0 < reach <= 1_000_000_000i128,
    ;
    if s < reach * reach {
        let len: i128 = floor_sqrt(s as u128) as i128;
        proof {
            lemma_sqrt_unique(s as int, len as int);
        }
        assert(len < reach) by (nonlinear_arith)
            requires
                len * len <= s,
                s < reach * reach,
                len >= 0,
                reach > 0,
        ;
        let overlap: i128 = reach - len;
        if len == 0 {
            ((-(overlap / 2)) as i64, 0)
        } else {
            assert(-len <= dx <= len && -len <= dy <= len) by (nonlinear_arith)
                requires
                    s == dx * dx + dy * dy,
                    s < (len + 1) * (len + 1),
                    len >= 0,
                    dx * dx >= 0,
                    dy * dy >= 0,
            ;
            assert(-(len * overlap) <= dx * overlap <= len * overlap && -(len * overlap) <= dy
                * overlap <= len * overlap) by (nonlinear_arith)
                requires
                    -len <= dx <= len,
                    -len <= dy <= len,
                    overlap > 0,
            ;
            assert(len * overlap <= 1_000_000_000_000_000_000i128) by (nonlinear_arith)
                requires
                    0 < len < reach,
                    0 < overlap <= reach,
                    reach <= 1_000_000_000i128,
            ;
            proof {
                let l = len as int;
                let o = overlap as int;
                let x = dx as int;
                let y = dy as int;
                assert(l * o <= 2 * l * o && 0 <= l * o) by (nonlinear_arith)
                    requires
                        l > 0,
                        o > 0,
                ;
                assert(2 * l * o == (2 * l) * o) by (nonlinear_arith);
                lemma_div_multiples_vanish(o, 2 * l);
                lemma_div_is_ordered(l * o, 2 * l * o, 2 * l);
                assert(-(l * o) <= x * o <= l * o);
                if x * o >= 0 {
                    lemma_div_is_ordered(0, x * o, 2 * l);
                    lemma_div_is_ordered(x * o, l * o, 2 * l);
                } else {
                    lemma_div_is_ordered(0, -(x * o), 2 * l);
                    lemma_div_is_ordered(-(x * o), l * o, 2 * l);
                }
                assert(-(l * o) <= y * o <= l * o);
                if y * o >= 0 {
                    lemma_div_is_ordered(0, y * o, 2 * l);
                    lemma_div_is_ordered(y * o, l * o, 2 * l);
                } else {
                    lemma_div_is_ordered(0, -(y * o), 2 * l);
                    lemma_div_is_ordered(-(y * o), l * o, 2 * l);
                }
                assert(0 <= trunc_div(x * o, 2 * l) <= o || -o <= trunc_div(x * o, 2 * l) <= 0);
                assert(0 <= trunc_div(y * o, 2 * l) <= o || -o <= trunc_div(y * o, 2 * l) <= 0);
            }
            let px = trunc_div_exec(dx * overlap, 2 * len);
            let py = trunc_div_exec(dy * overlap, 2 * len);
            ((-px) as i64, (-py) as i64)
        }
    } else {
        (0, 0)
    }
}

/// Limits on the state that the integration step accepts without overflow.
pub open spec fn moderate(b: Body) -> bool {
    &&& -1_000_000_000_000_000 <= b.position_current.x <= 1_000_000_000_000_000
    &&& -1_000_000_000_000_000 <= b.position_current.y <= 1_000_000_000_000_000
    &&& -1_000_000_000_000_000 <= b.position_old.x <= 1_000_000_000_000_000
    &&& -1_000_000_000_000_000 <= b.position_old.y <= 1_000_000_000_000_000
    &&& -1_000_000_000_000 <= b.acceleration.x <= 1_000_000_000_000
    &&& -1_000_000_000_000 <= b.acceleration.y <= 1_000_000_000_000
}

/// Bound on coordinates after collision resolution.
pub const SPREAD_BOUND: i64 = 5_000_000_000_000_000;

/// Bound on coordinates that the index update and the walls accept.
pub const WIDE_BOUND: i64 = 4_000_000_000_000_000_000;

/// Longest substep, in microseconds.
pub const MAX_SUB_DT: u64 = 2_000_000;

fn drift_of(a: i64, dt: u64) -> (r: i64)
    requires
        -1_000_000_000_000 <= a <= 1_000_000_000_000,
        dt <= MAX_SUB_DT,
    ensures
        r == drift(a as int, dt as int),
        -4_000_000_000_000 <= r <= 4_000_000_000_000,
{
    assert(-2_000_000_000_000_000_000 <= a as int * dt as int <= 2_000_000_000_000_000_000) by (nonlinear_arith)
        requires
            -1_000_000_000_000 <= a <= 1_000_000_000_000,
            0 <= dt <= 2_000_000,
    ;
    let adt: i128 = a as i128 * dt as i128;
    assert(-4_000_000_000_000_000_000_000_000 <= adt as int * dt as int <= 4_000_000_000_000_000_000_000_000) by (nonlinear_arith)
        requires
            adt == a as int * dt as int,
            -1_000_000_000_000 <= a <= 1_000_000_000_000,
            0 <= dt <= 2_000_000,
    ;
    let p: i128 = adt * dt as i128;
    assert(-4_000_000_000_000_000_000_000_000 <= p <= 4_000_000_000_000_000_000_000_000) by (nonlinear_arith)
        requires
            p == adt * dt as int,
            adt == a as int * dt as int,
            -1_000_000_000_000 <= a <= 1_000_000_000_000,
            0 <= dt <= 2_000_000,
    ;
    proof {
        if p >= 0 {
            lemma_div_is_ordered(p as int, 4_000_000_000_000_000_000_000_000, MICROS_SQ as int);
        } else {
            lemma_div_is_ordered(-p as int, 4_000_000_000_000_000_000_000_000, MICROS_SQ as int);
        }
        assert(4_000_000_000_000_000_000_000_000int / 1_000_000_000_000int == 4_000_000_000_000int);
    }
    trunc_div_exec(p, MICROS_SQ) as i64
}

proof fn lemma_drift_bound(a: int, dt: int)
    requires
        -1_000_000_000_000 <= a <= 1_000_000_000_000,
        0 <= dt <= MAX_SUB_DT,
    ensures
        -4_000_000_000_000 <= drift(a, dt) <= 4_000_000_000_000,
{
    let p = a * dt * dt;
    assert(-4_000_000_000_000_000_000_000_000 <= p <= 4_000_000_000_000_000_000_000_000) by (nonlinear_arith)
        requires
            p == a * dt * dt,
            -1_000_000_000_000 <= a <= 1_000_000_000_000,
            0 <= dt <= 2_000_000,
    ;
    if p >= 0 {
        lemma_div_is_ordered(p, 4_000_000_000_000_000_000_000_000, MICROS_SQ as int);
        lemma_div_is_ordered(0, p, MICROS_SQ as int);
    } else {
        lemma_div_is_ordered(-p, 4_000_000_000_000_000_000_000_000, MICROS_SQ as int);
        lemma_div_is_ordered(0, -p, MICROS_SQ as int);
    }
    assert(4_000_000_000_000_000_000_000_000int / 1_000_000_000_000int == 4_000_000_000_000int);
}

/// The simulation: every body, and the spatial index over their boxes.
pub struct Solver {
    bodies: Vec<Body>,
    index: Quadtree,
}

impl Solver {
    /// The bodies; a body's handle is its position in this sequence.
    pub closed spec fn bodies(&self) -> Seq<Body> {
        self.bodies@
    }

    /// The entries of the spatial index.
    pub closed spec fn index_view(&self) -> Seq<(usize, Rect)> {
        self.index@
    }

    /// Bodies and index entries correspond one to one, entry `i` carrying handle `i`.
    pub closed spec fn linked(&self) -> bool {
        &&& self.index.well_formed()
        &&& self.index.root() == index_region()
        &&& self.index@.len() == self.bodies.len()
        &&& self.bodies.len() <= MAX_BODIES
        &&& forall|i: int| 0 <= i < self.bodies.len() ==> (#[trigger] self.index@[i]).0 == i
    }

    /// The index holds one entry per body, entry `i` carrying handle `i`.
    pub open spec fn one_entry_per_body(&self) -> bool {
        &&& self.index_view().len() == self.bodies().len()
        &&& forall|i: int| 0 <= i < self.index_view().len() ==> (#[trigger] self.index_view()[i]).0 == i
    }

    /// The state between frames: bodies and index linked, every body at rest in the arena.
    pub open spec fn well_formed(&self) -> bool {
        &&& self.linked()
        &&& self.one_entry_per_body()
        &&& forall|i: int| 0 <= i < self.bodies().len() ==> at_rest(#[trigger] self.bodies()[i])
    }

    /// Every index entry holds its body's current box.
    pub open spec fn synced(&self) -> bool {
        &&& self.index_view().len() == self.bodies().len()
        &&& forall|i: int| 0 <= i < self.bodies().len() ==> #[trigger] self.index_view()[i] == (
        i as usize, index_box(self.bodies()[i]))
    }

    /// An empty simulation.
    pub fn new() -> (r: Solver)
        ensures
            r.well_formed(),
            r.bodies().len() == 0,
            r.index_view().len() == 0,
    {
        let region = Rect {
            min_x: ARENA_MIN_X - INDEX_MARGIN,
            min_y: ARENA_MIN_Y - INDEX_MARGIN,
            max_x: ARENA_MAX_X + INDEX_MARGIN,
            max_y: ARENA_MAX_Y + INDEX_MARGIN,
        };
        Solver { bodies: Vec::new(), index: Quadtree::new(region) }
    }

    /// Number of bodies.
    pub fn len(&self) -> (r: usize)
        ensures
            r == self.bodies().len(),
    {
        self.bodies.len()
    }

    /// Body `h`.
    pub fn body(&self, h: usize) -> (r: Body)
        requires
            h < self.bodies().len(),
        ensures
            r == self.bodies()[h as int],
    {
        self.bodies[h]
    }

    /// Adds a body of radius `radius` at `position`, whose position one substep ago was
    /// `previous`, and returns its handle.
    pub fn spawn_at(&mut self, radius: i64, position: Vec2, previous: Vec2) -> (h: usize)
        requires
            old(self).well_formed(),
            at_rest(
                Body {
                    radius,
                    position_current: position,
                    position_old: previous,
                    acceleration: Vec2 { x: 0, y: 0 },
                },
            ),
            old(self).bodies().len() < MAX_BODIES,
        ensures
            final(self).well_formed(),
            h == old(self).bodies().len(),
            final(self).bodies() == old(self).bodies().push(
                Body {
                    radius,
                    position_current: position,
                    position_old: previous,
                    acceleration: Vec2 { x: 0, y: 0 },
                },
            ),
            final(self).index_view() == old(self).index_view().push(
                (h, centered_square(position.x as int, position.y as int, radius as int)),
            ),
    {
        let b = Body { radius, position_current: position, position_old: previous, acceleration: Vec2 { x: 0, y: 0 } };
        let h = self.bodies.len();
        let rect = Rect::new_centered(position.x, position.y, radius);
        self.index.insert(h, rect);
        self.bodies.push(b);
        assert(forall|i: int| 0 <= i < h ==> self.bodies@[i] == old(self).bodies@[i]);
        h
    }

    /// Adds a body of radius `radius` at the centre of the arena, whose position one
    /// substep ago was `previous` (a small offset from the centre gives it a small initial
    /// velocity), and returns its handle.
    pub fn spawn(&mut self, radius: i64, previous: Vec2) -> (h: usize)
        requires
            old(self).well_formed(),
            0 < radius <= MAX_RADIUS,
            in_arena(previous),
            old(self).bodies().len() < MAX_BODIES,
        ensures
            final(self).well_formed(),
            h == old(self).bodies().len(),
            final(self).bodies() == old(self).bodies().push(
                Body {
                    radius,
                    position_current: Vec2 { x: 0, y: 0 },
                    position_old: previous,
                    acceleration: Vec2 { x: 0, y: 0 },
                },
            ),
            final(self).index_view() == old(self).index_view().push(
                (h, centered_square(0, 0, radius as int)),
            ),
    {
        self.spawn_at(radius, Vec2 { x: 0, y: 0 }, previous)
    }

    /// The index's entries, in entry order: handle and stored box. Entry `i` carries handle
    /// `i`, so no handle appears twice.
    pub fn entries(&self) -> (r: Vec<(usize, Rect)>)
        ensures
            r@ == self.index_view(),
            self.well_formed() ==> r@.len() == self.bodies().len(),
            self.well_formed() ==> forall|i: int| 0 <= i < r@.len() ==> (#[trigger] r@[i]).0 == i,
    {
        self.index.entries()
    }

    /// The index's nodes, for drawing.
    pub fn nodes(&self) -> (r: Vec<NodeInfo>)
        requires
            self.linked(),
        ensures
            r@.len() == NODE_COUNT,
            forall|k: int| 0 <= k < r@.len() ==> (#[trigger] r@[k]).is_leaf == (k >= INNER_NODES),
            forall|k: int| 0 <= k < r@.len() ==> (#[trigger] r@[k]).region == node_region(index_region(), k),
    {
        self.index.nodes()
    }

    /// Adds gravity to the acceleration of every body.
    pub fn apply_gravity(&mut self)
        requires
            old(self).linked(),
            forall|i: int|
                0 <= i < old(self).bodies().len() ==> (#[trigger] old(self).bodies()[i]).acceleration.y
                    >= i64::MIN - GRAVITY,
        ensures
            final(self).linked(),
            final(self).index_view() == old(self).index_view(),
            final(self).bodies().len() == old(self).bodies().len(),
            forall|i: int|
                0 <= i < old(self).bodies().len() ==> #[trigger] final(self).bodies()[i] == with_gravity(
                    old(self).bodies()[i],
                ),
    {
        let n = self.bodies.len();
        let mut i: usize = 0;
        while i < n
            invariant
                self.index == old(self).index,
                self.bodies.len() == n,
                n == old(self).bodies.len(),
                old(self).linked(),
                forall|j: int|
                    0 <= j < n ==> (#[trigger] old(self).bodies()[j]).acceleration.y >= i64::MIN - GRAVITY,
                0 <= i <= n,
                forall|j: int| 0 <= j < i ==> #[trigger] self.bodies@[j] == with_gravity(old(self).bodies@[j]),
                forall|j: int| i <= j < n ==> #[trigger] self.bodies@[j] == old(self).bodies@[j],
            decreases n - i,
        {
            let mut b = self.bodies[i];
            assert(old(self).bodies()[i as int].acceleration.y >= i64::MIN - GRAVITY);
            b.acceleration.y = b.acceleration.y + GRAVITY;
            self.bodies.set(i, b);
            i += 1;
        }
    }

    /// Advances every body by one Verlet step of `dt` microseconds and clears its
    /// acceleration.
    pub fn update_position(&mut self, dt: u64)
        requires
            old(self).linked(),
            dt <= MAX_SUB_DT,
            forall|i: int| 0 <= i < old(self).bodies().len() ==> moderate(#[trigger] old(self).bodies()[i]),
        ensures
            final(self).linked(),
            final(self).index_view() == old(self).index_view(),
            final(self).bodies().len() == old(self).bodies().len(),
            forall|i: int|
                0 <= i < old(self).bodies().len() ==> #[trigger] final(self).bodies()[i] == integrated(
                    old(self).bodies()[i],
                    dt as int,
                ),
    {
        let n = self.bodies.len();
        let mut i: usize = 0;
        while i < n
            invariant
                self.index == old(self).index,
                self.bodies.len() == n,
                n == old(self).bodies.len(),
                old(self).linked(),
                dt <= MAX_SUB_DT,
                forall|j: int| 0 <= j < n ==> moderate(#[trigger] old(self).bodies()[j]),
                0 <= i <= n,
                forall|j: int| 0 <= j < i ==> #[trigger] self.bodies@[j] == integrated(old(self).bodies@[j], dt as int),
                forall|j: int| i <= j < n ==> #[trigger] self.bodies@[j] == old(self).bodies@[j],
            decreases n - i,
        {
            let b = self.bodies[i];
            assert(moderate(old(self).bodies()[i as int]));
            let ddx = drift_of(b.acceleration.x, dt);
            let ddy = drift_of(b.acceleration.y, dt);
            let nb = Body {
                radius: b.radius,
                position_current: Vec2 {
                    x: 2 * b.position_current.x - b.position_old.x + ddx,
                    y: 2 * b.position_current.y - b.position_old.y + ddy,
                },
                position_old: b.position_current,
                acceleration: Vec2 { x: 0, y: 0 },
            };
            self.bodies.set(i, nb);
            i += 1;
        }
    }

    /// Moves every index entry to its body's current box.
    pub fn update_quadtree(&mut self)
        requires
            old(self).linked(),
            forall|i: int|
                0 <= i < old(self).bodies().len() ==> bounded(
                    #[trigger] old(self).bodies()[i],
                    WIDE_BOUND as int,
                ),
        ensures
            final(self).linked(),
            final(self).bodies() == old(self).bodies(),
            final(self).synced(),
    {
        let n = self.bodies.len();
        let mut i: usize = 0;
        while i < n
            invariant
                self.bodies == old(self).bodies,
                self.bodies.len() == n,
                self.linked(),
                forall|j: int|
                    0 <= j < n ==> bounded(#[trigger] old(self).bodies()[j], WIDE_BOUND as int),
                0 <= i <= n,
                forall|j: int|
                    0 <= j < i ==> #[trigger] self.index@[j] == (j as usize, index_box(self.bodies@[j])),
            decreases n - i,
        {
            let b = self.bodies[i];
            assert(bounded(old(self).bodies()[i as int], WIDE_BOUND as int));
            let rect = Rect::new_centered(b.position_current.x, b.position_current.y, b.radius);
            let ghost before = self.index@;
            self.index.move_entry(i, rect);
            assert forall|j: int| 0 <= j < n implies (#[trigger] self.index@[j]).0 == j by {
                assert(before[j].0 == j);
            }
            i += 1;
        }
    }

    /// Pushes every overlapping body away from the bodies it overlaps, all pushes computed
    /// from the positions before any is applied. Body `i` is pushed by the bodies whose
    /// index box the index reports as overlapping its own, each once, itself left out.
    pub fn solve_collisions(&mut self)
        requires
            old(self).linked(),
            old(self).synced(),
            forall|i: int|
                0 <= i < old(self).bodies().len() ==> bounded(
                    #[trigger] old(self).bodies()[i],
                    COORD_BOUND as int,
                ),
        ensures
            final(self).linked(),
            final(self).index_view() == old(self).index_view(),
            final(self).bodies().len() == old(self).bodies().len(),
            forall|i: int|
                0 <= i < old(self).bodies().len() ==> pushed_apart(
                    old(self).index_view(),
                    old(self).bodies(),
                    i,
                    #[trigger] final(self).bodies()[i],
                ),
            forall|i: int|
                0 <= i < old(self).bodies().len() ==> bounded(
                    #[trigger] final(self).bodies()[i],
                    SPREAD_BOUND as int,
                ),
    {
        let n = self.bodies.len();
        let ghost snap = self.bodies@;
        let ghost idx0 = self.index@;
        let mut moved: Vec<Vec2> = Vec::new();
        let ghost mut wit: Seq<Seq<usize>> = Seq::empty();
        let mut i: usize = 0;
        while i < n
            invariant
                self.bodies@ == snap,
                self.bodies.len() == n,
                self.index@ == idx0,
                self.linked(),
                idx0 == old(self).index_view(),
                snap == old(self).bodies(),
                old(self).synced(),
                forall|j: int| 0 <= j < n ==> bounded(#[trigger] snap[j], COORD_BOUND as int),
                0 <= i <= n,
                moved.len() == i,
                wit.len() == i,
                forall|k: int|
                    0 <= k < i ==> overlap_listing(idx0, index_box(snap[k]), #[trigger] wit[k])
                        && moved@[k] == resolved(snap, k, wit[k]).position_current
                        && -SPREAD_BOUND <= moved@[k].x <= SPREAD_BOUND
                        && -SPREAD_BOUND <= moved@[k].y <= SPREAD_BOUND,
            decreases n - i,
        {
            let b = self.bodies[i];
            assert(bounded(snap[i as int], COORD_BOUND as int));
            let q = Rect::new_centered(b.position_current.x, b.position_current.y, b.radius);
            assert(q == index_box(snap[i as int]));
            let cands = self.index.get_overlapped(&q);
            let ghost ids = choose|ids: Seq<usize>|
                overlap_listing(idx0, q, ids) && cands@ == ids.map_values(|h: usize| idx0[h as int].0);
            proof {
                assert(cands@ =~= ids) by {
                    assert forall|k: int| 0 <= k < ids.len() implies cands@[k] == ids[k] by {
                        assert(ids[k] < idx0.len());
                        assert(idx0[ids[k] as int].0 == ids[k]);
                    }
                }
                assert forall|k: int| 0 <= k < ids.len() implies #[trigger] ids[k] < n by {
                    assert(ids[k] < idx0.len());
                }
                lemma_unique_below(ids, n as int);
            }
            let m = cands.len();
            let mut sx: i64 = 0;
            let mut sy: i64 = 0;
            let mut k: usize = 0;
            while k < m
                invariant
                    self.bodies@ == snap,
                    self.bodies.len() == n,
                    n <= MAX_BODIES,
                    i < n,
                    b == snap[i as int],
                    forall|j: int| 0 <= j < n ==> bounded(#[trigger] snap[j], COORD_BOUND as int),
                    cands@ == ids,
                    m == ids.len(),
                    m <= n,
                    forall|t: int| 0 <= t < ids.len() ==> #[trigger] ids[t] < n,
                    0 <= k <= m,
                    sx == push_total(snap, i as int, ids.take(k as int)).0,
                    sy == push_total(snap, i as int, ids.take(k as int)).1,
                    -(k * 1_000_000_000) <= sx <= k * 1_000_000_000,
                    -(k * 1_000_000_000) <= sy <= k * 1_000_000_000,
                decreases m - k,
            {
                let j = cands[k];
                assert(ids.take(k + 1).drop_last() =~= ids.take(k as int));
                assert(ids.take(k + 1).last() == ids[k as int]);
                if j != i {
                    assert(j < n);
                    let p = push_of(&b, &self.bodies[j]);
                    sx = sx + p.0;
                    sy = sy + p.1;
                }
                k += 1;
            }
            assert(ids.take(m as int) =~= ids);
            assert(m * 1_000_000_000 <= 1_000_000_000_000_000) by (nonlinear_arith)
                requires
                    m <= 1_000_000,
            ;
            moved.push(
                Vec2 { x: b.position_current.x + sx, y: b.position_current.y + sy },
            );
            proof {
                let w0 = wit;
                wit = wit.push(ids);
                assert forall|t: int| 0 <= t < i + 1 implies overlap_listing(idx0, index_box(snap[t]), #[trigger] wit[t])
                    && moved@[t] == resolved(snap, t, wit[t]).position_current
                    && -SPREAD_BOUND <= moved@[t].x <= SPREAD_BOUND
                    && -SPREAD_BOUND <= moved@[t].y <= SPREAD_BOUND by {
                    if t < i {
                        assert(wit[t] == w0[t]);
                    } else {
                        assert(wit[t] == ids);
                    }
                }
            }
            i += 1;
        }
        let mut i: usize = 0;
        while i < n
            invariant
                self.bodies.len() == n,
                self.index@ == idx0,
                self.linked(),
                snap == old(self).bodies(),
                moved.len() == n,
                wit.len() == n,
                0 <= i <= n,
                forall|k: int| 0 <= k < i ==> #[trigger] self.bodies@[k] == resolved(snap, k, wit[k]),
                forall|k: int| i <= k < n ==> #[trigger] self.bodies@[k] == snap[k],
                forall|k: int|
                    0 <= k < n ==> moved@[k] == resolved(snap, k, #[trigger] wit[k]).position_current,
            decreases n - i,
        {
            let mut b = self.bodies[i];
            b.position_current = moved[i];
            self.bodies.set(i, b);
            i += 1;
        }
        proof {
            assert(old(self).bodies().len() == n);
            assert forall|i: int| 0 <= i < old(self).bodies().len() implies pushed_apart(
                old(self).index_view(),
                old(self).bodies(),
                i,
                #[trigger] self.bodies()[i],
            ) by {
                assert(overlap_listing(idx0, index_box(snap[i]), wit[i]));
                assert(self.bodies@[i] == resolved(snap, i, wit[i]));
            }
        }
    }

    /// Pushes every body back inside the arena along each axis where its circle pokes out.
    pub fn solve_constraints(&mut self)
        requires
            old(self).linked(),
            forall|i: int|
                0 <= i < old(self).bodies().len() ==> bounded(
                    #[trigger] old(self).bodies()[i],
                    WIDE_BOUND as int,
                ),
        ensures
            final(self).linked(),
            final(self).index_view() == old(self).index_view(),
            final(self).bodies().len() == old(self).bodies().len(),
            forall|i: int|
                0 <= i < old(self).bodies().len() ==> #[trigger] final(self).bodies()[i] == constrained(
                    old(self).bodies()[i],
                ),
            forall|i: int|
                0 <= i < old(self).bodies().len() ==> contained(#[trigger] final(self).bodies()[i]),
    {
        let n = self.bodies.len();
        let mut i: usize = 0;
        while i < n
            invariant
                self.index == old(self).index,
                self.bodies.len() == n,
                n == old(self).bodies.len(),
                old(self).linked(),
                forall|j: int|
                    0 <= j < n ==> bounded(#[trigger] old(self).bodies()[j], WIDE_BOUND as int),
                0 <= i <= n,
                forall|j: int| 0 <= j < i ==> #[trigger] self.bodies@[j] == constrained(old(self).bodies@[j]),
                forall|j: int| 0 <= j < i ==> contained(#[trigger] self.bodies@[j]),
                forall|j: int| i <= j < n ==> #[trigger] self.bodies@[j] == old(self).bodies@[j],
            decreases n - i,
        {
            let mut b = self.bodies[i];
            assert(bounded(old(self).bodies()[i as int], WIDE_BOUND as int));
            let r = b.radius;
            if b.position_current.x - r < ARENA_MIN_X {
                b.position_current.x = ARENA_MIN_X + r;
            }
            if b.position_current.x + r > ARENA_MAX_X {
                b.position_current.x = ARENA_MAX_X - r;
            }
            if b.position_current.y - r < ARENA_MIN_Y {
                b.position_current.y = ARENA_MIN_Y + r;
            }
            if b.position_current.y + r > ARENA_MAX_Y {
                b.position_current.y = ARENA_MAX_Y - r;
            }
            self.bodies.set(i, b);
            i += 1;
        }
    }

    /// One substep of `dt` microseconds: gravity, integration, index update, collisions,
    /// walls, in that order.
    pub fn substep(&mut self, dt: u64)
        requires
            old(self).well_formed(),
            dt <= MAX_SUB_DT,
        ensures
            final(self).well_formed(),
            substepped(old(self).bodies(), dt as int, final(self).bodies()),
            forall|i: int|
                0 <= i < old(self).bodies().len() ==> (#[trigger] final(self).bodies()[i]).radius
                    == old(self).bodies()[i].radius,
    {
        let ghost b0 = self.bodies();
        let ghost n = b0.len();
        self.apply_gravity();
        let ghost b1 = self.bodies();
        assert forall|i: int| 0 <= i < n implies moderate(#[trigger] self.bodies()[i]) by {
            assert(at_rest(b0[i]));
        }
        self.update_position(dt);
        let ghost b2 = self.bodies();
        assert forall|i: int| 0 <= i < n implies bounded(#[trigger] self.bodies()[i], COORD_BOUND as int)
            && in_arena(self.bodies()[i].position_old) && self.bodies()[i].radius == b0[i].radius
            && self.bodies()[i].acceleration == (Vec2 { x: 0, y: 0 }) by {
            assert(at_rest(b0[i]));
            assert(b1[i] == with_gravity(b0[i]));
            lemma_drift_bound(b1[i].acceleration.x as int, dt as int);
            lemma_drift_bound(b1[i].acceleration.y as int, dt as int);
        }
        self.update_quadtree();
        let ghost idx3 = self.index_view();
        let ghost b3 = self.bodies();
        self.solve_collisions();
        let ghost b4 = self.bodies();
        assert forall|i: int| 0 <= i < n implies bounded(#[trigger] self.bodies()[i], SPREAD_BOUND as int)
            && in_arena(self.bodies()[i].position_old) && self.bodies()[i].radius == b0[i].radius
            && self.bodies()[i].acceleration == (Vec2 { x: 0, y: 0 }) by {
            assert(pushed_apart(idx3, b3, i, self.bodies()[i]));
            let ids = choose|ids: Seq<usize>|
                overlap_listing(idx3, index_box(b3[i]), ids) && self.bodies()[i] == resolved(b3, i, ids);
        }
        self.solve_constraints();
        assert forall|i: int| 0 <= i < n implies at_rest(#[trigger] self.bodies()[i])
            && self.bodies()[i].radius == b0[i].radius by {
            assert(self.bodies()[i] == constrained(b4[i]));
        }
        assert(b3 =~= moved(b0, dt as int)) by {
            assert forall|i: int| 0 <= i < n implies b3[i] == moved(b0, dt as int)[i] by {
                assert(b1[i] == with_gravity(b0[i]));
            }
        }
        assert(idx3 =~= boxes(b3)) by {
            assert forall|i: int| 0 <= i < n implies idx3[i] == boxes(b3)[i] by {
                assert(idx3[i] == (i as usize, index_box(b3[i])));
            }
        }
        assert forall|i: int| 0 <= i < n implies body_substepped(
            b0,
            dt as int,
            i,
            #[trigger] self.bodies()[i],
        ) by {
            assert(pushed_apart(idx3, b3, i, b4[i]));
            assert(self.bodies()[i] == constrained(b4[i]));
        }
        assert(self.bodies().len() == n);
        assert(substepped(b0, dt as int, self.bodies()));
    }

    /// Advances the simulation by one frame of `frame_dt` microseconds, cut into `SUBSTEPS`
    /// equal substeps (the remainder of the division is dropped). Afterwards every body's
    /// circle lies inside the arena.
    pub fn step(&mut self, frame_dt: u64)
        requires
            old(self).well_formed(),
            frame_dt <= MAX_FRAME_DT,
        ensures
            final(self).well_formed(),
            final(self).bodies().len() == old(self).bodies().len(),
            forall|i: int|
                0 <= i < old(self).bodies().len() ==> (#[trigger] final(self).bodies()[i]).radius
                    == old(self).bodies()[i].radius,
            forall|i: int|
                0 <= i < old(self).bodies().len() ==> contained(#[trigger] final(self).bodies()[i]),
            substepped_n(
                old(self).bodies(),
                (frame_dt / SUBSTEPS) as int,
                SUBSTEPS as nat,
                final(self).bodies(),
            ),
    {
        let sub_dt = frame_dt / SUBSTEPS;
        let mut s: u64 = 0;
        while s < SUBSTEPS
            invariant
                self.well_formed(),
                sub_dt <= MAX_SUB_DT,
                self.bodies().len() == old(self).bodies().len(),
                forall|i: int|
                    0 <= i < old(self).bodies().len() ==> (#[trigger] self.bodies()[i]).radius
                        == old(self).bodies()[i].radius,
                s <= SUBSTEPS,
                sub_dt == frame_dt / SUBSTEPS,
                substepped_n(old(self).bodies(), sub_dt as int, s as nat, self.bodies()),
            decreases SUBSTEPS - s,
        {
            let ghost mid = self.bodies();
            self.substep(sub_dt);
            assert(substepped_n(old(self).bodies(), sub_dt as int, s as nat, mid)
                && substepped(mid, sub_dt as int, self.bodies()));
            let ghost k1 = (s + 1) as nat;
            assert((k1 - 1) as nat == s as nat);
            assert(substepped_n(old(self).bodies(), sub_dt as int, (k1 - 1) as nat, mid));
            assert(substepped_n(old(self).bodies(), sub_dt as int, k1, self.bodies()));
            s += 1;
        }
        assert forall|i: int| 0 <= i < old(self).bodies().len() implies contained(
            #[trigger] self.bodies()[i],
        ) by {
            assert(at_rest(self.bodies()[i]));
        }
    }
}

} // verus!