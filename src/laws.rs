use vstd::prelude::*;
use crate::geom::{Vec2, Rect, overlaps};
use crate::quadtree::overlap_listing;
use crate::solver::{
    Body, GRAVITY, MAX_SUB_DT, drift, integrated, lemma_sqrt_unique, push, with_gravity,
    push_total, resolved, pushed_apart, boxes, moved, constrained, contained, substepped,
    body_substepped, substepped_n, bounded, index_box, COORD_BOUND,
};

verus! {

/// The entries whose rectangle overlaps `q`, found by testing each one.
pub open spec fn brute_force_overlaps(v: Seq<(usize, Rect)>, q: Rect) -> Set<usize> {
    Set::new(|i: usize| i < v.len() && overlaps(v[i as int].1, q))
}

/// A query's listing agrees with testing every entry: it holds exactly the entries that
/// overlap the query, and as many as there are of them.
pub proof fn lemma_listing_is_brute_force(v: Seq<(usize, Rect)>, q: Rect, ids: Seq<usize>)
    requires
        overlap_listing(v, q, ids),
    ensures
        ids.to_set() == brute_force_overlaps(v, q),
        ids.len() == brute_force_overlaps(v, q).len(),
{
    assert forall|i: usize| ids.to_set().contains(i) <==> brute_force_overlaps(v, q).contains(i) by {
        if ids.to_set().contains(i) {
            let k = choose|k: int| 0 <= k < ids.len() && ids[k] == i;
            assert(ids[k] < v.len() && overlaps(v[ids[k] as int].1, q));
        }
        if brute_force_overlaps(v, q).contains(i) {
            assert(overlaps(v[i as int].1, q));
            assert(ids.contains(i));
        }
    }
    assert(ids.to_set() =~= brute_force_overlaps(v, q));
    ids.unique_seq_to_set();
}

/// After `move_entry(id, r)` the index holds `r` for entry `id`; a query with `r` then
/// lists `id`, since a rectangle whose corners are in order overlaps itself.
pub proof fn lemma_moved_entry_found(
    v: Seq<(usize, Rect)>,
    id: int,
    handle: usize,
    r: Rect,
    ids: Seq<usize>,
)
    requires
        0 <= id < v.len(),
        r.min_x <= r.max_x,
        r.min_y <= r.max_y,
        overlap_listing(v.update(id, (handle, r)), r, ids),
    ensures
        ids.contains(id as usize),
{
    let w = v.update(id, (handle, r));
    assert(w[id].1 == r);
    assert(overlaps(w[id].1, r));
}

/// `body` after `n` substeps of `dt` microseconds with gravity as the only force: gravity is
/// added, then the body is integrated, `n` times.
pub open spec fn free_fall(body: Body, dt: int, n: nat) -> Body
    decreases n,
{
    if n == 0 {
        body
    } else {
        integrated(with_gravity(free_fall(body, dt, (n - 1) as nat)), dt)
    }
}

/// `0 + 1 + ... + n`.
pub open spec fn triangle(n: nat) -> nat
    decreases n,
{
    if n == 0 {
        0
    } else {
        triangle((n - 1) as nat) + n
    }
}

proof fn lemma_triangle(n: nat)
    ensures
        2 * triangle(n) == n * (n + 1),
        n <= 1000 ==> triangle(n) <= 500_500,
    decreases n,
{
    if n > 0 {
        lemma_triangle((n - 1) as nat);
        assert(n * (n + 1) == (n - 1) * n + 2 * n) by (nonlinear_arith);
        if n <= 1000 {
            assert(n * (n + 1) <= 1_001_000) by (nonlinear_arith)
                requires
                    n <= 1000,
            ;
        }
    }
}

/// A body at rest under gravity alone falls by the closed form of the Verlet recurrence:
/// after `n` substeps its height has changed by `c * n * (n + 1) / 2`, where `c` is the
/// distance that gravity adds in one substep, and it has not moved sideways.
pub proof fn lemma_free_fall(body: Body, dt: int, n: nat)
    requires
        body.position_old == body.position_current,
        body.acceleration == (Vec2 { x: 0, y: 0 }),
        -1_000_000_000 <= body.position_current.x <= 1_000_000_000,
        -1_000_000_000 <= body.position_current.y <= 1_000_000_000,
        0 <= dt <= MAX_SUB_DT,
        n <= 1000,
    ensures
        free_fall(body, dt, n).position_current.x == body.position_current.x,
        free_fall(body, dt, n).position_current.y == body.position_current.y + drift(
            GRAVITY as int,
            dt,
        ) * (n * (n + 1) / 2),
    decreases n,
{
    lemma_free_fall_steps(body, dt, n);
    lemma_triangle(n);
}

proof fn lemma_free_fall_steps(body: Body, dt: int, n: nat)
    requires
        body.position_old == body.position_current,
        body.acceleration == (Vec2 { x: 0, y: 0 }),
        -1_000_000_000 <= body.position_current.x <= 1_000_000_000,
        -1_000_000_000 <= body.position_current.y <= 1_000_000_000,
        0 <= dt <= MAX_SUB_DT,
        n <= 1000,
    ensures
        free_fall(body, dt, n).position_current.x == body.position_current.x,
        free_fall(body, dt, n).position_old.x == body.position_current.x,
        free_fall(body, dt, n).position_current.y == body.position_current.y + drift(GRAVITY as int, dt)
            * triangle(n),
        free_fall(body, dt, n).position_old.y == body.position_current.y + drift(GRAVITY as int, dt)
            * (triangle(n) - n),
        free_fall(body, dt, n).acceleration == (Vec2 { x: 0, y: 0 }),
        free_fall(body, dt, n).radius == body.radius,
    decreases n,
{
    let c = drift(GRAVITY as int, dt);
    let y0 = body.position_current.y as int;
    if n > 0 {
        let m = (n - 1) as nat;
        lemma_free_fall_steps(body, dt, m);
        lemma_triangle(m);
        lemma_drift_gravity(dt);
        assert(drift(0, dt) == 0);
        let t = triangle(m);
        assert(c * (t + n) == c * t + c * n) by (nonlinear_arith);
        assert(c * (t - m) == c * t - c * m) by (nonlinear_arith);
        assert(c * n == c * m + c) by (nonlinear_arith)
            requires
                n == m + 1,
        ;
        let prev = free_fall(body, dt, m);
        let g = with_gravity(prev);
        assert(g.acceleration.y == GRAVITY);
        assert(free_fall(body, dt, n) == integrated(g, dt));
        assert(triangle(n) == t + n);
        assert(-2_002_002_000_000_000 <= c * t <= 2_002_002_000_000_000) by (nonlinear_arith)
            requires
                -4_000_000_000 <= c <= 4_000_000_000,
                0 <= t <= 500_500,
        ;
        assert(-4_000_000_000_000 <= c * n <= 4_000_000_000_000) by (nonlinear_arith)
            requires
                -4_000_000_000 <= c <= 4_000_000_000,
                0 <= n <= 1000,
        ;
        assert(-4_000_000_000_000 <= c * m <= 4_000_000_000_000) by (nonlinear_arith)
            requires
                -4_000_000_000 <= c <= 4_000_000_000,
                0 <= m <= 1000,
        ;
    }
}

proof fn lemma_drift_gravity(dt: int)
    requires
        0 <= dt <= MAX_SUB_DT,
    ensures
        -4_000_000_000 <= drift(GRAVITY as int, dt) <= 0,
{
    let p = GRAVITY * dt * dt;
    assert(-4_000_000_000_000_000_000_000 <= p <= 0) by (nonlinear_arith)
        requires
            p == -1_000_000_000 * dt * dt,
            0 <= dt <= 2_000_000,
    ;
    vstd::arithmetic::div_mod::lemma_div_is_ordered(0, -p, 1_000_000_000_000);
    vstd::arithmetic::div_mod::lemma_div_is_ordered(-p, 4_000_000_000_000_000_000_000, 1_000_000_000_000);
}

/// Two bodies whose centres coincide are pushed apart along the fixed fallback
/// direction, by half the sum of their radii, rather than along an undefined one.
pub proof fn lemma_coincident_push(a: Body, b: Body)
    requires
        a.position_current == b.position_current,
        0 < a.radius,
        0 < b.radius,
    ensures
        push(a, b) == (-((a.radius + b.radius) / 2), 0int),
{
    assert(crate::geom::is_floor_sqrt(0, 0));
    lemma_sqrt_unique(0, 0);
    assert((a.radius + b.radius) * (a.radius + b.radius) > 0) by (nonlinear_arith)
        requires
            a.radius + b.radius > 0,
    ;
}

proof fn lemma_no_push_from_itself(bs: Seq<Body>, i: int, ids: Seq<usize>)
    requires
        forall|k: int| 0 <= k < ids.len() ==> #[trigger] ids[k] as int == i,
    ensures
        push_total(bs, i, ids) == (0int, 0int),
    decreases ids.len(),
{
    if ids.len() > 0 {
        let rest = ids.drop_last();
        assert forall|k: int| 0 <= k < rest.len() implies #[trigger] rest[k] as int == i by {
            assert(rest[k] == ids[k]);
        }
        lemma_no_push_from_itself(bs, i, rest);
        assert(ids.last() == ids[ids.len() - 1]);
    }
}

/// A lone body is pushed by nothing: within one substep it is only integrated, and then
/// held by the walls.
pub proof fn lemma_lone_body_substep(b: Body, dt: int, after: Seq<Body>)
    requires
        substepped(seq![b], dt, after),
    ensures
        after.len() == 1,
        after[0] == constrained(integrated(with_gravity(b), dt)),
{
    let bs = seq![b];
    let m = moved(bs, dt);
    assert(body_substepped(bs, dt, 0, after[0]));
    let c = choose|c: Body| #[trigger] pushed_apart(boxes(m), m, 0, c) && after[0] == constrained(c);
    let ids = choose|ids: Seq<usize>|
        #[trigger] crate::quadtree::overlap_listing(boxes(m), crate::solver::index_box(m[0]), ids)
            && c == resolved(m, 0, ids);
    assert forall|k: int| 0 <= k < ids.len() implies #[trigger] ids[k] as int == 0 by {
        assert(ids[k] < boxes(m).len());
    }
    lemma_no_push_from_itself(m, 0, ids);
    assert(m[0] == integrated(with_gravity(b), dt));
    assert(c == m[0]);
}

/// Whatever the walls do not touch, a lone body under the frame step moves exactly as in
/// free fall: after `n` substeps it is `free_fall(body, dt, n)`, provided every position
/// of that fall lies inside the arena.
pub proof fn lemma_lone_body_falls_freely(body: Body, dt: int, n: nat, after: Seq<Body>)
    requires
        substepped_n(seq![body], dt, n, after),
        forall|k: nat| 1 <= k <= n ==> contained(#[trigger] free_fall(body, dt, k)),
    ensures
        after == seq![free_fall(body, dt, n)],
    decreases n,
{
    if n == 0 {
        assert(after =~= seq![free_fall(body, dt, 0)]);
    } else {
        let m = (n - 1) as nat;
        let mid = choose|mid: Seq<Body>|
            substepped_n(seq![body], dt, m, mid) && #[trigger] substepped(mid, dt, after);
        lemma_lone_body_falls_freely(body, dt, m, mid);
        assert(mid =~= seq![free_fall(body, dt, m)]);
        lemma_lone_body_substep(free_fall(body, dt, m), dt, after);
        let f = free_fall(body, dt, n);
        assert(f == integrated(with_gravity(free_fall(body, dt, m)), dt));
        assert(contained(f));
        assert(constrained(f) == f);
        assert(after =~= seq![f]);
    }
}

/// The broad phase misses no collision: when the circles of bodies `i` and `j` overlap,
/// the listing of the entries that meet body `i`'s index box holds `j`, so the collision
/// pass sees every pair that an all-pairs test would push apart.
pub proof fn lemma_colliding_pair_listed(bs: Seq<Body>, i: int, j: int, ids: Seq<usize>)
    requires
        0 <= i < bs.len(),
        0 <= j < bs.len(),
        bounded(bs[i], COORD_BOUND as int),
        bounded(bs[j], COORD_BOUND as int),
        overlap_listing(boxes(bs), index_box(bs[i]), ids),
        ({
            let dx = bs[j].position_current.x - bs[i].position_current.x;
            let dy = bs[j].position_current.y - bs[i].position_current.y;
            let reach = bs[i].radius + bs[j].radius;
            dx * dx + dy * dy < reach * reach
        }),
    ensures
        ids.contains(j as usize),
{
    let dx = bs[j].position_current.x - bs[i].position_current.x;
    let dy = bs[j].position_current.y - bs[i].position_current.y;
    let reach = bs[i].radius + bs[j].radius;
    assert(-reach < dx < reach && -reach < dy < reach) by (nonlinear_arith)
        requires
            dx * dx + dy * dy < reach * reach,
            reach > 0,
    ;
    let bx = boxes(bs);
    assert(bx[j].1 == index_box(bs[j]));
    assert(overlaps(bx[j].1, index_box(bs[i])));
}

} // verus!
