use vstd::prelude::*;
use crate::geom::Vec2;
use crate::quadtree::NodeInfo;
use crate::solver::{ARENA_MAX_X, ARENA_MAX_Y, ARENA_MIN_X, ARENA_MIN_Y, trunc_div};

verus! {

/// A line segment between two points.
pub type Segment = (Vec2, Vec2);

/// The four sides of the arena.
pub open spec fn arena_outline() -> Seq<Segment> {
    let a = Vec2 { x: ARENA_MIN_X, y: ARENA_MIN_Y };
    let b = Vec2 { x: ARENA_MAX_X, y: ARENA_MIN_Y };
    let c = Vec2 { x: ARENA_MIN_X, y: ARENA_MAX_Y };
    let d = Vec2 { x: ARENA_MAX_X, y: ARENA_MAX_Y };
    seq![(a, b), (a, c), (b, d), (c, d)]
}

/// The point halfway from `lo` to `hi`, rounded toward `lo`.
pub open spec fn midpoint(lo: i64, hi: i64) -> i64 {
    (lo + trunc_div(hi - lo, 2)) as i64
}

/// The lines that split an inner node into its four children: the vertical one, then the
/// horizontal one. A leaf has none.
pub open spec fn split_lines(n: NodeInfo) -> Seq<Segment> {
    let r = n.region;
    let mx = midpoint(r.min_x, r.max_x);
    let my = midpoint(r.min_y, r.max_y);
    if n.is_leaf {
        seq![]
    } else {
        seq![
            (Vec2 { x: mx, y: r.min_y }, Vec2 { x: mx, y: r.max_y }),
            (Vec2 { x: r.min_x, y: my }, Vec2 { x: r.max_x, y: my }),
        ]
    }
}

/// The arena's outline followed by the split lines of the nodes, in node order.
pub open spec fn mesh_lines(nodes: Seq<NodeInfo>) -> Seq<Segment>
    decreases nodes.len(),
{
    if nodes.len() == 0 {
        arena_outline()
    } else {
        mesh_lines(nodes.drop_last()) + split_lines(nodes.last())
    }
}

fn midpoint_of(lo: i64, hi: i64) -> (r: i64)
    ensures
        r == midpoint(lo, hi),
{
    let d: i128 = hi as i128 - lo as i128;
    let h: i128 = if d >= 0 {
        d / 2
    } else {
        -((-d) / 2)
    };
    (lo as i128 + h) as i64
}

/// Segments to draw for the spatial index: the arena's outline, then the lines that split
/// each inner node.
pub fn quadtree_mesh_lines(nodes: &Vec<NodeInfo>) -> (r: Vec<Segment>)
    ensures
        r@ == mesh_lines(nodes@),
{
    let a = Vec2 { x: ARENA_MIN_X, y: ARENA_MIN_Y };
    let b = Vec2 { x: ARENA_MAX_X, y: ARENA_MIN_Y };
    let c = Vec2 { x: ARENA_MIN_X, y: ARENA_MAX_Y };
    let d = Vec2 { x: ARENA_MAX_X, y: ARENA_MAX_Y };
    let mut r: Vec<Segment> = vec![(a, b), (a, c), (b, d), (c, d)];
    assert(r@ =~= mesh_lines(nodes@.take(0)));
    let mut k: usize = 0;
    while k < nodes.len()
        invariant
            0 <= k <= nodes.len(),
            r@ == mesh_lines(nodes@.take(k as int)),
        decreases nodes.len() - k,
    {
        let n = nodes[k];
        assert(nodes@.take(k + 1).drop_last() =~= nodes@.take(k as int));
        assert(nodes@.take(k + 1).last() == n);
        if !n.is_leaf {
            let mx = midpoint_of(n.region.min_x, n.region.max_x);
            let my = midpoint_of(n.region.min_y, n.region.max_y);
            r.push((Vec2 { x: mx, y: n.region.min_y }, Vec2 { x: mx, y: n.region.max_y }));
            r.push((Vec2 { x: n.region.min_x, y: my }, Vec2 { x: n.region.max_x, y: my }));
        }
        assert(r@ =~= mesh_lines(nodes@.take(k as int)) + split_lines(n));
        k += 1;
    }
    assert(nodes@.take(nodes.len() as int) =~= nodes@);
    r
}

} // verus!
