use verlet_balls::geom::{Rect, Vec2};
use verlet_balls::overlay::quadtree_mesh_lines;
use verlet_balls::quadtree::{NodeInfo, Quadtree, INNER_NODES};
use verlet_balls::solver::{ARENA_MAX_X, ARENA_MAX_Y, ARENA_MIN_X, ARENA_MIN_Y};

fn p(x: i64, y: i64) -> Vec2 {
    Vec2 { x, y }
}

#[test]
fn no_nodes_gives_the_arena_outline() {
    let lines = quadtree_mesh_lines(&Vec::new());
    assert_eq!(
        lines,
        vec![
            (p(ARENA_MIN_X, ARENA_MIN_Y), p(ARENA_MAX_X, ARENA_MIN_Y)),
            (p(ARENA_MIN_X, ARENA_MIN_Y), p(ARENA_MIN_X, ARENA_MAX_Y)),
            (p(ARENA_MAX_X, ARENA_MIN_Y), p(ARENA_MAX_X, ARENA_MAX_Y)),
            (p(ARENA_MIN_X, ARENA_MAX_Y), p(ARENA_MAX_X, ARENA_MAX_Y)),
        ]
    );
}

#[test]
fn inner_node_is_split_at_its_middle() {
    let inner = NodeInfo { region: Rect { min_x: 0, min_y: 0, max_x: 10, max_y: 21 }, is_leaf: false };
    let leaf = NodeInfo { region: Rect { min_x: 0, min_y: 0, max_x: 5, max_y: 5 }, is_leaf: true };
    let lines = quadtree_mesh_lines(&vec![leaf, inner, leaf]);
    assert_eq!(lines.len(), 6);
    assert_eq!(lines[4], (p(5, 0), p(5, 21)));
    assert_eq!(lines[5], (p(0, 10), p(10, 10)));
}

#[test]
fn tree_lines_count_two_per_inner_node() {
    let t = Quadtree::new(Rect { min_x: -100, min_y: -100, max_x: 100, max_y: 100 });
    let lines = quadtree_mesh_lines(&t.nodes());
    assert_eq!(lines.len(), 4 + 2 * INNER_NODES);
    assert_eq!(lines[4], (p(0, -100), p(0, 100)));
    assert_eq!(lines[5], (p(-100, 0), p(100, 0)));
}
