use verlet_balls::geom::{floor_sqrt, Rect};
use verlet_balls::quadtree::{Quadtree, INNER_NODES, NODE_COUNT};

fn root() -> Rect {
    Rect { min_x: -950, min_y: -550, max_x: 950, max_y: 550 }
}

fn rect(min_x: i64, min_y: i64, max_x: i64, max_y: i64) -> Rect {
    Rect { min_x, min_y, max_x, max_y }
}

struct Lcg(u64);

impl Lcg {
    fn next(&mut self) -> u64 {
        self.0 = self.0.wrapping_mul(6364136223846793005).wrapping_add(1442695040888963407);
        self.0 >> 33
    }

    fn range(&mut self, lo: i64, hi: i64) -> i64 {
        lo + (self.next() % ((hi - lo) as u64)) as i64
    }
}

fn sorted(mut v: Vec<usize>) -> Vec<usize> {
    v.sort();
    v
}

#[test]
fn overlaps_is_closed_on_both_axes() {
    let a = rect(0, 0, 10, 10);
    assert!(a.overlaps(&rect(10, 10, 20, 20)));
    assert!(!a.overlaps(&rect(11, 0, 20, 10)));
    assert!(!a.overlaps(&rect(0, 11, 10, 20)));
    assert!(a.overlaps(&rect(-5, -5, 0, 0)));
    assert!(a.overlaps(&rect(2, 2, 3, 3)));
}

#[test]
fn new_centered_spans_twice_the_half_side() {
    assert_eq!(Rect::new_centered(5, -3, 2), rect(3, -5, 7, -1));
}

#[test]
fn floor_sqrt_exact_values() {
    assert_eq!(floor_sqrt(0), 0);
    assert_eq!(floor_sqrt(1), 1);
    assert_eq!(floor_sqrt(15), 3);
    assert_eq!(floor_sqrt(16), 4);
    assert_eq!(floor_sqrt(17), 4);
    assert_eq!(floor_sqrt(225_000_000_000_000), 15_000_000);
    assert_eq!(floor_sqrt(u128::MAX), u64::MAX);
}

#[test]
fn insert_returns_consecutive_ids() {
    let mut t = Quadtree::new(root());
    assert_eq!(t.insert(7, rect(0, 0, 1, 1)), 0);
    assert_eq!(t.insert(9, rect(5, 5, 6, 6)), 1);
    assert_eq!(t.len(), 2);
    assert_eq!(t.value(1), 9);
    assert_eq!(t.region(1), rect(5, 5, 6, 6));
    assert_eq!(t.entries(), vec![(7, rect(0, 0, 1, 1)), (9, rect(5, 5, 6, 6))]);
}

#[test]
fn query_matches_brute_force() {
    let mut g = Lcg(42);
    let mut t = Quadtree::new(root());
    let mut rects = Vec::new();
    for h in 0..400usize {
        let x = g.range(-1000, 1000);
        let y = g.range(-600, 600);
        let w = g.range(0, 60);
        let hgt = g.range(0, 60);
        let r = rect(x, y, x + w, y + hgt);
        t.insert(h, r);
        rects.push(r);
    }
    for _ in 0..200 {
        let x = g.range(-1100, 1100);
        let y = g.range(-700, 700);
        let q = rect(x, y, x + g.range(0, 300), y + g.range(0, 300));
        let expected: Vec<usize> = (0..rects.len()).filter(|&i| rects[i].overlaps(&q)).collect();
        let got = t.get_overlapped(&q);
        let n = got.len();
        let got = sorted(got);
        assert_eq!(got, expected);
        assert_eq!(n, expected.len());
    }
}

#[test]
fn moved_entry_matches_its_own_rectangle() {
    let mut t = Quadtree::new(root());
    for h in 0..20usize {
        t.insert(h, rect(h as i64 * 10, 0, h as i64 * 10 + 5, 5));
    }
    let r = rect(-400, 300, -390, 310);
    t.move_entry(3, r);
    assert!(t.get_overlapped(&r).contains(&3));
    assert!(!t.get_overlapped(&rect(30, 0, 35, 5)).contains(&3));
    assert_eq!(t.region(3), r);
}

#[test]
fn moving_back_and_forth_keeps_every_entry_findable() {
    let mut g = Lcg(7);
    let mut t = Quadtree::new(root());
    let mut rects = Vec::new();
    for h in 0..100usize {
        let r = rect(0, 0, 10, 10);
        t.insert(h, r);
        rects.push(r);
    }
    for _ in 0..500 {
        let id = (g.next() % 100) as usize;
        let x = g.range(-1200, 1200);
        let y = g.range(-800, 800);
        let r = rect(x, y, x + g.range(0, 40), y + g.range(0, 40));
        t.move_entry(id, r);
        rects[id] = r;
    }
    let all = sorted(t.get_overlapped(&rect(-2000, -2000, 2000, 2000)));
    assert_eq!(all, (0..100).collect::<Vec<usize>>());
    for (i, r) in rects.iter().enumerate() {
        assert!(t.get_overlapped(r).contains(&i));
    }
}

#[test]
fn entries_outside_the_root_are_kept() {
    let mut t = Quadtree::new(root());
    t.insert(0, rect(5000, 5000, 5010, 5010));
    t.insert(1, rect(-900, -500, 900, 500));
    assert_eq!(sorted(t.get_overlapped(&rect(5005, 5005, 5006, 5006))), vec![0]);
    assert_eq!(sorted(t.get_overlapped(&rect(0, 0, 0, 0))), vec![1]);
}

#[test]
fn inverted_query_finds_nothing() {
    let mut t = Quadtree::new(root());
    t.insert(0, rect(3, 3, 4, 4));
    assert!(t.get_overlapped(&rect(8, 8, 2, 2)).is_empty());
    assert_eq!(t.get_overlapped(&rect(2, 2, 8, 8)), vec![0]);
}

#[test]
fn empty_tree_query_is_empty() {
    let mut t = Quadtree::new(root());
    assert!(t.get_overlapped(&root()).is_empty());
}

#[test]
fn nodes_cover_every_level() {
    let t = Quadtree::new(root());
    let nodes = t.nodes();
    assert_eq!(nodes.len(), NODE_COUNT);
    assert_eq!(nodes.iter().filter(|n| n.is_leaf).count(), NODE_COUNT - INNER_NODES);
    assert_eq!(nodes[0].region, root());
    assert_eq!(nodes[1].region, rect(-950, -550, 0, 0));
    assert_eq!(nodes[4].region, rect(0, 0, 950, 550));
    assert!(!nodes[INNER_NODES - 1].is_leaf);
    assert!(nodes[INNER_NODES].is_leaf);
}
