use vstd::prelude::*;
use vstd::arithmetic::div_mod::lemma_div_is_ordered;
use vstd::arithmetic::mul::lemma_mul_inequality;
use crate::geom::{Rect, overlaps};

verus! {

/// Deepest level of the tree; the root is level 0.
pub const MAX_DEPTH: usize = 5;

/// Cells per side at the deepest level.
const GRID: usize = 32;

/// Node slots reserved per level (`GRID * GRID`).
const LEVEL_SLOTS: usize = 1024;

/// Node slots in all (`(MAX_DEPTH + 1) * LEVEL_SLOTS`).
const NODE_SLOTS: usize = 6144;

/// Number of cells per side at level `d`.
pub open spec fn side(d: int) -> int {
    if d <= 0 {
        1
    } else if d == 1 {
        2
    } else if d == 2 {
        4
    } else if d == 3 {
        8
    } else if d == 4 {
        16
    } else {
        32
    }
}

/// Column (or row) of the cell holding coordinate `x` on an axis from `lo` of length `ext`,
/// cut into `side` cells; coordinates outside the axis fall into the nearest end cell.
pub open spec fn cell(lo: int, ext: int, side: int, x: int) -> int {
    if x < lo {
        0
    } else if (x - lo) * side / ext >= side - 1 {
        side - 1
    } else {
        (x - lo) * side / ext
    }
}

/// Number of nodes over all levels.
pub const NODE_COUNT: usize = 1365;

/// Number of nodes above the deepest level.
pub const INNER_NODES: usize = 341;

/// Level of node `k`, nodes being numbered level by level from the root.
pub open spec fn level_of(k: int) -> int {
    if k < 1 {
        0
    } else if k < 5 {
        1
    } else if k < 21 {
        2
    } else if k < 85 {
        3
    } else if k < 341 {
        4
    } else {
        5
    }
}

/// The point `k / side` of the way from `lo` to `hi`, rounded toward `lo`.
pub open spec fn axis_at(lo: i64, hi: i64, side: int, k: int) -> i64 {
    (lo + (hi - lo) * k / side) as i64
}

/// The cell covered by node `k` of a tree over `root`: on its level, nodes are numbered
/// row by row from the lower left, each row holding `side` nodes.
pub open spec fn node_region(root: Rect, k: int) -> Rect {
    let d = level_of(k);
    let j = k - level_start(d);
    let ix = j % side(d);
    let iy = j / side(d);
    Rect {
        min_x: axis_at(root.min_x, root.max_x, side(d), ix),
        min_y: axis_at(root.min_y, root.max_y, side(d), iy),
        max_x: axis_at(root.min_x, root.max_x, side(d), ix + 1),
        max_y: axis_at(root.min_y, root.max_y, side(d), iy + 1),
    }
}

/// Number of nodes above level `d`.
pub open spec fn level_start(d: int) -> int {
    if d <= 0 {
        0
    } else if d == 1 {
        1
    } else if d == 2 {
        5
    } else if d == 3 {
        21
    } else if d == 4 {
        85
    } else if d == 5 {
        341
    } else {
        1365
    }
}

/// Flat index of the node in column `ix`, row `iy` of level `d`.
spec fn slot(d: int, ix: int, iy: int) -> int {
    d * LEVEL_SLOTS + iy * GRID + ix
}

proof fn lemma_cell_range(lo: int, ext: int, side: int, x: int)
    requires
        ext > 0,
        side > 0,
    ensures
        0 <= cell(lo, ext, side, x) < side,
{
    if x >= lo {
        assert((x - lo) * side >= 0) by (nonlinear_arith)
            requires
                x >= lo,
                side > 0,
        ;
        lemma_div_is_ordered(0, (x - lo) * side, ext);
    }
}

proof fn lemma_cell_monotone(lo: int, ext: int, side: int, x: int, y: int)
    requires
        ext > 0,
        side > 0,
        x <= y,
    ensures
        cell(lo, ext, side, x) <= cell(lo, ext, side, y),
{
    lemma_cell_range(lo, ext, side, x);
    lemma_cell_range(lo, ext, side, y);
    if x >= lo {
        lemma_mul_inequality(x - lo, y - lo, side);
        lemma_div_is_ordered((x - lo) * side, (y - lo) * side, ext);
    }
}

fn side_of(d: usize) -> (r: i64)
    requires
        d <= MAX_DEPTH,
    ensures
        r == side(d as int),
{
    if d == 0 {
        1
    } else if d == 1 {
        2
    } else if d == 2 {
        4
    } else if d == 3 {
        8
    } else if d == 4 {
        16
    } else {
        32
    }
}

fn cell_of(lo: i64, hi: i64, side: i64, x: i64) -> (r: usize)
    requires
        lo < hi,
        1 <= side <= 32,
    ensures
        r == cell(lo as int, hi - lo, side as int, x as int),
        r < side,
{
    proof {
        lemma_cell_range(lo as int, hi - lo, side as int, x as int);
    }
    if x < lo {
        0
    } else {
        let ext: i128 = hi as i128 - lo as i128;
        let off: i128 = x as i128 - lo as i128;
        assert(0 <= off * side as i128 <= 0x1_0000_0000_0000_0000i128 * 32) by (nonlinear_arith)
            requires
                0 <= off <= 0x1_0000_0000_0000_0000i128,
                1 <= side <= 32,
        ;
        let v: i128 = off * side as i128 / ext;
        if v >= side as i128 - 1 {
            (side - 1) as usize
        } else {
            v as usize
        }
    }
}

/// What the tree stores of one entry: the caller's handle, its rectangle, and the level of
/// the node it is bucketed in.
struct Entry {
    handle: usize,
    rect: Rect,
    depth: usize,
}

/// Boundary and kind of one node of the tree.
#[derive(Clone, Copy, Debug, PartialEq, Eq, Structural)]
pub struct NodeInfo {
    pub region: Rect,
    pub is_leaf: bool,
}

/// A region quadtree of bounded depth, mapping entry ids to a handle and a rectangle.
///
/// Every node of every level exists; an entry sits in the deepest node whose cell holds
/// its whole rectangle, or in the root when none does.
pub struct Quadtree {
    region: Rect,
    entries: Vec<Entry>,
    buckets: Vec<Vec<usize>>,
    stamps: Vec<u64>,
    stamp: u64,
}

/// `ids` lists, once each, exactly the entries of `v` whose rectangle overlaps `q`.
pub open spec fn overlap_listing(v: Seq<(usize, Rect)>, q: Rect, ids: Seq<usize>) -> bool {
    &&& ids.no_duplicates()
    &&& forall|k: int| 0 <= k < ids.len() ==> #[trigger] ids[k] < v.len() && overlaps(v[ids[k] as int].1, q)
    &&& forall|i: int| 0 <= i < v.len() && #[trigger] overlaps(v[i].1, q) ==> ids.contains(i as usize)
}

impl View for Quadtree {
    type V = Seq<(usize, Rect)>;

    closed spec fn view(&self) -> Seq<(usize, Rect)> {
        self.entries@.map_values(|e: Entry| (e.handle, e.rect))
    }
}

impl Quadtree {
    /// The root region.
    pub closed spec fn root(&self) -> Rect {
        self.region
    }

    spec fn cx(&self, d: int, x: int) -> int {
        cell(self.region.min_x as int, self.region.max_x - self.region.min_x, side(d), x)
    }

    spec fn cy(&self, d: int, y: int) -> int {
        cell(self.region.min_y as int, self.region.max_y - self.region.min_y, side(d), y)
    }

    spec fn fits(&self, d: int, r: Rect) -> bool {
        &&& self.cx(d, r.min_x as int) == self.cx(d, r.max_x as int)
        &&& self.cy(d, r.min_y as int) == self.cy(d, r.max_y as int)
    }

    spec fn slot_of(&self, e: Entry) -> int {
        slot(e.depth as int, self.cx(e.depth as int, e.rect.min_x as int), self.cy(e.depth as int, e.rect.min_y as int))
    }

    spec fn region_ok(&self) -> bool {
        &&& self.region.min_x < self.region.max_x
        &&& self.region.min_y < self.region.max_y
    }

    /// The tree's internal bookkeeping is consistent.
    pub closed spec fn well_formed(&self) -> bool {
        &&& self.region_ok()
        &&& self.buckets.len() == NODE_SLOTS
        &&& self.stamps.len() == self.entries.len()
        &&& forall|i: int| 0 <= i < self.entries.len() ==> {
            let e = #[trigger] self.entries@[i];
            &&& e.depth <= MAX_DEPTH
            &&& self.fits(e.depth as int, e.rect)
            &&& self.buckets@[self.slot_of(e)]@.contains(i as usize)
        }
        &&& forall|s: int, k: int| 0 <= s < NODE_SLOTS && 0 <= k < self.buckets@[s].len()
            ==> #[trigger] self.buckets@[s]@[k] < self.entries.len()
        &&& forall|i: int| 0 <= i < self.stamps.len() ==> #[trigger] self.stamps@[i] <= self.stamp
    }

    /// An empty tree covering `region`.
    pub fn new(region: Rect) -> (r: Quadtree)
        requires
            region.min_x < region.max_x,
            region.min_y < region.max_y,
        ensures
            r.well_formed(),
            r@ == Seq::<(usize, Rect)>::empty(),
            r.root() == region,
    {
        let mut buckets: Vec<Vec<usize>> = Vec::new();
        let mut s: usize = 0;
        while s < NODE_SLOTS
            invariant
                s <= NODE_SLOTS,
                buckets.len() == s,
                forall|t: int| 0 <= t < s ==> (#[trigger] buckets@[t])@.len() == 0,
            decreases NODE_SLOTS - s,
        {
            buckets.push(Vec::new());
            s += 1;
        }
        let r = Quadtree { region, entries: Vec::new(), buckets, stamps: Vec::new(), stamp: 0 };
        assert(r@ =~= Seq::<(usize, Rect)>::empty());
        r
    }

    /// Number of entries.
    pub fn len(&self) -> (r: usize)
        ensures
            r == self@.len(),
    {
        self.entries.len()
    }

    /// Flat index of the node of level `d` whose cell holds the lower corner of `rect`.
    fn slot_at(&self, d: usize, rect: &Rect) -> (r: usize)
        requires
            self.region_ok(),
            d <= MAX_DEPTH,
        ensures
            r == slot(d as int, self.cx(d as int, rect.min_x as int), self.cy(d as int, rect.min_y as int)),
            r < NODE_SLOTS,
    {
        let side = side_of(d);
        let x0 = cell_of(self.region.min_x, self.region.max_x, side, rect.min_x);
        let y0 = cell_of(self.region.min_y, self.region.max_y, side, rect.min_y);
        d * LEVEL_SLOTS + y0 * GRID + x0
    }

    /// The deepest level whose cell holds all of `rect` (level 0 always does), and its node.
    fn place(&self, rect: &Rect) -> (r: (usize, usize))
        requires
            self.region_ok(),
        ensures
            r.0 <= MAX_DEPTH,
            self.fits(r.0 as int, *rect),
            r.1 == slot(r.0 as int, self.cx(r.0 as int, rect.min_x as int), self.cy(r.0 as int, rect.min_y as int)),
            r.1 < NODE_SLOTS,
    {
        let mut d: usize = MAX_DEPTH;
        loop
            invariant
                d <= MAX_DEPTH,
                self.region_ok(),
            decreases d,
        {
            let side = side_of(d);
            let x0 = cell_of(self.region.min_x, self.region.max_x, side, rect.min_x);
            let x1 = cell_of(self.region.min_x, self.region.max_x, side, rect.max_x);
            let y0 = cell_of(self.region.min_y, self.region.max_y, side, rect.min_y);
            let y1 = cell_of(self.region.min_y, self.region.max_y, side, rect.max_y);
            if d == 0 || (x0 == x1 && y0 == y1) {
                return (d, self.slot_at(d, rect));
            }
            d -= 1;
        }
    }

    /// Adds an entry and returns its id, which is the number of entries before the call.
    pub fn insert(&mut self, handle: usize, rect: Rect) -> (id: usize)
        requires
            old(self).well_formed(),
        ensures
            final(self).well_formed(),
            id == old(self)@.len(),
            final(self)@ == old(self)@.push((handle, rect)),
            final(self).root() == old(self).root(),
    {
        let (d, s) = self.place(&rect);
        let id = self.entries.len();
        let ghost old_buckets = self.buckets@;
        self.entries.push(Entry { handle, rect, depth: d });
        self.stamps.push(0);
        self.buckets[s].push(id);
        proof {
            assert forall|i: int| 0 <= i < self.entries.len() implies {
                let e = #[trigger] self.entries@[i];
                &&& e.depth <= MAX_DEPTH
                &&& self.fits(e.depth as int, e.rect)
                &&& self.buckets@[self.slot_of(e)]@.contains(i as usize)
            } by {
                let e = self.entries@[i];
                if i < id {
                    let t = self.slot_of(e);
                    assert(old_buckets[t]@.contains(i as usize));
                    if t == s {
                        let j = choose|j: int| 0 <= j < old_buckets[t]@.len() && old_buckets[t]@[j] == i as usize;
                        assert(self.buckets@[t]@[j] == i as usize);
                    }
                } else {
                    assert(self.buckets@[s as int]@[self.buckets@[s as int]@.len() - 1] == id);
                }
            }
            assert forall|t: int, k: int| 0 <= t < NODE_SLOTS && 0 <= k < self.buckets@[t].len()
                implies #[trigger] self.buckets@[t]@[k] < self.entries.len() by {
                if t != s || k < old_buckets[t].len() {
                    assert(old_buckets[t]@[k] < id);
                }
            }
            assert(self@ =~= old(self)@.push((handle, rect)));
        }
        id
    }

    /// Gives entry `id` a new rectangle, moving it to the node that now holds it.
    pub fn move_entry(&mut self, id: usize, rect: Rect)
        requires
            old(self).well_formed(),
            id < old(self)@.len(),
        ensures
            final(self).well_formed(),
            final(self)@ == old(self)@.update(id as int, (old(self)@[id as int].0, rect)),
            final(self).root() == old(self).root(),
    {
        let handle = self.entries[id].handle;
        let old_rect = self.entries[id].rect;
        let os = self.slot_at(self.entries[id].depth, &old_rect);
        let ghost b0 = self.buckets@[os as int]@;
        let mut k: usize = 0;
        while self.buckets[os][k] != id
            invariant
                self.well_formed(),
                self.buckets@[os as int]@ == b0,
                b0.contains(id),
                os < NODE_SLOTS,
                k < b0.len(),
                forall|j: int| 0 <= j < k ==> b0[j] != id,
            decreases b0.len() - k,
        {
            let ghost w = choose|w: int| 0 <= w < b0.len() && b0[w] == id;
            assert(w > k);
            assert(b0.len() <= usize::MAX) by {
                assert(b0.len() == self.buckets[os as int].len());
            }
            k += 1;
        }
        let ghost old_buckets = self.buckets@;
        let ghost old_entries = self.entries@;
        self.buckets[os].swap_remove(k);
        let (nd, ns) = self.place(&rect);
        self.entries.set(id, Entry { handle, rect, depth: nd });
        let ghost mid_buckets = self.buckets@;
        self.buckets[ns].push(id);
        proof {
            assert forall|i: int| 0 <= i < self.entries.len() implies {
                let e = #[trigger] self.entries@[i];
                &&& e.depth <= MAX_DEPTH
                &&& self.fits(e.depth as int, e.rect)
                &&& self.buckets@[self.slot_of(e)]@.contains(i as usize)
            } by {
                let e = self.entries@[i];
                let t = self.slot_of(e);
                if i == id {
                    assert(self.buckets@[ns as int]@[self.buckets@[ns as int]@.len() - 1] == id);
                } else {
                    assert(e == old_entries[i]);
                    assert(old_buckets[t]@.contains(i as usize));
                    let j = choose|j: int| 0 <= j < old_buckets[t]@.len() && old_buckets[t]@[j] == i as usize;
                    let jm = if t == os && j == old_buckets[t]@.len() - 1 { k as int } else { j };
                    assert(mid_buckets[t]@[jm] == i as usize);
                    assert(self.buckets@[t]@[jm] == i as usize);
                }
            }
            assert forall|t: int, j: int| 0 <= t < NODE_SLOTS && 0 <= j < self.buckets@[t].len()
                implies #[trigger] self.buckets@[t]@[j] < self.entries.len() by {
                if t == ns && j == mid_buckets[t].len() {
                } else if t == os {
                    if j == k {
                        assert(old_buckets[t]@[old_buckets[t]@.len() - 1] < self.entries.len());
                    } else {
                        assert(old_buckets[t]@[j] < self.entries.len());
                    }
                } else {
                    assert(old_buckets[t]@[j] < self.entries.len());
                }
            }
            assert(self@ =~= old(self)@.update(id as int, (old(self)@[id as int].0, rect)));
        }
    }

    /// The scan of a query so far: `out` holds the handles of `ids`, the entries stamped
    /// with `cur`, each of which overlaps `q`.
    spec fn scan_ok(&self, q: Rect, cur: u64, ids: Seq<usize>, out: Seq<usize>) -> bool {
        &&& self.well_formed()
        &&& self.stamp == cur
        &&& ids.no_duplicates()
        &&& out == ids.map_values(|i: usize| self@[i as int].0)
        &&& forall|k: int| 0 <= k < ids.len() ==> {
            &&& #[trigger] ids[k] < self.entries.len()
            &&& overlaps(self.entries@[ids[k] as int].rect, q)
            &&& self.stamps@[ids[k] as int] == cur
        }
        &&& forall|i: int| 0 <= i < self.entries.len() && #[trigger] self.stamps@[i] == cur
            ==> ids.contains(i as usize)
    }

    /// Handles of all entries whose rectangle overlaps `query`, each entry once.
    ///
    /// Only the nodes whose cell meets `query` are visited, level by level.
    pub fn get_overlapped(&mut self, query: &Rect) -> (r: Vec<usize>)
        requires
            old(self).well_formed(),
        ensures
            final(self).well_formed(),
            final(self)@ == old(self)@,
            final(self).root() == old(self).root(),
            exists|ids: Seq<usize>|
                overlap_listing(old(self)@, *query, ids) && r@ == ids.map_values(
                    |i: usize| old(self)@[i as int].0,
                ),
    {
        let q = *query;
        let n = self.entries.len();
        if self.stamp == u64::MAX {
            let mut i: usize = 0;
            while i < n
                invariant
                    self.region_ok(),
                    self.stamps.len() == n,
                    self.entries@ == old(self).entries@,
                    self.buckets@ == old(self).buckets@,
                    self.region == old(self).region,
                    self.stamp == u64::MAX,
                    forall|j: int| 0 <= j < i ==> #[trigger] self.stamps@[j] == 0,
                decreases n - i,
            {
                self.stamps.set(i, 0);
                i += 1;
            }
            self.stamp = 0;
        }
        self.stamp = self.stamp + 1;
        let cur = self.stamp;
        assert(forall|i: int| 0 <= i < n ==> #[trigger] self.stamps@[i] < cur);
        let ghost ent0 = self.entries@;
        let ghost view0 = self@;
        let mut out: Vec<usize> = Vec::new();
        let ghost mut ids: Seq<usize> = Seq::empty();
        assert(out@ =~= ids.map_values(|i: usize| self@[i as int].0));
        let mut d: usize = 0;
        while d <= MAX_DEPTH
            invariant
                self.scan_ok(q, cur, ids, out@),
                self.entries@ == ent0,
                n == ent0.len(),
                self@ == view0,
                self.region == old(self).region,
                d <= MAX_DEPTH + 1,
                forall|i: int|
                    0 <= i < n && (#[trigger] ent0[i]).depth < d && overlaps(ent0[i].rect, q)
                        ==> self.stamps@[i] == cur,
            decreases MAX_DEPTH + 1 - d,
        {
            let sd = side_of(d);
            let x0 = cell_of(self.region.min_x, self.region.max_x, sd, q.min_x);
            let x1 = cell_of(self.region.min_x, self.region.max_x, sd, q.max_x);
            let y0 = cell_of(self.region.min_y, self.region.max_y, sd, q.min_y);
            let y1 = cell_of(self.region.min_y, self.region.max_y, sd, q.max_y);
            let mut iy = y0;
            while iy <= y1
                invariant
                    self.scan_ok(q, cur, ids, out@),
                    self.entries@ == ent0,
                    n == ent0.len(),
                    self@ == view0,
                    self.region == old(self).region,
                    d <= MAX_DEPTH,
                    sd == side(d as int),
                    x0 == self.cx(d as int, q.min_x as int),
                    x1 == self.cx(d as int, q.max_x as int),
                    y0 == self.cy(d as int, q.min_y as int),
                    y1 == self.cy(d as int, q.max_y as int),
                    x1 < sd,
                    y1 < sd,
                    y0 <= iy,
                    iy <= y1 + 1 || iy == y0,
                    forall|i: int|
                        0 <= i < n && (#[trigger] ent0[i]).depth < d && overlaps(ent0[i].rect, q)
                            ==> self.stamps@[i] == cur,
                    forall|i: int|
                        0 <= i < n && (#[trigger] ent0[i]).depth == d && overlaps(ent0[i].rect, q)
                            && y0 <= self.cy(d as int, ent0[i].rect.min_y as int) < iy
                            ==> self.stamps@[i] == cur,
                decreases y1 + 1 - iy,
            {
                let mut ix = x0;
                while ix <= x1
                    invariant
                        self.scan_ok(q, cur, ids, out@),
                        self.entries@ == ent0,
                        n == ent0.len(),
                        self@ == view0,
                        self.region == old(self).region,
                        d <= MAX_DEPTH,
                        sd == side(d as int),
                        x1 < sd,
                        y0 <= iy <= y1,
                        y1 < sd,
                        x0 <= ix,
                        ix <= x1 + 1 || ix == x0,
                        forall|i: int|
                            0 <= i < n && (#[trigger] ent0[i]).depth < d && overlaps(ent0[i].rect, q)
                                ==> self.stamps@[i] == cur,
                        forall|i: int|
                            0 <= i < n && (#[trigger] ent0[i]).depth == d && overlaps(ent0[i].rect, q)
                                && y0 <= self.cy(d as int, ent0[i].rect.min_y as int) < iy
                                ==> self.stamps@[i] == cur,
                        forall|i: int|
                            0 <= i < n && (#[trigger] ent0[i]).depth == d && overlaps(ent0[i].rect, q)
                                && self.cy(d as int, ent0[i].rect.min_y as int) == iy
                                && x0 <= self.cx(d as int, ent0[i].rect.min_x as int) < ix
                                ==> self.stamps@[i] == cur,
                    decreases x1 + 1 - ix,
                {
                    let s = d * LEVEL_SLOTS + iy * GRID + ix;
                    let ghost bk = self.buckets@[s as int]@;
                    let blen = self.buckets[s].len();
                    let ghost st0 = self.stamps@;
                    let mut k: usize = 0;
                    while k < blen
                        invariant
                            self.scan_ok(q, cur, ids, out@),
                            self.entries@ == ent0,
                            n == ent0.len(),
                            self@ == view0,
                            self.region == old(self).region,
                            s < NODE_SLOTS,
                            self.buckets@[s as int]@ == bk,
                            blen == bk.len(),
                            k <= blen,
                            forall|j: int|
                                0 <= j < k && overlaps(ent0[bk[j] as int].rect, q)
                                    ==> self.stamps@[#[trigger] bk[j] as int] == cur,
                            self.stamps@.len() == n,
                            forall|i: int|
                                0 <= i < n && #[trigger] st0[i] == cur ==> self.stamps@[i] == cur,
                        decreases blen - k,
                    {
                        let id = self.buckets[s][k];
                        assert(self.buckets@[s as int]@[k as int] < n);
                        if self.stamps[id] != cur && self.entries[id].rect.overlaps(&q) {
                            let h = self.entries[id].handle;
                            let ghost st = self.stamps@;
                            self.stamps.set(id, cur);
                            out.push(h);
                            proof {
                                assert(!ids.contains(id)) by {
                                    if ids.contains(id) {
                                        let w = choose|w: int| 0 <= w < ids.len() && ids[w] == id;
                                        assert(st[ids[w] as int] == cur);
                                    }
                                }
                                let ids2 = ids.push(id);
                                assert forall|a: int, b: int| 0 <= a < ids2.len() && 0 <= b < ids2.len() && a != b
                                    implies ids2[a] != ids2[b] by {
                                    if a < ids.len() && b < ids.len() {
                                    } else if a == ids.len() {
                                        assert(ids.contains(ids2[b]));
                                    } else {
                                        assert(ids.contains(ids2[a]));
                                    }
                                }
                                assert forall|i: int| 0 <= i < n && #[trigger] self.stamps@[i] == cur
                                    implies ids2.contains(i as usize) by {
                                    if i == id {
                                        assert(ids2[ids.len() as int] == id);
                                    } else {
                                        assert(st[i] == cur);
                                        let w = choose|w: int| 0 <= w < ids.len() && ids[w] == i as usize;
                                        assert(ids2[w] == i as usize);
                                    }
                                }
                                assert(out@ =~= ids2.map_values(|i: usize| self@[i as int].0));
                                ids = ids2;
                            }
                        }
                        k += 1;
                    }
                    proof {
                        assert forall|i: int|
                            0 <= i < n && (#[trigger] ent0[i]).depth == d && overlaps(ent0[i].rect, q)
                                && self.cy(d as int, ent0[i].rect.min_y as int) == iy
                                && x0 <= self.cx(d as int, ent0[i].rect.min_x as int) < ix + 1
                                implies self.stamps@[i] == cur by {
                            if self.cx(d as int, ent0[i].rect.min_x as int) == ix {
                                assert(self.entries@[i] == ent0[i]);
                                assert(self.slot_of(ent0[i]) == s);
                                assert(bk.contains(i as usize));
                                let j = choose|j: int| 0 <= j < bk.len() && bk[j] == i as usize;
                                assert(bk[j] == i as usize);
                            }
                        }
                    }
                    ix += 1;
                }
                proof {
                    assert forall|i: int|
                        0 <= i < n && (#[trigger] ent0[i]).depth == d && overlaps(ent0[i].rect, q)
                            && y0 <= self.cy(d as int, ent0[i].rect.min_y as int) < iy + 1
                            implies self.stamps@[i] == cur by {
                        if self.cy(d as int, ent0[i].rect.min_y as int) == iy {
                            let e = ent0[i];
                            assert(self.entries@[i] == e);
                            let ext = self.region.max_x - self.region.min_x;
                            lemma_cell_monotone(self.region.min_x as int, ext, side(d as int), q.min_x as int, e.rect.max_x as int);
                            lemma_cell_monotone(self.region.min_x as int, ext, side(d as int), e.rect.min_x as int, q.max_x as int);
                        }
                    }
                }
                iy += 1;
            }
            proof {
                assert forall|i: int|
                    0 <= i < n && (#[trigger] ent0[i]).depth < d + 1 && overlaps(ent0[i].rect, q)
                        implies self.stamps@[i] == cur by {
                    if ent0[i].depth == d {
                        let e = ent0[i];
                        assert(self.entries@[i] == e);
                        let ext = self.region.max_y - self.region.min_y;
                        lemma_cell_monotone(self.region.min_y as int, ext, side(d as int), q.min_y as int, e.rect.max_y as int);
                        lemma_cell_monotone(self.region.min_y as int, ext, side(d as int), e.rect.min_y as int, q.max_y as int);
                    }
                }
            }
            d += 1;
        }
        proof {
            assert forall|i: int| 0 <= i < view0.len() && #[trigger] overlaps(view0[i].1, q)
                implies ids.contains(i as usize) by {
                assert(ent0[i].depth <= MAX_DEPTH);
                assert(self.stamps@[i] == cur);
            }
            assert forall|k: int| 0 <= k < ids.len() implies #[trigger] ids[k] < view0.len()
                && overlaps(view0[ids[k] as int].1, q) by {
            }
            assert(overlap_listing(view0, q, ids));
            assert(view0 == old(self)@);
            assert(out@ =~= ids.map_values(|i: usize| old(self)@[i as int].0));
        }
        out
    }

    /// All entries in id order: handle and rectangle.
    pub fn entries(&self) -> (r: Vec<(usize, Rect)>)
        ensures
            r@ == self@,
    {
        let mut r: Vec<(usize, Rect)> = Vec::new();
        let mut i: usize = 0;
        while i < self.entries.len()
            invariant
                0 <= i <= self.entries.len(),
                r@ == self@.take(i as int),
            decreases self.entries.len() - i,
        {
            r.push((self.entries[i].handle, self.entries[i].rect));
            assert(self@.take(i + 1) =~= self@.take(i as int).push((self.entries@[i as int].handle, self.entries@[i as int].rect)));
            i += 1;
        }
        assert(self@.take(i as int) =~= self@);
        r
    }

    /// Handle of entry `id`.
    pub fn value(&self, id: usize) -> (r: usize)
        requires
            id < self@.len(),
        ensures
            r == self@[id as int].0,
    {
        self.entries[id].handle
    }

    /// Rectangle of entry `id`.
    pub fn region(&self, id: usize) -> (r: Rect)
        requires
            id < self@.len(),
        ensures
            r == self@[id as int].1,
    {
        self.entries[id].rect
    }

    /// Every node, level by level from the root and row by row within a level, with the
    /// cell it covers; the nodes of the deepest level are the leaves.
    pub fn nodes(&self) -> (r: Vec<NodeInfo>)
        requires
            self.well_formed(),
        ensures
            r@.len() == NODE_COUNT,
            forall|k: int| 0 <= k < r@.len() ==> (#[trigger] r@[k]).is_leaf == (k >= INNER_NODES),
            forall|k: int| 0 <= k < r@.len() ==> (#[trigger] r@[k]).region == node_region(self.root(), k),
    {
        let mut r: Vec<NodeInfo> = Vec::new();
        let root = self.region;
        let mut d: usize = 0;
        while d <= MAX_DEPTH
            invariant
                d <= MAX_DEPTH + 1,
                root == self.root(),
                root.min_x < root.max_x,
                root.min_y < root.max_y,
                r@.len() == level_start(d as int),
                forall|k: int| 0 <= k < r@.len() ==> (#[trigger] r@[k]).is_leaf == (k >= INNER_NODES),
                forall|k: int| 0 <= k < r@.len() ==> (#[trigger] r@[k]).region == node_region(root, k),
            decreases MAX_DEPTH + 1 - d,
        {
            let sd = side_of(d) as i128;
            let base = r.len();
            let mut iy: i128 = 0;
            while iy < sd
                invariant
                    1 <= sd <= 32,
                    sd == side(d as int),
                    d <= MAX_DEPTH,
                    0 <= iy <= sd,
                    root.min_x < root.max_x,
                    root.min_y < root.max_y,
                    base == level_start(d as int),
                    r@.len() == base + iy * sd,
                    forall|k: int| 0 <= k < r@.len() ==> (#[trigger] r@[k]).is_leaf == (k >= INNER_NODES),
                    forall|k: int| 0 <= k < r@.len() ==> (#[trigger] r@[k]).region == node_region(root, k),
                decreases sd - iy,
            {
                let mut ix: i128 = 0;
                while ix < sd
                    invariant
                        1 <= sd <= 32,
                        sd == side(d as int),
                        d <= MAX_DEPTH,
                        0 <= iy < sd,
                        0 <= ix <= sd,
                        root.min_x < root.max_x,
                        root.min_y < root.max_y,
                        base == level_start(d as int),
                        r@.len() == base + iy * sd + ix,
                        forall|k: int| 0 <= k < r@.len() ==> (#[trigger] r@[k]).is_leaf == (k >= INNER_NODES),
                        forall|k: int| 0 <= k < r@.len() ==> (#[trigger] r@[k]).region == node_region(root, k),
                    decreases sd - ix,
                {
                    let region = Rect {
                        min_x: axis_point(root.min_x, root.max_x, sd, ix),
                        min_y: axis_point(root.min_y, root.max_y, sd, iy),
                        max_x: axis_point(root.min_x, root.max_x, sd, ix + 1),
                        max_y: axis_point(root.min_y, root.max_y, sd, iy + 1),
                    };
                    proof {
                        let k = base + iy * sd + ix;
                        assert(iy * sd + ix < sd * sd && 0 <= iy * sd) by (nonlinear_arith)
                            requires
                                0 <= iy < sd,
                                0 <= ix < sd,
                        ;
                        assert(k < INNER_NODES <==> d < MAX_DEPTH);
                        assert(level_of(k) == d);
                        assert(iy * sd + ix == iy * side(d as int) + ix);
                        vstd::arithmetic::div_mod::lemma_fundamental_div_mod_converse(
                            k - level_start(d as int),
                            side(d as int),
                            iy as int,
                            ix as int,
                        );
                        assert(region == node_region(root, k));
                    }
                    r.push(NodeInfo { region, is_leaf: d == MAX_DEPTH });
                    ix += 1;
                }
                assert((iy + 1) * sd == iy * sd + sd) by (nonlinear_arith);
                iy += 1;
            }
            d += 1;
        }
        r
    }
}

/// The point `k / side` of the way from `lo` to `hi`.
fn axis_point(lo: i64, hi: i64, side: i128, k: i128) -> (r: i64)
    requires
        1 <= side <= 32,
        0 <= k <= side,
        lo < hi,
    ensures
        r == axis_at(lo, hi, side as int, k as int),
        lo <= r <= hi,
{
    let ext: i128 = hi as i128 - lo as i128;
    assert(0 <= ext * k <= ext * side) by (nonlinear_arith)
        requires
            0 <= k <= side,
            0 < ext,
    ;
    assert(ext * side <= 0x1_0000_0000_0000_0000i128 * 32) by (nonlinear_arith)
        requires
            1 <= side <= 32,
            0 < ext <= 0x1_0000_0000_0000_0000i128,
    ;
    let v = ext * k / side;
    proof {
        lemma_div_is_ordered(0, (ext * k) as int, side as int);
        lemma_div_is_ordered((ext * k) as int, (ext * side) as int, side as int);
        vstd::arithmetic::div_mod::lemma_div_multiples_vanish(ext as int, side as int);
        assert((ext * side) as int == side as int * ext as int) by (nonlinear_arith);
    }
    (lo as i128 + v) as i64
}

} // verus!