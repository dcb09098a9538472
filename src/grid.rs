//! Uniform spatial grid: agent indices bucketed by the cell their position
//! falls in, answering "who is in the 3x3 block of cells around a point".
use vstd::prelude::*;
use std::collections::HashMap;

use crate::fixed::ONE;

verus! {

broadcast use vstd::std_specs::hash::group_hash_axioms;

/// Coordinates the grid holds lie in `[0, MAX_COORD)` (fixed point 16384.0):
/// a limit of the representation, under which cells pack into one 64-bit
/// key. The engine keeps its world, and so its agents, within it.
pub const MAX_COORD: i64 = 0x4000_0000;

/// Factor that packs a cell's column above its row in one key.
pub const KEY_SHIFT: u64 = 0x1_0000_0000;

/// The column (or row) of the cell holding coordinate `p`.
pub open spec fn cell_of(p: i64, cell_size: i64) -> int {
    p as int / cell_size as int
}

/// The key of cell `(cx, cy)`.
pub open spec fn key_of(cx: int, cy: int) -> u64 {
    (cx * KEY_SHIFT + cy) as u64
}

/// The key of the cell holding point `(x, y)`.
pub open spec fn point_key(x: i64, y: i64, cell_size: i64) -> u64 {
    key_of(cell_of(x, cell_size), cell_of(y, cell_size))
}

/// A coordinate the grid can hold.
pub open spec fn in_range(p: i64) -> bool {
    0 <= p < MAX_COORD
}

/// Point `(x, y)` lies in the 3x3 block of cells centred on the cell of
/// `(qx, qy)`.
pub open spec fn in_block(x: i64, y: i64, qx: i64, qy: i64, cell_size: i64) -> bool {
    let dx = cell_of(x, cell_size) - cell_of(qx, cell_size);
    let dy = cell_of(y, cell_size) - cell_of(qy, cell_size);
    -1 <= dx <= 1 && -1 <= dy <= 1
}

proof fn lemma_cell_range(p: i64, cell_size: i64)
    requires
        in_range(p),
        cell_size >= ONE,
    ensures
        0 <= cell_of(p, cell_size) < MAX_COORD,
{
    assert(0 <= p as int / cell_size as int <= p) by (nonlinear_arith)
        requires 0 <= p, cell_size >= 1;
}

proof fn lemma_key_injective(a: int, b: int, c: int, d: int)
    requires
        0 <= a < MAX_COORD + 2,
        0 <= c < MAX_COORD + 2,
        0 <= b < KEY_SHIFT,
        0 <= d < KEY_SHIFT,
        key_of(a, b) == key_of(c, d),
    ensures
        a == c,
        b == d,
{
    assert(0 <= a * KEY_SHIFT + b < 0x1_0000_0000_0000_0000) by (nonlinear_arith)
        requires 0 <= a < MAX_COORD + 2, 0 <= b < KEY_SHIFT;
    assert(0 <= c * KEY_SHIFT + d < 0x1_0000_0000_0000_0000) by (nonlinear_arith)
        requires 0 <= c < MAX_COORD + 2, 0 <= d < KEY_SHIFT;
    assert(a * KEY_SHIFT + b == c * KEY_SHIFT + d);
    assert(a == c) by (nonlinear_arith)
        requires
            a * KEY_SHIFT + b == c * KEY_SHIFT + d,
            0 <= b < KEY_SHIFT,
            0 <= d < KEY_SHIFT;
}

/// Some point of `points` with index `v` lies in the 3x3 block of cells
/// centred on the cell of `(qx, qy)`.
pub open spec fn found_in_block(points: Seq<(usize, i64, i64)>, v: usize, qx: i64, qy: i64, cell_size: i64) -> bool {
    exists|j: int|
        0 <= j < points.len() && #[trigger] points[j].0 == v && in_block(
            points[j].1,
            points[j].2,
            qx,
            qy,
            cell_size,
        )
}

/// The indices of the points whose cell has key `k`, in insertion order.
pub open spec fn bucket_of(points: Seq<(usize, i64, i64)>, k: u64, cell_size: i64) -> Seq<usize>
    decreases points.len(),
{
    if points.len() == 0 {
        Seq::empty()
    } else {
        let rest = bucket_of(points.drop_last(), k, cell_size);
        let p = points.last();
        if point_key(p.1, p.2, cell_size) == k {
            rest.push(p.0)
        } else {
            rest
        }
    }
}

/// The indices of the points in cell `(cx, cy)`, in insertion order; none
/// for a cell left of or above the origin.
pub open spec fn cell_seq(points: Seq<(usize, i64, i64)>, cx: int, cy: int, cell_size: i64) -> Seq<usize> {
    if cx < 0 || cy < 0 {
        Seq::empty()
    } else {
        bucket_of(points, key_of(cx, cy), cell_size)
    }
}

/// The first `n` cells of the 3x3 block centred on cell `(cx, cy)`, row by
/// row from the top left, concatenated.
pub open spec fn block_prefix(points: Seq<(usize, i64, i64)>, cx: int, cy: int, cell_size: i64, n: nat) -> Seq<usize>
    decreases n,
{
    if n == 0 {
        Seq::empty()
    } else {
        let m = n - 1;
        block_prefix(points, cx, cy, cell_size, m as nat) + cell_seq(points, cx + m % 3 - 1, cy + m / 3 - 1, cell_size)
    }
}

/// What `neighbors` returns for a query at `(qx, qy)`.
pub open spec fn block_seq(points: Seq<(usize, i64, i64)>, qx: i64, qy: i64, cell_size: i64) -> Seq<usize> {
    block_prefix(points, cell_of(qx, cell_size), cell_of(qy, cell_size), cell_size, 9)
}

/// Every recorded point lies in the grid's range.
pub open spec fn points_in_range(points: Seq<(usize, i64, i64)>) -> bool {
    forall|j: int| 0 <= j < points.len() ==> in_range(#[trigger] points[j].1) && in_range(points[j].2)
}

/// Index `v` was recorded with a point whose cell has key `k`.
pub open spec fn has_origin(points: Seq<(usize, i64, i64)>, cs: i64, k: u64, v: usize) -> bool {
    exists|j: int| 0 <= j < points.len() && #[trigger] points[j].0 == v && point_key(points[j].1, points[j].2, cs) == k
}

/// The buckets lay `points` out for cell size `cs`: each point's index is in
/// its cell's bucket, each index in a bucket comes from a point of that
/// cell, and each bucket lists its cell's points in recording order.
pub open spec fn buckets_ok(buckets: Map<u64, Vec<usize>>, points: Seq<(usize, i64, i64)>, cs: i64) -> bool {
    &&& forall|j: int|
        0 <= j < points.len() ==> {
            let p = #[trigger] points[j];
            let k = point_key(p.1, p.2, cs);
            buckets.contains_key(k) && buckets[k]@.contains(p.0)
        }
    &&& forall|k: u64, t: int|
        buckets.contains_key(k) && 0 <= t < buckets[k]@.len() ==> has_origin(points, cs, k, #[trigger] buckets[k]@[t])
    &&& forall|k: u64| #[trigger] buckets.contains_key(k) ==> buckets[k]@ == bucket_of(points, k, cs)
    &&& forall|k: u64| !buckets.contains_key(k) ==> (#[trigger] bucket_of(points, k, cs)).len() == 0
}

fn key_for(cs: i64, x: i64, y: i64) -> (r: u64)
    requires
        cs >= ONE,
        in_range(x),
        in_range(y),
    ensures
        r == point_key(x, y, cs),
{
    proof {
        lemma_cell_range(x, cs);
        lemma_cell_range(y, cs);
    }
    let cx = (x / cs) as u64;
    let cy = (y / cs) as u64;
    cx * KEY_SHIFT + cy
}

/// Add agent `idx` at `(x, y)` to the buckets laid out for `pts`.
fn bucket_push(buckets: &mut HashMap<u64, Vec<usize>>, pts: Ghost<Seq<(usize, i64, i64)>>, cs: i64, idx: usize, x: i64, y: i64)
    requires
        cs >= ONE,
        in_range(x),
        in_range(y),
        buckets_ok(old(buckets)@, pts@, cs),
    ensures
        buckets_ok(final(buckets)@, pts@.push((idx, x, y)), cs),
{
        let key = key_for(cs, x, y);
        let ghost old_buckets = buckets@;
        let bucket = match buckets.remove(&key) {
            Some(v) => {
                let mut v = v;
                v.push(idx);
                v
            },
            None => {
                let mut v: Vec<usize> = Vec::new();
                v.push(idx);
                v
            },
        };
        let ghost nb = bucket@;
        buckets.insert(key, bucket);
        let ghost np = pts@.push((idx, x, y));
        proof {
            assert(nb.last() == idx);
            assert(old_buckets.contains_key(key) ==> nb == old_buckets[key]@.push(idx));
            assert(!old_buckets.contains_key(key) ==> nb == seq![idx]);
            let ops = pts@;
            assert(np.drop_last() == ops);
            assert forall|k: u64| #[trigger] buckets@.contains_key(k) implies buckets@[k]@ == bucket_of(
                np,
                k,
                cs,
            ) by {
                if k == key {
                    if !old_buckets.contains_key(key) {
                        assert(bucket_of(ops, key, cs).len() == 0);
                        assert(bucket_of(ops, key, cs).push(idx) == seq![idx]);
                    }
                } else {
                    assert(old_buckets.contains_key(k));
                }
            }
            assert forall|k: u64| !buckets@.contains_key(k) implies (#[trigger] bucket_of(
                np,
                k,
                cs,
            )).len() == 0 by {
                assert(!old_buckets.contains_key(k));
                assert(k != key);
                assert(np.last() == (idx, x, y));
                assert(bucket_of(np, k, cs) == bucket_of(ops, k, cs));
            }
            let ps = np;
            let n = ps.len() - 1;
            assert forall|j: int| 0 <= j < ps.len() implies {
                let p = #[trigger] ps[j];
                let k = point_key(p.1, p.2, cs);
                buckets@.contains_key(k) && buckets@[k]@.contains(p.0)
            } by {
                let p = ps[j];
                let k = point_key(p.1, p.2, cs);
                if j == n {
                    assert(nb[nb.len() - 1] == idx);
                } else if k == key {
                    let t = choose|t: int| 0 <= t < old_buckets[k]@.len() && old_buckets[k]@[t] == p.0;
                    assert(nb[t] == p.0);
                }
            }
            assert forall|k: u64, t: int|
                buckets@.contains_key(k) && 0 <= t < buckets@[k]@.len() implies has_origin(np, cs, 
                    k,
                    #[trigger] buckets@[k]@[t],
                ) by {
                if k == key && t == nb.len() - 1 {
                    assert(ps[n].0 == buckets@[k]@[t]);
                    assert(point_key(ps[n].1, ps[n].2, cs) == k);
                } else {
                    assert(old_buckets.contains_key(k));
                    assert(buckets@[k]@[t] == old_buckets[k]@[t]);
                    assert(has_origin(pts@, cs, k, old_buckets[k]@[t]));
                    let j = choose|j: int|
                        0 <= j < pts@.len() && #[trigger] pts@[j].0
                            == old_buckets[k]@[t] && point_key(
                            pts@[j].1,
                            pts@[j].2,
                            cs,
                        ) == k;
                    assert(ps[j] == pts@[j]);
                }
            }
        }
}

/// The grid. It records every `(index, x, y)` inserted since it was last
/// cleared, and buckets the indices by cell.
pub struct SpatialHash {
    cell_size: i64,
    buckets: HashMap<u64, Vec<usize>>,
    entries: Vec<(usize, i64, i64)>,
}

impl View for SpatialHash {
    type V = Seq<(usize, i64, i64)>;

    closed spec fn view(&self) -> Seq<(usize, i64, i64)> {
        self.entries@
    }
}

impl SpatialHash {
    pub closed spec fn cell_size_spec(&self) -> i64 {
        self.cell_size
    }

    /// The cell size is at least 1.0, every recorded point lies in range,
    /// and the buckets lay the points out for the cell size.
    pub closed spec fn wf(&self) -> bool {
        &&& self.cell_size >= ONE
        &&& points_in_range(self.entries@)
        &&& buckets_ok(self.buckets@, self.entries@, self.cell_size)
    }

    /// Index `v` was inserted with a point whose cell has key `k`.
    pub closed spec fn has_origin(&self, k: u64, v: usize) -> bool {
        has_origin(self.entries@, self.cell_size, k, v)
    }

    /// An empty grid with the given cell size, raised to at least 1.0.
    pub fn new(cell_size: i64) -> (r: SpatialHash)
        ensures
            r.wf(),
            r@ == Seq::<(usize, i64, i64)>::empty(),
            r.cell_size_spec() == if cell_size < ONE { ONE } else { cell_size },
    {
        let cs = if cell_size < ONE { ONE } else { cell_size };
        SpatialHash { cell_size: cs, buckets: HashMap::new(), entries: Vec::new() }
    }

    pub fn cell_size(&self) -> (r: i64)
        ensures
            r == self.cell_size_spec(),
    {
        self.cell_size
    }

    /// Remove every point.
    pub fn clear(&mut self)
        requires
            old(self).wf(),
        ensures
            final(self).wf(),
            final(self)@ == Seq::<(usize, i64, i64)>::empty(),
            final(self).cell_size_spec() == old(self).cell_size_spec(),
    {
        self.buckets.clear();
        self.entries = Vec::new();
    }

    /// Set the cell size, raised to at least 1.0. The recorded points stay;
    /// their buckets are laid out again for the new size.
    pub fn set_cell_size(&mut self, cell_size: i64)
        requires
            old(self).wf(),
        ensures
            final(self).wf(),
            final(self)@ == old(self)@,
            final(self).cell_size_spec() == if cell_size < ONE { ONE } else { cell_size },
    {
        self.cell_size = if cell_size < ONE { ONE } else { cell_size };
        self.buckets.clear();
        let n = self.entries.len();
        let mut k: usize = 0;
        while k < n
            invariant
                k <= n,
                n == self.entries.len(),
                self.entries@ == old(self).entries@,
                self.cell_size >= ONE,
                self.cell_size == if cell_size < ONE { ONE } else { cell_size },
                points_in_range(self.entries@),
                buckets_ok(self.buckets@, self.entries@.subrange(0, k as int), self.cell_size),
            decreases n - k,
        {
            let (i, x, y) = self.entries[k];
            assert(in_range(self.entries@[k as int].1) && in_range(self.entries@[k as int].2));
            bucket_push(&mut self.buckets, Ghost(self.entries@.subrange(0, k as int)), self.cell_size, i, x, y);
            assert(self.entries@.subrange(0, k as int).push((i, x, y)) == self.entries@.subrange(0, k + 1));
            k = k + 1;
        }
        assert(self.entries@.subrange(0, n as int) == self.entries@);
    }

    /// Record agent `idx` at `(x, y)`.
    pub fn insert(&mut self, idx: usize, x: i64, y: i64)
        requires
            old(self).wf(),
            in_range(x),
            in_range(y),
        ensures
            final(self).wf(),
            final(self)@ == old(self)@.push((idx, x, y)),
            final(self).cell_size_spec() == old(self).cell_size_spec(),
    {
        bucket_push(&mut self.buckets, Ghost(self.entries@), self.cell_size, idx, x, y);
        self.entries.push((idx, x, y));
        assert forall|j: int| 0 <= j < self.entries@.len() implies in_range(#[trigger] self.entries@[j].1) && in_range(
            self.entries@[j].2,
        ) by {
            if j < old(self).entries@.len() {
                assert(self.entries@[j] == old(self).entries@[j]);
            }
        }
    }

    /// Append to `out` every index in the bucket of cell `(cx, cy)`.
    fn collect_cell(&self, cx: i64, cy: i64, out: &mut Vec<usize>)
        requires
            self.wf(),
            0 <= cx <= MAX_COORD,
            0 <= cy <= MAX_COORD,
        ensures
            final(out)@ == old(out)@ + bucket_of(self@, key_of(cx as int, cy as int), self.cell_size),
            old(out)@.len() <= final(out)@.len(),
            forall|t: int| 0 <= t < old(out)@.len() ==> #[trigger] final(out)@[t] == old(out)@[t],
            forall|t: int|
                old(out)@.len() <= t < final(out)@.len() ==> self.has_origin(
                    key_of(cx as int, cy as int),
                    #[trigger] final(out)@[t],
                ),
            forall|j: int|
                0 <= j < self@.len() && cell_of(#[trigger] self@[j].1, self.cell_size) == cx
                    && cell_of(self@[j].2, self.cell_size) == cy ==> final(out)@.contains(
                    self@[j].0,
                ),
    {
        let key: u64 = (cx as u64) * KEY_SHIFT + (cy as u64);
        assert(key == key_of(cx as int, cy as int));
        let ghost start = out@;
        match self.buckets.get(&key) {
            Some(items) => {
                let mut t: usize = 0;
                while t < items.len()
                    invariant
                        self.wf(),
                        self.buckets@.contains_key(key),
                        *items == self.buckets@[key],
                        t <= items.len(),
                        out@.len() == start.len() + t,
                        forall|u: int| 0 <= u < start.len() ==> #[trigger] out@[u] == start[u],
                        forall|u: int| 0 <= u < t ==> #[trigger] out@[start.len() + u] == items@[u],
                    decreases items.len() - t,
                {
                    out.push(items[t]);
                    t = t + 1;
                }
                proof {
                    assert forall|v: int| 0 <= v < out@.len() implies #[trigger] out@[v] == (start + items@)[v] by {
                        if v >= start.len() {
                            assert(out@[start.len() + (v - start.len())] == items@[v - start.len()]);
                        }
                    }
                    assert(out@ =~= start + items@);
                    assert forall|u: int| start.len() <= u < out@.len() implies self.has_origin(
                        key,
                        #[trigger] out@[u],
                    ) by {
                        assert(out@[start.len() + (u - start.len())] == items@[u - start.len()]);
                    }
                    assert forall|j: int|
                        0 <= j < self@.len() && cell_of(#[trigger] self@[j].1, self.cell_size) == cx
                            && cell_of(self@[j].2, self.cell_size) == cy implies out@.contains(
                        self@[j].0,
                    ) by {
                        let p = self.entries@[j];
                        assert(point_key(p.1, p.2, self.cell_size) == key);
                        assert(self.buckets@[key]@.contains(p.0));
                        let u = choose|u: int| 0 <= u < items@.len() && items@[u] == p.0;
                        assert(out@[start.len() + u] == p.0);
                    }
                }
            },
            None => {
                proof {
                    assert(out@ =~= start + bucket_of(self@, key, self.cell_size));
                    assert forall|j: int|
                        0 <= j < self@.len() && cell_of(#[trigger] self@[j].1, self.cell_size) == cx
                            && cell_of(self@[j].2, self.cell_size) == cy implies out@.contains(
                        self@[j].0,
                    ) by {
                        let p = self.entries@[j];
                        assert(point_key(p.1, p.2, self.cell_size) == key);
                    }
                }
            },
        }
    }

    /// Every index stored in the 3x3 block of cells centred on the cell of
    /// `(qx, qy)`, the query's own index included when it was inserted.
    /// Cells are visited row by row, each bucket in insertion order.
    pub fn neighbors(&self, qx: i64, qy: i64) -> (r: Vec<usize>)
        requires
            self.wf(),
            in_range(qx),
            in_range(qy),
        ensures
            forall|j: int|
                0 <= j < self@.len() && in_block(
                    #[trigger] self@[j].1,
                    self@[j].2,
                    qx,
                    qy,
                    self.cell_size_spec(),
                ) ==> r@.contains(self@[j].0),
            forall|t: int| 0 <= t < r@.len() ==> found_in_block(self@, #[trigger] r@[t], qx, qy, self.cell_size_spec()),
            r@ == block_seq(self@, qx, qy, self.cell_size_spec()),
    {
        let cs = self.cell_size;
        proof {
            lemma_cell_range(qx, cs);
            lemma_cell_range(qy, cs);
        }
        let cqx = qx / cs;
        let cqy = qy / cs;
        let mut out: Vec<usize> = Vec::new();
        let mut dy: i64 = -1;
        while dy <= 1
            invariant
                self.wf(),
                cs == self.cell_size,
                cqx == cell_of(qx, cs),
                cqy == cell_of(qy, cs),
                0 <= cqx < MAX_COORD,
                0 <= cqy < MAX_COORD,
                -1 <= dy <= 2,
                forall|j: int|
                    0 <= j < self@.len() && in_block(#[trigger] self@[j].1, self@[j].2, qx, qy, cs)
                        && cell_of(self@[j].2, cs) - cqy < dy ==> out@.contains(self@[j].0),
                forall|t: int| 0 <= t < out@.len() ==> found_in_block(self@, #[trigger] out@[t], qx, qy, cs),
                out@ == block_prefix(self@, cqx as int, cqy as int, cs, ((dy + 1) * 3) as nat),
            decreases 2 - dy,
        {
            let mut dx: i64 = -1;
            while dx <= 1
                invariant
                    self.wf(),
                    cs == self.cell_size,
                    cqx == cell_of(qx, cs),
                    cqy == cell_of(qy, cs),
                    0 <= cqx < MAX_COORD,
                    0 <= cqy < MAX_COORD,
                    -1 <= dy <= 1,
                    -1 <= dx <= 2,
                    forall|j: int|
                        0 <= j < self@.len() && in_block(#[trigger] self@[j].1, self@[j].2, qx, qy, cs)
                            && (cell_of(self@[j].2, cs) - cqy < dy || (cell_of(self@[j].2, cs) - cqy == dy
                            && cell_of(self@[j].1, cs) - cqx < dx)) ==> out@.contains(self@[j].0),
                    forall|t: int| 0 <= t < out@.len() ==> found_in_block(self@, #[trigger] out@[t], qx, qy, cs),
                    out@ == block_prefix(self@, cqx as int, cqy as int, cs, ((dy + 1) * 3 + dx + 1) as nat),
                decreases 2 - dx,
            {
                let cx = cqx + dx;
                let cy = cqy + dy;
                proof {
                    let m = (dy + 1) * 3 + dx + 1;
                    assert(m % 3 == dx + 1 && m / 3 == dy + 1);
                    assert(block_prefix(self@, cqx as int, cqy as int, cs, (m + 1) as nat) == block_prefix(
                        self@, cqx as int, cqy as int, cs, m as nat) + cell_seq(self@, cx as int, cy as int, cs));
                }
                if cx >= 0 && cy >= 0 {
                    let ghost before = out@;
                    self.collect_cell(cx, cy, &mut out);
                    proof {
                        assert forall|j: int|
                            0 <= j < self@.len() && in_block(#[trigger] self@[j].1, self@[j].2, qx, qy, cs)
                                && (cell_of(self@[j].2, cs) - cqy < dy || (cell_of(self@[j].2, cs) - cqy
                                == dy && cell_of(self@[j].1, cs) - cqx < dx + 1)) implies out@.contains(
                            self@[j].0,
                        ) by {
                            if cell_of(self@[j].2, cs) - cqy < dy || cell_of(self@[j].1, cs) - cqx < dx {
                                let u = choose|u: int| 0 <= u < before.len() && before[u] == self@[j].0;
                                assert(out@[u] == before[u]);
                            }
                        }
                        assert forall|t: int| 0 <= t < out@.len() implies found_in_block(
                            self@,
                            #[trigger] out@[t],
                            qx,
                            qy,
                            cs,
                        ) by {
                            if t < before.len() {
                                assert(out@[t] == before[t]);
                            } else {
                                assert(self.has_origin(key_of(cx as int, cy as int), out@[t]));
                                let j = choose|j: int|
                                    0 <= j < self.entries@.len() && #[trigger] self.entries@[j].0 == out@[t]
                                        && point_key(self.entries@[j].1, self.entries@[j].2, cs) == key_of(
                                        cx as int,
                                        cy as int,
                                    );
                                let p = self.entries@[j];
                                lemma_cell_range(p.1, cs);
                                lemma_cell_range(p.2, cs);
                                lemma_key_injective(cell_of(p.1, cs), cell_of(p.2, cs), cx as int, cy as int);
                                assert(in_block(p.1, p.2, qx, qy, cs));
                            }
                        }
                    }
                } else {
                    proof {
                        assert(out@ == out@ + cell_seq(self@, cx as int, cy as int, cs));
                        assert forall|j: int|
                            0 <= j < self@.len() && in_block(#[trigger] self@[j].1, self@[j].2, qx, qy, cs)
                                && (cell_of(self@[j].2, cs) - cqy < dy || (cell_of(self@[j].2, cs) - cqy
                                == dy && cell_of(self@[j].1, cs) - cqx < dx + 1)) implies out@.contains(
                            self@[j].0,
                        ) by {
                            lemma_cell_range(self@[j].1, cs);
                            lemma_cell_range(self@[j].2, cs);
                        }
                    }
                }
                dx = dx + 1;
            }
            dy = dy + 1;
        }
        out
    }
}

/// Point `(x, y)` lies strictly within `radius` of `(qx, qy)`.
pub open spec fn within(x: i64, y: i64, qx: i64, qy: i64, radius: i64) -> bool {
    (x - qx) * (x - qx) + (y - qy) * (y - qy) < radius * radius
}

proof fn lemma_near_cells(a: int, b: int, cs: int)
    requires
        0 <= a,
        0 <= b,
        cs > 0,
        -cs < a - b < cs,
    ensures
        -1 <= a / cs - b / cs <= 1,
{
    let qa = a / cs;
    let qb = b / cs;
    let ra = a % cs;
    let rb = b % cs;
    assert(a == cs * qa + ra && 0 <= ra < cs) by (nonlinear_arith)
        requires cs > 0, qa == a / cs, ra == a % cs;
    assert(b == cs * qb + rb && 0 <= rb < cs) by (nonlinear_arith)
        requires cs > 0, qb == b / cs, rb == b % cs;
    assert(-1 <= qa - qb <= 1) by (nonlinear_arith)
        requires
            a == cs * qa + ra, 0 <= ra < cs,
            b == cs * qb + rb, 0 <= rb < cs,
            -cs < a - b < cs, cs > 0;
}

/// Grid correctness: when the query radius is at most the cell size, every
/// point within the radius of the query lies in the 3x3 block of cells
/// around it, so `neighbors` reports it; and `neighbors` reports only
/// points of that block. Filtering its result by distance therefore gives
/// exactly the points a check against every point would find.
pub proof fn lemma_grid_matches_brute_force(g: &SpatialHash, qx: i64, qy: i64, radius: i64)
    requires
        g.wf(),
        in_range(qx),
        in_range(qy),
        0 < radius <= g.cell_size_spec(),
    ensures
        forall|j: int|
            0 <= j < g@.len() && within(#[trigger] g@[j].1, g@[j].2, qx, qy, radius) ==> in_block(
                g@[j].1,
                g@[j].2,
                qx,
                qy,
                g.cell_size_spec(),
            ),
{
    let cs = g.cell_size_spec();
    assert forall|j: int|
        0 <= j < g@.len() && within(#[trigger] g@[j].1, g@[j].2, qx, qy, radius) implies in_block(
            g@[j].1,
            g@[j].2,
            qx,
            qy,
            cs,
        ) by {
        let x = g@[j].1;
        let y = g@[j].2;
        let dx = x - qx;
        let dy = y - qy;
        assert(dx * dx >= 0 && dy * dy >= 0) by (nonlinear_arith);
        assert(-radius < dx < radius) by (nonlinear_arith)
            requires dx * dx + dy * dy < radius * radius, dy * dy >= 0, radius > 0;
        assert(-radius < dy < radius) by (nonlinear_arith)
            requires dx * dx + dy * dy < radius * radius, dx * dx >= 0, radius > 0;
        lemma_near_cells(x as int, qx as int, cs as int);
        lemma_near_cells(y as int, qy as int, cs as int);
    }
}

} // verus!
