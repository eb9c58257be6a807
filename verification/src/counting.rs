//! Counting sort of point indices into grid cells, and the ordering of the
//! points inside each cell.

use vstd::prelude::*;
use crate::binary32::{total_key, total_order_key};

verus! {

/// Number of the first `n` points that lie in cell `c`.
pub open spec fn count_in(cells: Seq<usize>, n: int, c: int) -> nat
    decreases n,
{
    if n <= 0 {
        0
    } else {
        count_in(cells, n - 1, c) + if cells[n - 1] == c { 1nat } else { 0nat }
    }
}

/// Number of the first `n` points that lie in a cell below `c`.
pub open spec fn count_below(cells: Seq<usize>, n: int, c: int) -> nat
    decreases n,
{
    if n <= 0 {
        0
    } else {
        count_below(cells, n - 1, c) + if cells[n - 1] < c { 1nat } else { 0nat }
    }
}

/// Order of the points inside a cell: by z, then y, then x (each in the
/// IEEE total order of its binary32 encoding), then by point index.
pub open spec fn support_before(points: Seq<[u32; 3]>, a: int, b: int) -> bool {
    let za = total_key(points[a][2]);
    let zb = total_key(points[b][2]);
    let ya = total_key(points[a][1]);
    let yb = total_key(points[b][1]);
    let xa = total_key(points[a][0]);
    let xb = total_key(points[b][0]);
    za < zb || (za == zb && (ya < yb || (ya == yb && (xa < xb || (xa == xb && a < b)))))
}

/// All cells lie below `ncells`.
pub open spec fn cells_below(cells: Seq<usize>, ncells: int) -> bool {
    forall|j: int| 0 <= j < cells.len() ==> #[trigger] cells[j] < ncells
}

/// `off` is the prefix array of the cell counts: `off[c]` points lie in
/// cells below `c`.
pub open spec fn is_prefix_of_counts(off: Seq<u32>, cells: Seq<usize>, ncells: int) -> bool {
    &&& off.len() == ncells + 1
    &&& forall|c: int| 0 <= c <= ncells ==> #[trigger] off[c] == count_below(cells, cells.len() as int, c)
}

pub open spec fn seq_in_range(idx: Seq<u32>, n: int) -> bool {
    forall|k: int| 0 <= k < idx.len() ==> #[trigger] idx[k] < n
}

pub open spec fn seq_distinct(idx: Seq<u32>) -> bool {
    forall|j: int, k: int| 0 <= j < idx.len() && 0 <= k < idx.len() && j != k ==> #[trigger] idx[j] != #[trigger] idx[k]
}

/// Every slot of cell `c`'s range holds a point of cell `c`.
pub open spec fn buckets_hold_their_cells(idx: Seq<u32>, off: Seq<u32>, cells: Seq<usize>, ncells: int) -> bool {
    forall|c: int, k: int| #![trigger off[c], idx[k]]
        0 <= c < ncells && off[c] <= k < off[c + 1] ==> cells[idx[k] as int] == c
}

/// The points of the range `[b, e)` are in `support_before` order.
pub open spec fn range_sorted(idx: Seq<u32>, points: Seq<[u32; 3]>, b: int, e: int) -> bool {
    forall|p: int, q: int| b <= p < q < e ==> support_before(points, #[trigger] idx[p] as int, #[trigger] idx[q] as int)
}

pub proof fn lemma_count_in_bound(cells: Seq<usize>, n: int, c: int)
    ensures
        n >= 0 ==> count_in(cells, n, c) <= n,
    decreases n,
{
    if n > 0 {
        lemma_count_in_bound(cells, n - 1, c);
    }
}

pub proof fn lemma_count_below_bound(cells: Seq<usize>, n: int, c: int)
    ensures
        n >= 0 ==> count_below(cells, n, c) <= n,
    decreases n,
{
    if n > 0 {
        lemma_count_below_bound(cells, n - 1, c);
    }
}

pub proof fn lemma_count_in_monotone(cells: Seq<usize>, m: int, n: int, c: int)
    requires
        m <= n,
    ensures
        count_in(cells, m, c) <= count_in(cells, n, c),
    decreases n - m,
{
    if m < n {
        lemma_count_in_monotone(cells, m, n - 1, c);
    }
}

pub proof fn lemma_count_below_step(cells: Seq<usize>, n: int, c: int)
    ensures
        count_below(cells, n, c + 1) == count_below(cells, n, c) + count_in(cells, n, c),
    decreases n,
{
    if n > 0 {
        lemma_count_below_step(cells, n - 1, c);
    }
}

pub proof fn lemma_count_below_monotone(cells: Seq<usize>, n: int, c1: int, c2: int)
    requires
        c1 <= c2,
    ensures
        count_below(cells, n, c1) <= count_below(cells, n, c2),
    decreases n,
{
    if n > 0 {
        lemma_count_below_monotone(cells, n - 1, c1, c2);
    }
}

pub proof fn lemma_count_below_zero(cells: Seq<usize>, n: int)
    ensures
        count_below(cells, n, 0) == 0,
    decreases n,
{
    if n > 0 {
        lemma_count_below_zero(cells, n - 1);
    }
}

pub proof fn lemma_count_below_all(cells: Seq<usize>, n: int, ncells: int)
    requires
        0 <= n <= cells.len(),
        cells_below(cells, ncells),
    ensures
        count_below(cells, n, ncells) == n,
    decreases n,
{
    if n > 0 {
        lemma_count_below_all(cells, n - 1, ncells);
    }
}

/// A prefix array of counts is monotone, starts at 0 and ends at the number
/// of points.
pub proof fn lemma_prefix_shape(off: Seq<u32>, cells: Seq<usize>, ncells: int)
    requires
        ncells >= 0,
        cells_below(cells, ncells),
        is_prefix_of_counts(off, cells, ncells),
    ensures
        off[0] == 0,
        off[ncells] == cells.len(),
        forall|a: int, b: int| 0 <= a <= b <= ncells ==> #[trigger] off[a] <= #[trigger] off[b],
        forall|c: int| 0 <= c < ncells ==> #[trigger] off[c + 1] == off[c] + count_in(cells, cells.len() as int, c),
{
    let n = cells.len() as int;
    lemma_count_below_zero(cells, n);
    lemma_count_below_all(cells, n, ncells);
    assert forall|a: int, b: int| 0 <= a <= b <= ncells implies #[trigger] off[a] <= #[trigger] off[b] by {
        lemma_count_below_monotone(cells, n, a, b);
    }
    assert forall|c: int| 0 <= c < ncells implies #[trigger] off[c + 1] == off[c] + count_in(cells, n, c) by {
        lemma_count_below_step(cells, n, c);
    }
}

/// The cell range that holds slot `s`.
pub proof fn lemma_bucket_of(off: Seq<u32>, ncells: int, lo: int, s: int) -> (c: int)
    requires
        0 <= lo < ncells,
        off.len() == ncells + 1,
        off[lo] <= s < off[ncells],
        forall|a: int, b: int| 0 <= a <= b <= ncells ==> #[trigger] off[a] <= #[trigger] off[b],
    ensures
        lo <= c < ncells,
        off[c] <= s < off[c + 1],
    decreases ncells - lo,
{
    if s < off[lo + 1] {
        lo
    } else {
        lemma_bucket_of(off, ncells, lo + 1, s)
    }
}

/// Number of points in each cell.
pub fn count_per_cell(cells: &Vec<usize>, ncells: usize) -> (counts: Vec<u32>)
    requires
        cells.len() <= u32::MAX,
        cells_below(cells@, ncells as int),
    ensures
        counts.len() == ncells,
        forall|c: int| 0 <= c < ncells ==> #[trigger] counts@[c] == count_in(cells@, cells.len() as int, c),
{
    let mut counts: Vec<u32> = vec![0u32; ncells];
    let mut i: usize = 0;
    while i < cells.len()
        invariant
            i <= cells.len() <= u32::MAX,
            cells_below(cells@, ncells as int),
            counts.len() == ncells,
            forall|c: int| 0 <= c < ncells ==> #[trigger] counts@[c] == count_in(cells@, i as int, c),
        decreases cells.len() - i,
    {
        let c = cells[i];
        proof {
            lemma_count_in_bound(cells@, i as int, c as int);
        }
        let next = counts[c] + 1;
        counts.set(c, next);
        assert forall|d: int| 0 <= d < ncells implies #[trigger] counts@[d] == count_in(cells@, i + 1, d) by {}
        i += 1;
    }
    counts
}

/// Exclusive prefix sums of the per-cell counts.
pub fn prefix_offsets(cells: &Vec<usize>, counts: &Vec<u32>, ncells: usize) -> (off: Vec<u32>)
    requires
        cells.len() <= u32::MAX,
        cells_below(cells@, ncells as int),
        counts.len() == ncells,
        forall|c: int| 0 <= c < ncells ==> #[trigger] counts@[c] == count_in(cells@, cells.len() as int, c),
    ensures
        is_prefix_of_counts(off@, cells@, ncells as int),
{
    let ghost n = cells.len() as int;
    let mut off: Vec<u32> = Vec::new();
    off.push(0);
    proof {
        lemma_count_below_zero(cells@, n);
    }
    let mut c: usize = 0;
    while c < ncells
        invariant
            c <= ncells,
            n == cells.len() <= u32::MAX,
            counts.len() == ncells,
            forall|d: int| 0 <= d < ncells ==> #[trigger] counts@[d] == count_in(cells@, n, d),
            off.len() == c + 1,
            forall|d: int| 0 <= d <= c ==> #[trigger] off@[d] == count_below(cells@, n, d),
        decreases ncells - c,
    {
        proof {
            lemma_count_below_step(cells@, n, c as int);
            lemma_count_below_bound(cells@, n, c + 1);
        }
        let next = off[c] + counts[c];
        off.push(next);
        c += 1;
    }
    off
}

/// Place every point index in the slot range of its cell, in increasing point
/// order within a cell.
pub fn scatter(cells: &Vec<usize>, off: &Vec<u32>, ncells: usize) -> (idx: Vec<u32>)
    requires
        cells.len() <= u32::MAX,
        cells_below(cells@, ncells as int),
        is_prefix_of_counts(off@, cells@, ncells as int),
    ensures
        idx.len() == cells.len(),
        seq_in_range(idx@, cells.len() as int),
        seq_distinct(idx@),
        buckets_hold_their_cells(idx@, off@, cells@, ncells as int),
{
    let n = cells.len();
    proof {
        lemma_prefix_shape(off@, cells@, ncells as int);
    }
    let mut cursors: Vec<u32> = Vec::new();
    let mut c: usize = 0;
    while c < ncells
        invariant
            c <= ncells,
            off.len() == ncells + 1,
            cursors.len() == c,
            forall|d: int| 0 <= d < c ==> #[trigger] cursors@[d] == off@[d],
        decreases ncells - c,
    {
        cursors.push(off[c]);
        c += 1;
    }
    let mut idx: Vec<u32> = vec![0u32; n];
    let ghost mut owner: Seq<int> = Seq::new(n as nat, |s: int| -1int);
    let mut i: usize = 0;
    while i < n
        invariant
            i <= n == cells.len() <= u32::MAX,
            cells_below(cells@, ncells as int),
            is_prefix_of_counts(off@, cells@, ncells as int),
            off@[0] == 0,
            off@[ncells as int] == n,
            forall|a: int, b: int| 0 <= a <= b <= ncells ==> #[trigger] off@[a] <= #[trigger] off@[b],
            forall|d: int| 0 <= d < ncells ==> #[trigger] off@[d + 1] == off@[d] + count_in(cells@, n as int, d),
            cursors.len() == ncells,
            idx.len() == n,
            owner.len() == n,
            forall|d: int| 0 <= d < ncells ==> #[trigger] cursors@[d] == off@[d] + count_in(cells@, i as int, d),
            forall|s: int| 0 <= s < n && #[trigger] owner[s] >= 0 ==> {
                &&& owner[s] < i
                &&& idx@[s] == owner[s]
                &&& off@[cells@[owner[s]] as int] <= s < cursors@[cells@[owner[s]] as int]
            },
            forall|d: int, s: int| #![trigger cursors@[d], owner[s]]
                0 <= d < ncells && off@[d] <= s < cursors@[d] ==> owner[s] >= 0,
            forall|s1: int, s2: int| 0 <= s1 < n && 0 <= s2 < n && #[trigger] owner[s1] >= 0
                && owner[s1] == #[trigger] owner[s2] ==> s1 == s2,
        decreases n - i,
    {
        let c = cells[i];
        proof {
            lemma_count_in_monotone(cells@, i + 1, n as int, c as int);
            lemma_count_in_bound(cells@, i as int, c as int);
        }
        let s = cursors[c] as usize;
        assert(s < off@[c + 1]);
        proof {
            if owner[s as int] >= 0 {
                let j = owner[s as int];
                let d = cells@[j] as int;
                lemma_count_in_monotone(cells@, i as int, n as int, d);
                assert(cursors@[d] <= off@[d + 1]);
                if d < c {
                    assert(off@[d + 1] <= off@[c as int]);
                } else if d > c {
                    assert(off@[c + 1] <= off@[d]);
                }
                assert(false);
            }
        }
        idx.set(s, i as u32);
        let next = cursors[c] + 1;
        cursors.set(c, next);
        proof {
            let ghost prev = owner;
            owner = owner.update(s as int, i as int);
            assert forall|d: int, t: int| #![trigger cursors@[d], owner[t]]
                0 <= d < ncells && off@[d] <= t < cursors@[d] implies owner[t] >= 0 by {
                lemma_count_in_monotone(cells@, i + 1, n as int, d);
                assert(off@[d + 1] <= off@[ncells as int]);
                if t != s {
                    assert(owner[t] == prev[t]);
                }
            }
        }
        i += 1;
    }
    proof {
        assert forall|s: int| 0 <= s < n implies owner[s] >= 0 by {
            let d = lemma_bucket_of(off@, ncells as int, 0, s);
            assert(cursors@[d] == off@[d + 1]);
        }
        assert forall|d: int, k: int| #![trigger off@[d], idx@[k]]
            0 <= d < ncells && off@[d] <= k < off@[d + 1] implies cells@[idx@[k] as int] == d by {
            assert(cursors@[d] == off@[d + 1]);
            let j = owner[k];
            let e = cells@[j] as int;
            if e < d {
                assert(off@[e + 1] <= off@[d]);
            } else if e > d {
                assert(off@[d + 1] <= off@[e]);
            }
        }
        assert forall|k: int| 0 <= k < n implies #[trigger] idx@[k] < n by {
            assert(owner[k] >= 0);
        }
        assert forall|j: int, k: int| 0 <= j < n && 0 <= k < n && j != k implies #[trigger] idx@[j] != #[trigger] idx@[k] by {
            assert(owner[j] >= 0 && owner[k] >= 0);
        }
    }
    idx
}


/// Whether point `a` comes before point `b` inside a cell.
pub fn comes_before(points: &[[u32; 3]], a: u32, b: u32) -> (r: bool)
    requires
        a < points@.len(),
        b < points@.len(),
    ensures
        r == support_before(points@, a as int, b as int),
        r == (total_key(points@[a as int][2]) < total_key(points@[b as int][2])
            || (total_key(points@[a as int][2]) == total_key(points@[b as int][2])
                && (total_key(points@[a as int][1]) < total_key(points@[b as int][1])
                    || (total_key(points@[a as int][1]) == total_key(points@[b as int][1])
                        && (total_key(points@[a as int][0]) < total_key(points@[b as int][0])
                            || (total_key(points@[a as int][0]) == total_key(points@[b as int][0]) && a < b)))))),
{
    let pa = points[a as usize];
    let pb = points[b as usize];
    let za = total_order_key(pa[2]);
    let zb = total_order_key(pb[2]);
    if za != zb {
        return za < zb;
    }
    let ya = total_order_key(pa[1]);
    let yb = total_order_key(pb[1]);
    if ya != yb {
        return ya < yb;
    }
    let xa = total_order_key(pa[0]);
    let xb = total_order_key(pb[0]);
    if xa != xb {
        return xa < xb;
    }
    a < b
}

/// Insertion sort of the slots `[b, e)` into `support_before` order; the
/// other slots are left alone.
pub fn sort_range(idx: &mut Vec<u32>, b: usize, e: usize, points: &[[u32; 3]])
    requires
        b <= e <= old(idx).len(),
        seq_in_range(old(idx)@, points@.len() as int),
        seq_distinct(old(idx)@),
    ensures
        final(idx).len() == old(idx).len(),
        seq_in_range(final(idx)@, points@.len() as int),
        seq_distinct(final(idx)@),
        forall|k: int| 0 <= k < old(idx).len() && (k < b || k >= e) ==> #[trigger] final(idx)@[k] == old(idx)@[k],
        forall|k: int| b <= k < e ==> old(idx)@.subrange(b as int, e as int).contains(#[trigger] final(idx)@[k]),
        range_sorted(final(idx)@, points@, b as int, e as int),
{
    let ghost start = idx@;
    if e == b {
        return;
    }
    assert forall|k: int| b <= k < e implies start.subrange(b as int, e as int).contains(#[trigger] idx@[k]) by {
        assert(start.subrange(b as int, e as int)[k - b] == idx@[k]);
    }
    let mut j: usize = b + 1;
    while j < e
        invariant
            b < j <= e <= idx.len(),
            idx.len() == start.len(),
            seq_in_range(idx@, points@.len() as int),
            seq_distinct(idx@),
            forall|k: int| 0 <= k < start.len() && (k < b || k >= e) ==> #[trigger] idx@[k] == start[k],
            forall|k: int| b <= k < e ==> start.subrange(b as int, e as int).contains(#[trigger] idx@[k]),
            range_sorted(idx@, points@, b as int, j as int),
        decreases e - j,
    {
        let mut k: usize = j;
        let mut moving: bool = comes_before(points, idx[k], idx[k - 1]);
        while moving
            invariant
                b <= k <= j < e <= idx.len(),
                idx.len() == start.len(),
                seq_in_range(idx@, points@.len() as int),
                seq_distinct(idx@),
                forall|t: int| 0 <= t < start.len() && (t < b || t >= e) ==> #[trigger] idx@[t] == start[t],
                forall|t: int| b <= t < e ==> start.subrange(b as int, e as int).contains(#[trigger] idx@[t]),
                forall|p: int, q: int| b <= p < q <= j && q != k ==> support_before(points@, #[trigger] idx@[p] as int, #[trigger] idx@[q] as int),
                moving ==> k > b && support_before(points@, idx@[k as int] as int, idx@[k - 1] as int),
                !moving ==> k == b || !support_before(points@, idx@[k as int] as int, idx@[k - 1] as int),
            decreases k,
        {
            let ghost before_swap = idx@;
            let lower = idx[k - 1];
            let upper = idx[k];
            idx.set(k - 1, upper);
            idx.set(k, lower);
            proof {
                assert(idx@ == before_swap.update(k - 1, upper).update(k as int, lower));
                assert forall|p: int, q: int| 0 <= p < idx.len() && 0 <= q < idx.len() && p != q implies #[trigger] idx@[p] != #[trigger] idx@[q] by {
                    let pp = if p == k { k - 1 } else if p == k - 1 { k as int } else { p };
                    let qq = if q == k { k - 1 } else if q == k - 1 { k as int } else { q };
                    assert(idx@[p] == before_swap[pp]);
                    assert(idx@[q] == before_swap[qq]);
                }
                assert forall|t: int| b <= t < e implies start.subrange(b as int, e as int).contains(#[trigger] idx@[t]) by {
                    if t == k {
                        assert(idx@[t] == before_swap[k - 1]);
                    } else if t == k - 1 {
                        assert(idx@[t] == before_swap[k as int]);
                    } else {
                        assert(idx@[t] == before_swap[t]);
                    }
                }
                assert forall|p: int, q: int| b <= p < q <= j && q != k - 1 implies support_before(points@, #[trigger] idx@[p] as int, #[trigger] idx@[q] as int) by {
                    if q == k {
                        if p < k - 1 {
                            assert(support_before(points@, before_swap[p] as int, before_swap[k - 1] as int));
                        }
                    } else if p == k - 1 {
                        assert(support_before(points@, before_swap[k as int] as int, before_swap[q] as int));
                    } else if p == k {
                        assert(support_before(points@, before_swap[k - 1] as int, before_swap[q] as int));
                    } else {
                        assert(support_before(points@, before_swap[p] as int, before_swap[q] as int));
                    }
                }
            }
            k = k - 1;
            if k > b {
                moving = comes_before(points, idx[k], idx[k - 1]);
            } else {
                moving = false;
            }
        }
        proof {
            assert forall|p: int, q: int| b <= p < q < j + 1 implies support_before(points@, #[trigger] idx@[p] as int, #[trigger] idx@[q] as int) by {
                if q == k && k > b {
                    assert(idx@[k as int] != idx@[k - 1]);
                    assert(support_before(points@, idx@[k - 1] as int, idx@[k as int] as int));
                    if p < k - 1 {
                        assert(support_before(points@, idx@[p] as int, idx@[k - 1] as int));
                    }
                }
            }
        }
        j += 1;
    }
}

/// `off` and `idx` are the counting-sort grouping of the points by cell: the
/// prefix array of the cell counts, and every point exactly once, the points
/// of cell `c` in slots `[off[c], off[c + 1])` in `support_before` order.
pub open spec fn is_cell_grouping(
    off: Seq<u32>,
    idx: Seq<u32>,
    cells: Seq<usize>,
    points: Seq<[u32; 3]>,
    ncells: int,
) -> bool {
    &&& is_prefix_of_counts(off, cells, ncells)
    &&& idx.len() == cells.len()
    &&& seq_in_range(idx, cells.len() as int)
    &&& seq_distinct(idx)
    &&& buckets_hold_their_cells(idx, off, cells, ncells)
    &&& buckets_sorted(idx, off, points, ncells)
}

/// The slots of every cell are in `support_before` order.
#[verifier::opaque]
pub open spec fn buckets_sorted(idx: Seq<u32>, off: Seq<u32>, points: Seq<[u32; 3]>, ncells: int) -> bool {
    forall|c: int| 0 <= c < ncells ==> range_sorted(idx, points, #[trigger] off[c] as int, off[c + 1] as int)
}

/// Sorting the slots of cell `c` keeps every slot's point in its cell.
proof fn lemma_sorted_bucket_keeps_cells(prev: Seq<u32>, idx: Seq<u32>, off: Seq<u32>, cells: Seq<usize>, ncells: int, c: int)
    requires
        0 <= c < ncells,
        off.len() == ncells + 1,
        forall|a: int, b: int| 0 <= a <= b <= ncells ==> #[trigger] off[a] <= #[trigger] off[b],
        off[ncells] == prev.len() == idx.len(),
        buckets_hold_their_cells(prev, off, cells, ncells),
        forall|k: int| 0 <= k < prev.len() && (k < off[c] || k >= off[c + 1]) ==> #[trigger] idx[k] == prev[k],
        forall|k: int| off[c] <= k < off[c + 1] ==> prev.subrange(off[c] as int, off[c + 1] as int).contains(#[trigger] idx[k]),
    ensures
        buckets_hold_their_cells(idx, off, cells, ncells),
{
    let lo = off[c] as int;
    let hi = off[c + 1] as int;
    assert forall|d: int, k: int| #![trigger off[d], idx[k]]
        0 <= d < ncells && off[d] <= k < off[d + 1] implies cells[idx[k] as int] == d by {
        if lo <= k < hi {
            let w = choose|w: int| 0 <= w < prev.subrange(lo, hi).len() && prev.subrange(lo, hi)[w] == idx[k];
            assert(prev[lo + w] == idx[k]);
            assert(cells[prev[lo + w] as int] == c);
            if d < c {
                assert(off[d + 1] <= off[c]);
            } else if d > c {
                assert(off[c + 1] <= off[d]);
            }
        } else {
            assert(off[d + 1] <= off[ncells]);
            assert(idx[k] == prev[k]);
        }
    }
}

/// Sorting the slots of cell `c` keeps the cells before it sorted.
proof fn lemma_sorted_bucket_keeps_order(prev: Seq<u32>, idx: Seq<u32>, off: Seq<u32>, points: Seq<[u32; 3]>, ncells: int, c: int)
    requires
        0 <= c < ncells,
        off.len() == ncells + 1,
        forall|a: int, b: int| 0 <= a <= b <= ncells ==> #[trigger] off[a] <= #[trigger] off[b],
        off[ncells] == prev.len() == idx.len(),
        forall|k: int| 0 <= k < prev.len() && (k < off[c] || k >= off[c + 1]) ==> #[trigger] idx[k] == prev[k],
        forall|d: int| 0 <= d < c ==> range_sorted(prev, points, #[trigger] off[d] as int, off[d + 1] as int),
        range_sorted(idx, points, off[c] as int, off[c + 1] as int),
    ensures
        forall|d: int| 0 <= d < c + 1 ==> range_sorted(idx, points, #[trigger] off[d] as int, off[d + 1] as int),
{
    assert forall|d: int| 0 <= d < c + 1 implies range_sorted(idx, points, #[trigger] off[d] as int, off[d + 1] as int) by {
        if d < c {
            assert(off[d + 1] <= off[c]);
            assert forall|p: int, q: int| off[d] <= p < q < off[d + 1] implies support_before(points, #[trigger] idx[p] as int, #[trigger] idx[q] as int) by {
                assert(idx[p] == prev[p]);
                assert(idx[q] == prev[q]);
            }
        }
    }
}

/// Sort the slots of every cell into `support_before` order.
#[verifier::rlimit(60)]
fn sort_buckets(idx: &mut Vec<u32>, off: &Vec<u32>, ncells: usize, points: &[[u32; 3]], Ghost(cells): Ghost<Seq<usize>>)
    requires
        off.len() == ncells + 1,
        off@[ncells as int] == old(idx).len() == points@.len(),
        forall|a: int, b: int| 0 <= a <= b <= ncells ==> #[trigger] off@[a] <= #[trigger] off@[b],
        seq_in_range(old(idx)@, points@.len() as int),
        seq_distinct(old(idx)@),
        buckets_hold_their_cells(old(idx)@, off@, cells, ncells as int),
    ensures
        final(idx).len() == old(idx).len(),
        seq_in_range(final(idx)@, points@.len() as int),
        seq_distinct(final(idx)@),
        buckets_hold_their_cells(final(idx)@, off@, cells, ncells as int),
        forall|c: int| 0 <= c < ncells ==> range_sorted(final(idx)@, points@, #[trigger] off@[c] as int, off@[c + 1] as int),
{
    let ghost n = points@.len() as int;
    let mut c: usize = 0;
    while c < ncells
        invariant
            c <= ncells,
            off.len() == ncells + 1,
            off@[ncells as int] == n == idx.len(),
            n == points@.len(),
            forall|a: int, b: int| 0 <= a <= b <= ncells ==> #[trigger] off@[a] <= #[trigger] off@[b],
            seq_in_range(idx@, n),
            seq_distinct(idx@),
            buckets_hold_their_cells(idx@, off@, cells, ncells as int),
            forall|d: int| 0 <= d < c ==> range_sorted(idx@, points@, #[trigger] off@[d] as int, off@[d + 1] as int),
        decreases ncells - c,
    {
        let ghost prev = idx@;
        let lo = off[c] as usize;
        let hi = off[c + 1] as usize;
        assert(off@[c + 1] <= off@[ncells as int]);
        sort_range(idx, lo, hi, points);
        proof {
            lemma_sorted_bucket_keeps_cells(prev, idx@, off@, cells, ncells as int, c as int);
            lemma_sorted_bucket_keeps_order(prev, idx@, off@, points@, ncells as int, c as int);
        }
        c += 1;
    }
}

/// Group the points by cell: counting sort, then the within-cell order.
pub fn group_by_cell(cells: &Vec<usize>, ncells: usize, points: &[[u32; 3]]) -> (r: (Vec<u32>, Vec<u32>))
    requires
        cells.len() == points@.len() <= u32::MAX,
        cells_below(cells@, ncells as int),
    ensures
        is_cell_grouping(r.0@, r.1@, cells@, points@, ncells as int),
{
    let counts = count_per_cell(cells, ncells);
    let off = prefix_offsets(cells, &counts, ncells);
    let mut idx = scatter(cells, &off, ncells);
    proof {
        lemma_prefix_shape(off@, cells@, ncells as int);
    }
    sort_buckets(&mut idx, &off, ncells, points, Ghost(cells@));
    proof {
        reveal(buckets_sorted);
    }
    (off, idx)
}



} // verus!
