use vstd::prelude::*;
use vstd::arithmetic::div_mod::{
    lemma_div_is_ordered, lemma_div_multiples_vanish_fancy, lemma_fundamental_div_mod,
    lemma_mod_bound,
};
use crate::forest::{
    cheb_dist, count_grid, count_live_grid, fire_ring, has_burning, has_cell, has_tree,
    lemma_count_grid_full, lemma_count_grid_pos, lemma_fire_ring_burning, lemma_fire_ring_done,
    lemma_percentage_all_burned, lemma_percentage_all_empty, lemma_spread_live_decreases,
    lemma_step_fire_ring, reach_of, valid_at, Cell, Forest,
};

verus! {

/// The first trial index of worker `i` when `total` trials are split
/// over `workers` workers: each worker gets `total / workers` trials,
/// and each of the first `total % workers` workers one more, so no
/// trial is dropped when the split is uneven.
pub open spec fn slice_start(total: int, workers: int, i: int) -> int {
    i * (total / workers) + (if i <= total % workers {
        i
    } else {
        total % workers
    })
}

/// How many trials worker `i` runs.
pub open spec fn slice_size(total: int, workers: int, i: int) -> int {
    total / workers + (if i < total % workers {
        1int
    } else {
        0int
    })
}

proof fn lemma_slice_start_bounds(total: int, workers: int, i: int)
    requires
        1 <= workers,
        0 <= total,
        0 <= i <= workers,
    ensures
        0 <= slice_start(total, workers, i) <= total,
    decreases workers - i,
{
    let q = total / workers;
    lemma_div_is_ordered(0, total, workers);
    lemma_mod_bound(total, workers);
    if i == workers {
        lemma_fundamental_div_mod(total, workers);
        assert(workers * q == i * q) by (nonlinear_arith)
            requires
                i == workers,
        ;
    } else {
        lemma_slice_start_bounds(total, workers, i + 1);
        assert((i + 1) * q == i * q + q) by (nonlinear_arith);
        assert(i * q >= 0) by (nonlinear_arith)
            requires
                i >= 0,
                q >= 0,
        ;
    }
}

/// The contiguous slices assigned to the workers tile `0..total`
/// exactly: worker 0 starts at 0, each worker's slice ends where the
/// next one begins, no slice is negative, and the last slice ends at
/// `total`. No trial is lost to an uneven split.
pub proof fn lemma_worker_slices_partition(total: int, workers: int)
    requires
        1 <= workers,
        0 <= total,
    ensures
        slice_start(total, workers, 0) == 0,
        slice_start(total, workers, workers) == total,
        forall|i: int|
            0 <= i < workers ==> slice_start(total, workers, i + 1) == slice_start(
                total,
                workers,
                i,
            ) + slice_size(total, workers, i),
        forall|i: int| 0 <= i < workers ==> slice_size(total, workers, i) >= 0,
{
    let q = total / workers;
    let rem = total % workers;
    lemma_div_is_ordered(0, total, workers);
    lemma_mod_bound(total, workers);
    lemma_fundamental_div_mod(total, workers);
    assert(workers * q == q * workers) by (nonlinear_arith);
    assert(slice_start(total, workers, workers) == workers * q + rem) by (nonlinear_arith)
        requires
            rem < workers,
            slice_start(total, workers, workers) == workers * q + (if workers <= rem {
                workers
            } else {
                rem
            }),
    ;
    assert forall|i: int| 0 <= i < workers implies slice_start(total, workers, i + 1)
        == slice_start(total, workers, i) + slice_size(total, workers, i) by {
        assert((i + 1) * q == i * q + q) by (nonlinear_arith);
    }
}

fn slice_start_exec(total: usize, workers: usize, i: usize) -> (r: usize)
    requires
        1 <= workers,
        i <= workers,
    ensures
        r == slice_start(total as int, workers as int, i as int),
{
    proof {
        lemma_slice_start_bounds(total as int, workers as int, i as int);
        lemma_mod_bound(total as int, workers as int);
        lemma_div_is_ordered(0, total as int, workers as int);
        assert(i as int * (total as int / workers as int) >= 0) by (nonlinear_arith)
            requires
                i as int >= 0,
                total as int / workers as int >= 0,
        ;
    }
    let q = total / workers;
    let rem = total % workers;
    if i <= rem {
        i * q + i
    } else {
        i * q + rem
    }
}

/// The half-open trial range `[start, end)` of worker `idx` when
/// `total` trials are split over `workers` workers.
pub fn worker_slice(total: usize, workers: usize, idx: usize) -> (r: (usize, usize))
    requires
        1 <= workers,
        idx < workers,
    ensures
        r.0 == slice_start(total as int, workers as int, idx as int),
        r.1 == slice_start(total as int, workers as int, idx as int + 1),
        r.0 <= r.1 <= total,
{
    proof {
        lemma_slice_start_bounds(total as int, workers as int, idx as int + 1);
        lemma_worker_slices_partition(total as int, workers as int);
    }
    let start = slice_start_exec(total, workers, idx);
    let end = slice_start_exec(total, workers, idx + 1);
    proof {
        assert(slice_start(total as int, workers as int, idx as int + 1) == slice_start(
            total as int,
            workers as int,
            idx as int,
        ) + slice_size(total as int, workers as int, idx as int));
        assert(slice_size(total as int, workers as int, idx as int) >= 0);
    }
    (start, end)
}

/// The sum of a sequence of trial results.
pub open spec fn sum_seq(s: Seq<u64>) -> int
    decreases s.len(),
{
    if s.len() == 0 {
        0
    } else {
        sum_seq(s.drop_last()) + s.last()
    }
}

/// The arithmetic mean of `s`, rounded half up to the nearest unit.
pub open spec fn mean_rounded(s: Seq<u64>) -> int {
    (sum_seq(s) + s.len() / 2) / s.len() as int
}

/// The mean of a non-empty collection of burned percentages (in
/// hundredths of a percent), rounded half up to the nearest
/// hundredth of a percent.
pub fn mean_hundredths(results: &Vec<u64>) -> (r: u64)
    requires
        results@.len() >= 1,
        forall|i: int| 0 <= i < results@.len() ==> results@[i] <= 10000,
    ensures
        r == mean_rounded(results@),
        r <= 10000,
{
    let n = results.len();
    let mut acc: u128 = 0;
    let mut i: usize = 0;
    proof {
        assert(results@.subrange(0, 0) =~= Seq::<u64>::empty());
    }
    while i < n
        invariant
            n == results@.len(),
            forall|k: int| 0 <= k < results@.len() ==> results@[k] <= 10000,
            i <= n,
            acc == sum_seq(results@.subrange(0, i as int)),
            acc <= 10000 * (i as int),
        decreases n - i,
    {
        proof {
            let pre = results@.subrange(0, i as int);
            let ext = results@.subrange(0, i as int + 1);
            assert(ext.drop_last() =~= pre);
            assert(ext.last() == results@[i as int]);
        }
        acc += results[i] as u128;
        i += 1;
    }
    proof {
        assert(results@.subrange(0, n as int) =~= results@);
    }
    let num: u128 = acc + ((n / 2) as u128);
    let r_wide: u128 = num / (n as u128);
    proof {
        let s = sum_seq(results@);
        let len = results@.len() as int;
        lemma_div_is_ordered(s + len / 2, len * 10000 + len / 2, len);
        lemma_div_is_ordered(0, s + len / 2, len);
        lemma_div_multiples_vanish_fancy(10000, len / 2, len);
        assert(10000 * len == len * 10000) by (nonlinear_arith);
    }
    r_wide as u64
}

/// One complete simulation: a fresh forest grown to `density`
/// percent, ignited, and advanced until no cell burns; the result is
/// its final burned percentage in hundredths of a percent. Total by
/// construction: each step strictly shrinks the count of cells that
/// can still carry fire. At the two deterministic densities the
/// outcome is pinned: nothing burns at zero, everything at one
/// hundred.
pub fn run_trial(width: usize, height: usize, density: u64) -> (r: u64)
    requires
        1 <= width,
        1 <= height,
        width * height <= usize::MAX,
        width < 0x7fff_ffff,
        height < 0x7fff_ffff,
        density <= 100,
    ensures
        r <= 10000,
        density == 0 ==> r == 0,
        density == 100 ==> r == 10000,
{
    let ghost w = width as int;
    let ghost h = height as int;
    let ghost mut sx: int = 0;
    let ghost mut sy: int = 0;
    let ghost mut k: int = 0;
    let mut forest = Forest::new(width, height);
    forest.grow(density);
    proof {
        if density == 0 {
            // at density zero the tree target is zero, so every cell
            // is still Empty and the trial ends with nothing burned
            assert forall|x: int, y: int| valid_at(forest@, x, y)
                implies forest@[y][x] == Cell::Empty by {
                if forest@[y][x] == Cell::Tree {
                    lemma_count_grid_pos(forest@, x, y, Cell::Tree);
                }
            }
            assert(!has_cell(forest@, Cell::Tree));
        }
        if density == 100 {
            // at full density the tree target is the whole grid
            assert(100 * (w * h) == w * h * 100) by (nonlinear_arith);
            vstd::arithmetic::div_mod::lemma_div_multiples_vanish_fancy(w * h, 50, 100);
            assert(count_grid(forest@, Cell::Tree) == w * h);
            assert(forest@.len() * w == w * h) by (nonlinear_arith)
                requires
                    forest@.len() == h,
            ;
            lemma_count_grid_full(forest@, w, Cell::Tree);
        }
    }
    let ghost pre_fire = forest@;
    forest.start_fire();
    proof {
        if density == 100 {
            // every cell was a Tree, so ignition lit exactly one: the
            // seed of a fire ring of radius zero
            assert(valid_at(pre_fire, 0, 0));
            assert(has_tree(pre_fire));
            let (x0, y0) = choose|x0: int, y0: int|
                valid_at(pre_fire, x0, y0) && pre_fire[y0][x0] == Cell::Tree && forest@
                    == pre_fire.update(y0, pre_fire[y0].update(x0, Cell::Burning));
            sx = x0;
            sy = y0;
            k = 0;
            assert forall|x: int, y: int| valid_at(forest@, x, y) implies forest@[y][x] == (
            if cheb_dist(x, y, sx, sy) < 0 {
                Cell::Burned
            } else if cheb_dist(x, y, sx, sy) == 0 {
                Cell::Burning
            } else {
                Cell::Tree
            }) by {
                assert(valid_at(pre_fire, x, y));
                if !(x == x0 && y == y0) {
                    assert(forest@[y][x] == pre_fire[y][x]);
                }
            }
            assert(fire_ring(forest@, sx, sy, 0));
        }
    }
    loop
        invariant
            forest.wf(),
            forest.width == width,
            forest.height == height,
            w == width as int,
            h == height as int,
            density == 0 ==> forall|x: int, y: int|
                valid_at(forest@, x, y) ==> forest@[y][x] == Cell::Empty,
            density == 100 ==> 0 <= sx < w && 0 <= sy < h && 0 <= k && fire_ring(
                forest@,
                sx,
                sy,
                k,
            ),
        ensures
            forest.wf(),
            forest.width == width,
            forest.height == height,
            w == width as int,
            h == height as int,
            !has_burning(forest@),
            density == 0 ==> forall|x: int, y: int|
                valid_at(forest@, x, y) ==> forest@[y][x] == Cell::Empty,
            density == 100 ==> 0 <= sx < w && 0 <= sy < h && 0 <= k && fire_ring(
                forest@,
                sx,
                sy,
                k,
            ),
        decreases count_live_grid(forest@),
    {
        if !forest.has_burning_trees() {
            break ;
        }
        let ghost pre = forest@;
        proof {
            if density == 0 {
                let (x, y) = choose|x: int, y: int|
                    valid_at(pre, x, y) && pre[y][x] == Cell::Burning;
                assert(false);
            }
        }
        forest.spread_fire();
        proof {
            assert(forall|j: int|
                0 <= j < pre.len() ==> (#[trigger] forest@[j]).len() == pre[j].len());
            lemma_spread_live_decreases(pre, forest@);
            if density == 100 {
                lemma_step_fire_ring(pre, forest@, w, h, sx, sy, k);
                k = k + 1;
            }
        }
    }
    proof {
        if density == 0 {
            lemma_percentage_all_empty(forest@);
        }
        if density == 100 {
            // no cell burns, so the ring has left the grid and every
            // cell is Burned
            if k <= reach_of(w, h, sx, sy) {
                lemma_fire_ring_burning(forest@, w, h, sx, sy, k);
                assert(false);
            }
            lemma_fire_ring_done(forest@, w, h, sx, sy, k);
            lemma_percentage_all_burned(forest@, w);
        }
    }
    forest.burned_percentage_hundredths()
}

/// A worker's whole slice: `count` independent trials at one density,
/// on fresh forests of the given dimensions.
pub fn run_trials(width: usize, height: usize, density: u64, count: usize) -> (r: Vec<u64>)
    requires
        1 <= width,
        1 <= height,
        width * height <= usize::MAX,
        width < 0x7fff_ffff,
        height < 0x7fff_ffff,
        density <= 100,
    ensures
        r@.len() == count,
        forall|i: int| 0 <= i < count ==> r@[i] <= 10000,
        density == 0 ==> forall|i: int| 0 <= i < count ==> r@[i] == 0,
        density == 100 ==> forall|i: int| 0 <= i < count ==> r@[i] == 10000,
{
    let mut r: Vec<u64> = Vec::new();
    let mut i: usize = 0;
    while i < count
        invariant
            1 <= width,
            1 <= height,
            width * height <= usize::MAX,
            width < 0x7fff_ffff,
            height < 0x7fff_ffff,
            density <= 100,
            i <= count,
            r@.len() == i,
            forall|k: int| 0 <= k < i ==> r@[k] <= 10000,
            density == 0 ==> forall|k: int| 0 <= k < i ==> r@[k] == 0,
            density == 100 ==> forall|k: int| 0 <= k < i ==> r@[k] == 10000,
        decreases count - i,
    {
        let burned = run_trial(width, height, density);
        r.push(burned);
        i += 1;
    }
    r
}

} // verus!
