use vstd::prelude::*;
use vstd::arithmetic::div_mod::{lemma_div_is_ordered, lemma_div_multiples_vanish_fancy};
use vstd::arithmetic::mul::lemma_mul_inequality;
use vstd::pervasive::unreached;
use crate::point::{Point, in_bounds, is_neighbor};
use crate::rng::{new_rng, rng_below};

verus! {

/// How many random draws growth and ignition make before they fall
/// back to a deterministic scan, so that both always terminate.
pub const RETRY_LIMIT: usize = 1000;

/// One cell of the forest. A cell only ever moves along the chain
/// Empty -> Tree -> Burning -> Burned, and Burned is terminal.
#[derive(Copy, Clone, Debug, PartialEq, Eq, Structural)]
pub enum Cell {
    Empty,
    Tree,
    Burning,
    Burned,
}

/// `(x, y)` addresses a cell of the grid `g`.
pub open spec fn valid_at(g: Seq<Seq<Cell>>, x: int, y: int) -> bool {
    0 <= y < g.len() && 0 <= x < g[y].len()
}

/// Some cell of `g` holds the value `c`.
pub open spec fn has_cell(g: Seq<Seq<Cell>>, c: Cell) -> bool {
    exists|x: int, y: int| valid_at(g, x, y) && g[y][x] == c
}

/// Some cell of `g` is Burning.
pub open spec fn has_burning(g: Seq<Seq<Cell>>) -> bool {
    has_cell(g, Cell::Burning)
}

/// Some cell of `g` is a Tree.
pub open spec fn has_tree(g: Seq<Seq<Cell>>) -> bool {
    has_cell(g, Cell::Tree)
}

/// `(x1, y1)` and `(x2, y2)` are distinct and differ by at most one
/// in each coordinate: 8-connected (Moore) adjacency.
pub open spec fn adjacent(x1: int, y1: int, x2: int, y2: int) -> bool {
    &&& !(x1 == x2 && y1 == y2)
    &&& -1 <= x1 - x2 <= 1
    &&& -1 <= y1 - y2 <= 1
}

/// Some cell adjacent to `(x, y)` is Burning in `g`.
pub open spec fn burning_neighbor(g: Seq<Seq<Cell>>, x: int, y: int) -> bool {
    exists|i: int, j: int| valid_at(g, i, j) && adjacent(i, j, x, y) && g[j][i] == Cell::Burning
}

/// The value cell `(x, y)` takes after one synchronous propagation
/// step of the whole grid `g`: a Burning cell burns out, a Tree with a
/// Burning neighbor ignites, and every other cell is unchanged.
pub open spec fn step_cell(g: Seq<Seq<Cell>>, x: int, y: int) -> Cell {
    match g[y][x] {
        Cell::Burning => Cell::Burned,
        Cell::Tree => if burning_neighbor(g, x, y) {
            Cell::Burning
        } else {
            Cell::Tree
        },
        c => c,
    }
}

/// How many entries of `row` hold the value `c`.
pub open spec fn count_row(row: Seq<Cell>, c: Cell) -> nat
    decreases row.len(),
{
    if row.len() == 0 {
        0
    } else {
        count_row(row.drop_last(), c) + (if row.last() == c {
            1nat
        } else {
            0nat
        })
    }
}

/// How many cells of `g` hold the value `c`.
pub open spec fn count_grid(g: Seq<Seq<Cell>>, c: Cell) -> nat
    decreases g.len(),
{
    if g.len() == 0 {
        0
    } else {
        count_grid(g.drop_last(), c) + count_row(g.last(), c)
    }
}

/// A cell that can still carry fire forward: a Tree or a Burning cell.
pub open spec fn live_cell(c: Cell) -> bool {
    c == Cell::Tree || c == Cell::Burning
}

/// How many entries of `row` are live.
pub open spec fn count_live_row(row: Seq<Cell>) -> nat
    decreases row.len(),
{
    if row.len() == 0 {
        0
    } else {
        count_live_row(row.drop_last()) + (if live_cell(row.last()) {
            1nat
        } else {
            0nat
        })
    }
}

/// How many cells of `g` are live. Each propagation step with a
/// Burning cell present strictly shrinks this measure, which is what
/// bounds a whole simulation by the cell count of the grid.
pub open spec fn count_live_grid(g: Seq<Seq<Cell>>) -> nat
    decreases g.len(),
{
    if g.len() == 0 {
        0
    } else {
        count_live_grid(g.drop_last()) + count_live_row(g.last())
    }
}

/// The tree count that growing to `d` percent on a `w` by `h` grid
/// aims for: `w*h*d/100`, rounded half up.
pub open spec fn target_trees(w: int, h: int, d: int) -> int {
    (w * h * d + 50) / 100
}

/// The burned share of all flammable cells (Trees still standing plus
/// cells already Burned), in hundredths of a percent; 0 when no cell
/// is flammable.
pub open spec fn percentage_hundredths(g: Seq<Seq<Cell>>) -> int {
    let b = count_grid(g, Cell::Burned) as int;
    let t = b + count_grid(g, Cell::Tree) as int;
    if t == 0 {
        0
    } else {
        (10000 * b + t / 2) / t
    }
}

/// Changing one entry of a row moves its count for `c` by the
/// difference between the new and the old value at that entry.
pub proof fn lemma_count_row_update(row: Seq<Cell>, i: int, v: Cell, c: Cell)
    requires
        0 <= i < row.len(),
    ensures
        count_row(row.update(i, v), c) == count_row(row, c) + (if v == c {
            1int
        } else {
            0int
        }) - (if row[i] == c {
            1int
        } else {
            0int
        }),
    decreases row.len(),
{
    let r2 = row.update(i, v);
    if i == row.len() - 1 {
        assert(r2.drop_last() =~= row.drop_last());
    } else {
        assert(r2.drop_last() =~= row.drop_last().update(i, v));
        assert(r2.last() == row.last());
        lemma_count_row_update(row.drop_last(), i, v, c);
    }
}

/// Replacing one row moves the grid count by the difference between
/// the new and the old row's counts.
pub proof fn lemma_count_grid_update_row(g: Seq<Seq<Cell>>, y: int, row: Seq<Cell>, c: Cell)
    requires
        0 <= y < g.len(),
    ensures
        count_grid(g.update(y, row), c) == count_grid(g, c) - count_row(g[y], c) + count_row(
            row,
            c,
        ),
    decreases g.len(),
{
    let g2 = g.update(y, row);
    if y == g.len() - 1 {
        assert(g2.drop_last() =~= g.drop_last());
    } else {
        assert(g2.drop_last() =~= g.drop_last().update(y, row));
        assert(g2.last() == g.last());
        lemma_count_grid_update_row(g.drop_last(), y, row, c);
    }
}

/// Overwriting one cell moves the grid count for `c` by the
/// difference at that cell.
pub proof fn lemma_count_grid_set(g: Seq<Seq<Cell>>, x: int, y: int, v: Cell, c: Cell)
    requires
        valid_at(g, x, y),
    ensures
        count_grid(g.update(y, g[y].update(x, v)), c) == count_grid(g, c) + (if v == c {
            1int
        } else {
            0int
        }) - (if g[y][x] == c {
            1int
        } else {
            0int
        }),
{
    lemma_count_row_update(g[y], x, v, c);
    lemma_count_grid_update_row(g, y, g[y].update(x, v), c);
}

/// A row all of whose entries hold `c` counts its full length.
pub proof fn lemma_count_row_all(row: Seq<Cell>, c: Cell)
    requires
        forall|i: int| 0 <= i < row.len() ==> row[i] == c,
    ensures
        count_row(row, c) == row.len(),
    decreases row.len(),
{
    if row.len() > 0 {
        lemma_count_row_all(row.drop_last(), c);
    }
}

/// A row none of whose entries hold `c` counts zero.
pub proof fn lemma_count_row_none(row: Seq<Cell>, c: Cell)
    requires
        forall|i: int| 0 <= i < row.len() ==> row[i] != c,
    ensures
        count_row(row, c) == 0,
    decreases row.len(),
{
    if row.len() > 0 {
        lemma_count_row_none(row.drop_last(), c);
    }
}

/// Two distinct values together occupy no more entries than the row
/// has.
pub proof fn lemma_count_row_pair_le(row: Seq<Cell>, c1: Cell, c2: Cell)
    requires
        c1 != c2,
    ensures
        count_row(row, c1) + count_row(row, c2) <= row.len(),
    decreases row.len(),
{
    if row.len() > 0 {
        lemma_count_row_pair_le(row.drop_last(), c1, c2);
    }
}

/// Two distinct values together occupy no more cells than the grid
/// has.
pub proof fn lemma_count_grid_pair_le(g: Seq<Seq<Cell>>, w: int, c1: Cell, c2: Cell)
    requires
        c1 != c2,
        forall|y: int| 0 <= y < g.len() ==> (#[trigger] g[y]).len() == w,
    ensures
        count_grid(g, c1) + count_grid(g, c2) <= g.len() * w,
    decreases g.len(),
{
    if g.len() > 0 {
        lemma_count_grid_pair_le(g.drop_last(), w, c1, c2);
        lemma_count_row_pair_le(g.last(), c1, c2);
        assert((g.len() - 1) * w + w == g.len() * w) by (nonlinear_arith);
    }
}

/// A rectangular grid all of whose cells hold `c` counts every cell.
pub proof fn lemma_count_grid_all(g: Seq<Seq<Cell>>, w: int, c: Cell)
    requires
        forall|y: int| 0 <= y < g.len() ==> (#[trigger] g[y]).len() == w,
        forall|x: int, y: int| valid_at(g, x, y) ==> g[y][x] == c,
    ensures
        count_grid(g, c) == g.len() * w,
    decreases g.len(),
{
    if g.len() > 0 {
        assert(forall|x: int, y: int|
            #[trigger] valid_at(g.drop_last(), x, y) ==> valid_at(g, x, y) && g.drop_last()[y]
                == g[y]);
        lemma_count_grid_all(g.drop_last(), w, c);
        assert forall|i: int| 0 <= i < g.last().len() implies g.last()[i] == c by {
            assert(valid_at(g, i, g.len() - 1));
            assert(g[g.len() - 1][i] == c);
        }
        lemma_count_row_all(g.last(), c);
        assert((g.len() - 1) * w + w == g.len() * w) by (nonlinear_arith);
    }
}

/// A grid none of whose cells hold `c` counts zero for `c`.
pub proof fn lemma_count_grid_none(g: Seq<Seq<Cell>>, c: Cell)
    requires
        forall|x: int, y: int| valid_at(g, x, y) ==> g[y][x] != c,
    ensures
        count_grid(g, c) == 0,
    decreases g.len(),
{
    if g.len() > 0 {
        assert(forall|x: int, y: int|
            #[trigger] valid_at(g.drop_last(), x, y) ==> valid_at(g, x, y) && g.drop_last()[y]
                == g[y]);
        lemma_count_grid_none(g.drop_last(), c);
        assert forall|i: int| 0 <= i < g.last().len() implies g.last()[i] != c by {
            assert(valid_at(g, i, g.len() - 1));
            assert(g[g.len() - 1][i] != c);
        }
        lemma_count_row_none(g.last(), c);
    }
}

/// The tree target for a density between 0 and 100 percent never
/// exceeds the cell count of the grid.
pub proof fn lemma_target_trees_bound(w: int, h: int, d: int)
    requires
        1 <= w,
        1 <= h,
        0 <= d <= 100,
    ensures
        0 <= target_trees(w, h, d) <= w * h,
{
    lemma_mul_inequality(d, 100, w * h);
    assert(w * h * d == d * (w * h)) by (nonlinear_arith);
    lemma_div_is_ordered(w * h * d + 50, 100 * (w * h) + 50, 100);
    lemma_div_multiples_vanish_fancy(w * h, 50, 100);
    assert(w * h * d >= 0) by (nonlinear_arith)
        requires
            1 <= w,
            1 <= h,
            0 <= d,
    ;
    lemma_div_is_ordered(0, w * h * d + 50, 100);
}

proof fn lemma_count_row_pointwise_le(a: Seq<Cell>, b: Seq<Cell>, c: Cell)
    requires
        a.len() == b.len(),
        forall|i: int| 0 <= i < a.len() ==> (b[i] == c ==> a[i] == c),
    ensures
        count_row(b, c) <= count_row(a, c),
    decreases a.len(),
{
    if a.len() > 0 {
        lemma_count_row_pointwise_le(a.drop_last(), b.drop_last(), c);
    }
}

proof fn lemma_count_grid_pointwise_le(a: Seq<Seq<Cell>>, b: Seq<Seq<Cell>>, c: Cell)
    requires
        a.len() == b.len(),
        forall|j: int| 0 <= j < a.len() ==> (#[trigger] b[j]).len() == a[j].len(),
        forall|i: int, j: int| valid_at(a, i, j) ==> ((#[trigger] b[j][i]) == c ==> a[j][i] == c),
    ensures
        count_grid(b, c) <= count_grid(a, c),
    decreases a.len(),
{
    if a.len() > 0 {
        assert forall|i: int, j: int| valid_at(a.drop_last(), i, j)
            implies ((#[trigger] b.drop_last()[j][i]) == c ==> a.drop_last()[j][i] == c) by {
            assert(valid_at(a, i, j));
        }
        lemma_count_grid_pointwise_le(a.drop_last(), b.drop_last(), c);
        let n = a.len() - 1;
        assert forall|i: int| 0 <= i < a[n].len() implies (b[n][i] == c ==> a[n][i] == c) by {
            assert(valid_at(a, i, n));
        }
        lemma_count_row_pointwise_le(a[n], b[n], c);
    }
}

proof fn lemma_count_live_row_pointwise_le(a: Seq<Cell>, b: Seq<Cell>)
    requires
        a.len() == b.len(),
        forall|i: int| 0 <= i < a.len() ==> (live_cell(b[i]) ==> live_cell(a[i])),
    ensures
        count_live_row(b) <= count_live_row(a),
    decreases a.len(),
{
    if a.len() > 0 {
        lemma_count_live_row_pointwise_le(a.drop_last(), b.drop_last());
    }
}

proof fn lemma_count_live_row_pointwise_lt(a: Seq<Cell>, b: Seq<Cell>, k: int)
    requires
        a.len() == b.len(),
        forall|i: int| 0 <= i < a.len() ==> (live_cell(b[i]) ==> live_cell(a[i])),
        0 <= k < a.len(),
        live_cell(a[k]),
        !live_cell(b[k]),
    ensures
        count_live_row(b) < count_live_row(a),
    decreases a.len(),
{
    if k == a.len() - 1 {
        lemma_count_live_row_pointwise_le(a.drop_last(), b.drop_last());
    } else {
        lemma_count_live_row_pointwise_lt(a.drop_last(), b.drop_last(), k);
    }
}

proof fn lemma_count_live_grid_pointwise_lt(a: Seq<Seq<Cell>>, b: Seq<Seq<Cell>>, xk: int, yk: int)
    requires
        a.len() == b.len(),
        forall|j: int| 0 <= j < a.len() ==> (#[trigger] b[j]).len() == a[j].len(),
        forall|i: int, j: int|
            valid_at(a, i, j) ==> (live_cell(#[trigger] b[j][i]) ==> live_cell(a[j][i])),
        valid_at(a, xk, yk),
        live_cell(a[yk][xk]),
        !live_cell(b[yk][xk]),
    ensures
        count_live_grid(b) < count_live_grid(a),
    decreases a.len(),
{
    let n = a.len() - 1;
    assert forall|i: int, j: int| valid_at(a.drop_last(), i, j)
        implies (live_cell(#[trigger] b.drop_last()[j][i]) ==> live_cell(
        a.drop_last()[j][i],
    )) by {
        assert(valid_at(a, i, j));
    }
    assert forall|i: int| 0 <= i < a[n].len() implies (live_cell(b[n][i]) ==> live_cell(
        a[n][i],
    )) by {
        assert(valid_at(a, i, n));
    }
    if yk == n {
        lemma_count_live_grid_pointwise_le(a.drop_last(), b.drop_last());
        lemma_count_live_row_pointwise_lt(a[n], b[n], xk);
    } else {
        lemma_count_live_grid_pointwise_lt(a.drop_last(), b.drop_last(), xk, yk);
        lemma_count_live_row_pointwise_le(a[n], b[n]);
    }
}

proof fn lemma_count_live_grid_pointwise_le(a: Seq<Seq<Cell>>, b: Seq<Seq<Cell>>)
    requires
        a.len() == b.len(),
        forall|j: int| 0 <= j < a.len() ==> (#[trigger] b[j]).len() == a[j].len(),
        forall|i: int, j: int|
            valid_at(a, i, j) ==> (live_cell(#[trigger] b[j][i]) ==> live_cell(a[j][i])),
    ensures
        count_live_grid(b) <= count_live_grid(a),
    decreases a.len(),
{
    if a.len() > 0 {
        let n = a.len() - 1;
        assert forall|i: int, j: int| valid_at(a.drop_last(), i, j)
            implies (live_cell(#[trigger] b.drop_last()[j][i]) ==> live_cell(
            a.drop_last()[j][i],
        )) by {
            assert(valid_at(a, i, j));
        }
        assert forall|i: int| 0 <= i < a[n].len() implies (live_cell(b[n][i]) ==> live_cell(
            a[n][i],
        )) by {
            assert(valid_at(a, i, n));
        }
        lemma_count_live_grid_pointwise_le(a.drop_last(), b.drop_last());
        lemma_count_live_row_pointwise_le(a[n], b[n]);
    }
}

/// The live cell count never exceeds the cell count of a rectangular
/// grid.
pub proof fn lemma_count_live_grid_le(g: Seq<Seq<Cell>>, w: int)
    requires
        forall|y: int| 0 <= y < g.len() ==> (#[trigger] g[y]).len() == w,
    ensures
        count_live_grid(g) <= g.len() * w,
    decreases g.len(),
{
    if g.len() > 0 {
        lemma_count_live_grid_le(g.drop_last(), w);
        lemma_count_live_row_le(g.last());
        assert((g.len() - 1) * w + w == g.len() * w) by (nonlinear_arith);
    }
}

proof fn lemma_count_live_row_le(row: Seq<Cell>)
    ensures
        count_live_row(row) <= row.len(),
    decreases row.len(),
{
    if row.len() > 0 {
        lemma_count_live_row_le(row.drop_last());
    }
}

/// Propagation on a grid with no Burning cell changes nothing: one
/// synchronous step maps every cell to itself.
pub proof fn lemma_step_without_burning_is_noop(g: Seq<Seq<Cell>>)
    requires
        !has_burning(g),
    ensures
        forall|x: int, y: int| valid_at(g, x, y) ==> step_cell(g, x, y) == g[y][x],
{
    assert forall|x: int, y: int| valid_at(g, x, y) implies step_cell(g, x, y) == g[y][x] by {
        assert(g[y][x] != Cell::Burning);
        if g[y][x] == Cell::Tree && burning_neighbor(g, x, y) {
            let (i, j) = choose|i: int, j: int|
                valid_at(g, i, j) && adjacent(i, j, x, y) && g[j][i] == Cell::Burning;
            assert(has_cell(g, Cell::Burning));
        }
    }
}

/// One step spreads fire a single ring: a cell is Burning afterwards
/// only if it was a Tree 8-adjacent to a cell that was Burning before,
/// and every previously Burning cell is Burned afterwards.
pub proof fn lemma_single_ring(g: Seq<Seq<Cell>>)
    ensures
        forall|x: int, y: int|
            valid_at(g, x, y) && step_cell(g, x, y) == Cell::Burning ==> g[y][x] == Cell::Tree
                && burning_neighbor(g, x, y),
        forall|x: int, y: int|
            valid_at(g, x, y) && g[y][x] == Cell::Burning ==> step_cell(g, x, y) == Cell::Burned,
{
}

/// Propagation never increases the Tree count: `g2`, the grid after
/// one synchronous step of `g`, has at most as many Trees as `g`.
pub proof fn lemma_spread_tree_monotone(g: Seq<Seq<Cell>>, g2: Seq<Seq<Cell>>)
    requires
        g2.len() == g.len(),
        forall|j: int| 0 <= j < g.len() ==> (#[trigger] g2[j]).len() == g[j].len(),
        forall|x: int, y: int| valid_at(g, x, y) ==> #[trigger] g2[y][x] == step_cell(g, x, y),
    ensures
        count_grid(g2, Cell::Tree) <= count_grid(g, Cell::Tree),
{
    assert forall|i: int, j: int| valid_at(g, i, j)
        implies ((#[trigger] g2[j][i]) == Cell::Tree ==> g[j][i] == Cell::Tree) by {
        assert(g2[j][i] == step_cell(g, i, j));
    }
    lemma_count_grid_pointwise_le(g, g2, Cell::Tree);
}

/// While a Burning cell exists, each synchronous step strictly
/// shrinks the live cell count (Trees plus Burning cells). Together
/// with the bound on that count this caps a whole simulation at one
/// step per cell of the grid.
pub proof fn lemma_spread_live_decreases(g: Seq<Seq<Cell>>, g2: Seq<Seq<Cell>>)
    requires
        has_burning(g),
        g2.len() == g.len(),
        forall|j: int| 0 <= j < g.len() ==> (#[trigger] g2[j]).len() == g[j].len(),
        forall|x: int, y: int| valid_at(g, x, y) ==> #[trigger] g2[y][x] == step_cell(g, x, y),
    ensures
        count_live_grid(g2) < count_live_grid(g),
{
    assert forall|i: int, j: int| valid_at(g, i, j)
        implies (live_cell(#[trigger] g2[j][i]) ==> live_cell(g[j][i])) by {
        assert(g2[j][i] == step_cell(g, i, j));
    }
    let (xk, yk) = choose|xk: int, yk: int| valid_at(g, xk, yk) && g[yk][xk] == Cell::Burning;
    assert(g2[yk][xk] == step_cell(g, xk, yk));
    lemma_count_live_grid_pointwise_lt(g, g2, xk, yk);
}

/// On an all-Empty grid the burned percentage is exactly zero.
pub proof fn lemma_percentage_all_empty(g: Seq<Seq<Cell>>)
    requires
        forall|x: int, y: int| valid_at(g, x, y) ==> g[y][x] == Cell::Empty,
    ensures
        percentage_hundredths(g) == 0,
{
    assert forall|x: int, y: int| valid_at(g, x, y) implies g[y][x] != Cell::Burned by {}
    lemma_count_grid_none(g, Cell::Burned);
    assert forall|x: int, y: int| valid_at(g, x, y) implies g[y][x] != Cell::Tree by {}
    lemma_count_grid_none(g, Cell::Tree);
}

/// On a fully Burned rectangular grid the burned percentage is
/// exactly one hundred percent.
pub proof fn lemma_percentage_all_burned(g: Seq<Seq<Cell>>, w: int)
    requires
        1 <= w,
        1 <= g.len(),
        forall|y: int| 0 <= y < g.len() ==> (#[trigger] g[y]).len() == w,
        forall|x: int, y: int| valid_at(g, x, y) ==> g[y][x] == Cell::Burned,
    ensures
        percentage_hundredths(g) == 10000,
{
    lemma_count_grid_all(g, w, Cell::Burned);
    assert forall|x: int, y: int| valid_at(g, x, y) implies g[y][x] != Cell::Tree by {}
    lemma_count_grid_none(g, Cell::Tree);
    let b = count_grid(g, Cell::Burned) as int;
    assert(b == g.len() * w);
    assert(b >= 1) by (nonlinear_arith)
        requires
            b == g.len() * w,
            g.len() >= 1,
            w >= 1,
    ;
    assert(10000 * b == b * 10000) by (nonlinear_arith);
    lemma_div_multiples_vanish_fancy(10000, b / 2, b);
}

/// A row's count for `c` never exceeds its length.
pub proof fn lemma_count_row_le(row: Seq<Cell>, c: Cell)
    ensures
        count_row(row, c) <= row.len(),
    decreases row.len(),
{
    if row.len() > 0 {
        lemma_count_row_le(row.drop_last(), c);
    }
}

/// In a rectangular grid of row length `w`, a count never exceeds the
/// cell count `g.len() * w`.
pub proof fn lemma_count_grid_le(g: Seq<Seq<Cell>>, w: int, c: Cell)
    requires
        forall|y: int| 0 <= y < g.len() ==> (#[trigger] g[y]).len() == w,
    ensures
        count_grid(g, c) <= g.len() * w,
    decreases g.len(),
{
    if g.len() > 0 {
        lemma_count_grid_le(g.drop_last(), w, c);
        lemma_count_row_le(g.last(), c);
        assert((g.len() - 1) * w + w == g.len() * w) by (nonlinear_arith);
    }
}

/// A row whose count for `c` is its full length holds `c` everywhere.
pub proof fn lemma_count_row_full(row: Seq<Cell>, c: Cell)
    requires
        count_row(row, c) == row.len(),
    ensures
        forall|i: int| 0 <= i < row.len() ==> row[i] == c,
    decreases row.len(),
{
    if row.len() > 0 {
        lemma_count_row_le(row.drop_last(), c);
        assert(row.last() == c);
        lemma_count_row_full(row.drop_last(), c);
        assert forall|i: int| 0 <= i < row.len() implies row[i] == c by {
            if i < row.len() - 1 {
                assert(row.drop_last()[i] == c);
            }
        }
    }
}

/// A rectangular grid whose count for `c` is its full cell count
/// holds `c` in every cell.
pub proof fn lemma_count_grid_full(g: Seq<Seq<Cell>>, w: int, c: Cell)
    requires
        forall|y: int| 0 <= y < g.len() ==> (#[trigger] g[y]).len() == w,
        count_grid(g, c) == g.len() * w,
    ensures
        forall|x: int, y: int| valid_at(g, x, y) ==> g[y][x] == c,
    decreases g.len(),
{
    if g.len() > 0 {
        let n = g.len() - 1;
        lemma_count_grid_le(g.drop_last(), w, c);
        lemma_count_row_le(g.last(), c);
        assert((g.len() - 1) * w + w == g.len() * w) by (nonlinear_arith);
        assert(count_grid(g.drop_last(), c) == (g.len() - 1) * w);
        assert(count_row(g.last(), c) == w);
        lemma_count_grid_full(g.drop_last(), w, c);
        lemma_count_row_full(g.last(), c);
        assert forall|x: int, y: int| valid_at(g, x, y) implies g[y][x] == c by {
            if y < n {
                assert(valid_at(g.drop_last(), x, y));
                assert(g.drop_last()[y][x] == c);
            } else {
                assert(g.last()[x] == c);
            }
        }
    }
}

/// A row with an entry holding `c` counts at least one.
pub proof fn lemma_count_row_pos(row: Seq<Cell>, i: int, c: Cell)
    requires
        0 <= i < row.len(),
        row[i] == c,
    ensures
        count_row(row, c) >= 1,
    decreases row.len(),
{
    if i < row.len() - 1 {
        lemma_count_row_pos(row.drop_last(), i, c);
    }
}

/// A grid with a cell holding `c` counts at least one.
pub proof fn lemma_count_grid_pos(g: Seq<Seq<Cell>>, x: int, y: int, c: Cell)
    requires
        valid_at(g, x, y),
        g[y][x] == c,
    ensures
        count_grid(g, c) >= 1,
    decreases g.len(),
{
    if y < g.len() - 1 {
        lemma_count_grid_pos(g.drop_last(), x, y, c);
    } else {
        lemma_count_row_pos(g.last(), x, c);
    }
}

/// The absolute difference of two integers.
pub open spec fn abs_diff(a: int, b: int) -> int {
    if a >= b {
        a - b
    } else {
        b - a
    }
}

/// The Chebyshev distance between `(x1, y1)` and `(x2, y2)`: the
/// larger of the two coordinate differences. Under 8-connectivity,
/// fire started at a point of a fully treed grid reaches exactly the
/// cells at distance `k` after `k` steps.
pub open spec fn cheb_dist(x1: int, y1: int, x2: int, y2: int) -> int {
    let dx = abs_diff(x1, x2);
    let dy = abs_diff(y1, y2);
    if dx >= dy {
        dx
    } else {
        dy
    }
}

/// The state of a fully treed grid `k` steps after ignition at
/// `(sx, sy)`: a square ring of fire at Chebyshev distance `k`,
/// everything inside Burned, everything outside still Trees.
pub open spec fn fire_ring(g: Seq<Seq<Cell>>, sx: int, sy: int, k: int) -> bool {
    forall|x: int, y: int|
        valid_at(g, x, y) ==> #[trigger] g[y][x] == (if cheb_dist(x, y, sx, sy) < k {
            Cell::Burned
        } else if cheb_dist(x, y, sx, sy) == k {
            Cell::Burning
        } else {
            Cell::Tree
        })
}

/// The largest Chebyshev distance from `(sx, sy)` to any cell of a
/// `w` by `h` grid: the longest of the four arms to the edges.
pub open spec fn reach_of(w: int, h: int, sx: int, sy: int) -> int {
    let ax = if sx >= w - 1 - sx {
        sx
    } else {
        w - 1 - sx
    };
    let ay = if sy >= h - 1 - sy {
        sy
    } else {
        h - 1 - sy
    };
    if ax >= ay {
        ax
    } else {
        ay
    }
}

/// On a fully treed grid, one synchronous step advances the ring of
/// fire by exactly one: `g2`, the pointwise step of `g`, is the ring
/// at radius `k + 1`.
pub proof fn lemma_step_fire_ring(
    g: Seq<Seq<Cell>>,
    g2: Seq<Seq<Cell>>,
    w: int,
    h: int,
    sx: int,
    sy: int,
    k: int,
)
    requires
        g.len() == h,
        forall|y: int| 0 <= y < h ==> (#[trigger] g[y]).len() == w,
        g2.len() == h,
        forall|y: int| 0 <= y < h ==> (#[trigger] g2[y]).len() == w,
        1 <= w,
        1 <= h,
        0 <= sx < w,
        0 <= sy < h,
        0 <= k,
        fire_ring(g, sx, sy, k),
        forall|x: int, y: int| valid_at(g, x, y) ==> #[trigger] g2[y][x] == step_cell(g, x, y),
    ensures
        fire_ring(g2, sx, sy, k + 1),
{
    assert forall|x: int, y: int| valid_at(g2, x, y) implies g2[y][x] == (if cheb_dist(
        x,
        y,
        sx,
        sy,
    ) < k + 1 {
        Cell::Burned
    } else if cheb_dist(x, y, sx, sy) == k + 1 {
        Cell::Burning
    } else {
        Cell::Tree
    }) by {
        assert(valid_at(g, x, y));
        let d = cheb_dist(x, y, sx, sy);
        if d <= k {
            // inside or on the ring: Burned or Burning, both step to Burned
        } else if d == k + 1 {
            // a Tree on the next ring: one step toward the seed lies
            // on the current ring and is Burning
            let nx = if x - sx > k {
                x - 1
            } else if sx - x > k {
                x + 1
            } else {
                x
            };
            let ny = if y - sy > k {
                y - 1
            } else if sy - y > k {
                y + 1
            } else {
                y
            };
            assert(cheb_dist(nx, ny, sx, sy) == k);
            assert(valid_at(g, nx, ny));
            assert(adjacent(nx, ny, x, y));
            assert(g[ny][nx] == Cell::Burning);
            assert(burning_neighbor(g, x, y));
        } else {
            // far outside the ring: every neighbor is a Tree too
            assert forall|i: int, j: int| valid_at(g, i, j) && adjacent(i, j, x, y)
                implies g[j][i] != Cell::Burning by {
                assert(cheb_dist(i, j, sx, sy) >= d - 1);
            }
            assert(!burning_neighbor(g, x, y));
        }
    }
}

/// While the ring has not left the grid, some cell on it is Burning.
pub proof fn lemma_fire_ring_burning(g: Seq<Seq<Cell>>, w: int, h: int, sx: int, sy: int, k: int)
    requires
        g.len() == h,
        forall|y: int| 0 <= y < h ==> (#[trigger] g[y]).len() == w,
        1 <= w,
        1 <= h,
        0 <= sx < w,
        0 <= sy < h,
        0 <= k <= reach_of(w, h, sx, sy),
        fire_ring(g, sx, sy, k),
    ensures
        has_burning(g),
{
    let ax = if sx >= w - 1 - sx {
        sx
    } else {
        w - 1 - sx
    };
    if k <= ax {
        let x = if sx >= k {
            sx - k
        } else {
            sx + k
        };
        assert(valid_at(g, x, sy));
        assert(cheb_dist(x, sy, sx, sy) == k);
        assert(g[sy][x] == Cell::Burning);
    } else {
        let y = if sy >= k {
            sy - k
        } else {
            sy + k
        };
        assert(valid_at(g, sx, y));
        assert(cheb_dist(sx, y, sx, sy) == k);
        assert(g[y][sx] == Cell::Burning);
    }
    assert(has_cell(g, Cell::Burning));
}

/// Once the ring has passed the farthest cell, every cell is Burned.
pub proof fn lemma_fire_ring_done(g: Seq<Seq<Cell>>, w: int, h: int, sx: int, sy: int, k: int)
    requires
        g.len() == h,
        forall|y: int| 0 <= y < h ==> (#[trigger] g[y]).len() == w,
        0 <= sx < w,
        0 <= sy < h,
        k > reach_of(w, h, sx, sy),
        fire_ring(g, sx, sy, k),
    ensures
        forall|x: int, y: int| valid_at(g, x, y) ==> g[y][x] == Cell::Burned,
{
    assert forall|x: int, y: int| valid_at(g, x, y) implies g[y][x] == Cell::Burned by {
        assert(cheb_dist(x, y, sx, sy) <= reach_of(w, h, sx, sy));
    }
}

/// A rectangular forest of cells, `width` by `height`, addressed as
/// `grid[y][x]` with `0 <= x < width` and `0 <= y < height`.
pub struct Forest {
    pub width: usize,
    pub height: usize,
    pub grid: Vec<Vec<Cell>>,
}

impl View for Forest {
    type V = Seq<Seq<Cell>>;

    open spec fn view(&self) -> Seq<Seq<Cell>> {
        Seq::new(self.grid@.len(), |y: int| self.grid@[y]@)
    }
}

impl Forest {
    /// The grid is rectangular with the stated dimensions, both of
    /// them positive and small enough that a cell count fits in usize
    /// and a coordinate fits in i32.
    pub open spec fn wf(self) -> bool {
        &&& self@.len() == self.height
        &&& forall|y: int| 0 <= y < self.height ==> (#[trigger] self@[y]).len() == self.width
        &&& 1 <= self.width
        &&& 1 <= self.height
        &&& self.width * self.height <= usize::MAX
        &&& self.width < 0x7fff_ffff
        &&& self.height < 0x7fff_ffff
    }

    /// A fresh forest of the given dimensions with every cell Empty.
    pub fn new(width: usize, height: usize) -> (r: Self)
        requires
            1 <= width,
            1 <= height,
            width * height <= usize::MAX,
            width < 0x7fff_ffff,
            height < 0x7fff_ffff,
        ensures
            r.wf(),
            r.width == width,
            r.height == height,
            forall|x: int, y: int| valid_at(r@, x, y) ==> r@[y][x] == Cell::Empty,
    {
        let mut grid: Vec<Vec<Cell>> = Vec::new();
        let mut y: usize = 0;
        while y < height
            invariant
                y <= height,
                grid@.len() == y,
                forall|j: int| 0 <= j < y ==> (#[trigger] grid@[j])@.len() == width,
                forall|j: int, i: int|
                    0 <= j < y && 0 <= i < width ==> (#[trigger] grid@[j]@[i]) == Cell::Empty,
            decreases height - y,
        {
            let mut row: Vec<Cell> = Vec::new();
            let mut x: usize = 0;
            while x < width
                invariant
                    x <= width,
                    row@.len() == x,
                    forall|i: int| 0 <= i < x ==> row@[i] == Cell::Empty,
                decreases width - x,
            {
                row.push(Cell::Empty);
                x += 1;
            }
            grid.push(row);
            y += 1;
        }
        Forest { width, height, grid }
    }

    /// Overwrites one cell, leaving every other cell in place.
    fn set_cell(&mut self, x: usize, y: usize, c: Cell)
        requires
            old(self).wf(),
            x < old(self).width,
            y < old(self).height,
        ensures
            final(self).wf(),
            final(self).width == old(self).width,
            final(self).height == old(self).height,
            final(self)@ == old(self)@.update(
                y as int,
                old(self)@[y as int].update(x as int, c),
            ),
            final(self)@[y as int][x as int] == c,
            forall|i: int, j: int|
                valid_at(old(self)@, i, j) && !(i == x && j == y) ==> final(self)@[j][i] == old(
                    self,
                )@[j][i],
            forall|j: int|
                0 <= j < old(self)@.len() ==> (#[trigger] final(self)@[j]).len() == old(
                    self,
                )@[j].len(),
    {
        proof {
            assert(self.grid@.len() == self@.len());
            assert(self.grid@[y as int]@ == self@[y as int]);
        }
        self.grid[y][x] = c;
        proof {
            assert(self@ =~~= old(self)@.update(y as int, old(self)@[y as int].update(x as int, c)));
        }
    }

    /// The coordinates of some cell holding `target`, or None when no
    /// cell does. Scans in a fixed order.
    fn find_first(&self, target: Cell) -> (r: Option<(usize, usize)>)
        requires
            self.wf(),
        ensures
            match r {
                Some(p) => p.0 < self.width && p.1 < self.height && self@[p.1 as int][p.0 as int]
                    == target,
                None => !has_cell(self@, target),
            },
    {
        let mut y: usize = 0;
        while y < self.height
            invariant
                self.wf(),
                y <= self.height,
                forall|i: int, j: int|
                    0 <= j < y && 0 <= i < self.width ==> self@[j][i] != target,
            decreases self.height - y,
        {
            let mut x: usize = 0;
            while x < self.width
                invariant
                    self.wf(),
                    y < self.height,
                    x <= self.width,
                    forall|i: int, j: int|
                        0 <= j < y && 0 <= i < self.width ==> self@[j][i] != target,
                    forall|i: int| 0 <= i < x ==> self@[y as int][i] != target,
                decreases self.width - x,
            {
                if self.grid[y][x] == target {
                    return Some((x, y));
                }
                x += 1;
            }
            y += 1;
        }
        proof {
            assert(!has_cell(self@, target));
        }
        None
    }

    /// True exactly when at least one cell is currently Burning: the
    /// loop condition for advancing a simulation to completion.
    pub fn has_burning_trees(&self) -> (r: bool)
        requires
            self.wf(),
        ensures
            r == has_burning(self@),
    {
        match self.find_first(Cell::Burning) {
            Some(p) => {
                proof {
                    assert(valid_at(self@, p.0 as int, p.1 as int));
                    assert(has_cell(self@, Cell::Burning));
                }
                true
            },
            None => false,
        }
    }

    /// Plants trees at uniformly random free coordinates until the
    /// tree count reaches `w*h*density/100` rounded half up. A run of
    /// unlucky draws falls back to the first free cell in scan order,
    /// so growth always completes, even at full density.
    pub fn grow(&mut self, density: u64)
        requires
            old(self).wf(),
            density <= 100,
            forall|x: int, y: int|
                valid_at(old(self)@, x, y) ==> old(self)@[y][x] == Cell::Empty,
        ensures
            final(self).wf(),
            final(self).width == old(self).width,
            final(self).height == old(self).height,
            count_grid(final(self)@, Cell::Tree) == target_trees(
                old(self).width as int,
                old(self).height as int,
                density as int,
            ),
            forall|x: int, y: int|
                valid_at(final(self)@, x, y) ==> final(self)@[y][x] == Cell::Tree
                    || final(self)@[y][x] == Cell::Empty,
    {
        let w = self.width;
        let h = self.height;
        let ghost t_spec = target_trees(w as int, h as int, density as int);
        proof {
            lemma_target_trees_bound(w as int, h as int, density as int);
        }
        let cells_wide: u128 = (w as u128) * (h as u128);
        let target_wide: u128 = (cells_wide * (density as u128) + 50) / 100;
        proof {
            assert(cells_wide * (density as u128) == w as int * h as int * density as int);
            assert(target_wide == t_spec);
        }
        let target: usize = target_wide as usize;
        let mut planted: usize = 0;
        let mut tries: usize = 0;
        let mut rng = new_rng();
        proof {
            lemma_count_grid_none(self@, Cell::Tree);
        }
        while planted < target
            invariant
                self.wf(),
                self.width == w,
                self.height == h,
                density <= 100,
                planted == count_grid(self@, Cell::Tree),
                planted <= target,
                target == t_spec,
                t_spec == target_trees(w as int, h as int, density as int),
                target <= w * h,
                tries <= RETRY_LIMIT,
                forall|x: int, y: int|
                    valid_at(self@, x, y) ==> self@[y][x] == Cell::Tree || self@[y][x]
                        == Cell::Empty,
            decreases target - planted, RETRY_LIMIT - tries,
        {
            if tries < RETRY_LIMIT {
                let x = rng_below(&mut rng, self.width);
                let y = rng_below(&mut rng, self.height);
                proof {
                    assert(self.grid@.len() == self@.len());
                    assert(self.grid@[y as int]@ == self@[y as int]);
                }
                if self.grid[y][x] == Cell::Empty {
                    let ghost pre = self@;
                    proof {
                        assert(pre[y as int][x as int] == Cell::Empty);
                        lemma_count_grid_set(pre, x as int, y as int, Cell::Tree, Cell::Tree);
                    }
                    self.set_cell(x, y, Cell::Tree);
                    proof {
                        assert forall|i: int, j: int| valid_at(self@, i, j)
                            implies self@[j][i] == Cell::Tree || self@[j][i] == Cell::Empty by {
                            assert(valid_at(pre, i, j));
                            if !(i == x && j == y) {
                                assert(self@[j][i] == pre[j][i]);
                            }
                        }
                    }
                    planted += 1;
                    tries = 0;
                } else {
                    tries += 1;
                }
            } else {
                match self.find_first(Cell::Empty) {
                    Some((x, y)) => {
                        let ghost pre = self@;
                        proof {
                            lemma_count_grid_set(pre, x as int, y as int, Cell::Tree, Cell::Tree);
                        }
                        self.set_cell(x, y, Cell::Tree);
                        proof {
                            assert forall|i: int, j: int| valid_at(self@, i, j)
                                implies self@[j][i] == Cell::Tree || self@[j][i] == Cell::Empty by {
                                assert(valid_at(pre, i, j));
                                if !(i == x && j == y) {
                                    assert(self@[j][i] == pre[j][i]);
                                }
                            }
                        }
                        planted += 1;
                        tries = 0;
                    },
                    None => {
                        proof {
                            // with no free cell every cell is a Tree, so the
                            // count already fills the grid, contradicting
                            // planted < target <= w * h
                            assert forall|x: int, y: int| valid_at(self@, x, y)
                                implies self@[y][x] == Cell::Tree by {
                                assert(self@[y][x] != Cell::Empty);
                            }
                            lemma_count_grid_all(self@, w as int, Cell::Tree);
                            assert(h as int * w as int == w as int * h as int)
                                by (nonlinear_arith);
                            assert(false);
                        }
                        return unreached();
                    },
                }
            }
        }
    }

    /// Ignites one tree, chosen by random draws with a deterministic
    /// scan as fallback, turning it Burning. A forest without trees is
    /// left exactly as it is: that is a normal outcome, not an error.
    pub fn start_fire(&mut self)
        requires
            old(self).wf(),
        ensures
            final(self).wf(),
            final(self).width == old(self).width,
            final(self).height == old(self).height,
            !has_tree(old(self)@) ==> final(self)@ == old(self)@,
            has_tree(old(self)@) ==> exists|x: int, y: int|
                valid_at(old(self)@, x, y) && old(self)@[y][x] == Cell::Tree && final(self)@
                    == old(self)@.update(y, old(self)@[y].update(x, Cell::Burning)),
    {
        let mut rng = new_rng();
        let mut t: usize = 0;
        while t < RETRY_LIMIT
            invariant
                self.wf(),
                self == old(self),
                t <= RETRY_LIMIT,
            decreases RETRY_LIMIT - t,
        {
            let x = rng_below(&mut rng, self.width);
            let y = rng_below(&mut rng, self.height);
            proof {
                assert(self.grid@.len() == self@.len());
                assert(self.grid@[y as int]@ == self@[y as int]);
            }
            if self.grid[y][x] == Cell::Tree {
                proof {
                    assert(valid_at(self@, x as int, y as int));
                    assert(self@[y as int][x as int] == Cell::Tree);
                }
                self.set_cell(x, y, Cell::Burning);
                return ;
            }
            t += 1;
        }
        match self.find_first(Cell::Tree) {
            Some((x, y)) => {
                proof {
                    assert(valid_at(self@, x as int, y as int));
                }
                self.set_cell(x, y, Cell::Burning);
            },
            None => {},
        }
    }

    /// True exactly when some cell 8-adjacent to `(x, y)` is Burning.
    fn has_burning_neighbor(&self, x: usize, y: usize) -> (r: bool)
        requires
            self.wf(),
            x < self.width,
            y < self.height,
        ensures
            r == burning_neighbor(self@, x as int, y as int),
    {
        let p = Point::new(x as i32, y as i32);
        let ns = p.neighbors(self.width as i32, self.height as i32);
        let mut k: usize = 0;
        while k < ns.len()
            invariant
                self.wf(),
                x < self.width,
                y < self.height,
                p.x == x as i32,
                p.y == y as i32,
                k <= ns@.len(),
                forall|q: Point| #[trigger]
                    ns@.contains(q) <==> is_neighbor(p, q) && in_bounds(
                        q,
                        self.width as int,
                        self.height as int,
                    ),
                forall|m: int|
                    0 <= m < k ==> self@[ns@[m].y as int][ns@[m].x as int] != Cell::Burning,
            decreases ns@.len() - k,
        {
            let q = ns[k];
            proof {
                assert(ns@[k as int] == q);
                assert(ns@.contains(q));
                assert(self.grid@.len() == self@.len());
                assert(self.grid@[q.y as int]@ == self@[q.y as int]);
            }
            let qx = q.x as usize;
            let qy = q.y as usize;
            if self.grid[qy][qx] == Cell::Burning {
                proof {
                    assert(valid_at(self@, qx as int, qy as int));
                    assert(adjacent(qx as int, qy as int, x as int, y as int));
                    assert(burning_neighbor(self@, x as int, y as int));
                }
                return true;
            }
            k += 1;
        }
        proof {
            assert forall|i: int, j: int|
                valid_at(self@, i, j) && adjacent(i, j, x as int, y as int)
                implies self@[j][i] != Cell::Burning by {
                let q = Point { x: i as i32, y: j as i32 };
                assert(is_neighbor(p, q));
                assert(in_bounds(q, self.width as int, self.height as int));
                assert(ns@.contains(q));
                let m = choose|m: int| 0 <= m < ns@.len() && ns@[m] == q;
                assert(self@[ns@[m].y as int][ns@[m].x as int] != Cell::Burning);
            }
            assert(!burning_neighbor(self@, x as int, y as int));
        }
        false
    }

    /// One globally synchronous propagation step: every Burning cell
    /// becomes Burned, and every Tree with a Burning neighbor becomes
    /// Burning. All transitions are computed against the state before
    /// the call, so fire advances exactly one ring per step whatever
    /// the scan order.
    pub fn spread_fire(&mut self)
        requires
            old(self).wf(),
        ensures
            final(self).wf(),
            final(self).width == old(self).width,
            final(self).height == old(self).height,
            forall|x: int, y: int|
                valid_at(old(self)@, x, y) ==> final(self)@[y][x] == step_cell(old(self)@, x, y),
    {
        let w = self.width;
        let h = self.height;
        let mut new_grid: Vec<Vec<Cell>> = Vec::new();
        let mut y: usize = 0;
        while y < h
            invariant
                self.wf(),
                self == old(self),
                self.width == w,
                self.height == h,
                y <= h,
                new_grid@.len() == y,
                forall|j: int| 0 <= j < y ==> (#[trigger] new_grid@[j])@.len() == w,
                forall|j: int, i: int|
                    0 <= j < y && 0 <= i < w ==> (#[trigger] new_grid@[j]@[i]) == step_cell(
                        self@,
                        i,
                        j,
                    ),
            decreases h - y,
        {
            let mut row: Vec<Cell> = Vec::new();
            let mut x: usize = 0;
            while x < w
                invariant
                    self.wf(),
                    self == old(self),
                    self.width == w,
                    self.height == h,
                    y < h,
                    x <= w,
                    row@.len() == x,
                    forall|i: int| 0 <= i < x ==> row@[i] == step_cell(self@, i, y as int),
                decreases w - x,
            {
                proof {
                    assert(self.grid@.len() == self@.len());
                    assert(self.grid@[y as int]@ == self@[y as int]);
                }
                let c = self.grid[y][x];
                let nc = match c {
                    Cell::Burning => Cell::Burned,
                    Cell::Tree => if self.has_burning_neighbor(x, y) {
                        Cell::Burning
                    } else {
                        Cell::Tree
                    },
                    Cell::Empty => Cell::Empty,
                    Cell::Burned => Cell::Burned,
                };
                row.push(nc);
                x += 1;
            }
            new_grid.push(row);
            y += 1;
        }
        self.grid = new_grid;
        proof {
            assert(forall|j: int| 0 <= j < h ==> #[trigger] self@[j] == self.grid@[j]@);
        }
    }

    /// How many cells currently hold the value `c`.
    pub fn count_cells(&self, c: Cell) -> (n: usize)
        requires
            self.wf(),
        ensures
            n == count_grid(self@, c),
    {
        let w = self.width;
        let h = self.height;
        let mut n: usize = 0;
        let mut y: usize = 0;
        proof {
            assert(self@.subrange(0, 0) =~= Seq::<Seq<Cell>>::empty());
        }
        while y < h
            invariant
                self.wf(),
                self.width == w,
                self.height == h,
                y <= h,
                n == count_grid(self@.subrange(0, y as int), c),
                n <= y * w,
            decreases h - y,
        {
            let mut m: usize = 0;
            let mut x: usize = 0;
            proof {
                assert(self@[y as int].subrange(0, 0) =~= Seq::<Cell>::empty());
            }
            while x < w
                invariant
                    self.wf(),
                    self.width == w,
                    self.height == h,
                    y < h,
                    x <= w,
                    m == count_row(self@[y as int].subrange(0, x as int), c),
                    m <= x,
                decreases w - x,
            {
                proof {
                    assert(self.grid@.len() == self@.len());
                    assert(self.grid@[y as int]@ == self@[y as int]);
                    let row = self@[y as int];
                    let pre = row.subrange(0, x as int);
                    let ext = row.subrange(0, x as int + 1);
                    assert(ext.drop_last() =~= pre);
                    assert(ext.last() == row[x as int]);
                }
                if self.grid[y][x] == c {
                    m += 1;
                }
                x += 1;
            }
            proof {
                let row = self@[y as int];
                assert(row.subrange(0, w as int) =~= row);
                let pre = self@.subrange(0, y as int);
                let ext = self@.subrange(0, y as int + 1);
                assert(ext.drop_last() =~= pre);
                assert(ext.last() == row);
                assert(y * w + w == (y + 1) * w) by (nonlinear_arith);
                assert((y + 1) * w <= h * w) by (nonlinear_arith)
                    requires
                        y + 1 <= h,
                        0 <= w,
                ;
                assert(h * w == w * h) by (nonlinear_arith);
            }
            n += m;
            y += 1;
        }
        proof {
            assert(self@.subrange(0, h as int) =~= self@);
        }
        n
    }

    /// The burned share of all flammable cells, in hundredths of a
    /// percent: `10000 * burned / (burned + trees)` rounded half up,
    /// and 0 when no cell is flammable. Meant to be read once no cell
    /// is Burning, but well defined at any point.
    pub fn burned_percentage_hundredths(&self) -> (r: u64)
        requires
            self.wf(),
        ensures
            r == percentage_hundredths(self@),
            r <= 10000,
    {
        let burned = self.count_cells(Cell::Burned);
        let trees = self.count_cells(Cell::Tree);
        proof {
            lemma_count_grid_pair_le(self@, self.width as int, Cell::Burned, Cell::Tree);
            assert(self@.len() * self.width as int == self.width as int * self.height as int)
                by (nonlinear_arith)
                requires
                    self@.len() == self.height as int,
            ;
        }
        let total = burned + trees;
        if total == 0 {
            return 0;
        }
        let num: u128 = 10000u128 * (burned as u128) + ((total / 2) as u128);
        let r_wide: u128 = num / (total as u128);
        proof {
            let b = burned as int;
            let t = total as int;
            lemma_div_is_ordered(10000 * b + t / 2, t * 10000 + t / 2, t);
            lemma_div_multiples_vanish_fancy(10000, t / 2, t);
        }
        r_wide as u64
    }
}

} // verus!
