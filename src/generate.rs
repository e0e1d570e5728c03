use vstd::prelude::*;

use crate::grid::{
    directions, grid_cells, grid_shape, in_boundaries, step, Cell, CellStatus, Coord, Direction, Grid,
};
use crate::path::{connected, find_path, is_route};
use crate::render::draw;

verus! {

broadcast use vstd::seq_lib::group_to_multiset_ensures;

/// Number of unvisited cells in a row.
pub open spec fn row_unvisited(row: Seq<Cell>) -> nat
    decreases row.len(),
{
    if row.len() == 0 {
        0
    } else {
        row_unvisited(row.drop_last()) + if row.last().is_visited() {
            0nat
        } else {
            1nat
        }
    }
}

/// Number of unvisited cells over all rows.
pub open spec fn rows_unvisited(rows: Seq<Seq<Cell>>) -> nat
    decreases rows.len(),
{
    if rows.len() == 0 {
        0
    } else {
        rows_unvisited(rows.drop_last()) + row_unvisited(rows.last())
    }
}

/// Number of unvisited cells of a grid.
pub open spec fn unvisited(g: Grid) -> nat {
    rows_unvisited(grid_cells(g))
}

/// Every cell visited in `a` is visited in `b`, and both have the same shape.
pub open spec fn visits_grow(a: Grid, b: Grid) -> bool {
    &&& grid_shape(a) == grid_shape(b)
    &&& forall|p: (int, int)| a.contains(p) && #[trigger] a.cell_at(p).is_visited() ==> b.cell_at(p).is_visited()
}

/// Both grids visit the same cells.
pub open spec fn same_visits(a: Grid, b: Grid) -> bool {
    &&& grid_shape(a) == grid_shape(b)
    &&& forall|p: (int, int)| a.contains(p) ==> #[trigger] a.cell_at(p).is_visited() == b.cell_at(p).is_visited()
}

/// Passages of a cell that lead south or east: each open passage of a grid
/// is counted once, at its north or west end.
pub open spec fn cell_pairs(c: Cell) -> nat {
    (if c.is_open(Direction::S) {
        1nat
    } else {
        0nat
    }) + (if c.is_open(Direction::E) {
        1nat
    } else {
        0nat
    })
}

pub open spec fn row_pairs(row: Seq<Cell>) -> nat
    decreases row.len(),
{
    if row.len() == 0 {
        0
    } else {
        row_pairs(row.drop_last()) + cell_pairs(row.last())
    }
}

pub open spec fn rows_pairs(rows: Seq<Seq<Cell>>) -> nat
    decreases rows.len(),
{
    if rows.len() == 0 {
        0
    } else {
        rows_pairs(rows.drop_last()) + row_pairs(rows.last())
    }
}

/// Number of open passages of a grid.
pub open spec fn passage_count(g: Grid) -> nat {
    rows_pairs(grid_cells(g))
}

/// Unvisited cells other than `x` have no open passage.
#[verifier::opaque]
pub open spec fn closed_except(g: Grid, x: (int, int)) -> bool {
    forall|p: (int, int)|
        g.contains(p) && p != x && !#[trigger] g.cell_at(p).is_visited() ==> g.cell_at(p).walls == 0
}

proof fn lemma_row_pairs_update(a: Seq<Cell>, j: int, x: Cell)
    requires
        0 <= j < a.len(),
    ensures
        row_pairs(a.update(j, x)) + cell_pairs(a[j]) == row_pairs(a) + cell_pairs(x),
    decreases a.len(),
{
    let b = a.update(j, x);
    if j == a.len() - 1 {
        assert(b.drop_last() =~= a.drop_last());
    } else {
        assert(b.drop_last() =~= a.drop_last().update(j, x));
        lemma_row_pairs_update(a.drop_last(), j, x);
    }
}

proof fn lemma_rows_pairs_update(a: Seq<Seq<Cell>>, i: int, j: int, x: Cell)
    requires
        0 <= i < a.len(),
        0 <= j < a[i].len(),
    ensures
        rows_pairs(a.update(i, a[i].update(j, x))) + cell_pairs(a[i][j]) == rows_pairs(a) + cell_pairs(x),
    decreases a.len(),
{
    let b = a.update(i, a[i].update(j, x));
    if i == a.len() - 1 {
        assert(b.drop_last() =~= a.drop_last());
        lemma_row_pairs_update(a[i], j, x);
    } else {
        assert(b.drop_last() =~= a.drop_last().update(i, a[i].update(j, x)));
        lemma_rows_pairs_update(a.drop_last(), i, j, x);
    }
}

/// A row of fresh cells has every cell unvisited and no passage.
proof fn lemma_fresh_row(row: Seq<Cell>)
    requires
        forall|j: int| 0 <= j < row.len() ==> #[trigger] row[j] == Cell::fresh(),
    ensures
        row_unvisited(row) == row.len(),
        row_pairs(row) == 0,
    decreases row.len(),
{
    if row.len() > 0 {
        lemma_fresh_row(row.drop_last());
        assert(row[row.len() - 1] == Cell::fresh());
        assert(0u8 & 2u8 == 0 && 0u8 & 4u8 == 0) by (bit_vector);
    }
}

proof fn lemma_fresh_rows(rows: Seq<Seq<Cell>>, cols: nat)
    requires
        forall|i: int| 0 <= i < rows.len() ==> #[trigger] rows[i].len() == cols,
        forall|i: int, j: int| 0 <= i < rows.len() && 0 <= j < cols ==> #[trigger] rows[i][j] == Cell::fresh(),
    ensures
        rows_unvisited(rows) == rows.len() * cols,
        rows_pairs(rows) == 0,
    decreases rows.len(),
{
    if rows.len() > 0 {
        let i = rows.len() - 1;
        lemma_fresh_rows(rows.drop_last(), cols);
        assert(forall|j: int| 0 <= j < rows[i].len() ==> #[trigger] rows[i][j] == Cell::fresh());
        lemma_fresh_row(rows[i]);
        assert(rows.len() * cols == (rows.len() - 1) * cols + cols) by (nonlinear_arith)
            requires rows.len() >= 1;
    }
}

proof fn lemma_visited_row(row: Seq<Cell>)
    requires
        forall|j: int| 0 <= j < row.len() ==> #[trigger] row[j].is_visited(),
    ensures
        row_unvisited(row) == 0,
    decreases row.len(),
{
    if row.len() > 0 {
        lemma_visited_row(row.drop_last());
        assert(row[row.len() - 1].is_visited());
    }
}

proof fn lemma_visited_rows(rows: Seq<Seq<Cell>>)
    requires
        forall|i: int, j: int| 0 <= i < rows.len() && 0 <= j < rows[i].len() ==> #[trigger] rows[i][j].is_visited(),
    ensures
        rows_unvisited(rows) == 0,
    decreases rows.len(),
{
    if rows.len() > 0 {
        let i = rows.len() - 1;
        lemma_visited_rows(rows.drop_last());
        assert(forall|j: int| 0 <= j < rows[i].len() ==> #[trigger] rows[i][j].is_visited());
        lemma_visited_row(rows[i]);
    }
}

/// An untouched grid has every cell unvisited and no passage.
proof fn lemma_untouched_counts(g: Grid)
    requires
        g.wf(),
        g.untouched(),
    ensures
        unvisited(g) == g.rows() * g.cols(),
        passage_count(g) == 0,
{
    let c = grid_cells(g);
    assert forall|i: int, j: int| 0 <= i < c.len() && 0 <= j < g.cols() implies #[trigger] c[i][j] == Cell::fresh() by {
        assert(g.contains((i, j)));
        assert(g.cell_at((i, j)) == Cell::fresh());
    }
    lemma_fresh_rows(c, g.cols());
}

/// A grid whose cells are all visited has no unvisited cell left.
proof fn lemma_all_visited_count(g: Grid)
    requires
        g.wf(),
        forall|p: (int, int)| g.contains(p) ==> #[trigger] g.cell_at(p).is_visited(),
    ensures
        unvisited(g) == 0,
{
    let c = grid_cells(g);
    assert forall|i: int, j: int| 0 <= i < c.len() && 0 <= j < c[i].len() implies #[trigger] c[i][j].is_visited() by {
        assert(c[i].len() == g.cols());
        assert(g.contains((i, j)));
        assert(g.cell_at((i, j)).is_visited());
    }
    lemma_visited_rows(c);
}

/// Every passage open in `a` is open in `b`, and both have the same shape.
pub open spec fn passages_grow(a: Grid, b: Grid) -> bool {
    &&& grid_shape(a) == grid_shape(b)
    &&& forall|p: (int, int), d: Direction|
        a.contains(p) && #[trigger] a.cell_at(p).is_open(d) ==> b.cell_at(p).is_open(d)
}

proof fn lemma_route_grow(a: Grid, b: Grid, r: Seq<Coord>, s: Coord, e: Coord)
    requires
        passages_grow(a, b),
        is_route(a, r, s, e),
    ensures
        is_route(b, r, s, e),
{
    assert forall|i: int| 0 <= i < r.len() - 1 implies #[trigger] b.linked(r[i].pos(), r[i + 1].pos()) by {
        assert(a.linked(r[i].pos(), r[i + 1].pos()));
    }
}

proof fn lemma_route_prepend(g: Grid, c: Coord, r: Seq<Coord>, s: Coord, e: Coord)
    requires
        g.linked(c.pos(), s.pos()),
        is_route(g, r, s, e),
    ensures
        is_route(g, seq![c] + r, c, e),
{
    let q = seq![c] + r;
    assert forall|i: int| 0 <= i < q.len() - 1 implies #[trigger] g.linked(q[i].pos(), q[i + 1].pos()) by {
        if i > 0 {
            assert(q[i] == r[i - 1]);
            assert(q[i + 1] == r[i]);
            assert(g.linked(r[i - 1].pos(), r[(i - 1) + 1].pos()));
        }
    }
}

/// Every in-grid neighbour of `p` is visited.
pub open spec fn finished(g: Grid, p: (int, int)) -> bool {
    forall|d: Direction| #[trigger] g.contains(step(p, d)) ==> g.cell_at(step(p, d)).is_visited()
}

/// On a grid where every visited cell has all its neighbours visited, one
/// visited cell makes every cell visited.
proof fn lemma_spread(g: Grid, a: (int, int), b: (int, int))
    requires
        g.wf(),
        g.contains(a),
        g.contains(b),
        g.cell_at(a).is_visited(),
        forall|p: (int, int)| g.contains(p) && #[trigger] g.cell_at(p).is_visited() ==> finished(g, p),
    ensures
        g.cell_at(b).is_visited(),
    decreases (if a.0 < b.0 { b.0 - a.0 } else { a.0 - b.0 }) + (if a.1 < b.1 { b.1 - a.1 } else { a.1 - b.1 }),
{
    if a != b {
        let d = if a.0 < b.0 {
            Direction::S
        } else if a.0 > b.0 {
            Direction::N
        } else if a.1 < b.1 {
            Direction::E
        } else {
            Direction::W
        };
        let a2 = step(a, d);
        assert(g.contains(a2));
        assert(finished(g, a));
        lemma_spread(g, a2, b);
    }
}

proof fn lemma_row_grow(a: Seq<Cell>, b: Seq<Cell>)
    requires
        a.len() == b.len(),
        forall|j: int| 0 <= j < a.len() && #[trigger] a[j].is_visited() ==> b[j].is_visited(),
    ensures
        row_unvisited(b) <= row_unvisited(a),
        (forall|j: int| 0 <= j < a.len() ==> #[trigger] a[j].is_visited() == b[j].is_visited())
            ==> row_unvisited(b) == row_unvisited(a),
    decreases a.len(),
{
    if a.len() > 0 {
        lemma_row_grow(a.drop_last(), b.drop_last());
        assert(a[a.len() - 1].is_visited() ==> b[b.len() - 1].is_visited());
    }
}

proof fn lemma_rows_grow(a: Seq<Seq<Cell>>, b: Seq<Seq<Cell>>)
    requires
        a.len() == b.len(),
        forall|i: int| 0 <= i < a.len() ==> #[trigger] a[i].len() == b[i].len(),
        forall|i: int, j: int|
            0 <= i < a.len() && 0 <= j < a[i].len() && #[trigger] a[i][j].is_visited()
                ==> b[i][j].is_visited(),
    ensures
        rows_unvisited(b) <= rows_unvisited(a),
        (forall|i: int, j: int|
            0 <= i < a.len() && 0 <= j < a[i].len() ==> #[trigger] a[i][j].is_visited()
                == b[i][j].is_visited()) ==> rows_unvisited(b) == rows_unvisited(a),
    decreases a.len(),
{
    if a.len() > 0 {
        let i = a.len() - 1;
        lemma_rows_grow(a.drop_last(), b.drop_last());
        assert(forall|j: int| 0 <= j < a[i].len() && #[trigger] a[i][j].is_visited() ==> b[i][j].is_visited());
        lemma_row_grow(a[i], b[i]);
        if forall|i: int, j: int|
            0 <= i < a.len() && 0 <= j < a[i].len() ==> #[trigger] a[i][j].is_visited()
                == b[i][j].is_visited() {
            assert(forall|j: int| 0 <= j < a[i].len() ==> #[trigger] a[i][j].is_visited() == b[i][j].is_visited());
            assert(forall|k: int, j: int|
                0 <= k < a.drop_last().len() && 0 <= j < a.drop_last()[k].len() ==> #[trigger] a.drop_last()[k][j].is_visited()
                    == b.drop_last()[k][j].is_visited());
        }
    }
}

proof fn lemma_visits_grow(a: Grid, b: Grid)
    requires
        a.wf(),
        b.wf(),
        visits_grow(a, b),
    ensures
        unvisited(b) <= unvisited(a),
        same_visits(a, b) ==> unvisited(b) == unvisited(a),
{
    let ca = grid_cells(a);
    let cb = grid_cells(b);
    assert forall|i: int, j: int|
        0 <= i < ca.len() && 0 <= j < ca[i].len() && #[trigger] ca[i][j].is_visited() implies cb[i][j].is_visited() by {
        assert(a.cell_at((i, j)).is_visited());
    }
    if same_visits(a, b) {
        assert forall|i: int, j: int|
            0 <= i < ca.len() && 0 <= j < ca[i].len() implies #[trigger] ca[i][j].is_visited()
                == cb[i][j].is_visited() by {
            assert(a.contains((i, j)));
            assert(a.cell_at((i, j)).is_visited() == b.cell_at((i, j)).is_visited());
        }
    }
    lemma_rows_grow(ca, cb);
}

proof fn lemma_row_mark(a: Seq<Cell>, j: int, x: Cell)
    requires
        0 <= j < a.len(),
        !a[j].is_visited(),
        x.is_visited(),
    ensures
        row_unvisited(a.update(j, x)) + 1 == row_unvisited(a),
    decreases a.len(),
{
    let b = a.update(j, x);
    if j == a.len() - 1 {
        assert(b.drop_last() =~= a.drop_last());
    } else {
        assert(b.drop_last() =~= a.drop_last().update(j, x));
        lemma_row_mark(a.drop_last(), j, x);
    }
}

proof fn lemma_rows_mark(a: Seq<Seq<Cell>>, i: int, j: int, x: Cell)
    requires
        0 <= i < a.len(),
        0 <= j < a[i].len(),
        !a[i][j].is_visited(),
        x.is_visited(),
    ensures
        rows_unvisited(a.update(i, a[i].update(j, x))) + 1 == rows_unvisited(a),
    decreases a.len(),
{
    let b = a.update(i, a[i].update(j, x));
    if i == a.len() - 1 {
        assert(b.drop_last() =~= a.drop_last());
        lemma_row_mark(a[i], j, x);
    } else {
        assert(b.drop_last() =~= a.drop_last().update(i, a[i].update(j, x)));
        lemma_rows_mark(a.drop_last(), i, j, x);
    }
}

proof fn lemma_bits(w: u8, b: u8, b2: u8)
    by (bit_vector)
    requires
        b == 1 || b == 2 || b == 4 || b == 8,
        b2 == 1 || b2 == 2 || b2 == 4 || b2 == 8,
    ensures
        ((w | b) & b2 != 0) == (b == b2 || w & b2 != 0),
{
}

/// `c` with the passage bit `b` added.
pub open spec fn with_bit(c: Cell, b: u8) -> Cell {
    Cell { status: c.status, walls: c.walls | b }
}

/// Opens the passage between `current` and its neighbour `next` in direction
/// `dir`, on both cells.
pub fn carve_path(grid: &mut Grid, current: Coord, next: Coord, dir: Direction)
    requires
        old(grid).wf(),
        old(grid).contains(current.pos()),
        old(grid).contains(next.pos()),
        next.pos() == step(current.pos(), dir),
    ensures
        final(grid).wf(),
        grid_shape(*final(grid)) == grid_shape(*old(grid)),
        forall|p: (int, int)|
            old(grid).contains(p) ==> #[trigger] final(grid).cell_at(p) == if p == current.pos() {
                with_bit(old(grid).cell_at(p), dir.bit_spec())
            } else if p == next.pos() {
                with_bit(old(grid).cell_at(p), dir.opposite_spec().bit_spec())
            } else {
                old(grid).cell_at(p)
            },
        old(grid).symmetric() ==> final(grid).symmetric(),
        old(grid).symmetric() && old(grid).cell_at(next.pos()).walls == 0 ==> passage_count(*final(grid))
            == passage_count(*old(grid)) + 1,
{
    let ghost g0 = *grid;
    let a = grid.cell(current);
    let xa = Cell { status: a.status, walls: a.walls | dir.bit() };
    grid.set_cell(current, xa);
    let ghost gm = *grid;
    let b = grid.cell(next);
    let xb = Cell { status: b.status, walls: b.walls | dir.opposite().bit() };
    grid.set_cell(next, xb);
    proof {
        lemma_rows_pairs_update(grid_cells(g0), current.row as int, current.col as int, xa);
        lemma_rows_pairs_update(grid_cells(gm), next.row as int, next.col as int, xb);
        if g0.symmetric() && g0.cell_at(next.pos()).walls == 0 {
            let od = dir.opposite_spec();
            assert(!a.is_open(dir)) by {
                if a.is_open(dir) {
                    assert(g0.cell_at(next.pos()).is_open(od));
                    let ob = od.bit_spec();
                    assert(0u8 & ob == 0) by (bit_vector);
                }
            }
            lemma_bits(a.walls, dir.bit_spec(), Direction::S.bit_spec());
            lemma_bits(a.walls, dir.bit_spec(), Direction::E.bit_spec());
            lemma_bits(0u8, od.bit_spec(), Direction::S.bit_spec());
            lemma_bits(0u8, od.bit_spec(), Direction::E.bit_spec());
            assert(0u8 & 2u8 == 0 && 0u8 & 4u8 == 0) by (bit_vector);
            assert(b.walls == 0);
        }
    }
    proof {
        let g0 = *old(grid);
        let g1 = *grid;
        if g0.symmetric() {
            assert forall|p: (int, int), d: Direction|
                g1.contains(p) && #[trigger] g1.cell_at(p).is_open(d) implies {
                &&& g1.contains(step(p, d))
                &&& g1.cell_at(step(p, d)).is_open(d.opposite_spec())
            } by {
                let q = step(p, d);
                let od = d.opposite_spec();
                if p == current.pos() {
                    lemma_bits(g0.cell_at(p).walls, dir.bit_spec(), d.bit_spec());
                } else if p == next.pos() {
                    lemma_bits(g0.cell_at(p).walls, dir.opposite_spec().bit_spec(), d.bit_spec());
                }
                if d == dir && p == current.pos() {
                    lemma_bits(g0.cell_at(q).walls, od.bit_spec(), od.bit_spec());
                } else if p == next.pos() && d == dir.opposite_spec() {
                    lemma_bits(g0.cell_at(q).walls, dir.bit_spec(), od.bit_spec());
                } else {
                    assert(g0.cell_at(p).is_open(d));
                    if q == current.pos() {
                        lemma_bits(g0.cell_at(q).walls, dir.bit_spec(), od.bit_spec());
                    } else if q == next.pos() {
                        lemma_bits(g0.cell_at(q).walls, dir.opposite_spec().bit_spec(), od.bit_spec());
                    }
                }
            }
        }
    }
}

/// The passage count after one carve and the carving that follows it from the
/// newly entered cell.
proof fn lemma_carve_count(
    g1: Grid,
    g2: Grid,
    g3: Grid,
    current: (int, int),
    next: (int, int),
    f1: nat,
    f3: nat,
)
    requires
        g1.wf(),
        g1.symmetric(),
        g1.contains(current),
        g1.contains(next),
        current != next,
        g1.cell_at(current).is_visited(),
        !g1.cell_at(next).is_visited(),
        closed_except(g1, current),
        grid_shape(g1) == grid_shape(g2),
        same_visits(g1, g2),
        forall|p: (int, int)| g1.contains(p) && p != current && p != next ==> #[trigger] g2.cell_at(p) == g1.cell_at(p),
        g1.symmetric() && g1.cell_at(next).walls == 0 ==> passage_count(g2) == passage_count(g1) + 1,
        grid_shape(g2) == grid_shape(g3),
        g3.cell_at(next).is_visited(),
        closed_except(g2, next) ==> closed_except(g3, next) && passage_count(g3) + f1 + 1 == passage_count(g2) + f3,
    ensures
        closed_except(g3, current),
        passage_count(g3) + f1 == passage_count(g1) + f3,
{
    reveal(closed_except);
    assert(g1.cell_at(next).walls == 0);
    assert forall|p: (int, int)| g2.contains(p) && p != next && !#[trigger] g2.cell_at(p).is_visited() implies g2.cell_at(p).walls
        == 0 by {
        assert(g1.contains(p));
        assert(g1.cell_at(p).is_visited() == g2.cell_at(p).is_visited());
    }
    assert forall|p: (int, int)| g3.contains(p) && p != current && !#[trigger] g3.cell_at(p).is_visited() implies g3.cell_at(p).walls
        == 0 by {
    }
}

/// Relies on rand's `SliceRandom::shuffle` with the thread-local generator:
/// the same elements in an order of its choosing.
#[verifier::external_body]
fn shuffle(v: &mut Vec<Direction>)
    ensures
        final(v)@.to_multiset() == old(v)@.to_multiset(),
{
    rand::seq::SliceRandom::shuffle(v.as_mut_slice(), &mut rand::thread_rng());
}

#[verifier::rlimit(100)]
/// Randomized depth-first carving from `current`. Each carve is followed by a
/// frame, the drawing of the grid with the route from `start` to `end`, pushed
/// onto `frames`; the carver then continues from the newly entered cell.
pub fn generate(grid: &mut Grid, current: Coord, start: Coord, end: Coord, frames: &mut Vec<String>)
    requires
        old(grid).wf(),
        old(grid).symmetric(),
        old(grid).contains(current.pos()),
        old(grid).contains(start.pos()),
        old(grid).contains(end.pos()),
    ensures
        final(grid).wf(),
        final(grid).symmetric(),
        visits_grow(*old(grid), *final(grid)),
        final(grid).cell_at(current.pos()).is_visited(),
        finished(*final(grid), current.pos()),
        forall|p: (int, int)|
            final(grid).contains(p) && #[trigger] final(grid).cell_at(p).is_visited()
                && !old(grid).cell_at(p).is_visited() ==> finished(*final(grid), p),
        final(frames)@.len() + unvisited(*final(grid)) + (if old(grid).cell_at(current.pos()).is_visited() {
            0nat
        } else {
            1nat
        }) == old(frames)@.len() + unvisited(*old(grid)),
        forall|k: int| 0 <= k < old(frames)@.len() ==> #[trigger] final(frames)@[k] == old(frames)@[k],
        final(frames)@.len() >= old(frames)@.len(),
        passages_grow(*old(grid), *final(grid)),
        forall|p: (int, int)|
            final(grid).contains(p) && #[trigger] final(grid).cell_at(p).is_visited()
                && !old(grid).cell_at(p).is_visited() ==> connected(
                *final(grid),
                current,
                Coord { row: p.0 as usize, col: p.1 as usize },
            ),
        closed_except(*old(grid), current.pos()) ==> closed_except(*final(grid), current.pos())
            && passage_count(*final(grid)) + old(frames)@.len() == passage_count(*old(grid)) + final(frames)@.len(),
        old(grid).untouched() ==> {
            &&& forall|p: (int, int)|
                final(grid).contains(p) ==> #[trigger] final(grid).cell_at(p).is_visited()
            &&& passage_count(*final(grid)) + 1 == final(grid).rows() * final(grid).cols()
            &&& final(frames)@.len() + 1 == old(frames)@.len() + final(grid).rows() * final(grid).cols()
        },
    decreases unvisited(*old(grid)) + if old(grid).cell_at(current.pos()).is_visited() {
        1nat
    } else {
        0nat
    },
{
    let ghost g0 = *grid;
    let ghost f0 = frames@;
    let ghost was = g0.cell_at(current.pos()).is_visited();
    let cell = grid.cell(current);
    grid.set_cell(current, Cell { status: CellStatus::Visited, walls: cell.walls });
    proof {
        let x = Cell { status: CellStatus::Visited, walls: cell.walls };
        if was {
            assert(same_visits(g0, *grid));
            lemma_visits_grow(g0, *grid);
        } else {
            lemma_rows_mark(grid_cells(g0), current.row as int, current.col as int, x);
            assert(grid_cells(*grid) =~= grid_cells(g0).update(
                current.row as int,
                grid_cells(g0)[current.row as int].update(current.col as int, x),
            )) by {
                assert forall|i: int| 0 <= i < grid_cells(*grid).len() implies #[trigger] grid_cells(*grid)[i]
                    =~= grid_cells(g0).update(
                    current.row as int,
                    grid_cells(g0)[current.row as int].update(current.col as int, x),
                )[i] by {
                    assert forall|j: int| 0 <= j < grid_cells(*grid)[i].len() implies grid_cells(*grid)[i][j]
                        == grid_cells(g0).update(
                        current.row as int,
                        grid_cells(g0)[current.row as int].update(current.col as int, x),
                    )[i][j] by {
                        assert(grid.cell_at((i, j)) == grid_cells(*grid)[i][j]);
                    }
                }
            }
        }
        assert(grid.symmetric()) by {
            assert forall|p: (int, int), d: Direction|
                grid.contains(p) && #[trigger] grid.cell_at(p).is_open(d) implies {
                &&& grid.contains(step(p, d))
                &&& grid.cell_at(step(p, d)).is_open(d.opposite_spec())
            } by {
                assert(g0.cell_at(p).is_open(d));
            }
        }
    }
    proof {
        reveal(closed_except);
        if closed_except(g0, current.pos()) {
            lemma_rows_pairs_update(grid_cells(g0), current.row as int, current.col as int, Cell { status: CellStatus::Visited, walls: cell.walls });
            assert(closed_except(*grid, current.pos()));
        }
        assert(passages_grow(g0, *grid));
        assert forall|p: (int, int)|
            grid.contains(p) && #[trigger] grid.cell_at(p).is_visited() && !g0.cell_at(p).is_visited()
                implies connected(*grid, current, Coord { row: p.0 as usize, col: p.1 as usize }) by {
            assert(p == current.pos());
            assert(Coord { row: p.0 as usize, col: p.1 as usize } == current);
            assert(is_route(*grid, seq![current], current, current));
        }
    }
    let mut dirs = directions();
    shuffle(&mut dirs);
    proof {
        assert(dirs@.len() == 4) by {
            assert(dirs@.to_multiset().len() == 4);
        }
    }
    let mut i: usize = 0;
    while i < dirs.len()
        invariant
            grid.wf(),
            grid.symmetric(),
            grid.contains(current.pos()),
            grid.contains(start.pos()),
            grid.contains(end.pos()),
            dirs@.len() == 4,
            dirs@.to_multiset() == seq![Direction::N, Direction::S, Direction::E, Direction::W].to_multiset(),
            i <= 4,
            visits_grow(g0, *grid),
            grid.cell_at(current.pos()).is_visited(),
            forall|p: (int, int)|
                grid.contains(p) && #[trigger] grid.cell_at(p).is_visited() && !g0.cell_at(p).is_visited()
                    && p != current.pos() ==> finished(*grid, p),
            forall|k: int|
                0 <= k < i && #[trigger] grid.contains(step(current.pos(), dirs@[k])) ==> grid.cell_at(
                    step(current.pos(), dirs@[k]),
                ).is_visited(),
            frames@.len() + unvisited(*grid) + (if was {
                0nat
            } else {
                1nat
            }) == f0.len() + unvisited(g0),
            forall|k: int| 0 <= k < f0.len() ==> #[trigger] frames@[k] == f0[k],
            frames@.len() >= f0.len(),
            was == g0.cell_at(current.pos()).is_visited(),
            g0 == *old(grid),
            passages_grow(g0, *grid),
            closed_except(g0, current.pos()) ==> closed_except(*grid, current.pos())
                && passage_count(*grid) + f0.len() == passage_count(g0) + frames@.len(),
            forall|p: (int, int)|
                grid.contains(p) && #[trigger] grid.cell_at(p).is_visited() && !g0.cell_at(p).is_visited()
                    ==> connected(*grid, current, Coord { row: p.0 as usize, col: p.1 as usize }),
        decreases 4 - i,
    {
        let dir = dirs[i];
        let off = dir.offset();
        let target = (current.row as isize + off.0, current.col as isize + off.1);
        if in_boundaries(target, grid) {
            let next = Coord { row: target.0 as usize, col: target.1 as usize };
            let nc = grid.cell(next);
            if nc.status == CellStatus::NotVisited {
                let ghost g1 = *grid;
                let ghost f1 = frames@;
                carve_path(grid, current, next, dir);
                proof {
                    assert(same_visits(g1, *grid));
                    lemma_visits_grow(g1, *grid);
                }
                let route = find_path(grid, start, end);
                let frame = match &route {
                    Some(p) => draw(grid, start, end, Some(p.as_slice())),
                    None => draw(grid, start, end, None),
                };
                frames.push(frame);
                let ghost g2 = *grid;
                let ghost f2 = frames@;
                assert(!grid.cell_at(next.pos()).is_visited());
                assert(unvisited(*grid) == unvisited(g1));
                assert(f1.len() >= f0.len());
                assert(unvisited(g1) + (if was { 0nat } else { 1nat }) <= unvisited(g0));
                assert(unvisited(*grid) + (if grid.cell_at(next.pos()).is_visited() { 1nat } else { 0nat })
                    < unvisited(g0) + (if g0.cell_at(current.pos()).is_visited() { 1nat } else { 0nat }));
                generate(grid, next, start, end, frames);
                proof {
                    assert forall|p: (int, int)|
                        grid.contains(p) && #[trigger] grid.cell_at(p).is_visited() && !g0.cell_at(p).is_visited()
                            && p != current.pos() implies finished(*grid, p) by {
                        if g2.cell_at(p).is_visited() && p != next.pos() {
                            assert(g1.cell_at(p).is_visited());
                            assert forall|d: Direction| #[trigger] grid.contains(step(p, d)) implies grid.cell_at(step(p, d)).is_visited() by {
                                assert(g1.contains(step(p, d)));
                                assert(g2.cell_at(step(p, d)).is_visited());
                            }
                        }
                    }
                    assert forall|k: int|
                        0 <= k < i + 1 && #[trigger] grid.contains(step(current.pos(), dirs@[k])) implies grid.cell_at(
                            step(current.pos(), dirs@[k]),
                        ).is_visited() by {
                        let q = step(current.pos(), dirs@[k]);
                        if k < i {
                            assert(g1.contains(q));
                            assert(g1.cell_at(q).is_visited());
                            assert(g2.cell_at(q).is_visited());
                        }
                    }
                    assert forall|k: int| 0 <= k < f0.len() implies #[trigger] frames@[k] == f0[k] by {
                        assert(f2[k] == f1[k]);
                    }
                    let g3 = *grid;
                    if closed_except(g0, current.pos()) {
                        assert(same_visits(g1, g2));
                        lemma_carve_count(g1, g2, g3, current.pos(), next.pos(), f1.len(), frames@.len());
                    }
                    assert(passages_grow(g1, g2)) by {
                        assert forall|p: (int, int), d: Direction|
                            g1.contains(p) && #[trigger] g1.cell_at(p).is_open(d) implies g2.cell_at(p).is_open(d) by {
                            if p == current.pos() {
                                lemma_bits(g1.cell_at(p).walls, dir.bit_spec(), d.bit_spec());
                            } else if p == next.pos() {
                                lemma_bits(g1.cell_at(p).walls, dir.opposite_spec().bit_spec(), d.bit_spec());
                            }
                        }
                    }
                    assert(passages_grow(g0, g3)) by {
                        assert forall|p: (int, int), d: Direction|
                            g0.contains(p) && #[trigger] g0.cell_at(p).is_open(d) implies g3.cell_at(p).is_open(d) by {
                            assert(g1.cell_at(p).is_open(d));
                            assert(g2.cell_at(p).is_open(d));
                        }
                    }
                    assert(g3.linked(current.pos(), next.pos())) by {
                        lemma_bits(g1.cell_at(current.pos()).walls, dir.bit_spec(), dir.bit_spec());
                        assert(g2.cell_at(current.pos()).is_open(dir));
                        assert(g3.opens(current.pos(), dir, next.pos()));
                    }
                    assert forall|p: (int, int)|
                        g3.contains(p) && #[trigger] g3.cell_at(p).is_visited() && !g0.cell_at(p).is_visited()
                            implies connected(g3, current, Coord { row: p.0 as usize, col: p.1 as usize }) by {
                        let pc = Coord { row: p.0 as usize, col: p.1 as usize };
                        if g1.cell_at(p).is_visited() {
                            let r = choose|r: Seq<Coord>| is_route(g1, r, current, pc);
                            lemma_route_grow(g1, g2, r, current, pc);
                            lemma_route_grow(g2, g3, r, current, pc);
                        } else {
                            assert(!g2.cell_at(p).is_visited());
                            let r = choose|r: Seq<Coord>| is_route(g3, r, next, pc);
                            lemma_route_prepend(g3, current, r, next, pc);
                        }
                    }
                }
            }
        }
        i = i + 1;
    }
    proof {
        assert forall|d: Direction| #[trigger] grid.contains(step(current.pos(), d)) implies grid.cell_at(
            step(current.pos(), d),
        ).is_visited() by {
            let ds = seq![Direction::N, Direction::S, Direction::E, Direction::W];
            assert(ds.contains(d)) by {
                if d == Direction::N { assert(ds[0] == d); }
                else if d == Direction::S { assert(ds[1] == d); }
                else if d == Direction::E { assert(ds[2] == d); }
                else { assert(ds[3] == d); }
            }
            assert(dirs@.to_multiset().count(d) > 0);
            let k = choose|k: int| 0 <= k < dirs@.len() && dirs@[k] == d;
        }
        if g0.untouched() {
            assert forall|p: (int, int)| grid.contains(p) && #[trigger] grid.cell_at(p).is_visited() implies finished(
                *grid,
                p,
            ) by {
                assert(g0.contains(p));
                assert(!g0.cell_at(p).is_visited());
            }
            assert forall|p: (int, int)| grid.contains(p) implies #[trigger] grid.cell_at(p).is_visited() by {
                lemma_spread(*grid, current.pos(), p);
            }
            lemma_untouched_counts(g0);
            lemma_all_visited_count(*grid);
            assert(!was);
            reveal(closed_except);
            assert(closed_except(g0, current.pos())) by {
                assert forall|p: (int, int)| g0.contains(p) && p != current.pos() && !#[trigger] g0.cell_at(p).is_visited()
                    implies g0.cell_at(p).walls == 0 by {
                    assert(g0.cell_at(p) == Cell::fresh());
                }
            }
        }
    }
}

} // verus!
