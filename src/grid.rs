use vstd::prelude::*;

verus! {

/// One of the four compass directions. Each is a distinct bit of a cell's passage mask.
#[derive(Clone, Copy, PartialEq, Eq, Structural, Debug)]
pub enum Direction {
    N,
    S,
    E,
    W,
}

impl Direction {
    /// The bit that records an open passage in this direction.
    pub open spec fn bit_spec(self) -> u8 {
        match self {
            Direction::N => 1u8,
            Direction::S => 2u8,
            Direction::E => 4u8,
            Direction::W => 8u8,
        }
    }

    #[verifier::when_used_as_spec(bit_spec)]
    pub fn bit(self) -> (r: u8)
        ensures
            r == self.bit_spec(),
    {
        match self {
            Direction::N => 1,
            Direction::S => 2,
            Direction::E => 4,
            Direction::W => 8,
        }
    }

    /// The unit (row, col) step of this direction.
    pub open spec fn delta(self) -> (int, int) {
        match self {
            Direction::N => (-1, 0),
            Direction::S => (1, 0),
            Direction::E => (0, 1),
            Direction::W => (0, -1),
        }
    }

    pub fn offset(self) -> (r: (isize, isize))
        ensures
            r.0 == self.delta().0,
            r.1 == self.delta().1,
    {
        match self {
            Direction::N => (-1, 0),
            Direction::S => (1, 0),
            Direction::E => (0, 1),
            Direction::W => (0, -1),
        }
    }

    pub open spec fn opposite_spec(self) -> Direction {
        match self {
            Direction::W => Direction::E,
            Direction::E => Direction::W,
            Direction::N => Direction::S,
            Direction::S => Direction::N,
        }
    }

    #[verifier::when_used_as_spec(opposite_spec)]
    pub fn opposite(self) -> (r: Direction)
        ensures
            r == self.opposite_spec(),
    {
        match self {
            Direction::W => Direction::E,
            Direction::E => Direction::W,
            Direction::N => Direction::S,
            Direction::S => Direction::N,
        }
    }
}

/// The four directions in their fixed enumeration order.
pub open spec fn direction_order() -> Seq<Direction> {
    seq![Direction::N, Direction::S, Direction::E, Direction::W]
}

pub fn directions() -> (r: Vec<Direction>)
    ensures
        r@ == direction_order(),
{
    let r = vec![Direction::N, Direction::S, Direction::E, Direction::W];
    assert(r@ =~= direction_order());
    r
}

/// The position one step from `p` in direction `d`.
pub open spec fn step(p: (int, int), d: Direction) -> (int, int) {
    (p.0 + d.delta().0, p.1 + d.delta().1)
}

#[derive(Clone, Copy, PartialEq, Eq, Structural, Debug)]
pub enum CellStatus {
    Visited,
    NotVisited,
}

/// A grid cell: whether the carver has entered it, and a mask of the directions
/// in which a passage has been opened from it (a clear bit is a wall).
#[derive(Clone, Copy, PartialEq, Eq, Structural, Debug)]
pub struct Cell {
    pub status: CellStatus,
    pub walls: u8,
}

impl Cell {
    pub open spec fn fresh() -> Cell {
        Cell { status: CellStatus::NotVisited, walls: 0 }
    }

    pub open spec fn is_open(self, d: Direction) -> bool {
        self.walls & d.bit_spec() != 0
    }

    pub open spec fn is_visited(self) -> bool {
        self.status == CellStatus::Visited
    }

    pub fn has_passage(&self, d: Direction) -> (r: bool)
        ensures
            r == self.is_open(d),
    {
        self.walls & d.bit() != 0
    }
}

impl Default for Cell {
    fn default() -> (r: Self)
        ensures
            r == Cell::fresh(),
    {
        Cell { status: CellStatus::NotVisited, walls: 0 }
    }
}

/// A grid position; `row` counts down from the top, `col` right from the left.
#[derive(Clone, Copy, PartialEq, Eq, Structural, Debug, Hash)]
pub struct Coord {
    pub row: usize,
    pub col: usize,
}

impl Coord {
    pub open spec fn pos(self) -> (int, int) {
        (self.row as int, self.col as int)
    }

    pub fn new(row: usize, col: usize) -> (r: Coord)
        ensures
            r.row == row,
            r.col == col,
    {
        Coord { row, col }
    }
}

/// The maze grid: a matrix of cells that keeps its shape for its whole life.
#[verifier::external_body]
pub struct Grid {
    m: nalgebra::DMatrix<Cell>,
}

/// Number of rows and columns of the matrix held by a grid.
pub uninterp spec fn grid_shape(g: Grid) -> (nat, nat);

/// The cells of a grid, row by row.
pub uninterp spec fn grid_cells(g: Grid) -> Seq<Seq<Cell>>;

/// Relies on nalgebra's `DMatrix::from_element`: a rows x cols matrix whose
/// entries all equal `cell`.
#[verifier::external_body]
fn matrix_filled(rows: usize, cols: usize, cell: Cell) -> (g: Grid)
    requires
        rows * cols <= isize::MAX / 2,
    ensures
        grid_shape(g) == (rows as nat, cols as nat),
        grid_cells(g) == Seq::new(rows as nat, |i: int| Seq::new(cols as nat, |j: int| cell)),
{
    Grid { m: nalgebra::DMatrix::from_element(rows, cols, cell) }
}

/// Relies on nalgebra's `Matrix::nrows`.
#[verifier::external_body]
fn matrix_nrows(g: &Grid) -> (r: usize)
    ensures
        r == grid_shape(*g).0,
{
    g.m.nrows()
}

/// Relies on nalgebra's `Matrix::ncols`.
#[verifier::external_body]
fn matrix_ncols(g: &Grid) -> (r: usize)
    ensures
        r == grid_shape(*g).1,
{
    g.m.ncols()
}

/// Relies on nalgebra's `(row, col)` indexing, which panics out of bounds.
#[verifier::external_body]
fn matrix_get(g: &Grid, row: usize, col: usize) -> (r: Cell)
    requires
        row < grid_shape(*g).0,
        col < grid_shape(*g).1,
        grid_cells(*g).len() == grid_shape(*g).0,
        grid_cells(*g)[row as int].len() == grid_shape(*g).1,
    ensures
        r == grid_cells(*g)[row as int][col as int],
{
    g.m[(row, col)]
}

/// Relies on nalgebra's mutable `(row, col)` indexing, which panics out of bounds.
#[verifier::external_body]
fn matrix_set(g: &mut Grid, row: usize, col: usize, cell: Cell)
    requires
        row < grid_shape(*old(g)).0,
        col < grid_shape(*old(g)).1,
        grid_cells(*old(g)).len() == grid_shape(*old(g)).0,
        grid_cells(*old(g))[row as int].len() == grid_shape(*old(g)).1,
    ensures
        grid_shape(*final(g)) == grid_shape(*old(g)),
        grid_cells(*final(g)) == grid_cells(*old(g)).update(
            row as int,
            grid_cells(*old(g))[row as int].update(col as int, cell),
        ),
{
    g.m[(row, col)] = cell;
}

impl Grid {
    pub open spec fn rows(self) -> nat {
        grid_shape(self).0
    }

    pub open spec fn cols(self) -> nat {
        grid_shape(self).1
    }

    pub open spec fn contains(self, p: (int, int)) -> bool {
        0 <= p.0 < self.rows() && 0 <= p.1 < self.cols()
    }

    pub open spec fn cell_at(self, p: (int, int)) -> Cell {
        grid_cells(self)[p.0][p.1]
    }

    /// The shape is non-empty, small enough for signed coordinates, and the
    /// cells fill it.
    pub open spec fn wf(self) -> bool {
        &&& self.rows() > 0
        &&& self.cols() > 0
        &&& self.rows() <= isize::MAX / 2
        &&& self.cols() <= isize::MAX / 2
        &&& self.rows() * self.cols() <= isize::MAX / 2
        &&& grid_cells(self).len() == self.rows()
        &&& forall|i: int| 0 <= i < self.rows() ==> #[trigger] grid_cells(self)[i].len() == self.cols()
    }

    /// Every cell is unvisited and closed on all sides.
    pub open spec fn untouched(self) -> bool {
        forall|p: (int, int)| self.contains(p) ==> #[trigger] self.cell_at(p) == Cell::fresh()
    }

    /// `p` has an open passage in direction `d` to the neighbouring position `q`.
    pub open spec fn opens(self, p: (int, int), d: Direction, q: (int, int)) -> bool {
        self.contains(p) && self.contains(q) && q == step(p, d) && self.cell_at(p).is_open(d)
    }

    /// An open passage leads from `p` to `q` (as recorded on `p`'s mask).
    pub open spec fn linked(self, p: (int, int), q: (int, int)) -> bool {
        ||| self.opens(p, Direction::N, q)
        ||| self.opens(p, Direction::S, q)
        ||| self.opens(p, Direction::E, q)
        ||| self.opens(p, Direction::W, q)
    }

    /// Every open passage is recorded on both of its cells.
    pub open spec fn symmetric(self) -> bool {
        forall|p: (int, int), d: Direction|
            self.contains(p) && #[trigger] self.cell_at(p).is_open(d) ==> {
                &&& self.contains(step(p, d))
                &&& self.cell_at(step(p, d)).is_open(d.opposite_spec())
            }
    }

    pub fn nrows(&self) -> (r: usize)
        ensures
            r == self.rows(),
    {
        matrix_nrows(self)
    }

    pub fn ncols(&self) -> (r: usize)
        ensures
            r == self.cols(),
    {
        matrix_ncols(self)
    }

    pub fn cell(&self, at: Coord) -> (r: Cell)
        requires
            self.wf(),
            self.contains(at.pos()),
        ensures
            r == self.cell_at(at.pos()),
    {
        matrix_get(self, at.row, at.col)
    }

    /// Replaces one cell, keeping the shape.
    pub(crate) fn set_cell(&mut self, at: Coord, c: Cell)
        requires
            old(self).wf(),
            old(self).contains(at.pos()),
        ensures
            final(self).wf(),
            grid_shape(*final(self)) == grid_shape(*old(self)),
            grid_cells(*final(self)) == grid_cells(*old(self)).update(
                at.row as int,
                grid_cells(*old(self))[at.row as int].update(at.col as int, c),
            ),
            forall|p: (int, int)|
                old(self).contains(p) ==> #[trigger] final(self).cell_at(p) == if p == at.pos() {
                    c
                } else {
                    old(self).cell_at(p)
                },
    {
        matrix_set(self, at.row, at.col, c);
        assert forall|i: int| 0 <= i < self.rows() implies #[trigger] grid_cells(*self)[i].len()
            == self.cols() by {
            assert(old(self).contains((i, 0)) || i != at.row);
        }
    }
}

/// A grid of `rows` x `cols` fresh cells; `None` when either dimension is zero.
pub fn new(rows: usize, cols: usize) -> (r: Option<Grid>)
    requires
        rows * cols <= isize::MAX / 2,
    ensures
        r is None <==> (rows == 0 || cols == 0),
        r matches Some(g) ==> {
            &&& g.wf()
            &&& g.symmetric()
            &&& g.rows() == rows
            &&& g.cols() == cols
            &&& g.untouched()
        },
{
    if rows == 0 || cols == 0 {
        return None;
    }
    proof {
        assert(rows <= isize::MAX / 2 && cols <= isize::MAX / 2) by (nonlinear_arith)
            requires
                rows * cols <= isize::MAX / 2,
                rows >= 1,
                cols >= 1,
        ;
    }
    let g = matrix_filled(rows, cols, Cell::default());
    assert(g.symmetric()) by {
        assert forall|p: (int, int), d: Direction|
            g.contains(p) && #[trigger] g.cell_at(p).is_open(d) implies false by {
            let b = d.bit_spec();
            assert(0u8 & b == 0) by (bit_vector);
        }
    }
    Some(g)
}

/// Whether a signed position lies inside the grid.
pub fn in_boundaries(offset: (isize, isize), grid: &Grid) -> (r: bool)
    requires
        grid.wf(),
    ensures
        r == grid.contains((offset.0 as int, offset.1 as int)),
{
    offset.0 >= 0 && offset.1 >= 0 && offset.0 < grid.nrows() as isize && offset.1
        < grid.ncols() as isize
}

} // verus!
