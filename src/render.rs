use vstd::prelude::*;

use crate::grid::{Cell, CellStatus, Coord, Direction, Grid};

verus! {

/// The coordinates of an optional route, as a sequence (empty when there is none).
pub open spec fn route_of(path: Option<&[Coord]>) -> Seq<Coord> {
    match path {
        Some(p) => p@,
        None => Seq::empty(),
    }
}

/// The three characters drawn inside the cell at `at`:
/// start marker, then end marker, then highlighted route marker, then visited
/// marker, then blank.
pub open spec fn cell_body(g: Grid, start: Coord, end: Coord, route: Seq<Coord>, at: Coord) -> Seq<char> {
    if at == start {
        " S "@
    } else if at == end {
        " E "@
    } else if route.contains(at) {
        "\x1b[33m * \x1b[0m"@
    } else if g.cell_at(at.pos()).is_visited() {
        " \u{b7} "@
    } else {
        "   "@
    }
}

/// The separator drawn right of the cell at `at`: a wall unless a passage
/// leads east, and always a wall on the last column.
pub open spec fn east_separator(g: Grid, at: Coord) -> Seq<char> {
    if !g.cell_at(at.pos()).is_open(Direction::E) || at.col == g.cols() - 1 {
        "|"@
    } else {
        " "@
    }
}

/// The segment drawn below the cell at `at`: a wall unless a passage leads south.
pub open spec fn south_segment(g: Grid, at: Coord) -> Seq<char> {
    if !g.cell_at(at.pos()).is_open(Direction::S) {
        "---"@
    } else {
        "   "@
    }
}

/// The top border over the first `n` columns.
pub open spec fn top_border(n: nat) -> Seq<char>
    decreases n,
{
    if n == 0 {
        "+"@
    } else {
        top_border((n - 1) as nat) + "---+"@
    }
}

/// The content line of row `r`, over its first `n` cells.
pub open spec fn content_line(g: Grid, start: Coord, end: Coord, route: Seq<Coord>, r: nat, n: nat) -> Seq<char>
    decreases n,
{
    if n == 0 {
        "|"@
    } else {
        let at = Coord { row: r as usize, col: (n - 1) as usize };
        content_line(g, start, end, route, r, (n - 1) as nat) + cell_body(g, start, end, route, at)
            + east_separator(g, at)
    }
}

/// The wall line below row `r`, over its first `n` cells.
pub open spec fn wall_line(g: Grid, r: nat, n: nat) -> Seq<char>
    decreases n,
{
    if n == 0 {
        "+"@
    } else {
        let at = Coord { row: r as usize, col: (n - 1) as usize };
        wall_line(g, r, (n - 1) as nat) + south_segment(g, at) + "+"@
    }
}

/// The picture of the top border and the first `n` rows, each line ended by a newline.
pub open spec fn picture(g: Grid, start: Coord, end: Coord, route: Seq<Coord>, n: nat) -> Seq<char>
    decreases n,
{
    if n == 0 {
        top_border(g.cols()) + "\n"@
    } else {
        picture(g, start, end, route, (n - 1) as nat) + content_line(
            g,
            start,
            end,
            route,
            (n - 1) as nat,
            g.cols(),
        ) + "\n"@ + wall_line(g, (n - 1) as nat, g.cols()) + "\n"@
    }
}

/// The full picture of a grid with its start, end and optional route.
pub open spec fn rendering(g: Grid, start: Coord, end: Coord, route: Seq<Coord>) -> Seq<char> {
    picture(g, start, end, route, g.rows())
}

fn route_contains(path: Option<&[Coord]>, at: Coord) -> (r: bool)
    ensures
        r == route_of(path).contains(at),
{
    match path {
        None => false,
        Some(p) => {
            let mut i: usize = 0;
            while i < p.len()
                invariant
                    path == Some(p),
                    i <= p@.len(),
                    forall|k: int| 0 <= k < i ==> p@[k] != at,
                decreases p@.len() - i,
            {
                if p[i] == at {
                    assert(p@[i as int] == at);
                    return true;
                }
                i = i + 1;
            }
            false
        },
    }
}

/// Draws the grid as text: a top border, then for each row a content line and a
/// wall line. Cells show the start, end, route and visited markers.
pub fn draw(grid: &Grid, start: Coord, end: Coord, path: Option<&[Coord]>) -> (r: String)
    requires
        grid.wf(),
    ensures
        r@ == rendering(*grid, start, end, route_of(path)),
{
    let rows = grid.nrows();
    let cols = grid.ncols();
    let ghost route = route_of(path);
    let mut out = String::new();
    out.append("+");
    let mut c: usize = 0;
    while c < cols
        invariant
            c <= cols,
            out@ == top_border(c as nat),
        decreases cols - c,
    {
        out.append("---+");
        c = c + 1;
    }
    out.append("\n");
    let mut r: usize = 0;
    while r < rows
        invariant
            grid.wf(),
            rows == grid.rows(),
            cols == grid.cols(),
            r <= rows,
            route == route_of(path),
            out@ == picture(*grid, start, end, route, r as nat),
        decreases rows - r,
    {
        let mut top = String::new();
        top.append("|");
        let mut bottom = String::new();
        bottom.append("+");
        let mut c: usize = 0;
        while c < cols
            invariant
                grid.wf(),
                rows == grid.rows(),
                cols == grid.cols(),
                route == route_of(path),
                r < rows,
                c <= cols,
                top@ == content_line(*grid, start, end, route, r as nat, c as nat),
                bottom@ == wall_line(*grid, r as nat, c as nat),
            decreases cols - c,
        {
            let at = Coord { row: r, col: c };
            let cell: Cell = grid.cell(at);
            if at == start {
                top.append(" S ");
            } else if at == end {
                top.append(" E ");
            } else if route_contains(path, at) {
                top.append("\x1b[33m * \x1b[0m");
            } else if cell.status == CellStatus::Visited {
                top.append(" \u{b7} ");
            } else {
                top.append("   ");
            }
            if !cell.has_passage(Direction::E) || c == cols - 1 {
                top.append("|");
            } else {
                top.append(" ");
            }
            if !cell.has_passage(Direction::S) {
                bottom.append("---");
            } else {
                bottom.append("   ");
            }
            bottom.append("+");
            c = c + 1;
        }
        out.append(top.as_str());
        out.append("\n");
        out.append(bottom.as_str());
        out.append("\n");
        r = r + 1;
    }
    out
}

} // verus!
