use maze_carver::{
    carve_path, directions, draw, find_path, generate, in_boundaries, new, Cell, CellStatus, Coord,
    Direction, Grid,
};

fn c(row: usize, col: usize) -> Coord {
    Coord::new(row, col)
}

fn passage_pairs(g: &Grid) -> usize {
    let mut n = 0;
    for r in 0..g.nrows() {
        for col in 0..g.ncols() {
            let cell = g.cell(c(r, col));
            if cell.has_passage(Direction::S) {
                n += 1;
            }
            if cell.has_passage(Direction::E) {
                n += 1;
            }
        }
    }
    n
}

fn assert_symmetric(g: &Grid) {
    for r in 0..g.nrows() {
        for col in 0..g.ncols() {
            let cell = g.cell(c(r, col));
            for d in directions() {
                if cell.has_passage(d) {
                    let (dr, dc) = d.offset();
                    let nr = r as isize + dr;
                    let nc = col as isize + dc;
                    assert!(in_boundaries((nr, nc), g));
                    let other = g.cell(c(nr as usize, nc as usize));
                    assert!(other.has_passage(d.opposite()));
                }
            }
        }
    }
}

fn assert_route(g: &Grid, p: &[Coord], start: Coord, end: Coord) {
    assert_eq!(p[0], start);
    assert_eq!(p[p.len() - 1], end);
    for w in p.windows(2) {
        let cell = g.cell(w[0]);
        let linked = directions().into_iter().any(|d| {
            let (dr, dc) = d.offset();
            cell.has_passage(d)
                && w[0].row as isize + dr == w[1].row as isize
                && w[0].col as isize + dc == w[1].col as isize
        });
        assert!(linked);
    }
}

#[test]
fn zero_dimension_is_rejected() {
    assert!(new(0, 5).is_none());
    assert!(new(3, 0).is_none());
    assert!(new(0, 0).is_none());
}

#[test]
fn new_grid_is_fresh() {
    let g = new(3, 4).unwrap();
    assert_eq!(g.nrows(), 3);
    assert_eq!(g.ncols(), 4);
    for r in 0..3 {
        for col in 0..4 {
            assert_eq!(g.cell(c(r, col)), Cell::default());
            assert_eq!(g.cell(c(r, col)).status, CellStatus::NotVisited);
            assert_eq!(g.cell(c(r, col)).walls, 0);
        }
    }
}

#[test]
fn direction_bits_offsets_and_opposites() {
    assert_eq!(Direction::N.bit(), 1);
    assert_eq!(Direction::S.bit(), 2);
    assert_eq!(Direction::E.bit(), 4);
    assert_eq!(Direction::W.bit(), 8);
    assert_eq!(Direction::N.offset(), (-1, 0));
    assert_eq!(Direction::S.offset(), (1, 0));
    assert_eq!(Direction::E.offset(), (0, 1));
    assert_eq!(Direction::W.offset(), (0, -1));
    assert_eq!(Direction::N.opposite(), Direction::S);
    assert_eq!(Direction::S.opposite(), Direction::N);
    assert_eq!(Direction::E.opposite(), Direction::W);
    assert_eq!(Direction::W.opposite(), Direction::E);
    assert_eq!(
        directions(),
        vec![Direction::N, Direction::S, Direction::E, Direction::W]
    );
}

#[test]
fn bounds_check_uses_signed_positions() {
    let g = new(2, 3).unwrap();
    assert!(in_boundaries((0, 0), &g));
    assert!(in_boundaries((1, 2), &g));
    assert!(!in_boundaries((-1, 0), &g));
    assert!(!in_boundaries((0, -1), &g));
    assert!(!in_boundaries((2, 0), &g));
    assert!(!in_boundaries((0, 3), &g));
}

#[test]
fn carving_opens_both_sides() {
    let mut g = new(2, 2).unwrap();
    carve_path(&mut g, c(0, 0), c(0, 1), Direction::E);
    assert_eq!(g.cell(c(0, 0)).walls, 4);
    assert_eq!(g.cell(c(0, 1)).walls, 8);
    assert_eq!(g.cell(c(1, 0)).walls, 0);
    carve_path(&mut g, c(0, 1), c(1, 1), Direction::S);
    assert_eq!(g.cell(c(0, 1)).walls, 8 | 2);
    assert_eq!(g.cell(c(1, 1)).walls, 1);
    assert_symmetric(&g);
}

#[test]
fn two_by_two_route_after_two_carves() {
    let mut g = new(2, 2).unwrap();
    let start = c(0, 0);
    let end = c(1, 1);
    assert_eq!(find_path(&g, start, end), None);
    carve_path(&mut g, c(0, 0), c(0, 1), Direction::E);
    assert_eq!(find_path(&g, start, end), None);
    carve_path(&mut g, c(0, 1), c(1, 1), Direction::S);
    assert_eq!(
        find_path(&g, start, end),
        Some(vec![c(0, 0), c(0, 1), c(1, 1)])
    );
}

#[test]
fn route_to_itself_is_one_cell() {
    let g = new(3, 3).unwrap();
    assert_eq!(find_path(&g, c(1, 1), c(1, 1)), Some(vec![c(1, 1)]));
}

#[test]
fn route_finding_is_repeatable() {
    let mut g = new(4, 4).unwrap();
    let mut frames = Vec::new();
    generate(&mut g, c(0, 0), c(0, 0), c(3, 3), &mut frames);
    let a = find_path(&g, c(0, 0), c(3, 3));
    let b = find_path(&g, c(0, 0), c(3, 3));
    assert!(a.is_some());
    assert_eq!(a, b);
}

#[test]
fn route_follows_open_passages() {
    let mut g = new(6, 5).unwrap();
    let mut frames = Vec::new();
    generate(&mut g, c(2, 2), c(0, 0), c(5, 4), &mut frames);
    let p = find_path(&g, c(0, 0), c(5, 4)).unwrap();
    assert_route(&g, &p, c(0, 0), c(5, 4));
    let q = find_path(&g, c(5, 4), c(0, 0)).unwrap();
    assert_route(&g, &q, c(5, 4), c(0, 0));
    assert_eq!(p.len(), q.len());
}

#[test]
fn shortest_route_on_open_grid() {
    let mut g = new(3, 3).unwrap();
    for r in 0..3 {
        for col in 0..3 {
            if col + 1 < 3 {
                carve_path(&mut g, c(r, col), c(r, col + 1), Direction::E);
            }
            if r + 1 < 3 {
                carve_path(&mut g, c(r, col), c(r + 1, col), Direction::S);
            }
        }
    }
    let p = find_path(&g, c(0, 0), c(2, 2)).unwrap();
    assert_eq!(p.len(), 5);
    assert_route(&g, &p, c(0, 0), c(2, 2));
}

#[test]
fn generated_maze_is_spanning_tree() {
    let mut g = new(10, 5).unwrap();
    let start = c(0, 0);
    let end = c(9, 4);
    let mut frames = Vec::new();
    generate(&mut g, start, start, end, &mut frames);
    for r in 0..10 {
        for col in 0..5 {
            assert_eq!(g.cell(c(r, col)).status, CellStatus::Visited);
        }
    }
    assert_symmetric(&g);
    assert_eq!(passage_pairs(&g), 10 * 5 - 1);
    assert_eq!(frames.len(), 10 * 5 - 1);
    for r in 0..10 {
        for col in 0..5 {
            assert!(find_path(&g, start, c(r, col)).is_some());
        }
    }
    let top = format!("+{}\n", "---+".repeat(5));
    for frame in &frames {
        assert!(frame.starts_with(&top));
        assert_eq!(frame.lines().count(), 1 + 2 * 10);
    }
}

#[test]
fn one_by_one_generation_carves_nothing() {
    let mut g = new(1, 1).unwrap();
    let mut frames = Vec::new();
    generate(&mut g, c(0, 0), c(0, 0), c(0, 0), &mut frames);
    assert!(frames.is_empty());
    assert_eq!(g.cell(c(0, 0)).status, CellStatus::Visited);
    assert_eq!(g.cell(c(0, 0)).walls, 0);
    let text = draw(&g, c(0, 0), c(0, 0), None);
    assert_eq!(text, "+---+\n| S |\n+---+\n");
}

#[test]
fn blank_cell_renders_with_four_walls() {
    let g = new(1, 1).unwrap();
    let text = draw(&g, c(5, 5), c(6, 6), None);
    assert_eq!(text, "+---+\n|   |\n+---+\n");
}

#[test]
fn rendering_markers_and_walls() {
    let mut g = new(2, 3).unwrap();
    carve_path(&mut g, c(0, 0), c(0, 1), Direction::E);
    carve_path(&mut g, c(0, 1), c(1, 1), Direction::S);
    carve_path(&mut g, c(1, 1), c(1, 2), Direction::E);
    let route = [c(0, 0), c(0, 1), c(1, 1), c(1, 2)];
    let text = draw(&g, c(0, 0), c(1, 2), Some(&route));
    let expected = [
        "+---+---+---+\n",
        "| S  \x1b[33m * \x1b[0m|   |\n",
        "+---+   +---+\n",
        "|   |\x1b[33m * \x1b[0m  E |\n",
        "+---+---+---+\n",
    ]
    .join("");
    assert_eq!(text, expected);
}

#[test]
fn rendering_shows_visited_cells() {
    let mut g = new(1, 2).unwrap();
    let mut frames = Vec::new();
    generate(&mut g, c(0, 0), c(0, 0), c(0, 1), &mut frames);
    let text = draw(&g, c(5, 5), c(6, 6), None);
    assert_eq!(text, "+---+---+\n| \u{b7}   \u{b7} |\n+---+---+\n");
    assert_eq!(frames.len(), 1);
}
