use vstd::prelude::*;

use crate::grid::{directions, direction_order, in_boundaries, step, Coord, Direction, Grid};

verus! {

/// `p` walks open passages of `g` from `start` to `end`, both included.
pub open spec fn is_route(g: Grid, p: Seq<Coord>, start: Coord, end: Coord) -> bool {
    &&& p.len() > 0
    &&& p[0] == start
    &&& p.last() == end
    &&& forall|i: int| 0 <= i < p.len() - 1 ==> #[trigger] g.linked(p[i].pos(), p[i + 1].pos())
}

/// Some route of open passages leads from `start` to `end`.
pub open spec fn connected(g: Grid, start: Coord, end: Coord) -> bool {
    exists|p: Seq<Coord>| is_route(g, p, start, end)
}

/// Row-major index of a position.
pub open spec fn flat(g: Grid, p: (int, int)) -> int {
    p.0 * g.cols() + p.1
}

pub proof fn lemma_flat(g: Grid, p: (int, int), q: (int, int))
    requires
        g.wf(),
        g.contains(p),
        g.contains(q),
    ensures
        0 <= flat(g, p) < g.rows() * g.cols(),
        flat(g, p) == flat(g, q) ==> p == q,
{
    let rows = g.rows() as int;
    let cols = g.cols() as int;
    assert(0 <= p.0 * cols + p.1 < rows * cols) by (nonlinear_arith)
        requires
            0 <= p.0 < rows,
            0 <= p.1 < cols,
    ;
    assert(p.0 * cols + p.1 == q.0 * cols + q.1 ==> p.0 == q.0 && p.1 == q.1) by (nonlinear_arith)
        requires
            0 <= p.0 < rows,
            0 <= p.1 < cols,
            0 <= q.0 < rows,
            0 <= q.1 < cols,
    ;
}

/// Number of `true` entries.
pub open spec fn count_true(s: Seq<bool>) -> nat
    decreases s.len(),
{
    if s.len() == 0 {
        0
    } else {
        count_true(s.drop_last()) + if s.last() {
            1nat
        } else {
            0nat
        }
    }
}

proof fn lemma_count_true_bound(s: Seq<bool>)
    ensures
        count_true(s) <= s.len(),
    decreases s.len(),
{
    if s.len() > 0 {
        lemma_count_true_bound(s.drop_last());
    }
}

proof fn lemma_count_true_set(s: Seq<bool>, i: int)
    requires
        0 <= i < s.len(),
        !s[i],
    ensures
        count_true(s.update(i, true)) == count_true(s) + 1,
    decreases s.len(),
{
    let t = s.update(i, true);
    if i == s.len() - 1 {
        assert(t.drop_last() =~= s.drop_last());
    } else {
        assert(t.drop_last() =~= s.drop_last().update(i, true));
        lemma_count_true_set(s.drop_last(), i);
    }
}

proof fn lemma_count_true_none(m: nat)
    ensures
        count_true(Seq::new(m, |i: int| false)) == 0,
    decreases m,
{
    if m > 0 {
        assert(Seq::new(m, |i: int| false).drop_last() =~= Seq::new((m - 1) as nat, |i: int| false));
        lemma_count_true_none((m - 1) as nat);
    }
}

/// A set of positions that holds the first cell of a route and is closed under
/// open passages holds every cell of it.
proof fn lemma_route_closed(g: Grid, p: Seq<Coord>, inside: spec_fn((int, int)) -> bool)
    requires
        p.len() > 0,
        inside(p[0].pos()),
        forall|i: int| 0 <= i < p.len() - 1 ==> #[trigger] g.linked(p[i].pos(), p[i + 1].pos()),
        forall|a: (int, int), b: (int, int)| inside(a) && #[trigger] g.linked(a, b) ==> inside(b),
    ensures
        forall|i: int| 0 <= i < p.len() ==> inside(#[trigger] p[i].pos()),
    decreases p.len(),
{
    if p.len() > 1 {
        let q = p.drop_last();
        assert forall|i: int| 0 <= i < q.len() - 1 implies #[trigger] g.linked(
            q[i].pos(),
            q[i + 1].pos(),
        ) by {
            assert(g.linked(p[i].pos(), p[i + 1].pos()));
        }
        lemma_route_closed(g, q, inside);
        assert(inside(q[q.len() - 1].pos()));
        let last = p.len() - 2;
        assert(g.linked(p[last].pos(), p[last + 1].pos()));
        assert forall|i: int| 0 <= i < p.len() implies inside(#[trigger] p[i].pos()) by {
            if i < p.len() - 1 {
                assert(q[i] == p[i]);
            }
        }
    }
}

fn index_of(g: &Grid, cols: usize, at: Coord) -> (i: usize)
    requires
        g.wf(),
        cols == g.cols(),
        g.contains(at.pos()),
    ensures
        i == flat(*g, at.pos()),
        i < g.rows() * g.cols(),
{
    proof {
        lemma_flat(*g, at.pos(), at.pos());
        assert(at.row * cols <= at.row * cols + at.col);
    }
    at.row * cols + at.col
}

/// The state of a breadth-first search: which cells were reached, from which
/// neighbour each was first reached, and the queue of reached cells in order.
struct Search {
    visited: Vec<bool>,
    came_from: Vec<Coord>,
    queue: Vec<Coord>,
    dist: Ghost<Seq<nat>>,
}

impl Search {
    /// Every reached cell is queued once, and all but `start` lead back to it
    /// through predecessors of strictly smaller depth.
    #[verifier::opaque]
    spec fn inv(&self, g: Grid, start: Coord) -> bool {
        let n = g.rows() * g.cols();
        &&& self.visited@.len() == n
        &&& self.came_from@.len() == n
        &&& self.dist@.len() == n
        &&& self.queue@.len() == count_true(self.visited@)
        &&& self.queue@.len() > 0
        &&& self.queue@[0] == start
        &&& self.visited@[flat(g, start.pos())]
        &&& forall|k: int|
            0 <= k < self.queue@.len() ==> g.contains(#[trigger] self.queue@[k].pos())
                && self.visited@[flat(g, self.queue@[k].pos())]
        &&& forall|p: (int, int)|
            g.contains(p) && #[trigger] self.visited@[flat(g, p)] ==> exists|k: int|
                0 <= k < self.queue@.len() && self.queue@[k].pos() == p
        &&& forall|p: (int, int)|
            g.contains(p) && #[trigger] self.visited@[flat(g, p)] && p != start.pos() ==> {
                let c = self.came_from@[flat(g, p)];
                &&& g.contains(c.pos())
                &&& self.visited@[flat(g, c.pos())]
                &&& g.linked(c.pos(), p)
                &&& self.dist@[flat(g, c.pos())] + 1 == self.dist@[flat(g, p)]
            }
        &&& self.dist@[flat(g, start.pos())] == 0
        &&& forall|j: int, k: int|
            0 <= j < k < self.queue@.len() ==> self.depth(g, #[trigger] self.queue@[j].pos()) <= self.depth(
                g,
                #[trigger] self.queue@[k].pos(),
            )
    }

    /// The search depth recorded for a position.
    spec fn depth(&self, g: Grid, p: (int, int)) -> nat {
        self.dist@[flat(g, p)]
    }

    proof fn lemma_monotone(&self, g: Grid, start: Coord, j: int, k: int)
        requires
            self.inv(g, start),
            0 <= j <= k < self.queue@.len(),
        ensures
            self.depth(g, self.queue@[j].pos()) <= self.depth(g, self.queue@[k].pos()),
    {
        reveal(Search::inv);
    }

    proof fn lemma_position(&self, g: Grid, start: Coord, p: (int, int)) -> (k: int)
        requires
            self.inv(g, start),
            g.contains(p),
            self.visited@[flat(g, p)],
        ensures
            0 <= k < self.queue@.len(),
            self.queue@[k].pos() == p,
    {
        reveal(Search::inv);
        choose|k: int| 0 <= k < self.queue@.len() && self.queue@[k].pos() == p
    }

    /// No route from `start` is shorter than the depth of the cell it reaches;
    /// a route to a cell not reached yet is longer than the depth being expanded.
    proof fn lemma_levels(&self, g: Grid, start: Coord, head: int, q: Seq<Coord>, x: Coord)
        requires
            self.inv(g, start),
            g.wf(),
            g.contains(start.pos()),
            0 <= head < self.queue@.len(),
            forall|k: int|
                0 <= k < self.queue@.len() ==> self.depth(g, #[trigger] self.queue@[k].pos()) <= self.depth(
                    g,
                    self.queue@[head].pos(),
                ) + 1,
            forall|k: int, y: (int, int)|
                0 <= k < head && #[trigger] g.linked(self.queue@[k].pos(), y) ==> self.visited@[flat(g, y)]
                    && self.depth(g, y) <= self.depth(g, self.queue@[k].pos()) + 1,
            is_route(g, q, start, x),
        ensures
            g.contains(x.pos()),
            self.visited@[flat(g, x.pos())] ==> self.depth(g, x.pos()) + 1 <= q.len(),
            !self.visited@[flat(g, x.pos())] ==> q.len() >= self.depth(g, self.queue@[head].pos()) + 2,
        decreases q.len(),
    {
        let d = self.depth(g, self.queue@[head].pos());
        if q.len() == 1 {
            reveal(Search::inv);
        } else {
            let q2 = q.drop_last();
            let y = q2.last();
            let m = q.len() - 1;
            assert forall|i: int| 0 <= i < q2.len() - 1 implies #[trigger] g.linked(q2[i].pos(), q2[i + 1].pos()) by {
                assert(g.linked(q[i].pos(), q[i + 1].pos()));
            }
            self.lemma_levels(g, start, head, q2, y);
            assert(g.linked(q[m - 1].pos(), q[m - 1 + 1].pos()));
            assert(g.linked(y.pos(), x.pos()));
            if self.visited@[flat(g, x.pos())] {
                let kx = self.lemma_position(g, start, x.pos());
                assert(self.depth(g, self.queue@[kx].pos()) <= d + 1);
            }
            if self.visited@[flat(g, y.pos())] {
                let k = self.lemma_position(g, start, y.pos());
                if k < head {
                    assert(g.linked(self.queue@[k].pos(), x.pos()));
                } else {
                    self.lemma_monotone(g, start, head, k);
                }
            }
        }
    }

    proof fn lemma_queued(&self, g: Grid, start: Coord, k: int)
        requires
            self.inv(g, start),
            0 <= k < self.queue@.len(),
        ensures
            g.contains(self.queue@[k].pos()),
            self.visited@[flat(g, self.queue@[k].pos())],
            self.queue@.len() <= g.rows() * g.cols(),
    {
        reveal(Search::inv);
        lemma_count_true_bound(self.visited@);
    }

    fn begin(g: &Grid, cols: usize, start: Coord) -> (s: Search)
        requires
            g.wf(),
            cols == g.cols(),
            g.contains(start.pos()),
        ensures
            s.inv(*g, start),
            s.queue@.len() == 1,
            s.queue@[0] == start,
    {
        let n = g.nrows() * cols;
        let mut visited: Vec<bool> = Vec::new();
        let mut came_from: Vec<Coord> = Vec::new();
        let mut k: usize = 0;
        while k < n
            invariant
                k <= n,
                visited@ == Seq::new(k as nat, |i: int| false),
                came_from@.len() == k,
            decreases n - k,
        {
            visited.push(false);
            came_from.push(start);
            k = k + 1;
        }
        let si = index_of(g, cols, start);
        proof {
            lemma_count_true_set(visited@, si as int);
            lemma_count_true_none(n as nat);
            assert(visited@ =~= Seq::new(n as nat, |i: int| false));
        }
        visited.set(si, true);
        let mut queue: Vec<Coord> = Vec::new();
        queue.push(start);
        let s = Search {
            visited,
            came_from,
            queue,
            dist: Ghost(Seq::new(n as nat, |i: int| 0nat)),
        };
        proof {
            reveal(Search::inv);
            assert forall|p: (int, int)| g.contains(p) && #[trigger] s.visited@[flat(*g, p)] implies p
                == start.pos() by {
                lemma_flat(*g, p, start.pos());
            }
            assert(s.queue@[0].pos() == start.pos());
        }
        s
    }

    /// Reaches `nb` from `current` unless it was reached before.
    fn discover(&mut self, g: &Grid, cols: usize, start: Coord, current: Coord, nb: Coord)
        requires
            old(self).inv(*g, start),
            g.wf(),
            cols == g.cols(),
            g.contains(current.pos()),
            g.linked(current.pos(), nb.pos()),
            old(self).visited@[flat(*g, current.pos())],
            forall|k: int|
                0 <= k < old(self).queue@.len() ==> old(self).depth(*g, #[trigger] old(self).queue@[k].pos())
                    <= old(self).depth(*g, current.pos()) + 1,
        ensures
            final(self).inv(*g, start),
            forall|k: int|
                0 <= k < final(self).queue@.len() ==> final(self).depth(*g, #[trigger] final(self).queue@[k].pos())
                    <= old(self).depth(*g, current.pos()) + 1,
            forall|p: (int, int)|
                g.contains(p) && #[trigger] old(self).visited@[flat(*g, p)] ==> final(self).depth(*g, p)
                    == old(self).depth(*g, p),
            final(self).depth(*g, nb.pos()) <= old(self).depth(*g, current.pos()) + 1,
            final(self).visited@[flat(*g, nb.pos())],
            final(self).queue@.len() >= old(self).queue@.len(),
            forall|k: int|
                0 <= k < old(self).queue@.len() ==> #[trigger] final(self).queue@[k] == old(self).queue@[k],
            forall|p: (int, int)|
                g.contains(p) && #[trigger] old(self).visited@[flat(*g, p)] ==> final(self).visited@[flat(*g, p)],
    {
        proof {
            reveal(Search::inv);
        }
        let ni = index_of(g, cols, nb);
        if self.visited[ni] {
            proof {
                let k = choose|k: int| 0 <= k < self.queue@.len() && self.queue@[k].pos() == nb.pos();
                assert(self.depth(*g, self.queue@[k].pos()) <= self.depth(*g, current.pos()) + 1);
            }
            return;
        }
        let ci = index_of(g, cols, current);
        let ghost old_queue = self.queue@;
        let ghost old_visited = self.visited@;
        proof {
            lemma_count_true_bound(self.visited@);
            lemma_count_true_set(self.visited@, ni as int);
            assert forall|p: (int, int)| g.contains(p) && p != nb.pos() implies flat(*g, p) != ni by {
                lemma_flat(*g, p, nb.pos());
            }
            lemma_flat(*g, start.pos(), nb.pos());
            self.dist@ = self.dist@.update(ni as int, self.dist@[ci as int] + 1);
        }
        self.visited.set(ni, true);
        self.came_from.set(ni, current);
        self.queue.push(nb);
        proof {
            assert forall|k: int| 0 <= k < self.queue@.len() implies g.contains(
                #[trigger] self.queue@[k].pos(),
            ) && self.visited@[flat(*g, self.queue@[k].pos())] by {
                if k < old_queue.len() {
                    assert(self.queue@[k] == old_queue[k]);
                    lemma_flat(*g, self.queue@[k].pos(), nb.pos());
                }
            }
            assert forall|p: (int, int)| g.contains(p) && #[trigger] self.visited@[flat(*g, p)] implies exists|k: int|
                0 <= k < self.queue@.len() && self.queue@[k].pos() == p by {
                if p != nb.pos() {
                    lemma_flat(*g, p, nb.pos());
                    assert(old_visited[flat(*g, p)]);
                    let k = choose|k: int| 0 <= k < old_queue.len() && old_queue[k].pos() == p;
                    assert(self.queue@[k] == old_queue[k]);
                } else {
                    assert(self.queue@[self.queue@.len() - 1] == nb);
                }
            }
            assert forall|p: (int, int)|
                g.contains(p) && #[trigger] self.visited@[flat(*g, p)] && p != start.pos() implies {
                let c = self.came_from@[flat(*g, p)];
                &&& g.contains(c.pos())
                &&& self.visited@[flat(*g, c.pos())]
                &&& g.linked(c.pos(), p)
                &&& self.dist@[flat(*g, c.pos())] + 1 == self.dist@[flat(*g, p)]
            } by {
                if p != nb.pos() {
                    lemma_flat(*g, p, nb.pos());
                    assert(old_visited[flat(*g, p)]);
                    let c = self.came_from@[flat(*g, p)];
                    lemma_flat(*g, c.pos(), nb.pos());
                } else {
                    lemma_flat(*g, current.pos(), nb.pos());
                }
            }
            assert forall|p: (int, int)|
                g.contains(p) && #[trigger] old_visited[flat(*g, p)] implies self.visited@[flat(*g, p)] by {
                lemma_flat(*g, p, nb.pos());
            }
            assert forall|k: int|
                0 <= k < self.queue@.len() implies self.depth(*g, #[trigger] self.queue@[k].pos())
                    <= old(self).depth(*g, current.pos()) + 1 by {
                if k < old_queue.len() {
                    assert(self.queue@[k] == old_queue[k]);
                    lemma_flat(*g, self.queue@[k].pos(), nb.pos());
                }
            }
            assert forall|j: int, k: int|
                0 <= j < k < self.queue@.len() implies self.depth(*g, #[trigger] self.queue@[j].pos()) <= self.depth(
                    *g,
                    #[trigger] self.queue@[k].pos(),
                ) by {
                assert(self.queue@[j] == old_queue[j]);
                lemma_flat(*g, self.queue@[j].pos(), nb.pos());
                if k < old_queue.len() {
                    assert(self.queue@[k] == old_queue[k]);
                    lemma_flat(*g, self.queue@[k].pos(), nb.pos());
                }
            }
            assert forall|p: (int, int)|
                g.contains(p) && #[trigger] old_visited[flat(*g, p)] implies self.depth(*g, p) == old(self).depth(
                    *g,
                    p,
                ) by {
                lemma_flat(*g, p, nb.pos());
            }
        }
    }
}

/// Breadth-first search over open passages from `start` to `end`, expanding
/// neighbours in the order N, S, E, W. Returns the route, both ends included,
/// or `None` when no open passages join the two.
pub fn find_path(grid: &Grid, start: Coord, end: Coord) -> (r: Option<Vec<Coord>>)
    requires
        grid.wf(),
        grid.contains(start.pos()),
        grid.contains(end.pos()),
    ensures
        r is Some <==> connected(*grid, start, end),
        r matches Some(p) ==> is_route(*grid, p@, start, end),
        r matches Some(p) ==> forall|q: Seq<Coord>| #[trigger] is_route(*grid, q, start, end) ==> p@.len() <= q.len(),
{
    let cols = grid.ncols();
    let mut search = Search::begin(grid, cols, start);
    let dirs = directions();
    let mut head: usize = 0;
    proof {
        search.lemma_queued(*grid, start, 0);
    }
    while head < search.queue.len()
        invariant
            grid.wf(),
            grid.contains(start.pos()),
            grid.contains(end.pos()),
            cols == grid.cols(),
            dirs@ == direction_order(),
            search.inv(*grid, start),
            head <= search.queue@.len(),
            search.queue@.len() <= grid.rows() * grid.cols(),
            forall|k: int| 0 <= k < head ==> #[trigger] search.queue@[k] != end,
            forall|k: int, q: (int, int)|
                0 <= k < head && #[trigger] grid.linked(search.queue@[k].pos(), q)
                    ==> search.visited@[flat(*grid, q)] && search.depth(*grid, q) <= search.depth(
                    *grid,
                    search.queue@[k].pos(),
                ) + 1,
            head < search.queue@.len() ==> forall|k: int|
                0 <= k < search.queue@.len() ==> search.depth(*grid, #[trigger] search.queue@[k].pos())
                    <= search.depth(*grid, search.queue@[head as int].pos()) + 1,
        decreases grid.rows() * grid.cols() - head,
    {
        let current = search.queue[head];
        proof {
            search.lemma_queued(*grid, start, head as int);
        }
        if current == end {
            proof {
                reveal(Search::inv);
            }
            let route = reconstruct(
                grid,
                cols,
                &search.came_from,
                Ghost(search.visited@),
                search.dist,
                start,
                end,
            );
            proof {
                assert forall|q: Seq<Coord>| #[trigger] is_route(*grid, q, start, end) implies route@.len()
                    <= q.len() by {
                    search.lemma_levels(*grid, start, head as int, q, end);
                }
            }
            return Some(route);
        }
        let cell = grid.cell(current);
        let mut j: usize = 0;
        while j < 4
            invariant
                grid.wf(),
                grid.contains(start.pos()),
                cols == grid.cols(),
                dirs@ == direction_order(),
                j <= 4,
                search.inv(*grid, start),
                head < search.queue@.len(),
                current == search.queue@[head as int],
                grid.contains(current.pos()),
                search.visited@[flat(*grid, current.pos())],
                cell == grid.cell_at(current.pos()),
                forall|k: int| 0 <= k < head ==> #[trigger] search.queue@[k] != end,
                current != end,
                forall|k: int, q: (int, int)|
                    0 <= k < head && #[trigger] grid.linked(search.queue@[k].pos(), q)
                        ==> search.visited@[flat(*grid, q)] && search.depth(*grid, q) <= search.depth(
                        *grid,
                        search.queue@[k].pos(),
                    ) + 1,
                forall|k: int|
                    0 <= k < search.queue@.len() ==> search.depth(*grid, #[trigger] search.queue@[k].pos())
                        <= search.depth(*grid, current.pos()) + 1,
                forall|i: int|
                    0 <= i < j && #[trigger] grid.opens(
                        current.pos(),
                        dirs@[i],
                        step(current.pos(), dirs@[i]),
                    ) ==> search.visited@[flat(*grid, step(current.pos(), dirs@[i]))],
            decreases 4 - j,
        {
            let dir = dirs[j];
            if cell.has_passage(dir) {
                let off = dir.offset();
                let next = (current.row as isize + off.0, current.col as isize + off.1);
                if in_boundaries(next, grid) {
                    let nb = Coord { row: next.0 as usize, col: next.1 as usize };
                    assert(grid.opens(current.pos(), dir, nb.pos()));
                    let ghost s0 = search;
                    search.discover(grid, cols, start, current, nb);
                    proof {
                        assert forall|k: int, q: (int, int)|
                            0 <= k < head && #[trigger] grid.linked(search.queue@[k].pos(), q)
                                implies search.visited@[flat(*grid, q)] && search.depth(*grid, q) <= search.depth(
                                *grid,
                                search.queue@[k].pos(),
                            ) + 1 by {
                            assert(search.queue@[k] == s0.queue@[k]);
                            assert(grid.linked(s0.queue@[k].pos(), q));
                            s0.lemma_queued(*grid, start, k);
                        }
                    }
                }
            }
            j = j + 1;
        }
        proof {
            assert forall|k: int, q: (int, int)|
                0 <= k < head + 1 && #[trigger] grid.linked(search.queue@[k].pos(), q)
                    implies search.visited@[flat(*grid, q)] && search.depth(*grid, q) <= search.depth(
                    *grid,
                    search.queue@[k].pos(),
                ) + 1 by {
                if k == head {
                    if grid.opens(current.pos(), Direction::N, q) {
                        assert(grid.opens(current.pos(), dirs@[0], step(current.pos(), dirs@[0])));
                    } else if grid.opens(current.pos(), Direction::S, q) {
                        assert(grid.opens(current.pos(), dirs@[1], step(current.pos(), dirs@[1])));
                    } else if grid.opens(current.pos(), Direction::E, q) {
                        assert(grid.opens(current.pos(), dirs@[2], step(current.pos(), dirs@[2])));
                    } else {
                        assert(grid.opens(current.pos(), dirs@[3], step(current.pos(), dirs@[3])));
                    }
                    let kq = search.lemma_position(*grid, start, q);
                    assert(search.depth(*grid, search.queue@[kq].pos()) <= search.depth(*grid, current.pos()) + 1);
                }
            }
            search.lemma_queued(*grid, start, head as int);
            if head + 1 < search.queue@.len() {
                search.lemma_monotone(*grid, start, head as int, head + 1);
            }
        }
        head = head + 1;
    }
    proof {
        reveal(Search::inv);
        let g = *grid;
        let vis = search.visited@;
        let inside = |q: (int, int)| g.contains(q) && vis[flat(g, q)];
        assert forall|a: (int, int), b: (int, int)| inside(a) && #[trigger] g.linked(a, b) implies inside(
            b,
        ) by {
            let k = choose|k: int| 0 <= k < search.queue@.len() && search.queue@[k].pos() == a;
            assert(g.linked(search.queue@[k].pos(), b));
        }
        if connected(g, start, end) {
            let p = choose|p: Seq<Coord>| is_route(g, p, start, end);
            lemma_route_closed(g, p, inside);
            assert(inside(p[p.len() - 1].pos()));
            let k = choose|k: int| 0 <= k < search.queue@.len() && search.queue@[k].pos() == end.pos();
            assert(search.queue@[k] != end);
        }
    }
    None
}

/// Walks the predecessor links back from `end` to `start` and returns the
/// route in start-to-end order.
fn reconstruct(
    grid: &Grid,
    cols: usize,
    came_from: &Vec<Coord>,
    visited: Ghost<Seq<bool>>,
    dist: Ghost<Seq<nat>>,
    start: Coord,
    end: Coord,
) -> (r: Vec<Coord>)
    requires
        grid.wf(),
        cols == grid.cols(),
        grid.contains(start.pos()),
        grid.contains(end.pos()),
        visited@.len() == grid.rows() * grid.cols(),
        came_from@.len() == grid.rows() * grid.cols(),
        dist@.len() == grid.rows() * grid.cols(),
        visited@[flat(*grid, end.pos())],
        forall|p: (int, int)|
            grid.contains(p) && #[trigger] visited@[flat(*grid, p)] && p != start.pos() ==> {
                let c = came_from@[flat(*grid, p)];
                &&& grid.contains(c.pos())
                &&& visited@[flat(*grid, c.pos())]
                &&& grid.linked(c.pos(), p)
                &&& dist@[flat(*grid, c.pos())] + 1 == dist@[flat(*grid, p)]
            },
        dist@[flat(*grid, start.pos())] == 0,
    ensures
        is_route(*grid, r@, start, end),
        r@.len() == dist@[flat(*grid, end.pos())] + 1,
{
    let mut rev: Vec<Coord> = Vec::new();
    let mut at = end;
    while at != start
        invariant
            grid.wf(),
            cols == grid.cols(),
            grid.contains(at.pos()),
            visited@[flat(*grid, at.pos())],
            came_from@.len() == grid.rows() * grid.cols(),
            forall|p: (int, int)|
                grid.contains(p) && #[trigger] visited@[flat(*grid, p)] && p != start.pos() ==> {
                    let c = came_from@[flat(*grid, p)];
                    &&& grid.contains(c.pos())
                    &&& visited@[flat(*grid, c.pos())]
                    &&& grid.linked(c.pos(), p)
                    &&& dist@[flat(*grid, c.pos())] + 1 == dist@[flat(*grid, p)]
                },
            rev@.len() == 0 ==> at == end,
            dist@[flat(*grid, start.pos())] == 0,
            rev@.len() + dist@[flat(*grid, at.pos())] == dist@[flat(*grid, end.pos())],
            rev@.len() > 0 ==> rev@[0] == end && grid.linked(at.pos(), rev@.last().pos()),
            forall|i: int| 0 <= i < rev@.len() - 1 ==> #[trigger] grid.linked(rev@[i + 1].pos(), rev@[i].pos()),
        decreases dist@[flat(*grid, at.pos())],
    {
        let i = index_of(grid, cols, at);
        assert(at.pos() != start.pos());
        rev.push(at);
        at = came_from[i];
    }
    rev.push(start);
    let mut path: Vec<Coord> = Vec::new();
    let mut i = rev.len();
    while i > 0
        invariant
            i <= rev@.len(),
            path@.len() == rev@.len() - i,
            forall|k: int| 0 <= k < path@.len() ==> path@[k] == rev@[rev@.len() - 1 - k],
        decreases i,
    {
        i = i - 1;
        path.push(rev[i]);
    }
    assert forall|k: int| 0 <= k < path@.len() - 1 implies #[trigger] grid.linked(
        path@[k].pos(),
        path@[k + 1].pos(),
    ) by {
        let m = rev@.len() - 2 - k;
        assert(grid.linked(rev@[m + 1].pos(), rev@[m].pos()));
    }
    path
}

} // verus!
