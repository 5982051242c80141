use vstd::prelude::*;
use crate::count::{grid_count, false_count, lemma_grid_count_update, lemma_grid_count_same, lemma_grid_count_bounds};
use crate::maze::{Cell, Direction, Maze, opposite, can_step, in_grid, rows_of, shaped, step, wall_in, lemma_reachable_through};
use crate::rng::random_below;

verus! {

/// The state of a cell while the maze is being generated.
#[derive(Clone, Copy, PartialEq, Eq, Structural)]
enum CellState {
    /// Not yet part of the tree, nor of the current walk.
    Unvisited,
    /// Part of the spanning tree.
    InTree,
    /// On the current walk; the walk last left this cell in this direction.
    Heading(Direction),
}

spec fn at<T>(g: Seq<Seq<T>>, p: Cell) -> T {
    g[p.0][p.1]
}

spec fn is_tree(s: CellState) -> bool {
    s == CellState::InTree
}

spec fn tree_pred() -> spec_fn(CellState) -> bool {
    |s: CellState| s == CellState::InTree
}

spec fn tree_count(g: Seq<Seq<CellState>>) -> nat {
    grid_count(g, tree_pred())
}

spec fn grid_shaped(g: Seq<Seq<CellState>>, h: int, w: int) -> bool {
    &&& g.len() == h
    &&& forall|r: int| 0 <= r < h ==> (#[trigger] g[r]).len() == w
}

spec fn no_walk(g: Seq<Seq<CellState>>, h: int, w: int) -> bool {
    forall|p: Cell| in_grid(h, w, p) ==> !#[trigger] on_walk(g, p)
}

/// The witnesses that the carved walls form a tree over the cells in the tree:
/// each tree cell but the root points (`pdir`) through a carved wall to a
/// neighbour of smaller rank, every carved wall is such a pointer, and the
/// carved walls number one less than the tree cells. A pointer may also reach
/// `cursor`, the cell that a path being joined to the tree has reached.
#[verifier::opaque]
spec fn tree_inv(
    g: Seq<Seq<CellState>>,
    vw: Seq<Seq<bool>>,
    hw: Seq<Seq<bool>>,
    h: int,
    w: int,
    root: Cell,
    t: (Map<Cell, Direction>, Map<Cell, nat>, nat),
    cursor: Cell,
) -> bool {
    let (pdir, rank, bound) = t;
    &&& shaped(vw, hw, h, w)
    &&& grid_shaped(g, h, w)
    &&& in_grid(h, w, root)
    &&& is_tree(at(g, root))
    &&& forall|p: Cell| in_grid(h, w, p) && is_tree(#[trigger] at(g, p)) ==> rank[p] < bound
    &&& forall|p: Cell|
        in_grid(h, w, p) && is_tree(#[trigger] at(g, p)) && p != root ==> {
            let q = step(p, pdir[p]);
            &&& can_step(h, w, p, pdir[p])
            &&& !wall_in(vw, hw, p, pdir[p])
            &&& rank[q] < rank[p]
            &&& (is_tree(at(g, q)) || q == cursor)
        }
    &&& forall|r: int, c: int|
        0 <= r < h && 0 <= c < w - 1 && !#[trigger] vw[r][c] ==> {
            ||| is_tree(at(g, (r, c))) && (r, c) != root && pdir[(r, c)] == Direction::Right
            ||| is_tree(at(g, (r, c + 1))) && (r, c + 1) != root && pdir[(r, c + 1)] == Direction::Left
        }
    &&& forall|r: int, c: int|
        0 <= r < h - 1 && 0 <= c < w && !#[trigger] hw[r][c] ==> {
            ||| is_tree(at(g, (r, c))) && (r, c) != root && pdir[(r, c)] == Direction::Down
            ||| is_tree(at(g, (r + 1, c))) && (r + 1, c) != root && pdir[(r + 1, c)] == Direction::Up
        }
    &&& false_count(vw) + false_count(hw) + 1 == tree_count(g)
}

spec fn spanning(g: Seq<Seq<CellState>>, vw: Seq<Seq<bool>>, hw: Seq<Seq<bool>>, h: int, w: int, root: Cell) -> bool {
    exists|t: (Map<Cell, Direction>, Map<Cell, nat>, nat)| #[trigger] tree_inv(g, vw, hw, h, w, root, t, root)
}

/// A `rows` by `cols` matrix with every entry `x`.
fn filled<T: Copy>(rows: usize, cols: usize, x: T) -> (m: Vec<Vec<T>>)
    ensures
        m@.len() == rows,
        forall|r: int| 0 <= r < rows ==> (#[trigger] m@[r])@ == Seq::new(cols as nat, |i: int| x),
{
    let mut m: Vec<Vec<T>> = Vec::new();
    for r in 0..rows
        invariant
            m@.len() == r,
            forall|i: int| 0 <= i < r ==> (#[trigger] m@[i])@ == Seq::new(cols as nat, |j: int| x),
    {
        let mut row: Vec<T> = Vec::new();
        for c in 0..cols
            invariant
                row@ == Seq::new(c as nat, |j: int| x),
        {
            row.push(x);
            assert(row@ =~= Seq::new((c + 1) as nat, |j: int| x));
        }
        m.push(row);
    }
    m
}

/// Whether every cell has left the `Unvisited` state.
fn is_complete(grid: &Vec<Vec<CellState>>) -> (r: bool)
    ensures
        r == forall|i: int, j: int|
            0 <= i < grid@.len() && 0 <= j < grid@[i]@.len() ==> #[trigger] grid@[i]@[j] != CellState::Unvisited,
{
    for i in 0..grid.len()
        invariant
            forall|a: int, b: int|
                0 <= a < i && 0 <= b < grid@[a]@.len() ==> #[trigger] grid@[a]@[b] != CellState::Unvisited,
    {
        let line = &grid[i];
        for j in 0..line.len()
            invariant
                0 <= i < grid@.len(),
                line == grid@[i as int],
                forall|a: int, b: int|
                    0 <= a < i && 0 <= b < grid@[a]@.len() ==> #[trigger] grid@[a]@[b] != CellState::Unvisited,
                forall|b: int| 0 <= b < j ==> #[trigger] grid@[i as int]@[b] != CellState::Unvisited,
        {
            if let CellState::Unvisited = line[j] {
                assert(grid@[i as int]@[j as int] == CellState::Unvisited);
                return false;
            }
        }
    }
    true
}

/// An unvisited cell, drawn uniformly among all unvisited cells.
fn select_square(height: usize, width: usize, grid: &Vec<Vec<CellState>>) -> (p: (usize, usize))
    requires
        grid_shaped(rows_of(grid@), height as int, width as int),
        exists|p: Cell| in_grid(height as int, width as int, p) && #[trigger] at(rows_of(grid@), p) == CellState::Unvisited,
    ensures
        in_grid(height as int, width as int, (p.0 as int, p.1 as int)),
        at(rows_of(grid@), (p.0 as int, p.1 as int)) == CellState::Unvisited,
{
    let ghost g = rows_of(grid@);
    let mut candidates: Vec<(usize, usize)> = Vec::new();
    for r in 0..height
        invariant
            g == rows_of(grid@),
            grid_shaped(g, height as int, width as int),
            forall|i: int| 0 <= i < candidates@.len() ==> {
                let q = #[trigger] candidates@[i];
                in_grid(height as int, width as int, (q.0 as int, q.1 as int))
                    && at(g, (q.0 as int, q.1 as int)) == CellState::Unvisited
            },
            candidates@.len() == 0 ==> forall|a: int, b: int|
                0 <= a < r && 0 <= b < width ==> at(g, (a, b)) != CellState::Unvisited,
    {
        assert(grid@[r as int]@ == g[r as int]);
        for c in 0..width
            invariant
                g == rows_of(grid@),
                grid_shaped(g, height as int, width as int),
                0 <= r < height,
                forall|i: int| 0 <= i < candidates@.len() ==> {
                    let q = #[trigger] candidates@[i];
                    in_grid(height as int, width as int, (q.0 as int, q.1 as int))
                        && at(g, (q.0 as int, q.1 as int)) == CellState::Unvisited
                },
                candidates@.len() == 0 ==> forall|a: int, b: int|
                    0 <= a < r && 0 <= b < width ==> at(g, (a, b)) != CellState::Unvisited,
                candidates@.len() == 0 ==> forall|b: int| 0 <= b < c ==> at(g, (r as int, b)) != CellState::Unvisited,
        {
            assert(grid@[r as int]@ == g[r as int]);
            if let CellState::Unvisited = grid[r][c] {
                candidates.push((r, c));
            }
        }
    }
    if candidates.len() == 0 {
        proof {
            let p = choose|p: Cell| in_grid(height as int, width as int, p) && #[trigger] at(g, p) == CellState::Unvisited;
            assert(at(g, (p.0, p.1)) != CellState::Unvisited);
        }
    }
    let k = random_below(candidates.len());
    candidates[k]
}

/// A direction that keeps `(row, col)` on the grid, drawn uniformly among those
/// that do.
fn select_direction(height: usize, width: usize, row: usize, col: usize) -> (d: Direction)
    requires
        in_grid(height as int, width as int, (row as int, col as int)),
        height > 1 || width > 1,
    ensures
        can_step(height as int, width as int, (row as int, col as int), d),
{
    let mut options: Vec<Direction> = Vec::new();
    if col > 0 {
        options.push(Direction::Left);
    }
    if col + 1 < width {
        options.push(Direction::Right);
    }
    if row > 0 {
        options.push(Direction::Up);
    }
    if row + 1 < height {
        options.push(Direction::Down);
    }
    assert(forall|i: int| 0 <= i < options@.len() ==> can_step(height as int, width as int, (row as int, col as int), #[trigger] options@[i]));
    let k = random_below(options.len());
    options[k]
}

pub open spec fn distance(a: Cell, b: Cell) -> nat {
    ((if a.0 >= b.0 { a.0 - b.0 } else { b.0 - a.0 }) + (if a.1 >= b.1 { a.1 - b.1 } else { b.1 - a.1 })) as nat
}

/// The first step of a shortest route from `(row, col)` to `target`.
fn direction_toward(height: usize, width: usize, row: usize, col: usize, target: (usize, usize)) -> (d: Direction)
    requires
        in_grid(height as int, width as int, (row as int, col as int)),
        in_grid(height as int, width as int, (target.0 as int, target.1 as int)),
        (row, col) != target,
    ensures
        can_step(height as int, width as int, (row as int, col as int), d),
        distance(step((row as int, col as int), d), (target.0 as int, target.1 as int))
            < distance((row as int, col as int), (target.0 as int, target.1 as int)),
{
    if col < target.1 {
        Direction::Right
    } else if col > target.1 {
        Direction::Left
    } else if row < target.0 {
        Direction::Down
    } else {
        Direction::Up
    }
}

spec fn heading(s: CellState) -> Direction {
    match s {
        CellState::Heading(d) => d,
        _ => Direction::Right,
    }
}

fn in_tree(grid: &Vec<Vec<CellState>>, row: usize, col: usize) -> (r: bool)
    requires
        row < rows_of(grid@).len(),
        col < rows_of(grid@)[row as int].len(),
    ensures
        r == is_tree(at(rows_of(grid@), (row as int, col as int))),
{
    let line = &grid[row];
    assert(rows_of(grid@)[row as int] == line@);
    if let CellState::InTree = line[col] {
        true
    } else {
        false
    }
}

/// Moving the cursor onto a tree cell, or changing only cells outside the tree,
/// keeps the witnesses.
proof fn lemma_same_tree(
    g1: Seq<Seq<CellState>>,
    g2: Seq<Seq<CellState>>,
    vw: Seq<Seq<bool>>,
    hw: Seq<Seq<bool>>,
    h: int,
    w: int,
    root: Cell,
    t: (Map<Cell, Direction>, Map<Cell, nat>, nat),
    cursor: Cell,
)
    requires
        tree_inv(g1, vw, hw, h, w, root, t, cursor),
        in_grid(h, w, cursor) && is_tree(at(g1, cursor)),
        grid_shaped(g2, h, w),
        forall|p: Cell| in_grid(h, w, p) ==> is_tree(#[trigger] at(g1, p)) == is_tree(at(g2, p)),
    ensures
        tree_inv(g2, vw, hw, h, w, root, t, root),
        tree_count(g2) == tree_count(g1),
{
    reveal(tree_inv);
    assert forall|r: int, c: int| 0 <= r < g1.len() && 0 <= c < g1[r].len() implies
        (#[trigger] g1[r][c] == CellState::InTree) == (g2[r][c] == CellState::InTree) by {
        assert(is_tree(at(g1, (r, c))) == is_tree(at(g2, (r, c))));
    }
    lemma_grid_count_same(g1, g2, tree_pred());
    assert forall|p: Cell| in_grid(h, w, p) && is_tree(#[trigger] at(g2, p)) && p != root implies {
        &&& can_step(h, w, p, t.0[p])
        &&& !wall_in(vw, hw, p, t.0[p])
        &&& t.1[step(p, t.0[p])] < t.1[p]
        &&& (is_tree(at(g2, step(p, t.0[p]))) || step(p, t.0[p]) == root)
    } by {
        assert(is_tree(at(g1, p)));
        let q = step(p, t.0[p]);
        assert(can_step(h, w, p, t.0[p]));
        assert(is_tree(at(g1, q)) == is_tree(at(g2, q)));
    }
    assert forall|p: Cell| in_grid(h, w, p) && is_tree(#[trigger] at(g2, p)) implies t.1[p] < t.2 by {
        assert(is_tree(at(g1, p)));
    }
    assert forall|r: int, c: int| 0 <= r < h && 0 <= c < w - 1 && !#[trigger] vw[r][c] implies {
        ||| is_tree(at(g2, (r, c))) && (r, c) != root && t.0[(r, c)] == Direction::Right
        ||| is_tree(at(g2, (r, c + 1))) && (r, c + 1) != root && t.0[(r, c + 1)] == Direction::Left
    } by {
        assert(is_tree(at(g1, (r, c))) == is_tree(at(g2, (r, c))));
        assert(is_tree(at(g1, (r, c + 1))) == is_tree(at(g2, (r, c + 1))));
    }
    assert forall|r: int, c: int| 0 <= r < h - 1 && 0 <= c < w && !#[trigger] hw[r][c] implies {
        ||| is_tree(at(g2, (r, c))) && (r, c) != root && t.0[(r, c)] == Direction::Down
        ||| is_tree(at(g2, (r + 1, c))) && (r + 1, c) != root && t.0[(r + 1, c)] == Direction::Up
    } by {
        assert(is_tree(at(g1, (r, c))) == is_tree(at(g2, (r, c))));
        assert(is_tree(at(g1, (r + 1, c))) == is_tree(at(g2, (r + 1, c))));
    }
}

/// The two wall matrices after the wall between `p` and `step(p, d)` is carved.
spec fn carved(vw: Seq<Seq<bool>>, hw: Seq<Seq<bool>>, p: Cell, d: Direction) -> (Seq<Seq<bool>>, Seq<Seq<bool>>) {
    match d {
        Direction::Right => (vw.update(p.0, vw[p.0].update(p.1, false)), hw),
        Direction::Left => (vw.update(p.0, vw[p.0].update(p.1 - 1, false)), hw),
        Direction::Down => (vw, hw.update(p.0, hw[p.0].update(p.1, false))),
        Direction::Up => (vw, hw.update(p.0 - 1, hw[p.0 - 1].update(p.1, false))),
    }
}

/// Removes the wall between `(row, col)` and its neighbour in direction `d`.
fn carve(walls_v: &mut Vec<Vec<bool>>, walls_h: &mut Vec<Vec<bool>>, height: usize, width: usize, row: usize, col: usize, d: Direction)
    requires
        shaped(rows_of(old(walls_v)@), rows_of(old(walls_h)@), height as int, width as int),
        can_step(height as int, width as int, (row as int, col as int), d),
    ensures
        (rows_of(final(walls_v)@), rows_of(final(walls_h)@)) == carved(
            rows_of(old(walls_v)@),
            rows_of(old(walls_h)@),
            (row as int, col as int),
            d,
        ),
{
    let ghost v0 = rows_of(walls_v@);
    let ghost h0 = rows_of(walls_h@);
    match d {
        Direction::Right => {
            assert(walls_v@[row as int]@ == v0[row as int]);
            walls_v[row][col] = false;
        },
        Direction::Left => {
            assert(walls_v@[row as int]@ == v0[row as int]);
            walls_v[row][col - 1] = false;
        },
        Direction::Down => {
            assert(walls_h@[row as int]@ == h0[row as int]);
            walls_h[row][col] = false;
        },
        Direction::Up => {
            assert(walls_h@[row - 1]@ == h0[row - 1]);
            walls_h[row - 1][col] = false;
        },
    }
    let ghost c = carved(v0, h0, (row as int, col as int), d);
    assert(rows_of(walls_v@) =~= c.0);
    assert(rows_of(walls_h@) =~= c.1);
}

/// Joining `pos` to the tree through its neighbour in direction `d` keeps the
/// witnesses, with the cursor moved on to that neighbour, and adds one tree cell.
proof fn lemma_join_step(
    g: Seq<Seq<CellState>>,
    vw: Seq<Seq<bool>>,
    hw: Seq<Seq<bool>>,
    h: int,
    w: int,
    root: Cell,
    t: (Map<Cell, Direction>, Map<Cell, nat>, nat),
    pos: Cell,
    d: Direction,
)
    requires
        tree_inv(g, vw, hw, h, w, root, t, pos),
        in_grid(h, w, pos),
        !is_tree(at(g, pos)),
        can_step(h, w, pos, d),
        t.1[step(pos, d)] < t.1[pos],
        t.1[pos] < t.2,
    ensures
        ({
            let g2 = g.update(pos.0, g[pos.0].update(pos.1, CellState::InTree));
            let (vw2, hw2) = carved(vw, hw, pos, d);
            &&& tree_inv(g2, vw2, hw2, h, w, root, (t.0.insert(pos, d), t.1, t.2), step(pos, d))
            &&& tree_count(g2) == tree_count(g) + 1
        }),
        wall_in(vw, hw, pos, d),
{
    reveal(tree_inv);
    let g2 = g.update(pos.0, g[pos.0].update(pos.1, CellState::InTree));
    let (vw2, hw2) = carved(vw, hw, pos, d);
    let t2 = (t.0.insert(pos, d), t.1, t.2);
    let q = step(pos, d);
    let (pdir, rank, bound) = t;
    lemma_grid_count_update(g, pos.0, pos.1, CellState::InTree, tree_pred());
    assert(at(g2, pos) == CellState::InTree);
    assert forall|p: Cell| in_grid(h, w, p) && p != pos implies #[trigger] at(g2, p) == at(g, p) by {
        if p.0 == pos.0 {
            assert(g2[p.0] == g[pos.0].update(pos.1, CellState::InTree));
        }
    }
    // the wall was standing: a carved one would point from `q` back to `pos`
    assert(wall_in(vw, hw, pos, d)) by {
        if !wall_in(vw, hw, pos, d) {
            assert(is_tree(at(g, q)) && q != root && step(q, pdir[q]) == pos);
            assert(rank[pos] < rank[q]);
        }
    }
    match d {
        Direction::Right => {
            lemma_grid_count_update(vw, pos.0, pos.1, false, |b: bool| !b);
        },
        Direction::Left => {
            lemma_grid_count_update(vw, pos.0, pos.1 - 1, false, |b: bool| !b);
        },
        Direction::Down => {
            lemma_grid_count_update(hw, pos.0, pos.1, false, |b: bool| !b);
        },
        Direction::Up => {
            lemma_grid_count_update(hw, pos.0 - 1, pos.1, false, |b: bool| !b);
        },
    }
    assert(false_count(vw2) + false_count(hw2) == false_count(vw) + false_count(hw) + 1);
    assert forall|p: Cell| in_grid(h, w, p) && is_tree(#[trigger] at(g2, p)) implies rank[p] < bound by {
        if p != pos {
            assert(at(g2, p) == at(g, p));
        }
    }
    assert forall|p: Cell| in_grid(h, w, p) && is_tree(#[trigger] at(g2, p)) && p != root implies {
        &&& can_step(h, w, p, t2.0[p])
        &&& !wall_in(vw2, hw2, p, t2.0[p])
        &&& rank[step(p, t2.0[p])] < rank[p]
        &&& (is_tree(at(g2, step(p, t2.0[p]))) || step(p, t2.0[p]) == q)
    } by {
        if p != pos {
            assert(at(g2, p) == at(g, p));
            let pp = step(p, pdir[p]);
            assert(can_step(h, w, p, pdir[p]));
            if pp != pos {
                assert(at(g2, pp) == at(g, pp));
            }
            assert(!wall_in(vw, hw, p, pdir[p]));
        }
    }
    assert forall|r: int, c: int| 0 <= r < h && 0 <= c < w - 1 && !#[trigger] vw2[r][c] implies {
        ||| is_tree(at(g2, (r, c))) && (r, c) != root && t2.0[(r, c)] == Direction::Right
        ||| is_tree(at(g2, (r, c + 1))) && (r, c + 1) != root && t2.0[(r, c + 1)] == Direction::Left
    } by {
        if (r, c) != pos {
            assert(at(g2, (r, c)) == at(g, (r, c)));
        }
        if (r, c + 1) != pos {
            assert(at(g2, (r, c + 1)) == at(g, (r, c + 1)));
        }
        if !vw[r][c] {
        } else {
            assert(d == Direction::Right || d == Direction::Left);
        }
    }
    assert forall|r: int, c: int| 0 <= r < h - 1 && 0 <= c < w && !#[trigger] hw2[r][c] implies {
        ||| is_tree(at(g2, (r, c))) && (r, c) != root && t2.0[(r, c)] == Direction::Down
        ||| is_tree(at(g2, (r + 1, c))) && (r + 1, c) != root && t2.0[(r + 1, c)] == Direction::Up
    } by {
        if (r, c) != pos {
            assert(at(g2, (r, c)) == at(g, (r, c)));
        }
        if (r + 1, c) != pos {
            assert(at(g2, (r + 1, c)) == at(g, (r + 1, c)));
        }
        if !hw[r][c] {
        } else {
            assert(d == Direction::Down || d == Direction::Up);
        }
    }
    assert(at(g2, root) == at(g, root));
    assert(grid_shaped(g2, h, w));
}

/// How many random steps one walk may take; after that the walk heads straight
/// for the root, which bounds every walk without changing it in practice.
const WALK_STEP_LIMIT: u64 = 0xffff_ffff_ffff;

/// `p` is on the current walk.
spec fn on_walk(g: Seq<Seq<CellState>>, p: Cell) -> bool {
    at(g, p) is Heading
}

spec fn walk_ok(g: Seq<Seq<CellState>>, h: int, w: int, stamp: Map<Cell, nat>, time: nat, cur: Cell) -> bool {
    forall|p: Cell| in_grid(h, w, p) && #[trigger] on_walk(g, p) ==> {
        let q = step(p, heading(at(g, p)));
        &&& stamp[p] < time
        &&& can_step(h, w, p, heading(at(g, p)))
        &&& ((at(g, q) is Heading && stamp[q] > stamp[p]) || q == cur)
    }
}

/// `after` has the shape of `before` and keeps every carved (`false`) entry of it.
spec fn kept_carved(before: Seq<Seq<bool>>, after: Seq<Seq<bool>>) -> bool {
    &&& after.len() == before.len()
    &&& forall|r: int| 0 <= r < before.len() ==> (#[trigger] after[r]).len() == before[r].len()
    &&& forall|r: int, c: int|
        0 <= r < before.len() && 0 <= c < before[r].len() && !#[trigger] before[r][c] ==> !after[r][c]
}

/// The cell that the walk moved to when it last left `u`.
spec fn next_cell(g: Seq<Seq<CellState>>, u: Cell) -> Cell {
    step(u, heading(at(g, u)))
}

/// `visited` lists the cells of the walk in order, one per unit of time; each
/// cell on the walk was last left at its stamp, towards its next cell.
spec fn walk_log(g: Seq<Seq<CellState>>, h: int, w: int, stamp: Map<Cell, nat>, time: nat, visited: Seq<Cell>) -> bool {
    forall|u: Cell| in_grid(h, w, u) && #[trigger] on_walk(g, u) ==> {
        &&& stamp[u] < time
        &&& visited[stamp[u] as int] == u
        &&& visited[stamp[u] + 1int] == next_cell(g, u)
        &&& forall|t: int| stamp[u] < t < time ==> #[trigger] visited[t] != u
    }
}

/// One round of Wilson's algorithm: a loop-erased random walk from an unvisited
/// cell until it meets the tree, then the walk's path joined to the tree.
fn fill_grid(
    grid: &mut Vec<Vec<CellState>>,
    walls_v: &mut Vec<Vec<bool>>,
    walls_h: &mut Vec<Vec<bool>>,
    height: usize,
    width: usize,
    root: (usize, usize),
) -> (res: Ghost<(Seq<Cell>, Seq<Cell>)>)
    requires
        spanning(rows_of(old(grid)@), rows_of(old(walls_v)@), rows_of(old(walls_h)@), height as int, width as int, (root.0 as int, root.1 as int)),
        no_walk(rows_of(old(grid)@), height as int, width as int),
        exists|p: Cell| in_grid(height as int, width as int, p) && #[trigger] at(rows_of(old(grid)@), p) == CellState::Unvisited,
    ensures
        spanning(rows_of(final(grid)@), rows_of(final(walls_v)@), rows_of(final(walls_h)@), height as int, width as int, (root.0 as int, root.1 as int)),
        no_walk(rows_of(final(grid)@), height as int, width as int),
        grid_shaped(rows_of(final(grid)@), height as int, width as int),
        tree_count(rows_of(final(grid)@)) > tree_count(rows_of(old(grid)@)),
        forall|p: Cell| in_grid(height as int, width as int, p) && is_tree(#[trigger] at(rows_of(old(grid)@), p)) ==>
            is_tree(at(rows_of(final(grid)@), p)),
        forall|p: Cell| in_grid(height as int, width as int, p) && !is_tree(#[trigger] at(rows_of(final(grid)@), p)) ==>
            at(rows_of(final(grid)@), p) == CellState::Unvisited,
        kept_carved(rows_of(old(walls_v)@), rows_of(final(walls_v)@)),
        kept_carved(rows_of(old(walls_h)@), rows_of(final(walls_h)@)),
        joined(
            rows_of(old(grid)@),
            rows_of(final(grid)@),
            rows_of(old(walls_v)@),
            rows_of(old(walls_h)@),
            rows_of(final(walls_v)@),
            rows_of(final(walls_h)@),
            height as int,
            width as int,
            res@.0,
            res@.1,
        ),
{
    let ghost h = height as int;
    let ghost w = width as int;
    let ghost rt = (root.0 as int, root.1 as int);
    let ghost gs = rows_of(grid@);
    let ghost vw = rows_of(walls_v@);
    let ghost hw = rows_of(walls_h@);
    let ghost t = choose|t: (Map<Cell, Direction>, Map<Cell, nat>, nat)| #[trigger] tree_inv(gs, vw, hw, h, w, rt, t, rt);
    let ghost n0 = tree_count(gs);
    proof {
        lemma_tree_facts(gs, vw, hw, h, w, rt, t, rt);
    }
    let start = select_square(height, width, grid);
    let ghost s = (start.0 as int, start.1 as int);
    assert(s != rt);
    let (cur, Ghost(wk)) = walk(grid, height, width, root, start);
    let ghost stamp = wk.0;
    let ghost time = wk.1;
    let ghost visited = wk.2;
    // the replay: join the loop-erased path to the tree
    let ghost g0 = rows_of(grid@);
    let ghost e = (cur.0 as int, cur.1 as int);
    let ghost bound1 = t.2 + time + 2;
    let ghost rank1 = Map::new(
        |p: Cell| true,
        |p: Cell| if in_grid(h, w, p) && at(g0, p) is Heading { (t.2 + 1 + time - stamp[p]) as nat } else { t.1[p] },
    );
    let ghost mut t1 = (t.0, rank1, bound1);
    proof {
        lemma_same_tree(gs, g0, vw, hw, h, w, rt, t, rt);
        lemma_rerank(g0, vw, hw, h, w, rt, t, rank1, bound1, s);
        assert forall|p: Cell| in_grid(h, w, p) && #[trigger] on_walk(g0, p) implies {
            let q = step(p, heading(at(g0, p)));
            &&& can_step(h, w, p, heading(at(g0, p)))
            &&& rank1[q] < rank1[p]
            &&& rank1[p] < bound1
            &&& (at(g0, q) is Heading || is_tree(at(g0, q)))
        } by {
            let q = step(p, heading(at(g0, p)));
            assert(stamp[p] < time);
            assert(can_step(h, w, p, heading(at(g0, p))));
            if q == e {
                assert(is_tree(at(gs, q)));
                assert(t.1[q] < t.2);
            } else {
                assert(on_walk(g0, q));
                assert(stamp[q] > stamp[p]);
            }
        }
    }
    let ghost mut path: Seq<Cell> = Seq::empty();
    let mut pos = start;
    while !in_tree(grid, pos.0, pos.1)
        invariant
            h == height && w == width && rt == (root.0 as int, root.1 as int),
            tree_inv(rows_of(grid@), rows_of(walls_v@), rows_of(walls_h@), h, w, rt, t1, (pos.0 as int, pos.1 as int)),
            grid_shaped(rows_of(grid@), h, w),
            shaped(rows_of(walls_v@), rows_of(walls_h@), h, w),
            t1.1 == rank1 && t1.2 == bound1,
            in_grid(h, w, (pos.0 as int, pos.1 as int)),
            at(g0, (pos.0 as int, pos.1 as int)) is Heading || is_tree(at(g0, (pos.0 as int, pos.1 as int))),
            forall|p: Cell| in_grid(h, w, p) && #[trigger] at(rows_of(grid@), p) != at(g0, p) ==> {
                &&& is_tree(at(rows_of(grid@), p))
                &&& at(g0, p) is Heading
                &&& rank1[p] > rank1[(pos.0 as int, pos.1 as int)]
            },
            forall|p: Cell| in_grid(h, w, p) && #[trigger] on_walk(g0, p) ==> {
                let q = step(p, heading(at(g0, p)));
                &&& can_step(h, w, p, heading(at(g0, p)))
                &&& rank1[q] < rank1[p]
                &&& rank1[p] < bound1
                &&& (at(g0, q) is Heading || is_tree(at(g0, q)))
            },
            in_grid(h, w, s) && at(g0, s) is Heading,
            tree_count(rows_of(grid@)) >= n0,
            (pos.0 as int, pos.1 as int) != s ==> tree_count(rows_of(grid@)) > n0,
            kept_carved(vw, rows_of(walls_v@)),
            kept_carved(hw, rows_of(walls_h@)),
            shaped(vw, hw, h, w),
            in_grid(h, w, e) && is_tree(at(g0, e)),
            walk_ok(g0, h, w, stamp, time, e),
            !(at(g0, (pos.0 as int, pos.1 as int)) is Heading) ==> (pos.0 as int, pos.1 as int) == e,
            path.len() == 0 ==> (pos.0 as int, pos.1 as int) == s,
            path.len() > 0 ==> path[0] == s,
            forall|i: int| 0 <= i < path.len() ==> {
                &&& in_grid(h, w, #[trigger] path[i])
                &&& on_walk(g0, path[i])
                &&& rank1[path[i]] > rank1[(pos.0 as int, pos.1 as int)]
                &&& next_cell(g0, path[i]) == if i + 1 < path.len() { path[i + 1] } else { (pos.0 as int, pos.1 as int) }
                &&& at(rows_of(grid@), path[i]) == CellState::InTree
                &&& wall_in(vw, hw, path[i], heading(at(g0, path[i])))
                &&& !wall_in(rows_of(walls_v@), rows_of(walls_h@), path[i], heading(at(g0, path[i])))
            },
            forall|i: int, j: int| 0 <= i < j < path.len() ==> rank1[#[trigger] path[i]] > rank1[#[trigger] path[j]],
            only_path_carved(g0, path, vw, hw, rows_of(walls_v@), rows_of(walls_h@), h, w),
            forall|p: Cell| in_grid(h, w, p) && #[trigger] at(rows_of(grid@), p) != at(g0, p) ==>
                exists|i: int| 0 <= i < path.len() && #[trigger] path[i] == p,
        decreases rank1[(pos.0 as int, pos.1 as int)],
    {
        let ghost g = rows_of(grid@);
        let ghost pc = (pos.0 as int, pos.1 as int);
        assert(at(g, pc) == at(g0, pc));
        assert(on_walk(g0, pc));
        assert(grid@[pos.0 as int]@ == g[pos.0 as int]);
        let d = match grid[pos.0][pos.1] {
            CellState::Heading(d) => d,
            _ => Direction::Right,
        };
        assert(d == heading(at(g0, pc)));
        let ghost vb = rows_of(walls_v@);
        let ghost hb = rows_of(walls_h@);
        carve(walls_v, walls_h, height, width, pos.0, pos.1, d);
        proof {
            lemma_carved_keeps(vb, hb, pc, d);
            lemma_kept_trans(vw, vb, rows_of(walls_v@));
            lemma_kept_trans(hw, hb, rows_of(walls_h@));
        }
        grid[pos.0][pos.1] = CellState::InTree;
        let ghost g2 = rows_of(grid@);
        assert(g2 =~= g.update(pc.0, g[pc.0].update(pc.1, CellState::InTree)));
        proof {
            lemma_join_step(g, vb, hb, h, w, rt, t1, pc, d);
            t1 = (t1.0.insert(pc, d), t1.1, t1.2);
        }
        pos = match d {
            Direction::Right => (pos.0, pos.1 + 1),
            Direction::Left => (pos.0, pos.1 - 1),
            Direction::Up => (pos.0 - 1, pos.1),
            Direction::Down => (pos.0 + 1, pos.1),
        };
        assert((pos.0 as int, pos.1 as int) == step(pc, d));
        proof {
            let np = (pos.0 as int, pos.1 as int);
            let vn = rows_of(walls_v@);
            let hn = rows_of(walls_h@);
            lemma_at_update(g, pc, CellState::InTree);
            lemma_kept_wall(vw, hw, vb, hb, h, w, pc, d);
            assert(!wall_in(vn, hn, pc, d));
            let path2 = path.push(pc);
            assert forall|i: int| 0 <= i < path2.len() implies {
                &&& in_grid(h, w, #[trigger] path2[i])
                &&& on_walk(g0, path2[i])
                &&& rank1[path2[i]] > rank1[np]
                &&& next_cell(g0, path2[i]) == if i + 1 < path2.len() { path2[i + 1] } else { np }
                &&& at(g2, path2[i]) == CellState::InTree
                &&& wall_in(vw, hw, path2[i], heading(at(g0, path2[i])))
                &&& !wall_in(vn, hn, path2[i], heading(at(g0, path2[i])))
            } by {
                if i < path.len() {
                    assert(path2[i] == path[i]);
                    let u = path[i];
                    assert(rank1[u] > rank1[pc]);
                    assert(at(g2, u) == at(g, u));
                    assert(can_step(h, w, u, heading(at(g0, u))));
                    lemma_kept_wall(vb, hb, vn, hn, h, w, u, heading(at(g0, u)));
                    if i + 1 == path.len() {
                        assert(path2[i + 1] == pc);
                    } else {
                        assert(path2[i + 1] == path[i + 1]);
                    }
                } else {
                    assert(path2[i] == pc);
                }
            }
            assert forall|i: int, j: int| 0 <= i < j < path2.len() implies rank1[#[trigger] path2[i]] > rank1[#[trigger] path2[j]] by {
                assert(path2[i] == path[i]);
                if j < path.len() {
                    assert(path2[j] == path[j]);
                    assert(rank1[path[i]] > rank1[path[j]]);
                } else {
                    assert(rank1[path[i]] > rank1[pc]);
                }
            }
            assert forall|p: Cell| in_grid(h, w, p) && #[trigger] at(g2, p) != at(g0, p) implies
                exists|i: int| 0 <= i < path2.len() && #[trigger] path2[i] == p by {
                if p == pc {
                    assert(path2[path.len() as int] == p);
                } else {
                    assert(at(g2, p) == at(g, p));
                    let i = choose|i: int| 0 <= i < path.len() && #[trigger] path[i] == p;
                    assert(path2[i] == p);
                }
            }
            lemma_only_path_step(g0, path, vw, hw, vb, hb, h, w, pc, d);
            path = path2;
        }
        assert forall|p: Cell| in_grid(h, w, p) && #[trigger] at(g2, p) != at(g0, p) implies {
            &&& is_tree(at(g2, p))
            &&& at(g0, p) is Heading
            &&& rank1[p] > rank1[(pos.0 as int, pos.1 as int)]
        } by {
            if p != pc {
                if p.0 == pc.0 {
                    assert(g2[p.0] == g[pc.0].update(pc.1, CellState::InTree));
                }
                assert(at(g2, p) == at(g, p));
            }
        }
    }
    let ghost ge = rows_of(grid@);
    let ghost pe = (pos.0 as int, pos.1 as int);
    assert(pe != s);
    assert forall|p: Cell| in_grid(h, w, p) && is_tree(#[trigger] at(gs, p)) implies is_tree(at(ge, p)) by {
        assert(is_tree(at(g0, p)));
        if at(ge, p) != at(g0, p) {
            assert(!on_walk(g0, p));
        }
    }
    reset_walk(grid, height, width);
    proof {
        assert forall|p: Cell| in_grid(h, w, p) && !is_tree(#[trigger] at(rows_of(grid@), p)) implies
            at(rows_of(grid@), p) == CellState::Unvisited by {
            assert(!on_walk(rows_of(grid@), p));
        }
        lemma_same_tree(ge, rows_of(grid@), rows_of(walls_v@), rows_of(walls_h@), h, w, rt, t1, pe);
        assert(tree_inv(rows_of(grid@), rows_of(walls_v@), rows_of(walls_h@), h, w, rt, t1, rt));
    }
    let ghost gf = rows_of(grid@);
    let ghost fv = rows_of(walls_v@);
    let ghost fh = rows_of(walls_h@);
    let ghost full = path.push(pe);
    proof {
        assert(path.len() > 0);
        assert(pe == e);
        assert forall|i: int| 0 <= i < full.len() - 1 implies {
            &&& in_grid(h, w, #[trigger] full[i])
            &&& !is_tree(at(gs, full[i]))
            &&& is_tree(at(gf, full[i]))
            &&& exists|d: Direction| #[trigger] wall_in(vw, hw, full[i], d) && step(full[i], d) == full[i + 1]
                && !wall_in(fv, fh, full[i], d)
            &&& exists|k: int| 0 <= k < visited.len() - 1 && #[trigger] visited[k] == full[i] && visited[k + 1] == full[i + 1]
                && forall|k2: int| k < k2 < visited.len() ==> #[trigger] visited[k2] != full[i]
        } by {
            let u = path[i];
            assert(full[i] == u);
            assert(on_walk(g0, u));
            assert(is_tree(at(g0, u)) == is_tree(at(gs, u)));
            assert(is_tree(at(gf, u)) == is_tree(at(ge, u)));
            let d = heading(at(g0, u));
            if i + 1 < path.len() {
                assert(full[i + 1] == path[i + 1]);
            } else {
                assert(full[i + 1] == pe);
            }
            assert(wall_in(vw, hw, u, d) && step(u, d) == full[i + 1] && !wall_in(fv, fh, u, d));
            let k = stamp[u] as int;
            assert forall|k2: int| k < k2 < visited.len() implies #[trigger] visited[k2] != u by {
                if k2 == time {
                    assert(visited[k2] == e);
                }
            }
            assert(0 <= k < visited.len() - 1 && visited[k] == u && visited[k + 1] == full[i + 1]);
        }
        assert forall|i: int, j: int| 0 <= i < j < full.len() implies #[trigger] full[i] != #[trigger] full[j] by {
            assert(full[i] == path[i]);
            assert(rank1[path[i]] > rank1[pe]);
            if j < path.len() {
                assert(full[j] == path[j]);
                assert(rank1[path[i]] > rank1[path[j]]);
            }
        }
        assert forall|p: Cell| in_grid(h, w, p) && is_tree(at(gf, p)) && !is_tree(#[trigger] at(gs, p)) implies
            exists|i: int| 0 <= i < full.len() - 1 && #[trigger] full[i] == p by {
            assert(is_tree(at(gf, p)) == is_tree(at(ge, p)));
            assert(is_tree(at(g0, p)) == is_tree(at(gs, p)));
            assert(at(ge, p) != at(g0, p));
            let i = choose|i: int| 0 <= i < path.len() && #[trigger] path[i] == p;
            assert(full[i] == p);
        }
        lemma_walls_on_path(g0, path, pe, vw, hw, fv, fh, h, w);
        assert(at(gs, s) == CellState::Unvisited);
        assert(visited[0] == s && full[0] == s);
        assert(full.last() == visited.last());
    }
    Ghost((visited, full))
}

/// Every wall carved since `vw`, `hw` is the one that a cell of `path` leaves by.
spec fn only_path_carved(
    g0: Seq<Seq<CellState>>,
    path: Seq<Cell>,
    vw: Seq<Seq<bool>>,
    hw: Seq<Seq<bool>>,
    vw2: Seq<Seq<bool>>,
    hw2: Seq<Seq<bool>>,
    h: int,
    w: int,
) -> bool {
    &&& forall|r: int, c: int| 0 <= r < h && 0 <= c < w - 1 && vw[r][c] && !#[trigger] vw2[r][c] ==>
        exists|i: int| 0 <= i < path.len() && {
            ||| #[trigger] path[i] == (r, c) && heading(at(g0, path[i])) == Direction::Right
            ||| path[i] == (r, c + 1) && heading(at(g0, path[i])) == Direction::Left
        }
    &&& forall|r: int, c: int| 0 <= r < h - 1 && 0 <= c < w && hw[r][c] && !#[trigger] hw2[r][c] ==>
        exists|i: int| 0 <= i < path.len() && {
            ||| #[trigger] path[i] == (r, c) && heading(at(g0, path[i])) == Direction::Down
            ||| path[i] == (r + 1, c) && heading(at(g0, path[i])) == Direction::Up
        }
}

proof fn lemma_only_path_step(
    g0: Seq<Seq<CellState>>,
    path: Seq<Cell>,
    vw: Seq<Seq<bool>>,
    hw: Seq<Seq<bool>>,
    vb: Seq<Seq<bool>>,
    hb: Seq<Seq<bool>>,
    h: int,
    w: int,
    pc: Cell,
    d: Direction,
)
    requires
        only_path_carved(g0, path, vw, hw, vb, hb, h, w),
        shaped(vb, hb, h, w),
        can_step(h, w, pc, d),
        heading(at(g0, pc)) == d,
    ensures
        only_path_carved(g0, path.push(pc), vw, hw, carved(vb, hb, pc, d).0, carved(vb, hb, pc, d).1, h, w),
{
    let path2 = path.push(pc);
    let (vn, hn) = carved(vb, hb, pc, d);
    let n = path.len() as int;
    assert(path2[n] == pc);
    assert forall|r: int, c: int| 0 <= r < h && 0 <= c < w - 1 && vw[r][c] && !#[trigger] vn[r][c] implies
        exists|i: int| 0 <= i < path2.len() && {
            ||| #[trigger] path2[i] == (r, c) && heading(at(g0, path2[i])) == Direction::Right
            ||| path2[i] == (r, c + 1) && heading(at(g0, path2[i])) == Direction::Left
        } by {
        if !vb[r][c] {
            let i = choose|i: int| 0 <= i < path.len() && {
                ||| #[trigger] path[i] == (r, c) && heading(at(g0, path[i])) == Direction::Right
                ||| path[i] == (r, c + 1) && heading(at(g0, path[i])) == Direction::Left
            };
            assert(path2[i] == path[i]);
        }
    }
    assert forall|r: int, c: int| 0 <= r < h - 1 && 0 <= c < w && hw[r][c] && !#[trigger] hn[r][c] implies
        exists|i: int| 0 <= i < path2.len() && {
            ||| #[trigger] path2[i] == (r, c) && heading(at(g0, path2[i])) == Direction::Down
            ||| path2[i] == (r + 1, c) && heading(at(g0, path2[i])) == Direction::Up
        } by {
        if !hb[r][c] {
            let i = choose|i: int| 0 <= i < path.len() && {
                ||| #[trigger] path[i] == (r, c) && heading(at(g0, path[i])) == Direction::Down
                ||| path[i] == (r + 1, c) && heading(at(g0, path[i])) == Direction::Up
            };
            assert(path2[i] == path[i]);
        }
    }
}

/// One round's outcome, read against the walk's log `visited`: `path` runs from
/// the walk's first cell, unvisited before, to the cell where the walk met the
/// tree. Each cell of `path` but the last joins the tree, with the wall to the
/// next cell carved, and that next cell is the one the walk moved to when it
/// last left it (the walk with its loops erased). No cell repeats on `path`,
/// no other cell joins the tree, and no other wall is carved.
spec fn joined(
    g: Seq<Seq<CellState>>,
    g2: Seq<Seq<CellState>>,
    vw: Seq<Seq<bool>>,
    hw: Seq<Seq<bool>>,
    vw2: Seq<Seq<bool>>,
    hw2: Seq<Seq<bool>>,
    h: int,
    w: int,
    visited: Seq<Cell>,
    path: Seq<Cell>,
) -> bool {
    &&& path.len() >= 2
    &&& path[0] == visited[0]
    &&& path.last() == visited.last()
    &&& at(g, path[0]) == CellState::Unvisited
    &&& in_grid(h, w, path.last()) && is_tree(at(g, path.last()))
    &&& forall|k: int| 0 <= k < visited.len() - 1 ==> {
        &&& in_grid(h, w, #[trigger] visited[k])
        &&& !is_tree(at(g, visited[k]))
        &&& exists|d: Direction| can_step(h, w, visited[k], d) && step(visited[k], d) == visited[k + 1]
    }
    &&& forall|i: int| 0 <= i < path.len() - 1 ==> {
        &&& in_grid(h, w, #[trigger] path[i])
        &&& !is_tree(at(g, path[i]))
        &&& is_tree(at(g2, path[i]))
        &&& exists|d: Direction| #[trigger] wall_in(vw, hw, path[i], d) && step(path[i], d) == path[i + 1]
            && !wall_in(vw2, hw2, path[i], d)
        &&& exists|k: int| 0 <= k < visited.len() - 1 && #[trigger] visited[k] == path[i] && visited[k + 1] == path[i + 1]
            && forall|k2: int| k < k2 < visited.len() ==> #[trigger] visited[k2] != path[i]
    }
    &&& forall|i: int, j: int| 0 <= i < j < path.len() ==> #[trigger] path[i] != #[trigger] path[j]
    &&& forall|p: Cell| in_grid(h, w, p) && is_tree(at(g2, p)) && !is_tree(#[trigger] at(g, p)) ==>
        exists|i: int| 0 <= i < path.len() - 1 && #[trigger] path[i] == p
    &&& forall|r: int, c: int| 0 <= r < h && 0 <= c < w - 1 && vw[r][c] && !#[trigger] vw2[r][c] ==>
        exists|i: int| 0 <= i < path.len() - 1 && {
            ||| #[trigger] path[i] == (r, c) && path[i + 1] == (r, c + 1)
            ||| path[i] == (r, c + 1) && path[i + 1] == (r, c)
        }
    &&& forall|r: int, c: int| 0 <= r < h - 1 && 0 <= c < w && hw[r][c] && !#[trigger] hw2[r][c] ==>
        exists|i: int| 0 <= i < path.len() - 1 && {
            ||| #[trigger] path[i] == (r, c) && path[i + 1] == (r + 1, c)
            ||| path[i] == (r + 1, c) && path[i + 1] == (r, c)
        }
}

/// Returns every cell that a walk left behind to `Unvisited`.
fn reset_walk(grid: &mut Vec<Vec<CellState>>, height: usize, width: usize)
    requires
        grid_shaped(rows_of(old(grid)@), height as int, width as int),
    ensures
        grid_shaped(rows_of(final(grid)@), height as int, width as int),
        forall|p: Cell| in_grid(height as int, width as int, p) ==>
            is_tree(#[trigger] at(rows_of(final(grid)@), p)) == is_tree(at(rows_of(old(grid)@), p)),
        no_walk(rows_of(final(grid)@), height as int, width as int),
{
    let ghost h = height as int;
    let ghost w = width as int;
    let ghost gi = rows_of(grid@);
    for r in 0..height
        invariant
            h == height && w == width,
            grid_shaped(rows_of(grid@), h, w),
            forall|p: Cell| in_grid(h, w, p) ==> is_tree(#[trigger] at(rows_of(grid@), p)) == is_tree(at(gi, p)),
            forall|p: Cell| in_grid(h, w, p) && p.0 < r ==> !#[trigger] on_walk(rows_of(grid@), p),
    {
        for c in 0..width
            invariant
                h == height && w == width,
                0 <= r < height,
                grid_shaped(rows_of(grid@), h, w),
                forall|p: Cell| in_grid(h, w, p) ==> is_tree(#[trigger] at(rows_of(grid@), p)) == is_tree(at(gi, p)),
                forall|p: Cell| in_grid(h, w, p) && p.0 < r ==> !#[trigger] on_walk(rows_of(grid@), p),
                forall|p: Cell| in_grid(h, w, p) && p.0 == r && p.1 < c ==> !#[trigger] on_walk(rows_of(grid@), p),
        {
            let ghost g = rows_of(grid@);
            assert(grid@[r as int]@ == g[r as int]);
            if let CellState::Heading(_) = grid[r][c] {
                grid[r][c] = CellState::Unvisited;
                let ghost g2 = rows_of(grid@);
                assert(g2 =~= g.update(r as int, g[r as int].update(c as int, CellState::Unvisited)));
                assert forall|p: Cell| in_grid(h, w, p) && p != (r as int, c as int) implies #[trigger] at(g2, p) == at(g, p) by {
                    if p.0 == r {
                        assert(g2[p.0] == g[r as int].update(c as int, CellState::Unvisited));
                    }
                }
                assert(at(g2, (r as int, c as int)) == CellState::Unvisited);
                assert(is_tree(at(g, (r as int, c as int))) == is_tree(at(gi, (r as int, c as int))));
                assert forall|p: Cell| in_grid(h, w, p) implies is_tree(#[trigger] at(g2, p)) == is_tree(at(gi, p)) by {
                    if p != (r as int, c as int) {
                        assert(at(g2, p) == at(g, p));
                    }
                }
                assert forall|p: Cell| in_grid(h, w, p) && p != (r as int, c as int) implies #[trigger] on_walk(g2, p) == on_walk(g, p) by {
                    assert(at(g2, p) == at(g, p));
                }
                assert(!on_walk(g2, (r as int, c as int)));
            } else {
                assert(!on_walk(g, (r as int, c as int)));
            }
        }
    }
}

/// Changing the ranks of cells outside the tree, or raising the bound, keeps
/// the witnesses; with the cursor on the root, any cursor does.
proof fn lemma_rerank(
    g: Seq<Seq<CellState>>,
    vw: Seq<Seq<bool>>,
    hw: Seq<Seq<bool>>,
    h: int,
    w: int,
    root: Cell,
    t: (Map<Cell, Direction>, Map<Cell, nat>, nat),
    rank: Map<Cell, nat>,
    bound: nat,
    cursor: Cell,
)
    requires
        tree_inv(g, vw, hw, h, w, root, t, root),
        bound >= t.2,
        forall|p: Cell| in_grid(h, w, p) && is_tree(#[trigger] at(g, p)) ==> rank[p] == t.1[p],
    ensures
        tree_inv(g, vw, hw, h, w, root, (t.0, rank, bound), cursor),
{
    reveal(tree_inv);
    assert forall|p: Cell| in_grid(h, w, p) && is_tree(#[trigger] at(g, p)) && p != root implies {
        &&& rank[step(p, t.0[p])] < rank[p]
        &&& (is_tree(at(g, step(p, t.0[p]))) || step(p, t.0[p]) == cursor)
    } by {
        let q = step(p, t.0[p]);
        assert(can_step(h, w, p, t.0[p]));
        assert(is_tree(at(g, q)) || q == root);
    }
}

/// What the witnesses say of the root and the tree's ranks.
proof fn lemma_tree_facts(
    g: Seq<Seq<CellState>>,
    vw: Seq<Seq<bool>>,
    hw: Seq<Seq<bool>>,
    h: int,
    w: int,
    root: Cell,
    t: (Map<Cell, Direction>, Map<Cell, nat>, nat),
    cursor: Cell,
)
    requires
        tree_inv(g, vw, hw, h, w, root, t, cursor),
    ensures
        shaped(vw, hw, h, w),
        grid_shaped(g, h, w),
        in_grid(h, w, root),
        is_tree(at(g, root)),
        forall|p: Cell| in_grid(h, w, p) && is_tree(#[trigger] at(g, p)) ==> t.1[p] < t.2,
        false_count(vw) + false_count(hw) + 1 == tree_count(g),
{
    reveal(tree_inv);
}

/// A random walk from `start` until it meets the tree. Each cell it leaves keeps
/// the direction in which it last left it, so that following those directions
/// from `start` traces the walk with its loops erased.
fn walk(grid: &mut Vec<Vec<CellState>>, height: usize, width: usize, root: (usize, usize), start: (usize, usize))
    -> (res: ((usize, usize), Ghost<(Map<Cell, nat>, nat, Seq<Cell>)>))
    requires
        grid_shaped(rows_of(old(grid)@), height as int, width as int),
        no_walk(rows_of(old(grid)@), height as int, width as int),
        in_grid(height as int, width as int, (root.0 as int, root.1 as int)),
        is_tree(at(rows_of(old(grid)@), (root.0 as int, root.1 as int))),
        in_grid(height as int, width as int, (start.0 as int, start.1 as int)),
        !is_tree(at(rows_of(old(grid)@), (start.0 as int, start.1 as int))),
    ensures
        grid_shaped(rows_of(final(grid)@), height as int, width as int),
        forall|p: Cell| in_grid(height as int, width as int, p) ==>
            is_tree(#[trigger] at(rows_of(final(grid)@), p)) == is_tree(at(rows_of(old(grid)@), p)),
        in_grid(height as int, width as int, (res.0.0 as int, res.0.1 as int)),
        is_tree(at(rows_of(final(grid)@), (res.0.0 as int, res.0.1 as int))),
        at(rows_of(final(grid)@), (start.0 as int, start.1 as int)) is Heading,
        walk_ok(rows_of(final(grid)@), height as int, width as int, res.1@.0, res.1@.1, (res.0.0 as int, res.0.1 as int)),
        walk_log(rows_of(final(grid)@), height as int, width as int, res.1@.0, res.1@.1, res.1@.2),
        res.1@.2.len() == res.1@.1 + 1,
        res.1@.2[0] == (start.0 as int, start.1 as int),
        res.1@.2.last() == (res.0.0 as int, res.0.1 as int),
        forall|k: int| 0 <= k < res.1@.1 ==> {
            &&& in_grid(height as int, width as int, #[trigger] res.1@.2[k])
            &&& !is_tree(at(rows_of(old(grid)@), res.1@.2[k]))
            &&& exists|d: Direction| can_step(height as int, width as int, res.1@.2[k], d) && step(res.1@.2[k], d) == res.1@.2[k + 1]
        },
{
    let ghost h = height as int;
    let ghost w = width as int;
    let ghost rt = (root.0 as int, root.1 as int);
    let ghost gs = rows_of(grid@);
    let ghost s = (start.0 as int, start.1 as int);
    // the walk: each cell keeps the direction in which the walk last left it
    let mut cur = start;
    let mut steps_left: u64 = WALK_STEP_LIMIT;
    let ghost mut time: nat = 0;
    let ghost mut stamp: Map<Cell, nat> = Map::empty();
    let ghost mut visited: Seq<Cell> = seq![s];
    while !in_tree(grid, cur.0, cur.1)
        invariant
            is_tree(at(gs, rt)) && in_grid(h, w, rt),
            h == height && w == width && rt == (root.0 as int, root.1 as int),
            grid_shaped(rows_of(grid@), h, w),
            in_grid(h, w, (cur.0 as int, cur.1 as int)),
            in_grid(h, w, s) && s != rt,
            forall|p: Cell| in_grid(h, w, p) ==> is_tree(#[trigger] at(rows_of(grid@), p)) == is_tree(at(gs, p)),
            (at(rows_of(grid@), s) is Heading) || (cur.0 as int, cur.1 as int) == s,
            walk_ok(rows_of(grid@), h, w, stamp, time, (cur.0 as int, cur.1 as int)),
            walk_log(rows_of(grid@), h, w, stamp, time, visited),
            visited.len() == time + 1,
            visited[0] == s,
            visited.last() == (cur.0 as int, cur.1 as int),
            forall|k: int| 0 <= k < time ==> {
                &&& in_grid(h, w, #[trigger] visited[k])
                &&& !is_tree(at(gs, visited[k]))
                &&& exists|d: Direction| can_step(h, w, visited[k], d) && step(visited[k], d) == visited[k + 1]
            },
        decreases steps_left, distance((cur.0 as int, cur.1 as int), rt),
    {
        let ghost g = rows_of(grid@);
        let ghost c = (cur.0 as int, cur.1 as int);
        let d = if steps_left > 0 {
            steps_left = steps_left - 1;
            select_direction(height, width, cur.0, cur.1)
        } else {
            direction_toward(height, width, cur.0, cur.1, root)
        };
        assert(grid@[cur.0 as int]@ == g[cur.0 as int]);
        grid[cur.0][cur.1] = CellState::Heading(d);
        let ghost g2 = rows_of(grid@);
        assert(g2 =~= g.update(c.0, g[c.0].update(c.1, CellState::Heading(d))));
        proof {
            lemma_walk_step(g, gs, h, w, stamp, time, c, d, s);
            lemma_log_step(g, h, w, stamp, time, visited, c, d);
            let v2 = visited.push(step(c, d));
            assert forall|k: int| 0 <= k < time + 1 implies {
                &&& in_grid(h, w, #[trigger] v2[k])
                &&& !is_tree(at(gs, v2[k]))
                &&& exists|e: Direction| can_step(h, w, v2[k], e) && step(v2[k], e) == v2[k + 1]
            } by {
                if k == time {
                    assert(v2[k] == c && v2[k + 1] == step(c, d));
                    assert(is_tree(at(g, c)) == is_tree(at(gs, c)));
                } else {
                    assert(v2[k] == visited[k] && v2[k + 1] == visited[k + 1]);
                }
            }
            visited = v2;
            stamp = stamp.insert(c, time);
            time = time + 1;
        }
        cur = match d {
            Direction::Right => (cur.0, cur.1 + 1),
            Direction::Left => (cur.0, cur.1 - 1),
            Direction::Up => (cur.0 - 1, cur.1),
            Direction::Down => (cur.0 + 1, cur.1),
        };
        assert((cur.0 as int, cur.1 as int) == step(c, d));
    }
    (cur, Ghost((stamp, time, visited)))
}

/// Every cell of a finished tree reaches the root, by induction on its rank.
proof fn lemma_reach_root(m: Maze, g: Seq<Seq<CellState>>, root: Cell, t: (Map<Cell, Direction>, Map<Cell, nat>, nat), p: Cell)
    requires
        m.wf(),
        tree_inv(g, m.vwalls(), m.hwalls(), m.spec_height() as int, m.spec_width() as int, root, t, root),
        forall|q: Cell| in_grid(m.spec_height() as int, m.spec_width() as int, q) ==> is_tree(#[trigger] at(g, q)),
        in_grid(m.spec_height() as int, m.spec_width() as int, p),
    ensures
        m.reachable(p, root),
    decreases t.1[p],
{
    reveal(tree_inv);
    if p == root {
        let path = seq![p];
        assert(m.is_path(path) && path[0] == p && path.last() == root);
    } else {
        assert(is_tree(at(g, p)));
        let d = t.0[p];
        let q = step(p, d);
        assert(m.passage(p, d));
        assert(m.linked(p, q));
        lemma_reach_root(m, g, root, t, q);
        let rest = choose|path: Seq<Cell>| #[trigger] m.is_path(path) && path[0] == q && path.last() == root;
        let path = seq![p] + rest;
        assert forall|i: int| 0 <= i < path.len() - 1 implies #[trigger] m.linked(path[i], path[i + 1]) by {
            if i > 0 {
                let j = i - 1;
                assert(m.linked(rest[j], rest[j + 1]));
            }
        }
        assert(m.is_path(path) && path[0] == p && path.last() == root);
    }
}

/// Generates a perfect maze of `height` rows and `width` columns with Wilson's
/// algorithm.
pub fn wilsons_algorithm(height: usize, width: usize) -> (m: Maze)
    requires
        height >= 1,
        width >= 1,
    ensures
        m.is_perfect(),
        m.spec_height() == height,
        m.spec_width() == width,
{
    let ghost h = height as int;
    let ghost w = width as int;
    let mut grid = filled(height, width, CellState::Unvisited);
    let mut walls_v = filled(height, width - 1, true);
    let mut walls_h = filled(height - 1, width, true);
    // the tree starts from one cell
    let root = (random_below(height), random_below(width));
    let ghost rt = (root.0 as int, root.1 as int);
    let ghost g_init = rows_of(grid@);
    assert(grid@[root.0 as int]@ == g_init[root.0 as int]);
    grid[root.0][root.1] = CellState::InTree;
    proof {
        let g = rows_of(grid@);
        let vw = rows_of(walls_v@);
        let hw = rows_of(walls_h@);
        assert(g =~= g_init.update(rt.0, g_init[rt.0].update(rt.1, CellState::InTree)));
        lemma_grid_count_bounds(g_init, w as nat, tree_pred());
        lemma_grid_count_update(g_init, rt.0, rt.1, CellState::InTree, tree_pred());
        lemma_grid_count_bounds(vw, (w - 1) as nat, |b: bool| !b);
        lemma_grid_count_bounds(hw, w as nat, |b: bool| !b);
        assert forall|p: Cell| in_grid(h, w, p) && p != rt implies #[trigger] at(g, p) == CellState::Unvisited by {
            if p.0 == rt.0 {
                assert(g[p.0] == g_init[rt.0].update(rt.1, CellState::InTree));
            }
        }
        let t = (Map::<Cell, Direction>::empty(), Map::new(|p: Cell| true, |p: Cell| 0nat), 1nat);
        reveal(tree_inv);
        assert(tree_inv(g, vw, hw, h, w, rt, t, rt));
    }
    while !is_complete(&grid)
        invariant
            h == height && w == width && rt == (root.0 as int, root.1 as int),
            grid_shaped(rows_of(grid@), h, w),
            spanning(rows_of(grid@), rows_of(walls_v@), rows_of(walls_h@), h, w, rt),
            no_walk(rows_of(grid@), h, w),
        decreases h * w - tree_count(rows_of(grid@)),
    {
        proof {
            lemma_grid_count_bounds(rows_of(grid@), w as nat, tree_pred());
            let (i, j) = choose|i: int, j: int|
                0 <= i < grid@.len() && 0 <= j < grid@[i]@.len() && #[trigger] grid@[i]@[j] == CellState::Unvisited;
            assert(grid@[i]@ == rows_of(grid@)[i]);
            assert(at(rows_of(grid@), (i, j)) == CellState::Unvisited);
        }
        fill_grid(&mut grid, &mut walls_v, &mut walls_h, height, width, root);
        proof {
            lemma_grid_count_bounds(rows_of(grid@), w as nat, tree_pred());
        }
    }
    let m = Maze::from_parts(walls_v, walls_h, height, width);
    proof {
        let g = rows_of(grid@);
        let t = choose|t: (Map<Cell, Direction>, Map<Cell, nat>, nat)| #[trigger] tree_inv(g, m.vwalls(), m.hwalls(), h, w, rt, t, rt);
        lemma_tree_facts(g, m.vwalls(), m.hwalls(), h, w, rt, t, rt);
        assert forall|p: Cell| in_grid(h, w, p) implies is_tree(#[trigger] at(g, p)) by {
            assert(grid@[p.0]@ == g[p.0]);
            assert(grid@[p.0]@[p.1] != CellState::Unvisited);
            assert(!on_walk(g, p));
        }
        assert forall|r: int, c: int| 0 <= r < g.len() && 0 <= c < w implies #[trigger] tree_pred()(g[r][c]) by {
            assert(is_tree(at(g, (r, c))));
        }
        lemma_grid_count_bounds(g, w as nat, tree_pred());
        lemma_rooted(m, g, rt, t);
        assert forall|a: Cell, b: Cell| in_grid(h, w, a) && in_grid(h, w, b) implies #[trigger] m.reachable(a, b) by {
            lemma_reach_root(m, g, rt, t, a);
            lemma_reach_root(m, g, rt, t, b);
            lemma_reachable_through(m, a, rt, b);
        }
    }
    m
}

/// One step of the walk from `c` in direction `d` keeps its bookkeeping.
proof fn lemma_walk_step(
    g: Seq<Seq<CellState>>,
    gs: Seq<Seq<CellState>>,
    h: int,
    w: int,
    stamp: Map<Cell, nat>,
    time: nat,
    c: Cell,
    d: Direction,
    s: Cell,
)
    requires
        grid_shaped(g, h, w),
        in_grid(h, w, c),
        !is_tree(at(g, c)),
        can_step(h, w, c, d),
        walk_ok(g, h, w, stamp, time, c),
        forall|p: Cell| in_grid(h, w, p) ==> is_tree(#[trigger] at(g, p)) == is_tree(at(gs, p)),
        in_grid(h, w, s),
        at(g, s) is Heading || c == s,
    ensures
        ({
            let g2 = g.update(c.0, g[c.0].update(c.1, CellState::Heading(d)));
            &&& grid_shaped(g2, h, w)
            &&& walk_ok(g2, h, w, stamp.insert(c, time), time + 1, step(c, d))
            &&& forall|p: Cell| in_grid(h, w, p) ==> is_tree(#[trigger] at(g2, p)) == is_tree(at(gs, p))
            &&& at(g2, s) is Heading
        }),
{
    let g2 = g.update(c.0, g[c.0].update(c.1, CellState::Heading(d)));
    let stamp2 = stamp.insert(c, time);
    let nc = step(c, d);
    assert forall|p: Cell| in_grid(h, w, p) && p != c implies #[trigger] at(g2, p) == at(g, p) by {
        if p.0 == c.0 {
            assert(g2[p.0] == g[c.0].update(c.1, CellState::Heading(d)));
        }
    }
    assert(at(g2, c) == CellState::Heading(d));
    assert forall|p: Cell| in_grid(h, w, p) && #[trigger] on_walk(g2, p) implies {
        let q = step(p, heading(at(g2, p)));
        &&& stamp2[p] < time + 1
        &&& can_step(h, w, p, heading(at(g2, p)))
        &&& ((at(g2, q) is Heading && stamp2[q] > stamp2[p]) || q == nc)
    } by {
        if p != c {
            assert(at(g2, p) == at(g, p));
            assert(on_walk(g, p));
            let q = step(p, heading(at(g, p)));
            assert(can_step(h, w, p, heading(at(g, p))));
            if q != c {
                assert(at(g2, q) == at(g, q));
            }
        }
    }
    assert forall|p: Cell| in_grid(h, w, p) implies is_tree(#[trigger] at(g2, p)) == is_tree(at(gs, p)) by {
        if p != c {
            assert(at(g2, p) == at(g, p));
        } else {
            assert(is_tree(at(g, p)) == is_tree(at(gs, p)));
        }
    }
    if s != c {
        assert(at(g2, s) == at(g, s));
    }
}

/// The witnesses of a finished tree orient the maze towards its root.
proof fn lemma_rooted(m: Maze, g: Seq<Seq<CellState>>, root: Cell, t: (Map<Cell, Direction>, Map<Cell, nat>, nat))
    requires
        m.wf(),
        tree_inv(g, m.vwalls(), m.hwalls(), m.spec_height() as int, m.spec_width() as int, root, t, root),
        forall|q: Cell| in_grid(m.spec_height() as int, m.spec_width() as int, q) ==> is_tree(#[trigger] at(g, q)),
    ensures
        m.rooted_at(root, t.0, t.1),
{
    reveal(tree_inv);
    let h = m.spec_height() as int;
    let w = m.spec_width() as int;
    assert forall|p: Cell| in_grid(h, w, p) && p != root implies {
        &&& #[trigger] m.passage(p, t.0[p])
        &&& t.1[step(p, t.0[p])] < t.1[p]
    } by {
        assert(is_tree(at(g, p)));
    }
    assert forall|p: Cell, d: Direction| #[trigger] m.passage(p, d) implies {
        ||| p != root && t.0[p] == d
        ||| step(p, d) != root && t.0[step(p, d)] == opposite(d)
    } by {
        let q = step(p, d);
        assert(is_tree(at(g, p)));
        assert(is_tree(at(g, q)));
        match d {
            Direction::Right => {
                assert(!m.vwalls()[p.0][p.1]);
            },
            Direction::Left => {
                assert(!m.vwalls()[p.0][p.1 - 1]);
                assert((p.0, p.1 - 1 + 1) == p);
            },
            Direction::Down => {
                assert(!m.hwalls()[p.0][p.1]);
            },
            Direction::Up => {
                assert(!m.hwalls()[p.0 - 1][p.1]);
                assert((p.0 - 1 + 1, p.1) == p);
            },
        }
    }
}

/// Carving only turns entries to `false`.
proof fn lemma_carved_keeps(vw: Seq<Seq<bool>>, hw: Seq<Seq<bool>>, p: Cell, d: Direction)
    requires
        0 <= step(p, d).0 && 0 <= p.0 && 0 <= step(p, d).1 && 0 <= p.1,
        d == Direction::Right || d == Direction::Left ==> {
            let r = p.0;
            let c = if d == Direction::Right { p.1 } else { p.1 - 1 };
            0 <= r < vw.len() && 0 <= c < vw[r].len()
        },
        d == Direction::Down || d == Direction::Up ==> {
            let r = if d == Direction::Down { p.0 } else { p.0 - 1 };
            0 <= r < hw.len() && 0 <= p.1 < hw[r].len()
        },
    ensures
        kept_carved(vw, carved(vw, hw, p, d).0),
        kept_carved(hw, carved(vw, hw, p, d).1),
{
}

proof fn lemma_kept_trans(a: Seq<Seq<bool>>, b: Seq<Seq<bool>>, c: Seq<Seq<bool>>)
    requires
        kept_carved(a, b),
        kept_carved(b, c),
    ensures
        kept_carved(a, c),
{
    assert forall|r: int, k: int| 0 <= r < a.len() && 0 <= k < a[r].len() && !#[trigger] a[r][k] implies !c[r][k] by {
        assert(!b[r][k]);
    }
}

/// One step of the walk from `c` in direction `d` extends its log.
proof fn lemma_log_step(
    g: Seq<Seq<CellState>>,
    h: int,
    w: int,
    stamp: Map<Cell, nat>,
    time: nat,
    visited: Seq<Cell>,
    c: Cell,
    d: Direction,
)
    requires
        grid_shaped(g, h, w),
        in_grid(h, w, c),
        walk_log(g, h, w, stamp, time, visited),
        visited.len() == time + 1,
        visited.last() == c,
    ensures
        walk_log(
            g.update(c.0, g[c.0].update(c.1, CellState::Heading(d))),
            h,
            w,
            stamp.insert(c, time),
            time + 1,
            visited.push(step(c, d)),
        ),
{
    let g2 = g.update(c.0, g[c.0].update(c.1, CellState::Heading(d)));
    let stamp2 = stamp.insert(c, time);
    let v2 = visited.push(step(c, d));
    assert forall|u: Cell| in_grid(h, w, u) && #[trigger] on_walk(g2, u) implies {
        &&& stamp2[u] < time + 1
        &&& v2[stamp2[u] as int] == u
        &&& v2[stamp2[u] + 1int] == next_cell(g2, u)
        &&& forall|t: int| stamp2[u] < t < time + 1 ==> #[trigger] v2[t] != u
    } by {
        if u != c {
            if u.0 == c.0 {
                assert(g2[u.0] == g[c.0].update(c.1, CellState::Heading(d)));
            }
            assert(at(g2, u) == at(g, u));
            assert(on_walk(g, u));
            assert forall|t: int| stamp2[u] < t < time + 1 implies #[trigger] v2[t] != u by {
                if t < time {
                    assert(visited[t] != u);
                }
            }
        } else {
            assert(at(g2, c) == CellState::Heading(d));
        }
    }
}

/// Writing one cell leaves the others as they were.
proof fn lemma_at_update(g: Seq<Seq<CellState>>, c: Cell, x: CellState)
    requires
        0 <= c.0 < g.len(),
        0 <= c.1 < g[c.0].len(),
    ensures
        forall|p: Cell| 0 <= p.0 < g.len() && 0 <= p.1 < g[p.0].len() && p != c ==>
            #[trigger] at(g.update(c.0, g[c.0].update(c.1, x)), p) == at(g, p),
{
    let g2 = g.update(c.0, g[c.0].update(c.1, x));
    assert forall|p: Cell| 0 <= p.0 < g.len() && 0 <= p.1 < g[p.0].len() && p != c implies #[trigger] at(g2, p) == at(g, p) by {
        if p.0 == c.0 {
            assert(g2[p.0] == g[c.0].update(c.1, x));
        }
    }
}

/// A wall that is carved stays carved when only carving follows.
proof fn lemma_kept_wall(
    av: Seq<Seq<bool>>,
    ah: Seq<Seq<bool>>,
    bv: Seq<Seq<bool>>,
    bh: Seq<Seq<bool>>,
    h: int,
    w: int,
    p: Cell,
    d: Direction,
)
    requires
        shaped(av, ah, h, w),
        kept_carved(av, bv),
        kept_carved(ah, bh),
        can_step(h, w, p, d),
    ensures
        !wall_in(av, ah, p, d) ==> !wall_in(bv, bh, p, d),
{
}

/// The walls carved along the path, stated by the path's cells.
proof fn lemma_walls_on_path(
    g0: Seq<Seq<CellState>>,
    path: Seq<Cell>,
    pe: Cell,
    vw: Seq<Seq<bool>>,
    hw: Seq<Seq<bool>>,
    vw2: Seq<Seq<bool>>,
    hw2: Seq<Seq<bool>>,
    h: int,
    w: int,
)
    requires
        only_path_carved(g0, path, vw, hw, vw2, hw2, h, w),
        forall|i: int| 0 <= i < path.len() ==>
            next_cell(g0, #[trigger] path[i]) == if i + 1 < path.len() { path[i + 1] } else { pe },
    ensures
        ({
            let full = path.push(pe);
            &&& forall|r: int, c: int| 0 <= r < h && 0 <= c < w - 1 && vw[r][c] && !#[trigger] vw2[r][c] ==>
        exists|i: int| 0 <= i < full.len() - 1 && {
            ||| #[trigger] full[i] == (r, c) && full[i + 1] == (r, c + 1)
            ||| full[i] == (r, c + 1) && full[i + 1] == (r, c)
                }
            &&& forall|r: int, c: int| 0 <= r < h - 1 && 0 <= c < w && hw[r][c] && !#[trigger] hw2[r][c] ==>
        exists|i: int| 0 <= i < full.len() - 1 && {
            ||| #[trigger] full[i] == (r, c) && full[i + 1] == (r + 1, c)
            ||| full[i] == (r + 1, c) && full[i + 1] == (r, c)
                }
        }),
{
    let full = path.push(pe);
    assert forall|r: int, c: int| 0 <= r < h && 0 <= c < w - 1 && vw[r][c] && !#[trigger] vw2[r][c] implies
        exists|i: int| 0 <= i < full.len() - 1 && {
            ||| #[trigger] full[i] == (r, c) && full[i + 1] == (r, c + 1)
            ||| full[i] == (r, c + 1) && full[i + 1] == (r, c)
        } by {
        let i = choose|i: int| 0 <= i < path.len() && {
            ||| #[trigger] path[i] == (r, c) && heading(at(g0, path[i])) == Direction::Right
            ||| path[i] == (r, c + 1) && heading(at(g0, path[i])) == Direction::Left
        };
        assert(full[i] == path[i]);
        if i + 1 < path.len() {
            assert(full[i + 1] == path[i + 1]);
        } else {
            assert(full[i + 1] == pe);
        }
    }
    assert forall|r: int, c: int| 0 <= r < h - 1 && 0 <= c < w && hw[r][c] && !#[trigger] hw2[r][c] implies
        exists|i: int| 0 <= i < full.len() - 1 && {
            ||| #[trigger] full[i] == (r, c) && full[i + 1] == (r + 1, c)
            ||| full[i] == (r + 1, c) && full[i + 1] == (r, c)
        } by {
        let i = choose|i: int| 0 <= i < path.len() && {
            ||| #[trigger] path[i] == (r, c) && heading(at(g0, path[i])) == Direction::Down
            ||| path[i] == (r + 1, c) && heading(at(g0, path[i])) == Direction::Up
        };
        assert(full[i] == path[i]);
        if i + 1 < path.len() {
            assert(full[i + 1] == path[i + 1]);
        } else {
            assert(full[i + 1] == pe);
        }
    }
}

} // verus!
