use vstd::prelude::*;

verus! {

/// A compass direction on the grid.
#[derive(Clone, Copy, Debug, PartialEq, Eq, Structural)]
pub enum Direction {
    Right,
    Left,
    Up,
    Down,
}

/// Why a maze could not be produced.
#[derive(Clone, Copy, Debug, PartialEq, Eq, Structural)]
pub enum MazeError {
    /// The height or the width is zero.
    InvalidDimensions,
}

/// A cell position as `(row, column)` in the mathematical model.
pub type Cell = (int, int);

/// The cell reached from `p` by one step in direction `d` (possibly off the grid).
pub open spec fn step(p: Cell, d: Direction) -> Cell {
    match d {
        Direction::Right => (p.0, p.1 + 1),
        Direction::Left => (p.0, p.1 - 1),
        Direction::Up => (p.0 - 1, p.1),
        Direction::Down => (p.0 + 1, p.1),
    }
}

/// The direction that undoes `d`.
pub open spec fn opposite(d: Direction) -> Direction {
    match d {
        Direction::Right => Direction::Left,
        Direction::Left => Direction::Right,
        Direction::Up => Direction::Down,
        Direction::Down => Direction::Up,
    }
}

pub open spec fn in_grid(h: int, w: int, p: Cell) -> bool {
    0 <= p.0 < h && 0 <= p.1 < w
}

/// Whether a step from `p` in direction `d` stays inside an `h` by `w` grid.
pub open spec fn can_step(h: int, w: int, p: Cell, d: Direction) -> bool {
    in_grid(h, w, p) && in_grid(h, w, step(p, d))
}

/// The wall model of a maze.
///
/// `walls.0[r][c]` is `true` when a wall stands between `(r, c)` and `(r, c + 1)`
/// (`height` rows of `width - 1` entries); `walls.1[r][c]` is `true` when a wall
/// stands between `(r, c)` and `(r + 1, c)` (`height - 1` rows of `width` entries).
pub struct Maze {
    pub walls: (Vec<Vec<bool>>, Vec<Vec<bool>>),
    pub height: usize,
    pub width: usize,
}

impl Maze {
    pub open spec fn spec_height(&self) -> nat {
        self.height as nat
    }

    pub open spec fn spec_width(&self) -> nat {
        self.width as nat
    }

    /// The wall matrix between horizontally adjacent cells, as sequences.
    pub open spec fn vwalls(&self) -> Seq<Seq<bool>> {
        rows_of(self.walls.0@)
    }

    /// The wall matrix between vertically adjacent cells, as sequences.
    pub open spec fn hwalls(&self) -> Seq<Seq<bool>> {
        rows_of(self.walls.1@)
    }

    /// Dimensions at least one and both matrices of the documented shapes.
    pub open spec fn wf(&self) -> bool {
        shaped(self.vwalls(), self.hwalls(), self.spec_height() as int, self.spec_width() as int)
    }

    /// Whether a wall separates `p` from the adjacent cell `step(p, d)`.
    pub open spec fn wall_at(&self, p: Cell, d: Direction) -> bool {
        wall_in(self.vwalls(), self.hwalls(), p, d)
    }

    /// A move from `p` in direction `d` stays on the grid and crosses no wall.
    pub open spec fn passage(&self, p: Cell, d: Direction) -> bool {
        can_step(self.spec_height() as int, self.spec_width() as int, p, d)
            && !self.wall_at(p, d)
    }

    /// `path` is a walk through open passages from its first cell to its last.
    pub open spec fn is_path(&self, path: Seq<Cell>) -> bool {
        &&& path.len() >= 1
        &&& in_grid(self.spec_height() as int, self.spec_width() as int, path[0])
        &&& forall|i: int| 0 <= i < path.len() - 1 ==> #[trigger] self.linked(path[i], path[i + 1])
    }

    /// `b` is next to `a` and no wall stands between them.
    pub open spec fn linked(&self, a: Cell, b: Cell) -> bool {
        ||| self.passage(a, Direction::Right) && b == step(a, Direction::Right)
        ||| self.passage(a, Direction::Left) && b == step(a, Direction::Left)
        ||| self.passage(a, Direction::Up) && b == step(a, Direction::Up)
        ||| self.passage(a, Direction::Down) && b == step(a, Direction::Down)
    }

    /// `b` can be reached from `a` through carved walls only.
    pub open spec fn reachable(&self, a: Cell, b: Cell) -> bool {
        exists|path: Seq<Cell>| #[trigger]
            self.is_path(path) && path[0] == a && path.last() == b
    }

    /// The number of carved (open) wall entries.
    pub open spec fn open_count(&self) -> nat {
        crate::count::false_count(self.vwalls()) + crate::count::false_count(self.hwalls())
    }

    /// The open passages orient towards `root`: every other cell has an open
    /// passage to its parent `step(p, parent[p])`, of smaller rank, and every open
    /// passage is the link of one of its two cells to its parent. Following
    /// parents only lowers the rank, so the passages hold no cycle.
    pub open spec fn rooted_at(&self, root: Cell, parent: Map<Cell, Direction>, rank: Map<Cell, nat>) -> bool {
        &&& in_grid(self.spec_height() as int, self.spec_width() as int, root)
        &&& forall|p: Cell|
            in_grid(self.spec_height() as int, self.spec_width() as int, p) && p != root ==> {
                &&& #[trigger] self.passage(p, parent[p])
                &&& rank[step(p, parent[p])] < rank[p]
            }
        &&& forall|p: Cell, d: Direction| #[trigger]
            self.passage(p, d) ==> {
                ||| p != root && parent[p] == d
                ||| step(p, d) != root && parent[step(p, d)] == opposite(d)
            }
    }

    /// Every cell reaches every other cell, the carved walls number exactly one
    /// less than the cells, and they orient towards a root without a cycle: the
    /// carved walls form a spanning tree of the grid graph.
    pub open spec fn is_perfect(&self) -> bool {
        &&& exists|root: Cell, parent: Map<Cell, Direction>, rank: Map<Cell, nat>| #[trigger]
            self.rooted_at(root, parent, rank)
        &&& self.wf()
        &&& self.open_count() + 1 == self.spec_height() * self.spec_width()
        &&& forall|a: Cell, b: Cell|
            in_grid(self.spec_height() as int, self.spec_width() as int, a) && in_grid(
                self.spec_height() as int,
                self.spec_width() as int,
                b,
            ) ==> #[trigger] self.reachable(a, b)
    }

    pub(crate) fn from_parts(vw: Vec<Vec<bool>>, hw: Vec<Vec<bool>>, height: usize, width: usize) -> (m: Maze)
        ensures
            m.walls.0 == vw,
            m.walls.1 == hw,
            m.spec_height() == height,
            m.spec_width() == width,
    {
        Maze { walls: (vw, hw), height, width }
    }

    /// Generates a perfect maze of `height` rows and `width` columns.
    pub fn gen(height: usize, width: usize) -> (r: Result<Maze, MazeError>)
        ensures
            r is Err <==> (height == 0 || width == 0),
            r is Err ==> r == Err::<Maze, MazeError>(MazeError::InvalidDimensions),
            r is Ok ==> ({
                let m = r.unwrap();
                &&& m.is_perfect()
                &&& m.spec_height() == height
                &&& m.spec_width() == width
            }),
    {
        if height == 0 || width == 0 {
            return Err(MazeError::InvalidDimensions);
        }
        Ok(crate::wilson::wilsons_algorithm(height, width))
    }

    /// The number of rows.
    pub fn height(&self) -> (r: usize)
        ensures
            r == self.spec_height(),
    {
        self.height
    }

    /// The number of columns.
    pub fn width(&self) -> (r: usize)
        ensures
            r == self.spec_width(),
    {
        self.width
    }

    /// Whether a wall stands between cell `(row, col)` and its neighbour in
    /// direction `dir`. The neighbour must lie on the grid.
    pub fn wall_between(&self, row: usize, col: usize, dir: Direction) -> (r: bool)
        requires
            self.wf(),
            can_step(self.spec_height() as int, self.spec_width() as int, (row as int, col as int), dir),
        ensures
            r == self.wall_at((row as int, col as int), dir),
    {
        proof {
            if 0 <= row < self.height {
                assert(self.vwalls()[row as int] == self.walls.0@[row as int]@);
            }
            if 0 < row && row <= self.height - 1 {
                assert(self.hwalls()[row - 1] == self.walls.1@[row - 1]@);
            }
            if row < self.height - 1 {
                assert(self.hwalls()[row as int] == self.walls.1@[row as int]@);
            }
        }
        match dir {
            Direction::Right => self.walls.0[row][col],
            Direction::Left => self.walls.0[row][col - 1],
            Direction::Down => self.walls.1[row][col],
            Direction::Up => self.walls.1[row - 1][col],
        }
    }

    /// The cell reached by moving from `(row, col)` in direction `dir`, or `None`
    /// when a wall stands in the way. The destination must lie on the grid: a move
    /// off the grid is a caller error.
    pub fn try_move(&self, row: usize, col: usize, dir: Direction) -> (r: Option<(usize, usize)>)
        requires
            self.wf(),
            can_step(self.spec_height() as int, self.spec_width() as int, (row as int, col as int), dir),
        ensures
            r.is_some() <==> !self.wall_at((row as int, col as int), dir),
            r.is_some() ==> (r.unwrap().0 as int, r.unwrap().1 as int) == step(
                (row as int, col as int),
                dir,
            ),
    {
        if self.wall_between(row, col, dir) {
            return None;
        }
        match dir {
            Direction::Right => Some((row, col + 1)),
            Direction::Left => Some((row, col - 1)),
            Direction::Down => Some((row + 1, col)),
            Direction::Up => Some((row - 1, col)),
        }
    }
}

impl Clone for Maze {
    fn clone(&self) -> Self {
        Maze { walls: (self.walls.0.clone(), self.walls.1.clone()), height: self.height, width: self.width }
    }
}

/// The rows of a matrix of vectors, as sequences.
pub open spec fn rows_of<T>(v: Seq<Vec<T>>) -> Seq<Seq<T>> {
    v.map_values(|row: Vec<T>| row@)
}

/// Both matrices have the shapes that an `h` by `w` grid calls for.
pub open spec fn shaped(vw: Seq<Seq<bool>>, hw: Seq<Seq<bool>>, h: int, w: int) -> bool {
    &&& h >= 1
    &&& w >= 1
    &&& vw.len() == h
    &&& hw.len() == h - 1
    &&& forall|r: int| 0 <= r < h ==> (#[trigger] vw[r]).len() == w - 1
    &&& forall|r: int| 0 <= r < h - 1 ==> (#[trigger] hw[r]).len() == w
}

/// The wall entry between `p` and `step(p, d)` in the two matrices.
pub open spec fn wall_in(vw: Seq<Seq<bool>>, hw: Seq<Seq<bool>>, p: Cell, d: Direction) -> bool {
    match d {
        Direction::Right => vw[p.0][p.1],
        Direction::Left => vw[p.0][p.1 - 1],
        Direction::Down => hw[p.0][p.1],
        Direction::Up => hw[p.0 - 1][p.1],
    }
}

/// Passages can be crossed both ways.
pub proof fn lemma_linked_symmetric(m: Maze, a: Cell, b: Cell)
    requires
        m.wf(),
        m.linked(a, b),
    ensures
        m.linked(b, a),
{
}

/// A path read backwards is a path.
pub proof fn lemma_path_reverse(m: Maze, path: Seq<Cell>)
    requires
        m.wf(),
        m.is_path(path),
    ensures
        ({
            let rev = Seq::new(path.len(), |i: int| path[path.len() - 1 - i]);
            m.is_path(rev) && rev[0] == path.last() && rev.last() == path[0]
        }),
{
    let n = path.len() as int;
    let rev = Seq::new(path.len(), |i: int| path[path.len() - 1 - i]);
    if n > 1 {
        let j = n - 2;
        assert(m.linked(path[j], path[j + 1]));
        assert(in_grid(m.spec_height() as int, m.spec_width() as int, path[n - 1]));
    }
    assert forall|i: int| 0 <= i < rev.len() - 1 implies #[trigger] m.linked(rev[i], rev[i + 1]) by {
        let j = n - 2 - i;
        assert(m.linked(path[j], path[j + 1]));
        lemma_linked_symmetric(m, path[j], path[j + 1]);
    }
}

/// Two paths that meet end to start make one path.
pub proof fn lemma_path_concat(m: Maze, head: Seq<Cell>, tail: Seq<Cell>)
    requires
        m.wf(),
        m.is_path(head),
        m.is_path(tail),
        head.last() == tail[0],
    ensures
        m.is_path(head + tail.drop_first()),
        (head + tail.drop_first())[0] == head[0],
        (head + tail.drop_first()).last() == tail.last(),
{
    let q = head + tail.drop_first();
    let n_head = head.len() as int;
    assert forall|i: int| 0 <= i < q.len() - 1 implies #[trigger] m.linked(q[i], q[i + 1]) by {
        if i < n_head - 1 {
            assert(m.linked(head[i], head[i + 1]));
        } else {
            let j = i - n_head + 1;
            assert(m.linked(tail[j], tail[j + 1]));
            assert(q[i] == tail[j] && q[i + 1] == tail[j + 1]);
        }
    }
}

/// Reachability is symmetric and transitive.
pub proof fn lemma_reachable_through(m: Maze, a: Cell, mid: Cell, b: Cell)
    requires
        m.wf(),
        m.reachable(a, mid),
        m.reachable(b, mid),
    ensures
        m.reachable(a, b),
{
    let head = choose|path: Seq<Cell>| #[trigger] m.is_path(path) && path[0] == a && path.last() == mid;
    let tail = choose|path: Seq<Cell>| #[trigger] m.is_path(path) && path[0] == b && path.last() == mid;
    lemma_path_reverse(m, tail);
    let rev = Seq::new(tail.len(), |i: int| tail[tail.len() - 1 - i]);
    lemma_path_concat(m, head, rev);
    let q = head + rev.drop_first();
    assert(m.is_path(q) && q[0] == a && q.last() == b);
}

} // verus!
