use vstd::prelude::*;
use vstd::string::StringExecFns;
use crate::maze::Maze;

verus! {

/// The glyph under cell `(r, c)`: `_` where a wall stands below it or on the
/// last row, else a space.
pub open spec fn floor_glyph(m: Maze, r: int, c: int) -> char {
    if r < m.spec_height() - 1 && !m.hwalls()[r][c] {
        ' '
    } else {
        '_'
    }
}

/// The glyph right of cell `(r, c)`: `|` where a wall stands there or at the
/// right edge; otherwise `_` where both floors beside the corner are walled or
/// on the last row, else a space.
pub open spec fn side_glyph(m: Maze, r: int, c: int) -> char {
    if c == m.spec_width() - 1 || m.vwalls()[r][c] {
        '|'
    } else if r == m.spec_height() - 1 || (m.hwalls()[r][c] && m.hwalls()[r][c + 1]) {
        '_'
    } else {
        ' '
    }
}

/// The glyphs of the first `n` cells of row `r`, two per cell.
pub open spec fn row_cells(m: Maze, r: int, n: nat) -> Seq<char>
    decreases n,
{
    if n == 0 {
        Seq::empty()
    } else {
        row_cells(m, r, (n - 1) as nat) + seq![floor_glyph(m, r, n - 1), side_glyph(m, r, n - 1)]
    }
}

/// The line drawn for row `r`.
pub open spec fn row_line(m: Maze, r: int) -> Seq<char> {
    seq!['|'] + row_cells(m, r, m.spec_width())
}

/// The top border: a gap in the corner, then underscores.
pub open spec fn top_line(m: Maze) -> Seq<char> {
    seq![' '] + Seq::new((2 * m.spec_width() - 1) as nat, |i: int| '_')
}

/// The lines of the rendering, top border first.
pub open spec fn rendered_lines(m: Maze) -> Seq<Seq<char>> {
    seq![top_line(m)] + Seq::new(m.spec_height(), |r: int| row_line(m, r))
}

/// Lines joined, each followed by a newline.
pub open spec fn join_lines(lines: Seq<Seq<char>>) -> Seq<char>
    decreases lines.len(),
{
    if lines.len() == 0 {
        Seq::empty()
    } else {
        join_lines(lines.drop_last()) + lines.last() + seq!['\n']
    }
}

/// The text of a maze.
pub open spec fn rendered(m: Maze) -> Seq<char> {
    join_lines(rendered_lines(m))
}

fn push_glyph(out: &mut String, ch: char)
    requires
        ch == ' ' || ch == '_' || ch == '|' || ch == '\n',
    ensures
        final(out)@ == old(out)@.push(ch),
{
    proof {
        reveal_strlit(" ");
        reveal_strlit("_");
        reveal_strlit("|");
        reveal_strlit("\n");
    }
    if ch == ' ' {
        out.append(" ");
    } else if ch == '_' {
        out.append("_");
    } else if ch == '|' {
        out.append("|");
    } else {
        out.append("\n");
    }
}

/// Draws the maze as text: a top border, then one line per row, each line
/// ended by a newline.
pub fn render(maze: &Maze) -> (s: String)
    requires
        maze.wf(),
    ensures
        s@ == rendered(*maze),
{
    let ghost m = *maze;
    let height = maze.height();
    let width = maze.width();
    let mut out = String::new();
    push_glyph(&mut out, ' ');
    push_glyph(&mut out, '_');
    assert(out@ =~= seq![' '] + Seq::new(1, |k: int| '_'));
    let mut i: usize = 1;
    while i < width
        invariant
            1 <= i <= width,
            width == m.spec_width(),
            out@ == seq![' '] + Seq::new((2 * i - 1) as nat, |k: int| '_'),
        decreases width - i,
    {
        push_glyph(&mut out, '_');
        push_glyph(&mut out, '_');
        assert(out@ =~= seq![' '] + Seq::new((2 * i + 1) as nat, |k: int| '_'));
        i = i + 1;
    }
    push_glyph(&mut out, '\n');
    proof {
        assert(join_lines(Seq::<Seq<char>>::empty()) == Seq::<char>::empty());
        assert(rendered_lines(m).take(1) =~= seq![top_line(m)]);
        assert(rendered_lines(m).take(1).drop_last() =~= Seq::<Seq<char>>::empty());
        assert(out@ =~= join_lines(rendered_lines(m).take(1)));
    }
    let mut r: usize = 0;
    while r < height
        invariant
            0 <= r <= height,
            height == m.spec_height(),
            width == m.spec_width(),
            m == *maze,
            maze.wf(),
            out@ == join_lines(rendered_lines(m).take(r + 1)),
        decreases height - r,
    {
        let ghost before = out@;
        push_glyph(&mut out, '|');
        let mut c: usize = 0;
        while c < width
            invariant
                0 <= r < height,
                0 <= c <= width,
                height == m.spec_height(),
                width == m.spec_width(),
                m == *maze,
                maze.wf(),
                out@ == before + seq!['|'] + row_cells(m, r as int, c as nat),
            decreases width - c,
        {
            assert(maze.vwalls()[r as int] == maze.walls.0@[r as int]@);
            if r + 1 < height {
                assert(maze.hwalls()[r as int] == maze.walls.1@[r as int]@);
            }
            let floor = if r + 1 < height && !maze.walls.1[r][c] {
                ' '
            } else {
                '_'
            };
            let side = if c + 1 == width || maze.walls.0[r][c] {
                '|'
            } else if r + 1 == height || (maze.walls.1[r][c] && maze.walls.1[r][c + 1]) {
                '_'
            } else {
                ' '
            };
            push_glyph(&mut out, floor);
            push_glyph(&mut out, side);
            assert(out@ =~= before + seq!['|'] + row_cells(m, r as int, (c + 1) as nat));
            c = c + 1;
        }
        push_glyph(&mut out, '\n');
        proof {
            let lines = rendered_lines(m).take(r + 2);
            assert(lines.drop_last() =~= rendered_lines(m).take(r + 1));
            assert(lines.last() == row_line(m, r as int));
            assert(out@ =~= join_lines(lines));
        }
        r = r + 1;
    }
    assert(rendered_lines(m).take(height + 1) =~= rendered_lines(m));
    out
}

proof fn lemma_row_cells_len(m: Maze, r: int, n: nat)
    ensures
        row_cells(m, r, n).len() == 2 * n,
    decreases n,
{
    if n > 0 {
        lemma_row_cells_len(m, r, (n - 1) as nat);
    }
}

/// The rendering is a top border followed by one line per row, each line ended
/// by a newline; a row line holds `2 * width + 1` glyphs and the border one fewer.
pub proof fn lemma_render_shape(m: Maze)
    requires
        m.wf(),
    ensures
        rendered(m) == join_lines(rendered_lines(m)),
        rendered_lines(m).len() == m.spec_height() + 1,
        rendered_lines(m)[0].len() == 2 * m.spec_width(),
        forall|r: int| 1 <= r <= m.spec_height() ==> (#[trigger] rendered_lines(m)[r]).len() == 2 * m.spec_width() + 1,
{
    assert forall|r: int| 1 <= r <= m.spec_height() implies (#[trigger] rendered_lines(m)[r]).len() == 2 * m.spec_width() + 1 by {
        lemma_row_cells_len(m, r - 1, m.spec_width());
    }
}

proof fn lemma_row_cells_same(a: Maze, b: Maze, r: int, n: nat)
    requires
        a.vwalls() == b.vwalls(),
        a.hwalls() == b.hwalls(),
        a.spec_height() == b.spec_height(),
        a.spec_width() == b.spec_width(),
    ensures
        row_cells(a, r, n) == row_cells(b, r, n),
    decreases n,
{
    if n > 0 {
        lemma_row_cells_same(a, b, r, (n - 1) as nat);
    }
}

/// The text depends on the wall model alone: two mazes with the same dimensions
/// and the same walls render identically, so rendering one maze twice gives the
/// same text.
pub proof fn lemma_render_deterministic(a: Maze, b: Maze)
    requires
        a.vwalls() == b.vwalls(),
        a.hwalls() == b.hwalls(),
        a.spec_height() == b.spec_height(),
        a.spec_width() == b.spec_width(),
    ensures
        rendered(a) == rendered(b),
{
    assert forall|r: int| 0 <= r < a.spec_height() implies row_line(a, r) == row_line(b, r) by {
        lemma_row_cells_same(a, b, r, a.spec_width());
    }
    assert(rendered_lines(a) =~= rendered_lines(b));
}

} // verus!
