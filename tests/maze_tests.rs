use maze_gen::{render, Direction, Maze, MazeError};

fn open_walls(m: &Maze) -> usize {
    let v = m.walls.0.iter().flatten().filter(|b| !**b).count();
    let h = m.walls.1.iter().flatten().filter(|b| !**b).count();
    v + h
}

fn open_neighbours(m: &Maze, r: usize, c: usize) -> Vec<(usize, usize)> {
    let mut out = Vec::new();
    let moves = [
        (Direction::Right, c + 1 < m.width()),
        (Direction::Left, c > 0),
        (Direction::Up, r > 0),
        (Direction::Down, r + 1 < m.height()),
    ];
    for (d, on_grid) in moves {
        if on_grid {
            if let Some(p) = m.try_move(r, c, d) {
                out.push(p);
            }
        }
    }
    out
}

/// Cells reached from (0, 0) through open walls, each counted once.
fn reached_cells(m: &Maze) -> usize {
    let mut seen = vec![vec![false; m.width()]; m.height()];
    let mut stack = vec![(0usize, 0usize)];
    seen[0][0] = true;
    let mut count = 0;
    while let Some((r, c)) = stack.pop() {
        count += 1;
        for (nr, nc) in open_neighbours(m, r, c) {
            if !seen[nr][nc] {
                seen[nr][nc] = true;
                stack.push((nr, nc));
            }
        }
    }
    count
}

fn assert_perfect(m: &Maze, h: usize, w: usize) {
    assert_eq!(m.height(), h);
    assert_eq!(m.width(), w);
    assert_eq!(m.walls.0.len(), h);
    assert!(m.walls.0.iter().all(|row| row.len() == w - 1));
    assert_eq!(m.walls.1.len(), h - 1);
    assert!(m.walls.1.iter().all(|row| row.len() == w));
    assert_eq!(open_walls(m), h * w - 1);
    assert_eq!(reached_cells(m), h * w);
}

fn built(vertical: Vec<Vec<bool>>, horizontal: Vec<Vec<bool>>, height: usize, width: usize) -> Maze {
    Maze { walls: (vertical, horizontal), height, width }
}

#[test]
fn carved_walls_number_cells_minus_one() {
    for (h, w) in [(1, 2), (2, 1), (3, 3), (4, 7), (9, 9), (1, 12), (12, 1)] {
        let m = Maze::gen(h, w).unwrap();
        assert_eq!(open_walls(&m), h * w - 1);
    }
}

#[test]
fn every_cell_reachable_without_cycles() {
    for (h, w) in [(2, 3), (5, 5), (6, 4), (10, 13)] {
        let m = Maze::gen(h, w).unwrap();
        assert_perfect(&m, h, w);
    }
}

#[test]
fn single_cell_maze_has_no_walls() {
    let m = Maze::gen(1, 1).unwrap();
    assert_eq!(m.walls.0, vec![Vec::<bool>::new()]);
    assert!(m.walls.1.is_empty());
    assert_eq!(open_walls(&m), 0);
    assert_eq!(reached_cells(&m), 1);
}

#[test]
fn zero_dimensions_are_rejected() {
    assert!(matches!(Maze::gen(0, 5), Err(MazeError::InvalidDimensions)));
    assert!(matches!(Maze::gen(5, 0), Err(MazeError::InvalidDimensions)));
    assert!(matches!(Maze::gen(0, 0), Err(MazeError::InvalidDimensions)));
}

#[test]
fn two_by_two_keeps_one_wall() {
    for _ in 0..50 {
        let m = Maze::gen(2, 2).unwrap();
        let standing = m.walls.0.iter().chain(m.walls.1.iter()).flatten().filter(|b| **b).count();
        assert_eq!(standing, 1);
        assert_eq!(open_walls(&m), 3);
        assert_perfect(&m, 2, 2);
    }
}

#[test]
fn repeated_generation_varies() {
    let first = Maze::gen(4, 4).unwrap();
    let mut differs = false;
    for _ in 0..40 {
        let m = Maze::gen(4, 4).unwrap();
        if m.walls != first.walls {
            differs = true;
        }
    }
    assert!(differs);
}

#[test]
fn long_thin_mazes_are_fully_open() {
    let row = Maze::gen(1, 6).unwrap();
    assert_eq!(row.walls.0, vec![vec![false; 5]]);
    let column = Maze::gen(6, 1).unwrap();
    assert_eq!(column.walls.1, vec![vec![false]; 5]);
}

#[test]
fn render_single_cell() {
    let m = Maze::gen(1, 1).unwrap();
    assert_eq!(render(&m), " _\n|_|\n");
}

#[test]
fn render_fully_walled() {
    let m = built(vec![vec![true], vec![true]], vec![vec![true, true]], 2, 2);
    assert_eq!(render(&m), " ___\n|_|_|\n|_|_|\n");
}

#[test]
fn render_open_passages() {
    let m = built(vec![vec![false], vec![true]], vec![vec![true, false]], 2, 2);
    assert_eq!(render(&m), " ___\n|_  |\n|_|_|\n");
}

#[test]
fn render_fills_corner_between_floors() {
    let m = built(vec![vec![false], vec![false]], vec![vec![true, true]], 2, 2);
    assert_eq!(render(&m), " ___\n|___|\n|___|\n");
}

#[test]
fn render_shape_and_repeatability() {
    let m = Maze::gen(6, 8).unwrap();
    let text = render(&m);
    assert_eq!(text, render(&m));
    let lines: Vec<&str> = text.lines().collect();
    assert_eq!(lines.len(), 7);
    assert_eq!(lines[0].len(), 16);
    for line in &lines[1..] {
        assert_eq!(line.len(), 17);
        assert!(line.starts_with('|') && line.ends_with('|'));
    }
    assert!(text.ends_with('\n'));
}

#[test]
fn wall_queries_follow_row_and_column() {
    // 2 rows, 3 columns
    let m = built(
        vec![vec![false, true], vec![true, false]],
        vec![vec![true, false, true]],
        2,
        3,
    );
    assert!(!m.wall_between(0, 0, Direction::Right));
    assert!(!m.wall_between(0, 1, Direction::Left));
    assert!(m.wall_between(0, 1, Direction::Right));
    assert!(m.wall_between(1, 0, Direction::Right));
    assert!(!m.wall_between(1, 2, Direction::Left));
    assert!(m.wall_between(0, 0, Direction::Down));
    assert!(!m.wall_between(0, 1, Direction::Down));
    assert!(!m.wall_between(1, 1, Direction::Up));
    assert!(m.wall_between(1, 2, Direction::Up));
}

#[test]
fn moves_respect_walls() {
    let m = built(
        vec![vec![false, true], vec![true, false]],
        vec![vec![true, false, true]],
        2,
        3,
    );
    assert_eq!(m.try_move(0, 0, Direction::Right), Some((0, 1)));
    assert_eq!(m.try_move(0, 1, Direction::Down), Some((1, 1)));
    assert_eq!(m.try_move(1, 1, Direction::Right), Some((1, 2)));
    assert_eq!(m.try_move(0, 1, Direction::Right), None);
    assert_eq!(m.try_move(0, 0, Direction::Down), None);
    assert_eq!(m.try_move(1, 2, Direction::Left), Some((1, 1)));
    assert_eq!(m.try_move(1, 2, Direction::Up), None);
    assert_eq!(m.try_move(1, 0, Direction::Right), None);
}

#[test]
fn clone_keeps_walls() {
    let m = Maze::gen(3, 5).unwrap();
    let c = m.clone();
    assert_eq!(c.walls, m.walls);
    assert_eq!(render(&c), render(&m));
}
