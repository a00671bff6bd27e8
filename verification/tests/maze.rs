use y2k_maze::maze::{unvisited_neighbors, Cell, Maze, Rng, EAST, NORTH, SOUTH, WEST};

/// Direction of the opposite passage bit.
fn opposite(d: u8) -> u8 {
    match d {
        NORTH => SOUTH,
        SOUTH => NORTH,
        EAST => WEST,
        _ => EAST,
    }
}

/// Offset of one step in direction `d`.
fn step(d: u8, x: usize, y: usize) -> (isize, isize) {
    let (x, y) = (x as isize, y as isize);
    match d {
        NORTH => (x, y - 1),
        SOUTH => (x, y + 1),
        EAST => (x + 1, y),
        _ => (x - 1, y),
    }
}

/// Counts open passage pairs: each east bit and each south bit stands for
/// one pair.
fn count_pairs(m: &Maze) -> usize {
    let mut pairs = 0;
    for y in 0..m.height {
        for x in 0..m.width {
            let c = m.cell(x, y);
            if c.is_open(EAST) {
                pairs += 1;
            }
            if c.is_open(SOUTH) {
                pairs += 1;
            }
        }
    }
    pairs
}

/// Number of cells reachable from the origin through open passages.
fn count_reachable(m: &Maze) -> usize {
    let mut seen = vec![false; m.width * m.height];
    let mut queue = vec![(0usize, 0usize)];
    seen[0] = true;
    let mut found = 1;
    while let Some((x, y)) = queue.pop() {
        for d in [NORTH, SOUTH, EAST, WEST] {
            if m.cell(x, y).is_open(d) {
                let (nx, ny) = step(d, x, y);
                assert!(nx >= 0 && ny >= 0 && (nx as usize) < m.width && (ny as usize) < m.height);
                let (nx, ny) = (nx as usize, ny as usize);
                if !seen[ny * m.width + nx] {
                    seen[ny * m.width + nx] = true;
                    found += 1;
                    queue.push((nx, ny));
                }
            }
        }
    }
    found
}

#[test]
fn rng_follows_the_lcg_formula() {
    let mut rng = Rng::new(12345);
    // (12345 * 6364136223846793005 + 1442695040888963407) mod 2^64
    // == 2021368500568277588; its upper bits shifted by 33 give
    // 235318264, and 235318264 mod 4 == 0.
    assert_eq!(rng.next_usize(4), 0);
    assert_eq!(rng.0, 2021368500568277588);
    let mut rng = Rng::new(1);
    assert_eq!(rng.next_usize(10), 4);
}

#[test]
fn generation_is_deterministic() {
    let a = Maze::generate(987654321, 15, 11);
    let b = Maze::generate(987654321, 15, 11);
    assert_eq!(a.width, b.width);
    assert_eq!(a.height, b.height);
    for y in 0..a.height {
        for x in 0..a.width {
            assert_eq!(a.cell(x, y).passages, b.cell(x, y).passages);
        }
    }
}

#[test]
fn different_seeds_may_differ() {
    let a = Maze::generate(1, 10, 10);
    let b = Maze::generate(2, 10, 10);
    let same = (0..10).all(|y| (0..10).all(|x| a.cell(x, y).passages == b.cell(x, y).passages));
    assert!(!same);
}

#[test]
fn scenario_20_by_20_has_399_pairs_and_is_connected() {
    let m = Maze::generate(12345, 20, 20);
    assert_eq!(count_pairs(&m), 399);
    assert_eq!(count_reachable(&m), 400);
}

#[test]
fn passages_are_symmetric() {
    let m = Maze::generate(424242, 13, 7);
    for y in 0..m.height {
        for x in 0..m.width {
            for d in [NORTH, SOUTH, EAST, WEST] {
                if m.cell(x, y).is_open(d) {
                    let (nx, ny) = step(d, x, y);
                    assert!(nx >= 0 && ny >= 0);
                    let (nx, ny) = (nx as usize, ny as usize);
                    assert!(nx < m.width && ny < m.height);
                    assert!(m.cell(nx, ny).is_open(opposite(d)));
                }
            }
        }
    }
}

#[test]
fn one_cell_maze_is_fully_closed() {
    let m = Maze::generate(7, 1, 1);
    assert_eq!(m.cell(0, 0).passages, 0);
    assert_eq!(count_pairs(&m), 0);
    assert_eq!(count_reachable(&m), 1);
}

#[test]
fn single_row_and_single_column_mazes_are_corridors() {
    let row = Maze::generate(99, 6, 1);
    assert_eq!(count_pairs(&row), 5);
    assert_eq!(count_reachable(&row), 6);
    let col = Maze::generate(99, 1, 6);
    assert_eq!(count_pairs(&col), 5);
    assert_eq!(count_reachable(&col), 6);
}

#[test]
fn perfect_maze_for_assorted_sizes() {
    for (seed, w, h) in [(0u64, 2, 3), (5, 4, 4), (123, 9, 2), (u64::MAX, 8, 5)] {
        let m = Maze::generate(seed, w, h);
        assert_eq!(count_pairs(&m), w * h - 1);
        assert_eq!(count_reachable(&m), w * h);
    }
}

#[test]
fn is_open_reads_single_bits() {
    let c = Cell { passages: NORTH | EAST };
    assert!(c.is_open(NORTH));
    assert!(c.is_open(EAST));
    assert!(!c.is_open(SOUTH));
    assert!(!c.is_open(WEST));
}

#[test]
fn neighbors_enumerate_in_fixed_order() {
    // 3x3 grid, nothing visited but the center: the center's neighbors
    // come back in north, south, east, west order.
    let mut visited = vec![false; 9];
    visited[4] = true;
    let n = unvisited_neighbors(1, 1, &visited, 3, 3);
    assert_eq!(n.len(), 4);
    assert_eq!(n[0], (1, 0, NORTH, SOUTH));
    assert_eq!(n[1], (1, 2, SOUTH, NORTH));
    assert_eq!(n[2], (2, 1, EAST, WEST));
    assert_eq!(n[3], (0, 1, WEST, EAST));
    // corner cell with a visited neighbor
    visited[1] = true;
    let n = unvisited_neighbors(0, 0, &visited, 3, 3);
    assert_eq!(n, vec![(0, 1, SOUTH, NORTH)]);
}
