use mazes::{Index, RandSource, SeededRand, SqGrid};

/// The number of undirected passages: every link is recorded on both of its
/// cells, so the entry total is twice the passage count.
fn passage_count(grid: &SqGrid) -> usize {
    let total: usize = grid.cells().iter().map(|c| c.links().len()).sum();
    assert_eq!(total % 2, 0);
    total / 2
}

/// Every cell is reachable from cell 0 through links.
fn fully_connected(grid: &SqGrid) -> bool {
    let dist = grid.distances(Index(0));
    grid.cells().iter().all(|c| dist.has_entry(&c.id()))
}

fn assert_perfect(grid: &SqGrid, size: usize) {
    assert_eq!(grid.cells().len(), size * size);
    assert!(fully_connected(grid));
    assert_eq!(passage_count(grid), size * size - 1);
    // link symmetry, checked cell by cell
    for c in grid.cells() {
        for l in c.links() {
            assert!(grid.lookup(*l).has_link(c.id()));
        }
    }
}

#[test]
fn binary_tree_carves_perfect_mazes() {
    for size in 2..7 {
        for seed in [3u64, 52, 977] {
            let mut rng = SeededRand::seeded(seed);
            let grid = SqGrid::binary_tree(size, &mut rng);
            assert_perfect(&grid, size);
        }
    }
}

#[test]
fn sidewinder_carves_perfect_mazes() {
    for size in 2..7 {
        for seed in [5u64, 83, 1021] {
            let mut rng = SeededRand::seeded(seed);
            let grid = SqGrid::sidewinder(size, &mut rng);
            assert_perfect(&grid, size);
        }
    }
}

#[test]
fn aldous_broder_carves_perfect_mazes() {
    for size in 2..7 {
        for seed in [8u64, 19, 852] {
            let mut rng = SeededRand::seeded(seed);
            let grid = SqGrid::aldous_broder(size, &mut rng);
            assert_perfect(&grid, size);
        }
    }
}

#[test]
fn wilsons_carves_perfect_mazes() {
    for size in 2..7 {
        for seed in [11u64, 47, 852] {
            let mut rng = SeededRand::seeded(seed);
            let grid = SqGrid::wilsons(size, &mut rng);
            assert_perfect(&grid, size);
        }
    }
}

#[test]
fn one_cell_grids_are_trivially_perfect() {
    let mut rng = SeededRand::seeded(1);
    assert_perfect(&SqGrid::binary_tree(1, &mut rng), 1);
    assert_perfect(&SqGrid::sidewinder(1, &mut rng), 1);
    assert_perfect(&SqGrid::aldous_broder(1, &mut rng), 1);
    assert_perfect(&SqGrid::wilsons(1, &mut rng), 1);
}

#[test]
fn generation_is_deterministic_for_a_seed() {
    for size in [4usize, 6] {
        let mut a = SeededRand::seeded(321);
        let mut b = SeededRand::seeded(321);
        let g1 = SqGrid::wilsons(size, &mut a);
        let g2 = SqGrid::wilsons(size, &mut b);
        for (c1, c2) in g1.cells().iter().zip(g2.cells().iter()) {
            let l1: Vec<usize> = c1.links().iter().map(|i| i.0).collect();
            let l2: Vec<usize> = c2.links().iter().map(|i| i.0).collect();
            assert_eq!(l1, l2);
        }
    }
}

#[test]
fn neighbor_lists_survive_generation() {
    // the neighbor lists of a carved maze match those of a fresh grid of the
    // same size: generation touches links only
    let fresh = SqGrid::new(5);
    let mut rng = SeededRand::seeded(44);
    let maze = SqGrid::aldous_broder(5, &mut rng);
    for (a, b) in fresh.cells().iter().zip(maze.cells().iter()) {
        let na: Vec<usize> = a.neighbor_ids().iter().map(|i| i.0).collect();
        let nb: Vec<usize> = b.neighbor_ids().iter().map(|i| i.0).collect();
        assert_eq!(na, nb);
    }
}

#[test]
fn neighbor_lists_survive_link_and_unlink() {
    let mut grid = SqGrid::new(3);
    let before: Vec<Vec<usize>> = grid
        .cells()
        .iter()
        .map(|c| c.neighbor_ids().iter().map(|i| i.0).collect())
        .collect();
    grid.link(Index(0), Index(1)).unwrap();
    grid.link(Index(1), Index(2)).unwrap();
    grid.unlink(Index(0), Index(1)).unwrap();
    grid.unlink(Index(5), Index(8)).unwrap();
    let after: Vec<Vec<usize>> = grid
        .cells()
        .iter()
        .map(|c| c.neighbor_ids().iter().map(|i| i.0).collect())
        .collect();
    assert_eq!(before, after);
}

#[test]
fn rand_source_below_stays_in_range() {
    let mut rng = SeededRand::seeded(2024);
    let mut seen_nonzero = false;
    for n in 1..50usize {
        let v = rng.below(n);
        assert!(v < n);
        if v > 0 {
            seen_nonzero = true;
        }
    }
    assert!(seen_nonzero);
}
