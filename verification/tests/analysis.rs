use mazes::{Cardinal, Index, SeededRand, SqGrid};

/// A 4 by 4 grid with every wall between neighbors removed.
fn fully_open_grid() -> SqGrid {
    let mut grid = SqGrid::new(4);
    for id in 0..16usize {
        let nbrs: Vec<Index> = grid.lookup(Index(id)).neighbor_ids().clone();
        for n in nbrs {
            if !grid.lookup(Index(id)).has_link(n) {
                grid.link(Index(id), n).unwrap();
            }
        }
    }
    grid
}

/// A 2 by 2 grid linked as the single chain 0-1-3-2.
fn chain_grid() -> SqGrid {
    let mut grid = SqGrid::new(2);
    grid.link(Index(0), Index(1)).unwrap();
    grid.link(Index(1), Index(3)).unwrap();
    grid.link(Index(3), Index(2)).unwrap();
    grid
}

#[test]
fn distances_on_fully_open_grid_are_manhattan() {
    let grid = fully_open_grid();
    let dist = grid.distances(Index(0));
    for id in 0..16usize {
        let row = id / 4;
        let col = id % 4;
        assert_eq!(dist.get(Index(id)), Some(row + col));
    }
    assert_eq!(dist.get(Index(5)), Some(2));
    assert_eq!(dist.get(Index(15)), Some(6));
}

#[test]
fn shortest_path_on_chain_grid() {
    let grid = chain_grid();
    let path = grid.shortest_path(Index(0), Index(2));
    let steps: Vec<usize> = path.get_ref().iter().map(|i| i.0).collect();
    assert_eq!(steps, vec![0, 1, 3, 2]);
}

#[test]
fn shortest_path_takes_the_direct_route() {
    let grid = fully_open_grid();
    let path = grid.shortest_path(Index(0), Index(15));
    assert_eq!(path.len(), 7);
    assert_eq!(path.first().0, 0);
    assert_eq!(path.last().0, 15);
    for w in path.get_ref().windows(2) {
        assert!(grid.lookup(w[0]).has_link(w[1]));
    }
}

#[test]
fn longest_path_on_chain_grid_is_the_whole_chain() {
    let grid = chain_grid();
    let path = grid.longest_path(Index(0));
    let steps: Vec<usize> = path.get_ref().iter().map(|i| i.0).collect();
    assert_eq!(steps.len(), 4);
    assert!(steps == vec![0, 1, 3, 2] || steps == vec![2, 3, 1, 0]);
}

#[test]
fn longest_path_of_a_maze_is_a_valid_path() {
    for seed in [12u64, 345, 6789] {
        let mut rng = SeededRand::seeded(seed);
        let grid = SqGrid::wilsons(5, &mut rng);
        let path = grid.longest_path(Index(0));
        assert!(path.len() >= 1);
        for w in path.get_ref().windows(2) {
            assert!(grid.lookup(w[0]).has_link(w[1]));
            assert!(grid.lookup(w[1]).has_link(w[0]));
        }
    }
}

#[test]
fn unlink_is_idempotent() {
    let mut grid = chain_grid();
    grid.unlink(Index(1), Index(3)).unwrap();
    let snapshot: Vec<Vec<usize>> = grid
        .cells()
        .iter()
        .map(|c| c.links().iter().map(|i| i.0).collect())
        .collect();
    // a second unlink of the same pair succeeds and changes nothing
    grid.unlink(Index(1), Index(3)).unwrap();
    let again: Vec<Vec<usize>> = grid
        .cells()
        .iter()
        .map(|c| c.links().iter().map(|i| i.0).collect())
        .collect();
    assert_eq!(snapshot, again);
}

#[test]
fn unlink_removes_both_sides() {
    let mut grid = chain_grid();
    assert!(grid.lookup(Index(0)).has_link(Index(1)));
    assert!(grid.lookup(Index(1)).has_link(Index(0)));
    grid.unlink(Index(0), Index(1)).unwrap();
    assert!(!grid.lookup(Index(0)).has_link(Index(1)));
    assert!(!grid.lookup(Index(1)).has_link(Index(0)));
}

#[test]
fn link_rejects_out_of_bounds_ids() {
    let mut grid = SqGrid::new(2);
    assert!(grid.link(Index(0), Index(4)).is_err());
    assert!(grid.link(Index(9), Index(0)).is_err());
    assert!(grid.unlink(Index(0), Index(4)).is_err());
}

#[test]
fn linking_twice_keeps_a_single_entry() {
    let mut grid = SqGrid::new(2);
    grid.link(Index(0), Index(1)).unwrap();
    grid.link(Index(0), Index(1)).unwrap();
    assert_eq!(grid.lookup(Index(0)).links().len(), 1);
    assert_eq!(grid.lookup(Index(1)).links().len(), 1);
}

#[test]
fn max_dist_prefers_the_least_index_on_ties() {
    let grid = fully_open_grid();
    let mut dist = mazes::Distances::new(&grid, Index(0));
    dist.set(Index(7), 5);
    dist.set(Index(3), 5);
    dist.set(Index(2), 4);
    let (id, v) = dist.max_dist();
    assert_eq!(v, 5);
    assert_eq!(id.0, 3);
}

#[test]
fn distances_set_keeps_existing_entries() {
    let grid = SqGrid::new(2);
    let mut dist = mazes::Distances::new(&grid, Index(1));
    assert_eq!(dist.get(Index(1)), Some(0));
    dist.set(Index(1), 9);
    assert_eq!(dist.get(Index(1)), Some(0));
    dist.set(Index(2), 3);
    assert_eq!(dist.get(Index(2)), Some(3));
    assert_eq!(dist.root().0, 1);
    assert!(dist.has_entry(&Index(2)));
    assert!(!dist.has_entry(&Index(0)));
}

#[test]
fn path_queries_follow_first_occurrence() {
    let grid = chain_grid();
    let path = grid.shortest_path(Index(0), Index(2));
    assert_eq!(path.position(Index(3)), Some(2));
    assert_eq!(path.prev(Index(3)), Some(Index(1)));
    assert_eq!(path.next(Index(3)), Some(Index(2)));
    assert_eq!(path.prev(Index(0)), None);
    assert_eq!(path.next(Index(2)), None);
    assert_eq!(path.get(1), Some(Index(1)));
    assert_eq!(path.get(9), None);
    assert!(!path.is_empty());
}

#[test]
fn path_reverse_turns_the_walk_around() {
    let grid = chain_grid();
    let mut path = grid.shortest_path(Index(0), Index(2));
    path.reverse();
    let steps: Vec<usize> = path.get_ref().iter().map(|i| i.0).collect();
    assert_eq!(steps, vec![2, 3, 1, 0]);
}

#[test]
fn path_direction_queries_point_along_the_walk() {
    let grid = chain_grid();
    let path = grid.shortest_path(Index(0), Index(2));
    // cell 1 was entered from the west and left to the south
    assert!(matches!(path.prev_dir(&grid, Index(1)), Some(Cardinal::W)));
    assert!(matches!(path.next_dir(&grid, Index(1)), Some(Cardinal::S)));
    // the start has no predecessor: its first boundary side comes back
    assert!(matches!(path.prev_dir(&grid, Index(0)), Some(Cardinal::N)));
}
