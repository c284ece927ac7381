use mazes::{Capacity, Cardinal, Coord, Index, Ordinal, RowSize, SqGrid};

#[test]
fn new_grid_has_expected_neighbor_lists() {
    let grid = SqGrid::new(3);
    let nbrs = |id: usize| -> Vec<usize> {
        grid.lookup(Index(id)).neighbor_ids().iter().map(|i| i.0).collect()
    };
    // north, east, south, west order
    assert_eq!(nbrs(0), vec![1, 3]);
    assert_eq!(nbrs(1), vec![2, 4, 0]);
    assert_eq!(nbrs(4), vec![1, 5, 7, 3]);
    assert_eq!(nbrs(8), vec![5, 7]);
    for c in grid.cells() {
        assert!(c.links().is_empty());
        assert!(c.not_linked());
        assert!(!c.is_linked());
    }
}

#[test]
fn boundary_tests_on_a_four_grid() {
    let grid = SqGrid::new(4);
    assert!(grid.has_boundary_north(Index(2)));
    assert!(!grid.has_boundary_north(Index(4)));
    assert!(grid.has_boundary_west(Index(8)));
    assert!(!grid.has_boundary_west(Index(9)));
    assert!(grid.has_boundary_east(Index(7)));
    assert!(!grid.has_boundary_east(Index(6)));
    assert!(grid.has_boundary_south(Index(13)));
    assert!(!grid.has_boundary_south(Index(9)));
    assert!(grid.has_boundary(Index(0), Cardinal::N));
    assert!(grid.has_boundary(Index(0), Cardinal::W));
    assert!(!grid.has_boundary(Index(0), Cardinal::E));
}

#[test]
fn neighbor_calculation_on_a_four_grid() {
    let grid = SqGrid::new(4);
    assert_eq!(grid.calc_north(Index(5)), Some(Index(1)));
    assert_eq!(grid.calc_north(Index(2)), None);
    assert_eq!(grid.calc_east(Index(5)), Some(Index(6)));
    assert_eq!(grid.calc_east(Index(7)), None);
    assert_eq!(grid.calc_south(Index(5)), Some(Index(9)));
    assert_eq!(grid.calc_south(Index(14)), None);
    assert_eq!(grid.calc_west(Index(5)), Some(Index(4)));
    assert_eq!(grid.calc_west(Index(4)), None);
    assert_eq!(grid.neighbor(Index(5), &Cardinal::S), Some(Index(9)));
}

#[test]
fn corner_ids_on_a_four_grid() {
    let grid = SqGrid::new(4);
    assert_eq!(grid.corner_id(Ordinal::Nw).0, 0);
    assert_eq!(grid.corner_id(Ordinal::Ne).0, 3);
    assert_eq!(grid.corner_id(Ordinal::Se).0, 15);
    assert_eq!(grid.corner_id(Ordinal::Sw).0, 12);
}

#[test]
fn checked_lookups_report_out_of_bounds() {
    let grid = SqGrid::new(2);
    assert!(grid.try_lookup(Index(3)).is_ok());
    let e = grid.try_lookup(Index(4)).unwrap_err();
    assert_eq!(e.id().0, 4);
    assert!(grid.get(Index(4)).is_none());
    assert_eq!(grid.get(Index(2)).unwrap().id().0, 2);
    assert_eq!(grid.lookup(Index(1)).id().0, 1);
    assert_eq!(grid.first().id().0, 0);
    assert_eq!(grid.last().id().0, 3);
    assert_eq!(grid.nth(Index(2)).id().0, 2);
    assert_eq!(grid.capacity(), Capacity(4));
    assert_eq!(grid.row_size(), RowSize(2));
    assert_eq!(grid.col_size(), RowSize(2));
    assert_eq!(grid.dimensions(), (RowSize(2), RowSize(2)));
}

#[test]
fn coordinate_lookup_round_trips() {
    let grid = SqGrid::new(4);
    let coord = grid.get_coords(Index(9));
    assert_eq!(coord.x().0, 1);
    assert_eq!(coord.y().0, 2);
    assert_eq!(grid.get_id(&coord).0, 9);
    let ok = grid.try_get_id(&Coord { x: Index(3), y: Index(3) }).unwrap();
    assert_eq!(ok.0, 15);
    let bad = grid.try_get_id(&Coord { x: Index(4), y: Index(0) }).unwrap_err();
    assert_eq!(bad.coord().x().0, 4);
    assert!(grid.try_get_coords(Index(16)).is_err());
    assert!(grid.try_get_coords(Index(15)).is_ok());
}

#[test]
fn directional_links_and_queries() {
    let mut grid = SqGrid::new(3);
    grid.link_neighbor(Index(0), &Cardinal::E).unwrap();
    assert!(grid.has_dir_link(Index(0), &Cardinal::E));
    assert!(grid.has_dir_link(Index(1), &Cardinal::W));
    assert!(!grid.has_dir_link(Index(0), &Cardinal::S));
    assert!(grid.link_neighbor(Index(0), &Cardinal::N).is_err());
    grid.unlink_neighbor(Index(0), &Cardinal::E).unwrap();
    assert!(!grid.has_dir_link(Index(0), &Cardinal::E));
    assert!(grid.unlink_neighbor(Index(2), &Cardinal::E).is_err());
    assert_eq!(grid.dir_from(Index(4), Index(1)), Some(Cardinal::N));
    assert_eq!(grid.dir_from(Index(4), Index(5)), Some(Cardinal::E));
    assert_eq!(grid.dir_from(Index(4), Index(8)), None);
    assert_eq!(grid.find_boundary(Index(4)), None);
    assert_eq!(grid.find_boundary(Index(1)), Some(Cardinal::N));
    assert_eq!(grid.find_boundary(Index(5)), Some(Cardinal::E));
}

#[test]
fn cell_accessors_reflect_links() {
    let mut grid = SqGrid::new(2);
    grid.link(Index(0), Index(2)).unwrap();
    let c = grid.lookup(Index(0));
    assert_eq!(c.id(), Index(0));
    assert!(c.has_link(Index(2)));
    assert!(!c.has_link(Index(1)));
    assert!(c.has_neighbor(Index(1)));
    assert!(!c.has_neighbor(Index(3)));
    assert!(c.is_linked());
}

#[test]
fn random_accessors_stay_in_bounds() {
    let grid = SqGrid::new(4);
    let mut rng = mazes::SeededRand::seeded(5);
    for _ in 0..32 {
        let id = grid.random_id(&mut rng);
        assert!(id.0 < 16);
        let n = grid.random_neighbor_id(id, &mut rng);
        assert!(n.0 < 16);
        assert!(grid.lookup(id).has_neighbor(n));
        let c = grid.random(&mut rng);
        assert!(c.id().0 < 16);
        let nc = grid.random_neighbor(c.id(), &mut rng);
        assert!(nc.id().0 < 16);
    }
}

#[test]
fn link_errors_carry_both_ids() {
    let mut grid = SqGrid::new(2);
    let e = grid.link(Index(1), Index(7)).unwrap_err();
    assert_eq!(e.a.0, 1);
    assert_eq!(e.b.0, 7);
    let e = grid.unlink(Index(9), Index(0)).unwrap_err();
    assert_eq!(e.a.0, 9);
    assert_eq!(e.b.0, 0);
}

#[test]
fn neighbor_errors_carry_id_and_direction() {
    let mut grid = SqGrid::new(2);
    let e = grid.link_neighbor(Index(0), &Cardinal::N).unwrap_err();
    assert_eq!(e.a.0, 0);
    assert!(matches!(e.dir, Cardinal::N));
    let e = grid.unlink_neighbor(Index(3), &Cardinal::E).unwrap_err();
    assert_eq!(e.a.0, 3);
    assert!(matches!(e.dir, Cardinal::E));
}

#[test]
fn link_neighbor_touches_only_the_pair() {
    let mut grid = SqGrid::new(3);
    grid.link_neighbor(Index(4), &Cardinal::E).unwrap();
    for c in grid.cells() {
        let expected: usize = if c.id().0 == 4 || c.id().0 == 5 { 1 } else { 0 };
        assert_eq!(c.links().len(), expected);
    }
    grid.unlink_neighbor(Index(4), &Cardinal::E).unwrap();
    for c in grid.cells() {
        assert!(c.links().is_empty());
    }
}

#[test]
fn list_picks_stay_in_the_list() {
    let grid = SqGrid::new(4);
    let mut rng = mazes::SeededRand::seeded(61);
    let list = vec![Index(1), Index(3), Index(5), Index(7)];
    for _ in 0..16 {
        let id = mazes::id_from_list(&list, &mut rng);
        assert!(list.contains(&id));
        let c = grid.cell_from_list(&list, &mut rng);
        assert!(list.contains(&c.id()));
    }
}
