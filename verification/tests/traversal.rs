use mazes::SqGrid;

fn order(it: &mazes::Iter) -> Vec<usize> {
    it.ids().iter().map(|i| i.0).collect()
}

#[test]
fn iters_iter() {
    let grid = SqGrid::setup(4);
    let ids = order(&grid.iter());
    let expected = &[0, 1, 2, 3, 4, 5, 6, 7, 8, 9, 10, 11, 12, 13, 14, 15];
    assert_eq!(&ids, expected);
}

#[test]
fn iters_rev() {
    let grid = SqGrid::setup(4);
    let ids = order(&grid.reverse());
    let expected = &[15, 14, 13, 12, 11, 10, 9, 8, 7, 6, 5, 4, 3, 2, 1, 0];
    assert_eq!(&ids, expected);
}

#[test]
fn iters_nested_rev() {
    let grid = SqGrid::setup(4);
    let ids = order(&grid.iter().reverse());
    let expected = &[15, 14, 13, 12, 11, 10, 9, 8, 7, 6, 5, 4, 3, 2, 1, 0];
    assert_eq!(&ids, expected);
    let ids = order(&grid.reverse().iter());
    let expected = &[15, 14, 13, 12, 11, 10, 9, 8, 7, 6, 5, 4, 3, 2, 1, 0];
    assert_eq!(&ids, expected);
}

#[test]
fn iters_nw() {
    let grid = SqGrid::setup(4);
    let ids = order(&grid.nw());
    let expected = &[0, 1, 2, 3, 4, 5, 6, 7, 8, 9, 10, 11, 12, 13, 14, 15];
    assert_eq!(&ids, expected);
}

#[test]
fn iters_ne() {
    let grid = SqGrid::setup(4);
    let ids = order(&grid.ne());
    let expected = &[3, 2, 1, 0, 7, 6, 5, 4, 11, 10, 9, 8, 15, 14, 13, 12];
    assert_eq!(&ids, expected);
}

#[test]
fn iters_se() {
    let grid = SqGrid::setup(4);
    let ids = order(&grid.se());
    let expected = &[15, 14, 13, 12, 11, 10, 9, 8, 7, 6, 5, 4, 3, 2, 1, 0];
    assert_eq!(&ids, expected);
}

#[test]
fn iters_se_rev() {
    let grid = SqGrid::setup(4);
    let expected = &[0, 1, 2, 3, 4, 5, 6, 7, 8, 9, 10, 11, 12, 13, 14, 15];
    let ids = order(&grid.se().reverse());
    assert_eq!(&ids, expected);
    let ids = order(&grid.reverse().se());
    assert_eq!(&ids, expected);
}

#[test]
fn iters_sw() {
    let grid = SqGrid::setup(4);
    let ids = order(&grid.sw());
    let expected = &[12, 13, 14, 15, 8, 9, 10, 11, 4, 5, 6, 7, 0, 1, 2, 3];
    assert_eq!(&ids, expected);
}

#[test]
fn rand_traversal_is_permutation() {
    let grid = SqGrid::setup(5);
    let mut rng = mazes::SeededRand::seeded(99);
    let ids = order(&grid.rand(&mut rng));
    assert_eq!(ids.len(), 25);
    let mut sorted = ids.clone();
    sorted.sort();
    let expected: Vec<usize> = (0..25).collect();
    assert_eq!(sorted, expected);
}

#[test]
fn rand_traversal_seeded_is_deterministic() {
    let grid = SqGrid::setup(4);
    let mut rng1 = mazes::SeededRand::seeded(7);
    let mut rng2 = mazes::SeededRand::seeded(7);
    assert_eq!(order(&grid.rand(&mut rng1)), order(&grid.rand(&mut rng2)));
}
