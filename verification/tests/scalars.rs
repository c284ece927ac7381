use mazes::{Capacity, Cardinal, CardinalIter, CardinalRev, Coord, DistMapOpts, DistMask,
    DistText, HeatMask, Horizontal, Index, Numerical, Ordinal, OrdinalIter, Point, RgbChannel,
    RgbaChannel, RowMajor, RowSize, Vertical, Visit};

#[test]
fn index_arithmetic() {
    let i = Index(10);
    assert_eq!(Index::zero().0, 0);
    assert_eq!(Index::one().0, 1);
    assert_eq!(i.plus(5usize), 15);
    assert_eq!(i.minus(4usize), 6);
    assert_eq!(i.mul(3usize), 30);
    assert_eq!(i.div(3usize), 3);
    assert_eq!(i.rem(3usize), 1);
    assert_eq!(i.pow(2), 100);
    assert_eq!(Index(2).pow(10), 1024);
    assert!(i.lt(11usize));
    assert!(i.le(10usize));
    assert!(i.gt(9usize));
    assert!(i.ge(10usize));
    assert!(i.eq(10usize));
    assert!(!i.eq(9usize));
    assert_eq!(i.plus(Index(7)), 17);
    assert_eq!(i.num(), 10);
}

#[test]
fn capacity_and_row_size_arithmetic() {
    let c = Capacity(9);
    assert_eq!(Capacity::zero().0, 0);
    assert_eq!(Capacity::one().0, 1);
    assert_eq!(c.plus(1usize), 10);
    assert_eq!(c.minus(2usize), 7);
    assert_eq!(c.mul(2usize), 18);
    assert_eq!(c.div(2usize), 4);
    assert_eq!(c.rem(2usize), 1);
    assert_eq!(c.pow(2), 81);
    assert!(c.lt(10usize) && c.le(9usize) && c.gt(8usize) && c.ge(9usize) && c.eq(9usize));
    let s = RowSize(3);
    assert_eq!(s.cap(), Capacity(9));
    assert_eq!(RowSize::zero().0, 0);
    assert_eq!(RowSize::one().0, 1);
    assert_eq!(s.plus(2usize), 5);
    assert_eq!(s.minus(1usize), 2);
    assert_eq!(s.mul(4usize), 12);
    assert_eq!(s.div(3usize), 1);
    assert_eq!(s.rem(2usize), 1);
    assert_eq!(s.pow(3), 27);
    assert!(s.lt(4usize) && s.le(3usize) && s.gt(2usize) && s.ge(3usize) && s.eq(3usize));
    let v = Visit(5);
    assert_eq!(v.plus(1usize), 6);
    assert_eq!(v.num(), 5);
}

#[test]
fn cardinal_rotation_and_names() {
    assert_eq!(Cardinal::N.clockwise(), Cardinal::E);
    assert_eq!(Cardinal::W.clockwise(), Cardinal::N);
    assert_eq!(Cardinal::N.counter_clockwise(), Cardinal::W);
    assert_eq!(Cardinal::N.opposite(), Cardinal::S);
    assert_eq!(Cardinal::E.char(), 'E');
    assert_eq!(Cardinal::S.string(), "South");
    assert_eq!(Cardinal::clockwise_start(), Cardinal::N);
    assert_eq!(Cardinal::counter_clockwise_start(), Cardinal::W);
}

#[test]
fn cardinal_iterators_walk_the_compass() {
    let mut it = CardinalIter::iter();
    let mut seen = Vec::new();
    while let Some(d) = it.next() {
        seen.push(d);
    }
    assert_eq!(seen, vec![Cardinal::N, Cardinal::E, Cardinal::S, Cardinal::W]);
    let mut it = Cardinal::S.iter();
    assert_eq!(it.next(), Some(Cardinal::S));
    assert_eq!(it.next(), Some(Cardinal::W));
    let mut rev = CardinalRev::iter();
    let mut seen = Vec::new();
    while let Some(d) = rev.next() {
        seen.push(d);
    }
    assert_eq!(seen, vec![Cardinal::W, Cardinal::S, Cardinal::E, Cardinal::N]);
    let mut rev = CardinalRev::new(&Cardinal::E);
    assert_eq!(rev.next(), Some(Cardinal::E));
    assert_eq!(rev.next(), Some(Cardinal::N));
}

#[test]
fn ordinal_rotation_and_sides() {
    assert_eq!(Ordinal::Nw.inc_cw(), Ordinal::Ne);
    assert_eq!(Ordinal::Sw.inc_cw(), Ordinal::Nw);
    assert_eq!(Ordinal::Ne.inc_ccw(), Ordinal::Nw);
    assert_eq!(Ordinal::Nw.side_x(), Horizontal::W);
    assert_eq!(Ordinal::Se.side_x(), Horizontal::E);
    assert_eq!(Ordinal::Nw.side_y(), Vertical::N);
    assert_eq!(Ordinal::Sw.side_y(), Vertical::S);
    assert_eq!(Ordinal::Nw.direction_x(), Horizontal::E);
    assert_eq!(Ordinal::Se.direction_x(), Horizontal::W);
    assert_eq!(Ordinal::Nw.direction_y(), Vertical::S);
    assert_eq!(Ordinal::Se.direction_y(), Vertical::N);
    assert_eq!(Horizontal::E.cardinal(), Cardinal::E);
    assert_eq!(Vertical::N.cardinal(), Cardinal::N);
    let mut it = Ordinal::iter();
    let mut seen = Vec::new();
    while let Some(d) = it.next() {
        seen.push(d);
    }
    assert_eq!(seen, vec![Ordinal::Nw, Ordinal::Ne, Ordinal::Se, Ordinal::Sw]);
    let mut it = OrdinalIter::new(&Ordinal::Se);
    assert_eq!(it.next(), Some(Ordinal::Se));
    assert_eq!(it.next(), Some(Ordinal::Sw));
}

#[test]
fn major_order_coord_nw() {
    assert_eq!(
        Ordinal::Nw.major_order_coord::<RowMajor>(Visit(0), RowSize(4), RowMajor),
        Coord::new(Index(0), Index(0))
    );
}

#[test]
fn major_order_coord_ne() {
    assert_eq!(
        Ordinal::Ne.major_order_coord::<RowMajor>(Visit(0), RowSize(4), RowMajor),
        Coord::new(Index(3), Index(0))
    );
}

#[test]
fn major_order_coord_se() {
    assert_eq!(
        Ordinal::Se.major_order_coord::<RowMajor>(Visit(0), RowSize(4), RowMajor),
        Coord::new(Index(3), Index(3))
    );
}

#[test]
fn major_order_coord_sw() {
    assert_eq!(
        Ordinal::Sw.major_order_coord::<RowMajor>(Visit(0), RowSize(4), RowMajor),
        Coord::new(Index(0), Index(3))
    );
}

#[test]
fn coord_accessors() {
    let c = Coord::new(Index(2), Index(3));
    assert_eq!(c.x(), Index(2));
    assert_eq!(c.y(), Index(3));
    assert_eq!(c.row(), RowSize(3));
    assert_eq!(c.col(), RowSize(2));
    assert_eq!(c.tuple(), (RowSize(2), RowSize(3)));
    assert_eq!(c.id(RowSize(4)), Index(14));
}

#[test]
fn point_accessors_and_borders() {
    let mut p = Point::new(0, 3);
    assert_eq!(p.x(), 0);
    assert_eq!(p.y(), 3);
    assert_eq!(p.get(), (0, 3));
    assert!(p.on_left_border(4));
    assert!(p.on_bottom_border(4));
    assert!(!p.on_top_border(4));
    assert!(!p.on_right_border(4));
    assert!(p.on_any_border(4));
    p.set_x(2);
    p.set_y(1);
    assert_eq!(p.get(), (2, 1));
    assert!(!p.on_any_border(4));
}

#[test]
fn dist_mask_channels() {
    let mut m = DistMask::none();
    assert!(!m.channel(RgbChannel::R));
    m.use_red(true);
    m.use_green(true);
    m.use_blue(true);
    m.set_alpha(17);
    assert!(m.channel(RgbChannel::R) && m.channel(RgbChannel::G) && m.channel(RgbChannel::B));
    assert_eq!(m.a, 17);
    assert_eq!(DistMask::only_green(), DistMask { r: false, g: true, b: false, a: 255 });
    assert_eq!(DistMask::only_red(), DistMask { r: true, g: false, b: false, a: 255 });
    assert_eq!(DistMask::only_blue(), DistMask { r: false, g: false, b: true, a: 255 });
    assert_eq!(DistMask::new(), DistMask::default());
    let mut opts = DistMapOpts::default();
    assert_eq!(opts.text, DistText::Dist);
    opts.show_id();
    assert_eq!(opts.text, DistText::id());
    opts.show_dist();
    assert_eq!(opts.text, DistText::dist());
    opts.mask_mut().use_blue(true);
    assert!(opts.mask().b);
    let h = HeatMask::new().red(false).green(true).blue(true).alpha(true);
    assert!(!h.channel(RgbaChannel::R));
    assert!(h.channel(RgbaChannel::G) && h.channel(RgbaChannel::B) && h.channel(RgbaChannel::A));
}
