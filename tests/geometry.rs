use kaosu_packer::geom::{keeps, Cuboid, Point, Rectangle, RotationType, Space};

fn space(b: (i32, i32, i32), u: (i32, i32, i32)) -> Space {
    Space {
        bottom_left: Point::new(b.0, b.1, b.2),
        upper_right: Point::new(u.0, u.1, u.2),
    }
}

#[test]
fn test_rect_orientation() {
    assert_eq!(1, Rectangle::new(2, 2, 2).orientations().len());

    assert_eq!(3, Rectangle::new(2, 2, 3).orientations().len());
    assert_eq!(3, Rectangle::new(2, 3, 2).orientations().len());
    assert_eq!(3, Rectangle::new(3, 2, 2).orientations().len());

    assert_eq!(6, Rectangle::new(1, 2, 3).orientations().len());
    assert_eq!(6, Rectangle::new(1, 3, 2).orientations().len());
    assert_eq!(6, Rectangle::new(2, 1, 3).orientations().len());
    assert_eq!(6, Rectangle::new(2, 3, 1).orientations().len());
    assert_eq!(6, Rectangle::new(3, 2, 1).orientations().len());
    assert_eq!(6, Rectangle::new(3, 1, 2).orientations().len());
}

#[test]
fn test_intersects() {
    assert!(space((0, 0, 0), (3, 3, 3)).intersects(&space((1, 1, 1), (2, 2, 2))));
    assert!(space((1, 1, 1), (2, 2, 2)).intersects(&space((0, 0, 0), (3, 3, 3))));
    assert!(space((0, 1, 1), (3, 3, 3)).intersects(&space((1, 0, 0), (2, 4, 2))));

    assert!(!space((0, 0, 0), (3, 3, 3)).intersects(&space((4, 1, 0), (5, 2, 1))));
}

#[test]
fn intersects_is_symmetric() {
    let cases = [
        (space((0, 0, 0), (3, 3, 3)), space((1, 1, 1), (2, 2, 2))),
        (space((0, 0, 0), (3, 3, 3)), space((3, 0, 0), (5, 3, 3))),
        (space((0, 0, 0), (3, 3, 3)), space((4, 1, 0), (5, 2, 1))),
        (space((0, 1, 1), (3, 3, 3)), space((1, 0, 0), (2, 4, 2))),
    ];
    for (a, b) in cases.iter() {
        assert_eq!(a.intersects(b), b.intersects(a));
    }
}

#[test]
fn rotation_counts_in_three_dimensions() {
    let tp = RotationType::ThreeDimension;
    assert_eq!(tp.orientations_for(&Cuboid::new(4, 4, 4)).len(), 1);
    assert_eq!(tp.orientations_for(&Cuboid::new(4, 4, 7)).len(), 3);
    assert_eq!(tp.orientations_for(&Cuboid::new(1, 2, 3)).len(), 6);
}

#[test]
fn rotation_order_is_canonical() {
    let os = RotationType::ThreeDimension.orientations_for(&Cuboid::new(1, 2, 3));
    let expected = vec![
        Cuboid::new(1, 2, 3),
        Cuboid::new(2, 1, 3),
        Cuboid::new(1, 3, 2),
        Cuboid::new(3, 1, 2),
        Cuboid::new(3, 2, 1),
        Cuboid::new(2, 3, 1),
    ];
    assert_eq!(os, expected);
}

#[test]
fn two_dimensional_rotation_keeps_height() {
    let tp = RotationType::TwoDimension;
    assert_eq!(tp.orientations_for(&Cuboid::new(3, 5, 7)), vec![Cuboid::new(3, 5, 7), Cuboid::new(5, 3, 7)]);
    assert_eq!(tp.orientations_for(&Cuboid::new(4, 4, 7)), vec![Cuboid::new(4, 4, 7)]);
}

#[test]
fn placement_maps_height_to_y_and_depth_to_z() {
    let s = Space::from_placement(&Point::new(1, 2, 3), &Cuboid::new(10, 20, 30));
    assert_eq!(s.upper_right, Point::new(11, 32, 23));
    assert_eq!(s.width(), 10);
    assert_eq!(s.depth(), 20);
    assert_eq!(s.height(), 30);
    assert_eq!(*s.origin(), Point::new(1, 2, 3));
    assert_eq!(s.volume(), 6000);
}

#[test]
fn volumes_and_fit() {
    assert_eq!(Cuboid::new(3, 5, 7).volume(), 105);
    assert_eq!(Rectangle::new(3, 5, 7).volume(), 105);
    let s = space((0, 0, 0), (3, 7, 5));
    assert!(Cuboid::new(3, 5, 7).can_fit_in(&s));
    assert!(!Cuboid::new(3, 7, 5).can_fit_in(&s));
    assert!(Rectangle::new(3, 5, 7).can_fit_in(&s));
}

#[test]
fn squared_distance() {
    assert_eq!(Point::new(0, 0, 0).distance2_from(&Point::new(1, 2, 3)), 14);
    assert_eq!(Point::new(10, 10, 10).distance2_from(&Point::new(7, 10, 6)), 25);
}

#[test]
fn containment() {
    let outer = space((0, 0, 0), (10, 10, 10));
    assert!(outer.contains(&space((2, 3, 4), (5, 6, 7))));
    assert!(outer.contains(&outer));
    assert!(!outer.contains(&space((2, 3, 4), (5, 11, 7))));
}

#[test]
fn union_is_the_common_part() {
    let a = space((0, 0, 0), (5, 5, 5));
    let b = space((3, 2, 1), (8, 9, 4));
    assert_eq!(a.union(&b), space((3, 2, 1), (5, 5, 4)));
}

#[test]
fn six_way_difference() {
    let s = space((0, 0, 0), (10, 10, 10));
    let o = space((2, 3, 4), (5, 6, 7));
    let all = s.difference_process(&o, 0, 0);
    assert_eq!(
        all,
        vec![
            space((0, 0, 0), (2, 10, 10)),
            space((5, 0, 0), (10, 10, 10)),
            space((0, 0, 0), (10, 3, 10)),
            space((0, 6, 0), (10, 10, 10)),
            space((0, 0, 0), (10, 10, 4)),
            space((0, 0, 7), (10, 10, 10)),
        ]
    );
    let pruned = s.difference_process(&o, 4, 0);
    assert_eq!(
        pruned,
        vec![space((5, 0, 0), (10, 10, 10)), space((0, 6, 0), (10, 10, 10)), space((0, 0, 0), (10, 10, 4))]
    );
    let by_volume = s.difference_process(&o, 0, 301);
    assert_eq!(
        by_volume,
        vec![space((5, 0, 0), (10, 10, 10)), space((0, 6, 0), (10, 10, 10)), space((0, 0, 0), (10, 10, 4))]
    );
}

#[test]
fn difference_covers_the_space() {
    let s = space((0, 0, 0), (6, 6, 6));
    let p = space((1, 2, 3), (4, 5, 6));
    let pieces = s.difference_process(&p, 0, 0);
    for x in 0..=6 {
        for y in 0..=6 {
            for z in 0..=6 {
                let q = space((x, y, z), (x, y, z));
                let in_p = p.contains(&q);
                let in_piece = pieces.iter().any(|piece| piece.contains(&q));
                assert!(in_p || in_piece);
            }
        }
    }
    for piece in pieces.iter() {
        assert!(s.contains(piece));
    }
}

#[test]
fn degenerate_slabs_are_dropped() {
    let s = space((0, 0, 0), (10, 10, 10));
    let pieces = s.difference_process(&s, 0, 0);
    assert!(pieces.is_empty());
    assert!(!keeps(&space((0, 0, 0), (0, 5, 5)), 0, 0));
    assert!(keeps(&space((0, 0, 0), (2, 5, 5)), 2, 50));
    assert!(!keeps(&space((0, 0, 0), (2, 5, 5)), 3, 0));
    assert!(!keeps(&space((0, 0, 0), (2, 5, 5)), 0, 51));
}

#[test]
fn slabs_along_one_axis_are_disjoint() {
    let s = space((0, 0, 0), (10, 10, 10));
    let p = space((0, 0, 3), (10, 10, 5));
    let pieces = s.difference_process(&p, 0, 0);
    assert_eq!(pieces, vec![space((0, 0, 0), (10, 10, 3)), space((0, 0, 5), (10, 10, 10))]);
    let a = &pieces[0];
    let b = &pieces[1];
    let shared = a.union(b);
    assert_eq!(shared.depth(), -2);
}
