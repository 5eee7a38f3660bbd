use roguelike_mapgen::rect::Rect;

#[test]
fn rect_new_adds_size_to_corner() {
    let r = Rect::new(3, 4, 10, 6);
    assert_eq!(r, Rect { x1: 3, x2: 13, y1: 4, y2: 10 });
    let empty = Rect::new(-2, 7, 0, 0);
    assert_eq!(empty, Rect { x1: -2, x2: -2, y1: 7, y2: 7 });
    let inverted = Rect::new(5, 5, -3, -1);
    assert_eq!(inverted, Rect { x1: 5, x2: 2, y1: 5, y2: 4 });
}

#[test]
fn rect_center_is_halfway() {
    assert_eq!(Rect::new(0, 0, 10, 10).center(), (5, 5));
    assert_eq!(Rect::new(2, 3, 5, 8).center(), (4, 7));
    assert_eq!(Rect::new(1, 1, 0, 0).center(), (1, 1));
}

#[test]
fn rect_center_rounds_toward_zero() {
    assert_eq!(Rect { x1: -3, x2: 0, y1: -7, y2: -2 }.center(), (-1, -4));
    assert_eq!(Rect { x1: -1, x2: 0, y1: 0, y2: 1 }.center(), (0, 0));
}

#[test]
fn rect_center_of_the_widest_box() {
    let r = Rect { x1: i32::MAX, x2: i32::MAX, y1: i32::MIN, y2: i32::MIN };
    assert_eq!(r.center(), (i32::MAX, i32::MIN));
    let wide = Rect { x1: i32::MIN, x2: i32::MAX, y1: 0, y2: i32::MAX };
    assert_eq!(wide.center(), (0, i32::MAX / 2));
}

#[test]
fn rect_intersect_counts_touching_bounds() {
    let a = Rect::new(0, 0, 5, 5);
    assert!(a.intersect(&Rect::new(5, 5, 2, 2)));
    assert!(a.intersect(&Rect::new(2, 2, 1, 1)));
    assert!(a.intersect(&Rect::new(-4, -4, 4, 4)));
    assert!(!a.intersect(&Rect::new(6, 0, 2, 2)));
    assert!(!a.intersect(&Rect::new(0, 6, 2, 2)));
    assert!(!a.intersect(&Rect::new(-3, 0, 2, 2)));
    assert!(!a.intersect(&Rect::new(0, -3, 2, 2)));
}

#[test]
fn rect_intersects_itself_and_both_ways() {
    let boxes = vec![
        Rect::new(0, 0, 5, 5),
        Rect::new(3, 3, 1, 9),
        Rect::new(-7, 2, 4, 4),
        Rect::new(10, 10, 0, 0),
        Rect::new(4, -6, 20, 3),
    ];
    for a in boxes.iter() {
        assert!(a.intersect(a));
        for b in boxes.iter() {
            assert_eq!(a.intersect(b), b.intersect(a));
        }
    }
}

#[test]
fn rect_with_corners_out_of_order_misses_itself() {
    let inverted = Rect { x1: 5, x2: 2, y1: 0, y2: 3 };
    assert!(!inverted.intersect(&inverted));
}
