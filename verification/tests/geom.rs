use termx::geom::{HAlign, Point, Range1d, Rect, RectUnion, Thickness, VAlign, Vector};

fn rect(x: i16, y: i16, w: i16, h: i16) -> Rect {
    Rect { tl: Point { x, y }, size: Vector { x: w, y: h } }
}

#[test]
fn rect_corners_and_edges() {
    let r = rect(1, 2, 5, 3);
    assert_eq!(r.r(), 6);
    assert_eq!(r.b(), 5);
    assert_eq!(r.br_inner(), Point { x: 5, y: 4 });
    assert_eq!(r.tr_inner(), Point { x: 5, y: 2 });
    assert_eq!(r.bl_inner(), Point { x: 1, y: 4 });
    assert_eq!(rect(1, 2, 0, 0).br_inner(), Point { x: 1, y: 2 });
    assert_eq!(r.b_line(), rect(1, 4, 5, 1));
    assert_eq!(r.r_line(), rect(5, 2, 1, 3));
    assert_eq!(rect(1, 2, 5, 0).b_line(), rect(1, 2, 5, 0));
}

#[test]
fn rect_contains_and_intersect() {
    let r = rect(1, 2, 5, 3);
    assert!(r.contains(Point { x: 1, y: 2 }));
    assert!(r.contains(Point { x: 5, y: 4 }));
    assert!(!r.contains(Point { x: 6, y: 4 }));
    assert_eq!(r.intersect(rect(3, 0, 10, 3)), rect(3, 2, 3, 1));
    assert!(r.intersect(rect(20, 20, 2, 2)).is_empty());
}

#[test]
fn range_union_takes_the_shorter_way() {
    assert_eq!(Range1d::new(0, 2).union(Range1d::new(5, 6)), Some(Range1d::new(0, 6)));
    assert_eq!(Range1d::new(0, 5).union(Range1d::new(2, 3)), Some(Range1d::new(0, 5)));
    assert_eq!(Range1d::new(0, 2).union(Range1d::new(1, 4)), Some(Range1d::new(0, 4)));
    assert_eq!(Range1d::new(3, 3).union(Range1d::new(1, 4)), Some(Range1d::new(1, 4)));
}

#[test]
fn rect_union_and_clip() {
    assert_eq!(rect(0, 0, 2, 2).union(rect(5, 5, 1, 1)), Some(RectUnion::Whole(rect(0, 0, 6, 6))));
    assert_eq!(rect(0, 0, 0, 0).union(rect(5, 5, 1, 1)), Some(RectUnion::Whole(rect(5, 5, 1, 1))));
    let screen = rect(0, 0, 80, 25);
    assert_eq!(rect(0, 0, 2, 2).union_intersect(rect(5, 5, 1, 1), screen), rect(0, 0, 6, 6));
    assert_eq!(rect(0, 0, 0, 0).union_intersect(rect(70, 20, 20, 10), screen), rect(70, 20, 10, 5));
}

#[test]
fn thickness_shrinks_and_expands() {
    let t = Thickness::new(1, 2, 3, 4);
    assert_eq!(t.shrink_rect(rect(0, 0, 10, 10)), rect(1, 2, 6, 4));
    assert_eq!(t.expand_rect(rect(1, 2, 6, 4)), rect(0, 0, 10, 10));
    assert_eq!(Thickness::all(5).shrink_rect(rect(0, 0, 4, 4)), rect(4, 4, 0, 0));
    assert_eq!(Thickness::all(1).expand_rect_size(Vector { x: 3, y: 1 }), Vector { x: 5, y: 3 });
    assert_eq!(Thickness::all(1).shrink_rect_size(Vector { x: 3, y: 1 }), Vector { x: 1, y: 0 });
    assert_eq!(t.neg(), Thickness::new(-1, -2, -3, -4));
}

#[test]
fn thickness_aligns_inner_in_outer() {
    assert_eq!(
        Thickness::align(Vector { x: 4, y: 1 }, Vector { x: 10, y: 1 }, HAlign::Center, VAlign::Top),
        Thickness::new(3, 0, 3, 0)
    );
    assert_eq!(
        Thickness::align(Vector { x: 4, y: 1 }, Vector { x: 10, y: 5 }, HAlign::Right, VAlign::Bottom),
        Thickness::new(6, 4, 0, 0)
    );
    assert_eq!(
        Thickness::align(Vector { x: 12, y: 1 }, Vector { x: 10, y: 1 }, HAlign::Left, VAlign::Top),
        Thickness::new(0, 0, -2, 0)
    );
}

#[test]
fn vectors_and_points() {
    let a = Vector { x: 3, y: -1 };
    assert_eq!(a.max(Vector { x: 1, y: 2 }), Vector { x: 3, y: -1 });
    assert_eq!(a.min(Vector { x: 1, y: 2 }), Vector { x: 1, y: 2 });
    assert_eq!(a.plus(Vector { x: 1, y: 2 }), Vector { x: 4, y: 1 });
    assert_eq!(Point { x: 1, y: 1 }.offset(a), Point { x: 4, y: 0 });
    assert_eq!(Point { x: 4, y: 0 }.offset_from(Point { x: 1, y: 1 }), a);
    assert!(Vector::null().is_null());
}
