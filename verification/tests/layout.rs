use termx::geom::{Point, Rect, Thickness, Vector};
use termx::layout::{
    arrange_background, arrange_stack_panel, border_child_constraints, border_child_slot, canvas_child_slot,
    invalidate_arrange, invalidate_measure, layout_settled, measure_border, measure_button, measure_canvas,
    measure_single_child, measure_stack_panel, measure_t_button, adorners_after_first,
    adorners_child_constraints, arrange_moved, stack_panel_child_constraints, ArrangeStep, LayoutView,
    MeasureStep, LAYOUT_BACKGROUND,
};
use termx::text::{ViewHAlign, ViewVAlign};

fn rect(x: i16, y: i16, w: i16, h: i16) -> Rect {
    Rect { tl: Point { x, y }, size: Vector { x: w, y: h } }
}

fn v(x: i16, y: i16) -> Vector {
    Vector { x, y }
}

#[test]
fn measure_twice_with_same_constraints_is_done() {
    let mut lv = LayoutView::new(LAYOUT_BACKGROUND);
    assert!(matches!(lv.measure_begin(Some(80), Some(25), false), MeasureStep::Measure(Some(80), Some(25))));
    lv.measure_end(Some(80), Some(25), v(10, 3));
    assert_eq!(lv.desired_size(), v(10, 3));
    assert!(matches!(lv.measure_begin(Some(80), Some(25), false), MeasureStep::Done));
    assert_eq!(lv.desired_size(), v(10, 3));
}

#[test]
fn collapsed_view_asks_nothing() {
    let mut lv = LayoutView::new(LAYOUT_BACKGROUND);
    lv.desired_size = v(4, 4);
    assert!(matches!(lv.measure_begin(Some(80), Some(25), true), MeasureStep::Done));
    assert_eq!(lv.desired_size(), v(0, 0));
}

#[test]
fn fixed_width_limits_the_content() {
    let mut lv = LayoutView::new(LAYOUT_BACKGROUND);
    lv.width = Some(20);
    assert!(matches!(lv.measure_begin(Some(80), Some(25), false), MeasureStep::Measure(Some(20), Some(25))));
    lv.measure_end(Some(80), Some(25), v(50, 3));
    assert_eq!(lv.desired_size(), v(20, 3));
}

#[test]
fn desired_size_is_cut_to_the_constraint() {
    let mut lv = LayoutView::new(LAYOUT_BACKGROUND);
    lv.margin = Thickness::all(1);
    lv.measure_begin(Some(10), Some(10), false);
    lv.measure_end(Some(10), Some(10), v(9, 2));
    assert_eq!(lv.desired_size(), v(10, 4));
}

#[test]
fn arrange_stretched_view_fills_its_slot() {
    let mut lv = LayoutView::new(LAYOUT_BACKGROUND);
    lv.measure_begin(Some(80), Some(25), false);
    lv.measure_end(Some(80), Some(25), v(10, 3));
    match lv.arrange_begin(v(80, 25)) {
        ArrangeStep::Arrange(a) => assert_eq!(a, v(80, 25)),
        ArrangeStep::Keep => panic!("first arrange keeps nothing"),
    }
    assert!(matches!(lv.arrange_begin(v(80, 25)), ArrangeStep::Keep));
    let size = lv.render_size(v(80, 25), Some(v(80, 25)));
    assert_eq!(size, v(80, 25));
    let res = lv.arrange_result(rect(0, 0, 80, 25), size, Thickness::all(0));
    assert_eq!(res.render_bounds, rect(0, 0, 80, 25));
    assert_eq!(res.real_render_bounds, rect(0, 0, 80, 25));
    assert_eq!(res.real_render_bounds_with_shadow, rect(0, 0, 80, 25));
    assert!(layout_settled(&lv));
}

#[test]
fn aligned_view_takes_its_desired_size() {
    let mut lv = LayoutView::new(LAYOUT_BACKGROUND);
    lv.h_align = ViewHAlign::Center;
    lv.v_align = ViewVAlign::Bottom;
    lv.measure_begin(Some(80), Some(25), false);
    lv.measure_end(Some(80), Some(25), v(10, 3));
    match lv.arrange_begin(v(80, 25)) {
        ArrangeStep::Arrange(a) => assert_eq!(a, v(10, 3)),
        ArrangeStep::Keep => panic!("first arrange keeps nothing"),
    }
    let res = lv.arrange_result(rect(0, 0, 80, 25), v(10, 3), Thickness::new(0, 0, 1, 1));
    assert_eq!(res.render_bounds, rect(35, 22, 10, 3));
    assert_eq!(res.real_render_bounds_with_shadow, rect(35, 22, 11, 4));
}

#[test]
fn invalidation_clears_the_caches() {
    let mut lv = LayoutView::new(LAYOUT_BACKGROUND);
    lv.measure_begin(Some(1), Some(1), false);
    lv.arrange_begin(v(1, 1));
    invalidate_arrange(&mut lv);
    assert!(lv.measure_size.is_some() && lv.arrange_size.is_none());
    lv.arrange_begin(v(1, 1));
    invalidate_measure(&mut lv);
    assert!(lv.measure_size.is_none() && lv.arrange_size.is_none());
    assert!(!layout_settled(&lv));
}

#[test]
fn stack_panel_sizes() {
    let sizes = vec![v(3, 1), v(5, 2)];
    assert_eq!(measure_stack_panel(true, &sizes), v(5, 3));
    assert_eq!(measure_stack_panel(false, &sizes), v(8, 2));
    let (slots, size) = arrange_stack_panel(true, rect(0, 0, 10, 10), &sizes);
    assert_eq!(slots, vec![rect(0, 0, 10, 1), rect(0, 1, 10, 2)]);
    assert_eq!(size, v(10, 3));
    let (slots, size) = arrange_stack_panel(false, rect(1, 1, 10, 10), &sizes);
    assert_eq!(slots, vec![rect(1, 1, 3, 10), rect(4, 1, 5, 10)]);
    assert_eq!(size, v(8, 10));
    assert_eq!(stack_panel_child_constraints(true, Some(5), Some(6)), (Some(5), None));
    assert_eq!(stack_panel_child_constraints(false, Some(5), Some(6)), (None, Some(6)));
}

#[test]
fn buttons_borders_and_canvases() {
    let ok: Vec<char> = "~O~K".chars().collect();
    assert_eq!(measure_button(&ok), v(6, 1));
    assert_eq!(measure_t_button(&ok), v(4, 1));
    assert_eq!(measure_border(Some(v(3, 1))), v(5, 3));
    assert_eq!(measure_border(None), v(2, 2));
    assert_eq!(border_child_constraints(Some(10), None), (Some(8), None));
    assert_eq!(border_child_slot(rect(0, 0, 5, 3)), rect(1, 1, 3, 1));
    assert_eq!(measure_canvas(None, Some(4)), v(1, 4));
    assert_eq!(canvas_child_slot(None, v(2, 2)), rect(0, 0, 2, 2));
    assert_eq!(canvas_child_slot(Some(Point { x: 3, y: 4 }), v(2, 2)), rect(3, 4, 2, 2));
    assert_eq!(measure_single_child(None), v(0, 0));
    assert_eq!(arrange_background(true, v(10, 10), None), v(0, 0));
    assert_eq!(arrange_background(false, v(10, 10), Some(v(1, 1))), v(10, 10));
    assert_eq!(arrange_background(true, v(10, 10), Some(v(1, 1))), v(1, 1));
}

#[test]
fn adorners_follow_the_first_child() {
    assert_eq!(adorners_child_constraints(0, Some(5), None, v(3, 3)), (Some(5), None));
    assert_eq!(adorners_child_constraints(1, Some(5), None, v(3, 3)), (Some(3), Some(3)));
    assert_eq!(adorners_after_first(v(3, 3), rect(1, 1, 3, 3)), Some(rect(1, 1, 3, 3)));
    assert_eq!(adorners_after_first(v(2, 3), rect(1, 1, 3, 3)), None);
    assert!(arrange_moved(rect(0, 0, 1, 1), rect(0, 0, 1, 1), rect(0, 0, 2, 1), rect(0, 0, 2, 1)));
    assert!(!arrange_moved(rect(0, 0, 1, 1), rect(0, 0, 1, 1), rect(0, 0, 1, 1), rect(0, 0, 1, 1)));
}
