use termx::geom::{Point, Rect, Vector};
use termx::layout::{LayoutView, LAYOUT_STACK_PANEL, LAYOUT_STATIC_TEXT, LAYOUT_T_BUTTON};
use termx::components::ContentPresenter;
use termx::layout_pass::{LayoutKind, Layouts};
use termx::text::{TextAlign, TextWrapping, Visibility};
use termx::tree::{Node, VisualTree};

fn rect(x: i16, y: i16, w: i16, h: i16) -> Rect {
    Rect { tl: Point { x, y }, size: Vector { x: w, y: h } }
}

fn v(x: i16, y: i16) -> Vector {
    Vector { x, y }
}

/// A vertical stack panel holding a shadowed button and a piece of text.
fn sample() -> (VisualTree, Layouts) {
    let root = Node::new();
    let mut a = Node::new();
    a.parent = Some(0);
    let mut b = Node::new();
    b.parent = Some(0);
    let tree = VisualTree {
        nodes: vec![root, a, b],
        children: vec![vec![1, 2], vec![], vec![]],
        root: Some(0),
        focused: None,
        invalidated_rect: rect(0, 0, 0, 0),
        screen_rect: rect(0, 0, 20, 10),
    };
    let layouts = Layouts {
        views: vec![
            LayoutView::new(LAYOUT_STACK_PANEL),
            LayoutView::new(LAYOUT_T_BUTTON),
            LayoutView::new(LAYOUT_STATIC_TEXT),
        ],
        kinds: vec![
            LayoutKind::StackPanel { vertical: true },
            LayoutKind::TButton { label: "~O~K".chars().collect() },
            LayoutKind::StaticText { text: "hello".chars().collect(), align: TextAlign::Left, wrapping: TextWrapping::NoWrap },
        ],
        canvas_tl: vec![None, None, None],
    };
    (tree, layouts)
}

#[test]
fn stack_panel_lays_out_its_children() {
    let (mut tree, mut layouts) = sample();
    layouts.perform(&mut tree, 0, v(20, 10));
    assert_eq!(layouts.views[1].desired_size, v(4, 1));
    assert_eq!(layouts.views[2].desired_size, v(5, 1));
    assert_eq!(layouts.views[0].desired_size, v(5, 2));
    assert_eq!(layouts.views[1].render_bounds, rect(0, 0, 20, 1));
    assert_eq!(layouts.views[2].render_bounds, rect(0, 1, 5, 1));
    assert_eq!(layouts.views[0].render_bounds, rect(0, 0, 20, 2));
    assert_eq!(tree.nodes[2].real_render_bounds, rect(0, 1, 5, 1));
    assert_eq!(tree.invalidated_rect, rect(0, 0, 20, 2));
}

#[test]
fn a_second_pass_changes_nothing() {
    let (mut tree, mut layouts) = sample();
    layouts.perform(&mut tree, 0, v(20, 10));
    let inv = tree.begin_frame(v(20, 10));
    assert_eq!(inv, rect(0, 0, 20, 2));
    layouts.perform(&mut tree, 0, v(20, 10));
    assert_eq!(tree.invalidated_rect, rect(0, 0, 0, 0));
    assert_eq!(layouts.views[2].render_bounds, rect(0, 1, 5, 1));
}

#[test]
fn invalidating_a_measure_reaches_the_root() {
    let (mut tree, mut layouts) = sample();
    layouts.perform(&mut tree, 0, v(20, 10));
    layouts.invalidate_measure(&tree, 2);
    assert!(layouts.views[2].measure_size.is_none());
    assert!(layouts.views[0].arrange_size.is_none());
    assert!(layouts.views[1].measure_size.is_some());
}

#[test]
fn invalidating_an_arrangement_keeps_measures() {
    let (mut tree, mut layouts) = sample();
    layouts.perform(&mut tree, 0, v(20, 10));
    layouts.invalidate_arrange(&tree, 2);
    assert!(layouts.views[2].arrange_size.is_none());
    assert!(layouts.views[0].arrange_size.is_none());
    assert!(layouts.views[2].measure_size.is_some());
    assert!(layouts.views[0].measure_size.is_some());
    assert!(layouts.views[1].arrange_size.is_some());
}

#[test]
fn collapsing_a_view_drops_the_measures_above_it() {
    let (mut tree, mut layouts) = sample();
    layouts.perform(&mut tree, 0, v(20, 10));
    tree.begin_frame(v(20, 10));
    layouts.set_visibility(&mut tree, 2, Visibility::Collapsed);
    assert_eq!(tree.nodes[2].visibility, Visibility::Collapsed);
    assert!(layouts.views[2].measure_size.is_none());
    assert!(layouts.views[0].measure_size.is_none());
    assert!(layouts.views[1].measure_size.is_some());
    assert_eq!(tree.invalidated_rect, rect(0, 0, 0, 0));
}

#[test]
fn hiding_a_view_marks_it_for_redrawing() {
    let (mut tree, mut layouts) = sample();
    layouts.perform(&mut tree, 0, v(20, 10));
    tree.begin_frame(v(20, 10));
    layouts.set_visibility(&mut tree, 2, Visibility::Hidden);
    assert_eq!(tree.nodes[2].visibility, Visibility::Hidden);
    assert!(layouts.views[2].measure_size.is_some());
    assert_eq!(tree.invalidated_rect, rect(0, 1, 5, 1));
    layouts.set_visibility(&mut tree, 2, Visibility::Hidden);
    assert_eq!(tree.invalidated_rect, rect(0, 1, 5, 1));
}

#[test]
fn moving_a_view_on_a_canvas_rearranges_its_parent() {
    let (mut tree, mut layouts) = sample();
    layouts.perform(&mut tree, 0, v(20, 10));
    layouts.set_canvas_tl(&tree, 2, Point { x: 3, y: 4 });
    assert_eq!(layouts.canvas_tl[2], Some(Point { x: 3, y: 4 }));
    assert!(layouts.views[0].arrange_size.is_none());
    assert!(layouts.views[0].measure_size.is_some());
    assert!(layouts.views[2].arrange_size.is_some());
}

#[test]
fn a_presenter_swaps_its_child() {
    let (mut tree, mut layouts) = sample();
    tree.nodes.push(Node::new());
    tree.children.push(vec![]);
    layouts.views.push(LayoutView::new(LAYOUT_STATIC_TEXT));
    layouts.kinds.push(LayoutKind::StaticText { text: "new".chars().collect(), align: TextAlign::Left, wrapping: TextWrapping::NoWrap });
    layouts.canvas_tl.push(None);
    layouts.perform(&mut tree, 0, v(20, 10));
    let mut cp = ContentPresenter::new();
    cp.actual_child = Some(2);
    assert!(layouts.update_presenter_child(&mut tree, 0, &mut cp, Some(3)));
    assert_eq!(tree.children[0], vec![1, 3]);
    assert_eq!(tree.nodes[2].parent, None);
    assert_eq!(tree.nodes[3].parent, Some(0));
    assert_eq!(cp.actual_child, Some(3));
    assert!(layouts.views[0].measure_size.is_none());
    assert!(!layouts.update_presenter_child(&mut tree, 0, &mut cp, Some(0)));
    assert_eq!(tree.children[0], vec![1]);
    assert_eq!(cp.actual_child, None);
}
