use termx::components::{FocusScope, InputElement, INPUT_BUTTON, RENDER_T_BUTTON};
use termx::geom::{Point, Rect, Thickness, Vector};
use termx::text::Visibility;
use termx::tree::{ButtonState, Node, VisualTree, GroupBoxViews};

fn rect(x: i16, y: i16, w: i16, h: i16) -> Rect {
    Rect { tl: Point { x, y }, size: Vector { x: w, y: h } }
}

fn button(parent: usize, bounds: Rect) -> Node {
    let mut n = Node::new();
    n.parent = Some(parent);
    n.focus_scope = Some(FocusScope::new());
    n.input_element = Some(InputElement::new(INPUT_BUTTON));
    n.button = Some(ButtonState { pressed: false, is_mouse_pressed: false });
    n.real_render_bounds = bounds;
    n.real_render_bounds_with_shadow = bounds;
    n
}

/// A root filling the screen with two buttons, one under the other.
fn sample() -> VisualTree {
    let mut root = Node::new();
    root.focus_scope = Some(FocusScope::new());
    root.real_render_bounds = rect(0, 0, 80, 25);
    root.real_render_bounds_with_shadow = rect(0, 0, 80, 25);
    VisualTree {
        nodes: vec![root, button(0, rect(10, 5, 10, 1)), button(0, rect(10, 7, 10, 1))],
        children: vec![vec![1, 2], vec![], vec![]],
        root: Some(0),
        focused: None,
        invalidated_rect: rect(0, 0, 0, 0),
        screen_rect: rect(0, 0, 80, 25),
    }
}

#[test]
fn views_below_the_root_are_in_the_tree() {
    let t = sample();
    assert!(t.in_tree(0));
    assert!(t.in_tree(2));
    assert!(t.is_within(2, 0));
    assert!(!t.is_within(1, 2));
    let mut t2 = sample();
    t2.root = Some(1);
    t2.nodes[1].parent = None;
    t2.children[0] = vec![2];
    assert!(!t2.in_tree(2));
}

#[test]
fn points_and_hits() {
    let t = sample();
    assert_eq!(t.point_from_screen(1, Point { x: 0, y: 0 }), Point { x: 10, y: 5 });
    assert_eq!(t.hit_test_input_element(Point { x: 12, y: 5 }), Some(1));
    assert_eq!(t.hit_test_input_element(Point { x: 19, y: 7 }), Some(2));
    assert_eq!(t.hit_test_input_element(Point { x: 20, y: 7 }), None);
    assert_eq!(t.hit_test_input_element(Point { x: 90, y: 7 }), None);
}

#[test]
fn hidden_or_disabled_views_are_not_hit() {
    let mut t = sample();
    t.nodes[1].visibility = Visibility::Hidden;
    assert_eq!(t.hit_test_input_element(Point { x: 12, y: 5 }), None);
    let mut t = sample();
    t.set_is_enabled(2, false);
    assert_eq!(t.hit_test_input_element(Point { x: 12, y: 7 }), None);
    assert!(!t.nodes[2].focus_scope.unwrap().is_enabled());
}

#[test]
fn tab_walks_the_buttons_in_order() {
    let mut t = sample();
    assert!(t.can_walk_focus());
    t.focus_next();
    assert_eq!(t.focused, Some(1));
    assert!(t.nodes[1].input_element.unwrap().is_focused);
    t.focus_next();
    assert_eq!(t.focused, Some(2));
    assert!(!t.nodes[1].input_element.unwrap().is_focused);
    t.focus_next();
    assert_eq!(t.focused, Some(1));
    t.focus_prev();
    assert_eq!(t.focused, Some(2));
}

#[test]
fn tab_index_orders_the_walk() {
    let mut t = sample();
    t.nodes[2].focus_scope = Some(FocusScope { tab_index: 1, ..FocusScope::new() });
    t.focus_next();
    assert_eq!(t.focused, Some(2));
    t.focus_next();
    assert_eq!(t.focused, Some(1));
}

#[test]
fn disabled_buttons_are_skipped() {
    let mut t = sample();
    t.set_is_enabled(1, false);
    t.focus_next();
    assert_eq!(t.focused, Some(2));
    t.focus_next();
    assert_eq!(t.focused, Some(2));
}

#[test]
fn focus_marks_and_redraws() {
    let mut t = sample();
    t.focus(Some(1));
    assert_eq!(t.focused, Some(1));
    assert_eq!(t.invalidated_rect, rect(10, 5, 10, 1));
    t.focus(Some(2));
    assert_eq!(t.invalidated_rect, rect(10, 5, 10, 3));
    t.set_is_enabled(1, false);
    t.focus(Some(1));
    assert_eq!(t.focused, Some(2));
    t.focus(None);
    assert_eq!(t.focused, None);
    assert!(!t.nodes[2].input_element.unwrap().is_focused);
}

#[test]
fn disabling_the_root_reaches_enabled_children() {
    let mut t = sample();
    t.nodes[0].focus_scope = Some(FocusScope::new());
    t.set_is_enabled(1, false);
    t.set_is_enabled(0, false);
    assert!(!t.nodes[2].focus_scope.unwrap().parent_is_enabled);
    assert!(t.nodes[1].focus_scope.unwrap().parent_is_enabled);
    t.set_is_enabled(0, true);
    assert!(t.nodes[2].focus_scope.unwrap().is_enabled());
    assert!(!t.nodes[1].focus_scope.unwrap().is_enabled());
}

#[test]
fn shadowed_button_moves_when_pressed() {
    let mut t = sample();
    t.nodes[1].render = RENDER_T_BUTTON;
    t.nodes[1].button = Some(ButtonState { pressed: true, is_mouse_pressed: false });
    t.button_is_pressed_changed(1);
    assert_eq!(t.nodes[1].visual_offset, Vector { x: 1, y: 0 });
    assert_eq!(t.nodes[1].shadow, Thickness::all(0));
    t.nodes[1].button = Some(ButtonState { pressed: false, is_mouse_pressed: false });
    t.button_is_pressed_changed(1);
    assert_eq!(t.nodes[1].visual_offset, Vector { x: 0, y: 0 });
    assert_eq!(t.nodes[1].real_render_bounds_with_shadow, rect(10, 5, 11, 2));
}

#[test]
fn setting_the_root_redraws_it() {
    let mut t = sample();
    t.root = None;
    t.set_root(Some(0));
    assert_eq!(t.invalidated_rect, rect(0, 0, 80, 25));
    t.focus(Some(1));
    t.set_root(None);
    assert_eq!(t.focused, None);
}

fn loose(n: usize) -> VisualTree {
    let mut root = Node::new();
    root.focus_scope = Some(FocusScope::new());
    root.real_render_bounds = rect(0, 0, 80, 25);
    root.real_render_bounds_with_shadow = rect(0, 0, 80, 25);
    let mut nodes = vec![root];
    let mut children = vec![vec![]];
    for i in 1 .. n {
        let mut b = button(0, rect(0, i as i16, 5, 1));
        b.parent = None;
        nodes.push(b);
        children.push(vec![]);
    }
    VisualTree {
        nodes,
        children,
        root: Some(0),
        focused: None,
        invalidated_rect: rect(0, 0, 0, 0),
        screen_rect: rect(0, 0, 80, 25),
    }
}

#[test]
fn children_are_put_in_and_taken_out() {
    let mut t = loose(4);
    assert!(t.can_adopt(0, 1));
    t.add_child(0, 1);
    t.add_child(1, 2);
    assert_eq!(t.children[0], vec![1]);
    assert_eq!(t.nodes[2].parent, Some(1));
    assert!(t.in_tree(2));
    assert!(!t.can_adopt(2, 1));
    assert!(!t.can_adopt(2, 0));
    assert!(!t.can_adopt(0, 2));
    t.remove_child(1, 0);
    assert_eq!(t.nodes[2].parent, None);
    assert!(t.children[1].is_empty());
    assert!(!t.in_tree(2));
}

#[test]
fn a_disabled_parent_disables_new_children() {
    let mut t = loose(3);
    t.set_is_enabled(0, false);
    t.add_child(0, 1);
    assert!(!t.nodes[1].focus_scope.unwrap().is_enabled());
    t.remove_child(0, 0);
    assert!(t.nodes[1].focus_scope.unwrap().is_enabled());
}

#[test]
fn set_children_replaces_in_order() {
    let mut t = loose(5);
    assert!(t.set_children(0, &vec![1, 2]));
    assert!(t.set_children(0, &vec![3, 1]));
    assert_eq!(t.children[0], vec![3, 1]);
    assert_eq!(t.nodes[2].parent, None);
    assert_eq!(t.nodes[3].parent, Some(0));
    assert!(!t.set_children(0, &vec![4, 0]));
    assert_eq!(t.children[0], vec![4]);
}

#[test]
fn adding_then_removing_a_child_restores_it() {
    let mut t = loose(4);
    t.add_child(0, 1);
    t.set_is_enabled(0, false);
    let before = t.nodes[2];
    let kids = t.children.clone();
    t.add_child(0, 2);
    assert!(!t.nodes[2].focus_scope.unwrap().is_enabled());
    t.remove_child(0, 1);
    assert_eq!(t.children, kids);
    assert_eq!(t.nodes[2], before);
}

#[test]
fn a_group_box_is_built_from_its_parts() {
    let mut t = loose(7);
    let v = GroupBoxViews { adorners: 2, border: 3, content_presenter: 4, header_background: 5, header_presenter: 6 };
    assert!(t.assemble_group_box(1, v));
    assert_eq!(t.children[3], vec![4]);
    assert_eq!(t.children[5], vec![6]);
    assert_eq!(t.children[2], vec![3, 5]);
    assert_eq!(t.children[1], vec![2]);
    assert_eq!(t.nodes[2].parent, Some(1));
    assert!(t.is_well_formed());
    let mut u = loose(7);
    let w = GroupBoxViews { adorners: 2, border: 3, content_presenter: 4, header_background: 5, header_presenter: 0 };
    assert!(!u.assemble_group_box(1, w));
    assert_eq!(u.children[3], vec![4]);
    assert!(u.children[5].is_empty());
    assert!(u.children[2].is_empty());
}
