use termx::components::{FocusScope, InputElement, INPUT_BUTTON, INPUT_INPUT_LINE};
use termx::geom::{Point, Rect, Vector};
use termx::input::{Input, Key, Timer, BUTTON_PRESS_MS};
use termx::tree::{ButtonState, Node, VisualTree};

fn rect(x: i16, y: i16, w: i16, h: i16) -> Rect {
    Rect { tl: Point { x, y }, size: Vector { x: w, y: h } }
}

fn element(parent: usize, bounds: Rect, input: u16) -> Node {
    let mut n = Node::new();
    n.parent = Some(parent);
    n.focus_scope = Some(FocusScope::new());
    n.input_element = Some(InputElement::new(input));
    if input == INPUT_BUTTON {
        n.button = Some(ButtonState { pressed: false, is_mouse_pressed: false });
    }
    n.real_render_bounds = bounds;
    n.real_render_bounds_with_shadow = bounds;
    n
}

fn sample() -> VisualTree {
    let mut root = Node::new();
    root.focus_scope = Some(FocusScope::new());
    root.real_render_bounds = rect(0, 0, 80, 25);
    root.real_render_bounds_with_shadow = rect(0, 0, 80, 25);
    VisualTree {
        nodes: vec![
            root,
            element(0, rect(10, 5, 10, 1), INPUT_BUTTON),
            element(0, rect(10, 7, 10, 1), INPUT_INPUT_LINE),
        ],
        children: vec![vec![1, 2], vec![], vec![]],
        root: Some(0),
        focused: None,
        invalidated_rect: rect(0, 0, 0, 0),
        screen_rect: rect(0, 0, 80, 25),
    }
}

fn pressed(t: &VisualTree, e: usize) -> bool {
    t.nodes[e].button.unwrap().pressed
}

#[test]
fn enter_clicks_the_focused_button_and_a_timer_releases_it() {
    let mut t = sample();
    let mut input: Input<u32> = Input::new();
    assert!(input.is_idle());
    assert_eq!(input.key(&mut t, Key::Tab, 0), None);
    assert_eq!(t.focused, Some(1));
    assert_eq!(input.key(&mut t, Key::Enter, 0), Some(1));
    assert!(pressed(&t, 1));
    assert!(!input.is_idle());
    assert_eq!(input.timers[0].duration_ms, BUTTON_PRESS_MS);
    input.fire_timers(&mut t, &vec![Some(50)]);
    assert!(pressed(&t, 1));
    assert!(!input.is_idle());
    input.fire_timers(&mut t, &vec![Some(100)]);
    assert!(!pressed(&t, 1));
    assert!(input.is_idle());
}

#[test]
fn clicking_again_restarts_the_timer() {
    let mut t = sample();
    let mut input: Input<u32> = Input::new();
    t.focus(Some(1));
    input.key(&mut t, Key::Enter, 5);
    input.key(&mut t, Key::Enter, 9);
    assert_eq!(input.timers.len(), 1);
    assert_eq!(input.timers[0].start, 9);
    input.fire_timers(&mut t, &vec![None]);
    assert!(input.is_idle());
}

#[test]
fn other_keys_do_nothing() {
    let mut t = sample();
    let mut input: Input<u32> = Input::new();
    t.focus(Some(2));
    assert_eq!(input.key(&mut t, Key::Enter, 0), None);
    assert_eq!(input.key(&mut t, Key::Other, 0), None);
    assert_eq!(t.focused, Some(2));
    assert!(input.is_idle());
}

#[test]
fn mouse_down_and_up_on_a_button() {
    let mut t = sample();
    let mut input: Input<u32> = Input::new();
    assert_eq!(input.lmb_down(&mut t, Point { x: 12, y: 5 }), Some(1));
    assert_eq!(t.focused, Some(1));
    assert_eq!(input.click, Some((Some(1), Point { x: 22, y: 10 })));
    assert!(t.nodes[1].button.unwrap().is_mouse_pressed);
    assert_eq!(input.lmb_up(&mut t, Point { x: 50, y: 20 }, 0), None);
    assert_eq!(input.click, None);
    assert!(!t.nodes[1].button.unwrap().is_mouse_pressed);
    assert!(input.is_idle());
}

#[test]
fn mouse_up_without_a_held_click_clicks() {
    let mut t = sample();
    let mut input: Input<u32> = Input::new();
    assert_eq!(input.lmb_up(&mut t, Point { x: 12, y: 5 }, 3), Some(1));
    assert_eq!(t.focused, Some(1));
    assert!(pressed(&t, 1));
    assert_eq!(input.lmb_up(&mut t, Point { x: 12, y: 7 }, 3), None);
    assert_eq!(t.focused, Some(2));
    assert_eq!(input.lmb_down(&mut t, Point { x: 70, y: 20 }), None);
    assert_eq!(input.click, None);
}

#[test]
fn dropping_a_view_forgets_it() {
    let mut t = sample();
    let mut input: Input<u32> = Input::new();
    input.lmb_down(&mut t, Point { x: 12, y: 5 });
    input.key(&mut t, Key::Enter, 1);
    assert!(pressed(&t, 1));
    input.drop_entity(&mut t, 1);
    assert_eq!(t.focused, None);
    assert_eq!(input.click, Some((None, Point { x: 22, y: 10 })));
    assert!(input.is_idle());
    assert!(!pressed(&t, 1));
    input.lmb_up(&mut t, Point { x: 0, y: 0 }, 0);
    assert_eq!(input.click, None);
}

#[test]
fn well_formedness_and_fit_are_checked() {
    let mut t = sample();
    assert!(t.is_well_formed());
    let mut input: Input<u32> = Input::new();
    assert!(input.fits(&t));
    input.timers.push(Timer { entity: 2, start: 0, duration_ms: 10 });
    assert!(!input.fits(&t));
    input.timers.clear();
    input.timers.push(Timer { entity: 1, start: 0, duration_ms: 10 });
    input.timers.push(Timer { entity: 1, start: 0, duration_ms: 10 });
    assert!(!input.fits(&t));
    input.timers.pop();
    assert!(input.fits(&t));
    t.children[0].push(1);
    assert!(!t.is_well_formed());
    t.children[0].pop();
    t.nodes[0].parent = Some(1);
    t.children[1].push(0);
    assert!(!t.is_well_formed());
    t.children[1].pop();
    t.nodes[0].parent = None;
    t.focused = Some(0);
    assert!(!t.is_well_formed());
    t.focused = Some(1);
    assert!(t.is_well_formed());
}
