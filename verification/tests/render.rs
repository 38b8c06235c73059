use termx::components::{Bg, Color, Fg, FocusScope, MButton, TButton};
use termx::geom::{Point, Rect, Vector};
use termx::render::{border_draw, m_button_draw, t_button_colors, t_button_draw, text_overflows, ButtonShadow, Paint};
use termx::text::Visibility;
use termx::tree::{Node, VisualTree};

fn rect(x: i16, y: i16, w: i16, h: i16) -> Rect {
    Rect { tl: Point { x, y }, size: Vector { x: w, y: h } }
}

fn chars(s: &str) -> Vec<char> {
    s.chars().collect()
}

#[test]
fn button_colors_follow_state() {
    let t = TButton::new();
    assert_eq!(t_button_colors(&t, false, true), (t.color_disabled, t.color_disabled));
    assert_eq!(t_button_colors(&t, true, true), (t.color_focused, t.color_focused_hotkey));
    assert_eq!(t_button_colors(&t, true, false), (t.color, t.color_hotkey));
    assert_eq!(t.color, Color { fg: Fg::Black, bg: Bg::Green });
}

#[test]
fn released_button_has_a_shadow() {
    let t = TButton::new();
    let d = t_button_draw(&t, &chars("~O~K"), true, false, false, rect(0, 0, 6, 2));
    assert_eq!(d.fill, rect(0, 0, 5, 1));
    assert_eq!(d.label, rect(1, 0, 2, 1));
    assert_eq!(
        d.shadow,
        Some(ButtonShadow { bottom: rect(1, 1, 5, 1), right: rect(5, 1, 1, 0), corner: Point { x: 5, y: 0 } })
    );
}

#[test]
fn pressed_button_fills_its_area() {
    let t = TButton::new();
    let d = t_button_draw(&t, &chars("~O~K"), true, true, true, rect(0, 0, 6, 1));
    assert_eq!(d.fill, rect(0, 0, 6, 1));
    assert_eq!(d.label, rect(2, 0, 2, 1));
    assert_eq!(d.color, t.color_focused);
    assert_eq!(d.shadow, None);
}

#[test]
fn overflow_is_wider_or_higher() {
    assert!(text_overflows(rect(0, 0, 6, 1), rect(0, 0, 5, 1)));
    assert!(text_overflows(rect(0, 0, 5, 2), rect(0, 0, 5, 1)));
    assert!(!text_overflows(rect(0, 0, 5, 1), rect(0, 0, 5, 1)));
}

#[test]
fn border_corners() {
    let b = border_draw(rect(1, 1, 4, 3));
    assert_eq!(b.tl, Point { x: 1, y: 1 });
    assert_eq!(b.tr, Point { x: 4, y: 1 });
    assert_eq!(b.br, Point { x: 4, y: 3 });
    assert_eq!(b.bl, Point { x: 1, y: 3 });
    assert_eq!((b.width, b.height), (4, 3));
}

fn sample() -> VisualTree {
    let mut root = Node::new();
    root.focus_scope = Some(FocusScope::new());
    root.real_render_bounds = rect(0, 0, 80, 25);
    root.real_render_bounds_with_shadow = rect(0, 0, 80, 25);
    let mut a = Node::new();
    a.parent = Some(0);
    a.real_render_bounds = rect(10, 5, 10, 1);
    a.real_render_bounds_with_shadow = rect(10, 5, 11, 2);
    let mut b = Node::new();
    b.parent = Some(0);
    b.visibility = Visibility::Hidden;
    b.real_render_bounds = rect(10, 7, 10, 1);
    b.real_render_bounds_with_shadow = rect(10, 7, 10, 1);
    VisualTree {
        nodes: vec![root, a, b],
        children: vec![vec![1, 2], vec![], vec![]],
        root: Some(0),
        focused: None,
        invalidated_rect: rect(0, 0, 0, 0),
        screen_rect: rect(0, 0, 0, 0),
    }
}

#[test]
fn a_new_screen_is_painted_whole() {
    let mut t = sample();
    let inv = t.begin_frame(Vector { x: 80, y: 25 });
    assert_eq!(inv, rect(0, 0, 80, 25));
    let plan = t.paint_plan(inv);
    assert_eq!(
        plan,
        vec![
            Paint { entity: 0, bounds: rect(0, 0, 80, 25), offset: Vector { x: 0, y: 0 }, size: Vector { x: 80, y: 25 } },
            Paint { entity: 1, bounds: rect(10, 5, 11, 2), offset: Vector { x: 10, y: 5 }, size: Vector { x: 11, y: 2 } },
        ]
    );
    let inv = t.begin_frame(Vector { x: 80, y: 25 });
    assert_eq!(inv, rect(0, 0, 0, 0));
    assert!(t.paint_plan(inv).is_empty());
}

#[test]
fn only_what_was_marked_is_painted() {
    let mut t = sample();
    t.begin_frame(Vector { x: 80, y: 25 });
    t.invalidate_render(1);
    let inv = t.begin_frame(Vector { x: 80, y: 25 });
    assert_eq!(inv, rect(10, 5, 11, 2));
    let plan = t.paint_plan(rect(30, 20, 2, 2));
    assert_eq!(plan.len(), 1);
    assert_eq!(plan[0].entity, 0);
}

#[test]
fn menu_button_is_bracketed_and_colored_by_state() {
    let c = |fg| Color { fg, bg: Bg::Blue };
    let m = MButton {
        color: c(Fg::White),
        color_hotkey: c(Fg::Yellow),
        color_focused: c(Fg::Black),
        color_focused_hotkey: c(Fg::Red),
        color_pressed: c(Fg::Green),
        color_disabled: c(Fg::DarkGray),
    };
    let d = m_button_draw(&m, &chars("~O~K"), true, false, false, rect(0, 0, 10, 1));
    assert_eq!(d.fill, rect(0, 0, 10, 1));
    assert_eq!(d.label, rect(4, 0, 2, 1));
    assert_eq!(d.open_bracket, Point { x: 0, y: 0 });
    assert_eq!(d.close_bracket, Point { x: 9, y: 0 });
    assert_eq!((d.color, d.color_hotkey), (c(Fg::White), c(Fg::Yellow)));
    let d = m_button_draw(&m, &chars("~O~K"), true, true, false, rect(0, 0, 10, 1));
    assert_eq!((d.color, d.color_hotkey), (c(Fg::Black), c(Fg::Red)));
    let d = m_button_draw(&m, &chars("~O~K"), true, true, true, rect(0, 0, 10, 1));
    assert_eq!((d.color, d.color_hotkey), (c(Fg::Green), c(Fg::Green)));
    let d = m_button_draw(&m, &chars("~O~K"), false, true, true, rect(0, 0, 10, 1));
    assert_eq!((d.color, d.color_hotkey), (c(Fg::DarkGray), c(Fg::DarkGray)));
}
