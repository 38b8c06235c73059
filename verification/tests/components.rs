use termx::components::{
    attach_to_parent, color_text, detach_from_parent, parse_color, string_is_empty, vec_is_empty,
    visibility_effects, Background, Bg, Button, Color, ColorError, ContentPresenter, Fg, FocusScope,
    GroupBox, PresenterChild, TextUpdate, t_button_pressed_look,
};
use termx::geom::{Thickness, Vector};
use termx::layout::{ArrangeStep, LayoutView, MeasureStep, LAYOUT_BACKGROUND};
use termx::text::{TextAlign, TextWrapping, ViewHAlign, ViewVAlign, Visibility};

fn chars(s: &str) -> Vec<char> {
    s.chars().collect()
}

#[test]
fn create_view_perform_layout_change_property() {
    let mut bg = Background::new();
    let mut lv = LayoutView::new(LAYOUT_BACKGROUND);
    if let MeasureStep::Measure(w, h) = lv.measure_begin(Some(80), Some(25), false) {
        lv.measure_end(Some(80), Some(25), Vector { x: w.unwrap(), y: h.unwrap() });
    }
    assert!(matches!(lv.arrange_begin(Vector { x: 80, y: 25 }), ArrangeStep::Arrange(_)));
    bg.pattern = chars("x");
    assert_eq!(bg.pattern.iter().collect::<String>(), "x");
}

#[test]
fn create_background_with_template() {
    let mut bg = Background::new();
    bg.pattern = chars("x");
    let mut lv = LayoutView::new(LAYOUT_BACKGROUND);
    lv.width = Some(20);
    assert_eq!(bg.pattern.iter().collect::<String>(), "x");
    assert_eq!(lv.width, Some(20));
}

#[test]
fn background_defaults() {
    let bg = Background::new();
    assert_eq!(bg.pattern, vec!['\u{2591}']);
    assert_eq!(bg.color, Color { fg: Fg::LightGray, bg: Bg::Black });
    assert!(!bg.fit_to_content);
}

#[test]
fn color_text_round_trip() {
    let c = Color { fg: Fg::BrightCyan, bg: Bg::Transparent };
    assert_eq!(color_text(Some(c)), chars("BrightCyan/None"));
    assert_eq!(parse_color(&chars("BrightCyan/None")), Ok(Some(c)));
    assert_eq!(parse_color(&chars("Black/Green")), Ok(Some(Color { fg: Fg::Black, bg: Bg::Green })));
    assert_eq!(color_text(None), Vec::<char>::new());
    assert_eq!(parse_color(&chars("")), Ok(None));
}

#[test]
fn bad_color_text_is_refused() {
    assert_eq!(parse_color(&chars("Black")), Err(ColorError::InvalidColor));
    assert_eq!(parse_color(&chars("Black/Green/Red")), Err(ColorError::InvalidColor));
    assert_eq!(parse_color(&chars("Pink/Green")), Err(ColorError::InvalidColor));
    assert_eq!(parse_color(&chars("Black/White")), Err(ColorError::InvalidColor));
    assert_eq!(parse_color(&chars("/")), Err(ColorError::InvalidColor));
}

#[test]
fn focus_scope_enabling() {
    let mut fs = FocusScope::new();
    assert!(fs.is_enabled());
    assert_eq!(fs.tab_index, 127);
    assert!(fs.set_is_enabled(false));
    assert!(!fs.is_enabled());
    assert!(!fs.parent_enabled_changed(false));
    assert!(fs.parent_is_enabled);
    fs.set_is_enabled(true);
    assert!(fs.parent_enabled_changed(false));
    assert!(!fs.is_enabled());
}

#[test]
fn attaching_under_disabled_parent() {
    let mut child = Some(FocusScope::new());
    assert!(attach_to_parent(&mut child, false));
    assert!(!child.unwrap().parent_is_enabled);
    assert!(detach_from_parent(&mut child, false));
    assert!(child.unwrap().parent_is_enabled);
    assert!(!attach_to_parent(&mut child, true));
    let mut none: Option<FocusScope> = None;
    assert!(!attach_to_parent(&mut none, false));
}

#[test]
fn visibility_changes() {
    assert_eq!(visibility_effects(Visibility::Visible, Visibility::Hidden), (false, true));
    assert_eq!(visibility_effects(Visibility::Visible, Visibility::Collapsed), (true, false));
    assert_eq!(visibility_effects(Visibility::Collapsed, Visibility::Hidden), (true, false));
    assert_eq!(visibility_effects(Visibility::Hidden, Visibility::Hidden), (false, false));
}

#[test]
fn content_presenter_child_and_text() {
    let mut cp = ContentPresenter::new();
    assert_eq!(cp.new_child(), PresenterChild::Empty);
    assert_eq!(cp.set_text(chars("hi")), TextUpdate::Rebuild);
    assert_eq!(cp.new_child(), PresenterChild::Text);
    cp.actual_child = Some(7);
    assert_eq!(cp.set_text(chars("ho")), TextUpdate::SetChildText(7));
    assert_eq!(cp.set_text(chars("")), TextUpdate::Rebuild);
    assert_eq!(cp.styled_child(), Some(7));
    cp.content = Some(3);
    assert_eq!(cp.new_child(), PresenterChild::Content(3));
    assert_eq!(cp.set_text(chars("x")), TextUpdate::Nothing);
    assert_eq!(cp.styled_child(), None);
}

#[test]
fn button_press_look() {
    let mut b = Button::new();
    assert!(!b.is_pressed());
    b.is_mouse_pressed = true;
    assert!(b.is_pressed());
    assert_eq!(t_button_pressed_look(true), (Thickness::all(0), Vector { x: 1, y: 0 }));
    assert_eq!(t_button_pressed_look(false), (Thickness::new(0, 0, 1, 1), Vector { x: 0, y: 0 }));
}

#[test]
fn emptiness_helpers() {
    assert!(string_is_empty(&Vec::new()));
    assert!(!string_is_empty(&chars("a")));
    assert!(vec_is_empty::<u8>(&Vec::new()));
    assert!(!vec_is_empty(&vec![1u8]));
}

#[test]
fn group_box_parts_take_the_box_properties() {
    let mut g = GroupBox::new();
    g.double = true;
    g.color = Color { fg: Fg::Yellow, bg: Bg::Blue };
    g.header_align = ViewHAlign::Center;
    g.text = chars("body");
    g.text_color = Color { fg: Fg::White, bg: Bg::Black };
    g.header_text = chars("Title");
    let p = g.parts();
    assert!(p.border.double);
    assert_eq!(p.border.color, g.color);
    assert_eq!(p.border_tab_index, 1);
    assert_eq!(p.content_presenter.text, chars("body"));
    assert_eq!(p.content_presenter.text_color, g.text_color);
    assert_eq!(p.content_presenter.text_wrapping, TextWrapping::Wrap);
    assert!(p.header_background.fit_to_content);
    assert_eq!(p.header_background.color, g.color);
    assert_eq!(p.header_background_tab_index, 0);
    assert_eq!(p.header_background_margin, Thickness { l: 1, t: 0, r: 1, b: 0 });
    assert_eq!(p.header_background_h_align, ViewHAlign::Center);
    assert_eq!(p.header_presenter.text, chars("Title"));
    assert_eq!(p.header_presenter.text_color, g.color);
    assert_eq!(p.header_presenter_v_align, ViewVAlign::Top);
}

#[test]
fn a_presenter_text_child_carries_its_text_style() {
    let mut cp = ContentPresenter::new();
    cp.text = chars("hi");
    cp.text_color = Color { fg: Fg::Red, bg: Bg::Black };
    cp.text_wrapping = TextWrapping::Wrap;
    let st = cp.text_child();
    assert_eq!(st.text, chars("hi"));
    assert_eq!(st.color, cp.text_color);
    assert_eq!(st.text_wrapping, TextWrapping::Wrap);
    assert_eq!(st.text_align, TextAlign::Left);
}

#[test]
fn group_box_properties_reach_its_parts() {
    let mut g = GroupBox::new();
    let mut p = g.parts();
    g.double = true;
    g.color = Color { fg: Fg::Cyan, bg: Bg::Blue };
    g.header_align = ViewHAlign::Right;
    g.text = chars("t");
    g.text_color = Color { fg: Fg::White, bg: Bg::Blue };
    g.content = Some(7);
    g.header = Some(8);
    g.header_text = chars("h");
    g.sync_parts(&mut p);
    assert!(p.border.double);
    assert_eq!(p.border.color, g.color);
    assert_eq!(p.header_background.color, g.color);
    assert_eq!(p.header_background_h_align, ViewHAlign::Right);
    assert_eq!(p.content_presenter.content, Some(7));
    assert_eq!(p.content_presenter.text, chars("t"));
    assert_eq!(p.content_presenter.text_color, g.text_color);
    assert_eq!(p.content_presenter.text_wrapping, TextWrapping::Wrap);
    assert_eq!(p.header_presenter.content, Some(8));
    assert_eq!(p.header_presenter.text, chars("h"));
    assert_eq!(p.header_presenter.text_color, g.color);
    g.set_parts(3, 5, 4, 6);
    assert_eq!(g.part_border, Some(3));
    assert_eq!(g.part_header_presenter, Some(6));
}
