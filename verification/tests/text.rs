use termx::text::{char_width, label, label_width, text_width, TextAlign, ViewHAlign, ViewVAlign};
use termx::geom::{HAlign, VAlign};

fn chars(s: &str) -> Vec<char> {
    s.chars().collect()
}

#[test]
fn char_width_of_ascii_control_and_nul() {
    assert_eq!(char_width('a'), 1);
    assert_eq!(char_width('\0'), 0);
    assert_eq!(char_width('\u{7}'), 0);
    assert_eq!(char_width('\u{4E2D}'), 2);
}

#[test]
fn text_width_adds_widths() {
    assert_eq!(text_width(&chars("abc")), 3);
    assert_eq!(text_width(&chars("")), 0);
    assert_eq!(text_width(&chars("a\u{4E2D}b")), 4);
}

#[test]
fn label_width_skips_hotkey_marks() {
    assert_eq!(label_width(&chars("~F~ile")), 4);
    assert_eq!(label_width(&chars("OK")), 2);
    assert_eq!(label_width(&chars("a~~b")), 3);
    assert_eq!(label_width(&chars("")), 0);
}

#[test]
fn label_finds_hotkey_lowercased() {
    assert_eq!(label(&chars("~F~ile")), Some('f'));
    assert_eq!(label(&chars("E~x~it")), Some('x'));
    assert_eq!(label(&chars("OK")), None);
    assert_eq!(label(&chars("a~~b")), None);
}

#[test]
fn text_align_round_trips_through_h_align() {
    for a in [TextAlign::Left, TextAlign::Center, TextAlign::Right, TextAlign::Justify] {
        assert_eq!(TextAlign::from_h_align(a.to_h_align()), a);
    }
    assert_eq!(TextAlign::Justify.to_h_align(), None);
    assert_eq!(TextAlign::from_h_align(Some(HAlign::Center)), TextAlign::Center);
}

#[test]
fn view_aligns_round_trip() {
    for a in [ViewHAlign::Left, ViewHAlign::Center, ViewHAlign::Right, ViewHAlign::Stretch] {
        assert_eq!(ViewHAlign::from_h_align(a.to_h_align()), a);
    }
    for a in [ViewVAlign::Top, ViewVAlign::Center, ViewVAlign::Bottom, ViewVAlign::Stretch] {
        assert_eq!(ViewVAlign::from_v_align(a.to_v_align()), a);
    }
    assert_eq!(ViewVAlign::Stretch.to_v_align(), None);
    assert_eq!(ViewVAlign::from_v_align(Some(VAlign::Bottom)), ViewVAlign::Bottom);
}
