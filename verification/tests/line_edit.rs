use termx::line_edit::LineEdit;
use termx::text::text_width;

fn chars(s: &str) -> Vec<char> {
    s.chars().collect()
}

fn typed(width: i16, s: &str) -> LineEdit {
    let mut e = LineEdit::new();
    e.set_width(width);
    e.set_is_focused(true);
    for c in s.chars() {
        assert!(e.type_char(c));
    }
    e
}

#[test]
fn new_line_edit_is_empty() {
    let e = LineEdit::new();
    assert_eq!(e.text(), &Vec::<char>::new());
    assert!(!e.is_numeric());
    assert_eq!(e.width(), 0);
    assert!(e.render().is_none());
}

#[test]
fn typing_fills_the_view() {
    let e = typed(5, "abc");
    assert_eq!(e.text(), &chars("abc"));
    let r = e.render().unwrap();
    assert_eq!(r.text, chars("abc"));
    assert_eq!(r.text_start, 0);
    assert!(!r.left_ellipsis);
    assert!(!r.right_ellipsis);
    assert_eq!(r.cursor, Some(3));
}

#[test]
fn typing_past_the_width_scrolls() {
    let e = typed(5, "abcde");
    let r = e.render().unwrap();
    assert_eq!(r.text, chars("bcde"));
    assert_eq!(r.text_start, 0);
    assert!(r.left_ellipsis);
    assert!(!r.right_ellipsis);
    assert_eq!(r.cursor, Some(4));
}

#[test]
fn delete_after_type_restores_text() {
    let mut e = typed(5, "abcd");
    assert!(e.type_char('e'));
    assert!(e.delete_before_cursor());
    assert_eq!(e.text(), &chars("abcd"));
    let r = e.render().unwrap();
    assert_eq!(r.text, chars("abcd"));
    assert!(!r.left_ellipsis);
    assert_eq!(r.cursor, Some(4));
}

#[test]
fn nul_is_not_typed() {
    let mut e = typed(5, "a");
    assert!(!e.type_char('\0'));
    assert!(!e.type_char('\u{7}'));
    assert_eq!(e.text(), &chars("a"));
}

#[test]
fn zero_width_char_needs_a_base() {
    let mut e = typed(5, "");
    assert!(!e.type_char('\u{301}'));
    assert_eq!(e.text(), &Vec::<char>::new());
}

#[test]
fn cursor_moves_and_stops_at_the_ends() {
    let mut e = typed(10, "ab");
    assert!(!e.cursor_right());
    assert!(e.cursor_left());
    assert_eq!(e.render().unwrap().cursor, Some(1));
    assert!(e.cursor_right());
    assert_eq!(e.render().unwrap().cursor, Some(2));
    assert!(e.cursor_home());
    assert_eq!(e.render().unwrap().cursor, Some(0));
    assert!(!e.cursor_left());
    assert!(e.cursor_end());
    assert_eq!(e.render().unwrap().cursor, Some(2));
}

#[test]
fn left_then_right_comes_back() {
    let mut e = typed(10, "abc");
    e.cursor_left();
    e.cursor_left();
    let before = e.render().unwrap().cursor;
    assert!(e.cursor_left());
    assert!(e.cursor_right());
    assert_eq!(e.render().unwrap().cursor, before);
}

#[test]
fn delete_at_start_does_nothing() {
    let mut e = typed(10, "ab");
    e.cursor_home();
    assert!(!e.delete_before_cursor());
    assert_eq!(e.text(), &chars("ab"));
}

#[test]
fn delete_removes_grapheme_after_cursor_moves() {
    let mut e = typed(10, "ab");
    e.cursor_left();
    assert!(e.delete_before_cursor());
    assert_eq!(e.text(), &chars("b"));
}

#[test]
fn numeric_unfocused_aligns_right() {
    let mut e = LineEdit::new();
    e.set_width(6);
    e.set_is_numeric(true);
    let (_, changed) = e.change_text(|_t| (chars("42"), ()));
    assert!(changed);
    let r = e.render().unwrap();
    assert_eq!(r.text, chars("42"));
    assert_eq!(r.text_start, 4);
    assert_eq!(r.cursor, None);
}

#[test]
fn change_text_resets_view_to_the_start() {
    let mut e = LineEdit::new();
    e.set_width(3);
    let (n, _) = e.change_text(|_t| (chars("hello"), 5usize));
    assert_eq!(n, 5);
    let r = e.render().unwrap();
    assert_eq!(r.text, chars("hel"));
    assert!(!r.left_ellipsis);
    assert!(r.right_ellipsis);
    assert_eq!(r.text_start, 0);
}

#[test]
fn deleting_is_allowed_after_typing_and_on_an_empty_line() {
    let mut e = typed(5, "ab");
    assert!(e.delete_allowed());
    assert!(e.delete_before_cursor());
    assert!(e.delete_before_cursor());
    assert_eq!(e.text(), &Vec::<char>::new());
    assert!(LineEdit::new().delete_allowed());
}

#[test]
fn the_shown_text_fits_the_field() {
    for width in 1..8 {
        let mut e = typed(width, "a\u{4e2d}b\u{6587}cd\u{5b57}e");
        for _ in 0..4 {
            if let Some(r) = e.render() {
                assert!(text_width(&r.text) <= width);
            }
            e.cursor_left();
        }
        e.cursor_home();
        if let Some(r) = e.render() {
            assert!(text_width(&r.text) <= width);
        }
    }
}
