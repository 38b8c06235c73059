use termx::geom::{HAlign, Point, Range1d, Rect, Vector};
use termx::text::TextWrapping;
use termx::text_renderer::{render_line, render_text, split_words, wrap, Draw, Run};

fn chars(s: &str) -> Vec<char> {
    s.chars().collect()
}

fn rect(x: i16, y: i16, w: i16, h: i16) -> Rect {
    Rect { tl: Point { x, y }, size: Vector { x: w, y: h } }
}

fn draw(x: i16, y: i16, start: usize, end: usize) -> Draw {
    Draw { p: Point { x, y }, start, end }
}

fn run(space: bool, start: usize, end: usize, width: i16) -> Run {
    Run { space, start, end, width }
}

#[test]
fn one_line_left() {
    let mut draws = Vec::new();
    let r = render_text(&mut draws, rect(0, 0, 10, 3), Some(HAlign::Left), TextWrapping::NoWrap, &chars("ab cd"));
    assert_eq!(r, rect(0, 0, 5, 1));
    assert_eq!(draws, vec![draw(0, 0, 0, 2), draw(3, 0, 3, 5)]);
}

#[test]
fn wrapped_lines() {
    let mut draws = Vec::new();
    let r = render_text(&mut draws, rect(0, 0, 3, 3), Some(HAlign::Left), TextWrapping::Wrap, &chars("ab cd"));
    assert_eq!(r, rect(0, 0, 2, 2));
    assert_eq!(draws, vec![draw(0, 0, 0, 2), draw(0, 1, 3, 5)]);
}

#[test]
fn right_and_center_lines() {
    let line = vec![run(false, 0, 2, 2), run(true, 3, 5, 2)];
    let mut draws = Vec::new();
    let range = render_line(&mut draws, rect(0, 0, 10, 1), Some(HAlign::Right), &line);
    assert_eq!(range, Range1d { start: 5, end: 10 });
    assert_eq!(draws, vec![draw(8, 0, 3, 5), draw(5, 0, 0, 2)]);
    let mut draws = Vec::new();
    let range = render_line(&mut draws, rect(0, 0, 10, 1), Some(HAlign::Center), &line);
    assert_eq!(range, Range1d { start: 2, end: 7 });
    assert_eq!(draws, vec![draw(2, 0, 0, 2), draw(5, 0, 3, 5)]);
}

#[test]
fn justified_line_spreads_words() {
    let line = vec![run(false, 0, 2, 2), run(true, 3, 5, 2), run(true, 6, 8, 2)];
    let mut draws = Vec::new();
    let range = render_line(&mut draws, rect(0, 0, 10, 1), None, &line);
    assert_eq!(range, Range1d { start: 0, end: 10 });
    assert_eq!(draws, vec![draw(0, 0, 0, 2), draw(4, 0, 3, 5), draw(8, 0, 6, 8)]);
}

#[test]
fn justified_single_word_is_left() {
    let line = vec![run(false, 0, 2, 2)];
    let mut draws = Vec::new();
    let range = render_line(&mut draws, rect(1, 0, 10, 1), None, &line);
    assert_eq!(range, Range1d { start: 1, end: 3 });
    assert_eq!(draws, vec![draw(1, 0, 0, 2)]);
}

#[test]
fn wrap_breaks_before_a_run_that_does_not_fit() {
    let runs = vec![run(false, 0, 2, 2), run(true, 3, 5, 2), run(true, 6, 7, 1)];
    let lines = wrap(rect(0, 0, 4, 5), &runs);
    assert_eq!(lines, vec![vec![run(false, 0, 2, 2)], vec![run(false, 3, 5, 2), run(true, 6, 7, 1)]]);
}

#[test]
fn wrap_stops_at_the_bottom() {
    let runs = vec![run(false, 0, 2, 2), run(true, 3, 5, 2), run(true, 6, 8, 2)];
    let lines = wrap(rect(0, 0, 2, 2), &runs);
    assert_eq!(lines, vec![vec![run(false, 0, 2, 2)], vec![run(false, 3, 5, 2)]]);
}

#[test]
fn words_keep_outer_spaces() {
    assert_eq!(split_words(&chars(" ab  cd "), 0, 8), vec![(0, 3), (5, 8)]);
    assert_eq!(split_words(&chars("   "), 0, 3), vec![(0, 3)]);
}

#[test]
fn empty_text_takes_one_row() {
    let mut draws = Vec::new();
    let r = render_text(&mut draws, rect(2, 3, 10, 3), Some(HAlign::Left), TextWrapping::Wrap, &chars(""));
    assert_eq!(r, rect(2, 3, 0, 1));
    assert!(draws.is_empty());
}

#[test]
fn two_blocks_stack() {
    let mut draws = Vec::new();
    let r = render_text(&mut draws, rect(0, 0, 10, 3), Some(HAlign::Left), TextWrapping::NoWrap, &chars("abc\nd"));
    assert_eq!(r, rect(0, 0, 3, 2));
    assert_eq!(draws, vec![draw(0, 0, 0, 3), draw(0, 1, 4, 5)]);
}
