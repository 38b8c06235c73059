//! Laying out text in a rectangle: splitting it into words, wrapping the
//! words into lines, and placing each line by its alignment.
//!
//! Text is a vector of `char`s; runs and drawn pieces name ranges of it.
use vstd::prelude::*;
use crate::geom::{
    u16v, wadd, wsub, umin, umax, min_u, max_u, Point, Rect, Range1d, Vector, HAlign, spec_r, spec_b,
    spec_range_union, spec_from_ranges, spec_from_tl_br, spec_h_range, lemma_as_u16, lemma_as_i16,
};
use crate::text::{
    TextWrapping, Grapheme, spec_graphemes, graphemes, spec_text_width, text_width_range,
};

verus! {

/// A word or a piece of one: the characters `start .. end`, shown `width`
/// columns wide, with a space before it when `space` holds.
#[derive(Clone, Copy, PartialEq, Eq, Debug, Structural)]
pub struct Run {
    pub space: bool,
    pub start: usize,
    pub end: usize,
    pub width: i16,
}

/// The characters `start .. end` of the text, drawn at `p`.
#[derive(Clone, Copy, PartialEq, Eq, Debug, Structural)]
pub struct Draw {
    pub p: Point,
    pub start: usize,
    pub end: usize,
}

pub open spec fn sp(r: Run) -> i16 {
    if r.space { 1 } else { 0 }
}

/// Left alignment: the column after run `k - 1` (runs `0 .. k` placed
/// from `l`, each after its space).
pub open spec fn left_x(line: Seq<Run>, l: i16, k: int) -> i16
    decreases k,
{
    if k <= 0 {
        l
    } else {
        wadd(wadd(left_x(line, l, k - 1), sp(line[k - 1])), line[k - 1].width)
    }
}

/// Right alignment: the column where runs `k ..` begin (their spaces
/// included), placed to end at `r`.
pub open spec fn right_x(line: Seq<Run>, r: i16, k: int) -> i16
    decreases line.len() - k,
{
    if k >= line.len() || k < 0 {
        r
    } else {
        wsub(wsub(right_x(line, r, k + 1), line[k].width), sp(line[k]))
    }
}

/// The width of runs `0 .. k` with their spaces.
pub open spec fn line_width(line: Seq<Run>, k: int) -> i16
    decreases k,
{
    if k <= 0 {
        0
    } else {
        wadd(line_width(line, k - 1), wadd(sp(line[k - 1]), line[k - 1].width))
    }
}

/// The width of runs `0 .. k` without their spaces.
pub open spec fn runs_width(line: Seq<Run>, k: int) -> i16
    decreases k,
{
    if k <= 0 {
        0
    } else {
        wadd(runs_width(line, k - 1), line[k - 1].width)
    }
}

/// The number of runs among `0 .. k` that follow a space.
pub open spec fn space_count(line: Seq<Run>, k: int) -> int
    decreases k,
{
    if k <= 0 {
        0
    } else {
        space_count(line, k - 1) + if line[k - 1].space { 1int } else { 0int }
    }
}

pub open spec fn sat_sub(a: int, b: int) -> int {
    if a >= b { a - b } else { 0 }
}

/// Justified text: the free columns, spread over the spaces.
pub open spec fn free_columns(line: Seq<Run>, w: i16) -> int {
    sat_sub(u16v(w), u16v(runs_width(line, line.len() as int)))
}

/// Justified text: the columns before run `k`.
pub open spec fn gap(line: Seq<Run>, w: i16, k: int) -> int {
    let cnt = space_count(line, line.len() as int);
    let spaces = free_columns(line, w);
    let per = if spaces / cnt < 1 { spaces / cnt } else { 1 };
    let head = sat_sub(spaces, per * cnt);
    if k == 0 || !line[k].space {
        0
    } else if k <= head {
        per + 1
    } else {
        per
    }
}

/// Justified text: the column of run `k`.
pub open spec fn just_x(line: Seq<Run>, l: i16, w: i16, k: int) -> i16
    decreases k,
{
    if k <= 0 {
        l
    } else {
        wadd(wadd(just_x(line, l, w, k - 1), line[k - 1].width), gap(line, w, k) as i16)
    }
}

/// Runs placed one after another from `l`, without spaces.
pub open spec fn packed_x(line: Seq<Run>, l: i16, k: int) -> i16
    decreases k,
{
    if k <= 0 {
        l
    } else {
        wadd(packed_x(line, l, k - 1), line[k - 1].width)
    }
}

/// Centered text: the first column.
pub open spec fn center_start(line: Seq<Run>, b: Rect) -> i16 {
    wadd(b.tl.x, (sat_sub(u16v(b.size.x), u16v(line_width(line, line.len() as int))) / 2) as i16)
}

/// The column at which run `k` of a line is drawn.
pub open spec fn run_x(line: Seq<Run>, b: Rect, align: Option<HAlign>, k: int) -> i16 {
    match align {
        Some(HAlign::Left) => wadd(left_x(line, b.tl.x, k), sp(line[k])),
        Some(HAlign::Right) => wsub(right_x(line, spec_r(b), k + 1), line[k].width),
        Some(HAlign::Center) => wadd(left_x(line, center_start(line, b), k), sp(line[k])),
        None => if space_count(line, line.len() as int) == 0 {
            packed_x(line, b.tl.x, k)
        } else {
            just_x(line, b.tl.x, b.size.x, k)
        },
    }
}

/// The columns a line covers.
pub open spec fn line_range(line: Seq<Run>, b: Rect, align: Option<HAlign>) -> Range1d {
    let n = line.len() as int;
    match align {
        Some(HAlign::Left) => Range1d { start: b.tl.x, end: left_x(line, b.tl.x, n) },
        Some(HAlign::Right) => Range1d { start: right_x(line, spec_r(b), 0), end: spec_r(b) },
        Some(HAlign::Center) => Range1d {
            start: center_start(line, b),
            end: left_x(line, center_start(line, b), n),
        },
        None => if space_count(line, n) == 0 {
            Range1d { start: b.tl.x, end: packed_x(line, b.tl.x, n) }
        } else {
            spec_h_range(b)
        },
    }
}

/// What drawing a line puts on the screen, run by run (right-aligned lines
/// are drawn from the last run).
pub open spec fn line_draws(line: Seq<Run>, b: Rect, align: Option<HAlign>) -> Seq<Draw> {
    let n = line.len() as int;
    Seq::new(
        line.len(),
        |i: int|
            {
                let k = if align == Some(HAlign::Right) { n - 1 - i } else { i };
                Draw {
                    p: Point { x: run_x(line, b, align, k), y: b.tl.y },
                    start: line[k].start,
                    end: line[k].end,
                }
            },
    )
}

proof fn lemma_space_count_bound(line: Seq<Run>, k: int)
    requires
        0 <= k <= line.len(),
    ensures
        0 <= space_count(line, k) <= k,
    decreases k,
{
    if k > 0 {
        lemma_space_count_bound(line, k - 1);
    }
}

/// Draws the runs of one line in `bounds` (its first row), adding the
/// pieces to `draws`; returns the columns the line covers.
pub fn render_line(draws: &mut Vec<Draw>, bounds: Rect, align: Option<HAlign>, line: &Vec<Run>) -> (res:
    Range1d)
    ensures
        final(draws)@ == old(draws)@ + line_draws(line@, bounds, align),
        res == line_range(line@, bounds, align),
{
    let ghost d0 = draws@;
    let ghost ln = line@;
    let n = line.len();
    let y = bounds.t();
    match align {
        Some(HAlign::Right) => {
            let r = bounds.r();
            let mut x = r;
            let mut k = n;
            while k > 0
                invariant
                    k <= n == ln.len(),
                    ln == line@,
                    x == right_x(ln, r, k as int),
                    r == spec_r(bounds),
                    y == bounds.tl.y,
                    align == Some(HAlign::Right),
                    draws@ == d0 + line_draws(ln, bounds, align).take(n - k),
                decreases k,
            {
                let run = line[k - 1];
                x = x.wrapping_sub(run.width);
                draws.push(Draw { p: Point { x, y }, start: run.start, end: run.end });
                proof {
                    assert(draws@ =~= d0 + line_draws(ln, bounds, align).take(n - k + 1));
                }
                if run.space {
                    x = x.wrapping_sub(1);
                }
                k = k - 1;
            }
            proof {
                assert(line_draws(ln, bounds, align).take(n as int) =~= line_draws(ln, bounds, align));
            }
            Range1d { start: x, end: r }
        },
        Some(HAlign::Left) | Some(HAlign::Center) => {
            let l = bounds.l();
            let start = match align {
                Some(HAlign::Center) => {
                    let lw = compute_line_width(line);
                    proof {
                        lemma_as_u16(bounds.size.x);
                        lemma_as_u16(lw);
                    }
                    let free = (bounds.w() as u16).saturating_sub(lw as u16) / 2;
                    proof {
                        lemma_as_i16(free);
                    }
                    l.wrapping_add(free as i16)
                },
                _ => l,
            };
            let mut x = start;
            let mut k: usize = 0;
            while k < n
                invariant
                    k <= n == ln.len(),
                    ln == line@,
                    align == Some(HAlign::Left) ==> start == bounds.tl.x,
                    align == Some(HAlign::Center) ==> start == center_start(ln, bounds),
                    align == Some(HAlign::Left) || align == Some(HAlign::Center),
                    x == left_x(ln, start, k as int),
                    y == bounds.tl.y,
                    draws@ == d0 + line_draws(ln, bounds, align).take(k as int),
                decreases n - k,
            {
                let run = line[k];
                if run.space {
                    x = x.wrapping_add(1);
                }
                draws.push(Draw { p: Point { x, y }, start: run.start, end: run.end });
                proof {
                    assert(draws@ =~= d0 + line_draws(ln, bounds, align).take(k + 1));
                }
                x = x.wrapping_add(run.width);
                k = k + 1;
            }
            proof {
                assert(line_draws(ln, bounds, align).take(n as int) =~= line_draws(ln, bounds, align));
            }
            Range1d { start, end: x }
        },
        None => {
            let cnt = count_spaces(line);
            let l = bounds.l();
            if cnt == 0 {
                let mut x = l;
                let mut k: usize = 0;
                while k < n
                    invariant
                        k <= n == ln.len(),
                        ln == line@,
                        align is None,
                        space_count(ln, n as int) == 0,
                        x == packed_x(ln, l, k as int),
                        l == bounds.tl.x,
                        y == bounds.tl.y,
                        draws@ == d0 + line_draws(ln, bounds, align).take(k as int),
                    decreases n - k,
                {
                    let run = line[k];
                    draws.push(Draw { p: Point { x, y }, start: run.start, end: run.end });
                    proof {
                        assert(draws@ =~= d0 + line_draws(ln, bounds, align).take(k + 1));
                    }
                    x = x.wrapping_add(run.width);
                    k = k + 1;
                }
                proof {
                    assert(line_draws(ln, bounds, align).take(n as int) =~= line_draws(
                        ln,
                        bounds,
                        align,
                    ));
                }
                Range1d { start: l, end: x }
            } else {
                let minw = compute_runs_width(line);
                proof {
                    lemma_as_u16(bounds.size.x);
                    lemma_as_u16(minw);
                    lemma_space_count_bound(ln, n as int);
                }
                let spaces = (bounds.w() as u16).saturating_sub(minw as u16) as usize;
                let q = spaces / cnt;
                let per = if q < 1 { q } else { 1 };
                assert(per * cnt <= cnt) by (nonlinear_arith)
                    requires
                        per <= 1,
                ;
                let head = spaces.saturating_sub(per * cnt);
                let mut x = l;
                let mut k: usize = 0;
                while k < n
                    invariant
                        k <= n == ln.len(),
                        ln == line@,
                        align is None,
                        cnt == space_count(ln, n as int),
                        cnt > 0,
                        spaces == free_columns(ln, bounds.size.x),
                        per == (if spaces / cnt < 1 { spaces / cnt } else { 1 }),
                        head == sat_sub(spaces as int, per * cnt),
                        k > 0 ==> x == wadd(just_x(ln, l, bounds.size.x, k - 1), ln[k - 1].width),
                        k == 0 ==> x == l,
                        l == bounds.tl.x,
                        y == bounds.tl.y,
                        draws@ == d0 + line_draws(ln, bounds, align).take(k as int),
                    decreases n - k,
                {
                    let run = line[k];
                    let g: usize = if k == 0 || !run.space {
                        0
                    } else if k <= head {
                        per + 1
                    } else {
                        per
                    };
                    proof {
                        assert(g as int == gap(ln, bounds.size.x, k as int));
                        assert(g <= 2);
                    }
                    x = x.wrapping_add(g as u16 as i16);
                    proof {
                        assert(x == just_x(ln, l, bounds.size.x, k as int));
                    }
                    draws.push(Draw { p: Point { x, y }, start: run.start, end: run.end });
                    proof {
                        assert(draws@ =~= d0 + line_draws(ln, bounds, align).take(k + 1));
                    }
                    x = x.wrapping_add(run.width);
                    k = k + 1;
                }
                proof {
                    assert(line_draws(ln, bounds, align).take(n as int) =~= line_draws(
                        ln,
                        bounds,
                        align,
                    ));
                }
                bounds.h_range()
            }
        },
    }
}


/// Wrapping: the lines still to come when a new line is asked for, with
/// runs `k ..` left, `line` begun, the next column `px` and the row `py`.
/// No line comes once as many lines as the rectangle is high were made.
pub open spec fn wrap_call(b: Rect, runs: Seq<Run>, k: int, line: Seq<Run>, px: i16, py: i16) -> Seq<
    Seq<Run>,
>
    decreases runs.len() - k, 1int,
{
    if u16v(wsub(py, b.tl.y)) >= u16v(b.size.y) {
        Seq::empty()
    } else {
        wrap_fill(b, runs, k, line, px, py)
    }
}

/// Wrapping: filling the current line. A run that does not fit (with its
/// space) in what is left of the row ends the line and begins the next one,
/// without its space.
pub open spec fn wrap_fill(b: Rect, runs: Seq<Run>, k: int, line: Seq<Run>, px: i16, py: i16) -> Seq<
    Seq<Run>,
>
    decreases runs.len() - k, 0int,
{
    if k < 0 || k >= runs.len() {
        if line.len() == 0 {
            Seq::empty()
        } else {
            seq![line]
        }
    } else {
        let run = runs[k];
        let avail = u16v(wsub(spec_r(b), px));
        if u16v(run.width) > avail || u16v(wadd(sp(run), run.width)) > avail {
            seq![line] + wrap_call(
                b,
                runs,
                k + 1,
                seq![Run { space: false, ..run }],
                wadd(b.tl.x, run.width),
                wadd(py, 1),
            )
        } else {
            wrap_fill(b, runs, k + 1, line.push(run), wadd(px, wadd(sp(run), run.width)), py)
        }
    }
}

/// The lines that the runs are wrapped into in the rectangle `b`.
pub open spec fn spec_wrap(b: Rect, runs: Seq<Run>) -> Seq<Seq<Run>> {
    wrap_call(b, runs, 0, Seq::empty(), b.tl.x, b.tl.y)
}

/// Wraps `runs` into lines that fit the width of `bounds`, at most as many
/// lines as it is high.
pub fn wrap(bounds: Rect, runs: &Vec<Run>) -> (res: Vec<Vec<Run>>)
    ensures
        res@.len() == spec_wrap(bounds, runs@).len(),
        forall|i: int| 0 <= i < res@.len() ==> (#[trigger] res@[i])@ == spec_wrap(bounds, runs@)[i],
{
    let ghost total = spec_wrap(bounds, runs@);
    let n = runs.len();
    let mut lines: Vec<Vec<Run>> = Vec::new();
    let mut line: Vec<Run> = Vec::new();
    let mut px = bounds.l();
    let mut py = bounds.t();
    let mut k: usize = 0;
    let ghost mut lv: Seq<Seq<Run>> = Seq::empty();
    loop
        invariant_except_break
            k <= n == runs@.len(),
            lines@.len() == lv.len(),
            forall|i: int| 0 <= i < lines@.len() ==> (#[trigger] lines@[i])@ == lv[i],
            lv + wrap_call(bounds, runs@, k as int, line@, px, py) == total,
        ensures
            lines@.len() == lv.len(),
            forall|i: int| 0 <= i < lines@.len() ==> (#[trigger] lines@[i])@ == lv[i],
            lv == total,
        decreases n - k,
    {
        let dy = py.wrapping_sub(bounds.t());
        proof {
            lemma_as_u16(dy);
            lemma_as_u16(bounds.size.y);
        }
        if dy as u16 >= bounds.h() as u16 {
            proof {
                assert(lv =~= total);
            }
            break;
        }
        let ghost k0 = k;
        let mut wrapped = false;
        while k < n
            invariant_except_break
                k0 <= k <= n == runs@.len(),
                lines@.len() == lv.len(),
                forall|i: int| 0 <= i < lines@.len() ==> (#[trigger] lines@[i])@ == lv[i],
                lv + wrap_fill(bounds, runs@, k as int, line@, px, py) == total,
                !wrapped,
            ensures
                k0 <= k <= n,
                lines@.len() == lv.len(),
                forall|i: int| 0 <= i < lines@.len() ==> (#[trigger] lines@[i])@ == lv[i],
                wrapped ==> k > k0 && lv + wrap_call(bounds, runs@, k as int, line@, px, py) == total,
                !wrapped ==> k == n && lv + wrap_fill(bounds, runs@, k as int, line@, px, py) == total,
            decreases n - k,
        {
            let run = runs[k];
            let s: i16 = if run.space { 1 } else { 0 };
            let avail = bounds.r().wrapping_sub(px);
            proof {
                lemma_as_u16(avail);
                lemma_as_u16(run.width);
                lemma_as_u16(s.wrapping_add(run.width));
            }
            if (run.width as u16) > (avail as u16) || (s.wrapping_add(run.width) as u16) > (avail as u16) {
                let mut done: Vec<Run> = Vec::new();
                done.push(Run { space: false, ..run });
                core::mem::swap(&mut line, &mut done);
                proof {
                    lv = lv.push(done@);
                    assert(seq![done@] + wrap_call(
                        bounds,
                        runs@,
                        k + 1,
                        line@,
                        wadd(bounds.tl.x, run.width),
                        wadd(py, 1),
                    ) == wrap_fill(bounds, runs@, k as int, done@, px, py));
                }
                lines.push(done);
                px = bounds.l().wrapping_add(run.width);
                py = py.wrapping_add(1);
                k = k + 1;
                wrapped = true;
                proof {
                    assert(lv + wrap_call(bounds, runs@, k as int, line@, px, py) =~= total);
                }
                break;
            } else {
                let ghost old_line = line@;
                line.push(run);
                px = px.wrapping_add(s.wrapping_add(run.width));
                k = k + 1;
            }
        }
        if !wrapped {
            if line.len() > 0 {
                let mut done: Vec<Run> = Vec::new();
                core::mem::swap(&mut line, &mut done);
                proof {
                    lv = lv.push(done@);
                }
                lines.push(done);
            }
            proof {
                assert(lv =~= total);
            }
            break;
        }
    }
    lines
}


/// The parts of `s[lo .. n]` between `sep` characters, as index ranges.
pub open spec fn sep_parts(s: Seq<char>, lo: usize, n: int, sep: char) -> Seq<(usize, usize)>
    decreases n - lo,
{
    if n <= lo {
        seq![(lo, lo)]
    } else {
        let r = sep_parts(s, lo, n - 1, sep);
        if s[n - 1] == sep {
            r.push((n as usize, n as usize))
        } else {
            r.update(r.len() - 1, (r.last().0, n as usize))
        }
    }
}

pub proof fn lemma_sep_parts(s: Seq<char>, lo: usize, n: int, sep: char)
    requires
        lo <= n <= s.len(),
        n <= usize::MAX,
    ensures
        sep_parts(s, lo, n, sep).len() >= 1,
        sep_parts(s, lo, n, sep).last().1 == n,
        forall|k: int|
            0 <= k < sep_parts(s, lo, n, sep).len() ==> lo <= #[trigger] sep_parts(s, lo, n, sep)[k].0
                <= sep_parts(s, lo, n, sep)[k].1 <= n,
    decreases n - lo,
{
    if n > lo {
        lemma_sep_parts(s, lo, n - 1, sep);
    }
}

/// The parts of `text[lo .. hi]` between `sep` characters.
pub fn split_by(text: &Vec<char>, lo: usize, hi: usize, sep: char) -> (res: Vec<(usize, usize)>)
    requires
        lo <= hi <= text.len(),
    ensures
        res@ == sep_parts(text@, lo, hi as int, sep),
{
    let mut res: Vec<(usize, usize)> = Vec::new();
    res.push((lo, lo));
    let mut i = lo;
    while i < hi
        invariant
            lo <= i <= hi <= text.len(),
            res@ == sep_parts(text@, lo, i as int, sep),
        decreases hi - i,
    {
        proof {
            lemma_sep_parts(text@, lo, i as int, sep);
        }
        if text[i] == sep {
            res.push((i + 1, i + 1));
        } else {
            let last = res.len() - 1;
            let start = res[last].0;
            res.set(last, (start, i + 1));
        }
        i = i + 1;
    }
    res
}

/// Whether `c` has the Unicode `White_Space` property.
#[verifier::opaque]
pub open spec fn is_ws(c: char) -> bool {
    let u = c as int;
    ||| 0x9 <= u <= 0xD
    ||| u == 0x20
    ||| u == 0x85
    ||| u == 0xA0
    ||| u == 0x1680
    ||| 0x2000 <= u <= 0x200A
    ||| u == 0x2028
    ||| u == 0x2029
    ||| u == 0x202F
    ||| u == 0x205F
    ||| u == 0x3000
}

/// Whether `c` is whitespace, as `char::is_whitespace` answers: whether it
/// has the Unicode `White_Space` property.
fn char_is_whitespace(c: char) -> (res: bool)
    ensures
        res == is_ws(c),
{
    proof {
        reveal(is_ws);
    }
    let u = c as u32;
    (0x9 <= u && u <= 0xD) || u == 0x20 || u == 0x85 || u == 0xA0 || u == 0x1680 || (0x2000 <= u
        && u <= 0x200A) || u == 0x2028 || u == 0x2029 || u == 0x202F || u == 0x205F || u == 0x3000
}

pub open spec fn trim_start(s: Seq<char>, a: int, b: int) -> int
    decreases b - a,
{
    if a >= b {
        b
    } else if is_ws(s[a]) {
        trim_start(s, a + 1, b)
    } else {
        a
    }
}

pub open spec fn trim_end(s: Seq<char>, a: int, b: int) -> int
    decreases b - a,
{
    if b <= a {
        a
    } else if is_ws(s[b - 1]) {
        trim_end(s, a, b - 1)
    } else {
        b
    }
}

proof fn lemma_trim(s: Seq<char>, a: int, b: int)
    requires
        a <= b,
    ensures
        a <= trim_start(s, a, b) <= b,
        trim_start(s, a, b) <= trim_end(s, trim_start(s, a, b), b) <= b,
    decreases b - a,
{
    if a < b && is_ws(s[a]) {
        lemma_trim(s, a + 1, b);
    }
    lemma_trim_end(s, trim_start(s, a, b), b);
}

proof fn lemma_trim_end(s: Seq<char>, a: int, b: int)
    requires
        a <= b,
    ensures
        a <= trim_end(s, a, b) <= b,
    decreases b - a,
{
    if a < b && is_ws(s[b - 1]) {
        lemma_trim_end(s, a, b - 1);
    }
}

/// The words of the parts `0 .. k`: each part without whitespace at its
/// ends, the empty ones dropped.
pub open spec fn words_of(s: Seq<char>, parts: Seq<(usize, usize)>, k: int) -> Seq<(usize, usize)>
    decreases k,
{
    if k <= 0 {
        Seq::empty()
    } else {
        let w = words_of(s, parts, k - 1);
        let a = trim_start(s, parts[k - 1].0 as int, parts[k - 1].1 as int);
        let e = trim_end(s, a, parts[k - 1].1 as int);
        if a < e {
            w.push((a as usize, e as usize))
        } else {
            w
        }
    }
}

/// The words of `s[lo .. hi]` as laid out: split at spaces; the first one
/// keeps what comes before it and the last one what comes after it; with no
/// word, the whole text is one.
pub open spec fn spec_split_words(s: Seq<char>, lo: usize, hi: usize) -> Seq<(usize, usize)> {
    let parts = sep_parts(s, lo, hi as int, ' ');
    let ws = words_of(s, parts, parts.len() as int);
    if ws.len() == 0 {
        seq![(lo, hi)]
    } else if ws.len() == 1 {
        seq![(lo, ws[0].1)]
    } else {
        seq![(lo, ws[0].1)] + ws.subrange(1, ws.len() - 1) + seq![(ws.last().0, hi)]
    }
}

/// Splits `text[lo .. hi]` into words at spaces (see `spec_split_words`).
pub fn split_words(text: &Vec<char>, lo: usize, hi: usize) -> (res: Vec<(usize, usize)>)
    requires
        lo <= hi <= text.len(),
    ensures
        res@ == spec_split_words(text@, lo, hi),
        forall|k: int| 0 <= k < res@.len() ==> lo <= (#[trigger] res@[k]).0 <= res@[k].1 <= hi,
{
    let parts = split_by(text, lo, hi, ' ');
    proof {
        lemma_sep_parts(text@, lo, hi as int, ' ');
    }
    let ghost ps = parts@;
    let mut ws: Vec<(usize, usize)> = Vec::new();
    let mut k: usize = 0;
    while k < parts.len()
        invariant
            k <= parts@.len(),
            ps == parts@,
            ps == sep_parts(text@, lo, hi as int, ' '),
            forall|j: int| 0 <= j < ps.len() ==> lo <= #[trigger] ps[j].0 <= ps[j].1 <= hi,
            hi <= text.len(),
            ws@ == words_of(text@, ps, k as int),
            forall|j: int| 0 <= j < ws@.len() ==> lo <= (#[trigger] ws@[j]).0 < ws@[j].1 <= hi,
        decreases parts@.len() - k,
    {
        let (a, b) = parts[k];
        proof {
            lemma_trim(text@, a as int, b as int);
        }
        let mut x = a;
        while x < b && char_is_whitespace(text[x])
            invariant
                a <= x <= b <= text.len(),
                trim_start(text@, x as int, b as int) == trim_start(text@, a as int, b as int),
            decreases b - x,
        {
            x = x + 1;
        }
        let mut e = b;
        while e > x && char_is_whitespace(text[e - 1])
            invariant
                x <= e <= b <= text.len(),
                trim_end(text@, x as int, e as int) == trim_end(text@, x as int, b as int),
            decreases e - x,
        {
            e = e - 1;
        }
        if x < e {
            ws.push((x, e));
        }
        k = k + 1;
    }
    let n = ws.len();
    if n == 0 {
        let mut res = Vec::new();
        res.push((lo, hi));
        return res;
    }
    let mut res: Vec<(usize, usize)> = Vec::new();
    res.push((lo, ws[0].1));
    if n == 1 {
        return res;
    }
    let mut j: usize = 1;
    while j < n - 1
        invariant
            1 <= j <= n - 1,
            n == ws@.len(),
            res@ == seq![(lo, ws@[0].1)] + ws@.subrange(1, j as int),
        decreases n - 1 - j,
    {
        res.push(ws[j]);
        proof {
            assert(res@ =~= seq![(lo, ws@[0].1)] + ws@.subrange(1, j + 1));
        }
        j = j + 1;
    }
    res.push((ws[n - 1].0, hi));
    proof {
        assert(res@ =~= seq![(lo, ws@[0].1)] + ws@.subrange(1, n - 1) + seq![(ws@.last().0, hi)]);
    }
    res
}

/// The runs of one word: one run, or, when it is wrapped and too wide, one
/// per cluster; widths are cut to the rectangle's width except without
/// wrapping. The first word has no space before it.
pub open spec fn word_runs(
    s: Seq<char>,
    w: (usize, usize),
    first: bool,
    bw: i16,
    wrapping: TextWrapping,
) -> Seq<Run> {
    let space = !first;
    let tw = spec_text_width(s.subrange(w.0 as int, w.1 as int));
    if wrapping == TextWrapping::NoWrap {
        seq![Run { space, start: w.0, end: w.1, width: tw }]
    } else if wrapping == TextWrapping::WrapWithOverflow || u16v(tw) <= u16v(bw) {
        seq![Run { space, start: w.0, end: w.1, width: umin(tw, bw) }]
    } else {
        let gs = spec_graphemes(s, w.0 as int, w.1 as int);
        Seq::new(
            gs.len(),
            |j: int|
                Run {
                    space: j == 0 && space,
                    start: gs[j].start,
                    end: gs[j].end,
                    width: umin(gs[j].width, bw),
                },
        )
    }
}

/// The runs of words `0 .. k`.
pub open spec fn block_runs(
    s: Seq<char>,
    words: Seq<(usize, usize)>,
    k: int,
    bw: i16,
    wrapping: TextWrapping,
) -> Seq<Run>
    decreases k,
{
    if k <= 0 {
        Seq::empty()
    } else {
        block_runs(s, words, k - 1, bw, wrapping) + word_runs(s, words[k - 1], k - 1 == 0, bw, wrapping)
    }
}

fn make_runs(text: &Vec<char>, words: &Vec<(usize, usize)>, bw: i16, wrapping: TextWrapping) -> (res:
    Vec<Run>)
    requires
        forall|k: int| 0 <= k < words@.len() ==> (#[trigger] words@[k]).0 <= words@[k].1 <= text.len(),
    ensures
        res@ == block_runs(text@, words@, words@.len() as int, bw, wrapping),
{
    let mut runs: Vec<Run> = Vec::new();
    let mut k: usize = 0;
    while k < words.len()
        invariant
            k <= words@.len(),
            forall|j: int| 0 <= j < words@.len() ==> (#[trigger] words@[j]).0 <= words@[j].1 <= text.len(),
            runs@ == block_runs(text@, words@, k as int, bw, wrapping),
        decreases words@.len() - k,
    {
        let (a, b) = words[k];
        let space = k != 0;
        let tw = text_width_range(text, a, b);
        let ghost before = runs@;
        proof {
            lemma_as_u16(tw);
            lemma_as_u16(bw);
        }
        if wrapping == TextWrapping::NoWrap {
            runs.push(Run { space, start: a, end: b, width: tw });
        } else if wrapping == TextWrapping::WrapWithOverflow || (tw as u16) <= (bw as u16) {
            runs.push(Run { space, start: a, end: b, width: min_u(tw, bw) });
        } else {
            let gs = graphemes(text, a, b);
            let mut j: usize = 0;
            while j < gs.len()
                invariant
                    j <= gs@.len(),
                    gs@ == spec_graphemes(text@, a as int, b as int),
                    runs@ == before + Seq::new(
                        j as nat,
                        |i: int|
                            Run {
                                space: i == 0 && space,
                                start: gs@[i].start,
                                end: gs@[i].end,
                                width: umin(gs@[i].width, bw),
                            },
                    ),
                decreases gs@.len() - j,
            {
                let g = gs[j];
                runs.push(Run { space: j == 0 && space, start: g.start, end: g.end, width: min_u(g.width, bw) });
                proof {
                    assert(runs@ =~= before + Seq::new(
                        (j + 1) as nat,
                        |i: int|
                            Run {
                                space: i == 0 && space,
                                start: gs@[i].start,
                                end: gs@[i].end,
                                width: umin(gs@[i].width, bw),
                            },
                    ));
                }
                j = j + 1;
            }
        }
        proof {
            assert(runs@ =~= block_runs(text@, words@, k + 1, bw, wrapping));
        }
        k = k + 1;
    }
    runs
}

pub open spec fn row(b: Rect, y: i16) -> Rect {
    Rect { tl: Point { x: b.tl.x, y }, size: Vector { x: b.size.x, y: 1 } }
}

/// Drawing lines `0 .. k` row by row from the top of `b`: the pieces drawn,
/// the columns covered, and the row after the last one.
pub open spec fn lines_fold(lines: Seq<Seq<Run>>, b: Rect, align: Option<HAlign>, k: int) -> (
    Seq<Draw>,
    Range1d,
    i16,
)
    decreases k,
{
    if k <= 0 {
        (Seq::empty(), Range1d { start: 0, end: 0 }, b.tl.y)
    } else {
        let (d, r, y) = lines_fold(lines, b, align, k - 1);
        let lr = line_range(lines[k - 1], row(b, y), align);
        (
            d + line_draws(lines[k - 1], row(b, y), align),
            match spec_range_union(r, lr) {
                Some(u) => u,
                None => spec_h_range(b),
            },
            wadd(y, 1),
        )
    }
}

/// A block (a line of the text without line breaks) laid out in `b`: the
/// pieces drawn and the rectangle they cover.
pub open spec fn spec_render_block(
    s: Seq<char>,
    lo: usize,
    hi: usize,
    b: Rect,
    align: Option<HAlign>,
    wrapping: TextWrapping,
) -> (Seq<Draw>, Rect) {
    if lo >= hi {
        (Seq::empty(), Rect { tl: b.tl, size: Vector { x: 0, y: 1 } })
    } else {
        let ws = spec_split_words(s, lo, hi);
        let runs = block_runs(s, ws, ws.len() as int, b.size.x, wrapping);
        if wrapping == TextWrapping::NoWrap {
            (
                line_draws(runs, b, align),
                spec_from_ranges(line_range(runs, b, align), Range1d { start: b.tl.y, end: wadd(b.tl.y, 1) }),
            )
        } else {
            let lines = spec_wrap(b, runs);
            let (d, r, y) = lines_fold(lines, b, align, lines.len() as int);
            (d, spec_from_ranges(r, Range1d { start: b.tl.y, end: y }))
        }
    }
}

/// Lays out the block `text[lo .. hi]` in `bounds`, adding the drawn pieces
/// to `draws`; returns the rectangle they cover.
pub fn render_block(
    draws: &mut Vec<Draw>,
    bounds: Rect,
    align: Option<HAlign>,
    wrapping: TextWrapping,
    text: &Vec<char>,
    lo: usize,
    hi: usize,
) -> (res: Rect)
    requires
        lo <= hi <= text.len(),
    ensures
        final(draws)@ == old(draws)@ + spec_render_block(text@, lo, hi, bounds, align, wrapping).0,
        res == spec_render_block(text@, lo, hi, bounds, align, wrapping).1,
{
    if lo == hi {
        proof {
            assert(draws@ =~= old(draws)@ + Seq::<Draw>::empty());
        }
        return Rect { tl: bounds.tl, size: Vector { x: 0, y: 1 } };
    }
    let words = split_words(text, lo, hi);
    let runs = make_runs(text, &words, bounds.w(), wrapping);
    if wrapping == TextWrapping::NoWrap {
        let range = render_line(draws, bounds, align, &runs);
        return Rect::from_h_v_ranges(range, Range1d { start: bounds.t(), end: bounds.t().wrapping_add(1) });
    }
    let lines = wrap(bounds, &runs);
    let ghost lv = spec_wrap(bounds, runs@);
    let ghost d0 = old(draws)@;
    let mut y = bounds.t();
    let mut range = Range1d { start: 0, end: 0 };
    let mut k: usize = 0;
    while k < lines.len()
        invariant
            k <= lines@.len() == lv.len(),
            lv == spec_wrap(bounds, runs@),
            forall|i: int| 0 <= i < lines@.len() ==> (#[trigger] lines@[i])@ == lv[i],
            (draws@, range, y) == ({
                let (d, r, yy) = lines_fold(lv, bounds, align, k as int);
                (d0 + d, r, yy)
            }),
        decreases lines@.len() - k,
    {
        let line_range = render_line(
            draws,
            Rect { tl: Point { x: bounds.l(), y }, size: Vector { x: bounds.w(), y: 1 } },
            align,
            &lines[k],
        );
        range = match range.union(line_range) {
            Some(u) => u,
            None => bounds.h_range(),
        };
        y = y.wrapping_add(1);
        proof {
            let (d, r, yy) = lines_fold(lv, bounds, align, k as int);
            assert(draws@ =~= d0 + lines_fold(lv, bounds, align, k + 1).0);
        }
        k = k + 1;
    }
    Rect::from_h_v_ranges(range, Range1d { start: bounds.t(), end: y })
}

/// Laying out blocks `k ..` below what is `rendered` already; stops at the
/// first block that has no room left.
pub open spec fn text_fold(
    s: Seq<char>,
    blocks: Seq<(usize, usize)>,
    k: int,
    b: Rect,
    align: Option<HAlign>,
    wrapping: TextWrapping,
    rendered: Rect,
) -> (Seq<Draw>, Rect)
    decreases blocks.len() - k,
{
    if k < 0 || k >= blocks.len() {
        (Seq::empty(), rendered)
    } else {
        let bb = spec_from_tl_br(
            Point { x: rendered.tl.x, y: spec_b(rendered) },
            Point { x: spec_r(b), y: spec_b(b) },
        );
        if bb.size.x == 0 || bb.size.y == 0 {
            (Seq::empty(), rendered)
        } else {
            let (d1, br) = spec_render_block(s, blocks[k].0, blocks[k].1, bb, align, wrapping);
            let br2 = Rect { size: Vector { x: umax(br.size.x, rendered.size.x), y: br.size.y }, ..br };
            let rendered2 = spec_from_tl_br(b.tl, Point { x: spec_r(br2), y: spec_b(br2) });
            let (d2, fin) = text_fold(s, blocks, k + 1, b, align, wrapping, rendered2);
            (d1 + d2, fin)
        }
    }
}

/// Text laid out in `b`, line break by line break: the pieces drawn and the
/// rectangle they cover.
pub open spec fn spec_render_text(s: Seq<char>, b: Rect, align: Option<HAlign>, wrapping: TextWrapping) -> (
    Seq<Draw>,
    Rect,
) {
    text_fold(
        s,
        sep_parts(s, 0, s.len() as int, '\n'),
        0,
        b,
        align,
        wrapping,
        Rect { tl: b.tl, size: Vector { x: 0, y: 0 } },
    )
}

/// Lays out `text` in `bounds`, adding the drawn pieces to `draws` in the
/// order they are drawn; returns the rectangle they cover.
#[verifier::rlimit(40)]
pub fn render_text(
    draws: &mut Vec<Draw>,
    bounds: Rect,
    align: Option<HAlign>,
    wrapping: TextWrapping,
    text: &Vec<char>,
) -> (res: Rect)
    ensures
        final(draws)@ == old(draws)@ + spec_render_text(text@, bounds, align, wrapping).0,
        res == spec_render_text(text@, bounds, align, wrapping).1,
{
    let blocks = split_by(text, 0, text.len(), '\n');
    proof {
        lemma_sep_parts(text@, 0, text.len() as int, '\n');
    }
    let ghost bs = blocks@;
    let ghost d0 = old(draws)@;
    let mut rendered = Rect { tl: bounds.tl, size: Vector { x: 0, y: 0 } };
    let ghost r0 = rendered;
    let mut k: usize = 0;
    while k < blocks.len()
        invariant_except_break
            k <= blocks@.len(),
            bs == blocks@,
            forall|j: int| 0 <= j < bs.len() ==> #[trigger] bs[j].0 <= bs[j].1 <= text.len(),
            ({
                let (d, fin) = text_fold(text@, bs, k as int, bounds, align, wrapping, rendered);
                (draws@ + d, fin)
            }) == ({
                let (d, fin) = text_fold(text@, bs, 0, bounds, align, wrapping, r0);
                (d0 + d, fin)
            }),
        ensures
            (draws@, rendered) == ({
                let (d, fin) = text_fold(text@, bs, 0, bounds, align, wrapping, r0);
                (d0 + d, fin)
            }),
        decreases blocks@.len() - k,
    {
        let block_bounds = Rect::from_tl_br(rendered.bl(), bounds.br());
        if block_bounds.is_empty() {
            proof {
                assert(draws@ =~= draws@ + Seq::<Draw>::empty());
            }
            break;
        }
        let (a, b) = blocks[k];
        let ghost before = draws@;
        let mut block_rendered = render_block(draws, block_bounds, align, wrapping, text, a, b);
        block_rendered.size.x = max_u(block_rendered.size.x, rendered.size.x);
        let ghost old_rendered = rendered;
        rendered = Rect::from_tl_br(bounds.tl, block_rendered.br());
        proof {
            let (d1, br) = spec_render_block(text@, a, b, block_bounds, align, wrapping);
            let (d2, fin) = text_fold(text@, bs, k + 1, bounds, align, wrapping, rendered);
            assert(before + (d1 + d2) =~= draws@ + d2);
        }
        k = k + 1;
    }
    proof {
        if k == blocks.len() {
        }
    }
    rendered
}

fn compute_line_width(line: &Vec<Run>) -> (res: i16)
    ensures
        res == line_width(line@, line@.len() as int),
{
    let mut w: i16 = 0;
    let mut k: usize = 0;
    while k < line.len()
        invariant
            k <= line@.len(),
            w == line_width(line@, k as int),
        decreases line@.len() - k,
    {
        let s: i16 = if line[k].space { 1 } else { 0 };
        w = w.wrapping_add(s.wrapping_add(line[k].width));
        k = k + 1;
    }
    w
}

fn compute_runs_width(line: &Vec<Run>) -> (res: i16)
    ensures
        res == runs_width(line@, line@.len() as int),
{
    let mut w: i16 = 0;
    let mut k: usize = 0;
    while k < line.len()
        invariant
            k <= line@.len(),
            w == runs_width(line@, k as int),
        decreases line@.len() - k,
    {
        w = w.wrapping_add(line[k].width);
        k = k + 1;
    }
    w
}

fn count_spaces(line: &Vec<Run>) -> (res: usize)
    ensures
        res == space_count(line@, line@.len() as int),
{
    let mut c: usize = 0;
    let mut k: usize = 0;
    while k < line.len()
        invariant
            k <= line@.len(),
            c == space_count(line@, k as int),
            c <= k,
        decreases line@.len() - k,
    {
        if line[k].space {
            c = c + 1;
        }
        k = k + 1;
    }
    c
}


/// Wrapping with overflow never breaks a word: every word of a block makes
/// exactly one run, covering the whole word, whatever its width and the
/// rectangle's; the first has no space before it, the others have.
pub proof fn law_overflow_keeps_words_whole(s: Seq<char>, words: Seq<(usize, usize)>, k: int, bw: i16)
    requires
        0 <= k <= words.len(),
    ensures
        block_runs(s, words, k, bw, TextWrapping::WrapWithOverflow).len() == k,
        forall|i: int|
            0 <= i < k ==> {
                &&& (#[trigger] block_runs(s, words, k, bw, TextWrapping::WrapWithOverflow)[i]).start
                    == words[i].0
                &&& block_runs(s, words, k, bw, TextWrapping::WrapWithOverflow)[i].end == words[i].1
                &&& block_runs(s, words, k, bw, TextWrapping::WrapWithOverflow)[i].space == (i > 0)
            },
    decreases k,
{
    if k > 0 {
        law_overflow_keeps_words_whole(s, words, k - 1, bw);
        let prev = block_runs(s, words, k - 1, bw, TextWrapping::WrapWithOverflow);
        let all = block_runs(s, words, k, bw, TextWrapping::WrapWithOverflow);
        assert(all == prev + word_runs(s, words[k - 1], k - 1 == 0, bw, TextWrapping::WrapWithOverflow));
        assert forall|i: int| 0 <= i < k - 1 implies #[trigger] all[i] == prev[i] by {}
    }
}

/// Wrapping breaks a word into clusters only where the word is wider than
/// the rectangle: a word that fits makes one run covering it.
pub proof fn law_wrap_keeps_fitting_words_whole(
    s: Seq<char>,
    w: (usize, usize),
    first: bool,
    bw: i16,
)
    requires
        u16v(spec_text_width(s.subrange(w.0 as int, w.1 as int))) <= u16v(bw),
    ensures
        word_runs(s, w, first, bw, TextWrapping::Wrap).len() == 1,
        word_runs(s, w, first, bw, TextWrapping::Wrap)[0].start == w.0,
        word_runs(s, w, first, bw, TextWrapping::Wrap)[0].end == w.1,
{
}
} // verus!
