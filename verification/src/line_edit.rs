//! A single-line text editor: the text, a cursor, and the window of the text
//! that a field of a given width shows.
use vstd::prelude::*;
use crate::geom::{
    u16v, wadd, wsub, Vector, Point, Rect, HAlign, VAlign, Thickness, spec_align, spec_shrink_rect,
};
use crate::text::{
    Grapheme, spec_graphemes, graphemes, spec_text_width, text_width_range, prev_gstart, next_gstart,
    last_grapheme_start, grapheme_end, unicode_width_of, spec_char_width, char_width,
    lemma_next_gstart_bounds, lemma_prev_gstart_bounds, unicode_char_width,
};

verus! {

/// The shown window `start ..= end` of the text, with the blank columns
/// before (`left_p`) and after (`right_p`) it. `end` may be the text length:
/// the column after the last character, where the cursor can stand.
#[derive(Clone, Copy, PartialEq, Eq, Debug, Structural)]
pub struct EditView {
    pub left_p: i16,
    pub start: usize,
    pub end: usize,
    pub right_p: i16,
}

/// The abstract state of a `LineEdit`.
pub struct LineEditModel {
    pub text: Seq<char>,
    pub view: Option<EditView>,
    pub cursor: nat,
    pub delete_char: bool,
    pub width: i16,
    pub is_numeric: bool,
    pub is_focused: bool,
}

/// A single-line text editor.
pub struct LineEdit {
    text: Vec<char>,
    view: Option<EditView>,
    cursor: usize,
    delete_char: bool,
    width: i16,
    is_numeric: bool,
    is_focused: bool,
}

/// What a `LineEdit` shows: the visible characters, the column where they
/// start, whether text is hidden on either side, and the cursor column.
#[derive(PartialEq, Eq, Debug)]
pub struct LineEditRender {
    pub text: Vec<char>,
    pub text_start: i16,
    pub left_ellipsis: bool,
    pub right_ellipsis: bool,
    pub cursor: Option<i16>,
}

impl View for LineEdit {
    type V = LineEditModel;

    closed spec fn view(&self) -> LineEditModel {
        LineEditModel {
            text: self.text@,
            view: self.view,
            cursor: self.cursor as nat,
            delete_char: self.delete_char,
            width: self.width,
            is_numeric: self.is_numeric,
            is_focused: self.is_focused,
        }
    }
}

/// Fitting clusters from the right end of `gs` into `width` columns, `w`
/// columns being taken already: the start of the leftmost cluster that fits,
/// the columns taken, and whether some cluster did not fit.
pub open spec fn fit_back(gs: Seq<Grapheme>, w: i16, width: i16) -> (Option<usize>, i16, bool)
    decreases gs.len(),
{
    if gs.len() == 0 {
        (None, w, false)
    } else if u16v(wadd(w, gs.last().width)) > u16v(width) {
        (None, w, true)
    } else {
        let (s, w2, br) = fit_back(gs.drop_last(), wadd(w, gs.last().width), width);
        (if s is Some { s } else { Some(gs.last().start) }, w2, br)
    }
}

/// Fitting items (last position, width) from the left into `width` columns,
/// `w` columns being taken already: the last position of the rightmost item
/// that fits, the columns taken, and whether some item did not fit.
pub open spec fn fit_fwd(items: Seq<(usize, i16)>, w: i16, width: i16) -> (Option<usize>, i16, bool)
    decreases items.len(),
{
    if items.len() == 0 {
        (None, w, false)
    } else if u16v(wadd(w, items[0].1)) > u16v(width) {
        (None, w, true)
    } else {
        let (r, w2, br) = fit_fwd(items.drop_first(), wadd(w, items[0].1), width);
        (if r is Some { r } else { Some(items[0].0) }, w2, br)
    }
}

/// The window that ends at `view_end` and reaches as far left as `width`
/// columns allow (the column after the text counts one when `view_end` is
/// the text length).
pub open spec fn spec_view_start(text: Seq<char>, width: i16, view_end: int) -> Option<EditView> {
    let with_end = view_end == text.len();
    let e = if with_end { view_end } else { view_end + 1 };
    let w0: i16 = if with_end { 1 } else { 0 };
    let (s, w, br) = fit_back(spec_graphemes(text, 0, e), w0, width);
    match s {
        None => None,
        Some(st) => Some(
            EditView {
                left_p: if br { wsub(width, w) } else { 0 },
                start: st,
                end: view_end as usize,
                right_p: 0,
            },
        ),
    }
}

/// The positions at which a window starting at `view_start` may end: the
/// last character of each cluster, then the column after the text.
pub open spec fn end_items(text: Seq<char>, view_start: int) -> Seq<(usize, i16)> {
    let gs = spec_graphemes(text, view_start, text.len() as int);
    Seq::new(
        gs.len() + 1,
        |k: int|
            if k < gs.len() {
                ((gs[k].end - 1) as usize, gs[k].width)
            } else {
                (text.len() as usize, 1i16)
            },
    )
}

/// The window that starts at `view_start`, `left_p` columns in, and reaches
/// as far right as `width` columns allow.
pub open spec fn spec_view_end(text: Seq<char>, width: i16, view_start: int, left_p: i16) -> Option<
    EditView,
> {
    let (x, w, br) = fit_fwd(end_items(text, view_start), left_p, width);
    match x {
        None => None,
        Some(e) => Some(
            EditView {
                left_p,
                start: view_start as usize,
                end: e,
                right_p: if br { wsub(width, w) } else { 0 },
            },
        ),
    }
}

/// The window after the text, the width or a flag changed: the end of the
/// text when focused, its last character for numbers, else its start.
pub open spec fn spec_reset_view(text: Seq<char>, width: i16, is_numeric: bool, is_focused: bool) -> Option<
    EditView,
> {
    if is_focused {
        spec_view_start(text, width, text.len() as int)
    } else if text.len() == 0 {
        None
    } else if is_numeric {
        spec_view_start(text, width, text.len() - 1)
    } else {
        spec_view_end(text, width, 0, 0)
    }
}

pub open spec fn view_contains(v: Option<EditView>, i: int) -> bool {
    match v {
        Some(v) => v.start <= i <= v.end,
        None => false,
    }
}

/// The state after `reset_view`.
pub open spec fn reset(m: LineEditModel) -> LineEditModel {
    LineEditModel {
        view: spec_reset_view(m.text, m.width, m.is_numeric, m.is_focused),
        cursor: m.text.len(),
        delete_char: false,
        ..m
    }
}

pub open spec fn model_wf(m: LineEditModel) -> bool {
    &&& m.cursor <= m.text.len()
    &&& match m.view {
        Some(v) => v.start <= v.end <= m.text.len(),
        None => true,
    }
}

/// The start of the first column of the shown text.
pub open spec fn spec_text_start(m: LineEditModel, v: EditView) -> i16 {
    let show_end = v.end == m.text.len();
    let shown = if show_end { m.text.subrange(v.start as int, v.end as int) } else {
        m.text.subrange(v.start as int, v.end + 1)
    };
    let tw = wadd(
        wadd(wadd(spec_text_width(shown), v.left_p), v.right_p),
        if show_end { 1i16 } else { 0i16 },
    );
    let align = spec_align(
        Vector { x: tw, y: 1 },
        Vector { x: m.width, y: 1 },
        if m.is_numeric { HAlign::Right } else { HAlign::Left },
        VAlign::Top,
    );
    wadd(
        spec_shrink_rect(align, Rect { tl: Point { x: 0, y: 0 }, size: Vector { x: m.width, y: 1 } }).tl.x,
        v.left_p,
    )
}

/// What `render` shows for a state.
pub open spec fn spec_render(m: LineEditModel) -> Option<(Seq<char>, i16, bool, bool, Option<i16>)> {
    match m.view {
        None => None,
        Some(v) => {
            let show_end = v.end == m.text.len();
            let shown = if show_end { m.text.subrange(v.start as int, v.end as int) } else {
                m.text.subrange(v.start as int, v.end + 1)
            };
            let start = spec_text_start(m, v);
            Some(
                (
                    shown,
                    start,
                    v.start > 0,
                    !show_end && v.end + 1 < m.text.len(),
                    if m.is_focused && v.start <= m.cursor <= v.end {
                        Some(wadd(start, spec_text_width(m.text.subrange(v.start as int, m.cursor as int))))
                    } else {
                        None
                    },
                ),
            )
        },
    }
}


/// `cursor_left`: the cursor moves to the start of the cluster before it;
/// the window follows it when it leaves the window.
pub open spec fn spec_cursor_left(m: LineEditModel) -> Option<LineEditModel> {
    if m.cursor == 0 {
        None
    } else {
        let c = prev_gstart(m.text, 0, m.cursor - 1);
        let m1 = LineEditModel { cursor: c as nat, delete_char: false, ..m };
        Some(
            if view_contains(m.view, c) {
                m1
            } else {
                LineEditModel { view: spec_view_end(m.text, m.width, c, 0), ..m1 }
            },
        )
    }
}

/// `cursor_right`: the cursor moves to the start of the next cluster (or the
/// end of the text); the window follows it when it leaves the window.
pub open spec fn spec_cursor_right(m: LineEditModel) -> Option<LineEditModel> {
    let len = m.text.len() as int;
    if m.cursor >= len {
        None
    } else {
        let e1 = next_gstart(m.text, m.cursor as int, m.cursor as int + 1, len);
        let nc = if e1 < len { e1 } else { len };
        let cend = if e1 < len { next_gstart(m.text, m.cursor as int, e1 + 1, len) - 1 } else { len };
        let m1 = LineEditModel { cursor: nc as nat, delete_char: false, ..m };
        Some(
            if view_contains(m.view, nc) {
                m1
            } else {
                LineEditModel { view: spec_view_start(m.text, m.width, cend), ..m1 }
            },
        )
    }
}

/// `cursor_home`: the cursor moves to the start of the text.
pub open spec fn spec_cursor_home(m: LineEditModel) -> LineEditModel {
    LineEditModel {
        cursor: 0,
        delete_char: false,
        view: if m.text.len() > 0 { spec_view_end(m.text, m.width, 0, 0) } else { None },
        ..m
    }
}

/// `cursor_end`: the cursor moves to the end of the text.
pub open spec fn spec_cursor_end(m: LineEditModel) -> LineEditModel {
    LineEditModel {
        cursor: m.text.len(),
        delete_char: false,
        view: spec_view_start(m.text, m.width, m.text.len() as int),
        ..m
    }
}

/// The window after an edit: the one starting at `vs` (`lp` columns in),
/// or, where that leaves the cursor out, the one ending at the cursor's
/// cluster.
pub open spec fn after_edit_view(text: Seq<char>, width: i16, cursor: int, vs: int, lp: i16) -> Option<
    EditView,
> {
    let v1 = spec_view_end(text, width, vs, lp);
    if view_contains(v1, cursor) {
        v1
    } else {
        let ce = if cursor < text.len() {
            next_gstart(text, cursor, cursor + 1, text.len() as int) - 1
        } else {
            cursor
        };
        spec_view_start(text, width, ce)
    }
}

/// `type_char`: inserts `c` at the cursor, unless it is `'\0'`, a control
/// character, or a zero-width character with no cluster before the cursor
/// to join.
pub open spec fn spec_type_char(m: LineEditModel, c: char) -> Option<LineEditModel> {
    if c == '\0' || unicode_width_of(c) is None {
        None
    } else if unicode_width_of(c).unwrap() == 0 && m.cursor == 0 {
        None
    } else {
        let cur = m.cursor as int;
        let t2 = m.text.insert(cur, c);
        let (vs, lp) = if m.view is Some && m.view.unwrap().start < cur {
            (m.view.unwrap().start as int, m.view.unwrap().left_p)
        } else if unicode_width_of(c).unwrap() == 0 {
            (prev_gstart(m.text, 0, cur - 1), 0i16)
        } else {
            (cur, 0i16)
        };
        Some(
            LineEditModel {
                text: t2,
                cursor: (cur + 1) as nat,
                delete_char: true,
                view: after_edit_view(t2, m.width, cur + 1, vs, lp),
                ..m
            },
        )
    }
}

/// The window after a deletion: the one starting at `vs`, moved to end at
/// the text's end when the whole tail fits with room to spare.
pub open spec fn after_delete_view(text: Seq<char>, width: i16, vs: int, lp: i16) -> Option<EditView> {
    let v1 = spec_view_end(text, width, vs, lp);
    match v1 {
        Some(v) => if v.end == text.len() && wadd(
            wadd(wadd(spec_text_width(text.subrange(v.start as int, v.end as int)), 1), v.left_p),
            v.right_p,
        ) < width {
            spec_view_start(text, width, text.len() as int)
        } else {
            v1
        },
        None => None,
    }
}

/// `delete_before_cursor`: right after typing, removes the typed characters
/// one by one (until one of non-zero width is gone); otherwise removes the
/// cluster before the cursor.
pub open spec fn spec_delete(m: LineEditModel) -> Option<LineEditModel> {
    if !m.delete_char && m.cursor == 0 {
        None
    } else {
        let (t2, cur2, dc2) = if m.delete_char {
            let c = m.text[m.cursor - 1];
            (m.text.remove(m.cursor - 1), m.cursor - 1, spec_char_width(c) == 0)
        } else {
            let gs = prev_gstart(m.text, 0, m.cursor - 1);
            (m.text.subrange(0, gs) + m.text.subrange(m.cursor as int, m.text.len() as int), gs, false)
        };
        let (vs, lp) = if m.view is Some && m.view.unwrap().start <= cur2 {
            (m.view.unwrap().start as int, m.view.unwrap().left_p)
        } else {
            (cur2, 0i16)
        };
        Some(
            LineEditModel {
                text: t2,
                cursor: cur2 as nat,
                delete_char: dc2,
                view: after_delete_view(t2, m.width, vs, lp),
                ..m
            },
        )
    }
}


/// Whether `i` is a cluster boundary of the whole text (its end included).
pub open spec fn at_boundary(text: Seq<char>, i: int) -> bool {
    i == text.len() || (0 <= i < text.len() && crate::text::is_gstart(text, 0, i))
}

/// Deleting right after typing a character takes the text and the cursor
/// back to what they were before it was typed.
pub proof fn law_delete_undoes_type(m: LineEditModel, c: char)
    requires
        model_wf(m),
        spec_type_char(m, c) is Some,
    ensures
        spec_delete(spec_type_char(m, c).unwrap()) is Some,
        spec_delete(spec_type_char(m, c).unwrap()).unwrap().text == m.text,
        spec_delete(spec_type_char(m, c).unwrap()).unwrap().cursor == m.cursor,
{
    let m2 = spec_type_char(m, c).unwrap();
    let cur = m.cursor as int;
    assert(m2.text[cur] == c);
    assert(m2.text.remove(cur) =~= m.text);
}

proof fn lemma_next_from_prev(s: Seq<char>, p: int, i: int, c: int, hi: int)
    requires
        0 <= p < i <= c <= hi <= s.len(),
        forall|j: int| p < j < c ==> !crate::text::is_gstart(s, 0, j),
        c == hi || crate::text::is_gstart(s, 0, c),
    ensures
        next_gstart(s, p, i, hi) == c,
    decreases c - i,
{
    if i < c {
        assert(!crate::text::is_gstart(s, 0, i));
        assert(!crate::text::is_gstart(s, p, i));
        lemma_next_from_prev(s, p, i + 1, c, hi);
    } else if c < hi {
        assert(crate::text::is_gstart(s, p, c));
    }
}

/// From a cluster boundary, moving the cursor left and then right brings it
/// back.
pub proof fn law_left_then_right(m: LineEditModel)
    requires
        model_wf(m),
        m.cursor > 0,
        at_boundary(m.text, m.cursor as int),
    ensures
        spec_cursor_left(m) is Some,
        spec_cursor_right(spec_cursor_left(m).unwrap()) is Some,
        spec_cursor_right(spec_cursor_left(m).unwrap()).unwrap().cursor == m.cursor,
{
    let c = m.cursor as int;
    let p = prev_gstart(m.text, 0, c - 1);
    lemma_prev_gstart_bounds(m.text, 0, c - 1);
    lemma_next_from_prev(m.text, p, p + 1, c, m.text.len() as int);
}

/// From a cluster boundary inside the text, moving the cursor right and then
/// left brings it back.
pub proof fn law_right_then_left(m: LineEditModel)
    requires
        model_wf(m),
        m.cursor < m.text.len(),
        at_boundary(m.text, m.cursor as int),
    ensures
        spec_cursor_right(m) is Some,
        spec_cursor_left(spec_cursor_right(m).unwrap()) is Some,
        spec_cursor_left(spec_cursor_right(m).unwrap()).unwrap().cursor == m.cursor,
{
    let c = m.cursor as int;
    let len = m.text.len() as int;
    let e1 = next_gstart(m.text, c, c + 1, len);
    lemma_next_gstart_bounds(m.text, c, c + 1, len);
    lemma_prev_back(m.text, c, e1 - 1);
}

proof fn lemma_prev_back(s: Seq<char>, c: int, i: int)
    requires
        0 <= c <= i < s.len(),
        c == 0 || crate::text::is_gstart(s, 0, c),
        forall|j: int| c < j <= i ==> !crate::text::is_gstart(s, c, j),
    ensures
        prev_gstart(s, 0, i) == c,
    decreases i - c,
{
    if i > c {
        assert(!crate::text::is_gstart(s, c, i));
        assert(!crate::text::is_gstart(s, 0, i));
        lemma_prev_back(s, c, i - 1);
    }
}

impl LineEditRender {
    pub open spec fn matches(self, r: (Seq<char>, i16, bool, bool, Option<i16>)) -> bool {
        &&& self.text@ == r.0
        &&& self.text_start == r.1
        &&& self.left_ellipsis == r.2
        &&& self.right_ellipsis == r.3
        &&& self.cursor == r.4
    }
}

proof fn lemma_graphemes_props(s: Seq<char>, lo: int, hi: int)
    requires
        0 <= lo <= hi <= s.len(),
        hi <= usize::MAX,
    ensures
        forall|k: int|
            0 <= k < spec_graphemes(s, lo, hi).len() ==> lo <= (#[trigger] spec_graphemes(
                s,
                lo,
                hi,
            )[k]).start < spec_graphemes(s, lo, hi)[k].end <= hi,
        spec_graphemes(s, lo, hi).len() > 0 <==> lo < hi,
    decreases hi - lo,
{
    if lo < hi {
        let e = next_gstart(s, lo, lo + 1, hi);
        lemma_next_gstart_bounds(s, lo, lo + 1, hi);
        lemma_graphemes_props(s, e, hi);
        let gs = spec_graphemes(s, lo, hi);
        let rest = spec_graphemes(s, e, hi);
        assert forall|k: int| 0 <= k < gs.len() implies lo <= (#[trigger] gs[k]).start < gs[k].end
            <= hi by {
            if k > 0 {
                assert(gs[k] == rest[k - 1]);
            }
        }
    }
}

impl LineEdit {
    /// The text as a vector, which `change_text` hands to its function.
    pub closed spec fn text_vec(&self) -> Vec<char> {
        self.text
    }

    /// The vector `change_text` hands over holds the text.
    pub proof fn lemma_text_vec(&self)
        ensures
            self.text_vec()@ == self@.text,
    {
    }

    pub open spec fn wf(&self) -> bool {
        model_wf(self@)
    }

    /// An empty, unfocused, zero-width editor.
    pub fn new() -> (res: LineEdit)
        ensures
            res.wf(),
            res@.text.len() == 0,
            res@.view is None,
            res@.cursor == 0,
            !res@.delete_char,
            !res@.is_numeric,
            res@.width == 0,
            !res@.is_focused,
    {
        LineEdit {
            text: Vec::new(),
            cursor: 0,
            view: None,
            delete_char: false,
            is_numeric: false,
            width: 0,
            is_focused: false,
        }
    }

    /// The text.
    pub fn text(&self) -> (res: &Vec<char>)
        ensures
            res@ == self@.text,
    {
        &self.text
    }

    pub fn is_numeric(&self) -> (res: bool)
        ensures
            res == self@.is_numeric,
    {
        self.is_numeric
    }

    pub fn width(&self) -> (res: i16)
        ensures
            res == self@.width,
    {
        self.width
    }

    /// Whether `delete_before_cursor` can run: it cannot while it is undoing
    /// typed characters and the cursor has reached the start of the text.
    pub closed spec fn can_delete(&self) -> bool {
        !(self.delete_char && self.cursor == 0)
    }

    /// Tests `can_delete`.
    pub fn delete_allowed(&self) -> (res: bool)
        ensures
            res == self.can_delete(),
            res == !(self@.delete_char && self@.cursor == 0),
    {
        !(self.delete_char && self.cursor == 0)
    }

    /// Replaces the text by what `f` makes of it and resets the view; returns
    /// `f`'s second result and `true` (the state changed).
    pub fn change_text<T, F: FnOnce(Vec<char>) -> (Vec<char>, T)>(&mut self, f: F) -> (res: (T, bool))
        requires
            old(self).wf(),
            call_requires(f, (old(self).text_vec(),)),
        ensures
            old(self).text_vec()@ == old(self)@.text,
            final(self).wf(),
            res.1,
            exists|nt: Vec<char>| #[trigger]
                call_ensures(f, (old(self).text_vec(),), (nt, res.0)) && final(self)@ == reset(
                    LineEditModel { text: nt@, ..old(self)@ },
                ),
    {
        let mut t: Vec<char> = Vec::new();
        core::mem::swap(&mut t, &mut self.text);
        proof {
            assert(t == old(self).text_vec());
        }
        let (nt, r) = f(t);
        let ghost ntv = nt;
        self.text = nt;
        self.cursor = 0;
        self.view = None;
        let ghost mid = self@;
        self.reset_view();
        let res = (r, true);
        proof {
            assert(reset(mid) == reset(LineEditModel { text: ntv@, ..old(self)@ }));
            assert(call_ensures(f, (old(self).text_vec(),), (ntv, res.0)));
            assert(self@ == reset(LineEditModel { text: ntv@, ..old(self)@ }));
        }
        res
    }

    /// Sets whether the text is a number (shown right-aligned); resets the view.
    pub fn set_is_numeric(&mut self, value: bool) -> (res: bool)
        requires
            old(self).wf(),
        ensures
            final(self).wf(),
            res,
            final(self)@ == reset(LineEditModel { is_numeric: value, ..old(self)@ }),
    {
        self.is_numeric = value;
        self.reset_view();
        true
    }

    /// Sets the field width; resets the view.
    pub fn set_width(&mut self, value: i16) -> (res: bool)
        requires
            old(self).wf(),
        ensures
            final(self).wf(),
            res,
            final(self)@ == reset(LineEditModel { width: value, ..old(self)@ }),
    {
        self.width = value;
        self.reset_view();
        true
    }

    /// Sets whether the field has the focus; resets the view.
    pub fn set_is_focused(&mut self, value: bool) -> (res: bool)
        requires
            old(self).wf(),
        ensures
            final(self).wf(),
            res,
            final(self)@ == reset(LineEditModel { is_focused: value, ..old(self)@ }),
    {
        self.is_focused = value;
        self.reset_view();
        true
    }

    fn view_has(&self, i: usize) -> (res: bool)
        ensures
            res == view_contains(self.view, i as int),
    {
        match self.view {
            Some(v) => v.start <= i && i <= v.end,
            None => false,
        }
    }

    /// Moves the cursor one cluster left; `false` at the start of the text.
    pub fn cursor_left(&mut self) -> (res: bool)
        requires
            old(self).wf(),
        ensures
            final(self).wf(),
            res == spec_cursor_left(old(self)@) is Some,
            res ==> final(self)@ == spec_cursor_left(old(self)@).unwrap(),
            !res ==> final(self)@ == old(self)@,
    {
        if self.cursor == 0 {
            return false;
        }
        let c = last_grapheme_start(&self.text, 0, self.cursor);
        self.delete_char = false;
        self.cursor = c;
        if !self.view_has(c) {
            self.calc_view_end(c, 0);
        }
        true
    }

    /// Moves the cursor one cluster right; `false` at the end of the text.
    pub fn cursor_right(&mut self) -> (res: bool)
        requires
            old(self).wf(),
        ensures
            final(self).wf(),
            res == spec_cursor_right(old(self)@) is Some,
            res ==> final(self)@ == spec_cursor_right(old(self)@).unwrap(),
            !res ==> final(self)@ == old(self)@,
    {
        let len = self.text.len();
        if self.cursor >= len {
            return false;
        }
        let cur = self.cursor;
        let e1 = grapheme_end(&self.text, cur, cur, len);
        let (nc, cend) = if e1 < len {
            let e2 = grapheme_end(&self.text, cur, e1, len);
            (e1, e2 - 1)
        } else {
            (len, len)
        };
        self.delete_char = false;
        self.cursor = nc;
        if !self.view_has(nc) {
            self.calc_view_start(cend);
        }
        true
    }

    /// Moves the cursor to the start of the text.
    pub fn cursor_home(&mut self) -> (res: bool)
        requires
            old(self).wf(),
        ensures
            final(self).wf(),
            res,
            final(self)@ == spec_cursor_home(old(self)@),
    {
        self.delete_char = false;
        self.cursor = 0;
        if self.text.len() > 0 {
            self.calc_view_end(0, 0);
        } else {
            self.view = None;
        }
        true
    }

    /// Moves the cursor to the end of the text.
    pub fn cursor_end(&mut self) -> (res: bool)
        requires
            old(self).wf(),
        ensures
            final(self).wf(),
            res,
            final(self)@ == spec_cursor_end(old(self)@),
    {
        self.delete_char = false;
        self.cursor = self.text.len();
        self.calc_view_start(self.text.len());
        true
    }

    /// After an edit: the window from `vs`, or the one that ends at the
    /// cursor's cluster where the cursor falls outside it.
    fn view_after_edit(&mut self, vs: usize, lp: i16)
        requires
            old(self).wf(),
            vs <= old(self).text.len(),
        ensures
            final(self).wf(),
            final(self)@ == (LineEditModel {
                view: after_edit_view(
                    old(self)@.text,
                    old(self)@.width,
                    old(self)@.cursor as int,
                    vs as int,
                    lp,
                ),
                ..old(self)@
            }),
    {
        self.calc_view_end(vs, lp);
        if !self.view_has(self.cursor) {
            let len = self.text.len();
            let ce = if self.cursor < len {
                grapheme_end(&self.text, self.cursor, self.cursor, len) - 1
            } else {
                self.cursor
            };
            self.calc_view_start(ce);
        }
    }

    /// Inserts `c` at the cursor; `false` (and no change) for `'\0'`, a
    /// control character, or a zero-width character at the start of the text.
    pub fn type_char(&mut self, c: char) -> (res: bool)
        requires
            old(self).wf(),
            old(self)@.text.len() < usize::MAX,
        ensures
            final(self).wf(),
            res == spec_type_char(old(self)@, c) is Some,
            res ==> final(self)@ == spec_type_char(old(self)@, c).unwrap(),
            !res ==> final(self)@ == old(self)@,
    {
        if c == '\0' {
            return false;
        }
        let c_w = match unicode_char_width(c) {
            Some(w) => w,
            None => {
                return false;
            },
        };
        let cur = self.cursor;
        if c_w == 0 && cur == 0 {
            return false;
        }
        let prev_gr = if c_w == 0 { last_grapheme_start(&self.text, 0, cur) } else { cur };
        let (vs, lp) = match self.view {
            Some(v) => if v.start < cur {
                (v.start, v.left_p)
            } else {
                (prev_gr, 0i16)
            },
            None => (prev_gr, 0i16),
        };
        self.delete_char = true;
        self.text.insert(cur, c);
        self.cursor = cur + 1;
        self.view_after_edit(vs, lp);
        true
    }

    /// Removes the characters `start .. end` of the text.
    fn remove_range(&mut self, start: usize, end: usize)
        requires
            start <= end <= old(self).text.len(),
        ensures
            final(self).text@ == old(self).text@.subrange(0, start as int) + old(self).text@.subrange(
                end as int,
                old(self).text@.len() as int,
            ),
            final(self).view == old(self).view,
            final(self).cursor == old(self).cursor,
            final(self).delete_char == old(self).delete_char,
            final(self).width == old(self).width,
            final(self).is_numeric == old(self).is_numeric,
            final(self).is_focused == old(self).is_focused,
    {
        let ghost t0 = self.text@;
        let mut k = start;
        while k < end
            invariant
                start <= k <= end <= t0.len(),
                self.text@ == t0.subrange(0, start as int) + t0.subrange(k as int, t0.len() as int),
                self.view == old(self).view,
                self.cursor == old(self).cursor,
                self.delete_char == old(self).delete_char,
                self.width == old(self).width,
                self.is_numeric == old(self).is_numeric,
                self.is_focused == old(self).is_focused,
            decreases end - k,
        {
            self.text.remove(start);
            proof {
                assert(self.text@ =~= t0.subrange(0, start as int) + t0.subrange(k + 1, t0.len() as int));
            }
            k = k + 1;
        }
    }

    /// Deletes before the cursor: right after typing, the last typed
    /// character; otherwise the cluster before the cursor. `false` (and no
    /// change) at the start of the text.
    pub fn delete_before_cursor(&mut self) -> (res: bool)
        requires
            old(self).wf(),
            old(self).can_delete(),
        ensures
            final(self).wf(),
            res == spec_delete(old(self)@) is Some,
            res ==> final(self)@ == spec_delete(old(self)@).unwrap(),
            !res ==> final(self)@ == old(self)@,
    {
        if self.delete_char {
            let cur = self.cursor - 1;
            let c = self.text.remove(cur);
            self.cursor = cur;
            if char_width(c) != 0 {
                self.delete_char = false;
            }
        } else {
            if self.cursor == 0 {
                return false;
            }
            let gs = last_grapheme_start(&self.text, 0, self.cursor);
            let cur = self.cursor;
            self.remove_range(gs, cur);
            self.cursor = gs;
        }
        let cur2 = self.cursor;
        let (vs, lp) = match self.view {
            Some(v) => if v.start <= cur2 {
                (v.start, v.left_p)
            } else {
                (cur2, 0i16)
            },
            None => (cur2, 0i16),
        };
        self.calc_view_end(vs, lp);
        let len = self.text.len();
        match self.view {
            Some(v) => {
                if v.end == len {
                    let tw = text_width_range(&self.text, v.start, v.end);
                    let total = tw.wrapping_add(1).wrapping_add(v.left_p).wrapping_add(v.right_p);
                    if total < self.width {
                        self.calc_view_start(len);
                    }
                }
            },
            None => {},
        }
        true
    }

    /// What the field shows, or `None` when no window is set.
    pub fn render(&self) -> (res: Option<LineEditRender>)
        requires
            self.wf(),
        ensures
            res is Some == spec_render(self@) is Some,
            res is Some ==> res.unwrap().matches(spec_render(self@).unwrap()),
    {
        let v = match self.view {
            Some(v) => v,
            None => {
                return None;
            },
        };
        let len = self.text.len();
        let show_end = v.end == len;
        let shown_end = if show_end { v.end } else { v.end + 1 };
        let mut shown: Vec<char> = Vec::new();
        let mut i = v.start;
        while i < shown_end
            invariant
                v.start <= i <= shown_end <= len == self.text@.len(),
                shown@ == self.text@.subrange(v.start as int, i as int),
            decreases shown_end - i,
        {
            shown.push(self.text[i]);
            proof {
                assert(shown@ =~= self.text@.subrange(v.start as int, i + 1));
            }
            i = i + 1;
        }
        let tw = text_width_range(&self.text, v.start, shown_end)
            .wrapping_add(v.left_p)
            .wrapping_add(v.right_p)
            .wrapping_add(if show_end { 1i16 } else { 0i16 });
        let align = Thickness::align(
            Vector { x: tw, y: 1 },
            Vector { x: self.width, y: 1 },
            if self.is_numeric { HAlign::Right } else { HAlign::Left },
            VAlign::Top,
        );
        let text_start = align.shrink_rect(
            Rect { tl: Point { x: 0, y: 0 }, size: Vector { x: self.width, y: 1 } },
        ).tl.offset(Vector { x: v.left_p, y: 0 }).x;
        let left_ellipsis = v.start > 0;
        let right_ellipsis = !show_end && v.end + 1 < len;
        let cursor = if self.is_focused && v.start <= self.cursor && self.cursor <= v.end {
            Some(text_start.wrapping_add(text_width_range(&self.text, v.start, self.cursor)))
        } else {
            None
        };
        Some(LineEditRender { text: shown, text_start, left_ellipsis, right_ellipsis, cursor })
    }

    /// Moves the cursor to the end of the text and recomputes the window.
    fn reset_view(&mut self)
        ensures
            final(self).wf(),
            final(self)@ == reset(old(self)@),
    {
        self.delete_char = false;
        self.cursor = self.text.len();
        if self.is_focused {
            self.calc_view_start(self.text.len());
        } else if self.is_numeric {
            if self.text.len() > 0 {
                self.calc_view_start(self.text.len() - 1);
            } else {
                self.view = None;
            }
        } else {
            if self.text.len() > 0 {
                self.calc_view_end(0, 0);
            } else {
                self.view = None;
            }
        }
    }

    /// Sets the window to the one that ends at `view_end`.
    fn calc_view_start(&mut self, view_end: usize)
        requires
            view_end <= old(self).text.len(),
            old(self).cursor <= old(self).text.len(),
        ensures
            final(self).wf(),
            final(self)@ == (LineEditModel {
                view: spec_view_start(old(self)@.text, old(self)@.width, view_end as int),
                ..old(self)@
            }),
    {
        let with_end = view_end == self.text.len();
        let e = if with_end { view_end } else { view_end + 1 };
        let gs = graphemes(&self.text, 0, e);
        proof {
            lemma_graphemes_props(self.text@, 0, e as int);
        }
        let ghost gsv = gs@;
        let mut w: i16 = if with_end { 1 } else { 0 };
        let ghost w0 = w;
        let width = self.width;
        let mut prev: Option<usize> = None;
        let mut broke = false;
        let mut k = gs.len();
        proof {
            assert(gsv.take(gsv.len() as int) =~= gsv);
            assert(gsv.take(0) =~= Seq::<Grapheme>::empty());
        }
        while k > 0
            invariant_except_break
                k <= gs@.len(),
                gsv.take(0) =~= Seq::<Grapheme>::empty(),
                !broke,
                gsv == gs@,
                forall|j: int| 0 <= j < gsv.len() ==> (#[trigger] gsv[j]).start < e,
                prev is Some ==> prev.unwrap() < e,
                ({
                    let (s, w2, br) = fit_back(gsv.take(k as int), w, width);
                    (if s is Some { s } else { prev }, w2, br)
                }) == fit_back(gsv, w0, width),
            ensures
                (prev, w, broke) == fit_back(gsv, w0, width),
                prev is Some ==> prev.unwrap() < e,
            decreases k,
        {
            let g = gs[k - 1];
            proof {
                assert(gsv.take(k as int).drop_last() =~= gsv.take(k - 1));
                assert(gsv.take(k as int).last() == g);
                crate::geom::lemma_as_u16(w.wrapping_add(g.width));
                crate::geom::lemma_as_u16(width);
            }
            if (w.wrapping_add(g.width) as u16) > (width as u16) {
                broke = true;
                break;
            }
            w = w.wrapping_add(g.width);
            prev = Some(g.start);
            k = k - 1;
        }
        proof {
            if k == 0 && !broke {
                assert(gsv.take(0) =~= Seq::<Grapheme>::empty());
            }
        }
        self.view = match prev {
            None => None,
            Some(st) => Some(
                EditView {
                    left_p: if broke { width.wrapping_sub(w) } else { 0 },
                    start: st,
                    end: view_end,
                    right_p: 0,
                },
            ),
        };
    }
    /// Sets the window to the one that starts at `view_start`, `left_p`
    /// columns in.
    fn calc_view_end(&mut self, view_start: usize, left_p: i16)
        requires
            view_start <= old(self).text.len(),
            old(self).cursor <= old(self).text.len(),
        ensures
            final(self).wf(),
            final(self)@ == (LineEditModel {
                view: spec_view_end(old(self)@.text, old(self)@.width, view_start as int, left_p),
                ..old(self)@
            }),
    {
        let len = self.text.len();
        let gs = graphemes(&self.text, view_start, len);
        proof {
            lemma_graphemes_props(self.text@, view_start as int, len as int);
        }
        let ghost items = end_items(self.text@, view_start as int);
        let mut its: Vec<(usize, i16)> = Vec::new();
        let mut j: usize = 0;
        while j < gs.len()
            invariant
                j <= gs@.len(),
                gs@ == spec_graphemes(self.text@, view_start as int, len as int),
                len == self.text@.len(),
                items == end_items(self.text@, view_start as int),
                forall|k: int|
                    0 <= k < gs@.len() ==> view_start <= (#[trigger] gs@[k]).start < gs@[k].end <= len,
                its@.len() == j,
                forall|k: int| 0 <= k < j ==> #[trigger] its@[k] == items[k],
            decreases gs@.len() - j,
        {
            let g = gs[j];
            its.push((g.end - 1, g.width));
            j = j + 1;
        }
        its.push((len, 1));
        proof {
            assert(its@ =~= items);
            assert forall|k: int| 0 <= k < items.len() implies view_start <= (#[trigger] items[k]).0
                <= len by {
                if k < gs@.len() {
                    assert(gs@[k].start < gs@[k].end);
                }
            }
        }
        let width = self.width;
        let mut w: i16 = left_p;
        let mut prev: Option<usize> = None;
        let mut broke = false;
        let mut k: usize = 0;
        proof {
            assert(items.skip(0) =~= items);
            assert(items.skip(items.len() as int) =~= Seq::<(usize, i16)>::empty());
        }
        while k < its.len()
            invariant_except_break
                k <= its@.len(),
                items.skip(items.len() as int) =~= Seq::<(usize, i16)>::empty(),
                !broke,
                its@ == items,
                forall|i: int| 0 <= i < items.len() ==> view_start <= (#[trigger] items[i]).0 <= len,
                prev is Some ==> view_start <= prev.unwrap() <= len,
                ({
                    let (r, w2, br) = fit_fwd(items.skip(k as int), w, width);
                    (if r is Some { r } else { prev }, w2, br)
                }) == fit_fwd(items, left_p, width),
            ensures
                (prev, w, broke) == fit_fwd(items, left_p, width),
                prev is Some ==> view_start <= prev.unwrap() <= len,
            decreases its@.len() - k,
        {
            let (x, gw) = its[k];
            proof {
                assert(items.skip(k as int).drop_first() =~= items.skip(k + 1));
                assert(items.skip(k as int)[0] == items[k as int]);
                crate::geom::lemma_as_u16(w.wrapping_add(gw));
                crate::geom::lemma_as_u16(width);
            }
            if (w.wrapping_add(gw) as u16) > (width as u16) {
                broke = true;
                break;
            }
            w = w.wrapping_add(gw);
            prev = Some(x);
            k = k + 1;
        }
        proof {
            if k == its.len() && !broke {
                assert(items.skip(k as int) =~= Seq::<(usize, i16)>::empty());
            }
        }
        self.view = match prev {
            None => None,
            Some(e) => Some(
                EditView {
                    left_p,
                    start: view_start,
                    end: e,
                    right_p: if broke { width.wrapping_sub(w) } else { 0 },
                },
            ),
        };
    }
}


/// The columns the characters of `s` take, added up exactly.
pub open spec fn columns(s: Seq<char>) -> int
    decreases s.len(),
{
    if s.len() == 0 {
        0
    } else {
        columns(s.drop_last()) + spec_char_width(s.last())
    }
}

/// Every character of `s` takes at most 255 columns, as the width table
/// gives.
pub open spec fn narrow(s: Seq<char>) -> bool {
    forall|i: int| 0 <= i < s.len() ==> 0 <= #[trigger] spec_char_width(s[i]) <= 255
}

/// While the columns stay within `i16`, the wrapping text width is the
/// exact one.
pub proof fn lemma_columns_width(s: Seq<char>)
    requires
        narrow(s),
        columns(s) <= 32767,
    ensures
        0 <= columns(s),
        spec_text_width(s) == columns(s),
    decreases s.len(),
{
    if s.len() > 0 {
        let d = s.drop_last();
        assert(narrow(d)) by {
            assert forall|i: int| 0 <= i < d.len() implies 0 <= #[trigger] spec_char_width(d[i]) <= 255 by {
                assert(d[i] == s[i]);
            }
        }
        assert(0 <= spec_char_width(s[s.len() - 1]) <= 255);
        lemma_columns_width(d);
    }
}

/// Columns add up over concatenation.
pub proof fn lemma_columns_add(a: Seq<char>, b: Seq<char>)
    ensures
        columns(a + b) == columns(a) + columns(b),
    decreases b.len(),
{
    if b.len() > 0 {
        lemma_columns_add(a, b.drop_last());
        assert((a + b).drop_last() =~= a + b.drop_last());
        assert((a + b).last() == b.last());
    }
}

/// Columns of a piece add up over a cut.
pub proof fn lemma_columns_split(s: Seq<char>, a: int, m: int, b: int)
    requires
        0 <= a <= m <= b <= s.len(),
    ensures
        columns(s.subrange(a, b)) == columns(s.subrange(a, m)) + columns(s.subrange(m, b)),
{
    assert(s.subrange(a, b) =~= s.subrange(a, m) + s.subrange(m, b));
    lemma_columns_add(s.subrange(a, m), s.subrange(m, b));
}

/// A cluster takes the columns of its first character only.
proof fn lemma_cluster_columns(s: Seq<char>, lo: int, e: int)
    requires
        0 <= lo < e <= s.len(),
        narrow(s),
        forall|j: int| lo < j < e ==> !crate::text::is_gstart(s, lo, j),
    ensures
        columns(s.subrange(lo, e)) == spec_char_width(s[lo]),
        0 <= columns(s.subrange(lo, e)) <= 255,
    decreases e - lo,
{
    if e > lo + 1 {
        lemma_cluster_columns(s, lo, e - 1);
        assert(s.subrange(lo, e).drop_last() =~= s.subrange(lo, e - 1));
        assert(!crate::text::is_gstart(s, lo, e - 1));
        assert(s.subrange(lo, e).last() == s[e - 1]);
        assert(spec_char_width(s[e - 1]) == 0);
    } else {
        assert(s.subrange(lo, e).drop_last() =~= Seq::<char>::empty());
        assert(columns(Seq::<char>::empty()) == 0);
        assert(s.subrange(lo, e).last() == s[lo]);
    }
    assert(0 <= spec_char_width(s[lo]) <= 255);
}

/// The widths of the first `m` clusters, added up.
pub open spec fn gsum(gs: Seq<Grapheme>, m: int) -> int
    decreases m,
{
    if m <= 0 {
        0
    } else {
        gsum(gs, m - 1) + gs[m - 1].width
    }
}

/// The clusters of `s[lo .. hi]` cover it in order, each taking the
/// columns of its characters; the first `m` take the columns up to the end
/// of the `m`-th.
proof fn lemma_graphemes_cover(s: Seq<char>, lo: int, hi: int)
    requires
        0 <= lo <= hi <= s.len(),
        hi <= usize::MAX,
        narrow(s),
    ensures
        ({
            let gs = spec_graphemes(s, lo, hi);
            &&& gs.len() > 0 ==> gs[0].start == lo && gs[gs.len() - 1].end == hi
            &&& forall|k: int| 0 <= k < gs.len() - 1 ==> #[trigger] gs[k].end == gs[k + 1].start
            &&& forall|k: int|
                0 <= k < gs.len() ==> lo <= (#[trigger] gs[k]).start < gs[k].end <= hi && gs[k].width
                    == columns(s.subrange(gs[k].start as int, gs[k].end as int)) && 0 <= gs[k].width <= 255
            &&& forall|m: int|
                1 <= m <= gs.len() ==> #[trigger] gsum(gs, m) == columns(
                    s.subrange(lo, gs[m - 1].end as int),
                )
        }),
    decreases hi - lo,
{
    if lo < hi {
        let e = next_gstart(s, lo, lo + 1, hi);
        lemma_next_gstart_bounds(s, lo, lo + 1, hi);
        lemma_graphemes_cover(s, e, hi);
        lemma_cluster_columns(s, lo, e);
        let gs = spec_graphemes(s, lo, hi);
        let rest = spec_graphemes(s, e, hi);
        let g0 = Grapheme { start: lo as usize, end: e as usize, width: spec_text_width(s.subrange(lo, e)) };
        assert(gs == seq![g0] + rest);
        assert forall|i: int| 0 <= i < s.subrange(lo, e).len() implies 0 <= #[trigger] spec_char_width(
            s.subrange(lo, e)[i],
        ) <= 255 by {
            assert(s.subrange(lo, e)[i] == s[lo + i]);
        }
        lemma_columns_width(s.subrange(lo, e));
        assert(gs[0] == g0);
        assert forall|k: int| 0 < k < gs.len() implies #[trigger] gs[k] == rest[k - 1] by {}
        if rest.len() == 0 {
            assert(e == hi) by {
                lemma_graphemes_len(s, e, hi);
            }
        }
        assert forall|m: int| 1 <= m <= gs.len() implies #[trigger] gsum(gs, m) == columns(
            s.subrange(lo, gs[m - 1].end as int),
        ) by {
            lemma_gsum_shift(gs, rest, g0, m);
            if m > 1 {
                assert(gsum(rest, m - 1) == columns(s.subrange(e, rest[m - 2].end as int)));
                lemma_columns_split(s, lo, e, rest[m - 2].end as int);
            }
        }
    }
}

proof fn lemma_graphemes_len(s: Seq<char>, lo: int, hi: int)
    requires
        0 <= lo <= hi <= s.len(),
    ensures
        spec_graphemes(s, lo, hi).len() == 0 <==> lo == hi,
{
    if lo < hi {
        lemma_next_gstart_bounds(s, lo, lo + 1, hi);
    }
}

/// Adding up clusters with a first one in front.
proof fn lemma_gsum_shift(gs: Seq<Grapheme>, rest: Seq<Grapheme>, g0: Grapheme, m: int)
    requires
        gs == seq![g0] + rest,
        1 <= m <= gs.len(),
    ensures
        gsum(gs, m) == g0.width + gsum(rest, m - 1),
    decreases m,
{
    if m > 1 {
        lemma_gsum_shift(gs, rest, g0, m - 1);
        assert(gs[m - 1] == rest[m - 2]);
    } else {
        assert(gsum(gs, 0) == 0);
        assert(gsum(rest, 0) == 0);
        assert(gs[0] == g0);
    }
}

/// The widths of the first `m` items, added up.
pub open spec fn isum(items: Seq<(usize, i16)>, m: int) -> int
    decreases m,
{
    if m <= 0 {
        0
    } else {
        isum(items, m - 1) + items[m - 1].1
    }
}

proof fn lemma_isum_shift(items: Seq<(usize, i16)>, m: int)
    requires
        1 <= m <= items.len(),
    ensures
        isum(items, m) == items[0].1 + isum(items.drop_first(), m - 1),
    decreases m,
{
    if m > 1 {
        lemma_isum_shift(items, m - 1);
        assert(items.drop_first()[m - 2] == items[m - 1]);
    } else {
        assert(isum(items, 0) == 0);
        assert(isum(items.drop_first(), 0) == 0);
    }
}

/// Adding a width of at most 255 to a column count in `i16` range is exact
/// when seen unsigned.
proof fn lemma_wadd_u16(w: i16, i: i16)
    requires
        0 <= w,
        0 <= i <= 255,
    ensures
        u16v(wadd(w, i)) == w + i,
        w + i <= 32767 ==> wadd(w, i) == w + i,
{
}

/// Fitting items from the left takes the first `m` of them, and they fit in
/// `width` columns after the `w` taken already.
proof fn lemma_fit_fwd(items: Seq<(usize, i16)>, w: i16, width: i16) -> (m: int)
    requires
        0 <= w,
        0 <= width,
        forall|k: int| 0 <= k < items.len() ==> 0 <= (#[trigger] items[k]).1 <= 255,
    ensures
        0 <= m <= items.len(),
        fit_fwd(items, w, width).0 == (if m == 0 { None } else { Some(items[m - 1].0) }),
        m > 0 ==> w + isum(items, m) <= width,
    decreases items.len(),
{
    if items.len() == 0 {
        0
    } else {
        lemma_wadd_u16(w, items[0].1);
        if u16v(wadd(w, items[0].1)) > u16v(width) {
            0
        } else {
            let w1 = wadd(w, items[0].1);
            let rest = items.drop_first();
            assert forall|k: int| 0 <= k < rest.len() implies 0 <= (#[trigger] rest[k]).1 <= 255 by {
                assert(rest[k] == items[k + 1]);
            }
            let m1 = lemma_fit_fwd(rest, w1, width);
            lemma_isum_shift(items, m1 + 1);
            if m1 > 0 {
                assert(rest[m1 - 1] == items[m1]);
            } else {
                assert(isum(rest, 0) == 0);
            }
            m1 + 1
        }
    }
}

/// The characters a window shows: through the last character of its last
/// cluster, or to the end of the text.
pub open spec fn shown_text(text: Seq<char>, v: EditView) -> Seq<char> {
    if v.end == text.len() {
        text.subrange(v.start as int, v.end as int)
    } else {
        text.subrange(v.start as int, v.end + 1)
    }
}

proof fn lemma_narrow_sub(s: Seq<char>, a: int, b: int)
    requires
        narrow(s),
        0 <= a <= b <= s.len(),
    ensures
        narrow(s.subrange(a, b)),
{
    assert forall|i: int| 0 <= i < s.subrange(a, b).len() implies 0 <= #[trigger] spec_char_width(
        s.subrange(a, b)[i],
    ) <= 255 by {
        assert(s.subrange(a, b)[i] == s[a + i]);
    }
}

proof fn lemma_isum_gsum(items: Seq<(usize, i16)>, gs: Seq<Grapheme>, m: int)
    requires
        0 <= m <= gs.len(),
        m <= items.len(),
        forall|k: int| 0 <= k < gs.len() && k < items.len() ==> (#[trigger] items[k]).1 == gs[k].width,
    ensures
        isum(items, m) == gsum(gs, m),
    decreases m,
{
    if m > 0 {
        lemma_isum_gsum(items, gs, m - 1);
        assert(items[m - 1].1 == gs[m - 1].width);
    }
}

/// A window filled rightwards from `vs`, `lp` columns in, shows no more
/// columns than the field is wide, the left padding included; its text's
/// width is within the field.
pub proof fn law_view_end_fits(text: Seq<char>, width: i16, vs: int, lp: i16)
    requires
        0 <= vs <= text.len(),
        text.len() <= usize::MAX,
        narrow(text),
        0 <= width,
        0 <= lp,
        spec_view_end(text, width, vs, lp) is Some,
    ensures
        ({
            let v = spec_view_end(text, width, vs, lp).unwrap();
            &&& lp + columns(shown_text(text, v)) <= width
            &&& 0 <= spec_text_width(shown_text(text, v)) <= width
        }),
{
    let len = text.len() as int;
    let gs = spec_graphemes(text, vs, len);
    let items = end_items(text, vs);
    let g = gs.len() as int;
    lemma_graphemes_cover(text, vs, len);
    lemma_graphemes_len(text, vs, len);
    assert forall|k: int| 0 <= k < items.len() implies 0 <= (#[trigger] items[k]).1 <= 255 by {
        if k < g {
            assert(items[k].1 == gs[k].width);
        }
    }
    let m = lemma_fit_fwd(items, lp, width);
    let v = spec_view_end(text, width, vs, lp).unwrap();
    assert(m > 0);
    assert(v.end == items[m - 1].0);
    assert(v.start == vs);
    lemma_isum_gsum(items, gs, if m - 1 < g { m } else { g });
    if m - 1 < g {
        assert(items[m - 1].0 == (gs[m - 1].end - 1) as usize);
        assert(shown_text(text, v) == text.subrange(vs, gs[m - 1].end as int));
        assert(gsum(gs, m) == columns(text.subrange(vs, gs[m - 1].end as int)));
    } else {
        assert(m - 1 == g);
        assert(items[g].1 == 1);
        assert(isum(items, m) == isum(items, g) + 1);
        assert(shown_text(text, v) == text.subrange(vs, len));
        if g > 0 {
            assert(gsum(gs, g) == columns(text.subrange(vs, gs[g - 1].end as int)));
        } else {
            assert(text.subrange(vs, len) =~= Seq::<char>::empty());
            assert(columns(Seq::<char>::empty()) == 0);
            assert(gsum(gs, 0) == 0);
        }
    }
    let sh = shown_text(text, v);
    lemma_narrow_sub(text, vs, vs + sh.len());
    assert(sh == text.subrange(vs, vs + sh.len()));
    lemma_columns_width(sh);
}

/// The widths of the last `m` clusters, added up.
pub open spec fn bsum(gs: Seq<Grapheme>, m: int) -> int
    decreases m,
{
    if m <= 0 || gs.len() == 0 {
        0
    } else {
        bsum(gs.drop_last(), m - 1) + gs.last().width
    }
}

proof fn lemma_gsum_prefix(gs: Seq<Grapheme>, hs: Seq<Grapheme>, k: int)
    requires
        0 <= k <= gs.len(),
        k <= hs.len(),
        forall|i: int| 0 <= i < k ==> gs[i] == hs[i],
    ensures
        gsum(gs, k) == gsum(hs, k),
    decreases k,
{
    if k > 0 {
        lemma_gsum_prefix(gs, hs, k - 1);
    }
}

proof fn lemma_gsum_bsum(gs: Seq<Grapheme>, m: int)
    requires
        0 <= m <= gs.len(),
    ensures
        gsum(gs, gs.len() as int) == gsum(gs, gs.len() - m) + bsum(gs, m),
    decreases m,
{
    if m > 0 {
        let dl = gs.drop_last();
        let n = gs.len() as int;
        lemma_gsum_bsum(dl, m - 1);
        lemma_gsum_prefix(gs, dl, n - 1);
        lemma_gsum_prefix(gs, dl, n - m);
        assert(gs[n - 1] == gs.last());
    } else {
        assert(bsum(gs, 0) == 0);
    }
}

/// Fitting clusters from the right takes the last `m` of them, and they fit
/// in `width` columns after the `w` taken already.
proof fn lemma_fit_back(gs: Seq<Grapheme>, w: i16, width: i16) -> (m: int)
    requires
        0 <= w,
        0 <= width,
        forall|k: int| 0 <= k < gs.len() ==> 0 <= (#[trigger] gs[k]).width <= 255,
    ensures
        0 <= m <= gs.len(),
        fit_back(gs, w, width).0 == (if m == 0 { None } else { Some(gs[gs.len() - m].start) }),
        m > 0 ==> w + bsum(gs, m) <= width,
        m > 0 ==> fit_back(gs, w, width).1 == w + bsum(gs, m),
    decreases gs.len(),
{
    if gs.len() == 0 {
        0
    } else {
        let last = gs.last();
        assert(0 <= last.width <= 255) by {
            assert(gs[gs.len() - 1] == last);
        }
        lemma_wadd_u16(w, last.width);
        if u16v(wadd(w, last.width)) > u16v(width) {
            0
        } else {
            let w1 = wadd(w, last.width);
            let dl = gs.drop_last();
            assert forall|k: int| 0 <= k < dl.len() implies 0 <= (#[trigger] dl[k]).width <= 255 by {
                assert(dl[k] == gs[k]);
            }
            let m1 = lemma_fit_back(dl, w1, width);
            if m1 > 0 {
                assert(dl[dl.len() - m1] == gs[gs.len() - (m1 + 1)]);
            } else {
                assert(bsum(dl, 0) == 0);
            }
            m1 + 1
        }
    }
}

/// A window filled leftwards to end at `ve` shows no more columns than the
/// field is wide, its left padding and the column after the text (when it
/// reaches the end) included; its text's width is within the field.
pub proof fn law_view_start_fits(text: Seq<char>, width: i16, ve: int)
    requires
        0 <= ve <= text.len(),
        text.len() < usize::MAX,
        narrow(text),
        0 <= width,
        spec_view_start(text, width, ve) is Some,
    ensures
        ({
            let v = spec_view_start(text, width, ve).unwrap();
            &&& 0 <= v.left_p
            &&& v.left_p + columns(shown_text(text, v)) <= width
            &&& 0 <= spec_text_width(shown_text(text, v)) <= width
        }),
{
    let len = text.len() as int;
    let with_end = ve == len;
    let e = if with_end { ve } else { ve + 1 };
    let w0: i16 = if with_end { 1 } else { 0 };
    let gs = spec_graphemes(text, 0, e);
    let g = gs.len() as int;
    lemma_graphemes_cover(text, 0, e);
    lemma_graphemes_len(text, 0, e);
    let m = lemma_fit_back(gs, w0, width);
    let v = spec_view_start(text, width, ve).unwrap();
    assert(m > 0);
    let st = gs[g - m].start as int;
    assert(v.start == st);
    assert(v.end == ve);
    assert(shown_text(text, v) == text.subrange(st, e));
    // The last `m` clusters cover `st .. e`.
    lemma_gsum_bsum(gs, m);
    assert(gsum(gs, g) == columns(text.subrange(0, e)));
    if m < g {
        assert(gs[g - m - 1].end == gs[g - m].start);
        assert(gsum(gs, g - m) == columns(text.subrange(0, st)));
    } else {
        assert(st == 0);
        assert(gsum(gs, 0) == 0);
        assert(text.subrange(0, 0) =~= Seq::<char>::empty());
        assert(columns(Seq::<char>::empty()) == 0);
    }
    lemma_columns_split(text, 0, st, e);
    assert(columns(text.subrange(st, e)) == bsum(gs, m));
    let sh = text.subrange(st, e);
    lemma_narrow_sub(text, st, e);
    lemma_columns_width(sh);
}

/// The window fits the field: where the width is not negative, the left
/// padding is not negative and, with the columns of the text shown, is at
/// most the width.
pub open spec fn window_fits(m: LineEditModel) -> bool {
    m.width >= 0 ==> match m.view {
        None => true,
        Some(v) => 0 <= v.left_p && v.left_p + columns(shown_text(m.text, v)) <= m.width,
    }
}

/// The text a fitting window shows is no wider than the field.
pub proof fn law_render_fits(m: LineEditModel)
    requires
        window_fits(m),
        narrow(m.text),
        model_wf(m),
        m.width >= 0,
    ensures
        spec_render(m) matches Some(r) ==> 0 <= spec_text_width(r.0) <= m.width,
{
    if let Some(v) = m.view {
        let sh = shown_text(m.text, v);
        if v.end == m.text.len() {
            lemma_narrow_sub(m.text, v.start as int, v.end as int);
        } else {
            lemma_narrow_sub(m.text, v.start as int, v.end + 1);
        }
        lemma_columns_width(sh);
    }
}

/// A window built by filling to the right, or to the left, fits.
proof fn lemma_built_fits(text: Seq<char>, width: i16, v: Option<EditView>)
    requires
        narrow(text),
        text.len() < usize::MAX,
        width >= 0,
        v is None || (exists|vs: int, lp: i16|
            0 <= vs <= text.len() && 0 <= lp && v == spec_view_end(text, width, vs, lp)) || (exists|ve: int|
            0 <= ve <= text.len() && v == spec_view_start(text, width, ve)),
    ensures
        window_fits(LineEditModel { text, width, view: v, cursor: 0, delete_char: false, is_numeric: false, is_focused: false }),
{
    if v is Some {
        if exists|vs: int, lp: i16| 0 <= vs <= text.len() && 0 <= lp && v == spec_view_end(text, width, vs, lp) {
            let (vs, lp) = choose|vs: int, lp: i16|
                0 <= vs <= text.len() && 0 <= lp && v == spec_view_end(text, width, vs, lp);
            law_view_end_fits(text, width, vs, lp);
            assert(v.unwrap().left_p == lp);
        } else {
            let ve = choose|ve: int| 0 <= ve <= text.len() && v == spec_view_start(text, width, ve);
            law_view_start_fits(text, width, ve);
        }
    }
}

/// Whether a window fits depends on the text, the width and the window.
proof fn lemma_fits_same(a: LineEditModel, b: LineEditModel)
    requires
        a.text == b.text,
        a.width == b.width,
        a.view == b.view,
    ensures
        window_fits(a) == window_fits(b),
{
}

/// Resetting the window makes one that fits.
pub proof fn law_reset_fits(m: LineEditModel)
    requires
        narrow(m.text),
        m.text.len() < usize::MAX,
    ensures
        window_fits(reset(m)),
{
    let r = reset(m);
    if m.width >= 0 {
        let len = m.text.len() as int;
        if m.is_focused {
            lemma_built_fits(m.text, m.width, spec_view_start(m.text, m.width, len));
        } else if len == 0 {
        } else if m.is_numeric {
            lemma_built_fits(m.text, m.width, spec_view_start(m.text, m.width, len - 1));
        } else {
            lemma_built_fits(m.text, m.width, spec_view_end(m.text, m.width, 0, 0));
        }
        lemma_fits_same(r, LineEditModel { text: m.text, width: m.width, view: r.view, cursor: 0, delete_char: false, is_numeric: false, is_focused: false });
    }
}

/// Moving the cursor keeps the window fitting.
pub proof fn law_cursor_moves_keep_fit(m: LineEditModel)
    requires
        model_wf(m),
        window_fits(m),
        narrow(m.text),
        m.text.len() < usize::MAX,
    ensures
        spec_cursor_left(m) matches Some(m1) ==> window_fits(m1),
        spec_cursor_right(m) matches Some(m1) ==> window_fits(m1),
        window_fits(spec_cursor_home(m)),
        window_fits(spec_cursor_end(m)),
{
    let len = m.text.len() as int;
    let base = |v: Option<EditView>| LineEditModel { text: m.text, width: m.width, view: v, cursor: 0, delete_char: false, is_numeric: false, is_focused: false };
    if m.width >= 0 {
        if m.cursor > 0 {
            let c = prev_gstart(m.text, 0, m.cursor - 1);
            lemma_prev_gstart_bounds(m.text, 0, m.cursor - 1);
            lemma_built_fits(m.text, m.width, spec_view_end(m.text, m.width, c, 0));
            if view_contains(m.view, c) {
                lemma_fits_same(spec_cursor_left(m).unwrap(), m);
            } else {
                lemma_fits_same(spec_cursor_left(m).unwrap(), base(spec_view_end(m.text, m.width, c, 0)));
            }
        }
        if m.cursor < len {
            let cur = m.cursor as int;
            let e1 = next_gstart(m.text, cur, cur + 1, len);
            lemma_next_gstart_bounds(m.text, cur, cur + 1, len);
            let cend = if e1 < len { next_gstart(m.text, cur, e1 + 1, len) - 1 } else { len };
            if e1 < len {
                lemma_next_gstart_bounds(m.text, cur, e1 + 1, len);
            }
            lemma_built_fits(m.text, m.width, spec_view_start(m.text, m.width, cend));
            let nc = if e1 < len { e1 } else { len };
            if view_contains(m.view, nc) {
                lemma_fits_same(spec_cursor_right(m).unwrap(), m);
            } else {
                lemma_fits_same(spec_cursor_right(m).unwrap(), base(spec_view_start(m.text, m.width, cend)));
            }
        }
        if len > 0 {
            lemma_built_fits(m.text, m.width, spec_view_end(m.text, m.width, 0, 0));
        }
        lemma_fits_same(spec_cursor_home(m), base(spec_cursor_home(m).view));
        lemma_built_fits(m.text, m.width, spec_view_start(m.text, m.width, len));
        lemma_fits_same(spec_cursor_end(m), base(spec_cursor_end(m).view));
    }
}

/// The window after an edit, or after a deletion, is one built by filling
/// to the right or to the left, or none.
proof fn lemma_after_views_fit(text: Seq<char>, width: i16, cursor: int, vs: int, lp: i16)
    requires
        narrow(text),
        text.len() < usize::MAX,
        width >= 0,
        0 <= vs <= text.len(),
        0 <= lp,
        0 <= cursor <= text.len(),
    ensures
        window_fits(LineEditModel { text, width, view: after_edit_view(text, width, cursor, vs, lp), cursor: 0, delete_char: false, is_numeric: false, is_focused: false }),
        window_fits(LineEditModel { text, width, view: after_delete_view(text, width, vs, lp), cursor: 0, delete_char: false, is_numeric: false, is_focused: false }),
{
    let len = text.len() as int;
    lemma_built_fits(text, width, spec_view_end(text, width, vs, lp));
    lemma_built_fits(text, width, spec_view_start(text, width, len));
    let ce = if cursor < len { next_gstart(text, cursor, cursor + 1, len) - 1 } else { cursor };
    if cursor < len {
        lemma_next_gstart_bounds(text, cursor, cursor + 1, len);
    }
    lemma_built_fits(text, width, spec_view_start(text, width, ce));
}

/// Typing a character of at most 255 columns, or deleting, keeps the window
/// fitting.
pub proof fn law_edits_keep_fit(m: LineEditModel, c: char)
    requires
        model_wf(m),
        window_fits(m),
        narrow(m.text),
        m.text.len() + 1 < usize::MAX,
        !(m.delete_char && m.cursor == 0),
    ensures
        0 <= spec_char_width(c) <= 255 ==> (spec_type_char(m, c) matches Some(m1) ==> window_fits(m1)),
        spec_delete(m) matches Some(m1) ==> window_fits(m1),
{
    let cur = m.cursor as int;
    let len = m.text.len() as int;
    let base = |t: Seq<char>, v: Option<EditView>| LineEditModel { text: t, width: m.width, view: v, cursor: 0, delete_char: false, is_numeric: false, is_focused: false };
    if m.width >= 0 {
        if 0 <= spec_char_width(c) <= 255 && spec_type_char(m, c) is Some {
            let t2 = m.text.insert(cur, c);
            assert(narrow(t2)) by {
                assert forall|i: int| 0 <= i < t2.len() implies 0 <= #[trigger] spec_char_width(t2[i]) <= 255 by {
                    if i < cur {
                        assert(t2[i] == m.text[i]);
                    } else if i > cur {
                        assert(t2[i] == m.text[i - 1]);
                    }
                }
            }
            let (vs, lp) = if m.view is Some && m.view.unwrap().start < cur {
                (m.view.unwrap().start as int, m.view.unwrap().left_p)
            } else if unicode_width_of(c).unwrap() == 0 {
                (prev_gstart(m.text, 0, cur - 1), 0i16)
            } else {
                (cur, 0i16)
            };
            if !(m.view is Some && m.view.unwrap().start < cur) && unicode_width_of(c).unwrap() == 0 {
                lemma_prev_gstart_bounds(m.text, 0, cur - 1);
            }
            lemma_after_views_fit(t2, m.width, cur + 1, vs, lp);
            lemma_fits_same(spec_type_char(m, c).unwrap(), base(t2, after_edit_view(t2, m.width, cur + 1, vs, lp)));
        }
        if spec_delete(m) is Some {
            let m1 = spec_delete(m).unwrap();
            let t2 = m1.text;
            let cur2 = m1.cursor as int;
            if m.delete_char {
                assert(t2 == m.text.remove(cur - 1));
                assert(narrow(t2)) by {
                    assert forall|i: int| 0 <= i < t2.len() implies 0 <= #[trigger] spec_char_width(t2[i]) <= 255 by {
                        if i < cur - 1 {
                            assert(t2[i] == m.text[i]);
                        } else {
                            assert(t2[i] == m.text[i + 1]);
                        }
                    }
                }
            } else {
                let gs = prev_gstart(m.text, 0, cur - 1);
                lemma_prev_gstart_bounds(m.text, 0, cur - 1);
                assert(t2 == m.text.subrange(0, gs) + m.text.subrange(cur, len));
                assert(narrow(t2)) by {
                    assert forall|i: int| 0 <= i < t2.len() implies 0 <= #[trigger] spec_char_width(t2[i]) <= 255 by {
                        if i < gs {
                            assert(t2[i] == m.text[i]);
                        } else {
                            assert(t2[i] == m.text[i - gs + cur]);
                        }
                    }
                }
            }
            let (vs, lp) = if m.view is Some && m.view.unwrap().start <= cur2 {
                (m.view.unwrap().start as int, m.view.unwrap().left_p)
            } else {
                (cur2, 0i16)
            };
            lemma_after_views_fit(t2, m.width, 0, vs, lp);
            lemma_fits_same(m1, base(t2, after_delete_view(t2, m.width, vs, lp)));
        }
    }
}

/// Going home on a text whose first character fits the field scrolls the
/// window back to the start of the text: the window begins at the text's
/// start, with no padding, and holds the cursor; a focused editor shows the
/// cursor in the first column of the text.
pub proof fn law_home_shows_the_start(m: LineEditModel)
    requires
        m.text.len() > 0,
        m.text.len() <= usize::MAX,
        narrow(m.text),
        0 <= spec_char_width(m.text[0]) <= m.width,
    ensures
        ({
            let h = spec_cursor_home(m);
            &&& h.cursor == 0
            &&& h.view matches Some(v) && v.start == 0 && v.left_p == 0 && v.start <= h.cursor <= v.end
            &&& h.is_focused ==> (spec_render(h) matches Some(r) && r.4 == Some(r.1) && !r.2)
        }),
{
    let len = m.text.len() as int;
    let gs = spec_graphemes(m.text, 0, len);
    let items = end_items(m.text, 0);
    let e = next_gstart(m.text, 0, 1, len);
    lemma_next_gstart_bounds(m.text, 0, 1, len);
    lemma_cluster_columns(m.text, 0, e);
    lemma_graphemes_cover(m.text, 0, len);
    lemma_graphemes_len(m.text, 0, len);
    assert(gs[0].start == 0 && gs[0].end == e);
    assert(items[0].1 == gs[0].width);
    assert(0 <= items[0].1 <= m.width);
    lemma_wadd_u16(0, items[0].1);
    assert(u16v(wadd(0, items[0].1)) <= u16v(m.width));
    assert(fit_fwd(items, 0, m.width).0 is Some);
    let v = spec_view_end(m.text, m.width, 0, 0).unwrap();
    assert(v.start == 0 && v.left_p == 0);
    let h = spec_cursor_home(m);
    assert(h.view == Some(v));
    assert(m.text.subrange(0, 0) =~= Seq::<char>::empty());
    assert(spec_text_width(Seq::<char>::empty()) == 0);
}
} // verus!
