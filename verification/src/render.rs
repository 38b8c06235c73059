//! Drawing: which views are painted in a frame, where and clipped to what,
//! and where the parts of a button, a piece of text and a border go.
use vstd::prelude::*;
use crate::geom::{
    Vector, Point, Rect, Thickness, HAlign, VAlign, u16v, spec_shrink_rect, spec_align,
    spec_rect_intersect, spec_rect_offset, spec_b_line, spec_r_line, spec_r_inner, spec_b_inner,
};
use crate::text::{label_width, spec_label_width, Visibility};
use crate::components::{Color, MButton, TButton};
use crate::tree::{VisualTree, TreeView, tl_vec};

verus! {

/// The colors of a button's label: plain and hotkey.
pub open spec fn spec_t_button_colors(t: TButton, is_enabled: bool, is_focused: bool) -> (Color, Color) {
    if !is_enabled {
        (t.color_disabled, t.color_disabled)
    } else if is_focused {
        (t.color_focused, t.color_focused_hotkey)
    } else {
        (t.color, t.color_hotkey)
    }
}

/// A disabled button is gray, a focused one highlighted.
pub fn t_button_colors(t: &TButton, is_enabled: bool, is_focused: bool) -> (res: (Color, Color))
    ensures
        res == spec_t_button_colors(*t, is_enabled, is_focused),
{
    if !is_enabled {
        (t.color_disabled, t.color_disabled)
    } else if is_focused {
        (t.color_focused, t.color_focused_hotkey)
    } else {
        (t.color, t.color_hotkey)
    }
}

/// The smaller of two numbers.
pub open spec fn smin(a: i16, b: i16) -> i16 {
    if a <= b { a } else { b }
}

/// Where a label of width `w` goes in `area` with `pad` taken off:
/// centered both ways, at most as wide as the space and one row high.
pub open spec fn spec_label_bounds(area: Rect, pad: Thickness, w: i16) -> Rect {
    let tb = spec_shrink_rect(pad, area);
    spec_shrink_rect(
        spec_align(Vector { x: smin(w, tb.size.x), y: smin(1, tb.size.y) }, tb.size, HAlign::Center, VAlign::Center),
        tb,
    )
}

pub fn label_bounds(area: Rect, pad: Thickness, text: &Vec<char>) -> (res: Rect)
    requires
        pad.wf(),
    ensures
        res == spec_label_bounds(area, pad, spec_label_width(text@)),
{
    let tb = pad.shrink_rect(area);
    let w = label_width(text);
    let lw = if w <= tb.size.x { w } else { tb.size.x };
    let lh: i16 = if 1 <= tb.size.y { 1 } else { tb.size.y };
    Thickness::align(Vector { x: lw, y: lh }, tb.size, HAlign::Center, VAlign::Center).shrink_rect(tb)
}

/// Where the shadow of a released button is drawn: a half block row under
/// it (from its second column), a full block column right of it (from its
/// second row to its last but one) and a lower half block at its top right.
#[derive(Clone, Copy, PartialEq, Eq, Debug, Structural)]
pub struct ButtonShadow {
    pub bottom: Rect,
    pub right: Rect,
    pub corner: Point,
}

/// How a button with a shadow is drawn in `inner`: the colors, the area
/// filled with the background color, where the label goes, and the shadow
/// of a released button.
#[derive(Clone, Copy, PartialEq, Eq, Debug, Structural)]
pub struct TButtonDraw {
    pub color: Color,
    pub color_hotkey: Color,
    pub fill: Rect,
    pub label: Rect,
    pub shadow: Option<ButtonShadow>,
}

pub open spec fn spec_t_button_draw(
    t: TButton,
    label_w: i16,
    is_enabled: bool,
    is_focused: bool,
    is_pressed: bool,
    inner: Rect,
) -> TButtonDraw {
    let (color, color_hotkey) = spec_t_button_colors(t, is_enabled, is_focused);
    let pad = Thickness { l: 1, t: 0, r: 1, b: 0 };
    if is_pressed {
        TButtonDraw { color, color_hotkey, fill: inner, label: spec_label_bounds(inner, pad, label_w), shadow: None }
    } else {
        let bg = spec_shrink_rect(Thickness { l: 0, t: 0, r: 1, b: 1 }, inner);
        TButtonDraw {
            color,
            color_hotkey,
            fill: bg,
            label: spec_label_bounds(bg, pad, label_w),
            shadow: Some(
                ButtonShadow {
                    bottom: spec_shrink_rect(Thickness { l: 1, t: 0, r: 0, b: 0 }, spec_b_line(inner)),
                    right: spec_shrink_rect(Thickness { l: 0, t: 1, r: 0, b: 1 }, spec_r_line(inner)),
                    corner: Point { x: spec_r_inner(inner), y: inner.tl.y },
                },
            ),
        }
    }
}

/// The drawing of a button with a shadow and the label `text`.
pub fn t_button_draw(
    t: &TButton,
    text: &Vec<char>,
    is_enabled: bool,
    is_focused: bool,
    is_pressed: bool,
    inner: Rect,
) -> (res: TButtonDraw)
    ensures
        res == spec_t_button_draw(*t, spec_label_width(text@), is_enabled, is_focused, is_pressed, inner),
{
    let (color, color_hotkey) = t_button_colors(t, is_enabled, is_focused);
    let pad = Thickness::new(1, 0, 1, 0);
    if is_pressed {
        TButtonDraw { color, color_hotkey, fill: inner, label: label_bounds(inner, pad, text), shadow: None }
    } else {
        let bg = Thickness::new(0, 0, 1, 1).shrink_rect(inner);
        let bottom = Thickness::new(1, 0, 0, 0).shrink_rect(inner.b_line());
        let right = Thickness::new(0, 1, 0, 1).shrink_rect(inner.r_line());
        TButtonDraw {
            color,
            color_hotkey,
            fill: bg,
            label: label_bounds(bg, pad, text),
            shadow: Some(ButtonShadow { bottom, right, corner: inner.tr_inner() }),
        }
    }
}

/// The colors of a menu-style button's label: plain and hotkey. A pressed
/// or disabled button shows its hotkey in the plain color.
pub open spec fn spec_m_button_colors(m: MButton, is_enabled: bool, is_pressed: bool, is_focused: bool) -> (Color, Color) {
    if !is_enabled {
        (m.color_disabled, m.color_disabled)
    } else if is_pressed {
        (m.color_pressed, m.color_pressed)
    } else if is_focused {
        (m.color_focused, m.color_focused_hotkey)
    } else {
        (m.color, m.color_hotkey)
    }
}

/// How a menu-style button is drawn in `inner`: the area filled with the
/// background color, the label centered two columns in from each side,
/// and brackets in its first and last cells.
#[derive(Clone, Copy, PartialEq, Eq, Debug, Structural)]
pub struct MButtonDraw {
    pub color: Color,
    pub color_hotkey: Color,
    pub fill: Rect,
    pub label: Rect,
    /// Where `[` goes.
    pub open_bracket: Point,
    /// Where `]` goes.
    pub close_bracket: Point,
}

pub open spec fn spec_m_button_draw(
    m: MButton,
    label_w: i16,
    is_enabled: bool,
    is_focused: bool,
    is_pressed: bool,
    inner: Rect,
) -> MButtonDraw {
    let (color, color_hotkey) = spec_m_button_colors(m, is_enabled, is_pressed, is_focused);
    MButtonDraw {
        color,
        color_hotkey,
        fill: inner,
        label: spec_label_bounds(inner, Thickness { l: 2, t: 0, r: 2, b: 0 }, label_w),
        open_bracket: inner.tl,
        close_bracket: Point { x: spec_r_inner(inner), y: spec_b_inner(inner) },
    }
}

/// The drawing of a menu-style button with the label `text`.
pub fn m_button_draw(
    m: &MButton,
    text: &Vec<char>,
    is_enabled: bool,
    is_focused: bool,
    is_pressed: bool,
    inner: Rect,
) -> (res: MButtonDraw)
    ensures
        res == spec_m_button_draw(*m, spec_label_width(text@), is_enabled, is_focused, is_pressed, inner),
{
    let (color, color_hotkey) = if !is_enabled {
        (m.color_disabled, m.color_disabled)
    } else if is_pressed {
        (m.color_pressed, m.color_pressed)
    } else if is_focused {
        (m.color_focused, m.color_focused_hotkey)
    } else {
        (m.color, m.color_hotkey)
    };
    MButtonDraw {
        color,
        color_hotkey,
        fill: inner,
        label: label_bounds(inner, Thickness::new(2, 0, 2, 0), text),
        open_bracket: inner.tl,
        close_bracket: inner.br_inner(),
    }
}

/// A piece of text did not fit: the rectangle it took is wider or higher
/// than its area (an overflow mark goes to the area's bottom right cell).
pub fn text_overflows(text_bounds: Rect, inner: Rect) -> (res: bool)
    ensures
        res == (u16v(text_bounds.size.x) > u16v(inner.size.x) || u16v(text_bounds.size.y) > u16v(
            inner.size.y,
        )),
{
    proof {
        crate::geom::lemma_as_u16(text_bounds.size.x);
        crate::geom::lemma_as_u16(inner.size.x);
        crate::geom::lemma_as_u16(text_bounds.size.y);
        crate::geom::lemma_as_u16(inner.size.y);
    }
    (text_bounds.size.x as u16) > (inner.size.x as u16) || (text_bounds.size.y as u16) > (
    inner.size.y as u16)
}

/// Where a border's lines and corners go in `inner`.
#[derive(Clone, Copy, PartialEq, Eq, Debug, Structural)]
pub struct BorderDraw {
    /// The top line starts at the top left corner, the bottom one at the
    /// bottom left cell; both are as long as the area is wide.
    pub top: Point,
    pub bottom: Point,
    /// The left line starts at the top left corner, the right one at the
    /// top right cell; both are as long as the area is high.
    pub left: Point,
    pub right: Point,
    pub width: i16,
    pub height: i16,
    pub tl: Point,
    pub tr: Point,
    pub br: Point,
    pub bl: Point,
}

pub open spec fn spec_border_draw(inner: Rect) -> BorderDraw {
    let bl = Point { x: inner.tl.x, y: spec_b_inner(inner) };
    let tr = Point { x: spec_r_inner(inner), y: inner.tl.y };
    BorderDraw {
        top: inner.tl,
        bottom: bl,
        left: inner.tl,
        right: tr,
        width: inner.size.x,
        height: inner.size.y,
        tl: inner.tl,
        tr,
        br: Point { x: spec_r_inner(inner), y: spec_b_inner(inner) },
        bl,
    }
}

pub fn border_draw(inner: Rect) -> (res: BorderDraw)
    ensures
        res == spec_border_draw(inner),
{
    BorderDraw {
        top: inner.tl,
        bottom: inner.bl_inner(),
        left: inner.tl,
        right: inner.tr_inner(),
        width: inner.w(),
        height: inner.h(),
        tl: inner.tl,
        tr: inner.tr_inner(),
        br: inner.br_inner(),
        bl: inner.bl_inner(),
    }
}

/// A view painted in a frame: drawn in `size` from `offset` on the screen,
/// clipped to `bounds`.
#[derive(Clone, Copy, PartialEq, Eq, Debug, Structural)]
pub struct Paint {
    pub entity: usize,
    pub bounds: Rect,
    pub offset: Vector,
    pub size: Vector,
}

impl TreeView {
    /// Where child `c` of a view drawn from `base` lies: its bounds, and
    /// its bounds with shadow clipped to the parent's area `area`.
    pub open spec fn child_port(self, c: usize, base: Vector, area: Rect) -> (Rect, Vector) {
        let nd = self.node(c);
        let b = spec_rect_offset(spec_rect_offset(nd.real_render_bounds, base), nd.visual_offset);
        let bs = spec_rect_offset(spec_rect_offset(nd.real_render_bounds_with_shadow, base), nd.visual_offset);
        (spec_rect_intersect(bs, area), tl_vec(b.tl))
    }

    /// The views painted from view `e`, clipped to `bounds` and drawn from
    /// `offset`, where `inv` is to be redrawn: nothing where the clip misses
    /// `inv` or `e` is not visible; else `e`, then each child in order with
    /// its own clip and offset; at most `k` levels deep.
    pub open spec fn paints(self, inv: Rect, e: usize, bounds: Rect, offset: Vector, k: nat) -> Seq<Paint>
        decreases k, 1int, 0int,
    {
        let nd = self.node(e);
        let c = spec_rect_intersect(inv, bounds);
        if c.size.x == 0 || c.size.y == 0 || nd.visibility != Visibility::Visible {
            Seq::empty()
        } else {
            seq![Paint { entity: e, bounds, offset, size: nd.real_render_bounds_with_shadow.size }].add(
                self.paints_kids(inv, e, offset, self.kids(e).len() as int, k),
            )
        }
    }

    /// What the first `j` children of `e`, drawn from `base`, paint.
    pub open spec fn paints_kids(self, inv: Rect, e: usize, base: Vector, j: int, k: nat) -> Seq<Paint>
        decreases k, 0int, j,
    {
        if j <= 0 || k == 0 {
            Seq::empty()
        } else {
            let c = self.kids(e)[j - 1];
            let area = Rect { tl: Point { x: base.x, y: base.y }, size: self.node(e).real_render_bounds.size };
            let (b, o) = self.child_port(c, base, area);
            self.paints_kids(inv, e, base, j - 1, k).add(self.paints(inv, c, b, o, (k - 1) as nat))
        }
    }

    /// What a frame paints: from the root, clipped to its bounds with shadow
    /// on the screen, drawn from its top left corner.
    pub open spec fn frame_paints(self, inv: Rect) -> Seq<Paint> {
        let r = self.root.unwrap();
        let nd = self.node(r);
        self.paints(
            inv,
            r,
            spec_rect_intersect(nd.real_render_bounds_with_shadow, self.screen_rect),
            tl_vec(nd.real_render_bounds.tl),
            self.n(),
        )
    }
}

impl VisualTree {
    /// Starts a frame on a screen of size `screen_size`: returns the part of
    /// the screen to redraw and forgets it; a screen of a new size is
    /// redrawn whole.
    pub fn begin_frame(&mut self, screen_size: Vector) -> (res: Rect)
        requires
            old(self)@.wf(),
        ensures
            final(self)@.wf(),
            final(self)@ == (TreeView {
                invalidated_rect: Rect { tl: Point { x: 0, y: 0 }, size: Vector { x: 0, y: 0 } },
                screen_rect: Rect { tl: Point { x: 0, y: 0 }, size: screen_size },
                ..old(self)@
            }),
            res == (if screen_size != old(self).screen_rect.size {
                Rect { tl: Point { x: 0, y: 0 }, size: screen_size }
            } else {
                old(self).invalidated_rect
            }),
    {
        let mut inv = self.invalidated_rect;
        self.invalidated_rect = Rect { tl: Point { x: 0, y: 0 }, size: Vector { x: 0, y: 0 } };
        if screen_size != self.screen_rect.size {
            self.screen_rect = Rect { tl: Point { x: 0, y: 0 }, size: screen_size };
            inv = Rect { tl: Point { x: 0, y: 0 }, size: screen_size };
        } else {
            self.screen_rect = Rect { tl: Point { x: 0, y: 0 }, size: screen_size };
        }
        proof {
            crate::tree::lemma_same_links_wf_root(old(self)@, self@);
        }
        inv
    }

    /// The views a frame paints where `inv` is to be redrawn, in drawing
    /// order.
    pub fn paint_plan(&self, inv: Rect) -> (res: Vec<Paint>)
        requires
            self@.wf(),
            self.root is Some,
        ensures
            res@ == self@.frame_paints(inv),
    {
        let r = self.root.unwrap();
        let nd = self.nodes[r];
        let mut out: Vec<Paint> = Vec::new();
        proof {
            assert(self@.up(r, 0) == Some(r));
        }
        self.paint_from(
            inv,
            r,
            nd.real_render_bounds_with_shadow.intersect(self.screen_rect),
            Vector { x: nd.real_render_bounds.tl.x, y: nd.real_render_bounds.tl.y },
            &mut out,
            Ghost(r),
            Ghost(0),
        );
        proof {
            assert(out@ =~= self@.frame_paints(inv));
        }
        out
    }

    fn paint_from(
        &self,
        inv: Rect,
        e: usize,
        bounds: Rect,
        offset: Vector,
        out: &mut Vec<Paint>,
        Ghost(top): Ghost<usize>,
        Ghost(d): Ghost<nat>,
    )
        requires
            self@.wf(),
            e < self@.n(),
            top < self@.n(),
            self@.up(e, d) == Some(top),
        ensures
            final(out)@ == old(out)@ + self@.paints(inv, e, bounds, offset, (self@.n() - d) as nat),
        decreases self@.n() - d,
    {
        proof {
            self@.lemma_depth_bound(e, d);
        }
        let nd = self.nodes[e];
        let c = inv.intersect(bounds);
        if c.size.x == 0 || c.size.y == 0 || nd.visibility != Visibility::Visible {
            proof {
                assert(old(out)@ + Seq::<Paint>::empty() =~= old(out)@);
            }
            return;
        }
        out.push(Paint { entity: e, bounds, offset, size: nd.real_render_bounds_with_shadow.size });
        let ghost k = (self@.n() - d) as nat;
        let ghost start = out@;
        let area = Rect { tl: Point { x: offset.x, y: offset.y }, size: nd.real_render_bounds.size };
        let len = self.children[e].len();
        let mut j: usize = 0;
        proof {
            assert(self@.paints_kids(inv, e, offset, 0, k) =~= Seq::<Paint>::empty());
        }
        while j < len
            invariant
                self@.wf(),
                e < self@.n(),
                top < self@.n(),
                self@.up(e, d) == Some(top),
                d < self@.n(),
                k == self@.n() - d,
                len == self@.kids(e).len(),
                j <= len,
                area == (Rect { tl: Point { x: offset.x, y: offset.y }, size: self@.node(e).real_render_bounds.size }),
                out@ == start + self@.paints_kids(inv, e, offset, j as int, k),
            decreases len - j,
        {
            let ch = self.children[e][j];
            proof {
                assert(self@.kids(e)[j as int] == ch);
                assert(ch < self@.n());
                assert(self@.node(ch).parent == Some(e));
                assert(self@.up(ch, d + 1) == self@.up(e, d));
                self@.lemma_depth_bound(ch, d + 1);
            }
            let cn = self.nodes[ch];
            let b = cn.real_render_bounds.offset(offset).offset(cn.visual_offset);
            let bs = cn.real_render_bounds_with_shadow.offset(offset).offset(cn.visual_offset);
            let clip = bs.intersect(area);
            self.paint_from(inv, ch, clip, Vector { x: b.tl.x, y: b.tl.y }, out, Ghost(top), Ghost(d + 1));
            proof {
                assert(self@.child_port(ch, offset, area) == (clip, Vector { x: b.tl.x, y: b.tl.y }));
                assert(out@ =~= start + self@.paints_kids(inv, e, offset, j as int + 1, k));
            }
            j = j + 1;
        }
        proof {
            assert(old(out)@ + self@.paints(inv, e, bounds, offset, k) =~= out@);
        }
    }
}

} // verus!
