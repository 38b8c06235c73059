//! Measuring and arranging views: the size arithmetic of the two layout
//! passes, for one view at a time and for each kind of container.
use vstd::prelude::*;
use crate::geom::{
    Vector, Point, Rect, Thickness, HAlign, VAlign, umin, wadd, spec_vmin, spec_vmax, spec_vadd,
    spec_offset, spec_shrink_size, spec_expand_size, spec_shrink_rect, spec_expand_rect, spec_align,
    min_u,
};
use crate::text::{ViewHAlign, ViewVAlign, spec_view_h, spec_view_v, label_width, spec_label_width};

verus! {

pub const LAYOUT_NONE: u16 = 0;
pub const LAYOUT_BACKGROUND: u16 = 1;
pub const LAYOUT_STACK_PANEL: u16 = 2;
pub const LAYOUT_CANVAS: u16 = 3;
pub const LAYOUT_T_BUTTON: u16 = 4;
pub const LAYOUT_STATIC_TEXT: u16 = 5;
pub const LAYOUT_CONTENT_PRESENTER: u16 = 6;
pub const LAYOUT_BORDER: u16 = 7;
pub const LAYOUT_ADORNERS_PANEL: u16 = 8;
pub const LAYOUT_CONTROL: u16 = 9;
pub const LAYOUT_BUTTON: u16 = 10;

/// The layout state and properties of a view.
#[derive(Clone, Copy, Debug)]
pub struct LayoutView {
    pub layout: u16,
    /// The constraints of the last measure pass, if still valid.
    pub measure_size: Option<(Option<i16>, Option<i16>)>,
    pub desired_size: Vector,
    /// The slot size of the last arrange pass, if still valid.
    pub arrange_size: Option<Vector>,
    pub render_bounds: Rect,
    pub min_size: Vector,
    pub max_width: Option<i16>,
    pub max_height: Option<i16>,
    pub width: Option<i16>,
    pub height: Option<i16>,
    pub margin: Thickness,
    pub h_align: ViewHAlign,
    pub v_align: ViewVAlign,
}

/// The largest size a view may take: its fixed size, else its maximum,
/// else unbounded (`-1`, the largest unsigned value).
pub open spec fn max_size(v: LayoutView) -> Vector {
    let mw = if v.width is Some { v.width } else { v.max_width };
    let mh = if v.height is Some { v.height } else { v.max_height };
    Vector {
        x: if mw is Some { mw.unwrap() } else { -1i16 },
        y: if mh is Some { mh.unwrap() } else { -1i16 },
    }
}

/// The smallest size a view may take: its fixed size, else its minimum.
pub open spec fn min_size(v: LayoutView) -> Vector {
    Vector {
        x: if v.width is Some { v.width.unwrap() } else { v.min_size.x },
        y: if v.height is Some { v.height.unwrap() } else { v.min_size.y },
    }
}

/// A size kept between the bounds of a view.
pub open spec fn clamp(v: LayoutView, s: Vector) -> Vector {
    spec_vmax(spec_vmin(s, max_size(v)), min_size(v))
}

/// The constraints handed to a view's own measuring, from the ones it got:
/// an aligned view is not held to the given width or height; the fixed or
/// maximum size then bounds it; the margin is taken off.
pub open spec fn spec_measure_constraints(v: LayoutView, w: Option<i16>, h: Option<i16>) -> (
    Option<i16>,
    Option<i16>,
) {
    let mw = if v.width is Some { v.width } else { v.max_width };
    let mh = if v.height is Some { v.height } else { v.max_height };
    let gw = if v.h_align != ViewHAlign::Stretch { None } else { w };
    let gh = if v.v_align != ViewVAlign::Stretch { None } else { h };
    let gw = if gw is Some { gw } else { mw };
    let gh = if gh is Some { gh } else { mh };
    let a = Vector {
        x: if gw is Some { gw.unwrap() } else { 0 },
        y: if gh is Some { gh.unwrap() } else { 0 },
    };
    let a = clamp(v, spec_shrink_size(v.margin, a));
    (if gw is Some { Some(a.x) } else { None }, if gh is Some { Some(a.y) } else { None })
}

/// The size a view asks for, from what its own measuring gave: kept within
/// its bounds, with its margin, and no larger than the given constraints.
pub open spec fn spec_desired(v: LayoutView, w: Option<i16>, h: Option<i16>, inner: Vector) -> Vector {
    let d = spec_expand_size(v.margin, clamp(v, inner));
    Vector {
        x: if w is Some { umin(w.unwrap(), d.x) } else { d.x },
        y: if h is Some { umin(h.unwrap(), d.y) } else { d.y },
    }
}

/// What starting a measure pass does.
pub enum MeasureStep {
    /// Nothing: the view was measured with these constraints already, or it
    /// is collapsed (and now asks for no space).
    Done,
    /// Measure the content with these constraints, then finish.
    Measure(Option<i16>, Option<i16>),
}

/// What starting an arrange pass does.
pub enum ArrangeStep {
    /// Arrange the content in a rectangle of this size at the origin.
    Arrange(Vector),
    /// Keep the size arranged before.
    Keep,
}

/// Where a view lands after arranging: its slot part, its area without the
/// margin, and that area with its shadow.
#[derive(Clone, Copy, PartialEq, Eq, Debug, Structural)]
pub struct ArrangeResult {
    pub render_bounds: Rect,
    pub real_render_bounds: Rect,
    pub real_render_bounds_with_shadow: Rect,
}

pub open spec fn spec_arrange_inner(v: LayoutView, slot: Vector) -> Vector {
    let a = clamp(v, spec_shrink_size(v.margin, slot));
    let d = spec_shrink_size(v.margin, v.desired_size);
    Vector {
        x: if v.h_align == ViewHAlign::Stretch { a.x } else { d.x },
        y: if v.v_align == ViewVAlign::Stretch { a.y } else { d.y },
    }
}

pub open spec fn spec_arrange_result(v: LayoutView, bounds: Rect, render_size: Vector, shadow: Thickness) -> ArrangeResult {
    let ha = match spec_view_h(v.h_align) {
        Some(a) => a,
        None => HAlign::Left,
    };
    let va = match spec_view_v(v.v_align) {
        Some(a) => a,
        None => VAlign::Top,
    };
    let rb = spec_shrink_rect(spec_align(render_size, bounds.size, ha, va), bounds);
    let body = spec_shrink_rect(v.margin, rb);
    ArrangeResult {
        render_bounds: rb,
        real_render_bounds: body,
        real_render_bounds_with_shadow: spec_expand_rect(shadow, body),
    }
}

pub open spec fn zero_rect() -> Rect {
    Rect { tl: Point { x: 0, y: 0 }, size: Vector { x: 0, y: 0 } }
}

impl LayoutView {
    /// A view with layout kind `layout`, no constraints and no margin,
    /// stretched both ways, never measured or arranged.
    pub fn new(layout: u16) -> (res: LayoutView)
        ensures
            res.wf(),
            res == (LayoutView {
                layout,
                measure_size: None,
                desired_size: Vector { x: 0, y: 0 },
                arrange_size: None,
                render_bounds: zero_rect(),
                min_size: Vector { x: 0, y: 0 },
                max_width: None,
                max_height: None,
                width: None,
                height: None,
                margin: Thickness { l: 0, t: 0, r: 0, b: 0 },
                h_align: ViewHAlign::Stretch,
                v_align: ViewVAlign::Stretch,
            }),
    {
        LayoutView {
            layout,
            measure_size: None,
            desired_size: Vector::null(),
            arrange_size: None,
            render_bounds: Rect { tl: Point { x: 0, y: 0 }, size: Vector::null() },
            min_size: Vector::null(),
            max_width: None,
            max_height: None,
            width: None,
            height: None,
            margin: Thickness::all(0),
            h_align: ViewHAlign::Stretch,
            v_align: ViewVAlign::Stretch,
        }
    }

    pub open spec fn wf(self) -> bool {
        self.margin.wf()
    }

    pub fn layout(&self) -> (res: u16)
        ensures
            res == self.layout,
    {
        self.layout
    }

    pub fn desired_size(&self) -> (res: Vector)
        ensures
            res == self.desired_size,
    {
        self.desired_size
    }

    pub fn render_bounds(&self) -> (res: Rect)
        ensures
            res == self.render_bounds,
    {
        self.render_bounds
    }

    fn bounds(&self) -> (res: (Vector, Vector))
        ensures
            res == (max_size(*self), min_size(*self)),
    {
        let mw = match self.width {
            Some(x) => Some(x),
            None => self.max_width,
        };
        let mh = match self.height {
            Some(x) => Some(x),
            None => self.max_height,
        };
        let max = Vector {
            x: match mw {
                Some(x) => x,
                None => -1,
            },
            y: match mh {
                Some(x) => x,
                None => -1,
            },
        };
        let min = Vector {
            x: match self.width {
                Some(x) => x,
                None => self.min_size.x,
            },
            y: match self.height {
                Some(x) => x,
                None => self.min_size.y,
            },
        };
        (max, min)
    }

    /// Starts measuring with the constraints `w` and `h` (`None`: unbounded):
    /// records them, and says whether the content is to be measured, and
    /// with which constraints.
    pub fn measure_begin(&mut self, w: Option<i16>, h: Option<i16>, collapsed: bool) -> (res: MeasureStep)
        requires
            old(self).wf(),
        ensures
            final(self).wf(),
            old(self).measure_size == Some((w, h)) ==> *final(self) == *old(self) && res is Done,
            old(self).measure_size != Some((w, h)) && collapsed ==> res is Done && *final(self) == (
            LayoutView {
                measure_size: Some((w, h)),
                desired_size: Vector { x: 0, y: 0 },
                ..*old(self)
            }),
            old(self).measure_size != Some((w, h)) && !collapsed ==> *final(self) == (LayoutView {
                measure_size: Some((w, h)),
                ..*old(self)
            }) && res == MeasureStep::Measure(
                spec_measure_constraints(*old(self), w, h).0,
                spec_measure_constraints(*old(self), w, h).1,
            ),
    {
        if self.measure_size == Some((w, h)) {
            return MeasureStep::Done;
        }
        self.measure_size = Some((w, h));
        if collapsed {
            self.desired_size = Vector::null();
            return MeasureStep::Done;
        }
        let (max, min) = self.bounds();
        let mw = match self.width {
            Some(x) => Some(x),
            None => self.max_width,
        };
        let mh = match self.height {
            Some(x) => Some(x),
            None => self.max_height,
        };
        let gw = if self.h_align != ViewHAlign::Stretch { None } else { w };
        let gh = if self.v_align != ViewVAlign::Stretch { None } else { h };
        let gw = match gw {
            Some(x) => Some(x),
            None => mw,
        };
        let gh = match gh {
            Some(x) => Some(x),
            None => mh,
        };
        let a = Vector {
            x: match gw {
                Some(x) => x,
                None => 0,
            },
            y: match gh {
                Some(x) => x,
                None => 0,
            },
        };
        let a = self.margin.shrink_rect_size(a).min(max).max(min);
        MeasureStep::Measure(
            match gw {
                Some(_) => Some(a.x),
                None => None,
            },
            match gh {
                Some(_) => Some(a.y),
                None => None,
            },
        )
    }

    /// Finishes measuring: `inner` is the size the content asked for.
    pub fn measure_end(&mut self, w: Option<i16>, h: Option<i16>, inner: Vector)
        requires
            old(self).wf(),
        ensures
            final(self).wf(),
            *final(self) == (LayoutView { desired_size: spec_desired(*old(self), w, h, inner), ..*old(self) }),
    {
        let (max, min) = self.bounds();
        let d = self.margin.expand_rect_size(inner.min(max).max(min));
        self.desired_size = Vector {
            x: match w {
                Some(w) => min_u(w, d.x),
                None => d.x,
            },
            y: match h {
                Some(h) => min_u(h, d.y),
                None => d.y,
            },
        };
    }

    /// Starts arranging in a slot of size `slot`: records it, and says
    /// whether the content is to be arranged (the slot size changed), and in
    /// which size.
    pub fn arrange_begin(&mut self, slot: Vector) -> (res: ArrangeStep)
        requires
            old(self).wf(),
        ensures
            final(self).wf(),
            *final(self) == (LayoutView { arrange_size: Some(slot), ..*old(self) }),
            old(self).arrange_size == Some(slot) ==> res is Keep,
            old(self).arrange_size != Some(slot) ==> res == ArrangeStep::Arrange(
                spec_arrange_inner(*old(self), slot),
            ),
    {
        let prev = self.arrange_size;
        self.arrange_size = Some(slot);
        if prev == Some(slot) {
            return ArrangeStep::Keep;
        }
        let (max, min) = self.bounds();
        let a = self.margin.shrink_rect_size(slot).min(max).max(min);
        let d = self.margin.shrink_rect_size(self.desired_size);
        ArrangeStep::Arrange(
            Vector {
                x: if self.h_align == ViewHAlign::Stretch { a.x } else { d.x },
                y: if self.v_align == ViewVAlign::Stretch { a.y } else { d.y },
            },
        )
    }

    /// The size a view takes in its slot of `slot` size after its content
    /// took `content` (or, when it was not arranged again, the size it had).
    pub fn render_size(&self, slot: Vector, content: Option<Vector>) -> (res: Vector)
        requires
            self.wf(),
        ensures
            res == (match content {
                Some(c) => spec_vmin(spec_expand_size(self.margin, clamp(*self, c)), slot),
                None => self.render_bounds.size,
            }),
    {
        match content {
            Some(c) => {
                let (max, min) = self.bounds();
                self.margin.expand_rect_size(c.min(max).max(min)).min(slot)
            },
            None => self.render_bounds.size,
        }
    }

    /// Places a view of size `render_size` in its slot `bounds` by its
    /// alignment (a stretched view at the top left), and takes off the margin
    /// and adds the shadow.
    pub fn arrange_result(&self, bounds: Rect, render_size: Vector, shadow: Thickness) -> (res: ArrangeResult)
        requires
            self.wf(),
            shadow.wf(),
        ensures
            res == spec_arrange_result(*self, bounds, render_size, shadow),
    {
        let ha = match self.h_align.to_h_align() {
            Some(a) => a,
            None => HAlign::Left,
        };
        let va = match self.v_align.to_v_align() {
            Some(a) => a,
            None => VAlign::Top,
        };
        let rb = Thickness::align(render_size, bounds.size, ha, va).shrink_rect(bounds);
        let body = self.margin.shrink_rect(rb);
        ArrangeResult {
            render_bounds: rb,
            real_render_bounds: body,
            real_render_bounds_with_shadow: shadow.expand_rect(body),
        }
    }
}

/// What a collapsed view is arranged to: nothing at the origin.
pub fn collapsed_arrange_result() -> (res: ArrangeResult)
    ensures
        res == (ArrangeResult {
            render_bounds: zero_rect(),
            real_render_bounds: zero_rect(),
            real_render_bounds_with_shadow: zero_rect(),
        }),
{
    let r = Rect { tl: Point { x: 0, y: 0 }, size: Vector::null() };
    ArrangeResult { render_bounds: r, real_render_bounds: r, real_render_bounds_with_shadow: r }
}

/// Stack panels: the constraints each child is measured with (a vertical
/// panel leaves the height open, a horizontal one the width).
pub fn stack_panel_child_constraints(vertical: bool, w: Option<i16>, h: Option<i16>) -> (res: (
    Option<i16>,
    Option<i16>,
))
    ensures
        res == (if vertical { (w, None::<i16>) } else { (None::<i16>, h) }),
{
    if vertical { (w, None) } else { (None, h) }
}

/// A stack panel's size over children `0 .. k` of the given desired sizes:
/// their lengths add up along the panel, the widest counts across.
pub open spec fn stack_size(vertical: bool, sizes: Seq<Vector>, k: int) -> Vector
    decreases k,
{
    if k <= 0 {
        Vector { x: 0, y: 0 }
    } else {
        let s = stack_size(vertical, sizes, k - 1);
        let d = sizes[k - 1];
        if vertical {
            spec_vmax(spec_vadd(s, Vector { x: 0, y: d.y }), Vector { x: d.x, y: 0 })
        } else {
            spec_vmax(spec_vadd(s, Vector { x: d.x, y: 0 }), Vector { x: 0, y: d.y })
        }
    }
}

/// A stack panel's desired size, from its children's desired sizes.
pub fn measure_stack_panel(vertical: bool, sizes: &Vec<Vector>) -> (res: Vector)
    ensures
        res == stack_size(vertical, sizes@, sizes@.len() as int),
{
    let mut size = Vector::null();
    let mut k: usize = 0;
    while k < sizes.len()
        invariant
            k <= sizes@.len(),
            size == stack_size(vertical, sizes@, k as int),
        decreases sizes@.len() - k,
    {
        let d = sizes[k];
        if vertical {
            size = size.plus(Vector { x: 0, y: d.y }).max(Vector { x: d.x, y: 0 });
        } else {
            size = size.plus(Vector { x: d.x, y: 0 }).max(Vector { x: 0, y: d.y });
        }
        k = k + 1;
    }
    size
}

/// The slot of child `k` of a stack panel: children are placed one after
/// another from the panel's top left, each as long as it asked for and as
/// wide as the panel.
pub open spec fn stack_slot(vertical: bool, inner: Rect, sizes: Seq<Vector>, k: int) -> Rect
    decreases k,
{
    if k <= 0 {
        Rect {
            tl: inner.tl,
            size: if vertical {
                Vector { x: inner.size.x, y: sizes[0].y }
            } else {
                Vector { x: sizes[0].x, y: inner.size.y }
            },
        }
    } else {
        let prev = stack_slot(vertical, inner, sizes, k - 1);
        Rect {
            tl: spec_offset(
                prev.tl,
                if vertical { Vector { x: 0, y: prev.size.y } } else { Vector { x: prev.size.x, y: 0 } },
            ),
            size: if vertical {
                Vector { x: inner.size.x, y: sizes[k].y }
            } else {
                Vector { x: sizes[k].x, y: inner.size.y }
            },
        }
    }
}

/// The size a stack panel takes over slots `0 .. k`.
pub open spec fn stack_arranged_size(vertical: bool, inner: Rect, sizes: Seq<Vector>, k: int) -> Vector
    decreases k,
{
    if k <= 0 {
        Vector { x: 0, y: 0 }
    } else {
        let s = stack_arranged_size(vertical, inner, sizes, k - 1);
        let c = stack_slot(vertical, inner, sizes, k - 1).size;
        if vertical {
            spec_vmax(spec_vadd(s, Vector { x: 0, y: c.y }), Vector { x: c.x, y: 0 })
        } else {
            spec_vmax(spec_vadd(s, Vector { x: c.x, y: 0 }), Vector { x: 0, y: c.y })
        }
    }
}

/// Arranges a stack panel's children of the given desired sizes in `inner`:
/// their slots, and the size the panel takes.
pub fn arrange_stack_panel(vertical: bool, inner: Rect, sizes: &Vec<Vector>) -> (res: (Vec<Rect>, Vector))
    ensures
        res.0@.len() == sizes@.len(),
        forall|k: int| 0 <= k < sizes@.len() ==> res.0@[k] == stack_slot(vertical, inner, sizes@, k),
        res.1 == stack_arranged_size(vertical, inner, sizes@, sizes@.len() as int),
{
    let mut slots: Vec<Rect> = Vec::new();
    let mut pos = inner.tl;
    let mut size = Vector::null();
    let mut k: usize = 0;
    while k < sizes.len()
        invariant
            k <= sizes@.len(),
            slots@.len() == k,
            forall|j: int| 0 <= j < k ==> slots@[j] == stack_slot(vertical, inner, sizes@, j),
            k == 0 ==> pos == inner.tl,
            k > 0 ==> pos == spec_offset(
                stack_slot(vertical, inner, sizes@, k - 1).tl,
                if vertical {
                    Vector { x: 0, y: stack_slot(vertical, inner, sizes@, k - 1).size.y }
                } else {
                    Vector { x: stack_slot(vertical, inner, sizes@, k - 1).size.x, y: 0 }
                },
            ),
            size == stack_arranged_size(vertical, inner, sizes@, k as int),
        decreases sizes@.len() - k,
    {
        let d = sizes[k];
        let child_size = if vertical {
            Vector { x: inner.w(), y: d.y }
        } else {
            Vector { x: d.x, y: inner.h() }
        };
        let slot = Rect { tl: pos, size: child_size };
        proof {
            assert(slot == stack_slot(vertical, inner, sizes@, k as int));
        }
        slots.push(slot);
        if vertical {
            pos = pos.offset(Vector { x: 0, y: child_size.y });
            size = size.plus(Vector { x: 0, y: child_size.y }).max(Vector { x: child_size.x, y: 0 });
        } else {
            pos = pos.offset(Vector { x: child_size.x, y: 0 });
            size = size.plus(Vector { x: child_size.x, y: 0 }).max(Vector { x: 0, y: child_size.y });
        }
        k = k + 1;
    }
    (slots, size)
}

/// A canvas asks for what it is given, `1` where unbounded; its children
/// are measured unbounded.
pub fn measure_canvas(w: Option<i16>, h: Option<i16>) -> (res: Vector)
    ensures
        res == (Vector {
            x: if w is Some { w.unwrap() } else { 1 },
            y: if h is Some { h.unwrap() } else { 1 },
        }),
{
    Vector {
        x: match w {
            Some(x) => x,
            None => 1,
        },
        y: match h {
            Some(x) => x,
            None => 1,
        },
    }
}

/// The slot of a canvas child: at its canvas position (the origin when it
/// has none), as large as it asked.
pub fn canvas_child_slot(tl: Option<Point>, desired: Vector) -> (res: Rect)
    ensures
        res == (Rect {
            tl: if tl is Some { tl.unwrap() } else { Point { x: 0, y: 0 } },
            size: desired,
        }),
{
    Rect {
        tl: match tl {
            Some(p) => p,
            None => Point { x: 0, y: 0 },
        },
        size: desired,
    }
}

/// A one-child view (content presenter, control, background when measuring)
/// asks for what its child asks, nothing without a child.
pub fn measure_single_child(child_desired: Option<Vector>) -> (res: Vector)
    ensures
        res == (if child_desired is Some { child_desired.unwrap() } else { Vector { x: 0, y: 0 } }),
{
    match child_desired {
        Some(d) => d,
        None => Vector::null(),
    }
}

/// A background takes its whole slot, or, fitting its content, what its
/// child took (nothing without a child).
pub fn arrange_background(fit_to_content: bool, inner: Vector, child_render: Option<Vector>) -> (res:
    Vector)
    ensures
        res == (if !fit_to_content {
            inner
        } else if child_render is Some {
            child_render.unwrap()
        } else {
            Vector { x: 0, y: 0 }
        }),
{
    if fit_to_content {
        match child_render {
            Some(s) => s,
            None => Vector::null(),
        }
    } else {
        inner
    }
}

/// A button asks for its label with two columns on each side.
pub fn measure_button(text: &Vec<char>) -> (res: Vector)
    ensures
        res == spec_expand_size(
            Thickness { l: 2, t: 0, r: 2, b: 0 },
            Vector { x: spec_label_width(text@), y: 1 },
        ),
{
    let w = label_width(text);
    Thickness::new(2, 0, 2, 0).expand_rect_size(Vector { x: w, y: 1 })
}

/// A shadowed button asks for its label with a column on each side.
pub fn measure_t_button(text: &Vec<char>) -> (res: Vector)
    ensures
        res == spec_expand_size(
            Thickness { l: 1, t: 0, r: 1, b: 0 },
            Vector { x: spec_label_width(text@), y: 1 },
        ),
{
    let w = label_width(text);
    Thickness::new(1, 0, 1, 0).expand_rect_size(Vector { x: w, y: 1 })
}

pub open spec fn one() -> Thickness {
    Thickness { l: 1, t: 1, r: 1, b: 1 }
}

/// A border measures its child one cell smaller on every side.
pub fn border_child_constraints(w: Option<i16>, h: Option<i16>) -> (res: (Option<i16>, Option<i16>))
    ensures
        res.0 == (if w is Some { Some(spec_shrink_size(one(), Vector { x: w.unwrap(), y: 0 }).x) } else { None }),
        res.1 == (if h is Some { Some(spec_shrink_size(one(), Vector { x: 0, y: h.unwrap() }).y) } else { None }),
{
    let t = Thickness::all(1);
    (
        match w {
            Some(x) => Some(t.shrink_rect_size(Vector { x, y: 0 }).x),
            None => None,
        },
        match h {
            Some(y) => Some(t.shrink_rect_size(Vector { x: 0, y }).y),
            None => None,
        },
    )
}

/// A border asks for its child's size (nothing without a child) and one
/// cell on every side.
pub fn measure_border(child_desired: Option<Vector>) -> (res: Vector)
    ensures
        res == spec_expand_size(
            one(),
            if child_desired is Some { child_desired.unwrap() } else { Vector { x: 0, y: 0 } },
        ),
{
    let d = match child_desired {
        Some(d) => d,
        None => Vector::null(),
    };
    Thickness::all(1).expand_rect_size(d)
}

/// A border's child is arranged one cell inside it.
pub fn border_child_slot(inner: Rect) -> (res: Rect)
    ensures
        res == spec_shrink_rect(one(), inner),
{
    Thickness::all(1).shrink_rect(inner)
}

/// Adorner panels: the constraints of child `index`, the first child's
/// previous rendered size being `first_render`: the first child gets the
/// panel's constraints, the others the first child's size.
pub fn adorners_child_constraints(index: usize, w: Option<i16>, h: Option<i16>, first_render: Vector) -> (res: (
    Option<i16>,
    Option<i16>,
))
    ensures
        res == (if index == 0 { (w, h) } else { (Some(first_render.x), Some(first_render.y)) }),
{
    if index == 0 { (w, h) } else { (Some(first_render.x), Some(first_render.y)) }
}

/// What arranging the first child of an adorner panel decides: `None` when
/// its size changed from `prev` (the panel is to be measured again and takes
/// nothing now), else the slot of the other children.
pub fn adorners_after_first(prev: Vector, first_bounds: Rect) -> (res: Option<Rect>)
    ensures
        res == (if first_bounds.size != prev { None } else { Some(first_bounds) }),
{
    if first_bounds.size != prev { None } else { Some(first_bounds) }
}

/// Whether an arranged view changed where it is drawn (and so is to be
/// drawn again, before and after).
pub fn arrange_moved(
    new_real: Rect,
    new_with_shadow: Rect,
    old_real: Rect,
    old_with_shadow: Rect,
) -> (res: bool)
    ensures
        res == !(new_real == old_real && new_with_shadow == old_with_shadow),
{
    !(new_real == old_real && new_with_shadow == old_with_shadow)
}

/// The layout passes are repeated at most this many times per frame.
pub const MAX_ROUNDS: usize = 8;

/// A layout pass over the root is complete when both its measure and
/// arrange results are still valid.
pub fn layout_settled(root: &LayoutView) -> (res: bool)
    ensures
        res == (root.measure_size is Some && root.arrange_size is Some),
{
    root.measure_size.is_some() && root.arrange_size.is_some()
}

/// Invalidating the measure of a view also drops its arrangement.
pub fn invalidate_measure(v: &mut LayoutView)
    ensures
        *final(v) == (LayoutView { measure_size: None, arrange_size: None, ..*old(v) }),
{
    v.measure_size = None;
    v.arrange_size = None;
}

/// Invalidating the arrangement of a view.
pub fn invalidate_arrange(v: &mut LayoutView)
    ensures
        *final(v) == (LayoutView { arrange_size: None, ..*old(v) }),
{
    v.arrange_size = None;
}

} // verus!
