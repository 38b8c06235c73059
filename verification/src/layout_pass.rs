//! The layout passes over the visual tree: measuring each view from its
//! children up, then arranging each view in the slot its parent gives it,
//! by the kind of layout each view has.
use vstd::prelude::*;
use crate::geom::{
    Vector, Point, Rect, Thickness, spec_vmax, spec_vadd, spec_expand_size, spec_shrink_size,
};
use crate::text::{TextAlign, TextWrapping, Visibility, spec_label_width, spec_text_align_h};
use crate::components::{spec_visibility_effects, visibility_effects, ContentPresenter};
use crate::layout::{
    MAX_ROUNDS, layout_settled,
    LayoutView, MeasureStep, ArrangeStep, ArrangeResult, spec_measure_constraints, spec_desired,
    measure_button, measure_t_button, measure_border, border_child_constraints, measure_canvas,
    spec_arrange_inner, spec_arrange_result, clamp, collapsed_arrange_result, border_child_slot,
};
use crate::geom::{spec_vmin, spec_shrink_rect, spec_offset, u16v, wadd};
use crate::tree::{Node, same_links, lemma_same_links_up};
use crate::text_renderer::{render_text, spec_render_text, Draw};
use crate::tree::{VisualTree, TreeView};

verus! {

/// How a view lays out its content.
pub enum LayoutKind {
    /// Nothing to lay out.
    Empty,
    /// A background around its child; fitting its content, it takes only
    /// what the child takes.
    Background { fit_to_content: bool },
    /// Children one after another, down or across.
    StackPanel { vertical: bool },
    /// Children at their own positions.
    Canvas,
    /// A button with a shadow and this label.
    TButton { label: Vec<char> },
    /// A button with this label between brackets.
    Button { label: Vec<char> },
    /// A piece of text.
    StaticText { text: Vec<char>, align: TextAlign, wrapping: TextWrapping },
    /// Its child (content or text).
    ContentPresenter,
    /// A frame around its child.
    Border,
    /// A first child, and adorners over it in its place.
    AdornersPanel,
    /// The visual tree of a control.
    Control,
}

/// The layout data of every view of a tree: its layout state and
/// properties, its kind of layout, and its position on a canvas.
pub struct Layouts {
    pub views: Vec<LayoutView>,
    pub kinds: Vec<LayoutKind>,
    pub canvas_tl: Vec<Option<Point>>,
}

/// The layout data fits the tree: one entry per view, margins in range.
pub open spec fn layouts_ok(t: TreeView, vs: Seq<LayoutView>, ks: Seq<LayoutKind>, cs: Seq<Option<Point>>) -> bool {
    &&& vs.len() == t.n()
    &&& ks.len() == t.n()
    &&& cs.len() == t.n()
    &&& forall|i: int| 0 <= i < vs.len() ==> (#[trigger] vs[i]).wf()
}

pub open spec fn zero() -> Vector {
    Vector { x: 0, y: 0 }
}

/// The first child of a view, if it has one.
pub open spec fn first_kid(t: TreeView, e: usize) -> Option<usize> {
    if t.kids(e).len() > 0 {
        Some(t.kids(e)[0])
    } else {
        None
    }
}

/// What a piece of text takes when it may use `w` by `h` (unbounded where
/// not given).
pub open spec fn text_size(text: Seq<char>, align: TextAlign, wrapping: TextWrapping, w: Option<i16>, h: Option<i16>) -> Vector {
    spec_render_text(
        text,
        Rect {
            tl: Point { x: 0, y: 0 },
            size: Vector {
                x: if w is Some { w.unwrap() } else { -1i16 },
                y: if h is Some { h.unwrap() } else { -1i16 },
            },
        },
        spec_text_align_h(align),
        wrapping,
    ).1.size
}

/// Measuring view `e` with the constraints `w` and `h`, with `k` levels
/// left: nothing where it was measured with them already; a collapsed view
/// asks for nothing; else its content is measured with its own
/// constraints and its desired size follows from what the content asked.
pub open spec fn measured(
    t: TreeView,
    ks: Seq<LayoutKind>,
    cs: Seq<Option<Point>>,
    vs: Seq<LayoutView>,
    e: usize,
    w: Option<i16>,
    h: Option<i16>,
    k: nat,
) -> Seq<LayoutView>
    decreases k, 2int, 0int,
{
    let v = vs[e as int];
    if v.measure_size == Some((w, h)) {
        vs
    } else if t.node(e).visibility == Visibility::Collapsed {
        vs.update(e as int, LayoutView { measure_size: Some((w, h)), desired_size: zero(), ..v })
    } else {
        let vs1 = vs.update(e as int, LayoutView { measure_size: Some((w, h)), ..v });
        let (aw, ah) = spec_measure_constraints(v, w, h);
        let (vs2, inner) = measured_content(t, ks, cs, vs1, e, aw, ah, k);
        vs2.update(
            e as int,
            LayoutView { desired_size: spec_desired(vs2[e as int], w, h, inner), ..vs2[e as int] },
        )
    }
}

/// Measuring the content of view `e` by its kind of layout: the views
/// after it, and the size the content asks for.
pub open spec fn measured_content(
    t: TreeView,
    ks: Seq<LayoutKind>,
    cs: Seq<Option<Point>>,
    vs: Seq<LayoutView>,
    e: usize,
    w: Option<i16>,
    h: Option<i16>,
    k: nat,
) -> (Seq<LayoutView>, Vector)
    decreases k, 1int, 0int,
{
    if k == 0 {
        (vs, zero())
    } else {
        match ks[e as int] {
            LayoutKind::Background { .. } | LayoutKind::ContentPresenter | LayoutKind::Control => {
                match first_kid(t, e) {
                    None => (vs, zero()),
                    Some(c) => {
                        let vs1 = measured(t, ks, cs, vs, c, w, h, (k - 1) as nat);
                        (vs1, vs1[c as int].desired_size)
                    },
                }
            },
            LayoutKind::StackPanel { vertical } => stack_measured(
                t,
                ks,
                cs,
                vs,
                e,
                vertical,
                w,
                h,
                t.kids(e).len() as int,
                k,
            ),
            LayoutKind::Canvas => (
                canvas_measured(t, ks, cs, vs, e, t.kids(e).len() as int, k),
                Vector {
                    x: if w is Some { w.unwrap() } else { 1 },
                    y: if h is Some { h.unwrap() } else { 1 },
                },
            ),
            LayoutKind::TButton { label } => (
                vs,
                spec_expand_size(Thickness { l: 1, t: 0, r: 1, b: 0 }, Vector { x: spec_label_width(label@), y: 1 }),
            ),
            LayoutKind::Button { label } => (
                vs,
                spec_expand_size(Thickness { l: 2, t: 0, r: 2, b: 0 }, Vector { x: spec_label_width(label@), y: 1 }),
            ),
            LayoutKind::StaticText { text, align, wrapping } => (vs, text_size(text@, align, wrapping, w, h)),
            LayoutKind::Border => {
                let one = Thickness { l: 1, t: 1, r: 1, b: 1 };
                match first_kid(t, e) {
                    None => (vs, spec_expand_size(one, zero())),
                    Some(c) => {
                        let cw = if w is Some { Some(spec_shrink_size(one, Vector { x: w.unwrap(), y: 0 }).x) } else { None };
                        let ch = if h is Some { Some(spec_shrink_size(one, Vector { x: 0, y: h.unwrap() }).y) } else { None };
                        let vs1 = measured(t, ks, cs, vs, c, cw, ch, (k - 1) as nat);
                        (vs1, spec_expand_size(one, vs1[c as int].desired_size))
                    },
                }
            },
            LayoutKind::AdornersPanel => {
                let r = adorners_measured(t, ks, cs, vs, e, w, h, t.kids(e).len() as int, k);
                (r.0, r.2)
            },
            LayoutKind::Empty => (vs, zero()),
        }
    }
}

/// A stack panel measures its first `j` children one after another, with
/// the length along the panel left open: the views after, and the size
/// they add up to.
pub open spec fn stack_measured(
    t: TreeView,
    ks: Seq<LayoutKind>,
    cs: Seq<Option<Point>>,
    vs: Seq<LayoutView>,
    e: usize,
    vertical: bool,
    w: Option<i16>,
    h: Option<i16>,
    j: int,
    k: nat,
) -> (Seq<LayoutView>, Vector)
    decreases k, 0int, j,
{
    if j <= 0 || k == 0 {
        (vs, zero())
    } else {
        let (vs1, size) = stack_measured(t, ks, cs, vs, e, vertical, w, h, j - 1, k);
        let c = t.kids(e)[j - 1];
        let vs2 = if vertical {
            measured(t, ks, cs, vs1, c, w, None, (k - 1) as nat)
        } else {
            measured(t, ks, cs, vs1, c, None, h, (k - 1) as nat)
        };
        let d = vs2[c as int].desired_size;
        (
            vs2,
            if vertical {
                spec_vmax(spec_vadd(size, Vector { x: 0, y: d.y }), Vector { x: d.x, y: 0 })
            } else {
                spec_vmax(spec_vadd(size, Vector { x: d.x, y: 0 }), Vector { x: 0, y: d.y })
            },
        )
    }
}

/// A canvas measures its first `j` children unbounded.
pub open spec fn canvas_measured(
    t: TreeView,
    ks: Seq<LayoutKind>,
    cs: Seq<Option<Point>>,
    vs: Seq<LayoutView>,
    e: usize,
    j: int,
    k: nat,
) -> Seq<LayoutView>
    decreases k, 0int, j,
{
    if j <= 0 || k == 0 {
        vs
    } else {
        let vs1 = canvas_measured(t, ks, cs, vs, e, j - 1, k);
        measured(t, ks, cs, vs1, t.kids(e)[j - 1], None, None, (k - 1) as nat)
    }
}

/// An adorner panel measures its first `j` children: the first with the
/// panel's constraints (remembering the size it had on the screen), the
/// others with that size. The views after, that size, and what the first
/// child asked for.
pub open spec fn adorners_measured(
    t: TreeView,
    ks: Seq<LayoutKind>,
    cs: Seq<Option<Point>>,
    vs: Seq<LayoutView>,
    e: usize,
    w: Option<i16>,
    h: Option<i16>,
    j: int,
    k: nat,
) -> (Seq<LayoutView>, Vector, Vector)
    decreases k, 0int, j,
{
    if j <= 0 || k == 0 {
        (vs, zero(), zero())
    } else {
        let (vs1, rs, desired) = adorners_measured(t, ks, cs, vs, e, w, h, j - 1, k);
        let c = t.kids(e)[j - 1];
        if j == 1 {
            let rs1 = vs1[c as int].render_bounds.size;
            let vs2 = measured(t, ks, cs, vs1, c, w, h, (k - 1) as nat);
            (vs2, rs1, vs2[c as int].desired_size)
        } else {
            (measured(t, ks, cs, vs1, c, Some(rs.x), Some(rs.y), (k - 1) as nat), rs, desired)
        }
    }
}



/// The layout caches of view `e` and all its ancestors are dropped.
pub open spec fn measure_invalidated(t: TreeView, vs: Seq<LayoutView>, e: usize) -> Seq<LayoutView> {
    Seq::new(
        vs.len(),
        |i: int|
            if t.reaches(e, i as usize) {
                LayoutView { measure_size: None, arrange_size: None, ..vs[i] }
            } else {
                vs[i]
            },
    )
}

/// The place of `c` among the children of `p`.
pub open spec fn kid_index(t: TreeView, p: usize, c: usize) -> int {
    choose|j: int| 0 <= j < t.kids(p).len() && t.kids(p)[j] == c
}

/// The tree after the child of view `e` is replaced, and whether the new
/// child could be put in: the old child leaves, then the new one comes in
/// where it may be adopted.
pub open spec fn child_swapped(t: TreeView, e: usize, old: Option<usize>, new: Option<usize>) -> (TreeView, bool) {
    let t1 = match old {
        Some(o) => t.child_removed(e, kid_index(t, e, o)),
        None => t,
    };
    match new {
        Some(c) => if t1.can_adopt(e, c) {
            (t1.child_added(e, c), true)
        } else {
            (t1, false)
        },
        None => (t1, true),
    }
}

/// The arrangement caches of view `e` and all its ancestors are dropped.
pub open spec fn arrange_invalidated(t: TreeView, vs: Seq<LayoutView>, e: usize) -> Seq<LayoutView> {
    Seq::new(
        vs.len(),
        |i: int|
            if t.reaches(e, i as usize) {
                LayoutView { arrange_size: None, ..vs[i] }
            } else {
                vs[i]
            },
    )
}

pub open spec fn zero_at_origin(size: Vector) -> Rect {
    Rect { tl: Point { x: 0, y: 0 }, size }
}

/// Arranging view `e` in `bounds`, with `k` levels left: the slot size is
/// recorded; a collapsed view lands nowhere; else, where the slot size
/// changed, its content is arranged in the size the view gives it, and the
/// view takes its bounds by its alignment, margin and shadow. Where it then
/// lies elsewhere on the screen, it is marked for redrawing where it was
/// and where it is.
pub open spec fn arranged(
    t: TreeView,
    ks: Seq<LayoutKind>,
    cs: Seq<Option<Point>>,
    vs: Seq<LayoutView>,
    e: usize,
    bounds: Rect,
    k: nat,
) -> (TreeView, Seq<LayoutView>)
    decreases k, 2int, 0int,
{
    let v = vs[e as int];
    let vs1 = vs.update(e as int, LayoutView { arrange_size: Some(bounds.size), ..v });
    let (t2, vs2, res) = if t.node(e).visibility == Visibility::Collapsed {
        (t, vs1, ArrangeResult {
            render_bounds: zero_at_origin(zero()),
            real_render_bounds: zero_at_origin(zero()),
            real_render_bounds_with_shadow: zero_at_origin(zero()),
        })
    } else {
        let (t1, vsc, rsize) = if v.arrange_size != Some(bounds.size) {
            let (t1, vsc, content) = arranged_content(
                t,
                ks,
                cs,
                vs1,
                e,
                zero_at_origin(spec_arrange_inner(v, bounds.size)),
                k,
            );
            (t1, vsc, spec_vmin(spec_expand_size(vsc[e as int].margin, clamp(vsc[e as int], content)), bounds.size))
        } else {
            (t, vs1, v.render_bounds.size)
        };
        (t1, vsc, spec_arrange_result(vsc[e as int], bounds, rsize, t1.node(e).shadow))
    };
    let vs3 = vs2.update(e as int, LayoutView { render_bounds: res.render_bounds, ..vs2[e as int] });
    let cur = t2.node(e);
    if res.real_render_bounds == cur.real_render_bounds && res.real_render_bounds_with_shadow
        == cur.real_render_bounds_with_shadow {
        (t2, vs3)
    } else {
        let t3 = t2.marked(e);
        let t4 = t3.with_node(
            e,
            Node {
                real_render_bounds: res.real_render_bounds,
                real_render_bounds_with_shadow: res.real_render_bounds_with_shadow,
                ..t3.node(e)
            },
        );
        (t4.marked(e), vs3)
    }
}

/// Arranging the content of view `e` in `inner` by its kind of layout: the
/// tree and views after, and the size the content takes.
pub open spec fn arranged_content(
    t: TreeView,
    ks: Seq<LayoutKind>,
    cs: Seq<Option<Point>>,
    vs: Seq<LayoutView>,
    e: usize,
    inner: Rect,
    k: nat,
) -> (TreeView, Seq<LayoutView>, Vector)
    decreases k, 1int, 0int,
{
    if k == 0 {
        (t, vs, zero())
    } else {
        match ks[e as int] {
            LayoutKind::Background { fit_to_content } => match first_kid(t, e) {
                None => (t, vs, if fit_to_content { zero() } else { inner.size }),
                Some(c) => {
                    let (t1, vs1) = arranged(t, ks, cs, vs, c, inner, (k - 1) as nat);
                    (t1, vs1, if fit_to_content { vs1[c as int].render_bounds.size } else { inner.size })
                },
            },
            LayoutKind::ContentPresenter | LayoutKind::Control => match first_kid(t, e) {
                None => (t, vs, zero()),
                Some(c) => {
                    let (t1, vs1) = arranged(t, ks, cs, vs, c, inner, (k - 1) as nat);
                    (t1, vs1, vs1[c as int].render_bounds.size)
                },
            },
            LayoutKind::StackPanel { vertical } => {
                let r = stack_arranged(t, ks, cs, vs, e, vertical, inner, t.kids(e).len() as int, k);
                (r.0, r.1, r.3)
            },
            LayoutKind::Canvas => {
                let r = canvas_arranged(t, ks, cs, vs, e, t.kids(e).len() as int, k);
                (r.0, r.1, inner.size)
            },
            LayoutKind::TButton { .. } | LayoutKind::Button { .. } => (t, vs, inner.size),
            LayoutKind::StaticText { text, align, wrapping } => (
                t,
                vs,
                spec_render_text(text@, inner, spec_text_align_h(align), wrapping).1.size,
            ),
            LayoutKind::Border => match first_kid(t, e) {
                None => (t, vs, inner.size),
                Some(c) => {
                    let (t1, vs1) = arranged(
                        t,
                        ks,
                        cs,
                        vs,
                        c,
                        spec_shrink_rect(Thickness { l: 1, t: 1, r: 1, b: 1 }, inner),
                        (k - 1) as nat,
                    );
                    (t1, vs1, inner.size)
                },
            },
            LayoutKind::AdornersPanel => {
                let r = adorners_arranged(t, ks, cs, vs, e, inner, t.kids(e).len() as int, k);
                (r.0, r.1, if r.3 { zero() } else { r.2.size })
            },
            LayoutKind::Empty => (t, vs, zero()),
        }
    }
}

/// A stack panel arranges its first `j` children one after another from
/// the top left of `inner`, each as long as it asked and as wide as the
/// panel: the tree and views after, where the next child goes, and the
/// size taken.
pub open spec fn stack_arranged(
    t: TreeView,
    ks: Seq<LayoutKind>,
    cs: Seq<Option<Point>>,
    vs: Seq<LayoutView>,
    e: usize,
    vertical: bool,
    inner: Rect,
    j: int,
    k: nat,
) -> (TreeView, Seq<LayoutView>, Point, Vector)
    decreases k, 0int, j,
{
    if j <= 0 || k == 0 {
        (t, vs, inner.tl, zero())
    } else {
        let (t1, vs1, pos, size) = stack_arranged(t, ks, cs, vs, e, vertical, inner, j - 1, k);
        let c = t.kids(e)[j - 1];
        let d = vs1[c as int].desired_size;
        let cs_ = if vertical { Vector { x: inner.size.x, y: d.y } } else { Vector { x: d.x, y: inner.size.y } };
        let (t2, vs2) = arranged(t1, ks, cs, vs1, c, Rect { tl: pos, size: cs_ }, (k - 1) as nat);
        if vertical {
            (
                t2,
                vs2,
                spec_offset(pos, Vector { x: 0, y: cs_.y }),
                spec_vmax(spec_vadd(size, Vector { x: 0, y: cs_.y }), Vector { x: cs_.x, y: 0 }),
            )
        } else {
            (
                t2,
                vs2,
                spec_offset(pos, Vector { x: cs_.x, y: 0 }),
                spec_vmax(spec_vadd(size, Vector { x: cs_.x, y: 0 }), Vector { x: 0, y: cs_.y }),
            )
        }
    }
}

/// A canvas arranges its first `j` children at their positions (the
/// origin where they have none), each as large as it asked.
pub open spec fn canvas_arranged(
    t: TreeView,
    ks: Seq<LayoutKind>,
    cs: Seq<Option<Point>>,
    vs: Seq<LayoutView>,
    e: usize,
    j: int,
    k: nat,
) -> (TreeView, Seq<LayoutView>)
    decreases k, 0int, j,
{
    if j <= 0 || k == 0 {
        (t, vs)
    } else {
        let (t1, vs1) = canvas_arranged(t, ks, cs, vs, e, j - 1, k);
        let c = t.kids(e)[j - 1];
        let tl = if cs[c as int] is Some { cs[c as int].unwrap() } else { Point { x: 0, y: 0 } };
        arranged(t1, ks, cs, vs1, c, Rect { tl, size: vs1[c as int].desired_size }, (k - 1) as nat)
    }
}

/// An adorner panel arranges its first child in `inner`; where that child
/// changed size, the panel is to be measured again and stops (`true`);
/// else the other children go where the first one is. The tree and views
/// after, the rectangle of the first child, and whether it stopped.
pub open spec fn adorners_arranged(
    t: TreeView,
    ks: Seq<LayoutKind>,
    cs: Seq<Option<Point>>,
    vs: Seq<LayoutView>,
    e: usize,
    inner: Rect,
    j: int,
    k: nat,
) -> (TreeView, Seq<LayoutView>, Rect, bool)
    decreases k, 0int, j,
{
    if j <= 0 || k == 0 {
        (t, vs, inner, false)
    } else {
        let (t1, vs1, cb, stopped) = adorners_arranged(t, ks, cs, vs, e, inner, j - 1, k);
        let c = t.kids(e)[j - 1];
        if stopped {
            (t1, vs1, cb, true)
        } else if j == 1 {
            let prev = vs1[c as int].render_bounds.size;
            let (t2, vs2) = arranged(t1, ks, cs, vs1, c, inner, (k - 1) as nat);
            let cb2 = vs2[c as int].render_bounds;
            if cb2.size != prev {
                (t2, measure_invalidated(t2, vs2, e), cb2, true)
            } else {
                (t2, vs2, cb2, false)
            }
        } else {
            let (t2, vs2) = arranged(t1, ks, cs, vs1, c, cb, (k - 1) as nat);
            (t2, vs2, cb, false)
        }
    }
}

/// Up to `rounds` layout passes over the tree from `root` on a screen of
/// `size`: measure, then arrange; done once both results of the root stay
/// valid (an adorner panel may drop them and ask for another pass).
pub open spec fn performed(
    t: TreeView,
    ks: Seq<LayoutKind>,
    cs: Seq<Option<Point>>,
    vs: Seq<LayoutView>,
    root: usize,
    size: Vector,
    rounds: nat,
) -> (TreeView, Seq<LayoutView>)
    decreases rounds,
{
    if rounds == 0 {
        (t, vs)
    } else {
        let vs1 = measured(t, ks, cs, vs, root, Some(size.x), Some(size.y), t.n());
        let (t2, vs2) = arranged(t, ks, cs, vs1, root, zero_at_origin(size), t.n());
        if vs2[root as int].measure_size is Some && vs2[root as int].arrange_size is Some {
            (t2, vs2)
        } else {
            performed(t2, ks, cs, vs2, root, size, (rounds - 1) as nat)
        }
    }
}

/// What arranging the content of a view takes, known before any child is
/// arranged.
enum ArrangeKind {
    Background(bool),
    Single,
    Stack(bool),
    Canvas,
    Size(Vector),
    Framed,
    Adorners,
}

/// What measuring the content of a view takes, known before any child is
/// measured.
enum ContentStep {
    /// Measure the one child with the same constraints.
    Single,
    /// Measure the children one after another.
    Stack(bool),
    /// Measure the children unbounded.
    Canvas,
    /// The content asks for this size.
    Size(Vector),
    /// Measure the child one cell smaller on every side.
    Framed,
    /// Measure the first child, then the others in its size.
    Adorners,
}

impl Layouts {
    pub open spec fn ok(&self, t: TreeView) -> bool {
        layouts_ok(t, self.views@, self.kinds@, self.canvas_tl@)
    }

    /// Measures view `e` (`d` levels below `top`) with the constraints `w`
    /// and `h`.
    fn measure(
        &mut self,
        tree: &VisualTree,
        e: usize,
        w: Option<i16>,
        h: Option<i16>,
        Ghost(top): Ghost<usize>,
        Ghost(d): Ghost<nat>,
        Ghost(k): Ghost<nat>,
    )
        requires
            old(self).ok(tree@),
            tree@.wf(),
            e < tree@.n(),
            top < tree@.n(),
            tree@.up(e, d) == Some(top),
            k == tree@.n() - d,
        ensures
            final(self).ok(tree@),
            final(self).views@ == measured(tree@, old(self).kinds@, old(self).canvas_tl@, old(self).views@, e, w, h, k),
            final(self).kinds@ == old(self).kinds@,
            final(self).canvas_tl@ == old(self).canvas_tl@,
        decreases k, 2int,
    {
        let mut v = self.views[e];
        let collapsed = tree.nodes[e].visibility == Visibility::Collapsed;
        proof {
            assert(self.views@[e as int].wf());
        }
        let step = v.measure_begin(w, h, collapsed);
        self.views.set(e, v);
        match step {
            MeasureStep::Done => {
                proof {
                    if old(self).views@[e as int].measure_size == Some((w, h)) {
                        assert(self.views@ =~= old(self).views@);
                    }
                }
            },
            MeasureStep::Measure(aw, ah) => {
                let inner = self.measure_content(tree, e, aw, ah, Ghost(top), Ghost(d), Ghost(k));
                let mut v2 = self.views[e];
                proof {
                    assert(self.views@[e as int].wf());
                }
                v2.measure_end(w, h, inner);
                self.views.set(e, v2);
            },
        }
    }

    /// Measures the content of view `e` by its kind of layout; returns the
    /// size the content asks for.
    fn measure_content(
        &mut self,
        tree: &VisualTree,
        e: usize,
        w: Option<i16>,
        h: Option<i16>,
        Ghost(top): Ghost<usize>,
        Ghost(d): Ghost<nat>,
        Ghost(k): Ghost<nat>,
    ) -> (res: Vector)
        requires
            old(self).ok(tree@),
            tree@.wf(),
            e < tree@.n(),
            top < tree@.n(),
            tree@.up(e, d) == Some(top),
            k == tree@.n() - d,
        ensures
            final(self).ok(tree@),
            (final(self).views@, res) == measured_content(
                tree@,
                old(self).kinds@,
                old(self).canvas_tl@,
                old(self).views@,
                e,
                w,
                h,
                k,
            ),
            final(self).kinds@ == old(self).kinds@,
            final(self).canvas_tl@ == old(self).canvas_tl@,
        decreases k, 1int,
    {
        proof {
            tree@.lemma_depth_bound(e, d);
        }
        let ghost ks = self.kinds@;
        let ghost cs = self.canvas_tl@;
        let ghost vs0 = self.views@;
        let step = match &self.kinds[e] {
            LayoutKind::Background { .. } => ContentStep::Single,
            LayoutKind::ContentPresenter => ContentStep::Single,
            LayoutKind::Control => ContentStep::Single,
            LayoutKind::StackPanel { vertical } => ContentStep::Stack(*vertical),
            LayoutKind::Canvas => ContentStep::Canvas,
            LayoutKind::TButton { label } => ContentStep::Size(measure_t_button(label)),
            LayoutKind::Button { label } => ContentStep::Size(measure_button(label)),
            LayoutKind::StaticText { text, align, wrapping } => {
                let mut scratch: Vec<Draw> = Vec::new();
                let bounds = Rect {
                    tl: Point { x: 0, y: 0 },
                    size: Vector {
                        x: match w {
                            Some(x) => x,
                            None => -1,
                        },
                        y: match h {
                            Some(y) => y,
                            None => -1,
                        },
                    },
                };
                ContentStep::Size(render_text(&mut scratch, bounds, align.to_h_align(), *wrapping, text).size)
            },
            LayoutKind::Border => ContentStep::Framed,
            LayoutKind::AdornersPanel => ContentStep::Adorners,
            LayoutKind::Empty => ContentStep::Size(Vector { x: 0, y: 0 }),
        };
        let len = self.children_len(tree, e);
        match step {
            ContentStep::Size(s) => s,
            ContentStep::Single => {
                if len == 0 {
                    Vector { x: 0, y: 0 }
                } else {
                    let c = tree.children[e][0];
                    proof {
                        lemma_kid(tree@, e, 0, d);
                    }
                    self.measure(tree, c, w, h, Ghost(top), Ghost(d + 1), Ghost((k - 1) as nat));
                    self.views[c].desired_size
                }
            },
            ContentStep::Framed => {
                if len == 0 {
                    measure_border(None)
                } else {
                    let c = tree.children[e][0];
                    proof {
                        lemma_kid(tree@, e, 0, d);
                    }
                    let (cw, ch) = border_child_constraints(w, h);
                    self.measure(tree, c, cw, ch, Ghost(top), Ghost(d + 1), Ghost((k - 1) as nat));
                    measure_border(Some(self.views[c].desired_size))
                }
            },
            ContentStep::Stack(vertical) => {
                let mut size = Vector { x: 0, y: 0 };
                let mut j: usize = 0;
                while j < len
                    invariant
                        self.ok(tree@),
                        tree@.wf(),
                        e < tree@.n(),
                        top < tree@.n(),
                        tree@.up(e, d) == Some(top),
                        d < tree@.n(),
                        k == tree@.n() - d,
                        len == tree@.kids(e).len(),
                        j <= len,
                        self.kinds@ == ks,
                        self.canvas_tl@ == cs,
                        (self.views@, size) == stack_measured(tree@, ks, cs, vs0, e, vertical, w, h, j as int, k),
                    decreases len - j,
                {
                    let c = tree.children[e][j];
                    proof {
                        lemma_kid(tree@, e, j as int, d);
                    }
                    if vertical {
                        self.measure(tree, c, w, None, Ghost(top), Ghost(d + 1), Ghost((k - 1) as nat));
                    } else {
                        self.measure(tree, c, None, h, Ghost(top), Ghost(d + 1), Ghost((k - 1) as nat));
                    }
                    let dz = self.views[c].desired_size;
                    if vertical {
                        size = size.plus(Vector { x: 0, y: dz.y }).max(Vector { x: dz.x, y: 0 });
                    } else {
                        size = size.plus(Vector { x: dz.x, y: 0 }).max(Vector { x: 0, y: dz.y });
                    }
                    j = j + 1;
                }
                size
            },
            ContentStep::Canvas => {
                let mut j: usize = 0;
                while j < len
                    invariant
                        self.ok(tree@),
                        tree@.wf(),
                        e < tree@.n(),
                        top < tree@.n(),
                        tree@.up(e, d) == Some(top),
                        d < tree@.n(),
                        k == tree@.n() - d,
                        len == tree@.kids(e).len(),
                        j <= len,
                        self.kinds@ == ks,
                        self.canvas_tl@ == cs,
                        self.views@ == canvas_measured(tree@, ks, cs, vs0, e, j as int, k),
                    decreases len - j,
                {
                    let c = tree.children[e][j];
                    proof {
                        lemma_kid(tree@, e, j as int, d);
                    }
                    self.measure(tree, c, None, None, Ghost(top), Ghost(d + 1), Ghost((k - 1) as nat));
                    j = j + 1;
                }
                measure_canvas(w, h)
            },
            ContentStep::Adorners => {
                let mut rs = Vector { x: 0, y: 0 };
                let mut desired = Vector { x: 0, y: 0 };
                let mut j: usize = 0;
                while j < len
                    invariant
                        self.ok(tree@),
                        tree@.wf(),
                        e < tree@.n(),
                        top < tree@.n(),
                        tree@.up(e, d) == Some(top),
                        d < tree@.n(),
                        k == tree@.n() - d,
                        len == tree@.kids(e).len(),
                        j <= len,
                        self.kinds@ == ks,
                        self.canvas_tl@ == cs,
                        (self.views@, rs, desired) == adorners_measured(tree@, ks, cs, vs0, e, w, h, j as int, k),
                    decreases len - j,
                {
                    let c = tree.children[e][j];
                    proof {
                        lemma_kid(tree@, e, j as int, d);
                    }
                    if j == 0 {
                        rs = self.views[c].render_bounds.size;
                        self.measure(tree, c, w, h, Ghost(top), Ghost(d + 1), Ghost((k - 1) as nat));
                        desired = self.views[c].desired_size;
                    } else {
                        self.measure(tree, c, Some(rs.x), Some(rs.y), Ghost(top), Ghost(d + 1), Ghost((k - 1) as nat));
                    }
                    j = j + 1;
                }
                desired
            },
        }
    }

    /// Drops the layout caches of view `e` and all its ancestors, so that
    /// the next pass measures them again.
    pub fn invalidate_measure(&mut self, tree: &VisualTree, e: usize)
        requires
            old(self).ok(tree@),
            tree@.wf(),
            e < tree@.n(),
        ensures
            final(self).ok(tree@),
            final(self).views@ == measure_invalidated(tree@, old(self).views@, e),
            final(self).kinds@ == old(self).kinds@,
            final(self).canvas_tl@ == old(self).canvas_tl@,
    {
        let ghost vs0 = self.views@;
        let mut cur = e;
        let ghost mut k: nat = 0;
        loop
            invariant_except_break
                self.ok(tree@),
                tree@.wf(),
                e < tree@.n(),
                cur < tree@.n(),
                tree@.up(e, k) == Some(cur),
                self.kinds@ == old(self).kinds@,
                self.canvas_tl@ == old(self).canvas_tl@,
                vs0 == old(self).views@,
                self.views@.len() == vs0.len(),
                forall|i: int|
                    0 <= i < vs0.len() ==> #[trigger] self.views@[i] == (if exists|j: nat| j < k
                        && tree@.up(e, j) == Some(i as usize) {
                        LayoutView { measure_size: None, arrange_size: None, ..vs0[i] }
                    } else {
                        vs0[i]
                    }),
            ensures
                self.ok(tree@),
                self.kinds@ == old(self).kinds@,
                self.canvas_tl@ == old(self).canvas_tl@,
                self.views@ == measure_invalidated(tree@, vs0, e),
            decreases tree@.n() - k,
        {
            proof {
                tree@.lemma_depth_bound(e, k);
                tree@.lemma_up_succ(e, k);
                tree@.lemma_up_in_range(e, k);
            }
            let ghost before = self.views@;
            assert(vs0.len() <= usize::MAX) by {
                assert(self.views@.len() == self.views.len());
            }
            let mut v = self.views[cur];
            v.measure_size = None;
            v.arrange_size = None;
            self.views.set(cur, v);
            proof {
                assert forall|i: int| 0 <= i < vs0.len() implies #[trigger] self.views@[i] == (if exists|j: nat| j < k + 1
                    && tree@.up(e, j) == Some(i as usize) {
                    LayoutView { measure_size: None, arrange_size: None, ..vs0[i] }
                } else {
                    vs0[i]
                }) by {
                    if i == cur as int {
                        assert(tree@.up(e, k) == Some(i as usize));
                        if exists|j: nat| j < k && tree@.up(e, j) == Some(i as usize) {
                            assert(before[i] == LayoutView { measure_size: None, arrange_size: None, ..vs0[i] });
                        }
                    } else {
                        assert((i as usize) as int == i);
                        assert(forall|j: nat| j < k + 1 && tree@.up(e, j) == Some(i as usize) ==> j < k);
                    }
                }
                assert forall|i: int| 0 <= i < self.views@.len() implies (#[trigger] self.views@[i]).wf() by {
                    assert(before[i].wf());
                }
            }
            match tree.nodes[cur].parent {
                None => {
                    proof {
                        assert(vs0.len() <= usize::MAX) by {
                            assert(self.views@.len() == self.views.len());
                        }
                        assert forall|i: int| 0 <= i < vs0.len() implies #[trigger] self.views@[i]
                            == measure_invalidated(tree@, vs0, e)[i] by {
                            let ii = i as usize;
                            assert(ii as int == i);
                            if tree@.reaches(e, ii) {
                                let j = choose|j: nat| tree@.up(e, j) == Some(ii);
                                if j > k {
                                    tree@.lemma_up_none_mono(e, k + 1, j);
                                }
                                assert(j < k + 1 && tree@.up(e, j) == Some(ii));
                            } else {
                                assert(!exists|j: nat| j < k + 1 && tree@.up(e, j) == Some(ii));
                            }
                        }
                        assert(self.views@ =~= measure_invalidated(tree@, vs0, e));
                    }
                    break;
                },
                Some(p) => {
                    cur = p;
                    proof {
                        k = k + 1;
                    }
                },
            }
        }
    }

    /// Gives the content presenter `e` the child `new_child` (what
    /// `ContentPresenter::new_child` asks for: its content view, a piece of
    /// text made as `ContentPresenter::text_child` says, or none). Its old child leaves the tree, the
    /// new one comes in, and `e` is measured again. Returns `false`, and
    /// leaves `e` without a child, where the new child may not be adopted.
    pub fn update_presenter_child(
        &mut self,
        tree: &mut VisualTree,
        e: usize,
        cp: &mut ContentPresenter,
        new_child: Option<usize>,
    ) -> (res: bool)
        requires
            old(self).ok(old(tree)@),
            old(tree)@.wf(),
            e < old(tree)@.n(),
            old(cp).actual_child matches Some(o) ==> old(tree)@.kids(e).contains(o),
        ensures
            final(tree)@.wf(),
            final(self).ok(final(tree)@),
            (final(tree)@, res) == child_swapped(old(tree)@, e, old(cp).actual_child, new_child),
            final(cp).actual_child == (if res { new_child } else { None }),
            final(cp).content == old(cp).content,
            final(cp).text == old(cp).text,
            final(cp).text_color == old(cp).text_color,
            final(cp).text_wrapping == old(cp).text_wrapping,
            final(self).views@ == measure_invalidated(final(tree)@, old(self).views@, e),
            final(self).kinds@ == old(self).kinds@,
            final(self).canvas_tl@ == old(self).canvas_tl@,
    {
        let ghost t0 = tree@;
        match cp.actual_child {
            Some(o) => {
                let ghost k0 = kid_index(t0, e, o);
                proof {
                    assert(t0.kids(e).contains(o));
                    assert(0 <= k0 < t0.kids(e).len() && t0.kids(e)[k0] == o);
                }
                let len = tree.children[e].len();
                proof {
                    assert(t0.kids(e).len() == len);
                }
                let mut j: usize = 0;
                while tree.children[e][j] != o
                    invariant
                        tree@ == t0,
                        t0.wf(),
                        e < t0.n(),
                        0 <= k0 < t0.kids(e).len(),
                        t0.kids(e)[k0] == o,
                        j <= k0,
                        k0 < usize::MAX,
                    decreases k0 - j,
                {
                    assert(j != k0);
                    j = j + 1;
                }
                proof {
                    assert(t0.kids(e)[j as int] == o);
                    assert(t0.kids(e).no_duplicates());
                }
                tree.remove_child(e, j);
            },
            None => {},
        }
        let res = match new_child {
            Some(c) => if tree.can_adopt(e, c) {
                tree.add_child(e, c);
                true
            } else {
                false
            },
            None => true,
        };
        cp.actual_child = if res { new_child } else { None };
        proof {
            assert(tree@.n() == t0.n());
        }
        self.invalidate_measure(tree, e);
        res
    }

    /// Places view `e` at `tl` on its parent's canvas; the parent and its
    /// ancestors are arranged again on the next pass.
    pub fn set_canvas_tl(&mut self, tree: &VisualTree, e: usize, tl: Point)
        requires
            old(self).ok(tree@),
            tree@.wf(),
            e < tree@.n(),
        ensures
            final(self).ok(tree@),
            final(self).canvas_tl@ == old(self).canvas_tl@.update(e as int, Some(tl)),
            final(self).kinds@ == old(self).kinds@,
            final(self).views@ == (match tree@.node(e).parent {
                Some(p) => arrange_invalidated(tree@, old(self).views@, p),
                None => old(self).views@,
            }),
    {
        self.canvas_tl.set(e, Some(tl));
        match tree.nodes[e].parent {
            Some(p) => self.invalidate_arrange(tree, p),
            None => {},
        }
    }

    /// Gives view `e` the visibility `value`. Taking or giving up space
    /// drops the layout caches of `e` and its ancestors; only showing or
    /// hiding it marks it for redrawing.
    pub fn set_visibility(&mut self, tree: &mut VisualTree, e: usize, value: Visibility)
        requires
            old(self).ok(old(tree)@),
            old(tree)@.wf(),
            e < old(tree)@.n(),
        ensures
            final(self).ok(final(tree)@),
            final(tree)@.wf(),
            same_links(old(tree)@, final(tree)@),
            ({
                let effects = spec_visibility_effects(old(tree)@.node(e).visibility, value);
                let t1 = old(tree)@.with_node(e, Node { visibility: value, ..old(tree)@.node(e) });
                &&& final(tree)@ == (if effects.1 { t1.marked(e) } else { t1 })
                &&& final(self).views@ == (if effects.0 {
                    measure_invalidated(old(tree)@, old(self).views@, e)
                } else {
                    old(self).views@
                })
            }),
            final(self).kinds@ == old(self).kinds@,
            final(self).canvas_tl@ == old(self).canvas_tl@,
    {
        let ghost t0 = tree@;
        let ghost vs0 = self.views@;
        let nd0 = tree.nodes[e];
        let (measure, render) = visibility_effects(nd0.visibility, value);
        let nd = Node { visibility: value, ..nd0 };
        proof {
            assert(t0.node(e).shadow.wf());
        }
        tree.set_node(e, nd);
        let ghost t1 = tree@;
        proof {
            assert forall|i: usize, k: nat| i < t0.n() implies t0.up(i, k) == #[trigger] t1.up(i, k) by {
                lemma_same_links_up(t0, t1, i, k);
            }
            assert(measure_invalidated(t1, vs0, e) =~= measure_invalidated(t0, vs0, e)) by {
                assert forall|i: int| 0 <= i < vs0.len() implies measure_invalidated(t1, vs0, e)[i]
                    == measure_invalidated(t0, vs0, e)[i] by {
                    if t0.reaches(e, i as usize) {
                        let k = choose|k: nat| t0.up(e, k) == Some(i as usize);
                        assert(t1.up(e, k) == Some(i as usize));
                    }
                    if t1.reaches(e, i as usize) {
                        let k = choose|k: nat| t1.up(e, k) == Some(i as usize);
                        assert(t0.up(e, k) == Some(i as usize));
                    }
                }
            }
        }
        if measure {
            self.invalidate_measure(tree, e);
        }
        if render {
            tree.invalidate_render(e);
            proof {
                lemma_same_shape_links(t1, tree@);
            }
        }
        proof {
            lemma_same_links_trans(t0, t1, tree@);
        }
    }

    /// Drops the arrangement caches of view `e` and all its ancestors, so
    /// that the next pass arranges them again; measurements are kept.
    pub fn invalidate_arrange(&mut self, tree: &VisualTree, e: usize)
        requires
            old(self).ok(tree@),
            tree@.wf(),
            e < tree@.n(),
        ensures
            final(self).ok(tree@),
            final(self).views@ == arrange_invalidated(tree@, old(self).views@, e),
            final(self).kinds@ == old(self).kinds@,
            final(self).canvas_tl@ == old(self).canvas_tl@,
    {
        let ghost vs0 = self.views@;
        let mut cur = e;
        let ghost mut k: nat = 0;
        loop
            invariant_except_break
                self.ok(tree@),
                tree@.wf(),
                e < tree@.n(),
                cur < tree@.n(),
                tree@.up(e, k) == Some(cur),
                self.kinds@ == old(self).kinds@,
                self.canvas_tl@ == old(self).canvas_tl@,
                vs0 == old(self).views@,
                self.views@.len() == vs0.len(),
                forall|i: int|
                    0 <= i < vs0.len() ==> #[trigger] self.views@[i] == (if exists|j: nat| j < k
                        && tree@.up(e, j) == Some(i as usize) {
                        LayoutView { arrange_size: None, ..vs0[i] }
                    } else {
                        vs0[i]
                    }),
            ensures
                self.ok(tree@),
                self.kinds@ == old(self).kinds@,
                self.canvas_tl@ == old(self).canvas_tl@,
                self.views@ == arrange_invalidated(tree@, vs0, e),
            decreases tree@.n() - k,
        {
            proof {
                tree@.lemma_depth_bound(e, k);
                tree@.lemma_up_succ(e, k);
                tree@.lemma_up_in_range(e, k);
            }
            let ghost before = self.views@;
            assert(vs0.len() <= usize::MAX) by {
                assert(self.views@.len() == self.views.len());
            }
            let mut v = self.views[cur];
            v.arrange_size = None;
            self.views.set(cur, v);
            proof {
                assert forall|i: int| 0 <= i < vs0.len() implies #[trigger] self.views@[i] == (if exists|j: nat| j < k + 1
                    && tree@.up(e, j) == Some(i as usize) {
                    LayoutView { arrange_size: None, ..vs0[i] }
                } else {
                    vs0[i]
                }) by {
                    if i == cur as int {
                        assert(tree@.up(e, k) == Some(i as usize));
                        if exists|j: nat| j < k && tree@.up(e, j) == Some(i as usize) {
                            assert(before[i] == LayoutView { arrange_size: None, ..vs0[i] });
                        }
                    } else {
                        assert((i as usize) as int == i);
                        assert(forall|j: nat| j < k + 1 && tree@.up(e, j) == Some(i as usize) ==> j < k);
                    }
                }
                assert forall|i: int| 0 <= i < self.views@.len() implies (#[trigger] self.views@[i]).wf() by {
                    assert(before[i].wf());
                }
            }
            match tree.nodes[cur].parent {
                None => {
                    proof {
                        assert(vs0.len() <= usize::MAX) by {
                            assert(self.views@.len() == self.views.len());
                        }
                        assert forall|i: int| 0 <= i < vs0.len() implies #[trigger] self.views@[i]
                            == arrange_invalidated(tree@, vs0, e)[i] by {
                            let ii = i as usize;
                            assert(ii as int == i);
                            if tree@.reaches(e, ii) {
                                let j = choose|j: nat| tree@.up(e, j) == Some(ii);
                                if j > k {
                                    tree@.lemma_up_none_mono(e, k + 1, j);
                                }
                                assert(j < k + 1 && tree@.up(e, j) == Some(ii));
                            } else {
                                assert(!exists|j: nat| j < k + 1 && tree@.up(e, j) == Some(ii));
                            }
                        }
                        assert(self.views@ =~= arrange_invalidated(tree@, vs0, e));
                    }
                    break;
                },
                Some(p) => {
                    cur = p;
                    proof {
                        k = k + 1;
                    }
                },
            }
        }
    }

    /// Arranges view `e` (`d` levels below `top`) in `bounds`.
    fn arrange(
        &mut self,
        tree: &mut VisualTree,
        e: usize,
        bounds: Rect,
        Ghost(top): Ghost<usize>,
        Ghost(d): Ghost<nat>,
        Ghost(k): Ghost<nat>,
    )
        requires
            old(self).ok(old(tree)@),
            old(tree)@.wf(),
            e < old(tree)@.n(),
            top < old(tree)@.n(),
            old(tree)@.up(e, d) == Some(top),
            k == old(tree)@.n() - d,
        ensures
            final(self).ok(final(tree)@),
            final(tree)@.wf(),
            same_links(old(tree)@, final(tree)@),
            (final(tree)@, final(self).views@) == arranged(
                old(tree)@,
                old(self).kinds@,
                old(self).canvas_tl@,
                old(self).views@,
                e,
                bounds,
                k,
            ),
            final(self).kinds@ == old(self).kinds@,
            final(self).canvas_tl@ == old(self).canvas_tl@,
        decreases k, 2int,
    {
        let ghost t0 = tree@;
        let collapsed = tree.nodes[e].visibility == Visibility::Collapsed;
        let mut v = self.views[e];
        proof {
            assert(self.views@[e as int].wf());
        }
        let step = v.arrange_begin(bounds.size);
        self.views.set(e, v);
        proof {
            lemma_same_links_refl(t0);
        }
        let res = if collapsed {
            collapsed_arrange_result()
        } else {
            let rsize = match step {
                ArrangeStep::Arrange(a) => {
                    let content = self.arrange_content(
                        tree,
                        e,
                        Rect { tl: Point { x: 0, y: 0 }, size: a },
                        Ghost(top),
                        Ghost(d),
                        Ghost(k),
                    );
                    proof {
                        assert(self.views@[e as int].wf());
                    }
                    self.views[e].render_size(bounds.size, Some(content))
                },
                ArrangeStep::Keep => {
                    proof {
                        assert(self.views@[e as int].wf());
                    }
                    self.views[e].render_size(bounds.size, None)
                },
            };
            let shadow = tree.nodes[e].shadow;
            proof {
                assert(self.views@[e as int].wf());
                assert(tree@.node(e).shadow.wf());
            }
            self.views[e].arrange_result(bounds, rsize, shadow)
        };
        let mut v3 = self.views[e];
        v3.render_bounds = res.render_bounds;
        self.views.set(e, v3);
        proof {
            assert forall|i: int| 0 <= i < self.views@.len() implies (#[trigger] self.views@[i]).wf() by {
            }
        }
        let cur = tree.nodes[e];
        if res.real_render_bounds == cur.real_render_bounds && res.real_render_bounds_with_shadow
            == cur.real_render_bounds_with_shadow {
            return;
        }
        let ghost t2 = tree@;
        tree.invalidate_render(e);
        let ghost t3 = tree@;
        proof {
            lemma_same_shape_links(t2, t3);
        }
        let nd = tree.nodes[e];
        tree.set_node(
            e,
            Node {
                real_render_bounds: res.real_render_bounds,
                real_render_bounds_with_shadow: res.real_render_bounds_with_shadow,
                ..nd
            },
        );
        let ghost t4 = tree@;
        tree.invalidate_render(e);
        proof {
            lemma_same_shape_links(t4, tree@);
            lemma_same_links_trans(t0, t2, t3);
            lemma_same_links_trans(t0, t3, t4);
            lemma_same_links_trans(t0, t4, tree@);
        }
    }

    /// Arranges the content of view `e` in `inner` by its kind of layout;
    /// returns the size the content takes.
    #[verifier::rlimit(30)]
    fn arrange_content(
        &mut self,
        tree: &mut VisualTree,
        e: usize,
        inner: Rect,
        Ghost(top): Ghost<usize>,
        Ghost(d): Ghost<nat>,
        Ghost(k): Ghost<nat>,
    ) -> (res: Vector)
        requires
            old(self).ok(old(tree)@),
            old(tree)@.wf(),
            e < old(tree)@.n(),
            top < old(tree)@.n(),
            old(tree)@.up(e, d) == Some(top),
            k == old(tree)@.n() - d,
        ensures
            final(self).ok(final(tree)@),
            final(tree)@.wf(),
            same_links(old(tree)@, final(tree)@),
            (final(tree)@, final(self).views@, res) == arranged_content(
                old(tree)@,
                old(self).kinds@,
                old(self).canvas_tl@,
                old(self).views@,
                e,
                inner,
                k,
            ),
            final(self).kinds@ == old(self).kinds@,
            final(self).canvas_tl@ == old(self).canvas_tl@,
        decreases k, 1int,
    {
        let ghost t0 = tree@;
        let ghost ks = self.kinds@;
        let ghost cs = self.canvas_tl@;
        let ghost vs0 = self.views@;
        proof {
            t0.lemma_depth_bound(e, d);
            lemma_same_links_refl(t0);
        }
        let step = match &self.kinds[e] {
            LayoutKind::Background { fit_to_content } => ArrangeKind::Background(*fit_to_content),
            LayoutKind::ContentPresenter => ArrangeKind::Single,
            LayoutKind::Control => ArrangeKind::Single,
            LayoutKind::StackPanel { vertical } => ArrangeKind::Stack(*vertical),
            LayoutKind::Canvas => ArrangeKind::Canvas,
            LayoutKind::TButton { .. } => ArrangeKind::Size(inner.size),
            LayoutKind::Button { .. } => ArrangeKind::Size(inner.size),
            LayoutKind::StaticText { text, align, wrapping } => {
                let mut scratch: Vec<Draw> = Vec::new();
                ArrangeKind::Size(render_text(&mut scratch, inner, align.to_h_align(), *wrapping, text).size)
            },
            LayoutKind::Border => ArrangeKind::Framed,
            LayoutKind::AdornersPanel => ArrangeKind::Adorners,
            LayoutKind::Empty => ArrangeKind::Size(Vector { x: 0, y: 0 }),
        };
        let len = tree.children[e].len();
        match step {
            ArrangeKind::Size(s) => s,
            ArrangeKind::Background(fit) => {
                if len == 0 {
                    if fit { Vector { x: 0, y: 0 } } else { inner.size }
                } else {
                    let c = tree.children[e][0];
                    proof {
                        lemma_kid(tree@, e, 0, d);
                    }
                    self.arrange(tree, c, inner, Ghost(top), Ghost(d + 1), Ghost((k - 1) as nat));
                    if fit { self.views[c].render_bounds.size } else { inner.size }
                }
            },
            ArrangeKind::Single => {
                if len == 0 {
                    Vector { x: 0, y: 0 }
                } else {
                    let c = tree.children[e][0];
                    proof {
                        lemma_kid(tree@, e, 0, d);
                    }
                    self.arrange(tree, c, inner, Ghost(top), Ghost(d + 1), Ghost((k - 1) as nat));
                    self.views[c].render_bounds.size
                }
            },
            ArrangeKind::Framed => {
                if len > 0 {
                    let c = tree.children[e][0];
                    proof {
                        lemma_kid(tree@, e, 0, d);
                    }
                    self.arrange(tree, c, border_child_slot(inner), Ghost(top), Ghost(d + 1), Ghost((k - 1) as nat));
                }
                inner.size
            },
            ArrangeKind::Stack(vertical) => {
                let mut pos = inner.tl;
                let mut size = Vector { x: 0, y: 0 };
                let mut j: usize = 0;
                while j < len
                    invariant
                        self.ok(tree@),
                        tree@.wf(),
                        same_links(t0, tree@),
                        t0.wf(),
                        e < t0.n(),
                        top < t0.n(),
                        tree@.up(e, d) == Some(top),
                        t0.up(e, d) == Some(top),
                        d < t0.n(),
                        k == t0.n() - d,
                        len == t0.kids(e).len(),
                        j <= len,
                        self.kinds@ == ks,
                        self.canvas_tl@ == cs,
                        (tree@, self.views@, pos, size) == stack_arranged(t0, ks, cs, vs0, e, vertical, inner, j as int, k),
                    decreases len - j,
                {
                    let c = tree.children[e][j];
                    proof {
                        lemma_kid(tree@, e, j as int, d);
                        assert(tree@.kids(e) == t0.kids(e));
                    }
                    let dz = self.views[c].desired_size;
                    let child_size = if vertical {
                        Vector { x: inner.size.x, y: dz.y }
                    } else {
                        Vector { x: dz.x, y: inner.size.y }
                    };
                    let ghost t1 = tree@;
                    self.arrange(tree, c, Rect { tl: pos, size: child_size }, Ghost(top), Ghost(d + 1), Ghost((k - 1) as nat));
                    if vertical {
                        pos = pos.offset(Vector { x: 0, y: child_size.y });
                        size = size.plus(Vector { x: 0, y: child_size.y }).max(Vector { x: child_size.x, y: 0 });
                    } else {
                        pos = pos.offset(Vector { x: child_size.x, y: 0 });
                        size = size.plus(Vector { x: child_size.x, y: 0 }).max(Vector { x: 0, y: child_size.y });
                    }
                    proof {
                        lemma_same_links_trans(t0, t1, tree@);
                        lemma_same_links_up(t0, tree@, e, d);
                    }
                    j = j + 1;
                }
                size
            },
            ArrangeKind::Canvas => {
                let mut j: usize = 0;
                while j < len
                    invariant
                        self.ok(tree@),
                        tree@.wf(),
                        same_links(t0, tree@),
                        t0.wf(),
                        e < t0.n(),
                        top < t0.n(),
                        tree@.up(e, d) == Some(top),
                        t0.up(e, d) == Some(top),
                        d < t0.n(),
                        k == t0.n() - d,
                        len == t0.kids(e).len(),
                        j <= len,
                        self.kinds@ == ks,
                        self.canvas_tl@ == cs,
                        (tree@, self.views@) == canvas_arranged(t0, ks, cs, vs0, e, j as int, k),
                    decreases len - j,
                {
                    let c = tree.children[e][j];
                    proof {
                        lemma_kid(tree@, e, j as int, d);
                        assert(tree@.kids(e) == t0.kids(e));
                    }
                    let tl = match self.canvas_tl[c] {
                        Some(p) => p,
                        None => Point { x: 0, y: 0 },
                    };
                    let dz = self.views[c].desired_size;
                    let ghost t1 = tree@;
                    self.arrange(tree, c, Rect { tl, size: dz }, Ghost(top), Ghost(d + 1), Ghost((k - 1) as nat));
                    proof {
                        lemma_same_links_trans(t0, t1, tree@);
                        lemma_same_links_up(t0, tree@, e, d);
                    }
                    j = j + 1;
                }
                inner.size
            },
            ArrangeKind::Adorners => {
                let mut cb = inner;
                let mut stopped = false;
                let mut j: usize = 0;
                while j < len
                    invariant
                        self.ok(tree@),
                        tree@.wf(),
                        same_links(t0, tree@),
                        t0.wf(),
                        e < t0.n(),
                        top < t0.n(),
                        tree@.up(e, d) == Some(top),
                        t0.up(e, d) == Some(top),
                        d < t0.n(),
                        k == t0.n() - d,
                        len == t0.kids(e).len(),
                        j <= len,
                        self.kinds@ == ks,
                        self.canvas_tl@ == cs,
                        (tree@, self.views@, cb, stopped) == adorners_arranged(t0, ks, cs, vs0, e, inner, j as int, k),
                    decreases len - j,
                {
                    if !stopped {
                        let c = tree.children[e][j];
                        proof {
                            lemma_kid(tree@, e, j as int, d);
                            assert(tree@.kids(e) == t0.kids(e));
                        }
                        let ghost t1 = tree@;
                        if j == 0 {
                            let prev = self.views[c].render_bounds.size;
                            self.arrange(tree, c, inner, Ghost(top), Ghost(d + 1), Ghost((k - 1) as nat));
                            cb = self.views[c].render_bounds;
                            proof {
                                lemma_same_links_trans(t0, t1, tree@);
                                lemma_same_links_up(t0, tree@, e, d);
                            }
                            if cb.size != prev {
                                self.invalidate_measure(tree, e);
                                stopped = true;
                            }
                        } else {
                            self.arrange(tree, c, cb, Ghost(top), Ghost(d + 1), Ghost((k - 1) as nat));
                            proof {
                                lemma_same_links_trans(t0, t1, tree@);
                                lemma_same_links_up(t0, tree@, e, d);
                            }
                        }
                    }
                    j = j + 1;
                }
                if stopped { Vector { x: 0, y: 0 } } else { cb.size }
            },
        }
    }

    /// Lays out the tree from `root` on a screen of `size`, in at most
    /// `MAX_ROUNDS` passes.
    pub fn perform(&mut self, tree: &mut VisualTree, root: usize, size: Vector)
        requires
            old(self).ok(old(tree)@),
            old(tree)@.wf(),
            root < old(tree)@.n(),
        ensures
            final(self).ok(final(tree)@),
            final(tree)@.wf(),
            (final(tree)@, final(self).views@) == performed(
                old(tree)@,
                old(self).kinds@,
                old(self).canvas_tl@,
                old(self).views@,
                root,
                size,
                MAX_ROUNDS as nat,
            ),
            final(self).kinds@ == old(self).kinds@,
            final(self).canvas_tl@ == old(self).canvas_tl@,
    {
        let ghost ks = self.kinds@;
        let ghost cs = self.canvas_tl@;
        let ghost goal = performed(tree@, ks, cs, self.views@, root, size, MAX_ROUNDS as nat);
        let mut round: usize = 0;
        while round < MAX_ROUNDS
            invariant_except_break
                self.ok(tree@),
                tree@.wf(),
                root < tree@.n(),
                round <= MAX_ROUNDS,
                self.kinds@ == ks,
                self.canvas_tl@ == cs,
                goal == performed(tree@, ks, cs, self.views@, root, size, (MAX_ROUNDS - round) as nat),
            ensures
                self.ok(tree@),
                tree@.wf(),
                self.kinds@ == ks,
                self.canvas_tl@ == cs,
                goal == (tree@, self.views@),
            decreases MAX_ROUNDS - round,
        {
            proof {
                assert(tree@.up(root, 0) == Some(root));
            }
            self.measure(tree, root, Some(size.x), Some(size.y), Ghost(root), Ghost(0), Ghost(tree@.n()));
            let ghost t1 = tree@;
            self.arrange(tree, root, Rect { tl: Point { x: 0, y: 0 }, size }, Ghost(root), Ghost(0), Ghost(tree@.n()));
            proof {
                assert(t1.n() == tree@.n());
            }
            if layout_settled(&self.views[root]) {
                break;
            }
            round = round + 1;
        }
    }

    fn children_len(&self, tree: &VisualTree, e: usize) -> (res: usize)
        requires
            tree@.wf(),
            e < tree@.n(),
        ensures
            res == tree@.kids(e).len(),
    {
        tree.children[e].len()
    }

}

pub proof fn lemma_same_links_refl(a: TreeView)
    ensures
        same_links(a, a),
{
}

pub proof fn lemma_same_links_trans(a: TreeView, b: TreeView, c: TreeView)
    requires
        same_links(a, b),
        same_links(b, c),
    ensures
        same_links(a, c),
{
    assert forall|i: usize| i < a.n() implies (#[trigger] a.node(i)).parent == c.node(i).parent by {
        assert(a.node(i).parent == b.node(i).parent);
        assert(b.node(i).parent == c.node(i).parent);
    }
}

/// A shape-keeping change keeps the links.
pub proof fn lemma_same_shape_links(a: TreeView, b: TreeView)
    requires
        crate::tree::same_shape(a, b),
    ensures
        same_links(a, b),
{
    assert forall|i: usize| i < a.n() implies (#[trigger] a.node(i)).parent == b.node(i).parent by {
        assert(a.node(i).parent == b.node(i).parent);
    }
}

/// Child `j` of `e` is a view one level further down.
pub proof fn lemma_kid(t: TreeView, e: usize, j: int, d: nat)
    requires
        t.wf(),
        e < t.n(),
        0 <= j < t.kids(e).len(),
        t.up(e, d) is Some,
    ensures
        t.kids(e)[j] < t.n(),
        t.up(t.kids(e)[j], d + 1) == t.up(e, d),
        d + 1 < t.n(),
{
    let c = t.kids(e)[j];
    assert(t.node(c).parent == Some(e));
    t.lemma_depth_bound(c, d + 1);
}

/// What child `i` of stack panel `e` asked for when the panel measured it.
pub open spec fn stack_child_desired(
    t: TreeView,
    ks: Seq<LayoutKind>,
    cs: Seq<Option<Point>>,
    vs: Seq<LayoutView>,
    e: usize,
    vertical: bool,
    w: Option<i16>,
    h: Option<i16>,
    i: int,
    k: nat,
) -> Vector {
    stack_measured(t, ks, cs, vs, e, vertical, w, h, i + 1, k).0[t.kids(e)[i] as int].desired_size
}

/// The breadth of `d` across a panel: its width across a vertical one.
pub open spec fn across_of(d: Vector, vertical: bool) -> i16 {
    if vertical { d.x } else { d.y }
}

/// The children's lengths along the panel, `0 .. j`, added up (wrapping).
pub open spec fn stack_length(
    t: TreeView,
    ks: Seq<LayoutKind>,
    cs: Seq<Option<Point>>,
    vs: Seq<LayoutView>,
    e: usize,
    vertical: bool,
    w: Option<i16>,
    h: Option<i16>,
    j: int,
    k: nat,
) -> i16
    decreases j,
{
    if j <= 0 {
        0
    } else {
        let d = stack_child_desired(t, ks, cs, vs, e, vertical, w, h, j - 1, k);
        wadd(stack_length(t, ks, cs, vs, e, vertical, w, h, j - 1, k), if vertical { d.y } else { d.x })
    }
}

/// A stack panel is as long as its children put end to end and as broad as
/// the broadest of them: a vertical panel's height is the sum of the
/// children's heights and its width is the greatest of their widths (as
/// unsigned numbers, zero with no child); a horizontal one the other way
/// round.
pub proof fn law_stack_size(
    t: TreeView,
    ks: Seq<LayoutKind>,
    cs: Seq<Option<Point>>,
    vs: Seq<LayoutView>,
    e: usize,
    vertical: bool,
    w: Option<i16>,
    h: Option<i16>,
    j: int,
    k: nat,
)
    requires
        0 <= j,
        k > 0,
    ensures
        ({
            let size = stack_measured(t, ks, cs, vs, e, vertical, w, h, j, k).1;
            let along = if vertical { size.y } else { size.x };
            let across = if vertical { size.x } else { size.y };
            &&& along == stack_length(t, ks, cs, vs, e, vertical, w, h, j, k)
            &&& forall|i: int|
                0 <= i < j ==> u16v(
                    across_of(#[trigger] stack_child_desired(t, ks, cs, vs, e, vertical, w, h, i, k), vertical),
                ) <= u16v(across)
            &&& across == 0 || exists|i: int|
                0 <= i < j && across == across_of(
                    #[trigger] stack_child_desired(t, ks, cs, vs, e, vertical, w, h, i, k),
                    vertical,
                )
        }),
    decreases j,
{
    if j > 0 {
        law_stack_size(t, ks, cs, vs, e, vertical, w, h, j - 1, k);
        let d = stack_child_desired(t, ks, cs, vs, e, vertical, w, h, j - 1, k);
        let prev = stack_measured(t, ks, cs, vs, e, vertical, w, h, j - 1, k).1;
        let size = stack_measured(t, ks, cs, vs, e, vertical, w, h, j, k).1;
        assert(wadd(prev.x, 0) == prev.x);
        assert(wadd(prev.y, 0) == prev.y);
        if vertical {
            assert(size.x == crate::geom::umax(prev.x, d.x));
            assert(size.y == crate::geom::umax(wadd(prev.y, d.y), 0));
        } else {
            assert(size.y == crate::geom::umax(prev.y, d.y));
            assert(size.x == crate::geom::umax(wadd(prev.x, d.x), 0));
        }
    } else {
        assert(stack_measured(t, ks, cs, vs, e, vertical, w, h, 0, k).1 == zero());
    }
}
} // verus!
