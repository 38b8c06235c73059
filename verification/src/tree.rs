//! The visual tree: views with their parents, children, placement and input
//! state, the root that is drawn, the focused view and the part of the
//! screen that waits to be redrawn. Views are numbered by their place in
//! `nodes`.
use vstd::prelude::*;
use crate::geom::{
    Vector, Point, Rect, Thickness, spec_vadd, spec_offset, spec_rect_offset, spec_rect_contains,
    spec_union_intersect, spec_expand_rect,
};
use crate::text::Visibility;
use crate::components::{FocusScope, InputElement, RENDER_T_BUTTON, t_button_pressed_look};

verus! {

/// One view of the tree.
#[derive(Clone, Copy, PartialEq, Eq, Debug, Structural)]
pub struct Node {
    pub parent: Option<usize>,
    /// The kind of drawing (`RENDER_...`).
    pub render: u16,
    pub visibility: Visibility,
    pub focus_scope: Option<FocusScope>,
    pub input_element: Option<InputElement>,
    pub button: Option<ButtonState>,
    pub visual_offset: Vector,
    pub shadow: Thickness,
    /// Where the view is drawn, relative to its parent.
    pub real_render_bounds: Rect,
    /// The same, its shadow included.
    pub real_render_bounds_with_shadow: Rect,
}

/// Whether a button is held down: for a short time after a key press
/// (`pressed`, while its timer runs), or by the mouse.
#[derive(Clone, Copy, PartialEq, Eq, Debug, Structural)]
pub struct ButtonState {
    pub pressed: bool,
    pub is_mouse_pressed: bool,
}

impl ButtonState {
    pub open spec fn spec_is_pressed(self) -> bool {
        self.pressed || self.is_mouse_pressed
    }
}

/// The views, their children in drawing order, and the state of drawing and
/// focus.
pub struct VisualTree {
    pub nodes: Vec<Node>,
    pub children: Vec<Vec<usize>>,
    pub root: Option<usize>,
    pub focused: Option<usize>,
    /// The part of the screen to draw again.
    pub invalidated_rect: Rect,
    pub screen_rect: Rect,
}


/// What a tree holds, as mathematical values.
pub struct TreeView {
    pub nodes: Seq<Node>,
    pub children: Seq<Seq<usize>>,
    pub root: Option<usize>,
    pub focused: Option<usize>,
    pub invalidated_rect: Rect,
    pub screen_rect: Rect,
}

impl View for VisualTree {
    type V = TreeView;

    open spec fn view(&self) -> TreeView {
        TreeView {
            nodes: self.nodes@,
            children: self.children@.map_values(|v: Vec<usize>| v@),
            root: self.root,
            focused: self.focused,
            invalidated_rect: self.invalidated_rect,
            screen_rect: self.screen_rect,
        }
    }
}

/// The vector from the origin to a point.
pub open spec fn tl_vec(p: Point) -> Vector {
    Vector { x: p.x, y: p.y }
}

impl Node {
    /// A visible view without parent, focus scope or input, placed nowhere.
    pub fn new() -> (res: Node)
        ensures
            res == (Node {
                parent: None,
                render: 0,
                visibility: Visibility::Visible,
                focus_scope: None,
                input_element: None,
                button: None,
                visual_offset: Vector { x: 0, y: 0 },
                shadow: Thickness { l: 0, t: 0, r: 0, b: 0 },
                real_render_bounds: Rect { tl: Point { x: 0, y: 0 }, size: Vector { x: 0, y: 0 } },
                real_render_bounds_with_shadow: Rect {
                    tl: Point { x: 0, y: 0 },
                    size: Vector { x: 0, y: 0 },
                },
            }),
    {
        let empty = Rect { tl: Point { x: 0, y: 0 }, size: Vector { x: 0, y: 0 } };
        Node {
            parent: None,
            render: 0,
            visibility: Visibility::Visible,
            focus_scope: None,
            input_element: None,
            button: None,
            visual_offset: Vector { x: 0, y: 0 },
            shadow: Thickness::all(0),
            real_render_bounds: empty,
            real_render_bounds_with_shadow: empty,
        }
    }
}


/// Two trees that agree on everything that places views on the screen.
pub open spec fn same_shape(a: TreeView, b: TreeView) -> bool {
    &&& a.nodes.len() == b.nodes.len()
    &&& a.children == b.children
    &&& a.root == b.root
    &&& a.screen_rect == b.screen_rect
    &&& forall|i: usize| i < a.n() ==> {
        &&& (#[trigger] a.node(i)).parent == b.node(i).parent
        &&& a.node(i).visual_offset == b.node(i).visual_offset
        &&& a.node(i).shadow == b.node(i).shadow
        &&& a.node(i).real_render_bounds == b.node(i).real_render_bounds
        &&& a.node(i).real_render_bounds_with_shadow == b.node(i).real_render_bounds_with_shadow
    }
}

pub proof fn lemma_same_shape_up(a: TreeView, b: TreeView, i: usize, k: nat)
    requires
        a.wf(),
        same_shape(a, b),
        i < a.n(),
    ensures
        a.up(i, k) == b.up(i, k),
    decreases k,
{
    if k > 0 {
        assert(a.node(i).parent == b.node(i).parent);
        match a.node(i).parent {
            None => {},
            Some(p) => {
                lemma_same_shape_up(a, b, p, (k - 1) as nat);
            },
        }
    }
}

pub proof fn lemma_same_shape_offset(a: TreeView, b: TreeView, i: usize, acc: Vector, k: nat)
    requires
        a.wf(),
        same_shape(a, b),
        i < a.n(),
    ensures
        a.offset_up(i, acc, k) == b.offset_up(i, acc, k),
    decreases k,
{
    assert(a.node(i).parent == b.node(i).parent);
    let nd = a.node(i);
    let next = spec_vadd(spec_vadd(acc, tl_vec(nd.real_render_bounds.tl)), nd.visual_offset);
    match a.node(i).parent {
        None => {},
        Some(p) => {
            if k > 0 {
                lemma_same_shape_offset(a, b, p, next, (k - 1) as nat);
            }
        },
    }
}

pub proof fn lemma_same_shape_trans(a: TreeView, b: TreeView, c: TreeView)
    requires
        same_shape(a, b),
        same_shape(b, c),
    ensures
        same_shape(a, c),
{
    assert forall|i: usize| i < a.n() implies {
        &&& (#[trigger] a.node(i)).parent == c.node(i).parent
        &&& a.node(i).visual_offset == c.node(i).visual_offset
        &&& a.node(i).shadow == c.node(i).shadow
        &&& a.node(i).real_render_bounds == c.node(i).real_render_bounds
        &&& a.node(i).real_render_bounds_with_shadow == c.node(i).real_render_bounds_with_shadow
    } by {
        assert(a.node(i).parent == b.node(i).parent);
        assert(b.node(i).parent == c.node(i).parent);
    }
}

/// Redrawing depends only on where views lie.
pub proof fn lemma_same_shape_invalidated(a: TreeView, b: TreeView, r: Rect, e: usize)
    requires
        a.wf(),
        same_shape(a, b),
        e < a.n(),
    ensures
        a.invalidated_from(r, e) == b.invalidated_from(r, e),
        a.screen_bounds_with_shadow(e) == b.screen_bounds_with_shadow(e),
        a.spec_in_tree(e) == b.spec_in_tree(e),
{
    assert forall|k: nat| a.up(e, k) == b.up(e, k) by {
        lemma_same_shape_up(a, b, e, k);
    }
    assert(a.node(e).parent == b.node(e).parent);
    match a.node(e).parent {
        None => {},
        Some(p) => {
            lemma_same_shape_offset(a, b, p, a.node(e).visual_offset, (a.n() - 1) as nat);
        },
    }
}

/// Whether a shape-preserving change keeps the tree well formed.
pub proof fn lemma_same_shape_wf(a: TreeView, b: TreeView)
    requires
        a.wf(),
        same_shape(a, b),
        b.focused matches Some(f) ==> f < b.n() && b.node(f).input_element is Some,
    ensures
        b.wf(),
{
    assert forall|i: usize| i < b.n() implies (#[trigger] b.up(i, b.n())) is None by {
        lemma_same_shape_up(a, b, i, a.n());
    }
    assert forall|i: usize| i < b.n() implies (#[trigger] b.node(i).parent matches Some(p) ==> p
        < b.n()) by {
        assert(a.node(i).parent == b.node(i).parent);
    }
    assert forall|i: usize| i < b.n() implies (#[trigger] b.node(i)).shadow.wf() by {
        assert(a.node(i).shadow == b.node(i).shadow);
    }
    assert forall|i: usize, j: int| i < b.n() && 0 <= j < b.kids(i).len() implies {
        &&& b.kids(i)[j] < b.n()
        &&& b.node(b.kids(i)[j]).parent == Some(i)
    } by {
        assert(a.kids(i) == b.kids(i));
        assert(a.node(a.kids(i)[j]).parent == b.node(a.kids(i)[j]).parent);
    }
    assert forall|i: usize| i < b.n() implies (#[trigger] b.kids(i)).no_duplicates() by {
        assert(a.kids(i) == b.kids(i));
    }
    if let Some(r) = b.root {
        assert(a.node(r).parent == b.node(r).parent);
    }
}

/// The nodes with the focus mark of view `i` set to `v`.
pub open spec fn with_focus_flag(nodes: Seq<Node>, i: usize, v: bool) -> Seq<Node> {
    match nodes[i as int].input_element {
        Some(ie) => nodes.update(
            i as int,
            Node { input_element: Some(InputElement { is_focused: v, ..ie }), ..nodes[i as int] },
        ),
        None => nodes,
    }
}

/// The nodes with `parent_is_enabled` set to `v` for every view in `vis`
/// that has a focus scope.
pub open spec fn with_parent_enabled(nodes: Seq<Node>, vis: Set<usize>, v: bool) -> Seq<Node> {
    Seq::new(
        nodes.len(),
        |i: int|
            if vis.contains(i as usize) && nodes[i].focus_scope is Some {
                Node {
                    focus_scope: Some(
                        FocusScope { parent_is_enabled: v, ..nodes[i].focus_scope.unwrap() },
                    ),
                    ..nodes[i]
                }
            } else {
                nodes[i]
            },
    )
}

/// Setting the state twice is setting it on both sets at once.
pub proof fn lemma_wpe_union(nodes: Seq<Node>, a: Set<usize>, b: Set<usize>, v: bool)
    ensures
        with_parent_enabled(with_parent_enabled(nodes, a, v), b, v) =~= with_parent_enabled(
            nodes,
            a.union(b),
            v,
        ),
{
}

impl TreeView {
    pub open spec fn n(self) -> nat {
        self.nodes.len()
    }

    pub open spec fn node(self, i: usize) -> Node {
        self.nodes[i as int]
    }

    pub open spec fn kids(self, i: usize) -> Seq<usize> {
        self.children[i as int]
    }

    /// The `k`-th ancestor of `i` (`i` itself for `k == 0`).
    pub open spec fn up(self, i: usize, k: nat) -> Option<usize>
        decreases k,
    {
        if k == 0 {
            Some(i)
        } else {
            match self.node(i).parent {
                None => None,
                Some(p) => self.up(p, (k - 1) as nat),
            }
        }
    }

    /// `a` is `i` or one of its ancestors.
    pub open spec fn reaches(self, i: usize, a: usize) -> bool {
        exists|k: nat| self.up(i, k) == Some(a)
    }

    /// The tree is well formed: every index is in range, a view's children
    /// name it as their parent, and going up from any view ends.
    pub open spec fn wf(self) -> bool {
        &&& self.children.len() == self.nodes.len()
        &&& forall|i: usize| i < self.n() ==> (#[trigger] self.node(i).parent matches Some(p) ==> p < self.n())
        &&& forall|i: usize, j: int|
            i < self.n() && 0 <= j < self.kids(i).len() ==> {
                &&& self.kids(i)[j] < self.n()
                &&& self.node(self.kids(i)[j]).parent == Some(i)
            }
        &&& forall|i: usize| i < self.n() ==> (#[trigger] self.up(i, self.n())) is None
        &&& forall|i: usize| i < self.n() ==> (#[trigger] self.node(i)).shadow.wf()
        &&& forall|i: usize| i < self.n() ==> (#[trigger] self.kids(i)).no_duplicates()
        &&& self.root matches Some(r) ==> r < self.n() && self.node(r).parent is None
        &&& self.focused matches Some(f) ==> f < self.n() && self.node(f).input_element is Some
    }

    pub open spec fn spec_in_tree(self, e: usize) -> bool {
        self.root matches Some(r) && self.reaches(e, r)
    }

    /// Walking up from `i`, add to `acc` each view's top-left corner and
    /// visual offset; at most `k` parents are followed.
    pub open spec fn offset_up(self, i: usize, acc: Vector, k: nat) -> Vector
        decreases k,
    {
        let nd = self.node(i);
        let next = spec_vadd(spec_vadd(acc, tl_vec(nd.real_render_bounds.tl)), nd.visual_offset);
        match nd.parent {
            Some(p) => if k > 0 {
                self.offset_up(p, next, (k - 1) as nat)
            } else {
                next
            },
            None => next,
        }
    }

    /// Where a view sits on the screen: the sum of the corners and visual
    /// offsets of the view and all its ancestors.
    pub open spec fn screen_offset(self, e: usize) -> Vector {
        self.offset_up(e, Vector { x: 0, y: 0 }, self.n())
    }

    /// Where view `e` and its shadow lie on the screen: its bounds with
    /// shadow moved by its own visual offset and by the corners and visual
    /// offsets of its ancestors.
    pub open spec fn screen_bounds_with_shadow(self, e: usize) -> Rect {
        let nd = self.node(e);
        let g = match nd.parent {
            None => nd.visual_offset,
            Some(p) => self.offset_up(p, nd.visual_offset, (self.n() - 1) as nat),
        };
        spec_rect_offset(nd.real_render_bounds_with_shadow, g)
    }

    /// The part of the screen to redraw, `r` before, once view `e` is
    /// marked: nothing changes for a view outside the drawn tree; else the
    /// view's place on the screen joins `r`, cut to the screen.
    pub open spec fn invalidated_from(self, r: Rect, e: usize) -> Rect {
        if self.spec_in_tree(e) {
            spec_union_intersect(r, self.screen_bounds_with_shadow(e), self.screen_rect)
        } else {
            r
        }
    }

    pub open spec fn spec_invalidated(self, e: usize) -> Rect {
        self.invalidated_from(self.invalidated_rect, e)
    }

    /// The tree with view `e` marked for redrawing.
    pub open spec fn marked(self, e: usize) -> TreeView {
        TreeView { invalidated_rect: self.spec_invalidated(e), ..self }
    }

    pub proof fn lemma_up_succ(self, i: usize, k: nat)
        ensures
            self.up(i, k + 1) == (match self.up(i, k) {
                None => None,
                Some(c) => self.node(c).parent,
            }),
        decreases k,
    {
        match self.node(i).parent {
            None => {},
            Some(p) => {
                assert(self.up(p, 0) == Some(p));
                if k > 0 {
                    self.lemma_up_succ(p, (k - 1) as nat);
                }
            },
        }
    }

    pub proof fn lemma_up_none_mono(self, i: usize, k: nat, m: nat)
        requires
            self.up(i, k) is None,
            k <= m,
        ensures
            self.up(i, m) is None,
        decreases k,
    {
        if k > 0 {
            match self.node(i).parent {
                None => {},
                Some(p) => {
                    self.lemma_up_none_mono(p, (k - 1) as nat, (m - 1) as nat);
                },
            }
        }
    }

    /// Going up `a` steps and then `b` steps is going up `a + b` steps.
    pub proof fn lemma_up_add(self, i: usize, a: nat, b: nat)
        ensures
            self.up(i, a + b) == (match self.up(i, a) {
                None => None,
                Some(c) => self.up(c, b),
            }),
        decreases a,
    {
        if a > 0 {
            match self.node(i).parent {
                None => {},
                Some(p) => {
                    self.lemma_up_add(p, (a - 1) as nat, b);
                    assert((a - 1) as nat + b == (a + b - 1) as nat);
                },
            }
        }
    }

    /// A view that is `k` steps below another is fewer than `n` steps deep.
    pub proof fn lemma_depth_bound(self, i: usize, k: nat)
        requires
            self.wf(),
            i < self.n(),
            self.up(i, k) is Some,
        ensures
            k < self.n(),
    {
        if k >= self.n() {
            self.lemma_up_none_mono(i, self.n(), k);
        }
    }

    /// The ancestors of a view are views of the tree.
    pub proof fn lemma_up_in_range(self, i: usize, k: nat)
        requires
            self.wf(),
            i < self.n(),
        ensures
            self.up(i, k) matches Some(c) ==> c < self.n(),
        decreases k,
    {
        if k > 0 {
            match self.node(i).parent {
                None => {},
                Some(p) => {
                    self.lemma_up_in_range(p, (k - 1) as nat);
                },
            }
        }
    }

    /// View `e` may take the focus: it is a focusable input element, enabled
    /// where it has a focus scope, and visible.
    pub open spec fn spec_allow_focus(self, e: usize) -> bool {
        let nd = self.node(e);
        &&& nd.input_element matches Some(ie) && ie.focusable
        &&& nd.focus_scope matches Some(fs) ==> fs.is_enabled_core && fs.parent_is_enabled
        &&& nd.visibility == Visibility::Visible
    }

    /// `None`, or a view that may take the focus.
    pub open spec fn focus_allowed(self, e: Option<usize>) -> bool {
        match e {
            None => true,
            Some(x) => self.spec_allow_focus(x),
        }
    }

    /// The part of the screen to redraw after the focus moves from the
    /// focused view to `e`: first the old view, then the new one is marked.
    pub open spec fn refocus_rect(self, e: Option<usize>) -> Rect {
        let r1 = match self.focused {
            None => self.invalidated_rect,
            Some(f) => self.invalidated_from(self.invalidated_rect, f),
        };
        match e {
            None => r1,
            Some(x) => self.invalidated_from(r1, x),
        }
    }

    /// The nodes after the focus moves from the focused view to `e`.
    pub open spec fn refocus_nodes(self, e: Option<usize>) -> Seq<Node> {
        let n1 = match self.focused {
            None => self.nodes,
            Some(f) => with_focus_flag(self.nodes, f, false),
        };
        match e {
            None => n1,
            Some(x) => with_focus_flag(n1, x, true),
        }
    }

    /// The focus goes to `e`, unchecked.
    pub open spec fn refocused(self, e: Option<usize>) -> TreeView {
        TreeView {
            nodes: self.refocus_nodes(e),
            focused: e,
            invalidated_rect: self.refocus_rect(e),
            ..self
        }
    }

    /// The tree after asking to focus `e`: refocused where allowed, else
    /// unchanged.
    pub open spec fn focused_on(self, e: Option<usize>) -> TreeView {
        if self.focus_allowed(e) {
            self.refocused(e)
        } else {
            self
        }
    }

    /// The tree after moving the focus along the tab order.
    pub open spec fn moved_focus(self, forward: bool) -> TreeView {
        match self.focus_target(forward) {
            Some(g) => if g < self.n() {
                self.refocused(Some(g))
            } else {
                self
            },
            None => self,
        }
    }

    /// View `i` is visible and, where it has a focus scope, enabled.
    pub open spec fn live(self, i: usize) -> bool {
        &&& self.node(i).visibility == Visibility::Visible
        &&& self.node(i).focus_scope matches Some(fs) ==> fs.is_enabled_core && fs.parent_is_enabled
    }

    /// Where child `c` lies on the screen, its parent's corner being `base`.
    pub open spec fn placed(self, c: usize, base: Vector) -> Rect {
        spec_rect_offset(spec_rect_offset(self.node(c).real_render_bounds, self.node(c).visual_offset), base)
    }

    /// The last of the first `j` children of `i` that is live and covers
    /// point `p`.
    pub open spec fn last_hit(self, i: usize, base: Vector, p: Point, j: int) -> Option<usize>
        decreases j,
    {
        if j <= 0 {
            None
        } else {
            let c = self.kids(i)[j - 1];
            if self.live(c) && spec_rect_contains(self.placed(c, base), p) {
                Some(c)
            } else {
                self.last_hit(i, base, p, j - 1)
            }
        }
    }

    /// From view `i` (corner `base` on the screen), go down into the
    /// topmost live child under `p`, again and again, at most `k` times.
    pub open spec fn descend(self, i: usize, base: Vector, p: Point, k: nat) -> usize
        decreases k,
    {
        if k == 0 {
            i
        } else {
            match self.last_hit(i, base, p, self.kids(i).len() as int) {
                None => i,
                Some(c) => self.descend(c, tl_vec(self.placed(c, base).tl), p, (k - 1) as nat),
            }
        }
    }

    /// The nearest focusable input element among `i` and its first `k`
    /// ancestors.
    pub open spec fn focusable_up(self, i: usize, k: nat) -> Option<usize>
        decreases k,
    {
        if self.node(i).input_element matches Some(ie) && ie.focusable {
            Some(i)
        } else {
            match self.node(i).parent {
                None => None,
                Some(q) => if k == 0 {
                    None
                } else {
                    self.focusable_up(q, (k - 1) as nat)
                },
            }
        }
    }

    /// The focusable view under point `p`: nothing where the root is not
    /// live or does not cover `p`; else the deepest view reached by going
    /// down into the topmost live child under `p`, or its nearest focusable
    /// ancestor.
    pub open spec fn spec_hit_test(self, p: Point) -> Option<usize> {
        let r = self.root.unwrap();
        let b = spec_rect_offset(self.node(r).real_render_bounds, self.node(r).visual_offset);
        if !self.live(r) || !spec_rect_contains(b, p) {
            None
        } else {
            self.focusable_up(self.descend(r, tl_vec(b.tl), p, self.n()), self.n())
        }
    }

    /// View `i` has a focus scope and is live.
    pub open spec fn scoped_live(self, i: usize) -> bool {
        self.node(i).focus_scope is Some && self.live(i)
    }

    pub open spec fn tab(self, i: usize) -> int {
        self.node(i).focus_scope.unwrap().tab_index as int
    }

    /// Going through the first `j` children of `i`: the best tab index so
    /// far and the child that has it. Forwards the first child with the
    /// least tab index wins, backwards the last with the greatest.
    pub open spec fn best_scan(self, i: usize, forward: bool, j: int) -> (int, Option<usize>)
        decreases j,
    {
        if j <= 0 {
            (if forward { 32767 } else { -32768 }, None)
        } else {
            let (nt, nx) = self.best_scan(i, forward, j - 1);
            let c = self.kids(i)[j - 1];
            if self.scoped_live(c) && ((forward && self.tab(c) < nt) || (!forward && self.tab(c)
                >= nt)) {
                (self.tab(c), Some(c))
            } else {
                (nt, nx)
            }
        }
    }

    /// The live child of `i` that comes first in tab order (last, going
    /// backwards).
    pub open spec fn best_child(self, i: usize, forward: bool) -> Option<usize> {
        self.best_scan(i, forward, self.kids(i).len() as int).1
    }

    /// Going through the first `j` children of `q`, the parent of `f`:
    /// whether `f` is still ahead, the best tab index so far and the sibling
    /// that has it (`f` while there is none). A sibling comes after `f`
    /// when its tab index is greater, or equal and it stands after `f`.
    pub open spec fn sibling_scan(self, f: usize, q: usize, forward: bool, j: int) -> (bool, int, usize)
        decreases j,
    {
        if j <= 0 {
            (true, if forward { 32767 } else { -32768 }, f)
        } else {
            let (before, nt, nx) = self.sibling_scan(f, q, forward, j - 1);
            let c = self.kids(q)[j - 1];
            if before && c == f {
                (false, nt, nx)
            } else if !self.scoped_live(c) {
                (before, nt, nx)
            } else {
                let t = self.tab(c);
                let tf = self.tab(f);
                let candidate = (forward && t > tf) || (!forward && t < tf) || (forward && !before
                    && t == tf) || (!forward && before && t == tf);
                if candidate && ((forward && t < nt) || (!forward && t >= nt)) {
                    (before, t, c)
                } else {
                    (before, nt, nx)
                }
            }
        }
    }

    /// The sibling of `f` that follows it in tab order, or `f` where none
    /// does.
    pub open spec fn next_sibling(self, f: usize, q: usize, forward: bool) -> usize {
        self.sibling_scan(f, q, forward, self.kids(q).len() as int).2
    }

    /// From `f`, the next sibling in tab order of `f` or of its nearest
    /// ancestor that has one; the top of the tree where none has; at most
    /// `k` levels up.
    pub open spec fn climb(self, f: usize, forward: bool, k: nat) -> usize
        decreases k,
    {
        match self.node(f).parent {
            None => f,
            Some(q) => {
                let nx = self.next_sibling(f, q, forward);
                if nx != f {
                    nx
                } else if k == 0 {
                    q
                } else {
                    self.climb(q, forward, (k - 1) as nat)
                }
            },
        }
    }

    /// One step of the tab order from `f` (the walk began at `start`): down
    /// to the first live child where `f` may be entered, else on to the next
    /// sibling up the tree.
    pub open spec fn focus_step(self, f: usize, start: usize, forward: bool) -> usize {
        let next = if f != start || self.live(f) {
            self.best_child(f, forward)
        } else {
            None
        };
        match next {
            Some(c) => c,
            None => self.climb(f, forward, self.n()),
        }
    }

    /// Walking the tab order from `f`: the first view that is a focusable
    /// input element, `None` where the walk comes back to `start` or has
    /// taken `k + 1` steps.
    pub open spec fn focus_walk(self, f: usize, start: usize, forward: bool, k: nat) -> Option<usize>
        decreases k,
    {
        let g = self.focus_step(f, start, forward);
        if g == start {
            None
        } else if self.node(g).input_element matches Some(ie) && ie.focusable {
            Some(g)
        } else if k == 0 {
            None
        } else {
            self.focus_walk(g, start, forward, (k - 1) as nat)
        }
    }

    /// Where the focus goes next in tab order: with nothing focused, the
    /// root where it may take the focus; else the first focusable view of
    /// the walk from the focused view, or from the root; `None` leaves the
    /// focus where it is.
    pub open spec fn focus_target(self, forward: bool) -> Option<usize> {
        match self.focused {
            Some(f) => self.focus_walk(f, f, forward, self.n()),
            None => {
                let r = self.root.unwrap();
                if self.spec_allow_focus(r) {
                    Some(r)
                } else {
                    self.focus_walk(r, r, forward, self.n())
                }
            },
        }
    }

    /// Every view that is the parent of another and has a parent itself has
    /// a focus scope (the containers of the toolkit all have one).
    pub open spec fn inner_scoped(self) -> bool {
        forall|i: usize| #![trigger self.node(i).parent]
            i < self.n() && (self.node(i).parent matches Some(q) && self.node(q).parent is Some)
                ==> self.node(self.node(i).parent.unwrap()).focus_scope is Some
    }

    /// The view the walk of the tab order starts from has a focus scope.
    pub open spec fn walk_start_scoped(self) -> bool {
        match self.focused {
            Some(f) => self.node(f).focus_scope is Some,
            None => self.spec_allow_focus(self.root.unwrap()) || self.node(
                self.root.unwrap(),
            ).focus_scope is Some,
        }
    }

    /// What climbing reaches is the top of the tree or a view with a focus
    /// scope.
    proof fn lemma_climb_scoped(self, f: usize, forward: bool, k: nat)
        requires
            self.wf(),
            self.inner_scoped(),
            f < self.n(),
            self.node(f).parent is Some ==> self.node(f).focus_scope is Some,
        ensures
            self.node(self.climb(f, forward, k)).parent is Some ==> self.node(
                self.climb(f, forward, k),
            ).focus_scope is Some,
        decreases k,
    {
        match self.node(f).parent {
            None => {},
            Some(q) => {
                self.lemma_next_sibling_scoped(f, q, forward, self.kids(q).len() as int);
                if k > 0 {
                    self.lemma_climb_scoped(q, forward, (k - 1) as nat);
                }
            },
        }
    }

    proof fn lemma_next_sibling_scoped(self, f: usize, q: usize, forward: bool, j: int)
        requires
            self.wf(),
            q < self.n(),
            j <= self.kids(q).len(),
        ensures
            self.sibling_scan(f, q, forward, j).2 != f ==> self.node(
                self.sibling_scan(f, q, forward, j).2,
            ).focus_scope is Some,
        decreases j,
    {
        if j > 0 {
            self.lemma_next_sibling_scoped(f, q, forward, j - 1);
        }
    }

    /// Child `c` passes a change of its parent's enabled state on: it has a
    /// focus scope and is enabled itself.
    pub open spec fn passes(self, c: usize) -> bool {
        self.node(c).focus_scope matches Some(fs) && fs.is_enabled_core
    }

    /// The views a change of enabled state at `e` reaches, in the order they
    /// are visited: `e`, then, child by child, what each child that passes
    /// the change on reaches; at most `k` levels deep.
    pub open spec fn enable_visits(self, e: usize, k: nat) -> Seq<usize>
        decreases k, 1int, 0int,
    {
        seq![e].add(self.enable_visits_kids(e, self.kids(e).len() as int, k))
    }

    /// What the first `j` children of `e` reach.
    pub open spec fn enable_visits_kids(self, e: usize, j: int, k: nat) -> Seq<usize>
        decreases k, 0int, j,
    {
        if j <= 0 || k == 0 {
            Seq::empty()
        } else {
            let c = self.kids(e)[j - 1];
            self.enable_visits_kids(e, j - 1, k).add(
                if self.passes(c) {
                    self.enable_visits(c, (k - 1) as nat)
                } else {
                    Seq::empty()
                },
            )
        }
    }

    /// Marks the views of `vis` for redrawing one after the other, `r`
    /// before.
    pub open spec fn invalidated_all(self, r: Rect, vis: Seq<usize>) -> Rect
        decreases vis.len(),
    {
        if vis.len() == 0 {
            r
        } else {
            self.invalidated_all(self.invalidated_from(r, vis[0]), vis.drop_first())
        }
    }

    pub proof fn lemma_invalidated_all_add(self, r: Rect, a: Seq<usize>, b: Seq<usize>)
        ensures
            self.invalidated_all(r, a.add(b)) == self.invalidated_all(
                self.invalidated_all(r, a),
                b,
            ),
        decreases a.len(),
    {
        if a.len() > 0 {
            assert(a.add(b).drop_first() =~= a.drop_first().add(b));
            self.lemma_invalidated_all_add(self.invalidated_from(r, a[0]), a.drop_first(), b);
        } else {
            assert(a.add(b) =~= b);
        }
    }

    pub proof fn lemma_same_shape_invalidated_all(self, b: TreeView, r: Rect, vis: Seq<usize>)
        requires
            self.wf(),
            same_shape(self, b),
            forall|i: int| 0 <= i < vis.len() ==> vis[i] < self.n(),
        ensures
            self.invalidated_all(r, vis) == b.invalidated_all(r, vis),
        decreases vis.len(),
    {
        if vis.len() > 0 {
            lemma_same_shape_invalidated(self, b, r, vis[0]);
            self.lemma_same_shape_invalidated_all(b, self.invalidated_from(r, vis[0]), vis.drop_first());
        }
    }

    /// Every view a change reaches is a view of the tree.
    pub proof fn lemma_enable_visits_in_range(self, e: usize, k: nat)
        requires
            self.wf(),
            e < self.n(),
        ensures
            forall|i: int| 0 <= i < self.enable_visits(e, k).len() ==> #[trigger] self.enable_visits(e, k)[i]
                < self.n(),
        decreases k, 1int, 0int,
    {
        let kv = self.enable_visits_kids(e, self.kids(e).len() as int, k);
        self.lemma_enable_visits_kids_in_range(e, self.kids(e).len() as int, k);
        assert forall|i: int| 0 <= i < self.enable_visits(e, k).len() implies #[trigger] self.enable_visits(e, k)[i]
            < self.n() by {
            if i > 0 {
                assert(self.enable_visits(e, k)[i] == kv[i - 1]);
            }
        }
    }

    pub proof fn lemma_enable_visits_kids_in_range(self, e: usize, j: int, k: nat)
        requires
            self.wf(),
            e < self.n(),
            j <= self.kids(e).len(),
        ensures
            forall|i: int| 0 <= i < self.enable_visits_kids(e, j, k).len() ==> #[trigger] self.enable_visits_kids(e, j, k)[i]
                < self.n(),
        decreases k, 0int, j,
    {
        if j > 0 && k > 0 {
            let c = self.kids(e)[j - 1];
            let a = self.enable_visits_kids(e, j - 1, k);
            let b = if self.passes(c) {
                self.enable_visits(c, (k - 1) as nat)
            } else {
                Seq::empty()
            };
            self.lemma_enable_visits_kids_in_range(e, j - 1, k);
            if self.passes(c) {
                self.lemma_enable_visits_in_range(c, (k - 1) as nat);
            }
            assert forall|i: int| 0 <= i < self.enable_visits_kids(e, j, k).len() implies #[trigger] self.enable_visits_kids(e, j, k)[i]
                < self.n() by {
                if i < a.len() {
                    assert(self.enable_visits_kids(e, j, k)[i] == a[i]);
                } else {
                    assert(self.enable_visits_kids(e, j, k)[i] == b[i - a.len()]);
                }
            }
        }
    }

    /// The views below `e` that a change of its enabled state reaches.
    pub open spec fn enable_reach(self, e: usize) -> Set<usize> {
        self.enable_visits(e, self.n()).drop_first().to_set()
    }

    /// Setting `parent_is_enabled` keeps which views pass changes on.
    proof fn lemma_passes_kept(self, b: TreeView, vis: Set<usize>, v: bool)
        requires
            b.nodes == with_parent_enabled(self.nodes, vis, v),
        ensures
            forall|i: usize| i < self.n() ==> #[trigger] b.passes(i) == self.passes(i),
    {
    }

    /// Trees with the same children and the same views passing changes on
    /// have the same walks.
    proof fn lemma_same_enable_visits(self, b: TreeView, e: usize, k: nat)
        requires
            self.wf(),
            e < self.n(),
            self.children == b.children,
            forall|i: usize| i < self.n() ==> #[trigger] b.passes(i) == self.passes(i),
        ensures
            self.enable_visits(e, k) == b.enable_visits(e, k),
        decreases k, 1int, 0int,
    {
        self.lemma_same_enable_visits_kids(b, e, self.kids(e).len() as int, k);
    }

    proof fn lemma_same_enable_visits_kids(self, b: TreeView, e: usize, j: int, k: nat)
        requires
            self.wf(),
            e < self.n(),
            j <= self.kids(e).len(),
            self.children == b.children,
            forall|i: usize| i < self.n() ==> #[trigger] b.passes(i) == self.passes(i),
        ensures
            self.enable_visits_kids(e, j, k) == b.enable_visits_kids(e, j, k),
        decreases k, 0int, j,
    {
        assert(self.kids(e) == b.kids(e));
        if j > 0 && k > 0 {
            let c = self.kids(e)[j - 1];
            self.lemma_same_enable_visits_kids(b, e, j - 1, k);
            assert(b.passes(c) == self.passes(c));
            if self.passes(c) {
                self.lemma_same_enable_visits(b, c, (k - 1) as nat);
            }
        }
    }
}

impl VisualTree {
    /// Whether view `e` is the root or lies below it.
    pub fn in_tree(&self, e: usize) -> (res: bool)
        requires
            self@.wf(),
            e < self@.n(),
            self.root is Some,
        ensures
            res == self@.spec_in_tree(e),
    {
        let root = self.root.unwrap();
        let mut cur = e;
        let ghost mut k: nat = 0;
        loop
            invariant
                self@.wf(),
                e < self@.n(),
                self.root == Some(root),
                cur < self@.n(),
                self@.up(e, k) == Some(cur),
                forall|j: nat| j < k ==> self@.up(e, j) != Some(root),
            decreases self@.n() - k,
        {
            proof {
                self@.lemma_depth_bound(e, k);
                self@.lemma_up_succ(e, k);
            }
            if cur == root {
                return true;
            }
            match self.nodes[cur].parent {
                None => {
                    proof {
                        assert forall|j: nat| self@.up(e, j) != Some(root) by {
                            if j > k {
                                self@.lemma_up_none_mono(e, k + 1, j);
                            }
                        }
                    }
                    return false;
                },
                Some(p) => {
                    cur = p;
                    proof {
                        k = k + 1;
                    }
                },
            }
        }
    }

    /// A point given relative to view `e`, carried by the corners and visual
    /// offsets of `e` and its ancestors.
    pub fn point_from_screen(&self, e: usize, point: Point) -> (res: Point)
        requires
            self@.wf(),
            e < self@.n(),
            self@.spec_in_tree(e),
        ensures
            res == spec_offset(point, self@.screen_offset(e)),
    {
        let mut cur = e;
        let mut offset = Vector::null();
        let ghost mut k: nat = 0;
        loop
            invariant_except_break
                self@.wf(),
                e < self@.n(),
                cur < self@.n(),
                self@.up(e, k) == Some(cur),
                self@.screen_offset(e) == self@.offset_up(cur, offset, (self@.n() - k) as nat),
            ensures
                self@.screen_offset(e) == offset,
            decreases self@.n() - k,
        {
            proof {
                self@.lemma_depth_bound(e, k);
                self@.lemma_up_succ(e, k);
            }
            let nd = self.nodes[cur];
            offset = offset.plus(Vector { x: nd.real_render_bounds.tl.x, y: nd.real_render_bounds.tl.y });
            offset = offset.plus(nd.visual_offset);
            match nd.parent {
                None => {
                    break;
                },
                Some(p) => {
                    cur = p;
                    proof {
                        k = k + 1;
                    }
                },
            }
        }
        point.offset(offset)
    }

    /// Marks view `e` for redrawing.
    pub fn invalidate_render(&mut self, e: usize)
        requires
            old(self)@.wf(),
            e < old(self)@.n(),
        ensures
            final(self)@ == old(self)@.marked(e),
            final(self)@.wf(),
            same_shape(old(self)@, final(self)@),
    {
        let root = match self.root {
            None => {
                proof {
                    lemma_same_shape_wf(self@, self@);
                }
                return;
            },
            Some(r) => r,
        };
        let nd = self.nodes[e];
        let local_rect = nd.real_render_bounds_with_shadow;
        let mut global_offset = nd.visual_offset;
        let mut in_tree = e == root;
        let ghost g0 = match nd.parent {
            None => nd.visual_offset,
            Some(p) => self@.offset_up(p, nd.visual_offset, (self@.n() - 1) as nat),
        };
        let mut cur_opt = nd.parent;
        let ghost mut k: nat = 1;
        proof {
            self@.lemma_up_succ(e, 0);
        }
        while cur_opt.is_some()
            invariant
                self@.wf(),
                e < self@.n(),
                self.root == Some(root),
                1 <= k,
                self@.up(e, k) == cur_opt,
                cur_opt matches Some(c) ==> c < self@.n() && g0 == self@.offset_up(
                    c,
                    global_offset,
                    (self@.n() - k) as nat,
                ),
                cur_opt is None ==> g0 == global_offset,
                in_tree == (exists|j: nat| j < k && self@.up(e, j) == Some(root)),
            decreases self@.n() - k,
        {
            let c = cur_opt.unwrap();
            proof {
                self@.lemma_depth_bound(e, k);
                self@.lemma_up_succ(e, k);
                if self@.up(e, k) == Some(root) {
                    assert(self@.up(e, k) == Some(root));
                }
            }
            in_tree = in_tree || c == root;
            let pv = self.nodes[c];
            global_offset = global_offset.plus(
                Vector { x: pv.real_render_bounds.tl.x, y: pv.real_render_bounds.tl.y },
            );
            global_offset = global_offset.plus(pv.visual_offset);
            cur_opt = pv.parent;
            proof {
                assert forall|j: nat| j < k + 1 && self@.up(e, j) == Some(root) implies j < k || (j
                    == k && c == root) by {}
                k = k + 1;
            }
        }
        proof {
            assert forall|j: nat| self@.up(e, j) == Some(root) implies j < k by {
                if j >= k {
                    self@.lemma_up_none_mono(e, k, j);
                }
            }
        }
        if !in_tree {
            proof {
                lemma_same_shape_wf(self@, self@);
            }
            return;
        }
        let ghost t0 = self@;
        let global_rect = local_rect.offset(global_offset);
        self.invalidated_rect = self.invalidated_rect.union_intersect(global_rect, self.screen_rect);
        proof {
            lemma_same_shape_wf(t0, self@);
        }
    }
}

impl VisualTree {
    /// Sets the focus mark of view `i`.
    fn set_focus_flag(&mut self, i: usize, v: bool)
        requires
            old(self)@.wf(),
            i < old(self)@.n(),
            old(self)@.node(i).input_element is Some,
        ensures
            final(self)@.nodes == with_focus_flag(old(self)@.nodes, i, v),
            final(self)@.children == old(self)@.children,
            final(self).root == old(self).root,
            final(self).focused == old(self).focused,
            final(self).invalidated_rect == old(self).invalidated_rect,
            final(self).screen_rect == old(self).screen_rect,
            same_shape(old(self)@, final(self)@),
            final(self)@.wf(),
    {
        let mut nd = self.nodes[i];
        let ie = nd.input_element.unwrap();
        nd.input_element = Some(InputElement { is_focused: v, ..ie });
        self.nodes.set(i, nd);
        proof {
            assert forall|j: usize| j < self@.n() implies (#[trigger] self@.node(j)).input_element is Some
                || j != i by {}
            lemma_same_shape_wf(old(self)@, self@);
        }
    }

    pub fn allow_focus(&self, e: usize) -> (res: bool)
        requires
            e < self@.n(),
        ensures
            res == self@.spec_allow_focus(e),
    {
        let nd = self.nodes[e];
        let focusable = match nd.input_element {
            Some(ie) => ie.focusable,
            None => false,
        };
        if !focusable {
            return false;
        }
        let is_enabled = match nd.focus_scope {
            Some(fs) => fs.is_enabled(),
            None => true,
        };
        if !is_enabled {
            return false;
        }
        nd.visibility == Visibility::Visible
    }

    /// Moves the focus to `e` as it is: the marks of the old and the new
    /// focused view change, and both are redrawn.
    pub(crate) fn focus_raw(&mut self, e: Option<usize>)
        requires
            old(self)@.wf(),
            e matches Some(x) ==> x < old(self)@.n() && old(self)@.node(x).input_element is Some,
        ensures
            final(self)@.wf(),
            final(self)@ == old(self)@.refocused(e),
            same_shape(old(self)@, final(self)@),
    {
        let ghost t0 = self@;
        if let Some(prev) = self.focused {
            self.set_focus_flag(prev, false);
            let ghost t1 = self@;
            self.invalidate_render(prev);
            proof {
                lemma_same_shape_invalidated(t0, t1, t0.invalidated_rect, prev);
                lemma_same_shape_trans(t0, t1, self@);
            }
        }
        let ghost t2 = self@;
        assert(same_shape(t0, t2));
        self.focused = e;
        proof {
            lemma_same_shape_wf(t2, self@);
            lemma_same_shape_trans(t0, t2, self@);
        }
        if let Some(next) = e {
            let ghost t3 = self@;
            self.set_focus_flag(next, true);
            let ghost t4 = self@;
            self.invalidate_render(next);
            proof {
                lemma_same_shape_trans(t0, t3, t4);
                lemma_same_shape_invalidated(t0, t4, t4.invalidated_rect, next);
                lemma_same_shape_trans(t0, t4, self@);
            }
        }
    }

    /// Gives the focus to `e`, or takes it away for `None`; a view that may
    /// not take the focus leaves everything as it was.
    pub fn focus(&mut self, e: Option<usize>)
        requires
            old(self)@.wf(),
            e matches Some(x) ==> x < old(self)@.n() && (old(self).root is None || old(self)@.spec_in_tree(x)),
        ensures
            final(self)@.wf(),
            final(self)@ == old(self)@.focused_on(e),
    {
        let allowed = match e {
            Some(x) => self.allow_focus(x),
            None => true,
        };
        if allowed {
            self.focus_raw(e);
        }
    }
}

impl VisualTree {
    /// The topmost live child of `i` that covers `p`.
    fn last_hit_child(&self, i: usize, base: Vector, p: Point) -> (res: Option<usize>)
        requires
            self@.wf(),
            i < self@.n(),
        ensures
            res == self@.last_hit(i, base, p, self@.kids(i).len() as int),
            res matches Some(c) ==> c < self@.n() && self@.node(c).parent == Some(i),
    {
        let kids = &self.children[i];
        let mut j = kids.len();
        while j > 0
            invariant
                self@.wf(),
                i < self@.n(),
                *kids == self.children@[i as int],
                j <= kids.len(),
                self@.last_hit(i, base, p, kids.len() as int) == self@.last_hit(i, base, p, j as int),
            decreases j,
        {
            let c = kids[j - 1];
            let nd = self.nodes[c];
            let enabled = match nd.focus_scope {
                Some(fs) => fs.is_enabled(),
                None => true,
            };
            if nd.visibility == Visibility::Visible && enabled {
                let bounds = nd.real_render_bounds.offset(nd.visual_offset).offset(base);
                if bounds.contains(p) {
                    return Some(c);
                }
            }
            j = j - 1;
        }
        None
    }

    /// The focusable view under a point of the screen.
    pub fn hit_test_input_element(&self, p: Point) -> (res: Option<usize>)
        requires
            self@.wf(),
            self.root is Some,
        ensures
            res == self@.spec_hit_test(p),
            res matches Some(x) ==> {
                &&& x < self@.n()
                &&& self@.spec_in_tree(x)
                &&& self@.node(x).input_element matches Some(ie) && ie.focusable
            },
    {
        let root = self.root.unwrap();
        let nd = self.nodes[root];
        let enabled = match nd.focus_scope {
            Some(fs) => fs.is_enabled(),
            None => true,
        };
        if nd.visibility != Visibility::Visible || !enabled {
            return None;
        }
        let bounds = nd.real_render_bounds.offset(nd.visual_offset);
        if !bounds.contains(p) {
            return None;
        }
        let mut offset = Vector { x: bounds.tl.x, y: bounds.tl.y };
        let mut cur = root;
        let ghost mut d: nat = 0;
        let ghost top = self@.descend(root, offset, p, self@.n());
        loop
            invariant_except_break
                self@.wf(),
                cur < self@.n(),
                self@.up(cur, d) == Some(root),
                top == self@.descend(cur, offset, p, (self@.n() - d) as nat),
            ensures
                cur < self@.n(),
                top == cur,
                self@.up(cur, d) == Some(root),
            decreases self@.n() - d,
        {
            proof {
                self@.lemma_depth_bound(cur, d);
            }
            match self.last_hit_child(cur, offset, p) {
                None => {
                    break;
                },
                Some(c) => {
                    let cn = self.nodes[c];
                    let cb = cn.real_render_bounds.offset(cn.visual_offset).offset(offset);
                    offset = Vector { x: cb.tl.x, y: cb.tl.y };
                    proof {
                        assert(self@.up(c, d + 1) == self@.up(cur, d));
                        d = d + 1;
                    }
                    cur = c;
                },
            }
        }
        let ghost mut k: nat = 0;
        let ghost start = cur;
        assert(self@.spec_hit_test(p) == self@.focusable_up(start, self@.n()));
        loop
            invariant
                self@.wf(),
                self.root == Some(root),
                self@.up(start, d) == Some(root),
                k <= d,
                self@.spec_hit_test(p) == self@.focusable_up(start, self@.n()),
                start < self@.n(),
                cur < self@.n(),
                self@.up(start, k) == Some(cur),
                self@.focusable_up(start, self@.n()) == self@.focusable_up(cur, (self@.n() - k) as nat),
            decreases self@.n() - k,
        {
            proof {
                self@.lemma_depth_bound(start, k);
                self@.lemma_up_succ(start, k);
            }
            let nd = self.nodes[cur];
            let focusable = match nd.input_element {
                Some(ie) => ie.focusable,
                None => false,
            };
            if focusable {
                proof {
                    self@.lemma_up_add(start, k, (d - k) as nat);
                }
                return Some(cur);
            }
            match nd.parent {
                None => {
                    return None;
                },
                Some(q) => {
                    cur = q;
                    proof {
                        if k + 1 > d {
                            self@.lemma_up_add(start, d, 1);
                        }
                        k = k + 1;
                    }
                },
            }
        }
    }
}

impl VisualTree {
    fn best_child_exec(&self, i: usize, forward: bool) -> (res: Option<usize>)
        requires
            self@.wf(),
            i < self@.n(),
        ensures
            res == self@.best_child(i, forward),
            res matches Some(c) ==> c < self@.n() && self@.node(c).parent == Some(i)
                && self@.node(c).focus_scope is Some,
    {
        let kids = &self.children[i];
        let mut next_tab: i16 = if forward { i16::MAX } else { i16::MIN };
        let mut next: Option<usize> = None;
        let mut j: usize = 0;
        while j < kids.len()
            invariant
                self@.wf(),
                i < self@.n(),
                *kids == self.children@[i as int],
                j <= kids.len(),
                self@.best_scan(i, forward, j as int) == (next_tab as int, next),
                next matches Some(c) ==> c < self@.n() && self@.node(c).parent == Some(i)
                    && self@.node(c).focus_scope is Some,
            decreases kids.len() - j,
        {
            let c = kids[j];
            assert(self@.kids(i)[j as int] < self@.n());
            let nd = self.nodes[c];
            if let Some(fs) = nd.focus_scope {
                if fs.is_enabled() && nd.visibility == Visibility::Visible {
                    let t = fs.tab_index as i16;
                    if (forward && t < next_tab) || (!forward && t >= next_tab) {
                        next_tab = t;
                        next = Some(c);
                    }
                }
            }
            j = j + 1;
        }
        next
    }

    fn next_sibling_exec(&self, f: usize, q: usize, forward: bool) -> (res: usize)
        requires
            self@.wf(),
            f < self@.n(),
            q < self@.n(),
            self@.node(f).focus_scope is Some,
        ensures
            res == self@.next_sibling(f, q, forward),
            res < self@.n(),
            res != f ==> self@.node(res).focus_scope is Some,
    {
        let kids = &self.children[q];
        let tab_index = self.nodes[f].focus_scope.unwrap().tab_index;
        let mut before_focus = true;
        let mut next_tab: i16 = if forward { i16::MAX } else { i16::MIN };
        let mut next = f;
        let mut j: usize = 0;
        while j < kids.len()
            invariant
                self@.wf(),
                f < self@.n(),
                q < self@.n(),
                tab_index as int == self@.tab(f),
                *kids == self.children@[q as int],
                j <= kids.len(),
                self@.sibling_scan(f, q, forward, j as int) == (before_focus, next_tab as int, next),
                next < self@.n(),
                next != f ==> self@.node(next).focus_scope is Some,
            decreases kids.len() - j,
        {
            let c = kids[j];
            if before_focus && c == f {
                before_focus = false;
            } else {
                let nd = self.nodes[c];
                if let Some(fs) = nd.focus_scope {
                    if fs.is_enabled() && nd.visibility == Visibility::Visible {
                        let t = fs.tab_index;
                        let candidate = (forward && t > tab_index) || (!forward && t < tab_index)
                            || (forward && !before_focus && t == tab_index) || (!forward
                            && before_focus && t == tab_index);
                        let t16 = t as i16;
                        if candidate && ((forward && t16 < next_tab) || (!forward && t16
                            >= next_tab)) {
                            next_tab = t16;
                            next = c;
                        }
                    }
                }
            }
            j = j + 1;
        }
        next
    }

    fn climb_exec(&self, f: usize, forward: bool) -> (res: usize)
        requires
            self@.wf(),
            self@.inner_scoped(),
            f < self@.n(),
            self@.node(f).parent is Some ==> self@.node(f).focus_scope is Some,
        ensures
            res == self@.climb(f, forward, self@.n()),
            res < self@.n(),
    {
        let mut cur = f;
        let ghost mut d: nat = 0;
        loop
            invariant
                self@.wf(),
                self@.inner_scoped(),
                f < self@.n(),
                cur < self@.n(),
                self@.up(f, d) == Some(cur),
                self@.node(cur).parent is Some ==> self@.node(cur).focus_scope is Some,
                self@.climb(f, forward, self@.n()) == self@.climb(cur, forward, (self@.n() - d) as nat),
            decreases self@.n() - d,
        {
            proof {
                self@.lemma_depth_bound(f, d);
                self@.lemma_up_succ(f, d);
            }
            match self.nodes[cur].parent {
                None => {
                    return cur;
                },
                Some(q) => {
                    let nx = self.next_sibling_exec(cur, q, forward);
                    if nx != cur {
                        return nx;
                    }
                    proof {
                        assert(self@.node(cur).parent matches Some(qq) && qq == q);
                    }
                    cur = q;
                    proof {
                        d = d + 1;
                    }
                },
            }
        }
    }

    fn focus_step_exec(&self, f: usize, start: usize, forward: bool) -> (res: usize)
        requires
            self@.wf(),
            self@.inner_scoped(),
            f < self@.n(),
            f == start ==> self@.node(f).focus_scope is Some,
            f != start ==> (self@.node(f).parent is Some ==> self@.node(f).focus_scope is Some),
        ensures
            res == self@.focus_step(f, start, forward),
            res < self@.n(),
            self@.node(res).parent is Some ==> self@.node(res).focus_scope is Some,
    {
        let nd = self.nodes[f];
        let enter = f != start || (nd.focus_scope.unwrap().is_enabled()
            && nd.visibility == Visibility::Visible);
        let next = if enter { self.best_child_exec(f, forward) } else { None };
        match next {
            Some(c) => c,
            None => {
                let r = self.climb_exec(f, forward);
                proof {
                    self@.lemma_climb_scoped(f, forward, self@.n());
                }
                r
            },
        }
    }

    /// Moves the focus along the tab order, forwards or backwards.
    fn move_focus(&mut self, forward: bool)
        requires
            old(self)@.wf(),
            old(self).root is Some,
            old(self)@.inner_scoped(),
            old(self)@.walk_start_scoped(),
        ensures
            final(self)@.wf(),
            final(self)@ == old(self)@.moved_focus(forward),
    {
        let start = match self.focused {
            Some(f) => f,
            None => {
                let root = self.root.unwrap();
                if self.allow_focus(root) {
                    self.focus_raw(Some(root));
                    return;
                }
                root
            },
        };
        let mut f = start;
        let mut k: usize = self.nodes.len();
        let ghost target = self@.focus_target(forward);
        assert(target == self@.focus_walk(start, start, forward, k as nat));
        loop
            invariant
                self@ == old(self)@,
                self@.wf(),
                self@.inner_scoped(),
                start < self@.n(),
                self@.node(start).focus_scope is Some,
                f < self@.n(),
                f != start ==> (self@.node(f).parent is Some ==> self@.node(f).focus_scope is Some),
                target == self@.focus_target(forward),
                target == self@.focus_walk(f, start, forward, k as nat),
            decreases k,
        {
            let g = self.focus_step_exec(f, start, forward);
            if g == start {
                return;
            }
            let focusable = match self.nodes[g].input_element {
                Some(ie) => ie.focusable,
                None => false,
            };
            if focusable {
                self.focus_raw(Some(g));
                return;
            }
            if k == 0 {
                return;
            }
            k = k - 1;
            f = g;
        }
    }

    /// Moves the focus to the next view in tab order.
    pub fn focus_next(&mut self)
        requires
            old(self)@.wf(),
            old(self).root is Some,
            old(self)@.inner_scoped(),
            old(self)@.walk_start_scoped(),
        ensures
            final(self)@.wf(),
            final(self)@ == old(self)@.moved_focus(true),
    {
        self.move_focus(true);
    }

    /// Moves the focus to the previous view in tab order.
    pub fn focus_prev(&mut self)
        requires
            old(self)@.wf(),
            old(self).root is Some,
            old(self)@.inner_scoped(),
            old(self)@.walk_start_scoped(),
        ensures
            final(self)@.wf(),
            final(self)@ == old(self)@.moved_focus(false),
    {
        self.move_focus(false);
    }
}

impl VisualTree {
    /// View `e` became enabled (`v`) or disabled: it is redrawn, and each
    /// child that is enabled itself takes the new state of its parent and
    /// passes it on.
    fn is_enabled_changed(&mut self, e: usize, v: bool)
        requires
            old(self)@.wf(),
            e < old(self)@.n(),
        ensures
            final(self)@.wf(),
            same_shape(old(self)@, final(self)@),
            final(self)@.nodes == with_parent_enabled(old(self)@.nodes, old(self)@.enable_reach(e), v),
            final(self).invalidated_rect == old(self)@.invalidated_all(
                old(self).invalidated_rect,
                old(self)@.enable_visits(e, old(self)@.n()),
            ),
            final(self)@.children == old(self)@.children,
            final(self).root == old(self).root,
            final(self).focused == old(self).focused,
            final(self).screen_rect == old(self).screen_rect,
    {
        let ghost n = self@.n();
        proof {
            assert(self@.up(e, 0) == Some(e));
        }
        self.enabled_walk(e, v, Ghost(e), Ghost(0), Ghost(n));
        proof {
            assert(old(self)@.enable_visits(e, n).drop_first() =~= old(self)@.enable_visits_kids(
                e,
                old(self)@.kids(e).len() as int,
                n,
            ));
        }
    }

    /// The walk of `is_enabled_changed` below `top`, at view `e`, `d` levels
    /// down.
    fn enabled_walk(
        &mut self,
        e: usize,
        v: bool,
        Ghost(top): Ghost<usize>,
        Ghost(d): Ghost<nat>,
        Ghost(fuel): Ghost<nat>,
    )
        requires
            fuel == old(self)@.n() - d,
            old(self)@.wf(),
            e < old(self)@.n(),
            top < old(self)@.n(),
            old(self)@.up(e, d) == Some(top),
        ensures
            final(self)@.wf(),
            same_shape(old(self)@, final(self)@),
            final(self)@.nodes == with_parent_enabled(
                old(self)@.nodes,
                old(self)@.enable_visits_kids(e, old(self)@.kids(e).len() as int, (old(self)@.n() - d) as nat).to_set(),
                v,
            ),
            final(self).invalidated_rect == old(self)@.invalidated_all(
                old(self).invalidated_rect,
                old(self)@.enable_visits(e, (old(self)@.n() - d) as nat),
            ),
            final(self)@.children == old(self)@.children,
            final(self).root == old(self).root,
            final(self).focused == old(self).focused,
            final(self).screen_rect == old(self).screen_rect,
        decreases fuel,
    {
        let ghost t0 = self@;
        let ghost k = (self@.n() - d) as nat;
        proof {
            self@.lemma_depth_bound(e, d);
        }
        self.invalidate_render(e);
        let len = self.children[e].len();
        let mut j: usize = 0;
        proof {
            assert(t0.enable_visits_kids(e, 0, k) =~= Seq::<usize>::empty());
            assert(with_parent_enabled(t0.nodes, Set::empty(), v) =~= t0.nodes);
            assert(t0.enable_visits_kids(e, 0, k).to_set() =~= Set::<usize>::empty());
        }
        while j < len
            invariant
                t0.wf(),
                self@.wf(),
                same_shape(t0, self@),
                e < t0.n(),
                top < t0.n(),
                t0.up(e, d) == Some(top),
                d < t0.n(),
                k == t0.n() - d,
                fuel == k,
                j <= len,
                len == t0.kids(e).len(),
                self@.children == t0.children,
                self.root == t0.root,
                self.focused == t0.focused,
                self.screen_rect == t0.screen_rect,
                self.nodes@ == with_parent_enabled(
                    t0.nodes,
                    t0.enable_visits_kids(e, j as int, k).to_set(),
                    v,
                ),
                self.invalidated_rect == t0.invalidated_all(
                    t0.invalidated_from(t0.invalidated_rect, e),
                    t0.enable_visits_kids(e, j as int, k),
                ),
            decreases len - j,
        {
            let c = self.children[e][j];
            proof {
                assert(t0.kids(e)[j as int] == c);
                assert(c < t0.n());
                t0.lemma_passes_kept(self@, t0.enable_visits_kids(e, j as int, k).to_set(), v);
            }
            let nd = self.nodes[c];
            if let Some(fs) = nd.focus_scope {
                if fs.is_enabled_core {
                    let ghost t1 = self@;
                    let mut nd2 = nd;
                    nd2.focus_scope = Some(FocusScope { parent_is_enabled: v, ..fs });
                    self.nodes.set(c, nd2);
                    proof {
                        lemma_same_shape_wf(t1, self@);
                        lemma_same_shape_trans(t0, t1, self@);
                        lemma_wpe_union(t0.nodes, t0.enable_visits_kids(e, j as int, k).to_set(), set![c], v);
                        assert forall|i: int| 0 <= i < self.nodes@.len() implies self.nodes@[i]
                            == with_parent_enabled(t1.nodes, set![c], v)[i] by {
                            if i == c as int {
                                assert(set![c].contains(i as usize));
                            } else {
                                assert(i < self.nodes.len());
                                assert((i as usize) as int == i);
                                assert(!set![c].contains(i as usize));
                            }
                        }
                        assert(self.nodes@ =~= with_parent_enabled(t1.nodes, set![c], v));
                        assert(t0.node(c).parent == Some(e));
                        lemma_same_shape_up(t0, self@, c, d + 1);
                        assert(self@.up(c, d + 1) == Some(top));
                        self@.lemma_depth_bound(c, d + 1);
                    }
                    let ghost t2 = self@;
                    self.enabled_walk(c, v, Ghost(top), Ghost(d + 1), Ghost((fuel - 1) as nat));
                    proof {
                        lemma_same_shape_trans(t0, t2, self@);
                        let a_set = t0.enable_visits_kids(e, j as int, k).to_set();
                        t0.lemma_passes_kept(t2, a_set.union(set![c]), v);
                        t0.lemma_same_enable_visits(t2, c, (k - 1) as nat);
                        t0.lemma_same_enable_visits_kids(t2, c, t0.kids(c).len() as int, (k - 1) as nat);
                        assert(t2.kids(c) == t0.kids(c));
                        t0.lemma_enable_visits_in_range(c, (k - 1) as nat);
                        t0.lemma_same_shape_invalidated_all(t2, t2.invalidated_rect, t0.enable_visits(c, (k - 1) as nat));
                        t0.lemma_invalidated_all_add(
                            t0.invalidated_from(t0.invalidated_rect, e),
                            t0.enable_visits_kids(e, j as int, k),
                            t0.enable_visits(c, (k - 1) as nat),
                        );
                        let kid_visits = t0.enable_visits_kids(c, t0.kids(c).len() as int, (k - 1) as nat);
                        lemma_wpe_union(t0.nodes, a_set.union(set![c]), kid_visits.to_set(), v);
                        assert(t0.enable_visits(c, (k - 1) as nat) =~= seq![c].add(kid_visits));
                        assert(t0.enable_visits_kids(e, j as int + 1, k) =~= t0.enable_visits_kids(e, j as int, k).add(t0.enable_visits(c, (k - 1) as nat)));
                        vstd::seq_lib::seq_to_set_distributes_over_add(
                            t0.enable_visits_kids(e, j as int, k),
                            t0.enable_visits(c, (k - 1) as nat),
                        );
                        vstd::seq_lib::seq_to_set_distributes_over_add(seq![c], kid_visits);
                        assert(seq![c].to_set() =~= set![c]) by {
                            assert(seq![c][0] == c);
                        }
                        assert(t0.enable_visits_kids(e, j as int + 1, k).to_set() =~= a_set.union(set![c]).union(kid_visits.to_set()));
                    }
                } else {
                    proof {
                        assert(t0.enable_visits_kids(e, j as int + 1, k) =~= t0.enable_visits_kids(e, j as int, k));
                    }
                }
            } else {
                proof {
                    assert(t0.enable_visits_kids(e, j as int + 1, k) =~= t0.enable_visits_kids(e, j as int, k));
                }
            }
            j = j + 1;
        }
        proof {
            let kv = t0.enable_visits_kids(e, len as int, k);
            assert(t0.enable_visits(e, k) =~= seq![e].add(kv));
            assert(seq![e].add(kv).drop_first() =~= kv);
        }
    }
}


/// Two trees with the same views, links between them and root.
pub open spec fn same_links(a: TreeView, b: TreeView) -> bool {
    &&& a.nodes.len() == b.nodes.len()
    &&& a.children == b.children
    &&& a.root == b.root
    &&& forall|i: usize| i < a.n() ==> (#[trigger] a.node(i)).parent == b.node(i).parent
}

pub proof fn lemma_same_links_up(a: TreeView, b: TreeView, i: usize, k: nat)
    requires
        a.wf(),
        same_links(a, b),
        i < a.n(),
    ensures
        a.up(i, k) == b.up(i, k),
    decreases k,
{
    if k > 0 {
        assert(a.node(i).parent == b.node(i).parent);
        match a.node(i).parent {
            None => {},
            Some(p) => {
                lemma_same_links_up(a, b, p, (k - 1) as nat);
            },
        }
    }
}

/// Changing what views hold, but not how they are linked, keeps the tree
/// well formed.
pub proof fn lemma_same_links_wf(a: TreeView, b: TreeView)
    requires
        a.wf(),
        same_links(a, b),
        forall|i: usize| i < b.n() ==> (#[trigger] b.node(i)).shadow.wf(),
        b.focused matches Some(f) ==> f < b.n() && b.node(f).input_element is Some,
    ensures
        b.wf(),
{
    assert forall|i: usize| i < b.n() implies (#[trigger] b.up(i, b.n())) is None by {
        lemma_same_links_up(a, b, i, a.n());
    }
    assert forall|i: usize| i < b.n() implies (#[trigger] b.node(i).parent matches Some(p) ==> p
        < b.n()) by {
        assert(a.node(i).parent == b.node(i).parent);
    }
    assert forall|i: usize, j: int| i < b.n() && 0 <= j < b.kids(i).len() implies {
        &&& b.kids(i)[j] < b.n()
        &&& b.node(b.kids(i)[j]).parent == Some(i)
    } by {
        assert(a.kids(i) == b.kids(i));
        assert(a.node(a.kids(i)[j]).parent == b.node(a.kids(i)[j]).parent);
    }
    assert forall|i: usize| i < b.n() implies (#[trigger] b.kids(i)).no_duplicates() by {
        assert(a.kids(i) == b.kids(i));
    }
    if let Some(r) = b.root {
        assert(a.node(r).parent == b.node(r).parent);
    }
}

impl TreeView {
    /// The tree with view `e` replaced by `nd`.
    pub open spec fn with_node(self, e: usize, nd: Node) -> TreeView {
        TreeView { nodes: self.nodes.update(e as int, nd), ..self }
    }

    /// After moving view `e` by `value`: marked for redrawing where it was
    /// and where it is.
    pub open spec fn offset_set(self, e: usize, value: Vector) -> TreeView {
        let t1 = self.marked(e);
        t1.with_node(e, Node { visual_offset: value, ..self.node(e) }).marked(e)
    }

    /// After giving view `e` the shadow `value`: marked where it was; unless
    /// collapsed, its bounds with shadow grow by the new shadow and it is
    /// marked again.
    pub open spec fn shadow_set(self, e: usize, value: Thickness) -> TreeView {
        let t1 = self.marked(e);
        let nd = Node { shadow: value, ..self.node(e) };
        if nd.visibility == Visibility::Collapsed {
            t1.with_node(e, nd)
        } else {
            t1.with_node(
                e,
                Node {
                    real_render_bounds_with_shadow: spec_expand_rect(value, nd.real_render_bounds),
                    ..nd
                },
            ).marked(e)
        }
    }

    /// After setting the root: the new root is marked for redrawing; with no
    /// root, nothing keeps the focus.
    pub open spec fn rooted(self, r: Option<usize>) -> TreeView {
        match r {
            Some(x) => TreeView { root: Some(x), ..self }.marked(x),
            None => TreeView { root: None, ..self }.refocused(None),
        }
    }

    /// After a change of the enabled state `v` at view `e`.
    pub open spec fn enabled_changed(self, e: usize, v: bool) -> TreeView {
        TreeView {
            nodes: with_parent_enabled(self.nodes, self.enable_reach(e), v),
            invalidated_rect: self.invalidated_all(self.invalidated_rect, self.enable_visits(e, self.n())),
            ..self
        }
    }

    /// After view `e` itself is enabled or disabled (`value`): under an
    /// enabled parent the change goes down the tree.
    pub open spec fn enabled_set(self, e: usize, value: bool) -> TreeView {
        let fs = self.node(e).focus_scope.unwrap();
        let t1 = self.with_node(
            e,
            Node { focus_scope: Some(FocusScope { is_enabled_core: value, ..fs }), ..self.node(e) },
        );
        if fs.parent_is_enabled {
            t1.enabled_changed(e, value)
        } else {
            t1
        }
    }

    /// After a button with a shadow is pressed or released: pressed, it
    /// loses its shadow and moves one cell right; released, it gets its
    /// shadow back and its place. Other views stay as they are.
    pub open spec fn pressed_look(self, e: usize) -> TreeView {
        if self.node(e).render == RENDER_T_BUTTON {
            if self.node(e).button.unwrap().spec_is_pressed() {
                self.shadow_set(e, Thickness { l: 0, t: 0, r: 0, b: 0 }).offset_set(
                    e,
                    Vector { x: 1, y: 0 },
                )
            } else {
                self.shadow_set(e, Thickness { l: 0, t: 0, r: 1, b: 1 }).offset_set(
                    e,
                    Vector { x: 0, y: 0 },
                )
            }
        } else {
            self
        }
    }
}

impl VisualTree {
    /// Replaces view `e`, keeping its links.
    pub(crate) fn set_node(&mut self, e: usize, nd: Node)
        requires
            old(self)@.wf(),
            e < old(self)@.n(),
            nd.parent == old(self)@.node(e).parent,
            nd.shadow.wf(),
            old(self).focused == Some(e) ==> nd.input_element is Some,
        ensures
            final(self)@ == old(self)@.with_node(e, nd),
            final(self)@.wf(),
            same_links(old(self)@, final(self)@),
    {
        let ghost t0 = self@;
        self.nodes.set(e, nd);
        proof {
            assert(self@.nodes =~= t0.nodes.update(e as int, nd));
            assert forall|i: usize| i < t0.n() implies (#[trigger] t0.node(i)).parent == self@.node(
                i,
            ).parent by {}
            assert forall|i: usize| i < self@.n() implies (#[trigger] self@.node(i)).shadow.wf() by {
                if i != e {
                    assert(t0.node(i).shadow.wf());
                }
            }
            lemma_same_links_wf(t0, self@);
        }
    }

    /// Moves view `e` by `value` on the screen.
    pub fn set_visual_offset(&mut self, e: usize, value: Vector)
        requires
            old(self)@.wf(),
            e < old(self)@.n(),
        ensures
            final(self)@ == old(self)@.offset_set(e, value),
            final(self)@.wf(),
    {
        self.invalidate_render(e);
        let nd = self.nodes[e];
        self.set_node(e, Node { visual_offset: value, ..nd });
        self.invalidate_render(e);
    }

    /// Gives view `e` a shadow.
    pub fn set_shadow(&mut self, e: usize, value: Thickness)
        requires
            old(self)@.wf(),
            e < old(self)@.n(),
            value.wf(),
        ensures
            final(self)@ == old(self)@.shadow_set(e, value),
            final(self)@.wf(),
    {
        self.invalidate_render(e);
        let nd = self.nodes[e];
        let real_render_bounds = nd.real_render_bounds;
        let nd2 = Node { shadow: value, ..nd };
        self.set_node(e, nd2);
        if nd2.visibility == Visibility::Collapsed {
            return;
        }
        self.set_node(e, Node { real_render_bounds_with_shadow: value.expand_rect(real_render_bounds), ..nd2 });
        proof {
            assert(self@.nodes =~= old(self)@.marked(e).with_node(
                e,
                Node {
                    real_render_bounds_with_shadow: spec_expand_rect(value, nd2.real_render_bounds),
                    ..nd2
                },
            ).nodes);
        }
        self.invalidate_render(e);
    }

    /// Sets the view that is drawn on the screen, or none.
    pub fn set_root(&mut self, r: Option<usize>)
        requires
            old(self)@.wf(),
            r matches Some(x) ==> {
                &&& x < old(self)@.n()
                &&& old(self)@.node(x).parent is None
                &&& old(self).focused matches Some(f) ==> old(self)@.reaches(f, x)
            },
        ensures
            final(self)@ == old(self)@.rooted(r),
            final(self)@.wf(),
    {
        let ghost t0 = self@;
        match r {
            Some(x) => {
                self.root = Some(x);
                proof {
                    lemma_same_links_wf_root(t0, self@);
                }
                self.invalidate_render(x);
            },
            None => {
                self.root = None;
                proof {
                    lemma_same_links_wf_root(t0, self@);
                }
                self.focus(None);
            },
        }
    }

    /// Enables or disables view `e` itself.
    pub fn set_is_enabled(&mut self, e: usize, value: bool)
        requires
            old(self)@.wf(),
            e < old(self)@.n(),
            old(self)@.node(e).focus_scope is Some,
        ensures
            final(self)@ == old(self)@.enabled_set(e, value),
            final(self)@.wf(),
    {
        let nd = self.nodes[e];
        let mut fs = nd.focus_scope.unwrap();
        let parent_is_enabled = fs.set_is_enabled(value);
        self.set_node(e, Node { focus_scope: Some(fs), ..nd });
        if parent_is_enabled {
            self.is_enabled_changed(e, value);
        }
    }

    /// A button was pressed or released: a button with a shadow changes its
    /// look.
    pub fn button_is_pressed_changed(&mut self, e: usize)
        requires
            old(self)@.wf(),
            e < old(self)@.n(),
            old(self)@.node(e).render == RENDER_T_BUTTON ==> old(self)@.node(e).button is Some,
        ensures
            final(self)@ == old(self)@.pressed_look(e),
            final(self)@.wf(),
    {
        let nd = self.nodes[e];
        if nd.render == RENDER_T_BUTTON {
            let (shadow, offset) = t_button_pressed_look(nd.button.unwrap().pressed || nd.button.unwrap().is_mouse_pressed);
            self.set_shadow(e, shadow);
            self.set_visual_offset(e, offset);
        }
    }
}

/// The ancestors of a view depend only on the views.
pub proof fn lemma_same_nodes_up(a: TreeView, b: TreeView, i: usize, k: nat)
    requires
        a.nodes == b.nodes,
    ensures
        a.up(i, k) == b.up(i, k),
    decreases k,
{
    if k > 0 {
        match a.node(i).parent {
            None => {},
            Some(p) => {
                lemma_same_nodes_up(a, b, p, (k - 1) as nat);
            },
        }
    }
}

/// A new root keeps the tree well formed where it is a view without parent.
pub proof fn lemma_same_links_wf_root(a: TreeView, b: TreeView)
    requires
        a.wf(),
        a.nodes == b.nodes,
        a.children == b.children,
        a.focused == b.focused,
        b.root matches Some(x) ==> x < b.n() && b.node(x).parent is None,
    ensures
        b.wf(),
{
    assert forall|i: usize| i < b.n() implies (#[trigger] b.up(i, b.n())) is None by {
        lemma_same_nodes_up(a, b, i, a.n());
    }
    assert forall|i: usize| i < b.n() implies (#[trigger] b.node(i).parent matches Some(p) ==> p
        < b.n()) by {
        assert(a.node(i) == b.node(i));
    }
    assert forall|i: usize| i < b.n() implies (#[trigger] b.node(i)).shadow.wf() by {
        assert(a.node(i) == b.node(i));
    }
    assert forall|i: usize, j: int| i < b.n() && 0 <= j < b.kids(i).len() implies {
        &&& b.kids(i)[j] < b.n()
        &&& b.node(b.kids(i)[j]).parent == Some(i)
    } by {
        assert(a.kids(i) == b.kids(i));
        assert(a.node(a.kids(i)[j]) == b.node(a.kids(i)[j]));
    }
    if let Some(f) = b.focused {
        assert(a.node(f) == b.node(f));
    }
    assert forall|i: usize| i < b.n() implies (#[trigger] b.kids(i)).no_duplicates() by {
        assert(a.kids(i) == b.kids(i));
    }
}

impl VisualTree {
    /// Whether view `i` is `a` or lies below it.
    pub fn is_within(&self, i: usize, a: usize) -> (res: bool)
        requires
            self@.wf(),
            i < self@.n(),
        ensures
            res == self@.reaches(i, a),
    {
        let mut cur = i;
        let ghost mut k: nat = 0;
        loop
            invariant
                self@.wf(),
                i < self@.n(),
                cur < self@.n(),
                self@.up(i, k) == Some(cur),
                forall|j: nat| j < k ==> self@.up(i, j) != Some(a),
            decreases self@.n() - k,
        {
            proof {
                self@.lemma_depth_bound(i, k);
                self@.lemma_up_succ(i, k);
            }
            if cur == a {
                return true;
            }
            match self.nodes[cur].parent {
                None => {
                    proof {
                        assert forall|j: nat| self@.up(i, j) != Some(a) by {
                            if j > k {
                                self@.lemma_up_none_mono(i, k + 1, j);
                            }
                        }
                    }
                    return false;
                },
                Some(p) => {
                    cur = p;
                    proof {
                        k = k + 1;
                    }
                },
            }
        }
    }
}

impl VisualTree {
    /// Whether the tab order can be walked from where the focus is: every
    /// container below the root has a focus scope, and so does the view the
    /// walk starts from.
    pub fn can_walk_focus(&self) -> (res: bool)
        requires
            self@.wf(),
            self.root is Some,
        ensures
            res == (self@.inner_scoped() && self@.walk_start_scoped()),
    {
        let mut i: usize = 0;
        while i < self.nodes.len()
            invariant
                self@.wf(),
                i <= self@.n(),
                forall|j: usize| #![trigger self@.node(j).parent]
                    j < i && (self@.node(j).parent matches Some(q) && self@.node(q).parent is Some)
                        ==> self@.node(self@.node(j).parent.unwrap()).focus_scope is Some,
            decreases self@.n() - i,
        {
            if let Some(q) = self.nodes[i].parent {
                assert(self@.node(i).parent matches Some(p) ==> p < self@.n());
                if self.nodes[q].parent.is_some() && self.nodes[q].focus_scope.is_none() {
                    return false;
                }
            }
            i = i + 1;
        }
        match self.focused {
            Some(f) => self.nodes[f].focus_scope.is_some(),
            None => {
                let r = self.root.unwrap();
                self.allow_focus(r) || self.nodes[r].focus_scope.is_some()
            },
        }
    }
}

impl TreeView {
    proof fn lemma_focus_walk_focusable(self, f: usize, start: usize, forward: bool, k: nat)
        ensures
            self.focus_walk(f, start, forward, k) matches Some(g) ==> (self.node(g).input_element matches Some(
                ie,
            ) && ie.focusable) && g != start,
        decreases k,
    {
        let g = self.focus_step(f, start, forward);
        if g != start && !(self.node(g).input_element matches Some(ie) && ie.focusable) && k > 0 {
            self.lemma_focus_walk_focusable(g, start, forward, (k - 1) as nat);
        }
    }
}

/// Moving the focus along the tab order lands, where it moves at all, on a
/// focusable input element other than the one focused before.
pub proof fn law_tab_lands_on_focusable(t: TreeView, forward: bool)
    requires
        t.wf(),
        t.root is Some,
    ensures
        t.moved_focus(forward).focused != t.focused ==> {
            let g = t.moved_focus(forward).focused.unwrap();
            &&& t.moved_focus(forward).focused is Some
            &&& t.node(g).input_element matches Some(ie) && ie.focusable
        },
{
    match t.focused {
        Some(f) => {
            t.lemma_focus_walk_focusable(f, f, forward, t.n());
        },
        None => {
            let r = t.root.unwrap();
            if !t.spec_allow_focus(r) {
                t.lemma_focus_walk_focusable(r, r, forward, t.n());
            }
        },
    }
}

/// Disabling a view whose parent is enabled disables it and every view the
/// change reaches below it.
pub proof fn law_disable_reaches_below(t: TreeView, e: usize, i: usize)
    requires
        t.wf(),
        e < t.n(),
        t.node(e).focus_scope matches Some(fs) && fs.parent_is_enabled,
        i < t.n(),
        i == e || t.with_node(
            e,
            Node {
                focus_scope: Some(FocusScope { is_enabled_core: false, ..t.node(e).focus_scope.unwrap() }),
                ..t.node(e)
            },
        ).enable_reach(e).contains(i),
        t.node(i).focus_scope is Some,
    ensures
        !({
            let fs = t.enabled_set(e, false).node(i).focus_scope.unwrap();
            fs.is_enabled_core && fs.parent_is_enabled
        }),
{
}

impl TreeView {
    /// The tree with the parent of view `c` set to `p`.
    pub open spec fn with_parent(self, c: usize, p: Option<usize>) -> TreeView {
        self.with_node(c, Node { parent: p, ..self.node(c) })
    }

    /// Every parent is a view of the tree.
    pub open spec fn parents_in_range(self) -> bool {
        forall|i: usize| i < self.n() ==> (#[trigger] self.node(i).parent matches Some(p) ==> p < self.n())
    }

    pub proof fn lemma_up_range(self, i: usize, k: nat)
        requires
            self.parents_in_range(),
            i < self.n(),
        ensures
            self.up(i, k) matches Some(c) ==> c < self.n(),
        decreases k,
    {
        if k > 0 {
            match self.node(i).parent {
                None => {},
                Some(p) => {
                    self.lemma_up_range(p, (k - 1) as nat);
                },
            }
        }
    }

    /// Where going up `l` steps from `x` comes back to `x`, going up `q * l`
    /// steps does too.
    pub proof fn lemma_cycle_repeat(self, x: usize, l: nat, q: nat)
        requires
            self.up(x, l) == Some(x),
        ensures
            self.up(x, q * l) == Some(x),
        decreases q,
    {
        if q > 0 {
            self.lemma_cycle_repeat(x, l, (q - 1) as nat);
            self.lemma_up_add(x, ((q - 1) * l) as nat, l);
            assert((q - 1) * l + l == q * l) by (nonlinear_arith);
        } else {
            assert(0 * l == 0);
        }
    }

    /// A well formed tree has no cycle.
    pub proof fn lemma_no_cycle(self, x: usize, l: nat)
        requires
            self.wf(),
            x < self.n(),
            l >= 1,
        ensures
            self.up(x, l) != Some(x),
    {
        if self.up(x, l) == Some(x) {
            let n = self.n();
            self.lemma_cycle_repeat(x, l, n);
            assert(n * l >= n) by (nonlinear_arith)
                requires
                    l >= 1,
            ;
            self.lemma_up_none_mono(x, n, n * l);
        }
    }

    /// The first step at which going up from `y` meets `c`.
    pub proof fn lemma_first_hit(self, y: usize, c: usize, l: nat) -> (m: nat)
        requires
            self.up(y, l) == Some(c),
        ensures
            m <= l,
            self.up(y, m) == Some(c),
            forall|j: nat| j < m ==> self.up(y, j) != Some(c),
        decreases l,
    {
        if exists|j: nat| j < l && self.up(y, j) == Some(c) {
            let j = choose|j: nat| j < l && self.up(y, j) == Some(c);
            self.lemma_first_hit(y, c, j)
        } else {
            l
        }
    }
}

/// A duplicate-free sequence of numbers in `0 .. n` has at most `n` items.
pub proof fn lemma_distinct_bound(s: Seq<int>, n: int)
    requires
        s.no_duplicates(),
        n >= 0,
        forall|i: int| 0 <= i < s.len() ==> 0 <= #[trigger] s[i] < n,
    ensures
        s.len() <= n,
{
    s.unique_seq_to_set();
    vstd::set_lib::lemma_int_range(0, n);
    assert(s.to_set().subset_of(vstd::set_lib::set_int_range(0, n)));
    vstd::set_lib::lemma_len_subset(s.to_set(), vstd::set_lib::set_int_range(0, n));
}

/// Going up from `x` without meeting `c` is the same before and after the
/// parent of `c` changes.
pub proof fn lemma_walk_avoiding(t: TreeView, c: usize, np: Option<usize>, x: usize, m: nat)
    requires
        t.parents_in_range(),
        c < t.n(),
        x < t.n(),
        forall|j: nat| j < m ==> t.with_parent(c, np).up(x, j) != Some(c),
    ensures
        t.with_parent(c, np).up(x, m) == t.up(x, m),
    decreases m,
{
    let t2 = t.with_parent(c, np);
    if m > 0 {
        assert(t2.up(x, 0) == Some(x));
        assert(x != c);
        assert(t2.node(x) == t.node(x));
        match t.node(x).parent {
            None => {},
            Some(q) => {
                assert forall|j: nat| j < (m - 1) as nat implies t2.up(q, j) != Some(c) by {
                    assert(t2.up(x, j + 1) == t2.up(q, j));
                }
                lemma_walk_avoiding(t, c, np, q, (m - 1) as nat);
            },
        }
    }
}

/// A cycle after giving `c` (which had no parent) the parent `p` that does
/// not lie below `c` is impossible.
pub proof fn lemma_no_cycle_attached(t: TreeView, c: usize, p: usize, x: usize, l: nat)
    requires
        t.wf(),
        c < t.n(),
        p < t.n(),
        x < t.n(),
        t.node(c).parent is None,
        !t.reaches(p, c),
        l >= 1,
    ensures
        t.with_parent(c, Some(p)).up(x, l) != Some(x),
{
    let t2 = t.with_parent(c, Some(p));
    if t2.up(x, l) != Some(x) {
    } else if exists|j: nat| j < l && t2.up(x, j) == Some(c) {
        let j = choose|j: nat| j < l && t2.up(x, j) == Some(c);
        t2.lemma_up_add(x, j, l);
        t2.lemma_up_add(x, l, j);
        assert(j + l == l + j);
        assert(t2.up(c, l) == Some(c));
        assert(t2.node(c).parent == Some(p));
        assert(t2.up(c, l) == t2.up(p, (l - 1) as nat));
        let m = t2.lemma_first_hit(p, c, (l - 1) as nat);
        lemma_walk_avoiding(t, c, Some(p), p, m);
        assert(t.up(p, m) == Some(c));
    } else {
        lemma_walk_avoiding(t, c, Some(p), x, l);
        t.lemma_no_cycle(x, l);
    }
}

/// Giving `c` (which had no parent) the parent `p` that does not lie below
/// `c` keeps every walk up finite.
pub proof fn lemma_attach_ends(t: TreeView, c: usize, p: usize)
    requires
        t.wf(),
        c < t.n(),
        p < t.n(),
        t.node(c).parent is None,
        !t.reaches(p, c),
    ensures
        forall|i: usize| i < t.n() ==> (#[trigger] t.with_parent(c, Some(p)).up(i, t.n())) is None,
{
    let t2 = t.with_parent(c, Some(p));
    let n = t.n();
    assert(t2.parents_in_range()) by {
        assert forall|i: usize| i < t2.n() implies (#[trigger] t2.node(i).parent matches Some(q) ==> q
            < t2.n()) by {
            if i != c {
                assert(t2.node(i) == t.node(i));
            }
        }
    }
    assert forall|i: usize| i < n implies (#[trigger] t2.up(i, n)) is None by {
        if t2.up(i, n) is Some {
            let s = Seq::new(n + 1, |j: int| t2.up(i, j as nat).unwrap() as int);
            assert forall|j: int| 0 <= j < s.len() implies 0 <= #[trigger] s[j] < n by {
                if t2.up(i, j as nat) is None {
                    t2.lemma_up_none_mono(i, j as nat, n);
                }
                t2.lemma_up_range(i, j as nat);
            }
            if s.no_duplicates() {
                lemma_distinct_bound(s, n as int);
            } else {
                let (a, b) = choose|a: int, b: int| 0 <= a < s.len() && 0 <= b < s.len() && a != b && s[a] == s[b];
                let (a, b) = if a < b { (a, b) } else { (b, a) };
                assert(s[a] == s[b]);
                if t2.up(i, a as nat) is None {
                    t2.lemma_up_none_mono(i, a as nat, n);
                }
                if t2.up(i, b as nat) is None {
                    t2.lemma_up_none_mono(i, b as nat, n);
                }
                let x = t2.up(i, a as nat).unwrap();
                t2.lemma_up_range(i, a as nat);
                t2.lemma_up_range(i, b as nat);
                assert(t2.up(i, b as nat) == Some(x));
                t2.lemma_up_add(i, a as nat, (b - a) as nat);
                assert(a as nat + (b - a) as nat == b as nat);
                lemma_no_cycle_attached(t, c, p, x, (b - a) as nat);
            }
        }
    }
}

/// Taking the parent of `c` away keeps every walk up finite.
pub proof fn lemma_detach_ends(t: TreeView, c: usize, i: usize, k: nat)
    requires
        t.parents_in_range(),
        c < t.n(),
        i < t.n(),
        t.up(i, k) is None,
    ensures
        t.with_parent(c, None).up(i, k) is None,
    decreases k,
{
    let t2 = t.with_parent(c, None);
    if k > 0 && i != c {
        assert(t2.node(i) == t.node(i));
        match t.node(i).parent {
            None => {},
            Some(q) => {
                lemma_detach_ends(t, c, q, (k - 1) as nat);
            },
        }
    }
}

impl TreeView {
    /// Whether view `p` is enabled, counting a view without focus scope as
    /// enabled.
    pub open spec fn enabled_or_unscoped(self, p: usize) -> bool {
        match self.node(p).focus_scope {
            None => true,
            Some(fs) => fs.is_enabled_core && fs.parent_is_enabled,
        }
    }

    /// A view `c` placed under (`v == false`) or taken from (`v == true`) a
    /// disabled parent: its focus scope follows, and an enabled view passes
    /// the change on.
    pub open spec fn follow_parent(self, c: usize, v: bool) -> TreeView {
        match self.node(c).focus_scope {
            None => self,
            Some(fs) => {
                let t1 = self.with_node(
                    c,
                    Node { focus_scope: Some(FocusScope { parent_is_enabled: v, ..fs }), ..self.node(c) },
                );
                if fs.is_enabled_core {
                    t1.enabled_changed(c, v)
                } else {
                    t1
                }
            },
        }
    }

    /// After view `c` is added as the last child of `p`: it gets its
    /// parent, is marked for redrawing, and under a disabled parent is
    /// disabled.
    pub open spec fn child_added(self, p: usize, c: usize) -> TreeView {
        let t1 = TreeView { children: self.children.update(p as int, self.kids(p).push(c)), ..self.with_parent(c, Some(p)) };
        let t2 = t1.marked(c);
        if t2.enabled_or_unscoped(p) {
            t2
        } else {
            t2.follow_parent(c, false)
        }
    }

    /// After child `j` of `p` is removed: it is marked for redrawing where
    /// it was, loses its parent, and is no longer held disabled by a
    /// disabled parent.
    pub open spec fn child_removed(self, p: usize, j: int) -> TreeView {
        let c = self.kids(p)[j];
        let t1 = TreeView { children: self.children.update(p as int, self.kids(p).remove(j)), ..self };
        let t2 = t1.marked(c).with_parent(c, None);
        if t2.enabled_or_unscoped(p) {
            t2
        } else {
            t2.follow_parent(c, true)
        }
    }
}

/// A copy of `v` with `c` added at the end.
fn pushed(v: &Vec<usize>, c: usize) -> (res: Vec<usize>)
    ensures
        res@ == v@.push(c),
{
    let mut res: Vec<usize> = Vec::new();
    let mut k: usize = 0;
    while k < v.len()
        invariant
            k <= v.len(),
            res@ == v@.subrange(0, k as int),
        decreases v.len() - k,
    {
        res.push(v[k]);
        k = k + 1;
        proof {
            assert(v@.subrange(0, k as int) =~= v@.subrange(0, k - 1 as int).push(v@[k - 1]));
        }
    }
    res.push(c);
    proof {
        assert(v@.subrange(0, v.len() as int) =~= v@);
    }
    res
}

/// A copy of `v` without item `j`.
fn removed(v: &Vec<usize>, j: usize) -> (res: Vec<usize>)
    requires
        j < v.len(),
    ensures
        res@ == v@.remove(j as int),
{
    let mut res: Vec<usize> = Vec::new();
    let mut k: usize = 0;
    while k < v.len()
        invariant
            j < v.len(),
            k <= v.len(),
            k <= j ==> res@ == v@.subrange(0, k as int),
            k > j ==> res@ == v@.subrange(0, j as int) + v@.subrange(j + 1, k as int),
        decreases v.len() - k,
    {
        if k != j {
            res.push(v[k]);
        }
        k = k + 1;
        proof {
            if k <= j {
                assert(v@.subrange(0, k as int) =~= v@.subrange(0, k - 1 as int).push(v@[k - 1]));
            } else if k == j + 1 {
                assert(v@.subrange(j + 1, k as int) =~= Seq::<usize>::empty());
                assert(res@ =~= v@.subrange(0, j as int) + v@.subrange(j + 1, k as int));
            } else {
                assert(v@.subrange(j + 1, k as int) =~= v@.subrange(j + 1, k - 1 as int).push(v@[k - 1]));
                assert(res@ =~= v@.subrange(0, j as int) + v@.subrange(j + 1, k as int));
            }
        }
    }
    proof {
        assert(res@ =~= v@.remove(j as int));
    }
    res
}

impl VisualTree {
    /// Whether view `p` is enabled (a view without focus scope counts as
    /// enabled).
    fn enabled_or_unscoped_exec(&self, p: usize) -> (res: bool)
        requires
            p < self@.n(),
        ensures
            res == self@.enabled_or_unscoped(p),
    {
        match self.nodes[p].focus_scope {
            None => true,
            Some(fs) => fs.is_enabled(),
        }
    }

    fn follow_parent_exec(&mut self, c: usize, v: bool)
        requires
            old(self)@.wf(),
            c < old(self)@.n(),
        ensures
            final(self)@ == old(self)@.follow_parent(c, v),
            final(self)@.wf(),
            same_links(old(self)@, final(self)@),
    {
        let ghost t0 = self@;
        let nd = self.nodes[c];
        match nd.focus_scope {
            None => {
                proof {
                    assert forall|i: usize| i < t0.n() implies (#[trigger] t0.node(i)).parent == t0.node(i).parent by {}
                }
            },
            Some(fs) => {
                self.set_node(c, Node { focus_scope: Some(FocusScope { parent_is_enabled: v, ..fs }), ..nd });
                let ghost t1 = self@;
                if fs.is_enabled_core {
                    self.is_enabled_changed(c, v);
                    proof {
                        assert forall|i: usize| i < t1.n() implies (#[trigger] t1.node(i)).parent == self@.node(i).parent by {
                            assert(t1.node(i).parent == self@.node(i).parent);
                        }
                        assert forall|i: usize| i < t0.n() implies (#[trigger] t0.node(i)).parent == self@.node(i).parent by {
                            assert(t0.node(i).parent == t1.node(i).parent);
                            assert(t1.node(i).parent == self@.node(i).parent);
                        }
                    }
                }
            },
        }
    }

    /// Adds view `c`, which has no parent, as the last child of `p`.
    pub fn add_child(&mut self, p: usize, c: usize)
        requires
            old(self)@.wf(),
            p < old(self)@.n(),
            c < old(self)@.n(),
            old(self)@.node(c).parent is None,
            old(self).root != Some(c),
            !old(self)@.reaches(p, c),
        ensures
            final(self)@ == old(self)@.child_added(p, c),
            final(self)@.wf(),
    {
        let ghost t0 = self@;
        proof {
            lemma_attach_ends(t0, c, p);
            assert forall|i: usize, j: int| i < t0.n() && 0 <= j < t0.kids(i).len() implies t0.kids(i)[j] != c by {
                assert(t0.node(t0.kids(i)[j]).parent == Some(i));
            }
        }
        let nd = self.nodes[c];
        let kids = pushed(&self.children[p], c);
        self.nodes.set(c, Node { parent: Some(p), ..nd });
        self.children.set(p, kids);
        proof {
            let t1 = TreeView { children: t0.children.update(p as int, t0.kids(p).push(c)), ..t0.with_parent(c, Some(p)) };
            assert(self@.nodes =~= t1.nodes);
            assert(self@.children =~= t1.children);
            assert(self@ == t1);
            lemma_same_nodes_up(t0.with_parent(c, Some(p)), t1, 0, 0);
            assert forall|i: usize| i < t1.n() implies (#[trigger] t1.up(i, t1.n())) is None by {
                lemma_same_nodes_up(t0.with_parent(c, Some(p)), t1, i, t1.n());
            }
            assert forall|i: usize| i < t1.n() implies (#[trigger] t1.node(i).parent matches Some(q) ==> q < t1.n()) by {
                if i != c {
                    assert(t1.node(i) == t0.node(i));
                }
            }
            assert forall|i: usize, j: int| i < t1.n() && 0 <= j < t1.kids(i).len() implies {
                &&& t1.kids(i)[j] < t1.n()
                &&& t1.node(t1.kids(i)[j]).parent == Some(i)
            } by {
                if i != p || j < t0.kids(p).len() {
                    assert(t1.kids(i)[j] == t0.kids(i)[j]);
                    assert(t0.kids(i)[j] != c);
                }
            }
            assert forall|i: usize| i < t1.n() implies (#[trigger] t1.node(i)).shadow.wf() by {
                if i != c {
                    assert(t1.node(i) == t0.node(i));
                }
            }
            assert forall|i: usize| i < t1.n() implies (#[trigger] t1.kids(i)).no_duplicates() by {
                if i == p {
                    assert(t0.kids(p).no_duplicates());
                    assert forall|a: int| 0 <= a < t0.kids(p).len() implies t0.kids(p)[a] != c by {}
                } else {
                    assert(t1.kids(i) == t0.kids(i));
                }
            }
            if let Some(f) = t1.focused {
                if f != c {
                    assert(t1.node(f) == t0.node(f));
                }
            }
            if let Some(r) = t1.root {
                assert(t1.node(r) == t0.node(r));
            }
            assert(t1.wf());
        }
        self.invalidate_render(c);
        if !self.enabled_or_unscoped_exec(p) {
            self.follow_parent_exec(c, false);
        }
    }

    /// Removes child `j` of view `p`.
    pub fn remove_child(&mut self, p: usize, j: usize)
        requires
            old(self)@.wf(),
            p < old(self)@.n(),
            j < old(self)@.kids(p).len(),
        ensures
            final(self)@ == old(self)@.child_removed(p, j as int),
            final(self)@.wf(),
    {
        let ghost t0 = self@;
        let c = self.children[p][j];
        proof {
            assert(t0.kids(p)[j as int] == c);
            assert(c < t0.n());
        }
        let kids = removed(&self.children[p], j);
        self.children.set(p, kids);
        let ghost t1 = self@;
        proof {
            assert(self@.children =~= t0.children.update(p as int, t0.kids(p).remove(j as int)));
            assert forall|i: usize| i < t0.n() implies (#[trigger] t0.node(i)).parent == t1.node(i).parent by {}
            assert forall|i: usize, a: int| i < t1.n() && 0 <= a < t1.kids(i).len() implies {
                &&& t1.kids(i)[a] < t1.n()
                &&& t1.node(t1.kids(i)[a]).parent == Some(i)
            } by {
                if i == p {
                    let b = if a < j { a } else { a + 1 };
                    assert(t1.kids(p)[a] == t0.kids(p)[b]);
                } else {
                    assert(t1.kids(i) == t0.kids(i));
                }
            }
            assert forall|i: usize| i < t1.n() implies (#[trigger] t1.kids(i)).no_duplicates() by {
                if i == p {
                    assert forall|a: int, b: int| 0 <= a < b < t1.kids(p).len() implies t1.kids(p)[a] != t1.kids(p)[b] by {
                        let a2 = if a < j { a } else { a + 1 };
                        let b2 = if b < j { b } else { b + 1 };
                        assert(t1.kids(p)[a] == t0.kids(p)[a2]);
                        assert(t1.kids(p)[b] == t0.kids(p)[b2]);
                    }
                } else {
                    assert(t1.kids(i) == t0.kids(i));
                }
            }
            assert forall|i: usize| i < t1.n() implies (#[trigger] t1.up(i, t1.n())) is None by {
                lemma_same_nodes_up(t0, t1, i, t1.n());
            }
            assert forall|i: usize| i < t1.n() implies (#[trigger] t1.node(i).parent matches Some(q) ==> q < t1.n()) by {
                assert(t1.node(i) == t0.node(i));
            }
            assert forall|i: usize| i < t1.n() implies (#[trigger] t1.node(i)).shadow.wf() by {
                assert(t1.node(i) == t0.node(i));
            }
            assert(t1.wf());
        }
        self.invalidate_render(c);
        let ghost t2 = self@;
        let nd = self.nodes[c];
        self.nodes.set(c, Node { parent: None, ..nd });
        proof {
            let t3 = t2.with_parent(c, None);
            assert(self@.nodes =~= t3.nodes);
            assert(self@ == t3);
            assert(t2.parents_in_range());
            assert forall|i: usize| i < t3.n() implies (#[trigger] t3.up(i, t3.n())) is None by {
                lemma_detach_ends(t2, c, i, t2.n());
            }
            assert forall|i: usize| i < t3.n() implies (#[trigger] t3.node(i).parent matches Some(q) ==> q < t3.n()) by {
                if i != c {
                    assert(t3.node(i) == t2.node(i));
                }
            }
            assert forall|i: usize, a: int| i < t3.n() && 0 <= a < t3.kids(i).len() implies {
                &&& t3.kids(i)[a] < t3.n()
                &&& t3.node(t3.kids(i)[a]).parent == Some(i)
            } by {
                assert(t3.kids(i) == t2.kids(i));
                let x = t2.kids(i)[a];
                assert(t2.node(x).parent == Some(i));
                if x == c {
                    assert(t0.node(c).parent == Some(p));
                    assert(t2.node(c).parent == t0.node(c).parent);
                    assert(i == p);
                    let b = if a < j { a } else { a + 1 };
                    assert(t2.kids(p)[a] == t0.kids(p)[b]);
                    assert(t0.kids(p)[b] == t0.kids(p)[j as int]);
                    assert(b != j);
                }
            }
            assert forall|i: usize| i < t3.n() implies (#[trigger] t3.node(i)).shadow.wf() by {
                if i != c {
                    assert(t3.node(i) == t2.node(i));
                }
            }
            assert forall|i: usize| i < t3.n() implies (#[trigger] t3.kids(i)).no_duplicates() by {
                assert(t3.kids(i) == t2.kids(i));
            }
            if let Some(f) = t3.focused {
                if f != c {
                    assert(t3.node(f) == t2.node(f));
                }
            }
            if let Some(r) = t3.root {
                if r != c {
                    assert(t3.node(r) == t2.node(r));
                }
            }
            assert(t3.wf());
        }
        if !self.enabled_or_unscoped_exec(p) {
            self.follow_parent_exec(c, true);
        }
    }
}

impl TreeView {
    /// The tree after the first `m` children of `p` are removed, one after
    /// the other from the front.
    pub open spec fn children_cleared(self, p: usize, m: nat) -> TreeView
        decreases m,
    {
        if m == 0 {
            self
        } else {
            self.children_cleared(p, (m - 1) as nat).child_removed(p, 0)
        }
    }

    /// View `c` may become a child of `p`: it is a view without parent,
    /// not the root, and neither `p` nor above it.
    pub open spec fn can_adopt(self, p: usize, c: usize) -> bool {
        &&& c < self.n()
        &&& self.node(c).parent is None
        &&& self.root != Some(c)
        &&& !self.reaches(p, c)
    }

    /// The tree after the first `j` views of `new` are added as children of
    /// `p` in order, stopping at the first that may not be added; and
    /// whether all were added.
    pub open spec fn children_adopted(self, p: usize, new: Seq<usize>, j: int) -> (TreeView, bool)
        decreases j,
    {
        if j <= 0 {
            (self, true)
        } else {
            let (t1, ok) = self.children_adopted(p, new, j - 1);
            if !ok {
                (t1, false)
            } else if t1.can_adopt(p, new[j - 1]) {
                (t1.child_added(p, new[j - 1]), true)
            } else {
                (t1, false)
            }
        }
    }

    /// Replacing the children of `p` by `new`: the old children are removed
    /// in order, then the new ones added in order, as far as they may be.
    pub open spec fn children_replaced(self, p: usize, new: Seq<usize>) -> (TreeView, bool) {
        self.children_cleared(p, self.kids(p).len()).children_adopted(p, new, new.len() as int)
    }
}

impl VisualTree {
    /// Whether view `c` may become a child of `p`.
    pub fn can_adopt(&self, p: usize, c: usize) -> (res: bool)
        requires
            self@.wf(),
            p < self@.n(),
        ensures
            res == self@.can_adopt(p, c),
    {
        if c >= self.nodes.len() {
            return false;
        }
        self.nodes[c].parent.is_none() && self.root != Some(c) && !self.is_within(p, c)
    }

    /// Replaces the children of `p` by `new`, as a panel does: the old ones
    /// are taken out in order, the new ones put in in order. Returns `false`
    /// where a view of `new` could not be put in (it had a parent, was the
    /// root, or would make the tree go round); it and the views after it are
    /// left out.
    pub fn set_children(&mut self, p: usize, new: &Vec<usize>) -> (res: bool)
        requires
            old(self)@.wf(),
            p < old(self)@.n(),
        ensures
            final(self)@.wf(),
            (final(self)@, res) == old(self)@.children_replaced(p, new@),
    {
        let ghost t0 = self@;
        let m = self.children[p].len();
        let mut i: usize = 0;
        while i < m
            invariant
                self@.wf(),
                p < self@.n(),
                t0.n() == self@.n(),
                m == t0.kids(p).len(),
                i <= m,
                self@ == t0.children_cleared(p, i as nat),
                self@.kids(p).len() == m - i,
            decreases m - i,
        {
            self.remove_child(p, 0);
            i = i + 1;
        }
        let mut j: usize = 0;
        while j < new.len()
            invariant
                self@.wf(),
                p < self@.n(),
                j <= new.len(),
                m == t0.kids(p).len(),
                t0 == old(self)@,
                (self@, true) == t0.children_cleared(p, m as nat).children_adopted(p, new@, j as int),
            decreases new.len() - j,
        {
            let c = new[j];
            if !self.can_adopt(p, c) {
                proof {
                    assert(t0.children_cleared(p, m as nat).children_adopted(p, new@, j as int + 1) == (self@, false));
                    let r = t0.children_cleared(p, m as nat);
                    lemma_adopted_stops(r, p, new@, j as int + 1, new@.len() as int);
                    assert(r.children_adopted(p, new@, new@.len() as int) == (self@, false));
                    assert(t0.children_replaced(p, new@) == r.children_adopted(p, new@, new@.len() as int));
                }
                return false;
            }
            self.add_child(p, c);
            j = j + 1;
        }
        true
    }
}

/// Once adding stopped, it stays stopped.
pub proof fn lemma_adopted_stops(t: TreeView, p: usize, new: Seq<usize>, j: int, q: int)
    requires
        j <= q,
        !t.children_adopted(p, new, j).1,
    ensures
        t.children_adopted(p, new, q) == t.children_adopted(p, new, j),
    decreases q - j,
{
    if q > j {
        lemma_adopted_stops(t, p, new, j, q - 1);
    }
}

proof fn lemma_cleared_kids(t: TreeView, p: usize, m: nat)
    requires
        m <= t.kids(p).len(),
        p < t.children.len(),
    ensures
        t.children_cleared(p, m).kids(p).len() == t.kids(p).len() - m,
        t.children_cleared(p, m).children.len() == t.children.len(),
    decreases m,
{
    if m > 0 {
        lemma_cleared_kids(t, p, (m - 1) as nat);
    }
}

proof fn lemma_child_added_parents(t: TreeView, p: usize, c: usize)
    requires
        c < t.n(),
        p < t.children.len(),
    ensures
        forall|x: usize| x < t.n() ==> (#[trigger] t.child_added(p, c).node(x)).parent == (if x == c {
            Some(p)
        } else {
            t.node(x).parent
        }),
        t.child_added(p, c).nodes.len() == t.nodes.len(),
        t.child_added(p, c).kids(p) == t.kids(p).push(c),
        t.child_added(p, c).children.len() == t.children.len(),
{
    let t1 = TreeView { children: t.children.update(p as int, t.kids(p).push(c)), ..t.with_parent(c, Some(p)) };
    let t2 = t1.marked(c);
    assert forall|x: usize| x < t.n() implies (#[trigger] t.child_added(p, c).node(x)).parent == (if x == c {
        Some(p)
    } else {
        t.node(x).parent
    }) by {
        assert(t2.node(x) == t1.node(x));
        if !t2.enabled_or_unscoped(p) {
            match t2.node(c).focus_scope {
                None => {},
                Some(fs) => {
                    let t3 = t2.with_node(
                        c,
                        Node { focus_scope: Some(FocusScope { parent_is_enabled: false, ..fs }), ..t2.node(c) },
                    );
                    assert(t3.node(x).parent == t2.node(x).parent);
                    if fs.is_enabled_core {
                        assert(t3.enabled_changed(c, false).node(x).parent == t3.node(x).parent);
                    }
                },
            }
        }
    }
}

proof fn lemma_adopted_kids(t: TreeView, p: usize, new: Seq<usize>, j: int)
    requires
        0 <= j <= new.len(),
        p < t.children.len(),
        t.kids(p).len() == 0,
        t.children_adopted(p, new, j).1,
    ensures
        t.children_adopted(p, new, j).0.kids(p) == new.subrange(0, j),
        forall|i: int| 0 <= i < j ==> #[trigger] t.children_adopted(p, new, j).0.node(new[i]).parent == Some(p),
        t.children_adopted(p, new, j).0.nodes.len() == t.nodes.len(),
        t.children_adopted(p, new, j).0.children.len() == t.children.len(),
        forall|i: int| 0 <= i < j ==> #[trigger] new[i] < t.nodes.len(),
    decreases j,
{
    if j > 0 {
        lemma_adopted_kids(t, p, new, j - 1);
        let t1 = t.children_adopted(p, new, j - 1).0;
        let c = new[j - 1];
        assert(t1.can_adopt(p, c));
        lemma_child_added_parents(t1, p, c);
        let t2 = t1.child_added(p, c);
        assert(new.subrange(0, j) =~= new.subrange(0, j - 1).push(c));
        assert forall|i: int| 0 <= i < j implies #[trigger] t2.node(new[i]).parent == Some(p) by {
            if i < j - 1 {
                assert(new[i] < t.nodes.len());
                assert(t1.node(new[i]).parent == Some(p));
            }
        }
    } else {
        assert(new.subrange(0, 0) =~= Seq::<usize>::empty());
    }
}

/// When all of `new` could be put in, `p` has exactly the children `new`,
/// and each of them has the parent `p`.
pub proof fn law_children_replaced(t: TreeView, p: usize, new: Seq<usize>)
    requires
        t.wf(),
        p < t.n(),
        t.children_replaced(p, new).1,
    ensures
        t.children_replaced(p, new).0.kids(p) == new,
        forall|i: int| 0 <= i < new.len() ==> #[trigger] t.children_replaced(p, new).0.node(new[i]).parent == Some(p),
{
    let m = t.kids(p).len();
    lemma_cleared_kids(t, p, m);
    let r = t.children_cleared(p, m);
    lemma_adopted_kids(r, p, new, new.len() as int);
    assert(new.subrange(0, new.len() as int) =~= new);
}

impl TreeView {
    /// Every child names its parent.
    pub open spec fn kids_linked(self) -> bool {
        forall|i: usize, j: int|
            i < self.n() && 0 <= j < self.kids(i).len() ==> {
                &&& #[trigger] self.kids(i)[j] < self.n()
                &&& self.node(self.kids(i)[j]).parent == Some(i)
            }
    }

    /// `x` lies strictly below `e`.
    pub open spec fn below(self, x: usize, e: usize) -> bool {
        exists|d: nat| d >= 1 && #[trigger] self.up(x, d) == Some(e)
    }

    /// The views a change at `e` reaches after `e` itself lie below `e`.
    pub proof fn lemma_enable_visits_below(self, e: usize, k: nat)
        requires
            self.kids_linked(),
            e < self.n(),
        ensures
            self.enable_visits(e, k)[0] == e,
            forall|i: int|
                1 <= i < self.enable_visits(e, k).len() ==> self.below(
                    #[trigger] self.enable_visits(e, k)[i],
                    e,
                ),
        decreases k, 1int, 0int,
    {
        let kv = self.enable_visits_kids(e, self.kids(e).len() as int, k);
        self.lemma_enable_visits_kids_below(e, self.kids(e).len() as int, k);
        assert forall|i: int| 1 <= i < self.enable_visits(e, k).len() implies self.below(
            #[trigger] self.enable_visits(e, k)[i],
            e,
        ) by {
            assert(self.enable_visits(e, k)[i] == kv[i - 1]);
        }
    }

    /// What the first `j` children of `e` reach lies below `e`.
    pub proof fn lemma_enable_visits_kids_below(self, e: usize, j: int, k: nat)
        requires
            self.kids_linked(),
            e < self.n(),
            j <= self.kids(e).len(),
        ensures
            forall|i: int|
                0 <= i < self.enable_visits_kids(e, j, k).len() ==> self.below(
                    #[trigger] self.enable_visits_kids(e, j, k)[i],
                    e,
                ),
        decreases k, 0int, j,
    {
        if j > 0 && k > 0 {
            let c = self.kids(e)[j - 1];
            let a = self.enable_visits_kids(e, j - 1, k);
            let b = if self.passes(c) {
                self.enable_visits(c, (k - 1) as nat)
            } else {
                Seq::empty()
            };
            self.lemma_enable_visits_kids_below(e, j - 1, k);
            assert(c < self.n() && self.node(c).parent == Some(e));
            assert(self.up(e, 0) == Some(e));
            assert(self.up(c, 1) == Some(e));
            if self.passes(c) {
                self.lemma_enable_visits_below(c, (k - 1) as nat);
            }
            let all = self.enable_visits_kids(e, j, k);
            assert(all == a + b);
            assert forall|i: int| 0 <= i < all.len() implies self.below(#[trigger] all[i], e) by {
                if i < a.len() {
                    assert(all[i] == a[i]);
                } else {
                    let y = b[i - a.len()];
                    assert(all[i] == y);
                    if i - a.len() == 0 {
                        assert(y == c);
                        assert(self.up(y, 1) == Some(e));
                    } else {
                        assert(self.below(y, c));
                        let d = choose|d: nat| d >= 1 && #[trigger] self.up(y, d) == Some(c);
                        self.lemma_up_add(y, d, 1);
                        assert(self.up(y, d + 1) == Some(e));
                    }
                }
            }
        }
    }

    /// A view that is not below `e` is not reached by a change at `e`.
    pub proof fn lemma_not_reached(self, e: usize, x: usize)
        requires
            self.kids_linked(),
            e < self.n(),
            !self.below(x, e),
        ensures
            !self.enable_reach(e).contains(x),
    {
        let vis = self.enable_visits(e, self.n());
        self.lemma_enable_visits_below(e, self.n());
        if vis.drop_first().contains(x) {
            let i = choose|i: int| 0 <= i < vis.drop_first().len() && vis.drop_first()[i] == x;
            assert(vis[i + 1] == x);
        }
    }
}

/// Trees whose views have the same parents climb alike.
pub proof fn lemma_same_parents_up(a: TreeView, b: TreeView, i: usize, k: nat)
    requires
        a.parents_in_range(),
        a.nodes.len() == b.nodes.len(),
        forall|x: usize| x < a.n() ==> (#[trigger] a.node(x)).parent == b.node(x).parent,
        i < a.n(),
    ensures
        a.up(i, k) == b.up(i, k),
    decreases k,
{
    if k > 0 {
        assert(a.node(i).parent == b.node(i).parent);
        match a.node(i).parent {
            None => {},
            Some(q) => {
                lemma_same_parents_up(a, b, q, (k - 1) as nat);
            },
        }
    }
}

/// Adding a view as the last child of `p` and then removing that child
/// gives `p` its children back, and the view is as it was: without a
/// parent and, where it has a focus scope whose parent was enabled, with
/// its parent enabled again.
pub proof fn law_add_then_remove_child(t: TreeView, p: usize, c: usize)
    requires
        t.wf(),
        p < t.n(),
        t.can_adopt(p, c),
        t.node(c).focus_scope matches Some(fs) ==> fs.parent_is_enabled,
    ensures
        t.child_added(p, c).kids(p).len() == t.kids(p).len() + 1,
        t.child_added(p, c).kids(p)[t.kids(p).len() as int] == c,
        t.child_added(p, c).child_removed(p, t.kids(p).len() as int).children == t.children,
        t.child_added(p, c).child_removed(p, t.kids(p).len() as int).node(c) == t.node(c),
{
    let n = t.n();
    let j = t.kids(p).len() as int;
    assert(t.up(p, 0) == Some(p));
    assert(c != p);
    // Nothing names `c` as a child, for it has no parent.
    assert forall|i: usize, a: int| i < n && 0 <= a < t.kids(i).len() implies t.kids(i)[a] != c by {
        assert(t.node(t.kids(i)[a]).parent == Some(i));
    }
    let s = t.with_parent(c, Some(p));
    let kids2 = t.kids(p).push(c);
    let a0 = TreeView { children: t.children.update(p as int, kids2), ..s };
    let a1 = a0.marked(c);
    let tt = t.child_added(p, c);
    assert(a1.node(p) == t.node(p));
    assert(a1.children == a0.children);
    // The tree with `c` under `p`, whatever the focus scopes say, has its
    // children linked and no cycle.
    assert(t.parents_in_range());
    assert forall|x: usize| x < n implies (#[trigger] s.node(x)).parent matches Some(q) ==> q < n by {
        if x != c {
            assert(s.node(x) == t.node(x));
        }
    }
    assert(s.parents_in_range());
    let fs_opt = t.node(c).focus_scope;
    let b = match fs_opt {
        Some(fs) => a1.with_node(c, Node { focus_scope: Some(FocusScope { parent_is_enabled: false, ..fs }), ..a1.node(c) }),
        None => a1,
    };
    assert forall|x: usize| x < n implies (#[trigger] s.node(x)).parent == b.node(x).parent by {}
    assert forall|i: usize, a: int| i < b.n() && 0 <= a < b.kids(i).len() implies {
        &&& #[trigger] b.kids(i)[a] < b.n()
        &&& b.node(b.kids(i)[a]).parent == Some(i)
    } by {
        if i == p {
            if a < j {
                assert(b.kids(i)[a] == t.kids(p)[a]);
                assert(t.node(t.kids(p)[a]).parent == Some(p));
            } else {
                assert(b.kids(i)[a] == c);
            }
        } else {
            assert(b.kids(i) == t.kids(i));
            assert(t.node(t.kids(i)[a]).parent == Some(i));
        }
    }
    assert(b.kids_linked());
    if b.below(c, c) {
        let d = choose|d: nat| d >= 1 && #[trigger] b.up(c, d) == Some(c);
        lemma_same_parents_up(s, b, c, d);
        lemma_no_cycle_attached(t, c, p, c, d);
    }
    if b.below(p, c) {
        let d = choose|d: nat| d >= 1 && #[trigger] b.up(p, d) == Some(c);
        b.lemma_up_add(p, d, 1);
        assert(b.up(p, 0) == Some(p));
        assert(b.node(c).parent == Some(p));
        assert(b.up(c, 1) == Some(p));
        lemma_same_parents_up(s, b, p, d + 1);
        lemma_no_cycle_attached(t, c, p, p, d + 1);
    }
    b.lemma_not_reached(c, c);
    b.lemma_not_reached(c, p);
    assert(tt.node(p) == t.node(p));
    assert(tt.children == a0.children);
    assert(tt.node(c) == (if t.enabled_or_unscoped(p) { a1.node(c) } else { b.node(c) }));
    // Removing it again.
    assert(tt.kids(p) == kids2);
    assert(kids2.remove(j) =~= t.kids(p));
    assert(t.children.update(p as int, kids2).update(p as int, t.kids(p)) =~= t.children);
    let c1 = TreeView { children: tt.children.update(p as int, tt.kids(p).remove(j)), ..tt };
    let d1 = c1.marked(c).with_parent(c, None);
    let fin = tt.child_removed(p, j);
    assert(d1.node(p) == t.node(p));
    assert(d1.children == t.children);
    let e1 = match d1.node(c).focus_scope {
        Some(fs) => d1.with_node(c, Node { focus_scope: Some(FocusScope { parent_is_enabled: true, ..fs }), ..d1.node(c) }),
        None => d1,
    };
    assert(e1.node(c) == t.node(c) || t.enabled_or_unscoped(p));
    if !t.enabled_or_unscoped(p) {
        assert(e1.node(c) == t.node(c));
        assert forall|x: usize| x < n implies (#[trigger] t.node(x)).parent == e1.node(x).parent by {}
        assert forall|i: usize, a: int| i < e1.n() && 0 <= a < e1.kids(i).len() implies {
            &&& #[trigger] e1.kids(i)[a] < e1.n()
            &&& e1.node(e1.kids(i)[a]).parent == Some(i)
        } by {
            assert(e1.kids(i) == t.kids(i));
            assert(t.node(t.kids(i)[a]).parent == Some(i));
        }
        if e1.below(c, c) {
            let d = choose|d: nat| d >= 1 && #[trigger] e1.up(c, d) == Some(c);
            lemma_same_parents_up(t, e1, c, d);
            t.lemma_no_cycle(c, d);
        }
        e1.lemma_not_reached(c, c);
    }
}

/// What `wf` asks of view `i` on its own: its parent is a view, its shadow
/// is in range, its children are views that name it as their parent, and
/// none of them comes twice.
pub open spec fn node_ok(t: TreeView, i: usize) -> bool {
    &&& (t.node(i).parent matches Some(p) ==> p < t.n())
    &&& t.node(i).shadow.wf()
    &&& forall|j: int|
        0 <= j < t.kids(i).len() ==> #[trigger] t.kids(i)[j] < t.n() && t.node(t.kids(i)[j]).parent == Some(i)
    &&& t.kids(i).no_duplicates()
}

impl VisualTree {
    /// Tests `node_ok` for view `i`.
    fn check_node(&self, i: usize) -> (res: bool)
        requires
            self@.children.len() == self@.nodes.len(),
            i < self@.n(),
        ensures
            res == node_ok(self@, i),
    {
        let n = self.nodes.len();
        let nd = self.nodes[i];
        let p_ok = match nd.parent {
            Some(p) => p < n,
            None => true,
        };
        let sh = nd.shadow;
        let s_ok = -65535 <= sh.l && sh.l <= 65535 && -65535 <= sh.t && sh.t <= 65535 && -65535 <= sh.r
            && sh.r <= 65535 && -65535 <= sh.b && sh.b <= 65535;
        if !p_ok || !s_ok {
            return false;
        }
        let kids = &self.children[i];
        proof {
            assert(kids@ == self@.kids(i));
        }
        let mut j: usize = 0;
        while j < kids.len()
            invariant
                j <= kids.len(),
                kids@ == self@.kids(i),
                n == self@.n(),
                i < n,
                p_ok && s_ok,
                self@.node(i) == nd,
                forall|a: int| 0 <= a < j ==> #[trigger] kids@[a] < n && self@.node(kids@[a]).parent == Some(i),
                forall|a: int, b: int| 0 <= a < j && 0 <= b < j && a != b ==> kids@[a] != kids@[b],
            decreases kids.len() - j,
        {
            let c = kids[j];
            if c >= n {
                return false;
            }
            let linked = match self.nodes[c].parent {
                Some(q) => q == i,
                None => false,
            };
            if !linked {
                return false;
            }
            let mut k: usize = 0;
            while k < j
                invariant
                    k <= j < kids.len(),
                    kids@ == self@.kids(i),
                    c == kids@[j as int],
                    forall|a: int| 0 <= a < k ==> kids@[a] != c,
                decreases j - k,
            {
                if kids[k] == c {
                    proof {
                        assert(kids@[k as int] == kids@[j as int]);
                    }
                    return false;
                }
                k = k + 1;
            }
            j = j + 1;
        }
        true
    }

    /// Whether walking up from `i` ends within `n` steps (`up(i, n)` is
    /// none).
    fn check_climb(&self, i: usize) -> (res: bool)
        requires
            self@.parents_in_range(),
            i < self@.n(),
        ensures
            res == (self@.up(i, self@.n()) is None),
    {
        let n = self.nodes.len();
        let mut cur: Option<usize> = Some(i);
        let mut k: usize = 0;
        while k < n
            invariant
                k <= n,
                n == self@.n(),
                i < n,
                self@.parents_in_range(),
                cur == self@.up(i, k as nat),
                cur matches Some(c) ==> c < n,
            decreases n - k,
        {
            proof {
                self@.lemma_up_succ(i, k as nat);
            }
            cur = match cur {
                Some(c) => self.nodes[c].parent,
                None => None,
            };
            k = k + 1;
        }
        cur.is_none()
    }

    /// Tests `wf`: whether the tree is well formed.
    pub fn is_well_formed(&self) -> (res: bool)
        ensures
            res == self@.wf(),
    {
        let n = self.nodes.len();
        if self.children.len() != n {
            return false;
        }
        let mut i: usize = 0;
        while i < n
            invariant
                i <= n,
                n == self@.n(),
                self@.children.len() == self@.nodes.len(),
                forall|a: usize| a < i ==> #[trigger] node_ok(self@, a),
            decreases n - i,
        {
            if !self.check_node(i) {
                return false;
            }
            i = i + 1;
        }
        assert forall|a: usize| a < n implies (#[trigger] self@.node(a).parent matches Some(p) ==> p < n) by {
            assert(node_ok(self@, a));
        }
        assert(self@.parents_in_range());
        let mut i: usize = 0;
        while i < n
            invariant
                i <= n,
                n == self@.n(),
                self@.parents_in_range(),
                forall|a: usize| a < i ==> (#[trigger] self@.up(a, self@.n())) is None,
            decreases n - i,
        {
            if !self.check_climb(i) {
                return false;
            }
            i = i + 1;
        }
        let root_ok = match self.root {
            Some(r) => r < n && self.nodes[r].parent.is_none(),
            None => true,
        };
        let focus_ok = match self.focused {
            Some(f) => f < n && self.nodes[f].input_element.is_some(),
            None => true,
        };
        proof {
            assert forall|a: usize, j: int| a < n && 0 <= j < self@.kids(a).len() implies {
                &&& self@.kids(a)[j] < n
                &&& self@.node(self@.kids(a)[j]).parent == Some(a)
            } by {
                assert(node_ok(self@, a));
            }
            assert forall|a: usize| a < n implies (#[trigger] self@.node(a)).shadow.wf() by {
                assert(node_ok(self@, a));
            }
            assert forall|a: usize| a < n implies (#[trigger] self@.kids(a)).no_duplicates() by {
                assert(node_ok(self@, a));
            }
        }
        root_ok && focus_ok
    }
}

impl TreeView {
    /// The tree after the first `j` pairs (parent, child) are put in, in
    /// order, stopping at the first whose child may not be added to its
    /// parent; and whether all were put in.
    pub open spec fn pairs_adopted(self, pairs: Seq<(usize, usize)>, j: int) -> (TreeView, bool)
        decreases j,
    {
        if j <= 0 {
            (self, true)
        } else {
            let (t1, ok) = self.pairs_adopted(pairs, j - 1);
            let (p, c) = pairs[j - 1];
            if !ok {
                (t1, false)
            } else if p < t1.n() && t1.can_adopt(p, c) {
                (t1.child_added(p, c), true)
            } else {
                (t1, false)
            }
        }
    }
}

/// Once putting pairs in stopped, it stays stopped.
pub proof fn lemma_pairs_stop(t: TreeView, pairs: Seq<(usize, usize)>, j: int, q: int)
    requires
        j <= q,
        !t.pairs_adopted(pairs, j).1,
    ensures
        t.pairs_adopted(pairs, q) == t.pairs_adopted(pairs, j),
    decreases q - j,
{
    if q > j {
        lemma_pairs_stop(t, pairs, j, q - 1);
    }
}

/// The views a group box is built from: its adorners panel and its four
/// parts.
#[derive(Clone, Copy, PartialEq, Eq, Debug, Structural)]
pub struct GroupBoxViews {
    pub adorners: usize,
    pub border: usize,
    pub content_presenter: usize,
    pub header_background: usize,
    pub header_presenter: usize,
}

/// How the views of group box `e` are linked: the content presenter goes
/// into the border, the header presenter into the header background, the
/// border and then the header background into the adorners panel, and the
/// panel into the box.
pub open spec fn group_box_links(e: usize, v: GroupBoxViews) -> Seq<(usize, usize)> {
    seq![
        (v.border, v.content_presenter),
        (v.header_background, v.header_presenter),
        (v.adorners, v.border),
        (v.adorners, v.header_background),
        (e, v.adorners),
    ]
}

impl VisualTree {
    /// Adds, in order, each child to its parent, stopping at the first that
    /// may not be added; returns whether all were.
    pub fn adopt_all(&mut self, pairs: &Vec<(usize, usize)>) -> (res: bool)
        requires
            old(self)@.wf(),
        ensures
            final(self)@.wf(),
            (final(self)@, res) == old(self)@.pairs_adopted(pairs@, pairs@.len() as int),
    {
        let ghost t0 = self@;
        let mut j: usize = 0;
        while j < pairs.len()
            invariant
                self@.wf(),
                j <= pairs.len(),
                t0 == old(self)@,
                (self@, true) == t0.pairs_adopted(pairs@, j as int),
            decreases pairs.len() - j,
        {
            let (p, c) = pairs[j];
            if p >= self.nodes.len() || !self.can_adopt(p, c) {
                proof {
                    assert(t0.pairs_adopted(pairs@, j as int + 1) == (self@, false));
                    lemma_pairs_stop(t0, pairs@, j as int + 1, pairs@.len() as int);
                }
                return false;
            }
            self.add_child(p, c);
            j = j + 1;
        }
        true
    }

    /// Builds group box `e` from its views, linked as `group_box_links`
    /// says; returns whether every link could be made.
    pub fn assemble_group_box(&mut self, e: usize, v: GroupBoxViews) -> (res: bool)
        requires
            old(self)@.wf(),
        ensures
            final(self)@.wf(),
            (final(self)@, res) == old(self)@.pairs_adopted(group_box_links(e, v), 5),
    {
        let mut pairs: Vec<(usize, usize)> = Vec::new();
        pairs.push((v.border, v.content_presenter));
        pairs.push((v.header_background, v.header_presenter));
        pairs.push((v.adorners, v.border));
        pairs.push((v.adorners, v.header_background));
        pairs.push((e, v.adorners));
        proof {
            assert(pairs@ =~= group_box_links(e, v));
        }
        self.adopt_all(&pairs)
    }
}

/// When every pair could be put in, each child has its parent.
pub proof fn law_pairs_linked(t: TreeView, pairs: Seq<(usize, usize)>, j: int)
    requires
        t.wf(),
        0 <= j <= pairs.len(),
        t.pairs_adopted(pairs, j).1,
    ensures
        forall|i: int|
            0 <= i < j ==> (#[trigger] t.pairs_adopted(pairs, j).0.node(pairs[i].1)).parent == Some(
                pairs[i].0,
            ) && pairs[i].1 < t.n(),
        t.pairs_adopted(pairs, j).0.nodes.len() == t.nodes.len(),
        t.pairs_adopted(pairs, j).0.children.len() == t.children.len(),
    decreases j,
{
    if j > 0 {
        law_pairs_linked(t, pairs, j - 1);
        let t1 = t.pairs_adopted(pairs, j - 1).0;
        let (p, c) = pairs[j - 1];
        assert(t1.can_adopt(p, c));
        lemma_child_added_parents(t1, p, c);
        assert forall|i: int| 0 <= i < j implies (#[trigger] t.pairs_adopted(pairs, j).0.node(pairs[i].1)).parent
            == Some(pairs[i].0) by {
            if i < j - 1 {
                assert(t1.node(pairs[i].1).parent == Some(pairs[i].0) && pairs[i].1 < t.n());
                assert(pairs[i].1 != c);
            } else {
                assert(pairs[i] == (p, c));
            }
        }
    }
}

impl TreeView {
    /// Where view `e` lies on the screen: its bounds moved by its visual
    /// offset and by the screen corner of its parent, found the same way,
    /// following at most `k` parents.
    pub open spec fn screen_rect(self, e: usize, k: nat) -> Rect
        decreases k,
    {
        let own = spec_rect_offset(self.node(e).real_render_bounds, self.node(e).visual_offset);
        match self.node(e).parent {
            Some(q) => if k > 0 {
                spec_rect_offset(own, tl_vec(self.screen_rect(q, (k - 1) as nat).tl))
            } else {
                own
            },
            None => own,
        }
    }

    /// Past the top of the tree, following more parents changes nothing.
    pub proof fn lemma_screen_rect_fuel(self, e: usize, q: nat, k: nat)
        requires
            self.up(e, q) matches Some(r) && self.node(r).parent is None,
            q <= k,
        ensures
            self.screen_rect(e, k) == self.screen_rect(e, q),
        decreases q,
    {
        if q > 0 {
            match self.node(e).parent {
                None => {},
                Some(p) => {
                    self.lemma_screen_rect_fuel(p, (q - 1) as nat, (k - 1) as nat);
                },
            }
        }
    }

    /// The child `last_hit` finds is a live child under the point.
    pub proof fn lemma_last_hit(self, i: usize, base: Vector, p: Point, j: int)
        requires
            j <= self.kids(i).len(),
        ensures
            self.last_hit(i, base, p, j) matches Some(c) ==> exists|a: int|
                0 <= a < j && self.kids(i)[a] == c && self.live(c) && spec_rect_contains(self.placed(c, base), p),
        decreases j,
    {
        if j > 0 {
            self.lemma_last_hit(i, base, p, j - 1);
        }
    }

    /// Going down from a view under the point, whose screen corner is
    /// `base`, ends at a view below it that is under the point too.
    pub proof fn lemma_descend_under(self, i: usize, base: Vector, p: Point, k: nat, m: nat, r: usize)
        requires
            self.wf(),
            i < self.n(),
            self.node(r).parent is None,
            self.up(i, m) == Some(r),
            base == tl_vec(self.screen_rect(i, m).tl),
            spec_rect_contains(self.screen_rect(i, m), p),
        ensures
            exists|m2: nat|
                #![trigger self.up(self.descend(i, base, p, k), m2)]
                self.up(self.descend(i, base, p, k), m2) == Some(r) && spec_rect_contains(
                    self.screen_rect(self.descend(i, base, p, k), m2),
                    p,
                ),
            self.reaches(self.descend(i, base, p, k), i),
            self.descend(i, base, p, k) < self.n(),
        decreases k,
    {
        let d = self.descend(i, base, p, k);
        if k == 0 {
            assert(self.up(d, m) == Some(r));
            assert(self.up(i, 0) == Some(i));
        } else {
            let len = self.kids(i).len() as int;
            self.lemma_last_hit(i, base, p, len);
            match self.last_hit(i, base, p, len) {
                None => {
                    assert(self.up(d, m) == Some(r));
                    assert(self.up(i, 0) == Some(i));
                },
                Some(c) => {
                    let a = choose|a: int|
                        0 <= a < len && self.kids(i)[a] == c && self.live(c) && spec_rect_contains(
                            self.placed(c, base),
                            p,
                        );
                    assert(c < self.n() && self.node(c).parent == Some(i));
                    assert(self.up(c, m + 1) == self.up(i, m));
                    assert(self.screen_rect(c, m + 1) == self.placed(c, base));
                    let b2 = tl_vec(self.placed(c, base).tl);
                    self.lemma_descend_under(c, b2, p, (k - 1) as nat, m + 1, r);
                    assert(d == self.descend(c, b2, p, (k - 1) as nat));
                    let j = choose|j: nat| self.up(d, j) == Some(c);
                    self.lemma_up_add(d, j, 1);
                    assert(self.up(c, 0) == Some(c));
                    assert(self.up(c, 1) == Some(i)) by {
                        assert(self.up(i, 0) == Some(i));
                    }
                    assert(self.up(d, j + 1) == Some(i));
                },
            }
        }
    }

    /// The nearest focusable view from `i` up is `i` or one of its
    /// ancestors.
    pub proof fn lemma_focusable_up_reaches(self, i: usize, k: nat)
        ensures
            self.focusable_up(i, k) matches Some(y) ==> self.reaches(i, y),
        decreases k,
    {
        assert(self.up(i, 0) == Some(i));
        if !(self.node(i).input_element matches Some(ie) && ie.focusable) {
            match self.node(i).parent {
                None => {},
                Some(q) => {
                    if k > 0 {
                        self.lemma_focusable_up_reaches(q, (k - 1) as nat);
                        if self.focusable_up(q, (k - 1) as nat) is Some {
                            let y = self.focusable_up(q, (k - 1) as nat).unwrap();
                            let j = choose|j: nat| self.up(q, j) == Some(y);
                            assert(self.up(i, j + 1) == self.up(q, j));
                        }
                    }
                },
            }
        }
    }
}

/// A hit test answers a view under the point: the view the test went down
/// to has a screen rectangle (its bounds moved by its own and every
/// ancestor's corner and visual offset) that holds the point, and the
/// answer is that view or one of its ancestors.
pub proof fn law_hit_is_under_the_point(t: TreeView, p: Point)
    requires
        t.wf(),
        t.root is Some,
    ensures
        t.spec_hit_test(p) matches Some(x) ==> exists|d: usize|
            d < t.n() && t.reaches(d, x) && spec_rect_contains(#[trigger] t.screen_rect(d, t.n()), p),
{
    let r = t.root.unwrap();
    let b = spec_rect_offset(t.node(r).real_render_bounds, t.node(r).visual_offset);
    if t.live(r) && spec_rect_contains(b, p) {
        assert(t.screen_rect(r, 0) == b);
        assert(t.up(r, 0) == Some(r));
        let base = tl_vec(b.tl);
        t.lemma_descend_under(r, base, p, t.n(), 0, r);
        let d = t.descend(r, base, p, t.n());
        let m2 = choose|m2: nat| t.up(d, m2) == Some(r) && spec_rect_contains(t.screen_rect(d, m2), p);
        t.lemma_depth_bound(d, m2);
        t.lemma_screen_rect_fuel(d, m2, t.n());
        t.lemma_focusable_up_reaches(d, t.n());
    }
}

impl TreeView {
    /// No sibling of `b` follows it in tab order (or it has no parent).
    pub open spec fn last_in_tab_order(self, b: usize, forward: bool) -> bool {
        match self.node(b).parent {
            None => true,
            Some(q) => self.next_sibling(b, q, forward) == b,
        }
    }

    /// The `i`-th view up from `f`, if any, has no following sibling.
    pub open spec fn ancestor_done(self, f: usize, i: nat, forward: bool) -> bool {
        match self.up(f, i) {
            Some(b) => self.last_in_tab_order(b, forward),
            None => true,
        }
    }

    /// `x` is the following sibling of the `j`-th view up from `f`, and
    /// no view below that one on the way has a following sibling.
    pub open spec fn found_above(self, f: usize, j: nat, forward: bool, x: usize) -> bool {
        &&& forall|i: nat| i < j ==> #[trigger] self.ancestor_done(f, i, forward)
        &&& self.up(f, j) is Some
        &&& self.node(self.up(f, j).unwrap()).parent is Some
        &&& self.next_sibling(self.up(f, j).unwrap(), self.node(self.up(f, j).unwrap()).parent.unwrap(), forward)
            != self.up(f, j).unwrap()
        &&& x == self.next_sibling(
            self.up(f, j).unwrap(),
            self.node(self.up(f, j).unwrap()).parent.unwrap(),
            forward,
        )
    }

    /// `x` is the top of the tree above `f`, and no view from `f` up has a
    /// following sibling.
    pub open spec fn top_above(self, f: usize, forward: bool, x: usize) -> bool {
        &&& self.node(x).parent is None
        &&& self.reaches(f, x)
        &&& forall|i: nat| #[trigger] self.ancestor_done(f, i, forward)
    }

    /// Below the ancestor where a following sibling was found, no view has
    /// one.
    proof fn lemma_found_below(self, f: usize, j: nat, forward: bool, x: usize, i: nat)
        requires
            self.found_above(f, j, forward, x),
            i < j,
        ensures
            self.ancestor_done(f, i, forward),
    {
    }

    /// Where `f` has no following sibling, what was found above its parent
    /// is found above `f`, one level further up.
    proof fn lemma_found_step(self, f: usize, q: usize, j: nat, jj: nat, forward: bool, x: usize)
        requires
            self.found_above(q, j, forward, x),
            self.node(f).parent == Some(q),
            self.last_in_tab_order(f, forward),
            jj == j + 1,
        ensures
            self.found_above(f, jj, forward, x),
    {
        assert(self.up(f, jj) == self.up(q, j));
        assert forall|i: nat| i < jj implies #[trigger] self.ancestor_done(f, i, forward) by {
            if i > 0 {
                let i1 = (i - 1) as nat;
                self.lemma_found_below(q, j, forward, x, i1);
                assert(self.up(f, i) == self.up(q, i1));
            } else {
                assert(self.up(f, 0) == Some(f));
            }
        }
    }

    /// Climbing from `f` gives the following sibling of the nearest
    /// ancestor of `f` (`f` itself included) that has one; where none has,
    /// the top of the tree above `f`.
    pub proof fn lemma_climb_finds(self, f: usize, forward: bool, k: nat)
        requires
            self.up(f, k) is None,
        ensures
            (exists|j: nat| #[trigger] self.found_above(f, j, forward, self.climb(f, forward, k)))
                || self.top_above(f, forward, self.climb(f, forward, k)),
        decreases k,
    {
        let x = self.climb(f, forward, k);
        assert(self.up(f, 0) == Some(f));
        match self.node(f).parent {
            None => {
                assert forall|i: nat| #[trigger] self.ancestor_done(f, i, forward) by {
                    if i > 0 {
                        assert(self.up(f, i) is None);
                    }
                }
                assert(self.top_above(f, forward, x));
            },
            Some(q) => {
                let nx = self.next_sibling(f, q, forward);
                if nx != f {
                    assert(self.found_above(f, 0, forward, x));
                } else {
                    assert(k > 0);
                    assert(self.up(q, (k - 1) as nat) == self.up(f, k));
                    self.lemma_climb_finds(q, forward, (k - 1) as nat);
                    assert(x == self.climb(q, forward, (k - 1) as nat));
                    assert(self.ancestor_done(f, 0, forward));
                    assert forall|i: nat| i > 0 implies #[trigger] self.ancestor_done(f, i, forward) == self.ancestor_done(
                        q,
                        (i - 1) as nat,
                        forward,
                    ) && self.up(f, i) == self.up(q, (i - 1) as nat) by {
                        assert(self.up(f, i) == self.up(q, (i - 1) as nat));
                    }
                    if exists|j: nat| #[trigger] self.found_above(q, j, forward, x) {
                        let j = choose|j: nat| #[trigger] self.found_above(q, j, forward, x);
                        self.lemma_found_step(f, q, j, j + 1, forward, x);
                        assert(self.found_above(f, j + 1, forward, x));
                    } else {
                        assert(self.top_above(q, forward, x));
                        let jj = choose|jj: nat| self.up(q, jj) == Some(x);
                        assert(self.up(f, jj + 1) == self.up(q, jj));
                        assert forall|i: nat| #[trigger] self.ancestor_done(f, i, forward) by {
                            if i > 0 {
                                assert(self.ancestor_done(q, (i - 1) as nat, forward));
                                assert(self.ancestor_done(f, i, forward) == self.ancestor_done(q, (i - 1) as nat, forward));
                            }
                        }
                        assert(self.top_above(f, forward, x));
                    }
                }
            },
        }
    }
}

/// Tab order leaves a view that has no following sibling for its parent's
/// following sibling, and so on up to the top of the tree: in a well formed
/// tree, climbing from `f` gives the following sibling of the nearest
/// ancestor of `f` (or `f`) that has one, and the top of the tree only
/// where none has.
pub proof fn law_climb_leaves_finished_parents(t: TreeView, f: usize, forward: bool)
    requires
        t.wf(),
        f < t.n(),
    ensures
        (exists|j: nat| #[trigger] t.found_above(f, j, forward, t.climb(f, forward, t.n())))
            || t.top_above(f, forward, t.climb(f, forward, t.n())),
{
    t.lemma_climb_finds(f, forward, t.n());
}
} // verus!
