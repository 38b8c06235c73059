//! Keyboard and mouse input: which view a key or a click goes to, what a
//! button does with it, and the timers that release buttons pressed from
//! the keyboard. The time of day is read by the caller: a timer holds the
//! moment it was started as a value of its own type, and the caller says
//! how long ago that was.
use vstd::prelude::*;
use crate::geom::{Point, spec_offset};
use crate::tree::{VisualTree, TreeView, Node, ButtonState};
use crate::components::{INPUT_BUTTON, RENDER_T_BUTTON};

verus! {

/// The keys the toolkit itself reacts to.
#[derive(Clone, Copy, PartialEq, Eq, Debug, Structural)]
pub enum Key {
    Tab,
    Enter,
    Other,
}

/// How long a button stays pressed after a key press, in milliseconds.
pub const BUTTON_PRESS_MS: u16 = 100;

/// A running timer: it releases the button of view `entity`.
#[derive(Clone, Copy, PartialEq, Eq, Debug)]
pub struct Timer<T> {
    pub entity: usize,
    pub start: T,
    pub duration_ms: u16,
}

/// The state of input: the view a held mouse button went down on, with the
/// point relative to it, and the running timers, the latest first.
pub struct Input<T> {
    pub click: Option<(Option<usize>, Point)>,
    pub timers: Vec<Timer<T>>,
}

/// The timers name buttons of the tree, each at most once.
pub open spec fn timers_ok<T>(t: TreeView, timers: Seq<Timer<T>>) -> bool {
    &&& forall|i: int|
        0 <= i < timers.len() ==> {
            &&& #[trigger] timers[i].entity < t.n()
            &&& t.node(timers[i].entity).button is Some
        }
    &&& forall|i: int, j: int|
        0 <= i < j < timers.len() ==> #[trigger] timers[i].entity != #[trigger] timers[j].entity
}

/// What input reads of a view: its kind of input, its kind of drawing and
/// whether it is a button.
pub open spec fn parts(nd: Node) -> (Option<u16>, u16, bool) {
    (
        match nd.input_element {
            Some(ie) => Some(ie.input),
            None => None,
        },
        nd.render,
        nd.button is Some,
    )
}

/// Two trees whose views have the same parts.
pub open spec fn same_parts(a: TreeView, b: TreeView) -> bool {
    &&& a.nodes.len() == b.nodes.len()
    &&& forall|i: usize| i < a.n() ==> #[trigger] parts(a.node(i)) == parts(b.node(i))
}

/// Buttons are where the tree says they are: an input element of the button
/// kind and a view drawn as a button with a shadow have a button state.
pub open spec fn buttons_ok(t: TreeView) -> bool {
    forall|e: usize|
        e < t.n() ==> {
            &&& ((#[trigger] t.node(e)).input_element matches Some(ie) && ie.input == INPUT_BUTTON)
                ==> t.node(e).button is Some
            &&& t.node(e).render == RENDER_T_BUTTON ==> t.node(e).button is Some
        }
}

/// The button state of view `e` changed to `b`.
pub open spec fn with_button(t: TreeView, e: usize, b: ButtonState) -> TreeView {
    t.with_node(e, Node { button: Some(b), ..t.node(e) })
}

/// After the pressed state of button `e` changed: where it is not held by
/// the mouse it is redrawn and changes its look.
pub open spec fn after_press_change(t: TreeView, e: usize) -> TreeView {
    if !t.node(e).button.unwrap().is_mouse_pressed {
        t.marked(e).pressed_look(e)
    } else {
        t
    }
}

/// Where the timer of view `e` stands in the list, if it has one.
pub open spec fn timer_pos<T>(timers: Seq<Timer<T>>, e: usize) -> Option<int> {
    if exists|i: int| 0 <= i < timers.len() && timers[i].entity == e {
        Some(choose|i: int| 0 <= i < timers.len() && timers[i].entity == e)
    } else {
        None
    }
}

/// Starting the press timer of button `e` at `now`: a running one starts
/// again; else a new timer goes first in the list and the button is
/// pressed.
pub open spec fn timer_started<T>(t: TreeView, timers: Seq<Timer<T>>, e: usize, now: T, d: u16) -> (
    TreeView,
    Seq<Timer<T>>,
) {
    match timer_pos(timers, e) {
        Some(i) => (t, timers.update(i, Timer { entity: e, start: now, duration_ms: d })),
        None => (
            with_button(t, e, ButtonState { pressed: true, ..t.node(e).button.unwrap() }),
            seq![Timer { entity: e, start: now, duration_ms: d }].add(timers),
        ),
    }
}

/// A click on button `e`: its press timer starts, and unless the mouse
/// holds it, it is redrawn pressed.
pub open spec fn button_clicked<T>(t: TreeView, timers: Seq<Timer<T>>, e: usize, now: T) -> (
    TreeView,
    Seq<Timer<T>>,
) {
    let (t1, tm1) = timer_started(t, timers, e, now, BUTTON_PRESS_MS);
    (after_press_change(t1, e), tm1)
}

/// The mouse goes down (`true`) or up on button `e`.
pub open spec fn button_mouse(t: TreeView, e: usize, down: bool) -> TreeView {
    let b = t.node(e).button.unwrap();
    let t1 = with_button(t, e, ButtonState { is_mouse_pressed: down, ..b });
    if !b.pressed {
        t1.marked(e).pressed_look(e)
    } else {
        t1
    }
}

/// A timer that has run `elapsed` milliseconds (`None`: too long to count)
/// is due after `d`.
pub open spec fn due(elapsed: Option<u16>, d: u16) -> bool {
    match elapsed {
        None => true,
        Some(ms) => ms >= d,
    }
}

/// The timer of button `e` ran out: the button is no longer held by the
/// key press.
pub open spec fn released(t: TreeView, e: usize) -> TreeView {
    let b = t.node(e).button.unwrap();
    after_press_change(with_button(t, e, ButtonState { pressed: false, ..b }), e)
}

/// Going through the first `j` timers: the tree after the due ones have
/// released their buttons, in order, and the timers that keep running.
pub open spec fn fired<T>(t: TreeView, timers: Seq<Timer<T>>, elapsed: Seq<Option<u16>>, j: int) -> (
    TreeView,
    Seq<Timer<T>>,
)
    decreases j,
{
    if j <= 0 {
        (t, Seq::empty())
    } else {
        let (t1, kept) = fired(t, timers, elapsed, j - 1);
        let tm = timers[j - 1];
        if due(elapsed[j - 1], tm.duration_ms) {
            (released(t1, tm.entity), kept)
        } else {
            (t1, kept.push(tm))
        }
    }
}


/// What input holds, as mathematical values.
pub struct InputView<T> {
    pub click: Option<(Option<usize>, Point)>,
    pub timers: Seq<Timer<T>>,
}

impl<T> View for Input<T> {
    type V = InputView<T>;

    open spec fn view(&self) -> InputView<T> {
        InputView { click: self.click, timers: self.timers@ }
    }
}

/// Input fits the tree: its timers name buttons, buttons are where the tree
/// says, and a held mouse button went down on an input element.
pub open spec fn input_ok<T>(t: TreeView, iv: InputView<T>) -> bool {
    &&& timers_ok(t, iv.timers)
    &&& buttons_ok(t)
    &&& iv.click matches Some((Some(e), _)) ==> e < t.n() && t.node(e).input_element is Some
}

/// View `e` is an input element of the button kind.
pub open spec fn is_button(t: TreeView, e: usize) -> bool {
    t.node(e).input_element matches Some(ie) && ie.input == INPUT_BUTTON
}

/// A key press: the focused button takes Enter as a click; a Tab that
/// nothing took moves the focus on. Also says which button was clicked.
pub open spec fn key_pressed<T>(t: TreeView, iv: InputView<T>, key: Key, now: T) -> (
    TreeView,
    InputView<T>,
    Option<usize>,
) {
    if t.focused matches Some(f) && is_button(t, f) && key == Key::Enter {
        let f = t.focused.unwrap();
        let (t1, tm1) = button_clicked(t, iv.timers, f, now);
        (t1, InputView { timers: tm1, ..iv }, Some(f))
    } else if key == Key::Tab {
        (t.moved_focus(true), iv, None)
    } else {
        (t, iv, None)
    }
}

/// The left mouse button goes down at `p`: the focusable view under it
/// takes the focus and holds the click, with the point relative to it; a
/// button is pressed by the mouse and clicked.
pub open spec fn lmb_went_down<T>(t: TreeView, iv: InputView<T>, p: Point) -> (
    TreeView,
    InputView<T>,
    Option<usize>,
) {
    match t.spec_hit_test(p) {
        None => (t, iv, None),
        Some(e) => {
            let iv1 = InputView { click: Some((Some(e), spec_offset(p, t.screen_offset(e)))), ..iv };
            let t1 = t.refocused(Some(e));
            if is_button(t1, e) {
                (button_mouse(t1, e, true), iv1, Some(e))
            } else {
                (t1, iv1, None)
            }
        },
    }
}

/// The left mouse button goes up at `p`: a held click ends, releasing a
/// button it pressed; with no click held, the focusable view under `p`
/// takes the focus, and a button is clicked.
pub open spec fn lmb_went_up<T>(t: TreeView, iv: InputView<T>, p: Point, now: T) -> (
    TreeView,
    InputView<T>,
    Option<usize>,
) {
    match iv.click {
        Some((entity, _)) => {
            let iv1 = InputView { click: None, ..iv };
            match entity {
                Some(e) => if is_button(t, e) {
                    (button_mouse(t, e, false), iv1, None)
                } else {
                    (t, iv1, None)
                },
                None => (t, iv1, None),
            }
        },
        None => match t.spec_hit_test(p) {
            None => (t, iv, None),
            Some(e) => {
                let t1 = t.refocused(Some(e));
                if is_button(t1, e) {
                    let (t2, tm2) = button_clicked(t1, iv.timers, e, now);
                    (t2, InputView { timers: tm2, ..iv }, Some(e))
                } else {
                    (t1, iv, None)
                }
            },
        },
    }
}

/// The timers that keep running after the timers of view `e` are dropped.
pub open spec fn without_timer<T>(timers: Seq<Timer<T>>, e: usize) -> Seq<Timer<T>> {
    match timer_pos(timers, e) {
        Some(i) => timers.remove(i),
        None => timers,
    }
}

/// View `e` goes away: the focus leaves it where it held the focus or a
/// view below it; a click held on it forgets it; its timer is dropped and
/// its button is no longer held by a key press.
pub open spec fn dropped<T>(t: TreeView, iv: InputView<T>, e: usize) -> (TreeView, InputView<T>) {
    let t1 = if t.focused matches Some(f) && t.reaches(f, e) {
        t.refocused(None)
    } else {
        t
    };
    let click = match iv.click {
        Some((Some(c), q)) => if c == e {
            Some((None, q))
        } else {
            iv.click
        },
        _ => iv.click,
    };
    let t2 = if timer_pos(iv.timers, e) is Some {
        with_button(t1, e, ButtonState { pressed: false, ..t1.node(e).button.unwrap() })
    } else {
        t1
    };
    (t2, InputView { click, timers: without_timer(iv.timers, e) })
}

/// Trees with the same parts keep input fitting.
pub proof fn lemma_same_parts_ok<T>(a: TreeView, b: TreeView, iv: InputView<T>)
    requires
        input_ok(a, iv),
        same_parts(a, b),
    ensures
        input_ok(b, iv),
{
    assert forall|i: int| 0 <= i < iv.timers.len() implies {
        &&& #[trigger] iv.timers[i].entity < b.n()
        &&& b.node(iv.timers[i].entity).button is Some
    } by {
        assert(parts(a.node(iv.timers[i].entity)) == parts(b.node(iv.timers[i].entity)));
    }
    assert forall|e: usize| e < b.n() implies {
        &&& ((#[trigger] b.node(e)).input_element matches Some(ie) && ie.input == INPUT_BUTTON)
            ==> b.node(e).button is Some
        &&& b.node(e).render == RENDER_T_BUTTON ==> b.node(e).button is Some
    } by {
        assert(parts(a.node(e)) == parts(b.node(e)));
        assert(a.node(e).input_element matches Some(ie) && ie.input == INPUT_BUTTON ==> a.node(e).button is Some);
    }
    if let Some((Some(e), _)) = iv.click {
        assert(parts(a.node(e)) == parts(b.node(e)));
    }
}

pub proof fn lemma_same_parts_trans(a: TreeView, b: TreeView, c: TreeView)
    requires
        same_parts(a, b),
        same_parts(b, c),
    ensures
        same_parts(a, c),
{
    assert forall|i: usize| i < a.n() implies #[trigger] parts(a.node(i)) == parts(c.node(i)) by {
        assert(parts(a.node(i)) == parts(b.node(i)));
    }
}

/// Moving the focus changes no view's parts.
pub proof fn lemma_refocused_parts(t: TreeView, e: Option<usize>)
    requires
        t.wf(),
        e matches Some(x) ==> x < t.n(),
    ensures
        same_parts(t, t.refocused(e)),
{
    let t1 = t.refocused(e);
    assert forall|i: usize| i < t.n() implies #[trigger] parts(t.node(i)) == parts(t1.node(i)) by {}
}

pub proof fn lemma_moved_focus_parts(t: TreeView, forward: bool)
    requires
        t.wf(),
        t.root is Some,
    ensures
        same_parts(t, t.moved_focus(forward)),
{
    match t.focus_target(forward) {
        None => {
            assert forall|i: usize| i < t.n() implies #[trigger] parts(t.node(i)) == parts(t.node(i)) by {}
        },
        Some(g) => {
            if g < t.n() {
                lemma_refocused_parts(t, Some(g));
            } else {
                assert forall|i: usize| i < t.n() implies #[trigger] parts(t.node(i)) == parts(t.node(i)) by {}
            }
        },
    }
}

impl<T: Copy> Input<T> {
    /// No click held and no timer running.
    pub fn new() -> (res: Input<T>)
        ensures
            res@.click is None,
            res@.timers.len() == 0,
    {
        Input { click: None, timers: Vec::new() }
    }

    /// No timer runs: nothing will change until the next event.
    pub fn is_idle(&self) -> (res: bool)
        ensures
            res == (self@.timers.len() == 0),
    {
        self.timers.len() == 0
    }

    /// Tests `input_ok`: whether this input fits `tree`.
    pub fn fits(&self, tree: &VisualTree) -> (res: bool)
        ensures
            res == input_ok(tree@, self@),
    {
        let n = tree.nodes.len();
        let mut e: usize = 0;
        while e < n
            invariant
                e <= n,
                n == tree@.n(),
                forall|a: usize|
                    a < e ==> {
                        &&& ((#[trigger] tree@.node(a)).input_element matches Some(ie) && ie.input
                            == INPUT_BUTTON) ==> tree@.node(a).button is Some
                        &&& tree@.node(a).render == RENDER_T_BUTTON ==> tree@.node(a).button is Some
                    },
            decreases n - e,
        {
            let nd = tree.nodes[e];
            let is_btn = match nd.input_element {
                Some(ie) => ie.input == INPUT_BUTTON,
                None => false,
            };
            if (is_btn || nd.render == RENDER_T_BUTTON) && nd.button.is_none() {
                proof {
                    assert(tree@.node(e) == nd);
                    assert(!buttons_ok(tree@));
                }
                return false;
            }
            e = e + 1;
        }
        let mut i: usize = 0;
        while i < self.timers.len()
            invariant
                i <= self.timers.len(),
                n == tree@.n(),
                buttons_ok(tree@),
                forall|a: int|
                    0 <= a < i ==> {
                        &&& #[trigger] self.timers@[a].entity < n
                        &&& tree@.node(self.timers@[a].entity).button is Some
                    },
                forall|a: int, b: int| 0 <= a < b < i ==> #[trigger] self.timers@[a].entity != #[trigger] self.timers@[b].entity,
            decreases self.timers.len() - i,
        {
            let x = self.timers[i].entity;
            if x >= n || tree.nodes[x].button.is_none() {
                return false;
            }
            let mut k: usize = 0;
            while k < i
                invariant
                    k <= i < self.timers.len(),
                    x == self.timers@[i as int].entity,
                    forall|a: int| 0 <= a < k ==> self.timers@[a].entity != x,
                decreases i - k,
            {
                if self.timers[k].entity == x {
                    proof {
                        assert(self.timers@[k as int].entity == self.timers@[i as int].entity);
                    }
                    return false;
                }
                k = k + 1;
            }
            i = i + 1;
        }
        match self.click {
            Some((Some(x), _)) => x < n && tree.nodes[x].input_element.is_some(),
            _ => true,
        }
    }

    fn set_button(tree: &mut VisualTree, e: usize, b: ButtonState)
        requires
            old(tree)@.wf(),
            e < old(tree)@.n(),
            old(tree)@.node(e).button is Some,
        ensures
            final(tree)@ == with_button(old(tree)@, e, b),
            final(tree)@.wf(),
            same_parts(old(tree)@, final(tree)@),
    {
        let nd = tree.nodes[e];
        tree.set_node(e, Node { button: Some(b), ..nd });
        proof {
            assert forall|i: usize| i < old(tree)@.n() implies #[trigger] parts(old(tree)@.node(i)) == parts(
                tree@.node(i),
            ) by {}
        }
    }

    /// The pressed state of button `e` changed.
    fn press_changed(tree: &mut VisualTree, e: usize)
        requires
            old(tree)@.wf(),
            e < old(tree)@.n(),
            buttons_ok(old(tree)@),
            old(tree)@.node(e).button is Some,
        ensures
            final(tree)@ == after_press_change(old(tree)@, e),
            final(tree)@.wf(),
            same_parts(old(tree)@, final(tree)@),
    {
        let ghost t0 = tree@;
        if !tree.nodes[e].button.unwrap().is_mouse_pressed {
            tree.invalidate_render(e);
            let ghost t1 = tree@;
            tree.button_is_pressed_changed(e);
            proof {
                assert forall|i: usize| i < t0.n() implies #[trigger] parts(t0.node(i)) == parts(
                    tree@.node(i),
                ) by {
                    assert(t1.node(i) == t0.node(i));
                }
            }
        } else {
            proof {
                assert forall|i: usize| i < t0.n() implies #[trigger] parts(t0.node(i)) == parts(
                    tree@.node(i),
                ) by {}
            }
        }
    }

    /// Starts the press timer of button `e` at `now`.
    fn start_timer(&mut self, tree: &mut VisualTree, e: usize, now: T, d: u16)
        requires
            old(tree)@.wf(),
            input_ok(old(tree)@, old(self)@),
            e < old(tree)@.n(),
            old(tree)@.node(e).button is Some,
        ensures
            (final(tree)@, final(self)@.timers) == timer_started(old(tree)@, old(self)@.timers, e, now, d),
            final(self)@.click == old(self)@.click,
            final(tree)@.wf(),
            same_parts(old(tree)@, final(tree)@),
            input_ok(final(tree)@, final(self)@),
    {
        let ghost tm0 = self.timers@;
        let ghost t0 = tree@;
        let mut i: usize = 0;
        while i < self.timers.len()
            invariant
                self.timers@ == tm0,
                i <= tm0.len(),
                forall|j: int| 0 <= j < i ==> tm0[j].entity != e,
            ensures
                self.timers@ == tm0,
                i <= tm0.len(),
                forall|j: int| 0 <= j < i ==> tm0[j].entity != e,
                i < tm0.len() ==> tm0[i as int].entity == e,
            decreases tm0.len() - i,
        {
            if self.timers[i].entity == e {
                break;
            }
            i = i + 1;
        }
        if i < self.timers.len() {
            proof {
                assert(tm0[i as int].entity == e);
                let c = choose|j: int| 0 <= j < tm0.len() && tm0[j].entity == e;
                assert(0 <= c < tm0.len() && tm0[c].entity == e);
                if c != i as int {
                    if c < i {
                    } else {
                        assert(tm0[i as int].entity != tm0[c].entity);
                    }
                }
                assert(timer_pos(tm0, e) == Some(i as int));
                assert(same_parts(t0, t0)) by {
                    assert forall|k: usize| k < t0.n() implies #[trigger] parts(t0.node(k)) == parts(
                        t0.node(k),
                    ) by {}
                }
            }
            self.timers.set(i, Timer { entity: e, start: now, duration_ms: d });
            proof {
                assert forall|a: int| 0 <= a < self@.timers.len() implies {
                    &&& #[trigger] self@.timers[a].entity < tree@.n()
                    &&& tree@.node(self@.timers[a].entity).button is Some
                } by {
                    if a != i as int {
                        assert(tm0[a].entity < t0.n());
                    }
                }
                assert forall|a: int, b: int| 0 <= a < b < self@.timers.len() implies #[trigger] self@.timers[a].entity
                    != #[trigger] self@.timers[b].entity by {
                    assert(tm0[a].entity != tm0[b].entity);
                }
            }
        } else {
            proof {
                assert(timer_pos(tm0, e) is None);
            }
            let b = tree.nodes[e].button.unwrap();
            Self::set_button(tree, e, ButtonState { pressed: true, ..b });
            self.timers.insert(0, Timer { entity: e, start: now, duration_ms: d });
            proof {
                assert(self@.timers =~= seq![Timer { entity: e, start: now, duration_ms: d }].add(tm0));
                lemma_same_parts_ok(t0, tree@, InputView { click: self@.click, timers: tm0 });
                assert forall|a: int| 0 <= a < self@.timers.len() implies {
                    &&& #[trigger] self@.timers[a].entity < tree@.n()
                    &&& tree@.node(self@.timers[a].entity).button is Some
                } by {
                    if a > 0 {
                        assert(self@.timers[a] == tm0[a - 1]);
                    }
                }
                assert forall|a: int, b: int| 0 <= a < b < self@.timers.len() implies #[trigger] self@.timers[a].entity
                    != #[trigger] self@.timers[b].entity by {
                    assert(self@.timers[b] == tm0[b - 1]);
                    if a > 0 {
                        assert(self@.timers[a] == tm0[a - 1]);
                    }
                }
            }
        }
    }

    /// A click on button `e` (from the keyboard, or a mouse button released
    /// over it).
    pub fn button_click(&mut self, tree: &mut VisualTree, e: usize, now: T)
        requires
            old(tree)@.wf(),
            input_ok(old(tree)@, old(self)@),
            e < old(tree)@.n(),
            old(tree)@.node(e).button is Some,
        ensures
            (final(tree)@, final(self)@.timers) == button_clicked(old(tree)@, old(self)@.timers, e, now),
            final(self)@.click == old(self)@.click,
            final(tree)@.wf(),
            same_parts(old(tree)@, final(tree)@),
            input_ok(final(tree)@, final(self)@),
    {
        let ghost t0 = tree@;
        self.start_timer(tree, e, now, BUTTON_PRESS_MS);
        let ghost t1 = tree@;
        Self::press_changed(tree, e);
        proof {
            lemma_same_parts_trans(t0, t1, tree@);
            lemma_same_parts_ok(t1, tree@, self@);
        }
    }

    /// The mouse goes down (`true`) or up on button `e`.
    fn button_mouse(&mut self, tree: &mut VisualTree, e: usize, down: bool)
        requires
            old(tree)@.wf(),
            input_ok(old(tree)@, old(self)@),
            e < old(tree)@.n(),
            old(tree)@.node(e).button is Some,
        ensures
            final(tree)@ == button_mouse(old(tree)@, e, down),
            final(self)@ == old(self)@,
            final(tree)@.wf(),
            same_parts(old(tree)@, final(tree)@),
            input_ok(final(tree)@, final(self)@),
    {
        let ghost t0 = tree@;
        let b = tree.nodes[e].button.unwrap();
        Self::set_button(tree, e, ButtonState { is_mouse_pressed: down, ..b });
        let ghost t1 = tree@;
        proof {
            lemma_same_parts_ok(t0, t1, self@);
        }
        if !b.pressed {
            tree.invalidate_render(e);
            let ghost t2 = tree@;
            tree.button_is_pressed_changed(e);
            proof {
                assert forall|i: usize| i < t1.n() implies #[trigger] parts(t1.node(i)) == parts(
                    tree@.node(i),
                ) by {
                    assert(t2.node(i) == t1.node(i));
                }
                lemma_same_parts_trans(t0, t1, tree@);
                lemma_same_parts_ok(t1, tree@, self@);
            }
        }
    }

    /// The timer of button `e` ran out.
    fn release(tree: &mut VisualTree, e: usize)
        requires
            old(tree)@.wf(),
            buttons_ok(old(tree)@),
            e < old(tree)@.n(),
            old(tree)@.node(e).button is Some,
        ensures
            final(tree)@ == released(old(tree)@, e),
            final(tree)@.wf(),
            same_parts(old(tree)@, final(tree)@),
    {
        let ghost t0 = tree@;
        let b = tree.nodes[e].button.unwrap();
        Self::set_button(tree, e, ButtonState { pressed: false, ..b });
        let ghost t1 = tree@;
        proof {
            lemma_same_parts_ok(t0, t1, InputView::<T> { click: None, timers: Seq::empty() });
        }
        Self::press_changed(tree, e);
        proof {
            lemma_same_parts_trans(t0, t1, tree@);
        }
    }

    /// Lets the due timers release their buttons, in list order; `elapsed`
    /// tells, timer by timer, how long ago it was started (`None`: too long
    /// to count).
    pub fn fire_timers(&mut self, tree: &mut VisualTree, elapsed: &Vec<Option<u16>>)
        requires
            old(tree)@.wf(),
            input_ok(old(tree)@, old(self)@),
            elapsed@.len() == old(self)@.timers.len(),
        ensures
            (final(tree)@, final(self)@.timers) == fired(
                old(tree)@,
                old(self)@.timers,
                elapsed@,
                old(self)@.timers.len() as int,
            ),
            final(self)@.click == old(self)@.click,
            final(tree)@.wf(),
            input_ok(final(tree)@, final(self)@),
    {
        let ghost t0 = tree@;
        let ghost tm0 = self.timers@;
        let mut kept: Vec<Timer<T>> = Vec::new();
        let mut j: usize = 0;
        proof {
            assert forall|k: usize| k < t0.n() implies #[trigger] parts(t0.node(k)) == parts(
                t0.node(k),
            ) by {}
        }
        while j < self.timers.len()
            invariant
                self.timers@ == tm0,
                self@.click == old(self)@.click,
                elapsed@.len() == tm0.len(),
                input_ok(t0, old(self)@),
                tm0 == old(self)@.timers,
                j <= tm0.len(),
                tree@.wf(),
                same_parts(t0, tree@),
                (tree@, kept@) == fired(t0, tm0, elapsed@, j as int),
                forall|a: int| 0 <= a < kept@.len() ==> exists|i: int| 0 <= i < j && #[trigger] kept@[a] == tm0[i],
                forall|a: int, b: int| 0 <= a < b < kept@.len() ==> #[trigger] kept@[a].entity != #[trigger] kept@[b].entity,
            decreases tm0.len() - j,
        {
            let tm = self.timers[j];
            proof {
                assert(tm0[j as int].entity < t0.n());
                assert(parts(t0.node(tm.entity)) == parts(tree@.node(tm.entity)));
                lemma_same_parts_ok(t0, tree@, old(self)@);
            }
            let due_now = match elapsed[j] {
                None => true,
                Some(ms) => ms >= tm.duration_ms,
            };
            if due_now {
                let ghost t1 = tree@;
                Self::release(tree, tm.entity);
                proof {
                    lemma_same_parts_trans(t0, t1, tree@);
                }
            } else {
                kept.push(tm);
                proof {
                    assert forall|a: int| 0 <= a < kept@.len() implies exists|i: int| 0 <= i < j + 1 && #[trigger] kept@[a]
                        == tm0[i] by {
                        if a == kept@.len() - 1 {
                            assert(kept@[a] == tm0[j as int]);
                        } else {
                            let i = choose|i: int| 0 <= i < j && kept@[a] == tm0[i];
                            assert(kept@[a] == tm0[i]);
                        }
                    }
                    assert forall|a: int, b: int| 0 <= a < b < kept@.len() implies #[trigger] kept@[a].entity
                        != #[trigger] kept@[b].entity by {
                        if b == kept@.len() - 1 {
                            let i = choose|i: int| 0 <= i < j && kept@[a] == tm0[i];
                            assert(tm0[i].entity != tm0[j as int].entity);
                        }
                    }
                }
            }
            j = j + 1;
        }
        self.timers = kept;
        proof {
            lemma_same_parts_ok(t0, tree@, old(self)@);
            assert forall|a: int| 0 <= a < self@.timers.len() implies {
                &&& #[trigger] self@.timers[a].entity < tree@.n()
                &&& tree@.node(self@.timers[a].entity).button is Some
            } by {
                let i = choose|i: int| 0 <= i < j && self@.timers[a] == tm0[i];
                assert(tm0[i].entity < t0.n());
                assert(parts(t0.node(tm0[i].entity)) == parts(tree@.node(tm0[i].entity)));
            }
        }
    }

    /// A key press; returns the button it clicked, whose click handler is to
    /// run.
    pub fn key(&mut self, tree: &mut VisualTree, key: Key, now: T) -> (res: Option<usize>)
        requires
            old(tree)@.wf(),
            input_ok(old(tree)@, old(self)@),
            old(tree).root is Some,
            key == Key::Tab ==> old(tree)@.inner_scoped() && old(tree)@.walk_start_scoped(),
        ensures
            (final(tree)@, final(self)@, res) == key_pressed(old(tree)@, old(self)@, key, now),
            final(tree)@.wf(),
            input_ok(final(tree)@, final(self)@),
    {
        if let Some(f) = tree.focused {
            let ie = tree.nodes[f].input_element.unwrap();
            if ie.input == INPUT_BUTTON && key == Key::Enter {
                self.button_click(tree, f, now);
                return Some(f);
            }
        }
        if key == Key::Tab {
            let ghost t0 = tree@;
            tree.focus_next();
            proof {
                lemma_moved_focus_parts(t0, true);
                lemma_same_parts_ok(t0, tree@, self@);
            }
        }
        None
    }

    /// The left mouse button goes down at `p`; returns the button it
    /// clicked.
    pub fn lmb_down(&mut self, tree: &mut VisualTree, p: Point) -> (res: Option<usize>)
        requires
            old(tree)@.wf(),
            input_ok(old(tree)@, old(self)@),
            old(tree).root is Some,
        ensures
            (final(tree)@, final(self)@, res) == lmb_went_down(old(tree)@, old(self)@, p),
            final(tree)@.wf(),
            input_ok(final(tree)@, final(self)@),
    {
        match tree.hit_test_input_element(p) {
            None => None,
            Some(e) => {
                let q = tree.point_from_screen(e, p);
                self.click = Some((Some(e), q));
                let ghost t0 = tree@;
                tree.focus_raw(Some(e));
                proof {
                    lemma_refocused_parts(t0, Some(e));
                    lemma_same_parts_ok(t0, tree@, self@);
                    assert(parts(t0.node(e)) == parts(tree@.node(e)));
                }
                let ie = tree.nodes[e].input_element.unwrap();
                if ie.input == INPUT_BUTTON {
                    self.button_mouse(tree, e, true);
                    Some(e)
                } else {
                    None
                }
            },
        }
    }

    /// The left mouse button goes up at `p`; returns the button it clicked.
    pub fn lmb_up(&mut self, tree: &mut VisualTree, p: Point, now: T) -> (res: Option<usize>)
        requires
            old(tree)@.wf(),
            input_ok(old(tree)@, old(self)@),
            old(tree).root is Some,
        ensures
            (final(tree)@, final(self)@, res) == lmb_went_up(old(tree)@, old(self)@, p, now),
            final(tree)@.wf(),
            input_ok(final(tree)@, final(self)@),
    {
        match self.click {
            Some((entity, _)) => {
                self.click = None;
                if let Some(e) = entity {
                    let ie = tree.nodes[e].input_element.unwrap();
                    if ie.input == INPUT_BUTTON {
                        self.button_mouse(tree, e, false);
                    }
                }
                None
            },
            None => match tree.hit_test_input_element(p) {
                None => None,
                Some(e) => {
                    let ghost t0 = tree@;
                    tree.focus_raw(Some(e));
                    proof {
                        lemma_refocused_parts(t0, Some(e));
                        lemma_same_parts_ok(t0, tree@, self@);
                        assert(parts(t0.node(e)) == parts(tree@.node(e)));
                    }
                    let ie = tree.nodes[e].input_element.unwrap();
                    if ie.input == INPUT_BUTTON {
                        self.button_click(tree, e, now);
                        Some(e)
                    } else {
                        None
                    }
                },
            },
        }
    }

    /// View `e` goes away: the focus leaves it and its subtree, a click held
    /// on it is forgotten (its point is kept), and its timer stops.
    pub fn drop_entity(&mut self, tree: &mut VisualTree, e: usize)
        requires
            old(tree)@.wf(),
            input_ok(old(tree)@, old(self)@),
            e < old(tree)@.n(),
        ensures
            (final(tree)@, final(self)@) == dropped(old(tree)@, old(self)@, e),
            final(tree)@.wf(),
            input_ok(final(tree)@, final(self)@),
    {
        let ghost t0 = tree@;
        if let Some(f) = tree.focused {
            if tree.is_within(f, e) {
                tree.focus(None);
                proof {
                    lemma_refocused_parts(t0, None);
                    lemma_same_parts_ok(t0, tree@, self@);
                }
            }
        }
        if let Some((Some(c), q)) = self.click {
            if c == e {
                self.click = Some((None, q));
            }
        }
        let ghost tm0 = self.timers@;
        let ghost t1 = tree@;
        let mut i: usize = 0;
        while i < self.timers.len()
            invariant
                self.timers@ == tm0,
                i <= tm0.len(),
                forall|j: int| 0 <= j < i ==> tm0[j].entity != e,
            ensures
                self.timers@ == tm0,
                i <= tm0.len(),
                forall|j: int| 0 <= j < i ==> tm0[j].entity != e,
                i < tm0.len() ==> tm0[i as int].entity == e,
            decreases tm0.len() - i,
        {
            if self.timers[i].entity == e {
                break;
            }
            i = i + 1;
        }
        if i < self.timers.len() {
            proof {
                assert(tm0[i as int].entity == e);
                let c = choose|j: int| 0 <= j < tm0.len() && tm0[j].entity == e;
                if c != i as int && c > i {
                    assert(tm0[i as int].entity != tm0[c].entity);
                }
                assert(timer_pos(tm0, e) == Some(i as int));
                assert(tm0[i as int].entity < t1.n());
            }
            self.timers.remove(i);
            let b = tree.nodes[e].button.unwrap();
            Self::set_button(tree, e, ButtonState { pressed: false, ..b });
            proof {
                assert forall|a: int| 0 <= a < self@.timers.len() implies {
                    &&& #[trigger] self@.timers[a].entity < tree@.n()
                    &&& tree@.node(self@.timers[a].entity).button is Some
                } by {
                    let k = if a < i { a } else { a + 1 };
                    assert(self@.timers[a] == tm0[k]);
                    assert(tm0[k].entity < t1.n());
                    assert(parts(t1.node(tm0[k].entity)) == parts(tree@.node(tm0[k].entity)));
                }
                assert forall|a: int, b: int| 0 <= a < b < self@.timers.len() implies #[trigger] self@.timers[a].entity
                    != #[trigger] self@.timers[b].entity by {
                    let ka = if a < i { a } else { a + 1 };
                    let kb = if b < i { b } else { b + 1 };
                    assert(self@.timers[a] == tm0[ka]);
                    assert(self@.timers[b] == tm0[kb]);
                    assert(tm0[ka].entity != tm0[kb].entity);
                }
                lemma_same_parts_ok(t1, tree@, InputView::<T> { click: self@.click, timers: Seq::empty() });
            }
        } else {
            proof {
                assert(timer_pos(tm0, e) is None);
            }
        }
    }
}


/// When every timer is due, firing them leaves none running.
pub proof fn law_due_timers_all_fire<T>(t: TreeView, timers: Seq<Timer<T>>, elapsed: Seq<Option<u16>>, j: int)
    requires
        0 <= j <= timers.len(),
        elapsed.len() == timers.len(),
        forall|i: int| 0 <= i < timers.len() ==> #[trigger] due(elapsed[i], timers[i].duration_ms),
    ensures
        fired(t, timers, elapsed, j).1.len() == 0,
    decreases j,
{
    if j > 0 {
        law_due_timers_all_fire(t, timers, elapsed, j - 1);
        assert(due(elapsed[j - 1], timers[j - 1].duration_ms));
    }
}

/// A timer that is not due keeps running.
pub proof fn law_timer_not_due_stays<T>(t: TreeView, timers: Seq<Timer<T>>, elapsed: Seq<Option<u16>>, j: int, i: int)
    requires
        0 <= i < j <= timers.len(),
        elapsed.len() == timers.len(),
        !due(elapsed[i], timers[i].duration_ms),
    ensures
        fired(t, timers, elapsed, j).1.contains(timers[i]),
    decreases j,
{
    if j - 1 > i {
        law_timer_not_due_stays(t, timers, elapsed, j - 1, i);
        let (t1, kept) = fired(t, timers, elapsed, j - 1);
        if !due(elapsed[j - 1], timers[j - 1].duration_ms) {
            let k2 = kept.push(timers[j - 1]);
            let w = choose|w: int| 0 <= w < kept.len() && kept[w] == timers[i];
            assert(k2[w] == timers[i]);
        }
    } else {
        let (t1, kept) = fired(t, timers, elapsed, j - 1);
        assert(kept.push(timers[i])[kept.len() as int] == timers[i]);
    }
}

/// After a view goes away, neither it nor any view below it holds the
/// focus, and no click or timer of it is left.
pub proof fn law_dropped_view_is_forgotten<T>(t: TreeView, iv: InputView<T>, e: usize)
    requires
        t.wf(),
        e < t.n(),
        forall|a: int, b: int|
            0 <= a < b < iv.timers.len() ==> #[trigger] iv.timers[a].entity != #[trigger] iv.timers[b].entity,
    ensures
        dropped(t, iv, e).0.focused matches Some(f) ==> !t.reaches(f, e),
        !(dropped(t, iv, e).1.click matches Some((Some(c), _)) && c == e),
        forall|i: int| 0 <= i < dropped(t, iv, e).1.timers.len() ==> #[trigger] dropped(t, iv, e).1.timers[i].entity != e,
{
    let timers = iv.timers;
    match timer_pos(timers, e) {
        Some(p) => {
            let r = timers.remove(p);
            assert forall|i: int| 0 <= i < r.len() implies #[trigger] r[i].entity != e by {
                let k = if i < p { i } else { i + 1 };
                assert(r[i] == timers[k]);
                assert(timers[p].entity == e);
            }
        },
        None => {},
    }
}
} // verus!
