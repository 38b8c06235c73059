//! The data of the views of the toolkit and the decisions their property
//! setters make. Views are named by entity numbers.
use vstd::prelude::*;
use crate::geom::{Point, Vector, Thickness};
use crate::text::{TextAlign, TextWrapping, ViewHAlign, ViewVAlign, Visibility};
use crate::line_edit::LineEdit;

verus! {

/// An entity: a view in the world.
pub type EntityId = usize;

/// Foreground colors.
#[derive(Clone, Copy, PartialEq, Eq, Debug, Structural)]
pub enum Fg {
    Black,
    Red,
    Green,
    Brown,
    Blue,
    Magenta,
    Cyan,
    LightGray,
    DarkGray,
    BrightRed,
    BrightGreen,
    Yellow,
    BrightBlue,
    BrightMagenta,
    BrightCyan,
    White,
}

/// Background colors.
#[derive(Clone, Copy, PartialEq, Eq, Debug, Structural)]
pub enum Bg {
    /// No background of its own: what lies below shows through.
    Transparent,
    Black,
    Red,
    Green,
    Brown,
    Blue,
    Magenta,
    Cyan,
    LightGray,
}

/// A foreground and background color pair.
#[derive(Clone, Copy, PartialEq, Eq, Debug, Structural)]
pub struct Color {
    pub fg: Fg,
    pub bg: Bg,
}

pub const TREE_NONE: u16 = 0;
pub const TREE_DECORATOR: u16 = 1;
pub const TREE_PANEL: u16 = 2;
pub const TREE_CONTENT_PRESENTER: u16 = 3;
pub const TREE_CONTROL: u16 = 4;

pub const RENDER_NONE: u16 = 0;
pub const RENDER_BACKGROUND: u16 = 1;
pub const RENDER_T_BUTTON: u16 = 2;
pub const RENDER_STATIC_TEXT: u16 = 3;
pub const RENDER_BORDER: u16 = 4;
pub const RENDER_M_BUTTON: u16 = 5;
pub const RENDER_INPUT_LINE: u16 = 6;

pub const INPUT_NONE: u16 = 0;
pub const INPUT_BUTTON: u16 = 1;
pub const INPUT_INPUT_LINE: u16 = 2;

/// Whether a view and its subtree take input.
#[derive(Clone, Copy, PartialEq, Eq, Debug, Structural)]
pub struct FocusScope {
    pub is_enabled_core: bool,
    pub parent_is_enabled: bool,
    /// The place of the view in the tab order among its siblings.
    pub tab_index: i8,
}

impl FocusScope {
    /// Enabled, under an enabled parent, last in the tab order.
    pub fn new() -> (res: FocusScope)
        ensures
            res == (FocusScope { is_enabled_core: true, parent_is_enabled: true, tab_index: 127 }),
    {
        FocusScope { is_enabled_core: true, parent_is_enabled: true, tab_index: i8::MAX }
    }

    /// Enabled itself and under an enabled parent.
    pub fn is_enabled(&self) -> (res: bool)
        ensures
            res == (self.is_enabled_core && self.parent_is_enabled),
    {
        self.is_enabled_core && self.parent_is_enabled
    }

    /// Sets whether the view itself is enabled; returns whether the change is
    /// to be passed down to the children (it is when the parent is enabled).
    pub fn set_is_enabled(&mut self, value: bool) -> (res: bool)
        ensures
            *final(self) == (FocusScope { is_enabled_core: value, ..*old(self) }),
            res == old(self).parent_is_enabled,
    {
        self.is_enabled_core = value;
        self.parent_is_enabled
    }

    /// The parent of the view became enabled or disabled: a view that is
    /// enabled itself follows it, and passes it on (`true`); a disabled one
    /// stops it.
    pub fn parent_enabled_changed(&mut self, is_enabled: bool) -> (res: bool)
        ensures
            res == old(self).is_enabled_core,
            res ==> *final(self) == (FocusScope { parent_is_enabled: is_enabled, ..*old(self) }),
            !res ==> *final(self) == *old(self),
    {
        if self.is_enabled_core {
            self.parent_is_enabled = is_enabled;
            true
        } else {
            false
        }
    }
}

/// A view becomes the child of a parent that is enabled or not: under a
/// disabled parent it becomes disabled; returns whether its enabled state
/// changed for its children.
pub fn attach_to_parent(child: &mut Option<FocusScope>, parent_is_enabled: bool) -> (res: bool)
    ensures
        parent_is_enabled ==> *final(child) == *old(child) && !res,
        !parent_is_enabled ==> match *old(child) {
            Some(s) => *final(child) == Some(FocusScope { parent_is_enabled: false, ..s })
                && res == s.is_enabled_core,
            None => *final(child) == *old(child) && !res,
        },
{
    if parent_is_enabled {
        return false;
    }
    match child {
        Some(s) => {
            s.parent_is_enabled = false;
            s.is_enabled_core
        },
        None => false,
    }
}

/// A view leaves its parent: when the parent was disabled, it is no longer
/// held disabled; returns whether its enabled state changed for its children.
pub fn detach_from_parent(child: &mut Option<FocusScope>, parent_is_enabled: bool) -> (res: bool)
    ensures
        parent_is_enabled ==> *final(child) == *old(child) && !res,
        !parent_is_enabled ==> match *old(child) {
            Some(s) => *final(child) == Some(FocusScope { parent_is_enabled: true, ..s })
                && res == s.is_enabled_core,
            None => *final(child) == *old(child) && !res,
        },
{
    if parent_is_enabled {
        return false;
    }
    match child {
        Some(s) => {
            s.parent_is_enabled = true;
            s.is_enabled_core
        },
        None => false,
    }
}

/// A view that takes keyboard and mouse input.
#[derive(Clone, Copy, PartialEq, Eq, Debug, Structural)]
pub struct InputElement {
    pub input: u16,
    pub focusable: bool,
    pub is_focused: bool,
}

impl InputElement {
    /// A focusable, unfocused element of input kind `input`.
    pub fn new(input: u16) -> (res: InputElement)
        ensures
            res == (InputElement { input, focusable: true, is_focused: false }),
    {
        InputElement { input, focusable: true, is_focused: false }
    }

    pub fn input(&self) -> (res: u16)
        ensures
            res == self.input,
    {
        self.input
    }
}

/// A view's place in the visual tree and on the screen.
#[derive(Clone, PartialEq, Eq, Debug)]
pub struct ViewNode {
    pub visual_parent: Option<EntityId>,
    pub tree: u16,
    pub render: u16,
    pub layout: Option<EntityId>,
    pub visibility: Visibility,
    pub visual_offset: Vector,
    pub shadow: Thickness,
}

impl ViewNode {
    /// A visible, unplaced view of the given tree and render kinds.
    pub fn new(tree: u16, render: u16) -> (res: ViewNode)
        ensures
            res == (ViewNode {
                visual_parent: None,
                tree,
                render,
                layout: None,
                visibility: Visibility::Visible,
                visual_offset: Vector { x: 0, y: 0 },
                shadow: Thickness { l: 0, t: 0, r: 0, b: 0 },
            }),
    {
        ViewNode {
            visual_parent: None,
            tree,
            render,
            layout: None,
            visibility: Visibility::Visible,
            visual_offset: Vector { x: 0, y: 0 },
            shadow: Thickness::all(0),
        }
    }

    pub fn visual_parent(&self) -> (res: Option<EntityId>)
        ensures
            res == self.visual_parent,
    {
        self.visual_parent
    }

    pub fn tree(&self) -> (res: u16)
        ensures
            res == self.tree,
    {
        self.tree
    }

    pub fn render(&self) -> (res: u16)
        ensures
            res == self.render,
    {
        self.render
    }
}

/// What a change of visibility invalidates: `(measure, render)`. Taking or
/// giving up space is a measure change; only showing or hiding is a
/// render change.
pub open spec fn spec_visibility_effects(prev: Visibility, next: Visibility) -> (bool, bool) {
    if prev == next {
        (false, false)
    } else if prev == Visibility::Collapsed || next == Visibility::Collapsed {
        (true, false)
    } else {
        (false, true)
    }
}

pub fn visibility_effects(prev: Visibility, next: Visibility) -> (res: (bool, bool))
    ensures
        res == spec_visibility_effects(prev, next),
{
    match (prev, next) {
        (Visibility::Visible, Visibility::Collapsed) => (true, false),
        (Visibility::Visible, Visibility::Hidden) => (false, true),
        (Visibility::Hidden, Visibility::Visible) => (false, true),
        (Visibility::Hidden, Visibility::Collapsed) => (true, false),
        (Visibility::Collapsed, Visibility::Visible) => (true, false),
        (Visibility::Collapsed, Visibility::Hidden) => (true, false),
        _ => (false, false),
    }
}

/// Whether a string is empty (templates skip empty names).
pub fn string_is_empty(x: &Vec<char>) -> (res: bool)
    ensures
        res == (x@.len() == 0),
{
    x.len() == 0
}

/// Whether a list is empty (templates skip empty child lists).
pub fn vec_is_empty<T>(x: &Vec<T>) -> (res: bool)
    ensures
        res == (x@.len() == 0),
{
    x.len() == 0
}

/// A view with any number of children.
#[derive(Clone, PartialEq, Eq, Debug)]
pub struct Panel {
    pub children: Vec<EntityId>,
}

impl Panel {
    pub fn new() -> (res: Panel)
        ensures
            res.children@.len() == 0,
    {
        Panel { children: Vec::new() }
    }
}

/// A view with at most one child.
#[derive(Clone, Copy, PartialEq, Eq, Debug, Structural)]
pub struct Decorator {
    pub child: Option<EntityId>,
}

impl Decorator {
    pub fn new() -> (res: Decorator)
        ensures
            res.child is None,
    {
        Decorator { child: None }
    }
}

/// A panel that stacks its children.
#[derive(Clone, Copy, PartialEq, Eq, Debug, Structural)]
pub struct StackPanel {
    pub vertical: bool,
}

impl StackPanel {
    /// Vertical by default.
    pub fn new() -> (res: StackPanel)
        ensures
            res.vertical,
    {
        StackPanel { vertical: true }
    }
}

/// A panel whose first child sets the size of the others, drawn over it.
#[derive(Clone, Copy, PartialEq, Eq, Debug, Structural)]
pub struct AdornersPanel {}

impl AdornersPanel {
    pub fn new() -> (res: AdornersPanel) {
        AdornersPanel {  }
    }
}

/// A panel that places children at given positions.
#[derive(Clone, Copy, PartialEq, Eq, Debug, Structural)]
pub struct Canvas {}

impl Canvas {
    pub fn new() -> (res: Canvas) {
        Canvas {  }
    }
}

/// Where a child of a canvas stands.
#[derive(Clone, Copy, PartialEq, Eq, Debug, Structural)]
pub struct CanvasLayout {
    pub tl: Point,
}

impl CanvasLayout {
    pub fn new() -> (res: CanvasLayout)
        ensures
            res.tl == (Point { x: 0, y: 0 }),
    {
        CanvasLayout { tl: Point { x: 0, y: 0 } }
    }
}

/// A filled area behind a child.
#[derive(Clone, PartialEq, Eq, Debug)]
pub struct Background {
    pub pattern: Vec<char>,
    pub color: Color,
    pub fit_to_content: bool,
}

impl Background {
    /// A light shade in light gray on black, filling its slot.
    pub fn new() -> (res: Background)
        ensures
            res.pattern@ == seq!['\u{2591}'],
            res.color == (Color { fg: Fg::LightGray, bg: Bg::Black }),
            !res.fit_to_content,
    {
        let mut pattern = Vec::new();
        pattern.push('\u{2591}');
        Background { pattern, color: (Color { fg: Fg::LightGray, bg: Bg::Black }), fit_to_content: false }
    }
}

/// A frame around a child.
#[derive(Clone, Copy, PartialEq, Eq, Debug)]
pub struct Border {
    pub double: bool,
    pub color: Color,
}

impl Border {
    /// A single line in light gray on black.
    pub fn new() -> (res: Border)
        ensures
            res == (Border { double: false, color: (Color { fg: Fg::LightGray, bg: Bg::Black }) }),
    {
        Border { double: false, color: (Color { fg: Fg::LightGray, bg: Bg::Black }) }
    }
}

/// A button: its label, and whether it is held by a key press (`pressed`,
/// for a short time) or by the mouse.
#[derive(Clone, PartialEq, Eq, Debug)]
pub struct Button {
    pub text: Vec<char>,
    pub pressed: bool,
    pub is_mouse_pressed: bool,
}

impl Button {
    pub fn new() -> (res: Button)
        ensures
            res.text@.len() == 0,
            !res.pressed,
            !res.is_mouse_pressed,
    {
        Button { text: Vec::new(), pressed: false, is_mouse_pressed: false }
    }

    /// Held down by a key press or by the mouse.
    pub fn is_pressed(&self) -> (res: bool)
        ensures
            res == (self.pressed || self.is_mouse_pressed),
    {
        self.pressed || self.is_mouse_pressed
    }
}

/// The look of a button with a shadow.
#[derive(Clone, Copy, PartialEq, Eq, Debug)]
pub struct TButton {
    pub color: Color,
    pub color_hotkey: Color,
    pub color_focused: Color,
    pub color_focused_hotkey: Color,
    pub color_disabled: Color,
}

impl TButton {
    pub fn new() -> (res: TButton)
        ensures
            res == (TButton {
                color: (Color { fg: Fg::Black, bg: Bg::Green }),
                color_hotkey: (Color { fg: Fg::Yellow, bg: Bg::Green }),
                color_focused: (Color { fg: Fg::White, bg: Bg::Green }),
                color_focused_hotkey: (Color { fg: Fg::Yellow, bg: Bg::Green }),
                color_disabled: (Color { fg: Fg::DarkGray, bg: Bg::Green }),
            }),
    {
        TButton {
            color: (Color { fg: Fg::Black, bg: Bg::Green }),
            color_hotkey: (Color { fg: Fg::Yellow, bg: Bg::Green }),
            color_focused: (Color { fg: Fg::White, bg: Bg::Green }),
            color_focused_hotkey: (Color { fg: Fg::Yellow, bg: Bg::Green }),
            color_disabled: (Color { fg: Fg::DarkGray, bg: Bg::Green }),
        }
    }
}

/// The look of a menu-style button: its colors when plain, focused,
/// pressed or disabled.
#[derive(Clone, Copy, PartialEq, Eq, Debug, Structural)]
pub struct MButton {
    pub color: Color,
    pub color_hotkey: Color,
    pub color_focused: Color,
    pub color_focused_hotkey: Color,
    pub color_pressed: Color,
    pub color_disabled: Color,
}

/// The look of a menu-style input line.
#[derive(Clone, Copy, PartialEq, Eq, Debug)]
pub struct MInputLine {
    pub color: Color,
    pub color_focused: Color,
    pub color_disabled: Color,
}

impl MInputLine {
    pub fn new() -> (res: MInputLine)
        ensures
            res == (MInputLine {
                color: (Color { fg: Fg::Black, bg: Bg::Cyan }),
                color_focused: (Color { fg: Fg::Black, bg: Bg::Cyan }),
                color_disabled: (Color { fg: Fg::DarkGray, bg: Bg::Cyan }),
            }),
    {
        MInputLine {
            color: (Color { fg: Fg::Black, bg: Bg::Cyan }),
            color_focused: (Color { fg: Fg::Black, bg: Bg::Cyan }),
            color_disabled: (Color { fg: Fg::DarkGray, bg: Bg::Cyan }),
        }
    }
}

/// The look of a text-mode input line.
#[derive(Clone, Copy, PartialEq, Eq, Debug)]
pub struct TInputLine {
    pub color: Color,
    pub color_focused: Color,
    pub color_disabled: Color,
    pub color_ellipsis: Color,
}

impl TInputLine {
    pub fn new() -> (res: TInputLine)
        ensures
            res == (TInputLine {
                color: (Color { fg: Fg::White, bg: Bg::Blue }),
                color_focused: (Color { fg: Fg::White, bg: Bg::Blue }),
                color_disabled: (Color { fg: Fg::LightGray, bg: Bg::Blue }),
                color_ellipsis: (Color { fg: Fg::BrightGreen, bg: Bg::Blue }),
            }),
    {
        TInputLine {
            color: (Color { fg: Fg::White, bg: Bg::Blue }),
            color_focused: (Color { fg: Fg::White, bg: Bg::Blue }),
            color_disabled: (Color { fg: Fg::LightGray, bg: Bg::Blue }),
            color_ellipsis: (Color { fg: Fg::BrightGreen, bg: Bg::Blue }),
        }
    }
}

/// An editable line of text.
pub struct InputLine {
    pub line_edit: LineEdit,
}

impl InputLine {
    pub fn new() -> (res: InputLine)
        ensures
            res.line_edit.wf(),
            res.line_edit@.text.len() == 0,
    {
        InputLine { line_edit: LineEdit::new() }
    }

    pub fn is_numeric(&self) -> (res: bool)
        ensures
            res == self.line_edit@.is_numeric,
    {
        self.line_edit.is_numeric()
    }

    pub fn text(&self) -> (res: &Vec<char>)
        ensures
            res@ == self.line_edit@.text,
    {
        self.line_edit.text()
    }
}

/// A piece of text.
#[derive(Clone, PartialEq, Eq, Debug)]
pub struct StaticText {
    pub text: Vec<char>,
    pub text_align: TextAlign,
    pub text_wrapping: TextWrapping,
    pub color: Color,
}

impl StaticText {
    /// Empty, left-aligned, unwrapped, light gray.
    pub fn new() -> (res: StaticText)
        ensures
            res.text@.len() == 0,
            res.text_align == TextAlign::Left,
            res.text_wrapping == TextWrapping::NoWrap,
            res.color == (Color { fg: Fg::LightGray, bg: Bg::Transparent }),
    {
        StaticText {
            text: Vec::new(),
            text_align: TextAlign::Left,
            text_wrapping: TextWrapping::NoWrap,
            color: (Color { fg: Fg::LightGray, bg: Bg::Transparent }),
        }
    }
}

/// Shows a given view, or else its text as a piece of text.
#[derive(Clone, PartialEq, Eq, Debug)]
pub struct ContentPresenter {
    pub content: Option<EntityId>,
    pub text: Vec<char>,
    pub text_color: Color,
    pub text_wrapping: TextWrapping,
    pub actual_child: Option<EntityId>,
}

/// What the child of a content presenter is to be.
#[derive(Clone, Copy, PartialEq, Eq, Debug, Structural)]
pub enum PresenterChild {
    /// The given content view.
    Content(EntityId),
    /// A new piece of text showing the presenter's text.
    Text,
    /// No child.
    Empty,
}

/// What a content presenter does after its text changed.
#[derive(Clone, Copy, PartialEq, Eq, Debug, Structural)]
pub enum TextUpdate {
    /// Nothing: it shows a content view.
    Nothing,
    /// Pass the text to the piece of text it shows.
    SetChildText(EntityId),
    /// Rebuild its child.
    Rebuild,
}

impl ContentPresenter {
    pub fn new() -> (res: ContentPresenter)
        ensures
            res.content is None,
            res.text@.len() == 0,
            res.text_color == (Color { fg: Fg::LightGray, bg: Bg::Transparent }),
            res.text_wrapping == TextWrapping::NoWrap,
            res.actual_child is None,
    {
        ContentPresenter {
            content: None,
            text: Vec::new(),
            text_color: (Color { fg: Fg::LightGray, bg: Bg::Transparent }),
            text_wrapping: TextWrapping::NoWrap,
            actual_child: None,
        }
    }

    /// The child to show: the content view, else a piece of text when there
    /// is text, else none.
    pub fn new_child(&self) -> (res: PresenterChild)
        ensures
            res == (if self.content is Some {
                PresenterChild::Content(self.content.unwrap())
            } else if self.text@.len() > 0 {
                PresenterChild::Text
            } else {
                PresenterChild::Empty
            }),
    {
        match self.content {
            Some(c) => PresenterChild::Content(c),
            None => if self.text.len() > 0 {
                PresenterChild::Text
            } else {
                PresenterChild::Empty
            },
        }
    }

    /// Sets the text and says what follows from it.
    pub fn set_text(&mut self, value: Vec<char>) -> (res: TextUpdate)
        ensures
            final(self).text@ == value@,
            final(self).content == old(self).content,
            final(self).actual_child == old(self).actual_child,
            final(self).text_color == old(self).text_color,
            final(self).text_wrapping == old(self).text_wrapping,
            res == (if old(self).content is Some {
                TextUpdate::Nothing
            } else if old(self).actual_child is Some && value@.len() > 0 {
                TextUpdate::SetChildText(old(self).actual_child.unwrap())
            } else {
                TextUpdate::Rebuild
            }),
    {
        self.text = value;
        if self.content.is_some() {
            return TextUpdate::Nothing;
        }
        match self.actual_child {
            Some(c) => if self.text.len() > 0 {
                TextUpdate::SetChildText(c)
            } else {
                TextUpdate::Rebuild
            },
            None => TextUpdate::Rebuild,
        }
    }

    /// The piece of text made to show the presenter's text when it has no
    /// content view: that text, in the presenter's text color and
    /// wrapping, left-aligned.
    pub fn text_child(&self) -> (res: StaticText)
        ensures
            res.text@ == self.text@,
            res.color == self.text_color,
            res.text_wrapping == self.text_wrapping,
            res.text_align == TextAlign::Left,
    {
        let mut st = StaticText::new();
        st.text = self.text.clone();
        st.color = self.text_color;
        st.text_wrapping = self.text_wrapping;
        st
    }

    /// The piece of text whose style follows the presenter's text style: the
    /// child, unless a content view is shown.
    pub fn styled_child(&self) -> (res: Option<EntityId>)
        ensures
            res == (if self.content is None { self.actual_child } else { None }),
    {
        if self.content.is_none() { self.actual_child } else { None }
    }
}

/// A frame with a header around a content.
#[derive(Clone, PartialEq, Eq, Debug)]
pub struct GroupBox {
    pub double: bool,
    pub color: Color,
    pub header_align: ViewHAlign,
    pub content: Option<EntityId>,
    pub text: Vec<char>,
    pub text_color: Color,
    pub header: Option<EntityId>,
    pub header_text: Vec<char>,
    pub part_border: Option<EntityId>,
    pub part_header_background: Option<EntityId>,
    pub part_content_presenter: Option<EntityId>,
    pub part_header_presenter: Option<EntityId>,
}

impl GroupBox {
    pub fn new() -> (res: GroupBox)
        ensures
            !res.double,
            res.color == (Color { fg: Fg::LightGray, bg: Bg::Transparent }),
            res.header_align == ViewHAlign::Left,
            res.content is None,
            res.text@.len() == 0,
            res.text_color == (Color { fg: Fg::LightGray, bg: Bg::Transparent }),
            res.header is None,
            res.header_text@.len() == 0,
            res.part_border is None,
            res.part_header_background is None,
            res.part_content_presenter is None,
            res.part_header_presenter is None,
    {
        GroupBox {
            double: false,
            color: (Color { fg: Fg::LightGray, bg: Bg::Transparent }),
            header_align: ViewHAlign::Left,
            content: None,
            text: Vec::new(),
            text_color: (Color { fg: Fg::LightGray, bg: Bg::Transparent }),
            header: None,
            header_text: Vec::new(),
            part_border: None,
            part_header_background: None,
            part_content_presenter: None,
            part_header_presenter: None,
        }
    }
}

/// The parts a group box is built from, with the properties each gets: a
/// border holding a content presenter for the box's text, and over it a
/// header background holding a presenter for the header text. The border
/// and the header background are the children of an adorners panel, in
/// that order.
#[derive(Clone, PartialEq, Eq, Debug)]
pub struct GroupBoxParts {
    pub border: Border,
    pub border_tab_index: i8,
    pub content_presenter: ContentPresenter,
    pub header_background: Background,
    pub header_background_tab_index: i8,
    pub header_background_margin: Thickness,
    pub header_background_h_align: ViewHAlign,
    pub header_presenter: ContentPresenter,
    pub header_presenter_margin: Thickness,
    pub header_presenter_v_align: ViewVAlign,
}

/// One column of margin left and right.
pub open spec fn side_margin() -> Thickness {
    Thickness { l: 1, t: 0, r: 1, b: 0 }
}

impl GroupBox {
    /// The parts of this group box: the border takes the box's line style
    /// and color and comes second in the tab order; the content presenter
    /// wraps the box's text in the text color; the header background takes
    /// the box's color, fits its content, comes first in the tab order and
    /// is aligned as the header is, one column in from each side; the header
    /// presenter shows the header text in the box's color at the top, one
    /// column in from each side.
    pub fn parts(&self) -> (res: GroupBoxParts)
        ensures
            res.border == (Border { double: self.double, color: self.color }),
            res.border_tab_index == 1,
            res.content_presenter.content is None,
            res.content_presenter.text@ == self.text@,
            res.content_presenter.text_color == self.text_color,
            res.content_presenter.text_wrapping == TextWrapping::Wrap,
            res.content_presenter.actual_child is None,
            res.header_background.pattern@ == seq!['\u{2591}'],
            res.header_background.color == self.color,
            res.header_background.fit_to_content,
            res.header_background_tab_index == 0,
            res.header_background_margin == side_margin(),
            res.header_background_h_align == self.header_align,
            res.header_presenter.content is None,
            res.header_presenter.text@ == self.header_text@,
            res.header_presenter.text_color == self.color,
            res.header_presenter.text_wrapping == TextWrapping::NoWrap,
            res.header_presenter.actual_child is None,
            res.header_presenter_margin == side_margin(),
            res.header_presenter_v_align == ViewVAlign::Top,
    {
        let mut border = Border::new();
        border.double = self.double;
        border.color = self.color;
        let mut content_presenter = ContentPresenter::new();
        content_presenter.text_wrapping = TextWrapping::Wrap;
        content_presenter.text = self.text.clone();
        content_presenter.text_color = self.text_color;
        let mut header_background = Background::new();
        header_background.fit_to_content = true;
        header_background.color = self.color;
        let mut header_presenter = ContentPresenter::new();
        header_presenter.text = self.header_text.clone();
        header_presenter.text_color = self.color;
        GroupBoxParts {
            border,
            border_tab_index: 1,
            content_presenter,
            header_background,
            header_background_tab_index: 0,
            header_background_margin: Thickness::new(1, 0, 1, 0),
            header_background_h_align: self.header_align,
            header_presenter,
            header_presenter_margin: Thickness::new(1, 0, 1, 0),
            header_presenter_v_align: ViewVAlign::Top,
        }
    }
}

impl GroupBox {
    /// Records the views the box was built from.
    pub fn set_parts(&mut self, border: EntityId, header_background: EntityId, content_presenter: EntityId, header_presenter: EntityId)
        ensures
            final(self).part_border == Some(border),
            final(self).part_header_background == Some(header_background),
            final(self).part_content_presenter == Some(content_presenter),
            final(self).part_header_presenter == Some(header_presenter),
            final(self).double == old(self).double,
            final(self).color == old(self).color,
            final(self).header_align == old(self).header_align,
            final(self).content == old(self).content,
            final(self).text@ == old(self).text@,
            final(self).text_color == old(self).text_color,
            final(self).header == old(self).header,
            final(self).header_text@ == old(self).header_text@,
    {
        self.part_border = Some(border);
        self.part_header_background = Some(header_background);
        self.part_content_presenter = Some(content_presenter);
        self.part_header_presenter = Some(header_presenter);
    }

    /// Passes the box's properties on to its parts, as each property setter
    /// does: line style and color to the border; color and header alignment
    /// to the header background; content, text and text color to the
    /// content presenter; header, header text and color to the header
    /// presenter. The rest of the parts stays as it is.
    pub fn sync_parts(&self, parts: &mut GroupBoxParts)
        ensures
            final(parts).border == (Border { double: self.double, color: self.color }),
            final(parts).header_background.color == self.color,
            final(parts).header_background.pattern@ == old(parts).header_background.pattern@,
            final(parts).header_background.fit_to_content == old(parts).header_background.fit_to_content,
            final(parts).header_background_h_align == self.header_align,
            final(parts).content_presenter.content == self.content,
            final(parts).content_presenter.text@ == self.text@,
            final(parts).content_presenter.text_color == self.text_color,
            final(parts).content_presenter.text_wrapping == old(parts).content_presenter.text_wrapping,
            final(parts).content_presenter.actual_child == old(parts).content_presenter.actual_child,
            final(parts).header_presenter.content == self.header,
            final(parts).header_presenter.text@ == self.header_text@,
            final(parts).header_presenter.text_color == self.color,
            final(parts).header_presenter.text_wrapping == old(parts).header_presenter.text_wrapping,
            final(parts).header_presenter.actual_child == old(parts).header_presenter.actual_child,
            final(parts).border_tab_index == old(parts).border_tab_index,
            final(parts).header_background_tab_index == old(parts).header_background_tab_index,
            final(parts).header_background_margin == old(parts).header_background_margin,
            final(parts).header_presenter_margin == old(parts).header_presenter_margin,
            final(parts).header_presenter_v_align == old(parts).header_presenter_v_align,
    {
        parts.border.double = self.double;
        parts.border.color = self.color;
        parts.header_background.color = self.color;
        parts.header_background_h_align = self.header_align;
        parts.content_presenter.content = self.content;
        parts.content_presenter.text = self.text.clone();
        parts.content_presenter.text_color = self.text_color;
        parts.header_presenter.content = self.header;
        parts.header_presenter.text = self.header_text.clone();
        parts.header_presenter.text_color = self.color;
    }
}

/// How a shadowed button looks when it is pressed or released: its
/// shadow and its offset (a pressed button moves into its shadow).
pub fn t_button_pressed_look(pressed: bool) -> (res: (Thickness, Vector))
    ensures
        res.0.wf(),
        pressed ==> res == (Thickness { l: 0, t: 0, r: 0, b: 0 }, Vector { x: 1, y: 0 }),
        !pressed ==> res == (Thickness { l: 0, t: 0, r: 1, b: 1 }, Vector { x: 0, y: 0 }),
{
    if pressed {
        (Thickness::all(0), Vector { x: 1, y: 0 })
    } else {
        (Thickness::new(0, 0, 1, 1), Vector::null())
    }
}

/// The name of a foreground color in color text.
pub open spec fn fg_name(f: Fg) -> Seq<char> {
    match f {
        Fg::Black => seq!['B', 'l', 'a', 'c', 'k'],
        Fg::Red => seq!['R', 'e', 'd'],
        Fg::Green => seq!['G', 'r', 'e', 'e', 'n'],
        Fg::Brown => seq!['B', 'r', 'o', 'w', 'n'],
        Fg::Blue => seq!['B', 'l', 'u', 'e'],
        Fg::Magenta => seq!['M', 'a', 'g', 'e', 'n', 't', 'a'],
        Fg::Cyan => seq!['C', 'y', 'a', 'n'],
        Fg::LightGray => seq!['L', 'i', 'g', 'h', 't', 'G', 'r', 'a', 'y'],
        Fg::DarkGray => seq!['D', 'a', 'r', 'k', 'G', 'r', 'a', 'y'],
        Fg::BrightRed => seq!['B', 'r', 'i', 'g', 'h', 't', 'R', 'e', 'd'],
        Fg::BrightGreen => seq!['B', 'r', 'i', 'g', 'h', 't', 'G', 'r', 'e', 'e', 'n'],
        Fg::Yellow => seq!['Y', 'e', 'l', 'l', 'o', 'w'],
        Fg::BrightBlue => seq!['B', 'r', 'i', 'g', 'h', 't', 'B', 'l', 'u', 'e'],
        Fg::BrightMagenta => seq!['B', 'r', 'i', 'g', 'h', 't', 'M', 'a', 'g', 'e', 'n', 't', 'a'],
        Fg::BrightCyan => seq!['B', 'r', 'i', 'g', 'h', 't', 'C', 'y', 'a', 'n'],
        Fg::White => seq!['W', 'h', 'i', 't', 'e'],
    }
}

/// The name of a background color in color text (`None` for a
/// transparent background).
pub open spec fn bg_name(b: Bg) -> Seq<char> {
    match b {
        Bg::Transparent => seq!['N', 'o', 'n', 'e'],
        Bg::Black => seq!['B', 'l', 'a', 'c', 'k'],
        Bg::Red => seq!['R', 'e', 'd'],
        Bg::Green => seq!['G', 'r', 'e', 'e', 'n'],
        Bg::Brown => seq!['B', 'r', 'o', 'w', 'n'],
        Bg::Blue => seq!['B', 'l', 'u', 'e'],
        Bg::Magenta => seq!['M', 'a', 'g', 'e', 'n', 't', 'a'],
        Bg::Cyan => seq!['C', 'y', 'a', 'n'],
        Bg::LightGray => seq!['L', 'i', 'g', 'h', 't', 'G', 'r', 'a', 'y'],
    }
}

/// The foreground color named `t`.
pub open spec fn fg_named(t: Seq<char>) -> Option<Fg> {
    if t == fg_name(Fg::Black) {
        Some(Fg::Black)
    } else if t == fg_name(Fg::Red) {
        Some(Fg::Red)
    } else if t == fg_name(Fg::Green) {
        Some(Fg::Green)
    } else if t == fg_name(Fg::Brown) {
        Some(Fg::Brown)
    } else if t == fg_name(Fg::Blue) {
        Some(Fg::Blue)
    } else if t == fg_name(Fg::Magenta) {
        Some(Fg::Magenta)
    } else if t == fg_name(Fg::Cyan) {
        Some(Fg::Cyan)
    } else if t == fg_name(Fg::LightGray) {
        Some(Fg::LightGray)
    } else if t == fg_name(Fg::DarkGray) {
        Some(Fg::DarkGray)
    } else if t == fg_name(Fg::BrightRed) {
        Some(Fg::BrightRed)
    } else if t == fg_name(Fg::BrightGreen) {
        Some(Fg::BrightGreen)
    } else if t == fg_name(Fg::Yellow) {
        Some(Fg::Yellow)
    } else if t == fg_name(Fg::BrightBlue) {
        Some(Fg::BrightBlue)
    } else if t == fg_name(Fg::BrightMagenta) {
        Some(Fg::BrightMagenta)
    } else if t == fg_name(Fg::BrightCyan) {
        Some(Fg::BrightCyan)
    } else if t == fg_name(Fg::White) {
        Some(Fg::White)
    } else {
        None
    }
}

/// The background color named `t`.
pub open spec fn bg_named(t: Seq<char>) -> Option<Bg> {
    if t == bg_name(Bg::Transparent) {
        Some(Bg::Transparent)
    } else if t == bg_name(Bg::Black) {
        Some(Bg::Black)
    } else if t == bg_name(Bg::Red) {
        Some(Bg::Red)
    } else if t == bg_name(Bg::Green) {
        Some(Bg::Green)
    } else if t == bg_name(Bg::Brown) {
        Some(Bg::Brown)
    } else if t == bg_name(Bg::Blue) {
        Some(Bg::Blue)
    } else if t == bg_name(Bg::Magenta) {
        Some(Bg::Magenta)
    } else if t == bg_name(Bg::Cyan) {
        Some(Bg::Cyan)
    } else if t == bg_name(Bg::LightGray) {
        Some(Bg::LightGray)
    } else {
        None
    }
}

fn fg_name_exec(f: Fg) -> (res: Vec<char>)
    ensures
        res@ == fg_name(f),
{
    match f {
        Fg::Black => vec!['B', 'l', 'a', 'c', 'k'],
        Fg::Red => vec!['R', 'e', 'd'],
        Fg::Green => vec!['G', 'r', 'e', 'e', 'n'],
        Fg::Brown => vec!['B', 'r', 'o', 'w', 'n'],
        Fg::Blue => vec!['B', 'l', 'u', 'e'],
        Fg::Magenta => vec!['M', 'a', 'g', 'e', 'n', 't', 'a'],
        Fg::Cyan => vec!['C', 'y', 'a', 'n'],
        Fg::LightGray => vec!['L', 'i', 'g', 'h', 't', 'G', 'r', 'a', 'y'],
        Fg::DarkGray => vec!['D', 'a', 'r', 'k', 'G', 'r', 'a', 'y'],
        Fg::BrightRed => vec!['B', 'r', 'i', 'g', 'h', 't', 'R', 'e', 'd'],
        Fg::BrightGreen => vec!['B', 'r', 'i', 'g', 'h', 't', 'G', 'r', 'e', 'e', 'n'],
        Fg::Yellow => vec!['Y', 'e', 'l', 'l', 'o', 'w'],
        Fg::BrightBlue => vec!['B', 'r', 'i', 'g', 'h', 't', 'B', 'l', 'u', 'e'],
        Fg::BrightMagenta => vec!['B', 'r', 'i', 'g', 'h', 't', 'M', 'a', 'g', 'e', 'n', 't', 'a'],
        Fg::BrightCyan => vec!['B', 'r', 'i', 'g', 'h', 't', 'C', 'y', 'a', 'n'],
        Fg::White => vec!['W', 'h', 'i', 't', 'e'],
    }
}

fn bg_name_exec(b: Bg) -> (res: Vec<char>)
    ensures
        res@ == bg_name(b),
{
    match b {
        Bg::Transparent => vec!['N', 'o', 'n', 'e'],
        Bg::Black => vec!['B', 'l', 'a', 'c', 'k'],
        Bg::Red => vec!['R', 'e', 'd'],
        Bg::Green => vec!['G', 'r', 'e', 'e', 'n'],
        Bg::Brown => vec!['B', 'r', 'o', 'w', 'n'],
        Bg::Blue => vec!['B', 'l', 'u', 'e'],
        Bg::Magenta => vec!['M', 'a', 'g', 'e', 'n', 't', 'a'],
        Bg::Cyan => vec!['C', 'y', 'a', 'n'],
        Bg::LightGray => vec!['L', 'i', 'g', 'h', 't', 'G', 'r', 'a', 'y'],
    }
}

/// Whether `t[lo .. hi]` is `name`.
fn range_is(t: &Vec<char>, lo: usize, hi: usize, name: &Vec<char>) -> (res: bool)
    requires
        lo <= hi <= t.len(),
    ensures
        res == (t@.subrange(lo as int, hi as int) == name@),
{
    if hi - lo != name.len() {
        proof {
            assert(t@.subrange(lo as int, hi as int).len() != name@.len());
        }
        return false;
    }
    let mut k: usize = 0;
    while k < name.len()
        invariant
            lo <= hi <= t.len(),
            hi - lo == name.len(),
            k <= name.len(),
            forall|j: int| 0 <= j < k ==> t@[lo + j] == name@[j],
        decreases name.len() - k,
    {
        if t[lo + k] != name[k] {
            proof {
                assert(t@.subrange(lo as int, hi as int)[k as int] != name@[k as int]);
            }
            return false;
        }
        k = k + 1;
    }
    proof {
        assert(t@.subrange(lo as int, hi as int) =~= name@);
    }
    true
}

fn fg_from_name(t: &Vec<char>, lo: usize, hi: usize) -> (res: Option<Fg>)
    requires
        lo <= hi <= t.len(),
    ensures
        res == fg_named(t@.subrange(lo as int, hi as int)),
{
    if range_is(t, lo, hi, &fg_name_exec(Fg::Black)) {
        Some(Fg::Black)
    } else if range_is(t, lo, hi, &fg_name_exec(Fg::Red)) {
        Some(Fg::Red)
    } else if range_is(t, lo, hi, &fg_name_exec(Fg::Green)) {
        Some(Fg::Green)
    } else if range_is(t, lo, hi, &fg_name_exec(Fg::Brown)) {
        Some(Fg::Brown)
    } else if range_is(t, lo, hi, &fg_name_exec(Fg::Blue)) {
        Some(Fg::Blue)
    } else if range_is(t, lo, hi, &fg_name_exec(Fg::Magenta)) {
        Some(Fg::Magenta)
    } else if range_is(t, lo, hi, &fg_name_exec(Fg::Cyan)) {
        Some(Fg::Cyan)
    } else if range_is(t, lo, hi, &fg_name_exec(Fg::LightGray)) {
        Some(Fg::LightGray)
    } else if range_is(t, lo, hi, &fg_name_exec(Fg::DarkGray)) {
        Some(Fg::DarkGray)
    } else if range_is(t, lo, hi, &fg_name_exec(Fg::BrightRed)) {
        Some(Fg::BrightRed)
    } else if range_is(t, lo, hi, &fg_name_exec(Fg::BrightGreen)) {
        Some(Fg::BrightGreen)
    } else if range_is(t, lo, hi, &fg_name_exec(Fg::Yellow)) {
        Some(Fg::Yellow)
    } else if range_is(t, lo, hi, &fg_name_exec(Fg::BrightBlue)) {
        Some(Fg::BrightBlue)
    } else if range_is(t, lo, hi, &fg_name_exec(Fg::BrightMagenta)) {
        Some(Fg::BrightMagenta)
    } else if range_is(t, lo, hi, &fg_name_exec(Fg::BrightCyan)) {
        Some(Fg::BrightCyan)
    } else if range_is(t, lo, hi, &fg_name_exec(Fg::White)) {
        Some(Fg::White)
    } else {
        None
    }
}

fn bg_from_name(t: &Vec<char>, lo: usize, hi: usize) -> (res: Option<Bg>)
    requires
        lo <= hi <= t.len(),
    ensures
        res == bg_named(t@.subrange(lo as int, hi as int)),
{
    if range_is(t, lo, hi, &bg_name_exec(Bg::Transparent)) {
        Some(Bg::Transparent)
    } else if range_is(t, lo, hi, &bg_name_exec(Bg::Black)) {
        Some(Bg::Black)
    } else if range_is(t, lo, hi, &bg_name_exec(Bg::Red)) {
        Some(Bg::Red)
    } else if range_is(t, lo, hi, &bg_name_exec(Bg::Green)) {
        Some(Bg::Green)
    } else if range_is(t, lo, hi, &bg_name_exec(Bg::Brown)) {
        Some(Bg::Brown)
    } else if range_is(t, lo, hi, &bg_name_exec(Bg::Blue)) {
        Some(Bg::Blue)
    } else if range_is(t, lo, hi, &bg_name_exec(Bg::Magenta)) {
        Some(Bg::Magenta)
    } else if range_is(t, lo, hi, &bg_name_exec(Bg::Cyan)) {
        Some(Bg::Cyan)
    } else if range_is(t, lo, hi, &bg_name_exec(Bg::LightGray)) {
        Some(Bg::LightGray)
    } else {
        None
    }
}

/// Color text is not what a color is read from.
#[derive(Clone, Copy, PartialEq, Eq, Debug, Structural)]
pub enum ColorError {
    InvalidColor,
}

/// `i` is the only `/` of `s`.
pub open spec fn only_slash(s: Seq<char>, i: int) -> bool {
    &&& 0 <= i < s.len()
    &&& s[i] == '/'
    &&& forall|j: int| 0 <= j < s.len() && j != i ==> s[j] != '/'
}

/// What color text stands for: the empty text for no color, else a
/// foreground name, `/` and a background name; `None` for any other text.
pub open spec fn spec_parse_color(s: Seq<char>) -> Option<Option<Color>> {
    if s.len() == 0 {
        Some(None)
    } else if exists|i: int| only_slash(s, i) {
        let i = choose|i: int| only_slash(s, i);
        match (fg_named(s.subrange(0, i)), bg_named(s.subrange(i + 1, s.len() as int))) {
            (Some(f), Some(b)) => Some(Some(Color { fg: f, bg: b })),
            _ => None,
        }
    } else {
        None
    }
}

/// The text of a color: empty for none, else its foreground and
/// background names with `/` between.
pub open spec fn spec_color_text(c: Option<Color>) -> Seq<char> {
    match c {
        None => Seq::empty(),
        Some(c) => fg_name(c.fg) + seq!['/'] + bg_name(c.bg),
    }
}

/// Reads a color from its text.
pub fn parse_color(s: &Vec<char>) -> (res: Result<Option<Color>, ColorError>)
    ensures
        match spec_parse_color(s@) {
            Some(c) => res == Ok::<Option<Color>, ColorError>(c),
            None => res == Err::<Option<Color>, ColorError>(ColorError::InvalidColor),
        },
{
    if s.len() == 0 {
        return Ok(None);
    }
    let mut first: Option<usize> = None;
    let mut second = false;
    let mut k: usize = 0;
    while k < s.len()
        invariant
            k <= s.len(),
            match first {
                None => forall|j: int| 0 <= j < k ==> s@[j] != '/',
                Some(i) => i < k && s@[i as int] == '/' && (forall|j: int| 0 <= j < i ==> s@[j] != '/')
                    && (second <==> exists|j: int| i < j < k && s@[j] == '/'),
            },
            first is None ==> !second,
        decreases s.len() - k,
    {
        if s[k] == '/' {
            match first {
                None => {
                    first = Some(k);
                },
                Some(_) => {
                    second = true;
                },
            }
        }
        k = k + 1;
    }
    match first {
        None => {
            proof {
                assert(!exists|i: int| only_slash(s@, i));
            }
            Err(ColorError::InvalidColor)
        },
        Some(i) => {
            if second {
                proof {
                    assert forall|m: int| !only_slash(s@, m) by {
                        let j = choose|j: int| i < j < s.len() && s@[j] == '/';
                        if only_slash(s@, m) {
                            assert(m == i as int || s@[i as int] != '/');
                            assert(m == j || s@[j] != '/');
                        }
                    }
                }
                return Err(ColorError::InvalidColor);
            }
            proof {
                assert(only_slash(s@, i as int));
                let c = choose|m: int| only_slash(s@, m);
                assert(c == i as int);
            }
            let fg = fg_from_name(s, 0, i);
            let bg = bg_from_name(s, i + 1, s.len());
            match (fg, bg) {
                (Some(f), Some(b)) => Ok(Some(Color { fg: f, bg: b })),
                _ => Err(ColorError::InvalidColor),
            }
        },
    }
}

/// The text of a color.
pub fn color_text(c: Option<Color>) -> (res: Vec<char>)
    ensures
        res@ == spec_color_text(c),
{
    match c {
        None => Vec::new(),
        Some(c) => {
            let mut res = fg_name_exec(c.fg);
            res.push('/');
            let b = bg_name_exec(c.bg);
            let mut k: usize = 0;
            let ghost start = res@;
            while k < b.len()
                invariant
                    k <= b.len(),
                    res@ == start + b@.subrange(0, k as int),
                    start == fg_name(c.fg) + seq!['/'],
                    b@ == bg_name(c.bg),
                decreases b.len() - k,
            {
                res.push(b[k]);
                k = k + 1;
                proof {
                    assert(b@.subrange(0, k as int) =~= b@.subrange(0, k - 1 as int).push(b@[k - 1]));
                }
            }
            proof {
                assert(b@.subrange(0, b.len() as int) =~= b@);
            }
            res
        },
    }
}


/// A foreground name is read back as its color, and holds no `/`.
pub proof fn lemma_fg_name(f: Fg)
    ensures
        fg_named(fg_name(f)) == Some(f),
        forall|i: int| 0 <= i < fg_name(f).len() ==> fg_name(f)[i] != '/',
{
    match f {
        Fg::Black => {},
        Fg::Red => {},
        Fg::Green => {},
        Fg::Brown => {},
        Fg::Blue => {},
        Fg::Magenta => {},
        Fg::Cyan => {},
        Fg::LightGray => {},
        Fg::DarkGray => {},
        Fg::BrightRed => {},
        Fg::BrightGreen => {},
        Fg::Yellow => {},
        Fg::BrightBlue => {},
        Fg::BrightMagenta => {},
        Fg::BrightCyan => {},
        Fg::White => {},
    }
}

/// A background name is read back as its color, and holds no `/`.
pub proof fn lemma_bg_name(b: Bg)
    ensures
        bg_named(bg_name(b)) == Some(b),
        forall|i: int| 0 <= i < bg_name(b).len() ==> bg_name(b)[i] != '/',
{
    match b {
        Bg::Transparent => {},
        Bg::Black => {},
        Bg::Red => {},
        Bg::Green => {},
        Bg::Brown => {},
        Bg::Blue => {},
        Bg::Magenta => {},
        Bg::Cyan => {},
        Bg::LightGray => {},
    }
}

/// The text of a color reads back as that color.
pub proof fn law_color_text_round_trip(c: Option<Color>)
    ensures
        spec_parse_color(spec_color_text(c)) == Some(c),
{
    if let Some(c) = c {
        let s = spec_color_text(Some(c));
        let f = fg_name(c.fg);
        let b = bg_name(c.bg);
        lemma_fg_name(c.fg);
        lemma_bg_name(c.bg);
        let i = f.len() as int;
        assert(s[i] == '/');
        assert forall|j: int| 0 <= j < s.len() && j != i implies s[j] != '/' by {
            if j < i {
                assert(s[j] == f[j]);
            } else {
                assert(s[j] == b[j - i - 1]);
            }
        }
        assert(only_slash(s, i));
        let m = choose|m: int| only_slash(s, m);
        assert(m == i);
        assert(s.subrange(0, i) =~= f);
        assert(s.subrange(i + 1, s.len() as int) =~= b);
    }
}
} // verus!
