//! Text measuring on the terminal: character and text widths, grapheme
//! clusters, hotkey labels, and the text and view alignment enums.
//!
//! Text is a sequence of `char`s; positions in it are `char` indices.
use vstd::prelude::*;
use unicode_width::UnicodeWidthChar;
use crate::geom::{HAlign, VAlign, wadd};

verus! {

/// The width that `unicode_width` gives to `c` (`None` for a control character).
pub uninterp spec fn unicode_width_of(c: char) -> Option<usize>;

/// Calls `<char as unicode_width::UnicodeWidthChar>::width`.
///
/// Its result is named by `unicode_width_of`; as the crate's source shows,
/// characters below U+0020 and from U+007F below U+00A0 are control characters
/// (`None`), the other ASCII characters have width 1, and every other width is
/// read from a `u8` table. The table itself is not stated.
#[verifier::external_body]
pub(crate) fn unicode_char_width(c: char) -> (res: Option<usize>)
    ensures
        res == unicode_width_of(c),
        (c as u32) < 0x20 ==> res is None,
        0x20 <= (c as u32) && (c as u32) < 0x7F ==> res == Some(1usize),
        0x7F <= (c as u32) && (c as u32) < 0xA0 ==> res is None,
        0xA0 <= (c as u32) ==> res is Some && res.unwrap() <= 255,
{
    c.width()
}

/// The display width of a character: `0` for `'\0'` and control characters.
pub open spec fn spec_char_width(c: char) -> i16 {
    if c == '\0' {
        0
    } else {
        match unicode_width_of(c) {
            Some(w) => w as i16,
            None => 0,
        }
    }
}

/// The display width of a character: `0` for `'\0'` and control characters.
pub fn char_width(c: char) -> (res: i16)
    ensures
        res == spec_char_width(c),
        0 <= res <= 255,
{
    if c == '\0' {
        0
    } else {
        match unicode_char_width(c) {
            Some(w) => w as i16,
            None => 0,
        }
    }
}

/// The wrapping sum of the widths of the characters of `s`.
pub open spec fn spec_text_width(s: Seq<char>) -> i16
    decreases s.len(),
{
    if s.len() == 0 {
        0
    } else {
        wadd(spec_text_width(s.drop_last()), spec_char_width(s.last()))
    }
}

/// The width of `text[start .. end]`.
pub fn text_width_range(text: &Vec<char>, start: usize, end: usize) -> (res: i16)
    requires
        start <= end <= text.len(),
    ensures
        res == spec_text_width(text@.subrange(start as int, end as int)),
{
    let mut w: i16 = 0;
    let mut i = start;
    while i < end
        invariant
            start <= i <= end <= text.len(),
            w == spec_text_width(text@.subrange(start as int, i as int)),
        decreases end - i,
    {
        assert(text@.subrange(start as int, i + 1).drop_last() =~= text@.subrange(
            start as int,
            i as int,
        ));
        w = w.wrapping_add(char_width(text[i]));
        i = i + 1;
    }
    w
}

/// The width of `text`.
pub fn text_width(text: &Vec<char>) -> (res: i16)
    ensures
        res == spec_text_width(text@),
{
    assert(text@.subrange(0, text.len() as int) =~= text@);
    text_width_range(text, 0, text.len())
}

/// Whether a grapheme cluster starts at `i` in `s[lo .. ]`: at `lo`, and at
/// every character of non-zero width (zero-width characters join the cluster
/// before them).
pub open spec fn is_gstart(s: Seq<char>, lo: int, i: int) -> bool {
    i == lo || spec_char_width(s[i]) != 0
}

/// The first cluster start in `i .. hi` within `s[lo .. hi]`, or `hi`.
pub open spec fn next_gstart(s: Seq<char>, lo: int, i: int, hi: int) -> int
    decreases hi - i,
{
    if i >= hi {
        hi
    } else if is_gstart(s, lo, i) {
        i
    } else {
        next_gstart(s, lo, i + 1, hi)
    }
}

/// The last cluster start in `lo ..= i` within `s[lo .. ]`.
pub open spec fn prev_gstart(s: Seq<char>, lo: int, i: int) -> int
    decreases i - lo,
{
    if i <= lo {
        lo
    } else if is_gstart(s, lo, i) {
        i
    } else {
        prev_gstart(s, lo, i - 1)
    }
}

/// A grapheme cluster `start .. end` of a text and its display width.
#[derive(Clone, Copy, PartialEq, Eq, Debug, Structural)]
pub struct Grapheme {
    pub start: usize,
    pub end: usize,
    pub width: i16,
}

/// The grapheme clusters of `s[lo .. hi]`, in order.
pub open spec fn spec_graphemes(s: Seq<char>, lo: int, hi: int) -> Seq<Grapheme>
    decreases hi - lo,
{
    if lo >= hi {
        Seq::empty()
    } else {
        let e = next_gstart(s, lo, lo + 1, hi);
        proof {
            lemma_next_gstart_bounds(s, lo, lo + 1, hi);
        }
        seq![Grapheme { start: lo as usize, end: e as usize, width: spec_text_width(s.subrange(lo, e)) }]
            + spec_graphemes(s, e, hi)
    }
}

pub proof fn lemma_next_gstart_bounds(s: Seq<char>, lo: int, i: int, hi: int)
    requires
        i <= hi,
    ensures
        i <= next_gstart(s, lo, i, hi) <= hi,
        next_gstart(s, lo, i, hi) == hi || is_gstart(s, lo, next_gstart(s, lo, i, hi)),
        forall|j: int| i <= j < next_gstart(s, lo, i, hi) ==> !is_gstart(s, lo, j),
    decreases hi - i,
{
    if i < hi && !is_gstart(s, lo, i) {
        lemma_next_gstart_bounds(s, lo, i + 1, hi);
    }
}

pub proof fn lemma_prev_gstart_bounds(s: Seq<char>, lo: int, i: int)
    requires
        lo <= i,
    ensures
        lo <= prev_gstart(s, lo, i) <= i,
        is_gstart(s, lo, prev_gstart(s, lo, i)),
        forall|j: int| prev_gstart(s, lo, i) < j <= i ==> !is_gstart(s, lo, j),
    decreases i - lo,
{
    if i > lo && !is_gstart(s, lo, i) {
        lemma_prev_gstart_bounds(s, lo, i - 1);
    }
}

/// The end of the cluster that starts at `i` in `text[lo .. hi]`.
pub fn grapheme_end(text: &Vec<char>, lo: usize, i: usize, hi: usize) -> (res: usize)
    requires
        lo <= i < hi <= text.len(),
    ensures
        res == next_gstart(text@, lo as int, i + 1, hi as int),
        i < res <= hi,
{
    proof {
        lemma_next_gstart_bounds(text@, lo as int, i + 1, hi as int);
    }
    let mut j = i + 1;
    while j < hi && char_width(text[j]) == 0
        invariant
            lo <= i < j <= hi <= text.len(),
            next_gstart(text@, lo as int, j as int, hi as int) == next_gstart(
                text@,
                lo as int,
                i + 1,
                hi as int,
            ),
        decreases hi - j,
    {
        j = j + 1;
    }
    j
}

/// The start of the last cluster of `text[lo .. hi]`, for `lo < hi`.
pub fn last_grapheme_start(text: &Vec<char>, lo: usize, hi: usize) -> (res: usize)
    requires
        lo < hi <= text.len(),
    ensures
        res == prev_gstart(text@, lo as int, hi - 1),
        lo <= res < hi,
{
    proof {
        lemma_prev_gstart_bounds(text@, lo as int, hi - 1);
    }
    let mut j = hi - 1;
    while j > lo && char_width(text[j]) == 0
        invariant
            lo <= j < hi <= text.len(),
            prev_gstart(text@, lo as int, j as int) == prev_gstart(text@, lo as int, hi - 1),
        decreases j - lo,
    {
        j = j - 1;
    }
    j
}

/// The grapheme clusters of `text[lo .. hi]`, in order, with their widths.
pub fn graphemes(text: &Vec<char>, lo: usize, hi: usize) -> (res: Vec<Grapheme>)
    requires
        lo <= hi <= text.len(),
    ensures
        res@ == spec_graphemes(text@, lo as int, hi as int),
{
    let mut res: Vec<Grapheme> = Vec::new();
    let mut i = lo;
    while i < hi
        invariant
            lo <= i <= hi <= text.len(),
            res@ + spec_graphemes(text@, i as int, hi as int) == spec_graphemes(
                text@,
                lo as int,
                hi as int,
            ),
        decreases hi - i,
    {
        let e = grapheme_end(text, lo, i, hi);
        let w = text_width_range(text, i, e);
        proof {
            lemma_next_gstart_same(text@, lo as int, i as int, i + 1, hi as int);
        }
        res.push(Grapheme { start: i, end: e, width: w });
        proof {
            assert(res@ + spec_graphemes(text@, e as int, hi as int) =~= spec_graphemes(
                text@,
                lo as int,
                hi as int,
            ));
        }
        i = e;
    }
    res
}

pub proof fn lemma_next_gstart_same(s: Seq<char>, lo1: int, lo2: int, i: int, hi: int)
    requires
        lo1 < i,
        lo2 < i,
    ensures
        next_gstart(s, lo1, i, hi) == next_gstart(s, lo2, i, hi),
    decreases hi - i,
{
    if i < hi {
        lemma_next_gstart_same(s, lo1, lo2, i + 1, hi);
    }
}


/// The parts of `s[0 .. n]` between `'~'` characters, as index ranges.
pub open spec fn tilde_parts(s: Seq<char>, n: int) -> Seq<(int, int)>
    decreases n,
{
    if n <= 0 {
        seq![(0int, 0int)]
    } else {
        let r = tilde_parts(s, n - 1);
        if s[n - 1] == '~' {
            r.push((n, n))
        } else {
            r.update(r.len() - 1, (r.last().0, n))
        }
    }
}

pub proof fn lemma_tilde_parts(s: Seq<char>, n: int)
    requires
        0 <= n <= s.len(),
    ensures
        tilde_parts(s, n).len() >= 1,
        tilde_parts(s, n).last().1 == n,
        forall|k: int|
            0 <= k < tilde_parts(s, n).len() ==> 0 <= #[trigger] tilde_parts(s, n)[k].0
                <= tilde_parts(s, n)[k].1 <= n,
    decreases n,
{
    if n > 0 {
        lemma_tilde_parts(s, n - 1);
    }
}

/// The text shown for part `k` of a label: an empty inner part stands for a
/// literal `'~'` (written `~~`).
pub open spec fn part_width(s: Seq<char>, parts: Seq<(int, int)>, k: int) -> i16 {
    if k != 0 && k != parts.len() - 1 && parts[k].0 == parts[k].1 {
        spec_char_width('~')
    } else {
        spec_text_width(s.subrange(parts[k].0, parts[k].1))
    }
}

pub open spec fn parts_width(s: Seq<char>, parts: Seq<(int, int)>, k: int) -> i16
    decreases k,
{
    if k <= 0 {
        0
    } else {
        wadd(parts_width(s, parts, k - 1), part_width(s, parts, k - 1))
    }
}

/// The display width of a label, where `~` marks the hotkey and `~~` is a
/// literal tilde.
pub open spec fn spec_label_width(s: Seq<char>) -> i16 {
    let parts = tilde_parts(s, s.len() as int);
    parts_width(s, parts, parts.len() as int)
}

/// The lowercase form of `c` (the first character of `char::to_lowercase`).
pub uninterp spec fn lowercase_first(c: char) -> char;

/// Calls `char::to_lowercase` and takes its first character (the iterator
/// always yields at least one). Its result is named by `lowercase_first`; the
/// Unicode case tables are not stated.
#[verifier::external_body]
fn char_lowercase_first(c: char) -> (res: char)
    ensures
        res == lowercase_first(c),
{
    c.to_lowercase().next().unwrap()
}

/// The hotkey of a label: scanning the parts from `k` with the hotkey flag
/// `hotkey`, the first character shown while the flag is on.
pub open spec fn label_scan(s: Seq<char>, parts: Seq<(int, int)>, k: int, hotkey: bool) -> Option<char>
    decreases parts.len() - k,
{
    if k < 0 || k >= parts.len() {
        None
    } else {
        let (a, b) = parts[k];
        let first = k == 0;
        let last = k == parts.len() - 1;
        let h1 = if !first && a < b { !hotkey } else { hotkey };
        let shown: Option<char> = if !first && !last && a == b {
            Some('~')
        } else if a < b {
            Some(s[a])
        } else {
            None
        };
        if h1 && shown is Some {
            Some(lowercase_first(shown.unwrap()))
        } else {
            let h2 = if !first && a == b { !h1 } else { h1 };
            label_scan(s, parts, k + 1, h2)
        }
    }
}

pub open spec fn spec_label(s: Seq<char>) -> Option<char> {
    label_scan(s, tilde_parts(s, s.len() as int), 0, false)
}

/// The parts of `text` between `'~'` characters, as index ranges.
fn split_tilde(text: &Vec<char>) -> (res: Vec<(usize, usize)>)
    ensures
        res@.len() == tilde_parts(text@, text.len() as int).len(),
        forall|k: int|
            0 <= k < res@.len() ==> (#[trigger] res@[k]).0 as int == tilde_parts(
                text@,
                text.len() as int,
            )[k].0 && res@[k].1 as int == tilde_parts(text@, text.len() as int)[k].1,
{
    let mut res: Vec<(usize, usize)> = Vec::new();
    res.push((0, 0));
    let mut i: usize = 0;
    while i < text.len()
        invariant
            i <= text.len(),
            res@.len() == tilde_parts(text@, i as int).len(),
            forall|k: int|
                0 <= k < res@.len() ==> (#[trigger] res@[k]).0 as int == tilde_parts(
                    text@,
                    i as int,
                )[k].0 && res@[k].1 as int == tilde_parts(text@, i as int)[k].1,
        decreases text.len() - i,
    {
        proof {
            lemma_tilde_parts(text@, i as int);
        }
        if text[i] == '~' {
            res.push((i + 1, i + 1));
        } else {
            let last = res.len() - 1;
            let start = res[last].0;
            res.set(last, (start, i + 1));
        }
        i = i + 1;
    }
    res
}

/// The display width of a label, where `~` marks the hotkey and `~~` is a
/// literal tilde.
pub fn label_width(text: &Vec<char>) -> (res: i16)
    ensures
        res == spec_label_width(text@),
{
    let parts = split_tilde(text);
    proof {
        lemma_tilde_parts(text@, text.len() as int);
    }
    let ghost sp = tilde_parts(text@, text.len() as int);
    let n = parts.len();
    let mut width: i16 = 0;
    let mut k: usize = 0;
    while k < n
        invariant
            n == parts@.len() == sp.len(),
            k <= n,
            sp == tilde_parts(text@, text.len() as int),
            forall|j: int|
                0 <= j < sp.len() ==> 0 <= #[trigger] sp[j].0 <= sp[j].1 <= text.len(),
            forall|j: int|
                0 <= j < parts@.len() ==> (#[trigger] parts@[j]).0 as int == sp[j].0 && parts@[j].1 as int
                    == sp[j].1,
            width == parts_width(text@, sp, k as int),
        decreases n - k,
    {
        let (a, b) = parts[k];
        let w = if k != 0 && k != n - 1 && a == b {
            char_width('~')
        } else {
            text_width_range(text, a, b)
        };
        width = width.wrapping_add(w);
        k = k + 1;
    }
    width
}

/// The hotkey of a label: the lowercased character after the first single
/// `~`, if any.
pub fn label(text: &Vec<char>) -> (res: Option<char>)
    ensures
        res == spec_label(text@),
{
    let parts = split_tilde(text);
    proof {
        lemma_tilde_parts(text@, text.len() as int);
    }
    let ghost sp = tilde_parts(text@, text.len() as int);
    let n = parts.len();
    let mut hotkey = false;
    let mut k: usize = 0;
    while k < n
        invariant
            n == parts@.len() == sp.len(),
            k <= n,
            sp == tilde_parts(text@, text.len() as int),
            forall|j: int|
                0 <= j < sp.len() ==> 0 <= #[trigger] sp[j].0 <= sp[j].1 <= text.len(),
            forall|j: int|
                0 <= j < parts@.len() ==> (#[trigger] parts@[j]).0 as int == sp[j].0 && parts@[j].1 as int
                    == sp[j].1,
            label_scan(text@, sp, k as int, hotkey) == spec_label(text@),
        decreases n - k,
    {
        let (a, b) = parts[k];
        let first = k == 0;
        let last = k == n - 1;
        if !first && a < b {
            hotkey = !hotkey;
        }
        if hotkey {
            if !first && !last && a == b {
                return Some(char_lowercase_first('~'));
            } else if a < b {
                return Some(char_lowercase_first(text[a]));
            }
        }
        if !first && a == b {
            hotkey = !hotkey;
        }
        k = k + 1;
    }
    None
}

/// How text lines are broken to fit a width.
#[derive(Clone, Copy, PartialEq, Eq, Debug, Structural)]
pub enum TextWrapping {
    NoWrap,
    Wrap,
    WrapWithOverflow,
}

/// Horizontal alignment of text; `Justify` spreads the words over the line.
#[derive(Clone, Copy, PartialEq, Eq, Debug, Structural)]
pub enum TextAlign {
    Left,
    Center,
    Right,
    Justify,
}

/// Horizontal placement of a view in its slot.
#[derive(Clone, Copy, PartialEq, Eq, Debug, Structural)]
pub enum ViewHAlign {
    Left,
    Center,
    Right,
    Stretch,
}

/// Vertical placement of a view in its slot.
#[derive(Clone, Copy, PartialEq, Eq, Debug, Structural)]
pub enum ViewVAlign {
    Top,
    Center,
    Bottom,
    Stretch,
}

/// Whether a view is drawn, and whether it takes space.
#[derive(Clone, Copy, PartialEq, Eq, Debug, Structural)]
pub enum Visibility {
    Visible,
    Hidden,
    Collapsed,
}

impl TextAlign {
    /// `None` (no alignment) is justified text.
    pub fn from_h_align(value: Option<HAlign>) -> (res: TextAlign)
        ensures
            res == (match value {
                Some(HAlign::Left) => TextAlign::Left,
                Some(HAlign::Center) => TextAlign::Center,
                Some(HAlign::Right) => TextAlign::Right,
                None => TextAlign::Justify,
            }),
    {
        match value {
            Some(HAlign::Left) => TextAlign::Left,
            Some(HAlign::Center) => TextAlign::Center,
            Some(HAlign::Right) => TextAlign::Right,
            None => TextAlign::Justify,
        }
    }

    /// Justified text has no single alignment.
    pub fn to_h_align(self) -> (res: Option<HAlign>)
        ensures
            res == spec_text_align_h(self),
    {
        match self {
            TextAlign::Left => Some(HAlign::Left),
            TextAlign::Center => Some(HAlign::Center),
            TextAlign::Right => Some(HAlign::Right),
            TextAlign::Justify => None,
        }
    }
}

pub open spec fn spec_text_align_h(a: TextAlign) -> Option<HAlign> {
    match a {
        TextAlign::Left => Some(HAlign::Left),
        TextAlign::Center => Some(HAlign::Center),
        TextAlign::Right => Some(HAlign::Right),
        TextAlign::Justify => None,
    }
}

pub open spec fn spec_view_h(a: ViewHAlign) -> Option<HAlign> {
    match a {
        ViewHAlign::Left => Some(HAlign::Left),
        ViewHAlign::Center => Some(HAlign::Center),
        ViewHAlign::Right => Some(HAlign::Right),
        ViewHAlign::Stretch => None,
    }
}

pub open spec fn spec_view_v(a: ViewVAlign) -> Option<VAlign> {
    match a {
        ViewVAlign::Top => Some(VAlign::Top),
        ViewVAlign::Center => Some(VAlign::Center),
        ViewVAlign::Bottom => Some(VAlign::Bottom),
        ViewVAlign::Stretch => None,
    }
}

impl ViewHAlign {
    /// A stretched view has no alignment.
    pub fn to_h_align(self) -> (res: Option<HAlign>)
        ensures
            res == spec_view_h(self),
    {
        match self {
            ViewHAlign::Left => Some(HAlign::Left),
            ViewHAlign::Center => Some(HAlign::Center),
            ViewHAlign::Right => Some(HAlign::Right),
            ViewHAlign::Stretch => None,
        }
    }

    /// No alignment means stretching.
    pub fn from_h_align(a: Option<HAlign>) -> (res: ViewHAlign)
        ensures
            spec_view_h(res) == a,
    {
        match a {
            Some(HAlign::Left) => ViewHAlign::Left,
            Some(HAlign::Center) => ViewHAlign::Center,
            Some(HAlign::Right) => ViewHAlign::Right,
            None => ViewHAlign::Stretch,
        }
    }
}

impl ViewVAlign {
    /// A stretched view has no alignment.
    pub fn to_v_align(self) -> (res: Option<VAlign>)
        ensures
            res == spec_view_v(self),
    {
        match self {
            ViewVAlign::Top => Some(VAlign::Top),
            ViewVAlign::Center => Some(VAlign::Center),
            ViewVAlign::Bottom => Some(VAlign::Bottom),
            ViewVAlign::Stretch => None,
        }
    }

    /// No alignment means stretching.
    pub fn from_v_align(a: Option<VAlign>) -> (res: ViewVAlign)
        ensures
            spec_view_v(res) == a,
    {
        match a {
            Some(VAlign::Top) => ViewVAlign::Top,
            Some(VAlign::Center) => ViewVAlign::Center,
            Some(VAlign::Bottom) => ViewVAlign::Bottom,
            None => ViewVAlign::Stretch,
        }
    }
}

} // verus!
