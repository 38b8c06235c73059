//! Two-dimensional integer geometry on terminal cells.
//!
//! Coordinates are `i16` and all coordinate arithmetic wraps; sizes and
//! lengths are compared as unsigned 16-bit values, so a negative size is a
//! very large one.
use vstd::prelude::*;

verus! {

/// The value of `x as u16`, as a mathematical integer.
pub open spec fn u16v(x: i16) -> int {
    if x < 0 { x + 65536 } else { x as int }
}

/// The value of `x as i16` for a mathematical integer in `0 .. 65536`.
pub open spec fn i16v(x: int) -> int {
    if x >= 32768 { x - 65536 } else { x }
}

/// Casting an `i16` to `u16` reinterprets the bits.
pub proof fn lemma_as_u16(x: i16)
    ensures
        (x as u16) as int == u16v(x),
{
    assert((x as u16) as int == (if x < 0 { x + 65536 } else { x as int })) by (bit_vector);
}

/// Casting a `u16` to `i16` reinterprets the bits.
pub proof fn lemma_as_i16(x: u16)
    ensures
        (x as i16) as int == i16v(x as int),
{
    assert((x as i16) as int == (if x >= 32768 { x - 65536 } else { x as int })) by (bit_vector);
}

/// Wrapping `i16` addition.
pub open spec fn wadd(a: i16, b: i16) -> i16 {
    vstd::wrapping::i16_specs::wrapping_add(a, b)
}

/// Wrapping `i16` subtraction.
pub open spec fn wsub(a: i16, b: i16) -> i16 {
    vstd::wrapping::i16_specs::wrapping_sub(a, b)
}

/// The one of `a` and `b` that is larger as an unsigned value.
pub open spec fn umax(a: i16, b: i16) -> i16 {
    if u16v(a) < u16v(b) { b } else { a }
}

/// The one of `a` and `b` that is smaller as an unsigned value.
pub open spec fn umin(a: i16, b: i16) -> i16 {
    if u16v(b) < u16v(a) { b } else { a }
}

/// Unsigned maximum of two `i16` values.
pub fn max_u(a: i16, b: i16) -> (res: i16)
    ensures
        res == umax(a, b),
{
    proof {
        lemma_as_u16(a);
        lemma_as_u16(b);
    }
    if (a as u16) < (b as u16) { b } else { a }
}

/// Unsigned minimum of two `i16` values.
pub fn min_u(a: i16, b: i16) -> (res: i16)
    ensures
        res == umin(a, b),
{
    proof {
        lemma_as_u16(a);
        lemma_as_u16(b);
    }
    if (b as u16) < (a as u16) { b } else { a }
}

/// A displacement, or the size of a rectangle.
#[derive(Clone, Copy, PartialEq, Eq, Debug, Structural)]
pub struct Vector {
    pub x: i16,
    pub y: i16,
}

/// A cell position.
#[derive(Clone, Copy, PartialEq, Eq, Debug, Structural)]
pub struct Point {
    pub x: i16,
    pub y: i16,
}

/// The half-open interval `start .. end` on a wrapping axis.
#[derive(Clone, Copy, PartialEq, Eq, Debug, Structural)]
pub struct Range1d {
    pub start: i16,
    pub end: i16,
}

/// A rectangle given by its top-left corner and its size.
#[derive(Clone, Copy, PartialEq, Eq, Debug, Structural)]
pub struct Rect {
    pub tl: Point,
    pub size: Vector,
}

/// Horizontal alignment.
#[derive(Clone, Copy, PartialEq, Eq, Debug, Structural)]
pub enum HAlign {
    Left,
    Center,
    Right,
}

/// Vertical alignment.
#[derive(Clone, Copy, PartialEq, Eq, Debug, Structural)]
pub enum VAlign {
    Top,
    Center,
    Bottom,
}

pub open spec fn vec(x: i16, y: i16) -> Vector {
    Vector { x, y }
}

pub open spec fn spec_vmax(a: Vector, b: Vector) -> Vector {
    Vector { x: umax(a.x, b.x), y: umax(a.y, b.y) }
}

pub open spec fn spec_vmin(a: Vector, b: Vector) -> Vector {
    Vector { x: umin(a.x, b.x), y: umin(a.y, b.y) }
}

pub open spec fn spec_vadd(a: Vector, b: Vector) -> Vector {
    Vector { x: wadd(a.x, b.x), y: wadd(a.y, b.y) }
}

pub open spec fn spec_offset(p: Point, d: Vector) -> Point {
    Point { x: wadd(p.x, d.x), y: wadd(p.y, d.y) }
}

impl Vector {
    /// The zero vector.
    pub fn null() -> (res: Vector)
        ensures
            res == (Vector { x: 0, y: 0 }),
    {
        Vector { x: 0, y: 0 }
    }

    pub fn is_null(self) -> (res: bool)
        ensures
            res == (self.x == 0 && self.y == 0),
    {
        self.x == 0 && self.y == 0
    }

    /// Componentwise unsigned maximum.
    pub fn max(self, other: Vector) -> (res: Vector)
        ensures
            res == spec_vmax(self, other),
    {
        Vector { x: max_u(self.x, other.x), y: max_u(self.y, other.y) }
    }

    /// Componentwise unsigned minimum.
    pub fn min(self, other: Vector) -> (res: Vector)
        ensures
            res == spec_vmin(self, other),
    {
        Vector { x: min_u(self.x, other.x), y: min_u(self.y, other.y) }
    }

    /// Componentwise wrapping sum.
    pub fn plus(self, other: Vector) -> (res: Vector)
        ensures
            res == spec_vadd(self, other),
    {
        Vector { x: self.x.wrapping_add(other.x), y: self.y.wrapping_add(other.y) }
    }
}

impl Point {
    /// The point moved by `d`.
    pub fn offset(self, d: Vector) -> (res: Point)
        ensures
            res == spec_offset(self, d),
    {
        Point { x: self.x.wrapping_add(d.x), y: self.y.wrapping_add(d.y) }
    }

    /// The displacement from `other` to `self`.
    pub fn offset_from(self, other: Point) -> (res: Vector)
        ensures
            res == (Vector { x: wsub(self.x, other.x), y: wsub(self.y, other.y) }),
    {
        Vector { x: self.x.wrapping_sub(other.x), y: self.y.wrapping_sub(other.y) }
    }
}

pub open spec fn spec_range_len(r: Range1d) -> int {
    u16v(wsub(r.end, r.start))
}

pub open spec fn spec_range_contains(r: Range1d, c: i16) -> bool {
    u16v(wsub(c, r.start)) < u16v(wsub(r.end, r.start))
}

impl Range1d {
    pub fn new(start: i16, end: i16) -> (res: Range1d)
        ensures
            res == (Range1d { start, end }),
    {
        Range1d { start, end }
    }

    /// The number of coordinates in the range.
    pub fn len(self) -> (res: u16)
        ensures
            res as int == spec_range_len(self),
    {
        let d = self.end.wrapping_sub(self.start);
        proof {
            lemma_as_u16(d);
        }
        d as u16
    }

    pub fn contains(self, coord: i16) -> (res: bool)
        ensures
            res == spec_range_contains(self, coord),
    {
        let a = coord.wrapping_sub(self.start);
        let b = self.end.wrapping_sub(self.start);
        proof {
            lemma_as_u16(a);
            lemma_as_u16(b);
        }
        (a as u16) < (b as u16)
    }

    pub fn is_empty(self) -> (res: bool)
        ensures
            res == (self.start == self.end),
    {
        self.start == self.end
    }

    /// The smallest range that covers both ranges, where one exists.
    pub fn union(self, other: Range1d) -> (res: Option<Range1d>)
        ensures
            res == spec_range_union(self, other),
    {
        let (long, short) = if self.len() <= other.len() { (other, self) } else { (self, other) };
        if long.contains(short.start) {
            if long.contains(short.end) {
                if Range1d::new(long.start, short.end).len() >= Range1d::new(long.start, short.start).len() {
                    Some(long)
                } else {
                    None
                }
            } else {
                let res = Range1d::new(long.start, short.end);
                if res.is_empty() { None } else { Some(res) }
            }
        } else {
            if long.contains(short.end) {
                let res = Range1d::new(short.start, long.end);
                if res.is_empty() { None } else { Some(res) }
            } else {
                if other.is_empty() {
                    Some(self)
                } else if self.is_empty() {
                    Some(other)
                } else {
                    let u = Range1d::new(self.start, other.end);
                    let v = Range1d::new(other.start, self.end);
                    if u.is_empty() {
                        if v.is_empty() { None } else { Some(v) }
                    } else {
                        Some(if v.is_empty() { u } else { if u.len() < v.len() { u } else { v } })
                    }
                }
            }
        }
    }

    /// The common part of two ranges.
    pub fn intersect(self, other: Range1d) -> (res: Range1d)
        ensures
            res == spec_range_intersect(self, other),
    {
        let (long, short) = if self.len() <= other.len() { (other, self) } else { (self, other) };
        if long.contains(short.start) {
            if long.contains(short.end) {
                short
            } else {
                Range1d::new(short.start, long.end)
            }
        } else {
            if long.contains(short.end) {
                Range1d::new(long.start, short.end)
            } else {
                Range1d::new(self.start, self.start)
            }
        }
    }
}

/// The longer of two ranges first (the second one on a tie), then the other.
pub open spec fn long_short(a: Range1d, b: Range1d) -> (Range1d, Range1d) {
    if spec_range_len(a) <= spec_range_len(b) { (b, a) } else { (a, b) }
}

pub open spec fn spec_range_union(a: Range1d, b: Range1d) -> Option<Range1d> {
    let (long, short) = long_short(a, b);
    if spec_range_contains(long, short.start) {
        if spec_range_contains(long, short.end) {
            if spec_range_len(Range1d { start: long.start, end: short.end }) >= spec_range_len(
                Range1d { start: long.start, end: short.start },
            ) {
                Some(long)
            } else {
                None
            }
        } else if long.start == short.end {
            None
        } else {
            Some(Range1d { start: long.start, end: short.end })
        }
    } else if spec_range_contains(long, short.end) {
        if short.start == long.end {
            None
        } else {
            Some(Range1d { start: short.start, end: long.end })
        }
    } else if b.start == b.end {
        Some(a)
    } else if a.start == a.end {
        Some(b)
    } else {
        let u = Range1d { start: a.start, end: b.end };
        let v = Range1d { start: b.start, end: a.end };
        if u.start == u.end {
            if v.start == v.end { None } else { Some(v) }
        } else if v.start == v.end {
            Some(u)
        } else if spec_range_len(u) < spec_range_len(v) {
            Some(u)
        } else {
            Some(v)
        }
    }
}

pub open spec fn spec_range_intersect(a: Range1d, b: Range1d) -> Range1d {
    let (long, short) = long_short(a, b);
    if spec_range_contains(long, short.start) {
        if spec_range_contains(long, short.end) {
            short
        } else {
            Range1d { start: short.start, end: long.end }
        }
    } else if spec_range_contains(long, short.end) {
        Range1d { start: long.start, end: short.end }
    } else {
        Range1d { start: a.start, end: a.start }
    }
}

pub open spec fn spec_r(r: Rect) -> i16 {
    wadd(r.tl.x, r.size.x)
}

pub open spec fn spec_b(r: Rect) -> i16 {
    wadd(r.tl.y, r.size.y)
}

pub open spec fn spec_from_tl_br(tl: Point, br: Point) -> Rect {
    Rect { tl, size: Vector { x: wsub(br.x, tl.x), y: wsub(br.y, tl.y) } }
}

pub open spec fn spec_from_ranges(h: Range1d, v: Range1d) -> Rect {
    spec_from_tl_br(Point { x: h.start, y: v.start }, Point { x: h.end, y: v.end })
}

pub open spec fn spec_h_range(r: Rect) -> Range1d {
    Range1d { start: r.tl.x, end: spec_r(r) }
}

pub open spec fn spec_v_range(r: Rect) -> Range1d {
    Range1d { start: r.tl.y, end: spec_b(r) }
}

pub open spec fn spec_rect_contains(r: Rect, p: Point) -> bool {
    spec_range_contains(spec_h_range(r), p.x) && spec_range_contains(spec_v_range(r), p.y)
}

pub open spec fn spec_rect_intersect(a: Rect, b: Rect) -> Rect {
    spec_from_ranges(
        spec_range_intersect(spec_h_range(a), spec_h_range(b)),
        spec_range_intersect(spec_v_range(a), spec_v_range(b)),
    )
}

pub open spec fn spec_rect_offset(r: Rect, d: Vector) -> Rect {
    Rect { tl: spec_offset(r.tl, d), size: r.size }
}

/// `x - 1` for a positive `x`, else `0`, as the unsigned value of `x`.
pub open spec fn dec_sat(x: i16) -> int {
    if u16v(x) == 0 { 0 } else { u16v(x) - 1 }
}

pub open spec fn spec_r_inner(r: Rect) -> i16 {
    wadd(r.tl.x, i16v(dec_sat(r.size.x)) as i16)
}

pub open spec fn spec_b_inner(r: Rect) -> i16 {
    wadd(r.tl.y, i16v(dec_sat(r.size.y)) as i16)
}

impl Rect {
    pub fn from_tl_br(tl: Point, br: Point) -> (res: Rect)
        ensures
            res == spec_from_tl_br(tl, br),
    {
        Rect { tl, size: br.offset_from(tl) }
    }

    pub fn from_h_v_ranges(h_range: Range1d, v_range: Range1d) -> (res: Rect)
        ensures
            res == spec_from_ranges(h_range, v_range),
    {
        Rect::from_tl_br(
            Point { x: h_range.start, y: v_range.start },
            Point { x: h_range.end, y: v_range.end },
        )
    }

    pub fn is_empty(self) -> (res: bool)
        ensures
            res == (self.size.x == 0 || self.size.y == 0),
    {
        self.size.x == 0 || self.size.y == 0
    }

    pub fn w(self) -> (res: i16)
        ensures
            res == self.size.x,
    {
        self.size.x
    }

    pub fn h(self) -> (res: i16)
        ensures
            res == self.size.y,
    {
        self.size.y
    }

    pub fn l(self) -> (res: i16)
        ensures
            res == self.tl.x,
    {
        self.tl.x
    }

    pub fn t(self) -> (res: i16)
        ensures
            res == self.tl.y,
    {
        self.tl.y
    }

    pub fn r(self) -> (res: i16)
        ensures
            res == spec_r(self),
    {
        self.tl.x.wrapping_add(self.size.x)
    }

    pub fn b(self) -> (res: i16)
        ensures
            res == spec_b(self),
    {
        self.tl.y.wrapping_add(self.size.y)
    }

    pub fn bl(self) -> (res: Point)
        ensures
            res == (Point { x: self.tl.x, y: spec_b(self) }),
    {
        Point { x: self.l(), y: self.b() }
    }

    pub fn br(self) -> (res: Point)
        ensures
            res == (Point { x: spec_r(self), y: spec_b(self) }),
    {
        Point { x: self.r(), y: self.b() }
    }

    pub fn tr(self) -> (res: Point)
        ensures
            res == (Point { x: spec_r(self), y: self.tl.y }),
    {
        Point { x: self.r(), y: self.t() }
    }

    /// The last column inside the rectangle (its left column when it is empty).
    pub fn r_inner(self) -> (res: i16)
        ensures
            res == spec_r_inner(self),
    {
        let w = self.size.x as u16;
        proof {
            lemma_as_u16(self.size.x);
        }
        let d = w.saturating_sub(1);
        proof {
            lemma_as_i16(d);
        }
        self.tl.x.wrapping_add(d as i16)
    }

    /// The last row inside the rectangle (its top row when it is empty).
    pub fn b_inner(self) -> (res: i16)
        ensures
            res == spec_b_inner(self),
    {
        let h = self.size.y as u16;
        proof {
            lemma_as_u16(self.size.y);
        }
        let d = h.saturating_sub(1);
        proof {
            lemma_as_i16(d);
        }
        self.tl.y.wrapping_add(d as i16)
    }

    pub fn tr_inner(self) -> (res: Point)
        ensures
            res == (Point { x: spec_r_inner(self), y: self.tl.y }),
    {
        Point { x: self.r_inner(), y: self.t() }
    }

    pub fn bl_inner(self) -> (res: Point)
        ensures
            res == (Point { x: self.tl.x, y: spec_b_inner(self) }),
    {
        Point { x: self.l(), y: self.b_inner() }
    }

    pub fn br_inner(self) -> (res: Point)
        ensures
            res == (Point { x: spec_r_inner(self), y: spec_b_inner(self) }),
    {
        Point { x: self.r_inner(), y: self.b_inner() }
    }

    pub fn h_range(self) -> (res: Range1d)
        ensures
            res == spec_h_range(self),
    {
        Range1d { start: self.l(), end: self.r() }
    }

    pub fn v_range(self) -> (res: Range1d)
        ensures
            res == spec_v_range(self),
    {
        Range1d { start: self.t(), end: self.b() }
    }

    pub fn contains(self, p: Point) -> (res: bool)
        ensures
            res == spec_rect_contains(self, p),
    {
        self.h_range().contains(p.x) && self.v_range().contains(p.y)
    }

    pub fn intersect(self, other: Rect) -> (res: Rect)
        ensures
            res == spec_rect_intersect(self, other),
    {
        let h = self.h_range().intersect(other.h_range());
        let v = self.v_range().intersect(other.v_range());
        Rect::from_h_v_ranges(h, v)
    }

    pub fn offset(self, d: Vector) -> (res: Rect)
        ensures
            res == spec_rect_offset(self, d),
    {
        Rect { tl: self.tl.offset(d), size: self.size }
    }

    /// What covers both rectangles: a rectangle, or, where one axis wraps
    /// all the way round, an unbounded band; `None` where both axes do.
    pub fn union(self, other: Rect) -> (res: Option<RectUnion>)
        ensures
            res == spec_rect_union(self, other),
    {
        if other.is_empty() {
            return Some(RectUnion::Whole(self));
        }
        if self.is_empty() {
            return Some(RectUnion::Whole(other));
        }
        let hr = self.h_range().union(other.h_range());
        let vr = self.v_range().union(other.v_range());
        proof {
            lemma_range_union_not_empty(spec_h_range(self), spec_h_range(other));
            lemma_range_union_not_empty(spec_v_range(self), spec_v_range(other));
        }
        match hr {
            Some(hr) => match vr {
                Some(vr) => Some(RectUnion::Whole(Rect::from_h_v_ranges(hr, vr))),
                None => Some(RectUnion::VBand { l: hr.start, w: hr.end.wrapping_sub(hr.start) }),
            },
            None => match vr {
                Some(vr) => Some(RectUnion::HBand { t: vr.start, h: vr.end.wrapping_sub(vr.start) }),
                None => None,
            },
        }
    }

    /// The union with `union_with`, cut down to `intersect_with`.
    pub fn union_intersect(self, union_with: Rect, intersect_with: Rect) -> (res: Rect)
        ensures
            res == spec_union_intersect(self, union_with, intersect_with),
    {
        match self.union(union_with) {
            None => intersect_with,
            Some(RectUnion::Whole(rect)) => rect.intersect(intersect_with),
            Some(RectUnion::VBand { l, w }) => Rect {
                tl: Point { x: l, y: intersect_with.t() },
                size: Vector { x: w, y: intersect_with.h() },
            },
            Some(RectUnion::HBand { t, h }) => Rect {
                tl: Point { x: intersect_with.l(), y: t },
                size: Vector { x: intersect_with.w(), y: h },
            },
        }
    }

    /// The bottom row of the rectangle (empty for an empty height).
    pub fn b_line(self) -> (res: Rect)
        ensures
            res == spec_b_line(self),
    {
        let height: i16 = if self.size.y == 0 { 0 } else { 1 };
        Rect {
            tl: Point { x: self.l(), y: self.b().wrapping_sub(height) },
            size: Vector { x: self.size.x, y: height },
        }
    }

    /// The rightmost column of the rectangle (empty for an empty width).
    pub fn r_line(self) -> (res: Rect)
        ensures
            res == spec_r_line(self),
    {
        let width: i16 = if self.size.x == 0 { 0 } else { 1 };
        Rect {
            tl: Point { x: self.r().wrapping_sub(width), y: self.t() },
            size: Vector { x: width, y: self.size.y },
        }
    }
}

/// What covers two rectangles.
#[derive(Clone, Copy, PartialEq, Eq, Debug, Structural)]
pub enum RectUnion {
    /// Every column, rows `t .. t + h` (`h` is not zero).
    HBand { t: i16, h: i16 },
    /// Every row, columns `l .. l + w` (`w` is not zero).
    VBand { l: i16, w: i16 },
    /// A rectangle.
    Whole(Rect),
}

pub open spec fn spec_rect_is_empty(r: Rect) -> bool {
    r.size.x == 0 || r.size.y == 0
}

pub open spec fn spec_rect_union(a: Rect, b: Rect) -> Option<RectUnion> {
    if spec_rect_is_empty(b) {
        Some(RectUnion::Whole(a))
    } else if spec_rect_is_empty(a) {
        Some(RectUnion::Whole(b))
    } else {
        match (
            spec_range_union(spec_h_range(a), spec_h_range(b)),
            spec_range_union(spec_v_range(a), spec_v_range(b)),
        ) {
            (Some(hr), Some(vr)) => Some(RectUnion::Whole(spec_from_ranges(hr, vr))),
            (Some(hr), None) => Some(RectUnion::VBand { l: hr.start, w: wsub(hr.end, hr.start) }),
            (None, Some(vr)) => Some(RectUnion::HBand { t: vr.start, h: wsub(vr.end, vr.start) }),
            (None, None) => None,
        }
    }
}

pub open spec fn spec_union_intersect(a: Rect, u: Rect, i: Rect) -> Rect {
    match spec_rect_union(a, u) {
        None => i,
        Some(RectUnion::Whole(r)) => spec_rect_intersect(r, i),
        Some(RectUnion::VBand { l, w }) => Rect { tl: Point { x: l, y: i.tl.y }, size: Vector { x: w, y: i.size.y } },
        Some(RectUnion::HBand { t, h }) => Rect { tl: Point { x: i.tl.x, y: t }, size: Vector { x: i.size.x, y: h } },
    }
}

/// `min(1, n)`, `n` read as unsigned.
pub open spec fn at_most_one(n: i16) -> i16 {
    if n == 0 { 0 } else { 1 }
}

pub open spec fn spec_b_line(r: Rect) -> Rect {
    Rect {
        tl: Point { x: r.tl.x, y: wsub(spec_b(r), at_most_one(r.size.y)) },
        size: Vector { x: r.size.x, y: at_most_one(r.size.y) },
    }
}

pub open spec fn spec_r_line(r: Rect) -> Rect {
    Rect {
        tl: Point { x: wsub(spec_r(r), at_most_one(r.size.x)), y: r.tl.y },
        size: Vector { x: at_most_one(r.size.x), y: r.size.y },
    }
}

/// The union of two non-empty ranges is never empty.
pub proof fn lemma_range_union_not_empty(a: Range1d, b: Range1d)
    requires
        a.start != a.end,
        b.start != b.end,
    ensures
        spec_range_union(a, b) matches Some(r) ==> r.start != r.end,
{
}

/// Distances by which a rectangle is shrunk on each side (negative: grown).
///
/// Each side lies in `-65535 ..= 65535`.
#[derive(Clone, Copy, PartialEq, Eq, Debug, Structural)]
pub struct Thickness {
    pub l: i32,
    pub t: i32,
    pub r: i32,
    pub b: i32,
}

pub open spec fn side_ok(v: int) -> bool {
    -65535 <= v <= 65535
}

/// Magnitude of a side: `(±v) as u32 as u16` for a side within range.
pub open spec fn side_abs(v: i32) -> int {
    if v < 0 { -v } else { v as int }
}

pub open spec fn spec_shrink_near(th: int, a: i16, w: i16) -> (i16, i16) {
    let th = if th < u16v(w) { th } else { u16v(w) };
    (wadd(a, i16v(th) as i16), wsub(w, i16v(th) as i16))
}

pub open spec fn spec_shrink_far(th: int, a: i16, w: i16) -> (i16, i16) {
    let th = if th < u16v(w) { th } else { u16v(w) };
    (a, wsub(w, i16v(th) as i16))
}

pub open spec fn spec_expand_near(th: int, a: i16, w: i16) -> (i16, i16) {
    let th = if th < 65535 - u16v(w) { th } else { 65535 - u16v(w) };
    (wsub(a, i16v(th) as i16), wadd(w, i16v(th) as i16))
}

pub open spec fn spec_expand_far(th: int, a: i16, w: i16) -> (i16, i16) {
    let th = if th < 65535 - u16v(w) { th } else { 65535 - u16v(w) };
    (a, wadd(w, i16v(th) as i16))
}

pub open spec fn spec_near(side: i32, a: i16, w: i16) -> (i16, i16) {
    if side < 0 { spec_expand_near(side_abs(side), a, w) } else { spec_shrink_near(side_abs(side), a, w) }
}

pub open spec fn spec_far(side: i32, a: i16, w: i16) -> (i16, i16) {
    if side < 0 { spec_expand_far(side_abs(side), a, w) } else { spec_shrink_far(side_abs(side), a, w) }
}

pub open spec fn spec_shrink_rect(th: Thickness, rect: Rect) -> Rect {
    let (l, w) = spec_near(th.l, rect.tl.x, rect.size.x);
    let (t, h) = spec_near(th.t, rect.tl.y, rect.size.y);
    let (l, w) = spec_far(th.r, l, w);
    let (t, h) = spec_far(th.b, t, h);
    Rect { tl: Point { x: l, y: t }, size: Vector { x: w, y: h } }
}

pub open spec fn spec_neg(th: Thickness) -> Thickness {
    Thickness { l: (-th.l) as i32, t: (-th.t) as i32, r: (-th.r) as i32, b: (-th.b) as i32 }
}

pub open spec fn spec_expand_rect(th: Thickness, rect: Rect) -> Rect {
    spec_shrink_rect(spec_neg(th), rect)
}

pub open spec fn zero_tl(size: Vector) -> Rect {
    Rect { tl: Point { x: 0, y: 0 }, size }
}

pub open spec fn spec_shrink_size(th: Thickness, size: Vector) -> Vector {
    spec_shrink_rect(th, zero_tl(size)).size
}

pub open spec fn spec_expand_size(th: Thickness, size: Vector) -> Vector {
    spec_expand_rect(th, zero_tl(size)).size
}

/// Split of the free space `w` between the near and the far side.
pub open spec fn split_space(w: int, center: bool, near_first: bool) -> (int, int) {
    if center { (w / 2, w - w / 2) } else if near_first { (0, w) } else { (w, 0) }
}

pub open spec fn align_axis(inner: i16, outer: i16, center: bool, near: bool) -> (int, int) {
    let neg = u16v(inner) > u16v(outer);
    let w = if neg { u16v(inner) - u16v(outer) } else { u16v(outer) - u16v(inner) };
    let (a, b) = split_space(w, center, near);
    if neg { (-a, -b) } else { (a, b) }
}

pub open spec fn spec_align(inner: Vector, outer: Vector, h: HAlign, v: VAlign) -> Thickness {
    let (l, r) = align_axis(inner.x, outer.x, h == HAlign::Center, h == HAlign::Left);
    let (t, b) = align_axis(inner.y, outer.y, v == VAlign::Center, v == VAlign::Top);
    Thickness { l: l as i32, t: t as i32, r: r as i32, b: b as i32 }
}

proof fn lemma_side_cast(v: i32)
    requires
        side_ok(v as int),
    ensures
        (if v < 0 { (-v) as u32 as u16 } else { v as u32 as u16 }) as int == side_abs(v),
{
    if v < 0 {
        assert(((-v) as u32 as u16) as int == -v) by (bit_vector)
            requires
                v < 0 && v >= -65535,
        ;
    } else {
        assert((v as u32 as u16) as int == v) by (bit_vector)
            requires
                v >= 0 && v <= 65535,
        ;
    }
}

fn shrink_near(th: u16, a: i16, w: i16) -> (res: (i16, i16))
    ensures
        res == spec_shrink_near(th as int, a, w),
{
    proof {
        lemma_as_u16(w);
    }
    let wu = w as u16;
    let th = if th < wu { th } else { wu };
    proof {
        lemma_as_i16(th);
    }
    (a.wrapping_add(th as i16), w.wrapping_sub(th as i16))
}

fn shrink_far(th: u16, a: i16, w: i16) -> (res: (i16, i16))
    ensures
        res == spec_shrink_far(th as int, a, w),
{
    proof {
        lemma_as_u16(w);
    }
    let wu = w as u16;
    let th = if th < wu { th } else { wu };
    proof {
        lemma_as_i16(th);
    }
    (a, w.wrapping_sub(th as i16))
}

fn expand_near(th: u16, a: i16, w: i16) -> (res: (i16, i16))
    ensures
        res == spec_expand_near(th as int, a, w),
{
    proof {
        lemma_as_u16(w);
    }
    let room = u16::MAX - (w as u16);
    let th = if th < room { th } else { room };
    proof {
        lemma_as_i16(th);
    }
    (a.wrapping_sub(th as i16), w.wrapping_add(th as i16))
}

fn expand_far(th: u16, a: i16, w: i16) -> (res: (i16, i16))
    ensures
        res == spec_expand_far(th as int, a, w),
{
    proof {
        lemma_as_u16(w);
    }
    let room = u16::MAX - (w as u16);
    let th = if th < room { th } else { room };
    proof {
        lemma_as_i16(th);
    }
    (a, w.wrapping_add(th as i16))
}

fn side_u16(v: i32) -> (res: u16)
    requires
        side_ok(v as int),
    ensures
        res as int == side_abs(v),
{
    proof {
        lemma_side_cast(v);
    }
    if v < 0 { (-v) as u32 as u16 } else { v as u32 as u16 }
}

fn near(side: i32, a: i16, w: i16) -> (res: (i16, i16))
    requires
        side_ok(side as int),
    ensures
        res == spec_near(side, a, w),
{
    let th = side_u16(side);
    if side < 0 { expand_near(th, a, w) } else { shrink_near(th, a, w) }
}

fn far(side: i32, a: i16, w: i16) -> (res: (i16, i16))
    requires
        side_ok(side as int),
    ensures
        res == spec_far(side, a, w),
{
    let th = side_u16(side);
    if side < 0 { expand_far(th, a, w) } else { shrink_far(th, a, w) }
}

impl Thickness {
    /// Whether every side lies in `-65535 ..= 65535`.
    pub open spec fn wf(self) -> bool {
        side_ok(self.l as int) && side_ok(self.t as int) && side_ok(self.r as int) && side_ok(
            self.b as int,
        )
    }

    /// A thickness with the given sides (left, top, right, bottom).
    pub fn new(l: i32, t: i32, r: i32, b: i32) -> (res: Thickness)
        requires
            side_ok(l as int),
            side_ok(t as int),
            side_ok(r as int),
            side_ok(b as int),
        ensures
            res.wf(),
            res == (Thickness { l, t, r, b }),
    {
        Thickness { l, t, r, b }
    }

    /// The same thickness on all sides.
    pub fn all(a: i32) -> (res: Thickness)
        requires
            side_ok(a as int),
        ensures
            res.wf(),
            res == (Thickness { l: a, t: a, r: a, b: a }),
    {
        Thickness { l: a, t: a, r: a, b: a }
    }

    pub fn l(self) -> (res: i32)
        ensures
            res == self.l,
    {
        self.l
    }

    pub fn t(self) -> (res: i32)
        ensures
            res == self.t,
    {
        self.t
    }

    pub fn r(self) -> (res: i32)
        ensures
            res == self.r,
    {
        self.r
    }

    pub fn b(self) -> (res: i32)
        ensures
            res == self.b,
    {
        self.b
    }

    /// The thickness with every side negated.
    pub fn neg(self) -> (res: Thickness)
        requires
            self.wf(),
        ensures
            res.wf(),
            res == spec_neg(self),
    {
        Thickness { l: -self.l, t: -self.t, r: -self.r, b: -self.b }
    }

    /// The margins that place a box of size `inner` inside a box of size
    /// `outer` with the given alignment (negative where `inner` is larger).
    pub fn align(inner: Vector, outer: Vector, h_align: HAlign, v_align: VAlign) -> (res: Thickness)
        ensures
            res.wf(),
            res == spec_align(inner, outer, h_align, v_align),
    {
        proof {
            lemma_as_u16(inner.x);
            lemma_as_u16(outer.x);
            lemma_as_u16(inner.y);
            lemma_as_u16(outer.y);
        }
        let h_neg = inner.x as u16 > outer.x as u16;
        let w: u16 = if h_neg { (inner.x as u16) - (outer.x as u16) } else { (outer.x as u16) - (
        inner.x as u16) };
        let (l, r): (u16, u16) = match h_align {
            HAlign::Left => (0, w),
            HAlign::Right => (w, 0),
            HAlign::Center => {
                let l = w / 2;
                (l, w - l)
            },
        };
        let v_neg = inner.y as u16 > outer.y as u16;
        let h: u16 = if v_neg { (inner.y as u16) - (outer.y as u16) } else { (outer.y as u16) - (
        inner.y as u16) };
        let (t, b): (u16, u16) = match v_align {
            VAlign::Top => (0, h),
            VAlign::Bottom => (h, 0),
            VAlign::Center => {
                let t = h / 2;
                (t, h - t)
            },
        };
        let l = l as i32;
        let t = t as i32;
        let r = r as i32;
        let b = b as i32;
        Thickness {
            l: if h_neg { -l } else { l },
            t: if v_neg { -t } else { t },
            r: if h_neg { -r } else { r },
            b: if v_neg { -b } else { b },
        }
    }

    /// The rectangle with every side moved inwards by this thickness.
    pub fn shrink_rect(self, rect: Rect) -> (res: Rect)
        requires
            self.wf(),
        ensures
            res == spec_shrink_rect(self, rect),
    {
        let (l, w) = near(self.l, rect.tl.x, rect.size.x);
        let (t, h) = near(self.t, rect.tl.y, rect.size.y);
        let (l, w) = far(self.r, l, w);
        let (t, h) = far(self.b, t, h);
        Rect { tl: Point { x: l, y: t }, size: Vector { x: w, y: h } }
    }

    /// The rectangle with every side moved outwards by this thickness.
    pub fn expand_rect(self, rect: Rect) -> (res: Rect)
        requires
            self.wf(),
        ensures
            res == spec_expand_rect(self, rect),
    {
        self.neg().shrink_rect(rect)
    }

    pub fn shrink_rect_size(self, rect_size: Vector) -> (res: Vector)
        requires
            self.wf(),
        ensures
            res == spec_shrink_size(self, rect_size),
    {
        self.shrink_rect(Rect { tl: Point { x: 0, y: 0 }, size: rect_size }).size
    }

    pub fn expand_rect_size(self, rect_size: Vector) -> (res: Vector)
        requires
            self.wf(),
        ensures
            res == spec_expand_size(self, rect_size),
    {
        self.expand_rect(Rect { tl: Point { x: 0, y: 0 }, size: rect_size }).size
    }
}

} // verus!
