//! Coordinates, colours, paint events and the adjacency relation between
//! coordinates.

use vstd::prelude::*;

verus! {

/// A canvas coordinate. The canvas has no bounds of its own: every pair of
/// 16-bit signed integers is a coordinate.
#[derive(Clone, Copy, Debug, PartialEq, Eq, Ord, Hash, Structural)]
pub struct Point {
    pub x: i16,
    pub y: i16,
}

impl Point {
    /// The point at column `x`, row `y`.
    pub fn new(x: i16, y: i16) -> (p: Point)
        ensures
            p == (Point { x, y }),
    {
        Point { x, y }
    }

    /// The total order on coordinates: by `x` first, and by `y` where the
    /// `x` are equal.
    pub open spec fn precedes(self, other: Point) -> bool {
        self.x < other.x || (self.x == other.x && self.y < other.y)
    }

    /// Decides [`Point::precedes`].
    pub fn is_before(&self, other: &Point) -> (b: bool)
        ensures
            b == self.precedes(*other),
    {
        self.x < other.x || (self.x == other.x && self.y < other.y)
    }

    /// The displacement that leads from `anchor` to this point.
    pub open spec fn offset_from(self, anchor: Point) -> Offset {
        Offset { dx: (self.x - anchor.x) as i32, dy: (self.y - anchor.y) as i32 }
    }

    /// Computes [`Point::offset_from`]. A difference of two 16-bit
    /// coordinates always fits the 32-bit components of an [`Offset`].
    pub fn displacement_from(&self, anchor: &Point) -> (o: Offset)
        ensures
            o == self.offset_from(*anchor),
            o.dx == self.x - anchor.x,
            o.dy == self.y - anchor.y,
    {
        let dx: i32 = self.x as i32 - anchor.x as i32;
        let dy: i32 = self.y as i32 - anchor.y as i32;
        Offset { dx, dy }
    }
}

/// The position of a point relative to the anchor of its shape.
#[derive(Clone, Copy, Debug, PartialEq, Eq, Hash, Structural)]
pub struct Offset {
    pub dx: i32,
    pub dy: i32,
}

/// A colour of three 8-bit channels, equal to another when all three agree.
#[derive(Clone, Copy, Debug, PartialEq, Eq, Hash, Structural)]
pub struct Color {
    pub r: u8,
    pub g: u8,
    pub b: u8,
}

impl Color {
    /// The colour with the given red, green and blue channels.
    pub fn new(r: u8, g: u8, b: u8) -> (c: Color)
        ensures
            c == (Color { r, g, b }),
    {
        Color { r, g, b }
    }

    /// The colour as one number, `r * 65536 + g * 256 + b`. Distinct colours
    /// have distinct numbers.
    pub open spec fn packed(self) -> u32 {
        (self.r * 65536 + self.g * 256 + self.b) as u32
    }

    /// Computes [`Color::packed`].
    pub fn pack(&self) -> (k: u32)
        ensures
            k == self.packed(),
            k == self.r * 65536 + self.g * 256 + self.b,
    {
        let r: u32 = self.r as u32;
        let g: u32 = self.g as u32;
        let b: u32 = self.b as u32;
        r * 65536 + g * 256 + b
    }

    /// Two colours with the same packed number are the same colour.
    pub proof fn lemma_packed_injective(a: Color, b: Color)
        requires
            a.packed() == b.packed(),
        ensures
            a == b,
    {
    }
}

/// One paint event of the log: `artist` painted `coord` in `color`.
#[derive(Clone, Copy, Debug, PartialEq, Eq, Hash, Structural)]
pub struct CanvasPixel {
    pub artist: u32,
    pub coord: Point,
    pub color: Color,
}

impl CanvasPixel {
    /// The event in which `artist` paints the point `(x, y)` in the colour
    /// `(red, green, blue)`.
    pub fn new(artist: u32, x: i16, y: i16, red: u8, green: u8, blue: u8) -> (e: CanvasPixel)
        ensures
            e == (CanvasPixel {
                artist,
                coord: Point { x, y },
                color: Color { r: red, g: green, b: blue },
            }),
    {
        CanvasPixel { artist, coord: Point::new(x, y), color: Color::new(red, green, blue) }
    }
}

/// Which coordinates count as neighbours.
#[derive(Clone, Copy, Debug, PartialEq, Eq, Structural)]
pub enum AdjacencyRule {
    /// A point touches the four points one step left, right, up and down.
    FourConnected,
    /// A point touches those four and the four diagonal ones.
    EightConnected,
}

/// Whether `p` and `q` are neighbours under `rule`. No point is its own
/// neighbour.
pub open spec fn adjacent(rule: AdjacencyRule, p: Point, q: Point) -> bool {
    let dx = q.x - p.x;
    let dy = q.y - p.y;
    match rule {
        AdjacencyRule::FourConnected => {
            ||| (dy == 0 && (dx == 1 || dx == -1))
            ||| (dx == 0 && (dy == 1 || dy == -1))
        },
        AdjacencyRule::EightConnected => {
            &&& -1 <= dx <= 1
            &&& -1 <= dy <= 1
            &&& !(dx == 0 && dy == 0)
        },
    }
}

/// Adjacency is symmetric.
pub proof fn lemma_adjacent_symmetric(rule: AdjacencyRule, p: Point, q: Point)
    ensures
        adjacent(rule, p, q) == adjacent(rule, q, p),
{
}

/// Decides [`adjacent`].
pub fn are_adjacent(rule: AdjacencyRule, p: &Point, q: &Point) -> (b: bool)
    ensures
        b == adjacent(rule, *p, *q),
{
    let dx: i32 = q.x as i32 - p.x as i32;
    let dy: i32 = q.y as i32 - p.y as i32;
    match rule {
        AdjacencyRule::FourConnected => {
            (dy == 0 && (dx == 1 || dx == -1)) || (dx == 0 && (dy == 1 || dy == -1))
        },
        AdjacencyRule::EightConnected => {
            -1 <= dx && dx <= 1 && -1 <= dy && dy <= 1 && !(dx == 0 && dy == 0)
        },
    }
}

} // verus!
