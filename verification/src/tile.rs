//! Tile addressing: the pyramid of 128x128 pixel tiles, five zoom levels deep.

use crate::sorted::Keyed;
use vstd::arithmetic::power2::{lemma2_to64, pow2};
use vstd::prelude::*;

verus! {

/// Edge of a root tile (zoom 0), in world blocks.
pub const ROOT_SPAN: i32 = 2048;

/// Edge, in world blocks, of the square that a tile at `zoom` covers:
/// `128 * 2^(4 - zoom)`.
pub open spec fn span_at(zoom: int) -> int
    recommends
        0 <= zoom <= 4,
{
    128 * (pow2((4 - zoom) as nat) as int)
}

/// The spans of the five zoom levels, written out.
pub proof fn lemma_span_values()
    ensures
        span_at(0) == 2048,
        span_at(1) == 1024,
        span_at(2) == 512,
        span_at(3) == 256,
        span_at(4) == 128,
{
    lemma2_to64();
}

/// One tile of the pyramid.
#[derive(Clone, Copy, Debug, PartialEq, Eq, Hash, Structural)]
pub struct Tile {
    pub zoom: u8,
    pub x: i32,
    pub y: i32,
}

impl Tile {
    /// Edge of this tile in world blocks.
    pub open spec fn span(self) -> int {
        span_at(self.zoom as int)
    }

    /// World coordinates of the tile's north-west corner.
    pub open spec fn origin(self) -> (int, int) {
        (self.x * self.span(), self.y * self.span())
    }

    /// A tile is valid when its zoom is one of the five levels and its origin
    /// can be written in world coordinates (`i32`).
    pub open spec fn valid(self) -> bool {
        &&& self.zoom <= 4
        &&& i32::MIN <= self.origin().0 <= i32::MAX
        &&& i32::MIN <= self.origin().1 <= i32::MAX
    }

    /// Whether the world position `(px, pz)` lies in the tile's square.
    pub open spec fn contains(self, px: int, pz: int) -> bool {
        &&& self.origin().0 <= px < self.origin().0 + self.span()
        &&& self.origin().1 <= pz < self.origin().1 + self.span()
    }

    /// Whether the square of `other` lies inside the square of this tile.
    pub open spec fn covers(self, other: Tile) -> bool {
        &&& self.origin().0 <= other.origin().0
        &&& other.origin().0 + other.span() <= self.origin().0 + self.span()
        &&& self.origin().1 <= other.origin().1
        &&& other.origin().1 + other.span() <= self.origin().1 + self.span()
    }

    /// The tile at zoom `4 - scale` whose square holds the world position
    /// `(x, z)`, as a specification.
    pub open spec fn at_position(scale: u8, x: i32, z: i32) -> Tile
        recommends
            scale <= 4,
    {
        Tile {
            zoom: (4 - scale) as u8,
            x: (x as int / span_at(4 - scale)) as i32,
            y: (z as int / span_at(4 - scale)) as i32,
        }
    }

    /// The four tiles one level deeper that together cover this tile, in the
    /// order north-west, south-west, north-east, south-east.
    pub open spec fn children(self) -> Seq<Tile>
        recommends
            self.zoom < 4,
    {
        let zoom = (self.zoom + 1) as u8;
        let x = 2 * self.x;
        let y = 2 * self.y;
        seq![
            Tile { zoom, x: x as i32, y: y as i32 },
            Tile { zoom, x: x as i32, y: (y + 1) as i32 },
            Tile { zoom, x: (x + 1) as i32, y: y as i32 },
            Tile { zoom, x: (x + 1) as i32, y: (y + 1) as i32 },
        ]
    }

    /// The zoom-0 tile whose square holds this tile's origin.
    pub open spec fn root_of(self) -> Tile {
        Tile { zoom: 0, x: (self.origin().0 / 2048) as i32, y: (self.origin().1 / 2048) as i32 }
    }

    /// The tile at zoom `4 - scale` that holds the world position `(x, z)`.
    /// Division rounds toward negative infinity, so positions west or north of
    /// the world origin land in tiles with negative indices.
    pub fn from_position(scale: u8, x: i32, z: i32) -> (t: Tile)
        requires
            scale <= 4,
        ensures
            t == Tile::at_position(scale, x, z),
            t.zoom == 4 - scale,
            t.x == x as int / t.span(),
            t.y == z as int / t.span(),
            t.origin() == ((x as int / t.span()) * t.span(), (z as int / t.span()) * t.span()),
            t.contains(x as int, z as int),
            t.valid(),
    {
        let size = span_of(4 - scale);
        let t = Tile { zoom: 4 - scale, x: floor_div(x, size), y: floor_div(z, size) };
        proof {
            lemma_floor_cell(x as int, size as int);
            lemma_floor_cell(z as int, size as int);
            lemma_scaled(t.x as int, t.zoom as int);
            lemma_scaled(t.y as int, t.zoom as int);
            lemma_span_values();
            assert(t.x * size <= x < t.x * size + size);
            assert(t.y * size <= z < t.y * size + size);
            assert(size == 128 || size == 256 || size == 512 || size == 1024 || size == 2048);
        }
        t
    }

    pub fn new(zoom: u8, x: i32, y: i32) -> (t: Tile)
        ensures
            t == (Tile { zoom, x, y }),
    {
        Tile { zoom, x, y }
    }

    /// Whether the tile is valid.
    pub fn is_valid(&self) -> (b: bool)
        ensures
            b == self.valid(),
    {
        if self.zoom > 4 {
            return false;
        }
        let size = span_of(self.zoom) as i64;
        proof {
            lemma_scaled(self.x as int, self.zoom as int);
            lemma_scaled(self.y as int, self.zoom as int);
            lemma_span_values();
        }
        let x = size * (self.x as i64);
        let y = size * (self.y as i64);
        -0x8000_0000 <= x && x <= 0x7fff_ffff && -0x8000_0000 <= y && y <= 0x7fff_ffff
    }

    /// Whether the square of `other` lies inside the square of this tile.
    pub fn covers_tile(&self, other: &Tile) -> (b: bool)
        requires
            self.valid(),
            other.valid(),
        ensures
            b == self.covers(*other),
    {
        let size = span_of(self.zoom) as i64;
        let other_size = span_of(other.zoom) as i64;
        let (x, y) = self.position();
        let (ox, oy) = other.position();
        x <= ox && ox as i64 + other_size <= x as i64 + size && y <= oy && oy as i64 + other_size
            <= y as i64 + size
    }

    /// World coordinates of the tile's north-west corner.
    pub fn position(&self) -> (p: (i32, i32))
        requires
            self.valid(),
        ensures
            p.0 == self.origin().0,
            p.1 == self.origin().1,
    {
        let size = span_of(self.zoom);
        proof {
            lemma_scaled(self.x as int, self.zoom as int);
            lemma_scaled(self.y as int, self.zoom as int);
        }
        (size * self.x, size * self.y)
    }

    /// The four tiles one level deeper that together cover this tile.
    pub fn quadrants(&self) -> (q: [Tile; 4])
        requires
            self.valid(),
            self.zoom < 4,
        ensures
            q@ == self.children(),
            forall|i: int| 0 <= i < 4 ==> (#[trigger] q[i]).valid(),
    {
        proof {
            lemma_scaled(self.x as int, self.zoom as int);
            lemma_scaled(self.y as int, self.zoom as int);
            lemma_scaled(2 * self.x, self.zoom + 1);
            lemma_scaled(2 * self.y, self.zoom + 1);
            lemma_scaled(2 * self.x + 1, self.zoom + 1);
            lemma_scaled(2 * self.y + 1, self.zoom + 1);
        }
        let zoom = self.zoom + 1;
        let x = self.x * 2;
        let y = self.y * 2;
        let q = [
            Tile { zoom, x, y },
            Tile { zoom, x, y: y + 1 },
            Tile { zoom, x: x + 1, y },
            Tile { zoom, x: x + 1, y: y + 1 },
        ];
        assert(q@ =~= self.children());
        q
    }

    /// The zoom-0 tile whose square holds this tile's origin.
    pub fn root(&self) -> (r: Tile)
        requires
            self.valid(),
        ensures
            r == self.root_of(),
            r.zoom == 0,
            r.valid(),
            r.contains(self.origin().0, self.origin().1),
    {
        let (x, y) = self.position();
        let r = Tile { zoom: 0, x: floor_div(x, ROOT_SPAN), y: floor_div(y, ROOT_SPAN) };
        proof {
            lemma_floor_cell(x as int, 2048);
            lemma_floor_cell(y as int, 2048);
            lemma_scaled(r.x as int, 0);
            lemma_scaled(r.y as int, 0);
            lemma_span_values();
        }
        r
    }
}

/// The root of a valid tile is a valid tile of zoom 0.
pub proof fn lemma_root_valid(t: Tile)
    requires
        t.valid(),
    ensures
        t.root_of().valid(),
        t.root_of().zoom == 0,
        t.root_of().covers(t),
{
    let r = t.root_of();
    lemma_span_values();
    lemma_floor_cell(t.origin().0, 2048);
    lemma_floor_cell(t.origin().1, 2048);
    lemma_scaled(r.x as int, 0);
    lemma_scaled(r.y as int, 0);
    lemma_within_root_cell(t.x as int, t.zoom as int);
    lemma_within_root_cell(t.y as int, t.zoom as int);
}

/// Each quadrant of a tile is valid, lies inside the tile's square and has
/// the tile's root.
pub proof fn lemma_quadrant_of(t: Tile, i: int)
    requires
        t.valid(),
        t.zoom < 4,
        0 <= i < 4,
    ensures
        t.children()[i].valid(),
        t.children()[i].zoom == t.zoom + 1,
        t.covers(t.children()[i]),
        t.children()[i].root_of() == t.root_of(),
{
    let c = t.children()[i];
    lemma_span_values();
    lemma_scaled(t.x as int, t.zoom as int);
    lemma_scaled(t.y as int, t.zoom as int);
    lemma_scaled(2 * t.x, t.zoom + 1);
    lemma_scaled(2 * t.y, t.zoom + 1);
    lemma_scaled(2 * t.x + 1, t.zoom + 1);
    lemma_scaled(2 * t.y + 1, t.zoom + 1);
    assert(c.valid() && t.covers(c));
    lemma_within_root_cell(t.x as int, t.zoom as int);
    lemma_within_root_cell(t.y as int, t.zoom as int);
    lemma_same_cell(t.origin().0, c.origin().0, 2048);
    lemma_same_cell(t.origin().1, c.origin().1, 2048);
}

/// A stretch of the tile grid at `zoom` lies within one stretch of the grid
/// at zoom 0: the one that holds its start.
pub proof fn lemma_within_root_cell(x: int, zoom: int)
    requires
        0 <= zoom <= 4,
    ensures
        x * span_at(zoom) + span_at(zoom) <= ((x * span_at(zoom)) / 2048) * 2048 + 2048,
{
    lemma_scaled(x, zoom);
    lemma_span_values();
    let o = x * span_at(zoom);
    lemma_floor_cell(o, 2048);
    let q = o / 2048;
    assert(q * 2048 <= o < q * 2048 + 2048);
    if zoom == 0 {
        assert(o == 2048 * x);
    } else if zoom == 1 {
        assert(o == 1024 * x);
        assert(x < 2 * q + 2);
    } else if zoom == 2 {
        assert(o == 512 * x);
        assert(x < 4 * q + 4);
    } else if zoom == 3 {
        assert(o == 256 * x);
        assert(x < 8 * q + 8);
    } else {
        assert(o == 128 * x);
        assert(x < 16 * q + 16);
    }
}

/// A position inside a tile's square is mapped back to that tile.
pub proof fn lemma_position_round_trip(t: Tile, px: i32, pz: i32)
    requires
        t.valid(),
        t.contains(px as int, pz as int),
    ensures
        Tile::at_position((4 - t.zoom) as u8, px, pz) == t,
{
    lemma_span_values();
    let d = t.span();
    assert(t.x * d == d * t.x) by (nonlinear_arith);
    assert(t.y * d == d * t.y) by (nonlinear_arith);
    vstd::arithmetic::div_mod::lemma_fundamental_div_mod_converse(
        px as int,
        d,
        t.x as int,
        px - t.x * d,
    );
    vstd::arithmetic::div_mod::lemma_fundamental_div_mod_converse(
        pz as int,
        d,
        t.y as int,
        pz - t.y * d,
    );
}

/// Two numbers that lie in the same cell of width `d` have the same quotient
/// by `d`: here `b` is at or after `a` and before the end of `a`'s cell.
pub proof fn lemma_same_cell(a: int, b: int, d: int)
    requires
        d > 0,
        a <= b < (a / d) * d + d,
    ensures
        b / d == a / d,
{
    lemma_floor_cell(a, d);
    let q = a / d;
    assert(q * d == d * q) by (nonlinear_arith);
    vstd::arithmetic::div_mod::lemma_fundamental_div_mod_converse(b, d, q, b - q * d);
}

impl core::ops::Add<(i32, i32)> for &Tile {
    type Output = Tile;

    /// The tile of the same zoom that lies `by.0` tiles to the east and
    /// `by.1` tiles to the south.
    fn add(self, by: (i32, i32)) -> (t: Tile) {
        Tile { zoom: self.zoom, x: self.x + by.0, y: self.y + by.1 }
    }
}

impl vstd::std_specs::ops::AddSpecImpl<(i32, i32)> for &Tile {
    open spec fn obeys_add_spec() -> bool {
        true
    }

    open spec fn add_req(self, by: (i32, i32)) -> bool {
        &&& i32::MIN <= self.x + by.0 <= i32::MAX
        &&& i32::MIN <= self.y + by.1 <= i32::MAX
    }

    open spec fn add_spec(self, by: (i32, i32)) -> Tile {
        Tile { zoom: self.zoom, x: (self.x + by.0) as i32, y: (self.y + by.1) as i32 }
    }
}

impl Keyed for Tile {
    /// Tiles are ordered by zoom, then by `x`, then by `y`.
    open spec fn key(&self) -> int {
        self.zoom * 0x1_0000_0000_0000_0000 + (self.x + 0x8000_0000) * 0x1_0000_0000 + (self.y
            + 0x8000_0000)
    }

    fn key_lt(&self, other: &Self) -> (b: bool) {
        self.zoom < other.zoom || (self.zoom == other.zoom && (self.x < other.x || (self.x
            == other.x && self.y < other.y)))
    }
}

/// Tiles are ordered by zoom, then by `x`, then by `y`, and no two tiles
/// share a key.
pub proof fn lemma_tile_order(a: Tile, b: Tile)
    ensures
        a.key() < b.key() <==> (a.zoom < b.zoom || (a.zoom == b.zoom && (a.x < b.x || (a.x == b.x
            && a.y < b.y)))),
        a.key() == b.key() <==> a == b,
{
}

/// Multiplication by a span, written out for each of the five zoom levels.
pub proof fn lemma_scaled(x: int, zoom: int)
    requires
        0 <= zoom <= 4,
    ensures
        zoom == 0 ==> x * span_at(zoom) == 2048 * x,
        zoom == 1 ==> x * span_at(zoom) == 1024 * x,
        zoom == 2 ==> x * span_at(zoom) == 512 * x,
        zoom == 3 ==> x * span_at(zoom) == 256 * x,
        zoom == 4 ==> x * span_at(zoom) == 128 * x,
        span_at(zoom) * x == x * span_at(zoom),
{
    lemma_span_values();
    let s = span_at(zoom);
    assert(s * x == x * s) by (nonlinear_arith);
    if zoom == 0 {
        assert(x * s == 2048 * x) by (nonlinear_arith)
            requires
                s == 2048,
        ;
    } else if zoom == 1 {
        assert(x * s == 1024 * x) by (nonlinear_arith)
            requires
                s == 1024,
        ;
    } else if zoom == 2 {
        assert(x * s == 512 * x) by (nonlinear_arith)
            requires
                s == 512,
        ;
    } else if zoom == 3 {
        assert(x * s == 256 * x) by (nonlinear_arith)
            requires
                s == 256,
        ;
    } else {
        assert(x * s == 128 * x) by (nonlinear_arith)
            requires
                s == 128,
        ;
    }
}

/// Edge of a tile at `zoom` in world blocks.
fn span_of(zoom: u8) -> (size: i32)
    requires
        zoom <= 4,
    ensures
        size == span_at(zoom as int),
        128 <= size <= 2048,
{
    proof {
        lemma_span_values();
    }
    match zoom {
        0 => 2048,
        1 => 1024,
        2 => 512,
        3 => 256,
        _ => 128,
    }
}

/// Quotient of `x` by a positive `d`, rounded toward negative infinity.
fn floor_div(x: i32, d: i32) -> (q: i32)
    requires
        d > 0,
    ensures
        q == x as int / d as int,
{
    proof {
        lemma_floor_cell(x as int, d as int);
    }
    match x.checked_div_euclid(d) {
        Some(q) => q,
        None => 0,
    }
}

/// For a positive `d`, `x / d` is the index of the cell of width `d` that
/// holds `x`, and it is no farther from zero than `x` is.
pub proof fn lemma_floor_cell(x: int, d: int)
    requires
        d > 0,
    ensures
        (x / d) * d <= x < (x / d) * d + d,
        x >= 0 ==> 0 <= x / d <= x,
        x < 0 ==> x <= x / d < 0,
{
    vstd::arithmetic::div_mod::lemma_fundamental_div_mod(x, d);
    vstd::arithmetic::div_mod::lemma_mod_bound(x, d);
    let q = x / d;
    assert(x == d * q + x % d);
    assert(d * q == q * d) by (nonlinear_arith);
    if x >= 0 {
        assert(0 <= q <= x) by (nonlinear_arith)
            requires
                d >= 1,
                x >= 0,
                q * d <= x < q * d + d,
        ;
    } else {
        assert(x <= q < 0) by (nonlinear_arith)
            requires
                d >= 1,
                x < 0,
                q * d <= x < q * d + d,
        ;
    }
}

} // verus!
