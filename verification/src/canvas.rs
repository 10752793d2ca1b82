//! The picture of one leaf tile: maps drawn over each other, and the
//! colours written out for an image.

use crate::map::{MapData, MapItem};
use crate::palette::{channel, color};
use crate::tile::{lemma_scaled, lemma_span_values, Tile};
use vstd::arithmetic::power2::{lemma2_to64, pow2};
use vstd::prelude::*;

verus! {

/// The number of pixels of a tile: 128 rows of 128.
pub const PIXELS: usize = 16384;

/// The pixels of a tile, as colour indices, and whether anything was drawn.
/// An index below 4 means that nothing is drawn at the pixel yet.
pub struct Canvas {
    pub is_dirty: bool,
    pub pixels: [u8; 16384],
}

/// How many world blocks, along one edge, a pixel of a map on the tile
/// `over` covers for each pixel of `tile`: two to the difference of their
/// zoom levels.
pub open spec fn factor_of(tile: Tile, over: Tile) -> int
    recommends
        over.zoom <= tile.zoom,
{
    pow2((tile.zoom - over.zoom) as nat) as int
}

/// The pixel of a map on the tile `over` that shows the same place as the
/// pixel `i` of the leaf tile `tile`. Pixels are counted row by row.
pub open spec fn sample(tile: Tile, over: Tile, i: int) -> int {
    let f = factor_of(tile, over);
    ((tile.origin().1 + i / 128 - over.origin().1) / f) * 128 + (tile.origin().0 + i % 128
        - over.origin().0) / f
}

/// The index at a pixel after a map was drawn: the map's, where nothing was
/// drawn before and the map shows something, else what was there.
pub open spec fn drawn_pixel(under: u8, over: u8) -> u8 {
    if under < 4 && over >= 4 {
        over
    } else {
        under
    }
}

/// The pixels after the map with the pixels `data` on the tile `over` was
/// drawn.
pub open spec fn drawn(pixels: Seq<u8>, tile: Tile, over: Tile, data: Seq<u8>) -> Seq<u8> {
    Seq::new(16384, |i: int| drawn_pixel(pixels[i], data[sample(tile, over, i)]))
}

/// Whether drawing the map changes any pixel.
pub open spec fn draws(pixels: Seq<u8>, tile: Tile, over: Tile, data: Seq<u8>) -> bool {
    exists|i: int| 0 <= i < 16384 && pixels[i] < 4 && #[trigger] data[sample(tile, over, i)] >= 4
}

/// The place in a map's pixels as the drawing loop computes it.
pub open spec fn stepped(a: int, f: int, i: int) -> int {
    a + i / f + (128 - 128int / f) * (i / 128) - (i / 128 - (i / f) / 128) * 128
}

/// Dividing `128 * n + c` by a divisor `f` of 128: the multiples of 128
/// divide exactly.
proof fn lemma_split_div(n: int, c: int, f: int, g: int)
    requires
        f > 0,
        g > 0,
        f * g == 128,
        0 <= c < 128,
    ensures
        (128 * n + c) / f == g * n + c / f,
        0 <= c / f < g,
        128int / f == g,
{
    vstd::arithmetic::div_mod::lemma_fundamental_div_mod(c, f);
    vstd::arithmetic::div_mod::lemma_mod_bound(c, f);
    let q = c / f;
    let r = c % f;
    assert(0 <= q < g) by (nonlinear_arith)
        requires
            c == f * q + r,
            0 <= r < f,
            0 <= c < 128,
            f * g == 128,
            f > 0,
    ;
    assert(128 * n + c == (g * n + q) * f + r) by (nonlinear_arith)
        requires
            c == f * q + r,
            f * g == 128,
    ;
    vstd::arithmetic::div_mod::lemma_fundamental_div_mod_converse(128 * n + c, f, g * n + q, r);
    assert(128 == g * f + 0) by (nonlinear_arith)
        requires
            f * g == 128,
    ;
    vstd::arithmetic::div_mod::lemma_fundamental_div_mod_converse(128, f, g, 0);
}

/// Dividing `g * n + e` by 128, where `g` times `f` is 128 and `e` is
/// below `g`: the quotient of `n` by `f`.
proof fn lemma_join_div(n: int, e: int, f: int, g: int)
    requires
        f > 0,
        g > 0,
        f * g == 128,
        0 <= e < g,
    ensures
        (g * n + e) / 128 == n / f,
{
    vstd::arithmetic::div_mod::lemma_fundamental_div_mod(n, f);
    vstd::arithmetic::div_mod::lemma_mod_bound(n, f);
    let q = n / f;
    let s = n % f;
    assert(g * n + e == q * 128 + (g * s + e) && 0 <= g * s + e < 128) by (nonlinear_arith)
        requires
            n == f * q + s,
            0 <= s < f,
            f * g == 128,
            0 <= e < g,
            g > 0,
    ;
    vstd::arithmetic::div_mod::lemma_fundamental_div_mod_converse(g * n + e, 128, q, g * s + e);
}

/// The drawing loop looks at the pixel that `sample` names, and that pixel
/// is one of the map's.
pub proof fn lemma_sample(tile: Tile, over: Tile, i: int)
    requires
        tile.valid(),
        over.valid(),
        tile.zoom == 4,
        over.covers(tile),
        0 <= i < 16384,
    ensures
        0 <= sample(tile, over, i) < 16384,
        ({
            let f = factor_of(tile, over);
            let a = (tile.origin().0 - over.origin().0) / f + (tile.origin().1 - over.origin().1)
                / f * 128;
            &&& f == 1 || f == 2 || f == 4 || f == 8 || f == 16
            &&& 0 <= tile.origin().0 - over.origin().0 < 2048
            &&& 0 <= tile.origin().1 - over.origin().1 < 2048
            &&& 0 <= a < 16384
            &&& (i / f) / 128 <= i / 128
            &&& a + i / f + (128 - 128int / f) * (i / 128) >= (i / 128 - (i / f) / 128) * 128
            &&& stepped(a, f, i) == sample(tile, over, i)
        }),
{
    lemma2_to64();
    lemma_span_values();
    lemma_scaled(tile.x as int, 4);
    lemma_scaled(tile.y as int, 4);
    lemma_scaled(over.x as int, over.zoom as int);
    lemma_scaled(over.y as int, over.zoom as int);
    let f = factor_of(tile, over);
    let g: int = if over.zoom == 4 {
        128
    } else if over.zoom == 3 {
        64
    } else if over.zoom == 2 {
        32
    } else if over.zoom == 1 {
        16
    } else {
        8
    };
    let dx = tile.origin().0 - over.origin().0;
    let dy = tile.origin().1 - over.origin().1;
    let u = dx / 128;
    let v = dy / 128;
    if over.zoom == 4 {
        assert(f == 1);
        assert(dx == 128 * (tile.x - over.x) && dy == 128 * (tile.y - over.y));
    } else if over.zoom == 3 {
        assert(f == 2);
        assert(dx == 128 * (tile.x - 2 * over.x) && dy == 128 * (tile.y - 2 * over.y));
    } else if over.zoom == 2 {
        assert(f == 4);
        assert(dx == 128 * (tile.x - 4 * over.x) && dy == 128 * (tile.y - 4 * over.y));
    } else if over.zoom == 1 {
        assert(f == 8);
        assert(dx == 128 * (tile.x - 8 * over.x) && dy == 128 * (tile.y - 8 * over.y));
    } else {
        assert(f == 16);
        assert(dx == 128 * (tile.x - 16 * over.x) && dy == 128 * (tile.y - 16 * over.y));
    }
    assert(f * g == 128);
    assert(dx == 128 * u && dy == 128 * v && 0 <= u < f && 0 <= v < f);
    lemma_sample_parts(f, g, u, v, i);
}

/// `lemma_sample`, in the terms of the arithmetic alone: `u` and `v` are
/// the column and row of the tile among the leaf tiles under the map.
proof fn lemma_sample_parts(f: int, g: int, u: int, v: int, i: int)
    requires
        f > 0,
        g > 0,
        f * g == 128,
        0 <= u < f,
        0 <= v < f,
        0 <= i < 16384,
    ensures
        ({
            let a = (128 * u) / f + (128 * v) / f * 128;
            let s = ((128 * v + i / 128) / f) * 128 + (128 * u + i % 128) / f;
            &&& 0 <= s < 16384
            &&& 0 <= a < 16384
            &&& (i / f) / 128 <= i / 128
            &&& a + i / f + (128 - 128int / f) * (i / 128) >= (i / 128 - (i / f) / 128) * 128
            &&& stepped(a, f, i) == s
        }),
{
    let r = i / 128;
    let c = i % 128;
    let q = r / f;
    let e = c / f;
    lemma_split_div(u, 0, f, g);
    lemma_split_div(v, 0, f, g);
    lemma_split_div(u, c, f, g);
    lemma_split_div(v, r, f, g);
    lemma_split_div(r, c, f, g);
    lemma_join_div(r, e, f, g);
    vstd::arithmetic::div_mod::lemma_fundamental_div_mod(r, f);
    vstd::arithmetic::div_mod::lemma_mod_bound(r, f);
    assert(i == 128 * r + c);
    assert(i / f == g * r + e);
    assert((i / f) / 128 == q);
    assert((128 * u) / f == g * u);
    assert((128 * v) / f == g * v);
    assert((128 * u + c) / f == g * u + e);
    assert((128 * v + r) / f == g * v + q);
    assert(0 <= q <= r && q * f <= r) by (nonlinear_arith)
        requires
            r == f * q + r % f,
            0 <= r % f < f,
            0 <= r,
            f > 0,
    ;
    assert(0 <= g * u <= 128 - g && 0 <= g * v <= 128 - g) by (nonlinear_arith)
        requires
            f * g == 128,
            0 <= u < f,
            0 <= v < f,
            g > 0,
    ;
    assert(g * v + q <= 127) by (nonlinear_arith)
        requires
            f * g == 128,
            0 <= v < f,
            g > 0,
            0 <= q,
            q * f <= r,
            r < 128,
            f > 0,
    ;
    assert(g * r + (128 - g) * r == 128 * r) by (nonlinear_arith);
    assert((g * v + q) * 128 == g * v * 128 + q * 128);
    assert((r - q) * 128 == 128 * r - q * 128);
    assert((128 - g) * r >= 0) by (nonlinear_arith)
        requires
            0 < g <= 128,
            r >= 0,
    ;
}

impl Canvas {
    /// A canvas on which nothing is drawn.
    pub fn new() -> (c: Canvas)
        ensures
            !c.is_dirty,
            c.pixels@ == Seq::new(16384, |i: int| 0u8),
    {
        let c = Canvas { is_dirty: false, pixels: [0u8; 16384] };
        assert(c.pixels@ =~= Seq::new(16384, |i: int| 0u8));
        c
    }

    /// Draws a map under what is on the canvas: each pixel at which nothing
    /// is drawn yet takes the map's colour there, if the map has one.
    /// `tile` is the leaf tile that the canvas shows; the map's tile must
    /// cover it.
    pub fn draw(&mut self, tile: &Tile, map: &MapItem, data: &MapData)
        requires
            tile.valid(),
            tile.zoom == 4,
            map.tile.valid(),
            map.tile.covers(*tile),
        ensures
            final(self).pixels@ == drawn(old(self).pixels@, *tile, map.tile, data@),
            final(self).is_dirty == (old(self).is_dirty || draws(
                old(self).pixels@,
                *tile,
                map.tile,
                data@,
            )),
    {
        let (tx, ty) = tile.position();
        let (mx, my) = map.tile.position();
        proof {
            lemma_sample(*tile, map.tile, 0);
        }
        let factor: usize = match tile.zoom - map.tile.zoom {
            0 => 1,
            1 => 2,
            2 => 4,
            3 => 8,
            _ => 16,
        };
        proof {
            lemma2_to64();
        }
        let a: usize = ((tx - mx) as usize) / factor + ((ty - my) as usize) / factor * 128;
        let b: usize = 128 - 128 / factor;
        let ghost before = self.pixels@;
        let ghost dirty = self.is_dirty;
        let ghost over = map.tile;
        let mut i: usize = 0;
        while i < PIXELS
            invariant
                i <= 16384,
                tile.valid(),
                tile.zoom == 4,
                over.valid(),
                over.covers(*tile),
                over == map.tile,
                factor == factor_of(*tile, over),
                a == (tile.origin().0 - over.origin().0) / (factor as int) + (tile.origin().1
                    - over.origin().1) / (factor as int) * 128,
                b == 128 - 128int / (factor as int),
                forall|j: int|
                    0 <= j < i ==> self.pixels@[j] == drawn_pixel(
                        before[j],
                        #[trigger] data@[sample(*tile, over, j)],
                    ),
                forall|j: int| i <= j < 16384 ==> self.pixels@[j] == before[j],
                self.is_dirty == (dirty || exists|j: int|
                    0 <= j < i && before[j] < 4 && #[trigger] data@[sample(*tile, over, j)] >= 4),
            decreases 16384 - i,
        {
            proof {
                lemma_sample(*tile, over, i as int);
            }
            if self.pixels[i] < 4 {
                let j = i / factor;
                let k = i / 128;
                assert(b * k == (128 - 128int / (factor as int)) * (i as int / 128)) by (nonlinear_arith)
                    requires
                        b == 128 - 128int / (factor as int),
                        k == i as int / 128,
                ;
                assert(0 <= b * k <= 128 * 128) by (nonlinear_arith)
                    requires
                        0 <= b <= 128,
                        0 <= k <= 128,
                ;
                let at = a + j + b * k - (k - j / 128) * 128;
                let map_pixel = data.0[at];
                if map_pixel >= 4 {
                    proof {
                        assert(before[i as int] < 4 && data@[sample(*tile, over, i as int)] >= 4);
                    }
                    self.is_dirty = true;
                    self.pixels[i] = map_pixel;
                }
            }
            i += 1;
        }
        proof {
            assert(self.pixels@ =~= drawn(before, *tile, over, data@));
        }
    }
}

/// The values of `s` in the order in which each occurs first.
pub open spec fn first_seen(s: Seq<u8>) -> Seq<u8>
    decreases s.len(),
{
    if s.len() == 0 {
        Seq::empty()
    } else {
        let before = first_seen(s.drop_last());
        if before.contains(s.last()) {
            before
        } else {
            before.push(s.last())
        }
    }
}

/// The red, green and blue of each of `indices`, one after the other.
pub open spec fn colors_of(indices: Seq<u8>) -> Seq<u8> {
    Seq::new(3 * indices.len(), |i: int| channel(indices[i / 3] as int, i % 3) as u8)
}

/// How many of `flags` are set.
pub open spec fn count_set(flags: Seq<bool>) -> nat
    decreases flags.len(),
{
    if flags.len() == 0 {
        0
    } else {
        count_set(flags.drop_last()) + if flags.last() {
            1nat
        } else {
            0nat
        }
    }
}

/// Flags that are set only below `n` are at most `n`.
proof fn lemma_count_bound(flags: Seq<bool>, n: int)
    requires
        0 <= n,
        forall|j: int| n <= j < flags.len() ==> !flags[j],
    ensures
        count_set(flags) <= n,
    decreases flags.len(),
{
    if flags.len() > 0 {
        let head = flags.drop_last();
        assert forall|j: int| n <= j < head.len() implies !head[j] by {
            assert(head[j] == flags[j]);
        }
        if flags.len() <= n {
            lemma_count_bound(head, n - 1);
            lemma_count_len(head);
        } else {
            lemma_count_bound(head, n);
        }
    }
}

/// No more flags are set than there are.
proof fn lemma_count_len(flags: Seq<bool>)
    ensures
        count_set(flags) <= flags.len(),
    decreases flags.len(),
{
    if flags.len() > 0 {
        lemma_count_len(flags.drop_last());
    }
}

/// Setting a flag that was not set makes one more.
proof fn lemma_count_update(flags: Seq<bool>, i: int)
    requires
        0 <= i < flags.len(),
        !flags[i],
    ensures
        count_set(flags.update(i, true)) == count_set(flags) + 1,
    decreases flags.len(),
{
    let next = flags.update(i, true);
    if i == flags.len() - 1 {
        assert(next.drop_last() =~= flags.drop_last());
    } else {
        assert(next.drop_last() =~= flags.drop_last().update(i, true));
        lemma_count_update(flags.drop_last(), i);
    }
}

impl Canvas {
    /// Replaces each colour index by its place among the indices that occur
    /// on the canvas, counted in the order in which they occur first, and
    /// returns the colours of those indices: a palette that holds no colour
    /// that the picture does not use.
    pub fn shrink_palette(&mut self) -> (palette: Vec<u8>)
        requires
            forall|i: int| 0 <= i < 16384 ==> old(self).pixels@[i] < 248,
        ensures
            palette@ == colors_of(first_seen(old(self).pixels@)),
            first_seen(old(self).pixels@).len() <= 248,
            forall|i: int|
                0 <= i < 16384 ==> (#[trigger] final(self).pixels@[i]) < first_seen(
                    old(self).pixels@,
                ).len() && first_seen(old(self).pixels@)[final(self).pixels@[i] as int] == old(
                    self,
                ).pixels@[i],
            final(self).is_dirty == old(self).is_dirty,
    {
        let ghost before = self.pixels@;
        let mut palette: Vec<u8> = Vec::new();
        let mut known: [bool; 256] = [false; 256];
        let mut place: [u8; 256] = [0u8; 256];
        let mut next: usize = 0;
        let ghost mut seen: Seq<u8> = Seq::empty();
        proof {
            lemma_count_bound(known@, 0);
            assert(palette@ =~= colors_of(seen));
            assert(before.take(0) =~= Seq::<u8>::empty());
        }
        let mut i: usize = 0;
        while i < PIXELS
            invariant
                i <= 16384,
                before.len() == 16384,
                forall|j: int| 0 <= j < 16384 ==> before[j] < 248,
                seen == first_seen(before.take(i as int)),
                next == seen.len(),
                next == count_set(known@),
                next <= 248,
                palette@ == colors_of(seen),
                forall|v: int| 0 <= v < 256 ==> (#[trigger] known@[v] <==> seen.contains(v as u8)),
                forall|v: int| 248 <= v < 256 ==> !known@[v],
                forall|v: int|
                    0 <= v < 256 && #[trigger] known@[v] ==> place@[v] < seen.len()
                        && seen[place@[v] as int] == v,
                forall|j: int|
                    0 <= j < i ==> (#[trigger] self.pixels@[j]) < seen.len()
                        && seen[self.pixels@[j] as int] == before[j],
                forall|j: int| i <= j < 16384 ==> self.pixels@[j] == before[j],
                self.is_dirty == old(self).is_dirty,
            decreases 16384 - i,
        {
            let pixel = self.pixels[i];
            proof {
                assert(before.take(i + 1).drop_last() =~= before.take(i as int));
                assert(before.take(i + 1).last() == pixel);
            }
            if !known[pixel as usize] {
                proof {
                    lemma_count_update(known@, pixel as int);
                    lemma_count_bound(known@.update(pixel as int, true), 248);
                }
                let rgb = color(pixel);
                let ghost shown = palette@;
                palette.push(rgb[0]);
                palette.push(rgb[1]);
                palette.push(rgb[2]);
                known[pixel as usize] = true;
                place[pixel as usize] = next as u8;
                proof {
                    let wider = seen.push(pixel);
                    assert(palette@ =~= colors_of(wider)) by {
                        assert forall|q: int| 0 <= q < 3 * wider.len() implies palette@[q]
                            == colors_of(wider)[q] by {
                            if q < 3 * seen.len() {
                                assert(palette@[q] == shown[q]);
                                assert(wider[q / 3] == seen[q / 3]);
                            } else {
                                assert(q / 3 == seen.len());
                                assert(wider[q / 3] == pixel);
                            }
                        }
                    }
                    assert forall|v: int| 0 <= v < 256 implies (#[trigger] known@[v]
                        <==> wider.contains(v as u8)) by {
                        if v == pixel {
                            assert(wider[seen.len() as int] == pixel);
                        } else if seen.contains(v as u8) {
                            let q = choose|q: int| 0 <= q < seen.len() && seen[q] == v as u8;
                            assert(wider[q] == v as u8);
                        } else if wider.contains(v as u8) {
                            let q = choose|q: int| 0 <= q < wider.len() && wider[q] == v as u8;
                            assert(seen[q] == v as u8);
                        }
                    }
                    assert forall|v: int| 0 <= v < 256 && #[trigger] known@[v] implies place@[v]
                        < wider.len() && wider[place@[v] as int] == v by {
                        if v != pixel {
                            assert(seen.contains(v as u8));
                            assert(wider[place@[v] as int] == seen[place@[v] as int]);
                        }
                    }
                    assert forall|j: int| 0 <= j < i implies (#[trigger] self.pixels@[j])
                        < wider.len() && wider[self.pixels@[j] as int] == before[j] by {
                        assert(wider[self.pixels@[j] as int] == seen[self.pixels@[j] as int]);
                    }
                    seen = wider;
                }
                next = next + 1;
            }
            self.pixels[i] = place[pixel as usize];
            i += 1;
        }
        proof {
            assert(before.take(16384) =~= before);
        }
        palette
    }

    /// The picture as red, green and blue for each pixel, row by row.
    pub fn expand_rgb(&self) -> (rgb: Vec<u8>)
        requires
            forall|i: int| 0 <= i < 16384 ==> self.pixels@[i] < 248,
        ensures
            rgb@ == colors_of(self.pixels@),
    {
        let mut rgb: Vec<u8> = Vec::new();
        let mut i: usize = 0;
        while i < PIXELS
            invariant
                i <= 16384,
                forall|j: int| 0 <= j < 16384 ==> self.pixels@[j] < 248,
                rgb@.len() == 3 * i,
                forall|q: int|
                    0 <= q < 3 * i ==> rgb@[q] == channel(self.pixels@[q / 3] as int, q % 3) as u8,
            decreases 16384 - i,
        {
            let c = color(self.pixels[i]);
            rgb.push(c[0]);
            rgb.push(c[1]);
            rgb.push(c[2]);
            i += 1;
        }
        proof {
            assert(rgb@ =~= colors_of(self.pixels@));
        }
        rgb
    }
}

/// The PNG file that the `png` crate writes for a picture with a palette:
/// nothing where it fails.
pub uninterp spec fn png_of(width: u32, height: u32, palette: Seq<u8>, pixels: Seq<u8>) -> Option<
    Seq<u8>,
>;

/// Writes a PNG file into memory with `png::Encoder`: indexed colours of
/// eight bits with the palette given, best compression, no filter. Not
/// proved: that the result is `png_of` of the arguments, which only says
/// that the same picture always gives the same file.
#[verifier::external_body]
fn encode_png(width: u32, height: u32, palette: &[u8], pixels: &[u8]) -> (r: Option<Vec<u8>>)
    ensures
        match r {
            Some(file) => png_of(width, height, palette@, pixels@) == Some(file@),
            None => png_of(width, height, palette@, pixels@) is None,
        },
{
    let mut file = Vec::new();
    let mut encoder = png::Encoder::new(&mut file, width, height);
    encoder.set_color(png::ColorType::Indexed);
    encoder.set_compression(png::Compression::Best);
    encoder.set_depth(png::BitDepth::Eight);
    encoder.set_filter(png::FilterType::NoFilter);
    encoder.set_palette(palette.to_vec());
    let mut writer = encoder.write_header().ok()?;
    writer.write_image_data(pixels).ok()?;
    writer.finish().ok()?;
    Some(file)
}

impl Canvas {
    /// Whether every pixel holds one of the 248 colour indices.
    pub fn in_palette(&self) -> (b: bool)
        ensures
            b == forall|i: int| 0 <= i < 16384 ==> self.pixels@[i] < 248,
    {
        let mut i: usize = 0;
        while i < PIXELS
            invariant
                i <= 16384,
                forall|j: int| 0 <= j < i ==> self.pixels@[j] < 248,
            decreases 16384 - i,
        {
            if self.pixels[i] >= 248 {
                return false;
            }
            i += 1;
        }
        true
    }

    /// The picture as a PNG file with a palette of the colours that it
    /// uses. The canvas is left with the places in that palette.
    pub fn to_png(&mut self) -> (file: Option<Vec<u8>>)
        requires
            forall|i: int| 0 <= i < 16384 ==> old(self).pixels@[i] < 248,
        ensures
            match file {
                Some(f) => png_of(
                    128,
                    128,
                    colors_of(first_seen(old(self).pixels@)),
                    final(self).pixels@,
                ) == Some(f@),
                None => png_of(
                    128,
                    128,
                    colors_of(first_seen(old(self).pixels@)),
                    final(self).pixels@,
                ) is None,
            },
            forall|i: int|
                0 <= i < 16384 ==> (#[trigger] final(self).pixels@[i]) < first_seen(
                    old(self).pixels@,
                ).len() && first_seen(old(self).pixels@)[final(self).pixels@[i] as int] == old(
                    self,
                ).pixels@[i],
            final(self).is_dirty == old(self).is_dirty,
    {
        let palette = self.shrink_palette();
        encode_png(128, 128, palette.as_slice(), self.pixels.as_slice())
    }
}

/// A map with its pixels, ready to be drawn.
pub struct Layer {
    pub map: MapItem,
    pub data: MapData,
}

/// The pixels of the leaf tile `tile` after the maps of `layers` were drawn
/// in their order onto an empty canvas.
pub open spec fn painted(tile: Tile, layers: Seq<Layer>) -> Seq<u8>
    decreases layers.len(),
{
    if layers.len() == 0 {
        Seq::new(16384, |i: int| 0u8)
    } else {
        drawn(painted(tile, layers.drop_last()), tile, layers.last().map.tile, layers.last().data@)
    }
}

/// The ids of the maps of `layers`, in their order.
pub open spec fn ids_of(layers: Seq<Layer>) -> Seq<u32> {
    layers.map_values(|l: Layer| l.map.id)
}

/// What the pixel `i` of a tile shows after `layers` were drawn: the colour
/// of the first map that has one there, and else nothing.
pub open spec fn first_shown(tile: Tile, layers: Seq<Layer>, i: int) -> u8
    decreases layers.len(),
{
    if layers.len() == 0 {
        0
    } else {
        let over = layers.first().data@[sample(tile, layers.first().map.tile, i)];
        if over >= 4 {
            over
        } else {
            first_shown(tile, layers.drop_first(), i)
        }
    }
}

/// A map drawn earlier hides the maps drawn after it: each pixel shows the
/// first map in the order of drawing that has a colour there.
pub proof fn lemma_painted(tile: Tile, layers: Seq<Layer>, i: int)
    requires
        0 <= i < 16384,
    ensures
        painted(tile, layers).len() == 16384,
        painted(tile, layers)[i] == first_shown(tile, layers, i),
        painted(tile, layers)[i] == 0 || painted(tile, layers)[i] >= 4,
    decreases layers.len(),
{
    if layers.len() > 0 {
        let head = layers.drop_last();
        lemma_painted(tile, head, i);
        lemma_first_shown_last(tile, layers, i);
    }
}

/// `first_shown`, told from the last map instead of the first.
proof fn lemma_first_shown_last(tile: Tile, layers: Seq<Layer>, i: int)
    requires
        layers.len() > 0,
    ensures
        first_shown(tile, layers, i) == if first_shown(tile, layers.drop_last(), i) >= 4 {
            first_shown(tile, layers.drop_last(), i)
        } else if layers.last().data@[sample(tile, layers.last().map.tile, i)] >= 4 {
            layers.last().data@[sample(tile, layers.last().map.tile, i)]
        } else {
            0
        },
    decreases layers.len(),
{
    if layers.len() == 1 {
        assert(layers.drop_last() =~= Seq::<Layer>::empty());
        assert(layers.drop_first() =~= Seq::<Layer>::empty());
        assert(layers.first() == layers.last());
    } else {
        let rest = layers.drop_first();
        lemma_first_shown_last(tile, rest, i);
        assert(rest.drop_last() =~= layers.drop_last().drop_first());
        assert(rest.last() == layers.last());
        assert(layers.drop_last().first() == layers.first());
    }
}

impl Tile {
    /// The picture of this leaf tile: `layers` drawn in their order, so
    /// that a map hides those after it. Returns the canvas and the ids of
    /// the maps in the order of drawing.
    pub fn render(&self, layers: &Vec<Layer>) -> (r: (Canvas, Vec<u32>))
        requires
            self.valid(),
            self.zoom == 4,
            forall|k: int|
                0 <= k < layers@.len() ==> (#[trigger] layers@[k]).map.tile.valid()
                    && layers@[k].map.tile.covers(*self),
        ensures
            r.0.pixels@ == painted(*self, layers@),
            r.0.is_dirty == exists|i: int| 0 <= i < 16384 && #[trigger] painted(*self, layers@)[i]
                >= 4,
            r.1@ == ids_of(layers@),
    {
        let mut canvas = Canvas::new();
        let mut ids: Vec<u32> = Vec::new();
        let mut k: usize = 0;
        proof {
            assert(layers@.take(0) =~= Seq::<Layer>::empty());
            assert(ids@ =~= ids_of(layers@.take(0)));
        }
        while k < layers.len()
            invariant
                k <= layers@.len(),
                self.valid(),
                self.zoom == 4,
                forall|n: int|
                    0 <= n < layers@.len() ==> (#[trigger] layers@[n]).map.tile.valid()
                        && layers@[n].map.tile.covers(*self),
                canvas.pixels@ == painted(*self, layers@.take(k as int)),
                canvas.is_dirty == exists|i: int|
                    0 <= i < 16384 && #[trigger] canvas.pixels@[i] >= 4,
                ids@ == ids_of(layers@.take(k as int)),
            decreases layers@.len() - k,
        {
            let layer = &layers[k];
            let ghost under = canvas.pixels@;
            proof {
                assert(layers@.take(k + 1).drop_last() =~= layers@.take(k as int));
                assert(layers@.take(k + 1).last() == layers@[k as int]);
                assert(ids_of(layers@.take(k + 1)) =~= ids_of(layers@.take(k as int)).push(
                    layer.map.id,
                ));
            }
            canvas.draw(self, &layer.map, &layer.data);
            ids.push(layer.map.id);
            proof {
                let over = layer.map.tile;
                let data = layer.data@;
                if exists|i: int| 0 <= i < 16384 && #[trigger] canvas.pixels@[i] >= 4 {
                    let i = choose|i: int| 0 <= i < 16384 && #[trigger] canvas.pixels@[i] >= 4;
                    if under[i] < 4 {
                        assert(data[sample(*self, over, i)] >= 4);
                    }
                }
                if draws(under, *self, over, data) {
                    let i = choose|i: int|
                        0 <= i < 16384 && under[i] < 4 && #[trigger] data[sample(*self, over, i)]
                            >= 4;
                    assert(canvas.pixels@[i] >= 4);
                }
                if exists|i: int| 0 <= i < 16384 && #[trigger] under[i] >= 4 {
                    let i = choose|i: int| 0 <= i < 16384 && #[trigger] under[i] >= 4;
                    assert(canvas.pixels@[i] >= 4);
                }
            }
            k += 1;
        }
        proof {
            assert(layers@.take(k as int) =~= layers@);
        }
        (canvas, ids)
    }
}

/// A map on the leaf tile itself is looked at pixel by pixel.
pub proof fn lemma_sample_same(t: Tile, i: int)
    requires
        0 <= i < 16384,
    ensures
        sample(t, t, i) == i,
{
    lemma2_to64();
    let f = factor_of(t, t);
    assert(f == 1);
    let row = t.origin().1 + i / 128 - t.origin().1;
    let col = t.origin().0 + i % 128 - t.origin().0;
    assert(row / f == row && col / f == col) by (nonlinear_arith)
        requires
            f == 1,
    ;
}

/// A map on the tile one level above a leaf tile shows each of its pixels
/// on two by two pixels of the leaf tile: the quarter of the map that the
/// leaf tile lies in is looked at at half the row and half the column.
pub proof fn lemma_sample_coarser(t: Tile, over: Tile, i: int)
    requires
        t.valid(),
        t.zoom == 4,
        over == (Tile { zoom: 3, x: (t.x as int / 2) as i32, y: (t.y as int / 2) as i32 }),
        0 <= i < 16384,
    ensures
        sample(t, over, i) == ((128 * (t.y as int % 2) + i / 128) / 2) * 128 + (128 * (t.x as int
            % 2) + i % 128) / 2,
{
    lemma2_to64();
    lemma_span_values();
    lemma_scaled(t.x as int, 4);
    lemma_scaled(t.y as int, 4);
    lemma_scaled(t.x as int / 2, 3);
    lemma_scaled(t.y as int / 2, 3);
}

/// Two maps drawn one after the other: each pixel shows the first map
/// where that has a colour, else the second where that has one, and else
/// nothing.
pub proof fn lemma_painted_two(tile: Tile, first: Layer, second: Layer, i: int)
    requires
        0 <= i < 16384,
    ensures
        painted(tile, seq![first, second])[i] == {
            let a = first.data@[sample(tile, first.map.tile, i)];
            let b = second.data@[sample(tile, second.map.tile, i)];
            if a >= 4 {
                a
            } else if b >= 4 {
                b
            } else {
                0
            }
        },
        ids_of(seq![first, second]) == seq![first.map.id, second.map.id],
{
    let layers = seq![first, second];
    lemma_painted(tile, layers, i);
    assert(layers.drop_first() =~= seq![second]);
    assert(layers.drop_first().drop_first() =~= Seq::<Layer>::empty());
    assert(layers.first() == first);
    assert(layers.drop_first().first() == second);
    reveal_with_fuel(first_shown, 3);
    assert(ids_of(layers) =~= seq![first.map.id, second.map.id]);
}

/// A map on a leaf tile drawn before a map on the tile one level up: each
/// pixel of the leaf tile shows the finer map where that has a colour,
/// else the coarser map at half the row and half the column of its
/// quarter, where that has a colour, and else nothing.
pub proof fn lemma_painted_stacked(fine: Layer, coarse: Layer, i: int)
    requires
        fine.map.tile.valid(),
        fine.map.tile.zoom == 4,
        coarse.map.tile == (Tile {
            zoom: 3,
            x: (fine.map.tile.x as int / 2) as i32,
            y: (fine.map.tile.y as int / 2) as i32,
        }),
        0 <= i < 16384,
    ensures
        painted(fine.map.tile, seq![fine, coarse])[i] == {
            let t = fine.map.tile;
            let a = fine.data@[i];
            let b = coarse.data@[((128 * (t.y as int % 2) + i / 128) / 2) * 128 + (128 * (t.x as int
                % 2) + i % 128) / 2];
            if a >= 4 {
                a
            } else if b >= 4 {
                b
            } else {
                0
            }
        },
{
    lemma_painted_two(fine.map.tile, fine, coarse, i);
    lemma_sample_same(fine.map.tile, i);
    lemma_sample_coarser(fine.map.tile, coarse.map.tile, i);
}

} // verus!
