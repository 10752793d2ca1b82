use little_a_map::canvas::{Canvas, Layer};
use little_a_map::map::{MapData, MapItem};
use little_a_map::palette::{color, BASE, FACTORS};
use little_a_map::tile::Tile;
use little_a_map::time::Timestamp;

fn map_on(id: u32, secs: u64, tile: Tile) -> MapItem {
    MapItem { id, modified: Timestamp::from_secs(secs), tile }
}

fn filled(value: u8) -> MapData {
    MapData([value; 16384])
}

fn numbered() -> MapData {
    let mut pixels = [0u8; 16384];
    for (i, p) in pixels.iter_mut().enumerate() {
        *p = 4 + (i % 200) as u8;
    }
    MapData(pixels)
}

#[test]
fn blank_canvas() {
    let canvas = Canvas::new();
    assert!(!canvas.is_dirty);
    assert!(canvas.pixels.iter().all(|&p| p == 0));
}

#[test]
fn draw_map_of_the_same_tile() {
    let tile = Tile::new(4, 3, -2);
    let mut canvas = Canvas::new();
    let data = numbered();
    canvas.draw(&tile, &map_on(0, 0, tile), &data);
    assert!(canvas.is_dirty);
    assert_eq!(canvas.pixels, data.0);
}

#[test]
fn draw_leaves_drawn_pixels_alone() {
    let tile = Tile::new(4, 0, 0);
    let mut canvas = Canvas::new();
    let mut first = [0u8; 16384];
    first[0] = 10;
    first[1] = 3;
    first[200] = 4;
    canvas.draw(&tile, &map_on(0, 0, tile), &MapData(first));
    canvas.draw(&tile, &map_on(1, 0, tile), &filled(99));
    assert_eq!(canvas.pixels[0], 10);
    assert_eq!(canvas.pixels[1], 99);
    assert_eq!(canvas.pixels[200], 4);
    assert_eq!(canvas.pixels[201], 99);
}

#[test]
fn transparent_map_leaves_canvas_clean() {
    let tile = Tile::new(4, 0, 0);
    let mut canvas = Canvas::new();
    canvas.draw(&tile, &map_on(0, 0, tile), &filled(3));
    assert!(!canvas.is_dirty);
    assert!(canvas.pixels.iter().all(|&p| p == 0));
}

#[test]
fn draw_part_of_a_coarser_map() {
    // The leaf tile is the north-east sixteenth of a map of scale 2.
    let tile = Tile::new(4, 7, 4);
    let over = Tile::new(2, 1, 1);
    let data = numbered();
    let mut canvas = Canvas::new();
    canvas.draw(&tile, &map_on(0, 0, over), &data);
    for row in 0..128usize {
        for col in 0..128usize {
            let expected = data.0[(row / 4) * 128 + 96 + col / 4];
            assert_eq!(canvas.pixels[row * 128 + col], expected);
        }
    }
    assert_eq!(canvas.pixels[0], 4 + 96);
    assert_eq!(canvas.pixels[127 * 128 + 127], 4 + ((31 * 128 + 127) % 200) as u8);
}

#[test]
fn draw_each_scale() {
    for scale in 0u8..=4 {
        let over = Tile::from_position(scale, -300, 700);
        let tile = Tile::from_position(0, -300, 700);
        let factor = 1i32 << scale;
        let (tx, ty) = tile.position();
        let (mx, my) = over.position();
        let data = numbered();
        let mut canvas = Canvas::new();
        canvas.draw(&tile, &map_on(0, 0, over), &data);
        for i in [0usize, 1, 127, 128, 8191, 16383] {
            let row = (ty - my + (i / 128) as i32) / factor;
            let col = (tx - mx + (i % 128) as i32) / factor;
            assert_eq!(canvas.pixels[i], data.0[(row * 128 + col) as usize]);
        }
    }
}

#[test]
fn palette_colours() {
    assert_eq!(color(0), [0, 0, 0]);
    assert_eq!(color(4), [89, 125, 39]);
    assert_eq!(color(5), [109, 153, 48]);
    assert_eq!(color(6), [127, 178, 56]);
    assert_eq!(color(7), [67, 94, 29]);
    assert_eq!(color(247), [67, 88, 79]);
    for index in 0u8..248 {
        let base = BASE[(index / 4) as usize];
        let factor = FACTORS[(index % 4) as usize];
        let expected = [
            (base[0] as u32 * factor / 255) as u8,
            (base[1] as u32 * factor / 255) as u8,
            (base[2] as u32 * factor / 255) as u8,
        ];
        assert_eq!(color(index), expected);
    }
}

#[test]
fn shrink_palette_in_order_of_first_use() {
    let mut canvas = Canvas::new();
    canvas.pixels[0] = 9;
    canvas.pixels[1] = 5;
    canvas.pixels[2] = 9;
    canvas.pixels[3] = 0;
    canvas.pixels[16383] = 247;
    canvas.is_dirty = true;
    let palette = canvas.shrink_palette();
    let mut expected = vec![];
    for index in [9u8, 5, 0, 247] {
        expected.extend(color(index));
    }
    assert_eq!(palette, expected);
    assert_eq!(&canvas.pixels[..5], [0, 1, 0, 2, 2]);
    assert_eq!(canvas.pixels[16383], 3);
    assert!(canvas.is_dirty);
}

#[test]
fn shrink_palette_of_every_colour() {
    let mut canvas = Canvas::new();
    for (i, p) in canvas.pixels.iter_mut().enumerate() {
        *p = (247 - i % 248) as u8;
    }
    let palette = canvas.shrink_palette();
    assert_eq!(palette.len(), 248 * 3);
    assert_eq!(&palette[..3], color(247));
    for (i, &p) in canvas.pixels.iter().enumerate() {
        assert_eq!(p as usize, i % 248);
    }
}

#[test]
fn expand_to_rgb() {
    let mut canvas = Canvas::new();
    canvas.pixels[0] = 5;
    canvas.pixels[16383] = 6;
    let rgb = canvas.expand_rgb();
    assert_eq!(rgb.len(), 3 * 16384);
    assert_eq!(&rgb[..6], [109, 153, 48, 0, 0, 0]);
    assert_eq!(&rgb[3 * 16383..], [127, 178, 56]);
}

#[test]
fn in_palette() {
    let mut canvas = Canvas::new();
    canvas.pixels[77] = 247;
    assert!(canvas.in_palette());
    canvas.pixels[78] = 248;
    assert!(!canvas.in_palette());
}

#[test]
fn png_file() {
    let mut canvas = Canvas::new();
    canvas.pixels[0] = 5;
    let file = canvas.to_png().unwrap();
    assert_eq!(&file[..8], [137, 80, 78, 71, 13, 10, 26, 10]);
    assert_eq!(&file[12..16], b"IHDR");
    assert_eq!(&file[16..24], [0, 0, 0, 128, 0, 0, 0, 128]);
    assert_eq!(&file[24..26], [8, 3]);
    let plte = file.windows(4).position(|w| w == b"PLTE").unwrap();
    assert_eq!(&file[plte - 4..plte], [0, 0, 0, 6]);
    assert_eq!(&file[plte + 4..plte + 10], [109, 153, 48, 0, 0, 0]);
    assert_eq!(&canvas.pixels[..2], [0, 1]);
}

#[test]
fn render_single_map() {
    let tile = Tile::new(4, 0, 0);
    let layers = vec![Layer { map: map_on(0, 10, tile), data: numbered() }];
    let (canvas, ids) = tile.render(&layers);
    assert!(canvas.is_dirty);
    assert_eq!(canvas.pixels, numbered().0);
    assert_eq!(ids, [0]);
}

#[test]
fn render_finer_map_over_coarser() {
    let tile = Tile::new(4, 0, 0);
    let mut fine = [0u8; 16384];
    fine[0] = 40;
    let layers = vec![
        Layer { map: map_on(0, 10, tile), data: MapData(fine) },
        Layer { map: map_on(1, 20, Tile::new(3, 0, 0)), data: filled(80) },
    ];
    let (canvas, ids) = tile.render(&layers);
    assert_eq!(canvas.pixels[0], 40);
    assert_eq!(canvas.pixels[1], 80);
    assert_eq!(ids, [0, 1]);
}

#[test]
fn render_nothing() {
    let (canvas, ids) = Tile::new(4, 0, 0).render(&vec![]);
    assert!(!canvas.is_dirty);
    assert!(ids.is_empty());
}
