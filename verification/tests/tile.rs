use little_a_map::tile::Tile;

fn expect_tile(scale: u8, cx: i32, cz: i32, zoom: u8, x: i32, y: i32) {
    assert_eq!(Tile::from_position(scale, cx, cz), Tile::new(zoom, x, y));
}

fn expect_position(scale: u8, cx: i32, cz: i32, x: i32, y: i32) {
    assert_eq!(Tile::from_position(scale, cx, cz).position(), (x, y));
}

#[test]
fn tile_from_position() {
    expect_tile(4, 1, 1, 0, 0, 0);
    expect_tile(4, -1, 1, 0, -1, 0);

    expect_tile(0, -20608, 20096, 4, -161, 157);
    expect_tile(1, -20608, 20096, 3, -81, 78);
    expect_tile(2, -20608, 20096, 2, -41, 39);
    expect_tile(3, -20608, 20096, 1, -21, 19);
    expect_tile(4, -20608, 20096, 0, -11, 9);
}

#[test]
fn tile_position() {
    assert_eq!(Tile::new(0, 0, 0).position(), (0, 0));
    expect_position(0, 127, 127, 0, 0);
    expect_position(0, 128, 128, 128, 128);
    expect_position(0, -128, -128, -128, -128);
    expect_position(0, -129, -129, -256, -256);
    expect_position(4, 2047, 2047, 0, 0);
    expect_position(4, 2048, 2048, 2048, 2048);
    expect_position(4, -2048, -2048, -2048, -2048);
    expect_position(4, -2049, -2049, -4096, -4096);
}

#[test]
fn tile_quadrants() {
    assert_eq!(
        Tile::new(0, 0, 0).quadrants(),
        [
            Tile::new(1, 0, 0),
            Tile::new(1, 0, 1),
            Tile::new(1, 1, 0),
            Tile::new(1, 1, 1),
        ]
    );

    let steps = [
        Tile::new(0, -11, 9),
        Tile::new(1, -21, 19),
        Tile::new(2, -41, 39),
        Tile::new(3, -81, 78),
        Tile::new(4, -161, 157),
    ];
    assert_eq!(steps[0].quadrants()[3], steps[1]);
    assert_eq!(steps[1].quadrants()[3], steps[2]);
    assert_eq!(steps[2].quadrants()[2], steps[3]);
    assert_eq!(steps[3].quadrants()[3], steps[4]);
}

#[test]
fn from_position_gives_zoom_and_origin() {
    for scale in 0u8..=4 {
        let size = 128 * (1i32 << scale);
        for &(x, z) in &[(0, 0), (1, -1), (-129, 129), (2047, -2049), (i32::MAX, i32::MIN)] {
            let tile = Tile::from_position(scale, x, z);
            assert_eq!(tile.zoom, 4 - scale);
            assert_eq!(
                tile.position(),
                (x.div_euclid(size) * size, z.div_euclid(size) * size)
            );
        }
    }
}

#[test]
fn quadrants_share_root_and_lie_inside() {
    for &tile in &[Tile::new(0, -11, 9), Tile::new(2, 5, -7), Tile::new(3, -81, 78)] {
        let size = 128 * (1i32 << (4 - tile.zoom));
        let (left, top) = tile.position();
        for quadrant in tile.quadrants() {
            assert_eq!(quadrant.root(), tile.root());
            assert_eq!(quadrant.zoom, tile.zoom + 1);
            let (x, y) = quadrant.position();
            assert!(left <= x && x + size / 2 <= left + size);
            assert!(top <= y && y + size / 2 <= top + size);
        }
    }
}

#[test]
fn position_round_trip() {
    for &tile in &[Tile::new(4, -161, 157), Tile::new(1, -21, 19), Tile::new(0, 3, -4)] {
        let size = 128 * (1i32 << (4 - tile.zoom));
        let (x, z) = tile.position();
        for &(dx, dz) in &[(0, 0), (1, 1), (size - 1, 0), (0, size - 1), (size - 1, size - 1)] {
            assert_eq!(Tile::from_position(4 - tile.zoom, x + dx, z + dz), tile);
        }
    }
}

#[test]
fn from_position_west_of_origin() {
    assert_eq!(Tile::from_position(0, -1, 0), Tile { zoom: 4, x: -1, y: 0 });
}

#[test]
fn from_position_finest_negative_corner() {
    assert_eq!(Tile::from_position(0, -129, -129).position(), (-256, -256));
}

#[test]
fn from_position_coarsest_on_boundary() {
    assert_eq!(Tile::from_position(4, 2048, 2048).position(), (2048, 2048));
}

#[test]
fn root_of_leaf() {
    assert_eq!(Tile::new(4, -161, 157).root(), Tile::new(0, -11, 9));
    assert_eq!(Tile::new(4, 15, 16).root(), Tile::new(0, 0, 1));
    assert_eq!(Tile::new(0, 7, -7).root(), Tile::new(0, 7, -7));
}

#[test]
fn tile_plus_offset() {
    assert_eq!(&Tile::new(2, 5, -7) + (1, -1), Tile::new(2, 6, -8));
}

#[test]
fn tiles_cover_what_lies_below_them() {
    let leaf = Tile::new(4, -161, 157);
    assert!(leaf.covers_tile(&leaf));
    assert!(Tile::new(3, -81, 78).covers_tile(&leaf));
    assert!(leaf.root().covers_tile(&leaf));
    assert!(!leaf.covers_tile(&Tile::new(3, -81, 78)));
    assert!(!Tile::new(3, -80, 78).covers_tile(&leaf));
    assert!(!Tile::new(4, -160, 157).covers_tile(&leaf));
    for quadrant in Tile::new(2, 5, -7).quadrants() {
        assert!(Tile::new(2, 5, -7).covers_tile(&quadrant));
        assert!(!quadrant.covers_tile(&Tile::new(2, 5, -7)));
    }
}

#[test]
fn valid_tiles() {
    assert!(Tile::new(0, 1_048_575, -1_048_576).is_valid());
    assert!(!Tile::new(0, 1_048_576, 0).is_valid());
    assert!(!Tile::new(5, 0, 0).is_valid());
    assert!(Tile::new(4, i32::MAX / 128, i32::MIN / 128).is_valid());
    assert!(!Tile::new(4, i32::MAX / 128 + 1, 0).is_valid());
}
