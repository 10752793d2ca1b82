//! The names of the files that a run reads and writes, and what they tell:
//! the position of a region, the tile of an image, the id of a map, the
//! player that a file belongs to.

use crate::text::{number_within, parse_number, piece, piece_of};
use crate::tile::Tile;
use vstd::prelude::*;

verus! {

/// The number that a piece of a name writes, where the piece is there and
/// the number lies within `low..=high`.
pub open spec fn number_in(part: Option<Seq<u8>>, signed: bool, low: int, high: int) -> Option<
    int,
> {
    match part {
        Some(p) => number_within(p, signed, low, high),
        None => None,
    }
}

/// Whether a piece of a name is the text `mca`.
pub open spec fn is_mca(part: Option<Seq<u8>>) -> bool {
    part matches Some(p) && p.len() == 3 && p[0] == 109 && p[1] == 99 && p[2] == 97
}

/// Whether a piece of a name is the text `r`.
pub open spec fn is_r(part: Option<Seq<u8>>) -> bool {
    part matches Some(p) && p.len() == 1 && p[0] == 114
}

/// The position of the region that the file name `r.<x>.<z>.mca` names.
pub open spec fn region_of(name: Seq<u8>) -> Option<(i32, i32)> {
    if is_r(piece(name, 46, 0)) && is_mca(piece(name, 46, 3)) && piece(name, 46, 4) is None {
        match (
            number_in(piece(name, 46, 1), true, i32::MIN as int, i32::MAX as int),
            number_in(piece(name, 46, 2), true, i32::MIN as int, i32::MAX as int),
        ) {
            (Some(x), Some(z)) => Some((x as i32, z as i32)),
            _ => None,
        }
    } else {
        None
    }
}

/// The tile whose image lies at `tiles/<zoom>/<x>/<y>.<kind>` below the
/// output directory. The first piece of the path is not looked at.
pub open spec fn tile_of(path: Seq<u8>) -> Option<Tile> {
    let last = match piece(path, 47, 3) {
        Some(p) => piece(p, 46, 0),
        None => None,
    };
    match (
        number_in(piece(path, 47, 1), false, 0, 255),
        number_in(piece(path, 47, 2), true, i32::MIN as int, i32::MAX as int),
        number_in(last, true, i32::MIN as int, i32::MAX as int),
    ) {
        (Some(zoom), Some(x), Some(y)) => Some(Tile { zoom: zoom as u8, x: x as i32, y: y as i32 }),
        _ => None,
    }
}

/// The id of the map whose picture has the file name `<id>.<kind>`.
pub open spec fn map_of(name: Seq<u8>) -> Option<u32> {
    match number_in(piece(name, 46, 0), false, 0, u32::MAX as int) {
        Some(id) => Some(id as u32),
        None => None,
    }
}

fn number_of(part: Option<&[u8]>, signed: bool, low: i64, high: i64) -> (r: Option<i64>)
    requires
        -crate::text::FAR < low,
        high < crate::text::FAR,
    ensures
        match part {
            Some(p) => r is Some == number_in(Some(p@), signed, low as int, high as int) is Some
                && (r matches Some(n) ==> number_in(Some(p@), signed, low as int, high as int)
                == Some(n as int)),
            None => r is None,
        },
{
    match part {
        Some(p) => parse_number(p, signed, low, high),
        None => None,
    }
}

/// The position of the region that the file name `r.<x>.<z>.mca` names.
pub fn parse_region_name(name: &[u8]) -> (r: Option<(i32, i32)>)
    ensures
        r == region_of(name@),
{
    let first = piece_of(name, 46, 0);
    let kind = piece_of(name, 46, 3);
    let is_r = match first {
        Some(p) => p.len() == 1 && p[0] == 114,
        None => false,
    };
    let is_mca = match kind {
        Some(p) => p.len() == 3 && p[0] == 109 && p[1] == 99 && p[2] == 97,
        None => false,
    };
    if !is_r || !is_mca || piece_of(name, 46, 4).is_some() {
        return None;
    }
    let x = number_of(piece_of(name, 46, 1), true, -0x8000_0000, 0x7fff_ffff);
    let z = number_of(piece_of(name, 46, 2), true, -0x8000_0000, 0x7fff_ffff);
    match (x, z) {
        (Some(x), Some(z)) => Some((x as i32, z as i32)),
        _ => None,
    }
}

/// The tile whose image lies at `tiles/<zoom>/<x>/<y>.<kind>`.
pub fn parse_tile_path(path: &[u8]) -> (r: Option<Tile>)
    ensures
        r == tile_of(path@),
{
    let last = match piece_of(path, 47, 3) {
        Some(p) => piece_of(p, 46, 0),
        None => None,
    };
    let zoom = number_of(piece_of(path, 47, 1), false, 0, 255);
    let x = number_of(piece_of(path, 47, 2), true, -0x8000_0000, 0x7fff_ffff);
    let y = number_of(last, true, -0x8000_0000, 0x7fff_ffff);
    match (zoom, x, y) {
        (Some(zoom), Some(x), Some(y)) => Some(Tile { zoom: zoom as u8, x: x as i32, y: y as i32 }),
        _ => None,
    }
}

/// The id of the map whose picture has the file name `<id>.<kind>`.
pub fn parse_map_name(name: &[u8]) -> (r: Option<u32>)
    ensures
        r == map_of(name@),
{
    match number_of(piece_of(name, 46, 0), false, 0, 0xffff_ffff) {
        Some(id) => Some(id as u32),
        None => None,
    }
}

/// Whether a byte is a hexadecimal digit, in small or capital letters.
pub open spec fn is_hex(b: u8) -> bool {
    (48 <= b <= 57) || (97 <= b <= 102) || (65 <= b <= 70)
}

/// Whether `name` is the name of a player's file: a UUID in groups of 8,
/// 4, 4, 4 and 12 hexadecimal digits with `-` between them, and `.dat`.
pub open spec fn is_player_name(name: Seq<u8>) -> bool {
    &&& name.len() == 40
    &&& forall|i: int|
        0 <= i < 36 ==> if i == 8 || i == 13 || i == 18 || i == 23 {
            #[trigger] name[i] == 45
        } else {
            is_hex(name[i])
        }
    &&& name[36] == 46
    &&& name[37] == 100
    &&& name[38] == 97
    &&& name[39] == 116
}

/// Whether `name` is the name of a player's file.
pub fn is_player_file(name: &[u8]) -> (b: bool)
    ensures
        b == is_player_name(name@),
{
    if name.len() != 40 {
        return false;
    }
    let mut i: usize = 0;
    while i < 36
        invariant
            i <= 36,
            name@.len() == 40,
            forall|j: int|
                0 <= j < i ==> if j == 8 || j == 13 || j == 18 || j == 23 {
                    #[trigger] name@[j] == 45
                } else {
                    is_hex(name@[j])
                },
        decreases 36 - i,
    {
        let b = name[i];
        let fits = if i == 8 || i == 13 || i == 18 || i == 23 {
            b == 45
        } else {
            (48 <= b && b <= 57) || (97 <= b && b <= 102) || (65 <= b && b <= 70)
        };
        if !fits {
            proof {
                let j = i as int;
                assert(!(if j == 8 || j == 13 || j == 18 || j == 23 {
                    name@[j] == 45
                } else {
                    is_hex(name@[j])
                }));
            }
            return false;
        }
        i += 1;
    }
    name[36] == 46 && name[37] == 100 && name[38] == 97 && name[39] == 116
}

} // verus!
