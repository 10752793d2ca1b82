//! The colours of maps: 62 base colours, each in four shades.

use vstd::prelude::*;

verus! {

/// The base colours, as red, green and blue.
pub const BASE: [[u8; 3]; 62] = [
    [0, 0, 0],
    [127, 178, 56],
    [247, 233, 163],
    [199, 199, 199],
    [255, 0, 0],
    [160, 160, 255],
    [167, 167, 167],
    [0, 124, 0],
    [255, 255, 255],
    [164, 168, 184],
    [151, 109, 77],
    [112, 112, 112],
    [64, 64, 255],
    [143, 119, 72],
    [255, 252, 245],
    [216, 127, 51],
    [178, 76, 216],
    [102, 153, 216],
    [229, 229, 51],
    [127, 204, 25],
    [242, 127, 165],
    [76, 76, 76],
    [153, 153, 153],
    [76, 127, 153],
    [127, 63, 178],
    [51, 76, 178],
    [102, 76, 51],
    [102, 127, 51],
    [153, 51, 51],
    [25, 25, 25],
    [250, 238, 77],
    [92, 219, 213],
    [74, 128, 255],
    [0, 217, 58],
    [129, 86, 49],
    [112, 2, 0],
    [209, 177, 161],
    [159, 82, 36],
    [149, 87, 108],
    [112, 108, 138],
    [186, 133, 36],
    [103, 117, 53],
    [160, 77, 78],
    [57, 41, 35],
    [135, 107, 98],
    [87, 92, 92],
    [122, 73, 88],
    [76, 62, 92],
    [76, 50, 35],
    [76, 82, 42],
    [142, 60, 46],
    [37, 22, 16],
    [189, 48, 49],
    [148, 63, 97],
    [92, 25, 29],
    [22, 126, 134],
    [58, 142, 140],
    [86, 44, 62],
    [20, 180, 133],
    [100, 100, 100],
    [216, 175, 147],
    [127, 167, 150],
];

/// The four shades, as parts of 255.
pub const FACTORS: [u32; 4] = [180, 220, 255, 135];

/// The number of colour indices: four for each base colour. The first four
/// stand for "nothing drawn".
pub const COLORS: usize = 248;

/// One channel of the colour with the index `index`: the base colour
/// `index / 4` in the shade `index % 4`.
pub open spec fn channel(index: int, part: int) -> int
    recommends
        0 <= index < 248,
        0 <= part < 3,
{
    BASE@[index / 4]@[part] * FACTORS@[index % 4] / 255
}

/// The colour with the index `index`, as red, green and blue.
pub fn color(index: u8) -> (rgb: [u8; 3])
    requires
        index < 248,
    ensures
        forall|part: int| 0 <= part < 3 ==> rgb@[part] == channel(index as int, part),
{
    let base = BASE[(index / 4) as usize];
    let factor = FACTORS[(index % 4) as usize];
    [shaded(base[0], factor), shaded(base[1], factor), shaded(base[2], factor)]
}

fn shaded(value: u8, factor: u32) -> (v: u8)
    requires
        factor <= 255,
    ensures
        v == value * factor / 255,
{
    assert(value * factor <= 255 * 255) by (nonlinear_arith)
        requires
            value <= 255,
            factor <= 255,
    ;
    ((value as u32) * factor / 255) as u8
}

} // verus!
