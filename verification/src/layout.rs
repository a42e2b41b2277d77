//! Where the pet and the mini board go at start-up: the mini board in the
//! bottom-right corner of the work area, 40 px from its right and bottom
//! edges; the pet centred above it, 12 px higher. Coordinates are physical
//! pixels.

use vstd::prelude::*;

verus! {

/// Distance of the mini board from the work area's right and bottom edges.
pub const BOARD_MARGIN: i64 = 40;

/// Gap between the pet and the mini board below it.
pub const PET_GAP: i64 = 12;

/// Top-left corners of the mini board and the pet.
#[derive(Clone, Copy, Debug, PartialEq, Eq)]
pub struct BoardPlacement {
    pub mini_x: i64,
    pub mini_y: i64,
    pub pet_x: i64,
    pub pet_y: i64,
}

/// Half of `x`, rounded toward zero.
pub open spec fn half_toward_zero(x: int) -> int {
    if x >= 0 { x / 2 } else { -((-x) / 2) }
}

/// Places the mini board in the bottom-right corner of the work area (origin
/// `area_x`, `area_y`, size `area_w` × `area_h`) and the pet centred above it.
pub fn pet_and_board_positions(
    area_x: i32,
    area_y: i32,
    area_w: i32,
    area_h: i32,
    pet_w: i32,
    pet_h: i32,
    mini_w: i32,
    mini_h: i32,
) -> (r: BoardPlacement)
    ensures
        r.mini_x == area_x + area_w - mini_w - BOARD_MARGIN,
        r.mini_y == area_y + area_h - mini_h - BOARD_MARGIN,
        r.pet_x == r.mini_x + half_toward_zero(mini_w - pet_w),
        r.pet_y == r.mini_y - PET_GAP - pet_h,
{
    let mini_x: i64 = area_x as i64 + area_w as i64 - mini_w as i64 - BOARD_MARGIN;
    let mini_y: i64 = area_y as i64 + area_h as i64 - mini_h as i64 - BOARD_MARGIN;
    let spare: i64 = mini_w as i64 - pet_w as i64;
    let half: i64 = if spare >= 0 { spare / 2 } else { -((-spare) / 2) };
    BoardPlacement { mini_x, mini_y, pet_x: mini_x + half, pet_y: mini_y - PET_GAP - pet_h as i64 }
}

} // verus!
