//! The rule by which a level, drawn as a bitmap, becomes walls: every pixel
//! that is black and opaque stands for one square wall of the size of a cell.

use vstd::prelude::*;
use crate::geom::{Hitbox, PlacedShape, Shape, Vec2};

verus! {

/// The width of a cell of the level, in units: 32 world units.
pub const CELL: i64 = 32_000_000;

/// Whether a pixel, given as red, green, blue and alpha, stands for a wall.
pub open spec fn is_wall_spec(pixel: [u8; 4]) -> bool {
    pixel[0] == 0 && pixel[1] == 0 && pixel[2] == 0 && pixel[3] == 255
}

/// The hitbox of the wall of the cell in column `x` and row `y`.
pub open spec fn wall_hitbox_spec(x: int, y: int) -> Hitbox {
    Hitbox {
        value: PlacedShape {
            pos: Vec2 { x: (x * CELL) as i64, y: (y * CELL) as i64 },
            shape: Shape { dims: Vec2 { x: CELL, y: CELL } },
        },
        vel: Vec2 { x: 0, y: 0 },
    }
}

/// The walls of the first `n` pixels of an image that is `width` pixels
/// wide, its pixels given row by row.
pub open spec fn walls_upto(width: int, pixels: Seq<[u8; 4]>, n: int) -> Seq<Hitbox>
    decreases n,
{
    if n <= 0 {
        Seq::empty()
    } else {
        let rest = walls_upto(width, pixels, n - 1);
        if is_wall_spec(pixels[n - 1]) {
            rest.push(wall_hitbox_spec((n - 1) % width, (n - 1) / width))
        } else {
            rest
        }
    }
}

/// Whether a pixel, given as red, green, blue and alpha, stands for a wall.
pub fn is_wall(pixel: [u8; 4]) -> (r: bool)
    ensures
        r == is_wall_spec(pixel),
{
    pixel[0] == 0 && pixel[1] == 0 && pixel[2] == 0 && pixel[3] == 255
}

/// The hitbox of the wall that the pixel in column `x` and row `y` stands
/// for: a square of the width of a cell, at rest, with its centre at the
/// place of the pixel counted in cells.
pub fn wall_hitbox(x: u32, y: u32) -> (r: Hitbox)
    ensures
        r == wall_hitbox_spec(x as int, y as int),
        r.wf(),
{
    let px: i64 = (x as i64) * CELL;
    let py: i64 = (y as i64) * CELL;
    Shape::square(CELL).place(Vec2 { x: px, y: py }).still()
}

/// Turns the pixels of a level into its walls. The image is `width` pixels
/// wide and its pixels are given row by row, each row from left to right. The
/// walls come in the order of their pixels.
pub fn load_level(width: u32, pixels: &Vec<[u8; 4]>) -> (r: Vec<Hitbox>)
    requires
        0 < width,
        pixels@.len() <= u32::MAX,
    ensures
        r@ == walls_upto(width as int, pixels@, pixels@.len() as int),
        forall|k: int| 0 <= k < r@.len() ==> (#[trigger] r@[k]).wf(),
{
    let mut walls: Vec<Hitbox> = Vec::new();
    let mut i: usize = 0;
    while i < pixels.len()
        invariant
            0 < width,
            pixels@.len() <= u32::MAX,
            i <= pixels@.len(),
            walls@ == walls_upto(width as int, pixels@, i as int),
            forall|k: int| 0 <= k < walls@.len() ==> (#[trigger] walls@[k]).wf(),
        decreases pixels.len() - i,
    {
        if is_wall(pixels[i]) {
            let k: u32 = i as u32;
            walls.push(wall_hitbox(k % width, k / width));
        }
        i += 1;
    }
    walls
}

} // verus!
