use vstd::prelude::*;

verus! {

/// Cell content code shared by the field, the shapes and the renderer:
/// one closed set of ten values covers empty space, the permanent walls,
/// the display-only ghost, and one tag per piece kind.
pub type TileColor = usize;

pub const NONE: TileColor = 0;

pub const WALL: TileColor = 1;

pub const GHOST: TileColor = 2;

pub const I: TileColor = 3;

pub const O: TileColor = 4;

pub const S: TileColor = 5;

pub const Z: TileColor = 6;

pub const J: TileColor = 7;

pub const L: TileColor = 8;

pub const T: TileColor = 9;

} // verus!
