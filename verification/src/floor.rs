//! The chequered floor under the scene.

use vstd::prelude::*;

verus! {

/// The floor has this many tiles along each side.
pub const FLOOR_SPAN: usize = 7;

/// The tiles run from minus this to plus this along each side.
pub const FLOOR_REACH: i32 = 3;

/// One tile of the floor: its place in the grid and whether it is dark.
#[derive(Clone, Copy, PartialEq, Eq, Structural, Debug)]
pub struct Tile {
    pub x: i32,
    pub z: i32,
    pub dark: bool,
}

/// The tile at `index`, counting along `z` first and then along `x`. A tile
/// is dark where the sum of its two grid coordinates is even.
pub open spec fn tile_at(index: int) -> Tile {
    let x = index / 7 - 3;
    let z = index % 7 - 3;
    Tile { x: x as i32, z: z as i32, dark: (x + z) % 2 == 0 }
}

/// The tiles of the floor: seven by seven, centred on the origin.
pub fn floor_tiles() -> (tiles: Vec<Tile>)
    ensures
        tiles@.len() == 49,
        forall|i: int| 0 <= i < 49 ==> tiles@[i] == tile_at(i),
{
    let mut tiles: Vec<Tile> = Vec::new();
    let mut column: usize = 0;
    while column < FLOOR_SPAN
        invariant
            column <= FLOOR_SPAN,
            tiles@.len() == column * 7,
            forall|i: int| 0 <= i < tiles@.len() ==> tiles@[i] == tile_at(i),
        decreases FLOOR_SPAN - column,
    {
        let mut row: usize = 0;
        while row < FLOOR_SPAN
            invariant
                column < FLOOR_SPAN,
                row <= FLOOR_SPAN,
                tiles@.len() == column * 7 + row,
                forall|i: int| 0 <= i < tiles@.len() ==> tiles@[i] == tile_at(i),
            decreases FLOOR_SPAN - row,
        {
            let x: i32 = column as i32 - FLOOR_REACH;
            let z: i32 = row as i32 - FLOOR_REACH;
            let dark: bool = (column + row) % 2 == 0;
            proof {
                let index = column * 7 + row;
                assert(index / 7 == column && index % 7 == row);
                assert(((column + row) % 2 == 0) == ((x + z) % 2 == 0));
            }
            tiles.push(Tile { x, z, dark });
            row += 1;
        }
        column += 1;
    }
    tiles
}

} // verus!
