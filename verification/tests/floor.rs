use arpg::floor::{floor_tiles, Tile, FLOOR_REACH, FLOOR_SPAN};

#[test]
fn floor_has_seven_by_seven_tiles() {
    let tiles = floor_tiles();
    assert_eq!(tiles.len(), 49);
    assert_eq!(FLOOR_SPAN, 7);
    assert_eq!(FLOOR_REACH, 3);
}

#[test]
fn floor_runs_along_z_first() {
    let tiles = floor_tiles();
    assert_eq!(tiles[0], Tile { x: -3, z: -3, dark: true });
    assert_eq!(tiles[1], Tile { x: -3, z: -2, dark: false });
    assert_eq!(tiles[6], Tile { x: -3, z: 3, dark: true });
    assert_eq!(tiles[7], Tile { x: -2, z: -3, dark: false });
    assert_eq!(tiles[24], Tile { x: 0, z: 0, dark: true });
    assert_eq!(tiles[48], Tile { x: 3, z: 3, dark: true });
}

#[test]
fn floor_is_chequered_as_the_remainder_says() {
    let tiles = floor_tiles();
    let mut index = 0;
    for x in -3..4 {
        for z in -3..4 {
            assert_eq!(tiles[index], Tile { x, z, dark: (x + z) % 2 == 0 });
            index += 1;
        }
    }
}

#[test]
fn neighbouring_tiles_differ_in_shade() {
    let tiles = floor_tiles();
    for a in tiles.iter() {
        for b in tiles.iter() {
            if (a.x - b.x).abs() + (a.z - b.z).abs() == 1 {
                assert_ne!(a.dark, b.dark);
            }
        }
    }
}
