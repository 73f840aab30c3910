use wfc_tiles::{build_catalog, Raster, Rgba, Tile, TileError};

fn grey(v: u8) -> Rgba {
    Rgba { r: v, g: v, b: v, a: 255 }
}

/// A raster whose pixel at index `i` has red `i`, green `2 * i`, blue 0.
fn ramp(width: usize, height: usize) -> Raster {
    let mut pixels = Vec::new();
    for i in 0..width * height {
        pixels.push(Rgba { r: i as u8, g: (2 * i) as u8, b: 0, a: 7 });
    }
    Raster { width, height, pixels }
}

fn sum(i: usize) -> u64 {
    3 * i as u64
}

#[test]
fn signatures_of_three_by_three() {
    let t = Tile::new(ramp(3, 3)).unwrap();
    assert_eq!(t.up, [sum(0), sum(1), sum(2)]);
    assert_eq!(t.down, [sum(6), sum(7), sum(8)]);
    assert_eq!(t.left, [sum(0), sum(3), sum(6)]);
    assert_eq!(t.right, [sum(2), sum(5), sum(8)]);
}

#[test]
fn signatures_leave_out_the_remainder() {
    // 7 wide: runs of 2 columns, column 6 left out; 4 high: runs of 1 row, row 3 left out.
    let t = Tile::new(ramp(7, 4)).unwrap();
    assert_eq!(t.up, [sum(0) + sum(1), sum(2) + sum(3), sum(4) + sum(5)]);
    assert_eq!(t.down, [sum(21) + sum(22), sum(23) + sum(24), sum(25) + sum(26)]);
    assert_eq!(t.left, [sum(0), sum(7), sum(14)]);
    assert_eq!(t.right, [sum(6), sum(13), sum(20)]);
}

#[test]
fn alpha_is_ignored() {
    let a = Tile::new(Raster { width: 3, height: 3, pixels: vec![Rgba { r: 1, g: 2, b: 3, a: 0 }; 9] }).unwrap();
    let b = Tile::new(Raster { width: 3, height: 3, pixels: vec![Rgba { r: 1, g: 2, b: 3, a: 255 }; 9] }).unwrap();
    assert_eq!(a.up, [6, 6, 6]);
    assert_eq!(a.up, b.up);
    assert_eq!(a.right, b.right);
}

#[test]
fn large_intensities_add_up() {
    let t = Tile::new(Raster { width: 9, height: 6, pixels: vec![grey(255); 54] }).unwrap();
    assert_eq!(t.up, [3 * 765, 3 * 765, 3 * 765]);
    assert_eq!(t.left, [2 * 765, 2 * 765, 2 * 765]);
}

#[test]
fn too_small_is_rejected() {
    assert_eq!(Tile::new(ramp(2, 5)).unwrap_err(), TileError::InvalidTileDimensions);
    assert_eq!(Tile::new(ramp(5, 2)).unwrap_err(), TileError::InvalidTileDimensions);
    assert_eq!(Tile::new(ramp(0, 0)).unwrap_err(), TileError::InvalidTileDimensions);
    assert_eq!(build_catalog(ramp(3, 1)).unwrap_err(), TileError::InvalidTileDimensions);
}

#[test]
fn short_buffer_is_rejected() {
    let mut r = ramp(3, 3);
    r.pixels.pop();
    assert_eq!(Tile::new(r.clone()).unwrap_err(), TileError::DimensionMismatch);
    assert_eq!(build_catalog(r).unwrap_err(), TileError::DimensionMismatch);
}

#[test]
fn rotation_moves_pixels_counter_clockwise() {
    // 3 wide, 2 high: pixel (x, y) has red y * 3 + x.
    let r = ramp(3, 2);
    let q = r.rotate_ccw();
    assert_eq!(q.width, 2);
    assert_eq!(q.height, 3);
    let reds: Vec<u8> = q.pixels.iter().map(|p| p.r).collect();
    // top row of the result is the old right column, top to bottom.
    assert_eq!(reds, vec![2, 5, 1, 4, 0, 3]);
}

#[test]
fn rotated_tile_takes_right_edge_as_up() {
    let t = Tile::new(ramp(3, 3)).unwrap();
    let u = t.rotate();
    assert_eq!(u.up, t.right);
    assert_ne!(u.up, t.up);
}

#[test]
fn four_rotations_close_the_cycle() {
    let t = Tile::new(ramp(7, 5)).unwrap();
    let t4 = t.rotate().rotate().rotate().rotate();
    assert_eq!(t4.raster.pixels, t.raster.pixels);
    assert_eq!((t4.up, t4.down, t4.left, t4.right), (t.up, t.down, t.left, t.right));
}

#[test]
fn extraction_is_reproducible() {
    let a = Tile::new(ramp(6, 4)).unwrap();
    let b = Tile::new(ramp(6, 4)).unwrap();
    for i in 0..3 {
        assert_eq!(a.up[i] + a.down[i] + a.left[i] + a.right[i], b.up[i] + b.down[i] + b.left[i] + b.right[i]);
    }
    assert_eq!((a.up, a.down, a.left, a.right), (b.up, b.down, b.left, b.right));
}

#[test]
fn catalog_holds_four_rotations_in_order() {
    let base = ramp(4, 3);
    let tiles = build_catalog(base.clone()).unwrap();
    assert_eq!(tiles.len(), 4);
    assert_eq!(tiles[0].raster.pixels, base.pixels);
    let mut r = base.clone();
    for t in tiles.iter() {
        assert_eq!(t.raster.pixels, r.pixels);
        assert_eq!((t.raster.width, t.raster.height), (r.width, r.height));
        let fresh = Tile::new(r.clone()).unwrap();
        assert_eq!((t.up, t.down, t.left, t.right), (fresh.up, fresh.down, fresh.left, fresh.right));
        r = r.rotate_ccw();
    }
    assert_eq!(r.pixels, base.pixels);
}
