use crate::raster::{lemma_cell_index, lemma_four_rotations, Raster, RasterModel, Rgba};
use vstd::prelude::*;

verus! {

/// The longest side a tile may have: the largest side of an image whose
/// sides are `i32` values.
pub const MAX_SIDE: usize = 0x7fff_ffff;

/// Why a raster cannot become a tile.
#[derive(Clone, Copy, Debug, PartialEq, Eq)]
pub enum TileError {
    /// A side is shorter than 3 pixels, so an edge has no three segments, or
    /// longer than `MAX_SIDE`.
    InvalidTileDimensions,
    /// The pixel buffer does not hold `width * height` pixels.
    DimensionMismatch,
}

/// Red plus green plus blue; alpha is ignored.
pub open spec fn intensity(p: Rgba) -> nat {
    p.r as nat + p.g as nat + p.b as nat
}

/// The summed intensity of `count` pixels of row `y`, from column `x0` rightwards.
pub open spec fn row_run(m: RasterModel, x0: int, y: int, count: nat) -> nat
    decreases count,
{
    if count == 0 {
        0
    } else {
        row_run(m, x0, y, (count - 1) as nat) + intensity(m.at(x0 + count - 1, y))
    }
}

/// The summed intensity of `count` pixels of column `x`, from row `y0` downwards.
pub open spec fn col_run(m: RasterModel, x: int, y0: int, count: nat) -> nat
    decreases count,
{
    if count == 0 {
        0
    } else {
        col_run(m, x, y0, (count - 1) as nat) + intensity(m.at(x, y0 + count - 1))
    }
}

/// Segment `i` (0, 1 or 2, left to right) of the top row.
pub open spec fn up_sig(m: RasterModel, i: int) -> nat {
    row_run(m, i * (m.width / 3) as int, 0, m.width / 3)
}

/// Segment `i` (left to right) of the bottom row.
pub open spec fn down_sig(m: RasterModel, i: int) -> nat {
    row_run(m, i * (m.width / 3) as int, m.height - 1, m.width / 3)
}

/// Segment `i` (top to bottom) of the left column.
pub open spec fn left_sig(m: RasterModel, i: int) -> nat {
    col_run(m, 0, i * (m.height / 3) as int, m.height / 3)
}

/// Segment `i` (top to bottom) of the right column.
pub open spec fn right_sig(m: RasterModel, i: int) -> nat {
    col_run(m, m.width - 1, i * (m.height / 3) as int, m.height / 3)
}

/// A raster that can be a tile: sides of 3 to `MAX_SIDE` pixels and a full buffer.
pub open spec fn tile_shape(m: RasterModel) -> bool {
    &&& m.wf()
    &&& 3 <= m.width <= MAX_SIDE
    &&& 3 <= m.height <= MAX_SIDE
}

/// Why `m` cannot be a tile, if it cannot.
pub open spec fn shape_error(m: RasterModel) -> Option<TileError> {
    if m.width < 3 || m.height < 3 || m.width > MAX_SIDE || m.height > MAX_SIDE {
        Some(TileError::InvalidTileDimensions)
    } else if m.pixels.len() != m.width * m.height {
        Some(TileError::DimensionMismatch)
    } else {
        None
    }
}

/// The four signatures, as computed from `m`.
pub open spec fn signed_by(up: Seq<u64>, down: Seq<u64>, left: Seq<u64>, right: Seq<u64>, m: RasterModel) -> bool {
    &&& up.len() == 3
    &&& down.len() == 3
    &&& left.len() == 3
    &&& right.len() == 3
    &&& forall|i: int|
        0 <= i < 3 ==> {
            &&& up[i] == up_sig(m, i)
            &&& down[i] == down_sig(m, i)
            &&& left[i] == left_sig(m, i)
            &&& right[i] == right_sig(m, i)
        }
}

/// `m` turned counter-clockwise `n` times.
pub open spec fn rotations(m: RasterModel, n: nat) -> RasterModel
    decreases n,
{
    if n == 0 {
        m
    } else {
        rotations(m, (n - 1) as nat).rotated_ccw()
    }
}

proof fn lemma_row_run_bound(m: RasterModel, x0: int, y: int, count: nat)
    ensures
        row_run(m, x0, y, count) <= 765 * count,
    decreases count,
{
    if count > 0 {
        lemma_row_run_bound(m, x0, y, (count - 1) as nat);
    }
}

proof fn lemma_col_run_bound(m: RasterModel, x: int, y0: int, count: nat)
    ensures
        col_run(m, x, y0, count) <= 765 * count,
    decreases count,
{
    if count > 0 {
        lemma_col_run_bound(m, x, y0, (count - 1) as nat);
    }
}

/// Sums `count` pixels of row `y` from column `x0`.
fn row_total(r: &Raster, x0: usize, y: usize, count: usize) -> (s: u64)
    requires
        tile_shape(r@),
        x0 + count <= r.width,
        y < r.height,
    ensures
        s == row_run(r@, x0 as int, y as int, count as nat),
{
    let n = r.pixels.len();
    let ghost m = r@;
    let mut s: u64 = 0;
    let mut k: usize = 0;
    while k < count
        invariant
            m == r@,
            tile_shape(m),
            n == m.pixels.len(),
            x0 + count <= r.width,
            y < r.height,
            k <= count,
            s == row_run(m, x0 as int, y as int, k as nat),
        decreases count - k,
    {
        proof {
            lemma_row_run_bound(m, x0 as int, y as int, (k + 1) as nat);
            lemma_cell_index(r.width as int, r.height as int, (x0 + k) as int, y as int);
        }
        let p = r.pixels[y * r.width + (x0 + k)];
        s = s + (p.r as u64 + p.g as u64 + p.b as u64);
        k += 1;
    }
    s
}

/// Sums `count` pixels of column `x` from row `y0`.
fn col_total(r: &Raster, x: usize, y0: usize, count: usize) -> (s: u64)
    requires
        tile_shape(r@),
        x < r.width,
        y0 + count <= r.height,
    ensures
        s == col_run(r@, x as int, y0 as int, count as nat),
{
    let n = r.pixels.len();
    let ghost m = r@;
    let mut s: u64 = 0;
    let mut k: usize = 0;
    while k < count
        invariant
            m == r@,
            tile_shape(m),
            n == m.pixels.len(),
            x < r.width,
            y0 + count <= r.height,
            k <= count,
            s == col_run(m, x as int, y0 as int, k as nat),
        decreases count - k,
    {
        proof {
            lemma_col_run_bound(m, x as int, y0 as int, (k + 1) as nat);
            lemma_cell_index(r.width as int, r.height as int, x as int, (y0 + k) as int);
        }
        let p = r.pixels[(y0 + k) * r.width + x];
        s = s + (p.r as u64 + p.g as u64 + p.b as u64);
        k += 1;
    }
    s
}

/// A catalog entry: a raster and the summed intensity of the three segments
/// of each of its four edges.
#[derive(Clone, Debug)]
pub struct Tile {
    pub raster: Raster,
    pub up: [u64; 3],
    pub down: [u64; 3],
    pub left: [u64; 3],
    pub right: [u64; 3],
}

impl Tile {
    /// A tile whose signatures are those of its raster.
    pub open spec fn wf(&self) -> bool {
        &&& tile_shape(self.raster@)
        &&& signed_by(self.up@, self.down@, self.left@, self.right@, self.raster@)
    }

    /// Builds the tile of `raster`, with its edge signatures.
    pub fn new(raster: Raster) -> (res: Result<Tile, TileError>)
        ensures
            shape_error(raster@) matches Some(e) ==> res == Err::<Tile, TileError>(e),
            shape_error(raster@) is None <==> tile_shape(raster@),
            shape_error(raster@) is None ==> (res matches Ok(t) && t.wf() && t.raster@ == raster@),
    {
        if raster.width < 3 || raster.height < 3 || raster.width > MAX_SIDE || raster.height > MAX_SIDE {
            return Err(TileError::InvalidTileDimensions);
        }
        let len = raster.pixels.len();
        match raster.width.checked_mul(raster.height) {
            Some(n) if n == len => {},
            _ => {
                return Err(TileError::DimensionMismatch);
            },
        }
        let mut t = Tile { raster, up: [0, 0, 0], down: [0, 0, 0], left: [0, 0, 0], right: [0, 0, 0] };
        t.set_rules();
        Ok(t)
    }

    /// Computes the four edge signatures from the raster: the top and bottom
    /// rows are cut into three runs of `width / 3` pixels, the left and right
    /// columns into three runs of `height / 3` pixels, left to right and top
    /// to bottom; a remainder of one or two pixels is left out.
    pub fn set_rules(&mut self)
        requires
            tile_shape(old(self).raster@),
        ensures
            final(self).raster@ == old(self).raster@,
            final(self).wf(),
    {
        let w = self.raster.width;
        let h = self.raster.height;
        let sw = w / 3;
        let sh = h / 3;
        let r = &self.raster;
        let up = [row_total(r, 0, 0, sw), row_total(r, sw, 0, sw), row_total(r, 2 * sw, 0, sw)];
        let down = [
            row_total(r, 0, h - 1, sw),
            row_total(r, sw, h - 1, sw),
            row_total(r, 2 * sw, h - 1, sw),
        ];
        let left = [col_total(r, 0, 0, sh), col_total(r, 0, sh, sh), col_total(r, 0, 2 * sh, sh)];
        let right = [
            col_total(r, w - 1, 0, sh),
            col_total(r, w - 1, sh, sh),
            col_total(r, w - 1, 2 * sh, sh),
        ];
        self.up = up;
        self.down = down;
        self.left = left;
        self.right = right;
        proof {
            let m = self.raster@;
            assert(0 * (m.width / 3) as int == 0);
            assert(1 * (m.width / 3) as int == sw);
            assert(0 * (m.height / 3) as int == 0);
            assert(1 * (m.height / 3) as int == sh);
        }
    }

    /// The tile of this tile's raster turned a quarter turn counter-clockwise.
    pub fn rotate(&self) -> (t: Tile)
        requires
            self.wf(),
        ensures
            t.wf(),
            t.raster@ == self.raster@.rotated_ccw(),
    {
        let raster = self.raster.rotate_ccw();
        let mut t = Tile { raster, up: [0, 0, 0], down: [0, 0, 0], left: [0, 0, 0], right: [0, 0, 0] };
        t.set_rules();
        t
    }
}


/// Builds the catalog of a base raster: the tile at index `i` is the base
/// turned `i` quarter turns counter-clockwise, for `i` in `0..4`.
pub fn build_catalog(base: Raster) -> (res: Result<Vec<Tile>, TileError>)
    ensures
        shape_error(base@) matches Some(e) ==> res == Err::<Vec<Tile>, TileError>(e),
        shape_error(base@) is None ==> (res matches Ok(tiles) && tiles.len() == 4 && forall|i: int|
            0 <= i < 4 ==> #[trigger] tiles[i].wf() && tiles[i].raster@ == rotations(base@, i as nat)),
{
    let ghost m = base@;
    let first = match Tile::new(base) {
        Ok(t) => t,
        Err(e) => {
            return Err(e);
        },
    };
    let mut tiles: Vec<Tile> = Vec::new();
    tiles.push(first);
    let mut k: usize = 1;
    while k < 4
        invariant
            1 <= k <= 4,
            tiles.len() == k,
            forall|i: int| 0 <= i < k ==> #[trigger] tiles[i].wf() && tiles[i].raster@ == rotations(m, i as nat),
        decreases 4 - k,
    {
        assert(tiles[k - 1].wf() && tiles[k - 1].raster@ == rotations(m, (k - 1) as nat));
        let next = tiles[k - 1].rotate();
        proof {
            assert(rotations(m, k as nat) == rotations(m, (k - 1) as nat).rotated_ccw());
        }
        let ghost before = tiles@;
        tiles.push(next);
        assert(forall|i: int| 0 <= i < k ==> tiles[i] == before[i]);
        k += 1;
    }
    Ok(tiles)
}

/// The signatures of a tile depend on its raster alone: two tiles of one
/// raster have the same signatures, and so the same per-segment totals over
/// the four edges.
pub proof fn lemma_signatures_determined(a: Tile, b: Tile)
    requires
        a.wf(),
        b.wf(),
        a.raster@ == b.raster@,
    ensures
        a.up@ == b.up@,
        a.down@ == b.down@,
        a.left@ == b.left@,
        a.right@ == b.right@,
        forall|i: int|
            0 <= i < 3 ==> a.up[i] + a.down[i] + a.left[i] + a.right[i] == b.up[i] + b.down[i]
                + b.left[i] + b.right[i],
{
    assert(a.up@ =~= b.up@);
    assert(a.down@ =~= b.down@);
    assert(a.left@ =~= b.left@);
    assert(a.right@ =~= b.right@);
}

/// Four quarter turns close the cycle: a tile built from a raster turned four
/// times has the signatures of the tile built from the raster itself.
pub proof fn lemma_four_turns_same_signatures(t: Tile, t4: Tile)
    requires
        t.wf(),
        t4.wf(),
        t4.raster@ == rotations(t.raster@, 4),
    ensures
        t4.up@ == t.up@,
        t4.down@ == t.down@,
        t4.left@ == t.left@,
        t4.right@ == t.right@,
{
    let m = t.raster@;
    reveal_with_fuel(rotations, 5);
    assert(rotations(m, 1) == m.rotated_ccw());
    assert(rotations(m, 2) == m.rotated_ccw().rotated_ccw());
    assert(rotations(m, 3) == m.rotated_ccw().rotated_ccw().rotated_ccw());
    assert(rotations(m, 4) == m.rotated_ccw().rotated_ccw().rotated_ccw().rotated_ccw());
    lemma_four_rotations(m);
    lemma_signatures_determined(t4, t);
}

} // verus!
