use vstd::arithmetic::div_mod::{lemma_fundamental_div_mod, lemma_fundamental_div_mod_converse};
use vstd::arithmetic::mul::{lemma_mul_inequality, lemma_mul_is_commutative};
use vstd::prelude::*;

verus! {

/// One RGBA pixel.
#[derive(Clone, Copy, Debug, PartialEq, Eq)]
pub struct Rgba {
    pub r: u8,
    pub g: u8,
    pub b: u8,
    pub a: u8,
}

/// A row-major raster: the pixel at column `x` and row `y` is `pixels[y * width + x]`.
#[derive(Clone, Debug)]
pub struct Raster {
    pub width: usize,
    pub height: usize,
    pub pixels: Vec<Rgba>,
}

/// The mathematical value of a raster.
pub struct RasterModel {
    pub width: nat,
    pub height: nat,
    pub pixels: Seq<Rgba>,
}

impl View for Raster {
    type V = RasterModel;

    open spec fn view(&self) -> RasterModel {
        RasterModel { width: self.width as nat, height: self.height as nat, pixels: self.pixels@ }
    }
}

impl RasterModel {
    /// The pixel buffer holds exactly `width * height` pixels.
    pub open spec fn wf(self) -> bool {
        self.pixels.len() == self.width * self.height
    }

    pub open spec fn at(self, x: int, y: int) -> Rgba {
        self.pixels[y * self.width + x]
    }

    /// The raster turned a quarter turn counter-clockwise: the new raster is
    /// `height` wide and `width` high, and its pixel at column `c`, row `r` is
    /// the old pixel at column `width - 1 - r`, row `c`.
    pub open spec fn rotated_ccw(self) -> RasterModel {
        RasterModel {
            width: self.height,
            height: self.width,
            pixels: Seq::new(
                self.pixels.len(),
                |i: int| self.at(self.width - 1 - i / (self.height as int), i % (self.height as int)),
            ),
        }
    }
}

/// Where a cell of a `w`-wide row-major buffer lies.
pub proof fn lemma_cell_index(w: int, h: int, x: int, y: int)
    requires
        0 <= x < w,
        0 <= y < h,
    ensures
        0 <= y * w + x < w * h,
        (y * w + x) / w == y,
        (y * w + x) % w == x,
{
    lemma_mul_inequality(y + 1, h, w);
    lemma_mul_is_commutative(w, h);
    assert((y + 1) * w == y * w + w) by (nonlinear_arith);
    assert(0 <= y * w) by (nonlinear_arith)
        requires
            0 <= y,
            0 < w,
    ;
    lemma_fundamental_div_mod_converse(y * w + x, w, y, x);
}

/// Every index of a `w`-wide row-major buffer of `w * h` cells splits into a row and a column.
proof fn lemma_index_split(w: int, h: int, i: int)
    requires
        0 < w,
        0 <= i < w * h,
    ensures
        0 <= i / w < h,
        0 <= i % w < w,
        i == (i / w) * w + i % w,
{
    lemma_fundamental_div_mod(i, w);
    lemma_mul_is_commutative(w, i / w);
    if i / w >= h {
        lemma_mul_inequality(h, i / w, w);
        lemma_mul_is_commutative(w, h);
    }
    assert(i / w >= 0) by (nonlinear_arith)
        requires
            0 < w,
            0 <= i,
    ;
}

/// The pixel of the rotated raster at column `c`, row `r`.
pub proof fn lemma_rotated_at(m: RasterModel, c: int, r: int)
    requires
        m.wf(),
        0 <= c < m.height,
        0 <= r < m.width,
    ensures
        m.rotated_ccw().wf(),
        m.rotated_ccw().at(c, r) == m.at(m.width - 1 - r, c),
        0 <= r * m.height + c < m.pixels.len(),
{
    lemma_mul_is_commutative(m.width as int, m.height as int);
    lemma_cell_index(m.height as int, m.width as int, c, r);
}

/// Four quarter turns give back the raster that was turned.
pub proof fn lemma_four_rotations(m: RasterModel)
    requires
        m.wf(),
    ensures
        m.rotated_ccw().rotated_ccw().rotated_ccw().rotated_ccw() == m,
{
    let m1 = m.rotated_ccw();
    let m2 = m1.rotated_ccw();
    let m3 = m2.rotated_ccw();
    let m4 = m3.rotated_ccw();
    let w = m.width as int;
    let h = m.height as int;
    assert(m4.pixels =~= m.pixels) by {
        assert forall|i: int| 0 <= i < m.pixels.len() implies m4.pixels[i] == m.pixels[i] by {
            lemma_mul_is_commutative(w, h);
            lemma_index_split(w, h, i);
            let y = i / w;
            let x = i % w;
            lemma_rotated_at(m, y, w - 1 - x);
            lemma_rotated_at(m1, w - 1 - x, h - 1 - y);
            lemma_rotated_at(m2, h - 1 - y, x);
            lemma_rotated_at(m3, x, y);
        }
    }
}

impl Raster {
    /// Turns the raster a quarter turn counter-clockwise.
    pub fn rotate_ccw(&self) -> (out: Raster)
        requires
            self@.wf(),
        ensures
            out@ == self@.rotated_ccw(),
            out@.wf(),
    {
        let w = self.width;
        let h = self.height;
        let n = self.pixels.len();
        let ghost m = self@;
        let mut pixels: Vec<Rgba> = Vec::new();
        let mut r: usize = 0;
        while r < w
            invariant
                m == self@,
                w == m.width,
                h == m.height,
                m.wf(),
                n == m.pixels.len(),
                r <= w,
                pixels@.len() == r * h,
                forall|i: int| 0 <= i < pixels@.len() ==> pixels@[i] == m.rotated_ccw().pixels[i],
            decreases w - r,
        {
            let mut c: usize = 0;
            while c < h
                invariant
                    m == self@,
                    w == m.width,
                    h == m.height,
                    m.wf(),
                    n == m.pixels.len(),
                    r < w,
                    c <= h,
                    pixels@.len() == r * h + c,
                    forall|i: int| 0 <= i < pixels@.len() ==> pixels@[i] == m.rotated_ccw().pixels[i],
                decreases h - c,
            {
                proof {
                    lemma_rotated_at(m, c as int, r as int);
                    lemma_cell_index(w as int, h as int, (w - 1 - r) as int, c as int);
                    lemma_cell_index(h as int, w as int, c as int, r as int);
                }
                let p = self.pixels[c * w + (w - 1 - r)];
                pixels.push(p);
                c += 1;
            }
            proof {
                assert((r + 1) * h == r * h + h) by (nonlinear_arith);
            }
            r += 1;
        }
        let out = Raster { width: h, height: w, pixels };
        proof {
            lemma_mul_is_commutative(w as int, h as int);
            assert(out@.pixels =~= m.rotated_ccw().pixels);
        }
        out
    }
}

} // verus!
