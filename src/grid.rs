use vstd::prelude::*;

verus! {

/// One RGBA sample, eight bits per channel.
#[derive(Clone, Copy, Debug, PartialEq, Eq, Structural)]
pub struct Rgba {
    pub r: u8,
    pub g: u8,
    pub b: u8,
    pub a: u8,
}

/// A `width` x `height` raster of samples, stored row by row.
#[derive(Clone, Debug)]
pub struct PixelGrid {
    pub width: u32,
    pub height: u32,
    pub pixels: Vec<Rgba>,
}

/// The mathematical value of a pixel grid.
pub ghost struct GridModel {
    pub width: nat,
    pub height: nat,
    pub pixels: Seq<Rgba>,
}

impl GridModel {
    pub open spec fn wf(self) -> bool {
        self.pixels.len() == self.width * self.height
    }

    /// The sample in column `x` of row `y`.
    pub open spec fn at(self, x: int, y: int) -> Rgba {
        self.pixels[y * self.width + x]
    }

    /// The sub-grid with columns `x0..=x1` and rows `y0..=y1`.
    pub open spec fn crop(self, x0: int, y0: int, x1: int, y1: int) -> GridModel {
        let w = x1 - x0 + 1;
        let h = y1 - y0 + 1;
        GridModel {
            width: w as nat,
            height: h as nat,
            pixels: Seq::new(
                (w * h) as nat,
                |i: int| self.pixels[(y0 + i / w) * self.width + (x0 + i % w)],
            ),
        }
    }
}

impl View for PixelGrid {
    type V = GridModel;

    open spec fn view(&self) -> GridModel {
        GridModel { width: self.width as nat, height: self.height as nat, pixels: self.pixels@ }
    }
}

impl PixelGrid {
    /// The pixel count matches the dimensions.
    pub open spec fn wf(&self) -> bool {
        self@.wf()
    }

    /// Builds a grid from row-major samples; `None` when their count is not
    /// `width * height`.
    pub fn from_pixels(width: u32, height: u32, pixels: Vec<Rgba>) -> (r: Option<PixelGrid>)
        ensures
            r.is_some() <==> pixels@.len() == width * height,
            r matches Some(g) ==> g.wf() && g.width == width && g.height == height && g.pixels@
                == pixels@,
    {
        let len = pixels.len();
        let n = (width as usize).checked_mul(height as usize);
        match n {
            Some(n) => {
                if n == len {
                    Some(PixelGrid { width, height, pixels })
                } else {
                    None
                }
            },
            None => {
                None
            },
        }
    }
}

/// Index arithmetic of a sample inside a row-major raster.
pub proof fn lemma_index_in_bounds(x: int, y: int, w: int, h: int)
    requires
        0 <= x < w,
        0 <= y < h,
    ensures
        0 <= y * w + x < w * h,
        y * w + x >= 0,
{
    assert(0 <= y * w + x < w * h) by (nonlinear_arith)
        requires
            0 <= x < w,
            0 <= y < h,
    ;
}

/// Row and column of index `i` in a raster of width `w`.
pub proof fn lemma_index_split(x: int, y: int, w: int)
    requires
        0 <= x < w,
        0 <= y,
    ensures
        (y * w + x) / w == y,
        (y * w + x) % w == x,
{
    vstd::arithmetic::div_mod::lemma_fundamental_div_mod_converse(y * w + x, w, y, x);
}

/// A sample of a crop is the sample of the full grid shifted by the corner.
pub proof fn lemma_crop_at(g: GridModel, x0: int, y0: int, x1: int, y1: int, x: int, y: int)
    requires
        0 <= x0 <= x1,
        0 <= y0 <= y1,
        0 <= x <= x1 - x0,
        0 <= y <= y1 - y0,
    ensures
        g.crop(x0, y0, x1, y1).at(x, y) == g.at(x + x0, y + y0),
        0 <= y * (x1 - x0 + 1) + x < (x1 - x0 + 1) * (y1 - y0 + 1),
{
    let w = x1 - x0 + 1;
    lemma_index_split(x, y, w);
    lemma_index_in_bounds(x, y, w, y1 - y0 + 1);
}

} // verus!
