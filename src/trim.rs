use crate::grid::{lemma_crop_at, lemma_index_in_bounds, lemma_index_split, GridModel, PixelGrid, Rgba};
use vstd::prelude::*;

verus! {

/// Channel level at or above which a sample counts as white.
pub const WHITE_LEVEL: u8 = 240;

/// A sample is background when each of its colour channels is near white;
/// alpha plays no part.
pub open spec fn is_background(p: Rgba) -> bool {
    p.r >= WHITE_LEVEL && p.g >= WHITE_LEVEL && p.b >= WHITE_LEVEL
}

/// Some sample of the grid is not background, so that the content has a
/// bounding box.
pub open spec fn has_content(g: GridModel) -> bool {
    exists|b: (int, int, int, int)| is_content_box(g, b.0, b.1, b.2, b.3)
}

/// Columns `x0..=x1` and rows `y0..=y1` form the smallest rectangle that holds
/// every non-background sample: each of its four edges touches one.
pub open spec fn is_content_box(g: GridModel, x0: int, y0: int, x1: int, y1: int) -> bool {
    let w = g.width as int;
    &&& forall|i: int|
        0 <= i < g.pixels.len() && !is_background(#[trigger] g.pixels[i]) ==> x0 <= i % w <= x1
            && y0 <= i / w <= y1
    &&& exists|i: int|
        0 <= i < g.pixels.len() && !is_background(#[trigger] g.pixels[i]) && i % w == x0
    &&& exists|i: int|
        0 <= i < g.pixels.len() && !is_background(#[trigger] g.pixels[i]) && i % w == x1
    &&& exists|i: int|
        0 <= i < g.pixels.len() && !is_background(#[trigger] g.pixels[i]) && i / w == y0
    &&& exists|i: int|
        0 <= i < g.pixels.len() && !is_background(#[trigger] g.pixels[i]) && i / w == y1
}

/// The bounding box of the content (meaningful when there is content).
pub open spec fn content_box(g: GridModel) -> (int, int, int, int) {
    choose|b: (int, int, int, int)| is_content_box(g, b.0, b.1, b.2, b.3)
}

/// The grid with its near-white margins cut away: the content box grown by one
/// sample on each side, clamped to the grid. A grid without content, or whose
/// content already reaches all four edges, is returned as it is.
pub open spec fn trimmed(g: GridModel) -> GridModel {
    if !has_content(g) {
        g
    } else {
        let b = content_box(g);
        if b.0 == 0 && b.1 == 0 && b.2 == g.width - 1 && b.3 == g.height - 1 {
            g
        } else {
            g.crop(
                if b.0 > 0 { b.0 - 1 } else { 0 },
                if b.1 > 0 { b.1 - 1 } else { 0 },
                if b.2 + 1 < g.width { b.2 + 1 } else { g.width - 1 },
                if b.3 + 1 < g.height { b.3 + 1 } else { g.height - 1 },
            )
        }
    }
}

/// The content box is unique.
proof fn lemma_content_box_unique(
    g: GridModel,
    x0: int,
    y0: int,
    x1: int,
    y1: int,
    a0: int,
    b0: int,
    a1: int,
    b1: int,
)
    requires
        is_content_box(g, x0, y0, x1, y1),
        is_content_box(g, a0, b0, a1, b1),
    ensures
        x0 == a0 && y0 == b0 && x1 == a1 && y1 == b1,
{
}

/// Once a content box is known, `trimmed` is described by it.
proof fn lemma_content_box_chosen(g: GridModel, x0: int, y0: int, x1: int, y1: int)
    requires
        is_content_box(g, x0, y0, x1, y1),
    ensures
        has_content(g),
        content_box(g) == (x0, y0, x1, y1),
{
    let b = (x0, y0, x1, y1);
    assert(is_content_box(g, b.0, b.1, b.2, b.3));
    let c = content_box(g);
    lemma_content_box_unique(g, x0, y0, x1, y1, c.0, c.1, c.2, c.3);
}

/// Copies columns `x0..=x1` of rows `y0..=y1`.
fn crop(img: &PixelGrid, x0: u32, y0: u32, x1: u32, y1: u32) -> (r: PixelGrid)
    requires
        img.wf(),
        x0 <= x1 < img.width,
        y0 <= y1 < img.height,
    ensures
        r.wf(),
        r@ == img@.crop(x0 as int, y0 as int, x1 as int, y1 as int),
{
    let ghost g = img@;
    let w = img.width as usize;
    let n = img.pixels.len();
    let cw = (x1 - x0 + 1) as usize;
    let ch = (y1 - y0 + 1) as usize;
    let mut out: Vec<Rgba> = Vec::new();
    let mut y: usize = y0 as usize;
    while y <= y1 as usize
        invariant
            img.wf(),
            g == img@,
            w == img.width,
            n == img.pixels@.len(),
            x0 <= x1 < img.width,
            y0 <= y1 < img.height,
            cw == x1 - x0 + 1,
            ch == y1 - y0 + 1,
            y0 <= y <= y1 + 1,
            out@.len() == (y - y0) * cw,
            forall|i: int|
                0 <= i < out@.len() ==> #[trigger] out@[i] == g.pixels[(y0 + i / (cw as int))
                    * w + (x0 + i % (cw as int))],
        decreases y1 + 1 - y,
    {
        let mut x: usize = x0 as usize;
        while x <= x1 as usize
            invariant
                img.wf(),
                g == img@,
                w == img.width,
                n == img.pixels@.len(),
                x0 <= x1 < img.width,
                y0 <= y <= y1 < img.height,
                cw == x1 - x0 + 1,
                x0 <= x <= x1 + 1,
                out@.len() == (y - y0) * cw + (x - x0),
                forall|i: int|
                    0 <= i < out@.len() ==> #[trigger] out@[i] == g.pixels[(y0 + i / (cw as int))
                        * w + (x0 + i % (cw as int))],
            decreases x1 + 1 - x,
        {
            proof {
                lemma_index_in_bounds(x as int, y as int, w as int, img.height as int);
                lemma_index_split((x - x0) as int, (y - y0) as int, cw as int);
            }
            let p = img.pixels[y * w + x];
            out.push(p);
            x = x + 1;
        }
        proof {
            assert((y - y0) * cw + cw == (y + 1 - y0) * cw) by (nonlinear_arith);
        }
        y = y + 1;
    }
    proof {
        assert((y1 + 1 - y0) * cw == cw * ch) by (nonlinear_arith)
            requires
                ch == y1 - y0 + 1,
        ;
        assert(out@ =~= g.crop(x0 as int, y0 as int, x1 as int, y1 as int).pixels);
    }
    PixelGrid { width: x1 - x0 + 1, height: y1 - y0 + 1, pixels: out }
}

/// A copy of the grid, sample for sample.
fn copy_grid(img: &PixelGrid) -> (r: PixelGrid)
    ensures
        r@ == img@,
{
    let mut out: Vec<Rgba> = Vec::new();
    let mut i: usize = 0;
    while i < img.pixels.len()
        invariant
            i <= img.pixels@.len(),
            out@ == img.pixels@.subrange(0, i as int),
        decreases img.pixels@.len() - i,
    {
        out.push(img.pixels[i]);
        i = i + 1;
        proof {
            assert(out@ =~= img.pixels@.subrange(0, i as int));
        }
    }
    proof {
        assert(out@ =~= img.pixels@);
    }
    PixelGrid { width: img.width, height: img.height, pixels: out }
}

/// Whether a sample is near white.
fn background(p: Rgba) -> (r: bool)
    ensures
        r == is_background(p),
{
    p.r >= WHITE_LEVEL && p.g >= WHITE_LEVEL && p.b >= WHITE_LEVEL
}

/// Crops near-white margins from the grid, keeping one sample of margin
/// around the content where the grid has it.
pub fn remove_white_borders(img: &PixelGrid) -> (r: PixelGrid)
    requires
        img.wf(),
    ensures
        r.wf(),
        r@ == trimmed(img@),
{
    let ghost g = img@;
    let n = img.pixels.len();
    if n == 0 {
        return copy_grid(img);
    }
    let w = img.width as usize;
    let h = img.height as usize;
    proof {
        assert(w > 0 && h > 0) by (nonlinear_arith)
            requires
                n == w * h,
                n > 0,
        ;
    }
    let mut found = false;
    let mut min_x: usize = 0;
    let mut min_y: usize = 0;
    let mut max_x: usize = 0;
    let mut max_y: usize = 0;
    let ghost mut wx0: int = 0;
    let ghost mut wy0: int = 0;
    let ghost mut wx1: int = 0;
    let ghost mut wy1: int = 0;
    let mut x: usize = 0;
    let mut y: usize = 0;
    let mut k: usize = 0;
    while k < n
        invariant
            g == img@,
            img.wf(),
            n == g.pixels.len(),
            w == g.width,
            h == g.height,
            w > 0,
            k <= n,
            x < w,
            k == y * w + x,
            found ==> {
                &&& forall|i: int|
                    0 <= i < k && !is_background(#[trigger] g.pixels[i]) ==> min_x <= i % (w as int)
                        <= max_x && min_y <= i / (w as int) <= max_y
                &&& 0 <= wx0 < k && !is_background(g.pixels[wx0]) && wx0 % (w as int) == min_x
                &&& 0 <= wx1 < k && !is_background(g.pixels[wx1]) && wx1 % (w as int) == max_x
                &&& 0 <= wy0 < k && !is_background(g.pixels[wy0]) && wy0 / (w as int) == min_y
                &&& 0 <= wy1 < k && !is_background(g.pixels[wy1]) && wy1 / (w as int) == max_y
            },
            !found ==> forall|i: int| 0 <= i < k ==> is_background(#[trigger] g.pixels[i]),
            min_x <= max_x < w,
            min_y <= max_y < h,
        decreases n - k,
    {
        proof {
            lemma_index_split(x as int, y as int, w as int);
            assert(y < h) by (nonlinear_arith)
                requires
                    k == y * w + x,
                    k < n,
                    n == w * h,
                    x < w,
            ;
        }
        if !background(img.pixels[k]) {
            if !found {
                min_x = x;
                max_x = x;
                min_y = y;
                max_y = y;
                found = true;
                proof {
                    wx0 = k as int;
                    wx1 = k as int;
                    wy0 = k as int;
                    wy1 = k as int;
                }
            } else {
                if x < min_x {
                    min_x = x;
                    proof {
                        wx0 = k as int;
                    }
                }
                if x > max_x {
                    max_x = x;
                    proof {
                        wx1 = k as int;
                    }
                }
                if y < min_y {
                    min_y = y;
                    proof {
                        wy0 = k as int;
                    }
                }
                if y > max_y {
                    max_y = y;
                    proof {
                        wy1 = k as int;
                    }
                }
            }
        }
        k = k + 1;
        if x + 1 == w {
            proof {
                assert(k == (y + 1) * w) by (nonlinear_arith)
                    requires
                        k == y * w + x + 1,
                        x + 1 == w,
                ;
            }
            x = 0;
            y = y + 1;
        } else {
            x = x + 1;
        }
    }
    if !found {
        proof {
            assert forall|b: (int, int, int, int)| !is_content_box(g, b.0, b.1, b.2, b.3) by {
                if is_content_box(g, b.0, b.1, b.2, b.3) {
                    let i = choose|i: int|
                        0 <= i < g.pixels.len() && !is_background(#[trigger] g.pixels[i]) && i
                            % (w as int) == b.0;
                    assert(is_background(g.pixels[i]));
                }
            }
        }
        return copy_grid(img);
    }
    proof {
        assert(is_content_box(g, min_x as int, min_y as int, max_x as int, max_y as int));
        lemma_content_box_chosen(g, min_x as int, min_y as int, max_x as int, max_y as int);
    }
    if min_x == 0 && min_y == 0 && max_x == w - 1 && max_y == h - 1 {
        return copy_grid(img);
    }
    let x0 = if min_x > 0 { min_x - 1 } else { 0 };
    let y0 = if min_y > 0 { min_y - 1 } else { 0 };
    let x1 = if max_x + 1 < w { max_x + 1 } else { w - 1 };
    let y1 = if max_y + 1 < h { max_y + 1 } else { h - 1 };
    crop(img, x0 as u32, y0 as u32, x1 as u32, y1 as u32)
}

/// Cropping a grid to its full extent gives the grid back.
proof fn lemma_crop_whole(t: GridModel)
    requires
        t.wf(),
        t.width > 0,
        t.height > 0,
    ensures
        t.crop(0, 0, t.width - 1, t.height - 1) == t,
{
    let c = t.crop(0, 0, t.width - 1, t.height - 1);
    let w = t.width as int;
    assert forall|i: int| 0 <= i < c.pixels.len() implies c.pixels[i] == t.pixels[i] by {
        vstd::arithmetic::div_mod::lemma_fundamental_div_mod(i, w);
        assert(i / w * w == w * (i / w)) by (nonlinear_arith);
    }
    assert(c.pixels =~= t.pixels);
}

/// The content box of a crop that holds all content is the content box of the
/// grid, shifted by the crop's corner.
proof fn lemma_crop_content_box(
    g: GridModel,
    x0: int,
    y0: int,
    x1: int,
    y1: int,
    cx0: int,
    cy0: int,
    cx1: int,
    cy1: int,
)
    requires
        g.wf(),
        is_content_box(g, x0, y0, x1, y1),
        0 <= cx0 <= x0,
        x1 <= cx1 < g.width,
        0 <= cy0 <= y0,
        y1 <= cy1 < g.height,
    ensures
        is_content_box(g.crop(cx0, cy0, cx1, cy1), x0 - cx0, y0 - cy0, x1 - cx0, y1 - cy0),
{
    let t = g.crop(cx0, cy0, cx1, cy1);
    let w = g.width as int;
    let cw = cx1 - cx0 + 1;
    let ch = cy1 - cy0 + 1;
    assert(0 < cw * ch) by (nonlinear_arith)
        requires
            cw > 0,
            ch > 0,
    ;
    // Each sample of the crop is a sample of the grid.
    assert forall|i: int| 0 <= i < t.pixels.len() implies {
        let j = (cy0 + i / cw) * w + (cx0 + i % cw);
        &&& 0 <= j < g.pixels.len()
        &&& #[trigger] t.pixels[i] == g.pixels[j]
        &&& j % w == cx0 + i % cw
        &&& j / w == cy0 + i / cw
    } by {
        vstd::arithmetic::div_mod::lemma_fundamental_div_mod(i, cw);
        assert(i / cw < ch) by (nonlinear_arith)
            requires
                0 <= i < cw * ch,
                cw > 0,
                i / cw * cw <= i,
        ;
        assert(i / cw * cw == cw * (i / cw)) by (nonlinear_arith);
        vstd::arithmetic::div_mod::lemma_div_pos_is_pos(i, cw);
        lemma_index_split(cx0 + i % cw, cy0 + i / cw, w);
        lemma_index_in_bounds(cx0 + i % cw, cy0 + i / cw, w, g.height as int);
    }
    // Each sample of the grid inside the crop is a sample of the crop.
    assert forall|j: int|
        0 <= j < g.pixels.len() && cx0 <= j % w <= cx1 && cy0 <= j / w <= cy1 implies {
        let i = (j / w - cy0) * cw + (j % w - cx0);
        &&& 0 <= i < t.pixels.len()
        &&& t.pixels[i] == #[trigger] g.pixels[j]
        &&& i % cw == j % w - cx0
        &&& i / cw == j / w - cy0
    } by {
        lemma_crop_at(g, cx0, cy0, cx1, cy1, j % w - cx0, j / w - cy0);
        vstd::arithmetic::div_mod::lemma_fundamental_div_mod(j, w);
        assert(j / w * w == w * (j / w)) by (nonlinear_arith);
        lemma_index_split(j % w - cx0, j / w - cy0, cw);
    }
    let tx0 = x0 - cx0;
    let ty0 = y0 - cy0;
    let tx1 = x1 - cx0;
    let ty1 = y1 - cy0;
    assert forall|i: int|
        0 <= i < t.pixels.len() && !is_background(#[trigger] t.pixels[i]) implies tx0 <= i % cw
        <= tx1 && ty0 <= i / cw <= ty1 by {
        let j = (cy0 + i / cw) * w + (cx0 + i % cw);
        assert(!is_background(g.pixels[j]));
    }
    let j0 = choose|i: int| 0 <= i < g.pixels.len() && !is_background(#[trigger] g.pixels[i]) && i % w == x0;
    let j1 = choose|i: int| 0 <= i < g.pixels.len() && !is_background(#[trigger] g.pixels[i]) && i % w == x1;
    let j2 = choose|i: int| 0 <= i < g.pixels.len() && !is_background(#[trigger] g.pixels[i]) && i / w == y0;
    let j3 = choose|i: int| 0 <= i < g.pixels.len() && !is_background(#[trigger] g.pixels[i]) && i / w == y1;
    let i0 = (j0 / w - cy0) * cw + (j0 % w - cx0);
    let i1 = (j1 / w - cy0) * cw + (j1 % w - cx0);
    let i2 = (j2 / w - cy0) * cw + (j2 % w - cx0);
    let i3 = (j3 / w - cy0) * cw + (j3 % w - cx0);
    assert(!is_background(t.pixels[i0]) && i0 % cw == tx0);
    assert(!is_background(t.pixels[i1]) && i1 % cw == tx1);
    assert(!is_background(t.pixels[i2]) && i2 / cw == ty0);
    assert(!is_background(t.pixels[i3]) && i3 / cw == ty1);
}

/// Trimming is idempotent: a trimmed grid has no margin left to cut.
pub proof fn lemma_trim_idempotent(g: GridModel)
    requires
        g.wf(),
    ensures
        trimmed(trimmed(g)) == trimmed(g),
{
    if has_content(g) {
        let b = content_box(g);
        if !(b.0 == 0 && b.1 == 0 && b.2 == g.width - 1 && b.3 == g.height - 1) {
            let w = g.width as int;
            let cx0 = if b.0 > 0 { b.0 - 1 } else { 0 };
            let cy0 = if b.1 > 0 { b.1 - 1 } else { 0 };
            let cx1 = if b.2 + 1 < g.width { b.2 + 1 } else { g.width - 1 };
            let cy1 = if b.3 + 1 < g.height { b.3 + 1 } else { g.height - 1 };
            let j = choose|i: int| 0 <= i < g.pixels.len() && !is_background(#[trigger] g.pixels[i]) && i % w == b.0;
            let j2 = choose|i: int| 0 <= i < g.pixels.len() && !is_background(#[trigger] g.pixels[i]) && i % w == b.2;
            let j3 = choose|i: int| 0 <= i < g.pixels.len() && !is_background(#[trigger] g.pixels[i]) && i / w == b.1;
            let j4 = choose|i: int| 0 <= i < g.pixels.len() && !is_background(#[trigger] g.pixels[i]) && i / w == b.3;
            assert(w > 0) by (nonlinear_arith)
                requires
                    0 <= j < g.pixels.len(),
                    g.pixels.len() == w * g.height,
            ;
            vstd::arithmetic::div_mod::lemma_fundamental_div_mod(j, w);
            vstd::arithmetic::div_mod::lemma_fundamental_div_mod(j2, w);
            vstd::arithmetic::div_mod::lemma_fundamental_div_mod(j3, w);
            vstd::arithmetic::div_mod::lemma_fundamental_div_mod(j4, w);
            assert(j3 / w < g.height && j4 / w < g.height && 0 <= j3 / w) by (nonlinear_arith)
                requires
                    0 <= j3 < w * g.height,
                    0 <= j4 < w * g.height,
                    w > 0,
                    j3 / w * w <= j3,
                    j4 / w * w <= j4,
                    j3 == w * (j3 / w) + j3 % w,
                    j4 == w * (j4 / w) + j4 % w,
                    0 <= j3 % w,
                    0 <= j4 % w,
            ;
            lemma_crop_content_box(g, b.0, b.1, b.2, b.3, cx0, cy0, cx1, cy1);
            let t = g.crop(cx0, cy0, cx1, cy1);
            assert(t.wf());
            lemma_content_box_chosen(t, b.0 - cx0, b.1 - cy0, b.2 - cx0, b.3 - cy0);
            lemma_crop_whole(t);
        }
    }
}

/// A grid whose first and last samples are content spans its whole extent
/// and is kept as it is.
pub proof fn lemma_trim_keeps_spanning_content(g: GridModel)
    requires
        g.wf(),
        g.pixels.len() > 0,
        !is_background(g.pixels[0]),
        !is_background(g.pixels[g.pixels.len() - 1]),
    ensures
        trimmed(g) == g,
{
    let w = g.width as int;
    let h = g.height as int;
    let last = g.pixels.len() - 1;
    assert(w > 0 && h > 0) by (nonlinear_arith)
        requires
            g.pixels.len() == w * h,
            g.pixels.len() > 0,
            w >= 0,
            h >= 0,
    ;
    lemma_index_split(0, 0, w);
    lemma_index_split(w - 1, h - 1, w);
    assert(last == (h - 1) * w + (w - 1)) by (nonlinear_arith)
        requires
            last == w * h - 1,
    ;
    assert forall|i: int|
        0 <= i < g.pixels.len() && !is_background(#[trigger] g.pixels[i]) implies 0 <= i % w <= w
        - 1 && 0 <= i / w <= h - 1 by {
        vstd::arithmetic::div_mod::lemma_fundamental_div_mod(i, w);
        vstd::arithmetic::div_mod::lemma_div_pos_is_pos(i, w);
        assert(i / w < h) by (nonlinear_arith)
            requires
                0 <= i < w * h,
                i == w * (i / w) + i % w,
                0 <= i % w,
                w > 0,
        ;
    }
    assert(is_content_box(g, 0, 0, w - 1, h - 1));
    lemma_content_box_chosen(g, 0, 0, w - 1, h - 1);
}

} // verus!
