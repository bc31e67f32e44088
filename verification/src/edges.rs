use vstd::prelude::*;

use crate::config::Config;
use crate::grid::{cell_or, flat_index, lemma_flat_index_bound, lemma_flat_index_lt, Grid};

verus! {

/// A luminance sample pulled into the clamp range [dark, bright].
pub open spec fn clamp_sample(v: u8, dark: u8, bright: u8) -> u8 {
    if v < dark {
        dark
    } else if v > bright {
        bright
    } else {
        v
    }
}

/// The clamped luminance at (x, y) of the raw image buffer `s`, with zero
/// padding outside the image.
pub open spec fn lum(s: Seq<u8>, w: int, h: int, cfg: Config, x: int, y: int) -> int {
    if 0 <= x < w && 0 <= y < h {
        clamp_sample(s[flat_index(w, x, y)], cfg.dark, cfg.bright) as int
    } else {
        0
    }
}

/// Sum of the three horizontally adjacent clamped samples centred on (x, y).
pub open spec fn row_sum(s: Seq<u8>, w: int, h: int, cfg: Config, x: int, y: int) -> int {
    lum(s, w, h, cfg, x - 1, y) + lum(s, w, h, cfg, x, y) + lum(s, w, h, cfg, x + 1, y)
}

/// Sum of the three vertically adjacent clamped samples centred on (x, y).
pub open spec fn col_sum(s: Seq<u8>, w: int, h: int, cfg: Config, x: int, y: int) -> int {
    lum(s, w, h, cfg, x, y - 1) + lum(s, w, h, cfg, x, y) + lum(s, w, h, cfg, x, y + 1)
}

/// A raw convolution value clamped to the 8-bit sample range.
pub open spec fn clamp_response(v: int) -> int {
    if v < 0 {
        0
    } else if v > 255 {
        255
    } else {
        v
    }
}

/// Response of the horizontal-edge kernel, rows [E,E,E], [1,1,1], [-E,-E,-E],
/// at pixel (x, y), clamped to 8 bits.
pub open spec fn horizontal_response(
    s: Seq<u8>,
    w: int,
    h: int,
    cfg: Config,
    x: int,
    y: int,
) -> int {
    clamp_response(
        cfg.edge_coef * row_sum(s, w, h, cfg, x, y - 1) + row_sum(s, w, h, cfg, x, y)
            - cfg.edge_coef * row_sum(s, w, h, cfg, x, y + 1),
    )
}

/// Response of the vertical-edge kernel, columns [E,E,E], [1,1,1],
/// [-E,-E,-E], at pixel (x, y), clamped to 8 bits.
pub open spec fn vertical_response(s: Seq<u8>, w: int, h: int, cfg: Config, x: int, y: int) -> int {
    clamp_response(
        cfg.edge_coef * col_sum(s, w, h, cfg, x - 1, y) + col_sum(s, w, h, cfg, x, y)
            - cfg.edge_coef * col_sum(s, w, h, cfg, x + 1, y),
    )
}

/// The edge map sample at pixel (x, y): 0 ("edge") exactly when the larger
/// kernel response saturates at 255 or the smaller one bottoms out at 0,
/// otherwise 255 ("background"). Checking both extremes avoids the
/// directional bias a single-sided test would introduce.
pub open spec fn edge_sample(s: Seq<u8>, w: int, h: int, cfg: Config, x: int, y: int) -> u8 {
    let hr = horizontal_response(s, w, h, cfg, x, y);
    let vr = vertical_response(s, w, h, cfg, x, y);
    let hi = if hr >= vr {
        hr
    } else {
        vr
    };
    let lo = if hr <= vr {
        hr
    } else {
        vr
    };
    if hi == 255 || lo == 0 {
        0u8
    } else {
        255u8
    }
}

/// The whole edge map of a luminance buffer, row-major: [`edge_sample`] at
/// every pixel.
pub open spec fn edge_cells(s: Seq<u8>, w: int, h: int, cfg: Config) -> Seq<u8> {
    Seq::new((w * h) as nat, |i: int| edge_sample(s, w, h, cfg, i % w, i / w))
}

/// Pulls every luminance sample into the clamp range [dark, bright], so that
/// isolated extreme pixels cannot masquerade as extreme gradients during edge
/// detection.
pub fn smooth_out_polarized_pixels(image: &Grid<u8>, dark: u8, bright: u8) -> (r: Grid<u8>)
    requires
        image.wf(),
    ensures
        r.wf(),
        r.same_dims(*image),
        forall|i: int|
            0 <= i < image.cells@.len() ==> r.cells@[i] == clamp_sample(
                image.cells@[i],
                dark,
                bright,
            ),
{
    let mut cells: Vec<u8> = Vec::new();
    let n = image.cells.len();
    let mut i: usize = 0;
    while i < n
        invariant
            i <= n,
            n == image.cells@.len(),
            image.wf(),
            cells@.len() == i,
            forall|j: int|
                0 <= j < i ==> cells@[j] == clamp_sample(image.cells@[j], dark, bright),
        decreases n - i,
    {
        let v = image.cells[i];
        let c = if v < dark {
            dark
        } else if v > bright {
            bright
        } else {
            v
        };
        cells.push(c);
        i = i + 1;
    }
    Grid { width: image.width, height: image.height, cells }
}

/// A kernel coefficient times a sum of three 8-bit samples stays far inside
/// the 64-bit range.
proof fn lemma_kernel_term_bound(e: int, s: int)
    by (nonlinear_arith)
    requires
        0 <= e <= 0xFFFF_FFFF,
        0 <= s <= 765,
    ensures
        0 <= e * s <= 0xFFFF_FFFF * 765,
{
}

/// On a grid whose buffer is the pointwise clamp of the image buffer, the
/// zero-padded read agrees with [`lum`] of the raw image.
proof fn lemma_lum_pad(image: Grid<u8>, clamped: Grid<u8>, cfg: Config, xi: int, yi: int)
    requires
        image.wf(),
        clamped.wf(),
        clamped.same_dims(image),
        forall|i: int|
            0 <= i < image.cells@.len() ==> clamped.cells@[i] == clamp_sample(
                image.cells@[i],
                cfg.dark,
                cfg.bright,
            ),
    ensures
        cell_or(
            clamped.cells@,
            clamped.width as int,
            clamped.height as int,
            xi,
            yi,
            0u8,
        ) as int == lum(image.cells@, image.width as int, image.height as int, cfg, xi, yi),
{
    if 0 <= xi < image.width && 0 <= yi < image.height {
        lemma_flat_index_bound(image.width as int, image.height as int, xi, yi);
    }
}

/// The clamped sample at (x + dx - 1, y + dy - 1), with zero padding outside
/// the grid.
fn padded(clamped: &Grid<u8>, x: usize, y: usize, dx: usize, dy: usize) -> (r: u8)
    requires
        clamped.wf(),
        x < clamped.width,
        y < clamped.height,
        dx <= 2,
        dy <= 2,
        clamped.width < usize::MAX,
        clamped.height < usize::MAX,
    ensures
        r == cell_or(
            clamped.cells@,
            clamped.width as int,
            clamped.height as int,
            x + dx - 1,
            y + dy - 1,
            0u8,
        ),
{
    let xs = x + dx;
    let ys = y + dy;
    if 1 <= xs && xs <= clamped.width && 1 <= ys && ys <= clamped.height {
        clamped.get(xs - 1, ys - 1)
    } else {
        0
    }
}

/// Turns a raw luminance grid into a binary edge map of the same dimensions:
/// every output sample is 0 ("edge") or 255 ("background"), following
/// [`edge_sample`] pointwise.
#[verifier::loop_isolation(false)]
pub fn find_edges(image: &Grid<u8>, cfg: &Config) -> (r: Grid<u8>)
    requires
        image.wf(),
        image.width < usize::MAX,
        image.height < usize::MAX,
    ensures
        r.wf(),
        r.same_dims(*image),
        r.cells@ == edge_cells(image.cells@, image.width as int, image.height as int, *cfg),
        forall|x: int, y: int|
            0 <= x < image.width && 0 <= y < image.height ==> #[trigger] r.at(x, y) == edge_sample(
                image.cells@,
                image.width as int,
                image.height as int,
                *cfg,
                x,
                y,
            ),
        forall|x: int, y: int|
            0 <= x < image.width && 0 <= y < image.height ==> #[trigger] r.at(x, y) == 0 || r.at(
                x,
                y,
            ) == 255,
{
    let w = image.width;
    let h = image.height;
    let clamped = smooth_out_polarized_pixels(image, cfg.dark, cfg.bright);
    let mut cells: Vec<u8> = Vec::new();
    let mut y: usize = 0;
    while y < h
        invariant
            y <= h,
            cells@.len() == y * w,
            forall|xi: int, yi: int|
                0 <= xi < w && 0 <= yi < y ==> cells@[flat_index(w as int, xi, yi)] == edge_sample(
                    image.cells@,
                    w as int,
                    h as int,
                    *cfg,
                    xi,
                    yi,
                ),
        decreases h - y,
    {
        let mut x: usize = 0;
        while x < w
            invariant
                x <= w,
                y < h,
                cells@.len() == y * w + x,
                forall|xi: int, yi: int|
                    0 <= xi < w && 0 <= yi < h && (yi < y || (yi == y && xi < x))
                        ==> cells@[flat_index(w as int, xi, yi)] == edge_sample(
                        image.cells@,
                        w as int,
                        h as int,
                        *cfg,
                        xi,
                        yi,
                    ),
            decreases w - x,
        {
            let e = cfg.edge_coef as i64;
            let s00 = padded(&clamped, x, y, 0, 0) as i64;
            let s10 = padded(&clamped, x, y, 1, 0) as i64;
            let s20 = padded(&clamped, x, y, 2, 0) as i64;
            let s01 = padded(&clamped, x, y, 0, 1) as i64;
            let s11 = padded(&clamped, x, y, 1, 1) as i64;
            let s21 = padded(&clamped, x, y, 2, 1) as i64;
            let s02 = padded(&clamped, x, y, 0, 2) as i64;
            let s12 = padded(&clamped, x, y, 1, 2) as i64;
            let s22 = padded(&clamped, x, y, 2, 2) as i64;
            proof {
                lemma_lum_pad(*image, clamped, *cfg, x - 1, y - 1);
                lemma_lum_pad(*image, clamped, *cfg, x as int, y - 1);
                lemma_lum_pad(*image, clamped, *cfg, x + 1, y - 1);
                lemma_lum_pad(*image, clamped, *cfg, x - 1, y as int);
                lemma_lum_pad(*image, clamped, *cfg, x as int, y as int);
                lemma_lum_pad(*image, clamped, *cfg, x + 1, y as int);
                lemma_lum_pad(*image, clamped, *cfg, x - 1, y + 1);
                lemma_lum_pad(*image, clamped, *cfg, x as int, y + 1);
                lemma_lum_pad(*image, clamped, *cfg, x + 1, y + 1);
            }
            proof {
                lemma_kernel_term_bound(e as int, (s00 + s10 + s20) as int);
                lemma_kernel_term_bound(e as int, (s02 + s12 + s22) as int);
                lemma_kernel_term_bound(e as int, (s00 + s01 + s02) as int);
                lemma_kernel_term_bound(e as int, (s20 + s21 + s22) as int);
            }
            let hr_raw = e * (s00 + s10 + s20) + (s01 + s11 + s21) - e * (s02 + s12 + s22);
            let vr_raw = e * (s00 + s01 + s02) + (s10 + s11 + s12) - e * (s20 + s21 + s22);
            let hr = if hr_raw < 0 {
                0i64
            } else if hr_raw > 255 {
                255i64
            } else {
                hr_raw
            };
            let vr = if vr_raw < 0 {
                0i64
            } else if vr_raw > 255 {
                255i64
            } else {
                vr_raw
            };
            let hi = if hr >= vr {
                hr
            } else {
                vr
            };
            let lo = if hr <= vr {
                hr
            } else {
                vr
            };
            let sample: u8 = if hi == 255 || lo == 0 {
                0
            } else {
                255
            };
            proof {
                assert(sample == edge_sample(image.cells@, w as int, h as int, *cfg, x as int, y as int));
                assert forall|xi: int, yi: int|
                    0 <= xi < w && 0 <= yi < h && (yi < y || (yi == y && xi < x)) implies flat_index(
                    w as int,
                    xi,
                    yi,
                ) < y * w + x by {
                    lemma_flat_index_lt(w as int, xi, yi, x as int, y as int);
                }
            }
            cells.push(sample);
            x = x + 1;
        }
        proof {
            assert((y + 1) * w == y * w + w) by (nonlinear_arith);
        }
        y = y + 1;
    }
    proof {
        assert(cells@.len() == w * h) by (nonlinear_arith)
            requires
                cells@.len() == h * w,
        ;
    }
    let r = Grid { width: w, height: h, cells };
    proof {
        assert forall|x: int, y: int| 0 <= x < w && 0 <= y < h implies #[trigger] r.at(x, y)
            == edge_sample(image.cells@, w as int, h as int, *cfg, x, y) by {
            lemma_flat_index_bound(w as int, h as int, x, y);
        }
        let target = edge_cells(image.cells@, w as int, h as int, *cfg);
        assert(target.len() == w * h);
        assert forall|i: int| 0 <= i < w * h implies r.cells@[i] == target[i] by {
            assert(w >= 1 && h >= 1) by (nonlinear_arith)
                requires
                    0 <= i < w * h,
                    w >= 0,
                    h >= 0,
            ;
            vstd::arithmetic::div_mod::lemma_fundamental_div_mod(i, w as int);
            let xi = i % (w as int);
            let yi = i / (w as int);
            assert(0 <= xi < w);
            assert(0 <= yi < h) by (nonlinear_arith)
                requires
                    0 <= i < w * h,
                    i == (w as int) * yi + xi,
                    0 <= xi < w,
                    w >= 1,
            ;
            assert(flat_index(w as int, xi, yi) == i) by {
                assert(i == (w as int) * yi + xi);
                assert((w as int) * yi == yi * (w as int)) by (nonlinear_arith);
            }
            assert(r.at(xi, yi) == edge_sample(image.cells@, w as int, h as int, *cfg, xi, yi));
        }
        assert(r.cells@ =~= target);
    }
    r
}

} // verus!
