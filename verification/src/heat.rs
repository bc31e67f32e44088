use vstd::prelude::*;

use crate::config::Config;
use crate::grid::{flat_index, lemma_flat_index_bound, lemma_flat_index_lt, Grid};
use vstd::arithmetic::div_mod::{
    lemma_div_by_multiple, lemma_fundamental_div_mod,
    lemma_mod_multiples_basic,
};

verus! {

/// Number of edge samples (value 0) among `s[y][x0 .. x0 + n]`.
pub open spec fn row_edge_count(s: Seq<u8>, w: int, x0: int, y: int, n: nat) -> nat
    decreases n,
{
    if n == 0 {
        0
    } else {
        row_edge_count(s, w, x0, y, (n - 1) as nat) + (if s[flat_index(w, x0 + n - 1, y)] == 0 {
            1nat
        } else {
            0nat
        })
    }
}

/// Number of edge samples in the `n` by `m` window whose top-left cell is
/// (x0, y0).
pub open spec fn window_edge_count(s: Seq<u8>, w: int, x0: int, y0: int, n: nat, m: nat) -> nat
    decreases m,
{
    if m == 0 {
        0
    } else {
        window_edge_count(s, w, x0, y0, n, (m - 1) as nat) + row_edge_count(s, w, x0, y0 + m - 1, n)
    }
}

pub proof fn lemma_row_count_bound(s: Seq<u8>, w: int, x0: int, y: int, n: nat)
    ensures
        row_edge_count(s, w, x0, y, n) <= n,
    decreases n,
{
    if n > 0 {
        lemma_row_count_bound(s, w, x0, y, (n - 1) as nat);
    }
}

pub proof fn lemma_window_count_bound(s: Seq<u8>, w: int, x0: int, y0: int, n: nat, m: nat)
    ensures
        window_edge_count(s, w, x0, y0, n, m) <= n * m,
    decreases m,
{
    if m > 0 {
        lemma_window_count_bound(s, w, x0, y0, n, (m - 1) as nat);
        lemma_row_count_bound(s, w, x0, y0 + m - 1, n);
        assert(n * ((m - 1) as nat) + n == n * m) by (nonlinear_arith)
            requires
                m >= 1,
        ;
    }
}

/// Heat of the bricked cell at offset (ox, oy): the number of edge pixels in
/// the cell-sized window that starts half a cell pitch per offset step into
/// the image.
pub open spec fn bricked_cell(s: Seq<u8>, w: int, cfg: Config, ox: int, oy: int) -> nat {
    let cs2 = cfg.cell_size as int / 2;
    window_edge_count(s, w, ox * cs2, oy * cs2, cfg.cell_size as nat, cfg.cell_size as nat)
}

/// The whole bricked heat map of an edge buffer, row-major. Cells overlap
/// their neighbours by half their size, so an axis of length `L` carries
/// `2 * L / cell_size - 1` of them.
pub open spec fn bricked_cells(s: Seq<u8>, w: int, h: int, cfg: Config) -> Seq<u32> {
    let cs = cfg.cell_size as int;
    let cols = 2 * w / cs - 1;
    let rows = 2 * h / cs - 1;
    Seq::new((cols * rows) as nat, |i: int| bricked_cell(s, w, cfg, i % cols, i / cols) as u32)
}

/// Splitting an even divisor in half doubles the quotient and keeps
/// divisibility.
pub proof fn lemma_halved_pitch(len: int, cs: int)
    requires
        2 <= cs,
        cs % 2 == 0,
        len % cs == 0,
        0 < len,
    ensures
        cs == 2 * (cs / 2),
        len % (cs / 2) == 0,
        len / (cs / 2) == 2 * (len / cs),
        2 * len / cs == len / (cs / 2),
        len == (len / (cs / 2)) * (cs / 2),
        len / (cs / 2) >= 2,
        len / cs >= 1,
{
    let cs2 = cs / 2;
    let k = len / cs;
    lemma_fundamental_div_mod(cs, 2);
    lemma_fundamental_div_mod(len, cs);
    assert(len == (2 * k) * cs2) by (nonlinear_arith)
        requires
            len == cs * k,
            cs == 2 * cs2,
    ;
    assert(k >= 1) by (nonlinear_arith)
        requires
            len == cs * k,
            cs > 0,
            len > 0,
    ;
    lemma_div_by_multiple(2 * k, cs2);
    lemma_mod_multiples_basic(2 * k, cs2);
    lemma_fundamental_div_mod(len, cs2);
    assert(2 * len == (2 * k) * cs) by (nonlinear_arith)
        requires
            len == cs * k,
    ;
    lemma_div_by_multiple(2 * k, cs);
}

/// Sketches overlapping cells over the edge map and counts the edge pixels
/// inside each: the bricked heat map. Each output cell (ox, oy) holds
/// [`bricked_cell`] of the input.
#[verifier::loop_isolation(false)]
pub fn get_bricked_heat_map(image: &Grid<u8>, cfg: &Config) -> (r: Grid<u32>)
    requires
        image.wf(),
        cfg.valid_for(image.width as int, image.height as int),
    ensures
        r.wf(),
        r.width as int == 2 * image.width as int / (cfg.cell_size as int) - 1,
        r.height as int == 2 * image.height as int / (cfg.cell_size as int) - 1,
        r.cells@ == bricked_cells(
            image.cells@,
            image.width as int,
            image.height as int,
            *cfg,
        ),
        forall|ox: int, oy: int|
            0 <= ox < r.width && 0 <= oy < r.height ==> #[trigger] r.at(ox, oy) as nat
                == bricked_cell(image.cells@, image.width as int, *cfg, ox, oy),
{
    let w = image.width;
    let h = image.height;
    let cs = cfg.cell_size;
    let cs2 = cs / 2;
    proof {
        lemma_halved_pitch(w as int, cs as int);
        lemma_halved_pitch(h as int, cs as int);
    }
    let cw = w / cs2;
    let ch = h / cs2;
    let cols = cw - 1;
    let rows = ch - 1;
    let mut cells: Vec<u32> = Vec::new();
    let mut oy: usize = 0;
    while oy < rows
        invariant
            oy <= rows,
            cells@.len() == oy * cols,
            forall|xi: int, yi: int|
                0 <= xi < cols && 0 <= yi < oy ==> cells@[flat_index(cols as int, xi, yi)] as nat
                    == bricked_cell(image.cells@, w as int, *cfg, xi, yi),
        decreases rows - oy,
    {
        let mut ox: usize = 0;
        while ox < cols
            invariant
                ox <= cols,
                oy < rows,
                cells@.len() == oy * cols + ox,
                forall|xi: int, yi: int|
                    0 <= xi < cols && 0 <= yi < rows && (yi < oy || (yi == oy && xi < ox))
                        ==> cells@[flat_index(cols as int, xi, yi)] as nat == bricked_cell(
                        image.cells@,
                        w as int,
                        *cfg,
                        xi,
                        yi,
                    ),
            decreases cols - ox,
        {
            proof {
                assert(ox * cs2 + cs <= w && oy * cs2 + cs <= h) by (nonlinear_arith)
                    requires
                        ox <= cw - 2,
                        oy <= ch - 2,
                        cs == 2 * cs2,
                        w == cw * cs2,
                        h == ch * cs2,
                        cs2 >= 1,
                ;
            }
            let count = count_window(image, ox * cs2, oy * cs2, cs);
            proof {
                assert forall|xi: int, yi: int|
                    0 <= xi < cols && 0 <= yi < rows && (yi < oy || (yi == oy && xi < ox)) implies
                    flat_index(cols as int, xi, yi) < oy * cols + ox by {
                    lemma_flat_index_lt(cols as int, xi, yi, ox as int, oy as int);
                }
            }
            cells.push(count);
            ox = ox + 1;
        }
        proof {
            assert((oy + 1) * cols == oy * cols + cols) by (nonlinear_arith);
        }
        oy = oy + 1;
    }
    proof {
        assert(cells@.len() == cols * rows) by (nonlinear_arith)
            requires
                cells@.len() == rows * cols,
        ;
    }
    let r = Grid { width: cols, height: rows, cells };
    proof {
        assert forall|ox: int, oy: int| 0 <= ox < cols && 0 <= oy < rows implies #[trigger] r.at(
            ox,
            oy,
        ) as nat == bricked_cell(image.cells@, w as int, *cfg, ox, oy) by {
            lemma_flat_index_bound(cols as int, rows as int, ox, oy);
        }
        lemma_halved_pitch(w as int, cs as int);
        lemma_halved_pitch(h as int, cs as int);
        let target = bricked_cells(image.cells@, w as int, h as int, *cfg);
        assert(2 * (w as int) / (cs as int) - 1 == cols as int);
        assert(2 * (h as int) / (cs as int) - 1 == rows as int);
        assert(target.len() == cols * rows);
        assert forall|i: int| 0 <= i < cols * rows implies r.cells@[i] == target[i] by {
            lemma_fundamental_div_mod(i, cols as int);
            let xi = i % (cols as int);
            let yi = i / (cols as int);
            assert(0 <= xi < cols);
            assert(0 <= yi < rows) by (nonlinear_arith)
                requires
                    0 <= i < cols * rows,
                    i == (cols as int) * yi + xi,
                    0 <= xi < cols,
                    cols >= 1,
            ;
            assert(flat_index(cols as int, xi, yi) == i) by {
                assert(i == (cols as int) * yi + xi);
                assert((cols as int) * yi == yi * (cols as int)) by (nonlinear_arith);
            }
            assert(r.at(xi, yi) as nat == bricked_cell(image.cells@, w as int, *cfg, xi, yi));
        }
        assert(r.cells@ =~= target);
    }
    r
}

/// Counts the edge pixels (samples equal to 0) in the `cs` by `cs` window
/// whose top-left pixel is (x0, y0).
#[verifier::loop_isolation(false)]
fn count_window(image: &Grid<u8>, x0: usize, y0: usize, cs: usize) -> (c: u32)
    requires
        image.wf(),
        x0 + cs <= image.width,
        y0 + cs <= image.height,
        cs * cs <= u32::MAX,
    ensures
        c as nat == window_edge_count(
            image.cells@,
            image.width as int,
            x0 as int,
            y0 as int,
            cs as nat,
            cs as nat,
        ),
{
    let ghost s = image.cells@;
    let ghost w = image.width as int;
    let mut c: u32 = 0;
    let mut cy: usize = 0;
    while cy < cs
        invariant
            cy <= cs,
            c as nat == window_edge_count(s, w, x0 as int, y0 as int, cs as nat, cy as nat),
        decreases cs - cy,
    {
        let mut cx: usize = 0;
        while cx < cs
            invariant
                cx <= cs,
                cy < cs,
                c as nat == window_edge_count(s, w, x0 as int, y0 as int, cs as nat, cy as nat)
                    + row_edge_count(s, w, x0 as int, y0 as int + cy, cx as nat),
            decreases cs - cx,
        {
            proof {
                lemma_window_count_bound(s, w, x0 as int, y0 as int, cs as nat, cy as nat);
                lemma_row_count_bound(s, w, x0 as int, y0 as int + cy, cx as nat);
                assert(cs * cy + cx < cs * cs) by (nonlinear_arith)
                    requires
                        cy < cs,
                        cx < cs,
                        0 <= cx,
                        0 <= cy,
                ;
            }
            let v = image.get(x0 + cx, y0 + cy);
            if v == 0 {
                c = c + 1;
            }
            cx = cx + 1;
        }
        cy = cy + 1;
    }
    c
}

/// Heat of the crisp cell (x, y) derived from a bricked map of `bw` by `bh`
/// cells: the average of the four overlapping bricked cells that cover it,
/// with a forced zero border standing for "outside the image".
pub open spec fn crisp_cell(b: Seq<u32>, bw: int, bh: int, x: int, y: int) -> u32 {
    if 1 <= x < bw && 1 <= y < bh {
        (((b[flat_index(bw, x, y)] + b[flat_index(bw, x - 1, y)] + b[flat_index(bw, x, y - 1)]
            + b[flat_index(bw, x - 1, y - 1)]) as int) / 4) as u32
    } else {
        0u32
    }
}

/// The whole crisp heat map derived from a bricked map, row-major, one cell
/// wider and taller than the bricked map.
pub open spec fn crisp_cells(b: Seq<u32>, bw: int, bh: int) -> Seq<u32> {
    Seq::new(
        (((bw + 1) * (bh + 1)) as nat),
        |i: int| crisp_cell(b, bw, bh, i % (bw + 1), i / (bw + 1)),
    )
}

/// The largest heat in the buffer, floored at 1 so that later stages can
/// divide by it.
pub open spec fn max_heat(s: Seq<u32>) -> u32
    decreases s.len(),
{
    if s.len() == 0 {
        1u32
    } else {
        let rest = max_heat(s.drop_last());
        if s.last() > rest {
            s.last()
        } else {
            rest
        }
    }
}

/// Sum of the strictly positive heats in the buffer.
pub open spec fn positive_total(s: Seq<u32>) -> int
    decreases s.len(),
{
    if s.len() == 0 {
        0
    } else {
        positive_total(s.drop_last()) + (if s.last() > 0 {
            s.last() as int
        } else {
            0
        })
    }
}

/// Number of strictly positive heats in the buffer.
pub open spec fn positive_count(s: Seq<u32>) -> nat
    decreases s.len(),
{
    if s.len() == 0 {
        0
    } else {
        positive_count(s.drop_last()) + (if s.last() > 0 {
            1nat
        } else {
            0nat
        })
    }
}

/// The heat statistics of a buffer extended by one cell.
proof fn lemma_stats_push(s: Seq<u32>, v: u32)
    ensures
        max_heat(s.push(v)) == (if v > max_heat(s) {
            v
        } else {
            max_heat(s)
        }),
        positive_total(s.push(v)) == positive_total(s) + (if v > 0 {
            v as int
        } else {
            0
        }),
        positive_count(s.push(v)) == positive_count(s) + (if v > 0 {
            1nat
        } else {
            0nat
        }),
{
    assert(s.push(v).drop_last() =~= s);
    assert(s.push(v).last() == v);
}

/// No heat exceeds [`max_heat`].
pub proof fn lemma_max_heat_is_bound(s: Seq<u32>)
    ensures
        1 <= max_heat(s),
        forall|i: int| 0 <= i < s.len() ==> s[i] <= max_heat(s),
    decreases s.len(),
{
    if s.len() > 0 {
        lemma_max_heat_is_bound(s.drop_last());
        assert forall|i: int| 0 <= i < s.len() implies s[i] <= max_heat(s) by {
            if i < s.len() - 1 {
                assert(s.drop_last()[i] == s[i]);
            }
        }
    }
}

/// A buffer without positive heats is all zero.
pub proof fn lemma_no_positive_all_zero(s: Seq<u32>)
    requires
        positive_count(s) == 0,
    ensures
        forall|i: int| 0 <= i < s.len() ==> s[i] == 0,
    decreases s.len(),
{
    if s.len() > 0 {
        lemma_no_positive_all_zero(s.drop_last());
        assert forall|i: int| 0 <= i < s.len() implies s[i] == 0 by {
            if i < s.len() - 1 {
                assert(s.drop_last()[i] == s[i]);
            } else {
                assert(s.last() == s[i]);
            }
        }
    }
}

/// The positive total of `n` 32-bit heats fits well under `n` times the
/// largest 32-bit value.
proof fn lemma_positive_total_le_len(s: Seq<u32>)
    ensures
        0 <= positive_total(s) <= s.len() * (u32::MAX as int),
    decreases s.len(),
{
    if s.len() > 0 {
        lemma_positive_total_le_len(s.drop_last());
        assert((s.len() - 1) * (u32::MAX as int) + (u32::MAX as int) == s.len() * (
        u32::MAX as int)) by (nonlinear_arith)
            requires
                s.len() >= 1,
        ;
    }
}

/// The positive total is covered by the positive count times the maximum, so
/// the mean of the positive heats never exceeds [`max_heat`].
proof fn lemma_positive_total_bound(s: Seq<u32>)
    ensures
        positive_total(s) >= 0,
        positive_count(s) <= s.len(),
        positive_total(s) <= positive_count(s) * (max_heat(s) as int),
    decreases s.len(),
{
    if s.len() > 0 {
        let d = s.drop_last();
        let v = s.last();
        lemma_positive_total_bound(d);
        lemma_max_heat_is_bound(d);
        assert(max_heat(d) <= max_heat(s));
        assert(positive_count(d) * (max_heat(d) as int) <= positive_count(d) * (max_heat(
            s,
        ) as int)) by (nonlinear_arith)
            requires
                max_heat(d) <= max_heat(s),
                positive_count(d) >= 0,
        ;
        if v > 0 {
            assert(v <= max_heat(s));
            assert(positive_count(d) * (max_heat(s) as int) + (max_heat(s) as int)
                == (positive_count(d) + 1) * (max_heat(s) as int)) by (nonlinear_arith);
        }
    }
}

/// The statistics the automaton is driven by: the largest heat in the grid
/// (floored at 1), and the mean of the strictly positive heats, absent when
/// no cell is positive.
#[verifier::loop_isolation(false)]
pub fn heat_stats(map: &Grid<u32>) -> (r: (u32, Option<u32>))
    requires
        map.wf(),
    ensures
        r.0 == max_heat(map.cells@),
        r.0 >= 1,
        forall|i: int| 0 <= i < map.cells@.len() ==> map.cells@[i] <= r.0,
        r.1 == (if positive_count(map.cells@) == 0 {
            Option::<u32>::None
        } else {
            Option::Some(
                (positive_total(map.cells@) / (positive_count(map.cells@) as int)) as u32,
            )
        }),
        positive_count(map.cells@) > 0 ==> positive_total(map.cells@) / (positive_count(
            map.cells@,
        ) as int) <= r.0,
{
    let ghost s = map.cells@;
    let n = map.cells.len();
    let mut hmax: u32 = 1;
    let mut total: u128 = 0;
    let mut cnt: usize = 0;
    let mut i: usize = 0;
    proof {
        assert(s.take(0) =~= Seq::<u32>::empty());
    }
    while i < n
        invariant
            i <= n,
            n == s.len(),
            hmax == max_heat(s.take(i as int)),
            total as int == positive_total(s.take(i as int)),
            cnt as nat == positive_count(s.take(i as int)),
            cnt <= i,
        decreases n - i,
    {
        let v = map.cells[i];
        proof {
            assert(s.take(i + 1) =~= s.take(i as int).push(s[i as int]));
            lemma_stats_push(s.take(i as int), v);
            lemma_positive_total_le_len(s.take(i + 1));
            assert((i + 1) * (u32::MAX as int) < u128::MAX) by (nonlinear_arith)
                requires
                    0 <= i < usize::MAX,
            ;
        }
        if v > hmax {
            hmax = v;
        }
        if v > 0 {
            total = total + v as u128;
            cnt = cnt + 1;
        }
        i = i + 1;
    }
    proof {
        assert(s.take(n as int) =~= s);
        lemma_max_heat_is_bound(s);
        lemma_positive_total_bound(s);
        if cnt > 0 {
            vstd::arithmetic::div_mod::lemma_div_is_ordered(
                positive_total(s),
                positive_count(s) * (max_heat(s) as int),
                positive_count(s) as int,
            );
            assert((positive_count(s) * (max_heat(s) as int)) == ((max_heat(s) as int)
                * (positive_count(s) as int))) by (nonlinear_arith);
            lemma_div_by_multiple(max_heat(s) as int, positive_count(s) as int);
        }
    }
    if cnt == 0 {
        (hmax, Option::None)
    } else {
        let mean = (total / (cnt as u128)) as u32;
        (hmax, Option::Some(mean))
    }
}

/// Transforms the bricked heat map into the crisp one: half the cell pitch,
/// every interior cell the average of the four overlapping bricked cells
/// around it, and a forced zero border on all four sides. Also returns the
/// grid's heat statistics.
#[verifier::loop_isolation(false)]
pub fn get_crisp_heat_map(
    bricked: &Grid<u32>,
    width: usize,
    height: usize,
    cfg: &Config,
) -> (r: (Grid<u32>, u32, Option<u32>))
    requires
        bricked.wf(),
        cfg.valid_for(width as int, height as int),
        bricked.width as int == 2 * width as int / (cfg.cell_size as int) - 1,
        bricked.height as int == 2 * height as int / (cfg.cell_size as int) - 1,
        (bricked.width as int + 1) * (bricked.height as int + 1) <= usize::MAX,
    ensures
        r.0.wf(),
        r.0.width == bricked.width + 1,
        r.0.height == bricked.height + 1,
        r.0.cells@ == crisp_cells(bricked.cells@, bricked.width as int, bricked.height as int),
        forall|x: int, y: int|
            0 <= x < r.0.width && 0 <= y < r.0.height ==> #[trigger] r.0.at(x, y) == crisp_cell(
                bricked.cells@,
                bricked.width as int,
                bricked.height as int,
                x,
                y,
            ),
        r.1 == max_heat(r.0.cells@),
        r.1 >= 1,
        forall|i: int| 0 <= i < r.0.cells@.len() ==> r.0.cells@[i] <= r.1,
        r.2 == (if positive_count(r.0.cells@) == 0 {
            Option::<u32>::None
        } else {
            Option::Some(
                (positive_total(r.0.cells@) / (positive_count(r.0.cells@) as int)) as u32,
            )
        }),
        positive_count(r.0.cells@) > 0 ==> positive_total(r.0.cells@) / (positive_count(
            r.0.cells@,
        ) as int) <= r.1,
{
    let bw = bricked.width;
    let bh = bricked.height;
    proof {
        assert(bw as int + 1 <= usize::MAX && bh as int + 1 <= usize::MAX) by (nonlinear_arith)
            requires
                (bw as int + 1) * (bh as int + 1) <= usize::MAX,
                bw >= 0,
                bh >= 0,
        ;
    }
    let cw = bw + 1;
    let ch = bh + 1;
    let ghost b = bricked.cells@;
    let mut cells: Vec<u32> = Vec::new();
    let mut y: usize = 0;
    while y < ch
        invariant
            y <= ch,
            cells@.len() == y * cw,
            forall|xi: int, yi: int|
                0 <= xi < cw && 0 <= yi < y ==> cells@[flat_index(cw as int, xi, yi)]
                    == crisp_cell(b, bw as int, bh as int, xi, yi),
        decreases ch - y,
    {
        let mut x: usize = 0;
        while x < cw
            invariant
                x <= cw,
                y < ch,
                cells@.len() == y * cw + x,
                forall|xi: int, yi: int|
                    0 <= xi < cw && 0 <= yi < ch && (yi < y || (yi == y && xi < x))
                        ==> cells@[flat_index(cw as int, xi, yi)] == crisp_cell(
                        b,
                        bw as int,
                        bh as int,
                        xi,
                        yi,
                    ),
            decreases cw - x,
        {
            let v: u32 = if 1 <= x && x < bw && 1 <= y && y < bh {
                let a0 = bricked.get(x, y) as u64;
                let a1 = bricked.get(x - 1, y) as u64;
                let a2 = bricked.get(x, y - 1) as u64;
                let a3 = bricked.get(x - 1, y - 1) as u64;
                ((a0 + a1 + a2 + a3) / 4) as u32
            } else {
                0
            };
            proof {
                assert(v == crisp_cell(b, bw as int, bh as int, x as int, y as int));
                assert forall|xi: int, yi: int|
                    0 <= xi < cw && 0 <= yi < ch && (yi < y || (yi == y && xi < x)) implies
                    flat_index(cw as int, xi, yi) < y * cw + x by {
                    lemma_flat_index_lt(cw as int, xi, yi, x as int, y as int);
                }
            }
            cells.push(v);
            x = x + 1;
        }
        proof {
            assert((y + 1) * cw == y * cw + cw) by (nonlinear_arith);
        }
        y = y + 1;
    }
    proof {
        assert(cells@.len() == cw * ch) by (nonlinear_arith)
            requires
                cells@.len() == ch * cw,
        ;
    }
    let r = Grid { width: cw, height: ch, cells };
    proof {
        assert forall|x: int, y: int| 0 <= x < cw && 0 <= y < ch implies #[trigger] r.at(x, y)
            == crisp_cell(b, bw as int, bh as int, x, y) by {
            lemma_flat_index_bound(cw as int, ch as int, x, y);
        }
        let target = crisp_cells(b, bw as int, bh as int);
        assert(target.len() == cw * ch);
        assert forall|i: int| 0 <= i < cw * ch implies r.cells@[i] == target[i] by {
            lemma_fundamental_div_mod(i, cw as int);
            let xi = i % (cw as int);
            let yi = i / (cw as int);
            assert(0 <= xi < cw);
            assert(0 <= yi < ch) by (nonlinear_arith)
                requires
                    0 <= i < cw * ch,
                    i == (cw as int) * yi + xi,
                    0 <= xi < cw,
                    cw >= 1,
            ;
            assert(flat_index(cw as int, xi, yi) == i) by {
                assert(i == (cw as int) * yi + xi);
                assert((cw as int) * yi == yi * (cw as int)) by (nonlinear_arith);
            }
            assert(r.at(xi, yi) == crisp_cell(b, bw as int, bh as int, xi, yi));
        }
        assert(r.cells@ =~= target);
    }
    let (hmax, hmean) = heat_stats(&r);
    (r, hmax, hmean)
}

/// The crisp heat map of an edge buffer: the bricked map of overlapping
/// cell-sized windows, averaged down to half the cell pitch with a zero
/// border.
pub open spec fn heat_cells(s: Seq<u8>, w: int, h: int, cfg: Config) -> Seq<u32> {
    let cs = cfg.cell_size as int;
    crisp_cells(bricked_cells(s, w, h, cfg), 2 * w / cs - 1, 2 * h / cs - 1)
}

/// Builds the crisp heat map of an edge map, together with its maximum heat
/// (floored at 1) and the mean of its strictly positive heats (absent when no
/// cell is positive).
pub fn heat_map(edge: &Grid<u8>, cfg: &Config) -> (r: (Grid<u32>, u32, Option<u32>))
    requires
        edge.wf(),
        cfg.valid_for(edge.width as int, edge.height as int),
    ensures
        r.0.wf(),
        r.0.width as int == 2 * edge.width as int / (cfg.cell_size as int),
        r.0.height as int == 2 * edge.height as int / (cfg.cell_size as int),
        r.0.cells@ == heat_cells(edge.cells@, edge.width as int, edge.height as int, *cfg),
        r.1 == max_heat(r.0.cells@),
        r.1 >= 1,
        forall|i: int| 0 <= i < r.0.cells@.len() ==> r.0.cells@[i] <= r.1,
        r.2 == (if positive_count(r.0.cells@) == 0 {
            Option::<u32>::None
        } else {
            Option::Some(
                (positive_total(r.0.cells@) / (positive_count(r.0.cells@) as int)) as u32,
            )
        }),
        positive_count(r.0.cells@) > 0 ==> positive_total(r.0.cells@) / (positive_count(
            r.0.cells@,
        ) as int) <= r.1,
{
    let w = edge.width;
    let h = edge.height;
    let cs = cfg.cell_size;
    let bricked = get_bricked_heat_map(edge, cfg);
    proof {
        lemma_halved_pitch(w as int, cs as int);
        lemma_halved_pitch(h as int, cs as int);
        assert(edge.cells.len() == edge.cells@.len());
        assert((bricked.width as int + 1) * (bricked.height as int + 1) <= w * h)
            by (nonlinear_arith)
            requires
                bricked.width as int + 1 == 2 * (w as int) / (cs as int),
                bricked.height as int + 1 == 2 * (h as int) / (cs as int),
                w as int == (2 * (w as int) / (cs as int)) * ((cs as int) / 2),
                h as int == (2 * (h as int) / (cs as int)) * ((cs as int) / 2),
                (cs as int) / 2 >= 1,
                2 * (w as int) / (cs as int) >= 2,
                2 * (h as int) / (cs as int) >= 2,
        ;
        assert(w * h <= usize::MAX);
    }
    let (crisp, hmax, hmean) = get_crisp_heat_map(&bricked, w, h, cfg);
    (crisp, hmax, hmean)
}

} // verus!

