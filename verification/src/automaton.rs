use vstd::prelude::*;

use crate::error::PipelineError;
use crate::grid::{flat_index, lemma_flat_index_bound, Grid};
use vstd::arithmetic::div_mod::{lemma_fundamental_div_mod, lemma_fundamental_div_mod_converse};

verus! {

/// The heat at cell (x, y), with out-of-range neighbours counting as 0.
pub open spec fn heat_at(s: Seq<u32>, w: int, h: int, x: int, y: int) -> int {
    if 0 <= x < w && 0 <= y < h {
        s[flat_index(w, x, y)] as int
    } else {
        0
    }
}

/// Mean heat (integer division by 8) of the Moore neighbourhood of (x, y).
pub open spec fn neighborhood_mean(s: Seq<u32>, w: int, h: int, x: int, y: int) -> int {
    (heat_at(s, w, h, x - 1, y - 1) + heat_at(s, w, h, x, y - 1) + heat_at(s, w, h, x + 1, y - 1)
        + heat_at(s, w, h, x - 1, y) + heat_at(s, w, h, x + 1, y) + heat_at(
        s,
        w,
        h,
        x - 1,
        y + 1,
    ) + heat_at(s, w, h, x, y + 1) + heat_at(s, w, h, x + 1, y + 1)) / 8
}

/// One synchronous update of the cell at (x, y). Cells already fully dead (0)
/// or fully alive (`max`) are frozen; every other cell dies, decays toward
/// the deficit, or grows toward the surplus of its neighbourhood mean `n`
/// against the grid mean — the three branches are total, so no cell can
/// silently idle.
pub open spec fn step_cell(s: Seq<u32>, w: int, h: int, mean: int, max: int, x: int, y: int) -> int {
    let heat = heat_at(s, w, h, x, y);
    if heat == 0 || heat == max {
        heat
    } else {
        let n = neighborhood_mean(s, w, h, x, y);
        let lower = if mean < heat {
            mean
        } else {
            heat
        };
        if n < lower {
            0
        } else if n < mean {
            if heat + n >= mean {
                heat + n - mean
            } else {
                0
            }
        } else {
            if heat + n - mean < max {
                heat + n - mean
            } else {
                max
            }
        }
    }
}

/// One synchronous pass over the whole grid, every cell computed from the
/// same snapshot `s`.
pub open spec fn step_cells(s: Seq<u32>, w: int, h: int, mean: int, max: int) -> Seq<u32> {
    Seq::new((w * h) as nat, |i: int| step_cell(s, w, h, mean, max, i % w, i / w) as u32)
}

/// Every cell has reached one of the two terminal regimes, fully dead (0) or
/// fully alive (`max`).
pub open spec fn is_stable(s: Seq<u32>, max: int) -> bool {
    forall|i: int| 0 <= i < s.len() ==> s[i] == 0 || s[i] == max
}

/// The grid after `k` synchronous passes.
pub open spec fn iterate(s: Seq<u32>, w: int, h: int, mean: int, max: int, k: nat) -> Seq<u32>
    decreases k,
{
    if k == 0 {
        s
    } else {
        step_cells(iterate(s, w, h, mean, max, (k - 1) as nat), w, h, mean, max)
    }
}

/// A stabilized grid is a fixed point of the automaton: one more synchronous
/// pass returns the identical grid.
pub proof fn lemma_stable_step_identity(s: Seq<u32>, w: int, h: int, mean: int, max: int)
    requires
        s.len() == w * h,
        0 <= w,
        0 <= h,
        is_stable(s, max),
    ensures
        step_cells(s, w, h, mean, max) == s,
{
    let t = step_cells(s, w, h, mean, max);
    assert forall|i: int| 0 <= i < s.len() implies t[i] == s[i] by {
        assert(w >= 1 && h >= 1) by (nonlinear_arith)
            requires
                0 <= i < w * h,
                0 <= w,
                0 <= h,
        ;
        lemma_fundamental_div_mod(i, w);
        let x = i % w;
        let y = i / w;
        assert(0 <= x < w);
        assert(0 <= y < h) by (nonlinear_arith)
            requires
                i == w * y + x,
                0 <= x < w,
                0 <= i < w * h,
                w >= 1,
        ;
        assert(flat_index(w, x, y) == i) by {
            assert(w * y == y * w) by (nonlinear_arith);
        }
        assert(heat_at(s, w, h, x, y) == s[i]);
    }
    assert(t =~= s);
}

/// A stabilized grid stays identical under any number of further passes.
pub proof fn lemma_stable_iterate(s: Seq<u32>, w: int, h: int, mean: int, max: int, k: nat)
    requires
        s.len() == w * h,
        0 <= w,
        0 <= h,
        is_stable(s, max),
    ensures
        iterate(s, w, h, mean, max, k) == s,
    decreases k,
{
    if k > 0 {
        lemma_stable_iterate(s, w, h, mean, max, (k - 1) as nat);
        lemma_stable_step_identity(s, w, h, mean, max);
    }
}

/// Mean heat of the Moore neighbourhood of cell (x, y), reading out-of-range
/// neighbours as 0.
pub fn get_neighborhood_heat(map: &Grid<u32>, x: usize, y: usize) -> (r: u32)
    requires
        map.wf(),
        x < map.width,
        y < map.height,
    ensures
        r as int == neighborhood_mean(
            map.cells@,
            map.width as int,
            map.height as int,
            x as int,
            y as int,
        ),
{
    let w = map.width;
    let h = map.height;
    let t0 = if x > 0 && y > 0 {
        map.get(x - 1, y - 1)
    } else {
        0u32
    };
    let t1 = if y > 0 {
        map.get(x, y - 1)
    } else {
        0u32
    };
    let t2 = if x + 1 < w && y > 0 {
        map.get(x + 1, y - 1)
    } else {
        0u32
    };
    let t3 = if x > 0 {
        map.get(x - 1, y)
    } else {
        0u32
    };
    let t4 = if x + 1 < w {
        map.get(x + 1, y)
    } else {
        0u32
    };
    let t5 = if x > 0 && y + 1 < h {
        map.get(x - 1, y + 1)
    } else {
        0u32
    };
    let t6 = if y + 1 < h {
        map.get(x, y + 1)
    } else {
        0u32
    };
    let t7 = if x + 1 < w && y + 1 < h {
        map.get(x + 1, y + 1)
    } else {
        0u32
    };
    let sum: u64 = t0 as u64 + t1 as u64 + t2 as u64 + t3 as u64 + t4 as u64 + t5 as u64
        + t6 as u64 + t7 as u64;
    (sum / 8) as u32
}

/// One full synchronous pass: the next grid, every cell stepped from the
/// same snapshot.
#[verifier::loop_isolation(false)]
fn automaton_step(map: &Grid<u32>, heat_max: u32, heat_mean: u32) -> (r: Grid<u32>)
    requires
        map.wf(),
    ensures
        r.wf(),
        r.same_dims(*map),
        r.cells@ == step_cells(
            map.cells@,
            map.width as int,
            map.height as int,
            heat_mean as int,
            heat_max as int,
        ),
{
    let w = map.width;
    let h = map.height;
    let ghost s = map.cells@;
    let ghost target = step_cells(
        s,
        w as int,
        h as int,
        heat_mean as int,
        heat_max as int,
    );
    let mut cells: Vec<u32> = Vec::new();
    let mut y: usize = 0;
    while y < h
        invariant
            y <= h,
            cells@.len() == y * w,
            forall|i: int| 0 <= i < cells@.len() ==> cells@[i] == target[i],
        decreases h - y,
    {
        let mut x: usize = 0;
        while x < w
            invariant
                x <= w,
                y < h,
                cells@.len() == y * w + x,
                forall|i: int| 0 <= i < cells@.len() ==> cells@[i] == target[i],
            decreases w - x,
        {
            let heat = map.get(x, y);
            let v: u32 = if heat == 0 || heat == heat_max {
                heat
            } else {
                let n = get_neighborhood_heat(map, x, y);
                let lower = if heat_mean < heat {
                    heat_mean
                } else {
                    heat
                };
                if n < lower {
                    0
                } else if n < heat_mean {
                    let hn = heat as u64 + n as u64;
                    if hn >= heat_mean as u64 {
                        (hn - heat_mean as u64) as u32
                    } else {
                        0
                    }
                } else {
                    let hn = heat as u64 + n as u64 - heat_mean as u64;
                    if hn < heat_max as u64 {
                        hn as u32
                    } else {
                        heat_max
                    }
                }
            };
            proof {
                let i0 = cells@.len() as int;
                lemma_flat_index_bound(w as int, h as int, x as int, y as int);
                lemma_fundamental_div_mod_converse(i0, w as int, y as int, x as int);
                assert(v as int == step_cell(
                    s,
                    w as int,
                    h as int,
                    heat_mean as int,
                    heat_max as int,
                    x as int,
                    y as int,
                ));
            }
            cells.push(v);
            x = x + 1;
        }
        proof {
            assert((y + 1) * w == y * w + w) by (nonlinear_arith);
        }
        y = y + 1;
    }
    proof {
        assert(cells@.len() == w * h) by (nonlinear_arith)
            requires
                cells@.len() == h * w,
        ;
        assert(cells@ =~= target);
    }
    Grid { width: w, height: h, cells }
}

/// True exactly when every cell of the grid is 0 or `heat_max`.
#[verifier::loop_isolation(false)]
fn check_stable(map: &Grid<u32>, heat_max: u32) -> (r: bool)
    requires
        map.wf(),
    ensures
        r == is_stable(map.cells@, heat_max as int),
{
    let n = map.cells.len();
    let mut i: usize = 0;
    while i < n
        invariant
            i <= n,
            n == map.cells@.len(),
            forall|j: int| 0 <= j < i ==> map.cells@[j] == 0 || map.cells@[j] == heat_max,
        decreases n - i,
    {
        let v = map.cells[i];
        if v != 0 && v != heat_max {
            return false;
        }
        i = i + 1;
    }
    true
}

/// Runs the automaton until every cell stabilizes at 0 or `heat_max`, or the
/// pass budget runs out. On success the result is the first stabilized grid
/// in the iteration sequence; the budget exhausted without one is reported as
/// [`PipelineError::NonConvergence`] rather than looping forever. An
/// already-stabilized grid comes back untouched.
#[verifier::loop_isolation(false)]
pub fn cellular_automaton(
    map: Grid<u32>,
    heat_max: u32,
    heat_mean: u32,
    max_passes: u32,
) -> (r: Result<Grid<u32>, PipelineError>)
    requires
        map.wf(),
    ensures
        match r {
            Ok(g) => {
                &&& g.wf()
                &&& g.same_dims(map)
                &&& is_stable(g.cells@, heat_max as int)
                &&& exists|k: nat|
                    #![auto]
                    k <= max_passes && g.cells@ == iterate(
                        map.cells@,
                        map.width as int,
                        map.height as int,
                        heat_mean as int,
                        heat_max as int,
                        k,
                    ) && (forall|j: nat|
                        j < k ==> !is_stable(
                            iterate(
                                map.cells@,
                                map.width as int,
                                map.height as int,
                                heat_mean as int,
                                heat_max as int,
                                j,
                            ),
                            heat_max as int,
                        ))
            },
            Err(e) => {
                &&& e == PipelineError::NonConvergence
                &&& forall|k: nat|
                    k <= max_passes ==> !is_stable(
                        iterate(
                            map.cells@,
                            map.width as int,
                            map.height as int,
                            heat_mean as int,
                            heat_max as int,
                            k,
                        ),
                        heat_max as int,
                    )
            },
        },
        is_stable(map.cells@, heat_max as int) ==> r == Result::<
            Grid<u32>,
            PipelineError,
        >::Ok(map),
{
    let ghost s0 = map.cells@;
    let ghost w = map.width as int;
    let ghost h = map.height as int;
    let mut current = map;
    let mut pass: u32 = 0;
    while pass < max_passes
        invariant
            current.wf(),
            current.width == map.width,
            current.height == map.height,
            pass <= max_passes,
            current.cells@ == iterate(s0, w, h, heat_mean as int, heat_max as int, pass as nat),
            forall|j: nat|
                j < pass ==> !is_stable(
                    iterate(s0, w, h, heat_mean as int, heat_max as int, j),
                    heat_max as int,
                ),
            pass == 0 ==> current == map,
            pass > 0 ==> !is_stable(s0, heat_max as int),
        decreases max_passes - pass,
    {
        if check_stable(&current, heat_max) {
            proof {
                let k0 = pass as nat;
                assert(k0 <= max_passes && current.cells@ == iterate(
                    s0,
                    w,
                    h,
                    heat_mean as int,
                    heat_max as int,
                    k0,
                ));
            }
            return Ok(current);
        }
        let next = automaton_step(&current, heat_max, heat_mean);
        proof {
            let k1 = (pass + 1) as nat;
            assert(iterate(s0, w, h, heat_mean as int, heat_max as int, k1) == step_cells(
                iterate(s0, w, h, heat_mean as int, heat_max as int, (k1 - 1) as nat),
                w,
                h,
                heat_mean as int,
                heat_max as int,
            ));
            assert((k1 - 1) as nat == pass as nat);
        }
        current = next;
        pass = pass + 1;
    }
    if check_stable(&current, heat_max) {
        proof {
            let k0 = pass as nat;
            assert(k0 <= max_passes && current.cells@ == iterate(
                s0,
                w,
                h,
                heat_mean as int,
                heat_max as int,
                k0,
            ));
        }
        Ok(current)
    } else {
        Err(PipelineError::NonConvergence)
    }
}

/// A stabilized heat buffer thresholded into booleans: a cell is on exactly
/// when its heat is non-zero.
pub open spec fn threshold_cells(s: Seq<u32>) -> Seq<bool> {
    Seq::new(s.len(), |i: int| s[i] != 0u32)
}

/// Thresholds a stabilized heat grid into the point grid the extractor scans:
/// on exactly where the heat is non-zero.
#[verifier::loop_isolation(false)]
pub fn to_point_map(map: &Grid<u32>) -> (r: Grid<bool>)
    requires
        map.wf(),
    ensures
        r.wf(),
        r.width == map.width,
        r.height == map.height,
        r.cells@ == threshold_cells(map.cells@),
        forall|x: int, y: int|
            0 <= x < map.width && 0 <= y < map.height ==> #[trigger] r.at(x, y) == (map.at(x, y)
                != 0),
{
    let n = map.cells.len();
    let mut cells: Vec<bool> = Vec::new();
    let mut i: usize = 0;
    while i < n
        invariant
            i <= n,
            n == map.cells@.len(),
            cells@.len() == i,
            forall|j: int| 0 <= j < i ==> cells@[j] == (map.cells@[j] != 0u32),
        decreases n - i,
    {
        cells.push(map.cells[i] != 0);
        i = i + 1;
    }
    let r = Grid { width: map.width, height: map.height, cells };
    proof {
        assert(r.cells@ =~= threshold_cells(map.cells@));
        assert forall|x: int, y: int|
            0 <= x < map.width && 0 <= y < map.height implies #[trigger] r.at(x, y) == (map.at(
            x,
            y,
        ) != 0) by {
            lemma_flat_index_bound(map.width as int, map.height as int, x, y);
        }
    }
    r
}

} // verus!
