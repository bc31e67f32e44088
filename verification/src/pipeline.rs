use vstd::prelude::*;

use crate::automaton::{cellular_automaton, is_stable, iterate, threshold_cells, to_point_map};
use crate::config::Config;
use crate::edges::{edge_cells, find_edges};
use crate::error::PipelineError;
use crate::extract::{
    all_connected, extract_highlights, on_points, pairwise_disjoint, pairwise_separated, pts_union,
};
use crate::grid::Grid;
use crate::heat::{
    heat_cells, heat_map, lemma_halved_pitch, lemma_no_positive_all_zero, max_heat,
    positive_count, positive_total,
};
use crate::point::Point;
use crate::visual_object::VisualObject;

verus! {

/// The edge map the pipeline derives from a luminance grid.
pub open spec fn pipeline_edges(image: Grid<u8>, cfg: Config) -> Seq<u8> {
    edge_cells(image.cells@, image.width as int, image.height as int, cfg)
}

/// The crisp heat map derived from that edge map.
pub open spec fn pipeline_heat(image: Grid<u8>, cfg: Config) -> Seq<u32> {
    heat_cells(pipeline_edges(image, cfg), image.width as int, image.height as int, cfg)
}

/// Cells per row of the crisp heat grid.
pub open spec fn pipeline_cols(image: Grid<u8>, cfg: Config) -> int {
    2 * image.width as int / (cfg.cell_size as int)
}

/// Cells per column of the crisp heat grid.
pub open spec fn pipeline_rows(image: Grid<u8>, cfg: Config) -> int {
    2 * image.height as int / (cfg.cell_size as int)
}

/// The largest heat of the crisp grid, floored at 1.
pub open spec fn pipeline_heat_max(image: Grid<u8>, cfg: Config) -> u32 {
    max_heat(pipeline_heat(image, cfg))
}

/// Some crisp cell is strictly positive, so the mean heat is defined and
/// there is activity worth extracting.
pub open spec fn pipeline_active(image: Grid<u8>, cfg: Config) -> bool {
    positive_count(pipeline_heat(image, cfg)) > 0
}

/// The mean of the strictly positive crisp heats.
pub open spec fn pipeline_heat_mean(image: Grid<u8>, cfg: Config) -> u32 {
    (positive_total(pipeline_heat(image, cfg)) / (positive_count(
        pipeline_heat(image, cfg),
    ) as int)) as u32
}

/// The crisp heat grid after `k` automaton passes.
pub open spec fn pipeline_stabilized(image: Grid<u8>, cfg: Config, k: nat) -> Seq<u32> {
    iterate(
        pipeline_heat(image, cfg),
        pipeline_cols(image, cfg),
        pipeline_rows(image, cfg),
        pipeline_heat_mean(image, cfg) as int,
        pipeline_heat_max(image, cfg) as int,
        k,
    )
}

/// The cells still alive after `k` automaton passes and thresholding.
pub open spec fn pipeline_points(image: Grid<u8>, cfg: Config, k: nat) -> Set<Point> {
    on_points(
        threshold_cells(pipeline_stabilized(image, cfg, k)),
        pipeline_cols(image, cfg),
        pipeline_rows(image, cfg),
    )
}

/// Builds the crisp heat map of an edge map and relaxes it with the cellular
/// automaton until every cell is fully dead or fully alive. An edge map
/// without any heat comes back as the (all-zero, already stable) heat map
/// itself; a cell size that does not fit the grid is a configuration error.
pub fn highlight_objects(edge: &Grid<u8>, cfg: &Config) -> (r: Result<Grid<u32>, PipelineError>)
    requires
        edge.wf(),
    ensures
        (r == Result::<Grid<u32>, PipelineError>::Err(PipelineError::CellSizeMismatch)) <==> !cfg.valid_for(
            edge.width as int,
            edge.height as int,
        ),
        match r {
            Ok(g) => ({
                let hm = heat_cells(edge.cells@, edge.width as int, edge.height as int, *cfg);
                let cols = 2 * edge.width as int / (cfg.cell_size as int);
                let rows = 2 * edge.height as int / (cfg.cell_size as int);
                let hmax = max_heat(hm);
                let hmean = (positive_total(hm) / (positive_count(hm) as int)) as u32;
                &&& g.wf()
                &&& g.width as int == cols
                &&& g.height as int == rows
                &&& is_stable(g.cells@, hmax as int)
                &&& (positive_count(hm) == 0 ==> g.cells@ == hm)
                &&& (positive_count(hm) > 0 ==> exists|k: nat|
                    #![auto]
                    k <= cfg.max_passes && g.cells@ == iterate(
                        hm,
                        cols,
                        rows,
                        hmean as int,
                        hmax as int,
                        k,
                    ) && (forall|j: nat|
                        j < k ==> !is_stable(
                            iterate(hm, cols, rows, hmean as int, hmax as int, j),
                            hmax as int,
                        )))
            }),
            Err(e) => ({
                let hm = heat_cells(edge.cells@, edge.width as int, edge.height as int, *cfg);
                let cols = 2 * edge.width as int / (cfg.cell_size as int);
                let rows = 2 * edge.height as int / (cfg.cell_size as int);
                let hmax = max_heat(hm);
                let hmean = (positive_total(hm) / (positive_count(hm) as int)) as u32;
                e == PipelineError::CellSizeMismatch || (e == PipelineError::NonConvergence
                    && positive_count(hm) > 0 && (forall|k: nat|
                    k <= cfg.max_passes ==> !is_stable(
                        iterate(hm, cols, rows, hmean as int, hmax as int, k),
                        hmax as int,
                    )))
            }),
        },
{
    let w = edge.width;
    let h = edge.height;
    if !cfg.is_valid_for(w, h) {
        return Err(PipelineError::CellSizeMismatch);
    }
    let (heat, hmax, hmean) = heat_map(edge, cfg);
    match hmean {
        None => {
            proof {
                lemma_no_positive_all_zero(heat.cells@);
            }
            Ok(heat)
        },
        Some(m) => {
            let ghost hm = heat_cells(edge.cells@, w as int, h as int, *cfg);
            let ghost cols = 2 * w as int / (cfg.cell_size as int);
            let ghost rows = 2 * h as int / (cfg.cell_size as int);
            match cellular_automaton(heat, hmax, m, cfg.max_passes) {
                Ok(g) => {
                    proof {
                        assert(heat.cells@ == hm);
                        assert(heat.width as int == cols && heat.height as int == rows);
                        let k = choose|k: nat|
                            #![auto]
                            k <= cfg.max_passes && g.cells@ == iterate(
                                heat.cells@,
                                heat.width as int,
                                heat.height as int,
                                m as int,
                                hmax as int,
                                k,
                            ) && (forall|j: nat|
                                j < k ==> !is_stable(
                                    iterate(
                                        heat.cells@,
                                        heat.width as int,
                                        heat.height as int,
                                        m as int,
                                        hmax as int,
                                        j,
                                    ),
                                    hmax as int,
                                ));
                        assert(k <= cfg.max_passes && g.cells@ == iterate(
                            hm,
                            cols,
                            rows,
                            m as int,
                            hmax as int,
                            k,
                        ) && (forall|j: nat|
                            j < k ==> !is_stable(
                                iterate(hm, cols, rows, m as int, hmax as int, j),
                                hmax as int,
                            )));
                    }
                    Ok(g)
                },
                Err(e) => Err(e),
            }
        },
    }
}

/// Runs the whole extraction pipeline over a raw luminance grid: edge
/// detection, heat mapping, automaton stabilization, thresholding and flood
/// fill. On success the returned objects' point sets partition the surviving
/// cells of the first stabilized heat grid — every live cell in exactly one
/// object — and no two objects touch. An image without any edge density
/// yields zero objects; an ill-fitting cell size or a non-convergent
/// automaton is reported as the matching error.
pub fn identify_objects(image: Grid<u8>, cfg: &Config) -> (r: Result<
    Vec<VisualObject>,
    PipelineError,
>)
    requires
        image.wf(),
    ensures
        (r == Result::<Vec<VisualObject>, PipelineError>::Err(PipelineError::CellSizeMismatch))
            <==> !cfg.valid_for(image.width as int, image.height as int),
        match r {
            Ok(objs) => {
                &&& forall|i: int|
                    0 <= i < objs@.len() ==> (#[trigger] objs@[i]).reference == (Point {
                        x: 0u32,
                        y: 0u32,
                    }) && objs@[i].wf() && objs@[i].points@.len() > 0 && all_connected(
                        objs@[i].points@,
                    )
                &&& pairwise_disjoint(objs@)
                &&& pairwise_separated(objs@)
                &&& (!pipeline_active(image, *cfg) ==> objs@.len() == 0)
                &&& (pipeline_active(image, *cfg) ==> exists|k: nat|
                    #![auto]
                    k <= cfg.max_passes && is_stable(
                        pipeline_stabilized(image, *cfg, k),
                        pipeline_heat_max(image, *cfg) as int,
                    ) && (forall|j: nat|
                        j < k ==> !is_stable(
                            pipeline_stabilized(image, *cfg, j),
                            pipeline_heat_max(image, *cfg) as int,
                        )) && pts_union(objs@) == pipeline_points(image, *cfg, k))
            },
            Err(e) => e == PipelineError::CellSizeMismatch || (e == PipelineError::NonConvergence
                && pipeline_active(image, *cfg) && (forall|k: nat|
                k <= cfg.max_passes ==> !is_stable(
                    pipeline_stabilized(image, *cfg, k),
                    pipeline_heat_max(image, *cfg) as int,
                ))),
        },
{
    let w = image.width;
    let h = image.height;
    if !cfg.is_valid_for(w, h) {
        return Err(PipelineError::CellSizeMismatch);
    }
    let edge = find_edges(&image, cfg);
    let (heat, hmax, hmean) = heat_map(&edge, cfg);
    proof {
        assert(edge.cells@ == pipeline_edges(image, *cfg));
        assert(heat.cells@ == pipeline_heat(image, *cfg));
    }
    match hmean {
        None => {
            let objs: Vec<VisualObject> = Vec::new();
            Ok(objs)
        },
        Some(m) => {
            match cellular_automaton(heat, hmax, m, cfg.max_passes) {
                Err(e) => Err(e),
                Ok(st) => {
                    proof {
                        lemma_halved_pitch(w as int, cfg.cell_size as int);
                        lemma_halved_pitch(h as int, cfg.cell_size as int);
                        assert(st.width <= w && st.height <= h) by (nonlinear_arith)
                            requires
                                st.width as int == (w as int) / ((cfg.cell_size as int) / 2),
                                st.height as int == (h as int) / ((cfg.cell_size as int) / 2),
                                w as int == (st.width as int) * ((cfg.cell_size as int) / 2),
                                h as int == (st.height as int) * ((cfg.cell_size as int) / 2),
                                (cfg.cell_size as int) / 2 >= 1,
                                st.width >= 0,
                                st.height >= 0,
                        ;
                    }
                    let pm = to_point_map(&st);
                    let mut objs: Vec<VisualObject> = Vec::new();
                    extract_highlights(pm, Point::new(0, 0), &mut objs);
                    proof {
                        assert(objs@.skip(0) =~= objs@);
                        let k = choose|k: nat|
                            #![auto]
                            k <= cfg.max_passes && st.cells@ == iterate(
                                heat.cells@,
                                heat.width as int,
                                heat.height as int,
                                m as int,
                                hmax as int,
                                k,
                            ) && (forall|j: nat|
                                j < k ==> !is_stable(
                                    iterate(
                                        heat.cells@,
                                        heat.width as int,
                                        heat.height as int,
                                        m as int,
                                        hmax as int,
                                        j,
                                    ),
                                    hmax as int,
                                ));
                        assert(st.cells@ == pipeline_stabilized(image, *cfg, k));
                        assert(forall|j: nat|
                            j < k ==> !is_stable(
                                pipeline_stabilized(image, *cfg, j),
                                pipeline_heat_max(image, *cfg) as int,
                            ));
                        assert(pts_union(objs@) == pipeline_points(image, *cfg, k));
                    }
                    Ok(objs)
                },
            }
        },
    }
}

} // verus!
