use vstd::prelude::*;

use crate::config::Config;
use crate::point::Point;
use crate::visual_object::{bbox_of, is_bounding_box, point_inside, VisualObject};

verus! {

#[verifier::external_type_specification]
#[verifier::external_body]
pub struct ExDynamicImage(image::DynamicImage);

/// Pixel width of a decoded image. Named so that the crop wrapper's contract
/// can say how the returned cut-out is clipped.
pub uninterp spec fn image_width(img: image::DynamicImage) -> nat;

/// Pixel height of a decoded image.
pub uninterp spec fn image_height(img: image::DynamicImage) -> nat;

/// Extent of a crop along one axis: the requested length, clipped to what is
/// available between the (clipped) start and the image border.
pub open spec fn crop_extent(start: int, len: int, total: int) -> int {
    let s = if start < total {
        start
    } else {
        total
    };
    let avail = total - s;
    if len < avail {
        len
    } else {
        avail
    }
}

/// Relies on image::DynamicImage::crop_imm: returns the cut-out of the image
/// delimited by the given rectangle, clipped to the image bounds on both
/// axes.
#[verifier::external_body]
fn crop_image(source: &image::DynamicImage, x: u32, y: u32, width: u32, height: u32) -> (r:
    image::DynamicImage)
    ensures
        image_width(r) as int == crop_extent(x as int, width as int, image_width(*source) as int),
        image_height(r) as int == crop_extent(
            y as int,
            height as int,
            image_height(*source) as int,
        ),
{
    source.crop_imm(x, y, width, height)
}

/// Pixel coordinate of a frame's top-left corner: the bounding-box corner in
/// absolute cell coordinates, pulled back by one cell of padding, scaled by
/// the crisp grid's pixel pitch of half a cell, and clamped into 32 bits.
pub open spec fn frame_coord(cell: int, cs: int) -> int {
    let padded = if cell >= 1 {
        cell - 1
    } else {
        0
    };
    let px = padded * (cs / 2);
    if px > u32::MAX {
        u32::MAX as int
    } else {
        px
    }
}

/// Pixel extent of a frame along one axis: the bounding-box span plus one
/// cell of padding on each side, scaled by half a cell, clamped into 32 bits.
pub open spec fn frame_extent(lo: int, hi: int, cs: int) -> int {
    let px = (hi - lo + 2) * (cs / 2);
    if px > u32::MAX {
        u32::MAX as int
    } else {
        px
    }
}

/// A cell count below 2^33 times a pitch below 2^31 stays below 2^64.
proof fn lemma_frame_mul_bound(a: int, b: int)
    by (nonlinear_arith)
    requires
        0 <= a <= 0x2_0000_0000,
        0 <= b <= 0x8000_0000,
    ensures
        0 <= a * b <= 0x1_0000_0000_0000_0000,
{
}

/// Translates a cell-space bounding box back into the pixel rectangle to cut
/// out of the original image: (x, y, width, height).
pub fn highlight_frame(lower: Point, higher: Point, reference: Point, cell_size: usize) -> (rect: (
    u32,
    u32,
    u32,
    u32,
))
    requires
        2 <= cell_size,
        cell_size <= u32::MAX,
        lower.x <= higher.x,
        lower.y <= higher.y,
    ensures
        rect.0 as int == frame_coord(lower.x as int + reference.x as int, cell_size as int),
        rect.1 as int == frame_coord(lower.y as int + reference.y as int, cell_size as int),
        rect.2 as int == frame_extent(lower.x as int, higher.x as int, cell_size as int),
        rect.3 as int == frame_extent(lower.y as int, higher.y as int, cell_size as int),
{
    let cs2 = (cell_size / 2) as u128;
    let lx = lower.x as u128 + reference.x as u128;
    let ly = lower.y as u128 + reference.y as u128;
    proof {
        lemma_frame_mul_bound(
            if lx >= 1 {
                lx as int - 1
            } else {
                0
            },
            cs2 as int,
        );
        lemma_frame_mul_bound(
            if ly >= 1 {
                ly as int - 1
            } else {
                0
            },
            cs2 as int,
        );
        lemma_frame_mul_bound(higher.x as int - lower.x as int + 2, cs2 as int);
        lemma_frame_mul_bound(higher.y as int - lower.y as int + 2, cs2 as int);
    }
    let px = (if lx >= 1 {
        lx - 1
    } else {
        0
    }) * cs2;
    let py = (if ly >= 1 {
        ly - 1
    } else {
        0
    }) * cs2;
    let pw = (higher.x as u128 - lower.x as u128 + 2) * cs2;
    let ph = (higher.y as u128 - lower.y as u128 + 2) * cs2;
    let x0 = if px > u32::MAX as u128 {
        u32::MAX
    } else {
        px as u32
    };
    let y0 = if py > u32::MAX as u128 {
        u32::MAX
    } else {
        py as u32
    };
    let w0 = if pw > u32::MAX as u128 {
        u32::MAX
    } else {
        pw as u32
    };
    let h0 = if ph > u32::MAX as u128 {
        u32::MAX
    } else {
        ph as u32
    };
    (x0, y0, w0, h0)
}

/// Number of objects that own at least one point, and therefore a bounding
/// box to cut.
pub open spec fn count_nonempty(objs: Seq<VisualObject>) -> nat
    decreases objs.len(),
{
    if objs.len() == 0 {
        0
    } else {
        count_nonempty(objs.drop_last()) + (if objs.last().points@.len() > 0 {
            1nat
        } else {
            0nat
        })
    }
}

/// The (width, height) each crop will come out with, in object order, one
/// entry per object with at least one point: the framed rectangle around the
/// object's bounding box, clipped by the image borders.
pub open spec fn crop_dims(objs: Seq<VisualObject>, iw: int, ih: int, cs: int) -> Seq<(int, int)>
    decreases objs.len(),
{
    if objs.len() == 0 {
        Seq::<(int, int)>::empty()
    } else {
        let rest = crop_dims(objs.drop_last(), iw, ih, cs);
        let o = objs.last();
        if o.points@.len() > 0 {
            let b = bbox_of(o.points@);
            rest.push(
                (
                    crop_extent(
                        frame_coord(b.0.x as int + o.reference.x as int, cs),
                        frame_extent(b.0.x as int, b.1.x as int, cs),
                        iw,
                    ),
                    crop_extent(
                        frame_coord(b.0.y as int + o.reference.y as int, cs),
                        frame_extent(b.0.y as int, b.1.y as int, cs),
                        ih,
                    ),
                ),
            )
        } else {
            rest
        }
    }
}

/// One planned crop per non-empty object.
pub proof fn lemma_crop_dims_len(objs: Seq<VisualObject>, iw: int, ih: int, cs: int)
    ensures
        crop_dims(objs, iw, ih, cs).len() == count_nonempty(objs),
    decreases objs.len(),
{
    if objs.len() > 0 {
        lemma_crop_dims_len(objs.drop_last(), iw, ih, cs);
    }
}

/// Cuts every non-empty highlight out of the original full-resolution image:
/// one cropped image per object with at least one point, in the objects'
/// order, each framed by [`highlight_frame`] and clipped by the image
/// borders. Objects without a bounding box are skipped, not errored.
#[verifier::loop_isolation(false)]
pub fn cut_highlights_from_image(
    highlights: Vec<VisualObject>,
    image: image::DynamicImage,
    cfg: &Config,
) -> (r: Vec<image::DynamicImage>)
    requires
        2 <= cfg.cell_size,
        cfg.cell_size <= u32::MAX,
        forall|i: int| 0 <= i < highlights@.len() ==> (#[trigger] highlights@[i]).wf(),
    ensures
        r@.len() == count_nonempty(highlights@),
        forall|i: int|
            0 <= i < r@.len() ==> (#[trigger] image_width(r@[i])) as int == crop_dims(
                highlights@,
                image_width(image) as int,
                image_height(image) as int,
                cfg.cell_size as int,
            )[i].0,
        forall|i: int|
            0 <= i < r@.len() ==> (#[trigger] image_height(r@[i])) as int == crop_dims(
                highlights@,
                image_width(image) as int,
                image_height(image) as int,
                cfg.cell_size as int,
            )[i].1,
{
    let ghost all = highlights@;
    let ghost iw = image_width(image) as int;
    let ghost ih = image_height(image) as int;
    let mut hs = highlights;
    let mut out: Vec<image::DynamicImage> = Vec::new();
    proof {
        assert(hs@ =~= all.skip(0));
        assert(all.take(0) =~= Seq::<VisualObject>::empty());
    }
    while hs.len() > 0
        invariant
            hs@.len() <= all.len(),
            hs@ == all.skip(all.len() - hs@.len()),
            out@.len() == count_nonempty(all.take(all.len() - hs@.len())),
            forall|i: int|
                0 <= i < out@.len() ==> (#[trigger] image_width(out@[i])) as int == crop_dims(
                    all.take(all.len() - hs@.len()),
                    iw,
                    ih,
                    cfg.cell_size as int,
                )[i].0,
            forall|i: int|
                0 <= i < out@.len() ==> (#[trigger] image_height(out@[i])) as int == crop_dims(
                    all.take(all.len() - hs@.len()),
                    iw,
                    ih,
                    cfg.cell_size as int,
                )[i].1,
        decreases hs@.len(),
    {
        let ghost k = all.len() - hs@.len();
        let mut obj = hs.remove(0);
        proof {
            assert(obj == all[k as int]);
            assert(hs@ =~= all.skip(k + 1));
            assert(all[k as int].wf());
        }
        let size = obj.size();
        match size {
            None => {
            },
            Some((lo, hi)) => {
                proof {
                    let pts = all[k as int].points@;
                    assert(is_bounding_box(pts, lo, hi));
                    assert((lo, hi) == bbox_of(pts));
                    let i0 = choose|i: int| 0 <= i < pts.len() && (#[trigger] pts[i]).x == hi.x;
                    assert(point_inside(pts[i0], lo, hi));
                    let i1 = choose|i: int| 0 <= i < pts.len() && (#[trigger] pts[i]).y == hi.y;
                    assert(point_inside(pts[i1], lo, hi));
                    lemma_crop_dims_len(all.take(k as int), iw, ih, cfg.cell_size as int);
                }
                let (x, y, w, h) = highlight_frame(lo, hi, obj.reference, cfg.cell_size);
                let cropped = crop_image(&image, x, y, w, h);
                out.push(cropped);
            },
        }
        proof {
            let taken = all.take(k + 1);
            assert(taken.drop_last() =~= all.take(k as int));
            assert(taken.last() == all[k as int]);
        }
    }
    proof {
        assert(all.take(all.len() as int) =~= all);
    }
    out
}

} // verus!
