//! Brush strokes: the circular mask a brush size stands for, and the
//! stamping of that mask along a rasterized line. The line's lattice
//! points come from the `line_drawing` crate; everything painted from them
//! is verified against the points it hands back.

use vstd::prelude::*;

use crate::color::Rgba;
use crate::layer::Layer;

verus! {

/// Whether the mask holds an active cell at `(x, y)`; coordinates outside
/// the mask count as inactive.
pub open spec fn mask_at(mask: Seq<Vec<bool>>, x: int, y: int) -> bool {
    0 <= x < mask.len() && 0 <= y < mask[x]@.len() && mask[x]@[y]
}

/// The disk test behind the mask: cell `(x, y)` — measured from the mask's
/// center — is active when `x² + y² < (size/2)² + ½`, the half giving the
/// tie-break toward inclusion. Written over integers: `4(x²+y²) < size²+2`.
pub open spec fn cell_active(size: int, x: int, y: int) -> bool {
    4 * (x * x + y * y) < size * size + 2
}

/// The side of the square grid holding the mask.
pub open spec fn mask_side(size: int) -> int {
    2 * (size / 2) + 1
}

/// Whether `mask` is exactly the disk mask for a brush of this size: a
/// square grid of side `mask_side`, cell `(ix, iy)` active when the disk
/// test holds of it measured from the center `(size/2, size/2)`.
pub open spec fn mask_ok(mask: Seq<Vec<bool>>, size: int) -> bool {
    &&& mask.len() == mask_side(size)
    &&& forall|ix: int| 0 <= ix < mask.len() ==> (#[trigger] mask[ix])@.len() == mask_side(size)
    &&& forall|ix: int, iy: int|
        0 <= ix < mask_side(size) && 0 <= iy < mask_side(size) ==> #[trigger] mask_at(
            mask,
            ix,
            iy,
        ) == cell_active(size, ix - size / 2, iy - size / 2)
}

/// Whether stamping the mask, shifted by `off`, at the single point `p`
/// covers the pixel `(px, py)`.
pub open spec fn covers_one(
    mask: Seq<Vec<bool>>,
    off: int,
    p: (int, int),
    px: int,
    py: int,
) -> bool {
    exists|cx: int, cy: int|
        #[trigger] mask_at(mask, cx, cy) && px == p.0 + cx + off && py == p.1 + cy + off
}

/// Whether stamping the mask at every point of `pts` covers the pixel.
pub open spec fn stamp_covers(
    pts: Seq<(int, int)>,
    mask: Seq<Vec<bool>>,
    off: int,
    px: int,
    py: int,
) -> bool {
    exists|i: int| 0 <= i < pts.len() && covers_one(mask, off, #[trigger] pts[i], px, py)
}

/// The lattice points the `line_drawing` crate's Bresenham walk visits
/// from one endpoint to the other, both included, in walking order.
pub uninterp spec fn bresenham_points(x1: int, y1: int, x2: int, y2: int) -> Seq<(int, int)>;

/// Relies on `line_drawing::Bresenham`: an iterator over the points of the
/// discretized line that, as its documentation states, includes both the
/// start and the end point. Which intermediate lattice points it takes is
/// the crate's own discretization, named here `bresenham_points`.
#[verifier::external_body]
fn bresenham_line(x1: i16, y1: i16, x2: i16, y2: i16) -> (r: Vec<(i32, i32)>)
    ensures
        r@.len() == bresenham_points(x1 as int, y1 as int, x2 as int, y2 as int).len(),
        forall|i: int|
            0 <= i < r@.len() ==> ((#[trigger] r@[i]).0 as int, r@[i].1 as int)
                == bresenham_points(x1 as int, y1 as int, x2 as int, y2 as int)[i],
        r@.len() >= 1,
        r@[0] == (x1 as i32, y1 as i32),
        r@[r@.len() - 1] == (x2 as i32, y2 as i32),
{
    line_drawing::Bresenham::new((x1 as i32, y1 as i32), (x2 as i32, y2 as i32)).collect()
}

/// Stamps every active cell of the mask, shifted by `off`, at the point
/// `(px, py)`, clipped to the layer's bounds.
pub fn stamp_mask_at(
    layer: &mut Layer,
    color: Rgba,
    mask: &Vec<Vec<bool>>,
    off: i16,
    px: i32,
    py: i32,
)
    requires
        old(layer).inv(),
        mask@.len() <= 0x10001,
        forall|ix: int| 0 <= ix < mask@.len() ==> (#[trigger] mask@[ix])@.len() <= 0x10001,
    ensures
        final(layer).inv(),
        final(layer).image.same_shape(old(layer).image),
        final(layer)@.name == old(layer)@.name,
        final(layer)@.visible == old(layer)@.visible,
        old(layer)@.modified ==> final(layer)@.modified,
        forall|qx: int, qy: int|
            old(layer).image.spec_in_bounds(qx, qy) ==> #[trigger] final(layer).image.pixel_at(
                qx,
                qy,
            ) == (if covers_one(mask@, off as int, (px as int, py as int), qx, qy) {
                color
            } else {
                old(layer).image.pixel_at(qx, qy)
            }),
        forall|pt: (u32, u32)|
            #[trigger] final(layer).bounds_tracker.tracked_set().contains(pt) <==> (old(
                layer,
            ).bounds_tracker.tracked_set().contains(pt) || (old(layer).image.spec_in_bounds(
                pt.0 as int,
                pt.1 as int,
            ) && covers_one(
                mask@,
                off as int,
                (px as int, py as int),
                pt.0 as int,
                pt.1 as int,
            ))),
{
    let ghost p = (px as int, py as int);
    let ghost o = off as int;
    let w = layer.image.width() as i64;
    let h = layer.image.height() as i64;
    let mut cx: usize = 0;
    while cx < mask.len()
        invariant
            layer.inv(),
            layer.image.same_shape(old(layer).image),
            layer@.name == old(layer)@.name,
            layer@.visible == old(layer)@.visible,
            old(layer)@.modified ==> layer@.modified,
            mask@.len() <= 0x10001,
            forall|ix: int| 0 <= ix < mask@.len() ==> (#[trigger] mask@[ix])@.len() <= 0x10001,
            w == old(layer).image.spec_width(),
            h == old(layer).image.spec_height(),
            p == (px as int, py as int),
            o == off as int,
            cx <= mask@.len(),
            forall|qx: int, qy: int|
                old(layer).image.spec_in_bounds(qx, qy) ==> #[trigger] layer.image.pixel_at(
                    qx,
                    qy,
                ) == (if exists|cx2: int, cy2: int|
                    cx2 < cx && #[trigger] mask_at(mask@, cx2, cy2) && qx == p.0 + cx2 + o && qy
                        == p.1 + cy2 + o {
                    color
                } else {
                    old(layer).image.pixel_at(qx, qy)
                }),
            forall|pt: (u32, u32)|
                #[trigger] layer.bounds_tracker.tracked_set().contains(pt) <==> (old(
                    layer,
                ).bounds_tracker.tracked_set().contains(pt) || (old(layer).image.spec_in_bounds(
                    pt.0 as int,
                    pt.1 as int,
                ) && exists|cx2: int, cy2: int|
                    cx2 < cx && #[trigger] mask_at(mask@, cx2, cy2) && pt.0 == p.0 + cx2 + o
                        && pt.1 == p.1 + cy2 + o)),
        decreases mask@.len() - cx,
    {
        let column = &mask[cx];
        let mut cy: usize = 0;
        while cy < column.len()
            invariant
                layer.inv(),
                layer.image.same_shape(old(layer).image),
                layer@.name == old(layer)@.name,
                layer@.visible == old(layer)@.visible,
                old(layer)@.modified ==> layer@.modified,
                mask@.len() <= 0x10001,
                forall|ix: int|
                    0 <= ix < mask@.len() ==> (#[trigger] mask@[ix])@.len() <= 0x10001,
                w == old(layer).image.spec_width(),
                h == old(layer).image.spec_height(),
                p == (px as int, py as int),
                o == off as int,
                cx < mask@.len(),
                column == mask@[cx as int],
                cy <= column@.len(),
                forall|qx: int, qy: int|
                    old(layer).image.spec_in_bounds(qx, qy) ==> #[trigger] layer.image.pixel_at(
                        qx,
                        qy,
                    ) == (if exists|cx2: int, cy2: int|
                        (cx2 < cx || (cx2 == cx && cy2 < cy)) && #[trigger] mask_at(
                            mask@,
                            cx2,
                            cy2,
                        ) && qx == p.0 + cx2 + o && qy == p.1 + cy2 + o {
                        color
                    } else {
                        old(layer).image.pixel_at(qx, qy)
                    }),
                forall|pt: (u32, u32)|
                    #[trigger] layer.bounds_tracker.tracked_set().contains(pt) <==> (old(
                        layer,
                    ).bounds_tracker.tracked_set().contains(pt) || (old(
                        layer,
                    ).image.spec_in_bounds(pt.0 as int, pt.1 as int) && exists|cx2: int, cy2: int|
                        (cx2 < cx || (cx2 == cx && cy2 < cy)) && #[trigger] mask_at(
                            mask@,
                            cx2,
                            cy2,
                        ) && pt.0 == p.0 + cx2 + o && pt.1 == p.1 + cy2 + o)),
            decreases column@.len() - cy,
        {
            let ghost prev = *layer;
            let active = column[cy];
            let tx: i64 = px as i64 + cx as i64 + off as i64;
            let ty: i64 = py as i64 + cy as i64 + off as i64;
            let hit = active && 0 <= tx && tx < w && 0 <= ty && ty < h;
            if hit {
                layer.set_pixel(tx as u32, ty as u32, color);
            }
            proof {
                let cxi = cx as int;
                let cyi = cy as int;
                assert(tx as int == p.0 + cxi + o);
                assert(ty as int == p.1 + cyi + o);
                if hit {
                    assert(mask_at(mask@, cxi, cyi));
                    crate::raster::lemma_row_major_in_range(
                        prev.image.spec_width(),
                        prev.image.spec_height(),
                        tx as int,
                        ty as int,
                    );
                }
                assert forall|qx: int, qy: int|
                    old(layer).image.spec_in_bounds(qx, qy) implies #[trigger] layer.image.pixel_at(
                    qx,
                    qy,
                ) == (if exists|cx2: int, cy2: int|
                    (cx2 < cxi || (cx2 == cxi && cy2 < cyi + 1)) && #[trigger] mask_at(
                        mask@,
                        cx2,
                        cy2,
                    ) && qx == p.0 + cx2 + o && qy == p.1 + cy2 + o {
                    color
                } else {
                    old(layer).image.pixel_at(qx, qy)
                }) by {
                    crate::raster::lemma_row_major_in_range(
                        prev.image.spec_width(),
                        prev.image.spec_height(),
                        qx,
                        qy,
                    );
                    if hit && qx == tx as int && qy == ty as int {
                        assert(mask_at(mask@, cxi, cyi) && qx == p.0 + cxi + o && qy == p.1 + cyi
                            + o);
                        assert(layer.image.pixel_at(qx, qy) == color);
                    } else {
                        if hit {
                            crate::raster::lemma_row_major_injective(
                                prev.image.spec_width(),
                                qx,
                                qy,
                                tx as int,
                                ty as int,
                            );
                        }
                        assert(layer.image.pixel_at(qx, qy) == prev.image.pixel_at(qx, qy));
                        if exists|cx2: int, cy2: int|
                            (cx2 < cxi || (cx2 == cxi && cy2 < cyi + 1)) && #[trigger] mask_at(
                                mask@,
                                cx2,
                                cy2,
                            ) && qx == p.0 + cx2 + o && qy == p.1 + cy2 + o {
                            let (cx2, cy2) = choose|cx2: int, cy2: int|
                                (cx2 < cxi || (cx2 == cxi && cy2 < cyi + 1)) && #[trigger] mask_at(
                                    mask@,
                                    cx2,
                                    cy2,
                                ) && qx == p.0 + cx2 + o && qy == p.1 + cy2 + o;
                            if cx2 == cxi && cy2 == cyi {
                                assert(qx == p.0 + cxi + o && qy == p.1 + cyi + o);
                                assert(qx == tx as int && qy == ty as int);
                                assert(hit);
                                assert(false);
                            }
                        }
                    }
                }
                assert forall|pt: (u32, u32)|
                    #[trigger] layer.bounds_tracker.tracked_set().contains(pt) <==> (old(
                    layer,
                ).bounds_tracker.tracked_set().contains(pt) || (old(layer).image.spec_in_bounds(
                    pt.0 as int,
                    pt.1 as int,
                ) && exists|cx2: int, cy2: int|
                    (cx2 < cxi || (cx2 == cxi && cy2 < cyi + 1)) && #[trigger] mask_at(
                        mask@,
                        cx2,
                        cy2,
                    ) && pt.0 == p.0 + cx2 + o && pt.1 == p.1 + cy2 + o)) by {
                    let qx = pt.0 as int;
                    let qy = pt.1 as int;
                    if hit {
                        assert(layer.bounds_tracker.tracked_set()
                            =~= prev.bounds_tracker.tracked_set().insert(
                            (tx as u32, ty as u32),
                        ));
                    }
                    if layer.bounds_tracker.tracked_set().contains(pt) {
                        if hit && pt == (tx as u32, ty as u32) {
                            assert(mask_at(mask@, cxi, cyi) && qx == p.0 + cxi + o && qy == p.1
                                + cyi + o);
                            assert(old(layer).image.spec_in_bounds(qx, qy));
                        } else {
                            assert(prev.bounds_tracker.tracked_set().contains(pt));
                        }
                    }
                    if !layer.bounds_tracker.tracked_set().contains(pt) {
                        assert(!prev.bounds_tracker.tracked_set().contains(pt));
                        if old(layer).image.spec_in_bounds(qx, qy) && exists|cx2: int, cy2: int|
                            (cx2 < cxi || (cx2 == cxi && cy2 < cyi + 1)) && #[trigger] mask_at(
                                mask@,
                                cx2,
                                cy2,
                            ) && qx == p.0 + cx2 + o && qy == p.1 + cy2 + o {
                            let (cx2, cy2) = choose|cx2: int, cy2: int|
                                (cx2 < cxi || (cx2 == cxi && cy2 < cyi + 1)) && #[trigger] mask_at(
                                    mask@,
                                    cx2,
                                    cy2,
                                ) && qx == p.0 + cx2 + o && qy == p.1 + cy2 + o;
                            if cx2 == cxi && cy2 == cyi {
                                assert(qx == tx as int && qy == ty as int);
                                assert(hit);
                                assert(pt == (tx as u32, ty as u32));
                                assert(false);
                            } else {
                                assert(prev.bounds_tracker.tracked_set().contains(pt));
                                assert(false);
                            }
                        }
                    }
                }
            }
            cy = cy + 1;
        }
        proof {
            let cxi = cx as int;
            assert forall|cx2: int, cy2: int|
                (cx2 < cxi + 1) && #[trigger] mask_at(mask@, cx2, cy2) implies (cx2 < cxi || (cx2
                    == cxi && cy2 < column@.len())) by {}
        }
        cx = cx + 1;
    }
    proof {
        assert forall|cx2: int, cy2: int| #[trigger] mask_at(mask@, cx2, cy2) implies cx2
            < mask@.len() by {}
    }
}

/// Stamps the mask at every point handed back by the line walk; the
/// pixels the stroke paints are exactly those some stamp covers, clipped
/// to the layer.
pub fn stamp_points(
    layer: &mut Layer,
    color: Rgba,
    points: &Vec<(i32, i32)>,
    mask: &Vec<Vec<bool>>,
    off: i16,
)
    requires
        old(layer).inv(),
        mask@.len() <= 0x10001,
        forall|ix: int| 0 <= ix < mask@.len() ==> (#[trigger] mask@[ix])@.len() <= 0x10001,
    ensures
        final(layer).inv(),
        final(layer).image.same_shape(old(layer).image),
        final(layer)@.name == old(layer)@.name,
        final(layer)@.visible == old(layer)@.visible,
        forall|qx: int, qy: int|
            old(layer).image.spec_in_bounds(qx, qy) ==> #[trigger] final(layer).image.pixel_at(
                qx,
                qy,
            ) == (if stamp_covers(
                points@.map_values(|pp: (i32, i32)| (pp.0 as int, pp.1 as int)),
                mask@,
                off as int,
                qx,
                qy,
            ) {
                color
            } else {
                old(layer).image.pixel_at(qx, qy)
            }),
        forall|pt: (u32, u32)|
            #[trigger] final(layer).bounds_tracker.tracked_set().contains(pt) <==> (old(
                layer,
            ).bounds_tracker.tracked_set().contains(pt) || (old(layer).image.spec_in_bounds(
                pt.0 as int,
                pt.1 as int,
            ) && stamp_covers(
                points@.map_values(|pp: (i32, i32)| (pp.0 as int, pp.1 as int)),
                mask@,
                off as int,
                pt.0 as int,
                pt.1 as int,
            ))),
{
    let ghost pts = points@.map_values(|pp: (i32, i32)| (pp.0 as int, pp.1 as int));
    let mut i: usize = 0;
    while i < points.len()
        invariant
            layer.inv(),
            layer.image.same_shape(old(layer).image),
            layer@.name == old(layer)@.name,
            layer@.visible == old(layer)@.visible,
            i <= points@.len(),
            mask@.len() <= 0x10001,
            forall|ix: int| 0 <= ix < mask@.len() ==> (#[trigger] mask@[ix])@.len() <= 0x10001,
            pts == points@.map_values(|pp: (i32, i32)| (pp.0 as int, pp.1 as int)),
            forall|qx: int, qy: int|
                old(layer).image.spec_in_bounds(qx, qy) ==> #[trigger] layer.image.pixel_at(
                    qx,
                    qy,
                ) == (if exists|j: int|
                    0 <= j < i && covers_one(mask@, off as int, #[trigger] pts[j], qx, qy) {
                    color
                } else {
                    old(layer).image.pixel_at(qx, qy)
                }),
            forall|pt: (u32, u32)|
                #[trigger] layer.bounds_tracker.tracked_set().contains(pt) <==> (old(
                    layer,
                ).bounds_tracker.tracked_set().contains(pt) || (old(layer).image.spec_in_bounds(
                    pt.0 as int,
                    pt.1 as int,
                ) && exists|j: int|
                    0 <= j < i && covers_one(mask@, off as int, #[trigger] pts[j], pt.0 as int, pt.1 as int))),
        decreases points@.len() - i,
    {
        let pt = points[i];
        let ghost before = *layer;
        stamp_mask_at(layer, color, mask, off, pt.0, pt.1);
        proof {
            assert(pts[i as int] == (pt.0 as int, pt.1 as int));
            assert forall|qx: int, qy: int|
                old(layer).image.spec_in_bounds(qx, qy) implies #[trigger] layer.image.pixel_at(
                qx,
                qy,
            ) == (if exists|j: int|
                0 <= j < i + 1 && covers_one(mask@, off as int, #[trigger] pts[j], qx, qy) {
                color
            } else {
                old(layer).image.pixel_at(qx, qy)
            }) by {
                if covers_one(mask@, off as int, (pt.0 as int, pt.1 as int), qx, qy) {
                    assert(covers_one(mask@, off as int, pts[i as int], qx, qy));
                } else {
                    if exists|j: int|
                        0 <= j < i && covers_one(mask@, off as int, #[trigger] pts[j], qx, qy) {
                        let j = choose|j: int|
                            0 <= j < i && covers_one(mask@, off as int, #[trigger] pts[j], qx, qy);
                        assert(0 <= j < i + 1 && covers_one(mask@, off as int, pts[j], qx, qy));
                    }
                }
            }
            assert forall|pt2: (u32, u32)|
                #[trigger] layer.bounds_tracker.tracked_set().contains(pt2) <==> (old(
                layer,
            ).bounds_tracker.tracked_set().contains(pt2) || (old(layer).image.spec_in_bounds(
                pt2.0 as int,
                pt2.1 as int,
            ) && exists|j: int|
                0 <= j < i + 1 && covers_one(
                    mask@,
                    off as int,
                    #[trigger] pts[j],
                    pt2.0 as int,
                    pt2.1 as int,
                ))) by {
                if covers_one(mask@, off as int, (pt.0 as int, pt.1 as int), pt2.0 as int, pt2.1 as int) {
                    assert(covers_one(mask@, off as int, pts[i as int], pt2.0 as int, pt2.1 as int));
                }
                if layer.bounds_tracker.tracked_set().contains(pt2) {
                    if !before.bounds_tracker.tracked_set().contains(pt2) {
                        assert(covers_one(
                            mask@,
                            off as int,
                            (pt.0 as int, pt.1 as int),
                            pt2.0 as int,
                            pt2.1 as int,
                        ));
                    } else {
                        if !old(layer).bounds_tracker.tracked_set().contains(pt2) {
                            let j = choose|j: int|
                                0 <= j < i && covers_one(
                                    mask@,
                                    off as int,
                                    #[trigger] pts[j],
                                    pt2.0 as int,
                                    pt2.1 as int,
                                );
                            assert(0 <= j < i + 1 && covers_one(
                                mask@,
                                off as int,
                                pts[j],
                                pt2.0 as int,
                                pt2.1 as int,
                            ));
                        }
                    }
                }
                if !layer.bounds_tracker.tracked_set().contains(pt2) {
                    assert(!before.bounds_tracker.tracked_set().contains(pt2));
                    if old(layer).image.spec_in_bounds(pt2.0 as int, pt2.1 as int) && exists|j: int|
                        0 <= j < i + 1 && covers_one(
                            mask@,
                            off as int,
                            #[trigger] pts[j],
                            pt2.0 as int,
                            pt2.1 as int,
                        ) {
                        let j = choose|j: int|
                            0 <= j < i + 1 && covers_one(
                                mask@,
                                off as int,
                                #[trigger] pts[j],
                                pt2.0 as int,
                                pt2.1 as int,
                            );
                        if j < i {
                            assert(before.bounds_tracker.tracked_set().contains(pt2));
                        } else {
                            assert(covers_one(
                                mask@,
                                off as int,
                                (pt.0 as int, pt.1 as int),
                                pt2.0 as int,
                                pt2.1 as int,
                            ));
                        }
                        assert(false);
                    }
                }
            }
        }
        i = i + 1;
    }
}

/// Whether `seg` reads as the unit segment from `(x1, y1)` to `(x2, y2)`.
pub open spec fn seg_is(
    seg: ((usize, usize), (usize, usize)),
    x1: int,
    y1: int,
    x2: int,
    y2: int,
) -> bool {
    seg.0.0 == x1 && seg.0.1 == y1 && seg.1.0 == x2 && seg.1.1 == y2
}

/// Whether `seg` is a border of some active cell: the unit segment on the
/// side of an active cell whose neighbour on that side is inactive or
/// outside the mask.
pub open spec fn border_seg_of(
    mask: Seq<Vec<bool>>,
    seg: ((usize, usize), (usize, usize)),
) -> bool {
    exists|x: int, y: int|
        #![trigger mask_at(mask, x, y)]
        mask_at(mask, x, y) && {
            ||| (!mask_at(mask, x, y + 1) && seg_is(seg, x, y + 1, x + 1, y + 1))
            ||| (!mask_at(mask, x, y - 1) && seg_is(seg, x, y, x + 1, y))
            ||| (!mask_at(mask, x - 1, y) && seg_is(seg, x, y, x, y + 1))
            ||| (!mask_at(mask, x + 1, y) && seg_is(seg, x + 1, y, x + 1, y + 1))
        }
}

/// Whether the list holds the unit segment from `(x1, y1)` to `(x2, y2)`.
pub open spec fn has_seg(
    segs: Seq<((usize, usize), (usize, usize))>,
    x1: int,
    y1: int,
    x2: int,
    y2: int,
) -> bool {
    exists|k: int| 0 <= k < segs.len() && seg_is(#[trigger] segs[k], x1, y1, x2, y2)
}

/// Whether the list accounts for every border the active cell `(x, y)`
/// owes: one segment for each side whose neighbour is inactive.
pub open spec fn borders_complete_at(
    mask: Seq<Vec<bool>>,
    segs: Seq<((usize, usize), (usize, usize))>,
    x: int,
    y: int,
) -> bool {
    mask_at(mask, x, y) ==> {
        &&& (!mask_at(mask, x, y + 1) ==> has_seg(segs, x, y + 1, x + 1, y + 1))
        &&& (!mask_at(mask, x, y - 1) ==> has_seg(segs, x, y, x + 1, y))
        &&& (!mask_at(mask, x - 1, y) ==> has_seg(segs, x, y, x, y + 1))
        &&& (!mask_at(mask, x + 1, y) ==> has_seg(segs, x + 1, y, x + 1, y + 1))
    }
}

/// A border account stays complete when the segment list only grows.
proof fn lemma_borders_monotone(
    mask: Seq<Vec<bool>>,
    s1: Seq<((usize, usize), (usize, usize))>,
    s2: Seq<((usize, usize), (usize, usize))>,
    x: int,
    y: int,
)
    requires
        s1.len() <= s2.len(),
        forall|k: int| 0 <= k < s1.len() ==> #[trigger] s2[k] == s1[k],
        borders_complete_at(mask, s1, x, y),
    ensures
        borders_complete_at(mask, s2, x, y),
{
    if mask_at(mask, x, y) {
        if !mask_at(mask, x, y + 1) {
            let k = choose|k: int| 0 <= k < s1.len() && seg_is(#[trigger] s1[k], x, y + 1, x + 1, y + 1);
            assert(seg_is(s2[k], x, y + 1, x + 1, y + 1));
        }
        if !mask_at(mask, x, y - 1) {
            let k = choose|k: int| 0 <= k < s1.len() && seg_is(#[trigger] s1[k], x, y, x + 1, y);
            assert(seg_is(s2[k], x, y, x + 1, y));
        }
        if !mask_at(mask, x - 1, y) {
            let k = choose|k: int| 0 <= k < s1.len() && seg_is(#[trigger] s1[k], x, y, x, y + 1);
            assert(seg_is(s2[k], x, y, x, y + 1));
        }
        if !mask_at(mask, x + 1, y) {
            let k = choose|k: int| 0 <= k < s1.len() && seg_is(#[trigger] s1[k], x + 1, y, x + 1, y + 1);
            assert(seg_is(s2[k], x + 1, y, x + 1, y + 1));
        }
    }
}

/// The outline of the mask, drawn by the cursor preview: for every active
/// cell, the unit segments on the sides where no active neighbour joins —
/// each emitted segment is such a border, and no border is missed.
fn generate_borders(pixels: &Vec<Vec<bool>>) -> (r: Vec<((usize, usize), (usize, usize))>)
    requires
        pixels@.len() <= 0x10001,
        forall|ix: int| 0 <= ix < pixels@.len() ==> (#[trigger] pixels@[ix])@.len() <= 0x10001,
    ensures
        forall|k: int| 0 <= k < r@.len() ==> border_seg_of(pixels@, #[trigger] r@[k]),
        forall|x: int, y: int| #[trigger] borders_complete_at(pixels@, r@, x, y),
{
    let mut r: Vec<((usize, usize), (usize, usize))> = Vec::new();
    let mut x: usize = 0;
    while x < pixels.len()
        invariant
            pixels@.len() <= 0x10001,
            forall|ix: int|
                0 <= ix < pixels@.len() ==> (#[trigger] pixels@[ix])@.len() <= 0x10001,
            x <= pixels@.len(),
            forall|k: int| 0 <= k < r@.len() ==> border_seg_of(pixels@, #[trigger] r@[k]),
            forall|x2: int, y2: int|
                x2 < x ==> #[trigger] borders_complete_at(pixels@, r@, x2, y2),
        decreases pixels@.len() - x,
    {
        let column = &pixels[x];
        let mut y: usize = 0;
        while y < column.len()
            invariant
                pixels@.len() <= 0x10001,
                forall|ix: int|
                    0 <= ix < pixels@.len() ==> (#[trigger] pixels@[ix])@.len() <= 0x10001,
                x < pixels@.len(),
                column == pixels@[x as int],
                y <= column@.len(),
                forall|k: int| 0 <= k < r@.len() ==> border_seg_of(pixels@, #[trigger] r@[k]),
                forall|x2: int, y2: int|
                    x2 < x ==> #[trigger] borders_complete_at(pixels@, r@, x2, y2),
                forall|y2: int|
                    y2 < y ==> #[trigger] borders_complete_at(pixels@, r@, x as int, y2),
            decreases column@.len() - y,
        {
            let ghost r_start = r@;
            if column[y] {
                proof {
                    assert(mask_at(pixels@, x as int, y as int));
                }
                let neighbour_above: bool = y + 1 < column.len() && column[y + 1];
                let neighbour_below: bool = y >= 1 && column[y - 1];
                let neighbour_left: bool = x >= 1 && {
                    let lc = &pixels[x - 1];
                    y < lc.len() && lc[y]
                };
                let neighbour_right: bool = x + 1 < pixels.len() && {
                    let rc = &pixels[x + 1];
                    y < rc.len() && rc[y]
                };
                proof {
                    assert(neighbour_above == mask_at(pixels@, x as int, y as int + 1));
                    assert(neighbour_below == mask_at(pixels@, x as int, y as int - 1));
                    assert(neighbour_left == mask_at(pixels@, x as int - 1, y as int));
                    assert(neighbour_right == mask_at(pixels@, x as int + 1, y as int));
                }
                let ghost n0 = r@.len() as int;
                if !neighbour_above {
                    r.push(((x, y + 1), (x + 1, y + 1)));
                }
                let ghost n1 = r@.len() as int;
                if !neighbour_below {
                    r.push(((x, y), (x + 1, y)));
                }
                let ghost n2 = r@.len() as int;
                if !neighbour_left {
                    r.push(((x, y), (x, y + 1)));
                }
                let ghost n3 = r@.len() as int;
                if !neighbour_right {
                    r.push(((x + 1, y), (x + 1, y + 1)));
                }
                proof {
                    let xi = x as int;
                    let yi = y as int;
                    if !neighbour_above {
                        assert(r@[n0] == ((x, ((y + 1) as usize)), (((x + 1) as usize), ((y + 1) as usize))));
                        assert(seg_is(r@[n0], xi, yi + 1, xi + 1, yi + 1));
                        assert(has_seg(r@, xi, yi + 1, xi + 1, yi + 1));
                    }
                    if !neighbour_below {
                        assert(r@[n1] == ((x, y), (((x + 1) as usize), y)));
                        assert(seg_is(r@[n1], xi, yi, xi + 1, yi));
                        assert(has_seg(r@, xi, yi, xi + 1, yi));
                    }
                    if !neighbour_left {
                        assert(r@[n2] == ((x, y), (x, ((y + 1) as usize))));
                        assert(seg_is(r@[n2], xi, yi, xi, yi + 1));
                        assert(has_seg(r@, xi, yi, xi, yi + 1));
                    }
                    if !neighbour_right {
                        assert(r@[n3] == ((((x + 1) as usize), y), (((x + 1) as usize), ((y + 1) as usize))));
                        assert(seg_is(r@[n3], xi + 1, yi, xi + 1, yi + 1));
                        assert(has_seg(r@, xi + 1, yi, xi + 1, yi + 1));
                    }
                    assert(borders_complete_at(pixels@, r@, xi, yi));
                    assert forall|k: int| 0 <= k < r@.len() implies border_seg_of(
                        pixels@,
                        #[trigger] r@[k],
                    ) by {
                        if k < r_start.len() {
                            assert(r@[k] == r_start[k]);
                        } else {
                            assert(mask_at(pixels@, xi, yi));
                        }
                    }
                }
            }
            proof {
                assert forall|x2: int, y2: int|
                    x2 < x || (x2 == x && y2 < y + 1) implies #[trigger] borders_complete_at(
                    pixels@,
                    r@,
                    x2,
                    y2,
                ) by {
                    if x2 == x && y2 == y {
                        if mask_at(pixels@, x2, y2) {
                            assert(borders_complete_at(pixels@, r@, x2, y2));
                        }
                    } else {
                        lemma_borders_monotone(pixels@, r_start, r@, x2, y2);
                    }
                }
            }
            y = y + 1;
        }
        proof {
            assert forall|x2: int, y2: int| x2 < x + 1 implies #[trigger] borders_complete_at(
                pixels@,
                r@,
                x2,
                y2,
            ) by {
                if x2 == x && mask_at(pixels@, x2, y2) {
                    assert(y2 < column@.len());
                }
            }
        }
        x = x + 1;
    }
    proof {
        assert forall|x2: int, y2: int| #[trigger] borders_complete_at(pixels@, r@, x2, y2) by {
            if mask_at(pixels@, x2, y2) {
                assert(x2 < pixels@.len());
            }
        }
    }
    r
}

/// Stamping a single-cell brush covers exactly the point itself.
pub proof fn lemma_unit_mask_covers(
    mask: Seq<Vec<bool>>,
    px: int,
    py: int,
    qx: int,
    qy: int,
)
    requires
        mask_ok(mask, 1),
    ensures
        covers_one(mask, 0, (px, py), qx, qy) <==> (qx == px && qy == py),
{
    assert(mask_at(mask, 0, 0) == cell_active(1, 0, 0));
    if covers_one(mask, 0, (px, py), qx, qy) {
        let (cx, cy) = choose|cx: int, cy: int|
            #[trigger] mask_at(mask, cx, cy) && qx == px + cx + 0 && qy == py + cy + 0;
        assert(cx == 0 && cy == 0);
    }
    if qx == px && qy == py {
        assert(mask_at(mask, 0, 0) && qx == px + 0 + 0 && qy == py + 0 + 0);
    }
}

/// Builds the disk mask for a brush of this size.
fn generate_pixels(size: u16) -> (r: Vec<Vec<bool>>)
    ensures
        mask_ok(r@, size as int),
{
    if size <= 1 {
        let mut row: Vec<bool> = Vec::new();
        row.push(true);
        let mut r: Vec<Vec<bool>> = Vec::new();
        r.push(row);
        proof {
            assert(mask_side(size as int) == 1);
            assert(r@[0]@ =~= seq![true]);
            assert((size as int) * (size as int) >= 0) by (nonlinear_arith);
            assert forall|ix: int, iy: int|
                0 <= ix < 1 && 0 <= iy < 1 implies #[trigger] mask_at(r@, ix, iy) == cell_active(
                size as int,
                ix - (size as int) / 2,
                iy - (size as int) / 2,
            ) by {
                assert(ix == 0 && iy == 0);
                assert(mask_at(r@, 0, 0));
                assert((size as int) / 2 == 0);
                assert(4 * (0 * 0 + 0 * 0) == 0);
                assert(cell_active(size as int, 0, 0));
            }
        }
        return r;
    }
    let half: u16 = size / 2;
    let side: usize = 2 * (half as usize) + 1;
    let ghost sz = size as int;
    let mut r: Vec<Vec<bool>> = Vec::new();
    let mut ix: usize = 0;
    while ix < side
        invariant
            side == 2 * ((sz / 2) as int) + 1,
            sz == size as int,
            half == sz / 2,
            size >= 2,
            r@.len() == ix,
            ix <= side,
            forall|i: int| 0 <= i < ix ==> (#[trigger] r@[i])@.len() == side,
            forall|i: int, j: int|
                0 <= i < ix && 0 <= j < side ==> #[trigger] r@[i]@[j] == cell_active(
                    sz,
                    i - sz / 2,
                    j - sz / 2,
                ),
        decreases side - ix,
    {
        let mut row: Vec<bool> = Vec::new();
        let x: i64 = ix as i64 - half as i64;
        let mut iy: usize = 0;
        while iy < side
            invariant
                side == 2 * ((sz / 2) as int) + 1,
                sz == size as int,
                half == sz / 2,
                size >= 2,
                ix < side,
                x == ix as int - sz / 2,
                row@.len() == iy,
                iy <= side,
                forall|j: int|
                    0 <= j < iy ==> #[trigger] row@[j] == cell_active(sz, ix - sz / 2, j - sz / 2),
            decreases side - iy,
        {
            let y: i64 = iy as i64 - half as i64;
            proof {
                assert(0 <= x * x <= 0x10000 * 0x10000) by (nonlinear_arith)
                    requires
                        -0x10000 <= x <= 0x10000,
                ;
                assert(0 <= y * y <= 0x10000 * 0x10000) by (nonlinear_arith)
                    requires
                        -0x10000 <= y <= 0x10000,
                ;
                assert(0 <= (size as i64) * (size as i64) <= 0x10000 * 0x10000) by (nonlinear_arith)
                    requires
                        size <= 0xffff,
                ;
            }
            let active = 4 * (x * x + y * y) < (size as i64) * (size as i64) + 2;
            row.push(active);
            iy = iy + 1;
        }
        r.push(row);
        proof {
            assert forall|i: int, j: int|
                0 <= i < ix + 1 && 0 <= j < side implies #[trigger] r@[i]@[j] == cell_active(
                sz,
                i - sz / 2,
                j - sz / 2,
            ) by {
                if i < ix {
                    assert(r@[i] == r@.drop_last()[i]);
                }
            }
        }
        ix = ix + 1;
    }
    proof {
        assert forall|ixq: int, iyq: int|
            0 <= ixq < mask_side(sz) && 0 <= iyq < mask_side(sz) implies #[trigger] mask_at(
            r@,
            ixq,
            iyq,
        ) == cell_active(sz, ixq - sz / 2, iyq - sz / 2) by {
            assert(r@[ixq]@.len() == side);
        }
    }
    r
}

/// The brush shape: its size, the disk mask the size stands for, the
/// offset centering the mask on the cursor, and the outline segments the
/// cursor preview draws.
pub struct Stroke {
    pub size: u16,
    pub pixels: Vec<Vec<bool>>,
    pub pixels_offset: i16,
    pub borders: Vec<((usize, usize), (usize, usize))>,
}

impl Stroke {
    /// The mask matches the size, and the offset centers it: minus half
    /// the size, rounded toward zero.
    pub open spec fn inv(self) -> bool {
        &&& mask_ok(self.pixels@, self.size as int)
        &&& self.pixels_offset == -((self.size as int) / 2)
    }

    /// The brush for a given size.
    pub fn new(size: u16) -> (s: Stroke)
        ensures
            s.inv(),
            s.size == size,
            forall|k: int|
                0 <= k < s.borders@.len() ==> border_seg_of(s.pixels@, #[trigger] s.borders@[k]),
            forall|x: int, y: int| #[trigger] borders_complete_at(s.pixels@, s.borders@, x, y),
    {
        proof {
            assert(0 - ((size as int) / 2) >= -0x8000);
        }
        let pixels = generate_pixels(size);
        let borders = generate_borders(&pixels);
        Stroke { size, pixels, pixels_offset: -((size / 2) as i16), borders }
    }

    /// Rebuilds the mask, the offset and the outline after the size
    /// changed.
    pub fn update(&mut self)
        ensures
            final(self).inv(),
            final(self).size == old(self).size,
            forall|k: int|
                0 <= k < final(self).borders@.len() ==> border_seg_of(
                    final(self).pixels@,
                    #[trigger] final(self).borders@[k],
                ),
            forall|x: int, y: int|
                #[trigger] borders_complete_at(final(self).pixels@, final(self).borders@, x, y),
    {
        self.pixels = generate_pixels(self.size);
        self.borders = generate_borders(&self.pixels);
        self.pixels_offset = -((self.size / 2) as i16);
    }
}

/// Walks the Bresenham line between the two cursor positions and stamps
/// the stroke's mask at every lattice point, clipped to the layer: a
/// pixel is painted exactly when some stamp along the line covers it.
pub fn draw_line_image(
    layer: &mut Layer,
    color: Rgba,
    x1: i16,
    y1: i16,
    x2: i16,
    y2: i16,
    stroke: &Stroke,
)
    requires
        old(layer).inv(),
        stroke.inv(),
    ensures
        final(layer).inv(),
        final(layer).image.same_shape(old(layer).image),
        final(layer)@.name == old(layer)@.name,
        final(layer)@.visible == old(layer)@.visible,
        forall|qx: int, qy: int|
            old(layer).image.spec_in_bounds(qx, qy) ==> #[trigger] final(layer).image.pixel_at(
                qx,
                qy,
            ) == (if stamp_covers(
                bresenham_points(x1 as int, y1 as int, x2 as int, y2 as int),
                stroke.pixels@,
                stroke.pixels_offset as int,
                qx,
                qy,
            ) {
                color
            } else {
                old(layer).image.pixel_at(qx, qy)
            }),
        forall|pt: (u32, u32)|
            #[trigger] final(layer).bounds_tracker.tracked_set().contains(pt) <==> (old(
                layer,
            ).bounds_tracker.tracked_set().contains(pt) || (old(layer).image.spec_in_bounds(
                pt.0 as int,
                pt.1 as int,
            ) && stamp_covers(
                bresenham_points(x1 as int, y1 as int, x2 as int, y2 as int),
                stroke.pixels@,
                stroke.pixels_offset as int,
                pt.0 as int,
                pt.1 as int,
            ))),
{
    let points = bresenham_line(x1, y1, x2, y2);
    proof {
        assert(points@.map_values(|pp: (i32, i32)| (pp.0 as int, pp.1 as int))
            =~= bresenham_points(x1 as int, y1 as int, x2 as int, y2 as int));
    }
    stamp_points(layer, color, &points, &stroke.pixels, stroke.pixels_offset);
}

} // verus!
