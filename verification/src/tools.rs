//! The editing tools — brush, eraser, bucket and color picker — as a
//! closed set dispatched by pattern match. Each tool's effect is a pure
//! function of the canvas and the frame's input state: the application
//! polls the pointer, builds a `ToolContext` of plain values, and the
//! engine does the rest.

use vstd::prelude::*;

use crate::canvas::ActionView;
use crate::canvas::Canvas;
use crate::canvas::CanvasView;
use crate::canvas::region_extract;
use crate::canvas::region_overlay;
use crate::canvas::region_zero;
use crate::color::Rgba;
use crate::layer::Layer;
use crate::layer::LayerView;
use crate::rect::Rect;
use crate::stroke::Stroke;
use crate::stroke::bresenham_points;
use crate::stroke::covers_one;
use crate::stroke::draw_line_image;
use crate::stroke::stamp_covers;
use crate::stroke::stamp_mask_at;

verus! {

/// What shape of cursor preview a tool asks for: the brush outline, or a
/// single-cell point.
pub enum CursorType {
    Stroke,
    Point,
}

/// The pointer buttons' state for one frame, polled by the application.
#[derive(Clone, Copy, PartialEq, Eq, Structural, Debug)]
pub struct PointerState {
    pub left_down: bool,
    pub right_down: bool,
    pub left_pressed: bool,
    pub right_pressed: bool,
    pub left_released: bool,
    pub right_released: bool,
}

/// The shared tool settings the panels edit.
pub struct ToolsSettings {
    pub color_tolerance: u8,
    pub flood_mode_continuous: bool,
    pub stroke: Stroke,
}

impl ToolsSettings {
    /// The tolerance slider stays on its 0-100 scale and the brush mask
    /// matches its size.
    pub open spec fn inv(self) -> bool {
        &&& self.color_tolerance <= 100
        &&& self.stroke.inv()
    }

    /// Defaults: exact-match tolerance, connected fill, a one-pixel brush.
    pub fn new() -> (s: ToolsSettings)
        ensures
            s.inv(),
            s.color_tolerance == 0,
            s.flood_mode_continuous,
            s.stroke.size == 1,
    {
        ToolsSettings { color_tolerance: 0, flood_mode_continuous: true, stroke: Stroke::new(1) }
    }
}

/// Everything a tool reads of one frame: the cursor in canvas
/// coordinates, the previous frame's cursor, the two selected colors and
/// the pointer state — plain values, owned by the caller.
#[derive(Clone, Copy)]
pub struct ToolContext {
    pub cursor_x: i16,
    pub cursor_y: i16,
    pub cursor_in_bounds: bool,
    pub last_cursor_x: Option<i16>,
    pub last_cursor_y: Option<i16>,
    pub primary_color: Rgba,
    pub secondary_color: Rgba,
    pub pointer: PointerState,
}

/// The lattice points a stroke touches this frame: the Bresenham walk
/// from the previous cursor when there is one, else the cursor alone.
pub open spec fn stroke_pts(ctx: ToolContext) -> Seq<(int, int)> {
    match (ctx.last_cursor_x, ctx.last_cursor_y) {
        (Some(lx), Some(ly)) => bresenham_points(
            lx as int,
            ly as int,
            ctx.cursor_x as int,
            ctx.cursor_y as int,
        ),
        _ => seq![(ctx.cursor_x as int, ctx.cursor_y as int)],
    }
}

/// A flat surface with the brush mask stamped along the given points:
/// covered cells take the stroke color, all others keep their pixel.
pub open spec fn stamped_surface(
    surface: Seq<Rgba>,
    w: int,
    pts: Seq<(int, int)>,
    mask: Seq<Vec<bool>>,
    off: int,
    color: Rgba,
) -> Seq<Rgba> {
    Seq::new(
        surface.len(),
        |i: int|
            if stamp_covers(pts, mask, off, i % w, i / w) {
                color
            } else {
                surface[i]
            },
    )
}

/// The coordinates a stroke has marked on a layer after this frame: what
/// was tracked before, plus every in-bounds cell a stamp covers.
pub open spec fn stamped_tracked(
    prior: Set<(u32, u32)>,
    w: int,
    h: int,
    pts: Seq<(int, int)>,
    mask: Seq<Vec<bool>>,
    off: int,
) -> Set<(u32, u32)> {
    Set::new(
        |pt: (u32, u32)|
            prior.contains(pt) || (crate::fill::cell_in_bounds(w, h, (pt.0 as int, pt.1 as int))
                && stamp_covers(pts, mask, off, pt.0 as int, pt.1 as int)),
    )
}

/// The freehand paint tool.
pub struct Brush;

/// The eraser: it delegates its marking to an internal brush and erases
/// the marked pixels on release.
pub struct Eraser {
    pub internal_brush: Brush,
}

/// The fill tool.
pub struct Bucket;

/// The eyedropper: picks the color under the cursor.
pub struct ColorPicker;

/// The closed set of tools, dispatched by pattern match.
pub enum ToolKind {
    Brush,
    Eraser,
    Bucket,
    ColorPicker,
}

impl ToolKind {
    /// The cursor preview the tool asks for.
    pub fn cursor_type(&self) -> (c: CursorType)
        ensures
            (self is Brush || self is Eraser) <==> c is Stroke,
    {
        match self {
            ToolKind::Brush => CursorType::Stroke,
            ToolKind::Eraser => CursorType::Stroke,
            ToolKind::Bucket => CursorType::Point,
            ToolKind::ColorPicker => CursorType::Point,
        }
    }

    /// The tool's display name.
    pub fn name(&self) -> (s: String)
        ensures
            self is Brush ==> s@ == "brush"@,
            self is Eraser ==> s@ == "eraser"@,
            self is Bucket ==> s@ == "bucket"@,
            self is ColorPicker ==> s@ == "color picker"@,
    {
        match self {
            ToolKind::Brush => String::from_str("brush"),
            ToolKind::Eraser => String::from_str("eraser"),
            ToolKind::Bucket => String::from_str("bucket"),
            ToolKind::ColorPicker => String::from_str("color picker"),
        }
    }
}

/// All tools, in the order the panels list them.
pub fn get_tools() -> (tools: Vec<ToolKind>)
    ensures
        tools@.len() == 4,
        tools@[0] is Brush,
        tools@[1] is Eraser,
        tools@[2] is Bucket,
        tools@[3] is ColorPicker,
{
    let mut tools: Vec<ToolKind> = Vec::new();
    tools.push(ToolKind::Brush);
    tools.push(ToolKind::Eraser);
    tools.push(ToolKind::Bucket);
    tools.push(ToolKind::ColorPicker);
    tools
}

impl Brush {
    /// Stamps the stroke onto `layer`: along the Bresenham line from the
    /// previous cursor when one exists, else a single mask stamp at the
    /// cursor. Returns the layer's accumulated dirty rectangle for the
    /// preview refresh, without flushing it.
    pub fn draw_stroke(
        &self,
        stroke: &Stroke,
        cursor_x: i16,
        cursor_y: i16,
        last_cursor_x: Option<i16>,
        last_cursor_y: Option<i16>,
        layer: &mut Layer,
        draw_color: Rgba,
    ) -> (region: Option<Rect>)
        requires
            old(layer).inv(),
            stroke.inv(),
        ensures
            final(layer).inv(),
            final(layer).image.same_shape(old(layer).image),
            final(layer)@.name == old(layer)@.name,
            final(layer)@.visible == old(layer)@.visible,
            ({
                let pts = match (last_cursor_x, last_cursor_y) {
                    (Some(lx), Some(ly)) => bresenham_points(
                        lx as int,
                        ly as int,
                        cursor_x as int,
                        cursor_y as int,
                    ),
                    _ => seq![(cursor_x as int, cursor_y as int)],
                };
                &&& (forall|qx: int, qy: int|
                    old(layer).image.spec_in_bounds(qx, qy)
                        ==> #[trigger] final(layer).image.pixel_at(qx, qy) == (if stamp_covers(
                        pts,
                        stroke.pixels@,
                        stroke.pixels_offset as int,
                        qx,
                        qy,
                    ) {
                        draw_color
                    } else {
                        old(layer).image.pixel_at(qx, qy)
                    }))
                &&& (forall|pt: (u32, u32)|
                    #[trigger] final(layer).bounds_tracker.tracked_set().contains(pt) <==> (old(
                        layer,
                    ).bounds_tracker.tracked_set().contains(pt) || (old(
                        layer,
                    ).image.spec_in_bounds(pt.0 as int, pt.1 as int) && stamp_covers(
                        pts,
                        stroke.pixels@,
                        stroke.pixels_offset as int,
                        pt.0 as int,
                        pt.1 as int,
                    ))))
            }),
            region is None <==> final(layer).bounds_tracker.tracked_set() =~= Set::<
                (u32, u32),
            >::empty(),
            region matches Some(r) ==> crate::rect::rect_tight(
                r,
                final(layer).bounds_tracker.tracked_set(),
            ),
    {
        match (last_cursor_x, last_cursor_y) {
            (Some(lx), Some(ly)) => {
                draw_line_image(layer, draw_color, lx, ly, cursor_x, cursor_y, stroke);
            },
            _ => {
                stamp_mask_at(
                    layer,
                    draw_color,
                    &stroke.pixels,
                    stroke.pixels_offset,
                    cursor_x as i32,
                    cursor_y as i32,
                );
                proof {
                    let pts = seq![(cursor_x as int, cursor_y as int)];
                    assert forall|qx: int, qy: int|
                        #[trigger] stamp_covers(
                            pts,
                            stroke.pixels@,
                            stroke.pixels_offset as int,
                            qx,
                            qy,
                        ) <==> covers_one(
                        stroke.pixels@,
                        stroke.pixels_offset as int,
                        (cursor_x as int, cursor_y as int),
                        qx,
                        qy,
                    ) by {
                        if covers_one(
                            stroke.pixels@,
                            stroke.pixels_offset as int,
                            (cursor_x as int, cursor_y as int),
                            qx,
                            qy,
                        ) {
                            assert(pts[0] == (cursor_x as int, cursor_y as int));
                            assert(covers_one(
                                stroke.pixels@,
                                stroke.pixels_offset as int,
                                pts[0],
                                qx,
                                qy,
                            ));
                        }
                    }
                }
            },
        }
        layer.bounds_tracker.to_rect()
    }
}

impl ColorPicker {
    /// On a press inside the canvas, the color under the cursor on the
    /// current layer; the caller stores it in the color slot of the
    /// button pressed.
    pub fn update(&self, canvas: &Canvas, ctx: &ToolContext) -> (picked: Option<Rgba>)
        requires
            canvas.inv(),
            ctx.cursor_in_bounds ==> {
                &&& 0 <= ctx.cursor_x
                &&& (ctx.cursor_x as int) < canvas@.width
                &&& 0 <= ctx.cursor_y
                &&& (ctx.cursor_y as int) < canvas@.height
            },
        ensures
            picked is Some <==> (ctx.cursor_in_bounds && (ctx.pointer.left_pressed
                || ctx.pointer.right_pressed)),
            picked matches Some(c) ==> c == canvas@.layers[canvas@.current_layer].pixels[
                crate::raster::row_major(
                    canvas@.width,
                    ctx.cursor_x as int,
                    ctx.cursor_y as int,
                )
            ],
    {
        if !ctx.cursor_in_bounds {
            return None;
        }
        if ctx.pointer.left_pressed || ctx.pointer.right_pressed {
            let c = canvas.layers[canvas.current_layer].image.get_pixel(
                ctx.cursor_x as u32,
                ctx.cursor_y as u32,
            );
            Some(c)
        } else {
            None
        }
    }
}

impl Bucket {
    /// On a press inside the canvas, fills the current layer from the
    /// cursor with the pressed button's color, the tolerance slider's
    /// value mapped to a channel-sum bound, connected or global per the
    /// settings; the whole prior layer is logged for undo. Returns the
    /// repainted rectangle.
    pub fn update(
        &self,
        canvas: &mut Canvas,
        settings: &ToolsSettings,
        ctx: &ToolContext,
    ) -> (region: Option<Rect>)
        requires
            old(canvas).inv(),
            settings.inv(),
            ctx.cursor_in_bounds ==> {
                &&& 0 <= ctx.cursor_x
                &&& (ctx.cursor_x as int) < old(canvas)@.width
                &&& 0 <= ctx.cursor_y
                &&& (ctx.cursor_y as int) < old(canvas)@.height
            },
        ensures
            final(canvas).inv(),
            !(ctx.cursor_in_bounds && (ctx.pointer.left_pressed || ctx.pointer.right_pressed))
                ==> *final(canvas) == *old(canvas) && region is None,
            (ctx.cursor_in_bounds && (ctx.pointer.left_pressed || ctx.pointer.right_pressed))
                ==> region is Some,
            (ctx.cursor_in_bounds && (ctx.pointer.left_pressed || ctx.pointer.right_pressed))
                ==> final(canvas)@ == (CanvasView {
                layers: old(canvas)@.layers.update(
                    old(canvas)@.current_layer,
                    LayerView {
                        pixels: (if settings.flood_mode_continuous {
                            crate::fill::flood_result(
                                old(canvas)@.layers[old(canvas)@.current_layer].pixels,
                                old(canvas)@.width,
                                old(canvas)@.height,
                                crate::color::tolerance_spec(settings.color_tolerance as nat),
                                (ctx.cursor_x as int, ctx.cursor_y as int),
                                (if ctx.pointer.left_pressed {
                                    ctx.primary_color
                                } else {
                                    ctx.secondary_color
                                }),
                            )
                        } else {
                            crate::fill::global_result(
                                old(canvas)@.layers[old(canvas)@.current_layer].pixels,
                                crate::raster::row_major(
                                    old(canvas)@.width,
                                    ctx.cursor_x as int,
                                    ctx.cursor_y as int,
                                ),
                                crate::color::tolerance_spec(settings.color_tolerance as nat),
                                (if ctx.pointer.left_pressed {
                                    ctx.primary_color
                                } else {
                                    ctx.secondary_color
                                }),
                            )
                        }),
                        modified: true,
                        ..old(canvas)@.layers[old(canvas)@.current_layer]
                    },
                ),
                history: old(canvas)@.history.push(
                    ActionView::LayerFull {
                        index: old(canvas)@.current_layer,
                        image: old(canvas)@.layers[old(canvas)@.current_layer].pixels,
                    },
                ),
                ..old(canvas)@
            }),
    {
        if !ctx.cursor_in_bounds {
            return None;
        }
        let draw_color = if ctx.pointer.left_pressed {
            Some(ctx.primary_color)
        } else if ctx.pointer.right_pressed {
            Some(ctx.secondary_color)
        } else {
            None
        };
        match draw_color {
            None => None,
            Some(color) => {
                let tolerance = crate::color::map_tolerance(settings.color_tolerance);
                canvas.apply_fill(
                    ctx.cursor_x as u16,
                    ctx.cursor_y as u16,
                    color,
                    tolerance,
                    settings.flood_mode_continuous,
                )
            },
        }
    }
}

impl Brush {
    /// One frame of the brush: while a button is held, the stroke is
    /// painted into the scratch layer — the pressed button picking the
    /// color — and the scratch's dirty rectangle is reported for the
    /// preview. On release the scratch is committed onto the current
    /// layer as one undoable region edit and wiped.
    pub fn update(
        &self,
        canvas: &mut Canvas,
        settings: &ToolsSettings,
        ctx: &ToolContext,
    ) -> (refresh: Option<Rect>)
        requires
            old(canvas).inv(),
            settings.inv(),
        ensures
            final(canvas).inv(),
            ({
                let drawing = ctx.pointer.left_down || ctx.pointer.right_down;
                let releasing = ctx.pointer.left_released || ctx.pointer.right_released;
                let dcolor = if ctx.pointer.left_down {
                    ctx.primary_color
                } else {
                    ctx.secondary_color
                };
                let mid_scratch = if drawing {
                    stamped_surface(
                        old(canvas)@.scratch,
                        old(canvas)@.width,
                        stroke_pts(*ctx),
                        settings.stroke.pixels@,
                        settings.stroke.pixels_offset as int,
                        dcolor,
                    )
                } else {
                    old(canvas)@.scratch
                };
                let mid_tracked = if drawing {
                    stamped_tracked(
                        old(canvas).current_changes.bounds_tracker.tracked_set(),
                        old(canvas)@.width,
                        old(canvas)@.height,
                        stroke_pts(*ctx),
                        settings.stroke.pixels@,
                        settings.stroke.pixels_offset as int,
                    )
                } else {
                    old(canvas).current_changes.bounds_tracker.tracked_set()
                };
                &&& (!drawing && !releasing ==> *final(canvas) == *old(canvas) && refresh
                    is None)
                &&& (!releasing ==> {
                    &&& final(canvas)@ == (CanvasView { scratch: mid_scratch, ..old(canvas)@ })
                    &&& final(canvas).current_changes.bounds_tracker.tracked_set()
                        =~= mid_tracked
                })
                &&& (releasing ==> {
                    &&& final(canvas).current_changes.bounds_tracker.tracked_set() =~= Set::<
                        (u32, u32),
                    >::empty()
                    &&& match refresh {
                        None => {
                            &&& mid_tracked =~= Set::<(u32, u32)>::empty()
                            &&& final(canvas)@ == (CanvasView {
                                scratch: mid_scratch,
                                ..old(canvas)@
                            })
                        },
                        Some(r) => {
                            &&& crate::rect::rect_tight(r, mid_tracked)
                            &&& r.x + r.w <= old(canvas)@.width
                            &&& r.y + r.h <= old(canvas)@.height
                            &&& final(canvas)@ == (CanvasView {
                                layers: old(canvas)@.layers.update(
                                    old(canvas)@.current_layer,
                                    LayerView {
                                        pixels: region_overlay(
                                            old(canvas)@.layers[old(canvas)@.current_layer].pixels,
                                            old(canvas)@.width,
                                            r,
                                            mid_scratch,
                                        ),
                                        modified: true,
                                        ..old(canvas)@.layers[old(canvas)@.current_layer]
                                    },
                                ),
                                history: old(canvas)@.history.push(
                                    ActionView::LayerRegion {
                                        index: old(canvas)@.current_layer,
                                        region: r,
                                        image: region_extract(
                                            old(canvas)@.layers[old(canvas)@.current_layer].pixels,
                                            old(canvas)@.width,
                                            r,
                                        ),
                                    },
                                ),
                                scratch: region_zero(mid_scratch, old(canvas)@.width, r),
                                ..old(canvas)@
                            })
                        },
                    }
                })
            }),
    {
        let ghost v0 = old(canvas)@;
        let ghost tracked0 = old(canvas).current_changes.bounds_tracker.tracked_set();
        let draw_color = if ctx.pointer.left_down {
            Some(ctx.primary_color)
        } else if ctx.pointer.right_down {
            Some(ctx.secondary_color)
        } else {
            None
        };
        let mut refresh: Option<Rect> = None;
        match draw_color {
            Some(c) => {
                let r0 = self.draw_stroke(
                    &settings.stroke,
                    ctx.cursor_x,
                    ctx.cursor_y,
                    ctx.last_cursor_x,
                    ctx.last_cursor_y,
                    &mut canvas.current_changes,
                    c,
                );
                refresh = r0;
                proof {
                    let w = v0.width;
                    let h = v0.height;
                    let pts = stroke_pts(*ctx);
                    let mask = settings.stroke.pixels@;
                    let off = settings.stroke.pixels_offset as int;
                    assert forall|i: int| 0 <= i < canvas.current_changes.image@.len() implies
                        canvas.current_changes.image@[i] == stamped_surface(
                        v0.scratch,
                        w,
                        pts,
                        mask,
                        off,
                        c,
                    )[i] by {
                        vstd::arithmetic::div_mod::lemma_fundamental_div_mod(i, w);
                        vstd::arithmetic::div_mod::lemma_mod_bound(i, w);
                        assert(w * (i / w) == (i / w) * w) by (nonlinear_arith);
                        let px = i % w;
                        let py = i / w;
                        assert(crate::raster::row_major(w, px, py) == i);
                        assert(py < h) by (nonlinear_arith)
                            requires
                                0 < w,
                                0 <= i < w * h,
                                i == w * py + px,
                                0 <= px < w,
                                py == i / w,
                                px == i % w,
                        ;
                        assert(canvas.current_changes.image.pixel_at(px, py)
                            == canvas.current_changes.image@[i]);
                    }
                    assert(canvas.current_changes.image@ =~= stamped_surface(
                        v0.scratch,
                        w,
                        pts,
                        mask,
                        off,
                        c,
                    ));
                    assert(canvas.current_changes.bounds_tracker.tracked_set()
                        =~= stamped_tracked(tracked0, w, h, pts, mask, off));
                    assert(canvas.inv());
                    assert(canvas@ =~~= (CanvasView {
                        scratch: stamped_surface(v0.scratch, w, pts, mask, off, c),
                        ..v0
                    }));
                }
            },
            None => {
            },
        }
        if ctx.pointer.left_released || ctx.pointer.right_released {
            refresh = canvas.commit_changes();
        }
        refresh
    }
}

impl Eraser {
    /// One frame of the eraser: while a button is held, fully opaque red
    /// marks are painted into the scratch layer through the internal
    /// brush. On release, every marked pixel of the current layer is
    /// erased to transparent as one undoable region edit, and the marks
    /// are wiped.
    pub fn update(
        &self,
        canvas: &mut Canvas,
        settings: &ToolsSettings,
        ctx: &ToolContext,
    ) -> (refresh: Option<Rect>)
        requires
            old(canvas).inv(),
            settings.inv(),
        ensures
            final(canvas).inv(),
            ({
                let drawing = ctx.pointer.left_down || ctx.pointer.right_down;
                let releasing = !drawing && (ctx.pointer.left_released
                    || ctx.pointer.right_released);
                let mark = Rgba { r: 255, g: 0, b: 0, a: 255 };
                let mid_scratch = if drawing {
                    stamped_surface(
                        old(canvas)@.scratch,
                        old(canvas)@.width,
                        stroke_pts(*ctx),
                        settings.stroke.pixels@,
                        settings.stroke.pixels_offset as int,
                        mark,
                    )
                } else {
                    old(canvas)@.scratch
                };
                &&& (!drawing && !releasing ==> *final(canvas) == *old(canvas) && refresh
                    is None)
                &&& (drawing ==> {
                    &&& final(canvas)@ == (CanvasView { scratch: mid_scratch, ..old(canvas)@ })
                    &&& final(canvas).current_changes.bounds_tracker.tracked_set()
                        =~= stamped_tracked(
                        old(canvas).current_changes.bounds_tracker.tracked_set(),
                        old(canvas)@.width,
                        old(canvas)@.height,
                        stroke_pts(*ctx),
                        settings.stroke.pixels@,
                        settings.stroke.pixels_offset as int,
                    )
                })
                &&& (releasing ==> {
                    &&& final(canvas).current_changes.bounds_tracker.tracked_set() =~= Set::<
                        (u32, u32),
                    >::empty()
                    &&& match refresh {
                        None => {
                            &&& old(canvas).current_changes.bounds_tracker.tracked_set()
                                =~= Set::<(u32, u32)>::empty()
                            &&& final(canvas)@ == old(canvas)@
                        },
                        Some(r) => {
                            &&& crate::rect::rect_tight(
                                r,
                                old(canvas).current_changes.bounds_tracker.tracked_set(),
                            )
                            &&& r.x + r.w <= old(canvas)@.width
                            &&& r.y + r.h <= old(canvas)@.height
                            &&& final(canvas)@ == (CanvasView {
                                layers: old(canvas)@.layers.update(
                                    old(canvas)@.current_layer,
                                    LayerView {
                                        pixels: crate::canvas::region_erase(
                                            old(canvas)@.layers[old(canvas)@.current_layer].pixels,
                                            old(canvas)@.width,
                                            r,
                                            old(canvas)@.scratch,
                                        ),
                                        modified: true,
                                        ..old(canvas)@.layers[old(canvas)@.current_layer]
                                    },
                                ),
                                history: old(canvas)@.history.push(
                                    ActionView::LayerRegion {
                                        index: old(canvas)@.current_layer,
                                        region: r,
                                        image: region_extract(
                                            old(canvas)@.layers[old(canvas)@.current_layer].pixels,
                                            old(canvas)@.width,
                                            r,
                                        ),
                                    },
                                ),
                                scratch: crate::canvas::region_erase(
                                    old(canvas)@.scratch,
                                    old(canvas)@.width,
                                    r,
                                    old(canvas)@.scratch,
                                ),
                                ..old(canvas)@
                            })
                        },
                    }
                })
            }),
    {
        let ghost v0 = old(canvas)@;
        let ghost tracked0 = old(canvas).current_changes.bounds_tracker.tracked_set();
        let mark = Rgba { r: 255, g: 0, b: 0, a: 255 };
        if ctx.pointer.left_down || ctx.pointer.right_down {
            let r0 = self.internal_brush.draw_stroke(
                &settings.stroke,
                ctx.cursor_x,
                ctx.cursor_y,
                ctx.last_cursor_x,
                ctx.last_cursor_y,
                &mut canvas.current_changes,
                mark,
            );
            proof {
                let w = v0.width;
                let h = v0.height;
                let pts = stroke_pts(*ctx);
                let mask = settings.stroke.pixels@;
                let off = settings.stroke.pixels_offset as int;
                assert forall|i: int| 0 <= i < canvas.current_changes.image@.len() implies
                    canvas.current_changes.image@[i] == stamped_surface(
                    v0.scratch,
                    w,
                    pts,
                    mask,
                    off,
                    mark,
                )[i] by {
                    vstd::arithmetic::div_mod::lemma_fundamental_div_mod(i, w);
                    vstd::arithmetic::div_mod::lemma_mod_bound(i, w);
                    assert(w * (i / w) == (i / w) * w) by (nonlinear_arith);
                    let px = i % w;
                    let py = i / w;
                    assert(crate::raster::row_major(w, px, py) == i);
                    assert(py < h) by (nonlinear_arith)
                        requires
                            0 < w,
                            0 <= i < w * h,
                            i == w * py + px,
                            0 <= px < w,
                            py == i / w,
                            px == i % w,
                    ;
                    assert(canvas.current_changes.image.pixel_at(px, py)
                        == canvas.current_changes.image@[i]);
                }
                assert(canvas.current_changes.image@ =~= stamped_surface(
                    v0.scratch,
                    w,
                    pts,
                    mask,
                    off,
                    mark,
                ));
                assert(canvas.current_changes.bounds_tracker.tracked_set() =~= stamped_tracked(
                    tracked0,
                    w,
                    h,
                    pts,
                    mask,
                    off,
                ));
                assert(canvas.inv());
                assert(canvas@ =~~= (CanvasView {
                    scratch: stamped_surface(v0.scratch, w, pts, mask, off, mark),
                    ..v0
                }));
            }
            r0
        } else if ctx.pointer.left_released || ctx.pointer.right_released {
            canvas.erase_changes()
        } else {
            None
        }
    }
}

} // verus!
