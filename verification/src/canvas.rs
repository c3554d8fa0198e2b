//! The canvas: an ordered stack of layers (index 0 frontmost), a current
//! layer, an undo log, and a transient scratch layer that holds the
//! uncommitted preview of an in-progress stroke. All structural edits of
//! the stack go through the operations here, and each pushes exactly one
//! undo action that reverses it.

use vstd::prelude::*;

use crate::color::Rgba;
use crate::layer::Layer;
use crate::layer::LayerView;
use crate::layer::new_layer_view;
use crate::names::fresh_numbered_name;
use crate::names::name_views;
use crate::raster::RasterBuffer;
use crate::raster::gen_empty_image;
use crate::rect::Rect;

verus! {

/// Why constructing a canvas can fail.
#[derive(Clone, Copy, PartialEq, Eq, Structural, Debug)]
pub enum CanvasError {
    /// A dimension exceeds 32768, or the pixel count exceeds 1073676289.
    TooBig,
}

impl CanvasError {
    /// A message for the user, naming both size limits.
    pub fn message(&self) -> (msg: String)
        ensures
            msg@ == "canvas too big! no dimension may be greater than 32768, and the product of the width and height may not be greater than 1073676289"@,
    {
        String::from_str(
            "canvas too big! no dimension may be greater than 32768, and the product of the width and height may not be greater than 1073676289",
        )
    }
}

/// The size limits a canvas must respect: no dimension over 32768 and no
/// more than 1073676289 pixels.
pub open spec fn valid_canvas_size(w: int, h: int) -> bool {
    &&& w <= 32768
    &&& h <= 32768
    &&& w * h <= 1073676289
}

/// The size limits at their boundary: 32767 by 32767 — exactly
/// 1073676289 pixels — is accepted, and any canvas of even one pixel more
/// is rejected, whatever its shape.
pub proof fn lemma_size_limit_boundary()
    ensures
        valid_canvas_size(32767, 32767),
        forall|w: int, h: int|
            w * h >= 1073676290 ==> !#[trigger] valid_canvas_size(w, h),
{
}

/// Checks the size limits.
fn validate_canvas_size(canvas_width: u16, canvas_height: u16) -> (ok: bool)
    ensures
        ok == valid_canvas_size(canvas_width as int, canvas_height as int),
{
    if canvas_width > 32768 || canvas_height > 32768 {
        return false;
    }
    proof {
        assert(canvas_width as int * canvas_height as int <= 0xffff * 0xffff) by (nonlinear_arith)
            requires
                canvas_width <= 0xffff,
                canvas_height <= 0xffff,
        ;
    }
    if canvas_width as u64 * canvas_height as u64 > 1073676289 {
        return false;
    }
    true
}

/// An action that reverses one canvas edit, stored on the undo log.
pub enum UndoAction {
    /// A whole layer's prior pixels (index, pixels).
    LayerFull(usize, RasterBuffer),
    /// A region of a layer's prior pixels (index, region, pixels of the
    /// region's own dimensions).
    LayerRegion(usize, Rect, RasterBuffer),
    /// A layer was created at the index; undoing removes it.
    CreateLayer(usize),
    /// A layer was deleted: where to reinsert it, its name and pixels.
    DeleteLayer(usize, String, RasterBuffer),
    /// Two layers were merged: the destination index, the removed source
    /// layer's pixels and name, and the destination's prior pixels.
    MergeLayersDown(usize, RasterBuffer, String, RasterBuffer),
    /// A layer was renamed (index, prior name).
    RenameLayer(usize, String),
}

/// The mathematical content of an undo action.
#[verifier::ext_equal]
pub enum ActionView {
    LayerFull { index: int, image: Seq<Rgba> },
    LayerRegion { index: int, region: Rect, image: Seq<Rgba> },
    CreateLayer { index: int },
    DeleteLayer { index: int, name: Seq<char>, image: Seq<Rgba> },
    MergeLayersDown { index: int, source: Seq<Rgba>, source_name: Seq<char>, dest: Seq<Rgba> },
    RenameLayer { index: int, name: Seq<char> },
}

impl View for UndoAction {
    type V = ActionView;

    open spec fn view(&self) -> ActionView {
        match self {
            UndoAction::LayerFull(index, image) => ActionView::LayerFull {
                index: *index as int,
                image: image@,
            },
            UndoAction::LayerRegion(index, region, image) => ActionView::LayerRegion {
                index: *index as int,
                region: *region,
                image: image@,
            },
            UndoAction::CreateLayer(index) => ActionView::CreateLayer { index: *index as int },
            UndoAction::DeleteLayer(index, name, image) => ActionView::DeleteLayer {
                index: *index as int,
                name: name@,
                image: image@,
            },
            UndoAction::MergeLayersDown(index, source, source_name, dest) => (
            ActionView::MergeLayersDown {
                index: *index as int,
                source: source@,
                source_name: source_name@,
                dest: dest@,
            }),
            UndoAction::RenameLayer(index, name) => ActionView::RenameLayer {
                index: *index as int,
                name: name@,
            },
        }
    }
}

/// What a canvas amounts to: its dimensions, layer stack, current-layer
/// index, name, undo log, scratch pixels and modified flag.
#[verifier::ext_equal]
pub struct CanvasView {
    pub width: int,
    pub height: int,
    pub current_layer: int,
    pub layers: Seq<LayerView>,
    pub name: Seq<char>,
    pub history: Seq<ActionView>,
    pub scratch: Seq<Rgba>,
    pub modified: bool,
}

/// The character sequences of the layers' names, front to back.
pub open spec fn layer_names(layers: Seq<LayerView>) -> Seq<Seq<char>> {
    layers.map_values(|l: LayerView| l.name)
}

/// A blank pixel surface of the given dimensions.
pub open spec fn blank_pixels(w: int, h: int) -> Seq<Rgba> {
    Seq::new((w * h) as nat, |i: int| Rgba::spec_transparent())
}

/// The layered pixel canvas with its undo history.
pub struct Canvas {
    pub width: u16,
    pub height: u16,
    pub current_layer: usize,
    pub layers: Vec<Layer>,
    pub name: String,
    pub undo_history: Vec<UndoAction>,
    /// The transient scratch layer carrying the preview of an in-progress
    /// stroke; committed or discarded on release.
    pub current_changes: Layer,
    pub modified: bool,
}

impl View for Canvas {
    type V = CanvasView;

    open spec fn view(&self) -> CanvasView {
        CanvasView {
            width: self.width as int,
            height: self.height as int,
            current_layer: self.current_layer as int,
            layers: self.layers@.map_values(|l: Layer| l@),
            name: self.name@,
            history: self.undo_history@.map_values(|a: UndoAction| a@),
            scratch: self.current_changes.image@,
            modified: self.modified,
        }
    }
}

impl Canvas {
    /// Whether one stored undo action's buffers fit this canvas, so that
    /// replaying it cannot go out of bounds.
    pub open spec fn action_wf(self, a: UndoAction) -> bool {
        match a {
            UndoAction::LayerFull(_, image) => {
                &&& image.inv()
                &&& image.spec_width() == self.width
                &&& image.spec_height() == self.height
            },
            UndoAction::LayerRegion(_, region, image) => {
                &&& image.inv()
                &&& image.spec_width() == region.w
                &&& image.spec_height() == region.h
                &&& region.x + region.w <= self.width
                &&& region.y + region.h <= self.height
            },
            UndoAction::CreateLayer(_) => true,
            UndoAction::DeleteLayer(_, _, image) => {
                &&& image.inv()
                &&& image.spec_width() == self.width
                &&& image.spec_height() == self.height
            },
            UndoAction::MergeLayersDown(_, source, _, dest) => {
                &&& source.inv()
                &&& source.spec_width() == self.width
                &&& source.spec_height() == self.height
                &&& dest.inv()
                &&& dest.spec_width() == self.width
                &&& dest.spec_height() == self.height
            },
            UndoAction::RenameLayer(_, _) => true,
        }
    }

    /// The canvas's internal consistency: valid dimensions, at least one
    /// layer and at most 65535, a valid current index, every layer and the
    /// scratch layer shaped like the canvas, and every stored undo buffer
    /// shaped for replay.
    pub open spec fn inv(self) -> bool {
        &&& valid_canvas_size(self.width as int, self.height as int)
        &&& 1 <= self.layers@.len() <= 0xffff
        &&& (self.current_layer as int) < self.layers@.len()
        &&& forall|i: int|
            0 <= i < self.layers@.len() ==> {
                &&& (#[trigger] self.layers@[i]).inv()
                &&& self.layers@[i].image.spec_width() == self.width
                &&& self.layers@[i].image.spec_height() == self.height
            }
        &&& self.current_changes.inv()
        &&& self.current_changes.image.spec_width() == self.width
        &&& self.current_changes.image.spec_height() == self.height
        &&& forall|i: int|
            0 <= i < self.undo_history@.len() ==> self.action_wf(#[trigger] self.undo_history@[i])
    }

    /// Builds a canvas around a decoded image: the image becomes the one
    /// layer, named "background". Fails — leaving the caller's state
    /// untouched — exactly when the image exceeds the size limits.
    pub fn from_image(image: RasterBuffer, name: String) -> (r: Result<Canvas, CanvasError>)
        requires
            image.inv(),
        ensures
            r is Ok <==> valid_canvas_size(image.spec_width(), image.spec_height()),
            r matches Ok(c) ==> {
                &&& c.inv()
                &&& c@.width == image.spec_width()
                &&& c@.height == image.spec_height()
                &&& c@.current_layer == 0
                &&& c@.layers =~= seq![new_layer_view("background"@, image@)]
                &&& c@.name == name@
                &&& c@.history =~= Seq::<ActionView>::empty()
                &&& c@.scratch =~= blank_pixels(image.spec_width(), image.spec_height())
                &&& !c@.modified
            },
    {
        let width = image.width();
        let height = image.height();
        if !validate_canvas_size(width, height) {
            return Err(CanvasError::TooBig);
        }
        let scratch_image = gen_empty_image(width, height);
        let background = Layer::new(image, String::from_str("background"));
        let mut layers: Vec<Layer> = Vec::new();
        layers.push(background);
        let c = Canvas {
            width,
            height,
            current_layer: 0,
            layers,
            name,
            undo_history: Vec::new(),
            current_changes: Layer::new(scratch_image, String::new()),
            modified: false,
        };
        proof {
            assert(c@.layers =~= seq![new_layer_view("background"@, image@)]);
            assert(c@.history =~= Seq::<ActionView>::empty());
            assert(c@.scratch =~= blank_pixels(image.spec_width(), image.spec_height()));
        }
        Ok(c)
    }

    /// A blank canvas of the given dimensions with one transparent
    /// "background" layer; fails exactly when the dimensions exceed the
    /// size limits.
    pub fn new(width: u16, height: u16, name: String) -> (r: Result<Canvas, CanvasError>)
        ensures
            r is Ok <==> valid_canvas_size(width as int, height as int),
            r matches Ok(c) ==> {
                &&& c.inv()
                &&& c@.width == width
                &&& c@.height == height
                &&& c@.current_layer == 0
                &&& c@.layers =~= seq![
                    new_layer_view("background"@, blank_pixels(width as int, height as int)),
                ]
                &&& c@.name == name@
                &&& c@.history =~= Seq::<ActionView>::empty()
                &&& !c@.modified
            },
    {
        if !validate_canvas_size(width, height) {
            return Err(CanvasError::TooBig);
        }
        let image = gen_empty_image(width, height);
        proof {
            assert(image@ =~= blank_pixels(width as int, height as int));
        }
        Canvas::from_image(image, name)
    }

    /// Whether the canvas or any of its layers has been edited since the
    /// last export.
    pub fn is_modified(&self) -> (m: bool)
        ensures
            m == (self@.modified || exists|i: int|
                0 <= i < self@.layers.len() && (#[trigger] self@.layers[i]).modified),
    {
        let mut modified = self.modified;
        let mut i: usize = 0;
        while i < self.layers.len()
            invariant
                i <= self.layers@.len(),
                modified == (self@.modified || exists|j: int|
                    0 <= j < i && (#[trigger] self@.layers[j]).modified),
            decreases self.layers@.len() - i,
        {
            if self.layers[i].modified {
                proof {
                    assert(self@.layers[i as int].modified);
                }
                modified = true;
            }
            i = i + 1;
        }
        modified
    }

    /// Gives the current layer the new name and logs the old one.
    pub fn rename_layer(&mut self, new_name: String)
        requires
            old(self).inv(),
        ensures
            final(self).inv(),
            final(self)@ == (CanvasView {
                layers: old(self)@.layers.update(
                    old(self)@.current_layer,
                    LayerView {
                        name: new_name@,
                        ..old(self)@.layers[old(self)@.current_layer]
                    },
                ),
                history: old(self)@.history.push(
                    ActionView::RenameLayer {
                        index: old(self)@.current_layer,
                        name: old(self)@.layers[old(self)@.current_layer].name,
                    },
                ),
                ..old(self)@
            }),
    {
        let index = self.current_layer;
        let layer = &mut self.layers[index];
        let old_name = layer.name.clone();
        layer.name = new_name;
        self.undo_history.push(UndoAction::RenameLayer(index, old_name));
        proof {
            assert(final(self)@.layers =~= old(self)@.layers.update(
                old(self)@.current_layer,
                LayerView {
                    name: new_name@,
                    ..old(self)@.layers[old(self)@.current_layer]
                },
            ));
            assert(final(self)@.history =~= old(self)@.history.push(
                ActionView::RenameLayer {
                    index: old(self)@.current_layer,
                    name: old(self)@.layers[old(self)@.current_layer].name,
                },
            ));
            assert(final(self)@ =~~= (CanvasView {
                layers: old(self)@.layers.update(
                    old(self)@.current_layer,
                    LayerView {
                        name: new_name@,
                        ..old(self)@.layers[old(self)@.current_layer]
                    },
                ),
                history: old(self)@.history.push(
                    ActionView::RenameLayer {
                        index: old(self)@.current_layer,
                        name: old(self)@.layers[old(self)@.current_layer].name,
                    },
                ),
                ..old(self)@
            }));
        }
    }
}

/// The name the next created layer receives: "layer n" for the first n,
/// probing upward from one past the layer count, that no existing layer
/// name equals.
pub open spec fn new_layer_name_of(v: CanvasView) -> Seq<char> {
    fresh_numbered_name(
        "layer "@,
        layer_names(v.layers),
        (v.layers.len() + 1) as nat,
        (v.layers.len() + 1) as nat,
    )
}

/// What `new_layer` does: a blank layer under a fresh name slides in at
/// the current index, one create action is logged, and the canvas is
/// marked modified.
pub open spec fn new_layer_t(v: CanvasView) -> CanvasView {
    CanvasView {
        layers: v.layers.insert(
            v.current_layer,
            new_layer_view(new_layer_name_of(v), blank_pixels(v.width, v.height)),
        ),
        history: v.history.push(ActionView::CreateLayer { index: v.current_layer }),
        modified: true,
        ..v
    }
}

/// What `duplicate_layer` does: a copy of the current layer's pixels and
/// modified flag slides in at the current index under a fresh name, and
/// one create action is logged.
pub open spec fn duplicate_layer_t(v: CanvasView) -> CanvasView {
    let src = v.layers[v.current_layer];
    CanvasView {
        layers: v.layers.insert(
            v.current_layer,
            LayerView {
                name: new_layer_name_of(v),
                visible: true,
                modified: src.modified,
                pixels: src.pixels,
            },
        ),
        history: v.history.push(ActionView::CreateLayer { index: v.current_layer }),
        modified: true,
        ..v
    }
}

/// What `delete_layer` does: with only one layer left nothing but the
/// modified flag changes; otherwise the current layer leaves the stack
/// with its name and pixels logged, and the current index steps back by
/// one if it fell off the end.
pub open spec fn delete_layer_t(v: CanvasView) -> CanvasView {
    if v.layers.len() <= 1 {
        CanvasView { modified: true, ..v }
    } else {
        let removed = v.layers[v.current_layer];
        let layers2 = v.layers.remove(v.current_layer);
        CanvasView {
            layers: layers2,
            current_layer: if v.current_layer == layers2.len() {
                v.current_layer - 1
            } else {
                v.current_layer
            },
            history: v.history.push(
                ActionView::DeleteLayer {
                    index: v.current_layer,
                    name: removed.name,
                    image: removed.pixels,
                },
            ),
            modified: true,
            ..v
        }
    }
}

/// What `merge_layers_down` does: with the backmost layer current nothing
/// but the modified flag changes; otherwise the current layer's pixels are
/// composited over the layer behind it, the current layer leaves the
/// stack, the layer behind inherits the or of both modified flags, and
/// both prior pixel surfaces are logged.
pub open spec fn merge_layers_down_t(v: CanvasView) -> CanvasView {
    if v.current_layer == v.layers.len() - 1 {
        CanvasView { modified: true, ..v }
    } else {
        let src = v.layers[v.current_layer];
        let dst = v.layers[v.current_layer + 1];
        CanvasView {
            layers: v.layers.remove(v.current_layer).update(
                v.current_layer,
                LayerView {
                    pixels: crate::raster::overlaid(src.pixels, dst.pixels),
                    modified: dst.modified || src.modified,
                    ..dst
                },
            ),
            history: v.history.push(
                ActionView::MergeLayersDown {
                    index: v.current_layer,
                    source: src.pixels,
                    source_name: src.name,
                    dest: dst.pixels,
                },
            ),
            modified: true,
            ..v
        }
    }
}

impl Canvas {
    /// A name of the form "layer n" that no existing layer carries,
    /// probing n upward from one past the layer count.
    fn get_new_layer_name(&self) -> (r: String)
        requires
            self.inv(),
        ensures
            r@ == new_layer_name_of(self@),
            !crate::names::name_used(layer_names(self@.layers), r@),
    {
        proof {
            crate::names::lemma_probe_finds_fresh(
                "layer "@,
                layer_names(self@.layers),
                (self@.layers.len() + 1) as nat,
                (self@.layers.len() + 1) as nat,
            );
        }
        let mut names: Vec<String> = Vec::new();
        let mut i: usize = 0;
        while i < self.layers.len()
            invariant
                i <= self.layers@.len(),
                names@.len() == i,
                forall|j: int| 0 <= j < i ==> name_views(names@)[j] == layer_names(self@.layers)[j],
            decreases self.layers@.len() - i,
        {
            let ghost prev_names = names@;
            names.push(self.layers[i].name.clone());
            proof {
                assert forall|j: int| 0 <= j < i + 1 implies #[trigger] name_views(names@)[j]
                    == layer_names(self@.layers)[j] by {
                    assert(name_views(names@)[j] == names@[j]@);
                    assert(layer_names(self@.layers)[j] == self@.layers[j].name);
                    assert(self@.layers[j] == self.layers@[j]@);
                    if j < i {
                        assert(name_views(prev_names)[j] == layer_names(self@.layers)[j]);
                        assert(name_views(prev_names)[j] == prev_names[j]@);
                        assert(names@[j] == prev_names[j]);
                    } else {
                        assert(names@[j] == names@[names@.len() - 1]);
                    }
                }
            }
            i = i + 1;
        }
        proof {
            assert(name_views(names@) =~= layer_names(self@.layers));
            assert(self.layers@.len() + 1 <= 0x10000);
        }
        let start = self.layers.len() as u64 + 1;
        crate::names::find_numbered_name("layer ", &names, start, start)
    }

    /// Creates a blank layer under a fresh name at the current index and
    /// logs the creation.
    pub fn new_layer(&mut self)
        requires
            old(self).inv(),
            old(self)@.layers.len() < 0xffff,
        ensures
            final(self).inv(),
            final(self)@ == new_layer_t(old(self)@),
            !crate::names::name_used(
                layer_names(old(self)@.layers),
                new_layer_name_of(old(self)@),
            ),
    {
        self.modified = true;
        self.undo_history.push(UndoAction::CreateLayer(self.current_layer));
        let name = self.get_new_layer_name();
        let image = gen_empty_image(self.width, self.height);
        proof {
            assert(image@ =~= blank_pixels(old(self)@.width, old(self)@.height));
        }
        self.layers.insert(self.current_layer, Layer::new(image, name));
        proof {
            assert(final(self)@.layers =~= new_layer_t(old(self)@).layers);
            assert(final(self)@.history =~= new_layer_t(old(self)@).history);
            assert(final(self)@ =~~= new_layer_t(old(self)@));
        }
    }

    /// Duplicates the current layer — pixels and modified flag — under a
    /// fresh name at the current index and logs the creation.
    pub fn duplicate_layer(&mut self)
        requires
            old(self).inv(),
            old(self)@.layers.len() < 0xffff,
        ensures
            final(self).inv(),
            final(self)@ == duplicate_layer_t(old(self)@),
            !crate::names::name_used(
                layer_names(old(self)@.layers),
                new_layer_name_of(old(self)@),
            ),
    {
        self.modified = true;
        self.undo_history.push(UndoAction::CreateLayer(self.current_layer));
        let name = self.get_new_layer_name();
        let image = self.layers[self.current_layer].image.clone();
        let mut new_l = Layer::new(image, name);
        new_l.modified = self.layers[self.current_layer].modified;
        self.layers.insert(self.current_layer, new_l);
        proof {
            assert(final(self)@.layers =~= duplicate_layer_t(old(self)@).layers);
            assert(final(self)@.history =~= duplicate_layer_t(old(self)@).history);
            assert(final(self)@ =~~= duplicate_layer_t(old(self)@));
        }
    }

    /// Deletes the current layer, logging its name and pixels — unless it
    /// is the last one left, in which case nothing happens beyond marking
    /// the canvas modified.
    pub fn delete_layer(&mut self)
        requires
            old(self).inv(),
        ensures
            final(self).inv(),
            final(self)@ == delete_layer_t(old(self)@),
    {
        self.modified = true;
        if self.layers.len() > 1 {
            let index = self.current_layer;
            self.undo_history.push(
                UndoAction::DeleteLayer(
                    index,
                    self.layers[index].name.clone(),
                    self.layers[index].image.clone(),
                ),
            );
            self.layers.remove(index);
            if self.current_layer == self.layers.len() {
                self.current_layer = self.current_layer - 1;
            }
            proof {
                assert(final(self)@.layers =~= delete_layer_t(old(self)@).layers);
                assert(final(self)@.history =~= delete_layer_t(old(self)@).history);
                assert(final(self)@ =~~= delete_layer_t(old(self)@));
            }
        } else {
            proof {
                assert(final(self)@ =~~= delete_layer_t(old(self)@));
            }
        }
    }

    /// Composites the current layer over the one behind it and removes it,
    /// logging both prior surfaces — unless the current layer is already
    /// the backmost, in which case nothing happens beyond marking the
    /// canvas modified.
    pub fn merge_layers_down(&mut self)
        requires
            old(self).inv(),
        ensures
            final(self).inv(),
            final(self)@ == merge_layers_down_t(old(self)@),
    {
        self.modified = true;
        if self.current_layer != self.layers.len() - 1 {
            let index = self.current_layer;
            self.undo_history.push(
                UndoAction::MergeLayersDown(
                    index,
                    self.layers[index].image.clone(),
                    self.layers[index].name.clone(),
                    self.layers[index + 1].image.clone(),
                ),
            );
            let old_layer = self.layers.remove(index);
            let dst = &mut self.layers[index];
            dst.image.overlay_from(&old_layer.image);
            dst.modified = dst.modified || old_layer.modified;
            proof {
                assert(final(self)@.layers =~= merge_layers_down_t(old(self)@).layers);
                assert(final(self)@.history =~= merge_layers_down_t(old(self)@).history);
                assert(final(self)@ =~~= merge_layers_down_t(old(self)@));
            }
        } else {
            proof {
                assert(final(self)@ =~~= merge_layers_down_t(old(self)@));
            }
        }
    }
}

/// A rectangular patch written into a flat surface: inside `region` the
/// pixel comes from `data` (a surface of the region's own dimensions),
/// outside it the prior pixel is kept.
pub open spec fn region_write(dst: Seq<Rgba>, w: int, region: Rect, data: Seq<Rgba>) -> Seq<
    Rgba,
> {
    Seq::new(
        dst.len(),
        |i: int|
            if region.spec_contains(i % w, i / w) {
                data[crate::raster::row_major(
                    region.w as int,
                    (i % w) - region.x,
                    (i / w) - region.y,
                )]
            } else {
                dst[i]
            },
    )
}

/// Whether the newest undo action can be replayed against the present
/// stack: its index must still be valid, and reinserting a layer must
/// leave room.
pub open spec fn undo_applicable(v: CanvasView) -> bool {
    &&& v.history.len() >= 1
    &&& match v.history[v.history.len() - 1] {
        ActionView::CreateLayer { index } => v.layers.len() >= 2 && 0 <= index <= v.layers.len()
            - 2,
        ActionView::MergeLayersDown { index, .. } => 0 <= index < v.layers.len()
            && v.layers.len() < 0xffff,
        ActionView::DeleteLayer { index, .. } => 0 <= index <= v.layers.len() && v.layers.len()
            < 0xffff,
        ActionView::RenameLayer { index, .. } => 0 <= index < v.layers.len(),
        ActionView::LayerFull { index, .. } => 0 <= index < v.layers.len(),
        ActionView::LayerRegion { index, .. } => 0 <= index < v.layers.len(),
    }
}

/// What `undo` does when the log is not empty: the newest action is
/// popped and its effect reversed — a created layer removed (the current
/// index returning there), a merge split back into source and destination,
/// a deleted layer reinserted, a rename or a snapshot restored.
pub open spec fn undo_t(v: CanvasView) -> CanvasView {
    let a = v.history[v.history.len() - 1];
    let h2 = v.history.drop_last();
    match a {
        ActionView::CreateLayer { index } => CanvasView {
            layers: v.layers.remove(index),
            current_layer: index,
            history: h2,
            ..v
        },
        ActionView::MergeLayersDown { index, source, source_name, dest } => CanvasView {
            layers: v.layers.update(
                index,
                LayerView { pixels: dest, ..v.layers[index] },
            ).insert(index, new_layer_view(source_name, source)),
            history: h2,
            ..v
        },
        ActionView::DeleteLayer { index, name, image } => CanvasView {
            layers: v.layers.insert(index, new_layer_view(name, image)),
            history: h2,
            ..v
        },
        ActionView::RenameLayer { index, name } => CanvasView {
            layers: v.layers.update(index, LayerView { name, ..v.layers[index] }),
            history: h2,
            ..v
        },
        ActionView::LayerFull { index, image } => CanvasView {
            layers: v.layers.update(index, LayerView { pixels: image, ..v.layers[index] }),
            history: h2,
            ..v
        },
        ActionView::LayerRegion { index, region, image } => CanvasView {
            layers: v.layers.update(
                index,
                LayerView {
                    pixels: region_write(v.layers[index].pixels, v.width, region, image),
                    ..v.layers[index]
                },
            ),
            history: h2,
            ..v
        },
    }
}

impl Canvas {
    /// Pops the newest undo action and reverses its edit; with an empty
    /// log nothing happens.
    pub fn undo(&mut self)
        requires
            old(self).inv(),
            old(self)@.history.len() > 0 ==> undo_applicable(old(self)@),
        ensures
            final(self).inv(),
            old(self)@.history.len() == 0 ==> final(self)@ == old(self)@,
            old(self)@.history.len() > 0 ==> final(self)@ == undo_t(old(self)@),
    {
        let ghost v0 = old(self)@;
        let action = self.undo_history.pop();
        match action {
            None => {
                proof {
                    assert(final(self)@ =~~= old(self)@);
                }
            },
            Some(action) => {
                proof {
                    assert(action@ == v0.history[v0.history.len() - 1]);
                    assert(self.undo_history@.map_values(|a: UndoAction| a@) =~= v0.history.drop_last());
                }
                match action {
                    UndoAction::CreateLayer(index) => {
                        self.layers.remove(index);
                        self.current_layer = index;
                        proof {
                            assert(final(self)@.layers =~= undo_t(v0).layers);
                            assert(final(self)@ =~~= undo_t(v0));
                        }
                    },
                    UndoAction::MergeLayersDown(index, source, source_name, dest) => {
                        let new_l = Layer::new(source, source_name);
                        let dst = &mut self.layers[index];
                        dst.image = dest;
                        self.layers.insert(index, new_l);
                        proof {
                            assert(final(self)@.layers =~= undo_t(v0).layers);
                            assert(final(self)@ =~~= undo_t(v0));
                        }
                    },
                    UndoAction::DeleteLayer(index, name, image) => {
                        let new_l = Layer::new(image, name);
                        self.layers.insert(index, new_l);
                        proof {
                            assert(final(self)@.layers =~= undo_t(v0).layers);
                            assert(final(self)@ =~~= undo_t(v0));
                        }
                    },
                    UndoAction::RenameLayer(index, name) => {
                        let layer = &mut self.layers[index];
                        layer.name = name;
                        proof {
                            assert(final(self)@.layers =~= undo_t(v0).layers);
                            assert(final(self)@ =~~= undo_t(v0));
                        }
                    },
                    UndoAction::LayerFull(index, image) => {
                        let layer = &mut self.layers[index];
                        layer.image = image;
                        proof {
                            assert(final(self)@.layers =~= undo_t(v0).layers);
                            assert(final(self)@ =~~= undo_t(v0));
                        }
                    },
                    UndoAction::LayerRegion(index, region, image) => {
                        let layer = &mut self.layers[index];
                        layer.image.write_region(region, &image);
                        proof {
                            let w = v0.width;
                            let li = v0.layers[index as int];
                            assert forall|i: int| 0 <= i < self.layers@[index as int].image@.len()
                                implies self.layers@[index as int].image@[i] == region_write(
                                li.pixels,
                                w,
                                region,
                                image@,
                            )[i] by {
                                vstd::arithmetic::div_mod::lemma_fundamental_div_mod(i, w);
                                vstd::arithmetic::div_mod::lemma_mod_bound(i, w);
                                assert(w * (i / w) == (i / w) * w) by (nonlinear_arith);
                                let px = i % w;
                                let py = i / w;
                                assert(crate::raster::row_major(w, px, py) == i);
                                assert((i / w) < v0.height) by (nonlinear_arith)
                                    requires
                                        0 < w,
                                        0 <= i < w * v0.height,
                                        i == w * (i / w) + (i % w),
                                        0 <= i % w < w,
                                ;
                                assert(self.layers@[index as int].image.pixel_at(px, py)
                                    == self.layers@[index as int].image@[i]);
                            }
                            assert(self.layers@[index as int].image@ =~= region_write(
                                li.pixels,
                                w,
                                region,
                                image@,
                            ));
                            assert(final(self)@.layers =~= undo_t(v0).layers);
                            assert(final(self)@ =~~= undo_t(v0));
                        }
                    },
                }
            },
        }
    }
}

/// The flattened composite of a layer stack: the frontmost layer
/// composited over the flattening of everything behind it; the backmost
/// layer alone is its own flattening. Visibility flags play no part here:
/// flattening composites every layer.
pub open spec fn flatten_views(layers: Seq<LayerView>) -> Seq<Rgba>
    decreases layers.len(),
{
    if layers.len() <= 1 {
        layers[0].pixels
    } else {
        crate::raster::overlaid(layers[0].pixels, flatten_views(layers.drop_first()))
    }
}

/// The flattening of a stack of like-sized layers has that same size.
pub proof fn lemma_flatten_len(layers: Seq<LayerView>, n: int)
    requires
        layers.len() >= 1,
        forall|i: int| 0 <= i < layers.len() ==> (#[trigger] layers[i]).pixels.len() == n,
    ensures
        flatten_views(layers).len() == n,
    decreases layers.len(),
{
    if layers.len() > 1 {
        assert forall|i: int| 0 <= i < layers.drop_first().len() implies (#[trigger] layers.drop_first()[i]).pixels.len() == n by {
            assert(layers.drop_first()[i] == layers[i + 1]);
        }
        lemma_flatten_len(layers.drop_first(), n);
    }
}

/// Flattening a stack whose frontmost layer is fully opaque yields exactly
/// that layer's pixels, whatever the layers behind it hold.
pub proof fn lemma_flatten_opaque_front(layers: Seq<LayerView>, n: int)
    requires
        layers.len() >= 1,
        forall|i: int| 0 <= i < layers.len() ==> (#[trigger] layers[i]).pixels.len() == n,
        forall|j: int| 0 <= j < n ==> (#[trigger] layers[0].pixels[j]).is_opaque(),
    ensures
        flatten_views(layers) =~= layers[0].pixels,
{
    if layers.len() > 1 {
        assert forall|i: int| 0 <= i < layers.drop_first().len() implies (#[trigger] layers.drop_first()[i]).pixels.len() == n by {
            assert(layers.drop_first()[i] == layers[i + 1]);
        }
        lemma_flatten_len(layers.drop_first(), n);
        let rest = flatten_views(layers.drop_first());
        assert forall|j: int| 0 <= j < n implies #[trigger] flatten_views(layers)[j] == layers[0].pixels[j] by {
            crate::color::lemma_overlay_opaque(layers[0].pixels[j], rest[j]);
        }
    }
}

/// Flattening looks only at pixels: stacks equal pixel-for-pixel flatten
/// to the same composite.
pub proof fn lemma_flatten_same_pixels(l1: Seq<LayerView>, l2: Seq<LayerView>)
    requires
        l1.len() == l2.len(),
        l1.len() >= 1,
        forall|i: int| 0 <= i < l1.len() ==> (#[trigger] l1[i]).pixels == l2[i].pixels,
    ensures
        flatten_views(l1) == flatten_views(l2),
    decreases l1.len(),
{
    if l1.len() > 1 {
        assert forall|i: int| 0 <= i < l1.drop_first().len() implies (#[trigger] l1.drop_first()[i]).pixels == l2.drop_first()[i].pixels by {
            assert(l1.drop_first()[i] == l1[i + 1]);
            assert(l2.drop_first()[i] == l2[i + 1]);
        }
        lemma_flatten_same_pixels(l1.drop_first(), l2.drop_first());
    }
}

impl Canvas {
    /// The flattened composite of all layers, back to front, as one
    /// buffer of the canvas's dimensions.
    pub fn to_image(&self) -> (img: RasterBuffer)
        requires
            self.inv(),
        ensures
            img.inv(),
            img.spec_width() == self@.width,
            img.spec_height() == self@.height,
            img@ == flatten_views(self@.layers),
    {
        let n = self.layers.len();
        let mut image = self.layers[n - 1].image.clone();
        let mut i: usize = n - 1;
        while i > 0
            invariant
                self.inv(),
                i < n,
                n == self.layers@.len(),
                image.inv(),
                image.spec_width() == self@.width,
                image.spec_height() == self@.height,
                image@ == flatten_views(self@.layers.subrange(i as int, n as int)),
            decreases i,
        {
            let ghost pre = self@.layers.subrange(i as int, n as int);
            i = i - 1;
            image.overlay_from(&self.layers[i].image);
            proof {
                let cur = self@.layers.subrange(i as int, n as int);
                assert(cur.drop_first() =~= pre);
                assert(cur[0] == self@.layers[i as int]);
                assert(image@ =~= flatten_views(cur));
            }
        }
        proof {
            assert(self@.layers.subrange(0, n as int) =~= self@.layers);
        }
        image
    }

    /// Flattens the canvas for export and marks the canvas and every layer
    /// unmodified; the caller encodes and stores the returned composite.
    pub fn export(&mut self) -> (img: RasterBuffer)
        requires
            old(self).inv(),
        ensures
            final(self).inv(),
            img.inv(),
            img.spec_width() == old(self)@.width,
            img.spec_height() == old(self)@.height,
            img@ == flatten_views(old(self)@.layers),
            final(self)@ == (CanvasView {
                layers: old(self)@.layers.map_values(
                    (|l: LayerView| LayerView { modified: false, ..l }),
                ),
                modified: false,
                ..old(self)@
            }),
    {
        let mut i: usize = 0;
        while i < self.layers.len()
            invariant
                self.inv(),
                i <= self.layers@.len(),
                self.width == old(self).width,
                self.height == old(self).height,
                self.current_layer == old(self).current_layer,
                self.name@ == old(self).name@,
                self.undo_history@ == old(self).undo_history@,
                self.current_changes == old(self).current_changes,
                self.modified == old(self).modified,
                self.layers@.len() == old(self).layers@.len(),
                forall|j: int|
                    0 <= j < i ==> #[trigger] self.layers@[j]@ == (LayerView {
                        modified: false,
                        ..old(self).layers@[j]@
                    }),
                forall|j: int|
                    i <= j < self.layers@.len() ==> #[trigger] self.layers@[j]
                        == old(self).layers@[j],
            decreases self.layers@.len() - i,
        {
            let layer = &mut self.layers[i];
            layer.modified = false;
            i = i + 1;
        }
        self.modified = false;
        proof {
            assert(final(self)@.layers =~= old(self)@.layers.map_values(
                (|l: LayerView| LayerView { modified: false, ..l }),
            ));
            assert(final(self)@ =~~= (CanvasView {
                layers: old(self)@.layers.map_values(
                    (|l: LayerView| LayerView { modified: false, ..l }),
                ),
                modified: false,
                ..old(self)@
            }));
            assert forall|j: int| 0 <= j < self.layers@.len() implies (#[trigger] self.layers@[j]).inv()
                && self.layers@[j].image.spec_width() == self.width
                && self.layers@[j].image.spec_height() == self.height by {
            }
        }
        let img = self.to_image();
        proof {
            assert forall|j: int| 0 <= j < self@.layers.len() implies (#[trigger] self@.layers[j]).pixels == old(self)@.layers[j].pixels by {}
            lemma_flatten_same_pixels(self@.layers, old(self)@.layers);
        }
        img
    }
}

/// What the undo round-trip promises to restore of a stack: the count and
/// order of the layers, and each layer's name and pixels. Visibility and
/// modified flags, like the dirty trackers, are transient state.
pub open spec fn layers_content(layers: Seq<LayerView>) -> Seq<(Seq<char>, Seq<Rgba>)> {
    layers.map_values(|l: LayerView| (l.name, l.pixels))
}

/// Creating a layer and undoing it restores the stack, the log and the
/// current index exactly.
pub proof fn lemma_undo_reverses_new_layer(v: CanvasView)
    requires
        0 <= v.current_layer < v.layers.len(),
    ensures
        undo_applicable(new_layer_t(v)),
        undo_t(new_layer_t(v)).layers =~= v.layers,
        undo_t(new_layer_t(v)).history =~= v.history,
        undo_t(new_layer_t(v)).current_layer == v.current_layer,
{
    let w = new_layer_t(v);
    assert(w.history[w.history.len() - 1] == ActionView::CreateLayer { index: v.current_layer });
    assert(w.history.drop_last() =~= v.history);
    assert(undo_t(w).layers =~= v.layers);
}

/// Duplicating a layer and undoing it restores the stack, the log and the
/// current index exactly.
pub proof fn lemma_undo_reverses_duplicate_layer(v: CanvasView)
    requires
        0 <= v.current_layer < v.layers.len(),
    ensures
        undo_applicable(duplicate_layer_t(v)),
        undo_t(duplicate_layer_t(v)).layers =~= v.layers,
        undo_t(duplicate_layer_t(v)).history =~= v.history,
        undo_t(duplicate_layer_t(v)).current_layer == v.current_layer,
{
    let w = duplicate_layer_t(v);
    assert(w.history[w.history.len() - 1] == ActionView::CreateLayer { index: v.current_layer });
    assert(w.history.drop_last() =~= v.history);
    assert(undo_t(w).layers =~= v.layers);
}

/// Renaming a layer and undoing it restores the stack and the log
/// exactly.
pub proof fn lemma_undo_reverses_rename(v: CanvasView, new_name: Seq<char>)
    requires
        0 <= v.current_layer < v.layers.len(),
    ensures
        ({
            let w = CanvasView {
                layers: v.layers.update(
                    v.current_layer,
                    LayerView { name: new_name, ..v.layers[v.current_layer] },
                ),
                history: v.history.push(
                    ActionView::RenameLayer {
                        index: v.current_layer,
                        name: v.layers[v.current_layer].name,
                    },
                ),
                ..v
            };
            &&& undo_applicable(w)
            &&& undo_t(w).layers =~= v.layers
            &&& undo_t(w).history =~= v.history
        }),
{
    let w = CanvasView {
        layers: v.layers.update(
            v.current_layer,
            LayerView { name: new_name, ..v.layers[v.current_layer] },
        ),
        history: v.history.push(
            ActionView::RenameLayer {
                index: v.current_layer,
                name: v.layers[v.current_layer].name,
            },
        ),
        ..v
    };
    assert(w.history.drop_last() =~= v.history);
    assert(undo_t(w).layers =~= v.layers);
}

/// Deleting a layer (when more than one remains) and undoing it restores
/// the stack's names and pixels and the log. The recreated layer comes
/// back visible and unmodified, and a current index that stepped back
/// stays stepped back: those are the transients the round trip exempts.
pub proof fn lemma_undo_reverses_delete_layer(v: CanvasView)
    requires
        0 <= v.current_layer < v.layers.len(),
        v.layers.len() >= 2,
        v.layers.len() <= 0xfffe,
    ensures
        undo_applicable(delete_layer_t(v)),
        layers_content(undo_t(delete_layer_t(v)).layers) =~= layers_content(v.layers),
        undo_t(delete_layer_t(v)).history =~= v.history,
{
    let w = delete_layer_t(v);
    assert(w.history.drop_last() =~= v.history);
    let u = undo_t(w);
    assert forall|i: int| 0 <= i < v.layers.len() implies #[trigger] layers_content(u.layers)[i]
        == layers_content(v.layers)[i] by {
        if i < v.current_layer {
            assert(u.layers[i] == v.layers[i]);
        } else if i == v.current_layer {
            assert(u.layers[i] == new_layer_view(
                v.layers[v.current_layer].name,
                v.layers[v.current_layer].pixels,
            ));
        } else {
            assert(u.layers[i] == v.layers.remove(v.current_layer)[i - 1]);
            assert(v.layers.remove(v.current_layer)[i - 1] == v.layers[i]);
        }
    }
}

/// Merging two layers and undoing it restores the stack's names and
/// pixels and the log. The recreated source layer comes back visible and
/// unmodified, and the destination keeps the or-ed modified flag: the
/// transients the round trip exempts.
pub proof fn lemma_undo_reverses_merge(v: CanvasView)
    requires
        0 <= v.current_layer < v.layers.len() - 1,
        v.layers.len() <= 0xfffe,
    ensures
        undo_applicable(merge_layers_down_t(v)),
        layers_content(undo_t(merge_layers_down_t(v)).layers) =~= layers_content(v.layers),
        undo_t(merge_layers_down_t(v)).history =~= v.history,
{
    let w = merge_layers_down_t(v);
    assert(w.history.drop_last() =~= v.history);
    let u = undo_t(w);
    let ci = v.current_layer;
    assert forall|i: int| 0 <= i < v.layers.len() implies #[trigger] layers_content(u.layers)[i]
        == layers_content(v.layers)[i] by {
        if i < ci {
            assert(u.layers[i] == w.layers[i]);
            assert(w.layers[i] == v.layers[i]);
        } else if i == ci {
            assert(u.layers[i] == new_layer_view(v.layers[ci].name, v.layers[ci].pixels));
        } else if i == ci + 1 {
            assert(u.layers[i] == w.layers.update(
                ci,
                LayerView { pixels: v.layers[ci + 1].pixels, ..w.layers[ci] },
            )[i - 1]);
            assert(u.layers[i].name == v.layers[i].name);
            assert(u.layers[i].pixels == v.layers[i].pixels);
        } else {
            assert(u.layers[i] == w.layers[i - 1]);
            assert(w.layers[i - 1] == v.layers.remove(ci)[i - 1]);
            assert(v.layers.remove(ci)[i - 1] == v.layers[i]);
        }
    }
}

/// Overwriting one layer's pixels while logging the prior surface, then
/// undoing, restores the stack's names and pixels and the log. This is
/// the round trip of the fills, which log the whole layer.
pub proof fn lemma_undo_reverses_layer_full(v: CanvasView, ps: Seq<Rgba>, md: bool)
    requires
        0 <= v.current_layer < v.layers.len(),
    ensures
        ({
            let w = CanvasView {
                layers: v.layers.update(
                    v.current_layer,
                    LayerView {
                        pixels: ps,
                        modified: md,
                        ..v.layers[v.current_layer]
                    },
                ),
                history: v.history.push(
                    ActionView::LayerFull {
                        index: v.current_layer,
                        image: v.layers[v.current_layer].pixels,
                    },
                ),
                ..v
            };
            &&& undo_applicable(w)
            &&& layers_content(undo_t(w).layers) =~= layers_content(v.layers)
            &&& undo_t(w).history =~= v.history
        }),
{
    let w = CanvasView {
        layers: v.layers.update(
            v.current_layer,
            LayerView { pixels: ps, modified: md, ..v.layers[v.current_layer] },
        ),
        history: v.history.push(
            ActionView::LayerFull {
                index: v.current_layer,
                image: v.layers[v.current_layer].pixels,
            },
        ),
        ..v
    };
    assert(w.history.drop_last() =~= v.history);
    let u = undo_t(w);
    assert forall|i: int| 0 <= i < v.layers.len() implies #[trigger] layers_content(u.layers)[i]
        == layers_content(v.layers)[i] by {
        if i != v.current_layer {
            assert(u.layers[i] == v.layers[i]);
        } else {
            assert(u.layers[i].name == v.layers[i].name);
            assert(u.layers[i].pixels == v.layers[i].pixels);
        }
    }
}

/// The pixels of a flat surface under a rectangle, as a surface of the
/// rectangle's own dimensions.
pub open spec fn region_extract(src: Seq<Rgba>, w: int, region: Rect) -> Seq<Rgba> {
    Seq::new(
        ((region.w as int) * (region.h as int)) as nat,
        |k: int|
            src[crate::raster::row_major(
                w,
                region.x + (k % (region.w as int)),
                region.y + (k / (region.w as int)),
            )],
    )
}

/// Writing back a region snapshot restores the surface it was taken from,
/// provided nothing outside the region changed in between. This is the
/// round trip of a committed stroke, which logs only the stroke's
/// bounding rectangle.
pub proof fn lemma_region_write_restores(
    src: Seq<Rgba>,
    ps: Seq<Rgba>,
    w: int,
    h: int,
    region: Rect,
)
    requires
        0 < w,
        0 < h,
        src.len() == w * h,
        ps.len() == w * h,
        region.w >= 1,
        region.h >= 1,
        region.x + region.w <= w,
        region.y + region.h <= h,
        forall|j: int|
            0 <= j < ps.len() && !region.spec_contains(j % w, j / w) ==> #[trigger] ps[j]
                == src[j],
    ensures
        region_write(ps, w, region, region_extract(src, w, region)) =~= src,
{
    let data = region_extract(src, w, region);
    let out = region_write(ps, w, region, data);
    assert forall|j: int| 0 <= j < out.len() implies #[trigger] out[j] == src[j] by {
        vstd::arithmetic::div_mod::lemma_fundamental_div_mod(j, w);
        vstd::arithmetic::div_mod::lemma_mod_bound(j, w);
        let px = j % w;
        let py = j / w;
        if region.spec_contains(px, py) {
            let rw = region.w as int;
            let dx = px - region.x;
            let dy = py - region.y;
            let k = crate::raster::row_major(rw, dx, dy);
            crate::raster::lemma_row_major_in_range(rw, region.h as int, dx, dy);
            assert((region.h as int) * rw == rw * (region.h as int)) by (nonlinear_arith);
            vstd::arithmetic::div_mod::lemma_fundamental_div_mod_converse(k, rw, dy, dx);
            assert(k % rw == dx);
            assert(k / rw == dy);
            assert(data[k] == src[crate::raster::row_major(w, px, py)]);
            assert((rw as int) * (region.h as int) <= w * h) by (nonlinear_arith)
                requires
                    0 < w,
                    0 < h,
                    1 <= rw <= w,
                    1 <= region.h <= h,
            ;
            assert(w * (j / w) == (j / w) * w) by (nonlinear_arith);
            assert(crate::raster::row_major(w, px, py) == j);
        }
    }
}

/// A rectangular patch composited onto a flat surface: inside `region`
/// the matching pixel of `top` is composited over the prior pixel,
/// outside it the prior pixel is kept.
pub open spec fn region_overlay(dst: Seq<Rgba>, w: int, region: Rect, top: Seq<Rgba>) -> Seq<
    Rgba,
> {
    Seq::new(
        dst.len(),
        |i: int|
            if region.spec_contains(i % w, i / w) {
                crate::color::overlay_spec(top[i], dst[i])
            } else {
                dst[i]
            },
    )
}

/// A rectangular patch wiped to transparent; outside `region` the prior
/// pixel is kept.
pub open spec fn region_zero(dst: Seq<Rgba>, w: int, region: Rect) -> Seq<Rgba> {
    Seq::new(
        dst.len(),
        |i: int|
            if region.spec_contains(i % w, i / w) {
                Rgba::spec_transparent()
            } else {
                dst[i]
            },
    )
}

/// A rectangular patch erased where the scratch surface carries a fully
/// opaque mark; everything else keeps its prior pixel.
pub open spec fn region_erase(dst: Seq<Rgba>, w: int, region: Rect, marks: Seq<Rgba>) -> Seq<
    Rgba,
> {
    Seq::new(
        dst.len(),
        |i: int|
            if region.spec_contains(i % w, i / w) && marks[i].a == 255 {
                Rgba::spec_transparent()
            } else {
                dst[i]
            },
    )
}

/// Committing a stroke and undoing it restores the stack's names and
/// pixels and the log: the region snapshot brings back exactly what the
/// overlay changed, because the commit writes nowhere outside the region.
pub proof fn lemma_undo_reverses_commit(v: CanvasView, region: Rect, top: Seq<Rgba>)
    requires
        0 <= v.current_layer < v.layers.len(),
        0 < v.width,
        0 < v.height,
        v.layers[v.current_layer].pixels.len() == v.width * v.height,
        region.w >= 1,
        region.h >= 1,
        region.x + region.w <= v.width,
        region.y + region.h <= v.height,
    ensures
        ({
            let ps = region_overlay(v.layers[v.current_layer].pixels, v.width, region, top);
            let w = CanvasView {
                layers: v.layers.update(
                    v.current_layer,
                    LayerView {
                        pixels: ps,
                        modified: true,
                        ..v.layers[v.current_layer]
                    },
                ),
                history: v.history.push(
                    ActionView::LayerRegion {
                        index: v.current_layer,
                        region,
                        image: region_extract(
                            v.layers[v.current_layer].pixels,
                            v.width,
                            region,
                        ),
                    },
                ),
                ..v
            };
            &&& undo_applicable(w)
            &&& layers_content(undo_t(w).layers) =~= layers_content(v.layers)
            &&& undo_t(w).history =~= v.history
        }),
{
    let ci = v.current_layer;
    let src = v.layers[ci].pixels;
    let ps = region_overlay(src, v.width, region, top);
    let w = CanvasView {
        layers: v.layers.update(
            ci,
            LayerView { pixels: ps, modified: true, ..v.layers[ci] },
        ),
        history: v.history.push(
            ActionView::LayerRegion {
                index: ci,
                region,
                image: region_extract(src, v.width, region),
            },
        ),
        ..v
    };
    assert(w.history.drop_last() =~= v.history);
    lemma_region_write_restores(src, ps, v.width, v.height, region);
    let u = undo_t(w);
    assert(u.layers[ci].pixels == region_write(ps, v.width, region, region_extract(
        src,
        v.width,
        region,
    )));
    assert forall|i: int| 0 <= i < v.layers.len() implies #[trigger] layers_content(u.layers)[i]
        == layers_content(v.layers)[i] by {
        if i != ci {
            assert(u.layers[i] == v.layers[i]);
        } else {
            assert(u.layers[i].name == v.layers[i].name);
            assert(u.layers[i].pixels =~= v.layers[i].pixels);
        }
    }
}

impl Canvas {
    /// Commits the scratch layer's in-progress stroke onto the current
    /// layer: the scratch tracker's dirty rectangle is flushed, the pixels
    /// beneath it are logged as a region snapshot, the scratch pixels are
    /// composited over the current layer inside that rectangle, and the
    /// same rectangle of the scratch surface is wiped for the next stroke.
    /// With nothing tracked — an abandoned or empty stroke — nothing
    /// happens and no undo entry is produced.
    pub fn commit_changes(&mut self) -> (region: Option<Rect>)
        requires
            old(self).inv(),
        ensures
            final(self).inv(),
            final(self).current_changes.bounds_tracker.tracked_set() =~= Set::<(u32, u32)>::empty(),
            region is None <==> old(self).current_changes.bounds_tracker.tracked_set() =~= Set::<
                (u32, u32),
            >::empty(),
            region is None ==> final(self)@ == old(self)@,
            region matches Some(r) ==> {
                &&& crate::rect::rect_tight(
                    r,
                    old(self).current_changes.bounds_tracker.tracked_set(),
                )
                &&& r.w >= 1
                &&& r.h >= 1
                &&& r.x + r.w <= old(self)@.width
                &&& r.y + r.h <= old(self)@.height
                &&& final(self)@ == (CanvasView {
                    layers: old(self)@.layers.update(
                        old(self)@.current_layer,
                        LayerView {
                            pixels: region_overlay(
                                old(self)@.layers[old(self)@.current_layer].pixels,
                                old(self)@.width,
                                r,
                                old(self)@.scratch,
                            ),
                            modified: true,
                            ..old(self)@.layers[old(self)@.current_layer]
                        },
                    ),
                    history: old(self)@.history.push(
                        ActionView::LayerRegion {
                            index: old(self)@.current_layer,
                            region: r,
                            image: region_extract(
                                old(self)@.layers[old(self)@.current_layer].pixels,
                                old(self)@.width,
                                r,
                            ),
                        },
                    ),
                    scratch: region_zero(old(self)@.scratch, old(self)@.width, r),
                    ..old(self)@
                })
            },
    {
        let ghost v0 = old(self)@;
        let bounds = self.current_changes.flush_texture();
        match bounds {
            None => {
                proof {
                    assert(final(self)@ =~~= old(self)@);
                }
                None
            },
            Some(r) => {
                proof {
                    let ts = old(self).current_changes.bounds_tracker.tracked_set();
                    let pr = choose|p: (u32, u32)| #[trigger] ts.contains(p) && p.0 == r.x + r.w
                        - 1;
                    let pb = choose|p: (u32, u32)| #[trigger] ts.contains(p) && p.1 == r.y + r.h
                        - 1;
                    assert(old(self).current_changes.image.spec_in_bounds(
                        pr.0 as int,
                        pr.1 as int,
                    ));
                    assert(old(self).current_changes.image.spec_in_bounds(
                        pb.0 as int,
                        pb.1 as int,
                    ));
                }
                let ci = self.current_layer;
                let snapshot = self.layers[ci].image.sub_image(r);
                proof {
                    let w = v0.width;
                    let src = v0.layers[ci as int].pixels;
                    assert forall|k: int| 0 <= k < snapshot@.len() implies snapshot@[k]
                        == region_extract(src, w, r)[k] by {
                        let rw = r.w as int;
                        vstd::arithmetic::div_mod::lemma_fundamental_div_mod(k, rw);
                        vstd::arithmetic::div_mod::lemma_mod_bound(k, rw);
                        assert(rw * (k / rw) == (k / rw) * rw) by (nonlinear_arith);
                        let dx = k % rw;
                        let dy = k / rw;
                        assert(crate::raster::row_major(rw, dx, dy) == k);
                        assert(dy < r.h) by (nonlinear_arith)
                            requires
                                0 < rw,
                                0 <= k < rw * (r.h as int),
                                k == rw * dy + dx,
                                0 <= dx < rw,
                                dy == k / rw,
                                dx == k % rw,
                        ;
                        assert(snapshot.pixel_at(dx, dy) == snapshot@[crate::raster::row_major(
                            rw,
                            dx,
                            dy,
                        )]);
                        assert(snapshot.pixel_at(dx, dy) == self.layers@[ci as int].image.pixel_at(
                            r.x + dx,
                            r.y + dy,
                        ));
                        crate::raster::lemma_row_major_in_range(
                            w,
                            v0.height,
                            r.x + dx,
                            r.y + dy,
                        );
                    }
                    assert(snapshot@ =~= region_extract(src, w, r));
                    assert((r.h as int) * (r.w as int) == (r.w as int) * (r.h as int))
                        by (nonlinear_arith);
                }
                self.undo_history.push(UndoAction::LayerRegion(ci, r, snapshot));
                let ghost mid = self@;
                let dst = &mut self.layers[ci];
                dst.image.overlay_region(r, &self.current_changes.image);
                dst.modified = true;
                self.current_changes.image.zero_region(r);
                proof {
                    let w = v0.width;
                    let src = v0.layers[ci as int].pixels;
                    assert forall|i: int| 0 <= i < self.layers@[ci as int].image@.len() implies
                        self.layers@[ci as int].image@[i] == region_overlay(
                        src,
                        w,
                        r,
                        v0.scratch,
                    )[i] by {
                        vstd::arithmetic::div_mod::lemma_fundamental_div_mod(i, w);
                        vstd::arithmetic::div_mod::lemma_mod_bound(i, w);
                        assert(w * (i / w) == (i / w) * w) by (nonlinear_arith);
                        let px = i % w;
                        let py = i / w;
                        assert(crate::raster::row_major(w, px, py) == i);
                        assert(py < v0.height) by (nonlinear_arith)
                            requires
                                0 < w,
                                0 <= i < w * v0.height,
                                i == w * py + px,
                                0 <= px < w,
                                py == i / w,
                                px == i % w,
                        ;
                        assert(self.layers@[ci as int].image.pixel_at(px, py)
                            == self.layers@[ci as int].image@[i]);
                    }
                    assert(self.layers@[ci as int].image@ =~= region_overlay(
                        src,
                        w,
                        r,
                        v0.scratch,
                    ));
                    assert forall|i: int| 0 <= i < self.current_changes.image@.len() implies
                        self.current_changes.image@[i] == region_zero(v0.scratch, w, r)[i] by {
                        vstd::arithmetic::div_mod::lemma_fundamental_div_mod(i, w);
                        vstd::arithmetic::div_mod::lemma_mod_bound(i, w);
                        assert(w * (i / w) == (i / w) * w) by (nonlinear_arith);
                        let px = i % w;
                        let py = i / w;
                        assert(crate::raster::row_major(w, px, py) == i);
                        assert(py < v0.height) by (nonlinear_arith)
                            requires
                                0 < w,
                                0 <= i < w * v0.height,
                                i == w * py + px,
                                0 <= px < w,
                                py == i / w,
                                px == i % w,
                        ;
                        assert(self.current_changes.image.pixel_at(px, py)
                            == self.current_changes.image@[i]);
                    }
                    assert(self.current_changes.image@ =~= region_zero(v0.scratch, w, r));
                    assert(final(self)@.layers =~= (CanvasView {
                        layers: v0.layers.update(
                            v0.current_layer,
                            LayerView {
                                pixels: region_overlay(
                                    v0.layers[v0.current_layer].pixels,
                                    v0.width,
                                    r,
                                    v0.scratch,
                                ),
                                modified: true,
                                ..v0.layers[v0.current_layer]
                            },
                        ),
                        history: v0.history.push(
                            ActionView::LayerRegion {
                                index: v0.current_layer,
                                region: r,
                                image: region_extract(
                                    v0.layers[v0.current_layer].pixels,
                                    v0.width,
                                    r,
                                ),
                            },
                        ),
                        scratch: region_zero(v0.scratch, v0.width, r),
                        ..v0
                    }).layers);
                    assert(final(self)@.history =~= v0.history.push(
                        ActionView::LayerRegion {
                            index: v0.current_layer,
                            region: r,
                            image: region_extract(
                                v0.layers[v0.current_layer].pixels,
                                v0.width,
                                r,
                            ),
                        },
                    ));
                    assert(final(self)@ =~~= (CanvasView {
                        layers: v0.layers.update(
                            v0.current_layer,
                            LayerView {
                                pixels: region_overlay(
                                    v0.layers[v0.current_layer].pixels,
                                    v0.width,
                                    r,
                                    v0.scratch,
                                ),
                                modified: true,
                                ..v0.layers[v0.current_layer]
                            },
                        ),
                        history: v0.history.push(
                            ActionView::LayerRegion {
                                index: v0.current_layer,
                                region: r,
                                image: region_extract(
                                    v0.layers[v0.current_layer].pixels,
                                    v0.width,
                                    r,
                                ),
                            },
                        ),
                        scratch: region_zero(v0.scratch, v0.width, r),
                        ..v0
                    }));
                }
                Some(r)
            },
        }
    }
}

impl Canvas {
    /// Commits an eraser stroke: inside the scratch layer's dirty
    /// rectangle, every pixel the stroke marked fully opaque is erased to
    /// transparent on the current layer — after the pixels beneath the
    /// rectangle are logged as a region snapshot — and the marks
    /// themselves are wiped. With nothing tracked, nothing happens.
    pub fn erase_changes(&mut self) -> (region: Option<Rect>)
        requires
            old(self).inv(),
        ensures
            final(self).inv(),
            final(self).current_changes.bounds_tracker.tracked_set() =~= Set::<(u32, u32)>::empty(),
            region is None <==> old(self).current_changes.bounds_tracker.tracked_set() =~= Set::<
                (u32, u32),
            >::empty(),
            region is None ==> final(self)@ == old(self)@,
            region matches Some(r) ==> {
                &&& crate::rect::rect_tight(
                    r,
                    old(self).current_changes.bounds_tracker.tracked_set(),
                )
                &&& r.w >= 1
                &&& r.h >= 1
                &&& r.x + r.w <= old(self)@.width
                &&& r.y + r.h <= old(self)@.height
                &&& final(self)@ == (CanvasView {
                    layers: old(self)@.layers.update(
                        old(self)@.current_layer,
                        LayerView {
                            pixels: region_erase(
                                old(self)@.layers[old(self)@.current_layer].pixels,
                                old(self)@.width,
                                r,
                                old(self)@.scratch,
                            ),
                            modified: true,
                            ..old(self)@.layers[old(self)@.current_layer]
                        },
                    ),
                    history: old(self)@.history.push(
                        ActionView::LayerRegion {
                            index: old(self)@.current_layer,
                            region: r,
                            image: region_extract(
                                old(self)@.layers[old(self)@.current_layer].pixels,
                                old(self)@.width,
                                r,
                            ),
                        },
                    ),
                    scratch: region_erase(old(self)@.scratch, old(self)@.width, r, old(self)@.scratch),
                    ..old(self)@
                })
            },
    {
        let ghost v0 = old(self)@;
        let bounds = self.current_changes.flush_texture();
        match bounds {
            None => {
                proof {
                    assert(final(self)@ =~~= old(self)@);
                }
                None
            },
            Some(r) => {
                proof {
                    let ts = old(self).current_changes.bounds_tracker.tracked_set();
                    let pr = choose|p: (u32, u32)| #[trigger] ts.contains(p) && p.0 == r.x + r.w
                        - 1;
                    let pb = choose|p: (u32, u32)| #[trigger] ts.contains(p) && p.1 == r.y + r.h
                        - 1;
                    assert(old(self).current_changes.image.spec_in_bounds(
                        pr.0 as int,
                        pr.1 as int,
                    ));
                    assert(old(self).current_changes.image.spec_in_bounds(
                        pb.0 as int,
                        pb.1 as int,
                    ));
                }
                let ci = self.current_layer;
                let snapshot = self.layers[ci].image.sub_image(r);
                proof {
                    let w = v0.width;
                    let src = v0.layers[ci as int].pixels;
                    assert forall|k: int| 0 <= k < snapshot@.len() implies snapshot@[k]
                        == region_extract(src, w, r)[k] by {
                        let rw = r.w as int;
                        vstd::arithmetic::div_mod::lemma_fundamental_div_mod(k, rw);
                        vstd::arithmetic::div_mod::lemma_mod_bound(k, rw);
                        assert(rw * (k / rw) == (k / rw) * rw) by (nonlinear_arith);
                        let dx = k % rw;
                        let dy = k / rw;
                        assert(crate::raster::row_major(rw, dx, dy) == k);
                        assert(dy < r.h) by (nonlinear_arith)
                            requires
                                0 < rw,
                                0 <= k < rw * (r.h as int),
                                k == rw * dy + dx,
                                0 <= dx < rw,
                                dy == k / rw,
                                dx == k % rw,
                        ;
                        assert(snapshot.pixel_at(dx, dy) == snapshot@[crate::raster::row_major(
                            rw,
                            dx,
                            dy,
                        )]);
                        assert(snapshot.pixel_at(dx, dy) == self.layers@[ci as int].image.pixel_at(
                            r.x + dx,
                            r.y + dy,
                        ));
                        crate::raster::lemma_row_major_in_range(
                            w,
                            v0.height,
                            r.x + dx,
                            r.y + dy,
                        );
                    }
                    assert(snapshot@ =~= region_extract(src, w, r));
                    assert((r.h as int) * (r.w as int) == (r.w as int) * (r.h as int))
                        by (nonlinear_arith);
                }
                self.undo_history.push(UndoAction::LayerRegion(ci, r, snapshot));
                crate::raster::erase_masked_region(
                    &mut self.layers[ci].image,
                    &mut self.current_changes.image,
                    r,
                );
                let dst = &mut self.layers[ci];
                dst.modified = true;
                proof {
                    let w = v0.width;
                    let src = v0.layers[ci as int].pixels;
                    assert forall|i: int| 0 <= i < self.layers@[ci as int].image@.len() implies
                        self.layers@[ci as int].image@[i] == region_erase(
                        src,
                        w,
                        r,
                        v0.scratch,
                    )[i] by {
                        vstd::arithmetic::div_mod::lemma_fundamental_div_mod(i, w);
                        vstd::arithmetic::div_mod::lemma_mod_bound(i, w);
                        assert(w * (i / w) == (i / w) * w) by (nonlinear_arith);
                        let px = i % w;
                        let py = i / w;
                        assert(crate::raster::row_major(w, px, py) == i);
                        assert(py < v0.height) by (nonlinear_arith)
                            requires
                                0 < w,
                                0 <= i < w * v0.height,
                                i == w * py + px,
                                0 <= px < w,
                                py == i / w,
                                px == i % w,
                        ;
                        assert(self.layers@[ci as int].image.pixel_at(px, py)
                            == self.layers@[ci as int].image@[i]);
                        assert(v0.scratch[i] == old(self).current_changes.image.pixel_at(px, py));
                    }
                    assert(self.layers@[ci as int].image@ =~= region_erase(
                        src,
                        w,
                        r,
                        v0.scratch,
                    ));
                    assert forall|i: int| 0 <= i < self.current_changes.image@.len() implies
                        self.current_changes.image@[i] == region_erase(
                        v0.scratch,
                        w,
                        r,
                        v0.scratch,
                    )[i] by {
                        vstd::arithmetic::div_mod::lemma_fundamental_div_mod(i, w);
                        vstd::arithmetic::div_mod::lemma_mod_bound(i, w);
                        assert(w * (i / w) == (i / w) * w) by (nonlinear_arith);
                        let px = i % w;
                        let py = i / w;
                        assert(crate::raster::row_major(w, px, py) == i);
                        assert(py < v0.height) by (nonlinear_arith)
                            requires
                                0 < w,
                                0 <= i < w * v0.height,
                                i == w * py + px,
                                0 <= px < w,
                                py == i / w,
                                px == i % w,
                        ;
                        assert(self.current_changes.image.pixel_at(px, py)
                            == self.current_changes.image@[i]);
                        assert(v0.scratch[i] == old(self).current_changes.image.pixel_at(px, py));
                    }
                    assert(self.current_changes.image@ =~= region_erase(
                        v0.scratch,
                        w,
                        r,
                        v0.scratch,
                    ));
                    assert(final(self)@.layers =~= v0.layers.update(
                        v0.current_layer,
                        LayerView {
                            pixels: region_erase(
                                v0.layers[v0.current_layer].pixels,
                                v0.width,
                                r,
                                v0.scratch,
                            ),
                            modified: true,
                            ..v0.layers[v0.current_layer]
                        },
                    ));
                    assert(final(self)@.history =~= v0.history.push(
                        ActionView::LayerRegion {
                            index: v0.current_layer,
                            region: r,
                            image: region_extract(
                                v0.layers[v0.current_layer].pixels,
                                v0.width,
                                r,
                            ),
                        },
                    ));
                    assert(final(self)@ =~~= (CanvasView {
                        layers: v0.layers.update(
                            v0.current_layer,
                            LayerView {
                                pixels: region_erase(
                                    v0.layers[v0.current_layer].pixels,
                                    v0.width,
                                    r,
                                    v0.scratch,
                                ),
                                modified: true,
                                ..v0.layers[v0.current_layer]
                            },
                        ),
                        history: v0.history.push(
                            ActionView::LayerRegion {
                                index: v0.current_layer,
                                region: r,
                                image: region_extract(
                                    v0.layers[v0.current_layer].pixels,
                                    v0.width,
                                    r,
                                ),
                            },
                        ),
                        scratch: region_erase(v0.scratch, v0.width, r, v0.scratch),
                        ..v0
                    }));
                }
                Some(r)
            },
        }
    }

    /// The bucket tool's edit: logs the whole current layer, then fills it
    /// from `(x, y)` with `color` — flood fill through connected pixels
    /// within `tolerance` when `continuous`, otherwise a global fill of
    /// every pixel within tolerance of the seed — and hands back the
    /// minimal rectangle of the repainted pixels.
    pub fn apply_fill(
        &mut self,
        x: u16,
        y: u16,
        color: Rgba,
        tolerance: u16,
        continuous: bool,
    ) -> (region: Option<Rect>)
        requires
            old(self).inv(),
            x < old(self)@.width,
            y < old(self)@.height,
        ensures
            final(self).inv(),
            final(self)@ == (CanvasView {
                layers: old(self)@.layers.update(
                    old(self)@.current_layer,
                    LayerView {
                        pixels: (if continuous {
                            crate::fill::flood_result(
                                old(self)@.layers[old(self)@.current_layer].pixels,
                                old(self)@.width,
                                old(self)@.height,
                                tolerance as int,
                                (x as int, y as int),
                                color,
                            )
                        } else {
                            crate::fill::global_result(
                                old(self)@.layers[old(self)@.current_layer].pixels,
                                crate::raster::row_major(old(self)@.width, x as int, y as int),
                                tolerance as int,
                                color,
                            )
                        }),
                        modified: true,
                        ..old(self)@.layers[old(self)@.current_layer]
                    },
                ),
                history: old(self)@.history.push(
                    ActionView::LayerFull {
                        index: old(self)@.current_layer,
                        image: old(self)@.layers[old(self)@.current_layer].pixels,
                    },
                ),
                ..old(self)@
            }),
            region is Some,
            region matches Some(r) ==> crate::rect::rect_tight(
                r,
                Set::new(
                    |pt: (u32, u32)|
                        if continuous {
                            crate::fill::fill_reachable(
                                old(self)@.layers[old(self)@.current_layer].pixels,
                                old(self)@.width,
                                old(self)@.height,
                                tolerance as int,
                                (x as int, y as int),
                                (pt.0 as int, pt.1 as int),
                            )
                        } else {
                            &&& pt.0 < old(self)@.width
                            &&& pt.1 < old(self)@.height
                            &&& crate::color::color_dist(
                                old(self)@.layers[old(self)@.current_layer].pixels[crate::raster::row_major(
                                    old(self)@.width,
                                    pt.0 as int,
                                    pt.1 as int,
                                )],
                                old(self)@.layers[old(self)@.current_layer].pixels[crate::raster::row_major(
                                    old(self)@.width,
                                    x as int,
                                    y as int,
                                )],
                            ) <= tolerance
                        },
                ),
            ),
    {
        let ghost v0 = old(self)@;
        let ci = self.current_layer;
        self.undo_history.push(UndoAction::LayerFull(ci, self.layers[ci].image.clone()));
        let w = self.width as usize;
        let h = self.height as usize;
        let ghost seed_pred = Set::new(
            |pt: (u32, u32)|
                if continuous {
                    crate::fill::fill_reachable(
                        v0.layers[v0.current_layer].pixels,
                        v0.width,
                        v0.height,
                        tolerance as int,
                        (x as int, y as int),
                        (pt.0 as int, pt.1 as int),
                    )
                } else {
                    &&& pt.0 < v0.width
                    &&& pt.1 < v0.height
                    &&& crate::color::color_dist(
                        v0.layers[v0.current_layer].pixels[crate::raster::row_major(
                            v0.width,
                            pt.0 as int,
                            pt.1 as int,
                        )],
                        v0.layers[v0.current_layer].pixels[crate::raster::row_major(
                            v0.width,
                            x as int,
                            y as int,
                        )],
                    ) <= tolerance
                },
        );
        let dst = &mut self.layers[ci];
        dst.modified = true;
        let mut tracker;
        proof {
            assert((v0.width) * (v0.height) <= 0xffff * (v0.width)) by (nonlinear_arith)
                requires
                    0 <= v0.width,
                    0 <= v0.height <= 0xffff,
            ;
            crate::raster::lemma_row_major_in_range(v0.width, v0.height, x as int, y as int);
        }
        if continuous {
            let pixels = dst.image.pixels_mut();
            tracker = crate::fill::flood_fill(w, h, pixels, x as usize, y as usize, color, tolerance);
        } else {
            let pixels = dst.image.pixels_mut();
            tracker = crate::fill::global_fill(w, pixels, x as usize, y as usize, color, tolerance);
        }
        proof {
            assert(v0.layers[ci as int].pixels == old(self).layers@[ci as int].image@);
            if !continuous {
                assert forall|pt: (u32, u32)| #[trigger] tracker.tracked_set().contains(pt)
                    <==> seed_pred.contains(pt) by {
                    if pt.0 < v0.width {
                        assert((pt.1 as int) * v0.width + (pt.0 as int) < v0.width * v0.height
                            <==> (pt.1 as int) < v0.height) by (nonlinear_arith)
                            requires
                                0 <= (pt.0 as int) < v0.width,
                                0 <= pt.1 as int,
                                0 < v0.width,
                                0 <= v0.height,
                        ;
                    }
                }
            }
            assert(tracker.tracked_set() =~= seed_pred);
            assert(final(self)@.layers =~= (CanvasView {
                layers: v0.layers.update(
                    v0.current_layer,
                    LayerView {
                        pixels: (if continuous {
                            crate::fill::flood_result(
                                v0.layers[v0.current_layer].pixels,
                                v0.width,
                                v0.height,
                                tolerance as int,
                                (x as int, y as int),
                                color,
                            )
                        } else {
                            crate::fill::global_result(
                                v0.layers[v0.current_layer].pixels,
                                crate::raster::row_major(v0.width, x as int, y as int),
                                tolerance as int,
                                color,
                            )
                        }),
                        modified: true,
                        ..v0.layers[v0.current_layer]
                    },
                ),
                history: v0.history.push(
                    ActionView::LayerFull {
                        index: v0.current_layer,
                        image: v0.layers[v0.current_layer].pixels,
                    },
                ),
                ..v0
            }).layers);
            assert(final(self)@.history =~= v0.history.push(
                ActionView::LayerFull {
                    index: v0.current_layer,
                    image: v0.layers[v0.current_layer].pixels,
                },
            ));
            assert(final(self)@ =~~= (CanvasView {
                layers: v0.layers.update(
                    v0.current_layer,
                    LayerView {
                        pixels: (if continuous {
                            crate::fill::flood_result(
                                v0.layers[v0.current_layer].pixels,
                                v0.width,
                                v0.height,
                                tolerance as int,
                                (x as int, y as int),
                                color,
                            )
                        } else {
                            crate::fill::global_result(
                                v0.layers[v0.current_layer].pixels,
                                crate::raster::row_major(v0.width, x as int, y as int),
                                tolerance as int,
                                color,
                            )
                        }),
                        modified: true,
                        ..v0.layers[v0.current_layer]
                    },
                ),
                history: v0.history.push(
                    ActionView::LayerFull {
                        index: v0.current_layer,
                        image: v0.layers[v0.current_layer].pixels,
                    },
                ),
                ..v0
            }));
            if continuous {
                crate::fill::lemma_reach_refl(
                    v0.layers[v0.current_layer].pixels,
                    v0.width,
                    v0.height,
                    tolerance as int,
                    (x as int, y as int),
                );
            }
            assert(tracker.tracked_set().contains((x as u32, y as u32)));
        }
        let out = tracker.flush();
        proof {
            if out is None {
                assert(!tracker.tracked_set().contains((x as u32, y as u32)));
            }
        }
        out
    }
}

/// A name of the form "untitled n" that no existing canvas carries,
/// probing n upward from one past the canvas count.
pub fn get_new_canvas_name(canvases: &Vec<Canvas>) -> (r: String)
    requires
        canvases@.len() <= 0xffff,
    ensures
        r@ == fresh_numbered_name(
            "untitled "@,
            canvases@.map_values(|c: Canvas| c@.name),
            (canvases@.len() + 1) as nat,
            (canvases@.len() + 1) as nat,
        ),
{
    let mut names: Vec<String> = Vec::new();
    let mut i: usize = 0;
    while i < canvases.len()
        invariant
            i <= canvases@.len(),
            names@.len() == i,
            forall|j: int|
                0 <= j < i ==> #[trigger] name_views(names@)[j] == canvases@.map_values(
                    |c: Canvas| c@.name,
                )[j],
        decreases canvases@.len() - i,
    {
        let ghost prev_names = names@;
        names.push(canvases[i].name.clone());
        proof {
            assert forall|j: int| 0 <= j < i + 1 implies #[trigger] name_views(names@)[j]
                == canvases@.map_values(|c: Canvas| c@.name)[j] by {
                assert(name_views(names@)[j] == names@[j]@);
                if j < i {
                    assert(name_views(prev_names)[j] == canvases@.map_values(
                        |c: Canvas| c@.name,
                    )[j]);
                    assert(name_views(prev_names)[j] == prev_names[j]@);
                    assert(names@[j] == prev_names[j]);
                } else {
                    assert(names@[j] == names@[names@.len() - 1]);
                }
            }
        }
        i = i + 1;
    }
    proof {
        assert(name_views(names@) =~= canvases@.map_values(|c: Canvas| c@.name));
    }
    let start = canvases.len() as u64 + 1;
    crate::names::find_numbered_name("untitled ", &names, start, start)
}

} // verus!
