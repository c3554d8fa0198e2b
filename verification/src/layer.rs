//! One layer of a canvas: a named, optionally hidden pixel buffer with a
//! dirty-region tracker and a modified flag. The presentation surface that
//! mirrors the buffer lives outside the engine; a layer only reports which
//! rectangle must be refreshed.

use vstd::prelude::*;

use crate::color::Rgba;
use crate::raster::RasterBuffer;
use crate::rect::BoundsTracker;
use crate::rect::Rect;

verus! {

/// What a layer amounts to: its name, flags and pixels. The dirty-region
/// tracker is transient presentation state and is left out.
#[verifier::ext_equal]
pub struct LayerView {
    pub name: Seq<char>,
    pub visible: bool,
    pub modified: bool,
    pub pixels: Seq<Rgba>,
}

/// The view of a freshly created layer around the given pixels.
pub open spec fn new_layer_view(name: Seq<char>, pixels: Seq<Rgba>) -> LayerView {
    LayerView { name, visible: true, modified: false, pixels }
}

/// One independently editable raster image in a canvas's stack.
pub struct Layer {
    pub name: String,
    pub visible: bool,
    pub image: RasterBuffer,
    pub bounds_tracker: BoundsTracker,
    pub modified: bool,
}

impl View for Layer {
    type V = LayerView;

    open spec fn view(&self) -> LayerView {
        LayerView {
            name: self.name@,
            visible: self.visible,
            modified: self.modified,
            pixels: self.image@,
        }
    }
}

impl Layer {
    /// The layer's internal consistency: a well-shaped buffer, a sound
    /// tracker, and every tracked coordinate inside the buffer.
    pub open spec fn inv(self) -> bool {
        &&& self.image.inv()
        &&& self.bounds_tracker.inv()
        &&& forall|pt: (u32, u32)|
            #[trigger] self.bounds_tracker.tracked_set().contains(pt)
                ==> self.image.spec_in_bounds(pt.0 as int, pt.1 as int)
    }

    /// Wraps a pixel buffer into a visible, unmodified layer with a clean
    /// tracker.
    pub fn new(image: RasterBuffer, name: String) -> (l: Layer)
        requires
            image.inv(),
        ensures
            l.inv(),
            l@ == new_layer_view(name@, image@),
            l.image.spec_width() == image.spec_width(),
            l.image.spec_height() == image.spec_height(),
            l.bounds_tracker.tracked_set() =~= Set::<(u32, u32)>::empty(),
    {
        Layer {
            image,
            name,
            visible: true,
            bounds_tracker: BoundsTracker::new(),
            modified: false,
        }
    }

    /// The width of the layer's buffer.
    pub fn width(&self) -> (w: usize)
        ensures
            w == self.image.spec_width(),
    {
        self.image.width() as usize
    }

    /// The height of the layer's buffer.
    pub fn height(&self) -> (h: usize)
        ensures
            h == self.image.spec_height(),
    {
        self.image.height() as usize
    }

    /// Writes one pixel, records the coordinate in the dirty tracker and
    /// marks the layer modified.
    pub fn set_pixel(&mut self, x: u32, y: u32, color: Rgba)
        requires
            old(self).inv(),
            old(self).image.spec_in_bounds(x as int, y as int),
        ensures
            final(self).inv(),
            final(self).image.same_shape(old(self).image),
            final(self)@.name == old(self)@.name,
            final(self)@.visible == old(self)@.visible,
            final(self)@.modified,
            final(self)@.pixels == old(self)@.pixels.update(
                crate::raster::row_major(old(self).image.spec_width(), x as int, y as int),
                color,
            ),
            final(self).bounds_tracker.tracked_set() =~= old(
                self,
            ).bounds_tracker.tracked_set().insert((x, y)),
    {
        self.bounds_tracker.track(x, y);
        self.image.set_pixel(x, y, color);
        self.modified = true;
    }

    /// The dirty rectangle accumulated since the last flush — for the
    /// presentation layer to refresh — wiping the tracker; `None` when
    /// nothing was written.
    pub fn flush_texture(&mut self) -> (r: Option<Rect>)
        requires
            old(self).inv(),
        ensures
            final(self).inv(),
            final(self)@ == old(self)@,
            final(self).image == old(self).image,
            final(self).bounds_tracker.tracked_set() =~= Set::<(u32, u32)>::empty(),
            r is None <==> old(self).bounds_tracker.tracked_set() =~= Set::<(u32, u32)>::empty(),
            r matches Some(rect) ==> crate::rect::rect_tight(
                rect,
                old(self).bounds_tracker.tracked_set(),
            ),
    {
        self.bounds_tracker.flush()
    }

    /// A mutable handle on the raw buffer for bulk edits; the layer is
    /// marked modified up front.
    pub fn get_image_data_mut(&mut self) -> (img: &mut RasterBuffer)
        ensures
            *img == old(self).image,
            final(self).image == *final(img),
            final(self).name == old(self).name,
            final(self).visible == old(self).visible,
            final(self).bounds_tracker == old(self).bounds_tracker,
            final(self).modified,
    {
        self.modified = true;
        &mut self.image
    }
}

} // verus!
