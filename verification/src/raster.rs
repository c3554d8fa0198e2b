//! The pixel store: a width-by-height grid of RGBA pixels held row-major in
//! one contiguous vector, mutated only through bounds-checked accessors.

use vstd::prelude::*;

use crate::color::Rgba;
use crate::rect::Rect;

verus! {

/// A rectangular grid of RGBA pixels, row-major and contiguous. The pixel
/// at `(x, y)` sits at index `y * width + x`.
pub struct RasterBuffer {
    width: u16,
    height: u16,
    pixels: Vec<Rgba>,
}

/// The flat row-major index of `(x, y)` in a grid `w` wide.
pub open spec fn row_major(w: int, x: int, y: int) -> int {
    y * w + x
}

/// Distinct in-bounds coordinates have distinct row-major indices.
pub proof fn lemma_row_major_injective(w: int, x1: int, y1: int, x2: int, y2: int)
    requires
        0 <= x1 < w,
        0 <= x2 < w,
        0 <= y1,
        0 <= y2,
        (x1, y1) != (x2, y2),
    ensures
        row_major(w, x1, y1) != row_major(w, x2, y2),
{
    assert(y1 * w + x1 != y2 * w + x2) by (nonlinear_arith)
        requires
            0 <= x1 < w,
            0 <= x2 < w,
            0 <= y1,
            0 <= y2,
            x1 != x2 || y1 != y2,
    ;
}

/// The row-major index of an in-bounds coordinate lies inside the grid.
pub proof fn lemma_row_major_in_range(w: int, h: int, x: int, y: int)
    requires
        0 <= x < w,
        0 <= y < h,
    ensures
        0 <= row_major(w, x, y) < w * h,
{
    assert(0 <= y * w + x < w * h) by (nonlinear_arith)
        requires
            0 <= x < w,
            0 <= y < h,
    ;
}

impl View for RasterBuffer {
    type V = Seq<Rgba>;

    closed spec fn view(&self) -> Seq<Rgba> {
        self.pixels@
    }
}

impl RasterBuffer {
    /// The buffer's width in pixels.
    pub closed spec fn spec_width(self) -> int {
        self.width as int
    }

    /// The buffer's height in pixels.
    pub closed spec fn spec_height(self) -> int {
        self.height as int
    }

    /// The shape invariant: exactly one pixel stored for every grid cell,
    /// with each dimension within the sixteen-bit range it is stored in.
    pub open spec fn inv(self) -> bool {
        &&& self@.len() == self.spec_width() * self.spec_height()
        &&& 0 <= self.spec_width() <= 0xffff
        &&& 0 <= self.spec_height() <= 0xffff
    }

    /// Whether `(x, y)` lies inside the grid.
    pub open spec fn spec_in_bounds(self, x: int, y: int) -> bool {
        0 <= x < self.spec_width() && 0 <= y < self.spec_height()
    }

    /// The pixel stored at `(x, y)`.
    pub open spec fn pixel_at(self, x: int, y: int) -> Rgba {
        self@[row_major(self.spec_width(), x, y)]
    }

    /// Two buffers have the same shape.
    pub open spec fn same_shape(self, other: RasterBuffer) -> bool {
        self.spec_width() == other.spec_width() && self.spec_height() == other.spec_height()
    }

    pub fn width(&self) -> (w: u16)
        ensures
            w == self.spec_width(),
    {
        self.width
    }

    pub fn height(&self) -> (h: u16)
        ensures
            h == self.spec_height(),
    {
        self.height
    }

    /// The flat index of the in-bounds coordinate `(x, y)`.
    fn index_of(&self, x: u32, y: u32) -> (i: usize)
        requires
            self.inv(),
            self.spec_in_bounds(x as int, y as int),
        ensures
            i == row_major(self.spec_width(), x as int, y as int),
            i < self@.len(),
    {
        proof {
            lemma_row_major_in_range(
                self.spec_width(),
                self.spec_height(),
                x as int,
                y as int,
            );
            assert((y as int) * (self.width as int) + (x as int) < 0x100000000) by (nonlinear_arith)
                requires
                    0 <= x as int,
                    (x as int) < self.spec_width(),
                    self.spec_width() <= 0xffff,
                    0 <= y as int,
                    (y as int) < 0x10000,
                    self.spec_width() == self.width as int,
            ;
        }
        y as usize * self.width as usize + x as usize
    }

    /// Reads the pixel at `(x, y)`.
    pub fn get_pixel(&self, x: u32, y: u32) -> (c: Rgba)
        requires
            self.inv(),
            self.spec_in_bounds(x as int, y as int),
        ensures
            c == self.pixel_at(x as int, y as int),
    {
        let i = self.index_of(x, y);
        self.pixels[i]
    }

    /// A mutable handle on the flat pixel vector, for the fill
    /// algorithms; the dimensions stay as they are.
    pub fn pixels_mut(&mut self) -> (v: &mut Vec<Rgba>)
        ensures
            v@ == old(self)@,
            final(self)@ == final(v)@,
            final(self).spec_width() == old(self).spec_width(),
            final(self).spec_height() == old(self).spec_height(),
    {
        &mut self.pixels
    }

    /// Writes `color` to the pixel at `(x, y)`; every other pixel is kept.
    pub fn set_pixel(&mut self, x: u32, y: u32, color: Rgba)
        requires
            old(self).inv(),
            old(self).spec_in_bounds(x as int, y as int),
        ensures
            final(self).inv(),
            final(self).same_shape(*old(self)),
            final(self)@ == old(self)@.update(
                row_major(old(self).spec_width(), x as int, y as int),
                color,
            ),
            final(self).pixel_at(x as int, y as int) == color,
    {
        let i = self.index_of(x, y);
        self.pixels.set(i, color);
    }
}

/// A blank image of the given dimensions: every pixel fully transparent.
pub fn gen_empty_image(width: u16, height: u16) -> (img: RasterBuffer)
    ensures
        img.inv(),
        img.spec_width() == width,
        img.spec_height() == height,
        forall|i: int| 0 <= i < img@.len() ==> img@[i] == Rgba::spec_transparent(),
{
    proof {
        assert(width as int * height as int <= 0xffff * 0xffff) by (nonlinear_arith)
            requires
                width <= 0xffff,
                height <= 0xffff,
        ;
    }
    let count: usize = width as usize * height as usize;
    let mut pixels: Vec<Rgba> = Vec::new();
    let mut i: usize = 0;
    while i < count
        invariant
            i <= count,
            pixels@.len() == i,
            forall|j: int| 0 <= j < i ==> pixels@[j] == Rgba::spec_transparent(),
        decreases count - i,
    {
        pixels.push(Rgba::transparent());
        i = i + 1;
    }
    RasterBuffer { width, height, pixels }
}

/// Builds a buffer of the given dimensions from a flat pixel vector;
/// refused unless the vector holds exactly one pixel per grid cell.
pub fn image_from_pixels(width: u16, height: u16, pixels: Vec<Rgba>) -> (r: Option<RasterBuffer>)
    ensures
        r is Some <==> pixels@.len() == width as int * height as int,
        r matches Some(img) ==> {
            &&& img.inv()
            &&& img.spec_width() == width
            &&& img.spec_height() == height
            &&& img@ == pixels@
        },
{
    proof {
        assert(width as int * height as int <= 0xffff * 0xffff) by (nonlinear_arith)
            requires
                width <= 0xffff,
                height <= 0xffff,
        ;
    }
    if pixels.len() == width as usize * height as usize {
        Some(RasterBuffer { width, height, pixels })
    } else {
        None
    }
}

impl Clone for RasterBuffer {
    /// An independent copy with the same shape and the same pixels.
    fn clone(&self) -> (r: Self)
        ensures
            r.spec_width() == self.spec_width(),
            r.spec_height() == self.spec_height(),
            r@ == self@,
            self.inv() ==> r.inv(),
    {
        let mut pixels: Vec<Rgba> = Vec::new();
        let n = self.pixels.len();
        let mut i: usize = 0;
        while i < n
            invariant
                i <= n,
                n == self.pixels@.len(),
                pixels@.len() == i,
                forall|j: int| 0 <= j < i ==> pixels@[j] == self.pixels@[j],
            decreases n - i,
        {
            pixels.push(self.pixels[i]);
            i = i + 1;
        }
        proof {
            assert(pixels@ =~= self.pixels@);
        }
        RasterBuffer { width: self.width, height: self.height, pixels }
    }
}

/// Every pixel of the buffer composited under the matching pixel of `top`.
pub open spec fn overlaid(top: Seq<Rgba>, bottom: Seq<Rgba>) -> Seq<Rgba> {
    Seq::new(bottom.len(), |i: int| crate::color::overlay_spec(top[i], bottom[i]))
}

impl RasterBuffer {
    /// Composites `top` over this buffer with the "over" operator, pixel by
    /// pixel.
    pub fn overlay_from(&mut self, top: &RasterBuffer)
        requires
            old(self).inv(),
            top.inv(),
            old(self).same_shape(*top),
        ensures
            final(self).inv(),
            final(self).same_shape(*old(self)),
            final(self)@ == overlaid(top@, old(self)@),
    {
        let n = self.pixels.len();
        proof {
            assert(top@.len() == old(self)@.len());
        }
        let mut i: usize = 0;
        while i < n
            invariant
                i <= n,
                n == self.pixels@.len(),
                top@.len() == n,
                self.width == old(self).width,
                self.height == old(self).height,
                forall|j: int|
                    0 <= j < i ==> self.pixels@[j] == crate::color::overlay_spec(
                        top@[j],
                        old(self).pixels@[j],
                    ),
                forall|j: int| i <= j < n ==> self.pixels@[j] == old(self).pixels@[j],
            decreases n - i,
        {
            let c = crate::color::overlay_colors(top.pixels[i], self.pixels[i]);
            self.pixels.set(i, c);
            i = i + 1;
        }
        proof {
            assert(self.pixels@ =~= overlaid(top@, old(self)@));
        }
    }

    /// Resets every pixel to fully transparent.
    pub fn clear_all(&mut self)
        requires
            old(self).inv(),
        ensures
            final(self).inv(),
            final(self).same_shape(*old(self)),
            final(self)@.len() == old(self)@.len(),
            forall|i: int|
                0 <= i < final(self)@.len() ==> final(self)@[i] == Rgba::spec_transparent(),
    {
        let n = self.pixels.len();
        let mut i: usize = 0;
        while i < n
            invariant
                i <= n,
                n == self.pixels@.len(),
                self.width == old(self).width,
                self.height == old(self).height,
                forall|j: int| 0 <= j < i ==> self.pixels@[j] == Rgba::spec_transparent(),
            decreases n - i,
        {
            self.pixels.set(i, Rgba::transparent());
            i = i + 1;
        }
    }
}

/// Composites `other` over `source` in place; when `empty_other` is set the
/// whole of `other` is wiped to transparent afterwards, ready for the next
/// preview stroke.
pub fn overlay_images(source: &mut RasterBuffer, other: &mut RasterBuffer, empty_other: bool)
    requires
        old(source).inv(),
        old(other).inv(),
        old(source).same_shape(*old(other)),
    ensures
        final(source).inv(),
        final(source).same_shape(*old(source)),
        final(source)@ == overlaid(old(other)@, old(source)@),
        final(other).inv(),
        final(other).same_shape(*old(other)),
        final(other)@.len() == old(other)@.len(),
        !empty_other ==> final(other)@ == old(other)@,
        empty_other ==> forall|i: int|
            0 <= i < final(other)@.len() ==> final(other)@[i] == Rgba::spec_transparent(),
{
    source.overlay_from(other);
    if empty_other {
        other.clear_all();
    }
}

impl RasterBuffer {
    /// Whether `region` lies entirely inside the grid.
    pub open spec fn region_in_bounds(self, region: Rect) -> bool {
        &&& region.x + region.w <= self.spec_width()
        &&& region.y + region.h <= self.spec_height()
    }

    /// A copy of the pixels under `region` as a buffer of the region's own
    /// dimensions.
    pub fn sub_image(&self, region: Rect) -> (r: RasterBuffer)
        requires
            self.inv(),
            self.region_in_bounds(region),
        ensures
            r.inv(),
            r.spec_width() == region.w,
            r.spec_height() == region.h,
            forall|dx: int, dy: int|
                0 <= dx < region.w && 0 <= dy < region.h ==> r.pixel_at(dx, dy) == self.pixel_at(
                    region.x + dx,
                    region.y + dy,
                ),
    {
        let mut pixels: Vec<Rgba> = Vec::new();
        let mut dy: u32 = 0;
        while dy < region.h
            invariant
                self.inv(),
                self.region_in_bounds(region),
                dy <= region.h,
                pixels@.len() == (dy as int) * (region.w as int),
                forall|qx: int, qy: int|
                    0 <= qx < region.w && 0 <= qy < dy ==> #[trigger] pixels@[row_major(
                        region.w as int,
                        qx,
                        qy,
                    )] == self.pixel_at(region.x + qx, region.y + qy),
            decreases region.h - dy,
        {
            let mut dx: u32 = 0;
            while dx < region.w
                invariant
                    self.inv(),
                    self.region_in_bounds(region),
                    dy < region.h,
                    dx <= region.w,
                    pixels@.len() == (dy as int) * (region.w as int) + dx,
                    forall|qx: int, qy: int|
                        0 <= qx < region.w && 0 <= qy < dy ==> #[trigger] pixels@[row_major(
                            region.w as int,
                            qx,
                            qy,
                        )] == self.pixel_at(region.x + qx, region.y + qy),
                    forall|qx: int|
                        0 <= qx < dx ==> #[trigger] pixels@[row_major(region.w as int, qx, dy as int)]
                            == self.pixel_at(region.x + qx, region.y + dy),
                decreases region.w - dx,
            {
                let c = self.get_pixel(region.x + dx, region.y + dy);
                pixels.push(c);
                proof {
                    assert forall|qx: int, qy: int|
                        0 <= qx < region.w && 0 <= qy < dy implies #[trigger] pixels@[row_major(
                        region.w as int,
                        qx,
                        qy,
                    )] == self.pixel_at(region.x + qx, region.y + qy) by {
                        lemma_row_major_in_range(region.w as int, dy as int, qx, qy);
                        assert((dy as int) * (region.w as int) == (region.w as int) * (
                        dy as int)) by (nonlinear_arith);
                    }
                }
                dx = dx + 1;
            }
            proof {
                assert((dy + 1) * (region.w as int) == (dy as int) * (region.w as int)
                    + region.w) by (nonlinear_arith);
            }
            dy = dy + 1;
        }
        let r = RasterBuffer { width: region.w as u16, height: region.h as u16, pixels };
        proof {
            assert((region.h as int) * (region.w as int) == (region.w as int) * (
            region.h as int)) by (nonlinear_arith);
            assert(r.inv());
            assert forall|dx: int, dy2: int|
                0 <= dx < region.w && 0 <= dy2 < region.h implies #[trigger] r.pixel_at(dx, dy2)
                == self.pixel_at(region.x + dx, region.y + dy2) by {
                lemma_row_major_in_range(region.w as int, region.h as int, dx, dy2);
                assert(r.pixel_at(dx, dy2) == r@[row_major(region.w as int, dx, dy2)]);
            }
        }
        r
    }
}

impl RasterBuffer {
    /// Overwrites the pixels under `region` with the pixels of `data`, a
    /// buffer of the region's own dimensions; everything outside the region
    /// is kept.
    pub fn write_region(&mut self, region: Rect, data: &RasterBuffer)
        requires
            old(self).inv(),
            data.inv(),
            old(self).region_in_bounds(region),
            data.spec_width() == region.w,
            data.spec_height() == region.h,
        ensures
            final(self).inv(),
            final(self).same_shape(*old(self)),
            forall|px: int, py: int|
                old(self).spec_in_bounds(px, py) ==> #[trigger] final(self).pixel_at(px, py) == (
                if region.spec_contains(px, py) {
                    data.pixel_at(px - region.x, py - region.y)
                } else {
                    old(self).pixel_at(px, py)
                }),
    {
        let mut dy: u32 = 0;
        while dy < region.h
            invariant
                self.inv(),
                data.inv(),
                self.same_shape(*old(self)),
                old(self).region_in_bounds(region),
                data.spec_width() == region.w,
                data.spec_height() == region.h,
                dy <= region.h,
                forall|px: int, py: int|
                    old(self).spec_in_bounds(px, py) ==> #[trigger] self.pixel_at(px, py) == (
                    if region.spec_contains(px, py) && py < region.y + dy {
                        data.pixel_at(px - region.x, py - region.y)
                    } else {
                        old(self).pixel_at(px, py)
                    }),
            decreases region.h - dy,
        {
            let mut dx: u32 = 0;
            while dx < region.w
                invariant
                    self.inv(),
                    data.inv(),
                    self.same_shape(*old(self)),
                    old(self).region_in_bounds(region),
                    data.spec_width() == region.w,
                    data.spec_height() == region.h,
                    dy < region.h,
                    dx <= region.w,
                    forall|px: int, py: int|
                        old(self).spec_in_bounds(px, py) ==> #[trigger] self.pixel_at(px, py) == (
                        if region.spec_contains(px, py) && (py < region.y + dy || (py == region.y
                            + dy && px < region.x + dx)) {
                            data.pixel_at(px - region.x, py - region.y)
                        } else {
                            old(self).pixel_at(px, py)
                        }),
                decreases region.w - dx,
            {
                let ghost prev = *self;
                let c = data.get_pixel(dx, dy);
                self.set_pixel(region.x + dx, region.y + dy, c);
                proof {
                    let x0 = region.x + dx;
                    let y0 = region.y + dy;
                    assert(self@ == prev@.update(
                        row_major(prev.spec_width(), x0 as int, y0 as int),
                        c,
                    ));
                    assert(prev@.len() == prev.spec_width() * prev.spec_height());
                    lemma_row_major_in_range(
                        prev.spec_width(),
                        prev.spec_height(),
                        x0 as int,
                        y0 as int,
                    );
                    assert forall|px: int, py: int|
                        old(self).spec_in_bounds(px, py) implies #[trigger] self.pixel_at(px, py)
                        == (if region.spec_contains(px, py) && (py < region.y + dy || (py
                        == region.y + dy && px < region.x + dx + 1)) {
                        data.pixel_at(px - region.x, py - region.y)
                    } else {
                        old(self).pixel_at(px, py)
                    }) by {
                        lemma_row_major_in_range(
                            prev.spec_width(),
                            prev.spec_height(),
                            px,
                            py,
                        );
                        if px != x0 || py != y0 {
                            lemma_row_major_injective(
                                prev.spec_width(),
                                px,
                                py,
                                x0 as int,
                                y0 as int,
                            );
                            assert(self@[row_major(prev.spec_width(), px, py)] == prev@[
                                row_major(prev.spec_width(), px, py)
                            ]);
                            assert(self.pixel_at(px, py) == prev.pixel_at(px, py));
                        }
                    }
                }
                dx = dx + 1;
            }
            dy = dy + 1;
        }
    }
}

impl RasterBuffer {
    /// Composites, inside `region` only, the matching pixels of `other`
    /// over this buffer; everything outside the region is kept. `other`
    /// has the same dimensions as this buffer and is addressed with the
    /// same absolute coordinates.
    pub fn overlay_region(&mut self, region: Rect, other: &RasterBuffer)
        requires
            old(self).inv(),
            other.inv(),
            old(self).same_shape(*other),
            old(self).region_in_bounds(region),
        ensures
            final(self).inv(),
            final(self).same_shape(*old(self)),
            forall|px: int, py: int|
                old(self).spec_in_bounds(px, py) ==> #[trigger] final(self).pixel_at(px, py) == (
                if region.spec_contains(px, py) {
                    crate::color::overlay_spec(other.pixel_at(px, py), old(self).pixel_at(px, py))
                } else {
                    old(self).pixel_at(px, py)
                }),
    {
        let mut dy: u32 = 0;
        while dy < region.h
            invariant
                self.inv(),
                other.inv(),
                self.same_shape(*old(self)),
                old(self).same_shape(*other),
                old(self).region_in_bounds(region),
                dy <= region.h,
                forall|px: int, py: int|
                    old(self).spec_in_bounds(px, py) ==> #[trigger] self.pixel_at(px, py) == (
                    if region.spec_contains(px, py) && py < region.y + dy {
                        crate::color::overlay_spec(
                            other.pixel_at(px, py),
                            old(self).pixel_at(px, py),
                        )
                    } else {
                        old(self).pixel_at(px, py)
                    }),
            decreases region.h - dy,
        {
            let mut dx: u32 = 0;
            while dx < region.w
                invariant
                    self.inv(),
                    other.inv(),
                    self.same_shape(*old(self)),
                    old(self).same_shape(*other),
                    old(self).region_in_bounds(region),
                    dy < region.h,
                    dx <= region.w,
                    forall|px: int, py: int|
                        old(self).spec_in_bounds(px, py) ==> #[trigger] self.pixel_at(px, py) == (
                        if region.spec_contains(px, py) && (py < region.y + dy || (py == region.y
                            + dy && px < region.x + dx)) {
                            crate::color::overlay_spec(
                                other.pixel_at(px, py),
                                old(self).pixel_at(px, py),
                            )
                        } else {
                            old(self).pixel_at(px, py)
                        }),
                decreases region.w - dx,
            {
                let ghost prev = *self;
                let top = other.get_pixel(region.x + dx, region.y + dy);
                let bottom = self.get_pixel(region.x + dx, region.y + dy);
                let c = crate::color::overlay_colors(top, bottom);
                self.set_pixel(region.x + dx, region.y + dy, c);
                proof {
                    let x0 = region.x + dx;
                    let y0 = region.y + dy;
                    lemma_row_major_in_range(
                        prev.spec_width(),
                        prev.spec_height(),
                        x0 as int,
                        y0 as int,
                    );
                    assert forall|px: int, py: int|
                        old(self).spec_in_bounds(px, py) implies #[trigger] self.pixel_at(px, py)
                        == (if region.spec_contains(px, py) && (py < region.y + dy || (py
                        == region.y + dy && px < region.x + dx + 1)) {
                        crate::color::overlay_spec(
                            other.pixel_at(px, py),
                            old(self).pixel_at(px, py),
                        )
                    } else {
                        old(self).pixel_at(px, py)
                    }) by {
                        lemma_row_major_in_range(
                            prev.spec_width(),
                            prev.spec_height(),
                            px,
                            py,
                        );
                        if px != x0 || py != y0 {
                            lemma_row_major_injective(
                                prev.spec_width(),
                                px,
                                py,
                                x0 as int,
                                y0 as int,
                            );
                            assert(self.pixel_at(px, py) == prev.pixel_at(px, py));
                        }
                    }
                }
                dx = dx + 1;
            }
            dy = dy + 1;
        }
    }

    /// Resets every pixel under `region` to fully transparent; everything
    /// outside the region is kept.
    pub fn zero_region(&mut self, region: Rect)
        requires
            old(self).inv(),
            old(self).region_in_bounds(region),
        ensures
            final(self).inv(),
            final(self).same_shape(*old(self)),
            forall|px: int, py: int|
                old(self).spec_in_bounds(px, py) ==> #[trigger] final(self).pixel_at(px, py) == (
                if region.spec_contains(px, py) {
                    Rgba::spec_transparent()
                } else {
                    old(self).pixel_at(px, py)
                }),
    {
        let mut dy: u32 = 0;
        while dy < region.h
            invariant
                self.inv(),
                self.same_shape(*old(self)),
                old(self).region_in_bounds(region),
                dy <= region.h,
                forall|px: int, py: int|
                    old(self).spec_in_bounds(px, py) ==> #[trigger] self.pixel_at(px, py) == (
                    if region.spec_contains(px, py) && py < region.y + dy {
                        Rgba::spec_transparent()
                    } else {
                        old(self).pixel_at(px, py)
                    }),
            decreases region.h - dy,
        {
            let mut dx: u32 = 0;
            while dx < region.w
                invariant
                    self.inv(),
                    self.same_shape(*old(self)),
                    old(self).region_in_bounds(region),
                    dy < region.h,
                    dx <= region.w,
                    forall|px: int, py: int|
                        old(self).spec_in_bounds(px, py) ==> #[trigger] self.pixel_at(px, py) == (
                        if region.spec_contains(px, py) && (py < region.y + dy || (py == region.y
                            + dy && px < region.x + dx)) {
                            Rgba::spec_transparent()
                        } else {
                            old(self).pixel_at(px, py)
                        }),
                decreases region.w - dx,
            {
                let ghost prev = *self;
                self.set_pixel(region.x + dx, region.y + dy, Rgba::transparent());
                proof {
                    let x0 = region.x + dx;
                    let y0 = region.y + dy;
                    lemma_row_major_in_range(
                        prev.spec_width(),
                        prev.spec_height(),
                        x0 as int,
                        y0 as int,
                    );
                    assert forall|px: int, py: int|
                        old(self).spec_in_bounds(px, py) implies #[trigger] self.pixel_at(px, py)
                        == (if region.spec_contains(px, py) && (py < region.y + dy || (py
                        == region.y + dy && px < region.x + dx + 1)) {
                        Rgba::spec_transparent()
                    } else {
                        old(self).pixel_at(px, py)
                    }) by {
                        lemma_row_major_in_range(
                            prev.spec_width(),
                            prev.spec_height(),
                            px,
                            py,
                        );
                        if px != x0 || py != y0 {
                            lemma_row_major_injective(
                                prev.spec_width(),
                                px,
                                py,
                                x0 as int,
                                y0 as int,
                            );
                            assert(self.pixel_at(px, py) == prev.pixel_at(px, py));
                        }
                    }
                }
                dx = dx + 1;
            }
            dy = dy + 1;
        }
    }
}

/// Erases, inside `region`, every pixel where the scratch buffer carries a
/// fully opaque mark: the destination pixel and the scratch pixel are both
/// reset to transparent there. All other pixels of both buffers are kept.
pub fn erase_masked_region(dest: &mut RasterBuffer, scratch: &mut RasterBuffer, region: Rect)
    requires
        old(dest).inv(),
        old(scratch).inv(),
        old(dest).same_shape(*old(scratch)),
        old(dest).region_in_bounds(region),
    ensures
        final(dest).inv(),
        final(dest).same_shape(*old(dest)),
        final(scratch).inv(),
        final(scratch).same_shape(*old(scratch)),
        forall|px: int, py: int|
            old(dest).spec_in_bounds(px, py) ==> #[trigger] final(dest).pixel_at(px, py) == (
            if region.spec_contains(px, py) && old(scratch).pixel_at(px, py).a == 255 {
                Rgba::spec_transparent()
            } else {
                old(dest).pixel_at(px, py)
            }),
        forall|px: int, py: int|
            old(scratch).spec_in_bounds(px, py) ==> #[trigger] final(scratch).pixel_at(px, py)
                == (if region.spec_contains(px, py) && old(scratch).pixel_at(px, py).a == 255 {
                Rgba::spec_transparent()
            } else {
                old(scratch).pixel_at(px, py)
            }),
{
    let mut dy: u32 = 0;
    while dy < region.h
        invariant
            dest.inv(),
            scratch.inv(),
            dest.same_shape(*old(dest)),
            scratch.same_shape(*old(scratch)),
            old(dest).same_shape(*old(scratch)),
            old(dest).region_in_bounds(region),
            dy <= region.h,
            forall|px: int, py: int|
                old(dest).spec_in_bounds(px, py) ==> #[trigger] dest.pixel_at(px, py) == (
                if region.spec_contains(px, py) && old(scratch).pixel_at(px, py).a == 255 && py
                    < region.y + dy {
                    Rgba::spec_transparent()
                } else {
                    old(dest).pixel_at(px, py)
                }),
            forall|px: int, py: int|
                old(scratch).spec_in_bounds(px, py) ==> #[trigger] scratch.pixel_at(px, py) == (
                if region.spec_contains(px, py) && old(scratch).pixel_at(px, py).a == 255 && py
                    < region.y + dy {
                    Rgba::spec_transparent()
                } else {
                    old(scratch).pixel_at(px, py)
                }),
        decreases region.h - dy,
    {
        let mut dx: u32 = 0;
        while dx < region.w
            invariant
                dest.inv(),
                scratch.inv(),
                dest.same_shape(*old(dest)),
                scratch.same_shape(*old(scratch)),
                old(dest).same_shape(*old(scratch)),
                old(dest).region_in_bounds(region),
                dy < region.h,
                dx <= region.w,
                forall|px: int, py: int|
                    old(dest).spec_in_bounds(px, py) ==> #[trigger] dest.pixel_at(px, py) == (
                    if region.spec_contains(px, py) && old(scratch).pixel_at(px, py).a == 255 && (
                    py < region.y + dy || (py == region.y + dy && px < region.x + dx)) {
                        Rgba::spec_transparent()
                    } else {
                        old(dest).pixel_at(px, py)
                    }),
                forall|px: int, py: int|
                    old(scratch).spec_in_bounds(px, py) ==> #[trigger] scratch.pixel_at(px, py)
                        == (if region.spec_contains(px, py) && old(scratch).pixel_at(px, py).a
                        == 255 && (py < region.y + dy || (py == region.y + dy && px < region.x
                        + dx)) {
                        Rgba::spec_transparent()
                    } else {
                        old(scratch).pixel_at(px, py)
                    }),
            decreases region.w - dx,
        {
            let ghost prev_dest = *dest;
            let ghost prev_scratch = *scratch;
            let mark = scratch.get_pixel(region.x + dx, region.y + dy);
            if mark.a == 255 {
                dest.set_pixel(region.x + dx, region.y + dy, Rgba::transparent());
                scratch.set_pixel(region.x + dx, region.y + dy, Rgba::transparent());
            }
            proof {
                let x0 = region.x + dx;
                let y0 = region.y + dy;
                lemma_row_major_in_range(
                    prev_dest.spec_width(),
                    prev_dest.spec_height(),
                    x0 as int,
                    y0 as int,
                );
                assert forall|px: int, py: int|
                    old(dest).spec_in_bounds(px, py) implies #[trigger] dest.pixel_at(px, py) == (
                    if region.spec_contains(px, py) && old(scratch).pixel_at(px, py).a == 255 && (
                    py < region.y + dy || (py == region.y + dy && px < region.x + dx + 1)) {
                    Rgba::spec_transparent()
                } else {
                    old(dest).pixel_at(px, py)
                }) by {
                    lemma_row_major_in_range(
                        prev_dest.spec_width(),
                        prev_dest.spec_height(),
                        px,
                        py,
                    );
                    if px != x0 || py != y0 {
                        lemma_row_major_injective(
                            prev_dest.spec_width(),
                            px,
                            py,
                            x0 as int,
                            y0 as int,
                        );
                        assert(dest.pixel_at(px, py) == prev_dest.pixel_at(px, py));
                    }
                }
                assert forall|px: int, py: int|
                    old(scratch).spec_in_bounds(px, py) implies #[trigger] scratch.pixel_at(
                    px,
                    py,
                ) == (if region.spec_contains(px, py) && old(scratch).pixel_at(px, py).a == 255
                    && (py < region.y + dy || (py == region.y + dy && px < region.x + dx + 1)) {
                    Rgba::spec_transparent()
                } else {
                    old(scratch).pixel_at(px, py)
                }) by {
                    lemma_row_major_in_range(
                        prev_scratch.spec_width(),
                        prev_scratch.spec_height(),
                        px,
                        py,
                    );
                    if px != x0 || py != y0 {
                        lemma_row_major_injective(
                            prev_scratch.spec_width(),
                            px,
                            py,
                            x0 as int,
                            y0 as int,
                        );
                        assert(scratch.pixel_at(px, py) == prev_scratch.pixel_at(px, py));
                    }
                }
            }
            dx = dx + 1;
        }
        dy = dy + 1;
    }
}

impl RasterBuffer {
    /// The buffer flattened to raw RGBA8 bytes, row-major, four bytes per
    /// pixel — what an encoder consumes.
    pub fn to_rgba_bytes(&self) -> (bytes: Vec<u8>)
        requires
            self.inv(),
        ensures
            bytes@.len() == 4 * self@.len(),
            forall|i: int|
                0 <= i < self@.len() ==> {
                    &&& bytes@[4 * i] == (#[trigger] self@[i]).r
                    &&& bytes@[4 * i + 1] == self@[i].g
                    &&& bytes@[4 * i + 2] == self@[i].b
                    &&& bytes@[4 * i + 3] == self@[i].a
                },
    {
        proof {
            assert(self.spec_width() * self.spec_height() <= 0xffff * 0xffff)
                by (nonlinear_arith)
                requires
                    0 <= self.spec_width() <= 0xffff,
                    0 <= self.spec_height() <= 0xffff,
            ;
        }
        let mut bytes: Vec<u8> = Vec::new();
        let n = self.pixels.len();
        let mut i: usize = 0;
        while i < n
            invariant
                i <= n,
                n == self@.len(),
                n <= 0xfffe0001,
                bytes@.len() == 4 * i,
                forall|j: int|
                    0 <= j < i ==> {
                        &&& bytes@[4 * j] == (#[trigger] self@[j]).r
                        &&& bytes@[4 * j + 1] == self@[j].g
                        &&& bytes@[4 * j + 2] == self@[j].b
                        &&& bytes@[4 * j + 3] == self@[j].a
                    },
            decreases n - i,
        {
            let p = self.pixels[i];
            bytes.push(p.r);
            bytes.push(p.g);
            bytes.push(p.b);
            bytes.push(p.a);
            i = i + 1;
        }
        bytes
    }
}

/// Builds a buffer of the given dimensions from raw RGBA8 bytes, four per
/// pixel row-major — what a decoder produces; refused unless the byte
/// count matches the dimensions exactly.
pub fn image_from_rgba_bytes(width: u16, height: u16, bytes: &Vec<u8>) -> (r: Option<
    RasterBuffer,
>)
    ensures
        r is Some <==> bytes@.len() == 4 * (width as int * height as int),
        r matches Some(img) ==> {
            &&& img.inv()
            &&& img.spec_width() == width
            &&& img.spec_height() == height
            &&& forall|i: int|
                0 <= i < img@.len() ==> {
                    &&& (#[trigger] img@[i]).r == bytes@[4 * i]
                    &&& img@[i].g == bytes@[4 * i + 1]
                    &&& img@[i].b == bytes@[4 * i + 2]
                    &&& img@[i].a == bytes@[4 * i + 3]
                }
        },
{
    proof {
        assert(width as int * height as int <= 0xffff * 0xffff) by (nonlinear_arith)
            requires
                width <= 0xffff,
                height <= 0xffff,
        ;
    }
    let count: usize = width as usize * height as usize;
    if bytes.len() % 4 != 0 || bytes.len() / 4 != count {
        proof {
            assert(bytes@.len() != 4 * (width as int * height as int));
        }
        return None;
    }
    let blen = bytes.len();
    let mut pixels: Vec<Rgba> = Vec::new();
    let mut i: usize = 0;
    let mut j: usize = 0;
    while i < count
        invariant
            i <= count,
            j == 4 * i,
            blen == bytes@.len(),
            bytes@.len() == 4 * count,
            pixels@.len() == i,
            forall|k: int|
                0 <= k < i ==> {
                    &&& (#[trigger] pixels@[k]).r == bytes@[4 * k]
                    &&& pixels@[k].g == bytes@[4 * k + 1]
                    &&& pixels@[k].b == bytes@[4 * k + 2]
                    &&& pixels@[k].a == bytes@[4 * k + 3]
                },
        decreases count - i,
    {
        let p = Rgba {
            r: bytes[j],
            g: bytes[j + 1],
            b: bytes[j + 2],
            a: bytes[j + 3],
        };
        pixels.push(p);
        i = i + 1;
        j = j + 4;
    }
    Some(RasterBuffer { width, height, pixels })
}

} // verus!
