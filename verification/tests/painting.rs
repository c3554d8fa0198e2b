use plow::canvas::Canvas;
use plow::color::Rgba;
use plow::color::compare_colors;
use plow::color::map_tolerance;
use plow::color::overlay_colors;
use plow::fill::flood_fill;
use plow::fill::global_fill;
use plow::rect::BoundsTracker;
use plow::rect::Rect;
use plow::stroke::Stroke;
use plow::tools::Brush;
use plow::tools::Bucket;
use plow::tools::ColorPicker;
use plow::tools::Eraser;
use plow::tools::PointerState;
use plow::tools::ToolContext;
use plow::tools::ToolKind;
use plow::tools::ToolsSettings;
use plow::tools::get_tools;

fn white() -> Rgba {
    Rgba { r: 255, g: 255, b: 255, a: 255 }
}

fn black() -> Rgba {
    Rgba { r: 0, g: 0, b: 0, a: 255 }
}

fn clear() -> Rgba {
    Rgba { r: 0, g: 0, b: 0, a: 0 }
}

fn idle_pointer() -> PointerState {
    PointerState {
        left_down: false,
        right_down: false,
        left_pressed: false,
        right_pressed: false,
        left_released: false,
        right_released: false,
    }
}

fn context_at(x: i16, y: i16, in_bounds: bool) -> ToolContext {
    ToolContext {
        cursor_x: x,
        cursor_y: y,
        cursor_in_bounds: in_bounds,
        last_cursor_x: None,
        last_cursor_y: None,
        primary_color: black(),
        secondary_color: white(),
        pointer: idle_pointer(),
    }
}

#[test]
fn bounds_tracker_reports_minimal_rect() {
    // The flushed rectangle is exactly the minimal cover of the tracked
    // coordinates, and None when nothing was tracked.
    let mut t = BoundsTracker::new();
    assert_eq!(t.flush(), None);
    t.track(2, 3);
    t.track(5, 1);
    assert_eq!(t.flush(), Some(Rect { x: 2, y: 1, w: 4, h: 3 }));
    assert_eq!(t.flush(), None);
    t.track(7, 7);
    assert_eq!(t.flush(), Some(Rect { x: 7, y: 7, w: 1, h: 1 }));
}

#[test]
fn compare_colors_sums_channel_differences() {
    let a = Rgba { r: 1, g: 2, b: 3, a: 4 };
    let b = Rgba { r: 5, g: 5, b: 5, a: 5 };
    assert_eq!(compare_colors(a, b), 10);
    assert_eq!(compare_colors(a, a), 0);
    let lo = Rgba { r: 0, g: 0, b: 0, a: 0 };
    let hi = Rgba { r: 255, g: 255, b: 255, a: 255 };
    assert_eq!(compare_colors(lo, hi), 1020);
}

#[test]
fn overlay_blends_by_top_alpha() {
    let top = Rgba { r: 255, g: 0, b: 0, a: 128 };
    let bottom = Rgba { r: 0, g: 255, b: 0, a: 255 };
    let out = overlay_colors(top, bottom);
    assert_eq!(out, Rgba { r: 255, g: 127, b: 0, a: 255 });
    // A fully opaque top covers the bottom completely.
    assert_eq!(overlay_colors(white(), bottom), white());
    // A fully transparent top leaves the bottom as it is.
    assert_eq!(overlay_colors(clear(), bottom), bottom);
}

#[test]
fn tolerance_mapping_guards_zero_and_follows_the_curve() {
    assert_eq!(map_tolerance(0), 0);
    assert_eq!(map_tolerance(1), 0);
    assert_eq!(map_tolerance(50), 88);
    assert_eq!(map_tolerance(100), 1262);
}

#[test]
fn flood_fill_scenario_covers_uniform_canvas() {
    // Scenario: a 4x4 uniformly white buffer flood-filled at (0,0) with
    // tolerance 0 repaints all 16 pixels and reports rect {0,0,4,4}.
    let mut pixels = vec![white(); 16];
    let mut tracker = flood_fill(4, 4, &mut pixels, 0, 0, black(), 0);
    assert_eq!(tracker.flush(), Some(Rect { x: 0, y: 0, w: 4, h: 4 }));
    for p in &pixels {
        assert_eq!(*p, black());
    }
}

#[test]
fn flood_fill_respects_connectivity() {
    // A white column at x == 2 splits the canvas: a fill seeded on the
    // left stops at it.
    let mut pixels = vec![clear(); 16];
    for y in 0..4usize {
        pixels[y * 4 + 2] = white();
    }
    flood_fill(4, 4, &mut pixels, 0, 0, black(), 0);
    for y in 0..4usize {
        assert_eq!(pixels[y * 4 + 0], black());
        assert_eq!(pixels[y * 4 + 1], black());
        assert_eq!(pixels[y * 4 + 2], white());
        assert_eq!(pixels[y * 4 + 3], clear());
    }
}

#[test]
fn flood_fill_twice_changes_nothing_more() {
    // Fill idempotence at exact-match tolerance: running the same fill a
    // second time leaves the buffer untouched.
    let mut pixels = vec![white(); 16];
    pixels[5] = black();
    flood_fill(4, 4, &mut pixels, 0, 0, Rgba { r: 9, g: 9, b: 9, a: 9 }, 0);
    let after_first = pixels.clone();
    flood_fill(4, 4, &mut pixels, 0, 0, Rgba { r: 9, g: 9, b: 9, a: 9 }, 0);
    assert_eq!(pixels, after_first);
}

#[test]
fn global_fill_ignores_connectivity() {
    let mut pixels = vec![clear(); 16];
    for y in 0..4usize {
        pixels[y * 4 + 2] = white();
    }
    // Seeded on a transparent pixel: every transparent pixel turns black,
    // connected or not; the white wall stays.
    global_fill(4, &mut pixels, 0, 0, black(), 0);
    for y in 0..4usize {
        for x in 0..4usize {
            if x == 2 {
                assert_eq!(pixels[y * 4 + x], white());
            } else {
                assert_eq!(pixels[y * 4 + x], black());
            }
        }
    }
}

#[test]
fn single_pixel_mask_draws_exactly_one_pixel() {
    // A size-1 brush at an in-bounds coordinate paints exactly that pixel.
    let mut c = Canvas::new(4, 4, String::from("dot")).unwrap();
    let stroke = Stroke::new(1);
    let brush = Brush;
    brush.draw_stroke(&stroke, 2, 1, None, None, &mut c.layers[0], white());
    let mut painted = 0;
    for y in 0..4u32 {
        for x in 0..4u32 {
            if c.layers[0].image.get_pixel(x, y) != clear() {
                painted += 1;
                assert_eq!((x, y), (2, 1));
                assert_eq!(c.layers[0].image.get_pixel(x, y), white());
            }
        }
    }
    assert_eq!(painted, 1);
}

#[test]
fn draw_line_paints_the_diagonal() {
    let mut c = Canvas::new(4, 4, String::from("line")).unwrap();
    let stroke = Stroke::new(1);
    plow::stroke::draw_line_image(&mut c.layers[0], white(), 0, 0, 3, 3, &stroke);
    for y in 0..4u32 {
        for x in 0..4u32 {
            if x == y {
                assert_eq!(c.layers[0].image.get_pixel(x, y), white());
            } else {
                assert_eq!(c.layers[0].image.get_pixel(x, y), clear());
            }
        }
    }
}

#[test]
fn mask_grows_with_brush_size() {
    let s1 = Stroke::new(1);
    assert_eq!(s1.pixels.len(), 1);
    assert_eq!(s1.pixels_offset, 0);
    let s4 = Stroke::new(4);
    // An even size keeps a grid of side size + 1 and biases the offset
    // toward the lower-left.
    assert_eq!(s4.pixels.len(), 5);
    assert_eq!(s4.pixels_offset, -2);
    // The center cell of any mask is active.
    assert!(s4.pixels[2][2]);
    // The corners of the grid lie outside the disk.
    assert!(!s4.pixels[0][0]);
    let mut s = s1;
    s.size = 3;
    s.update();
    assert_eq!(s.pixels.len(), 3);
    assert_eq!(s.pixels_offset, -1);
}

#[test]
fn brush_stroke_commits_on_release_and_undo_restores() {
    let mut c = Canvas::new(4, 4, String::from("paint")).unwrap();
    let settings = ToolsSettings::new();
    let brush = Brush;
    // Drag at (1, 1) with the left button held: the stroke lands on the
    // scratch layer only.
    let mut ctx = context_at(1, 1, true);
    ctx.pointer.left_down = true;
    brush.update(&mut c, &settings, &ctx);
    assert_eq!(c.layers[0].image.get_pixel(1, 1), clear());
    assert_eq!(c.current_changes.image.get_pixel(1, 1), black());
    // Release: the scratch pixels are composited onto the layer, logged as
    // a region snapshot, and the scratch is wiped.
    let mut ctx2 = context_at(1, 1, true);
    ctx2.pointer.left_released = true;
    let region = brush.update(&mut c, &settings, &ctx2);
    assert_eq!(region, Some(Rect { x: 1, y: 1, w: 1, h: 1 }));
    assert_eq!(c.layers[0].image.get_pixel(1, 1), black());
    assert_eq!(c.current_changes.image.get_pixel(1, 1), clear());
    assert_eq!(c.undo_history.len(), 1);
    // Undo restores the layer pixel.
    c.undo();
    assert_eq!(c.layers[0].image.get_pixel(1, 1), clear());
    assert!(c.undo_history.is_empty());
}

#[test]
fn abandoned_stroke_commits_nothing() {
    let mut c = Canvas::new(4, 4, String::from("idle")).unwrap();
    let settings = ToolsSettings::new();
    let brush = Brush;
    // A release with nothing drawn produces no undo entry and no region.
    let mut ctx = context_at(0, 0, true);
    ctx.pointer.left_released = true;
    let region = brush.update(&mut c, &settings, &ctx);
    assert_eq!(region, None);
    assert!(c.undo_history.is_empty());
}

#[test]
fn eraser_erases_marked_pixels_on_release() {
    let mut c = Canvas::new(4, 4, String::from("erase")).unwrap();
    for y in 0..4u32 {
        for x in 0..4u32 {
            c.layers[0].image.set_pixel(x, y, white());
        }
    }
    let settings = ToolsSettings::new();
    let eraser = Eraser { internal_brush: Brush };
    let mut ctx = context_at(2, 2, true);
    ctx.pointer.left_down = true;
    eraser.update(&mut c, &settings, &ctx);
    // Still untouched: the mark sits on the scratch layer.
    assert_eq!(c.layers[0].image.get_pixel(2, 2), white());
    let mut ctx2 = context_at(2, 2, true);
    ctx2.pointer.left_released = true;
    eraser.update(&mut c, &settings, &ctx2);
    assert_eq!(c.layers[0].image.get_pixel(2, 2), clear());
    assert_eq!(c.layers[0].image.get_pixel(1, 1), white());
    // Undo brings the erased pixel back.
    c.undo();
    assert_eq!(c.layers[0].image.get_pixel(2, 2), white());
}

#[test]
fn bucket_fill_logs_whole_layer_and_undo_restores() {
    let mut c = Canvas::new(4, 4, String::from("bucket")).unwrap();
    for y in 0..4u32 {
        for x in 0..4u32 {
            c.layers[0].image.set_pixel(x, y, white());
        }
    }
    let settings = ToolsSettings::new();
    let bucket = Bucket;
    let mut ctx = context_at(0, 0, true);
    ctx.pointer.left_pressed = true;
    let region = bucket.update(&mut c, &settings, &ctx);
    assert_eq!(region, Some(Rect { x: 0, y: 0, w: 4, h: 4 }));
    assert_eq!(c.layers[0].image.get_pixel(3, 3), black());
    assert_eq!(c.undo_history.len(), 1);
    c.undo();
    assert_eq!(c.layers[0].image.get_pixel(3, 3), white());
}

#[test]
fn bucket_outside_canvas_is_a_noop() {
    let mut c = Canvas::new(4, 4, String::from("bucket")).unwrap();
    let settings = ToolsSettings::new();
    let bucket = Bucket;
    let mut ctx = context_at(9, 9, false);
    ctx.pointer.left_pressed = true;
    let region = bucket.update(&mut c, &settings, &ctx);
    assert_eq!(region, None);
    assert!(c.undo_history.is_empty());
}

#[test]
fn color_picker_reads_the_layer() {
    let mut c = Canvas::new(4, 4, String::from("pick")).unwrap();
    let red = Rgba { r: 250, g: 1, b: 2, a: 255 };
    c.layers[0].image.set_pixel(3, 0, red);
    let picker = ColorPicker;
    let mut ctx = context_at(3, 0, true);
    ctx.pointer.left_pressed = true;
    assert_eq!(picker.update(&c, &ctx), Some(red));
    let ctx2 = context_at(3, 0, true);
    assert_eq!(picker.update(&c, &ctx2), None);
}

#[test]
fn scenario_layer_count_recovers() {
    // Part of the scenario: new_layer then delete_layer restores the
    // count to one and a valid current index.
    let mut c = Canvas::new(4, 4, String::from("scenario")).unwrap();
    c.new_layer();
    c.delete_layer();
    assert_eq!(c.layers.len(), 1);
    assert!(c.current_layer < c.layers.len());
}

#[test]
fn tool_list_is_the_fixed_four() {
    let tools = get_tools();
    assert_eq!(tools.len(), 4);
    assert!(matches!(tools[0], ToolKind::Brush));
    assert!(matches!(tools[1], ToolKind::Eraser));
    assert!(matches!(tools[2], ToolKind::Bucket));
    assert!(matches!(tools[3], ToolKind::ColorPicker));
    assert_eq!(tools[0].name(), "brush");
    assert_eq!(tools[3].name(), "color picker");
}
