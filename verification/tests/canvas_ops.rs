use plow::canvas::Canvas;
use plow::canvas::CanvasError;
use plow::color::Rgba;
use plow::raster::gen_empty_image;
use plow::raster::image_from_rgba_bytes;
use plow::rect::Rect;

fn white() -> Rgba {
    Rgba { r: 255, g: 255, b: 255, a: 255 }
}

fn canvas4x4() -> Canvas {
    Canvas::new(4, 4, String::from("scene")).unwrap()
}

#[test]
fn new_canvas_has_one_background_layer() {
    let c = canvas4x4();
    assert_eq!(c.layers.len(), 1);
    assert_eq!(c.layers[0].name, "background");
    assert_eq!(c.current_layer, 0);
    assert!(c.undo_history.is_empty());
    assert!(!c.is_modified());
    for y in 0..4u32 {
        for x in 0..4u32 {
            assert_eq!(c.layers[0].image.get_pixel(x, y), Rgba { r: 0, g: 0, b: 0, a: 0 });
        }
    }
}

#[test]
fn oversized_dimension_is_rejected() {
    // One dimension over 32768 fails, whatever the area.
    assert!(matches!(Canvas::new(32769, 1, String::from("big")), Err(CanvasError::TooBig)));
    // The area limit of 1073676289 pixels is enforced too: this area is
    // over it while both dimensions pass the per-dimension check.
    assert!(matches!(Canvas::new(32768, 32767, String::from("big")), Err(CanvasError::TooBig)));
    // At the dimension boundary itself construction succeeds.
    let ok = Canvas::new(32768, 1, String::from("thin"));
    assert!(ok.is_ok());
    let msg = CanvasError::TooBig.message();
    assert!(msg.contains("32768"));
    assert!(msg.contains("1073676289"));
}

#[test]
fn from_image_rejects_oversized_without_replacing_anything() {
    let img = gen_empty_image(5, 3);
    let c = Canvas::from_image(img, String::from("imported")).unwrap();
    assert_eq!(c.width, 5);
    assert_eq!(c.height, 3);
    assert_eq!(c.layers[0].name, "background");
}

#[test]
fn new_layer_generates_fresh_names() {
    let mut c = canvas4x4();
    c.new_layer();
    assert_eq!(c.layers.len(), 2);
    assert_eq!(c.layers[c.current_layer].name, "layer 2");
    c.new_layer();
    assert_eq!(c.layers.len(), 3);
    assert_eq!(c.layers[c.current_layer].name, "layer 3");
}

#[test]
fn new_layer_then_undo_restores_stack() {
    let mut c = canvas4x4();
    c.layers[0].image.set_pixel(1, 1, white());
    c.new_layer();
    assert_eq!(c.layers.len(), 2);
    c.undo();
    assert_eq!(c.layers.len(), 1);
    assert_eq!(c.layers[0].name, "background");
    assert_eq!(c.layers[0].image.get_pixel(1, 1), white());
    assert!(c.undo_history.is_empty());
    assert_eq!(c.current_layer, 0);
}

#[test]
fn duplicate_layer_then_undo_restores_stack() {
    let mut c = canvas4x4();
    c.layers[0].image.set_pixel(2, 3, white());
    c.duplicate_layer();
    assert_eq!(c.layers.len(), 2);
    // The duplicate carries the source pixels under a fresh name.
    assert_eq!(c.layers[0].image.get_pixel(2, 3), white());
    assert_eq!(c.layers[0].name, "layer 2");
    c.undo();
    assert_eq!(c.layers.len(), 1);
    assert_eq!(c.layers[0].name, "background");
    assert_eq!(c.layers[0].image.get_pixel(2, 3), white());
}

#[test]
fn delete_layer_then_undo_restores_names_and_pixels() {
    let mut c = canvas4x4();
    c.new_layer();
    c.layers[c.current_layer].image.set_pixel(0, 0, white());
    let name_before = c.layers[c.current_layer].name.clone();
    c.delete_layer();
    assert_eq!(c.layers.len(), 1);
    c.undo();
    assert_eq!(c.layers.len(), 2);
    assert_eq!(c.layers[0].name, name_before);
    assert_eq!(c.layers[0].image.get_pixel(0, 0), white());
    assert_eq!(c.layers[1].name, "background");
}

#[test]
fn delete_last_layer_is_a_noop() {
    let mut c = canvas4x4();
    c.delete_layer();
    assert_eq!(c.layers.len(), 1);
    assert!(c.undo_history.is_empty());
}

#[test]
fn delete_backmost_layer_steps_current_back() {
    let mut c = canvas4x4();
    c.new_layer();
    // Select the backmost layer and delete it.
    c.current_layer = 1;
    c.delete_layer();
    assert_eq!(c.layers.len(), 1);
    assert_eq!(c.current_layer, 0);
}

#[test]
fn merge_layers_down_composites_and_undo_restores() {
    let mut c = canvas4x4();
    c.new_layer();
    // Front layer gets an opaque red pixel; back layer an opaque white one
    // somewhere else.
    let red = Rgba { r: 255, g: 0, b: 0, a: 255 };
    c.layers[0].image.set_pixel(0, 0, red);
    c.layers[1].image.set_pixel(3, 3, white());
    let front_name = c.layers[0].name.clone();
    c.merge_layers_down();
    assert_eq!(c.layers.len(), 1);
    assert_eq!(c.layers[0].name, "background");
    assert_eq!(c.layers[0].image.get_pixel(0, 0), red);
    assert_eq!(c.layers[0].image.get_pixel(3, 3), white());
    c.undo();
    assert_eq!(c.layers.len(), 2);
    assert_eq!(c.layers[0].name, front_name);
    assert_eq!(c.layers[0].image.get_pixel(0, 0), red);
    assert_eq!(c.layers[0].image.get_pixel(3, 3), Rgba { r: 0, g: 0, b: 0, a: 0 });
    assert_eq!(c.layers[1].image.get_pixel(3, 3), white());
    assert_eq!(c.layers[1].image.get_pixel(0, 0), Rgba { r: 0, g: 0, b: 0, a: 0 });
}

#[test]
fn merge_backmost_layer_is_a_noop() {
    let mut c = canvas4x4();
    c.merge_layers_down();
    assert_eq!(c.layers.len(), 1);
    assert!(c.undo_history.is_empty());
}

#[test]
fn merge_transparent_front_leaves_back_unchanged() {
    // Part of the scenario: merging a fully transparent front layer onto
    // the back layer leaves the back layer's pixels as they were.
    let mut c = canvas4x4();
    for y in 0..4u32 {
        for x in 0..4u32 {
            c.layers[0].image.set_pixel(x, y, white());
        }
    }
    c.new_layer();
    assert_eq!(c.layers.len(), 2);
    c.merge_layers_down();
    assert_eq!(c.layers.len(), 1);
    for y in 0..4u32 {
        for x in 0..4u32 {
            assert_eq!(c.layers[0].image.get_pixel(x, y), white());
        }
    }
}

#[test]
fn rename_layer_then_undo_restores_name() {
    let mut c = canvas4x4();
    c.rename_layer(String::from("sky"));
    assert_eq!(c.layers[0].name, "sky");
    c.undo();
    assert_eq!(c.layers[0].name, "background");
}

#[test]
fn undo_with_empty_history_does_nothing() {
    let mut c = canvas4x4();
    c.undo();
    assert_eq!(c.layers.len(), 1);
    assert_eq!(c.layers[0].name, "background");
}

#[test]
fn flatten_opaque_front_layer_wins() {
    // Flattening a 3-layer canvas whose frontmost layer is fully opaque
    // yields exactly that layer's pixels, whatever lies behind.
    let mut c = canvas4x4();
    c.new_layer();
    c.new_layer();
    assert_eq!(c.layers.len(), 3);
    let red = Rgba { r: 200, g: 10, b: 30, a: 255 };
    for y in 0..4u32 {
        for x in 0..4u32 {
            c.layers[0].image.set_pixel(x, y, red);
            c.layers[1].image.set_pixel(x, y, Rgba { r: 1, g: 2, b: 3, a: 200 });
            c.layers[2].image.set_pixel(x, y, white());
        }
    }
    let flat = c.to_image();
    for y in 0..4u32 {
        for x in 0..4u32 {
            assert_eq!(flat.get_pixel(x, y), red);
        }
    }
}

#[test]
fn export_clears_modified_flags() {
    let mut c = canvas4x4();
    c.layers[0].image.set_pixel(0, 0, white());
    c.layers[0].modified = true;
    assert!(c.is_modified());
    let flat = c.export();
    assert!(!c.is_modified());
    assert_eq!(flat.get_pixel(0, 0), white());
    assert_eq!(flat.width(), 4);
    assert_eq!(flat.height(), 4);
}

#[test]
fn is_modified_sees_layer_edits() {
    let mut c = canvas4x4();
    assert!(!c.is_modified());
    c.layers[0].set_pixel(1, 2, white());
    assert!(c.is_modified());
}

#[test]
fn get_new_canvas_name_probes_upward() {
    let c1 = Canvas::new(2, 2, String::from("untitled 2")).unwrap();
    let canvases = vec![c1];
    let name = plow::canvas::get_new_canvas_name(&canvases);
    assert_eq!(name, "untitled 3");
}

#[test]
fn new_layer_name_skips_taken_numbers() {
    // If a layer already carries the first candidate name, the probe
    // steps past it.
    let mut c = canvas4x4();
    c.rename_layer(String::from("layer 2"));
    c.new_layer();
    assert_eq!(c.layers[c.current_layer].name, "layer 3");
}

#[test]
fn flush_texture_reports_and_clears_the_dirty_rect() {
    let mut c = canvas4x4();
    assert_eq!(c.layers[0].flush_texture(), None);
    c.layers[0].set_pixel(1, 2, white());
    c.layers[0].set_pixel(3, 0, white());
    assert_eq!(c.layers[0].flush_texture(), Some(Rect { x: 1, y: 0, w: 3, h: 3 }));
    assert_eq!(c.layers[0].flush_texture(), None);
}

#[test]
fn byte_round_trip_preserves_pixels() {
    let mut c = canvas4x4();
    c.layers[0].image.set_pixel(2, 1, Rgba { r: 10, g: 20, b: 30, a: 40 });
    let bytes = c.layers[0].image.to_rgba_bytes();
    assert_eq!(bytes.len(), 64);
    let back = image_from_rgba_bytes(4, 4, &bytes).unwrap();
    for y in 0..4u32 {
        for x in 0..4u32 {
            assert_eq!(back.get_pixel(x, y), c.layers[0].image.get_pixel(x, y));
        }
    }
    // A byte count that does not match the dimensions is refused.
    assert!(image_from_rgba_bytes(4, 4, &vec![0u8; 63]).is_none());
}
