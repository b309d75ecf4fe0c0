// ---------- RenderConfig / DPI math ---------------------------------------
//
// Pixel dimensions are `points / 72 * dpi`, computed in floating point by
// the rendering program around the library.

use pdf_to_image::args::RenderConfig;

#[test]
fn dpi_pixel_math_150() {
    // US Letter: 612 × 792 pt at 150 DPI → 1275 × 1650 px
    let dpi: f32 = 150.0;
    let width_pts: f32 = 612.0;
    let height_pts: f32 = 792.0;

    let px_w = (width_pts / 72.0 * dpi) as i32;
    let px_h = (height_pts / 72.0 * dpi) as i32;

    assert_eq!(px_w, 1275);
    assert_eq!(px_h, 1650);
}

#[test]
fn dpi_pixel_math_300() {
    // US Letter: 612 × 792 pt at 300 DPI → 2550 × 3300 px
    let dpi: f32 = 300.0;
    let width_pts: f32 = 612.0;
    let height_pts: f32 = 792.0;

    let px_w = (width_pts / 72.0 * dpi) as i32;
    let px_h = (height_pts / 72.0 * dpi) as i32;

    assert_eq!(px_w, 2550);
    assert_eq!(px_h, 3300);
}

#[test]
fn dpi_pixel_math_72() {
    // At 72 DPI, pixel dimensions equal point dimensions
    let dpi: f32 = 72.0;
    let width_pts: f32 = 612.0;
    let height_pts: f32 = 792.0;

    let px_w = (width_pts / 72.0 * dpi) as i32;
    let px_h = (height_pts / 72.0 * dpi) as i32;

    assert_eq!(px_w, 612);
    assert_eq!(px_h, 792);
}

#[test]
fn dpi_from_config_in_pixel_math() {
    let config = RenderConfig { dpi: 300 };
    let px_w = (612.0f32 / 72.0 * config.dpi as f32) as i32;
    assert_eq!(px_w, 2550);
}
