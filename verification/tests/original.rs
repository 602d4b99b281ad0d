use picpatcher::batch::{BatchOptions, OutputMode};
use picpatcher::compose::{apply_to_image, PixelBuffer, Rgba};
use picpatcher::config::{Config, CONFIG_VERSION};
use picpatcher::{output_path_for, parse_extensions};

#[test]
fn parse_extensions_normalizes_values() {
    assert_eq!(
        parse_extensions(" jpg, .PNG,,WebP "),
        vec!["jpg", "png", "webp"]
    );
}

#[test]
fn output_path_mirrors_relative_structure() {
    let opts = BatchOptions {
        input_dir: "C:/photos".to_string(),
        extensions: BatchOptions::default_extensions(),
        recursive: true,
        output: OutputMode::Sibling {
            dir_name: "_modified".to_string(),
        },
    };

    assert_eq!(
        output_path_for("C:/photos/a/b/image.jpg", &opts),
        "C:/photos/_modified/a/b/image.jpg".to_string()
    );
}

#[test]
fn output_path_in_place_returns_input_path() {
    let opts = BatchOptions {
        input_dir: "C:/photos".to_string(),
        extensions: BatchOptions::default_extensions(),
        recursive: true,
        output: OutputMode::InPlace,
    };
    let input = "C:/photos/image.jpg";
    assert_eq!(output_path_for(input, &opts), input);
}

#[test]
fn apply_to_image_replaces_opaque_overlay_pixels() {
    let mut base = PixelBuffer::from_pixel(4, 4, Rgba::new(0, 0, 0, 255));
    let overlay = PixelBuffer::from_pixel(2, 2, Rgba::new(255, 0, 0, 255));

    apply_to_image(&mut base, &overlay, 1, 1);
    let out = base;

    assert_eq!(out.get_pixel(0, 0), Rgba::new(0, 0, 0, 255));
    assert_eq!(out.get_pixel(1, 1), Rgba::new(255, 0, 0, 255));
    assert_eq!(out.get_pixel(2, 2), Rgba::new(255, 0, 0, 255));
}

#[test]
fn apply_to_image_clips_overlay_outside_bounds() {
    let mut base = PixelBuffer::from_pixel(2, 2, Rgba::new(0, 0, 0, 255));
    let overlay = PixelBuffer::from_pixel(2, 2, Rgba::new(0, 255, 0, 255));

    apply_to_image(&mut base, &overlay, -1, -1);
    let out = base;

    assert_eq!(out.get_pixel(0, 0), Rgba::new(0, 255, 0, 255));
    assert_eq!(out.get_pixel(1, 1), Rgba::new(0, 0, 0, 255));
}

#[test]
fn resolves_relative_overlay_against_config_dir() {
    let cfg = Config {
        version: CONFIG_VERSION,
        overlay: "stamps/date.png".to_string(),
        x: 10,
        y: 20,
    };

    assert_eq!(
        cfg.resolve_overlay("C:/project/config/picpatcher.json"),
        "C:/project/config/stamps/date.png".to_string()
    );
}

#[test]
fn keeps_absolute_overlay_path() {
    let overlay = "C:/assets/date.png".to_string();
    let cfg = Config {
        version: CONFIG_VERSION,
        overlay: overlay.clone(),
        x: 10,
        y: 20,
    };

    assert_eq!(cfg.resolve_overlay("C:/project/config.json"), overlay);
}
