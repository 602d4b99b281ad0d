use picpatcher::batch::{
    collect_files, extension_entries, keep_nonempty, matches_extension, output_path_for,
    parse_extensions, plan_batch, BatchOptions, BatchSummary, OutputMode,
};
use picpatcher::compose::{apply_to_image, PixelBuffer, Rgba};
use picpatcher::config::{overlay_path_to_save, Config, ConfigError, CONFIG_VERSION};
use picpatcher::editor::{
    can_run, clamp_overlay_position, nudge_delta, nudge_overlay, run_start_status,
    save_asks_for_target,
    ImageSize, OverlayPlacement, Tab,
};
use picpatcher::fonts::cjk_font_candidates;
use picpatcher::format::{output_format, FormatName, SaveError, SaveKind, JPEG_QUALITY};
use picpatcher::path::{
    is_absolute_path, join_path, parent_dir_to_create, parent_path, path_extension,
    pathdiff_relative, strip_path_prefix,
};

fn strings(v: &[&str]) -> Vec<String> {
    v.iter().map(|s| s.to_string()).collect()
}

fn sibling(dir: &str, name: &str) -> BatchOptions {
    BatchOptions {
        input_dir: dir.to_string(),
        extensions: BatchOptions::default_extensions(),
        recursive: true,
        output: OutputMode::Sibling { dir_name: name.to_string() },
    }
}

// ---- paths ----

#[test]
fn join_inserts_one_separator() {
    assert_eq!(join_path("a", "b"), "a/b");
    assert_eq!(join_path("a/", "b"), "a/b");
    assert_eq!(join_path("", "b"), "b");
    assert_eq!(join_path("a", ""), "a/");
}

#[test]
fn join_with_absolute_replaces() {
    assert_eq!(join_path("a/b", "/x"), "/x");
    assert_eq!(join_path("a/b", "D:\\x"), "D:\\x");
    assert_eq!(join_path("C:/a", "/x"), "C:/x");
    assert_eq!(join_path("C:/a", "D:/x"), "D:/x");
}

#[test]
fn absolute_paths_are_rooted_or_drive_rooted() {
    assert!(is_absolute_path("/usr"));
    assert!(is_absolute_path("C:/x"));
    assert!(is_absolute_path("c:\\x"));
    assert!(!is_absolute_path("C:x"));
    assert!(!is_absolute_path("rel/x"));
    assert!(!is_absolute_path(""));
}

#[test]
fn parent_drops_last_component() {
    assert_eq!(parent_path("C:/project/config.json"), Some("C:/project".to_string()));
    assert_eq!(parent_path("foo"), Some("".to_string()));
    assert_eq!(parent_path("/foo"), Some("/".to_string()));
    assert_eq!(parent_path("a//b"), Some("a".to_string()));
    assert_eq!(parent_path("a/b/"), Some("a".to_string()));
    assert_eq!(parent_path("/"), None);
    assert_eq!(parent_path("C:/"), None);
    assert_eq!(parent_path(""), None);
}

#[test]
fn strip_prefix_is_by_component() {
    assert_eq!(strip_path_prefix("C:/photos/a/b.jpg", "C:/photos"), Some("a/b.jpg".to_string()));
    assert_eq!(strip_path_prefix("C:/photos/a/b.jpg", "C:/photos/"), Some("a/b.jpg".to_string()));
    assert_eq!(strip_path_prefix("C:/photos", "C:/photos"), Some("".to_string()));
    assert_eq!(strip_path_prefix("C:/photosX/a", "C:/photos"), None);
    assert_eq!(strip_path_prefix("/a/b", "/"), Some("a/b".to_string()));
    assert_eq!(strip_path_prefix("x/y", ""), Some("x/y".to_string()));
}

#[test]
fn extension_follows_last_dot_of_name() {
    assert_eq!(path_extension("a/b/photo.JPG"), Some("JPG".to_string()));
    assert_eq!(path_extension("a/b.c/photo"), None);
    assert_eq!(path_extension(".bashrc"), None);
    assert_eq!(path_extension("archive.tar.gz"), Some("gz".to_string()));
    assert_eq!(path_extension("name."), Some("".to_string()));
    assert_eq!(path_extension("dir/.."), None);
}

#[test]
fn dir_to_create_is_nonempty_parent() {
    assert_eq!(parent_dir_to_create("out/a/b.png"), Some("out/a".to_string()));
    assert_eq!(parent_dir_to_create("b.png"), None);
}

#[test]
fn relative_path_between_directories() {
    assert_eq!(
        pathdiff_relative("/home/u/stamps/date.png", "/home/u/configs"),
        Some("../stamps/date.png".to_string())
    );
    assert_eq!(
        pathdiff_relative("/home/u/date.png", "/home/u"),
        Some("date.png".to_string())
    );
    assert_eq!(pathdiff_relative("C:/a/x.png", "D:/a"), None);
    assert_eq!(pathdiff_relative("/a/b", "/a/b/c/d"), Some("../../".to_string()));
}

// ---- config ----

#[test]
fn default_config_values() {
    let c = Config::default();
    assert_eq!(c.version, CONFIG_VERSION);
    assert_eq!(c.overlay, "overlay.png");
    assert_eq!((c.x, c.y), (0, 0));
}

#[test]
fn check_version_accepts_v1_and_refuses_others() {
    let ok = Config { version: 1, overlay: "o.png".to_string(), x: 1, y: 2 };
    assert!(ok.check_version().is_ok());
    let bad = Config { version: 2, overlay: "o.png".to_string(), x: 1, y: 2 };
    assert_eq!(
        bad.check_version().unwrap_err(),
        ConfigError::UnsupportedVersion { found: 2, expected: 1 }
    );
}

#[test]
fn resolve_overlay_with_bare_config_name() {
    let cfg = Config { version: 1, overlay: "o.png".to_string(), x: 0, y: 0 };
    assert_eq!(cfg.resolve_overlay("picpatcher.json"), "o.png");
    assert_eq!(cfg.resolve_overlay("/"), "o.png");
}

// ---- batch ----

#[test]
fn default_extension_list() {
    assert_eq!(
        BatchOptions::default_extensions(),
        strings(&["jpg", "jpeg", "png", "webp", "bmp"])
    );
    match OutputMode::default() {
        OutputMode::Sibling { dir_name } => assert_eq!(dir_name, "_modified"),
        OutputMode::InPlace => panic!("default must be a sibling directory"),
    }
}

#[test]
fn parse_extensions_lowercases_unicode_and_trims_unicode_space() {
    assert_eq!(parse_extensions("\u{3000}.ÄB\u{a0},..x"), strings(&["äb", "x"]));
    assert_eq!(parse_extensions(""), Vec::<String>::new());
    assert_eq!(parse_extensions(" , . ,"), Vec::<String>::new());
}

#[test]
fn extension_matching_ignores_ascii_case() {
    let exts = strings(&["jpg", "png"]);
    assert!(matches_extension("a/B.JPG", &exts));
    assert!(matches_extension("c.Png", &exts));
    assert!(!matches_extension("c.gif", &exts));
    assert!(!matches_extension("noext", &exts));
}

#[test]
fn collect_files_keeps_order_and_filters() {
    let opts = sibling("in", "_m");
    let walked = strings(&["in/a.jpg", "in/b.txt", "in/s/c.PNG", "in/.webp", "in/d.bmp"]);
    assert_eq!(collect_files(&opts, &walked), strings(&["in/a.jpg", "in/s/c.PNG", "in/d.bmp"]));
}

#[test]
fn plan_batch_pairs_inputs_with_outputs() {
    let opts = sibling("in", "_m");
    let walked = strings(&["in/a.jpg", "in/b.txt", "in/s/c.png"]);
    let plan = plan_batch(&opts, &walked);
    assert_eq!(plan.len(), 2);
    assert_eq!(plan[0].input, "in/a.jpg");
    assert_eq!(plan[0].output, "in/_m/a.jpg");
    assert_eq!(plan[1].input, "in/s/c.png");
    assert_eq!(plan[1].output, "in/_m/s/c.png");
}

#[test]
fn output_for_file_outside_input_dir() {
    let opts = sibling("in", "_m");
    assert_eq!(output_path_for("other/x.jpg", &opts), "in/_m/other/x.jpg");
    assert_eq!(output_path_for("/abs/x.jpg", &opts), "in/_m/abs/x.jpg");
    assert_eq!(output_path_for("C:\\abs\\x.jpg", &opts), "in/_m/abs\\x.jpg");
}

#[test]
fn copy_mode_output_differs_from_input() {
    let opts = sibling("C:/photos/", "_modified");
    for input in [
        "C:/photos/x.jpg",
        "C:/photos//x.jpg",
        "C:/photos/a/b.png",
        "C:/photos",
        "/elsewhere/x.jpg",
        "C:/photos/_modified/x.jpg",
    ] {
        assert_ne!(output_path_for(input, &opts), input);
    }
}

#[test]
fn copy_mode_distinct_files_distinct_outputs() {
    let opts = sibling("p", "o");
    let a = output_path_for("p/a/x.jpg", &opts);
    let b = output_path_for("p/ax.jpg", &opts);
    assert_ne!(a, b);
}

#[test]
fn copy_mode_output_mirrors_relative_path() {
    let opts = sibling("C:/photos", "_modified");
    let out = output_path_for("C:/photos/a/b/image.jpg", &opts);
    assert_eq!(
        strip_path_prefix(&out, &join_path("C:/photos", "_modified")),
        strip_path_prefix("C:/photos/a/b/image.jpg", "C:/photos")
    );
}

#[test]
fn options_from_settings() {
    let o = BatchOptions::from_settings("in".to_string(), None, true, false, "_x".to_string());
    assert_eq!(o.extensions, BatchOptions::default_extensions());
    assert!(o.recursive);
    assert!(matches!(o.output, OutputMode::Sibling { ref dir_name } if dir_name == "_x"));
    let o = BatchOptions::from_settings("in".to_string(), Some("GIF"), false, true, "_x".to_string());
    assert_eq!(o.extensions, strings(&["gif"]));
    assert!(matches!(o.output, OutputMode::InPlace));
}

#[test]
fn summary_counts_every_file() {
    let results = vec![
        ("a".to_string(), None),
        ("b".to_string(), Some("bad".to_string())),
        ("c".to_string(), None),
        ("d".to_string(), Some("worse".to_string())),
    ];
    let s = BatchSummary::from_results(&results);
    assert_eq!(s.total, 4);
    assert_eq!(s.succeeded, 2);
    assert_eq!(s.failed, 2);
    assert_eq!(s.succeeded + s.failed, s.total);
    assert_eq!(
        s.errors,
        vec![("b".to_string(), "bad".to_string()), ("d".to_string(), "worse".to_string())]
    );
}

// ---- compose ----

#[test]
fn rgba_bytes_round_trip() {
    let bytes: Vec<u8> = (0u8..24).collect();
    let img = PixelBuffer::from_rgba_bytes(3, 2, &bytes).unwrap();
    assert_eq!(img.width(), 3);
    assert_eq!(img.height(), 2);
    assert_eq!(img.get_pixel(1, 1), Rgba::new(16, 17, 18, 19));
    assert_eq!(img.to_rgba_bytes(), bytes);
    assert!(PixelBuffer::from_rgba_bytes(3, 2, &bytes[..20].to_vec()).is_none());
    assert!(PixelBuffer::from_rgba_bytes(2, 2, &bytes).is_none());
}

#[test]
fn partial_alpha_blends_by_formula() {
    let mut base = PixelBuffer::from_pixel(1, 1, Rgba::new(0, 0, 255, 255));
    let ov = PixelBuffer::from_pixel(1, 1, Rgba::new(200, 100, 0, 128));
    apply_to_image(&mut base, &ov, 0, 0);
    // (200*128 + 0*127)/255 = 100, (100*128)/255 = 50, (255*127)/255 = 127, 128 + 255*127/255 = 255
    assert_eq!(base.get_pixel(0, 0), Rgba::new(100, 50, 127, 255));
}

#[test]
fn partial_alpha_over_transparent_base() {
    let mut base = PixelBuffer::from_pixel(1, 1, Rgba::new(10, 20, 30, 0));
    let ov = PixelBuffer::from_pixel(1, 1, Rgba::new(250, 250, 250, 51));
    apply_to_image(&mut base, &ov, 0, 0);
    // the base contributes no colour: it has no alpha
    assert_eq!(base.get_pixel(0, 0), Rgba::new(250, 250, 250, 51));
}

#[test]
fn half_alpha_white_over_transparent_stays_white() {
    let mut base = PixelBuffer::from_pixel(1, 1, Rgba::new(0, 0, 0, 0));
    let ov = PixelBuffer::from_pixel(1, 1, Rgba::new(255, 255, 255, 128));
    apply_to_image(&mut base, &ov, 0, 0);
    assert_eq!(base.get_pixel(0, 0), Rgba::new(255, 255, 255, 128));
}

#[test]
fn partial_alpha_over_partial_alpha_base() {
    let mut base = PixelBuffer::from_pixel(1, 1, Rgba::new(0, 0, 200, 128));
    let ov = PixelBuffer::from_pixel(1, 1, Rgba::new(200, 0, 0, 128));
    apply_to_image(&mut base, &ov, 0, 0);
    // weights 128*255 = 32640 and 128*127 = 16256: r = 200*32640/48896 = 133,
    // b = 200*16256/48896 = 66; alpha 128 + 128*127/255 = 191
    assert_eq!(base.get_pixel(0, 0), Rgba::new(133, 0, 66, 191));
}

#[test]
fn binary_alpha_overlay_twice_same_as_once() {
    let mut once = PixelBuffer::from_pixel(3, 1, Rgba::new(5, 6, 7, 100));
    let bytes: Vec<u8> = vec![9, 9, 9, 0, 1, 2, 3, 255];
    let ov = PixelBuffer::from_rgba_bytes(2, 1, &bytes).unwrap();
    apply_to_image(&mut once, &ov, 1, 0);
    let mut twice = PixelBuffer::from_rgba_bytes(3, 1, &once.to_rgba_bytes()).unwrap();
    apply_to_image(&mut twice, &ov, 1, 0);
    assert_eq!(once.to_rgba_bytes(), twice.to_rgba_bytes());
    assert_eq!(once.get_pixel(1, 0), Rgba::new(5, 6, 7, 100));
    assert_eq!(once.get_pixel(2, 0), Rgba::new(1, 2, 3, 255));
}

#[test]
fn transparent_overlay_changes_nothing() {
    let mut base = PixelBuffer::from_pixel(3, 3, Rgba::new(1, 2, 3, 4));
    let ov = PixelBuffer::from_pixel(2, 2, Rgba::new(9, 9, 9, 0));
    apply_to_image(&mut base, &ov, 1, 0);
    assert_eq!(base.to_rgba_bytes(), PixelBuffer::from_pixel(3, 3, Rgba::new(1, 2, 3, 4)).to_rgba_bytes());
}

#[test]
fn opaque_overlay_twice_same_as_once() {
    let mut once = PixelBuffer::from_pixel(4, 3, Rgba::new(5, 5, 5, 200));
    let ov = PixelBuffer::from_pixel(2, 2, Rgba::new(7, 8, 9, 255));
    apply_to_image(&mut once, &ov, 2, 2);
    let mut twice = PixelBuffer::from_rgba_bytes(4, 3, &once.to_rgba_bytes()).unwrap();
    apply_to_image(&mut twice, &ov, 2, 2);
    assert_eq!(once.to_rgba_bytes(), twice.to_rgba_bytes());
    assert_eq!(once.get_pixel(3, 2), Rgba::new(7, 8, 9, 255));
    assert_eq!(once.get_pixel(1, 2), Rgba::new(5, 5, 5, 200));
}

#[test]
fn blending_keeps_opaque_base_opaque_and_never_lowers_alpha() {
    for oa in [1u8, 64, 128, 254] {
        let mut base = PixelBuffer::from_pixel(1, 1, Rgba::new(40, 80, 120, 255));
        let ov = PixelBuffer::from_pixel(1, 1, Rgba::new(200, 10, 120, oa));
        apply_to_image(&mut base, &ov, 0, 0);
        let p = base.get_pixel(0, 0);
        assert_eq!(p.a, 255);
        assert!(p.r >= 40 && p.r <= 200);
        assert!(p.g >= 10 && p.g <= 80);
        assert_eq!(p.b, 120);
        let mut light = PixelBuffer::from_pixel(1, 1, Rgba::new(0, 0, 0, 30));
        apply_to_image(&mut light, &ov, 0, 0);
        let q = light.get_pixel(0, 0);
        assert!(q.a >= oa && q.a >= 30);
    }
}

#[test]
fn overlay_entirely_outside_leaves_base() {
    let mut base = PixelBuffer::from_pixel(2, 2, Rgba::new(0, 0, 0, 255));
    let ov = PixelBuffer::from_pixel(2, 2, Rgba::new(255, 255, 255, 255));
    apply_to_image(&mut base, &ov, 5, -7);
    assert_eq!(base.to_rgba_bytes(), PixelBuffer::from_pixel(2, 2, Rgba::new(0, 0, 0, 255)).to_rgba_bytes());
    apply_to_image(&mut base, &ov, -2, 0);
    assert_eq!(base.get_pixel(0, 0), Rgba::new(0, 0, 0, 255));
}

// ---- formats ----

#[test]
fn output_format_by_extension() {
    assert_eq!(output_format("out/a.JPG"), Ok(SaveKind::Jpeg { quality: 95 }));
    assert_eq!(output_format("out/a.jfif"), Ok(SaveKind::Jpeg { quality: 95 }));
    assert_eq!(output_format("out/a.png"), Ok(SaveKind::Other(FormatName::Png)));
    assert_eq!(output_format("out/a.Webp"), Ok(SaveKind::Other(FormatName::WebP)));
    assert_eq!(output_format("out/a.bmp"), Ok(SaveKind::Other(FormatName::Bmp)));
    assert_eq!(output_format("out/a.TIF"), Ok(SaveKind::Other(FormatName::Tiff)));
    assert_eq!(output_format("out/a"), Err(SaveError::UnknownFormat));
    assert_eq!(output_format("out/a.xyz"), Err(SaveError::UnknownFormat));
    assert_eq!(JPEG_QUALITY, 95);
}

// ---- editor ----

#[test]
fn clamp_keeps_overlay_partly_on_base() {
    assert_eq!(clamp_overlay_position(500, -500, 100, 80, 10, 20), (99, -19));
    assert_eq!(clamp_overlay_position(5, 6, 100, 80, 10, 20), (5, 6));
    assert_eq!(clamp_overlay_position(-9, -19, 100, 80, 10, 20), (-9, -19));
}

#[test]
fn nudge_steps() {
    assert_eq!(nudge_delta(false, true, false, false, true), (-1, 1));
    assert_eq!(nudge_delta(true, false, true, true, false), (10, -10));
    assert_eq!(nudge_delta(true, true, true, false, false), (0, 0));
    assert_eq!(nudge_overlay((3, 3), (0, 0), 2, 2, 1, 1), (3, 3));
    assert_eq!(nudge_overlay((0, 0), (-10, 1), 100, 100, 4, 4), (-3, 1));
}

#[test]
fn tabs_compare() {
    assert_ne!(Tab::Editor, Tab::Runner);
    assert_eq!(Tab::Runner, Tab::Runner);
}

// ---- fonts ----

#[test]
fn font_candidates_by_platform() {
    let win = cjk_font_candidates(true, Some("D:\\Win"));
    assert_eq!(win.len(), 5);
    assert_eq!(win[0], ("Microsoft YaHei".to_string(), "D:\\Win/Fonts/msyh.ttc".to_string()));
    assert_eq!(win[2], ("DengXian".to_string(), "D:\\Win/Fonts/Deng.ttf".to_string()));
    let default_dir = cjk_font_candidates(true, None);
    assert_eq!(default_dir[4].1, "C:\\Windows/Fonts/simsun.ttc");
    let other = cjk_font_candidates(false, None);
    assert_eq!(other.len(), 3);
    assert_eq!(other[2].0, "WenQuanYi Micro Hei");
}

// ---- `.` components and drive-relative paths ----

#[test]
fn trailing_curdir_names_the_directory_it_stands_in() {
    assert_eq!(parent_path("a/b/."), Some("a".to_string()));
    assert_eq!(parent_path("a/./b"), Some("a".to_string()));
    assert_eq!(path_extension("a/b.png/."), Some("png".to_string()));
    assert_eq!(path_extension("a/b/.."), None);
    assert_eq!(parent_path("a/b/.."), Some("a/b".to_string()));
}

#[test]
fn join_with_drive_relative_path_replaces() {
    assert_eq!(join_path("a", "C:x"), "C:x");
    assert_eq!(join_path("C:/a", "D:y"), "D:y");
}

// ---- saving the overlay path and reading it back ----

#[test]
fn saved_overlay_is_relative_to_config_dir_and_resolves_back() {
    let saved = overlay_path_to_save("/home/u/img/ov.png", Some("/home/u/cfg"));
    assert_eq!(saved, "../img/ov.png");
    let cfg = Config { version: CONFIG_VERSION, overlay: saved, x: 0, y: 0 };
    assert_eq!(cfg.resolve_overlay("/home/u/cfg/picpatcher.json"), "/home/u/cfg/../img/ov.png");
}

#[test]
fn saved_overlay_below_config_dir() {
    assert_eq!(overlay_path_to_save("/p/cfg/ov.png", Some("/p/cfg")), "ov.png");
}

#[test]
fn saved_overlay_stays_absolute_without_common_root_or_dir() {
    assert_eq!(overlay_path_to_save("C:/img/ov.png", Some("D:/cfg")), "C:/img/ov.png");
    assert_eq!(overlay_path_to_save("/img/ov.png", None), "/img/ov.png");
}

// ---- extension list stages ----

#[test]
fn extension_entries_trim_and_keep_empty_entries() {
    assert_eq!(extension_entries(" .PNG, jpg ,,"), strings(&["PNG", "jpg", "", ""]));
    assert_eq!(extension_entries(""), strings(&[""]));
}

#[test]
fn keep_nonempty_drops_only_empty_entries() {
    assert_eq!(keep_nonempty(&strings(&["png", "", "jpg", ""])), strings(&["png", "jpg"]));
    assert_eq!(keep_nonempty(&strings(&[" "])), strings(&[" "]));
}

// ---- editor state ----

fn placement(x: i64, y: i64, base: Option<(u32, u32)>, overlay: Option<(u32, u32)>) -> OverlayPlacement {
    let size = |s: Option<(u32, u32)>| s.map(|(w, h)| ImageSize { width: w, height: h });
    OverlayPlacement { x, y, base: size(base), overlay: size(overlay) }
}

#[test]
fn placement_clamps_once_both_images_are_loaded() {
    let mut p = placement(500, -500, Some((100, 50)), Some((20, 10)));
    p.clamp_overlay_position();
    assert_eq!((p.x, p.y), (99, -9));
    let once = p;
    p.clamp_overlay_position();
    assert_eq!(p, once);
}

#[test]
fn placement_without_both_images_is_left_alone() {
    for p0 in [
        placement(500, -500, None, Some((20, 10))),
        placement(500, -500, Some((100, 50)), None),
        placement(500, -500, None, None),
    ] {
        let mut p = p0;
        p.clamp_overlay_position();
        assert_eq!(p, p0);
    }
}

#[test]
fn run_button_needs_config_and_input_and_no_run() {
    assert!(can_run(false, true, true));
    assert!(!can_run(true, true, true));
    assert!(!can_run(false, false, true));
    assert!(!can_run(false, true, false));
}

#[test]
fn save_asks_for_a_file_only_when_needed() {
    assert!(save_asks_for_target(true, true));
    assert!(save_asks_for_target(false, false));
    assert!(!save_asks_for_target(false, true));
}

#[test]
fn walked_files_get_distinct_outputs() {
    let opts = sibling("in", "_modified");
    let a = output_path_for("in/a.png", &opts);
    let b = output_path_for("in/sub/a.png", &opts);
    assert_eq!(a, "in/_modified/a.png");
    assert_eq!(b, "in/_modified/sub/a.png");
    assert_ne!(a, b);
}

#[test]
fn in_place_run_warns_about_overwriting() {
    assert_eq!(
        run_start_status(true),
        Some("Running in-place (originals will be overwritten).".to_string())
    );
    assert_eq!(run_start_status(false), None);
}
