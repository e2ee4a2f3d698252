use mesopotamia::elk::presets::presets;
use mesopotamia::flower_tile::{paint_blossom, rasterize_flower_patch, FlowerPatchParams};
use mesopotamia::settings::{UserSettings, WindowSettings};

fn alphas(buf: &[u8]) -> (usize, usize) {
    let opaque = buf.chunks_exact(4).filter(|px| px[3] == 255).count();
    let clear = buf.chunks_exact(4).filter(|px| px[3] == 0).count();
    (opaque, clear)
}

#[test]
fn patch_has_blossoms_on_clear_ground() {
    let p = FlowerPatchParams::default();
    let (opaque, clear) = alphas(&rasterize_flower_patch(&p, [255, 255, 255], 1));
    assert!(opaque > 0, "some blossom pixels are painted");
    assert!(clear > 0, "the background stays transparent");
}

#[test]
fn flower_tile_deterministic_in_seed() {
    let p = FlowerPatchParams::default();
    assert_eq!(
        rasterize_flower_patch(&p, [0, 255, 255], 5),
        rasterize_flower_patch(&p, [0, 255, 255], 5),
        "same colour and seed → identical patch"
    );
    assert_ne!(
        rasterize_flower_patch(&p, [0, 255, 255], 5),
        rasterize_flower_patch(&p, [0, 255, 255], 6),
        "a different seed scatters the blossoms differently"
    );
}

#[test]
fn renders_the_given_colour() {
    let p = FlowerPatchParams::default();
    let white = rasterize_flower_patch(&p, [255, 255, 255], 9);
    let cyan = rasterize_flower_patch(&p, [0, 255, 255], 9);
    assert_ne!(white, cyan, "the patch takes the colour it is handed");
}

#[test]
fn introduces_no_new_hue() {
    let p = FlowerPatchParams::default();
    let buf = rasterize_flower_patch(&p, [0, 200, 200], 3);
    for px in buf.chunks_exact(4).filter(|px| px[3] == 255) {
        assert!(px[2] >= px[0], "blue ({}) stays >= red ({})", px[2], px[0]);
    }
}

#[test]
fn degenerate_inputs_are_empty() {
    let zero_canvas = FlowerPatchParams { canvas: 0, ..FlowerPatchParams::default() };
    assert!(rasterize_flower_patch(&zero_canvas, [255, 255, 255], 1).is_empty());
    let no_blossoms = FlowerPatchParams { blossoms: 0, ..FlowerPatchParams::default() };
    let buf = rasterize_flower_patch(&no_blossoms, [255, 255, 255], 1);
    assert!(buf.iter().all(|&b| b == 0), "no blossoms → nothing painted");
}

#[test]
fn petals_are_the_colour_brightened_toward_white() {
    let p = FlowerPatchParams::default();
    let buf = rasterize_flower_patch(&p, [0, 0, 0], 11);
    // 15% of the way from 0 to 255 is 38.25, rounded to 38; shades stay within ±12.
    for px in buf.chunks_exact(4).filter(|px| px[3] == 255) {
        assert!(px[0] >= 26 && px[0] <= 50);
        assert_eq!(px[0], px[1]);
        assert_eq!(px[1], px[2]);
    }
}

#[test]
fn presets_have_unique_nonempty_names() {
    let presets = presets();
    for p in &presets {
        assert!(!p.name.is_empty(), "preset name must not be empty");
    }
    for (i, a) in presets.iter().enumerate() {
        for b in &presets[i + 1..] {
            assert_ne!(a.name, b.name, "preset names must be unique");
        }
    }
}

#[test]
fn presets_list_the_three_regimes() {
    let names: Vec<&str> = presets().iter().map(|p| p.name).collect();
    assert_eq!(names, vec!["Default", "Can cross", "Optimized"]);
}

#[test]
fn settings_default_to_a_maximized_720p_window() {
    let w = WindowSettings::default();
    assert!(w.maximized);
    assert_eq!((w.width, w.height), (1280, 720));
    let u = UserSettings::default();
    assert_eq!((u.window.width, u.window.height), (1280, 720));
    assert_eq!(UserSettings::FILE, "usersettings.json");
}

#[test]
fn blossom_is_a_plus_of_five_squares() {
    let n = 9usize;
    let mut buf = vec![0u8; n * n * 4];
    paint_blossom(&mut buf, n, 4, 4, 1, 2, [10, 20, 30]);
    let painted: Vec<usize> = (0..n * n).filter(|&q| buf[4 * q + 3] == 255).collect();
    let expect: Vec<usize> = vec![2 * n + 4, 4 * n + 2, 4 * n + 4, 4 * n + 6, 6 * n + 4];
    assert_eq!(painted, expect);
    assert_eq!(&buf[4 * (4 * n + 4)..4 * (4 * n + 4) + 4], &[10, 20, 30, 255]);
}

#[test]
fn blossom_squares_are_centred_and_clipped() {
    let n = 4usize;
    let mut buf = vec![0u8; n * n * 4];
    // A 2×2 square centred on (0, 0) spans columns and rows -1..=0, so only (0, 0) lands on
    // the tile; the squares 3 to the right and 3 below each keep their on-tile half.
    paint_blossom(&mut buf, n, 0, 0, 2, 3, [1, 1, 1]);
    let painted: Vec<(usize, usize)> = (0..n * n).filter(|&q| buf[4 * q + 3] == 255).map(|q| (q % n, q / n)).collect();
    assert_eq!(painted, vec![(0, 0), (2, 0), (3, 0), (0, 2), (0, 3)]);
}
