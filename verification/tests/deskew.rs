use datarunner_core::blob::largest_blob;
use datarunner_core::deskew::{
    contrast_stretch, find_panel_cells, is_dark_pixel, is_ui_pixel, panel_file_name, Pixel, Side,
    COLUMNS, ROWS,
};

fn rgb(r: u8, g: u8, b: u8) -> Pixel {
    Pixel { r, g, b }
}

#[test]
fn ui_pixel_detector_is_hue_agnostic() {
    assert!(is_ui_pixel(rgb(230, 130, 40))); // orange UI
    assert!(is_ui_pixel(rgb(40, 200, 220))); // cyan/teal UI
    assert!(!is_ui_pixel(rgb(20, 20, 20))); // dark scene
    assert!(!is_ui_pixel(rgb(240, 240, 240))); // white (unsaturated)
    assert!(!is_ui_pixel(rgb(150, 150, 150))); // grey
}

/// The cell of each of `n` pixel lines, where there are `cells` cells.
fn cell_map(n: u32, cells: usize) -> Vec<usize> {
    let size = n as f32 / cells as f32;
    (0..n).map(|i| ((i as f32 / size) as usize).min(cells - 1)).collect()
}

#[test]
fn detects_a_synthetic_panel() {
    // A realistic panel: dark background with a thin bright border and a few
    // thin "text" rows on the right — i.e. dark cells with sparse accents.
    let (w, h) = (640u32, 360u32);
    let mut img = vec![rgb(8, 8, 8); (w * h) as usize];
    let accent = rgb(230, 130, 40);
    let mut put = |x: u32, y: u32| img[(y * w + x) as usize] = accent;
    let (x0, x1, y0, y1) = (400u32, 580u32, 100u32, 280u32);
    for x in x0..x1 {
        for t in 0..2 {
            put(x, y0 + t);
            put(x, y1 - 1 - t);
        }
    }
    for y in y0..y1 {
        for t in 0..2 {
            put(x0 + t, y);
            put(x1 - 1 - t, y);
        }
    }
    for row in [140u32, 180, 220] {
        for x in (x0 + 10)..(x1 - 10) {
            put(x, row);
        }
    }
    let columns = cell_map(w, COLUMNS);
    let rows = cell_map(h, ROWS);
    let cells =
        find_panel_cells(&img, &columns, &rows, 16, Side::Right).expect("panel detected");
    // TL corner should be near (x0, y0).
    let (cw, ch) = (w as f32 / COLUMNS as f32, h as f32 / ROWS as f32);
    let points = cells.iter().map(|(c, r)| ((*c as f32 + 0.5) * cw, (*r as f32 + 0.5) * ch));
    let tl = points.min_by(|a, b| (a.0 + a.1).total_cmp(&(b.0 + b.1))).unwrap();
    assert!((tl.0 - x0 as f32).abs() < 24.0, "tl.x={}", tl.0);
    assert!((tl.1 - y0 as f32).abs() < 24.0, "tl.y={}", tl.1);
    // The other half of the screen holds none.
    assert!(find_panel_cells(&img, &columns, &rows, 16, Side::Left).is_none());
}

#[test]
fn an_even_scene_shows_no_panel() {
    let img = vec![rgb(120, 120, 120); 640 * 360];
    let (columns, rows) = (cell_map(640, COLUMNS), cell_map(360, ROWS));
    assert!(find_panel_cells(&img, &columns, &rows, 16, Side::Right).is_none());
}

#[test]
fn pixels_are_told_apart_by_brightness_and_saturation() {
    assert!(is_dark_pixel(rgb(8, 8, 8)));
    assert!(!is_dark_pixel(rgb(230, 130, 40)));
    assert!(is_ui_pixel(rgb(96, 63, 96)) && !is_ui_pixel(rgb(95, 0, 0)));
    assert!(!is_ui_pixel(rgb(96, 64, 96)));
    assert!(is_dark_pixel(rgb(54, 0, 54)) && !is_dark_pixel(rgb(0, 55, 0)));
}

fn grid(text: &str) -> (Vec<bool>, usize, usize) {
    let rows: Vec<&str> = text.split('|').collect();
    let on = rows.iter().flat_map(|r| r.chars().map(|c| c == '#')).collect();
    (on, rows[0].len(), rows.len())
}

#[test]
fn the_largest_group_wins() {
    let (on, cols, rows) = grid("##..|#...|...#|..##|..##");
    let cells = largest_blob(&on, cols, rows).unwrap();
    assert_eq!(cells.len(), 5);
    assert!(cells.iter().all(|(x, y)| on[y * cols + x] && *y >= 2));
}

#[test]
fn corners_do_not_join_groups() {
    let (on, cols, rows) = grid("#.|.#");
    // Of groups of one size the first wins.
    assert_eq!(largest_blob(&on, cols, rows), Some(vec![(0, 0)]));
    let (off, cols, rows) = grid("..|..");
    assert_eq!(largest_blob(&off, cols, rows), None);
}

#[test]
fn stretching_uses_the_whole_scale() {
    let mut pixels: Vec<u8> = vec![10, 60, 110];
    contrast_stretch(&mut pixels, 1, 3);
    assert_eq!(pixels, vec![0, 127, 255]);
    let mut flat: Vec<u8> = vec![90; 4];
    contrast_stretch(&mut flat, 1, 4);
    assert_eq!(flat, vec![0; 4]);
}

#[test]
fn panel_files_are_named_by_side_and_run() {
    assert_eq!(panel_file_name(7, Side::Left, 3), "ruex_panel_7_l_3.png");
    assert_eq!(panel_file_name(7, Side::Right, 3), "ruex_panel_7_r_3.png");
}
