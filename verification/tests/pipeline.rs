use datarunner_core::model::{Commodity, Extraction};
use datarunner_core::paths::{
    config_path, data_dir, file_name, first_existing, join, portable_base,
};
use datarunner_core::pipeline::{combine_passes, parse_capture_time};
use datarunner_core::watcher::is_screenshot;

#[test]
fn parses_capture_time() {
    let ts = parse_capture_time("ScreenShot-2026-08-12_22-20-24-284.jpg").unwrap();
    // 2026-08-12 22:20:24 UTC
    assert_eq!(ts, 1_786_573_224);
}

#[test]
fn tolerates_unexpected_names() {
    assert_eq!(parse_capture_time("random.jpg"), None);
    assert_eq!(parse_capture_time("ScreenShot-bad.jpg"), None);
}

#[test]
fn recognises_image_extensions() {
    assert!(is_screenshot("a/ScreenShot-1.jpg"));
    assert!(is_screenshot("a/ScreenShot-1.PNG"));
    assert!(!is_screenshot("a/app.log"));
    assert!(!is_screenshot("a/reports.json"));
}

#[test]
fn capture_times_follow_the_calendar() {
    assert_eq!(parse_capture_time("/x/1970-01-01_00-00-00.png"), Some(0));
    assert_eq!(parse_capture_time("1969-12-31_23-59-59"), Some(-1));
    assert_eq!(parse_capture_time("d/ScreenShot-2024-02-29_12-30-15-1.jpg"), Some(1_709_209_815));
    assert_eq!(parse_capture_time("2000-03-01_00-00-00-9"), Some(951_868_800));
    // There is no such day, and no such hour.
    assert_eq!(parse_capture_time("2023-02-29_12-30-15"), None);
    assert_eq!(parse_capture_time("2023-02-28_24-00-00"), None);
    assert_eq!(parse_capture_time(".."), None);
}

#[test]
fn file_names_and_extensions() {
    assert_eq!(file_name("a/b.c").as_deref(), Some("b.c"));
    assert_eq!(file_name("a/b/").as_deref(), Some("b"));
    assert_eq!(file_name("a/b/.").as_deref(), Some("b"));
    assert_eq!(file_name("a/.."), None);
    assert_eq!(file_name("/"), None);
    assert!(is_screenshot("x.tar.JPEG"));
    assert!(!is_screenshot(".png"));
    assert!(!is_screenshot("png"));
    assert!(!is_screenshot("a.png/readme"));
}

#[test]
fn the_panel_pass_goes_first() {
    let mut raw = Extraction::new("raw.jpg");
    let mut row = Commodity::new("Iron");
    row.id_commodity = Some(44);
    row.price = Some(5);
    row.price_confidence = 10;
    raw.commodities.push(row.clone());
    let mut panel = Extraction::new("panel.jpg");
    row.price = Some(6);
    row.price_confidence = 20;
    panel.commodities.push(row);
    let both = combine_passes(raw.clone(), Some(panel));
    assert_eq!(both.screenshot, "panel.jpg");
    assert_eq!(both.commodities[0].price, Some(6));
    assert_eq!(combine_passes(raw.clone(), None), raw);
}

#[test]
fn the_raw_pass_names_the_terminal() {
    let named = |id: u32, confidence: u8| {
        let mut e = Extraction::new("s.jpg");
        e.id_terminal = Some(id);
        e.terminal_name = Some(format!("T{id}"));
        e.terminal_confidence = confidence;
        e
    };
    // On a tie the raw pass counts.
    let both = combine_passes(named(1, 80), Some(named(2, 80)));
    assert_eq!((both.id_terminal, both.terminal_name.as_deref()), (Some(1), Some("T1")));
    let both = combine_passes(named(1, 80), Some(named(2, 81)));
    assert_eq!((both.id_terminal, both.terminal_confidence), (Some(2), 81));
    let both = combine_passes(named(1, 10), Some(Extraction::new("s.jpg")));
    assert_eq!((both.id_terminal, both.terminal_confidence), (Some(1), 10));
    let both = combine_passes(Extraction::new("s.jpg"), Some(named(2, 10)));
    assert_eq!(both.id_terminal, Some(2));
}

#[test]
fn folders_depend_on_the_installation() {
    let base = portable_base(Some("/opt/app".to_string()), true, false);
    assert_eq!(base.as_deref(), Some("/opt/app"));
    assert_eq!(portable_base(Some("/opt/app".to_string()), false, false), None);
    assert_eq!(data_dir(&base, &None), "/opt/app/data");
    assert_eq!(data_dir(&None, &Some("/home/u".to_string())), "/home/u");
    assert_eq!(data_dir(&None, &None), ".");
    assert_eq!(config_path(&base, "d"), "/opt/app/config/config.json");
    assert_eq!(config_path(&None, "d"), "d");
    assert_eq!(join("a/", "b"), "a/b");
    assert_eq!(join("", "b"), "b");
    let candidates = vec![("x".to_string(), false), ("y".to_string(), true)];
    assert_eq!(first_existing(&candidates, "z"), "y");
    assert_eq!(first_existing(&Vec::new(), "z"), "z");
}
