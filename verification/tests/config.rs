use datarunner_core::api::{submit, Submission, DEFAULT_BASE_URL};
use datarunner_core::config::{default_screenshot_dir, Config};
use datarunner_core::model::Extraction;
use datarunner_core::session::{heal_config, ocr_config, submit_options};

#[test]
fn defaults_are_safe() {
    let c = Config::default();
    assert!(c.dry_run, "dry-run must default on for safety");
    assert_eq!(c.base_url, DEFAULT_BASE_URL);
    assert_eq!(c.environment, "LIVE");
}

#[test]
fn the_default_folder_is_the_usual_one() {
    assert_eq!(Config::default().screenshot_dir, default_screenshot_dir());
    assert_eq!(
        default_screenshot_dir(),
        r"C:\Program Files\Roberts Space Industries\StarCitizen\LIVE\screenshots"
    );
}

#[test]
fn settings_are_complete_with_folder_engine_key_and_token() {
    let mut c = Config::default();
    assert!(!c.is_ready(true, true));
    c.secret_key = "key".to_string();
    assert!(!c.is_ready(true, true));
    c.api_token = " ".to_string();
    assert!(!c.is_ready(true, true));
    c.api_token = "token".to_string();
    assert!(c.is_ready(true, true));
    assert!(!c.is_ready(false, true));
    assert!(!c.is_ready(true, false));
    c.secret_key = "\t".to_string();
    assert!(!c.is_ready(true, true));
}

#[test]
fn complete_settings_can_submit() {
    let mut c = Config::default();
    c.secret_key = "key".to_string();
    c.api_token = "token".to_string();
    c.dry_run = false;
    let mut e = Extraction::new("s.jpg");
    e.id_terminal = Some(551);
    assert!(matches!(submit(&e, &submit_options(&c), &None), Ok(Submission::Send(_))));
}

#[test]
fn options_follow_the_settings() {
    let mut c = Config::default();
    c.secret_key = "k".to_string();
    c.game_version = "  ".to_string();
    let o = submit_options(&c);
    assert_eq!((o.secret_key.as_str(), o.dry_run), ("k", true));
    assert_eq!(o.game_version, None);
    c.game_version = " 4.1".to_string();
    assert_eq!(submit_options(&c).game_version.as_deref(), Some(" 4.1"));
}

#[test]
fn the_engine_is_set_up_for_the_game() {
    let mut c = Config::default();
    c.tesseract_exe = "/t".to_string();
    c.tessdata_dir = "/d".to_string();
    let o = ocr_config(&c);
    assert_eq!((o.lang.as_str(), o.psm), ("eng_sc", 6));
    assert_eq!(o.user_words, vec!["/d/commodities.user-words", "/d/terminals.user-words"]);
    assert_eq!(o.user_patterns.as_deref(), Some("/d/sc.patterns"));
}

#[test]
fn paths_that_lead_nowhere_are_healed() {
    let mut c = Config::default();
    c.tesseract_exe = "/t".to_string();
    heal_config(&mut c, true, true, "/default", "/data");
    assert_eq!((c.tesseract_exe.as_str(), c.tessdata_dir.as_str()), ("/t", "/data"));
    heal_config(&mut c, false, true, "/default", "/other");
    assert_eq!((c.tesseract_exe.as_str(), c.tessdata_dir.as_str()), ("/default", "/data"));
}
