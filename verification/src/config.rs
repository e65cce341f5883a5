//! User settings.

use vstd::prelude::*;

use crate::api::DEFAULT_BASE_URL;
use crate::text::{chars_of, trim, trimmed};

verus! {

/// The settings that persist. Paths are plain texts.
#[derive(Debug)]
pub struct Config {
    /// Personal secret key of the user.
    pub secret_key: String,
    /// Token of the application, without which submissions are rejected.
    pub api_token: String,
    /// Folder that is watched for new screenshots.
    pub screenshot_dir: String,
    /// Game environment, "LIVE" or "PTU".
    pub environment: String,
    /// Game version to be stated in submissions.
    pub game_version: String,
    /// Prepare submissions, but never send them.
    pub dry_run: bool,
    /// Publish what is sent, or send test rows.
    pub is_production: bool,
    /// Delete the screenshot after it was sent.
    pub delete_after_send: bool,
    /// Path of the recognition engine.
    pub tesseract_exe: String,
    /// Folder with the language model and the word and pattern files.
    pub tessdata_dir: String,
    /// Where the service is.
    pub base_url: String,
}

/// The folder in which the game leaves its screenshots by default.
pub const DEFAULT_SCREENSHOT_DIR: &'static str =
    r"C:\Program Files\Roberts Space Industries\StarCitizen\LIVE\screenshots";

/// The folder in which the game leaves its screenshots by default.
pub fn default_screenshot_dir() -> (dir: String)
    ensures
        dir@ == DEFAULT_SCREENSHOT_DIR@,
{
    DEFAULT_SCREENSHOT_DIR.to_owned()
}

impl Default for Config {
    fn default() -> (r: Self)
        ensures
            r.secret_key@ == Seq::<char>::empty(),
            r.api_token@ == Seq::<char>::empty(),
            r.screenshot_dir@ == DEFAULT_SCREENSHOT_DIR@,
            r.environment@ == "LIVE"@,
            r.game_version@ == Seq::<char>::empty(),
            r.dry_run,
            r.is_production,
            !r.delete_after_send,
            r.tesseract_exe@ == Seq::<char>::empty(),
            r.tessdata_dir@ == Seq::<char>::empty(),
            r.base_url@ == DEFAULT_BASE_URL@,
    {
        Config {
            secret_key: String::new(),
            api_token: String::new(),
            screenshot_dir: default_screenshot_dir(),
            environment: "LIVE".to_owned(),
            game_version: String::new(),
            dry_run: true,
            is_production: true,
            delete_after_send: false,
            tesseract_exe: String::new(),
            tessdata_dir: String::new(),
            base_url: DEFAULT_BASE_URL.to_owned(),
        }
    }
}

impl Clone for Config {
    fn clone(&self) -> (r: Self)
        ensures
            r.secret_key@ == self.secret_key@,
            r.api_token@ == self.api_token@,
            r.screenshot_dir@ == self.screenshot_dir@,
            r.environment@ == self.environment@,
            r.game_version@ == self.game_version@,
            r.dry_run == self.dry_run,
            r.is_production == self.is_production,
            r.delete_after_send == self.delete_after_send,
            r.tesseract_exe@ == self.tesseract_exe@,
            r.tessdata_dir@ == self.tessdata_dir@,
            r.base_url@ == self.base_url@,
    {
        Config {
            secret_key: self.secret_key.clone(),
            api_token: self.api_token.clone(),
            screenshot_dir: self.screenshot_dir.clone(),
            environment: self.environment.clone(),
            game_version: self.game_version.clone(),
            dry_run: self.dry_run,
            is_production: self.is_production,
            delete_after_send: self.delete_after_send,
            tesseract_exe: self.tesseract_exe.clone(),
            tessdata_dir: self.tessdata_dir.clone(),
            base_url: self.base_url.clone(),
        }
    }
}

impl Config {
    /// Whether enough is configured to recognise screenshots and to submit live, given
    /// whether the screenshot folder is a folder and the engine is a file. A live
    /// submission takes the key and the token.
    pub fn is_ready(&self, screenshot_dir_is_dir: bool, exe_is_file: bool) -> (r: bool)
        ensures
            r == (screenshot_dir_is_dir && exe_is_file && trim(self.secret_key@).len() > 0 && trim(
                self.api_token@,
            ).len() > 0),
    {
        screenshot_dir_is_dir && exe_is_file && trimmed(&chars_of(self.secret_key.as_str())).len()
            > 0 && trimmed(&chars_of(self.api_token.as_str())).len() > 0
    }
}

} // verus!
