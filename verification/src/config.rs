//! The settings of the download manager.

use vstd::prelude::*;

verus! {

/// All settings.
#[derive(Debug)]
pub struct Config {
    pub torrent_list: String,
    pub download: DownloadConfig,
    pub archive: ArchiveConfig,
    pub state: StateConfig,
}

/// The settings for downloads. The seed ratio is kept as the text that is handed on.
#[derive(Debug)]
pub struct DownloadConfig {
    pub max_concurrent: usize,
    pub download_dir: String,
    pub timeout: u64,
    pub max_download_speed: Option<String>,
    pub max_upload_speed: Option<String>,
    pub seed_ratio: Option<String>,
    pub bt_tracker: Option<Vec<String>>,
}

/// The settings for archives.
#[derive(Debug)]
pub struct ArchiveConfig {
    pub enabled: bool,
    pub archive_dir: String,
    pub compression_level: u8,
    pub delete_after_archive: bool,
}

/// The settings for what is remembered between runs.
#[derive(Debug)]
pub struct StateConfig {
    pub state_file: String,
    pub save_interval: u64,
}

} // verus!
