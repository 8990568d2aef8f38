//! Plain configuration and message types for an application shell built
//! on this crate.
//!
//! The windowing loop, rendering, and input live outside the library;
//! these types are the data they exchange with it.

use vstd::prelude::*;

verus! {

/// Initial window settings for an application shell.
#[derive(Debug)]
pub struct AppConfig {
    pub width: u32,
    pub height: u32,
    pub is_fullscreen: bool,
    pub title: String,
    pub icon: Option<String>,
}

impl Default for AppConfig {
    /// A windowed 1920 by 1080 configuration with the default title and
    /// no icon.
    fn default() -> (r: Self)
        ensures
            r.width == 1920,
            r.height == 1080,
            !r.is_fullscreen,
            r.title@ == "Hourglass App"@,
            r.icon is None,
    {
        AppConfig {
            width: 1920,
            height: 1080,
            is_fullscreen: false,
            title: "Hourglass App".to_owned(),
            icon: None,
        }
    }
}

/// What a background worker may ask the windowing loop to do.
#[derive(Debug, Clone)]
pub enum WorkerRequest {
    Exit,
}

/// What the windowing loop reports to the background worker.
#[derive(Debug, Clone)]
pub enum AppEvent {
    Resized { width: u32, height: u32 },
    Exit,
}

} // verus!
