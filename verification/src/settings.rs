//! Launch settings: the window layout read from `usersettings.json`, with
//! defaults for every missing field.

use vstd::prelude::*;

verus! {

pub struct WindowSettings {
    pub maximized: bool,
    pub width: u32,
    pub height: u32,
}

impl Default for WindowSettings {
    fn default() -> (s: Self)
        ensures
            s.maximized,
            s.width == 1280,
            s.height == 720,
    {
        Self { maximized: true, width: 1280, height: 720 }
    }
}

pub struct UserSettings {
    pub window: WindowSettings,
}

impl Default for UserSettings {
    fn default() -> (s: Self)
        ensures
            s.window.maximized,
            s.window.width == 1280,
            s.window.height == 720,
    {
        Self { window: WindowSettings::default() }
    }
}

impl UserSettings {
    /// Where the settings live, relative to the working directory.
    pub const FILE: &'static str = "usersettings.json";
}

} // verus!
