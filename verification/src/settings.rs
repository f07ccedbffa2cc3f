//! User settings.

use vstd::prelude::*;

verus! {

/// Identifier of the application; names its configuration directory and
/// its credential-store service.
pub const APP_ID: &'static str = "com.pierre.avionmessager";

/// What the user chose in the tray menu.
#[derive(Debug, Clone, Copy, PartialEq, Eq, Structural)]
pub struct Settings {
    /// Minutes before a meeting at which the plane flies.
    pub lead_minutes: u32,
    /// Automatic flights are off (a flight on demand still works).
    pub paused: bool,
    /// No automatic flight while a meeting is in progress.
    pub suppress_during_meeting: bool,
    /// Start with the session.
    pub autostart: bool,
}

impl Default for Settings {
    /// Ten minutes of lead, not paused, quiet meetings, start with the session.
    fn default() -> (s: Settings)
        ensures
            s == (Settings {
                lead_minutes: 10,
                paused: false,
                suppress_during_meeting: true,
                autostart: true,
            }),
    {
        Settings { lead_minutes: 10, paused: false, suppress_during_meeting: true, autostart: true }
    }
}

} // verus!
