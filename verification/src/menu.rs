//! Transient menu and settings flags.
//!
//! The engine exposes these flags for the surrounding user interface to
//! read and write but never interprets them itself: the UI raises
//! `restart_level`, `skip_level` or `quit` and performs the matching engine
//! call or shutdown, and it consults `show_settings` to decide whether tube
//! activations should reach the engine at all.

use vstd::prelude::*;

verus! {

/// Process-lifetime settings; nothing here is persisted.
pub struct Settings {
    pub full_screen: bool,
}

impl Settings {
    pub fn new() -> (s: Settings)
        ensures
            !s.full_screen,
    {
        Settings { full_screen: false }
    }
}

/// The menu's transient request and visibility flags.
pub struct MenuState {
    pub settings: Settings,
    pub show_settings: bool,
    pub full_screen_changed: bool,
    pub restart_level: bool,
    pub skip_level: bool,
    pub quit: bool,
}

impl MenuState {
    pub fn new() -> (m: MenuState)
        ensures
            !m.settings.full_screen,
            !m.show_settings,
            !m.full_screen_changed,
            !m.restart_level,
            !m.skip_level,
            !m.quit,
    {
        MenuState {
            settings: Settings::new(),
            show_settings: false,
            full_screen_changed: false,
            restart_level: false,
            skip_level: false,
            quit: false,
        }
    }
}

} // verus!
