//! Scheduling, text and drawing logic of the "avion messager" desktop overlay:
//! a pixel-art plane that crosses the screen with a banner announcing the next
//! calendar meeting.

pub mod text;
pub mod time;

pub mod anim;
pub mod auth;
pub mod calendar;
pub mod client_config;
pub mod google;
pub mod scheduler;
pub mod settings;
pub mod sprite;
pub mod tray;
pub mod update;
