//! SteamCMD and the Steam Workshop.

pub mod steamcmd;
pub mod workshop_api;
pub mod json;
