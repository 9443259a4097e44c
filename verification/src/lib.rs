#![verifier::loop_isolation(false)]
//! Mod manager core for RimWorld: mod catalogue, load order, sorting,
//! log analysis, fault bisection and description rendering.

pub mod text;
pub mod mod_data;
pub mod sorting;
pub mod log_analysis;
pub mod job;
pub mod testing;
pub mod bisect;
pub mod tags;
pub mod game;
pub mod steam;
pub mod settings;
pub mod actions;
pub mod description;
