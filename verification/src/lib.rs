//! Verified core of a tool that clears the caches of Discord desktop installs.
pub mod text;
pub mod units;
pub mod path;
pub mod discord;
pub mod clean;
pub mod kill;
pub mod job;
pub mod launch;
pub mod platform;
pub mod cli;
pub mod gui;
