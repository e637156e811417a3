//! Locates the console variable registry inside another process and clears
//! the flag that hides development-only variables and commands.
//!
//! The library holds every decision and every computation on bytes. Reading
//! and writing the other process is left to the program around it: functions
//! here say which bytes to fetch or store, and take what came back.
//!
//! The other process is a 64-bit one. Its addresses, and offsets into its
//! images, are `u64` values.

pub mod cvar;
pub mod error;
pub mod image;
pub mod layout;
pub mod outcome;
pub mod patch;
pub mod plain;
pub mod process;
pub mod refusal;
pub mod remote;
pub mod route;
pub mod snapshot;
