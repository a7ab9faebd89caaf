//! proccie: a process manager's configuration, dependency, logging and UI logic.
use vstd::prelude::*;

pub mod config;
pub mod logger;
pub mod runner;
pub mod service;
pub mod strmap;
pub mod text;
pub mod tui;
pub mod theme;

verus! {

} // verus!
