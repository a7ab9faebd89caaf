//! The interactive log viewer's state: keys, the search box, tabs and scroll,
//! and the decisions each key press makes.

pub mod app;
pub mod key;
pub mod search;
pub mod view;
