//! The pane tree and the screen manager built on it.

pub(crate) mod arena;
pub mod layout;
pub mod navigation;
pub mod pane;
pub mod profiles;
pub mod screen;
