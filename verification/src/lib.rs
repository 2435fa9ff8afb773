//! A tmux-like window-layout engine for a terminal front end: a tree of panes
//! with split, merge, directional focus navigation and flattening into screen
//! rectangles, and a screen manager that keeps several such trees as named
//! profiles.

pub mod error;
pub mod geometry;
pub mod screen;
pub mod window;
