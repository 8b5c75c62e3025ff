//! The window: its tabs, their panes, and what happens to them.

pub mod answers;
pub mod laws;
pub mod restore;
pub mod restored;
pub mod run;
pub mod saved;
pub mod sound;
pub mod state;
pub mod steps;
pub mod strip;
pub mod tree;
