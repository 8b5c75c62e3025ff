//! Terminal output: styled text, the offline grid, inline graphics, links and
//! selections, tab titles.

pub mod alt;
pub mod ansi;
pub mod colours;
pub mod controls;
pub mod frames;
pub mod grid;
pub mod images;
pub mod kitty_graphics;
pub mod launch;
pub mod overwriting;
pub mod repaint;
pub mod rows;
pub mod select;
pub mod sequences;
pub mod titles;
pub mod url;
pub mod vte;
