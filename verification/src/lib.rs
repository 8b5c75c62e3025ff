//! The logic of a GTK terminal emulator: the shell-integration stream parser,
//! the offline grid that replays recorded output, styled text, inline
//! graphics, the tab and pane workspace, command palette, workflows, and the
//! agent and AI helpers.

pub mod action;
pub mod agent;
pub mod agent_panel;
pub mod ai;
pub mod base64;
pub mod cautions;
pub mod dialogs;
pub mod file_tree;
pub mod json;
pub mod offers;
pub mod order;
pub mod palette;
pub mod parser;
pub mod paths;
pub mod process;
pub mod rankings;
pub mod reports;
pub mod requests;
pub mod session;
pub mod surroundings;
pub mod terminal;
pub mod text;
pub mod theme;
pub mod wording;
pub mod workflows;
pub mod workspace;
