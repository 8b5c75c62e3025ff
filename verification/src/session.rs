//! Session snapshots: the tabs of a window, each with its title and its tree of
//! panes, so that nested splits, working directories, terminal modes and
//! restorable commands can be brought back.

use crate::text::same_text;
use vstd::prelude::*;

verus! {

/// How a pane shows its terminal.
#[derive(Clone, Copy, PartialEq, Eq, Debug, Structural)]
pub enum TerminalMode {
    /// A bare terminal.
    Vte,
    /// One block per command.
    Block,
}

/// The name of a mode in a snapshot.
pub open spec fn mode_name(mode: TerminalMode) -> Seq<char> {
    match mode {
        TerminalMode::Vte => "vte"@,
        TerminalMode::Block => "block"@,
    }
}

/// The mode with a name; any other text stands for blocks.
pub open spec fn mode_of(name: Seq<char>) -> TerminalMode {
    if name == "vte"@ {
        TerminalMode::Vte
    } else {
        TerminalMode::Block
    }
}

impl TerminalMode {
    /// The name of the mode in a snapshot.
    pub fn name(self) -> (res: &'static str)
        ensures
            res@ == mode_name(self),
    {
        match self {
            TerminalMode::Vte => "vte",
            TerminalMode::Block => "block",
        }
    }
}

/// A mode comes back from its name.
pub proof fn modes_read_back(mode: TerminalMode)
    ensures
        mode_of(mode_name(mode)) == mode,
{
    reveal_strlit("vte");
    reveal_strlit("block");
    assert("vte"@.len() != "block"@.len());
}

/// One node of a tab's tree of panes: a terminal, or a split of two subtrees.
#[derive(Debug)]
pub enum PaneLayout {
    Leaf {
        /// `vte` or `block`.
        mode: String,
        cwd: Option<String>,
        /// A command to replay on restore.
        cmds: Option<String>,
    },
    Split {
        /// `h` for left and right, `v` for top and bottom.
        orientation: char,
        position: i32,
        start: Box<PaneLayout>,
        end: Box<PaneLayout>,
    },
}

/// What a [`PaneLayout`] holds.
pub enum Layout {
    Leaf { mode: Seq<char>, cwd: Option<Seq<char>>, cmds: Option<Seq<char>> },
    Split { orientation: char, position: int, start: Box<Layout>, end: Box<Layout> },
}

impl PaneLayout {
    /// What the layout holds.
    pub open spec fn model(self) -> Layout
        decreases self,
    {
        match self {
            PaneLayout::Leaf { mode, cwd, cmds } => Layout::Leaf {
                mode: mode@,
                cwd: crate::text::optional_string(cwd),
                cmds: crate::text::optional_string(cmds),
            },
            PaneLayout::Split { orientation, position, start, end } => Layout::Split {
                orientation,
                position: position as int,
                start: Box::new(start.model()),
                end: Box::new(end.model()),
            },
        }
    }

    /// The mode with a name; any other text stands for blocks.
    pub fn terminal_mode(mode: &str) -> (res: TerminalMode)
        ensures
            res == mode_of(mode@),
    {
        if same_text(mode, "vte") {
            TerminalMode::Vte
        } else {
            TerminalMode::Block
        }
    }
}

/// One tab of a snapshot.
#[derive(Debug)]
pub struct SavedTab {
    pub title: String,
    pub custom_title: bool,
    pub layout: PaneLayout,
}

/// A snapshot: the tabs, and which of them is active.
#[derive(Debug)]
pub struct SavedSession {
    pub active: usize,
    pub tabs: Vec<SavedTab>,
}

impl SavedSession {
    /// Whether there is anything to save or to restore.
    pub fn is_worth_keeping(&self) -> (res: bool)
        ensures
            res == (self.tabs@.len() > 0),
    {
        self.tabs.len() > 0
    }

    /// The snapshot, unless it holds no tab.
    pub fn if_worth_restoring(self) -> (res: Option<SavedSession>)
        ensures
            res == (if self.tabs@.len() > 0 {
                Some(self)
            } else {
                None
            }),
    {
        if self.tabs.len() > 0 {
            Some(self)
        } else {
            None
        }
    }
}

} // verus!
