//! The actions that a key or a palette row can trigger.

use vstd::prelude::*;

verus! {

/// A built-in action.
#[derive(Clone, Copy, PartialEq, Eq, Debug, Structural)]
pub enum Action {
    NewTab,
    CloseTab,
    ClosePaneOrTab,
    SplitHorizontal,
    SplitVertical,
    CyclePaneFocusForward,
    CyclePaneFocusBackward,
    FocusPaneLeft,
    FocusPaneRight,
    FocusPaneUp,
    FocusPaneDown,
    ResizePaneLeft,
    ResizePaneRight,
    ResizePaneUp,
    ResizePaneDown,
    TogglePaneZoom,
    MovePaneToNewTab,
    Copy,
    Paste,
    FontIncrease,
    FontDecrease,
    OpacityIncrease,
    OpacityDecrease,
    ToggleSidebar,
    ToggleCommandPalette,
    ToggleSettings,
    ToggleSearch,
    MoveTabLeft,
    MoveTabRight,
    DuplicateTab,
    ToggleTabMarked,
    CloseSelectedTabs,
    FilterTabs,
    PrevTab,
    NextTab,
    ScrollUp,
    ScrollDown,
    FilterFailedBlocks,
    FilterSlowBlocks,
    ClearBlockFilter,
    /// Selects a tab by its position; the ninth stands for the last.
    QuickSwitchTab(u8),
    ShowRemotePicker,
    ToggleDebugDashboard,
    /// Connects to a remote host by its position among the configured ones.
    ConnectRemote(usize),
}

} // verus!
