//! What a window holds: its tabs and their panes, what is asked of it, and what
//! it asks to be done in turn.

use super::tree::Tree;
use crate::action::Action;
use crate::session::TerminalMode;
use vstd::prelude::*;

verus! {

/// A pane: one terminal.
#[derive(Debug)]
pub struct Pane {
    pub id: u64,
    /// The working directory that the pane last reported.
    pub cwd: Option<String>,
    pub mode: TerminalMode,
}

/// A tab: a tree of panes under a title.
#[derive(Debug)]
pub struct Tab {
    pub id: u64,
    /// The panes, in the order in which they came.
    pub panes: Vec<Pane>,
    pub active_pane: usize,
    pub title: String,
    /// The title was given by the user.
    pub custom_title: bool,
    pub bell: bool,
    pub activity: bool,
    pub marked: bool,
    /// How the panes lie.
    pub tree: Tree,
    /// The pane that fills the tab for the time being.
    pub zoom: Option<u64>,
}

/// The state of a window.
#[derive(Debug)]
pub struct Workspace {
    pub tabs: Vec<Tab>,
    pub active: usize,
    pub next_id: u64,
    pub next_pane_id: u64,
    pub sidebar_visible: bool,
    pub search_open: bool,
    pub tab_filter: String,
}

/// What the window needs to know of the user's settings.
#[derive(Debug)]
pub struct Settings {
    pub startup_commands: Option<String>,
    pub terminal_mode: TerminalMode,
    pub home: Option<String>,
    /// The names of the configured remote hosts.
    pub hosts: Vec<String>,
    /// How many themes there are.
    pub themes: usize,
}

/// A way to look for the next pane.
#[derive(Clone, Copy, PartialEq, Eq, Debug, Structural)]
pub enum Direction {
    Left,
    Right,
    Up,
    Down,
}

/// What a terminal is told.
#[derive(Debug)]
pub enum Input {
    GrabFocus,
    Copy,
    Paste,
    ScrollLines(i32),
    FilterFailedBlocks,
    FilterSlowBlocks,
    ClearBlockFilter,
    /// Look for a text, or for a regular expression where the flag is set.
    SearchSet(String, bool),
    SearchNext,
    SearchPrev,
    SearchClear,
    WriteInput(String),
    /// Take the font scale that is in use.
    RefreshFontScale,
    SetFont(String),
    SetScrollback(u32),
    /// Take the theme that is in use.
    ApplyTheme,
}

/// What the window asks to be done.
#[derive(Debug)]
pub enum Effect {
    /// Start a terminal in a pane, on a remote host if one is given.
    Spawn {
        tab: u64,
        pane: u64,
        mode: TerminalMode,
        commands: Option<String>,
        cwd: Option<String>,
        host: Option<usize>,
    },
    ShowTab(u64),
    DropTab(u64),
    DropPane(u64),
    /// Lay a tab's panes out anew.
    Relayout(u64),
    /// Let the file browser follow the active pane's directory.
    FollowCwd,
    /// Draw the list of tabs anew, and save the session.
    RebuildStrip,
    Quit,
    /// Ask whether to close a tab in which a command runs.
    ConfirmCloseTab(u64, String),
    /// Ask whether to close a pane in which a command runs.
    ConfirmClosePane(u64, String),
    Send(u64, Input),
    StepFont { up: bool },
    StepOpacity { up: bool },
    FocusTowards(Direction),
    ShowSidebar(bool),
    FocusFilter,
    ShowSearch(bool),
    TogglePalette,
    ToggleSettings,
    ShowRemotePicker,
    ToggleDebugDashboard,
    ReloadConfig,
    /// Move the file browser's root up.
    TreeUp,
    /// Use the theme at a position.
    UseTheme(usize),
    UseFont(String),
    UseScrollback(u32),
    /// Write the style sheet anew.
    ApplyCss,
    SaveConfig,
}

/// What is asked of the window.
#[derive(Debug)]
pub enum Msg {
    NewTab,
    CloseTab(u64),
    /// Close a tab without asking.
    ForceCloseTab(u64),
    /// Close a pane without asking.
    ForceClosePane(u64),
    SelectTab(u64),
    NextTab,
    PrevTab,
    ToggleSidebar,
    Action(Action),
    ReloadConfig,
    PaneExited(u64, u64),
    PaneCwdChanged(u64, u64, String),
    PaneFocused(u64, u64),
    /// A pane was found in the direction that was asked for.
    FocusPane(u64),
    TitleChanged(u64, String),
    Bell(u64),
    Activity(u64),
    SearchChanged(String),
    SearchNext,
    SearchPrev,
    SearchClose,
    RenameTab(u64, String),
    /// Move a tab to a position.
    ReorderTab(u64, usize),
    SetTabFilter(String),
    FileTreeActivateFile(String),
    FileTreeGotoCwd,
    FileTreeGoUp,
    /// The user picked the theme at a position.
    SettingsTheme(usize),
    SettingsFontDesc(String),
    SettingsScrollback(u32),
    /// The settings were read anew: their font and their scrollback.
    ConfigLoaded(String, u32),
    Ignore,
}

// ---------------------------------------------------------------------------
// What they hold
// ---------------------------------------------------------------------------

/// What a [`Pane`] holds.
#[verifier::ext_equal]
pub struct PaneView {
    pub id: u64,
    pub cwd: Option<Seq<char>>,
    pub mode: TerminalMode,
}

impl View for Pane {
    type V = PaneView;

    open spec fn view(&self) -> PaneView {
        PaneView { id: self.id, cwd: crate::text::optional_string(self.cwd), mode: self.mode }
    }
}

/// What panes hold, one by one.
pub open spec fn pane_views(panes: Seq<Pane>) -> Seq<PaneView> {
    panes.map_values(|p: Pane| p@)
}

/// What a [`Tab`] holds.
#[verifier::ext_equal]
pub struct TabView {
    pub id: u64,
    pub panes: Seq<PaneView>,
    pub active_pane: int,
    pub title: Seq<char>,
    pub custom_title: bool,
    pub bell: bool,
    pub activity: bool,
    pub marked: bool,
    pub tree: Tree,
    pub zoom: Option<u64>,
}

impl View for Tab {
    type V = TabView;

    open spec fn view(&self) -> TabView {
        TabView {
            id: self.id,
            panes: pane_views(self.panes@),
            active_pane: self.active_pane as int,
            title: self.title@,
            custom_title: self.custom_title,
            bell: self.bell,
            activity: self.activity,
            marked: self.marked,
            tree: self.tree,
            zoom: self.zoom,
        }
    }
}

/// What tabs hold, one by one.
pub open spec fn tab_views(tabs: Seq<Tab>) -> Seq<TabView> {
    tabs.map_values(|t: Tab| t@)
}

/// What a [`Workspace`] holds.
#[verifier::ext_equal]
pub struct World {
    pub tabs: Seq<TabView>,
    pub active: int,
    pub next_id: u64,
    pub next_pane_id: u64,
    pub sidebar_visible: bool,
    pub search_open: bool,
    pub tab_filter: Seq<char>,
}

impl View for Workspace {
    type V = World;

    open spec fn view(&self) -> World {
        World {
            tabs: tab_views(self.tabs@),
            active: self.active as int,
            next_id: self.next_id,
            next_pane_id: self.next_pane_id,
            sidebar_visible: self.sidebar_visible,
            search_open: self.search_open,
            tab_filter: self.tab_filter@,
        }
    }
}

/// What [`Settings`] hold.
pub struct SettingsView {
    pub startup_commands: Option<Seq<char>>,
    pub terminal_mode: TerminalMode,
    pub home: Option<Seq<char>>,
    pub hosts: Seq<Seq<char>>,
    pub themes: int,
}

impl View for Settings {
    type V = SettingsView;

    open spec fn view(&self) -> SettingsView {
        SettingsView {
            startup_commands: crate::text::optional_string(self.startup_commands),
            terminal_mode: self.terminal_mode,
            home: crate::text::optional_string(self.home),
            hosts: crate::text::texts(self.hosts@),
            themes: self.themes as int,
        }
    }
}

/// What an [`Input`] holds.
pub enum InputView {
    GrabFocus,
    Copy,
    Paste,
    ScrollLines(int),
    FilterFailedBlocks,
    FilterSlowBlocks,
    ClearBlockFilter,
    SearchSet(Seq<char>, bool),
    SearchNext,
    SearchPrev,
    SearchClear,
    WriteInput(Seq<char>),
    RefreshFontScale,
    SetFont(Seq<char>),
    SetScrollback(u32),
    ApplyTheme,
}

impl View for Input {
    type V = InputView;

    open spec fn view(&self) -> InputView {
        match self {
            Input::GrabFocus => InputView::GrabFocus,
            Input::Copy => InputView::Copy,
            Input::Paste => InputView::Paste,
            Input::ScrollLines(n) => InputView::ScrollLines(*n as int),
            Input::FilterFailedBlocks => InputView::FilterFailedBlocks,
            Input::FilterSlowBlocks => InputView::FilterSlowBlocks,
            Input::ClearBlockFilter => InputView::ClearBlockFilter,
            Input::SearchSet(text, regex) => InputView::SearchSet(text@, *regex),
            Input::SearchNext => InputView::SearchNext,
            Input::SearchPrev => InputView::SearchPrev,
            Input::SearchClear => InputView::SearchClear,
            Input::WriteInput(text) => InputView::WriteInput(text@),
            Input::RefreshFontScale => InputView::RefreshFontScale,
            Input::SetFont(desc) => InputView::SetFont(desc@),
            Input::SetScrollback(n) => InputView::SetScrollback(*n),
            Input::ApplyTheme => InputView::ApplyTheme,
        }
    }
}

/// What an [`Effect`] holds.
pub enum Deed {
    Spawn {
        tab: u64,
        pane: u64,
        mode: TerminalMode,
        commands: Option<Seq<char>>,
        cwd: Option<Seq<char>>,
        host: Option<int>,
    },
    ShowTab(u64),
    DropTab(u64),
    DropPane(u64),
    Relayout(u64),
    FollowCwd,
    RebuildStrip,
    Quit,
    ConfirmCloseTab(u64, Seq<char>),
    ConfirmClosePane(u64, Seq<char>),
    Send(u64, InputView),
    StepFont(bool),
    StepOpacity(bool),
    FocusTowards(Direction),
    ShowSidebar(bool),
    FocusFilter,
    ShowSearch(bool),
    TogglePalette,
    ToggleSettings,
    ShowRemotePicker,
    ToggleDebugDashboard,
    ReloadConfig,
    TreeUp,
    UseTheme(int),
    UseFont(Seq<char>),
    UseScrollback(u32),
    ApplyCss,
    SaveConfig,
}

impl View for Effect {
    type V = Deed;

    open spec fn view(&self) -> Deed {
        match self {
            Effect::Spawn { tab, pane, mode, commands, cwd, host } => Deed::Spawn {
                tab: *tab,
                pane: *pane,
                mode: *mode,
                commands: crate::text::optional_string(*commands),
                cwd: crate::text::optional_string(*cwd),
                host: match host {
                    Some(n) => Some(*n as int),
                    None => None,
                },
            },
            Effect::ShowTab(id) => Deed::ShowTab(*id),
            Effect::DropTab(id) => Deed::DropTab(*id),
            Effect::DropPane(id) => Deed::DropPane(*id),
            Effect::Relayout(id) => Deed::Relayout(*id),
            Effect::FollowCwd => Deed::FollowCwd,
            Effect::RebuildStrip => Deed::RebuildStrip,
            Effect::Quit => Deed::Quit,
            Effect::ConfirmCloseTab(id, command) => Deed::ConfirmCloseTab(*id, command@),
            Effect::ConfirmClosePane(id, command) => Deed::ConfirmClosePane(*id, command@),
            Effect::Send(id, input) => Deed::Send(*id, input@),
            Effect::StepFont { up } => Deed::StepFont(*up),
            Effect::StepOpacity { up } => Deed::StepOpacity(*up),
            Effect::FocusTowards(d) => Deed::FocusTowards(*d),
            Effect::ShowSidebar(on) => Deed::ShowSidebar(*on),
            Effect::FocusFilter => Deed::FocusFilter,
            Effect::ShowSearch(on) => Deed::ShowSearch(*on),
            Effect::TogglePalette => Deed::TogglePalette,
            Effect::ToggleSettings => Deed::ToggleSettings,
            Effect::ShowRemotePicker => Deed::ShowRemotePicker,
            Effect::ToggleDebugDashboard => Deed::ToggleDebugDashboard,
            Effect::ReloadConfig => Deed::ReloadConfig,
            Effect::TreeUp => Deed::TreeUp,
            Effect::UseTheme(i) => Deed::UseTheme(*i as int),
            Effect::UseFont(desc) => Deed::UseFont(desc@),
            Effect::UseScrollback(n) => Deed::UseScrollback(*n),
            Effect::ApplyCss => Deed::ApplyCss,
            Effect::SaveConfig => Deed::SaveConfig,
        }
    }
}

/// What effects hold, one by one.
pub open spec fn deeds(effects: Seq<Effect>) -> Seq<Deed> {
    effects.map_values(|e: Effect| e@)
}

/// What a [`Msg`] says.
pub enum MsgView {
    NewTab,
    CloseTab(u64),
    ForceCloseTab(u64),
    ForceClosePane(u64),
    SelectTab(u64),
    NextTab,
    PrevTab,
    ToggleSidebar,
    Action(Action),
    ReloadConfig,
    PaneExited(u64, u64),
    PaneCwdChanged(u64, u64, Seq<char>),
    PaneFocused(u64, u64),
    FocusPane(u64),
    TitleChanged(u64, Seq<char>),
    Bell(u64),
    Activity(u64),
    SearchChanged(Seq<char>),
    SearchNext,
    SearchPrev,
    SearchClose,
    RenameTab(u64, Seq<char>),
    ReorderTab(u64, int),
    SetTabFilter(Seq<char>),
    FileTreeActivateFile(Seq<char>),
    FileTreeGotoCwd,
    FileTreeGoUp,
    SettingsTheme(int),
    SettingsFontDesc(Seq<char>),
    SettingsScrollback(u32),
    ConfigLoaded(Seq<char>, u32),
    Ignore,
}

impl View for Msg {
    type V = MsgView;

    open spec fn view(&self) -> MsgView {
        match self {
            Msg::NewTab => MsgView::NewTab,
            Msg::CloseTab(id) => MsgView::CloseTab(*id),
            Msg::ForceCloseTab(id) => MsgView::ForceCloseTab(*id),
            Msg::ForceClosePane(id) => MsgView::ForceClosePane(*id),
            Msg::SelectTab(id) => MsgView::SelectTab(*id),
            Msg::NextTab => MsgView::NextTab,
            Msg::PrevTab => MsgView::PrevTab,
            Msg::ToggleSidebar => MsgView::ToggleSidebar,
            Msg::Action(a) => MsgView::Action(*a),
            Msg::ReloadConfig => MsgView::ReloadConfig,
            Msg::PaneExited(tab, pane) => MsgView::PaneExited(*tab, *pane),
            Msg::PaneCwdChanged(tab, pane, path) => MsgView::PaneCwdChanged(*tab, *pane, path@),
            Msg::PaneFocused(tab, pane) => MsgView::PaneFocused(*tab, *pane),
            Msg::FocusPane(pane) => MsgView::FocusPane(*pane),
            Msg::TitleChanged(id, title) => MsgView::TitleChanged(*id, title@),
            Msg::Bell(id) => MsgView::Bell(*id),
            Msg::Activity(id) => MsgView::Activity(*id),
            Msg::SearchChanged(text) => MsgView::SearchChanged(text@),
            Msg::SearchNext => MsgView::SearchNext,
            Msg::SearchPrev => MsgView::SearchPrev,
            Msg::SearchClose => MsgView::SearchClose,
            Msg::RenameTab(id, title) => MsgView::RenameTab(*id, title@),
            Msg::ReorderTab(id, to) => MsgView::ReorderTab(*id, *to as int),
            Msg::SetTabFilter(text) => MsgView::SetTabFilter(text@),
            Msg::FileTreeActivateFile(path) => MsgView::FileTreeActivateFile(path@),
            Msg::FileTreeGotoCwd => MsgView::FileTreeGotoCwd,
            Msg::FileTreeGoUp => MsgView::FileTreeGoUp,
            Msg::SettingsTheme(i) => MsgView::SettingsTheme(*i as int),
            Msg::SettingsFontDesc(desc) => MsgView::SettingsFontDesc(desc@),
            Msg::SettingsScrollback(n) => MsgView::SettingsScrollback(*n),
            Msg::ConfigLoaded(desc, n) => MsgView::ConfigLoaded(desc@, *n),
            Msg::Ignore => MsgView::Ignore,
        }
    }
}

/// The commands that run in panes, by pane.
pub open spec fn running_views(running: Seq<(u64, String)>) -> Seq<(u64, Seq<char>)> {
    running.map_values(|r: (u64, String)| (r.0, r.1@))
}

// ---------------------------------------------------------------------------
// What every state keeps
// ---------------------------------------------------------------------------

/// The numbers of panes.
pub open spec fn pane_ids(panes: Seq<PaneView>) -> Seq<u64> {
    panes.map_values(|p: PaneView| p.id)
}

/// A tab is sound: it has a pane, its active pane is one of them, no two panes
/// have one number, all numbers have been handed out, its tree holds exactly
/// its panes, and a zoomed pane is one of several.
pub open spec fn tab_is_sound(t: TabView, next_id: u64, next_pane_id: u64) -> bool {
    &&& t.id < next_id
    &&& 0 <= t.active_pane < t.panes.len()
    &&& pane_ids(t.panes).no_duplicates()
    &&& forall|i: int| 0 <= i < t.panes.len() ==> (#[trigger] t.panes[i]).id < next_pane_id
    &&& super::tree::leaves(t.tree).to_multiset() == pane_ids(t.panes).to_multiset()
    &&& t.zoom matches Some(p) ==> t.panes.len() > 1 && pane_ids(t.panes).contains(p)
}

/// Two tabs have nothing in common: neither their numbers nor a pane.
pub open spec fn are_apart(a: TabView, b: TabView) -> bool {
    &&& a.id != b.id
    &&& forall|x: u64| #[trigger] pane_ids(a.panes).contains(x) ==> !pane_ids(b.panes).contains(x)
}

/// Every two tabs have nothing in common.
pub open spec fn all_apart(tabs: Seq<TabView>) -> bool {
    forall|i: int, j: int|
        0 <= i < tabs.len() && 0 <= j < tabs.len() && i != j ==> are_apart(
            #[trigger] tabs[i],
            #[trigger] tabs[j],
        )
}

impl World {
    /// The window is sound: every tab is, no two share anything, and the active
    /// one is one of them.
    pub open spec fn is_sound(self) -> bool {
        &&& self.tabs.len() > 0 ==> 0 <= self.active < self.tabs.len()
        &&& forall|i: int|
            0 <= i < self.tabs.len() ==> tab_is_sound(
                #[trigger] self.tabs[i],
                self.next_id,
                self.next_pane_id,
            )
        &&& all_apart(self.tabs)
    }
}

// ---------------------------------------------------------------------------
// Finding tabs and panes
// ---------------------------------------------------------------------------

/// The position of the tab with a number.
pub open spec fn tab_at(tabs: Seq<TabView>, id: u64) -> Option<int>
    decreases tabs.len(),
{
    if tabs.len() == 0 {
        None
    } else if tabs[0].id == id {
        Some(0int)
    } else {
        match tab_at(tabs.skip(1), id) {
            Some(i) => Some(i + 1),
            None => None,
        }
    }
}

/// The position of the pane with a number.
pub open spec fn pane_at(panes: Seq<PaneView>, id: u64) -> Option<int>
    decreases panes.len(),
{
    if panes.len() == 0 {
        None
    } else if panes[0].id == id {
        Some(0int)
    } else {
        match pane_at(panes.skip(1), id) {
            Some(i) => Some(i + 1),
            None => None,
        }
    }
}

/// The positions of the pane with a number: its tab's and its own.
pub open spec fn pane_place(tabs: Seq<TabView>, id: u64) -> Option<(int, int)>
    decreases tabs.len(),
{
    if tabs.len() == 0 {
        None
    } else {
        match pane_at(tabs[0].panes, id) {
            Some(p) => Some((0int, p)),
            None => match pane_place(tabs.skip(1), id) {
                Some((t, p)) => Some((t + 1, p)),
                None => None,
            },
        }
    }
}

/// The tab found is the first one with the number.
pub proof fn tab_at_is_first(tabs: Seq<TabView>, id: u64)
    ensures
        tab_at(tabs, id) matches Some(i) ==> 0 <= i < tabs.len() && tabs[i].id == id && forall|
            j: int,
        |
            0 <= j < i ==> (#[trigger] tabs[j]).id != id,
        tab_at(tabs, id) is None ==> forall|j: int|
            0 <= j < tabs.len() ==> (#[trigger] tabs[j]).id != id,
    decreases tabs.len(),
{
    if tabs.len() > 0 && tabs[0].id != id {
        let rest = tabs.skip(1);
        tab_at_is_first(rest, id);
        if let Some(i) = tab_at(tabs, id) {
            assert(tabs[i] == rest[i - 1]);
            assert forall|j: int| 0 <= j < i implies (#[trigger] tabs[j]).id != id by {
                if j > 0 {
                    assert(tabs[j] == rest[j - 1]);
                }
            }
        } else {
            assert forall|j: int| 0 <= j < tabs.len() implies (#[trigger] tabs[j]).id != id by {
                if j > 0 {
                    assert(tabs[j] == rest[j - 1]);
                }
            }
        }
    }
}

/// A tab with no other one of its number before it is found.
pub(crate) proof fn lemma_tab_at(tabs: Seq<TabView>, id: u64, i: int)
    requires
        0 <= i < tabs.len(),
        tabs[i].id == id,
        forall|j: int| 0 <= j < i ==> (#[trigger] tabs[j]).id != id,
    ensures
        tab_at(tabs, id) == Some(i),
{
    tab_at_is_first(tabs, id);
    if let Some(k) = tab_at(tabs, id) {
        if k < i {
            assert(tabs[k].id != id);
        }
        if i < k {
            assert(tabs[i].id != id);
        }
    } else {
        assert(tabs[i].id != id);
    }
}

/// The pane found is the first one with the number.
pub proof fn pane_at_is_first(panes: Seq<PaneView>, id: u64)
    ensures
        pane_at(panes, id) matches Some(i) ==> 0 <= i < panes.len() && panes[i].id == id && forall|
            j: int,
        |
            0 <= j < i ==> (#[trigger] panes[j]).id != id,
        pane_at(panes, id) is None ==> forall|j: int|
            0 <= j < panes.len() ==> (#[trigger] panes[j]).id != id,
    decreases panes.len(),
{
    if panes.len() > 0 && panes[0].id != id {
        let rest = panes.skip(1);
        pane_at_is_first(rest, id);
        if let Some(i) = pane_at(panes, id) {
            assert(panes[i] == rest[i - 1]);
            assert forall|j: int| 0 <= j < i implies (#[trigger] panes[j]).id != id by {
                if j > 0 {
                    assert(panes[j] == rest[j - 1]);
                }
            }
        } else {
            assert forall|j: int| 0 <= j < panes.len() implies (#[trigger] panes[j]).id != id by {
                if j > 0 {
                    assert(panes[j] == rest[j - 1]);
                }
            }
        }
    }
}

pub(crate) proof fn lemma_pane_at(panes: Seq<PaneView>, id: u64, i: int)
    requires
        0 <= i < panes.len(),
        panes[i].id == id,
        forall|j: int| 0 <= j < i ==> (#[trigger] panes[j]).id != id,
    ensures
        pane_at(panes, id) == Some(i),
{
    pane_at_is_first(panes, id);
    if let Some(k) = pane_at(panes, id) {
        if k < i {
            assert(panes[k].id != id);
        }
        if i < k {
            assert(panes[i].id != id);
        }
    } else {
        assert(panes[i].id != id);
    }
}

pub(crate) proof fn lemma_no_pane_at(panes: Seq<PaneView>, id: u64)
    requires
        forall|j: int| 0 <= j < panes.len() ==> (#[trigger] panes[j]).id != id,
    ensures
        pane_at(panes, id) is None,
{
    pane_at_is_first(panes, id);
}

/// A pane's place is the first one with its number.
pub proof fn pane_place_is_first(tabs: Seq<TabView>, id: u64)
    ensures
        pane_place(tabs, id) matches Some((t, p)) ==> 0 <= t < tabs.len() && pane_at(
            tabs[t].panes,
            id,
        ) == Some(p) && 0 <= p < tabs[t].panes.len() && tabs[t].panes[p].id == id,
        pane_place(tabs, id) is None ==> forall|j: int|
            0 <= j < tabs.len() ==> pane_at((#[trigger] tabs[j]).panes, id) is None,
    decreases tabs.len(),
{
    if tabs.len() > 0 {
        pane_at_is_first(tabs[0].panes, id);
        if pane_at(tabs[0].panes, id) is None {
            let rest = tabs.skip(1);
            pane_place_is_first(rest, id);
            if let Some((t, p)) = pane_place(tabs, id) {
                assert(tabs[t] == rest[t - 1]);
            } else {
                assert forall|j: int| 0 <= j < tabs.len() implies pane_at(
                    (#[trigger] tabs[j]).panes,
                    id,
                ) is None by {
                    if j > 0 {
                        assert(tabs[j] == rest[j - 1]);
                    }
                }
            }
        }
    }
}

pub(crate) proof fn lemma_pane_place(tabs: Seq<TabView>, id: u64, n: int)
    requires
        0 <= n <= tabs.len(),
        forall|j: int| 0 <= j < n ==> pane_at((#[trigger] tabs[j]).panes, id) is None,
    ensures
        pane_place(tabs, id) == match pane_place(tabs.skip(n), id) {
            Some((t, p)) => Some((t + n, p)),
            None => None,
        },
    decreases n,
{
    if n > 0 {
        assert(pane_at(tabs[0].panes, id) is None);
        let rest = tabs.skip(1);
        assert forall|j: int| 0 <= j < n - 1 implies pane_at((#[trigger] rest[j]).panes, id)
            is None by {
            assert(rest[j] == tabs[j + 1]);
        }
        lemma_pane_place(rest, id, n - 1);
        assert(rest.skip(n - 1) =~= tabs.skip(n));
    } else {
        assert(tabs.skip(0) =~= tabs);
    }
}

impl Tab {
    /// The position of the pane with a number.
    pub fn pane_index(&self, id: u64) -> (res: Option<usize>)
        ensures
            match res {
                Some(i) => pane_at(self@.panes, id) == Some(i as int) && i < self.panes@.len(),
                None => pane_at(self@.panes, id) is None,
            },
    {
        let mut i: usize = 0;
        while i < self.panes.len()
            invariant
                i <= self.panes.len(),
                forall|j: int| 0 <= j < i ==> (#[trigger] self@.panes[j]).id != id,
            decreases self.panes.len() - i,
        {
            assert(self@.panes[i as int] == self.panes@[i as int]@);
            if self.panes[i].id == id {
                proof {
                    lemma_pane_at(self@.panes, id, i as int);
                }
                return Some(i);
            }
            i += 1;
        }
        proof {
            lemma_no_pane_at(self@.panes, id);
        }
        None
    }
}

impl Workspace {
    /// The position of the tab with a number.
    pub fn index_of(&self, id: u64) -> (res: Option<usize>)
        ensures
            match res {
                Some(i) => tab_at(self@.tabs, id) == Some(i as int) && i < self.tabs@.len()
                    && self.tabs@[i as int].id == id,
                None => tab_at(self@.tabs, id) is None,
            },
    {
        let mut i: usize = 0;
        while i < self.tabs.len()
            invariant
                i <= self.tabs.len(),
                forall|j: int| 0 <= j < i ==> (#[trigger] self@.tabs[j]).id != id,
            decreases self.tabs.len() - i,
        {
            assert(self@.tabs[i as int] == self.tabs@[i as int]@);
            if self.tabs[i].id == id {
                proof {
                    lemma_tab_at(self@.tabs, id, i as int);
                }
                return Some(i);
            }
            i += 1;
        }
        proof {
            tab_at_is_first(self@.tabs, id);
        }
        None
    }

    /// The positions of the pane with a number: its tab's and its own.
    pub fn find_pane(&self, pane_id: u64) -> (res: Option<(usize, usize)>)
        ensures
            match res {
                Some((t, p)) => pane_place(self@.tabs, pane_id) == Some((t as int, p as int)) && t
                    < self.tabs@.len() && p < self.tabs@[t as int].panes@.len()
                    && self.tabs@[t as int].panes@[p as int].id == pane_id,
                None => pane_place(self@.tabs, pane_id) is None,
            },
    {
        let mut i: usize = 0;
        while i < self.tabs.len()
            invariant
                i <= self.tabs.len(),
                forall|j: int|
                    0 <= j < i ==> pane_at((#[trigger] self@.tabs[j]).panes, pane_id) is None,
            decreases self.tabs.len() - i,
        {
            assert(self@.tabs[i as int] == self.tabs@[i as int]@);
            if let Some(p) = self.tabs[i].pane_index(pane_id) {
                proof {
                    lemma_pane_place(self@.tabs, pane_id, i as int);
                    assert(self@.tabs.skip(i as int)[0] == self@.tabs[i as int]);
                    pane_at_is_first(self@.tabs[i as int].panes, pane_id);
                    assert(self@.tabs[i as int].panes[p as int] == self.tabs@[i as int].panes@[p as int]@);
                }
                return Some((i, p));
            }
            i += 1;
        }
        proof {
            lemma_pane_place(self@.tabs, pane_id, i as int);
        }
        None
    }
}

} // verus!
