//! What becomes of a window, step by step: the window after the step, and what
//! is to be done.

use super::state::{Deed, Direction, InputView, MsgView, PaneView, SettingsView, TabView, World};
use super::tree::{Orientation, Tree};
use crate::action::Action;
use crate::session::TerminalMode;
use vstd::prelude::*;

verus! {

/// A step whose deeds follow others.
pub open spec fn after(before: Seq<Deed>, step: (World, Seq<Deed>)) -> (World, Seq<Deed>) {
    (step.0, before + step.1)
}

/// A position in a ring of `n`.
pub open spec fn wrapped(i: int, n: int) -> int {
    i % n
}

/// The active pane of a tab, if its position is right.
pub open spec fn pane_in_focus(t: TabView) -> Option<PaneView> {
    if 0 <= t.active_pane < t.panes.len() {
        Some(t.panes[t.active_pane])
    } else {
        None
    }
}

/// The active pane of a tab takes the focus.
pub open spec fn focus(t: TabView) -> Seq<Deed> {
    match pane_in_focus(t) {
        Some(p) => seq![Deed::Send(p.id, InputView::GrabFocus)],
        None => seq![],
    }
}

/// The first command that runs in a pane.
pub open spec fn command_of(pane: u64, running: Seq<(u64, Seq<char>)>) -> Option<Seq<char>>
    decreases running.len(),
{
    if running.len() == 0 {
        None
    } else if running[0].0 == pane {
        Some(running[0].1)
    } else {
        command_of(pane, running.skip(1))
    }
}

/// The first command that runs in any of the panes.
pub open spec fn command_in(panes: Seq<PaneView>, running: Seq<(u64, Seq<char>)>) -> Option<
    Seq<char>,
>
    decreases panes.len(),
{
    if panes.len() == 0 {
        None
    } else {
        match command_of(panes[0].id, running) {
            Some(c) => Some(c),
            None => command_in(panes.skip(1), running),
        }
    }
}

/// The numbers of the marked tabs.
pub open spec fn marked_ids(tabs: Seq<TabView>) -> Seq<u64>
    decreases tabs.len(),
{
    if tabs.len() == 0 {
        seq![]
    } else if tabs.last().marked {
        marked_ids(tabs.drop_last()).push(tabs.last().id)
    } else {
        marked_ids(tabs.drop_last())
    }
}

/// The tree without a pane, unless the pane is all there is.
pub open spec fn tree_without(t: Tree, pane: u64) -> Tree {
    match super::tree::removed(t, pane) {
        Some(r) => r,
        None => Tree::Leaf(pane),
    }
}

/// The tab without one of its panes; the active pane's position stays where it
/// can.
pub open spec fn without_pane(t: TabView, i: int) -> TabView {
    let panes = t.panes.remove(i);
    TabView {
        panes,
        active_pane: if t.active_pane >= panes.len() {
            panes.len() - 1
        } else {
            t.active_pane
        },
        tree: tree_without(t.tree, t.panes[i].id),
        ..t
    }
}

/// A tab with one pane.
pub open spec fn single(id: u64, pane: PaneView, title: Seq<char>, custom_title: bool) -> TabView {
    TabView {
        id,
        panes: seq![pane],
        active_pane: 0,
        title,
        custom_title,
        bell: false,
        activity: false,
        marked: false,
        tree: Tree::Leaf(pane.id),
        zoom: None,
    }
}

/// Something is told to each of the panes.
pub open spec fn to_panes(panes: Seq<PaneView>, inputs: Seq<InputView>) -> Seq<Deed>
    decreases panes.len(),
{
    if panes.len() == 0 {
        seq![]
    } else {
        to_panes(panes.drop_last(), inputs) + to_pane(panes.last().id, inputs)
    }
}

/// Some things are told to a pane, one after the other.
pub open spec fn to_pane(pane: u64, inputs: Seq<InputView>) -> Seq<Deed> {
    inputs.map_values(|i: InputView| Deed::Send(pane, i))
}

/// Something is told to every pane of the tabs.
pub open spec fn to_tabs(tabs: Seq<TabView>, inputs: Seq<InputView>) -> Seq<Deed>
    decreases tabs.len(),
{
    if tabs.len() == 0 {
        seq![]
    } else {
        to_tabs(tabs.drop_last(), inputs) + to_panes(tabs.last().panes, inputs)
    }
}

/// What is looked for: a regular expression where the text stands between two
/// slashes, else the text itself.
pub open spec fn search_query(text: Seq<char>) -> (Seq<char>, bool) {
    if text.len() > 2 && text[0] == '/' && text.last() == '/' {
        (text.subrange(1, text.len() - 1), true)
    } else {
        (text, false)
    }
}

impl World {
    /// There is an active tab.
    pub open spec fn has_active(self) -> bool {
        0 <= self.active < self.tabs.len()
    }

    /// The pane that is in use.
    pub open spec fn active_pane(self) -> Option<PaneView> {
        if self.has_active() {
            pane_in_focus(self.tabs[self.active])
        } else {
            None
        }
    }

    /// Something is told to the pane that is in use.
    pub open spec fn tell(self, input: InputView) -> (World, Seq<Deed>) {
        (
            self,
            match self.active_pane() {
                Some(p) => seq![Deed::Send(p.id, input)],
                None => seq![],
            },
        )
    }

    /// The world with another tab in that place.
    pub open spec fn with_tab(self, i: int, t: TabView) -> World {
        World { tabs: self.tabs.update(i, t), ..self }
    }

    /// A tab is selected: it is shown, and its marks go.
    pub open spec fn select(self, id: u64) -> (World, Seq<Deed>) {
        match super::state::tab_at(self.tabs, id) {
            Some(i) => {
                let t = TabView { bell: false, activity: false, ..self.tabs[i] };
                (
                    World { active: i, ..self.with_tab(i, t) },
                    seq![Deed::ShowTab(id)] + focus(t) + seq![Deed::FollowCwd, Deed::RebuildStrip],
                )
            },
            None => (self, seq![]),
        }
    }

    /// A tab with one fresh pane is opened and selected.
    pub open spec fn open(
        self,
        mode: TerminalMode,
        commands: Option<Seq<char>>,
        cwd: Option<Seq<char>>,
        host: Option<int>,
        title: Seq<char>,
        custom_title: bool,
    ) -> (World, Seq<Deed>) {
        let tab = self.next_id;
        let pane = self.next_pane_id;
        let t = single(tab, PaneView { id: pane, cwd, mode }, title, custom_title);
        let w = World {
            tabs: self.tabs.push(t),
            next_id: (self.next_id + 1) as u64,
            next_pane_id: (self.next_pane_id + 1) as u64,
            ..self
        };
        after(seq![Deed::Spawn { tab, pane, mode, commands, cwd, host }], w.select(tab))
    }

    /// The number that a new tab shows.
    pub open spec fn next_number(self) -> nat {
        self.tabs.len() + 1
    }

    /// A fresh tab.
    pub open spec fn add_tab(self, s: SettingsView) -> (World, Seq<Deed>) {
        self.open(
            s.terminal_mode,
            s.startup_commands,
            None,
            None,
            crate::terminal::launch::tab_title(self.next_number(), None, s.home),
            false,
        )
    }

    /// A tab on a remote host, if there is one at the position.
    pub open spec fn add_remote_tab(self, n: int, s: SettingsView) -> (World, Seq<Deed>) {
        if 0 <= n < s.hosts.len() {
            self.open(TerminalMode::Vte, None, None, Some(n), s.hosts[n], true)
        } else {
            (self, seq![])
        }
    }

    /// A tab with the mode, the directory and the title of the active one.
    pub open spec fn duplicate(self, s: SettingsView) -> (World, Seq<Deed>) {
        if self.has_active() {
            let t = self.tabs[self.active];
            let (mode, cwd) = match pane_in_focus(t) {
                Some(p) => (p.mode, p.cwd),
                None => (s.terminal_mode, None),
            };
            self.open(mode, None, cwd, None, t.title, t.custom_title)
        } else {
            (self, seq![])
        }
    }

    /// A tab is closed; the one in its place is selected, and the window closes
    /// with its last tab.
    pub open spec fn close_tab(self, id: u64) -> (World, Seq<Deed>) {
        match super::state::tab_at(self.tabs, id) {
            Some(i) => {
                let w = World { tabs: self.tabs.remove(i), ..self };
                if w.tabs.len() == 0 {
                    (w, seq![Deed::DropTab(id), Deed::Quit])
                } else {
                    let j = if i >= w.tabs.len() {
                        w.tabs.len() - 1
                    } else {
                        i
                    };
                    after(seq![Deed::DropTab(id)], w.select(w.tabs[j].id))
                }
            },
            None => (self, seq![]),
        }
    }

    /// Tabs are closed one by one.
    pub open spec fn close_tabs(self, ids: Seq<u64>) -> (World, Seq<Deed>)
        decreases ids.len(),
    {
        if ids.len() == 0 {
            (self, seq![])
        } else {
            let first = self.close_tab(ids[0]);
            after(first.1, first.0.close_tabs(ids.skip(1)))
        }
    }

    /// A tab is closed, unless a command runs in it: then that is asked first.
    pub open spec fn request_close_tab(self, id: u64, running: Seq<(u64, Seq<char>)>) -> (
        World,
        Seq<Deed>,
    ) {
        match super::state::tab_at(self.tabs, id) {
            Some(i) => match command_in(self.tabs[i].panes, running) {
                Some(c) => (self, seq![Deed::ConfirmCloseTab(id, c)]),
                None => self.close_tab(id),
            },
            None => (self, seq![]),
        }
    }

    /// A tab's zoom is undone, or its active pane comes to fill it.
    pub open spec fn toggle_zoom(self, i: int) -> (World, Seq<Deed>) {
        if 0 <= i < self.tabs.len() {
            let t = self.tabs[i];
            if t.zoom is None && t.panes.len() <= 1 {
                (self, seq![])
            } else {
                let z = TabView {
                    zoom: match t.zoom {
                        Some(_) => None,
                        None => Some(t.panes[t.active_pane].id),
                    },
                    ..t
                };
                (self.with_tab(i, z), seq![Deed::Relayout(t.id)] + focus(z))
            }
        } else {
            (self, seq![])
        }
    }

    /// A pane is closed, and its tab with it where it was the last one.
    pub open spec fn close_pane(self, pane: u64) -> (World, Seq<Deed>) {
        match super::state::pane_place(self.tabs, pane) {
            Some((i, p)) => {
                let first = if self.tabs[i].zoom is Some {
                    self.toggle_zoom(i)
                } else {
                    (self, seq![])
                };
                let t = first.0.tabs[i];
                if t.panes.len() == 1 {
                    after(first.1, first.0.close_tab(t.id))
                } else {
                    let r = without_pane(t, p);
                    after(
                        first.1,
                        (
                            first.0.with_tab(i, r),
                            seq![Deed::Relayout(t.id)] + focus(r) + seq![Deed::DropPane(pane)],
                        ),
                    )
                }
            },
            None => (self, seq![]),
        }
    }

    /// A pane is closed, unless a command runs in it: then that is asked first.
    pub open spec fn request_close_pane(self, pane: u64, running: Seq<(u64, Seq<char>)>) -> (
        World,
        Seq<Deed>,
    ) {
        match super::state::pane_place(self.tabs, pane) {
            Some(_) => match command_of(pane, running) {
                Some(c) => (self, seq![Deed::ConfirmClosePane(pane, c)]),
                None => self.close_pane(pane),
            },
            None => (self, seq![]),
        }
    }

    /// A tab moves to a position; the active tab stays the active one.
    pub open spec fn reorder_tab(self, id: u64, to: int) -> (World, Seq<Deed>) {
        match super::state::tab_at(self.tabs, id) {
            Some(from) => {
                let to = if to >= self.tabs.len() {
                    self.tabs.len() - 1
                } else {
                    to
                };
                if from == to {
                    (self, seq![])
                } else {
                    let tabs = self.tabs.remove(from).insert(to, self.tabs[from]);
                    let active = if self.has_active() {
                        match super::state::tab_at(tabs, self.tabs[self.active].id) {
                            Some(i) => i,
                            None => 0,
                        }
                    } else {
                        self.active
                    };
                    (World { tabs, active, ..self }, seq![Deed::RebuildStrip])
                }
            },
            None => (self, seq![]),
        }
    }

    /// The tab so many places on is selected; the last one and the first one
    /// are neighbours.
    pub open spec fn switch_tab(self, delta: int) -> (World, Seq<Deed>) {
        if self.tabs.len() == 0 {
            (self, seq![])
        } else {
            self.select(self.tabs[wrapped(self.active + delta, self.tabs.len() as int)].id)
        }
    }

    /// The active tab moves so many places on, where there is room.
    pub open spec fn move_tab(self, delta: int) -> (World, Seq<Deed>) {
        let to = self.active + delta;
        if self.has_active() && 0 <= to < self.tabs.len() && delta != 0 {
            let a = self.tabs[self.active];
            let b = self.tabs[to];
            (
                World { tabs: self.tabs.update(self.active, b).update(to, a), active: to, ..self },
                seq![Deed::RebuildStrip],
            )
        } else {
            (self, seq![])
        }
    }

    /// The tab at a position is selected; the ninth stands for the last.
    pub open spec fn quick_switch(self, n: int) -> (World, Seq<Deed>) {
        if self.tabs.len() == 0 {
            (self, seq![])
        } else {
            let last = self.tabs.len() - 1;
            self.select(
                self.tabs[if n == 9 || n > last {
                    last
                } else {
                    n
                }].id,
            )
        }
    }

    /// The active pane is split in two, unless it is zoomed.
    pub open spec fn split_active(self, orientation: Orientation) -> (World, Seq<Deed>) {
        if self.has_active() && self.tabs[self.active].zoom is None {
            let t = self.tabs[self.active];
            let here = t.panes[t.active_pane];
            let pane = self.next_pane_id;
            let s = TabView {
                panes: t.panes.push(PaneView { id: pane, cwd: here.cwd, mode: TerminalMode::Vte }),
                active_pane: t.panes.len() as int,
                tree: super::tree::split(t.tree, here.id, pane, orientation),
                ..t
            };
            (
                World {
                    next_pane_id: (self.next_pane_id + 1) as u64,
                    ..self.with_tab(self.active, s)
                },
                seq![
                    Deed::Spawn {
                        tab: t.id,
                        pane,
                        mode: TerminalMode::Vte,
                        commands: None,
                        cwd: here.cwd,
                        host: None,
                    },
                    Deed::Relayout(t.id),
                    Deed::Send(pane, InputView::GrabFocus),
                ],
            )
        } else {
            (self, seq![])
        }
    }

    /// The focus goes to the pane so many places on; the last one and the first
    /// one are neighbours.
    pub open spec fn cycle_focus(self, delta: int) -> (World, Seq<Deed>) {
        if self.has_active() && self.tabs[self.active].panes.len() > 1 {
            let t = self.tabs[self.active];
            let c = TabView {
                active_pane: wrapped(t.active_pane + delta, t.panes.len() as int),
                ..t
            };
            (self.with_tab(self.active, c), focus(c))
        } else {
            (self, seq![])
        }
    }

    /// The focus goes to a pane of the active tab.
    pub open spec fn focus_pane(self, pane: u64) -> (World, Seq<Deed>) {
        if self.has_active() {
            let t = self.tabs[self.active];
            match super::state::pane_at(t.panes, pane) {
                Some(p) => {
                    let f = TabView { active_pane: p, ..t };
                    (self.with_tab(self.active, f), focus(f))
                },
                None => (self, seq![]),
            }
        } else {
            (self, seq![])
        }
    }

    /// The nearest split around the active pane is moved. A zoomed pane has none
    /// around it.
    pub open spec fn resize_pane(self, target: Orientation, delta: int) -> (World, Seq<Deed>) {
        match self.active_pane() {
            Some(p) if self.tabs[self.active].zoom != Some(p.id) => {
                let t = self.tabs[self.active];
                match super::tree::moved(t.tree, p.id, target, delta) {
                    Some(tree) => (
                        self.with_tab(self.active, TabView { tree, ..t }),
                        seq![Deed::Relayout(t.id)],
                    ),
                    None => (self, seq![]),
                }
            },
            _ => (self, seq![]),
        }
    }

    /// The active pane leaves its tab for one of its own.
    pub open spec fn move_pane_to_new_tab(self, s: SettingsView) -> (World, Seq<Deed>) {
        if self.has_active() && self.tabs[self.active].panes.len() > 1
            && self.tabs[self.active].zoom is None {
            let t = self.tabs[self.active];
            let pane = t.panes[t.active_pane];
            let id = self.next_id;
            let title = crate::terminal::launch::tab_title(self.next_number(), pane.cwd, s.home);
            let w = World {
                tabs: self.tabs.update(self.active, without_pane(t, t.active_pane)).push(
                    single(id, pane, title, false),
                ),
                next_id: (self.next_id + 1) as u64,
                ..self
            };
            after(seq![Deed::Relayout(t.id), Deed::Relayout(id)], w.select(id))
        } else {
            (self, seq![])
        }
    }

    /// The find bar is opened, or closed and forgotten.
    pub open spec fn toggle_search(self) -> (World, Seq<Deed>) {
        let w = World { search_open: !self.search_open, ..self };
        if w.search_open {
            (w, seq![Deed::ShowSearch(true)])
        } else {
            (
                w,
                seq![Deed::ShowSearch(false)] + self.tell(InputView::SearchClear).1 + self.tell(
                    InputView::GrabFocus,
                ).1,
            )
        }
    }

    /// The sidebar is shown or hidden.
    pub open spec fn toggle_sidebar(self) -> (World, Seq<Deed>) {
        (
            World { sidebar_visible: !self.sidebar_visible, ..self },
            seq![Deed::ShowSidebar(!self.sidebar_visible)],
        )
    }

    /// The tab filter comes into view and takes the focus.
    pub open spec fn filter_tabs(self) -> (World, Seq<Deed>) {
        if self.sidebar_visible {
            (self, seq![Deed::FocusFilter])
        } else {
            (
                World { sidebar_visible: true, ..self },
                seq![Deed::ShowSidebar(true), Deed::FocusFilter],
            )
        }
    }

    /// The active tab is marked or unmarked.
    pub open spec fn toggle_marked(self) -> (World, Seq<Deed>) {
        if self.has_active() {
            let t = self.tabs[self.active];
            (
                self.with_tab(self.active, TabView { marked: !t.marked, ..t }),
                seq![Deed::RebuildStrip],
            )
        } else {
            (self, seq![Deed::RebuildStrip])
        }
    }

    /// The font grows or shrinks in every pane.
    pub open spec fn step_font(self, up: bool) -> (World, Seq<Deed>) {
        (
            self,
            seq![Deed::StepFont(up)] + to_tabs(self.tabs, seq![InputView::RefreshFontScale]),
        )
    }

    /// A theme is used in every pane, if there is one at the position.
    pub open spec fn use_theme(self, i: int, s: SettingsView) -> (World, Seq<Deed>) {
        if 0 <= i < s.themes {
            (
                self,
                seq![Deed::UseTheme(i)] + to_tabs(self.tabs, seq![InputView::ApplyTheme]) + seq![
                    Deed::ApplyCss,
                    Deed::SaveConfig,
                ],
            )
        } else {
            (self, seq![])
        }
    }

    /// A font is used in every pane.
    pub open spec fn use_font(self, desc: Seq<char>) -> (World, Seq<Deed>) {
        (
            self,
            seq![Deed::UseFont(desc)] + to_tabs(self.tabs, seq![InputView::SetFont(desc)]) + seq![
                Deed::SaveConfig,
            ],
        )
    }

    /// So many lines are kept in every pane.
    pub open spec fn use_scrollback(self, n: u32) -> (World, Seq<Deed>) {
        (
            self,
            seq![Deed::UseScrollback(n)] + to_tabs(self.tabs, seq![InputView::SetScrollback(n)])
                + seq![Deed::SaveConfig],
        )
    }

    /// What the settings say of panes reaches every pane.
    pub open spec fn apply_config(self, font: Seq<char>, scrollback: u32) -> (World, Seq<Deed>) {
        (
            self,
            to_tabs(
                self.tabs,
                seq![
                    InputView::RefreshFontScale,
                    InputView::SetFont(font),
                    InputView::SetScrollback(scrollback),
                    InputView::ApplyTheme,
                ],
            ).push(Deed::ApplyCss),
        )
    }

    /// A built-in action.
    pub open spec fn execute(
        self,
        action: Action,
        s: SettingsView,
        running: Seq<(u64, Seq<char>)>,
    ) -> (World, Seq<Deed>) {
        match action {
            Action::NewTab => self.add_tab(s),
            Action::CloseTab => if self.has_active() {
                self.request_close_tab(self.tabs[self.active].id, running)
            } else {
                (self, seq![])
            },
            Action::ClosePaneOrTab => if self.has_active() {
                let t = self.tabs[self.active];
                if t.panes.len() > 1 {
                    self.request_close_pane(t.panes[t.active_pane].id, running)
                } else {
                    self.request_close_tab(t.id, running)
                }
            } else {
                (self, seq![])
            },
            Action::SplitHorizontal => self.split_active(Orientation::Horizontal),
            Action::SplitVertical => self.split_active(Orientation::Vertical),
            Action::CyclePaneFocusForward => self.cycle_focus(1),
            Action::CyclePaneFocusBackward => self.cycle_focus(-1),
            Action::FocusPaneLeft => (self, seq![Deed::FocusTowards(Direction::Left)]),
            Action::FocusPaneRight => (self, seq![Deed::FocusTowards(Direction::Right)]),
            Action::FocusPaneUp => (self, seq![Deed::FocusTowards(Direction::Up)]),
            Action::FocusPaneDown => (self, seq![Deed::FocusTowards(Direction::Down)]),
            Action::ResizePaneLeft => self.resize_pane(Orientation::Horizontal, -40),
            Action::ResizePaneRight => self.resize_pane(Orientation::Horizontal, 40),
            Action::ResizePaneUp => self.resize_pane(Orientation::Vertical, -40),
            Action::ResizePaneDown => self.resize_pane(Orientation::Vertical, 40),
            Action::TogglePaneZoom => self.toggle_zoom(self.active),
            Action::MovePaneToNewTab => self.move_pane_to_new_tab(s),
            Action::Copy => self.tell(InputView::Copy),
            Action::Paste => self.tell(InputView::Paste),
            Action::FontIncrease => self.step_font(true),
            Action::FontDecrease => self.step_font(false),
            Action::OpacityIncrease => (self, seq![Deed::StepOpacity(true)]),
            Action::OpacityDecrease => (self, seq![Deed::StepOpacity(false)]),
            Action::ToggleSidebar => self.toggle_sidebar(),
            Action::ToggleCommandPalette => (self, seq![Deed::TogglePalette]),
            Action::ToggleSettings => (self, seq![Deed::ToggleSettings]),
            Action::ToggleSearch => self.toggle_search(),
            Action::MoveTabLeft => self.move_tab(-1),
            Action::MoveTabRight => self.move_tab(1),
            Action::DuplicateTab => self.duplicate(s),
            Action::ToggleTabMarked => self.toggle_marked(),
            Action::CloseSelectedTabs => self.close_tabs(marked_ids(self.tabs)),
            Action::FilterTabs => self.filter_tabs(),
            Action::PrevTab => self.switch_tab(-1),
            Action::NextTab => self.switch_tab(1),
            Action::ScrollUp => self.tell(InputView::ScrollLines(-3)),
            Action::ScrollDown => self.tell(InputView::ScrollLines(3)),
            Action::FilterFailedBlocks => self.tell(InputView::FilterFailedBlocks),
            Action::FilterSlowBlocks => self.tell(InputView::FilterSlowBlocks),
            Action::ClearBlockFilter => self.tell(InputView::ClearBlockFilter),
            Action::QuickSwitchTab(n) => self.quick_switch(n as int),
            Action::ShowRemotePicker => (self, seq![Deed::ShowRemotePicker]),
            Action::ToggleDebugDashboard => (self, seq![Deed::ToggleDebugDashboard]),
            Action::ConnectRemote(n) => self.add_remote_tab(n as int, s),
        }
    }

    /// A pane has another working directory; its tab's title follows where it
    /// is the active one and the user gave no title.
    pub open spec fn change_cwd(self, pane: u64, path: Seq<char>, s: SettingsView) -> (
        World,
        Seq<Deed>,
    ) {
        match super::state::pane_place(self.tabs, pane) {
            Some((i, p)) => {
                let t = self.tabs[i];
                let c = TabView {
                    panes: t.panes.update(p, PaneView { cwd: Some(path), ..t.panes[p] }),
                    ..t
                };
                if t.active_pane == p && !t.custom_title {
                    let title = crate::terminal::launch::tab_title(
                        (i + 1) as nat,
                        Some(path),
                        s.home,
                    );
                    (self.with_tab(i, TabView { title, ..c }), seq![Deed::RebuildStrip])
                } else {
                    (self.with_tab(i, c), seq![])
                }
            },
            None => (self, seq![]),
        }
    }

    /// A pane has the focus.
    pub open spec fn note_focus(self, pane: u64) -> World {
        match super::state::pane_place(self.tabs, pane) {
            Some((i, p)) => self.with_tab(i, TabView { active_pane: p, ..self.tabs[i] }),
            None => self,
        }
    }

    /// A tab out of sight rang, or showed something.
    pub open spec fn note(self, id: u64, bell: bool) -> (World, Seq<Deed>) {
        match super::state::tab_at(self.tabs, id) {
            Some(i) => {
                let t = self.tabs[i];
                if i == self.active || (!bell && t.activity) {
                    (self, seq![])
                } else if bell {
                    (self.with_tab(i, TabView { bell: true, ..t }), seq![Deed::RebuildStrip])
                } else {
                    (self.with_tab(i, TabView { activity: true, ..t }), seq![Deed::RebuildStrip])
                }
            },
            None => (self, seq![]),
        }
    }

    /// A tab is given a title; a blank one stands for the default title.
    pub open spec fn rename(self, id: u64, title: Seq<char>, s: SettingsView) -> (
        World,
        Seq<Deed>,
    ) {
        match super::state::tab_at(self.tabs, id) {
            Some(i) => {
                let t = self.tabs[i];
                let given = crate::text::trimmed(title);
                let cwd = match pane_in_focus(t) {
                    Some(p) => p.cwd,
                    None => None,
                };
                let r = if given.len() == 0 {
                    TabView {
                        custom_title: false,
                        title: crate::terminal::launch::tab_title((i + 1) as nat, cwd, s.home),
                        ..t
                    }
                } else {
                    TabView { custom_title: true, title: given, ..t }
                };
                (self.with_tab(i, r), seq![Deed::RebuildStrip])
            },
            None => (self, seq![]),
        }
    }

    /// Anything that is asked of the window.
    pub open spec fn update(
        self,
        msg: MsgView,
        s: SettingsView,
        running: Seq<(u64, Seq<char>)>,
    ) -> (World, Seq<Deed>) {
        match msg {
            MsgView::NewTab => self.add_tab(s),
            MsgView::CloseTab(id) => self.request_close_tab(id, running),
            MsgView::ForceCloseTab(id) => self.close_tab(id),
            MsgView::ForceClosePane(pane) => self.close_pane(pane),
            MsgView::SelectTab(id) => self.select(id),
            MsgView::NextTab => self.switch_tab(1),
            MsgView::PrevTab => self.switch_tab(-1),
            MsgView::ToggleSidebar => self.toggle_sidebar(),
            MsgView::Action(action) => self.execute(action, s, running),
            MsgView::ReloadConfig => (self, seq![Deed::ReloadConfig]),
            MsgView::PaneExited(_, pane) => self.close_pane(pane),
            MsgView::PaneCwdChanged(_, pane, path) => self.change_cwd(pane, path, s),
            MsgView::PaneFocused(_, pane) => (self.note_focus(pane), seq![]),
            MsgView::FocusPane(pane) => self.focus_pane(pane),
            MsgView::TitleChanged(_, _) => (self, seq![]),
            MsgView::Bell(id) => self.note(id, true),
            MsgView::Activity(id) => self.note(id, false),
            MsgView::SearchChanged(text) => if text.len() == 0 {
                self.tell(InputView::SearchClear)
            } else {
                let (query, regex) = search_query(text);
                self.tell(InputView::SearchSet(query, regex))
            },
            MsgView::SearchNext => self.tell(InputView::SearchNext),
            MsgView::SearchPrev => self.tell(InputView::SearchPrev),
            MsgView::SearchClose => self.toggle_search(),
            MsgView::RenameTab(id, title) => self.rename(id, title, s),
            MsgView::ReorderTab(id, to) => self.reorder_tab(id, to),
            MsgView::SetTabFilter(text) => (
                World { tab_filter: text, ..self },
                seq![Deed::RebuildStrip],
            ),
            MsgView::FileTreeActivateFile(path) => (
                self,
                self.tell(
                    InputView::WriteInput(crate::file_tree::quoted(path).push(' ')),
                ).1 + self.tell(InputView::GrabFocus).1,
            ),
            MsgView::FileTreeGotoCwd => (self, seq![Deed::FollowCwd]),
            MsgView::FileTreeGoUp => (self, seq![Deed::TreeUp]),
            MsgView::SettingsTheme(i) => self.use_theme(i, s),
            MsgView::SettingsFontDesc(desc) => self.use_font(desc),
            MsgView::SettingsScrollback(n) => self.use_scrollback(n),
            MsgView::ConfigLoaded(font, n) => self.apply_config(font, n),
            MsgView::Ignore => (self, seq![]),
        }
    }
}

} // verus!
