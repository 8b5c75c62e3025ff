//! The list of tabs, the menu of each, and what the debug view shows of a
//! window.

use super::state::{Msg, Workspace};
use crate::action::Action;
use crate::session::TerminalMode;
use crate::text::{chars_of, has_text, lowercase, push_wide_decimal, text_of};
use vstd::prelude::*;

verus! {

/// A row in the list of tabs.
#[derive(Debug)]
pub struct StripRow {
    pub index: usize,
    pub id: u64,
    pub title: String,
    pub active: bool,
    pub bell: bool,
    pub activity: bool,
    pub marked: bool,
}

/// What a [`StripRow`] holds.
pub struct RowView {
    pub index: int,
    pub id: u64,
    pub title: Seq<char>,
    pub active: bool,
    pub bell: bool,
    pub activity: bool,
    pub marked: bool,
}

impl View for StripRow {
    type V = RowView;

    open spec fn view(&self) -> RowView {
        RowView {
            index: self.index as int,
            id: self.id,
            title: self.title@,
            active: self.active,
            bell: self.bell,
            activity: self.activity,
            marked: self.marked,
        }
    }
}

/// What rows hold, one by one.
pub open spec fn row_views(rows: Seq<StripRow>) -> Seq<RowView> {
    rows.map_values(|r: StripRow| r@)
}

/// A title passes the filter: it holds the filter's text, in any case.
pub open spec fn passes(title: Seq<char>, filter: Seq<char>) -> bool {
    crate::text::lowercased(filter).len() == 0 || crate::text::contains(
        crate::text::lowercased(title),
        crate::text::lowercased(filter),
    )
}

/// The row of the tab at a position.
pub open spec fn row_of(t: super::state::TabView, i: int, active: int) -> RowView {
    RowView {
        index: i,
        id: t.id,
        title: t.title,
        active: i == active,
        bell: t.bell,
        activity: t.activity,
        marked: t.marked,
    }
}

/// The rows of the first `n` tabs, without those that the filter leaves out.
pub open spec fn rows_of(w: super::state::World, n: int) -> Seq<RowView>
    decreases n,
{
    if n <= 0 {
        seq![]
    } else {
        let before = rows_of(w, n - 1);
        let t = w.tabs[n - 1];
        if passes(t.title, w.tab_filter) {
            before.push(row_of(t, n - 1, w.active))
        } else {
            before
        }
    }
}

/// What can be chosen from a tab's menu.
#[derive(Clone, Copy, PartialEq, Eq, Debug, Structural)]
pub enum MenuChoice {
    NewTab,
    Duplicate,
    Mark,
    Rename,
    Close,
}

/// The words of a choice in the menu of a tab.
pub open spec fn choice_words(choice: MenuChoice, marked: bool) -> Seq<char> {
    match choice {
        MenuChoice::NewTab => "New Tab"@,
        MenuChoice::Duplicate => "Duplicate"@,
        MenuChoice::Mark => if marked {
            "Unmark"@
        } else {
            "Mark Important"@
        },
        MenuChoice::Rename => "Rename"@,
        MenuChoice::Close => "Close"@,
    }
}

/// What a choice asks of the window. What acts on the active tab comes behind
/// the selection of the tab whose menu it is.
pub open spec fn choice_messages(choice: MenuChoice, id: u64) -> Seq<super::state::MsgView> {
    match choice {
        MenuChoice::NewTab => seq![super::state::MsgView::NewTab],
        MenuChoice::Duplicate => seq![
            super::state::MsgView::SelectTab(id),
            super::state::MsgView::Action(Action::DuplicateTab),
        ],
        MenuChoice::Mark => seq![
            super::state::MsgView::SelectTab(id),
            super::state::MsgView::Action(Action::ToggleTabMarked),
        ],
        MenuChoice::Rename => seq![],
        MenuChoice::Close => seq![super::state::MsgView::CloseTab(id)],
    }
}

impl MenuChoice {
    /// The words of the choice in the menu of a tab.
    pub fn label(self, marked: bool) -> (res: &'static str)
        ensures
            res@ == choice_words(self, marked),
    {
        match self {
            MenuChoice::NewTab => "New Tab",
            MenuChoice::Duplicate => "Duplicate",
            MenuChoice::Mark => if marked {
                "Unmark"
            } else {
                "Mark Important"
            },
            MenuChoice::Rename => "Rename",
            MenuChoice::Close => "Close",
        }
    }

    /// What the choice asks of the window, given the tab whose menu it is.
    pub fn messages(self, id: u64) -> (res: Vec<Msg>)
        ensures
            res@.map_values(|m: Msg| m@) == choice_messages(self, id),
    {
        let mut out: Vec<Msg> = Vec::new();
        match self {
            MenuChoice::NewTab => {
                out.push(Msg::NewTab);
            },
            MenuChoice::Duplicate => {
                out.push(Msg::SelectTab(id));
                out.push(Msg::Action(Action::DuplicateTab));
            },
            MenuChoice::Mark => {
                out.push(Msg::SelectTab(id));
                out.push(Msg::Action(Action::ToggleTabMarked));
            },
            MenuChoice::Rename => {},
            MenuChoice::Close => {
                out.push(Msg::CloseTab(id));
            },
        }
        assert(out@.map_values(|m: Msg| m@) =~= choice_messages(self, id));
        out
    }
}

/// Marking a tab from its menu marks that tab, whichever was active.
pub proof fn marking_marks_the_clicked_tab(
    w: super::state::World,
    id: u64,
    i: int,
    s: super::state::SettingsView,
    running: Seq<(u64, Seq<char>)>,
)
    requires
        super::state::tab_at(w.tabs, id) == Some(i),
    ensures
        ({
            let m = choice_messages(MenuChoice::Mark, id);
            let v = w.update(m[0], s, running).0.update(m[1], s, running).0;
            &&& v.tabs[i].id == id
            &&& v.tabs[i].marked == !w.tabs[i].marked
        }),
{
    super::state::tab_at_is_first(w.tabs, id);
}

/// How many panes there are in the first `n` tabs.
pub open spec fn panes_in(tabs: Seq<super::state::TabView>, n: int) -> nat
    decreases n,
{
    if n <= 0 {
        0
    } else {
        panes_in(tabs, n - 1) + tabs[n - 1].panes.len()
    }
}

/// What the debug view shows of a window: names and values.
pub open spec fn facts_of(w: super::state::World) -> Seq<(Seq<char>, Seq<char>)> {
    seq![
        ("Tabs"@, crate::text::decimal(w.tabs.len())),
        ("Total panes"@, crate::text::decimal(panes_in(w.tabs, w.tabs.len() as int))),
        (
            "Active tab"@,
            if w.has_active() {
                w.tabs[w.active].title
            } else {
                seq![]
            },
        ),
        (
            "Panes in active tab"@,
            crate::text::decimal(
                if w.has_active() {
                    w.tabs[w.active].panes.len()
                } else {
                    0
                },
            ),
        ),
        (
            "Zoomed"@,
            if w.has_active() && w.tabs[w.active].zoom is Some {
                "true"@
            } else {
                "false"@
            },
        ),
    ]
}

/// What the debug view needs to know besides the window. Numbers with a
/// fraction come as texts.
#[derive(Debug)]
pub struct DebugConfig {
    pub theme: String,
    pub font: String,
    pub font_scale: String,
    pub opacity: String,
    pub terminal_mode: TerminalMode,
    pub scrollback: u32,
    pub keybindings: usize,
    pub remote_hosts: usize,
    pub startup_commands: Option<String>,
}

/// What the debug view shows of the looks.
pub open spec fn looks_of(c: DebugConfig) -> Seq<(Seq<char>, Seq<char>)> {
    seq![
        ("Theme"@, c.theme@),
        ("Font"@, c.font@),
        ("Font scale"@, c.font_scale@),
        ("Opacity"@, c.opacity@),
        ("Terminal mode"@, crate::session::mode_name(c.terminal_mode)),
        ("Scrollback"@, crate::text::decimal(c.scrollback as nat)),
    ]
}

/// What the debug view shows of the configuration.
pub open spec fn config_of(c: DebugConfig) -> Seq<(Seq<char>, Seq<char>)> {
    seq![
        ("Keybindings"@, crate::text::decimal(c.keybindings as nat)),
        ("Remote hosts"@, crate::text::decimal(c.remote_hosts as nat)),
        (
            "Startup commands"@,
            match c.startup_commands {
                Some(s) => s@,
                None => seq![],
            },
        ),
    ]
}

/// What the sections of the debug view hold, one by one.
pub open spec fn section_views(sections: Seq<(String, Vec<(String, String)>)>) -> Seq<
    (Seq<char>, Seq<(Seq<char>, Seq<char>)>),
> {
    sections.map_values(|s: (String, Vec<(String, String)>)| (s.0@, pair_views(s.1@)))
}

/// What pairs of texts hold, one by one.
pub open spec fn pair_views(pairs: Seq<(String, String)>) -> Seq<(Seq<char>, Seq<char>)> {
    pairs.map_values(|p: (String, String)| (p.0@, p.1@))
}

fn number(n: u128) -> (res: String)
    ensures
        res@ == crate::text::decimal(n as nat),
{
    let mut out: Vec<char> = Vec::new();
    push_wide_decimal(&mut out, n);
    assert(out@ =~= crate::text::decimal(n as nat));
    text_of(out.as_slice())
}

impl Workspace {
    /// The rows of the list of tabs, without those that the filter leaves out.
    pub fn strip_rows(&self) -> (res: Vec<StripRow>)
        ensures
            row_views(res@) == rows_of(self@, self@.tabs.len() as int),
    {
        let lowered = lowercase(self.tab_filter.as_str());
        let empty = chars_of(lowered.as_str()).len() == 0;
        let mut out: Vec<StripRow> = Vec::new();
        let mut i: usize = 0;
        assert(row_views(out@) =~= seq![]);
        while i < self.tabs.len()
            invariant
                i <= self.tabs.len(),
                lowered@ == crate::text::lowercased(self@.tab_filter),
                empty == (lowered@.len() == 0),
                row_views(out@) == rows_of(self@, i as int),
            decreases self.tabs.len() - i,
        {
            let t = &self.tabs[i];
            assert(self@.tabs[i as int] == t@);
            let ghost before = out@;
            let title = lowercase(t.title.as_str());
            if empty || has_text(chars_of(title.as_str()).as_slice(), lowered.as_str()) {
                let row = StripRow {
                    index: i,
                    id: t.id,
                    title: t.title.as_str().to_string(),
                    active: i == self.active,
                    bell: t.bell,
                    activity: t.activity,
                    marked: t.marked,
                };
                out.push(row);
                assert(row_views(out@) =~= row_views(before).push(
                    row_of(self@.tabs[i as int], i as int, self@.active),
                ));
            }
            i += 1;
        }
        out
    }

    /// What the debug view shows of the window: names and values.
    pub fn session_facts(&self) -> (res: Vec<(String, String)>)
        ensures
            pair_views(res@) == facts_of(self@),
    {
        let mut total: u128 = 0;
        let mut i: usize = 0;
        while i < self.tabs.len()
            invariant
                i <= self.tabs.len(),
                total == panes_in(self@.tabs, i as int),
                total <= i * 0xffff_ffff_ffff_ffff,
            decreases self.tabs.len() - i,
        {
            assert(self@.tabs[i as int] == self.tabs@[i as int]@);
            assert(self@.tabs[i as int].panes.len() == self.tabs@[i as int].panes@.len());
            total = total + self.tabs[i].panes.len() as u128;
            i += 1;
        }
        let none: Vec<char> = Vec::new();
        assert(none@ =~= seq![]);
        let mut title = text_of(none.as_slice());
        let mut panes: usize = 0;
        let mut zoomed: bool = false;
        if self.active < self.tabs.len() {
            let t = &self.tabs[self.active];
            assert(self@.tabs[self.active as int] == t@);
            title = t.title.as_str().to_string();
            panes = t.panes.len();
            zoomed = t.zoom.is_some();
        }
        let mut out: Vec<(String, String)> = Vec::new();
        out.push(("Tabs".to_string(), number(self.tabs.len() as u128)));
        out.push(("Total panes".to_string(), number(total)));
        out.push(("Active tab".to_string(), title));
        out.push(("Panes in active tab".to_string(), number(panes as u128)));
        out.push(
            (
                "Zoomed".to_string(),
                if zoomed {
                    "true".to_string()
                } else {
                    "false".to_string()
                },
            ),
        );
        assert(pair_views(out@) =~= facts_of(self@));
        out
    }

    /// The sections of the debug view.
    pub fn debug_info_snapshot(&self, config: &DebugConfig) -> (res: Vec<
        (String, Vec<(String, String)>),
    >)
        ensures
            section_views(res@) == seq![
                ("Session"@, facts_of(self@)),
                ("Appearance"@, looks_of(*config)),
                ("Config"@, config_of(*config)),
            ],
    {
        let mut looks: Vec<(String, String)> = Vec::new();
        looks.push(("Theme".to_string(), config.theme.as_str().to_string()));
        looks.push(("Font".to_string(), config.font.as_str().to_string()));
        looks.push(("Font scale".to_string(), config.font_scale.as_str().to_string()));
        looks.push(("Opacity".to_string(), config.opacity.as_str().to_string()));
        looks.push(("Terminal mode".to_string(), config.terminal_mode.name().to_string()));
        looks.push(("Scrollback".to_string(), number(config.scrollback as u128)));
        assert(pair_views(looks@) =~= looks_of(*config));
        let none: Vec<char> = Vec::new();
        assert(none@ =~= seq![]);
        let mut settings: Vec<(String, String)> = Vec::new();
        settings.push(("Keybindings".to_string(), number(config.keybindings as u128)));
        settings.push(("Remote hosts".to_string(), number(config.remote_hosts as u128)));
        settings.push(
            (
                "Startup commands".to_string(),
                match &config.startup_commands {
                    Some(s) => s.as_str().to_string(),
                    None => text_of(none.as_slice()),
                },
            ),
        );
        assert(pair_views(settings@) =~= config_of(*config));
        let mut out: Vec<(String, Vec<(String, String)>)> = Vec::new();
        out.push(("Session".to_string(), self.session_facts()));
        out.push(("Appearance".to_string(), looks));
        out.push(("Config".to_string(), settings));
        assert(section_views(out@) =~= seq![
            ("Session"@, facts_of(self@)),
            ("Appearance"@, looks_of(*config)),
            ("Config"@, config_of(*config)),
        ]);
        out
    }

    /// Takes in where the splits of a tab stand, from its root on.
    pub fn note_positions(&mut self, id: u64, positions: &[i32])
        requires
            old(self)@.is_sound(),
        ensures
            final(self)@ == match super::state::tab_at(old(self)@.tabs, id) {
                Some(i) => old(self)@.with_tab(
                    i,
                    super::state::TabView {
                        tree: super::tree::positioned(
                            old(self)@.tabs[i].tree,
                            positions@,
                            0,
                        ).0,
                        ..old(self)@.tabs[i]
                    },
                ),
                None => old(self)@,
            },
            final(self)@.is_sound(),
    {
        let ghost start = self@;
        if let Some(i) = self.index_of(id) {
            assert(start.tabs[i as int] == self.tabs@[i as int]@);
            let _used: usize = self.tabs[i].tree.place(positions, 0);
            proof {
                let t = super::state::TabView {
                    tree: super::tree::positioned(start.tabs[i as int].tree, positions@, 0).0,
                    ..start.tabs[i as int]
                };
                assert(self@.tabs =~= start.tabs.update(i as int, t));
                super::tree::placing_keeps_the_panes(start.tabs[i as int].tree, positions@, 0);
                super::sound::replacing_is_sound(start, i as int, t);
            }
        }
    }
}

} // verus!
