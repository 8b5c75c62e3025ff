//! Snapshots of a window, and windows out of snapshots.

use super::state::{Effect, Pane, Settings, Tab, Workspace};
use super::tree::{Orientation, Tree};
use crate::session::{PaneLayout, SavedSession, SavedTab};
use vstd::prelude::*;

verus! {

// ---------------------------------------------------------------------------
// Snapshots
// ---------------------------------------------------------------------------

/// What a snapshot keeps of a pane: its mode, its directory and the command to
/// replay.
pub open spec fn leaf_of(
    pane: u64,
    panes: Seq<super::state::PaneView>,
    running: Seq<(u64, Seq<char>)>,
) -> crate::session::Layout {
    match super::state::pane_at(panes, pane) {
        Some(i) => crate::session::Layout::Leaf {
            mode: crate::session::mode_name(panes[i].mode),
            cwd: panes[i].cwd,
            cmds: super::steps::command_of(pane, running),
        },
        None => crate::session::Layout::Leaf { mode: "block"@, cwd: None, cmds: None },
    }
}

/// The letter of an orientation: `h` for left and right, `v` for top and bottom.
pub open spec fn letter_of(orientation: Orientation) -> char {
    match orientation {
        Orientation::Vertical => 'v',
        Orientation::Horizontal => 'h',
    }
}

/// The orientation that a letter stands for; what is not `v` is horizontal.
pub open spec fn orientation_of(letter: char) -> Orientation {
    if letter == 'v' {
        Orientation::Vertical
    } else {
        Orientation::Horizontal
    }
}

/// What a snapshot keeps of a tree of panes.
pub open spec fn layout_of(
    tree: Tree,
    panes: Seq<super::state::PaneView>,
    running: Seq<(u64, Seq<char>)>,
) -> crate::session::Layout
    decreases tree,
{
    match tree {
        Tree::Leaf(p) => leaf_of(p, panes, running),
        Tree::Split { orientation, position, start, end } => crate::session::Layout::Split {
            orientation: letter_of(orientation),
            position: position as int,
            start: Box::new(layout_of(*start, panes, running)),
            end: Box::new(layout_of(*end, panes, running)),
        },
    }
}

/// What a snapshot keeps of a tab.
pub struct SavedView {
    pub title: Seq<char>,
    pub custom_title: bool,
    pub layout: crate::session::Layout,
}

/// What a [`SavedTab`] holds.
pub open spec fn saved_view(t: SavedTab) -> SavedView {
    SavedView { title: t.title@, custom_title: t.custom_title, layout: t.layout.model() }
}

/// What saved tabs hold, one by one.
pub open spec fn saved_views(tabs: Seq<SavedTab>) -> Seq<SavedView> {
    tabs.map_values(|t: SavedTab| saved_view(t))
}

/// What a snapshot keeps of tabs.
pub open spec fn snapshot_of(
    tabs: Seq<super::state::TabView>,
    running: Seq<(u64, Seq<char>)>,
) -> Seq<SavedView> {
    tabs.map_values(
        |t: super::state::TabView|
            SavedView {
                title: t.title,
                custom_title: t.custom_title,
                layout: layout_of(t.tree, t.panes, running),
            },
    )
}

fn serialize_leaf(tab: &Tab, pane: u64, running: &[(u64, String)]) -> (res: PaneLayout)
    ensures
        res.model() == leaf_of(pane, tab@.panes, super::state::running_views(running@)),
{
    match tab.pane_index(pane) {
        Some(i) => {
            assert(tab@.panes[i as int] == tab.panes@[i as int]@);
            let cmds = match super::run::command_of(pane, running) {
                Some(c) => Some(c.to_string()),
                None => None,
            };
            PaneLayout::Leaf {
                mode: tab.panes[i].mode.name().to_string(),
                cwd: super::run::copied(&tab.panes[i].cwd),
                cmds,
            }
        },
        None => PaneLayout::Leaf { mode: "block".to_string(), cwd: None, cmds: None },
    }
}

fn serialize_layout(tree: &Tree, tab: &Tab, running: &[(u64, String)]) -> (res: PaneLayout)
    ensures
        res.model() == layout_of(*tree, tab@.panes, super::state::running_views(running@)),
    decreases *tree,
{
    match tree {
        Tree::Leaf(p) => serialize_leaf(tab, *p, running),
        Tree::Split { orientation, position, start, end } => {
            let a = serialize_layout(start, tab, running);
            let b = serialize_layout(end, tab, running);
            PaneLayout::Split {
                orientation: if *orientation == Orientation::Vertical {
                    'v'
                } else {
                    'h'
                },
                position: *position,
                start: Box::new(a),
                end: Box::new(b),
            }
        },
    }
}

impl Workspace {
    /// Captures the tabs, each with its title and its layout.
    pub fn snapshot_session(&self, running: &[(u64, String)]) -> (res: SavedSession)
        ensures
            res.active == self.active,
            saved_views(res.tabs@) == snapshot_of(
                self@.tabs,
                super::state::running_views(running@),
            ),
    {
        let mut tabs: Vec<SavedTab> = Vec::new();
        let mut i: usize = 0;
        let ghost all = snapshot_of(self@.tabs, super::state::running_views(running@));
        while i < self.tabs.len()
            invariant
                i <= self.tabs.len(),
                all == snapshot_of(self@.tabs, super::state::running_views(running@)),
                saved_views(tabs@) =~= all.take(i as int),
            decreases self.tabs.len() - i,
        {
            let ghost before = tabs@;
            let t = &self.tabs[i];
            assert(self@.tabs[i as int] == t@);
            let layout = serialize_layout(&t.tree, t, running);
            let saved = SavedTab {
                title: t.title.as_str().to_string(),
                custom_title: t.custom_title,
                layout,
            };
            tabs.push(saved);
            proof {
                assert(saved_view(saved) == all[i as int]);
                assert(saved_views(tabs@) =~= saved_views(before).push(all[i as int]));
            }
            i += 1;
        }
        assert(all.take(i as int) =~= all);
        SavedSession { active: self.active, tabs }
    }
}

// ---------------------------------------------------------------------------
// Windows out of snapshots
// ---------------------------------------------------------------------------

/// How many panes a layout has.
pub open spec fn pane_count(l: crate::session::Layout) -> nat
    decreases l,
{
    match l {
        crate::session::Layout::Leaf { .. } => 1,
        crate::session::Layout::Split { start, end, .. } => pane_count(*start) + pane_count(*end),
    }
}

/// The tree of a layout whose panes are numbered from `next` on.
pub open spec fn built_tree(l: crate::session::Layout, next: int) -> Tree
    decreases l,
{
    match l {
        crate::session::Layout::Leaf { .. } => Tree::Leaf(next as u64),
        crate::session::Layout::Split { orientation, position, start, end } => Tree::Split {
            orientation: orientation_of(orientation),
            position: position as i32,
            start: Box::new(built_tree(*start, next)),
            end: Box::new(built_tree(*end, next + pane_count(*start))),
        },
    }
}

/// The panes of a layout, numbered from `next` on.
pub open spec fn built_panes(l: crate::session::Layout, next: int) -> Seq<super::state::PaneView>
    decreases l,
{
    match l {
        crate::session::Layout::Leaf { mode, cwd, .. } => seq![
            super::state::PaneView { id: next as u64, cwd, mode: crate::session::mode_of(mode) },
        ],
        crate::session::Layout::Split { start, end, .. } => built_panes(*start, next)
            + built_panes(*end, next + pane_count(*start)),
    }
}

/// What is to be done for a layout: each of its panes is started, and its
/// command replayed.
pub open spec fn built_deeds(l: crate::session::Layout, tab: u64, next: int) -> Seq<
    super::state::Deed,
>
    decreases l,
{
    match l {
        crate::session::Layout::Leaf { mode, cwd, cmds } => seq![
            super::state::Deed::Spawn {
                tab,
                pane: next as u64,
                mode: crate::session::mode_of(mode),
                commands: cmds,
                cwd,
                host: None,
            },
        ],
        crate::session::Layout::Split { start, end, .. } => built_deeds(*start, tab, next)
            + built_deeds(*end, tab, next + pane_count(*start)),
    }
}

/// The tab of a snapshot.
pub open spec fn built_tab(s: SavedView, id: u64, next: int) -> super::state::TabView {
    super::state::TabView {
        id,
        panes: built_panes(s.layout, next),
        active_pane: 0,
        title: s.title,
        custom_title: s.custom_title,
        bell: false,
        activity: false,
        marked: false,
        tree: built_tree(s.layout, next),
        zoom: None,
    }
}

/// How many panes saved tabs have.
pub open spec fn total_panes(tabs: Seq<SavedView>) -> nat
    decreases tabs.len(),
{
    if tabs.len() == 0 {
        0
    } else {
        total_panes(tabs.drop_last()) + pane_count(tabs.last().layout)
    }
}

impl super::state::World {
    /// A saved tab is brought back.
    pub open spec fn restore_tab(self, s: SavedView) -> (
        super::state::World,
        Seq<super::state::Deed>,
    ) {
        (
            super::state::World {
                tabs: self.tabs.push(built_tab(s, self.next_id, self.next_pane_id as int)),
                next_id: (self.next_id + 1) as u64,
                next_pane_id: (self.next_pane_id + pane_count(s.layout)) as u64,
                ..self
            },
            built_deeds(s.layout, self.next_id, self.next_pane_id as int).push(
                super::state::Deed::Relayout(self.next_id),
            ),
        )
    }

    /// Saved tabs are brought back, one after the other.
    pub open spec fn restore_tabs(self, tabs: Seq<SavedView>) -> (
        super::state::World,
        Seq<super::state::Deed>,
    )
        decreases tabs.len(),
    {
        if tabs.len() == 0 {
            (self, seq![])
        } else {
            let first = self.restore_tabs(tabs.drop_last());
            super::steps::after(first.1, first.0.restore_tab(tabs.last()))
        }
    }

    /// A snapshot is brought back, and its active tab selected.
    pub open spec fn restore(self, active: int, tabs: Seq<SavedView>) -> (
        super::state::World,
        Seq<super::state::Deed>,
    ) {
        let first = self.restore_tabs(tabs);
        let w = first.0;
        if w.tabs.len() == 0 {
            first
        } else {
            let i = if active >= w.tabs.len() {
                w.tabs.len() - 1
            } else {
                active
            };
            super::steps::after(first.1, w.select(w.tabs[i].id))
        }
    }
}

/// A window without tabs.
pub open spec fn empty_world() -> super::state::World {
    super::state::World {
        tabs: seq![],
        active: 0,
        next_id: 0,
        next_pane_id: 0,
        sidebar_visible: true,
        search_open: false,
        tab_filter: seq![],
    }
}

fn build_pane_layout(
    node: &PaneLayout,
    tab: u64,
    next: &mut u64,
    panes: &mut Vec<Pane>,
    out: &mut Vec<Effect>,
) -> (res: Tree)
    requires
        *old(next) + pane_count(node.model()) <= u64::MAX,
    ensures
        res == built_tree(node.model(), *old(next) as int),
        *final(next) == *old(next) + pane_count(node.model()),
        super::state::pane_views(final(panes)@) == super::state::pane_views(old(panes)@)
            + built_panes(node.model(), *old(next) as int),
        super::state::deeds(final(out)@) == super::state::deeds(old(out)@) + built_deeds(
            node.model(),
            tab,
            *old(next) as int,
        ),
    decreases *node,
{
    let ghost first = *next as int;
    let ghost panes0 = super::state::pane_views(panes@);
    let ghost deeds0 = super::state::deeds(out@);
    match node {
        PaneLayout::Leaf { mode, cwd, cmds } => {
            let pane = *next;
            *next = pane + 1;
            let ghost panes1 = panes@;
            let mode = PaneLayout::terminal_mode(mode.as_str());
            let p = Pane { id: pane, cwd: super::run::copied(cwd), mode };
            panes.push(p);
            assert(super::state::pane_views(panes@) =~= panes0 + built_panes(node.model(), first));
            super::run::put(
                out,
                Effect::Spawn {
                    tab,
                    pane,
                    mode,
                    commands: super::run::copied(cmds),
                    cwd: super::run::copied(cwd),
                    host: None,
                },
            );
            assert(super::state::deeds(out@) =~= deeds0 + built_deeds(node.model(), tab, first));
            Tree::Leaf(pane)
        },
        PaneLayout::Split { orientation, position, start, end } => {
            let o = if *orientation == 'v' {
                Orientation::Vertical
            } else {
                Orientation::Horizontal
            };
            let a = build_pane_layout(start, tab, next, panes, out);
            let b = build_pane_layout(end, tab, next, panes, out);
            proof {
                assert(super::state::pane_views(panes@) =~= panes0 + built_panes(
                    node.model(),
                    first,
                ));
                assert(super::state::deeds(out@) =~= deeds0 + built_deeds(
                    node.model(),
                    tab,
                    first,
                ));
            }
            Tree::Split { orientation: o, position: *position, start: Box::new(a), end: Box::new(b) }
        },
    }
}

impl Workspace {
    /// A window without tabs.
    pub fn new() -> (res: Workspace)
        ensures
            res@ == empty_world(),
    {
        let none: Vec<char> = Vec::new();
        let res = Workspace {
            tabs: Vec::new(),
            active: 0,
            next_id: 0,
            next_pane_id: 0,
            sidebar_visible: true,
            search_open: false,
            tab_filter: crate::text::text_of(none.as_slice()),
        };
        assert(res@.tabs =~= seq![]);
        assert(res@.tab_filter =~= seq![]);
        res
    }

    /// Brings a saved tab back: its tree of panes, each with its directory, its
    /// mode and its command.
    pub fn restore_tab(&mut self, saved: &SavedTab, out: &mut Vec<Effect>)
        requires
            old(self).next_id < u64::MAX,
            old(self).next_pane_id + pane_count(saved.layout.model()) <= u64::MAX,
        ensures
            (final(self)@, super::state::deeds(final(out)@)) == super::steps::after(
                super::state::deeds(old(out)@),
                old(self)@.restore_tab(saved_view(*saved)),
            ),
    {
        let ghost start = self@;
        let ghost before = super::state::deeds(out@);
        let id = self.next_id;
        self.next_id = id + 1;
        let mut panes: Vec<Pane> = Vec::new();
        let mut next = self.next_pane_id;
        let tree = build_pane_layout(&saved.layout, id, &mut next, &mut panes, out);
        self.next_pane_id = next;
        let t = Tab {
            id,
            panes,
            active_pane: 0,
            title: saved.title.as_str().to_string(),
            custom_title: saved.custom_title,
            bell: false,
            activity: false,
            marked: false,
            tree,
            zoom: None,
        };
        let ghost fresh = built_tab(saved_view(*saved), id, start.next_pane_id as int);
        assert(t@.panes =~= fresh.panes);
        assert(t@ == fresh);
        self.tabs.push(t);
        assert(self@.tabs =~= start.tabs.push(fresh));
        super::run::put(out, Effect::Relayout(id));
        assert(super::state::deeds(out@) =~= before + start.restore_tab(saved_view(*saved)).1);
    }

    /// Brings a snapshot back, and selects its active tab.
    pub fn restore_session(&mut self, saved: &SavedSession, out: &mut Vec<Effect>)
        requires
            old(self).next_id + saved.tabs@.len() <= u64::MAX,
            old(self).next_pane_id + total_panes(saved_views(saved.tabs@)) <= u64::MAX,
        ensures
            (final(self)@, super::state::deeds(final(out)@)) == super::steps::after(
                super::state::deeds(old(out)@),
                old(self)@.restore(saved.active as int, saved_views(saved.tabs@)),
            ),
    {
        let ghost start = self@;
        let ghost before = super::state::deeds(out@);
        let ghost all = saved_views(saved.tabs@);
        let mut i: usize = 0;
        proof {
            assert(all.take(0) =~= seq![]);
            assert(before + start.restore_tabs(all.take(0)).1 =~= before);
        }
        while i < saved.tabs.len()
            invariant
                i <= saved.tabs.len(),
                all == saved_views(saved.tabs@),
                start.next_id + saved.tabs@.len() <= u64::MAX,
                start.next_pane_id + total_panes(all) <= u64::MAX,
                self.next_id == start.next_id + i,
                self.next_pane_id == start.next_pane_id + total_panes(all.take(i as int)),
                (self@, super::state::deeds(out@)) == super::steps::after(
                    before,
                    start.restore_tabs(all.take(i as int)),
                ),
            decreases saved.tabs.len() - i,
        {
            proof {
                assert(all.take(i + 1).drop_last() =~= all.take(i as int));
                assert(all.take(i + 1).last() == saved_view(saved.tabs@[i as int]));
                lemma_total_grows(all, i + 1);
            }
            let ghost so_far = super::state::deeds(out@);
            let ghost here = self@;
            self.restore_tab(&saved.tabs[i], out);
            proof {
                let s = start.restore_tabs(all.take(i + 1));
                assert(super::state::deeds(out@) =~= before + s.1);
            }
            i += 1;
        }
        assert(all.take(i as int) =~= all);
        if self.tabs.len() > 0 {
            let k: usize = if saved.active >= self.tabs.len() {
                self.tabs.len() - 1
            } else {
                saved.active
            };
            assert(self@.tabs[k as int] == self.tabs@[k as int]@);
            let id = self.tabs[k].id;
            self.select_tab(id, out);
            assert(super::state::deeds(out@) =~= before + start.restore(
                saved.active as int,
                all,
            ).1);
        } else {
            assert(self@.tabs.len() == 0);
        }
    }

    /// Opens a window: with the tabs of a snapshot, or with one fresh tab.
    pub fn open_window(saved: Option<&SavedSession>, settings: &Settings) -> (res: (
        Workspace,
        Vec<Effect>,
    ))
        requires
            saved matches Some(s) ==> s.tabs@.len() <= u64::MAX && total_panes(
                saved_views(s.tabs@),
            ) <= u64::MAX,
        ensures
            (res.0@, super::state::deeds(res.1@)) == match saved {
                Some(s) => empty_world().restore(s.active as int, saved_views(s.tabs@)),
                None => empty_world().add_tab(settings@),
            },
            res.0@.is_sound(),
    {
        let mut w = Workspace::new();
        let mut out: Vec<Effect> = Vec::new();
        let ghost before = super::state::deeds(out@);
        assert(before =~= seq![]);
        match saved {
            Some(s) => {
                w.restore_session(s, &mut out);
            },
            None => {
                assert(w@.tabs.len() == w.tabs@.len());
                w.add_tab(settings, &mut out);
            },
        }
        proof {
            let step = match saved {
                Some(s) => empty_world().restore(s.active as int, saved_views(s.tabs@)),
                None => empty_world().add_tab(settings@),
            };
            assert(before + step.1 =~= step.1);
            match saved {
                Some(s) => {
                    super::restored::restored_windows_are_sound(
                        s.active as int,
                        saved_views(s.tabs@),
                    );
                },
                None => {
                    super::restored::fresh_windows_are_sound(settings@);
                },
            }
        }
        (w, out)
    }
}

proof fn lemma_total_grows(tabs: Seq<SavedView>, n: int)
    requires
        0 <= n <= tabs.len(),
    ensures
        total_panes(tabs.take(n)) <= total_panes(tabs),
    decreases tabs.len(),
{
    if n == tabs.len() {
        assert(tabs.take(n) =~= tabs);
    } else {
        lemma_total_grows(tabs.drop_last(), n);
        assert(tabs.drop_last().take(n) =~= tabs.take(n));
    }
}

} // verus!
