//! What the list of tabs, its menu and a saved session hold, told tab by tab,
//! and what becomes of marked tabs.

use vstd::prelude::*;

use super::state::{Deed, MsgView, PaneView, SettingsView, TabView, World};
use super::strip::{DebugConfig, MenuChoice, RowView};
use super::tree::{Orientation, Tree};
use crate::action::Action;
use crate::session::{Layout, TerminalMode};
use crate::terminal::vte::VteOutput;

verus! {

// ---------------------------------------------------------------------------
// Marked tabs
// ---------------------------------------------------------------------------

/// There is a tab with a number, and it is marked or not.
pub open spec fn has_tab(w: World, id: u64, marked: bool) -> bool {
    exists|i: int|
        0 <= i < w.tabs.len() && (#[trigger] w.tabs[i]).id == id && w.tabs[i].marked == marked
}

proof fn lemma_selecting_keeps(w: World, id: u64, x: u64, m: bool)
    ensures
        has_tab(w.select(id).0, x, m) == has_tab(w, x, m),
{
    super::state::tab_at_is_first(w.tabs, id);
    let v = w.select(id).0;
    assert(v.tabs.len() == w.tabs.len());
    assert forall|i: int| 0 <= i < w.tabs.len() implies (#[trigger] v.tabs[i]).id == w.tabs[i].id
        && v.tabs[i].marked == w.tabs[i].marked by {}
    if has_tab(w, x, m) {
        let i = choose|i: int|
            0 <= i < w.tabs.len() && (#[trigger] w.tabs[i]).id == x && w.tabs[i].marked == m;
        assert(v.tabs[i].id == x && v.tabs[i].marked == m);
    }
    if has_tab(v, x, m) {
        let i = choose|i: int|
            0 <= i < v.tabs.len() && (#[trigger] v.tabs[i]).id == x && v.tabs[i].marked == m;
        assert(w.tabs[i].id == x && w.tabs[i].marked == m);
    }
}

proof fn lemma_closing_keeps(w: World, id: u64, x: u64, m: bool)
    requires
        w.is_sound(),
    ensures
        has_tab(w.close_tab(id).0, x, m) == (has_tab(w, x, m) && x != id),
{
    super::state::tab_at_is_first(w.tabs, id);
    match super::state::tab_at(w.tabs, id) {
        Some(i) => {
            let rest = World { tabs: w.tabs.remove(i), ..w };
            assert(has_tab(rest, x, m) == (has_tab(w, x, m) && x != id)) by {
                if has_tab(w, x, m) && x != id {
                    let k = choose|k: int|
                        0 <= k < w.tabs.len() && (#[trigger] w.tabs[k]).id == x
                            && w.tabs[k].marked == m;
                    let j = if k < i {
                        k
                    } else {
                        k - 1
                    };
                    assert(rest.tabs[j] == w.tabs[k]);
                }
                if has_tab(rest, x, m) {
                    let j = choose|j: int|
                        0 <= j < rest.tabs.len() && (#[trigger] rest.tabs[j]).id == x
                            && rest.tabs[j].marked == m;
                    let k = if j < i {
                        j
                    } else {
                        j + 1
                    };
                    assert(rest.tabs[j] == w.tabs[k]);
                    assert(super::state::are_apart(w.tabs[k], w.tabs[i]));
                }
            }
            if rest.tabs.len() > 0 {
                let j = if i >= rest.tabs.len() {
                    rest.tabs.len() - 1
                } else {
                    i
                };
                lemma_selecting_keeps(rest, rest.tabs[j].id, x, m);
            }
        },
        None => {},
    }
}

proof fn lemma_closing_all_keeps(w: World, ids: Seq<u64>, x: u64, m: bool)
    requires
        w.is_sound(),
    ensures
        has_tab(w.close_tabs(ids).0, x, m) == (has_tab(w, x, m) && !ids.contains(x)),
    decreases ids.len(),
{
    if ids.len() > 0 {
        let v = w.close_tab(ids[0]).0;
        lemma_closing_keeps(w, ids[0], x, m);
        super::sound::lemma_close_tab_sound(w, ids[0]);
        lemma_closing_all_keeps(v, ids.skip(1), x, m);
        if ids.contains(x) {
            let k = choose|k: int| 0 <= k < ids.len() && ids[k] == x;
            if k > 0 {
                assert(ids.skip(1)[k - 1] == x);
            }
        }
        if ids.skip(1).contains(x) {
            let k = choose|k: int| 0 <= k < ids.skip(1).len() && ids.skip(1)[k] == x;
            assert(ids[k + 1] == x);
        }
        assert(ids.contains(ids[0]));
    }
}

proof fn lemma_marked(tabs: Seq<TabView>, x: u64)
    ensures
        super::steps::marked_ids(tabs).contains(x) == exists|i: int|
            0 <= i < tabs.len() && (#[trigger] tabs[i]).id == x && tabs[i].marked,
    decreases tabs.len(),
{
    let ids = super::steps::marked_ids(tabs);
    if tabs.len() > 0 {
        let front = tabs.drop_last();
        let before = super::steps::marked_ids(front);
        lemma_marked(front, x);
        if before.contains(x) {
            let i = choose|i: int|
                0 <= i < front.len() && (#[trigger] front[i]).id == x && front[i].marked;
            assert(tabs[i].id == x && tabs[i].marked);
            let k = choose|k: int| 0 <= k < before.len() && before[k] == x;
            assert(ids[k] == x);
        }
        if tabs.last().marked {
            assert(ids.last() == tabs.last().id);
            assert(ids[ids.len() - 1] == tabs[tabs.len() - 1].id);
            if ids.contains(x) && !before.contains(x) {
                let k = choose|k: int| 0 <= k < ids.len() && ids[k] == x;
                if k < before.len() {
                    assert(before[k] == x);
                }
                assert(tabs[tabs.len() - 1].id == x);
            }
        }
        if exists|i: int| 0 <= i < tabs.len() && (#[trigger] tabs[i]).id == x && tabs[i].marked {
            let i = choose|i: int|
                0 <= i < tabs.len() && (#[trigger] tabs[i]).id == x && tabs[i].marked;
            if i < front.len() {
                assert(front[i].id == x && front[i].marked);
                assert(before.contains(x));
            } else {
                assert(ids[ids.len() - 1] == x);
            }
        }
    }
}

/// Closing the selected tabs closes those that are marked, every one of them,
/// and no other.
pub proof fn marked_tabs_are_closed(
    w: World,
    s: SettingsView,
    running: Seq<(u64, Seq<char>)>,
    id: u64,
)
    requires
        w.is_sound(),
    ensures
        ({
            let v = w.update(MsgView::Action(Action::CloseSelectedTabs), s, running).0;
            &&& !has_tab(v, id, true)
            &&& has_tab(v, id, false) == has_tab(w, id, false)
        }),
{
    let ids = super::steps::marked_ids(w.tabs);
    lemma_closing_all_keeps(w, ids, id, true);
    lemma_closing_all_keeps(w, ids, id, false);
    lemma_marked(w.tabs, id);
    if has_tab(w, id, true) && has_tab(w, id, false) {
        let i = choose|i: int|
            0 <= i < w.tabs.len() && (#[trigger] w.tabs[i]).id == id && w.tabs[i].marked == true;
        let j = choose|j: int|
            0 <= j < w.tabs.len() && (#[trigger] w.tabs[j]).id == id && w.tabs[j].marked == false;
        assert(super::state::are_apart(w.tabs[i], w.tabs[j]));
    }
    if has_tab(w, id, true) {
        let i = choose|i: int|
            0 <= i < w.tabs.len() && (#[trigger] w.tabs[i]).id == id && w.tabs[i].marked == true;
        assert(ids.contains(id));
    }
    if ids.contains(id) {
        let i = choose|i: int|
            0 <= i < w.tabs.len() && (#[trigger] w.tabs[i]).id == id && w.tabs[i].marked;
        assert(has_tab(w, id, true));
    }
}

// ---------------------------------------------------------------------------
// The list of tabs
// ---------------------------------------------------------------------------

/// A row of the list says of its tab what the tab says of itself.
pub open spec fn shows(r: RowView, w: World) -> bool {
    &&& 0 <= r.index < w.tabs.len()
    &&& r.id == w.tabs[r.index].id
    &&& r.title == w.tabs[r.index].title
    &&& r.bell == w.tabs[r.index].bell
    &&& r.activity == w.tabs[r.index].activity
    &&& r.marked == w.tabs[r.index].marked
    &&& r.active == (r.index == w.active)
}

/// The title holds the filter, without regard to case.
pub open spec fn is_found(title: Seq<char>, filter: Seq<char>) -> bool {
    crate::text::contains(crate::text::lowercased(title), crate::text::lowercased(filter))
}

proof fn lemma_rows(w: World, n: int)
    requires
        0 <= n <= w.tabs.len(),
    ensures
        ({
            let rows = super::strip::rows_of(w, n);
            &&& forall|k: int|
                0 <= k < rows.len() ==> shows(#[trigger] rows[k], w) && rows[k].index < n
                    && is_found(w.tabs[rows[k].index].title, w.tab_filter)
            &&& forall|k: int, l: int|
                0 <= k < l < rows.len() ==> (#[trigger] rows[k]).index < (#[trigger] rows[l]).index
        }),
    decreases n,
{
    if n > 0 {
        lemma_rows(w, n - 1);
        let t = w.tabs[n - 1];
        if crate::text::lowercased(w.tab_filter).len() == 0 {
            let title = crate::text::lowercased(t.title);
            let filter = crate::text::lowercased(w.tab_filter);
            assert(title.subrange(0, 0) =~= filter);
            assert(crate::text::stands_at(title, filter, 0));
        }
    }
}

proof fn lemma_rows_complete(w: World, n: int, i: int)
    requires
        0 <= i < n <= w.tabs.len(),
        is_found(w.tabs[i].title, w.tab_filter),
    ensures
        exists|k: int|
            0 <= k < super::strip::rows_of(w, n).len() && (#[trigger] super::strip::rows_of(
                w,
                n,
            )[k]).index == i,
    decreases n,
{
    let rows = super::strip::rows_of(w, n);
    let before = super::strip::rows_of(w, n - 1);
    if i == n - 1 {
        assert(rows[rows.len() - 1].index == i);
    } else {
        lemma_rows_complete(w, n - 1, i);
        let k = choose|k: int| 0 <= k < before.len() && (#[trigger] before[k]).index == i;
        assert(rows[k] == before[k]);
    }
}

/// The list shows the tabs whose titles hold the filter, each once and in
/// order, and says of each what it is.
pub proof fn the_list_shows_the_tabs(w: World, i: int)
    requires
        0 <= i < w.tabs.len(),
    ensures
        ({
            let rows = super::strip::rows_of(w, w.tabs.len() as int);
            &&& forall|k: int|
                0 <= k < rows.len() ==> shows(#[trigger] rows[k], w) && is_found(
                    w.tabs[rows[k].index].title,
                    w.tab_filter,
                )
            &&& forall|k: int, l: int|
                0 <= k < l < rows.len() ==> (#[trigger] rows[k]).index < (#[trigger] rows[l]).index
            &&& is_found(w.tabs[i].title, w.tab_filter) ==> exists|k: int|
                0 <= k < rows.len() && (#[trigger] rows[k]).index == i
        }),
{
    lemma_rows(w, w.tabs.len() as int);
    if is_found(w.tabs[i].title, w.tab_filter) {
        lemma_rows_complete(w, w.tabs.len() as int, i);
    }
}

/// A choice in a tab's menu opens a tab, duplicates or marks that tab, which
/// comes into view, or asks to close it; its words say so.
pub proof fn choices_act_on_their_tab(id: u64, marked: bool)
    ensures
        super::strip::choice_messages(MenuChoice::NewTab, id) == seq![MsgView::NewTab],
        super::strip::choice_messages(MenuChoice::Duplicate, id) == seq![
            MsgView::SelectTab(id),
            MsgView::Action(Action::DuplicateTab),
        ],
        super::strip::choice_messages(MenuChoice::Mark, id) == seq![
            MsgView::SelectTab(id),
            MsgView::Action(Action::ToggleTabMarked),
        ],
        super::strip::choice_messages(MenuChoice::Rename, id).len() == 0,
        super::strip::choice_messages(MenuChoice::Close, id) == seq![MsgView::CloseTab(id)],
        super::strip::choice_words(MenuChoice::NewTab, marked) == "New Tab"@,
        super::strip::choice_words(MenuChoice::Duplicate, marked) == "Duplicate"@,
        super::strip::choice_words(MenuChoice::Mark, true) == "Unmark"@,
        super::strip::choice_words(MenuChoice::Mark, false) == "Mark Important"@,
        super::strip::choice_words(MenuChoice::Rename, marked) == "Rename"@,
        super::strip::choice_words(MenuChoice::Close, marked) == "Close"@,
{
}

/// The dashboard counts the tabs and their panes and tells of the active tab;
/// each tab adds its own panes to the count.
pub proof fn the_dashboard_counts(w: World, t: TabView, n: int, c: DebugConfig)
    requires
        w.has_active(),
        0 <= n < w.tabs.len(),
    ensures
        ({
            let f = super::strip::facts_of(w);
            let a = w.tabs[w.active];
            &&& f.len() == 5
            &&& f[0] == ("Tabs"@, crate::text::decimal(w.tabs.len()))
            &&& f[1] == (
                "Total panes"@,
                crate::text::decimal(super::strip::panes_in(w.tabs, w.tabs.len() as int)),
            )
            &&& f[2] == ("Active tab"@, a.title)
            &&& f[3] == ("Panes in active tab"@, crate::text::decimal(a.panes.len()))
            &&& a.zoom is Some ==> f[4] == ("Zoomed"@, "true"@)
            &&& a.zoom is None ==> f[4] == ("Zoomed"@, "false"@)
        }),
        super::strip::panes_in(w.tabs, n + 1) == super::strip::panes_in(w.tabs, n)
            + w.tabs[n].panes.len(),
        super::strip::panes_in(w.tabs, 0) == 0,
        super::strip::looks_of(c) == seq![
            ("Theme"@, c.theme@),
            ("Font"@, c.font@),
            ("Font scale"@, c.font_scale@),
            ("Opacity"@, c.opacity@),
            ("Terminal mode"@, crate::session::mode_name(c.terminal_mode)),
            ("Scrollback"@, crate::text::decimal(c.scrollback as nat)),
        ],
        super::strip::config_of(c).len() == 3,
        super::strip::config_of(c)[0] == (
            "Keybindings"@,
            crate::text::decimal(c.keybindings as nat),
        ),
        super::strip::config_of(c)[1] == (
            "Remote hosts"@,
            crate::text::decimal(c.remote_hosts as nat),
        ),
        c.startup_commands matches Some(s) ==> super::strip::config_of(c)[2] == (
            "Startup commands"@,
            s@,
        ),
{
}

/// A terminal's report goes to the window as what it is, with the tab and the
/// pane it came from.
pub proof fn reports_name_their_pane(tab: u64, pane: u64, code: i32, text: String)
    ensures
        super::run::report(VteOutput::Exited(code), tab, pane) == MsgView::PaneExited(tab, pane),
        super::run::report(VteOutput::CwdChanged(text), tab, pane) == MsgView::PaneCwdChanged(
            tab,
            pane,
            text@,
        ),
        super::run::report(VteOutput::TitleChanged(text), tab, pane) == MsgView::TitleChanged(
            tab,
            text@,
        ),
        super::run::report(VteOutput::Bell, tab, pane) == MsgView::Bell(tab),
        super::run::report(VteOutput::Activity, tab, pane) == MsgView::Activity(tab),
        super::run::report(VteOutput::Focused, tab, pane) == MsgView::PaneFocused(tab, pane),
{
}

// ---------------------------------------------------------------------------
// Saved sessions
// ---------------------------------------------------------------------------

/// A pane is saved with its mode, its directory and the command that runs in
/// it, and a split with the letter of its direction, its place and its sides.
pub proof fn layouts_are_saved(
    pane: PaneView,
    panes: Seq<PaneView>,
    i: int,
    running: Seq<(u64, Seq<char>)>,
    position: i32,
    a: Tree,
    b: Tree,
)
    requires
        0 <= i < panes.len(),
        panes[i] == pane,
        forall|k: int| 0 <= k < i ==> (#[trigger] panes[k]).id != pane.id,
    ensures
        ({
            let leaf = super::restore::layout_of(Tree::Leaf(pane.id), panes, running);
            &&& leaf == (Layout::Leaf {
                mode: crate::session::mode_name(pane.mode),
                cwd: pane.cwd,
                cmds: super::steps::command_of(pane.id, running),
            })
        }),
        super::restore::layout_of(
            Tree::Split {
                orientation: Orientation::Vertical,
                position,
                start: Box::new(a),
                end: Box::new(b),
            },
            panes,
            running,
        ) == (Layout::Split {
            orientation: 'v',
            position: position as int,
            start: Box::new(super::restore::layout_of(a, panes, running)),
            end: Box::new(super::restore::layout_of(b, panes, running)),
        }),
        super::restore::layout_of(
            Tree::Split {
                orientation: Orientation::Horizontal,
                position,
                start: Box::new(a),
                end: Box::new(b),
            },
            panes,
            running,
        ) == (Layout::Split {
            orientation: 'h',
            position: position as int,
            start: Box::new(super::restore::layout_of(a, panes, running)),
            end: Box::new(super::restore::layout_of(b, panes, running)),
        }),
{
    lemma_pane_found(panes, pane.id, i);
}

proof fn lemma_pane_found(panes: Seq<PaneView>, id: u64, i: int)
    requires
        0 <= i < panes.len(),
        panes[i].id == id,
        forall|k: int| 0 <= k < i ==> (#[trigger] panes[k]).id != id,
    ensures
        super::state::pane_at(panes, id) == Some(i),
    decreases i,
{
    if i > 0 {
        let rest = panes.skip(1);
        assert(panes[0].id != id);
        assert forall|k: int| 0 <= k < i - 1 implies (#[trigger] rest[k]).id != id by {
            assert(rest[k] == panes[k + 1]);
        }
        lemma_pane_found(rest, id, i - 1);
    }
}

/// A saved pane is started anew in its mode and its directory, and its command
/// is typed; both sides of a split come back on their sides.
pub proof fn panes_are_started_anew(
    mode: TerminalMode,
    cwd: Option<Seq<char>>,
    cmds: Option<Seq<char>>,
    position: i32,
    a: Layout,
    b: Layout,
    tab: u64,
    next: u64,
)
    ensures
        ({
            let leaf = Layout::Leaf { mode: crate::session::mode_name(mode), cwd, cmds };
            let n = next as int;
            &&& super::restore::built_tree(leaf, n) == Tree::Leaf(next)
            &&& super::restore::built_panes(leaf, n) == seq![PaneView { id: next, cwd, mode }]
            &&& super::restore::built_deeds(leaf, tab, n) == seq![
                Deed::Spawn { tab, pane: next, mode, commands: cmds, cwd, host: None },
            ]
        }),
        ({
            let n = next as int;
            let m = n + super::restore::pane_count(a);
            let v = Layout::Split {
                orientation: 'v',
                position: position as int,
                start: Box::new(a),
                end: Box::new(b),
            };
            let h = Layout::Split {
                orientation: 'h',
                position: position as int,
                start: Box::new(a),
                end: Box::new(b),
            };
            &&& super::restore::built_tree(v, n) == (Tree::Split {
                orientation: Orientation::Vertical,
                position,
                start: Box::new(super::restore::built_tree(a, n)),
                end: Box::new(super::restore::built_tree(b, m)),
            })
            &&& super::restore::built_tree(h, n) == (Tree::Split {
                orientation: Orientation::Horizontal,
                position,
                start: Box::new(super::restore::built_tree(a, n)),
                end: Box::new(super::restore::built_tree(b, m)),
            })
            &&& super::restore::built_deeds(v, tab, n) == super::restore::built_deeds(a, tab, n)
                + super::restore::built_deeds(b, tab, m)
            &&& super::restore::pane_count(v) == super::restore::pane_count(a)
                + super::restore::pane_count(b)
        }),
{
    crate::session::modes_read_back(mode);
}

/// A restored window shows the tab that was shown, or the last one where there
/// are fewer now; its tabs come back in order, one more with each.
pub proof fn windows_come_back(
    active: int,
    tabs: Seq<super::restore::SavedView>,
    t: super::restore::SavedView,
    w: World,
)
    requires
        0 <= active,
        tabs.len() < u64::MAX,
        super::restore::total_panes(tabs.push(t)) <= u64::MAX,
        w.next_id < u64::MAX,
    ensures
        ({
            let all = tabs.push(t);
            let v = super::restore::empty_world().restore(active, all).0;
            &&& active < all.len() ==> v.active == active
            &&& active >= all.len() ==> v.active == all.len() - 1
        }),
        ({
            let r = w.restore_tab(t);
            let n = w.tabs.len() as int;
            &&& r.0.tabs.len() == n + 1
            &&& r.0.tabs.take(n) == w.tabs
            &&& r.0.tabs[n].id == w.next_id
            &&& r.0.tabs[n].title == t.title
            &&& r.0.tabs[n].custom_title == t.custom_title
            &&& r.0.next_id == w.next_id + 1
            &&& r.1.last() == Deed::Relayout(w.next_id)
        }),
{
    let all = tabs.push(t);
    super::restored::restored_windows_are_sound(active, all);
    assert(w.restore_tab(t).0.tabs.take(w.tabs.len() as int) =~= w.tabs);
    super::restored::lemma_restore_tabs_sound(all);
    if active >= all.len() {
        let v = super::restore::empty_world().restore_tabs(all).0;
        super::sound::tabs_are_found(v.tabs, all.len() - 1);
    }
}

} // verus!
