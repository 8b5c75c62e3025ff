//! What the window does when it is asked for something: one law for each
//! request, told of the tabs and panes before and after it and of what is then
//! to be done.

use super::state::{Deed, Direction, InputView, MsgView, PaneView, SettingsView, TabView, World};
use super::tree::{Orientation, Tree};
use crate::action::Action;
use crate::session::TerminalMode;
use vstd::prelude::*;

verus! {

// ---------------------------------------------------------------------------
// The tab and the pane in use
// ---------------------------------------------------------------------------

/// The window after an action, and what is to be done.
pub open spec fn acted(
    w: World,
    a: Action,
    s: SettingsView,
    running: Seq<(u64, Seq<char>)>,
) -> (World, Seq<Deed>) {
    w.update(MsgView::Action(a), s, running)
}

/// The active tab.
pub open spec fn tab_in_use(w: World) -> TabView {
    w.tabs[w.active]
}

/// The active pane of the active tab.
pub open spec fn pane_in_use(w: World) -> PaneView {
    tab_in_use(w).panes[tab_in_use(w).active_pane]
}

/// The window is sound and has a tab.
pub open spec fn is_open(w: World) -> bool {
    w.is_sound() && w.tabs.len() > 0
}

/// The two windows have the same tabs but for the one at `i`, and differ in
/// nothing else.
pub open spec fn same_but_tab(v: World, w: World, i: int) -> bool {
    &&& v == (World { tabs: v.tabs, ..w })
    &&& v.tabs.len() == w.tabs.len()
    &&& forall|j: int| 0 <= j < w.tabs.len() && j != i ==> #[trigger] v.tabs[j] == w.tabs[j]
}

proof fn lemma_open(w: World)
    requires
        is_open(w),
    ensures
        w.has_active(),
        0 <= tab_in_use(w).active_pane < tab_in_use(w).panes.len(),
        super::steps::pane_in_focus(tab_in_use(w)) == Some(pane_in_use(w)),
        super::state::tab_is_sound(tab_in_use(w), w.next_id, w.next_pane_id),
{
    assert(super::state::tab_is_sound(w.tabs[w.active], w.next_id, w.next_pane_id));
}

/// A pane is found where it stands.
proof fn lemma_place(w: World, i: int, p: int)
    requires
        w.is_sound(),
        0 <= i < w.tabs.len(),
        0 <= p < w.tabs[i].panes.len(),
    ensures
        super::state::pane_place(w.tabs, w.tabs[i].panes[p].id) == Some((i, p)),
        super::state::pane_at(w.tabs[i].panes, w.tabs[i].panes[p].id) == Some(p),
{
    let id = w.tabs[i].panes[p].id;
    let ids = super::state::pane_ids(w.tabs[i].panes);
    assert(super::state::tab_is_sound(w.tabs[i], w.next_id, w.next_pane_id));
    assert(ids[p] == id);
    assert(ids.contains(id));
    assert forall|j: int| 0 <= j < i implies super::state::pane_at(
        (#[trigger] w.tabs[j]).panes,
        id,
    ) is None by {
        assert(super::state::are_apart(w.tabs[i], w.tabs[j]));
        super::state::pane_at_is_first(w.tabs[j].panes, id);
        if let Some(k) = super::state::pane_at(w.tabs[j].panes, id) {
            assert(super::state::pane_ids(w.tabs[j].panes)[k] == id);
        }
    }
    super::state::lemma_pane_place(w.tabs, id, i);
    assert(w.tabs.skip(i)[0] == w.tabs[i]);
    assert forall|j: int| 0 <= j < p implies (#[trigger] w.tabs[i].panes[j]).id != id by {
        assert(ids[j] == w.tabs[i].panes[j].id);
    }
    super::state::lemma_pane_at(w.tabs[i].panes, id, p);
}

// ---------------------------------------------------------------------------
// Panes
// ---------------------------------------------------------------------------

/// The window after a split in the given direction.
pub open spec fn is_split(
    w: World,
    r: (World, Seq<Deed>),
    orientation: Orientation,
) -> bool {
    let t = tab_in_use(w);
    let u = r.0.tabs[w.active];
    let n = t.panes.len() as int;
    &&& r.0 == (World { tabs: r.0.tabs, next_pane_id: (w.next_pane_id + 1) as u64, ..w })
    &&& r.0.tabs.len() == w.tabs.len()
    &&& forall|j: int| 0 <= j < w.tabs.len() && j != w.active ==> #[trigger] r.0.tabs[j] == w.tabs[j]
    &&& u == (TabView { panes: u.panes, active_pane: n, tree: u.tree, ..t })
    &&& u.panes == t.panes.push(
        PaneView { id: w.next_pane_id, cwd: pane_in_use(w).cwd, mode: TerminalMode::Vte },
    )
    &&& t.panes.len() == 1 ==> u.tree == (Tree::Split {
        orientation,
        position: 0,
        start: Box::new(Tree::Leaf(pane_in_use(w).id)),
        end: Box::new(Tree::Leaf(w.next_pane_id)),
    })
    &&& r.1 == seq![
        Deed::Spawn {
            tab: t.id,
            pane: w.next_pane_id,
            mode: TerminalMode::Vte,
            commands: None,
            cwd: pane_in_use(w).cwd,
            host: None,
        },
        Deed::Relayout(t.id),
        Deed::Send(w.next_pane_id, InputView::GrabFocus),
    ]
}

/// A split gives the tab a new last pane in the directory of the pane that was
/// in use, starts a terminal in it there, and puts the focus in it: beside it
/// for a horizontal split, below it for a vertical one. In a zoomed tab there
/// is no split.
pub proof fn splits_inherit_the_directory(
    w: World,
    s: SettingsView,
    running: Seq<(u64, Seq<char>)>,
)
    requires
        is_open(w),
        w.next_pane_id < u64::MAX,
    ensures
        tab_in_use(w).zoom is None ==> {
            let r = acted(w, Action::SplitHorizontal, s, running);
            let t = tab_in_use(w);
            let u = r.0.tabs[w.active];
            &&& u.panes.len() == t.panes.len() + 1
            &&& u.panes.last().cwd == pane_in_use(w).cwd
            &&& r.1[0] == (Deed::Spawn {
                tab: t.id,
                pane: u.panes.last().id,
                mode: TerminalMode::Vte,
                commands: None,
                cwd: pane_in_use(w).cwd,
                host: None,
            })
            &&& is_split(w, r, Orientation::Horizontal)
        },
        tab_in_use(w).zoom is None ==> is_split(
            w,
            acted(w, Action::SplitVertical, s, running),
            Orientation::Vertical,
        ),
        tab_in_use(w).zoom is Some ==> acted(w, Action::SplitHorizontal, s, running) == (
            w,
            Seq::<Deed>::empty(),
        ) && acted(w, Action::SplitVertical, s, running) == (w, Seq::<Deed>::empty()),
{
    lemma_open(w);
    let t = tab_in_use(w);
    if t.panes.len() == 1 && t.zoom is None {
        super::sound::leaves_are_the_panes(t, w.next_id, w.next_pane_id);
        lemma_lone_leaf(w);
    }
}

/// The tree of a tab with one pane is that pane.
proof fn lemma_lone_leaf(w: World)
    requires
        is_open(w),
        tab_in_use(w).panes.len() == 1,
    ensures
        tab_in_use(w).tree == Tree::Leaf(pane_in_use(w).id),
{
    lemma_open(w);
    let t = tab_in_use(w);
    let ids = super::state::pane_ids(t.panes);
    let l = super::tree::leaves(t.tree);
    assert(ids =~= seq![t.panes[0].id]);
    l.to_multiset_ensures();
    ids.to_multiset_ensures();
    assert(l.len() == 1);
    assert(l.to_multiset().count(l[0]) > 0);
    assert(ids.contains(l[0]));
    match t.tree {
        Tree::Leaf(p) => {
            assert(l[0] == p);
        },
        Tree::Split { start, end, .. } => {
            super::tree::trees_have_panes(*start);
            super::tree::trees_have_panes(*end);
        },
    }
}

/// The focus goes on to the next pane of the tab, or back to the one before it;
/// the last one and the first one are neighbours.
pub proof fn the_focus_goes_round(w: World, s: SettingsView, running: Seq<(u64, Seq<char>)>)
    requires
        is_open(w),
        tab_in_use(w).panes.len() > 1,
    ensures
        ({
            let t = tab_in_use(w);
            let n = t.panes.len() as int;
            let next = if t.active_pane == n - 1 {
                0
            } else {
                t.active_pane + 1
            };
            let r = acted(w, Action::CyclePaneFocusForward, s, running);
            &&& same_but_tab(r.0, w, w.active)
            &&& r.0.tabs[w.active] == (TabView { active_pane: next, ..t })
            &&& r.1 == seq![Deed::Send(t.panes[next].id, InputView::GrabFocus)]
        }),
        ({
            let t = tab_in_use(w);
            let n = t.panes.len() as int;
            let before = if t.active_pane == 0 {
                n - 1
            } else {
                t.active_pane - 1
            };
            let r = acted(w, Action::CyclePaneFocusBackward, s, running);
            &&& same_but_tab(r.0, w, w.active)
            &&& r.0.tabs[w.active] == (TabView { active_pane: before, ..t })
            &&& r.1 == seq![Deed::Send(t.panes[before].id, InputView::GrabFocus)]
        }),
{
    lemma_open(w);
    let t = tab_in_use(w);
    let n = t.panes.len() as int;
    lemma_ring(t.active_pane, n);
}

proof fn lemma_ring(a: int, n: int)
    requires
        0 <= a < n,
    ensures
        (a + 1) % n == (if a == n - 1 {
            0
        } else {
            a + 1
        }),
        (a + -1) % n == (if a == 0 {
            n - 1
        } else {
            a - 1
        }),
{
    if a == n - 1 {
        assert((a + 1) % n == 0) by (nonlinear_arith)
            requires
                a + 1 == n,
                n > 0,
        ;
    } else {
        vstd::arithmetic::div_mod::lemma_small_mod((a + 1) as nat, n as nat);
    }
    if a == 0 {
        assert((a + -1) % n == n - 1) by (nonlinear_arith)
            requires
                a == 0,
                n > 0,
        ;
    } else {
        vstd::arithmetic::div_mod::lemma_small_mod((a - 1) as nat, n as nat);
    }
}

/// A look for a pane to the left, right, top or bottom goes in that direction.
pub proof fn the_focus_goes_in_its_direction(
    w: World,
    s: SettingsView,
    running: Seq<(u64, Seq<char>)>,
)
    ensures
        acted(w, Action::FocusPaneLeft, s, running) == (
            w,
            seq![Deed::FocusTowards(Direction::Left)],
        ),
        acted(w, Action::FocusPaneRight, s, running) == (
            w,
            seq![Deed::FocusTowards(Direction::Right)],
        ),
        acted(w, Action::FocusPaneUp, s, running) == (w, seq![Deed::FocusTowards(Direction::Up)]),
        acted(w, Action::FocusPaneDown, s, running) == (
            w,
            seq![Deed::FocusTowards(Direction::Down)],
        ),
{
}

/// A pane of the active tab that is given the focus becomes its active one; the
/// report that a pane has the focus makes it the active one of its tab.
pub proof fn panes_take_the_focus(
    w: World,
    i: int,
    p: int,
    tab: u64,
    s: SettingsView,
    running: Seq<(u64, Seq<char>)>,
)
    requires
        w.is_sound(),
        0 <= i < w.tabs.len(),
        0 <= p < w.tabs[i].panes.len(),
    ensures
        ({
            let id = w.tabs[i].panes[p].id;
            let r = w.update(MsgView::PaneFocused(tab, id), s, running);
            &&& same_but_tab(r.0, w, i)
            &&& r.0.tabs[i] == (TabView { active_pane: p, ..w.tabs[i] })
            &&& r.1 == Seq::<Deed>::empty()
        }),
        i == w.active ==> {
            let id = w.tabs[i].panes[p].id;
            let r = w.update(MsgView::FocusPane(id), s, running);
            &&& same_but_tab(r.0, w, i)
            &&& r.0.tabs[i] == (TabView { active_pane: p, ..w.tabs[i] })
            &&& r.1 == seq![Deed::Send(id, InputView::GrabFocus)]
        },
{
    lemma_place(w, i, p);
}

/// A pane fills its tab when it is zoomed, and the tab is laid out anew; zoomed
/// again the tab shows all its panes. A single pane is not zoomed.
pub proof fn zoomed_panes_fill_the_tab(w: World, s: SettingsView, running: Seq<(u64, Seq<char>)>)
    requires
        is_open(w),
    ensures
        ({
            let t = tab_in_use(w);
            let r = acted(w, Action::TogglePaneZoom, s, running);
            &&& t.panes.len() > 1 && t.zoom is None ==> same_but_tab(r.0, w, w.active)
                && r.0.tabs[w.active] == (TabView { zoom: Some(pane_in_use(w).id), ..t })
            &&& t.zoom is Some ==> same_but_tab(r.0, w, w.active) && r.0.tabs[w.active] == (
            TabView { zoom: None, ..t })
            &&& t.panes.len() > 1 ==> r.1 == seq![
                Deed::Relayout(t.id),
                Deed::Send(pane_in_use(w).id, InputView::GrabFocus),
            ]
            &&& t.panes.len() == 1 ==> r == (w, Seq::<Deed>::empty())
        }),
{
    lemma_open(w);
    let t = tab_in_use(w);
    let r = acted(w, Action::TogglePaneZoom, s, running);
    if t.panes.len() > 1 {
        assert(r.1 =~= seq![
            Deed::Relayout(t.id),
            Deed::Send(pane_in_use(w).id, InputView::GrabFocus),
        ]);
    }
}

/// In a tab of two panes side by side the split between them moves 40 to the
/// left or to the right, and in one of two panes above each other 40 up or
/// down, at most to the edge; across its direction it does not move.
pub proof fn splits_are_moved(
    w: World,
    position: i32,
    a: u64,
    b: u64,
    s: SettingsView,
    running: Seq<(u64, Seq<char>)>,
)
    requires
        is_open(w),
        tab_in_use(w).zoom is None,
        a != b,
        pane_in_use(w).id == a || pane_in_use(w).id == b,
        0 <= position <= 0x7fff_0000,
    ensures
        tab_in_use(w).tree == lone_split(Orientation::Horizontal, position, a, b) ==> {
            let t = tab_in_use(w);
            let left = acted(w, Action::ResizePaneLeft, s, running);
            let right = acted(w, Action::ResizePaneRight, s, running);
            &&& same_but_tab(left.0, w, w.active)
            &&& left.0.tabs[w.active] == (TabView {
                tree: lone_split(
                    Orientation::Horizontal,
                    if position >= 40 {
                        (position - 40) as i32
                    } else {
                        0
                    },
                    a,
                    b,
                ),
                ..t
            })
            &&& left.1 == seq![Deed::Relayout(t.id)]
            &&& right.0.tabs[w.active] == (TabView {
                tree: lone_split(Orientation::Horizontal, (position + 40) as i32, a, b),
                ..t
            })
            &&& right.1 == seq![Deed::Relayout(t.id)]
            &&& acted(w, Action::ResizePaneUp, s, running) == (w, Seq::<Deed>::empty())
            &&& acted(w, Action::ResizePaneDown, s, running) == (w, Seq::<Deed>::empty())
        },
        tab_in_use(w).tree == lone_split(Orientation::Vertical, position, a, b) ==> {
            let t = tab_in_use(w);
            let up = acted(w, Action::ResizePaneUp, s, running);
            let down = acted(w, Action::ResizePaneDown, s, running);
            &&& up.0.tabs[w.active] == (TabView {
                tree: lone_split(
                    Orientation::Vertical,
                    if position >= 40 {
                        (position - 40) as i32
                    } else {
                        0
                    },
                    a,
                    b,
                ),
                ..t
            })
            &&& down.0.tabs[w.active] == (TabView {
                tree: lone_split(Orientation::Vertical, (position + 40) as i32, a, b),
                ..t
            })
            &&& acted(w, Action::ResizePaneLeft, s, running) == (w, Seq::<Deed>::empty())
            &&& acted(w, Action::ResizePaneRight, s, running) == (w, Seq::<Deed>::empty())
        },
{
    lemma_open(w);
    reveal_with_fuel(super::tree::moved, 2);
    reveal_with_fuel(super::tree::leaves, 2);
    assert(super::tree::leaves(Tree::Leaf(a)) == seq![a]);
    assert(super::tree::leaves(Tree::Leaf(b)) == seq![b]);
    assert(seq![a].contains(a) && seq![b].contains(b)) by {
        assert(seq![a][0] == a && seq![b][0] == b);
    }
    assert(!seq![a].contains(b));
    let h = lone_split(Orientation::Horizontal, position, a, b);
    let v = lone_split(Orientation::Vertical, position, a, b);
    let id = pane_in_use(w).id;
    assert(super::tree::moved(h, id, Orientation::Horizontal, -40) == Some(
        lone_split(
            Orientation::Horizontal,
            if position >= 40 {
                (position - 40) as i32
            } else {
                0
            },
            a,
            b,
        ),
    ));
    assert(super::tree::moved(h, id, Orientation::Horizontal, 40) == Some(
        lone_split(Orientation::Horizontal, (position + 40) as i32, a, b),
    ));
    assert(super::tree::moved(v, id, Orientation::Vertical, -40) == Some(
        lone_split(
            Orientation::Vertical,
            if position >= 40 {
                (position - 40) as i32
            } else {
                0
            },
            a,
            b,
        ),
    ));
    assert(super::tree::moved(v, id, Orientation::Vertical, 40) == Some(
        lone_split(Orientation::Vertical, (position + 40) as i32, a, b),
    ));
}

/// Two panes with a split between them.
pub open spec fn lone_split(orientation: Orientation, position: i32, a: u64, b: u64) -> Tree {
    Tree::Split {
        orientation,
        position,
        start: Box::new(Tree::Leaf(a)),
        end: Box::new(Tree::Leaf(b)),
    }
}

/// A pane that moves to a tab of its own is the only pane of the new last tab,
/// which is shown; its old tab keeps the others. Nothing is started anew.
pub proof fn panes_move_to_new_tabs(w: World, s: SettingsView, running: Seq<(u64, Seq<char>)>)
    requires
        is_open(w),
        w.next_id < u64::MAX,
    ensures
        tab_in_use(w).panes.len() > 1 && tab_in_use(w).zoom is None ==> {
            let t = tab_in_use(w);
            let n = w.tabs.len() as int;
            let r = acted(w, Action::MovePaneToNewTab, s, running);
            let v = r.0;
            &&& v.tabs.len() == n + 1
            &&& v.active == n
            &&& v.tabs[n].id == w.next_id
            &&& v.next_id == w.next_id + 1
            &&& v.tabs[n].panes == seq![pane_in_use(w)]
            &&& v.tabs[n].tree == Tree::Leaf(pane_in_use(w).id)
            &&& !v.tabs[n].custom_title
            &&& v.tabs[w.active].panes == t.panes.remove(t.active_pane)
            &&& v.tabs[w.active].title == t.title
            &&& forall|j: int| 0 <= j < n && j != w.active ==> #[trigger] v.tabs[j] == w.tabs[j]
            &&& r.1 == seq![
                Deed::Relayout(t.id),
                Deed::Relayout(w.next_id),
                Deed::ShowTab(w.next_id),
                Deed::Send(pane_in_use(w).id, InputView::GrabFocus),
                Deed::FollowCwd,
                Deed::RebuildStrip,
            ]
        },
        tab_in_use(w).panes.len() == 1 || tab_in_use(w).zoom is Some ==> acted(
            w,
            Action::MovePaneToNewTab,
            s,
            running,
        ) == (w, Seq::<Deed>::empty()),
{
    lemma_open(w);
    let t = tab_in_use(w);
    if t.panes.len() > 1 && t.zoom is None {
        let n = w.tabs.len() as int;
        let pane = pane_in_use(w);
        let title = crate::terminal::launch::tab_title(w.next_number(), pane.cwd, s.home);
        let tabs = w.tabs.update(w.active, super::steps::without_pane(t, t.active_pane)).push(
            super::steps::single(w.next_id, pane, title, false),
        );
        assert forall|i: int| 0 <= i < n implies (#[trigger] tabs[i]).id != w.next_id by {
            assert(super::state::tab_is_sound(w.tabs[i], w.next_id, w.next_pane_id));
        }
        super::state::lemma_tab_at(tabs, w.next_id, n);
        let r = acted(w, Action::MovePaneToNewTab, s, running);
        assert(r.1 =~= seq![
            Deed::Relayout(t.id),
            Deed::Relayout(w.next_id),
            Deed::ShowTab(w.next_id),
            Deed::Send(pane.id, InputView::GrabFocus),
            Deed::FollowCwd,
            Deed::RebuildStrip,
        ]);
    }
}

/// A pane that is closed, or whose program ended, leaves its tab; the others
/// stay in order, and the last deed drops its terminal.
pub proof fn closed_panes_leave_their_tab(
    w: World,
    i: int,
    p: int,
    tab: u64,
    s: SettingsView,
    running: Seq<(u64, Seq<char>)>,
)
    requires
        w.is_sound(),
        0 <= i < w.tabs.len(),
        0 <= p < w.tabs[i].panes.len(),
        w.tabs[i].panes.len() > 1,
    ensures
        ({
            let id = w.tabs[i].panes[p].id;
            let t = w.tabs[i];
            let r = w.update(MsgView::ForceClosePane(id), s, running);
            let u = r.0.tabs[i];
            &&& same_but_tab(r.0, w, i)
            &&& u.panes == t.panes.remove(p)
            &&& u == (TabView {
                panes: u.panes,
                active_pane: u.active_pane,
                tree: u.tree,
                zoom: None,
                ..t
            })
            &&& u.active_pane == (if t.active_pane < t.panes.len() - 1 {
                t.active_pane
            } else {
                t.panes.len() - 2
            })
            &&& r.1.last() == Deed::DropPane(id)
            &&& r.1.contains(Deed::Relayout(t.id))
            &&& w.update(MsgView::PaneExited(tab, id), s, running) == r
        }),
{
    lemma_place(w, i, p);
    let id = w.tabs[i].panes[p].id;
    let r = w.update(MsgView::ForceClosePane(id), s, running);
    let t = w.tabs[i];
    assert(super::state::tab_is_sound(t, w.next_id, w.next_pane_id));
    let first = if t.zoom is Some {
        w.toggle_zoom(i)
    } else {
        (w, seq![])
    };
    let u = super::steps::without_pane(first.0.tabs[i], p);
    let last = seq![Deed::Relayout(t.id)] + super::steps::focus(u) + seq![Deed::DropPane(id)];
    assert(r.1 == first.1 + last);
    assert(last.last() == Deed::DropPane(id));
    assert(r.1.last() == Deed::DropPane(id));
    assert(last[0] == Deed::Relayout(t.id));
    assert(r.1[first.1.len() as int] == Deed::Relayout(t.id));
    assert(r.0.tabs =~= w.tabs.update(i, u));
}

/// Closing what is in use closes its pane, or its tab where that is the only
/// pane; where a command runs in it, the question comes first and nothing is
/// closed.
pub proof fn closing_asks_first(
    w: World,
    s: SettingsView,
    running: Seq<(u64, Seq<char>)>,
    command: Seq<char>,
)
    requires
        is_open(w),
    ensures
        super::steps::command_of(pane_in_use(w).id, running) == Some(command)
            && tab_in_use(w).panes.len() > 1 ==> acted(w, Action::ClosePaneOrTab, s, running) == (
            w,
            seq![Deed::ConfirmClosePane(pane_in_use(w).id, command)],
        ),
        super::steps::command_of(pane_in_use(w).id, running) == Some(command)
            && tab_in_use(w).panes.len() == 1 ==> acted(w, Action::ClosePaneOrTab, s, running) == (
            w,
            seq![Deed::ConfirmCloseTab(tab_in_use(w).id, command)],
        ),
        tab_in_use(w).panes.len() > 1 ==> acted(w, Action::ClosePaneOrTab, s, seq![]) == w.update(
            MsgView::ForceClosePane(pane_in_use(w).id),
            s,
            seq![],
        ),
        tab_in_use(w).panes.len() == 1 ==> acted(w, Action::ClosePaneOrTab, s, seq![]) == w.update(
            MsgView::ForceCloseTab(tab_in_use(w).id),
            s,
            seq![],
        ),
        acted(w, Action::CloseTab, s, seq![]) == w.update(
            MsgView::ForceCloseTab(tab_in_use(w).id),
            s,
            seq![],
        ),
        acted(w, Action::CloseTab, s, running) == w.update(
            MsgView::CloseTab(tab_in_use(w).id),
            s,
            running,
        ),
{
    lemma_open(w);
    let t = tab_in_use(w);
    lemma_place(w, w.active, t.active_pane);
    super::sound::tabs_are_found(w.tabs, w.active);
    if t.panes.len() == 1 {
        assert(t.panes[0] == pane_in_use(w));
    }
    lemma_nothing_runs(t.panes);
    assert(super::steps::command_of(pane_in_use(w).id, seq![]) is None);
}

proof fn lemma_nothing_runs(panes: Seq<PaneView>)
    ensures
        super::steps::command_in(panes, seq![]) is None,
    decreases panes.len(),
{
    if panes.len() > 0 {
        lemma_nothing_runs(panes.skip(1));
    }
}

/// The command of a pane is the one that is listed for it first.
pub proof fn running_commands_are_found(pane: u64, running: Seq<(u64, Seq<char>)>, k: int)
    requires
        0 <= k < running.len(),
        running[k].0 == pane,
        forall|j: int| 0 <= j < k ==> (#[trigger] running[j]).0 != pane,
    ensures
        super::steps::command_of(pane, running) == Some(running[k].1),
    decreases running.len(),
{
    if k > 0 {
        assert(running[0].0 != pane);
        let rest = running.skip(1);
        assert forall|j: int| 0 <= j < k - 1 implies (#[trigger] rest[j]).0 != pane by {
            assert(rest[j] == running[j + 1]);
        }
        running_commands_are_found(pane, rest, k - 1);
    }
}

// ---------------------------------------------------------------------------
// Tabs
// ---------------------------------------------------------------------------

/// What is to be done to show the tab `id` with the pane `pane` in focus.
pub open spec fn showing(id: u64, pane: u64) -> Seq<Deed> {
    seq![
        Deed::ShowTab(id),
        Deed::Send(pane, InputView::GrabFocus),
        Deed::FollowCwd,
        Deed::RebuildStrip,
    ]
}

/// The window with a tab selected: it is the active one, and its bell and its
/// activity are forgotten.
pub open spec fn selected(w: World, i: int) -> World {
    World {
        active: i,
        tabs: w.tabs.update(i, TabView { bell: false, activity: false, ..w.tabs[i] }),
        ..w
    }
}

proof fn lemma_select(w: World, i: int)
    requires
        w.is_sound(),
        0 <= i < w.tabs.len(),
    ensures
        w.select(w.tabs[i].id) == (
            selected(w, i),
            showing(w.tabs[i].id, w.tabs[i].panes[w.tabs[i].active_pane].id),
        ),
{
    super::sound::tabs_are_found(w.tabs, i);
    assert(super::state::tab_is_sound(w.tabs[i], w.next_id, w.next_pane_id));
    assert(w.select(w.tabs[i].id).1 =~= showing(
        w.tabs[i].id,
        w.tabs[i].panes[w.tabs[i].active_pane].id,
    ));
}

/// The pane in focus of the tab at `i`.
pub open spec fn focus_of(w: World, i: int) -> u64 {
    w.tabs[i].panes[w.tabs[i].active_pane].id
}

/// Selecting a tab by its number, and going to the next and to the previous
/// one, which wraps at the ends.
pub proof fn tabs_are_selected(w: World, i: int, s: SettingsView, running: Seq<(u64, Seq<char>)>)
    requires
        is_open(w),
        0 <= i < w.tabs.len(),
    ensures
        w.update(MsgView::SelectTab(w.tabs[i].id), s, running) == (
            selected(w, i),
            showing(w.tabs[i].id, focus_of(w, i)),
        ),
        ({
            let next = if w.active == w.tabs.len() - 1 {
                0
            } else {
                w.active + 1
            };
            &&& w.update(MsgView::NextTab, s, running) == (
                selected(w, next),
                showing(w.tabs[next].id, focus_of(w, next)),
            )
            &&& acted(w, Action::NextTab, s, running) == w.update(MsgView::NextTab, s, running)
        }),
        ({
            let before = if w.active == 0 {
                w.tabs.len() - 1
            } else {
                w.active - 1
            };
            &&& w.update(MsgView::PrevTab, s, running) == (
                selected(w, before),
                showing(w.tabs[before].id, focus_of(w, before)),
            )
            &&& acted(w, Action::PrevTab, s, running) == w.update(MsgView::PrevTab, s, running)
        }),
{
    lemma_select(w, i);
    lemma_ring(w.active, w.tabs.len() as int);
    lemma_select(
        w,
        if w.active == w.tabs.len() - 1 {
            0
        } else {
            w.active + 1
        },
    );
    lemma_select(
        w,
        if w.active == 0 {
            w.tabs.len() - 1
        } else {
            w.active - 1
        },
    );
}

/// A quick switch selects the tab at a position, counted from zero; the number
/// nine, and any position behind the last tab, stand for the last.
pub proof fn quick_switches_go_by_position(
    w: World,
    n: u8,
    s: SettingsView,
    running: Seq<(u64, Seq<char>)>,
)
    requires
        is_open(w),
    ensures
        n != 9 && n < w.tabs.len() ==> acted(w, Action::QuickSwitchTab(n), s, running) == (
            selected(w, n as int),
            showing(w.tabs[n as int].id, focus_of(w, n as int)),
        ),
        n == 9 || n >= w.tabs.len() ==> acted(w, Action::QuickSwitchTab(n), s, running) == (
            selected(w, w.tabs.len() - 1),
            showing(w.tabs[w.tabs.len() - 1].id, focus_of(w, w.tabs.len() - 1)),
        ),
{
    if n != 9 && n < w.tabs.len() {
        lemma_select(w, n as int);
    } else {
        lemma_select(w, w.tabs.len() - 1);
    }
}

/// The window with a tab of one pane added at the end and selected.
pub open spec fn is_opened(
    w: World,
    r: (World, Seq<Deed>),
    mode: TerminalMode,
    commands: Option<Seq<char>>,
    cwd: Option<Seq<char>>,
    host: Option<int>,
) -> bool {
    let n = w.tabs.len() as int;
    let t = r.0.tabs[n];
    &&& r.0 == (World {
        tabs: r.0.tabs,
        active: n,
        next_id: (w.next_id + 1) as u64,
        next_pane_id: (w.next_pane_id + 1) as u64,
        ..w
    })
    &&& r.0.tabs == w.tabs.push(t)
    &&& t.id == w.next_id
    &&& t.panes == seq![PaneView { id: w.next_pane_id, cwd, mode }]
    &&& t.active_pane == 0
    &&& t.tree == Tree::Leaf(w.next_pane_id)
    &&& t.zoom is None && !t.bell && !t.activity && !t.marked
    &&& r.1 == seq![
        Deed::Spawn { tab: w.next_id, pane: w.next_pane_id, mode, commands, cwd, host },
    ] + showing(w.next_id, w.next_pane_id)
}

proof fn lemma_opened(
    w: World,
    mode: TerminalMode,
    commands: Option<Seq<char>>,
    cwd: Option<Seq<char>>,
    host: Option<int>,
    title: Seq<char>,
    custom: bool,
)
    requires
        w.is_sound(),
        w.next_id < u64::MAX,
        w.next_pane_id < u64::MAX,
    ensures
        is_opened(w, w.open(mode, commands, cwd, host, title, custom), mode, commands, cwd, host),
        w.open(mode, commands, cwd, host, title, custom).0.tabs[w.tabs.len() as int].title == title,
        w.open(mode, commands, cwd, host, title, custom).0.tabs[w.tabs.len() as int].custom_title
            == custom,
{
    let n = w.tabs.len() as int;
    let pane = PaneView { id: w.next_pane_id, cwd, mode };
    let t = super::steps::single(w.next_id, pane, title, custom);
    let tabs = w.tabs.push(t);
    assert forall|i: int| 0 <= i < n implies (#[trigger] tabs[i]).id != w.next_id by {
        assert(super::state::tab_is_sound(w.tabs[i], w.next_id, w.next_pane_id));
    }
    super::state::lemma_tab_at(tabs, w.next_id, n);
    let r = w.open(mode, commands, cwd, host, title, custom);
    assert(r.0.tabs =~= w.tabs.push(r.0.tabs[n]));
    assert(r.0.tabs[n] =~= t);
    assert(r.1 =~= seq![
        Deed::Spawn { tab: w.next_id, pane: w.next_pane_id, mode, commands, cwd, host },
    ] + showing(w.next_id, w.next_pane_id));
}

/// A new tab has the mode and runs the commands of the settings; a remote one
/// goes by the name of its host and connects to it; a duplicate has the mode,
/// the directory and the title of the one in use.
pub proof fn tabs_are_opened(
    w: World,
    n: usize,
    s: SettingsView,
    running: Seq<(u64, Seq<char>)>,
)
    requires
        is_open(w),
        w.next_id < u64::MAX,
        w.next_pane_id < u64::MAX,
    ensures
        is_opened(
            w,
            w.update(MsgView::NewTab, s, running),
            s.terminal_mode,
            s.startup_commands,
            None,
            None,
        ),
        !w.update(MsgView::NewTab, s, running).0.tabs.last().custom_title,
        w.update(MsgView::NewTab, s, running).0.tabs.last().title
            == crate::terminal::launch::tab_title(w.tabs.len() + 1, None, s.home),
        acted(w, Action::NewTab, s, running) == w.update(MsgView::NewTab, s, running),
        n < s.hosts.len() ==> is_opened(
            w,
            acted(w, Action::ConnectRemote(n), s, running),
            TerminalMode::Vte,
            None,
            None,
            Some(n as int),
        ),
        n < s.hosts.len() ==> acted(w, Action::ConnectRemote(n), s, running).0.tabs.last().title
            == s.hosts[n as int],
        n < s.hosts.len() ==> acted(
            w,
            Action::ConnectRemote(n),
            s,
            running,
        ).0.tabs.last().custom_title,
        n >= s.hosts.len() ==> acted(w, Action::ConnectRemote(n), s, running) == (
            w,
            Seq::<Deed>::empty(),
        ),
        is_opened(
            w,
            acted(w, Action::DuplicateTab, s, running),
            pane_in_use(w).mode,
            None,
            pane_in_use(w).cwd,
            None,
        ),
        acted(w, Action::DuplicateTab, s, running).0.tabs.last().title == tab_in_use(w).title,
        acted(w, Action::DuplicateTab, s, running).0.tabs.last().custom_title == tab_in_use(
            w,
        ).custom_title,
{
    lemma_open(w);
    lemma_opened(
        w,
        s.terminal_mode,
        s.startup_commands,
        None,
        None,
        crate::terminal::launch::tab_title(w.next_number(), None, s.home),
        false,
    );
    if n < s.hosts.len() {
        lemma_opened(w, TerminalMode::Vte, None, None, Some(n as int), s.hosts[n as int], true);
    }
    lemma_opened(
        w,
        pane_in_use(w).mode,
        None,
        pane_in_use(w).cwd,
        None,
        tab_in_use(w).title,
        tab_in_use(w).custom_title,
    );
}

/// A closed tab is gone, the others stay in order, and the one that took its
/// place, or the last one, is shown; the window quits with its last tab.
pub proof fn closed_tabs_are_gone(w: World, i: int, s: SettingsView, running: Seq<(u64, Seq<char>)>)
    requires
        w.is_sound(),
        0 <= i < w.tabs.len(),
    ensures
        w.tabs.len() > 1 ==> {
            let id = w.tabs[i].id;
            let r = w.update(MsgView::ForceCloseTab(id), s, running);
            let rest = World { tabs: w.tabs.remove(i), ..w };
            let j = if i < w.tabs.len() - 1 {
                i
            } else {
                i - 1
            };
            &&& r.0 == selected(rest, j)
            &&& r.1 == seq![Deed::DropTab(id)] + showing(rest.tabs[j].id, focus_of(rest, j))
        },
        w.tabs.len() == 1 ==> {
            let r = w.update(MsgView::ForceCloseTab(w.tabs[i].id), s, running);
            &&& r.0.tabs.len() == 0
            &&& r.1 == seq![Deed::DropTab(w.tabs[i].id), Deed::Quit]
        },
{
    super::sound::tabs_are_found(w.tabs, i);
    let rest = World { tabs: w.tabs.remove(i), ..w };
    let j = if i < w.tabs.len() - 1 {
        i
    } else {
        i - 1
    };
    if w.tabs.len() > 1 {
        assert(super::state::all_apart(rest.tabs)) by {
            assert forall|a: int, b: int|
                0 <= a < rest.tabs.len() && 0 <= b < rest.tabs.len() && a
                    != b implies super::state::are_apart(
                #[trigger] rest.tabs[a],
                #[trigger] rest.tabs[b],
            ) by {
                let x = if a < i {
                    a
                } else {
                    a + 1
                };
                let y = if b < i {
                    b
                } else {
                    b + 1
                };
                assert(super::state::are_apart(w.tabs[x], w.tabs[y]));
            }
        }
        super::sound::tabs_are_found(rest.tabs, j);
        let x = if j < i {
            j
        } else {
            j + 1
        };
        assert(rest.tabs[j] == w.tabs[x]);
        assert(super::state::tab_is_sound(w.tabs[x], w.next_id, w.next_pane_id));
        let r = w.update(MsgView::ForceCloseTab(w.tabs[i].id), s, running);
        assert(r.1 =~= seq![Deed::DropTab(w.tabs[i].id)] + showing(
            rest.tabs[j].id,
            focus_of(rest, j),
        ));
    }
}

/// The active tab changes places with its neighbour on the right, or on the
/// left, and stays the active one; at the end it stays where it is.
pub proof fn tabs_change_places(w: World, s: SettingsView, running: Seq<(u64, Seq<char>)>)
    requires
        is_open(w),
    ensures
        w.active + 1 < w.tabs.len() ==> acted(w, Action::MoveTabRight, s, running) == (
            (World {
                active: w.active + 1,
                tabs: w.tabs.update(w.active, w.tabs[w.active + 1]).update(
                    w.active + 1,
                    w.tabs[w.active],
                ),
                ..w
            }),
            seq![Deed::RebuildStrip],
        ),
        w.active + 1 == w.tabs.len() ==> acted(w, Action::MoveTabRight, s, running) == (
            w,
            Seq::<Deed>::empty(),
        ),
        w.active > 0 ==> acted(w, Action::MoveTabLeft, s, running) == (
            (World {
                active: w.active - 1,
                tabs: w.tabs.update(w.active, w.tabs[w.active - 1]).update(
                    w.active - 1,
                    w.tabs[w.active],
                ),
                ..w
            }),
            seq![Deed::RebuildStrip],
        ),
        w.active == 0 ==> acted(w, Action::MoveTabLeft, s, running) == (w, Seq::<Deed>::empty()),
{
}

/// A tab that is dragged to a position stands there, or at the end, and the
/// others keep their order.
pub proof fn tabs_are_dragged(
    w: World,
    from: int,
    to: int,
    s: SettingsView,
    running: Seq<(u64, Seq<char>)>,
)
    requires
        is_open(w),
        0 <= from < w.tabs.len(),
        0 <= to,
    ensures
        ({
            let r = w.update(MsgView::ReorderTab(w.tabs[from].id, to), s, running);
            let dest = if to < w.tabs.len() {
                to
            } else {
                w.tabs.len() - 1
            };
            &&& r.0.tabs.len() == w.tabs.len()
            &&& r.0.tabs[dest] == w.tabs[from]
            &&& r.0.tabs.remove(dest) == w.tabs.remove(from)
            &&& r.0.tabs[r.0.active] == w.tabs[w.active]
            &&& r.0 == (World { tabs: r.0.tabs, active: r.0.active, ..w })
            &&& dest != from ==> r.1 == seq![Deed::RebuildStrip]
            &&& dest == from ==> r == (w, Seq::<Deed>::empty())
        }),
{
    super::sound::tabs_are_found(w.tabs, from);
    super::sound::reordered_tabs(w, w.tabs[from].id, to);
    let r = w.update(MsgView::ReorderTab(w.tabs[from].id, to), s, running);
    let dest = if to < w.tabs.len() {
        to
    } else {
        w.tabs.len() - 1
    };
    if dest != from {
        assert(r.0.tabs == w.tabs.remove(from).insert(dest, w.tabs[from]));
        assert(r.0.tabs.remove(dest) =~= w.tabs.remove(from));
    }
}

/// A title that the user gives a tab stays without the blanks around it, and a
/// blank one brings the title of its directory back.
pub proof fn tabs_are_renamed(
    w: World,
    i: int,
    title: Seq<char>,
    s: SettingsView,
    running: Seq<(u64, Seq<char>)>,
)
    requires
        w.is_sound(),
        0 <= i < w.tabs.len(),
    ensures
        ({
            let r = w.update(MsgView::RenameTab(w.tabs[i].id, title), s, running);
            let given = crate::text::trimmed(title);
            &&& same_but_tab(r.0, w, i)
            &&& r.1 == seq![Deed::RebuildStrip]
            &&& given.len() > 0 ==> r.0.tabs[i] == (TabView {
                title: given,
                custom_title: true,
                ..w.tabs[i]
            })
            &&& given.len() == 0 ==> r.0.tabs[i] == (TabView {
                title: crate::terminal::launch::tab_title(
                    (i + 1) as nat,
                    w.tabs[i].panes[w.tabs[i].active_pane].cwd,
                    s.home,
                ),
                custom_title: false,
                ..w.tabs[i]
            })
        }),
{
    super::sound::tabs_are_found(w.tabs, i);
    assert(super::state::tab_is_sound(w.tabs[i], w.next_id, w.next_pane_id));
}

/// A tab is marked and unmarked by turns.
pub proof fn marks_are_toggled(w: World, s: SettingsView, running: Seq<(u64, Seq<char>)>)
    requires
        is_open(w),
    ensures
        ({
            let r = acted(w, Action::ToggleTabMarked, s, running);
            &&& same_but_tab(r.0, w, w.active)
            &&& r.0.tabs[w.active] == (TabView { marked: !tab_in_use(w).marked, ..tab_in_use(w) })
            &&& r.1 == seq![Deed::RebuildStrip]
        }),
{
}

/// A bell or activity marks a tab that is out of sight, the one in view not;
/// activity that shows already is not shown again.
pub proof fn bells_mark_tabs_out_of_sight(
    w: World,
    i: int,
    s: SettingsView,
    running: Seq<(u64, Seq<char>)>,
)
    requires
        w.is_sound(),
        0 <= i < w.tabs.len(),
    ensures
        i != w.active ==> {
            let r = w.update(MsgView::Bell(w.tabs[i].id), s, running);
            &&& same_but_tab(r.0, w, i)
            &&& r.0.tabs[i] == (TabView { bell: true, ..w.tabs[i] })
            &&& r.1 == seq![Deed::RebuildStrip]
        },
        i != w.active && !w.tabs[i].activity ==> {
            let r = w.update(MsgView::Activity(w.tabs[i].id), s, running);
            &&& same_but_tab(r.0, w, i)
            &&& r.0.tabs[i] == (TabView { activity: true, ..w.tabs[i] })
            &&& r.1 == seq![Deed::RebuildStrip]
        },
        i == w.active ==> w.update(MsgView::Bell(w.tabs[i].id), s, running) == (
            w,
            Seq::<Deed>::empty(),
        ),
        i == w.active || w.tabs[i].activity ==> w.update(
            MsgView::Activity(w.tabs[i].id),
            s,
            running,
        ) == (w, Seq::<Deed>::empty()),
{
    super::sound::tabs_are_found(w.tabs, i);
}

/// A pane's new directory is kept with it; the title of its tab follows where
/// it is the active pane and the user gave no title.
pub proof fn directories_are_kept(
    w: World,
    i: int,
    p: int,
    tab: u64,
    path: Seq<char>,
    s: SettingsView,
    running: Seq<(u64, Seq<char>)>,
)
    requires
        w.is_sound(),
        0 <= i < w.tabs.len(),
        0 <= p < w.tabs[i].panes.len(),
    ensures
        ({
            let t = w.tabs[i];
            let r = w.update(MsgView::PaneCwdChanged(tab, t.panes[p].id, path), s, running);
            let u = r.0.tabs[i];
            let follows = p == t.active_pane && !t.custom_title;
            &&& same_but_tab(r.0, w, i)
            &&& u == (TabView { panes: u.panes, title: u.title, ..t })
            &&& u.panes == t.panes.update(p, PaneView { cwd: Some(path), ..t.panes[p] })
            &&& u.title == (if follows {
                crate::terminal::launch::tab_title((i + 1) as nat, Some(path), s.home)
            } else {
                t.title
            })
            &&& r.1 == (if follows {
                seq![Deed::RebuildStrip]
            } else {
                Seq::<Deed>::empty()
            })
        }),
{
    lemma_place(w, i, p);
}

// ---------------------------------------------------------------------------
// What is told to terminals
// ---------------------------------------------------------------------------

/// The pane in use is told something, and nothing else happens.
pub open spec fn is_told(w: World, r: (World, Seq<Deed>), input: InputView) -> bool {
    r == (w, seq![Deed::Send(pane_in_use(w).id, input)])
}

/// Copying, pasting, scrolling by three lines, the filters of blocks and the
/// steps of a search go to the pane in use.
pub proof fn the_pane_in_use_is_told(w: World, s: SettingsView, running: Seq<(u64, Seq<char>)>)
    requires
        is_open(w),
    ensures
        is_told(w, acted(w, Action::Copy, s, running), InputView::Copy),
        is_told(w, acted(w, Action::Paste, s, running), InputView::Paste),
        is_told(w, acted(w, Action::ScrollUp, s, running), InputView::ScrollLines(-3)),
        is_told(w, acted(w, Action::ScrollDown, s, running), InputView::ScrollLines(3)),
        is_told(
            w,
            acted(w, Action::FilterFailedBlocks, s, running),
            InputView::FilterFailedBlocks,
        ),
        is_told(w, acted(w, Action::FilterSlowBlocks, s, running), InputView::FilterSlowBlocks),
        is_told(w, acted(w, Action::ClearBlockFilter, s, running), InputView::ClearBlockFilter),
        is_told(w, w.update(MsgView::SearchNext, s, running), InputView::SearchNext),
        is_told(w, w.update(MsgView::SearchPrev, s, running), InputView::SearchPrev),
        is_told(w, w.update(MsgView::SearchChanged(seq![]), s, running), InputView::SearchClear),
{
    lemma_open(w);
}

/// What is typed into the find bar is looked for as it is, and as a regular
/// expression where it stands between two slashes.
pub proof fn searches_are_set(
    w: World,
    text: Seq<char>,
    s: SettingsView,
    running: Seq<(u64, Seq<char>)>,
)
    requires
        is_open(w),
        text.len() > 0,
    ensures
        text[0] != '/' || text.last() != '/' || text.len() <= 2 ==> is_told(
            w,
            w.update(MsgView::SearchChanged(text), s, running),
            InputView::SearchSet(text, false),
        ),
        is_told(
            w,
            w.update(MsgView::SearchChanged(seq!['/'] + text + seq!['/']), s, running),
            InputView::SearchSet(text, true),
        ),
{
    lemma_open(w);
    let slashed = seq!['/'] + text + seq!['/'];
    assert(slashed.subrange(1, slashed.len() - 1) =~= text);
}

/// The find bar opens, and closing it ends the search and gives the pane in use
/// the focus back.
pub proof fn the_find_bar_is_toggled(w: World, s: SettingsView, running: Seq<(u64, Seq<char>)>)
    requires
        is_open(w),
    ensures
        !w.search_open ==> acted(w, Action::ToggleSearch, s, running) == (
            (World { search_open: true, ..w }),
            seq![Deed::ShowSearch(true)],
        ),
        w.search_open ==> acted(w, Action::ToggleSearch, s, running) == (
            (World { search_open: false, ..w }),
            seq![
                Deed::ShowSearch(false),
                Deed::Send(pane_in_use(w).id, InputView::SearchClear),
                Deed::Send(pane_in_use(w).id, InputView::GrabFocus),
            ],
        ),
        w.update(MsgView::SearchClose, s, running) == acted(w, Action::ToggleSearch, s, running),
{
    lemma_open(w);
    if w.search_open {
        assert(acted(w, Action::ToggleSearch, s, running).1 =~= seq![
            Deed::ShowSearch(false),
            Deed::Send(pane_in_use(w).id, InputView::SearchClear),
            Deed::Send(pane_in_use(w).id, InputView::GrabFocus),
        ]);
    }
}

/// A file that is picked in the file browser is typed into the pane in use,
/// quoted and with a blank behind it, and the pane takes the focus.
pub proof fn picked_files_are_typed(
    w: World,
    path: Seq<char>,
    s: SettingsView,
    running: Seq<(u64, Seq<char>)>,
)
    requires
        is_open(w),
    ensures
        w.update(MsgView::FileTreeActivateFile(path), s, running) == (
            w,
            seq![
                Deed::Send(
                    pane_in_use(w).id,
                    InputView::WriteInput(crate::file_tree::quoted(path) + seq![' ']),
                ),
                Deed::Send(pane_in_use(w).id, InputView::GrabFocus),
            ],
        ),
{
    lemma_open(w);
    assert(crate::file_tree::quoted(path).push(' ') =~= crate::file_tree::quoted(path) + seq![' ']);
    assert(w.update(MsgView::FileTreeActivateFile(path), s, running).1 =~= seq![
        Deed::Send(
            pane_in_use(w).id,
            InputView::WriteInput(crate::file_tree::quoted(path) + seq![' ']),
        ),
        Deed::Send(pane_in_use(w).id, InputView::GrabFocus),
    ]);
}

// ---------------------------------------------------------------------------
// The window around the tabs
// ---------------------------------------------------------------------------

/// The sidebar is shown and hidden by turns; the tab filter brings it into view
/// and takes the focus.
pub proof fn the_sidebar_is_toggled(
    w: World,
    text: Seq<char>,
    s: SettingsView,
    running: Seq<(u64, Seq<char>)>,
)
    ensures
        acted(w, Action::ToggleSidebar, s, running) == (
            (World { sidebar_visible: !w.sidebar_visible, ..w }),
            seq![Deed::ShowSidebar(!w.sidebar_visible)],
        ),
        w.update(MsgView::ToggleSidebar, s, running) == acted(
            w,
            Action::ToggleSidebar,
            s,
            running,
        ),
        w.sidebar_visible ==> acted(w, Action::FilterTabs, s, running) == (
            w,
            seq![Deed::FocusFilter],
        ),
        !w.sidebar_visible ==> acted(w, Action::FilterTabs, s, running) == (
            (World { sidebar_visible: true, ..w }),
            seq![Deed::ShowSidebar(true), Deed::FocusFilter],
        ),
        w.update(MsgView::SetTabFilter(text), s, running) == (
            (World { tab_filter: text, ..w }),
            seq![Deed::RebuildStrip],
        ),
{
}

/// What only concerns the surroundings of the tabs is passed on and leaves the
/// tabs alone.
pub proof fn other_requests_are_passed_on(
    w: World,
    tab: u64,
    title: Seq<char>,
    s: SettingsView,
    running: Seq<(u64, Seq<char>)>,
)
    ensures
        acted(w, Action::OpacityIncrease, s, running) == (w, seq![Deed::StepOpacity(true)]),
        acted(w, Action::OpacityDecrease, s, running) == (w, seq![Deed::StepOpacity(false)]),
        acted(w, Action::ToggleCommandPalette, s, running) == (w, seq![Deed::TogglePalette]),
        acted(w, Action::ToggleSettings, s, running) == (w, seq![Deed::ToggleSettings]),
        acted(w, Action::ShowRemotePicker, s, running) == (w, seq![Deed::ShowRemotePicker]),
        acted(w, Action::ToggleDebugDashboard, s, running) == (
            w,
            seq![Deed::ToggleDebugDashboard],
        ),
        w.update(MsgView::ReloadConfig, s, running) == (w, seq![Deed::ReloadConfig]),
        w.update(MsgView::FileTreeGotoCwd, s, running) == (w, seq![Deed::FollowCwd]),
        w.update(MsgView::FileTreeGoUp, s, running) == (w, seq![Deed::TreeUp]),
        w.update(MsgView::TitleChanged(tab, title), s, running) == (w, Seq::<Deed>::empty()),
        w.update(MsgView::Ignore, s, running) == (w, Seq::<Deed>::empty()),
{
}

/// A step of the font, a theme, a font and a length of the scrollback are taken
/// in use first, and then every pane of every tab is told; the settings are
/// saved behind that, and the style sheet is written anew for a theme.
pub proof fn every_pane_takes_the_settings(
    w: World,
    i: int,
    p: int,
    theme: int,
    font: Seq<char>,
    lines: u32,
    s: SettingsView,
    running: Seq<(u64, Seq<char>)>,
)
    requires
        0 <= i < w.tabs.len(),
        0 <= p < w.tabs[i].panes.len(),
        0 <= theme < s.themes,
    ensures
        ({
            let id = w.tabs[i].panes[p].id;
            let up = acted(w, Action::FontIncrease, s, running);
            let down = acted(w, Action::FontDecrease, s, running);
            &&& up.0 == w && up.1[0] == Deed::StepFont(true)
            &&& up.1.contains(Deed::Send(id, InputView::RefreshFontScale))
            &&& down.0 == w && down.1[0] == Deed::StepFont(false)
            &&& down.1.contains(Deed::Send(id, InputView::RefreshFontScale))
        }),
        ({
            let id = w.tabs[i].panes[p].id;
            let r = w.update(MsgView::SettingsTheme(theme), s, running);
            &&& r.0 == w && r.1[0] == Deed::UseTheme(theme)
            &&& r.1.contains(Deed::Send(id, InputView::ApplyTheme))
            &&& r.1[r.1.len() - 2] == Deed::ApplyCss
            &&& r.1.last() == Deed::SaveConfig
        }),
        ({
            let id = w.tabs[i].panes[p].id;
            let r = w.update(MsgView::SettingsFontDesc(font), s, running);
            &&& r.0 == w && r.1[0] == Deed::UseFont(font)
            &&& r.1.contains(Deed::Send(id, InputView::SetFont(font)))
            &&& r.1.last() == Deed::SaveConfig
        }),
        ({
            let id = w.tabs[i].panes[p].id;
            let r = w.update(MsgView::SettingsScrollback(lines), s, running);
            &&& r.0 == w && r.1[0] == Deed::UseScrollback(lines)
            &&& r.1.contains(Deed::Send(id, InputView::SetScrollback(lines)))
            &&& r.1.last() == Deed::SaveConfig
        }),
        ({
            let id = w.tabs[i].panes[p].id;
            let r = w.update(MsgView::ConfigLoaded(font, lines), s, running);
            &&& r.0 == w
            &&& r.1.contains(Deed::Send(id, InputView::RefreshFontScale))
            &&& r.1.contains(Deed::Send(id, InputView::SetFont(font)))
            &&& r.1.contains(Deed::Send(id, InputView::SetScrollback(lines)))
            &&& r.1.contains(Deed::Send(id, InputView::ApplyTheme))
            &&& r.1.last() == Deed::ApplyCss
        }),
        w.update(MsgView::SettingsTheme(s.themes), s, running) == (w, Seq::<Deed>::empty()),
{
    let id = w.tabs[i].panes[p].id;
    lemma_told(w, i, p, InputView::RefreshFontScale, seq![Deed::StepFont(true)], seq![]);
    lemma_told(w, i, p, InputView::RefreshFontScale, seq![Deed::StepFont(false)], seq![]);
    let scale = super::steps::to_tabs(w.tabs, seq![InputView::RefreshFontScale]);
    assert(seq![Deed::StepFont(true)] + scale + seq![] =~= seq![Deed::StepFont(true)] + scale);
    assert(seq![Deed::StepFont(false)] + scale + seq![] =~= seq![Deed::StepFont(false)] + scale);
    lemma_told(
        w,
        i,
        p,
        InputView::ApplyTheme,
        seq![Deed::UseTheme(theme)],
        seq![Deed::ApplyCss, Deed::SaveConfig],
    );
    lemma_told(w, i, p, InputView::SetFont(font), seq![Deed::UseFont(font)], seq![Deed::SaveConfig]);
    lemma_told(
        w,
        i,
        p,
        InputView::SetScrollback(lines),
        seq![Deed::UseScrollback(lines)],
        seq![Deed::SaveConfig],
    );
    let inputs = seq![
        InputView::RefreshFontScale,
        InputView::SetFont(font),
        InputView::SetScrollback(lines),
        InputView::ApplyTheme,
    ];
    super::laws::every_pane_is_told(w.tabs, inputs, i, p, 0);
    super::laws::every_pane_is_told(w.tabs, inputs, i, p, 1);
    super::laws::every_pane_is_told(w.tabs, inputs, i, p, 2);
    super::laws::every_pane_is_told(w.tabs, inputs, i, p, 3);
    let all = super::steps::to_tabs(w.tabs, inputs);
    lemma_pushed(all, Deed::Send(id, inputs[0]), Deed::ApplyCss);
    lemma_pushed(all, Deed::Send(id, inputs[1]), Deed::ApplyCss);
    lemma_pushed(all, Deed::Send(id, inputs[2]), Deed::ApplyCss);
    lemma_pushed(all, Deed::Send(id, inputs[3]), Deed::ApplyCss);
}

proof fn lemma_pushed(all: Seq<Deed>, d: Deed, e: Deed)
    requires
        all.contains(d),
    ensures
        all.push(e).contains(d),
{
    let k = choose|k: int| 0 <= k < all.len() && all[k] == d;
    assert(all.push(e)[k] == d);
}

proof fn lemma_told(
    w: World,
    i: int,
    p: int,
    input: InputView,
    before: Seq<Deed>,
    after: Seq<Deed>,
)
    requires
        0 <= i < w.tabs.len(),
        0 <= p < w.tabs[i].panes.len(),
    ensures
        (before + super::steps::to_tabs(w.tabs, seq![input]) + after).contains(
            Deed::Send(w.tabs[i].panes[p].id, input),
        ),
{
    super::laws::every_pane_is_told(w.tabs, seq![input], i, p, 0);
    let mid = super::steps::to_tabs(w.tabs, seq![input]);
    let d = Deed::Send(w.tabs[i].panes[p].id, input);
    let k = choose|k: int| 0 <= k < mid.len() && mid[k] == d;
    assert((before + mid + after)[before.len() + k] == d);
}

} // verus!
