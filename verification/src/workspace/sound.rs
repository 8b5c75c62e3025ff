//! What every step of a window keeps.

use super::state::{MsgView, PaneView, SettingsView, TabView, World};
use super::tree::Orientation;
use crate::action::Action;
use crate::session::TerminalMode;
use vstd::prelude::*;

verus! {

/// The tree of a sound tab holds its panes, each of them once.
pub proof fn leaves_are_the_panes(t: TabView, a: u64, b: u64)
    requires
        super::state::tab_is_sound(t, a, b),
    ensures
        super::tree::leaves(t.tree).no_duplicates(),
        super::tree::leaves(t.tree).len() == t.panes.len(),
        forall|x: u64| #[trigger]
            super::tree::leaves(t.tree).contains(x) <==> super::state::pane_ids(t.panes).contains(
                x,
            ),
{
    broadcast use vstd::seq_lib::group_to_multiset_ensures;

    let l = super::tree::leaves(t.tree);
    let p = super::state::pane_ids(t.panes);
    p.lemma_multiset_has_no_duplicates();
    l.lemma_multiset_has_no_duplicates_conv();
    assert(l.to_multiset().len() == p.to_multiset().len());
    assert forall|x: u64| #[trigger] l.contains(x) <==> p.contains(x) by {
        assert(l.to_multiset().count(x) == p.to_multiset().count(x));
    }
}

/// Replacing a tab by one with the same number and no other panes keeps tabs
/// apart.
proof fn lemma_update_apart(tabs: Seq<TabView>, i: int, t: TabView)
    requires
        super::state::all_apart(tabs),
        0 <= i < tabs.len(),
        t.id == tabs[i].id,
        forall|x: u64| #[trigger]
            super::state::pane_ids(t.panes).contains(x) ==> super::state::pane_ids(
                tabs[i].panes,
            ).contains(x),
    ensures
        super::state::all_apart(tabs.update(i, t)),
{
    let u = tabs.update(i, t);
    assert forall|a: int, b: int|
        0 <= a < u.len() && 0 <= b < u.len() && a != b implies super::state::are_apart(
        #[trigger] u[a],
        #[trigger] u[b],
    ) by {
        assert(super::state::are_apart(tabs[a], tabs[b]));
        assert forall|x: u64| #[trigger]
            super::state::pane_ids(u[a].panes).contains(x) implies !super::state::pane_ids(
            u[b].panes,
        ).contains(x) by {
            assert(super::state::pane_ids(tabs[a].panes).contains(x));
        }
    }
}

/// Replacing a tab by a sound one with the same number and no other panes keeps
/// the window sound.
pub proof fn replacing_is_sound(w: World, i: int, t: TabView)
    requires
        w.is_sound(),
        0 <= i < w.tabs.len(),
        super::state::tab_is_sound(t, w.next_id, w.next_pane_id),
        t.id == w.tabs[i].id,
        forall|x: u64| #[trigger]
            super::state::pane_ids(t.panes).contains(x) ==> super::state::pane_ids(
                w.tabs[i].panes,
            ).contains(x),
    ensures
        w.with_tab(i, t).is_sound(),
{
    lemma_update_apart(w.tabs, i, t);
}

proof fn lemma_select_sound(w: World, id: u64)
    requires
        forall|i: int|
            0 <= i < w.tabs.len() ==> super::state::tab_is_sound(
                #[trigger] w.tabs[i],
                w.next_id,
                w.next_pane_id,
            ),
        super::state::all_apart(w.tabs),
        super::state::tab_at(w.tabs, id) is Some,
    ensures
        w.select(id).0.is_sound(),
{
    super::state::tab_at_is_first(w.tabs, id);
    let i = super::state::tab_at(w.tabs, id)->0;
    let t = TabView { bell: false, activity: false, ..w.tabs[i] };
    assert(super::state::tab_is_sound(w.tabs[i], w.next_id, w.next_pane_id));
    lemma_update_apart(w.tabs, i, t);
}

/// Selecting a tab keeps a window sound.
pub proof fn selecting_is_sound(w: World, id: u64)
    requires
        w.is_sound(),
    ensures
        w.select(id).0.is_sound(),
{
    if super::state::tab_at(w.tabs, id) is Some {
        lemma_select_sound(w, id);
    }
}

/// A tab of a sound window is found by its number.
pub proof fn tabs_are_found(tabs: Seq<TabView>, j: int)
    requires
        0 <= j < tabs.len(),
        super::state::all_apart(tabs),
    ensures
        super::state::tab_at(tabs, tabs[j].id) == Some(j),
{
    assert forall|k: int| 0 <= k < j implies (#[trigger] tabs[k]).id != tabs[j].id by {
        assert(super::state::are_apart(tabs[k], tabs[j]));
    }
    super::state::lemma_tab_at(tabs, tabs[j].id, j);
}

proof fn lemma_single_is_sound(id: u64, pane: PaneView, title: Seq<char>, custom: bool, a: u64, b: u64)
    requires
        id < a,
        pane.id < b,
    ensures
        super::state::tab_is_sound(super::steps::single(id, pane, title, custom), a, b),
        super::state::pane_ids(super::steps::single(id, pane, title, custom).panes) == seq![
            pane.id,
        ],
{
    let t = super::steps::single(id, pane, title, custom);
    assert(super::state::pane_ids(t.panes) =~= seq![pane.id]);
    assert(super::tree::leaves(t.tree) =~= seq![pane.id]);
}

/// Adding a tab that shares nothing with the others keeps them apart.
pub proof fn adding_keeps_apart(tabs: Seq<TabView>, t: TabView)
    requires
        super::state::all_apart(tabs),
        forall|i: int|
            0 <= i < tabs.len() ==> super::state::are_apart(#[trigger] tabs[i], t),
    ensures
        super::state::all_apart(tabs.push(t)),
{
    let u = tabs.push(t);
    assert forall|a: int, b: int|
        0 <= a < u.len() && 0 <= b < u.len() && a != b implies super::state::are_apart(
        #[trigger] u[a],
        #[trigger] u[b],
    ) by {
        if a < tabs.len() && b < tabs.len() {
            assert(super::state::are_apart(tabs[a], tabs[b]));
        } else if b == tabs.len() {
            assert(super::state::are_apart(tabs[a], t));
        } else {
            assert(super::state::are_apart(tabs[b], t));
            assert forall|x: u64| #[trigger]
                super::state::pane_ids(u[a].panes).contains(x) implies !super::state::pane_ids(
                u[b].panes,
            ).contains(x) by {
                if super::state::pane_ids(tabs[b].panes).contains(x) {
                    assert(!super::state::pane_ids(t.panes).contains(x));
                }
            }
        }
    }
}

proof fn lemma_fresh_is_apart(old_tab: TabView, t: TabView, a: u64, b: u64)
    requires
        super::state::tab_is_sound(old_tab, a, b),
        t.id >= a,
        super::state::pane_ids(t.panes) == seq![b],
    ensures
        super::state::are_apart(old_tab, t),
{
    assert forall|x: u64| #[trigger]
        super::state::pane_ids(old_tab.panes).contains(x) implies !super::state::pane_ids(
        t.panes,
    ).contains(x) by {
        let i = choose|i: int|
            0 <= i < old_tab.panes.len() && super::state::pane_ids(old_tab.panes)[i] == x;
        assert(old_tab.panes[i].id < b);
        assert(x != b);
    }
}

proof fn lemma_open_sound(
    w: World,
    mode: TerminalMode,
    commands: Option<Seq<char>>,
    cwd: Option<Seq<char>>,
    host: Option<int>,
    title: Seq<char>,
    custom: bool,
)
    requires
        w.is_sound(),
        w.next_id < u64::MAX,
        w.next_pane_id < u64::MAX,
    ensures
        w.open(mode, commands, cwd, host, title, custom).0.is_sound(),
        w.open(mode, commands, cwd, host, title, custom).0.tabs.len() == w.tabs.len() + 1,
{
    let a = (w.next_id + 1) as u64;
    let b = (w.next_pane_id + 1) as u64;
    let t = super::steps::single(
        w.next_id,
        PaneView { id: w.next_pane_id, cwd, mode },
        title,
        custom,
    );
    let v = World { tabs: w.tabs.push(t), next_id: a, next_pane_id: b, ..w };
    lemma_single_is_sound(
        w.next_id,
        PaneView { id: w.next_pane_id, cwd, mode },
        title,
        custom,
        a,
        b,
    );
    assert forall|i: int| 0 <= i < w.tabs.len() implies super::state::are_apart(
        #[trigger] w.tabs[i],
        t,
    ) by {
        lemma_fresh_is_apart(w.tabs[i], t, w.next_id, w.next_pane_id);
    }
    adding_keeps_apart(w.tabs, t);
    assert forall|i: int| 0 <= i < v.tabs.len() implies super::state::tab_is_sound(
        #[trigger] v.tabs[i],
        a,
        b,
    ) by {
        if i < w.tabs.len() {
            assert(v.tabs[i] == w.tabs[i]);
        }
    }
    assert(v.tabs[w.tabs.len() as int] == t);
    tabs_are_found(v.tabs, w.tabs.len() as int);
    lemma_select_sound(v, w.next_id);
}

proof fn lemma_remove_apart(tabs: Seq<TabView>, i: int)
    requires
        super::state::all_apart(tabs),
        0 <= i < tabs.len(),
    ensures
        super::state::all_apart(tabs.remove(i)),
{
    let u = tabs.remove(i);
    assert forall|a: int, b: int|
        0 <= a < u.len() && 0 <= b < u.len() && a != b implies super::state::are_apart(
        #[trigger] u[a],
        #[trigger] u[b],
    ) by {
        let c = if a < i {
            a
        } else {
            a + 1
        };
        let d = if b < i {
            b
        } else {
            b + 1
        };
        assert(u[a] == tabs[c] && u[b] == tabs[d]);
        assert(super::state::are_apart(tabs[c], tabs[d]));
    }
}

pub(super) proof fn lemma_close_tab_sound(w: World, id: u64)
    requires
        w.is_sound(),
    ensures
        w.close_tab(id).0.is_sound(),
{
    super::state::tab_at_is_first(w.tabs, id);
    if let Some(i) = super::state::tab_at(w.tabs, id) {
        let v = World { tabs: w.tabs.remove(i), ..w };
        lemma_remove_apart(w.tabs, i);
        assert forall|k: int| 0 <= k < v.tabs.len() implies super::state::tab_is_sound(
            #[trigger] v.tabs[k],
            v.next_id,
            v.next_pane_id,
        ) by {
            if k < i {
                assert(v.tabs[k] == w.tabs[k]);
            } else {
                assert(v.tabs[k] == w.tabs[k + 1]);
            }
        }
        if v.tabs.len() > 0 {
            let j = if i >= v.tabs.len() {
                v.tabs.len() - 1
            } else {
                i
            };
            tabs_are_found(v.tabs, j);
            lemma_select_sound(v, v.tabs[j].id);
        }
    }
}

proof fn lemma_close_tabs_sound(w: World, ids: Seq<u64>)
    requires
        w.is_sound(),
    ensures
        w.close_tabs(ids).0.is_sound(),
    decreases ids.len(),
{
    if ids.len() > 0 {
        lemma_close_tab_sound(w, ids[0]);
        lemma_close_tabs_sound(w.close_tab(ids[0]).0, ids.skip(1));
    }
}

proof fn lemma_zoom_sound(w: World, i: int)
    requires
        w.is_sound(),
    ensures
        w.toggle_zoom(i).0.is_sound(),
{
    if 0 <= i < w.tabs.len() {
        let t = w.tabs[i];
        if !(t.zoom is None && t.panes.len() <= 1) {
            let z = TabView {
                zoom: match t.zoom {
                    Some(_) => None,
                    None => Some(t.panes[t.active_pane].id),
                },
                ..t
            };
            assert(super::state::pane_ids(t.panes)[t.active_pane] == t.panes[t.active_pane].id);
            replacing_is_sound(w, i, z);
        }
    }
}

proof fn lemma_without_pane(t: TabView, p: int, a: u64, b: u64)
    requires
        super::state::tab_is_sound(t, a, b),
        t.zoom is None,
        t.panes.len() > 1,
        0 <= p < t.panes.len(),
    ensures
        super::state::tab_is_sound(super::steps::without_pane(t, p), a, b),
        forall|x: u64| #[trigger]
            super::state::pane_ids(super::steps::without_pane(t, p).panes).contains(x)
                ==> super::state::pane_ids(t.panes).contains(x) && x != t.panes[p].id,
{
    broadcast use vstd::seq_lib::group_to_multiset_ensures;

    let r = super::steps::without_pane(t, p);
    let ids = super::state::pane_ids(t.panes);
    let pane = t.panes[p].id;
    leaves_are_the_panes(t, a, b);
    assert(super::state::pane_ids(r.panes) =~= ids.remove(p));
    assert(ids[p] == pane);
    assert(ids.contains(pane));
    let l = super::tree::leaves(t.tree);
    assert(l.contains(pane));
    let k = choose|k: int| 0 <= k < l.len() && l[k] == pane;
    super::tree::removing_takes_one_pane(t.tree, pane, k);
    assert(super::tree::leaves(r.tree) == l.remove(k));
    assert(l.remove(k).to_multiset() =~= l.to_multiset().remove(pane));
    assert(ids.remove(p).to_multiset() =~= ids.to_multiset().remove(pane));
    assert forall|i: int, j: int|
        0 <= i < ids.remove(p).len() && 0 <= j < ids.remove(p).len() && i != j implies ids.remove(
        p,
    )[i] != ids.remove(p)[j] by {
        let c = if i < p {
            i
        } else {
            i + 1
        };
        let d = if j < p {
            j
        } else {
            j + 1
        };
        assert(ids.remove(p)[i] == ids[c] && ids.remove(p)[j] == ids[d]);
    }
    assert forall|i: int| 0 <= i < r.panes.len() implies (#[trigger] r.panes[i]).id < b by {
        let c = if i < p {
            i
        } else {
            i + 1
        };
        assert(r.panes[i] == t.panes[c]);
    }
    assert forall|x: u64| #[trigger]
        super::state::pane_ids(r.panes).contains(x) implies ids.contains(x) && x != pane by {
        let i = choose|i: int| 0 <= i < ids.remove(p).len() && ids.remove(p)[i] == x;
        let c = if i < p {
            i
        } else {
            i + 1
        };
        assert(ids[c] == x);
    }
}

proof fn lemma_close_pane_sound(w: World, pane: u64)
    requires
        w.is_sound(),
    ensures
        w.close_pane(pane).0.is_sound(),
{
    super::state::pane_place_is_first(w.tabs, pane);
    if let Some((i, p)) = super::state::pane_place(w.tabs, pane) {
        let first = if w.tabs[i].zoom is Some {
            w.toggle_zoom(i).0
        } else {
            w
        };
        if w.tabs[i].zoom is Some {
            lemma_zoom_sound(w, i);
        }
        let t = first.tabs[i];
        assert(t.panes == w.tabs[i].panes);
        assert(t.zoom is None);
        if t.panes.len() == 1 {
            lemma_close_tab_sound(first, t.id);
        } else {
            lemma_without_pane(t, p, first.next_id, first.next_pane_id);
            replacing_is_sound(first, i, super::steps::without_pane(t, p));
        }
    }
}

proof fn lemma_split_sound(w: World, orientation: Orientation)
    requires
        w.is_sound(),
        w.next_pane_id < u64::MAX,
    ensures
        w.split_active(orientation).0.is_sound(),
{
    broadcast use vstd::seq_lib::group_to_multiset_ensures;

    if w.has_active() && w.tabs[w.active].zoom is None {
        let t = w.tabs[w.active];
        let here = t.panes[t.active_pane];
        let pane = w.next_pane_id;
        let b = (w.next_pane_id + 1) as u64;
        let v = w.split_active(orientation).0;
        let s = v.tabs[w.active];
        let ids = super::state::pane_ids(t.panes);
        assert(super::state::tab_is_sound(t, w.next_id, w.next_pane_id));
        leaves_are_the_panes(t, w.next_id, w.next_pane_id);
        assert(super::state::pane_ids(s.panes) =~= ids.push(pane));
        assert(ids[t.active_pane] == here.id);
        let l = super::tree::leaves(t.tree);
        assert(l.contains(here.id));
        let k = choose|k: int| 0 <= k < l.len() && l[k] == here.id;
        super::tree::splitting_adds_one_pane(t.tree, here.id, pane, orientation, k);
        assert(super::tree::leaves(s.tree).to_multiset() =~= l.to_multiset().insert(pane));
        assert forall|x: u64| #[trigger] ids.contains(x) implies x < pane by {
            let i = choose|i: int| 0 <= i < ids.len() && ids[i] == x;
            assert(t.panes[i].id < w.next_pane_id);
        }
        assert(ids.push(pane).no_duplicates()) by {
            assert forall|i: int, j: int|
                0 <= i < ids.push(pane).len() && 0 <= j < ids.push(pane).len() && i
                    != j implies ids.push(pane)[i] != ids.push(pane)[j] by {
                if i == ids.len() {
                    assert(ids.contains(ids[j]));
                } else if j == ids.len() {
                    assert(ids.contains(ids[i]));
                }
            }
        }
        assert(super::state::tab_is_sound(s, v.next_id, b));
        assert forall|a: int, c: int|
            0 <= a < v.tabs.len() && 0 <= c < v.tabs.len() && a != c implies super::state::are_apart(
            #[trigger] v.tabs[a],
            #[trigger] v.tabs[c],
        ) by {
            assert(super::state::are_apart(w.tabs[a], w.tabs[c]));
            assert(super::state::are_apart(w.tabs[c], w.tabs[a]));
            assert forall|x: u64| #[trigger]
                super::state::pane_ids(v.tabs[a].panes).contains(x) implies !super::state::pane_ids(
                v.tabs[c].panes,
            ).contains(x) by {
                if a == w.active {
                    let i = choose|i: int| 0 <= i < ids.push(pane).len() && ids.push(pane)[i] == x;
                    if i < ids.len() {
                        assert(ids[i] == x);
                        assert(ids.contains(x));
                    } else {
                        number_is_fresh(w, c);
                    }
                } else if c == w.active {
                    if super::state::pane_ids(v.tabs[c].panes).contains(x) {
                        let i = choose|i: int|
                            0 <= i < ids.push(pane).len() && ids.push(pane)[i] == x;
                        if i < ids.len() {
                            assert(ids[i] == x);
                            assert(ids.contains(x));
                        } else {
                            number_is_fresh(w, a);
                        }
                    }
                } else {
                }
            }
        }
        assert forall|i: int| 0 <= i < v.tabs.len() implies super::state::tab_is_sound(
            #[trigger] v.tabs[i],
            v.next_id,
            v.next_pane_id,
        ) by {
            if i != w.active {
                assert(v.tabs[i] == w.tabs[i]);
            }
        }
    }
}

/// The number of the next pane is that of no pane.
pub proof fn number_is_fresh(w: World, i: int)
    requires
        w.is_sound(),
        0 <= i < w.tabs.len(),
    ensures
        !super::state::pane_ids(w.tabs[i].panes).contains(w.next_pane_id),
{
    let ids = super::state::pane_ids(w.tabs[i].panes);
    assert(super::state::tab_is_sound(w.tabs[i], w.next_id, w.next_pane_id));
    if ids.contains(w.next_pane_id) {
        let k = choose|k: int| 0 <= k < ids.len() && ids[k] == w.next_pane_id;
        assert(w.tabs[i].panes[k].id < w.next_pane_id);
    }
}

/// Moving a tab keeps a window sound and its active tab the active one.
pub proof fn reordered_tabs(w: World, id: u64, to: int)
    requires
        w.is_sound(),
        0 <= to,
    ensures
        w.reorder_tab(id, to).0.is_sound(),
        w.tabs.len() > 0 ==> w.reorder_tab(id, to).0.has_active(),
        w.tabs.len() > 0 ==> w.reorder_tab(id, to).0.tabs[w.reorder_tab(id, to).0.active]
            == w.tabs[w.active],
{
    super::state::tab_at_is_first(w.tabs, id);
    if let Some(from) = super::state::tab_at(w.tabs, id) {
        let dest = if to >= w.tabs.len() {
            w.tabs.len() - 1
        } else {
            to
        };
        if from != dest {
            let u = w.tabs.remove(from).insert(dest, w.tabs[from]);
            assert(u.len() == w.tabs.len());
            assert forall|a: int, b: int|
                0 <= a < u.len() && 0 <= b < u.len() && a != b implies super::state::are_apart(
                #[trigger] u[a],
                #[trigger] u[b],
            ) by {
                let c = origin(from, dest, a);
                let d = origin(from, dest, b);
                assert(u[a] == w.tabs[c] && u[b] == w.tabs[d]);
                assert(super::state::are_apart(w.tabs[c], w.tabs[d]));
            }
            assert forall|a: int| 0 <= a < u.len() implies super::state::tab_is_sound(
                #[trigger] u[a],
                w.next_id,
                w.next_pane_id,
            ) by {
                assert(u[a] == w.tabs[origin(from, dest, a)]);
            }
            let k = origin(dest, from, w.active);
            assert(origin(from, dest, k) == w.active);
            assert(u[k] == w.tabs[w.active]);
            tabs_are_found(u, k);
        }
    }
}

/// Where the tab at a position stood before one was moved.
spec fn origin(from: int, to: int, i: int) -> int {
    if i == to {
        from
    } else if from < to && from <= i < to {
        i + 1
    } else if to < from && to < i <= from {
        i - 1
    } else {
        i
    }
}

proof fn lemma_move_tab_sound(w: World, delta: int)
    requires
        w.is_sound(),
    ensures
        w.move_tab(delta).0.is_sound(),
{
    let to = w.active + delta;
    if w.has_active() && 0 <= to < w.tabs.len() && delta != 0 {
        let u = w.move_tab(delta).0.tabs;
        assert forall|a: int, b: int|
            0 <= a < u.len() && 0 <= b < u.len() && a != b implies super::state::are_apart(
            #[trigger] u[a],
            #[trigger] u[b],
        ) by {
            let c = swapped(w.active, to, a);
            let d = swapped(w.active, to, b);
            assert(u[a] == w.tabs[c] && u[b] == w.tabs[d]);
            assert(super::state::are_apart(w.tabs[c], w.tabs[d]));
        }
        assert forall|a: int| 0 <= a < u.len() implies super::state::tab_is_sound(
            #[trigger] u[a],
            w.next_id,
            w.next_pane_id,
        ) by {
            assert(u[a] == w.tabs[swapped(w.active, to, a)]);
        }
    }
}

spec fn swapped(a: int, b: int, i: int) -> int {
    if i == a {
        b
    } else if i == b {
        a
    } else {
        i
    }
}

proof fn lemma_move_pane_sound(w: World, s: SettingsView)
    requires
        w.is_sound(),
        w.next_id < u64::MAX,
    ensures
        w.move_pane_to_new_tab(s).0.is_sound(),
{
    if w.has_active() && w.tabs[w.active].panes.len() > 1 && w.tabs[w.active].zoom is None {
        let t = w.tabs[w.active];
        let p = t.active_pane;
        let pane = t.panes[p];
        let r = super::steps::without_pane(t, p);
        let title = crate::terminal::launch::tab_title(w.next_number(), pane.cwd, s.home);
        let fresh = super::steps::single(w.next_id, pane, title, false);
        let a = (w.next_id + 1) as u64;
        let v = w.with_tab(w.active, r);
        assert(super::state::tab_is_sound(t, w.next_id, w.next_pane_id));
        lemma_without_pane(t, p, w.next_id, w.next_pane_id);
        replacing_is_sound(w, w.active, r);
        lemma_single_is_sound(w.next_id, pane, title, false, a, w.next_pane_id);
        assert(super::state::pane_ids(t.panes)[p] == pane.id);
        assert(super::state::pane_ids(t.panes).contains(pane.id));
        assert forall|i: int| 0 <= i < v.tabs.len() implies super::state::are_apart(
            #[trigger] v.tabs[i],
            fresh,
        ) by {
            assert(super::state::tab_is_sound(v.tabs[i], v.next_id, v.next_pane_id));
            assert forall|x: u64| #[trigger]
                super::state::pane_ids(v.tabs[i].panes).contains(x) implies !super::state::pane_ids(
                fresh.panes,
            ).contains(x) by {
                if i != w.active {
                    assert(super::state::are_apart(w.tabs[w.active], w.tabs[i]));
                    assert(!super::state::pane_ids(w.tabs[i].panes).contains(pane.id));
                }
                assert(x != pane.id);
            }
        }
        adding_keeps_apart(v.tabs, fresh);
        let n = World { tabs: v.tabs.push(fresh), next_id: a, ..w };
        assert forall|i: int| 0 <= i < n.tabs.len() implies super::state::tab_is_sound(
            #[trigger] n.tabs[i],
            a,
            w.next_pane_id,
        ) by {
            if i < v.tabs.len() {
                assert(n.tabs[i] == v.tabs[i]);
            }
        }
        assert(n.tabs[v.tabs.len() as int] == fresh);
        tabs_are_found(n.tabs, v.tabs.len() as int);
        lemma_select_sound(n, w.next_id);
    }
}

proof fn lemma_resize_sound(w: World, target: Orientation, delta: int)
    requires
        w.is_sound(),
    ensures
        w.resize_pane(target, delta).0.is_sound(),
{
    if let Some(p) = w.active_pane() {
        let t = w.tabs[w.active];
        if t.zoom != Some(p.id) {
            super::tree::moving_keeps_the_panes(t.tree, p.id, target, delta);
            if let Some(tree) = super::tree::moved(t.tree, p.id, target, delta) {
                replacing_is_sound(w, w.active, TabView { tree, ..t });
            }
        }
    }
}

proof fn lemma_cycle_sound(w: World, delta: int)
    requires
        w.is_sound(),
    ensures
        w.cycle_focus(delta).0.is_sound(),
{
    if w.has_active() && w.tabs[w.active].panes.len() > 1 {
        let t = w.tabs[w.active];
        let n = t.panes.len() as int;
        let i = t.active_pane + delta;
        assert(0 <= i % n < n) by (nonlinear_arith)
            requires
                n > 0,
        ;
        replacing_is_sound(
            w,
            w.active,
            TabView { active_pane: super::steps::wrapped(i, n), ..t },
        );
    }
}

proof fn lemma_focus_pane_sound(w: World, pane: u64)
    requires
        w.is_sound(),
    ensures
        w.focus_pane(pane).0.is_sound(),
{
    if w.has_active() {
        let t = w.tabs[w.active];
        super::state::pane_at_is_first(t.panes, pane);
        if let Some(p) = super::state::pane_at(t.panes, pane) {
            replacing_is_sound(w, w.active, TabView { active_pane: p, ..t });
        }
    }
}

proof fn lemma_note_focus_sound(w: World, pane: u64)
    requires
        w.is_sound(),
    ensures
        w.note_focus(pane).is_sound(),
{
    super::state::pane_place_is_first(w.tabs, pane);
    if let Some((i, p)) = super::state::pane_place(w.tabs, pane) {
        replacing_is_sound(w, i, TabView { active_pane: p, ..w.tabs[i] });
    }
}

proof fn lemma_change_cwd_sound(w: World, pane: u64, path: Seq<char>, s: SettingsView)
    requires
        w.is_sound(),
    ensures
        w.change_cwd(pane, path, s).0.is_sound(),
{
    super::state::pane_place_is_first(w.tabs, pane);
    if let Some((i, p)) = super::state::pane_place(w.tabs, pane) {
        let t = w.tabs[i];
        let panes = t.panes.update(p, PaneView { cwd: Some(path), ..t.panes[p] });
        assert(super::state::pane_ids(panes) =~= super::state::pane_ids(t.panes));
        let c = TabView { panes, ..t };
        assert(super::state::tab_is_sound(t, w.next_id, w.next_pane_id));
        assert forall|k: int| 0 <= k < panes.len() implies (#[trigger] panes[k]).id
            < w.next_pane_id by {
            assert(t.panes[k].id < w.next_pane_id);
        }
        let title = crate::terminal::launch::tab_title((i + 1) as nat, Some(path), s.home);
        replacing_is_sound(w, i, c);
        replacing_is_sound(w, i, TabView { title, ..c });
    }
}

proof fn lemma_note_sound(w: World, id: u64, bell: bool)
    requires
        w.is_sound(),
    ensures
        w.note(id, bell).0.is_sound(),
{
    super::state::tab_at_is_first(w.tabs, id);
    if let Some(i) = super::state::tab_at(w.tabs, id) {
        let t = w.tabs[i];
        replacing_is_sound(w, i, TabView { bell: true, ..t });
        replacing_is_sound(w, i, TabView { activity: true, ..t });
    }
}

proof fn lemma_rename_sound(w: World, id: u64, title: Seq<char>, s: SettingsView)
    requires
        w.is_sound(),
    ensures
        w.rename(id, title, s).0.is_sound(),
{
    super::state::tab_at_is_first(w.tabs, id);
    if let Some(i) = super::state::tab_at(w.tabs, id) {
        replacing_is_sound(w, i, w.rename(id, title, s).0.tabs[i]);
    }
}

proof fn lemma_execute_sound(
    w: World,
    action: Action,
    s: SettingsView,
    running: Seq<(u64, Seq<char>)>,
)
    requires
        w.is_sound(),
        w.next_id < u64::MAX,
        w.next_pane_id < u64::MAX,
    ensures
        w.execute(action, s, running).0.is_sound(),
{
    match action {
        Action::NewTab => {
            adding_is_sound(w, s);
        },
        Action::CloseTab => {
            if w.has_active() {
                lemma_close_tab_sound(w, w.tabs[w.active].id);
            }
        },
        Action::ClosePaneOrTab => {
            if w.has_active() {
                let t = w.tabs[w.active];
                lemma_close_pane_sound(w, t.panes[t.active_pane].id);
                lemma_close_tab_sound(w, t.id);
            }
        },
        Action::SplitHorizontal => lemma_split_sound(w, Orientation::Horizontal),
        Action::SplitVertical => lemma_split_sound(w, Orientation::Vertical),
        Action::CyclePaneFocusForward => lemma_cycle_sound(w, 1),
        Action::CyclePaneFocusBackward => lemma_cycle_sound(w, -1),
        Action::ResizePaneLeft => lemma_resize_sound(w, Orientation::Horizontal, -40),
        Action::ResizePaneRight => lemma_resize_sound(w, Orientation::Horizontal, 40),
        Action::ResizePaneUp => lemma_resize_sound(w, Orientation::Vertical, -40),
        Action::ResizePaneDown => lemma_resize_sound(w, Orientation::Vertical, 40),
        Action::TogglePaneZoom => lemma_zoom_sound(w, w.active),
        Action::MovePaneToNewTab => lemma_move_pane_sound(w, s),
        Action::MoveTabLeft => lemma_move_tab_sound(w, -1),
        Action::MoveTabRight => lemma_move_tab_sound(w, 1),
        Action::DuplicateTab => {
            if w.has_active() {
                let t = w.tabs[w.active];
                let (mode, cwd) = match super::steps::pane_in_focus(t) {
                    Some(p) => (p.mode, p.cwd),
                    None => (s.terminal_mode, None),
                };
                lemma_open_sound(w, mode, None, cwd, None, t.title, t.custom_title);
            }
        },
        Action::ToggleTabMarked => {
            if w.has_active() {
                let t = w.tabs[w.active];
                replacing_is_sound(w, w.active, TabView { marked: !t.marked, ..t });
            }
        },
        Action::CloseSelectedTabs => {
            lemma_close_tabs_sound(w, super::steps::marked_ids(w.tabs));
        },
        Action::PrevTab => switching_is_sound(w, -1),
        Action::NextTab => switching_is_sound(w, 1),
        Action::QuickSwitchTab(n) => {
            if w.tabs.len() > 0 {
                let last = w.tabs.len() - 1;
                let i = if n == 9 || n > last {
                    last
                } else {
                    n as int
                };
                selecting_is_sound(w, w.tabs[i].id);
            }
        },
        Action::ConnectRemote(n) => {
            if n < s.hosts.len() {
                lemma_open_sound(
                    w,
                    TerminalMode::Vte,
                    None,
                    None,
                    Some(n as int),
                    s.hosts[n as int],
                    true,
                );
            }
        },
        _ => {},
    }
}

/// A fresh tab keeps a window sound, and comes in addition.
pub proof fn adding_is_sound(w: World, s: SettingsView)
    requires
        w.is_sound(),
        w.next_id < u64::MAX,
        w.next_pane_id < u64::MAX,
    ensures
        w.add_tab(s).0.is_sound(),
        w.add_tab(s).0.tabs.len() == w.tabs.len() + 1,
{
    lemma_open_sound(
        w,
        s.terminal_mode,
        s.startup_commands,
        None,
        None,
        crate::terminal::launch::tab_title(w.next_number(), None, s.home),
        false,
    );
}

/// Switching tabs keeps a window sound.
pub proof fn switching_is_sound(w: World, delta: int)
    requires
        w.is_sound(),
    ensures
        w.switch_tab(delta).0.is_sound(),
{
    if w.tabs.len() > 0 {
        selecting_is_sound(
            w,
            w.tabs[super::steps::wrapped(w.active + delta, w.tabs.len() as int)].id,
        );
    }
}

/// Whatever is asked of a sound window, it stays sound: each tab keeps a pane
/// in focus and a tree of exactly its panes, and no two tabs come to share
/// anything.
pub proof fn windows_stay_sound(
    w: World,
    msg: MsgView,
    s: SettingsView,
    running: Seq<(u64, Seq<char>)>,
)
    requires
        w.is_sound(),
        w.next_id < u64::MAX,
        w.next_pane_id < u64::MAX,
        msg matches MsgView::ReorderTab(_, to) ==> to >= 0,
    ensures
        w.update(msg, s, running).0.is_sound(),
{
    match msg {
        MsgView::NewTab => adding_is_sound(w, s),
        MsgView::CloseTab(id) => lemma_close_tab_sound(w, id),
        MsgView::ForceCloseTab(id) => lemma_close_tab_sound(w, id),
        MsgView::ForceClosePane(pane) => lemma_close_pane_sound(w, pane),
        MsgView::SelectTab(id) => selecting_is_sound(w, id),
        MsgView::NextTab => switching_is_sound(w, 1),
        MsgView::PrevTab => switching_is_sound(w, -1),
        MsgView::Action(action) => lemma_execute_sound(w, action, s, running),
        MsgView::PaneExited(_, pane) => lemma_close_pane_sound(w, pane),
        MsgView::PaneCwdChanged(_, pane, path) => lemma_change_cwd_sound(w, pane, path, s),
        MsgView::PaneFocused(_, pane) => lemma_note_focus_sound(w, pane),
        MsgView::FocusPane(pane) => lemma_focus_pane_sound(w, pane),
        MsgView::Bell(id) => lemma_note_sound(w, id, true),
        MsgView::Activity(id) => lemma_note_sound(w, id, false),
        MsgView::RenameTab(id, title) => lemma_rename_sound(w, id, title, s),
        MsgView::ReorderTab(id, to) => reordered_tabs(w, id, to),
        _ => {},
    }
}

} // verus!
