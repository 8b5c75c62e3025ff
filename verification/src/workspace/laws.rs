//! What holds across the steps of a window.

use super::state::{Deed, InputView, PaneView, TabView, World};
use super::tree::Orientation;
use vstd::prelude::*;

verus! {

/// Moving a tab about keeps the active tab the active one.
pub proof fn reordering_keeps_the_active_tab(w: World, id: u64, to: int)
    requires
        w.is_sound(),
        w.tabs.len() > 0,
        0 <= to,
    ensures
        ({
            let v = w.reorder_tab(id, to).0;
            v.has_active() && v.tabs[v.active] == w.tabs[w.active]
        }),
{
    super::sound::reordered_tabs(w, id, to);
}

/// A duplicated tab stands last and is the active one. It has one pane with the
/// mode and the directory of the active pane, and the title of its tab; the
/// other tabs stay.
pub proof fn duplicates_inherit(w: World, s: super::state::SettingsView)
    requires
        w.is_sound(),
        w.has_active(),
        w.next_id < u64::MAX,
        w.next_pane_id < u64::MAX,
    ensures
        ({
            let t = w.tabs[w.active];
            let v = w.duplicate(s).0;
            let n = w.tabs.len() as int;
            &&& v.tabs.len() == n + 1
            &&& v.active == n
            &&& v.tabs.take(n) == w.tabs
            &&& v.tabs[n].panes.len() == 1
            &&& v.tabs[n].panes[0].mode == t.panes[t.active_pane].mode
            &&& v.tabs[n].panes[0].cwd == t.panes[t.active_pane].cwd
            &&& v.tabs[n].title == t.title
            &&& v.tabs[n].custom_title == t.custom_title
        }),
{
    let t = w.tabs[w.active];
    let n = w.tabs.len() as int;
    assert(super::state::tab_is_sound(t, w.next_id, w.next_pane_id));
    let here = t.panes[t.active_pane];
    let pane = PaneView { id: w.next_pane_id, cwd: here.cwd, mode: here.mode };
    let tabs = w.tabs.push(super::steps::single(w.next_id, pane, t.title, t.custom_title));
    assert forall|i: int| 0 <= i < n implies (#[trigger] tabs[i]).id != w.next_id by {
        assert(super::state::tab_is_sound(w.tabs[i], w.next_id, w.next_pane_id));
    }
    super::state::lemma_tab_at(tabs, w.next_id, n);
    assert(w.duplicate(s).0.tabs.take(n) =~= w.tabs);
}

/// The next tab's previous one is the tab itself.
pub proof fn switching_back_returns(w: World)
    requires
        w.is_sound(),
        w.tabs.len() > 0,
    ensures
        w.switch_tab(1).0.switch_tab(-1).0.active == w.active,
        w.switch_tab(-1).0.switch_tab(1).0.active == w.active,
{
    let n = w.tabs.len() as int;
    let a = w.active;
    lemma_switched(w, 1);
    lemma_switched(w, -1);
    let f = w.switch_tab(1).0;
    let b = w.switch_tab(-1).0;
    super::sound::switching_is_sound(w, 1);
    super::sound::switching_is_sound(w, -1);
    lemma_switched(f, -1);
    lemma_switched(b, 1);
    lemma_there_and_back(a, n, 1);
    lemma_there_and_back(a, n, -1);
}

proof fn lemma_there_and_back(a: int, n: int, d: int)
    requires
        0 <= a < n,
        d == 1 || d == -1,
    ensures
        ((a + d) % n - d) % n == a,
{
    let m = (a + d) % n;
    assert(m == (if a + d == n {
        0
    } else if a + d < 0 {
        n - 1
    } else {
        a + d
    })) by (nonlinear_arith)
        requires
            0 <= a < n,
            d == 1 || d == -1,
            m == (a + d) % n,
    ;
    assert((m - d) % n == a) by (nonlinear_arith)
        requires
            0 <= a < n,
            d == 1 || d == -1,
            m == (if a + d == n {
                0
            } else if a + d < 0 {
                n - 1
            } else {
                a + d
            }),
    ;
}

proof fn lemma_switched(w: World, delta: int)
    requires
        w.is_sound(),
        w.tabs.len() > 0,
    ensures
        w.switch_tab(delta).0.active == (w.active + delta) % (w.tabs.len() as int),
        w.switch_tab(delta).0.tabs.len() == w.tabs.len(),
{
    let n = w.tabs.len() as int;
    let i = (w.active + delta) % n;
    assert(0 <= i < n) by (nonlinear_arith)
        requires
            n > 0,
            i == (w.active + delta) % n,
    ;
    super::sound::tabs_are_found(w.tabs, i);
}

/// A tab that was moved one place can be moved back.
pub proof fn moving_back_returns(w: World)
    requires
        w.has_active(),
        w.active + 1 < w.tabs.len(),
    ensures
        w.move_tab(1).0.move_tab(-1).0 == w,
{
    let v = w.move_tab(1).0;
    assert(v.move_tab(-1).0.tabs =~= w.tabs);
}

/// Zooming in and out again changes nothing.
pub proof fn zooming_out_undoes_zooming_in(w: World, i: int)
    requires
        0 <= i < w.tabs.len(),
        w.tabs[i].zoom is None,
        w.tabs[i].panes.len() > 1,
    ensures
        w.toggle_zoom(i).0.toggle_zoom(i).0 == w,
{
    assert(w.toggle_zoom(i).0.toggle_zoom(i).0.tabs =~= w.tabs);
}

/// Closing the pane that a split has just added gives the tab its panes and
/// their places back.
pub proof fn closing_undoes_splitting(w: World, orientation: Orientation)
    requires
        w.is_sound(),
        w.has_active(),
        w.tabs[w.active].zoom is None,
        w.next_pane_id < u64::MAX,
    ensures
        ({
            let v = w.split_active(orientation).0.close_pane(w.next_pane_id).0;
            &&& v.tabs.len() == w.tabs.len()
            &&& v.tabs[w.active].panes == w.tabs[w.active].panes
            &&& v.tabs[w.active].tree == w.tabs[w.active].tree
            &&& forall|i: int|
                0 <= i < w.tabs.len() && i != w.active ==> v.tabs[i] == #[trigger] w.tabs[i]
        }),
{
    let s = w.split_active(orientation).0;
    let t = w.tabs[w.active];
    let here = t.panes[t.active_pane];
    let pane = w.next_pane_id;
    let n = t.panes.len() as int;
    assert(super::state::tab_is_sound(t, w.next_id, w.next_pane_id));
    super::sound::leaves_are_the_panes(t, w.next_id, w.next_pane_id);
    assert(super::state::pane_ids(t.panes)[t.active_pane] == here.id);
    super::sound::number_is_fresh(w, w.active);
    super::tree::removing_undoes_splitting(t.tree, here.id, pane, orientation);
    assert forall|i: int| 0 <= i < w.tabs.len() implies super::state::pane_at(
        (#[trigger] w.tabs[i]).panes,
        pane,
    ) is None by {
        super::sound::number_is_fresh(w, i);
        super::state::pane_at_is_first(w.tabs[i].panes, pane);
        if let Some(k) = super::state::pane_at(w.tabs[i].panes, pane) {
            assert(super::state::pane_ids(w.tabs[i].panes)[k] == pane);
        }
    }
    let panes = s.tabs[w.active].panes;
    assert(panes[n].id == pane);
    super::state::pane_at_is_first(t.panes, pane);
    assert forall|j: int| 0 <= j < n implies (#[trigger] panes[j]).id != pane by {
        assert(panes[j] == t.panes[j]);
    }
    super::state::lemma_pane_at(panes, pane, n);
    assert forall|j: int| 0 <= j < w.active implies super::state::pane_at(
        (#[trigger] s.tabs[j]).panes,
        pane,
    ) is None by {
        assert(s.tabs[j] == w.tabs[j]);
    }
    super::state::lemma_pane_place(s.tabs, pane, w.active);
    assert(s.tabs.skip(w.active)[0] == s.tabs[w.active]);
    assert(super::state::pane_place(s.tabs, pane) == Some((w.active, n)));
    assert(panes.remove(n) =~= t.panes);
}

/// A tab goes with its last pane, and the window with its last tab.
pub proof fn the_last_pane_closes_its_tab(w: World, pane: u64, i: int)
    requires
        w.is_sound(),
        0 <= i < w.tabs.len(),
        super::state::pane_place(w.tabs, pane) == Some((i, 0int)),
        w.tabs[i].panes.len() == 1,
    ensures
        ({
            &&& w.close_pane(pane).0 == w.close_tab(w.tabs[i].id).0
            &&& w.close_pane(pane).0.tabs.len() == w.tabs.len() - 1
            &&& w.tabs.len() == 1 ==> w.close_pane(pane).1.last() == Deed::Quit
        }),
{
    super::state::pane_place_is_first(w.tabs, pane);
    assert(super::state::tab_is_sound(w.tabs[i], w.next_id, w.next_pane_id));
    super::sound::tabs_are_found(w.tabs, i);
    let id = w.tabs[i].id;
    let c = w.close_tab(id);
    assert(w.tabs[i].zoom is None);
    assert(Seq::<Deed>::empty() + c.1 =~= c.1);
    assert(w.close_pane(pane) == c);
    let v = World { tabs: w.tabs.remove(i), ..w };
    if v.tabs.len() > 0 {
        let j = if i >= v.tabs.len() {
            v.tabs.len() - 1
        } else {
            i
        };
        super::state::tab_at_is_first(v.tabs, v.tabs[j].id);
        assert(v.select(v.tabs[j].id).0.tabs.len() == v.tabs.len());
    } else {
        assert(c.1 == seq![Deed::DropTab(id), Deed::Quit]);
    }
}

/// What runs a command is not closed without asking.
pub proof fn running_commands_are_asked_for(
    w: World,
    id: u64,
    running: Seq<(u64, Seq<char>)>,
    i: int,
    p: int,
)
    requires
        super::state::tab_at(w.tabs, id) == Some(i),
        0 <= i < w.tabs.len(),
        0 <= p < w.tabs[i].panes.len(),
        super::steps::command_of(w.tabs[i].panes[p].id, running) is Some,
    ensures
        w.request_close_tab(id, running).0 == w,
        w.request_close_tab(id, running).1.len() == 1,
        w.request_close_tab(id, running).1[0] is ConfirmCloseTab,
{
    lemma_command_in(w.tabs[i].panes, running, p);
}

proof fn lemma_command_in(panes: Seq<PaneView>, running: Seq<(u64, Seq<char>)>, p: int)
    requires
        0 <= p < panes.len(),
        super::steps::command_of(panes[p].id, running) is Some,
    ensures
        super::steps::command_in(panes, running) is Some,
    decreases panes.len(),
{
    if p > 0 && super::steps::command_of(panes[0].id, running) is None {
        assert(panes.skip(1)[p - 1] == panes[p]);
        lemma_command_in(panes.skip(1), running, p - 1);
    }
}

/// The tab in view shows neither a bell nor activity, whatever happens in it.
pub proof fn the_tab_in_view_is_not_marked(w: World, id: u64)
    requires
        super::state::tab_at(w.tabs, id) is Some,
    ensures
        ({
            let v = w.select(id).0;
            &&& v.has_active()
            &&& v.tabs[v.active].id == id
            &&& !v.tabs[v.active].bell
            &&& !v.tabs[v.active].activity
            &&& v.note(id, true).0 == v
            &&& v.note(id, false).0 == v
        }),
{
    super::state::tab_at_is_first(w.tabs, id);
    let i = super::state::tab_at(w.tabs, id)->0;
    let v = w.select(id).0;
    assert forall|j: int| 0 <= j < i implies (#[trigger] v.tabs[j]).id != id by {
        assert(v.tabs[j] == w.tabs[j]);
    }
    super::state::lemma_tab_at(v.tabs, id, i);
}

proof fn lemma_told_pane(panes: Seq<PaneView>, inputs: Seq<InputView>, p: int, k: int)
    requires
        0 <= p < panes.len(),
        0 <= k < inputs.len(),
    ensures
        super::steps::to_panes(panes, inputs).contains(Deed::Send(panes[p].id, inputs[k])),
    decreases panes.len(),
{
    let before = super::steps::to_panes(panes.drop_last(), inputs);
    let here = super::steps::to_pane(panes.last().id, inputs);
    let all = before + here;
    let d = Deed::Send(panes[p].id, inputs[k]);
    if p == panes.len() - 1 {
        assert(here[k] == d);
        assert(all[before.len() + k] == d);
    } else {
        lemma_told_pane(panes.drop_last(), inputs, p, k);
        let j = choose|j: int| 0 <= j < before.len() && before[j] == d;
        assert(all[j] == d);
    }
}

/// What is told to all panes reaches every pane of every tab.
pub proof fn every_pane_is_told(tabs: Seq<TabView>, inputs: Seq<InputView>, i: int, p: int, k: int)
    requires
        0 <= i < tabs.len(),
        0 <= p < tabs[i].panes.len(),
        0 <= k < inputs.len(),
    ensures
        super::steps::to_tabs(tabs, inputs).contains(Deed::Send(tabs[i].panes[p].id, inputs[k])),
    decreases tabs.len(),
{
    let before = super::steps::to_tabs(tabs.drop_last(), inputs);
    let here = super::steps::to_panes(tabs.last().panes, inputs);
    let all = before + here;
    let d = Deed::Send(tabs[i].panes[p].id, inputs[k]);
    if i == tabs.len() - 1 {
        lemma_told_pane(tabs.last().panes, inputs, p, k);
        let j = choose|j: int| 0 <= j < here.len() && here[j] == d;
        assert(all[before.len() + j] == d);
    } else {
        every_pane_is_told(tabs.drop_last(), inputs, i, p, k);
        let j = choose|j: int| 0 <= j < before.len() && before[j] == d;
        assert(all[j] == d);
    }
}

} // verus!
