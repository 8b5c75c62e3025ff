//! What holds of snapshots and of the windows that come out of them.

use super::state::{PaneView, SettingsView, World};
use super::tree::Tree;
use crate::session::Layout;
use vstd::prelude::*;

verus! {

/// The layout with every mode under its own name, and every split with its own
/// letter.
pub open spec fn normalized(l: Layout) -> Layout
    decreases l,
{
    match l {
        Layout::Leaf { mode, cwd, cmds } => Layout::Leaf {
            mode: crate::session::mode_name(crate::session::mode_of(mode)),
            cwd,
            cmds,
        },
        Layout::Split { orientation, position, start, end } => Layout::Split {
            orientation: super::restore::letter_of(super::restore::orientation_of(orientation)),
            position,
            start: Box::new(normalized(*start)),
            end: Box::new(normalized(*end)),
        },
    }
}

/// The positions of the splits are numbers of 32 bits.
pub open spec fn positions_fit(l: Layout) -> bool
    decreases l,
{
    match l {
        Layout::Leaf { .. } => true,
        Layout::Split { position, start, end, .. } => i32::MIN <= position <= i32::MAX
            && positions_fit(*start) && positions_fit(*end),
    }
}

/// The commands of a layout's panes, which are numbered from `next` on.
pub open spec fn commands(l: Layout, next: int) -> Seq<(u64, Seq<char>)>
    decreases l,
{
    match l {
        Layout::Leaf { cmds: Some(c), .. } => seq![(next as u64, c)],
        Layout::Leaf { .. } => seq![],
        Layout::Split { start, end, .. } => commands(*start, next) + commands(
            *end,
            next + super::restore::pane_count(*start),
        ),
    }
}

/// So many numbers in a row.
pub open spec fn row(n: nat, next: int) -> Seq<u64> {
    Seq::new(n, |i: int| (next + i) as u64)
}

proof fn lemma_rows(l: Layout, next: int)
    requires
        0 <= next,
        next + super::restore::pane_count(l) <= u64::MAX,
    ensures
        super::restore::pane_count(l) > 0,
        super::tree::leaves(super::restore::built_tree(l, next)) == row(
            super::restore::pane_count(l),
            next,
        ),
        super::state::pane_ids(super::restore::built_panes(l, next)) == row(
            super::restore::pane_count(l),
            next,
        ),
        super::restore::built_panes(l, next).len() == super::restore::pane_count(l),
    decreases l,
{
    match l {
        Layout::Leaf { .. } => {
            assert(super::tree::leaves(super::restore::built_tree(l, next)) =~= row(1, next));
            assert(super::state::pane_ids(super::restore::built_panes(l, next)) =~= row(1, next));
        },
        Layout::Split { start, end, .. } => {
            let a = super::restore::pane_count(*start);
            let b = super::restore::pane_count(*end);
            lemma_rows(*start, next);
            lemma_rows(*end, next + a);
            assert(row(a, next) + row(b, next + a) =~= row(a + b, next));
            let p = super::restore::built_panes(*start, next);
            let q = super::restore::built_panes(*end, next + a);
            assert(super::state::pane_ids(p + q) =~= super::state::pane_ids(p)
                + super::state::pane_ids(q));
        },
    }
}

/// The tab of a snapshot is sound.
pub proof fn restored_tabs_are_sound(
    s: super::restore::SavedView,
    id: u64,
    next: int,
    next_id: u64,
    next_pane_id: u64,
)
    requires
        id < next_id,
        0 <= next,
        next + super::restore::pane_count(s.layout) <= next_pane_id,
    ensures
        super::state::tab_is_sound(
            super::restore::built_tab(s, id, next),
            next_id,
            next_pane_id,
        ),
{
    lemma_rows(s.layout, next);
    let t = super::restore::built_tab(s, id, next);
    let n = super::restore::pane_count(s.layout);
    assert forall|i: int| 0 <= i < t.panes.len() implies (#[trigger] t.panes[i]).id
        < next_pane_id by {
        assert(super::state::pane_ids(t.panes)[i] == row(n, next)[i]);
    }
    assert(super::state::pane_ids(t.panes).no_duplicates());
}

proof fn lemma_restore_tab_sound(w: World, s: super::restore::SavedView)
    requires
        w.is_sound(),
        w.active == 0,
        w.next_id < u64::MAX,
        w.next_pane_id + super::restore::pane_count(s.layout) <= u64::MAX,
    ensures
        w.restore_tab(s).0.is_sound(),
{
    let v = w.restore_tab(s).0;
    let t = super::restore::built_tab(s, w.next_id, w.next_pane_id as int);
    let n = super::restore::pane_count(s.layout);
    restored_tabs_are_sound(s, w.next_id, w.next_pane_id as int, v.next_id, v.next_pane_id);
    lemma_rows(s.layout, w.next_pane_id as int);
    assert forall|i: int| 0 <= i < w.tabs.len() implies super::state::are_apart(
        #[trigger] w.tabs[i],
        t,
    ) by {
        assert(super::state::tab_is_sound(w.tabs[i], w.next_id, w.next_pane_id));
        assert forall|x: u64| #[trigger]
            super::state::pane_ids(w.tabs[i].panes).contains(x) implies !super::state::pane_ids(
            t.panes,
        ).contains(x) by {
            let k = choose|k: int|
                0 <= k < w.tabs[i].panes.len() && super::state::pane_ids(w.tabs[i].panes)[k] == x;
            assert(w.tabs[i].panes[k].id < w.next_pane_id);
            if super::state::pane_ids(t.panes).contains(x) {
                let m = choose|m: int| 0 <= m < n && row(n, w.next_pane_id as int)[m] == x;
                assert(x == w.next_pane_id + m);
            }
        }
    }
    super::sound::adding_keeps_apart(w.tabs, t);
    assert forall|i: int| 0 <= i < v.tabs.len() implies super::state::tab_is_sound(
        #[trigger] v.tabs[i],
        v.next_id,
        v.next_pane_id,
    ) by {
        if i < w.tabs.len() {
            assert(v.tabs[i] == w.tabs[i]);
        }
    }
}

pub(super) proof fn lemma_restore_tabs_sound(tabs: Seq<super::restore::SavedView>)
    requires
        tabs.len() <= u64::MAX,
        super::restore::total_panes(tabs) <= u64::MAX,
    ensures
        ({
            let w = super::restore::empty_world().restore_tabs(tabs).0;
            &&& w.is_sound()
            &&& w.active == 0
            &&& w.next_id == tabs.len()
            &&& w.next_pane_id == super::restore::total_panes(tabs)
            &&& w.tabs.len() == tabs.len()
        }),
    decreases tabs.len(),
{
    if tabs.len() > 0 {
        lemma_restore_tabs_sound(tabs.drop_last());
        lemma_restore_tab_sound(
            super::restore::empty_world().restore_tabs(tabs.drop_last()).0,
            tabs.last(),
        );
    }
}

/// A window that comes out of a snapshot is sound, and has the snapshot's tabs.
pub proof fn restored_windows_are_sound(active: int, tabs: Seq<super::restore::SavedView>)
    requires
        0 <= active,
        tabs.len() <= u64::MAX,
        super::restore::total_panes(tabs) <= u64::MAX,
    ensures
        super::restore::empty_world().restore(active, tabs).0.is_sound(),
        super::restore::empty_world().restore(active, tabs).0.tabs.len() == tabs.len(),
        active < tabs.len() ==> super::restore::empty_world().restore(active, tabs).0.active
            == active,
{
    lemma_restore_tabs_sound(tabs);
    let w = super::restore::empty_world().restore_tabs(tabs).0;
    if w.tabs.len() > 0 {
        let i = if active >= w.tabs.len() {
            w.tabs.len() - 1
        } else {
            active
        };
        super::sound::tabs_are_found(w.tabs, i);
        super::sound::selecting_is_sound(w, w.tabs[i].id);
    }
}

/// A fresh window is sound, and has one tab.
pub proof fn fresh_windows_are_sound(s: SettingsView)
    ensures
        super::restore::empty_world().add_tab(s).0.is_sound(),
        super::restore::empty_world().add_tab(s).0.tabs.len() == 1,
{
    let w = super::restore::empty_world();
    super::sound::adding_is_sound(w, s);
}

proof fn lemma_command_skips(
    pane: u64,
    a: Seq<(u64, Seq<char>)>,
    b: Seq<(u64, Seq<char>)>,
)
    requires
        forall|i: int| 0 <= i < a.len() ==> (#[trigger] a[i]).0 != pane,
    ensures
        super::steps::command_of(pane, a + b) == super::steps::command_of(pane, b),
    decreases a.len(),
{
    if a.len() == 0 {
        assert(a + b =~= b);
    } else {
        assert((a + b)[0] == a[0]);
        assert((a + b).skip(1) =~= a.skip(1) + b);
        assert forall|i: int| 0 <= i < a.skip(1).len() implies (#[trigger] a.skip(1)[i]).0
            != pane by {
            assert(a.skip(1)[i] == a[i + 1]);
        }
        lemma_command_skips(pane, a.skip(1), b);
    }
}

proof fn lemma_commands_in_row(l: Layout, next: int)
    requires
        0 <= next,
        next + super::restore::pane_count(l) <= u64::MAX,
    ensures
        super::restore::pane_count(l) > 0,
        forall|i: int|
            0 <= i < commands(l, next).len() ==> next <= (#[trigger] commands(l, next)[i]).0 < next
                + super::restore::pane_count(l),
    decreases l,
{
    if let Layout::Split { start, end, .. } = l {
        let a = super::restore::pane_count(*start);
        lemma_commands_in_row(*start, next);
        lemma_commands_in_row(*end, next + a);
        let c = commands(*start, next);
        assert forall|i: int| 0 <= i < commands(l, next).len() implies next <= (
        #[trigger] commands(l, next)[i]).0 < next + super::restore::pane_count(l) by {
            if i < c.len() {
                assert(commands(l, next)[i] == c[i]);
            } else {
                assert(commands(l, next)[i] == commands(*end, next + a)[i - c.len()]);
            }
        }
    }
}

/// The layout of part of a tab: what comes before and behind it does not matter.
proof fn lemma_layout_back(
    l: Layout,
    next: int,
    panes: Seq<PaneView>,
    first: int,
    before: Seq<(u64, Seq<char>)>,
    behind: Seq<(u64, Seq<char>)>,
)
    requires
        0 <= first <= next,
        next + super::restore::pane_count(l) <= u64::MAX,
        positions_fit(l),
        next + super::restore::pane_count(l) <= first + panes.len(),
        forall|i: int| 0 <= i < panes.len() ==> (#[trigger] panes[i]).id == first + i,
        forall|i: int|
            0 <= i < super::restore::pane_count(l) ==> #[trigger] panes[next - first + i]
                == super::restore::built_panes(l, next)[i],
        forall|i: int| 0 <= i < before.len() ==> (#[trigger] before[i]).0 < next,
        forall|i: int|
            0 <= i < behind.len() ==> (#[trigger] behind[i]).0 >= next + super::restore::pane_count(
                l,
            ),
    ensures
        super::restore::layout_of(
            super::restore::built_tree(l, next),
            panes,
            before + commands(l, next) + behind,
        ) == normalized(l),
    decreases l,
{
    let running = before + commands(l, next) + behind;
    match l {
        Layout::Leaf { mode, cwd, cmds } => {
            let id = next as u64;
            let k = next - first;
            assert(panes[k + 0] == super::restore::built_panes(l, next)[0]);
            assert(panes[k].id == id);
            super::state::lemma_pane_at(panes, id, k);
            lemma_command_skips(id, before, commands(l, next) + behind);
            assert(running =~= before + (commands(l, next) + behind));
            match cmds {
                Some(c) => {
                    assert((commands(l, next) + behind)[0] == (id, c));
                },
                None => {
                    assert(commands(l, next) + behind =~= behind + seq![]);
                    lemma_command_skips(id, behind, seq![]);
                },
            }
        },
        Layout::Split { orientation, position, start, end } => {
            let a = super::restore::pane_count(*start);
            let b = super::restore::pane_count(*end);
            let c = commands(*start, next);
            let d = commands(*end, next + a);
            lemma_commands_in_row(*start, next);
            lemma_commands_in_row(*end, next + a);
            lemma_rows(*start, next);
            lemma_rows(*end, next + a);
            assert(running =~= before + c + (d + behind));
            assert(running =~= (before + c) + d + behind);
            let whole = super::restore::built_panes(l, next);
            assert forall|i: int| 0 <= i < a implies #[trigger] panes[next - first + i]
                == super::restore::built_panes(*start, next)[i] by {
                assert(whole[i] == super::restore::built_panes(*start, next)[i]);
            }
            assert forall|i: int| 0 <= i < b implies #[trigger] panes[next + a - first + i]
                == super::restore::built_panes(*end, next + a)[i] by {
                assert(panes[next - first + (a + i)] == whole[a + i]);
                assert(whole[a + i] == super::restore::built_panes(*end, next + a)[i]);
            }
            assert forall|i: int| 0 <= i < (d + behind).len() implies (#[trigger] (d
                + behind)[i]).0 >= next + a by {
                if i < d.len() {
                    assert((d + behind)[i] == d[i]);
                } else {
                    assert((d + behind)[i] == behind[i - d.len()]);
                }
            }
            assert forall|i: int| 0 <= i < (before + c).len() implies (#[trigger] (before
                + c)[i]).0 < next + a by {
                if i < before.len() {
                    assert((before + c)[i] == before[i]);
                } else {
                    assert((before + c)[i] == c[i - before.len()]);
                }
            }
            lemma_layout_back(*start, next, panes, first, before, d + behind);
            lemma_layout_back(*end, next + a, panes, first, before + c, behind);
        },
    }
}

/// A snapshot of a tab that came out of a snapshot, with the same commands
/// running, is that snapshot: its title, the shape and the positions of its
/// splits, and each pane's mode, directory and command.
pub proof fn snapshots_come_back(s: super::restore::SavedView, id: u64, next: int)
    requires
        0 <= next,
        next + super::restore::pane_count(s.layout) <= u64::MAX,
        positions_fit(s.layout),
    ensures
        ({
            let t = super::restore::built_tab(s, id, next);
            &&& t.title == s.title
            &&& t.custom_title == s.custom_title
            &&& super::restore::layout_of(t.tree, t.panes, commands(s.layout, next))
                == normalized(s.layout)
        }),
{
    let t = super::restore::built_tab(s, id, next);
    let c = commands(s.layout, next);
    lemma_rows(s.layout, next);
    let n = super::restore::pane_count(s.layout);
    assert forall|i: int| 0 <= i < t.panes.len() implies (#[trigger] t.panes[i]).id == next + i by {
        assert(super::state::pane_ids(t.panes)[i] == row(n, next)[i]);
    }
    assert(seq![] + c + seq![] =~= c);
    lemma_layout_back(s.layout, next, t.panes, next, seq![], seq![]);
}

/// Every split of the layout is marked `h` or `v`.
pub open spec fn splits_are_lettered(l: Layout) -> bool
    decreases l,
{
    match l {
        Layout::Leaf { .. } => true,
        Layout::Split { orientation, start, end, .. } => {
            &&& orientation == 'h' || orientation == 'v'
            &&& splits_are_lettered(*start)
            &&& splits_are_lettered(*end)
        },
    }
}

/// The layouts that snapshots hold name every mode by its own name, and mark
/// every split `h` or `v`.
pub proof fn snapshots_are_normal(tree: Tree, panes: Seq<PaneView>, running: Seq<(u64, Seq<char>)>)
    ensures
        normalized(super::restore::layout_of(tree, panes, running)) == super::restore::layout_of(
            tree,
            panes,
            running,
        ),
        positions_fit(super::restore::layout_of(tree, panes, running)),
        splits_are_lettered(super::restore::layout_of(tree, panes, running)),
    decreases tree,
{
    match tree {
        Tree::Leaf(p) => {
            if let Some(i) = super::state::pane_at(panes, p) {
                crate::session::modes_read_back(panes[i].mode);
            }
            crate::session::modes_read_back(crate::session::TerminalMode::Block);
        },
        Tree::Split { start, end, .. } => {
            snapshots_are_normal(*start, panes, running);
            snapshots_are_normal(*end, panes, running);
        },
    }
}

} // verus!
