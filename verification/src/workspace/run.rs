//! Taking the steps of a window.

use super::state::{Direction, Effect, Input, Msg, Pane, Settings, Tab, Workspace};
use super::tree::{Orientation, Tree};
use crate::action::Action;
use crate::file_tree::shell_quote;
use crate::session::TerminalMode;
use crate::terminal::launch::default_tab_title;
use crate::terminal::vte::VteOutput;
use crate::text::{chars_of, text_of, trim};
use vstd::prelude::*;
use vstd::slice::slice_subrange;

verus! {

pub(crate) fn put(out: &mut Vec<Effect>, e: Effect)
    ensures
        super::state::deeds(final(out)@) == super::state::deeds(old(out)@).push(e@),
{
    let ghost before = out@;
    out.push(e);
    assert(super::state::deeds(out@) =~= super::state::deeds(before).push(e@));
}

pub(crate) fn copied(s: &Option<String>) -> (res: Option<String>)
    ensures
        crate::text::optional_string(res) == crate::text::optional_string(*s),
{
    match s {
        Some(s) => Some(s.as_str().to_string()),
        None => None,
    }
}

fn borrowed(s: &Option<String>) -> (res: Option<&str>)
    ensures
        crate::text::optional_text(res) == crate::text::optional_string(*s),
{
    match s {
        Some(s) => Some(s.as_str()),
        None => None,
    }
}

/// What is looked for: a regular expression where the text stands between two
/// slashes, else the text itself.
pub fn search_query(text: &str) -> (res: (String, bool))
    ensures
        (res.0@, res.1) == super::steps::search_query(text@),
{
    let chars = chars_of(text);
    let n: usize = chars.len();
    if n > 2 && chars[0] == '/' && chars[n - 1] == '/' {
        (text_of(slice_subrange(chars.as_slice(), 1, n - 1)), true)
    } else {
        (text.to_string(), false)
    }
}

pub(crate) fn command_of<'a>(pane: u64, running: &'a [(u64, String)]) -> (res: Option<&'a str>)
    ensures
        crate::text::optional_text(res) == super::steps::command_of(
            pane,
            super::state::running_views(running@),
        ),
{
    let mut i: usize = 0;
    let ghost all = super::state::running_views(running@);
    assert(all.skip(0) =~= all);
    while i < running.len()
        invariant
            i <= running.len(),
            all == super::state::running_views(running@),
            super::steps::command_of(pane, all.skip(i as int)) == super::steps::command_of(
                pane,
                all,
            ),
        decreases running.len() - i,
    {
        assert(all.skip(i as int)[0] == all[i as int]);
        assert(all.skip(i as int).skip(1) =~= all.skip(i + 1));
        if running[i].0 == pane {
            return Some(running[i].1.as_str());
        }
        i += 1;
    }
    assert(all.skip(i as int) =~= seq![]);
    None
}

fn command_in<'a>(panes: &Vec<Pane>, running: &'a [(u64, String)]) -> (res: Option<&'a str>)
    ensures
        crate::text::optional_text(res) == super::steps::command_in(
            super::state::pane_views(panes@),
            super::state::running_views(running@),
        ),
{
    let mut i: usize = 0;
    let ghost all = super::state::pane_views(panes@);
    let ghost r = super::state::running_views(running@);
    assert(all.skip(0) =~= all);
    while i < panes.len()
        invariant
            i <= panes.len(),
            all == super::state::pane_views(panes@),
            r == super::state::running_views(running@),
            super::steps::command_in(all.skip(i as int), r) == super::steps::command_in(all, r),
        decreases panes.len() - i,
    {
        assert(all.skip(i as int)[0] == panes@[i as int]@);
        assert(all.skip(i as int).skip(1) =~= all.skip(i + 1));
        let found = command_of(panes[i].id, running);
        if found.is_some() {
            return found;
        }
        i += 1;
    }
    assert(all.skip(i as int) =~= seq![]);
    None
}

/// What a report of a pane's terminal says to the window.
pub open spec fn report(out: VteOutput, tab: u64, pane: u64) -> super::state::MsgView {
    match out {
        VteOutput::Exited(_) => super::state::MsgView::PaneExited(tab, pane),
        VteOutput::CwdChanged(p) => super::state::MsgView::PaneCwdChanged(tab, pane, p@),
        VteOutput::TitleChanged(t) => super::state::MsgView::TitleChanged(tab, t@),
        VteOutput::Bell => super::state::MsgView::Bell(tab),
        VteOutput::Activity => super::state::MsgView::Activity(tab),
        VteOutput::Focused => super::state::MsgView::PaneFocused(tab, pane),
        VteOutput::CommandFinished(_) => super::state::MsgView::Ignore,
    }
}

/// Hands a report of a pane's terminal on to the window.
pub fn forward(out: VteOutput, tab: u64, pane: u64) -> (res: Msg)
    ensures
        res@ == report(out, tab, pane),
{
    match out {
        VteOutput::Exited(_) => Msg::PaneExited(tab, pane),
        VteOutput::CwdChanged(p) => Msg::PaneCwdChanged(tab, pane, p),
        VteOutput::TitleChanged(t) => Msg::TitleChanged(tab, t),
        VteOutput::Bell => Msg::Bell(tab),
        VteOutput::Activity => Msg::Activity(tab),
        VteOutput::Focused => Msg::PaneFocused(tab, pane),
        VteOutput::CommandFinished(_) => Msg::Ignore,
    }
}

fn marked_ids(tabs: &Vec<Tab>) -> (res: Vec<u64>)
    ensures
        res@ == super::steps::marked_ids(super::state::tab_views(tabs@)),
{
    let mut out: Vec<u64> = Vec::new();
    let mut i: usize = 0;
    let ghost all = super::state::tab_views(tabs@);
    while i < tabs.len()
        invariant
            i <= tabs.len(),
            all == super::state::tab_views(tabs@),
            out@ == super::steps::marked_ids(all.take(i as int)),
        decreases tabs.len() - i,
    {
        proof {
            assert(all.take(i + 1).drop_last() =~= all.take(i as int));
            assert(all.take(i + 1).last() == tabs@[i as int]@);
        }
        if tabs[i].marked {
            out.push(tabs[i].id);
        }
        i += 1;
    }
    assert(all.take(i as int) =~= all);
    out
}

/// What inputs hold, one by one.
pub open spec fn input_views(inputs: Seq<Input>) -> Seq<super::state::InputView> {
    inputs.map_values(|i: Input| i@)
}

fn copied_input(input: &Input) -> (res: Input)
    ensures
        res@ == input@,
{
    match input {
        Input::GrabFocus => Input::GrabFocus,
        Input::Copy => Input::Copy,
        Input::Paste => Input::Paste,
        Input::ScrollLines(n) => Input::ScrollLines(*n),
        Input::FilterFailedBlocks => Input::FilterFailedBlocks,
        Input::FilterSlowBlocks => Input::FilterSlowBlocks,
        Input::ClearBlockFilter => Input::ClearBlockFilter,
        Input::SearchSet(text, regex) => Input::SearchSet(text.as_str().to_string(), *regex),
        Input::SearchNext => Input::SearchNext,
        Input::SearchPrev => Input::SearchPrev,
        Input::SearchClear => Input::SearchClear,
        Input::WriteInput(text) => Input::WriteInput(text.as_str().to_string()),
        Input::RefreshFontScale => Input::RefreshFontScale,
        Input::SetFont(desc) => Input::SetFont(desc.as_str().to_string()),
        Input::SetScrollback(n) => Input::SetScrollback(*n),
        Input::ApplyTheme => Input::ApplyTheme,
    }
}

fn tell_pane(pane: u64, inputs: &Vec<Input>, out: &mut Vec<Effect>)
    ensures
        super::state::deeds(final(out)@) == super::state::deeds(old(out)@)
            + super::steps::to_pane(pane, input_views(inputs@)),
{
    let ghost before = super::state::deeds(out@);
    let ghost all = super::steps::to_pane(pane, input_views(inputs@));
    let mut i: usize = 0;
    assert(before + all.take(0) =~= before);
    while i < inputs.len()
        invariant
            i <= inputs.len(),
            all == super::steps::to_pane(pane, input_views(inputs@)),
            super::state::deeds(out@) == before + all.take(i as int),
        decreases inputs.len() - i,
    {
        let told = copied_input(&inputs[i]);
        assert(told@ == input_views(inputs@)[i as int]);
        put(out, Effect::Send(pane, told));
        assert(super::state::deeds(out@) =~= before + all.take(i + 1));
        i += 1;
    }
    assert(all.take(i as int) =~= all);
}

fn tell_panes(panes: &Vec<Pane>, inputs: &Vec<Input>, out: &mut Vec<Effect>)
    ensures
        super::state::deeds(final(out)@) == super::state::deeds(old(out)@)
            + super::steps::to_panes(super::state::pane_views(panes@), input_views(inputs@)),
{
    let ghost before = super::state::deeds(out@);
    let ghost all = super::state::pane_views(panes@);
    let ghost said = input_views(inputs@);
    let mut i: usize = 0;
    proof {
        assert(all.take(0) =~= seq![]);
        assert(before + super::steps::to_panes(all.take(0), said) =~= before);
    }
    while i < panes.len()
        invariant
            i <= panes.len(),
            all == super::state::pane_views(panes@),
            said == input_views(inputs@),
            super::state::deeds(out@) == before + super::steps::to_panes(
                all.take(i as int),
                said,
            ),
        decreases panes.len() - i,
    {
        tell_pane(panes[i].id, inputs, out);
        proof {
            assert(all.take(i + 1).drop_last() =~= all.take(i as int));
            assert(all.take(i + 1).last() == panes@[i as int]@);
            assert(super::state::deeds(out@) =~= before + super::steps::to_panes(
                all.take(i + 1),
                said,
            ));
        }
        i += 1;
    }
    assert(all.take(i as int) =~= all);
}

/// The position next to another in a ring of so many.
fn neighbour(i: usize, n: usize, forward: bool) -> (res: usize)
    requires
        i < n,
    ensures
        res < n,
        res == super::steps::wrapped(
            i + (if forward {
                1int
            } else {
                -1
            }),
            n as int,
        ),
{
    let res: usize = if forward {
        if i == n - 1 {
            0
        } else {
            i + 1
        }
    } else if i == 0 {
        n - 1
    } else {
        i - 1
    };
    proof {
        let m = n as int;
        if forward && i == n - 1 {
            assert(m % m == 0) by (nonlinear_arith)
                requires
                    m > 0,
            ;
        } else if !forward && i == 0 {
            assert((-1int) % m == m - 1) by (nonlinear_arith)
                requires
                    m > 0,
            ;
        } else {
            let k = res as int;
            assert(k % m == k) by (nonlinear_arith)
                requires
                    0 <= k < m,
            ;
        }
    }
    res
}

/// The tree without a pane, unless the pane is all there is.
fn take_from(tree: Tree, pane: u64) -> (res: Tree)
    ensures
        res == super::steps::tree_without(tree, pane),
{
    match tree.remove(pane) {
        Some(t) => t,
        None => Tree::Leaf(pane),
    }
}

impl Tab {
    /// The number of the active pane.
    fn active_id(&self) -> (res: Option<u64>)
        ensures
            match super::steps::pane_in_focus(self@) {
                Some(p) => res == Some(p.id),
                None => res is None,
            },
    {
        if self.active_pane < self.panes.len() {
            assert(self@.panes[self.active_pane as int] == self.panes@[self.active_pane as int]@);
            Some(self.panes[self.active_pane].id)
        } else {
            None
        }
    }

    /// The mode of the active pane.
    fn active_mode(&self) -> (res: Option<TerminalMode>)
        ensures
            match super::steps::pane_in_focus(self@) {
                Some(p) => res == Some(p.mode),
                None => res is None,
            },
    {
        if self.active_pane < self.panes.len() {
            assert(self@.panes[self.active_pane as int] == self.panes@[self.active_pane as int]@);
            Some(self.panes[self.active_pane].mode)
        } else {
            None
        }
    }

    /// The directory of the active pane.
    fn active_cwd(&self) -> (res: Option<&str>)
        ensures
            crate::text::optional_text(res) == match super::steps::pane_in_focus(self@) {
                Some(p) => p.cwd,
                None => None,
            },
    {
        if self.active_pane < self.panes.len() {
            assert(self@.panes[self.active_pane as int] == self.panes@[self.active_pane as int]@);
            borrowed(&self.panes[self.active_pane].cwd)
        } else {
            None
        }
    }

    fn focus(&self, out: &mut Vec<Effect>)
        ensures
            super::state::deeds(final(out)@) == super::state::deeds(old(out)@)
                + super::steps::focus(self@),
    {
        let ghost before = super::state::deeds(out@);
        if let Some(id) = self.active_id() {
            put(out, Effect::Send(id, Input::GrabFocus));
        }
        assert(super::state::deeds(out@) =~= before + super::steps::focus(self@));
    }
}

impl Workspace {
    /// The number of the pane that is in use.
    pub fn active_terminal(&self) -> (res: Option<u64>)
        ensures
            match self@.active_pane() {
                Some(p) => res == Some(p.id),
                None => res is None,
            },
    {
        if self.active < self.tabs.len() {
            assert(self@.tabs[self.active as int] == self.tabs@[self.active as int]@);
            self.tabs[self.active].active_id()
        } else {
            None
        }
    }

    fn tell(&self, input: Input, out: &mut Vec<Effect>)
        ensures
            super::state::deeds(final(out)@) == super::state::deeds(old(out)@) + self@.tell(
                input@,
            ).1,
    {
        let ghost before = super::state::deeds(out@);
        if let Some(id) = self.active_terminal() {
            put(out, Effect::Send(id, input));
        }
        assert(super::state::deeds(out@) =~= before + self@.tell(input@).1);
    }

    /// Selects a tab: it is shown, and its marks go.
    pub fn select_tab(&mut self, id: u64, out: &mut Vec<Effect>)
        ensures
            (final(self)@, super::state::deeds(final(out)@)) == super::steps::after(
                super::state::deeds(old(out)@),
                old(self)@.select(id),
            ),
    {
        let ghost start = self@;
        let ghost before = super::state::deeds(out@);
        match self.index_of(id) {
            Some(i) => {
                self.active = i;
                self.tabs[i].bell = false;
                self.tabs[i].activity = false;
                proof {
                    assert(start.tabs[i as int] == old(self).tabs@[i as int]@);
                    assert(self@.tabs =~= start.select(id).0.tabs);
                }
                put(out, Effect::ShowTab(id));
                self.tabs[i].focus(out);
                put(out, Effect::FollowCwd);
                put(out, Effect::RebuildStrip);
                assert(super::state::deeds(out@) =~= before + start.select(id).1);
            },
            None => {
                assert(before + start.select(id).1 =~= before);
            },
        }
    }

    fn open(
        &mut self,
        mode: TerminalMode,
        commands: Option<String>,
        cwd: Option<String>,
        host: Option<usize>,
        title: String,
        custom_title: bool,
        out: &mut Vec<Effect>,
    )
        requires
            old(self).next_id < u64::MAX,
            old(self).next_pane_id < u64::MAX,
        ensures
            (final(self)@, super::state::deeds(final(out)@)) == super::steps::after(
                super::state::deeds(old(out)@),
                old(self)@.open(
                    mode,
                    crate::text::optional_string(commands),
                    crate::text::optional_string(cwd),
                    match host {
                        Some(n) => Some(n as int),
                        None => None,
                    },
                    title@,
                    custom_title,
                ),
            ),
    {
        let ghost start = self@;
        let ghost before = super::state::deeds(out@);
        let ghost c = crate::text::optional_string(commands);
        let ghost d = crate::text::optional_string(cwd);
        let ghost h = match host {
            Some(n) => Some(n as int),
            None => None,
        };
        let ghost name = title@;
        let tab = self.next_id;
        let pane = self.next_pane_id;
        self.next_id = tab + 1;
        self.next_pane_id = pane + 1;
        let mut panes: Vec<Pane> = Vec::new();
        panes.push(Pane { id: pane, cwd: copied(&cwd), mode });
        let t = Tab {
            id: tab,
            panes,
            active_pane: 0,
            title,
            custom_title,
            bell: false,
            activity: false,
            marked: false,
            tree: Tree::Leaf(pane),
            zoom: None,
        };
        let ghost fresh = super::steps::single(
            tab,
            super::state::PaneView { id: pane, cwd: d, mode },
            name,
            custom_title,
        );
        assert(t@ == fresh) by {
            assert(t@.panes =~= fresh.panes);
        }
        self.tabs.push(t);
        assert(self@.tabs =~= start.tabs.push(fresh));
        put(out, Effect::Spawn { tab, pane, mode, commands, cwd, host });
        self.select_tab(tab, out);
        proof {
            let s = start.open(mode, c, d, h, name, custom_title);
            assert(super::state::deeds(out@) =~= before + s.1);
        }
    }

    /// Opens a fresh tab.
    pub fn add_tab(&mut self, settings: &Settings, out: &mut Vec<Effect>)
        requires
            old(self).next_id < u64::MAX,
            old(self).next_pane_id < u64::MAX,
            old(self).tabs@.len() < u32::MAX,
        ensures
            (final(self)@, super::state::deeds(final(out)@)) == super::steps::after(
                super::state::deeds(old(out)@),
                old(self)@.add_tab(settings@),
            ),
    {
        let title = default_tab_title(self.tabs.len() as u32 + 1, None, borrowed(&settings.home));
        self.open(
            settings.terminal_mode,
            copied(&settings.startup_commands),
            None,
            None,
            title,
            false,
            out,
        )
    }

    /// Opens a tab on a remote host.
    pub fn add_remote_tab(&mut self, n: usize, settings: &Settings, out: &mut Vec<Effect>)
        requires
            old(self).next_id < u64::MAX,
            old(self).next_pane_id < u64::MAX,
        ensures
            (final(self)@, super::state::deeds(final(out)@)) == super::steps::after(
                super::state::deeds(old(out)@),
                old(self)@.add_remote_tab(n as int, settings@),
            ),
    {
        if n < settings.hosts.len() {
            assert(settings@.hosts[n as int] == settings.hosts@[n as int]@);
            let title = settings.hosts[n].as_str().to_string();
            self.open(TerminalMode::Vte, None, None, Some(n), title, true, out)
        } else {
            assert(super::state::deeds(out@) + Seq::<super::state::Deed>::empty()
                =~= super::state::deeds(out@));
        }
    }

    /// Opens a tab with the mode, the directory and the title of the active one.
    pub fn duplicate_active_tab(&mut self, settings: &Settings, out: &mut Vec<Effect>)
        requires
            old(self).next_id < u64::MAX,
            old(self).next_pane_id < u64::MAX,
        ensures
            (final(self)@, super::state::deeds(final(out)@)) == super::steps::after(
                super::state::deeds(old(out)@),
                old(self)@.duplicate(settings@),
            ),
    {
        if self.active < self.tabs.len() {
            let t = &self.tabs[self.active];
            assert(self@.tabs[self.active as int] == t@);
            let cwd = match t.active_cwd() {
                Some(d) => Some(d.to_string()),
                None => None,
            };
            let mode: TerminalMode = match t.active_mode() {
                Some(m) => m,
                None => settings.terminal_mode,
            };
            let title = t.title.as_str().to_string();
            let custom_title = t.custom_title;
            self.open(mode, None, cwd, None, title, custom_title, out)
        } else {
            assert(super::state::deeds(out@) + Seq::<super::state::Deed>::empty()
                =~= super::state::deeds(out@));
        }
    }

    /// Closes a tab; the one in its place is selected, and the window closes
    /// with its last tab.
    pub fn close_tab(&mut self, id: u64, out: &mut Vec<Effect>)
        ensures
            (final(self)@, super::state::deeds(final(out)@)) == super::steps::after(
                super::state::deeds(old(out)@),
                old(self)@.close_tab(id),
            ),
    {
        let ghost start = self@;
        let ghost before = super::state::deeds(out@);
        match self.index_of(id) {
            Some(i) => {
                let _tab = self.tabs.remove(i);
                assert(self@.tabs =~= start.tabs.remove(i as int));
                put(out, Effect::DropTab(id));
                if self.tabs.len() == 0 {
                    put(out, Effect::Quit);
                    assert(super::state::deeds(out@) =~= before + start.close_tab(id).1);
                    return;
                }
                let j: usize = if i >= self.tabs.len() {
                    self.tabs.len() - 1
                } else {
                    i
                };
                let next = self.tabs[j].id;
                assert(self@.tabs[j as int] == self.tabs@[j as int]@);
                self.select_tab(next, out);
                assert(super::state::deeds(out@) =~= before + start.close_tab(id).1);
            },
            None => {
                assert(before + start.close_tab(id).1 =~= before);
            },
        }
    }

    fn close_tabs(&mut self, ids: Vec<u64>, out: &mut Vec<Effect>)
        ensures
            (final(self)@, super::state::deeds(final(out)@)) == super::steps::after(
                super::state::deeds(old(out)@),
                old(self)@.close_tabs(ids@),
            ),
    {
        let ghost start = self@;
        let ghost before = super::state::deeds(out@);
        let mut i: usize = 0;
        assert(ids@.skip(0) =~= ids@);
        while i < ids.len()
            invariant
                i <= ids.len(),
                super::steps::after(
                    super::state::deeds(out@),
                    self@.close_tabs(ids@.skip(i as int)),
                ) == super::steps::after(before, start.close_tabs(ids@)),
            decreases ids.len() - i,
        {
            let ghost here = self@;
            let ghost so_far = super::state::deeds(out@);
            self.close_tab(ids[i], out);
            proof {
                let rest = ids@.skip(i as int);
                assert(rest[0] == ids@[i as int]);
                assert(rest.skip(1) =~= ids@.skip(i + 1));
                let tail = self@.close_tabs(ids@.skip(i + 1)).1;
                assert(so_far + here.close_tabs(rest).1 =~= super::state::deeds(out@) + tail);
            }
            i += 1;
        }
        assert(ids@.skip(i as int) =~= seq![]);
        assert(super::state::deeds(out@) + Seq::<super::state::Deed>::empty()
            =~= super::state::deeds(out@));
    }

    /// Closes every marked tab.
    pub fn close_marked_tabs(&mut self, out: &mut Vec<Effect>)
        ensures
            (final(self)@, super::state::deeds(final(out)@)) == super::steps::after(
                super::state::deeds(old(out)@),
                old(self)@.close_tabs(super::steps::marked_ids(old(self)@.tabs)),
            ),
    {
        let ids = marked_ids(&self.tabs);
        self.close_tabs(ids, out)
    }

    /// Closes a tab, unless a command runs in it: then that is asked first.
    pub fn request_close_tab(
        &mut self,
        id: u64,
        running: &[(u64, String)],
        out: &mut Vec<Effect>,
    )
        ensures
            (final(self)@, super::state::deeds(final(out)@)) == super::steps::after(
                super::state::deeds(old(out)@),
                old(self)@.request_close_tab(id, super::state::running_views(running@)),
            ),
    {
        let ghost before = super::state::deeds(out@);
        match self.index_of(id) {
            Some(i) => {
                assert(self@.tabs[i as int] == self.tabs@[i as int]@);
                match command_in(&self.tabs[i].panes, running) {
                    Some(c) => {
                        put(out, Effect::ConfirmCloseTab(id, c.to_string()));
                        assert(super::state::deeds(out@) =~= before + seq![
                            super::state::Deed::ConfirmCloseTab(id, c@),
                        ]);
                    },
                    None => self.close_tab(id, out),
                }
            },
            None => {
                assert(before + Seq::<super::state::Deed>::empty() =~= before);
            },
        }
    }

    /// Undoes a tab's zoom, or lets its active pane fill it.
    pub fn toggle_pane_zoom_for(&mut self, i: usize, out: &mut Vec<Effect>)
        requires
            old(self)@.is_sound(),
        ensures
            (final(self)@, super::state::deeds(final(out)@)) == super::steps::after(
                super::state::deeds(old(out)@),
                old(self)@.toggle_zoom(i as int),
            ),
    {
        let ghost start = self@;
        let ghost before = super::state::deeds(out@);
        if i >= self.tabs.len() || (self.tabs[i].zoom.is_none() && self.tabs[i].panes.len() <= 1) {
            proof {
                if i < self.tabs.len() {
                    assert(start.tabs[i as int] == self.tabs@[i as int]@);
                }
                assert(before + Seq::<super::state::Deed>::empty() =~= before);
            }
            return;
        }
        assert(start.tabs[i as int] == self.tabs@[i as int]@);
        let id = self.tabs[i].id;
        let zoom = if self.tabs[i].zoom.is_some() {
            None
        } else {
            let p = self.tabs[i].active_pane;
            assert(start.tabs[i as int].panes[p as int] == self.tabs@[i as int].panes@[p as int]@);
            Some(self.tabs[i].panes[p].id)
        };
        self.tabs[i].zoom = zoom;
        assert(self@.tabs =~= start.toggle_zoom(i as int).0.tabs);
        put(out, Effect::Relayout(id));
        self.tabs[i].focus(out);
        assert(super::state::deeds(out@) =~= before + start.toggle_zoom(i as int).1);
    }

    /// Takes a pane out of a tab that has others.
    fn detach(&mut self, i: usize, p: usize) -> (res: Pane)
        requires
            i < old(self).tabs@.len(),
            p < old(self).tabs@[i as int].panes@.len(),
            old(self).tabs@[i as int].panes@.len() > 1,
        ensures
            final(self)@ == old(self)@.with_tab(
                i as int,
                super::steps::without_pane(old(self)@.tabs[i as int], p as int),
            ),
            res@ == old(self)@.tabs[i as int].panes[p as int],
    {
        let ghost start = self@;
        let t = self.tabs.remove(i);
        assert(start.tabs[i as int] == t@);
        let Tab {
            id,
            mut panes,
            active_pane,
            title,
            custom_title,
            bell,
            activity,
            marked,
            tree,
            zoom,
        } = t;
        let ghost whole = tree;
        let pane = panes.remove(p);
        let ghost gone = start.tabs[i as int].panes[p as int].id;
        assert(pane@ == start.tabs[i as int].panes[p as int]);
        let active_pane: usize = if active_pane >= panes.len() {
            panes.len() - 1
        } else {
            active_pane
        };
        let tree = take_from(tree, pane.id);
        let r = Tab {
            id,
            panes,
            active_pane,
            title,
            custom_title,
            bell,
            activity,
            marked,
            tree,
            zoom,
        };
        assert(r@ == super::steps::without_pane(start.tabs[i as int], p as int)) by {
            assert(r@.panes =~= start.tabs[i as int].panes.remove(p as int));
        }
        self.tabs.insert(i, r);
        assert(self@.tabs =~= start.tabs.update(i as int, r@));
        pane
    }

    /// Closes a pane, and its tab with it where it was the last one.
    pub fn close_pane(&mut self, pane_id: u64, out: &mut Vec<Effect>)
        requires
            old(self)@.is_sound(),
        ensures
            (final(self)@, super::state::deeds(final(out)@)) == super::steps::after(
                super::state::deeds(old(out)@),
                old(self)@.close_pane(pane_id),
            ),
    {
        let ghost start = self@;
        let ghost before = super::state::deeds(out@);
        let (i, p) = match self.find_pane(pane_id) {
            Some(place) => place,
            None => {
                assert(before + Seq::<super::state::Deed>::empty() =~= before);
                return;
            },
        };
        assert(start.tabs[i as int] == self.tabs@[i as int]@);
        let ghost first = if start.tabs[i as int].zoom is Some {
            start.toggle_zoom(i as int)
        } else {
            (start, seq![])
        };
        if self.tabs[i].zoom.is_some() {
            self.toggle_pane_zoom_for(i, out);
        }
        assert(super::state::deeds(out@) =~= before + first.1);
        assert(self@ == first.0);
        let ghost middle = self@;
        assert(self.tabs@.len() == middle.tabs.len());
        assert(middle.tabs[i as int] == self.tabs@[i as int]@);
        assert(middle.tabs[i as int].panes == start.tabs[i as int].panes);
        let id = self.tabs[i].id;
        if self.tabs[i].panes.len() == 1 {
            self.close_tab(id, out);
            assert(super::state::deeds(out@) =~= before + start.close_pane(pane_id).1);
            return;
        }
        proof {
            super::state::pane_place_is_first(start.tabs, pane_id);
        }
        let gone = self.detach(i, p);
        put(out, Effect::Relayout(id));
        assert(self@.tabs.len() == self.tabs@.len());
        assert(self@.tabs[i as int] == self.tabs@[i as int]@);
        self.tabs[i].focus(out);
        put(out, Effect::DropPane(gone.id));
        assert(super::state::deeds(out@) =~= before + start.close_pane(pane_id).1);
    }

    /// Closes a pane, unless a command runs in it: then that is asked first.
    pub fn request_close_pane(
        &mut self,
        pane_id: u64,
        running: &[(u64, String)],
        out: &mut Vec<Effect>,
    )
        requires
            old(self)@.is_sound(),
        ensures
            (final(self)@, super::state::deeds(final(out)@)) == super::steps::after(
                super::state::deeds(old(out)@),
                old(self)@.request_close_pane(pane_id, super::state::running_views(running@)),
            ),
    {
        let ghost before = super::state::deeds(out@);
        if self.find_pane(pane_id).is_none() {
            assert(before + Seq::<super::state::Deed>::empty() =~= before);
            return;
        }
        match command_of(pane_id, running) {
            Some(c) => {
                put(out, Effect::ConfirmClosePane(pane_id, c.to_string()));
                assert(super::state::deeds(out@) =~= before + seq![
                    super::state::Deed::ConfirmClosePane(pane_id, c@),
                ]);
            },
            None => self.close_pane(pane_id, out),
        }
    }

    /// Moves a tab to a position; the active tab stays the active one.
    pub fn reorder_tab(&mut self, src_id: u64, to_idx: usize, out: &mut Vec<Effect>)
        ensures
            (final(self)@, super::state::deeds(final(out)@)) == super::steps::after(
                super::state::deeds(old(out)@),
                old(self)@.reorder_tab(src_id, to_idx as int),
            ),
    {
        let ghost start = self@;
        let ghost before = super::state::deeds(out@);
        assert(before + Seq::<super::state::Deed>::empty() =~= before);
        let from = match self.index_of(src_id) {
            Some(i) => i,
            None => {
                return;
            },
        };
        let to: usize = if to_idx >= self.tabs.len() {
            self.tabs.len() - 1
        } else {
            to_idx
        };
        if from == to {
            return;
        }
        let active_id = if self.active < self.tabs.len() {
            assert(start.tabs[self.active as int] == self.tabs@[self.active as int]@);
            Some(self.tabs[self.active].id)
        } else {
            None
        };
        let tab = self.tabs.remove(from);
        self.tabs.insert(to, tab);
        assert(self@.tabs =~= start.tabs.remove(from as int).insert(
            to as int,
            start.tabs[from as int],
        ));
        if let Some(id) = active_id {
            self.active = match self.index_of(id) {
                Some(i) => i,
                None => 0,
            };
        }
        put(out, Effect::RebuildStrip);
        assert(super::state::deeds(out@) =~= before + start.reorder_tab(
            src_id,
            to_idx as int,
        ).1);
    }

    /// Selects the next tab or the previous one; the last one and the first one
    /// are neighbours.
    pub fn switch_tab(&mut self, forward: bool, out: &mut Vec<Effect>)
        requires
            old(self)@.is_sound(),
        ensures
            (final(self)@, super::state::deeds(final(out)@)) == super::steps::after(
                super::state::deeds(old(out)@),
                old(self)@.switch_tab(
                    if forward {
                        1
                    } else {
                        -1
                    },
                ),
            ),
    {
        let n: usize = self.tabs.len();
        if n == 0 {
            assert(super::state::deeds(out@) + Seq::<super::state::Deed>::empty()
                =~= super::state::deeds(out@));
            return;
        }
        let i = neighbour(self.active, n, forward);
        assert(self@.tabs[i as int] == self.tabs@[i as int]@);
        let id = self.tabs[i].id;
        self.select_tab(id, out)
    }

    /// Moves the active tab one place to the right or to the left, where there
    /// is room.
    pub fn move_tab(&mut self, right: bool, out: &mut Vec<Effect>)
        ensures
            (final(self)@, super::state::deeds(final(out)@)) == super::steps::after(
                super::state::deeds(old(out)@),
                old(self)@.move_tab(
                    if right {
                        1
                    } else {
                        -1
                    },
                ),
            ),
    {
        let ghost start = self@;
        let ghost before = super::state::deeds(out@);
        let ghost delta: int = if right {
            1
        } else {
            -1
        };
        assert(before + Seq::<super::state::Deed>::empty() =~= before);
        let from = self.active;
        if from >= self.tabs.len() || (!right && from == 0) || (right && from >= self.tabs.len()
            - 1) {
            return;
        }
        let to: usize = if right {
            from + 1
        } else {
            from - 1
        };
        let tab = self.tabs.remove(from);
        self.tabs.insert(to, tab);
        self.active = to;
        proof {
            let a = start.tabs[from as int];
            let b = start.tabs[to as int];
            assert(self@.tabs =~= start.tabs.update(from as int, b).update(to as int, a));
        }
        put(out, Effect::RebuildStrip);
        assert(super::state::deeds(out@) =~= before + start.move_tab(delta).1);
    }

    /// Selects the tab at a position; the ninth stands for the last.
    pub fn quick_switch(&mut self, n: u8, out: &mut Vec<Effect>)
        ensures
            (final(self)@, super::state::deeds(final(out)@)) == super::steps::after(
                super::state::deeds(old(out)@),
                old(self)@.quick_switch(n as int),
            ),
    {
        if self.tabs.len() == 0 {
            assert(super::state::deeds(out@) + Seq::<super::state::Deed>::empty()
                =~= super::state::deeds(out@));
            return;
        }
        let last: usize = self.tabs.len() - 1;
        let target: usize = if n == 9 || n as usize > last {
            last
        } else {
            n as usize
        };
        assert(self@.tabs[target as int] == self.tabs@[target as int]@);
        let id = self.tabs[target].id;
        self.select_tab(id, out)
    }

    /// Splits the active pane in two, unless it is zoomed.
    pub fn split_active(&mut self, orientation: Orientation, out: &mut Vec<Effect>)
        requires
            old(self)@.is_sound(),
            old(self).next_pane_id < u64::MAX,
        ensures
            (final(self)@, super::state::deeds(final(out)@)) == super::steps::after(
                super::state::deeds(old(out)@),
                old(self)@.split_active(orientation),
            ),
    {
        let ghost start = self@;
        let ghost before = super::state::deeds(out@);
        assert(before + Seq::<super::state::Deed>::empty() =~= before);
        let i = self.active;
        if i >= self.tabs.len() {
            return;
        }
        assert(start.tabs[i as int] == self.tabs@[i as int]@);
        if self.tabs[i].zoom.is_some() {
            return;
        }
        let pane = self.next_pane_id;
        self.next_pane_id = pane + 1;
        let t = self.tabs.remove(i);
        let Tab {
            id,
            mut panes,
            active_pane,
            title,
            custom_title,
            bell,
            activity,
            marked,
            tree,
            zoom,
        } = t;
        let ghost whole = start.tabs[i as int];
        assert(whole.panes[active_pane as int] == panes@[active_pane as int]@);
        let here = panes[active_pane].id;
        let cwd = copied(&panes[active_pane].cwd);
        let tree = tree.split(here, pane, orientation);
        let active_pane: usize = panes.len();
        panes.push(Pane { id: pane, cwd: copied(&cwd), mode: TerminalMode::Vte });
        let s = Tab {
            id,
            panes,
            active_pane,
            title,
            custom_title,
            bell,
            activity,
            marked,
            tree,
            zoom,
        };
        let ghost step = start.split_active(orientation);
        proof {
            assert(s@.panes =~= step.0.tabs[i as int].panes);
            assert(s@ == step.0.tabs[i as int]);
        }
        self.tabs.insert(i, s);
        assert(self@.tabs =~= step.0.tabs);
        put(
            out,
            Effect::Spawn { tab: id, pane, mode: TerminalMode::Vte, commands: None, cwd, host: None },
        );
        put(out, Effect::Relayout(id));
        put(out, Effect::Send(pane, Input::GrabFocus));
        assert(super::state::deeds(out@) =~= before + step.1);
    }

    /// Moves the focus to the next pane or the previous one; the last one and
    /// the first one are neighbours.
    pub fn cycle_pane_focus(&mut self, forward: bool, out: &mut Vec<Effect>)
        requires
            old(self)@.is_sound(),
        ensures
            (final(self)@, super::state::deeds(final(out)@)) == super::steps::after(
                super::state::deeds(old(out)@),
                old(self)@.cycle_focus(
                    if forward {
                        1
                    } else {
                        -1
                    },
                ),
            ),
    {
        let ghost start = self@;
        let ghost before = super::state::deeds(out@);
        let ghost delta: int = if forward {
            1
        } else {
            -1
        };
        assert(before + Seq::<super::state::Deed>::empty() =~= before);
        let i = self.active;
        if i >= self.tabs.len() {
            return;
        }
        assert(start.tabs[i as int] == self.tabs@[i as int]@);
        let n: usize = self.tabs[i].panes.len();
        if n <= 1 {
            return;
        }
        let next = neighbour(self.tabs[i].active_pane, n, forward);
        self.tabs[i].active_pane = next;
        assert(self@.tabs =~= start.cycle_focus(delta).0.tabs);
        self.tabs[i].focus(out);
        assert(super::state::deeds(out@) =~= before + start.cycle_focus(delta).1);
    }

    /// Moves the focus to a pane of the active tab.
    pub fn focus_pane(&mut self, pane_id: u64, out: &mut Vec<Effect>)
        ensures
            (final(self)@, super::state::deeds(final(out)@)) == super::steps::after(
                super::state::deeds(old(out)@),
                old(self)@.focus_pane(pane_id),
            ),
    {
        let ghost start = self@;
        let ghost before = super::state::deeds(out@);
        assert(before + Seq::<super::state::Deed>::empty() =~= before);
        let i = self.active;
        if i >= self.tabs.len() {
            return;
        }
        assert(start.tabs[i as int] == self.tabs@[i as int]@);
        if let Some(p) = self.tabs[i].pane_index(pane_id) {
            self.tabs[i].active_pane = p;
            assert(self@.tabs =~= start.focus_pane(pane_id).0.tabs);
            self.tabs[i].focus(out);
            assert(super::state::deeds(out@) =~= before + start.focus_pane(pane_id).1);
        }
    }

    /// Moves the nearest split around the active pane.
    pub fn resize_pane(&mut self, target: Orientation, delta: i32, out: &mut Vec<Effect>)
        ensures
            (final(self)@, super::state::deeds(final(out)@)) == super::steps::after(
                super::state::deeds(old(out)@),
                old(self)@.resize_pane(target, delta as int),
            ),
    {
        let ghost start = self@;
        let ghost before = super::state::deeds(out@);
        assert(before + Seq::<super::state::Deed>::empty() =~= before);
        let i = self.active;
        let pane = match self.active_terminal() {
            Some(p) => p,
            None => {
                return;
            },
        };
        assert(start.tabs[i as int] == self.tabs@[i as int]@);
        if let Some(z) = self.tabs[i].zoom {
            if z == pane {
                return;
            }
        }
        let id = self.tabs[i].id;
        if self.tabs[i].tree.resize(pane, target, delta) {
            assert(self@.tabs =~= start.resize_pane(target, delta as int).0.tabs);
            put(out, Effect::Relayout(id));
            assert(super::state::deeds(out@) =~= before + start.resize_pane(
                target,
                delta as int,
            ).1);
        } else {
            assert(self@.tabs =~= start.tabs);
        }
    }

    /// Moves the active pane out of its tab into one of its own.
    pub fn move_pane_to_new_tab(&mut self, settings: &Settings, out: &mut Vec<Effect>)
        requires
            old(self)@.is_sound(),
            old(self).next_id < u64::MAX,
            old(self).tabs@.len() < u32::MAX,
        ensures
            (final(self)@, super::state::deeds(final(out)@)) == super::steps::after(
                super::state::deeds(old(out)@),
                old(self)@.move_pane_to_new_tab(settings@),
            ),
    {
        let ghost start = self@;
        let ghost before = super::state::deeds(out@);
        assert(before + Seq::<super::state::Deed>::empty() =~= before);
        let i = self.active;
        if i >= self.tabs.len() {
            return;
        }
        assert(start.tabs[i as int] == self.tabs@[i as int]@);
        if self.tabs[i].panes.len() <= 1 || self.tabs[i].zoom.is_some() {
            return;
        }
        let p = self.tabs[i].active_pane;
        let old_id = self.tabs[i].id;
        let pane = self.detach(i, p);
        let ghost moved = pane@;
        let id = self.next_id;
        self.next_id = id + 1;
        assert(self@.tabs.len() == start.tabs.len());
        assert(self.tabs@.len() == self@.tabs.len());
        let title = default_tab_title(
            self.tabs.len() as u32 + 1,
            borrowed(&pane.cwd),
            borrowed(&settings.home),
        );
        let leaf = Tree::Leaf(pane.id);
        let mut panes: Vec<Pane> = Vec::new();
        panes.push(pane);
        let t = Tab {
            id,
            panes,
            active_pane: 0,
            title,
            custom_title: false,
            bell: false,
            activity: false,
            marked: false,
            tree: leaf,
            zoom: None,
        };
        let ghost fresh = super::steps::single(id, moved, t.title@, false);
        assert(t@ == fresh) by {
            assert(t@.panes =~= fresh.panes);
        }
        let ghost middle = self@.tabs;
        self.tabs.push(t);
        assert(self@.tabs =~= middle.push(fresh));
        put(out, Effect::Relayout(old_id));
        put(out, Effect::Relayout(id));
        self.select_tab(id, out);
        assert(super::state::deeds(out@) =~= before + start.move_pane_to_new_tab(settings@).1);
    }

    /// Opens the find bar, or closes and forgets it.
    pub fn toggle_search(&mut self, out: &mut Vec<Effect>)
        ensures
            (final(self)@, super::state::deeds(final(out)@)) == super::steps::after(
                super::state::deeds(old(out)@),
                old(self)@.toggle_search(),
            ),
    {
        let ghost start = self@;
        let ghost before = super::state::deeds(out@);
        self.search_open = !self.search_open;
        put(out, Effect::ShowSearch(self.search_open));
        if !self.search_open {
            assert(self@.active_pane() == start.active_pane());
            self.tell(Input::SearchClear, out);
            self.tell(Input::GrabFocus, out);
        }
        assert(super::state::deeds(out@) =~= before + start.toggle_search().1);
    }

    fn toggle_sidebar(&mut self, out: &mut Vec<Effect>)
        ensures
            (final(self)@, super::state::deeds(final(out)@)) == super::steps::after(
                super::state::deeds(old(out)@),
                old(self)@.toggle_sidebar(),
            ),
    {
        let ghost before = super::state::deeds(out@);
        self.sidebar_visible = !self.sidebar_visible;
        put(out, Effect::ShowSidebar(self.sidebar_visible));
        assert(super::state::deeds(out@) =~= before + old(self)@.toggle_sidebar().1);
    }

    fn filter_tabs(&mut self, out: &mut Vec<Effect>)
        ensures
            (final(self)@, super::state::deeds(final(out)@)) == super::steps::after(
                super::state::deeds(old(out)@),
                old(self)@.filter_tabs(),
            ),
    {
        let ghost before = super::state::deeds(out@);
        if !self.sidebar_visible {
            self.sidebar_visible = true;
            put(out, Effect::ShowSidebar(true));
        }
        put(out, Effect::FocusFilter);
        assert(super::state::deeds(out@) =~= before + old(self)@.filter_tabs().1);
    }

    fn toggle_marked(&mut self, out: &mut Vec<Effect>)
        ensures
            (final(self)@, super::state::deeds(final(out)@)) == super::steps::after(
                super::state::deeds(old(out)@),
                old(self)@.toggle_marked(),
            ),
    {
        let ghost start = self@;
        let ghost before = super::state::deeds(out@);
        let i = self.active;
        if i < self.tabs.len() {
            assert(start.tabs[i as int] == self.tabs@[i as int]@);
            let marked = self.tabs[i].marked;
            self.tabs[i].marked = !marked;
            assert(self@.tabs =~= start.toggle_marked().0.tabs);
        }
        put(out, Effect::RebuildStrip);
        assert(super::state::deeds(out@) =~= before + start.toggle_marked().1);
    }

    /// Takes in a pane's new working directory; its tab's title follows where
    /// it is the active one and the user gave no title.
    pub fn change_cwd(
        &mut self,
        pane_id: u64,
        path: String,
        settings: &Settings,
        out: &mut Vec<Effect>,
    )
        requires
            old(self).tabs@.len() < u32::MAX,
        ensures
            (final(self)@, super::state::deeds(final(out)@)) == super::steps::after(
                super::state::deeds(old(out)@),
                old(self)@.change_cwd(pane_id, path@, settings@),
            ),
    {
        let ghost start = self@;
        let ghost text = path@;
        let ghost before = super::state::deeds(out@);
        assert(before + Seq::<super::state::Deed>::empty() =~= before);
        if let Some((i, p)) = self.find_pane(pane_id) {
            let ghost step = start.change_cwd(pane_id, text, settings@);
            assert(start.tabs[i as int] == self.tabs@[i as int]@);
            assert(start.tabs[i as int].panes[p as int] == self.tabs@[i as int].panes@[p as int]@);
            let follows = self.tabs[i].active_pane == p && !self.tabs[i].custom_title;
            let title = default_tab_title(
                i as u32 + 1,
                Some(path.as_str()),
                borrowed(&settings.home),
            );
            self.tabs[i].panes[p].cwd = Some(path);
            assert(self.tabs@[i as int]@.panes =~= start.tabs[i as int].panes.update(
                p as int,
                super::state::PaneView {
                    cwd: Some(text),
                    ..start.tabs[i as int].panes[p as int]
                },
            ));
            if follows {
                self.tabs[i].title = title;
                assert(self.tabs@[i as int]@ == step.0.tabs[i as int]);
                assert(self@.tabs =~= step.0.tabs);
                put(out, Effect::RebuildStrip);
                assert(super::state::deeds(out@) =~= before + step.1);
            } else {
                assert(self.tabs@[i as int]@ == step.0.tabs[i as int]);
                assert(self@.tabs =~= step.0.tabs);
            }
        }
    }

    /// Takes in that a pane has the focus.
    pub fn note_focus(&mut self, pane_id: u64)
        ensures
            final(self)@ == old(self)@.note_focus(pane_id),
    {
        let ghost start = self@;
        if let Some((i, p)) = self.find_pane(pane_id) {
            assert(start.tabs[i as int] == self.tabs@[i as int]@);
            self.tabs[i].active_pane = p;
            assert(self@.tabs =~= start.note_focus(pane_id).tabs);
        }
    }

    /// Takes in that a tab rang, or showed something.
    pub fn note(&mut self, id: u64, bell: bool, out: &mut Vec<Effect>)
        ensures
            (final(self)@, super::state::deeds(final(out)@)) == super::steps::after(
                super::state::deeds(old(out)@),
                old(self)@.note(id, bell),
            ),
    {
        let ghost start = self@;
        let ghost before = super::state::deeds(out@);
        assert(before + Seq::<super::state::Deed>::empty() =~= before);
        if let Some(i) = self.index_of(id) {
            assert(start.tabs[i as int] == self.tabs@[i as int]@);
            if i == self.active || (!bell && self.tabs[i].activity) {
                return;
            }
            if bell {
                self.tabs[i].bell = true;
            } else {
                self.tabs[i].activity = true;
            }
            assert(self@.tabs =~= start.note(id, bell).0.tabs);
            put(out, Effect::RebuildStrip);
            assert(super::state::deeds(out@) =~= before + start.note(id, bell).1);
        }
    }

    /// Gives a tab a title; a blank one stands for the default title.
    pub fn rename_tab(
        &mut self,
        id: u64,
        title: &str,
        settings: &Settings,
        out: &mut Vec<Effect>,
    )
        requires
            old(self).tabs@.len() < u32::MAX,
        ensures
            (final(self)@, super::state::deeds(final(out)@)) == super::steps::after(
                super::state::deeds(old(out)@),
                old(self)@.rename(id, title@, settings@),
            ),
    {
        let ghost start = self@;
        let ghost before = super::state::deeds(out@);
        assert(before + Seq::<super::state::Deed>::empty() =~= before);
        if let Some(i) = self.index_of(id) {
            let ghost step = start.rename(id, title@, settings@);
            assert(start.tabs[i as int] == self.tabs@[i as int]@);
            let chars = chars_of(title);
            let given = trim(chars.as_slice());
            if given.len() == 0 {
                let name = default_tab_title(
                    i as u32 + 1,
                    self.tabs[i].active_cwd(),
                    borrowed(&settings.home),
                );
                self.tabs[i].custom_title = false;
                self.tabs[i].title = name;
            } else {
                self.tabs[i].custom_title = true;
                self.tabs[i].title = text_of(given);
            }
            assert(self@.tabs =~= step.0.tabs);
            put(out, Effect::RebuildStrip);
            assert(super::state::deeds(out@) =~= before + step.1);
        }
    }

    fn tell_all(&self, inputs: Vec<Input>, out: &mut Vec<Effect>)
        ensures
            super::state::deeds(final(out)@) == super::state::deeds(old(out)@)
                + super::steps::to_tabs(self@.tabs, input_views(inputs@)),
    {
        let ghost before = super::state::deeds(out@);
        let ghost said = input_views(inputs@);
        let mut i: usize = 0;
        proof {
            assert(self@.tabs.take(0) =~= seq![]);
            assert(before + super::steps::to_tabs(self@.tabs.take(0), said) =~= before);
        }
        while i < self.tabs.len()
            invariant
                i <= self.tabs.len(),
                said == input_views(inputs@),
                super::state::deeds(out@) == before + super::steps::to_tabs(
                    self@.tabs.take(i as int),
                    said,
                ),
            decreases self.tabs.len() - i,
        {
            let ghost so_far = super::state::deeds(out@);
            tell_panes(&self.tabs[i].panes, &inputs, out);
            proof {
                assert(self@.tabs.take(i + 1).drop_last() =~= self@.tabs.take(i as int));
                assert(self@.tabs.take(i + 1).last() == self.tabs@[i as int]@);
                assert(super::state::deeds(out@) =~= before + super::steps::to_tabs(
                    self@.tabs.take(i + 1),
                    said,
                ));
            }
            i += 1;
        }
        assert(self@.tabs.take(i as int) =~= self@.tabs);
    }

    fn step_font(&self, up: bool, out: &mut Vec<Effect>)
        ensures
            super::state::deeds(final(out)@) == super::state::deeds(old(out)@) + self@.step_font(
                up,
            ).1,
    {
        let ghost before = super::state::deeds(out@);
        put(out, Effect::StepFont { up });
        let told: Vec<Input> = vec![Input::RefreshFontScale];
        assert(input_views(told@) =~= seq![super::state::InputView::RefreshFontScale]);
        self.tell_all(told, out);
        assert(super::state::deeds(out@) =~= before + self@.step_font(up).1);
    }

    /// Lets every pane use a theme, if there is one at the position.
    pub fn use_theme(&self, i: usize, settings: &Settings, out: &mut Vec<Effect>)
        ensures
            super::state::deeds(final(out)@) == super::state::deeds(old(out)@) + self@.use_theme(
                i as int,
                settings@,
            ).1,
    {
        let ghost before = super::state::deeds(out@);
        if i < settings.themes {
            put(out, Effect::UseTheme(i));
            let told: Vec<Input> = vec![Input::ApplyTheme];
            assert(input_views(told@) =~= seq![super::state::InputView::ApplyTheme]);
            self.tell_all(told, out);
            put(out, Effect::ApplyCss);
            put(out, Effect::SaveConfig);
        }
        assert(super::state::deeds(out@) =~= before + self@.use_theme(i as int, settings@).1);
    }

    /// Lets every pane use a font.
    pub fn use_font(&self, desc: String, out: &mut Vec<Effect>)
        ensures
            super::state::deeds(final(out)@) == super::state::deeds(old(out)@) + self@.use_font(
                desc@,
            ).1,
    {
        let ghost before = super::state::deeds(out@);
        let ghost name = desc@;
        let told: Vec<Input> = vec![Input::SetFont(desc.as_str().to_string())];
        assert(input_views(told@) =~= seq![super::state::InputView::SetFont(name)]);
        put(out, Effect::UseFont(desc));
        self.tell_all(told, out);
        put(out, Effect::SaveConfig);
        assert(super::state::deeds(out@) =~= before + self@.use_font(name).1);
    }

    /// Lets every pane keep so many lines.
    pub fn use_scrollback(&self, n: u32, out: &mut Vec<Effect>)
        ensures
            super::state::deeds(final(out)@) == super::state::deeds(old(out)@)
                + self@.use_scrollback(n).1,
    {
        let ghost before = super::state::deeds(out@);
        let told: Vec<Input> = vec![Input::SetScrollback(n)];
        assert(input_views(told@) =~= seq![super::state::InputView::SetScrollback(n)]);
        put(out, Effect::UseScrollback(n));
        self.tell_all(told, out);
        put(out, Effect::SaveConfig);
        assert(super::state::deeds(out@) =~= before + self@.use_scrollback(n).1);
    }

    /// Lets what the settings say of panes reach every pane.
    pub fn apply_config(&self, font: String, scrollback: u32, out: &mut Vec<Effect>)
        ensures
            super::state::deeds(final(out)@) == super::state::deeds(old(out)@)
                + self@.apply_config(font@, scrollback).1,
    {
        let ghost before = super::state::deeds(out@);
        let ghost name = font@;
        let told: Vec<Input> = vec![
            Input::RefreshFontScale,
            Input::SetFont(font),
            Input::SetScrollback(scrollback),
            Input::ApplyTheme,
        ];
        assert(input_views(told@) =~= seq![
            super::state::InputView::RefreshFontScale,
            super::state::InputView::SetFont(name),
            super::state::InputView::SetScrollback(scrollback),
            super::state::InputView::ApplyTheme,
        ]);
        self.tell_all(told, out);
        put(out, Effect::ApplyCss);
        assert(super::state::deeds(out@) =~= before + self@.apply_config(name, scrollback).1);
    }

    /// Carries out a built-in action. `running` tells which commands run in
    /// panes.
    pub fn execute_action(
        &mut self,
        action: Action,
        settings: &Settings,
        running: &[(u64, String)],
        out: &mut Vec<Effect>,
    )
        requires
            old(self)@.is_sound(),
            old(self).next_id < u64::MAX,
            old(self).next_pane_id < u64::MAX,
            old(self).tabs@.len() < u32::MAX,
        ensures
            (final(self)@, super::state::deeds(final(out)@)) == super::steps::after(
                super::state::deeds(old(out)@),
                old(self)@.execute(action, settings@, super::state::running_views(running@)),
            ),
    {
        let ghost start = self@;
        let ghost before = super::state::deeds(out@);
        let ghost step = start.execute(
            action,
            settings@,
            super::state::running_views(running@),
        );
        assert(before + Seq::<super::state::Deed>::empty() =~= before);
        match action {
            Action::NewTab => self.add_tab(settings, out),
            Action::CloseTab => {
                if self.active < self.tabs.len() {
                    assert(start.tabs[self.active as int] == self.tabs@[self.active as int]@);
                    let id = self.tabs[self.active].id;
                    self.request_close_tab(id, running, out)
                }
            },
            Action::ClosePaneOrTab => {
                if self.active < self.tabs.len() {
                    let t = &self.tabs[self.active];
                    assert(start.tabs[self.active as int] == t@);
                    if t.panes.len() > 1 {
                        assert(t@.panes[t.active_pane as int] == t.panes@[t.active_pane as int]@);
                        let pane = t.panes[t.active_pane].id;
                        self.request_close_pane(pane, running, out)
                    } else {
                        let id = t.id;
                        self.request_close_tab(id, running, out)
                    }
                }
            },
            Action::SplitHorizontal => self.split_active(Orientation::Horizontal, out),
            Action::SplitVertical => self.split_active(Orientation::Vertical, out),
            Action::CyclePaneFocusForward => self.cycle_pane_focus(true, out),
            Action::CyclePaneFocusBackward => self.cycle_pane_focus(false, out),
            Action::FocusPaneLeft => put(out, Effect::FocusTowards(Direction::Left)),
            Action::FocusPaneRight => put(out, Effect::FocusTowards(Direction::Right)),
            Action::FocusPaneUp => put(out, Effect::FocusTowards(Direction::Up)),
            Action::FocusPaneDown => put(out, Effect::FocusTowards(Direction::Down)),
            Action::ResizePaneLeft => self.resize_pane(Orientation::Horizontal, -40, out),
            Action::ResizePaneRight => self.resize_pane(Orientation::Horizontal, 40, out),
            Action::ResizePaneUp => self.resize_pane(Orientation::Vertical, -40, out),
            Action::ResizePaneDown => self.resize_pane(Orientation::Vertical, 40, out),
            Action::TogglePaneZoom => {
                let i = self.active;
                self.toggle_pane_zoom_for(i, out)
            },
            Action::MovePaneToNewTab => self.move_pane_to_new_tab(settings, out),
            Action::Copy => self.tell(Input::Copy, out),
            Action::Paste => self.tell(Input::Paste, out),
            Action::FontIncrease => self.step_font(true, out),
            Action::FontDecrease => self.step_font(false, out),
            Action::OpacityIncrease => put(out, Effect::StepOpacity { up: true }),
            Action::OpacityDecrease => put(out, Effect::StepOpacity { up: false }),
            Action::ToggleSidebar => self.toggle_sidebar(out),
            Action::ToggleCommandPalette => put(out, Effect::TogglePalette),
            Action::ToggleSettings => put(out, Effect::ToggleSettings),
            Action::ToggleSearch => self.toggle_search(out),
            Action::MoveTabLeft => self.move_tab(false, out),
            Action::MoveTabRight => self.move_tab(true, out),
            Action::DuplicateTab => self.duplicate_active_tab(settings, out),
            Action::ToggleTabMarked => self.toggle_marked(out),
            Action::CloseSelectedTabs => self.close_marked_tabs(out),
            Action::FilterTabs => self.filter_tabs(out),
            Action::PrevTab => self.switch_tab(false, out),
            Action::NextTab => self.switch_tab(true, out),
            Action::ScrollUp => self.tell(Input::ScrollLines(-3), out),
            Action::ScrollDown => self.tell(Input::ScrollLines(3), out),
            Action::FilterFailedBlocks => self.tell(Input::FilterFailedBlocks, out),
            Action::FilterSlowBlocks => self.tell(Input::FilterSlowBlocks, out),
            Action::ClearBlockFilter => self.tell(Input::ClearBlockFilter, out),
            Action::QuickSwitchTab(n) => self.quick_switch(n, out),
            Action::ShowRemotePicker => put(out, Effect::ShowRemotePicker),
            Action::ToggleDebugDashboard => put(out, Effect::ToggleDebugDashboard),
            Action::ConnectRemote(n) => self.add_remote_tab(n, settings, out),
        }
        assert(super::state::deeds(out@) =~= before + step.1);
    }

    /// Does what is asked of the window, and says what is to be done in turn.
    /// `running` tells which commands run in panes.
    pub fn update(
        &mut self,
        msg: Msg,
        settings: &Settings,
        running: &[(u64, String)],
    ) -> (res: Vec<Effect>)
        requires
            old(self)@.is_sound(),
            old(self).next_id < u64::MAX,
            old(self).next_pane_id < u64::MAX,
            old(self).tabs@.len() < u32::MAX,
        ensures
            (final(self)@, super::state::deeds(res@)) == old(self)@.update(
                msg@,
                settings@,
                super::state::running_views(running@),
            ),
            final(self)@.is_sound(),
    {
        let mut out: Vec<Effect> = Vec::new();
        let ghost start = self@;
        let ghost asked = msg@;
        let ghost before = super::state::deeds(out@);
        let ghost step = start.update(asked, settings@, super::state::running_views(running@));
        assert(before =~= seq![]);
        assert(before + step.1 =~= step.1);
        match msg {
            Msg::NewTab => self.add_tab(settings, &mut out),
            Msg::CloseTab(id) => self.request_close_tab(id, running, &mut out),
            Msg::ForceCloseTab(id) => self.close_tab(id, &mut out),
            Msg::ForceClosePane(pane) => self.close_pane(pane, &mut out),
            Msg::SelectTab(id) => self.select_tab(id, &mut out),
            Msg::NextTab => self.switch_tab(true, &mut out),
            Msg::PrevTab => self.switch_tab(false, &mut out),
            Msg::ToggleSidebar => self.toggle_sidebar(&mut out),
            Msg::Action(action) => self.execute_action(action, settings, running, &mut out),
            Msg::ReloadConfig => put(&mut out, Effect::ReloadConfig),
            Msg::PaneExited(_, pane) => self.close_pane(pane, &mut out),
            Msg::PaneCwdChanged(_, pane, path) => self.change_cwd(pane, path, settings, &mut out),
            Msg::PaneFocused(_, pane) => self.note_focus(pane),
            Msg::FocusPane(pane) => self.focus_pane(pane, &mut out),
            Msg::TitleChanged(_, _) => {},
            Msg::Bell(id) => self.note(id, true, &mut out),
            Msg::Activity(id) => self.note(id, false, &mut out),
            Msg::SearchChanged(text) => {
                if chars_of(text.as_str()).len() == 0 {
                    self.tell(Input::SearchClear, &mut out)
                } else {
                    let (query, regex) = search_query(text.as_str());
                    self.tell(Input::SearchSet(query, regex), &mut out)
                }
            },
            Msg::SearchNext => self.tell(Input::SearchNext, &mut out),
            Msg::SearchPrev => self.tell(Input::SearchPrev, &mut out),
            Msg::SearchClose => self.toggle_search(&mut out),
            Msg::RenameTab(id, title) => self.rename_tab(id, title.as_str(), settings, &mut out),
            Msg::ReorderTab(id, to) => self.reorder_tab(id, to, &mut out),
            Msg::SetTabFilter(text) => {
                self.tab_filter = text;
                put(&mut out, Effect::RebuildStrip)
            },
            Msg::FileTreeActivateFile(path) => {
                let mut snippet = chars_of(shell_quote(path.as_str()).as_str());
                snippet.push(' ');
                self.tell(Input::WriteInput(text_of(snippet.as_slice())), &mut out);
                self.tell(Input::GrabFocus, &mut out);
            },
            Msg::FileTreeGotoCwd => put(&mut out, Effect::FollowCwd),
            Msg::FileTreeGoUp => put(&mut out, Effect::TreeUp),
            Msg::SettingsTheme(i) => self.use_theme(i, settings, &mut out),
            Msg::SettingsFontDesc(desc) => self.use_font(desc, &mut out),
            Msg::SettingsScrollback(n) => self.use_scrollback(n, &mut out),
            Msg::ConfigLoaded(font, n) => self.apply_config(font, n, &mut out),
            Msg::Ignore => {},
        }
        proof {
            assert(super::state::deeds(out@) =~= step.1);
            super::sound::windows_stay_sound(
                start,
                asked,
                settings@,
                super::state::running_views(running@),
            );
        }
        out
    }
}

} // verus!
