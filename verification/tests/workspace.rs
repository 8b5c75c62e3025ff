use jterm1::action::Action;
use jterm1::session::{PaneLayout, SavedSession, SavedTab, TerminalMode};
use jterm1::terminal::vte::VteOutput;
use jterm1::workspace::run::{forward, search_query};
use jterm1::workspace::state::{Direction, Effect, Input, Msg, Settings, Workspace};
use jterm1::workspace::strip::{DebugConfig, MenuChoice};
use jterm1::workspace::tree::{Orientation, Tree};

fn settings() -> Settings {
    Settings {
        startup_commands: Some("ls".to_string()),
        terminal_mode: TerminalMode::Block,
        home: Some("/home/u".to_string()),
        hosts: vec!["build".to_string()],
        themes: 2,
    }
}

fn window(tabs: usize) -> Workspace {
    let (mut w, _) = Workspace::open_window(None, &settings());
    for _ in 1..tabs {
        w.update(Msg::NewTab, &settings(), &[]);
    }
    w
}

fn act(w: &mut Workspace, action: Action) -> Vec<Effect> {
    w.update(Msg::Action(action), &settings(), &[])
}

fn ids(w: &Workspace) -> Vec<u64> {
    w.tabs.iter().map(|t| t.id).collect()
}

fn has(effects: &[Effect], f: impl Fn(&Effect) -> bool) -> bool {
    effects.iter().any(f)
}

#[test]
fn a_fresh_window_has_one_tab() {
    let (w, effects) = Workspace::open_window(None, &settings());
    assert_eq!(w.tabs.len(), 1);
    assert_eq!(w.tabs[0].title, "~");
    match &effects[0] {
        Effect::Spawn { tab, pane, mode, commands, cwd, host } => {
            assert_eq!((*tab, *pane, *mode), (0, 0, TerminalMode::Block));
            assert_eq!(commands.as_deref(), Some("ls"));
            assert_eq!((cwd, host), (&None, &None));
        }
        other => panic!("unexpected: {other:?}"),
    }
    assert!(has(&effects, |e| matches!(e, Effect::ShowTab(0))));
    assert!(matches!(effects.last(), Some(Effect::RebuildStrip)));
}

#[test]
fn tabs_are_closed_and_the_window_with_the_last() {
    let mut w = window(3);
    assert_eq!(w.active, 2);
    w.update(Msg::ForceCloseTab(2), &settings(), &[]);
    assert_eq!((ids(&w), w.active), (vec![0, 1], 1));
    w.update(Msg::ForceCloseTab(0), &settings(), &[]);
    assert_eq!((ids(&w), w.active), (vec![1], 0));
    let effects = w.update(Msg::ForceCloseTab(1), &settings(), &[]);
    assert!(w.tabs.is_empty());
    assert!(matches!(effects.last(), Some(Effect::Quit)));
    assert!(w.update(Msg::ForceCloseTab(1), &settings(), &[]).is_empty());
}

#[test]
fn running_commands_are_asked_for() {
    let mut w = window(1);
    let running = vec![(0, "ssh h".to_string())];
    let effects = w.update(Msg::CloseTab(0), &settings(), &running);
    assert!(matches!(&effects[0], Effect::ConfirmCloseTab(0, c) if c == "ssh h"));
    assert_eq!(w.tabs.len(), 1);
    act(&mut w, Action::SplitVertical);
    let effects = w.update(
        Msg::Action(Action::ClosePaneOrTab),
        &settings(),
        &[(1, "docker exec c".to_string())],
    );
    assert!(matches!(&effects[0], Effect::ConfirmClosePane(1, c) if c == "docker exec c"));
}

#[test]
fn tabs_are_switched_round() {
    let mut w = window(3);
    act(&mut w, Action::NextTab);
    assert_eq!(w.active, 0);
    act(&mut w, Action::PrevTab);
    assert_eq!(w.active, 2);
    act(&mut w, Action::QuickSwitchTab(1));
    assert_eq!(w.active, 1);
    act(&mut w, Action::QuickSwitchTab(9));
    assert_eq!(w.active, 2);
    act(&mut w, Action::QuickSwitchTab(5));
    assert_eq!(w.active, 2);
}

#[test]
fn tabs_move() {
    let mut w = window(3);
    assert!(act(&mut w, Action::MoveTabRight).is_empty());
    act(&mut w, Action::MoveTabLeft);
    assert_eq!((ids(&w), w.active), (vec![0, 2, 1], 1));
    act(&mut w, Action::MoveTabRight);
    assert_eq!((ids(&w), w.active), (vec![0, 1, 2], 2));
}

#[test]
fn reordering_keeps_the_active_tab() {
    let mut w = window(4);
    w.update(Msg::SelectTab(1), &settings(), &[]);
    w.update(Msg::ReorderTab(3, 0), &settings(), &[]);
    assert_eq!((ids(&w), w.active), (vec![3, 0, 1, 2], 2));
    w.update(Msg::ReorderTab(3, 99), &settings(), &[]);
    assert_eq!((ids(&w), w.active), (vec![0, 1, 2, 3], 1));
    assert!(w.update(Msg::ReorderTab(3, 3), &settings(), &[]).is_empty());
}

#[test]
fn marked_tabs_are_closed_together() {
    let mut w = window(3);
    w.tabs[0].marked = true;
    w.tabs[2].marked = true;
    act(&mut w, Action::CloseSelectedTabs);
    assert_eq!(ids(&w), vec![1]);
}

#[test]
fn duplicates_inherit() {
    let mut w = window(1);
    w.update(Msg::PaneCwdChanged(0, 0, "/srv/app".to_string()), &settings(), &[]);
    assert_eq!(w.tabs[0].title, "/s/app");
    w.update(Msg::RenameTab(0, "  mine ".to_string()), &settings(), &[]);
    let effects = act(&mut w, Action::DuplicateTab);
    assert_eq!(w.tabs[1].title, "mine");
    assert!(w.tabs[1].custom_title);
    assert!(matches!(&effects[0], Effect::Spawn { cwd: Some(d), .. } if d == "/srv/app"));
    w.update(Msg::RenameTab(0, "  ".to_string()), &settings(), &[]);
    assert_eq!(w.tabs[0].title, "/s/app");
    assert!(!w.tabs[0].custom_title);
}

#[test]
fn remote_tabs() {
    let mut w = window(1);
    let effects = act(&mut w, Action::ConnectRemote(0));
    assert_eq!(w.tabs[1].title, "build");
    assert!(matches!(&effects[0], Effect::Spawn { host: Some(0), mode: TerminalMode::Vte, .. }));
    assert!(act(&mut w, Action::ConnectRemote(7)).is_empty());
}

fn leaves(t: &Tree) -> Vec<u64> {
    match t {
        Tree::Leaf(p) => vec![*p],
        Tree::Split { start, end, .. } => [leaves(start), leaves(end)].concat(),
    }
}

#[test]
fn panes_are_split_and_closed() {
    let mut w = window(1);
    let effects = act(&mut w, Action::SplitHorizontal);
    assert!(matches!(&effects[0], Effect::Spawn { pane: 1, mode: TerminalMode::Vte, .. }));
    act(&mut w, Action::SplitVertical);
    assert_eq!(leaves(&w.tabs[0].tree), vec![0, 1, 2]);
    assert_eq!(w.tabs[0].active_pane, 2);
    let effects = w.update(Msg::PaneExited(0, 1), &settings(), &[]);
    assert_eq!(leaves(&w.tabs[0].tree), vec![0, 2]);
    assert_eq!(w.tabs[0].active_pane, 1);
    assert!(matches!(effects.last(), Some(Effect::DropPane(1))));
    w.update(Msg::ForceClosePane(2), &settings(), &[]);
    assert_eq!(leaves(&w.tabs[0].tree), vec![0]);
    let effects = w.update(Msg::PaneExited(0, 0), &settings(), &[]);
    assert!(matches!(effects.last(), Some(Effect::Quit)));
}

#[test]
fn focus_cycles() {
    let mut w = window(1);
    assert!(act(&mut w, Action::CyclePaneFocusForward).is_empty());
    act(&mut w, Action::SplitHorizontal);
    act(&mut w, Action::CyclePaneFocusForward);
    assert_eq!(w.tabs[0].active_pane, 0);
    let effects = act(&mut w, Action::CyclePaneFocusBackward);
    assert_eq!(w.tabs[0].active_pane, 1);
    assert!(matches!(&effects[0], Effect::Send(1, Input::GrabFocus)));
    w.update(Msg::PaneFocused(0, 0), &settings(), &[]);
    assert_eq!(w.tabs[0].active_pane, 0);
    w.update(Msg::FocusPane(1), &settings(), &[]);
    assert_eq!(w.tabs[0].active_pane, 1);
    assert!(matches!(act(&mut w, Action::FocusPaneLeft)[0], Effect::FocusTowards(Direction::Left)));
}

#[test]
fn zooming_keeps_the_tree() {
    let mut w = window(1);
    assert!(act(&mut w, Action::TogglePaneZoom).is_empty());
    act(&mut w, Action::SplitHorizontal);
    act(&mut w, Action::TogglePaneZoom);
    assert_eq!(w.tabs[0].zoom, Some(1));
    assert!(act(&mut w, Action::SplitHorizontal).is_empty());
    assert!(act(&mut w, Action::MovePaneToNewTab).is_empty());
    assert!(act(&mut w, Action::ResizePaneRight).is_empty());
    act(&mut w, Action::TogglePaneZoom);
    assert_eq!(w.tabs[0].zoom, None);
    assert_eq!(leaves(&w.tabs[0].tree), vec![0, 1]);
}

fn position(t: &Tree) -> i32 {
    match t {
        Tree::Split { position, .. } => *position,
        Tree::Leaf(_) => -1,
    }
}

#[test]
fn splits_are_resized() {
    let mut w = window(1);
    act(&mut w, Action::SplitHorizontal);
    w.note_positions(0, &[100]);
    act(&mut w, Action::ResizePaneRight);
    assert_eq!(position(&w.tabs[0].tree), 140);
    for _ in 0..5 {
        act(&mut w, Action::ResizePaneLeft);
    }
    assert_eq!(position(&w.tabs[0].tree), 0);
    assert!(act(&mut w, Action::ResizePaneUp).is_empty());
}

#[test]
fn panes_move_to_their_own_tab() {
    let mut w = window(1);
    act(&mut w, Action::SplitHorizontal);
    w.update(Msg::PaneCwdChanged(0, 1, "/srv".to_string()), &settings(), &[]);
    act(&mut w, Action::MovePaneToNewTab);
    assert_eq!(ids(&w), vec![0, 1]);
    assert_eq!(leaves(&w.tabs[0].tree), vec![0]);
    assert_eq!(leaves(&w.tabs[1].tree), vec![1]);
    assert_eq!((w.active, w.tabs[1].title.as_str()), (1, "/srv"));
}

#[test]
fn marks_show_on_tabs_out_of_sight() {
    let mut w = window(2);
    assert!(w.update(Msg::Bell(1), &settings(), &[]).is_empty());
    w.update(Msg::Bell(0), &settings(), &[]);
    w.update(Msg::Activity(0), &settings(), &[]);
    assert!(w.tabs[0].bell && w.tabs[0].activity);
    assert!(w.update(Msg::Activity(0), &settings(), &[]).is_empty());
    w.update(Msg::SelectTab(0), &settings(), &[]);
    assert!(!w.tabs[0].bell && !w.tabs[0].activity);
}

#[test]
fn searching() {
    assert_eq!(search_query("/a.b/"), ("a.b".to_string(), true));
    assert_eq!(search_query("//"), ("//".to_string(), false));
    assert_eq!(search_query("a/"), ("a/".to_string(), false));
    let mut w = window(1);
    act(&mut w, Action::ToggleSearch);
    assert!(w.search_open);
    let effects = w.update(Msg::SearchChanged("/x/".to_string()), &settings(), &[]);
    assert!(matches!(&effects[0], Effect::Send(0, Input::SearchSet(q, true)) if q == "x"));
    let effects = w.update(Msg::SearchChanged(String::new()), &settings(), &[]);
    assert!(matches!(&effects[0], Effect::Send(0, Input::SearchClear)));
    let effects = w.update(Msg::SearchClose, &settings(), &[]);
    assert!(!w.search_open);
    assert_eq!(effects.len(), 3);
}

#[test]
fn files_are_typed_quoted() {
    let mut w = window(1);
    let effects = w.update(Msg::FileTreeActivateFile("/a b".to_string()), &settings(), &[]);
    assert!(matches!(&effects[0], Effect::Send(0, Input::WriteInput(t)) if t == "'/a b' "));
}

#[test]
fn the_sidebar_opens_for_its_filter() {
    let mut w = window(1);
    act(&mut w, Action::ToggleSidebar);
    assert!(!w.sidebar_visible);
    let effects = act(&mut w, Action::FilterTabs);
    assert!(w.sidebar_visible);
    assert_eq!(effects.len(), 2);
    assert_eq!(act(&mut w, Action::FilterTabs).len(), 1);
}

#[test]
fn the_strip_is_filtered() {
    let mut w = window(2);
    w.update(Msg::RenameTab(0, "Build".to_string()), &settings(), &[]);
    w.update(Msg::SetTabFilter("UIL".to_string()), &settings(), &[]);
    let rows = w.strip_rows();
    assert_eq!(rows.len(), 1);
    assert_eq!((rows[0].index, rows[0].title.as_str(), rows[0].active), (0, "Build", false));
    w.update(Msg::SetTabFilter(String::new()), &settings(), &[]);
    assert_eq!(w.strip_rows().len(), 2);
}

#[test]
fn menus_act_on_their_tab() {
    let mut w = window(2);
    assert_eq!(MenuChoice::Mark.label(false), "Mark Important");
    assert_eq!(MenuChoice::Mark.label(true), "Unmark");
    for msg in MenuChoice::Mark.messages(0) {
        w.update(msg, &settings(), &[]);
    }
    assert!(w.tabs[0].marked && !w.tabs[1].marked);
    assert!(MenuChoice::Rename.messages(0).is_empty());
}

#[test]
fn debug_facts() {
    let mut w = window(2);
    act(&mut w, Action::SplitHorizontal);
    let facts = w.session_facts();
    let values: Vec<&str> = facts.iter().map(|f| f.1.as_str()).collect();
    assert_eq!(values, vec!["2", "3", "~", "2", "false"]);
    let config = DebugConfig {
        theme: "dark".to_string(),
        font: "Mono 12".to_string(),
        font_scale: "1.000".to_string(),
        opacity: "0.90".to_string(),
        terminal_mode: TerminalMode::Vte,
        scrollback: 5000,
        keybindings: 40,
        remote_hosts: 1,
        startup_commands: None,
    };
    let info = w.debug_info_snapshot(&config);
    let sections: Vec<&str> = info.iter().map(|s| s.0.as_str()).collect();
    assert_eq!(sections, vec!["Session", "Appearance", "Config"]);
    assert_eq!(info[1].1[4], ("Terminal mode".to_string(), "vte".to_string()));
    assert_eq!(info[1].1[5], ("Scrollback".to_string(), "5000".to_string()));
    assert_eq!(info[2].1[2], ("Startup commands".to_string(), String::new()));
}

#[test]
fn reports_become_messages() {
    assert!(matches!(forward(VteOutput::Exited(1), 2, 3), Msg::PaneExited(2, 3)));
    assert!(matches!(forward(VteOutput::Bell, 2, 3), Msg::Bell(2)));
    assert!(matches!(forward(VteOutput::CommandFinished(true), 2, 3), Msg::Ignore));
}

fn leaf(mode: &str, cwd: Option<&str>, cmds: Option<&str>) -> Box<PaneLayout> {
    Box::new(PaneLayout::Leaf {
        mode: mode.to_string(),
        cwd: cwd.map(|s| s.to_string()),
        cmds: cmds.map(|s| s.to_string()),
    })
}

#[test]
fn sessions_come_back() {
    let saved = SavedSession {
        active: 1,
        tabs: vec![
            SavedTab { title: "one".to_string(), custom_title: true, layout: *leaf("block", None, None) },
            SavedTab {
                title: "two".to_string(),
                custom_title: false,
                layout: PaneLayout::Split {
                    orientation: 'v',
                    position: 120,
                    start: leaf("vte", Some("/a"), Some("ssh h")),
                    end: leaf("block", None, None),
                },
            },
        ],
    };
    assert!(saved.is_worth_keeping());
    let (w, effects) = Workspace::open_window(Some(&saved), &settings());
    assert_eq!((w.tabs.len(), w.active, w.next_pane_id), (2, 1, 3));
    assert!(has(&effects, |e| matches!(e,
        Effect::Spawn { pane: 1, commands: Some(c), mode: TerminalMode::Vte, .. } if c == "ssh h")));
    let again = w.snapshot_session(&[(1, "ssh h".to_string())]);
    assert_eq!(format!("{again:?}"), format!("{saved:?}"));
}

#[test]
fn empty_sessions_are_not_kept() {
    let empty = SavedSession { active: 0, tabs: Vec::new() };
    assert!(!empty.is_worth_keeping());
    assert!(empty.if_worth_restoring().is_none());
    assert_eq!(PaneLayout::terminal_mode("vte"), TerminalMode::Vte);
    assert_eq!(PaneLayout::terminal_mode("other"), TerminalMode::Block);
    assert_eq!(TerminalMode::Block.name(), "block");
}

#[test]
fn trees_collapse_where_they_grew() {
    let tree = Tree::Leaf(1).split(1, 2, Orientation::Vertical).split(2, 3, Orientation::Horizontal);
    assert_eq!(leaves(&tree), vec![1, 2, 3]);
    assert!(tree.has(3) && !tree.has(4));
    let tree = tree.remove(3).unwrap();
    assert_eq!(leaves(&tree), vec![1, 2]);
    assert!(Tree::Leaf(1).remove(1).is_none());
}

#[test]
fn settings_reach_every_pane() {
    let mut w = window(2);
    act(&mut w, Action::SplitHorizontal);
    let effects = w.update(Msg::SettingsTheme(1), &settings(), &[]);
    assert!(matches!(effects[0], Effect::UseTheme(1)));
    let told: Vec<u64> = effects
        .iter()
        .filter_map(|e| match e {
            Effect::Send(pane, Input::ApplyTheme) => Some(*pane),
            _ => None,
        })
        .collect();
    assert_eq!(told, vec![0, 1, 2]);
    assert!(matches!(effects.last(), Some(Effect::SaveConfig)));
    assert!(w.update(Msg::SettingsTheme(2), &settings(), &[]).is_empty());
    assert_eq!(act(&mut w, Action::FontIncrease).len(), 4);
    assert_eq!(w.update(Msg::SettingsScrollback(9), &settings(), &[]).len(), 5);
    let effects = w.update(Msg::SettingsFontDesc("F 9".to_string()), &settings(), &[]);
    assert!(matches!(&effects[1], Effect::Send(0, Input::SetFont(f)) if f == "F 9"));
    assert_eq!(w.update(Msg::ConfigLoaded("F 9".to_string(), 9), &settings(), &[]).len(), 13);
}

#[test]
fn snapshots_mark_splits_by_letter() {
    let mut w = window(1);
    act(&mut w, Action::SplitHorizontal);
    act(&mut w, Action::SplitVertical);
    let text = format!("{:?}", w.snapshot_session(&[]));
    assert_eq!(text.matches("orientation: 'h'").count(), 1);
    assert_eq!(text.matches("orientation: 'v'").count(), 1);
    // A letter that is neither stands for left and right.
    let saved = SavedSession {
        active: 0,
        tabs: vec![SavedTab {
            title: "t".to_string(),
            custom_title: false,
            layout: PaneLayout::Split {
                orientation: 'x',
                position: 7,
                start: leaf("vte", None, None),
                end: leaf("vte", None, None),
            },
        }],
    };
    let (w, _) = Workspace::open_window(Some(&saved), &settings());
    assert!(format!("{:?}", w.snapshot_session(&[])).contains("orientation: 'h', position: 7"));
}

#[test]
fn duplicates_keep_the_mode() {
    let saved = SavedSession {
        active: 0,
        tabs: vec![SavedTab {
            title: "t".to_string(),
            custom_title: true,
            layout: *leaf("vte", Some("/srv"), None),
        }],
    };
    let (mut w, _) = Workspace::open_window(Some(&saved), &settings());
    assert_eq!(settings().terminal_mode, TerminalMode::Block);
    let effects = act(&mut w, Action::DuplicateTab);
    assert!(matches!(&effects[0],
        Effect::Spawn { mode: TerminalMode::Vte, cwd: Some(d), .. } if d == "/srv"));
    assert_eq!(w.tabs[1].panes[0].mode, TerminalMode::Vte);
}
