use jterm1::action::Action;
use jterm1::palette::{
    gather, history_sublabel, read_history, score_entry, shorten_path, Accept, BoundAction, Entry,
    HistoryItem, PaletteMode, Query,
};
use jterm1::workflows::Workflow;

fn actions() -> Vec<BoundAction> {
    [
        (Action::NewTab, "New Tab", "Ctrl+Shift+T"),
        (Action::CloseTab, "Close Tab", ""),
        (Action::ToggleSearch, "Find", "Ctrl+Shift+F"),
    ]
    .iter()
    .map(|(action, name, binding)| BoundAction {
        action: *action,
        name: name.to_string(),
        binding: binding.to_string(),
    })
    .collect()
}

fn item(command: &str, cwd: &str, exit_code: i32) -> HistoryItem {
    HistoryItem {
        command: command.to_string(),
        cwd: cwd.to_string(),
        exit_code,
        end_time_ms: None,
    }
}

fn query(mode: PaletteMode, text: &str) -> Query {
    Query { mode, text: text.to_string() }
}

fn labels(entries: &[Entry]) -> Vec<&str> {
    entries.iter().map(|e| e.label.as_str()).collect()
}

#[test]
fn prefix_overrides_default_mode() {
    let q = Query::parse(">tab", PaletteMode::History);
    assert_eq!(q.mode, PaletteMode::Commands);
    assert_eq!(q.text, "tab");

    let q = Query::parse("@git", PaletteMode::Commands);
    assert_eq!(q.mode, PaletteMode::History);
    assert_eq!(q.text, "git");

    let q = Query::parse("foo", PaletteMode::All);
    assert_eq!(q.mode, PaletteMode::All);
    assert_eq!(q.text, "foo");
}

#[test]
fn natural_language_has_a_prefix_too() {
    let q = Query::parse("  ?  find files", PaletteMode::All);
    assert_eq!(q.mode, PaletteMode::Ai);
    assert_eq!(q.text, "find files");
}

#[test]
fn empty_query_keeps_all_entries() {
    let entries = gather(
        &Query { mode: PaletteMode::Commands, text: String::new() },
        &actions(),
        &[],
        &[],
        None,
        100,
    );
    assert!(!entries.is_empty());
    assert!(entries.iter().all(|e| e.tier == 0));
    assert_eq!(entries.len(), 3);
    assert_eq!(entries[0].right.as_deref(), Some("Ctrl+Shift+T"));
    assert_eq!(entries[1].right, None);
}

#[test]
fn needles_pick_the_rows_that_hold_them() {
    let entries = gather(&query(PaletteMode::Commands, "ntb"), &actions(), &[], &[], None, 100);
    assert_eq!(labels(&entries), vec!["New Tab"]);
    assert!(matches!(entries[0].accept, Accept::Action(Action::NewTab)));
    assert!(entries[0].score >= 1000);
    // An upper-case letter asks for an exact match.
    let entries = gather(&query(PaletteMode::Commands, "NTB"), &actions(), &[], &[], None, 100);
    assert!(entries.is_empty());
}

#[test]
fn history_comes_latest_first() {
    let history = vec![item("git pull", "/srv", 1), item("git push", "/home/u/p", 0)];
    let entries =
        gather(&query(PaletteMode::History, ""), &actions(), &history, &[], Some("/home/u"), 100);
    assert_eq!(labels(&entries), vec!["git push", "git pull"]);
    assert_eq!(entries[0].score, 2);
    assert_eq!(entries[0].sublabel.as_deref(), Some("~/p"));
    assert_eq!(entries[1].sublabel.as_deref(), Some("/srv  · exit 1"));
    assert!(matches!(&entries[1].accept, Accept::TypeCommand(c) if c == "git pull"));
}

#[test]
fn actions_come_before_history() {
    let history = vec![item("new tab please", "", 0)];
    let entries = gather(&query(PaletteMode::All, "new"), &actions(), &history, &[], None, 100);
    assert_eq!(labels(&entries), vec!["New Tab", "new tab please"]);
    let entries = gather(&query(PaletteMode::All, "new"), &actions(), &history, &[], None, 1);
    assert_eq!(labels(&entries), vec!["New Tab"]);
}

#[test]
fn requests_make_one_row() {
    let entries = gather(&query(PaletteMode::Ai, "  "), &actions(), &[], &[], None, 5);
    assert_eq!(labels(&entries), vec!["Type a natural-language request after ?"]);
    assert!(matches!(&entries[0].accept, Accept::TypeCommand(c) if c.is_empty()));
    let entries = gather(&query(PaletteMode::Ai, "list"), &actions(), &[], &[], None, 5);
    assert_eq!(labels(&entries), vec!["Ask AI: list"]);
    assert_eq!(entries[0].score, i64::MAX);
    assert!(matches!(&entries[0].accept, Accept::AskAi(t) if t == "list"));
    assert!(gather(&query(PaletteMode::Ai, "list"), &actions(), &[], &[], None, 0).is_empty());
}

#[test]
fn scores_are_combined() {
    let entry = |score| Entry {
        tier: 0,
        score,
        label: String::new(),
        sublabel: None,
        right: None,
        accept: Accept::AskAi(String::new()),
    };
    assert_eq!(score_entry(entry(7), Some(3), Some(10)).unwrap().score, 5007);
    assert_eq!(score_entry(entry(7), Some(6), Some(10)).unwrap().score, 6007);
    assert_eq!(score_entry(entry(7), None, Some(-3)).unwrap().score, -993);
    assert_eq!(score_entry(entry(7), Some(i64::MAX), None).unwrap().score, i64::MAX);
    assert!(score_entry(entry(7), None, None).is_none());
}

#[test]
fn history_is_deduplicated() {
    let records = vec![
        Some(item("ls", "/a", 0)),
        None,
        Some(item("  ", "/a", 0)),
        Some(item("pwd", "/b", 0)),
        Some(item("ls", "/c", 2)),
    ];
    let items = read_history(records, 10);
    let seen: Vec<(&str, &str)> =
        items.iter().map(|h| (h.command.as_str(), h.cwd.as_str())).collect();
    assert_eq!(seen, vec![("pwd", "/b"), ("ls", "/c")]);
    let items = read_history(vec![Some(item("ls", "", 0)), Some(item("pwd", "", 0))], 10);
    let seen: Vec<&str> = items.iter().map(|h| h.command.as_str()).collect();
    assert_eq!(seen, vec!["ls", "pwd"]);
    let items = read_history(vec![Some(item("a", "", 0)), Some(item("b", "", 0))], 1);
    assert_eq!(items.len(), 1);
    assert_eq!(items[0].command, "b");
}

#[test]
fn paths_are_shortened() {
    assert_eq!(shorten_path("/home/u/x", Some("/home/u")), "~/x");
    assert_eq!(shorten_path("/srv", Some("/home/u")), "/srv");
    assert_eq!(shorten_path("", Some("")), "");
    assert_eq!(history_sublabel(&item("x", "/srv", -1), None), "/srv  · exit -1");
}

fn workflow(name: &str, description: &str, path: &str) -> Workflow {
    Workflow {
        name: name.to_string(),
        description: description.to_string(),
        command: "true".to_string(),
        tags: Vec::new(),
        args: Vec::new(),
        source_path: Some(path.to_string()),
    }
}

#[test]
fn workflows_have_a_mode_and_a_prefix() {
    let q = Query::parse(":deploy", PaletteMode::All);
    assert_eq!(q.mode, PaletteMode::Workflows);
    assert_eq!(q.text, "deploy");
    let flows = vec![workflow("Deploy", "push to prod", "/w/d.yaml"), workflow("New", "", "/w/n")];
    let history = vec![item("new", "", 0)];
    let q = query(PaletteMode::Workflows, "dep");
    let entries = gather(&q, &actions(), &history, &flows, None, 10);
    assert_eq!(labels(&entries), vec!["Deploy"]);
    assert_eq!(entries[0].sublabel.as_deref(), Some("push to prod"));
    assert!(matches!(&entries[0].accept, Accept::RunWorkflow(p) if p == "/w/d.yaml"));
    // Workflows are the third tier, behind actions and history.
    let entries = gather(&query(PaletteMode::All, "new"), &actions(), &history, &flows, None, 10);
    assert_eq!(labels(&entries), vec!["New Tab", "new", "New"]);
    assert_eq!(entries[2].tier, 2);
    assert_eq!(entries[2].sublabel, None);
    let entries =
        gather(&query(PaletteMode::History, "new"), &actions(), &history, &flows, None, 10);
    assert_eq!(labels(&entries), vec!["new"]);
}
