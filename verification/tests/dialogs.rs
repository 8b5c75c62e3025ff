use jterm1::action::Action;
use jterm1::dialogs::{
    confirm_close_body, connect_action, first_visible, font_description, glib_escape, list_step,
    palette_placeholder, palette_title, row_texts, selected_index, sort_families, theme_index,
    visible_hosts, FamilyName, ListKey, ListStep, RemoteHost,
};
use jterm1::terminal::ansi::Rgb;
use jterm1::theme::dynamic_css;
use jterm1::palette::{Accept, Entry, PaletteMode};

fn names(words: &[&str]) -> Vec<String> {
    words.iter().map(|w| w.to_string()).collect()
}

fn host(name: &str, host: &str, user: Option<&str>) -> RemoteHost {
    RemoteHost {
        name: name.to_string(),
        host: host.to_string(),
        user: user.map(|u| u.to_string()),
    }
}

#[test]
fn markup_is_escaped() {
    assert_eq!(glib_escape("a<b> & &lt;"), "a&lt;b&gt; &amp; &amp;lt;");
    assert_eq!(glib_escape("plain"), "plain");
}

#[test]
fn palettes_have_titles() {
    assert_eq!(palette_title(PaletteMode::All), "Palette");
    assert_eq!(palette_title(PaletteMode::Ai), "Ask AI");
    assert_eq!(palette_placeholder(PaletteMode::Ai), "Describe what you want…");
}

#[test]
fn rows_are_markup() {
    let entry = Entry {
        tier: 0,
        score: 0,
        label: "<x>".to_string(),
        sublabel: Some(String::new()),
        right: Some("<k>".to_string()),
        accept: Accept::AskAi(String::new()),
    };
    let row = row_texts(&entry);
    assert_eq!(row.title, "&lt;x&gt;");
    assert_eq!(row.subtitle, None);
    assert_eq!(row.right.as_deref(), Some("<k>"));
}

#[test]
fn keys_move_through_a_list() {
    let visible = [true, false, true, true];
    assert_eq!(list_step(ListKey::Down, None, &visible), ListStep::Select(0));
    assert_eq!(list_step(ListKey::Down, Some(0), &visible), ListStep::Select(2));
    assert_eq!(list_step(ListKey::Down, Some(3), &visible), ListStep::Stay);
    assert_eq!(list_step(ListKey::Up, Some(2), &visible), ListStep::Select(0));
    assert_eq!(list_step(ListKey::Up, Some(0), &visible), ListStep::Stay);
    assert_eq!(list_step(ListKey::Up, None, &visible), ListStep::Stay);
    assert_eq!(list_step(ListKey::Activate, Some(2), &visible), ListStep::Fire(2));
    assert_eq!(list_step(ListKey::Activate, None, &visible), ListStep::Stay);
    assert_eq!(list_step(ListKey::Close, None, &visible), ListStep::Close);
    assert_eq!(list_step(ListKey::Other, None, &visible), ListStep::Pass);
}

#[test]
fn hosts_are_searched() {
    let hosts = vec![host("Build", "b.example", Some("ci")), host("Web", "w.example", None)];
    assert_eq!(hosts[0].target(), "ci@b.example");
    assert_eq!(hosts[1].target(), "w.example");
    assert_eq!(visible_hosts(&hosts, ""), vec![true, true]);
    assert_eq!(visible_hosts(&hosts, "BUILD CI@"), vec![true, false]);
    assert_eq!(visible_hosts(&hosts, "w.ex"), vec![false, true]);
    assert_eq!(first_visible(&visible_hosts(&hosts, "w.ex")), Some(1));
    assert_eq!(first_visible(&visible_hosts(&hosts, "nothing")), None);
    assert_eq!(connect_action(1), Action::ConnectRemote(1));
    assert_eq!(connect_action(257), Action::ConnectRemote(257));
}

#[test]
fn closing_asks_with_the_command() {
    assert_eq!(
        confirm_close_body("ssh h"),
        "A process is still running here:\n\nssh h\n\nClose anyway?"
    );
}

#[test]
fn choices_are_found_by_name() {
    let list = names(&["a", "b"]);
    assert_eq!(selected_index(&list, "b"), 1);
    assert_eq!(selected_index(&list, "x"), 0);
    assert_eq!(theme_index(&list, "b"), Some(1));
    assert_eq!(theme_index(&list, "x"), Some(0));
    assert_eq!(theme_index(&[], "x"), None);
}

#[test]
fn fonts_are_offered_in_order() {
    let families = ["mono b", "Mono A", "Zed"]
        .iter()
        .map(|n| FamilyName { name: n.to_string() })
        .collect();
    let sorted: Vec<String> = sort_families(families).into_iter().map(|f| f.name).collect();
    assert_eq!(sorted, vec!["Mono A", "mono b", "Zed"]);
    assert_eq!(font_description(Some("Hack"), 12), "Hack 12");
    assert_eq!(font_description(None, 9), "Monospace 9");
}

#[test]
fn the_style_sheet_has_the_colours() {
    let css = dynamic_css(Rgb { r: 1, g: 20, b: 255 }, Rgb { r: 9, g: 8, b: 7 });
    assert!(css.starts_with(".terminal-box scrollbar { background-color: rgb(1,20,255); }\n"));
    assert!(css.contains(".terminal-box scrollbar slider { background-color: rgba(9,8,7,0.4); }"));
    assert!(css.ends_with(".tab-strip-btn:checked { color: rgb(9,8,7); }"));
}
