use jterm1::terminal::select::{get_semantic_bounds_at_position, semantic_span, span_among};
use jterm1::terminal::url::{
    click_action, get_osc8_bounds_at_position, get_url_at_position, get_url_bounds_at_position,
    hover_span, is_url, osc8_tag_name, ClickAction, TagSpan,
};

#[test]
fn urls_are_told_by_their_scheme() {
    assert!(is_url("https://example.org"));
    assert!(is_url("file:///tmp/x"));
    assert!(!is_url("example.org"));
}

#[test]
fn urls_are_found_around_a_position() {
    let line = "see https://example.org/a now";
    let found = get_url_bounds_at_position(line, 10, true);
    assert!(found.is_some());
    assert!(get_url_bounds_at_position(line, 1, true).is_none());
    assert_eq!(
        get_url_at_position(&[], line, 10, true).as_deref(),
        Some("https://example.org/a")
    );
}

#[test]
fn link_tags_win() {
    let tag = osc8_tag_name("http://t");
    assert_eq!(
        get_url_at_position(&[tag.clone()], "plain", 0, true).as_deref(),
        Some("http://t")
    );
    let spans = vec![
        TagSpan { name: "bold".to_string(), start: 0, end: 9 },
        TagSpan { name: tag, start: 2, end: 6 },
    ];
    assert_eq!(get_osc8_bounds_at_position(&spans), Some((2, 6, "http://t".to_string())));
    assert_eq!(get_osc8_bounds_at_position(&spans[..1]), None);
}

#[test]
fn clicks_open_or_select() {
    let url = Some("http://x".to_string());
    assert!(matches!(click_action(1, true, url, None), ClickAction::Open(u) if u == "http://x"));
    assert!(matches!(click_action(2, false, None, Some((1, 4))), ClickAction::Select(1, 4)));
    assert!(matches!(click_action(1, false, None, None), ClickAction::Deny));
    assert_eq!(hover_span(Some((1, 2)), None), Some((1, 2)));
    assert_eq!(hover_span(None, None), None);
}

#[test]
fn tokens_are_selected_whole() {
    let line = "at src/main.rs:12 on 10.0.0.1";
    let (a, b) = semantic_span(line, 6).unwrap();
    let token: String = line.chars().skip(a).take(b - a).collect();
    assert!(token.contains("src/main.rs"));
    let (a, b) = semantic_span(line, 23).unwrap();
    let token: String = line.chars().skip(a).take(b - a).collect();
    assert_eq!(token, "10.0.0.1");
    assert_eq!(semantic_span("", 0), None);
    assert_eq!(
        get_semantic_bounds_at_position(100, line, 23),
        Some((100 + a, 100 + b))
    );
}

#[test]
fn the_token_under_the_click_is_picked() {
    assert_eq!(span_among("abcdef", 3, &[Some((0, 2)), None, Some((2, 5))]), Some((2, 5)));
    assert_eq!(span_among("abcdef", 5, &[Some((0, 2)), None]), None);
}
