use jterm1::parser::{
    base64_decode, percent_decode, MouseEncoding, MouseMode, Parser, ParserEvent,
};

fn collect_bytes(events: &[ParserEvent]) -> Vec<u8> {
    let mut out = Vec::new();
    for e in events {
        if let ParserEvent::Bytes(b) = e {
            out.extend_from_slice(b);
        }
    }
    out
}

#[test]
fn csi_not_split_across_feeds() {
    let mut p = Parser::new();
    let mut events = Vec::new();
    p.feed(b"\x1b[3", &mut events);
    p.feed(b"1m", &mut events);
    let bytes_events: Vec<&Vec<u8>> = events
        .iter()
        .filter_map(|e| match e {
            ParserEvent::Bytes(b) => Some(b),
            _ => None,
        })
        .collect();
    assert_eq!(bytes_events.len(), 1, "CSI must not be split into pieces");
    assert_eq!(bytes_events[0].as_slice(), b"\x1b[31m");
}

#[test]
fn alt_screen_enter_leave_emitted_and_stripped() {
    let mut p = Parser::new();
    let mut events = Vec::new();
    p.feed(b"\x1b[?1049h\x1b[?1049l", &mut events);
    assert!(matches!(events[0], ParserEvent::AltScreenEnter));
    assert!(matches!(events[1], ParserEvent::AltScreenLeave));
    assert!(collect_bytes(&events).is_empty());
}

#[test]
fn osc133_command_lifecycle() {
    let mut p = Parser::new();
    let mut events = Vec::new();
    p.feed(b"\x1b]133;A\x07\x1b]133;C\x07\x1b]133;D;0\x07", &mut events);
    let kinds: Vec<_> = events
        .iter()
        .map(|e| match e {
            ParserEvent::PromptStart => "A",
            ParserEvent::CommandStart => "C",
            ParserEvent::CommandEnd(_) => "D",
            _ => "?",
        })
        .collect();
    assert_eq!(kinds, vec!["A", "C", "D"]);
}

fn feed_all(pieces: &[&[u8]]) -> (Parser, Vec<ParserEvent>) {
    let mut p = Parser::new();
    let mut events = Vec::new();
    for piece in pieces {
        p.feed(piece, &mut events);
    }
    (p, events)
}

#[test]
fn boundaries_between_feeds_do_not_matter() {
    let stream: &[u8] = b"ab\x1b]7;file://host/tmp/a%20b\x07cd\x1b[?1049hx";
    let (_, whole) = feed_all(&[stream]);
    for cut in 0..stream.len() {
        let (_, parts) = feed_all(&[&stream[..cut], &stream[cut..]]);
        assert_eq!(collect_bytes(&parts), collect_bytes(&whole));
        let cwd = parts.iter().any(|e| matches!(e, ParserEvent::CwdUpdate(p) if p == "/tmp/a b"));
        assert!(cwd);
    }
}

#[test]
fn exit_codes_are_read() {
    let (_, events) = feed_all(&[b"\x1b]133;D;130\x1b\\"]);
    assert!(matches!(events[0], ParserEvent::CommandEnd(130)));
}

#[test]
fn clipboard_content_is_decoded() {
    let (_, events) = feed_all(&[b"\x1b]52;c;aGVsbG8=\x07"]);
    assert!(matches!(&events[0], ParserEvent::ClipboardSet(t) if t == "hello"));
}

#[test]
fn device_strings_are_swallowed() {
    let (_, events) = feed_all(&[b"a\x1bPq#payload\x1b\\b"]);
    assert_eq!(collect_bytes(&events), b"ab");
}

#[test]
fn graphics_sequences_are_handed_on() {
    let (_, events) = feed_all(&[b"\x1b_Ga=T;AAAA\x1b\\"]);
    assert!(matches!(&events[0], ParserEvent::ApcSequence(b) if b == b"Ga=T;AAAA"));
}

#[test]
fn modes_follow_their_switches() {
    let (p, _) = feed_all(&[b"\x1b[?2004h\x1b[?1000h\x1b[?1006h\x1b[?1004h"]);
    assert!(p.bracketed_paste());
    assert_eq!(p.mouse_mode(), MouseMode::Normal);
    assert_eq!(p.mouse_encoding(), MouseEncoding::Sgr);
    assert!(p.focus_events());
    let (p, _) = feed_all(&[b"\x1b[?2004h\x1b[?2004l\x1b[?1003h\x1b[?1000h"]);
    assert!(!p.bracketed_paste());
    assert_eq!(p.mouse_mode(), MouseMode::AnyEvent);
    let (p, _) = feed_all(&[b""]);
    assert_eq!(p.mouse_mode(), MouseMode::Off);
    assert_eq!(p.mouse_encoding(), MouseEncoding::Default);
}

#[test]
fn percent_signs_are_decoded() {
    assert_eq!(percent_decode("/a%20b%2Fc"), "/a b/c");
    assert_eq!(percent_decode("100%"), "100%");
}

#[test]
fn base64_is_decoded() {
    assert_eq!(base64_decode(b"Zm9vYg==").unwrap(), b"foob");
    assert!(base64_decode(b"!").is_err());
}

#[test]
fn calls_only_append_to_the_events() {
    let mut p = Parser::new();
    let mut events = vec![ParserEvent::PromptEnd];
    p.feed(b"", &mut events);
    assert_eq!(events.len(), 1);
    p.feed(b"plain", &mut events);
    assert_eq!(events.len(), 2);
    assert!(matches!(events[0], ParserEvent::PromptEnd));
    assert!(matches!(&events[1], ParserEvent::Bytes(b) if b == b"plain"));
}

#[test]
fn encodings_are_switched_independently() {
    let (p, _) = feed_all(&[b"\x1b[?1006h\x1b[?1015h\x1b[?1006l"]);
    assert_eq!(p.mouse_encoding(), MouseEncoding::Urxvt);
    let (p, _) = feed_all(&[b"\x1b[?1006h\x1b[?1015h\x1b[?1015l"]);
    assert_eq!(p.mouse_encoding(), MouseEncoding::Default);
}
