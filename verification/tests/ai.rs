use jterm1::ai::{
    build_agent_system_prompt, build_explain_prompt, build_nl_to_cmd_prompt, build_request,
    build_session_prompt, judge_answer, read_answer, request_failed, sample_output, AiClient,
    AnthropicNames, EnvVars, Provider,
};

fn names() -> AnthropicNames {
    AnthropicNames {
        alias: "other".to_string(),
        label: "Label".to_string(),
        default_model: "model-1".to_string(),
    }
}

fn no_vars() -> EnvVars {
    EnvVars { provider: None, anthropic_key: None, openai_key: None, model: None, base_url: None }
}

#[test]
fn sample_output_passes_through_small() {
    let s = "hi";
    assert_eq!(sample_output(s, 1000), s);
}

#[test]
fn sample_output_truncates_large_with_marker() {
    let big = "x".repeat(20_000);
    let s = sample_output(&big, 1000);
    assert!(s.len() < 1500);
    assert!(s.contains("elided"));
}

#[test]
fn explain_prompt_contains_command_and_exit() {
    let (sys, user) = build_explain_prompt("false", "out", 1, "/tmp");
    assert!(sys.to_lowercase().contains("debug"));
    assert!(user.contains("false"));
    assert!(user.contains("exit: 1"));
    assert!(user.contains("/tmp"));
}

#[test]
fn nl_to_cmd_prompt_emits_request() {
    let (_sys, user) = build_nl_to_cmd_prompt("list large files", "/var");
    assert!(user.contains("list large files"));
    assert!(user.contains("/var"));
}

#[test]
fn detection_prefers_anthropic_when_key_set() {
    let mut vars = no_vars();
    vars.provider = Some("ollama".to_string());
    let c = AiClient::from_env(vars, &names()).expect("ollama needs no key");
    assert_eq!(c.provider, Provider::Ollama);

    let mut vars = no_vars();
    vars.anthropic_key = Some("a".to_string());
    vars.openai_key = Some("b".to_string());
    let c = AiClient::from_env(vars, &names()).unwrap();
    assert_eq!(c.provider, Provider::Anthropic);
    assert_eq!(c.api_key.as_deref(), Some("a"));
    assert_eq!(c.model, "model-1");
    assert_eq!(c.base_url, "https://api.anthropic.com");
    assert_eq!(c.display_name(&names()), "Label · model-1");

    let mut vars = no_vars();
    vars.provider = Some("Other".to_string());
    vars.anthropic_key = Some("a".to_string());
    assert_eq!(AiClient::from_env(vars, &names()).unwrap().provider, Provider::Anthropic);
}

#[test]
fn an_unknown_choice_is_detected() {
    let mut unnamed = names();
    unnamed.alias = String::new();
    for (choice, names) in [("", names()), ("mine", names()), ("", unnamed)] {
        let mut vars = no_vars();
        vars.provider = Some(choice.to_string());
        vars.openai_key = Some("k".to_string());
        assert_eq!(AiClient::from_env(vars, &names).unwrap().provider, Provider::OpenAI);
    }
}

#[test]
fn a_chosen_provider_needs_its_key() {
    let mut vars = no_vars();
    vars.provider = Some("openai".to_string());
    assert!(AiClient::from_env(vars, &names()).is_none());
}

#[test]
fn bodies_are_json() {
    for name in ["anthropic", "openai", "ollama"] {
        let mut vars = no_vars();
        vars.provider = Some(name.to_string());
        vars.anthropic_key = Some("key".to_string());
        vars.openai_key = Some("key".to_string());
        vars.model = Some("m\"1".to_string());
        let client = AiClient::from_env(vars, &names()).unwrap();
        let request = build_request(&client, "sys\n\u{1}", "user \"q\" λ");
        let body: serde_json::Value = serde_json::from_str(&request.body).unwrap();
        assert_eq!(body["model"], "m\"1");
        if name == "ollama" {
            assert_eq!(body["prompt"], "user \"q\" λ");
            assert_eq!(body["system"], "sys\n\u{1}");
            assert_eq!(body["options"]["num_predict"], 600);
            assert_eq!(body["stream"], false);
            assert_eq!(request.url, "http://localhost:11434/api/generate");
        } else {
            let last = body["messages"].as_array().unwrap().last().unwrap();
            assert_eq!(last["role"], "user");
            assert_eq!(last["content"], "user \"q\" λ");
            assert_eq!(body["max_tokens"], 600);
        }
        // The text is the one that the JSON library itself writes.
        assert_eq!(serde_json::to_string(&body).unwrap(), request.body);
    }
}

#[test]
fn headers_carry_the_key() {
    let mut vars = no_vars();
    vars.openai_key = Some("k".to_string());
    let client = AiClient::from_env(vars, &names()).unwrap();
    let request = build_request(&client, "s", "u");
    assert!(request.headers.iter().any(|(_, v)| v == "Bearer k"));
    let mut vars = no_vars();
    vars.anthropic_key = Some("k".to_string());
    let client = AiClient::from_env(vars, &names()).unwrap();
    let request = build_request(&client, "s", "u");
    assert!(request.headers.iter().any(|(n, v)| n == "x-api-key" && v == "k"));
}

#[test]
fn answers_are_read() {
    assert_eq!(
        read_answer(Provider::Anthropic, r#"{"content":[{"text":"hi"}]}"#).unwrap(),
        "hi"
    );
    assert_eq!(
        read_answer(Provider::OpenAI, r#"{"choices":[{"message":{"content":" hi "}}]}"#).unwrap(),
        " hi "
    );
    assert_eq!(read_answer(Provider::Ollama, r#"{"response":"hi"}"#).unwrap(), "hi");
}

#[test]
fn reported_errors_are_passed_on() {
    assert_eq!(
        read_answer(Provider::Anthropic, r#"{"error":{"message":"no"}}"#).unwrap_err(),
        "no"
    );
    assert_eq!(
        read_answer(Provider::OpenAI, r#"{"error":{"message":"no"}}"#).unwrap_err(),
        "no"
    );
    assert_eq!(read_answer(Provider::Ollama, r#"{"error":"no"}"#).unwrap_err(), "no");
    assert_eq!(
        read_answer(Provider::Ollama, "{}").unwrap_err(),
        "unexpected ollama response: {}"
    );
    let long = format!("\"{}\"", "x".repeat(300));
    let err = read_answer(Provider::OpenAI, &long).unwrap_err();
    assert!(err.starts_with("unexpected openai response: \"xxx"));
    assert!(err.ends_with("x…"));
    assert!(read_answer(Provider::Ollama, "{").unwrap_err().starts_with("parse: "));
}

#[test]
fn broken_answers_are_reported() {
    for p in [Provider::Anthropic, Provider::OpenAI, Provider::Ollama] {
        assert!(read_answer(p, "not json").is_err());
        assert!(read_answer(p, "{}").is_err());
    }
    assert!(judge_answer(Provider::Ollama, "{}", None, None).is_err());
    assert_eq!(
        judge_answer(Provider::Ollama, "{}", Some("x".to_string()), None).unwrap(),
        "x"
    );
    assert!(request_failed(Provider::Ollama, "timed out").contains("timed out"));
}

#[test]
fn samples_keep_head_and_tail() {
    let text = format!("{}{}", "a".repeat(3000), "z".repeat(3000));
    let s = sample_output(&text, 1000);
    assert!(s.starts_with("aaa"));
    assert!(s.ends_with("zzz"));
    assert!(s.contains("[5000 bytes elided]"));
}

#[test]
fn samples_count_what_is_left_out() {
    assert_eq!(sample_output("ééé", 2), "\n\n… [6 bytes elided] …\n\n");
    assert_eq!(sample_output("abcdef", 3), "a\n\n… [4 bytes elided] …\n\nf");
}

#[test]
fn other_prompts_hold_their_context() {
    let p = build_agent_system_prompt("/work", "zsh", "linux");
    assert!(p.contains("/work") && p.contains("zsh") && p.contains("linux"));
    let (_, user) = build_session_prompt("why?", Some("ctx"));
    assert!(user.contains("why?") && user.contains("ctx"));
    let (_, user) = build_session_prompt("why?", None);
    assert!(user.contains("why?"));
}

#[test]
fn names_say_provider_and_model() {
    let mut vars = no_vars();
    vars.model = Some("llama".to_string());
    let client = AiClient::from_env(vars, &names()).unwrap();
    assert!(client.display_name(&names()).contains("llama"));
}
