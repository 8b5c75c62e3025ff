use jterm1::dialogs::{submit_workflow, workflow_fields, workflow_preview, workflow_title};
use jterm1::workflows::{
    accept, is_workflow_file, render, workflow_files, FileName, Workflow, WorkflowArg,
};

fn wf(name: &str, command: &str, args: &[(&str, Option<&str>)]) -> Workflow {
    Workflow {
        name: name.to_string(),
        description: String::new(),
        command: command.to_string(),
        tags: Vec::new(),
        args: args
            .iter()
            .map(|(n, d)| WorkflowArg {
                name: n.to_string(),
                description: String::new(),
                default: d.map(|s| s.to_string()),
            })
            .collect(),
        source_path: None,
    }
}

#[test]
fn render_substitutes_single_placeholder() {
    let w = wf("t", "git rebase -i {{target}}", &[("target", None)]);
    let mut v = Vec::new();
    v.push(("target".to_string(), "origin/main".to_string()));
    assert_eq!(render(&w, &v).unwrap(), "git rebase -i origin/main");
}

#[test]
fn render_uses_declared_default_when_value_missing() {
    let w = wf(
        "t",
        "echo {{greeting}} {{name}}",
        &[("greeting", Some("hi")), ("name", Some("world"))],
    );
    let v = Vec::new();
    assert_eq!(render(&w, &v).unwrap(), "echo hi world");
}

#[test]
fn render_reports_missing_placeholder() {
    let w = wf("t", "kill -9 {{pid}}", &[("pid", None)]);
    let v = Vec::new();
    let err = render(&w, &v).unwrap_err();
    assert!(err.contains("pid"), "got {err}");
}

#[test]
fn render_leaves_unterminated_braces_alone() {
    let w = wf("t", "echo {{not_closed", &[]);
    let v = Vec::new();
    // Without a closing `}}` we treat the rest as literal text rather than
    // erroring — keeps the failure mode predictable.
    assert_eq!(render(&w, &v).unwrap(), "echo {{not_closed");
}

#[test]
fn render_handles_multiple_occurrences_of_same_arg() {
    let w = wf("t", "cp {{f}} {{f}}.bak", &[("f", None)]);
    let mut v = Vec::new();
    v.push(("f".to_string(), "config.toml".to_string()));
    assert_eq!(render(&w, &v).unwrap(), "cp config.toml config.toml.bak");
}

#[test]
fn load_one_rejects_empty_command() {
    let err = accept(wf("X", "", &[]), "bad.yaml".to_string()).unwrap_err();
    assert!(err.contains("empty command"), "got {err}");
}

#[test]
fn accepted_workflows_know_their_file() {
    let w = accept(wf("A", "echo a", &[]), "/x/a.yaml".to_string()).unwrap();
    assert_eq!(w.source_path.as_deref(), Some("/x/a.yaml"));
    assert!(accept(wf("", "echo a", &[]), "a.yaml".to_string()).is_err());
}

#[test]
fn missing_values_are_listed() {
    let w = wf("t", "{{a}} {{b}} {{a}}", &[]);
    assert_eq!(render(&w, &[]).unwrap_err(), "missing values: a, b");
}

#[test]
fn text_around_placeholders_stays() {
    let w = wf("t", "écho {{ x }} → ü", &[]);
    let v = vec![("x".to_string(), "1".to_string())];
    assert_eq!(render(&w, &v).unwrap(), "écho 1 → ü");
}

#[test]
fn workflow_files_are_sorted() {
    assert!(is_workflow_file("a.yaml") && is_workflow_file("b.yml"));
    assert!(!is_workflow_file("a.txt"));
    let names = ["c.yml", "x.txt", "a.yaml"]
        .iter()
        .map(|n| FileName { name: n.to_string() })
        .collect();
    let sorted: Vec<String> = workflow_files(names).into_iter().map(|f| f.name).collect();
    assert_eq!(sorted, vec!["a.yaml", "c.yml"]);
}

#[test]
fn dialogs_fill_workflows_in() {
    let w = wf("A<b>", "echo {{x}} && {{y}}", &[("x", Some("1")), ("y", None)]);
    assert_eq!(workflow_title(&w), "Workflow: A<b>");
    assert_eq!(workflow_preview(&w), "<tt>echo {{x}} &amp;&amp; {{y}}</tt>");
    let fields = workflow_fields(&w);
    assert_eq!(fields.len(), 2);
    assert_eq!(fields[0].text, "1");
    assert_eq!(fields[1].text, "");
    assert_eq!(fields[0].subtitle, None);
    let texts = vec!["a".to_string(), "b".to_string()];
    assert_eq!(submit_workflow(&w, &texts).unwrap(), "echo a && b");
}
