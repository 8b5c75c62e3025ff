//! Minimal AI client for the terminal-side helpers (per-block error
//! explanation, session Q&A panel, `?` palette prefix).
//!
//! Detection prefers Anthropic → OpenAI → Ollama (local fallback). What is sent
//! to a provider and what is made of its answer is decided here; the transfer
//! itself is the caller's.

use vstd::prelude::*;
use vstd::slice::slice_subrange;

use crate::agent::elide_middle;
use crate::json::{
    push_quoted, read_complaint, read_field, read_listed_field, read_listed_nested_field,
    read_nested_field,
};
use crate::text::{
    ascii_lowercase, chars_of, count_within, is_text, offset_of, push_decimal, push_signed,
    push_text, text_of,
};

verus! {

/// Default cap on response tokens for any AI call.
pub const MAX_TOKENS: u32 = 600;

/// The beginning of the agent's system prompt, up to the working directory.
pub const AGENT_INTRO: &'static str = "You are an interactive shell agent helping the user in their terminal. Each reply MUST be a \
single JSON object — no prose, no markdown fences, no commentary. Schema:\n{ \"thought\": \
\"...\", \"action\": \"run\"|\"say\"|\"done\", \"command\": \"...\", \"message\": \"...\" \
}\n- `action: run` means the user must approve a shell command. Put the command in \
`command`. Use this for anything that changes filesystem, network, or state. Do not chain \
unrelated steps with `;` or `&&` — one command per turn so the user can review each.\n- \
`action: say` means you need a clarifying answer from the user, or want to comment without \
running a command. Put the text in `message`.\n- `action: done` means the task is complete. \
Put a short summary in `message`.\nThe user runs the command after approving it; you then \
receive an `Output (exit=N):` block in the next turn and can decide what to do next. Prefer \
the smallest command that yields the information you need. Never assume a command succeeded \
— wait for the observation.\n\nEnvironment:\ncwd: ";

/// The end of the agent's system prompt: examples of the three actions.
pub const AGENT_EXAMPLES: &'static str = "\n\nExamples (single-line for clarity — actual replies should still be valid JSON):\nUser: \
my disk is full, what's eating space?\nAssistant: {\"thought\":\"survey top-level usage \
first\",\"action\":\"run\",\"command\":\"du -sh /* 2>/dev/null | sort -h | tail \
-20\"}\nOutput (exit=0): 12G /var\\n8.4G /home\\n…\nAssistant: {\"thought\":\"/var is \
biggest, drill into it\",\"action\":\"run\",\"command\":\"du -sh /var/* 2>/dev/null | sort \
-h | tail -10\"}\n\nUser: rename all .txt to .md in this folder\nAssistant: \
{\"action\":\"run\",\"command\":\"for f in *.txt; do mv -- \\\"$f\\\" \\\"${f%.txt}.md\\\"; \
done\"}\n\nUser: is port 5432 free?\nAssistant: {\"action\":\"run\",\"command\":\"ss -tlnp \
| grep ':5432' || echo free\"}\nOutput (exit=0): free\nAssistant: \
{\"action\":\"done\",\"message\":\"Port 5432 is free.\"}\n";

/// The system prompt for explaining a failed command.
pub const EXPLAIN_SYSTEM: &'static str = "You are a senior shell user helping debug a failed command. Read the command, its output, \
and its exit code. Reply with:\n1. One short sentence on what went wrong.\n2. A single \
concrete fix (one shell command or one config change).\nBe terse. No markdown headers. No \
filler. If the error is ambiguous, say so.";

/// The system prompt for turning a request into a command.
pub const COMMAND_SYSTEM: &'static str = "You convert natural language requests into one shell command. Output ONLY the command, no \
markdown, no quotes, no explanation. If the request is ambiguous, output the safest \
interpretation.";

/// The system prompt of the session panel.
pub const SESSION_SYSTEM: &'static str = "You are a terminal assistant. Answer the user's question concisely. If shell context is \
attached, use it. No filler, no markdown headers.";

#[derive(Clone, Copy, Debug, PartialEq, Eq, Structural)]
pub enum Provider {
    Anthropic,
    OpenAI,
    Ollama,
}

/// All the knobs that the AI helpers need to make one HTTP call.
#[derive(Debug)]
pub struct AiClient {
    pub provider: Provider,
    pub api_key: Option<String>,
    pub model: String,
    pub base_url: String,
}

/// The values of the environment variables that choose and configure a
/// provider; `None` for a variable that is not set.
#[derive(Debug)]
pub struct EnvVars {
    /// `JTERM1_AI_PROVIDER`
    pub provider: Option<String>,
    /// `ANTHROPIC_API_KEY`
    pub anthropic_key: Option<String>,
    /// `OPENAI_API_KEY`
    pub openai_key: Option<String>,
    /// `JTERM1_AI_MODEL`
    pub model: Option<String>,
    /// `JTERM1_AI_BASE_URL`
    pub base_url: Option<String>,
}

/// The words for Anthropic's models, which the caller's configuration gives. The
/// library fixes none of them.
#[derive(Debug)]
pub struct AnthropicNames {
    /// Another word for the provider in `JTERM1_AI_PROVIDER`, in lower case;
    /// empty where there is none.
    pub alias: String,
    /// What the status text calls the provider.
    pub label: String,
    /// The model to use where none is chosen.
    pub default_model: String,
}

// ---------------------------------------------------------------------------
// Detection
// ---------------------------------------------------------------------------

/// A variable is set and not empty.
pub open spec fn is_given(v: Option<String>) -> bool {
    v matches Some(s) && s@.len() > 0
}

/// The provider: an explicit choice, else the first with a key, else the local
/// one.
pub open spec fn chosen(vars: EnvVars, names: AnthropicNames) -> Provider {
    let forced = match vars.provider {
        Some(p) => crate::text::ascii_lowered(p@),
        None => seq![],
    };
    if vars.provider is Some && (forced == "anthropic"@ || (names.alias@.len() > 0 && forced
        == names.alias@)) {
        Provider::Anthropic
    } else if vars.provider is Some && forced == "openai"@ {
        Provider::OpenAI
    } else if vars.provider is Some && forced == "ollama"@ {
        Provider::Ollama
    } else if is_given(vars.anthropic_key) {
        Provider::Anthropic
    } else if is_given(vars.openai_key) {
        Provider::OpenAI
    } else {
        Provider::Ollama
    }
}

/// The key for a provider.
pub open spec fn key_for(vars: EnvVars, p: Provider) -> Option<String> {
    match p {
        Provider::Anthropic => vars.anthropic_key,
        Provider::OpenAI => vars.openai_key,
        Provider::Ollama => None,
    }
}

/// The model of a provider where none is chosen.
pub open spec fn default_model(p: Provider, names: AnthropicNames) -> Seq<char> {
    match p {
        Provider::Anthropic => names.default_model@,
        Provider::OpenAI => "gpt-4o-mini"@,
        Provider::Ollama => "codellama:7b"@,
    }
}

/// The address of a provider where none is chosen.
pub open spec fn default_url(p: Provider) -> Seq<char> {
    match p {
        Provider::Anthropic => "https://api.anthropic.com"@,
        Provider::OpenAI => "https://api.openai.com/v1"@,
        Provider::Ollama => "http://localhost:11434"@,
    }
}

/// A value, or what stands for it where it is not given.
pub open spec fn or_text(v: Option<String>, default: Seq<char>) -> Seq<char> {
    match v {
        Some(s) => s@,
        None => default,
    }
}

fn given(v: &Option<String>) -> (res: bool)
    ensures
        res == is_given(*v),
{
    match v {
        Some(s) => chars_of(s.as_str()).len() > 0,
        None => false,
    }
}

fn choose_provider(vars: &EnvVars, names: &AnthropicNames) -> (res: Provider)
    ensures
        res == chosen(*vars, *names),
{
    if let Some(p) = &vars.provider {
        let lower: Vec<char> = ascii_lowercase(chars_of(p.as_str()).as_slice());
        if is_text(lower.as_slice(), "anthropic") || (lower.len() > 0 && is_text(
            lower.as_slice(),
            names.alias.as_str(),
        )) {
            return Provider::Anthropic;
        }
        if is_text(lower.as_slice(), "openai") {
            return Provider::OpenAI;
        }
        if is_text(lower.as_slice(), "ollama") {
            return Provider::Ollama;
        }
    }
    if given(&vars.anthropic_key) {
        Provider::Anthropic
    } else if given(&vars.openai_key) {
        Provider::OpenAI
    } else {
        Provider::Ollama
    }
}

fn text_or(v: Option<String>, default: &str) -> (res: String)
    ensures
        res@ == or_text(v, default@),
{
    match v {
        Some(s) => s,
        None => default.to_owned(),
    }
}

impl AiClient {
    /// Looks at the environment and returns a configured client when a
    /// provider looks usable: one that needs a key must have one. Ollama needs
    /// none.
    pub fn from_env(vars: EnvVars, names: &AnthropicNames) -> (res: Option<AiClient>)
        ensures
            res is Some <==> (chosen(vars, *names) == Provider::Ollama || is_given(
                key_for(vars, chosen(vars, *names)),
            )),
            res matches Some(c) ==> {
                &&& c.provider == chosen(vars, *names)
                &&& c.api_key == key_for(vars, chosen(vars, *names))
                &&& c.model@ == or_text(vars.model, default_model(chosen(vars, *names), *names))
                &&& c.base_url@ == or_text(vars.base_url, default_url(chosen(vars, *names)))
            },
    {
        let provider: Provider = choose_provider(&vars, names);
        match provider {
            Provider::Anthropic => {
                if !given(&vars.anthropic_key) {
                    return None;
                }
                Some(
                    AiClient {
                        provider,
                        api_key: vars.anthropic_key,
                        model: text_or(vars.model, names.default_model.as_str()),
                        base_url: text_or(vars.base_url, "https://api.anthropic.com"),
                    },
                )
            },
            Provider::OpenAI => {
                if !given(&vars.openai_key) {
                    return None;
                }
                Some(
                    AiClient {
                        provider,
                        api_key: vars.openai_key,
                        model: text_or(vars.model, "gpt-4o-mini"),
                        base_url: text_or(vars.base_url, "https://api.openai.com/v1"),
                    },
                )
            },
            Provider::Ollama => Some(
                AiClient {
                    provider,
                    api_key: None,
                    model: text_or(vars.model, "codellama:7b"),
                    base_url: text_or(vars.base_url, "http://localhost:11434"),
                },
            ),
        }
    }

    /// Short human label for status text.
    pub fn display_name(&self, names: &AnthropicNames) -> (res: String)
        ensures
            res@ == (match self.provider {
                Provider::Anthropic => names.label@,
                Provider::OpenAI => "OpenAI"@,
                Provider::Ollama => "Ollama"@,
            }) + " · "@ + self.model@,
    {
        let mut out: String = match self.provider {
            Provider::Anthropic => names.label.as_str().to_owned(),
            Provider::OpenAI => "OpenAI".to_owned(),
            Provider::Ollama => "Ollama".to_owned(),
        };
        out.push_str(" · ");
        out.push_str(self.model.as_str());
        out
    }
}

// ---------------------------------------------------------------------------
// Requests
// ---------------------------------------------------------------------------

/// One HTTP request to a provider.
#[derive(Debug)]
pub struct HttpRequest {
    pub url: String,
    /// The headers besides the content type.
    pub headers: Vec<(String, String)>,
    pub body: String,
}

/// A JSON object of a role and a content.
pub open spec fn message_json(role: Seq<char>, content: Seq<char>) -> Seq<char> {
    "{\"content\":"@ + crate::json::quoted(content) + ",\"role\":"@ + crate::json::quoted(role)
        + "}"@
}

/// The address to which a request goes.
pub open spec fn request_url(p: Provider, base: Seq<char>) -> Seq<char> {
    match p {
        Provider::Anthropic => base + "/v1/messages"@,
        Provider::OpenAI => base + "/chat/completions"@,
        Provider::Ollama => base + "/api/generate"@,
    }
}

/// The JSON body of a request; the keys of an object stand in alphabetical
/// order.
pub open spec fn request_body(
    p: Provider,
    model: Seq<char>,
    system: Seq<char>,
    user: Seq<char>,
) -> Seq<char> {
    let cap = crate::text::decimal(MAX_TOKENS as nat);
    match p {
        Provider::Anthropic => "{\"max_tokens\":"@ + cap + ",\"messages\":["@ + message_json(
            "user"@,
            user,
        ) + "],\"model\":"@ + crate::json::quoted(model) + ",\"system\":"@ + crate::json::quoted(
            system,
        ) + "}"@,
        Provider::OpenAI => "{\"max_tokens\":"@ + cap + ",\"messages\":["@ + message_json(
            "system"@,
            system,
        ) + ","@ + message_json("user"@, user) + "],\"model\":"@ + crate::json::quoted(model)
            + "}"@,
        Provider::Ollama => "{\"model\":"@ + crate::json::quoted(model)
            + ",\"options\":{\"num_predict\":"@ + cap + "},\"prompt\":"@ + crate::json::quoted(
            user,
        ) + ",\"stream\":false,\"system\":"@ + crate::json::quoted(system) + "}"@,
    }
}

/// The headers of a request.
pub open spec fn request_headers(p: Provider, key: Option<String>) -> Seq<(Seq<char>, Seq<char>)> {
    match p {
        Provider::Anthropic => seq![("anthropic-version"@, "2023-06-01"@)] + (match key {
            Some(k) => seq![("x-api-key"@, k@)],
            None => seq![],
        }),
        Provider::OpenAI => match key {
            Some(k) => seq![("Authorization"@, "Bearer "@ + k@)],
            None => seq![],
        },
        Provider::Ollama => seq![],
    }
}

/// The values of a list of headers.
pub open spec fn header_views(h: Seq<(String, String)>) -> Seq<(Seq<char>, Seq<char>)> {
    Seq::new(h.len(), |i: int| (h[i].0@, h[i].1@))
}

fn push_message(out: &mut Vec<char>, role: &str, content: &str)
    ensures
        final(out)@ == old(out)@ + message_json(role@, content@),
{
    push_text(out, "{\"content\":");
    push_quoted(out, content);
    push_text(out, ",\"role\":");
    push_quoted(out, role);
    push_text(out, "}");
    assert(out@ =~= old(out)@ + message_json(role@, content@));
}

fn write_body(p: Provider, model: &str, system: &str, user: &str) -> (res: String)
    ensures
        res@ == request_body(p, model@, system@, user@),
{
    let mut out: Vec<char> = Vec::new();
    match p {
        Provider::Anthropic => {
            push_text(&mut out, "{\"max_tokens\":");
            push_decimal(&mut out, MAX_TOKENS as u64);
            push_text(&mut out, ",\"messages\":[");
            push_message(&mut out, "user", user);
            push_text(&mut out, "],\"model\":");
            push_quoted(&mut out, model);
            push_text(&mut out, ",\"system\":");
            push_quoted(&mut out, system);
            push_text(&mut out, "}");
        },
        Provider::OpenAI => {
            push_text(&mut out, "{\"max_tokens\":");
            push_decimal(&mut out, MAX_TOKENS as u64);
            push_text(&mut out, ",\"messages\":[");
            push_message(&mut out, "system", system);
            push_text(&mut out, ",");
            push_message(&mut out, "user", user);
            push_text(&mut out, "],\"model\":");
            push_quoted(&mut out, model);
            push_text(&mut out, "}");
        },
        Provider::Ollama => {
            push_text(&mut out, "{\"model\":");
            push_quoted(&mut out, model);
            push_text(&mut out, ",\"options\":{\"num_predict\":");
            push_decimal(&mut out, MAX_TOKENS as u64);
            push_text(&mut out, "},\"prompt\":");
            push_quoted(&mut out, user);
            push_text(&mut out, ",\"stream\":false,\"system\":");
            push_quoted(&mut out, system);
            push_text(&mut out, "}");
        },
    }
    assert(out@ =~= request_body(p, model@, system@, user@));
    text_of(out.as_slice())
}

fn write_headers(client: &AiClient) -> (res: Vec<(String, String)>)
    ensures
        header_views(res@) == request_headers(client.provider, client.api_key),
{
    let mut out: Vec<(String, String)> = Vec::new();
    match client.provider {
        Provider::Anthropic => {
            out.push(("anthropic-version".to_owned(), "2023-06-01".to_owned()));
            if let Some(k) = &client.api_key {
                out.push(("x-api-key".to_owned(), k.clone()));
            }
        },
        Provider::OpenAI => {
            if let Some(k) = &client.api_key {
                let mut bearer: String = "Bearer ".to_owned();
                bearer.push_str(k.as_str());
                out.push(("Authorization".to_owned(), bearer));
            }
        },
        Provider::Ollama => {},
    }
    assert(header_views(out@) =~= request_headers(client.provider, client.api_key));
    out
}

/// The request that puts a prompt to the configured provider.
pub fn build_request(client: &AiClient, system: &str, user: &str) -> (res: HttpRequest)
    ensures
        res.url@ == request_url(client.provider, client.base_url@),
        header_views(res.headers@) == request_headers(client.provider, client.api_key),
        res.body@ == request_body(client.provider, client.model@, system@, user@),
{
    let mut url: String = client.base_url.clone();
    match client.provider {
        Provider::Anthropic => url.push_str("/v1/messages"),
        Provider::OpenAI => url.push_str("/chat/completions"),
        Provider::Ollama => url.push_str("/api/generate"),
    }
    HttpRequest {
        url,
        headers: write_headers(client),
        body: write_body(client.provider, client.model.as_str(), system, user),
    }
}

/// The message for a transfer that failed.
pub fn request_failed(p: Provider, why: &str) -> (res: String)
    ensures
        res@ == (match p {
            Provider::Anthropic => "anthropic request failed: "@,
            Provider::OpenAI => "openai request failed: "@,
            Provider::Ollama => "ollama request failed (is `ollama serve` running?): "@,
        }) + why@,
{
    let mut out: String = match p {
        Provider::Anthropic => "anthropic request failed: ".to_owned(),
        Provider::OpenAI => "openai request failed: ".to_owned(),
        Provider::Ollama => "ollama request failed (is `ollama serve` running?): ".to_owned(),
    };
    out.push_str(why);
    out
}

// ---------------------------------------------------------------------------
// Answers
// ---------------------------------------------------------------------------

/// The first 256 bytes of a text, cut between characters.
pub open spec fn log_excerpt(s: Seq<char>) -> Seq<char> {
    if crate::text::byte_len(s) <= 256 {
        s
    } else {
        crate::agent::head_part(s, 256)  + "…"@
    }
}

fn trim_for_log(s: &str) -> (res: String)
    ensures
        res@ == log_excerpt(s@),
{
    let chars: Vec<char> = chars_of(s);
    if offset_of(chars.as_slice(), chars.len()) <= 256 {
        return text_of(chars.as_slice());
    }
    let n: usize = count_within(chars.as_slice(), 256);
    let head = slice_subrange(chars.as_slice(), 0, n);
    assert(head@ =~= crate::agent::head_part(s@, 256));
    let mut out: String = text_of(head);
    out.push_str("…");
    out
}

/// The message for an answer that is not understood.
pub open spec fn unexpected(p: Provider, text: Seq<char>) -> Seq<char> {
    (match p {
        Provider::Anthropic => "unexpected anthropic response: "@,
        Provider::OpenAI => "unexpected openai response: "@,
        Provider::Ollama => "unexpected ollama response: "@,
    }) + log_excerpt(text)
}

/// What an answer says, given the content and the error message that were
/// found in it.
pub open spec fn verdict(
    p: Provider,
    text: Seq<char>,
    content: Option<Seq<char>>,
    error: Option<Seq<char>>,
) -> Result<Seq<char>, Seq<char>> {
    match content {
        Some(s) => Ok(s),
        None => match error {
            Some(e) => Err(e),
            None => Err(unexpected(p, text)),
        },
    }
}

/// The values of an answer.
pub open spec fn answer_view(r: Result<String, String>) -> Result<Seq<char>, Seq<char>> {
    match r {
        Ok(s) => Ok(s@),
        Err(e) => Err(e@),
    }
}

/// The content of an answer, at the place where the provider puts it.
pub open spec fn content_of(p: Provider, text: Seq<char>) -> Option<Option<Seq<char>>> {
    match p {
        Provider::Anthropic => crate::json::listed_field(text, "content"@, "text"@),
        Provider::OpenAI => crate::json::listed_nested_field(
            text,
            "choices"@,
            "message"@,
            "content"@,
        ),
        Provider::Ollama => crate::json::field(text, "response"@),
    }
}

/// The error message of an answer.
pub open spec fn error_of(p: Provider, text: Seq<char>) -> Option<Option<Seq<char>>> {
    match p {
        Provider::Ollama => crate::json::field(text, "error"@),
        _ => crate::json::nested_field(text, "error"@, "message"@),
    }
}

/// The value found, if the field was there and held one.
pub open spec fn flat_found(v: Option<Option<Seq<char>>>) -> Option<Seq<char>> {
    match v {
        Some(Some(s)) => Some(s),
        _ => None,
    }
}

/// What an answer says.
pub open spec fn answer_of(p: Provider, text: Seq<char>) -> Result<Seq<char>, Seq<char>> {
    match crate::json::complaint(text) {
        Some(e) => Err("parse: "@ + e),
        None => verdict(p, text, flat_found(content_of(p, text)), flat_found(error_of(p, text))),
    }
}

/// What an answer says, given the content and the error message found in it.
pub fn judge_answer(p: Provider, text: &str, content: Option<String>, error: Option<String>) -> (res:
    Result<String, String>)
    ensures
        answer_view(res) == verdict(
            p,
            text@,
            crate::text::optional_string(content),
            crate::text::optional_string(error),
        ),
{
    match content {
        Some(s) => Ok(s),
        None => match error {
            Some(e) => Err(e),
            None => {
                let mut out: String = match p {
                    Provider::Anthropic => "unexpected anthropic response: ".to_owned(),
                    Provider::OpenAI => "unexpected openai response: ".to_owned(),
                    Provider::Ollama => "unexpected ollama response: ".to_owned(),
                };
                out.push_str(trim_for_log(text).as_str());
                Err(out)
            },
        },
    }
}

fn flatten(v: Option<Option<String>>) -> (res: Option<String>)
    ensures
        crate::text::optional_string(res) == flat_found(crate::json::found_view(v)),
{
    match v {
        Some(Some(s)) => Some(s),
        _ => None,
    }
}

/// Reads the body of a provider's answer.
pub fn read_answer(p: Provider, text: &str) -> (res: Result<String, String>)
    ensures
        answer_view(res) == answer_of(p, text@),
{
    if let Some(e) = read_complaint(text) {
        let mut out: String = "parse: ".to_owned();
        out.push_str(e.as_str());
        return Err(out);
    }
    let content: Option<Option<String>> = match p {
        Provider::Anthropic => read_listed_field(text, "content", "text"),
        Provider::OpenAI => read_listed_nested_field(text, "choices", "message", "content"),
        Provider::Ollama => read_field(text, "response"),
    };
    let error: Option<Option<String>> = match p {
        Provider::Anthropic => read_nested_field(text, "error", "message"),
        Provider::OpenAI => read_nested_field(text, "error", "message"),
        Provider::Ollama => read_field(text, "error"),
    };
    judge_answer(p, text, flatten(content), flatten(error))
}

// ---------------------------------------------------------------------------
// Prompts
// ---------------------------------------------------------------------------

/// The text, or its head and tail if it has more than `max` bytes, with the
/// number of bytes that were left out in between.
pub open spec fn sampled(s: Seq<char>, max: nat) -> Seq<char> {
    crate::agent::elided(s, max)
}

/// Bounded output sample for prompts: head + tail, cut between characters, so
/// a long build log still fits without dropping the failing tail.
pub fn sample_output(output: &str, max_bytes: usize) -> (res: String)
    ensures
        res@ == sampled(output@, max_bytes as nat),
{
    elide_middle(output, max_bytes)
}

/// Builds the system and user prompt for "explain why this failed and how to
/// fix it".
pub fn build_explain_prompt(command: &str, output: &str, exit_code: i32, cwd: &str) -> (res: (
    String,
    String,
))
    ensures
        res.0@ == EXPLAIN_SYSTEM@,
        res.1@ == "cwd: "@ + cwd@ + "\nexit: "@ + crate::text::signed_decimal(exit_code as int)
            + "\ncommand:\n"@ + command@ + "\n\noutput:\n"@ + sampled(output@, 8 * 1024),
{
    let mut out: Vec<char> = Vec::new();
    push_text(&mut out, "cwd: ");
    push_text(&mut out, cwd);
    push_text(&mut out, "\nexit: ");
    push_signed(&mut out, exit_code);
    push_text(&mut out, "\ncommand:\n");
    push_text(&mut out, command);
    push_text(&mut out, "\n\noutput:\n");
    push_text(&mut out, sample_output(output, 8 * 1024).as_str());
    assert(out@ =~= "cwd: "@ + cwd@ + "\nexit: "@ + crate::text::signed_decimal(exit_code as int)
        + "\ncommand:\n"@ + command@ + "\n\noutput:\n"@ + sampled(output@, 8 * 1024));
    (EXPLAIN_SYSTEM.to_owned(), text_of(out.as_slice()))
}

/// Builds the system and user prompt for the `?` palette: natural language to
/// one shell command.
pub fn build_nl_to_cmd_prompt(query: &str, cwd: &str) -> (res: (String, String))
    ensures
        res.0@ == COMMAND_SYSTEM@,
        res.1@ == "cwd: "@ + cwd@ + "\nrequest: "@ + query@,
{
    let mut user: String = "cwd: ".to_owned();
    user.push_str(cwd);
    user.push_str("\nrequest: ");
    user.push_str(query);
    (COMMAND_SYSTEM.to_owned(), user)
}

/// Builds the system prompt for agent mode.
pub fn build_agent_system_prompt(cwd: &str, shell: &str, os: &str) -> (res: String)
    ensures
        res@ == AGENT_INTRO@ + cwd@ + "\nshell: "@ + shell@ + "\nos: "@ + os@ + AGENT_EXAMPLES@,
{
    let mut out: String = AGENT_INTRO.to_owned();
    out.push_str(cwd);
    out.push_str("\nshell: ");
    out.push_str(shell);
    out.push_str("\nos: ");
    out.push_str(os);
    out.push_str(AGENT_EXAMPLES);
    out
}

/// Builds the system and user prompt for the session panel, optionally seeded
/// with the most recent block.
pub fn build_session_prompt(question: &str, context: Option<&str>) -> (res: (String, String))
    ensures
        res.0@ == SESSION_SYSTEM@,
        res.1@ == (match context {
            Some(c) => "Recent shell context:\n"@ + c@ + "\n\nQuestion: "@ + question@,
            None => "Question: "@ + question@,
        }),
{
    let mut user: String = String::new();
    match context {
        Some(c) => {
            user.push_str("Recent shell context:\n");
            user.push_str(c);
            user.push_str("\n\nQuestion: ");
        },
        None => user.push_str("Question: "),
    }
    user.push_str(question);
    proof {
        match context {
            Some(c) => {
                assert(user@ =~= "Recent shell context:\n"@ + c@ + "\n\nQuestion: "@ + question@);
            },
            None => {
                assert(user@ =~= "Question: "@ + question@);
            },
        }
    }
    (SESSION_SYSTEM.to_owned(), user)
}

/// A sample of a text that is too long is its beginning, a mark and its end.
/// The beginning and the end have at most half of the allowance each, and the
/// mark tells how many bytes stood between them.
pub proof fn samples_are_bounded(s: Seq<char>, max: nat)
    requires
        crate::text::byte_len(s) > max,
    ensures
        ({
            let head = crate::agent::head_part(s, max / 2);
            let tail = crate::agent::tail_part(s, (crate::text::byte_len(s) - max / 2) as nat);
            let gone = crate::text::byte_len(s) - crate::text::byte_len(head)
                - crate::text::byte_len(tail);
            &&& head == s.take(head.len() as int)
            &&& tail == s.skip(s.len() - tail.len())
            &&& crate::text::byte_len(head) <= max / 2
            &&& crate::text::byte_len(tail) <= max / 2
            &&& gone > 0
            &&& sampled(s, max) == head + crate::agent::elision_mark(gone as nat) + tail
        }),
{
    crate::agent::elision_is_bounded(s, max);
    let total = crate::text::byte_len(s);
    crate::agent::lemma_before(s, (total - max / 2) as nat, s.len() as int);
    let head = crate::agent::head_part(s, max / 2);
    let tail = crate::agent::tail_part(s, (total - max / 2) as nat);
    crate::agent::lemma_within_bound(s, max / 2, s.len() as int);
    assert(head =~= s.take(head.len() as int));
    assert(tail =~= s.skip(s.len() - tail.len()));
}

} // verus!
