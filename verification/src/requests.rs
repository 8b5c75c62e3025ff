//! What is asked of a model and what is made of its answer, told of the
//! settings, texts and answers themselves.

use vstd::prelude::*;

use crate::agent::Turn;
use crate::agent_panel::{AgentSession, Proposal};
use crate::ai::{AiClient, AnthropicNames, EnvVars, HttpRequest, Provider};

verus! {

/// A provider that is named is taken, in whatever case it is written. Where
/// none is, or none that is known, the keys decide, and without a key the one
/// that needs none is taken.
pub proof fn providers_are_chosen(vars: EnvVars, names: AnthropicNames, name: String)
    requires
        vars.provider == Some(name),
    ensures
        ({
            let lower = crate::text::ascii_lowered(name@);
            let unset = EnvVars { provider: None, ..vars };
            let first = vars.anthropic_key matches Some(k) && k@.len() > 0;
            let second = vars.openai_key matches Some(k) && k@.len() > 0;
            let by_key = if first {
                Provider::Anthropic
            } else if second {
                Provider::OpenAI
            } else {
                Provider::Ollama
            };
            &&& lower == "anthropic"@ ==> crate::ai::chosen(vars, names) == Provider::Anthropic
            &&& lower.len() > 0 && lower == names.alias@ ==> crate::ai::chosen(vars, names)
                == Provider::Anthropic
            &&& lower == "openai"@ && lower != names.alias@ ==> crate::ai::chosen(vars, names)
                == Provider::OpenAI
            &&& lower == "ollama"@ && lower != names.alias@ ==> crate::ai::chosen(vars, names)
                == Provider::Ollama
            &&& !seq!["anthropic"@, "openai"@, "ollama"@].contains(lower) && lower != names.alias@
                ==> crate::ai::chosen(vars, names) == by_key
            &&& crate::ai::chosen(unset, names) == by_key
        }),
{
    reveal_strlit("anthropic");
    reveal_strlit("openai");
    reveal_strlit("ollama");
    assert("anthropic"@.len() == 9);
    assert("openai"@[1] == 'p' && "ollama"@[1] == 'l');
    assert("openai"@.len() == 6 && "ollama"@.len() == 6);
    let known = seq!["anthropic"@, "openai"@, "ollama"@];
    assert(known[0] == "anthropic"@ && known[1] == "openai"@ && known[2] == "ollama"@);
}

/// A client uses the key of its provider, and the model and the address that
/// were set, or else the provider's own. There is none where the key is
/// missing that its provider needs.
pub proof fn clients_follow_the_settings(
    vars: EnvVars,
    names: &AnthropicNames,
    res: Option<AiClient>,
)
    requires
        call_ensures(AiClient::from_env, (vars, names), res),
    ensures
        ({
            let p = crate::ai::chosen(vars, *names);
            &&& p == Provider::Anthropic ==> (res is Some <==> (vars.anthropic_key matches Some(k)
                && k@.len() > 0))
            &&& p == Provider::OpenAI ==> (res is Some <==> (vars.openai_key matches Some(k)
                && k@.len() > 0))
            &&& p == Provider::Ollama ==> res is Some
            &&& res matches Some(c) ==> {
                &&& c.provider == p
                &&& p == Provider::Anthropic ==> c.api_key == vars.anthropic_key
                &&& p == Provider::OpenAI ==> c.api_key == vars.openai_key
                &&& p == Provider::Ollama ==> c.api_key is None
                &&& vars.model matches Some(m) ==> c.model@ == m@
                &&& vars.base_url matches Some(u) ==> c.base_url@ == u@
                &&& vars.model is None && p == Provider::Anthropic ==> c.model@
                    == names.default_model@
                &&& vars.model is None && p == Provider::OpenAI ==> c.model@ == "gpt-4o-mini"@
                &&& vars.model is None && p == Provider::Ollama ==> c.model@ == "codellama:7b"@
                &&& vars.base_url is None && p == Provider::Anthropic ==> c.base_url@
                    == "https://api.anthropic.com"@
                &&& vars.base_url is None && p == Provider::OpenAI ==> c.base_url@
                    == "https://api.openai.com/v1"@
                &&& vars.base_url is None && p == Provider::Ollama ==> c.base_url@
                    == "http://localhost:11434"@
            }
        }),
{
}

/// A request goes to the provider's address, with the key in the header that
/// the provider reads.
pub proof fn requests_carry_the_key(
    client: &AiClient,
    key: String,
    system: &str,
    user: &str,
    res: HttpRequest,
)
    requires
        call_ensures(crate::ai::build_request, (client, system, user), res),
        client.api_key == Some(key),
    ensures
        ({
            let headers = crate::ai::header_views(res.headers@);
            &&& client.provider == Provider::Anthropic ==> {
                &&& res.url@ == client.base_url@ + "/v1/messages"@
                &&& headers == seq![("anthropic-version"@, "2023-06-01"@), ("x-api-key"@, key@)]
            }
            &&& client.provider == Provider::OpenAI ==> {
                &&& res.url@ == client.base_url@ + "/chat/completions"@
                &&& headers == seq![("Authorization"@, "Bearer "@ + key@)]
            }
            &&& client.provider == Provider::Ollama ==> {
                &&& res.url@ == client.base_url@ + "/api/generate"@
                &&& headers.len() == 0
            }
        }),
{
    assert(seq![("anthropic-version"@, "2023-06-01"@)] + seq![("x-api-key"@, key@)] =~= seq![
        ("anthropic-version"@, "2023-06-01"@),
        ("x-api-key"@, key@),
    ]);
}

/// A text that is part of another.
pub open spec fn is_part(whole: Seq<char>, part: Seq<char>) -> bool {
    exists|a: Seq<char>, b: Seq<char>| whole == #[trigger] (a + part + b)
}

/// A request hands over the model's name, what the system says and what the
/// user says, each quoted and under its own key.
#[verifier::spinoff_prover]
pub proof fn requests_hand_over_the_texts(
    p: Provider,
    model: Seq<char>,
    system: Seq<char>,
    user: Seq<char>,
)
    ensures
        ({
            let body = crate::ai::request_body(p, model, system, user);
            let q = crate::json::quoted(user);
            let said = "{\"content\":"@ + q + ",\"role\":"@ + crate::json::quoted("user"@) + "}"@;
            let told = "{\"content\":"@ + crate::json::quoted(system) + ",\"role\":"@
                + crate::json::quoted("system"@) + "}"@;
            &&& is_part(body, "\"model\":"@ + crate::json::quoted(model))
            &&& p == Provider::Anthropic ==> is_part(body, "\"messages\":["@ + said + "]"@)
                && is_part(body, "\"system\":"@ + crate::json::quoted(system))
            &&& p == Provider::OpenAI ==> is_part(body, "\"messages\":["@ + told + ","@ + said + "]"@)
            &&& p == Provider::Ollama ==> is_part(body, "\"prompt\":"@ + q) && is_part(
                body,
                "\"system\":"@ + crate::json::quoted(system),
            )
        }),
{
    reveal_strlit("{\"max_tokens\":");
    reveal_strlit(",\"messages\":[");
    reveal_strlit("\"messages\":[");
    reveal_strlit("],\"model\":");
    reveal_strlit("\"model\":");
    reveal_strlit(",\"system\":");
    reveal_strlit("\"system\":");
    reveal_strlit("}");
    reveal_strlit("]");
    reveal_strlit("{\"model\":");
    reveal_strlit(",\"options\":{\"num_predict\":");
    reveal_strlit("},\"prompt\":");
    reveal_strlit("\"prompt\":");
    reveal_strlit(",\"stream\":false,\"system\":");
    let cap = crate::text::decimal(crate::ai::MAX_TOKENS as nat);
    let m = crate::json::quoted(model);
    let s = crate::json::quoted(system);
    let q = crate::json::quoted(user);
    let said = crate::ai::message_json("user"@, user);
    let told = crate::ai::message_json("system"@, system);
    let body = crate::ai::request_body(p, model, system, user);
    let c = seq![','];
    match p {
        Provider::Anthropic => {
            let a = "{\"max_tokens\":"@ + cap + c;
            let tail = "\"model\":"@ + m + ",\"system\":"@ + s + "}"@;
            assert(body =~= a + ("\"messages\":["@ + said + "]"@) + (c + tail));
            let front = a + "\"messages\":["@ + said + "]"@ + c;
            assert(body =~= front + ("\"model\":"@ + m) + (",\"system\":"@ + s + "}"@));
            assert(body =~= (front + "\"model\":"@ + m + c) + ("\"system\":"@ + s) + "}"@);
        },
        Provider::OpenAI => {
            let a = "{\"max_tokens\":"@ + cap + c;
            reveal_strlit(",");
            assert(body =~= a + ("\"messages\":["@ + told + ","@ + said + "]"@) + (c + "\"model\":"@
                + m + "}"@));
            let front = a + "\"messages\":["@ + told + ","@ + said + "]"@ + c;
            assert(body =~= front + ("\"model\":"@ + m) + "}"@);
        },
        Provider::Ollama => {
            let o = seq!['{'];
            let rest = ",\"options\":{\"num_predict\":"@ + cap + "},\"prompt\":"@ + q
                + ",\"stream\":false,\"system\":"@ + s + "}"@;
            assert(body =~= o + ("\"model\":"@ + m) + rest);
            let a = o + "\"model\":"@ + m + ",\"options\":{\"num_predict\":"@ + cap;
            let close = seq!['}', ','];
            assert(body =~= (a + close) + ("\"prompt\":"@ + q) + (",\"stream\":false,\"system\":"@
                + s + "}"@));
            reveal_strlit(",\"stream\":false,");
            assert(body =~= (a + close + "\"prompt\":"@ + q + ",\"stream\":false,"@) + (
            "\"system\":"@ + s) + "}"@);
        },
    }
}

/// What a model says is the answer; where it says nothing its error is, and
/// where there is neither the answer is told as unexpected.
pub proof fn answers_are_judged(
    p: Provider,
    text: Seq<char>,
    said: Seq<char>,
    wrong: Seq<char>,
    error: Option<Seq<char>>,
)
    ensures
        crate::ai::verdict(p, text, Some(said), error) == Ok::<Seq<char>, Seq<char>>(said),
        crate::ai::verdict(p, text, None, Some(wrong)) == Err::<Seq<char>, Seq<char>>(wrong),
        crate::text::byte_len(text) <= 256 ==> {
            &&& crate::ai::verdict(Provider::Anthropic, text, None, None) == Err::<
                Seq<char>,
                Seq<char>,
            >("unexpected anthropic response: "@ + text)
            &&& crate::ai::verdict(Provider::OpenAI, text, None, None) == Err::<
                Seq<char>,
                Seq<char>,
            >("unexpected openai response: "@ + text)
            &&& crate::ai::verdict(Provider::Ollama, text, None, None) == Err::<
                Seq<char>,
                Seq<char>,
            >("unexpected ollama response: "@ + text)
        },
{
}

/// Each provider's answer is read where it puts it; a text that is no answer
/// at all is refused.
pub proof fn answers_are_read(text: Seq<char>, said: Seq<char>, wrong: Seq<char>)
    ensures
        crate::json::complaint(text) is None ==> {
            &&& crate::json::listed_field(text, "content"@, "text"@) == Some(Some(said))
                ==> crate::ai::answer_of(Provider::Anthropic, text) == Ok::<Seq<char>, Seq<char>>(
                said,
            )
            &&& crate::json::listed_nested_field(text, "choices"@, "message"@, "content"@) == Some(
                Some(said),
            ) ==> crate::ai::answer_of(Provider::OpenAI, text) == Ok::<Seq<char>, Seq<char>>(said)
            &&& crate::json::field(text, "response"@) == Some(Some(said)) ==> crate::ai::answer_of(
                Provider::Ollama,
                text,
            ) == Ok::<Seq<char>, Seq<char>>(said)
            &&& crate::json::nested_field(text, "error"@, "message"@) == Some(Some(wrong)) ==> {
                &&& crate::json::listed_field(text, "content"@, "text"@) == Some(
                    None::<Seq<char>>,
                ) ==> crate::ai::answer_of(Provider::Anthropic, text) == Err::<
                    Seq<char>,
                    Seq<char>,
                >(wrong)
                &&& crate::json::listed_nested_field(text, "choices"@, "message"@, "content"@)
                    == Some(None::<Seq<char>>) ==> crate::ai::answer_of(Provider::OpenAI, text)
                    == Err::<Seq<char>, Seq<char>>(wrong)
            }
            &&& crate::json::field(text, "error"@) == Some(Some(wrong)) && crate::json::field(
                text,
                "response"@,
            ) == Some(None::<Seq<char>>) ==> crate::ai::answer_of(Provider::Ollama, text) == Err::<
                Seq<char>,
                Seq<char>,
            >(wrong)
        },
        crate::json::complaint(text) == Some(wrong) ==> forall|p: Provider| #[trigger]
            crate::ai::answer_of(p, text) == Err::<Seq<char>, Seq<char>>("parse: "@ + wrong),
{
}

/// Each question to a model holds what it is about, in its order.
pub proof fn questions_hold_their_subject(
    command: &str,
    output: &str,
    exit: i32,
    cwd: &str,
    shell: &str,
    os: &str,
    a: (String, String),
    b: (String, String),
    c: String,
    d: (String, String),
    e: (String, String),
)
    requires
        crate::text::byte_len(output@) <= 8192,
        call_ensures(crate::ai::build_explain_prompt, (command, output, exit, cwd), a),
        call_ensures(crate::ai::build_nl_to_cmd_prompt, (command, cwd), b),
        call_ensures(crate::ai::build_agent_system_prompt, (cwd, shell, os), c),
        call_ensures(crate::ai::build_session_prompt, (command, Some(output)), d),
        call_ensures(crate::ai::build_session_prompt, (command, None), e),
    ensures
        a.1@ == "cwd: "@ + cwd@ + "\nexit: "@ + crate::text::signed_decimal(exit as int)
            + "\ncommand:\n"@ + command@ + "\n\noutput:\n"@ + output@,
        b.1@ == "cwd: "@ + cwd@ + "\nrequest: "@ + command@,
        is_part(c@, cwd@ + "\nshell: "@ + shell@ + "\nos: "@ + os@),
        d.1@ == "Recent shell context:\n"@ + output@ + "\n\nQuestion: "@ + command@,
        e.1@ == "Question: "@ + command@,
{
    assert(c@ =~= crate::ai::AGENT_INTRO@ + (cwd@ + "\nshell: "@ + shell@ + "\nos: "@ + os@)
        + crate::ai::AGENT_EXAMPLES@);
}

/// A failed request is told with its provider, and a client with its model.
pub proof fn providers_are_named(
    client: &AiClient,
    names: &AnthropicNames,
    why: &str,
    a: String,
    b: String,
    c: String,
    d: String,
)
    requires
        call_ensures(AiClient::display_name, (client, names), a),
        call_ensures(crate::ai::request_failed, (Provider::Anthropic, why), b),
        call_ensures(crate::ai::request_failed, (Provider::OpenAI, why), c),
        call_ensures(crate::ai::request_failed, (Provider::Ollama, why), d),
    ensures
        client.provider == Provider::Anthropic ==> a@ == names.label@ + " · "@ + client.model@,
        client.provider == Provider::OpenAI ==> a@ == "OpenAI"@ + " · "@ + client.model@,
        client.provider == Provider::Ollama ==> a@ == "Ollama"@ + " · "@ + client.model@,
        b@ == "anthropic request failed: "@ + why@,
        c@ == "openai request failed: "@ + why@,
        d@ == "ollama request failed (is `ollama serve` running?): "@ + why@,
{
}

/// A command can be approved while nothing was decided and turns are left; the
/// button warns of a destructive one. What was decided is shown instead.
pub proof fn proposals_wait_for_approval(
    cmd: &str,
    sealed: bool,
    open: Proposal,
    ran: Proposal,
    rejected: Proposal,
)
    requires
        call_ensures(crate::agent_panel::proposal, (cmd, None, sealed), open),
        call_ensures(crate::agent_panel::proposal, (cmd, Some(true), sealed), ran),
        call_ensures(crate::agent_panel::proposal, (cmd, Some(false), sealed), rejected),
    ensures
        open.can_approve == !sealed,
        open.verdict is None,
        crate::agent::danger(cmd@) is None ==> crate::text::optional_text(open.approve) == Some(
            "Approve & Run"@,
        ) && open.warning is None,
        crate::agent::danger(cmd@) is Some ==> crate::text::optional_text(open.approve) == Some(
            "Approve & Run (destructive)"@,
        ) && open.warning is Some,
        !ran.can_approve && !rejected.can_approve,
        ran.approve is None && rejected.approve is None,
        crate::text::optional_text(ran.verdict) == Some("✓ ran"@),
        crate::text::optional_text(rejected.verdict) == Some("✗ rejected"@),
{
}

/// A conversation starts empty, bound to its pane, and with all its turns.
pub proof fn conversations_start_empty(tab: u64, pane: u64, res: AgentSession, status: String)
    requires
        call_ensures(AgentSession::new, (tab, pane), res),
        call_ensures(AgentSession::status, (&res,), status),
    ensures
        res.transcript@.len() == 0,
        res.bound_tab == tab && res.bound_pane == pane,
        !res.cancelled && !res.sealed,
        status@ == "turn "@ + seq!['0', '/', '1'],
{
    let none: Seq<char> = seq![];
    crate::cautions::the_panel_tells_its_state(1, 0, none, false);
}

/// The question to the model holds every turn in order, and the hint behind
/// them.
pub proof fn prompts_hold_every_turn(a: crate::agent::TurnView, b: crate::agent::TurnView)
    ensures
        crate::agent_panel::whole_prompt(seq![a, b]) == crate::agent::prompt_line(a) + "\n\n"@
            + crate::agent::prompt_line(b) + "\n\n"@ + crate::agent_panel::REPLY_HINT@,
        crate::agent_panel::whole_prompt(seq![]) == crate::agent_panel::REPLY_HINT@,
{
    let none: Seq<crate::agent::TurnView> = seq![];
    let hint = crate::agent_panel::REPLY_HINT@;
    let x = crate::agent::prompt_line(a);
    let y = crate::agent::prompt_line(b);
    assert(crate::agent_panel::prompt_lines(none).push(hint) =~= seq![hint]);
    assert(crate::agent_panel::prompt_lines(seq![a, b]).push(hint) =~= seq![x, y, hint]);
    assert(seq![x, y, hint].drop_last() =~= seq![x, y]);
    assert(seq![x, y].drop_last() =~= seq![x]);
    assert(crate::text::joined(seq![x], "\n\n"@) == x);
    assert(crate::text::joined(seq![x, y], "\n\n"@) == x + "\n\n"@ + y);
    assert(crate::text::joined(seq![x, y, hint], "\n\n"@) == x + "\n\n"@ + y + "\n\n"@ + hint);
}

/// A turn counts with the bytes of its text, and a little more.
pub proof fn turns_count_with_their_text(turn: Turn, size: u128)
    requires
        call_ensures(Turn::size, (&turn,), size),
    ensures
        turn matches Turn::User(s) ==> size == crate::text::byte_len(s@) + 8,
        turn matches Turn::AssistantThought(s) ==> size == crate::text::byte_len(s@) + 8,
        turn matches Turn::AssistantSay(s) ==> size == crate::text::byte_len(s@) + 8,
        turn matches Turn::AssistantProposed { cmd, .. } ==> size == crate::text::byte_len(cmd@)
            + 16,
        turn matches Turn::Observation { output_sample, .. } ==> size == crate::text::byte_len(
            output_sample@,
        ) + 16,
{
}

/// The bounds on what is sent to a model.
pub proof fn bounds_are_kept(output: &str, res: String)
    requires
        call_ensures(crate::agent::sample_observation, (output,), res),
    ensures
        res@ == crate::agent::elided(output@, 4096),
        crate::text::byte_len(output@) <= 4096 ==> res@ == output@,
        crate::agent::MAX_TRANSCRIPT_BYTES == 32768,
        crate::ai::MAX_TOKENS == 600,
{
}

} // verus!
