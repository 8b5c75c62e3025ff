//! Agent mode — a multi-turn model that proposes shell commands, watches their
//! output, and iterates.
//!
//! ## Safety model (immutable, by design)
//!
//! 1. **Per-command approval.** Every command the model proposes must be
//!    approved by the user.
//! 2. **Dangerous-command flagging.** A small blacklist (rm -rf /, mkfs.*, dd
//!    of=/dev/*, fork bomb, curl|sh) marks the command as destructive.
//! 3. **Single concurrent session.**
//! 4. **Turn cap.** A bound on model turns ends runaway loops.
//! 5. **Transcript byte cap.** Before it is sent, the transcript is head+tail
//!    elided to [`MAX_TRANSCRIPT_BYTES`].
//! 6. **Output sample bound.** Each observation feeds the model at most
//!    [`MAX_OBS_BYTES`] of captured output (head+tail).
//! 7. **Cancel on close.** Closing the panel suppresses pending replies, and a
//!    late finished command does not attach to a dead session.

use vstd::prelude::*;
use vstd::slice::slice_subrange;

use crate::json::{push_quoted, read_field};
use crate::text::{
    ascii_lowercase, chars_of, count_within, ends_with, find_char, has_char, has_text,
    is_text, offset_of, push_chars, push_signed, push_text,
    push_wide_decimal, replace_char, split_words, starts_with, strip_prefix, text_of, trim, trim_end,
};

verus! {

/// Hard cap on transcript bytes sent to the model. Past this, the middle is
/// elided.
pub const MAX_TRANSCRIPT_BYTES: usize = 32 * 1024;

/// Per-observation output sample cap (head+tail).
pub const MAX_OBS_BYTES: usize = 4 * 1024;

// ---------------------------------------------------------------------------
// Eliding
// ---------------------------------------------------------------------------

/// The part of the text that ends within the first `b` bytes.
pub open spec fn head_part(s: Seq<char>, b: nat) -> Seq<char> {
    s.take(crate::text::chars_within(s, b, s.len() as int) as int)
}

/// The part of the text that begins at byte `b` or later.
pub open spec fn tail_part(s: Seq<char>, b: nat) -> Seq<char> {
    s.skip(crate::text::chars_before(s, b, s.len() as int) as int)
}

/// What stands in the place of `n` bytes.
pub open spec fn elision_mark(n: nat) -> Seq<char> {
    "\n\n… ["@ + crate::text::decimal(n) + " bytes elided] …\n\n"@
}

/// The text, or its head and tail if it has more than `max` bytes.
pub open spec fn elided(s: Seq<char>, max: nat) -> Seq<char> {
    let total = crate::text::byte_len(s);
    if total <= max {
        s
    } else {
        let head = head_part(s, max / 2);
        let tail = tail_part(s, (total - max / 2) as nat);
        head + elision_mark(
            (total - crate::text::byte_len(head) - crate::text::byte_len(tail)) as nat,
        ) + tail
    }
}

/// The bytes of a text are those of its two parts.
pub(crate) proof fn lemma_byte_split(s: Seq<char>, k: int)
    requires
        0 <= k <= s.len(),
    ensures
        crate::text::byte_len(s.take(k)) == crate::text::byte_at(s, k),
        crate::text::byte_len(s.take(k)) + crate::text::byte_len(s.skip(k))
            == crate::text::byte_len(s),
{
    lemma_byte_at_take(s, k, k);
    lemma_byte_at_skip(s, k, s.len() - k);
}

proof fn lemma_byte_at_take(s: Seq<char>, k: int, i: int)
    requires
        0 <= i <= k <= s.len(),
    ensures
        crate::text::byte_at(s.take(k), i) == crate::text::byte_at(s, i),
    decreases i,
{
    if i > 0 {
        lemma_byte_at_take(s, k, i - 1);
        assert(s.take(k)[i - 1] == s[i - 1]);
    }
}

proof fn lemma_byte_at_skip(s: Seq<char>, k: int, i: int)
    requires
        0 <= k,
        0 <= i,
        k + i <= s.len(),
    ensures
        crate::text::byte_at(s, k) + crate::text::byte_at(s.skip(k), i) == crate::text::byte_at(
            s,
            k + i,
        ),
    decreases i,
{
    if i > 0 {
        lemma_byte_at_skip(s, k, i - 1);
        assert(s.skip(k)[i - 1] == s[k + i - 1]);
    }
}

/// The characters from the first one that begins at `b` or later.
pub(crate) proof fn lemma_before(s: Seq<char>, b: nat, n: int)
    requires
        0 <= n <= s.len(),
    ensures
        crate::text::chars_before(s, b, n) <= n,
        crate::text::chars_before(s, b, n) < n ==> b <= crate::text::byte_at(
            s,
            crate::text::chars_before(s, b, n) as int,
        ),
    decreases n,
{
    if n > 0 {
        lemma_before(s, b, n - 1);
        let k = crate::text::chars_before(s, b, n - 1) as int;
        if k < n - 1 {
            crate::text::byte_at_grows(s, k, n - 1);
        }
    }
}

/// An elided text keeps at most half of the allowance of its beginning, and at
/// most half of its end: with the mark in between, which tells how much was
/// left out, this is all.
pub proof fn elision_is_bounded(s: Seq<char>, max: nat)
    requires
        crate::text::byte_len(s) > max,
    ensures
        crate::text::byte_len(head_part(s, max / 2)) <= max / 2,
        crate::text::byte_len(tail_part(s, (crate::text::byte_len(s) - max / 2) as nat)) <= max / 2,
{
    let total = crate::text::byte_len(s);
    let n = s.len() as int;
    let b = (total - max / 2) as nat;
    lemma_within_bound(s, max / 2, n);
    lemma_byte_split(s, crate::text::chars_within(s, max / 2, n) as int);
    lemma_before(s, b, n);
    let k = crate::text::chars_before(s, b, n) as int;
    lemma_byte_split(s, k);
    if k == n {
        assert(s.skip(k) =~= seq![]);
    }
}

pub(crate) proof fn lemma_within_bound(s: Seq<char>, b: nat, n: int)
    requires
        0 <= n,
    ensures
        crate::text::chars_within(s, b, n) <= n,
        crate::text::byte_at(s, crate::text::chars_within(s, b, n) as int) <= b,
    decreases n,
{
    if n > 0 && crate::text::byte_at(s, n) > b {
        lemma_within_bound(s, b, n - 1);
    }
}

/// Keeps the head and the tail of a text of more than `max_bytes` bytes, both
/// cut between characters, with a mark in between.
pub fn elide_middle(s: &str, max_bytes: usize) -> (res: String)
    ensures
        res@ == elided(s@, max_bytes as nat),
{
    let chars: Vec<char> = chars_of(s);
    let total: u128 = offset_of(chars.as_slice(), chars.len());
    if total <= max_bytes as u128 {
        return text_of(chars.as_slice());
    }
    let half: usize = max_bytes / 2;
    let head: usize = count_within(chars.as_slice(), half);
    let from: u128 = total - half as u128;
    let tail: usize = count_from(chars.as_slice(), from);
    proof {
        lemma_byte_split(chars@, head as int);
        lemma_byte_split(chars@, tail as int);
        elision_is_bounded(chars@, max_bytes as nat);
    }
    let head_end: u128 = offset_of(chars.as_slice(), head);
    let tail_start: u128 = offset_of(chars.as_slice(), tail);
    let head_chars = slice_subrange(chars.as_slice(), 0, head);
    let tail_chars = slice_subrange(chars.as_slice(), tail, chars.len());
    assert(head_chars@ =~= head_part(chars@, half as nat));
    assert(tail_chars@ =~= tail_part(chars@, from as nat));
    let mut out: Vec<char> = Vec::new();
    push_chars(&mut out, head_chars);
    push_text(&mut out, "\n\n… [");
    push_wide_decimal(&mut out, tail_start - head_end);
    push_text(&mut out, " bytes elided] …\n\n");
    push_chars(&mut out, tail_chars);
    assert(out@ =~= elided(s@, max_bytes as nat));
    text_of(out.as_slice())
}

/// The number of characters that begin before byte `b`.
fn count_from(s: &[char], b: u128) -> (res: usize)
    ensures
        res == crate::text::chars_before(s@, b as nat, s@.len() as int),
        res <= s@.len(),
{
    let mut n: usize = 0;
    let mut offset: u128 = 0;
    let mut i: usize = 0;
    while i < s.len()
        invariant
            n <= i <= s.len(),
            offset == crate::text::byte_at(s@, i as int),
            offset <= 4 * i,
            n == crate::text::chars_before(s@, b as nat, i as int),
        decreases s.len() - i,
    {
        if offset < b {
            n += 1;
        }
        offset = offset + crate::text::char_bytes(s[i]);
        i += 1;
    }
    n
}

/// Samples raw command output for the model. Head + tail elision keeps the
/// beginning and the end while bounding bytes.
pub fn sample_observation(output: &str) -> (res: String)
    ensures
        res@ == elided(output@, MAX_OBS_BYTES as nat),
{
    elide_middle(output, MAX_OBS_BYTES)
}

// ---------------------------------------------------------------------------
// Turns
// ---------------------------------------------------------------------------

/// A single entry in the agent's running transcript.
#[derive(Debug)]
pub enum Turn {
    /// User's free-text input.
    User(String),
    /// The model's reasoning, shown dimly.
    AssistantThought(String),
    /// The model's chat response that does not propose a command.
    AssistantSay(String),
    /// The model proposed a command. `None` = pending, `Some(true)` = ran,
    /// `Some(false)` = rejected.
    AssistantProposed { cmd: String, approved: Option<bool> },
    /// The captured outcome of an approved command, already truncated.
    Observation { exit: i32, output_sample: String },
}

/// The mathematical value of a [`Turn`].
pub enum TurnView {
    User(Seq<char>),
    AssistantThought(Seq<char>),
    AssistantSay(Seq<char>),
    AssistantProposed(Seq<char>, Option<bool>),
    Observation(int, Seq<char>),
}

impl View for Turn {
    type V = TurnView;

    open spec fn view(&self) -> TurnView {
        match self {
            Turn::User(s) => TurnView::User(s@),
            Turn::AssistantThought(s) => TurnView::AssistantThought(s@),
            Turn::AssistantSay(s) => TurnView::AssistantSay(s@),
            Turn::AssistantProposed { cmd, approved } => TurnView::AssistantProposed(
                cmd@,
                *approved,
            ),
            Turn::Observation { exit, output_sample } => TurnView::Observation(
                *exit as int,
                output_sample@,
            ),
        }
    }
}

/// The values of a transcript.
pub open spec fn turn_views(t: Seq<Turn>) -> Seq<TurnView> {
    Seq::new(t.len(), |i: int| t[i]@)
}

/// A JSON object with a text under `action` and one under `key`.
pub open spec fn action_payload(action: Seq<char>, key: Seq<char>, value: Seq<char>) -> Seq<char> {
    "{\"action\":"@ + crate::json::quoted(action) + ","@ + crate::json::quoted(key) + ":"@
        + crate::json::quoted(value) + "}"@
}

/// A turn as the model reads it.
pub open spec fn prompt_line(t: TurnView) -> Seq<char> {
    match t {
        TurnView::User(s) => "User: "@ + s,
        TurnView::AssistantThought(s) => "Assistant (thought): "@ + s,
        TurnView::AssistantSay(s) => "Assistant: "@ + action_payload("say"@, "message"@, s),
        TurnView::AssistantProposed(cmd, approved) => {
            let line = "Assistant: "@ + action_payload("run"@, "command"@, cmd);
            match approved {
                None => line,
                Some(true) => line + "\n[user approved & ran]"@,
                Some(false) => line + "\n[user rejected]"@,
            }
        },
        TurnView::Observation(exit, sample) => "Output (exit="@ + crate::text::signed_decimal(exit)
            + "):\n"@ + sample,
    }
}

fn push_payload(out: &mut Vec<char>, action: &str, key: &str, value: &str)
    ensures
        final(out)@ == old(out)@ + action_payload(action@, key@, value@),
{
    push_text(out, "{\"action\":");
    push_quoted(out, action);
    push_text(out, ",");
    push_quoted(out, key);
    push_text(out, ":");
    push_quoted(out, value);
    push_text(out, "}");
    assert(out@ =~= old(out)@ + action_payload(action@, key@, value@));
}

impl Turn {
    /// Approximate byte size.
    pub fn size(&self) -> (res: u128)
        ensures
            res == (match self@ {
                TurnView::User(s) | TurnView::AssistantThought(s) | TurnView::AssistantSay(s) =>
                    crate::text::byte_len(s) + 8,
                TurnView::AssistantProposed(cmd, _) => crate::text::byte_len(cmd) + 16,
                TurnView::Observation(_, sample) => crate::text::byte_len(sample) + 16,
            }),
    {
        match self {
            Turn::User(s) | Turn::AssistantThought(s) | Turn::AssistantSay(s) => bytes_of(s) + 8,
            Turn::AssistantProposed { cmd, .. } => bytes_of(cmd) + 16,
            Turn::Observation { output_sample, .. } => bytes_of(output_sample) + 16,
        }
    }

    /// Renders this turn for the prompt, with `User:` / `Assistant:` /
    /// `Output:` markers.
    pub fn to_prompt_line(&self) -> (res: String)
        ensures
            res@ == prompt_line(self@),
    {
        let mut out: Vec<char> = Vec::new();
        match self {
            Turn::User(s) => {
                push_text(&mut out, "User: ");
                push_text(&mut out, s.as_str());
            },
            Turn::AssistantThought(s) => {
                push_text(&mut out, "Assistant (thought): ");
                push_text(&mut out, s.as_str());
            },
            Turn::AssistantSay(s) => {
                push_text(&mut out, "Assistant: ");
                push_payload(&mut out, "say", "message", s.as_str());
            },
            Turn::AssistantProposed { cmd, approved } => {
                push_text(&mut out, "Assistant: ");
                push_payload(&mut out, "run", "command", cmd.as_str());
                if let Some(ran) = approved {
                    if *ran {
                        push_text(&mut out, "\n[user approved & ran]");
                    } else {
                        push_text(&mut out, "\n[user rejected]");
                    }
                }
            },
            Turn::Observation { exit, output_sample } => {
                push_text(&mut out, "Output (exit=");
                push_signed(&mut out, *exit);
                push_text(&mut out, "):\n");
                push_text(&mut out, output_sample.as_str());
            },
        }
        assert(out@ =~= prompt_line(self@));
        text_of(out.as_slice())
    }
}

fn bytes_of(s: &String) -> (res: u128)
    ensures
        res == crate::text::byte_len(s@),
        res <= 4 * usize::MAX,
{
    let chars: Vec<char> = chars_of(s.as_str());
    proof {
        bytes_are_bounded(chars@, chars@.len() as int);
    }
    offset_of(chars.as_slice(), chars.len())
}

/// No character has more than four bytes.
pub proof fn bytes_are_bounded(s: Seq<char>, i: int)
    requires
        0 <= i,
    ensures
        crate::text::byte_at(s, i) <= 4 * i,
    decreases i,
{
    if i > 0 {
        bytes_are_bounded(s, i - 1);
    }
}

// ---------------------------------------------------------------------------
// Replies
// ---------------------------------------------------------------------------

/// The model's reply. Falls back to `Say` of the raw text when the reply does
/// not follow the protocol, so the session stays usable.
#[derive(Debug, PartialEq, Eq)]
pub enum ParsedAction {
    Run { thought: Option<String>, command: String },
    Say { thought: Option<String>, message: String },
    Done { thought: Option<String>, message: String },
}

/// The mathematical value of a [`ParsedAction`].
pub enum Reply {
    Run(Option<Seq<char>>, Seq<char>),
    Say(Option<Seq<char>>, Seq<char>),
    Done(Option<Seq<char>>, Seq<char>),
}

impl View for ParsedAction {
    type V = Reply;

    open spec fn view(&self) -> Reply {
        match self {
            ParsedAction::Run { thought, command } => Reply::Run(crate::text::optional_string(*thought), command@),
            ParsedAction::Say { thought, message } => Reply::Say(crate::text::optional_string(*thought), message@),
            ParsedAction::Done { thought, message } => Reply::Done(crate::text::optional_string(*thought), message@),
        }
    }
}

/// The texts that a reply may hold.
#[derive(Debug)]
pub struct Fields {
    pub thought: Option<String>,
    pub action: Option<String>,
    pub command: Option<String>,
    pub message: Option<String>,
}

/// The mathematical value of [`Fields`].
pub struct FieldsView {
    pub thought: Option<Seq<char>>,
    pub action: Option<Seq<char>>,
    pub command: Option<Seq<char>>,
    pub message: Option<Seq<char>>,
}

impl View for Fields {
    type V = FieldsView;

    open spec fn view(&self) -> FieldsView {
        FieldsView {
            thought: crate::text::optional_string(self.thought),
            action: crate::text::optional_string(self.action),
            command: crate::text::optional_string(self.command),
            message: crate::text::optional_string(self.message),
        }
    }
}

/// The fields read, by their views.
pub open spec fn fields_view(f: Option<Fields>) -> Option<FieldsView> {
    match f {
        Some(f) => Some(f@),
        None => None,
    }
}

/// The value, or the default where there is none.
pub open spec fn or_else(v: Option<Seq<char>>, default: Seq<char>) -> Seq<char> {
    match v {
        Some(v) => v,
        None => default,
    }
}

/// The reply for a raw text, given its fields; `None` for a text that is not
/// JSON.
pub open spec fn reply_of(raw: Seq<char>, fields: Option<FieldsView>) -> Reply {
    let plain = crate::text::trimmed(raw);
    match fields {
        None => Reply::Say(None, plain),
        Some(f) => {
            let thought = match f.thought {
                Some(t) if t.len() > 0 => Some(t),
                _ => None,
            };
            let none: Seq<char> = seq![];
            let action = or_else(f.action, none);
            if action == "run"@ {
                let cmd = crate::text::trimmed(or_else(f.command, none));
                if cmd.len() == 0 {
                    Reply::Say(thought, plain)
                } else {
                    Reply::Run(thought, cmd)
                }
            } else if action == "done"@ {
                Reply::Done(thought, or_else(f.message, none))
            } else {
                Reply::Say(thought, or_else(f.message, plain))
            }
        },
    }
}

/// The text without newlines at its beginning.
pub open spec fn without_newlines(s: Seq<char>) -> Seq<char>
    decreases s.len(),
{
    if s.len() > 0 && s[0] == '\n' {
        without_newlines(s.drop_first())
    } else {
        s
    }
}

/// What stands before a closing fence.
pub open spec fn before_fence(s: Seq<char>) -> Option<Seq<char>> {
    let t = crate::text::trimmed_end(s);
    if crate::text::ends(t, "```"@) {
        Some(crate::text::trimmed(t.take(t.len() - "```"@.len())))
    } else {
        None
    }
}

/// What follows the first line.
pub open spec fn after_first_line(s: Seq<char>) -> Seq<char> {
    let i = crate::text::until(s, '\n') as int;
    if i < s.len() {
        s.skip(i + 1)
    } else {
        s
    }
}

/// The text without a Markdown code fence around it.
pub open spec fn unfenced(s: Seq<char>) -> Seq<char> {
    let as_json = match crate::text::after_prefix(s, "```json"@) {
        Some(rest) => before_fence(without_newlines(rest)),
        None => None,
    };
    let as_code = match crate::text::after_prefix(s, "```"@) {
        Some(rest) => before_fence(after_first_line(rest)),
        None => None,
    };
    match as_json {
        Some(inner) => inner,
        None => match as_code {
            Some(inner) => inner,
            None => s,
        },
    }
}

/// The part of a raw reply that should be JSON.
pub open spec fn reply_body(raw: Seq<char>) -> Seq<char> {
    crate::text::trimmed(unfenced(crate::text::trimmed(raw)))
}

/// The fields of a JSON text.
pub open spec fn fields_of(body: Seq<char>) -> Option<FieldsView> {
    match (
        crate::json::field(body, "thought"@),
        crate::json::field(body, "action"@),
        crate::json::field(body, "command"@),
        crate::json::field(body, "message"@),
    ) {
        (Some(thought), Some(action), Some(command), Some(message)) => Some(
            FieldsView { thought, action, command, message },
        ),
        _ => None,
    }
}

fn skip_newlines(s: &[char]) -> (res: &[char])
    ensures
        res@ == without_newlines(s@),
{
    let mut i: usize = 0;
    assert(s@.skip(0) =~= s@);
    while i < s.len() && s[i] == '\n'
        invariant
            i <= s.len(),
            without_newlines(s@.skip(i as int)) == without_newlines(s@),
        decreases s.len() - i,
    {
        assert(s@.skip(i as int).drop_first() =~= s@.skip(i + 1));
        i += 1;
    }
    let res = slice_subrange(s, i, s.len());
    assert(res@ =~= s@.skip(i as int));
    res
}

fn cut_fence<'a>(s: &'a [char]) -> (res: Option<&'a [char]>)
    ensures
        res is Some <==> before_fence(s@) is Some,
        res matches Some(r) ==> before_fence(s@) == Some(r@),
{
    let t = trim_end(s);
    if ends_with(t, "```") {
        let n: usize = chars_of("```").len();
        let inner = slice_subrange(t, 0, t.len() - n);
        assert(inner@ =~= t@.take(t@.len() - "```"@.len()));
        Some(trim(inner))
    } else {
        None
    }
}

/// Strips a Markdown code fence around a text.
pub fn strip_fences(s: &[char]) -> (res: &[char])
    ensures
        res@ == unfenced(s@),
{
    if let Some(rest) = strip_prefix(s, "```json") {
        if let Some(inner) = cut_fence(skip_newlines(rest)) {
            return inner;
        }
    }
    if let Some(rest) = strip_prefix(s, "```") {
        let i: usize = find_char(rest, '\n');
        let after = if i < rest.len() {
            slice_subrange(rest, i + 1, rest.len())
        } else {
            rest
        };
        assert(after@ =~= after_first_line(rest@));
        if let Some(inner) = cut_fence(after) {
            return inner;
        }
    }
    s
}

fn read_fields(body: &str) -> (res: Option<Fields>)
    ensures
        fields_view(res) == fields_of(body@),
{
    match (
        read_field(body, "thought"),
        read_field(body, "action"),
        read_field(body, "command"),
        read_field(body, "message"),
    ) {
        (Some(thought), Some(action), Some(command), Some(message)) => Some(
            Fields { thought, action, command, message },
        ),
        _ => None,
    }
}

/// The reply for a raw text, given the fields that were read from it.
pub fn action_of(raw: &str, fields: Option<Fields>) -> (res: ParsedAction)
    ensures
        res@ == reply_of(raw@, fields_view(fields)),
{
    let chars: Vec<char> = chars_of(raw);
    let plain = trim(chars.as_slice());
    match fields {
        None => ParsedAction::Say { thought: None, message: text_of(plain) },
        Some(f) => {
            let thought: Option<String> = match f.thought {
                Some(t) => if chars_of(t.as_str()).len() > 0 {
                    Some(t)
                } else {
                    None
                },
                None => None,
            };
            let action: Vec<char> = match &f.action {
                Some(a) => chars_of(a.as_str()),
                None => Vec::new(),
            };
            assert(action@ =~= or_else(crate::text::optional_string(f.action), seq![]));
            if is_text(action.as_slice(), "run") {
                let command: Vec<char> = match &f.command {
                    Some(c) => chars_of(c.as_str()),
                    None => Vec::new(),
                };
                assert(command@ =~= or_else(crate::text::optional_string(f.command), seq![]));
                let cmd = trim(command.as_slice());
                if cmd.len() == 0 {
                    ParsedAction::Say { thought, message: text_of(plain) }
                } else {
                    ParsedAction::Run { thought, command: text_of(cmd) }
                }
            } else if is_text(action.as_slice(), "done") {
                let message: String = match f.message {
                    Some(m) => m,
                    None => {
                        let none: String = String::new();
                        assert(none@ =~= seq![]);
                        none
                    },
                };
                ParsedAction::Done { thought, message }
            } else {
                let message: String = match f.message {
                    Some(m) => m,
                    None => text_of(plain),
                };
                ParsedAction::Say { thought, message }
            }
        },
    }
}

/// Reads a reply. Strips a Markdown fence if the model wrapped its reply, then
/// looks at the required fields. Anything else is a `Say` of the raw text.
pub fn parse_action(raw: &str) -> (res: ParsedAction)
    ensures
        res@ == reply_of(raw@, fields_of(reply_body(raw@))),
{
    let chars: Vec<char> = chars_of(raw);
    let body: String = text_of(trim(strip_fences(trim(chars.as_slice()))));
    action_of(raw, read_fields(body.as_str()))
}

// ---------------------------------------------------------------------------
// Dangerous commands
// ---------------------------------------------------------------------------

/// Some word is `mkfs` or begins with `mkfs.`.
pub open spec fn has_mkfs(words: Seq<Seq<char>>) -> bool {
    exists|i: int|
        0 <= i < words.len() && (crate::text::begins(#[trigger] words[i], "mkfs."@) || words[i]
            == "mkfs"@)
}

/// The word is a flag cluster such as `-rf`.
pub open spec fn is_cluster(w: Seq<char>) -> bool {
    crate::text::begins(w, "-"@) && !crate::text::begins(w, "--"@)
}

/// The word is a flag of `rm` that asks for whole directories.
pub open spec fn asks_recursive(w: Seq<char>) -> bool {
    w == "--recursive"@ || (is_cluster(w) && (w.contains('r') || w.contains('R')))
}

/// The word is a flag of `rm` that asks not to be stopped.
pub open spec fn asks_force(w: Seq<char>) -> bool {
    w == "--force"@ || (is_cluster(w) && w.contains('f'))
}

/// How often `c` occurs.
pub open spec fn occurrences(s: Seq<char>, c: char) -> nat
    decreases s.len(),
{
    if s.len() == 0 {
        0
    } else {
        occurrences(s.drop_last(), c) + (if s.last() == c {
            1nat
        } else {
            0nat
        })
    }
}

/// The top-level system directories.
pub open spec fn is_system_dir(w: Seq<char>) -> bool {
    w == "/bin"@ || w == "/boot"@ || w == "/etc"@ || w == "/home"@ || w == "/lib"@ || w == "/lib64"@
        || w == "/opt"@ || w == "/root"@ || w == "/sbin"@ || w == "/srv"@ || w == "/sys"@ || w
        == "/usr"@ || w == "/var"@ || w == "/proc"@ || w == "/dev"@
}

/// A path whose loss would hurt: the root, a home directory or a system
/// directory.
pub open spec fn is_precious(w: Seq<char>) -> bool {
    ||| w == "/"@
    ||| w == "/*"@
    ||| w == "~"@
    ||| w == "$home"@
    ||| crate::text::begins(w, "~/"@)
    ||| is_system_dir(w)
    ||| (crate::text::begins(w, "/home/"@) && occurrences(w, '/') == 2)
}

/// The words removes something precious, recursively and by force.
pub open spec fn removes_precious(words: Seq<Seq<char>>) -> bool {
    let i = crate::text::until(words, "rm"@) as int;
    i < words.len() && {
        let rest = words.skip(i + 1);
        &&& exists|k: int| 0 <= k < rest.len() && asks_recursive(#[trigger] rest[k])
        &&& exists|k: int| 0 <= k < rest.len() && asks_force(#[trigger] rest[k])
        &&& exists|k: int|
            0 <= k < rest.len() && !crate::text::begins(#[trigger] rest[k], "-"@) && is_precious(
                rest[k],
            )
    }
}

/// Why a command is dangerous; `None` if it looks fine.
pub open spec fn danger(cmd: Seq<char>) -> Option<Seq<char>> {
    let c = crate::text::trimmed(cmd);
    let lower = crate::text::ascii_lowered(c);
    let words = crate::text::words(lower);
    if crate::text::contains(crate::text::replaced(c, ' ', ""@), ":(){:|:&};:"@) {
        Some("looks like a fork bomb"@)
    } else if removes_precious(words) {
        Some("rm -rf against a top-level path"@)
    } else if has_mkfs(words) {
        Some("mkfs formats a filesystem"@)
    } else if crate::text::contains(lower, "dd "@) && crate::text::contains(lower, "of=/dev/"@) {
        Some("dd writes raw bytes to a device"@)
    } else if (crate::text::contains(lower, "curl "@) || crate::text::contains(lower, "wget "@)) && (
    crate::text::contains(lower, "| sh"@) || crate::text::contains(lower, "|sh"@)
        || crate::text::contains(lower, "| bash"@) || crate::text::contains(lower, "|bash"@)) {
        Some("piping network content directly to a shell"@)
    } else if crate::text::contains(lower, "> /dev/sd"@) {
        Some("redirecting to a raw block device"@)
    } else if crate::text::contains(lower, "chmod"@) && crate::text::contains(lower, "777"@) && (
    crate::text::contains(lower, " /"@) || crate::text::contains(lower, " ~"@)) {
        Some("recursive chmod 777 on a top-level path"@)
    } else {
        None
    }
}

fn mkfs_among(words: &[&[char]]) -> (res: bool)
    ensures
        res == has_mkfs(crate::text::views(words@)),
{
    let ghost all = crate::text::views(words@);
    let mut i: usize = 0;
    while i < words.len()
        invariant
            i <= words.len(),
            all == crate::text::views(words@),
            forall|j: int|
                0 <= j < i ==> !(crate::text::begins(#[trigger] all[j], "mkfs."@) || all[j]
                    == "mkfs"@),
        decreases words.len() - i,
    {
        assert(all[i as int] == words@[i as int]@);
        if starts_with(words[i], "mkfs.") || is_text(words[i], "mkfs") {
            return true;
        }
        i += 1;
    }
    false
}

fn recursive_flag(w: &[char]) -> (res: bool)
    ensures
        res == asks_recursive(w@),
{
    is_text(w, "--recursive") || (starts_with(w, "-") && !starts_with(w, "--") && (has_char(w, 'r')
        || has_char(w, 'R')))
}

fn force_flag(w: &[char]) -> (res: bool)
    ensures
        res == asks_force(w@),
{
    is_text(w, "--force") || (starts_with(w, "-") && !starts_with(w, "--") && has_char(w, 'f'))
}

fn count_char(s: &[char], c: char) -> (res: usize)
    ensures
        res == occurrences(s@, c),
{
    let mut n: usize = 0;
    let mut i: usize = 0;
    while i < s.len()
        invariant
            n <= i <= s.len(),
            n == occurrences(s@.take(i as int), c),
        decreases s.len() - i,
    {
        assert(s@.take(i + 1).drop_last() =~= s@.take(i as int));
        if s[i] == c {
            n += 1;
        }
        i += 1;
    }
    assert(s@.take(i as int) =~= s@);
    n
}

fn precious(w: &[char]) -> (res: bool)
    ensures
        res == is_precious(w@),
{
    is_text(w, "/") || is_text(w, "/*") || is_text(w, "~") || is_text(w, "$home") || starts_with(
        w,
        "~/",
    ) || is_text(w, "/bin") || is_text(w, "/boot") || is_text(w, "/etc") || is_text(w, "/home")
        || is_text(w, "/lib") || is_text(w, "/lib64") || is_text(w, "/opt") || is_text(w, "/root")
        || is_text(w, "/sbin") || is_text(w, "/srv") || is_text(w, "/sys") || is_text(w, "/usr")
        || is_text(w, "/var") || is_text(w, "/proc") || is_text(w, "/dev") || (starts_with(
        w,
        "/home/",
    ) && count_char(w, '/') == 2)
}

/// Tells whether `rm` is asked to remove something precious, recursively and by
/// force.
fn has_rm_rf_dangerous_target(words: &[&[char]]) -> (res: bool)
    ensures
        res == removes_precious(crate::text::views(words@)),
{
    let ghost all = crate::text::views(words@);
    let mut i: usize = 0;
    while i < words.len() && !is_text(words[i], "rm")
        invariant
            i <= words.len(),
            all == crate::text::views(words@),
            forall|j: int| 0 <= j < i ==> all[j] != "rm"@,
        decreases words.len() - i,
    {
        assert(all[i as int] == words@[i as int]@);
        i += 1;
    }
    proof {
        if i < words.len() {
            assert(all[i as int] == words@[i as int]@);
        }
        crate::text::lemma_until_at(all, "rm"@, i as int);
    }
    if i >= words.len() {
        return false;
    }
    let ghost rest = all.skip(i + 1);
    let mut has_r: bool = false;
    let mut has_f: bool = false;
    let mut hit: bool = false;
    let mut k: usize = i + 1;
    while k < words.len()
        invariant
            i < k <= words.len(),
            all == crate::text::views(words@),
            rest == all.skip(i + 1),
            has_r == exists|j: int| 0 <= j < k - i - 1 && asks_recursive(#[trigger] rest[j]),
            has_f == exists|j: int| 0 <= j < k - i - 1 && asks_force(#[trigger] rest[j]),
            hit == exists|j: int|
                0 <= j < k - i - 1 && !crate::text::begins(#[trigger] rest[j], "-"@)
                    && is_precious(rest[j]),
        decreases words.len() - k,
    {
        let w = words[k];
        assert(rest[k - i - 1] == w@);
        if recursive_flag(w) {
            has_r = true;
        }
        if force_flag(w) {
            has_f = true;
        }
        if !starts_with(w, "-") && precious(w) {
            hit = true;
        }
        k += 1;
    }
    has_r && has_f && hit
}

/// Matches a command against the destructive-pattern blacklist. Returns a
/// short human-readable reason when the command is flagged, `None` when it
/// looks fine. False positives are preferable to false negatives — this only
/// warns.
pub fn is_dangerous(cmd: &str) -> (res: Option<&'static str>)
    ensures
        res is Some <==> danger(cmd@) is Some,
        res matches Some(why) ==> danger(cmd@) == Some(why@),
{
    let chars: Vec<char> = chars_of(cmd);
    let c = trim(chars.as_slice());
    let lowered: Vec<char> = ascii_lowercase(c);
    let lower = lowered.as_slice();
    if has_text(replace_char(c, ' ', "").as_slice(), ":(){:|:&};:") {
        return Some("looks like a fork bomb");
    }
    let words: Vec<&[char]> = split_words(lower);
    if has_rm_rf_dangerous_target(words.as_slice()) {
        return Some("rm -rf against a top-level path");
    }
    if mkfs_among(words.as_slice()) {
        return Some("mkfs formats a filesystem");
    }
    if has_text(lower, "dd ") && has_text(lower, "of=/dev/") {
        return Some("dd writes raw bytes to a device");
    }
    if (has_text(lower, "curl ") || has_text(lower, "wget ")) && (has_text(lower, "| sh")
        || has_text(lower, "|sh") || has_text(lower, "| bash") || has_text(lower, "|bash")) {
        return Some("piping network content directly to a shell");
    }
    if has_text(lower, "> /dev/sd") {
        return Some("redirecting to a raw block device");
    }
    if has_text(lower, "chmod") && has_text(lower, "777") && (has_text(lower, " /") || has_text(
        lower,
        " ~",
    )) {
        return Some("recursive chmod 777 on a top-level path");
    }
    None
}

/// White space around a command does not change whether it is flagged.
pub proof fn danger_ignores_outer_white_space(cmd: Seq<char>)
    ensures
        danger(crate::text::trimmed(cmd)) == danger(cmd),
{
    crate::text::trimming_is_idempotent(cmd);
}

proof fn lemma_lower_start(s: Seq<char>)
    ensures
        crate::text::trimmed_start(crate::text::ascii_lowered(s)) == crate::text::ascii_lowered(
            crate::text::trimmed_start(s),
        ),
    decreases s.len(),
{
    let low = crate::text::ascii_lowered(s);
    if s.len() > 0 {
        assert(low[0] == crate::text::ascii_lower(s[0]));
        if crate::text::is_white(s[0]) {
            lemma_lower_start(s.drop_first());
            assert(low.drop_first() =~= crate::text::ascii_lowered(s.drop_first()));
        }
    }
}

proof fn lemma_lower_end(s: Seq<char>)
    ensures
        crate::text::trimmed_end(crate::text::ascii_lowered(s)) == crate::text::ascii_lowered(
            crate::text::trimmed_end(s),
        ),
    decreases s.len(),
{
    let low = crate::text::ascii_lowered(s);
    if s.len() > 0 {
        assert(low.last() == crate::text::ascii_lower(s.last()));
        if crate::text::is_white(s.last()) {
            lemma_lower_end(s.drop_last());
            assert(low.drop_last() =~= crate::text::ascii_lowered(s.drop_last()));
        }
    }
}

proof fn lemma_lower_spaces(s: Seq<char>)
    ensures
        crate::text::replaced(crate::text::ascii_lowered(s), ' ', ""@)
            == crate::text::ascii_lowered(crate::text::replaced(s, ' ', ""@)),
    decreases s.len(),
{
    reveal_strlit("");
    let low = crate::text::ascii_lowered(s);
    if s.len() > 0 {
        lemma_lower_spaces(s.drop_last());
        assert(low.drop_last() =~= crate::text::ascii_lowered(s.drop_last()));
        assert(low.last() == crate::text::ascii_lower(s.last()));
    }
    assert(crate::text::replaced(low, ' ', ""@) =~= crate::text::ascii_lowered(
        crate::text::replaced(s, ' ', ""@),
    ));
}

/// A text without letters stands in `s` where it stands in the lower-case form.
proof fn lemma_lower_contains(s: Seq<char>, p: Seq<char>)
    requires
        forall|i: int| 0 <= i < p.len() ==> !('A' <= #[trigger] p[i] <= 'Z') && !('a' <= p[i] <= 'z'),
    ensures
        crate::text::contains(crate::text::ascii_lowered(s), p) == crate::text::contains(s, p),
{
    let low = crate::text::ascii_lowered(s);
    assert forall|i: int| crate::text::stands_at(low, p, i) == crate::text::stands_at(s, p, i) by {
        if 0 <= i && i + p.len() <= s.len() {
            let a = low.subrange(i, i + p.len());
            let b = s.subrange(i, i + p.len());
            if a == p {
                assert forall|j: int| 0 <= j < p.len() implies b[j] == p[j] by {
                    assert(a[j] == p[j]);
                    assert(a[j] == crate::text::ascii_lower(s[i + j]));
                }
                assert(b =~= p);
            }
            if b == p {
                assert forall|j: int| 0 <= j < p.len() implies a[j] == p[j] by {
                    assert(b[j] == p[j]);
                    assert(a[j] == crate::text::ascii_lower(s[i + j]));
                }
                assert(a =~= p);
            }
        }
    }
    if crate::text::contains(low, p) {
        let i = choose|i: int| crate::text::stands_at(low, p, i);
        assert(crate::text::stands_at(s, p, i));
    }
    if crate::text::contains(s, p) {
        let i = choose|i: int| crate::text::stands_at(s, p, i);
        assert(crate::text::stands_at(low, p, i));
    }
}

/// Capital letters do not hide a destructive command: whether a command is
/// flagged, and why, does not depend on the case of its ASCII letters.
pub proof fn danger_ignores_case(cmd: Seq<char>)
    ensures
        danger(crate::text::ascii_lowered(cmd)) == danger(cmd),
{
    let low = crate::text::ascii_lowered(cmd);
    let c = crate::text::trimmed(cmd);
    lemma_lower_start(cmd);
    lemma_lower_end(crate::text::trimmed_start(cmd));
    assert(crate::text::trimmed(low) == crate::text::ascii_lowered(c));
    assert(crate::text::ascii_lowered(crate::text::ascii_lowered(c))
        =~= crate::text::ascii_lowered(c));
    lemma_lower_spaces(c);
    reveal_strlit(":(){:|:&};:");
    lemma_lower_contains(crate::text::replaced(c, ' ', ""@), ":(){:|:&};:"@);
}

} // verus!
