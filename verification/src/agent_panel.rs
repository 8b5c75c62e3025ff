//! The agent panel: one conversation, its prompt, and what the panel shows of
//! it.

use crate::agent::{elide_middle, is_dangerous, Turn, MAX_TRANSCRIPT_BYTES};
use crate::text::{
    chars_of, join_strings, offset_of, push_decimal, push_signed, push_text,
    push_wide_decimal, text_of, trim,
};
use vstd::prelude::*;

verus! {

/// The state of one agent conversation.
#[derive(Debug)]
pub struct AgentSession {
    pub transcript: Vec<Turn>,
    /// The command that was sent to the bound pane and whose end is awaited.
    pub awaiting_command: Option<String>,
    /// The panel was closed: a late reply is dropped.
    pub cancelled: bool,
    /// How many turns of the model were spent.
    pub turns_used: u32,
    /// The tab and the pane that commands are typed into.
    pub bound_tab: u64,
    pub bound_pane: u64,
    /// No turn is left, or the user stopped.
    pub sealed: bool,
}

/// The last line of a prompt.
pub const REPLY_HINT: &'static str =
    "Reply with one JSON object per the protocol. Do not wrap in markdown.";

/// The lines of turns in a prompt.
pub open spec fn prompt_lines(turns: Seq<crate::agent::TurnView>) -> Seq<Seq<char>> {
    turns.map_values(|t: crate::agent::TurnView| crate::agent::prompt_line(t))
}

/// The prompt for the next turn, before it is cut to size.
pub open spec fn whole_prompt(turns: Seq<crate::agent::TurnView>) -> Seq<char> {
    crate::text::joined(prompt_lines(turns).push(REPLY_HINT@), "\n\n"@)
}

/// The prompt for the next turn.
pub open spec fn user_prompt(turns: Seq<crate::agent::TurnView>) -> Seq<char> {
    crate::agent::elided(whole_prompt(turns), MAX_TRANSCRIPT_BYTES as nat)
}

impl AgentSession {
    /// Starts a conversation that is bound to a pane.
    pub fn new(bound_tab: u64, bound_pane: u64) -> (res: AgentSession)
        ensures
            res.transcript@.len() == 0,
            res.awaiting_command is None,
            !res.cancelled,
            res.turns_used == 0,
            res.bound_tab == bound_tab,
            res.bound_pane == bound_pane,
            !res.sealed,
    {
        AgentSession {
            transcript: Vec::new(),
            awaiting_command: None,
            cancelled: false,
            turns_used: 0,
            bound_tab,
            bound_pane,
            sealed: false,
        }
    }

    /// Gives the conversation up.
    pub fn cancel(&mut self)
        ensures
            *final(self) == (AgentSession { cancelled: true, ..*old(self) }),
    {
        self.cancelled = true;
    }

    /// Tells whether the conversation was given up.
    pub fn is_cancelled(&self) -> (res: bool)
        ensures
            res == self.cancelled,
    {
        self.cancelled
    }

    /// The prompt for the model's next turn: the transcript and a hint on the
    /// form of the reply, cut to [`MAX_TRANSCRIPT_BYTES`] in the middle.
    pub fn build_user_prompt(&self) -> (res: String)
        ensures
            res@ == user_prompt(crate::agent::turn_views(self.transcript@)),
    {
        let mut lines: Vec<String> = Vec::new();
        let mut i: usize = 0;
        let ghost all = prompt_lines(crate::agent::turn_views(self.transcript@));
        while i < self.transcript.len()
            invariant
                i <= self.transcript.len(),
                all == prompt_lines(crate::agent::turn_views(self.transcript@)),
                crate::text::texts(lines@) =~= all.take(i as int),
            decreases self.transcript.len() - i,
        {
            let ghost before = lines@;
            lines.push(self.transcript[i].to_prompt_line());
            assert(crate::text::texts(lines@) =~= crate::text::texts(before).push(all[i as int]));
            i += 1;
        }
        assert(all.take(i as int) =~= all);
        let ghost before = lines@;
        lines.push(REPLY_HINT.to_string());
        assert(crate::text::texts(lines@) =~= crate::text::texts(before).push(REPLY_HINT@));
        let full = text_of(join_strings(lines.as_slice(), "\n\n").as_slice());
        elide_middle(full.as_str(), MAX_TRANSCRIPT_BYTES)
    }

    /// What the status line says.
    pub fn status(&self) -> (res: String)
        ensures
            res@ == status_line(
                self.sealed,
                self.awaiting_command is Some,
                self.turns_used as nat,
            ),
    {
        let most: u32 = if self.turns_used == 0 {
            1
        } else {
            self.turns_used
        };
        let mut out: Vec<char> = Vec::new();
        if self.sealed {
            push_text(&mut out, "Session sealed — open a new agent for more turns.  (");
            push_decimal(&mut out, self.turns_used as u64);
            push_text(&mut out, "/");
            push_decimal(&mut out, most as u64);
            push_text(&mut out, ")");
        } else if self.awaiting_command.is_some() {
            push_text(&mut out, "Waiting for command output…");
        } else {
            push_text(&mut out, "turn ");
            push_decimal(&mut out, self.turns_used as u64);
            push_text(&mut out, "/");
            push_decimal(&mut out, most as u64);
        }
        assert(out@ =~= status_line(
            self.sealed,
            self.awaiting_command is Some,
            self.turns_used as nat,
        ));
        text_of(out.as_slice())
    }
}

/// What the status line says of a conversation.
pub open spec fn status_line(sealed: bool, awaiting: bool, turns: nat) -> Seq<char> {
    let count = crate::text::decimal(turns) + "/"@ + crate::text::decimal(
        if turns == 0 {
            1
        } else {
            turns
        },
    );
    if sealed {
        "Session sealed — open a new agent for more turns.  ("@ + count + ")"@
    } else if awaiting {
        "Waiting for command output…"@
    } else {
        "turn "@ + count
    }
}

/// What the panel says at its top.
pub open spec fn intro_line(provider: Seq<char>, max_turns: nat) -> Seq<char> {
    "Talk to "@ + provider
        + ". The model proposes one command per turn; you approve each before it runs. Output is fed back automatically. Max "@
        + crate::text::decimal(max_turns) + " turns."@
}

/// What the panel says at its top.
pub fn intro(provider_name: &str, max_turns: u32) -> (res: String)
    ensures
        res@ == intro_line(provider_name@, max_turns as nat),
{
    let mut out: Vec<char> = chars_of("Talk to ");
    push_text(&mut out, provider_name);
    push_text(
        &mut out,
        ". The model proposes one command per turn; you approve each before it runs. Output is fed back automatically. Max ",
    );
    push_decimal(&mut out, max_turns as u64);
    push_text(&mut out, " turns.");
    text_of(out.as_slice())
}

/// What the user wrote, without the white space around it; nothing where that
/// leaves nothing.
pub open spec fn entered(text: Seq<char>) -> Option<Seq<char>> {
    let t = crate::text::trimmed(text);
    if t.len() == 0 {
        None
    } else {
        Some(t)
    }
}

/// What is sent of an entry, if anything is.
pub fn submitted(text: &str) -> (res: Option<String>)
    ensures
        crate::text::optional_string(res) == entered(text@),
{
    let chars = chars_of(text);
    let t = trim(chars.as_slice());
    if t.len() == 0 {
        None
    } else {
        Some(text_of(t))
    }
}

/// How a proposed command stands in the panel.
#[derive(Debug)]
pub struct Proposal {
    /// A warning, where the command is destructive.
    pub warning: Option<String>,
    /// The words on the button that runs it, while it is undecided.
    pub approve: Option<&'static str>,
    /// The button can be pressed.
    pub can_approve: bool,
    /// What was decided.
    pub verdict: Option<&'static str>,
}

/// The warning above a command.
pub open spec fn warning_of(cmd: Seq<char>) -> Option<Seq<char>> {
    match crate::agent::danger(cmd) {
        Some(reason) => Some("⚠ destructive — "@ + reason),
        None => None,
    }
}

/// Shows a proposed command: no command is run unless it is approved, and a
/// destructive one says so.
pub fn proposal(cmd: &str, approved: Option<bool>, sealed: bool) -> (res: Proposal)
    ensures
        crate::text::optional_string(res.warning) == warning_of(cmd@),
        crate::text::optional_text(res.approve) == (if approved is Some {
            None
        } else if crate::agent::danger(cmd@) is Some {
            Some("Approve & Run (destructive)"@)
        } else {
            Some("Approve & Run"@)
        }),
        res.can_approve == (approved is None && !sealed),
        crate::text::optional_text(res.verdict) == match approved {
            Some(true) => Some("✓ ran"@),
            Some(false) => Some("✗ rejected"@),
            None => None,
        },
{
    let danger = is_dangerous(cmd);
    let warning = match danger {
        Some(reason) => {
            let mut out: Vec<char> = chars_of("⚠ destructive — ");
            push_text(&mut out, reason);
            Some(text_of(out.as_slice()))
        },
        None => None,
    };
    let approve: Option<&'static str> = if approved.is_some() {
        None
    } else if danger.is_some() {
        Some("Approve & Run (destructive)")
    } else {
        Some("Approve & Run")
    };
    let verdict: Option<&'static str> = match approved {
        Some(true) => Some("✓ ran"),
        Some(false) => Some("✗ rejected"),
        None => None,
    };
    Proposal { warning, approve, can_approve: approved.is_none() && !sealed, verdict }
}

/// The title of a command's output.
pub open spec fn output_title(exit: int, output: Seq<char>) -> Seq<char> {
    "Output (exit "@ + crate::text::signed_decimal(exit) + ", "@ + crate::text::decimal(
        crate::text::byte_len(output),
    ) + " bytes)"@
}

/// The title of a command's output.
pub fn observation_title(exit: i32, output_sample: &str) -> (res: String)
    ensures
        res@ == output_title(exit as int, output_sample@),
{
    let chars = chars_of(output_sample);
    let mut out: Vec<char> = chars_of("Output (exit ");
    push_signed(&mut out, exit);
    push_text(&mut out, ", ");
    push_wide_decimal(&mut out, offset_of(chars.as_slice(), chars.len()));
    push_text(&mut out, " bytes)");
    text_of(out.as_slice())
}

/// How a thought of the model stands in the panel.
pub fn thought(msg: &str) -> (res: String)
    ensures
        res@ == "💭 "@ + msg@,
{
    let mut out: Vec<char> = chars_of("💭 ");
    push_text(&mut out, msg);
    text_of(out.as_slice())
}

// ---------------------------------------------------------------------------
// Laws
// ---------------------------------------------------------------------------

proof fn lemma_hint_is_short()
    ensures
        crate::text::byte_len(REPLY_HINT@) <= MAX_TRANSCRIPT_BYTES / 2,
{
    reveal_strlit("Reply with one JSON object per the protocol. Do not wrap in markdown.");
    assert(REPLY_HINT@.len() <= 100);
    crate::agent::bytes_are_bounded(REPLY_HINT@, REPLY_HINT@.len() as int);
}

proof fn lemma_before_is_early(s: Seq<char>, b: nat, n: int, k: int)
    requires
        0 <= k <= n <= s.len(),
        crate::text::byte_at(s, k) >= b,
    ensures
        crate::text::chars_before(s, b, n) <= k,
    decreases n,
{
    if n > k {
        if n - 1 > k {
            crate::text::byte_at_grows(s, k, n - 1);
        }
        lemma_before_is_early(s, b, n - 1, k);
    } else {
        crate::agent::lemma_before(s, b, n);
    }
}

/// Whatever the transcript holds, a prompt ends with the hint on the form of
/// the reply.
pub proof fn prompts_end_with_the_hint(turns: Seq<crate::agent::TurnView>)
    ensures
        crate::text::ends(user_prompt(turns), REPLY_HINT@),
{
    let s = whole_prompt(turns);
    let h = REPLY_HINT@;
    let lines = prompt_lines(turns).push(h);
    assert(lines.last() == h);
    let k = s.len() - h.len();
    if lines.len() == 1 {
        assert(s == h);
        assert(s.skip(0) =~= h);
    } else {
        assert(s == crate::text::joined(lines.drop_last(), "\n\n"@) + "\n\n"@ + h);
        assert(s.skip(k) =~= h);
    }
    let max = MAX_TRANSCRIPT_BYTES as nat;
    let total = crate::text::byte_len(s);
    if total > max {
        let b = (total - max / 2) as nat;
        lemma_hint_is_short();
        crate::agent::lemma_byte_split(s, k);
        lemma_before_is_early(s, b, s.len() as int, k);
        let c = crate::text::chars_before(s, b, s.len() as int) as int;
        let tail = s.skip(c);
        let p = user_prompt(turns);
        assert(tail.skip(k - c) =~= h);
        assert(p.skip(p.len() - h.len()) =~= h);
    }
}

} // verus!
