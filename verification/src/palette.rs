//! Command palette: fuzzy-ranked search over actions, shell history and
//! workflows, with prefix-driven filters (`>` commands, `@` history,
//! `:` workflows, `?` natural language).
//!
//! This is the data and ranking layer; the widgets live outside the library.

use crate::action::Action;
use crate::order::{sort, Rank, Ranked};
use crate::text::{
    chars_of, is_all_white, push_chars, push_signed, push_text, same_text, strip_prefix, text_of,
    trim_start,
};
use crate::workflows::Workflow;
use fuzzy_matcher::skim::SkimMatcherV2;
use fuzzy_matcher::FuzzyMatcher;
use vstd::prelude::*;

verus! {

/// The longest text, in characters, that is matched against a needle. The
/// matcher counts in 32 bits, which texts of this length cannot exhaust.
pub const MAX_MATCHED: usize = 0x100_0000;

/// The score with which a needle that is not empty is found in a text, or
/// nothing where it is not found. A needle with an upper-case letter is looked
/// for by case, any other needle without regard to case.
pub uninterp spec fn fuzzy_score(text: Seq<char>, needle: Seq<char>) -> Option<int>;

/// `SkimMatcherV2::fuzzy_match` of a fresh matcher with smart case: the score
/// of a match, named by [`fuzzy_score`]. There is a match exactly where the
/// needle's characters occur in the text in their order.
#[verifier::external_body]
fn fuzzy_match(text: &str, needle: &str) -> (res: Option<i64>)
    requires
        text@.len() <= MAX_MATCHED,
        needle@.len() > 0,
    ensures
        match res {
            Some(score) => fuzzy_score(text@, needle@) == Some(score as int),
            None => fuzzy_score(text@, needle@) is None,
        },
        res is Some <==> occurs(text@, needle@, has_upper(needle@)),
{
    SkimMatcherV2::default().smart_case().fuzzy_match(text, needle)
}

/// The text holds an ASCII capital letter.
pub open spec fn has_upper(s: Seq<char>) -> bool {
    exists|i: int| 0 <= i < s.len() && 'A' <= #[trigger] s[i] <= 'Z'
}

/// Two characters are the same, up to ASCII case unless `exact`.
pub open spec fn alike(a: char, b: char, exact: bool) -> bool {
    if exact {
        a == b
    } else {
        crate::text::ascii_lower(a) == crate::text::ascii_lower(b)
    }
}

/// The needle's characters occur in the text, in their order.
pub open spec fn occurs(s: Seq<char>, needle: Seq<char>, exact: bool) -> bool
    decreases s.len(),
{
    if needle.len() == 0 {
        true
    } else if s.len() == 0 {
        false
    } else if alike(s[0], needle[0], exact) {
        occurs(s.skip(1), needle.skip(1), exact)
    } else {
        occurs(s.skip(1), needle, exact)
    }
}

/// Which sources the palette draws from. The mode is the default: a prefix in
/// the query text can still narrow it.
#[derive(Clone, Copy, PartialEq, Eq, Debug, Structural)]
pub enum PaletteMode {
    /// Everything: actions, history and workflows.
    All,
    /// Only actions.
    Commands,
    /// Only shell history.
    History,
    /// A request in natural language.
    Ai,
    /// Only workflows.
    Workflows,
}

/// A parsed query: a mode, possibly tightened by a prefix, and the remaining
/// text, which is the needle.
#[derive(Debug)]
pub struct Query {
    pub mode: PaletteMode,
    pub text: String,
}

/// What a query's text says: its mode and its needle.
pub open spec fn query_of(raw: Seq<char>, default_mode: PaletteMode) -> (PaletteMode, Seq<char>) {
    let t = crate::text::trimmed_start(raw);
    if t.len() > 0 && t[0] == '>' {
        (PaletteMode::Commands, crate::text::trimmed_start(t.skip(1)))
    } else if t.len() > 0 && t[0] == '@' {
        (PaletteMode::History, crate::text::trimmed_start(t.skip(1)))
    } else if t.len() > 0 && t[0] == '?' {
        (PaletteMode::Ai, crate::text::trimmed_start(t.skip(1)))
    } else if t.len() > 0 && t[0] == ':' {
        (PaletteMode::Workflows, crate::text::trimmed_start(t.skip(1)))
    } else {
        (default_mode, t)
    }
}

impl Query {
    /// `>foo` forces command-only, `@foo` forces history-only, `:foo` forces
    /// workflows-only, `?foo` asks in natural language. Otherwise the query
    /// inherits `default_mode`.
    pub fn parse(raw: &str, default_mode: PaletteMode) -> (res: Query)
        ensures
            (res.mode, res.text@) == query_of(raw@, default_mode),
    {
        let chars = chars_of(raw);
        let t = trim_start(chars.as_slice());
        if t.len() > 0 {
            let rest = vstd::slice::slice_subrange(t, 1, t.len());
            assert(rest@ =~= t@.skip(1));
            let forced = if t[0] == '>' {
                Some(PaletteMode::Commands)
            } else if t[0] == '@' {
                Some(PaletteMode::History)
            } else if t[0] == '?' {
                Some(PaletteMode::Ai)
            } else if t[0] == ':' {
                Some(PaletteMode::Workflows)
            } else {
                None
            };
            if let Some(mode) = forced {
                return Query { mode, text: text_of(trim_start(rest)) };
            }
        }
        Query { mode: default_mode, text: text_of(t) }
    }
}

/// A prefix decides the mode, whatever the default mode is.
pub proof fn prefixes_override_the_mode(raw: Seq<char>, a: PaletteMode, b: PaletteMode)
    ensures
        ({
            let t = crate::text::trimmed_start(raw);
            t.len() > 0 && (t[0] == '>' || t[0] == '@' || t[0] == '?' || t[0] == ':') ==> query_of(
                raw,
                a,
            ) == query_of(raw, b)
        }),
        query_of(raw, a).1 == query_of(raw, b).1,
{
}

/// What happens when a row is activated.
#[derive(Debug)]
pub enum Accept {
    /// Dispatch a built-in action.
    Action(Action),
    /// Type the command into the active pane without submitting it.
    TypeCommand(String),
    /// Ask for a command in natural language.
    AskAi(String),
    /// Fill in and type the workflow that was loaded from a file.
    RunWorkflow(String),
}

/// What an [`Accept`] holds.
pub enum AcceptView {
    Action(Action),
    TypeCommand(Seq<char>),
    AskAi(Seq<char>),
    RunWorkflow(Seq<char>),
}

impl View for Accept {
    type V = AcceptView;

    open spec fn view(&self) -> AcceptView {
        match self {
            Accept::Action(action) => AcceptView::Action(*action),
            Accept::TypeCommand(command) => AcceptView::TypeCommand(command@),
            Accept::AskAi(text) => AcceptView::AskAi(text@),
            Accept::RunWorkflow(path) => AcceptView::RunWorkflow(path@),
        }
    }
}

/// One row in the palette.
#[derive(Debug)]
pub struct Entry {
    /// Coarse priority; lower comes first. Actions sit above history, and
    /// history above workflows.
    pub tier: u8,
    /// How well the row matches; higher is better.
    pub score: i64,
    pub label: String,
    pub sublabel: Option<String>,
    /// Right-aligned hint, such as the key of an action.
    pub right: Option<String>,
    pub accept: Accept,
}

/// What an [`Entry`] holds.
pub struct EntryView {
    pub tier: int,
    pub score: int,
    pub label: Seq<char>,
    pub sublabel: Option<Seq<char>>,
    pub right: Option<Seq<char>>,
    pub accept: AcceptView,
}

impl View for Entry {
    type V = EntryView;

    open spec fn view(&self) -> EntryView {
        EntryView {
            tier: self.tier as int,
            score: self.score as int,
            label: self.label@,
            sublabel: crate::text::optional_string(self.sublabel),
            right: crate::text::optional_string(self.right),
            accept: self.accept@,
        }
    }
}

/// What the rows hold, one by one.
pub open spec fn rows(entries: Seq<Entry>) -> Seq<EntryView> {
    entries.map_values(|e: Entry| e@)
}

/// Rows rank by tier, then by score, the better one first.
impl Rank for EntryView {
    open spec fn ranks(self, other: EntryView) -> bool {
        self.tier < other.tier || (self.tier == other.tier && self.score >= other.score)
    }

    proof fn ranks_totally(a: EntryView, b: EntryView) {
    }

    proof fn ranks_transitively(a: EntryView, b: EntryView, c: EntryView) {
    }
}

impl Rank for Entry {
    open spec fn ranks(self, other: Entry) -> bool {
        self@.ranks(other@)
    }

    proof fn ranks_totally(a: Entry, b: Entry) {
    }

    proof fn ranks_transitively(a: Entry, b: Entry, c: Entry) {
    }
}

impl Ranked for Entry {
    fn at_most(&self, other: &Entry) -> (res: bool) {
        self.tier < other.tier || (self.tier == other.tier && self.score >= other.score)
    }
}

/// A record of the shell history.
#[derive(Debug)]
pub struct HistoryItem {
    pub command: String,
    pub cwd: String,
    pub exit_code: i32,
    pub end_time_ms: Option<u64>,
}

/// What a [`HistoryItem`] holds.
pub struct ItemView {
    pub command: Seq<char>,
    pub cwd: Seq<char>,
    pub exit_code: int,
    pub end_time_ms: Option<u64>,
}

impl View for HistoryItem {
    type V = ItemView;

    open spec fn view(&self) -> ItemView {
        ItemView {
            command: self.command@,
            cwd: self.cwd@,
            exit_code: self.exit_code as int,
            end_time_ms: self.end_time_ms,
        }
    }
}

/// What the records hold, one by one.
pub open spec fn items(history: Seq<HistoryItem>) -> Seq<ItemView> {
    history.map_values(|h: HistoryItem| h@)
}

/// The records that can be offered, the latest first: those that could be read
/// and whose command is not blank. The history file has the latest at its end.
pub open spec fn usable(records: Seq<Option<HistoryItem>>) -> Seq<ItemView>
    decreases records.len(),
{
    if records.len() == 0 {
        seq![]
    } else {
        let rest = usable(records.drop_last());
        match records.last() {
            Some(h) if !crate::text::all_white(h.command@) => seq![h@] + rest,
            _ => rest,
        }
    }
}

/// The command is among the records'.
pub open spec fn has_command(s: Seq<ItemView>, command: Seq<char>) -> bool {
    exists|i: int| 0 <= i < s.len() && (#[trigger] s[i]).command == command
}

/// The records without those whose command an earlier one has.
pub open spec fn deduplicated(s: Seq<ItemView>) -> Seq<ItemView>
    decreases s.len(),
{
    if s.len() == 0 {
        seq![]
    } else if has_command(s.drop_last(), s.last().command) {
        deduplicated(s.drop_last())
    } else {
        deduplicated(s.drop_last()).push(s.last())
    }
}

/// The first `n` items.
pub open spec fn at_most<T>(s: Seq<T>, n: nat) -> Seq<T> {
    if s.len() <= n {
        s
    } else {
        s.take(n as int)
    }
}

/// The records offered out of a history file: of the last `max` usable ones,
/// the latest of each command, the latest last.
pub open spec fn recent(records: Seq<Option<HistoryItem>>, max: nat) -> Seq<ItemView> {
    deduplicated(at_most(usable(records), max)).reverse()
}

proof fn lemma_usable_grows(records: Seq<Option<HistoryItem>>, n: int)
    requires
        0 <= n <= records.len(),
    ensures
        usable(records) == usable(records.skip(n)) + usable(records.take(n)),
    decreases records.len(),
{
    if n == records.len() {
        assert(records.take(n) =~= records);
        assert(usable(records) =~= usable(records.skip(n)) + usable(records.take(n)));
    } else {
        lemma_usable_grows(records.drop_last(), n);
        assert(records.skip(n).drop_last() =~= records.drop_last().skip(n));
        assert(records.drop_last().take(n) =~= records.take(n));
        assert(records.skip(n).last() == records.last());
        assert(usable(records) =~= usable(records.skip(n)) + usable(records.take(n)));
    }
}

proof fn lemma_deduplicated(s: Seq<ItemView>)
    ensures
        forall|c: Seq<char>| #[trigger] has_command(deduplicated(s), c) <==> has_command(s, c),
    decreases s.len(),
{
    if s.len() > 0 {
        let front = s.drop_last();
        lemma_deduplicated(front);
        let d = deduplicated(front);
        assert forall|c: Seq<char>| #[trigger] has_command(deduplicated(s), c) <==> has_command(
            s,
            c,
        ) by {
            if has_command(s, c) {
                let i = choose|i: int| 0 <= i < s.len() && (#[trigger] s[i]).command == c;
                if i < s.len() - 1 {
                    assert(front[i].command == c);
                    assert(has_command(front, c));
                    assert(has_command(deduplicated(front), c));
                    let j = choose|j: int| 0 <= j < d.len() && (#[trigger] d[j]).command == c;
                    assert(deduplicated(s)[j] == d[j]);
                } else if has_command(front, c) {
                    assert(has_command(d, c));
                } else {
                    assert(deduplicated(s)[d.len() as int].command == c);
                }
            }
            if has_command(deduplicated(s), c) {
                let i = choose|i: int|
                    0 <= i < deduplicated(s).len() && (#[trigger] deduplicated(s)[i]).command == c;
                if i < d.len() {
                    assert(d[i].command == c);
                    assert(has_command(deduplicated(front), c));
                    assert(has_command(front, c));
                    let j = choose|j: int| 0 <= j < front.len() && (#[trigger] front[j]).command == c;
                    assert(s[j].command == c);
                } else {
                    assert(s[s.len() - 1].command == c);
                }
            }
        }
    }
}

/// No command is offered twice, and none of those read is left out.
pub proof fn commands_are_offered_once(records: Seq<Option<HistoryItem>>, max: nat)
    ensures
        ({
            let r = recent(records, max);
            &&& forall|i: int, j: int|
                0 <= i < j < r.len() ==> (#[trigger] r[i]).command != (#[trigger] r[j]).command
            &&& forall|c: Seq<char>| #[trigger]
                has_command(r, c) <==> has_command(at_most(usable(records), max), c)
            &&& r.len() <= max
        }),
{
    let s = at_most(usable(records), max);
    let d = deduplicated(s);
    let r = recent(records, max);
    lemma_deduplicated(s);
    lemma_no_duplicates(s);
    assert forall|i: int, j: int| 0 <= i < j < r.len() implies (#[trigger] r[i]).command != (
    #[trigger] r[j]).command by {
        assert(d[d.len() - 1 - j].command != d[d.len() - 1 - i].command);
    }
    assert forall|c: Seq<char>| #[trigger] has_command(r, c) <==> has_command(s, c) by {
        assert(has_command(d, c) <==> has_command(s, c));
        if has_command(r, c) {
            let i = choose|i: int| 0 <= i < r.len() && (#[trigger] r[i]).command == c;
            assert(d[d.len() - 1 - i].command == c);
        }
        if has_command(d, c) {
            let i = choose|i: int| 0 <= i < d.len() && (#[trigger] d[i]).command == c;
            assert(r[d.len() - 1 - i].command == c);
        }
    }
}

proof fn lemma_no_duplicates(s: Seq<ItemView>)
    ensures
        deduplicated(s).len() <= s.len(),
        forall|i: int, j: int|
            0 <= i < j < deduplicated(s).len() ==> (#[trigger] deduplicated(s)[i]).command != (
            #[trigger] deduplicated(s)[j]).command,
    decreases s.len(),
{
    if s.len() > 0 {
        let front = s.drop_last();
        lemma_no_duplicates(front);
        lemma_deduplicated(front);
        let d = deduplicated(front);
        if !has_command(front, s.last().command) {
            assert(!has_command(d, s.last().command));
            assert forall|i: int, j: int|
                0 <= i < j < deduplicated(s).len() implies (#[trigger] deduplicated(s)[i]).command
                != (#[trigger] deduplicated(s)[j]).command by {
                assert(d[i] == deduplicated(s)[i]);
                if j < d.len() {
                    assert(d[j] == deduplicated(s)[j]);
                }
            }
        }
    }
}

fn is_among(found: &[HistoryItem], command: &str) -> (res: bool)
    ensures
        res == has_command(items(found@), command@),
{
    let mut i: usize = 0;
    while i < found.len()
        invariant
            i <= found.len(),
            forall|j: int| 0 <= j < i ==> (#[trigger] items(found@)[j]).command != command@,
        decreases found.len() - i,
    {
        if same_text(found[i].command.as_str(), command) {
            assert(items(found@)[i as int].command == command@);
            return true;
        }
        i += 1;
    }
    false
}

fn reversed(found: Vec<HistoryItem>) -> (res: Vec<HistoryItem>)
    ensures
        res@ == found@.reverse(),
{
    let ghost all = found@;
    let mut found = found;
    let mut out: Vec<HistoryItem> = Vec::new();
    while found.len() > 0
        invariant
            found@ == all.take(found.len() as int),
            found.len() <= all.len(),
            out@ == all.reverse().take(all.len() - found.len()),
        decreases found.len(),
    {
        let ghost n = found.len() as int;
        if let Some(item) = found.pop() {
            out.push(item);
        }
        proof {
            assert(found@ =~= all.take(n - 1));
            assert(out@ =~= all.reverse().take(all.len() - found.len()));
        }
    }
    assert(out@ =~= all.reverse());
    out
}

/// Picks the records to offer out of a history file's records, in the order of
/// the file (newest last); a record that could not be read is `None`. The
/// records are pulled most recent first, and then reversed.
pub fn read_history(records: Vec<Option<HistoryItem>>, max: usize) -> (res: Vec<HistoryItem>)
    ensures
        items(res@) == recent(records@, max as nat),
{
    let ghost all = records@;
    let mut records = records;
    let mut out: Vec<HistoryItem> = Vec::new();
    let mut taken: usize = 0;
    proof {
        assert(all.skip(all.len() as int) =~= seq![]);
        assert(items(out@) =~= seq![]);
        assert(at_most(usable(all.skip(all.len() as int)), max as nat) =~= seq![]);
    }
    while taken < max && records.len() > 0
        invariant
            taken <= max,
            records@ == all.take(records.len() as int),
            records.len() <= all.len(),
            taken == usable(all.skip(records.len() as int)).len(),
            items(out@) == deduplicated(usable(all.skip(records.len() as int))),
        decreases records.len(),
    {
        let ghost n = records.len() as int;
        let record = records.pop();
        proof {
            let tail = all.skip(n - 1);
            lemma_usable_grows(tail, 1);
            assert(tail.skip(1) =~= all.skip(n));
            assert(tail.take(1) =~= seq![all[n - 1]]);
            assert(tail.take(1).drop_last() =~= seq![]);
            assert(records@ =~= all.take(n - 1));
            assert(tail.take(1).last() == all[n - 1]);
            assert(usable(tail.take(1).drop_last()) =~= seq![]);
        }
        if let Some(Some(item)) = record {
            if !is_all_white(chars_of(item.command.as_str()).as_slice()) {
                proof {
                    let seen = usable(all.skip(n));
                    assert(usable(all.skip(n - 1)) =~= seen.push(item@));
                    assert(seen.push(item@).drop_last() =~= seen);
                    lemma_deduplicated(seen);
                }
                taken += 1;
                if !is_among(out.as_slice(), item.command.as_str()) {
                    let ghost before = out@;
                    out.push(item);
                    assert(items(out@) =~= items(before).push(item@));
                }
            } else {
                assert(usable(all.skip(n - 1)) =~= usable(all.skip(n)));
            }
        } else {
            assert(usable(all.skip(n - 1)) =~= usable(all.skip(n)));
        }
    }
    proof {
        let n = records.len() as int;
        lemma_usable_grows(all, n);
        if n == 0 {
            assert(all.take(0) =~= seq![]);
            assert(usable(all) =~= usable(all.skip(0)));
        }
        assert(at_most(usable(all), max as nat) =~= usable(all.skip(n)));
    }
    let ghost found = out@;
    let out = reversed(out);
    assert(items(out@) =~= items(found).reverse());
    out
}

/// A directory with the home directory's path, where it begins with it,
/// written `~`.
pub open spec fn shortened(p: Seq<char>, home: Option<Seq<char>>) -> Seq<char> {
    match home {
        Some(h) if p.len() > 0 && crate::text::begins(p, h) => seq!['~'] + p.skip(h.len() as int),
        _ => p,
    }
}

/// Writes a directory with `~` for the home directory's path.
pub fn shorten_path(p: &str, home: Option<&str>) -> (res: String)
    ensures
        res@ == shortened(
            p@,
            crate::text::optional_text(home),
        ),
{
    let chars = chars_of(p);
    if chars.len() > 0 {
        if let Some(home) = home {
            if let Some(rest) = strip_prefix(chars.as_slice(), home) {
                let mut out: Vec<char> = Vec::new();
                out.push('~');
                push_chars(&mut out, rest);
                assert(out@ =~= seq!['~'] + rest@);
                return text_of(out.as_slice());
            }
        }
    }
    text_of(chars.as_slice())
}

/// The second line of a history row: its directory, and its exit code where
/// that is not zero.
pub open spec fn described(item: ItemView, home: Option<Seq<char>>) -> Seq<char> {
    let cwd = shortened(item.cwd, home);
    if item.exit_code != 0 {
        cwd + "  · exit "@ + crate::text::signed_decimal(item.exit_code)
    } else {
        cwd
    }
}

/// Describes a record in a line.
pub fn history_sublabel(item: &HistoryItem, home: Option<&str>) -> (res: String)
    ensures
        res@ == described(
            item@,
            crate::text::optional_text(home),
        ),
{
    let cwd = shorten_path(item.cwd.as_str(), home);
    if item.exit_code != 0 {
        let mut out: Vec<char> = chars_of(cwd.as_str());
        push_text(&mut out, "  · exit ");
        push_signed(&mut out, item.exit_code);
        text_of(out.as_slice())
    } else {
        cwd
    }
}

/// An action with its name and its key, which is empty where it has none.
#[derive(Debug)]
pub struct BoundAction {
    pub action: Action,
    pub name: String,
    pub binding: String,
}

/// The row of an action.
pub open spec fn action_row(a: BoundAction) -> EntryView {
    EntryView {
        tier: 0,
        score: 0,
        label: a.name@,
        sublabel: None,
        right: if a.binding@.len() == 0 {
            None
        } else {
            Some(a.binding@)
        },
        accept: AcceptView::Action(a.action),
    }
}

/// The row of a record; `recency` is higher for the later ones.
pub open spec fn history_row(h: ItemView, recency: int, home: Option<Seq<char>>) -> EntryView {
    EntryView {
        tier: 1,
        score: recency,
        label: h.command,
        sublabel: Some(described(h, home)),
        right: None,
        accept: AcceptView::TypeCommand(h.command),
    }
}

/// The row of a workflow: its name, and its description where it has one.
pub open spec fn workflow_row(w: Workflow) -> EntryView {
    EntryView {
        tier: 2,
        score: 0,
        label: w.name@,
        sublabel: if w.description@.len() == 0 {
            None
        } else {
            Some(w.description@)
        },
        right: None,
        accept: AcceptView::RunWorkflow(
            match w.source_path {
                Some(p) => p@,
                None => seq![],
            },
        ),
    }
}

/// The row that asks in natural language.
pub open spec fn ai_row(text: Seq<char>) -> EntryView {
    if crate::text::all_white(text) {
        EntryView {
            tier: 0,
            score: i64::MAX as int,
            label: "Type a natural-language request after ?"@,
            sublabel: Some("e.g. ? find files modified today"@),
            right: Some("?"@),
            accept: AcceptView::TypeCommand(seq![]),
        }
    } else {
        EntryView {
            tier: 0,
            score: i64::MAX as int,
            label: "Ask AI: "@ + text,
            sublabel: Some("Generates a shell command (review before running)"@),
            right: Some("?"@),
            accept: AcceptView::AskAi(text),
        }
    }
}

/// Half of a number, rounded towards zero.
pub open spec fn halved(n: int) -> int {
    if n >= 0 {
        n / 2
    } else {
        -((-n) / 2)
    }
}

/// The better score of a label and, at half its worth, of a second line.
pub open spec fn combined(primary: Option<int>, secondary: Option<int>) -> Option<int> {
    match (primary, secondary) {
        (Some(p), Some(s)) => Some(
            if p >= halved(s) {
                p
            } else {
                halved(s)
            },
        ),
        (Some(p), None) => Some(p),
        (None, Some(s)) => Some(halved(s)),
        (None, None) => None,
    }
}

/// The nearest number in 64 bits.
pub open spec fn saturated(n: int) -> int {
    if n > i64::MAX {
        i64::MAX as int
    } else if n < i64::MIN {
        i64::MIN as int
    } else {
        n
    }
}

/// A row's score after a match: the match counts a thousandfold, so that what
/// the row had before only breaks ties.
pub open spec fn rated(score: int, base: int) -> int {
    saturated(saturated(score * 1000) + base)
}

/// The row with its score, given those of its two texts, where either matches.
pub open spec fn scored(e: EntryView, primary: Option<int>, secondary: Option<int>) -> Option<
    EntryView,
> {
    match combined(primary, secondary) {
        Some(s) => Some(EntryView { score: rated(s, e.score), ..e }),
        None => None,
    }
}

/// The row as a needle leaves it: unchanged where the needle is empty, else
/// with the score of the match, if there is one.
pub open spec fn matched(e: EntryView, needle: Seq<char>) -> Option<EntryView> {
    if needle.len() == 0 {
        Some(e)
    } else {
        scored(
            e,
            fuzzy_score(e.label, needle),
            match e.sublabel {
                Some(s) => fuzzy_score(s, needle),
                None => None,
            },
        )
    }
}

/// The rows that a needle leaves.
pub open spec fn all_matched(s: Seq<EntryView>, needle: Seq<char>) -> Seq<EntryView>
    decreases s.len(),
{
    if s.len() == 0 {
        seq![]
    } else {
        let before = all_matched(s.drop_last(), needle);
        match matched(s.last(), needle) {
            Some(e) => before.push(e),
            None => before,
        }
    }
}

/// The rows of the actions.
pub open spec fn action_rows(actions: Seq<BoundAction>) -> Seq<EntryView> {
    actions.map_values(|a: BoundAction| action_row(a))
}

/// The rows of the records, the latest first. The last record is the latest.
pub open spec fn history_rows(history: Seq<ItemView>, home: Option<Seq<char>>) -> Seq<EntryView> {
    Seq::new(
        history.len(),
        |i: int| history_row(history[history.len() - 1 - i], history.len() - i, home),
    )
}

/// The rows of the workflows.
pub open spec fn workflow_rows(workflows: Seq<Workflow>) -> Seq<EntryView> {
    workflows.map_values(|w: Workflow| workflow_row(w))
}

/// The rows that a query looks through.
pub open spec fn sources(
    mode: PaletteMode,
    actions: Seq<BoundAction>,
    history: Seq<ItemView>,
    workflows: Seq<Workflow>,
    home: Option<Seq<char>>,
) -> Seq<EntryView> {
    (if mode == PaletteMode::All || mode == PaletteMode::Commands {
        action_rows(actions)
    } else {
        seq![]
    }) + (if mode == PaletteMode::All || mode == PaletteMode::History {
        history_rows(history, home)
    } else {
        seq![]
    }) + (if mode == PaletteMode::All || mode == PaletteMode::Workflows {
        workflow_rows(workflows)
    } else {
        seq![]
    })
}

/// The rows that a query brings up: at most `limit`, the best first.
pub open spec fn gathered(
    mode: PaletteMode,
    text: Seq<char>,
    actions: Seq<BoundAction>,
    history: Seq<ItemView>,
    workflows: Seq<Workflow>,
    home: Option<Seq<char>>,
    limit: nat,
) -> Seq<EntryView> {
    if mode == PaletteMode::Ai {
        at_most(seq![ai_row(text)], limit)
    } else {
        at_most(
            crate::order::in_order(
                all_matched(sources(mode, actions, history, workflows, home), text),
            ),
            limit,
        )
    }
}

fn halve(n: i64) -> (res: i64)
    ensures
        res == halved(n as int),
{
    if n >= 0 {
        n / 2
    } else if n == i64::MIN {
        -0x4000_0000_0000_0000
    } else {
        -((-n) / 2)
    }
}

fn rate(score: i64, base: i64) -> (res: i64)
    ensures
        res == rated(score as int, base as int),
{
    let scaled: i128 = score as i128 * 1000;
    let scaled: i128 = if scaled > i64::MAX as i128 {
        i64::MAX as i128
    } else if scaled < i64::MIN as i128 {
        i64::MIN as i128
    } else {
        scaled
    };
    let sum: i128 = scaled + base as i128;
    if sum > i64::MAX as i128 {
        i64::MAX
    } else if sum < i64::MIN as i128 {
        i64::MIN
    } else {
        sum as i64
    }
}

/// Gives a row its score, given the scores of its label and of its second line.
pub fn score_entry(e: Entry, primary: Option<i64>, secondary: Option<i64>) -> (res: Option<Entry>)
    ensures
        match res {
            Some(r) => scored(e@, optional_int(primary), optional_int(secondary)) == Some(r@),
            None => scored(e@, optional_int(primary), optional_int(secondary)) is None,
        },
{
    let score: Option<i64> = match (primary, secondary) {
        (Some(p), Some(s)) => {
            let half = halve(s);
            Some(
                if p >= half {
                    p
                } else {
                    half
                },
            )
        },
        (Some(p), None) => Some(p),
        (None, Some(s)) => Some(halve(s)),
        (None, None) => None,
    };
    match score {
        Some(s) => {
            let mut e = e;
            e.score = rate(s, e.score);
            Some(e)
        },
        None => None,
    }
}

/// The number of a score that may be missing.
pub open spec fn optional_int(n: Option<i64>) -> Option<int> {
    match n {
        Some(n) => Some(n as int),
        None => None,
    }
}

/// The row's texts can be matched.
pub open spec fn matchable(e: EntryView) -> bool {
    &&& e.label.len() <= MAX_MATCHED
    &&& e.sublabel matches Some(s) ==> s.len() <= MAX_MATCHED
}

/// The needle's characters occur in the row's label or in its second line.
pub open spec fn holds(e: EntryView, needle: Seq<char>) -> bool {
    ||| occurs(e.label, needle, has_upper(needle))
    ||| e.sublabel matches Some(s) && occurs(s, needle, has_upper(needle))
}

/// A row is kept exactly where it holds the needle.
pub open spec fn kept_where_held(e: EntryView, needle: Seq<char>) -> bool {
    matched(e, needle) is Some <==> holds(e, needle)
}

fn push_if_match(needle: &str, e: Entry, out: &mut Vec<Entry>)
    requires
        matchable(e@),
    ensures
        kept_where_held(e@, needle@),
        rows(final(out)@) == match matched(e@, needle@) {
            Some(r) => rows(old(out)@).push(r),
            None => rows(old(out)@),
        },
{
    let ghost before = out@;
    if chars_of(needle).len() == 0 {
        out.push(e);
        assert(rows(out@) =~= rows(before).push(e@));
        return;
    }
    let primary = fuzzy_match(e.label.as_str(), needle);
    let secondary = match &e.sublabel {
        Some(s) => fuzzy_match(s.as_str(), needle),
        None => None,
    };
    if let Some(r) = score_entry(e, primary, secondary) {
        out.push(r);
        assert(rows(out@) =~= rows(before).push(r@));
    }
}

/// The palette's texts are short enough to be matched.
pub open spec fn sources_fit(
    actions: Seq<BoundAction>,
    history: Seq<HistoryItem>,
    workflows: Seq<Workflow>,
) -> bool {
    &&& forall|i: int| 0 <= i < actions.len() ==> (#[trigger] actions[i]).name@.len() <= MAX_MATCHED
    &&& forall|i: int|
        0 <= i < history.len() ==> (#[trigger] history[i]).command@.len() <= MAX_MATCHED
            && history[i].cwd@.len() <= MAX_MATCHED - 0x100
    &&& forall|i: int|
        0 <= i < workflows.len() ==> (#[trigger] workflows[i]).name@.len() <= MAX_MATCHED
            && workflows[i].description@.len() <= MAX_MATCHED
}

proof fn lemma_decimal_is_short(n: int)
    requires
        -0x8000_0000 <= n < 0x8000_0000,
    ensures
        crate::text::signed_decimal(n).len() <= 0x20,
{
    reveal_with_fuel(crate::text::decimal, 12);
}

proof fn lemma_described_is_short(item: ItemView, home: Option<Seq<char>>)
    requires
        item.cwd.len() <= MAX_MATCHED - 0x100,
        -0x8000_0000 <= item.exit_code < 0x8000_0000,
    ensures
        described(item, home).len() <= MAX_MATCHED,
{
    lemma_decimal_is_short(item.exit_code);
    reveal_strlit("  · exit ");
}

fn ai_entry(text: &str) -> (res: Entry)
    ensures
        res@ == ai_row(text@),
{
    let chars = chars_of(text);
    if is_all_white(chars.as_slice()) {
        let none: Vec<char> = Vec::new();
        let res = Entry {
            tier: 0,
            score: i64::MAX,
            label: "Type a natural-language request after ?".to_string(),
            sublabel: Some("e.g. ? find files modified today".to_string()),
            right: Some("?".to_string()),
            accept: Accept::TypeCommand(text_of(none.as_slice())),
        };
        assert(none@ =~= seq![]);
        res
    } else {
        let mut label: Vec<char> = chars_of("Ask AI: ");
        push_text(&mut label, text);
        Entry {
            tier: 0,
            score: i64::MAX,
            label: text_of(label.as_slice()),
            sublabel: Some("Generates a shell command (review before running)".to_string()),
            right: Some("?".to_string()),
            accept: Accept::AskAi(text.to_string()),
        }
    }
}

fn gather_actions(needle: &str, actions: &[BoundAction], out: &mut Vec<Entry>)
    requires
        forall|i: int|
            0 <= i < actions@.len() ==> (#[trigger] actions@[i]).name@.len() <= MAX_MATCHED,
        old(out)@.len() == 0,
    ensures
        rows(final(out)@) == all_matched(action_rows(actions@), needle@),
        forall|i: int|
            0 <= i < actions@.len() ==> kept_where_held(
                #[trigger] action_rows(actions@)[i],
                needle@,
            ),
{
    let mut i: usize = 0;
    let ghost all = action_rows(actions@);
    assert(rows(out@) =~= seq![]);
    while i < actions.len()
        invariant
            i <= actions.len(),
            all == action_rows(actions@),
            rows(out@) == all_matched(all.take(i as int), needle@),
            forall|j: int| 0 <= j < i ==> kept_where_held(#[trigger] all[j], needle@),
            forall|j: int|
                0 <= j < actions@.len() ==> (#[trigger] actions@[j]).name@.len() <= MAX_MATCHED,
        decreases actions.len() - i,
    {
        let a = &actions[i];
        let entry = Entry {
            tier: 0,
            score: 0,
            label: a.name.as_str().to_string(),
            sublabel: None,
            right: if chars_of(a.binding.as_str()).len() == 0 {
                None
            } else {
                Some(a.binding.as_str().to_string())
            },
            accept: Accept::Action(a.action),
        };
        assert(entry@ == all[i as int]);
        proof {
            assert(all.take(i + 1).drop_last() =~= all.take(i as int));
        }
        push_if_match(needle, entry, out);
        i += 1;
    }
    assert(all.take(i as int) =~= all);
}

fn gather_history(needle: &str, history: &[HistoryItem], home: Option<&str>, out: &mut Vec<Entry>)
    requires
        forall|i: int|
            0 <= i < history@.len() ==> (#[trigger] history@[i]).command@.len() <= MAX_MATCHED
                && history@[i].cwd@.len() <= MAX_MATCHED - 0x100,
        history@.len() <= i64::MAX,
    ensures
        rows(final(out)@) == rows(old(out)@) + all_matched(
            history_rows(
                items(history@),
                crate::text::optional_text(home),
            ),
            needle@,
        ),
        forall|i: int|
            0 <= i < history@.len() ==> kept_where_held(
                #[trigger] history_rows(
                    items(history@),
                    crate::text::optional_text(home),
                )[i],
                needle@,
            ),
{
    let mut i: usize = 0;
    let ghost h: Option<Seq<char>> = crate::text::optional_text(home);
    let ghost all = history_rows(items(history@), h);
    let ghost before = rows(out@);
    proof {
        assert(all.take(0) =~= seq![]);
        assert(before + all_matched(all.take(0), needle@) =~= before);
    }
    while i < history.len()
        invariant
            i <= history.len(),
            history@.len() <= i64::MAX,
            h == crate::text::optional_text(home),
            all == history_rows(items(history@), h),
            rows(out@) == before + all_matched(all.take(i as int), needle@),
            forall|j: int| 0 <= j < i ==> kept_where_held(#[trigger] all[j], needle@),
            forall|j: int|
                0 <= j < history@.len() ==> (#[trigger] history@[j]).command@.len() <= MAX_MATCHED
                    && history@[j].cwd@.len() <= MAX_MATCHED - 0x100,
        decreases history.len() - i,
    {
        let item = &history[history.len() - 1 - i];
        let entry = Entry {
            tier: 1,
            score: (history.len() - i) as i64,
            label: item.command.as_str().to_string(),
            sublabel: Some(history_sublabel(item, home)),
            right: None,
            accept: Accept::TypeCommand(item.command.as_str().to_string()),
        };
        proof {
            assert(items(history@)[history@.len() - 1 - i] == item@);
            assert(entry@ == all[i as int]);
            lemma_described_is_short(item@, h);
            assert(all.take(i + 1).drop_last() =~= all.take(i as int));
            assert(all.take(i + 1).last() == all[i as int]);
        }
        let ghost prior = rows(out@);
        push_if_match(needle, entry, out);
        proof {
            assert(rows(out@) =~= before + all_matched(all.take(i + 1), needle@));
        }
        i += 1;
    }
    assert(all.take(i as int) =~= all);
}

fn gather_workflows(needle: &str, workflows: &[Workflow], out: &mut Vec<Entry>)
    requires
        forall|i: int|
            0 <= i < workflows@.len() ==> (#[trigger] workflows@[i]).name@.len() <= MAX_MATCHED
                && workflows@[i].description@.len() <= MAX_MATCHED,
    ensures
        rows(final(out)@) == rows(old(out)@) + all_matched(workflow_rows(workflows@), needle@),
        forall|i: int|
            0 <= i < workflows@.len() ==> kept_where_held(
                #[trigger] workflow_rows(workflows@)[i],
                needle@,
            ),
{
    let mut i: usize = 0;
    let ghost all = workflow_rows(workflows@);
    let ghost before = rows(out@);
    proof {
        assert(all.take(0) =~= seq![]);
        assert(before + all_matched(all.take(0), needle@) =~= before);
    }
    while i < workflows.len()
        invariant
            i <= workflows.len(),
            all == workflow_rows(workflows@),
            rows(out@) == before + all_matched(all.take(i as int), needle@),
            forall|j: int| 0 <= j < i ==> kept_where_held(#[trigger] all[j], needle@),
            forall|j: int|
                0 <= j < workflows@.len() ==> (#[trigger] workflows@[j]).name@.len() <= MAX_MATCHED
                    && workflows@[j].description@.len() <= MAX_MATCHED,
        decreases workflows.len() - i,
    {
        let w = &workflows[i];
        let none: Vec<char> = Vec::new();
        assert(none@ =~= seq![]);
        let entry = Entry {
            tier: 2,
            score: 0,
            label: w.name.as_str().to_string(),
            sublabel: if chars_of(w.description.as_str()).len() == 0 {
                None
            } else {
                Some(w.description.as_str().to_string())
            },
            right: None,
            accept: Accept::RunWorkflow(
                match &w.source_path {
                    Some(p) => p.as_str().to_string(),
                    None => text_of(none.as_slice()),
                },
            ),
        };
        proof {
            assert(entry@ == all[i as int]);
            assert(all.take(i + 1).drop_last() =~= all.take(i as int));
            assert(all.take(i + 1).last() == all[i as int]);
        }
        push_if_match(needle, entry, out);
        proof {
            assert(rows(out@) =~= before + all_matched(all.take(i + 1), needle@));
        }
        i += 1;
    }
    assert(all.take(i as int) =~= all);
}

proof fn lemma_all_matched_splits(a: Seq<EntryView>, b: Seq<EntryView>, needle: Seq<char>)
    ensures
        all_matched(a + b, needle) == all_matched(a, needle) + all_matched(b, needle),
    decreases b.len(),
{
    if b.len() == 0 {
        assert(a + b =~= a);
        assert(all_matched(a, needle) + all_matched(b, needle) =~= all_matched(a, needle));
    } else {
        lemma_all_matched_splits(a, b.drop_last(), needle);
        assert((a + b).drop_last() =~= a + b.drop_last());
        assert((a + b).last() == b.last());
        assert(all_matched(a + b, needle) =~= all_matched(a, needle) + all_matched(b, needle));
    }
}

/// Runs a query against the actions, the history (the latest record last) and
/// the workflows, and returns at most `limit` rows, the best first.
pub fn gather(
    query: &Query,
    actions: &[BoundAction],
    history: &[HistoryItem],
    workflows: &[Workflow],
    home: Option<&str>,
    limit: usize,
) -> (res: Vec<Entry>)
    requires
        sources_fit(actions@, history@, workflows@),
        history@.len() <= i64::MAX,
    ensures
        rows(res@) == gathered(
            query.mode,
            query.text@,
            actions@,
            items(history@),
            workflows@,
            crate::text::optional_text(home),
            limit as nat,
        ),
        query.mode != PaletteMode::Ai ==> forall|e: EntryView| #[trigger]
            sources(
                query.mode,
                actions@,
                items(history@),
                workflows@,
                crate::text::optional_text(home),
            ).contains(e) ==> kept_where_held(e, query.text@),
{
    let ghost h: Option<Seq<char>> = crate::text::optional_text(home);
    let needle = query.text.as_str();
    let mut out: Vec<Entry> = Vec::new();
    if query.mode == PaletteMode::Ai {
        if limit > 0 {
            out.push(ai_entry(needle));
        }
        assert(rows(out@) =~= at_most(seq![ai_row(needle@)], limit as nat));
        return out;
    }
    if query.mode == PaletteMode::All || query.mode == PaletteMode::Commands {
        gather_actions(needle, actions, &mut out);
    } else {
        assert(rows(out@) =~= seq![]);
    }
    let ghost first = rows(out@);
    if query.mode == PaletteMode::All || query.mode == PaletteMode::History {
        gather_history(needle, history, home, &mut out);
    } else {
        assert(first + Seq::<EntryView>::empty() =~= first);
    }
    let ghost second = rows(out@);
    if query.mode == PaletteMode::All || query.mode == PaletteMode::Workflows {
        gather_workflows(needle, workflows, &mut out);
    } else {
        assert(second + Seq::<EntryView>::empty() =~= second);
    }
    proof {
        let a = if query.mode == PaletteMode::All || query.mode == PaletteMode::Commands {
            action_rows(actions@)
        } else {
            seq![]
        };
        let b = if query.mode == PaletteMode::All || query.mode == PaletteMode::History {
            history_rows(items(history@), h)
        } else {
            seq![]
        };
        let c = if query.mode == PaletteMode::All || query.mode == PaletteMode::Workflows {
            workflow_rows(workflows@)
        } else {
            seq![]
        };
        lemma_all_matched_splits(a, b, needle@);
        lemma_all_matched_splits(a + b, c, needle@);
        let all = sources(query.mode, actions@, items(history@), workflows@, h);
        assert(all == a + b + c);
        assert forall|e: EntryView| #[trigger] all.contains(e) implies kept_where_held(
            e,
            needle@,
        ) by {
            let i = choose|i: int| 0 <= i < all.len() && all[i] == e;
            if i < a.len() {
                assert(a[i] == e);
            } else if i < a.len() + b.len() {
                assert(b[i - a.len()] == e);
            } else {
                assert(c[i - a.len() - b.len()] == e);
            }
        }
    }
    let ghost found = out@;
    let mut out = sort(out);
    proof {
        crate::order::sorting_commutes(found, |e: Entry| e@);
        crate::order::sorting_permutes(found);
    }
    let ghost sorted = out@;
    assert(rows(sorted) == crate::order::in_order(rows(found)));
    out.truncate(limit);
    proof {
        assert(rows(out@) =~= at_most(rows(sorted), limit as nat));
    }
    out
}

proof fn lemma_empty_needle(s: Seq<EntryView>)
    ensures
        all_matched(s, seq![]) == s,
    decreases s.len(),
{
    if s.len() > 0 {
        lemma_empty_needle(s.drop_last());
        assert(s.drop_last().push(s.last()) =~= s);
    } else {
        assert(s =~= seq![]);
    }
}

/// An empty query in command mode keeps every action, each in the first tier.
pub proof fn empty_query_keeps_all_actions(
    actions: Seq<BoundAction>,
    history: Seq<ItemView>,
    workflows: Seq<Workflow>,
    home: Option<Seq<char>>,
    limit: nat,
)
    requires
        actions.len() <= limit,
    ensures
        ({
            let g = gathered(
                PaletteMode::Commands,
                seq![],
                actions,
                history,
                workflows,
                home,
                limit,
            );
            &&& g.len() == actions.len()
            &&& g.to_multiset() == action_rows(actions).to_multiset()
            &&& forall|i: int| 0 <= i < g.len() ==> (#[trigger] g[i]).tier == 0
        }),
{
    let s = sources(PaletteMode::Commands, actions, history, workflows, home);
    assert(s =~= action_rows(actions));
    lemma_empty_needle(s);
    crate::order::sorting_permutes(s);
    let g = crate::order::in_order(s);
    assert forall|i: int| 0 <= i < g.len() implies (#[trigger] g[i]).tier == 0 by {
        broadcast use vstd::seq_lib::group_to_multiset_ensures;

        assert(g.to_multiset().count(g[i]) > 0);
        assert(s.contains(g[i]));
    }
}

/// The rows come best first: by tier, then by score.
pub proof fn rows_come_best_first(
    mode: PaletteMode,
    text: Seq<char>,
    actions: Seq<BoundAction>,
    history: Seq<ItemView>,
    workflows: Seq<Workflow>,
    home: Option<Seq<char>>,
    limit: nat,
)
    ensures
        crate::order::is_ordered(gathered(mode, text, actions, history, workflows, home, limit)),
        gathered(mode, text, actions, history, workflows, home, limit).len() <= limit,
{
    crate::order::sorting_orders(all_matched(sources(mode, actions, history, workflows, home), text));
}

proof fn lemma_history_scores(h: Seq<ItemView>, home: Option<Seq<char>>, n: int)
    requires
        0 <= n <= h.len(),
    ensures
        crate::order::in_order(history_rows(h, home).take(n)) == history_rows(h, home).take(n),
    decreases n,
{
    let rows = history_rows(h, home);
    if n > 0 {
        lemma_history_scores(h, home, n - 1);
        assert(rows.take(n).drop_last() =~= rows.take(n - 1));
        let before = rows.take(n - 1);
        let x = rows[n - 1];
        if n > 1 {
            assert(before.last() == rows[n - 2]);
            assert(before.last().ranks(x));
        }
        assert(crate::order::place(before, x) == before.len());
        assert(before.insert(before.len() as int, x) =~= rows.take(n));
    } else {
        assert(rows.take(0) =~= seq![]);
    }
}

/// With an empty query the history comes up the latest record first.
pub proof fn history_comes_latest_first(
    actions: Seq<BoundAction>,
    history: Seq<ItemView>,
    workflows: Seq<Workflow>,
    home: Option<Seq<char>>,
    limit: nat,
)
    ensures
        gathered(
            PaletteMode::History,
            seq![],
            actions,
            history,
            workflows,
            home,
            limit,
        ) == at_most(history_rows(history, home), limit),
{
    let s = sources(PaletteMode::History, actions, history, workflows, home);
    assert(s =~= history_rows(history, home));
    lemma_empty_needle(s);
    lemma_history_scores(history, home, history.len() as int);
    assert(s.take(history.len() as int) =~= s);
}

} // verus!
