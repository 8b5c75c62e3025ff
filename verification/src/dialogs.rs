//! What the dialogs decide: the palette's words and rows, moving through a
//! list, filling in a workflow, picking a remote host, and the settings.

use crate::action::Action;
use crate::order::{sort, text_at_most, Rank, Ranked};
use crate::palette::{Entry, PaletteMode};
use crate::text::{
    chars_of, has_text, lowercase, push_signed, push_text, same_text, text_of,
};
use crate::workflows::{render, Workflow, WorkflowArg};
use vstd::prelude::*;

verus! {

// ---------------------------------------------------------------------------
// Markup
// ---------------------------------------------------------------------------

/// A character as it is written in markup.
pub open spec fn escape(c: char) -> Seq<char> {
    if c == '&' {
        "&amp;"@
    } else if c == '<' {
        "&lt;"@
    } else if c == '>' {
        "&gt;"@
    } else {
        seq![c]
    }
}

/// A text as it is written in markup.
pub open spec fn escaped(s: Seq<char>) -> Seq<char>
    decreases s.len(),
{
    if s.len() == 0 {
        seq![]
    } else {
        escaped(s.drop_last()) + escape(s.last())
    }
}

/// What markup without tags reads as: each of the three escapes stands for its
/// character.
pub open spec fn unescaped(s: Seq<char>) -> Seq<char>
    decreases s.len(),
{
    if s.len() == 0 {
        seq![]
    } else if s.len() >= 5 && crate::text::begins(s, "&amp;"@) {
        seq!['&'] + unescaped(s.skip(5))
    } else if s.len() >= 4 && crate::text::begins(s, "&lt;"@) {
        seq!['<'] + unescaped(s.skip(4))
    } else if s.len() >= 4 && crate::text::begins(s, "&gt;"@) {
        seq!['>'] + unescaped(s.skip(4))
    } else {
        seq![s[0]] + unescaped(s.skip(1))
    }
}

fn push_escaped(out: &mut Vec<char>, s: &str)
    ensures
        final(out)@ == old(out)@ + escaped(s@),
{
    let chars = chars_of(s);
    let ghost before = out@;
    let mut i: usize = 0;
    assert(before + escaped(seq![]) =~= before);
    assert(chars@.take(0) =~= seq![]);
    while i < chars.len()
        invariant
            i <= chars.len(),
            out@ == before + escaped(chars@.take(i as int)),
        decreases chars.len() - i,
    {
        proof {
            assert(chars@.take(i + 1).drop_last() =~= chars@.take(i as int));
        }
        let ghost so_far = out@;
        match chars[i] {
            '&' => push_text(out, "&amp;"),
            '<' => push_text(out, "&lt;"),
            '>' => push_text(out, "&gt;"),
            c => out.push(c),
        }
        assert(out@ =~= so_far + escape(chars@[i as int]));
        assert(out@ =~= before + escaped(chars@.take(i + 1)));
        i += 1;
    }
    assert(chars@.take(i as int) =~= chars@);
}

/// Escapes the characters of markup in a text of the user's.
pub fn glib_escape(s: &str) -> (res: String)
    ensures
        res@ == escaped(s@),
{
    let mut out: Vec<char> = Vec::new();
    push_escaped(&mut out, s);
    assert(out@ =~= escaped(s@));
    text_of(out.as_slice())
}

proof fn lemma_escaped_front(s: Seq<char>)
    requires
        s.len() > 0,
    ensures
        escaped(s) == escape(s[0]) + escaped(s.skip(1)),
    decreases s.len(),
{
    if s.len() == 1 {
        assert(s.skip(1) =~= seq![]);
        assert(s.drop_last() =~= seq![]);
        assert(escaped(s) =~= escape(s[0]) + escaped(s.skip(1)));
    } else {
        lemma_escaped_front(s.drop_last());
        assert(s.drop_last().skip(1) =~= s.skip(1).drop_last());
        assert(escaped(s) =~= escape(s[0]) + escaped(s.skip(1)));
    }
}

/// Escaped text reads as the text itself.
pub proof fn escaping_reads_back(s: Seq<char>)
    ensures
        unescaped(escaped(s)) == s,
    decreases s.len(),
{
    reveal_strlit("&amp;");
    reveal_strlit("&lt;");
    reveal_strlit("&gt;");
    if s.len() > 0 {
        lemma_escaped_front(s);
        escaping_reads_back(s.skip(1));
        let e = escaped(s);
        let rest = escaped(s.skip(1));
        let head = escape(s[0]);
        assert(e.take(head.len() as int) =~= head);
        assert(e.skip(head.len() as int) =~= rest);
        assert(seq![s[0]] + s.skip(1) =~= s);
        assert(e[0] == head[0]);
        if s[0] == '<' {
            assert(e[1] == 'l');
            assert(!crate::text::begins(e, "&amp;"@)) by {
                if crate::text::begins(e, "&amp;"@) {
                    assert(e.take(5)[1] == 'a');
                }
            }
        } else if s[0] == '>' {
            assert(e[1] == 'g');
            assert(!crate::text::begins(e, "&amp;"@)) by {
                if crate::text::begins(e, "&amp;"@) {
                    assert(e.take(5)[1] == 'a');
                }
            }
            assert(!crate::text::begins(e, "&lt;"@)) by {
                if crate::text::begins(e, "&lt;"@) {
                    assert(e.take(4)[1] == 'l');
                }
            }
        } else if s[0] != '&' {
            lemma_not_an_escape(e);
        }
    } else {
        assert(s =~= seq![]);
    }
}

proof fn lemma_not_an_escape(e: Seq<char>)
    requires
        e.len() > 0,
        e[0] != '&',
    ensures
        !crate::text::begins(e, "&amp;"@),
        !crate::text::begins(e, "&lt;"@),
        !crate::text::begins(e, "&gt;"@),
{
    reveal_strlit("&amp;");
    reveal_strlit("&lt;");
    reveal_strlit("&gt;");
    if crate::text::begins(e, "&amp;"@) {
        assert(e.take(5)[0] == '&');
    }
    if crate::text::begins(e, "&lt;"@) {
        assert(e.take(4)[0] == '&');
    }
    if crate::text::begins(e, "&gt;"@) {
        assert(e.take(4)[0] == '&');
    }
}

/// Escaped text holds no tag.
pub proof fn escaped_text_has_no_tags(s: Seq<char>)
    ensures
        !escaped(s).contains('<'),
        !escaped(s).contains('>'),
    decreases s.len(),
{
    reveal_strlit("&amp;");
    reveal_strlit("&lt;");
    reveal_strlit("&gt;");
    if s.len() > 0 {
        escaped_text_has_no_tags(s.drop_last());
        let a = escaped(s.drop_last());
        let e = escape(s.last());
        assert forall|i: int| 0 <= i < escaped(s).len() implies escaped(s)[i] != '<' && escaped(
            s,
        )[i] != '>' by {
            if i < a.len() {
                assert(escaped(s)[i] == a[i]);
                assert(a.contains(a[i]));
            } else {
                assert(escaped(s)[i] == e[i - a.len()]);
            }
        }
    }
}

// ---------------------------------------------------------------------------
// The palette
// ---------------------------------------------------------------------------

/// The palette's title.
pub open spec fn title_of(mode: PaletteMode) -> Seq<char> {
    match mode {
        PaletteMode::All => "Palette"@,
        PaletteMode::Commands => "Command Palette"@,
        PaletteMode::History => "History"@,
        PaletteMode::Ai => "Ask AI"@,
        PaletteMode::Workflows => "Workflows"@,
    }
}

/// The palette's title.
pub fn palette_title(mode: PaletteMode) -> (res: &'static str)
    ensures
        res@ == title_of(mode),
{
    match mode {
        PaletteMode::All => "Palette",
        PaletteMode::Commands => "Command Palette",
        PaletteMode::History => "History",
        PaletteMode::Ai => "Ask AI",
        PaletteMode::Workflows => "Workflows",
    }
}

/// The words in the palette's empty entry.
pub open spec fn placeholder_of(mode: PaletteMode) -> Seq<char> {
    match mode {
        PaletteMode::All => "Search everything…  (> commands, @ history, : workflows, ? AI)"@,
        PaletteMode::Commands => "Search commands…  (@ history, : workflows, ? AI)"@,
        PaletteMode::History => "Search history…  (> commands, : workflows, ? AI)"@,
        PaletteMode::Ai => "Describe what you want…"@,
        PaletteMode::Workflows => "Search workflows…  (> commands, @ history)"@,
    }
}

/// The words in the palette's empty entry.
pub fn palette_placeholder(mode: PaletteMode) -> (res: &'static str)
    ensures
        res@ == placeholder_of(mode),
{
    match mode {
        PaletteMode::All => "Search everything…  (> commands, @ history, : workflows, ? AI)",
        PaletteMode::Commands => "Search commands…  (@ history, : workflows, ? AI)",
        PaletteMode::History => "Search history…  (> commands, : workflows, ? AI)",
        PaletteMode::Ai => "Describe what you want…",
        PaletteMode::Workflows => "Search workflows…  (> commands, @ history)",
    }
}

/// The texts of a row: its title and its subtitle as markup, and its hint.
#[derive(Debug)]
pub struct RowTexts {
    pub title: String,
    pub subtitle: Option<String>,
    pub right: Option<String>,
}

/// A subtitle as markup, unless there is none to show.
pub open spec fn subtitle_of(text: Option<Seq<char>>) -> Option<Seq<char>> {
    match text {
        Some(t) if t.len() > 0 => Some(escaped(t)),
        _ => None,
    }
}

fn subtitle(text: &str) -> (res: Option<String>)
    ensures
        crate::text::optional_string(res) == subtitle_of(Some(text@)),
{
    if chars_of(text).len() > 0 {
        Some(glib_escape(text))
    } else {
        None
    }
}

/// The texts of a palette row.
pub fn row_texts(entry: &Entry) -> (res: RowTexts)
    ensures
        res.title@ == escaped(entry@.label),
        crate::text::optional_string(res.subtitle) == subtitle_of(entry@.sublabel),
        crate::text::optional_string(res.right) == entry@.right,
{
    let sub = match &entry.sublabel {
        Some(s) => subtitle(s.as_str()),
        None => None,
    };
    let right = match &entry.right {
        Some(r) => Some(r.as_str().to_string()),
        None => None,
    };
    RowTexts { title: glib_escape(entry.label.as_str()), subtitle: sub, right }
}

// ---------------------------------------------------------------------------
// Moving through a list
// ---------------------------------------------------------------------------

/// A key in a list.
#[derive(Clone, Copy, PartialEq, Eq, Debug, Structural)]
pub enum ListKey {
    /// A key that closes the list.
    Close,
    /// The key that activates the selected row.
    Activate,
    Down,
    Up,
    /// Any other key.
    Other,
}

/// What a key does in a list.
#[derive(Clone, Copy, PartialEq, Eq, Debug, Structural)]
pub enum ListStep {
    Close,
    /// Activate the row at a position.
    Fire(usize),
    /// Select the row at a position.
    Select(usize),
    /// Nothing; the key is used up.
    Stay,
    /// The key goes on to the entry.
    Pass,
}

/// The first row in sight from a position on.
pub open spec fn next_visible(visible: Seq<bool>, i: int) -> Option<int>
    decreases visible.len() - i,
{
    if i < 0 || i >= visible.len() {
        None
    } else if visible[i] {
        Some(i)
    } else {
        next_visible(visible, i + 1)
    }
}

/// The last row in sight before a position.
pub open spec fn previous_visible(visible: Seq<bool>, i: int) -> Option<int>
    decreases i,
{
    if i <= 0 || i > visible.len() {
        None
    } else if visible[i - 1] {
        Some(i - 1)
    } else {
        previous_visible(visible, i - 1)
    }
}

/// What a key does in a list, given which of its rows are in sight and which
/// one is selected.
pub open spec fn list_step_of(key: ListKey, selected: Option<usize>, visible: Seq<bool>) -> ListStep {
    match key {
        ListKey::Close => ListStep::Close,
        ListKey::Activate => match selected {
            Some(i) => ListStep::Fire(i),
            None => ListStep::Stay,
        },
        ListKey::Down => {
            let from = match selected {
                Some(i) => i + 1,
                None => 0,
            };
            match next_visible(visible, from) {
                Some(i) => ListStep::Select(i as usize),
                None => ListStep::Stay,
            }
        },
        ListKey::Up => {
            let before = match selected {
                Some(i) => i as int,
                None => 0,
            };
            match previous_visible(visible, before) {
                Some(i) => ListStep::Select(i as usize),
                None => ListStep::Stay,
            }
        },
        ListKey::Other => ListStep::Pass,
    }
}

fn first_from(visible: &[bool], from: usize) -> (res: Option<usize>)
    ensures
        match res {
            Some(i) => next_visible(visible@, from as int) == Some(i as int) && i < visible@.len(),
            None => next_visible(visible@, from as int) is None,
        },
{
    let mut i: usize = from;
    while i < visible.len()
        invariant
            next_visible(visible@, from as int) == next_visible(visible@, i as int),
        decreases visible.len() - i,
    {
        if visible[i] {
            return Some(i);
        }
        i += 1;
    }
    None
}

fn last_before(visible: &[bool], before: usize) -> (res: Option<usize>)
    ensures
        match res {
            Some(i) => previous_visible(visible@, before as int) == Some(i as int),
            None => previous_visible(visible@, before as int) is None,
        },
{
    if before > visible.len() {
        return None;
    }
    let mut i: usize = before;
    while i > 0
        invariant
            i <= before <= visible.len(),
            previous_visible(visible@, before as int) == previous_visible(visible@, i as int),
        decreases i,
    {
        if visible[i - 1] {
            return Some(i - 1);
        }
        i -= 1;
    }
    None
}

/// What a key does in a list, given which of its rows are in sight and which
/// one is selected.
pub fn list_step(key: ListKey, selected: Option<usize>, visible: &[bool]) -> (res: ListStep)
    requires
        selected matches Some(i) ==> i < visible@.len(),
    ensures
        res == list_step_of(key, selected, visible@),
{
    match key {
        ListKey::Close => ListStep::Close,
        ListKey::Activate => match selected {
            Some(i) => ListStep::Fire(i),
            None => ListStep::Stay,
        },
        ListKey::Down => {
            let n: usize = visible.len();
            let from: usize = match selected {
                Some(i) => i + 1,
                None => 0,
            };
            match first_from(visible, from) {
                Some(i) => ListStep::Select(i),
                None => ListStep::Stay,
            }
        },
        ListKey::Up => {
            let before: usize = match selected {
                Some(i) => i,
                None => 0,
            };
            match last_before(visible, before) {
                Some(i) => ListStep::Select(i),
                None => ListStep::Stay,
            }
        },
        ListKey::Other => ListStep::Pass,
    }
}

/// Moving through a list stops at rows in sight only, and passes none over.
pub proof fn moving_stops_in_sight(visible: Seq<bool>, i: int)
    requires
        0 <= i <= visible.len(),
    ensures
        next_visible(visible, i) matches Some(j) ==> i <= j < visible.len() && visible[j] && forall|
            k: int,
        |
            i <= k < j ==> !#[trigger] visible[k],
        next_visible(visible, i) is None ==> forall|k: int|
            i <= k < visible.len() ==> !#[trigger] visible[k],
        previous_visible(visible, i) matches Some(j) ==> 0 <= j < i && visible[j] && forall|k: int|
            j < k < i ==> !#[trigger] visible[k],
        previous_visible(visible, i) is None ==> forall|k: int|
            0 <= k < i ==> !#[trigger] visible[k],
{
    lemma_next_visible(visible, i);
    lemma_previous_visible(visible, i);
}

proof fn lemma_next_visible(visible: Seq<bool>, i: int)
    requires
        0 <= i <= visible.len(),
    ensures
        next_visible(visible, i) matches Some(j) ==> i <= j < visible.len() && visible[j] && forall|
            k: int,
        |
            i <= k < j ==> !#[trigger] visible[k],
        next_visible(visible, i) is None ==> forall|k: int|
            i <= k < visible.len() ==> !#[trigger] visible[k],
    decreases visible.len() - i,
{
    if i < visible.len() && !visible[i] {
        lemma_next_visible(visible, i + 1);
    }
}

proof fn lemma_previous_visible(visible: Seq<bool>, i: int)
    requires
        0 <= i <= visible.len(),
    ensures
        previous_visible(visible, i) matches Some(j) ==> 0 <= j < i && visible[j] && forall|k: int|
            j < k < i ==> !#[trigger] visible[k],
        previous_visible(visible, i) is None ==> forall|k: int|
            0 <= k < i ==> !#[trigger] visible[k],
    decreases i,
{
    if i > 0 && !visible[i - 1] {
        lemma_previous_visible(visible, i - 1);
    }
}

// ---------------------------------------------------------------------------
// Workflows
// ---------------------------------------------------------------------------

/// A field of the dialog that fills in a workflow.
#[derive(Debug)]
pub struct Field {
    pub title: String,
    pub subtitle: Option<String>,
    /// What the field holds at first.
    pub text: String,
}

/// What a [`Field`] holds.
pub struct FieldView {
    pub title: Seq<char>,
    pub subtitle: Option<Seq<char>>,
    pub text: Seq<char>,
}

impl View for Field {
    type V = FieldView;

    open spec fn view(&self) -> FieldView {
        FieldView {
            title: self.title@,
            subtitle: crate::text::optional_string(self.subtitle),
            text: self.text@,
        }
    }
}

/// The field of an argument.
pub open spec fn field_of(arg: WorkflowArg) -> FieldView {
    FieldView {
        title: escaped(arg.name@),
        subtitle: subtitle_of(Some(arg.description@)),
        text: match arg.default {
            Some(d) => d@,
            None => seq![],
        },
    }
}

/// The fields of arguments, one by one.
pub open spec fn fields_of(args: Seq<WorkflowArg>) -> Seq<FieldView> {
    args.map_values(|a: WorkflowArg| field_of(a))
}

/// The fields of the dialog that fills in a workflow.
pub fn workflow_fields(workflow: &Workflow) -> (res: Vec<Field>)
    ensures
        res@.map_values(|f: Field| f@) == fields_of(workflow.args@),
{
    let mut out: Vec<Field> = Vec::new();
    let mut i: usize = 0;
    let ghost all = fields_of(workflow.args@);
    while i < workflow.args.len()
        invariant
            i <= workflow.args.len(),
            all == fields_of(workflow.args@),
            out@.map_values(|f: Field| f@) =~= all.take(i as int),
        decreases workflow.args.len() - i,
    {
        let arg = &workflow.args[i];
        let ghost before = out@;
        let none: Vec<char> = Vec::new();
        assert(none@ =~= seq![]);
        let field = Field {
            title: glib_escape(arg.name.as_str()),
            subtitle: subtitle(arg.description.as_str()),
            text: match &arg.default {
                Some(d) => d.as_str().to_string(),
                None => text_of(none.as_slice()),
            },
        };
        assert(field@ == all[i as int]);
        out.push(field);
        assert(out@.map_values(|f: Field| f@) =~= before.map_values(|f: Field| f@).push(
            all[i as int],
        ));
        i += 1;
    }
    assert(all.take(i as int) =~= all);
    out
}

/// The title of the dialog that fills in a workflow.
pub fn workflow_title(workflow: &Workflow) -> (res: String)
    ensures
        res@ == "Workflow: "@ + workflow.name@,
{
    let mut out: Vec<char> = chars_of("Workflow: ");
    push_text(&mut out, workflow.name.as_str());
    text_of(out.as_slice())
}

/// The workflow's command as markup in a fixed-width face.
pub fn workflow_preview(workflow: &Workflow) -> (res: String)
    ensures
        res@ == "<tt>"@ + escaped(workflow.command@) + "</tt>"@,
{
    let mut out: Vec<char> = chars_of("<tt>");
    push_escaped(&mut out, workflow.command.as_str());
    push_text(&mut out, "</tt>");
    text_of(out.as_slice())
}

/// The values that the fields of a workflow's dialog hold, by argument.
pub open spec fn are_values(
    values: Seq<(String, String)>,
    args: Seq<WorkflowArg>,
    texts: Seq<String>,
) -> bool {
    &&& values.len() == args.len()
    &&& forall|i: int|
        0 <= i < values.len() ==> (#[trigger] values[i]).0@ == args[i].name@ && values[i].1@
            == texts[i]@
}

/// The workflow's command with the values that its fields hold, in the order of
/// its arguments.
pub fn submit_workflow(workflow: &Workflow, texts: &[String]) -> (res: Result<String, String>)
    requires
        texts@.len() == workflow.args@.len(),
    ensures
        exists|values: Seq<(String, String)>|
            {
                &&& #[trigger] are_values(values, workflow.args@, texts@)
                &&& res is Ok <==> crate::workflows::missing(
                    crate::workflows::pieces(workflow.command@),
                    values,
                    workflow.args@,
                ).len() == 0
                &&& res matches Ok(text) ==> text@ == crate::workflows::filled(
                    crate::workflows::pieces(workflow.command@),
                    values,
                    workflow.args@,
                )
                &&& res matches Err(e) ==> e@ == "missing values: "@ + crate::text::joined(
                    crate::workflows::missing(
                        crate::workflows::pieces(workflow.command@),
                        values,
                        workflow.args@,
                    ),
                    ", "@,
                )
            },
{
    let mut values: Vec<(String, String)> = Vec::new();
    let mut i: usize = 0;
    while i < workflow.args.len()
        invariant
            i <= workflow.args.len(),
            texts@.len() == workflow.args@.len(),
            values@.len() == i,
            forall|j: int|
                0 <= j < i ==> (#[trigger] values@[j]).0@ == workflow.args@[j].name@
                    && values@[j].1@ == texts@[j]@,
        decreases workflow.args.len() - i,
    {
        values.push(
            (workflow.args[i].name.as_str().to_string(), texts[i].as_str().to_string()),
        );
        i += 1;
    }
    assert(are_values(values@, workflow.args@, texts@));
    render(workflow, values.as_slice())
}

// ---------------------------------------------------------------------------
// Remote hosts
// ---------------------------------------------------------------------------

/// A remote host.
#[derive(Debug)]
pub struct RemoteHost {
    pub name: String,
    pub host: String,
    pub user: Option<String>,
}

/// What is connected to: the host, with the user's name before it if one is
/// given.
pub open spec fn target_of(h: RemoteHost) -> Seq<char> {
    match h.user {
        Some(u) => u@ + "@"@ + h.host@,
        None => h.host@,
    }
}

/// What a host is searched by.
pub open spec fn haystack_of(h: RemoteHost) -> Seq<char> {
    crate::text::lowercased(h.name@ + " "@ + target_of(h))
}

/// A host is in sight of a query.
pub open spec fn host_matches(h: RemoteHost, query: Seq<char>) -> bool {
    crate::text::lowercased(query).len() == 0 || crate::text::contains(
        haystack_of(h),
        crate::text::lowercased(query),
    )
}

impl RemoteHost {
    /// What is connected to.
    pub fn target(&self) -> (res: String)
        ensures
            res@ == target_of(*self),
    {
        match &self.user {
            Some(u) => {
                let mut out: Vec<char> = chars_of(u.as_str());
                push_text(&mut out, "@");
                push_text(&mut out, self.host.as_str());
                text_of(out.as_slice())
            },
            None => self.host.as_str().to_string(),
        }
    }
}

/// Which hosts are in sight of a query.
pub fn visible_hosts(hosts: &[RemoteHost], query: &str) -> (res: Vec<bool>)
    ensures
        res@.len() == hosts@.len(),
        forall|i: int|
            0 <= i < hosts@.len() ==> #[trigger] res@[i] == host_matches(hosts@[i], query@),
{
    let lowered = lowercase(query);
    let empty = chars_of(lowered.as_str()).len() == 0;
    let mut out: Vec<bool> = Vec::new();
    let mut i: usize = 0;
    while i < hosts.len()
        invariant
            i <= hosts.len(),
            lowered@ == crate::text::lowercased(query@),
            empty == (lowered@.len() == 0),
            out@.len() == i,
            forall|j: int| 0 <= j < i ==> #[trigger] out@[j] == host_matches(hosts@[j], query@),
        decreases hosts.len() - i,
    {
        let mut line: Vec<char> = chars_of(hosts[i].name.as_str());
        push_text(&mut line, " ");
        push_text(&mut line, hosts[i].target().as_str());
        let hay = lowercase(text_of(line.as_slice()).as_str());
        out.push(empty || has_text(chars_of(hay.as_str()).as_slice(), lowered.as_str()));
        i += 1;
    }
    out
}

/// The row that is selected after a search: the first one in sight, if any.
pub fn first_visible(visible: &[bool]) -> (res: Option<usize>)
    ensures
        match res {
            Some(i) => next_visible(visible@, 0) == Some(i as int),
            None => next_visible(visible@, 0) is None,
        },
{
    first_from(visible, 0)
}

/// What picking the host at a position asks for.
pub fn connect_action(index: usize) -> (res: Action)
    ensures
        res == Action::ConnectRemote(index),
{
    Action::ConnectRemote(index)
}

// ---------------------------------------------------------------------------
// Closing, and the settings
// ---------------------------------------------------------------------------

/// What is asked before something is closed in which a command runs.
pub fn confirm_close_body(running: &str) -> (res: String)
    ensures
        res@ == "A process is still running here:\n\n"@ + running@ + "\n\nClose anyway?"@,
{
    let mut out: Vec<char> = chars_of("A process is still running here:\n\n");
    push_text(&mut out, running);
    push_text(&mut out, "\n\nClose anyway?");
    text_of(out.as_slice())
}

/// The position of the first name that is `wanted`.
pub open spec fn name_at(names: Seq<Seq<char>>, wanted: Seq<char>) -> Option<int> {
    let i = crate::text::until(names, wanted);
    if i < names.len() {
        Some(i as int)
    } else {
        None
    }
}

fn find_name(names: &[String], wanted: &str) -> (res: Option<usize>)
    ensures
        match res {
            Some(i) => name_at(crate::text::texts(names@), wanted@) == Some(i as int) && i
                < names@.len(),
            None => name_at(crate::text::texts(names@), wanted@) is None,
        },
{
    let mut i: usize = 0;
    let ghost all = crate::text::texts(names@);
    while i < names.len() && !same_text(names[i].as_str(), wanted)
        invariant
            i <= names.len(),
            all == crate::text::texts(names@),
            forall|j: int| 0 <= j < i ==> all[j] != wanted@,
        decreases names.len() - i,
    {
        assert(all[i as int] == names@[i as int]@);
        i += 1;
    }
    proof {
        if i < names.len() {
            assert(all[i as int] == names@[i as int]@);
        }
        crate::text::lemma_until_at(all, wanted@, i as int);
    }
    if i < names.len() {
        Some(i)
    } else {
        None
    }
}

/// The position of the current choice in a list, which is the first one where
/// the list does not hold it.
pub fn selected_index(names: &[String], current: &str) -> (res: usize)
    ensures
        res == match name_at(crate::text::texts(names@), current@) {
            Some(i) => i,
            None => 0,
        },
{
    match find_name(names, current) {
        Some(i) => i,
        None => 0,
    }
}

/// The position of the theme to use: the one that is asked for, else the first
/// one, if there is any.
pub fn theme_index(names: &[String], wanted: &str) -> (res: Option<usize>)
    ensures
        match res {
            Some(i) => names@.len() > 0 && i == (match name_at(
                crate::text::texts(names@),
                wanted@,
            ) {
                Some(k) => k,
                None => 0,
            }),
            None => names@.len() == 0,
        },
{
    match find_name(names, wanted) {
        Some(i) => Some(i),
        None => if names.len() > 0 {
            Some(0)
        } else {
            None
        },
    }
}

/// The name of a font family.
#[derive(Debug)]
pub struct FamilyName {
    pub name: String,
}

/// Families come in the order of their names, without regard to case.
impl Rank for FamilyName {
    open spec fn ranks(self, other: FamilyName) -> bool {
        crate::order::text_ranks(
            crate::text::lowercased(self.name@),
            crate::text::lowercased(other.name@),
        )
    }

    proof fn ranks_totally(a: FamilyName, b: FamilyName) {
        crate::order::text_ranks_totally(
            crate::text::lowercased(a.name@),
            crate::text::lowercased(b.name@),
        );
    }

    proof fn ranks_transitively(a: FamilyName, b: FamilyName, c: FamilyName) {
        crate::order::text_ranks_transitively(
            crate::text::lowercased(a.name@),
            crate::text::lowercased(b.name@),
            crate::text::lowercased(c.name@),
        );
    }
}

impl Ranked for FamilyName {
    fn at_most(&self, other: &FamilyName) -> (res: bool) {
        let a = chars_of(lowercase(self.name.as_str()).as_str());
        let b = chars_of(lowercase(other.name.as_str()).as_str());
        text_at_most(a.as_slice(), b.as_slice())
    }
}

/// Puts font families in the order in which they are offered.
pub fn sort_families(families: Vec<FamilyName>) -> (res: Vec<FamilyName>)
    ensures
        res@ == crate::order::in_order(families@),
{
    sort(families)
}

/// The description of a font: its family, `Monospace` where none is chosen, and
/// its size.
pub fn font_description(family: Option<&str>, size: i32) -> (res: String)
    ensures
        res@ == (match family {
            Some(f) => f@,
            None => "Monospace"@,
        }) + " "@ + crate::text::signed_decimal(size as int),
{
    let mut out: Vec<char> = match family {
        Some(f) => chars_of(f),
        None => chars_of("Monospace"),
    };
    push_text(&mut out, " ");
    push_signed(&mut out, size);
    text_of(out.as_slice())
}

} // verus!
