//! Parameterised command templates — "workflows".
//!
//! A workflow has a name, a description, an optional tag list, a command
//! template with `{{arg}}` placeholders, and a list of named arguments (each
//! with an optional default and description). A single broken file should
//! never disable the rest.
//!
//! The render step is intentionally tiny: literal substitution of `{{name}}`.

use vstd::prelude::*;
use vstd::slice::slice_subrange;

use crate::order::{text_at_most, Rank, Ranked};
use crate::text::{
    ascii_lowercase, chars_of, is_all_white, is_text, join_strings, push_text, same_text, text_of, trim,
};

verus! {

/// One named argument of a workflow.
#[derive(Debug)]
pub struct WorkflowArg {
    pub name: String,
    pub description: String,
    pub default: Option<String>,
}

/// A parameterised command.
#[derive(Debug)]
pub struct Workflow {
    pub name: String,
    pub description: String,
    pub command: String,
    pub tags: Vec<String>,
    pub args: Vec<WorkflowArg>,
    /// The file from which the workflow was loaded.
    pub source_path: Option<String>,
}

// ---------------------------------------------------------------------------
// Rendering
// ---------------------------------------------------------------------------

/// A literal text or a placeholder.
pub enum Piece {
    Literal(Seq<char>),
    Slot(Seq<char>),
}

/// The number of characters before the first `}}`; `None` if there is none.
pub open spec fn closing(s: Seq<char>) -> Option<nat>
    decreases s.len(),
{
    if s.len() < 2 {
        None
    } else if s[0] == '}' && s[1] == '}' {
        Some(0)
    } else {
        match closing(s.drop_first()) {
            Some(n) => Some(n + 1),
            None => None,
        }
    }
}

/// The closing braces lie within the text.
pub proof fn closing_lies_within(s: Seq<char>)
    ensures
        closing(s) matches Some(n) ==> n + 2 <= s.len(),
    decreases s.len(),
{
    if s.len() >= 2 {
        closing_lies_within(s.drop_first());
    }
}

/// The placeholder at the front of `s`, and the number of characters that it
/// takes up with its braces.
pub open spec fn slot_at(s: Seq<char>) -> Option<(Seq<char>, nat)> {
    if s.len() >= 2 && s[0] == '{' && s[1] == '{' {
        match closing(s.skip(2)) {
            Some(n) => Some((crate::text::trimmed(s.skip(2).take(n as int)), n + 4)),
            None => None,
        }
    } else {
        None
    }
}

/// A template as literal characters and placeholders. Braces that are not
/// closed are literal.
pub open spec fn pieces(s: Seq<char>) -> Seq<Piece>
    decreases s.len(),
{
    if s.len() == 0 {
        seq![]
    } else {
        proof {
            closing_lies_within(s.skip(2));
        }
        match slot_at(s) {
            Some((name, len)) => seq![Piece::Slot(name)] + pieces(s.skip(len as int)),
            None => seq![Piece::Literal(seq![s[0]])] + pieces(s.skip(1)),
        }
    }
}

/// The given value of a name; the last one counts.
pub open spec fn value_of(values: Seq<(String, String)>, name: Seq<char>) -> Option<Seq<char>>
    decreases values.len(),
{
    if values.len() == 0 {
        None
    } else if values.last().0@ == name {
        Some(values.last().1@)
    } else {
        value_of(values.drop_last(), name)
    }
}

/// The default of the first argument of a name.
pub open spec fn default_of(args: Seq<WorkflowArg>, name: Seq<char>) -> Option<Seq<char>>
    decreases args.len(),
{
    if args.len() == 0 {
        None
    } else if args[0].name@ == name {
        match args[0].default {
            Some(d) => Some(d@),
            None => None,
        }
    } else {
        default_of(args.drop_first(), name)
    }
}

/// What a placeholder stands for: the given value, else the declared default.
pub open spec fn resolved(
    values: Seq<(String, String)>,
    args: Seq<WorkflowArg>,
    name: Seq<char>,
) -> Option<Seq<char>> {
    match value_of(values, name) {
        Some(v) => Some(v),
        None => default_of(args, name),
    }
}

/// The text of the pieces, as far as the placeholders are resolved.
pub open spec fn filled(
    pieces: Seq<Piece>,
    values: Seq<(String, String)>,
    args: Seq<WorkflowArg>,
) -> Seq<char>
    decreases pieces.len(),
{
    if pieces.len() == 0 {
        seq![]
    } else {
        filled(pieces.drop_last(), values, args) + (match pieces.last() {
            Piece::Literal(text) => text,
            Piece::Slot(name) => match resolved(values, args, name) {
                Some(v) => v,
                None => seq![],
            },
        })
    }
}

/// The names of the placeholders that are not resolved, each once, in order.
pub open spec fn missing(
    pieces: Seq<Piece>,
    values: Seq<(String, String)>,
    args: Seq<WorkflowArg>,
) -> Seq<Seq<char>>
    decreases pieces.len(),
{
    if pieces.len() == 0 {
        seq![]
    } else {
        let before = missing(pieces.drop_last(), values, args);
        match pieces.last() {
            Piece::Slot(name) if resolved(values, args, name) is None && !before.contains(name)
                => before.push(name),
            _ => before,
        }
    }
}

fn find_close(s: &[char]) -> (res: Option<usize>)
    ensures
        res is Some <==> closing(s@) is Some,
        res matches Some(n) ==> closing(s@) == Some(n as nat) && n + 2 <= s@.len(),
{
    let mut i: usize = 0;
    assert(s@.skip(0) =~= s@);
    while s.len() - i >= 2
        invariant
            i <= s.len(),
            closing(s@) is Some <==> closing(s@.skip(i as int)) is Some,
            closing(s@.skip(i as int)) matches Some(n) ==> closing(s@) == Some(n + i as nat),
        decreases s.len() - i,
    {
        let ghost rest = s@.skip(i as int);
        assert(rest[0] == s@[i as int] && rest[1] == s@[i + 1]);
        if s[i] == '}' && s[i + 1] == '}' {
            return Some(i);
        }
        assert(rest.drop_first() =~= s@.skip(i + 1));
        i += 1;
    }
    None
}

fn read_slot(s: &[char]) -> (res: Option<(String, usize)>)
    ensures
        res is Some <==> slot_at(s@) is Some,
        res matches Some((name, len)) ==> slot_at(s@) == Some((name@, len as nat)) && 4 <= len
            <= s@.len(),
{
    if s.len() >= 2 && s[0] == '{' && s[1] == '{' {
        let rest = slice_subrange(s, 2, s.len());
        assert(rest@ =~= s@.skip(2));
        if let Some(n) = find_close(rest) {
            let inner = slice_subrange(rest, 0, n);
            assert(inner@ =~= rest@.take(n as int));
            return Some((text_of(trim(inner)), n + 4));
        }
    }
    None
}

fn find_value<'a>(values: &'a [(String, String)], name: &str) -> (res: Option<&'a str>)
    ensures
        res is Some <==> value_of(values@, name@) is Some,
        res matches Some(v) ==> value_of(values@, name@) == Some(v@),
{
    let mut i: usize = values.len();
    assert(values@.take(i as int) =~= values@);
    while i > 0
        invariant
            i <= values.len(),
            value_of(values@.take(i as int), name@) == value_of(values@, name@),
        decreases i,
    {
        i -= 1;
        assert(values@.take(i + 1).drop_last() =~= values@.take(i as int));
        if same_text(values[i].0.as_str(), name) {
            return Some(values[i].1.as_str());
        }
    }
    None
}

fn find_default<'a>(args: &'a [WorkflowArg], name: &str) -> (res: Option<&'a str>)
    ensures
        res is Some <==> default_of(args@, name@) is Some,
        res matches Some(v) ==> default_of(args@, name@) == Some(v@),
{
    let mut i: usize = 0;
    assert(args@.skip(0) =~= args@);
    while i < args.len()
        invariant
            i <= args.len(),
            default_of(args@.skip(i as int), name@) == default_of(args@, name@),
        decreases args.len() - i,
    {
        assert(args@.skip(i as int).drop_first() =~= args@.skip(i + 1));
        if same_text(args[i].name.as_str(), name) {
            return match &args[i].default {
                Some(d) => Some(d.as_str()),
                None => None,
            };
        }
        i += 1;
    }
    None
}

fn has_name(names: &[String], name: &str) -> (res: bool)
    ensures
        res == crate::text::texts(names@).contains(name@),
{
    let ghost all = crate::text::texts(names@);
    let mut i: usize = 0;
    while i < names.len()
        invariant
            i <= names.len(),
            all == crate::text::texts(names@),
            forall|j: int| 0 <= j < i ==> all[j] != name@,
        decreases names.len() - i,
    {
        if same_text(names[i].as_str(), name) {
            assert(all[i as int] == name@);
            return true;
        }
        i += 1;
    }
    false
}

proof fn lemma_push_piece(
    done: Seq<Piece>,
    p: Piece,
    values: Seq<(String, String)>,
    args: Seq<WorkflowArg>,
)
    ensures
        done.push(p).drop_last() == done,
{
    assert(done.push(p).drop_last() =~= done);
}

/// Substitutes `{{name}}` occurrences with values from `values`, or with the
/// declared defaults. The error lists the placeholders that are left
/// unresolved, so they can be shown instead of running half a command.
pub fn render(workflow: &Workflow, values: &[(String, String)]) -> (res: Result<String, String>)
    ensures
        res is Ok <==> missing(pieces(workflow.command@), values@, workflow.args@).len() == 0,
        res matches Ok(text) ==> text@ == filled(
            pieces(workflow.command@),
            values@,
            workflow.args@,
        ),
        res matches Err(e) ==> e@ == "missing values: "@ + crate::text::joined(
            missing(pieces(workflow.command@), values@, workflow.args@),
            ", "@,
        ),
{
    let chars: Vec<char> = chars_of(workflow.command.as_str());
    let mut out: Vec<char> = Vec::new();
    let mut names: Vec<String> = Vec::new();
    let ghost all = pieces(chars@);
    let ghost mut done: Seq<Piece> = seq![];
    let mut i: usize = 0;
    proof {
        assert(chars@.skip(0) =~= chars@);
        assert(done + all =~= all);
        assert(crate::text::texts(names@) =~= seq![]);
    }
    while i < chars.len()
        invariant
            i <= chars.len(),
            chars@ == workflow.command@,
            all == pieces(chars@),
            done + pieces(chars@.skip(i as int)) == all,
            out@ == filled(done, values@, workflow.args@),
            crate::text::texts(names@) == missing(done, values@, workflow.args@),
        decreases chars.len() - i,
    {
        let rest = slice_subrange(chars.as_slice(), i, chars.len());
        assert(rest@ =~= chars@.skip(i as int));
        let ghost before = done;
        match read_slot(rest) {
            Some((name, len)) => {
                let ghost p = Piece::Slot(name@);
                proof {
                    done = before.push(p);
                    lemma_push_piece(before, p, values@, workflow.args@);
                    assert(rest@.skip(len as int) =~= chars@.skip(i + len));
                    assert(done + pieces(chars@.skip(i + len)) =~= before + pieces(rest@));
                }
                match find_value(values, name.as_str()) {
                    Some(v) => push_text(&mut out, v),
                    None => match find_default(workflow.args.as_slice(), name.as_str()) {
                        Some(v) => push_text(&mut out, v),
                        None => {
                            let ghost had = crate::text::texts(names@);
                            let ghost added = name@;
                            if !has_name(names.as_slice(), name.as_str()) {
                                names.push(name);
                                assert(crate::text::texts(names@) =~= had.push(added));
                            }
                            assert(out@ + Seq::<char>::empty() =~= out@);
                        },
                    },
                }
                i += len;
            },
            None => {
                let ghost p = Piece::Literal(seq![rest@[0]]);
                proof {
                    done = before.push(p);
                    lemma_push_piece(before, p, values@, workflow.args@);
                    assert(rest@.skip(1) =~= chars@.skip(i + 1));
                    assert(done + pieces(chars@.skip(i + 1)) =~= before + pieces(rest@));
                }
                out.push(chars[i]);
                assert(out@ =~= filled(done, values@, workflow.args@));
                i += 1;
            },
        }
    }
    proof {
        assert(pieces(chars@.skip(i as int)) =~= seq![]);
        assert(done =~= all);
        assert(crate::text::texts(names@).len() == names@.len());
    }
    if names.len() > 0 {
        let mut msg: Vec<char> = Vec::new();
        push_text(&mut msg, "missing values: ");
        let mut list: Vec<char> = join_strings(names.as_slice(), ", ");
        msg.append(&mut list);
        assert(msg@ =~= "missing values: "@ + crate::text::joined(
            crate::text::texts(names@),
            ", "@,
        ));
        return Err(text_of(msg.as_slice()));
    }
    Ok(text_of(out.as_slice()))
}

// ---------------------------------------------------------------------------
// Loading
// ---------------------------------------------------------------------------

/// Why a workflow is refused.
pub open spec fn refusal(name: Seq<char>, command: Seq<char>) -> Option<Seq<char>> {
    if crate::text::all_white(name) {
        Some("workflow has empty name"@)
    } else if crate::text::all_white(command) {
        Some("workflow has empty command"@)
    } else {
        None
    }
}

/// Accepts a workflow that was read, and notes its file. One without a name or
/// a command is refused.
pub fn accept(workflow: Workflow, path: String) -> (res: Result<Workflow, String>)
    ensures
        res is Ok <==> refusal(workflow.name@, workflow.command@) is None,
        res matches Ok(w) ==> w == (Workflow { source_path: Some(path), ..workflow }),
        res matches Err(e) ==> refusal(workflow.name@, workflow.command@) == Some(e@),
{
    if is_all_white(chars_of(workflow.name.as_str()).as_slice()) {
        return Err("workflow has empty name".to_owned());
    }
    if is_all_white(chars_of(workflow.command.as_str()).as_slice()) {
        return Err("workflow has empty command".to_owned());
    }
    let mut w: Workflow = workflow;
    w.source_path = Some(path);
    Ok(w)
}

/// The position of the last dot of a file name.
pub open spec fn last_dot(name: Seq<char>, n: int) -> int
    decreases n,
{
    if n <= 0 {
        -1
    } else if name[n - 1] == '.' {
        n - 1
    } else {
        last_dot(name, n - 1)
    }
}

/// The extension of a file name: what follows its last dot, if anything
/// stands before that dot.
pub open spec fn extension(name: Seq<char>) -> Option<Seq<char>> {
    let i = last_dot(name, name.len() as int);
    if i <= 0 || name == ".."@ {
        None
    } else {
        Some(name.skip(i + 1))
    }
}

/// A file name of a workflow.
pub open spec fn is_workflow_name(name: Seq<char>) -> bool {
    match extension(name) {
        Some(e) => crate::text::ascii_lowered(e) == "yaml"@ || crate::text::ascii_lowered(e)
            == "yml"@,
        None => false,
    }
}

/// Tells whether a file name is that of a workflow: `*.yaml` or `*.yml`,
/// whatever the case.
pub fn is_workflow_file(name: &str) -> (res: bool)
    ensures
        res == is_workflow_name(name@),
{
    let chars: Vec<char> = chars_of(name);
    let mut n: usize = chars.len();
    while n > 0 && chars[n - 1] != '.'
        invariant
            n <= chars.len(),
            last_dot(chars@, n as int) == last_dot(chars@, chars@.len() as int),
        decreases n,
    {
        n -= 1;
    }
    if n <= 1 || is_text(chars.as_slice(), "..") {
        return false;
    }
    let ext = slice_subrange(chars.as_slice(), n, chars.len());
    assert(ext@ =~= chars@.skip(n as int));
    let lower: Vec<char> = ascii_lowercase(ext);
    is_text(lower.as_slice(), "yaml") || is_text(lower.as_slice(), "yml")
}

/// A file name, ordered by its characters.
#[derive(Debug)]
pub struct FileName {
    pub name: String,
}

impl Rank for FileName {
    open spec fn ranks(self, other: FileName) -> bool {
        crate::order::text_ranks(self.name@, other.name@)
    }

    proof fn ranks_totally(a: FileName, b: FileName) {
        crate::order::text_ranks_totally(a.name@, b.name@);
    }

    proof fn ranks_transitively(a: FileName, b: FileName, c: FileName) {
        crate::order::text_ranks_transitively(a.name@, b.name@, c.name@);
    }
}

impl Ranked for FileName {
    fn at_most(&self, other: &FileName) -> (res: bool) {
        text_at_most(
            chars_of(self.name.as_str()).as_slice(),
            chars_of(other.name.as_str()).as_slice(),
        )
    }
}

/// The workflow files among the names.
pub open spec fn workflow_names(names: Seq<FileName>) -> Seq<FileName>
    decreases names.len(),
{
    if names.len() == 0 {
        seq![]
    } else if is_workflow_name(names.last().name@) {
        workflow_names(names.drop_last()).push(names.last())
    } else {
        workflow_names(names.drop_last())
    }
}

/// The workflow files of a directory, in an order that does not depend on how
/// the directory was listed.
pub fn workflow_files(names: Vec<FileName>) -> (res: Vec<FileName>)
    ensures
        res@ == crate::order::in_order(workflow_names(names@)),
{
    let ghost all = names@;
    let mut rest: Vec<FileName> = names;
    let mut kept: Vec<FileName> = Vec::new();
    // Items are taken from the end, so they arrive in reverse.
    while rest.len() > 0
        invariant
            rest@ == all.take(rest@.len() as int),
            rest@.len() <= all.len(),
            workflow_names(rest@) + kept@.reverse() == workflow_names(all),
        decreases rest.len(),
    {
        let ghost before = rest@;
        let ghost had = kept@;
        if let Some(f) = rest.pop() {
            assert(rest@ =~= before.drop_last());
            assert(rest@ =~= all.take(rest@.len() as int));
            if is_workflow_file(f.name.as_str()) {
                kept.push(f);
                assert(workflow_names(rest@) + kept@.reverse() =~= workflow_names(before)
                    + had.reverse());
            }
        }
    }
    assert(kept@.reverse() =~= workflow_names(all));
    let mut out: Vec<FileName> = Vec::new();
    while kept.len() > 0
        invariant
            out@ + kept@.reverse() == workflow_names(all),
        decreases kept.len(),
    {
        let ghost before = kept@;
        let ghost had = out@;
        if let Some(f) = kept.pop() {
            out.push(f);
            assert(out@ + kept@.reverse() =~= had + before.reverse());
        }
    }
    assert(out@ =~= workflow_names(all));
    crate::order::sort(out)
}

// ---------------------------------------------------------------------------
// Laws
// ---------------------------------------------------------------------------

/// No two opening braces stand together.
pub open spec fn has_no_slot(s: Seq<char>) -> bool {
    forall|i: int| 0 <= i < s.len() - 1 ==> !(#[trigger] s[i] == '{' && s[i + 1] == '{')
}

/// Literal pieces of a text.
pub open spec fn literals(s: Seq<char>) -> Seq<Piece> {
    Seq::new(s.len(), |i: int| Piece::Literal(seq![s[i]]))
}

proof fn lemma_literal_pieces(s: Seq<char>)
    requires
        has_no_slot(s),
    ensures
        pieces(s) == literals(s),
    decreases s.len(),
{
    if s.len() > 0 {
        let t = s.skip(1);
        if s.len() >= 2 {
            assert(!(s[0] == '{' && s[1] == '{'));
        }
        assert(has_no_slot(t)) by {
            assert forall|i: int| 0 <= i < t.len() - 1 implies !(#[trigger] t[i] == '{' && t[i + 1]
                == '{') by {
                assert(t[i] == s[i + 1]);
                assert(t[i + 1] == s[i + 2]);
            }
        }
        lemma_literal_pieces(t);
        assert(pieces(s) =~= literals(s));
    } else {
        assert(pieces(s) =~= literals(s));
    }
}

pub(crate) proof fn lemma_literals_filled(
    s: Seq<char>,
    values: Seq<(String, String)>,
    args: Seq<WorkflowArg>,
)
    ensures
        filled(literals(s), values, args) == s,
        missing(literals(s), values, args).len() == 0,
    decreases s.len(),
{
    if s.len() > 0 {
        lemma_literals_filled(s.drop_last(), values, args);
        assert(literals(s).drop_last() =~= literals(s.drop_last()));
        assert(literals(s).last() == Piece::Literal(seq![s.last()]));
        assert(filled(literals(s), values, args) =~= s);
    } else {
        assert(filled(literals(s), values, args) =~= s);
    }
}

/// A command without placeholders is rendered as it stands, whatever values
/// are given.
pub proof fn plain_commands_stay(
    command: Seq<char>,
    values: Seq<(String, String)>,
    args: Seq<WorkflowArg>,
)
    requires
        has_no_slot(command),
    ensures
        filled(pieces(command), values, args) == command,
        missing(pieces(command), values, args).len() == 0,
{
    lemma_literal_pieces(command);
    lemma_literals_filled(command, values, args);
}

/// A name is reported as missing if and only if it is that of a placeholder
/// with neither a value nor a default.
pub proof fn what_is_missing_is_reported(
    ps: Seq<Piece>,
    values: Seq<(String, String)>,
    args: Seq<WorkflowArg>,
    name: Seq<char>,
)
    ensures
        missing(ps, values, args).contains(name) <==> ps.contains(Piece::Slot(name)) && resolved(
            values,
            args,
            name,
        ) is None,
    decreases ps.len(),
{
    if ps.len() > 0 {
        let front = ps.drop_last();
        what_is_missing_is_reported(front, values, args, name);
        let before = missing(front, values, args);
        let after = missing(ps, values, args);
        assert(ps =~= front.push(ps.last()));
        assert(ps.contains(Piece::Slot(name)) <==> front.contains(Piece::Slot(name)) || ps.last()
            == Piece::Slot(name)) by {
            if front.contains(Piece::Slot(name)) {
                let k = choose|k: int| 0 <= k < front.len() && front[k] == Piece::Slot(name);
                assert(ps[k] == Piece::Slot(name));
            }
            if ps.last() == Piece::Slot(name) {
                assert(ps[ps.len() - 1] == Piece::Slot(name));
            }
        }
        match ps.last() {
            Piece::Slot(n) => {
                if resolved(values, args, n) is None && !before.contains(n) {
                    assert(after == before.push(n));
                    assert(after.contains(name) <==> before.contains(name) || n == name) by {
                        if before.contains(name) {
                            let k = choose|k: int| 0 <= k < before.len() && before[k] == name;
                            assert(after[k] == name);
                        }
                        if n == name {
                            assert(after[before.len() as int] == name);
                        }
                    }
                }
            },
            Piece::Literal(_) => {},
        }
    }
}

proof fn lemma_no_slots_inside(s: Seq<char>)
    requires
        forall|i: int| 0 <= i < s.len() ==> #[trigger] s[i] != '}',
    ensures
        closing(s) is None,
        closing(s + seq!['}', '}']) == Some(s.len()),
    decreases s.len(),
{
    let t = s + seq!['}', '}'];
    if s.len() == 0 {
        assert(t[0] == '}' && t[1] == '}');
    } else {
        assert(s[0] != '}');
        assert(t[0] == s[0]);
        let u = s.drop_first();
        assert forall|i: int| 0 <= i < u.len() implies #[trigger] u[i] != '}' by {
            assert(u[i] == s[i + 1]);
        }
        lemma_no_slots_inside(u);
        assert(t.drop_first() =~= u + seq!['}', '}']);
    }
}

/// A placeholder that stands alone is rendered as its value.
pub proof fn placeholders_are_substituted(
    name: Seq<char>,
    values: Seq<(String, String)>,
    args: Seq<WorkflowArg>,
)
    requires
        forall|i: int| 0 <= i < name.len() ==> #[trigger] name[i] != '}',
    ensures
        pieces(seq!['{', '{'] + name + seq!['}', '}']) == seq![
            Piece::Slot(crate::text::trimmed(name)),
        ],
        resolved(values, args, crate::text::trimmed(name)) matches Some(v) ==> filled(
            pieces(seq!['{', '{'] + name + seq!['}', '}']),
            values,
            args,
        ) == v,
{
    let s = seq!['{', '{'] + name + seq!['}', '}'];
    lemma_no_slots_inside(name);
    assert(s.skip(2) =~= name + seq!['}', '}']);
    assert(s.skip(2).take(name.len() as int) =~= name);
    let slot = Piece::Slot(crate::text::trimmed(name));
    assert(s.skip(name.len() as int + 4) =~= seq![]);
    reveal_with_fuel(pieces, 2);
    assert(pieces(s) =~= seq![slot]);
    reveal_with_fuel(filled, 2);
    assert(seq![slot].drop_last() =~= seq![]);
    match resolved(values, args, crate::text::trimmed(name)) {
        Some(v) => {
            assert(filled(seq![slot], values, args) =~= v);
        },
        None => {},
    }
}

} // verus!
