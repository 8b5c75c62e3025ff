//! What the palette, the workflows and the dialogs offer, told of queries,
//! names and commands as they are written.

use vstd::prelude::*;

use crate::action::Action;
use crate::dialogs::{ListKey, ListStep, RemoteHost, RowTexts};
use crate::palette::{
    AcceptView, BoundAction, Entry, EntryView, HistoryItem, ItemView, PaletteMode,
};
use crate::workflows::{Piece, Workflow, WorkflowArg};

verus! {

// ---------------------------------------------------------------------------
// Queries
// ---------------------------------------------------------------------------

proof fn lemma_query(a: Seq<char>, c: char, b: Seq<char>, text: Seq<char>, default: PaletteMode)
    requires
        crate::wording::is_blank(a),
        crate::wording::is_blank(b),
        !crate::text::is_white(c),
        text.len() > 0 ==> !crate::text::is_white(text[0]),
    ensures
        ({
            let s = a + (seq![c] + (b + text));
            let t = crate::text::trimmed_start(s);
            &&& t == seq![c] + (b + text)
            &&& crate::text::trimmed_start(t.skip(1)) == text
        }),
{
    let s = a + (seq![c] + (b + text));
    crate::wording::lemma_trim_start(a, seq![c] + (b + text));
    let t = crate::text::trimmed_start(s);
    assert((seq![c] + (b + text))[0] == c);
    assert(t =~= seq![c] + (b + text));
    assert(t.skip(1) =~= b + text);
    crate::wording::lemma_trim_start(b, text);
}

/// A mark in front of a query chooses what is searched: `>` the commands, `@`
/// the history, `:` the workflows, and `?` asks. The rest is the query, without
/// the white space before it. Without a mark the palette's own mode stays.
pub proof fn marks_choose_what_is_searched(
    a: Seq<char>,
    b: Seq<char>,
    text: Seq<char>,
    default: PaletteMode,
)
    requires
        crate::wording::is_blank(a),
        crate::wording::is_blank(b),
        text.len() > 0 ==> !crate::text::is_white(text[0]),
    ensures
        crate::palette::query_of(a + (seq!['>'] + (b + text)), default) == (
            PaletteMode::Commands,
            text,
        ),
        crate::palette::query_of(a + (seq!['@'] + (b + text)), default) == (
            PaletteMode::History,
            text,
        ),
        crate::palette::query_of(a + (seq![':'] + (b + text)), default) == (
            PaletteMode::Workflows,
            text,
        ),
        crate::palette::query_of(a + (seq!['?'] + (b + text)), default) == (PaletteMode::Ai, text),
        text.len() == 0 || !seq!['>', '@', ':', '?'].contains(text[0])
            ==> crate::palette::query_of(a + text, default) == (default, text),
{
    lemma_query(a, '>', b, text, default);
    lemma_query(a, '@', b, text, default);
    lemma_query(a, ':', b, text, default);
    lemma_query(a, '?', b, text, default);
    crate::wording::lemma_trim_start(a, text);
    let marks = seq!['>', '@', ':', '?'];
    assert(marks[0] == '>' && marks[1] == '@' && marks[2] == ':' && marks[3] == '?');
}

/// Each mode searches its own rows, and the one without a mark searches all of
/// them: actions, then history, then workflows.
pub proof fn modes_search_their_rows(
    actions: Seq<BoundAction>,
    history: Seq<ItemView>,
    workflows: Seq<Workflow>,
    home: Option<Seq<char>>,
)
    ensures
        ({
            let a = Seq::new(actions.len(), |i: int| crate::palette::action_row(actions[i]));
            let h = Seq::new(
                history.len(),
                |i: int|
                    crate::palette::history_row(
                        history[history.len() - 1 - i],
                        history.len() - i,
                        home,
                    ),
            );
            let w = Seq::new(workflows.len(), |i: int| crate::palette::workflow_row(workflows[i]));
            &&& crate::palette::sources(PaletteMode::All, actions, history, workflows, home) == a
                + h + w
            &&& crate::palette::sources(PaletteMode::Commands, actions, history, workflows, home)
                == a
            &&& crate::palette::sources(PaletteMode::History, actions, history, workflows, home)
                == h
            &&& crate::palette::sources(PaletteMode::Workflows, actions, history, workflows, home)
                == w
        }),
{
    let a = Seq::new(actions.len(), |i: int| crate::palette::action_row(actions[i]));
    let w = Seq::new(workflows.len(), |i: int| crate::palette::workflow_row(workflows[i]));
    let h = crate::palette::history_rows(history, home);
    let none: Seq<EntryView> = seq![];
    assert(crate::palette::action_rows(actions) =~= a);
    assert(crate::palette::workflow_rows(workflows) =~= w);
    assert(a + none + none =~= a);
    assert(none + h + none =~= h);
    assert(none + none + w =~= w);
}

/// An action's row shows its name and its key and triggers it; a record's row
/// shows the command and where it ran, and types it; a workflow's row shows its
/// name and what it is for, and starts it. Actions come before records, and
/// records before workflows.
pub proof fn rows_do_what_they_show(
    a: BoundAction,
    h: ItemView,
    n: int,
    w: Workflow,
    path: String,
    home: Option<Seq<char>>,
)
    requires
        w.source_path == Some(path),
    ensures
        ({
            let x = crate::palette::action_row(a);
            let y = crate::palette::history_row(h, n, home);
            let z = crate::palette::workflow_row(w);
            &&& x.label == a.name@ && x.accept == AcceptView::Action(a.action)
            &&& a.binding@.len() > 0 ==> x.right == Some(a.binding@)
            &&& a.binding@.len() == 0 ==> x.right is None
            &&& y.label == h.command && y.accept == AcceptView::TypeCommand(h.command)
            &&& y.sublabel == Some(crate::palette::described(h, home))
            &&& y.score == n
            &&& z.label == w.name@ && z.accept == AcceptView::RunWorkflow(path@)
            &&& w.description@.len() > 0 ==> z.sublabel == Some(w.description@)
            &&& w.description@.len() == 0 ==> z.sublabel is None
            &&& x.tier < y.tier < z.tier
        }),
{
}

/// A record tells where it ran, from the home directory on, and how it ended
/// where it failed.
pub proof fn records_tell_how_they_ended(home: Seq<char>, rest: Seq<char>, item: ItemView)
    requires
        home.len() + rest.len() > 0,
        item.cwd == home + rest,
    ensures
        item.exit_code == 0 ==> crate::palette::described(item, Some(home)) == seq!['~'] + rest,
        item.exit_code != 0 ==> crate::palette::described(item, Some(home)) == seq!['~'] + rest
            + "  · exit "@ + crate::text::signed_decimal(item.exit_code),
        item.exit_code == 0 ==> crate::palette::described(item, None) == item.cwd,
{
    assert(item.cwd.subrange(0, home.len() as int) =~= home);
    assert(item.cwd.skip(home.len() as int) =~= rest);
}

/// A question is asked as it is typed; a blank one only shows how to ask.
pub proof fn questions_are_asked(text: Seq<char>, blank: Seq<char>)
    requires
        crate::wording::is_blank(blank),
        text.len() > 0,
        !crate::text::is_white(text[0]),
        !crate::text::is_white(text.last()),
    ensures
        crate::palette::ai_row(text).accept == AcceptView::AskAi(text),
        crate::palette::ai_row(text).label == "Ask AI: "@ + text,
        crate::palette::ai_row(blank).accept == AcceptView::TypeCommand(Seq::<char>::empty()),
{
    let none: Seq<char> = seq![];
    crate::wording::white_space_is_trimmed(blank, text, none);
    crate::wording::white_space_is_trimmed(none, text, none);
    assert(none + text + none =~= text);
}

proof fn lemma_first_kept(s: Seq<ItemView>)
    requires
        s.len() > 0,
    ensures
        crate::palette::deduplicated(s).len() > 0,
        crate::palette::deduplicated(s)[0] == s[0],
    decreases s.len(),
{
    if s.len() > 1 {
        lemma_first_kept(s.drop_last());
        assert(s.drop_last()[0] == s[0]);
    } else {
        let none = s.drop_last();
        assert(none.len() == 0);
        assert(!crate::palette::has_command(none, s.last().command));
        assert(crate::palette::deduplicated(none).len() == 0);
        assert(crate::palette::deduplicated(s) == crate::palette::deduplicated(none).push(
            s.last(),
        ));
    }
}

/// The latest command is the last one kept, and a record that cannot be read
/// or holds no command changes nothing.
pub proof fn the_latest_command_is_kept(
    records: Seq<Option<HistoryItem>>,
    item: HistoryItem,
    blank: HistoryItem,
    max: nat,
)
    requires
        max > 0,
        !crate::text::all_white(item.command@),
        crate::wording::is_blank(blank.command@),
    ensures
        crate::palette::recent(records.push(Some(item)), max).len() > 0,
        crate::palette::recent(records.push(Some(item)), max).last() == item@,
        crate::palette::recent(records.push(None), max) == crate::palette::recent(records, max),
        crate::palette::recent(records.push(Some(blank)), max) == crate::palette::recent(
            records,
            max,
        ),
{
    let none: Seq<char> = seq![];
    crate::wording::white_space_is_trimmed(blank.command@, seq!['x'], none);
    assert(records.push(Some(item)).drop_last() =~= records);
    assert(records.push(None).drop_last() =~= records);
    assert(records.push(Some(blank)).drop_last() =~= records);
    let u = crate::palette::usable(records.push(Some(item)));
    assert(u[0] == item@);
    let s = crate::palette::at_most(u, max);
    assert(s.len() > 0 && s[0] == item@);
    lemma_first_kept(s);
    let d = crate::palette::deduplicated(s);
    assert(d.reverse().last() == d[0]);
}

/// Of two rows the one that matches better comes first, whatever they scored
/// before, and of two that match alike the one that scored higher; a match in
/// the second line counts half.
pub proof fn better_matches_score_higher(
    e: EntryView,
    f: EntryView,
    p: int,
    q: int,
)
    requires
        0 <= e.score < 1000,
        0 <= f.score < 1000,
        -1_000_000_000_000 < q <= p < 1_000_000_000_000,
    ensures
        ({
            let none: Option<int> = None;
            let x = crate::palette::scored(e, Some(p), none);
            let y = crate::palette::scored(f, Some(q), none);
            &&& x matches Some(a) && y matches Some(b) && {
                &&& p > q ==> a.score > b.score
                &&& p == q && e.score > f.score ==> a.score > b.score
                &&& a == (EntryView { score: a.score, ..e })
                &&& b == (EntryView { score: b.score, ..f })
            }
            &&& q >= 0 ==> crate::palette::scored(e, none, Some(2 * q)) == crate::palette::scored(
                e,
                Some(q),
                none,
            )
            &&& q >= 0 ==> crate::palette::scored(e, Some(p), Some(2 * q))
                == crate::palette::scored(e, Some(p), none)
            &&& q >= 0 ==> crate::palette::scored(e, Some(q), Some(2 * p))
                == crate::palette::scored(e, Some(p), none)
            &&& crate::palette::scored(e, none, none) is None
        }),
{
    assert(p * 1000 >= q * 1000);
    assert(p > q ==> p * 1000 >= q * 1000 + 1000);
}

// ---------------------------------------------------------------------------
// Workflows
// ---------------------------------------------------------------------------

proof fn lemma_pieces_past(a: Seq<char>, rest: Seq<char>)
    requires
        crate::workflows::has_no_slot(a),
        a.len() > 0 ==> a.last() != '{',
    ensures
        crate::workflows::pieces(a + rest) == crate::workflows::literals(a)
            + crate::workflows::pieces(rest),
    decreases a.len(),
{
    let s = a + rest;
    if a.len() == 0 {
        assert(s =~= rest);
        assert(crate::workflows::literals(a) + crate::workflows::pieces(rest)
            =~= crate::workflows::pieces(rest));
    } else {
        let t = a.skip(1);
        if a.len() == 1 {
            assert(s[0] == a.last());
        } else {
            assert(!(a[0] == '{' && a[1] == '{'));
            assert(s[0] == a[0] && s[1] == a[1]);
            assert(t.last() == a.last());
        }
        assert(crate::workflows::has_no_slot(t)) by {
            assert forall|i: int| 0 <= i < t.len() - 1 implies !(#[trigger] t[i] == '{' && t[i + 1]
                == '{') by {
                assert(t[i] == a[i + 1]);
                assert(t[i + 1] == a[i + 2]);
            }
        }
        lemma_pieces_past(t, rest);
        assert(s.skip(1) =~= t + rest);
        assert(crate::workflows::pieces(s) =~= seq![Piece::Literal(seq![s[0]])]
            + crate::workflows::pieces(s.skip(1)));
        assert(crate::workflows::literals(a) =~= seq![Piece::Literal(seq![a[0]])]
            + crate::workflows::literals(t));
        assert(crate::workflows::pieces(s) =~= crate::workflows::literals(a)
            + crate::workflows::pieces(rest));
    }
}

proof fn lemma_closing(w: Seq<char>, rest: Seq<char>)
    requires
        !w.contains('}'),
    ensures
        crate::workflows::closing(w + seq!['}', '}'] + rest) == Some(w.len()),
    decreases w.len(),
{
    let s = w + seq!['}', '}'] + rest;
    if w.len() == 0 {
        assert(s[0] == '}' && s[1] == '}');
    } else {
        let t = w.drop_first();
        assert(w.contains(w[0]));
        assert(s[0] == w[0]);
        assert(s.drop_first() =~= t + seq!['}', '}'] + rest);
        assert(!t.contains('}')) by {
            assert forall|i: int| 0 <= i < t.len() implies t[i] != '}' by {
                assert(w.contains(w[i + 1]));
            }
        }
        lemma_closing(t, rest);
    }
}

proof fn lemma_slot(w: Seq<char>, rest: Seq<char>)
    requires
        !w.contains('}'),
    ensures
        crate::workflows::pieces(seq!['{', '{'] + (w + seq!['}', '}'] + rest)) == seq![
            Piece::Slot(crate::text::trimmed(w)),
        ] + crate::workflows::pieces(rest),
{
    let s = seq!['{', '{'] + (w + seq!['}', '}'] + rest);
    lemma_closing(w, rest);
    assert(s[0] == '{' && s[1] == '{');
    let inner = s.skip(2);
    assert(inner =~= w + seq!['}', '}'] + rest);
    assert(inner.take(w.len() as int) =~= w);
    assert(s.skip(w.len() as int + 4) =~= rest);
}

proof fn lemma_filled_parts(
    p: Seq<Piece>,
    q: Seq<Piece>,
    values: Seq<(String, String)>,
    args: Seq<WorkflowArg>,
)
    ensures
        crate::workflows::filled(p + q, values, args) == crate::workflows::filled(p, values, args)
            + crate::workflows::filled(q, values, args),
        crate::workflows::missing(p, values, args).len() == 0 && crate::workflows::missing(
            q,
            values,
            args,
        ).len() == 0 ==> crate::workflows::missing(p + q, values, args).len() == 0,
        forall|n: Seq<char>|
            crate::workflows::missing(p, values, args).contains(n)
                ==> #[trigger] crate::workflows::missing(p + q, values, args).contains(n),
    decreases q.len(),
{
    let fp = crate::workflows::filled(p, values, args);
    let fq = crate::workflows::filled(q, values, args);
    if q.len() == 0 {
        assert(p + q =~= p);
        assert(fp + fq =~= fp);
    } else {
        let front = q.drop_last();
        lemma_filled_parts(p, front, values, args);
        assert((p + q).drop_last() =~= p + front);
        assert((p + q).last() == q.last());
        assert(crate::workflows::filled(p + q, values, args) =~= fp + fq);
        let before = crate::workflows::missing(p + front, values, args);
        let all = crate::workflows::missing(p + q, values, args);
        assert forall|n: Seq<char>|
            crate::workflows::missing(p, values, args).contains(
                n,
            ) implies #[trigger] all.contains(n) by {
            assert(before.contains(n));
            let i = choose|i: int| 0 <= i < before.len() && before[i] == n;
            assert(all[i] == n);
        }
        if crate::workflows::missing(q, values, args).len() == 0 {
            let fm = crate::workflows::missing(front, values, args);
            assert(fm.len() == 0);
            match q.last() {
                Piece::Slot(name) => {
                    assert(!fm.contains(name));
                },
                Piece::Literal(_) => {},
            }
        }
    }
}

/// A slot in a command gives way to the value for its name, or else to the
/// name's default; the text around it stays. A name that has neither is told
/// as missing.
#[verifier::spinoff_prover]
pub proof fn slots_are_filled(
    a: Seq<char>,
    u: Seq<char>,
    name: Seq<char>,
    v: Seq<char>,
    b: Seq<char>,
    values: Seq<(String, String)>,
    args: Seq<WorkflowArg>,
)
    requires
        crate::workflows::has_no_slot(a),
        a.len() > 0 ==> a.last() != '{',
        crate::workflows::has_no_slot(b),
        b.len() > 0 ==> b.last() != '{',
        crate::wording::is_blank(u),
        crate::wording::is_blank(v),
        crate::wording::is_word(name),
        !name.contains('}'),
    ensures
        ({
            let slot = seq!['{', '{'] + (u + name + v + seq!['}', '}'] + b);
            let p = crate::workflows::pieces(a + slot);
            match crate::workflows::resolved(values, args, name) {
                Some(x) => {
                    &&& crate::workflows::filled(p, values, args) == a + x + b
                    &&& crate::workflows::missing(p, values, args).len() == 0
                },
                None => crate::workflows::missing(p, values, args).contains(name),
            }
        }),
{
    let w = u + name + v;
    let slot = seq!['{', '{'] + (w + seq!['}', '}'] + b);
    let none: Seq<char> = seq![];
    assert(!crate::text::is_white(name[0]) && !crate::text::is_white(name[name.len() - 1]));
    crate::wording::white_space_is_trimmed(u, name, v);
    assert forall|i: int| 0 <= i < w.len() implies w[i] != '}' by {
        if i < u.len() {
            assert(crate::text::is_white(u[i]));
        } else if i < u.len() + name.len() {
            assert(name.contains(name[i - u.len()]));
        } else {
            assert(crate::text::is_white(v[i - u.len() - name.len()]));
        }
    }
    lemma_pieces_past(a, slot);
    lemma_slot(w, b);
    lemma_pieces_past(b, none);
    assert(b + none =~= b);
    assert(crate::workflows::pieces(none) =~= seq![]);
    let la = crate::workflows::literals(a);
    let lb = crate::workflows::literals(b);
    let one = seq![Piece::Slot(name)];
    assert(lb + crate::workflows::pieces(none) =~= lb);
    assert(crate::workflows::pieces(a + slot) == la + (one + lb));
    crate::workflows::lemma_literals_filled(a, values, args);
    crate::workflows::lemma_literals_filled(b, values, args);
    lemma_filled_parts(one, lb, values, args);
    lemma_filled_parts(la, one + lb, values, args);
    lemma_one_slot(name, values, args);
    let p = la + (one + lb);
    match crate::workflows::resolved(values, args, name) {
        Some(x) => {
            assert(a + (x + b) =~= a + x + b);
        },
        None => {
            lemma_missing_behind(la, one + lb, values, args, name);
        },
    }
}

proof fn lemma_one_slot(name: Seq<char>, values: Seq<(String, String)>, args: Seq<WorkflowArg>)
    ensures
        ({
            let one = seq![Piece::Slot(name)];
            match crate::workflows::resolved(values, args, name) {
                Some(x) => crate::workflows::filled(one, values, args) == x
                    && crate::workflows::missing(one, values, args).len() == 0,
                None => crate::workflows::missing(one, values, args).contains(name),
            }
        }),
{
    let one = seq![Piece::Slot(name)];
    let front = one.drop_last();
    assert(front.len() == 0);
    assert(crate::workflows::filled(front, values, args).len() == 0);
    let m = crate::workflows::missing(front, values, args);
    assert(m.len() == 0);
    assert(!m.contains(name));
    match crate::workflows::resolved(values, args, name) {
        Some(x) => {
            assert(crate::workflows::filled(one, values, args) =~= x);
        },
        None => {
            assert(crate::workflows::missing(one, values, args)[0] == name);
        },
    }
}

proof fn lemma_missing_behind(
    p: Seq<Piece>,
    q: Seq<Piece>,
    values: Seq<(String, String)>,
    args: Seq<WorkflowArg>,
    name: Seq<char>,
)
    requires
        crate::workflows::missing(q, values, args).contains(name),
    ensures
        crate::workflows::missing(p + q, values, args).contains(name),
    decreases q.len(),
{
    if q.len() > 0 {
        let front = q.drop_last();
        assert((p + q).drop_last() =~= p + front);
        assert((p + q).last() == q.last());
        let fm = crate::workflows::missing(front, values, args);
        let before = crate::workflows::missing(p + front, values, args);
        let all = crate::workflows::missing(p + q, values, args);
        if fm.contains(name) {
            lemma_missing_behind(p, front, values, args, name);
            let i = choose|i: int| 0 <= i < before.len() && before[i] == name;
            assert(all[i] == name);
        } else {
            let m = crate::workflows::missing(q, values, args);
            let k = choose|k: int| 0 <= k < m.len() && m[k] == name;
            if k < fm.len() {
                assert(fm[k] == name);
            }
            assert(q.last() == Piece::Slot(name));
            if before.contains(name) {
                assert(all == before);
            } else {
                assert(all[before.len() as int] == name);
            }
        }
    }
}

/// The last value given for a name counts, and it counts over the default;
/// without one the first argument of that name gives its default.
pub proof fn values_count_over_defaults(
    values: Seq<(String, String)>,
    pair: (String, String),
    arg: WorkflowArg,
    args: Seq<WorkflowArg>,
    name: Seq<char>,
    default: String,
)
    requires
        arg.default == Some(default),
    ensures
        pair.0@ == name ==> crate::workflows::resolved(values.push(pair), args, name) == Some(
            pair.1@,
        ),
        pair.0@ != name ==> crate::workflows::resolved(values.push(pair), args, name)
            == crate::workflows::resolved(values, args, name),
        arg.name@ == name ==> crate::workflows::resolved(seq![], seq![arg] + args, name) == Some(
            default@,
        ),
        arg.name@ != name ==> crate::workflows::resolved(seq![], seq![arg] + args, name)
            == crate::workflows::resolved(seq![], args, name),
        crate::workflows::resolved(seq![], seq![], name) is None,
{
    assert(values.push(pair).drop_last() =~= values);
    let both = seq![arg] + args;
    assert(both[0] == arg);
    assert(both.drop_first() =~= args);
}

/// A workflow needs a name and a command, and is refused in that order.
pub proof fn workflows_need_a_name_and_a_command(
    name: Seq<char>,
    command: Seq<char>,
    blank: Seq<char>,
)
    requires
        crate::wording::is_word(name),
        crate::wording::is_word(command),
        crate::wording::is_blank(blank),
    ensures
        crate::workflows::refusal(name, command) is None,
        crate::workflows::refusal(blank, command) == Some("workflow has empty name"@),
        crate::workflows::refusal(name, blank) == Some("workflow has empty command"@),
        crate::workflows::refusal(blank, blank) == Some("workflow has empty name"@),
{
    let none: Seq<char> = seq![];
    assert(!crate::text::is_white(name[0]) && !crate::text::is_white(name[name.len() - 1]));
    assert(!crate::text::is_white(command[0]) && !crate::text::is_white(
        command[command.len() - 1],
    ));
    crate::wording::white_space_is_trimmed(none, name, none);
    crate::wording::white_space_is_trimmed(none, command, none);
    crate::wording::white_space_is_trimmed(blank, name, none);
    assert(none + name + none =~= name);
    assert(none + command + none =~= command);
}

proof fn lemma_last_dot(name: Seq<char>, at: int, n: int)
    requires
        0 <= at < n <= name.len(),
        name[at] == '.',
        forall|i: int| at < i < n ==> #[trigger] name[i] != '.',
    ensures
        crate::workflows::last_dot(name, n) == at,
    decreases n,
{
    if n - 1 > at {
        assert(name[n - 1] != '.');
        lemma_last_dot(name, at, n - 1);
    }
}

/// A file is a workflow by what stands behind the last dot of its name, in
/// whatever case.
pub proof fn workflows_are_known_by_extension(base: Seq<char>, extension: Seq<char>)
    requires
        base.len() > 0,
        !extension.contains('.'),
        extension.len() > 0,
    ensures
        crate::workflows::is_workflow_name(base + seq!['.'] + extension) <==> (
        crate::text::ascii_lowered(extension) == "yaml"@ || crate::text::ascii_lowered(extension)
            == "yml"@),
        !crate::workflows::is_workflow_name(extension),
        !crate::workflows::is_workflow_name(seq!['.'] + extension),
{
    reveal_strlit("..");
    let name = base + seq!['.'] + extension;
    let n = base.len() as int;
    assert forall|i: int| n < i < name.len() implies #[trigger] name[i] != '.' by {
        assert(extension.contains(extension[i - n - 1]));
    }
    assert(name[n] == '.');
    lemma_last_dot(name, n, name.len() as int);
    assert(name.skip(n + 1) =~= extension);
    assert(name.len() > 2);
    let hidden = seq!['.'] + extension;
    assert forall|i: int| 0 < i < hidden.len() implies #[trigger] hidden[i] != '.' by {
        assert(extension.contains(extension[i - 1]));
    }
    lemma_last_dot(hidden, 0, hidden.len() as int);
    lemma_no_dot(extension, extension.len() as int);
}

proof fn lemma_no_dot(name: Seq<char>, n: int)
    requires
        0 <= n <= name.len(),
        !name.contains('.'),
    ensures
        crate::workflows::last_dot(name, n) == -1,
    decreases n,
{
    if n > 0 {
        assert(name.contains(name[n - 1]));
        lemma_no_dot(name, n - 1);
    }
}

// ---------------------------------------------------------------------------
// Dialogs
// ---------------------------------------------------------------------------

/// Text is shown with the marks of tags written out, and nothing else changed.
pub proof fn tags_are_written_out(a: Seq<char>, c: char)
    ensures
        crate::dialogs::escaped(a.push('&')) == crate::dialogs::escaped(a) + "&amp;"@,
        crate::dialogs::escaped(a.push('<')) == crate::dialogs::escaped(a) + "&lt;"@,
        crate::dialogs::escaped(a.push('>')) == crate::dialogs::escaped(a) + "&gt;"@,
        c != '&' && c != '<' && c != '>' ==> crate::dialogs::escaped(a.push(c))
            == crate::dialogs::escaped(a).push(c),
{
    assert(a.push('&').drop_last() =~= a);
    assert(a.push('<').drop_last() =~= a);
    assert(a.push('>').drop_last() =~= a);
    assert(a.push(c).drop_last() =~= a);
    if c != '&' && c != '<' && c != '>' {
        assert(crate::dialogs::escaped(a) + seq![c] =~= crate::dialogs::escaped(a).push(c));
    }
}

/// A key closes the list, fires the selected row, or moves to the next row in
/// sight below or above the selected one; others go on to the entry.
pub proof fn keys_move_in_the_list(visible: Seq<bool>, at: usize, to: usize)
    requires
        at < visible.len(),
        to < visible.len(),
        visible[to as int],
    ensures
        crate::dialogs::list_step_of(ListKey::Close, Some(at), visible) == ListStep::Close,
        crate::dialogs::list_step_of(ListKey::Activate, Some(at), visible) == ListStep::Fire(at),
        crate::dialogs::list_step_of(ListKey::Activate, None, visible) == ListStep::Stay,
        crate::dialogs::list_step_of(ListKey::Other, Some(at), visible) == ListStep::Pass,
        at < to && (forall|k: int| at < k < to ==> !#[trigger] visible[k])
            ==> crate::dialogs::list_step_of(ListKey::Down, Some(at), visible) == ListStep::Select(
            to,
        ),
        to < at && (forall|k: int| to < k < at ==> !#[trigger] visible[k])
            ==> crate::dialogs::list_step_of(ListKey::Up, Some(at), visible) == ListStep::Select(
            to,
        ),
        (forall|k: int| 0 <= k < to ==> !#[trigger] visible[k]) ==> crate::dialogs::list_step_of(
            ListKey::Down,
            None,
            visible,
        ) == ListStep::Select(to),
        (forall|k: int| at < k < visible.len() ==> !#[trigger] visible[k])
            ==> crate::dialogs::list_step_of(ListKey::Down, Some(at), visible) == ListStep::Stay,
        (forall|k: int| 0 <= k < at ==> !#[trigger] visible[k]) ==> crate::dialogs::list_step_of(
            ListKey::Up,
            Some(at),
            visible,
        ) == ListStep::Stay,
{
    crate::dialogs::moving_stops_in_sight(visible, at as int + 1);
    crate::dialogs::moving_stops_in_sight(visible, at as int);
    crate::dialogs::moving_stops_in_sight(visible, 0);
}

/// A host is reached as its user, where one is set, and chosen by its place.
pub proof fn hosts_are_reached_as_their_user(h: RemoteHost, index: usize, action: Action)
    requires
        call_ensures(crate::dialogs::connect_action, (index,), action),
    ensures
        h.user matches Some(u) ==> crate::dialogs::target_of(h) == u@ + seq!['@'] + h.host@,
        h.user is None ==> crate::dialogs::target_of(h) == h.host@,
        action == Action::ConnectRemote(index),
{
    reveal_strlit("@");
    assert("@"@ =~= seq!['@']);
}

/// A row shows its texts, and no second line where there is none.
pub proof fn rows_show_their_texts(entry: &Entry, res: RowTexts)
    requires
        call_ensures(crate::dialogs::row_texts, (entry,), res),
    ensures
        res.title@ == crate::dialogs::escaped(entry.label@),
        entry.sublabel matches Some(s) ==> (s@.len() > 0 ==> crate::text::optional_string(
            res.subtitle,
        ) == Some(crate::dialogs::escaped(s@))),
        entry.sublabel is None ==> res.subtitle is None,
        entry.right is None ==> res.right is None,
        entry.right matches Some(r) ==> crate::text::optional_string(res.right) == Some(r@),
{
}

/// A chosen name is found at its first place; where it is not there the first
/// one stands in.
pub proof fn choices_are_found(
    names: &[String],
    wanted: &str,
    at: int,
    a: usize,
    b: Option<usize>,
)
    requires
        call_ensures(crate::dialogs::selected_index, (names, wanted), a),
        call_ensures(crate::dialogs::theme_index, (names, wanted), b),
        0 <= at < names@.len(),
        forall|i: int| 0 <= i < at ==> (#[trigger] names@[i])@ != wanted@,
    ensures
        names@[at]@ == wanted@ ==> a == at && b == Some(at as usize),
        names@[at]@ != wanted@ && at == names@.len() - 1 ==> a == 0 && b == Some(0usize),
{
    let t = crate::text::texts(names@);
    assert forall|j: int| 0 <= j < at implies t[j] != wanted@ by {
        assert(names@[j]@ != wanted@);
    }
    if names@[at]@ == wanted@ {
        crate::text::lemma_until_at(t, wanted@, at);
    } else if at == names@.len() - 1 {
        assert forall|j: int| 0 <= j < t.len() implies t[j] != wanted@ by {
            if j < at {
                assert(names@[j]@ != wanted@);
            }
        }
        crate::text::lemma_until_at(t, wanted@, t.len() as int);
    }
}

/// What the dialogs say.
pub proof fn dialogs_say_what_they_are_about(
    running: &str,
    family: &str,
    size: i32,
    w: &Workflow,
    a: String,
    b: String,
    c: String,
    d: String,
    e: String,
)
    requires
        call_ensures(crate::dialogs::confirm_close_body, (running,), a),
        call_ensures(crate::dialogs::font_description, (Some(family), size), b),
        call_ensures(crate::dialogs::font_description, (None, size), c),
        call_ensures(crate::dialogs::workflow_title, (w,), d),
        call_ensures(crate::dialogs::workflow_preview, (w,), e),
    ensures
        a@ == "A process is still running here:\n\n"@ + running@ + "\n\nClose anyway?"@,
        b@ == family@ + " "@ + crate::text::signed_decimal(size as int),
        c@ == "Monospace"@ + " "@ + crate::text::signed_decimal(size as int),
        d@ == "Workflow: "@ + w.name@,
        e@ == "<tt>"@ + crate::dialogs::escaped(w.command@) + "</tt>"@,
        crate::dialogs::title_of(PaletteMode::All) == "Palette"@,
        crate::dialogs::title_of(PaletteMode::Commands) == "Command Palette"@,
        crate::dialogs::title_of(PaletteMode::History) == "History"@,
        crate::dialogs::title_of(PaletteMode::Ai) == "Ask AI"@,
        crate::dialogs::title_of(PaletteMode::Workflows) == "Workflows"@,
        crate::dialogs::placeholder_of(PaletteMode::All)
            == "Search everything…  (> commands, @ history, : workflows, ? AI)"@,
        crate::dialogs::placeholder_of(PaletteMode::Commands)
            == "Search commands…  (@ history, : workflows, ? AI)"@,
        crate::dialogs::placeholder_of(PaletteMode::History)
            == "Search history…  (> commands, : workflows, ? AI)"@,
        crate::dialogs::placeholder_of(PaletteMode::Ai) == "Describe what you want…"@,
        crate::dialogs::placeholder_of(PaletteMode::Workflows)
            == "Search workflows…  (> commands, @ history)"@,
{
}

/// A field asks for an argument by name, tells what it is for, and starts with
/// its default.
pub proof fn fields_ask_for_arguments(arg: WorkflowArg)
    ensures
        ({
            let f = crate::dialogs::field_of(arg);
            &&& f.title == crate::dialogs::escaped(arg.name@)
            &&& arg.description@.len() > 0 ==> f.subtitle == Some(
                crate::dialogs::escaped(arg.description@),
            )
            &&& arg.description@.len() == 0 ==> f.subtitle is None
            &&& arg.default matches Some(d) ==> f.text == d@
            &&& arg.default is None ==> f.text.len() == 0
        }),
{
}

} // verus!
