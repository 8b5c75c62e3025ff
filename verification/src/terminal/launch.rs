//! How a pane starts: the title of its tab, the arguments of its shell, and the
//! commands that are typed into it.

use crate::paths::file_name;
use crate::text::{
    chars_of, find_text, is_all_white, is_text, join_strings, push_chars, push_decimal, push_text,
    same_text, split_chars, strip_prefix, text_of, trim,
};
use vstd::prelude::*;
use vstd::slice::slice_subrange;

verus! {

// ---------------------------------------------------------------------------
// Titles
// ---------------------------------------------------------------------------

/// The text without the slashes at its end.
pub open spec fn without_slashes(s: Seq<char>) -> Seq<char>
    decreases s.len(),
{
    if s.len() > 0 && s.last() == '/' {
        without_slashes(s.drop_last())
    } else {
        s
    }
}

/// The directory that a title shows: the working directory, or the home
/// directory where that is blank.
pub open spec fn shown_directory(
    working_directory: Option<Seq<char>>,
    home: Option<Seq<char>>,
) -> Option<Seq<char>> {
    match working_directory {
        Some(d) if !crate::text::all_white(d) => Some(d),
        _ => home,
    }
}

/// A directory with the home directory written `~`, without slashes at its end.
pub open spec fn tilded(dir: Seq<char>, home: Option<Seq<char>>) -> Seq<char> {
    let bare = without_slashes(dir);
    let path = if bare.len() == 0 {
        "/"@
    } else {
        bare
    };
    match home {
        Some(h) => if path == h {
            "~"@
        } else if crate::text::begins(path, h) && crate::text::begins(
            path.skip(h.len() as int),
            "/"@,
        ) {
            "~"@ + path.skip(h.len() as int)
        } else {
            path
        },
        None => path,
    }
}

/// A directory's name as it is written on the way to another: by its first
/// character, or by two where the first is a dot.
pub open spec fn initial(name: Seq<char>) -> Seq<char> {
    if name.len() == 0 || name == "."@ || name == ".."@ {
        name
    } else if name.len() >= 2 && name[0] == '.' {
        name.take(2)
    } else {
        name.take(1)
    }
}

/// How a path begins and what follows: `~/`, `/` or nothing.
pub open spec fn headed(path: Seq<char>) -> (Seq<char>, Seq<char>) {
    match crate::text::after_prefix(path, "~/"@) {
        Some(rest) => ("~/"@, rest),
        None => match crate::text::after_prefix(path, "/"@) {
            Some(rest) => ("/"@, rest),
            None => (""@, path),
        },
    }
}

/// The parts that are not empty.
pub open spec fn filled(parts: Seq<Seq<char>>) -> Seq<Seq<char>>
    decreases parts.len(),
{
    if parts.len() == 0 {
        seq![]
    } else if parts.last().len() == 0 {
        filled(parts.drop_last())
    } else {
        filled(parts.drop_last()).push(parts.last())
    }
}

/// The names with all but the last one shortened.
pub open spec fn initials(names: Seq<Seq<char>>) -> Seq<Seq<char>> {
    Seq::new(
        names.len(),
        |i: int|
            if i + 1 == names.len() {
                names[i]
            } else {
                initial(names[i])
            },
    )
}

/// A path short enough for a title: every directory on the way to the last one
/// is shortened.
pub open spec fn titled(path: Seq<char>) -> Seq<char> {
    if path == "/"@ || path == "~"@ {
        path
    } else {
        let (head, rest) = headed(path);
        let names = filled(crate::text::split_on(rest, '/'));
        if names.len() <= 1 {
            head + rest
        } else {
            head + crate::text::joined(initials(names), "/"@)
        }
    }
}

/// The title of a tab that was given none.
pub open spec fn tab_title(
    number: nat,
    working_directory: Option<Seq<char>>,
    home: Option<Seq<char>>,
) -> Seq<char> {
    match shown_directory(working_directory, home) {
        Some(dir) => titled(tilded(dir, home)),
        None => "Terminal "@ + crate::text::decimal(number),
    }
}

fn trim_slashes(s: &[char]) -> (res: &[char])
    ensures
        res@ == without_slashes(s@),
{
    let mut end: usize = s.len();
    assert(s@.take(end as int) =~= s@);
    while end > 0 && s[end - 1] == '/'
        invariant
            end <= s.len(),
            without_slashes(s@.take(end as int)) == without_slashes(s@),
        decreases end,
    {
        assert(s@.take(end as int).drop_last() =~= s@.take(end - 1));
        end -= 1;
    }
    assert(s@.subrange(0, end as int) =~= s@.take(end as int));
    slice_subrange(s, 0, end)
}

fn tilde(dir: &str, home: Option<&str>) -> (res: Vec<char>)
    ensures
        res@ == tilded(dir@, crate::text::optional_text(home)),
{
    let chars = chars_of(dir);
    let bare = trim_slashes(chars.as_slice());
    let root = chars_of("/");
    let path = if bare.len() == 0 {
        root.as_slice()
    } else {
        bare
    };
    let mut out: Vec<char> = Vec::new();
    if let Some(h) = home {
        if is_text(path, h) {
            push_text(&mut out, "~");
            assert(out@ =~= "~"@);
            return out;
        }
        if let Some(rest) = strip_prefix(path, h) {
            if crate::text::starts_with(rest, "/") {
                push_text(&mut out, "~");
                push_chars(&mut out, rest);
                assert(out@ =~= "~"@ + rest@);
                return out;
            }
        }
    }
    push_chars(&mut out, path);
    assert(out@ =~= path@);
    out
}

fn shorten_component(component: &[char]) -> (res: String)
    ensures
        res@ == initial(component@),
{
    if is_text(component, ".") || is_text(component, "..") {
        return text_of(component);
    }
    let n: usize = if component.len() >= 2 && component[0] == '.' {
        2
    } else if component.len() >= 1 {
        1
    } else {
        0
    };
    assert(component@.subrange(0, n as int) =~= initial(component@));
    text_of(slice_subrange(component, 0, n))
}

fn fill<'a>(parts: &Vec<&'a [char]>) -> (res: Vec<&'a [char]>)
    ensures
        crate::text::views(res@) == filled(crate::text::views(parts@)),
        res@.len() <= parts@.len(),
        forall|i: int| 0 <= i < res@.len() ==> (#[trigger] res@[i])@.len() > 0,
{
    let ghost all = crate::text::views(parts@);
    let mut out: Vec<&[char]> = Vec::new();
    let mut i: usize = 0;
    assert(crate::text::views(out@) =~= seq![]);
    while i < parts.len()
        invariant
            i <= parts.len(),
            all == crate::text::views(parts@),
            crate::text::views(out@) == filled(all.take(i as int)),
            out@.len() <= i,
            forall|j: int| 0 <= j < out@.len() ==> (#[trigger] out@[j])@.len() > 0,
        decreases parts.len() - i,
    {
        let ghost before = out@;
        proof {
            assert(all.take(i + 1).drop_last() =~= all.take(i as int));
            assert(all.take(i + 1).last() == parts@[i as int]@);
        }
        if parts[i].len() > 0 {
            out.push(parts[i]);
            assert(crate::text::views(out@) =~= crate::text::views(before).push(parts@[i as int]@));
        }
        i += 1;
    }
    assert(all.take(i as int) =~= all);
    out
}

fn shorten(path: &[char]) -> (res: String)
    ensures
        res@ == titled(path@),
{
    if is_text(path, "/") || is_text(path, "~") {
        return text_of(path);
    }
    let mut out: Vec<char> = Vec::new();
    let rest = match strip_prefix(path, "~/") {
        Some(r) => {
            push_text(&mut out, "~/");
            r
        },
        None => match strip_prefix(path, "/") {
            Some(r) => {
                push_text(&mut out, "/");
                r
            },
            None => path,
        },
    };
    proof {
        reveal_strlit("");
        assert(out@ =~= headed(path@).0);
        assert(rest@ == headed(path@).1);
    }
    let pieces = split_chars(rest, '/');
    let names = fill(&pieces);
    let ghost all = crate::text::views(names@);
    assert(all.len() == names@.len());
    if names.len() <= 1 {
        push_chars(&mut out, rest);
        return text_of(out.as_slice());
    }
    let mut short: Vec<String> = Vec::new();
    let mut i: usize = 0;
    while i < names.len()
        invariant
            i <= names.len(),
            all == crate::text::views(names@),
            short@.len() == i,
            crate::text::texts(short@) =~= initials(all).take(i as int),
        decreases names.len() - i,
    {
        let ghost before = short@;
        assert(all[i as int] == names@[i as int]@);
        if i + 1 == names.len() {
            short.push(text_of(names[i]));
        } else {
            short.push(shorten_component(names[i]));
        }
        proof {
            assert(crate::text::texts(short@) =~= crate::text::texts(before).push(
                initials(all)[i as int],
            ));
        }
        i += 1;
    }
    assert(initials(all).take(i as int) =~= initials(all));
    let joined = join_strings(short.as_slice(), "/");
    push_chars(&mut out, joined.as_slice());
    text_of(out.as_slice())
}

/// The title of a tab that was given none: its directory, with every directory
/// on the way to it shortened, or its number where no directory is known.
pub fn default_tab_title(
    tab_index_1based: u32,
    working_directory: Option<&str>,
    home: Option<&str>,
) -> (res: String)
    ensures
        res@ == tab_title(
            tab_index_1based as nat,
            crate::text::optional_text(working_directory),
            crate::text::optional_text(home),
        ),
{
    let mut dir: Option<&str> = home;
    if let Some(d) = working_directory {
        if !is_all_white(chars_of(d).as_slice()) {
            dir = Some(d);
        }
    }
    match dir {
        Some(d) => {
            let path = tilde(d, home);
            shorten(path.as_slice())
        },
        None => {
            let mut out: Vec<char> = chars_of("Terminal ");
            push_decimal(&mut out, tab_index_1based as u64);
            text_of(out.as_slice())
        },
    }
}

/// The home directory's title is `~`.
pub proof fn home_is_a_tilde(number: nat, home: Seq<char>)
    requires
        !crate::text::all_white(home),
        home.last() != '/',
    ensures
        tab_title(number, Some(home), Some(home)) == "~"@,
        tab_title(number, None, Some(home)) == "~"@,
{
    assert(home.len() > 0) by {
        if home.len() == 0 {
            assert(crate::text::all_white(home));
        }
    }
    assert(without_slashes(home) == home);
}

/// The last directory's name ends the title unshortened.
pub proof fn titles_end_with_the_name(path: Seq<char>)
    requires
        path != "/"@,
        path != "~"@,
        filled(crate::text::split_on(headed(path).1, '/')).len() > 1,
    ensures
        crate::text::ends(
            titled(path),
            filled(crate::text::split_on(headed(path).1, '/')).last(),
        ),
{
    let names = filled(crate::text::split_on(headed(path).1, '/'));
    let short = initials(names);
    let body = crate::text::joined(short, "/"@);
    assert(short.last() == names.last());
    assert(body == crate::text::joined(short.drop_last(), "/"@) + "/"@ + short.last());
    let t = titled(path);
    assert(t == headed(path).0 + body);
    assert(t.skip(t.len() - names.last().len()) =~= names.last());
}

// ---------------------------------------------------------------------------
// The shell
// ---------------------------------------------------------------------------

/// The shell's arguments, with the session it is to resume where it is one that
/// keeps sessions.
pub open spec fn shell_arguments(argv: Seq<Seq<char>>, session: Option<Seq<char>>) -> Seq<
    Seq<char>,
> {
    match session {
        Some(id) if argv.len() > 0 && crate::paths::last_name(argv[0]) == Some("rsh"@) => argv.push(
            "--session"@,
        ).push(id),
        _ => argv,
    }
}

/// The shell's arguments, with the session it is to resume where it is one that
/// keeps sessions.
pub fn shell_argv(argv: &[String], session_id: Option<&str>) -> (res: Vec<String>)
    ensures
        crate::text::texts(res@) == shell_arguments(
            crate::text::texts(argv@),
            crate::text::optional_text(session_id),
        ),
{
    let mut out: Vec<String> = Vec::new();
    let mut i: usize = 0;
    let ghost all = crate::text::texts(argv@);
    while i < argv.len()
        invariant
            i <= argv.len(),
            all == crate::text::texts(argv@),
            crate::text::texts(out@) =~= all.take(i as int),
        decreases argv.len() - i,
    {
        let ghost before = out@;
        out.push(argv[i].as_str().to_string());
        proof {
            assert(crate::text::texts(out@) =~= crate::text::texts(before).push(argv@[i as int]@));
        }
        i += 1;
    }
    assert(all.take(i as int) =~= all);
    if let Some(id) = session_id {
        if argv.len() > 0 {
            let name = file_name(argv[0].as_str());
            assert(all[0] == argv@[0]@);
            if let Some(name) = name {
                if same_text(name.as_str(), "rsh") {
                    let ghost before = out@;
                    out.push("--session".to_string());
                    out.push(id.to_string());
                    assert(crate::text::texts(out@) =~= crate::text::texts(before).push(
                        "--session"@,
                    ).push(id@));
                }
            }
        }
    }
    out
}

/// The parts of a text between commas that a blank follows.
pub open spec fn listed(s: Seq<char>) -> Seq<Seq<char>>
    decreases s.len(),
{
    let sep = seq![',', ' '];
    if crate::text::contains(s, sep) {
        let i = choose|i: int| crate::text::is_first_at(s, sep, i);
        if 0 <= i && i + 2 <= s.len() {
            seq![s.take(i)] + listed(s.skip(i + 2))
        } else {
            seq![s]
        }
    } else {
        seq![s]
    }
}

/// What is typed for a list of commands: each without the white space around
/// it, followed by a carriage return.
pub open spec fn typed(parts: Seq<Seq<char>>) -> Seq<Seq<char>> {
    parts.map_values(|p: Seq<char>| crate::text::trimmed(p) + seq!['\r'])
}

/// What is typed into a shell for its initial commands.
pub open spec fn typed_commands(commands: Option<Seq<char>>) -> Seq<Seq<char>> {
    match commands {
        Some(c) if c.len() > 0 => typed(listed(c)),
        _ => seq![],
    }
}

proof fn lemma_first_is_unique(s: Seq<char>, p: Seq<char>, i: int, j: int)
    requires
        crate::text::is_first_at(s, p, i),
        crate::text::is_first_at(s, p, j),
    ensures
        i == j,
{
}

/// The lines to type into a shell for its initial commands.
pub fn startup_lines(initial_commands: Option<&str>) -> (res: Vec<String>)
    ensures
        crate::text::texts(res@) == typed_commands(crate::text::optional_text(initial_commands)),
{
    let mut out: Vec<String> = Vec::new();
    assert(crate::text::texts(out@) =~= seq![]);
    let commands = match initial_commands {
        Some(c) => c,
        None => {
            return out;
        },
    };
    let chars = chars_of(commands);
    if chars.len() == 0 {
        return out;
    }
    let ghost sep = seq![',', ' '];
    let mut rest = chars.as_slice();
    let mut over: bool = false;
    proof {
        reveal_strlit(", ");
        assert(", "@ =~= sep);
        assert(crate::text::texts(out@) + typed(listed(rest@)) =~= typed(listed(rest@)));
    }
    while !over
        invariant
            sep == seq![',', ' '],
            ", "@ == sep,
            !over ==> crate::text::texts(out@) + typed(listed(rest@)) == typed(listed(commands@)),
            over ==> crate::text::texts(out@) == typed(listed(commands@)),
        decreases rest@.len(),
            (if over {
                0int
            } else {
                1int
            }),
    {
        let at = find_text(rest, ", ");
        let part = match at {
            Some(i) => slice_subrange(rest, 0, i),
            None => rest,
        };
        let mut line: Vec<char> = Vec::new();
        push_chars(&mut line, trim(part));
        line.push('\r');
        assert(line@ =~= crate::text::trimmed(part@) + seq!['\r']);
        let ghost before = out@;
        let ghost whole = rest@;
        out.push(text_of(line.as_slice()));
        assert(crate::text::texts(out@) =~= crate::text::texts(before).push(line@));
        match at {
            Some(i) => {
                assert(crate::text::stands_at(whole, sep, i as int));
                let n: usize = rest.len();
                rest = slice_subrange(rest, i + 2, n);
                proof {
                    assert(crate::text::contains(whole, sep));
                    let j = choose|j: int| crate::text::is_first_at(whole, sep, j);
                    lemma_first_is_unique(whole, sep, i as int, j);
                    assert(part@ =~= whole.take(i as int));
                    assert(rest@ =~= whole.skip(i + 2));
                    assert(typed(listed(whole)) =~= seq![line@] + typed(listed(rest@)));
                    assert(crate::text::texts(out@) + typed(listed(rest@)) =~= crate::text::texts(
                        before,
                    ) + typed(listed(whole)));
                }
            },
            None => {
                over = true;
                proof {
                    assert(typed(listed(whole)) =~= seq![line@]);
                    assert(crate::text::texts(out@) =~= crate::text::texts(before) + typed(
                        listed(whole),
                    ));
                }
            },
        }
    }
    out
}

} // verus!
