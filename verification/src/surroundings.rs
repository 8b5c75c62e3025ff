//! What is made of what lies around a terminal, told of paths, lines and
//! arguments as they are written: names and parents, processes and their
//! commands, and the ways they are shown.

use vstd::prelude::*;

use crate::file_tree::Expansion;
use crate::process::{Signal, Stage, WalkView};

verus! {

// ---------------------------------------------------------------------------
// Paths
// ---------------------------------------------------------------------------

/// A name of a file or a directory: not empty, without slashes, and none of
/// the two that stand for a directory itself and its parent.
pub open spec fn is_file_name(s: Seq<char>) -> bool {
    s.len() > 0 && !s.contains('/') && s != seq!['.'] && s != seq!['.', '.']
}

proof fn lemma_last_span(p: Seq<char>, name: Seq<char>, i: int)
    requires
        is_file_name(name),
        0 <= i <= p.len() + 1,
    ensures
        crate::paths::spans_from(p + seq!['/'] + name, i) == crate::paths::spans_from(p, i) + seq![
            (p.len() as int + 1, (p.len() + 1 + name.len()) as int),
        ],
    decreases p.len() + 1 - i,
{
    let s = p + seq!['/'] + name;
    let n = p.len() as int;
    if i == n + 1 {
        assert(s.skip(i) =~= name);
        assert forall|j: int| 0 <= j < name.len() implies name[j] != '/' by {
            assert(name.contains(name[j]));
        }
        crate::text::lemma_until_at(name, '/', name.len() as int);
        if name.len() == 1 && s[i] == '.' {
            assert(name =~= seq!['.']);
        }
        assert(crate::paths::spans_from(s, i + name.len() + 1).len() == 0);
        assert(crate::paths::spans_from(p, i).len() == 0);
        assert(crate::paths::spans_from(s, i) =~= crate::paths::spans_from(p, i) + seq![
            (n + 1, n + 1 + name.len()),
        ]);
    } else if i == n {
        assert(s.skip(i)[0] == '/');
        crate::text::lemma_until_at(s.skip(i), '/', 0);
        lemma_last_span(p, name, n + 1);
        assert(crate::paths::spans_from(p, n).len() == 0);
        assert(crate::paths::spans_from(p, n + 1).len() == 0);
        assert(crate::paths::spans_from(p, n) =~= crate::paths::spans_from(p, n + 1));
    } else {
        let t = p.skip(i);
        let k = crate::text::until(t, '/') as int;
        crate::text::until_is_first(t, '/');
        let u = s.skip(i);
        assert forall|j: int| 0 <= j < k implies u[j] != '/' by {
            assert(u[j] == t[j]);
        }
        if k < t.len() {
            assert(u[k] == t[k]);
        } else {
            assert(u[k] == '/');
        }
        crate::text::lemma_until_at(u, '/', k);
        lemma_last_span(p, name, i + k + 1);
        assert(s[i] == p[i]);
        assert(crate::paths::spans_from(s, i) =~= crate::paths::spans_from(p, i) + seq![
            (n + 1, n + 1 + name.len()),
        ]);
    }
}

proof fn lemma_name_alone(name: Seq<char>)
    requires
        is_file_name(name),
    ensures
        crate::paths::spans(name) == seq![(0int, name.len() as int)],
        !crate::paths::is_rooted(name),
{
    assert(name.skip(0) =~= name);
    assert forall|j: int| 0 <= j < name.len() implies name[j] != '/' by {
        assert(name.contains(name[j]));
    }
    crate::text::lemma_until_at(name, '/', name.len() as int);
    assert(crate::paths::spans_from(name, name.len() as int + 1).len() == 0);
    assert(crate::paths::spans(name) =~= seq![(0int, name.len() as int)]);
}

/// The last part of a path is its name, and what stands before it is its
/// parent; a name under the root has the root for its parent.
pub proof fn paths_end_in_their_name(p: Seq<char>, dir: Seq<char>, name: Seq<char>)
    requires
        is_file_name(dir),
        is_file_name(name),
    ensures
        crate::paths::last_name(p + seq!['/'] + name) == Some(name),
        crate::paths::last_name(name) == Some(name),
        crate::paths::parent_of(p + seq!['/'] + dir + seq!['/'] + name) == Some(
            p + seq!['/'] + dir,
        ),
        crate::paths::parent_of(dir + seq!['/'] + name) == Some(dir),
        crate::paths::parent_of(seq!['/'] + name) == Some(seq!['/']),
        crate::paths::parent_of(name) == Some(Seq::<char>::empty()),
        crate::paths::parent_of(seq!['/']) is None,
{
    let s = p + seq!['/'] + name;
    lemma_last_span(p, name, 0);
    assert(crate::paths::piece(s, (p.len() as int + 1, s.len() as int)) =~= name);
    lemma_name_alone(name);
    assert(name.subrange(0, name.len() as int) =~= name);
    assert(name.take(0) =~= Seq::<char>::empty());
    let q = p + seq!['/'] + dir;
    lemma_last_span(p, dir, 0);
    lemma_last_span(q, name, 0);
    let a = q + seq!['/'] + name;
    assert(crate::paths::spans(a).drop_last() =~= crate::paths::spans(q));
    assert(a.take(q.len() as int) =~= q);
    lemma_name_alone(dir);
    lemma_last_span(dir, name, 0);
    let b = dir + seq!['/'] + name;
    assert(crate::paths::spans(b).drop_last() =~= crate::paths::spans(dir));
    assert(b.take(dir.len() as int) =~= dir);
    let none: Seq<char> = seq![];
    let r = seq!['/'] + name;
    lemma_last_span(none, name, 0);
    assert(none + seq!['/'] + name =~= r);
    assert(crate::paths::spans_from(none, 0).len() == 0);
    assert(crate::paths::spans(r).drop_last().len() == 0);
    assert(r.take(1) =~= seq!['/']);
    let root = seq!['/'];
    assert(root.skip(0) =~= root);
    crate::text::lemma_until_at(root, '/', 0);
    assert(crate::paths::spans_from(root, 1).len() == 0);
    assert(crate::paths::spans(root).len() == 0);
}

/// A path in a directory is what leads there and what is left behind it.
pub proof fn paths_lie_behind_their_directory(p: Seq<char>, dir: Seq<char>, name: Seq<char>)
    requires
        is_file_name(dir),
        is_file_name(name),
    ensures
        ({
            let base = p + seq!['/'] + dir;
            &&& crate::paths::behind(base, base + seq!['/'] + name) == Some(name)
            &&& crate::paths::behind(base, base) == Some(Seq::<char>::empty())
            &&& crate::paths::behind(base + seq!['/'] + name, base) is None
        }),
{
    let base = p + seq!['/'] + dir;
    let s = base + seq!['/'] + name;
    lemma_last_span(p, dir, 0);
    lemma_last_span(base, name, 0);
    crate::paths::spans_lie_within(base, 0);
    let b = crate::paths::spans(base);
    let c = crate::paths::spans(s);
    assert(c =~= b.push((base.len() as int + 1, s.len() as int)));
    assert forall|i: int| 0 <= i < b.len() implies #[trigger] crate::paths::piece(base, b[i])
        == crate::paths::piece(s, c[i]) by {
        assert(c[i] == b[i]);
        assert(b[i].1 <= base.len());
        assert(crate::paths::piece(base, b[i]) =~= crate::paths::piece(s, b[i]));
    }
    assert(s[0] == base[0]);
    assert(s.subrange(base.len() as int + 1, s.len() as int) =~= name);
}

/// The tree writes the home directory `~`, and a path in it behind `~/`;
/// another path stays.
pub proof fn paths_are_written_from_home(p: Seq<char>, dir: Seq<char>, name: Seq<char>)
    requires
        is_file_name(dir),
        is_file_name(name),
    ensures
        ({
            let home = p + seq!['/'] + dir;
            &&& crate::file_tree::abbreviated(home, Some(home)) == seq!['~']
            &&& crate::file_tree::abbreviated(home + seq!['/'] + name, Some(home)) == seq!['~', '/']
                + name
            &&& crate::file_tree::abbreviated(home, Some(home + seq!['/'] + name)) == home
            &&& crate::file_tree::abbreviated(home, None) == home
        }),
{
    reveal_strlit("~");
    reveal_strlit("~/");
    assert("~"@ =~= seq!['~'] && "~/"@ =~= seq!['~', '/']);
    paths_lie_behind_their_directory(p, dir, name);
}

/// The tree starts where the shell is, or at home, or at the root. It goes
/// along with the shell, and only where the shell went elsewhere.
pub proof fn the_tree_follows_the_shell(
    p: Seq<char>,
    dir: Seq<char>,
    name: Seq<char>,
    home: Seq<char>,
)
    requires
        is_file_name(dir),
        is_file_name(name),
    ensures
        ({
            let here = p + seq!['/'] + dir;
            let there = here + seq!['/'] + name;
            let nowhere: Option<Seq<char>> = None;
            &&& crate::file_tree::first_root(Some(here), Some(home)) == here
            &&& crate::file_tree::first_root(nowhere, Some(home)) == home
            &&& crate::file_tree::first_root(nowhere, nowhere) == seq!['/']
            &&& crate::file_tree::next_root(Some(here), here, Some(home)) is None
            &&& crate::file_tree::next_root(Some(there), here, Some(home)) == Some(there)
            &&& crate::file_tree::next_root(Some(here), there, Some(home)) == Some(here)
            &&& crate::file_tree::next_root(nowhere, here, Some(home)) is None
            &&& crate::file_tree::next_root(nowhere, seq![], Some(home)) == Some(home)
        }),
{
    reveal_strlit("/");
    assert("/"@ =~= seq!['/']);
    paths_lie_behind_their_directory(p, dir, name);
}

/// Directories and files look different, and a row loads its directory only
/// while a placeholder stands in for what it holds.
pub proof fn rows_load_once(
    placeholder: &str,
    child: &str,
    path: &str,
    nowhere: &str,
    a: Expansion,
    b: Expansion,
    c: Expansion,
    d: Expansion,
)
    requires
        placeholder@.len() == 0,
        child@.len() > 0,
        path@.len() > 0,
        nowhere@.len() == 0,
        call_ensures(crate::file_tree::on_expand, (Some(placeholder), path), a),
        call_ensures(crate::file_tree::on_expand, (Some(placeholder), nowhere), b),
        call_ensures(crate::file_tree::on_expand, (Some(child), path), c),
        call_ensures(crate::file_tree::on_expand, (None, path), d),
    ensures
        a == Expansion::Load,
        b == Expansion::DropPlaceholder,
        c == Expansion::Keep,
        d == Expansion::Keep,
        crate::file_tree::icon_of(true) == "folder-symbolic"@,
        crate::file_tree::icon_of(false) == "text-x-generic-symbolic"@,
{
}

// ---------------------------------------------------------------------------
// Processes
// ---------------------------------------------------------------------------

proof fn lemma_number(n: nat)
    requires
        n <= 0x7fff_ffff,
    ensures
        crate::text::signed32(crate::text::decimal(n)) == Some(n as int),
        crate::wording::is_word(crate::text::decimal(n)),
{
    let d = crate::text::decimal(n);
    crate::text::decimal_reads_back(n);
    assert(crate::text::is_digit(d[0]));
    assert forall|i: int| 0 <= i < d.len() implies !crate::text::is_white(#[trigger] d[i]) by {
        assert(crate::text::is_digit(d[i]));
    }
}

/// The line that the system keeps of a process: its number, its name in
/// brackets, its state, its parent, its group, and more.
pub open spec fn stat_line(
    head: Seq<char>,
    state: Seq<char>,
    parent: nat,
    group: nat,
    rest: Seq<char>,
) -> Seq<char> {
    head + seq![')', ' '] + (state + seq![' '] + (crate::text::decimal(parent) + seq![' '] + (
    crate::text::decimal(group) + seq![' '] + rest)))
}

proof fn lemma_behind_name(head: Seq<char>, tail: Seq<char>)
    requires
        !tail.contains(')'),
    ensures
        crate::process::through_last(head + seq![')'] + tail, ')') == head.len() + 1,
    decreases tail.len(),
{
    let s = head + seq![')'] + tail;
    if tail.len() == 0 {
        assert(s.last() == ')');
    } else {
        assert(tail.contains(tail[tail.len() - 1]));
        assert(s.last() == tail.last());
        assert(s.drop_last() =~= head + seq![')'] + tail.drop_last());
        assert forall|i: int| 0 <= i < tail.len() - 1 implies tail.drop_last()[i] != ')' by {
            assert(tail.contains(tail[i]));
        }
        lemma_behind_name(head, tail.drop_last());
    }
}

proof fn lemma_no_bracket(a: Seq<char>, b: Seq<char>)
    requires
        !a.contains(')'),
        !b.contains(')'),
    ensures
        !(a + seq![' '] + b).contains(')'),
{
    let s = a + seq![' '] + b;
    assert forall|i: int| 0 <= i < s.len() implies s[i] != ')' by {
        if i < a.len() {
            assert(a.contains(a[i]));
        } else if i > a.len() {
            assert(b.contains(b[i - a.len() - 1]));
        }
    }
}

proof fn lemma_number_no_bracket(n: nat)
    ensures
        !crate::text::decimal(n).contains(')'),
{
    crate::text::decimal_reads_back(n);
    let d = crate::text::decimal(n);
    assert forall|i: int| 0 <= i < d.len() implies d[i] != ')' by {
        assert(crate::text::is_digit(d[i]));
    }
}

/// The second word behind a process's name is its parent and the third its
/// group, whatever brackets and blanks the name holds; nothing is read of a
/// process that cannot be.
pub proof fn parents_and_groups_are_read(
    head: Seq<char>,
    state: Seq<char>,
    parent: nat,
    group: nat,
    rest: Seq<char>,
    stat: &str,
    pid: i32,
    none: i32,
    a: Option<i32>,
    b: Option<i32>,
    c: Option<i32>,
    d: Option<i32>,
    e: Option<i32>,
)
    requires
        crate::wording::is_word(state),
        !state.contains(')'),
        !rest.contains(')'),
        parent <= 0x7fff_ffff,
        group <= 0x7fff_ffff,
        stat@ == stat_line(head, state, parent, group, rest),
        pid > 0,
        none <= 0,
        call_ensures(crate::process::read_ppid, (pid, Some(stat)), a),
        call_ensures(crate::process::get_process_group_id, (pid, Some(stat)), b),
        call_ensures(crate::process::read_ppid, (none, Some(stat)), c),
        call_ensures(crate::process::get_process_group_id, (none, Some(stat)), d),
        call_ensures(crate::process::read_ppid, (pid, None), e),
    ensures
        a matches Some(p) && p as nat == parent,
        b matches Some(g) && g as nat == group,
        c is None,
        d is None,
        e is None,
{
    let p = crate::text::decimal(parent);
    let g = crate::text::decimal(group);
    lemma_number(parent);
    lemma_number(group);
    lemma_number_no_bracket(parent);
    lemma_number_no_bracket(group);
    let last = g + seq![' '] + rest;
    let middle = p + seq![' '] + last;
    let fields = state + seq![' '] + middle;
    lemma_no_bracket(g, rest);
    lemma_no_bracket(p, last);
    lemma_no_bracket(state, middle);
    let tail = seq![' '] + fields;
    assert forall|i: int| 0 <= i < tail.len() implies tail[i] != ')' by {
        if i > 0 {
            assert(fields.contains(fields[i - 1]));
        }
    }
    let line = stat@;
    assert(line =~= head + seq![')'] + tail);
    lemma_behind_name(head, tail);
    assert(line.skip(head.len() as int + 1) =~= tail);
    crate::wording::words_are_parted(g, ' ', rest);
    crate::wording::words_are_parted(p, ' ', last);
    crate::wording::words_are_parted(state, ' ', middle);
    crate::wording::leading_blanks_are_passed(seq![' '], fields);
    let w = crate::text::words(tail);
    assert(w[0] == state && w[1] == p && w[2] == g);
}

/// Arguments come apart at the zero bytes between them, and the last one may
/// be followed by a zero byte too.
pub proof fn arguments_come_apart(parts: Seq<Seq<u8>>)
    requires
        parts.len() > 0,
        forall|i: int| 0 <= i < parts.len() ==> (#[trigger] parts[i]).len() > 0,
        forall|i: int, j: int|
            0 <= i < parts.len() && 0 <= j < parts[i].len() ==> #[trigger] parts[i][j] != 0,
    ensures
        ({
            let texts = parts.map_values(|p: Seq<u8>| crate::text::utf8_lossy(p));
            &&& crate::process::arguments(crate::text::joined(parts, seq![0u8])) == Some(texts)
            &&& crate::process::arguments(crate::text::joined(parts, seq![0u8]) + seq![0u8])
                == Some(texts)
        }),
        crate::process::arguments(seq![]) is None,
{
    let raw = crate::text::joined(parts, seq![0u8]);
    let none: Seq<u8> = seq![];
    crate::text::split_undoes_join(parts, 0u8);
    lemma_arguments(parts);
    crate::text::split_grows(raw, 0u8, 0u8);
    assert(raw.push(0u8) =~= raw + seq![0u8]);
    assert(parts.push(none).drop_last() =~= parts);
    assert(crate::text::split_on(none, 0u8) =~= seq![none]);
    assert(seq![none].drop_last() =~= Seq::<Seq<u8>>::empty());
    assert(crate::process::argument_texts(seq![none].drop_last()).len() == 0);
    assert(crate::process::argument_texts(seq![none]).len() == 0);
}

proof fn lemma_arguments(parts: Seq<Seq<u8>>)
    requires
        forall|i: int| 0 <= i < parts.len() ==> (#[trigger] parts[i]).len() > 0,
    ensures
        crate::process::argument_texts(parts) == parts.map_values(
            |p: Seq<u8>| crate::text::utf8_lossy(p),
        ),
    decreases parts.len(),
{
    let texts = parts.map_values(|p: Seq<u8>| crate::text::utf8_lossy(p));
    if parts.len() > 0 {
        let front = parts.drop_last();
        assert forall|i: int| 0 <= i < front.len() implies (#[trigger] front[i]).len() > 0 by {
            assert(front[i] == parts[i]);
        }
        lemma_arguments(front);
        assert(parts[parts.len() - 1].len() > 0);
        assert(texts =~= front.map_values(|p: Seq<u8>| crate::text::utf8_lossy(p)).push(
            crate::text::utf8_lossy(parts.last()),
        ));
    } else {
        assert(crate::process::argument_texts(parts) =~= texts);
    }
}

spec fn name_of_program(s: Seq<char>) -> bool {
    ||| s == "nix"@
    ||| s == "bash"@
    ||| s == "zsh"@
    ||| s == "fish"@
    ||| s == "ssh"@
    ||| s == "mosh"@
    ||| s == "docker"@
    ||| s == "podman"@
}

#[verifier::spinoff_prover]
proof fn lemma_programs(p: Seq<char>, s: Seq<char>)
    requires
        name_of_program(s),
    ensures
        is_file_name(s),
        crate::paths::last_name(p + seq!['/'] + s) == Some(s),
        crate::paths::last_name(s) == Some(s),
{
    reveal_strlit("nix");
    reveal_strlit("bash");
    reveal_strlit("zsh");
    reveal_strlit("fish");
    reveal_strlit("ssh");
    reveal_strlit("mosh");
    reveal_strlit("docker");
    reveal_strlit("podman");
    assert(s.len() >= 3);
    assert(!s.contains('/')) by {
        assert forall|i: int| 0 <= i < s.len() implies s[i] != '/' by {}
    }
    assert(s.len() != seq!['.'].len() && s.len() != seq!['.', '.'].len());
    paths_end_in_their_name(p, s, s);
}

/// The words of a command, the first of which is a path to a program.
pub open spec fn command(dir: Seq<char>, program: Seq<char>, rest: Seq<Seq<char>>) -> Seq<
    Seq<char>,
> {
    seq![dir + seq!['/'] + program] + rest
}

/// A remote shell and a command in a container are typed again as they were; so
/// is a development shell, and a shell that one started is asked for anew.
/// Other commands are not.
#[verifier::spinoff_prover]
pub proof fn commands_are_replayed(dir: Seq<char>, rest: Seq<Seq<char>>, i: int, name: Seq<char>)
    ensures
        ({
            let ssh = command(dir, "ssh"@, rest);
            let mosh = command(dir, "mosh"@, rest);
            let nix = command(dir, "nix"@, seq!["develop"@] + rest);
            let docker = command(dir, "docker"@, seq!["exec"@] + rest);
            let podman = command(dir, "podman"@, seq!["exec"@] + rest);
            let composed = command(dir, "docker"@, seq!["compose"@, "exec"@] + rest);
            let pods = command(dir, "podman"@, seq!["compose"@, "exec"@] + rest);
            &&& crate::process::restorable(ssh) == Some(crate::text::joined(ssh, seq![' ']))
            &&& crate::process::restorable(mosh) == Some(crate::text::joined(mosh, seq![' ']))
            &&& crate::process::restorable(nix) == Some(crate::text::joined(nix, seq![' ']))
            &&& crate::process::restorable(docker) == Some(crate::text::joined(docker, seq![' ']))
            &&& crate::process::restorable(podman) == Some(crate::text::joined(podman, seq![' ']))
            &&& crate::process::restorable(composed) == Some(
                crate::text::joined(composed, seq![' ']),
            )
            &&& crate::process::restorable(pods) == Some(crate::text::joined(pods, seq![' ']))
        }),
        rest.len() > 0 && rest[0] != "develop"@ ==> crate::process::restorable(
            command(dir, "nix"@, rest),
        ) is None,
        rest.len() > 0 && rest[0] != "exec"@ && rest[0] != "compose"@ ==> {
            &&& crate::process::restorable(command(dir, "docker"@, rest)) is None
            &&& crate::process::restorable(command(dir, "podman"@, rest)) is None
        },
        0 <= i < rest.len() && (rest[i] == "/tmp/nix-shell."@ + name || rest[i] == "/tmp/nix-shell-"@
            + name) ==> {
            &&& crate::process::restorable(command(dir, "bash"@, rest)) == Some("nix develop"@)
            &&& crate::process::restorable(command(dir, "zsh"@, rest)) == Some("nix develop"@)
            &&& crate::process::restorable(command(dir, "fish"@, rest)) == Some("nix develop"@)
        },
        rest.len() == 0 ==> {
            &&& crate::process::restorable(command(dir, "bash"@, rest)) is None
            &&& crate::process::restorable(command(dir, "zsh"@, rest)) is None
            &&& crate::process::restorable(command(dir, "fish"@, rest)) is None
        },
{
    reveal_strlit(" ");
    reveal_strlit("exec");
    reveal_strlit("compose");
    assert(" "@ =~= seq![' ']);
    assert("exec"@.len() != "compose"@.len());
    lemma_programs(dir, "nix"@);
    lemma_programs(dir, "bash"@);
    lemma_programs(dir, "zsh"@);
    lemma_programs(dir, "fish"@);
    lemma_programs(dir, "ssh"@);
    lemma_programs(dir, "mosh"@);
    lemma_programs(dir, "docker"@);
    lemma_programs(dir, "podman"@);
    lemma_programs_differ();
    let composed = command(dir, "docker"@, seq!["compose"@, "exec"@] + rest);
    let pods = command(dir, "podman"@, seq!["compose"@, "exec"@] + rest);
    assert(composed[1] == "compose"@ && composed[2] == "exec"@);
    assert(pods[1] == "compose"@ && pods[2] == "exec"@);
    if 0 <= i < rest.len() {
        let bash = command(dir, "bash"@, rest);
        let zsh = command(dir, "zsh"@, rest);
        let fish = command(dir, "fish"@, rest);
        if rest[i] == "/tmp/nix-shell."@ + name {
            assert(rest[i].subrange(0, "/tmp/nix-shell."@.len() as int) =~= "/tmp/nix-shell."@);
        }
        if rest[i] == "/tmp/nix-shell-"@ + name {
            assert(rest[i].subrange(0, "/tmp/nix-shell-"@.len() as int) =~= "/tmp/nix-shell-"@);
        }
        assert(bash[i + 1] == rest[i]);
        assert(zsh[i + 1] == rest[i]);
        assert(fish[i + 1] == rest[i]);
    }
}

proof fn lemma_programs_differ()
    ensures
        "nix"@[0] == 'n',
        "bash"@[0] == 'b',
        "zsh"@[0] == 'z',
        "fish"@[0] == 'f',
        "ssh"@[0] == 's',
        "mosh"@[0] == 'm',
        "docker"@[0] == 'd',
        "podman"@[0] == 'p',
{
    reveal_strlit("nix");
    reveal_strlit("bash");
    reveal_strlit("zsh");
    reveal_strlit("fish");
    reveal_strlit("ssh");
    reveal_strlit("mosh");
    reveal_strlit("docker");
    reveal_strlit("podman");
}

/// A program that is none of those known is not typed again.
pub proof fn other_programs_are_not_replayed(program: Seq<char>, rest: Seq<Seq<char>>)
    requires
        is_file_name(program),
        !seq![
            "nix"@,
            "bash"@,
            "zsh"@,
            "fish"@,
            "ssh"@,
            "mosh"@,
            "docker"@,
            "podman"@,
        ].contains(program),
    ensures
        crate::process::restorable(seq![program] + rest) is None,
{
    lemma_name_alone(program);
    assert(program.subrange(0, program.len() as int) =~= program);
    let known = seq!["nix"@, "bash"@, "zsh"@, "fish"@, "ssh"@, "mosh"@, "docker"@, "podman"@];
    assert(known[0] != program && known[1] != program && known[2] != program && known[3] != program
        && known[4] != program && known[5] != program && known[6] != program && known[7]
        != program);
}

/// The way up from the foreground ends at the first command that can be typed
/// again, wherever it stands below the shell.
pub proof fn the_nearest_command_is_found(
    w: WalkView,
    chain: Seq<(Option<Seq<Seq<char>>>, Option<int>)>,
    args: Seq<Seq<char>>,
    above: Option<int>,
    more: Seq<(Option<Seq<Seq<char>>>, Option<int>)>,
)
    requires
        !w.over,
        w.found is None,
        w.pid > 1,
        w.pid != w.shell_pid,
        0 <= w.visited,
        w.visited + chain.len() < 16,
        crate::process::restorable(args) is Some,
        forall|i: int|
            0 <= i < chain.len() ==> {
                &&& (#[trigger] chain[i]).0 matches Some(a) ==> crate::process::restorable(a)
                    is None
                &&& chain[i].1 matches Some(p) && p > 1 && p != w.shell_pid
            },
    ensures
        crate::process::walked(w, chain + seq![(Some(args), above)] + more).found
            == crate::process::restorable(args),
        crate::process::walked(w, chain + seq![(Some(args), above)] + more).next() is None,
    decreases chain.len(),
{
    let all = chain + seq![(Some(args), above)] + more;
    if chain.len() == 0 {
        assert(all[0] == (Some(args), above));
        let v = w.stepped(all[0].0, all[0].1);
        assert(v.over);
        assert(crate::process::walked(v, all.skip(1)) == v);
    } else {
        let first = chain[0];
        assert(all[0] == first);
        let rest = chain.skip(1);
        assert(all.skip(1) =~= rest + seq![(Some(args), above)] + more);
        let v = w.stepped(first.0, first.1);
        assert forall|i: int| 0 <= i < rest.len() implies {
            &&& (#[trigger] rest[i]).0 matches Some(a) ==> crate::process::restorable(a) is None
            &&& rest[i].1 matches Some(p) && p > 1 && p != v.shell_pid
        } by {
            assert(rest[i] == chain[i + 1]);
        }
        the_nearest_command_is_found(v, rest, args, above, more);
    }
}

/// A process in the foreground counts where it is known and is not the shell.
pub proof fn the_foreground_is_not_the_shell(fd: int, shell: int, pid: int)
    ensures
        fd >= 0 && pid > 0 && pid != shell ==> crate::process::foreground(fd, shell, pid) == Some(
            pid,
        ),
        crate::process::foreground(fd, shell, shell) is None,
        fd < 0 || pid <= 0 ==> crate::process::foreground(fd, shell, pid) is None,
{
}

/// A process is asked to hang up, then to end, and is then killed; it has
/// time after each.
pub proof fn processes_get_time_to_end(pid: int)
    ensures
        pid > 0 ==> {
            let a = crate::process::first_stage(pid);
            let b = crate::process::stage_after(a, false);
            let c = crate::process::stage_after(b, false);
            &&& a == (Stage::Send { signal: Signal::Hangup, wait_ms: 120 })
            &&& b == (Stage::Send { signal: Signal::Terminate, wait_ms: 250 })
            &&& c == (Stage::Send { signal: Signal::Kill, wait_ms: 150 })
        },
        pid <= 0 ==> crate::process::first_stage(pid) == Stage::Over,
{
}

/// A process is there where a signal reaches it or may not be sent, and its
/// group is signalled along only where it leads it.
pub proof fn signals_reach_only_their_own(
    pid: i32,
    other: i32,
    none: i32,
    permitted: bool,
    a: bool,
    b: bool,
    c: bool,
    d: bool,
    e: bool,
    f: bool,
    g: bool,
)
    requires
        pid > 0,
        other != pid,
        none <= 0,
        call_ensures(crate::process::process_exists, (pid, true, permitted), a),
        call_ensures(crate::process::process_exists, (pid, false, true), b),
        call_ensures(crate::process::process_exists, (pid, false, false), c),
        call_ensures(crate::process::process_exists, (none, true, true), d),
        call_ensures(crate::process::signals_group, (pid, true, Some(pid)), e),
        call_ensures(crate::process::signals_group, (pid, true, Some(other)), f),
        call_ensures(crate::process::signals_group, (pid, false, Some(pid)), g),
    ensures
        a && b && !c && !d && e && !f && !g,
{
}

// ---------------------------------------------------------------------------
// Looks
// ---------------------------------------------------------------------------

/// Colours are written by their parts, red first.
pub proof fn colours_are_written_by_parts(c: crate::terminal::ansi::Rgb, opacity: Seq<char>)
    ensures
        crate::theme::solid(c) == "rgb("@ + crate::text::decimal(c.r as nat) + ","@
            + crate::text::decimal(c.g as nat) + ","@ + crate::text::decimal(c.b as nat) + ")"@,
        crate::theme::faded(c, opacity) == "rgba("@ + crate::text::decimal(c.r as nat) + ","@
            + crate::text::decimal(c.g as nat) + ","@ + crate::text::decimal(c.b as nat) + ","@
            + opacity + ")"@,
{
    assert(crate::theme::solid(c) =~= "rgb("@ + crate::text::decimal(c.r as nat) + ","@
        + crate::text::decimal(c.g as nat) + ","@ + crate::text::decimal(c.b as nat) + ")"@);
    assert(crate::theme::faded(c, opacity) =~= "rgba("@ + crate::text::decimal(c.r as nat) + ","@
        + crate::text::decimal(c.g as nat) + ","@ + crate::text::decimal(c.b as nat) + ","@
        + opacity + ")"@);
}

/// A mode goes by its name, and a name that is not known is that of blocks.
pub proof fn modes_go_by_name(name: Seq<char>)
    ensures
        crate::session::mode_of("vte"@) == crate::session::TerminalMode::Vte,
        crate::session::mode_of("block"@) == crate::session::TerminalMode::Block,
        name != "vte"@ ==> crate::session::mode_of(name) == crate::session::TerminalMode::Block,
        crate::session::mode_name(crate::session::TerminalMode::Vte) == "vte"@,
        crate::session::mode_name(crate::session::TerminalMode::Block) == "block"@,
{
    reveal_strlit("vte");
    reveal_strlit("block");
    assert("vte"@.len() != "block"@.len());
}

} // verus!
