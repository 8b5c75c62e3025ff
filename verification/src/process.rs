//! Child processes: what `/proc` says of them, which of their commands can be
//! replayed on restore, and how a terminal's process is brought to an end.

use crate::paths::file_name;
use crate::text::{
    chars_of, join_strings, lossy_text, parse_i32, same_text, split_bytes, split_words, starts_with,
    text_of,
};
use vstd::prelude::*;
use vstd::slice::slice_subrange;

verus! {

// ---------------------------------------------------------------------------
// What /proc says
// ---------------------------------------------------------------------------

/// How many characters come before the end of the last `c`.
pub open spec fn through_last(s: Seq<char>, c: char) -> nat
    decreases s.len(),
{
    if s.len() == 0 {
        0
    } else if s.last() == c {
        s.len()
    } else {
        through_last(s.drop_last(), c)
    }
}

/// A numbered field of a process's `stat` line, counted from the state, which
/// follows the name in brackets. The name may itself hold blanks and brackets.
pub open spec fn stat_field(stat: Seq<char>, n: nat) -> Option<int> {
    let from = through_last(stat, ')');
    let fields = crate::text::words(stat.skip(from as int));
    if from == 0 || n >= fields.len() {
        None
    } else {
        crate::text::signed32(fields[n as int])
    }
}

proof fn lemma_through_last(s: Seq<char>, c: char, n: int)
    requires
        0 <= n <= s.len(),
        forall|i: int| n <= i < s.len() ==> s[i] != c,
    ensures
        through_last(s, c) == through_last(s.take(n), c),
    decreases s.len(),
{
    if n == s.len() {
        assert(s.take(n) =~= s);
    } else {
        lemma_through_last(s.drop_last(), c, n);
        assert(s.drop_last().take(n) =~= s.take(n));
    }
}

fn read_stat_field(stat: &str, n: usize) -> (res: Option<i32>)
    ensures
        optional_number(res) == stat_field(stat@, n as nat),
{
    let chars = chars_of(stat);
    let mut from: usize = chars.len();
    while from > 0 && chars[from - 1] != ')'
        invariant
            from <= chars.len(),
            forall|i: int| from <= i < chars@.len() ==> chars@[i] != ')',
        decreases from,
    {
        from -= 1;
    }
    proof {
        lemma_through_last(chars@, ')', from as int);
        if from > 0 {
            assert(chars@.take(from as int).last() == ')');
        }
        assert(through_last(stat@, ')') == from);
    }
    if from == 0 {
        return None;
    }
    let rest = slice_subrange(chars.as_slice(), from, chars.len());
    assert(rest@ =~= stat@.skip(from as int));
    let fields = split_words(rest);
    proof {
        assert(fields@.len() == crate::text::views(fields@).len());
    }
    if n < fields.len() {
        assert(crate::text::views(fields@)[n as int] == fields@[n as int]@);
        parse_i32(fields[n])
    } else {
        None
    }
}

/// A number that may be missing.
pub open spec fn optional_number(n: Option<i32>) -> Option<int> {
    match n {
        Some(n) => Some(n as int),
        None => None,
    }
}

/// The parent of a process, given its `stat` line.
pub fn read_ppid(pid: i32, stat: Option<&str>) -> (res: Option<i32>)
    ensures
        optional_number(res) == match stat {
            Some(s) if pid > 0 => stat_field(s@, 1),
            _ => None,
        },
{
    match stat {
        Some(s) if pid > 0 => read_stat_field(s, 1),
        _ => None,
    }
}

/// The process group of a process, given its `stat` line.
pub fn get_process_group_id(pid: i32, stat: Option<&str>) -> (res: Option<i32>)
    ensures
        optional_number(res) == match stat {
            Some(s) if pid > 0 => stat_field(s@, 2),
            _ => None,
        },
{
    match stat {
        Some(s) if pid > 0 => read_stat_field(s, 2),
        _ => None,
    }
}

/// The arguments that are not empty, as texts.
pub open spec fn argument_texts(parts: Seq<Seq<u8>>) -> Seq<Seq<char>>
    decreases parts.len(),
{
    if parts.len() == 0 {
        seq![]
    } else if parts.last().len() == 0 {
        argument_texts(parts.drop_last())
    } else {
        argument_texts(parts.drop_last()).push(crate::text::utf8_lossy(parts.last()))
    }
}

/// The arguments of a process, given its `cmdline`, in which each ends with a
/// zero byte; nothing where there is none.
pub open spec fn arguments(raw: Seq<u8>) -> Option<Seq<Seq<char>>> {
    let args = argument_texts(crate::text::split_on(raw, 0));
    if args.len() == 0 {
        None
    } else {
        Some(args)
    }
}

/// The arguments as texts.
pub open spec fn optional_texts(v: Option<Vec<String>>) -> Option<Seq<Seq<char>>> {
    match v {
        Some(v) => Some(crate::text::texts(v@)),
        None => None,
    }
}

/// Splits the `cmdline` of a process into its arguments.
pub fn read_proc_cmdline(pid: i32, raw: Option<&[u8]>) -> (res: Option<Vec<String>>)
    ensures
        optional_texts(res) == match raw {
            Some(r) if pid > 0 => arguments(r@),
            _ => None,
        },
{
    let raw = match raw {
        Some(r) if pid > 0 => r,
        _ => {
            return None;
        },
    };
    let parts = split_bytes(raw, 0);
    let ghost all = crate::text::views(parts@);
    let mut args: Vec<String> = Vec::new();
    let mut i: usize = 0;
    assert(crate::text::texts(args@) =~= seq![]);
    while i < parts.len()
        invariant
            i <= parts.len(),
            all == crate::text::views(parts@),
            crate::text::texts(args@) == argument_texts(all.take(i as int)),
        decreases parts.len() - i,
    {
        let ghost before = args@;
        proof {
            assert(all.take(i + 1).drop_last() =~= all.take(i as int));
            assert(all.take(i + 1).last() == parts@[i as int]@);
        }
        if parts[i].len() > 0 {
            args.push(lossy_text(parts[i]));
            assert(crate::text::texts(args@) =~= crate::text::texts(before).push(args@.last()@));
        }
        i += 1;
    }
    assert(all.take(i as int) =~= all);
    if args.len() == 0 {
        None
    } else {
        Some(args)
    }
}

// ---------------------------------------------------------------------------
// Restorable commands
// ---------------------------------------------------------------------------

/// The name of the program that arguments run, empty where there is none.
pub open spec fn program(args: Seq<Seq<char>>) -> Seq<char> {
    match crate::paths::last_name(args[0]) {
        Some(name) => name,
        None => seq![],
    }
}

/// The argument is a file that `nix develop` wrote for the shell it runs.
pub open spec fn is_nix_shell_file(arg: Seq<char>) -> bool {
    crate::text::begins(arg, "/tmp/nix-shell."@) || crate::text::begins(arg, "/tmp/nix-shell-"@)
}

/// The command that brings a process back, given its arguments, where it is of
/// a kind that is worth it: `nix develop`, a remote shell, or a shell in a
/// container.
pub open spec fn restorable(args: Seq<Seq<char>>) -> Option<Seq<char>> {
    if args.len() == 0 {
        None
    } else {
        let bin = program(args);
        let whole = Some(crate::text::joined(args, " "@));
        if bin == "nix"@ {
            if args.len() >= 2 && args[1] == "develop"@ {
                whole
            } else {
                None
            }
        } else if bin == "bash"@ || bin == "zsh"@ || bin == "fish"@ {
            if exists|i: int| 1 <= i < args.len() && is_nix_shell_file(#[trigger] args[i]) {
                Some("nix develop"@)
            } else {
                None
            }
        } else if bin == "ssh"@ || bin == "mosh"@ {
            whole
        } else if bin == "docker"@ || bin == "podman"@ {
            if args.len() >= 2 && (args[1] == "exec"@ || (args[1] == "compose"@ && args.len() >= 3
                && args[2] == "exec"@)) {
                whole
            } else {
                None
            }
        } else {
            None
        }
    }
}

fn runs_nix_shell(args: &[String]) -> (res: bool)
    requires
        args@.len() > 0,
    ensures
        res == exists|i: int|
            1 <= i < args@.len() && is_nix_shell_file(#[trigger] crate::text::texts(args@)[i]),
{
    let mut i: usize = 1;
    while i < args.len()
        invariant
            1 <= i <= args.len(),
            forall|j: int|
                1 <= j < i ==> !is_nix_shell_file(#[trigger] crate::text::texts(args@)[j]),
        decreases args.len() - i,
    {
        let arg = chars_of(args[i].as_str());
        assert(crate::text::texts(args@)[i as int] == arg@);
        if starts_with(arg.as_slice(), "/tmp/nix-shell.") || starts_with(
            arg.as_slice(),
            "/tmp/nix-shell-",
        ) {
            return true;
        }
        i += 1;
    }
    false
}

fn joined_command(args: &[String]) -> (res: Option<String>)
    ensures
        crate::text::optional_string(res) == Some(
            crate::text::joined(crate::text::texts(args@), " "@),
        ),
{
    Some(text_of(join_strings(args, " ").as_slice()))
}

/// The command that brings a process back, given its arguments, where it is of
/// a kind that is worth it.
pub fn match_restorable_command(args: &[String]) -> (res: Option<String>)
    ensures
        crate::text::optional_string(res) == restorable(crate::text::texts(args@)),
{
    if args.len() == 0 {
        return None;
    }
    let ghost all = crate::text::texts(args@);
    assert(all[0] == args@[0]@);
    let name = file_name(args[0].as_str());
    let none: Vec<char> = Vec::new();
    assert(none@ =~= seq![]);
    let bin = match name {
        Some(name) => name,
        None => text_of(none.as_slice()),
    };
    assert(bin@ == program(all));
    let bin = bin.as_str();
    if same_text(bin, "nix") {
        if args.len() >= 2 {
            assert(all[1] == args@[1]@);
            if same_text(args[1].as_str(), "develop") {
                return joined_command(args);
            }
        }
        None
    } else if same_text(bin, "bash") || same_text(bin, "zsh") || same_text(bin, "fish") {
        if runs_nix_shell(args) {
            Some("nix develop".to_string())
        } else {
            None
        }
    } else if same_text(bin, "ssh") || same_text(bin, "mosh") {
        joined_command(args)
    } else if same_text(bin, "docker") || same_text(bin, "podman") {
        if args.len() >= 2 {
            assert(all[1] == args@[1]@);
            if same_text(args[1].as_str(), "exec") {
                return joined_command(args);
            }
            if args.len() >= 3 {
                assert(all[2] == args@[2]@);
                if same_text(args[1].as_str(), "compose") && same_text(args[2].as_str(), "exec") {
                    return joined_command(args);
                }
            }
        }
        None
    } else {
        None
    }
}

// ---------------------------------------------------------------------------
// The foreground process
// ---------------------------------------------------------------------------

/// The process group in a terminal's foreground, given what the terminal says
/// it is; nothing where that is the shell itself.
pub open spec fn foreground(pty_fd: int, shell_pid: int, reported: int) -> Option<int> {
    if pty_fd < 0 || reported <= 0 || reported == shell_pid {
        None
    } else {
        Some(reported)
    }
}

/// The process group in a terminal's foreground, or nothing where the shell
/// itself is.
pub fn foreground_pgid(pty_fd: i32, shell_pid: i32, reported: i32) -> (res: Option<i32>)
    ensures
        optional_number(res) == foreground(pty_fd as int, shell_pid as int, reported as int),
{
    if pty_fd < 0 || reported <= 0 || reported == shell_pid {
        None
    } else {
        Some(reported)
    }
}

/// The name of a foreground process, given its arguments.
pub fn foreground_process_name(args: Option<&[String]>) -> (res: Option<String>)
    ensures
        crate::text::optional_string(res) == match args {
            Some(a) if a@.len() > 0 => crate::paths::last_name(a@[0]@),
            _ => None,
        },
{
    match args {
        Some(a) if a.len() > 0 => file_name(a[0].as_str()),
        _ => None,
    }
}

/// How many processes are looked at on the way to the shell.
pub const MAX_STEPS: u32 = 16;

/// The way from the process in a terminal's foreground up to its shell, in
/// search of a command that can be replayed.
#[derive(Debug)]
pub struct Walk {
    pub shell_pid: i32,
    pub pid: i32,
    pub visited: u32,
    pub found: Option<String>,
    pub over: bool,
}

/// Where a [`Walk`] has come to.
pub struct WalkView {
    pub shell_pid: int,
    pub pid: int,
    pub visited: int,
    pub found: Option<Seq<char>>,
    pub over: bool,
}

impl WalkView {
    /// The process to look at next, if any.
    pub open spec fn next(self) -> Option<int> {
        if self.over || self.pid == self.shell_pid || self.pid <= 1 || self.visited >= MAX_STEPS {
            None
        } else {
            Some(self.pid)
        }
    }

    /// The walk after a look at its next process: it ends where the process's
    /// command can be replayed or its parent is not known, and else goes on to
    /// the parent.
    pub open spec fn stepped(self, args: Option<Seq<Seq<char>>>, ppid: Option<int>) -> WalkView {
        let found = match args {
            Some(a) => restorable(a),
            None => None,
        };
        match (found, ppid) {
            (Some(_), _) => WalkView { found, over: true, ..self },
            (None, Some(p)) => WalkView { pid: p, visited: self.visited + 1, ..self },
            (None, None) => WalkView { over: true, ..self },
        }
    }
}

impl View for Walk {
    type V = WalkView;

    open spec fn view(&self) -> WalkView {
        WalkView {
            shell_pid: self.shell_pid as int,
            pid: self.pid as int,
            visited: self.visited as int,
            found: crate::text::optional_string(self.found),
            over: self.over,
        }
    }
}

/// The outcome of a walk along processes, each given by its arguments and its
/// parent: the first command that can be replayed.
pub open spec fn walked(w: WalkView, chain: Seq<(Option<Seq<Seq<char>>>, Option<int>)>) -> WalkView
    decreases chain.len(),
{
    if chain.len() == 0 || w.next() is None {
        w
    } else {
        walked(w.stepped(chain[0].0, chain[0].1), chain.skip(1))
    }
}

impl Walk {
    /// Starts at the process in the foreground.
    pub fn start(shell_pid: i32, foreground: Option<i32>) -> (res: Walk)
        ensures
            res@ == (WalkView {
                shell_pid: shell_pid as int,
                pid: match foreground {
                    Some(p) => p as int,
                    None => shell_pid as int,
                },
                visited: 0,
                found: None,
                over: false,
            }),
    {
        Walk {
            shell_pid,
            pid: match foreground {
                Some(p) => p,
                None => shell_pid,
            },
            visited: 0,
            found: None,
            over: false,
        }
    }

    /// The process to look at next, if any.
    pub fn next(&self) -> (res: Option<i32>)
        ensures
            optional_number(res) == self@.next(),
    {
        if self.over || self.pid == self.shell_pid || self.pid <= 1 || self.visited >= MAX_STEPS {
            None
        } else {
            Some(self.pid)
        }
    }

    /// Takes in what is known of the next process: its arguments and its parent.
    pub fn step(&mut self, args: Option<&[String]>, ppid: Option<i32>)
        requires
            old(self)@.next() is Some,
        ensures
            final(self)@ == old(self)@.stepped(
                match args {
                    Some(a) => Some(crate::text::texts(a@)),
                    None => None,
                },
                optional_number(ppid),
            ),
    {
        if let Some(a) = args {
            if let Some(command) = match_restorable_command(a) {
                self.found = Some(command);
                self.over = true;
                return;
            }
        }
        match ppid {
            Some(p) => {
                self.pid = p;
                self.visited += 1;
            },
            None => {
                self.over = true;
            },
        }
    }
}

/// A walk looks at no more than a fixed number of processes, whatever their
/// parents are, and ends with the first command that can be replayed.
pub proof fn walks_end(w: WalkView, chain: Seq<(Option<Seq<Seq<char>>>, Option<int>)>)
    requires
        0 <= w.visited <= MAX_STEPS,
        chain.len() + w.visited >= MAX_STEPS,
    ensures
        walked(w, chain).next() is None,
        0 <= walked(w, chain).visited <= MAX_STEPS,
    decreases chain.len(),
{
    if chain.len() > 0 && w.next() is Some {
        let v = w.stepped(chain[0].0, chain[0].1);
        if v.over {
            assert(walked(v, chain.skip(1)) == v);
        } else {
            walks_end(v, chain.skip(1));
        }
    }
}

/// Where the shell itself is in the foreground there is nothing to look at.
pub proof fn shells_are_not_walked(shell_pid: int)
    ensures
        (WalkView { shell_pid, pid: shell_pid, visited: 0, found: None, over: false }).next()
            is None,
{
}

// ---------------------------------------------------------------------------
// The end of a process
// ---------------------------------------------------------------------------

/// Whether a process is there, given the outcome of a signal that does nothing:
/// it was delivered, or refused for want of permission.
pub fn process_exists(pid: i32, delivered: bool, not_permitted: bool) -> (res: bool)
    ensures
        res == (pid > 0 && (delivered || not_permitted)),
{
    pid > 0 && (delivered || not_permitted)
}

/// Whether a signal to a process goes to its group as well: only where the
/// process leads it, so that a reused number hits nothing else.
pub fn signals_group(pid: i32, delivered: bool, group: Option<i32>) -> (res: bool)
    ensures
        res == (pid > 0 && delivered && group == Some(pid)),
{
    match group {
        Some(g) => pid > 0 && delivered && g == pid,
        None => false,
    }
}

/// A signal that asks a process to end, from the mildest on.
#[derive(Clone, Copy, PartialEq, Eq, Debug, Structural)]
pub enum Signal {
    Hangup,
    Terminate,
    Kill,
}

/// How far the ending of a process has come.
#[derive(Clone, Copy, PartialEq, Eq, Debug, Structural)]
pub enum Stage {
    /// The signal is due; the process then has so many milliseconds to end.
    Send { signal: Signal, wait_ms: u64 },
    /// There is nothing left to do.
    Over,
}

/// How the ending of a process starts.
pub open spec fn first_stage(pid: int) -> Stage {
    if pid <= 0 {
        Stage::Over
    } else {
        Stage::Send { signal: Signal::Hangup, wait_ms: 120 }
    }
}

/// How it goes on, given whether the process has ended in time.
pub open spec fn stage_after(stage: Stage, exited: bool) -> Stage {
    match stage {
        Stage::Send { signal: Signal::Hangup, .. } if !exited => Stage::Send {
            signal: Signal::Terminate,
            wait_ms: 250,
        },
        Stage::Send { signal: Signal::Terminate, .. } if !exited => Stage::Send {
            signal: Signal::Kill,
            wait_ms: 150,
        },
        _ => Stage::Over,
    }
}

impl Stage {
    /// Starts the ending of a process.
    pub fn first(pid: i32) -> (res: Stage)
        ensures
            res == first_stage(pid as int),
    {
        if pid <= 0 {
            Stage::Over
        } else {
            Stage::Send { signal: Signal::Hangup, wait_ms: 120 }
        }
    }

    /// Goes on, given whether the process has ended in time.
    pub fn next(self, exited: bool) -> (res: Stage)
        ensures
            res == stage_after(self, exited),
    {
        match self {
            Stage::Send { signal, .. } if !exited => match signal {
                Signal::Hangup => Stage::Send { signal: Signal::Terminate, wait_ms: 250 },
                Signal::Terminate => Stage::Send { signal: Signal::Kill, wait_ms: 150 },
                Signal::Kill => Stage::Over,
            },
            _ => Stage::Over,
        }
    }
}

/// A process that will not end is sent the three signals in turn, from the
/// mildest to the one it cannot refuse, and nothing more.
pub proof fn signals_escalate(pid: int)
    requires
        pid > 0,
    ensures
        ({
            let a = first_stage(pid);
            let b = stage_after(a, false);
            let c = stage_after(b, false);
            &&& a matches Stage::Send { signal: Signal::Hangup, .. }
            &&& b matches Stage::Send { signal: Signal::Terminate, .. }
            &&& c matches Stage::Send { signal: Signal::Kill, .. }
            &&& stage_after(c, false) == Stage::Over
        }),
{
}

/// A process that has ended is sent nothing more.
pub proof fn ended_processes_are_left_alone(stage: Stage)
    ensures
        stage_after(stage, true) == Stage::Over,
{
}

} // verus!
