//! What the agent makes of commands and replies, told of the texts themselves:
//! which commands are held up and why, how a reply is read, and what a long
//! text is cut down to.

use vstd::prelude::*;

use crate::agent::{FieldsView, Reply, TurnView};

verus! {

// ---------------------------------------------------------------------------
// Commands
// ---------------------------------------------------------------------------

/// No capital of ASCII, no colon, and no white space.
pub open spec fn is_plain_word(w: Seq<char>) -> bool {
    w.len() > 0 && forall|i: int|
        0 <= i < w.len() ==> {
            &&& !('A' <= #[trigger] w[i] <= 'Z')
            &&& w[i] != ':'
            &&& !crate::text::is_white(w[i])
        }
}

/// A path that must not be removed: the root, a directory right under it, the
/// home directory or what lies in it, or the home directory of a user.
pub open spec fn is_top_level(t: Seq<char>, name: Seq<char>) -> bool {
    ||| seq!["/"@, "/*"@, "~"@, "$home"@].contains(t)
    ||| seq![
        "/bin"@,
        "/boot"@,
        "/etc"@,
        "/home"@,
        "/lib"@,
        "/lib64"@,
        "/opt"@,
        "/root"@,
        "/sbin"@,
        "/srv"@,
        "/sys"@,
        "/usr"@,
        "/var"@,
        "/proc"@,
        "/dev"@,
    ].contains(t)
    ||| t == "~/"@ + name
    ||| (t == "/home/"@ + name && !name.contains('/'))
}

proof fn lemma_lowered(s: Seq<char>)
    requires
        forall|i: int| 0 <= i < s.len() ==> !('A' <= #[trigger] s[i] <= 'Z'),
    ensures
        crate::text::ascii_lowered(s) == s,
{
    assert(crate::text::ascii_lowered(s) =~= s);
}

proof fn lemma_replaced_from(s: Seq<char>, x: char)
    requires
        x != ' ',
    ensures
        crate::text::replaced(s, ' ', ""@).contains(x) ==> s.contains(x),
    decreases s.len(),
{
    reveal_strlit("");
    if s.len() > 0 {
        let r = crate::text::replaced(s, ' ', ""@);
        let f = crate::text::replaced(s.drop_last(), ' ', ""@);
        lemma_replaced_from(s.drop_last(), x);
        if r.contains(x) {
            let i = choose|i: int| 0 <= i < r.len() && r[i] == x;
            if i < f.len() {
                assert(f.contains(f[i]));
                let j = choose|j: int| 0 <= j < s.drop_last().len() && s.drop_last()[j] == x;
                assert(s[j] == x);
            } else {
                assert(s[s.len() - 1] == x);
            }
        }
    }
}

proof fn lemma_no_bomb(c: Seq<char>)
    requires
        !c.contains(':'),
    ensures
        !crate::text::contains(crate::text::replaced(c, ' ', ""@), ":(){:|:&};:"@),
{
    reveal_strlit(":(){:|:&};:");
    let r = crate::text::replaced(c, ' ', ""@);
    lemma_replaced_from(c, ':');
    assert forall|i: int| !crate::text::stands_at(r, ":(){:|:&};:"@, i) by {
        if crate::text::stands_at(r, ":(){:|:&};:"@, i) {
            assert(r.subrange(i, i + 11)[0] == ':');
            assert(r[i] == ':');
        }
    }
}

proof fn lemma_slashes(s: Seq<char>, name: Seq<char>)
    requires
        !name.contains('/'),
    ensures
        crate::agent::occurrences(s + name, '/') == crate::agent::occurrences(s, '/'),
    decreases name.len(),
{
    if name.len() == 0 {
        assert(s + name =~= s);
    } else {
        let front = name.drop_last();
        assert((s + name).drop_last() =~= s + front);
        assert(name.contains(name[name.len() - 1]));
        assert(!front.contains('/')) by {
            assert forall|i: int| 0 <= i < front.len() implies front[i] != '/' by {
                assert(name.contains(name[i]));
            }
        }
        lemma_slashes(s, front);
    }
}

proof fn lemma_home_slashes()
    ensures
        crate::agent::occurrences("/home/"@, '/') == 2,
{
    reveal_strlit("/home/");
    reveal_with_fuel(crate::agent::occurrences, 8);
    let s = "/home/"@;
    assert(s.drop_last() =~= seq!['/', 'h', 'o', 'm', 'e']);
    assert(s.drop_last().drop_last() =~= seq!['/', 'h', 'o', 'm']);
    assert(s.drop_last().drop_last().drop_last() =~= seq!['/', 'h', 'o']);
    assert(s.drop_last().drop_last().drop_last().drop_last() =~= seq!['/', 'h']);
    assert(s.drop_last().drop_last().drop_last().drop_last().drop_last() =~= seq!['/']);
}

proof fn lemma_top_level(t: Seq<char>, name: Seq<char>)
    requires
        is_top_level(t, name),
    ensures
        crate::agent::is_precious(t),
{
    if t == "~/"@ + name {
        assert(t.subrange(0, "~/"@.len() as int) =~= "~/"@);
    } else if t == "/home/"@ + name && !name.contains('/') {
        assert(t.subrange(0, "/home/"@.len() as int) =~= "/home/"@);
        lemma_slashes("/home/"@, name);
        lemma_home_slashes();
    }
}

proof fn lemma_three_words(a: Seq<char>, b: Seq<char>, c: Seq<char>)
    requires
        is_plain_word(a),
        is_plain_word(b),
        is_plain_word(c),
    ensures
        ({
            let cmd = a + seq![' '] + (b + seq![' '] + c);
            &&& crate::text::words(cmd) == seq![a, b, c]
            &&& crate::text::trimmed(cmd) == cmd
            &&& crate::text::ascii_lowered(cmd) == cmd
            &&& !cmd.contains(':')
        }),
{
    let cmd = a + seq![' '] + (b + seq![' '] + c);
    let none: Seq<char> = seq![];
    crate::wording::words_are_parted(a, ' ', b + seq![' '] + c);
    crate::wording::words_are_parted(b, ' ', c);
    crate::wording::words_are_parted(c, ' ', none);
    assert(seq![a] + (seq![b] + seq![c]) =~= seq![a, b, c]);
    assert forall|i: int| 0 <= i < cmd.len() implies !('A' <= #[trigger] cmd[i] <= 'Z') && cmd[i]
        != ':' by {
        if i < a.len() {
            assert(cmd[i] == a[i]);
        } else if a.len() < i < a.len() + 1 + b.len() {
            assert(cmd[i] == b[i - a.len() - 1]);
        } else if i > a.len() + 1 + b.len() {
            assert(cmd[i] == c[i - a.len() - b.len() - 2]);
        }
    }
    lemma_lowered(cmd);
    assert(cmd[0] == a[0]);
    assert(cmd.last() == c[c.len() - 1]);
    assert(none + cmd + none =~= cmd);
    crate::wording::white_space_is_trimmed(none, cmd, none);
}

/// Removing a top-level path with everything in it, unasked, is held up,
/// however the two options are written together.
#[verifier::spinoff_prover]
pub proof fn removing_the_top_level_is_held_up(t: Seq<char>, name: Seq<char>)
    requires
        is_top_level(t, name),
        is_plain_word(t),
    ensures
        crate::agent::danger("rm -rf "@ + t) == Some("rm -rf against a top-level path"@),
        crate::agent::danger("rm -fr "@ + t) == Some("rm -rf against a top-level path"@),
{
    reveal_strlit("rm");
    reveal_strlit("rm -rf ");
    reveal_strlit("rm -fr ");
    let rf = seq!['-', 'r', 'f'];
    let fr = seq!['-', 'f', 'r'];
    assert("rm -rf "@ + t =~= "rm"@ + seq![' '] + (rf + seq![' '] + t));
    assert("rm -fr "@ + t =~= "rm"@ + seq![' '] + (fr + seq![' '] + t));
    lemma_top_level(t, name);
    lemma_removal(rf, t);
    lemma_removal(fr, t);
}

proof fn lemma_removal(option: Seq<char>, t: Seq<char>)
    requires
        option == seq!['-', 'r', 'f'] || option == seq!['-', 'f', 'r'],
        is_plain_word(t),
        crate::agent::is_precious(t),
    ensures
        crate::agent::danger("rm"@ + seq![' '] + (option + seq![' '] + t)) == Some(
            "rm -rf against a top-level path"@,
        ),
{
    reveal_strlit("rm");
    reveal_strlit("-");
    reveal_strlit("--");
    let cmd = "rm"@ + seq![' '] + (option + seq![' '] + t);
    lemma_three_words("rm"@, option, t);
    lemma_no_bomb(cmd);
    let words = seq!["rm"@, option, t];
    crate::text::lemma_until_at(words, "rm"@, 0);
    let rest = words.skip(1);
    assert(rest =~= seq![option, t]);
    assert(option.subrange(0, 1) =~= "-"@);
    assert(option.subrange(0, 2)[1] != '-');
    assert("--"@[1] == '-');
    if option == seq!['-', 'r', 'f'] {
        assert(option[1] == 'r' && option[2] == 'f');
    } else {
        assert(option[2] == 'r' && option[1] == 'f');
    }
    assert(option.contains('r') && option.contains('f'));
    assert(crate::agent::asks_recursive(rest[0]));
    assert(crate::agent::asks_force(rest[0]));
    lemma_precious_head(t);
    assert(!crate::text::begins(rest[1], "-"@)) by {
        if crate::text::begins(t, "-"@) {
            assert(t.subrange(0, 1)[0] == '-');
        }
    }
    assert(crate::agent::removes_precious(words));
}

proof fn lemma_precious_head(t: Seq<char>)
    requires
        crate::agent::is_precious(t),
    ensures
        t.len() > 0,
        t[0] == '/' || t[0] == '~' || t[0] == '$',
{
    reveal_strlit("/");
    reveal_strlit("/*");
    reveal_strlit("~");
    reveal_strlit("$home");
    reveal_strlit("~/");
    reveal_strlit("/home/");
    reveal_strlit("/bin");
    reveal_strlit("/boot");
    reveal_strlit("/etc");
    reveal_strlit("/home");
    reveal_strlit("/lib");
    reveal_strlit("/lib64");
    reveal_strlit("/opt");
    reveal_strlit("/root");
    reveal_strlit("/sbin");
    reveal_strlit("/srv");
    reveal_strlit("/sys");
    reveal_strlit("/usr");
    reveal_strlit("/var");
    reveal_strlit("/proc");
    reveal_strlit("/dev");
    if crate::text::begins(t, "~/"@) {
        assert(t.subrange(0, 2)[0] == '~');
    }
    if crate::text::begins(t, "/home/"@) {
        assert(t.subrange(0, 6)[0] == '/');
    }
}

/// What lies elsewhere may be removed, and so may anything where only one of
/// the two options is given.
pub proof fn removing_other_paths_is_let_through(t: Seq<char>)
    requires
        is_plain_word(t),
        t[0] != '-',
    ensures
        t[0] != '/' && t[0] != '~' && t[0] != '$' ==> !crate::agent::removes_precious(
            crate::text::words("rm -rf "@ + t),
        ),
        !crate::agent::removes_precious(crate::text::words("rm -r "@ + t)),
        !crate::agent::removes_precious(crate::text::words("rm -f "@ + t)),
{
    reveal_strlit("rm");
    reveal_strlit("rm -rf ");
    reveal_strlit("rm -r ");
    reveal_strlit("rm -f ");
    reveal_strlit("-");
    reveal_strlit("--");
    reveal_strlit("--recursive");
    reveal_strlit("--force");
    let rf = seq!['-', 'r', 'f'];
    let r = seq!['-', 'r'];
    let f = seq!['-', 'f'];
    assert("rm -rf "@ + t =~= "rm"@ + seq![' '] + (rf + seq![' '] + t));
    assert("rm -r "@ + t =~= "rm"@ + seq![' '] + (r + seq![' '] + t));
    assert("rm -f "@ + t =~= "rm"@ + seq![' '] + (f + seq![' '] + t));
    lemma_three_words("rm"@, rf, t);
    lemma_three_words("rm"@, r, t);
    lemma_three_words("rm"@, f, t);
    if crate::agent::is_precious(t) {
        lemma_precious_head(t);
    }
    assert(!crate::text::begins(t, "-"@)) by {
        if crate::text::begins(t, "-"@) {
            assert(t.subrange(0, 1)[0] == '-');
        }
    }
    let a = seq!["rm"@, rf, t];
    let b = seq!["rm"@, r, t];
    let c = seq!["rm"@, f, t];
    crate::text::lemma_until_at(a, "rm"@, 0);
    crate::text::lemma_until_at(b, "rm"@, 0);
    crate::text::lemma_until_at(c, "rm"@, 0);
    assert(a.skip(1) =~= seq![rf, t]);
    assert(b.skip(1) =~= seq![r, t]);
    assert(c.skip(1) =~= seq![f, t]);
    assert(rf.subrange(0, 1) =~= "-"@);
    assert(!r.contains('f'));
    assert(!f.contains('r') && !f.contains('R'));
}

/// The signs of each danger in a command, in small letters.
pub open spec fn network_to_shell(lower: Seq<char>) -> bool {
    (crate::text::contains(lower, "curl "@) || crate::text::contains(lower, "wget "@)) && (
    crate::text::contains(lower, "|sh"@) || crate::text::contains(lower, "| sh"@)
        || crate::text::contains(lower, "|bash"@) || crate::text::contains(lower, "| bash"@))
}

/// A command that shows a sign of danger is held up, and one that is held up
/// shows the sign that the reason names: a fork bomb, a new file system, raw
/// bytes written to a device, a script run off the network, a redirection to a
/// disk, or everyone let into a top-level path.
pub proof fn dangers_are_named(cmd: Seq<char>)
    ensures
        ({
            let c = crate::text::trimmed(cmd);
            let lower = crate::text::ascii_lowered(c);
            let words = crate::text::words(lower);
            let bomb = crate::text::contains(crate::text::replaced(c, ' ', seq![]), ":(){:|:&};:"@);
            let fs = exists|i: int|
                0 <= i < words.len() && (#[trigger] words[i] == "mkfs"@ || crate::text::begins(
                    words[i],
                    "mkfs."@,
                ));
            let raw = crate::text::contains(lower, "dd "@) && crate::text::contains(
                lower,
                "of=/dev/"@,
            );
            let disk = crate::text::contains(lower, "> /dev/sd"@);
            let open_to_all = crate::text::contains(lower, "chmod"@) && crate::text::contains(
                lower,
                "777"@,
            ) && (crate::text::contains(lower, " /"@) || crate::text::contains(lower, " ~"@));
            let why = crate::agent::danger(cmd);
            &&& bomb <==> why == Some("looks like a fork bomb"@)
            &&& fs ==> why is Some
            &&& why == Some("mkfs formats a filesystem"@) ==> fs
            &&& raw ==> why is Some
            &&& why == Some("dd writes raw bytes to a device"@) ==> raw
            &&& network_to_shell(lower) ==> why is Some
            &&& why == Some("piping network content directly to a shell"@) ==> network_to_shell(
                lower,
            )
            &&& disk ==> why is Some
            &&& why == Some("redirecting to a raw block device"@) ==> disk
            &&& open_to_all ==> why is Some
            &&& why == Some("recursive chmod 777 on a top-level path"@) ==> open_to_all
            &&& why is None || seq![
                "looks like a fork bomb"@,
                "rm -rf against a top-level path"@,
                "mkfs formats a filesystem"@,
                "dd writes raw bytes to a device"@,
                "piping network content directly to a shell"@,
                "redirecting to a raw block device"@,
                "recursive chmod 777 on a top-level path"@,
            ].contains(why->0)
        }),
{
    reveal_strlit("");
    assert(""@ =~= seq![]);
    lemma_reasons_differ();
    let reasons = seq![
        "looks like a fork bomb"@,
        "rm -rf against a top-level path"@,
        "mkfs formats a filesystem"@,
        "dd writes raw bytes to a device"@,
        "piping network content directly to a shell"@,
        "redirecting to a raw block device"@,
        "recursive chmod 777 on a top-level path"@,
    ];
    assert(reasons[0] == "looks like a fork bomb"@);
    assert(reasons[1] == "rm -rf against a top-level path"@);
    assert(reasons[2] == "mkfs formats a filesystem"@);
    assert(reasons[3] == "dd writes raw bytes to a device"@);
    assert(reasons[4] == "piping network content directly to a shell"@);
    assert(reasons[5] == "redirecting to a raw block device"@);
    assert(reasons[6] == "recursive chmod 777 on a top-level path"@);
}

proof fn lemma_reasons_differ()
    ensures
        "looks like a fork bomb"@[0] == 'l',
        "rm -rf against a top-level path"@[1] == 'm',
        "rm -rf against a top-level path"@[0] == 'r',
        "mkfs formats a filesystem"@[0] == 'm',
        "dd writes raw bytes to a device"@[0] == 'd',
        "piping network content directly to a shell"@[0] == 'p',
        "redirecting to a raw block device"@[0] == 'r',
        "redirecting to a raw block device"@[1] == 'e',
        "redirecting to a raw block device"@[2] == 'd',
        "recursive chmod 777 on a top-level path"@[0] == 'r',
        "recursive chmod 777 on a top-level path"@[1] == 'e',
        "recursive chmod 777 on a top-level path"@[2] == 'c',
{
    reveal_strlit("looks like a fork bomb");
    reveal_strlit("rm -rf against a top-level path");
    reveal_strlit("mkfs formats a filesystem");
    reveal_strlit("dd writes raw bytes to a device");
    reveal_strlit("piping network content directly to a shell");
    reveal_strlit("redirecting to a raw block device");
    reveal_strlit("recursive chmod 777 on a top-level path");
}

/// A command that is held up is shown with its reason.
pub proof fn warnings_give_the_reason(cmd: Seq<char>)
    ensures
        match crate::agent_panel::warning_of(cmd) {
            Some(w) => crate::agent::danger(cmd) is Some && w == "⚠ destructive — "@
                + crate::agent::danger(cmd)->0,
            None => crate::agent::danger(cmd) is None,
        },
{
}

// ---------------------------------------------------------------------------
// Replies
// ---------------------------------------------------------------------------

/// A reply does what its action says: it runs the command, trimmed; it ends
/// with the message; or it says the message. A thought that is not empty is
/// kept. A reply that cannot be read, or runs nothing, is said as it is.
pub proof fn replies_follow_their_action(
    raw: Seq<char>,
    f: FieldsView,
    cmd: Seq<char>,
    a: Seq<char>,
    b: Seq<char>,
    message: Seq<char>,
)
    requires
        crate::wording::is_blank(a),
        crate::wording::is_blank(b),
        cmd.len() > 0,
        !crate::text::is_white(cmd[0]),
        !crate::text::is_white(cmd.last()),
    ensures
        ({
            let thought = if f.thought == Some(Seq::<char>::empty()) {
                None
            } else {
                f.thought
            };
            let run = FieldsView { action: Some("run"@), command: Some(a + cmd + b), ..f };
            let idle = FieldsView { action: Some("run"@), command: Some(a), ..f };
            let mute = FieldsView { action: Some("run"@), command: None, ..f };
            let done = FieldsView { action: Some("done"@), message: Some(message), ..f };
            let over = FieldsView { action: Some("done"@), message: None, ..f };
            let say = FieldsView { action: Some("say"@), message: Some(message), ..f };
            let bare = FieldsView { action: None, message: Some(message), ..f };
            let empty = FieldsView { action: None, message: None, ..f };
            let plain = crate::text::trimmed(raw);
            &&& crate::agent::reply_of(raw, Some(run)) == Reply::Run(thought, cmd)
            &&& crate::agent::reply_of(raw, Some(idle)) == Reply::Say(thought, plain)
            &&& crate::agent::reply_of(raw, Some(mute)) == Reply::Say(thought, plain)
            &&& crate::agent::reply_of(raw, Some(done)) == Reply::Done(thought, message)
            &&& crate::agent::reply_of(raw, Some(over)) == Reply::Done(thought, seq![])
            &&& crate::agent::reply_of(raw, Some(say)) == Reply::Say(thought, message)
            &&& crate::agent::reply_of(raw, Some(bare)) == Reply::Say(thought, message)
            &&& crate::agent::reply_of(raw, Some(empty)) == Reply::Say(thought, plain)
            &&& crate::agent::reply_of(raw, None) == Reply::Say(None, plain)
        }),
{
    reveal_strlit("run");
    reveal_strlit("done");
    reveal_strlit("say");
    assert("run"@[0] == 'r' && "done"@[0] == 'd' && "say"@[0] == 's');
    crate::wording::white_space_is_trimmed(a, cmd, b);
    let none: Seq<char> = seq![];
    assert(crate::text::trimmed(none) =~= none);
    match f.thought {
        Some(t) => {
            if t.len() == 0 {
                assert(t =~= Seq::<char>::empty());
            }
        },
        None => {},
    }
}

/// A text without white space at its ends.
pub open spec fn is_trim(s: Seq<char>) -> bool {
    s.len() > 0 && !crate::text::is_white(s[0]) && !crate::text::is_white(s.last())
}

proof fn lemma_before_fence(body: Seq<char>)
    requires
        is_trim(body),
    ensures
        crate::agent::before_fence(body + "\n```"@) == Some(body),
{
    reveal_strlit("```");
    reveal_strlit("\n```");
    let s = body + "\n```"@;
    assert(s.last() == '`');
    assert(s.subrange(s.len() - 3, s.len() as int) =~= "```"@);
    let inner = s.take(s.len() - 3);
    let none: Seq<char> = seq![];
    assert(inner =~= none + body + seq!['\n']);
    crate::wording::white_space_is_trimmed(none, body, seq!['\n']);
}

/// A reply in a fence is what stands inside it, with or without the word for
/// its language; one without a fence is taken as it is, but for the white
/// space around it.
#[verifier::spinoff_prover]
pub proof fn fences_are_taken_off(
    a: Seq<char>,
    body: Seq<char>,
    b: Seq<char>,
    language: Seq<char>,
)
    requires
        crate::wording::is_blank(a),
        crate::wording::is_blank(b),
        is_trim(body),
        !language.contains('\n'),
    ensures
        crate::agent::reply_body(a + ("```json\n"@ + body + "\n```"@) + b) == body,
        language != "json"@ && !crate::text::begins(language, "json"@) ==> crate::agent::reply_body(
            a + ("```"@ + language + "\n"@ + body + "\n```"@) + b,
        ) == body,
        body[0] != '`' ==> crate::agent::reply_body(a + body + b) == body,
{
    reveal_strlit("```json");
    reveal_strlit("```json\n");
    reveal_strlit("```");
    reveal_strlit("\n");
    reveal_strlit("\n```");
    reveal_strlit("json");
    let none: Seq<char> = seq![];
    lemma_before_fence(body);
    assert(none + body + none =~= body);
    crate::wording::white_space_is_trimmed(none, body, none);
    let s = "```json\n"@ + body + "\n```"@;
    assert(s[0] == '`' && s.last() == '`');
    crate::wording::white_space_is_trimmed(a, s, b);
    assert(s.subrange(0, 7) =~= "```json"@);
    let rest = s.skip(7);
    assert(rest[0] == '\n');
    assert(rest.drop_first() =~= body + "\n```"@);
    assert(body[0] != '\n');
    assert(rest.drop_first()[0] == body[0]);
    assert(crate::agent::without_newlines(rest.drop_first()) == rest.drop_first());
    assert(crate::agent::without_newlines(rest) == body + "\n```"@);
    assert(crate::agent::unfenced(s) == body);
    if !crate::text::begins(language, "json"@) {
        lemma_fenced(language, body);
        let t = "```"@ + language + "\n"@ + body + "\n```"@;
        assert(t[0] == '`' && t.last() == '`');
        crate::wording::white_space_is_trimmed(a, t, b);
    }
    if body[0] != '`' {
        crate::wording::white_space_is_trimmed(a, body, b);
        assert(!crate::text::begins(body, "```"@)) by {
            if crate::text::begins(body, "```"@) {
                assert(body.subrange(0, 3)[0] == '`');
            }
        }
        assert(!crate::text::begins(body, "```json"@)) by {
            if crate::text::begins(body, "```json"@) {
                assert(body.subrange(0, 7)[0] == '`');
            }
        }
    }
}

#[verifier::spinoff_prover]
proof fn lemma_fenced(language: Seq<char>, body: Seq<char>)
    requires
        is_trim(body),
        !language.contains('\n'),
        !crate::text::begins(language, "json"@),
    ensures
        crate::agent::unfenced("```"@ + language + "\n"@ + body + "\n```"@) == body,
{
    reveal_strlit("```json");
    reveal_strlit("```");
    reveal_strlit("\n");
    reveal_strlit("\n```");
    reveal_strlit("json");
    lemma_before_fence(body);
    let t = "```"@ + language + "\n"@ + body + "\n```"@;
    assert(t.subrange(0, 3) =~= "```"@);
    let rest = t.skip(3);
    let n = language.len() as int;
    assert(rest =~= language + seq!['\n'] + (body + "\n```"@));
    assert forall|j: int| 0 <= j < n implies rest[j] != '\n' by {
        assert(language.contains(language[j]));
        assert(rest[j] == language[j]);
    }
    assert(rest[n] == '\n');
    crate::text::lemma_until_at(rest, '\n', n);
    assert(rest.skip(n + 1) =~= body + "\n```"@);
    assert(!crate::text::begins(t, "```json"@)) by {
        if crate::text::begins(t, "```json"@) {
            let p = t.subrange(0, 7);
            assert(p[3] == 'j' && p[4] == 's' && p[5] == 'o' && p[6] == 'n');
            assert(rest[0] == 'j' && rest[1] == 's' && rest[2] == 'o' && rest[3] == 'n');
            assert(n >= 4);
            assert(language.subrange(0, 4) =~= "json"@);
        }
    }
}

// ---------------------------------------------------------------------------
// The conversation
// ---------------------------------------------------------------------------

/// The model is told who said what, which commands it proposed and what became
/// of them, and how each ended.
pub proof fn turns_are_told_to_the_model(s: Seq<char>, exit: int)
    ensures
        crate::agent::prompt_line(TurnView::User(s)) == "User: "@ + s,
        crate::agent::prompt_line(TurnView::AssistantThought(s)) == "Assistant (thought): "@ + s,
        crate::agent::prompt_line(TurnView::AssistantSay(s))
            == "Assistant: {\"action\":"@ + crate::json::quoted("say"@) + ","@
            + crate::json::quoted("message"@) + ":"@ + crate::json::quoted(s) + "}"@,
        crate::agent::prompt_line(TurnView::AssistantProposed(s, None))
            == "Assistant: {\"action\":"@ + crate::json::quoted("run"@) + ","@
            + crate::json::quoted("command"@) + ":"@ + crate::json::quoted(s) + "}"@,
        crate::agent::prompt_line(TurnView::AssistantProposed(s, Some(true)))
            == crate::agent::prompt_line(TurnView::AssistantProposed(s, None))
            + "\n[user approved & ran]"@,
        crate::agent::prompt_line(TurnView::AssistantProposed(s, Some(false)))
            == crate::agent::prompt_line(TurnView::AssistantProposed(s, None))
            + "\n[user rejected]"@,
        crate::agent::prompt_line(TurnView::Observation(exit, s)) == "Output (exit="@
            + crate::text::signed_decimal(exit) + "):\n"@ + s,
{
    reveal_strlit("Assistant: ");
    reveal_strlit("{\"action\":");
    reveal_strlit("Assistant: {\"action\":");
    assert("Assistant: "@ + "{\"action\":"@ =~= "Assistant: {\"action\":"@);
    assert(crate::agent::prompt_line(TurnView::AssistantSay(s)) =~= "Assistant: {\"action\":"@
        + crate::json::quoted("say"@) + ","@ + crate::json::quoted("message"@) + ":"@
        + crate::json::quoted(s) + "}"@);
    assert(crate::agent::prompt_line(TurnView::AssistantProposed(s, None))
        =~= "Assistant: {\"action\":"@ + crate::json::quoted("run"@) + ","@
        + crate::json::quoted("command"@) + ":"@ + crate::json::quoted(s) + "}"@);
}

proof fn lemma_ascii_bytes(s: Seq<char>, n: int)
    requires
        0 <= n <= s.len(),
        forall|i: int| 0 <= i < s.len() ==> '\u{80}' > #[trigger] s[i],
    ensures
        crate::text::byte_at(s, n) == n,
    decreases n,
{
    if n > 0 {
        lemma_ascii_bytes(s, n - 1);
        assert('\u{80}' > s[n - 1]);
    }
}

proof fn lemma_ascii_before(s: Seq<char>, b: nat, n: int)
    requires
        0 <= n <= s.len(),
        forall|i: int| 0 <= i < s.len() ==> '\u{80}' > #[trigger] s[i],
    ensures
        crate::text::chars_before(s, b, n) == (if b < n {
            b as int
        } else {
            n
        }),
    decreases n,
{
    if n > 0 {
        lemma_ascii_before(s, b, n - 1);
        lemma_ascii_bytes(s, n - 1);
    }
}

/// A text of ASCII that is too long keeps its first half and its last half,
/// and says how many characters are gone between them; a short one is kept.
pub proof fn long_texts_keep_both_ends(s: Seq<char>, max: nat)
    requires
        forall|i: int| 0 <= i < s.len() ==> '\u{80}' > #[trigger] s[i],
    ensures
        s.len() <= max ==> crate::agent::elided(s, max) == s,
        s.len() > max ==> crate::agent::elided(s, max) == s.take(max as int / 2) + "\n\n… ["@
            + crate::text::decimal((s.len() - max / 2 - max / 2) as nat)
            + " bytes elided] …\n\n"@ + s.skip(s.len() - max as int / 2),
{
    lemma_ascii_bytes(s, s.len() as int);
    if s.len() > max {
        let half = max / 2;
        lemma_ascii_bytes(s, half as int);
        lemma_ascii_bytes(s, half as int + 1);
        crate::text::lemma_within(s, half, half as int, s.len() as int);
        let from = (s.len() - half) as nat;
        lemma_ascii_before(s, from, s.len() as int);
        let head = s.take(half as int);
        let tail = s.skip(from as int);
        assert forall|i: int| 0 <= i < head.len() implies '\u{80}' > #[trigger] head[i] by {
            assert(head[i] == s[i]);
        }
        assert forall|i: int| 0 <= i < tail.len() implies '\u{80}' > #[trigger] tail[i] by {
            assert(tail[i] == s[from + i]);
        }
        lemma_ascii_bytes(head, head.len() as int);
        lemma_ascii_bytes(tail, tail.len() as int);
        let gone = (s.len() - half - half) as nat;
        assert(crate::agent::elided(s, max) == head + crate::agent::elision_mark(gone) + tail);
        assert(head + crate::agent::elision_mark(gone) + tail =~= head + "\n\n… ["@
            + crate::text::decimal(gone) + " bytes elided] …\n\n"@ + tail);
    }
}

/// The panel says which turn it is, that it waits, or that no turn is left.
pub proof fn the_panel_tells_its_state(turns: nat, exit: int, output: Seq<char>, awaiting: bool)
    requires
        turns > 0,
    ensures
        crate::agent_panel::status_line(false, false, turns) == "turn "@ + crate::text::decimal(
            turns,
        ) + "/"@ + crate::text::decimal(turns),
        crate::agent_panel::status_line(false, false, 0) == "turn "@ + seq!['0', '/', '1'],
        crate::agent_panel::status_line(false, true, turns) == "Waiting for command output…"@,
        crate::agent_panel::status_line(true, awaiting, turns)
            == "Session sealed — open a new agent for more turns.  ("@ + crate::text::decimal(
            turns,
        ) + "/"@ + crate::text::decimal(turns) + ")"@,
        crate::agent_panel::output_title(exit, output) == "Output (exit "@
            + crate::text::signed_decimal(exit) + ", "@ + crate::text::decimal(
            crate::text::byte_len(output),
        ) + " bytes)"@,
{
    reveal_strlit("/");
    let count = crate::text::decimal(turns) + "/"@ + crate::text::decimal(turns);
    assert("turn "@ + count =~= "turn "@ + crate::text::decimal(turns) + "/"@
        + crate::text::decimal(turns));
    let sealed = "Session sealed — open a new agent for more turns.  ("@;
    assert(sealed + count + ")"@ =~= sealed + crate::text::decimal(turns) + "/"@
        + crate::text::decimal(turns) + ")"@);
    assert(crate::text::decimal(0) =~= seq!['0']);
    assert(crate::text::decimal(1) =~= seq!['1']);
    assert(crate::text::decimal(0) + "/"@ + crate::text::decimal(1) =~= seq!['0', '/', '1']);
}

/// What was typed is taken without the white space around it, and nothing is
/// taken of a blank.
pub proof fn entries_are_trimmed(a: Seq<char>, text: Seq<char>, b: Seq<char>)
    requires
        crate::wording::is_blank(a),
        crate::wording::is_blank(b),
        is_trim(text),
    ensures
        crate::agent_panel::entered(a + text + b) == Some(text),
        crate::agent_panel::entered(a) is None,
{
    crate::wording::white_space_is_trimmed(a, text, b);
}

} // verus!
