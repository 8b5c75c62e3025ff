//! What tabs are called and how their shells start, told of paths as they are
//! written; where links lie in a line; and which output counts as repainted.

use vstd::prelude::*;

verus! {

// ---------------------------------------------------------------------------
// Titles
// ---------------------------------------------------------------------------

/// A name without slashes, and not empty.
pub open spec fn is_name(s: Seq<char>) -> bool {
    s.len() > 0 && !s.contains('/')
}

/// Names with slashes between them.
pub open spec fn way(names: Seq<Seq<char>>) -> Seq<char> {
    crate::text::joined(names, seq!['/'])
}

/// A name on the way: its first character, with the dot that stands before it.
pub open spec fn shortened(name: Seq<char>) -> Seq<char> {
    if name.len() > 1 && name[0] == '.' {
        seq!['.', name[1]]
    } else {
        seq![name[0]]
    }
}

/// All names but the last shortened.
pub open spec fn shortened_way(names: Seq<Seq<char>>) -> Seq<Seq<char>> {
    Seq::new(
        names.len(),
        |i: int|
            if i == names.len() - 1 {
                names[i]
            } else {
                shortened(names[i])
            },
    )
}

spec fn are_names(names: Seq<Seq<char>>) -> bool {
    forall|i: int| 0 <= i < names.len() ==> is_name(#[trigger] names[i])
}

proof fn lemma_filled(names: Seq<Seq<char>>)
    requires
        are_names(names),
    ensures
        super::launch::filled(names) == names,
    decreases names.len(),
{
    if names.len() > 0 {
        let front = names.drop_last();
        assert(are_names(front)) by {
            assert forall|i: int| 0 <= i < front.len() implies is_name(#[trigger] front[i]) by {
                assert(front[i] == names[i]);
            }
        }
        lemma_filled(front);
        assert(is_name(names[names.len() - 1]));
        assert(front.push(names.last()) =~= names);
    } else {
        assert(super::launch::filled(names) =~= names);
    }
}

proof fn lemma_way(names: Seq<Seq<char>>)
    requires
        are_names(names),
        names.len() > 0,
    ensures
        crate::text::split_on(way(names), '/') == names,
        way(names).len() > 0,
        way(names).last() != '/',
        way(names)[0] != '/',
        names.len() > 1 ==> way(names).contains('/'),
{
    assert forall|i: int, j: int|
        0 <= i < names.len() && 0 <= j < names[i].len() implies #[trigger] names[i][j] != '/' by {
        assert(is_name(names[i]));
        assert(names[i].contains(names[i][j]));
    }
    crate::text::split_undoes_join(names, '/');
    crate::text::split_has_parts(way(names), '/');
    crate::text::lemma_joined_front(names, seq!['/']);
    assert(is_name(names[0]));
    assert(names[0].contains(names[0][0]));
    let last = names[names.len() - 1];
    assert(is_name(last));
    assert(last.contains(last[last.len() - 1]));
}

proof fn lemma_initials(names: Seq<Seq<char>>)
    requires
        are_names(names),
    ensures
        super::launch::initials(names) == shortened_way(names),
{
    reveal_strlit(".");
    reveal_strlit("..");
    assert forall|i: int| 0 <= i < names.len() implies #[trigger] super::launch::initials(names)[i]
        == shortened_way(names)[i] by {
        let n = names[i];
        assert(is_name(n));
        if n == "."@ {
            assert(n =~= shortened(n));
        } else if n == ".."@ {
            assert(n =~= shortened(n));
        } else if n.len() >= 2 && n[0] == '.' {
            assert(n.take(2) =~= shortened(n));
        } else {
            assert(n.take(1) =~= shortened(n));
        }
    }
    assert(super::launch::initials(names) =~= shortened_way(names));
}

proof fn lemma_titled(head: Seq<char>, names: Seq<Seq<char>>)
    requires
        head == "/"@ || head == "~/"@,
        are_names(names),
        names.len() > 0,
    ensures
        names.len() > 1 ==> super::launch::titled(head + way(names)) == head + way(
            shortened_way(names),
        ),
        names.len() == 1 ==> super::launch::titled(head + way(names)) == head + names[0],
{
    reveal_strlit("/");
    reveal_strlit("~/");
    reveal_strlit("~");
    let path = head + way(names);
    lemma_way(names);
    lemma_filled(names);
    lemma_initials(names);
    crate::text::lemma_joined_front(names, seq!['/']);
    assert("/"@ =~= seq!['/']);
    assert(path != "/"@ && path != "~"@) by {
        assert(path.len() > head.len());
        assert(path[0] == head[0]);
    }
    let rest = way(names);
    if head == "~/"@ {
        assert(path.subrange(0, 2) =~= "~/"@);
        assert(path.skip(2) =~= rest);
    } else {
        if path.len() >= 2 {
            assert(path.subrange(0, 2)[0] == '/');
            assert("~/"@[0] == '~');
        }
        assert(path.subrange(0, 1) =~= "/"@);
        assert(path.skip(1) =~= rest);
    }
    assert(super::launch::headed(path) == (head, rest));
}

proof fn lemma_not_white(s: Seq<char>)
    requires
        s.len() > 0,
        !crate::text::is_white(s[0]),
    ensures
        !crate::text::all_white(s),
    decreases s.len(),
{
    if s.len() > 1 && crate::text::is_white(s.last()) {
        lemma_not_white(s.drop_last());
        assert(s.drop_last()[0] == s[0]);
    }
}

/// A directory under the root is called by its name, and the names on the way
/// to it by their first characters; so is one under the home directory, which
/// itself is written `~`.
pub proof fn titles_show_the_way(number: nat, names: Seq<Seq<char>>, home: Seq<char>)
    requires
        names.len() > 0,
        forall|i: int| 0 <= i < names.len() ==> is_name(#[trigger] names[i]),
        home.len() > 1,
        home[0] == '/',
        home.last() != '/',
    ensures
        names.len() > 1 ==> super::launch::tab_title(number, Some(seq!['/'] + way(names)), None)
            == seq!['/'] + way(shortened_way(names)),
        names.len() == 1 ==> super::launch::tab_title(number, Some(seq!['/'] + names[0]), None)
            == seq!['/'] + names[0],
        names.len() > 1 ==> super::launch::tab_title(
            number,
            Some(home + seq!['/'] + way(names)),
            Some(home),
        ) == seq!['~', '/'] + way(shortened_way(names)),
        names.len() == 1 ==> super::launch::tab_title(
            number,
            Some(home + seq!['/'] + names[0]),
            Some(home),
        ) == seq!['~', '/'] + names[0],
        super::launch::tab_title(number, Some(seq!['/']), None) == seq!['/'],
{
    reveal_strlit("/");
    reveal_strlit("~/");
    reveal_strlit("~");
    assert("/"@ =~= seq!['/'] && "~/"@ =~= seq!['~', '/'] && "~"@ =~= seq!['~']);
    assert(are_names(names));
    lemma_way(names);
    crate::text::lemma_joined_front(names, seq!['/']);
    lemma_titled("/"@, names);
    lemma_titled("~/"@, names);
    let path = seq!['/'] + way(names);
    lemma_not_white(path);
    assert(path.last() == way(names).last());
    assert(super::launch::without_slashes(path) == path);
    let deep = home + seq!['/'] + way(names);
    assert(deep[0] == '/');
    lemma_not_white(deep);
    assert(deep.last() == way(names).last());
    assert(super::launch::without_slashes(deep) == deep);
    assert(deep.subrange(0, home.len() as int) =~= home);
    let tail = deep.skip(home.len() as int);
    assert(tail =~= seq!['/'] + way(names));
    assert(tail.subrange(0, 1) =~= "/"@);
    assert(deep != home) by {
        assert(deep.len() > home.len());
    }
    assert("~"@ + tail =~= "~/"@ + way(names));
    assert(super::launch::tilded(deep, Some(home)) == "~/"@ + way(names));
    let root = seq!['/'];
    lemma_not_white(root);
    assert(root.drop_last() =~= seq![]);
    assert(super::launch::without_slashes(root.drop_last()).len() == 0);
    assert(super::launch::without_slashes(root).len() == 0);
}

/// A tab without a known directory goes by its number, and one whose directory
/// is blank as if it had none.
pub proof fn tabs_go_by_their_number(number: nat, blank: Seq<char>, home: Option<Seq<char>>)
    requires
        crate::wording::is_blank(blank),
    ensures
        super::launch::tab_title(number, None, None) == "Terminal "@ + crate::text::decimal(number),
        super::launch::tab_title(number, Some(blank), home) == super::launch::tab_title(
            number,
            None,
            home,
        ),
{
    let s = seq!['x'];
    let none: Seq<char> = seq![];
    crate::wording::white_space_is_trimmed(blank, s, none);
}

// ---------------------------------------------------------------------------
// Shells
// ---------------------------------------------------------------------------

/// Only the shell `rsh` is told which session to resume, behind its other
/// arguments.
pub proof fn sessions_are_resumed(argv: Seq<Seq<char>>, id: Seq<char>)
    requires
        argv.len() > 0,
    ensures
        crate::paths::last_name(argv[0]) == Some("rsh"@) ==> super::launch::shell_arguments(
            argv,
            Some(id),
        ) == argv + seq!["--session"@, id],
        crate::paths::last_name(argv[0]) != Some("rsh"@) ==> super::launch::shell_arguments(
            argv,
            Some(id),
        ) == argv,
        super::launch::shell_arguments(argv, None) == argv,
{
    assert(argv.push("--session"@).push(id) =~= argv + seq!["--session"@, id]);
}

/// Commands between commas and blanks are typed one after another, each
/// trimmed and followed by a carriage return.
pub proof fn commands_are_typed_in_order(a: Seq<char>, b: Seq<char>)
    requires
        a.len() > 0,
        !crate::text::contains(a, seq![',', ' ']),
    ensures
        super::launch::typed_commands(Some(a)) == seq![crate::text::trimmed(a) + seq!['\r']],
        b.len() > 0 ==> super::launch::typed_commands(Some(a + seq![',', ' '] + b)) == seq![
            crate::text::trimmed(a) + seq!['\r'],
        ] + super::launch::typed_commands(Some(b)),
        super::launch::typed_commands(None).len() == 0,
{
    let sep = seq![',', ' '];
    assert(super::launch::listed(a) == seq![a]);
    assert(super::launch::typed(seq![a]) =~= seq![crate::text::trimmed(a) + seq!['\r']]);
    let s = a + sep + b;
    let n = a.len() as int;
    assert(s.subrange(n, n + 2) =~= sep);
    assert(crate::text::stands_at(s, sep, n));
    assert forall|j: int| 0 <= j < n implies !crate::text::stands_at(s, sep, j) by {
        if crate::text::stands_at(s, sep, j) {
            assert(s.subrange(j, j + 2)[0] == ',' && s.subrange(j, j + 2)[1] == ' ');
            if j + 1 < n {
                assert(a.subrange(j, j + 2) =~= s.subrange(j, j + 2));
                assert(crate::text::stands_at(a, sep, j));
            } else {
                assert(s[j + 1] == ',');
            }
        }
    }
    assert(crate::text::is_first_at(s, sep, n));
    let i = choose|i: int| crate::text::is_first_at(s, sep, i);
    assert(i == n) by {
        if i < n {
            assert(!crate::text::stands_at(s, sep, i));
        }
        if n < i {
            assert(!crate::text::stands_at(s, sep, n));
        }
    }
    assert(s.take(n) =~= a);
    assert(s.skip(n + 2) =~= b);
    assert(super::launch::listed(s) == seq![a] + super::launch::listed(b));
    assert(super::launch::typed(super::launch::listed(s)) =~= seq![
        crate::text::trimmed(a) + seq!['\r'],
    ] + super::launch::typed(super::launch::listed(b)));
}

// ---------------------------------------------------------------------------
// Links
// ---------------------------------------------------------------------------

/// Each of the known schemes begins a link.
pub proof fn schemes_begin_links(rest: Seq<char>)
    ensures
        super::url::has_scheme("http://"@ + rest),
        super::url::has_scheme("https://"@ + rest),
        super::url::has_scheme("file://"@ + rest),
        super::url::has_scheme("ftp://"@ + rest),
        super::url::has_scheme("git://"@ + rest),
        super::url::has_scheme("ssh://"@ + rest),
        super::url::has_scheme("mailto:"@ + rest),
{
    lemma_begins("http://"@, rest);
    lemma_begins("https://"@, rest);
    lemma_begins("file://"@, rest);
    lemma_begins("ftp://"@, rest);
    lemma_begins("git://"@, rest);
    lemma_begins("ssh://"@, rest);
    lemma_begins("mailto:"@, rest);
}

proof fn lemma_begins(p: Seq<char>, rest: Seq<char>)
    ensures
        crate::text::begins(p + rest, p),
{
    assert((p + rest).subrange(0, p.len() as int) =~= p);
}

/// What ends a word: a blank, a line feed, a tab or an angle bracket.
pub open spec fn ends_a_word(c: char) -> bool {
    c == ' ' || c == '\n' || c == '\t' || c == '<' || c == '>'
}

/// What may follow a link in a sentence.
pub open spec fn follows_a_link(c: char) -> bool {
    c == '.' || c == ',' || c == ';' || c == ':' || c == '!' || c == '?' || c == ')' || c == ']'
        || c == '}' || c == '\'' || c == '"'
}

proof fn lemma_word_start(line: Seq<char>, i: int, start: int)
    requires
        0 <= start <= i <= line.len(),
        forall|j: int| start <= j < i ==> !ends_a_word(#[trigger] line[j]),
        start > 0 ==> ends_a_word(line[start - 1]),
    ensures
        super::url::word_start(line, i) == start,
    decreases i,
{
    if i > start {
        assert(!ends_a_word(line[i - 1]));
        lemma_word_start(line, i - 1, start);
    }
}

proof fn lemma_word_end(line: Seq<char>, i: int, end: int)
    requires
        0 <= i <= end <= line.len(),
        forall|j: int| i <= j < end ==> !ends_a_word(#[trigger] line[j]),
        end < line.len() ==> ends_a_word(line[end]),
    ensures
        super::url::word_end(line, i) == end,
    decreases end - i,
{
    if i < end {
        assert(!ends_a_word(line[i]));
        lemma_word_end(line, i + 1, end);
    }
}

proof fn lemma_unmarked(url: Seq<char>, marks: Seq<char>)
    requires
        url.len() > 0,
        !super::url::is_sentence_mark(url.last()),
        forall|i: int| 0 <= i < marks.len() ==> follows_a_link(#[trigger] marks[i]),
    ensures
        super::url::unmarked(url + marks) == url,
    decreases marks.len(),
{
    let s = url + marks;
    if marks.len() == 0 {
        assert(s =~= url);
    } else {
        let front = marks.drop_last();
        assert forall|i: int| 0 <= i < front.len() implies follows_a_link(#[trigger] front[i]) by {
            assert(front[i] == marks[i]);
        }
        lemma_unmarked(url, front);
        assert(follows_a_link(marks[marks.len() - 1]));
        assert(s.last() == marks.last());
        assert(s.drop_last() =~= url + front);
    }
}

/// A link that stands as a word of a line is found whole from every position
/// on it, with the places where it begins and ends, and without the marks of
/// the sentence around it.
pub proof fn links_are_found_whole(
    before: Seq<char>,
    url: Seq<char>,
    marks: Seq<char>,
    after: Seq<char>,
    at: int,
    newline: bool,
)
    requires
        before.len() > 0 ==> ends_a_word(before.last()),
        after.len() > 0 ==> ends_a_word(after[0]),
        super::url::has_scheme(url),
        url.len() > 0,
        forall|i: int| 0 <= i < url.len() ==> !ends_a_word(#[trigger] url[i]),
        !follows_a_link(url.last()),
        forall|i: int| 0 <= i < marks.len() ==> follows_a_link(#[trigger] marks[i]),
        before.len() <= at < before.len() + url.len() + marks.len(),
    ensures
        super::url::url_around(before + url + marks + after, at, newline) == Some(
            (before.len() as int, (before.len() + url.len()) as int, url),
        ),
{
    let line = before + url + marks + after;
    let start = before.len() as int;
    let end = start + url.len() + marks.len();
    assert forall|j: int| start <= j < end implies !ends_a_word(#[trigger] line[j]) by {
        if j < start + url.len() {
            assert(line[j] == url[j - start]);
        } else {
            assert(line[j] == marks[j - start - url.len()]);
        }
    }
    if start > 0 {
        assert(line[start - 1] == before.last());
    }
    if end < line.len() {
        assert(line[end] == after[0]);
    }
    lemma_word_start(line, at, start);
    lemma_word_end(line, at, end);
    assert(line.subrange(start, end) =~= url + marks);
    assert(!ends_a_word(url[url.len() - 1]));
    lemma_unmarked(url, marks);
}

// ---------------------------------------------------------------------------
// Pagers
// ---------------------------------------------------------------------------

/// The prompts of a pager are no content, and other lines are, without the
/// white space at their end.
pub proof fn prompts_are_no_content(lines: Seq<Seq<char>>, line: Seq<char>)
    requires
        crate::text::trimmed(line) != ":"@,
        crate::text::trimmed(line) != "(END)"@,
        crate::text::trimmed(line) != "END"@,
        line.len() > 0 ==> !crate::text::is_white(line.last()),
    ensures
        super::alt::content_lines(lines.push(":"@)) == super::alt::content_lines(lines),
        super::alt::content_lines(lines.push("(END)"@)) == super::alt::content_lines(lines),
        super::alt::content_lines(lines.push("END"@)) == super::alt::content_lines(lines),
        super::alt::content_lines(lines.push(line)) == super::alt::content_lines(lines).push(line),
{
    reveal_strlit(":");
    reveal_strlit("(END)");
    reveal_strlit("END");
    let none: Seq<char> = seq![];
    crate::wording::white_space_is_trimmed(none, ":"@, none);
    crate::wording::white_space_is_trimmed(none, "(END)"@, none);
    crate::wording::white_space_is_trimmed(none, "END"@, none);
    assert(none + ":"@ + none =~= ":"@);
    assert(none + "(END)"@ + none =~= "(END)"@);
    assert(none + "END"@ + none =~= "END"@);
    assert(lines.push(":"@).drop_last() =~= lines);
    assert(lines.push("(END)"@).drop_last() =~= lines);
    assert(lines.push("END"@).drop_last() =~= lines);
    assert(lines.push(line).drop_last() =~= lines);
}

// ---------------------------------------------------------------------------
// Repaints
// ---------------------------------------------------------------------------

proof fn lemma_past_text(before: Seq<u8>, rest: Seq<u8>)
    requires
        !before.contains(0x1b),
    ensures
        super::grid::is_repainted(before + rest) == super::grid::is_repainted(rest),
    decreases before.len(),
{
    if before.len() == 0 {
        assert(before + rest =~= rest);
    } else {
        let all = before + rest;
        let tail = before.drop_first();
        assert(before.contains(before[0]));
        assert(all[0] == before[0]);
        assert(all.skip(1) =~= tail + rest);
        assert(!tail.contains(0x1b)) by {
            assert forall|i: int| 0 <= i < tail.len() implies tail[i] != 0x1b by {
                assert(before.contains(before[i + 1]));
            }
        }
        lemma_past_text(tail, rest);
        if all.len() < 2 {
            assert(rest.len() == 0);
        }
    }
}

/// The final bytes of the sequences that move the cursor, erase, or move lines
/// and characters.
pub open spec fn moving_finals() -> Seq<char> {
    "@ABCDEFGHJKLMPSTX`abdefrsu"@
}

/// Output repaints where it holds a sequence that moves, erases or shifts, a
/// reverse index, or a graphic; text and colours alone do not repaint.
pub proof fn repaints_are_told_apart(
    before: Seq<u8>,
    params: Seq<u8>,
    b: u8,
    kind: u8,
    rest: Seq<u8>,
)
    requires
        !before.contains(0x1b),
        forall|i: int| 0 <= i < params.len() ==> !(0x40 <= #[trigger] params[i] <= 0x7e),
        moving_finals().contains(b as char),
        kind == 0x4d || kind == 0x50 || kind == 0x5f,
    ensures
        !super::grid::is_repainted(before),
        super::grid::is_repainted(before + (super::sequences::csi_bytes(params, b) + rest)),
        super::grid::is_repainted(before + (super::sequences::csi_bytes(params, 0x6d) + rest))
            == super::grid::is_repainted(rest),
        super::grid::is_repainted(before + (seq![0x1bu8, kind] + rest)),
{
    reveal_strlit("@ABCDEFGHJKLMPSTX`abdefrsu");
    let k = choose|k: int| 0 <= k < moving_finals().len() && moving_finals()[k] == b as char;
    assert(super::grid::repositions(b) && 0x40 <= b <= 0x7e);
    let none: Seq<u8> = seq![];
    lemma_past_text(before, none);
    assert(before + none =~= before);
    lemma_past_text(before, super::sequences::csi_bytes(params, b) + rest);
    lemma_past_text(before, super::sequences::csi_bytes(params, 0x6d) + rest);
    lemma_past_text(before, seq![0x1bu8, kind] + rest);
    lemma_measure(params, b, rest);
    lemma_measure(params, 0x6d, rest);
    let all = seq![0x1bu8, kind] + rest;
    assert(all[0] == 0x1b && all[1] == kind);
}

proof fn lemma_measure(params: Seq<u8>, b: u8, rest: Seq<u8>)
    requires
        forall|i: int| 0 <= i < params.len() ==> !(0x40 <= #[trigger] params[i] <= 0x7e),
        0x40 <= b <= 0x7e,
    ensures
        super::grid::is_repainted(super::sequences::csi_bytes(params, b) + rest) == (
        super::grid::repositions(b) || super::grid::is_repainted(rest)),
{
    let all = super::sequences::csi_bytes(params, b) + rest;
    let tail = all.skip(2);
    let w = crate::text::widened(tail);
    let n = params.len() as int;
    assert forall|j: int| 0 <= j < n implies !('@' <= #[trigger] w[j] <= '~') by {
        assert(tail[j] == params[j]);
    }
    assert(tail[n] == b);
    assert(w[n] == b as char);
    super::ansi::lemma_csi_len(w, n);
    assert(all[0] == 0x1b && all[1] == 0x5b && all[2 + n] == b);
    assert(all.skip(n + 3) =~= rest);
}

} // verus!
