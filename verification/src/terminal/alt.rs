//! Final-frame capture for alt-screen commands.
//!
//! When a command enters the alt-screen (`less`, `man`, `git log`, `top`, …)
//! all of its output is painted onto the alternate buffer and torn down on
//! exit. To leave a readable block behind the alt grid is captured exactly
//! once, on alt-screen leave, and that single frame becomes the command's
//! output.

use vstd::prelude::*;
use vstd::slice::slice_subrange;

use crate::text::{
    chars_of, has_text, is_all_white, is_text, is_whitespace, join_slices, split_lines, text_of, trim,
    trim_end,
};

verus! {

/// Some character is not white space.
pub open spec fn has_ink(s: Seq<char>) -> bool {
    exists|i: int| 0 <= i < s.len() && !crate::text::is_white(#[trigger] s[i])
}

/// Of the text at the top of the scrollback and the text at the scroll
/// position, the first if it shows anything.
pub fn pick_frame(top: String, scrolled: String) -> (res: String)
    ensures
        res@ == (if has_ink(top@) {
            top@
        } else {
            scrolled@
        }),
{
    let chars: Vec<char> = chars_of(top.as_str());
    let mut i: usize = 0;
    while i < chars.len()
        invariant
            i <= chars.len(),
            chars@ == top@,
            forall|j: int| 0 <= j < i ==> crate::text::is_white(#[trigger] chars@[j]),
        decreases chars.len() - i,
    {
        if !is_whitespace(chars[i]) {
            assert(!crate::text::is_white(top@[i as int]));
            return top;
        }
        i += 1;
    }
    scrolled
}

/// Pager chrome that should never appear in the recorded block.
pub open spec fn is_chrome(line: Seq<char>) -> bool {
    let t = crate::text::trimmed(line);
    t == ":"@ || t == "(END)"@ || t == "END"@
}

fn is_chrome_chars(line: &[char]) -> (res: bool)
    ensures
        res == is_chrome(line@),
{
    let t = trim(line);
    is_text(t, ":") || is_text(t, "(END)") || is_text(t, "END")
}

/// Tells whether a line is pager chrome.
pub fn is_pager_chrome_line(line: &str) -> (res: bool)
    ensures
        res == is_chrome(line@),
{
    is_chrome_chars(chars_of(line).as_slice())
}

/// The lines without white space at their ends, and without pager chrome.
pub open spec fn content_lines(lines: Seq<Seq<char>>) -> Seq<Seq<char>>
    decreases lines.len(),
{
    if lines.len() == 0 {
        seq![]
    } else {
        let line = crate::text::trimmed_end(lines.last());
        if is_chrome(line) {
            content_lines(lines.drop_last())
        } else {
            content_lines(lines.drop_last()).push(line)
        }
    }
}

/// The pager was still painting.
pub open spec fn is_mid_render(lines: Seq<Seq<char>>) -> bool {
    exists|i: int|
        0 <= i < lines.len() && crate::text::contains(
            crate::text::trimmed(#[trigger] lines[i]),
            "...skipping..."@,
        )
}

/// The lines without the blank ones at the beginning.
pub open spec fn without_leading(lines: Seq<Seq<char>>) -> Seq<Seq<char>>
    decreases lines.len(),
{
    if lines.len() > 0 && crate::text::all_white(lines[0]) {
        without_leading(lines.drop_first())
    } else {
        lines
    }
}

/// The lines without the blank ones at the end.
pub open spec fn without_trailing(lines: Seq<Seq<char>>) -> Seq<Seq<char>>
    decreases lines.len(),
{
    if lines.len() > 0 && crate::text::all_white(lines.last()) {
        without_trailing(lines.drop_last())
    } else {
        lines
    }
}

/// The meaningful content of a frame.
pub open spec fn normalized(text: Seq<char>) -> Seq<char> {
    let lines = content_lines(crate::text::lines(text));
    if is_mid_render(lines) {
        seq![]
    } else {
        crate::text::joined(without_trailing(without_leading(lines)), "\n"@)
    }
}

fn read_content<'a>(text: &'a [char]) -> (res: Vec<&'a [char]>)
    ensures
        crate::text::views(res@) == content_lines(crate::text::lines(text@)),
{
    let lines: Vec<&'a [char]> = split_lines(text);
    let ghost all = crate::text::views(lines@);
    let mut out: Vec<&'a [char]> = Vec::new();
    let mut i: usize = 0;
    assert(all.take(0) =~= seq![]);
    assert(crate::text::views(out@) =~= seq![]);
    while i < lines.len()
        invariant
            i <= lines.len(),
            all == crate::text::views(lines@),
            crate::text::views(out@) == content_lines(all.take(i as int)),
        decreases lines.len() - i,
    {
        proof {
            assert(all.take(i + 1).drop_last() =~= all.take(i as int));
            assert(all.take(i + 1).last() == lines@[i as int]@);
        }
        let line: &'a [char] = trim_end(lines[i]);
        let ghost before = crate::text::views(out@);
        if !is_chrome_chars(line) {
            out.push(line);
            assert(crate::text::views(out@) =~= before.push(line@));
        }
        i += 1;
    }
    assert(all.take(i as int) =~= all);
    out
}

fn any_skipping(lines: &[&[char]]) -> (res: bool)
    ensures
        res == is_mid_render(crate::text::views(lines@)),
{
    let ghost all = crate::text::views(lines@);
    let mut i: usize = 0;
    while i < lines.len()
        invariant
            i <= lines.len(),
            all == crate::text::views(lines@),
            forall|j: int|
                0 <= j < i ==> !crate::text::contains(
                    crate::text::trimmed(#[trigger] all[j]),
                    "...skipping..."@,
                ),
        decreases lines.len() - i,
    {
        assert(all[i as int] == lines@[i as int]@);
        if has_text(trim(lines[i]), "...skipping...") {
            return true;
        }
        i += 1;
    }
    false
}

/// Trims a raw frame down to its meaningful content: drops trailing
/// whitespace, pager status lines, and leading and trailing blank rows.
/// Returns `""` for frames that are still mid-render (`...skipping...`).
pub fn normalize_pager_snapshot(text: &str) -> (res: String)
    ensures
        res@ == normalized(text@),
{
    let chars: Vec<char> = chars_of(text);
    let lines: Vec<&[char]> = read_content(chars.as_slice());
    let ghost all = crate::text::views(lines@);
    if any_skipping(lines.as_slice()) {
        let none: String = String::new();
        assert(none@ =~= seq![]);
        return none;
    }
    let mut from: usize = 0;
    assert(all.skip(0) =~= all);
    while from < lines.len() && is_all_white(lines[from])
        invariant
            from <= lines.len(),
            all == crate::text::views(lines@),
            without_leading(all.skip(from as int)) == without_leading(all),
        decreases lines.len() - from,
    {
        assert(all.skip(from as int)[0] == lines@[from as int]@);
        assert(all.skip(from as int).drop_first() =~= all.skip(from + 1));
        from += 1;
    }
    proof {
        if from < lines.len() {
            assert(all.skip(from as int)[0] == lines@[from as int]@);
        }
    }
    let ghost body = all.skip(from as int);
    let mut to: usize = lines.len();
    assert(body.take(to - from) =~= body);
    while to > from && is_all_white(lines[to - 1])
        invariant
            from <= to <= lines.len(),
            all == crate::text::views(lines@),
            body == all.skip(from as int),
            without_trailing(body.take(to - from)) == without_trailing(body),
        decreases to,
    {
        assert(body.take(to - from).last() == lines@[to - 1]@);
        assert(body.take(to - from).drop_last() =~= body.take(to - 1 - from));
        to -= 1;
    }
    proof {
        if to > from {
            assert(body.take(to - from).last() == lines@[to - 1]@);
        }
    }
    let part = slice_subrange(lines.as_slice(), from, to);
    assert(crate::text::views(part@) =~= body.take(to - from));
    text_of(join_slices(part, "\n").as_slice())
}

proof fn lemma_leading(lines: Seq<Seq<char>>)
    ensures
        without_leading(lines).len() > 0 ==> !crate::text::all_white(without_leading(lines)[0]),
    decreases lines.len(),
{
    if lines.len() > 0 && crate::text::all_white(lines[0]) {
        lemma_leading(lines.drop_first());
    }
}

proof fn lemma_trailing(lines: Seq<Seq<char>>)
    ensures
        without_trailing(lines).len() > 0 ==> !crate::text::all_white(
            without_trailing(lines).last(),
        ) && without_trailing(lines)[0] == lines[0],
    decreases lines.len(),
{
    if lines.len() > 0 && crate::text::all_white(lines.last()) {
        lemma_trailing(lines.drop_last());
    }
}

/// A frame begins and ends with lines that show something.
pub proof fn frames_have_no_blank_rim(lines: Seq<Seq<char>>)
    ensures
        without_trailing(without_leading(lines)).len() > 0 ==> !crate::text::all_white(
            without_trailing(without_leading(lines))[0],
        ) && !crate::text::all_white(without_trailing(without_leading(lines)).last()),
{
    lemma_leading(lines);
    lemma_trailing(without_leading(lines));
}

/// No pager chrome is left, and no line ends in white space.
pub proof fn content_has_no_chrome(lines: Seq<Seq<char>>, i: int)
    requires
        0 <= i < content_lines(lines).len(),
    ensures
        !is_chrome(content_lines(lines)[i]),
        content_lines(lines)[i].len() > 0 ==> !crate::text::is_white(content_lines(lines)[i].last()),
    decreases lines.len(),
{
    if lines.len() > 0 {
        let line = crate::text::trimmed_end(lines.last());
        crate::text::lemma_trimmed_end_last(lines.last());
        if i < content_lines(lines.drop_last()).len() {
            content_has_no_chrome(lines.drop_last(), i);
        }
    }
}

/// The items of `a` are among those of `b`, in the same order.
pub open spec fn is_subsequence<T>(a: Seq<T>, b: Seq<T>) -> bool {
    exists|at: Seq<int>| #[trigger] places(a, b, at)
}

/// The items of `a` stand in `b` at the places `at`.
pub open spec fn places<T>(a: Seq<T>, b: Seq<T>, at: Seq<int>) -> bool {
    &&& at.len() == a.len()
    &&& forall|i: int| 0 <= i < a.len() ==> 0 <= #[trigger] at[i] < b.len() && a[i] == b[at[i]]
    &&& forall|i: int, j: int| 0 <= i < j < at.len() ==> #[trigger] at[i] < #[trigger] at[j]
}

/// The lines without white space at their ends.
pub open spec fn trimmed_lines(lines: Seq<Seq<char>>) -> Seq<Seq<char>> {
    lines.map_values(|l: Seq<char>| crate::text::trimmed_end(l))
}

/// A line as frames hold them: it does not end in white space, is no pager
/// chrome, and does not tell that the pager was still painting.
pub open spec fn is_clean(line: Seq<char>) -> bool {
    &&& line.len() > 0 ==> !crate::text::is_white(line.last())
    &&& !is_chrome(line)
    &&& !crate::text::contains(line, "...skipping..."@)
}

proof fn lemma_content_places(lines: Seq<Seq<char>>) -> (at: Seq<int>)
    ensures
        places(content_lines(lines), trimmed_lines(lines), at),
    decreases lines.len(),
{
    let all = trimmed_lines(lines);
    if lines.len() == 0 {
        seq![]
    } else {
        let front = lines.drop_last();
        let before = lemma_content_places(front);
        assert(trimmed_lines(front) =~= all.drop_last());
        let line = crate::text::trimmed_end(lines.last());
        if is_chrome(line) {
            before
        } else {
            let at = before.push(lines.len() - 1);
            assert(places(content_lines(lines), all, at));
            at
        }
    }
}

proof fn lemma_rim(lines: Seq<Seq<char>>) -> (rim: (int, int))
    ensures
        0 <= rim.0 <= rim.1 <= lines.len(),
        without_trailing(without_leading(lines)) == lines.subrange(rim.0, rim.1),
    decreases lines.len(),
{
    if lines.len() > 0 && crate::text::all_white(lines[0]) {
        let r = lemma_rim(lines.drop_first());
        assert(lines.drop_first().subrange(r.0, r.1) =~= lines.subrange(r.0 + 1, r.1 + 1));
        (r.0 + 1, r.1 + 1)
    } else {
        let k = lemma_end(lines);
        assert(lines.take(k) =~= lines.subrange(0, k));
        (0, k)
    }
}

proof fn lemma_end(lines: Seq<Seq<char>>) -> (k: int)
    ensures
        0 <= k <= lines.len(),
        without_trailing(lines) == lines.take(k),
    decreases lines.len(),
{
    if lines.len() > 0 && crate::text::all_white(lines.last()) {
        let k = lemma_end(lines.drop_last());
        assert(lines.drop_last().take(k) =~= lines.take(k));
        k
    } else {
        assert(lines.take(lines.len() as int) =~= lines);
        lines.len() as int
    }
}

proof fn lemma_lines_have_no_newline(text: Seq<char>, i: int, j: int)
    requires
        0 <= i < crate::text::lines(text).len(),
        0 <= j < crate::text::lines(text)[i].len(),
    ensures
        crate::text::lines(text)[i][j] != '\n',
{
    crate::text::split_has_parts(text, '\n');
    let parts = crate::text::split_on(text, '\n');
    assert(crate::text::lines(text)[i][j] == parts[i][j]);
    crate::text::lemma_split_parts(text, '\n', i, j);
}

proof fn lemma_trimmed_end_part(s: Seq<char>)
    ensures
        crate::text::trimmed_end(s).len() <= s.len(),
        crate::text::trimmed_end(s) == s.take(crate::text::trimmed_end(s).len() as int),
    decreases s.len(),
{
    if s.len() > 0 && crate::text::is_white(s.last()) {
        lemma_trimmed_end_part(s.drop_last());
        let n = crate::text::trimmed_end(s).len() as int;
        assert(s.drop_last().take(n) =~= s.take(n));
    } else {
        assert(s.take(s.len() as int) =~= s);
    }
}

proof fn lemma_content_no_newline(lines: Seq<Seq<char>>, i: int, j: int)
    requires
        forall|a: int, b: int|
            0 <= a < lines.len() && 0 <= b < lines[a].len() ==> #[trigger] lines[a][b] != '\n',
        0 <= i < content_lines(lines).len(),
        0 <= j < content_lines(lines)[i].len(),
    ensures
        content_lines(lines)[i][j] != '\n',
    decreases lines.len(),
{
    let at = lemma_content_places(lines);
    let k = at[i];
    assert(content_lines(lines)[i] == trimmed_lines(lines)[k]);
    lemma_trimmed_end_part(lines[k]);
    assert(crate::text::trimmed_end(lines[k])[j] == lines[k][j]);
}

/// What stands in a line that does not end in white space stands in the line
/// without white space at its beginning too.
proof fn lemma_stands_in_trimmed(line: Seq<char>, p: Seq<char>)
    requires
        line.len() > 0 ==> !crate::text::is_white(line.last()),
        p.len() > 0,
        !crate::text::is_white(p[0]),
        crate::text::contains(line, p),
    ensures
        crate::text::contains(crate::text::trimmed(line), p),
    decreases line.len(),
{
    let i = choose|i: int| crate::text::stands_at(line, p, i);
    if line.len() > 0 && crate::text::is_white(line[0]) {
        if i == 0 {
            assert(line.subrange(0, p.len() as int)[0] == line[0]);
        }
        let rest = line.drop_first();
        assert(rest.subrange(i - 1, i - 1 + p.len()) =~= line.subrange(i, i + p.len()));
        assert(crate::text::stands_at(rest, p, i - 1));
        if rest.len() > 0 {
            assert(rest.last() == line.last());
        }
        lemma_stands_in_trimmed(rest, p);
    }
}

pub(super) proof fn lemma_clean_content(lines: Seq<Seq<char>>)
    requires
        forall|i: int| 0 <= i < lines.len() ==> is_clean(#[trigger] lines[i]),
    ensures
        content_lines(lines) == lines,
    decreases lines.len(),
{
    if lines.len() > 0 {
        assert(is_clean(lines[lines.len() - 1]));
        let front = lines.drop_last();
        assert forall|i: int| 0 <= i < front.len() implies is_clean(#[trigger] front[i]) by {
            assert(front[i] == lines[i]);
        }
        lemma_clean_content(front);
        assert(front.push(lines.last()) =~= lines);
    } else {
        assert(lines =~= seq![]);
    }
}

/// The lines of a joined frame are the lines that were joined.
pub(super) proof fn lemma_frame_lines(body: Seq<Seq<char>>)
    requires
        body.len() > 0,
        !crate::text::all_white(body.last()),
        forall|i: int| 0 <= i < body.len() ==> is_clean(#[trigger] body[i]),
        forall|i: int, j: int|
            0 <= i < body.len() && 0 <= j < body[i].len() ==> #[trigger] body[i][j] != '\n',
    ensures
        crate::text::lines(crate::text::joined(body, "\n"@)) == body,
{
    reveal_strlit("\n");
    assert("\n"@ =~= seq!['\n']);
    crate::text::split_undoes_join(body, '\n');
    let r = crate::text::joined(body, "\n"@);
    assert forall|i: int| 0 <= i < body.len() implies #[trigger] crate::text::chomped(body[i])
        == body[i] by {
        assert(is_clean(body[i]));
    }
    assert(crate::text::lines(r) =~= body);
}

proof fn lemma_body(text: Seq<char>, i: int)
    requires
        ({
            let lines = content_lines(crate::text::lines(text));
            !is_mid_render(lines) && 0 <= i < lines.len()
        }),
    ensures
        is_clean(content_lines(crate::text::lines(text))[i]),
        forall|j: int|
            0 <= j < content_lines(crate::text::lines(text))[i].len()
                ==> #[trigger] content_lines(crate::text::lines(text))[i][j] != '\n',
{
    let all = crate::text::lines(text);
    let lines = content_lines(all);
    let line = lines[i];
    content_has_no_chrome(all, i);
    reveal_strlit("...skipping...");
    if crate::text::contains(line, "...skipping..."@) {
        lemma_stands_in_trimmed(line, "...skipping..."@);
        assert(is_mid_render(lines));
    }
    assert forall|a: int, b: int|
        0 <= a < all.len() && 0 <= b < all[a].len() implies #[trigger] all[a][b] != '\n' by {
        lemma_lines_have_no_newline(text, a, b);
    }
    assert forall|j: int| 0 <= j < line.len() implies #[trigger] content_lines(
        crate::text::lines(text),
    )[i][j] != '\n' by {
        lemma_content_no_newline(all, i, j);
    }
}

/// A normalized frame normalizes to itself. No line of it ends in white space,
/// is pager chrome or tells of a pager that was still painting; unless it is
/// empty, its first and its last line show something; and its lines are lines
/// of the frame, in their order, with white space at their ends taken away.
pub proof fn normalizing_is_idempotent(text: Seq<char>)
    ensures
        ({
            let r = normalized(text);
            let ls = crate::text::lines(r);
            &&& normalized(r) == r
            &&& forall|i: int| 0 <= i < ls.len() ==> is_clean(#[trigger] ls[i])
            &&& r.len() > 0 ==> ls.len() > 0 && !crate::text::all_white(ls[0])
                && !crate::text::all_white(ls.last())
            &&& is_subsequence(ls, trimmed_lines(crate::text::lines(text)))
        }),
{
    let all = crate::text::lines(text);
    let lines = content_lines(all);
    let body = without_trailing(without_leading(lines));
    let r = normalized(text);
    let ls = crate::text::lines(r);
    let none: Seq<char> = seq![];
    let empty: Seq<Seq<char>> = seq![];
    crate::text::lemma_until_at(none, '\n', 0);
    assert(crate::text::split_on(none, '\n') =~= seq![none]);
    assert(crate::text::lines(none) =~= empty);
    if is_mid_render(lines) || body.len() == 0 {
        assert(r =~= none);
        assert(content_lines(empty) =~= empty);
        assert(without_trailing(without_leading(empty)) =~= empty);
        assert(normalized(none) =~= none);
        let at: Seq<int> = seq![];
        assert(places(ls, trimmed_lines(all), at));
    } else {
        let rim = lemma_rim(lines);
        frames_have_no_blank_rim(lines);
        assert forall|i: int| 0 <= i < body.len() implies is_clean(#[trigger] body[i]) by {
            assert(body[i] == lines[rim.0 + i]);
            lemma_body(text, rim.0 + i);
        }
        assert forall|i: int, j: int|
            0 <= i < body.len() && 0 <= j < body[i].len() implies #[trigger] body[i][j]
            != '\n' by {
            assert(body[i] == lines[rim.0 + i]);
            lemma_body(text, rim.0 + i);
            assert(content_lines(crate::text::lines(text))[rim.0 + i][j] != '\n');
        }
        lemma_frame_lines(body);
        assert(ls == body);
        lemma_clean_content(body);
        assert(!is_mid_render(body)) by {
            if is_mid_render(body) {
                let i = choose|i: int|
                    0 <= i < body.len() && crate::text::contains(
                        crate::text::trimmed(#[trigger] body[i]),
                        "...skipping..."@,
                    );
                assert(body[i] == lines[rim.0 + i]);
                assert(is_mid_render(lines));
            }
        }
        assert(without_leading(body) == body);
        assert(without_trailing(body) == body);
        let at = lemma_content_places(all);
        let part = at.subrange(rim.0, rim.1);
        assert(places(ls, trimmed_lines(all), part)) by {
            assert forall|i: int| 0 <= i < ls.len() implies 0 <= #[trigger] part[i]
                < trimmed_lines(all).len() && ls[i] == trimmed_lines(all)[part[i]] by {
                assert(part[i] == at[rim.0 + i]);
            }
        }
    }
}

} // verus!
