//! What is kept of a pager's screen, which token a click takes, and which link
//! a place carries, told of the lines, spans and tags themselves.

use vstd::prelude::*;

use super::url::{ClickAction, TagSpan};

verus! {

// ---------------------------------------------------------------------------
// Pager screens
// ---------------------------------------------------------------------------

/// A line of text as a pager shows it: no line feed in it, no white space at
/// its end, no prompt, and not the mark of a screen in the making.
pub open spec fn is_text_line(line: Seq<char>) -> bool {
    &&& line.len() > 0 ==> !crate::text::is_white(line.last())
    &&& !line.contains('\n')
    &&& !seq![":"@, "(END)"@, "END"@].contains(crate::text::trimmed(line))
    &&& !crate::text::contains(line, "...skipping..."@)
}

proof fn lemma_text_line(line: Seq<char>)
    requires
        is_text_line(line),
    ensures
        super::alt::is_clean(line),
        forall|j: int| 0 <= j < line.len() ==> #[trigger] line[j] != '\n',
{
    let prompts = seq![":"@, "(END)"@, "END"@];
    assert(prompts[0] == ":"@ && prompts[1] == "(END)"@ && prompts[2] == "END"@);
    assert forall|j: int| 0 <= j < line.len() implies #[trigger] line[j] != '\n' by {
        assert(line.contains(line[j]));
    }
}

/// Lines of text come through whole, whatever they hold, where the first and
/// the last one are not blank.
pub proof fn text_lines_are_kept(body: Seq<Seq<char>>)
    requires
        body.len() > 0,
        forall|i: int| 0 <= i < body.len() ==> is_text_line(#[trigger] body[i]),
        !crate::text::all_white(body[0]),
        !crate::text::all_white(body.last()),
    ensures
        super::alt::normalized(crate::text::joined(body, "\n"@)) == crate::text::joined(
            body,
            "\n"@,
        ),
{
    assert forall|i: int| 0 <= i < body.len() implies super::alt::is_clean(#[trigger] body[i]) by {
        lemma_text_line(body[i]);
    }
    assert forall|i: int, j: int|
        0 <= i < body.len() && 0 <= j < body[i].len() implies #[trigger] body[i][j] != '\n' by {
        lemma_text_line(body[i]);
    }
    super::alt::lemma_frame_lines(body);
    super::alt::lemma_clean_content(body);
    assert(!super::alt::is_mid_render(body)) by {
        if super::alt::is_mid_render(body) {
            let i = choose|i: int|
                0 <= i < body.len() && crate::text::contains(
                    crate::text::trimmed(#[trigger] body[i]),
                    "...skipping..."@,
                );
            assert(super::alt::is_clean(body[i]));
            lemma_trimmed_part(body[i], "...skipping..."@);
        }
    }
}

proof fn lemma_trimmed_part(s: Seq<char>, p: Seq<char>)
    requires
        crate::text::contains(crate::text::trimmed(s), p),
    ensures
        crate::text::contains(s, p),
{
    let t = crate::text::trimmed_start(s);
    let u = crate::text::trimmed_end(t);
    let i = choose|i: int| crate::text::stands_at(u, p, i);
    lemma_start_part(s);
    lemma_end_part(t);
    let k = s.len() - t.len();
    assert(s.subrange(k + i, k + i + p.len()) =~= u.subrange(i, i + p.len()));
    assert(crate::text::stands_at(s, p, k + i));
}

proof fn lemma_start_part(s: Seq<char>)
    ensures
        crate::text::trimmed_start(s).len() <= s.len(),
        crate::text::trimmed_start(s) == s.skip(s.len() - crate::text::trimmed_start(s).len()),
    decreases s.len(),
{
    if s.len() > 0 && crate::text::is_white(s[0]) {
        let r = s.drop_first();
        lemma_start_part(r);
        let t = crate::text::trimmed_start(s);
        assert(r.skip(r.len() - t.len()) =~= s.skip(s.len() - t.len()));
    } else {
        assert(s.skip(0) =~= s);
    }
}

proof fn lemma_end_part(s: Seq<char>)
    ensures
        crate::text::trimmed_end(s).len() <= s.len(),
        crate::text::trimmed_end(s) == s.take(crate::text::trimmed_end(s).len() as int),
    decreases s.len(),
{
    if s.len() > 0 && crate::text::is_white(s.last()) {
        let r = s.drop_last();
        lemma_end_part(r);
        let t = crate::text::trimmed_end(s);
        assert(r.take(t.len() as int) =~= s.take(t.len() as int));
    } else {
        assert(s.take(s.len() as int) =~= s);
    }
}

/// Blank lines around the text of a screen are left out, and none within it.
pub proof fn blank_rims_are_left_out(blank: Seq<char>, body: Seq<Seq<char>>)
    requires
        crate::text::all_white(blank),
        body.len() > 0,
        !crate::text::all_white(body[0]),
        !crate::text::all_white(body.last()),
    ensures
        super::alt::without_trailing(super::alt::without_leading(body)) == body,
        super::alt::without_leading(seq![blank] + body) == super::alt::without_leading(body),
        super::alt::without_trailing(body.push(blank)) == super::alt::without_trailing(body),
{
    let a = seq![blank] + body;
    assert(a[0] == blank);
    assert(a.drop_first() =~= body);
    assert(body.push(blank).drop_last() =~= body);
}

/// A screen that is still being made is not kept.
pub proof fn unfinished_screens_are_dropped(text: Seq<char>, i: int)
    requires
        ({
            let lines = super::alt::content_lines(crate::text::lines(text));
            0 <= i < lines.len() && crate::text::contains(
                crate::text::trimmed(lines[i]),
                "...skipping..."@,
            )
        }),
    ensures
        super::alt::normalized(text).len() == 0,
{
    let lines = super::alt::content_lines(crate::text::lines(text));
    assert(super::alt::is_mid_render(lines));
}

/// The screen at the top is taken where anything is on it, and else the one
/// that was scrolled to.
pub proof fn the_screen_with_text_is_taken(top: String, scrolled: String, res: String, i: int)
    requires
        call_ensures(super::alt::pick_frame, (top, scrolled), res),
    ensures
        0 <= i < top@.len() && !crate::text::is_white(top@[i]) ==> res@ == top@,
        crate::wording::is_blank(top@) ==> res@ == scrolled@,
{
}

// ---------------------------------------------------------------------------
// Clicks
// ---------------------------------------------------------------------------

/// Of the stretches of a line the first one that holds the place is taken.
pub proof fn the_first_stretch_is_taken(
    before: Seq<Option<(nat, nat)>>,
    s: nat,
    e: nat,
    behind: Seq<Option<(nat, nat)>>,
    at: nat,
)
    requires
        s <= at < e,
        forall|i: int|
            0 <= i < before.len() ==> ((#[trigger] before[i]) matches Some((a, b)) ==> !(a <= at
                < b)),
    ensures
        super::select::stretch_at(before + seq![Some((s, e))] + behind, at) == Some((s, e)),
        super::select::stretch_at(before, at) is None,
    decreases before.len(),
{
    let all = before + seq![Some((s, e))] + behind;
    if before.len() == 0 {
        assert(all[0] == Some((s, e)));
    } else {
        let rest = before.drop_first();
        assert(all[0] == before[0]);
        assert(all.drop_first() =~= rest + seq![Some((s, e))] + behind);
        assert forall|i: int| 0 <= i < rest.len() implies ((#[trigger] rest[i]) matches Some((a, b))
            ==> !(a <= at < b)) by {
            assert(rest[i] == before[i + 1]);
        }
        the_first_stretch_is_taken(rest, s, e, behind, at);
    }
}

/// Tokens are looked for from the most specific to the least: what stands in
/// quotes, addresses, places in files, paths, numbers, and words.
pub proof fn tokens_are_looked_for_in_order()
    ensures
        ({
            let p = super::select::patterns();
            &&& p.len() == 13
            &&& p[0] == r#""([^"\n]*)""#@
            &&& p[1] == r#"'([^'\n]*)'"#@
            &&& p[2] == r#"`([^`\n]*)`"#@
            &&& p[3] == r#"((?:https?|ftp|file)://[^\s<>"'`)\]}]+)"#@
            &&& p[4] == r#"([\w.+-]+@[\w-]+(?:\.[\w-]+)+)"#@
            &&& p[5] == r#"((?:[~.]?[\w./+-]*\w):\d+(?::\d+)?)"#@
            &&& p[6] == r#"((?:~|\.{1,2})?(?:/[\w.+@~-]+)+/?|(?:[\w.+-]+/)+[\w.+-]*)"#@
            &&& p[7] == r#"(\b\d{1,3}(?:\.\d{1,3}){3}(?::\d+)?)"#@
            &&& p[8] == r#"([\w.-]+=[^\s'"]+)"#@
            &&& p[9] == r#"(\b[0-9a-f]{7,40}\b)"#@
            &&& p[10] == r#"(\b0x[0-9a-fA-F]+\b)"#@
            &&& p[11] == r#"(\b\d+(?:\.\d+)?\b)"#@
            &&& p[12] == r#"([\w@.+-]+)"#@
        }),
{
}

/// A token of one kind is taken before those of every later kind.
pub proof fn specific_tokens_win(line: Seq<char>, click: nat, n: int, s: nat, e: nat)
    requires
        0 <= n < 13,
        super::select::found_by(line, click, n) is None,
        match super::select::captures(super::select::patterns()[n], line, 1) {
            Some(spans) => super::select::stretch_at(spans, super::select::click_byte(line, click))
                == Some((s, e)),
            None => false,
        },
    ensures
        super::select::token_at(line, click) == Some(
            (
                crate::text::chars_before(line, s, line.len() as int),
                crate::text::chars_before(line, e, line.len() as int),
            ),
        ),
{
    super::select::lemma_found_stays(line, click, n + 1, 13);
}

/// A click with the control key opens the link under it, a double click
/// selects the token under it, and another click is left alone.
pub proof fn clicks_open_or_select(
    url: String,
    s: usize,
    e: usize,
    ctrl: bool,
    token: Option<(usize, usize)>,
    link: Option<String>,
    a: ClickAction,
    b: ClickAction,
    c: ClickAction,
    d: ClickAction,
    f: ClickAction,
)
    requires
        call_ensures(super::url::click_action, (1, true, Some(url), token), a),
        call_ensures(super::url::click_action, (2, ctrl, link, Some((s, e))), b),
        call_ensures(super::url::click_action, (1, false, Some(url), token), c),
        call_ensures(super::url::click_action, (1, true, None, token), d),
        call_ensures(super::url::click_action, (3, ctrl, link, token), f),
    ensures
        a == ClickAction::Open(url),
        b == ClickAction::Select(s, e),
        c == ClickAction::Deny,
        d == ClickAction::Deny,
        f == ClickAction::Deny,
{
}

// ---------------------------------------------------------------------------
// Links
// ---------------------------------------------------------------------------

/// A link of the output goes before a link in the text, and of several the
/// first one counts; tags of other kinds carry none.
pub proof fn links_of_the_output_come_first(
    before: Seq<Seq<char>>,
    uri: Seq<char>,
    behind: Seq<Seq<char>>,
    tags: &[String],
    line: &str,
    at: usize,
    newline: bool,
    res: Option<String>,
)
    requires
        forall|i: int|
            0 <= i < before.len() ==> !crate::text::begins(#[trigger] before[i], "osc8-link:"@),
        crate::text::texts(tags@) == before + seq!["osc8-link:"@ + uri] + behind,
        call_ensures(super::url::get_url_at_position, (tags, line, at, newline), res),
    ensures
        super::url::first_uri(before + seq!["osc8-link:"@ + uri] + behind) == Some(uri),
        super::url::first_uri(before) is None,
        res matches Some(u) && u@ == uri,
{
    lemma_first_uri(before, uri, behind);
}

proof fn lemma_first_uri(before: Seq<Seq<char>>, uri: Seq<char>, behind: Seq<Seq<char>>)
    requires
        forall|i: int|
            0 <= i < before.len() ==> !crate::text::begins(#[trigger] before[i], "osc8-link:"@),
    ensures
        super::url::first_uri(before + seq!["osc8-link:"@ + uri] + behind) == Some(uri),
        super::url::first_uri(before) is None,
    decreases before.len(),
{
    let name = "osc8-link:"@ + uri;
    let all = before + seq![name] + behind;
    if before.len() == 0 {
        assert(all[0] == name);
        assert(name.subrange(0, "osc8-link:"@.len() as int) =~= "osc8-link:"@);
        assert(name.skip("osc8-link:"@.len() as int) =~= uri);
    } else {
        let rest = before.drop_first();
        assert(all[0] == before[0]);
        assert(all.drop_first() =~= rest + seq![name] + behind);
        assert forall|i: int| 0 <= i < rest.len() implies !crate::text::begins(
            #[trigger] rest[i],
            "osc8-link:"@,
        ) by {
            assert(rest[i] == before[i + 1]);
        }
        lemma_first_uri(rest, uri, behind);
    }
}

/// The text that carries a link of the output is told with it.
pub proof fn linked_text_is_told(tag: TagSpan, other: TagSpan, uri: Seq<char>, more: Seq<TagSpan>)
    requires
        tag.name@ == "osc8-link:"@ + uri,
        !crate::text::begins(other.name@, "osc8-link:"@),
        tag.start < tag.end,
    ensures
        super::url::first_link(seq![tag] + more) == Some((tag.start, tag.end, uri)),
        super::url::first_link(seq![other] + more) == super::url::first_link(more),
{
    let name = tag.name@;
    assert(name.subrange(0, "osc8-link:"@.len() as int) =~= "osc8-link:"@);
    assert(name.skip("osc8-link:"@.len() as int) =~= uri);
    assert((seq![tag] + more)[0] == tag);
    assert((seq![other] + more)[0] == other);
    assert((seq![other] + more).drop_first() =~= more);
}

} // verus!
