//! URL detection and Ctrl+click decisions for finished-block text views.
//!
//! Plain-text URLs are recognised by scheme prefix and made clickable on
//! Ctrl+click; OSC 8 hyperlinks are carried as `osc8-link:<uri>` tags.

use vstd::prelude::*;
use vstd::slice::slice_subrange;

use crate::text::{chars_of, starts_with, strip_prefix, text_of};

verus! {

/// The text begins with a scheme that is opened.
pub open spec fn has_scheme(s: Seq<char>) -> bool {
    ||| crate::text::begins(s, "http://"@)
    ||| crate::text::begins(s, "https://"@)
    ||| crate::text::begins(s, "file://"@)
    ||| crate::text::begins(s, "ftp://"@)
    ||| crate::text::begins(s, "git://"@)
    ||| crate::text::begins(s, "ssh://"@)
    ||| crate::text::begins(s, "mailto:"@)
}

fn chars_are_url(s: &[char]) -> (res: bool)
    ensures
        res == has_scheme(s@),
{
    starts_with(s, "http://") || starts_with(s, "https://") || starts_with(s, "file://")
        || starts_with(s, "ftp://") || starts_with(s, "git://") || starts_with(s, "ssh://")
        || starts_with(s, "mailto:")
}

/// Tells whether a text is a URL, by its scheme.
pub fn is_url(text: &str) -> (res: bool)
    ensures
        res == has_scheme(text@),
{
    chars_are_url(chars_of(text).as_slice())
}

/// Punctuation that ends a sentence or a bracket rather than a URL.
pub open spec fn is_sentence_mark(c: char) -> bool {
    c == '.' || c == ',' || c == ';' || c == ':' || c == '!' || c == '?' || c == ')' || c == ']' || c
        == '}' || c == '>' || c == '\'' || c == '"'
}

/// The text without sentence marks at its end.
pub open spec fn unmarked(s: Seq<char>) -> Seq<char>
    decreases s.len(),
{
    if s.len() > 0 && is_sentence_mark(s.last()) {
        unmarked(s.drop_last())
    } else {
        s
    }
}

fn trim_trailing(s: &[char]) -> (res: &[char])
    ensures
        res@ == unmarked(s@),
        res@.len() <= s@.len(),
{
    let mut end: usize = s.len();
    assert(s@.take(end as int) =~= s@);
    while end > 0 && mark(s[end - 1])
        invariant
            end <= s.len(),
            unmarked(s@.take(end as int)) == unmarked(s@),
        decreases end,
    {
        assert(s@.take(end as int).drop_last() =~= s@.take(end - 1));
        end -= 1;
    }
    let res = slice_subrange(s, 0, end);
    assert(res@ =~= s@.take(end as int));
    res
}

fn mark(c: char) -> (res: bool)
    ensures
        res == is_sentence_mark(c),
{
    c == '.' || c == ',' || c == ';' || c == ':' || c == '!' || c == '?' || c == ')' || c == ']' || c
        == '}' || c == '>' || c == '\'' || c == '"'
}

/// The characters that delimit a URL in running text.
pub open spec fn is_delimiter(c: char) -> bool {
    c == ' ' || c == '\n' || c == '\t' || c == '<' || c == '>'
}

fn delimits(c: char) -> (res: bool)
    ensures
        res == is_delimiter(c),
{
    c == ' ' || c == '\n' || c == '\t' || c == '<' || c == '>'
}

/// The beginning of the word that ends before position `i`.
pub open spec fn word_start(line: Seq<char>, i: int) -> int
    decreases i,
{
    if i <= 0 || i > line.len() || is_delimiter(line[i - 1]) {
        i
    } else {
        word_start(line, i - 1)
    }
}

/// The end of the word that begins at position `i`.
pub open spec fn word_end(line: Seq<char>, i: int) -> int
    decreases line.len() - i,
{
    if i < 0 || i >= line.len() || is_delimiter(line[i]) {
        i
    } else {
        word_end(line, i + 1)
    }
}

/// The URL around position `at` of a line, with the positions at which it
/// begins and ends. `newline` tells that a line break follows the line: a
/// position on it belongs to no word.
pub open spec fn url_around(line: Seq<char>, at: int, newline: bool) -> Option<
    (int, int, Seq<char>),
> {
    if at > line.len() || (at == line.len() && newline) || (at < line.len() && is_delimiter(
        line[at],
    )) {
        None
    } else {
        let start = word_start(line, at);
        let end = word_end(line, at);
        let url = unmarked(line.subrange(start, end));
        if start < end && has_scheme(url) {
            Some((start, start + url.len(), url))
        } else {
            None
        }
    }
}

/// Finds the URL around a position of a line (delimited by white space, `<` or
/// `>`), without trailing sentence punctuation. Returns where it begins and
/// ends in the line, and its text.
pub fn get_url_bounds_at_position(line: &str, at: usize, newline: bool) -> (res: Option<
    (usize, usize, String),
>)
    ensures
        res is Some <==> url_around(line@, at as int, newline) is Some,
        res matches Some(u) ==> url_around(line@, at as int, newline) == Some(
            (u.0 as int, u.1 as int, u.2@),
        ),
{
    let chars: Vec<char> = chars_of(line);
    if at > chars.len() || (at == chars.len() && newline) {
        return None;
    }
    if at < chars.len() && delimits(chars[at]) {
        return None;
    }
    let mut start: usize = at;
    while start > 0 && !delimits(chars[start - 1])
        invariant
            start <= at <= chars.len(),
            chars@ == line@,
            word_start(chars@, start as int) == word_start(chars@, at as int),
        decreases start,
    {
        start -= 1;
    }
    let mut end: usize = at;
    while end < chars.len() && !delimits(chars[end])
        invariant
            at <= end <= chars.len(),
            chars@ == line@,
            word_end(chars@, end as int) == word_end(chars@, at as int),
        decreases chars.len() - end,
    {
        end += 1;
    }
    if start >= end {
        return None;
    }
    let url = trim_trailing(slice_subrange(chars.as_slice(), start, end));
    if !chars_are_url(url) {
        return None;
    }
    Some((start, start + url.len(), text_of(url)))
}

/// The address in the name of a link tag.
pub open spec fn tag_uri(name: Seq<char>) -> Option<Seq<char>> {
    crate::text::after_prefix(name, "osc8-link:"@)
}

/// The address of the first link tag among the names.
pub open spec fn first_uri(names: Seq<Seq<char>>) -> Option<Seq<char>>
    decreases names.len(),
{
    if names.len() == 0 {
        None
    } else {
        match tag_uri(names[0]) {
            Some(uri) => Some(uri),
            None => first_uri(names.drop_first()),
        }
    }
}

fn read_tag(name: &str) -> (res: Option<String>)
    ensures
        res is Some <==> tag_uri(name@) is Some,
        res matches Some(uri) ==> tag_uri(name@) == Some(uri@),
{
    match strip_prefix(chars_of(name).as_slice(), "osc8-link:") {
        Some(uri) => Some(text_of(uri)),
        None => None,
    }
}

/// The name of the tag for a link.
pub fn osc8_tag_name(uri: &str) -> (res: String)
    ensures
        res@ == "osc8-link:"@ + uri@,
        tag_uri(res@) == Some(uri@),
{
    let mut name: String = "osc8-link:".to_owned();
    name.push_str(uri);
    proof {
        let p = "osc8-link:"@;
        assert(name@.subrange(0, p.len() as int) =~= p);
        assert(name@.skip(p.len() as int) =~= uri@);
    }
    name
}

/// The URL at a position: that of the first `osc8-link:` tag among the names
/// of the tags there, else the one found in the text.
pub fn get_url_at_position(tags: &[String], line: &str, at: usize, newline: bool) -> (res: Option<
    String,
>)
    ensures
        res is Some <==> (first_uri(crate::text::texts(tags@)) is Some || url_around(
            line@,
            at as int,
            newline,
        ) is Some),
        res matches Some(uri) ==> (match first_uri(crate::text::texts(tags@)) {
            Some(u) => u == uri@,
            None => (url_around(line@, at as int, newline) matches Some(u) && u.2 == uri@),
        }),
{
    let ghost names = crate::text::texts(tags@);
    let mut i: usize = 0;
    assert(names.skip(0) =~= names);
    while i < tags.len()
        invariant
            i <= tags.len(),
            names == crate::text::texts(tags@),
            first_uri(names.skip(i as int)) == first_uri(names),
        decreases tags.len() - i,
    {
        assert(names.skip(i as int)[0] == tags@[i as int]@);
        assert(names.skip(i as int).drop_first() =~= names.skip(i + 1));
        if let Some(uri) = read_tag(tags[i].as_str()) {
            return Some(uri);
        }
        i += 1;
    }
    match get_url_bounds_at_position(line, at, newline) {
        Some((_, _, uri)) => Some(uri),
        None => None,
    }
}

/// A tag at a position, with the stretch of the buffer that it covers there.
#[derive(Debug)]
pub struct TagSpan {
    pub name: String,
    pub start: usize,
    pub end: usize,
}

/// The first link tag among the tags.
pub open spec fn first_link(tags: Seq<TagSpan>) -> Option<(usize, usize, Seq<char>)>
    decreases tags.len(),
{
    if tags.len() == 0 {
        None
    } else {
        match tag_uri(tags[0].name@) {
            Some(uri) => if tags[0].start < tags[0].end {
                Some((tags[0].start, tags[0].end, uri))
            } else {
                None
            },
            None => first_link(tags.drop_first()),
        }
    }
}

/// The stretch and the address of the link tag at a position, if there is one.
pub fn get_osc8_bounds_at_position(tags: &[TagSpan]) -> (res: Option<(usize, usize, String)>)
    ensures
        res is Some <==> first_link(tags@) is Some,
        res matches Some(l) ==> first_link(tags@) == Some((l.0, l.1, l.2@)),
{
    let mut i: usize = 0;
    assert(tags@.skip(0) =~= tags@);
    while i < tags.len()
        invariant
            i <= tags.len(),
            first_link(tags@.skip(i as int)) == first_link(tags@),
        decreases tags.len() - i,
    {
        assert(tags@.skip(i as int).drop_first() =~= tags@.skip(i + 1));
        if let Some(uri) = read_tag(tags[i].name.as_str()) {
            if tags[i].start < tags[i].end {
                return Some((tags[i].start, tags[i].end, uri));
            }
            return None;
        }
        i += 1;
    }
    None
}

/// What a click in finished output does.
#[derive(Debug)]
pub enum ClickAction {
    /// Open the address.
    Open(String),
    /// Select from the first position up to the second.
    Select(usize, usize),
    /// Leave the click to the view.
    Deny,
}

/// Decides on a click: Ctrl and a single click open the URL there, a double
/// click selects the token there.
pub fn click_action(
    n_press: i32,
    ctrl: bool,
    url: Option<String>,
    token: Option<(usize, usize)>,
) -> (res: ClickAction)
    ensures
        res is Open <==> n_press == 1 && ctrl && url is Some,
        res matches ClickAction::Open(u) ==> url == Some(u),
        res is Select <==> n_press == 2 && token is Some,
        res matches ClickAction::Select(s, e) ==> token == Some((s, e)),
{
    if n_press == 1 && ctrl {
        if let Some(u) = url {
            return ClickAction::Open(u);
        }
    } else if n_press == 2 {
        if let Some((s, e)) = token {
            return ClickAction::Select(s, e);
        }
    }
    ClickAction::Deny
}

/// The stretch to underline under the pointer: a URL in the text before a
/// link tag.
pub fn hover_span(text: Option<(usize, usize)>, tag: Option<(usize, usize)>) -> (res: Option<
    (usize, usize),
>)
    ensures
        res == (if text is Some {
            text
        } else {
            tag
        }),
{
    match text {
        Some(span) => Some(span),
        None => tag,
    }
}

// ---------------------------------------------------------------------------
// Laws
// ---------------------------------------------------------------------------

proof fn lemma_word_start(line: Seq<char>, i: int)
    requires
        0 <= i <= line.len(),
    ensures
        0 <= word_start(line, i) <= i,
        forall|j: int| word_start(line, i) <= j < i ==> !is_delimiter(#[trigger] line[j]),
    decreases i,
{
    if i > 0 && !is_delimiter(line[i - 1]) {
        lemma_word_start(line, i - 1);
    }
}

proof fn lemma_word_end(line: Seq<char>, i: int)
    requires
        0 <= i <= line.len(),
    ensures
        i <= word_end(line, i) <= line.len(),
        forall|j: int| i <= j < word_end(line, i) ==> !is_delimiter(#[trigger] line[j]),
    decreases line.len() - i,
{
    if i < line.len() && !is_delimiter(line[i]) {
        lemma_word_end(line, i + 1);
    }
}

proof fn lemma_unmarked(s: Seq<char>)
    ensures
        unmarked(s).len() <= s.len(),
        unmarked(s) == s.take(unmarked(s).len() as int),
        unmarked(s).len() > 0 ==> !is_sentence_mark(unmarked(s).last()),
    decreases s.len(),
{
    if s.len() > 0 && is_sentence_mark(s.last()) {
        lemma_unmarked(s.drop_last());
        assert(unmarked(s) =~= s.take(unmarked(s).len() as int));
    } else {
        assert(s =~= s.take(s.len() as int));
    }
}

/// A URL that is found stands in the line where its bounds say, holds no
/// delimiter and does not end in a sentence mark.
pub proof fn urls_are_words(line: Seq<char>, at: int, newline: bool)
    requires
        0 <= at <= line.len(),
    ensures
        url_around(line, at, newline) matches Some(u) ==> {
            &&& 0 <= u.0 <= at
            &&& u.0 <= u.1 <= line.len()
            &&& line.subrange(u.0, u.1) == u.2
            &&& has_scheme(u.2)
            &&& forall|j: int| u.0 <= j < u.1 ==> !is_delimiter(#[trigger] line[j])
            &&& u.2.len() > 0 ==> !is_sentence_mark(u.2.last())
        },
{
    lemma_word_start(line, at);
    lemma_word_end(line, at);
    let start = word_start(line, at);
    let end = word_end(line, at);
    let raw = line.subrange(start, end);
    lemma_unmarked(raw);
    let url = unmarked(raw);
    assert(line.subrange(start, start + url.len()) =~= raw.take(url.len() as int));
}

} // verus!
