//! Semantic ("smart") double-click selection for finished-block text views.
//!
//! A plain double-click selects an alphanumeric word. This detects the
//! semantic token under the cursor — URL, path, file:line:col, IPv4, git SHA,
//! key=value, quoted string, … — so one double-click grabs the whole unit.

use vstd::prelude::*;

use crate::text::{chars_of, count_before, offset_of};

verus! {

/// The stretches of `line` that the capture group `group` of `pattern` takes
/// up, match by match from left to right, in bytes; `None` for a match in
/// which the group takes no part. `None` as a whole if the pattern is not a
/// regular expression.
pub uninterp spec fn captures(pattern: Seq<char>, line: Seq<char>, group: nat) -> Option<
    Seq<Option<(nat, nat)>>,
>;

/// The values of a list of stretches.
pub open spec fn stretch_views(spans: Seq<Option<(usize, usize)>>) -> Seq<Option<(nat, nat)>> {
    Seq::new(
        spans.len(),
        |i: int|
            match spans[i] {
                Some((s, e)) => Some((s as nat, e as nat)),
                None => None,
            },
    )
}

/// Calls `regex::Regex::new` and `regex::Regex::captures_iter`, and takes the
/// bounds of the group from each match; the result goes by the name
/// [`captures`].
#[verifier::external_body]
fn capture_spans(pattern: &str, line: &str, group: usize) -> (res: Option<
    Vec<Option<(usize, usize)>>,
>)
    ensures
        res is Some <==> captures(pattern@, line@, group as nat) is Some,
        res matches Some(v) ==> captures(pattern@, line@, group as nat) == Some(stretch_views(v@)),
{
    let re = regex::Regex::new(pattern).ok()?;
    Some(re.captures_iter(line).map(|c| c.get(group).map(|m| (m.start(), m.end()))).collect())
}

/// The kinds of tokens, from the most to the least specific. The first group
/// of each pattern is the token.
pub open spec fn patterns() -> Seq<Seq<char>> {
    seq![
        r#""([^"\n]*)""#@,
        r#"'([^'\n]*)'"#@,
        r#"`([^`\n]*)`"#@,
        r#"((?:https?|ftp|file)://[^\s<>"'`)\]}]+)"#@,
        r#"([\w.+-]+@[\w-]+(?:\.[\w-]+)+)"#@,
        r#"((?:[~.]?[\w./+-]*\w):\d+(?::\d+)?)"#@,
        r#"((?:~|\.{1,2})?(?:/[\w.+@~-]+)+/?|(?:[\w.+-]+/)+[\w.+-]*)"#@,
        r#"(\b\d{1,3}(?:\.\d{1,3}){3}(?::\d+)?)"#@,
        r#"([\w.-]+=[^\s'"]+)"#@,
        r#"(\b[0-9a-f]{7,40}\b)"#@,
        r#"(\b0x[0-9a-fA-F]+\b)"#@,
        r#"(\b\d+(?:\.\d+)?\b)"#@,
        r#"([\w@.+-]+)"#@,
    ]
}

fn pattern_texts() -> (res: [&'static str; 13])
    ensures
        forall|i: int| 0 <= i < 13 ==> (#[trigger] res@[i])@ == patterns()[i],
{
    [
        r#""([^"\n]*)""#,
        r#"'([^'\n]*)'"#,
        r#"`([^`\n]*)`"#,
        r#"((?:https?|ftp|file)://[^\s<>"'`)\]}]+)"#,
        r#"([\w.+-]+@[\w-]+(?:\.[\w-]+)+)"#,
        r#"((?:[~.]?[\w./+-]*\w):\d+(?::\d+)?)"#,
        r#"((?:~|\.{1,2})?(?:/[\w.+@~-]+)+/?|(?:[\w.+-]+/)+[\w.+-]*)"#,
        r#"(\b\d{1,3}(?:\.\d{1,3}){3}(?::\d+)?)"#,
        r#"([\w.-]+=[^\s'"]+)"#,
        r#"(\b[0-9a-f]{7,40}\b)"#,
        r#"(\b0x[0-9a-fA-F]+\b)"#,
        r#"(\b\d+(?:\.\d+)?\b)"#,
        r#"([\w@.+-]+)"#,
    ]
}

/// The byte at which the clicked character begins, or the end of the line.
pub open spec fn click_byte(line: Seq<char>, click: nat) -> nat {
    crate::text::byte_at(
        line,
        if click <= line.len() {
            click as int
        } else {
            line.len() as int
        },
    )
}

/// The first stretch that holds the byte `at`.
pub open spec fn stretch_at(spans: Seq<Option<(nat, nat)>>, at: nat) -> Option<(nat, nat)>
    decreases spans.len(),
{
    if spans.len() == 0 {
        None
    } else {
        match spans[0] {
            Some((s, e)) if s <= at < e => Some((s, e)),
            _ => stretch_at(spans.drop_first(), at),
        }
    }
}

/// A stretch of bytes as characters.
pub open spec fn in_chars(line: Seq<char>, stretch: Option<(nat, nat)>) -> Option<(nat, nat)> {
    match stretch {
        Some((s, e)) => Some(
            (
                crate::text::chars_before(line, s, line.len() as int),
                crate::text::chars_before(line, e, line.len() as int),
            ),
        ),
        None => None,
    }
}

/// The stretch that the first `n` patterns find around a click, in bytes.
pub open spec fn found_by(line: Seq<char>, click: nat, n: int) -> Option<(nat, nat)>
    decreases n,
{
    if n <= 0 {
        None
    } else {
        match found_by(line, click, n - 1) {
            Some(found) => Some(found),
            None => match captures(patterns()[n - 1], line, 1) {
                Some(spans) => stretch_at(spans, click_byte(line, click)),
                None => None,
            },
        }
    }
}

/// The token around a click, in characters.
pub open spec fn token_at(line: Seq<char>, click: nat) -> Option<(nat, nat)> {
    in_chars(line, found_by(line, click, 13))
}

/// The values of a span.
pub open spec fn span_view(span: Option<(usize, usize)>) -> Option<(nat, nat)> {
    match span {
        Some((s, e)) => Some((s as nat, e as nat)),
        None => None,
    }
}

/// The first of the stretches that holds the clicked character, in characters
/// of the line.
pub fn span_among(line: &str, click: usize, spans: &[Option<(usize, usize)>]) -> (res: Option<
    (usize, usize),
>)
    ensures
        span_view(res) == in_chars(
            line@,
            stretch_at(stretch_views(spans@), click_byte(line@, click as nat)),
        ),
{
    let chars: Vec<char> = chars_of(line);
    let at: u128 = offset_of(chars.as_slice(), click);
    let ghost views = stretch_views(spans@);
    let mut i: usize = 0;
    assert(views.skip(0) =~= views);
    while i < spans.len()
        invariant
            i <= spans.len(),
            chars@ == line@,
            at == click_byte(line@, click as nat),
            views == stretch_views(spans@),
            stretch_at(views.skip(i as int), at as nat) == stretch_at(views, at as nat),
        decreases spans.len() - i,
    {
        assert(views.skip(i as int)[0] == views[i as int]);
        assert(views.skip(i as int).drop_first() =~= views.skip(i + 1));
        if let Some((s, e)) = spans[i] {
            if s as u128 <= at && at < e as u128 {
                return Some(
                    (count_before(chars.as_slice(), s), count_before(chars.as_slice(), e)),
                );
            }
        }
        i += 1;
    }
    None
}

/// The semantic token around the character `click_char` of a line: where it
/// begins and ends, in characters.
pub fn semantic_span(line: &str, click_char: usize) -> (res: Option<(usize, usize)>)
    ensures
        span_view(res) == token_at(line@, click_char as nat),
{
    let all: [&'static str; 13] = pattern_texts();
    let mut i: usize = 0;
    while i < 13
        invariant
            i <= 13,
            forall|k: int| 0 <= k < 13 ==> (#[trigger] all@[k])@ == patterns()[k],
            found_by(line@, click_char as nat, i as int) is None,
        decreases 13 - i,
    {
        assert(all@[i as int]@ == patterns()[i as int]);
        if let Some(spans) = capture_spans(all[i], line, 1) {
            if let Some(span) = span_among(line, click_char, spans.as_slice()) {
                proof {
                    lemma_found_stays(line@, click_char as nat, i + 1, 13);
                }
                return Some(span);
            }
        }
        i += 1;
    }
    None
}

pub(super) proof fn lemma_found_stays(line: Seq<char>, click: nat, i: int, n: int)
    requires
        0 <= i <= n,
        found_by(line, click, i) is Some,
    ensures
        found_by(line, click, n) == found_by(line, click, i),
    decreases n,
{
    if n > i {
        lemma_found_stays(line, click, i, n - 1);
    }
}

/// The bounds of the semantic token at a position of a buffer, given where the
/// line begins in the buffer.
pub fn get_semantic_bounds_at_position(line_start: usize, line: &str, click_char: usize) -> (res:
    Option<(usize, usize)>)
    requires
        line_start + line@.len() <= usize::MAX,
    ensures
        res is Some <==> token_at(line@, click_char as nat) is Some,
        res matches Some((s, e)) ==> token_at(line@, click_char as nat) == Some(
            ((s - line_start) as nat, (e - line_start) as nat),
        ) && s >= line_start && e >= line_start,
{
    match semantic_span(line, click_char) {
        Some((s, e)) => {
            proof {
                let f = found_by(line@, click_char as nat, 13)->0;
                lemma_chars_before(line@, f.0, line@.len() as int);
                lemma_chars_before(line@, f.1, line@.len() as int);
            }
            Some((line_start + s, line_start + e))
        },
        None => None,
    }
}

proof fn lemma_chars_before(s: Seq<char>, b: nat, n: int)
    requires
        0 <= n,
    ensures
        crate::text::chars_before(s, b, n) <= n,
    decreases n,
{
    if n > 0 {
        lemma_chars_before(s, b, n - 1);
    }
}

/// The first `k` characters begin before byte `b` and the others do not.
proof fn lemma_count_is(s: Seq<char>, b: nat, k: int, n: int)
    requires
        0 <= k <= n,
        k > 0 ==> crate::text::byte_at(s, k - 1) < b,
        k < n ==> b <= crate::text::byte_at(s, k),
    ensures
        crate::text::chars_before(s, b, n) == k,
    decreases n,
{
    if n > 0 {
        if k == n {
            if k > 1 {
                crate::text::byte_at_grows(s, k - 2, k - 1);
            }
            lemma_count_is(s, b, k - 1, n - 1);
        } else {
            if k < n - 1 {
                crate::text::byte_at_grows(s, k, n - 1);
            }
            lemma_count_is(s, b, k, n - 1);
        }
    }
}

proof fn lemma_count_bounds(s: Seq<char>, b: nat, n: int, at: int)
    requires
        0 <= at < n,
    ensures
        b <= crate::text::byte_at(s, at) ==> crate::text::chars_before(s, b, n) <= at,
        crate::text::byte_at(s, at) < b ==> crate::text::chars_before(s, b, n) > at,
    decreases n,
{
    lemma_chars_before(s, b, n - 1);
    if at == n - 1 {
        if crate::text::byte_at(s, at) < b {
            if at > 0 {
                crate::text::byte_at_grows(s, at - 1, at);
            }
            lemma_count_is(s, b, at, at);
        }
    } else {
        crate::text::byte_at_grows(s, at, n - 1);
        lemma_count_bounds(s, b, n - 1, at);
    }
}

proof fn lemma_stretch_holds(spans: Seq<Option<(nat, nat)>>, at: nat)
    ensures
        stretch_at(spans, at) matches Some((s, e)) ==> s <= at < e,
    decreases spans.len(),
{
    if spans.len() > 0 {
        lemma_stretch_holds(spans.drop_first(), at);
    }
}

proof fn lemma_found_holds(line: Seq<char>, click: nat, n: int)
    ensures
        found_by(line, click, n) matches Some((s, e)) ==> s <= click_byte(line, click) < e,
    decreases n,
{
    if n > 0 {
        lemma_found_holds(line, click, n - 1);
        match captures(patterns()[n - 1], line, 1) {
            Some(spans) => lemma_stretch_holds(spans, click_byte(line, click)),
            None => {},
        }
    }
}

/// The token holds the character that was clicked.
pub proof fn tokens_hold_the_click(line: Seq<char>, click: nat)
    requires
        click < line.len(),
    ensures
        token_at(line, click) matches Some((s, e)) ==> s <= click < e <= line.len(),
{
    lemma_found_holds(line, click, 13);
    match found_by(line, click, 13) {
        Some((s, e)) => {
            lemma_count_bounds(line, s, line.len() as int, click as int);
            lemma_count_bounds(line, e, line.len() as int, click as int);
            lemma_chars_before(line, e, line.len() as int);
        },
        None => {},
    }
}

} // verus!
