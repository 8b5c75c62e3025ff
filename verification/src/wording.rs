//! What the helpers on text do to whole texts: how they part words and lines,
//! what they trim, and what they replace.

use vstd::prelude::*;

verus! {

/// Of ASCII, the blank, the tab, the line feed, the vertical tab, the form feed
/// and the carriage return are white space, and nothing else.
pub proof fn blanks_and_controls_are_white(c: char)
    requires
        '\u{80}' > c,
    ensures
        crate::text::is_white(c) <==> c == ' ' || c == '\t' || c == '\n' || c == '\x0b' || c
            == '\x0c' || c == '\r',
{
}

/// Lowering turns each capital of ASCII into its small letter and leaves every
/// other character alone.
pub proof fn capitals_are_lowered(i: int, c: char)
    requires
        0 <= i < 26,
        !('A' <= c <= 'Z'),
    ensures
        crate::text::ascii_lower("ABCDEFGHIJKLMNOPQRSTUVWXYZ"@[i])
            == "abcdefghijklmnopqrstuvwxyz"@[i],
        crate::text::ascii_lower(c) == c,
{
    reveal_strlit("ABCDEFGHIJKLMNOPQRSTUVWXYZ");
    reveal_strlit("abcdefghijklmnopqrstuvwxyz");
}

/// Every character is white space.
pub open spec fn is_blank(s: Seq<char>) -> bool {
    forall|i: int| 0 <= i < s.len() ==> crate::text::is_white(#[trigger] s[i])
}

/// No character is white space, and there is one.
pub open spec fn is_word(s: Seq<char>) -> bool {
    s.len() > 0 && forall|i: int| 0 <= i < s.len() ==> !crate::text::is_white(#[trigger] s[i])
}

pub(crate) proof fn lemma_trim_start(a: Seq<char>, s: Seq<char>)
    requires
        is_blank(a),
    ensures
        crate::text::trimmed_start(a + s) == crate::text::trimmed_start(s),
    decreases a.len(),
{
    if a.len() == 0 {
        assert(a + s =~= s);
    } else {
        let t = a + s;
        let rest = a.drop_first();
        assert(crate::text::is_white(a[0]));
        assert(t[0] == a[0]);
        assert(t.drop_first() =~= rest + s);
        assert forall|i: int| 0 <= i < rest.len() implies crate::text::is_white(
            #[trigger] rest[i],
        ) by {
            assert(rest[i] == a[i + 1]);
        }
        lemma_trim_start(rest, s);
    }
}

proof fn lemma_trim_end(s: Seq<char>, b: Seq<char>)
    requires
        is_blank(b),
    ensures
        crate::text::trimmed_end(s + b) == crate::text::trimmed_end(s),
    decreases b.len(),
{
    if b.len() == 0 {
        assert(s + b =~= s);
    } else {
        let t = s + b;
        let rest = b.drop_last();
        assert(crate::text::is_white(b[b.len() - 1]));
        assert(t.last() == b.last());
        assert(t.drop_last() =~= s + rest);
        assert forall|i: int| 0 <= i < rest.len() implies crate::text::is_white(
            #[trigger] rest[i],
        ) by {
            assert(rest[i] == b[i]);
        }
        lemma_trim_end(s, rest);
    }
}

/// Trimming takes the white space off both ends, and no more.
pub proof fn white_space_is_trimmed(a: Seq<char>, s: Seq<char>, b: Seq<char>)
    requires
        is_blank(a),
        is_blank(b),
        s.len() > 0,
        !crate::text::is_white(s[0]),
        !crate::text::is_white(s.last()),
    ensures
        crate::text::trimmed(a + s + b) == s,
        crate::text::trimmed(a).len() == 0,
        crate::text::all_white(a),
        !crate::text::all_white(a + s + b),
{
    let none: Seq<char> = seq![];
    assert(a + s + b =~= a + (s + b));
    lemma_trim_start(a, s + b);
    assert((s + b)[0] == s[0]);
    lemma_trim_end(s, b);
    lemma_trim_start(a, none);
    assert(a + none =~= a);
}

/// A word in front of white space is the first word of a text, and the words of
/// the rest follow; a word alone is all there is.
pub proof fn words_are_parted(w: Seq<char>, c: char, rest: Seq<char>)
    requires
        is_word(w),
        crate::text::is_white(c),
    ensures
        crate::text::words(w) == seq![w],
        crate::text::words(w + seq![c] + rest) == seq![w] + crate::text::words(rest),
{
    let n = w.len() as int;
    assert(!crate::text::is_white(w[0]));
    assert(crate::text::trimmed_start(w) == w);
    crate::text::lemma_word_len(w, n);
    assert(w.take(n) =~= w);
    assert(w.skip(n) =~= seq![]);
    assert(crate::text::words(w.skip(n)) =~= seq![]);
    assert(crate::text::words(w) =~= seq![w]);
    let t = w + seq![c] + rest;
    assert(t[0] == w[0]);
    assert(crate::text::trimmed_start(t) == t);
    assert forall|j: int| 0 <= j < n implies !crate::text::is_white(t[j]) by {
        assert(t[j] == w[j]);
    }
    assert(t[n] == c);
    crate::text::lemma_word_len(t, n);
    assert(t.take(n) =~= w);
    let tail = t.skip(n);
    assert(tail =~= seq![c] + rest);
    lemma_trim_start(seq![c], rest);
    lemma_words_trim(tail, rest);
}

/// White space in front of a text holds no word.
pub proof fn leading_blanks_are_passed(a: Seq<char>, s: Seq<char>)
    requires
        is_blank(a),
    ensures
        crate::text::words(a + s) == crate::text::words(s),
        crate::text::words(a) == Seq::<Seq<char>>::empty(),
{
    let none: Seq<char> = seq![];
    lemma_trim_start(a, s);
    lemma_words_trim(a + s, s);
    lemma_trim_start(a, none);
    assert(a + none =~= a);
    assert(crate::text::words(a) =~= Seq::<Seq<char>>::empty());
}

proof fn lemma_words_trim(a: Seq<char>, b: Seq<char>)
    requires
        crate::text::trimmed_start(a) == crate::text::trimmed_start(b),
    ensures
        crate::text::words(a) == crate::text::words(b),
{
    lemma_start_is_shorter(a);
    lemma_start_is_shorter(b);
}

proof fn lemma_start_is_shorter(s: Seq<char>)
    ensures
        crate::text::trimmed_start(s).len() <= s.len(),
    decreases s.len(),
{
    if s.len() > 0 && crate::text::is_white(s[0]) {
        lemma_start_is_shorter(s.drop_first());
    }
}

/// A text without a line feed is one line; a line feed, and a carriage return
/// before it, end a line, and the lines of the rest follow.
pub proof fn lines_are_parted(a: Seq<char>, rest: Seq<char>)
    requires
        !a.contains('\n'),
        a.len() > 0,
        a.last() != '\r',
    ensures
        crate::text::lines(a) == seq![a],
        crate::text::lines(a + seq!['\n'] + rest) == seq![a] + crate::text::lines(rest),
        crate::text::lines(a + seq!['\r', '\n'] + rest) == seq![a] + crate::text::lines(rest),
{
    let n = a.len() as int;
    assert forall|j: int| 0 <= j < n implies a[j] != '\n' by {
        assert(a.contains(a[j]));
    }
    crate::text::lemma_until_at(a, '\n', n);
    assert(crate::text::split_on(a, '\n') =~= seq![a]);
    assert(crate::text::lines(a) =~= seq![a]);
    lemma_line(a, rest);
    let r = a.push('\r');
    assert forall|j: int| 0 <= j < r.len() implies r[j] != '\n' by {
        if j < n {
            assert(r[j] == a[j]);
        }
    }
    lemma_line(r, rest);
    assert(r.drop_last() =~= a);
    assert(a + seq!['\r', '\n'] + rest =~= r + seq!['\n'] + rest);
}

proof fn lemma_line(a: Seq<char>, rest: Seq<char>)
    requires
        forall|j: int| 0 <= j < a.len() ==> a[j] != '\n',
    ensures
        crate::text::lines(a + seq!['\n'] + rest) == seq![crate::text::chomped(a)]
            + crate::text::lines(rest),
{
    let n = a.len() as int;
    let t = a + seq!['\n'] + rest;
    assert forall|j: int| 0 <= j < n implies t[j] != '\n' by {
        assert(t[j] == a[j]);
    }
    assert(t[n] == '\n');
    crate::text::lemma_until_at(t, '\n', n);
    assert(t.take(n) =~= a);
    assert(t.skip(n + 1) =~= rest);
    crate::text::split_has_parts(rest, '\n');
    let parts = crate::text::split_on(t, '\n');
    let more = crate::text::split_on(rest, '\n');
    assert(parts =~= seq![a] + more);
    assert(parts.last() == more.last());
    assert(crate::text::lines(t) =~= seq![crate::text::chomped(a)] + crate::text::lines(rest));
}

/// Replacing puts the new text in the place of the character, wherever it
/// stands, and keeps the rest.
pub proof fn characters_are_replaced(a: Seq<char>, c: char, b: Seq<char>, by: Seq<char>)
    requires
        !a.contains(c),
    ensures
        crate::text::replaced(a, c, by) == a,
        crate::text::replaced(a + seq![c] + b, c, by) == a + by + crate::text::replaced(b, c, by),
{
    lemma_nothing_replaced(a, c, by);
    lemma_replaced_parts(a + seq![c], b, c, by);
    let m = a + seq![c];
    assert(m.drop_last() =~= a);
    assert(m.last() == c);
    assert(crate::text::replaced(m, c, by) == a + by);
}

proof fn lemma_nothing_replaced(a: Seq<char>, c: char, by: Seq<char>)
    requires
        !a.contains(c),
    ensures
        crate::text::replaced(a, c, by) == a,
    decreases a.len(),
{
    if a.len() > 0 {
        let front = a.drop_last();
        assert(a.contains(a[a.len() - 1]));
        assert(!front.contains(c)) by {
            assert forall|i: int| 0 <= i < front.len() implies front[i] != c by {
                assert(a.contains(a[i]));
            }
        }
        lemma_nothing_replaced(front, c, by);
        assert(front + seq![a.last()] =~= a);
    } else {
        assert(crate::text::replaced(a, c, by) =~= a);
    }
}

proof fn lemma_replaced_parts(a: Seq<char>, b: Seq<char>, c: char, by: Seq<char>)
    ensures
        crate::text::replaced(a + b, c, by) == crate::text::replaced(a, c, by)
            + crate::text::replaced(b, c, by),
    decreases b.len(),
{
    if b.len() == 0 {
        assert(a + b =~= a);
        assert(crate::text::replaced(a, c, by) + crate::text::replaced(b, c, by)
            =~= crate::text::replaced(a, c, by));
    } else {
        lemma_replaced_parts(a, b.drop_last(), c, by);
        assert((a + b).drop_last() =~= a + b.drop_last());
        assert(crate::text::replaced(a + b, c, by) =~= crate::text::replaced(a, c, by)
            + crate::text::replaced(b, c, by));
    }
}

} // verus!
