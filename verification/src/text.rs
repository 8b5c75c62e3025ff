//! Text helpers on character sequences: trimming, splitting, searching,
//! joining and the decimal notation of integers.

use vstd::prelude::*;
use vstd::slice::slice_subrange;

verus! {

// ---------------------------------------------------------------------------
// Functions of the standard library
// ---------------------------------------------------------------------------

/// `String::push` appends one character.
pub assume_specification[ String::push ](s: &mut String, c: char)
    ensures
        final(s)@ == old(s)@.push(c),
;

/// `String::push_str` appends a string slice.
pub assume_specification[ String::push_str ](s: &mut String, t: &str)
    ensures
        final(s)@ == old(s)@ + t@,
;

/// Calls `core::str::from_utf8`: it succeeds exactly on well-formed UTF-8, and
/// the string then holds the characters that the bytes encode.
#[verifier::external_body]
pub(crate) fn utf8_str(bytes: &[u8]) -> (res: Option<&str>)
    ensures
        res is Some <==> vstd::utf8::valid_utf8(bytes@),
        res matches Some(s) ==> s@ == vstd::utf8::decode_utf8(bytes@),
{
    core::str::from_utf8(bytes).ok()
}

/// The text that `String::from_utf8_lossy` makes of `bytes`.
pub uninterp spec fn utf8_lossy(bytes: Seq<u8>) -> Seq<char>;

/// Calls `String::from_utf8_lossy`: well-formed UTF-8 is decoded as it stands,
/// anything else goes by the name [`utf8_lossy`].
#[verifier::external_body]
pub(crate) fn lossy_text(bytes: &[u8]) -> (res: String)
    ensures
        res@ == utf8_lossy(bytes@),
        vstd::utf8::valid_utf8(bytes@) ==> res@ == vstd::utf8::decode_utf8(bytes@),
{
    String::from_utf8_lossy(bytes).into_owned()
}

/// The Unicode lower-case form of a text, as `str::to_lowercase` gives it.
pub uninterp spec fn lowercased(text: Seq<char>) -> Seq<char>;

/// Calls `str::to_lowercase`.
#[verifier::external_body]
pub(crate) fn lowercase(text: &str) -> (res: String)
    ensures
        res@ == lowercased(text@),
{
    text.to_lowercase()
}

// ---------------------------------------------------------------------------
// Characters
// ---------------------------------------------------------------------------

/// The characters with the Unicode property `White_Space`.
pub open spec fn is_white(c: char) -> bool {
    ||| '\u{9}' <= c <= '\u{d}'
    ||| c == ' '
    ||| c == '\u{85}'
    ||| c == '\u{a0}'
    ||| c == '\u{1680}'
    ||| '\u{2000}' <= c <= '\u{200a}'
    ||| c == '\u{2028}'
    ||| c == '\u{2029}'
    ||| c == '\u{202f}'
    ||| c == '\u{205f}'
    ||| c == '\u{3000}'
}

/// Tells whether `c` has the Unicode property `White_Space`.
pub fn is_whitespace(c: char) -> (res: bool)
    ensures
        res == is_white(c),
{
    ('\u{9}' <= c && c <= '\u{d}') || c == ' ' || c == '\u{85}' || c == '\u{a0}' || c == '\u{1680}'
        || ('\u{2000}' <= c && c <= '\u{200a}') || c == '\u{2028}' || c == '\u{2029}' || c
        == '\u{202f}' || c == '\u{205f}' || c == '\u{3000}'
}

/// The lower-case form of an ASCII capital; any other character unchanged.
pub open spec fn ascii_lower(c: char) -> char {
    if 'A' <= c <= 'Z' {
        (c as u32 + 32) as char
    } else {
        c
    }
}

pub(crate) fn ascii_lower_char(c: char) -> (res: char)
    ensures
        res == ascii_lower(c),
{
    if 'A' <= c && c <= 'Z' {
        ((c as u8) + 32) as char
    } else {
        c
    }
}

/// `s` with every ASCII capital in lower case.
pub open spec fn ascii_lowered(s: Seq<char>) -> Seq<char> {
    Seq::new(s.len(), |i: int| ascii_lower(s[i]))
}

pub(crate) fn ascii_lowercase(s: &[char]) -> (res: Vec<char>)
    ensures
        res@ == ascii_lowered(s@),
{
    let mut out: Vec<char> = Vec::new();
    let mut i: usize = 0;
    while i < s.len()
        invariant
            i <= s.len(),
            out@ == ascii_lowered(s@).take(i as int),
        decreases s.len() - i,
    {
        out.push(ascii_lower_char(s[i]));
        assert(out@ =~= ascii_lowered(s@).take(i + 1));
        i += 1;
    }
    assert(ascii_lowered(s@).take(i as int) =~= ascii_lowered(s@));
    out
}

// ---------------------------------------------------------------------------
// Between strings and character vectors
// ---------------------------------------------------------------------------

/// The characters of a text that may be missing.
pub open spec fn optional_text(t: Option<&str>) -> Option<Seq<char>> {
    match t {
        Some(t) => Some(t@),
        None => None,
    }
}

/// The characters of a string that may be missing.
pub open spec fn optional_string(t: Option<String>) -> Option<Seq<char>> {
    match t {
        Some(t) => Some(t@),
        None => None,
    }
}

/// The characters of `s`.
pub fn chars_of(s: &str) -> (res: Vec<char>)
    ensures
        res@ == s@,
{
    let mut out: Vec<char> = Vec::new();
    for c in it: s.chars()
        invariant
            it.seq() == s@,
            out@ == s@.take(it.index()),
    {
        out.push(c);
        assert(out@ =~= s@.take(it.index() + 1));
    }
    assert(s@.take(s@.len() as int) =~= s@);
    out
}

/// The string of the characters in `v`.
pub fn text_of(v: &[char]) -> (res: String)
    ensures
        res@ == v@,
{
    let mut out: String = String::new();
    let mut i: usize = 0;
    while i < v.len()
        invariant
            i <= v.len(),
            out@ == v@.take(i as int),
        decreases v.len() - i,
    {
        out.push(v[i]);
        assert(out@ =~= v@.take(i + 1));
        i += 1;
    }
    assert(v@.take(i as int) =~= v@);
    out
}

/// Appends the characters of a string literal or slice.
pub(crate) fn push_text(out: &mut Vec<char>, s: &str)
    ensures
        final(out)@ == old(out)@ + s@,
{
    let mut cs: Vec<char> = chars_of(s);
    out.append(&mut cs);
}

/// Appends a run of characters.
pub(crate) fn push_chars(out: &mut Vec<char>, s: &[char])
    ensures
        final(out)@ == old(out)@ + s@,
{
    let mut i: usize = 0;
    while i < s.len()
        invariant
            i <= s.len(),
            out@ == old(out)@ + s@.take(i as int),
        decreases s.len() - i,
    {
        out.push(s[i]);
        assert(out@ =~= old(out)@ + s@.take(i + 1));
        i += 1;
    }
    assert(s@.take(i as int) =~= s@);
}

// ---------------------------------------------------------------------------
// Comparing and trimming
// ---------------------------------------------------------------------------

/// `p` is an initial part of `s`.
pub open spec fn begins<T>(s: Seq<T>, p: Seq<T>) -> bool {
    p.len() <= s.len() && s.subrange(0, p.len() as int) == p
}

/// `p` is a final part of `s`.
pub open spec fn ends<T>(s: Seq<T>, p: Seq<T>) -> bool {
    p.len() <= s.len() && s.subrange(s.len() - p.len(), s.len() as int) == p
}

/// Compares two runs of characters.
pub(crate) fn same_chars(a: &[char], b: &[char]) -> (res: bool)
    ensures
        res == (a@ == b@),
{
    if a.len() != b.len() {
        return false;
    }
    let mut i: usize = 0;
    while i < a.len()
        invariant
            i <= a.len(),
            a.len() == b.len(),
            forall|j: int| 0 <= j < i ==> a@[j] == b@[j],
        decreases a.len() - i,
    {
        if a[i] != b[i] {
            return false;
        }
        i += 1;
    }
    assert(a@ =~= b@);
    true
}

/// Compares a run of characters with a string.
pub(crate) fn is_text(a: &[char], b: &str) -> (res: bool)
    ensures
        res == (a@ == b@),
{
    let cs: Vec<char> = chars_of(b);
    same_chars(a, cs.as_slice())
}

/// Compares two strings.
pub(crate) fn same_text(a: &str, b: &str) -> (res: bool)
    ensures
        res == (a@ == b@),
{
    let ca: Vec<char> = chars_of(a);
    is_text(ca.as_slice(), b)
}

/// Tells whether `s` begins with `p`.
pub(crate) fn starts_with(s: &[char], p: &str) -> (res: bool)
    ensures
        res == begins(s@, p@),
{
    let cs: Vec<char> = chars_of(p);
    if cs.len() <= s.len() {
        same_chars(slice_subrange(s, 0, cs.len()), cs.as_slice())
    } else {
        false
    }
}

/// Tells whether `s` ends with `p`.
pub(crate) fn ends_with(s: &[char], p: &str) -> (res: bool)
    ensures
        res == ends(s@, p@),
{
    let cs: Vec<char> = chars_of(p);
    if cs.len() <= s.len() {
        same_chars(slice_subrange(s, s.len() - cs.len(), s.len()), cs.as_slice())
    } else {
        false
    }
}

/// What follows the prefix `p` of `s`, if `s` begins with it.
pub open spec fn after_prefix(s: Seq<char>, p: Seq<char>) -> Option<Seq<char>> {
    if begins(s, p) {
        Some(s.skip(p.len() as int))
    } else {
        None
    }
}

pub(crate) fn strip_prefix<'a>(s: &'a [char], p: &str) -> (res: Option<&'a [char]>)
    ensures
        after_prefix(s@, p@) is None <==> res is None,
        res matches Some(r) ==> after_prefix(s@, p@) == Some(r@),
{
    if starts_with(s, p) {
        let n: usize = chars_of(p).len();
        let r = slice_subrange(s, n, s.len());
        assert(r@ =~= s@.skip(p@.len() as int));
        Some(r)
    } else {
        None
    }
}

/// `s` without its leading white space.
pub open spec fn trimmed_start(s: Seq<char>) -> Seq<char>
    decreases s.len(),
{
    if s.len() > 0 && is_white(s[0]) {
        trimmed_start(s.drop_first())
    } else {
        s
    }
}

/// `s` without its trailing white space.
pub open spec fn trimmed_end(s: Seq<char>) -> Seq<char>
    decreases s.len(),
{
    if s.len() > 0 && is_white(s.last()) {
        trimmed_end(s.drop_last())
    } else {
        s
    }
}

/// `s` without white space on either side.
pub open spec fn trimmed(s: Seq<char>) -> Seq<char> {
    trimmed_end(trimmed_start(s))
}

pub(crate) fn trim_start(s: &[char]) -> (res: &[char])
    ensures
        res@ == trimmed_start(s@),
{
    let mut i: usize = 0;
    assert(s@.subrange(0, s@.len() as int) =~= s@);
    while i < s.len() && is_whitespace(s[i])
        invariant
            i <= s.len(),
            trimmed_start(s@.subrange(i as int, s@.len() as int)) == trimmed_start(s@),
        decreases s.len() - i,
    {
        assert(s@.subrange(i as int, s@.len() as int).drop_first() =~= s@.subrange(
            i + 1,
            s@.len() as int,
        ));
        i += 1;
    }
    slice_subrange(s, i, s.len())
}

pub(crate) fn trim_end(s: &[char]) -> (res: &[char])
    ensures
        res@ == trimmed_end(s@),
{
    let mut i: usize = s.len();
    assert(s@.subrange(0, s@.len() as int) =~= s@);
    while i > 0 && is_whitespace(s[i - 1])
        invariant
            i <= s.len(),
            trimmed_end(s@.subrange(0, i as int)) == trimmed_end(s@),
        decreases i,
    {
        assert(s@.subrange(0, i as int).drop_last() =~= s@.subrange(0, i - 1));
        i -= 1;
    }
    slice_subrange(s, 0, i)
}

pub(crate) fn trim(s: &[char]) -> (res: &[char])
    ensures
        res@ == trimmed(s@),
{
    trim_end(trim_start(s))
}

/// A trimmed text neither begins nor ends with white space, and trimming it
/// again changes nothing.
pub proof fn trimming_is_idempotent(s: Seq<char>)
    ensures
        trimmed(trimmed(s)) == trimmed(s),
        trimmed(s).len() > 0 ==> !is_white(trimmed(s)[0]) && !is_white(trimmed(s).last()),
{
    let a = trimmed_start(s);
    lemma_trimmed_start_head(s);
    lemma_trimmed_end_keeps_head(a);
    lemma_trimmed_end_last(a);
}

proof fn lemma_trimmed_start_head(s: Seq<char>)
    ensures
        trimmed_start(s).len() > 0 ==> !is_white(trimmed_start(s)[0]),
        trimmed_start(s).len() <= s.len(),
    decreases s.len(),
{
    if s.len() > 0 && is_white(s[0]) {
        lemma_trimmed_start_head(s.drop_first());
    }
}

pub(crate) proof fn lemma_trimmed_end_last(s: Seq<char>)
    ensures
        trimmed_end(s).len() > 0 ==> !is_white(trimmed_end(s).last()),
        trimmed_end(s).len() <= s.len(),
    decreases s.len(),
{
    if s.len() > 0 && is_white(s.last()) {
        lemma_trimmed_end_last(s.drop_last());
    }
}

proof fn lemma_trimmed_end_keeps_head(s: Seq<char>)
    ensures
        trimmed_end(s).len() > 0 ==> s.len() > 0 && trimmed_end(s)[0] == s[0],
    decreases s.len(),
{
    if s.len() > 0 && is_white(s.last()) {
        lemma_trimmed_end_keeps_head(s.drop_last());
    }
}

// ---------------------------------------------------------------------------
// Searching
// ---------------------------------------------------------------------------

/// The number of items before the first `x` in `s`; all of them if there is
/// none.
pub open spec fn until<T>(s: Seq<T>, x: T) -> nat
    decreases s.len(),
{
    if s.len() == 0 || s[0] == x {
        0
    } else {
        1 + until(s.drop_first(), x)
    }
}

/// `until` is the first position that holds `x`, or the length.
pub proof fn until_is_first<T>(s: Seq<T>, x: T)
    ensures
        until(s, x) <= s.len(),
        until(s, x) < s.len() ==> s[until(s, x) as int] == x,
        forall|j: int| 0 <= j < until(s, x) ==> s[j] != x,
    decreases s.len(),
{
    if s.len() == 0 || s[0] == x {
    } else {
        until_is_first(s.drop_first(), x);
        assert forall|j: int| 0 <= j < until(s, x) implies s[j] != x by {
            if j > 0 {
                assert(s.drop_first()[j - 1] == s[j]);
            }
        }
    }
}

pub(crate) proof fn lemma_until_at<T>(s: Seq<T>, x: T, i: int)
    requires
        0 <= i <= s.len(),
        forall|j: int| 0 <= j < i ==> s[j] != x,
        i < s.len() ==> s[i] == x,
    ensures
        until(s, x) == i,
{
    until_is_first(s, x);
}

pub(crate) fn find_char(s: &[char], c: char) -> (res: usize)
    ensures
        res == until(s@, c),
        res <= s.len(),
{
    let mut i: usize = 0;
    while i < s.len() && s[i] != c
        invariant
            i <= s.len(),
            forall|j: int| 0 <= j < i ==> s@[j] != c,
        decreases s.len() - i,
    {
        i += 1;
    }
    proof {
        lemma_until_at(s@, c, i as int);
    }
    i
}

/// Calls `memchr::memchr`: the first position of `needle` in `haystack`.
#[verifier::external_body]
pub(crate) fn first_byte(needle: u8, haystack: &[u8]) -> (res: Option<usize>)
    ensures
        res matches Some(i) ==> i < haystack@.len() && haystack@[i as int] == needle && forall|j: int|
            0 <= j < i ==> haystack@[j] != needle,
        res is None ==> forall|j: int| 0 <= j < haystack@.len() ==> haystack@[j] != needle,
{
    memchr::memchr(needle, haystack)
}

pub(crate) fn find_byte(s: &[u8], c: u8) -> (res: usize)
    ensures
        res == until(s@, c),
        res <= s.len(),
{
    match first_byte(c, s) {
        Some(i) => {
            proof {
                lemma_until_at(s@, c, i as int);
            }
            i
        },
        None => {
            proof {
                lemma_until_at(s@, c, s@.len() as int);
            }
            s.len()
        },
    }
}

/// `p` stands in `s` at position `i`.
pub open spec fn stands_at(s: Seq<char>, p: Seq<char>, i: int) -> bool {
    0 <= i <= s.len() - p.len() && s.subrange(i, i + p.len()) == p
}

/// `p` stands somewhere in `s`.
pub open spec fn contains(s: Seq<char>, p: Seq<char>) -> bool {
    exists|i: int| stands_at(s, p, i)
}

/// The first position at which `p` stands in `s`.
pub open spec fn is_first_at(s: Seq<char>, p: Seq<char>, i: int) -> bool {
    stands_at(s, p, i) && forall|j: int| 0 <= j < i ==> !stands_at(s, p, j)
}

pub(crate) fn find_text(s: &[char], p: &str) -> (res: Option<usize>)
    ensures
        res matches Some(i) ==> is_first_at(s@, p@, i as int),
        res is None ==> !contains(s@, p@),
{
    let cs: Vec<char> = chars_of(p);
    if cs.len() > s.len() {
        return None;
    }
    let mut i: usize = 0;
    while i <= s.len() - cs.len()
        invariant
            cs@ == p@,
            cs.len() <= s.len(),
            i <= s.len() - cs.len() + 1,
            forall|j: int| 0 <= j < i ==> !stands_at(s@, p@, j),
        decreases s.len() + 1 - i,
    {
        if same_chars(slice_subrange(s, i, i + cs.len()), cs.as_slice()) {
            return Some(i);
        }
        proof {
            if cs.len() == 0 {
                assert(s@.subrange(i as int, i as int) =~= cs@);
            }
        }
        i += 1;
    }
    None
}

pub(crate) fn has_text(s: &[char], p: &str) -> (res: bool)
    ensures
        res == contains(s@, p@),
{
    find_text(s, p).is_some()
}

/// Tells whether `c` occurs in `s`.
pub(crate) fn has_char(s: &[char], c: char) -> (res: bool)
    ensures
        res == s@.contains(c),
{
    let i: usize = find_char(s, c);
    proof {
        until_is_first(s@, c);
    }
    i < s.len()
}

// ---------------------------------------------------------------------------
// Splitting and joining
// ---------------------------------------------------------------------------

/// The parts of `s` between the separators `x`.
pub open spec fn split_on<T>(s: Seq<T>, x: T) -> Seq<Seq<T>>
    decreases s.len(),
{
    let i = until(s, x);
    if i >= s.len() {
        seq![s]
    } else {
        seq![s.take(i as int)] + split_on(s.skip(i as int + 1), x)
    }
}

/// There is one part, and one more for every separator.
pub proof fn split_has_parts<T>(s: Seq<T>, x: T)
    ensures
        split_on(s, x).len() >= 1,
        s.contains(x) <==> split_on(s, x).len() >= 2,
    decreases s.len(),
{
    until_is_first(s, x);
    let i = until(s, x);
    if i < s.len() {
        split_has_parts(s.skip(i as int + 1), x);
    }
}

/// A separator at the end begins an empty part; anything else at the end goes
/// to the last part.
pub proof fn split_grows<T>(s: Seq<T>, b: T, x: T)
    ensures
        b == x ==> split_on(s.push(b), x) == split_on(s, x).push(seq![]),
        b != x ==> split_on(s.push(b), x) == split_on(s, x).drop_last().push(
            split_on(s, x).last().push(b),
        ),
    decreases s.len(),
{
    until_is_first(s, x);
    split_has_parts(s, x);
    let t = s.push(b);
    let i = until(s, x) as int;
    if i >= s.len() {
        if b == x {
            lemma_until_at(t, x, s.len() as int);
            assert(t.take(s.len() as int) =~= s);
            assert(t.skip(s.len() as int + 1) =~= seq![]);
            lemma_until_at(Seq::<T>::empty(), x, 0);
            assert(split_on(Seq::<T>::empty(), x) =~= seq![seq![]]);
            assert(split_on(t, x) =~= seq![s, seq![]]);
        } else {
            lemma_until_at(t, x, t.len() as int);
            assert(split_on(t, x) =~= seq![t]);
            assert(split_on(s, x) =~= seq![s]);
            assert(split_on(s, x).drop_last() =~= seq![]);
        }
    } else {
        lemma_until_at(t, x, i);
        let rest = s.skip(i + 1);
        split_grows(rest, b, x);
        split_has_parts(rest, x);
        assert(t.take(i) =~= s.take(i));
        assert(t.skip(i + 1) =~= rest.push(b));
        if b == x {
            assert(split_on(t, x) =~= split_on(s, x).push(seq![]));
        } else {
            assert(split_on(t, x) =~= split_on(s, x).drop_last().push(
                split_on(s, x).last().push(b),
            ));
        }
    }
}

/// The parts as sequences.
pub open spec fn views<T>(parts: Seq<&[T]>) -> Seq<Seq<T>> {
    Seq::new(parts.len(), |i: int| parts[i]@)
}

pub(crate) fn split_chars<'a>(s: &'a [char], x: char) -> (res: Vec<&'a [char]>)
    ensures
        views(res@) == split_on(s@, x),
        res.len() > 0,
{
    let mut out: Vec<&'a [char]> = Vec::new();
    let mut from: usize = 0;
    assert(s@.skip(0) =~= s@);
    loop
        invariant
            from <= s.len(),
            views(out@) + split_on(s@.skip(from as int), x) == split_on(s@, x),
        decreases s.len() - from,
    {
        let rest = slice_subrange(s, from, s.len());
        assert(rest@ =~= s@.skip(from as int));
        let i: usize = find_char(rest, x);
        if i >= rest.len() {
            out.push(rest);
            assert(views(out@) =~= split_on(s@, x));
            return out;
        }
        let ghost before = views(out@);
        out.push(slice_subrange(rest, 0, i));
        assert(views(out@) =~= before.push(rest@.take(i as int)));
        assert(rest@.skip(i + 1) =~= s@.skip(from + i + 1));
        assert(views(out@) + split_on(s@.skip(from + i + 1), x) =~= before + (seq![
            rest@.take(i as int),
        ] + split_on(s@.skip(from + i + 1), x)));
        from = from + i + 1;
    }
}

pub(crate) fn split_bytes<'a>(s: &'a [u8], x: u8) -> (res: Vec<&'a [u8]>)
    ensures
        views(res@) == split_on(s@, x),
        res.len() > 0,
{
    let mut out: Vec<&'a [u8]> = Vec::new();
    let mut from: usize = 0;
    assert(s@.skip(0) =~= s@);
    loop
        invariant
            from <= s.len(),
            views(out@) + split_on(s@.skip(from as int), x) == split_on(s@, x),
        decreases s.len() - from,
    {
        let rest = slice_subrange(s, from, s.len());
        assert(rest@ =~= s@.skip(from as int));
        let i: usize = find_byte(rest, x);
        if i >= rest.len() {
            out.push(rest);
            assert(views(out@) =~= split_on(s@, x));
            return out;
        }
        let ghost before = views(out@);
        out.push(slice_subrange(rest, 0, i));
        assert(views(out@) =~= before.push(rest@.take(i as int)));
        assert(rest@.skip(i + 1) =~= s@.skip(from + i + 1));
        assert(views(out@) + split_on(s@.skip(from + i + 1), x) =~= before + (seq![
            rest@.take(i as int),
        ] + split_on(s@.skip(from + i + 1), x)));
        from = from + i + 1;
    }
}

/// The length of the first run of characters that are not white space.
pub open spec fn word_len(s: Seq<char>) -> nat
    decreases s.len(),
{
    if s.len() == 0 || is_white(s[0]) {
        0
    } else {
        1 + word_len(s.drop_first())
    }
}

/// The maximal runs of characters that are not white space.
pub open spec fn words(s: Seq<char>) -> Seq<Seq<char>>
    decreases s.len(), 1int,
{
    let t = trimmed_start(s);
    if t.len() == 0 || t.len() > s.len() {
        seq![]
    } else {
        words_from(t)
    }
}

/// The words of a text that begins with one.
pub open spec fn words_from(t: Seq<char>) -> Seq<Seq<char>>
    decreases t.len(), 0int,
{
    let n = word_len(t);
    if n == 0 || n > t.len() {
        seq![]
    } else {
        seq![t.take(n as int)] + words(t.skip(n as int))
    }
}

pub(crate) proof fn lemma_word_len(s: Seq<char>, i: int)
    requires
        0 <= i <= s.len(),
        forall|j: int| 0 <= j < i ==> !is_white(s[j]),
        i < s.len() ==> is_white(s[i]),
    ensures
        word_len(s) == i,
    decreases s.len(),
{
    if s.len() > 0 && i > 0 {
        assert forall|j: int| 0 <= j < i - 1 implies !is_white(s.drop_first()[j]) by {
            assert(s.drop_first()[j] == s[j + 1]);
        }
        lemma_word_len(s.drop_first(), i - 1);
    }
}

pub(crate) fn split_words<'a>(s: &'a [char]) -> (res: Vec<&'a [char]>)
    ensures
        views(res@) == words(s@),
{
    let mut out: Vec<&'a [char]> = Vec::new();
    let mut from: usize = 0;
    assert(s@.skip(0) =~= s@);
    assert(views(out@) + words(s@) =~= words(s@));
    loop
        invariant
            from <= s.len(),
            views(out@) + words(s@.skip(from as int)) == words(s@),
        decreases s.len() - from,
    {
        let rest = slice_subrange(s, from, s.len());
        assert(rest@ =~= s@.skip(from as int));
        let t = trim_start(rest);
        proof {
            lemma_trimmed_start_head(rest@);
            lemma_trimmed_start_suffix(rest@);
        }
        if t.len() == 0 {
            assert(views(out@) =~= words(s@));
            return out;
        }
        let mut n: usize = 0;
        while n < t.len() && !is_whitespace(t[n])
            invariant
                n <= t.len(),
                forall|j: int| 0 <= j < n ==> !is_white(t@[j]),
            decreases t.len() - n,
        {
            n += 1;
        }
        proof {
            lemma_word_len(t@, n as int);
            assert(n > 0);
        }
        let ghost before = views(out@);
        out.push(slice_subrange(t, 0, n));
        let next: usize = s.len() - (t.len() - n);
        proof {
            assert(views(out@) =~= before.push(t@.take(n as int)));
            assert(t@ =~= rest@.skip(rest@.len() - t@.len()));
            assert(t@.skip(n as int) =~= s@.skip(next as int));
            assert(words(rest@) == words_from(t@));
            assert(views(out@) + words(s@.skip(next as int)) =~= before + (seq![t@.take(n as int)]
                + words(t@.skip(n as int))));
        }
        from = next;
    }
}

proof fn lemma_trimmed_start_suffix(s: Seq<char>)
    ensures
        trimmed_start(s).len() <= s.len(),
        trimmed_start(s) == s.skip(s.len() - trimmed_start(s).len()),
    decreases s.len(),
{
    if s.len() > 0 && is_white(s[0]) {
        lemma_trimmed_start_suffix(s.drop_first());
        let t = trimmed_start(s);
        assert(t =~= s.skip(s.len() - t.len()));
    } else {
        assert(s =~= s.skip(0));
    }
}

/// The parts, with `sep` between each two of them.
pub open spec fn joined<T>(parts: Seq<Seq<T>>, sep: Seq<T>) -> Seq<T>
    decreases parts.len(),
{
    if parts.len() == 0 {
        seq![]
    } else if parts.len() == 1 {
        parts[0]
    } else {
        joined(parts.drop_last(), sep) + sep + parts.last()
    }
}

/// Splitting what was joined gives the parts back, if none of them holds the
/// separator.
pub proof fn split_undoes_join<T>(parts: Seq<Seq<T>>, x: T)
    requires
        parts.len() > 0,
        forall|i: int, j: int|
            0 <= i < parts.len() && 0 <= j < parts[i].len() ==> #[trigger] parts[i][j] != x,
    ensures
        split_on(joined(parts, seq![x]), x) == parts,
    decreases parts.len(),
{
    let s = joined(parts, seq![x]);
    let head = parts[0];
    let tail = parts.drop_first();
    lemma_joined_front(parts, seq![x]);
    if parts.len() == 1 {
        lemma_until_at(s, x, s.len() as int);
        assert(split_on(s, x) =~= parts);
    } else {
        let rest = joined(tail, seq![x]);
        assert(s[head.len() as int] == x);
        assert forall|j: int| 0 <= j < head.len() implies s[j] != x by {
            assert(s[j] == parts[0][j]);
        }
        lemma_until_at(s, x, head.len() as int);
        assert(s.take(head.len() as int) =~= head);
        assert(s.skip(head.len() as int + 1) =~= rest);
        assert forall|i: int, j: int|
            0 <= i < tail.len() && 0 <= j < tail[i].len() implies #[trigger] tail[i][j] != x by {
            assert(tail[i][j] == parts[i + 1][j]);
        }
        split_undoes_join(tail, x);
        assert(split_on(s, x) =~= parts);
    }
}

pub(crate) proof fn lemma_joined_front<T>(parts: Seq<Seq<T>>, sep: Seq<T>)
    requires
        parts.len() > 0,
    ensures
        parts.len() == 1 ==> joined(parts, sep) == parts[0],
        parts.len() > 1 ==> joined(parts, sep) == parts[0] + sep + joined(parts.drop_first(), sep),
    decreases parts.len(),
{
    if parts.len() == 2 {
        assert(parts.drop_last() =~= seq![parts[0]]);
        assert(parts.drop_first() =~= seq![parts[1]]);
        assert(joined(parts.drop_last(), sep) == parts[0]);
        assert(joined(parts.drop_first(), sep) == parts[1]);
        assert(joined(parts, sep) =~= parts[0] + sep + joined(parts.drop_first(), sep));
    } else if parts.len() > 2 {
        lemma_joined_front(parts.drop_last(), sep);
        assert(parts.drop_first().drop_last() =~= parts.drop_last().drop_first());
        assert(joined(parts, sep) =~= parts[0] + sep + joined(parts.drop_first(), sep));
    }
}

pub(crate) proof fn lemma_join_split<T>(s: Seq<T>, x: T)
    ensures
        joined(split_on(s, x), seq![x]) == s,
    decreases s.len(),
{
    until_is_first(s, x);
    let i = until(s, x) as int;
    let parts = split_on(s, x);
    if i < s.len() {
        let rest = s.skip(i + 1);
        lemma_join_split(rest, x);
        split_has_parts(rest, x);
        lemma_joined_front(parts, seq![x]);
        assert(parts.drop_first() =~= split_on(rest, x));
        assert(joined(parts, seq![x]) =~= s);
    } else {
        assert(joined(parts, seq![x]) =~= s);
    }
}

pub(crate) proof fn lemma_split_parts<T>(s: Seq<T>, x: T, i: int, j: int)
    requires
        0 <= i < split_on(s, x).len(),
        0 <= j < split_on(s, x)[i].len(),
    ensures
        split_on(s, x)[i][j] != x,
        s.contains(split_on(s, x)[i][j]),
    decreases s.len(),
{
    until_is_first(s, x);
    let k = until(s, x) as int;
    if k < s.len() {
        if i == 0 {
            assert(split_on(s, x)[0] == s.take(k));
            assert(s.take(k)[j] == s[j]);
        } else {
            let rest = s.skip(k + 1);
            lemma_split_parts(rest, x, i - 1, j);
            let b = split_on(s, x)[i][j];
            let m = choose|m: int| 0 <= m < rest.len() && rest[m] == b;
            assert(s[m + k + 1] == b);
        }
    } else {
        assert(split_on(s, x)[0] == s);
    }
}

/// The character sequences of a list of strings.
pub open spec fn texts(parts: Seq<String>) -> Seq<Seq<char>> {
    Seq::new(parts.len(), |i: int| parts[i]@)
}

pub(crate) fn join_strings(parts: &[String], sep: &str) -> (res: Vec<char>)
    ensures
        res@ == joined(texts(parts@), sep@),
{
    let mut out: Vec<char> = Vec::new();
    let mut i: usize = 0;
    assert(texts(parts@).take(0) =~= seq![]);
    while i < parts.len()
        invariant
            i <= parts.len(),
            out@ == joined(texts(parts@).take(i as int), sep@),
        decreases parts.len() - i,
    {
        if i > 0 {
            push_text(&mut out, sep);
        }
        push_text(&mut out, parts[i].as_str());
        proof {
            let t = texts(parts@).take(i + 1);
            assert(t.drop_last() =~= texts(parts@).take(i as int));
            assert(t.last() == parts@[i as int]@);
            if i == 0 {
                assert(out@ =~= t[0]);
            }
        }
        i += 1;
    }
    assert(texts(parts@).take(i as int) =~= texts(parts@));
    out
}

pub(crate) fn join_slices(parts: &[&[char]], sep: &str) -> (res: Vec<char>)
    ensures
        res@ == joined(views(parts@), sep@),
{
    let mut out: Vec<char> = Vec::new();
    let mut i: usize = 0;
    assert(views(parts@).take(0) =~= seq![]);
    while i < parts.len()
        invariant
            i <= parts.len(),
            out@ == joined(views(parts@).take(i as int), sep@),
        decreases parts.len() - i,
    {
        if i > 0 {
            push_text(&mut out, sep);
        }
        push_chars(&mut out, parts[i]);
        proof {
            let t = views(parts@).take(i + 1);
            assert(t.drop_last() =~= views(parts@).take(i as int));
            assert(t.last() == parts@[i as int]@);
            if i == 0 {
                assert(out@ =~= t[0]);
            }
        }
        i += 1;
    }
    assert(views(parts@).take(i as int) =~= views(parts@));
    out
}

/// `s` with every `c` replaced by `by`.
pub open spec fn replaced(s: Seq<char>, c: char, by: Seq<char>) -> Seq<char>
    decreases s.len(),
{
    if s.len() == 0 {
        seq![]
    } else {
        replaced(s.drop_last(), c, by) + (if s.last() == c {
            by
        } else {
            seq![s.last()]
        })
    }
}

pub(crate) fn replace_char(s: &[char], c: char, by: &str) -> (res: Vec<char>)
    ensures
        res@ == replaced(s@, c, by@),
{
    let mut out: Vec<char> = Vec::new();
    let mut i: usize = 0;
    while i < s.len()
        invariant
            i <= s.len(),
            out@ == replaced(s@.take(i as int), c, by@),
        decreases s.len() - i,
    {
        proof {
            assert(s@.take(i + 1).drop_last() =~= s@.take(i as int));
        }
        if s[i] == c {
            push_text(&mut out, by);
        } else {
            out.push(s[i]);
            assert(out@ =~= replaced(s@.take(i as int), c, by@) + seq![s@[i as int]]);
        }
        i += 1;
    }
    assert(s@.take(i as int) =~= s@);
    out
}

// ---------------------------------------------------------------------------
// Decimal notation
// ---------------------------------------------------------------------------

/// `c` is an ASCII digit.
pub open spec fn is_digit(c: char) -> bool {
    '0' <= c <= '9'
}

/// The value of an ASCII digit.
pub open spec fn digit_value(c: char) -> nat {
    (c as u32 - '0' as u32) as nat
}

/// The digit of value `d`.
pub open spec fn digit_char(d: nat) -> char {
    (48 + d) as char
}

/// Every character of `s` is an ASCII digit.
pub open spec fn all_digits(s: Seq<char>) -> bool {
    forall|i: int| 0 <= i < s.len() ==> is_digit(#[trigger] s[i])
}

/// The number that a run of digits denotes.
pub open spec fn digits_value(s: Seq<char>) -> nat
    decreases s.len(),
{
    if s.len() == 0 {
        0
    } else {
        digits_value(s.drop_last()) * 10 + digit_value(s.last())
    }
}

/// The decimal notation of `n`.
pub open spec fn decimal(n: nat) -> Seq<char>
    decreases n,
{
    if n < 10 {
        seq![digit_char(n)]
    } else {
        decimal(n / 10).push(digit_char(n % 10))
    }
}

/// The decimal notation of an integer, with a sign if it is negative.
pub open spec fn signed_decimal(n: int) -> Seq<char> {
    if n < 0 {
        seq!['-'] + decimal((-n) as nat)
    } else {
        decimal(n as nat)
    }
}

/// Reading the decimal notation of a number gives the number back.
pub proof fn decimal_reads_back(n: nat)
    ensures
        decimal(n).len() > 0,
        all_digits(decimal(n)),
        digits_value(decimal(n)) == n,
    decreases n,
{
    if n < 10 {
        let s = decimal(n);
        assert(s.drop_last() =~= seq![]);
        assert(digits_value(s.drop_last()) == 0);
        assert(digit_value(s.last()) == n);
    } else {
        decimal_reads_back(n / 10);
        let s = decimal(n);
        assert(s.drop_last() =~= decimal(n / 10));
        assert(digit_value(s.last()) == n % 10);
    }
}

/// The number that a text denotes, if it is a sign `+` or nothing, followed by
/// digits, and at most `max`.
pub open spec fn unsigned(s: Seq<char>, max: nat) -> Option<nat> {
    let body = if s.len() > 0 && s[0] == '+' {
        s.drop_first()
    } else {
        s
    };
    if body.len() > 0 && all_digits(body) && digits_value(body) <= max {
        Some(digits_value(body))
    } else {
        None
    }
}

/// The integer that a text denotes, if it is a sign or nothing, followed by
/// digits, and within the range of `i32`.
pub open spec fn signed32(s: Seq<char>) -> Option<int> {
    if s.len() > 0 && s[0] == '-' {
        let body = s.drop_first();
        if body.len() > 0 && all_digits(body) && digits_value(body) <= 0x8000_0000 {
            Some(-(digits_value(body) as int))
        } else {
            None
        }
    } else {
        match unsigned(s, 0x7fff_ffff) {
            Some(n) => Some(n as int),
            None => None,
        }
    }
}

proof fn lemma_digits_value_grows(s: Seq<char>, i: int)
    requires
        0 <= i <= s.len(),
        all_digits(s),
    ensures
        digits_value(s.take(i)) <= digits_value(s),
    decreases s.len() - i,
{
    if i == s.len() {
        assert(s.take(i) =~= s);
    } else {
        lemma_digits_value_grows(s, i + 1);
        assert(s.take(i + 1).drop_last() =~= s.take(i));
    }
}

/// The value of a run of digits, if it is nonempty and at most `max`.
fn read_digits(s: &[char], max: u32) -> (res: Option<u32>)
    ensures
        res matches Some(n) ==> s@.len() > 0 && all_digits(s@) && n == digits_value(s@) && n <= max,
        res is None ==> !(s@.len() > 0 && all_digits(s@) && digits_value(s@) <= max),
{
    if s.len() == 0 {
        return None;
    }
    let mut n: u64 = 0;
    let mut i: usize = 0;
    while i < s.len()
        invariant
            i <= s.len(),
            n == digits_value(s@.take(i as int)),
            n <= max,
            all_digits(s@.take(i as int)),
        decreases s.len() - i,
    {
        let c: char = s[i];
        if !('0' <= c && c <= '9') {
            assert(!is_digit(s@[i as int]));
            return None;
        }
        proof {
            assert(s@.take(i + 1).drop_last() =~= s@.take(i as int));
            assert(s@.take(i + 1).last() == c);
            assert forall|j: int| 0 <= j < i + 1 implies is_digit(#[trigger] s@.take(i + 1)[j]) by {
                if j < i {
                    assert(s@.take(i as int)[j] == s@[j]);
                }
            }
        }
        n = n * 10 + ((c as u32) - 48) as u64;
        if n > max as u64 {
            proof {
                if all_digits(s@) {
                    lemma_digits_value_grows(s@, i + 1);
                }
            }
            return None;
        }
        i += 1;
    }
    assert(s@.take(i as int) =~= s@);
    Some(n as u32)
}

/// Reads a `u32` in decimal notation.
pub(crate) fn parse_u32(s: &[char]) -> (res: Option<u32>)
    ensures
        res matches Some(n) ==> unsigned(s@, u32::MAX as nat) == Some(n as nat),
        res is None ==> unsigned(s@, u32::MAX as nat) is None,
{
    if s.len() > 0 && s[0] == '+' {
        let body = slice_subrange(s, 1, s.len());
        assert(body@ =~= s@.drop_first());
        read_digits(body, u32::MAX)
    } else {
        read_digits(s, u32::MAX)
    }
}

/// Reads an `i32` in decimal notation.
pub(crate) fn parse_i32(s: &[char]) -> (res: Option<i32>)
    ensures
        res matches Some(n) ==> signed32(s@) == Some(n as int),
        res is None ==> signed32(s@) is None,
{
    if s.len() > 0 && s[0] == '-' {
        let body = slice_subrange(s, 1, s.len());
        assert(body@ =~= s@.drop_first());
        match read_digits(body, 0x8000_0000) {
            Some(n) => Some((0 - (n as i64)) as i32),
            None => None,
        }
    } else if s.len() > 0 && s[0] == '+' {
        let body = slice_subrange(s, 1, s.len());
        assert(body@ =~= s@.drop_first());
        match read_digits(body, 0x7fff_ffff) {
            Some(n) => Some(n as i32),
            None => None,
        }
    } else {
        match read_digits(s, 0x7fff_ffff) {
            Some(n) => Some(n as i32),
            None => None,
        }
    }
}

/// Appends the decimal notation of `n`.
pub(crate) fn push_wide_decimal(out: &mut Vec<char>, n: u128)
    ensures
        final(out)@ == old(out)@ + decimal(n as nat),
    decreases n,
{
    let ghost before = out@;
    if n < 10 {
        out.push((48 + n as u8) as char);
        assert(out@ =~= before + decimal(n as nat));
    } else {
        push_wide_decimal(out, n / 10);
        out.push((48 + (n % 10) as u8) as char);
        assert(out@ =~= before + decimal(n as nat));
    }
}

/// Appends the decimal notation of `n`.
pub(crate) fn push_decimal(out: &mut Vec<char>, n: u64)
    ensures
        final(out)@ == old(out)@ + decimal(n as nat),
{
    push_wide_decimal(out, n as u128);
}

/// Appends the decimal notation of an `i32`.
pub(crate) fn push_signed(out: &mut Vec<char>, n: i32)
    ensures
        final(out)@ == old(out)@ + signed_decimal(n as int),
{
    let ghost before = out@;
    if n < 0 {
        out.push('-');
        push_decimal(out, (0 - (n as i64)) as u64);
        assert(out@ =~= before + signed_decimal(n as int));
    } else {
        push_decimal(out, n as u64);
    }
}

/// Bytes read as the characters of the same number.
pub open spec fn widened(s: Seq<u8>) -> Seq<char> {
    Seq::new(s.len(), |i: int| s[i] as char)
}

/// ASCII bytes are the UTF-8 form of the characters of the same number.
pub proof fn ascii_bytes_are_utf8(s: Seq<u8>)
    requires
        forall|i: int| 0 <= i < s.len() ==> #[trigger] s[i] < 0x80,
    ensures
        vstd::utf8::encode_utf8(widened(s)) == s,
{
    let w = widened(s);
    assert forall|i: int| 0 <= i < w.len() implies '\0' <= #[trigger] w[i] <= '\u{7f}' by {
        assert(s[i] < 0x80);
    }
    vstd::utf8::is_ascii_chars_encode_utf8(w);
    assert forall|i: int| 0 <= i < s.len() implies vstd::utf8::encode_utf8(w)[i] == s[i] by {
        assert(s[i] < 0x80);
        assert(w[i] as u8 == s[i]);
    }
    assert(vstd::utf8::encode_utf8(w) =~= s);
}

pub(crate) fn widen(s: &[u8]) -> (res: Vec<char>)
    ensures
        res@ == widened(s@),
{
    let mut out: Vec<char> = Vec::new();
    let mut i: usize = 0;
    while i < s.len()
        invariant
            i <= s.len(),
            out@ == widened(s@).take(i as int),
        decreases s.len() - i,
    {
        out.push(s[i] as char);
        assert(out@ =~= widened(s@).take(i + 1));
        i += 1;
    }
    assert(widened(s@).take(i as int) =~= widened(s@));
    out
}

// ---------------------------------------------------------------------------
// Lines
// ---------------------------------------------------------------------------

/// A line without the carriage return before its line feed.
pub open spec fn chomped(s: Seq<char>) -> Seq<char> {
    if s.len() > 0 && s.last() == '\r' {
        s.drop_last()
    } else {
        s
    }
}

/// The lines of a text, each ended by a line feed or by a carriage return and
/// a line feed; the last one may lack its end.
pub open spec fn lines(s: Seq<char>) -> Seq<Seq<char>> {
    let parts = split_on(s, '\n');
    let ended = Seq::new((parts.len() - 1) as nat, |i: int| chomped(parts[i]));
    if parts.last().len() == 0 {
        ended
    } else {
        ended.push(parts.last())
    }
}

pub(crate) fn split_lines<'a>(s: &'a [char]) -> (res: Vec<&'a [char]>)
    ensures
        views(res@) == lines(s@),
{
    let parts: Vec<&[char]> = split_chars(s, '\n');
    let ghost all = views(parts@);
    let ghost ended = Seq::new((all.len() - 1) as nat, |i: int| chomped(all[i]));
    let mut out: Vec<&'a [char]> = Vec::new();
    let mut i: usize = 0;
    assert(views(out@) =~= ended.take(0));
    while i < parts.len() - 1
        invariant
            parts.len() > 0,
            i <= parts.len() - 1,
            all == views(parts@),
            ended == Seq::new((all.len() - 1) as nat, |i: int| chomped(all[i])),
            views(out@) == ended.take(i as int),
        decreases parts.len() - i,
    {
        let part: &'a [char] = parts[i];
        assert(all[i as int] == part@);
        let ghost before = views(out@);
        let line: &'a [char] = if part.len() > 0 && part[part.len() - 1] == '\r' {
            slice_subrange(part, 0, part.len() - 1)
        } else {
            part
        };
        assert(line@ =~= chomped(part@));
        out.push(line);
        assert(views(out@) =~= before.push(line@));
        assert(ended.take(i + 1) =~= ended.take(i as int).push(ended[i as int]));
        i += 1;
    }
    assert(ended.take(i as int) =~= ended);
    let last: &'a [char] = parts[parts.len() - 1];
    assert(all.last() == last@);
    if last.len() > 0 {
        let ghost before = views(out@);
        out.push(last);
        assert(views(out@) =~= before.push(last@));
    }
    out
}

/// Every character of the text is white space.
pub open spec fn all_white(s: Seq<char>) -> bool {
    trimmed(s).len() == 0
}

pub(crate) fn is_all_white(s: &[char]) -> (res: bool)
    ensures
        res == all_white(s@),
{
    trim(s).len() == 0
}

// ---------------------------------------------------------------------------
// Byte offsets
// ---------------------------------------------------------------------------

/// The number of bytes of a character in UTF-8.
pub open spec fn utf8_len(c: char) -> nat {
    if c <= '\u{7f}' {
        1
    } else if c <= '\u{7ff}' {
        2
    } else if c <= '\u{ffff}' {
        3
    } else {
        4
    }
}

pub(crate) fn char_bytes(c: char) -> (res: u128)
    ensures
        res == utf8_len(c),
        1 <= res <= 4,
{
    if c <= '\u{7f}' {
        1
    } else if c <= '\u{7ff}' {
        2
    } else if c <= '\u{ffff}' {
        3
    } else {
        4
    }
}

/// The number of bytes before the character at position `i`.
pub open spec fn byte_at(s: Seq<char>, i: int) -> nat
    decreases i,
{
    if i <= 0 {
        0
    } else {
        byte_at(s, i - 1) + utf8_len(s[i - 1])
    }
}

/// Later characters begin at later bytes.
pub proof fn byte_at_grows(s: Seq<char>, i: int, j: int)
    requires
        0 <= i < j,
    ensures
        byte_at(s, i) < byte_at(s, j),
    decreases j,
{
    if j > i + 1 {
        byte_at_grows(s, i, j - 1);
    }
}

/// The number of characters that begin before byte `b`.
pub open spec fn chars_before(s: Seq<char>, b: nat, n: int) -> nat
    decreases n,
{
    if n <= 0 {
        0
    } else {
        chars_before(s, b, n - 1) + (if byte_at(s, n - 1) < b {
            1nat
        } else {
            0nat
        })
    }
}

pub(crate) fn count_before(s: &[char], b: usize) -> (res: usize)
    ensures
        res == chars_before(s@, b as nat, s@.len() as int),
        res <= s@.len(),
{
    let mut n: usize = 0;
    let mut offset: u128 = 0;
    let mut i: usize = 0;
    while i < s.len()
        invariant
            n <= i <= s.len(),
            offset == byte_at(s@, i as int),
            offset <= 4 * i,
            n == chars_before(s@, b as nat, i as int),
        decreases s.len() - i,
    {
        if offset < b as u128 {
            n += 1;
        }
        offset = offset + char_bytes(s[i]);
        i += 1;
    }
    n
}

/// The byte at which the character at position `i` begins, or the number of
/// all bytes.
pub(crate) fn offset_of(s: &[char], i: usize) -> (res: u128)
    ensures
        res == byte_at(
            s@,
            if i <= s@.len() {
                i as int
            } else {
                s@.len() as int
            },
        ),
{
    let mut offset: u128 = 0;
    let mut k: usize = 0;
    while k < s.len() && k < i
        invariant
            k <= s.len(),
            k <= i,
            offset == byte_at(s@, k as int),
            offset <= 4 * k,
        decreases s.len() - k,
    {
        offset = offset + char_bytes(s[k]);
        k += 1;
    }
    offset
}

/// The number of bytes of a text in UTF-8.
pub open spec fn byte_len(s: Seq<char>) -> nat {
    byte_at(s, s.len() as int)
}

/// The number of characters, of the first `n`, that end within the first `b`
/// bytes.
pub open spec fn chars_within(s: Seq<char>, b: nat, n: int) -> nat
    decreases n,
{
    if n <= 0 {
        0
    } else if byte_at(s, n) <= b {
        n as nat
    } else {
        chars_within(s, b, n - 1)
    }
}

pub(crate) fn count_within(s: &[char], b: usize) -> (res: usize)
    ensures
        res == chars_within(s@, b as nat, s@.len() as int),
        res <= s@.len(),
        byte_at(s@, res as int) <= b,
{
    let mut offset: u128 = 0;
    let mut i: usize = 0;
    while i < s.len() && offset + char_bytes(s[i]) <= b as u128
        invariant
            i <= s.len(),
            offset == byte_at(s@, i as int),
            offset <= b,
            offset <= 4 * i,
        decreases s.len() - i,
    {
        offset = offset + char_bytes(s[i]);
        i += 1;
    }
    proof {
        lemma_within(s@, b as nat, i as int, s@.len() as int);
    }
    i
}

pub(crate) proof fn lemma_within(s: Seq<char>, b: nat, k: int, n: int)
    requires
        0 <= k <= n,
        byte_at(s, k) <= b,
        k < n ==> byte_at(s, k + 1) > b,
    ensures
        chars_within(s, b, n) == k,
    decreases n,
{
    if n > k {
        if n > k + 1 {
            byte_at_grows(s, k + 1, n);
        }
        lemma_within(s, b, k, n - 1);
    }
}

} // verus!
