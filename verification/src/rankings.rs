//! Which of two things comes first, told of their names and scores, and how
//! numbers are written.

use vstd::prelude::*;

use crate::dialogs::FamilyName;
use crate::file_tree::DirEntry;
use crate::order::Rank;
use crate::palette::EntryView;
use crate::workflows::FileName;

verus! {

/// Two texts that part ways are ordered by the characters at which they do,
/// and a text comes before one that goes on where it ends.
pub proof fn texts_are_ordered_by_character(
    p: Seq<char>,
    x: char,
    u: Seq<char>,
    y: char,
    v: Seq<char>,
)
    ensures
        x < y ==> crate::order::text_ranks(p + seq![x] + u, p + seq![y] + v),
        y < x ==> !crate::order::text_ranks(p + seq![x] + u, p + seq![y] + v),
        crate::order::text_ranks(p, p + seq![y] + v),
        !crate::order::text_ranks(p + seq![y] + v, p),
    decreases p.len(),
{
    let a = p + seq![x] + u;
    let b = p + seq![y] + v;
    if p.len() == 0 {
        assert(a[0] == x && b[0] == y);
    } else {
        let q = p.drop_first();
        texts_are_ordered_by_character(q, x, u, y, v);
        assert(a[0] == p[0] && b[0] == p[0]);
        assert(a.drop_first() =~= q + seq![x] + u);
        assert(b.drop_first() =~= q + seq![y] + v);
    }
}

/// Rows of the palette come by tier, and within a tier the higher score first.
pub proof fn rows_rank_by_tier_and_score(a: EntryView, b: EntryView)
    ensures
        a.tier < b.tier ==> a.ranks(b) && !b.ranks(a),
        a.tier == b.tier && a.score > b.score ==> a.ranks(b) && !b.ranks(a),
        a.tier == b.tier && a.score == b.score ==> a.ranks(b) && b.ranks(a),
{
}

/// Directories come before files, and either go by name without regard to
/// case; so do font families. Workflow files go by name as it is written.
pub proof fn names_rank_alphabetically(
    a: DirEntry,
    b: DirEntry,
    f: FamilyName,
    g: FamilyName,
    m: FileName,
    n: FileName,
    p: Seq<char>,
    x: char,
    u: Seq<char>,
    y: char,
    v: Seq<char>,
)
    requires
        x < y,
    ensures
        a.is_dir && !b.is_dir ==> a.ranks(b) && !b.ranks(a),
        a.is_dir == b.is_dir && crate::text::lowercased(a.name@) == p + seq![x] + u
            && crate::text::lowercased(b.name@) == p + seq![y] + v ==> a.ranks(b) && !b.ranks(a),
        crate::text::lowercased(f.name@) == p + seq![x] + u && crate::text::lowercased(g.name@) == p
            + seq![y] + v ==> f.ranks(g) && !g.ranks(f),
        m.name@ == p + seq![x] + u && n.name@ == p + seq![y] + v ==> m.ranks(n) && !n.ranks(m),
{
    texts_are_ordered_by_character(p, x, u, y, v);
    texts_are_ordered_by_character(p, y, v, x, u);
}

/// Numbers are written with the ten digits, the highest place first, and a
/// minus before those below zero.
pub proof fn numbers_are_written_in_digits(n: nat, d: nat, m: int)
    requires
        d < 10,
    ensures
        crate::text::decimal(d) == seq!["0123456789"@[d as int]],
        n > 0 ==> crate::text::decimal(10 * n + d) == crate::text::decimal(n).push(
            "0123456789"@[d as int],
        ),
        m < 0 ==> crate::text::signed_decimal(m) == seq!['-'] + crate::text::decimal((-m) as nat),
        m >= 0 ==> crate::text::signed_decimal(m) == crate::text::decimal(m as nat),
{
    reveal_strlit("0123456789");
    assert((10 * n + d) / 10 == n && (10 * n + d) % 10 == d);
}

/// What is read as a number is worth its digits, with a sign before them or
/// none; without digits it is no number.
pub proof fn digits_are_read_as_numbers(n: nat)
    ensures
        n <= 0x7fff_ffff ==> crate::text::signed32(crate::text::decimal(n)) == Some(n as int),
        n <= 0x7fff_ffff ==> crate::text::signed32(seq!['+'] + crate::text::decimal(n)) == Some(
            n as int,
        ),
        n <= 0x8000_0000 ==> crate::text::signed32(seq!['-'] + crate::text::decimal(n)) == Some(
            -(n as int),
        ),
        n > 0x7fff_ffff ==> crate::text::signed32(crate::text::decimal(n)) is None,
        crate::text::signed32(seq!['-']) is None,
        crate::text::signed32(seq!['+']) is None,
        crate::text::signed32(seq![]) is None,
{
    let d = crate::text::decimal(n);
    crate::text::decimal_reads_back(n);
    assert(crate::text::is_digit(d[0]));
    assert((seq!['+'] + d).drop_first() =~= d);
    assert((seq!['-'] + d).drop_first() =~= d);
    assert(seq!['-'].drop_first().len() == 0);
    assert(seq!['+'].drop_first().len() == 0);
}

/// A character takes as many bytes as its place among all characters asks for.
pub proof fn characters_take_their_bytes(c: char)
    ensures
        '\u{80}' > c ==> crate::text::utf8_len(c) == 1,
        '\u{80}' <= c && '\u{800}' > c ==> crate::text::utf8_len(c) == 2,
        '\u{800}' <= c && '\u{10000}' > c ==> crate::text::utf8_len(c) == 3,
        '\u{10000}' <= c ==> crate::text::utf8_len(c) == 4,
{
}

} // verus!
