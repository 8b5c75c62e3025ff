//! What replaying recorded output on the grid keeps: the last page of a pager,
//! plain output as it is, and every row that holds text.

use super::ansi::Rgb;
use super::grid::{Cell, Screen};
use vstd::prelude::*;

verus! {

// ---------------------------------------------------------------------------
// Texts without escapes
// ---------------------------------------------------------------------------

/// The screen after one character that is not ESC.
pub open spec fn after_char(s: Screen, c: char) -> Screen {
    if '\u{80}' > c && super::grid::is_control(c as u8) {
        s.control(c as u8)
    } else {
        s.put_char(c)
    }
}

/// The screen after a text without ESC.
pub open spec fn after_text(s: Screen, t: Seq<char>) -> Screen
    decreases t.len(),
{
    if t.len() == 0 {
        s
    } else {
        after_char(after_text(s, t.drop_last()), t.last())
    }
}

proof fn lemma_text_front(s: Screen, t: Seq<char>)
    requires
        t.len() > 0,
    ensures
        after_text(s, t) == after_text(after_char(s, t[0]), t.drop_first()),
    decreases t.len(),
{
    if t.len() == 1 {
        assert(t.drop_last() =~= seq![]);
        assert(t.drop_first() =~= seq![]);
        assert(after_text(s, t.drop_last()) == s);
        assert(after_text(after_char(s, t[0]), t.drop_first()) == after_char(s, t[0]));
    } else {
        lemma_text_front(s, t.drop_last());
        assert(t.drop_last().drop_first() =~= t.drop_first().drop_last());
    }
}

proof fn lemma_encoded_char(c: char)
    ensures
        ({
            let e = vstd::utf8::encode_utf8(seq![c]);
            &&& e.len() > 0
            &&& super::grid::utf8_claim(e[0]) == e.len()
            &&& vstd::utf8::valid_utf8(e)
            &&& vstd::utf8::decode_utf8(e) == seq![c]
            &&& '\u{80}' > c ==> e[0] == c as u8
            &&& c >= '\u{80}' ==> e[0] >= 0xc0
        }),
{
    let t = seq![c];
    let e = vstd::utf8::encode_utf8(t);
    assert(t.drop_first() =~= seq![]);
    assert(vstd::utf8::encode_utf8(t.drop_first()) =~= seq![]);
    assert(e =~= vstd::utf8::encode_scalar(c as u32));
    vstd::utf8::encode_utf8_first_scalar(t);
    vstd::utf8::encode_utf8_valid_utf8(t);
    vstd::utf8::encode_utf8_decode_utf8(t);
    if '\u{80}' > c {
        assert(vstd::utf8::is_ascii_chars(t));
        vstd::utf8::is_ascii_chars_encode_utf8(t);
        assert(t[0] as u8 == e[0]);
    } else {
        assert(e.len() > 1);
    }
}

#[verifier::spinoff_prover]
pub(super) proof fn lemma_char_token(s: Screen, c: char, rest: Seq<u8>)
    requires
        c != '\x1b',
    ensures
        s.replay(vstd::utf8::encode_utf8(seq![c]) + rest) == after_char(s, c).replay(rest),
{
    let e = vstd::utf8::encode_utf8(seq![c]);
    lemma_encoded_char(c);
    let all = e + rest;
    assert(all[0] == e[0]);
    assert(e[0] != 0x1b);
    assert(super::grid::is_control(e[0]) ==> e.len() == 1);
    assert(super::grid::token_size(all) == e.len());
    assert(all.take(e.len() as int) =~= e);
    assert(all.skip(e.len() as int) =~= rest);
    assert(s.step(all) == after_char(s, c)) by {
        reveal(Screen::step);
    }
}

pub(super) proof fn lemma_text_tokens(s: Screen, t: Seq<char>, rest: Seq<u8>)
    requires
        !t.contains('\x1b'),
    ensures
        s.replay(vstd::utf8::encode_utf8(t) + rest) == after_text(s, t).replay(rest),
    decreases t.len(),
{
    let e = vstd::utf8::encode_utf8(t);
    if t.len() == 0 {
        assert(e + rest =~= rest);
    } else {
        let c = t[0];
        let tail = t.drop_first();
        assert(t.contains(c));
        assert(!tail.contains('\x1b')) by {
            assert forall|i: int| 0 <= i < tail.len() implies tail[i] != '\x1b' by {
                assert(tail[i] == t[i + 1]);
                assert(t.contains(t[i + 1]));
            }
        }
        assert(seq![c].drop_first() =~= seq![]);
        assert(vstd::utf8::encode_utf8(seq![c].drop_first()) =~= seq![]);
        let one = vstd::utf8::encode_utf8(seq![c]);
        assert(one =~= vstd::utf8::encode_scalar(c as u32));
        let more = vstd::utf8::encode_utf8(tail) + rest;
        assert(e + rest =~= one + more);
        lemma_char_token(s, c, more);
        lemma_text_tokens(after_char(s, c), tail, rest);
        lemma_text_front(s, t);
    }
}

pub(super) proof fn lemma_text_replay(s: Screen, t: Seq<char>)
    requires
        !t.contains('\x1b'),
    ensures
        s.replay(vstd::utf8::encode_utf8(t)) == after_text(s, t),
{
    let none: Seq<u8> = seq![];
    lemma_text_tokens(s, t, none);
    assert(vstd::utf8::encode_utf8(t) + none =~= vstd::utf8::encode_utf8(t));
}

// ---------------------------------------------------------------------------
// The last page
// ---------------------------------------------------------------------------

/// Apart from its cells, its cursor, its height and the last glyph the screen
/// is as it was when it was empty.
spec fn is_plain(s: Screen, cols: nat, rows: nat, palette: Seq<Rgb>) -> bool {
    &&& s.wf()
    &&& s == (Screen {
        cells: s.cells,
        row: s.row,
        col: s.col,
        high: s.high,
        last: s.last,
        ..super::grid::empty_screen(cols, rows, palette)
    })
}

proof fn lemma_plain_text(s: Screen, t: Seq<char>, cols: nat, rows: nat, palette: Seq<Rgb>)
    requires
        is_plain(s, cols, rows, palette),
        forall|i: int| 0 <= i < t.len() ==> #[trigger] t[i] != '\x0e' && t[i] != '\x0f',
    ensures
        is_plain(after_text(s, t), cols, rows, palette),
    decreases t.len(),
{
    if t.len() > 0 {
        let front = t.drop_last();
        assert forall|i: int| 0 <= i < front.len() implies #[trigger] front[i] != '\x0e'
            && front[i] != '\x0f' by {
            assert(front[i] == t[i]);
        }
        lemma_plain_text(s, front, cols, rows, palette);
        let a = after_text(s, front);
        let c = t[t.len() - 1];
        super::grid::lemma_feed(a);
        super::grid::lemma_put(a, a.glyph(c), super::grid::char_columns(a.glyph(c)));
    }
}

/// The two screens differ in the last glyph alone.
spec fn same_but_last(a: Screen, b: Screen) -> bool {
    a == (Screen { last: a.last, ..b })
}

proof fn lemma_same_text(a: Screen, b: Screen, t: Seq<char>)
    requires
        same_but_last(a, b),
    ensures
        same_but_last(after_text(a, t), after_text(b, t)),
    decreases t.len(),
{
    if t.len() > 0 {
        lemma_same_text(a, b, t.drop_last());
    }
}

/// Clear-screen and cursor-home: `ESC [ 2 J ESC [ H`.
pub open spec fn clear_and_home() -> Seq<u8> {
    seq![0x1bu8, 0x5bu8, 0x32u8, 0x4au8, 0x1bu8, 0x5bu8, 0x48u8]
}

proof fn lemma_empty_is_plain(cols: nat, rows: nat, palette: Seq<Rgb>)
    requires
        1 <= cols <= usize::MAX,
        1 <= rows <= usize::MAX,
        palette.len() == 16,
    ensures
        is_plain(super::grid::empty_screen(cols, rows, palette), cols, rows, palette),
{
}

/// After clear-screen and cursor-home only the last page is left: text that
/// was shown before it, and switched no character set, leaves no trace in what
/// is rendered.
pub proof fn only_the_last_page_is_rendered(
    junk: Seq<char>,
    page: Seq<char>,
    cols: usize,
    rows: usize,
)
    requires
        !junk.contains('\x1b'),
        !junk.contains('\x0e'),
        !junk.contains('\x0f'),
        !page.contains('\x1b'),
    ensures
        super::grid::rendered_text(
            vstd::utf8::encode_utf8(junk) + clear_and_home() + vstd::utf8::encode_utf8(page),
            cols as nat,
            rows as nat,
        ) == super::grid::rendered_text(
            vstd::utf8::encode_utf8(page),
            cols as nat,
            rows as nat,
        ),
{
    let w = super::grid::max(cols as nat, 1);
    let h = super::grid::max(rows as nat, 1);
    let palette = super::grid::black_palette();
    let start = super::grid::empty_screen(w, h, palette);
    let bytes = vstd::utf8::encode_utf8(page);
    lemma_empty_is_plain(w, h, palette);
    assert forall|i: int| 0 <= i < junk.len() implies #[trigger] junk[i] != '\x0e' && junk[i]
        != '\x0f' by {
        assert(junk.contains(junk[i]));
    }
    lemma_plain_text(start, junk, w, h, palette);
    let s = after_text(start, junk);
    lemma_text_tokens(start, junk, clear_and_home() + bytes);
    assert(vstd::utf8::encode_utf8(junk) + clear_and_home() + bytes
        =~= vstd::utf8::encode_utf8(junk) + (clear_and_home() + bytes));
    super::grid::repainting_shows_the_last_page(s, bytes);
    let fresh = Screen { cells: start.cells, row: 0, col: 0, high: 0, ..s };
    assert(same_but_last(fresh, start));
    lemma_same_text(fresh, start, page);
    lemma_text_replay(fresh, page);
    lemma_text_replay(start, page);
}

// ---------------------------------------------------------------------------
// Plain output
// ---------------------------------------------------------------------------

/// Printable ASCII, and the glyphs of the line-drawing set.
pub open spec fn is_narrow(c: char) -> bool {
    ' ' <= c <= '~' || super::grid::is_drawn(c)
}

/// A line of text, filled up with blanks.
pub open spec fn padded(line: Seq<char>, cols: nat) -> Seq<Cell> {
    Seq::new(
        cols,
        |i: int|
            if i < line.len() {
                (line[i], 0u16)
            } else {
                (' ', 0u16)
            },
    )
}

/// The screen holds the lines and nothing else, the cursor behind the last.
spec fn shows(s: Screen, lines: Seq<Seq<char>>) -> bool {
    &&& s.wf()
    &&& s.top == 0
    &&& s.bot == s.rows - 1
    &&& !s.g0
    &&& !s.gl_is_g1
    &&& s.style == 0
    &&& s.state == super::ansi::plain_style()
    &&& 1 <= lines.len() <= s.rows
    &&& s.row == lines.len() - 1
    &&& s.high == s.row
    &&& s.col == lines.last().len()
    &&& forall|r: int|
        0 <= r < s.rows ==> #[trigger] s.cells[r] == padded(
            if r < lines.len() {
                lines[r]
            } else {
                seq![]
            },
            s.cols,
        )
}

proof fn lemma_shows_char(s: Screen, lines: Seq<Seq<char>>, c: char)
    requires
        shows(s, lines),
        super::grid::char_columns(c) == Some(1nat),
        lines.last().len() < s.cols,
    ensures
        shows(s.put_char(c), lines.drop_last().push(lines.last().push(c))),
        s.put_char(c).cols == s.cols,
        s.put_char(c).rows == s.rows,
{
    let line = lines.last();
    let next = lines.drop_last().push(line.push(c));
    let t = s.put_char(c);
    super::grid::lemma_put(s, c, Some(1));
    assert(t == s.stamp(c, 1));
    assert(s.current() == padded(line, s.cols)) by {
        assert(s.cells[s.row as int] == padded(lines[s.row as int], s.cols));
    }
    assert(t.cells =~= s.cells.update(s.row as int, s.current().update(s.col as int, (c, 0u16))));
    assert(s.current().update(s.col as int, (c, 0u16)) =~= padded(line.push(c), s.cols));
    assert forall|r: int| 0 <= r < t.rows implies #[trigger] t.cells[r] == padded(
        if r < next.len() {
            next[r]
        } else {
            seq![]
        },
        t.cols,
    ) by {
        if r != s.row {
            assert(t.cells[r] == s.cells[r]);
        }
    }
}

proof fn lemma_shows_newline(s: Screen, lines: Seq<Seq<char>>)
    requires
        shows(s, lines),
        lines.len() < s.rows,
    ensures
        shows(s.control(0x0a), lines.push(seq![])),
        s.control(0x0a).cols == s.cols,
        s.control(0x0a).rows == s.rows,
{
    let t = s.control(0x0a);
    let next = lines.push(seq![]);
    super::grid::lemma_feed(s);
    assert(t.cells == s.cells);
    assert forall|r: int| 0 <= r < t.rows implies #[trigger] t.cells[r] == padded(
        if r < next.len() {
            next[r]
        } else {
            seq![]
        },
        t.cols,
    ) by {
        assert(s.cells[r] == t.cells[r]);
        if r == lines.len() {
            assert(next[r] =~= seq![]);
        }
    }
}

/// Every line fits the width.
spec fn fits(lines: Seq<Seq<char>>, cols: nat) -> bool {
    forall|i: int| 0 <= i < lines.len() ==> (#[trigger] lines[i]).len() <= cols
}

/// Narrow characters and line feeds only.
pub open spec fn is_plain_output(t: Seq<char>) -> bool {
    forall|i: int| 0 <= i < t.len() ==> is_narrow(#[trigger] t[i]) || t[i] == '\n'
}

proof fn lemma_shows_all(s: Screen, t: Seq<char>)
    requires
        shows(s, seq![seq![]]),
        is_plain_output(t),
        crate::text::split_on(t, '\n').len() <= s.rows,
        fits(crate::text::split_on(t, '\n'), s.cols),
    ensures
        shows(after_text(s, t), crate::text::split_on(t, '\n')),
        after_text(s, t).cols == s.cols,
        after_text(s, t).rows == s.rows,
    decreases t.len(),
{
    if t.len() == 0 {
        crate::text::lemma_until_at(t, '\n', 0);
        assert(t =~= seq![]);
        assert(crate::text::split_on(t, '\n') =~= seq![seq![]]);
    } else {
        let front = t.drop_last();
        let c = t.last();
        let before = crate::text::split_on(front, '\n');
        let after = crate::text::split_on(t, '\n');
        assert(t =~= front.push(c));
        assert(is_narrow(t[t.len() - 1]) || t[t.len() - 1] == '\n');
        crate::text::split_grows(front, c, '\n');
        crate::text::split_has_parts(front, '\n');
        assert(fits(before, s.cols)) by {
            assert forall|i: int| 0 <= i < before.len() implies (#[trigger] before[i]).len()
                <= s.cols by {
                assert(after[i].len() <= s.cols);
            }
        }
        assert(is_plain_output(front)) by {
            assert forall|i: int| 0 <= i < front.len() implies is_narrow(#[trigger] front[i])
                || front[i] == '\n' by {
                assert(front[i] == t[i]);
            }
        }
        lemma_shows_all(s, front);
        let mid = after_text(s, front);
        if c == '\n' {
            lemma_shows_newline(mid, before);
            assert(after_char(mid, c) == mid.control(0x0a));
        } else {
            assert(after[after.len() - 1].len() <= s.cols);
            assert(super::grid::char_columns(c) == Some(1nat));
            lemma_shows_char(mid, before, c);
            assert(after_char(mid, c) == mid.put_char(c));
        }
    }
}

proof fn lemma_whole_all(cells: Seq<Cell>)
    requires
        forall|i: int| 0 <= i < cells.len() ==> (#[trigger] cells[i]).0 != '\0',
    ensures
        super::grid::whole_cells(cells) == cells,
    decreases cells.len(),
{
    if cells.len() > 0 {
        assert(cells[cells.len() - 1].0 != '\0');
        lemma_whole_all(cells.drop_last());
        assert(cells.drop_last().push(cells.last()) =~= cells);
    } else {
        assert(super::grid::whole_cells(cells) =~= cells);
    }
}

proof fn lemma_white_tail(cells: Seq<Cell>, n: int)
    requires
        0 <= n <= cells.len(),
        forall|i: int| n <= i < cells.len() ==> (#[trigger] cells[i]).0 == ' ',
        n > 0 ==> !crate::text::is_white(cells[n - 1].0),
    ensures
        super::grid::without_white(cells) == cells.take(n),
    decreases cells.len(),
{
    if cells.len() > n {
        assert(cells[cells.len() - 1].0 == ' ');
        lemma_white_tail(cells.drop_last(), n);
        assert(cells.drop_last().take(n) =~= cells.take(n));
    } else {
        assert(cells.take(n) =~= cells);
    }
}

/// A row of narrow characters is shown as it is, but for blanks at its end.
proof fn lemma_narrow_row(cells: Seq<Cell>)
    requires
        forall|i: int| 0 <= i < cells.len() ==> is_narrow((#[trigger] cells[i]).0),
    ensures
        super::grid::plain_row(cells) == super::grid::without_white(cells),
{
    assert forall|i: int| 0 <= i < cells.len() implies (#[trigger] cells[i]).0 != '\0' by {
        assert(is_narrow(cells[i].0));
    }
    lemma_whole_all(cells);
    lemma_without_white(cells);
    let shown = super::grid::without_white(cells);
    assert(!super::grid::any_reordering(shown)) by {
        assert forall|i: int| 0 <= i < shown.len() implies !super::grid::needs_reordering(
            (#[trigger] shown[i]).0,
        ) by {
            assert(shown[i] == cells[i]);
            assert(is_narrow(cells[i].0));
        }
    }
}

proof fn lemma_without_white(cells: Seq<Cell>)
    ensures
        super::grid::without_white(cells).len() <= cells.len(),
        super::grid::without_white(cells) == cells.take(
            super::grid::without_white(cells).len() as int,
        ),
        super::grid::without_white(cells).len() > 0 ==> !crate::text::is_white(
            super::grid::without_white(cells).last().0,
        ),
    decreases cells.len(),
{
    if cells.len() > 0 && crate::text::is_white(cells.last().0) {
        lemma_without_white(cells.drop_last());
        let n = super::grid::without_white(cells).len() as int;
        assert(cells.drop_last().take(n) =~= cells.take(n));
    } else {
        assert(cells.take(cells.len() as int) =~= cells);
    }
}

pub(super) proof fn lemma_padded_row(line: Seq<char>, cols: nat)
    requires
        line.len() <= cols,
        forall|i: int| 0 <= i < line.len() ==> is_narrow(#[trigger] line[i]),
        line.len() > 0 ==> line.last() != ' ',
    ensures
        super::grid::row_text(super::grid::plain_row(padded(line, cols))) == line,
{
    let cells = padded(line, cols);
    let n = line.len() as int;
    assert forall|i: int| 0 <= i < cells.len() implies is_narrow((#[trigger] cells[i]).0) by {
        if i < n {
            assert(is_narrow(line[i]));
        }
    }
    lemma_narrow_row(cells);
    if n > 0 {
        assert(is_narrow(line[n - 1]));
    }
    lemma_white_tail(cells, n);
    assert(super::grid::row_text(cells.take(n)) =~= line);
}

/// The lines that the first `n` rows show.
pub open spec fn shown_lines(rows: Seq<Seq<Cell>>, n: int) -> Seq<Seq<char>> {
    Seq::new(n as nat, |i: int| super::grid::row_text(super::grid::plain_row(rows[i])))
}

pub(super) proof fn lemma_lines_joined(rows: Seq<Seq<Cell>>, n: int)
    requires
        1 <= n <= rows.len(),
    ensures
        super::grid::plain_lines(rows, n) == crate::text::joined(shown_lines(rows, n), seq!['\n']),
    decreases n,
{
    let lines = shown_lines(rows, n);
    if n > 1 {
        lemma_lines_joined(rows, n - 1);
        assert(lines.drop_last() =~= shown_lines(rows, n - 1));
        assert(super::grid::plain_lines(rows, n) =~= crate::text::joined(lines, seq!['\n']));
    }
}

/// Plain streamed output that fits the screen comes out as it went in: lines
/// of printable ASCII and line-drawing glyphs, none of which ends in a blank,
/// the last not empty unless it is the only one.
pub proof fn plain_output_is_unchanged(t: Seq<char>, cols: nat, rows: nat, palette: Seq<Rgb>)
    requires
        1 <= cols <= usize::MAX,
        1 <= rows <= usize::MAX,
        palette.len() == 16,
        is_plain_output(t),
        crate::text::split_on(t, '\n').len() <= rows,
        forall|i: int|
            0 <= i < crate::text::split_on(t, '\n').len() ==> (#[trigger] crate::text::split_on(
                t,
                '\n',
            )[i]).len() <= cols,
        forall|i: int|
            0 <= i < crate::text::split_on(t, '\n').len() && (#[trigger] crate::text::split_on(
                t,
                '\n',
            )[i]).len() > 0 ==> crate::text::split_on(t, '\n')[i].last() != ' ',
        t.len() > 0 ==> t.last() != '\n',
    ensures
        super::grid::rendered(vstd::utf8::encode_utf8(t), cols, rows, palette).plain_text() == t,
{
    let start = super::grid::empty_screen(cols, rows, palette);
    let lines = crate::text::split_on(t, '\n');
    let none: Seq<char> = seq![];
    assert(shows(start, seq![none])) by {
        assert forall|r: int| 0 <= r < rows implies #[trigger] start.cells[r] == padded(
            if r < 1 {
                seq![none][r]
            } else {
                none
            },
            cols,
        ) by {
            assert(start.cells[r] =~= padded(none, cols));
        }
    }
    lemma_shows_all(start, t);
    assert(!t.contains('\x1b')) by {
        assert forall|i: int| 0 <= i < t.len() implies t[i] != '\x1b' by {
            assert(is_narrow(t[i]) || t[i] == '\n');
        }
    }
    lemma_text_replay(start, t);
    let s = after_text(start, t);
    crate::text::split_has_parts(t, '\n');
    let n = lines.len() as int;
    assert(s.high + 1 == n);
    let shown = shown_lines(s.cells, n);
    assert forall|i: int| 0 <= i < n implies #[trigger] shown[i] == lines[i] by {
        let line = lines[i];
        assert(s.cells[i] == padded(line, s.cols));
        assert(line.len() <= cols);
        assert forall|j: int| 0 <= j < line.len() implies is_narrow(#[trigger] line[j]) by {
            crate::text::lemma_split_parts(t, '\n', i, j);
            let m = choose|m: int| 0 <= m < t.len() && t[m] == lines[i][j];
            assert(is_narrow(t[m]) || t[m] == '\n');
        }
        lemma_padded_row(line, s.cols);
    }
    assert(shown =~= lines);
    lemma_lines_joined(s.cells, n);
    crate::text::lemma_join_split(t, '\n');
    assert(super::grid::without_blank_lines(t) == t);
}

// ---------------------------------------------------------------------------
// What every replay keeps
// ---------------------------------------------------------------------------

/// Where the glyph leaves a trace, it is of the kind `ok`.
spec fn prints_glyph(ok: spec_fn(char) -> bool, g: char) -> bool {
    super::grid::char_columns(g) matches Some(w) ==> w > 0 ==> ok(g) && (w == 2 ==> ok('\0'))
}

/// The character leaves traces of the kind `ok` in any character set.
spec fn prints(ok: spec_fn(char) -> bool, c: char) -> bool {
    prints_glyph(ok, c) && prints_glyph(ok, super::grid::line_glyph(c))
}

/// The row has the width, and its characters are of the kind `ok`.
spec fn row_is(row: Seq<Cell>, cols: nat, ok: spec_fn(char) -> bool) -> bool {
    row.len() == cols && forall|i: int| 0 <= i < row.len() ==> ok((#[trigger] row[i]).0)
}

/// The row shows nothing but blanks.
pub open spec fn is_dark(row: Seq<Cell>) -> bool {
    forall|i: int| 0 <= i < row.len() ==> (#[trigger] row[i]).0 == ' '
}

/// The characters of the screen are of the kind `ok`, and the rows behind the
/// last one with content are dark.
spec fn holds(s: Screen, ok: spec_fn(char) -> bool) -> bool {
    &&& ok(' ')
    &&& s.rows >= 1
    &&& s.cols >= 1
    &&& s.cells.len() == s.rows
    &&& forall|r: int| 0 <= r < s.rows ==> row_is(#[trigger] s.cells[r], s.cols, ok)
    &&& forall|r: int| s.high < r < s.rows ==> is_dark(#[trigger] s.cells[r])
    &&& s.row < s.rows
    &&& s.top <= s.bot < s.rows
    &&& s.high < s.rows
    &&& (s.last matches Some(c) ==> prints(ok, c))
}

proof fn lemma_blank_row(s: Screen, ok: spec_fn(char) -> bool)
    requires
        ok(' '),
    ensures
        row_is(s.blank_row(), s.cols, ok),
        is_dark(s.blank_row()),
{
}

proof fn lemma_row_holds(s: Screen, ok: spec_fn(char) -> bool, row: Seq<Cell>)
    requires
        holds(s, ok),
        row_is(row, s.cols, ok),
        s.row > s.high ==> is_dark(row),
    ensures
        holds(s.with_row(row), ok),
{
    let t = s.with_row(row);
    assert forall|r: int| 0 <= r < t.rows implies row_is(#[trigger] t.cells[r], t.cols, ok) by {
        if r != s.row {
            assert(t.cells[r] == s.cells[r]);
        }
    }
    assert forall|r: int| t.high < r < t.rows implies is_dark(#[trigger] t.cells[r]) by {
        if r != s.row {
            assert(t.cells[r] == s.cells[r]);
        }
    }
}

proof fn lemma_up_holds(s: Screen, ok: spec_fn(char) -> bool, top: nat, n: nat)
    requires
        holds(s, ok),
    ensures
        holds(s.with_cells(super::grid::lifted(s.cells, top, s.bot, s.blank_row(), n)), ok),
    decreases n,
{
    if n == 0 {
        assert(s.with_cells(s.cells) =~= s);
    } else {
        let k = (n - 1) as nat;
        lemma_up_holds(s, ok, top, k);
        lemma_blank_row(s, ok);
        let a = s.with_cells(super::grid::lifted(s.cells, top, s.bot, s.blank_row(), k));
        let b = s.with_cells(super::grid::lifted(s.cells, top, s.bot, s.blank_row(), n));
        assert forall|r: int| 0 <= r < b.rows implies row_is(#[trigger] b.cells[r], b.cols, ok) by {
            if top <= r < s.bot {
                assert(b.cells[r] == a.cells[r + 1]);
            } else if r != s.bot {
                assert(b.cells[r] == a.cells[r]);
            }
        }
        assert forall|r: int| b.high < r < b.rows implies is_dark(#[trigger] b.cells[r]) by {
            if top <= r < s.bot {
                assert(b.cells[r] == a.cells[r + 1]);
            } else if r != s.bot {
                assert(b.cells[r] == a.cells[r]);
            }
        }
    }
}

/// The screen with its rows from `from` to the end of the region moved down.
spec fn sunk(s: Screen, from: nat, n: nat) -> Screen {
    Screen {
        cells: super::grid::lowered(s.cells, from, s.bot, s.blank_row(), n),
        high: s.lowered_high(from, n),
        ..s
    }
}

proof fn lemma_down_holds(s: Screen, ok: spec_fn(char) -> bool, from: nat, n: nat)
    requires
        holds(s, ok),
        from <= s.bot,
    ensures
        holds(sunk(s, from, n), ok),
    decreases n,
{
    let b = sunk(s, from, n);
    if n == 0 {
        assert(b =~= s);
    } else {
        let k = (n - 1) as nat;
        lemma_down_holds(s, ok, from, k);
        lemma_blank_row(s, ok);
        let a = sunk(s, from, k);
        assert forall|r: int| 0 <= r < b.rows implies row_is(#[trigger] b.cells[r], b.cols, ok) by {
            if from < r <= s.bot {
                assert(b.cells[r] == a.cells[r - 1]);
            } else if r != from {
                assert(b.cells[r] == a.cells[r]);
            }
        }
        assert forall|r: int| b.high < r < b.rows implies is_dark(#[trigger] b.cells[r]) by {
            if from < r <= s.bot {
                assert(b.cells[r] == a.cells[r - 1]);
            } else if r != from {
                assert(b.cells[r] == a.cells[r]);
            }
        }
    }
}

proof fn lemma_feed_holds(s: Screen, ok: spec_fn(char) -> bool)
    requires
        holds(s, ok),
    ensures
        holds(s.line_feed(), ok),
        holds(s.reverse_index(), ok),
{
    lemma_blank_row(s, ok);
    let fill = s.blank_row();
    let up = super::grid::lifted(s.cells, s.top, s.bot, fill, 1);
    lemma_up_holds(s, ok, s.top, 1);
    assert(super::grid::lifted(s.cells, s.top, s.bot, fill, 0) == s.cells);
    assert(up == super::grid::shifted_up(s.cells, s.top, s.bot, fill));
    let a = s.with_cells(up);
    if s.row == s.bot {
        let b = s.line_feed();
        assert(b.cells == a.cells);
        assert forall|r: int| b.high < r < b.rows implies is_dark(#[trigger] b.cells[r]) by {
            assert(b.cells[r] == a.cells[r]);
        }
    }
    lemma_down_holds(s, ok, s.top, 1);
    assert(super::grid::lowered(s.cells, s.top, s.bot, fill, 0) == s.cells);
    assert(super::grid::lowered(s.cells, s.top, s.bot, fill, 1) == super::grid::shifted_down(
        s.cells,
        s.top,
        s.bot,
        fill,
    ));
    if s.row == s.top {
        assert(s.reverse_index() =~= sunk(s, s.top, 1));
    }
}

proof fn lemma_erase_holds(s: Screen, ok: spec_fn(char) -> bool, n: nat)
    requires
        holds(s, ok),
    ensures
        holds(s.erase_display(n), ok),
        holds(s.erase_in_line(n), ok),
        holds(s.erase_chars(n), ok),
        holds(s.insert_chars(n), ok),
        holds(s.delete_chars(n), ok),
{
    lemma_blank_row(s, ok);
    let row = s.current();
    assert(row_is(row, s.cols, ok));
    assert(s.row > s.high ==> is_dark(row));
    lemma_row_holds(s, ok, super::grid::filled(row, s.col, s.cols, s.blank()));
    lemma_row_holds(s, ok, super::grid::filled(row, 0, s.col + 1, s.blank()));
    lemma_row_holds(s, ok, super::grid::filled(row, s.col, s.col + n, s.blank()));
    lemma_row_holds(s, ok, s.blank_row());
    let k = super::grid::min(n, super::grid::minus(s.cols, s.col));
    let wider = s.insert_chars(n).current();
    assert forall|i: int| 0 <= i < wider.len() implies ok((#[trigger] wider[i]).0) && (s.row > s.high
        ==> wider[i].0 == ' ') by {
        if i < s.col {
            assert(wider[i] == row[i]);
        } else if i >= s.col + k {
            assert(wider[i] == row[i - k]);
        }
    }
    lemma_row_holds(s, ok, wider);
    assert(s.insert_chars(n) =~= s.with_row(wider));
    let closer = s.delete_chars(n).current();
    assert forall|i: int| 0 <= i < closer.len() implies ok((#[trigger] closer[i]).0) && (s.row
        > s.high ==> closer[i].0 == ' ') by {
        if i < s.col {
            assert(closer[i] == row[i]);
        } else if i + k < s.cols {
            assert(closer[i] == row[i + k]);
        }
    }
    lemma_row_holds(s, ok, closer);
    assert(s.delete_chars(n) =~= s.with_row(closer));
    let t = s.erase_display(n);
    assert forall|r: int| 0 <= r < t.rows implies row_is(#[trigger] t.cells[r], t.cols, ok) by {
        assert(row_is(s.cells[r], s.cols, ok));
    }
    assert forall|r: int| t.high < r < t.rows implies is_dark(#[trigger] t.cells[r]) by {
        if s.high < r {
            assert(is_dark(s.cells[r]));
        }
    }
}

proof fn lemma_put_holds(s: Screen, ok: spec_fn(char) -> bool, c: char)
    requires
        holds(s, ok),
        prints(ok, c),
    ensures
        holds(s.put_char(c), ok),
{
    let g = s.glyph(c);
    assert(prints(ok, g));
    match super::grid::char_columns(g) {
        Some(w) => {
            if w > 0 {
                lemma_feed_holds(s, ok);
                let fed = s.line_feed();
                lemma_stamp_holds(s, ok, g, w);
                lemma_stamp_holds(fed.at(fed.row, 0), ok, g, w);
            }
        },
        None => {},
    }
}

proof fn lemma_stamp_holds(s: Screen, ok: spec_fn(char) -> bool, g: char, w: nat)
    requires
        holds(s, ok),
        prints(ok, g),
        ok(g),
        w == 2 ==> ok('\0'),
    ensures
        holds(s.stamp(g, w), ok),
{
    if s.col < s.cols {
        let raised = Screen { high: super::grid::max(s.high, s.row), ..s };
        assert(holds(raised, ok));
        let row = s.current();
        assert(row_is(row, s.cols, ok));
        let one = row.update(s.col as int, (g, s.style));
        assert(row_is(one, s.cols, ok));
        lemma_row_holds(raised, ok, one);
        if w == 2 && s.col + 1 < s.cols {
            let two = one.update(s.col as int + 1, ('\0', s.style));
            assert(row_is(two, s.cols, ok));
            lemma_row_holds(raised, ok, two);
        }
    }
}

proof fn lemma_text_holds(s: Screen, ok: spec_fn(char) -> bool, t: Seq<char>)
    requires
        holds(s, ok),
        forall|i: int| 0 <= i < t.len() ==> prints(ok, #[trigger] t[i]),
    ensures
        holds(s.put_text(t), ok),
    decreases t.len(),
{
    if t.len() > 0 {
        let front = t.drop_last();
        assert forall|i: int| 0 <= i < front.len() implies prints(ok, #[trigger] front[i]) by {
            assert(front[i] == t[i]);
        }
        lemma_text_holds(s, ok, front);
        assert(prints(ok, t[t.len() - 1]));
        lemma_put_holds(s.put_text(front), ok, t.last());
    }
}

proof fn lemma_repeat_holds(s: Screen, ok: spec_fn(char) -> bool, c: char, n: nat)
    requires
        holds(s, ok),
        prints(ok, c),
    ensures
        holds(s.repeat(c, n), ok),
    decreases n,
{
    if n > 0 {
        lemma_repeat_holds(s, ok, c, (n - 1) as nat);
        lemma_put_holds(s.repeat(c, (n - 1) as nat), ok, c);
    }
}

#[verifier::spinoff_prover]
proof fn lemma_csi_holds(s: Screen, ok: spec_fn(char) -> bool, params: Seq<u8>, b: u8)
    requires
        holds(s, ok),
    ensures
        holds(s.csi(params, b), ok),
{
    if b == 0x6d {
        reveal(Screen::interned);
    } else if super::grid::is_motion(b) {
    } else {
        let p = super::grid::csi_numbers(params);
        let n = super::grid::nth(p, 0, 1);
        lemma_erase_holds(s, ok, n);
        lemma_erase_holds(s, ok, super::grid::first(p));
        if b == 0x4c && s.top <= s.row <= s.bot {
            let k = super::grid::min(n, (s.bot - s.row + 1) as nat);
            lemma_down_holds(s, ok, s.row, k);
            assert(s.insert_lines(n) == sunk(s, s.row, k));
        } else if b == 0x4d && s.top <= s.row <= s.bot {
            lemma_up_holds(s, ok, s.row, super::grid::min(n, (s.bot - s.row + 1) as nat));
        } else if b == 0x53 {
            lemma_up_holds(
                s,
                ok,
                s.top,
                super::grid::min(n, super::grid::region_len(s.top, s.bot)),
            );
        } else if b == 0x54 {
            let k = super::grid::min(n, super::grid::region_len(s.top, s.bot));
            lemma_down_holds(s, ok, s.top, k);
            assert(s.scroll_down(n) == sunk(s, s.top, k));
        } else if b == 0x62 {
            if let Some(c) = s.last {
                lemma_repeat_holds(s, ok, c, n);
            }
        }
    }
}

/// Characters of the kind that stands in a replay leave traces of the kind
/// `ok`: the ASCII ones, or all of them.
spec fn all_print(ok: spec_fn(char) -> bool, ascii: bool) -> bool {
    forall|c: char| (ascii ==> '\u{80}' > c) ==> #[trigger] prints(ok, c)
}

spec fn all_ascii(bytes: Seq<u8>) -> bool {
    forall|i: int| 0 <= i < bytes.len() ==> #[trigger] bytes[i] < 0x80
}

#[verifier::spinoff_prover]
proof fn lemma_escape_holds(s: Screen, ok: spec_fn(char) -> bool, ascii: bool, bytes: Seq<u8>)
    requires
        holds(s, ok),
        all_print(ok, ascii),
    ensures
        holds(s.escape(bytes), ok),
{
    lemma_feed_holds(s, ok);
    if bytes.len() >= 2 {
        if bytes[1] == 0x5b {
            let n = super::grid::csi_size(bytes.skip(2));
            if n + 2 < bytes.len() {
                lemma_csi_holds(s, ok, bytes.subrange(2, 2 + n as int), bytes[2 + n as int]);
            }
        } else if bytes[1] == 0x5d {
            reveal(Screen::interned);
        } else if super::grid::is_string_start(bytes[1]) {
            reveal_strlit("[image]");
            reveal_strlit("[graphic]");
            lemma_text_holds(s, ok, "[image]"@);
            lemma_text_holds(s, ok, "[graphic]"@);
        }
    }
}

proof fn lemma_control_holds(s: Screen, ok: spec_fn(char) -> bool, b: u8)
    requires
        holds(s, ok),
    ensures
        holds(s.control(b), ok),
{
    lemma_feed_holds(s, ok);
}

proof fn lemma_ascii_decoded(b: u8)
    requires
        b < 0x80,
    ensures
        vstd::utf8::decode_utf8(seq![b]) == seq![b as char],
{
    let one = seq![b];
    crate::text::ascii_bytes_are_utf8(one);
    let w = crate::text::widened(one);
    vstd::utf8::encode_utf8_decode_utf8(w);
    assert(w =~= seq![b as char]);
}

#[verifier::spinoff_prover]
proof fn lemma_step_holds(s: Screen, ok: spec_fn(char) -> bool, ascii: bool, bytes: Seq<u8>)
    requires
        holds(s, ok),
        all_print(ok, ascii),
        ascii ==> all_ascii(bytes),
        bytes.len() > 0,
    ensures
        holds(s.step(bytes), ok),
{
    if bytes[0] == 0x1b {
        lemma_escape_holds(s, ok, ascii, bytes);
        assert(s.step(bytes) == s.escape(bytes)) by {
            reveal(Screen::step);
        }
    } else if super::grid::is_control(bytes[0]) {
        lemma_control_holds(s, ok, bytes[0]);
        assert(s.step(bytes) == s.control(bytes[0])) by {
            reveal(Screen::step);
        }
    } else {
        let part = bytes.take(super::grid::token_size(bytes) as int);
        if vstd::utf8::valid_utf8(part) && vstd::utf8::decode_utf8(part).len() > 0 {
            let c = vstd::utf8::decode_utf8(part)[0];
            if ascii {
                assert(bytes[0] < 0x80);
                assert(part =~= seq![bytes[0]]);
                lemma_ascii_decoded(bytes[0]);
            }
            assert(prints(ok, c));
            lemma_put_holds(s, ok, c);
            assert(s.step(bytes) == s.put_char(c)) by {
                reveal(Screen::step);
            }
        } else {
            assert(s.step(bytes) == s) by {
                reveal(Screen::step);
            }
        }
    }
}

proof fn lemma_text_size(s: Screen, t: Seq<char>)
    ensures
        s.put_text(t).rows == s.rows,
        s.put_text(t).cols == s.cols,
    decreases t.len(),
{
    if t.len() > 0 {
        lemma_text_size(s, t.drop_last());
    }
}

proof fn lemma_repeat_size(s: Screen, c: char, n: nat)
    ensures
        s.repeat(c, n).rows == s.rows,
        s.repeat(c, n).cols == s.cols,
    decreases n,
{
    if n > 0 {
        lemma_repeat_size(s, c, (n - 1) as nat);
    }
}

proof fn lemma_csi_size(s: Screen, params: Seq<u8>, b: u8)
    ensures
        s.csi(params, b).rows == s.rows,
        s.csi(params, b).cols == s.cols,
{
    reveal(Screen::interned);
    if let Some(c) = s.last {
        lemma_repeat_size(s, c, super::grid::nth(super::grid::csi_numbers(params), 0, 1));
    }
}

proof fn lemma_step_size(s: Screen, bytes: Seq<u8>)
    ensures
        s.step(bytes).rows == s.rows,
        s.step(bytes).cols == s.cols,
{
    reveal(Screen::step);
    reveal(Screen::interned);
    lemma_text_size(s, "[image]"@);
    lemma_text_size(s, "[graphic]"@);
    let n = super::grid::csi_size(bytes.skip(2));
    if n + 2 < bytes.len() {
        lemma_csi_size(s, bytes.subrange(2, 2 + n as int), bytes[2 + n as int]);
    }
}

proof fn lemma_replay_holds(s: Screen, ok: spec_fn(char) -> bool, ascii: bool, bytes: Seq<u8>)
    requires
        holds(s, ok),
        all_print(ok, ascii),
        ascii ==> all_ascii(bytes),
    ensures
        holds(s.replay(bytes), ok),
        s.replay(bytes).rows == s.rows,
        s.replay(bytes).cols == s.cols,
    decreases bytes.len(),
{
    let n = super::grid::token_size(bytes);
    if bytes.len() > 0 && 0 < n <= bytes.len() {
        lemma_step_holds(s, ok, ascii, bytes);
        let rest = bytes.skip(n as int);
        if ascii {
            assert forall|i: int| 0 <= i < rest.len() implies #[trigger] rest[i] < 0x80 by {
                assert(rest[i] == bytes[i + n]);
            }
        }
        lemma_step_size(s, bytes);
        lemma_replay_holds(s.step(bytes), ok, ascii, rest);
    }
}

/// No text is cut: on a screen after a replay the rows behind the last one that
/// is rendered show nothing but blanks.
pub proof fn nothing_is_cut(bytes: Seq<u8>, cols: usize, rows: usize, palette: Seq<Rgb>)
    ensures
        ({
            let s = super::grid::rendered(bytes, cols as nat, rows as nat, palette);
            forall|r: int| s.high < r < s.rows ==> is_dark(#[trigger] s.cells[r])
        }),
{
    let ok = |c: char| true;
    let start = super::grid::empty_screen(
        super::grid::max(cols as nat, 1),
        super::grid::max(rows as nat, 1),
        palette,
    );
    assert(holds(start, ok));
    lemma_replay_holds(start, ok, false, bytes);
}

/// The lines without the empty ones at their end.
spec fn stripped(lines: Seq<Seq<char>>) -> Seq<Seq<char>>
    decreases lines.len(),
{
    if lines.len() > 0 && lines.last().len() == 0 {
        stripped(lines.drop_last())
    } else {
        lines
    }
}

proof fn lemma_stripped(lines: Seq<Seq<char>>)
    requires
        forall|i: int, j: int|
            0 <= i < lines.len() && 0 <= j < lines[i].len() ==> #[trigger] lines[i][j] != '\n',
    ensures
        super::grid::without_blank_lines(crate::text::joined(lines, seq!['\n']))
            == crate::text::joined(stripped(lines), seq!['\n']),
        stripped(lines).len() <= lines.len(),
        stripped(lines) == lines.take(stripped(lines).len() as int),
        stripped(lines).len() > 0 ==> stripped(lines).last().len() > 0,
    decreases lines.len(),
{
    let all = crate::text::joined(lines, seq!['\n']);
    if lines.len() > 0 {
        let last = lines.last();
        let front = lines.drop_last();
        if last.len() == 0 {
            assert forall|i: int, j: int|
                0 <= i < front.len() && 0 <= j < front[i].len() implies #[trigger] front[i][j]
                != '\n' by {
                assert(front[i][j] == lines[i][j]);
            }
            lemma_stripped(front);
            let n = stripped(lines).len() as int;
            assert(front.take(n) =~= lines.take(n));
            if lines.len() > 1 {
                assert(all.last() == '\n');
                assert(all.drop_last() =~= crate::text::joined(front, seq!['\n']));
            } else {
                assert(front =~= seq![]);
                assert(all =~= seq![]);
                assert(crate::text::joined(front, seq!['\n']) =~= seq![]);
            }
        } else {
            assert(all.last() == last.last());
            assert(lines[lines.len() - 1][last.len() - 1] != '\n');
            assert(lines.take(lines.len() as int) =~= lines);
        }
    } else {
        assert(lines.take(0) =~= lines);
    }
}

/// The lines that a screen of narrow characters shows.
proof fn lemma_narrow_lines(s: Screen, i: int)
    requires
        holds(s, |c: char| is_narrow(c)),
        0 <= i <= s.high,
    ensures
        ({
            let line = shown_lines(s.cells, s.high as int + 1)[i];
            &&& line.len() <= s.cols
            &&& forall|j: int| 0 <= j < line.len() ==> is_narrow(#[trigger] line[j])
            &&& line.len() > 0 ==> !crate::text::is_white(line.last())
        }),
{
    let row = s.cells[i];
    assert(row_is(row, s.cols, |c: char| is_narrow(c)));
    assert forall|j: int| 0 <= j < row.len() implies is_narrow((#[trigger] row[j]).0) by {
        assert((|c: char| is_narrow(c))(row[j].0));
    }
    lemma_narrow_row(row);
    lemma_without_white(row);
    let shown = super::grid::without_white(row);
    let line = super::grid::row_text(shown);
    assert forall|j: int| 0 <= j < line.len() implies is_narrow(#[trigger] line[j]) by {
        assert(line[j] == row[j].0);
    }
}

proof fn lemma_ascii_prints()
    ensures
        all_print(|c: char| is_narrow(c), true),
{
    let ok = |c: char| is_narrow(c);
    assert forall|c: char| '\u{80}' > c implies #[trigger] prints(ok, c) by {
        let g = super::grid::line_glyph(c);
        if c < ' ' || c == '\x7f' {
            assert(g == c);
            assert(super::grid::char_columns(c) is None);
        } else {
            assert(is_narrow(c));
            assert(is_narrow(g));
            assert(super::grid::char_columns(c) == Some(1nat));
            assert(super::grid::char_columns(g) == Some(1nat));
        }
    }
}

/// What ASCII output renders to renders to itself: it has at most as many lines
/// as the screen has rows, none of them is wider than the screen or ends in
/// white space, and none is lost or changed when it is replayed.
pub proof fn rendering_is_idempotent(bytes: Seq<u8>, cols: usize, rows: usize)
    requires
        forall|i: int| 0 <= i < bytes.len() ==> #[trigger] bytes[i] < 0x80,
    ensures
        ({
            let r = super::grid::rendered_text(bytes, cols as nat, rows as nat);
            let lines = crate::text::split_on(r, '\n');
            &&& super::grid::rendered_text(
                vstd::utf8::encode_utf8(r),
                cols as nat,
                rows as nat,
            ) == r
            &&& lines.len() <= super::grid::max(rows as nat, 1)
            &&& forall|i: int|
                0 <= i < lines.len() ==> (#[trigger] lines[i]).len() <= super::grid::max(
                    cols as nat,
                    1,
                )
            &&& forall|i: int|
                0 <= i < lines.len() && (#[trigger] lines[i]).len() > 0 ==> !crate::text::is_white(
                    lines[i].last(),
                )
        }),
{
    let ok = |c: char| is_narrow(c);
    let w = super::grid::max(cols as nat, 1);
    let h = super::grid::max(rows as nat, 1);
    let palette = super::grid::black_palette();
    let start = super::grid::empty_screen(w, h, palette);
    assert(holds(start, ok)) by {
        assert(ok(' '));
    }
    lemma_ascii_prints();
    assert(all_ascii(bytes));
    lemma_replay_holds(start, ok, true, bytes);
    let s = super::grid::rendered(bytes, cols as nat, rows as nat, palette);
    let n = s.high as int + 1;
    let shown = shown_lines(s.cells, n);
    lemma_lines_joined(s.cells, n);
    assert forall|i: int, j: int|
        0 <= i < shown.len() && 0 <= j < shown[i].len() implies #[trigger] shown[i][j] != '\n' by {
        lemma_narrow_lines(s, i);
        assert(is_narrow(shown[i][j]));
    }
    lemma_stripped(shown);
    let kept = stripped(shown);
    let r = super::grid::rendered_text(bytes, cols as nat, rows as nat);
    assert(r == crate::text::joined(kept, seq!['\n']));
    let lines = crate::text::split_on(r, '\n');
    let none: Seq<char> = seq![];
    if kept.len() == 0 {
        assert(r =~= none);
        crate::text::lemma_until_at(none, '\n', 0);
        assert(lines =~= seq![none]);
    } else {
        assert forall|i: int, j: int|
            0 <= i < kept.len() && 0 <= j < kept[i].len() implies #[trigger] kept[i][j]
            != '\n' by {
            assert(kept[i] == shown[i]);
            assert(shown[i][j] != '\n');
        }
        crate::text::split_undoes_join(kept, '\n');
        assert(lines == kept);
        assert forall|i: int| 0 <= i < kept.len() implies (#[trigger] kept[i]).len() <= w && (
        kept[i].len() > 0 ==> !crate::text::is_white(kept[i].last())) by {
            assert(kept[i] == shown[i]);
            lemma_narrow_lines(s, i);
        }
    }
    lemma_narrow_text(s, r, kept);
    assert forall|i: int| 0 <= i < lines.len() && (#[trigger] lines[i]).len() > 0 implies lines[i].last()
        != ' ' by {
        assert(!crate::text::is_white(lines[i].last()));
    }
    plain_output_is_unchanged(r, w, h, palette);
}

proof fn lemma_narrow_text(s: Screen, r: Seq<char>, kept: Seq<Seq<char>>)
    requires
        holds(s, |c: char| is_narrow(c)),
        kept.len() <= s.high + 1,
        kept == shown_lines(s.cells, s.high as int + 1).take(kept.len() as int),
        kept.len() > 0 ==> kept.last().len() > 0,
        r == crate::text::joined(kept, seq!['\n']),
    ensures
        is_plain_output(r),
        r.len() > 0 ==> r.last() != '\n',
{
    let shown = shown_lines(s.cells, s.high as int + 1);
    assert forall|i: int, j: int|
        0 <= i < kept.len() && 0 <= j < kept[i].len() implies is_narrow(
        #[trigger] kept[i][j],
    ) by {
        assert(kept[i] == shown[i]);
        lemma_narrow_lines(s, i);
        assert(is_narrow(shown[i][j]));
    }
    lemma_joined_narrow(kept);
    if kept.len() > 0 {
        let last = kept.last();
        assert(r.last() == last.last());
        assert(is_narrow(kept[kept.len() - 1][last.len() - 1]));
    }
}

proof fn lemma_joined_narrow(lines: Seq<Seq<char>>)
    requires
        forall|i: int, j: int|
            0 <= i < lines.len() && 0 <= j < lines[i].len() ==> is_narrow(#[trigger] lines[i][j]),
    ensures
        is_plain_output(crate::text::joined(lines, seq!['\n'])),
    decreases lines.len(),
{
    let all = crate::text::joined(lines, seq!['\n']);
    if lines.len() > 1 {
        let front = lines.drop_last();
        assert forall|i: int, j: int|
            0 <= i < front.len() && 0 <= j < front[i].len() implies is_narrow(
            #[trigger] front[i][j],
        ) by {
            assert(front[i][j] == lines[i][j]);
        }
        lemma_joined_narrow(front);
        let before = crate::text::joined(front, seq!['\n']);
        let k = lines.len() - 1;
        assert forall|i: int| 0 <= i < all.len() implies is_narrow(#[trigger] all[i]) || all[i]
            == '\n' by {
            if i < before.len() {
                assert(all[i] == before[i]);
            } else if i > before.len() {
                assert(all[i] == lines[k][i - before.len() - 1]);
            }
        }
    } else if lines.len() == 1 {
        assert forall|i: int| 0 <= i < all.len() implies is_narrow(#[trigger] all[i]) || all[i]
            == '\n' by {
            assert(all[i] == lines[0][i]);
        }
    }
}

} // verus!
