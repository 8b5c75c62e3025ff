//! Output that moves the cursor, and the text that is left on the screen.

use super::ansi::Rgb;
use super::grid::{Cell, Screen};
use vstd::prelude::*;

verus! {

/// A text of narrow characters.
pub open spec fn is_line(t: Seq<char>) -> bool {
    forall|i: int| 0 <= i < t.len() ==> super::repaint::is_narrow(#[trigger] t[i])
}

/// A line that shows in full: it does not end in a blank.
pub open spec fn shows_in_full(t: Seq<char>) -> bool {
    is_line(t) && (t.len() > 0 ==> t.last() != ' ')
}

/// A number of blanks.
pub open spec fn blanks(n: nat) -> Seq<char> {
    Seq::new(n, |i: int| ' ')
}

/// The screen is as when it was empty, but for its cells, the cursor, the
/// height and the last glyph.
spec fn fresh(s: Screen) -> bool {
    &&& s.wf()
    &&& !s.g0
    &&& !s.gl_is_g1
    &&& s.style == 0
    &&& s.top == 0
    &&& s.bot == s.rows - 1
}

/// The row with a text written over it from column `col` on.
spec fn overwritten(row: Seq<Cell>, col: nat, t: Seq<char>) -> Seq<Cell> {
    Seq::new(
        row.len(),
        |i: int|
            if col <= i < col + t.len() {
                (t[i - col], 0u16)
            } else {
                row[i]
            },
    )
}

spec fn after_line(s: Screen, t: Seq<char>) -> Screen {
    Screen {
        cells: s.cells.update(s.row as int, overwritten(s.cells[s.row as int], s.col, t)),
        col: s.col + t.len(),
        high: if t.len() > 0 && s.high < s.row {
            s.row
        } else {
            s.high
        },
        last: if t.len() > 0 {
            Some(t.last())
        } else {
            s.last
        },
        ..s
    }
}

proof fn lemma_line(s: Screen, t: Seq<char>)
    requires
        fresh(s),
        is_line(t),
        s.col + t.len() <= s.cols,
    ensures
        super::repaint::after_text(s, t) == after_line(s, t),
        fresh(after_line(s, t)),
    decreases t.len(),
{
    let row = s.cells[s.row as int];
    if t.len() == 0 {
        assert(overwritten(row, s.col, t) =~= row);
        assert(after_line(s, t) =~= s);
    } else {
        let front = t.drop_last();
        let c = t[t.len() - 1];
        assert(is_line(front)) by {
            assert forall|i: int| 0 <= i < front.len() implies super::repaint::is_narrow(
                #[trigger] front[i],
            ) by {
                assert(front[i] == t[i]);
            }
        }
        lemma_line(s, front);
        assert(super::repaint::is_narrow(c));
        let a = after_line(s, front);
        super::grid::lemma_put(a, c, Some(1));
        let b = a.put_char(c);
        assert(b == a.stamp(c, 1));
        assert(b.cells[s.row as int] =~= overwritten(row, s.col, t));
        assert(b.cells =~= after_line(s, t).cells);
        assert(b =~= after_line(s, t));
        assert(super::repaint::after_char(a, c) == b);
    }
}

/// A line of text in front of more bytes.
proof fn lemma_line_bytes(s: Screen, t: Seq<char>, rest: Seq<u8>)
    requires
        fresh(s),
        is_line(t),
        s.col + t.len() <= s.cols,
    ensures
        s.replay(vstd::utf8::encode_utf8(t) + rest) == after_line(s, t).replay(rest),
        fresh(after_line(s, t)),
{
    assert(!t.contains('\x1b')) by {
        assert forall|i: int| 0 <= i < t.len() implies t[i] != '\x1b' by {
            assert(super::repaint::is_narrow(t[i]));
        }
    }
    super::repaint::lemma_text_tokens(s, t, rest);
    lemma_line(s, t);
}

/// The screen shows the lines, from the first row on, and nothing below.
spec fn shows_lines(s: Screen, lines: Seq<Seq<char>>) -> bool {
    &&& s.cells.len() == s.rows
    &&& lines.len() >= 1
    &&& s.high + 1 == lines.len()
    &&& lines.len() <= s.rows
    &&& forall|i: int|
        0 <= i < lines.len() ==> shows_in_full(#[trigger] lines[i]) && lines[i].len() <= s.cols
            && s.cells[i] == super::repaint::padded(lines[i], s.cols)
}

proof fn lemma_shown(s: Screen, lines: Seq<Seq<char>>)
    requires
        shows_lines(s, lines),
    ensures
        s.plain_text() == super::grid::without_blank_lines(
            crate::text::joined(lines, seq!['\n']),
        ),
{
    let n = lines.len() as int;
    let shown = super::repaint::shown_lines(s.cells, n);
    assert forall|i: int| 0 <= i < n implies #[trigger] shown[i] == lines[i] by {
        assert(shows_in_full(lines[i]));
        super::repaint::lemma_padded_row(lines[i], s.cols);
    }
    assert(shown =~= lines);
    super::repaint::lemma_lines_joined(s.cells, n);
}

proof fn lemma_start(cols: nat, rows: nat)
    requires
        1 <= cols <= usize::MAX,
        1 <= rows <= usize::MAX,
    ensures
        ({
            let s = super::grid::empty_screen(cols, rows, super::grid::black_palette());
            &&& fresh(s)
            &&& forall|r: int| 0 <= r < rows ==> #[trigger] s.cells[r] == super::repaint::padded(
                seq![],
                cols,
            )
        }),
{
    let s = super::grid::empty_screen(cols, rows, super::grid::black_palette());
    assert forall|r: int| 0 <= r < rows implies #[trigger] s.cells[r] == super::repaint::padded(
        seq![],
        cols,
    ) by {
        assert(s.cells[r] =~= super::repaint::padded(seq![], cols));
    }
}

proof fn lemma_no_trailing_newline(t: Seq<char>)
    requires
        t.len() > 0 ==> t.last() != '\n',
    ensures
        super::grid::without_blank_lines(t) == t,
        super::grid::without_blank_lines(t.push('\n')) == t,
{
    assert(t.push('\n').drop_last() =~= t);
    assert(t.push('\n').last() == '\n');
}

proof fn lemma_last_of_line(t: Seq<char>)
    requires
        is_line(t),
        t.len() > 0,
    ensures
        t.last() != '\n',
{
    assert(super::repaint::is_narrow(t[t.len() - 1]));
}

/// One line alone is shown.
proof fn lemma_one_line(s: Screen, t: Seq<char>)
    requires
        shows_lines(s, seq![t]),
    ensures
        s.plain_text() == t,
{
    lemma_shown(s, seq![t]);
    assert(shows_in_full(seq![t][0]));
    if t.len() > 0 {
        lemma_last_of_line(t);
    }
    lemma_no_trailing_newline(t);
}

/// Two lines are shown.
proof fn lemma_two_lines(s: Screen, a: Seq<char>, b: Seq<char>)
    requires
        shows_lines(s, seq![a, b]),
    ensures
        b.len() > 0 ==> s.plain_text() == a + seq!['\n'] + b,
        b.len() == 0 ==> s.plain_text() == a,
{
    let lines = seq![a, b];
    lemma_shown(s, lines);
    assert(shows_in_full(lines[0]) && shows_in_full(lines[1]));
    crate::text::lemma_joined_front(lines, seq!['\n']);
    assert(lines.drop_first() =~= seq![b]);
    let all = a + seq!['\n'] + b;
    assert(crate::text::joined(lines, seq!['\n']) == all);
    if b.len() > 0 {
        lemma_last_of_line(b);
        assert(all.last() == b.last());
        lemma_no_trailing_newline(all);
    } else {
        assert(all =~= a.push('\n'));
        if a.len() > 0 {
            lemma_last_of_line(a);
        }
        lemma_no_trailing_newline(a);
    }
}

/// A line, a line feed, cursor-up and a second line of the same length leave
/// the second line alone.
pub proof fn cursor_up_overwrites_the_line_above(
    a: Seq<char>,
    b: Seq<char>,
    cols: nat,
    rows: nat,
)
    requires
        is_line(a),
        shows_in_full(b),
        a.len() == b.len(),
        1 <= a.len() <= cols <= usize::MAX,
        2 <= rows <= usize::MAX,
    ensures
        super::grid::rendered_text(
            vstd::utf8::encode_utf8(a) + (seq![0x0au8] + (seq![0x1bu8, 0x5bu8, 0x41u8]
                + vstd::utf8::encode_utf8(b))),
            cols,
            rows,
        ) == b,
{
    let none: Seq<u8> = seq![];
    let eb = vstd::utf8::encode_utf8(b);
    let s0 = super::grid::empty_screen(cols, rows, super::grid::black_palette());
    lemma_start(cols, rows);
    lemma_line_bytes(s0, a, seq![0x0au8] + (seq![0x1bu8, 0x5bu8, 0x41u8] + eb));
    let s1 = after_line(s0, a);
    super::controls::line_feeds_go_down(s1, seq![0x1bu8, 0x5bu8, 0x41u8] + eb);
    let s2 = Screen { row: 1, col: 0, high: 1, ..s1 };
    super::sequences::absent_numbers_count_as_one(s2, 0x41, eb);
    assert(super::sequences::csi_bytes(seq![], 0x41) =~= seq![0x1bu8, 0x5bu8, 0x41u8]);
    super::sequences::cursor_goes_up(s2, 1, eb);
    let s3 = Screen { row: 0, ..s2 };
    lemma_line_bytes(s3, b, none);
    assert(eb + none =~= eb);
    let s4 = after_line(s3, b);
    let empty: Seq<char> = seq![];
    assert(s4.cells[0] =~= super::repaint::padded(b, cols));
    assert(s4.cells[1] == s0.cells[1]);
    let lines = seq![b, empty];
    assert forall|i: int| 0 <= i < lines.len() implies shows_in_full(#[trigger] lines[i])
        && lines[i].len() <= s4.cols && s4.cells[i] == super::repaint::padded(lines[i], s4.cols) by {
    }
    lemma_two_lines(s4, b, empty);
}

/// Cursor-down keeps the column: what follows stands one row lower, behind as
/// many blanks as the line above has characters.
pub proof fn cursor_down_keeps_the_column(a: Seq<char>, b: Seq<char>, cols: nat, rows: nat)
    requires
        shows_in_full(a),
        shows_in_full(b),
        b.len() > 0,
        a.len() + b.len() <= cols <= usize::MAX,
        2 <= rows <= usize::MAX,
    ensures
        super::grid::rendered_text(
            vstd::utf8::encode_utf8(a) + (seq![0x1bu8, 0x5bu8, 0x42u8] + vstd::utf8::encode_utf8(
                b,
            )),
            cols,
            rows,
        ) == a + seq!['\n'] + (blanks(a.len()) + b),
{
    let none: Seq<u8> = seq![];
    let eb = vstd::utf8::encode_utf8(b);
    let s0 = super::grid::empty_screen(cols, rows, super::grid::black_palette());
    lemma_start(cols, rows);
    lemma_line_bytes(s0, a, seq![0x1bu8, 0x5bu8, 0x42u8] + eb);
    let s1 = after_line(s0, a);
    super::sequences::absent_numbers_count_as_one(s1, 0x42, eb);
    assert(super::sequences::csi_bytes(seq![], 0x42) =~= seq![0x1bu8, 0x5bu8, 0x42u8]);
    super::sequences::cursor_goes_down(s1, 1, eb);
    let s2 = Screen { row: 1, ..s1 };
    lemma_line_bytes(s2, b, none);
    assert(eb + none =~= eb);
    let s3 = after_line(s2, b);
    let second = blanks(a.len()) + b;
    assert(s3.cells[0] =~= super::repaint::padded(a, cols));
    assert(s2.cells[1] == s0.cells[1]);
    assert(s3.cells[1] =~= super::repaint::padded(second, cols));
    let lines = seq![a, second];
    assert(shows_in_full(second)) by {
        assert forall|i: int| 0 <= i < second.len() implies super::repaint::is_narrow(
            #[trigger] second[i],
        ) by {
            if i >= a.len() {
                assert(second[i] == b[i - a.len()]);
            }
        }
    }
    assert forall|i: int| 0 <= i < lines.len() implies shows_in_full(#[trigger] lines[i])
        && lines[i].len() <= s3.cols && s3.cells[i] == super::repaint::padded(lines[i], s3.cols) by {
    }
    lemma_two_lines(s3, a, second);
}

/// Cursor-forward by `n` leaves `n` blanks between two texts.
pub proof fn cursor_forward_leaves_blanks(
    a: Seq<char>,
    n: nat,
    b: Seq<char>,
    cols: nat,
    rows: nat,
)
    requires
        is_line(a),
        shows_in_full(b),
        b.len() > 0,
        1 <= n <= u32::MAX,
        a.len() + n + b.len() <= cols <= usize::MAX,
        1 <= rows <= usize::MAX,
    ensures
        super::grid::rendered_text(
            vstd::utf8::encode_utf8(a) + (super::sequences::csi_bytes(
                super::sequences::digits(n),
                0x43,
            ) + vstd::utf8::encode_utf8(b)),
            cols,
            rows,
        ) == a + blanks(n) + b,
{
    let none: Seq<u8> = seq![];
    let eb = vstd::utf8::encode_utf8(b);
    let s0 = super::grid::empty_screen(cols, rows, super::grid::black_palette());
    lemma_start(cols, rows);
    lemma_line_bytes(
        s0,
        a,
        super::sequences::csi_bytes(super::sequences::digits(n), 0x43) + eb,
    );
    let s1 = after_line(s0, a);
    super::sequences::cursor_goes_right(s1, n, eb);
    let s2 = Screen { col: a.len() + n, ..s1 };
    lemma_line_bytes(s2, b, none);
    assert(eb + none =~= eb);
    let s3 = after_line(s2, b);
    let line = a + blanks(n) + b;
    assert(s3.cells[0] =~= super::repaint::padded(line, cols));
    assert(shows_in_full(line)) by {
        assert forall|i: int| 0 <= i < line.len() implies super::repaint::is_narrow(
            #[trigger] line[i],
        ) by {
            if i < a.len() {
                assert(line[i] == a[i]);
            } else if i >= a.len() + n {
                assert(line[i] == b[i - a.len() - n]);
            }
        }
        assert(line.last() == b.last());
    }
    let lines = seq![line];
    assert forall|i: int| 0 <= i < lines.len() implies shows_in_full(#[trigger] lines[i])
        && lines[i].len() <= s3.cols && s3.cells[i] == super::repaint::padded(lines[i], s3.cols) by {
    }
    lemma_one_line(s3, line);
}

proof fn lemma_replaced_end(s: Screen, a: Seq<char>, b: Seq<char>, c: Seq<char>, cols: nat)
    requires
        fresh(s),
        s.row == 0,
        s.high == 0,
        s.col == a.len(),
        s.cols == cols,
        s.cells[0] == super::repaint::padded(a + b, cols),
        is_line(a),
        shows_in_full(c),
        b.len() == c.len(),
        c.len() > 0,
        a.len() + c.len() <= cols,
    ensures
        s.replay(vstd::utf8::encode_utf8(c)).plain_text() == a + c,
{
    let none: Seq<u8> = seq![];
    let ec = vstd::utf8::encode_utf8(c);
    lemma_line_bytes(s, c, none);
    assert(ec + none =~= ec);
    let t = after_line(s, c);
    let line = a + c;
    assert(t.cells[0] =~= super::repaint::padded(line, cols));
    assert(shows_in_full(line)) by {
        assert forall|i: int| 0 <= i < line.len() implies super::repaint::is_narrow(
            #[trigger] line[i],
        ) by {
            if i < a.len() {
                assert(line[i] == a[i]);
            } else {
                assert(line[i] == c[i - a.len()]);
            }
        }
        assert(line.last() == c.last());
    }
    let lines = seq![line];
    assert forall|i: int| 0 <= i < lines.len() implies shows_in_full(#[trigger] lines[i])
        && lines[i].len() <= t.cols && t.cells[i] == super::repaint::padded(lines[i], t.cols) by {
    }
    lemma_one_line(t, line);
}

/// Going back by as many columns as the end of a line has, by a cursor-back or
/// by the number of its first column, and writing as many characters replaces
/// that end and nothing else; a carriage return does so for the whole line.
pub proof fn going_back_overwrites_the_end(
    a: Seq<char>,
    b: Seq<char>,
    c: Seq<char>,
    cols: nat,
    rows: nat,
)
    requires
        is_line(a),
        is_line(b),
        shows_in_full(c),
        b.len() == c.len(),
        c.len() > 0,
        a.len() + b.len() <= cols <= usize::MAX,
        cols <= u32::MAX,
        1 <= rows <= usize::MAX,
    ensures
        super::grid::rendered_text(
            vstd::utf8::encode_utf8(a + b) + (super::sequences::csi_bytes(
                super::sequences::digits(b.len()),
                0x44,
            ) + vstd::utf8::encode_utf8(c)),
            cols,
            rows,
        ) == a + c,
        super::grid::rendered_text(
            vstd::utf8::encode_utf8(a + b) + (super::sequences::csi_bytes(
                super::sequences::digits(a.len() + 1),
                0x47,
            ) + vstd::utf8::encode_utf8(c)),
            cols,
            rows,
        ) == a + c,
        a.len() == 0 ==> super::grid::rendered_text(
            vstd::utf8::encode_utf8(a + b) + (seq![0x0du8] + vstd::utf8::encode_utf8(c)),
            cols,
            rows,
        ) == c,
{
    let ec = vstd::utf8::encode_utf8(c);
    let ab = a + b;
    let s0 = super::grid::empty_screen(cols, rows, super::grid::black_palette());
    lemma_start(cols, rows);
    assert(is_line(ab)) by {
        assert forall|i: int| 0 <= i < ab.len() implies super::repaint::is_narrow(
            #[trigger] ab[i],
        ) by {
            if i < a.len() {
                assert(ab[i] == a[i]);
            } else {
                assert(ab[i] == b[i - a.len()]);
            }
        }
    }
    let back = super::sequences::csi_bytes(super::sequences::digits(b.len()), 0x44) + ec;
    let column = super::sequences::csi_bytes(super::sequences::digits(a.len() + 1), 0x47) + ec;
    lemma_line_bytes(s0, ab, back);
    lemma_line_bytes(s0, ab, column);
    lemma_line_bytes(s0, ab, seq![0x0du8] + ec);
    let s1 = after_line(s0, ab);
    super::sequences::cursor_goes_left(s1, b.len(), ec);
    super::sequences::cursor_goes_to_a_column_or_row(s1, a.len() + 1, ec);
    super::controls::controls_move_within_the_row(s1, ec);
    let s2 = Screen { col: a.len(), ..s1 };
    assert(s2.cells[0] =~= super::repaint::padded(ab, cols));
    lemma_replaced_end(s2, a, b, c, cols);
    if a.len() == 0 {
        assert(a + c =~= c);
    }
}

proof fn lemma_newlines_joined(k: nat, b: Seq<char>)
    ensures
        crate::text::joined(
            Seq::new(
                k + 1,
                |i: int|
                    if i < k {
                        Seq::<char>::empty()
                    } else {
                        b
                    },
            ),
            seq!['\n'],
        ) == Seq::new(k, |i: int| '\n') + b,
    decreases k,
{
    let lines = Seq::new(
        k + 1,
        |i: int|
            if i < k {
                Seq::<char>::empty()
            } else {
                b
            },
    );
    crate::text::lemma_joined_front(lines, seq!['\n']);
    if k == 0 {
        assert(Seq::new(k, |i: int| '\n') + b =~= b);
    } else {
        let j = (k - 1) as nat;
        lemma_newlines_joined(j, b);
        assert(lines.drop_first() =~= Seq::new(
            j + 1,
            |i: int|
                if i < j {
                    Seq::<char>::empty()
                } else {
                    b
                },
        ));
        assert(Seq::<char>::empty() + seq!['\n'] + (Seq::new(j, |i: int| '\n') + b) =~= Seq::new(
            k,
            |i: int| '\n',
        ) + b);
    }
}

/// The number of a row puts what follows in that row: as many line feeds stand
/// before it as there are rows above.
pub proof fn a_row_number_puts_text_in_its_row(n: nat, b: Seq<char>, cols: nat, rows: nat)
    requires
        shows_in_full(b),
        1 <= b.len() <= cols <= usize::MAX,
        1 <= n <= rows <= usize::MAX,
        n <= u32::MAX,
    ensures
        super::grid::rendered_text(
            super::sequences::csi_bytes(super::sequences::digits(n), 0x64)
                + vstd::utf8::encode_utf8(b),
            cols,
            rows,
        ) == Seq::new((n - 1) as nat, |i: int| '\n') + b,
        super::grid::rendered_text(
            super::sequences::csi_bytes(super::sequences::two_numbers(n, 1), 0x48)
                + vstd::utf8::encode_utf8(b),
            cols,
            rows,
        ) == Seq::new((n - 1) as nat, |i: int| '\n') + b,
{
    let none: Seq<u8> = seq![];
    let eb = vstd::utf8::encode_utf8(b);
    let k = (n - 1) as nat;
    let s0 = super::grid::empty_screen(cols, rows, super::grid::black_palette());
    lemma_start(cols, rows);
    super::sequences::cursor_goes_to_a_column_or_row(s0, n, eb);
    super::sequences::cursor_goes_to_a_cell(s0, n, 1, eb);
    let s1 = Screen { row: k, ..s0 };
    assert(s1 == (Screen { row: k, col: 0, ..s0 }));
    lemma_line_bytes(s1, b, none);
    assert(eb + none =~= eb);
    let s2 = after_line(s1, b);
    let lines = Seq::new(
        n,
        |i: int|
            if i < k {
                Seq::<char>::empty()
            } else {
                b
            },
    );
    assert(s0.cells[k as int] == super::repaint::padded(seq![], cols));
    assert(s2.cells[k as int] =~= super::repaint::padded(b, cols));
    assert forall|i: int| 0 <= i < lines.len() implies shows_in_full(#[trigger] lines[i])
        && lines[i].len() <= s2.cols && s2.cells[i] == super::repaint::padded(lines[i], s2.cols) by {
        if i < k {
            assert(s2.cells[i] == s0.cells[i]);
        }
    }
    lemma_shown(s2, lines);
    lemma_newlines_joined(k, b);
    assert(n == k + 1);
    let all = Seq::new(k, |i: int| '\n') + b;
    lemma_last_of_line(b);
    assert(all.last() == b.last());
    lemma_no_trailing_newline(all);
}

} // verus!
