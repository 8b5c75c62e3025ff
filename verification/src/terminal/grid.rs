//! Minimal offline terminal grid emulator.
//!
//! Captured command output carries the cursor-positioning escape sequences a
//! program emitted. For commands that repaint the screen — `less -X`, top,
//! watch — the raw byte stream collapses into stacked, duplicated text once
//! the escapes are stripped.
//!
//! This module replays the bytes onto a fixed-size character grid, applying
//! the escapes the command actually used (cursor moves, clear-screen,
//! clear-line, scroll). The final grid is what the user actually saw on
//! screen; that is what the recorded block should show.
//!
//! Scope: enough to handle pagers and dashboards. Unsupported sequences are
//! skipped without aborting.

use vstd::prelude::*;
use vstd::slice::slice_subrange;

use super::ansi::{
    clone_link, encode_sgr, number_of_underline, parse_sgr_params, same_link, strip_marker,
    AnsiStyleState, Rgb,
};
use crate::text::{
    char_bytes, chars_of, find_byte, lossy_text, parse_u32, push_text, split_bytes, text_of, utf8_str,
    widen,
};

verus! {

// ---------------------------------------------------------------------------
// Outside knowledge about characters
// ---------------------------------------------------------------------------

/// The number of columns that a character takes up; `None` for control
/// characters.
pub uninterp spec fn columns(c: char) -> Option<nat>;

/// Calls `unicode_width::UnicodeWidthChar::width`, whose result goes by the
/// name [`columns`]. Printable ASCII takes up one column, as do the glyphs of
/// the line-drawing set; the characters below the space and DEL are control
/// characters.
#[verifier::external_body]
fn width_of(c: char) -> (res: Option<usize>)
    ensures
        res is None <==> columns(c) is None,
        res matches Some(w) ==> columns(c) == Some(w as nat),
        ' ' <= c <= '~' ==> res == Some(1usize),
        is_drawn(c) ==> res == Some(1usize),
        c < ' ' || c == '\x7f' ==> res is None,
{
    unicode_width::UnicodeWidthChar::width(c)
}

/// The number of columns that a character takes up: one for printable ASCII and
/// the line-drawing glyphs, `None` for the control characters of ASCII; the
/// others go by the name [`columns`].
pub open spec fn char_columns(c: char) -> Option<nat> {
    if ' ' <= c <= '~' || is_drawn(c) {
        Some(1)
    } else if c < ' ' || c == '\x7f' {
        None
    } else {
        columns(c)
    }
}

/// Whether the bidirectional algorithm finds a right-to-left level in a
/// paragraph.
pub uninterp spec fn reads_rtl(text: Seq<char>) -> bool;

/// Calls `unicode_bidi::ParagraphBidiInfo::has_rtl` on the paragraph `text`,
/// its base direction found from the text; the result goes by the name
/// [`reads_rtl`].
#[verifier::external_body]
fn has_rtl(text: &str) -> (res: bool)
    requires
        text@.len() > 0,
    ensures
        res == reads_rtl(text@),
{
    unicode_bidi::ParagraphBidiInfo::new(text, None).has_rtl()
}

/// The runs of a paragraph in visual order: the bytes from the first number up
/// to the second, and whether they read from right to left.
pub uninterp spec fn display_runs(text: Seq<char>) -> Seq<(nat, nat, Option<bool>)>;

/// The values of a list of runs.
pub open spec fn bidi_views(runs: Seq<(usize, usize, Option<bool>)>) -> Seq<
    (nat, nat, Option<bool>),
> {
    Seq::new(runs.len(), |i: int| (runs[i].0 as nat, runs[i].1 as nat, runs[i].2))
}

/// Calls `unicode_bidi::ParagraphBidiInfo::visual_runs` on the whole paragraph
/// `text`; the runs, each with the direction of the level at its start, go by
/// the name [`display_runs`]. The function does not accept an empty text.
#[verifier::external_body]
fn visual_runs(text: &str) -> (res: Vec<(usize, usize, Option<bool>)>)
    requires
        text@.len() > 0,
    ensures
        bidi_views(res@) == display_runs(text@),
{
    let info = unicode_bidi::ParagraphBidiInfo::new(text, None);
    let (levels, runs) = info.visual_runs(0..text.len());
    runs.iter().map(|r| (r.start, r.end, levels.get(r.start).map(|l| l.is_rtl()))).collect()
}

/// The mirror image of a character, as the Unicode data on bidirectional
/// mirroring has it.
pub uninterp spec fn mirror(c: char) -> Option<char>;

/// Calls `unicode_bidi_mirroring::get_mirrored`, whose result goes by the name
/// [`mirror`].
#[verifier::external_body]
fn mirrored(c: char) -> (res: Option<char>)
    ensures
        res == mirror(c),
{
    unicode_bidi_mirroring::get_mirrored(c)
}

// ---------------------------------------------------------------------------
// The screen as a value
// ---------------------------------------------------------------------------

/// One grid cell: a character and an index into the style table. Index 0 is
/// always the plain style. The second cell of a wide character holds `\0`.
pub type Cell = (char, u16);

/// Cursor, style and scroll region as DECSC (ESC 7) or CSI s saved them.
pub struct SavedScreen {
    pub row: nat,
    pub col: nat,
    pub top: nat,
    pub bot: nat,
    pub style: u16,
    pub state: super::ansi::Style,
    pub g0: bool,
    pub g1: bool,
    pub gl_is_g1: bool,
}

/// The mathematical value of a [`Grid`].
#[verifier::ext_equal]
pub struct Screen {
    pub cols: nat,
    pub rows: nat,
    pub cells: Seq<Seq<Cell>>,
    pub row: nat,
    pub col: nat,
    pub saved: Option<SavedScreen>,
    /// The scroll region, both rows included.
    pub top: nat,
    pub bot: nat,
    /// The highest row that has ever held content.
    pub high: nat,
    pub table: Seq<super::ansi::Style>,
    pub state: super::ansi::Style,
    pub style: u16,
    pub palette: Seq<Rgb>,
    pub last: Option<char>,
    /// Whether G0 and G1 hold the line-drawing characters, and which of them
    /// is in use.
    pub g0: bool,
    pub g1: bool,
    pub gl_is_g1: bool,
}

/// A row with `v` in the cells from `from` up to `to`.
pub open spec fn filled(row: Seq<Cell>, from: nat, to: nat, v: Cell) -> Seq<Cell> {
    Seq::new(
        row.len(),
        |i: int|
            if from <= i < to {
                v
            } else {
                row[i]
            },
    )
}

/// Rows `top` to `bot` moved up by one, with `fill` in the last of them.
pub open spec fn shifted_up(cells: Seq<Seq<Cell>>, top: nat, bot: nat, fill: Seq<Cell>) -> Seq<
    Seq<Cell>,
> {
    Seq::new(
        cells.len(),
        |r: int|
            if r == bot {
                fill
            } else if top <= r < bot {
                cells[r + 1]
            } else {
                cells[r]
            },
    )
}

/// Rows `top` to `bot` moved down by one, with `fill` in the first of them.
pub open spec fn shifted_down(cells: Seq<Seq<Cell>>, top: nat, bot: nat, fill: Seq<Cell>) -> Seq<
    Seq<Cell>,
> {
    Seq::new(
        cells.len(),
        |r: int|
            if r == top {
                fill
            } else if top < r <= bot {
                cells[r - 1]
            } else {
                cells[r]
            },
    )
}

/// The same, `n` times over.
pub open spec fn lifted(
    cells: Seq<Seq<Cell>>,
    top: nat,
    bot: nat,
    fill: Seq<Cell>,
    n: nat,
) -> Seq<Seq<Cell>>
    decreases n,
{
    if n == 0 {
        cells
    } else {
        shifted_up(lifted(cells, top, bot, fill, (n - 1) as nat), top, bot, fill)
    }
}

/// The same, `n` times over.
pub open spec fn lowered(
    cells: Seq<Seq<Cell>>,
    top: nat,
    bot: nat,
    fill: Seq<Cell>,
    n: nat,
) -> Seq<Seq<Cell>>
    decreases n,
{
    if n == 0 {
        cells
    } else {
        shifted_down(lowered(cells, top, bot, fill, (n - 1) as nat), top, bot, fill)
    }
}

/// The smaller of two numbers.
pub open spec fn min(a: nat, b: nat) -> nat {
    if a <= b {
        a
    } else {
        b
    }
}

/// The larger of two numbers.
pub open spec fn max(a: nat, b: nat) -> nat {
    if a <= b {
        b
    } else {
        a
    }
}

/// `a - b`, or zero.
pub open spec fn minus(a: nat, b: nat) -> nat {
    if a >= b {
        (a - b) as nat
    } else {
        0
    }
}

/// The box-drawing glyph of a DEC special-graphics character.
pub open spec fn line_glyph(c: char) -> char {
    match c {
        'j' => '┘',
        'k' => '┐',
        'l' => '┌',
        'm' => '└',
        'n' => '┼',
        'q' => '─',
        't' => '├',
        'u' => '┤',
        'v' => '┴',
        'w' => '┬',
        'x' => '│',
        'a' => '▒',
        '`' => '◆',
        'f' => '°',
        'g' => '±',
        '~' => '·',
        'o' => '⎺',
        'y' => '≤',
        'z' => '≥',
        '{' => 'π',
        '|' => '≠',
        '}' => '£',
        _ => c,
    }
}

/// The glyphs of the DEC special-graphics characters.
pub open spec fn is_drawn(c: char) -> bool {
    c == '┘' || c == '┐' || c == '┌' || c == '└' || c == '┼' || c == '─' || c == '├' || c == '┤' || c
        == '┴' || c == '┬' || c == '│' || c == '▒' || c == '◆' || c == '°' || c == '±' || c == '·' || c
        == '⎺' || c == '≤' || c == '≥' || c == 'π' || c == '≠' || c == '£'
}

/// How many lines a scroll region holds.
pub open spec fn region_len(top: nat, bot: nat) -> nat {
    minus(bot + 1, top)
}

impl Screen {
    /// The shape of a screen: all rows have the full width, the cursor and the
    /// scroll region lie inside, and every style index is in the table.
    pub open spec fn wf(self) -> bool {
        &&& self.rows >= 1
        &&& self.cols >= 1
        &&& self.cells.len() == self.rows
        &&& forall|r: int| 0 <= r < self.rows ==> (#[trigger] self.cells[r]).len() == self.cols
        &&& forall|r: int, c: int|
            0 <= r < self.rows && 0 <= c < self.cols ==> (#[trigger] self.cells[r][c]).1
                < self.table.len()
        &&& self.row < self.rows
        &&& self.top <= self.bot < self.rows
        &&& self.high < self.rows
        &&& 1 <= self.table.len() <= 0xffff
        &&& self.table[0] == super::ansi::plain_style()
        &&& self.style < self.table.len()
        &&& (self.saved matches Some(s) ==> s.style < self.table.len())
        &&& self.palette.len() == 16
        &&& self.rows <= usize::MAX
        &&& self.cols <= usize::MAX
    }

    /// What erasing writes: a blank, with the current background if there is
    /// one.
    pub open spec fn blank(self) -> Cell {
        if self.state.background is Some {
            (' ', self.style)
        } else {
            (' ', 0)
        }
    }

    /// A row of blank cells.
    pub open spec fn blank_row(self) -> Seq<Cell> {
        let v = self.blank();
        Seq::new(self.cols, |i: int| v)
    }

    /// The screen with other cells.
    pub open spec fn with_cells(self, cells: Seq<Seq<Cell>>) -> Screen {
        Screen { cells, ..self }
    }

    /// The screen with another row under the cursor.
    pub open spec fn with_row(self, row: Seq<Cell>) -> Screen {
        self.with_cells(self.cells.update(self.row as int, row))
    }

    /// The row under the cursor.
    pub open spec fn current(self) -> Seq<Cell> {
        self.cells[self.row as int]
    }

    /// The screen with the cursor elsewhere.
    pub open spec fn at(self, row: nat, col: nat) -> Screen {
        Screen { row, col, ..self }
    }

    /// One line down; at the end of the scroll region its lines move up.
    pub open spec fn line_feed(self) -> Screen {
        if self.row == self.bot {
            Screen {
                cells: shifted_up(self.cells, self.top, self.bot, self.blank_row()),
                high: max(self.high, self.bot),
                ..self
            }
        } else if self.row + 1 < self.rows {
            Screen { row: self.row + 1, high: max(self.high, self.row + 1), ..self }
        } else {
            self
        }
    }

    /// The highest row with content after the rows from `from` to the end of
    /// the scroll region moved down by `n`.
    pub open spec fn lowered_high(self, from: nat, n: nat) -> nat {
        if from <= self.high <= self.bot {
            min(self.bot, self.high + n)
        } else {
            self.high
        }
    }

    /// One line up; at the beginning of the scroll region its lines move down.
    pub open spec fn reverse_index(self) -> Screen {
        if self.row == self.top {
            Screen {
                cells: shifted_down(self.cells, self.top, self.bot, self.blank_row()),
                high: self.lowered_high(self.top, 1),
                ..self
            }
        } else if self.row > 0 {
            self.at((self.row - 1) as nat, self.col)
        } else {
            self
        }
    }

    /// Blanks from the cursor to the end of the screen.
    pub open spec fn erase_below(self) -> Screen {
        self.with_cells(
            Seq::new(
                self.cells.len(),
                |r: int|
                    if r < self.row {
                        self.cells[r]
                    } else if r == self.row {
                        filled(self.cells[r], self.col, self.cols, self.blank())
                    } else {
                        self.blank_row()
                    },
            ),
        )
    }

    /// Blanks from the start of the screen to the cursor.
    pub open spec fn erase_above(self) -> Screen {
        self.with_cells(
            Seq::new(
                self.cells.len(),
                |r: int|
                    if r < self.row {
                        self.blank_row()
                    } else if r == self.row {
                        filled(self.cells[r], 0, self.col + 1, self.blank())
                    } else {
                        self.cells[r]
                    },
            ),
        )
    }

    /// The screen is blank again; the next content sets its height anew.
    pub open spec fn erase_all(self) -> Screen {
        Screen { cells: Seq::new(self.cells.len(), |r: int| self.blank_row()), high: 0, ..self }
    }

    /// Blanks from the cursor to the end of its row.
    pub open spec fn erase_line_right(self) -> Screen {
        self.with_row(filled(self.current(), self.col, self.cols, self.blank()))
    }

    /// Blanks from the start of the row to the cursor.
    pub open spec fn erase_line_left(self) -> Screen {
        self.with_row(filled(self.current(), 0, self.col + 1, self.blank()))
    }

    /// Blanks the row under the cursor.
    pub open spec fn erase_line(self) -> Screen {
        self.with_row(self.blank_row())
    }

    /// ICH: `n` blanks at the cursor, the rest of the row moved right.
    pub open spec fn insert_chars(self, n: nat) -> Screen {
        let k = min(n, minus(self.cols, self.col));
        let row = self.current();
        self.with_row(
            Seq::new(
                row.len(),
                |i: int|
                    if i < self.col {
                        row[i]
                    } else if i < self.col + k {
                        self.blank()
                    } else {
                        row[i - k]
                    },
            ),
        )
    }

    /// DCH: `n` cells at the cursor taken out, the rest of the row moved left.
    pub open spec fn delete_chars(self, n: nat) -> Screen {
        let k = min(n, minus(self.cols, self.col));
        let row = self.current();
        self.with_row(
            Seq::new(
                row.len(),
                |i: int|
                    if i < self.col {
                        row[i]
                    } else if i + k < self.cols {
                        row[i + k]
                    } else {
                        self.blank()
                    },
            ),
        )
    }

    /// ECH: `n` cells from the cursor on made blank in place.
    pub open spec fn erase_chars(self, n: nat) -> Screen {
        self.with_row(filled(self.current(), self.col, self.col + n, self.blank()))
    }

    /// Opens blank rows at the cursor, within the scroll region.
    pub open spec fn insert_lines(self, n: nat) -> Screen {
        if self.row < self.top || self.row > self.bot {
            self
        } else {
            let k = min(n, (self.bot - self.row + 1) as nat);
            Screen {
                cells: lowered(self.cells, self.row, self.bot, self.blank_row(), k),
                high: self.lowered_high(self.row, k),
                ..self
            }
        }
    }

    /// Takes rows out at the cursor, within the scroll region.
    pub open spec fn delete_lines(self, n: nat) -> Screen {
        if self.row < self.top || self.row > self.bot {
            self
        } else {
            let k = min(n, (self.bot - self.row + 1) as nat);
            self.with_cells(lifted(self.cells, self.row, self.bot, self.blank_row(), k))
        }
    }

    /// Moves the scroll region up.
    pub open spec fn scroll_up(self, n: nat) -> Screen {
        let k = min(n, region_len(self.top, self.bot));
        self.with_cells(lifted(self.cells, self.top, self.bot, self.blank_row(), k))
    }

    /// Moves the scroll region down.
    pub open spec fn scroll_down(self, n: nat) -> Screen {
        let k = min(n, region_len(self.top, self.bot));
        Screen {
            cells: lowered(self.cells, self.top, self.bot, self.blank_row(), k),
            high: self.lowered_high(self.top, k),
            ..self
        }
    }

    /// Keeps the cursor and what goes with it.
    pub open spec fn save_cursor(self) -> Screen {
        Screen {
            saved: Some(
                SavedScreen {
                    row: self.row,
                    col: self.col,
                    top: self.top,
                    bot: self.bot,
                    style: self.style,
                    state: self.state,
                    g0: self.g0,
                    g1: self.g1,
                    gl_is_g1: self.gl_is_g1,
                },
            ),
            ..self
        }
    }

    /// Goes back to the cursor that was kept.
    pub open spec fn restore_cursor(self) -> Screen {
        match self.saved {
            Some(s) => {
                let end = (self.rows - 1) as nat;
                Screen {
                    row: min(s.row, end),
                    col: min(s.col, (self.cols - 1) as nat),
                    top: min(s.top, end),
                    bot: max(min(s.bot, end), min(s.top, end)),
                    state: s.state,
                    style: s.style,
                    g0: s.g0,
                    g1: s.g1,
                    gl_is_g1: s.gl_is_g1,
                    ..self
                }
            },
            None => self,
        }
    }

    /// The index of the current style. A new style gets the next one, as long
    /// as the table is not full.
    #[verifier::opaque]
    pub open spec fn interned(self) -> Screen {
        let i = crate::text::until(self.table, self.state);
        if i < self.table.len() {
            Screen { style: i as u16, ..self }
        } else if self.table.len() >= 0xffff {
            Screen { style: (self.table.len() - 1) as u16, ..self }
        } else {
            Screen {
                style: self.table.len() as u16,
                table: self.table.push(self.state),
                ..self
            }
        }
    }

    /// A character as the character set in use shows it.
    pub open spec fn glyph(self, c: char) -> char {
        let drawing = if self.gl_is_g1 {
            self.g1
        } else {
            self.g0
        };
        if drawing && '\u{80}' > c {
            line_glyph(c)
        } else {
            c
        }
    }

    /// Writes a glyph of `w` columns at the cursor.
    pub open spec fn stamp(self, c: char, w: nat) -> Screen {
        let moved = if self.col < self.cols {
            let row = self.current().update(self.col as int, (c, self.style));
            Screen {
                high: max(self.high, self.row),
                ..self.with_row(
                    if w == 2 && self.col + 1 < self.cols {
                        row.update(self.col as int + 1, ('\0', self.style))
                    } else {
                        row
                    },
                )
            }
        } else {
            self
        };
        Screen { last: Some(c), col: self.col + w, ..moved }
    }

    /// Prints a glyph of known width. Control characters and characters
    /// without a width leave no trace; what does not fit in the row goes to
    /// the next.
    pub open spec fn put_glyph(self, c: char, w: Option<nat>) -> Screen {
        match w {
            Some(w) => if w == 0 {
                self
            } else if self.col + w > self.cols {
                self.line_feed().at(self.line_feed().row, 0).stamp(c, w)
            } else {
                self.stamp(c, w)
            },
            None => self,
        }
    }

    /// Prints a character.
    pub open spec fn put_char(self, c: char) -> Screen {
        self.put_glyph(self.glyph(c), char_columns(self.glyph(c)))
    }

    /// Puts the characters one after another.
    pub open spec fn put_text(self, s: Seq<char>) -> Screen
        decreases s.len(),
    {
        if s.len() == 0 {
            self
        } else {
            self.put_text(s.drop_last()).put_char(s.last())
        }
    }

    /// Puts the character a number of times.
    pub open spec fn repeat(self, c: char, n: nat) -> Screen
        decreases n,
    {
        if n == 0 {
            self
        } else {
            self.repeat(c, (n - 1) as nat).put_char(c)
        }
    }

    /// REP: the last printed glyph `n` times more.
    pub open spec fn repeat_last(self, n: nat) -> Screen {
        match self.last {
            Some(c) => self.repeat(c, n),
            None => self,
        }
    }
}

// ---------------------------------------------------------------------------
// Every operation keeps the shape of the screen
// ---------------------------------------------------------------------------

proof fn lemma_with_row(s: Screen, row: Seq<Cell>)
    requires
        s.wf(),
        row.len() == s.cols,
        forall|c: int| 0 <= c < s.cols ==> (#[trigger] row[c]).1 < s.table.len(),
    ensures
        s.with_row(row).wf(),
{
    let t = s.with_row(row);
    assert forall|r: int, c: int| 0 <= r < t.rows && 0 <= c < t.cols implies (
    #[trigger] t.cells[r][c]).1 < t.table.len() by {
        if r == s.row {
            assert(t.cells[r][c] == row[c]);
        } else {
            assert(t.cells[r][c] == s.cells[r][c]);
        }
    }
}

proof fn lemma_shift(s: Screen, top: nat, bot: nat)
    requires
        s.wf(),
        bot < s.rows,
    ensures
        s.with_cells(shifted_up(s.cells, top, bot, s.blank_row())).wf(),
        s.with_cells(shifted_down(s.cells, top, bot, s.blank_row())).wf(),
{
    let up = shifted_up(s.cells, top, bot, s.blank_row());
    let down = shifted_down(s.cells, top, bot, s.blank_row());
    assert forall|r: int| 0 <= r < s.rows implies (#[trigger] up[r]).len() == s.cols by {
        if top <= r < bot {
            assert(s.cells[r + 1].len() == s.cols);
        }
    }
    assert forall|r: int| 0 <= r < s.rows implies (#[trigger] down[r]).len() == s.cols by {
        if top < r <= bot {
            assert(s.cells[r - 1].len() == s.cols);
        }
    }
    assert forall|r: int, c: int| 0 <= r < s.rows && 0 <= c < s.cols implies (
    #[trigger] up[r][c]).1 < s.table.len() by {
        if r != bot {
            if top <= r < bot {
                assert(up[r][c] == s.cells[r + 1][c]);
            } else {
                assert(up[r][c] == s.cells[r][c]);
            }
        }
    }
    assert forall|r: int, c: int| 0 <= r < s.rows && 0 <= c < s.cols implies (
    #[trigger] down[r][c]).1 < s.table.len() by {
        if r != top {
            if top < r <= bot {
                assert(down[r][c] == s.cells[r - 1][c]);
            } else {
                assert(down[r][c] == s.cells[r][c]);
            }
        }
    }
}

proof fn lemma_shifts(s: Screen, top: nat, bot: nat, n: nat)
    requires
        s.wf(),
        bot < s.rows,
    ensures
        s.with_cells(lifted(s.cells, top, bot, s.blank_row(), n)).wf(),
        s.with_cells(lowered(s.cells, top, bot, s.blank_row(), n)).wf(),
    decreases n,
{
    if n == 0 {
        assert(s.with_cells(s.cells) =~= s);
    } else {
        let k = (n - 1) as nat;
        lemma_shifts(s, top, bot, k);
        let up = s.with_cells(lifted(s.cells, top, bot, s.blank_row(), k));
        let down = s.with_cells(lowered(s.cells, top, bot, s.blank_row(), k));
        lemma_shift(up, top, bot);
        lemma_shift(down, top, bot);
        assert(up.blank_row() =~= s.blank_row());
        assert(down.blank_row() =~= s.blank_row());
    }
}

proof fn lemma_erase(s: Screen)
    requires
        s.wf(),
    ensures
        s.erase_below().wf(),
        s.erase_above().wf(),
        s.erase_all().wf(),
        s.erase_line_right().wf(),
        s.erase_line_left().wf(),
        s.erase_line().wf(),
        forall|n: nat| (#[trigger] s.erase_chars(n)).wf(),
        forall|n: nat| (#[trigger] s.insert_chars(n)).wf(),
        forall|n: nat| (#[trigger] s.delete_chars(n)).wf(),
{
    let row = s.current();
    assert forall|c: int| 0 <= c < s.cols implies (#[trigger] row[c]).1 < s.table.len() by {
        assert(row[c] == s.cells[s.row as int][c]);
    }
    lemma_with_row(s, filled(row, s.col, s.cols, s.blank()));
    lemma_with_row(s, filled(row, 0, s.col + 1, s.blank()));
    lemma_with_row(s, s.blank_row());
    assert forall|n: nat| (#[trigger] s.erase_chars(n)).wf() by {
        lemma_with_row(s, filled(row, s.col, s.col + n, s.blank()));
    }
    assert forall|n: nat| (#[trigger] s.insert_chars(n)).wf() by {
        let t = s.insert_chars(n).current();
        assert forall|c: int| 0 <= c < s.cols implies (#[trigger] t[c]).1 < s.table.len() by {
            let k = min(n, minus(s.cols, s.col));
            if c < s.col {
                assert(t[c] == row[c]);
            } else if c >= s.col + k {
                assert(t[c] == row[c - k]);
            }
        }
        lemma_with_row(s, t);
        assert(s.insert_chars(n) =~= s.with_row(t));
    }
    assert forall|n: nat| (#[trigger] s.delete_chars(n)).wf() by {
        let t = s.delete_chars(n).current();
        assert forall|c: int| 0 <= c < s.cols implies (#[trigger] t[c]).1 < s.table.len() by {
            let k = min(n, minus(s.cols, s.col));
            if c < s.col {
                assert(t[c] == row[c]);
            } else if c + k < s.cols {
                assert(t[c] == row[c + k]);
            }
        }
        lemma_with_row(s, t);
        assert(s.delete_chars(n) =~= s.with_row(t));
    }
    let below = s.erase_below();
    assert forall|r: int, c: int| 0 <= r < s.rows && 0 <= c < s.cols implies (
    #[trigger] below.cells[r][c]).1 < s.table.len() by {
        assert(s.cells[r][c].1 < s.table.len());
    }
    let above = s.erase_above();
    assert forall|r: int, c: int| 0 <= r < s.rows && 0 <= c < s.cols implies (
    #[trigger] above.cells[r][c]).1 < s.table.len() by {
        assert(s.cells[r][c].1 < s.table.len());
    }
}

pub(super) proof fn lemma_feed(s: Screen)
    requires
        s.wf(),
    ensures
        s.line_feed().wf(),
        s.reverse_index().wf(),
        s.line_feed().cols == s.cols,
        s.line_feed().rows == s.rows,
{
    lemma_shift(s, s.top, s.bot);
}

proof fn lemma_stamp(s: Screen, c: char, w: nat)
    requires
        s.wf(),
    ensures
        s.stamp(c, w).wf(),
{
    let row = s.current();
    assert forall|i: int| 0 <= i < s.cols implies (#[trigger] row[i]).1 < s.table.len() by {
        assert(row[i] == s.cells[s.row as int][i]);
    }
    if s.col < s.cols {
        let one = row.update(s.col as int, (c, s.style));
        lemma_with_row(s, one);
        if s.col + 1 < s.cols {
            lemma_with_row(s, one.update(s.col as int + 1, ('\0', s.style)));
        }
    }
}

pub(super) proof fn lemma_put(s: Screen, c: char, w: Option<nat>)
    requires
        s.wf(),
    ensures
        s.put_glyph(c, w).wf(),
{
    match w {
        Some(w) => {
            lemma_feed(s);
            lemma_stamp(s.line_feed().at(s.line_feed().row, 0), c, w);
            lemma_stamp(s, c, w);
        },
        None => {},
    }
}

proof fn lemma_interned(s: Screen)
    requires
        s.wf(),
    ensures
        s.interned().wf(),
{
    reveal(Screen::interned);
    crate::text::until_is_first(s.table, s.state);
    let t = s.interned();
    assert forall|r: int, c: int| 0 <= r < t.rows && 0 <= c < t.cols implies (
    #[trigger] t.cells[r][c]).1 < t.table.len() by {
        assert(s.cells[r][c].1 < s.table.len());
    }
}

// ---------------------------------------------------------------------------
// Style keys
// ---------------------------------------------------------------------------

/// A digest of a style: colours packed into numbers, the switches and the
/// underline into one flag word.
pub struct Key {
    pub fg: Option<u32>,
    pub bg: Option<u32>,
    pub uc: Option<u32>,
    pub flags: u16,
    pub link: Option<Seq<char>>,
}

/// An opaque colour as R, G, B and full opacity, one byte each.
pub open spec fn packed(c: Rgb) -> u32 {
    (c.r * 0x100_0000 + c.g * 0x1_0000 + c.b * 0x100 + 0xff) as u32
}

/// The colour as a number, if there is one.
pub open spec fn packed_option(c: Option<Rgb>) -> Option<u32> {
    match c {
        Some(c) => Some(packed(c)),
        None => None,
    }
}

/// A bit in front of the bits of `rest`.
#[verifier::opaque]
pub open spec fn with_bit(b: bool, rest: nat) -> nat {
    2 * rest + (if b {
        1nat
    } else {
        0nat
    })
}

/// The switches as bits, lowest first, with the number of the underline above
/// them.
pub open spec fn flag_word(s: super::ansi::Style) -> nat {
    let high = with_bit(
        s.reverse,
        with_bit(
            s.hidden,
            with_bit(
                s.overline,
                with_bit(s.blink, super::ansi::underline_number(s.underline_style)),
            ),
        ),
    );
    with_bit(s.bold, with_bit(s.italic, with_bit(s.strikethrough, with_bit(s.dim, high))))
}

/// The key of a style.
pub open spec fn key_of(s: super::ansi::Style) -> Key {
    Key {
        fg: packed_option(s.foreground),
        bg: packed_option(s.background),
        uc: packed_option(s.underline_color),
        flags: flag_word(s) as u16,
        link: s.hyperlink,
    }
}

proof fn lemma_packed(a: Option<Rgb>, b: Option<Rgb>)
    requires
        packed_option(a) == packed_option(b),
    ensures
        a == b,
{
    match (a, b) {
        (Some(x), Some(y)) => {
            let p = x.r * 0x100_0000 + x.g * 0x1_0000 + x.b * 0x100 + 0xff;
            let q = y.r * 0x100_0000 + y.g * 0x1_0000 + y.b * 0x100 + 0xff;
            assert(0 <= p <= u32::MAX && 0 <= q <= u32::MAX);
            assert(p == q);
        },
        _ => {},
    }
}

proof fn lemma_bit(b: bool, x: nat, c: bool, y: nat)
    ensures
        with_bit(b, x) == with_bit(c, y) ==> b == c && x == y,
        with_bit(b, x) <= 2 * x + 1,
{
    reveal(with_bit);
}

proof fn lemma_flags(a: super::ansi::Style, b: super::ansi::Style)
    ensures
        flag_word(a) < 0x1_0000,
        flag_word(a) == flag_word(b) ==> a.bold == b.bold && a.italic == b.italic
            && a.strikethrough == b.strikethrough && a.dim == b.dim && a.reverse == b.reverse
            && a.hidden == b.hidden && a.overline == b.overline && a.blink == b.blink
            && a.underline_style == b.underline_style,
{
    let a8 = super::ansi::underline_number(a.underline_style);
    let b8 = super::ansi::underline_number(b.underline_style);
    let a7 = with_bit(a.blink, a8);
    let b7 = with_bit(b.blink, b8);
    let a6 = with_bit(a.overline, a7);
    let b6 = with_bit(b.overline, b7);
    let a5 = with_bit(a.hidden, a6);
    let b5 = with_bit(b.hidden, b6);
    let a4 = with_bit(a.reverse, a5);
    let b4 = with_bit(b.reverse, b5);
    let a3 = with_bit(a.dim, a4);
    let b3 = with_bit(b.dim, b4);
    let a2 = with_bit(a.strikethrough, a3);
    let b2 = with_bit(b.strikethrough, b3);
    let a1 = with_bit(a.italic, a2);
    let b1 = with_bit(b.italic, b2);
    lemma_bit(a.bold, a1, b.bold, b1);
    lemma_bit(a.italic, a2, b.italic, b2);
    lemma_bit(a.strikethrough, a3, b.strikethrough, b3);
    lemma_bit(a.dim, a4, b.dim, b4);
    lemma_bit(a.reverse, a5, b.reverse, b5);
    lemma_bit(a.hidden, a6, b.hidden, b6);
    lemma_bit(a.overline, a7, b.overline, b7);
    lemma_bit(a.blink, a8, b.blink, b8);
}

/// Two styles have the same key if and only if they are the same: that is, if
/// and only if they give the same SGR sequence and belong to the same link.
pub proof fn keys_tell_styles_apart(a: super::ansi::Style, b: super::ansi::Style)
    ensures
        key_of(a) == key_of(b) <==> a == b,
        key_of(a) == key_of(b) <==> (super::ansi::encoded_sgr(a) == super::ansi::encoded_sgr(b)
            && a.hyperlink == b.hyperlink),
{
    super::ansi::encoding_tells_styles_apart(a, b);
    lemma_flags(a, b);
    lemma_flags(b, a);
    if key_of(a) == key_of(b) {
        lemma_packed(a.foreground, b.foreground);
        lemma_packed(a.background, b.background);
        lemma_packed(a.underline_color, b.underline_color);
    }
}

/// Digest of an [`AnsiStyleState`] for finding styles in the table.
#[derive(Debug)]
pub struct StyleKey {
    fg: Option<u32>,
    bg: Option<u32>,
    uc: Option<u32>,
    flags: u16,
    link: Option<String>,
}

impl View for StyleKey {
    type V = Key;

    closed spec fn view(&self) -> Key {
        Key {
            fg: self.fg,
            bg: self.bg,
            uc: self.uc,
            flags: self.flags,
            link: super::ansi::link_view(self.link),
        }
    }
}

fn pack_rgb(c: Option<Rgb>) -> (res: Option<u32>)
    ensures
        res == packed_option(c),
{
    match c {
        Some(c) => Some(
            c.r as u32 * 0x100_0000 + c.g as u32 * 0x1_0000 + c.b as u32 * 0x100 + 0xff,
        ),
        None => None,
    }
}

fn push_bit(b: bool, rest: u16) -> (res: u16)
    requires
        rest <= 0x7000,
    ensures
        res == with_bit(b, rest as nat),
        res <= 2 * rest + 1,
{
    proof {
        reveal(with_bit);
    }
    if b {
        2 * rest + 1
    } else {
        2 * rest
    }
}

fn style_flags(s: &AnsiStyleState) -> (res: u16)
    ensures
        res == flag_word(s@),
{
    let underline: u16 = number_of_underline(s.underline_style) as u16;
    let blink: u16 = push_bit(s.blink, underline);
    let overline: u16 = push_bit(s.overline, blink);
    let hidden: u16 = push_bit(s.hidden, overline);
    let reverse: u16 = push_bit(s.reverse, hidden);
    let dim: u16 = push_bit(s.dim, reverse);
    let strikethrough: u16 = push_bit(s.strikethrough, dim);
    let italic: u16 = push_bit(s.italic, strikethrough);
    push_bit(s.bold, italic)
}

/// The key of a style.
pub fn style_key(s: &AnsiStyleState) -> (res: StyleKey)
    ensures
        res@ == key_of(s@),
{
    StyleKey {
        fg: pack_rgb(s.foreground),
        bg: pack_rgb(s.background),
        uc: pack_rgb(s.underline_color),
        flags: style_flags(s),
        link: clone_link(&s.hyperlink),
    }
}

fn same_number(a: Option<u32>, b: Option<u32>) -> (res: bool)
    ensures
        res == (a == b),
{
    match (a, b) {
        (Some(x), Some(y)) => x == y,
        (None, None) => true,
        _ => false,
    }
}

impl StyleKey {
    /// Tells whether two keys agree.
    pub fn same(&self, other: &StyleKey) -> (res: bool)
        ensures
            res == (self@ == other@),
    {
        same_number(self.fg, other.fg) && same_number(self.bg, other.bg) && same_number(
            self.uc,
            other.uc,
        ) && self.flags == other.flags && same_link(&self.link, &other.link)
    }
}

// ---------------------------------------------------------------------------
// Cells
// ---------------------------------------------------------------------------

/// The values of the rows of cells.
pub open spec fn cell_rows(cells: Seq<Vec<Cell>>) -> Seq<Seq<Cell>> {
    Seq::new(cells.len(), |r: int| cells[r]@)
}

/// A row of `n` cells `v`.
fn row_of(n: usize, v: Cell) -> (res: Vec<Cell>)
    ensures
        res@ == Seq::new(n as nat, |i: int| v),
{
    let mut row: Vec<Cell> = Vec::new();
    let mut i: usize = 0;
    while i < n
        invariant
            i <= n,
            row@ == Seq::new(i as nat, |i: int| v),
        decreases n - i,
    {
        row.push(v);
        assert(row@ =~= Seq::new((i + 1) as nat, |i: int| v));
        i += 1;
    }
    row
}

/// Writes `v` to the cells of row `r` from `from` up to `to`.
fn fill_cells(cells: &mut Vec<Vec<Cell>>, r: usize, from: usize, to: usize, v: Cell)
    requires
        r < old(cells).len(),
        to <= old(cells)@[r as int].len(),
    ensures
        cell_rows(final(cells)@) == cell_rows(old(cells)@).update(
            r as int,
            filled(cell_rows(old(cells)@)[r as int], from as nat, to as nat, v),
        ),
{
    let ghost before = cell_rows(cells@);
    let mut c: usize = from;
    assert(before.update(r as int, filled(before[r as int], from as nat, from as nat, v))
        =~= before) by {
        assert(filled(before[r as int], from as nat, from as nat, v) =~= before[r as int]);
    }
    while c < to
        invariant
            from <= c,
            from <= to ==> c <= to,
            from > to ==> c == from,
            r < cells.len(),
            before.len() == cells.len(),
            to <= cells@[r as int].len(),
            cell_rows(cells@) == before.update(
                r as int,
                filled(before[r as int], from as nat, c as nat, v),
            ),
        decreases to - c,
    {
        let ghost now = cell_rows(cells@);
        cells[r][c] = v;
        proof {
            assert(cell_rows(cells@) =~= now.update(r as int, now[r as int].update(c as int, v)));
            assert(now[r as int].update(c as int, v) =~= filled(
                before[r as int],
                from as nat,
                (c + 1) as nat,
                v,
            ));
            assert(cell_rows(cells@) =~= before.update(
                r as int,
                filled(before[r as int], from as nat, (c + 1) as nat, v),
            ));
        }
        c += 1;
    }
    assert(filled(before[r as int], from as nat, c as nat, v) =~= filled(
        before[r as int],
        from as nat,
        to as nat,
        v,
    ));
}

/// Replaces the rows from `from` up to `to` by rows of `v`.
fn fill_rows(cells: &mut Vec<Vec<Cell>>, from: usize, to: usize, cols: usize, v: Cell)
    requires
        to <= old(cells).len(),
    ensures
        cell_rows(final(cells)@) == Seq::new(
            old(cells)@.len(),
            |r: int|
                if from <= r < to {
                    Seq::new(cols as nat, |i: int| v)
                } else {
                    cell_rows(old(cells)@)[r]
                },
        ),
{
    let ghost before = cell_rows(cells@);
    let ghost line = Seq::new(cols as nat, |i: int| v);
    let mut r: usize = from;
    while r < to
        invariant
            from <= r,
            from <= to ==> r <= to,
            from > to ==> r == from,
            to <= cells.len(),
            cells.len() == before.len(),
            before.len() == old(cells).len(),
            line == Seq::new(cols as nat, |i: int| v),
            forall|k: int| from <= k < r ==> #[trigger] cells@[k]@ == line,
            forall|k: int|
                0 <= k < cells.len() && !(from <= k < r) ==> #[trigger] cells@[k]@ == before[k],
        decreases to - r,
    {
        cells.set(r, row_of(cols, v));
        r += 1;
    }
    assert(cell_rows(cells@) =~= Seq::new(
        old(cells)@.len(),
        |r: int|
            if from <= r < to {
                Seq::new(cols as nat, |i: int| v)
            } else {
                cell_rows(old(cells)@)[r]
            },
    ));
}

/// Moves rows `top` to `bot` up by one and puts a row of `v` at the end.
fn shift_up(cells: &mut Vec<Vec<Cell>>, top: usize, bot: usize, cols: usize, v: Cell)
    requires
        bot < old(cells).len(),
    ensures
        cell_rows(final(cells)@) == shifted_up(
            cell_rows(old(cells)@),
            top as nat,
            bot as nat,
            Seq::new(cols as nat, |i: int| v),
        ),
{
    let ghost before = cell_rows(cells@);
    let line: Vec<Cell> = row_of(cols, v);
    if top <= bot {
        cells.remove(top);
        cells.insert(bot, line);
    } else {
        cells.set(bot, line);
    }
    assert(cell_rows(cells@) =~= shifted_up(
        before,
        top as nat,
        bot as nat,
        Seq::new(cols as nat, |i: int| v),
    ));
}

/// Moves rows `top` to `bot` down by one and puts a row of `v` at the
/// beginning.
fn shift_down(cells: &mut Vec<Vec<Cell>>, top: usize, bot: usize, cols: usize, v: Cell)
    requires
        top < old(cells).len(),
        bot < old(cells).len(),
    ensures
        cell_rows(final(cells)@) == shifted_down(
            cell_rows(old(cells)@),
            top as nat,
            bot as nat,
            Seq::new(cols as nat, |i: int| v),
        ),
{
    let ghost before = cell_rows(cells@);
    let line: Vec<Cell> = row_of(cols, v);
    if top <= bot {
        cells.remove(bot);
        cells.insert(top, line);
    } else {
        cells.set(top, line);
    }
    assert(cell_rows(cells@) =~= shifted_down(
        before,
        top as nat,
        bot as nat,
        Seq::new(cols as nat, |i: int| v),
    ));
}

fn lift(cells: &mut Vec<Vec<Cell>>, top: usize, bot: usize, cols: usize, v: Cell, n: usize)
    requires
        bot < old(cells).len(),
    ensures
        cell_rows(final(cells)@) == lifted(
            cell_rows(old(cells)@),
            top as nat,
            bot as nat,
            Seq::new(cols as nat, |i: int| v),
            n as nat,
        ),
{
    let mut k: usize = 0;
    while k < n
        invariant
            k <= n,
            bot < cells.len(),
            cells.len() == old(cells).len(),
            cell_rows(cells@) == lifted(
                cell_rows(old(cells)@),
                top as nat,
                bot as nat,
                Seq::new(cols as nat, |i: int| v),
                k as nat,
            ),
        decreases n - k,
    {
        let ghost before = cell_rows(cells@);
        shift_up(cells, top, bot, cols, v);
        assert(cell_rows(cells@).len() == before.len());
        k += 1;
    }
}

fn lower(cells: &mut Vec<Vec<Cell>>, top: usize, bot: usize, cols: usize, v: Cell, n: usize)
    requires
        top < old(cells).len(),
        bot < old(cells).len(),
    ensures
        cell_rows(final(cells)@) == lowered(
            cell_rows(old(cells)@),
            top as nat,
            bot as nat,
            Seq::new(cols as nat, |i: int| v),
            n as nat,
        ),
{
    let mut k: usize = 0;
    while k < n
        invariant
            k <= n,
            top < cells.len(),
            bot < cells.len(),
            cells.len() == old(cells).len(),
            cell_rows(cells@) == lowered(
                cell_rows(old(cells)@),
                top as nat,
                bot as nat,
                Seq::new(cols as nat, |i: int| v),
                k as nat,
            ),
        decreases n - k,
    {
        let ghost before = cell_rows(cells@);
        shift_down(cells, top, bot, cols, v);
        assert(cell_rows(cells@).len() == before.len());
        k += 1;
    }
}

// ---------------------------------------------------------------------------
// The grid
// ---------------------------------------------------------------------------

struct SavedState {
    row: usize,
    col: usize,
    scroll_top: usize,
    scroll_bot: usize,
    cur_style: u16,
    cur_state: AnsiStyleState,
    g0_line_drawing: bool,
    g1_line_drawing: bool,
    gl_is_g1: bool,
}

spec fn saved_view(saved: Option<SavedState>) -> Option<SavedScreen> {
    match saved {
        Some(s) => Some(
            SavedScreen {
                row: s.row as nat,
                col: s.col as nat,
                top: s.scroll_top as nat,
                bot: s.scroll_bot as nat,
                style: s.cur_style,
                state: s.cur_state@,
                g0: s.g0_line_drawing,
                g1: s.g1_line_drawing,
                gl_is_g1: s.gl_is_g1,
            },
        ),
        None => None,
    }
}

/// The values of a style table.
pub open spec fn style_views(table: Seq<AnsiStyleState>) -> Seq<super::ansi::Style> {
    Seq::new(table.len(), |i: int| table[i]@)
}

/// A character grid onto which recorded output is replayed.
pub struct Grid {
    cells: Vec<Vec<Cell>>,
    cols: usize,
    rows: usize,
    row: usize,
    col: usize,
    saved: Option<SavedState>,
    scroll_top: usize,
    scroll_bot: usize,
    high_water: usize,
    style_table: Vec<AnsiStyleState>,
    /// The key of every style in the table.
    style_keys: Vec<StyleKey>,
    cur_state: AnsiStyleState,
    cur_style: u16,
    palette: [Rgb; 16],
    last_char: Option<char>,
    g0_line_drawing: bool,
    g1_line_drawing: bool,
    gl_is_g1: bool,
}

impl View for Grid {
    type V = Screen;

    closed spec fn view(&self) -> Screen {
        Screen {
            cols: self.cols as nat,
            rows: self.rows as nat,
            cells: cell_rows(self.cells@),
            row: self.row as nat,
            col: self.col as nat,
            saved: saved_view(self.saved),
            top: self.scroll_top as nat,
            bot: self.scroll_bot as nat,
            high: self.high_water as nat,
            table: style_views(self.style_table@),
            state: self.cur_state@,
            style: self.cur_style,
            palette: self.palette@,
            last: self.last_char,
            g0: self.g0_line_drawing,
            g1: self.g1_line_drawing,
            gl_is_g1: self.gl_is_g1,
        }
    }
}

impl Grid {
    /// The grid has the shape of a screen, and its keys are those of its
    /// styles.
    pub closed spec fn wf(&self) -> bool {
        &&& self@.wf()
        &&& self.style_keys@.len() == self.style_table@.len()
        &&& forall|i: int|
            0 <= i < self.style_keys@.len() ==> (#[trigger] self.style_keys@[i])@ == key_of(
                self.style_table@[i]@,
            )
    }

    /// An empty grid.
    pub fn new(cols: usize, rows: usize, palette: [Rgb; 16]) -> (res: Grid)
        requires
            cols >= 1,
            rows >= 1,
        ensures
            res.wf(),
            res@ == empty_screen(cols as nat, rows as nat, palette@),
    {
        let mut cells: Vec<Vec<Cell>> = Vec::new();
        let mut r: usize = 0;
        while r < rows
            invariant
                r <= rows,
                cells.len() == r,
                forall|k: int| 0 <= k < r ==> #[trigger] cells@[k]@ == Seq::new(cols as nat, |i: int|
                    (' ', 0u16)),
            decreases rows - r,
        {
            cells.push(row_of(cols, (' ', 0u16)));
            r += 1;
        }
        let mut style_table: Vec<AnsiStyleState> = Vec::new();
        let plain: AnsiStyleState = AnsiStyleState::default();
        let mut style_keys: Vec<StyleKey> = Vec::new();
        style_keys.push(style_key(&plain));
        style_table.push(plain);
        let res = Grid {
            cells,
            cols,
            rows,
            row: 0,
            col: 0,
            saved: None,
            scroll_top: 0,
            scroll_bot: rows - 1,
            high_water: 0,
            style_table,
            style_keys,
            cur_state: AnsiStyleState::default(),
            cur_style: 0,
            palette,
            last_char: None,
            g0_line_drawing: false,
            g1_line_drawing: false,
            gl_is_g1: false,
        };
        proof {
            assert(res@.cells =~= empty_screen(cols as nat, rows as nat, palette@).cells);
            assert(res@.table =~= seq![super::ansi::plain_style()]);
        }
        res
    }

    fn bg_cell(&self) -> (res: Cell)
        ensures
            res == self@.blank(),
    {
        if self.cur_state.background.is_some() {
            (' ', self.cur_style)
        } else {
            (' ', 0)
        }
    }

    fn line_feed(&mut self)
        requires
            old(self).wf(),
        ensures
            final(self).wf(),
            final(self)@ == old(self)@.line_feed(),
    {
        proof {
            lemma_feed(self@);
        }
        let ghost before = self@;
        if self.row == self.scroll_bot {
            let bg: Cell = self.bg_cell();
            shift_up(&mut self.cells, self.scroll_top, self.scroll_bot, self.cols, bg);
            if self.scroll_bot > self.high_water {
                self.high_water = self.scroll_bot;
            }
            assert(self@ =~= before.line_feed());
        } else if self.rows - self.row > 1 {
            self.row = self.row + 1;
            if self.row > self.high_water {
                self.high_water = self.row;
            }
            assert(self@ =~= before.line_feed());
        }
    }

    fn lower_high(&self, from: usize, n: usize) -> (res: usize)
        requires
            self.wf(),
        ensures
            res == self@.lowered_high(from as nat, n as nat),
    {
        if from <= self.high_water && self.high_water <= self.scroll_bot {
            smaller(self.scroll_bot, self.high_water.saturating_add(n))
        } else {
            self.high_water
        }
    }

    fn reverse_index(&mut self)
        requires
            old(self).wf(),
        ensures
            final(self).wf(),
            final(self)@ == old(self)@.reverse_index(),
    {
        proof {
            lemma_feed(self@);
        }
        let ghost before = self@;
        if self.row == self.scroll_top {
            let bg: Cell = self.bg_cell();
            let high: usize = self.lower_high(self.scroll_top, 1);
            shift_down(&mut self.cells, self.scroll_top, self.scroll_bot, self.cols, bg);
            self.high_water = high;
            assert(self@ =~= before.reverse_index());
        } else if self.row > 0 {
            self.row = self.row - 1;
        }
    }

    fn erase_below(&mut self)
        requires
            old(self).wf(),
        ensures
            final(self).wf(),
            final(self)@ == old(self)@.erase_below(),
    {
        proof {
            lemma_erase(self@);
        }
        let ghost before = self@;
        let bg: Cell = self.bg_cell();
        fill_cells(&mut self.cells, self.row, self.col, self.cols, bg);
        fill_rows(&mut self.cells, self.row + 1, self.rows, self.cols, bg);
        assert(self@.cells =~= before.erase_below().cells);
        assert(self@ =~= before.erase_below());
    }

    fn erase_above(&mut self)
        requires
            old(self).wf(),
        ensures
            final(self).wf(),
            final(self)@ == old(self)@.erase_above(),
    {
        proof {
            lemma_erase(self@);
        }
        let ghost before = self@;
        let bg: Cell = self.bg_cell();
        fill_rows(&mut self.cells, 0, self.row, self.cols, bg);
        assert(cell_rows(self.cells@).len() == before.rows);
        assert(cell_rows(self.cells@)[before.row as int] == before.current());
        let end: usize = self.past_cursor();
        fill_cells(&mut self.cells, self.row, 0, end, bg);
        assert(filled(before.current(), 0, end as nat, bg) =~= filled(
            before.current(),
            0,
            before.col + 1,
            bg,
        ));
        assert(self@.cells =~= before.erase_above().cells);
        assert(self@ =~= before.erase_above());
    }

    /// The column behind the cursor, or the end of the row.
    fn past_cursor(&self) -> (res: usize)
        ensures
            res == min((self.col + 1) as nat, self.cols as nat),
    {
        if self.col < self.cols {
            self.col + 1
        } else {
            self.cols
        }
    }

    fn erase_all(&mut self)
        requires
            old(self).wf(),
        ensures
            final(self).wf(),
            final(self)@ == old(self)@.erase_all(),
    {
        proof {
            lemma_erase(self@);
        }
        let ghost before = self@;
        let bg: Cell = self.bg_cell();
        fill_rows(&mut self.cells, 0, self.rows, self.cols, bg);
        self.high_water = 0;
        assert(self@.cells =~= before.erase_all().cells);
        assert(self@ =~= before.erase_all());
    }

    fn erase_line_right(&mut self)
        requires
            old(self).wf(),
        ensures
            final(self).wf(),
            final(self)@ == old(self)@.erase_line_right(),
    {
        proof {
            lemma_erase(self@);
        }
        let ghost before = self@;
        let bg: Cell = self.bg_cell();
        fill_cells(&mut self.cells, self.row, self.col, self.cols, bg);
        assert(self@ =~= before.erase_line_right());
    }

    fn erase_line_left(&mut self)
        requires
            old(self).wf(),
        ensures
            final(self).wf(),
            final(self)@ == old(self)@.erase_line_left(),
    {
        proof {
            lemma_erase(self@);
        }
        let ghost before = self@;
        let bg: Cell = self.bg_cell();
        let end: usize = self.past_cursor();
        fill_cells(&mut self.cells, self.row, 0, end, bg);
        assert(filled(before.current(), 0, end as nat, bg) =~= filled(
            before.current(),
            0,
            before.col + 1,
            bg,
        ));
        assert(self@ =~= before.erase_line_left());
    }

    fn erase_line(&mut self)
        requires
            old(self).wf(),
        ensures
            final(self).wf(),
            final(self)@ == old(self)@.erase_line(),
    {
        proof {
            lemma_erase(self@);
        }
        let ghost before = self@;
        let bg: Cell = self.bg_cell();
        fill_cells(&mut self.cells, self.row, 0, self.cols, bg);
        assert(filled(before.current(), 0, before.cols, bg) =~= before.blank_row());
        assert(self@ =~= before.erase_line());
    }

    fn erase_chars(&mut self, n: usize)
        requires
            old(self).wf(),
        ensures
            final(self).wf(),
            final(self)@ == old(self)@.erase_chars(n as nat),
    {
        proof {
            lemma_erase(self@);
        }
        let ghost before = self@;
        let bg: Cell = self.bg_cell();
        let mut end: usize = self.col.saturating_add(n);
        if end > self.cols {
            end = self.cols;
        }
        fill_cells(&mut self.cells, self.row, self.col, end, bg);
        assert(filled(before.current(), before.col, end as nat, bg) =~= filled(
            before.current(),
            before.col,
            before.col + n as nat,
            bg,
        ));
        assert(self@ =~= before.erase_chars(n as nat));
    }

    /// The number of cells from the cursor to the end of the row, at most `n`.
    fn room(&self, n: usize) -> (res: usize)
        ensures
            res == min(n as nat, minus(self.cols as nat, self.col as nat)),
    {
        let left: usize = self.cols.saturating_sub(self.col);
        if n <= left {
            n
        } else {
            left
        }
    }

    fn insert_chars(&mut self, n: usize)
        requires
            old(self).wf(),
        ensures
            final(self).wf(),
            final(self)@ == old(self)@.insert_chars(n as nat),
    {
        proof {
            lemma_erase(self@);
        }
        let ghost before = self@;
        let ghost target = before.insert_chars(n as nat);
        let k: usize = self.room(n);
        let bg: Cell = self.bg_cell();
        let mut row: Vec<Cell> = Vec::new();
        let mut i: usize = 0;
        while i < self.cols
            invariant
                i <= self.cols,
                self@ == before,
                before.wf(),
                bg == before.blank(),
                k == min(n as nat, minus(before.cols, before.col)),
                target == before.insert_chars(n as nat),
                row@ == target.current().take(i as int),
            decreases self.cols - i,
        {
            row.push(
                if i < self.col {
                    self.cells[self.row][i]
                } else if i - self.col < k {
                    bg
                } else {
                    self.cells[self.row][i - k]
                },
            );
            assert(row@ =~= target.current().take(i + 1));
            i += 1;
        }
        assert(target.current().take(i as int) =~= target.current());
        self.cells.set(self.row, row);
        assert(self@.cells =~= target.cells);
        assert(self@ =~= target);
    }

    fn delete_chars(&mut self, n: usize)
        requires
            old(self).wf(),
        ensures
            final(self).wf(),
            final(self)@ == old(self)@.delete_chars(n as nat),
    {
        proof {
            lemma_erase(self@);
        }
        let ghost before = self@;
        let ghost target = before.delete_chars(n as nat);
        let k: usize = self.room(n);
        let bg: Cell = self.bg_cell();
        let mut row: Vec<Cell> = Vec::new();
        let mut i: usize = 0;
        while i < self.cols
            invariant
                i <= self.cols,
                self@ == before,
                before.wf(),
                bg == before.blank(),
                k == min(n as nat, minus(before.cols, before.col)),
                target == before.delete_chars(n as nat),
                row@ == target.current().take(i as int),
            decreases self.cols - i,
        {
            row.push(
                if i < self.col {
                    self.cells[self.row][i]
                } else if k < self.cols - i {
                    self.cells[self.row][i + k]
                } else {
                    bg
                },
            );
            assert(row@ =~= target.current().take(i + 1));
            i += 1;
        }
        assert(target.current().take(i as int) =~= target.current());
        self.cells.set(self.row, row);
        assert(self@.cells =~= target.cells);
        assert(self@ =~= target);
    }

    fn insert_lines(&mut self, n: usize)
        requires
            old(self).wf(),
        ensures
            final(self).wf(),
            final(self)@ == old(self)@.insert_lines(n as nat),
    {
        if self.row < self.scroll_top || self.row > self.scroll_bot {
            return;
        }
        let mut k: usize = self.scroll_bot - self.row;
        if n <= k {
            k = n;
        } else {
            k = k + 1;
        }
        let ghost before = self@;
        let bg: Cell = self.bg_cell();
        let high: usize = self.lower_high(self.row, k);
        lower(&mut self.cells, self.row, self.scroll_bot, self.cols, bg, k);
        self.high_water = high;
        proof {
            lemma_shifts(before, before.row, before.bot, k as nat);
            assert(self@ =~= before.insert_lines(n as nat));
        }
    }

    fn delete_lines(&mut self, n: usize)
        requires
            old(self).wf(),
        ensures
            final(self).wf(),
            final(self)@ == old(self)@.delete_lines(n as nat),
    {
        if self.row < self.scroll_top || self.row > self.scroll_bot {
            return;
        }
        let mut k: usize = self.scroll_bot - self.row;
        if n <= k {
            k = n;
        } else {
            k = k + 1;
        }
        let ghost before = self@;
        let bg: Cell = self.bg_cell();
        lift(&mut self.cells, self.row, self.scroll_bot, self.cols, bg, k);
        proof {
            lemma_shifts(before, before.row, before.bot, k as nat);
            assert(self@ =~= before.delete_lines(n as nat));
        }
    }

    /// The number of lines that a scroll by `n` moves.
    fn scroll_count(&self, n: usize) -> (res: usize)
        requires
            self.wf(),
        ensures
            res == min(n as nat, region_len(self.scroll_top as nat, self.scroll_bot as nat)),
    {
        let k: usize = self.scroll_bot - self.scroll_top;
        if n <= k {
            n
        } else {
            k + 1
        }
    }

    fn scroll_up(&mut self, n: usize)
        requires
            old(self).wf(),
        ensures
            final(self).wf(),
            final(self)@ == old(self)@.scroll_up(n as nat),
    {
        let k: usize = self.scroll_count(n);
        let ghost before = self@;
        let bg: Cell = self.bg_cell();
        lift(&mut self.cells, self.scroll_top, self.scroll_bot, self.cols, bg, k);
        proof {
            lemma_shifts(before, before.top, before.bot, k as nat);
            assert(self@ =~= before.scroll_up(n as nat));
        }
    }

    fn scroll_down(&mut self, n: usize)
        requires
            old(self).wf(),
        ensures
            final(self).wf(),
            final(self)@ == old(self)@.scroll_down(n as nat),
    {
        let k: usize = self.scroll_count(n);
        let ghost before = self@;
        let bg: Cell = self.bg_cell();
        let high: usize = self.lower_high(self.scroll_top, k);
        lower(&mut self.cells, self.scroll_top, self.scroll_bot, self.cols, bg, k);
        self.high_water = high;
        proof {
            lemma_shifts(before, before.top, before.bot, k as nat);
            assert(self@ =~= before.scroll_down(n as nat));
        }
    }

    fn save_cursor(&mut self)
        requires
            old(self).wf(),
        ensures
            final(self).wf(),
            final(self)@ == old(self)@.save_cursor(),
    {
        self.saved = Some(
            SavedState {
                row: self.row,
                col: self.col,
                scroll_top: self.scroll_top,
                scroll_bot: self.scroll_bot,
                cur_style: self.cur_style,
                cur_state: self.cur_state.clone(),
                g0_line_drawing: self.g0_line_drawing,
                g1_line_drawing: self.g1_line_drawing,
                gl_is_g1: self.gl_is_g1,
            },
        );
    }

    fn restore_cursor(&mut self)
        requires
            old(self).wf(),
        ensures
            final(self).wf(),
            final(self)@ == old(self)@.restore_cursor(),
    {
        let ghost before = self@;
        if let Some(s) = &self.saved {
            let end: usize = self.rows - 1;
            let row: usize = smaller(s.row, end);
            let col: usize = smaller(s.col, self.cols - 1);
            let top: usize = smaller(s.scroll_top, end);
            let bot: usize = larger(smaller(s.scroll_bot, end), top);
            let state: AnsiStyleState = s.cur_state.clone();
            let (style, g0, g1, gl) = (
                s.cur_style,
                s.g0_line_drawing,
                s.g1_line_drawing,
                s.gl_is_g1,
            );
            self.row = row;
            self.col = col;
            self.scroll_top = top;
            self.scroll_bot = bot;
            self.cur_state = state;
            self.cur_style = style;
            self.g0_line_drawing = g0;
            self.g1_line_drawing = g1;
            self.gl_is_g1 = gl;
        }
        assert(self@ =~= before.restore_cursor());
    }

    /// The position of the current style in the table, or the length.
    fn find_style(&self, key: &StyleKey) -> (res: usize)
        requires
            self.wf(),
            key@ == key_of(self@.state),
        ensures
            res == crate::text::until(self@.table, self@.state),
    {
        let mut i: usize = 0;
        while i < self.style_keys.len() && !self.style_keys[i].same(key)
            invariant
                i <= self.style_keys.len(),
                self.wf(),
                key@ == key_of(self@.state),
                forall|j: int| 0 <= j < i ==> self@.table[j] != self@.state,
            decreases self.style_keys.len() - i,
        {
            proof {
                keys_tell_styles_apart(self@.table[i as int], self@.state);
                assert(self.style_keys@[i as int]@ == key_of(self.style_table@[i as int]@));
            }
            i += 1;
        }
        proof {
            if i < self.style_keys.len() {
                keys_tell_styles_apart(self@.table[i as int], self@.state);
                assert(self.style_keys@[i as int]@ == key_of(self.style_table@[i as int]@));
            }
            crate::text::lemma_until_at(self@.table, self@.state, i as int);
        }
        i
    }

    /// Finds the current style in the table, or adds it.
    fn intern_style(&mut self)
        requires
            old(self).wf(),
        ensures
            final(self).wf(),
            final(self)@ == old(self)@.interned(),
    {
        let ghost before = self@;
        let key: StyleKey = style_key(&self.cur_state);
        let i: usize = self.find_style(&key);
        proof {
            reveal(Screen::interned);
            crate::text::until_is_first(before.table, before.state);
            lemma_interned(before);
        }
        if i < self.style_table.len() {
            self.cur_style = i as u16;
        } else if self.style_table.len() >= 0xffff {
            self.cur_style = (self.style_table.len() - 1) as u16;
        } else {
            self.cur_style = self.style_table.len() as u16;
            self.style_table.push(self.cur_state.clone());
            self.style_keys.push(key);
            assert(self@.table =~= before.table.push(before.state));
        }
        assert(self@ =~= before.interned());
    }

    fn glyph(&self, c: char) -> (res: char)
        ensures
            res == self@.glyph(c),
    {
        let drawing: bool = if self.gl_is_g1 {
            self.g1_line_drawing
        } else {
            self.g0_line_drawing
        };
        if drawing && '\u{80}' > c {
            translate_line_drawing(c)
        } else {
            c
        }
    }

    fn stamp(&mut self, c: char, w: usize)
        requires
            old(self).wf(),
            old(self)@.col + w <= usize::MAX,
        ensures
            final(self).wf(),
            final(self)@ == old(self)@.stamp(c, w as nat),
    {
        let ghost before = self@;
        proof {
            lemma_stamp(before, c, w as nat);
        }
        self.last_char = Some(c);
        if self.col < self.cols {
            let style: u16 = self.cur_style;
            self.cells[self.row][self.col] = (c, style);
            let ghost one = before.current().update(before.col as int, (c, style));
            assert(cell_rows(self.cells@) =~= before.cells.update(before.row as int, one));
            if w == 2 && self.cols - self.col > 1 {
                self.cells[self.row][self.col + 1] = ('\0', style);
                assert(cell_rows(self.cells@) =~= before.cells.update(
                    before.row as int,
                    one.update(before.col as int + 1, ('\0', style)),
                ));
            }
            if self.row > self.high_water {
                self.high_water = self.row;
            }
        }
        self.col = self.col + w;
        assert(self@ =~= before.stamp(c, w as nat));
    }

    /// Prints a glyph that takes up `width` columns.
    pub fn put_glyph(&mut self, c: char, width: Option<usize>)
        requires
            old(self).wf(),
        ensures
            final(self).wf(),
            final(self)@ == old(self)@.put_glyph(
                c,
                match width {
                    Some(w) => Some(w as nat),
                    None => None,
                },
            ),
    {
        if let Some(w) = width {
            if w > 0 {
                if self.col > self.cols || w > self.cols - self.col {
                    self.line_feed();
                    self.col = 0;
                }
                self.stamp(c, w);
            }
        }
    }

    fn put_char(&mut self, c: char)
        requires
            old(self).wf(),
        ensures
            final(self).wf(),
            final(self)@ == old(self)@.put_char(c),
    {
        let g: char = self.glyph(c);
        self.put_glyph(g, width_of(g));
    }

    fn put_text(&mut self, s: &str)
        requires
            old(self).wf(),
        ensures
            final(self).wf(),
            final(self)@ == old(self)@.put_text(s@),
    {
        let chars: Vec<char> = chars_of(s);
        let ghost before = self@;
        let mut i: usize = 0;
        while i < chars.len()
            invariant
                i <= chars.len(),
                self.wf(),
                self@ == before.put_text(chars@.take(i as int)),
            decreases chars.len() - i,
        {
            self.put_char(chars[i]);
            assert(chars@.take(i + 1).drop_last() =~= chars@.take(i as int));
            i += 1;
        }
        assert(chars@.take(i as int) =~= chars@);
    }

    fn repeat_last(&mut self, n: usize)
        requires
            old(self).wf(),
        ensures
            final(self).wf(),
            final(self)@ == old(self)@.repeat_last(n as nat),
    {
        let ghost before = self@;
        if let Some(c) = self.last_char {
            let mut k: usize = 0;
            while k < n
                invariant
                    k <= n,
                    self.wf(),
                    self@ == before.repeat(c, k as nat),
                decreases n - k,
            {
                self.put_char(c);
                k += 1;
            }
        }
    }
}

/// The screen before anything was printed.
pub open spec fn empty_screen(cols: nat, rows: nat, palette: Seq<Rgb>) -> Screen {
    Screen {
        cols,
        rows,
        cells: Seq::new(rows, |r: int| Seq::new(cols, |c: int| (' ', 0u16))),
        row: 0,
        col: 0,
        saved: None,
        top: 0,
        bot: (rows - 1) as nat,
        high: 0,
        table: seq![super::ansi::plain_style()],
        state: super::ansi::plain_style(),
        style: 0,
        palette,
        last: None,
        g0: false,
        g1: false,
        gl_is_g1: false,
    }
}

fn smaller(a: usize, b: usize) -> (res: usize)
    ensures
        res == min(a as nat, b as nat),
{
    if a <= b {
        a
    } else {
        b
    }
}

fn larger(a: usize, b: usize) -> (res: usize)
    ensures
        res == max(a as nat, b as nat),
{
    if a <= b {
        b
    } else {
        a
    }
}

/// Maps a DEC special-graphics character to its box-drawing glyph.
fn translate_line_drawing(c: char) -> (res: char)
    ensures
        res == line_glyph(c),
{
    match c {
        'j' => '┘',
        'k' => '┐',
        'l' => '┌',
        'm' => '└',
        'n' => '┼',
        'q' => '─',
        't' => '├',
        'u' => '┤',
        'v' => '┴',
        'w' => '┬',
        'x' => '│',
        'a' => '▒',
        '`' => '◆',
        'f' => '°',
        'g' => '±',
        '~' => '·',
        'o' => '⎺',
        'y' => '≤',
        'z' => '≥',
        '{' => 'π',
        '|' => '≠',
        '}' => '£',
        _ => c,
    }
}

// ---------------------------------------------------------------------------
// CSI sequences
// ---------------------------------------------------------------------------

/// Colons as semicolons.
pub open spec fn with_semicolons(params: Seq<u8>) -> Seq<u8> {
    Seq::new(
        params.len(),
        |i: int|
            if params[i] == 0x3a {
                0x3b
            } else {
                params[i]
            },
    )
}

/// The numbers of CSI parameters; what is no number counts as zero.
pub open spec fn csi_numbers(params: Seq<u8>) -> Seq<nat> {
    if params.len() == 0 {
        seq![]
    } else {
        let chunks = crate::text::split_on(
            with_semicolons(super::ansi::unmarked(params)),
            0x3b,
        );
        Seq::new(
            chunks.len(),
            |i: int|
                match crate::text::unsigned(crate::text::widened(chunks[i]), u32::MAX as nat) {
                    Some(n) => n,
                    None => 0,
                },
        )
    }
}

/// The parameter at position `i`; `default` if it is absent or zero.
pub open spec fn nth(p: Seq<nat>, i: int, default: nat) -> nat {
    if i < p.len() && p[i] != 0 {
        p[i]
    } else {
        default
    }
}

/// The first parameter, zero if it is absent.
pub open spec fn first(p: Seq<nat>) -> nat {
    nth(p, 0, 0)
}

/// The final bytes of cursor movements.
pub open spec fn is_motion(b: u8) -> bool {
    b == 0x48 || b == 0x66 || b == 0x41 || b == 0x42 || b == 0x65 || b == 0x43 || b == 0x61 || b
        == 0x44 || b == 0x45 || b == 0x46 || b == 0x47 || b == 0x60 || b == 0x64
}

impl Screen {
    /// A cursor movement.
    pub open spec fn moved(self, p: Seq<nat>, b: u8) -> Screen {
        let n = nth(p, 0, 1);
        let end_row = (self.rows - 1) as nat;
        let end_col = (self.cols - 1) as nat;
        if b == 0x48 || b == 0x66 {
            self.at(min((n - 1) as nat, end_row), min((nth(p, 1, 1) - 1) as nat, end_col))
        } else if b == 0x41 {
            self.at(minus(self.row, n), self.col)
        } else if b == 0x42 || b == 0x65 {
            self.at(min(self.row + n, end_row), self.col)
        } else if b == 0x43 || b == 0x61 {
            self.at(self.row, min(self.col + n, end_col))
        } else if b == 0x44 {
            self.at(self.row, minus(self.col, n))
        } else if b == 0x45 {
            self.at(min(self.row + n, end_row), 0)
        } else if b == 0x46 {
            self.at(minus(self.row, n), 0)
        } else if b == 0x47 || b == 0x60 {
            self.at(self.row, min((n - 1) as nat, end_col))
        } else {
            self.at(min((n - 1) as nat, end_row), self.col)
        }
    }

    /// ED: erasing in the screen.
    pub open spec fn erase_display(self, n: nat) -> Screen {
        if n == 0 {
            self.erase_below()
        } else if n == 1 {
            self.erase_above()
        } else if n == 2 || n == 3 {
            self.erase_all()
        } else {
            self
        }
    }

    /// EL: erasing in the line.
    pub open spec fn erase_in_line(self, n: nat) -> Screen {
        if n == 0 {
            self.erase_line_right()
        } else if n == 1 {
            self.erase_line_left()
        } else if n == 2 {
            self.erase_line()
        } else {
            self
        }
    }

    /// DECSTBM: the scroll region. One whose end stands above its beginning is
    /// malformed and passed over.
    pub open spec fn with_region(self, p: Seq<nat>) -> Screen {
        let end = (self.rows - 1) as nat;
        let top = min((nth(p, 0, 1) - 1) as nat, end);
        let bot = min((nth(p, 1, self.rows) - 1) as nat, end);
        if top <= bot {
            Screen { top, bot, ..self }
        } else {
            self
        }
    }

    /// A CSI sequence that changes cells, the saved cursor or the region.
    /// Other sequences change nothing.
    pub open spec fn edited(self, p: Seq<nat>, b: u8) -> Screen {
        let n = nth(p, 0, 1);
        if b == 0x4a {
            self.erase_display(first(p))
        } else if b == 0x4b {
            self.erase_in_line(first(p))
        } else if b == 0x4c {
            self.insert_lines(n)
        } else if b == 0x4d {
            self.delete_lines(n)
        } else if b == 0x53 {
            self.scroll_up(n)
        } else if b == 0x54 {
            self.scroll_down(n)
        } else if b == 0x40 {
            self.insert_chars(n)
        } else if b == 0x50 {
            self.delete_chars(n)
        } else if b == 0x58 {
            self.erase_chars(n)
        } else if b == 0x62 {
            self.repeat_last(n)
        } else if b == 0x73 {
            self.save_cursor()
        } else if b == 0x75 {
            self.restore_cursor()
        } else if b == 0x72 {
            self.with_region(p)
        } else {
            self
        }
    }

    /// A complete CSI sequence.
    pub open spec fn csi(self, params: Seq<u8>, b: u8) -> Screen {
        if b == 0x6d {
            Screen {
                state: super::ansi::after_sgr(
                    self.state,
                    super::ansi::sgr_chunks(params),
                    self.palette,
                ),
                ..self
            }.interned()
        } else if is_motion(b) {
            self.moved(csi_numbers(params), b)
        } else {
            self.edited(csi_numbers(params), b)
        }
    }
}

/// The values of a list of numbers.
pub open spec fn number_views(p: Seq<u32>) -> Seq<nat> {
    Seq::new(p.len(), |i: int| p[i] as nat)
}

fn parse_params(params: &[u8]) -> (res: Vec<u32>)
    ensures
        number_views(res@) == csi_numbers(params@),
{
    let mut out: Vec<u32> = Vec::new();
    if params.len() == 0 {
        assert(number_views(out@) =~= csi_numbers(params@));
        return out;
    }
    let p = strip_marker(params);
    let mut q: Vec<u8> = Vec::new();
    let mut i: usize = 0;
    while i < p.len()
        invariant
            i <= p.len(),
            q@ == with_semicolons(p@).take(i as int),
        decreases p.len() - i,
    {
        q.push(
            if p[i] == 0x3a {
                0x3b
            } else {
                p[i]
            },
        );
        assert(q@ =~= with_semicolons(p@).take(i + 1));
        i += 1;
    }
    assert(with_semicolons(p@).take(i as int) =~= with_semicolons(p@));
    let chunks: Vec<&[u8]> = split_bytes(q.as_slice(), 0x3b);
    let ghost views = crate::text::views(chunks@);
    let mut k: usize = 0;
    while k < chunks.len()
        invariant
            k <= chunks.len(),
            params@.len() > 0,
            views == crate::text::views(chunks@),
            views == crate::text::split_on(
                with_semicolons(super::ansi::unmarked(params@)),
                0x3b,
            ),
            number_views(out@) == csi_numbers(params@).take(k as int),
        decreases chunks.len() - k,
    {
        let n: u32 = match parse_u32(widen(chunks[k]).as_slice()) {
            Some(n) => n,
            None => 0,
        };
        let ghost before = number_views(out@);
        out.push(n);
        proof {
            assert(views[k as int] == chunks@[k as int]@);
            let all = csi_numbers(params@);
            assert(all[k as int] == n);
            assert(number_views(out@) =~= before.push(n as nat));
            assert(all.take(k + 1) =~= all.take(k as int).push(all[k as int]));
        }
        k += 1;
    }
    assert(csi_numbers(params@).take(k as int) =~= csi_numbers(params@));
    out
}

fn nth_number(p: &[u32], i: usize, default: usize) -> (res: usize)
    ensures
        res == nth(number_views(p@), i as int, default as nat),
        default > 0 ==> res > 0,
{
    if i < p.len() && p[i] != 0 {
        p[i] as usize
    } else {
        default
    }
}

impl Grid {
    fn move_cursor(&mut self, p: &[u32], b: u8)
        requires
            old(self).wf(),
            is_motion(b),
        ensures
            final(self).wf(),
            final(self)@ == old(self)@.moved(number_views(p@), b),
    {
        let ghost before = self@;
        let n: usize = nth_number(p, 0, 1);
        let end_row: usize = self.rows - 1;
        let end_col: usize = self.cols - 1;
        if b == 0x48 || b == 0x66 {
            self.row = smaller(n - 1, end_row);
            self.col = smaller(nth_number(p, 1, 1) - 1, end_col);
        } else if b == 0x41 {
            self.row = self.row.saturating_sub(n);
        } else if b == 0x42 || b == 0x65 {
            self.row = smaller(self.row.saturating_add(n), end_row);
        } else if b == 0x43 || b == 0x61 {
            self.col = smaller(self.col.saturating_add(n), end_col);
        } else if b == 0x44 {
            self.col = self.col.saturating_sub(n);
        } else if b == 0x45 {
            self.row = smaller(self.row.saturating_add(n), end_row);
            self.col = 0;
        } else if b == 0x46 {
            self.row = self.row.saturating_sub(n);
            self.col = 0;
        } else if b == 0x47 || b == 0x60 {
            self.col = smaller(n - 1, end_col);
        } else {
            self.row = smaller(n - 1, end_row);
        }
        assert(self@ =~= before.moved(number_views(p@), b));
    }

    fn erase_display(&mut self, n: usize)
        requires
            old(self).wf(),
        ensures
            final(self).wf(),
            final(self)@ == old(self)@.erase_display(n as nat),
    {
        if n == 0 {
            self.erase_below();
        } else if n == 1 {
            self.erase_above();
        } else if n == 2 || n == 3 {
            self.erase_all();
        }
    }

    fn erase_in_line(&mut self, n: usize)
        requires
            old(self).wf(),
        ensures
            final(self).wf(),
            final(self)@ == old(self)@.erase_in_line(n as nat),
    {
        if n == 0 {
            self.erase_line_right();
        } else if n == 1 {
            self.erase_line_left();
        } else if n == 2 {
            self.erase_line();
        }
    }

    fn set_region(&mut self, p: &[u32])
        requires
            old(self).wf(),
        ensures
            final(self).wf(),
            final(self)@ == old(self)@.with_region(number_views(p@)),
    {
        let ghost before = self@;
        let end: usize = self.rows - 1;
        let top: usize = smaller(nth_number(p, 0, 1) - 1, end);
        let bot: usize = smaller(nth_number(p, 1, self.rows) - 1, end);
        if top <= bot {
            self.scroll_top = top;
            self.scroll_bot = bot;
        }
        assert(self@ =~= before.with_region(number_views(p@)));
    }

    fn edit(&mut self, p: &[u32], b: u8)
        requires
            old(self).wf(),
        ensures
            final(self).wf(),
            final(self)@ == old(self)@.edited(number_views(p@), b),
    {
        let n: usize = nth_number(p, 0, 1);
        if b == 0x4a {
            self.erase_display(nth_number(p, 0, 0));
        } else if b == 0x4b {
            self.erase_in_line(nth_number(p, 0, 0));
        } else if b == 0x4c {
            self.insert_lines(n);
        } else if b == 0x4d {
            self.delete_lines(n);
        } else if b == 0x53 {
            self.scroll_up(n);
        } else if b == 0x54 {
            self.scroll_down(n);
        } else if b == 0x40 {
            self.insert_chars(n);
        } else if b == 0x50 {
            self.delete_chars(n);
        } else if b == 0x58 {
            self.erase_chars(n);
        } else if b == 0x62 {
            self.repeat_last(n);
        } else if b == 0x73 {
            self.save_cursor();
        } else if b == 0x75 {
            self.restore_cursor();
        } else if b == 0x72 {
            self.set_region(p);
        }
    }

    /// Applies a complete CSI sequence.
    pub fn apply_csi(&mut self, params: &[u8], final_b: u8)
        requires
            old(self).wf(),
        ensures
            final(self).wf(),
            final(self)@ == old(self)@.csi(params@, final_b),
    {
        let b: u8 = final_b;
        if b == 0x6d {
            let ghost before = self@;
            parse_sgr_params(&mut self.cur_state, params, &self.palette);
            assert(self@ =~= Screen {
                state: super::ansi::after_sgr(
                    before.state,
                    super::ansi::sgr_chunks(params@),
                    before.palette,
                ),
                ..before
            });
            self.intern_style();
            return;
        }
        let p: Vec<u32> = parse_params(params);
        if b == 0x48 || b == 0x66 || b == 0x41 || b == 0x42 || b == 0x65 || b == 0x43 || b == 0x61
            || b == 0x44 || b == 0x45 || b == 0x46 || b == 0x47 || b == 0x60 || b == 0x64 {
            self.move_cursor(p.as_slice(), b);
        } else {
            self.edit(p.as_slice(), b);
        }
    }
}

// ---------------------------------------------------------------------------
// Replaying bytes
// ---------------------------------------------------------------------------

/// The number of bytes before the final byte of a CSI sequence.
pub open spec fn csi_size(s: Seq<u8>) -> nat {
    super::ansi::csi_len(crate::text::widened(s))
}

/// The number of bytes before the terminator of a string sequence.
pub open spec fn string_size(s: Seq<u8>) -> nat {
    super::ansi::osc_len(crate::text::widened(s))
}

/// The number of bytes of that terminator.
pub open spec fn string_end(s: Seq<u8>) -> nat {
    super::ansi::osc_end(crate::text::widened(s))
}

/// The number of bytes that a UTF-8 sequence with this first byte claims.
pub open spec fn utf8_claim(b: u8) -> nat {
    if b < 0xc0 {
        1
    } else if b < 0xe0 {
        2
    } else if b < 0xf0 {
        3
    } else {
        4
    }
}

/// DCS, APC, PM and SOS begin a string sequence.
pub open spec fn is_string_start(b: u8) -> bool {
    b == 0x50 || b == 0x5f || b == 0x5e || b == 0x58
}

/// ESC with one of these designates a character set.
pub open spec fn is_designation(b: u8) -> bool {
    b == 0x28 || b == 0x29 || b == 0x2a || b == 0x2b
}

/// The control bytes that are read on their own.
pub open spec fn is_control(b: u8) -> bool {
    b == 0x0e || b == 0x0f || b == 0x0a || b == 0x0d || b == 0x08 || b == 0x07 || b == 0x00 || b
        == 0x09
}

/// The number of bytes of the escape sequence at the front of `s`.
pub open spec fn escape_size(s: Seq<u8>) -> nat {
    if s.len() < 2 {
        1
    } else if s[1] == 0x5b {
        let n = csi_size(s.skip(2));
        if n + 2 < s.len() {
            n + 3
        } else {
            s.len()
        }
    } else if s[1] == 0x5d || is_string_start(s[1]) {
        2 + string_size(s.skip(2)) + string_end(s.skip(2))
    } else if is_designation(s[1]) && s.len() > 2 {
        3
    } else {
        2
    }
}

/// The number of bytes of the first character or sequence of `s`.
pub open spec fn token_size(s: Seq<u8>) -> nat {
    if s[0] == 0x1b {
        escape_size(s)
    } else if is_control(s[0]) {
        1
    } else {
        min(utf8_claim(s[0]), s.len())
    }
}

/// The link that an OSC payload sets; `None` if it is of another kind.
pub open spec fn payload_link(payload: Seq<u8>) -> Option<Option<Seq<char>>> {
    if payload.len() >= 2 && payload[0] == 0x38 && payload[1] == 0x3b {
        let rest = payload.skip(2);
        let i = crate::text::until(rest, 0x3b);
        if i < rest.len() {
            let uri = rest.skip(i as int + 1);
            Some(
                if uri.len() == 0 {
                    None
                } else {
                    Some(crate::text::utf8_lossy(uri))
                },
            )
        } else {
            None
        }
    } else {
        None
    }
}

impl Screen {
    /// The screen with another link for what comes next.
    pub open spec fn with_link(self, link: Option<Seq<char>>) -> Screen {
        Screen {
            state: super::ansi::Style { hyperlink: link, ..self.state },
            ..self
        }.interned()
    }

    /// An OSC sequence: only the hyperlinks of OSC 8 count, and an
    /// unterminated sequence counts as empty.
    pub open spec fn osc(self, body: Seq<u8>) -> Screen {
        let payload = if string_end(body) == 0 {
            seq![]
        } else {
            body.take(string_size(body) as int)
        };
        match payload_link(payload) {
            Some(link) => self.with_link(link),
            None => self,
        }
    }

    /// A string sequence: a graphic of some size leaves a placeholder.
    pub open spec fn string(self, kind: u8, body: Seq<u8>) -> Screen {
        if string_size(body) > 16 && kind == 0x50 {
            self.put_text("[image]"@)
        } else if string_size(body) > 16 && kind == 0x5f {
            self.put_text("[graphic]"@)
        } else {
            self
        }
    }

    /// The screen with a character set chosen for G0 or G1.
    pub open spec fn designate(self, target: u8, set: u8) -> Screen {
        if target == 0x28 {
            Screen { g0: set == 0x30, ..self }
        } else if target == 0x29 {
            Screen { g1: set == 0x30, ..self }
        } else {
            self
        }
    }

    /// The escape sequence at the front of `s`.
    pub open spec fn escape(self, s: Seq<u8>) -> Screen {
        if s.len() < 2 {
            self
        } else if s[1] == 0x5b {
            let n = csi_size(s.skip(2));
            if n + 2 < s.len() {
                self.csi(s.subrange(2, 2 + n as int), s[2 + n as int])
            } else {
                self
            }
        } else if s[1] == 0x5d {
            self.osc(s.skip(2))
        } else if s[1] == 0x4d {
            self.reverse_index()
        } else if s[1] == 0x44 {
            self.line_feed()
        } else if s[1] == 0x45 {
            Screen { col: 0, ..self.line_feed() }
        } else if s[1] == 0x37 {
            self.save_cursor()
        } else if s[1] == 0x38 {
            self.restore_cursor()
        } else if is_string_start(s[1]) {
            self.string(s[1], s.skip(2))
        } else if is_designation(s[1]) && s.len() > 2 {
            self.designate(s[1], s[2])
        } else {
            self
        }
    }

    /// The next tab stop, or the last column.
    pub open spec fn tab(self) -> Screen {
        Screen { col: min((self.col / 8 + 1) * 8, (self.cols - 1) as nat), ..self }
    }

    /// A control byte. A line feed goes to the first column too: terminals run
    /// with that translation.
    pub open spec fn control(self, b: u8) -> Screen {
        if b == 0x0e {
            Screen { gl_is_g1: true, ..self }
        } else if b == 0x0f {
            Screen { gl_is_g1: false, ..self }
        } else if b == 0x0a {
            Screen { col: 0, ..self.line_feed() }
        } else if b == 0x0d {
            Screen { col: 0, ..self }
        } else if b == 0x08 {
            Screen { col: minus(self.col, 1), ..self }
        } else if b == 0x09 {
            self.tab()
        } else {
            self
        }
    }

    /// The first character or sequence of `s`. Bytes that are not UTF-8 are
    /// passed over.
    #[verifier::opaque]
    pub open spec fn step(self, s: Seq<u8>) -> Screen {
        if s[0] == 0x1b {
            self.escape(s)
        } else if is_control(s[0]) {
            self.control(s[0])
        } else {
            let bytes = s.take(token_size(s) as int);
            if vstd::utf8::valid_utf8(bytes) && vstd::utf8::decode_utf8(bytes).len() > 0 {
                self.put_char(vstd::utf8::decode_utf8(bytes)[0])
            } else {
                self
            }
        }
    }

    /// All of `s`.
    pub open spec fn replay(self, s: Seq<u8>) -> Screen
        decreases s.len(),
    {
        if s.len() == 0 || token_size(s) == 0 || token_size(s) > s.len() {
            self
        } else {
            self.step(s).replay(s.skip(token_size(s) as int))
        }
    }
}

fn measure_csi(s: &[u8]) -> (res: usize)
    ensures
        res == csi_size(s@),
        res <= s.len(),
{
    let ghost w = crate::text::widened(s@);
    let mut i: usize = 0;
    while i < s.len() && !(0x40 <= s[i] && s[i] <= 0x7e)
        invariant
            i <= s.len(),
            w == crate::text::widened(s@),
            forall|j: int| 0 <= j < i ==> !('@' <= #[trigger] w[j] <= '~'),
        decreases s.len() - i,
    {
        assert(w[i as int] == s@[i as int] as char);
        i += 1;
    }
    proof {
        if i < s.len() {
            assert(w[i as int] == s@[i as int] as char);
        }
        super::ansi::lemma_csi_len(w, i as int);
    }
    i
}

fn measure_string(s: &[u8]) -> (res: (usize, usize))
    ensures
        res.0 == string_size(s@),
        res.1 == string_end(s@),
        res.0 + res.1 <= s.len(),
{
    let ghost w = crate::text::widened(s@);
    let mut i: usize = 0;
    while i < s.len() && !(s[i] == 0x07 || (s[i] == 0x1b && s.len() - i > 1 && s[i + 1] == 0x5c))
        invariant
            i <= s.len(),
            w == crate::text::widened(s@),
            forall|j: int| 0 <= j < i ==> !#[trigger] super::ansi::osc_ends_at(w, j),
        decreases s.len() - i,
    {
        proof {
            assert(w[i as int] == s@[i as int] as char);
            if i + 1 < s.len() {
                assert(w[i + 1] == s@[i + 1] as char);
            }
            assert(!super::ansi::osc_ends_at(w, i as int));
        }
        i += 1;
    }
    proof {
        if i < s.len() {
            assert(w[i as int] == s@[i as int] as char);
            if i + 1 < s.len() {
                assert(w[i + 1] == s@[i + 1] as char);
            }
            assert(super::ansi::osc_ends_at(w, i as int));
        }
        super::ansi::lemma_osc_len(w, i as int);
    }
    if i >= s.len() {
        (i, 0)
    } else if s[i] == 0x07 {
        (i, 1)
    } else {
        (i, 2)
    }
}

fn utf8_char_len(b: u8) -> (res: usize)
    ensures
        res == utf8_claim(b),
{
    if b < 0xc0 {
        1
    } else if b < 0xe0 {
        2
    } else if b < 0xf0 {
        3
    } else {
        4
    }
}

fn read_link(payload: &[u8]) -> (res: Option<Option<String>>)
    ensures
        res is Some <==> payload_link(payload@) is Some,
        res matches Some(link) ==> payload_link(payload@) == Some(super::ansi::link_view(link)),
{
    if payload.len() >= 2 && payload[0] == 0x38 && payload[1] == 0x3b {
        let rest = slice_subrange(payload, 2, payload.len());
        assert(rest@ =~= payload@.skip(2));
        let i: usize = find_byte(rest, 0x3b);
        if i < rest.len() {
            let uri = slice_subrange(rest, i + 1, rest.len());
            assert(uri@ =~= rest@.skip(i + 1));
            if uri.len() == 0 {
                Some(None)
            } else {
                Some(Some(lossy_text(uri)))
            }
        } else {
            None
        }
    } else {
        None
    }
}

impl Grid {
    fn osc(&mut self, body: &[u8]) -> (res: usize)
        requires
            old(self).wf(),
        ensures
            final(self).wf(),
            final(self)@ == old(self)@.osc(body@),
            res == string_size(body@) + string_end(body@),
            res <= body@.len(),
    {
        let (n, end) = measure_string(body);
        let payload = if end == 0 {
            slice_subrange(body, 0, 0)
        } else {
            slice_subrange(body, 0, n)
        };
        proof {
            if end == 0 {
                assert(payload@ =~= seq![]);
            } else {
                assert(payload@ =~= body@.take(n as int));
            }
        }
        match read_link(payload) {
            Some(link) => self.set_link(link),
            None => {},
        }
        n + end
    }

    fn set_link(&mut self, link: Option<String>)
        requires
            old(self).wf(),
        ensures
            final(self).wf(),
            final(self)@ == old(self)@.with_link(super::ansi::link_view(link)),
    {
        let ghost before = self@;
        let ghost view = super::ansi::link_view(link);
        self.cur_state.hyperlink = link;
        assert(self@ =~= Screen {
            state: super::ansi::Style { hyperlink: view, ..before.state },
            ..before
        });
        self.intern_style();
    }

    fn string(&mut self, kind: u8, body: &[u8]) -> (res: usize)
        requires
            old(self).wf(),
        ensures
            final(self).wf(),
            final(self)@ == old(self)@.string(kind, body@),
            res == string_size(body@) + string_end(body@),
            res <= body@.len(),
    {
        let (n, end) = measure_string(body);
        if n > 16 && kind == 0x50 {
            self.put_text("[image]");
        } else if n > 16 && kind == 0x5f {
            self.put_text("[graphic]");
        }
        n + end
    }

    fn designate(&mut self, target: u8, set: u8)
        requires
            old(self).wf(),
        ensures
            final(self).wf(),
            final(self)@ == old(self)@.designate(target, set),
    {
        if target == 0x28 {
            self.g0_line_drawing = set == 0x30;
        } else if target == 0x29 {
            self.g1_line_drawing = set == 0x30;
        }
    }

    fn next_line(&mut self)
        requires
            old(self).wf(),
        ensures
            final(self).wf(),
            final(self)@ == (Screen { col: 0, ..old(self)@.line_feed() }),
    {
        self.line_feed();
        self.col = 0;
    }

    fn escape(&mut self, s: &[u8]) -> (res: usize)
        requires
            old(self).wf(),
            s@.len() > 0,
            s@[0] == 0x1b,
        ensures
            final(self).wf(),
            final(self)@ == old(self)@.escape(s@),
            res == escape_size(s@),
            1 <= res <= s@.len(),
    {
        if s.len() < 2 {
            return 1;
        }
        let rest = slice_subrange(s, 2, s.len());
        assert(rest@ =~= s@.skip(2));
        let b: u8 = s[1];
        if b == 0x5b {
            let n: usize = measure_csi(rest);
            if n < rest.len() {
                let params = slice_subrange(rest, 0, n);
                assert(params@ =~= s@.subrange(2, 2 + n));
                self.apply_csi(params, rest[n]);
                n + 3
            } else {
                s.len()
            }
        } else if b == 0x5d {
            2 + self.osc(rest)
        } else if b == 0x4d {
            self.reverse_index();
            2
        } else if b == 0x44 {
            self.line_feed();
            2
        } else if b == 0x45 {
            self.next_line();
            2
        } else if b == 0x37 {
            self.save_cursor();
            2
        } else if b == 0x38 {
            self.restore_cursor();
            2
        } else if b == 0x50 || b == 0x5f || b == 0x5e || b == 0x58 {
            2 + self.string(b, rest)
        } else if (b == 0x28 || b == 0x29 || b == 0x2a || b == 0x2b) && s.len() > 2 {
            self.designate(b, s[2]);
            3
        } else {
            2
        }
    }

    fn tab(&mut self)
        requires
            old(self).wf(),
        ensures
            final(self).wf(),
            final(self)@ == old(self)@.tab(),
    {
        let step: usize = 8 - self.col % 8;
        if self.col < self.cols && self.cols - 1 - self.col >= step {
            self.col = self.col + step;
        } else {
            self.col = self.cols - 1;
        }
    }

    fn control(&mut self, b: u8)
        requires
            old(self).wf(),
        ensures
            final(self).wf(),
            final(self)@ == old(self)@.control(b),
    {
        if b == 0x0e {
            self.gl_is_g1 = true;
        } else if b == 0x0f {
            self.gl_is_g1 = false;
        } else if b == 0x0a {
            self.next_line();
        } else if b == 0x0d {
            self.col = 0;
        } else if b == 0x08 {
            if self.col > 0 {
                self.col = self.col - 1;
            }
        } else if b == 0x09 {
            self.tab();
        }
    }

    fn take(&mut self, s: &[u8]) -> (res: usize)
        requires
            old(self).wf(),
            s@.len() > 0,
        ensures
            final(self).wf(),
            final(self)@ == old(self)@.step(s@),
            res == token_size(s@),
            1 <= res <= s@.len(),
    {
        proof {
            reveal(Screen::step);
        }
        let b: u8 = s[0];
        if b == 0x1b {
            self.escape(s)
        } else if b == 0x0e || b == 0x0f || b == 0x0a || b == 0x0d || b == 0x08 || b == 0x07 || b
            == 0x00 || b == 0x09 {
            self.control(b);
            1
        } else {
            let n: usize = smaller(utf8_char_len(b), s.len());
            let bytes = slice_subrange(s, 0, n);
            assert(bytes@ =~= s@.take(n as int));
            if let Some(text) = utf8_str(bytes) {
                let chars: Vec<char> = chars_of(text);
                if chars.len() > 0 {
                    self.put_char(chars[0]);
                }
            }
            n
        }
    }

    /// Replays recorded output.
    pub fn replay(&mut self, bytes: &[u8])
        requires
            old(self).wf(),
        ensures
            final(self).wf(),
            final(self)@ == old(self)@.replay(bytes@),
    {
        let ghost target = self@.replay(bytes@);
        let mut i: usize = 0;
        assert(bytes@.skip(0) =~= bytes@);
        while i < bytes.len()
            invariant
                i <= bytes.len(),
                self.wf(),
                self@.replay(bytes@.skip(i as int)) == target,
            decreases bytes.len() - i,
        {
            let rest = slice_subrange(bytes, i, bytes.len());
            assert(rest@ =~= bytes@.skip(i as int));
            let n: usize = self.take(rest);
            assert(rest@.skip(n as int) =~= bytes@.skip(i + n));
            i += n;
        }
    }
}

// ---------------------------------------------------------------------------
// Telling repaints from streams
// ---------------------------------------------------------------------------

/// The final bytes of CSI sequences that move the cursor, clear or scroll.
pub open spec fn repositions(b: u8) -> bool {
    b == 0x48 || b == 0x66 || b == 0x41 || b == 0x42 || b == 0x43 || b == 0x44 || b == 0x45 || b
        == 0x46 || b == 0x47 || b == 0x64 || b == 0x60 || b == 0x4a || b == 0x4b || b == 0x72 || b
        == 0x73 || b == 0x75 || b == 0x4c || b == 0x4d || b == 0x53 || b == 0x54 || b == 0x40 || b
        == 0x50 || b == 0x58 || b == 0x62 || b == 0x61 || b == 0x65
}

/// The bytes hold an escape that makes their text order lie about what is
/// visible.
pub open spec fn is_repainted(s: Seq<u8>) -> bool
    decreases s.len(),
{
    if s.len() < 2 {
        false
    } else if s[0] != 0x1b {
        is_repainted(s.skip(1))
    } else if s[1] == 0x5b {
        let n = csi_size(s.skip(2));
        n + 2 < s.len() && (repositions(s[2 + n as int]) || is_repainted(s.skip(n as int + 3)))
    } else if s[1] == 0x4d || s[1] == 0x50 || s[1] == 0x5f {
        true
    } else if s[1] == 0x5d {
        proof {
            super::ansi::osc_lies_within(crate::text::widened(s.skip(2)));
        }
        is_repainted(s.skip(2).skip((string_size(s.skip(2)) + string_end(s.skip(2))) as int))
    } else {
        is_repainted(s.skip(2))
    }
}

fn is_repositioning(b: u8) -> (res: bool)
    ensures
        res == repositions(b),
{
    b == 0x48 || b == 0x66 || b == 0x41 || b == 0x42 || b == 0x43 || b == 0x44 || b == 0x45 || b
        == 0x46 || b == 0x47 || b == 0x64 || b == 0x60 || b == 0x4a || b == 0x4b || b == 0x72 || b
        == 0x73 || b == 0x75 || b == 0x4c || b == 0x4d || b == 0x53 || b == 0x54 || b == 0x40 || b
        == 0x50 || b == 0x58 || b == 0x62 || b == 0x61 || b == 0x65
}

/// True if `bytes` contain any CSI escape that moves the cursor or clears the
/// screen, or a graphic, so that plain stripping of escapes would lose
/// something. Plain streamed output needs no replay.
pub fn has_cursor_positioning(bytes: &[u8]) -> (res: bool)
    ensures
        res == is_repainted(bytes@),
{
    let mut i: usize = 0;
    assert(bytes@.skip(0) =~= bytes@);
    while bytes.len() - i >= 2
        invariant
            i <= bytes.len(),
            is_repainted(bytes@.skip(i as int)) == is_repainted(bytes@),
        decreases bytes.len() - i,
    {
        let ghost s = bytes@.skip(i as int);
        assert(s[0] == bytes@[i as int] && s[1] == bytes@[i + 1]);
        if bytes[i] != 0x1b {
            assert(s.skip(1) =~= bytes@.skip(i + 1));
            i += 1;
            continue ;
        }
        let rest = slice_subrange(bytes, i + 2, bytes.len());
        assert(rest@ =~= s.skip(2));
        let b: u8 = bytes[i + 1];
        if b == 0x5b {
            let n: usize = measure_csi(rest);
            if n >= rest.len() {
                return false;
            }
            assert(rest@[n as int] == s[2 + n]);
            if is_repositioning(rest[n]) {
                return true;
            }
            assert(s.skip(n + 3) =~= bytes@.skip(i + n + 3));
            i = i + n + 3;
        } else if b == 0x4d || b == 0x50 || b == 0x5f {
            return true;
        } else if b == 0x5d {
            let (n, end) = measure_string(rest);
            assert(s.skip(2).skip(n + end) =~= bytes@.skip(i + 2 + n + end));
            i = i + 2 + n + end;
        } else {
            assert(s.skip(2) =~= bytes@.skip(i + 2));
            i += 2;
        }
    }
    false
}

// ---------------------------------------------------------------------------
// Rows in visual order
// ---------------------------------------------------------------------------

/// The characters that the bidirectional algorithm could possibly reorder.
pub open spec fn needs_reordering(c: char) -> bool {
    ||| '\u{590}' <= c <= '\u{8ff}'
    ||| '\u{fb1d}' <= c <= '\u{fdff}'
    ||| '\u{fe70}' <= c <= '\u{feff}'
    ||| '\u{10800}' <= c <= '\u{10fff}'
    ||| '\u{1e800}' <= c <= '\u{1efff}'
}

/// Some cell could be reordered.
pub open spec fn any_reordering(cells: Seq<Cell>) -> bool {
    exists|i: int| 0 <= i < cells.len() && needs_reordering((#[trigger] cells[i]).0)
}

/// The characters of a row of cells.
pub open spec fn row_text(cells: Seq<Cell>) -> Seq<char> {
    Seq::new(cells.len(), |i: int| cells[i].0)
}

/// The number of bytes before the character at position `i`.
pub open spec fn byte_offset(cells: Seq<Cell>, i: int) -> nat
    decreases i,
{
    if i <= 0 {
        0
    } else {
        byte_offset(cells, i - 1) + crate::text::utf8_len(cells[i - 1].0)
    }
}

/// The cells among the first `n` whose bytes begin at `from` or later and
/// before `to`.
pub open spec fn cells_between(cells: Seq<Cell>, from: nat, to: nat, n: int) -> Seq<Cell>
    decreases n,
{
    if n <= 0 {
        seq![]
    } else {
        let rest = cells_between(cells, from, to, n - 1);
        if from <= byte_offset(cells, n - 1) < to {
            rest.push(cells[n - 1])
        } else {
            rest
        }
    }
}

/// A cell with its mirror image, if it has one.
pub open spec fn mirrored_cell(cell: Cell) -> Cell {
    (
        match mirror(cell.0) {
            Some(c) => c,
            None => cell.0,
        },
        cell.1,
    )
}

/// Cells that read from right to left, as they are shown.
pub open spec fn backwards(cells: Seq<Cell>) -> Seq<Cell> {
    Seq::new(cells.len(), |i: int| mirrored_cell(cells[cells.len() - 1 - i]))
}

/// The cells of one run, as they are shown.
pub open spec fn run_cells(cells: Seq<Cell>, run: (nat, nat, Option<bool>)) -> Seq<Cell> {
    let part = cells_between(cells, run.0, run.1, cells.len() as int);
    match run.2 {
        Some(true) => backwards(part),
        Some(false) => part,
        None => seq![],
    }
}

/// The cells of all runs, in order.
pub open spec fn arranged(cells: Seq<Cell>, runs: Seq<(nat, nat, Option<bool>)>) -> Seq<Cell>
    decreases runs.len(),
{
    if runs.len() == 0 {
        seq![]
    } else {
        arranged(cells, runs.drop_last()) + run_cells(cells, runs.last())
    }
}

/// A row in visual order.
pub open spec fn displayed(cells: Seq<Cell>) -> Seq<Cell> {
    if any_reordering(cells) && reads_rtl(row_text(cells)) {
        arranged(cells, display_runs(row_text(cells)))
    } else {
        cells
    }
}

fn needs_bidi(c: char) -> (res: bool)
    ensures
        res == needs_reordering(c),
{
    ('\u{590}' <= c && c <= '\u{8ff}') || ('\u{fb1d}' <= c && c <= '\u{fdff}') || ('\u{fe70}' <= c
        && c <= '\u{feff}') || ('\u{10800}' <= c && c <= '\u{10fff}') || ('\u{1e800}' <= c && c
        <= '\u{1efff}')
}

fn has_bidi(cells: &[Cell]) -> (res: bool)
    ensures
        res == any_reordering(cells@),
{
    let mut i: usize = 0;
    while i < cells.len()
        invariant
            i <= cells.len(),
            forall|j: int| 0 <= j < i ==> !needs_reordering((#[trigger] cells@[j]).0),
        decreases cells.len() - i,
    {
        if needs_bidi(cells[i].0) {
            return true;
        }
        i += 1;
    }
    false
}

fn pick_cells(cells: &[Cell], from: usize, to: usize) -> (res: Vec<Cell>)
    ensures
        res@ == cells_between(cells@, from as nat, to as nat, cells@.len() as int),
{
    let mut out: Vec<Cell> = Vec::new();
    let mut offset: u128 = 0;
    let mut i: usize = 0;
    while i < cells.len()
        invariant
            i <= cells.len(),
            offset == byte_offset(cells@, i as int),
            offset <= 4 * i,
            out@ == cells_between(cells@, from as nat, to as nat, i as int),
        decreases cells.len() - i,
    {
        if from as u128 <= offset && offset < to as u128 {
            out.push(cells[i]);
        }
        offset = offset + char_bytes(cells[i].0);
        i += 1;
    }
    out
}

fn reverse_cells(cells: &[Cell]) -> (res: Vec<Cell>)
    ensures
        res@ == backwards(cells@),
{
    let mut out: Vec<Cell> = Vec::new();
    let mut i: usize = 0;
    while i < cells.len()
        invariant
            i <= cells.len(),
            out@ == backwards(cells@).take(i as int),
        decreases cells.len() - i,
    {
        let (c, id) = cells[cells.len() - 1 - i];
        out.push(
            match mirrored(c) {
                Some(m) => (m, id),
                None => (c, id),
            },
        );
        assert(out@ =~= backwards(cells@).take(i + 1));
        i += 1;
    }
    assert(backwards(cells@).take(i as int) =~= backwards(cells@));
    out
}

/// Puts the cells of a row into visual order, given the runs of its text:
/// characters inside right-to-left runs are shown in reverse, each as its
/// mirror image where it has one.
pub fn arrange(cells: &[Cell], runs: &[(usize, usize, Option<bool>)]) -> (res: Vec<Cell>)
    ensures
        res@ == arranged(cells@, bidi_views(runs@)),
{
    let mut out: Vec<Cell> = Vec::new();
    let ghost views = bidi_views(runs@);
    let mut i: usize = 0;
    while i < runs.len()
        invariant
            i <= runs.len(),
            views == bidi_views(runs@),
            out@ == arranged(cells@, views.take(i as int)),
        decreases runs.len() - i,
    {
        let (from, to, rtl) = runs[i];
        let ghost before = out@;
        proof {
            assert(views.take(i + 1).drop_last() =~= views.take(i as int));
            assert(views.take(i + 1).last() == (from as nat, to as nat, rtl));
        }
        match rtl {
            Some(backward) => {
                let part: Vec<Cell> = pick_cells(cells, from, to);
                let mut shown: Vec<Cell> = if backward {
                    reverse_cells(part.as_slice())
                } else {
                    part
                };
                out.append(&mut shown);
            },
            None => {},
        }
        assert(out@ =~= before + run_cells(cells@, (from as nat, to as nat, rtl)));
        i += 1;
    }
    assert(views.take(i as int) =~= views);
    out
}

/// Puts a row into visual order. Rows without characters that could be
/// reordered are left alone.
fn display_row(cells: Vec<Cell>) -> (res: Vec<Cell>)
    ensures
        res@ == displayed(cells@),
{
    if !has_bidi(cells.as_slice()) {
        return cells;
    }
    let mut chars: Vec<char> = Vec::new();
    let mut i: usize = 0;
    while i < cells.len()
        invariant
            i <= cells.len(),
            chars@ == row_text(cells@).take(i as int),
        decreases cells.len() - i,
    {
        chars.push(cells[i].0);
        assert(chars@ =~= row_text(cells@).take(i + 1));
        i += 1;
    }
    assert(row_text(cells@).take(i as int) =~= row_text(cells@));
    let text: String = text_of(chars.as_slice());
    if !has_rtl(text.as_str()) {
        return cells;
    }
    let runs: Vec<(usize, usize, Option<bool>)> = visual_runs(text.as_str());
    arrange(cells.as_slice(), runs.as_slice())
}

// ---------------------------------------------------------------------------
// From the screen to text
// ---------------------------------------------------------------------------

/// The cells without the second halves of wide characters.
pub open spec fn whole_cells(cells: Seq<Cell>) -> Seq<Cell>
    decreases cells.len(),
{
    if cells.len() == 0 {
        seq![]
    } else if cells.last().0 == '\0' {
        whole_cells(cells.drop_last())
    } else {
        whole_cells(cells.drop_last()).push(cells.last())
    }
}

/// The cells without the plain blanks at their end.
pub open spec fn without_blanks(cells: Seq<Cell>) -> Seq<Cell>
    decreases cells.len(),
{
    if cells.len() > 0 && (cells.last().0 == ' ' || cells.last().0 == '\0') && cells.last().1 == 0 {
        without_blanks(cells.drop_last())
    } else {
        cells
    }
}

/// The cells without white space at their end.
pub open spec fn without_white(cells: Seq<Cell>) -> Seq<Cell>
    decreases cells.len(),
{
    if cells.len() > 0 && crate::text::is_white(cells.last().0) {
        without_white(cells.drop_last())
    } else {
        cells
    }
}

/// A row as text with styles shows it: coloured cells stay.
pub open spec fn styled_row(cells: Seq<Cell>) -> Seq<Cell> {
    displayed(whole_cells(without_blanks(cells)))
}

/// A row as plain text shows it.
pub open spec fn plain_row(cells: Seq<Cell>) -> Seq<Cell> {
    displayed(without_white(whole_cells(cells)))
}

/// The text written so far, with the style and the link in force.
#[verifier::ext_equal]
pub struct Pen {
    pub out: Seq<char>,
    pub id: u16,
    pub link: Option<Seq<char>>,
}

/// The OSC 8 sequence that begins a link, or ends the one in force.
pub open spec fn link_switch(link: Option<Seq<char>>) -> Seq<char> {
    match link {
        Some(uri) => "\x1b]8;;"@ + uri + "\x1b\\"@,
        None => "\x1b]8;;\x1b\\"@,
    }
}

impl Pen {
    /// Changes to the style of index `id`.
    pub open spec fn switch(self, id: u16, table: Seq<super::ansi::Style>) -> Pen {
        if id == self.id {
            self
        } else {
            let style = table[id as int];
            Pen {
                out: self.out + super::ansi::encoded_sgr(style) + (if style.hyperlink == self.link {
                    seq![]
                } else {
                    link_switch(style.hyperlink)
                }),
                id,
                link: style.hyperlink,
            }
        }
    }

    /// Writes one cell.
    pub open spec fn put(self, cell: Cell, table: Seq<super::ansi::Style>) -> Pen {
        let p = self.switch(cell.1, table);
        Pen { out: p.out.push(cell.0), ..p }
    }

    /// Writes a row of cells.
    pub open spec fn put_row(self, cells: Seq<Cell>, table: Seq<super::ansi::Style>) -> Pen
        decreases cells.len(),
    {
        if cells.len() == 0 {
            self
        } else {
            self.put_row(cells.drop_last(), table).put(cells.last(), table)
        }
    }

    /// Writes the first `n` rows, each on a line of its own.
    pub open spec fn put_rows(
        self,
        rows: Seq<Seq<Cell>>,
        n: int,
        table: Seq<super::ansi::Style>,
    ) -> Pen
        decreases n,
    {
        if n <= 0 {
            self
        } else {
            let before = self.put_rows(rows, n - 1, table);
            let start = if n == 1 {
                before
            } else {
                Pen { out: before.out.push('\n'), ..before }
            };
            start.put_row(styled_row(rows[n - 1]), table)
        }
    }

    /// Ends the style and the link in force.
    pub open spec fn closed(self) -> Seq<char> {
        self.out + (if self.id != 0 {
            "\x1b[0m"@
        } else {
            seq![]
        }) + (if self.link is Some {
            "\x1b]8;;\x1b\\"@
        } else {
            seq![]
        })
    }
}

/// The text without the newlines at its end.
pub open spec fn without_blank_lines(s: Seq<char>) -> Seq<char>
    decreases s.len(),
{
    if s.len() > 0 && s.last() == '\n' {
        without_blank_lines(s.drop_last())
    } else {
        s
    }
}

/// The first `n` rows as plain text.
pub open spec fn plain_lines(rows: Seq<Seq<Cell>>, n: int) -> Seq<char>
    decreases n,
{
    if n <= 0 {
        seq![]
    } else if n == 1 {
        row_text(plain_row(rows[0]))
    } else {
        plain_lines(rows, n - 1).push('\n') + row_text(plain_row(rows[n - 1]))
    }
}

impl Screen {
    /// The text of the screen with the escapes of its styles and links.
    pub open spec fn ansi_text(self) -> Seq<char> {
        without_blank_lines(
            (Pen { out: seq![], id: 0, link: None }).put_rows(
                self.cells,
                self.high as int + 1,
                self.table,
            ).closed(),
        )
    }

    /// The text of the screen.
    pub open spec fn plain_text(self) -> Seq<char> {
        without_blank_lines(plain_lines(self.cells, self.high as int + 1))
    }
}

fn drop_halves(cells: &[Cell]) -> (res: Vec<Cell>)
    ensures
        res@ == whole_cells(cells@),
{
    let mut out: Vec<Cell> = Vec::new();
    let mut i: usize = 0;
    while i < cells.len()
        invariant
            i <= cells.len(),
            out@ == whole_cells(cells@.take(i as int)),
        decreases cells.len() - i,
    {
        assert(cells@.take(i + 1).drop_last() =~= cells@.take(i as int));
        if cells[i].0 != '\0' {
            out.push(cells[i]);
        }
        i += 1;
    }
    assert(cells@.take(i as int) =~= cells@);
    out
}

fn trim_blanks(cells: &[Cell]) -> (res: &[Cell])
    ensures
        res@ == without_blanks(cells@),
{
    let mut end: usize = cells.len();
    assert(cells@.take(end as int) =~= cells@);
    while end > 0 && (cells[end - 1].0 == ' ' || cells[end - 1].0 == '\0') && cells[end - 1].1 == 0
        invariant
            end <= cells.len(),
            without_blanks(cells@.take(end as int)) == without_blanks(cells@),
        decreases end,
    {
        assert(cells@.take(end as int).drop_last() =~= cells@.take(end - 1));
        end -= 1;
    }
    let res = slice_subrange(cells, 0, end);
    assert(res@ =~= cells@.take(end as int));
    res
}

fn trim_white(cells: &mut Vec<Cell>)
    ensures
        final(cells)@ == without_white(old(cells)@),
{
    while cells.len() > 0 && crate::text::is_whitespace(cells[cells.len() - 1].0)
        invariant
            without_white(cells@) == without_white(old(cells)@),
        decreases cells.len(),
    {
        let ghost before = cells@;
        cells.pop();
        assert(cells@ =~= before.drop_last());
    }
}

struct Writer {
    out: Vec<char>,
    id: u16,
    link: Option<String>,
}

impl View for Writer {
    type V = Pen;

    closed spec fn view(&self) -> Pen {
        Pen { out: self.out@, id: self.id, link: super::ansi::link_view(self.link) }
    }
}

impl Writer {
    fn put_link(&mut self, link: &Option<String>)
        ensures
            final(self).id == old(self).id,
            super::ansi::link_view(final(self).link) == super::ansi::link_view(*link),
            final(self).out@ == old(self).out@ + link_switch(super::ansi::link_view(*link)),
    {
        match link {
            Some(uri) => {
                push_text(&mut self.out, "\x1b]8;;");
                push_text(&mut self.out, uri.as_str());
                push_text(&mut self.out, "\x1b\\");
                assert(self.out@ =~= old(self).out@ + link_switch(Some(uri@)));
            },
            None => push_text(&mut self.out, "\x1b]8;;\x1b\\"),
        }
        self.link = clone_link(link);
    }

    fn put(&mut self, cell: Cell, table: &Vec<AnsiStyleState>)
        requires
            cell.1 < table.len(),
        ensures
            final(self)@ == old(self)@.put(cell, style_views(table@)),
    {
        let ghost before = self@;
        let ghost views = style_views(table@);
        if cell.1 != self.id {
            let style: &AnsiStyleState = &table[cell.1 as usize];
            assert(views[cell.1 as int] == style@);
            let sgr: String = encode_sgr(style);
            push_text(&mut self.out, sgr.as_str());
            if !same_link(&style.hyperlink, &self.link) {
                self.put_link(&style.hyperlink);
            }
            self.id = cell.1;
            assert(self@ =~= before.switch(cell.1, views));
        }
        self.out.push(cell.0);
        assert(self@ =~= before.put(cell, views));
    }

    fn put_row(&mut self, cells: &[Cell], table: &Vec<AnsiStyleState>)
        requires
            forall|i: int| 0 <= i < cells@.len() ==> (#[trigger] cells@[i]).1 < table.len(),
        ensures
            final(self)@ == old(self)@.put_row(cells@, style_views(table@)),
    {
        let ghost before = self@;
        let mut i: usize = 0;
        while i < cells.len()
            invariant
                i <= cells.len(),
                forall|i: int| 0 <= i < cells@.len() ==> (#[trigger] cells@[i]).1 < table.len(),
                self@ == before.put_row(cells@.take(i as int), style_views(table@)),
            decreases cells.len() - i,
        {
            self.put(cells[i], table);
            assert(cells@.take(i + 1).drop_last() =~= cells@.take(i as int));
            i += 1;
        }
        assert(cells@.take(i as int) =~= cells@);
    }
}

/// All style indices of the cells are below `n`.
spec fn ids_below(cells: Seq<Cell>, n: nat) -> bool {
    forall|i: int| 0 <= i < cells.len() ==> (#[trigger] cells[i]).1 < n
}

proof fn lemma_whole_ids(cells: Seq<Cell>, n: nat)
    requires
        ids_below(cells, n),
    ensures
        ids_below(whole_cells(cells), n),
    decreases cells.len(),
{
    if cells.len() > 0 {
        lemma_whole_ids(cells.drop_last(), n);
    }
}

proof fn lemma_blank_ids(cells: Seq<Cell>, n: nat)
    requires
        ids_below(cells, n),
    ensures
        ids_below(without_blanks(cells), n),
    decreases cells.len(),
{
    if cells.len() > 0 {
        lemma_blank_ids(cells.drop_last(), n);
    }
}

proof fn lemma_between_ids(cells: Seq<Cell>, from: nat, to: nat, k: int, n: nat)
    requires
        ids_below(cells, n),
        k <= cells.len(),
    ensures
        ids_below(cells_between(cells, from, to, k), n),
    decreases k,
{
    if k > 0 {
        lemma_between_ids(cells, from, to, k - 1, n);
        assert(cells[k - 1].1 < n);
    }
}

proof fn lemma_arranged_ids(cells: Seq<Cell>, runs: Seq<(nat, nat, Option<bool>)>, n: nat)
    requires
        ids_below(cells, n),
    ensures
        ids_below(arranged(cells, runs), n),
    decreases runs.len(),
{
    if runs.len() > 0 {
        lemma_arranged_ids(cells, runs.drop_last(), n);
        let run = runs.last();
        let part = cells_between(cells, run.0, run.1, cells.len() as int);
        lemma_between_ids(cells, run.0, run.1, cells.len() as int, n);
        assert(ids_below(backwards(part), n));
        assert(ids_below(run_cells(cells, run), n));
    }
}

proof fn lemma_row_ids(cells: Seq<Cell>, n: nat)
    requires
        ids_below(cells, n),
    ensures
        ids_below(styled_row(cells), n),
{
    lemma_blank_ids(cells, n);
    lemma_whole_ids(without_blanks(cells), n);
    let w = whole_cells(without_blanks(cells));
    lemma_arranged_ids(w, display_runs(row_text(w)), n);
}

fn trim_blank_lines(out: &mut Vec<char>)
    ensures
        final(out)@ == without_blank_lines(old(out)@),
{
    while out.len() > 0 && out[out.len() - 1] == '\n'
        invariant
            without_blank_lines(out@) == without_blank_lines(old(out)@),
        decreases out.len(),
    {
        let ghost before = out@;
        out.pop();
        assert(out@ =~= before.drop_last());
    }
}

impl Grid {
    /// The text of the grid with the escapes of its styles and links. Blanks
    /// at the end of a row are dropped unless they are coloured.
    pub fn to_ansi(&self) -> (res: String)
        requires
            self.wf(),
        ensures
            res@ == self@.ansi_text(),
    {
        let mut pen = Writer { out: Vec::new(), id: 0, link: None };
        let ghost start = Pen { out: seq![], id: 0, link: None };
        let ghost table = self@.table;
        let mut r: usize = 0;
        assert(pen@ =~= start);
        while r <= self.high_water
            invariant
                self.wf(),
                table == self@.table,
                r <= self.high_water + 1,
                self.high_water < self.rows,
                pen@ == start.put_rows(self@.cells, r as int, table),
            decreases self.high_water + 1 - r,
        {
            let ghost before = pen@;
            if r > 0 {
                pen.out.push('\n');
            }
            let row: Vec<Cell> = display_row(drop_halves(trim_blanks(self.cells[r].as_slice())));
            proof {
                let cells = self@.cells[r as int];
                assert(cells == self.cells@[r as int]@);
                assert forall|i: int| 0 <= i < cells.len() implies (#[trigger] cells[i]).1
                    < table.len() by {
                    assert(self@.cells[r as int][i].1 < self@.table.len());
                }
                lemma_row_ids(cells, table.len());
                assert(ids_below(row@, table.len()));
            }
            let ghost mid = pen@;
            pen.put_row(row.as_slice(), &self.style_table);
            proof {
                assert(mid =~= if r == 0 {
                    before
                } else {
                    Pen { out: before.out.push('\n'), ..before }
                });
            }
            r += 1;
        }
        let ghost before = pen@;
        if pen.id != 0 {
            push_text(&mut pen.out, "\x1b[0m");
        }
        if pen.link.is_some() {
            push_text(&mut pen.out, "\x1b]8;;\x1b\\");
        }
        assert(pen.out@ =~= before.closed());
        trim_blank_lines(&mut pen.out);
        text_of(pen.out.as_slice())
    }

    /// The plain text of the grid: styles and links are dropped, white space
    /// at the end of a row is trimmed.
    pub fn to_text(&self) -> (res: String)
        requires
            self.wf(),
        ensures
            res@ == self@.plain_text(),
    {
        let mut out: Vec<char> = Vec::new();
        let mut r: usize = 0;
        while r <= self.high_water
            invariant
                self.wf(),
                r <= self.high_water + 1,
                self.high_water < self.rows,
                out@ == plain_lines(self@.cells, r as int),
            decreases self.high_water + 1 - r,
        {
            let ghost before = out@;
            if r > 0 {
                out.push('\n');
            }
            let mut whole: Vec<Cell> = drop_halves(self.cells[r].as_slice());
            trim_white(&mut whole);
            let row: Vec<Cell> = display_row(whole);
            assert(row@ == plain_row(self@.cells[r as int]));
            let ghost mid = out@;
            let mut i: usize = 0;
            assert(mid + row_text(row@).take(0) =~= mid);
            while i < row.len()
                invariant
                    i <= row.len(),
                    out@ == mid + row_text(row@).take(i as int),
                decreases row.len() - i,
            {
                out.push(row[i].0);
                assert(out@ =~= mid + row_text(row@).take(i + 1));
                i += 1;
            }
            proof {
                assert(row_text(row@).take(i as int) =~= row_text(row@));
                if r == 0 {
                    assert(mid =~= seq![]);
                    assert(out@ =~= plain_lines(self@.cells, 1));
                } else {
                    assert(out@ =~= plain_lines(self@.cells, r + 1));
                }
            }
            r += 1;
        }
        trim_blank_lines(&mut out);
        text_of(out.as_slice())
    }
}

fn at_least_one(n: usize) -> (res: usize)
    ensures
        res == max(n as nat, 1),
{
    if n == 0 {
        1
    } else {
        n
    }
}

/// The screen after recorded output was replayed on an empty one of at least
/// one row and column.
pub open spec fn rendered(bytes: Seq<u8>, cols: nat, rows: nat, palette: Seq<Rgb>) -> Screen {
    empty_screen(max(cols, 1), max(rows, 1), palette).replay(bytes)
}

/// A palette with nothing but black.
pub open spec fn black_palette() -> Seq<Rgb> {
    Seq::new(16, |i: int| Rgb { r: 0, g: 0, b: 0 })
}

/// The text of the screen after recorded output was replayed.
pub open spec fn rendered_text(bytes: Seq<u8>, cols: nat, rows: nat) -> Seq<char> {
    rendered(bytes, cols, rows, black_palette()).plain_text()
}

/// Replays `bytes` onto a `cols × rows` grid and returns the resulting text.
/// Trailing whitespace per row is trimmed; trailing blank rows are dropped.
/// Colours and links are dropped.
pub fn render_to_text(bytes: &[u8], cols: usize, rows: usize) -> (res: String)
    ensures
        res@ == rendered_text(bytes@, cols as nat, rows as nat),
{
    let palette: [Rgb; 16] = default_palette();
    assert(palette@ =~= black_palette());
    let mut grid = Grid::new(at_least_one(cols), at_least_one(rows), palette);
    grid.replay(bytes);
    grid.to_text()
}

fn default_palette() -> (res: [Rgb; 16])
    ensures
        forall|i: int| 0 <= i < 16 ==> res@[i] == (Rgb { r: 0, g: 0, b: 0 }),
{
    let k = Rgb { r: 0, g: 0, b: 0 };
    [k, k, k, k, k, k, k, k, k, k, k, k, k, k, k, k]
}

/// Replays `bytes` onto a `cols × rows` grid and returns the resulting text
/// with its SGR escapes and hyperlinks, so colourised pager output keeps its
/// colours when the recorded block is rendered. The `palette` maps indexed
/// colours (SGR 30-37/40-47/90-97/100-107 and 38;5/48;5) to RGB.
pub fn render_to_ansi(bytes: &[u8], cols: usize, rows: usize, palette: &[Rgb; 16]) -> (res: String)
    ensures
        res@ == rendered(bytes@, cols as nat, rows as nat, palette@).ansi_text(),
{
    let mut grid = Grid::new(at_least_one(cols), at_least_one(rows), *palette);
    grid.replay(bytes);
    grid.to_ansi()
}

// ---------------------------------------------------------------------------
// Laws
// ---------------------------------------------------------------------------

/// The parameters of a sequence such as `CSI 2 J`.
proof fn lemma_one_digit(b: u8)
    requires
        0x30 <= b <= 0x39,
    ensures
        csi_numbers(seq![b]) == seq![(b - 0x30u8) as nat],
{
    let p = seq![b];
    assert(with_semicolons(p) =~= p);
    crate::text::lemma_until_at(p, 0x3bu8, 1);
    let chunks = crate::text::split_on(p, 0x3bu8);
    assert(chunks =~= seq![p]);
    let w = crate::text::widened(p);
    assert(w[0] == b as char);
    assert(w.drop_last() =~= seq![]);
    reveal_with_fuel(crate::text::digits_value, 2);
    assert(crate::text::digits_value(w) == b - 0x30);
    assert(crate::text::all_digits(w));
    assert(csi_numbers(p) =~= seq![(b - 0x30u8) as nat]);
}

/// Clearing the screen and going to its first cell, as a pager does before it
/// paints a page, leaves nothing of the pages before: every cell is blank
/// again and the height is counted anew.
pub proof fn clearing_forgets_the_page(s: Screen)
    requires
        s.wf(),
        s.state.background is None,
    ensures
        s.csi(seq![0x32u8], 0x4a).csi(seq![], 0x48) == (Screen {
            cells: empty_screen(s.cols, s.rows, s.palette).cells,
            row: 0,
            col: 0,
            high: 0,
            ..s
        }),
{
    lemma_one_digit(0x32);
    let t = s.csi(seq![0x32u8], 0x4a);
    assert(t == s.erase_all());
    assert(t.cells =~= empty_screen(s.cols, s.rows, s.palette).cells) by {
        assert forall|r: int| 0 <= r < s.rows implies #[trigger] t.cells[r] == empty_screen(
            s.cols,
            s.rows,
            s.palette,
        ).cells[r] by {
            assert(t.cells[r] =~= empty_screen(s.cols, s.rows, s.palette).cells[r]);
        }
    }
    assert(csi_numbers(seq![]) =~= seq![]);
    assert(t.csi(seq![], 0x48) =~= t.at(0, 0));
}

/// Restoring the cursor right after saving it changes nothing but a cursor
/// that stands behind the last column, which goes to that column.
pub proof fn restoring_undoes_saving(s: Screen)
    requires
        s.wf(),
        s.top <= s.bot,
    ensures
        s.save_cursor().restore_cursor() == s.save_cursor().at(
            s.row,
            min(s.col, (s.cols - 1) as nat),
        ),
{
    assert(s.save_cursor().restore_cursor() =~= s.save_cursor().at(
        s.row,
        min(s.col, (s.cols - 1) as nat),
    ));
}

/// Deleting as many characters as were inserted brings back the row, but for
/// what the insertion pushed over its end.
pub proof fn deleting_undoes_inserting(s: Screen, n: nat)
    requires
        s.wf(),
        s.col < s.cols,
    ensures
        s.insert_chars(n).delete_chars(n) == s.with_row(
            filled(
                s.current(),
                max(s.col, minus(s.cols, n)),
                s.cols,
                s.blank(),
            ),
        ),
{
    let t = s.insert_chars(n).delete_chars(n);
    let target = filled(s.current(), max(s.col, minus(s.cols, n)), s.cols, s.blank());
    assert(s.cells[s.row as int].len() == s.cols);
    assert(t.current() =~= target);
    assert(t.cells =~= s.with_row(target).cells);
}

/// Erasing, inserting and deleting characters keep the cursor where it is, and
/// every other row as it is.
pub proof fn editing_stays_in_the_row(s: Screen, n: nat, r: int)
    requires
        s.wf(),
        0 <= r < s.rows,
        r != s.row,
    ensures
        s.insert_chars(n).cells[r] == s.cells[r],
        s.delete_chars(n).cells[r] == s.cells[r],
        s.erase_chars(n).cells[r] == s.cells[r],
        s.erase_line().cells[r] == s.cells[r],
        s.insert_chars(n).row == s.row && s.insert_chars(n).col == s.col,
        s.delete_chars(n).row == s.row && s.delete_chars(n).col == s.col,
        s.erase_chars(n).row == s.row && s.erase_chars(n).col == s.col,
{
}

/// A reverse index undoes a line feed at the end of the scroll region and the
/// other way round, but for the line that was scrolled out.
pub proof fn shifting_down_undoes_shifting_up(
    cells: Seq<Seq<Cell>>,
    top: nat,
    bot: nat,
    fill: Seq<Cell>,
)
    requires
        top <= bot < cells.len(),
    ensures
        shifted_down(shifted_up(cells, top, bot, fill), top, bot, fill) == cells.update(
            top as int,
            fill,
        ),
        shifted_up(shifted_down(cells, top, bot, fill), top, bot, fill) == cells.update(
            bot as int,
            fill,
        ),
{
    assert(shifted_down(shifted_up(cells, top, bot, fill), top, bot, fill) =~= cells.update(
        top as int,
        fill,
    ));
    assert(shifted_up(shifted_down(cells, top, bot, fill), top, bot, fill) =~= cells.update(
        bot as int,
        fill,
    ));
}

/// The index of the current style leads to it, as long as the table has room
/// or holds the style already.
pub proof fn interning_finds_the_style(s: Screen)
    requires
        s.wf(),
        s.table.len() < 0xffff || s.table.contains(s.state),
    ensures
        s.interned().table[s.interned().style as int] == s.state,
        s.interned().interned() == s.interned(),
        forall|i: int| 0 <= i < s.table.len() ==> s.interned().table[i] == s.table[i],
{
    reveal(Screen::interned);
    crate::text::until_is_first(s.table, s.state);
    let t = s.interned();
    crate::text::until_is_first(t.table, t.state);
    if crate::text::until(s.table, s.state) >= s.table.len() {
        crate::text::lemma_until_at(t.table, t.state, s.table.len() as int);
    }
    assert(t.interned() =~= t);
}

/// Characters without a width — combining marks, joiners — do not move the
/// cursor, so the columns behind them stay aligned.
pub proof fn marks_leave_columns_aligned(s: Screen, c: char)
    requires
        char_columns(s.glyph(c)) == Some(0nat) || char_columns(s.glyph(c)) is None,
    ensures
        s.put_char(c) == s,
{
}

/// A CSI sequence with parameters `p` and final byte `b`, in front of `rest`.
pub(super) proof fn lemma_csi_token(s: Screen, p: Seq<u8>, b: u8, rest: Seq<u8>)
    requires
        forall|i: int| 0 <= i < p.len() ==> !(0x40 <= #[trigger] p[i] <= 0x7e),
        0x40 <= b <= 0x7e,
    ensures
        s.replay(seq![0x1bu8, 0x5bu8] + p + seq![b] + rest) == s.csi(p, b).replay(rest),
{
    let all = seq![0x1bu8, 0x5bu8] + p + seq![b] + rest;
    let tail = all.skip(2);
    let w = crate::text::widened(tail);
    let n = p.len() as int;
    assert forall|j: int| 0 <= j < n implies !('@' <= #[trigger] w[j] <= '~') by {
        assert(tail[j] == p[j]);
    }
    assert(tail[n] == b);
    assert(w[n] == b as char);
    super::ansi::lemma_csi_len(w, n);
    assert(csi_size(tail) == n);
    assert(all[0] == 0x1b && all[1] == 0x5b && all[2 + n] == b);
    assert(all.subrange(2, 2 + n) =~= p);
    assert(all.skip(n + 3) =~= rest);
    assert(token_size(all) == n + 3);
    reveal(Screen::step);
    assert(s.step(all) == s.csi(p, b));
}

/// A page that is painted behind a clear-screen and cursor-home is shown as on
/// an empty screen, whatever was painted before.
pub proof fn repainting_shows_the_last_page(s: Screen, page: Seq<u8>)
    requires
        s.wf(),
        s.state.background is None,
    ensures
        s.replay(seq![0x1bu8, 0x5bu8, 0x32u8, 0x4au8, 0x1bu8, 0x5bu8, 0x48u8] + page) == (Screen {
            cells: empty_screen(s.cols, s.rows, s.palette).cells,
            row: 0,
            col: 0,
            high: 0,
            ..s
        }).replay(page),
{
    let home = seq![0x1bu8, 0x5bu8, 0x48u8] + page;
    lemma_csi_token(s, seq![0x32u8], 0x4a, home);
    assert(seq![0x1bu8, 0x5bu8] + seq![0x32u8] + seq![0x4au8] + home =~= seq![
        0x1bu8,
        0x5bu8,
        0x32u8,
        0x4au8,
        0x1bu8,
        0x5bu8,
        0x48u8,
    ] + page);
    let t = s.csi(seq![0x32u8], 0x4a);
    let none: Seq<u8> = seq![];
    lemma_csi_token(t, none, 0x48, page);
    assert(seq![0x1bu8, 0x5bu8] + none + seq![0x48u8] + page =~= home);
    clearing_forgets_the_page(s);
}

/// Cells with the styles that their indices stand for.
pub open spec fn in_style(cells: Seq<Cell>, table: Seq<super::ansi::Style>) -> Seq<
    (char, super::ansi::Style),
> {
    Seq::new(cells.len(), |i: int| (cells[i].0, table[cells[i].1 as int]))
}

/// The styled runs of the first `n` rows, each on a line of its own.
pub open spec fn row_runs(rows: Seq<Seq<Cell>>, n: int, table: Seq<super::ansi::Style>) -> Seq<
    super::ansi::Run,
>
    decreases n,
{
    if n <= 0 {
        seq![]
    } else {
        let line = super::ansi::grouped(in_style(styled_row(rows[n - 1]), table));
        if n == 1 {
            line
        } else {
            row_runs(rows, n - 1, table).push(
                super::ansi::Run { text: seq!['\n'], style: super::ansi::plain_style() },
            ) + line
        }
    }
}

/// A table of styles that can be written and read again.
pub open spec fn legible(table: Seq<super::ansi::Style>) -> bool {
    &&& table.len() > 0
    &&& table[0] == super::ansi::plain_style()
    &&& forall|i: int|
        0 <= i < table.len() ==> ((#[trigger] table[i]).hyperlink matches Some(uri)
            ==> super::ansi::link_closes(uri))
}

/// Reading `out`, whatever follows it, leads to the page `q`.
#[verifier::opaque]
spec fn reads_to(out: Seq<char>, q: super::ansi::Page, palette: Seq<Rgb>) -> bool {
    forall|rest: Seq<char>|
        super::ansi::empty_page().read(#[trigger] (out + rest), palette) == q.read(rest, palette)
}

/// The page goes with the pen: same style and link, the cursor at the end of
/// the line.
spec fn in_step(p: Pen, q: super::ansi::Page, table: Seq<super::ansi::Style>) -> bool {
    &&& p.id < table.len()
    &&& q.style == table[p.id as int]
    &&& p.link == q.style.hyperlink
    &&& q.col == q.line.len()
}

#[verifier::spinoff_prover]
#[verifier::rlimit(30)]
proof fn lemma_reads_style(
    out: Seq<char>,
    q: super::ansi::Page,
    style: super::ansi::Style,
    palette: Seq<Rgb>,
)
    requires
        reads_to(out, q, palette),
    ensures
        reads_to(
            out + super::ansi::encoded_sgr(style),
            super::ansi::Page {
                style: super::ansi::Style { hyperlink: q.style.hyperlink, ..style },
                ..q
            },
            palette,
        ),
{
    reveal(reads_to);
    let more = super::ansi::encoded_sgr(style);
    let t = super::ansi::Page {
        style: super::ansi::Style { hyperlink: q.style.hyperlink, ..style },
        ..q
    };
    assert forall|rest: Seq<char>| super::ansi::empty_page().read(
        #[trigger] ((out + more) + rest),
        palette,
    ) == t.read(rest, palette) by {
        assert((out + more) + rest =~= out + (more + rest));
        super::ansi::reading_an_encoded_style(q, style, rest, palette);
    }
}

#[verifier::spinoff_prover]
#[verifier::rlimit(50)]
proof fn lemma_reads_link(
    out: Seq<char>,
    q: super::ansi::Page,
    link: Option<Seq<char>>,
    palette: Seq<Rgb>,
)
    requires
        reads_to(out, q, palette),
        link matches Some(uri) ==> super::ansi::link_closes(uri),
    ensures
        reads_to(
            out + link_switch(link),
            super::ansi::Page { style: super::ansi::Style { hyperlink: link, ..q.style }, ..q },
            palette,
        ),
{
    reveal(reads_to);
    let uri = match link {
        Some(uri) => uri,
        None => seq![],
    };
    let more = link_switch(link);
    let t = super::ansi::Page {
        style: super::ansi::Style { hyperlink: link, ..q.style },
        ..q
    };
    assert forall|rest: Seq<char>| super::ansi::empty_page().read(
        #[trigger] ((out + more) + rest),
        palette,
    ) == t.read(rest, palette) by {
        assert((out + more) + rest =~= out + (more + rest));
        lemma_link_switch(link);
        super::ansi::reading_a_link(q, uri, rest, palette);
        assert(super::ansi::link_closes(uri) ==> uri.len() > 0);
    }
}

proof fn lemma_link_switch(link: Option<Seq<char>>)
    ensures
        link_switch(link) == seq!['\x1b', ']', '8', ';', ';'] + (match link {
            Some(uri) => uri,
            None => seq![],
        }) + seq!['\x1b', '\\'],
{
    reveal_strlit("\x1b]8;;");
    reveal_strlit("\x1b\\");
    reveal_strlit("\x1b]8;;\x1b\\");
    assert(link_switch(link) =~= seq!['\x1b', ']', '8', ';', ';'] + (match link {
        Some(uri) => uri,
        None => seq![],
    }) + seq!['\x1b', '\\']);
}

#[verifier::spinoff_prover]
#[verifier::rlimit(30)]
proof fn lemma_reads_char(out: Seq<char>, q: super::ansi::Page, c: char, palette: Seq<Rgb>)
    requires
        reads_to(out, q, palette),
        c >= ' ',
    ensures
        reads_to(out.push(c), q.put(c), palette),
{
    reveal(reads_to);
    let t = q.put(c);
    assert forall|rest: Seq<char>| super::ansi::empty_page().read(
        #[trigger] (out.push(c) + rest),
        palette,
    ) == t.read(rest, palette) by {
        assert(out.push(c) + rest =~= out + (seq![c] + rest));
        super::ansi::reading_a_character(q, c, rest, palette);
    }
}

#[verifier::spinoff_prover]
#[verifier::rlimit(30)]
proof fn lemma_reads_newline(out: Seq<char>, q: super::ansi::Page, palette: Seq<Rgb>)
    requires
        reads_to(out, q, palette),
    ensures
        reads_to(
            out.push('\n'),
            super::ansi::Page {
                runs: q.flushed().runs.push(
                    super::ansi::Run { text: seq!['\n'], style: super::ansi::plain_style() },
                ),
                col: 0,
                ..q.flushed()
            },
            palette,
        ),
{
    reveal(reads_to);
    let t = super::ansi::Page {
        runs: q.flushed().runs.push(
            super::ansi::Run { text: seq!['\n'], style: super::ansi::plain_style() },
        ),
        col: 0,
        ..q.flushed()
    };
    assert forall|rest: Seq<char>| super::ansi::empty_page().read(
        #[trigger] (out.push('\n') + rest),
        palette,
    ) == t.read(rest, palette) by {
        assert(out.push('\n') + rest =~= out + (seq!['\n'] + rest));
        super::ansi::reading_a_newline(q, rest, palette);
    }
}

proof fn lemma_put_reads(
    p: Pen,
    q: super::ansi::Page,
    cell: Cell,
    table: Seq<super::ansi::Style>,
    palette: Seq<Rgb>,
) -> (t: super::ansi::Page)
    requires
        reads_to(p.out, q, palette),
        in_step(p, q, table),
        legible(table),
        cell.1 < table.len(),
        cell.0 >= ' ',
    ensures
        reads_to(p.put(cell, table).out, t, palette),
        in_step(p.put(cell, table), t, table),
        t.runs == q.runs,
        t.line == q.line.push((cell.0, table[cell.1 as int])),
{
    let style = table[cell.1 as int];
    let sw = p.switch(cell.1, table);
    let mid = super::ansi::Page { style, ..q };
    if cell.1 == p.id {
        assert(mid =~= q);
    } else {
        lemma_reads_style(p.out, q, style, palette);
        let out = p.out + super::ansi::encoded_sgr(style);
        let half = super::ansi::Page {
            style: super::ansi::Style { hyperlink: q.style.hyperlink, ..style },
            ..q
        };
        if style.hyperlink == p.link {
            assert(half =~= mid);
            assert(sw.out =~= out);
        } else {
            lemma_reads_link(out, half, style.hyperlink, palette);
            assert(super::ansi::Page {
                style: super::ansi::Style { hyperlink: style.hyperlink, ..half.style },
                ..half
            } =~= mid);
        }
    }
    lemma_reads_char(sw.out, mid, cell.0, palette);
    let t = mid.put(cell.0);
    assert(t.line =~= q.line.push((cell.0, style)));
    t
}

proof fn lemma_row_reads(
    p: Pen,
    q: super::ansi::Page,
    cells: Seq<Cell>,
    table: Seq<super::ansi::Style>,
    palette: Seq<Rgb>,
) -> (t: super::ansi::Page)
    requires
        reads_to(p.out, q, palette),
        in_step(p, q, table),
        legible(table),
        forall|i: int|
            0 <= i < cells.len() ==> (#[trigger] cells[i]).1 < table.len() && cells[i].0 >= ' ',
    ensures
        reads_to(p.put_row(cells, table).out, t, palette),
        in_step(p.put_row(cells, table), t, table),
        t.runs == q.runs,
        t.line == q.line + in_style(cells, table),
    decreases cells.len(),
{
    if cells.len() == 0 {
        assert(q.line + in_style(cells, table) =~= q.line);
        q
    } else {
        let front = cells.drop_last();
        assert forall|i: int| 0 <= i < front.len() implies (#[trigger] front[i]).1 < table.len()
            && front[i].0 >= ' ' by {
            assert(front[i] == cells[i]);
        }
        let mid = lemma_row_reads(p, q, front, table, palette);
        assert(cells[cells.len() - 1].0 >= ' ');
        let t = lemma_put_reads(p.put_row(front, table), mid, cells.last(), table, palette);
        assert(t.line =~= q.line + in_style(cells, table));
        t
    }
}

/// The cells of the first `n` rows, as they are shown, are printable and their
/// styles are in the table.
pub open spec fn printable(rows: Seq<Seq<Cell>>, n: int, table: Seq<super::ansi::Style>) -> bool {
    forall|r: int, i: int|
        0 <= r < n && 0 <= i < styled_row(rows[r]).len() ==> (#[trigger] styled_row(
            rows[r],
        )[i]).1 < table.len() && styled_row(rows[r])[i].0 >= ' '
}

proof fn lemma_rows_read(
    rows: Seq<Seq<Cell>>,
    n: int,
    table: Seq<super::ansi::Style>,
    palette: Seq<Rgb>,
) -> (t: super::ansi::Page)
    requires
        legible(table),
        printable(rows, n, table),
        n >= 1,
    ensures
        ({
            let p = (Pen { out: seq![], id: 0, link: None }).put_rows(rows, n, table);
            &&& reads_to(p.out, t, palette)
            &&& in_step(p, t, table)
        }),
        t.flushed().runs == row_runs(rows, n, table),
    decreases n,
{
    let start = Pen { out: seq![], id: 0, link: None };
    let cells = styled_row(rows[n - 1]);
    assert forall|i: int| 0 <= i < cells.len() implies (#[trigger] cells[i]).1 < table.len()
        && cells[i].0 >= ' ' by {
        assert(styled_row(rows[n - 1])[i].1 < table.len());
    }
    if n == 1 {
        let q = super::ansi::empty_page();
        assert(reads_to(start.out, q, palette)) by {
            reveal(reads_to);
            assert forall|rest: Seq<char>| super::ansi::empty_page().read(
                #[trigger] (start.out + rest),
                palette,
            ) == q.read(rest, palette) by {
                assert(start.out + rest =~= rest);
            }
        }
        let t = lemma_row_reads(start, q, cells, table, palette);
        assert(start.put_rows(rows, 0, table) == start);
        assert(start.put_rows(rows, 1, table) == start.put_row(cells, table));
        assert(t.line =~= in_style(cells, table));
        assert(t.flushed().runs =~= row_runs(rows, 1, table));
        t
    } else {
        assert(printable(rows, n - 1, table));
        let q = lemma_rows_read(rows, n - 1, table, palette);
        let before = start.put_rows(rows, n - 1, table);
        lemma_reads_newline(before.out, q, palette);
        let fresh = super::ansi::Page {
            runs: q.flushed().runs.push(
                super::ansi::Run { text: seq!['\n'], style: super::ansi::plain_style() },
            ),
            col: 0,
            ..q.flushed()
        };
        let mid = Pen { out: before.out.push('\n'), ..before };
        let t = lemma_row_reads(mid, fresh, cells, table, palette);
        assert(start.put_rows(rows, n, table) == mid.put_row(cells, table));
        assert(t.line =~= in_style(cells, table));
        assert(t.flushed().runs =~= row_runs(rows, n, table));
        t
    }
}

proof fn lemma_closing_reads(p: Pen, q: super::ansi::Page, palette: Seq<Rgb>)
    requires
        reads_to(p.out, q, palette),
    ensures
        super::ansi::empty_page().read(p.closed(), palette).flushed().runs == q.flushed().runs,
{
    reveal_strlit("\x1b[0m");
    let none: Seq<char> = seq![];
    let plain = super::ansi::plain_style();
    let out = p.out + (if p.id != 0 {
        "\x1b[0m"@
    } else {
        none
    });
    let mid = if p.id != 0 {
        super::ansi::Page {
            style: super::ansi::Style { hyperlink: q.style.hyperlink, ..plain },
            ..q
        }
    } else {
        q
    };
    if p.id != 0 {
        assert("\x1b[0m"@ =~= super::ansi::encoded_sgr(plain)) by {
            reveal(super::ansi::attribute_pieces);
            assert(super::ansi::sgr_pieces(plain) =~= seq![crate::text::decimal(0)]);
            assert(crate::text::joined(super::ansi::sgr_pieces(plain), seq![';'])
                == crate::text::decimal(0));
            assert(crate::text::decimal(0) =~= seq!['0']);
        }
        lemma_reads_style(p.out, q, plain, palette);
    } else {
        assert(out =~= p.out);
    }
    if p.link is Some {
        lemma_reads_link(out, mid, None, palette);
        let last = super::ansi::Page {
            style: super::ansi::Style { hyperlink: None, ..mid.style },
            ..mid
        };
        let text = out + link_switch(None);
        assert(p.closed() =~= text);
        lemma_reads_alone(text, last, palette);
    } else {
        assert(p.closed() =~= out);
        lemma_reads_alone(out, mid, palette);
    }
}

proof fn lemma_reads_alone(out: Seq<char>, q: super::ansi::Page, palette: Seq<Rgb>)
    requires
        reads_to(out, q, palette),
    ensures
        super::ansi::empty_page().read(out, palette) == q,
{
    reveal(reads_to);
    let none: Seq<char> = seq![];
    assert(out + none =~= out);
    assert(super::ansi::empty_page().read(out + none, palette) == q.read(none, palette));
}

/// Colours, attributes and links survive the replay: reading the text of a
/// screen gives its rows back, every character in the style and with the link
/// of its cell. Blank lines that are cut off the end are the only loss.
pub proof fn styles_survive_rendering(s: Screen, palette: Seq<Rgb>)
    requires
        s.wf(),
        legible(s.table),
        printable(s.cells, s.high as int + 1, s.table),
        without_blank_lines(
            (Pen { out: seq![], id: 0, link: None }).put_rows(
                s.cells,
                s.high as int + 1,
                s.table,
            ).closed(),
        ) == (Pen { out: seq![], id: 0, link: None }).put_rows(
            s.cells,
            s.high as int + 1,
            s.table,
        ).closed(),
    ensures
        super::ansi::styled_runs(s.ansi_text(), palette) == row_runs(
            s.cells,
            s.high as int + 1,
            s.table,
        ),
{
    let p = (Pen { out: seq![], id: 0, link: None }).put_rows(s.cells, s.high as int + 1, s.table);
    let q = lemma_rows_read(s.cells, s.high as int + 1, s.table, palette);
    lemma_closing_reads(p, q, palette);
}

} // verus!
