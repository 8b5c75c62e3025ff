//! What text, control bytes and short escapes do to the screen, told of the
//! bytes that a program writes.

use super::grid::{Cell, Screen};
use vstd::prelude::*;

verus! {

// ---------------------------------------------------------------------------
// Control bytes
// ---------------------------------------------------------------------------

#[verifier::spinoff_prover]
proof fn lemma_control(s: Screen, b: u8, rest: Seq<u8>)
    requires
        super::grid::is_control(b),
    ensures
        s.replay(seq![b] + rest) == s.control(b).replay(rest),
{
    let all = seq![b] + rest;
    assert(all[0] == b);
    assert(all.skip(1) =~= rest);
    assert(super::grid::token_size(all) == 1);
    assert(s.step(all) == s.control(b)) by {
        reveal(Screen::step);
    }
}

/// A carriage return puts the cursor in the first column, a backspace one
/// column to the left if there is one; BEL and NUL do nothing.
#[verifier::spinoff_prover]
pub proof fn controls_move_within_the_row(s: Screen, rest: Seq<u8>)
    ensures
        s.replay(seq![0x0du8] + rest) == (Screen { col: 0, ..s }).replay(rest),
        s.col > 0 ==> s.replay(seq![0x08u8] + rest) == (Screen {
            col: (s.col - 1) as nat,
            ..s
        }).replay(rest),
        s.col == 0 ==> s.replay(seq![0x08u8] + rest) == s.replay(rest),
        s.replay(seq![0x07u8] + rest) == s.replay(rest),
        s.replay(seq![0x00u8] + rest) == s.replay(rest),
{
    lemma_control(s, 0x0d, rest);
    lemma_control(s, 0x08, rest);
    lemma_control(s, 0x07, rest);
    lemma_control(s, 0x00, rest);
    if s.col == 0 {
        assert(s.control(0x08) =~= s);
    }
}

/// A tab puts the cursor in the next column to the right that is a multiple of
/// eight, or in the last one where that lies outside, and changes no cell.
#[verifier::spinoff_prover]
pub proof fn tabs_stop_at_every_eighth_column(s: Screen, stop: nat, rest: Seq<u8>)
    requires
        stop % 8 == 0,
        s.col < stop <= s.col + 8,
    ensures
        stop < s.cols ==> s.replay(seq![0x09u8] + rest) == (Screen { col: stop, ..s }).replay(rest),
        s.wf() && stop >= s.cols ==> s.replay(seq![0x09u8] + rest) == (Screen {
            col: (s.cols - 1) as nat,
            ..s
        }).replay(rest),
{
    lemma_control(s, 0x09, rest);
    assert((s.col / 8 + 1) * 8 == stop);
}

/// A line feed above the end of the scroll region, or below it, goes to the
/// start of the next row; in the last row it only goes to its start.
#[verifier::spinoff_prover]
pub proof fn line_feeds_go_down(s: Screen, rest: Seq<u8>)
    requires
        s.wf(),
        s.row != s.bot,
    ensures
        s.row + 1 < s.rows ==> s.replay(seq![0x0au8] + rest) == (Screen {
            row: s.row + 1,
            col: 0,
            high: if s.high <= s.row {
                s.row + 1
            } else {
                s.high
            },
            ..s
        }).replay(rest),
        s.row + 1 >= s.rows ==> s.replay(seq![0x0au8] + rest) == (Screen { col: 0, ..s }).replay(
            rest,
        ),
{
    lemma_control(s, 0x0a, rest);
}

/// A line feed at the end of the scroll region moves the lines of the region
/// up by one and goes to the start of its last row.
#[verifier::spinoff_prover]
pub proof fn line_feeds_scroll(s: Screen, rest: Seq<u8>)
    requires
        s.wf(),
        s.row == s.bot,
    ensures
        s.replay(seq![0x0au8] + rest) == (Screen {
            col: 0,
            high: if s.high <= s.bot {
                s.bot
            } else {
                s.high
            },
            ..super::sequences::moved_up(s, s.top, s.bot, 1)
        }).replay(rest),
{
    lemma_control(s, 0x0a, rest);
    let t = super::sequences::moved_up(s, s.top, s.bot, 1);
    let u = super::grid::shifted_up(s.cells, s.top, s.bot, s.blank_row());
    assert forall|r: int| 0 <= r < s.rows implies #[trigger] u[r] == t.cells[r] by {
        assert(u[r] =~= t.cells[r]);
    }
    assert(u =~= t.cells);
    assert(s.control(0x0a) =~= Screen {
        col: 0,
        high: if s.high <= s.bot {
            s.bot
        } else {
            s.high
        },
        ..t
    });
}

// ---------------------------------------------------------------------------
// Short escapes
// ---------------------------------------------------------------------------

#[verifier::spinoff_prover]
proof fn lemma_escape(s: Screen, b: u8, rest: Seq<u8>)
    requires
        b == 0x4d || b == 0x44 || b == 0x45 || b == 0x37 || b == 0x38,
    ensures
        s.replay(seq![0x1bu8, b] + rest) == s.escape(seq![0x1bu8, b] + rest).replay(rest),
{
    let all = seq![0x1bu8, b] + rest;
    assert(all[0] == 0x1b && all[1] == b);
    assert(all.skip(2) =~= rest);
    assert(super::grid::token_size(all) == 2);
    assert(s.step(all) == s.escape(all)) by {
        reveal(Screen::step);
    }
}

/// `ESC E` is a line feed, and so is `ESC D` but for the column, which it
/// keeps.
#[verifier::spinoff_prover]
pub proof fn index_is_a_line_feed(s: Screen, rest: Seq<u8>)
    ensures
        s.replay(seq![0x1bu8, 0x45u8] + rest) == s.replay(seq![0x0au8] + rest),
        s.replay(seq![0x1bu8, 0x44u8] + rest) == (Screen {
            col: s.col,
            ..s.replay(seq![0x0au8])
        }).replay(rest),
{
    lemma_escape(s, 0x45, rest);
    lemma_escape(s, 0x44, rest);
    lemma_control(s, 0x0a, rest);
    let none: Seq<u8> = seq![];
    lemma_control(s, 0x0a, none);
    assert(seq![0x0au8] + none =~= seq![0x0au8]);
    assert(s.control(0x0a).replay(none) == s.control(0x0a));
    assert((Screen { col: s.col, ..s.control(0x0a) }) =~= s.line_feed());
}

/// `ESC M` goes one row up in the same column; in the first row of the scroll
/// region it moves the lines of the region down by one instead, and in the
/// first row of the screen above the region it does nothing.
#[verifier::spinoff_prover]
pub proof fn reverse_index_goes_up(s: Screen, rest: Seq<u8>)
    requires
        s.wf(),
    ensures
        s.row != s.top && s.row > 0 ==> s.replay(seq![0x1bu8, 0x4du8] + rest) == (Screen {
            row: (s.row - 1) as nat,
            ..s
        }).replay(rest),
        s.row != s.top && s.row == 0 ==> s.replay(seq![0x1bu8, 0x4du8] + rest) == s.replay(rest),
        s.row == s.top ==> s.replay(seq![0x1bu8, 0x4du8] + rest) == super::sequences::moved_down(
            s,
            s.top,
            s.bot,
            1,
        ).replay(rest),
{
    lemma_escape(s, 0x4d, rest);
    if s.row == s.top {
        let t = super::sequences::moved_down(s, s.top, s.bot, 1);
        let u = super::grid::shifted_down(s.cells, s.top, s.bot, s.blank_row());
        assert forall|r: int| 0 <= r < s.rows implies #[trigger] u[r] == t.cells[r] by {
            assert(u[r] =~= t.cells[r]);
        }
        assert(u =~= t.cells);
        assert(s.reverse_index() =~= t);
    }
}

/// `ESC 7` and `ESC [ s` change nothing that is shown; whatever was written
/// since, `ESC 8` and `ESC [ u` then bring back the cursor, the style, the
/// scroll region and the character sets of that moment, and leave the cells as
/// they are. A cursor behind the last column comes back in that column.
#[verifier::spinoff_prover]
pub proof fn restoring_brings_back_what_was_saved(s: Screen, t: Screen, rest: Seq<u8>)
    requires
        s.wf(),
        t.wf(),
        t.rows == s.rows,
        t.cols == s.cols,
        t.saved == s.replay(seq![0x1bu8, 0x37u8]).saved,
    ensures
        s.replay(seq![0x1bu8, 0x37u8]) == (Screen { saved: t.saved, ..s }),
        s.replay(super::sequences::csi_bytes(seq![], 0x73) + rest) == s.replay(
            seq![0x1bu8, 0x37u8] + rest,
        ),
        t.replay(seq![0x1bu8, 0x38u8] + rest) == (Screen {
            row: s.row,
            col: if s.col < s.cols {
                s.col
            } else {
                (s.cols - 1) as nat
            },
            style: s.style,
            state: s.state,
            top: s.top,
            bot: s.bot,
            g0: s.g0,
            g1: s.g1,
            gl_is_g1: s.gl_is_g1,
            ..t
        }).replay(rest),
        t.replay(super::sequences::csi_bytes(seq![], 0x75) + rest) == t.replay(
            seq![0x1bu8, 0x38u8] + rest,
        ),
{
    let none: Seq<u8> = seq![];
    let kept = s.save_cursor();
    assert(s.replay(seq![0x1bu8, 0x37u8]) == kept) by {
        lemma_saving(s, none);
        assert(seq![0x1bu8, 0x37u8] + none =~= seq![0x1bu8, 0x37u8]);
        assert(kept.replay(none) == kept);
    }
    lemma_saving(s, rest);
    lemma_restoring(t, rest);
}

#[verifier::spinoff_prover]
proof fn lemma_saving(s: Screen, rest: Seq<u8>)
    ensures
        s.replay(seq![0x1bu8, 0x37u8] + rest) == s.save_cursor().replay(rest),
        s.replay(super::sequences::csi_bytes(seq![], 0x73) + rest) == s.save_cursor().replay(rest),
{
    lemma_escape(s, 0x37, rest);
    super::sequences::lemma_bare(s, 0x73, rest);
}

#[verifier::spinoff_prover]
proof fn lemma_restoring(s: Screen, rest: Seq<u8>)
    ensures
        s.replay(seq![0x1bu8, 0x38u8] + rest) == s.restore_cursor().replay(rest),
        s.replay(super::sequences::csi_bytes(seq![], 0x75) + rest) == s.restore_cursor().replay(
            rest,
        ),
{
    lemma_escape(s, 0x38, rest);
    super::sequences::lemma_bare(s, 0x75, rest);
}

/// Nothing is brought back where nothing was saved.
#[verifier::spinoff_prover]
pub proof fn restoring_needs_a_saved_cursor(s: Screen, rest: Seq<u8>)
    requires
        s.saved is None,
    ensures
        s.replay(seq![0x1bu8, 0x38u8] + rest) == s.replay(rest),
        s.replay(super::sequences::csi_bytes(seq![], 0x75) + rest) == s.replay(rest),
{
    lemma_restoring(s, rest);
}

// ---------------------------------------------------------------------------
// Character sets
// ---------------------------------------------------------------------------

#[verifier::spinoff_prover]
proof fn lemma_designation(s: Screen, target: u8, set: u8, rest: Seq<u8>)
    requires
        0x28 <= target <= 0x2b,
    ensures
        s.replay(seq![0x1bu8, target, set] + rest) == s.designate(target, set).replay(rest),
{
    let all = seq![0x1bu8, target, set] + rest;
    assert(all[0] == 0x1b && all[1] == target && all[2] == set);
    assert(all.skip(3) =~= rest);
    assert(super::grid::token_size(all) == 3);
    assert(s.step(all) == s.designate(target, set)) by {
        reveal(Screen::step);
    }
}

/// `ESC ( 0` puts line drawing into G0 and `ESC ( B` takes it out again,
/// `ESC ) 0` and `ESC ) B` do so for G1; SO chooses G1 and SI G0.
#[verifier::spinoff_prover]
pub proof fn character_sets_are_chosen(s: Screen, rest: Seq<u8>)
    ensures
        s.replay(seq![0x1bu8, 0x28u8, 0x30u8] + rest) == (Screen { g0: true, ..s }).replay(rest),
        s.replay(seq![0x1bu8, 0x28u8, 0x42u8] + rest) == (Screen { g0: false, ..s }).replay(rest),
        s.replay(seq![0x1bu8, 0x29u8, 0x30u8] + rest) == (Screen { g1: true, ..s }).replay(rest),
        s.replay(seq![0x1bu8, 0x29u8, 0x42u8] + rest) == (Screen { g1: false, ..s }).replay(rest),
        s.replay(seq![0x0eu8] + rest) == (Screen { gl_is_g1: true, ..s }).replay(rest),
        s.replay(seq![0x0fu8] + rest) == (Screen { gl_is_g1: false, ..s }).replay(rest),
{
    lemma_designation(s, 0x28, 0x30, rest);
    lemma_designation(s, 0x28, 0x42, rest);
    lemma_designation(s, 0x29, 0x30, rest);
    lemma_designation(s, 0x29, 0x42, rest);
    lemma_control(s, 0x0e, rest);
    lemma_control(s, 0x0f, rest);
}

/// The letters that draw lines, and the glyphs that they draw, in the same
/// order.
pub open spec fn drawing_letters() -> (Seq<char>, Seq<char>) {
    (
        seq![
            'j', 'k', 'l', 'm', 'n', 'q', 't', 'u', 'v', 'w', 'x', 'a', '`', 'f', 'g', '~', 'o',
            'y', 'z', '{', '|', '}',
        ],
        seq![
            '┘', '┐', '┌', '└', '┼', '─', '├', '┤', '┴', '┬', '│', '▒', '◆', '°', '±', '·', '⎺',
            '≤', '≥', 'π', '≠', '£',
        ],
    )
}

/// The character set in use holds the line-drawing glyphs.
pub open spec fn draws_lines(s: Screen) -> bool {
    if s.gl_is_g1 {
        s.g1
    } else {
        s.g0
    }
}

/// The screen with a glyph in the cell under the cursor and the cursor behind
/// it.
pub open spec fn with_glyph(s: Screen, g: char) -> Screen {
    Screen {
        col: s.col + 1,
        last: Some(g),
        high: if s.high <= s.row {
            s.row
        } else {
            s.high
        },
        ..super::sequences::with_each(
            s,
            |r: int, c: int|
                if r == s.row && c == s.col {
                    (g, s.style)
                } else {
                    s.cells[r][c]
                },
        )
    }
}

#[verifier::spinoff_prover]
proof fn lemma_with_glyph(s: Screen, g: char)
    requires
        s.wf(),
        s.col < s.cols,
    ensures
        s.stamp(g, 1) == with_glyph(s, g),
{
    let t = s.stamp(g, 1);
    let u = with_glyph(s, g);
    assert forall|r: int| 0 <= r < s.rows implies #[trigger] t.cells[r] == u.cells[r] by {
        assert(t.cells[r] =~= u.cells[r]);
    }
    assert(t.cells =~= u.cells);
    assert(t =~= u);
}

#[verifier::spinoff_prover]
proof fn lemma_ascii(s: Screen, c: char, rest: Seq<u8>)
    requires
        ' ' <= c <= '~',
    ensures
        s.replay(seq![c as u8] + rest) == s.put_char(c).replay(rest),
{
    super::repaint::lemma_char_token(s, c, rest);
    crate::text::ascii_bytes_are_utf8(seq![c as u8]);
    assert(crate::text::widened(seq![c as u8]) =~= seq![c]);
    assert(super::repaint::after_char(s, c) == s.put_char(c));
}

/// A printable character lands in the cell under the cursor, in the style in
/// force, and the cursor goes one column on; no other cell changes.
#[verifier::spinoff_prover]
pub proof fn characters_land_at_the_cursor(s: Screen, c: char, rest: Seq<u8>)
    requires
        s.wf(),
        s.col < s.cols,
        !draws_lines(s),
        ' ' <= c <= '~',
    ensures
        s.replay(seq![c as u8] + rest) == with_glyph(s, c).replay(rest),
{
    lemma_ascii(s, c, rest);
    lemma_with_glyph(s, c);
}

/// With line drawing in use each of its letters prints its glyph, and every
/// other printable character prints itself.
#[verifier::spinoff_prover]
pub proof fn letters_draw_lines(s: Screen, i: int, c: char, rest: Seq<u8>)
    requires
        s.wf(),
        s.col < s.cols,
        draws_lines(s),
        0 <= i < drawing_letters().0.len(),
        ' ' <= c <= '~',
        !drawing_letters().0.contains(c),
    ensures
        drawing_letters().0.len() == drawing_letters().1.len(),
        s.replay(seq![drawing_letters().0[i] as u8] + rest) == with_glyph(
            s,
            drawing_letters().1[i],
        ).replay(rest),
        s.replay(seq![c as u8] + rest) == with_glyph(s, c).replay(rest),
{
    let letters = drawing_letters().0;
    let k = letters[i];
    assert(' ' <= k <= '~');
    assert(super::grid::line_glyph(k) == drawing_letters().1[i]);
    assert(super::grid::is_drawn(drawing_letters().1[i]));
    lemma_ascii(s, k, rest);
    lemma_with_glyph(s, drawing_letters().1[i]);
    lemma_ascii(s, c, rest);
    lemma_with_glyph(s, c);
    assert(super::grid::line_glyph(c) == c) by {
        assert forall|j: int| 0 <= j < letters.len() implies c != letters[j] by {
            assert(letters.contains(letters[j]));
        }
        assert(c != letters[0] && c != letters[1] && c != letters[2] && c != letters[3]);
        assert(c != letters[4] && c != letters[5] && c != letters[6] && c != letters[7]);
        assert(c != letters[8] && c != letters[9] && c != letters[10] && c != letters[11]);
        assert(c != letters[12] && c != letters[13] && c != letters[14] && c != letters[15]);
        assert(c != letters[16] && c != letters[17] && c != letters[18] && c != letters[19]);
        assert(c != letters[20] && c != letters[21]);
    }
}

/// A character for which the row has no room left goes to the next row, as if
/// a line feed stood before it.
#[verifier::spinoff_prover]
pub proof fn full_rows_wrap(s: Screen, c: char, rest: Seq<u8>)
    requires
        s.wf(),
        s.col >= s.cols,
        !draws_lines(s),
        ' ' <= c <= '~',
    ensures
        s.replay(seq![c as u8] + rest) == s.replay(seq![0x0au8] + (seq![c as u8] + rest)),
{
    lemma_ascii(s, c, rest);
    lemma_control(s, 0x0a, seq![c as u8] + rest);
    lemma_ascii(s.control(0x0a), c, rest);
}

/// A character of two columns fills two cells, the second with a NUL; one
/// without a width leaves no trace.
#[verifier::spinoff_prover]
pub proof fn widths_count(s: Screen, c: char, rest: Seq<u8>)
    requires
        s.wf(),
        c >= '\u{80}',
        !super::grid::is_drawn(c),
    ensures
        super::grid::columns(c) == Some(2nat) && s.col + 1 < s.cols ==> s.replay(
            vstd::utf8::encode_utf8(seq![c]) + rest,
        ) == (Screen {
            col: s.col + 2,
            last: Some(c),
            high: if s.high <= s.row {
                s.row
            } else {
                s.high
            },
            ..super::sequences::with_each(
                s,
                |r: int, k: int|
                    if r == s.row && k == s.col {
                        (c, s.style)
                    } else if r == s.row && k == s.col + 1 {
                        ('\0', s.style)
                    } else {
                        s.cells[r][k]
                    },
            )
        }).replay(rest),
        super::grid::columns(c) == Some(1nat) && s.col < s.cols ==> s.replay(
            vstd::utf8::encode_utf8(seq![c]) + rest,
        ) == with_glyph(s, c).replay(rest),
        super::grid::columns(c) == Some(0nat) || super::grid::columns(c) is None ==> s.replay(
            vstd::utf8::encode_utf8(seq![c]) + rest,
        ) == s.replay(rest),
{
    super::repaint::lemma_char_token(s, c, rest);
    if super::grid::columns(c) == Some(2nat) && s.col + 1 < s.cols {
        let t = s.stamp(c, 2);
        let u = Screen {
            col: s.col + 2,
            last: Some(c),
            high: if s.high <= s.row {
                s.row
            } else {
                s.high
            },
            ..super::sequences::with_each(
                s,
                |r: int, k: int|
                    if r == s.row && k == s.col {
                        (c, s.style)
                    } else if r == s.row && k == s.col + 1 {
                        ('\0', s.style)
                    } else {
                        s.cells[r][k]
                    },
            )
        };
        assert forall|r: int| 0 <= r < s.rows implies #[trigger] t.cells[r] == u.cells[r] by {
            assert(t.cells[r] =~= u.cells[r]);
        }
        assert(t.cells =~= u.cells);
        assert(t =~= u);
    }
    if s.col < s.cols {
        lemma_with_glyph(s, c);
    }
}

proof fn lemma_repeat_text(s: Screen, c: char, n: nat)
    requires
        ' ' <= c <= '~',
    ensures
        s.repeat(c, n) == super::repaint::after_text(s, Seq::new(n, |i: int| c)),
    decreases n,
{
    if n > 0 {
        let t = Seq::new(n, |i: int| c);
        lemma_repeat_text(s, c, (n - 1) as nat);
        assert(t.drop_last() =~= Seq::new((n - 1) as nat, |i: int| c));
    }
}

/// `ESC [ n b` behind a printable character prints it `n` times more.
#[verifier::spinoff_prover]
pub proof fn repetitions_print_the_last_character(s: Screen, c: char, n: nat, rest: Seq<u8>)
    requires
        s.wf(),
        !draws_lines(s),
        ' ' <= c <= '~',
        1 <= n <= u32::MAX,
    ensures
        s.replay(
            seq![c as u8] + (super::sequences::csi_bytes(super::sequences::digits(n), 0x62) + rest),
        ) == s.replay(seq![c as u8] + (vstd::utf8::encode_utf8(Seq::new(n, |i: int| c)) + rest)),
{
    let t = Seq::new(n, |i: int| c);
    let more = super::sequences::csi_bytes(super::sequences::digits(n), 0x62) + rest;
    lemma_ascii(s, c, more);
    lemma_ascii(s, c, vstd::utf8::encode_utf8(t) + rest);
    let a = s.put_char(c);
    assert(a.last == Some(c));
    super::sequences::lemma_numbered(a, n, 0x62, rest);
    lemma_repeat_text(a, c, n);
    assert(!t.contains('\x1b'));
    super::repaint::lemma_text_tokens(a, t, rest);
}

// ---------------------------------------------------------------------------
// Strings
// ---------------------------------------------------------------------------

/// The bytes hold neither BEL nor ESC.
pub open spec fn is_calm(body: Seq<u8>) -> bool {
    forall|i: int| 0 <= i < body.len() ==> #[trigger] body[i] != 0x07 && body[i] != 0x1b
}

/// The measure of a string that ST ends.
#[verifier::spinoff_prover]
proof fn lemma_string(body: Seq<u8>, rest: Seq<u8>)
    requires
        is_calm(body),
    ensures
        super::grid::string_size(body + seq![0x1bu8, 0x5cu8] + rest) == body.len(),
        super::grid::string_end(body + seq![0x1bu8, 0x5cu8] + rest) == 2,
{
    let all = body + seq![0x1bu8, 0x5cu8] + rest;
    let w = crate::text::widened(all);
    let n = body.len() as int;
    assert forall|j: int| 0 <= j < n implies !#[trigger] super::ansi::osc_ends_at(w, j) by {
        assert(all[j] == body[j]);
        assert(w[j] == all[j] as char);
    }
    assert(all[n] == 0x1b && all[n + 1] == 0x5c);
    assert(w[n] == '\x1b' && w[n + 1] == '\\');
    assert(super::ansi::osc_ends_at(w, n));
    super::ansi::lemma_osc_len(w, n);
}

proof fn lemma_put_text(s: Screen, t: Seq<char>)
    requires
        forall|i: int| 0 <= i < t.len() ==> ' ' <= #[trigger] t[i] <= '~',
    ensures
        s.put_text(t) == super::repaint::after_text(s, t),
    decreases t.len(),
{
    if t.len() > 0 {
        let front = t.drop_last();
        assert forall|i: int| 0 <= i < front.len() implies ' ' <= #[trigger] front[i] <= '~' by {
            assert(front[i] == t[i]);
        }
        lemma_put_text(s, front);
        assert(' ' <= t[t.len() - 1] <= '~');
    }
}

#[verifier::spinoff_prover]
proof fn lemma_placeholder(s: Screen, t: Seq<char>, rest: Seq<u8>)
    requires
        forall|i: int| 0 <= i < t.len() ==> ' ' <= #[trigger] t[i] <= '~',
    ensures
        s.replay(vstd::utf8::encode_utf8(t) + rest) == s.put_text(t).replay(rest),
{
    assert(!t.contains('\x1b')) by {
        assert forall|i: int| 0 <= i < t.len() implies t[i] != '\x1b' by {
            assert(' ' <= t[i]);
        }
    }
    super::repaint::lemma_text_tokens(s, t, rest);
    lemma_put_text(s, t);
}

#[verifier::spinoff_prover]
proof fn lemma_string_token(s: Screen, kind: u8, body: Seq<u8>, rest: Seq<u8>)
    requires
        is_calm(body),
        kind == 0x50 || kind == 0x5f || kind == 0x5e || kind == 0x58,
    ensures
        s.replay(seq![0x1bu8, kind] + body + seq![0x1bu8, 0x5cu8] + rest) == s.string(
            kind,
            body + seq![0x1bu8, 0x5cu8] + rest,
        ).replay(rest),
{
    let all = seq![0x1bu8, kind] + body + seq![0x1bu8, 0x5cu8] + rest;
    lemma_string(body, rest);
    assert(all[0] == 0x1b && all[1] == kind);
    assert(all.skip(2) =~= body + seq![0x1bu8, 0x5cu8] + rest);
    assert(all.skip(body.len() as int + 4) =~= rest);
    assert(super::grid::token_size(all) == body.len() + 4);
    assert(s.step(all) == s.string(kind, all.skip(2))) by {
        reveal(Screen::step);
    }
}

/// A device-control string of more than 16 bytes shows as `[image]`, an
/// application command of that size as `[graphic]`; shorter ones and the other
/// strings show nothing.
#[verifier::spinoff_prover]
pub proof fn graphics_leave_a_placeholder(s: Screen, body: Seq<u8>, rest: Seq<u8>)
    requires
        is_calm(body),
    ensures
        body.len() > 16 ==> s.replay(seq![0x1bu8, 0x50u8] + body + seq![0x1bu8, 0x5cu8] + rest)
            == s.replay(vstd::utf8::encode_utf8("[image]"@) + rest),
        body.len() > 16 ==> s.replay(seq![0x1bu8, 0x5fu8] + body + seq![0x1bu8, 0x5cu8] + rest)
            == s.replay(vstd::utf8::encode_utf8("[graphic]"@) + rest),
        body.len() <= 16 ==> s.replay(seq![0x1bu8, 0x50u8] + body + seq![0x1bu8, 0x5cu8] + rest)
            == s.replay(rest),
        body.len() <= 16 ==> s.replay(seq![0x1bu8, 0x5fu8] + body + seq![0x1bu8, 0x5cu8] + rest)
            == s.replay(rest),
        s.replay(seq![0x1bu8, 0x5eu8] + body + seq![0x1bu8, 0x5cu8] + rest) == s.replay(rest),
        s.replay(seq![0x1bu8, 0x58u8] + body + seq![0x1bu8, 0x5cu8] + rest) == s.replay(rest),
{
    lemma_string(body, rest);
    lemma_string_token(s, 0x50, body, rest);
    lemma_string_token(s, 0x5f, body, rest);
    lemma_string_token(s, 0x5e, body, rest);
    lemma_string_token(s, 0x58, body, rest);
    reveal_strlit("[image]");
    reveal_strlit("[graphic]");
    lemma_placeholder(s, "[image]"@, rest);
    lemma_placeholder(s, "[graphic]"@, rest);
}

/// An OSC 8 sequence sets the link of what is printed behind it, an empty one
/// ends it, and every other OSC sequence changes nothing.
#[verifier::spinoff_prover]
pub proof fn links_are_kept(s: Screen, uri: Seq<u8>, other: Seq<u8>, rest: Seq<u8>)
    requires
        s.wf(),
        is_calm(uri),
        is_calm(other),
        other.len() > 0 && other[0] != 0x38 || other.len() > 1 && other[1] != 0x3b,
        s.table.len() < 0xffff,
    ensures
        ({
            let t = s.replay(
                seq![0x1bu8, 0x5du8, 0x38u8, 0x3bu8, 0x3bu8] + uri + seq![0x1bu8, 0x5cu8],
            );
            &&& t == (Screen { style: t.style, state: t.state, table: t.table, ..s })
            &&& t.state == (super::ansi::Style {
                hyperlink: if uri.len() > 0 {
                    Some(crate::text::utf8_lossy(uri))
                } else {
                    None
                },
                ..s.state
            })
            &&& t.table[t.style as int] == t.state
            &&& forall|i: int| 0 <= i < s.table.len() ==> t.table[i] == s.table[i]
        }),
        s.replay(seq![0x1bu8, 0x5du8] + other + seq![0x1bu8, 0x5cu8] + rest) == s.replay(rest),
{
    let none: Seq<u8> = seq![];
    let payload = seq![0x38u8, 0x3bu8, 0x3bu8] + uri;
    assert(is_calm(payload)) by {
        assert forall|i: int| 0 <= i < payload.len() implies #[trigger] payload[i] != 0x07
            && payload[i] != 0x1b by {
            if i >= 3 {
                assert(payload[i] == uri[i - 3]);
            }
        }
    }
    lemma_osc(s, payload, none);
    let bytes = seq![0x1bu8, 0x5du8, 0x38u8, 0x3bu8, 0x3bu8] + uri + seq![0x1bu8, 0x5cu8];
    assert(bytes =~= seq![0x1bu8, 0x5du8] + payload + seq![0x1bu8, 0x5cu8] + none);
    let tail = payload.skip(2);
    assert(tail[0] == 0x3b);
    crate::text::lemma_until_at(tail, 0x3bu8, 0);
    assert(tail.skip(1) =~= uri);
    let t = s.replay(bytes);
    let link = if uri.len() > 0 {
        Some(crate::text::utf8_lossy(uri))
    } else {
        None
    };
    assert(super::grid::payload_link(payload) == Some(link));
    let a = Screen { state: super::ansi::Style { hyperlink: link, ..s.state }, ..s };
    assert(t == a.interned());
    super::grid::interning_finds_the_style(a);
    assert(t.state == a.state && t == (Screen { style: t.style, table: t.table, ..a })) by {
        reveal(Screen::interned);
    }
    lemma_osc(s, other, rest);
}

#[verifier::spinoff_prover]
proof fn lemma_osc(s: Screen, body: Seq<u8>, rest: Seq<u8>)
    requires
        is_calm(body),
    ensures
        s.replay(seq![0x1bu8, 0x5du8] + body + seq![0x1bu8, 0x5cu8] + rest) == (
        match super::grid::payload_link(body) {
            Some(link) => s.with_link(link),
            None => s,
        }).replay(rest),
{
    let all = seq![0x1bu8, 0x5du8] + body + seq![0x1bu8, 0x5cu8] + rest;
    let tail = body + seq![0x1bu8, 0x5cu8] + rest;
    lemma_string(body, rest);
    assert(all[0] == 0x1b && all[1] == 0x5d);
    assert(all.skip(2) =~= tail);
    assert(tail.take(body.len() as int) =~= body);
    assert(all.skip(body.len() as int + 4) =~= rest);
    assert(super::grid::token_size(all) == body.len() + 4);
    assert(s.step(all) == s.osc(tail)) by {
        reveal(Screen::step);
    }
}

} // verus!
