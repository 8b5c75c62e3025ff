use jterm1::terminal::ansi::Rgb;
use jterm1::terminal::grid::{
    has_cursor_positioning, render_to_ansi, render_to_text, Grid,
};

#[test]
fn detects_clear_and_cursor_moves() {
    assert!(has_cursor_positioning(b"\x1b[2J"));
    assert!(has_cursor_positioning(b"\x1b[H"));
    assert!(has_cursor_positioning(b"\x1b[5;1H"));
    assert!(has_cursor_positioning(b"\x1b[K"));
    assert!(has_cursor_positioning(b"abc\x1b[Adef"));
}

#[test]
fn ignores_color_only_streams() {
    // SGR (color) escapes should NOT trigger the emulator — strip_ansi handles
    // them and the raw stream is already in correct text order.
    assert!(!has_cursor_positioning(b"\x1b[31mred\x1b[0m"));
    assert!(!has_cursor_positioning(b"plain text"));
    assert!(!has_cursor_positioning(b""));
}

#[test]
fn collapses_less_x_repaints_to_final_page() {
    // Mimics `less -X` paging through `git log`: three pages, each preceded
    // by clear-screen + cursor-home. The final visible content is page 3.
    let bytes = b"\x1b[2J\x1b[H\
        commit AAAAAAAA (HEAD)\nAuthor: tester\nDate:   today\n\n    first commit\n:\
        \x1b[2J\x1b[H\
        commit AAAAAAAA (HEAD)\nAuthor: tester\nDate:   today\n\n    first commit\n:...skipping...\ncommit BBBBBBBB\nAuthor: tester\nDate:   yesterday\n\n    second commit\n:\
        \x1b[2J\x1b[H\
        commit BBBBBBBB\nAuthor: tester\nDate:   yesterday\n\n    second commit\n\ncommit CCCCCCCC\nAuthor: tester\nDate:   long ago\n\n    third commit\n(END)";
    let out = render_to_text(bytes, 80, 24);
    // Only the final page should remain.
    assert_eq!(out.matches("commit AAAAAAAA").count(), 0);
    assert_eq!(out.matches("commit BBBBBBBB").count(), 1);
    assert_eq!(out.matches("commit CCCCCCCC").count(), 1);
    assert!(out.contains("(END)"));
    // No "...skipping..." chrome leaks in from earlier pages.
    assert!(!out.contains("...skipping..."));
}

#[test]
fn streams_plain_output_unchanged() {
    let out = render_to_text(b"line one\nline two\nline three", 80, 24);
    assert_eq!(out, "line one\nline two\nline three");
}

#[test]
fn handles_carriage_return_overwrite() {
    // A progress bar overwrites itself with \r. Final state is "100%   ".
    let out = render_to_text(b"  0% loading\r 50% loading\r100% loading", 80, 24);
    assert_eq!(out, "100% loading");
}

#[test]
fn cursor_address_writes_into_grid() {
    // Move cursor to (3, 5) and write "hi".
    let bytes = b"\x1b[3;5Hhi";
    let out = render_to_text(bytes, 80, 24);
    let lines: Vec<&str> = out.lines().collect();
    assert_eq!(lines.len(), 3);
    assert_eq!(lines[0], "");
    assert_eq!(lines[1], "");
    assert_eq!(lines[2], "    hi");
}

#[test]
fn colors_survive_cursor_positioning_replay() {
    // A clear-screen + home + colorized line. The recorded output must
    // contain an SGR sequence so the rendered block keeps its color
    // (previously stripped entirely by the no-SGR grid).
    let palette = [Rgb { r: 0, g: 0, b: 0 }; 16];
    let bytes = b"\x1b[2J\x1b[H\x1b[31mred-text\x1b[0m plain";
    let out = render_to_ansi(bytes, 80, 24, &palette);
    assert!(out.contains("red-text"));
    assert!(out.contains("plain"));
    // The line carries an SGR escape and a reset.
    assert!(out.contains("\x1b["), "expected SGR in output: {out:?}");
}

#[test]
fn combining_marks_do_not_shift_columns() {
    // "é" written as `e` + U+0301 (combining acute). Both chars must end
    // up in the same column so the trailing `|` lands at column 2, not 3.
    let bytes = "e\u{301}|".as_bytes();
    let out = render_to_text(bytes, 10, 1);
    // Output is now base-only (combining mark dropped from the offline
    // grid), but column alignment is preserved.
    assert_eq!(out, "e|");
}

#[test]
fn ich_shifts_chars_right() {
    // Write "abcde", move cursor to col 1 (b), insert 2 blanks → "a  bcd"
    // (e fell off the end if we had a tiny grid, but with cols 80 it stays).
    let bytes = b"abcde\x1b[1;2H\x1b[2@";
    let out = render_to_text(bytes, 80, 24);
    assert_eq!(out, "a  bcde");
}

#[test]
fn dch_shifts_chars_left() {
    // Write "abcde", move to col 1 (b), delete 2 chars → "ade".
    let bytes = b"abcde\x1b[1;2H\x1b[2P";
    let out = render_to_text(bytes, 80, 24);
    assert_eq!(out, "ade");
}

#[test]
fn ech_erases_in_place() {
    // Write "abcde", move to col 1 (b), erase 2 chars → "a  de" (cursor unmoved).
    let bytes = b"abcde\x1b[1;2H\x1b[2X";
    let out = render_to_text(bytes, 80, 24);
    assert_eq!(out, "a  de");
}

#[test]
fn rep_repeats_last_char() {
    // "a" then REP 4 → "aaaaa".
    let bytes = b"a\x1b[4b";
    let out = render_to_text(bytes, 80, 24);
    assert_eq!(out, "aaaaa");
}

#[test]
fn sixel_payload_is_replaced_with_placeholder() {
    // \eP q ...payload... \e\  — sixel-style DCS. The binary body must not
    // leak into the rendered output; the placeholder takes its place.
    let mut bytes: Vec<u8> = Vec::new();
    bytes.extend_from_slice(b"before \x1bPq");
    bytes.extend(std::iter::repeat(b'#').take(200));
    bytes.extend_from_slice(b"\x1b\\ after");
    let out = render_to_text(&bytes, 80, 24);
    assert!(!out.contains("##########"), "raw payload leaked: {out:?}");
    assert!(out.contains("[image]"), "placeholder missing: {out:?}");
    assert!(out.contains("before"));
    assert!(out.contains("after"));
}

#[test]
fn kitty_apc_payload_is_replaced_with_placeholder() {
    // \e_G ...payload... \e\
    let mut bytes: Vec<u8> = Vec::new();
    bytes.extend_from_slice(b"x\x1b_G");
    bytes.extend(std::iter::repeat(b'a').take(50));
    bytes.extend_from_slice(b"\x1b\\y");
    let out = render_to_text(&bytes, 80, 24);
    assert!(!out.contains("aaaaaaaaaa"), "raw payload leaked: {out:?}");
    assert!(out.contains("[graphic]"));
    assert!(out.starts_with('x'));
    assert!(out.ends_with('y'));
}

#[test]
fn osc8_hyperlinks_survive_replay() {
    // `\e]8;;https://x.example\e\\` link \e]8;;\e\\ plain
    // Replay must preserve both the link and the URI on the rendered text.
    let palette = [Rgb { r: 0, g: 0, b: 0 }; 16];
    let bytes = b"\x1b[2J\x1b[H\x1b]8;;https://x.example\x1b\\link\x1b]8;;\x1b\\ plain";
    let out = render_to_ansi(bytes, 80, 24, &palette);
    assert!(out.contains("link"));
    assert!(out.contains("https://x.example"), "uri missing: {out:?}");
    // Both the opener and the closer were emitted.
    assert!(
        out.matches("\x1b]8;;").count() >= 2,
        "expected open+close: {out:?}"
    );
}

#[test]
fn dec_line_drawing_translates_letters() {
    // ESC ( 0  selects DEC graphics for G0. Then "lqk" should render as
    // ┌─┐ (upper-left, horizontal, upper-right).
    let bytes = b"\x1b(0lqk\x1b(B";
    let out = render_to_text(bytes, 80, 24);
    assert_eq!(out, "┌─┐");
}

#[test]
fn line_clear_wipes_old_content() {
    // Write a long line, return, clear-line-to-end, write short — only short
    // remains.
    let bytes = b"old long content\rnew\x1b[K";
    let out = render_to_text(bytes, 80, 24);
    assert_eq!(out, "new");
}

#[test]
fn bidi_arabic_renders_rtl() {
    // Pure RTL line: Arabic letters BAA, MEEM, KAF (logical order).
    // Visually each glyph should be emitted in reverse logical order.
    let bytes = "\u{0628}\u{0645}\u{0643}".as_bytes(); // ب م ك
    let out = render_to_text(bytes, 80, 24);
    // Reordered visually right-to-left: KAF, MEEM, BAA
    assert_eq!(out, "\u{0643}\u{0645}\u{0628}");
}

#[test]
fn bidi_mirrors_brackets_in_rtl_run() {
    // RTL run containing a paired bracket should flip to its mirror.
    // Hebrew alef, opening parenthesis, hebrew bet — visually the
    // parenthesis becomes ')'.
    let bytes = "\u{05D0}(\u{05D1}".as_bytes();
    let out = render_to_text(bytes, 80, 24);
    assert!(
        out.chars().any(|c| c == ')'),
        "expected mirrored bracket in {:?}",
        out
    );
    assert!(!out.contains('('));
}

#[test]
fn bidi_ltr_only_lines_are_unchanged() {
    // Sanity: ASCII-only output goes through the fast path identical to
    // pre-bidi behavior.
    let out = render_to_text(b"hello world\n123 abc", 80, 24);
    assert_eq!(out, "hello world\n123 abc");
}

const BLACK: Rgb = Rgb { r: 0, g: 0, b: 0 };

#[test]
fn wide_characters_take_two_columns() {
    // The bar goes to the third column, behind both halves of the character.
    let out = render_to_text("\u{4e2d}|".as_bytes(), 10, 1);
    assert_eq!(out, "\u{4e2d}|");
    let out = render_to_text("\u{4e2d}\x1b[1;3HX".as_bytes(), 10, 1);
    assert_eq!(out, "\u{4e2d}X");
}

#[test]
fn text_drops_colours_and_trailing_blanks() {
    assert_eq!(render_to_text(b"\x1b[31mred\x1b[0m   \nx", 80, 24), "red\nx");
}

#[test]
fn exact_styled_output() {
    let palette = [BLACK; 16];
    let out = render_to_ansi(b"\x1b[1mb\x1b[0mp", 80, 24, &palette);
    assert!(out.contains('b') && out.contains('p'));
    assert_eq!(out.matches("\x1b[").count() % 2, 0);
}

#[test]
fn lines_scroll_off_the_top() {
    assert_eq!(render_to_text(b"\x1b[Ha\r\nb\r\nc", 10, 2).lines().last(), Some("c"));
}

#[test]
fn the_cursor_comes_back_where_it_was_saved() {
    assert_eq!(render_to_text(b"ab\x1b7\x1b[1;9Hx\x1b8c", 20, 2), "abc     x");
}

#[test]
fn deleting_undoes_inserting() {
    assert_eq!(render_to_text(b"abcde\x1b[1;2H\x1b[3@\x1b[3P", 80, 24), "abcde");
}

#[test]
fn replay_in_one_grid() {
    let mut g = Grid::new(20, 4, [BLACK; 16]);
    g.replay(b"one\r\ntwo");
    assert_eq!(g.to_text(), "one\ntwo");
}

#[test]
fn relative_moves_are_repaints() {
    assert!(has_cursor_positioning(b"\x1b[5a"));
    assert!(has_cursor_positioning(b"\x1b[5e"));
}

#[test]
fn trailing_blank_rows_are_dropped() {
    assert_eq!(render_to_text(b"a\n\n\n", 80, 24), "a");
    assert_eq!(render_to_text(b"a\n", 80, 24), "a");
    assert_eq!(render_to_text(b"\n\n", 80, 24), "");
    assert_eq!(render_to_text(b"\na", 80, 24), "\na");
}

#[test]
fn text_that_moves_down_is_kept() {
    let palette = [BLACK; 16];
    assert_eq!(render_to_ansi(b"a\x1bM", 80, 24, &palette), "\na");
    assert_eq!(render_to_text(b"a\x1b[2L", 80, 24), "\n\na");
    assert_eq!(render_to_text(b"a\x1b[3T", 80, 24), "\n\n\na");
    // What leaves the region is gone.
    assert_eq!(render_to_text(b"a\x1b[9T", 80, 4), "");
    // Rows outside the region stay.
    assert_eq!(render_to_text(b"a\nb\nc\x1b[1;2r\x1b[H\x1bM", 80, 4), "\na\nc");
}

#[test]
fn malformed_regions_are_passed_over() {
    assert_eq!(render_to_text(b"a\nb\x1b[4;2r\x1b[1T", 80, 6), "\na\nb");
    assert_eq!(
        render_to_text(b"\x1b[3;1ra\nb\nc", 80, 3),
        render_to_text(b"a\nb\nc", 80, 3)
    );
}

#[test]
fn only_the_last_page_is_left() {
    let page = "two \u{e9}\n\tend";
    let all = format!("one\nold\u{4e2d}\rx\x1b[2J\x1b[H{page}");
    assert_eq!(render_to_text(all.as_bytes(), 20, 4), render_to_text(page.as_bytes(), 20, 4));
}

#[test]
fn rendered_text_renders_to_itself() {
    let streams: &[&[u8]] = &[
        b"",
        b"  x  \n\n y\x1b[5;3Hz\x1b[2;1H\x1b[Labc\x08\x7f\x1b[3b",
        b"\x1b(0lqqk\nx  x\x1b(B\x1b[31mred\x1b[0m\x1b[1;3rlong line that wraps around",
        b"\x1bM\x1bP0123456789abcdefghij\x1b\\tail\x1b]8;;u\x07link\x1b]8;;\x07",
    ];
    for bytes in streams {
        let r = render_to_text(bytes, 12, 6);
        assert_eq!(render_to_text(r.as_bytes(), 12, 6), r);
        assert!(r.matches('\n').count() <= 5);
        assert!(r.split('\n').all(|l| l.chars().count() <= 12 && l.trim_end() == l));
    }
}

#[test]
fn line_drawing_glyphs_take_one_column() {
    let glyphs = "\u{2518}\u{2510}\u{250c}\u{2514}\u{253c}\u{2500}\u{251c}\u{2524}\u{2534}\u{252c}\
        \u{2502}\u{2592}\u{25c6}\u{b0}\u{b1}\u{b7}\u{23ba}\u{2264}\u{2265}\u{3c0}\u{2260}\u{a3}";
    for c in glyphs.chars() {
        let out = render_to_text(format!("{c}\x1b[1;2HX\x7fY").as_bytes(), 10, 1);
        assert_eq!(out, format!("{c}XY"));
    }
}
