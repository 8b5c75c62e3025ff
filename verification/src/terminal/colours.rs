//! What SGR parameters do to a style, told of the numbers that stand in the
//! sequence and of the fields of the style.

use super::ansi::{Page, Rgb, Run, Style, TagInk, UnderlineStyle};
use super::grid::Screen;
use vstd::prelude::*;

verus! {

/// The numbers of an SGR sequence, with semicolons between them.
pub open spec fn sgr_bytes(ns: Seq<nat>) -> Seq<u8> {
    crate::text::joined(
        Seq::new(ns.len(), |i: int| super::sequences::digits(ns[i])),
        seq![0x3bu8],
    )
}

/// The style after the parameters of an SGR sequence.
pub open spec fn after_bytes(s: Style, params: Seq<u8>, palette: Seq<Rgb>) -> Style {
    super::ansi::after_sgr(s, super::ansi::sgr_chunks(params), palette)
}

/// The style after an SGR sequence with the numbers.
pub open spec fn after_numbers(s: Style, ns: Seq<nat>, palette: Seq<Rgb>) -> Style {
    after_bytes(s, sgr_bytes(ns), palette)
}

spec fn decimals(ns: Seq<nat>) -> Seq<Seq<char>> {
    Seq::new(ns.len(), |i: int| crate::text::decimal(ns[i]))
}

proof fn lemma_bytes_range(ns: Seq<nat>)
    ensures
        forall|i: int| 0 <= i < sgr_bytes(ns).len() ==> 0x30 <= #[trigger] sgr_bytes(ns)[i] <= 0x3b,
        ns.len() > 0 ==> sgr_bytes(ns).len() > 0 && sgr_bytes(ns)[0] <= 0x39,
    decreases ns.len(),
{
    let parts = Seq::new(ns.len(), |i: int| super::sequences::digits(ns[i]));
    let all = sgr_bytes(ns);
    if ns.len() > 0 {
        let head = parts[0];
        super::sequences::lemma_digits(ns[0]);
        crate::text::lemma_joined_front(parts, seq![0x3bu8]);
        let tail = ns.drop_first();
        lemma_bytes_range(tail);
        assert(parts.drop_first() =~= Seq::new(
            tail.len(),
            |i: int| super::sequences::digits(tail[i]),
        ));
        let more = sgr_bytes(tail);
        assert(all[0] == head[0]);
        assert forall|i: int| 0 <= i < all.len() implies 0x30 <= #[trigger] all[i] <= 0x3b by {
            if i < head.len() {
                assert(all[i] == head[i]);
            } else if i > head.len() {
                assert(all[i] == more[i - head.len() - 1]);
            }
        }
    }
}

proof fn lemma_chunks(ns: Seq<nat>)
    requires
        ns.len() > 0,
    ensures
        super::ansi::sgr_chunks(sgr_bytes(ns)) == decimals(ns),
{
    let parts = Seq::new(ns.len(), |i: int| super::sequences::digits(ns[i]));
    let all = sgr_bytes(ns);
    lemma_bytes_range(ns);
    assert(super::ansi::unmarked(all) == all);
    assert forall|i: int, j: int|
        0 <= i < parts.len() && 0 <= j < parts[i].len() implies #[trigger] parts[i][j] != 0x3b by {
        super::sequences::lemma_digits(ns[i]);
        assert(parts[i][j] == super::sequences::digits(ns[i])[j]);
    }
    crate::text::split_undoes_join(parts, 0x3bu8);
    assert forall|i: int| 0 <= i < ns.len() implies #[trigger] crate::text::widened(parts[i])
        == decimals(ns)[i] by {
        super::sequences::lemma_digits(ns[i]);
    }
    assert(super::ansi::sgr_chunks(all) =~= decimals(ns));
}

proof fn lemma_one(s: Style, n: nat, palette: Seq<Rgb>)
    requires
        n <= 255,
        n != 38 && n != 48 && n != 58,
    ensures
        after_numbers(s, seq![n], palette) == super::ansi::after_number(s, n, palette),
{
    lemma_chunks(seq![n]);
    super::ansi::lemma_decimal_piece(n);
    let parts = decimals(seq![n]);
    assert(parts.len() == 1 && parts[0] == crate::text::decimal(n));
    assert(parts.skip(1) =~= seq![]);
    assert(super::ansi::after_sgr(
        super::ansi::after_number(s, n, palette),
        parts.skip(1),
        palette,
    ) == super::ansi::after_number(s, n, palette));
}

// ---------------------------------------------------------------------------
// Colours
// ---------------------------------------------------------------------------

/// 30 to 37 set the text colour to the first eight colours of the palette and
/// 40 to 47 the background, 90 to 97 and 100 to 107 to the second eight; 39, 49
/// and 59 take the colours of text, background and underline away. No other
/// field changes.
pub proof fn colours_come_from_the_palette(s: Style, k: nat, palette: Seq<Rgb>)
    requires
        k < 8,
    ensures
        after_numbers(s, seq![30 + k], palette) == (Style {
            foreground: Some(palette[k as int]),
            ..s
        }),
        after_numbers(s, seq![40 + k], palette) == (Style {
            background: Some(palette[k as int]),
            ..s
        }),
        after_numbers(s, seq![90 + k], palette) == (Style {
            foreground: Some(palette[k as int + 8]),
            ..s
        }),
        after_numbers(s, seq![100 + k], palette) == (Style {
            background: Some(palette[k as int + 8]),
            ..s
        }),
        after_numbers(s, seq![39], palette) == (Style { foreground: None, ..s }),
        after_numbers(s, seq![49], palette) == (Style { background: None, ..s }),
        after_numbers(s, seq![59], palette) == (Style { underline_color: None, ..s }),
{
    lemma_one(s, 30 + k, palette);
    lemma_one(s, 40 + k, palette);
    lemma_one(s, 90 + k, palette);
    lemma_one(s, 100 + k, palette);
    lemma_one(s, 39, palette);
    lemma_one(s, 49, palette);
    lemma_one(s, 59, palette);
}

/// The style with the colour of 38 (text), 48 (background) or 58 (underline).
pub open spec fn with_colour(s: Style, lead: nat, c: Rgb) -> Style {
    if lead == 38 {
        Style { foreground: Some(c), ..s }
    } else if lead == 48 {
        Style { background: Some(c), ..s }
    } else {
        Style { underline_color: Some(c), ..s }
    }
}

proof fn lemma_indexed(s: Style, lead: nat, n: nat, rest: Seq<nat>, palette: Seq<Rgb>)
    requires
        lead == 38 || lead == 48 || lead == 58,
        n <= 255,
    ensures
        after_numbers(s, seq![lead, 5, n], palette) == with_colour(
            s,
            lead,
            super::ansi::indexed_color(n as u8, palette),
        ),
        rest.len() > 0 ==> after_numbers(s, seq![lead, 5, n] + rest, palette) == after_numbers(
            after_numbers(s, seq![lead, 5, n], palette),
            rest,
            palette,
        ),
{
    lemma_indexed_part(s, lead, n, seq![], palette);
    let none: Seq<nat> = seq![];
    assert(seq![lead, 5, n] + none =~= seq![lead, 5, n]);
    assert(decimals(none) =~= seq![]);
    let c = super::ansi::indexed_color(n as u8, palette);
    assert(super::ansi::after_sgr(with_colour(s, lead, c), decimals(none), palette) == with_colour(
        s,
        lead,
        c,
    ));
    if rest.len() > 0 {
        lemma_indexed_part(s, lead, n, rest, palette);
        lemma_chunks(rest);
    }
}

proof fn lemma_indexed_part(s: Style, lead: nat, n: nat, rest: Seq<nat>, palette: Seq<Rgb>)
    requires
        lead == 38 || lead == 48 || lead == 58,
        n <= 255,
    ensures
        after_numbers(s, seq![lead, 5, n] + rest, palette) == super::ansi::after_sgr(
            with_colour(s, lead, super::ansi::indexed_color(n as u8, palette)),
            decimals(rest),
            palette,
        ),
{
    let ns = seq![lead, 5, n] + rest;
    lemma_chunks(ns);
    let parts = decimals(ns);
    super::ansi::lemma_decimal_piece(lead);
    super::ansi::lemma_decimal_piece(n);
    reveal_strlit("5");
    assert(parts[0] == crate::text::decimal(lead));
    assert(parts[1] == crate::text::decimal(5));
    assert(parts[2] == crate::text::decimal(n));
    assert(crate::text::decimal(5) =~= "5"@);
    assert(parts.skip(3) =~= decimals(rest));
}

proof fn lemma_direct_part(s: Style, lead: nat, c: Rgb, rest: Seq<nat>, palette: Seq<Rgb>)
    requires
        lead == 38 || lead == 48 || lead == 58,
    ensures
        after_numbers(
            s,
            seq![lead, 2, c.r as nat, c.g as nat, c.b as nat] + rest,
            palette,
        ) == super::ansi::after_sgr(with_colour(s, lead, c), decimals(rest), palette),
{
    let ns = seq![lead, 2, c.r as nat, c.g as nat, c.b as nat] + rest;
    lemma_chunks(ns);
    let parts = decimals(ns);
    super::ansi::lemma_decimal_piece(lead);
    super::ansi::lemma_decimal_piece(c.r as nat);
    super::ansi::lemma_decimal_piece(c.g as nat);
    super::ansi::lemma_decimal_piece(c.b as nat);
    reveal_strlit("5");
    reveal_strlit("2");
    assert(parts[0] == crate::text::decimal(lead));
    assert(parts[1] == crate::text::decimal(2));
    assert(parts[2] == crate::text::decimal(c.r as nat));
    assert(parts[3] == crate::text::decimal(c.g as nat));
    assert(parts[4] == crate::text::decimal(c.b as nat));
    assert(crate::text::decimal(2) =~= "2"@);
    assert("2"@[0] != "5"@[0]);
    assert(parts.skip(5) =~= decimals(rest));
}

/// `38;5;n` picks a colour for text from a table of 256, `48;5;n` for the
/// background, `58;5;n` for the underline: first the sixteen of the palette.
/// What follows in the sequence counts as if it stood alone.
pub proof fn first_colours_of_the_table(
    s: Style,
    lead: nat,
    n: nat,
    rest: Seq<nat>,
    palette: Seq<Rgb>,
)
    requires
        lead == 38 || lead == 48 || lead == 58,
        n < 16,
    ensures
        after_numbers(s, seq![lead, 5, n], palette) == with_colour(s, lead, palette[n as int]),
        rest.len() > 0 ==> after_numbers(s, seq![lead, 5, n] + rest, palette) == after_numbers(
            after_numbers(s, seq![lead, 5, n], palette),
            rest,
            palette,
        ),
{
    lemma_indexed(s, lead, n, rest, palette);
}

/// Then the cube: red, green and blue in six steps of 51 each.
pub proof fn colour_cube_of_the_table(
    s: Style,
    lead: nat,
    r: nat,
    g: nat,
    b: nat,
    palette: Seq<Rgb>,
)
    requires
        lead == 38 || lead == 48 || lead == 58,
        r < 6,
        g < 6,
        b < 6,
    ensures
        after_numbers(s, seq![lead, 5, 16 + 36 * r + 6 * g + b], palette) == with_colour(
            s,
            lead,
            Rgb { r: (51 * r) as u8, g: (51 * g) as u8, b: (51 * b) as u8 },
        ),
{
    let n = 16 + 36 * r + 6 * g + b;
    lemma_indexed(s, lead, n, seq![], palette);
    let k = (n - 16) as u8;
    assert(k / 36 == r && (k % 36) / 6 == g && k % 6 == b);
}

/// Last the greys, from 8 on in steps of 10.
pub proof fn greys_of_the_table(s: Style, lead: nat, i: nat, palette: Seq<Rgb>)
    requires
        lead == 38 || lead == 48 || lead == 58,
        i < 24,
    ensures
        after_numbers(s, seq![lead, 5, 232 + i], palette) == with_colour(
            s,
            lead,
            Rgb { r: (8 + 10 * i) as u8, g: (8 + 10 * i) as u8, b: (8 + 10 * i) as u8 },
        ),
{
    lemma_indexed(s, lead, 232 + i, seq![], palette);
}

/// `38;2;r;g;b` gives the text that colour, `48` the background and `58` the
/// underline. What follows in the sequence counts as if it stood alone.
pub proof fn colours_can_be_direct(
    s: Style,
    lead: nat,
    c: Rgb,
    rest: Seq<nat>,
    palette: Seq<Rgb>,
)
    requires
        lead == 38 || lead == 48 || lead == 58,
    ensures
        after_numbers(
            s,
            seq![lead, 2, c.r as nat, c.g as nat, c.b as nat],
            palette,
        ) == with_colour(s, lead, c),
        rest.len() > 0 ==> after_numbers(
            s,
            seq![lead, 2, c.r as nat, c.g as nat, c.b as nat] + rest,
            palette,
        ) == after_numbers(with_colour(s, lead, c), rest, palette),
{
    let none: Seq<nat> = seq![];
    lemma_direct_part(s, lead, c, none, palette);
    let ns = seq![lead, 2, c.r as nat, c.g as nat, c.b as nat];
    assert(ns + none =~= ns);
    assert(decimals(none) =~= seq![]);
    assert(super::ansi::after_sgr(with_colour(s, lead, c), decimals(none), palette) == with_colour(
        s,
        lead,
        c,
    ));
    if rest.len() > 0 {
        lemma_direct_part(s, lead, c, rest, palette);
        lemma_chunks(rest);
    }
}

// ---------------------------------------------------------------------------
// Attributes
// ---------------------------------------------------------------------------

/// 1 to 9 switch attributes on, 53 the overline; no other field changes.
pub proof fn attributes_are_switched_on(s: Style, palette: Seq<Rgb>)
    ensures
        after_numbers(s, seq![1], palette) == (Style { bold: true, ..s }),
        after_numbers(s, seq![2], palette) == (Style { dim: true, ..s }),
        after_numbers(s, seq![3], palette) == (Style { italic: true, ..s }),
        after_numbers(s, seq![4], palette) == (Style {
            underline_style: UnderlineStyle::Single,
            ..s
        }),
        after_numbers(s, seq![5], palette) == (Style { blink: true, ..s }),
        after_numbers(s, seq![6], palette) == (Style { blink: true, ..s }),
        after_numbers(s, seq![7], palette) == (Style { reverse: true, ..s }),
        after_numbers(s, seq![8], palette) == (Style { hidden: true, ..s }),
        after_numbers(s, seq![9], palette) == (Style { strikethrough: true, ..s }),
        after_numbers(s, seq![53], palette) == (Style { overline: true, ..s }),
{
    lemma_one(s, 1, palette);
    lemma_one(s, 2, palette);
    lemma_one(s, 3, palette);
    lemma_one(s, 4, palette);
    lemma_one(s, 5, palette);
    lemma_one(s, 6, palette);
    lemma_one(s, 7, palette);
    lemma_one(s, 8, palette);
    lemma_one(s, 9, palette);
    lemma_one(s, 53, palette);
}

/// 22 to 29 and 55 switch attributes off again: 22 both bold and dim, 24 the
/// underline with its colour. No other field changes.
pub proof fn attributes_are_switched_off(s: Style, palette: Seq<Rgb>)
    ensures
        after_numbers(s, seq![22], palette) == (Style { bold: false, dim: false, ..s }),
        after_numbers(s, seq![23], palette) == (Style { italic: false, ..s }),
        after_numbers(s, seq![24], palette) == (Style {
            underline_style: UnderlineStyle::Off,
            underline_color: None,
            ..s
        }),
        after_numbers(s, seq![25], palette) == (Style { blink: false, ..s }),
        after_numbers(s, seq![27], palette) == (Style { reverse: false, ..s }),
        after_numbers(s, seq![28], palette) == (Style { hidden: false, ..s }),
        after_numbers(s, seq![29], palette) == (Style { strikethrough: false, ..s }),
        after_numbers(s, seq![55], palette) == (Style { overline: false, ..s }),
{
    lemma_one(s, 22, palette);
    lemma_one(s, 23, palette);
    lemma_one(s, 24, palette);
    lemma_one(s, 25, palette);
    lemma_one(s, 27, palette);
    lemma_one(s, 28, palette);
    lemma_one(s, 29, palette);
    lemma_one(s, 55, palette);
}

/// Zero, and a sequence without a number, take all colours and attributes away
/// and leave the link.
pub proof fn zero_resets_the_style(s: Style, palette: Seq<Rgb>)
    ensures
        after_numbers(s, seq![0], palette) == (Style {
            foreground: None,
            background: None,
            bold: false,
            italic: false,
            underline_style: UnderlineStyle::Off,
            underline_color: None,
            strikethrough: false,
            dim: false,
            reverse: false,
            hidden: false,
            overline: false,
            blink: false,
            hyperlink: s.hyperlink,
        }),
        after_bytes(s, seq![], palette) == after_numbers(s, seq![0], palette),
{
    lemma_one(s, 0, palette);
    let none: Seq<u8> = seq![];
    crate::text::lemma_until_at(none, 0x3bu8, 0);
    let parts = super::ansi::sgr_chunks(none);
    assert(crate::text::split_on(none, 0x3bu8) =~= seq![none]);
    assert(parts.len() == 1 && parts[0] =~= Seq::<char>::empty());
    assert(parts[0].take(0) =~= Seq::<char>::empty());
    assert(crate::text::digits_value(parts[0].take(0)) == 0);
    assert(super::ansi::number(parts[0]) == 0);
    assert(parts.skip(1) =~= seq![]);
    let t = super::ansi::after_number(s, 0, palette);
    assert(super::ansi::after_sgr(t, parts.skip(1), palette) == t);
}

/// `4:0` takes the underline away, `4:1` to `4:5` make it single, double,
/// curly, dotted or dashed; no other field changes.
pub proof fn underlines_have_a_style(s: Style, n: nat, palette: Seq<Rgb>)
    requires
        n <= 5,
    ensures
        after_bytes(s, seq![0x34u8, 0x3au8, (0x30 + n) as u8], palette) == (Style {
            underline_style: if n == 0 {
                UnderlineStyle::Off
            } else if n == 1 {
                UnderlineStyle::Single
            } else if n == 2 {
                UnderlineStyle::Double
            } else if n == 3 {
                UnderlineStyle::Curly
            } else if n == 4 {
                UnderlineStyle::Dotted
            } else {
                UnderlineStyle::Dashed
            },
            ..s
        }),
{
    let p = seq![0x34u8, 0x3au8, (0x30 + n) as u8];
    assert(super::ansi::unmarked(p) == p);
    crate::text::lemma_until_at(p, 0x3bu8, 3);
    assert(crate::text::split_on(p, 0x3bu8) =~= seq![p]);
    let parts = super::ansi::sgr_chunks(p);
    let part = parts[0];
    assert(parts.len() == 1);
    assert(part =~= seq!['4', ':', (0x30 + n) as char]);
    assert(part[1] == ':');
    assert(part.contains(':'));
    crate::text::lemma_until_at(part, ':', 1);
    let tail = part.skip(2);
    crate::text::lemma_until_at(tail, ':', 1);
    assert(tail =~= seq![(0x30 + n) as char]);
    assert(crate::text::split_on(tail, ':') =~= seq![tail]);
    assert(part.take(1) =~= seq!['4']);
    assert(crate::text::split_on(part, ':') =~= seq![part.take(1), tail]);
    super::ansi::lemma_decimal_piece(4);
    super::ansi::lemma_decimal_piece(n);
    assert(crate::text::decimal(4) =~= part.take(1));
    assert(crate::text::decimal(n) =~= tail);
    assert(parts.skip(1) =~= seq![]);
    let t = super::ansi::after_colon_chunk(s, crate::text::split_on(part, ':'), palette);
    assert(super::ansi::after_sgr(t, parts.skip(1), palette) == t);
}

/// Numbers in one sequence count one after another, as if each stood in a
/// sequence of its own.
pub proof fn numbers_count_in_order(s: Style, n: nat, rest: Seq<nat>, palette: Seq<Rgb>)
    requires
        n <= 255,
        n != 38 && n != 48 && n != 58,
        rest.len() > 0,
    ensures
        after_numbers(s, seq![n] + rest, palette) == after_numbers(
            after_numbers(s, seq![n], palette),
            rest,
            palette,
        ),
{
    let ns = seq![n] + rest;
    lemma_one(s, n, palette);
    lemma_chunks(ns);
    lemma_chunks(rest);
    super::ansi::lemma_decimal_piece(n);
    let parts = decimals(ns);
    assert(parts[0] == crate::text::decimal(n));
    assert(parts.skip(1) =~= decimals(rest));
}

// ---------------------------------------------------------------------------
// Where the styles go
// ---------------------------------------------------------------------------

/// The numbers as the characters of a text.
pub open spec fn sgr_text(ns: Seq<nat>) -> Seq<char> {
    seq!['\x1b', '['] + crate::text::widened(sgr_bytes(ns)) + seq!['m']
}

/// An SGR sequence in a text changes the style of what follows and nothing
/// else.
pub proof fn reading_an_sgr_sequence(p: Page, ns: Seq<nat>, rest: Seq<char>, palette: Seq<Rgb>)
    requires
        ns.len() > 0,
    ensures
        p.read(sgr_text(ns) + rest, palette) == (Page {
            style: after_numbers(p.style, ns, palette),
            ..p
        }).read(rest, palette),
{
    let bytes = sgr_bytes(ns);
    let w = crate::text::widened(bytes);
    let text = sgr_text(ns) + rest;
    let body = text.skip(2);
    lemma_bytes_range(ns);
    assert forall|i: int| 0 <= i < bytes.len() implies #[trigger] bytes[i] < 0x80 by {}
    crate::text::ascii_bytes_are_utf8(bytes);
    assert(text[0] == '\x1b' && text[1] == '[');
    assert forall|k: int| 0 <= k < w.len() implies !('@' <= #[trigger] body[k] <= '~') by {
        assert(body[k] == w[k]);
        assert(bytes[k] <= 0x3b);
    }
    assert(body[w.len() as int] == 'm');
    super::ansi::lemma_csi_len(body, w.len() as int);
    assert(text.subrange(2, 2 + w.len() as int) =~= w);
    assert(text.skip(super::ansi::token_len(text) as int) =~= rest);
}

/// An SGR sequence on the screen changes the style of what is printed next,
/// and neither the cells nor the cursor.
pub proof fn printing_takes_the_style(s: Screen, ns: Seq<nat>)
    requires
        s.wf(),
        ns.len() > 0,
        s.table.len() < 0xffff,
    ensures
        ({
            let t = s.replay(super::sequences::csi_bytes(sgr_bytes(ns), 0x6d));
            &&& t == (Screen { style: t.style, state: t.state, table: t.table, ..s })
            &&& t.state == after_numbers(s.state, ns, s.palette)
            &&& t.table[t.style as int] == t.state
            &&& forall|i: int| 0 <= i < s.table.len() ==> t.table[i] == s.table[i]
        }),
{
    let none: Seq<u8> = seq![];
    let p = sgr_bytes(ns);
    lemma_bytes_range(ns);
    assert forall|i: int| 0 <= i < p.len() implies !(0x40 <= #[trigger] p[i] <= 0x7e) by {}
    super::grid::lemma_csi_token(s, p, 0x6d, none);
    let bytes = super::sequences::csi_bytes(p, 0x6d);
    assert(seq![0x1bu8, 0x5bu8] + p + seq![0x6du8] + none =~= bytes);
    let a = Screen { state: after_numbers(s.state, ns, s.palette), ..s };
    let t = s.replay(bytes);
    assert(s.csi(p, 0x6d) == a.interned());
    assert(a.interned().replay(none) == a.interned());
    super::grid::interning_finds_the_style(a);
    assert(t == (Screen { style: t.style, table: t.table, ..a })) by {
        reveal(Screen::interned);
    }
}

/// Text behind `ESC [ 30+k m` is read in the `k`-th colour of the palette,
/// behind `ESC [ 40+k m` on it, behind `ESC [ 90+k m` and `ESC [ 100+k m` in and
/// on the bright ones; all else is read as before.
pub proof fn reading_a_colour(p: Page, k: nat, rest: Seq<char>, palette: Seq<Rgb>)
    requires
        k < 8,
    ensures
        p.read(
            seq!['\x1b', '['] + crate::text::decimal(30 + k) + seq!['m'] + rest,
            palette,
        ) == (Page {
            style: Style { foreground: Some(palette[k as int]), ..p.style },
            ..p
        }).read(rest, palette),
        p.read(
            seq!['\x1b', '['] + crate::text::decimal(40 + k) + seq!['m'] + rest,
            palette,
        ) == (Page {
            style: Style { background: Some(palette[k as int]), ..p.style },
            ..p
        }).read(rest, palette),
        p.read(
            seq!['\x1b', '['] + crate::text::decimal(90 + k) + seq!['m'] + rest,
            palette,
        ) == (Page {
            style: Style { foreground: Some(palette[k as int + 8]), ..p.style },
            ..p
        }).read(rest, palette),
        p.read(
            seq!['\x1b', '['] + crate::text::decimal(100 + k) + seq!['m'] + rest,
            palette,
        ) == (Page {
            style: Style { background: Some(palette[k as int + 8]), ..p.style },
            ..p
        }).read(rest, palette),
{
    colours_come_from_the_palette(p.style, k, palette);
    lemma_reading_one(p, 30 + k, rest, palette);
    lemma_reading_one(p, 40 + k, rest, palette);
    lemma_reading_one(p, 90 + k, rest, palette);
    lemma_reading_one(p, 100 + k, rest, palette);
}

proof fn lemma_reading_one(p: Page, n: nat, rest: Seq<char>, palette: Seq<Rgb>)
    ensures
        p.read(seq!['\x1b', '['] + crate::text::decimal(n) + seq!['m'] + rest, palette) == (Page {
            style: after_numbers(p.style, seq![n], palette),
            ..p
        }).read(rest, palette),
{
    reading_an_sgr_sequence(p, seq![n], rest, palette);
    super::sequences::lemma_digits(n);
    let parts = Seq::new(1, |i: int| super::sequences::digits(seq![n][i]));
    assert(parts.len() == 1 && parts[0] == super::sequences::digits(n));
    assert(sgr_bytes(seq![n]) == super::sequences::digits(n)) by {
        assert(Seq::new(seq![n].len(), |i: int| super::sequences::digits(seq![n][i])) =~= parts);
    }
    assert(sgr_text(seq![n]) == seq!['\x1b', '['] + crate::text::decimal(n) + seq!['m']);
}

// ---------------------------------------------------------------------------
// Text with escapes
// ---------------------------------------------------------------------------

/// A character is written over the one in its column, or behind the line, and
/// the column goes on by one.
pub proof fn characters_fill_the_line(p: Page, c: char, rest: Seq<char>, palette: Seq<Rgb>)
    requires
        c >= ' ',
        p.col <= p.line.len(),
    ensures
        p.col < p.line.len() ==> p.read(seq![c] + rest, palette) == (Page {
            line: p.line.update(p.col as int, (c, p.style)),
            col: p.col + 1,
            ..p
        }).read(rest, palette),
        p.col == p.line.len() ==> p.read(seq![c] + rest, palette) == (Page {
            line: p.line.push((c, p.style)),
            col: p.col + 1,
            ..p
        }).read(rest, palette),
{
    super::ansi::reading_a_character(p, c, rest, palette);
    if p.col == p.line.len() {
        assert(p.put(c).line =~= p.line.push((c, p.style)));
    }
}

/// A carriage return goes to the first column, a backspace one column back;
/// other control characters have no effect.
pub proof fn controls_move_in_the_line(
    p: Page,
    c: char,
    rest: Seq<char>,
    palette: Seq<Rgb>,
)
    requires
        ' ' > c,
        c != '\x1b' && c != '\n' && c != '\r' && c != '\t' && c != '\x08',
    ensures
        p.read(seq!['\r'] + rest, palette) == (Page { col: 0, ..p }).read(rest, palette),
        p.col > 0 ==> p.read(seq!['\x08'] + rest, palette) == (Page {
            col: (p.col - 1) as nat,
            ..p
        }).read(rest, palette),
        p.col == 0 ==> p.read(seq!['\x08'] + rest, palette) == p.read(rest, palette),
        p.read(seq![c] + rest, palette) == p.read(rest, palette),
{
    assert((seq!['\r'] + rest).skip(1) =~= rest);
    assert((seq!['\x08'] + rest).skip(1) =~= rest);
    assert((seq![c] + rest).skip(1) =~= rest);
}

proof fn lemma_blanks(line: Seq<(char, Style)>, from: nat, to: nat, style: Style)
    requires
        from <= to,
        from == line.len(),
    ensures
        super::ansi::with_blanks(line, from, to, style) == line + Seq::new(
            (to - from) as nat,
            |i: int| (' ', style),
        ),
    decreases to - from,
{
    if from < to {
        lemma_blanks(line.push((' ', style)), from + 1, to, style);
        assert(super::ansi::with_cell(line, from, ' ', style) =~= line.push((' ', style)));
    }
    assert(super::ansi::with_blanks(line, from, to, style) =~= line + Seq::new(
        (to - from) as nat,
        |i: int| (' ', style),
    ));
}

/// A tab at the end of the line fills it with blanks up to the next multiple
/// of eight columns.
pub proof fn tabs_fill_with_blanks(p: Page, stop: nat, rest: Seq<char>, palette: Seq<Rgb>)
    requires
        p.col == p.line.len(),
        stop % 8 == 0,
        p.col < stop <= p.col + 8,
    ensures
        p.read(seq!['\t'] + rest, palette) == (Page {
            line: p.line + Seq::new((stop - p.col) as nat, |i: int| (' ', p.style)),
            col: stop,
            ..p
        }).read(rest, palette),
{
    assert((seq!['\t'] + rest).skip(1) =~= rest);
    assert((p.col / 8 + 1) * 8 == stop);
    lemma_blanks(p.line, p.col, stop, p.style);
}

proof fn lemma_page_csi(p: Page, params: Seq<char>, b: char, rest: Seq<char>, palette: Seq<Rgb>)
    requires
        forall|i: int| 0 <= i < params.len() ==> !('@' <= #[trigger] params[i] <= '~'),
        '@' <= b <= '~',
    ensures
        p.read(seq!['\x1b', '['] + params + seq![b] + rest, palette) == p.csi(
            params,
            b,
            palette,
        ).read(rest, palette),
{
    let text = seq!['\x1b', '['] + params + seq![b] + rest;
    let body = text.skip(2);
    let n = params.len() as int;
    assert forall|k: int| 0 <= k < n implies !('@' <= #[trigger] body[k] <= '~') by {
        assert(body[k] == params[k]);
    }
    assert(body[n] == b);
    super::ansi::lemma_csi_len(body, n);
    assert(text.subrange(2, 2 + n) =~= params);
    assert(text.skip(n + 3) =~= rest);
}

/// `ESC [ K` cuts the line at the column, `ESC [ 2 K` empties it, and every other
/// sequence that is not SGR has no effect.
pub proof fn lines_are_cut(
    p: Page,
    params: Seq<char>,
    b: char,
    rest: Seq<char>,
    palette: Seq<Rgb>,
)
    requires
        p.col <= p.line.len(),
        forall|i: int| 0 <= i < params.len() ==> !('@' <= #[trigger] params[i] <= '~'),
        '@' <= b <= '~',
        b != 'm' && b != 'K',
    ensures
        p.read(seq!['\x1b', '[', 'K'] + rest, palette) == (Page {
            line: p.line.take(p.col as int),
            ..p
        }).read(rest, palette),
        p.read(seq!['\x1b', '[', '2', 'K'] + rest, palette) == (Page { line: seq![], ..p }).read(
            rest,
            palette,
        ),
        p.read(seq!['\x1b', '['] + params + seq![b] + rest, palette) == p.read(rest, palette),
{
    let none: Seq<char> = seq![];
    lemma_page_csi(p, none, 'K', rest, palette);
    assert(seq!['\x1b', '['] + none + seq!['K'] + rest =~= seq!['\x1b', '[', 'K'] + rest);
    lemma_page_csi(p, seq!['2'], 'K', rest, palette);
    assert(seq!['\x1b', '['] + seq!['2'] + seq!['K'] + rest =~= seq!['\x1b', '[', '2', 'K'] + rest);
    crate::text::decimal_reads_back(2);
    assert(crate::text::decimal(2) =~= seq!['2']);
    assert(crate::text::unsigned(seq!['2'], u32::MAX as nat) == Some(2nat));
    lemma_page_csi(p, params, b, rest, palette);
}

// ---------------------------------------------------------------------------
// How styles look
// ---------------------------------------------------------------------------

/// Text has its own colours and attributes; reversed text swaps the two
/// colours. Hidden text cannot be seen, and a link without a colour of its own
/// gets that of links.
pub proof fn looks_follow_the_style(s: Style)
    ensures
        ({
            let look = super::ansi::look_of(s);
            &&& look.bold == s.bold && look.overline == s.overline
            &&& look.strikethrough == s.strikethrough
            &&& look.underline_color == s.underline_color
            &&& look.italic == (s.italic || s.blink)
            &&& look.paper == (if s.reverse {
                s.foreground
            } else {
                s.background
            })
        }),
        super::ansi::look_of(Style { reverse: !s.reverse, ..s }).paper == super::ansi::look_of(
            Style { foreground: s.background, background: s.foreground, ..s },
        ).paper,
        !s.blink && !s.hidden && !s.dim && !s.reverse ==> forall|c: Rgb|
            s.foreground == Some(c) ==> #[trigger] super::ansi::look_of(s).ink == Some(
                TagInk::Solid(c),
            ),
        !s.blink && !s.hidden && s.dim && !s.reverse ==> forall|c: Rgb|
            s.foreground == Some(c) ==> super::ansi::look_of(s).ink == Some(TagInk::Dim(c)),
        !s.blink && !s.hidden && !s.dim && s.reverse ==> forall|c: Rgb|
            s.background == Some(c) ==> super::ansi::look_of(s).ink == Some(TagInk::Solid(c)),
        !s.blink && s.hidden ==> super::ansi::look_of(s).ink == Some(TagInk::Clear),
        s.blink ==> forall|c: Rgb|
            s.foreground == Some(c) ==> super::ansi::look_of(s).ink == Some(TagInk::Blink(c)),
        s.foreground is None && s.background is None && !s.hidden ==> super::ansi::look_of(s).ink
            == (if s.hyperlink is Some {
            Some(TagInk::Link)
        } else {
            None
        }),
        s.underline_style == UnderlineStyle::Off ==> super::ansi::look_of(s).underline == (
        if s.hyperlink is Some {
            UnderlineStyle::Single
        } else {
            UnderlineStyle::Off
        }),
        s.underline_style == UnderlineStyle::Curly ==> super::ansi::look_of(s).underline
            == UnderlineStyle::Curly,
        s.underline_style == UnderlineStyle::Double ==> super::ansi::look_of(s).underline
            == UnderlineStyle::Double,
        s.underline_style == UnderlineStyle::Single || s.underline_style == UnderlineStyle::Dotted
            || s.underline_style == UnderlineStyle::Dashed ==> super::ansi::look_of(s).underline
            == UnderlineStyle::Single,
{
}

/// The spans of runs stand one behind another from the given position on: the
/// first begins there, each begins where the one before it ends, and each is
/// as long as its run.
pub proof fn spans_follow_the_runs(runs: Seq<Run>, start: nat, i: int)
    requires
        0 <= i < runs.len(),
    ensures
        super::ansi::run_spans(runs, start).len() == runs.len(),
        super::ansi::run_spans(runs, start)[0].0 == start,
        super::ansi::run_spans(runs, start)[i].1 == super::ansi::run_spans(runs, start)[i].0
            + runs[i].text.len(),
        i > 0 ==> super::ansi::run_spans(runs, start)[i].0 == super::ansi::run_spans(
            runs,
            start,
        )[i - 1].1,
    decreases runs.len(),
{
    let front = runs.drop_last();
    if front.len() > 0 {
        spans_follow_the_runs(front, start, 0);
        if i < front.len() {
            spans_follow_the_runs(front, start, i);
        } else {
            spans_follow_the_runs(front, start, front.len() - 1);
            lemma_spans_end(front, start);
        }
    } else {
        assert(super::ansi::flat(front) =~= seq![]);
        assert(super::ansi::run_spans(front, start).len() == 0);
    }
}

proof fn lemma_spans_end(runs: Seq<Run>, start: nat)
    requires
        runs.len() > 0,
    ensures
        super::ansi::run_spans(runs, start).len() == runs.len(),
        super::ansi::run_spans(runs, start).last().1 == start + super::ansi::flat(runs).len(),
    decreases runs.len(),
{
    if runs.len() > 1 {
        lemma_spans_end(runs.drop_last(), start);
    } else {
        assert(super::ansi::run_spans(runs.drop_last(), start).len() == 0);
    }
}

/// The position past `n` lines of a text is where the text after its `n`-th
/// newline begins: the text before it holds `n` newlines and ends in one, or
/// it is the whole text and holds fewer.
pub proof fn lines_are_counted_off(t: Seq<char>, n: nat)
    ensures
        super::ansi::past_lines(t, n) <= t.len(),
        n == 0 ==> super::ansi::past_lines(t, n) == 0,
        n > 0 && super::ansi::newlines(t) >= n ==> {
            let k = super::ansi::past_lines(t, n) as int;
            k > 0 && t[k - 1] == '\n' && super::ansi::newlines(t.take(k)) == n
        },
        super::ansi::newlines(t) < n ==> super::ansi::past_lines(t, n) == t.len(),
    decreases t.len(),
{
    if t.len() > 0 && n > 0 {
        let rest = t.drop_first();
        let m = if t[0] == '\n' {
            (n - 1) as nat
        } else {
            n
        };
        lines_are_counted_off(rest, m);
        let one = seq![t[0]];
        assert(t =~= one + rest);
        super::ansi::lemma_newlines_concat(one, rest);
        assert(one.drop_last() =~= seq![]);
        assert(super::ansi::newlines(one.drop_last()) == 0);
        let j = super::ansi::past_lines(rest, m) as int;
        let k = super::ansi::past_lines(t, n) as int;
        assert(k == j + 1);
        assert(t.take(k) =~= one + rest.take(j));
        super::ansi::lemma_newlines_concat(one, rest.take(j));
        if j == 0 {
            assert(rest.take(0) =~= seq![]);
            assert(super::ansi::newlines(rest.take(0)) == 0);
        } else {
            assert(t[k - 1] == rest[j - 1]);
        }
    }
}

} // verus!
