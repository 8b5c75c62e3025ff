//! ANSI SGR text for finished-block output.
//!
//! A streaming parser walks output text, tracks SGR style state, and emits
//! styled text runs. `\r` overwrite is handled per line (so progress bars
//! collapse to their final frame) without a full terminal grid.

use vstd::prelude::*;
use vstd::slice::slice_subrange;

use crate::text::{
    chars_of, find_char, has_char, is_text, parse_u32, push_decimal, push_text, split_bytes,
    split_chars, strip_prefix, text_of, widen,
};

verus! {

// ---------------------------------------------------------------------------
// Styles
// ---------------------------------------------------------------------------

/// An opaque colour.
#[derive(Clone, Copy, Debug, PartialEq, Eq, Structural)]
pub struct Rgb {
    pub r: u8,
    pub g: u8,
    pub b: u8,
}

#[derive(Clone, Copy, Debug, PartialEq, Eq, Structural)]
pub enum UnderlineStyle {
    Off,
    Single,
    Double,
    Curly,
    Dotted,
    Dashed,
}

impl Default for UnderlineStyle {
    fn default() -> (res: UnderlineStyle)
        ensures
            res == UnderlineStyle::Off,
    {
        UnderlineStyle::Off
    }
}

/// The SGR state of a piece of text, and the hyperlink that it belongs to.
#[derive(Debug)]
pub struct AnsiStyleState {
    pub foreground: Option<Rgb>,
    pub background: Option<Rgb>,
    pub bold: bool,
    pub italic: bool,
    pub underline_style: UnderlineStyle,
    pub underline_color: Option<Rgb>,
    pub strikethrough: bool,
    pub dim: bool,
    pub reverse: bool,
    pub hidden: bool,
    pub overline: bool,
    pub blink: bool,
    pub hyperlink: Option<String>,
}

/// The mathematical value of an [`AnsiStyleState`].
pub struct Style {
    pub foreground: Option<Rgb>,
    pub background: Option<Rgb>,
    pub bold: bool,
    pub italic: bool,
    pub underline_style: UnderlineStyle,
    pub underline_color: Option<Rgb>,
    pub strikethrough: bool,
    pub dim: bool,
    pub reverse: bool,
    pub hidden: bool,
    pub overline: bool,
    pub blink: bool,
    pub hyperlink: Option<Seq<char>>,
}

/// The characters of an optional string.
pub open spec fn link_view(link: Option<String>) -> Option<Seq<char>> {
    match link {
        Some(s) => Some(s@),
        None => None,
    }
}

impl View for AnsiStyleState {
    type V = Style;

    open spec fn view(&self) -> Style {
        Style {
            foreground: self.foreground,
            background: self.background,
            bold: self.bold,
            italic: self.italic,
            underline_style: self.underline_style,
            underline_color: self.underline_color,
            strikethrough: self.strikethrough,
            dim: self.dim,
            reverse: self.reverse,
            hidden: self.hidden,
            overline: self.overline,
            blink: self.blink,
            hyperlink: link_view(self.hyperlink),
        }
    }
}

/// The style of text without SGR and without a link.
pub open spec fn plain_style() -> Style {
    Style {
        foreground: None,
        background: None,
        bold: false,
        italic: false,
        underline_style: UnderlineStyle::Off,
        underline_color: None,
        strikethrough: false,
        dim: false,
        reverse: false,
        hidden: false,
        overline: false,
        blink: false,
        hyperlink: None,
    }
}

pub(crate) fn clone_link(link: &Option<String>) -> (res: Option<String>)
    ensures
        link_view(res) == link_view(*link),
{
    match link {
        Some(s) => Some(s.clone()),
        None => None,
    }
}

pub(crate) fn same_link(a: &Option<String>, b: &Option<String>) -> (res: bool)
    ensures
        res == (link_view(*a) == link_view(*b)),
{
    match (a, b) {
        (Some(x), Some(y)) => crate::text::same_text(x.as_str(), y.as_str()),
        (None, None) => true,
        _ => false,
    }
}

pub(crate) fn same_color(a: Option<Rgb>, b: Option<Rgb>) -> (res: bool)
    ensures
        res == (a == b),
{
    match (a, b) {
        (Some(x), Some(y)) => x == y,
        (None, None) => true,
        _ => false,
    }
}

impl Default for AnsiStyleState {
    fn default() -> (res: AnsiStyleState)
        ensures
            res@ == plain_style(),
    {
        AnsiStyleState {
            foreground: None,
            background: None,
            bold: false,
            italic: false,
            underline_style: UnderlineStyle::Off,
            underline_color: None,
            strikethrough: false,
            dim: false,
            reverse: false,
            hidden: false,
            overline: false,
            blink: false,
            hyperlink: None,
        }
    }
}

impl Clone for AnsiStyleState {
    fn clone(&self) -> (res: AnsiStyleState)
        ensures
            res@ == self@,
    {
        AnsiStyleState {
            foreground: self.foreground,
            background: self.background,
            bold: self.bold,
            italic: self.italic,
            underline_style: self.underline_style,
            underline_color: self.underline_color,
            strikethrough: self.strikethrough,
            dim: self.dim,
            reverse: self.reverse,
            hidden: self.hidden,
            overline: self.overline,
            blink: self.blink,
            hyperlink: clone_link(&self.hyperlink),
        }
    }
}

impl AnsiStyleState {
    /// Tells whether two styles agree in everything.
    pub fn same(&self, other: &AnsiStyleState) -> (res: bool)
        ensures
            res == (self@ == other@),
    {
        same_color(self.foreground, other.foreground) && same_color(
            self.background,
            other.background,
        ) && self.bold == other.bold && self.italic == other.italic && self.underline_style
            == other.underline_style && same_color(self.underline_color, other.underline_color)
            && self.strikethrough == other.strikethrough && self.dim == other.dim && self.reverse
            == other.reverse && self.hidden == other.hidden && self.overline == other.overline
            && self.blink == other.blink && same_link(&self.hyperlink, &other.hyperlink)
    }
}

/// A stretch of text in one style.
#[derive(Debug)]
pub struct AnsiTextRun {
    pub text: String,
    pub style: AnsiStyleState,
}

/// The mathematical value of an [`AnsiTextRun`].
pub struct Run {
    pub text: Seq<char>,
    pub style: Style,
}

impl View for AnsiTextRun {
    type V = Run;

    open spec fn view(&self) -> Run {
        Run { text: self.text@, style: self.style@ }
    }
}

impl Clone for AnsiTextRun {
    fn clone(&self) -> (res: AnsiTextRun)
        ensures
            res@ == self@,
    {
        AnsiTextRun { text: self.text.clone(), style: self.style.clone() }
    }
}

/// The values of a list of runs.
pub open spec fn run_views(runs: Seq<AnsiTextRun>) -> Seq<Run> {
    Seq::new(runs.len(), |i: int| runs[i]@)
}

// ---------------------------------------------------------------------------
// Colours and numbers
// ---------------------------------------------------------------------------

/// The colour of an index into the 256-colour table: the sixteen colours of
/// the palette, a cube of six levels per channel, a ramp of greys.
pub open spec fn indexed_color(idx: u8, palette: Seq<Rgb>) -> Rgb {
    if idx < 16 {
        palette[idx as int]
    } else if idx < 232 {
        let n = idx - 16;
        Rgb { r: ((n / 36) * 51) as u8, g: (((n % 36) / 6) * 51) as u8, b: ((n % 6) * 51) as u8 }
    } else {
        let gray = (8 + (idx - 232) * 10) as u8;
        Rgb { r: gray, g: gray, b: gray }
    }
}

/// The colour with the given index among the 256: the palette, the cube, then the greys.
pub fn ansi256_to_rgb(idx: u8, palette: &[Rgb; 16]) -> (res: (u8, u8, u8))
    ensures
        indexed_color(idx, palette@) == (Rgb { r: res.0, g: res.1, b: res.2 }),
{
    if idx < 16 {
        let c: Rgb = palette[idx as usize];
        (c.r, c.g, c.b)
    } else if idx < 232 {
        let n: u8 = idx - 16;
        let r: u8 = (n / 36) * 51;
        let g: u8 = ((n % 36) / 6) * 51;
        let b: u8 = (n % 6) * 51;
        (r, g, b)
    } else {
        let gray: u8 = 8 + (idx - 232) * 10;
        (gray, gray, gray)
    }
}

fn palette_color(idx: u8, palette: &[Rgb; 16]) -> (res: Rgb)
    ensures
        res == indexed_color(idx, palette@),
{
    let (r, g, b) = ansi256_to_rgb(idx, palette);
    Rgb { r, g, b }
}

/// The number of ASCII digits at the front of `s`.
pub open spec fn digit_run(s: Seq<char>) -> nat
    decreases s.len(),
{
    if s.len() == 0 || !crate::text::is_digit(s[0]) {
        0
    } else {
        1 + digit_run(s.drop_first())
    }
}

/// The number that the digits at the front of `s` denote, at most `u32::MAX`.
pub open spec fn number(s: Seq<char>) -> nat {
    let n = crate::text::digits_value(s.take(digit_run(s) as int));
    if n <= u32::MAX {
        n
    } else {
        u32::MAX as nat
    }
}

/// The same where there is a text at all and the number fits in a byte.
pub open spec fn small_number(s: Seq<char>) -> Option<u8> {
    if s.len() > 0 && number(s) <= 255 {
        Some(number(s) as u8)
    } else {
        None
    }
}

proof fn lemma_digit_run(s: Seq<char>, i: int)
    requires
        0 <= i <= s.len(),
        forall|j: int| 0 <= j < i ==> crate::text::is_digit(#[trigger] s[j]),
        i < s.len() ==> !crate::text::is_digit(s[i]),
    ensures
        digit_run(s) == i,
    decreases s.len(),
{
    if s.len() > 0 && i > 0 {
        assert(crate::text::is_digit(s[0]));
        assert forall|j: int| 0 <= j < i - 1 implies crate::text::is_digit(
            #[trigger] s.drop_first()[j],
        ) by {
            assert(s.drop_first()[j] == s[j + 1]);
        }
        lemma_digit_run(s.drop_first(), i - 1);
    }
}

pub(crate) fn read_number(s: &[char]) -> (res: u32)
    ensures
        res == number(s@),
{
    let mut acc: u64 = 0;
    let mut i: usize = 0;
    while i < s.len() && '0' <= s[i] && s[i] <= '9'
        invariant
            i <= s.len(),
            forall|j: int| 0 <= j < i ==> crate::text::is_digit(#[trigger] s@[j]),
            acc <= u32::MAX,
            crate::text::digits_value(s@.take(i as int)) <= u32::MAX ==> acc
                == crate::text::digits_value(s@.take(i as int)),
            crate::text::digits_value(s@.take(i as int)) > u32::MAX ==> acc == u32::MAX,
        decreases s.len() - i,
    {
        proof {
            assert(s@.take(i + 1).drop_last() =~= s@.take(i as int));
            assert(s@.take(i + 1).last() == s@[i as int]);
        }
        acc = acc * 10 + ((s[i] as u32) - 48) as u64;
        if acc > u32::MAX as u64 {
            acc = u32::MAX as u64;
        }
        i += 1;
    }
    proof {
        lemma_digit_run(s@, i as int);
    }
    acc as u32
}

fn read_small(s: &[char]) -> (res: Option<u8>)
    ensures
        res == small_number(s@),
{
    if s.len() == 0 {
        return None;
    }
    let v: u32 = read_number(s);
    if v <= 255 {
        Some(v as u8)
    } else {
        None
    }
}

// ---------------------------------------------------------------------------
// SGR parameters
// ---------------------------------------------------------------------------

/// The parameters without a leading private marker (`?`, `>`, `=`).
pub open spec fn unmarked(params: Seq<u8>) -> Seq<u8> {
    if params.len() > 0 && (params[0] == 0x3f || params[0] == 0x3e || params[0] == 0x3d) {
        params.drop_first()
    } else {
        params
    }
}

pub(crate) fn strip_marker(params: &[u8]) -> (res: &[u8])
    ensures
        res@ == unmarked(params@),
{
    if params.len() > 0 && (params[0] == 0x3f || params[0] == 0x3e || params[0] == 0x3d) {
        let rest = slice_subrange(params, 1, params.len());
        assert(rest@ =~= params@.drop_first());
        rest
    } else {
        params
    }
}

/// The `;`-separated chunks of SGR parameters, as characters.
pub open spec fn sgr_chunks(params: Seq<u8>) -> Seq<Seq<char>> {
    let chunks = crate::text::split_on(unmarked(params), 0x3b);
    Seq::new(chunks.len(), |i: int| crate::text::widened(chunks[i]))
}

/// The numbers among the parts that fit in a byte.
pub open spec fn small_numbers(parts: Seq<Seq<char>>) -> Seq<u8>
    decreases parts.len(),
{
    if parts.len() == 0 {
        seq![]
    } else {
        match small_number(parts.last()) {
            Some(n) => small_numbers(parts.drop_last()).push(n),
            None => small_numbers(parts.drop_last()),
        }
    }
}

/// The colour of a chunk such as `38:5:12` or `38:2::255:0:0`.
pub open spec fn colon_color(sub: Seq<Seq<char>>, palette: Seq<Rgb>) -> Option<Rgb> {
    if sub.len() < 2 {
        None
    } else if number(sub[1]) == 5 {
        if sub.len() < 3 {
            None
        } else {
            match small_number(sub[2]) {
                Some(idx) => Some(indexed_color(idx, palette)),
                None => None,
            }
        }
    } else if number(sub[1]) == 2 {
        let nums = small_numbers(sub.skip(2));
        let n = nums.len();
        if n >= 3 {
            Some(Rgb { r: nums[n - 3], g: nums[n - 2], b: nums[n - 1] })
        } else {
            None
        }
    } else {
        None
    }
}

/// The underline of a chunk such as `4:3`.
pub open spec fn colon_underline(n: nat) -> UnderlineStyle {
    if n == 0 {
        UnderlineStyle::Off
    } else if n == 2 {
        UnderlineStyle::Double
    } else if n == 3 {
        UnderlineStyle::Curly
    } else if n == 4 {
        UnderlineStyle::Dotted
    } else if n == 5 {
        UnderlineStyle::Dashed
    } else {
        UnderlineStyle::Single
    }
}

/// The style after a chunk with colon-separated parts.
pub open spec fn after_colon_chunk(s: Style, sub: Seq<Seq<char>>, palette: Seq<Rgb>) -> Style {
    let base = number(sub[0]);
    if base == 4 {
        Style { underline_style: colon_underline(number(sub[1])), ..s }
    } else {
        match colon_color(sub, palette) {
            Some(c) => after_color(s, base, c),
            None => s,
        }
    }
}

/// The style after a colour was set by 38 (text), 48 (background) or 58
/// (underline).
pub open spec fn after_color(s: Style, base: nat, c: Rgb) -> Style {
    if base == 38 {
        Style { foreground: Some(c), ..s }
    } else if base == 48 {
        Style { background: Some(c), ..s }
    } else if base == 58 {
        Style { underline_color: Some(c), ..s }
    } else {
        s
    }
}

/// The colour that follows 38, 48 or 58, and how many parameters it takes up
/// with the number itself.
pub open spec fn extended_color(parts: Seq<Seq<char>>, palette: Seq<Rgb>) -> (Option<Rgb>, nat) {
    if parts.len() > 2 && parts[1] == "5"@ {
        (
            match small_number(parts[2]) {
                Some(idx) => Some(indexed_color(idx, palette)),
                None => None,
            },
            3,
        )
    } else if parts.len() > 4 && parts[1] == "2"@ {
        (
            match (small_number(parts[2]), small_number(parts[3]), small_number(parts[4])) {
                (Some(r), Some(g), Some(b)) => Some(Rgb { r, g, b }),
                _ => None,
            },
            5,
        )
    } else {
        (None, 1)
    }
}

/// The style after an attribute was switched on or off.
pub open spec fn after_switch(s: Style, n: nat) -> Style {
    if n == 0 {
        Style { hyperlink: s.hyperlink, ..plain_style() }
    } else if n == 1 {
        Style { bold: true, ..s }
    } else if n == 2 {
        Style { dim: true, ..s }
    } else if n == 3 {
        Style { italic: true, ..s }
    } else if n == 4 {
        Style { underline_style: UnderlineStyle::Single, ..s }
    } else if n == 5 || n == 6 {
        Style { blink: true, ..s }
    } else if n == 7 {
        Style { reverse: true, ..s }
    } else if n == 8 {
        Style { hidden: true, ..s }
    } else if n == 9 {
        Style { strikethrough: true, ..s }
    } else if n == 22 {
        Style { bold: false, dim: false, ..s }
    } else if n == 23 {
        Style { italic: false, ..s }
    } else if n == 24 {
        Style { underline_style: UnderlineStyle::Off, underline_color: None, ..s }
    } else if n == 25 {
        Style { blink: false, ..s }
    } else if n == 27 {
        Style { reverse: false, ..s }
    } else if n == 28 {
        Style { hidden: false, ..s }
    } else if n == 29 {
        Style { strikethrough: false, ..s }
    } else if n == 53 {
        Style { overline: true, ..s }
    } else if n == 55 {
        Style { overline: false, ..s }
    } else {
        s
    }
}

/// The style after a parameter that stands for itself.
pub open spec fn after_number(s: Style, n: nat, palette: Seq<Rgb>) -> Style {
    if 30 <= n <= 37 {
        Style { foreground: Some(indexed_color((n - 30) as u8, palette)), ..s }
    } else if n == 39 {
        Style { foreground: None, ..s }
    } else if 40 <= n <= 47 {
        Style { background: Some(indexed_color((n - 40) as u8, palette)), ..s }
    } else if n == 49 {
        Style { background: None, ..s }
    } else if n == 59 {
        Style { underline_color: None, ..s }
    } else if 90 <= n <= 97 {
        Style { foreground: Some(indexed_color((n - 90 + 8) as u8, palette)), ..s }
    } else if 100 <= n <= 107 {
        Style { background: Some(indexed_color((n - 100 + 8) as u8, palette)), ..s }
    } else {
        after_switch(s, n)
    }
}

/// The style after the first parameter of `parts`, and how many chunks the
/// parameter takes up.
pub open spec fn after_parameter(s: Style, parts: Seq<Seq<char>>, palette: Seq<Rgb>) -> (
    Style,
    nat,
) {
    let part = parts[0];
    let n = number(part);
    if part.contains(':') {
        (after_colon_chunk(s, crate::text::split_on(part, ':'), palette), 1)
    } else if n == 38 || n == 48 || n == 58 {
        let (c, len) = extended_color(parts, palette);
        (
            match c {
                Some(c) => after_color(s, n, c),
                None => s,
            },
            len,
        )
    } else {
        (after_number(s, n, palette), 1)
    }
}

/// The style after all parameters.
pub open spec fn after_sgr(s: Style, parts: Seq<Seq<char>>, palette: Seq<Rgb>) -> Style
    decreases parts.len(),
{
    if parts.len() == 0 {
        s
    } else {
        let (t, len) = after_parameter(s, parts, palette);
        after_sgr(t, parts.skip(len as int), palette)
    }
}

fn read_colon_color(sub: &[&[char]], palette: &[Rgb; 16]) -> (res: Option<Rgb>)
    ensures
        res == colon_color(crate::text::views(sub@), palette@),
{
    let ghost views = crate::text::views(sub@);
    if sub.len() < 2 {
        return None;
    }
    assert(views[1] == sub@[1]@);
    let mode: u32 = read_number(sub[1]);
    if mode == 5 {
        if sub.len() < 3 {
            return None;
        }
        assert(views[2] == sub@[2]@);
        match read_small(sub[2]) {
            Some(idx) => Some(palette_color(idx, palette)),
            None => None,
        }
    } else if mode == 2 {
        let mut nums: Vec<u8> = Vec::new();
        let mut i: usize = 2;
        let ghost tail = views.skip(2);
        assert(tail.take(0) =~= seq![]);
        while i < sub.len()
            invariant
                2 <= i <= sub.len(),
                views == crate::text::views(sub@),
                tail == views.skip(2),
                nums@ == small_numbers(tail.take(i - 2)),
            decreases sub.len() - i,
        {
            proof {
                assert(tail.take(i - 1).drop_last() =~= tail.take(i - 2));
                assert(tail.take(i - 1).last() == sub@[i as int]@);
            }
            if let Some(n) = read_small(sub[i]) {
                nums.push(n);
            }
            i += 1;
        }
        assert(tail.take(i - 2) =~= tail);
        let n: usize = nums.len();
        if n >= 3 {
            Some(Rgb { r: nums[n - 3], g: nums[n - 2], b: nums[n - 1] })
        } else {
            None
        }
    } else {
        None
    }
}

fn read_underline(n: u32) -> (res: UnderlineStyle)
    ensures
        res == colon_underline(n as nat),
{
    if n == 0 {
        UnderlineStyle::Off
    } else if n == 2 {
        UnderlineStyle::Double
    } else if n == 3 {
        UnderlineStyle::Curly
    } else if n == 4 {
        UnderlineStyle::Dotted
    } else if n == 5 {
        UnderlineStyle::Dashed
    } else {
        UnderlineStyle::Single
    }
}

fn set_color(style: &mut AnsiStyleState, base: u32, c: Rgb)
    ensures
        final(style)@ == after_color(old(style)@, base as nat, c),
{
    if base == 38 {
        style.foreground = Some(c);
    } else if base == 48 {
        style.background = Some(c);
    } else if base == 58 {
        style.underline_color = Some(c);
    }
}

fn apply_colon_chunk(style: &mut AnsiStyleState, part: &[char], palette: &[Rgb; 16])
    requires
        part@.contains(':'),
    ensures
        final(style)@ == after_colon_chunk(
            old(style)@,
            crate::text::split_on(part@, ':'),
            palette@,
        ),
{
    let sub: Vec<&[char]> = split_chars(part, ':');
    let ghost views = crate::text::views(sub@);
    proof {
        crate::text::split_has_parts(part@, ':');
        assert(views[0] == sub@[0]@ && views[1] == sub@[1]@);
    }
    let base: u32 = read_number(sub[0]);
    if base == 4 {
        style.underline_style = read_underline(read_number(sub[1]));
    } else if let Some(c) = read_colon_color(sub.as_slice(), palette) {
        set_color(style, base, c);
    }
}

fn apply_switch(style: &mut AnsiStyleState, n: u32)
    ensures
        final(style)@ == after_switch(old(style)@, n as nat),
{
    if n == 0 {
        let mut reset: AnsiStyleState = AnsiStyleState::default();
        reset.hyperlink = clone_link(&style.hyperlink);
        *style = reset;
    } else if n == 1 {
        style.bold = true;
    } else if n == 2 {
        style.dim = true;
    } else if n == 3 {
        style.italic = true;
    } else if n == 4 {
        style.underline_style = UnderlineStyle::Single;
    } else if n == 5 || n == 6 {
        style.blink = true;
    } else if n == 7 {
        style.reverse = true;
    } else if n == 8 {
        style.hidden = true;
    } else if n == 9 {
        style.strikethrough = true;
    } else if n == 22 {
        style.bold = false;
        style.dim = false;
    } else if n == 23 {
        style.italic = false;
    } else if n == 24 {
        style.underline_style = UnderlineStyle::Off;
        style.underline_color = None;
    } else if n == 25 {
        style.blink = false;
    } else if n == 27 {
        style.reverse = false;
    } else if n == 28 {
        style.hidden = false;
    } else if n == 29 {
        style.strikethrough = false;
    } else if n == 53 {
        style.overline = true;
    } else if n == 55 {
        style.overline = false;
    }
}

fn apply_number(style: &mut AnsiStyleState, n: u32, palette: &[Rgb; 16])
    ensures
        final(style)@ == after_number(old(style)@, n as nat, palette@),
{
    if 30 <= n && n <= 37 {
        style.foreground = Some(palette_color((n - 30) as u8, palette));
    } else if n == 39 {
        style.foreground = None;
    } else if 40 <= n && n <= 47 {
        style.background = Some(palette_color((n - 40) as u8, palette));
    } else if n == 49 {
        style.background = None;
    } else if n == 59 {
        style.underline_color = None;
    } else if 90 <= n && n <= 97 {
        style.foreground = Some(palette_color((n - 90 + 8) as u8, palette));
    } else if 100 <= n && n <= 107 {
        style.background = Some(palette_color((n - 100 + 8) as u8, palette));
    } else {
        apply_switch(style, n);
    }
}

/// The values of a list of character vectors.
pub open spec fn rows(parts: Seq<Vec<char>>) -> Seq<Seq<char>> {
    Seq::new(parts.len(), |i: int| parts[i]@)
}

fn read_extended(parts: &Vec<Vec<char>>, index: usize, palette: &[Rgb; 16]) -> (res: (
    Option<Rgb>,
    usize,
))
    requires
        index < parts.len(),
    ensures
        res.0 == extended_color(rows(parts@).skip(index as int), palette@).0,
        res.1 == extended_color(rows(parts@).skip(index as int), palette@).1,
        res.1 <= parts.len() - index,
{
    let ghost rest = rows(parts@).skip(index as int);
    let left: usize = parts.len() - index;
    if left > 2 {
        assert(rest[1] == parts@[index + 1]@ && rest[2] == parts@[index + 2]@);
        if is_text(parts[index + 1].as_slice(), "5") {
            return match read_small(parts[index + 2].as_slice()) {
                Some(idx) => (Some(palette_color(idx, palette)), 3),
                None => (None, 3),
            };
        }
    }
    if left > 4 {
        assert(rest[1] == parts@[index + 1]@ && rest[2] == parts@[index + 2]@ && rest[3]
            == parts@[index + 3]@ && rest[4] == parts@[index + 4]@);
        if is_text(parts[index + 1].as_slice(), "2") {
            return match (
                read_small(parts[index + 2].as_slice()),
                read_small(parts[index + 3].as_slice()),
                read_small(parts[index + 4].as_slice()),
            ) {
                (Some(r), Some(g), Some(b)) => (Some(Rgb { r, g, b }), 5),
                _ => (None, 5),
            };
        }
    }
    (None, 1)
}

fn read_chunks(params: &[u8]) -> (res: Vec<Vec<char>>)
    ensures
        rows(res@) == sgr_chunks(params@),
{
    let chunks: Vec<&[u8]> = split_bytes(strip_marker(params), 0x3b);
    let ghost views = crate::text::views(chunks@);
    let mut parts: Vec<Vec<char>> = Vec::new();
    let mut i: usize = 0;
    while i < chunks.len()
        invariant
            i <= chunks.len(),
            parts.len() == i,
            forall|j: int| 0 <= j < i ==> #[trigger] parts@[j]@ == crate::text::widened(chunks@[j]@),
        decreases chunks.len() - i,
    {
        parts.push(widen(chunks[i]));
        i += 1;
    }
    assert(rows(parts@) =~= sgr_chunks(params@)) by {
        assert forall|j: int| 0 <= j < parts.len() implies rows(parts@)[j] == sgr_chunks(
            params@,
        )[j] by {
            assert(views[j] == chunks@[j]@);
        }
    }
    parts
}

/// Applies SGR parameters (semicolon-separated, with optional colon-delimited
/// sub-parameters) to `style`.
pub fn parse_sgr_params(style: &mut AnsiStyleState, params: &[u8], palette: &[Rgb; 16])
    ensures
        final(style)@ == after_sgr(old(style)@, sgr_chunks(params@), palette@),
{
    let parts: Vec<Vec<char>> = read_chunks(params);
    let ghost all = rows(parts@);
    let mut index: usize = 0;
    assert(all.skip(0) =~= all);
    while index < parts.len()
        invariant
            index <= parts.len(),
            all == rows(parts@),
            after_sgr(style@, all.skip(index as int), palette@) == after_sgr(
                old(style)@,
                all,
                palette@,
            ),
        decreases parts.len() - index,
    {
        let ghost rest = all.skip(index as int);
        assert(rest[0] == parts@[index as int]@);
        let part: &[char] = parts[index].as_slice();
        let n: u32 = read_number(part);
        if has_char(part, ':') {
            apply_colon_chunk(style, part, palette);
            assert(rest.skip(1) =~= all.skip(index + 1));
            index += 1;
        } else if n == 38 || n == 48 || n == 58 {
            let (c, len) = read_extended(&parts, index, palette);
            if let Some(c) = c {
                set_color(style, n, c);
            }
            assert(rest.skip(len as int) =~= all.skip(index + len));
            index += len;
        } else {
            apply_number(style, n, palette);
            assert(rest.skip(1) =~= all.skip(index + 1));
            index += 1;
        }
    }
}

// ---------------------------------------------------------------------------
// From text with escapes to styled runs
// ---------------------------------------------------------------------------

/// The text of a list of runs.
pub open spec fn flat(runs: Seq<Run>) -> Seq<char>
    decreases runs.len(),
{
    if runs.len() == 0 {
        seq![]
    } else {
        flat(runs.drop_last()) + runs.last().text
    }
}

/// The cells of one line, with the characters of equal style put together.
pub open spec fn grouped(cells: Seq<(char, Style)>) -> Seq<Run>
    decreases cells.len(),
{
    if cells.len() == 0 {
        seq![]
    } else {
        let before = grouped(cells.drop_last());
        let (c, style) = cells.last();
        if before.len() > 0 && before.last().style == style {
            before.drop_last().push(Run { text: before.last().text.push(c), style })
        } else {
            before.push(Run { text: seq![c], style })
        }
    }
}

/// A line with the cell at `col` written; blanks fill a gap before it.
pub open spec fn with_cell(line: Seq<(char, Style)>, col: nat, c: char, style: Style) -> Seq<
    (char, Style),
> {
    if col < line.len() {
        line.update(col as int, (c, style))
    } else {
        line + Seq::new((col - line.len()) as nat, |i: int| (' ', plain_style())) + seq![(c, style)]
    }
}

/// A line with blanks written from `from` up to `to`.
pub open spec fn with_blanks(
    line: Seq<(char, Style)>,
    from: nat,
    to: nat,
    style: Style,
) -> Seq<(char, Style)>
    decreases to - from,
{
    if from >= to {
        line
    } else {
        with_blanks(with_cell(line, from, ' ', style), from + 1, to, style)
    }
}

/// The text that was read so far: finished runs, the line in progress and the
/// column in it, and the style in force.
#[verifier::ext_equal]
pub struct Page {
    pub runs: Seq<Run>,
    pub style: Style,
    pub line: Seq<(char, Style)>,
    pub col: nat,
}

/// The number of characters before the final character of a CSI sequence.
pub open spec fn csi_len(s: Seq<char>) -> nat
    decreases s.len(),
{
    if s.len() == 0 || '@' <= s[0] <= '~' {
        0
    } else {
        1 + csi_len(s.drop_first())
    }
}

/// The number of characters before the terminator (BEL or ESC \\) of an OSC
/// sequence.
pub open spec fn osc_len(s: Seq<char>) -> nat
    decreases s.len(),
{
    if s.len() == 0 || s[0] == '\x07' || (s[0] == '\x1b' && s.len() > 1 && s[1] == '\\') {
        0
    } else {
        1 + osc_len(s.drop_first())
    }
}

/// The length of the terminator of an OSC sequence.
pub open spec fn osc_end(s: Seq<char>) -> nat {
    let n = osc_len(s);
    if n >= s.len() {
        0
    } else if s[n as int] == '\x07' {
        1
    } else {
        2
    }
}

/// The number of characters that the first character or escape sequence of
/// `s` takes up.
pub open spec fn token_len(s: Seq<char>) -> nat {
    if s[0] != '\x1b' || s.len() == 1 {
        1
    } else if s[1] == '[' {
        let n = csi_len(s.skip(2));
        if n + 2 < s.len() {
            n + 3
        } else {
            s.len()
        }
    } else if s[1] == ']' {
        2 + osc_len(s.skip(2)) + osc_end(s.skip(2))
    } else if (s[1] == '(' || s[1] == ')') && s.len() > 2 {
        3
    } else {
        2
    }
}

/// The link that an OSC 8 payload sets; `None` if the payload is of another
/// kind.
pub open spec fn osc8_link(payload: Seq<char>) -> Option<Option<Seq<char>>> {
    match crate::text::after_prefix(payload, "8;"@) {
        Some(rest) => {
            let i = crate::text::until(rest, ';');
            if i < rest.len() {
                let uri = rest.skip(i as int + 1);
                Some(
                    if uri.len() == 0 {
                        None
                    } else {
                        Some(uri)
                    },
                )
            } else {
                None
            }
        },
        None => None,
    }
}

impl Page {
    /// The line in progress becomes runs.
    pub open spec fn flushed(self) -> Page {
        Page { runs: self.runs + grouped(self.line), line: seq![], ..self }
    }

    /// A printable character.
    pub open spec fn put(self, c: char) -> Page {
        Page { line: with_cell(self.line, self.col, c, self.style), col: self.col + 1, ..self }
    }

    /// A complete CSI sequence: SGR and the erasing of lines count.
    pub open spec fn csi(self, params: Seq<char>, last: char, palette: Seq<Rgb>) -> Page {
        if last == 'm' {
            Page {
                style: after_sgr(
                    self.style,
                    sgr_chunks(vstd::utf8::encode_utf8(params)),
                    palette,
                ),
                ..self
            }
        } else if last == 'K' {
            let n = match crate::text::unsigned(params, u32::MAX as nat) {
                Some(n) => n,
                None => 0,
            };
            if n == 0 && self.col <= self.line.len() {
                Page { line: self.line.take(self.col as int), ..self }
            } else if n == 2 {
                Page { line: seq![], ..self }
            } else {
                self
            }
        } else {
            self
        }
    }

    /// The escape sequence at the front of `s`.
    pub open spec fn escape(self, s: Seq<char>, palette: Seq<Rgb>) -> Page {
        if s.len() > 1 && s[1] == '[' {
            let n = csi_len(s.skip(2));
            if n + 2 < s.len() {
                self.csi(s.subrange(2, 2 + n as int), s[2 + n as int], palette)
            } else {
                self
            }
        } else if s.len() > 1 && s[1] == ']' {
            match osc8_link(s.skip(2).take(osc_len(s.skip(2)) as int)) {
                Some(link) => Page { style: Style { hyperlink: link, ..self.style }, ..self },
                None => self,
            }
        } else {
            self
        }
    }

    /// The first character or escape sequence of `s`.
    pub open spec fn step(self, s: Seq<char>, palette: Seq<Rgb>) -> Page {
        let c = s[0];
        if c == '\x1b' {
            self.escape(s, palette)
        } else if c == '\n' {
            let p = self.flushed();
            Page { runs: p.runs.push(Run { text: seq!['\n'], style: plain_style() }), col: 0, ..p }
        } else if c == '\r' {
            Page { col: 0, ..self }
        } else if c == '\t' {
            let next = (self.col / 8 + 1) * 8;
            Page { line: with_blanks(self.line, self.col, next, self.style), col: next, ..self }
        } else if c == '\x08' {
            Page {
                col: if self.col > 0 {
                    (self.col - 1) as nat
                } else {
                    0
                },
                ..self
            }
        } else if ' ' > c {
            self
        } else {
            self.put(c)
        }
    }

    /// All of `s`.
    pub open spec fn read(self, s: Seq<char>, palette: Seq<Rgb>) -> Page
        decreases s.len(),
    {
        if s.len() == 0 || token_len(s) == 0 || token_len(s) > s.len() {
            self
        } else {
            self.step(s, palette).read(s.skip(token_len(s) as int), palette)
        }
    }
}

/// The page before anything was read.
pub open spec fn empty_page() -> Page {
    Page { runs: seq![], style: plain_style(), line: seq![], col: 0 }
}

/// The styled runs of a text with escapes.
pub open spec fn styled_runs(s: Seq<char>, palette: Seq<Rgb>) -> Seq<Run> {
    empty_page().read(s, palette).flushed().runs
}

pub(crate) proof fn lemma_csi_len(s: Seq<char>, i: int)
    requires
        0 <= i <= s.len(),
        forall|j: int| 0 <= j < i ==> !('@' <= #[trigger] s[j] <= '~'),
        i < s.len() ==> '@' <= s[i] <= '~',
    ensures
        csi_len(s) == i,
    decreases s.len(),
{
    if s.len() > 0 && i > 0 {
        assert(!('@' <= s[0] <= '~'));
        assert forall|j: int| 0 <= j < i - 1 implies !('@' <= #[trigger] s.drop_first()[j] <= '~') by {
            assert(s.drop_first()[j] == s[j + 1]);
        }
        lemma_csi_len(s.drop_first(), i - 1);
    }
}

/// An OSC sequence ends at position `i` of `s`.
pub open spec fn osc_ends_at(s: Seq<char>, i: int) -> bool {
    s[i] == '\x07' || (s[i] == '\x1b' && i + 1 < s.len() && s[i + 1] == '\\')
}

pub(crate) proof fn lemma_osc_len(s: Seq<char>, i: int)
    requires
        0 <= i <= s.len(),
        forall|j: int| 0 <= j < i ==> !#[trigger] osc_ends_at(s, j),
        i < s.len() ==> osc_ends_at(s, i),
    ensures
        osc_len(s) == i,
    decreases s.len(),
{
    if s.len() > 0 && i > 0 {
        assert(!osc_ends_at(s, 0));
        let t = s.drop_first();
        assert forall|j: int| 0 <= j < i - 1 implies !#[trigger] osc_ends_at(t, j) by {
            assert(!osc_ends_at(s, j + 1));
            assert(t[j] == s[j + 1]);
        }
        if i < s.len() {
            assert(osc_ends_at(t, i - 1));
        }
        lemma_osc_len(t, i - 1);
    } else if s.len() > 0 {
        assert(osc_ends_at(s, 0));
    }
}

/// An OSC sequence and its terminator lie within the text, and the sequence
/// ends where a terminator stands.
pub proof fn osc_lies_within(s: Seq<char>)
    ensures
        osc_len(s) + osc_end(s) <= s.len(),
        osc_len(s) < s.len() ==> osc_ends_at(s, osc_len(s) as int),
    decreases s.len(),
{
    if s.len() == 0 {
    } else if osc_ends_at(s, 0) {
    } else {
        let t = s.drop_first();
        osc_lies_within(t);
        let n = osc_len(t) as int;
        if n < t.len() {
            assert(osc_ends_at(t, n));
            assert(t[n] == s[n + 1]);
            assert(osc_ends_at(s, n + 1));
        }
    }
}

fn measure_csi(s: &[char]) -> (res: usize)
    ensures
        res == csi_len(s@),
        res <= s.len(),
{
    let mut i: usize = 0;
    while i < s.len() && !('@' <= s[i] && s[i] <= '~')
        invariant
            i <= s.len(),
            forall|j: int| 0 <= j < i ==> !('@' <= #[trigger] s@[j] <= '~'),
        decreases s.len() - i,
    {
        i += 1;
    }
    proof {
        lemma_csi_len(s@, i as int);
    }
    i
}

fn measure_osc(s: &[char]) -> (res: (usize, usize))
    ensures
        res.0 == osc_len(s@),
        res.1 == osc_end(s@),
        res.0 + res.1 <= s.len(),
{
    let mut i: usize = 0;
    while i < s.len() && !(s[i] == '\x07' || (s[i] == '\x1b' && s.len() - i > 1 && s[i + 1]
        == '\\'))
        invariant
            i <= s.len(),
            forall|j: int| 0 <= j < i ==> !#[trigger] osc_ends_at(s@, j),
        decreases s.len() - i,
    {
        assert(!osc_ends_at(s@, i as int));
        i += 1;
    }
    proof {
        if i < s.len() {
            assert(osc_ends_at(s@, i as int));
        }
        lemma_osc_len(s@, i as int);
    }
    if i >= s.len() {
        (i, 0)
    } else if s[i] == '\x07' {
        (i, 1)
    } else {
        (i, 2)
    }
}

fn read_osc8(payload: &[char]) -> (res: Option<Option<String>>)
    ensures
        res is Some <==> osc8_link(payload@) is Some,
        res matches Some(link) ==> osc8_link(payload@) == Some(link_view(link)),
{
    match strip_prefix(payload, "8;") {
        Some(rest) => {
            let i: usize = find_char(rest, ';');
            if i < rest.len() {
                let uri = slice_subrange(rest, i + 1, rest.len());
                assert(uri@ =~= rest@.skip(i + 1));
                if uri.len() == 0 {
                    Some(None)
                } else {
                    Some(Some(text_of(uri)))
                }
            } else {
                None
            }
        },
        None => None,
    }
}

/// The values of a line of cells.
pub open spec fn cell_views(line: Seq<(char, AnsiStyleState)>) -> Seq<(char, Style)> {
    Seq::new(line.len(), |i: int| (line[i].0, line[i].1@))
}

/// Writes one cell of a line; blanks fill a gap before it.
fn set_cell(line: &mut Vec<(char, AnsiStyleState)>, col: usize, c: char, style: &AnsiStyleState)
    ensures
        cell_views(final(line)@) == with_cell(cell_views(old(line)@), col as nat, c, style@),
{
    let ghost before = cell_views(line@);
    if col < line.len() {
        line.set(col, (c, style.clone()));
        assert(cell_views(line@) =~= before.update(col as int, (c, style@)));
    } else {
        while line.len() < col
            invariant
                old(line).len() <= line.len() <= col,
                before == cell_views(old(line)@),
                cell_views(line@) == before + Seq::new(
                    (line.len() - old(line).len()) as nat,
                    |i: int| (' ', plain_style()),
                ),
            decreases col - line.len(),
        {
            let ghost mid = cell_views(line@);
            line.push((' ', AnsiStyleState::default()));
            assert(cell_views(line@) =~= mid.push((' ', plain_style())));
            assert(cell_views(line@) =~= before + Seq::new(
                (line.len() - old(line).len()) as nat,
                |i: int| (' ', plain_style()),
            ));
        }
        let ghost mid = cell_views(line@);
        line.push((c, style.clone()));
        assert(cell_views(line@) =~= mid.push((c, style@)));
        assert(cell_views(line@) =~= with_cell(before, col as nat, c, style@));
    }
}

proof fn lemma_run_push(runs: Seq<AnsiTextRun>, r: AnsiTextRun)
    ensures
        run_views(runs.push(r)) == run_views(runs).push(r@),
{
    assert(run_views(runs.push(r)) =~= run_views(runs).push(r@));
}

proof fn lemma_grouped_nonempty(cells: Seq<(char, Style)>)
    ensures
        cells.len() > 0 ==> grouped(cells).len() > 0 && grouped(cells).last().text.len() > 0,
    decreases cells.len(),
{
    if cells.len() > 0 {
        lemma_grouped_nonempty(cells.drop_last());
    }
}

/// The line becomes runs.
fn flush_line(runs: &mut Vec<AnsiTextRun>, line: &mut Vec<(char, AnsiStyleState)>)
    ensures
        run_views(final(runs)@) == run_views(old(runs)@) + grouped(cell_views(old(line)@)),
        final(line)@.len() == 0,
{
    let ghost cells = cell_views(line@);
    if line.len() > 0 {
        let mut style: AnsiStyleState = line[0].1.clone();
        let mut text: Vec<char> = Vec::new();
        text.push(line[0].0);
        let mut i: usize = 1;
        proof {
            assert(cells.take(1).drop_last() =~= seq![]);
            assert(grouped(cells.take(1).drop_last()) =~= seq![]);
            assert(cells.take(1).last() == (line@[0].0, line@[0].1@));
            assert(grouped(cells.take(1)) =~= seq![Run { text: text@, style: style@ }]);
            assert(run_views(runs@) + seq![Run { text: text@, style: style@ }] =~= run_views(
                old(runs)@,
            ) + grouped(cells.take(1)));
        }
        while i < line.len()
            invariant
                1 <= i <= line.len(),
                line@ == old(line)@,
                cells == cell_views(line@),
                text@.len() > 0,
                run_views(runs@).push(Run { text: text@, style: style@ }) == run_views(old(runs)@)
                    + grouped(cells.take(i as int)),
            decreases line.len() - i,
        {
            let ghost done = cells.take(i as int);
            let ghost next = cells.take(i + 1);
            let ghost base = run_views(old(runs)@);
            let ghost open = Run { text: text@, style: style@ };
            let ghost runs_before = run_views(runs@);
            proof {
                assert(next.drop_last() =~= done);
                assert(next.last() == (line@[i as int].0, line@[i as int].1@));
                lemma_grouped_nonempty(done);
                let g = grouped(done);
                assert((base + g).last() == g.last());
                assert(runs_before.push(open).last() == open);
                assert((base + g).drop_last() =~= base + g.drop_last());
                assert(runs_before.push(open).drop_last() =~= runs_before);
            }
            if !line[i].1.same(&style) {
                let mut full: Vec<char> = Vec::new();
                core::mem::swap(&mut full, &mut text);
                let r = AnsiTextRun { text: text_of(full.as_slice()), style };
                proof {
                    lemma_run_push(runs@, r);
                }
                runs.push(r);
                style = line[i].1.clone();
                text.push(line[i].0);
                assert(text@ =~= seq![line@[i as int].0]);
                assert(run_views(runs@).push(Run { text: text@, style: style@ }) =~= base
                    + grouped(next));
            } else {
                text.push(line[i].0);
                assert(run_views(runs@).push(Run { text: text@, style: style@ }) =~= base
                    + grouped(next));
            }
            i += 1;
        }
        assert(cells.take(i as int) =~= cells);
        let r = AnsiTextRun { text: text_of(text.as_slice()), style };
        proof {
            lemma_run_push(runs@, r);
        }
        runs.push(r);
        line.clear();
    } else {
        assert(cells =~= seq![]);
        assert(run_views(runs@) + grouped(cells) =~= run_views(runs@));
    }
}

struct Canvas {
    runs: Vec<AnsiTextRun>,
    style: AnsiStyleState,
    line: Vec<(char, AnsiStyleState)>,
    col: usize,
}

impl View for Canvas {
    type V = Page;

    closed spec fn view(&self) -> Page {
        Page {
            runs: run_views(self.runs@),
            style: self.style@,
            line: cell_views(self.line@),
            col: self.col as nat,
        }
    }
}

impl Canvas {
    fn csi(&mut self, params: &[char], last: char, palette: &[Rgb; 16])
        ensures
            final(self)@ == old(self)@.csi(params@, last, palette@),
            final(self).col == old(self).col,
    {
        let ghost before = self@;
        if last == 'm' {
            let text: String = text_of(params);
            parse_sgr_params(&mut self.style, text.as_str().as_bytes(), palette);
        } else if last == 'K' {
            let n: u32 = match parse_u32(params) {
                Some(n) => n,
                None => 0,
            };
            if n == 0 {
                self.line.truncate(self.col);
                proof {
                    if before.col <= before.line.len() {
                        assert(self@.line =~= before.line.take(before.col as int));
                    } else {
                        assert(self@.line =~= before.line);
                    }
                }
            } else if n == 2 {
                self.line.clear();
                assert(self@.line =~= seq![]);
            }
        }
        assert(self@ =~= before.csi(params@, last, palette@));
    }

    fn escape(&mut self, s: &[char], palette: &[Rgb; 16]) -> (res: usize)
        requires
            s@.len() > 0,
            s@[0] == '\x1b',
        ensures
            final(self)@ == old(self)@.escape(s@, palette@),
            final(self).col == old(self).col,
            res == token_len(s@),
            1 <= res <= s@.len(),
    {
        if s.len() == 1 {
            return 1;
        }
        let rest = slice_subrange(s, 2, s.len());
        assert(rest@ =~= s@.skip(2));
        if s[1] == '[' {
            let n: usize = measure_csi(rest);
            if n < rest.len() {
                let params = slice_subrange(rest, 0, n);
                assert(params@ =~= s@.subrange(2, 2 + n));
                self.csi(params, rest[n], palette);
                n + 3
            } else {
                s.len()
            }
        } else if s[1] == ']' {
            let (n, end) = measure_osc(rest);
            let payload = slice_subrange(rest, 0, n);
            assert(payload@ =~= rest@.take(n as int));
            if let Some(link) = read_osc8(payload) {
                self.style.hyperlink = link;
            }
            2 + n + end
        } else if (s[1] == '(' || s[1] == ')') && s.len() > 2 {
            3
        } else {
            2
        }
    }

    fn tab(&mut self)
        requires
            old(self).col + 8 <= usize::MAX,
        ensures
            final(self)@ == old(self)@.step(seq!['\t'], seq![]),
            final(self).col <= old(self).col + 8,
    {
        let next: usize = (self.col / 8 + 1) * 8;
        let ghost before = self@;
        while self.col < next
            invariant
                before.col <= self.col <= next,
                next == (before.col / 8 + 1) * 8,
                next <= before.col + 8,
                self@.runs == before.runs,
                self@.style == before.style,
                with_blanks(self@.line, self.col as nat, next as nat, before.style) == with_blanks(
                    before.line,
                    before.col,
                    next as nat,
                    before.style,
                ),
            decreases next - self.col,
        {
            set_cell(&mut self.line, self.col, ' ', &self.style);
            self.col = self.col + 1;
        }
        assert(self@ =~= before.step(seq!['\t'], seq![]));
    }

    fn newline(&mut self)
        ensures
            final(self)@ == old(self)@.step(seq!['\n'], seq![]),
            final(self).col == 0,
    {
        let ghost before = self@;
        flush_line(&mut self.runs, &mut self.line);
        let mut text: String = String::new();
        text.push('\n');
        let r = AnsiTextRun { text, style: AnsiStyleState::default() };
        proof {
            assert(r@.text =~= seq!['\n']);
            lemma_run_push(self.runs@, r);
        }
        self.runs.push(r);
        self.col = 0;
        assert(self@.line =~= seq![]);
        assert(self@ =~= before.step(seq!['\n'], seq![]));
    }

    /// Reads the first character or escape sequence of `s`.
    fn take(&mut self, s: &[char], palette: &[Rgb; 16]) -> (res: usize)
        requires
            s@.len() > 0,
            old(self).col + 8 <= usize::MAX,
        ensures
            final(self)@ == old(self)@.step(s@, palette@),
            res == token_len(s@),
            1 <= res <= s@.len(),
            final(self).col <= old(self).col + 8,
    {
        let c: char = s[0];
        let ghost before = self@;
        if c == '\x1b' {
            return self.escape(s, palette);
        }
        if c == '\n' {
            self.newline();
        } else if c == '\r' {
            self.col = 0;
        } else if c == '\t' {
            self.tab();
        } else if c == '\x08' {
            if self.col > 0 {
                self.col = self.col - 1;
            }
        } else if ' ' > c {
        } else {
            set_cell(&mut self.line, self.col, c, &self.style);
            self.col = self.col + 1;
        }
        assert(self@ =~= before.step(s@, palette@));
        1
    }
}

/// Reads text with escapes into styled runs. The concatenation of the runs'
/// texts is the plain text.
pub fn ansi_text_runs(input: &str, palette: &[Rgb; 16]) -> (res: Vec<AnsiTextRun>)
    requires
        8 * input@.len() <= usize::MAX,
    ensures
        run_views(res@) == styled_runs(input@, palette@),
{
    let chars: Vec<char> = chars_of(input);
    let mut canvas = Canvas {
        runs: Vec::new(),
        style: AnsiStyleState::default(),
        line: Vec::new(),
        col: 0,
    };
    let mut i: usize = 0;
    proof {
        assert(chars@.skip(0) =~= chars@);
        assert(canvas@ =~= empty_page());
    }
    while i < chars.len()
        invariant
            i <= chars.len(),
            chars@ == input@,
            8 * chars.len() <= usize::MAX,
            canvas.col <= 8 * i,
            canvas@.read(chars@.skip(i as int), palette@) == empty_page().read(chars@, palette@),
        decreases chars.len() - i,
    {
        let rest = slice_subrange(chars.as_slice(), i, chars.len());
        assert(rest@ =~= chars@.skip(i as int));
        let n: usize = canvas.take(rest, palette);
        assert(rest@.skip(n as int) =~= chars@.skip(i + n));
        i += n;
    }
    let mut runs: Vec<AnsiTextRun> = canvas.runs;
    let mut line: Vec<(char, AnsiStyleState)> = canvas.line;
    flush_line(&mut runs, &mut line);
    runs
}

// ---------------------------------------------------------------------------
// From styles back to SGR
// ---------------------------------------------------------------------------

/// A parameter, where its attribute is set.
pub open spec fn piece_if(set: bool, n: nat) -> Seq<Seq<char>> {
    if set {
        seq![crate::text::decimal(n)]
    } else {
        seq![]
    }
}

/// The parameters of an underline.
pub open spec fn underline_pieces(u: UnderlineStyle) -> Seq<Seq<char>> {
    match u {
        UnderlineStyle::Off => seq![],
        UnderlineStyle::Single => seq![crate::text::decimal(4)],
        UnderlineStyle::Double => seq![colon_piece(2)],
        UnderlineStyle::Curly => seq![colon_piece(3)],
        UnderlineStyle::Dotted => seq![colon_piece(4)],
        UnderlineStyle::Dashed => seq![colon_piece(5)],
    }
}

/// `4:n`.
pub open spec fn colon_piece(n: nat) -> Seq<char> {
    crate::text::decimal(4) + seq![':'] + crate::text::decimal(n)
}

/// The parameters of a colour.
pub open spec fn color_pieces(lead: nat, c: Option<Rgb>) -> Seq<Seq<char>> {
    match c {
        Some(c) => seq![
            crate::text::decimal(lead),
            crate::text::decimal(2),
            crate::text::decimal(c.r as nat),
            crate::text::decimal(c.g as nat),
            crate::text::decimal(c.b as nat),
        ],
        None => seq![],
    }
}

/// The parameters of the attributes, beginning with a reset.
#[verifier::opaque]
pub open spec fn attribute_pieces(s: Style) -> Seq<Seq<char>> {
    seq![crate::text::decimal(0)] + piece_if(s.bold, 1) + piece_if(s.dim, 2) + piece_if(s.italic, 3)
        + underline_pieces(s.underline_style) + piece_if(s.blink, 5) + piece_if(s.reverse, 7)
        + piece_if(s.hidden, 8) + piece_if(s.strikethrough, 9) + piece_if(s.overline, 53)
}

/// The parameters of a whole style.
pub open spec fn sgr_pieces(s: Style) -> Seq<Seq<char>> {
    attribute_pieces(s) + color_pieces(38, s.foreground) + color_pieces(48, s.background)
        + color_pieces(58, s.underline_color)
}

/// The SGR sequence of a style.
pub open spec fn encoded_sgr(s: Style) -> Seq<char> {
    seq!['\x1b', '['] + crate::text::joined(sgr_pieces(s), seq![';']) + seq!['m']
}

/// The beginning of a sequence with the parameters `parts`.
spec fn opened(parts: Seq<Seq<char>>) -> Seq<char> {
    seq!['\x1b', '['] + crate::text::joined(parts, seq![';'])
}

fn push_piece(out: &mut Vec<char>, Ghost(parts): Ghost<Seq<Seq<char>>>, n: u64)
    requires
        parts.len() > 0,
        old(out)@ == opened(parts),
    ensures
        final(out)@ == opened(parts.push(crate::text::decimal(n as nat))),
{
    out.push(';');
    push_decimal(out, n);
    proof {
        let next = parts.push(crate::text::decimal(n as nat));
        assert(next.drop_last() =~= parts);
        assert(out@ =~= opened(next));
    }
}

fn push_piece_if(out: &mut Vec<char>, Ghost(parts): Ghost<Seq<Seq<char>>>, set: bool, n: u64)
    requires
        parts.len() > 0,
        old(out)@ == opened(parts),
    ensures
        final(out)@ == opened(parts + piece_if(set, n as nat)),
{
    if set {
        push_piece(out, Ghost(parts), n);
        assert(parts + piece_if(set, n as nat) =~= parts.push(crate::text::decimal(n as nat)));
    } else {
        assert(parts + piece_if(set, n as nat) =~= parts);
    }
}

fn push_colon_piece(out: &mut Vec<char>, Ghost(parts): Ghost<Seq<Seq<char>>>, n: u64)
    requires
        parts.len() > 0,
        old(out)@ == opened(parts),
    ensures
        final(out)@ == opened(parts + seq![colon_piece(n as nat)]),
{
    out.push(';');
    push_decimal(out, 4);
    out.push(':');
    push_decimal(out, n);
    proof {
        let next = parts.push(colon_piece(n as nat));
        assert(parts + seq![colon_piece(n as nat)] =~= next);
        assert(next.drop_last() =~= parts);
        assert(out@ =~= opened(next));
    }
}

fn push_underline(out: &mut Vec<char>, Ghost(parts): Ghost<Seq<Seq<char>>>, u: UnderlineStyle)
    requires
        parts.len() > 0,
        old(out)@ == opened(parts),
    ensures
        final(out)@ == opened(parts + underline_pieces(u)),
{
    match u {
        UnderlineStyle::Off => {
            assert(parts + underline_pieces(u) =~= parts);
        },
        UnderlineStyle::Single => {
            push_piece(out, Ghost(parts), 4);
            assert(parts + underline_pieces(u) =~= parts.push(crate::text::decimal(4)));
        },
        UnderlineStyle::Double => push_colon_piece(out, Ghost(parts), 2),
        UnderlineStyle::Curly => push_colon_piece(out, Ghost(parts), 3),
        UnderlineStyle::Dotted => push_colon_piece(out, Ghost(parts), 4),
        UnderlineStyle::Dashed => push_colon_piece(out, Ghost(parts), 5),
    }
}

fn push_color(out: &mut Vec<char>, Ghost(parts): Ghost<Seq<Seq<char>>>, lead: u64, c: Option<Rgb>)
    requires
        parts.len() > 0,
        old(out)@ == opened(parts),
    ensures
        final(out)@ == opened(parts + color_pieces(lead as nat, c)),
{
    match c {
        Some(c) => {
            let ghost p1 = parts.push(crate::text::decimal(lead as nat));
            let ghost p2 = p1.push(crate::text::decimal(2));
            let ghost p3 = p2.push(crate::text::decimal(c.r as nat));
            let ghost p4 = p3.push(crate::text::decimal(c.g as nat));
            push_piece(out, Ghost(parts), lead);
            push_piece(out, Ghost(p1), 2);
            push_piece(out, Ghost(p2), c.r as u64);
            push_piece(out, Ghost(p3), c.g as u64);
            push_piece(out, Ghost(p4), c.b as u64);
            assert(parts + color_pieces(lead as nat, Some(c)) =~= p4.push(
                crate::text::decimal(c.b as nat),
            ));
        },
        None => {
            assert(parts + color_pieces(lead as nat, c) =~= parts);
        },
    }
}

#[verifier::spinoff_prover]
#[verifier::rlimit(80)]
fn push_attributes(out: &mut Vec<char>, style: &AnsiStyleState)
    requires
        old(out)@ == seq!['\x1b', '['],
    ensures
        final(out)@ == opened(attribute_pieces(style@)),
        attribute_pieces(style@).len() > 0,
{
    proof {
        reveal(attribute_pieces);
    }
    push_decimal(out, 0);
    let ghost p = seq![crate::text::decimal(0)];
    assert(crate::text::joined(p, seq![';']) == crate::text::decimal(0));
    assert(out@ =~= opened(p));
    push_piece_if(out, Ghost(p), style.bold, 1);
    let ghost p = p + piece_if(style.bold, 1);
    push_piece_if(out, Ghost(p), style.dim, 2);
    let ghost p = p + piece_if(style.dim, 2);
    push_piece_if(out, Ghost(p), style.italic, 3);
    let ghost p = p + piece_if(style.italic, 3);
    push_underline(out, Ghost(p), style.underline_style);
    let ghost p = p + underline_pieces(style.underline_style);
    push_piece_if(out, Ghost(p), style.blink, 5);
    let ghost p = p + piece_if(style.blink, 5);
    push_piece_if(out, Ghost(p), style.reverse, 7);
    let ghost p = p + piece_if(style.reverse, 7);
    push_piece_if(out, Ghost(p), style.hidden, 8);
    let ghost p = p + piece_if(style.hidden, 8);
    push_piece_if(out, Ghost(p), style.strikethrough, 9);
    let ghost p = p + piece_if(style.strikethrough, 9);
    push_piece_if(out, Ghost(p), style.overline, 53);
}

/// Encodes a style as a CSI SGR sequence such that feeding the result through
/// [`ansi_text_runs`] reproduces the same style. It begins with `0` (reset),
/// so it stands alone. The hyperlink is OSC 8, not SGR, and is encoded
/// separately where it is needed.
pub fn encode_sgr(style: &AnsiStyleState) -> (res: String)
    ensures
        res@ == encoded_sgr(style@),
{
    let mut out: Vec<char> = Vec::new();
    out.push('\x1b');
    out.push('[');
    assert(out@ =~= seq!['\x1b', '[']);
    push_attributes(&mut out, style);
    let ghost p = attribute_pieces(style@);
    push_color(&mut out, Ghost(p), 38, style.foreground);
    let ghost p = p + color_pieces(38, style.foreground);
    push_color(&mut out, Ghost(p), 48, style.background);
    let ghost p = p + color_pieces(48, style.background);
    push_color(&mut out, Ghost(p), 58, style.underline_color);
    out.push('m');
    assert(out@ =~= encoded_sgr(style@));
    text_of(out.as_slice())
}

// ---------------------------------------------------------------------------
// Cutting and counting
// ---------------------------------------------------------------------------

/// The runs up to the first `max` characters.
pub open spec fn truncated(runs: Seq<Run>, max: nat) -> Seq<Run>
    decreases runs.len(),
{
    if runs.len() == 0 {
        seq![]
    } else {
        let r = runs[0];
        if r.text.len() <= max {
            seq![r] + truncated(runs.drop_first(), (max - r.text.len()) as nat)
        } else if max > 0 {
            seq![Run { text: r.text.take(max as int), style: r.style }]
        } else {
            seq![]
        }
    }
}

/// Truncates a run list to at most `max_chars` characters.
pub fn truncate_runs(runs: &[AnsiTextRun], max_chars: usize) -> (res: Vec<AnsiTextRun>)
    ensures
        run_views(res@) == truncated(run_views(runs@), max_chars as nat),
{
    let mut out: Vec<AnsiTextRun> = Vec::new();
    let mut left: usize = max_chars;
    let ghost all = run_views(runs@);
    let mut i: usize = 0;
    assert(all.skip(0) =~= all);
    assert(run_views(out@) + truncated(all, max_chars as nat) =~= truncated(all, max_chars as nat));
    while i < runs.len()
        invariant
            i <= runs.len(),
            all == run_views(runs@),
            run_views(out@) + truncated(all.skip(i as int), left as nat) == truncated(
                all,
                max_chars as nat,
            ),
        decreases runs.len() - i,
    {
        let ghost before = run_views(out@);
        let ghost rest = all.skip(i as int);
        assert(rest[0] == runs@[i as int]@);
        let chars: Vec<char> = chars_of(runs[i].text.as_str());
        if chars.len() <= left {
            let r = runs[i].clone();
            proof {
                lemma_run_push(out@, r);
            }
            out.push(r);
            left = left - chars.len();
            proof {
                assert(rest.drop_first() =~= all.skip(i + 1));
                assert(run_views(out@) + truncated(all.skip(i + 1), left as nat) =~= before
                    + truncated(rest, (left + chars.len()) as nat));
            }
        } else {
            if left > 0 {
                let cut = slice_subrange(chars.as_slice(), 0, left);
                let r = AnsiTextRun { text: text_of(cut), style: runs[i].style.clone() };
                proof {
                    assert(cut@ =~= chars@.take(left as int));
                    lemma_run_push(out@, r);
                }
                out.push(r);
            }
            assert(run_views(out@) =~= before + truncated(rest, left as nat));
            return out;
        }
        i += 1;
    }
    assert(all.skip(i as int) =~= seq![]);
    assert(run_views(out@) =~= truncated(all, max_chars as nat));
    out
}

/// The position just past the `n`th newline of `s`, or the length if there are
/// fewer. No lines end where `s` begins.
pub open spec fn past_lines(s: Seq<char>, n: nat) -> nat
    decreases s.len(),
{
    if s.len() == 0 || n == 0 {
        0
    } else {
        1 + past_lines(
            s.drop_first(),
            if s[0] == '\n' {
                (n - 1) as nat
            } else {
                n
            },
        )
    }
}

/// The number of newlines in `s`.
pub open spec fn newlines(s: Seq<char>) -> nat
    decreases s.len(),
{
    if s.len() == 0 {
        0
    } else {
        newlines(s.drop_last()) + (if s.last() == '\n' {
            1nat
        } else {
            0nat
        })
    }
}

pub(crate) proof fn lemma_newlines_concat(a: Seq<char>, b: Seq<char>)
    ensures
        newlines(a + b) == newlines(a) + newlines(b),
        newlines(b) <= b.len(),
    decreases b.len(),
{
    if b.len() == 0 {
        assert(a + b =~= a);
    } else {
        lemma_newlines_concat(a, b.drop_last());
        assert((a + b).drop_last() =~= a + b.drop_last());
    }
}

/// The characters of all runs, in order.
fn all_chars(runs: &[AnsiTextRun]) -> (res: Vec<char>)
    ensures
        res@ == flat(run_views(runs@)),
{
    let mut out: Vec<char> = Vec::new();
    let ghost all = run_views(runs@);
    let mut i: usize = 0;
    while i < runs.len()
        invariant
            i <= runs.len(),
            all == run_views(runs@),
            out@ == flat(all.take(i as int)),
        decreases runs.len() - i,
    {
        push_text(&mut out, runs[i].text.as_str());
        proof {
            assert(all.take(i + 1).drop_last() =~= all.take(i as int));
            assert(all.take(i + 1).last() == runs@[i as int]@);
        }
        i += 1;
    }
    assert(all.take(i as int) =~= all);
    out
}

/// The character offset just past the `n`th newline, that is, the end of the
/// first `n` lines.
pub fn char_offset_after_lines(runs: &[AnsiTextRun], n: usize) -> (res: usize)
    ensures
        res == past_lines(flat(run_views(runs@)), n as nat),
{
    let chars: Vec<char> = all_chars(runs);
    let mut left: usize = n;
    let mut i: usize = 0;
    assert(chars@.skip(0) =~= chars@);
    while i < chars.len() && left > 0
        invariant
            i <= chars.len(),
            i + past_lines(chars@.skip(i as int), left as nat) == past_lines(chars@, n as nat),
            chars@ == flat(run_views(runs@)),
        decreases chars.len() - i,
    {
        assert(chars@.skip(i as int).drop_first() =~= chars@.skip(i + 1));
        if chars[i] == '\n' {
            left = left - 1;
        }
        i += 1;
    }
    i
}

/// The total number of newlines across all runs.
pub fn count_lines(runs: &[AnsiTextRun]) -> (res: usize)
    ensures
        res == newlines(flat(run_views(runs@))),
{
    let chars: Vec<char> = all_chars(runs);
    let mut count: usize = 0;
    let mut i: usize = 0;
    while i < chars.len()
        invariant
            count <= i <= chars.len(),
            count == newlines(chars@.take(i as int)),
        decreases chars.len() - i,
    {
        assert(chars@.take(i + 1).drop_last() =~= chars@.take(i as int));
        if chars[i] == '\n' {
            count += 1;
        }
        i += 1;
    }
    assert(chars@.take(i as int) =~= chars@);
    count
}

// ---------------------------------------------------------------------------
// Text tags
// ---------------------------------------------------------------------------

/// `n` with three decimal digits.
pub open spec fn three_digits(n: u8) -> Seq<char> {
    seq![
        crate::text::digit_char((n / 100) as nat),
        crate::text::digit_char((n / 10 % 10) as nat),
        crate::text::digit_char((n % 10) as nat),
    ]
}

/// The part of a tag name that stands for a colour.
pub open spec fn color_key(c: Option<Rgb>) -> Seq<char> {
    match c {
        Some(c) => three_digits(c.r) + "-"@ + three_digits(c.g) + "-"@ + three_digits(c.b)
            + "-255"@,
        None => "none"@,
    }
}

/// `0` or `1`.
pub open spec fn bit(b: bool) -> Seq<char> {
    if b {
        seq!['1']
    } else {
        seq!['0']
    }
}

/// The number of an underline style in a tag name.
pub open spec fn underline_number(u: UnderlineStyle) -> nat {
    match u {
        UnderlineStyle::Off => 0,
        UnderlineStyle::Single => 1,
        UnderlineStyle::Double => 2,
        UnderlineStyle::Curly => 3,
        UnderlineStyle::Dotted => 4,
        UnderlineStyle::Dashed => 5,
    }
}

pub(crate) fn number_of_underline(u: UnderlineStyle) -> (res: u8)
    ensures
        res == underline_number(u),
        res <= 5,
{
    match u {
        UnderlineStyle::Off => 0,
        UnderlineStyle::Single => 1,
        UnderlineStyle::Double => 2,
        UnderlineStyle::Curly => 3,
        UnderlineStyle::Dotted => 4,
        UnderlineStyle::Dashed => 5,
    }
}

/// A digest of the bytes of a link, modulo two to the 64.
pub open spec fn link_digest(bytes: Seq<u8>) -> nat
    decreases bytes.len(),
{
    if bytes.len() == 0 {
        0
    } else {
        (link_digest(bytes.drop_last()) * 31 + bytes.last() as nat) % 0x1_0000_0000_0000_0000
    }
}

/// The last `n` hexadecimal digits of `h`.
pub open spec fn hex_digits(h: nat, n: nat) -> Seq<char>
    decreases n,
{
    if n == 0 {
        seq![]
    } else {
        hex_digits(h / 16, (n - 1) as nat).push(hex_char(h % 16))
    }
}

/// The hexadecimal digit of value `d`.
pub open spec fn hex_char(d: nat) -> char {
    if d < 10 {
        (48 + d) as char
    } else {
        (87 + d) as char
    }
}

/// The part of a tag name that stands for a link.
pub open spec fn link_key(link: Option<Seq<char>>) -> Seq<char> {
    match link {
        Some(uri) => hex_digits(link_digest(vstd::utf8::encode_utf8(uri)), 16),
        None => "none"@,
    }
}

/// The name of the tag for a style; plain text needs none.
pub open spec fn tag_name(s: Style) -> Option<Seq<char>> {
    if s == plain_style() {
        None
    } else {
        Some(
            "ansi-fg:"@ + color_key(s.foreground) + "-bg:"@ + color_key(s.background) + "-b"@ + bit(
                s.bold,
            ) + "-i"@ + bit(s.italic) + "-u"@ + crate::text::decimal(
                underline_number(s.underline_style),
            ) + "-uc:"@ + color_key(s.underline_color) + "-s"@ + bit(s.strikethrough) + "-d"@ + bit(
                s.dim,
            ) + "-rv"@ + bit(s.reverse) + "-hd"@ + bit(s.hidden) + "-ov"@ + bit(s.overline)
                + "-bl"@ + bit(s.blink) + "-lk:"@ + link_key(s.hyperlink),
        )
    }
}

fn push_three(out: &mut Vec<char>, n: u8)
    ensures
        final(out)@ == old(out)@ + three_digits(n),
{
    out.push((48 + n / 100) as char);
    out.push((48 + n / 10 % 10) as char);
    out.push((48 + n % 10) as char);
    assert(out@ =~= old(out)@ + three_digits(n));
}

fn push_color_key(out: &mut Vec<char>, c: Option<Rgb>)
    ensures
        final(out)@ == old(out)@ + color_key(c),
{
    match c {
        Some(c) => {
            push_three(out, c.r);
            push_text(out, "-");
            push_three(out, c.g);
            push_text(out, "-");
            push_three(out, c.b);
            push_text(out, "-255");
            assert(out@ =~= old(out)@ + color_key(Some(c)));
        },
        None => push_text(out, "none"),
    }
}

fn push_bit(out: &mut Vec<char>, label: &str, b: bool)
    ensures
        final(out)@ == old(out)@ + label@ + bit(b),
{
    push_text(out, label);
    out.push(
        if b {
            '1'
        } else {
            '0'
        },
    );
    assert(out@ =~= old(out)@ + label@ + bit(b));
}

fn digest(bytes: &[u8]) -> (res: u64)
    ensures
        res == link_digest(bytes@),
{
    let mut h: u64 = 0;
    let mut i: usize = 0;
    while i < bytes.len()
        invariant
            i <= bytes.len(),
            h == link_digest(bytes@.take(i as int)),
        decreases bytes.len() - i,
    {
        assert(bytes@.take(i + 1).drop_last() =~= bytes@.take(i as int));
        let wide: u128 = (h as u128) * 31 + bytes[i] as u128;
        h = (wide % 0x1_0000_0000_0000_0000) as u64;
        i += 1;
    }
    assert(bytes@.take(i as int) =~= bytes@);
    h
}

fn push_hex(out: &mut Vec<char>, h: u64, n: usize)
    ensures
        final(out)@ == old(out)@ + hex_digits(h as nat, n as nat),
    decreases n,
{
    let ghost before = out@;
    if n > 0 {
        push_hex(out, h / 16, n - 1);
        let d: u8 = (h % 16) as u8;
        out.push(
            if d < 10 {
                (48 + d) as char
            } else {
                (87 + d) as char
            },
        );
    }
    assert(out@ =~= before + hex_digits(h as nat, n as nat));
}

/// The name of the text tag for a style; `None` for plain text.
#[verifier::rlimit(60)]
pub fn ansi_tag_name(style: &AnsiStyleState) -> (res: Option<String>)
    ensures
        res is None <==> tag_name(style@) is None,
        res matches Some(name) ==> tag_name(style@) == Some(name@),
{
    if style.same(&AnsiStyleState::default()) {
        return None;
    }
    let mut out: Vec<char> = Vec::new();
    push_text(&mut out, "ansi-fg:");
    assert(out@ =~= "ansi-fg:"@);
    push_color_key(&mut out, style.foreground);
    push_text(&mut out, "-bg:");
    push_color_key(&mut out, style.background);
    push_bit(&mut out, "-b", style.bold);
    push_bit(&mut out, "-i", style.italic);
    push_text(&mut out, "-u");
    push_decimal(&mut out, number_of_underline(style.underline_style) as u64);
    push_text(&mut out, "-uc:");
    push_color_key(&mut out, style.underline_color);
    push_bit(&mut out, "-s", style.strikethrough);
    push_bit(&mut out, "-d", style.dim);
    push_bit(&mut out, "-rv", style.reverse);
    push_bit(&mut out, "-hd", style.hidden);
    push_bit(&mut out, "-ov", style.overline);
    push_bit(&mut out, "-bl", style.blink);
    push_text(&mut out, "-lk:");
    match &style.hyperlink {
        Some(uri) => push_hex(&mut out, digest(uri.as_str().as_bytes()), 16),
        None => push_text(&mut out, "none"),
    }
    Some(text_of(out.as_slice()))
}

/// The colour of the text under a tag.
#[derive(Clone, Copy, Debug, PartialEq, Eq, Structural)]
pub enum TagInk {
    /// The colour as it is.
    Solid(Rgb),
    /// The colour at seven tenths of full opacity.
    Dim(Rgb),
    /// The colour at 0.85 of full opacity, for text that blinks.
    Blink(Rgb),
    /// The colour of links that have none of their own.
    Link,
    /// Invisible text.
    Clear,
}

/// How tagged text looks. There is no animated blink: such text is set in
/// italics, its own colour a little faded.
#[derive(Clone, Copy, Debug, PartialEq, Eq, Structural)]
pub struct TagLook {
    pub ink: Option<TagInk>,
    pub paper: Option<Rgb>,
    pub overline: bool,
    pub bold: bool,
    pub italic: bool,
    pub underline: UnderlineStyle,
    pub underline_color: Option<Rgb>,
    pub strikethrough: bool,
}

/// The text colour of a style, seen with reversal, dimming, links, hidden text
/// and blinking in mind.
pub open spec fn ink_of(s: Style) -> Option<TagInk> {
    let front = if s.reverse {
        s.background
    } else {
        s.foreground
    };
    if s.blink && s.foreground is Some {
        Some(TagInk::Blink(s.foreground->0))
    } else if s.hidden {
        Some(TagInk::Clear)
    } else {
        match front {
            Some(c) => Some(
                if s.dim {
                    TagInk::Dim(c)
                } else {
                    TagInk::Solid(c)
                },
            ),
            None => if s.hyperlink is Some {
                Some(TagInk::Link)
            } else {
                None
            },
        }
    }
}

/// The look of a style. Dotted and dashed underlines are shown as single ones,
/// and links without an underline get one.
pub open spec fn look_of(s: Style) -> TagLook {
    TagLook {
        ink: ink_of(s),
        paper: if s.reverse {
            s.foreground
        } else {
            s.background
        },
        overline: s.overline,
        bold: s.bold,
        italic: s.italic || s.blink,
        underline: match s.underline_style {
            UnderlineStyle::Off => if s.hyperlink is Some {
                UnderlineStyle::Single
            } else {
                UnderlineStyle::Off
            },
            UnderlineStyle::Dotted | UnderlineStyle::Dashed => UnderlineStyle::Single,
            _ => s.underline_style,
        },
        underline_color: s.underline_color,
        strikethrough: s.strikethrough,
    }
}

fn tag_ink(style: &AnsiStyleState) -> (res: Option<TagInk>)
    ensures
        res == ink_of(style@),
{
    if style.blink {
        if let Some(c) = style.foreground {
            return Some(TagInk::Blink(c));
        }
    }
    if style.hidden {
        return Some(TagInk::Clear);
    }
    let front: Option<Rgb> = if style.reverse {
        style.background
    } else {
        style.foreground
    };
    match front {
        Some(c) => if style.dim {
            Some(TagInk::Dim(c))
        } else {
            Some(TagInk::Solid(c))
        },
        None => if style.hyperlink.is_some() {
            Some(TagInk::Link)
        } else {
            None
        },
    }
}

/// The look of the text tag for a style.
pub fn tag_look(style: &AnsiStyleState) -> (res: TagLook)
    ensures
        res == look_of(style@),
{
    let underline: UnderlineStyle = match style.underline_style {
        UnderlineStyle::Off => if style.hyperlink.is_some() {
            UnderlineStyle::Single
        } else {
            UnderlineStyle::Off
        },
        UnderlineStyle::Dotted => UnderlineStyle::Single,
        UnderlineStyle::Dashed => UnderlineStyle::Single,
        UnderlineStyle::Single => UnderlineStyle::Single,
        UnderlineStyle::Double => UnderlineStyle::Double,
        UnderlineStyle::Curly => UnderlineStyle::Curly,
    };
    TagLook {
        ink: tag_ink(style),
        paper: if style.reverse {
            style.foreground
        } else {
            style.background
        },
        overline: style.overline,
        bold: style.bold,
        italic: style.italic || style.blink,
        underline,
        underline_color: style.underline_color,
        strikethrough: style.strikethrough,
    }
}

/// Where the runs of a list stand in a buffer: each run from its first
/// character up to the one behind its last.
pub open spec fn run_spans(runs: Seq<Run>, start: nat) -> Seq<(nat, nat)>
    decreases runs.len(),
{
    if runs.len() == 0 {
        seq![]
    } else {
        let from = start + flat(runs.drop_last()).len();
        run_spans(runs.drop_last(), start).push((from, from + runs.last().text.len()))
    }
}

/// The values of a list of spans.
pub open spec fn span_views(spans: Seq<(usize, usize)>) -> Seq<(nat, nat)> {
    Seq::new(spans.len(), |i: int| (spans[i].0 as nat, spans[i].1 as nat))
}

/// The stretch of a buffer that each run covers when the first one stands at
/// `start_offset`.
pub fn buffer_spans(start_offset: usize, runs: &[AnsiTextRun]) -> (res: Vec<(usize, usize)>)
    requires
        start_offset + flat(run_views(runs@)).len() <= usize::MAX,
    ensures
        span_views(res@) == run_spans(run_views(runs@), start_offset as nat),
{
    let mut out: Vec<(usize, usize)> = Vec::new();
    let mut offset: usize = start_offset;
    let ghost all = run_views(runs@);
    let mut i: usize = 0;
    assert(span_views(out@) =~= run_spans(all.take(0), start_offset as nat));
    while i < runs.len()
        invariant
            i <= runs.len(),
            all == run_views(runs@),
            start_offset + flat(all).len() <= usize::MAX,
            offset == start_offset + flat(all.take(i as int)).len(),
            span_views(out@) == run_spans(all.take(i as int), start_offset as nat),
        decreases runs.len() - i,
    {
        let len: usize = chars_of(runs[i].text.as_str()).len();
        let ghost before = span_views(out@);
        proof {
            assert(all.take(i + 1).drop_last() =~= all.take(i as int));
            assert(all.take(i + 1).last() == runs@[i as int]@);
            lemma_flat_grows(all, i + 1);
        }
        out.push((offset, offset + len));
        assert(span_views(out@) =~= before.push((offset as nat, (offset + len) as nat)));
        offset = offset + len;
        i += 1;
    }
    assert(all.take(i as int) =~= all);
    out
}

proof fn lemma_flat_grows(runs: Seq<Run>, i: int)
    requires
        0 <= i <= runs.len(),
    ensures
        flat(runs.take(i)).len() <= flat(runs).len(),
    decreases runs.len() - i,
{
    if i == runs.len() {
        assert(runs.take(i) =~= runs);
    } else {
        lemma_flat_grows(runs, i + 1);
        assert(runs.take(i + 1).drop_last() =~= runs.take(i));
    }
}

// ---------------------------------------------------------------------------
// Laws
// ---------------------------------------------------------------------------

/// Digits and colons only.
pub open spec fn clean_piece(p: Seq<char>) -> bool {
    forall|j: int| 0 <= j < p.len() ==> crate::text::is_digit(#[trigger] p[j]) || p[j] == ':'
}

spec fn clean(parts: Seq<Seq<char>>) -> bool {
    forall|i: int| 0 <= i < parts.len() ==> clean_piece(#[trigger] parts[i])
}

pub(super) proof fn lemma_decimal_piece(n: nat)
    requires
        n <= u32::MAX,
    ensures
        number(crate::text::decimal(n)) == n,
        !crate::text::decimal(n).contains(':'),
        clean_piece(crate::text::decimal(n)),
        n <= 255 ==> small_number(crate::text::decimal(n)) == Some(n as u8),
{
    let d = crate::text::decimal(n);
    crate::text::decimal_reads_back(n);
    lemma_digit_run(d, d.len() as int);
    assert(d.take(d.len() as int) =~= d);
    assert forall|j: int| 0 <= j < d.len() implies #[trigger] d[j] != ':' by {
        assert(crate::text::is_digit(d[j]));
    }
}

proof fn lemma_piece_if(s: Style, set: bool, n: nat, tail: Seq<Seq<char>>, palette: Seq<Rgb>)
    requires
        n <= 255,
        n != 38 && n != 48 && n != 58,
    ensures
        after_sgr(s, piece_if(set, n) + tail, palette) == after_sgr(
            if set {
                after_number(s, n, palette)
            } else {
                s
            },
            tail,
            palette,
        ),
        clean(piece_if(set, n)),
{
    lemma_decimal_piece(n);
    let parts = piece_if(set, n) + tail;
    if set {
        assert(parts[0] == crate::text::decimal(n));
        assert(parts.skip(1) =~= tail);
    } else {
        assert(parts =~= tail);
    }
}

proof fn lemma_colon_piece(s: Style, n: nat, tail: Seq<Seq<char>>, palette: Seq<Rgb>)
    requires
        n <= 5,
    ensures
        after_sgr(s, seq![colon_piece(n)] + tail, palette) == after_sgr(
            Style { underline_style: colon_underline(n), ..s },
            tail,
            palette,
        ),
        clean_piece(colon_piece(n)),
{
    lemma_decimal_piece(4);
    lemma_decimal_piece(n);
    let four = crate::text::decimal(4);
    let digits = crate::text::decimal(n);
    let piece = colon_piece(n);
    let sub = seq![four, digits];
    crate::text::lemma_joined_front(sub, seq![':']);
    assert(sub.drop_first() =~= seq![digits]);
    crate::text::lemma_joined_front(seq![digits], seq![':']);
    assert(crate::text::joined(sub, seq![':']) =~= piece);
    assert forall|i: int, j: int|
        0 <= i < sub.len() && 0 <= j < sub[i].len() implies #[trigger] sub[i][j] != ':' by {
        assert(!sub[i].contains(':'));
        assert(sub[i].contains(sub[i][j]));
    }
    crate::text::split_undoes_join(sub, ':');
    let parts = seq![piece] + tail;
    assert(parts[0] == piece);
    assert(piece[four.len() as int] == ':');
    assert(piece.contains(':'));
    assert(parts.skip(1) =~= tail);
    assert forall|j: int| 0 <= j < piece.len() implies crate::text::is_digit(#[trigger] piece[j])
        || piece[j] == ':' by {
        if j < four.len() {
            assert(piece[j] == four[j]);
        } else if j > four.len() {
            assert(piece[j] == digits[j - four.len() - 1]);
        }
    }
}

proof fn lemma_underline(s: Style, u: UnderlineStyle, tail: Seq<Seq<char>>, palette: Seq<Rgb>)
    ensures
        after_sgr(s, underline_pieces(u) + tail, palette) == after_sgr(
            if u == UnderlineStyle::Off {
                s
            } else {
                Style { underline_style: u, ..s }
            },
            tail,
            palette,
        ),
        clean(underline_pieces(u)),
{
    match u {
        UnderlineStyle::Off => {
            assert(underline_pieces(u) + tail =~= tail);
        },
        UnderlineStyle::Single => {
            lemma_piece_if(s, true, 4, tail, palette);
        },
        UnderlineStyle::Double => lemma_colon_piece(s, 2, tail, palette),
        UnderlineStyle::Curly => lemma_colon_piece(s, 3, tail, palette),
        UnderlineStyle::Dotted => lemma_colon_piece(s, 4, tail, palette),
        UnderlineStyle::Dashed => lemma_colon_piece(s, 5, tail, palette),
    }
}

proof fn lemma_color(
    s: Style,
    lead: nat,
    c: Option<Rgb>,
    tail: Seq<Seq<char>>,
    palette: Seq<Rgb>,
)
    requires
        lead == 38 || lead == 48 || lead == 58,
    ensures
        after_sgr(s, color_pieces(lead, c) + tail, palette) == after_sgr(
            match c {
                Some(c) => after_color(s, lead, c),
                None => s,
            },
            tail,
            palette,
        ),
        clean(color_pieces(lead, c)),
{
    let pieces = color_pieces(lead, c);
    let parts = pieces + tail;
    match c {
        Some(c) => {
            lemma_decimal_piece(lead);
            lemma_decimal_piece(2);
            lemma_decimal_piece(c.r as nat);
            lemma_decimal_piece(c.g as nat);
            lemma_decimal_piece(c.b as nat);
            reveal_strlit("5");
            reveal_strlit("2");
            assert(parts[0] == pieces[0] && parts[1] == pieces[1] && parts[2] == pieces[2]
                && parts[3] == pieces[3] && parts[4] == pieces[4]);
            assert(crate::text::decimal(2) =~= "2"@);
            assert("2"@[0] != "5"@[0]);
            assert(parts.skip(5) =~= tail);
        },
        None => {
            assert(parts =~= tail);
        },
    }
}

/// The parameters `parts`, whatever follows them, lead from `before` to `s`.
#[verifier::opaque]
spec fn leads(before: Style, parts: Seq<Seq<char>>, s: Style, palette: Seq<Rgb>) -> bool {
    clean(parts) && forall|tail: Seq<Seq<char>>|
        after_sgr(before, #[trigger] (parts + tail), palette) == after_sgr(s, tail, palette)
}

#[verifier::spinoff_prover]
#[verifier::rlimit(60)]
proof fn lemma_leads_piece(
    before: Style,
    parts: Seq<Seq<char>>,
    s: Style,
    palette: Seq<Rgb>,
    set: bool,
    n: nat,
)
    requires
        leads(before, parts, s, palette),
        n <= 255,
        n != 38 && n != 48 && n != 58,
    ensures
        leads(
            before,
            parts + piece_if(set, n),
            if set {
                after_number(s, n, palette)
            } else {
                s
            },
            palette,
        ),
{
    reveal(leads);
    let more = piece_if(set, n);
    let t = if set {
        after_number(s, n, palette)
    } else {
        s
    };
    lemma_piece_if(s, set, n, seq![], palette);
    assert forall|tail: Seq<Seq<char>>| after_sgr(
        before,
        #[trigger] ((parts + more) + tail),
        palette,
    ) == after_sgr(t, tail, palette) by {
        lemma_piece_if(s, set, n, tail, palette);
        assert((parts + more) + tail =~= parts + (more + tail));
    }
}

#[verifier::spinoff_prover]
#[verifier::rlimit(60)]
proof fn lemma_leads_underline(
    before: Style,
    parts: Seq<Seq<char>>,
    s: Style,
    palette: Seq<Rgb>,
    u: UnderlineStyle,
)
    requires
        leads(before, parts, s, palette),
        s.underline_style == UnderlineStyle::Off,
    ensures
        leads(
            before,
            parts + underline_pieces(u),
            Style { underline_style: u, ..s },
            palette,
        ),
{
    reveal(leads);
    let more = underline_pieces(u);
    let t = Style { underline_style: u, ..s };
    lemma_underline(s, u, seq![], palette);
    assert forall|tail: Seq<Seq<char>>| after_sgr(
        before,
        #[trigger] ((parts + more) + tail),
        palette,
    ) == after_sgr(t, tail, palette) by {
        lemma_underline(s, u, tail, palette);
        assert((parts + more) + tail =~= parts + (more + tail));
    }
}

#[verifier::spinoff_prover]
#[verifier::rlimit(60)]
proof fn lemma_leads_color(
    before: Style,
    parts: Seq<Seq<char>>,
    s: Style,
    palette: Seq<Rgb>,
    lead: nat,
    c: Option<Rgb>,
)
    requires
        leads(before, parts, s, palette),
        lead == 38 || lead == 48 || lead == 58,
    ensures
        leads(
            before,
            parts + color_pieces(lead, c),
            match c {
                Some(c) => after_color(s, lead, c),
                None => s,
            },
            palette,
        ),
{
    reveal(leads);
    let more = color_pieces(lead, c);
    let t = match c {
        Some(c) => after_color(s, lead, c),
        None => s,
    };
    lemma_color(s, lead, c, seq![], palette);
    assert forall|tail: Seq<Seq<char>>| after_sgr(
        before,
        #[trigger] ((parts + more) + tail),
        palette,
    ) == after_sgr(t, tail, palette) by {
        lemma_color(s, lead, c, tail, palette);
        assert((parts + more) + tail =~= parts + (more + tail));
    }
}

proof fn lemma_leads_alone(before: Style, parts: Seq<Seq<char>>, s: Style, palette: Seq<Rgb>)
    requires
        leads(before, parts, s, palette),
    ensures
        after_sgr(before, parts, palette) == s,
        clean(parts),
{
    reveal(leads);
    let none: Seq<Seq<char>> = seq![];
    assert(parts + none =~= parts);
    assert(after_sgr(before, parts + none, palette) == after_sgr(s, none, palette));
}

proof fn lemma_leads_attributes(s: Style, before: Style, palette: Seq<Rgb>)
    ensures
        leads(
            before,
            attribute_pieces(s),
            Style {
                hyperlink: before.hyperlink,
                foreground: None,
                background: None,
                underline_color: None,
                ..s
            },
            palette,
        ),
{
    reveal(attribute_pieces);
    let none: Seq<Seq<char>> = seq![];
    assert(leads(before, none, before, palette)) by {
        reveal(leads);
        assert forall|tail: Seq<Seq<char>>| after_sgr(before, #[trigger] (none + tail), palette)
            == after_sgr(before, tail, palette) by {
            assert(none + tail =~= tail);
        }
    }
    lemma_leads_piece(before, none, before, palette, true, 0);
    let p = seq![crate::text::decimal(0)];
    assert(none + piece_if(true, 0) =~= p);
    let t = Style { hyperlink: before.hyperlink, ..plain_style() };
    lemma_leads_piece(before, p, t, palette, s.bold, 1);
    let p = p + piece_if(s.bold, 1);
    let t = Style { bold: s.bold, ..t };
    lemma_leads_piece(before, p, t, palette, s.dim, 2);
    let p = p + piece_if(s.dim, 2);
    let t = Style { dim: s.dim, ..t };
    lemma_leads_piece(before, p, t, palette, s.italic, 3);
    let p = p + piece_if(s.italic, 3);
    let t = Style { italic: s.italic, ..t };
    lemma_leads_underline(before, p, t, palette, s.underline_style);
    let p = p + underline_pieces(s.underline_style);
    let t = Style { underline_style: s.underline_style, ..t };
    lemma_leads_piece(before, p, t, palette, s.blink, 5);
    let p = p + piece_if(s.blink, 5);
    let t = Style { blink: s.blink, ..t };
    lemma_leads_piece(before, p, t, palette, s.reverse, 7);
    let p = p + piece_if(s.reverse, 7);
    let t = Style { reverse: s.reverse, ..t };
    lemma_leads_piece(before, p, t, palette, s.hidden, 8);
    let p = p + piece_if(s.hidden, 8);
    let t = Style { hidden: s.hidden, ..t };
    lemma_leads_piece(before, p, t, palette, s.strikethrough, 9);
    let p = p + piece_if(s.strikethrough, 9);
    let t = Style { strikethrough: s.strikethrough, ..t };
    lemma_leads_piece(before, p, t, palette, s.overline, 53);
}

proof fn lemma_pieces_restore(s: Style, before: Style, palette: Seq<Rgb>)
    ensures
        after_sgr(before, sgr_pieces(s), palette) == (Style { hyperlink: before.hyperlink, ..s }),
        clean(sgr_pieces(s)),
{
    lemma_leads_attributes(s, before, palette);
    let p = attribute_pieces(s);
    let t = Style {
        hyperlink: before.hyperlink,
        foreground: None,
        background: None,
        underline_color: None,
        ..s
    };
    lemma_leads_color(before, p, t, palette, 38, s.foreground);
    let p = p + color_pieces(38, s.foreground);
    let t = Style { foreground: s.foreground, ..t };
    lemma_leads_color(before, p, t, palette, 48, s.background);
    let p = p + color_pieces(48, s.background);
    let t = Style { background: s.background, ..t };
    lemma_leads_color(before, p, t, palette, 58, s.underline_color);
    lemma_leads_alone(
        before,
        sgr_pieces(s),
        Style { underline_color: s.underline_color, ..t },
        palette,
    );
}

/// The bytes of an ASCII text.
spec fn narrowed(s: Seq<char>) -> Seq<u8> {
    Seq::new(s.len(), |i: int| s[i] as u8)
}

proof fn lemma_narrowed_join(parts: Seq<Seq<char>>)
    ensures
        narrowed(crate::text::joined(parts, seq![';'])) == crate::text::joined(
            Seq::new(parts.len(), |i: int| narrowed(parts[i])),
            seq![0x3bu8],
        ),
        clean(parts) ==> forall|j: int|
            0 <= j < crate::text::joined(parts, seq![';']).len() ==> ('0' <= #[trigger] crate::text::joined(
                parts,
                seq![';'],
            )[j] <= ';'),
    decreases parts.len(),
{
    let all = Seq::new(parts.len(), |i: int| narrowed(parts[i]));
    let j = crate::text::joined(parts, seq![';']);
    if parts.len() == 0 {
        assert(narrowed(j) =~= seq![]);
    } else if parts.len() == 1 {
        if clean(parts) {
            assert(clean_piece(parts[0]));
        }
    } else {
        let front = parts.drop_last();
        lemma_narrowed_join(front);
        assert(all.drop_last() =~= Seq::new(front.len(), |i: int| narrowed(front[i])));
        assert(narrowed(j) =~= crate::text::joined(all, seq![0x3bu8]));
        if clean(parts) {
            assert(clean(front)) by {
                assert forall|i: int| 0 <= i < front.len() implies clean_piece(
                    #[trigger] front[i],
                ) by {
                    assert(front[i] == parts[i]);
                }
            }
            let fj = crate::text::joined(front, seq![';']);
            let last = parts.last();
            assert(clean_piece(parts[parts.len() - 1]));
            assert forall|k: int| 0 <= k < j.len() implies '0' <= #[trigger] j[k] <= ';' by {
                if k < fj.len() {
                    assert(j[k] == fj[k]);
                } else if k > fj.len() {
                    assert(j[k] == last[k - fj.len() - 1]);
                }
            }
        }
    }
}

proof fn lemma_chunks_of_pieces(s: Style)
    ensures
        sgr_chunks(
            vstd::utf8::encode_utf8(crate::text::joined(sgr_pieces(s), seq![';'])),
        ) == sgr_pieces(s),
        forall|j: int|
            0 <= j < crate::text::joined(sgr_pieces(s), seq![';']).len() ==> ('0'
                <= #[trigger] crate::text::joined(sgr_pieces(s), seq![';'])[j] <= ';'),
{
    let parts = sgr_pieces(s);
    let j = crate::text::joined(parts, seq![';']);
    let bytes = narrowed(j);
    lemma_pieces_restore(s, plain_style(), seq![]);
    lemma_narrowed_join(parts);
    assert(crate::text::widened(bytes) =~= j) by {
        assert forall|i: int| 0 <= i < j.len() implies crate::text::widened(bytes)[i] == j[i] by {
            assert('0' <= j[i] <= ';');
        }
    }
    assert forall|i: int| 0 <= i < bytes.len() implies #[trigger] bytes[i] < 0x80 by {
        assert('0' <= j[i] <= ';');
    }
    crate::text::ascii_bytes_are_utf8(bytes);
    assert(unmarked(bytes) == bytes) by {
        if bytes.len() > 0 {
            assert('0' <= j[0] <= ';');
        }
    }
    let all = Seq::new(parts.len(), |i: int| narrowed(parts[i]));
    assert forall|i: int, k: int|
        0 <= i < all.len() && 0 <= k < all[i].len() implies #[trigger] all[i][k] != 0x3b by {
        assert(clean_piece(parts[i]));
        assert(crate::text::is_digit(parts[i][k]) || parts[i][k] == ':');
    }
    assert(parts.len() > 0) by {
        reveal(attribute_pieces);
    }
    crate::text::split_undoes_join(all, 0x3b);
    assert forall|i: int| 0 <= i < parts.len() implies #[trigger] crate::text::widened(all[i])
        == parts[i] by {
        assert(clean_piece(parts[i]));
        assert forall|k: int| 0 <= k < parts[i].len() implies crate::text::widened(all[i])[k]
            == parts[i][k] by {
            assert(crate::text::is_digit(parts[i][k]) || parts[i][k] == ':');
        }
        assert(crate::text::widened(all[i]) =~= parts[i]);
    }
    assert(sgr_chunks(bytes) =~= parts);
}

/// Applying the encoded parameters of a style to any state gives the style
/// back; the link of that state stays.
pub proof fn encoding_restores_the_style(s: Style, before: Style, palette: Seq<Rgb>)
    ensures
        after_sgr(
            before,
            sgr_chunks(vstd::utf8::encode_utf8(crate::text::joined(sgr_pieces(s), seq![';']))),
            palette,
        ) == (Style { hyperlink: before.hyperlink, ..s }),
{
    lemma_pieces_restore(s, before, palette);
    lemma_chunks_of_pieces(s);
}

/// Reading the encoded style of `s` and a printable character gives that
/// character in that style.
pub proof fn encoded_text_reads_back(s: Style, c: char, palette: Seq<Rgb>)
    requires
        c >= ' ',
    ensures
        styled_runs(encoded_sgr(s).push(c), palette) == seq![
            Run { text: seq![c], style: Style { hyperlink: None, ..s } },
        ],
{
    let j = crate::text::joined(sgr_pieces(s), seq![';']);
    let text = encoded_sgr(s).push(c);
    let rest = text.skip(2);
    lemma_chunks_of_pieces(s);
    encoding_restores_the_style(s, plain_style(), palette);
    assert(text[0] == '\x1b' && text[1] == '[');
    assert forall|k: int| 0 <= k < j.len() implies !('@' <= #[trigger] rest[k] <= '~') by {
        assert(rest[k] == j[k]);
    }
    assert(rest[j.len() as int] == 'm');
    lemma_csi_len(rest, j.len() as int);
    assert(text.subrange(2, 2 + j.len() as int) =~= j);
    let start = empty_page();
    let styled = Page { style: Style { hyperlink: None, ..s }, ..start };
    assert(start.step(text, palette) == styled);
    let tail = text.skip(token_len(text) as int);
    assert(tail =~= seq![c]);
    reveal_with_fuel(Page::read, 3);
    assert(tail.skip(1) =~= seq![]);
    let last = styled.put(c);
    assert(start.read(text, palette) == last);
    assert(last.line =~= seq![(c, styled.style)]);
    assert(last.line.drop_last() =~= seq![]);
    reveal_with_fuel(grouped, 2);
    assert(grouped(last.line) =~= seq![Run { text: seq![c], style: styled.style }]);
    assert(last.flushed().runs =~= grouped(last.line));
}

proof fn lemma_links_are_not_encoded(a: Style, link: Option<Seq<char>>)
    ensures
        encoded_sgr(Style { hyperlink: link, ..a }) == encoded_sgr(a),
{
    reveal(attribute_pieces);
}

/// Two styles are encoded alike if and only if they differ at most in their
/// links.
pub proof fn encoding_tells_styles_apart(a: Style, b: Style)
    ensures
        encoded_sgr(a) == encoded_sgr(b) <==> a == (Style { hyperlink: a.hyperlink, ..b }),
{
    if encoded_sgr(a) == encoded_sgr(b) {
        let ja = crate::text::joined(sgr_pieces(a), seq![';']);
        let jb = crate::text::joined(sgr_pieces(b), seq![';']);
        assert(encoded_sgr(a).len() == ja.len() + 3);
        assert(encoded_sgr(b).len() == jb.len() + 3);
        assert(ja =~= encoded_sgr(a).subrange(2, 2 + ja.len() as int));
        assert(jb =~= encoded_sgr(b).subrange(2, 2 + jb.len() as int));
        encoding_restores_the_style(a, plain_style(), seq![]);
        encoding_restores_the_style(b, plain_style(), seq![]);
    }
    lemma_links_are_not_encoded(b, a.hyperlink);
}

/// The characters of a line of cells.
pub open spec fn cell_text(cells: Seq<(char, Style)>) -> Seq<char> {
    Seq::new(cells.len(), |i: int| cells[i].0)
}

/// Grouping keeps the text.
pub proof fn grouping_keeps_text(cells: Seq<(char, Style)>)
    ensures
        flat(grouped(cells)) == cell_text(cells),
    decreases cells.len(),
{
    if cells.len() > 0 {
        let before = grouped(cells.drop_last());
        let g = grouped(cells);
        grouping_keeps_text(cells.drop_last());
        let (c, style) = cells.last();
        if before.len() > 0 && before.last().style == style {
            assert(g.drop_last() =~= before.drop_last());
            assert(flat(g) =~= flat(before).push(c));
        } else {
            assert(g.drop_last() =~= before);
            assert(flat(g) =~= flat(before).push(c));
        }
        assert(cell_text(cells) =~= cell_text(cells.drop_last()).push(c));
    } else {
        assert(cell_text(cells) =~= seq![]);
    }
}

/// Neighbouring runs of one line differ in style.
pub proof fn groups_are_as_long_as_can_be(cells: Seq<(char, Style)>, i: int)
    requires
        0 <= i < grouped(cells).len() - 1,
    ensures
        grouped(cells)[i].style != grouped(cells)[i + 1].style,
    decreases cells.len(),
{
    if cells.len() > 0 {
        let before = grouped(cells.drop_last());
        if i < before.len() - 1 {
            groups_are_as_long_as_can_be(cells.drop_last(), i);
        }
    }
}

pub(super) proof fn lemma_flat_concat(a: Seq<Run>, b: Seq<Run>)
    ensures
        flat(a + b) == flat(a) + flat(b),
    decreases b.len(),
{
    if b.len() == 0 {
        assert(a + b =~= a);
        assert(flat(a) + flat(b) =~= flat(a));
    } else {
        lemma_flat_concat(a, b.drop_last());
        assert((a + b).drop_last() =~= a + b.drop_last());
        assert(flat(a + b) =~= flat(a) + flat(b));
    }
}

pub(super) proof fn lemma_flat_one(r: Run)
    ensures
        flat(seq![r]) == r.text,
{
    reveal_with_fuel(flat, 2);
    assert(seq![r].drop_last() =~= seq![]);
    assert(flat(seq![r]) =~= r.text);
}

/// Printable characters and newlines only.
pub open spec fn plain_text(s: Seq<char>) -> bool {
    forall|i: int| 0 <= i < s.len() ==> #[trigger] s[i] >= ' ' || s[i] == '\n'
}

proof fn lemma_flushed_text(p: Page)
    ensures
        flat(p.flushed().runs) == flat(p.runs) + cell_text(p.line),
{
    lemma_flat_concat(p.runs, grouped(p.line));
    grouping_keeps_text(p.line);
}

proof fn lemma_plain_step(p: Page, s: Seq<char>, palette: Seq<Rgb>)
    requires
        s.len() > 0,
        s[0] >= ' ' || s[0] == '\n',
        p.col == p.line.len(),
    ensures
        p.step(s, palette).col == p.step(s, palette).line.len(),
        flat(p.step(s, palette).runs) + cell_text(p.step(s, palette).line) == (flat(p.runs)
            + cell_text(p.line)).push(s[0]),
        token_len(s) == 1,
{
    let c = s[0];
    let q = p.step(s, palette);
    if c == '\n' {
        lemma_flushed_text(p);
        assert(q.runs.drop_last() =~= p.flushed().runs);
        assert(q.runs.last().text =~= seq!['\n']);
        assert(cell_text(q.line) =~= seq![]);
        assert(flat(q.runs) + cell_text(q.line) =~= (flat(p.runs) + cell_text(p.line)).push(c));
    } else {
        assert(q == p.put(c));
        assert(q.line =~= p.line.push((c, p.style)));
        assert(cell_text(q.line) =~= cell_text(p.line).push(c));
        assert(flat(q.runs) + cell_text(q.line) =~= (flat(p.runs) + cell_text(p.line)).push(c));
    }
}

proof fn lemma_plain_read(p: Page, s: Seq<char>, palette: Seq<Rgb>)
    requires
        plain_text(s),
        p.col == p.line.len(),
    ensures
        flat(p.read(s, palette).flushed().runs) == flat(p.runs) + cell_text(p.line) + s,
    decreases s.len(),
{
    if s.len() == 0 {
        lemma_flushed_text(p);
        assert(flat(p.runs) + cell_text(p.line) + s =~= flat(p.runs) + cell_text(p.line));
    } else {
        let q = p.step(s, palette);
        let rest = s.skip(1);
        assert(s[0] >= ' ' || s[0] == '\n');
        lemma_plain_step(p, s, palette);
        assert forall|i: int| 0 <= i < rest.len() implies #[trigger] rest[i] >= ' ' || rest[i]
            == '\n' by {
            assert(rest[i] == s[i + 1]);
        }
        lemma_plain_read(q, rest, palette);
        assert(p.read(s, palette) == q.read(rest, palette));
        assert((flat(p.runs) + cell_text(p.line)).push(s[0]) + rest =~= flat(p.runs) + cell_text(
            p.line,
        ) + s);
    }
}

/// The text of the runs of a plain text is that text.
pub proof fn plain_text_stays(s: Seq<char>, palette: Seq<Rgb>)
    requires
        plain_text(s),
    ensures
        flat(styled_runs(s, palette)) == s,
{
    lemma_plain_read(empty_page(), s, palette);
    assert(flat(empty_page().runs) + cell_text(empty_page().line) + s =~= s);
}

proof fn lemma_overwrite(p: Page, s: Seq<char>, palette: Seq<Rgb>)
    requires
        forall|i: int| 0 <= i < s.len() ==> #[trigger] s[i] >= ' ',
        p.col <= p.line.len(),
    ensures
        p.read(s, palette).line == p.line.take(p.col as int) + Seq::new(
            s.len(),
            |i: int| (s[i], p.style),
        ) + (if p.col + s.len() <= p.line.len() {
            p.line.skip(p.col as int + s.len())
        } else {
            seq![]
        }),
        p.read(s, palette).col == p.col + s.len(),
        p.read(s, palette).style == p.style,
        p.read(s, palette).runs == p.runs,
    decreases s.len(),
{
    if s.len() == 0 {
        assert(p.line =~= p.line.take(p.col as int) + Seq::new(0, |i: int| (s[i], p.style))
            + p.line.skip(p.col as int));
    } else {
        let c = s[0];
        let q = p.step(s, palette);
        let rest = s.skip(1);
        assert(c >= ' ');
        assert(token_len(s) == 1);
        assert forall|i: int| 0 <= i < rest.len() implies #[trigger] rest[i] >= ' ' by {
            assert(rest[i] == s[i + 1]);
        }
        assert(q == p.put(c));
        lemma_overwrite(q, rest, palette);
        let new = p.line.take(p.col as int) + Seq::new(s.len(), |i: int| (s[i], p.style)) + (if p.col
            + s.len() <= p.line.len() {
            p.line.skip(p.col as int + s.len())
        } else {
            seq![]
        });
        assert(q.read(rest, palette).line =~= new);
    }
}

proof fn lemma_read_pieces(p: Page, a: Seq<char>, b: Seq<char>, palette: Seq<Rgb>)
    requires
        forall|i: int| 0 <= i < a.len() ==> #[trigger] a[i] != '\x1b',
    ensures
        p.read(a + b, palette) == p.read(a, palette).read(b, palette),
    decreases a.len(),
{
    if a.len() == 0 {
        assert(a + b =~= b);
    } else {
        let s = a + b;
        assert(a[0] != '\x1b');
        assert(s[0] == a[0]);
        assert(token_len(s) == 1);
        assert(token_len(a) == 1);
        assert(s.skip(1) =~= a.skip(1) + b);
        assert forall|i: int| 0 <= i < a.skip(1).len() implies #[trigger] a.skip(1)[i] != '\x1b' by {
            assert(a.skip(1)[i] == a[i + 1]);
        }
        assert(p.step(s, palette) == p.step(a, palette));
        lemma_read_pieces(p.step(a, palette), a.skip(1), b, palette);
    }
}

/// A line that is drawn again behind a carriage return collapses to its final
/// frame, if that is no shorter.
pub proof fn redrawn_line_collapses(a: Seq<char>, b: Seq<char>, palette: Seq<Rgb>)
    requires
        forall|i: int| 0 <= i < a.len() ==> #[trigger] a[i] >= ' ',
        forall|i: int| 0 <= i < b.len() ==> #[trigger] b[i] >= ' ',
        a.len() <= b.len(),
    ensures
        styled_runs(a.push('\r') + b, palette) == styled_runs(b, palette),
{
    let start = empty_page();
    let first = a.push('\r');
    assert forall|i: int| 0 <= i < first.len() implies #[trigger] first[i] != '\x1b' by {
        if i < a.len() {
            assert(first[i] == a[i]);
        }
    }
    lemma_read_pieces(start, first, b, palette);
    assert forall|i: int| 0 <= i < a.len() implies #[trigger] a[i] != '\x1b' by {
        assert(a[i] >= ' ');
    }
    assert(first =~= a + seq!['\r']);
    lemma_read_pieces(start, a, seq!['\r'], palette);
    lemma_overwrite(start, a, palette);
    let mid = start.read(a, palette);
    reveal_with_fuel(Page::read, 2);
    assert(mid.read(seq!['\r'], palette) == Page { col: 0, ..mid });
    let again = Page { col: 0, ..mid };
    lemma_overwrite(again, b, palette);
    lemma_overwrite(start, b, palette);
    assert(again.read(b, palette).line =~= start.read(b, palette).line);
    assert(again.read(b, palette) =~= start.read(b, palette));
}

/// A truncated list of runs holds the first characters of the whole.
pub proof fn truncation_keeps_a_prefix(runs: Seq<Run>, max: nat)
    ensures
        flat(truncated(runs, max)) == flat(runs).take(
            if max <= flat(runs).len() {
                max as int
            } else {
                flat(runs).len() as int
            },
        ),
    decreases runs.len(),
{
    if runs.len() == 0 {
        assert(flat(truncated(runs, max)) =~= flat(runs).take(0));
    } else {
        let r = runs[0];
        let tail = runs.drop_first();
        assert(runs =~= seq![r] + tail);
        lemma_flat_concat(seq![r], tail);
        lemma_flat_one(r);
        let t = flat(runs);
        if r.text.len() <= max {
            let left = (max - r.text.len()) as nat;
            truncation_keeps_a_prefix(tail, left);
            lemma_flat_concat(seq![r], truncated(tail, left));
            assert(flat(truncated(runs, max)) =~= t.take(
                if max <= t.len() {
                    max as int
                } else {
                    t.len() as int
                },
            ));
        } else if max > 0 {
            let cut = Run { text: r.text.take(max as int), style: r.style };
            lemma_flat_one(cut);
            assert(cut.text =~= t.take(max as int));
        } else {
            assert(flat(truncated(runs, max)) =~= t.take(0));
        }
    }
}

/// Nothing before the end of an OSC sequence ends it.
proof fn lemma_osc_open(s: Seq<char>, j: int)
    requires
        0 <= j < osc_len(s),
    ensures
        !osc_ends_at(s, j),
        osc_len(s) <= s.len(),
    decreases s.len(),
{
    osc_lies_within(s);
    if s.len() > 0 && j > 0 {
        let t = s.drop_first();
        lemma_osc_open(t, j - 1);
        assert(t[j - 1] == s[j]);
        assert(j + 1 < s.len() ==> t[j] == s[j + 1]);
    }
}

/// An encoded style in front of a text sets the style in which the text is
/// read; a link in force stays.
pub proof fn reading_an_encoded_style(p: Page, s: Style, rest: Seq<char>, palette: Seq<Rgb>)
    ensures
        p.read(encoded_sgr(s) + rest, palette) == (Page {
            style: Style { hyperlink: p.style.hyperlink, ..s },
            ..p
        }).read(rest, palette),
{
    let j = crate::text::joined(sgr_pieces(s), seq![';']);
    let text = encoded_sgr(s) + rest;
    let body = text.skip(2);
    lemma_chunks_of_pieces(s);
    encoding_restores_the_style(s, p.style, palette);
    assert(text[0] == '\x1b' && text[1] == '[');
    assert forall|k: int| 0 <= k < j.len() implies !('@' <= #[trigger] body[k] <= '~') by {
        assert(body[k] == j[k]);
    }
    assert(body[j.len() as int] == 'm');
    lemma_csi_len(body, j.len() as int);
    assert(text.subrange(2, 2 + j.len() as int) =~= j);
    assert(text.skip(token_len(text) as int) =~= rest);
}

/// A link that ends where it is meant to end: its text holds no terminator of
/// an OSC sequence.
pub open spec fn link_closes(uri: Seq<char>) -> bool {
    uri.len() > 0 && osc_len(uri + seq!['\x1b', '\\']) == uri.len()
}

/// An OSC 8 sequence in front of a text sets the link of the text.
pub proof fn reading_a_link(p: Page, uri: Seq<char>, rest: Seq<char>, palette: Seq<Rgb>)
    requires
        uri.len() == 0 || link_closes(uri),
    ensures
        p.read(seq!['\x1b', ']', '8', ';', ';'] + uri + seq!['\x1b', '\\'] + rest, palette) == (
        Page {
            style: Style {
                hyperlink: if uri.len() == 0 {
                    None
                } else {
                    Some(uri)
                },
                ..p.style
            },
            ..p
        }).read(rest, palette),
{
    let st = seq!['\x1b', '\\'];
    let text = seq!['\x1b', ']', '8', ';', ';'] + uri + st + rest;
    let body = text.skip(2);
    let n = 3 + uri.len() as int;
    let closed = uri + st;
    assert forall|j: int| 0 <= j < n implies !#[trigger] osc_ends_at(body, j) by {
        if j >= 3 {
            lemma_osc_open(closed, j - 3);
            assert(body[j] == closed[j - 3]);
            assert(body[j + 1] == closed[j - 2]);
        }
    }
    assert(body[n] == '\x1b' && body[n + 1] == '\\');
    assert(osc_ends_at(body, n));
    lemma_osc_len(body, n);
    let payload = body.take(n);
    reveal_strlit("8;");
    assert(payload.subrange(0, 2) =~= "8;"@);
    let tail = payload.skip(2);
    assert(tail[0] == ';');
    crate::text::lemma_until_at(tail, ';', 0);
    assert(tail.skip(1) =~= uri);
    assert(token_len(text) == n + 4);
    assert(text.skip(token_len(text) as int) =~= rest);
}

/// A printable character in front of a text is written first.
pub proof fn reading_a_character(p: Page, c: char, rest: Seq<char>, palette: Seq<Rgb>)
    requires
        c >= ' ',
    ensures
        p.read(seq![c] + rest, palette) == p.put(c).read(rest, palette),
{
    let text = seq![c] + rest;
    assert(text.skip(1) =~= rest);
}

/// A newline in front of a text ends the line.
pub proof fn reading_a_newline(p: Page, rest: Seq<char>, palette: Seq<Rgb>)
    ensures
        p.read(seq!['\n'] + rest, palette) == (Page {
            runs: p.flushed().runs.push(Run { text: seq!['\n'], style: plain_style() }),
            col: 0,
            ..p.flushed()
        }).read(rest, palette),
{
    let text = seq!['\n'] + rest;
    assert(text.skip(1) =~= rest);
}

} // verus!
