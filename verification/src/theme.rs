//! The style sheet that follows the theme.

use crate::terminal::ansi::Rgb;
use crate::text::{chars_of, push_decimal, push_text, text_of};
use vstd::prelude::*;

verus! {

/// The parts of a colour, separated by commas.
pub open spec fn parts_of(c: Rgb) -> Seq<char> {
    crate::text::decimal(c.r as nat) + ","@ + crate::text::decimal(c.g as nat) + ","@
        + crate::text::decimal(c.b as nat)
}

/// A colour in a style sheet.
pub open spec fn solid(c: Rgb) -> Seq<char> {
    "rgb("@ + parts_of(c) + ")"@
}

/// A translucent colour in a style sheet.
pub open spec fn faded(c: Rgb, opacity: Seq<char>) -> Seq<char> {
    "rgba("@ + parts_of(c) + ","@ + opacity + ")"@
}

/// The style sheet in a theme's colours: the scroll bars, the top bar and the
/// list of tabs.
pub open spec fn style_sheet(paper: Rgb, ink: Rgb) -> Seq<char> {
    ".terminal-box scrollbar { background-color: "@ + solid(paper)
        + "; }\n             .terminal-box scrollbar trough { background-color: "@ + solid(paper)
        + "; }\n             .terminal-box scrollbar slider { background-color: "@ + faded(
        ink,
        "0.4"@,
    ) + "; }\n             .terminal-box scrollbar slider:hover { background-color: "@ + faded(
        ink,
        "0.7"@,
    ) + "; }\n             .top-bar { background-color: "@ + solid(paper) + "; color: "@ + solid(ink)
        + "; }\n             .top-bar button { color: "@ + solid(ink)
        + "; }\n             .tab-strip { background-color: "@ + solid(paper)
        + "; }\n             .tab-strip-btn { color: "@ + faded(ink, "0.6"@)
        + "; }\n             .tab-strip-btn:checked { color: "@ + solid(ink) + "; }"@
}

fn push_parts(out: &mut Vec<char>, c: Rgb)
    ensures
        final(out)@ == old(out)@ + parts_of(c),
{
    let ghost before = out@;
    push_decimal(out, c.r as u64);
    push_text(out, ",");
    push_decimal(out, c.g as u64);
    push_text(out, ",");
    push_decimal(out, c.b as u64);
    assert(out@ =~= before + parts_of(c));
}

fn push_solid(out: &mut Vec<char>, c: Rgb)
    ensures
        final(out)@ == old(out)@ + solid(c),
{
    let ghost before = out@;
    push_text(out, "rgb(");
    push_parts(out, c);
    push_text(out, ")");
    assert(out@ =~= before + solid(c));
}

fn push_faded(out: &mut Vec<char>, c: Rgb, opacity: &str)
    ensures
        final(out)@ == old(out)@ + faded(c, opacity@),
{
    let ghost before = out@;
    push_text(out, "rgba(");
    push_parts(out, c);
    push_text(out, ",");
    push_text(out, opacity);
    push_text(out, ")");
    assert(out@ =~= before + faded(c, opacity@));
}

/// Writes the style sheet in a theme's colours.
pub fn dynamic_css(background: Rgb, foreground: Rgb) -> (res: String)
    ensures
        res@ == style_sheet(background, foreground),
{
    let mut out: Vec<char> = chars_of(".terminal-box scrollbar { background-color: ");
    push_solid(&mut out, background);
    push_text(&mut out, "; }\n             .terminal-box scrollbar trough { background-color: ");
    push_solid(&mut out, background);
    push_text(&mut out, "; }\n             .terminal-box scrollbar slider { background-color: ");
    push_faded(&mut out, foreground, "0.4");
    push_text(
        &mut out,
        "; }\n             .terminal-box scrollbar slider:hover { background-color: ",
    );
    push_faded(&mut out, foreground, "0.7");
    push_text(&mut out, "; }\n             .top-bar { background-color: ");
    push_solid(&mut out, background);
    push_text(&mut out, "; color: ");
    push_solid(&mut out, foreground);
    push_text(&mut out, "; }\n             .top-bar button { color: ");
    push_solid(&mut out, foreground);
    push_text(&mut out, "; }\n             .tab-strip { background-color: ");
    push_solid(&mut out, background);
    push_text(&mut out, "; }\n             .tab-strip-btn { color: ");
    push_faded(&mut out, foreground, "0.6");
    push_text(&mut out, "; }\n             .tab-strip-btn:checked { color: ");
    push_solid(&mut out, foreground);
    push_text(&mut out, "; }");
    text_of(out.as_slice())
}

} // verus!
