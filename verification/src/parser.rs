//! The OSC/CSI stream parser. It splits a raw PTY byte stream into semantic
//! [`ParserEvent`]s: display bytes pass through, while the OSC 133
//! shell-integration marks, OSC 7 working directories, OSC 52 clipboard
//! writes, alt-screen toggles and APC sequences that drive the block view are
//! taken out.

use vstd::prelude::*;
use vstd::slice::slice_subrange;

use crate::base64::read_digits;
use crate::text::{
    chars_of, find_char, first_byte, is_text, parse_i32, parse_u32, split_bytes, split_chars, strip_prefix,
    text_of, utf8_str, widen,
};

verus! {

// ---------------------------------------------------------------------------
// Events
// ---------------------------------------------------------------------------

/// Events emitted by the stream parser.
#[derive(Debug)]
pub enum ParserEvent {
    /// Raw bytes that should be displayed verbatim.
    Bytes(Vec<u8>),
    /// OSC 133 ;A — prompt about to render.
    PromptStart,
    /// OSC 133 ;B — prompt finished, waiting for user input.
    PromptEnd,
    /// OSC 133 ;C — user pressed Enter, command is executing.
    CommandStart,
    /// OSC 133 ;D;<code> — command finished with exit code.
    CommandEnd(i32),
    /// OSC 7 — shell reported a new working directory.
    CwdUpdate(String),
    /// CSI ? 1049 h — alt screen entered (vim, less, etc.)
    AltScreenEnter,
    /// CSI ? 1049 l — alt screen left.
    AltScreenLeave,
    /// OSC 52 — application set clipboard content.
    ClipboardSet(String),
    /// APC sequence (ESC _) — Kitty graphics protocol or similar.
    ApcSequence(Vec<u8>),
}

/// The mathematical value of a [`ParserEvent`].
pub enum Event {
    Bytes(Seq<u8>),
    PromptStart,
    PromptEnd,
    CommandStart,
    CommandEnd(int),
    CwdUpdate(Seq<char>),
    AltScreenEnter,
    AltScreenLeave,
    ClipboardSet(Seq<char>),
    ApcSequence(Seq<u8>),
}

impl View for ParserEvent {
    type V = Event;

    open spec fn view(&self) -> Event {
        match self {
            ParserEvent::Bytes(b) => Event::Bytes(b@),
            ParserEvent::PromptStart => Event::PromptStart,
            ParserEvent::PromptEnd => Event::PromptEnd,
            ParserEvent::CommandStart => Event::CommandStart,
            ParserEvent::CommandEnd(n) => Event::CommandEnd(*n as int),
            ParserEvent::CwdUpdate(s) => Event::CwdUpdate(s@),
            ParserEvent::AltScreenEnter => Event::AltScreenEnter,
            ParserEvent::AltScreenLeave => Event::AltScreenLeave,
            ParserEvent::ClipboardSet(s) => Event::ClipboardSet(s@),
            ParserEvent::ApcSequence(b) => Event::ApcSequence(b@),
        }
    }
}

impl Clone for ParserEvent {
    fn clone(&self) -> (res: ParserEvent)
        ensures
            res@ == self@,
    {
        match self {
            ParserEvent::Bytes(b) => ParserEvent::Bytes(clone_bytes(b)),
            ParserEvent::PromptStart => ParserEvent::PromptStart,
            ParserEvent::PromptEnd => ParserEvent::PromptEnd,
            ParserEvent::CommandStart => ParserEvent::CommandStart,
            ParserEvent::CommandEnd(n) => ParserEvent::CommandEnd(*n),
            ParserEvent::CwdUpdate(s) => ParserEvent::CwdUpdate(s.clone()),
            ParserEvent::AltScreenEnter => ParserEvent::AltScreenEnter,
            ParserEvent::AltScreenLeave => ParserEvent::AltScreenLeave,
            ParserEvent::ClipboardSet(s) => ParserEvent::ClipboardSet(s.clone()),
            ParserEvent::ApcSequence(b) => ParserEvent::ApcSequence(clone_bytes(b)),
        }
    }
}

fn clone_bytes(b: &Vec<u8>) -> (res: Vec<u8>)
    ensures
        res@ == b@,
{
    let mut out: Vec<u8> = Vec::new();
    out.extend_from_slice(b.as_slice());
    assert(out@ =~= b@);
    out
}

/// The values of a list of events.
pub open spec fn event_views(s: Seq<ParserEvent>) -> Seq<Event> {
    Seq::new(s.len(), |i: int| s[i]@)
}

proof fn lemma_event_push(s: Seq<ParserEvent>, e: ParserEvent)
    ensures
        event_views(s.push(e)) == event_views(s).push(e@),
{
    assert(event_views(s.push(e)) =~= event_views(s).push(e@));
}

// ---------------------------------------------------------------------------
// Modes
// ---------------------------------------------------------------------------

/// Which mouse-tracking mode the shell asked for. The active VTE in block view
/// has no real PTY, so VTE never auto-generates mouse reports; the caller
/// drives reporting itself by reading this state.
#[derive(Clone, Copy, Debug, PartialEq, Eq, Structural)]
pub enum MouseMode {
    Off,
    /// `?9` — only button presses (no release).
    X10,
    /// `?1000` — button press + release.
    Normal,
    /// `?1002` — press/release + motion while a button is held.
    ButtonEvent,
    /// `?1003` — press/release + all motion.
    AnyEvent,
}

/// Wire format for mouse reports. Set by `?1006`, `?1015`, `?1005` (or default
/// xterm encoding if none is enabled).
#[derive(Clone, Copy, Debug, PartialEq, Eq, Structural)]
pub enum MouseEncoding {
    /// Legacy `\e[M` + 3 bytes (button + 32, col + 32, row + 32).
    Default,
    /// `?1006` — SGR: `\e[<b;col;row;{M|m}`.
    Sgr,
    /// `?1015` — urxvt: `\e[b;col;row;M`.
    Urxvt,
    /// `?1005` — UTF-8 encoded coordinates.
    Utf8,
}

impl Default for MouseMode {
    fn default() -> (res: MouseMode)
        ensures
            res == MouseMode::Off,
    {
        MouseMode::Off
    }
}

impl Default for MouseEncoding {
    fn default() -> (res: MouseEncoding)
        ensures
            res == MouseEncoding::Default,
    {
        MouseEncoding::Default
    }
}

/// The DEC private modes that the parser follows.
#[derive(Clone, Copy)]
pub struct Modes {
    /// `?2004` — pasted content is to be bracketed.
    pub bracketed_paste: bool,
    /// The mouse mode in force; of several that were switched on the one with
    /// the highest priority wins.
    pub mouse_mode: MouseMode,
    /// The encoding that was switched on last, until it is switched off.
    pub mouse_encoding: MouseEncoding,
    /// `?1004` — focus changes are to be reported.
    pub focus_events: bool,
}

/// How much a mouse mode reports: a mode of higher rank has priority.
pub open spec fn mouse_rank(m: MouseMode) -> nat {
    match m {
        MouseMode::Off => 0,
        MouseMode::X10 => 1,
        MouseMode::Normal => 2,
        MouseMode::ButtonEvent => 3,
        MouseMode::AnyEvent => 4,
    }
}

fn rank_of(m: MouseMode) -> (res: u8)
    ensures
        res == mouse_rank(m),
{
    match m {
        MouseMode::Off => 0,
        MouseMode::X10 => 1,
        MouseMode::Normal => 2,
        MouseMode::ButtonEvent => 3,
        MouseMode::AnyEvent => 4,
    }
}

/// The mouse mode after `m` was switched on or off.
pub open spec fn mouse_after(old_mode: MouseMode, m: MouseMode, enable: bool) -> MouseMode {
    if !enable {
        MouseMode::Off
    } else if mouse_rank(m) >= mouse_rank(old_mode) {
        m
    } else {
        old_mode
    }
}

fn switch_mouse(old_mode: MouseMode, m: MouseMode, enable: bool) -> (res: MouseMode)
    ensures
        res == mouse_after(old_mode, m, enable),
{
    if !enable {
        MouseMode::Off
    } else if rank_of(m) >= rank_of(old_mode) {
        m
    } else {
        old_mode
    }
}

/// The encoding after `e` was switched on or off. Switching off one that is not
/// in force changes nothing.
pub open spec fn encoding_after(
    current: MouseEncoding,
    e: MouseEncoding,
    enable: bool,
) -> MouseEncoding {
    if enable {
        e
    } else if current == e {
        MouseEncoding::Default
    } else {
        current
    }
}

/// The modes after the mode of number `n` was switched on or off. Unknown
/// numbers change nothing.
pub open spec fn mode_set(m: Modes, n: nat, enable: bool) -> Modes {
    if n == 2004 {
        Modes { bracketed_paste: enable, ..m }
    } else if n == 9 {
        Modes { mouse_mode: mouse_after(m.mouse_mode, MouseMode::X10, enable), ..m }
    } else if n == 1000 {
        Modes { mouse_mode: mouse_after(m.mouse_mode, MouseMode::Normal, enable), ..m }
    } else if n == 1002 {
        Modes { mouse_mode: mouse_after(m.mouse_mode, MouseMode::ButtonEvent, enable), ..m }
    } else if n == 1003 {
        Modes { mouse_mode: mouse_after(m.mouse_mode, MouseMode::AnyEvent, enable), ..m }
    } else if n == 1004 {
        Modes { focus_events: enable, ..m }
    } else if n == 1005 {
        Modes { mouse_encoding: encoding_after(m.mouse_encoding, MouseEncoding::Utf8, enable), ..m }
    } else if n == 1006 {
        Modes { mouse_encoding: encoding_after(m.mouse_encoding, MouseEncoding::Sgr, enable), ..m }
    } else if n == 1015 {
        Modes {
            mouse_encoding: encoding_after(m.mouse_encoding, MouseEncoding::Urxvt, enable),
            ..m
        }
    } else {
        m
    }
}

/// The number in one token of a `CSI ? Pm h/l`, behind an optional `?`.
pub open spec fn mode_number(token: Seq<u8>) -> Option<nat> {
    let t = if token.len() > 0 && token[0] == 0x3f {
        token.drop_first()
    } else {
        token
    };
    crate::text::unsigned(crate::text::widened(t), u32::MAX as nat)
}

/// The modes after each numbered token was applied in order.
pub open spec fn modes_set(m: Modes, tokens: Seq<Seq<u8>>, enable: bool) -> Modes
    decreases tokens.len(),
{
    if tokens.len() == 0 {
        m
    } else {
        let before = modes_set(m, tokens.drop_last(), enable);
        match mode_number(tokens.last()) {
            Some(n) => mode_set(before, n, enable),
            None => before,
        }
    }
}

// ---------------------------------------------------------------------------
// OSC payloads
// ---------------------------------------------------------------------------

/// The event of an OSC 133 mark.
pub open spec fn mark_event(rest: Seq<char>) -> Option<Event> {
    let fields = crate::text::split_on(rest, ';');
    if fields[0] == "A"@ {
        Some(Event::PromptStart)
    } else if fields[0] == "B"@ {
        Some(Event::PromptEnd)
    } else if fields[0] == "C"@ {
        Some(Event::CommandStart)
    } else if fields[0] == "D"@ {
        Some(
            Event::CommandEnd(
                if fields.len() > 1 {
                    match crate::text::signed32(fields[1]) {
                        Some(n) => n,
                        None => 0,
                    }
                } else {
                    0
                },
            ),
        )
    } else {
        None
    }
}

/// The part of an OSC 7 argument that holds the path: what follows the host of
/// a `file://` URI, or all of it.
pub open spec fn cwd_part(rest: Seq<char>) -> Seq<char> {
    match crate::text::after_prefix(rest, "file://"@) {
        Some(uri) => if crate::text::until(uri, '/') < uri.len() {
            uri.skip(crate::text::until(uri, '/') as int)
        } else {
            uri
        },
        None => rest,
    }
}

/// The event of an OSC 7 report.
pub open spec fn cwd_event(rest: Seq<char>) -> Option<Event> {
    let path = percent_decoded(cwd_part(rest));
    if path.len() > 0 {
        Some(Event::CwdUpdate(path))
    } else {
        None
    }
}

/// The event of an OSC 52 clipboard write.
pub open spec fn clipboard_event(rest: Seq<char>) -> Option<Event> {
    let i = crate::text::until(rest, ';');
    if i >= rest.len() {
        None
    } else {
        let data = rest.skip(i as int + 1);
        if data == "?"@ {
            None
        } else {
            match base64_decoded(vstd::utf8::encode_utf8(data)) {
                Some(bytes) => if vstd::utf8::valid_utf8(bytes) {
                    Some(Event::ClipboardSet(vstd::utf8::decode_utf8(bytes)))
                } else {
                    None
                },
                None => None,
            }
        }
    }
}

/// The event that an OSC payload gives, if any. Sequences that the parser does
/// not interpret are put together again and pass through.
pub open spec fn osc_event(payload: Seq<u8>) -> Option<Event> {
    if !vstd::utf8::valid_utf8(payload) {
        None
    } else {
        let s = vstd::utf8::decode_utf8(payload);
        if crate::text::begins(s, "133;"@) {
            mark_event(s.skip("133;"@.len() as int))
        } else if crate::text::begins(s, "7;"@) {
            cwd_event(s.skip("7;"@.len() as int))
        } else if crate::text::begins(s, "52;"@) {
            clipboard_event(s.skip("52;"@.len() as int))
        } else {
            Some(Event::Bytes(seq![0x1bu8, 0x5du8] + payload + seq![0x07u8]))
        }
    }
}

/// The value of a hexadecimal digit.
pub open spec fn hex_value(b: u8) -> Option<nat> {
    if 0x30 <= b <= 0x39 {
        Some((b - 0x30) as nat)
    } else if 0x61 <= b <= 0x66 {
        Some((b - 0x61 + 10) as nat)
    } else if 0x41 <= b <= 0x46 {
        Some((b - 0x41 + 10) as nat)
    } else {
        None
    }
}

/// The bytes with every `%` and two hexadecimal digits replaced by the byte of
/// that number.
pub open spec fn unescaped(s: Seq<u8>) -> Seq<u8>
    decreases s.len(),
{
    if s.len() == 0 {
        seq![]
    } else if s[0] == 0x25 && s.len() > 2 && hex_value(s[1]) is Some && hex_value(s[2]) is Some {
        seq![(hex_value(s[1])->0 * 16 + hex_value(s[2])->0) as u8] + unescaped(s.skip(3))
    } else {
        seq![s[0]] + unescaped(s.skip(1))
    }
}

/// The percent-decoded text; the text itself if the decoded bytes are not
/// UTF-8.
pub open spec fn percent_decoded(s: Seq<char>) -> Seq<char> {
    let bytes = unescaped(vstd::utf8::encode_utf8(s));
    if vstd::utf8::valid_utf8(bytes) {
        vstd::utf8::decode_utf8(bytes)
    } else {
        s
    }
}

/// The bytes without padding signs and line breaks.
pub open spec fn without_padding(s: Seq<u8>) -> Seq<u8>
    decreases s.len(),
{
    if s.len() == 0 {
        seq![]
    } else if s.last() == 0x3d || s.last() == 0x0a || s.last() == 0x0d {
        without_padding(s.drop_last())
    } else {
        without_padding(s.drop_last()).push(s.last())
    }
}

/// The bytes of a base64 text, padding signs and line breaks left aside;
/// `None` if anything else in it is not a base64 digit.
pub open spec fn base64_decoded(s: Seq<u8>) -> Option<Seq<u8>> {
    let d = without_padding(s);
    if crate::base64::all_sextets(d) {
        Some(crate::base64::bytes_of(d))
    } else {
        None
    }
}

// ---------------------------------------------------------------------------
// The parser as a machine on bytes
// ---------------------------------------------------------------------------

/// Where in a sequence the parser stands.
pub enum Position {
    Ground,
    Esc,
    Csi(Seq<u8>),
    Osc(Seq<u8>),
    OscEsc(Seq<u8>),
    Apc(Seq<u8>),
    ApcEsc(Seq<u8>),
    Ignore,
    IgnoreEsc,
}

/// The parser with the display bytes and the events that it has gathered.
#[verifier::ext_equal]
pub struct Machine {
    pub position: Position,
    pub modes: Modes,
    pub pass: Seq<u8>,
    pub events: Seq<Event>,
}

/// The CSI parameters that select the alternate screen.
pub open spec fn selects_alt_screen(params: Seq<u8>) -> bool {
    ||| params == seq![0x3fu8, 0x34u8, 0x37u8]
    ||| params == seq![0x3fu8, 0x31u8, 0x30u8, 0x34u8, 0x37u8]
    ||| params == seq![0x3fu8, 0x31u8, 0x30u8, 0x34u8, 0x39u8]
}

/// The modes after a complete CSI sequence.
pub open spec fn csi_modes(m: Modes, params: Seq<u8>, last: u8) -> Modes {
    if (last == 0x68 || last == 0x6c) && params.len() > 0 && params[0] == 0x3f {
        modes_set(m, crate::text::split_on(params.drop_first(), 0x3b), last == 0x68)
    } else {
        m
    }
}

impl Machine {
    /// Gathered display bytes become an event.
    pub open spec fn flushed(self) -> Machine {
        if self.pass.len() == 0 {
            self
        } else {
            Machine { pass: seq![], events: self.events.push(Event::Bytes(self.pass)), ..self }
        }
    }

    /// The event follows what was gathered so far.
    pub open spec fn emit(self, e: Option<Event>) -> Machine {
        match e {
            Some(e) => Machine { events: self.flushed().events.push(e), ..self.flushed() },
            None => self.flushed(),
        }
    }

    /// The machine after showing the bytes.
    pub open spec fn show(self, bytes: Seq<u8>) -> Machine {
        Machine { pass: self.pass + bytes, ..self }
    }

    /// The machine moved to the position.
    pub open spec fn at(self, position: Position) -> Machine {
        Machine { position, ..self }
    }

    /// One byte in the ground state.
    pub open spec fn ground_step(self, b: u8) -> Machine {
        if b == 0x1b {
            self.at(Position::Esc)
        } else {
            self.at(Position::Ground).show(seq![b])
        }
    }

    /// One byte behind ESC.
    pub open spec fn esc_step(self, b: u8) -> Machine {
        if b == 0x5b {
            self.at(Position::Csi(seq![]))
        } else if b == 0x5d {
            self.at(Position::Osc(seq![]))
        } else if b == 0x5f {
            self.at(Position::Apc(seq![]))
        } else if b == 0x50 || b == 0x5e {
            self.at(Position::Ignore)
        } else {
            self.at(Position::Ground).show(seq![0x1bu8, b])
        }
    }

    /// One byte inside a CSI sequence. The sequence passes through in one
    /// piece when it is complete, or when it has grown beyond all measure.
    pub open spec fn csi_step(self, buf: Seq<u8>, b: u8) -> Machine {
        let ground = self.at(Position::Ground);
        if 0x40 <= b <= 0x7e {
            if b == 0x68 && selects_alt_screen(buf) {
                ground.emit(Some(Event::AltScreenEnter))
            } else if b == 0x6c && selects_alt_screen(buf) {
                ground.emit(Some(Event::AltScreenLeave))
            } else {
                Machine { modes: csi_modes(self.modes, buf, b), ..ground }.show(
                    seq![0x1bu8, 0x5bu8] + buf + seq![b],
                )
            }
        } else if buf.len() + 1 > 4096 {
            ground.show(seq![0x1bu8, 0x5bu8] + buf.push(b))
        } else {
            self.at(Position::Csi(buf.push(b)))
        }
    }

    /// One byte of the stream.
    #[verifier::opaque]
    pub open spec fn step(self, b: u8) -> Machine {
        let ground = self.at(Position::Ground);
        match self.position {
            Position::Ground => self.ground_step(b),
            Position::Esc => self.esc_step(b),
            Position::Csi(buf) => self.csi_step(buf, b),
            Position::Osc(buf) => if b == 0x07 {
                ground.emit(osc_event(buf))
            } else if b == 0x1b {
                self.at(Position::OscEsc(buf))
            } else {
                self.at(Position::Osc(buf.push(b)))
            },
            Position::OscEsc(buf) => {
                let done = ground.emit(osc_event(buf));
                if b == 0x5c {
                    done
                } else {
                    done.show(seq![b])
                }
            },
            Position::Apc(buf) => if b == 0x07 {
                ground.emit(Some(Event::ApcSequence(buf)))
            } else if b == 0x1b {
                self.at(Position::ApcEsc(buf))
            } else {
                self.at(Position::Apc(buf.push(b)))
            },
            Position::ApcEsc(buf) => {
                let done = ground.emit(Some(Event::ApcSequence(buf)));
                if b == 0x5c {
                    done
                } else {
                    done.show(seq![b])
                }
            },
            Position::Ignore => if b == 0x07 {
                ground
            } else if b == 0x1b {
                self.at(Position::IgnoreEsc)
            } else {
                self
            },
            Position::IgnoreEsc => if b == 0x5c {
                ground
            } else {
                self.ground_step(b)
            },
        }
    }

    /// All bytes of `data`, in order.
    pub open spec fn run(self, data: Seq<u8>) -> Machine
        decreases data.len(),
    {
        if data.len() == 0 {
            self
        } else {
            self.run(data.drop_last()).step(data.last())
        }
    }

    /// One call of [`Parser::feed`]: the bytes in order, then what is left to
    /// display.
    pub open spec fn fed(self, data: Seq<u8>) -> Machine {
        Machine { pass: seq![], ..self }.run(data).flushed()
    }
}

/// Running over two pieces is running over the one and then over the other.
pub proof fn run_in_pieces(m: Machine, a: Seq<u8>, b: Seq<u8>)
    ensures
        m.run(a + b) == m.run(a).run(b),
    decreases b.len(),
{
    if b.len() == 0 {
        assert(a + b =~= a);
    } else {
        run_in_pieces(m, a, b.drop_last());
        assert((a + b).drop_last() =~= a + b.drop_last());
    }
}

pub(crate) proof fn lemma_run_two(m: Machine, a: u8, b: u8)
    ensures
        m.run(seq![a]) == m.step(a),
        m.run(seq![a, b]) == m.step(a).step(b),
{
    reveal_with_fuel(Machine::run, 3);
    assert(seq![a, b].drop_last() =~= seq![a]);
    assert(seq![a].drop_last() =~= seq![]);
}

/// In the ground state bytes without ESC are display bytes.
pub proof fn plain_bytes_pass(m: Machine, d: Seq<u8>)
    requires
        m.position is Ground,
        forall|i: int| 0 <= i < d.len() ==> d[i] != 0x1b,
    ensures
        m.run(d) == m.show(d),
    decreases d.len(),
{
    if d.len() == 0 {
        assert(m.show(d) =~= m);
    } else {
        reveal(Machine::step);
        plain_bytes_pass(m, d.drop_last());
        assert(m.run(d) =~= m.show(d));
    }
}

proof fn lemma_plain_then(start: Machine, before: Seq<u8>, d: Seq<u8>)
    requires
        start.run(before).position is Ground,
        forall|i: int| 0 <= i < d.len() ==> d[i] != 0x1b,
    ensures
        start.run(before + d) == start.run(before).show(d),
        start.run((before + d).push(0x1b)) == start.run(before).show(d).at(Position::Esc),
{
    reveal(Machine::step);
    run_in_pieces(start, before, d);
    plain_bytes_pass(start.run(before), d);
    assert((before + d).push(0x1b).drop_last() =~= before + d);
}

// ---------------------------------------------------------------------------
// The parser
// ---------------------------------------------------------------------------

enum State {
    Ground,
    /// Saw ESC, waiting for the next byte.
    Esc,
    /// Inside CSI (ESC [): collecting parameter and intermediate bytes.
    Csi { buf: Vec<u8> },
    /// Inside OSC (ESC ]): collecting bytes until ST (BEL or ESC \).
    Osc { buf: Vec<u8> },
    /// Just saw ESC while in OSC — the next byte should be '\' for ST.
    OscEsc { payload: Vec<u8> },
    /// Inside APC (ESC _): collecting bytes for Kitty graphics etc.
    Apc { buf: Vec<u8> },
    /// Saw ESC while in APC — the next byte should be '\' for ST.
    ApcEsc { payload: Vec<u8> },
    /// Inside DCS/PM — just consume until ST.
    Ignore,
    /// Saw ESC while in DCS/PM.
    IgnoreEsc,
}

impl View for State {
    type V = Position;

    closed spec fn view(&self) -> Position {
        match self {
            State::Ground => Position::Ground,
            State::Esc => Position::Esc,
            State::Csi { buf } => Position::Csi(buf@),
            State::Osc { buf } => Position::Osc(buf@),
            State::OscEsc { payload } => Position::OscEsc(payload@),
            State::Apc { buf } => Position::Apc(buf@),
            State::ApcEsc { payload } => Position::ApcEsc(payload@),
            State::Ignore => Position::Ignore,
            State::IgnoreEsc => Position::IgnoreEsc,
        }
    }
}

/// The stream parser.
pub struct Parser {
    state: State,
    modes: Modes,
}

impl Parser {
    /// Where in the stream the parser stands.
    pub closed spec fn position(&self) -> Position {
        self.state@
    }

    /// The modes in force.
    pub closed spec fn modes(&self) -> Modes {
        self.modes
    }

    /// The parser between two calls, with the events that were collected.
    pub open spec fn machine(&self, events: Seq<Event>) -> Machine {
        Machine { position: self.position(), modes: self.modes(), pass: seq![], events }
    }

    spec fn working(&self, pass: Seq<u8>, events: Seq<ParserEvent>) -> Machine {
        Machine { position: self.state@, modes: self.modes, pass, events: event_views(events) }
    }

    /// A parser at the start of a stream.
    pub fn new() -> (res: Parser)
        ensures
            res.position() == Position::Ground,
            res.modes() == (Modes {
                bracketed_paste: false,
                mouse_mode: MouseMode::Off,
                mouse_encoding: MouseEncoding::Default,
                focus_events: false,
            }),
    {
        Parser {
            state: State::Ground,
            modes: Modes {
                bracketed_paste: false,
                mouse_mode: MouseMode::Off,
                mouse_encoding: MouseEncoding::Default,
                focus_events: false,
            },
        }
    }

    /// True while the shell has `?2004` enabled — callers should wrap pasted
    /// content with `\e[200~` / `\e[201~` before writing to the PTY.
    pub fn bracketed_paste(&self) -> (res: bool)
        ensures
            res == self.modes().bracketed_paste,
    {
        self.modes.bracketed_paste
    }

    /// Currently active mouse-tracking mode, or `None` when reporting is off.
    pub fn mouse_mode(&self) -> (res: MouseMode)
        ensures
            res == self.modes().mouse_mode,
    {
        self.modes.mouse_mode
    }

    /// Wire encoding the next mouse report should use.
    pub fn mouse_encoding(&self) -> (res: MouseEncoding)
        ensures
            res == self.modes().mouse_encoding,
    {
        self.modes.mouse_encoding
    }

    /// True while `?1004` is enabled — callers should emit `\e[I` on focus-in,
    /// `\e[O` on focus-out.
    pub fn focus_events(&self) -> (res: bool)
        ensures
            res == self.modes().focus_events,
    {
        self.modes.focus_events
    }

    /// Applies each `?N` token from a `CSI ? Pm h/l` to the followed modes.
    /// `enable` is true for `h`, false for `l`. Unknown modes are ignored —
    /// they still pass through to the VTE.
    fn update_dec_private_modes(&mut self, params: &[u8], enable: bool)
        ensures
            final(self).modes == modes_set(
                old(self).modes,
                crate::text::split_on(params@, 0x3b),
                enable,
            ),
            final(self).state == old(self).state,
    {
        let tokens: Vec<&[u8]> = split_bytes(params, 0x3b);
        let ghost views = crate::text::views(tokens@);
        let mut i: usize = 0;
        while i < tokens.len()
            invariant
                i <= tokens.len(),
                views == crate::text::views(tokens@),
                self.modes == modes_set(old(self).modes, views.take(i as int), enable),
                self.state == old(self).state,
            decreases tokens.len() - i,
        {
            proof {
                assert(views.take(i + 1).drop_last() =~= views.take(i as int));
                assert(views.take(i + 1).last() == tokens@[i as int]@);
            }
            let mut token: &[u8] = tokens[i];
            if token.len() > 0 && token[0] == 0x3f {
                token = slice_subrange(token, 1, token.len());
                assert(token@ =~= tokens@[i as int]@.drop_first());
            }
            if let Some(n) = parse_u32(widen(token).as_slice()) {
                self.set_mode(n, enable);
            }
            i += 1;
        }
        assert(views.take(i as int) =~= views);
    }

    fn set_mode(&mut self, n: u32, enable: bool)
        ensures
            final(self).modes == mode_set(old(self).modes, n as nat, enable),
            final(self).state == old(self).state,
    {
        let m: Modes = self.modes;
        if n == 2004 {
            self.modes = Modes { bracketed_paste: enable, ..m };
        } else if n == 9 {
            self.modes = Modes {
                mouse_mode: switch_mouse(m.mouse_mode, MouseMode::X10, enable),
                ..m
            };
        } else if n == 1000 {
            self.modes = Modes {
                mouse_mode: switch_mouse(m.mouse_mode, MouseMode::Normal, enable),
                ..m
            };
        } else if n == 1002 {
            self.modes = Modes {
                mouse_mode: switch_mouse(m.mouse_mode, MouseMode::ButtonEvent, enable),
                ..m
            };
        } else if n == 1003 {
            self.modes = Modes {
                mouse_mode: switch_mouse(m.mouse_mode, MouseMode::AnyEvent, enable),
                ..m
            };
        } else if n == 1004 {
            self.modes = Modes { focus_events: enable, ..m };
        } else if n == 1005 {
            self.modes = Modes {
                mouse_encoding: switch_encoding(m.mouse_encoding, MouseEncoding::Utf8, enable),
                ..m
            };
        } else if n == 1006 {
            self.modes = Modes {
                mouse_encoding: switch_encoding(m.mouse_encoding, MouseEncoding::Sgr, enable),
                ..m
            };
        } else if n == 1015 {
            self.modes = Modes {
                mouse_encoding: switch_encoding(m.mouse_encoding, MouseEncoding::Urxvt, enable),
                ..m
            };
        }
    }

    /// Handles one byte inside a CSI sequence.
    fn csi_byte(&mut self, buf: Vec<u8>, b: u8, pass: &mut Vec<u8>, events: &mut Vec<ParserEvent>)
        requires
            old(self).state is Ground,
        ensures
            final(self).working(final(pass)@, final(events)@) == old(self).working(
                old(pass)@,
                old(events)@,
            ).csi_step(buf@, b),
    {
        let ghost m = self.working(pass@, events@);
        if 0x40 <= b && b <= 0x7e {
            if b == 0x68 && is_alt_screen_mode(buf.as_slice()) {
                emit(ParserEvent::AltScreenEnter, pass, events);
            } else if b == 0x6c && is_alt_screen_mode(buf.as_slice()) {
                emit(ParserEvent::AltScreenLeave, pass, events);
            } else {
                if (b == 0x68 || b == 0x6c) && buf.len() > 0 && buf[0] == 0x3f {
                    let params = slice_subrange(buf.as_slice(), 1, buf.len());
                    assert(params@ =~= buf@.drop_first());
                    self.update_dec_private_modes(params, b == 0x68);
                }
                pass.push(0x1b);
                pass.push(0x5b);
                pass.extend_from_slice(buf.as_slice());
                pass.push(b);
                assert(pass@ =~= m.pass + (seq![0x1bu8, 0x5bu8] + buf@ + seq![b]));
            }
        } else if buf.len() >= 4096 {
            pass.push(0x1b);
            pass.push(0x5b);
            pass.extend_from_slice(buf.as_slice());
            pass.push(b);
            assert(pass@ =~= m.pass + (seq![0x1bu8, 0x5bu8] + buf@.push(b)));
        } else {
            let mut buf = buf;
            buf.push(b);
            self.state = State::Csi { buf };
        }
    }

    /// Handles one byte in any state.
    fn take_byte(&mut self, b: u8, pass: &mut Vec<u8>, events: &mut Vec<ParserEvent>)
        ensures
            final(self).working(final(pass)@, final(events)@) == old(self).working(
                old(pass)@,
                old(events)@,
            ).step(b),
    {
        let ghost m = self.working(pass@, events@);
        proof {
            reveal(Machine::step);
        }
        let mut state: State = State::Ground;
        core::mem::swap(&mut state, &mut self.state);
        match state {
            State::Ground => {
                self.ground_byte(b, pass);
                assert(self.working(pass@, events@) =~= m.step(b));
            },
            State::Esc => {
                if b == 0x5b {
                    self.state = State::Csi { buf: Vec::new() };
                } else if b == 0x5d {
                    self.state = State::Osc { buf: Vec::new() };
                } else if b == 0x5f {
                    self.state = State::Apc { buf: Vec::new() };
                } else if b == 0x50 || b == 0x5e {
                    self.state = State::Ignore;
                } else {
                    pass.push(0x1b);
                    pass.push(b);
                    assert(pass@ =~= m.pass + seq![0x1bu8, b]);
                }
                assert(self.working(pass@, events@) =~= m.step(b));
            },
            State::Csi { buf } => {
                self.csi_byte(buf, b, pass, events);
            },
            State::Osc { mut buf } => {
                if b == 0x07 {
                    flush(pass, events);
                    handle_osc(buf.as_slice(), events);
                } else if b == 0x1b {
                    self.state = State::OscEsc { payload: buf };
                } else {
                    buf.push(b);
                    self.state = State::Osc { buf };
                }
                assert(self.working(pass@, events@) =~= m.step(b));
            },
            State::OscEsc { payload } => {
                flush(pass, events);
                handle_osc(payload.as_slice(), events);
                if b != 0x5c {
                    pass.push(b);
                }
                assert(self.working(pass@, events@) =~= m.step(b));
            },
            State::Apc { mut buf } => {
                if b == 0x07 {
                    emit(ParserEvent::ApcSequence(buf), pass, events);
                } else if b == 0x1b {
                    self.state = State::ApcEsc { payload: buf };
                } else {
                    buf.push(b);
                    self.state = State::Apc { buf };
                }
                assert(self.working(pass@, events@) =~= m.step(b));
            },
            State::ApcEsc { payload } => {
                emit(ParserEvent::ApcSequence(payload), pass, events);
                if b != 0x5c {
                    pass.push(b);
                }
                assert(self.working(pass@, events@) =~= m.step(b));
            },
            State::Ignore => {
                if b == 0x07 {
                } else if b == 0x1b {
                    self.state = State::IgnoreEsc;
                } else {
                    self.state = State::Ignore;
                }
                assert(self.working(pass@, events@) =~= m.step(b));
            },
            State::IgnoreEsc => {
                if b != 0x5c {
                    self.ground_byte(b, pass);
                }
                assert(self.working(pass@, events@) =~= m.step(b));
            },
        }
    }

    fn ground_byte(&mut self, b: u8, pass: &mut Vec<u8>)
        requires
            old(self).state is Ground,
        ensures
            b == 0x1b ==> final(self).state is Esc && final(pass)@ == old(pass)@,
            b != 0x1b ==> final(self).state is Ground && final(pass)@ == old(pass)@.push(b),
            final(self).modes == old(self).modes,
    {
        if b == 0x1b {
            self.state = State::Esc;
        } else {
            pass.push(b);
        }
    }

    /// Splits `data` into events, which are appended to `events`.
    pub fn feed(&mut self, data: &[u8], events: &mut Vec<ParserEvent>)
        ensures
            final(self).machine(event_views(final(events)@)) == old(self).machine(
                event_views(old(events)@),
            ).fed(data@),
            event_views(final(events)@) == event_views(old(events)@) + old(self).machine(
                seq![],
            ).fed(data@).events,
    {
        let mut pass: Vec<u8> = Vec::new();
        let ghost start = self.machine(event_views(events@));
        // In the ground state only ESC changes the state, so whole runs of
        // bytes up to the next ESC are copied at once.
        let mut i: usize = 0;
        assert(data@.take(0) =~= seq![]);
        while i < data.len()
            invariant
                i <= data.len(),
                self.working(pass@, events@) == start.run(data@.take(i as int)),
            decreases data.len() - i,
        {
            if let State::Ground = self.state {
                let ghost m = self.working(pass@, events@);
                let rest = slice_subrange(data, i, data.len());
                match first_byte(0x1b, rest) {
                    Some(off) => {
                        let run = slice_subrange(rest, 0, off);
                        pass.extend_from_slice(run);
                        self.state = State::Esc;
                        proof {
                            lemma_plain_then(start, data@.take(i as int), run@);
                            assert((data@.take(i as int) + run@).push(0x1b) =~= data@.take(
                                i + off + 1,
                            ));
                            assert(self.working(pass@, events@) =~= m.show(run@).at(Position::Esc));
                        }
                        i = i + off + 1;
                    },
                    None => {
                        pass.extend_from_slice(rest);
                        proof {
                            lemma_plain_then(start, data@.take(i as int), rest@);
                            assert(data@.take(i as int) + rest@ =~= data@.take(
                                data@.len() as int,
                            ));
                            assert(self.working(pass@, events@) =~= m.show(rest@));
                        }
                        i = data.len();
                    },
                }
            } else {
                proof {
                    assert(data@.take(i + 1).drop_last() =~= data@.take(i as int));
                }
                self.take_byte(data[i], &mut pass, events);
                i += 1;
            }
        }
        proof {
            assert(data@.take(i as int) =~= data@);
            assert(Machine { pass: seq![], ..start } =~= start);
        }
        flush(&mut pass, events);
        proof {
            assert(self.machine(event_views(events@)) == start.fed(data@));
            calls_only_append(
                *old(self),
                *self,
                data@,
                event_views(old(events)@),
                event_views(events@),
            );
        }
    }
}

impl Default for Parser {
    fn default() -> (res: Parser)
        ensures
            res.position() == Position::Ground,
            res.modes() == (Modes {
                bracketed_paste: false,
                mouse_mode: MouseMode::Off,
                mouse_encoding: MouseEncoding::Default,
                focus_events: false,
            }),
    {
        Parser::new()
    }
}

fn switch_encoding(current: MouseEncoding, e: MouseEncoding, enable: bool) -> (res: MouseEncoding)
    ensures
        res == encoding_after(current, e, enable),
{
    if enable {
        e
    } else if current == e {
        MouseEncoding::Default
    } else {
        current
    }
}

fn same_bytes(a: &[u8], b: &[u8]) -> (res: bool)
    ensures
        res == (a@ == b@),
{
    if a.len() != b.len() {
        return false;
    }
    let mut i: usize = 0;
    while i < a.len()
        invariant
            i <= a.len(),
            a.len() == b.len(),
            forall|j: int| 0 <= j < i ==> a@[j] == b@[j],
        decreases a.len() - i,
    {
        if a[i] != b[i] {
            return false;
        }
        i += 1;
    }
    assert(a@ =~= b@);
    true
}

fn is_alt_screen_mode(params: &[u8]) -> (res: bool)
    ensures
        res == selects_alt_screen(params@),
{
    let a: [u8; 3] = [0x3f, 0x34, 0x37];
    let b: [u8; 5] = [0x3f, 0x31, 0x30, 0x34, 0x37];
    let c: [u8; 5] = [0x3f, 0x31, 0x30, 0x34, 0x39];
    assert(a@ =~= seq![0x3fu8, 0x34u8, 0x37u8]);
    assert(b@ =~= seq![0x3fu8, 0x31u8, 0x30u8, 0x34u8, 0x37u8]);
    assert(c@ =~= seq![0x3fu8, 0x31u8, 0x30u8, 0x34u8, 0x39u8]);
    same_bytes(params, &a) || same_bytes(params, &b) || same_bytes(params, &c)
}

/// Gathered display bytes become an event.
fn flush(pass: &mut Vec<u8>, events: &mut Vec<ParserEvent>)
    ensures
        final(pass)@ == Seq::<u8>::empty(),
        event_views(final(events)@) == (if old(pass)@.len() == 0 {
            event_views(old(events)@)
        } else {
            event_views(old(events)@).push(Event::Bytes(old(pass)@))
        }),
{
    if pass.len() > 0 {
        let mut bytes: Vec<u8> = Vec::new();
        core::mem::swap(&mut bytes, pass);
        let e = ParserEvent::Bytes(bytes);
        proof {
            lemma_event_push(events@, e);
        }
        events.push(e);
    }
}

fn emit(e: ParserEvent, pass: &mut Vec<u8>, events: &mut Vec<ParserEvent>)
    ensures
        final(pass)@ == Seq::<u8>::empty(),
        event_views(final(events)@) == (if old(pass)@.len() == 0 {
            event_views(old(events)@)
        } else {
            event_views(old(events)@).push(Event::Bytes(old(pass)@))
        }).push(e@),
{
    flush(pass, events);
    proof {
        lemma_event_push(events@, e);
    }
    events.push(e);
}

/// Appends the event that an OSC payload gives, if any.
pub fn handle_osc(payload: &[u8], events: &mut Vec<ParserEvent>)
    ensures
        event_views(final(events)@) == (match osc_event(payload@) {
            Some(e) => event_views(old(events)@).push(e),
            None => event_views(old(events)@),
        }),
{
    if let Some(e) = read_osc(payload) {
        proof {
            lemma_event_push(events@, e);
        }
        events.push(e);
    }
}

fn read_osc(payload: &[u8]) -> (res: Option<ParserEvent>)
    ensures
        res is None <==> osc_event(payload@) is None,
        res matches Some(e) ==> osc_event(payload@) == Some(e@),
{
    let s: Vec<char> = match utf8_str(payload) {
        Some(s) => chars_of(s),
        None => {
            return None;
        },
    };
    if let Some(rest) = strip_prefix(s.as_slice(), "133;") {
        return read_mark(rest);
    }
    if let Some(rest) = strip_prefix(s.as_slice(), "7;") {
        return read_cwd(rest);
    }
    if let Some(rest) = strip_prefix(s.as_slice(), "52;") {
        return read_clipboard(rest);
    }
    let mut bytes: Vec<u8> = Vec::new();
    bytes.push(0x1b);
    bytes.push(0x5d);
    bytes.extend_from_slice(payload);
    bytes.push(0x07);
    assert(bytes@ =~= seq![0x1bu8, 0x5du8] + payload@ + seq![0x07u8]);
    Some(ParserEvent::Bytes(bytes))
}

fn read_mark(rest: &[char]) -> (res: Option<ParserEvent>)
    ensures
        res is None <==> mark_event(rest@) is None,
        res matches Some(e) ==> mark_event(rest@) == Some(e@),
{
    let fields: Vec<&[char]> = split_chars(rest, ';');
    let ghost views = crate::text::views(fields@);
    assert(views[0] == fields@[0]@);
    if is_text(fields[0], "A") {
        Some(ParserEvent::PromptStart)
    } else if is_text(fields[0], "B") {
        Some(ParserEvent::PromptEnd)
    } else if is_text(fields[0], "C") {
        Some(ParserEvent::CommandStart)
    } else if is_text(fields[0], "D") {
        let mut code: i32 = 0;
        if fields.len() > 1 {
            assert(views[1] == fields@[1]@);
            if let Some(n) = parse_i32(fields[1]) {
                code = n;
            }
        }
        Some(ParserEvent::CommandEnd(code))
    } else {
        None
    }
}

fn read_cwd(rest: &[char]) -> (res: Option<ParserEvent>)
    ensures
        res is None <==> cwd_event(rest@) is None,
        res matches Some(e) ==> cwd_event(rest@) == Some(e@),
{
    let raw: &[char] = match strip_prefix(rest, "file://") {
        Some(uri) => {
            let i: usize = find_char(uri, '/');
            if i < uri.len() {
                let tail = slice_subrange(uri, i, uri.len());
                assert(tail@ =~= uri@.skip(i as int));
                tail
            } else {
                uri
            }
        },
        None => rest,
    };
    let path: String = percent_decode(text_of(raw).as_str());
    if chars_of(path.as_str()).len() > 0 {
        Some(ParserEvent::CwdUpdate(path))
    } else {
        None
    }
}

fn read_clipboard(rest: &[char]) -> (res: Option<ParserEvent>)
    ensures
        res is None <==> clipboard_event(rest@) is None,
        res matches Some(e) ==> clipboard_event(rest@) == Some(e@),
{
    let i: usize = find_char(rest, ';');
    if i >= rest.len() {
        return None;
    }
    let data = slice_subrange(rest, i + 1, rest.len());
    assert(data@ =~= rest@.skip(i + 1));
    if is_text(data, "?") {
        return None;
    }
    match base64_decode(text_of(data).as_str().as_bytes()) {
        Ok(bytes) => match utf8_str(bytes.as_slice()) {
            Some(text) => Some(ParserEvent::ClipboardSet(text.to_owned())),
            None => None,
        },
        Err(_) => None,
    }
}

fn hex_digit(b: u8) -> (res: Option<u8>)
    ensures
        res is Some <==> hex_value(b) is Some,
        res matches Some(v) ==> v < 16 && hex_value(b) == Some(v as nat),
{
    if 0x30 <= b && b <= 0x39 {
        Some(b - 0x30)
    } else if 0x61 <= b && b <= 0x66 {
        Some(b - 0x61 + 10)
    } else if 0x41 <= b && b <= 0x46 {
        Some(b - 0x41 + 10)
    } else {
        None
    }
}

fn unescape(bytes: &[u8]) -> (res: Vec<u8>)
    ensures
        res@ == unescaped(bytes@),
{
    let mut out: Vec<u8> = Vec::new();
    let mut i: usize = 0;
    assert(bytes@.skip(0) =~= bytes@);
    assert(out@ + unescaped(bytes@) =~= unescaped(bytes@));
    while i < bytes.len()
        invariant
            i <= bytes.len(),
            out@ + unescaped(bytes@.skip(i as int)) == unescaped(bytes@),
        decreases bytes.len() - i,
    {
        let ghost before = out@;
        let ghost rest = bytes@.skip(i as int);
        assert(rest[0] == bytes@[i as int]);
        if bytes[i] == 0x25 && bytes.len() - i > 2 {
            assert(rest[1] == bytes@[i + 1] && rest[2] == bytes@[i + 2]);
            if let (Some(hi), Some(lo)) = (hex_digit(bytes[i + 1]), hex_digit(bytes[i + 2])) {
                out.push(hi * 16 + lo);
                proof {
                    assert(rest.skip(3) =~= bytes@.skip(i + 3));
                    assert(out@ + unescaped(rest.skip(3)) =~= before + unescaped(rest));
                }
                i += 3;
                continue ;
            }
        }
        out.push(bytes[i]);
        proof {
            assert(rest.skip(1) =~= bytes@.skip(i + 1));
            assert(out@ + unescaped(rest.skip(1)) =~= before + unescaped(rest));
        }
        i += 1;
    }
    assert(out@ =~= unescaped(bytes@));
    out
}

/// Percent-decodes an OSC 7 path, so that "/home/me/My%20Docs" becomes
/// "/home/me/My Docs".
pub fn percent_decode(input: &str) -> (res: String)
    ensures
        res@ == percent_decoded(input@),
{
    let bytes: Vec<u8> = unescape(input.as_bytes());
    match utf8_str(bytes.as_slice()) {
        Some(s) => s.to_owned(),
        None => input.to_owned(),
    }
}

/// Decodes base64, leaving padding signs and line breaks aside.
pub fn base64_decode(input: &[u8]) -> (res: Result<Vec<u8>, ()>)
    ensures
        res is Ok <==> base64_decoded(input@) is Some,
        res matches Ok(v) ==> base64_decoded(input@) == Some(v@),
{
    let mut digits: Vec<u8> = Vec::new();
    let mut i: usize = 0;
    while i < input.len()
        invariant
            i <= input.len(),
            digits@ == without_padding(input@.take(i as int)),
        decreases input.len() - i,
    {
        let b: u8 = input[i];
        proof {
            assert(input@.take(i + 1).drop_last() =~= input@.take(i as int));
            assert(input@.take(i + 1).last() == b);
        }
        if b != 0x3d && b != 0x0a && b != 0x0d {
            digits.push(b);
        }
        i += 1;
    }
    assert(input@.take(i as int) =~= input@);
    match read_digits(digits.as_slice()) {
        Some(bytes) => Ok(bytes),
        None => Err(()),
    }
}

// ---------------------------------------------------------------------------
// Laws
// ---------------------------------------------------------------------------

/// A display byte or an event of another kind.
pub enum Item {
    Byte(u8),
    Mark(Event),
}

/// Display bytes one by one.
pub open spec fn byte_items(s: Seq<u8>) -> Seq<Item> {
    Seq::new(s.len(), |i: int| Item::Byte(s[i]))
}

/// The items of one event.
pub open spec fn event_items(e: Event) -> Seq<Item> {
    match e {
        Event::Bytes(b) => byte_items(b),
        _ => seq![Item::Mark(e)],
    }
}

/// What a list of events says, however its display bytes are grouped.
pub open spec fn items(s: Seq<Event>) -> Seq<Item>
    decreases s.len(),
{
    if s.len() == 0 {
        seq![]
    } else {
        items(s.drop_last()) + event_items(s.last())
    }
}

impl Machine {
    /// All that was gathered, shown or not.
    pub open spec fn said(self) -> Seq<Item> {
        items(self.events) + byte_items(self.pass)
    }

    /// The machine at the same place with nothing gathered.
    pub open spec fn emptied(self) -> Machine {
        Machine { pass: seq![], events: seq![], ..self }
    }
}

proof fn lemma_flushed_says_the_same(m: Machine)
    ensures
        m.flushed().said() == m.said(),
        m.flushed().pass.len() == 0,
        m.flushed().position == m.position,
        m.flushed().modes == m.modes,
        items(m.flushed().events) == m.said(),
{
    assert(byte_items(seq![]) =~= seq![]);
    if m.pass.len() > 0 {
        let f = m.flushed();
        assert(f.events.drop_last() =~= m.events);
        assert(f.said() =~= m.said());
    } else {
        assert(m.pass =~= seq![]);
    }
    assert(items(m.flushed().events) =~= m.said());
}

proof fn lemma_emit_says(m: Machine, e: Option<Event>)
    ensures
        m.emit(e).said() == m.said() + (match e {
            Some(e) => event_items(e),
            None => seq![],
        }),
        m.emit(e).position == m.position,
        m.emit(e).modes == m.modes,
{
    lemma_flushed_says_the_same(m);
    assert(byte_items(seq![]) =~= seq![]);
    if e is Some {
        let f = m.emit(e);
        assert(f.events.drop_last() =~= m.flushed().events);
        assert(f.pass =~= seq![]);
    }
    assert(m.emit(e).said() =~= m.said() + (match e {
        Some(e) => event_items(e),
        None => seq![],
    }));
}

proof fn lemma_show_says(m: Machine, d: Seq<u8>)
    ensures
        m.show(d).said() == m.said() + byte_items(d),
{
    assert(m.show(d).said() =~= m.said() + byte_items(d));
}

/// What one byte adds depends on the place alone.
proof fn lemma_step_local(m: Machine, b: u8)
    ensures
        m.step(b).position == m.emptied().step(b).position,
        m.step(b).modes == m.emptied().step(b).modes,
        m.step(b).said() == m.said() + m.emptied().step(b).said(),
{
    reveal(Machine::step);
    let z = m.emptied();
    assert(z.said() =~= seq![]);
    let g = m.at(Position::Ground);
    let zg = z.at(Position::Ground);
    assert(g.said() =~= m.said());
    assert(zg.said() =~= seq![]);
    lemma_show_says(g, seq![b]);
    lemma_show_says(zg, seq![b]);
    match m.position {
        Position::Ground | Position::IgnoreEsc => {},
        Position::Esc => {
            lemma_show_says(g, seq![0x1bu8, b]);
            lemma_show_says(zg, seq![0x1bu8, b]);
        },
        Position::Csi(buf) => {
            lemma_emit_says(g, Some(Event::AltScreenEnter));
            lemma_emit_says(zg, Some(Event::AltScreenEnter));
            lemma_emit_says(g, Some(Event::AltScreenLeave));
            lemma_emit_says(zg, Some(Event::AltScreenLeave));
            let whole = seq![0x1bu8, 0x5bu8] + buf + seq![b];
            let gm = Machine { modes: csi_modes(m.modes, buf, b), ..g };
            let zm = Machine { modes: csi_modes(m.modes, buf, b), ..zg };
            assert(gm.said() =~= m.said());
            assert(zm.said() =~= seq![]);
            lemma_show_says(gm, whole);
            lemma_show_says(zm, whole);
            lemma_show_says(g, seq![0x1bu8, 0x5bu8] + buf.push(b));
            lemma_show_says(zg, seq![0x1bu8, 0x5bu8] + buf.push(b));
        },
        Position::Osc(buf) | Position::OscEsc(buf) => {
            let e = osc_event(buf);
            lemma_emit_says(g, e);
            lemma_emit_says(zg, e);
            lemma_show_says(g.emit(e), seq![b]);
            lemma_show_says(zg.emit(e), seq![b]);
        },
        Position::Apc(buf) | Position::ApcEsc(buf) => {
            let e = Some(Event::ApcSequence(buf));
            lemma_emit_says(g, e);
            lemma_emit_says(zg, e);
            lemma_show_says(g.emit(e), seq![b]);
            lemma_show_says(zg.emit(e), seq![b]);
        },
        Position::Ignore => {},
    }
    assert(m.step(b).said() =~= m.said() + z.step(b).said());
}

/// What a run of bytes adds depends on the place alone.
proof fn lemma_run_local(m: Machine, d: Seq<u8>)
    ensures
        m.run(d).position == m.emptied().run(d).position,
        m.run(d).modes == m.emptied().run(d).modes,
        m.run(d).said() == m.said() + m.emptied().run(d).said(),
    decreases d.len(),
{
    let z = m.emptied();
    if d.len() == 0 {
        assert(z.said() =~= seq![]);
        assert(m.run(d).said() =~= m.said() + z.run(d).said());
    } else {
        lemma_run_local(m, d.drop_last());
        let a = m.run(d.drop_last());
        let za = z.run(d.drop_last());
        lemma_step_local(a, d.last());
        lemma_step_local(za, d.last());
        assert(a.emptied() == za.emptied());
        assert(m.run(d).said() =~= m.said() + z.run(d).said());
    }
}

/// A read boundary does not matter: feeding a stream in two pieces leaves the
/// parser as feeding it at once does, and says the same but for the grouping
/// of display bytes.
pub proof fn boundaries_do_not_matter(m: Machine, a: Seq<u8>, b: Seq<u8>)
    ensures
        m.fed(a).fed(b).position == m.fed(a + b).position,
        m.fed(a).fed(b).modes == m.fed(a + b).modes,
        items(m.fed(a).fed(b).events) == items(m.fed(a + b).events),
{
    let start = Machine { pass: seq![], ..m };
    let ra = start.run(a);
    let fa = ra.flushed();
    let again = Machine { pass: seq![], ..fa };
    assert(fa =~= again) by {
        lemma_flushed_says_the_same(ra);
        assert(fa.pass =~= seq![]);
    }
    run_in_pieces(start, a, b);
    lemma_run_local(ra, b);
    lemma_run_local(again, b);
    lemma_flushed_says_the_same(ra);
    assert(ra.emptied() == again.emptied());
    lemma_flushed_says_the_same(ra.run(b));
    lemma_flushed_says_the_same(again.run(b));
}

/// What was said before a call stands; a call only adds to it.
pub proof fn feeding_only_adds(m: Machine, a: Seq<u8>)
    ensures
        items(m.fed(a).events) == items(m.events) + items(
            Machine { events: seq![], ..m }.fed(a).events,
        ),
{
    let start = Machine { pass: seq![], ..m };
    let bare = Machine { pass: seq![], events: seq![], ..m };
    lemma_run_local(start, a);
    lemma_flushed_says_the_same(start.run(a));
    lemma_flushed_says_the_same(bare.run(a));
    assert(start.emptied() == bare);
    assert(start.said() =~= items(m.events)) by {
        assert(byte_items(seq![]) =~= seq![]);
    }
    assert(Machine { pass: seq![], ..(Machine { events: seq![], ..m }) } == bare);
}

pub(crate) proof fn lemma_csi_body(m: Machine, buf: Seq<u8>, p: Seq<u8>)
    requires
        m.position == Position::Csi(buf),
        buf.len() + p.len() <= 4096,
        forall|i: int| 0 <= i < p.len() ==> !(0x40 <= #[trigger] p[i] <= 0x7e),
    ensures
        m.run(p) == m.at(Position::Csi(buf + p)),
    decreases p.len(),
{
    if p.len() == 0 {
        assert(buf + p =~= buf);
    } else {
        reveal(Machine::step);
        lemma_csi_body(m, buf, p.drop_last());
        assert(!(0x40 <= p[p.len() - 1] <= 0x7e));
        assert(buf + p =~= (buf + p.drop_last()).push(p.last()));
    }
}

/// A CSI sequence that is cut by a read boundary comes out whole, in one run
/// of display bytes, with the call that completes it.
pub proof fn csi_comes_out_whole(m: Machine, p: Seq<u8>, q: Seq<u8>, last: u8)
    requires
        m.position is Ground,
        p.len() + q.len() <= 4096,
        forall|i: int| 0 <= i < p.len() ==> !(0x40 <= #[trigger] p[i] <= 0x7e),
        forall|i: int| 0 <= i < q.len() ==> !(0x40 <= #[trigger] q[i] <= 0x7e),
        0x40 <= last <= 0x7e,
        !selects_alt_screen(p + q),
    ensures
        m.fed(seq![0x1bu8, 0x5bu8] + p).events == m.events,
        m.fed(seq![0x1bu8, 0x5bu8] + p).fed(q.push(last)).events == m.events.push(
            Event::Bytes(seq![0x1bu8, 0x5bu8] + (p + q) + seq![last]),
        ),
        m.fed(seq![0x1bu8, 0x5bu8] + p).fed(q.push(last)).position is Ground,
        m.fed(seq![0x1bu8, 0x5bu8] + p).fed(q.push(last)).modes == csi_modes(m.modes, p + q, last),
{
    reveal(Machine::step);
    let start = Machine { pass: seq![], ..m };
    let intro = seq![0x1bu8, 0x5bu8];
    lemma_run_two(start, 0x1b, 0x5b);
    let opened = start.at(Position::Csi(seq![]));
    assert(start.run(intro) == opened);
    run_in_pieces(start, intro, p);
    lemma_csi_body(opened, seq![], p);
    assert(seq![] + p =~= p);
    let half = start.at(Position::Csi(p));
    assert(m.fed(intro + p) =~= half);
    lemma_csi_body(half, p, q);
    assert(q.push(last).drop_last() =~= q);
    let whole = intro + (p + q) + seq![last];
    assert(half.run(q.push(last)).pass =~= whole);
}

pub(crate) proof fn lemma_ignored(m: Machine, d: Seq<u8>)
    requires
        m.position is Ignore,
        forall|i: int| 0 <= i < d.len() ==> d[i] != 0x07 && d[i] != 0x1b,
    ensures
        m.run(d) == m,
    decreases d.len(),
{
    if d.len() > 0 {
        reveal(Machine::step);
        lemma_ignored(m, d.drop_last());
    }
}

/// A DCS string (ESC P ... ESC \) leaves no trace.
pub proof fn device_strings_are_consumed(m: Machine, d: Seq<u8>)
    requires
        m.position is Ground,
        forall|i: int| 0 <= i < d.len() ==> d[i] != 0x07 && d[i] != 0x1b,
    ensures
        m.run(seq![0x1bu8, 0x50u8] + d + seq![0x1bu8, 0x5cu8]) == m,
{
    let intro = seq![0x1bu8, 0x50u8];
    let st = seq![0x1bu8, 0x5cu8];
    let ignoring = m.at(Position::Ignore);
    assert(m.run(intro) == ignoring) by {
        lemma_run_two(m, 0x1b, 0x50);
        reveal(Machine::step);
    }
    assert(ignoring.run(st) == m) by {
        lemma_run_two(ignoring, 0x1b, 0x5c);
        reveal(Machine::step);
        assert(ignoring.run(st) =~= m);
    }
    run_in_pieces(m, intro + d, st);
    run_in_pieces(m, intro, d);
    lemma_ignored(ignoring, d);
}

pub(crate) proof fn lemma_osc_body(m: Machine, buf: Seq<u8>, d: Seq<u8>)
    requires
        m.position == Position::Osc(buf),
        forall|i: int| 0 <= i < d.len() ==> d[i] != 0x07 && d[i] != 0x1b,
    ensures
        m.run(d) == m.at(Position::Osc(buf + d)),
    decreases d.len(),
{
    if d.len() == 0 {
        assert(buf + d =~= buf);
    } else {
        reveal(Machine::step);
        lemma_osc_body(m, buf, d.drop_last());
        assert(buf + d =~= (buf + d.drop_last()).push(d.last()));
    }
}

/// An OSC sequence that BEL ends gives the event of its payload, after the
/// display bytes that stand before it.
pub proof fn osc_gives_its_event(m: Machine, payload: Seq<u8>)
    requires
        m.position is Ground,
        forall|i: int| 0 <= i < payload.len() ==> payload[i] != 0x07 && payload[i] != 0x1b,
    ensures
        m.run(seq![0x1bu8, 0x5du8] + payload + seq![0x07u8]) == m.emit(osc_event(payload)),
{
    reveal(Machine::step);
    let intro = seq![0x1bu8, 0x5du8];
    let bel = seq![0x07u8];
    lemma_run_two(m, 0x1b, 0x5d);
    lemma_run_two(m.at(Position::Osc(payload)), 0x07, 0x07);
    run_in_pieces(m, intro + payload, bel);
    run_in_pieces(m, intro, payload);
    lemma_osc_body(m.at(Position::Osc(seq![])), seq![], payload);
    assert(seq![] + payload =~= payload);
    assert(m.at(Position::Ground) =~= m);
}

proof fn lemma_without_padding(d: Seq<u8>, n: nat)
    requires
        forall|i: int|
            0 <= i < d.len() ==> #[trigger] d[i] != 0x3d && d[i] != 0x0a && d[i] != 0x0d,
    ensures
        without_padding(d) == d,
        without_padding(d + crate::base64::padding(n)) == d,
    decreases d.len(),
{
    if d.len() > 0 {
        assert(d[d.len() - 1] != 0x3d);
        lemma_without_padding(d.drop_last(), n);
        assert(without_padding(d) =~= d);
    } else {
        assert(without_padding(d) =~= d);
    }
    let p = crate::base64::padding(n);
    reveal_with_fuel(without_padding, 3);
    if p.len() == 1 {
        assert((d + p).drop_last() =~= d);
    } else if p.len() == 2 {
        assert((d + p).drop_last() =~= d.push(0x3d));
        assert(d.push(0x3d).drop_last() =~= d);
    } else {
        assert(d + p =~= d);
    }
}

/// Decoding the base64 notation of a run of bytes gives the bytes back.
pub proof fn base64_reads_back(bytes: Seq<u8>)
    ensures
        base64_decoded(crate::base64::encoded(bytes)) == Some(bytes),
{
    crate::base64::digits_read_back(bytes);
    let d = crate::base64::digits_of(bytes);
    lemma_without_padding(d, d.len());
}

/// A text that an application writes to the clipboard, in base64 as OSC 52 has
/// it, is the text that the event holds.
pub proof fn clipboard_reads_back(text: Seq<char>)
    ensures
        osc_event(
            vstd::utf8::encode_utf8(
                "52;c;"@ + crate::text::widened(
                    crate::base64::encoded(vstd::utf8::encode_utf8(text)),
                ),
            ),
        ) == Some(Event::ClipboardSet(text)),
{
    reveal_strlit("133;");
    reveal_strlit("7;");
    reveal_strlit("52;");
    reveal_strlit("52;c;");
    reveal_strlit("?");
    let bytes = vstd::utf8::encode_utf8(text);
    let code = crate::base64::encoded(bytes);
    let data = crate::text::widened(code);
    let s = "52;c;"@ + data;
    crate::base64::digits_read_back(bytes);
    assert forall|i: int| 0 <= i < code.len() implies #[trigger] code[i] < 0x80 by {
        let d = crate::base64::digits_of(bytes);
        if i < d.len() {
            assert(crate::base64::sextet(d[i]) is Some);
        }
    }
    crate::text::ascii_bytes_are_utf8(code);
    assert(data != "?"@) by {
        assert(code.len() % 4 == 0);
    }
    vstd::utf8::encode_utf8_decode_utf8(s);
    vstd::utf8::encode_utf8_valid_utf8(s);
    assert(s.subrange(0, 4)[0] == '5');
    assert(s.subrange(0, 2)[0] == '5');
    assert("133;"@[0] == '1' && "7;"@[0] == '7');
    assert(s.subrange(0, 3) =~= "52;"@);
    let rest = s.skip(3);
    crate::text::lemma_until_at(rest, ';', 1);
    assert(rest.skip(2) =~= data);
    base64_reads_back(bytes);
    vstd::utf8::encode_utf8_decode_utf8(text);
    vstd::utf8::encode_utf8_valid_utf8(text);
}

/// The exit code of a finished command is read back from its notation.
pub proof fn exit_code_reads_back(n: int)
    requires
        i32::MIN <= n <= i32::MAX,
    ensures
        mark_event("D;"@ + crate::text::signed_decimal(n)) == Some(Event::CommandEnd(n)),
{
    reveal_strlit("A");
    reveal_strlit("B");
    reveal_strlit("C");
    reveal_strlit("D");
    reveal_strlit("D;");
    let num = crate::text::signed_decimal(n);
    let rest = "D;"@ + num;
    let abs = if n < 0 {
        (-n) as nat
    } else {
        n as nat
    };
    crate::text::decimal_reads_back(abs);
    let digits = crate::text::decimal(abs);
    assert(crate::text::signed32(num) == Some(n)) by {
        assert(crate::text::is_digit(digits[0]));
        if n < 0 {
            assert(num.drop_first() =~= digits);
        }
    }
    crate::text::lemma_until_at(rest, ';', 1);
    assert(rest.take(1) =~= "D"@);
    assert(rest.skip(2) =~= num);
    assert forall|j: int| 0 <= j < num.len() implies num[j] != ';' by {
        if n < 0 {
            if j > 0 {
                assert(num[j] == digits[j - 1]);
                assert(crate::text::is_digit(digits[j - 1]));
            }
        } else {
            assert(crate::text::is_digit(digits[j]));
        }
    }
    crate::text::lemma_until_at(num, ';', num.len() as int);
    reveal_with_fuel(crate::text::split_on, 2);
    let fields = crate::text::split_on(rest, ';');
    assert(fields =~= seq!["D"@, num]);
    assert("D"@[0] != "A"@[0] && "D"@[0] != "B"@[0] && "D"@[0] != "C"@[0]);
}

pub(crate) proof fn lemma_nothing_to_unescape(s: Seq<u8>)
    requires
        forall|i: int| 0 <= i < s.len() ==> s[i] != 0x25,
    ensures
        unescaped(s) == s,
    decreases s.len(),
{
    if s.len() > 0 {
        lemma_nothing_to_unescape(s.skip(1));
        assert(unescaped(s) =~= s);
    } else {
        assert(unescaped(s) =~= s);
    }
}

/// A path without percent signs is taken as it stands.
pub proof fn plain_paths_stay(s: Seq<char>)
    requires
        forall|i: int|
            0 <= i < vstd::utf8::encode_utf8(s).len() ==> vstd::utf8::encode_utf8(s)[i] != 0x25,
    ensures
        percent_decoded(s) == s,
{
    lemma_nothing_to_unescape(vstd::utf8::encode_utf8(s));
    vstd::utf8::encode_utf8_decode_utf8(s);
    vstd::utf8::encode_utf8_valid_utf8(s);
}

// ---------------------------------------------------------------------------
// Calls of the parser
// ---------------------------------------------------------------------------

/// What [`Parser::feed`] promises of a call with `data`: the parser before and
/// after it, and the events before and after it.
pub open spec fn feeds(
    before: Parser,
    events: Seq<Event>,
    data: Seq<u8>,
    after: Parser,
    all: Seq<Event>,
) -> bool {
    after.machine(all) == before.machine(events).fed(data)
}

/// A parser is where it stands and the modes in force: the events that were
/// collected do not matter to it, and nothing is held back between two calls.
pub proof fn parsers_hold_no_events(p: Parser)
    ensures
        forall|e: Seq<Event>| (#[trigger] p.machine(e)).events == e,
        forall|e: Seq<Event>| (#[trigger] p.machine(e)).pass.len() == 0,
        forall|e: Seq<Event>| (#[trigger] p.machine(e)).position == p.position(),
        forall|e: Seq<Event>| (#[trigger] p.machine(e)).modes == p.modes(),
{
}

/// The events with display bytes joined to those right before them.
pub open spec fn joined(s: Seq<Event>) -> Seq<Event>
    decreases s.len(),
{
    if s.len() == 0 {
        seq![]
    } else {
        match s.last() {
            Event::Bytes(b) => with_bytes(joined(s.drop_last()), b),
            e => joined(s.drop_last()).push(e),
        }
    }
}

/// The events with display bytes at their end.
pub open spec fn with_bytes(s: Seq<Event>, b: Seq<u8>) -> Seq<Event> {
    if b.len() == 0 {
        s
    } else if s.len() > 0 && s.last() is Bytes {
        s.drop_last().push(Event::Bytes(s.last()->Bytes_0 + b))
    } else {
        s.push(Event::Bytes(b))
    }
}

/// The events of what was said, the display bytes in runs as long as can be.
spec fn grouped(s: Seq<Item>) -> Seq<Event>
    decreases s.len(),
{
    if s.len() == 0 {
        seq![]
    } else {
        match s.last() {
            Item::Byte(b) => with_bytes(grouped(s.drop_last()), seq![b]),
            Item::Mark(e) => grouped(s.drop_last()).push(e),
        }
    }
}

proof fn lemma_grouped_bytes(s: Seq<Item>, b: Seq<u8>)
    ensures
        grouped(s + byte_items(b)) == with_bytes(grouped(s), b),
    decreases b.len(),
{
    let all = s + byte_items(b);
    if b.len() == 0 {
        assert(all =~= s);
    } else {
        let front = b.drop_last();
        lemma_grouped_bytes(s, front);
        assert(all.drop_last() =~= s + byte_items(front));
        assert(all.last() == Item::Byte(b.last()));
        let g = grouped(s);
        let w = with_bytes(g, front);
        if front.len() > 0 {
            assert(w.last() is Bytes);
            assert(front.push(b.last()) =~= b);
            if g.len() > 0 && g.last() is Bytes {
                assert((g.last()->Bytes_0 + front) + seq![b.last()] =~= g.last()->Bytes_0 + b);
                assert(w.drop_last() =~= g.drop_last());
            } else {
                assert(front + seq![b.last()] =~= b);
                assert(w.drop_last() =~= g);
            }
        } else {
            assert(b =~= seq![b.last()]);
        }
    }
}

proof fn lemma_joined(s: Seq<Event>)
    ensures
        joined(s) == grouped(items(s)),
    decreases s.len(),
{
    if s.len() > 0 {
        let front = s.drop_last();
        lemma_joined(front);
        match s.last() {
            Event::Bytes(b) => lemma_grouped_bytes(items(front), b),
            e => {
                let all = items(front) + seq![Item::Mark(e)];
                assert(items(s) == all);
                assert(all.drop_last() =~= items(front));
            },
        }
    }
}

/// Read boundaries do not matter to a caller: two parsers in the same state,
/// one of which is fed a stream in two pieces and the other at once, collect
/// the same events once adjacent display bytes are joined, and stand in the
/// same state afterwards.
pub proof fn two_reads_are_as_one(
    p: Parser,
    half: Parser,
    whole: Parser,
    q: Parser,
    other: Parser,
    a: Seq<u8>,
    b: Seq<u8>,
    events: Seq<Event>,
    some: Seq<Event>,
    all: Seq<Event>,
    others: Seq<Event>,
)
    requires
        p.position() == q.position(),
        p.modes() == q.modes(),
        feeds(p, events, a, half, some),
        feeds(half, some, b, whole, all),
        feeds(q, events, a + b, other, others),
    ensures
        joined(all) == joined(others),
        whole.position() == other.position(),
        whole.modes() == other.modes(),
{
    let m = p.machine(events);
    boundaries_do_not_matter(m, a, b);
    assert(whole.machine(all) == m.fed(a).fed(b));
    assert(other.machine(others) == m.fed(a + b));
    lemma_joined(all);
    lemma_joined(others);
}

/// The machine with events in front of its own.
spec fn behind(m: Machine, e: Seq<Event>) -> Machine {
    Machine { events: e + m.events, ..m }
}

proof fn lemma_emit_behind(m: Machine, e: Seq<Event>, x: Option<Event>)
    ensures
        behind(m, e).flushed() == behind(m.flushed(), e),
        behind(m, e).emit(x) == behind(m.emit(x), e),
{
    assert(behind(m, e).flushed().events =~= behind(m.flushed(), e).events);
    assert(behind(m, e).emit(x).events =~= behind(m.emit(x), e).events);
}

#[verifier::spinoff_prover]
proof fn lemma_step_behind(m: Machine, e: Seq<Event>, b: u8)
    ensures
        behind(m, e).step(b) == behind(m.step(b), e),
{
    reveal(Machine::step);
    let g = m.at(Position::Ground);
    assert(behind(m, e).at(Position::Ground) == behind(g, e));
    match m.position {
        Position::Osc(buf) | Position::OscEsc(buf) => lemma_emit_behind(g, e, osc_event(buf)),
        Position::Apc(buf) | Position::ApcEsc(buf) => lemma_emit_behind(
            g,
            e,
            Some(Event::ApcSequence(buf)),
        ),
        Position::Csi(_) => {
            lemma_emit_behind(g, e, Some(Event::AltScreenEnter));
            lemma_emit_behind(g, e, Some(Event::AltScreenLeave));
        },
        _ => {},
    }
}

proof fn lemma_run_behind(m: Machine, e: Seq<Event>, d: Seq<u8>)
    ensures
        behind(m, e).run(d) == behind(m.run(d), e),
    decreases d.len(),
{
    if d.len() > 0 {
        lemma_run_behind(m, e, d.drop_last());
        lemma_step_behind(m.run(d.drop_last()), e, d.last());
    }
}

/// No event is a run of no display bytes.
pub open spec fn no_empty_bytes(s: Seq<Event>) -> bool {
    forall|i: int| 0 <= i < s.len() ==> ((#[trigger] s[i]) matches Event::Bytes(b) ==> b.len() > 0)
}

proof fn lemma_event_not_empty(payload: Seq<u8>)
    ensures
        osc_event(payload) matches Some(Event::Bytes(b)) ==> b.len() > 0,
{
}

proof fn lemma_emit_not_empty(m: Machine, x: Option<Event>)
    requires
        no_empty_bytes(m.events),
        x matches Some(Event::Bytes(b)) ==> b.len() > 0,
    ensures
        no_empty_bytes(m.flushed().events),
        no_empty_bytes(m.emit(x).events),
{
}

#[verifier::spinoff_prover]
proof fn lemma_run_not_empty(m: Machine, d: Seq<u8>)
    requires
        no_empty_bytes(m.events),
    ensures
        no_empty_bytes(m.run(d).events),
    decreases d.len(),
{
    if d.len() > 0 {
        lemma_run_not_empty(m, d.drop_last());
        reveal(Machine::step);
        let r = m.run(d.drop_last());
        let g = r.at(Position::Ground);
        match r.position {
            Position::Osc(buf) | Position::OscEsc(buf) => {
                lemma_event_not_empty(buf);
                lemma_emit_not_empty(g, osc_event(buf));
            },
            Position::Apc(buf) | Position::ApcEsc(buf) => lemma_emit_not_empty(
                g,
                Some(Event::ApcSequence(buf)),
            ),
            Position::Csi(_) => {
                lemma_emit_not_empty(g, Some(Event::AltScreenEnter));
                lemma_emit_not_empty(g, Some(Event::AltScreenLeave));
            },
            _ => {},
        }
    }
}

/// A call only appends to the events, and appends no run of no display bytes.
/// A parser that stands between sequences, as a new one does, appends bytes
/// without ESC as one run.
pub proof fn calls_only_append(
    p: Parser,
    after: Parser,
    data: Seq<u8>,
    events: Seq<Event>,
    all: Seq<Event>,
)
    requires
        feeds(p, events, data, after, all),
    ensures
        ({
            let new = p.machine(seq![]).fed(data).events;
            &&& all == events + new
            &&& no_empty_bytes(new)
            &&& p.position() == Position::Ground && !data.contains(0x1b) ==> new == (
            if data.len() == 0 {
                seq![]
            } else {
                seq![Event::Bytes(data)]
            })
        }),
{
    let bare = p.machine(seq![]);
    let m = p.machine(events);
    assert(m =~= behind(bare, events)) by {
        assert(events + seq![] =~= events);
    }
    lemma_run_behind(bare, events, data);
    lemma_emit_behind(bare.run(data), events, None);
    lemma_run_not_empty(bare, data);
    lemma_emit_not_empty(bare.run(data), None);
    if p.position() == Position::Ground && !data.contains(0x1b) {
        assert forall|i: int| 0 <= i < data.len() implies data[i] != 0x1b by {
            assert(data.contains(data[i]));
        }
        plain_bytes_pass(bare, data);
        assert(bare.show(data).pass =~= data);
    }
}

} // verus!
