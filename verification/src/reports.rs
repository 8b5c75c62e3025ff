//! What the parser reports of each sequence that it follows, told of the bytes
//! of the sequence and of the events that come out.

use crate::parser::{Event, Machine, Modes, MouseEncoding, MouseMode, Position};
use vstd::prelude::*;

verus! {

// ---------------------------------------------------------------------------
// Sequences between text
// ---------------------------------------------------------------------------

/// Display bytes as events.
pub open spec fn display(b: Seq<u8>) -> Seq<Event> {
    if b.len() == 0 {
        seq![]
    } else {
        seq![Event::Bytes(b)]
    }
}

/// The bytes of an ASCII text.
pub open spec fn ascii(s: Seq<char>) -> Seq<u8> {
    Seq::new(s.len(), |i: int| s[i] as u8)
}

/// `ESC ]`, the payload, and BEL or `ESC \`.
pub open spec fn osc_bytes(payload: Seq<u8>, bel: bool) -> Seq<u8> {
    seq![0x1bu8, 0x5du8] + payload + (if bel {
        seq![0x07u8]
    } else {
        seq![0x1bu8, 0x5cu8]
    })
}

/// The sequence, wherever it stands between display bytes, gives the events
/// and nothing else, in its place between those bytes.
pub open spec fn reports(sequence: Seq<u8>, e: Seq<Event>) -> bool {
    forall|m: Machine, before: Seq<u8>, after: Seq<u8>|
        m.position is Ground && !before.contains(0x1b) && !after.contains(0x1b) ==> {
            let t = #[trigger] m.fed(before + sequence + after);
            &&& t.events == m.events + display(before) + e + display(after)
            &&& t.position is Ground
            &&& t.modes == m.modes
        }
}

/// The OSC sequence with the payload gives the events, whichever way it ends.
pub open spec fn osc_reports(payload: Seq<u8>, e: Seq<Event>) -> bool {
    reports(osc_bytes(payload, true), e) && reports(osc_bytes(payload, false), e)
}

/// In the ground state the sequence ends the run of display bytes before it
/// and gives the events.
spec fn emits(sequence: Seq<u8>, e: Seq<Event>) -> bool {
    forall|x: Machine|
        x.position is Ground ==> #[trigger] x.run(sequence) == (Machine {
            pass: seq![],
            events: x.events + display(x.pass) + e,
            ..x
        })
}

proof fn lemma_emits(sequence: Seq<u8>, e: Seq<Event>)
    requires
        emits(sequence, e),
    ensures
        reports(sequence, e),
{
    assert forall|m: Machine, before: Seq<u8>, after: Seq<u8>|
        m.position is Ground && !before.contains(0x1b) && !after.contains(0x1b) implies {
        let t = #[trigger] m.fed(before + sequence + after);
        &&& t.events == m.events + display(before) + e + display(after)
        &&& t.position is Ground
        &&& t.modes == m.modes
    } by {
        let start = Machine { pass: seq![], ..m };
        assert forall|i: int| 0 <= i < before.len() implies before[i] != 0x1b by {
            assert(before.contains(before[i]));
        }
        assert forall|i: int| 0 <= i < after.len() implies after[i] != 0x1b by {
            assert(after.contains(after[i]));
        }
        crate::parser::run_in_pieces(start, before + sequence, after);
        crate::parser::run_in_pieces(start, before, sequence);
        crate::parser::plain_bytes_pass(start, before);
        let x = start.show(before);
        assert(x.pass =~= before);
        let y = x.run(sequence);
        crate::parser::plain_bytes_pass(y, after);
        assert(y.show(after).pass =~= after);
        let t = m.fed(before + sequence + after);
        assert(t == y.show(after).flushed());
        assert(t.events =~= m.events + display(before) + e + display(after));
    }
}

proof fn lemma_emit(x: Machine, e: Option<Event>)
    ensures
        x.emit(e) == (Machine {
            pass: seq![],
            events: x.events + display(x.pass) + (match e {
                Some(e) => seq![e],
                None => seq![],
            }),
            ..x
        }),
{
    let all = x.events + display(x.pass) + (match e {
        Some(e) => seq![e],
        None => seq![],
    });
    assert(x.emit(e).events =~= all);
    assert(x.emit(e).pass =~= seq![]);
}

/// The payload can stand in a sequence: it holds neither BEL nor ESC.
pub open spec fn is_payload(p: Seq<u8>) -> bool {
    forall|i: int| 0 <= i < p.len() ==> #[trigger] p[i] != 0x07 && p[i] != 0x1b
}

proof fn lemma_osc(payload: Seq<u8>, e: Option<Event>)
    requires
        is_payload(payload),
        crate::parser::osc_event(payload) == e,
    ensures
        osc_reports(
            payload,
            match e {
                Some(e) => seq![e],
                None => seq![],
            },
        ),
{
    let es = match e {
        Some(e) => seq![e],
        None => seq![],
    };
    assert(emits(osc_bytes(payload, true), es)) by {
        assert forall|x: Machine| x.position is Ground implies #[trigger] x.run(
            osc_bytes(payload, true),
        ) == (Machine { pass: seq![], events: x.events + display(x.pass) + es, ..x }) by {
            crate::parser::osc_gives_its_event(x, payload);
            lemma_emit(x, e);
        }
    }
    lemma_emits(osc_bytes(payload, true), es);
    assert(emits(osc_bytes(payload, false), es)) by {
        assert forall|x: Machine| x.position is Ground implies #[trigger] x.run(
            osc_bytes(payload, false),
        ) == (Machine { pass: seq![], events: x.events + display(x.pass) + es, ..x }) by {
            lemma_osc_st(x, payload);
            lemma_emit(x, e);
        }
    }
    lemma_emits(osc_bytes(payload, false), es);
}

proof fn lemma_osc_st(m: Machine, payload: Seq<u8>)
    requires
        m.position is Ground,
        is_payload(payload),
    ensures
        m.run(osc_bytes(payload, false)) == m.emit(crate::parser::osc_event(payload)),
{
    reveal(Machine::step);
    let intro = seq![0x1bu8, 0x5du8];
    let st = seq![0x1bu8, 0x5cu8];
    crate::parser::lemma_run_two(m, 0x1b, 0x5d);
    crate::parser::lemma_run_two(m.at(Position::Osc(payload)), 0x1b, 0x5c);
    crate::parser::run_in_pieces(m, intro + payload, st);
    crate::parser::run_in_pieces(m, intro, payload);
    crate::parser::lemma_osc_body(m.at(Position::Osc(seq![])), seq![], payload);
    assert(seq![] + payload =~= payload);
    assert(m.at(Position::Ground) =~= m);
}

/// An ASCII text and its bytes.
proof fn lemma_ascii(s: Seq<char>)
    requires
        forall|i: int| 0 <= i < s.len() ==> ' ' <= #[trigger] s[i] <= '~',
    ensures
        vstd::utf8::encode_utf8(s) == ascii(s),
        vstd::utf8::valid_utf8(ascii(s)),
        vstd::utf8::decode_utf8(ascii(s)) == s,
        is_payload(ascii(s)),
{
    let b = ascii(s);
    assert forall|i: int| 0 <= i < b.len() implies #[trigger] b[i] < 0x80 && b[i] >= 0x20 by {
        assert(' ' <= s[i] <= '~');
    }
    assert(crate::text::widened(b) =~= s) by {
        assert forall|i: int| 0 <= i < s.len() implies crate::text::widened(b)[i] == s[i] by {
            assert(' ' <= s[i] <= '~');
        }
    }
    crate::text::ascii_bytes_are_utf8(b);
    vstd::utf8::encode_utf8_valid_utf8(s);
    vstd::utf8::encode_utf8_decode_utf8(s);
}

/// A text of printable ASCII.
pub open spec fn is_printable(s: Seq<char>) -> bool {
    forall|i: int| 0 <= i < s.len() ==> ' ' <= #[trigger] s[i] <= '~'
}

// ---------------------------------------------------------------------------
// Marks of the shell
// ---------------------------------------------------------------------------

proof fn lemma_mark(letter: char, more: Seq<char>)
    requires
        ' ' <= letter <= '~',
        letter != ';',
        is_printable(more),
    ensures
        crate::parser::osc_event(ascii("133;"@ + seq![letter])) == crate::parser::mark_event(
            seq![letter],
        ),
        crate::text::split_on(seq![letter], ';') == seq![seq![letter]],
        crate::parser::osc_event(ascii("133;"@ + seq![letter, ';'] + more))
            == crate::parser::mark_event(seq![letter, ';'] + more),
        crate::text::split_on(seq![letter, ';'] + more, ';') == seq![seq![letter]]
            + crate::text::split_on(more, ';'),
        is_payload(ascii("133;"@ + seq![letter])),
        is_payload(ascii("133;"@ + seq![letter, ';'] + more)),
{
    reveal_strlit("133;");
    let a = "133;"@ + seq![letter];
    let b = "133;"@ + seq![letter, ';'] + more;
    assert(is_printable(b)) by {
        assert forall|i: int| 0 <= i < b.len() implies ' ' <= #[trigger] b[i] <= '~' by {
            if i >= 6 {
                assert(b[i] == more[i - 6]);
            }
        }
    }
    lemma_ascii(a);
    lemma_ascii(b);
    assert(a.subrange(0, 4) =~= "133;"@);
    assert(a.skip(4) =~= seq![letter]);
    assert(b.subrange(0, 4) =~= "133;"@);
    assert(b.skip(4) =~= seq![letter, ';'] + more);
    crate::text::lemma_until_at(seq![letter], ';', 1);
    assert(crate::text::split_on(seq![letter], ';') =~= seq![seq![letter]]);
    let c = seq![letter, ';'] + more;
    crate::text::lemma_until_at(c, ';', 1);
    assert(c.take(1) =~= seq![letter]);
    assert(c.skip(2) =~= more);
}

/// Each OSC 133 mark gives its own event: A the start of a prompt, B its end, C
/// the start of a command. Further fields do not matter.
pub proof fn marks_give_their_events(more: Seq<char>)
    requires
        is_printable(more),
    ensures
        crate::parser::osc_event(ascii("133;A"@)) == Some(Event::PromptStart),
        crate::parser::osc_event(ascii("133;B"@)) == Some(Event::PromptEnd),
        crate::parser::osc_event(ascii("133;C"@)) == Some(Event::CommandStart),
        crate::parser::osc_event(ascii("133;D"@)) == Some(Event::CommandEnd(0)),
        osc_reports(ascii("133;A"@), seq![Event::PromptStart]),
        osc_reports(ascii("133;B"@), seq![Event::PromptEnd]),
        osc_reports(ascii("133;C"@), seq![Event::CommandStart]),
        osc_reports(ascii("133;D"@), seq![Event::CommandEnd(0)]),
        osc_reports(ascii("133;A;"@ + more), seq![Event::PromptStart]),
        osc_reports(ascii("133;B;"@ + more), seq![Event::PromptEnd]),
        osc_reports(ascii("133;C;"@ + more), seq![Event::CommandStart]),
{
    reveal_strlit("133;");
    reveal_strlit("133;A");
    reveal_strlit("133;B");
    reveal_strlit("133;C");
    reveal_strlit("133;D");
    reveal_strlit("133;A;");
    reveal_strlit("133;B;");
    reveal_strlit("133;C;");
    reveal_strlit("A");
    reveal_strlit("B");
    reveal_strlit("C");
    reveal_strlit("D");
    lemma_mark('A', more);
    lemma_mark('B', more);
    lemma_mark('C', more);
    lemma_mark('D', more);
    assert("133;A"@ =~= "133;"@ + seq!['A']);
    assert("133;B"@ =~= "133;"@ + seq!['B']);
    assert("133;C"@ =~= "133;"@ + seq!['C']);
    assert("133;D"@ =~= "133;"@ + seq!['D']);
    assert("133;A;"@ + more =~= "133;"@ + seq!['A', ';'] + more);
    assert("133;B;"@ + more =~= "133;"@ + seq!['B', ';'] + more);
    assert("133;C;"@ + more =~= "133;"@ + seq!['C', ';'] + more);
    assert("A"@ =~= seq!['A'] && "B"@ =~= seq!['B'] && "C"@ =~= seq!['C'] && "D"@ =~= seq!['D']);
    assert(seq!['A'][0] != seq!['B'][0] && seq!['A'][0] != seq!['C'][0] && seq!['B'][0]
        != seq!['C'][0]);
    assert(seq!['A'][0] != seq!['D'][0] && seq!['B'][0] != seq!['D'][0] && seq!['C'][0]
        != seq!['D'][0]);
    lemma_osc(ascii("133;A"@), Some(Event::PromptStart));
    lemma_osc(ascii("133;B"@), Some(Event::PromptEnd));
    lemma_osc(ascii("133;C"@), Some(Event::CommandStart));
    lemma_osc(ascii("133;D"@), Some(Event::CommandEnd(0)));
    lemma_osc(ascii("133;A;"@ + more), Some(Event::PromptStart));
    lemma_osc(ascii("133;B;"@ + more), Some(Event::PromptEnd));
    lemma_osc(ascii("133;C;"@ + more), Some(Event::CommandStart));
}

/// The mark of a finished command gives its exit code.
pub proof fn finished_commands_give_their_code(n: int)
    requires
        i32::MIN <= n <= i32::MAX,
    ensures
        crate::parser::osc_event(ascii("133;D;"@ + crate::text::signed_decimal(n))) == Some(
            Event::CommandEnd(n),
        ),
        osc_reports(
            ascii("133;D;"@ + crate::text::signed_decimal(n)),
            seq![Event::CommandEnd(n)],
        ),
{
    reveal_strlit("133;");
    reveal_strlit("133;D;");
    reveal_strlit("D;");
    let num = crate::text::signed_decimal(n);
    let abs = if n < 0 {
        (-n) as nat
    } else {
        n as nat
    };
    crate::text::decimal_reads_back(abs);
    let d = crate::text::decimal(abs);
    assert(is_printable(num)) by {
        assert forall|i: int| 0 <= i < num.len() implies ' ' <= #[trigger] num[i] <= '~' by {
            if n < 0 {
                if i > 0 {
                    assert(num[i] == d[i - 1]);
                    assert(crate::text::is_digit(d[i - 1]));
                }
            } else {
                assert(crate::text::is_digit(d[i]));
            }
        }
    }
    lemma_mark('D', num);
    crate::parser::exit_code_reads_back(n);
    assert("D;"@ + num =~= seq!['D', ';'] + num);
    assert("133;D;"@ + num =~= "133;"@ + seq!['D', ';'] + num);
    lemma_osc(ascii("133;D;"@ + num), Some(Event::CommandEnd(n)));
}

/// A mark with any other letter is consumed and reports nothing.
pub proof fn other_marks_report_nothing(letter: char, more: Seq<char>)
    requires
        ' ' <= letter <= '~',
        letter != ';',
        letter != 'A' && letter != 'B' && letter != 'C' && letter != 'D',
        is_printable(more),
    ensures
        osc_reports(ascii("133;"@ + seq![letter]), seq![]),
        osc_reports(ascii("133;"@ + seq![letter, ';'] + more), seq![]),
{
    reveal_strlit("A");
    reveal_strlit("B");
    reveal_strlit("C");
    reveal_strlit("D");
    lemma_mark(letter, more);
    let l = seq![letter];
    assert(l[0] == letter);
    assert("A"@[0] == 'A' && "B"@[0] == 'B' && "C"@[0] == 'C' && "D"@[0] == 'D');
    lemma_osc(ascii("133;"@ + seq![letter]), None);
    lemma_osc(ascii("133;"@ + seq![letter, ';'] + more), None);
}

// ---------------------------------------------------------------------------
// Directories and the clipboard
// ---------------------------------------------------------------------------

/// A path, in percent notation throughout: `%` and two hexadecimal digits for
/// each byte.
pub open spec fn escaped(path: Seq<u8>) -> Seq<char>
    decreases path.len(),
{
    if path.len() == 0 {
        seq![]
    } else {
        seq!['%', hex_digit(path[0] as nat / 16), hex_digit(path[0] as nat % 16)] + escaped(
            path.drop_first(),
        )
    }
}

/// A hexadecimal digit, in capitals.
pub open spec fn hex_digit(d: nat) -> char {
    if d < 10 {
        (0x30 + d) as char
    } else {
        (0x41 + d - 10) as char
    }
}

proof fn lemma_escaped(path: Seq<u8>)
    ensures
        is_printable(escaped(path)),
        !escaped(path).contains('/'),
        crate::parser::unescaped(ascii(escaped(path))) == path,
    decreases path.len(),
{
    let all = escaped(path);
    let bytes = ascii(all);
    if path.len() == 0 {
        assert(bytes =~= seq![]);
        assert(crate::parser::unescaped(bytes) =~= path);
    } else {
        let rest = path.drop_first();
        let hi = path[0] as nat / 16;
        let lo = path[0] as nat % 16;
        lemma_escaped(rest);
        let tail = escaped(rest);
        assert forall|i: int| 0 <= i < all.len() implies ' ' <= #[trigger] all[i] <= '~' && all[i]
            != '/' by {
            if i >= 3 {
                assert(all[i] == tail[i - 3]);
                assert(tail.contains(tail[i - 3]));
            }
        }
        assert(bytes[0] == 0x25 && bytes[1] == hex_digit(hi) as u8 && bytes[2] == hex_digit(lo) as u8);
        assert(bytes.skip(3) =~= ascii(tail));
        assert(crate::parser::hex_value(bytes[1]) == Some(hi));
        assert(crate::parser::hex_value(bytes[2]) == Some(lo));
        assert(hi * 16 + lo == path[0]);
        assert(crate::parser::unescaped(bytes) =~= path);
    }
}

proof fn lemma_cwd(rest: Seq<char>)
    requires
        is_printable(rest),
    ensures
        crate::parser::osc_event(ascii("7;"@ + rest)) == crate::parser::cwd_event(rest),
        is_payload(ascii("7;"@ + rest)),
{
    reveal_strlit("133;");
    reveal_strlit("7;");
    let s = "7;"@ + rest;
    assert(is_printable(s)) by {
        assert forall|i: int| 0 <= i < s.len() implies ' ' <= #[trigger] s[i] <= '~' by {
            if i >= 2 {
                assert(s[i] == rest[i - 2]);
            }
        }
    }
    lemma_ascii(s);
    if s.len() >= 4 {
        assert(s.subrange(0, 4)[0] == '7');
        assert("133;"@[0] == '1');
    }
    assert(s.subrange(0, 2) =~= "7;"@);
    assert(s.skip(2) =~= rest);
}

/// A directory is reported as the path behind the host of a `file://` address;
/// plain printable paths stay as they are.
pub proof fn directories_are_reported(host: Seq<char>, path: Seq<char>)
    requires
        is_printable(host),
        is_printable(path),
        !host.contains('/'),
        !path.contains('%'),
    ensures
        osc_reports(
            ascii("7;"@ + ("file://"@ + host + seq!['/'] + path)),
            seq![Event::CwdUpdate(seq!['/'] + path)],
        ),
        osc_reports(
            ascii("7;"@ + (seq!['/'] + path)),
            seq![Event::CwdUpdate(seq!['/'] + path)],
        ),
        osc_reports(ascii("7;"@), seq![]),
{
    reveal_strlit("file://");
    let shown = seq!['/'] + path;
    let url = "file://"@ + host + seq!['/'] + path;
    let none: Seq<char> = seq![];
    assert(is_printable(shown)) by {
        assert forall|i: int| 0 <= i < shown.len() implies ' ' <= #[trigger] shown[i] <= '~' by {
            if i > 0 {
                assert(shown[i] == path[i - 1]);
            }
        }
    }
    assert(is_printable(url)) by {
        assert forall|i: int| 0 <= i < url.len() implies ' ' <= #[trigger] url[i] <= '~' by {
            if 7 <= i < 7 + host.len() {
                assert(url[i] == host[i - 7]);
            } else if i > 7 + host.len() {
                assert(url[i] == path[i - 8 - host.len()]);
            }
        }
    }
    lemma_cwd(url);
    lemma_cwd(shown);
    lemma_cwd(none);
    let uri = host + seq!['/'] + path;
    assert(url.subrange(0, 7) =~= "file://"@);
    assert(url.skip(7) =~= uri);
    assert forall|j: int| 0 <= j < host.len() implies uri[j] != '/' by {
        assert(uri[j] == host[j]);
        assert(host.contains(host[j]));
    }
    assert(uri[host.len() as int] == '/');
    crate::text::lemma_until_at(uri, '/', host.len() as int);
    assert(uri.skip(host.len() as int) =~= shown);
    assert(crate::parser::cwd_part(url) == shown);
    if shown.len() >= 7 {
        assert(shown.subrange(0, 7)[0] == '/');
        assert("file://"@[0] == 'f');
    }
    assert(crate::parser::cwd_part(shown) == shown);
    lemma_ascii(shown);
    assert forall|i: int|
        0 <= i < vstd::utf8::encode_utf8(shown).len() implies vstd::utf8::encode_utf8(shown)[i]
        != 0x25 by {
        assert(ascii(shown)[i] == shown[i] as u8);
        if i > 0 {
            assert(shown[i] == path[i - 1]);
            assert(path.contains(path[i - 1]));
        }
    }
    crate::parser::plain_paths_stay(shown);
    lemma_osc(ascii("7;"@ + url), Some(Event::CwdUpdate(shown)));
    lemma_osc(ascii("7;"@ + shown), Some(Event::CwdUpdate(shown)));
    assert forall|i: int|
        0 <= i < vstd::utf8::encode_utf8(none).len() implies vstd::utf8::encode_utf8(none)[i]
        != 0x25 by {}
    crate::parser::plain_paths_stay(none);
    assert("7;"@ + none =~= "7;"@);
    lemma_osc(ascii("7;"@), None);
}

/// Percent notation in a reported directory stands for the bytes that it
/// denotes.
pub proof fn escaped_directories_are_reported(path: Seq<char>)
    requires
        path.len() > 0,
    ensures
        osc_reports(
            ascii("7;"@ + escaped(vstd::utf8::encode_utf8(path))),
            seq![Event::CwdUpdate(path)],
        ),
{
    reveal_strlit("file://");
    let bytes = vstd::utf8::encode_utf8(path);
    let e = escaped(bytes);
    lemma_escaped(bytes);
    lemma_ascii(e);
    lemma_cwd(e);
    vstd::utf8::encode_utf8_valid_utf8(path);
    vstd::utf8::encode_utf8_decode_utf8(path);
    if e.len() >= 7 {
        assert(e.subrange(0, 7)[0] == e[0]);
        assert("file://"@[0] == 'f');
    }
    assert(crate::parser::cwd_part(e) == e);
    lemma_osc(ascii("7;"@ + e), Some(Event::CwdUpdate(path)));
}

/// A text that an application puts on the clipboard is reported as it is; a
/// question for the clipboard is not answered.
pub proof fn the_clipboard_is_reported(text: Seq<char>)
    ensures
        osc_reports(
            ascii(
                "52;c;"@ + crate::text::widened(
                    crate::base64::encoded(vstd::utf8::encode_utf8(text)),
                ),
            ),
            seq![Event::ClipboardSet(text)],
        ),
        osc_reports(ascii("52;c;?"@), seq![]),
{
    reveal_strlit("133;");
    reveal_strlit("7;");
    reveal_strlit("52;");
    reveal_strlit("52;c;");
    reveal_strlit("52;c;?");
    reveal_strlit("?");
    let bytes = vstd::utf8::encode_utf8(text);
    let code = crate::base64::encoded(bytes);
    let s = "52;c;"@ + crate::text::widened(code);
    crate::base64::digits_read_back(bytes);
    assert(is_printable(s)) by {
        let d = crate::base64::digits_of(bytes);
        assert forall|i: int| 0 <= i < s.len() implies ' ' <= #[trigger] s[i] <= '~' by {
            if i >= 5 {
                assert(s[i] == code[i - 5] as char);
                if i - 5 < d.len() {
                    assert(crate::base64::sextet(d[i - 5]) is Some);
                }
            }
        }
    }
    lemma_ascii(s);
    crate::parser::clipboard_reads_back(text);
    lemma_osc(ascii(s), Some(Event::ClipboardSet(text)));
    let q = "52;c;?"@;
    lemma_ascii(q);
    assert(q.subrange(0, 4)[0] == '5');
    assert(q.subrange(0, 2)[0] == '5');
    assert("133;"@[0] == '1' && "7;"@[0] == '7');
    assert(q.subrange(0, 3) =~= "52;"@);
    let rest = q.skip(3);
    crate::text::lemma_until_at(rest, ';', 1);
    assert(rest.skip(2) =~= "?"@);
    lemma_osc(ascii(q), None);
}

/// Every other OSC sequence passes through to the display, ended by BEL.
pub proof fn other_commands_pass_through(payload: Seq<char>)
    requires
        is_printable(payload),
        payload.len() >= 2,
        payload[0] != '1' || payload[1] != '3',
        payload[0] != '7' || payload[1] != ';',
        payload[0] != '5' || payload[1] != '2',
    ensures
        osc_reports(
            ascii(payload),
            seq![Event::Bytes(seq![0x1bu8, 0x5du8] + ascii(payload) + seq![0x07u8])],
        ),
{
    reveal_strlit("133;");
    reveal_strlit("7;");
    reveal_strlit("52;");
    lemma_ascii(payload);
    if payload.len() >= 4 {
        assert(payload.subrange(0, 4)[0] == payload[0] && payload.subrange(0, 4)[1] == payload[1]);
        assert("133;"@[0] == '1' && "133;"@[1] == '3');
    }
    if payload.len() >= 3 {
        assert(payload.subrange(0, 3)[0] == payload[0] && payload.subrange(0, 3)[1] == payload[1]);
        assert("52;"@[0] == '5' && "52;"@[1] == '2');
    }
    assert(payload.subrange(0, 2)[0] == payload[0] && payload.subrange(0, 2)[1] == payload[1]);
    assert("7;"@[0] == '7' && "7;"@[1] == ';');
    lemma_osc(
        ascii(payload),
        Some(Event::Bytes(seq![0x1bu8, 0x5du8] + ascii(payload) + seq![0x07u8])),
    );
}

// ---------------------------------------------------------------------------
// Strings
// ---------------------------------------------------------------------------

proof fn lemma_apc_body(m: Machine, buf: Seq<u8>, d: Seq<u8>)
    requires
        m.position == Position::Apc(buf),
        is_payload(d),
    ensures
        m.run(d) == m.at(Position::Apc(buf + d)),
    decreases d.len(),
{
    if d.len() == 0 {
        assert(buf + d =~= buf);
    } else {
        reveal(Machine::step);
        let front = d.drop_last();
        assert(is_payload(front)) by {
            assert forall|i: int| 0 <= i < front.len() implies #[trigger] front[i] != 0x07
                && front[i] != 0x1b by {
                assert(front[i] == d[i]);
            }
        }
        lemma_apc_body(m, buf, front);
        assert(d[d.len() - 1] != 0x07);
        assert(buf + d =~= (buf + front).push(d.last()));
    }
}

/// An application command is reported whole, without its introducer and its
/// end.
pub proof fn application_commands_are_reported(body: Seq<u8>)
    requires
        is_payload(body),
    ensures
        reports(
            seq![0x1bu8, 0x5fu8] + body + seq![0x1bu8, 0x5cu8],
            seq![Event::ApcSequence(body)],
        ),
{
    let sequence = seq![0x1bu8, 0x5fu8] + body + seq![0x1bu8, 0x5cu8];
    let e = Event::ApcSequence(body);
    assert(emits(sequence, seq![e])) by {
        assert forall|x: Machine| x.position is Ground implies #[trigger] x.run(sequence) == (
        Machine { pass: seq![], events: x.events + display(x.pass) + seq![e], ..x }) by {
            reveal(Machine::step);
            let intro = seq![0x1bu8, 0x5fu8];
            let st = seq![0x1bu8, 0x5cu8];
            crate::parser::lemma_run_two(x, 0x1b, 0x5f);
            crate::parser::lemma_run_two(x.at(Position::Apc(body)), 0x1b, 0x5c);
            crate::parser::run_in_pieces(x, intro + body, st);
            crate::parser::run_in_pieces(x, intro, body);
            lemma_apc_body(x.at(Position::Apc(seq![])), seq![], body);
            assert(seq![] + body =~= body);
            assert(x.at(Position::Ground) =~= x);
            lemma_emit(x, Some(e));
        }
    }
    lemma_emits(sequence, seq![e]);
}

/// A device-control string or a privacy message leaves no trace: the display
/// bytes before and after it are one run.
pub proof fn device_strings_leave_no_trace(
    m: Machine,
    before: Seq<u8>,
    body: Seq<u8>,
    after: Seq<u8>,
)
    requires
        m.position is Ground,
        is_payload(body),
        !before.contains(0x1b),
        !after.contains(0x1b),
    ensures
        m.fed(before + (seq![0x1bu8, 0x50u8] + body + seq![0x1bu8, 0x5cu8]) + after).events
            == m.events + display(before + after),
        m.fed(before + (seq![0x1bu8, 0x5eu8] + body + seq![0x1bu8, 0x5cu8]) + after).events
            == m.events + display(before + after),
{
    lemma_consumed(m, before, 0x50, body, after);
    lemma_consumed(m, before, 0x5e, body, after);
}

proof fn lemma_consumed(m: Machine, before: Seq<u8>, kind: u8, body: Seq<u8>, after: Seq<u8>)
    requires
        m.position is Ground,
        kind == 0x50 || kind == 0x5e,
        is_payload(body),
        !before.contains(0x1b),
        !after.contains(0x1b),
    ensures
        m.fed(before + (seq![0x1bu8, kind] + body + seq![0x1bu8, 0x5cu8]) + after).events
            == m.events + display(before + after),
{
    let sequence = seq![0x1bu8, kind] + body + seq![0x1bu8, 0x5cu8];
    let start = Machine { pass: seq![], ..m };
    assert forall|i: int| 0 <= i < before.len() implies before[i] != 0x1b by {
        assert(before.contains(before[i]));
    }
    assert forall|i: int| 0 <= i < after.len() implies after[i] != 0x1b by {
        assert(after.contains(after[i]));
    }
    crate::parser::run_in_pieces(start, before + sequence, after);
    crate::parser::run_in_pieces(start, before, sequence);
    crate::parser::plain_bytes_pass(start, before);
    let x = start.show(before);
    assert(x.run(sequence) == x) by {
        reveal(Machine::step);
        let intro = seq![0x1bu8, kind];
        let st = seq![0x1bu8, 0x5cu8];
        let ignoring = x.at(Position::Ignore);
        crate::parser::lemma_run_two(x, 0x1b, kind);
        crate::parser::lemma_run_two(ignoring, 0x1b, 0x5c);
        crate::parser::run_in_pieces(x, intro + body, st);
        crate::parser::run_in_pieces(x, intro, body);
        crate::parser::lemma_ignored(ignoring, body);
        assert(ignoring.at(Position::IgnoreEsc).at(Position::Ground) =~= x);
    }
    crate::parser::plain_bytes_pass(x, after);
    let y = x.show(after);
    assert(y.pass =~= before + after);
    assert(y.flushed().events =~= m.events + display(before + after));
}

// ---------------------------------------------------------------------------
// Modes
// ---------------------------------------------------------------------------

proof fn lemma_csi(x: Machine, params: Seq<u8>, b: u8)
    requires
        x.position is Ground,
        params.len() <= 4096,
        forall|i: int| 0 <= i < params.len() ==> !(0x40 <= #[trigger] params[i] <= 0x7e),
        0x40 <= b <= 0x7e,
    ensures
        x.run(seq![0x1bu8, 0x5bu8] + params + seq![b]) == x.at(Position::Csi(params)).csi_step(
            params,
            b,
        ),
{
    reveal(Machine::step);
    let intro = seq![0x1bu8, 0x5bu8];
    crate::parser::lemma_run_two(x, 0x1b, 0x5b);
    crate::parser::run_in_pieces(x, intro + params, seq![b]);
    crate::parser::run_in_pieces(x, intro, params);
    crate::parser::lemma_csi_body(x.at(Position::Csi(seq![])), seq![], params);
    assert(seq![] + params =~= params);
    crate::parser::lemma_run_two(x.at(Position::Csi(params)), b, b);
}

proof fn lemma_alt(params: Seq<u8>)
    requires
        crate::parser::selects_alt_screen(params),
        params.len() <= 5,
        forall|i: int| 0 <= i < params.len() ==> !(0x40 <= #[trigger] params[i] <= 0x7e),
    ensures
        reports(seq![0x1bu8, 0x5bu8] + params + seq![0x68u8], seq![Event::AltScreenEnter]),
        reports(seq![0x1bu8, 0x5bu8] + params + seq![0x6cu8], seq![Event::AltScreenLeave]),
{
    let on = seq![0x1bu8, 0x5bu8] + params + seq![0x68u8];
    let off = seq![0x1bu8, 0x5bu8] + params + seq![0x6cu8];
    assert forall|x: Machine| x.position is Ground implies #[trigger] x.run(on) == (Machine {
        pass: seq![],
        events: x.events + display(x.pass) + seq![Event::AltScreenEnter],
        ..x
    }) by {
        lemma_csi(x, params, 0x68);
        assert(x.at(Position::Ground) =~= x);
        lemma_emit(x, Some(Event::AltScreenEnter));
    }
    lemma_emits(on, seq![Event::AltScreenEnter]);
    assert forall|x: Machine| x.position is Ground implies #[trigger] x.run(off) == (Machine {
        pass: seq![],
        events: x.events + display(x.pass) + seq![Event::AltScreenLeave],
        ..x
    }) by {
        lemma_csi(x, params, 0x6c);
        assert(x.at(Position::Ground) =~= x);
        lemma_emit(x, Some(Event::AltScreenLeave));
    }
    lemma_emits(off, seq![Event::AltScreenLeave]);
}

/// The private modes 47, 1047 and 1049 report that the alternate screen is
/// entered when they are set, and that it is left when they are reset.
pub proof fn the_alternate_screen_is_reported()
    ensures
        reports(ascii("\x1b[?47h"@), seq![Event::AltScreenEnter]),
        reports(ascii("\x1b[?1047h"@), seq![Event::AltScreenEnter]),
        reports(ascii("\x1b[?1049h"@), seq![Event::AltScreenEnter]),
        reports(ascii("\x1b[?47l"@), seq![Event::AltScreenLeave]),
        reports(ascii("\x1b[?1047l"@), seq![Event::AltScreenLeave]),
        reports(ascii("\x1b[?1049l"@), seq![Event::AltScreenLeave]),
{
    reveal_strlit("\x1b[?47h");
    reveal_strlit("\x1b[?1047h");
    reveal_strlit("\x1b[?1049h");
    reveal_strlit("\x1b[?47l");
    reveal_strlit("\x1b[?1047l");
    reveal_strlit("\x1b[?1049l");
    let a = seq![0x3fu8, 0x34u8, 0x37u8];
    let b = seq![0x3fu8, 0x31u8, 0x30u8, 0x34u8, 0x37u8];
    let c = seq![0x3fu8, 0x31u8, 0x30u8, 0x34u8, 0x39u8];
    lemma_alt(a);
    lemma_alt(b);
    lemma_alt(c);
    assert(ascii("\x1b[?47h"@) =~= seq![0x1bu8, 0x5bu8] + a + seq![0x68u8]);
    assert(ascii("\x1b[?1047h"@) =~= seq![0x1bu8, 0x5bu8] + b + seq![0x68u8]);
    assert(ascii("\x1b[?1049h"@) =~= seq![0x1bu8, 0x5bu8] + c + seq![0x68u8]);
    assert(ascii("\x1b[?47l"@) =~= seq![0x1bu8, 0x5bu8] + a + seq![0x6cu8]);
    assert(ascii("\x1b[?1047l"@) =~= seq![0x1bu8, 0x5bu8] + b + seq![0x6cu8]);
    assert(ascii("\x1b[?1049l"@) =~= seq![0x1bu8, 0x5bu8] + c + seq![0x6cu8]);
}

/// The modes after `ESC [ ? n h`, or `ESC [ ? n l`, in the notation of `n`.
pub open spec fn modes_after(m: Modes, n: nat, on: bool) -> Modes {
    Machine { position: Position::Ground, modes: m, pass: seq![], events: seq![] }.fed(
        seq![0x1bu8, 0x5bu8, 0x3fu8] + ascii(crate::text::decimal(n)) + seq![
            if on {
                0x68u8
            } else {
                0x6cu8
            },
        ],
    ).modes
}

proof fn lemma_mode(m: Modes, n: nat, on: bool)
    requires
        n <= 9999,
        n != 47 && n != 1047 && n != 1049,
    ensures
        modes_after(m, n, on) == crate::parser::mode_set(m, n, on),
{
    let d = ascii(crate::text::decimal(n));
    let params = seq![0x3fu8] + d;
    let b = if on {
        0x68u8
    } else {
        0x6cu8
    };
    crate::text::decimal_reads_back(n);
    let w = crate::text::decimal(n);
    assert(crate::text::widened(d) =~= w) by {
        assert forall|i: int| 0 <= i < w.len() implies crate::text::widened(d)[i] == w[i] by {
            assert(crate::text::is_digit(w[i]));
        }
    }
    assert forall|i: int| 0 <= i < d.len() implies 0x30 <= #[trigger] d[i] <= 0x39 by {
        assert(crate::text::is_digit(w[i]));
    }
    lemma_short(n);
    assert forall|i: int| 0 <= i < params.len() implies !(0x40 <= #[trigger] params[i] <= 0x7e) by {
        if i > 0 {
            assert(params[i] == d[i - 1]);
        }
    }
    let x = Machine { position: Position::Ground, modes: m, pass: seq![], events: seq![] };
    lemma_csi(x, params, b);
    assert(seq![0x1bu8, 0x5bu8, 0x3fu8] + d + seq![b] =~= seq![0x1bu8, 0x5bu8] + params + seq![b]);
    assert(params.drop_first() =~= d);
    crate::text::lemma_until_at(d, 0x3bu8, d.len() as int);
    assert(crate::text::split_on(d, 0x3bu8) =~= seq![d]);
    assert(crate::text::is_digit(w[0]));
    assert(d[0] != 0x3f);
    assert(crate::parser::mode_number(d) == Some(n));
    assert(seq![d].drop_last() =~= seq![]);
    assert(crate::parser::modes_set(m, seq![d].drop_last(), on) == m);
    assert(crate::parser::modes_set(m, seq![d], on) == crate::parser::mode_set(m, n, on));
    assert(!crate::parser::selects_alt_screen(params)) by {
        if crate::parser::selects_alt_screen(params) {
            lemma_alt_numbers(n, params);
        }
    }
}

proof fn lemma_short(n: nat)
    requires
        n <= 9999,
    ensures
        crate::text::decimal(n).len() <= 4,
{
    reveal_with_fuel(crate::text::decimal, 5);
}

proof fn lemma_alt_numbers(n: nat, params: Seq<u8>)
    requires
        params == seq![0x3fu8] + ascii(crate::text::decimal(n)),
        crate::parser::selects_alt_screen(params),
    ensures
        n == 47 || n == 1047 || n == 1049,
{
    let w = crate::text::decimal(n);
    crate::text::decimal_reads_back(n);
    let d = params.drop_first();
    assert(d =~= ascii(w));
    assert forall|i: int| 0 <= i < w.len() implies #[trigger] w[i] == d[i] as char by {
        assert(crate::text::is_digit(w[i]));
        assert(d[i] == w[i] as u8);
    }
    reveal_with_fuel(crate::text::digits_value, 5);
    if params.len() == 3 {
        assert(w =~= seq!['4', '7']);
        assert(seq!['4', '7'].drop_last() =~= seq!['4']);
        assert(seq!['4'].drop_last() =~= seq![]);
    } else if params[4] == 0x37 {
        assert(w =~= seq!['1', '0', '4', '7']);
        assert(seq!['1', '0', '4', '7'].drop_last() =~= seq!['1', '0', '4']);
        assert(seq!['1', '0', '4'].drop_last() =~= seq!['1', '0']);
        assert(seq!['1', '0'].drop_last() =~= seq!['1']);
        assert(seq!['1'].drop_last() =~= seq![]);
    } else {
        assert(w =~= seq!['1', '0', '4', '9']);
        assert(seq!['1', '0', '4', '9'].drop_last() =~= seq!['1', '0', '4']);
        assert(seq!['1', '0', '4'].drop_last() =~= seq!['1', '0']);
        assert(seq!['1', '0'].drop_last() =~= seq!['1']);
        assert(seq!['1'].drop_last() =~= seq![]);
    }
}

/// Mode 2004 brackets what is pasted and mode 1004 asks for reports of the
/// focus, as long as they are set; neither touches another mode.
pub proof fn paste_and_focus_modes_are_followed(m: Modes, on: bool)
    ensures
        modes_after(m, 2004, on) == (Modes { bracketed_paste: on, ..m }),
        modes_after(m, 1004, on) == (Modes { focus_events: on, ..m }),
{
    lemma_mode(m, 2004, on);
    lemma_mode(m, 1004, on);
}

/// Modes 9, 1000, 1002 and 1003 ask for reports of the mouse, each for more
/// than the one before: the one that asks for the most wins, and resetting any
/// of them ends the reports.
pub proof fn mouse_modes_are_followed(m: Modes)
    ensures
        modes_after(Modes { mouse_mode: MouseMode::Off, ..m }, 9, true) == (Modes {
            mouse_mode: MouseMode::X10,
            ..m
        }),
        modes_after(Modes { mouse_mode: MouseMode::Off, ..m }, 1000, true) == (Modes {
            mouse_mode: MouseMode::Normal,
            ..m
        }),
        modes_after(Modes { mouse_mode: MouseMode::Off, ..m }, 1002, true) == (Modes {
            mouse_mode: MouseMode::ButtonEvent,
            ..m
        }),
        modes_after(m, 1003, true) == (Modes { mouse_mode: MouseMode::AnyEvent, ..m }),
        m.mouse_mode == MouseMode::AnyEvent ==> modes_after(m, 1002, true) == m && modes_after(
            m,
            1000,
            true,
        ) == m && modes_after(m, 9, true) == m,
        m.mouse_mode == MouseMode::ButtonEvent ==> modes_after(m, 1000, true) == m && modes_after(
            m,
            9,
            true,
        ) == m,
        m.mouse_mode == MouseMode::Normal ==> modes_after(m, 9, true) == m && modes_after(
            m,
            1002,
            true,
        ).mouse_mode == MouseMode::ButtonEvent,
        m.mouse_mode == MouseMode::X10 ==> modes_after(m, 1000, true).mouse_mode
            == MouseMode::Normal && modes_after(m, 1002, true).mouse_mode == MouseMode::ButtonEvent,
        modes_after(m, 9, false) == (Modes { mouse_mode: MouseMode::Off, ..m }),
        modes_after(m, 1000, false) == (Modes { mouse_mode: MouseMode::Off, ..m }),
        modes_after(m, 1002, false) == (Modes { mouse_mode: MouseMode::Off, ..m }),
        modes_after(m, 1003, false) == (Modes { mouse_mode: MouseMode::Off, ..m }),
{
    let off = Modes { mouse_mode: MouseMode::Off, ..m };
    lemma_mode(off, 9, true);
    lemma_mode(off, 1000, true);
    lemma_mode(off, 1002, true);
    lemma_mode(m, 1003, true);
    lemma_mode(m, 1002, true);
    lemma_mode(m, 1000, true);
    lemma_mode(m, 9, true);
    lemma_mode(m, 9, false);
    lemma_mode(m, 1000, false);
    lemma_mode(m, 1002, false);
    lemma_mode(m, 1003, false);
}

/// Modes 1005, 1006 and 1015 choose how reports of the mouse are written; the
/// one that was set last holds until it is reset itself.
pub proof fn mouse_encodings_are_followed(m: Modes)
    ensures
        modes_after(m, 1005, true) == (Modes { mouse_encoding: MouseEncoding::Utf8, ..m }),
        modes_after(m, 1006, true) == (Modes { mouse_encoding: MouseEncoding::Sgr, ..m }),
        modes_after(m, 1015, true) == (Modes { mouse_encoding: MouseEncoding::Urxvt, ..m }),
        modes_after(modes_after(m, 1005, true), 1005, false).mouse_encoding
            == MouseEncoding::Default,
        modes_after(modes_after(m, 1006, true), 1006, false).mouse_encoding
            == MouseEncoding::Default,
        modes_after(modes_after(m, 1015, true), 1015, false).mouse_encoding
            == MouseEncoding::Default,
        modes_after(modes_after(m, 1006, true), 1005, false) == modes_after(m, 1006, true),
        modes_after(modes_after(m, 1006, true), 1015, false) == modes_after(m, 1006, true),
        modes_after(modes_after(m, 1015, true), 1006, false) == modes_after(m, 1015, true),
{
    lemma_mode(m, 1005, true);
    lemma_mode(m, 1006, true);
    lemma_mode(m, 1015, true);
    let u = modes_after(m, 1005, true);
    let s = modes_after(m, 1006, true);
    let x = modes_after(m, 1015, true);
    lemma_mode(u, 1005, false);
    lemma_mode(s, 1006, false);
    lemma_mode(x, 1015, false);
    lemma_mode(s, 1005, false);
    lemma_mode(s, 1015, false);
    lemma_mode(x, 1006, false);
}

} // verus!
