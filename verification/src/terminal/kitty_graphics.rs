//! Kitty graphics protocol (minimal subset) — APC `\e_G<keys>;<base64>\e\\`.
//!
//! Supported:
//! - `a=T` (transmit + display, default) and `a=t` (transmit only — buffered
//!   but not displayed). `a=q`/`a=d`/`a=p` are silently dropped.
//! - `f=100` (PNG, default), `f=32` (RGBA) and `f=24` (RGB); the last two
//!   require `s=<w>` + `v=<h>`.
//! - `t=d` (inline base64 payload, default). File and shared-memory transports
//!   are ignored.
//! - Chunked transmission via `m=1` (more) + final `m=0` (or absent).
//!
//! A per-image memory cap prevents a runaway shell from ballooning memory;
//! oversize payloads are dropped silently.

use std::collections::HashMap;

use vstd::prelude::*;
use vstd::slice::slice_subrange;

use crate::base64::read_digits;
use crate::text::{
    chars_of, find_byte, find_char, parse_u32, same_text, split_chars, text_of, trim,
    utf8_str,
};

verus! {

broadcast use vstd::std_specs::hash::group_hash_axioms;

/// Per-image base64 payload cap (before decoding) — 16 MB encoded.
pub const MAX_ENCODED_BYTES: usize = 16 * 1024 * 1024;

/// Per-block decoded image bytes cap (sum of all images attached to a block).
pub const MAX_PENDING_BYTES_PER_BLOCK: usize = 16 * 1024 * 1024;

/// Image-data format identifier from the `f=` key.
#[derive(Clone, Copy, Debug, PartialEq, Eq, Structural)]
pub enum Format {
    /// `f=100` — PNG.
    Png,
    /// `f=32` — 32-bit RGBA, raw pixels. Width/height come from `s=`/`v=`.
    Rgba,
    /// `f=24` — 24-bit RGB. Expanded to RGBA with full opacity.
    Rgb,
}

/// In-progress assembly. Multi-chunk uploads share an entry; the first chunk
/// records format and size, every chunk appends its base64 fragment.
#[derive(Debug)]
pub struct Pending {
    pub format: Format,
    pub width: u32,
    pub height: u32,
    pub encoded: Vec<u8>,
    /// `a=T` (display) vs `a=t` (transmit only).
    pub display: bool,
}

/// The mathematical value of a [`Pending`].
pub struct Upload {
    pub format: Format,
    pub width: u32,
    pub height: u32,
    pub encoded: Seq<u8>,
    pub display: bool,
}

impl View for Pending {
    type V = Upload;

    open spec fn view(&self) -> Upload {
        Upload {
            format: self.format,
            width: self.width,
            height: self.height,
            encoded: self.encoded@,
            display: self.display,
        }
    }
}

/// Result of a single APC G chunk.
#[derive(Debug)]
pub enum Outcome {
    /// A finished image ready to render: opaque or translucent pixels, four
    /// bytes each, row by row.
    Complete { width: u32, height: u32, rgba: Vec<u8> },
    /// A finished PNG file, still to be decoded.
    Png { data: Vec<u8>, display: bool },
    /// Buffered but not for display (`a=t`).
    CompleteTransmitOnly,
    /// More chunks are expected.
    Pending,
    /// The chunk was valid but is not supported, or too large.
    Skipped,
    Invalid,
}

/// The mathematical value of an [`Outcome`].
pub enum Answer {
    Complete { width: u32, height: u32, rgba: Seq<u8> },
    Png { data: Seq<u8>, display: bool },
    CompleteTransmitOnly,
    Pending,
    Skipped,
    Invalid,
}

impl View for Outcome {
    type V = Answer;

    open spec fn view(&self) -> Answer {
        match self {
            Outcome::Complete { width, height, rgba } => Answer::Complete {
                width: *width,
                height: *height,
                rgba: rgba@,
            },
            Outcome::Png { data, display } => Answer::Png { data: data@, display: *display },
            Outcome::CompleteTransmitOnly => Answer::CompleteTransmitOnly,
            Outcome::Pending => Answer::Pending,
            Outcome::Skipped => Answer::Skipped,
            Outcome::Invalid => Answer::Invalid,
        }
    }
}

/// What became of a PNG once the toolkit tried to decode it.
#[derive(Clone, Copy, Debug, PartialEq, Eq, Structural)]
pub enum PngOutcome {
    Complete,
    CompleteTransmitOnly,
    Invalid,
}

/// The outcome of a PNG upload, given whether its data could be decoded.
pub fn png_outcome(display: bool, decoded: bool) -> (res: PngOutcome)
    ensures
        res == (if !decoded {
            PngOutcome::Invalid
        } else if display {
            PngOutcome::Complete
        } else {
            PngOutcome::CompleteTransmitOnly
        }),
{
    if !decoded {
        PngOutcome::Invalid
    } else if display {
        PngOutcome::Complete
    } else {
        PngOutcome::CompleteTransmitOnly
    }
}

// ---------------------------------------------------------------------------
// Keys
// ---------------------------------------------------------------------------

/// The key and value of one `key=value`; `None` where there is no key.
pub open spec fn pair_of(s: Seq<char>) -> Option<(Seq<char>, Seq<char>)> {
    let i = crate::text::until(s, '=') as int;
    if i < s.len() && crate::text::trimmed(s.take(i)).len() > 0 {
        Some((crate::text::trimmed(s.take(i)), crate::text::trimmed(s.skip(i + 1))))
    } else {
        None
    }
}

/// The pairs among the parts, in order.
pub open spec fn pairs_of(parts: Seq<Seq<char>>) -> Seq<(Seq<char>, Seq<char>)>
    decreases parts.len(),
{
    if parts.len() == 0 {
        seq![]
    } else {
        match pair_of(parts.last()) {
            Some(p) => pairs_of(parts.drop_last()).push(p),
            None => pairs_of(parts.drop_last()),
        }
    }
}

/// The pairs of a header `key=value,key=value`. Empty or malformed entries are
/// passed over, and a header that is not UTF-8 has none.
pub open spec fn header_pairs(header: Seq<u8>) -> Seq<(Seq<char>, Seq<char>)> {
    if vstd::utf8::valid_utf8(header) {
        pairs_of(crate::text::split_on(vstd::utf8::decode_utf8(header), ','))
    } else {
        seq![]
    }
}

/// The value of a key; the last one counts.
pub open spec fn value_of(pairs: Seq<(Seq<char>, Seq<char>)>, key: Seq<char>) -> Option<Seq<char>>
    decreases pairs.len(),
{
    if pairs.len() == 0 {
        None
    } else if pairs.last().0 == key {
        Some(pairs.last().1)
    } else {
        value_of(pairs.drop_last(), key)
    }
}

/// The keys of a header with their values.
#[derive(Debug)]
pub struct Keys {
    pairs: Vec<(String, String)>,
}

impl View for Keys {
    type V = Seq<(Seq<char>, Seq<char>)>;

    closed spec fn view(&self) -> Seq<(Seq<char>, Seq<char>)> {
        Seq::new(self.pairs@.len(), |i: int| (self.pairs@[i].0@, self.pairs@[i].1@))
    }
}

impl Keys {
    /// The value of `key`, if the header has one.
    pub fn get(&self, key: &str) -> (res: Option<&str>)
        ensures
            res is Some <==> value_of(self@, key@) is Some,
            res matches Some(v) ==> value_of(self@, key@) == Some(v@),
    {
        let mut i: usize = self.pairs.len();
        assert(self@.take(i as int) =~= self@);
        while i > 0
            invariant
                i <= self.pairs.len(),
                value_of(self@.take(i as int), key@) == value_of(self@, key@),
            decreases i,
        {
            i -= 1;
            let ghost t = self@.take(i + 1);
            assert(t.last() == (self.pairs@[i as int].0@, self.pairs@[i as int].1@));
            assert(t.drop_last() =~= self@.take(i as int));
            if same_text(self.pairs[i].0.as_str(), key) {
                return Some(self.pairs[i].1.as_str());
            }
        }
        None
    }
}

fn read_pair(s: &[char]) -> (res: Option<(String, String)>)
    ensures
        res is Some <==> pair_of(s@) is Some,
        res matches Some(p) ==> pair_of(s@) == Some((p.0@, p.1@)),
{
    let i: usize = find_char(s, '=');
    if i < s.len() {
        let left = slice_subrange(s, 0, i);
        let right = slice_subrange(s, i + 1, s.len());
        assert(left@ =~= s@.take(i as int));
        assert(right@ =~= s@.skip(i + 1));
        let k = trim(left);
        if k.len() > 0 {
            return Some((text_of(k), text_of(trim(right))));
        }
    }
    None
}

/// Reads `key=value,key=value`.
pub fn parse_keys(bytes: &[u8]) -> (res: Keys)
    ensures
        res@ == header_pairs(bytes@),
{
    let mut out = Keys { pairs: Vec::new() };
    assert(out@ =~= seq![]);
    if let Some(s) = utf8_str(bytes) {
        let chars: Vec<char> = chars_of(s);
        let parts: Vec<&[char]> = split_chars(chars.as_slice(), ',');
        let ghost views = crate::text::views(parts@);
        let mut i: usize = 0;
        assert(views.take(0) =~= seq![]);
        while i < parts.len()
            invariant
                i <= parts.len(),
                views == crate::text::views(parts@),
                out@ == pairs_of(views.take(i as int)),
            decreases parts.len() - i,
        {
            proof {
                assert(views.take(i + 1).drop_last() =~= views.take(i as int));
                assert(views.take(i + 1).last() == parts@[i as int]@);
            }
            let ghost before = out@;
            if let Some(p) = read_pair(parts[i]) {
                let ghost v = (p.0@, p.1@);
                out.pairs.push(p);
                assert(out@ =~= before.push(v));
            }
            i += 1;
        }
        assert(views.take(i as int) =~= views);
    }
    out
}

// ---------------------------------------------------------------------------
// Payloads
// ---------------------------------------------------------------------------

/// White space inside a payload.
pub open spec fn is_blank(b: u8) -> bool {
    b == 0x20 || b == 0x09 || b == 0x0a || b == 0x0c || b == 0x0d
}

/// The payload without white space.
pub open spec fn condensed(s: Seq<u8>) -> Seq<u8>
    decreases s.len(),
{
    if s.len() == 0 {
        seq![]
    } else if is_blank(s.last()) {
        condensed(s.drop_last())
    } else {
        condensed(s.drop_last()).push(s.last())
    }
}

/// The digits without the padding at their end.
pub open spec fn unpadded(s: Seq<u8>) -> Seq<u8>
    decreases s.len(),
{
    if s.len() > 0 && s.last() == 0x3d {
        unpadded(s.drop_last())
    } else {
        s
    }
}

/// The bytes of a base64 text; `None` if anything but its padding is not a
/// base64 digit, or if there is padding and it is not the one that completes
/// the digits to a multiple of four.
pub open spec fn decoded(s: Seq<u8>) -> Option<Seq<u8>> {
    let d = unpadded(s);
    let pads = s.len() - d.len();
    if crate::base64::all_sextets(d) && (pads == 0 || pads == crate::base64::padding(
        d.len(),
    ).len()) {
        Some(crate::base64::bytes_of(d))
    } else {
        None
    }
}

/// Standard base64 decoder. `None` on an invalid alphabet or padding; padding
/// may be left out. White space is already stripped by the caller.
pub fn decode_base64(input: &[u8]) -> (res: Option<Vec<u8>>)
    ensures
        res is Some <==> decoded(input@) is Some,
        res matches Some(v) ==> decoded(input@) == Some(v@),
{
    let mut end: usize = input.len();
    assert(input@.take(end as int) =~= input@);
    while end > 0 && input[end - 1] == 0x3d
        invariant
            end <= input.len(),
            unpadded(input@.take(end as int)) == unpadded(input@),
        decreases end,
    {
        assert(input@.take(end as int).drop_last() =~= input@.take(end - 1));
        end -= 1;
    }
    let pads: usize = input.len() - end;
    let owed: usize = if end % 4 == 2 {
        2
    } else if end % 4 == 3 {
        1
    } else {
        0
    };
    if pads != 0 && pads != owed {
        return None;
    }
    let data = slice_subrange(input, 0, end);
    assert(data@ =~= input@.take(end as int));
    read_digits(data)
}

/// RGB pixels with full opacity added.
pub open spec fn opaque(rgb: Seq<u8>, n: nat) -> Seq<u8> {
    Seq::new(
        4 * n,
        |i: int|
            if i % 4 == 3 {
                0xffu8
            } else {
                rgb[i / 4 * 3 + i % 4]
            },
    )
}

/// The pixels of raw image data; `None` if a side is zero or data is missing.
pub open spec fn pixels(width: u32, height: u32, data: Seq<u8>, has_alpha: bool) -> Option<
    Seq<u8>,
> {
    let n = (width * height) as nat;
    let bytes_per_pixel: nat = if has_alpha {
        4
    } else {
        3
    };
    if width == 0 || height == 0 || data.len() < n * bytes_per_pixel {
        None
    } else if has_alpha {
        Some(data.take(n as int * 4))
    } else {
        Some(opaque(data, n))
    }
}

fn expand_rgb(data: &[u8], n: usize) -> (res: Vec<u8>)
    requires
        3 * n <= data@.len(),
    ensures
        res@ == opaque(data@, n as nat),
{
    let mut out: Vec<u8> = Vec::new();
    let mut k: usize = 0;
    while k < n
        invariant
            k <= n,
            3 * n <= data@.len(),
            out@ == opaque(data@, k as nat),
        decreases n - k,
    {
        let ghost before = out@;
        assert(3 * k + 3 <= data.len());
        out.push(data[3 * k]);
        out.push(data[3 * k + 1]);
        out.push(data[3 * k + 2]);
        out.push(0xff);
        proof {
            let next = opaque(data@, (k + 1) as nat);
            assert forall|i: int| 0 <= i < next.len() implies out@[i] == next[i] by {
                if i < 4 * k {
                    assert(out@[i] == before[i]);
                }
            }
            assert(out@ =~= next);
        }
        k += 1;
    }
    out
}

/// Builds RGBA pixels from raw data. Without alpha each 3-byte pixel is
/// expanded to 4 bytes with full opacity.
pub fn rgba_pixels(width: u32, height: u32, data: &[u8], has_alpha: bool) -> (res: Option<Vec<u8>>)
    ensures
        res is Some <==> pixels(width, height, data@, has_alpha) is Some,
        res matches Some(v) ==> pixels(width, height, data@, has_alpha) == Some(v@),
{
    if width == 0 || height == 0 {
        return None;
    }
    proof {
        assert(width * height <= 0xffff_ffff * 0xffff_ffff) by (nonlinear_arith)
            requires
                width <= 0xffff_ffff,
                height <= 0xffff_ffff,
        ;
        assert(0 <= width * height) by (nonlinear_arith)
            requires
                0 <= width,
                0 <= height,
        ;
    }
    let n: u128 = width as u128 * height as u128;
    let per_pixel: u128 = if has_alpha {
        4
    } else {
        3
    };
    if (data.len() as u128) < n * per_pixel {
        return None;
    }
    let count: usize = n as usize;
    if has_alpha {
        let part = slice_subrange(data, 0, count * 4);
        assert(part@ =~= data@.take(count * 4));
        let mut out: Vec<u8> = Vec::new();
        out.extend_from_slice(part);
        assert(out@ =~= part@);
        Some(out)
    } else {
        Some(expand_rgb(data, count))
    }
}

// ---------------------------------------------------------------------------
// Assembly
// ---------------------------------------------------------------------------

/// The uploads that are under way.
#[verifier::ext_equal]
pub struct Assembly {
    pub by_id: Map<u32, Upload>,
    /// The upload without an id.
    pub anon: Option<Upload>,
}

/// What a chunk asks for.
pub struct Request {
    /// The action is one of those that are supported.
    pub supported: bool,
    pub id: Option<u32>,
    pub more: bool,
    /// The entry that the chunk would begin; `None` if its format or transport
    /// is not supported.
    pub fresh: Option<Upload>,
}

/// The value, or the default where there is none.
pub open spec fn or_default(v: Option<Seq<char>>, default: Seq<char>) -> Seq<char> {
    match v {
        Some(v) => v,
        None => default,
    }
}

/// The number under a key, if there is one.
pub open spec fn key_number(pairs: Seq<(Seq<char>, Seq<char>)>, key: Seq<char>) -> Option<u32> {
    match value_of(pairs, key) {
        Some(v) => match crate::text::unsigned(v, u32::MAX as nat) {
            Some(n) => Some(n as u32),
            None => None,
        },
        None => None,
    }
}

/// The number, or zero where there is none.
pub open spec fn or_zero(n: Option<u32>) -> u32 {
    match n {
        Some(n) => n,
        None => 0,
    }
}

/// The pixel format that the number names.
pub open spec fn format_of(name: Seq<char>) -> Option<Format> {
    if name == "100"@ {
        Some(Format::Png)
    } else if name == "32"@ {
        Some(Format::Rgba)
    } else if name == "24"@ {
        Some(Format::Rgb)
    } else {
        None
    }
}

/// The entry that a first chunk begins.
pub open spec fn fresh_upload(pairs: Seq<(Seq<char>, Seq<char>)>) -> Option<Upload> {
    match format_of(or_default(value_of(pairs, "f"@), "100"@)) {
        Some(format) => if or_default(value_of(pairs, "t"@), "d"@) == "d"@ {
            Some(
                Upload {
                    format,
                    width: or_zero(key_number(pairs, "s"@)),
                    height: or_zero(key_number(pairs, "v"@)),
                    encoded: seq![],
                    display: or_default(value_of(pairs, "a"@), "T"@) == "T"@,
                },
            )
        } else {
            None
        },
        None => None,
    }
}

/// The request of a header.
pub open spec fn request_of(pairs: Seq<(Seq<char>, Seq<char>)>) -> Request {
    let action = or_default(value_of(pairs, "a"@), "T"@);
    Request {
        supported: action == "T"@ || action == "t"@,
        id: key_number(pairs, "i"@),
        more: value_of(pairs, "m"@) == Some("1"@),
        fresh: fresh_upload(pairs),
    }
}

/// The outcome of a completed upload.
pub open spec fn finished(u: Upload) -> Answer {
    match decoded(u.encoded) {
        None => Answer::Invalid,
        Some(data) => match u.format {
            Format::Png => Answer::Png { data, display: u.display },
            _ => match pixels(u.width, u.height, data, u.format == Format::Rgba) {
                None => Answer::Invalid,
                Some(rgba) => if u.display {
                    Answer::Complete { width: u.width, height: u.height, rgba }
                } else {
                    Answer::CompleteTransmitOnly
                },
            },
        },
    }
}

impl Assembly {
    /// The upload that a chunk goes on with.
    pub open spec fn slot(self, id: Option<u32>) -> Option<Upload> {
        match id {
            Some(k) => if self.by_id.dom().contains(k) {
                Some(self.by_id[k])
            } else {
                None
            },
            None => self.anon,
        }
    }

    /// The assembly without the upload of that id.
    pub open spec fn without(self, id: Option<u32>) -> Assembly {
        match id {
            Some(k) => Assembly { by_id: self.by_id.remove(k), ..self },
            None => Assembly { anon: None, ..self },
        }
    }

    /// The assembly with the upload under that id.
    pub open spec fn with(self, id: Option<u32>, u: Upload) -> Assembly {
        match id {
            Some(k) => Assembly { by_id: self.by_id.insert(k, u), ..self },
            None => Assembly { anon: Some(u), ..self },
        }
    }

    /// One chunk with its request and base64 body.
    pub open spec fn chunk(self, r: Request, body: Seq<u8>) -> (Assembly, Answer) {
        let entry = match self.slot(r.id) {
            Some(u) => Some(u),
            None => r.fresh,
        };
        match entry {
            Some(u) if r.supported => {
                let grown = Upload { encoded: u.encoded + condensed(body), ..u };
                if grown.encoded.len() > MAX_ENCODED_BYTES {
                    (self.without(r.id), Answer::Skipped)
                } else if r.more {
                    (self.with(r.id, grown), Answer::Pending)
                } else {
                    (self.without(r.id), finished(grown))
                }
            },
            _ => (self, Answer::Skipped),
        }
    }

    /// One APC payload.
    pub open spec fn fed(self, payload: Seq<u8>) -> (Assembly, Answer) {
        if payload.len() == 0 || payload[0] != 0x47 {
            (self, Answer::Invalid)
        } else {
            let rest = payload.skip(1);
            let i = crate::text::until(rest, 0x3b) as int;
            let body = if i < rest.len() {
                rest.skip(i + 1)
            } else {
                seq![]
            };
            self.chunk(request_of(header_pairs(rest.take(i))), body)
        }
    }

    /// No upload holds more than the cap.
    pub open spec fn capped(self) -> bool {
        &&& forall|k: u32|
            self.by_id.dom().contains(k) ==> (#[trigger] self.by_id[k]).encoded.len()
                <= MAX_ENCODED_BYTES
        &&& (self.anon matches Some(u) ==> u.encoded.len() <= MAX_ENCODED_BYTES)
    }
}

/// Stateful assembler — owns one entry per in-flight image id.
#[derive(Debug)]
pub struct Assembler {
    pub in_flight: HashMap<u32, Pending>,
    /// Single anonymous slot for chunked uploads without `i=`.
    pub anon: Option<Pending>,
}

/// The values of the uploads in a map.
pub open spec fn upload_views(m: Map<u32, Pending>) -> Map<u32, Upload> {
    m.map_values(|p: Pending| p@)
}

/// The upload without an id, by its view.
pub open spec fn anon_view(p: Option<Pending>) -> Option<Upload> {
    match p {
        Some(p) => Some(p@),
        None => None,
    }
}

impl View for Assembler {
    type V = Assembly;

    open spec fn view(&self) -> Assembly {
        Assembly { by_id: upload_views(self.in_flight@), anon: anon_view(self.anon) }
    }
}

fn key_or_zero(n: Option<u32>) -> (res: u32)
    ensures
        res == or_zero(n),
{
    match n {
        Some(n) => n,
        None => 0,
    }
}

impl Keys {
    fn number(&self, key: &str) -> (res: Option<u32>)
        ensures
            res == key_number(self@, key@),
    {
        match self.get(key) {
            Some(v) => parse_u32(chars_of(v).as_slice()),
            None => None,
        }
    }

    fn is(&self, key: &str, value: &str, default: &str) -> (res: bool)
        ensures
            res == (or_default(value_of(self@, key@), default@) == value@),
    {
        match self.get(key) {
            Some(v) => same_text(v, value),
            None => same_text(default, value),
        }
    }

    fn format(&self) -> (res: Option<Format>)
        ensures
            res == format_of(or_default(value_of(self@, "f"@), "100"@)),
    {
        if self.is("f", "100", "100") {
            Some(Format::Png)
        } else if self.is("f", "32", "100") {
            Some(Format::Rgba)
        } else if self.is("f", "24", "100") {
            Some(Format::Rgb)
        } else {
            None
        }
    }

    fn fresh(&self) -> (res: Option<Pending>)
        ensures
            anon_view(res) == fresh_upload(self@),
    {
        match self.format() {
            Some(format) => if self.is("t", "d", "d") {
                let encoded: Vec<u8> = Vec::new();
                assert(encoded@ =~= seq![]);
                Some(
                    Pending {
                        format,
                        width: key_or_zero(self.number("s")),
                        height: key_or_zero(self.number("v")),
                        encoded,
                        display: self.is("a", "T", "T"),
                    },
                )
            } else {
                None
            },
            None => None,
        }
    }
}

fn push_condensed(out: &mut Vec<u8>, body: &[u8])
    ensures
        final(out)@ == old(out)@ + condensed(body@),
{
    let mut i: usize = 0;
    assert(old(out)@ + condensed(body@.take(0)) =~= old(out)@);
    while i < body.len()
        invariant
            i <= body.len(),
            out@ == old(out)@ + condensed(body@.take(i as int)),
        decreases body.len() - i,
    {
        let b: u8 = body[i];
        proof {
            assert(body@.take(i + 1).drop_last() =~= body@.take(i as int));
        }
        if !(b == 0x20 || b == 0x09 || b == 0x0a || b == 0x0c || b == 0x0d) {
            out.push(b);
            assert(out@ =~= old(out)@ + condensed(body@.take(i + 1)));
        }
        i += 1;
    }
    assert(body@.take(i as int) =~= body@);
}

fn finish(p: Pending) -> (res: Outcome)
    ensures
        res@ == finished(p@),
{
    let data: Vec<u8> = match decode_base64(p.encoded.as_slice()) {
        Some(data) => data,
        None => {
            return Outcome::Invalid;
        },
    };
    let has_alpha: bool = match p.format {
        Format::Png => {
            return Outcome::Png { data, display: p.display };
        },
        Format::Rgba => true,
        Format::Rgb => false,
    };
    match rgba_pixels(p.width, p.height, data.as_slice(), has_alpha) {
        None => Outcome::Invalid,
        Some(rgba) => if p.display {
            Outcome::Complete { width: p.width, height: p.height, rgba }
        } else {
            Outcome::CompleteTransmitOnly
        },
    }
}

impl Assembler {
    /// An assembler with nothing pending.
    pub fn new() -> (res: Assembler)
        ensures
            res@ == (Assembly { by_id: Map::empty(), anon: None }),
            res@.capped(),
    {
        let res = Assembler { in_flight: HashMap::new(), anon: None };
        assert(res@.by_id =~= Map::empty());
        res
    }

    /// Drops all in-flight state — call when a block ends or the shell resets,
    /// so a half-uploaded image doesn't leak across commands.
    pub fn reset(&mut self)
        ensures
            final(self)@ == (Assembly { by_id: Map::empty(), anon: None }),
            final(self)@.capped(),
    {
        self.in_flight.clear();
        self.anon = None;
        assert(self@.by_id =~= Map::empty());
    }

    fn take_existing(&mut self, id: Option<u32>) -> (res: Option<Pending>)
        ensures
            anon_view(res) == old(self)@.slot(id),
            final(self)@ == old(self)@.without(id),
    {
        let ghost before = self@;
        match id {
            Some(k) => {
                let p: Option<Pending> = self.in_flight.remove(&k);
                assert(self@.by_id =~= before.by_id.remove(k));
                assert(self@ =~= before.without(id));
                p
            },
            None => {
                let p: Option<Pending> = self.anon.take();
                assert(self@ =~= before.without(id));
                p
            },
        }
    }

    fn put_back(&mut self, id: Option<u32>, p: Pending)
        ensures
            final(self)@ == old(self)@.with(id, p@),
    {
        let ghost before = self@;
        let ghost u = p@;
        match id {
            Some(k) => {
                self.in_flight.insert(k, p);
                assert(self@.by_id =~= before.by_id.insert(k, u));
                assert(self@ =~= before.with(id, u));
            },
            None => {
                self.anon = Some(p);
                assert(self@ =~= before.with(id, u));
            },
        }
    }

    fn take_chunk(&mut self, keys: &Keys, body: &[u8]) -> (res: Outcome)
        requires
            old(self)@.capped(),
        ensures
            (final(self)@, res@) == old(self)@.chunk(request_of(keys@), body@),
            final(self)@.capped(),
    {
        let ghost before = self@;
        let supported: bool = keys.is("a", "T", "T") || keys.is("a", "t", "T");
        if !supported {
            return Outcome::Skipped;
        }
        let id: Option<u32> = keys.number("i");
        let more: bool = match keys.get("m") {
            Some(v) => same_text(v, "1"),
            None => false,
        };
        let existing: Option<Pending> = self.take_existing(id);
        let mut entry: Pending = match existing {
            Some(p) => p,
            None => match keys.fresh() {
                Some(p) => p,
                None => {
                    proof {
                        assert(before.without(id) =~= before) by {
                            match id {
                                Some(k) => {
                                    assert(before.by_id.remove(k) =~= before.by_id);
                                },
                                None => {},
                            }
                        }
                    }
                    return Outcome::Skipped;
                },
            },
        };
        let ghost begun = entry@;
        push_condensed(&mut entry.encoded, body);
        assert(entry@ == Upload { encoded: begun.encoded + condensed(body@), ..begun });
        if entry.encoded.len() > MAX_ENCODED_BYTES {
            return Outcome::Skipped;
        }
        if more {
            proof {
                match id {
                    Some(k) => {
                        assert(before.without(id).by_id.insert(k, entry@) =~= before.by_id.insert(
                            k,
                            entry@,
                        ));
                    },
                    None => {},
                }
                assert(before.without(id).with(id, entry@) =~= before.with(id, entry@));
            }
            self.put_back(id, entry);
            return Outcome::Pending;
        }
        finish(entry)
    }

    /// Takes one APC payload: the bytes between `\e_` and the terminating
    /// `\e\\`, so it starts with `G`.
    pub fn feed(&mut self, payload: &[u8]) -> (res: Outcome)
        requires
            old(self)@.capped(),
        ensures
            (final(self)@, res@) == old(self)@.fed(payload@),
            final(self)@.capped(),
    {
        if payload.len() == 0 || payload[0] != 0x47 {
            return Outcome::Invalid;
        }
        let rest = slice_subrange(payload, 1, payload.len());
        assert(rest@ =~= payload@.skip(1));
        let i: usize = find_byte(rest, 0x3b);
        let header = slice_subrange(rest, 0, i);
        assert(header@ =~= rest@.take(i as int));
        let body = if i < rest.len() {
            slice_subrange(rest, i + 1, rest.len())
        } else {
            slice_subrange(rest, 0, 0)
        };
        proof {
            if i < rest.len() {
                assert(body@ =~= rest@.skip(i + 1));
            } else {
                assert(body@ =~= seq![]);
            }
        }
        let keys: Keys = parse_keys(header);
        self.take_chunk(&keys, body)
    }
}

impl Default for Assembler {
    fn default() -> (res: Assembler)
        ensures
            res@ == (Assembly { by_id: Map::empty(), anon: None }),
            res@.capped(),
    {
        Assembler::new()
    }
}

// ---------------------------------------------------------------------------
// Laws
// ---------------------------------------------------------------------------

proof fn lemma_condensed_concat(a: Seq<u8>, b: Seq<u8>)
    ensures
        condensed(a + b) == condensed(a) + condensed(b),
    decreases b.len(),
{
    if b.len() == 0 {
        assert(a + b =~= a);
        assert(condensed(a) + condensed(b) =~= condensed(a));
    } else {
        lemma_condensed_concat(a, b.drop_last());
        assert((a + b).drop_last() =~= a + b.drop_last());
        assert(condensed(a + b) =~= condensed(a) + condensed(b));
    }
}

/// An image that is sent in two chunks comes out as the same image sent at
/// once, and leaves the assembly in the same state: `first` promises more,
/// `last` does not, both are of one upload, and the whole is not too large.
pub proof fn chunks_add_up(s: Assembly, first: Request, last: Request, a: Seq<u8>, b: Seq<u8>)
    requires
        first.supported,
        last.supported,
        first.more,
        !last.more,
        first.id == last.id,
        s.slot(first.id) is Some || first.fresh is Some,
        (match s.slot(first.id) {
            Some(u) => u.encoded.len(),
            None => first.fresh->0.encoded.len(),
        }) + condensed(a + b).len() <= MAX_ENCODED_BYTES,
    ensures
        s.chunk(first, a).1 is Pending,
        s.chunk(first, a).0.chunk(last, b) == s.chunk((Request { more: false, ..first }), a + b),
{
    lemma_condensed_concat(a, b);
    let u = match s.slot(first.id) {
        Some(u) => u,
        None => first.fresh->0,
    };
    let one = Upload { encoded: u.encoded + condensed(a), ..u };
    let t = s.with(first.id, one);
    assert(s.chunk(first, a).0 == t);
    assert(one.encoded + condensed(b) =~= u.encoded + condensed(a + b));
    match first.id {
        Some(k) => {
            assert(s.by_id.insert(k, one).remove(k) =~= s.by_id.remove(k));
        },
        None => {},
    }
    assert(t.without(first.id) =~= s.without(first.id));
}

/// Chunks of one upload leave every other upload alone.
pub proof fn uploads_do_not_interfere(s: Assembly, r: Request, body: Seq<u8>, other: Option<u32>)
    requires
        other != r.id,
    ensures
        s.chunk(r, body).0.slot(other) == s.slot(other),
{
}

/// Decoding the base64 notation of data gives the data back.
pub proof fn base64_reads_back(data: Seq<u8>)
    ensures
        decoded(crate::base64::encoded(data)) == Some(data),
{
    crate::base64::digits_read_back(data);
    let d = crate::base64::digits_of(data);
    let p = crate::base64::padding(d.len());
    reveal_with_fuel(unpadded, 3);
    assert(unpadded(d) == d) by {
        if d.len() > 0 {
            assert(d[d.len() - 1] != 0x3d);
        }
    }
    if p.len() == 1 {
        assert((d + p).drop_last() =~= d);
    } else if p.len() == 2 {
        assert((d + p).drop_last() =~= d.push(0x3d));
        assert(d.push(0x3d).drop_last() =~= d);
    } else {
        assert(d + p =~= d);
    }
}

/// Pixels come out in full: four bytes for each.
pub proof fn pixels_are_complete(width: u32, height: u32, data: Seq<u8>, has_alpha: bool)
    ensures
        pixels(width, height, data, has_alpha) matches Some(rgba) ==> rgba.len() == 4 * (width
            * height),
{
    assert(0 <= width * height) by (nonlinear_arith)
        requires
            0 <= width,
            0 <= height,
    ;
}

} // verus!
