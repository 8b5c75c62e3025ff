//! What comes of the images that programs send, told of the payloads as they
//! are written and of the pixels that come out.

use super::kitty_graphics::{Answer, Assembly, MAX_ENCODED_BYTES};
use vstd::prelude::*;

verus! {

// ---------------------------------------------------------------------------
// Headers
// ---------------------------------------------------------------------------

/// The bytes of an ASCII text.
pub open spec fn ascii(s: Seq<char>) -> Seq<u8> {
    Seq::new(s.len(), |i: int| s[i] as u8)
}

/// A letter or a digit.
pub open spec fn is_letter_or_digit(c: char) -> bool {
    '0' <= c <= '9' || 'A' <= c <= 'Z' || 'a' <= c <= 'z'
}

/// A nonempty run of letters and digits.
pub open spec fn is_word(s: Seq<char>) -> bool {
    s.len() > 0 && forall|i: int| 0 <= i < s.len() ==> is_letter_or_digit(#[trigger] s[i])
}

/// One key with its value.
pub open spec fn entry(p: (Seq<char>, Seq<char>)) -> Seq<char> {
    p.0 + seq!['='] + p.1
}

/// A header, the keys and values in order.
pub open spec fn header(pairs: Seq<(Seq<char>, Seq<char>)>) -> Seq<char> {
    crate::text::joined(Seq::new(pairs.len(), |i: int| entry(pairs[i])), seq![','])
}

/// The payload of an image: `G`, the header, a semicolon and the data.
pub open spec fn payload(pairs: Seq<(Seq<char>, Seq<char>)>, body: Seq<u8>) -> Seq<u8> {
    seq![0x47u8] + ascii(header(pairs)) + seq![0x3bu8] + body
}

spec fn are_words(pairs: Seq<(Seq<char>, Seq<char>)>) -> bool {
    forall|i: int|
        0 <= i < pairs.len() ==> is_word((#[trigger] pairs[i]).0) && is_word(pairs[i].1)
}

proof fn lemma_trimmed_word(s: Seq<char>)
    requires
        is_word(s),
    ensures
        crate::text::trimmed(s) == s,
{
    assert(is_letter_or_digit(s[0]));
    assert(is_letter_or_digit(s[s.len() - 1]));
}

proof fn lemma_pair(p: (Seq<char>, Seq<char>))
    requires
        is_word(p.0),
        is_word(p.1),
    ensures
        super::kitty_graphics::pair_of(entry(p)) == Some(p),
        forall|j: int|
            0 <= j < entry(p).len() ==> is_letter_or_digit(#[trigger] entry(p)[j]) || entry(p)[j]
                == '=',
{
    let s = entry(p);
    let n = p.0.len() as int;
    assert forall|j: int| 0 <= j < s.len() implies is_letter_or_digit(#[trigger] s[j]) || s[j]
        == '=' by {
        if j < n {
            assert(s[j] == p.0[j]);
        } else if j > n {
            assert(s[j] == p.1[j - n - 1]);
        }
    }
    assert forall|j: int| 0 <= j < n implies s[j] != '=' by {
        assert(s[j] == p.0[j]);
    }
    assert(s[n] == '=');
    crate::text::lemma_until_at(s, '=', n);
    assert(s.take(n) =~= p.0);
    assert(s.skip(n + 1) =~= p.1);
    lemma_trimmed_word(p.0);
    lemma_trimmed_word(p.1);
}

proof fn lemma_pairs(pairs: Seq<(Seq<char>, Seq<char>)>)
    requires
        are_words(pairs),
    ensures
        super::kitty_graphics::pairs_of(Seq::new(pairs.len(), |i: int| entry(pairs[i]))) == pairs,
    decreases pairs.len(),
{
    let parts = Seq::new(pairs.len(), |i: int| entry(pairs[i]));
    if pairs.len() == 0 {
        assert(super::kitty_graphics::pairs_of(parts) =~= pairs);
    } else {
        let front = pairs.drop_last();
        assert(are_words(front)) by {
            assert forall|i: int| 0 <= i < front.len() implies is_word((#[trigger] front[i]).0)
                && is_word(front[i].1) by {
                assert(front[i] == pairs[i]);
            }
        }
        lemma_pairs(front);
        assert(parts.drop_last() =~= Seq::new(front.len(), |i: int| entry(front[i])));
        let last = pairs[pairs.len() - 1];
        lemma_pair(last);
        assert(front.push(last) =~= pairs);
    }
}

proof fn lemma_header_chars(pairs: Seq<(Seq<char>, Seq<char>)>)
    requires
        are_words(pairs),
    ensures
        forall|j: int|
            0 <= j < header(pairs).len() ==> is_letter_or_digit(#[trigger] header(pairs)[j])
                || header(pairs)[j] == '=' || header(pairs)[j] == ',',
    decreases pairs.len(),
{
    let parts = Seq::new(pairs.len(), |i: int| entry(pairs[i]));
    let h = header(pairs);
    if pairs.len() > 0 {
        crate::text::lemma_joined_front(parts, seq![',']);
        let tail = pairs.drop_first();
        assert(are_words(tail)) by {
            assert forall|i: int| 0 <= i < tail.len() implies is_word((#[trigger] tail[i]).0)
                && is_word(tail[i].1) by {
                assert(tail[i] == pairs[i + 1]);
            }
        }
        lemma_header_chars(tail);
        lemma_pair(pairs[0]);
        let e = entry(pairs[0]);
        let more = header(tail);
        assert(parts.drop_first() =~= Seq::new(tail.len(), |i: int| entry(tail[i])));
        assert forall|j: int| 0 <= j < h.len() implies is_letter_or_digit(#[trigger] h[j]) || h[j]
            == '=' || h[j] == ',' by {
            if j < e.len() {
                assert(h[j] == e[j]);
            } else if j > e.len() {
                assert(h[j] == more[j - e.len() - 1]);
            }
        }
    }
}

proof fn lemma_header(pairs: Seq<(Seq<char>, Seq<char>)>)
    requires
        are_words(pairs),
        pairs.len() > 0,
    ensures
        super::kitty_graphics::header_pairs(ascii(header(pairs))) == pairs,
        !ascii(header(pairs)).contains(0x3b),
{
    let h = header(pairs);
    let b = ascii(h);
    lemma_header_chars(pairs);
    assert forall|i: int| 0 <= i < b.len() implies #[trigger] b[i] < 0x80 && b[i] != 0x3b by {
        assert(is_letter_or_digit(h[i]) || h[i] == '=' || h[i] == ',');
    }
    assert(crate::text::widened(b) =~= h) by {
        assert forall|i: int| 0 <= i < h.len() implies crate::text::widened(b)[i] == h[i] by {
            assert(is_letter_or_digit(h[i]) || h[i] == '=' || h[i] == ',');
        }
    }
    crate::text::ascii_bytes_are_utf8(b);
    vstd::utf8::encode_utf8_valid_utf8(h);
    vstd::utf8::encode_utf8_decode_utf8(h);
    let parts = Seq::new(pairs.len(), |i: int| entry(pairs[i]));
    assert forall|i: int, j: int|
        0 <= i < parts.len() && 0 <= j < parts[i].len() implies #[trigger] parts[i][j] != ',' by {
        assert(is_word(pairs[i].0));
        lemma_pair(pairs[i]);
        assert(is_letter_or_digit(entry(pairs[i])[j]) || entry(pairs[i])[j] == '=');
    }
    crate::text::split_undoes_join(parts, ',');
    lemma_pairs(pairs);
}

proof fn lemma_fed(s: Assembly, pairs: Seq<(Seq<char>, Seq<char>)>, body: Seq<u8>)
    requires
        are_words(pairs),
        pairs.len() > 0,
    ensures
        s.fed(payload(pairs, body)) == s.chunk(super::kitty_graphics::request_of(pairs), body),
{
    let b = ascii(header(pairs));
    let all = payload(pairs, body);
    lemma_header(pairs);
    let rest = all.skip(1);
    let n = b.len() as int;
    assert(rest =~= b + seq![0x3bu8] + body);
    assert forall|j: int| 0 <= j < n implies rest[j] != 0x3b by {
        assert(rest[j] == b[j]);
        assert(b.contains(b[j]));
    }
    assert(rest[n] == 0x3b);
    crate::text::lemma_until_at(rest, 0x3bu8, n);
    assert(rest.take(n) =~= b);
    assert(rest.skip(n + 1) =~= body);
    assert(all[0] == 0x47);
}

proof fn lemma_letters()
    ensures
        is_word("a"@) && is_word("f"@) && is_word("i"@) && is_word("m"@) && is_word("s"@)
            && is_word("t"@) && is_word("v"@) && is_word("T"@) && is_word("d"@) && is_word("0"@)
            && is_word("1"@) && is_word("24"@) && is_word("32"@) && is_word("100"@),
        "a"@ != "f"@ && "a"@ != "i"@ && "a"@ != "m"@ && "a"@ != "s"@ && "a"@ != "t"@ && "a"@
            != "v"@,
        "f"@ != "i"@ && "f"@ != "m"@ && "f"@ != "s"@ && "f"@ != "t"@ && "f"@ != "v"@,
        "i"@ != "m"@ && "i"@ != "s"@ && "i"@ != "t"@ && "i"@ != "v"@,
        "m"@ != "s"@ && "m"@ != "t"@ && "m"@ != "v"@,
        "s"@ != "t"@ && "s"@ != "v"@ && "t"@ != "v"@,
        "T"@ != "t"@ && "0"@ != "1"@,
        "24"@ != "32"@ && "24"@ != "100"@ && "32"@ != "100"@,
{
    reveal_strlit("a");
    reveal_strlit("f");
    reveal_strlit("i");
    reveal_strlit("m");
    reveal_strlit("s");
    reveal_strlit("t");
    reveal_strlit("v");
    reveal_strlit("T");
    reveal_strlit("d");
    reveal_strlit("0");
    reveal_strlit("1");
    reveal_strlit("24");
    reveal_strlit("32");
    reveal_strlit("100");
    assert("a"@[0] == 'a' && "f"@[0] == 'f' && "i"@[0] == 'i' && "m"@[0] == 'm');
    assert("s"@[0] == 's' && "t"@[0] == 't' && "v"@[0] == 'v' && "T"@[0] == 'T');
    assert("0"@[0] == '0' && "1"@[0] == '1');
    assert("24"@[0] == '2' && "32"@[0] == '3' && "100"@[0] == '1');
}

proof fn lemma_number(n: u32)
    ensures
        is_word(crate::text::decimal(n as nat)),
        crate::text::unsigned(crate::text::decimal(n as nat), u32::MAX as nat) == Some(n as nat),
{
    let d = crate::text::decimal(n as nat);
    crate::text::decimal_reads_back(n as nat);
    assert(crate::text::is_digit(d[0]));
    assert forall|i: int| 0 <= i < d.len() implies is_letter_or_digit(#[trigger] d[i]) by {
        assert(crate::text::is_digit(d[i]));
    }
}

proof fn lemma_condensed(d: Seq<u8>)
    requires
        forall|i: int| 0 <= i < d.len() ==> !super::kitty_graphics::is_blank(#[trigger] d[i]),
    ensures
        super::kitty_graphics::condensed(d) == d,
    decreases d.len(),
{
    if d.len() > 0 {
        let front = d.drop_last();
        assert forall|i: int| 0 <= i < front.len() implies !super::kitty_graphics::is_blank(
            #[trigger] front[i],
        ) by {
            assert(front[i] == d[i]);
        }
        lemma_condensed(front);
        assert(!super::kitty_graphics::is_blank(d[d.len() - 1]));
        assert(front.push(d.last()) =~= d);
    } else {
        assert(super::kitty_graphics::condensed(d) =~= d);
    }
}

proof fn lemma_encoded(data: Seq<u8>)
    ensures
        super::kitty_graphics::condensed(crate::base64::encoded(data)) == crate::base64::encoded(
            data,
        ),
        super::kitty_graphics::decoded(crate::base64::encoded(data)) == Some(data),
{
    let e = crate::base64::encoded(data);
    let d = crate::base64::digits_of(data);
    crate::base64::digits_read_back(data);
    assert forall|i: int| 0 <= i < e.len() implies !super::kitty_graphics::is_blank(
        #[trigger] e[i],
    ) by {
        if i < d.len() {
            assert(e[i] == d[i]);
            assert(crate::base64::sextet(d[i]) is Some);
        }
    }
    lemma_condensed(e);
    super::kitty_graphics::base64_reads_back(data);
}

// ---------------------------------------------------------------------------
// Whole images
// ---------------------------------------------------------------------------

/// The header of raw pixels for display: format, width, height.
pub open spec fn raw_header(format: Seq<char>, w: u32, h: u32) -> Seq<(Seq<char>, Seq<char>)> {
    seq![
        ("a"@, "T"@),
        ("f"@, format),
        ("s"@, crate::text::decimal(w as nat)),
        ("v"@, crate::text::decimal(h as nat)),
    ]
}

/// The payload of raw pixels in one chunk, as a program writes it:
/// `Ga=T,f=<format>,s=<width>,v=<height>;<base64>`.
pub open spec fn raw_payload(format: Seq<char>, w: u32, h: u32, data: Seq<u8>) -> Seq<u8> {
    ascii(
        "Ga=T,f="@ + format + ",s="@ + crate::text::decimal(w as nat) + ",v="@
            + crate::text::decimal(h as nat) + ";"@,
    ) + crate::base64::encoded(data)
}

proof fn lemma_raw_payload(format: Seq<char>, w: u32, h: u32, data: Seq<u8>)
    ensures
        raw_payload(format, w, h, data) == payload(
            raw_header(format, w, h),
            crate::base64::encoded(data),
        ),
{
    let pairs = raw_header(format, w, h);
    let sw = crate::text::decimal(w as nat);
    let sh = crate::text::decimal(h as nat);
    let parts = Seq::new(pairs.len(), |i: int| entry(pairs[i]));
    reveal_strlit("a");
    reveal_strlit("f");
    reveal_strlit("s");
    reveal_strlit("v");
    reveal_strlit("T");
    reveal_strlit("Ga=T,f=");
    reveal_strlit(",s=");
    reveal_strlit(",v=");
    reveal_strlit(";");
    let comma = seq![','];
    crate::text::lemma_joined_front(parts, comma);
    let t1 = parts.drop_first();
    crate::text::lemma_joined_front(t1, comma);
    let t2 = t1.drop_first();
    crate::text::lemma_joined_front(t2, comma);
    let t3 = t2.drop_first();
    crate::text::lemma_joined_front(t3, comma);
    assert(parts[0] =~= seq!['a', '=', 'T']);
    assert(t1[0] =~= seq!['f', '='] + format);
    assert(t2[0] =~= seq!['s', '='] + sw);
    assert(t3[0] =~= seq!['v', '='] + sh);
    let h3 = crate::text::joined(t3, comma);
    let h2 = crate::text::joined(t2, comma);
    let h1 = crate::text::joined(t1, comma);
    assert(h3 == t3[0]);
    assert(h2 == t2[0] + comma + h3);
    assert(h1 == t1[0] + comma + h2);
    assert(header(pairs) == parts[0] + comma + h1);
    let text = "Ga=T,f="@ + format + ",s="@ + sw + ",v="@ + sh + ";"@;
    assert(text =~= seq!['G'] + header(pairs) + seq![';']);
    assert(ascii(text) =~= seq![0x47u8] + ascii(header(pairs)) + seq![0x3bu8]);
    assert(raw_payload(format, w, h, data) =~= payload(pairs, crate::base64::encoded(data)));
}

proof fn lemma_raw(s: Assembly, format: Seq<char>, w: u32, h: u32, data: Seq<u8>)
    requires
        s.anon is None,
        format == "24"@ || format == "32"@,
        crate::base64::encoded(data).len() <= MAX_ENCODED_BYTES,
    ensures
        s.fed(raw_payload(format, w, h, data)) == (
            s,
            match super::kitty_graphics::pixels(w, h, data, format == "32"@) {
                Some(rgba) => Answer::Complete { width: w, height: h, rgba },
                None => Answer::Invalid,
            },
        ),
{
    let pairs = raw_header(format, w, h);
    let body = crate::base64::encoded(data);
    lemma_raw_payload(format, w, h, data);
    lemma_letters();
    lemma_number(w);
    lemma_number(h);
    assert(are_words(pairs));
    lemma_fed(s, pairs, body);
    lemma_encoded(data);
    reveal_with_fuel(super::kitty_graphics::value_of, 5);
    let p3 = pairs.drop_last();
    let p2 = p3.drop_last();
    let p1 = p2.drop_last();
    assert(pairs.last() == pairs[3]);
    assert(p3.last() == pairs[2]);
    assert(p2.last() == pairs[1]);
    assert(p1.last() == pairs[0]);
    assert(p1.drop_last().len() == 0);
    assert(super::kitty_graphics::value_of(pairs, "a"@) == Some("T"@));
    assert(super::kitty_graphics::value_of(pairs, "f"@) == Some(format));
    assert(super::kitty_graphics::value_of(pairs, "s"@) == Some(pairs[2].1));
    assert(super::kitty_graphics::value_of(pairs, "v"@) == Some(pairs[3].1));
    assert(super::kitty_graphics::value_of(pairs, "t"@) is None);
    assert(super::kitty_graphics::value_of(pairs, "i"@) is None);
    assert(super::kitty_graphics::value_of(pairs, "m"@) is None);
    let none: Seq<u8> = seq![];
    assert(none + body =~= body);
    assert(s.without(None) =~= s);
}

/// An image of three bytes for each pixel, sent in one chunk, comes out in the
/// width of `s=` and the height of `v=`, its pixels in order and opaque.
pub proof fn images_of_three_bytes_come_out_whole(s: Assembly, w: u32, h: u32, data: Seq<u8>)
    requires
        s.anon is None,
        w >= 1,
        h >= 1,
        data.len() == 3 * (w * h),
        crate::base64::encoded(data).len() <= MAX_ENCODED_BYTES,
    ensures
        ({
            let (t, answer) = s.fed(raw_payload("24"@, w, h, data));
            &&& t == s
            &&& answer is Complete
            &&& answer->width == w
            &&& answer->height == h
            &&& answer->rgba.len() == 4 * (w * h)
            &&& forall|i: int, k: int|
                0 <= i < w * h && 0 <= k < 3 ==> #[trigger] answer->rgba[4 * i + k] == data[3 * i + k]
            &&& forall|i: int| 0 <= i < w * h ==> #[trigger] answer->rgba[4 * i + 3] == 255
        }),
{
    lemma_letters();
    assert(0 <= w * h) by (nonlinear_arith)
        requires
            0 <= w,
            0 <= h,
    ;
    lemma_raw(s, "24"@, w, h, data);
    let n = (w * h) as nat;
    let rgba = super::kitty_graphics::opaque(data, n);
    assert forall|i: int, k: int|
        0 <= i < w * h && 0 <= k < 3 implies #[trigger] rgba[4 * i + k] == data[3 * i + k] by {
        assert((4 * i + k) % 4 == k && (4 * i + k) / 4 == i);
    }
    assert forall|i: int| 0 <= i < w * h implies #[trigger] rgba[4 * i + 3] == 255 by {
        assert((4 * i + 3) % 4 == 3);
    }
}

/// An image of four bytes for each pixel comes out as it is, in the width of
/// `s=` and the height of `v=`.
pub proof fn images_of_four_bytes_come_out_whole(s: Assembly, w: u32, h: u32, data: Seq<u8>)
    requires
        s.anon is None,
        w >= 1,
        h >= 1,
        data.len() == 4 * (w * h),
        crate::base64::encoded(data).len() <= MAX_ENCODED_BYTES,
    ensures
        s.fed(raw_payload("32"@, w, h, data)) == (
            s,
            (Answer::Complete { width: w, height: h, rgba: data }),
        ),
{
    lemma_letters();
    assert(0 <= w * h) by (nonlinear_arith)
        requires
            0 <= w,
            0 <= h,
    ;
    lemma_raw(s, "32"@, w, h, data);
    assert(data.take(data.len() as int) =~= data);
}

/// An image that lacks data for its size, or has no size, is invalid.
pub proof fn images_need_all_their_data(s: Assembly, w: u32, h: u32, data: Seq<u8>)
    requires
        s.anon is None,
        crate::base64::encoded(data).len() <= MAX_ENCODED_BYTES,
    ensures
        w == 0 || h == 0 || data.len() < 3 * (w * h) ==> s.fed(raw_payload("24"@, w, h, data)) == (
            s,
            Answer::Invalid,
        ),
        w == 0 || h == 0 || data.len() < 4 * (w * h) ==> s.fed(raw_payload("32"@, w, h, data)) == (
            s,
            Answer::Invalid,
        ),
{
    lemma_letters();
    assert(0 <= w * h) by (nonlinear_arith)
        requires
            0 <= w,
            0 <= h,
    ;
    lemma_raw(s, "24"@, w, h, data);
    lemma_raw(s, "32"@, w, h, data);
}

// ---------------------------------------------------------------------------
// Keys
// ---------------------------------------------------------------------------

proof fn lemma_one_key(s: Assembly, key: Seq<char>, value: Seq<char>, body: Seq<u8>)
    requires
        is_word(key),
        is_word(value),
    ensures
        s.fed(payload(seq![(key, value)], body)) == s.chunk(
            super::kitty_graphics::request_of(seq![(key, value)]),
            body,
        ),
        forall|k: Seq<char>| #[trigger]
            super::kitty_graphics::value_of(seq![(key, value)], k) == (if k == key {
                Some(value)
            } else {
                None
            }),
{
    let pairs = seq![(key, value)];
    lemma_fed(s, pairs, body);
    assert forall|k: Seq<char>| #[trigger]
        super::kitty_graphics::value_of(pairs, k) == (if k == key {
            Some(value)
        } else {
            None
        }) by {
        reveal_with_fuel(super::kitty_graphics::value_of, 2);
        assert(pairs.last() == (key, value));
        assert(pairs.drop_last().len() == 0);
    }
}

/// A PNG file that is sent in one chunk comes out byte for byte, for display
/// with `a=T` or with `f=100` alone, and for later with `a=t`.
pub proof fn files_come_out_whole(s: Assembly, data: Seq<u8>)
    requires
        s.anon is None,
        crate::base64::encoded(data).len() <= MAX_ENCODED_BYTES,
    ensures
        s.fed(payload(seq![("a"@, "T"@)], crate::base64::encoded(data))) == (
            s,
            (Answer::Png { data, display: true }),
        ),
        s.fed(payload(seq![("f"@, "100"@)], crate::base64::encoded(data))) == (
            s,
            (Answer::Png { data, display: true }),
        ),
        s.fed(payload(seq![("a"@, "t"@)], crate::base64::encoded(data))) == (
            s,
            (Answer::Png { data, display: false }),
        ),
{
    let body = crate::base64::encoded(data);
    lemma_letters();
    lemma_encoded(data);
    lemma_one_key(s, "a"@, "T"@, body);
    lemma_one_key(s, "f"@, "100"@, body);
    lemma_one_key(s, "a"@, "t"@, body);
    let none: Seq<u8> = seq![];
    assert(none + body =~= body);
    assert(s.without(None) =~= s);
}

/// Any other action, transport or format is passed over, and so is what does
/// not begin with `G`; neither touches what is under way.
pub proof fn other_requests_are_passed_over(
    s: Assembly,
    action: Seq<char>,
    transport: Seq<char>,
    format: Seq<char>,
    body: Seq<u8>,
    other: Seq<u8>,
)
    requires
        is_word(action) && action != "T"@ && action != "t"@,
        is_word(transport) && transport != "d"@,
        is_word(format) && format != "100"@ && format != "32"@ && format != "24"@,
        other.len() == 0 || other[0] != 0x47,
        s.anon is None,
    ensures
        s.fed(payload(seq![("a"@, action)], body)) == (s, Answer::Skipped),
        s.fed(payload(seq![("t"@, transport)], body)) == (s, Answer::Skipped),
        s.fed(payload(seq![("f"@, format)], body)) == (s, Answer::Skipped),
        s.fed(other) == (s, Answer::Invalid),
{
    lemma_letters();
    lemma_one_key(s, "a"@, action, body);
    lemma_one_key(s, "t"@, transport, body);
    lemma_one_key(s, "f"@, format, body);
}

/// A file in two chunks, the first marked `m=1` and the last `m=0`, is the file
/// whose notation the two bodies make up.
pub proof fn files_come_in_chunks(s: Assembly, data: Seq<u8>, n: int)
    requires
        s.anon is None,
        0 <= n <= crate::base64::encoded(data).len() <= MAX_ENCODED_BYTES,
    ensures
        s.fed(payload(seq![("m"@, "1"@)], crate::base64::encoded(data).take(n))).1
            == Answer::Pending,
        s.fed(payload(seq![("m"@, "1"@)], crate::base64::encoded(data).take(n))).0.fed(
            payload(seq![("m"@, "0"@)], crate::base64::encoded(data).skip(n)),
        ) == (s, (Answer::Png { data, display: true })),
{
    let body = crate::base64::encoded(data);
    let a = body.take(n);
    let b = body.skip(n);
    assert(a + b =~= body);
    lemma_letters();
    lemma_encoded(data);
    lemma_one_key(s, "m"@, "1"@, a);
    let first = super::kitty_graphics::request_of(seq![("m"@, "1"@)]);
    let t = s.chunk(first, a).0;
    lemma_one_key(t, "m"@, "0"@, b);
    let last = super::kitty_graphics::request_of(seq![("m"@, "0"@)]);
    super::kitty_graphics::chunks_add_up(s, first, last, a, b);
    let none: Seq<u8> = seq![];
    assert(none + body =~= body);
    assert(s.without(None) =~= s);
}

/// A chunk with `i=` goes on with the upload of that number and no other.
pub proof fn chunks_go_to_their_upload(s: Assembly, id: u32, other: u32, body: Seq<u8>)
    requires
        other != id,
        !s.by_id.dom().contains(id),
        super::kitty_graphics::condensed(body).len() <= MAX_ENCODED_BYTES,
    ensures
        ({
            let pairs = seq![("i"@, crate::text::decimal(id as nat)), ("m"@, "1"@)];
            let (t, answer) = s.fed(payload(pairs, body));
            &&& answer == Answer::Pending
            &&& t.by_id.dom() == s.by_id.dom().insert(id)
            &&& t.by_id[id].encoded == super::kitty_graphics::condensed(body)
            &&& t.anon == s.anon
            &&& s.by_id.dom().contains(other) ==> t.by_id[other] == s.by_id[other]
        }),
{
    let pairs = seq![("i"@, crate::text::decimal(id as nat)), ("m"@, "1"@)];
    lemma_letters();
    lemma_number(id);
    assert(are_words(pairs));
    lemma_fed(s, pairs, body);
    reveal_with_fuel(super::kitty_graphics::value_of, 3);
    let p1 = pairs.drop_last();
    assert(pairs.last() == pairs[1]);
    assert(p1.last() == pairs[0]);
    assert(p1.drop_last().len() == 0);
    assert(super::kitty_graphics::value_of(pairs, "i"@) == Some(pairs[0].1));
    assert(super::kitty_graphics::value_of(pairs, "m"@) == Some("1"@));
    assert(super::kitty_graphics::value_of(pairs, "a"@) is None);
    assert(super::kitty_graphics::value_of(pairs, "f"@) is None);
    assert(super::kitty_graphics::value_of(pairs, "t"@) is None);
    let none: Seq<u8> = seq![];
    let c = super::kitty_graphics::condensed(body);
    assert(none + c =~= c);
    let t = s.fed(payload(pairs, body)).0;
    assert(t.by_id.dom() =~= s.by_id.dom().insert(id));
}

/// An upload that grows beyond the cap is dropped.
pub proof fn oversize_uploads_are_dropped(s: Assembly, body: Seq<u8>)
    requires
        s.anon is None,
        super::kitty_graphics::condensed(body).len() > MAX_ENCODED_BYTES,
    ensures
        s.fed(payload(seq![("a"@, "T"@)], body)) == (s, Answer::Skipped),
        s.fed(payload(seq![("m"@, "1"@)], body)) == (s, Answer::Skipped),
{
    lemma_letters();
    lemma_one_key(s, "a"@, "T"@, body);
    lemma_one_key(s, "m"@, "1"@, body);
    assert(s.without(None) =~= s);
}

} // verus!
