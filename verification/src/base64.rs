//! The base64 alphabet and the bytes that a run of its digits stands for.

use vstd::prelude::*;

verus! {

/// The value of a base64 digit.
pub open spec fn sextet(b: u8) -> Option<nat> {
    if 0x41 <= b <= 0x5a {
        Some((b - 0x41) as nat)
    } else if 0x61 <= b <= 0x7a {
        Some((b - 0x61 + 26) as nat)
    } else if 0x30 <= b <= 0x39 {
        Some((b - 0x30 + 52) as nat)
    } else if b == 0x2b {
        Some(62)
    } else if b == 0x2f {
        Some(63)
    } else {
        None
    }
}

/// The base64 digit of value `v`.
pub open spec fn digit(v: nat) -> u8 {
    if v < 26 {
        (0x41 + v) as u8
    } else if v < 52 {
        (0x61 + v - 26) as u8
    } else if v < 62 {
        (0x30 + v - 52) as u8
    } else if v == 62 {
        0x2b
    } else {
        0x2f
    }
}

/// Every byte of `s` is a base64 digit.
pub open spec fn all_sextets(s: Seq<u8>) -> bool {
    forall|i: int| 0 <= i < s.len() ==> sextet(#[trigger] s[i]) is Some
}

/// The value of a byte that is a base64 digit.
pub open spec fn val(b: u8) -> nat {
    sextet(b)->0
}

/// The bytes that a run of base64 digits without padding stands for: three for
/// every four digits, and the whole bytes of what is left over.
pub open spec fn bytes_of(s: Seq<u8>) -> Seq<u8>
    decreases s.len(),
{
    if s.len() >= 4 {
        seq![
            (val(s[0]) * 4 + val(s[1]) / 16) as u8,
            ((val(s[1]) % 16) * 16 + val(s[2]) / 4) as u8,
            ((val(s[2]) % 4) * 64 + val(s[3])) as u8,
        ] + bytes_of(s.skip(4))
    } else if s.len() == 3 {
        seq![
            (val(s[0]) * 4 + val(s[1]) / 16) as u8,
            ((val(s[1]) % 16) * 16 + val(s[2]) / 4) as u8,
        ]
    } else if s.len() == 2 {
        seq![(val(s[0]) * 4 + val(s[1]) / 16) as u8]
    } else {
        seq![]
    }
}

/// The base64 digits of a run of bytes, without padding.
pub open spec fn digits_of(s: Seq<u8>) -> Seq<u8>
    decreases s.len(),
{
    if s.len() >= 3 {
        seq![
            digit((s[0] / 4) as nat),
            digit(((s[0] % 4) * 16 + s[1] / 16) as nat),
            digit(((s[1] % 16) * 4 + s[2] / 64) as nat),
            digit((s[2] % 64) as nat),
        ] + digits_of(s.skip(3))
    } else if s.len() == 2 {
        seq![
            digit((s[0] / 4) as nat),
            digit(((s[0] % 4) * 16 + s[1] / 16) as nat),
            digit(((s[1] % 16) * 4) as nat),
        ]
    } else if s.len() == 1 {
        seq![digit((s[0] / 4) as nat), digit(((s[0] % 4) * 16) as nat)]
    } else {
        seq![]
    }
}

/// The padding that completes `n` digits to a multiple of four.
pub open spec fn padding(n: nat) -> Seq<u8> {
    if n % 4 == 2 {
        seq![0x3d, 0x3d]
    } else if n % 4 == 3 {
        seq![0x3d]
    } else {
        seq![]
    }
}

/// The base64 notation of a run of bytes, with padding.
pub open spec fn encoded(s: Seq<u8>) -> Seq<u8> {
    digits_of(s) + padding(digits_of(s).len())
}

pub(crate) proof fn lemma_digit(v: nat)
    requires
        v < 64,
    ensures
        sextet(digit(v)) == Some(v),
        digit(v) != 0x3d && digit(v) != 0x0a && digit(v) != 0x0d,
{
}

/// The digits in the order of their values: capitals, small letters, decimal
/// digits, plus and slash.
pub open spec fn alphabet() -> Seq<char> {
    "ABCDEFGHIJKLMNOPQRSTUVWXYZabcdefghijklmnopqrstuvwxyz0123456789+/"@
}

/// A digit is worth its place in the alphabet, and no other byte is a digit.
pub proof fn digits_are_worth_their_place(v: int, b: u8)
    requires
        0 <= v < 64,
        !alphabet().contains(b as char),
    ensures
        alphabet().len() == 64,
        sextet(alphabet()[v] as u8) == Some(v as nat),
        sextet(b) is None,
{
    reveal_strlit("ABCDEFGHIJKLMNOPQRSTUVWXYZabcdefghijklmnopqrstuvwxyz0123456789+/");
    if sextet(b) is Some {
        let k = sextet(b)->0 as int;
        assert(0 <= k < 64);
        assert(alphabet()[k] == b as char);
    }
}

/// Four digits are three bytes: both are the same number, written with the
/// first place highest.
pub proof fn four_digits_are_three_bytes(s: Seq<u8>)
    requires
        s.len() == 4,
        all_sextets(s),
    ensures
        bytes_of(s).len() == 3,
        bytes_of(s)[0] * 0x1_0000 + bytes_of(s)[1] * 0x100 + bytes_of(s)[2] == val(s[0]) * 0x4_0000
            + val(s[1]) * 0x1000 + val(s[2]) * 0x40 + val(s[3]),
{
    assert(sextet(s[0]) is Some && sextet(s[1]) is Some && sextet(s[2]) is Some && sextet(s[3])
        is Some);
    assert(bytes_of(s.skip(4)) =~= seq![]);
    let (a, b, c, d) = (val(s[0]), val(s[1]), val(s[2]), val(s[3]));
    assert(a < 64 && b < 64 && c < 64 && d < 64);
    assert(bytes_of(s)[0] == a * 4 + b / 16);
    assert(bytes_of(s)[1] == (b % 16) * 16 + c / 4);
    assert(bytes_of(s)[2] == (c % 4) * 64 + d);
}

/// Reading the digits of a run of bytes gives the bytes back.
pub proof fn digits_read_back(s: Seq<u8>)
    ensures
        all_sextets(digits_of(s)),
        forall|i: int|
            0 <= i < digits_of(s).len() ==> #[trigger] digits_of(s)[i] != 0x3d && digits_of(s)[i]
                != 0x0a && digits_of(s)[i] != 0x0d,
        bytes_of(digits_of(s)) == s,
        digits_of(s).len() % 4 != 1,
    decreases s.len(),
{
    let d = digits_of(s);
    if s.len() >= 3 {
        lemma_digit((s[0] / 4) as nat);
        lemma_digit(((s[0] % 4) * 16 + s[1] / 16) as nat);
        lemma_digit(((s[1] % 16) * 4 + s[2] / 64) as nat);
        lemma_digit((s[2] % 64) as nat);
        digits_read_back(s.skip(3));
        let rest = digits_of(s.skip(3));
        assert(d.skip(4) =~= rest);
        assert forall|i: int| 0 <= i < d.len() implies sextet(#[trigger] d[i]) is Some && d[i]
            != 0x3d && d[i] != 0x0a && d[i] != 0x0d by {
            if i >= 4 {
                assert(d[i] == rest[i - 4]);
            }
        }
        assert(bytes_of(d) =~= s.take(3) + bytes_of(rest));
        assert(s =~= s.take(3) + s.skip(3));
    } else if s.len() == 2 {
        lemma_digit((s[0] / 4) as nat);
        lemma_digit(((s[0] % 4) * 16 + s[1] / 16) as nat);
        lemma_digit(((s[1] % 16) * 4) as nat);
        assert(bytes_of(d) =~= s);
    } else if s.len() == 1 {
        lemma_digit((s[0] / 4) as nat);
        lemma_digit(((s[0] % 4) * 16) as nat);
        assert(bytes_of(d) =~= s);
    } else {
        assert(bytes_of(d) =~= s);
    }
}

/// The value of a base64 digit.
pub(crate) fn sextet_of(b: u8) -> (res: Option<u8>)
    ensures
        res is Some <==> sextet(b) is Some,
        res matches Some(v) ==> v < 64 && sextet(b) == Some(v as nat),
{
    if 0x41 <= b && b <= 0x5a {
        Some(b - 0x41)
    } else if 0x61 <= b && b <= 0x7a {
        Some(b - 0x61 + 26)
    } else if 0x30 <= b && b <= 0x39 {
        Some(b - 0x30 + 52)
    } else if b == 0x2b {
        Some(62)
    } else if b == 0x2f {
        Some(63)
    } else {
        None
    }
}

/// The bytes that a run of base64 digits stands for; `None` if a byte is not a
/// digit.
pub(crate) fn read_digits(s: &[u8]) -> (res: Option<Vec<u8>>)
    ensures
        res is Some <==> all_sextets(s@),
        res matches Some(v) ==> v@ == bytes_of(s@),
{
    let mut vals: Vec<u8> = Vec::new();
    let mut i: usize = 0;
    while i < s.len()
        invariant
            i <= s.len(),
            vals.len() == i,
            forall|j: int|
                0 <= j < i ==> #[trigger] vals@[j] < 64 && sextet(s@[j]) == Some(vals@[j] as nat),
        decreases s.len() - i,
    {
        match sextet_of(s[i]) {
            Some(v) => vals.push(v),
            None => {
                assert(sextet(s@[i as int]) is None);
                return None;
            },
        }
        i += 1;
    }
    assert forall|j: int| 0 <= j < s@.len() implies sextet(#[trigger] s@[j]) is Some by {
        assert(vals@[j] < 64);
    }
    let mut out: Vec<u8> = Vec::new();
    let mut k: usize = 0;
    assert(s@.skip(0) =~= s@);
    while vals.len() - k >= 4
        invariant
            k <= vals.len(),
            vals.len() == s.len(),
            forall|j: int|
                0 <= j < s.len() ==> #[trigger] vals@[j] < 64 && sextet(s@[j]) == Some(
                    vals@[j] as nat,
                ),
            out@ + bytes_of(s@.skip(k as int)) == bytes_of(s@),
        decreases vals.len() - k,
    {
        let ghost before = out@;
        let ghost rest = s@.skip(k as int);
        let (a, b, c, d) = (vals[k], vals[k + 1], vals[k + 2], vals[k + 3]);
        out.push(a * 4 + b / 16);
        out.push((b % 16) * 16 + c / 4);
        out.push((c % 4) * 64 + d);
        proof {
            assert(rest[0] == s@[k as int] && rest[1] == s@[k + 1] && rest[2] == s@[k + 2]
                && rest[3] == s@[k + 3]);
            assert(rest.skip(4) =~= s@.skip(k + 4));
            assert(out@ + bytes_of(s@.skip(k + 4)) =~= before + bytes_of(rest));
        }
        k += 4;
    }
    let ghost before = out@;
    let ghost rest = s@.skip(k as int);
    if vals.len() - k == 3 {
        let (a, b, c) = (vals[k], vals[k + 1], vals[k + 2]);
        out.push(a * 4 + b / 16);
        out.push((b % 16) * 16 + c / 4);
        assert(rest[0] == s@[k as int] && rest[1] == s@[k + 1] && rest[2] == s@[k + 2]);
    } else if vals.len() - k == 2 {
        let (a, b) = (vals[k], vals[k + 1]);
        out.push(a * 4 + b / 16);
        assert(rest[0] == s@[k as int] && rest[1] == s@[k + 1]);
    }
    assert(out@ =~= before + bytes_of(rest));
    Some(out)
}

} // verus!
