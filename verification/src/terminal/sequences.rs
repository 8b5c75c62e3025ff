//! What the control sequences do to the screen, one by one, told of the bytes
//! that a program writes and of the cells and the cursor that it then finds.

use super::ansi::Rgb;
use super::grid::{Cell, Screen};
use vstd::prelude::*;

verus! {

// ---------------------------------------------------------------------------
// The bytes of a sequence
// ---------------------------------------------------------------------------

/// The decimal digits of a number, in ASCII.
pub open spec fn digits(n: nat) -> Seq<u8>
    decreases n,
{
    if n < 10 {
        seq![(0x30 + n) as u8]
    } else {
        digits(n / 10).push((0x30 + n % 10) as u8)
    }
}

/// `ESC [`, the parameters, and the final byte.
pub open spec fn csi_bytes(params: Seq<u8>, b: u8) -> Seq<u8> {
    seq![0x1bu8, 0x5bu8] + params + seq![b]
}

/// Two numbers with a semicolon between them.
pub open spec fn two_numbers(m: nat, n: nat) -> Seq<u8> {
    digits(m) + seq![0x3bu8] + digits(n)
}

/// The digits are digits, and as characters they are the decimal notation.
pub(crate) proof fn lemma_digits(n: nat)
    ensures
        digits(n).len() > 0,
        forall|i: int| 0 <= i < digits(n).len() ==> 0x30 <= #[trigger] digits(n)[i] <= 0x39,
        crate::text::widened(digits(n)) == crate::text::decimal(n),
    decreases n,
{
    if n < 10 {
        assert(crate::text::widened(digits(n)) =~= crate::text::decimal(n));
    } else {
        lemma_digits(n / 10);
        let d = digits(n);
        let front = digits(n / 10);
        assert forall|i: int| 0 <= i < d.len() implies 0x30 <= #[trigger] d[i] <= 0x39 by {
            if i < front.len() {
                assert(d[i] == front[i]);
            }
        }
        let w = crate::text::widened(front);
        assert forall|i: int| 0 <= i < d.len() implies #[trigger] crate::text::widened(d)[i]
            == crate::text::decimal(n)[i] by {
            if i < front.len() {
                assert(w[i] == front[i] as char);
                assert(crate::text::decimal(n / 10)[i] == w[i]);
            }
        }
        assert(crate::text::widened(d) =~= crate::text::decimal(n));
    }
}

proof fn lemma_unsigned(n: nat)
    requires
        n <= u32::MAX,
    ensures
        crate::text::unsigned(crate::text::widened(digits(n)), u32::MAX as nat) == Some(n),
{
    lemma_digits(n);
    crate::text::decimal_reads_back(n);
    assert(crate::text::is_digit(crate::text::decimal(n)[0]));
}

/// The parameters of a sequence with one number.
pub(super) proof fn lemma_one_number(n: nat)
    requires
        n <= u32::MAX,
    ensures
        super::grid::csi_numbers(digits(n)) == seq![n],
{
    let p = digits(n);
    lemma_digits(n);
    lemma_unsigned(n);
    assert(super::grid::with_semicolons(p) =~= p);
    crate::text::lemma_until_at(p, 0x3bu8, p.len() as int);
    assert(crate::text::split_on(p, 0x3bu8) =~= seq![p]);
    assert(super::grid::csi_numbers(p) =~= seq![n]);
}

/// The parameters of a sequence with two numbers.
pub(super) proof fn lemma_two_numbers(m: nat, n: nat)
    requires
        m <= u32::MAX,
        n <= u32::MAX,
    ensures
        super::grid::csi_numbers(two_numbers(m, n)) == seq![m, n],
        forall|i: int| 0 <= i < two_numbers(m, n).len() ==> 0x30 <= #[trigger] two_numbers(m, n)[i]
            <= 0x3b,
{
    let a = digits(m);
    let b = digits(n);
    let p = two_numbers(m, n);
    lemma_digits(m);
    lemma_digits(n);
    lemma_unsigned(m);
    lemma_unsigned(n);
    assert forall|i: int| 0 <= i < p.len() implies 0x30 <= #[trigger] p[i] <= 0x3b && p[i] != 0x3a by {
        if i < a.len() {
            assert(p[i] == a[i]);
        } else if i > a.len() {
            assert(p[i] == b[i - a.len() - 1]);
        }
    }
    assert(super::grid::with_semicolons(p) =~= p);
    assert forall|i: int| 0 <= i < a.len() implies p[i] != 0x3b by {
        assert(p[i] == a[i]);
    }
    assert(p[a.len() as int] == 0x3b);
    crate::text::lemma_until_at(p, 0x3bu8, a.len() as int);
    crate::text::lemma_until_at(b, 0x3bu8, b.len() as int);
    assert(p.take(a.len() as int) =~= a);
    assert(p.skip(a.len() as int + 1) =~= b);
    assert(crate::text::split_on(b, 0x3bu8) =~= seq![b]);
    assert(crate::text::split_on(p, 0x3bu8) =~= seq![a, b]);
    assert(super::grid::csi_numbers(p) =~= seq![m, n]);
}

/// A sequence with one number, in front of `rest`.
pub(super) proof fn lemma_numbered(s: Screen, n: nat, b: u8, rest: Seq<u8>)
    requires
        n <= u32::MAX,
        0x40 <= b <= 0x7e,
    ensures
        s.replay(csi_bytes(digits(n), b) + rest) == s.csi(digits(n), b).replay(rest),
        super::grid::csi_numbers(digits(n)) == seq![n],
{
    lemma_digits(n);
    lemma_one_number(n);
    super::grid::lemma_csi_token(s, digits(n), b, rest);
    assert(csi_bytes(digits(n), b) + rest =~= seq![0x1bu8, 0x5bu8] + digits(n) + seq![b] + rest);
}

/// A sequence with two numbers, in front of `rest`.
pub(super) proof fn lemma_numbered_twice(s: Screen, m: nat, n: nat, b: u8, rest: Seq<u8>)
    requires
        m <= u32::MAX,
        n <= u32::MAX,
        0x40 <= b <= 0x7e,
    ensures
        s.replay(csi_bytes(two_numbers(m, n), b) + rest) == s.csi(two_numbers(m, n), b).replay(
            rest,
        ),
        super::grid::csi_numbers(two_numbers(m, n)) == seq![m, n],
{
    lemma_two_numbers(m, n);
    super::grid::lemma_csi_token(s, two_numbers(m, n), b, rest);
    assert(csi_bytes(two_numbers(m, n), b) + rest =~= seq![0x1bu8, 0x5bu8] + two_numbers(m, n)
        + seq![b] + rest);
}

/// A sequence without parameters, in front of `rest`.
pub(super) proof fn lemma_bare(s: Screen, b: u8, rest: Seq<u8>)
    requires
        0x40 <= b <= 0x7e,
    ensures
        s.replay(csi_bytes(seq![], b) + rest) == s.csi(seq![], b).replay(rest),
        super::grid::csi_numbers(seq![]) == Seq::<nat>::empty(),
{
    let none: Seq<u8> = seq![];
    super::grid::lemma_csi_token(s, none, b, rest);
    assert(csi_bytes(none, b) + rest =~= seq![0x1bu8, 0x5bu8] + none + seq![b] + rest);
    assert(super::grid::csi_numbers(none) =~= Seq::<nat>::empty());
}

// ---------------------------------------------------------------------------
// Moving the cursor
// ---------------------------------------------------------------------------

/// `ESC [ n A` puts the cursor `n` rows higher in the same column, or in the
/// first row where there are not as many above it, and changes nothing else.
#[verifier::spinoff_prover]
pub proof fn cursor_goes_up(s: Screen, n: nat, rest: Seq<u8>)
    requires
        s.wf(),
        1 <= n <= u32::MAX,
    ensures
        n <= s.row ==> s.replay(csi_bytes(digits(n), 0x41) + rest) == (Screen {
            row: (s.row - n) as nat,
            ..s
        }).replay(rest),
        n > s.row ==> s.replay(csi_bytes(digits(n), 0x41) + rest) == (Screen { row: 0, ..s }).replay(
            rest,
        ),
{
    lemma_numbered(s, n, 0x41, rest);
}

/// `ESC [ n B` and `ESC [ n e` put the cursor `n` rows lower in the same
/// column, or in the last row, and change nothing else.
#[verifier::spinoff_prover]
pub proof fn cursor_goes_down(s: Screen, n: nat, rest: Seq<u8>)
    requires
        s.wf(),
        1 <= n <= u32::MAX,
    ensures
        s.row + n < s.rows ==> s.replay(csi_bytes(digits(n), 0x42) + rest) == (Screen {
            row: s.row + n,
            ..s
        }).replay(rest),
        s.row + n >= s.rows ==> s.replay(csi_bytes(digits(n), 0x42) + rest) == (Screen {
            row: (s.rows - 1) as nat,
            ..s
        }).replay(rest),
        s.replay(csi_bytes(digits(n), 0x65) + rest) == s.replay(csi_bytes(digits(n), 0x42) + rest),
{
    lemma_numbered(s, n, 0x42, rest);
    lemma_numbered(s, n, 0x65, rest);
}

/// `ESC [ n C` and `ESC [ n a` put the cursor `n` columns further right in the
/// same row, or in the last column, and change nothing else.
#[verifier::spinoff_prover]
pub proof fn cursor_goes_right(s: Screen, n: nat, rest: Seq<u8>)
    requires
        s.wf(),
        1 <= n <= u32::MAX,
    ensures
        s.col + n < s.cols ==> s.replay(csi_bytes(digits(n), 0x43) + rest) == (Screen {
            col: s.col + n,
            ..s
        }).replay(rest),
        s.col + n >= s.cols ==> s.replay(csi_bytes(digits(n), 0x43) + rest) == (Screen {
            col: (s.cols - 1) as nat,
            ..s
        }).replay(rest),
        s.replay(csi_bytes(digits(n), 0x61) + rest) == s.replay(csi_bytes(digits(n), 0x43) + rest),
{
    lemma_numbered(s, n, 0x43, rest);
    lemma_numbered(s, n, 0x61, rest);
}

/// `ESC [ n D` puts the cursor `n` columns further left in the same row, or in
/// the first column, and changes nothing else.
#[verifier::spinoff_prover]
pub proof fn cursor_goes_left(s: Screen, n: nat, rest: Seq<u8>)
    requires
        s.wf(),
        1 <= n <= u32::MAX,
    ensures
        n <= s.col ==> s.replay(csi_bytes(digits(n), 0x44) + rest) == (Screen {
            col: (s.col - n) as nat,
            ..s
        }).replay(rest),
        n > s.col ==> s.replay(csi_bytes(digits(n), 0x44) + rest) == (Screen { col: 0, ..s }).replay(
            rest,
        ),
{
    lemma_numbered(s, n, 0x44, rest);
}

/// `ESC [ n E` puts the cursor at the start of the `n`-th row below, `ESC [ n F`
/// at the start of the `n`-th row above, each at most at the edge of the
/// screen.
#[verifier::spinoff_prover]
pub proof fn cursor_goes_to_other_lines(s: Screen, n: nat, rest: Seq<u8>)
    requires
        s.wf(),
        1 <= n <= u32::MAX,
    ensures
        s.row + n < s.rows ==> s.replay(csi_bytes(digits(n), 0x45) + rest) == (Screen {
            row: s.row + n,
            col: 0,
            ..s
        }).replay(rest),
        s.row + n >= s.rows ==> s.replay(csi_bytes(digits(n), 0x45) + rest) == (Screen {
            row: (s.rows - 1) as nat,
            col: 0,
            ..s
        }).replay(rest),
        n <= s.row ==> s.replay(csi_bytes(digits(n), 0x46) + rest) == (Screen {
            row: (s.row - n) as nat,
            col: 0,
            ..s
        }).replay(rest),
        n > s.row ==> s.replay(csi_bytes(digits(n), 0x46) + rest) == (Screen {
            row: 0,
            col: 0,
            ..s
        }).replay(rest),
{
    lemma_numbered(s, n, 0x45, rest);
    lemma_numbered(s, n, 0x46, rest);
}

/// `ESC [ n G` and ``ESC [ n ` `` put the cursor in the `n`-th column of its
/// row, `ESC [ n d` in the `n`-th row of its column, each counted from one and
/// at most the last.
#[verifier::spinoff_prover]
pub proof fn cursor_goes_to_a_column_or_row(s: Screen, n: nat, rest: Seq<u8>)
    requires
        s.wf(),
        1 <= n <= u32::MAX,
    ensures
        n <= s.cols ==> s.replay(csi_bytes(digits(n), 0x47) + rest) == (Screen {
            col: (n - 1) as nat,
            ..s
        }).replay(rest),
        n > s.cols ==> s.replay(csi_bytes(digits(n), 0x47) + rest) == (Screen {
            col: (s.cols - 1) as nat,
            ..s
        }).replay(rest),
        s.replay(csi_bytes(digits(n), 0x60) + rest) == s.replay(csi_bytes(digits(n), 0x47) + rest),
        n <= s.rows ==> s.replay(csi_bytes(digits(n), 0x64) + rest) == (Screen {
            row: (n - 1) as nat,
            ..s
        }).replay(rest),
        n > s.rows ==> s.replay(csi_bytes(digits(n), 0x64) + rest) == (Screen {
            row: (s.rows - 1) as nat,
            ..s
        }).replay(rest),
{
    lemma_numbered(s, n, 0x47, rest);
    lemma_numbered(s, n, 0x60, rest);
    lemma_numbered(s, n, 0x64, rest);
}

/// `ESC [ m ; n H` and `ESC [ m ; n f` put the cursor in the `m`-th row and the
/// `n`-th column, each counted from one and at most the last.
#[verifier::spinoff_prover]
pub proof fn cursor_goes_to_a_cell(s: Screen, m: nat, n: nat, rest: Seq<u8>)
    requires
        s.wf(),
        1 <= m <= u32::MAX,
        1 <= n <= u32::MAX,
    ensures
        m <= s.rows && n <= s.cols ==> s.replay(csi_bytes(two_numbers(m, n), 0x48) + rest) == (
        Screen { row: (m - 1) as nat, col: (n - 1) as nat, ..s }).replay(rest),
        m > s.rows && n <= s.cols ==> s.replay(csi_bytes(two_numbers(m, n), 0x48) + rest) == (
        Screen { row: (s.rows - 1) as nat, col: (n - 1) as nat, ..s }).replay(rest),
        m <= s.rows && n > s.cols ==> s.replay(csi_bytes(two_numbers(m, n), 0x48) + rest) == (
        Screen { row: (m - 1) as nat, col: (s.cols - 1) as nat, ..s }).replay(rest),
        m > s.rows && n > s.cols ==> s.replay(csi_bytes(two_numbers(m, n), 0x48) + rest) == (
        Screen { row: (s.rows - 1) as nat, col: (s.cols - 1) as nat, ..s }).replay(rest),
        s.replay(csi_bytes(two_numbers(m, n), 0x66) + rest) == s.replay(
            csi_bytes(two_numbers(m, n), 0x48) + rest,
        ),
{
    lemma_numbered_twice(s, m, n, 0x48, rest);
    lemma_numbered_twice(s, m, n, 0x66, rest);
}

/// The final bytes of the sequences whose number counts from one.
pub open spec fn counts_from_one(b: u8) -> bool {
    ||| 0x41 <= b <= 0x48
    ||| 0x4c <= b <= 0x4d
    ||| b == 0x40 || b == 0x50 || b == 0x53 || b == 0x54 || b == 0x58
    ||| b == 0x60 || b == 0x61 || b == 0x62 || b == 0x64 || b == 0x65 || b == 0x66
}

/// A number that is absent or zero counts as one, in every sequence that
/// counts from one.
#[verifier::spinoff_prover]
pub proof fn absent_numbers_count_as_one(s: Screen, b: u8, rest: Seq<u8>)
    requires
        s.wf(),
        counts_from_one(b),
    ensures
        s.replay(csi_bytes(seq![], b) + rest) == s.replay(csi_bytes(digits(1), b) + rest),
        s.replay(csi_bytes(digits(0), b) + rest) == s.replay(csi_bytes(digits(1), b) + rest),
{
    lemma_bare(s, b, rest);
    lemma_numbered(s, 0, b, rest);
    lemma_numbered(s, 1, b, rest);
}

// ---------------------------------------------------------------------------
// Erasing and editing
// ---------------------------------------------------------------------------

/// What an erased cell holds: a blank in the plain style, or on the background
/// in force.
pub open spec fn erased(s: Screen) -> Cell {
    (
        ' ',
        if s.state.background is Some {
            s.style
        } else {
            0u16
        },
    )
}

/// The screen with the cells that `f` gives for each row and column.
pub open spec fn with_each(s: Screen, f: spec_fn(int, int) -> Cell) -> Screen {
    Screen { cells: Seq::new(s.rows, |r: int| Seq::new(s.cols, |c: int| f(r, c))), ..s }
}

#[verifier::spinoff_prover]
proof fn lemma_each(s: Screen, t: Screen, f: spec_fn(int, int) -> Cell)
    requires
        t == (Screen { cells: t.cells, ..s }),
        t.cells.len() == s.rows,
        forall|r: int| 0 <= r < s.rows ==> (#[trigger] t.cells[r]).len() == s.cols,
        forall|r: int, c: int|
            0 <= r < s.rows && 0 <= c < s.cols ==> #[trigger] t.cells[r][c] == f(r, c),
    ensures
        t == with_each(s, f),
{
    let u = with_each(s, f);
    assert forall|r: int| 0 <= r < s.rows implies #[trigger] t.cells[r] == u.cells[r] by {
        assert forall|c: int| 0 <= c < s.cols implies t.cells[r][c] == u.cells[r][c] by {}
        assert(t.cells[r] =~= u.cells[r]);
    }
    assert(t.cells =~= u.cells);
    assert(t =~= u);
}

/// `ESC [ J` and `ESC [ 0 J` erase from the cursor to the end of the screen,
/// `ESC [ 1 J` from the start of the screen up to the cursor and its cell,
/// `ESC [ 2 J` and `ESC [ 3 J` all of it; the cursor stays.
#[verifier::spinoff_prover]
pub proof fn display_is_erased(s: Screen, rest: Seq<u8>)
    requires
        s.wf(),
    ensures
        s.replay(csi_bytes(seq![], 0x4a) + rest) == with_each(
            s,
            |r: int, c: int|
                if r > s.row || (r == s.row && c >= s.col) {
                    erased(s)
                } else {
                    s.cells[r][c]
                },
        ).replay(rest),
        s.replay(csi_bytes(digits(0), 0x4a) + rest) == s.replay(csi_bytes(seq![], 0x4a) + rest),
        s.replay(csi_bytes(digits(1), 0x4a) + rest) == with_each(
            s,
            |r: int, c: int|
                if r < s.row || (r == s.row && c <= s.col) {
                    erased(s)
                } else {
                    s.cells[r][c]
                },
        ).replay(rest),
        s.replay(csi_bytes(digits(2), 0x4a) + rest) == (Screen {
            high: 0,
            ..with_each(s, |r: int, c: int| erased(s))
        }).replay(rest),
        s.replay(csi_bytes(digits(3), 0x4a) + rest) == s.replay(csi_bytes(digits(2), 0x4a) + rest),
{
    lemma_display_bytes(s, rest);
    lemma_erased_below(s);
    lemma_erased_above(s);
    lemma_erased_all(s);
}

#[verifier::spinoff_prover]
proof fn lemma_display_bytes(s: Screen, rest: Seq<u8>)
    ensures
        s.replay(csi_bytes(seq![], 0x4a) + rest) == s.erase_below().replay(rest),
        s.replay(csi_bytes(digits(0), 0x4a) + rest) == s.erase_below().replay(rest),
        s.replay(csi_bytes(digits(1), 0x4a) + rest) == s.erase_above().replay(rest),
        s.replay(csi_bytes(digits(2), 0x4a) + rest) == s.erase_all().replay(rest),
        s.replay(csi_bytes(digits(3), 0x4a) + rest) == s.erase_all().replay(rest),
{
    lemma_bare(s, 0x4a, rest);
    lemma_numbered(s, 0, 0x4a, rest);
    lemma_numbered(s, 1, 0x4a, rest);
    lemma_numbered(s, 2, 0x4a, rest);
    lemma_numbered(s, 3, 0x4a, rest);
}

#[verifier::spinoff_prover]
proof fn lemma_erased_below(s: Screen)
    requires
        s.wf(),
    ensures
        s.erase_below() == with_each(
            s,
            |r: int, c: int|
                if r > s.row || (r == s.row && c >= s.col) {
                    erased(s)
                } else {
                    s.cells[r][c]
                },
        ),
{
    lemma_each(
        s,
        s.erase_below(),
        |r: int, c: int|
            if r > s.row || (r == s.row && c >= s.col) {
                erased(s)
            } else {
                s.cells[r][c]
            },
    );
}

#[verifier::spinoff_prover]
proof fn lemma_erased_above(s: Screen)
    requires
        s.wf(),
    ensures
        s.erase_above() == with_each(
            s,
            |r: int, c: int|
                if r < s.row || (r == s.row && c <= s.col) {
                    erased(s)
                } else {
                    s.cells[r][c]
                },
        ),
{
    lemma_each(
        s,
        s.erase_above(),
        |r: int, c: int|
            if r < s.row || (r == s.row && c <= s.col) {
                erased(s)
            } else {
                s.cells[r][c]
            },
    );
}

#[verifier::spinoff_prover]
proof fn lemma_erased_all(s: Screen)
    requires
        s.wf(),
    ensures
        s.erase_all() == (Screen { high: 0, ..with_each(s, |r: int, c: int| erased(s)) }),
{
    let t = with_each(s, |r: int, c: int| erased(s));
    let u = s.erase_all();
    assert forall|r: int| 0 <= r < s.rows implies #[trigger] u.cells[r] == t.cells[r] by {
        assert(u.cells[r] =~= t.cells[r]);
    }
    assert(u.cells =~= t.cells);
}

/// `ESC [ K` and `ESC [ 0 K` erase from the cursor to the end of its row,
/// `ESC [ 1 K` from the start of the row up to the cursor and its cell,
/// `ESC [ 2 K` the whole row; the cursor stays.
#[verifier::spinoff_prover]
pub proof fn line_is_erased(s: Screen, rest: Seq<u8>)
    requires
        s.wf(),
    ensures
        s.replay(csi_bytes(seq![], 0x4b) + rest) == with_each(
            s,
            |r: int, c: int|
                if r == s.row && c >= s.col {
                    erased(s)
                } else {
                    s.cells[r][c]
                },
        ).replay(rest),
        s.replay(csi_bytes(digits(0), 0x4b) + rest) == s.replay(csi_bytes(seq![], 0x4b) + rest),
        s.replay(csi_bytes(digits(1), 0x4b) + rest) == with_each(
            s,
            |r: int, c: int|
                if r == s.row && c <= s.col {
                    erased(s)
                } else {
                    s.cells[r][c]
                },
        ).replay(rest),
        s.replay(csi_bytes(digits(2), 0x4b) + rest) == with_each(
            s,
            |r: int, c: int|
                if r == s.row {
                    erased(s)
                } else {
                    s.cells[r][c]
                },
        ).replay(rest),
{
    lemma_line_bytes(s, rest);
    lemma_erased_right(s);
    lemma_erased_left(s);
    lemma_erased_line(s);
}

#[verifier::spinoff_prover]
proof fn lemma_line_bytes(s: Screen, rest: Seq<u8>)
    ensures
        s.replay(csi_bytes(seq![], 0x4b) + rest) == s.erase_line_right().replay(rest),
        s.replay(csi_bytes(digits(0), 0x4b) + rest) == s.erase_line_right().replay(rest),
        s.replay(csi_bytes(digits(1), 0x4b) + rest) == s.erase_line_left().replay(rest),
        s.replay(csi_bytes(digits(2), 0x4b) + rest) == s.erase_line().replay(rest),
{
    lemma_bare(s, 0x4b, rest);
    lemma_numbered(s, 0, 0x4b, rest);
    lemma_numbered(s, 1, 0x4b, rest);
    lemma_numbered(s, 2, 0x4b, rest);
}

#[verifier::spinoff_prover]
proof fn lemma_erased_right(s: Screen)
    requires
        s.wf(),
    ensures
        s.erase_line_right() == with_each(
            s,
            |r: int, c: int|
                if r == s.row && c >= s.col {
                    erased(s)
                } else {
                    s.cells[r][c]
                },
        ),
{
    lemma_each(
        s,
        s.erase_line_right(),
        |r: int, c: int|
            if r == s.row && c >= s.col {
                erased(s)
            } else {
                s.cells[r][c]
            },
    );
}

#[verifier::spinoff_prover]
proof fn lemma_erased_left(s: Screen)
    requires
        s.wf(),
    ensures
        s.erase_line_left() == with_each(
            s,
            |r: int, c: int|
                if r == s.row && c <= s.col {
                    erased(s)
                } else {
                    s.cells[r][c]
                },
        ),
{
    lemma_each(
        s,
        s.erase_line_left(),
        |r: int, c: int|
            if r == s.row && c <= s.col {
                erased(s)
            } else {
                s.cells[r][c]
            },
    );
}

#[verifier::spinoff_prover]
proof fn lemma_erased_line(s: Screen)
    requires
        s.wf(),
    ensures
        s.erase_line() == with_each(
            s,
            |r: int, c: int|
                if r == s.row {
                    erased(s)
                } else {
                    s.cells[r][c]
                },
        ),
{
    lemma_each(
        s,
        s.erase_line(),
        |r: int, c: int|
            if r == s.row {
                erased(s)
            } else {
                s.cells[r][c]
            },
    );
}

/// `ESC [ n @` opens `n` blanks at the cursor and moves the rest of the row
/// right, `ESC [ n P` takes `n` cells out and moves the rest left, `ESC [ n X`
/// erases `n` cells in place; the cursor and the other rows stay.
#[verifier::spinoff_prover]
pub proof fn characters_are_edited(s: Screen, n: nat, rest: Seq<u8>)
    requires
        s.wf(),
        1 <= n <= u32::MAX,
    ensures
        s.replay(csi_bytes(digits(n), 0x40) + rest) == with_each(
            s,
            |r: int, c: int|
                if r != s.row || c < s.col {
                    s.cells[r][c]
                } else if c < s.col + n {
                    erased(s)
                } else {
                    s.cells[r][c - n]
                },
        ).replay(rest),
        s.replay(csi_bytes(digits(n), 0x50) + rest) == with_each(
            s,
            |r: int, c: int|
                if r != s.row || c < s.col {
                    s.cells[r][c]
                } else if c + n < s.cols {
                    s.cells[r][c + n]
                } else {
                    erased(s)
                },
        ).replay(rest),
        s.replay(csi_bytes(digits(n), 0x58) + rest) == with_each(
            s,
            |r: int, c: int|
                if r == s.row && s.col <= c < s.col + n {
                    erased(s)
                } else {
                    s.cells[r][c]
                },
        ).replay(rest),
{
    lemma_edit_bytes(s, n, rest);
    lemma_inserted(s, n);
    lemma_deleted(s, n);
    lemma_erased_chars(s, n);
}

#[verifier::spinoff_prover]
proof fn lemma_edit_bytes(s: Screen, n: nat, rest: Seq<u8>)
    requires
        1 <= n <= u32::MAX,
    ensures
        s.replay(csi_bytes(digits(n), 0x40) + rest) == s.insert_chars(n).replay(rest),
        s.replay(csi_bytes(digits(n), 0x50) + rest) == s.delete_chars(n).replay(rest),
        s.replay(csi_bytes(digits(n), 0x58) + rest) == s.erase_chars(n).replay(rest),
{
    lemma_numbered(s, n, 0x40, rest);
    lemma_numbered(s, n, 0x50, rest);
    lemma_numbered(s, n, 0x58, rest);
}

#[verifier::spinoff_prover]
proof fn lemma_inserted(s: Screen, n: nat)
    requires
        s.wf(),
    ensures
        s.insert_chars(n) == with_each(
            s,
            |r: int, c: int|
                if r != s.row || c < s.col {
                    s.cells[r][c]
                } else if c < s.col + n {
                    erased(s)
                } else {
                    s.cells[r][c - n]
                },
        ),
{
    lemma_each(
        s,
        s.insert_chars(n),
        |r: int, c: int|
            if r != s.row || c < s.col {
                s.cells[r][c]
            } else if c < s.col + n {
                erased(s)
            } else {
                s.cells[r][c - n]
            },
    );
}

#[verifier::spinoff_prover]
proof fn lemma_deleted(s: Screen, n: nat)
    requires
        s.wf(),
    ensures
        s.delete_chars(n) == with_each(
            s,
            |r: int, c: int|
                if r != s.row || c < s.col {
                    s.cells[r][c]
                } else if c + n < s.cols {
                    s.cells[r][c + n]
                } else {
                    erased(s)
                },
        ),
{
    lemma_each(
        s,
        s.delete_chars(n),
        |r: int, c: int|
            if r != s.row || c < s.col {
                s.cells[r][c]
            } else if c + n < s.cols {
                s.cells[r][c + n]
            } else {
                erased(s)
            },
    );
}

#[verifier::spinoff_prover]
proof fn lemma_erased_chars(s: Screen, n: nat)
    requires
        s.wf(),
    ensures
        s.erase_chars(n) == with_each(
            s,
            |r: int, c: int|
                if r == s.row && s.col <= c < s.col + n {
                    erased(s)
                } else {
                    s.cells[r][c]
                },
        ),
{
    lemma_each(
        s,
        s.erase_chars(n),
        |r: int, c: int|
            if r == s.row && s.col <= c < s.col + n {
                erased(s)
            } else {
                s.cells[r][c]
            },
    );
}

// ---------------------------------------------------------------------------
// Moving lines
// ---------------------------------------------------------------------------

proof fn lemma_lifted(cells: Seq<Seq<Cell>>, top: nat, bot: nat, fill: Seq<Cell>, k: nat)
    requires
        top <= bot < cells.len(),
        k <= bot - top + 1,
    ensures
        super::grid::lifted(cells, top, bot, fill, k).len() == cells.len(),
        forall|r: int|
            0 <= r < cells.len() ==> #[trigger] super::grid::lifted(cells, top, bot, fill, k)[r]
                == (if r < top || r > bot {
                cells[r]
            } else if r + k <= bot {
                cells[r + k]
            } else {
                fill
            }),
    decreases k,
{
    if k > 0 {
        lemma_lifted(cells, top, bot, fill, (k - 1) as nat);
    }
}

proof fn lemma_lowered(cells: Seq<Seq<Cell>>, top: nat, bot: nat, fill: Seq<Cell>, k: nat)
    requires
        top <= bot < cells.len(),
        k <= bot - top + 1,
    ensures
        super::grid::lowered(cells, top, bot, fill, k).len() == cells.len(),
        forall|r: int|
            0 <= r < cells.len() ==> #[trigger] super::grid::lowered(cells, top, bot, fill, k)[r]
                == (if r < top || r > bot {
                cells[r]
            } else if r - k >= top {
                cells[r - k]
            } else {
                fill
            }),
    decreases k,
{
    if k > 0 {
        lemma_lowered(cells, top, bot, fill, (k - 1) as nat);
    }
}

/// The rows from `from` to `to` moved up by `n`, with erased rows behind them.
pub open spec fn moved_up(s: Screen, from: nat, to: nat, n: nat) -> Screen {
    with_each(
        s,
        |r: int, c: int|
            if r < from || r > to {
                s.cells[r][c]
            } else if r + n <= to {
                s.cells[r + n][c]
            } else {
                erased(s)
            },
    )
}

/// The rows from `from` to `to` moved down by `n`, with erased rows before
/// them. Content that moved down counts as shown.
pub open spec fn moved_down(s: Screen, from: nat, to: nat, n: nat) -> Screen {
    Screen {
        high: if s.high < from || s.high > to {
            s.high
        } else if s.high + n <= to {
            s.high + n
        } else {
            to
        },
        ..with_each(
            s,
            |r: int, c: int|
                if r < from || r > to {
                    s.cells[r][c]
                } else if r - n >= from {
                    s.cells[r - n][c]
                } else {
                    erased(s)
                },
        )
    }
}

#[verifier::spinoff_prover]
proof fn lemma_moved_up(s: Screen, from: nat, n: nat, k: nat)
    requires
        s.wf(),
        from <= s.bot,
        k == super::grid::min(n, (s.bot - from + 1) as nat),
    ensures
        s.with_cells(super::grid::lifted(s.cells, from, s.bot, s.blank_row(), k)) == moved_up(
            s,
            from,
            s.bot,
            n,
        ),
{
    lemma_lifted(s.cells, from, s.bot, s.blank_row(), k);
    let t = s.with_cells(super::grid::lifted(s.cells, from, s.bot, s.blank_row(), k));
    assert forall|r: int| 0 <= r < s.rows implies (#[trigger] t.cells[r]).len() == s.cols by {
        if from <= r && r + k <= s.bot {
            assert(s.cells[r + k].len() == s.cols);
        }
    }
    lemma_each(
        s,
        t,
        |r: int, c: int|
            if r < from || r > s.bot {
                s.cells[r][c]
            } else if r + n <= s.bot {
                s.cells[r + n][c]
            } else {
                erased(s)
            },
    );
}

#[verifier::spinoff_prover]
proof fn lemma_moved_down(s: Screen, from: nat, n: nat, k: nat)
    requires
        s.wf(),
        from <= s.bot,
        k == super::grid::min(n, (s.bot - from + 1) as nat),
    ensures
        (Screen {
            cells: super::grid::lowered(s.cells, from, s.bot, s.blank_row(), k),
            high: s.lowered_high(from, k),
            ..s
        }) == moved_down(s, from, s.bot, n),
{
    lemma_lowered(s.cells, from, s.bot, s.blank_row(), k);
    let t = s.with_cells(super::grid::lowered(s.cells, from, s.bot, s.blank_row(), k));
    assert forall|r: int| 0 <= r < s.rows implies (#[trigger] t.cells[r]).len() == s.cols by {
        if from <= r - k && r <= s.bot {
            assert(s.cells[r - k].len() == s.cols);
        }
    }
    lemma_each(
        s,
        t,
        |r: int, c: int|
            if r < from || r > s.bot {
                s.cells[r][c]
            } else if r - n >= from {
                s.cells[r - n][c]
            } else {
                erased(s)
            },
    );
    assert(Screen {
        cells: super::grid::lowered(s.cells, from, s.bot, s.blank_row(), k),
        high: s.lowered_high(from, k),
        ..s
    } =~= moved_down(s, from, s.bot, n));
}

/// `ESC [ n L` opens `n` rows at the cursor and `ESC [ n M` takes `n` rows out
/// there, both within the scroll region; outside it they do nothing.
#[verifier::spinoff_prover]
pub proof fn lines_are_edited(s: Screen, n: nat, rest: Seq<u8>)
    requires
        s.wf(),
        1 <= n <= u32::MAX,
    ensures
        s.top <= s.row <= s.bot ==> s.replay(csi_bytes(digits(n), 0x4c) + rest) == moved_down(
            s,
            s.row,
            s.bot,
            n,
        ).replay(rest),
        s.top <= s.row <= s.bot ==> s.replay(csi_bytes(digits(n), 0x4d) + rest) == moved_up(
            s,
            s.row,
            s.bot,
            n,
        ).replay(rest),
        s.row < s.top || s.row > s.bot ==> s.replay(csi_bytes(digits(n), 0x4c) + rest) == s.replay(
            rest,
        ),
        s.row < s.top || s.row > s.bot ==> s.replay(csi_bytes(digits(n), 0x4d) + rest) == s.replay(
            rest,
        ),
{
    assert(s.replay(csi_bytes(digits(n), 0x4c) + rest) == s.insert_lines(n).replay(rest)) by {
        lemma_numbered(s, n, 0x4c, rest);
    }
    assert(s.replay(csi_bytes(digits(n), 0x4d) + rest) == s.delete_lines(n).replay(rest)) by {
        lemma_numbered(s, n, 0x4d, rest);
    }
    if s.top <= s.row <= s.bot {
        let k = super::grid::min(n, (s.bot - s.row + 1) as nat);
        lemma_moved_down(s, s.row, n, k);
        lemma_moved_up(s, s.row, n, k);
    }
}

/// `ESC [ n S` moves the lines of the scroll region up by `n`, `ESC [ n T` moves
/// them down; the cursor stays.
#[verifier::spinoff_prover]
pub proof fn region_is_scrolled(s: Screen, n: nat, rest: Seq<u8>)
    requires
        s.wf(),
        1 <= n <= u32::MAX,
    ensures
        s.replay(csi_bytes(digits(n), 0x53) + rest) == moved_up(s, s.top, s.bot, n).replay(rest),
        s.replay(csi_bytes(digits(n), 0x54) + rest) == moved_down(s, s.top, s.bot, n).replay(rest),
{
    assert(s.replay(csi_bytes(digits(n), 0x53) + rest) == s.scroll_up(n).replay(rest)) by {
        lemma_numbered(s, n, 0x53, rest);
    }
    assert(s.replay(csi_bytes(digits(n), 0x54) + rest) == s.scroll_down(n).replay(rest)) by {
        lemma_numbered(s, n, 0x54, rest);
    }
    let k = super::grid::min(n, (s.bot - s.top + 1) as nat);
    lemma_moved_down(s, s.top, n, k);
    lemma_moved_up(s, s.top, n, k);
}

/// `ESC [ m ; n r` makes the rows from the `m`-th to the `n`-th the scroll
/// region, `ESC [ r` the whole screen; one that ends above its beginning is
/// passed over. The cursor stays.
#[verifier::spinoff_prover]
pub proof fn region_is_set(s: Screen, m: nat, n: nat, rest: Seq<u8>)
    requires
        s.wf(),
        1 <= m <= u32::MAX,
        1 <= n <= u32::MAX,
    ensures
        m <= n <= s.rows ==> s.replay(csi_bytes(two_numbers(m, n), 0x72) + rest) == (Screen {
            top: (m - 1) as nat,
            bot: (n - 1) as nat,
            ..s
        }).replay(rest),
        m <= s.rows < n ==> s.replay(csi_bytes(two_numbers(m, n), 0x72) + rest) == (Screen {
            top: (m - 1) as nat,
            bot: (s.rows - 1) as nat,
            ..s
        }).replay(rest),
        n < m && n < s.rows ==> s.replay(csi_bytes(two_numbers(m, n), 0x72) + rest) == s.replay(
            rest,
        ),
        s.replay(csi_bytes(seq![], 0x72) + rest) == (Screen {
            top: 0,
            bot: (s.rows - 1) as nat,
            ..s
        }).replay(rest),
{
    let none: Seq<nat> = seq![];
    assert(s.replay(csi_bytes(two_numbers(m, n), 0x72) + rest) == s.with_region(
        seq![m, n],
    ).replay(rest)) by {
        lemma_numbered_twice(s, m, n, 0x72, rest);
    }
    assert(s.replay(csi_bytes(seq![], 0x72) + rest) == s.with_region(none).replay(rest)) by {
        lemma_bare(s, 0x72, rest);
    }
    assert(seq![m, n][0] == m && seq![m, n][1] == n);
}

} // verus!
