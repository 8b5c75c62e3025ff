//! Paths as texts: their components, their last name, their parent, and what
//! is left of one behind another.

use crate::text::{chars_of, find_char, same_chars, text_of};
use vstd::prelude::*;
use vstd::slice::slice_subrange;

verus! {

/// The path starts at the root.
pub open spec fn is_rooted(s: Seq<char>) -> bool {
    s.len() > 0 && s[0] == '/'
}

/// Where the components of a path lie, from the character `i` on, which starts
/// one: between the slashes, without the empty ones, and without a `.` that
/// does not lead the path.
pub open spec fn spans_from(s: Seq<char>, i: int) -> Seq<(int, int)>
    decreases s.len() + 1 - i,
{
    if i < 0 || i >= s.len() {
        seq![]
    } else {
        let n = crate::text::until(s.skip(i), '/') as int;
        proof {
            crate::text::until_is_first(s.skip(i), '/');
        }
        let rest = spans_from(s, i + n + 1);
        if n <= 0 || (n == 1 && s[i] == '.' && i > 0) {
            rest
        } else {
            seq![(i, i + n)] + rest
        }
    }
}

/// Where the components of a path lie.
pub open spec fn spans(s: Seq<char>) -> Seq<(int, int)> {
    spans_from(s, 0)
}

/// The text of a component.
pub open spec fn piece(s: Seq<char>, span: (int, int)) -> Seq<char> {
    s.subrange(span.0, span.1)
}

/// The last name in a path, unless the path ends in `.` or `..`.
pub open spec fn last_name(s: Seq<char>) -> Option<Seq<char>> {
    let p = spans(s);
    if p.len() == 0 || piece(s, p.last()) == seq!['.', '.'] || piece(s, p.last()) == seq!['.'] {
        None
    } else {
        Some(piece(s, p.last()))
    }
}

/// Where the last component of a path ends, or its root.
pub open spec fn path_end(s: Seq<char>, p: Seq<(int, int)>) -> int {
    if p.len() > 0 {
        p.last().1
    } else if is_rooted(s) {
        1
    } else {
        0
    }
}

/// The path without its last component, if it has one.
pub open spec fn parent_of(s: Seq<char>) -> Option<Seq<char>> {
    let p = spans(s);
    if p.len() == 0 {
        None
    } else {
        Some(s.take(path_end(s, p.drop_last())))
    }
}

/// The components of `base` are the first ones of `s`.
pub open spec fn leads(base: Seq<char>, s: Seq<char>) -> bool {
    let b = spans(base);
    let p = spans(s);
    &&& if is_rooted(base) {
        is_rooted(s)
    } else {
        b.len() > 0 ==> !is_rooted(s)
    }
    &&& b.len() <= p.len()
    &&& forall|i: int| 0 <= i < b.len() ==> #[trigger] piece(base, b[i]) == piece(s, p[i])
}

/// What is left of a path behind another one that leads it.
pub open spec fn behind(base: Seq<char>, s: Seq<char>) -> Option<Seq<char>> {
    let b = spans(base);
    let p = spans(s);
    if !leads(base, s) {
        None
    } else if !is_rooted(base) && b.len() == 0 {
        Some(s.take(path_end(s, p)))
    } else if b.len() == p.len() {
        Some(seq![])
    } else {
        Some(s.subrange(p[b.len() as int].0, p.last().1))
    }
}

/// The components lie within the path, none is empty, and they come in order.
pub proof fn spans_lie_within(s: Seq<char>, i: int)
    requires
        0 <= i,
    ensures
        forall|k: int|
            0 <= k < spans_from(s, i).len() ==> i <= (#[trigger] spans_from(s, i)[k]).0
                < spans_from(s, i)[k].1 <= s.len(),
        forall|k: int, l: int|
            0 <= k < l < spans_from(s, i).len() ==> (#[trigger] spans_from(s, i)[k]).1 < (
            #[trigger] spans_from(s, i)[l]).0,
    decreases s.len() + 1 - i,
{
    if i < s.len() {
        let n = crate::text::until(s.skip(i), '/') as int;
        crate::text::until_is_first(s.skip(i), '/');
        spans_lie_within(s, i + n + 1);
        let rest = spans_from(s, i + n + 1);
        if !(n <= 0 || (n == 1 && s[i] == '.' && i > 0)) {
            let all = spans_from(s, i);
            assert(all == seq![(i, i + n)] + rest);
            assert forall|k: int| 0 <= k < all.len() implies i <= (#[trigger] all[k]).0 < all[k].1
                <= s.len() by {
                if k > 0 {
                    assert(all[k] == rest[k - 1]);
                }
            }
            assert forall|k: int, l: int| 0 <= k < l < all.len() implies (#[trigger] all[k]).1 < (
            #[trigger] all[l]).0 by {
                assert(all[l] == rest[l - 1]);
                if k > 0 {
                    assert(all[k] == rest[k - 1]);
                }
            }
        }
    }
}

/// A pair of positions as numbers.
pub open spec fn pair(p: (usize, usize)) -> (int, int) {
    (p.0 as int, p.1 as int)
}

/// Pairs of positions as numbers.
pub open spec fn pairs(v: Seq<(usize, usize)>) -> Seq<(int, int)> {
    v.map_values(|p: (usize, usize)| pair(p))
}

/// Finds the components of a path.
pub(crate) fn components(s: &[char]) -> (res: Vec<(usize, usize)>)
    ensures
        pairs(res@) == spans(s@),
        forall|k: int|
            0 <= k < res@.len() ==> (#[trigger] res@[k]).0 < res@[k].1 && res@[k].1 <= s@.len(),
{
    let mut out: Vec<(usize, usize)> = Vec::new();
    let mut i: usize = 0;
    let mut over: bool = s.len() == 0;
    proof {
        assert(pairs(out@) + spans(s@) =~= spans(s@));
    }
    while !over
        invariant
            i <= s.len(),
            !over ==> i < s.len() && pairs(out@) + spans_from(s@, i as int) == spans(s@),
            over ==> pairs(out@) == spans(s@),
        decreases s.len() - i,
            (if over {
                0int
            } else {
                1int
            }),
    {
        let n: usize = find_char(slice_subrange(s, i, s.len()), '/');
        let ghost before = out@;
        proof {
            assert(s@.subrange(i as int, s@.len() as int) =~= s@.skip(i as int));
            crate::text::until_is_first(s@.skip(i as int), '/');
        }
        let ghost rest = spans_from(s@, i + n + 1);
        if n > 0 && !(n == 1 && s[i] == '.' && i > 0) {
            out.push((i, i + n));
            proof {
                assert(pairs(out@) =~= pairs(before).push((i as int, i + n)));
                assert(pairs(out@) + rest =~= pairs(before) + spans_from(s@, i as int));
            }
        }
        if n >= s.len() - i || n + 1 >= s.len() - i {
            over = true;
            proof {
                assert(rest =~= seq![]);
                assert(pairs(out@) + rest =~= pairs(out@));
            }
        } else {
            i = i + n + 1;
        }
    }
    proof {
        spans_lie_within(s@, 0);
        assert forall|k: int| 0 <= k < out@.len() implies (#[trigger] out@[k]).0 < out@[k].1
            && out@[k].1 <= s@.len() by {
            assert(pairs(out@)[k] == pair(out@[k]));
        }
    }
    out
}

/// The last name in a path, unless the path ends in `.` or `..`.
pub fn file_name(path: &str) -> (res: Option<String>)
    ensures
        crate::text::optional_string(res) == last_name(path@),
{
    let chars = chars_of(path);
    let parts = components(chars.as_slice());
    if parts.len() == 0 {
        return None;
    }
    let (a, b) = parts[parts.len() - 1];
    assert(pairs(parts@).last() == (a as int, b as int));
    let name = slice_subrange(chars.as_slice(), a, b);
    assert(name@ == piece(path@, spans(path@).last()));
    if name.len() == 1 && name[0] == '.' {
        assert(name@ =~= seq!['.']);
        None
    } else if name.len() == 2 && name[0] == '.' && name[1] == '.' {
        assert(name@ =~= seq!['.', '.']);
        None
    } else {
        Some(text_of(name))
    }
}

/// The path without its last component, if it has one.
pub fn parent(path: &str) -> (res: Option<String>)
    ensures
        crate::text::optional_string(res) == parent_of(path@),
{
    let chars = chars_of(path);
    let parts = components(chars.as_slice());
    if parts.len() == 0 {
        return None;
    }
    let ghost before = spans(path@).drop_last();
    let end: usize = if parts.len() >= 2 {
        assert(pairs(parts@)[parts@.len() - 2] == before.last());
        parts[parts.len() - 2].1
    } else if chars.len() > 0 && chars[0] == '/' {
        1
    } else {
        0
    };
    assert(end == path_end(path@, before));
    assert(path@.subrange(0, end as int) =~= path@.take(end as int));
    Some(text_of(slice_subrange(chars.as_slice(), 0, end)))
}

/// Finds what is left of a path behind another one that leads it.
pub fn strip_base(path: &str, base: &str) -> (res: Option<String>)
    ensures
        crate::text::optional_string(res) == behind(base@, path@),
{
    let s = chars_of(path);
    let h = chars_of(base);
    let p = components(s.as_slice());
    let b = components(h.as_slice());
    let rooted = s.len() > 0 && s[0] == '/';
    let base_rooted = h.len() > 0 && h[0] == '/';
    if b.len() > p.len() || (base_rooted && !rooted) || (!base_rooted && b.len() > 0 && rooted) {
        return None;
    }
    let mut i: usize = 0;
    while i < b.len()
        invariant
            i <= b.len(),
            b.len() <= p.len(),
            s@ == path@,
            h@ == base@,
            pairs(p@) == spans(s@),
            pairs(b@) == spans(h@),
            forall|k: int|
                0 <= k < p@.len() ==> (#[trigger] p@[k]).0 < p@[k].1 && p@[k].1 <= s@.len(),
            forall|k: int|
                0 <= k < b@.len() ==> (#[trigger] b@[k]).0 < b@[k].1 && b@[k].1 <= h@.len(),
            forall|k: int|
                0 <= k < i ==> #[trigger] piece(base@, spans(base@)[k]) == piece(
                    path@,
                    spans(path@)[k],
                ),
        decreases b.len() - i,
    {
        assert(pairs(p@)[i as int] == pair(p@[i as int]));
        assert(pairs(b@)[i as int] == pair(b@[i as int]));
        if !same_chars(
            slice_subrange(h.as_slice(), b[i].0, b[i].1),
            slice_subrange(s.as_slice(), p[i].0, p[i].1),
        ) {
            assert(piece(base@, spans(base@)[i as int]) != piece(path@, spans(path@)[i as int]));
            return None;
        }
        i += 1;
    }
    assert(leads(base@, path@));
    proof {
        spans_lie_within(s@, 0);
        if p@.len() > 0 {
            assert(pairs(p@)[p@.len() - 1] == pair(p@[p@.len() - 1]));
        }
        if b@.len() < p@.len() {
            assert(pairs(p@)[b@.len() as int] == pair(p@[b@.len() as int]));
        }
    }
    if !base_rooted && b.len() == 0 {
        let end: usize = if p.len() > 0 {
            p[p.len() - 1].1
        } else if rooted {
            1
        } else {
            0
        };
        assert(path@.subrange(0, end as int) =~= path@.take(end as int));
        return Some(text_of(slice_subrange(s.as_slice(), 0, end)));
    }
    if b.len() == p.len() {
        let none: Vec<char> = Vec::new();
        assert(none@ =~= seq![]);
        return Some(text_of(none.as_slice()));
    }
    let from: usize = p[b.len()].0;
    let to: usize = p[p.len() - 1].1;
    Some(text_of(slice_subrange(s.as_slice(), from, to)))
}

} // verus!
