//! Sorting: a stable insertion sort over any type with an order, and the order
//! of texts by their characters.

use vstd::prelude::*;

verus! {

/// A type with a total order, in which different values may rank alike.
pub trait Rank: Sized {
    /// `self` ranks no later than `other`.
    spec fn ranks(self, other: Self) -> bool;

    /// Any two values can be ranked.
    proof fn ranks_totally(a: Self, b: Self)
        ensures
            a.ranks(b) || b.ranks(a),
    ;

    /// Ranking is transitive.
    proof fn ranks_transitively(a: Self, b: Self, c: Self)
        requires
            a.ranks(b),
            b.ranks(c),
        ensures
            a.ranks(c),
    ;
}

/// A type whose order can be computed.
pub trait Ranked: Rank {
    /// Tells whether `self` ranks no later than `other`.
    fn at_most(&self, other: &Self) -> (res: bool)
        ensures
            res == self.ranks(*other),
    ;
}

/// The position behind the last item that ranks no later than `x`, counted
/// from the end.
pub open spec fn place<T: Rank>(s: Seq<T>, x: T) -> nat
    decreases s.len(),
{
    if s.len() == 0 || s.last().ranks(x) {
        s.len()
    } else {
        place(s.drop_last(), x)
    }
}

/// The items in order; those that rank alike keep their order.
pub open spec fn in_order<T: Rank>(s: Seq<T>) -> Seq<T>
    decreases s.len(),
{
    if s.len() == 0 {
        seq![]
    } else {
        let before = in_order(s.drop_last());
        before.insert(place(before, s.last()) as int, s.last())
    }
}

/// No item ranks before an earlier one.
pub open spec fn is_ordered<T: Rank>(s: Seq<T>) -> bool {
    forall|i: int, j: int| 0 <= i < j < s.len() ==> (#[trigger] s[i]).ranks(#[trigger] s[j])
}

proof fn lemma_place<T: Rank>(s: Seq<T>, x: T)
    ensures
        place(s, x) <= s.len(),
        place(s, x) > 0 ==> s[place(s, x) - 1].ranks(x),
        forall|i: int| place(s, x) <= i < s.len() ==> !(#[trigger] s[i]).ranks(x),
    decreases s.len(),
{
    if s.len() == 0 || s.last().ranks(x) {
    } else {
        lemma_place(s.drop_last(), x);
        assert forall|i: int| place(s, x) <= i < s.len() implies !(#[trigger] s[i]).ranks(x) by {
            if i < s.len() - 1 {
                assert(s.drop_last()[i] == s[i]);
            }
        }
    }
}

proof fn lemma_inserted<T: Rank>(s: Seq<T>, x: T)
    requires
        is_ordered(s),
    ensures
        is_ordered(s.insert(place(s, x) as int, x)),
{
    lemma_place(s, x);
    let p = place(s, x) as int;
    let t = s.insert(p, x);
    assert forall|i: int, j: int| 0 <= i < j < t.len() implies (#[trigger] t[i]).ranks(
        #[trigger] t[j],
    ) by {
        if i < p && j == p {
            if i < p - 1 {
                assert(s[i].ranks(s[p - 1]));
                T::ranks_transitively(s[i], s[p - 1], x);
            }
        } else if i == p {
            T::ranks_totally(x, s[j - 1]);
            assert(t[j] == s[j - 1]);
        } else if i < p && j > p {
            assert(t[i] == s[i] && t[j] == s[j - 1]);
        } else if i > p {
            assert(t[i] == s[i - 1] && t[j] == s[j - 1]);
        } else {
            assert(t[i] == s[i] && t[j] == s[j]);
        }
    }
}

/// Sorting puts the items in order.
pub proof fn sorting_orders<T: Rank>(s: Seq<T>)
    ensures
        is_ordered(in_order(s)),
    decreases s.len(),
{
    if s.len() > 0 {
        sorting_orders(s.drop_last());
        lemma_inserted(in_order(s.drop_last()), s.last());
    }
}

/// Sorting loses and adds nothing.
pub proof fn sorting_permutes<T: Rank>(s: Seq<T>)
    ensures
        in_order(s).to_multiset() == s.to_multiset(),
        in_order(s).len() == s.len(),
    decreases s.len(),
{
    broadcast use vstd::seq_lib::group_to_multiset_ensures;

    if s.len() > 0 {
        let front = s.drop_last();
        let before = in_order(front);
        sorting_permutes(front);
        lemma_place(before, s.last());
        vstd::seq_lib::to_multiset_insert(before, place(before, s.last()) as int, s.last());
        assert(s =~= front.push(s.last()));
    } else {
        assert(in_order(s) =~= s);
    }
}

/// Sorting what is in order changes nothing; in particular, items that rank
/// alike keep their order.
pub proof fn sorting_is_stable<T: Rank>(s: Seq<T>)
    requires
        is_ordered(s),
    ensures
        in_order(s) == s,
    decreases s.len(),
{
    if s.len() > 0 {
        let front = s.drop_last();
        assert(is_ordered(front)) by {
            assert forall|i: int, j: int| 0 <= i < j < front.len() implies (
            #[trigger] front[i]).ranks(#[trigger] front[j]) by {
                assert(s[i].ranks(s[j]));
            }
        }
        sorting_is_stable(front);
        if front.len() > 0 {
            assert(s[front.len() - 1].ranks(s[front.len() as int]));
        }
        assert(front.insert(front.len() as int, s.last()) =~= s);
    } else {
        assert(in_order(s) =~= s);
    }
}

proof fn lemma_place_maps<A: Rank, B: Rank>(s: Seq<A>, x: A, f: spec_fn(A) -> B)
    requires
        forall|a: A, b: A| #[trigger] a.ranks(b) == f(a).ranks(f(b)),
    ensures
        place(s.map_values(f), f(x)) == place(s, x),
    decreases s.len(),
{
    if s.len() > 0 {
        assert(s.map_values(f).last() == f(s.last()));
        assert(s.last().ranks(x) == f(s.last()).ranks(f(x)));
        assert(s.map_values(f).drop_last() =~= s.drop_last().map_values(f));
        lemma_place_maps(s.drop_last(), x, f);
    }
}

/// Sorting and taking values commute, where the values rank as their items do.
pub proof fn sorting_commutes<A: Rank, B: Rank>(s: Seq<A>, f: spec_fn(A) -> B)
    requires
        forall|a: A, b: A| #[trigger] a.ranks(b) == f(a).ranks(f(b)),
    ensures
        in_order(s).map_values(f) == in_order(s.map_values(f)),
    decreases s.len(),
{
    if s.len() > 0 {
        let before = in_order(s.drop_last());
        sorting_commutes(s.drop_last(), f);
        assert(s.map_values(f).drop_last() =~= s.drop_last().map_values(f));
        assert(s.map_values(f).last() == f(s.last()));
        lemma_place_maps(before, s.last(), f);
        lemma_place(before, s.last());
        let p = place(before, s.last()) as int;
        assert(before.insert(p, s.last()).map_values(f) =~= before.map_values(f).insert(
            p,
            f(s.last()),
        ));
    } else {
        assert(in_order(s).map_values(f) =~= in_order(s.map_values(f)));
    }
}

/// Sorts items; those that rank alike keep their order.
pub fn sort<T: Ranked>(items: Vec<T>) -> (res: Vec<T>)
    ensures
        res@ == in_order(items@),
{
    let ghost all = items@;
    let mut rest: Vec<T> = items;
    let mut turned: Vec<T> = Vec::new();
    while rest.len() > 0
        invariant
            rest@ + turned@.reverse() == all,
        decreases rest.len(),
    {
        let ghost before = rest@;
        let ghost flipped = turned@;
        if let Some(x) = rest.pop() {
            turned.push(x);
            assert(rest@ + turned@.reverse() =~= before + flipped.reverse());
        }
    }
    assert(turned@.reverse() =~= all);
    let mut out: Vec<T> = Vec::new();
    while turned.len() > 0
        invariant
            turned@.len() <= all.len(),
            turned@.reverse() == all.skip(all.len() - turned@.len()),
            out@ == in_order(all.take(all.len() - turned@.len())),
        decreases turned.len(),
    {
        let ghost n = all.len() - turned@.len();
        let ghost before = turned@;
        if let Some(x) = turned.pop() {
            proof {
                assert(before.reverse()[0] == before.last());
                assert(all.skip(n)[0] == all[n]);
                assert(all.take(n + 1).drop_last() =~= all.take(n));
                assert(turned@.reverse() =~= all.skip(n + 1)) by {
                    assert forall|i: int| 0 <= i < turned@.len() implies turned@.reverse()[i]
                        == all.skip(n + 1)[i] by {
                        assert(before.reverse()[i + 1] == all.skip(n)[i + 1]);
                    }
                }
            }
            let p: usize = find_place(&out, &x);
            proof {
                lemma_place(out@, x);
            }
            out.insert(p, x);
        }
    }
    assert(all.take(all.len() as int) =~= all);
    out
}

fn find_place<T: Ranked>(s: &Vec<T>, x: &T) -> (res: usize)
    ensures
        res == place(s@, *x),
        res <= s.len(),
{
    let mut i: usize = s.len();
    assert(s@.take(i as int) =~= s@);
    while i > 0 && !s[i - 1].at_most(x)
        invariant
            i <= s.len(),
            place(s@.take(i as int), *x) == place(s@, *x),
        decreases i,
    {
        assert(s@.take(i as int).drop_last() =~= s@.take(i - 1));
        i -= 1;
    }
    i
}

/// The text `a` stands no later than `b` in the order of their characters.
pub open spec fn text_ranks(a: Seq<char>, b: Seq<char>) -> bool
    decreases a.len(),
{
    if a.len() == 0 {
        true
    } else if b.len() == 0 {
        false
    } else if a[0] == b[0] {
        text_ranks(a.drop_first(), b.drop_first())
    } else {
        a[0] < b[0]
    }
}

/// Of two texts one does not come after the other, and only equal texts rank alike.
pub proof fn text_ranks_totally(a: Seq<char>, b: Seq<char>)
    ensures
        text_ranks(a, b) || text_ranks(b, a),
        text_ranks(a, b) && text_ranks(b, a) ==> a == b,
    decreases a.len(),
{
    if a.len() > 0 && b.len() > 0 && a[0] == b[0] {
        text_ranks_totally(a.drop_first(), b.drop_first());
        if text_ranks(a, b) && text_ranks(b, a) {
            assert(a =~= seq![a[0]] + a.drop_first());
            assert(b =~= seq![b[0]] + b.drop_first());
        }
    } else if a.len() == 0 && b.len() == 0 {
        assert(a =~= b);
    }
}

/// The order of texts is transitive.
pub proof fn text_ranks_transitively(a: Seq<char>, b: Seq<char>, c: Seq<char>)
    requires
        text_ranks(a, b),
        text_ranks(b, c),
    ensures
        text_ranks(a, c),
    decreases a.len(),
{
    if a.len() > 0 && b.len() > 0 && c.len() > 0 && a[0] == b[0] && b[0] == c[0] {
        text_ranks_transitively(a.drop_first(), b.drop_first(), c.drop_first());
    }
}

/// Tells whether `a` stands no later than `b` in the order of their
/// characters.
pub fn text_at_most(a: &[char], b: &[char]) -> (res: bool)
    ensures
        res == text_ranks(a@, b@),
{
    let mut i: usize = 0;
    assert(a@.skip(0) =~= a@);
    assert(b@.skip(0) =~= b@);
    while i < a.len()
        invariant
            i <= a.len(),
            i <= b.len(),
            text_ranks(a@.skip(i as int), b@.skip(i as int)) == text_ranks(a@, b@),
        decreases a.len() - i,
    {
        if i >= b.len() {
            return false;
        }
        if a[i] != b[i] {
            return a[i] < b[i];
        }
        assert(a@.skip(i as int).drop_first() =~= a@.skip(i + 1));
        assert(b@.skip(i as int).drop_first() =~= b@.skip(i + 1));
        i += 1;
    }
    true
}

} // verus!
