//! The tree of panes in a tab: each node is a pane or a split of two subtrees.

use vstd::prelude::*;

verus! {

/// How the halves of a split lie.
#[derive(Clone, Copy, PartialEq, Eq, Debug, Structural)]
pub enum Orientation {
    /// Left and right.
    Horizontal,
    /// Top and bottom.
    Vertical,
}

/// A tree of panes, which are given by their numbers.
#[derive(Debug)]
pub enum Tree {
    Leaf(u64),
    Split { orientation: Orientation, position: i32, start: Box<Tree>, end: Box<Tree> },
}

/// The panes of a tree, from its start to its end.
pub open spec fn leaves(t: Tree) -> Seq<u64>
    decreases t,
{
    match t {
        Tree::Leaf(p) => seq![p],
        Tree::Split { start, end, .. } => leaves(*start) + leaves(*end),
    }
}

/// The tree with a pane split: the new pane comes behind it.
pub open spec fn split(t: Tree, pane: u64, new: u64, orientation: Orientation) -> Tree
    decreases t,
{
    match t {
        Tree::Leaf(p) => if p == pane {
            Tree::Split {
                orientation,
                position: 0,
                start: Box::new(Tree::Leaf(p)),
                end: Box::new(Tree::Leaf(new)),
            }
        } else {
            t
        },
        Tree::Split { orientation: o, position, start, end } => Tree::Split {
            orientation: o,
            position,
            start: Box::new(split(*start, pane, new, orientation)),
            end: Box::new(split(*end, pane, new, orientation)),
        },
    }
}

/// The tree without a pane: its sibling takes the place of their split. Nothing
/// is left of a tree that is the pane alone.
pub open spec fn removed(t: Tree, pane: u64) -> Option<Tree>
    decreases t,
{
    match t {
        Tree::Leaf(p) => if p == pane {
            None
        } else {
            Some(t)
        },
        Tree::Split { orientation, position, start, end } => match (
            removed(*start, pane),
            removed(*end, pane),
        ) {
            (Some(a), Some(b)) => Some(
                Tree::Split { orientation, position, start: Box::new(a), end: Box::new(b) },
            ),
            (Some(a), None) => Some(a),
            (None, b) => b,
        },
    }
}

/// A split's position after a step, which does not leave the window.
pub open spec fn stepped(position: int, delta: int) -> int {
    if position + delta < 0 {
        0
    } else if position + delta > i32::MAX {
        i32::MAX as int
    } else {
        position + delta
    }
}

/// The tree with the nearest split around a pane that has an orientation moved,
/// if there is one.
pub open spec fn moved(t: Tree, pane: u64, target: Orientation, delta: int) -> Option<Tree>
    decreases t,
{
    match t {
        Tree::Leaf(_) => None,
        Tree::Split { orientation, position, start, end } => {
            let here = if orientation == target {
                Some(
                    Tree::Split {
                        orientation,
                        position: stepped(position as int, delta) as i32,
                        start,
                        end,
                    },
                )
            } else {
                None
            };
            if leaves(*start).contains(pane) {
                match moved(*start, pane, target, delta) {
                    Some(a) => Some(Tree::Split { orientation, position, start: Box::new(a), end }),
                    None => here,
                }
            } else if leaves(*end).contains(pane) {
                match moved(*end, pane, target, delta) {
                    Some(b) => Some(Tree::Split { orientation, position, start, end: Box::new(b) }),
                    None => here,
                }
            } else {
                None
            }
        },
    }
}

/// The tree with its splits at the given positions, from its root on, and the
/// number of positions used up to then. A split for which none is left stays.
pub open spec fn positioned(t: Tree, positions: Seq<i32>, used: int) -> (Tree, int)
    decreases t,
{
    match t {
        Tree::Leaf(_) => (t, used),
        Tree::Split { orientation, position, start, end } => {
            let here = used < positions.len();
            let a = positioned(
                *start,
                positions,
                if here {
                    used + 1
                } else {
                    used
                },
            );
            let b = positioned(*end, positions, a.1);
            (
                Tree::Split {
                    orientation,
                    position: if here {
                        positions[used]
                    } else {
                        position
                    },
                    start: Box::new(a.0),
                    end: Box::new(b.0),
                },
                b.1,
            )
        },
    }
}

// ---------------------------------------------------------------------------
// Laws
// ---------------------------------------------------------------------------

/// A tree has a pane.
pub proof fn trees_have_panes(t: Tree)
    ensures
        leaves(t).len() > 0,
    decreases t,
{
    match t {
        Tree::Leaf(_) => {},
        Tree::Split { start, end, .. } => {
            trees_have_panes(*start);
            trees_have_panes(*end);
        },
    }
}

proof fn lemma_split_elsewhere(t: Tree, pane: u64, new: u64, orientation: Orientation)
    requires
        !leaves(t).contains(pane),
    ensures
        split(t, pane, new, orientation) == t,
    decreases t,
{
    match t {
        Tree::Leaf(p) => {
            assert(leaves(t)[0] == p);
        },
        Tree::Split { start, end, .. } => {
            lemma_in_halves(*start, *end, pane);
            lemma_split_elsewhere(*start, pane, new, orientation);
            lemma_split_elsewhere(*end, pane, new, orientation);
        },
    }
}

proof fn lemma_in_halves(a: Tree, b: Tree, pane: u64)
    ensures
        (leaves(a) + leaves(b)).contains(pane) <==> leaves(a).contains(pane) || leaves(b).contains(
            pane,
        ),
{
    let s = leaves(a) + leaves(b);
    if leaves(a).contains(pane) {
        let i = choose|i: int| 0 <= i < leaves(a).len() && leaves(a)[i] == pane;
        assert(s[i] == pane);
    }
    if leaves(b).contains(pane) {
        let i = choose|i: int| 0 <= i < leaves(b).len() && leaves(b)[i] == pane;
        assert(s[leaves(a).len() + i] == pane);
    }
    if s.contains(pane) {
        let i = choose|i: int| 0 <= i < s.len() && s[i] == pane;
        if i < leaves(a).len() {
            assert(leaves(a)[i] == pane);
        } else {
            assert(leaves(b)[i - leaves(a).len()] == pane);
        }
    }
}

proof fn lemma_halves_are_distinct(a: Seq<u64>, b: Seq<u64>)
    requires
        (a + b).no_duplicates(),
    ensures
        a.no_duplicates(),
        b.no_duplicates(),
        forall|x: u64| a.contains(x) ==> !#[trigger] b.contains(x),
{
    let s = a + b;
    assert forall|i: int, j: int| 0 <= i < a.len() && 0 <= j < a.len() && i != j implies a[i]
        != a[j] by {
        assert(s[i] == a[i] && s[j] == a[j]);
    }
    assert forall|i: int, j: int| 0 <= i < b.len() && 0 <= j < b.len() && i != j implies b[i]
        != b[j] by {
        assert(s[a.len() + i] == b[i] && s[a.len() + j] == b[j]);
    }
    assert forall|x: u64| a.contains(x) implies !#[trigger] b.contains(x) by {
        if b.contains(x) {
            let i = choose|i: int| 0 <= i < a.len() && a[i] == x;
            let j = choose|j: int| 0 <= j < b.len() && b[j] == x;
            assert(s[i] == s[a.len() + j]);
        }
    }
}

/// Splitting a pane puts the new one directly behind it, and leaves every other
/// pane where it was.
pub proof fn splitting_adds_one_pane(
    t: Tree,
    pane: u64,
    new: u64,
    orientation: Orientation,
    i: int,
)
    requires
        leaves(t).no_duplicates(),
        0 <= i < leaves(t).len(),
        leaves(t)[i] == pane,
    ensures
        leaves(split(t, pane, new, orientation)) == leaves(t).insert(i + 1, new),
    decreases t,
{
    match t {
        Tree::Leaf(p) => {
            assert(leaves(Tree::Leaf(p)) + leaves(Tree::Leaf(new)) =~= leaves(t).insert(
                i + 1,
                new,
            ));
            reveal_with_fuel(leaves, 2);
        },
        Tree::Split { start, end, .. } => {
            let a = leaves(*start);
            let b = leaves(*end);
            lemma_halves_are_distinct(a, b);
            if i < a.len() {
                assert(a[i] == pane);
                assert(!b.contains(pane)) by {
                    assert(a.contains(pane));
                }
                splitting_adds_one_pane(*start, pane, new, orientation, i);
                lemma_split_elsewhere(*end, pane, new, orientation);
                assert(a.insert(i + 1, new) + b =~= (a + b).insert(i + 1, new));
            } else {
                let j = i - a.len();
                assert(b[j] == pane);
                assert(!a.contains(pane)) by {
                    assert(b.contains(pane));
                }
                splitting_adds_one_pane(*end, pane, new, orientation, j);
                lemma_split_elsewhere(*start, pane, new, orientation);
                assert(a + b.insert(j + 1, new) =~= (a + b).insert(i + 1, new));
            }
        },
    }
}

proof fn lemma_removed_elsewhere(t: Tree, pane: u64)
    requires
        !leaves(t).contains(pane),
    ensures
        removed(t, pane) == Some(t),
    decreases t,
{
    match t {
        Tree::Leaf(p) => {
            assert(leaves(t)[0] == p);
        },
        Tree::Split { start, end, .. } => {
            lemma_in_halves(*start, *end, pane);
            lemma_removed_elsewhere(*start, pane);
            lemma_removed_elsewhere(*end, pane);
        },
    }
}

/// Removing a pane leaves every other one where it was.
pub proof fn removing_takes_one_pane(t: Tree, pane: u64, i: int)
    requires
        leaves(t).no_duplicates(),
        0 <= i < leaves(t).len(),
        leaves(t)[i] == pane,
    ensures
        removed(t, pane) is None <==> leaves(t).len() == 1,
        removed(t, pane) matches Some(r) ==> leaves(r) == leaves(t).remove(i),
    decreases t,
{
    match t {
        Tree::Leaf(p) => {},
        Tree::Split { start, end, .. } => {
            let a = leaves(*start);
            let b = leaves(*end);
            trees_have_panes(*start);
            trees_have_panes(*end);
            lemma_halves_are_distinct(a, b);
            if i < a.len() {
                assert(a[i] == pane);
                assert(!b.contains(pane)) by {
                    assert(a.contains(pane));
                }
                removing_takes_one_pane(*start, pane, i);
                lemma_removed_elsewhere(*end, pane);
                assert(a.remove(i) + b =~= (a + b).remove(i));
                if a.len() == 1 {
                    assert(a.remove(i) + b =~= b);
                }
            } else {
                let j = i - a.len();
                assert(b[j] == pane);
                assert(!a.contains(pane)) by {
                    assert(b.contains(pane));
                }
                removing_takes_one_pane(*end, pane, j);
                lemma_removed_elsewhere(*start, pane);
                assert(a + b.remove(j) =~= (a + b).remove(i));
                if b.len() == 1 {
                    assert(a + b.remove(j) =~= a);
                }
            }
        },
    }
}

/// Removing the pane that a split has just added gives the tree back.
pub proof fn removing_undoes_splitting(t: Tree, pane: u64, new: u64, orientation: Orientation)
    requires
        leaves(t).no_duplicates(),
        leaves(t).contains(pane),
        !leaves(t).contains(new),
    ensures
        removed(split(t, pane, new, orientation), new) == Some(t),
    decreases t,
{
    match t {
        Tree::Leaf(p) => {
            assert(leaves(t)[0] == p);
            reveal_with_fuel(removed, 2);
        },
        Tree::Split { start, end, .. } => {
            let a = leaves(*start);
            let b = leaves(*end);
            lemma_halves_are_distinct(a, b);
            lemma_in_halves(*start, *end, pane);
            lemma_in_halves(*start, *end, new);
            if a.contains(pane) {
                assert(!b.contains(pane));
                removing_undoes_splitting(*start, pane, new, orientation);
                lemma_split_elsewhere(*end, pane, new, orientation);
                lemma_removed_elsewhere(*end, new);
            } else {
                removing_undoes_splitting(*end, pane, new, orientation);
                lemma_split_elsewhere(*start, pane, new, orientation);
                lemma_removed_elsewhere(*start, new);
            }
        },
    }
}

/// Moving a split keeps the panes in their places.
pub proof fn moving_keeps_the_panes(t: Tree, pane: u64, target: Orientation, delta: int)
    ensures
        moved(t, pane, target, delta) matches Some(m) ==> leaves(m) == leaves(t),
    decreases t,
{
    match t {
        Tree::Leaf(_) => {},
        Tree::Split { start, end, .. } => {
            moving_keeps_the_panes(*start, pane, target, delta);
            moving_keeps_the_panes(*end, pane, target, delta);
        },
    }
}

/// Placing the splits keeps the panes in their places.
pub proof fn placing_keeps_the_panes(t: Tree, positions: Seq<i32>, used: int)
    ensures
        leaves(positioned(t, positions, used).0) == leaves(t),
    decreases t,
{
    if let Tree::Split { start, end, .. } = t {
        let n = if used < positions.len() {
            used + 1
        } else {
            used
        };
        placing_keeps_the_panes(*start, positions, n);
        placing_keeps_the_panes(*end, positions, positioned(*start, positions, n).1);
    }
}

// ---------------------------------------------------------------------------
// Computing it
// ---------------------------------------------------------------------------

impl Tree {
    /// Tells whether a pane is in the tree.
    pub fn has(&self, pane: u64) -> (res: bool)
        ensures
            res == leaves(*self).contains(pane),
        decreases *self,
    {
        match self {
            Tree::Leaf(p) => {
                assert(leaves(*self)[0] == *p);
                *p == pane
            },
            Tree::Split { start, end, .. } => {
                proof {
                    lemma_in_halves(**start, **end, pane);
                }
                start.has(pane) || end.has(pane)
            },
        }
    }

    /// Splits a pane: the new one comes behind it.
    pub fn split(self, pane: u64, new: u64, orientation: Orientation) -> (res: Tree)
        ensures
            res == split(self, pane, new, orientation),
        decreases self,
    {
        match self {
            Tree::Leaf(p) => if p == pane {
                Tree::Split {
                    orientation,
                    position: 0,
                    start: Box::new(Tree::Leaf(p)),
                    end: Box::new(Tree::Leaf(new)),
                }
            } else {
                Tree::Leaf(p)
            },
            Tree::Split { orientation: o, position, start, end } => {
                let a = (*start).split(pane, new, orientation);
                let b = (*end).split(pane, new, orientation);
                Tree::Split { orientation: o, position, start: Box::new(a), end: Box::new(b) }
            },
        }
    }

    /// Removes a pane: its sibling takes the place of their split.
    pub fn remove(self, pane: u64) -> (res: Option<Tree>)
        ensures
            res == removed(self, pane),
        decreases self,
    {
        match self {
            Tree::Leaf(p) => if p == pane {
                None
            } else {
                Some(Tree::Leaf(p))
            },
            Tree::Split { orientation, position, start, end } => {
                let a = (*start).remove(pane);
                let b = (*end).remove(pane);
                match (a, b) {
                    (Some(a), Some(b)) => Some(
                        Tree::Split { orientation, position, start: Box::new(a), end: Box::new(b) },
                    ),
                    (Some(a), None) => Some(a),
                    (None, b) => b,
                }
            },
        }
    }

    /// Puts the splits at the given positions, from the root on.
    pub fn place(&mut self, positions: &[i32], used: usize) -> (res: usize)
        requires
            used <= positions@.len(),
        ensures
            (*final(self), res as int) == positioned(*old(self), positions@, used as int),
            used <= res <= positions@.len(),
        decreases *old(self),
    {
        match self {
            Tree::Leaf(_) => used,
            Tree::Split { position, start, end, .. } => {
                let mut n: usize = used;
                if used < positions.len() {
                    *position = positions[used];
                    n = used + 1;
                }
                let k = (**start).place(positions, n);
                (**end).place(positions, k)
            },
        }
    }

    /// Moves the nearest split around a pane that has an orientation.
    pub fn resize(&mut self, pane: u64, target: Orientation, delta: i32) -> (res: bool)
        ensures
            match moved(*old(self), pane, target, delta as int) {
                Some(t) => res && *final(self) == t,
                None => !res && *final(self) == *old(self),
            },
        decreases *old(self),
    {
        match self {
            Tree::Leaf(_) => false,
            Tree::Split { orientation, position, start, end } => {
                if start.has(pane) {
                    if (**start).resize(pane, target, delta) {
                        return true;
                    }
                } else if end.has(pane) {
                    if (**end).resize(pane, target, delta) {
                        return true;
                    }
                } else {
                    return false;
                }
                if *orientation == target {
                    let sum: i64 = *position as i64 + delta as i64;
                    *position = if sum < 0 {
                        0
                    } else if sum > i32::MAX as i64 {
                        i32::MAX
                    } else {
                        sum as i32
                    };
                    true
                } else {
                    false
                }
            },
        }
    }
}

} // verus!
