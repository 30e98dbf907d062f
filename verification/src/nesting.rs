//! How the subtrees of a tree nest.

use crate::tree::{
    child_nodes, children, end, is_node, members, of_kind, siblings, well_formed, ElementView,
    Kind,
};
use vstd::prelude::*;

verus! {

/// Whether no element from `c` up to `x` holds `x` in its subtree.
pub open spec fn clear(t: Seq<ElementView>, c: int, x: int) -> bool {
    forall|m: int| c <= m < x ==> #[trigger] end(t, m) <= x
}

/// Whether `x` is a child of `p`: it lies in the subtree of `p`, and in the
/// subtree of no element between the two.
pub open spec fn is_child(t: Seq<ElementView>, p: int, x: int) -> bool {
    0 <= p < x < end(t, p) && p < t.len() && clear(t, p + 1, x)
}

/// Whether the elements of a sequence ascend.
pub open spec fn ascends(s: Seq<int>) -> bool {
    forall|i: int, j: int| 0 <= i < j < s.len() ==> s[i] < s[j]
}

/// The siblings from `c` on are the elements from `c` on that no element
/// before them holds and whose subtrees end by `stop`.
pub proof fn lemma_siblings(t: Seq<ElementView>, c: int, stop: int, x: int)
    requires
        well_formed(t),
        0 <= c,
        stop <= t.len(),
    ensures
        siblings(t, c, stop).contains(x) <==> c <= x < stop && end(t, x) <= stop && clear(t, c, x),
    decreases stop - c,
{
    let all = siblings(t, c, stop);
    if 0 <= c < end(t, c) <= stop && c < t.len() {
        let next = end(t, c);
        let rest = siblings(t, next, stop);
        lemma_siblings(t, next, stop, x);
        if all.contains(x) {
            let i = choose|i: int| 0 <= i < all.len() && all[i] == x;
            if i > 0 {
                assert(rest[i - 1] == x);
                assert forall|m: int| c <= m < x implies #[trigger] end(t, m) <= x by {
                    if c < m < next {
                        assert(end(t, m) <= end(t, c));
                    }
                }
            }
        }
        if c <= x < stop && end(t, x) <= stop && clear(t, c, x) {
            if x == c {
                assert(all[0] == x);
            } else {
                assert(end(t, c) <= x);
                assert(rest.contains(x));
                let i = choose|i: int| 0 <= i < rest.len() && rest[i] == x;
                assert(all[i + 1] == x);
            }
        }
    } else {
        if c <= x < stop && end(t, x) <= stop && clear(t, c, x) {
            if c < x {
                assert(end(t, c) <= x);
                assert(c < end(t, c));
            } else {
                assert(c < end(t, c));
            }
        }
    }
}

/// Siblings stand in source order.
pub proof fn lemma_siblings_ascend(t: Seq<ElementView>, c: int, stop: int)
    requires
        well_formed(t),
        0 <= c,
        stop <= t.len(),
    ensures
        ascends(siblings(t, c, stop)),
        forall|i: int|
            0 <= i < siblings(t, c, stop).len() ==> c <= #[trigger] siblings(t, c, stop)[i],
    decreases stop - c,
{
    let all = siblings(t, c, stop);
    if 0 <= c < end(t, c) <= stop && c < t.len() {
        let rest = siblings(t, end(t, c), stop);
        lemma_siblings_ascend(t, end(t, c), stop);
        assert forall|i: int, j: int| 0 <= i < j < all.len() implies all[i] < all[j] by {
            assert(all[j] == rest[j - 1]);
            if i > 0 {
                assert(all[i] == rest[i - 1]);
            }
        }
        assert forall|i: int| 0 <= i < all.len() implies c <= #[trigger] all[i] by {
            if i > 0 {
                assert(all[i] == rest[i - 1]);
            }
        }
    }
}

/// The children of an element are the elements that are its children.
pub proof fn lemma_children(t: Seq<ElementView>, p: int, x: int)
    requires
        well_formed(t),
    ensures
        children(t, p).contains(x) <==> is_child(t, p, x),
{
    if 0 <= p < t.len() {
        assert(p < end(t, p) <= t.len());
        lemma_siblings(t, p + 1, end(t, p), x);
        if is_child(t, p, x) {
            assert(end(t, x) <= end(t, p));
        }
    }
}

/// The children of an element stand in source order.
pub proof fn lemma_children_ascend(t: Seq<ElementView>, p: int)
    requires
        well_formed(t),
    ensures
        ascends(children(t, p)),
{
    if 0 <= p < t.len() {
        assert(p < end(t, p) <= t.len());
        lemma_siblings_ascend(t, p + 1, end(t, p));
    }
}

/// Whether the subtree of `a` holds `x`.
pub open spec fn holds(t: Seq<ElementView>, a: int, x: int) -> bool {
    0 <= a < x < end(t, a) && a < t.len()
}

/// A subtree holds what the subtree of a child holds.
pub proof fn lemma_child_holds(t: Seq<ElementView>, p: int, x: int)
    requires
        well_formed(t),
        is_child(t, p, x),
    ensures
        holds(t, p, x),
        x < t.len(),
        end(t, x) <= end(t, p),
{
}

/// What holds an element is its parent or holds its parent.
pub proof fn lemma_holds_parent(t: Seq<ElementView>, a: int, p: int, x: int)
    requires
        well_formed(t),
        is_child(t, p, x),
        holds(t, a, x),
    ensures
        a == p || holds(t, a, p),
{
    if a > p {
        assert(end(t, a) <= x);
    }
}

/// Whatever a subtree holds lies in the subtree of a child: the one that
/// this gives.
pub proof fn lemma_child_holding(t: Seq<ElementView>, p: int, x: int) -> (c: int)
    requires
        well_formed(t),
        holds(t, p, x),
    ensures
        is_child(t, p, c),
        c <= x < end(t, c),
{
    lemma_sibling_holding(t, p, p + 1, x)
}

/// The sibling from `c` on in whose subtree `x` lies.
proof fn lemma_sibling_holding(t: Seq<ElementView>, p: int, c: int, x: int) -> (found: int)
    requires
        well_formed(t),
        holds(t, p, x),
        is_child(t, p, c),
        c <= x,
    ensures
        is_child(t, p, found),
        found <= x < end(t, found),
    decreases x - c,
{
    if x < end(t, c) {
        c
    } else {
        let next = end(t, c);
        assert(end(t, c) <= end(t, p));
        assert forall|m: int| p + 1 <= m < next implies #[trigger] end(t, m) <= next by {
            if m < c {
                assert(end(t, m) <= c);
            } else if m > c {
                assert(end(t, m) <= end(t, c));
            }
        }
        lemma_sibling_holding(t, p, next, x)
    }
}

/// What is kept of an ascending sequence ascends, and was in the sequence.
pub proof fn lemma_filter_ascends(s: Seq<int>, keep: spec_fn(int) -> bool)
    requires
        ascends(s),
    ensures
        ascends(s.filter(keep)),
        forall|i: int|
            0 <= i < s.filter(keep).len() ==> s.contains(#[trigger] s.filter(keep)[i]) && keep(
                s.filter(keep)[i],
            ),
    decreases s.len(),
{
    reveal(Seq::filter);
    let kept = s.filter(keep);
    if s.len() > 0 {
        let front = s.drop_last();
        let before = front.filter(keep);
        lemma_filter_ascends(front, keep);
        assert forall|i: int| 0 <= i < before.len() implies s.contains(#[trigger] before[i])
            && before[i] < s.last() by {
            let j = choose|j: int| 0 <= j < front.len() && front[j] == before[i];
            assert(s[j] == before[i]);
        }
        assert forall|i: int| 0 <= i < kept.len() implies s.contains(#[trigger] kept[i]) && keep(
            kept[i],
        ) by {
            if i < before.len() {
                assert(kept[i] == before[i]);
            } else {
                assert(kept[i] == s[s.len() - 1]);
            }
        }
        assert forall|i: int, j: int| 0 <= i < j < kept.len() implies kept[i] < kept[j] by {
            assert(kept[i] == before[i]);
            if j < before.len() {
                assert(kept[j] == before[j]);
            }
        }
    }
}

/// The child nodes of an element are children of it, are nodes, and stand
/// in source order.
pub proof fn lemma_child_nodes(t: Seq<ElementView>, p: int)
    requires
        well_formed(t),
    ensures
        ascends(child_nodes(t, p)),
        forall|i: int|
            0 <= i < child_nodes(t, p).len() ==> is_child(t, p, #[trigger] child_nodes(t, p)[i])
                && !t[child_nodes(t, p)[i]].kind.is_token(),
{
    lemma_children_ascend(t, p);
    lemma_filter_ascends(children(t, p), is_node(t));
    assert forall|i: int| 0 <= i < child_nodes(t, p).len() implies is_child(
        t,
        p,
        #[trigger] child_nodes(t, p)[i],
    ) by {
        lemma_children(t, p, child_nodes(t, p)[i]);
    }
}

/// The members of one kind are children of the element, have the kind, and
/// stand in source order.
pub proof fn lemma_members(t: Seq<ElementView>, p: int, kind: Kind)
    requires
        well_formed(t),
    ensures
        ascends(members(t, p, kind)),
        forall|i: int|
            0 <= i < members(t, p, kind).len() ==> is_child(t, p, #[trigger] members(t, p, kind)[i])
                && t[members(t, p, kind)[i]].kind == kind,
{
    lemma_children_ascend(t, p);
    lemma_filter_ascends(children(t, p), of_kind(t, kind));
    assert forall|i: int| 0 <= i < members(t, p, kind).len() implies is_child(
        t,
        p,
        #[trigger] members(t, p, kind)[i],
    ) by {
        lemma_children(t, p, members(t, p, kind)[i]);
    }
}

/// An element is the child of one element at most.
pub proof fn lemma_one_parent(t: Seq<ElementView>, p: int, q: int, x: int)
    requires
        well_formed(t),
        is_child(t, p, x),
        is_child(t, q, x),
    ensures
        p == q,
{
    if p < q {
        assert(end(t, q) <= x);
    }
    if q < p {
        assert(end(t, p) <= x);
    }
}

} // verus!
