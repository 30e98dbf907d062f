//! Facts about sequences.

use vstd::prelude::*;

verus! {

/// Whether each element of a sequence stands before the elements behind it.
pub open spec fn sorted<B>(s: Seq<B>, before: spec_fn(B, B) -> bool) -> bool {
    forall|i: int, j: int| 0 <= i < j < s.len() ==> before(s[i], s[j])
}

/// An element of a flattened sequence comes from one of the parts.
pub proof fn lemma_flat_map_contains<A, B>(s: Seq<A>, f: spec_fn(A) -> Seq<B>, x: B)
    ensures
        s.flat_map(f).contains(x) <==> exists|i: int| 0 <= i < s.len() && (#[trigger] f(
            s[i],
        )).contains(x),
    decreases s.len(),
{
    if s.len() == 0 {
        assert(s.flat_map(f) =~= Seq::empty());
    } else {
        let front = s.drop_last();
        let tail = f(s.last());
        front.lemma_flat_map_push(f, s.last());
        assert(front.push(s.last()) =~= s);
        lemma_flat_map_contains(front, f, x);
        let whole = s.flat_map(f);
        assert(whole =~= front.flat_map(f) + tail);
        if whole.contains(x) {
            let j = choose|j: int| 0 <= j < whole.len() && whole[j] == x;
            if j < front.flat_map(f).len() {
                assert(front.flat_map(f)[j] == x);
                let i = choose|i: int| 0 <= i < front.len() && (#[trigger] f(front[i])).contains(x);
                assert(f(s[i]).contains(x));
            } else {
                assert(tail[j - front.flat_map(f).len()] == x);
                assert(f(s[s.len() - 1]).contains(x));
            }
        }
        if exists|i: int| 0 <= i < s.len() && (#[trigger] f(s[i])).contains(x) {
            let i = choose|i: int| 0 <= i < s.len() && (#[trigger] f(s[i])).contains(x);
            if i < front.len() {
                assert(f(front[i]).contains(x));
                let j = choose|j: int|
                    0 <= j < front.flat_map(f).len() && front.flat_map(f)[j] == x;
                assert(whole[j] == x);
            } else {
                let j = choose|j: int| 0 <= j < tail.len() && tail[j] == x;
                assert(whole[front.flat_map(f).len() + j] == x);
            }
        }
    }
}

/// An element of a filtered and mapped sequence comes from an element that
/// the function keeps.
pub proof fn lemma_filter_map_contains<A, B>(s: Seq<A>, f: spec_fn(A) -> Option<B>, x: B)
    ensures
        s.filter_map(f).contains(x) <==> exists|i: int|
            0 <= i < s.len() && #[trigger] f(s[i]) == Some(x),
    decreases s.len(),
{
    if s.len() > 0 {
        let front = s.drop_last();
        let kept = front.filter_map(f);
        let whole = s.filter_map(f);
        lemma_filter_map_contains(front, f, x);
        if whole.contains(x) {
            let j = choose|j: int| 0 <= j < whole.len() && whole[j] == x;
            if j < kept.len() {
                assert(kept[j] == x);
                let i = choose|i: int| 0 <= i < front.len() && #[trigger] f(front[i]) == Some(x);
                assert(f(s[i]) == Some(x));
            } else {
                assert(f(s[s.len() - 1]) == Some(x));
            }
        }
        if exists|i: int| 0 <= i < s.len() && #[trigger] f(s[i]) == Some(x) {
            let i = choose|i: int| 0 <= i < s.len() && #[trigger] f(s[i]) == Some(x);
            if i < front.len() {
                assert(f(front[i]) == Some(x));
                let j = choose|j: int| 0 <= j < kept.len() && kept[j] == x;
                assert(whole[j] == x);
            } else {
                assert(whole[kept.len() as int] == x);
            }
        }
    }
}

/// Parts that are sorted, each before the parts behind it, are sorted when
/// they are flattened.
pub proof fn lemma_flat_map_sorted<A, B>(
    s: Seq<A>,
    f: spec_fn(A) -> Seq<B>,
    before: spec_fn(B, B) -> bool,
)
    requires
        forall|i: int| 0 <= i < s.len() ==> sorted(#[trigger] f(s[i]), before),
        forall|i: int, j: int, x: B, y: B|
            0 <= i < j < s.len() && #[trigger] f(s[i]).contains(x) && #[trigger] f(s[j]).contains(
                y,
            ) ==> before(x, y),
    ensures
        sorted(s.flat_map(f), before),
    decreases s.len(),
{
    if s.len() == 0 {
        assert(s.flat_map(f) =~= Seq::empty());
    } else {
        let front = s.drop_last();
        let tail = f(s.last());
        let head = front.flat_map(f);
        let whole = s.flat_map(f);
        front.lemma_flat_map_push(f, s.last());
        assert(front.push(s.last()) =~= s);
        assert(whole =~= head + tail);
        assert forall|i: int| 0 <= i < front.len() implies sorted(
            #[trigger] f(front[i]),
            before,
        ) by {
            assert(front[i] == s[i]);
        }
        assert forall|i: int, j: int, x: B, y: B|
            0 <= i < j < front.len() && #[trigger] f(front[i]).contains(x) && #[trigger] f(
                front[j],
            ).contains(y) implies before(x, y) by {
            assert(front[i] == s[i] && front[j] == s[j]);
        }
        lemma_flat_map_sorted(front, f, before);
        assert forall|a: int, b: int| 0 <= a < b < whole.len() implies before(
            whole[a],
            whole[b],
        ) by {
            if b < head.len() {
                assert(whole[a] == head[a] && whole[b] == head[b]);
            } else if a >= head.len() {
                assert(whole[a] == tail[a - head.len()] && whole[b] == tail[b - head.len()]);
                assert(sorted(f(s[s.len() - 1]), before));
            } else {
                assert(whole[a] == head[a] && whole[b] == tail[b - head.len()]);
                assert(head.contains(head[a]));
                lemma_flat_map_contains(front, f, head[a]);
                let i = choose|i: int|
                    0 <= i < front.len() && (#[trigger] f(front[i])).contains(head[a]);
                assert(front[i] == s[i]);
                assert(f(s[s.len() - 1]).contains(tail[b - head.len()]));
            }
        }
    }
}

/// What is kept of a sorted sequence is sorted, where the function keeps
/// the order.
pub proof fn lemma_filter_map_sorted<A, B>(
    s: Seq<A>,
    f: spec_fn(A) -> Option<B>,
    first: spec_fn(A, A) -> bool,
    before: spec_fn(B, B) -> bool,
)
    requires
        sorted(s, first),
        forall|x: A, y: A| #[trigger]
            first(x, y) && f(x).is_some() && f(y).is_some() ==> before(
                f(x).unwrap(),
                f(y).unwrap(),
            ),
    ensures
        sorted(s.filter_map(f), before),
    decreases s.len(),
{
    if s.len() > 0 {
        let front = s.drop_last();
        let kept = front.filter_map(f);
        let whole = s.filter_map(f);
        assert forall|i: int, j: int| 0 <= i < j < front.len() implies first(
            front[i],
            front[j],
        ) by {
            assert(front[i] == s[i] && front[j] == s[j]);
        }
        lemma_filter_map_sorted(front, f, first, before);
        assert forall|a: int, b: int| 0 <= a < b < whole.len() implies before(
            whole[a],
            whole[b],
        ) by {
            if b < kept.len() {
                assert(whole[a] == kept[a] && whole[b] == kept[b]);
            } else {
                assert(whole[a] == kept[a]);
                assert(kept.contains(kept[a]));
                lemma_filter_map_contains(front, f, kept[a]);
                let i = choose|i: int|
                    0 <= i < front.len() && #[trigger] f(front[i]) == Some(kept[a]);
                assert(first(s[i], s[s.len() - 1]));
            }
        }
    }
}

} // verus!
