//! The node that defines a binding is its key: no two bindings of a tree
//! share it, and no report holds two findings for it.

use crate::binding::BindingView;
use crate::dead_code::{
    binding_at, candidate, findings, findings_of, lemma_ordered, nodes, report, scope_at,
    scope_findings, verdict, DeadCodeView, Settings,
};
use crate::nesting::{
    ascends, holds, is_child, lemma_child_holds, lemma_child_nodes, lemma_holds_parent,
    lemma_members,
};
use crate::scope::{
    bindings, classify, formal_bindings, member_bindings, of_formal, of_member, ScopeKind,
};
use crate::sequences::{
    lemma_filter_map_contains, lemma_filter_map_sorted, lemma_flat_map_contains,
    lemma_flat_map_sorted, sorted,
};
use crate::theorems::{finding_at, lemma_report_holds_the_dead};
use crate::tree::{child_nodes, end, has_token, members, well_formed, ElementView, Kind};
use vstd::prelude::*;

verus! {

/// Whether nodes of this kind can open a scope.
pub open spec fn opens(kind: Kind) -> bool {
    kind == Kind::Lambda || kind == Kind::LetIn || kind == Kind::AttrSet
}

/// Whether `x` stands below `n` with no node between them that can open a
/// scope: it is a child of `n`, or of a child, or of a child of a child.
pub open spec fn below(t: Seq<ElementView>, n: int, x: int) -> bool {
    ||| is_child(t, n, x)
    ||| exists|c: int| is_child(t, n, c) && !opens(t[c].kind) && #[trigger] is_child(t, c, x)
    ||| exists|p: int, c: int|
        is_child(t, n, p) && !opens(t[p].kind) && #[trigger] is_child(t, p, c) && !opens(
            t[c].kind,
        ) && #[trigger] is_child(t, c, x)
}

/// The order of bindings by the nodes that define them.
pub open spec fn by_node() -> spec_fn(BindingView, BindingView) -> bool {
    |a: BindingView, b: BindingView| a.node < b.node
}

/// The order of findings by scope, and in a scope by the nodes that define
/// the bindings.
pub open spec fn by_key() -> spec_fn(DeadCodeView, DeadCodeView) -> bool {
    |f: DeadCodeView, g: DeadCodeView|
        f.scope.node < g.scope.node || (f.scope.node == g.scope.node && f.binding.node
            < g.binding.node)
}

/// Whether the nodes that define the bindings lie in the subtree of `c`.
pub open spec fn inside(t: Seq<ElementView>, c: int, bs: Seq<BindingView>) -> bool {
    forall|i: int| 0 <= i < bs.len() ==> c <= (#[trigger] bs[i]).node < end(t, c)
}

/// Whether the nodes that define the bindings stand below `n`.
pub open spec fn all_below(t: Seq<ElementView>, n: int, bs: Seq<BindingView>) -> bool {
    forall|i: int| 0 <= i < bs.len() ==> below(t, n, (#[trigger] bs[i]).node)
}

/// What stands below a node lies in its subtree.
pub proof fn lemma_below_holds(t: Seq<ElementView>, n: int, x: int)
    requires
        well_formed(t),
        below(t, n, x),
    ensures
        holds(t, n, x),
{
    if is_child(t, n, x) {
    } else if exists|c: int|
        is_child(t, n, c) && !opens(t[c].kind) && #[trigger] is_child(t, c, x) {
        let c = choose|c: int|
            is_child(t, n, c) && !opens(t[c].kind) && #[trigger] is_child(t, c, x);
        lemma_child_holds(t, n, c);
        lemma_child_holds(t, c, x);
    } else {
        let (p, c) = choose|p: int, c: int|
            is_child(t, n, p) && !opens(t[p].kind) && #[trigger] is_child(t, p, c) && !opens(
                t[c].kind,
            ) && #[trigger] is_child(t, c, x);
        lemma_child_holds(t, n, p);
        lemma_child_holds(t, p, c);
        lemma_child_holds(t, c, x);
    }
}

/// Of two nodes that can open a scope and have one element below them, the
/// one is the other or holds it.
proof fn lemma_below_nearest(t: Seq<ElementView>, n: int, other: int, x: int)
    requires
        well_formed(t),
        below(t, n, x),
        holds(t, other, x),
        0 <= other < t.len(),
        opens(t[other].kind),
    ensures
        other <= n,
{
    if is_child(t, n, x) {
        lemma_holds_parent(t, other, n, x);
    } else if exists|c: int|
        is_child(t, n, c) && !opens(t[c].kind) && #[trigger] is_child(t, c, x) {
        let c = choose|c: int|
            is_child(t, n, c) && !opens(t[c].kind) && #[trigger] is_child(t, c, x);
        lemma_holds_parent(t, other, c, x);
        lemma_holds_parent(t, other, n, c);
    } else {
        let (p, c) = choose|p: int, c: int|
            is_child(t, n, p) && !opens(t[p].kind) && #[trigger] is_child(t, p, c) && !opens(
                t[c].kind,
            ) && #[trigger] is_child(t, c, x);
        lemma_holds_parent(t, other, c, x);
        lemma_holds_parent(t, other, p, c);
        lemma_holds_parent(t, other, n, p);
    }
}

/// An element stands below one node at most that can open a scope.
pub proof fn lemma_below_one(t: Seq<ElementView>, n: int, other: int, x: int)
    requires
        well_formed(t),
        below(t, n, x),
        below(t, other, x),
        0 <= n < t.len(),
        0 <= other < t.len(),
        opens(t[n].kind),
        opens(t[other].kind),
    ensures
        n == other,
{
    lemma_below_holds(t, n, x);
    lemma_below_holds(t, other, x);
    lemma_below_nearest(t, n, other, x);
    lemma_below_nearest(t, other, n, x);
}

/// The bindings of a member of a `let` or of a recursive set: their nodes
/// ascend, lie in the member, and stand below the scope.
pub proof fn lemma_member_bindings(t: Seq<ElementView>, n: int, c: int)
    requires
        well_formed(t),
        is_child(t, n, c),
    ensures
        sorted(member_bindings(t, c), by_node()),
        inside(t, c, member_bindings(t, c)),
        all_below(t, n, member_bindings(t, c)),
{
    let bs = member_bindings(t, c);
    lemma_child_holds(t, n, c);
    assert(c < end(t, c));
    if t[c].kind == Kind::Inherit {
        let names = members(t, c, Kind::Ident);
        lemma_members(t, c, Kind::Ident);
        assert forall|i: int| 0 <= i < bs.len() implies c <= (#[trigger] bs[i]).node < end(t, c)
            && below(t, n, bs[i].node) by {
            assert(bs[i].node == names[i]);
            assert(is_child(t, c, names[i]));
        }
        assert forall|i: int, j: int| 0 <= i < j < bs.len() implies by_node()(bs[i], bs[j]) by {
            assert(bs[i].node == names[i] && bs[j].node == names[j]);
        }
    }
}

/// The bindings of a part of a pattern: their nodes ascend, lie in the
/// part, and stand below the lambda.
pub proof fn lemma_formal_bindings(t: Seq<ElementView>, n: int, p: int, open: bool, c: int)
    requires
        well_formed(t),
        is_child(t, n, p),
        !opens(t[p].kind),
        is_child(t, p, c),
    ensures
        sorted(formal_bindings(t, open, c), by_node()),
        inside(t, c, formal_bindings(t, open, c)),
        all_below(t, n, formal_bindings(t, open, c)),
{
    let bs = formal_bindings(t, open, c);
    lemma_child_holds(t, p, c);
    assert(c < end(t, c));
    if t[c].kind == Kind::PatBind {
        let names = members(t, c, Kind::Ident);
        lemma_members(t, c, Kind::Ident);
        if names.len() > 0 {
            assert(is_child(t, c, names[0]));
            assert(below(t, n, names[0]));
        }
    } else if t[c].kind == Kind::PatEntry {
        assert(below(t, n, c));
    }
}

/// The bindings of a scope stand in source order: the nodes that define
/// them ascend. The nodes stand below the scope.
pub proof fn lemma_bindings_sorted(t: Seq<ElementView>, n: int)
    requires
        well_formed(t),
        classify(t, n).is_some(),
    ensures
        sorted(bindings(t, scope_at(t, n)), by_node()),
        all_below(t, n, bindings(t, scope_at(t, n))),
        opens(t[n].kind),
{
    let s = scope_at(t, n);
    let bs = bindings(t, s);
    let cs = child_nodes(t, n);
    lemma_child_nodes(t, n);
    match s.kind {
        ScopeKind::LambdaArg => {
            if cs.len() > 0 {
                assert(is_child(t, n, cs[0]));
            }
        },
        ScopeKind::LambdaPattern => {
            let p = cs[0];
            let open = has_token(t, p, Kind::Ellipsis);
            let parts = child_nodes(t, p);
            let f = of_formal(t, open);
            assert(is_child(t, n, p));
            lemma_child_nodes(t, p);
            assert forall|i: int| 0 <= i < parts.len() implies sorted(
                #[trigger] f(parts[i]),
                by_node(),
            ) && inside(t, parts[i], f(parts[i])) && all_below(t, n, f(parts[i])) by {
                lemma_formal_bindings(t, n, p, open, parts[i]);
            }
            lemma_blocks(t, n, p, parts, f);
        },
        _ => {
            let f = of_member(t);
            assert forall|i: int| 0 <= i < cs.len() implies sorted(#[trigger] f(cs[i]), by_node())
                && inside(t, cs[i], f(cs[i])) && all_below(t, n, f(cs[i])) by {
                lemma_member_bindings(t, n, cs[i]);
            }
            lemma_blocks(t, n, n, cs, f);
        },
    }
}

/// Bindings that are gathered child by child ascend where those of each
/// child ascend and lie in the child.
proof fn lemma_blocks(
    t: Seq<ElementView>,
    n: int,
    p: int,
    cs: Seq<int>,
    f: spec_fn(int) -> Seq<BindingView>,
)
    requires
        well_formed(t),
        ascends(cs),
        forall|i: int| 0 <= i < cs.len() ==> is_child(t, p, #[trigger] cs[i]),
        forall|i: int|
            0 <= i < cs.len() ==> sorted(#[trigger] f(cs[i]), by_node()) && inside(
                t,
                cs[i],
                f(cs[i]),
            ) && all_below(t, n, f(cs[i])),
    ensures
        sorted(cs.flat_map(f), by_node()),
        all_below(t, n, cs.flat_map(f)),
{
    assert forall|i: int, j: int, x: BindingView, y: BindingView|
        0 <= i < j < cs.len() && #[trigger] f(cs[i]).contains(x) && #[trigger] f(cs[j]).contains(
            y,
        ) implies by_node()(x, y) by {
        let left = f(cs[i]);
        let right = f(cs[j]);
        let a = choose|a: int| 0 <= a < left.len() && left[a] == x;
        let b = choose|b: int| 0 <= b < right.len() && right[b] == y;
        assert(cs[i] <= left[a].node < end(t, cs[i]));
        assert(cs[j] <= right[b].node < end(t, cs[j]));
        assert(is_child(t, p, cs[i]) && is_child(t, p, cs[j]));
        assert(end(t, cs[i]) <= cs[j]);
    }
    lemma_flat_map_sorted(cs, f, by_node());
    let all = cs.flat_map(f);
    assert forall|k: int| 0 <= k < all.len() implies below(t, n, (#[trigger] all[k]).node) by {
        assert(all.contains(all[k]));
        lemma_flat_map_contains(cs, f, all[k]);
        let i = choose|i: int| 0 <= i < cs.len() && (#[trigger] f(cs[i])).contains(all[k]);
        let block = f(cs[i]);
        let a = choose|a: int| 0 <= a < block.len() && block[a] == all[k];
        assert(below(t, n, block[a].node));
    }
}

/// A node defines one binding at most: two bindings with one defining node
/// are the same binding of the same scope.
pub proof fn lemma_one_binding_per_node(t: Seq<ElementView>, n: int, k: int, m: int, j: int)
    requires
        well_formed(t),
        0 <= n < t.len(),
        0 <= m < t.len(),
        classify(t, n).is_some(),
        classify(t, m).is_some(),
        0 <= k < bindings(t, scope_at(t, n)).len(),
        0 <= j < bindings(t, scope_at(t, m)).len(),
        binding_at(t, n, k).node == binding_at(t, m, j).node,
    ensures
        n == m,
        k == j,
{
    lemma_bindings_sorted(t, n);
    lemma_bindings_sorted(t, m);
    let x = binding_at(t, n, k).node;
    assert(below(t, n, bindings(t, scope_at(t, n))[k].node));
    assert(below(t, m, bindings(t, scope_at(t, m))[j].node));
    lemma_below_one(t, n, m, x);
    let bs = bindings(t, scope_at(t, n));
    if k < j {
        assert(by_node()(bs[k], bs[j]));
    }
    if j < k {
        assert(by_node()(bs[j], bs[k]));
    }
}

/// The findings of a tree stand scope after scope, and in a scope by the
/// nodes that define the bindings.
pub proof fn lemma_findings_sorted(t: Seq<ElementView>, settings: Settings)
    requires
        well_formed(t),
    ensures
        sorted(findings(t, settings), by_key()),
{
    let each = findings_of(t, settings);
    let all = nodes(t);
    assert forall|n: int| 0 <= n < all.len() implies sorted(#[trigger] each(all[n]), by_key())
        && forall|i: int|
        0 <= i < each(all[n]).len() ==> (#[trigger] each(all[n])[i]).scope.node == n by {
        lemma_scope_findings(t, settings, n);
    }
    assert forall|n: int, m: int, x: DeadCodeView, y: DeadCodeView|
        0 <= n < m < all.len() && #[trigger] each(all[n]).contains(x) && #[trigger] each(
            all[m],
        ).contains(y) implies by_key()(x, y) by {
        let left = each(all[n]);
        let right = each(all[m]);
        let a = choose|a: int| 0 <= a < left.len() && left[a] == x;
        let b = choose|b: int| 0 <= b < right.len() && right[b] == y;
        assert(left[a].scope.node == n);
        assert(right[b].scope.node == m);
    }
    lemma_flat_map_sorted(all, each, by_key());
}

/// The findings of one scope stand by the nodes that define the bindings.
proof fn lemma_scope_findings(t: Seq<ElementView>, settings: Settings, n: int)
    requires
        well_formed(t),
        0 <= n < t.len(),
    ensures
        sorted(scope_findings(t, settings, n), by_key()),
        forall|i: int|
            0 <= i < scope_findings(t, settings, n).len() ==> (#[trigger] scope_findings(
                t,
                settings,
                n,
            )[i]).scope.node == n,
{
    let fs = scope_findings(t, settings, n);
    if classify(t, n).is_some() {
        let s = scope_at(t, n);
        let judge = verdict(t, settings, s);
        lemma_bindings_sorted(t, n);
        lemma_filter_map_sorted(bindings(t, s), judge, by_node(), by_key());
        assert forall|i: int| 0 <= i < fs.len() implies (#[trigger] fs[i]).scope.node == n by {
            assert(fs.contains(fs[i]));
            lemma_filter_map_contains(bindings(t, s), judge, fs[i]);
        }
    }
}

/// A report holds one finding at most for a node: findings at two places
/// of a report have different defining nodes.
pub proof fn lemma_one_finding_per_node(t: Seq<ElementView>, settings: Settings, i: int, j: int)
    requires
        well_formed(t),
        0 <= i < report(t, settings).len(),
        0 <= j < report(t, settings).len(),
        report(t, settings)[i].binding.node == report(t, settings)[j].binding.node,
    ensures
        i == j,
{
    let all = findings(t, settings);
    let out = report(t, settings);
    lemma_findings_sorted(t, settings);
    assert(all.no_duplicates()) by {
        assert forall|a: int, b: int|
            0 <= a < all.len() && 0 <= b < all.len() && a != b implies all[a] != all[b] by {
            if a < b {
                assert(by_key()(all[a], all[b]));
            } else {
                assert(by_key()(all[b], all[a]));
            }
        }
    }
    lemma_ordered(t, all);
    all.lemma_multiset_has_no_duplicates();
    out.lemma_multiset_has_no_duplicates_conv();
    let f = out[i];
    let g = out[j];
    assert(out.contains(f) && out.contains(g));
    lemma_report_holds_the_dead(t, settings, f);
    lemma_report_holds_the_dead(t, settings, g);
    let (n, k) = choose|n: int, k: int|
        0 <= n < t.len() && #[trigger] candidate(t, settings, n, k) && f == finding_at(t, n, k);
    let (m, l) = choose|m: int, l: int|
        0 <= m < t.len() && #[trigger] candidate(t, settings, m, l) && g == finding_at(t, m, l);
    lemma_one_binding_per_node(t, n, k, m, l);
    assert(f == g);
}

} // verus!
