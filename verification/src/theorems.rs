//! What holds of every scan.

use crate::binding::is_hidden;
use crate::dead_code::{
    ascending, binding_at, candidate, closed, findings, findings_of, is_dead, lemma_ordered,
    lemma_unused_grows, lemma_unused_is_dead, nodes, report, scope_at, scope_findings, unused,
    verdict, DeadCodeView, Settings,
};
use crate::scope::{bindings, classify, is_lambda};
use crate::sequences::{lemma_filter_map_contains, lemma_flat_map_contains};
use crate::tree::ElementView;
use vstd::prelude::*;

verus! {

/// The nodes that define dead bindings.
pub open spec fn dead_set(t: Seq<ElementView>, settings: Settings) -> Set<int> {
    Set::new(|n: int| is_dead(t, settings, n))
}

/// The finding on the binding at index `k` of the scope that node `n`
/// opens.
pub open spec fn finding_at(t: Seq<ElementView>, n: int, k: int) -> DeadCodeView {
    DeadCodeView { scope: scope_at(t, n), binding: binding_at(t, n, k) }
}

/// Whether `f` is the finding on a candidate binding that is dead.
pub open spec fn is_finding(t: Seq<ElementView>, settings: Settings, f: DeadCodeView) -> bool {
    exists|n: int, k: int|
        0 <= n < t.len() && #[trigger] candidate(t, settings, n, k) && is_dead(
            t,
            settings,
            binding_at(t, n, k).node,
        ) && f == finding_at(t, n, k)
}

/// Whether `strict` leaves out whatever `lax` leaves out.
pub open spec fn stricter(strict: Settings, lax: Settings) -> bool {
    (lax.no_lambda_arg ==> strict.no_lambda_arg) && (lax.no_underscore ==> strict.no_underscore)
}

/// A scan of a tree has one result: two reports of one tree under the same
/// settings are equal, finding for finding.
pub proof fn lemma_report_is_determined(
    t: Seq<ElementView>,
    settings: Settings,
    first: Seq<DeadCodeView>,
    second: Seq<DeadCodeView>,
)
    requires
        first == report(t, settings),
        second == report(t, settings),
    ensures
        first == second,
{
}

/// The findings of a report stand by ascending offset of the names of their
/// bindings, wherever their scopes stand in the tree.
pub proof fn lemma_report_is_ascending(t: Seq<ElementView>, settings: Settings)
    ensures
        ascending(t, report(t, settings)),
{
    lemma_ordered(t, findings(t, settings));
}

/// The dead bindings are closed: a candidate binding that only dead
/// bindings use is dead.
pub proof fn lemma_dead_set_is_closed(t: Seq<ElementView>, settings: Settings)
    ensures
        closed(t, settings, dead_set(t, settings)),
{
    let dead = dead_set(t, settings);
    assert forall|n: int, k: int|
        #[trigger] candidate(t, settings, n, k) && unused(
            t,
            scope_at(t, n),
            binding_at(t, n, k),
            dead,
        ) implies dead.contains(binding_at(t, n, k).node) by {
        lemma_unused_is_dead(t, settings, dead, n, k);
    }
}

/// The dead bindings are the least closed set: every closed set holds them.
pub proof fn lemma_dead_set_is_least(t: Seq<ElementView>, settings: Settings, other: Set<int>)
    requires
        closed(t, settings, other),
    ensures
        dead_set(t, settings).subset_of(other),
{
}

/// Nothing is dead without a reason: a dead node defines a candidate
/// binding that no body uses but its own node and those of dead bindings.
pub proof fn lemma_dead_has_reason(t: Seq<ElementView>, settings: Settings, node: int)
    requires
        is_dead(t, settings, node),
    ensures
        exists|n: int, k: int|
            #[trigger] candidate(t, settings, n, k) && binding_at(t, n, k).node == node && unused(
                t,
                scope_at(t, n),
                binding_at(t, n, k),
                dead_set(t, settings),
            ),
{
    let dead = dead_set(t, settings);
    let reasoned = Set::new(
        |m: int|
            exists|n: int, k: int|
                #[trigger] candidate(t, settings, n, k) && binding_at(t, n, k).node == m && unused(
                    t,
                    scope_at(t, n),
                    binding_at(t, n, k),
                    dead,
                ),
    );
    let both = dead.intersect(reasoned);
    assert forall|n: int, k: int|
        #[trigger] candidate(t, settings, n, k) && unused(
            t,
            scope_at(t, n),
            binding_at(t, n, k),
            both,
        ) implies both.contains(binding_at(t, n, k).node) by {
        lemma_unused_grows(t, scope_at(t, n), binding_at(t, n, k), both, dead);
        lemma_unused_is_dead(t, settings, dead, n, k);
    }
    assert(closed(t, settings, both));
    assert(both.contains(node));
}

/// Stricter settings only take findings away: what is dead under them is
/// dead under laxer settings.
pub proof fn lemma_stricter_settings_find_less(
    t: Seq<ElementView>,
    strict: Settings,
    lax: Settings,
    node: int,
)
    requires
        stricter(strict, lax),
        is_dead(t, strict, node),
    ensures
        is_dead(t, lax, node),
{
    assert forall|dead: Set<int>| #[trigger] closed(t, lax, dead) implies dead.contains(node) by {
        assert forall|n: int, k: int|
            #[trigger] candidate(t, strict, n, k) && unused(
                t,
                scope_at(t, n),
                binding_at(t, n, k),
                dead,
            ) implies dead.contains(binding_at(t, n, k).node) by {
            assert(candidate(t, lax, n, k));
        }
        assert(closed(t, strict, dead));
    }
}

/// A report holds the findings on the candidate bindings that are dead, and
/// nothing else.
pub proof fn lemma_report_holds_the_dead(t: Seq<ElementView>, settings: Settings, f: DeadCodeView)
    ensures
        report(t, settings).contains(f) <==> is_finding(t, settings, f),
{
    broadcast use vstd::seq_lib::group_to_multiset_ensures;

    let all = findings(t, settings);
    lemma_ordered(t, all);
    assert(report(t, settings).contains(f) <==> all.contains(f)) by {
        assert(report(t, settings).to_multiset().count(f) == all.to_multiset().count(f));
    }
    lemma_flat_map_contains(nodes(t), findings_of(t, settings), f);
    if all.contains(f) {
        let n = choose|n: int|
            0 <= n < nodes(t).len() && (#[trigger] findings_of(t, settings)(nodes(t)[n])).contains(
                f,
            );
        assert(scope_findings(t, settings, n).contains(f));
        let s = classify(t, n).unwrap();
        lemma_filter_map_contains(bindings(t, s), verdict(t, settings, s), f);
        let k = choose|k: int|
            0 <= k < bindings(t, s).len() && #[trigger] verdict(t, settings, s)(bindings(t, s)[k])
                == Some(f);
        assert(candidate(t, settings, n, k));
        assert(f == finding_at(t, n, k));
    }
    if is_finding(t, settings, f) {
        let (n, k) = choose|n: int, k: int|
            0 <= n < t.len() && #[trigger] candidate(t, settings, n, k) && is_dead(
                t,
                settings,
                binding_at(t, n, k).node,
            ) && f == finding_at(t, n, k);
        let s = classify(t, n).unwrap();
        lemma_filter_map_contains(bindings(t, s), verdict(t, settings, s), f);
        assert(verdict(t, settings, s)(bindings(t, s)[k]) == Some(f));
        assert(scope_findings(t, settings, n).contains(f));
        assert(findings_of(t, settings)(nodes(t)[n]).contains(f));
    }
}

/// Settings that leave out the arguments of functions report none.
pub proof fn lemma_no_lambda_arg(t: Seq<ElementView>, settings: Settings, f: DeadCodeView)
    requires
        settings.no_lambda_arg,
        report(t, settings).contains(f),
    ensures
        !is_lambda(f.scope.kind),
{
    lemma_report_holds_the_dead(t, settings, f);
}

/// Settings that leave out the names that begin with an underscore report
/// none.
pub proof fn lemma_no_underscore(t: Seq<ElementView>, settings: Settings, f: DeadCodeView)
    requires
        settings.no_underscore,
        report(t, settings).contains(f),
    ensures
        !is_hidden(f.binding.name),
{
    lemma_report_holds_the_dead(t, settings, f);
}

/// No report holds a binding that is not mortal.
pub proof fn lemma_only_mortal(t: Seq<ElementView>, settings: Settings, f: DeadCodeView)
    requires
        report(t, settings).contains(f),
    ensures
        f.binding.mortal,
{
    lemma_report_holds_the_dead(t, settings, f);
}

} // verus!
