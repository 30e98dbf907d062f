//! The scan for dead bindings.

use crate::binding::{is_hidden, views, Binding, BindingView};
use crate::scope::{
    bindings, bodies, classify, description, in_tree, is_lambda, Scope, ScopeView,
};
use crate::tree::{ints, ElementView, Tree};
use crate::usage::{find_usage, uses};
use vstd::prelude::*;
use vstd::string::*;

verus! {

/// What to leave out of the scan.
#[derive(Clone, Copy, Debug, PartialEq, Eq, Structural)]
pub struct Settings {
    /// Leave out the arguments of functions.
    pub no_lambda_arg: bool,
    /// Leave out the names that begin with an underscore.
    pub no_underscore: bool,
}

/// A binding that nothing uses, with the scope that introduces it.
#[derive(Debug, PartialEq, Eq)]
pub struct DeadCode {
    /// The scope that introduces the binding.
    pub scope: Scope,
    /// The binding.
    pub binding: Binding,
}

/// The mathematical value of a [`DeadCode`].
pub struct DeadCodeView {
    pub scope: ScopeView,
    pub binding: BindingView,
}

impl View for DeadCode {
    type V = DeadCodeView;

    open spec fn view(&self) -> DeadCodeView {
        DeadCodeView { scope: self.scope@, binding: self.binding@ }
    }
}

impl Clone for DeadCode {
    fn clone(&self) -> (r: DeadCode)
        ensures
            r@ == self@,
    {
        DeadCode { scope: self.scope, binding: self.binding.clone() }
    }
}

/// The values of a sequence of findings.
pub open spec fn reports(s: Seq<DeadCode>) -> Seq<DeadCodeView> {
    s.map_values(|f: DeadCode| f@)
}

/// Whether the settings let the binding `b` of the scope `s` be reported:
/// it is mortal, and neither an argument nor a hidden name that the
/// settings leave out.
pub open spec fn counts(settings: Settings, s: ScopeView, b: BindingView) -> bool {
    &&& !(settings.no_lambda_arg && is_lambda(s.kind))
    &&& b.mortal
    &&& !(settings.no_underscore && is_hidden(b.name))
}

/// The scope that node `n` opens.
pub open spec fn scope_at(t: Seq<ElementView>, n: int) -> ScopeView {
    classify(t, n).unwrap()
}

/// The binding at index `k` of the scope that node `n` opens.
pub open spec fn binding_at(t: Seq<ElementView>, n: int, k: int) -> BindingView {
    bindings(t, scope_at(t, n))[k]
}

/// Whether node `n` opens a scope whose binding at index `k` the settings
/// let be reported.
pub open spec fn candidate(t: Seq<ElementView>, settings: Settings, n: int, k: int) -> bool {
    match classify(t, n) {
        Some(s) => 0 <= k < bindings(t, s).len() && counts(settings, s, bindings(t, s)[k]),
        None => false,
    }
}

/// Whether `body` gives the binding `b` no use: it is the node that defines
/// `b`, or it is dead itself, or it does not use the name.
pub open spec fn spared(t: Seq<ElementView>, b: BindingView, dead: Set<int>, body: int) -> bool {
    body == b.node || dead.contains(body) || !uses(t, b.name, body)
}

/// Whether no body of the scope `s` gives the binding `b` a use, where the
/// nodes in `dead` are known to be dead.
pub open spec fn unused(t: Seq<ElementView>, s: ScopeView, b: BindingView, dead: Set<int>) -> bool {
    forall|i: int| 0 <= i < bodies(t, s).len() ==> spared(t, b, dead, #[trigger] bodies(t, s)[i])
}

/// Whether `after` holds the defining node of each candidate binding that
/// is unused where the nodes in `before` are dead.
pub open spec fn step(
    t: Seq<ElementView>,
    settings: Settings,
    before: Set<int>,
    after: Set<int>,
) -> bool {
    forall|n: int, k: int|
        #[trigger] candidate(t, settings, n, k) && unused(
            t,
            scope_at(t, n),
            binding_at(t, n, k),
            before,
        ) ==> after.contains(binding_at(t, n, k).node)
}

/// A set of nodes is closed when it holds the defining node of each
/// candidate binding that is unused given the set itself.
pub open spec fn closed(t: Seq<ElementView>, settings: Settings, dead: Set<int>) -> bool {
    step(t, settings, dead, dead)
}

/// Whether node `n` defines a dead binding: it belongs to every closed set,
/// and so to the least of them.
pub open spec fn is_dead(t: Seq<ElementView>, settings: Settings, n: int) -> bool {
    forall|dead: Set<int>| #[trigger] closed(t, settings, dead) ==> dead.contains(n)
}

/// The nodes that a vector of marks holds.
pub open spec fn marked(marks: Seq<bool>) -> Set<int> {
    Set::new(|n: int| 0 <= n < marks.len() && marks[n])
}

/// The number of marks that are set.
pub open spec fn count(marks: Seq<bool>) -> nat
    decreases marks.len(),
{
    if marks.len() == 0 {
        0
    } else if marks.last() {
        count(marks.drop_last()) + 1
    } else {
        count(marks.drop_last())
    }
}

/// No more marks are set than there are.
pub proof fn lemma_count_bound(marks: Seq<bool>)
    ensures
        count(marks) <= marks.len(),
    decreases marks.len(),
{
    if marks.len() > 0 {
        lemma_count_bound(marks.drop_last());
    }
}

/// To set a mark that was not set adds one to the count.
pub proof fn lemma_count_set(marks: Seq<bool>, i: int)
    requires
        0 <= i < marks.len(),
        !marks[i],
    ensures
        count(marks.update(i, true)) == count(marks) + 1,
    decreases marks.len(),
{
    let after = marks.update(i, true);
    if i == marks.len() - 1 {
        assert(after.drop_last() =~= marks.drop_last());
    } else {
        assert(after.drop_last() =~= marks.drop_last().update(i, true));
        lemma_count_set(marks.drop_last(), i);
    }
}

/// A binding that is unused stays unused when more nodes are dead.
pub proof fn lemma_unused_grows(
    t: Seq<ElementView>,
    s: ScopeView,
    b: BindingView,
    fewer: Set<int>,
    more: Set<int>,
)
    requires
        fewer.subset_of(more),
        unused(t, s, b, fewer),
    ensures
        unused(t, s, b, more),
{
    assert forall|i: int| 0 <= i < bodies(t, s).len() implies spared(
        t,
        b,
        more,
        #[trigger] bodies(t, s)[i],
    ) by {
        assert(spared(t, b, fewer, bodies(t, s)[i]));
    }
}

/// A candidate binding that is unused where only dead nodes are taken for
/// dead is dead itself.
pub proof fn lemma_unused_is_dead(
    t: Seq<ElementView>,
    settings: Settings,
    dead: Set<int>,
    n: int,
    k: int,
)
    requires
        forall|m: int| dead.contains(m) ==> is_dead(t, settings, m),
        candidate(t, settings, n, k),
        unused(t, scope_at(t, n), binding_at(t, n, k), dead),
    ensures
        is_dead(t, settings, binding_at(t, n, k).node),
{
    let s = scope_at(t, n);
    let b = binding_at(t, n, k);
    assert forall|other: Set<int>| #[trigger] closed(t, settings, other) implies other.contains(
        b.node,
    ) by {
        assert forall|m: int| dead.contains(m) implies other.contains(m) by {
            assert(is_dead(t, settings, m));
        }
        lemma_unused_grows(t, s, b, dead, other);
        assert(candidate(t, settings, n, k));
    }
}

/// What becomes of a binding of the scope `s`: a finding, where the
/// settings let it be reported and it is dead.
pub open spec fn verdict(t: Seq<ElementView>, settings: Settings, s: ScopeView) -> spec_fn(
    BindingView,
) -> Option<DeadCodeView> {
    |b: BindingView|
        if counts(settings, s, b) && is_dead(t, settings, b.node) {
            Some(DeadCodeView { scope: s, binding: b })
        } else {
            None
        }
}

/// The findings on the bindings of the scope that node `n` opens, in source
/// order; none where it opens no scope.
pub open spec fn scope_findings(t: Seq<ElementView>, settings: Settings, n: int) -> Seq<
    DeadCodeView,
> {
    match classify(t, n) {
        Some(s) => bindings(t, s).filter_map(verdict(t, settings, s)),
        None => Seq::empty(),
    }
}

/// `scope_findings` as a function of the node.
pub open spec fn findings_of(t: Seq<ElementView>, settings: Settings) -> spec_fn(int) -> Seq<
    DeadCodeView,
> {
    |n: int| scope_findings(t, settings, n)
}

/// The indices of the elements of a tree.
pub open spec fn nodes(t: Seq<ElementView>) -> Seq<int> {
    Seq::new(t.len(), |n: int| n)
}

/// The findings on a tree, scope after scope.
pub open spec fn findings(t: Seq<ElementView>, settings: Settings) -> Seq<DeadCodeView> {
    nodes(t).flat_map(findings_of(t, settings))
}

/// The offset by which a finding is ordered: where the name of its binding
/// starts.
pub open spec fn offset(t: Seq<ElementView>, f: DeadCodeView) -> nat {
    if 0 <= f.binding.name_node < t.len() {
        t[f.binding.name_node].start
    } else {
        0
    }
}

/// Whether the findings stand by ascending offset.
pub open spec fn ascending(t: Seq<ElementView>, fs: Seq<DeadCodeView>) -> bool {
    forall|i: int, j: int| 0 <= i <= j < fs.len() ==> offset(t, fs[i]) <= offset(t, fs[j])
}

/// The index at which `f` enters `fs`: behind the last finding that does
/// not start later than `f`.
pub open spec fn place(t: Seq<ElementView>, fs: Seq<DeadCodeView>, f: DeadCodeView) -> int
    decreases fs.len(),
{
    if fs.len() == 0 || offset(t, fs.last()) <= offset(t, f) {
        fs.len() as int
    } else {
        place(t, fs.drop_last(), f)
    }
}

/// The findings `fs` by ascending offset. Findings with one offset keep the
/// order that they have in `fs`.
pub open spec fn ordered(t: Seq<ElementView>, fs: Seq<DeadCodeView>) -> Seq<DeadCodeView>
    decreases fs.len(),
{
    if fs.len() == 0 {
        fs
    } else {
        let rest = ordered(t, fs.drop_last());
        rest.insert(place(t, rest, fs.last()), fs.last())
    }
}

/// The dead bindings of a tree, by ascending offset of their names.
pub open spec fn report(t: Seq<ElementView>, settings: Settings) -> Seq<DeadCodeView> {
    ordered(t, findings(t, settings))
}

/// Where a finding enters findings that stand by ascending offset, those
/// before it do not start later and those behind it start later.
pub proof fn lemma_place(t: Seq<ElementView>, fs: Seq<DeadCodeView>, f: DeadCodeView)
    requires
        ascending(t, fs),
    ensures
        0 <= place(t, fs, f) <= fs.len(),
        forall|i: int| 0 <= i < place(t, fs, f) ==> offset(t, fs[i]) <= offset(t, f),
        forall|i: int| place(t, fs, f) <= i < fs.len() ==> offset(t, f) < offset(t, fs[i]),
    decreases fs.len(),
{
    if fs.len() == 0 || offset(t, fs.last()) <= offset(t, f) {
    } else {
        let front = fs.drop_last();
        assert forall|i: int, j: int| 0 <= i <= j < front.len() implies offset(t, front[i])
            <= offset(t, front[j]) by {
            assert(front[i] == fs[i] && front[j] == fs[j]);
        }
        lemma_place(t, front, f);
        assert forall|i: int| 0 <= i < place(t, fs, f) implies offset(t, fs[i]) <= offset(
            t,
            f,
        ) by {
            assert(front[i] == fs[i]);
        }
        assert forall|i: int| place(t, fs, f) <= i < fs.len() implies offset(t, f) < offset(
            t,
            fs[i],
        ) by {
            if i < front.len() {
                assert(front[i] == fs[i]);
            }
        }
    }
}

/// Ordered findings stand by ascending offset, and they are the findings
/// that were to be ordered: as many, and each as often.
pub proof fn lemma_ordered(t: Seq<ElementView>, fs: Seq<DeadCodeView>)
    ensures
        ascending(t, ordered(t, fs)),
        ordered(t, fs).len() == fs.len(),
        ordered(t, fs).to_multiset() == fs.to_multiset(),
    decreases fs.len(),
{
    broadcast use vstd::seq_lib::group_to_multiset_ensures;

    if fs.len() == 0 {
    } else {
        let front = fs.drop_last();
        let f = fs.last();
        let rest = ordered(t, front);
        lemma_ordered(t, front);
        lemma_place(t, rest, f);
        let p = place(t, rest, f);
        let out = rest.insert(p, f);
        assert forall|i: int, j: int| 0 <= i <= j < out.len() implies offset(t, out[i]) <= offset(
            t,
            out[j],
        ) by {
            if i < p {
                assert(out[i] == rest[i]);
            } else if i > p {
                assert(out[i] == rest[i - 1]);
            }
            if j < p {
                assert(out[j] == rest[j]);
            } else if j > p {
                assert(out[j] == rest[j - 1]);
            }
        }
        vstd::seq_lib::to_multiset_insert(rest, p, f);
        assert(fs =~= front.push(f));
        assert(front.push(f).to_multiset() =~= front.to_multiset().insert(f));
    }
}

/// Where the marks are sound and closed, they mark the dead bindings and no
/// others.
pub proof fn lemma_fixpoint(t: Seq<ElementView>, settings: Settings, marks: Seq<bool>)
    requires
        sound(t, settings, marks),
        closed(t, settings, marked(marks)),
    ensures
        forall|n: int| is_dead(t, settings, n) <==> marked(marks).contains(n),
{
    assert forall|n: int| is_dead(t, settings, n) implies marked(marks).contains(n) by {
        assert(closed(t, settings, marked(marks)));
    }
}

/// Whether every marked node defines a dead binding.
pub open spec fn sound(t: Seq<ElementView>, settings: Settings, marks: Seq<bool>) -> bool {
    forall|n: int| 0 <= n < marks.len() && #[trigger] marks[n] ==> is_dead(t, settings, n)
}

/// Whether the marks of the scopes before node `n`, and of the bindings
/// before index `k` of the scope that node `n` opens, are up to date with a
/// step from `before`.
pub open spec fn stepped(
    t: Seq<ElementView>,
    settings: Settings,
    before: Set<int>,
    after: Set<int>,
    n: int,
    k: int,
) -> bool {
    forall|m: int, j: int|
        (m < n || (m == n && j < k)) && #[trigger] candidate(t, settings, m, j) && unused(
            t,
            scope_at(t, m),
            binding_at(t, m, j),
            before,
        ) ==> after.contains(binding_at(t, m, j).node)
}

impl DeadCode {
    /// The finding in words: what the scope is, a space, and the name of the
    /// binding.
    pub fn to_string(&self) -> (line: String)
        ensures
            line@ == description(self@.scope.kind) + " "@ + self@.binding.name,
    {
        let mut line = self.scope.describe().to_owned();
        line.append(" ");
        line.append(self.binding.name.as_str());
        line
    }

    /// The offset at which the name of the binding starts.
    pub fn offset(&self, tree: &Tree) -> (at: u32)
        ensures
            at == offset(tree@, self@),
    {
        match tree.element(self.binding.name_node) {
            Some(node) => node.start,
            None => 0,
        }
    }

    /// Puts a finding in its place among findings that stand by ascending
    /// offset: behind those that do not start later.
    fn insert(tree: &Tree, found: &mut Vec<DeadCode>, f: DeadCode)
        ensures
            reports(final(found)@) == reports(old(found)@).insert(
                place(tree@, reports(old(found)@), f@),
                f@,
            ),
    {
        let at: u32 = f.offset(tree);
        let ghost fs = reports(found@);
        let mut i: usize = found.len();
        assert(fs.take(i as int) =~= fs);
        while i > 0 && found[i - 1].offset(tree) > at
            invariant
                0 <= i <= found.len(),
                fs == reports(found@),
                at == offset(tree@, f@),
                place(tree@, fs, f@) == place(tree@, fs.take(i as int), f@),
            decreases i,
        {
            proof {
                let front = fs.take(i as int);
                assert(front.last() == found[i - 1]@);
                assert(front.drop_last() =~= fs.take(i - 1));
            }
            i = i - 1;
        }
        proof {
            let front = fs.take(i as int);
            if i > 0 {
                assert(front.last() == found[i - 1]@);
            }
            assert(place(tree@, front, f@) == i);
            assert(reports(found@.insert(i as int, f)) =~= fs.insert(i as int, f@));
        }
        found.insert(i, f);
    }
}

impl Settings {
    /// The dead bindings of a tree, by ascending offset of their names.
    ///
    /// A binding is reported where the settings let it be reported and no
    /// body of its scope uses its name. The node that defines the binding
    /// itself is no such body, and neither is one that defines a dead
    /// binding: what only dead bindings use is dead.
    pub fn find_dead_code(&self, tree: &Tree) -> (found: Vec<DeadCode>)
        ensures
            reports(found@) == report(tree@, *self),
            ascending(tree@, reports(found@)),
    {
        let len: usize = tree.len();
        let mut marks: Vec<bool> = Vec::new();
        while marks.len() < len
            invariant
                marks.len() <= len,
                forall|n: int| 0 <= n < marks.len() ==> !#[trigger] marks[n],
            decreases len - marks.len(),
        {
            marks.push(false);
        }
        proof {
            lemma_count_bound(marks@);
        }
        let mut added: usize = self.scan(tree, &mut marks);
        proof {
            lemma_count_bound(marks@);
        }
        while added != 0
            invariant
                marks.len() == len == tree@.len(),
                sound(tree@, *self, marks@),
                count(marks@) <= len,
                added == 0 ==> closed(tree@, *self, marked(marks@)),
            decreases len - count(marks@), added,
        {
            added = self.scan(tree, &mut marks);
            proof {
                lemma_count_bound(marks@);
            }
        }
        proof {
            lemma_fixpoint(tree@, *self, marks@);
            lemma_ordered(tree@, findings(tree@, *self));
        }
        self.collect(tree, &marks)
    }

    /// The findings on a tree whose dead bindings are marked, by ascending
    /// offset.
    fn collect(&self, tree: &Tree, marks: &Vec<bool>) -> (found: Vec<DeadCode>)
        requires
            marks.len() == tree@.len(),
            forall|n: int| is_dead(tree@, *self, n) <==> marked(marks@).contains(n),
        ensures
            reports(found@) == report(tree@, *self),
    {
        let len: usize = tree.len();
        let ghost all = nodes(tree@);
        let ghost each = findings_of(tree@, *self);
        let mut found: Vec<DeadCode> = Vec::new();
        let mut n: usize = 0;
        assert(all.take(0).flat_map(each) =~= Seq::empty());
        assert(reports(found@) =~= ordered(tree@, Seq::empty()));
        while n < len
            invariant
                0 <= n <= len == tree@.len() == marks.len(),
                all == nodes(tree@),
                each == findings_of(tree@, *self),
                forall|m: int| is_dead(tree@, *self, m) <==> marked(marks@).contains(m),
                reports(found@) == ordered(tree@, all.take(n as int).flat_map(each)),
            decreases len - n,
        {
            let ghost past = all.take(n as int).flat_map(each);
            proof {
                all.lemma_flat_map_take_append(each, n as int);
                assert(each(all[n as int]) == scope_findings(tree@, *self, n as int));
            }
            match Scope::new(tree, n) {
                Some(scope) => {
                    let bs = scope.bindings(tree);
                    let ghost judge = verdict(tree@, *self, scope@);
                    let ghost vs = views(bs@);
                    let mut k: usize = 0;
                    assert(vs.len() == bs@.len());
                    assert(vs.take(0).filter_map(judge) =~= Seq::empty());
                    assert(past + Seq::<DeadCodeView>::empty() =~= past);
                    while k < bs.len()
                        invariant
                            0 <= k <= bs.len(),
                            n < len == tree@.len() == marks.len(),
                            vs == views(bs@),
                            vs == bindings(tree@, scope@),
                            judge == verdict(tree@, *self, scope@),
                            forall|j: int| 0 <= j < bs.len() ==> in_tree(tree@, #[trigger] bs[j]),
                            forall|m: int| is_dead(tree@, *self, m) <==> marked(marks@).contains(m),
                            reports(found@) == ordered(
                                tree@,
                                past + vs.take(k as int).filter_map(judge),
                            ),
                        decreases bs.len() - k,
                    {
                        let b = &bs[k];
                        let ghost sofar = past + vs.take(k as int).filter_map(judge);
                        proof {
                            assert(vs[k as int] == b@);
                            vs.lemma_filter_map_take_succ(judge, k as int);
                            assert(marked(marks@).contains(b.node as int) == marks[b.node as int]);
                        }
                        if !(self.no_lambda_arg && scope.is_lambda_arg()) && b.is_mortal() && !(
                        self.no_underscore && b.is_hidden()) && marks[b.node] {
                            let f = DeadCode { scope, binding: b.clone() };
                            proof {
                                assert(judge(b@) == Some(f@));
                                let next = sofar.push(f@);
                                assert(past + vs.take(k + 1).filter_map(judge) =~= next);
                                assert(next.drop_last() =~= sofar);
                            }
                            DeadCode::insert(tree, &mut found, f);
                        } else {
                            proof {
                                assert(judge(b@).is_none());
                                assert(past + vs.take(k + 1).filter_map(judge) =~= sofar);
                            }
                        }
                        k = k + 1;
                    }
                    assert(vs.take(k as int) =~= vs);
                },
                None => {
                    assert(past + Seq::<DeadCodeView>::empty() =~= past);
                },
            }
            n = n + 1;
        }
        assert(all.take(n as int) =~= all);
        found
    }

    /// One pass over the tree. It marks the defining node of each candidate
    /// binding that no body gives a use, where a body that is marked gives
    /// none. Marks that the pass sets count at once, for the bindings that
    /// it comes to later. It returns the number of marks that it has set.
    fn scan(&self, tree: &Tree, marks: &mut Vec<bool>) -> (added: usize)
        requires
            old(marks).len() == tree@.len(),
            sound(tree@, *self, old(marks)@),
        ensures
            final(marks).len() == tree@.len(),
            sound(tree@, *self, final(marks)@),
            marked(old(marks)@).subset_of(marked(final(marks)@)),
            step(tree@, *self, marked(old(marks)@), marked(final(marks)@)),
            count(final(marks)@) == count(old(marks)@) + added,
            added == 0 ==> final(marks)@ == old(marks)@,
    {
        let ghost before = marks@;
        let len: usize = tree.len();
        let mut added: usize = 0;
        let mut n: usize = 0;
        while n < len
            invariant
                0 <= n <= len == tree@.len() == marks.len(),
                before.len() == len,
                sound(tree@, *self, marks@),
                marked(before).subset_of(marked(marks@)),
                stepped(tree@, *self, marked(before), marked(marks@), n as int, 0),
                count(marks@) == count(before) + added,
                added == 0 ==> marks@ == before,
            decreases len - n,
        {
            match Scope::new(tree, n) {
                Some(scope) => {
                    if !(self.no_lambda_arg && scope.is_lambda_arg()) {
                        let bs = scope.bindings(tree);
                        let mut k: usize = 0;
                        assert(views(bs@).len() == bs@.len());
                        while k < bs.len()
                            invariant
                                0 <= k <= bs.len(),
                                n < len == tree@.len() == marks.len(),
                                before.len() == len,
                                classify(tree@, n as int) == Some(scope@),
                                !(self.no_lambda_arg && is_lambda(scope@.kind)),
                                views(bs@) == bindings(tree@, scope@),
                                forall|j: int|
                                    0 <= j < bs.len() ==> in_tree(tree@, #[trigger] bs[j]),
                                sound(tree@, *self, marks@),
                                marked(before).subset_of(marked(marks@)),
                                stepped(
                                    tree@,
                                    *self,
                                    marked(before),
                                    marked(marks@),
                                    n as int,
                                    k as int,
                                ),
                                count(marks@) == count(before) + added,
                                added == 0 ==> marks@ == before,
                            decreases bs.len() - k,
                        {
                            let b = &bs[k];
                            assert(views(bs@)[k as int] == b@);
                            assert(binding_at(tree@, n as int, k as int) == b@);
                            let ghost now = marks@;
                            if b.is_mortal() && !(self.no_underscore && b.is_hidden())
                                && Self::is_unused(tree, marks, &scope, b) {
                                proof {
                                    assert(candidate(tree@, *self, n as int, k as int));
                                    lemma_unused_is_dead(
                                        tree@,
                                        *self,
                                        marked(now),
                                        n as int,
                                        k as int,
                                    );
                                }
                                if !marks[b.node] {
                                    proof {
                                        lemma_count_set(now, b.node as int);
                                        lemma_count_bound(now.update(b.node as int, true));
                                    }
                                    marks.set(b.node, true);
                                    added = added + 1;
                                }
                                assert(marked(marks@).contains(b@.node));
                            } else {
                                proof {
                                    if candidate(tree@, *self, n as int, k as int) && unused(
                                        tree@,
                                        scope@,
                                        b@,
                                        marked(before),
                                    ) {
                                        lemma_unused_grows(
                                            tree@,
                                            scope@,
                                            b@,
                                            marked(before),
                                            marked(now),
                                        );
                                    }
                                }
                            }
                            k = k + 1;
                        }
                    }
                },
                None => {},
            }
            n = n + 1;
        }
        added
    }

    /// Whether no body of `scope` gives `binding` a use, where the marked
    /// nodes are dead.
    fn is_unused(tree: &Tree, marks: &Vec<bool>, scope: &Scope, binding: &Binding) -> (r: bool)
        requires
            marks.len() == tree@.len(),
        ensures
            r == unused(tree@, scope@, binding@, marked(marks@)),
    {
        let spots = scope.bodies(tree);
        let mut i: usize = 0;
        assert(ints(spots@).len() == spots@.len());
        while i < spots.len()
            invariant
                0 <= i <= spots.len(),
                marks.len() == tree@.len(),
                ints(spots@) == bodies(tree@, scope@),
                forall|j: int| 0 <= j < spots.len() ==> #[trigger] spots[j] < tree@.len(),
                forall|j: int|
                    0 <= j < i ==> spared(
                        tree@,
                        binding@,
                        marked(marks@),
                        #[trigger] bodies(tree@, scope@)[j],
                    ),
            decreases spots.len() - i,
        {
            let body: usize = spots[i];
            assert(ints(spots@)[i as int] == body);
            if body != binding.node && !marks[body] && find_usage(tree, &binding.name, body) {
                assert(!spared(
                    tree@,
                    binding@,
                    marked(marks@),
                    bodies(tree@, scope@)[i as int],
                ));
                return false;
            }
            i = i + 1;
        }
        true
    }
}

} // verus!
