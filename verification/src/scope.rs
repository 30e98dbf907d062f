//! Scopes: the nodes that introduce bindings.

use crate::binding::{bind, views, Binding, BindingView};
use crate::tree::{child_nodes, has_token, ints, members, ElementView, Kind, Tree};
use vstd::prelude::*;

verus! {

/// The constructs that introduce bindings.
#[derive(Clone, Copy, Debug, PartialEq, Eq, Structural)]
pub enum ScopeKind {
    /// A function of one named argument, `x: body`.
    LambdaArg,
    /// A function that takes a set apart, `{ a, b ? 1, ... } @ args: body`.
    LambdaPattern,
    /// `let` with its members and the expression after `in`.
    LetIn,
    /// An attribute set marked `rec`.
    RecAttrSet,
}

/// A node that introduces bindings.
#[derive(Clone, Copy, Debug, PartialEq, Eq, Structural)]
pub struct Scope {
    /// The construct.
    pub kind: ScopeKind,
    /// The node.
    pub node: usize,
}

/// The mathematical value of a [`Scope`].
pub struct ScopeView {
    pub kind: ScopeKind,
    pub node: int,
}

impl View for Scope {
    type V = ScopeView;

    open spec fn view(&self) -> ScopeView {
        ScopeView { kind: self.kind, node: self.node as int }
    }
}

/// The words that stand before the name of a dead binding.
pub open spec fn description(kind: ScopeKind) -> Seq<char> {
    match kind {
        ScopeKind::LambdaArg => "lambda argument"@,
        ScopeKind::LambdaPattern => "lambda pattern"@,
        ScopeKind::LetIn => "let binding"@,
        ScopeKind::RecAttrSet => "rec attrset"@,
    }
}

/// Whether the bindings of such a scope are the arguments of a function.
pub open spec fn is_lambda(kind: ScopeKind) -> bool {
    kind == ScopeKind::LambdaArg || kind == ScopeKind::LambdaPattern
}

/// The scope that node `n` opens, if it opens one.
///
/// A lambda is a scope where its first child node is an identifier or a
/// pattern. Every `let` is a scope. An attribute set is a scope where the
/// keyword `rec` stands in it.
pub open spec fn classify(t: Seq<ElementView>, n: int) -> Option<ScopeView> {
    if 0 <= n < t.len() {
        match t[n].kind {
            Kind::Lambda => {
                let cs = child_nodes(t, n);
                if cs.len() > 0 && t[cs[0]].kind == Kind::Ident {
                    Some(ScopeView { kind: ScopeKind::LambdaArg, node: n })
                } else if cs.len() > 0 && t[cs[0]].kind == Kind::Pattern {
                    Some(ScopeView { kind: ScopeKind::LambdaPattern, node: n })
                } else {
                    None
                }
            },
            Kind::LetIn => Some(ScopeView { kind: ScopeKind::LetIn, node: n }),
            Kind::AttrSet => if has_token(t, n, Kind::Rec) {
                Some(ScopeView { kind: ScopeKind::RecAttrSet, node: n })
            } else {
                None
            },
            _ => None,
        }
    } else {
        None
    }
}

/// The element of `s` at index `i` as a sequence, empty where there is none.
pub open spec fn at(s: Seq<int>, i: int) -> Seq<int> {
    if 0 <= i < s.len() {
        seq![s[i]]
    } else {
        Seq::empty()
    }
}

/// The identifier that the member `c` defines: the first node of its key,
/// where the member begins with a key and the key with an identifier.
pub open spec fn entry_name(t: Seq<ElementView>, c: int) -> Option<int> {
    let cs = child_nodes(t, c);
    if cs.len() > 0 && t[cs[0]].kind == Kind::Key {
        let path = child_nodes(t, cs[0]);
        if path.len() > 0 && t[path[0]].kind == Kind::Ident {
            Some(path[0])
        } else {
            None
        }
    } else {
        None
    }
}

/// How an inherited identifier becomes a binding.
pub open spec fn inherited(t: Seq<ElementView>) -> spec_fn(int) -> BindingView {
    |d: int| bind(t, d, d, true)
}

/// The bindings that the member `c` of a `let` or of a recursive set
/// introduces: the name that an entry defines, each name that an `inherit`
/// lists.
pub open spec fn member_bindings(t: Seq<ElementView>, c: int) -> Seq<BindingView> {
    match t[c].kind {
        Kind::KeyValue => match entry_name(t, c) {
            Some(d) => seq![bind(t, d, c, true)],
            None => Seq::empty(),
        },
        Kind::Inherit => members(t, c, Kind::Ident).map_values(inherited(t)),
        _ => Seq::empty(),
    }
}

/// `member_bindings` as a function of the member.
pub open spec fn of_member(t: Seq<ElementView>) -> spec_fn(int) -> Seq<BindingView> {
    |c: int| member_bindings(t, c)
}

/// The bindings that the part `c` of a pattern introduces. The name after
/// `@` can always go. A formal argument can go only from a pattern with an
/// ellipsis (`open`): without one, callers that pass the argument would
/// fail once it is gone.
pub open spec fn formal_bindings(t: Seq<ElementView>, open: bool, c: int) -> Seq<BindingView> {
    match t[c].kind {
        Kind::PatBind => {
            let names = members(t, c, Kind::Ident);
            if names.len() > 0 {
                seq![bind(t, names[0], names[0], true)]
            } else {
                Seq::empty()
            }
        },
        Kind::PatEntry => {
            let cs = child_nodes(t, c);
            if cs.len() > 0 && t[cs[0]].kind == Kind::Ident {
                seq![bind(t, cs[0], c, open)]
            } else {
                Seq::empty()
            }
        },
        _ => Seq::empty(),
    }
}

/// `formal_bindings` as a function of the part.
pub open spec fn of_formal(t: Seq<ElementView>, open: bool) -> spec_fn(int) -> Seq<BindingView> {
    |c: int| formal_bindings(t, open, c)
}

/// The bindings of the pattern `p`, in source order.
pub open spec fn pattern_bindings(t: Seq<ElementView>, p: int) -> Seq<BindingView> {
    child_nodes(t, p).flat_map(of_formal(t, has_token(t, p, Kind::Ellipsis)))
}

/// The bindings that a scope introduces, in source order.
pub open spec fn bindings(t: Seq<ElementView>, s: ScopeView) -> Seq<BindingView> {
    let cs = child_nodes(t, s.node);
    match s.kind {
        ScopeKind::LambdaArg => if cs.len() > 0 {
            seq![bind(t, cs[0], cs[0], true)]
        } else {
            Seq::empty()
        },
        ScopeKind::LambdaPattern => if cs.len() > 0 {
            pattern_bindings(t, cs[0])
        } else {
            Seq::empty()
        },
        ScopeKind::LetIn => cs.flat_map(of_member(t)),
        ScopeKind::RecAttrSet => cs.flat_map(of_member(t)),
    }
}

/// The expressions in which the names of the member `c` of a `let` or of a
/// recursive set are visible on account of that member: an entry itself,
/// and the source of an `inherit`.
pub open spec fn member_bodies(t: Seq<ElementView>, c: int) -> Seq<int> {
    match t[c].kind {
        Kind::KeyValue => seq![c],
        Kind::Inherit => members(t, c, Kind::InheritFrom),
        _ => Seq::empty(),
    }
}

/// `member_bodies` as a function of the member.
pub open spec fn bodies_of_member(t: Seq<ElementView>) -> spec_fn(int) -> Seq<int> {
    |c: int| member_bodies(t, c)
}

/// The subtrees in which the bindings of a scope are visible.
///
/// For a lambda that is its body, the second child node, and for a pattern
/// also each formal argument, whose default may speak of the others. For a
/// `let` and for a recursive set it is each entry and each source of an
/// `inherit`, and for a `let` also its last child node, the expression after
/// `in`.
pub open spec fn bodies(t: Seq<ElementView>, s: ScopeView) -> Seq<int> {
    let cs = child_nodes(t, s.node);
    match s.kind {
        ScopeKind::LambdaArg => at(cs, 1),
        ScopeKind::LambdaPattern => if cs.len() > 0 {
            members(t, cs[0], Kind::PatEntry) + at(cs, 1)
        } else {
            Seq::empty()
        },
        ScopeKind::LetIn => cs.flat_map(bodies_of_member(t)) + at(cs, cs.len() - 1),
        ScopeKind::RecAttrSet => cs.flat_map(bodies_of_member(t)),
    }
}

/// Whether the nodes of a binding are elements of the tree.
pub open spec fn in_tree(t: Seq<ElementView>, b: Binding) -> bool {
    b.name_node < t.len() && b.node < t.len()
}

/// Whether node `n` is a scope that declares `name`.
pub open spec fn declares(t: Seq<ElementView>, n: int, name: Seq<char>) -> bool {
    match classify(t, n) {
        Some(s) => exists|k: int|
            0 <= k < bindings(t, s).len() && (#[trigger] bindings(t, s)[k]).name == name,
        None => false,
    }
}

impl Scope {
    /// The scope that node `node` opens, if it opens one.
    pub fn new(tree: &Tree, node: usize) -> (r: Option<Scope>)
        ensures
            match r {
                Some(s) => classify(tree@, node as int) == Some(s@),
                None => classify(tree@, node as int).is_none(),
            },
    {
        if node >= tree.len() {
            return None;
        }
        match tree.kind(node) {
            Kind::Lambda => {
                let cs = tree.child_nodes(node);
                assert(ints(cs@).len() == cs@.len());
                if cs.len() > 0 {
                    assert(ints(cs@)[0] == cs[0]);
                    match tree.kind(cs[0]) {
                        Kind::Ident => Some(Scope { kind: ScopeKind::LambdaArg, node }),
                        Kind::Pattern => Some(Scope { kind: ScopeKind::LambdaPattern, node }),
                        _ => None,
                    }
                } else {
                    None
                }
            },
            Kind::LetIn => Some(Scope { kind: ScopeKind::LetIn, node }),
            Kind::AttrSet => {
                if tree.has_token(node, Kind::Rec) {
                    Some(Scope { kind: ScopeKind::RecAttrSet, node })
                } else {
                    None
                }
            },
            _ => None,
        }
    }

    /// Whether the bindings of this scope are the arguments of a function.
    pub fn is_lambda_arg(&self) -> (r: bool)
        ensures
            r == is_lambda(self@.kind),
    {
        match self.kind {
            ScopeKind::LambdaArg | ScopeKind::LambdaPattern => true,
            _ => false,
        }
    }

    /// The words that stand before the name of a dead binding.
    pub fn describe(&self) -> (words: &'static str)
        ensures
            words@ == description(self@.kind),
    {
        match self.kind {
            ScopeKind::LambdaArg => "lambda argument",
            ScopeKind::LambdaPattern => "lambda pattern",
            ScopeKind::LetIn => "let binding",
            ScopeKind::RecAttrSet => "rec attrset",
        }
    }

    /// The bindings that this scope introduces, in source order.
    pub fn bindings(&self, tree: &Tree) -> (bs: Vec<Binding>)
        ensures
            views(bs@) == bindings(tree@, self@),
            forall|k: int| 0 <= k < bs.len() ==> in_tree(tree@, #[trigger] bs[k]),
    {
        let cs = tree.child_nodes(self.node);
        assert(ints(cs@).len() == cs@.len());
        match self.kind {
            ScopeKind::LambdaArg => {
                let mut bs: Vec<Binding> = Vec::new();
                if cs.len() > 0 {
                    assert(ints(cs@)[0] == cs[0]);
                    bs.push(Binding::new(tree, cs[0], cs[0], true));
                    assert(views(bs@) =~= seq![bind(tree@, cs[0] as int, cs[0] as int, true)]);
                } else {
                    assert(views(bs@) =~= Seq::empty());
                }
                bs
            },
            ScopeKind::LambdaPattern => {
                if cs.len() > 0 {
                    assert(ints(cs@)[0] == cs[0]);
                    Self::pattern_bindings(tree, cs[0])
                } else {
                    let bs: Vec<Binding> = Vec::new();
                    assert(views(bs@) =~= Seq::empty());
                    bs
                }
            },
            ScopeKind::LetIn => Self::set_bindings(tree, &cs),
            ScopeKind::RecAttrSet => Self::set_bindings(tree, &cs),
        }
    }

    /// The subtrees in which the bindings of this scope are visible.
    pub fn bodies(&self, tree: &Tree) -> (bs: Vec<usize>)
        ensures
            ints(bs@) == bodies(tree@, self@),
            forall|k: int| 0 <= k < bs.len() ==> #[trigger] bs[k] < tree@.len(),
    {
        let cs = tree.child_nodes(self.node);
        assert(ints(cs@).len() == cs@.len());
        match self.kind {
            ScopeKind::LambdaArg => {
                let mut bs: Vec<usize> = Vec::new();
                assert(ints(bs@) =~= Seq::empty());
                Self::push_at(&mut bs, &cs, 1);
                assert(Seq::<int>::empty() + at(ints(cs@), 1) =~= at(ints(cs@), 1));
                bs
            },
            ScopeKind::LambdaPattern => {
                if cs.len() > 0 {
                    assert(ints(cs@)[0] == cs[0]);
                    let mut bs = tree.members(cs[0], Kind::PatEntry);
                    Self::push_at(&mut bs, &cs, 1);
                    bs
                } else {
                    let bs: Vec<usize> = Vec::new();
                    assert(ints(bs@) =~= Seq::empty());
                    bs
                }
            },
            ScopeKind::LetIn => {
                let mut bs = Self::set_bodies(tree, &cs);
                if cs.len() > 0 {
                    Self::push_at(&mut bs, &cs, cs.len() - 1);
                } else {
                    assert(ints(bs@) + at(ints(cs@), -1) =~= ints(bs@));
                }
                bs
            },
            ScopeKind::RecAttrSet => Self::set_bodies(tree, &cs),
        }
    }

    /// Whether node `node` is a scope that declares `name`.
    pub fn declares(tree: &Tree, node: usize, name: &String) -> (r: bool)
        ensures
            r == declares(tree@, node as int, name@),
    {
        match Scope::new(tree, node) {
            Some(scope) => {
                let bs = scope.bindings(tree);
                let mut k: usize = 0;
                assert(views(bs@).len() == bs@.len());
                while k < bs.len()
                    invariant
                        0 <= k <= bs.len(),
                        classify(tree@, node as int) == Some(scope@),
                        views(bs@) == bindings(tree@, scope@),
                        forall|j: int|
                            0 <= j < k ==> (#[trigger] bindings(tree@, scope@)[j]).name != name@,
                    decreases bs.len() - k,
                {
                    assert(views(bs@)[k as int] == bs[k as int]@);
                    if bs[k].name == *name {
                        assert(bindings(tree@, scope@)[k as int].name == name@);
                        return true;
                    }
                    k = k + 1;
                }
                false
            },
            None => false,
        }
    }

    /// Adds the element of `cs` at index `i`, where there is one.
    fn push_at(bs: &mut Vec<usize>, cs: &Vec<usize>, i: usize)
        ensures
            ints(final(bs)@) == ints(old(bs)@) + at(ints(cs@), i as int),
            forall|k: int|
                old(bs).len() <= k < final(bs).len() ==> i < cs.len() && final(bs)[k]
                    == cs[i as int],
            forall|k: int|
                0 <= k < old(bs).len() ==> k < final(bs).len() && final(bs)[k] == old(bs)[k],
    {
        assert(ints(cs@).len() == cs@.len());
        if i < cs.len() {
            bs.push(cs[i]);
            assert(ints(bs@) =~= ints(old(bs)@) + seq![ints(cs@)[i as int]]);
        } else {
            assert(ints(bs@) =~= ints(bs@) + Seq::empty());
        }
    }

    /// The bodies that the member `c` of a `let` or of a recursive set gives.
    fn member_bodies(tree: &Tree, c: usize) -> (bs: Vec<usize>)
        requires
            c < tree@.len(),
        ensures
            ints(bs@) == member_bodies(tree@, c as int),
            forall|k: int| 0 <= k < bs.len() ==> #[trigger] bs[k] < tree@.len(),
    {
        match tree.kind(c) {
            Kind::KeyValue => {
                let mut bs: Vec<usize> = Vec::new();
                bs.push(c);
                assert(ints(bs@) =~= seq![c as int]);
                bs
            },
            Kind::Inherit => tree.members(c, Kind::InheritFrom),
            _ => {
                let bs: Vec<usize> = Vec::new();
                assert(ints(bs@) =~= Seq::empty());
                bs
            },
        }
    }

    /// The bodies that the members `cs` of a `let` or of a recursive set give.
    fn set_bodies(tree: &Tree, cs: &Vec<usize>) -> (bs: Vec<usize>)
        requires
            forall|j: int| 0 <= j < cs.len() ==> #[trigger] cs[j] < tree@.len(),
        ensures
            ints(bs@) == ints(cs@).flat_map(bodies_of_member(tree@)),
            forall|k: int| 0 <= k < bs.len() ==> #[trigger] bs[k] < tree@.len(),
    {
        let ghost all = ints(cs@);
        let ghost f = bodies_of_member(tree@);
        let mut bs: Vec<usize> = Vec::new();
        let mut k: usize = 0;
        assert(ints(bs@) =~= all.take(0).flat_map(f));
        while k < cs.len()
            invariant
                0 <= k <= cs.len(),
                all == ints(cs@),
                f == bodies_of_member(tree@),
                forall|j: int| 0 <= j < cs.len() ==> #[trigger] cs[j] < tree@.len(),
                ints(bs@) == all.take(k as int).flat_map(f),
                forall|j: int| 0 <= j < bs.len() ==> #[trigger] bs[j] < tree@.len(),
            decreases cs.len() - k,
        {
            let mut more = Self::member_bodies(tree, cs[k]);
            proof {
                all.lemma_flat_map_take_append(f, k as int);
                assert(f(all[k as int]) == member_bodies(tree@, cs[k as int] as int));
                assert(ints(bs@ + more@) =~= ints(bs@) + ints(more@));
            }
            bs.append(&mut more);
            k = k + 1;
        }
        assert(all.take(k as int) =~= all);
        bs
    }

    /// The identifier that the member `c` defines.
    fn entry_name(tree: &Tree, c: usize) -> (r: Option<usize>)
        ensures
            match r {
                Some(d) => entry_name(tree@, c as int) == Some(d as int) && d < tree@.len(),
                None => entry_name(tree@, c as int).is_none(),
            },
    {
        let cs = tree.child_nodes(c);
        assert(ints(cs@).len() == cs@.len());
        if cs.len() > 0 && tree.kind(cs[0]) == Kind::Key {
            assert(ints(cs@)[0] == cs[0]);
            let path = tree.child_nodes(cs[0]);
            assert(ints(path@).len() == path@.len());
            if path.len() > 0 && tree.kind(path[0]) == Kind::Ident {
                assert(ints(path@)[0] == path[0]);
                return Some(path[0]);
            }
        }
        None
    }

    /// The bindings that the member `c` of a `let` or of a recursive set
    /// introduces.
    fn member_bindings(tree: &Tree, c: usize) -> (bs: Vec<Binding>)
        requires
            c < tree@.len(),
        ensures
            views(bs@) == member_bindings(tree@, c as int),
            forall|k: int| 0 <= k < bs.len() ==> in_tree(tree@, #[trigger] bs[k]),
    {
        let mut bs: Vec<Binding> = Vec::new();
        match tree.kind(c) {
            Kind::KeyValue => {
                match Self::entry_name(tree, c) {
                    Some(d) => {
                        bs.push(Binding::new(tree, d, c, true));
                        assert(views(bs@) =~= seq![bind(tree@, d as int, c as int, true)]);
                    },
                    None => {
                        assert(views(bs@) =~= Seq::empty());
                    },
                }
            },
            Kind::Inherit => {
                let names = tree.members(c, Kind::Ident);
                let ghost all = ints(names@);
                let mut k: usize = 0;
                assert(views(bs@) =~= all.take(0).map_values(inherited(tree@)));
                while k < names.len()
                    invariant
                        0 <= k <= names.len(),
                        all == ints(names@),
                        views(bs@) == all.take(k as int).map_values(inherited(tree@)),
                        forall|j: int| 0 <= j < names.len() ==> #[trigger] names[j] < tree@.len(),
                        forall|j: int| 0 <= j < bs.len() ==> in_tree(tree@, #[trigger] bs[j]),
                    decreases names.len() - k,
                {
                    let d: usize = names[k];
                    let b = Binding::new(tree, d, d, true);
                    proof {
                        all.lemma_map_take_succ(inherited(tree@), k as int);
                        assert(views(bs@.push(b)) =~= views(bs@).push(b@));
                    }
                    bs.push(b);
                    k = k + 1;
                }
                assert(all.take(k as int) =~= all);
            },
            _ => {
                assert(views(bs@) =~= Seq::empty());
            },
        }
        bs
    }

    /// The bindings that the part `c` of a pattern introduces.
    fn formal_bindings(tree: &Tree, open: bool, c: usize) -> (bs: Vec<Binding>)
        requires
            c < tree@.len(),
        ensures
            views(bs@) == formal_bindings(tree@, open, c as int),
            forall|k: int| 0 <= k < bs.len() ==> in_tree(tree@, #[trigger] bs[k]),
    {
        let mut bs: Vec<Binding> = Vec::new();
        match tree.kind(c) {
            Kind::PatBind => {
                let names = tree.members(c, Kind::Ident);
                assert(ints(names@).len() == names@.len());
                if names.len() > 0 {
                    assert(ints(names@)[0] == names[0]);
                    bs.push(Binding::new(tree, names[0], names[0], true));
                    assert(views(bs@) =~= seq![
                        bind(tree@, names[0] as int, names[0] as int, true),
                    ]);
                } else {
                    assert(views(bs@) =~= Seq::empty());
                }
            },
            Kind::PatEntry => {
                let cs = tree.child_nodes(c);
                assert(ints(cs@).len() == cs@.len());
                if cs.len() > 0 && tree.kind(cs[0]) == Kind::Ident {
                    assert(ints(cs@)[0] == cs[0]);
                    bs.push(Binding::new(tree, cs[0], c, open));
                    assert(views(bs@) =~= seq![bind(tree@, cs[0] as int, c as int, open)]);
                } else {
                    assert(ints(cs@).len() > 0 ==> ints(cs@)[0] == cs[0]);
                    assert(views(bs@) =~= Seq::empty());
                }
            },
            _ => {
                assert(views(bs@) =~= Seq::empty());
            },
        }
        bs
    }

    /// The bindings of the pattern `p`, in source order.
    fn pattern_bindings(tree: &Tree, p: usize) -> (bs: Vec<Binding>)
        ensures
            views(bs@) == pattern_bindings(tree@, p as int),
            forall|k: int| 0 <= k < bs.len() ==> in_tree(tree@, #[trigger] bs[k]),
    {
        let open = tree.has_token(p, Kind::Ellipsis);
        let cs = tree.child_nodes(p);
        let ghost all = ints(cs@);
        let ghost f = of_formal(tree@, open);
        let mut bs: Vec<Binding> = Vec::new();
        let mut k: usize = 0;
        assert(views(bs@) =~= all.take(0).flat_map(f));
        while k < cs.len()
            invariant
                0 <= k <= cs.len(),
                all == ints(cs@),
                f == of_formal(tree@, open),
                forall|j: int| 0 <= j < cs.len() ==> #[trigger] cs[j] < tree@.len(),
                views(bs@) == all.take(k as int).flat_map(f),
                forall|j: int| 0 <= j < bs.len() ==> in_tree(tree@, #[trigger] bs[j]),
            decreases cs.len() - k,
        {
            let mut more = Self::formal_bindings(tree, open, cs[k]);
            proof {
                all.lemma_flat_map_take_append(f, k as int);
                assert(f(all[k as int]) == formal_bindings(tree@, open, cs[k as int] as int));
                assert(views(bs@ + more@) =~= views(bs@) + views(more@));
            }
            bs.append(&mut more);
            k = k + 1;
        }
        assert(all.take(k as int) =~= all);
        bs
    }

    /// The bindings of the members `cs` of a `let` or of a recursive set.
    fn set_bindings(tree: &Tree, cs: &Vec<usize>) -> (bs: Vec<Binding>)
        requires
            forall|j: int| 0 <= j < cs.len() ==> #[trigger] cs[j] < tree@.len(),
        ensures
            views(bs@) == ints(cs@).flat_map(of_member(tree@)),
            forall|k: int| 0 <= k < bs.len() ==> in_tree(tree@, #[trigger] bs[k]),
    {
        let ghost all = ints(cs@);
        let ghost f = of_member(tree@);
        let mut bs: Vec<Binding> = Vec::new();
        let mut k: usize = 0;
        assert(views(bs@) =~= all.take(0).flat_map(f));
        while k < cs.len()
            invariant
                0 <= k <= cs.len(),
                all == ints(cs@),
                f == of_member(tree@),
                forall|j: int| 0 <= j < cs.len() ==> #[trigger] cs[j] < tree@.len(),
                views(bs@) == all.take(k as int).flat_map(f),
                forall|j: int| 0 <= j < bs.len() ==> in_tree(tree@, #[trigger] bs[j]),
            decreases cs.len() - k,
        {
            let mut more = Self::member_bindings(tree, cs[k]);
            proof {
                all.lemma_flat_map_take_append(f, k as int);
                assert(f(all[k as int]) == member_bindings(tree@, cs[k as int] as int));
                assert(views(bs@ + more@) =~= views(bs@) + views(more@));
            }
            bs.append(&mut more);
            k = k + 1;
        }
        assert(all.take(k as int) =~= all);
        bs
    }
}

} // verus!
