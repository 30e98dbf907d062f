//! Syntax trees, laid out in pre-order.
//!
//! A tree is a sequence of elements. Each element knows how many elements
//! its subtree holds, itself included, so the subtree of the element at
//! index `n` is the run of elements from `n` up to `end(t, n)`.

use vstd::prelude::*;

verus! {

/// The kinds of syntax element that the analysis tells apart.
#[derive(Clone, Copy, Debug, PartialEq, Eq, Structural)]
pub enum Kind {
    /// A function: an argument, a colon and a body.
    Lambda,
    /// An identifier.
    Ident,
    /// A set pattern in argument position.
    Pattern,
    /// The part of a pattern that binds the whole argument to a name.
    PatBind,
    /// One formal argument of a pattern, with its default if it has one.
    PatEntry,
    /// A `let ... in ...` expression.
    LetIn,
    /// An attribute set.
    AttrSet,
    /// A `key = value;` member.
    KeyValue,
    /// The attribute path on the left of a member.
    Key,
    /// An `inherit` member.
    Inherit,
    /// The parenthesised source of an `inherit`.
    InheritFrom,
    /// Any other node.
    OtherNode,
    /// The keyword `rec`.
    Rec,
    /// The ellipsis of a pattern.
    Ellipsis,
    /// Any other token.
    OtherToken,
}

impl Kind {
    /// Tokens are the leaves of a tree; every other element is a node.
    pub open spec fn is_token(self) -> bool {
        self == Kind::Rec || self == Kind::Ellipsis || self == Kind::OtherToken
    }

    /// Whether this is the kind of a token.
    pub fn token(self) -> (r: bool)
        ensures
            r == self.is_token(),
    {
        match self {
            Kind::Rec | Kind::Ellipsis | Kind::OtherToken => true,
            _ => false,
        }
    }
}

/// One element of a tree.
#[derive(Debug, PartialEq, Eq)]
pub struct Element {
    /// What the element is.
    pub kind: Kind,
    /// The offset in the source at which the element starts.
    pub start: u32,
    /// The text of a token; empty for a node.
    pub text: String,
    /// The number of elements in the subtree, this one included.
    pub size: usize,
}

/// The mathematical value of a [`Element`].
pub struct ElementView {
    pub kind: Kind,
    pub start: nat,
    pub text: Seq<char>,
    pub size: nat,
}

impl View for Element {
    type V = ElementView;

    open spec fn view(&self) -> ElementView {
        ElementView {
            kind: self.kind,
            start: self.start as nat,
            text: self.text@,
            size: self.size as nat,
        }
    }
}

impl Clone for Element {
    fn clone(&self) -> (n: Element)
        ensures
            n@ == self@,
    {
        Element { kind: self.kind, start: self.start, text: self.text.clone(), size: self.size }
    }
}

/// The index just past the subtree of element `n`.
pub open spec fn end(t: Seq<ElementView>, n: int) -> int {
    n + t[n].size
}

/// A sequence of elements is a forest in pre-order: every subtree is not
/// empty and lies within the sequence, and two subtrees are nested or
/// disjoint.
pub open spec fn well_formed(t: Seq<ElementView>) -> bool {
    &&& forall|n: int| 0 <= n < t.len() ==> n < #[trigger] end(t, n) <= t.len()
    &&& forall|a: int, n: int|
        0 <= a < n < t.len() && n < end(t, a) ==> #[trigger] end(t, n) <= #[trigger] end(t, a)
}

/// The element `c` and the siblings that follow it, up to `stop`.
pub open spec fn siblings(t: Seq<ElementView>, c: int, stop: int) -> Seq<int>
    decreases stop - c,
{
    if 0 <= c < end(t, c) <= stop && c < t.len() {
        seq![c] + siblings(t, end(t, c), stop)
    } else {
        Seq::empty()
    }
}

/// The children of element `n`, tokens included, in source order.
pub open spec fn children(t: Seq<ElementView>, n: int) -> Seq<int> {
    if 0 <= n < t.len() {
        siblings(t, n + 1, end(t, n))
    } else {
        Seq::empty()
    }
}

/// The test that `child_nodes` filters by.
pub open spec fn is_node(t: Seq<ElementView>) -> spec_fn(int) -> bool {
    |c: int| !t[c].kind.is_token()
}

/// The children of element `n` that are nodes, in source order.
pub open spec fn child_nodes(t: Seq<ElementView>, n: int) -> Seq<int> {
    children(t, n).filter(is_node(t))
}

/// The test that `members` filters by.
pub open spec fn of_kind(t: Seq<ElementView>, kind: Kind) -> spec_fn(int) -> bool {
    |c: int| t[c].kind == kind
}

/// The children of element `n` that have the given kind, in source order.
pub open spec fn members(t: Seq<ElementView>, n: int, kind: Kind) -> Seq<int> {
    children(t, n).filter(of_kind(t, kind))
}

/// Whether a token of the given kind is a child of element `n`.
pub open spec fn has_token(t: Seq<ElementView>, n: int, kind: Kind) -> bool {
    members(t, n, kind).len() > 0
}

/// The text by which an identifier node names something: the text of its
/// first child where that is a token, and the empty text otherwise.
pub open spec fn name_of(t: Seq<ElementView>, n: int) -> Seq<char> {
    if 0 <= n && n + 1 < t.len() && n + 1 < end(t, n) && t[n + 1].kind.is_token() {
        t[n + 1].text
    } else {
        Seq::empty()
    }
}

/// A sequence of indices, as integers.
pub open spec fn ints(s: Seq<usize>) -> Seq<int> {
    s.map_values(|x: usize| x as int)
}

/// The values of a sequence of elements.
pub open spec fn element_views(s: Seq<Element>) -> Seq<ElementView> {
    s.map_values(|n: Element| n@)
}

/// A syntax tree.
#[derive(Debug, PartialEq, Eq)]
pub struct Tree {
    nodes: Vec<Element>,
}

impl View for Tree {
    type V = Seq<ElementView>;

    closed spec fn view(&self) -> Seq<ElementView> {
        element_views(self.nodes@)
    }
}

impl Tree {
    /// Every tree is well formed.
    #[verifier::type_invariant]
    pub open spec fn inv(self) -> bool {
        well_formed(self@)
    }

    /// The tree that holds the given elements.
    pub(crate) fn from_elements(nodes: Vec<Element>) -> (tree: Tree)
        requires
            well_formed(element_views(nodes@)),
        ensures
            tree@ == element_views(nodes@),
    {
        Tree { nodes }
    }

    /// The number of elements.
    pub fn len(&self) -> (n: usize)
        ensures
            n == self@.len(),
    {
        self.nodes.len()
    }

    /// The element at index `n`, if there is one.
    pub fn element(&self, n: usize) -> (r: Option<&Element>)
        ensures
            n < self@.len() ==> r.is_some() && r.unwrap()@ == self@[n as int],
            n >= self@.len() ==> r.is_none(),
    {
        if n < self.nodes.len() {
            Some(&self.nodes[n])
        } else {
            None
        }
    }

    /// The kind of element `n`.
    pub(crate) fn kind(&self, n: usize) -> (k: Kind)
        requires
            n < self@.len(),
        ensures
            k == self@[n as int].kind,
    {
        self.nodes[n].kind
    }

    /// The index just past the subtree of element `n`.
    pub(crate) fn end(&self, n: usize) -> (e: usize)
        requires
            n < self@.len(),
        ensures
            e == end(self@, n as int),
            n < e <= self@.len(),
    {
        let len: usize = self.nodes.len();
        proof {
            use_type_invariant(self);
            assert(self@[n as int] == self.nodes@[n as int]@);
            assert(n < end(self@, n as int) <= len);
        }
        n + self.nodes[n].size
    }

    /// The children of element `n`, tokens included, in source order.
    pub fn children(&self, n: usize) -> (cs: Vec<usize>)
        ensures
            ints(cs@) == children(self@, n as int),
            forall|k: int| 0 <= k < cs.len() ==> n < #[trigger] cs[k] < self@.len(),
    {
        let mut cs: Vec<usize> = Vec::new();
        if n < self.nodes.len() {
            proof {
                use_type_invariant(self);
            }
            let stop: usize = self.end(n);
            let mut c: usize = n + 1;
            assert(ints(cs@) + siblings(self@, c as int, stop as int) =~= children(
                self@,
                n as int,
            ));
            while c < stop
                invariant
                    well_formed(self@),
                    n < self@.len(),
                    stop == end(self@, n as int),
                    n < c <= stop <= self@.len(),
                    ints(cs@) + siblings(self@, c as int, stop as int) == children(
                        self@,
                        n as int,
                    ),
                    forall|k: int| 0 <= k < cs.len() ==> n < #[trigger] cs[k] < self@.len(),
                decreases stop - c,
            {
                let next: usize = self.end(c);
                assert(end(self@, c as int) <= end(self@, n as int));
                proof {
                    let rest = siblings(self@, next as int, stop as int);
                    assert(siblings(self@, c as int, stop as int) == seq![c as int] + rest);
                    assert(ints(cs@.push(c)) + rest =~= ints(cs@) + (seq![c as int] + rest));
                }
                cs.push(c);
                c = next;
            }
            assert(ints(cs@) + Seq::<int>::empty() =~= ints(cs@));
        } else {
            assert(ints(cs@) =~= Seq::<int>::empty());
        }
        cs
    }

    /// The children of element `n` that are nodes, in source order.
    pub fn child_nodes(&self, n: usize) -> (cs: Vec<usize>)
        ensures
            ints(cs@) == child_nodes(self@, n as int),
            forall|k: int| 0 <= k < cs.len() ==> n < #[trigger] cs[k] < self@.len(),
    {
        let all = self.children(n);
        let mut cs: Vec<usize> = Vec::new();
        let mut k: usize = 0;
        assert(ints(all@).take(0) =~= Seq::<int>::empty());
        assert(ints(cs@) =~= Seq::<int>::empty().filter(is_node(self@))) by {
            reveal(Seq::filter);
        }
        while k < all.len()
            invariant
                0 <= k <= all.len(),
                forall|j: int| 0 <= j < all.len() ==> n < #[trigger] all[j] < self@.len(),
                ints(cs@) == ints(all@).take(k as int).filter(is_node(self@)),
                forall|j: int| 0 <= j < cs.len() ==> n < #[trigger] cs[j] < self@.len(),
            decreases all.len() - k,
        {
            let c: usize = all[k];
            proof {
                let s = ints(all@);
                s.lemma_take_succ_push(k as int);
                s.take(k as int).lemma_filter_push(c as int, is_node(self@));
                assert(ints(cs@.push(c)) =~= ints(cs@).push(c as int));
            }
            if !self.kind(c).token() {
                cs.push(c);
            }
            k = k + 1;
        }
        assert(ints(all@).take(k as int) =~= ints(all@));
        cs
    }

    /// The children of element `n` that have the given kind, in source order.
    pub fn members(&self, n: usize, kind: Kind) -> (cs: Vec<usize>)
        ensures
            ints(cs@) == members(self@, n as int, kind),
            forall|k: int|
                0 <= k < cs.len() ==> n < #[trigger] cs[k] < self@.len() && self@[cs[k] as int].kind
                    == kind,
    {
        let all = self.children(n);
        let mut cs: Vec<usize> = Vec::new();
        let mut k: usize = 0;
        assert(ints(all@).take(0) =~= Seq::<int>::empty());
        assert(ints(cs@) =~= Seq::<int>::empty().filter(of_kind(self@, kind))) by {
            reveal(Seq::filter);
        }
        while k < all.len()
            invariant
                0 <= k <= all.len(),
                forall|j: int| 0 <= j < all.len() ==> n < #[trigger] all[j] < self@.len(),
                ints(cs@) == ints(all@).take(k as int).filter(of_kind(self@, kind)),
                forall|j: int|
                    0 <= j < cs.len() ==> n < #[trigger] cs[j] < self@.len()
                        && self@[cs[j] as int].kind == kind,
            decreases all.len() - k,
        {
            let c: usize = all[k];
            proof {
                let s = ints(all@);
                s.lemma_take_succ_push(k as int);
                s.take(k as int).lemma_filter_push(c as int, of_kind(self@, kind));
                assert(ints(cs@.push(c)) =~= ints(cs@).push(c as int));
            }
            if self.kind(c) == kind {
                cs.push(c);
            }
            k = k + 1;
        }
        assert(ints(all@).take(k as int) =~= ints(all@));
        cs
    }

    /// Whether a token of the given kind is a child of element `n`.
    pub fn has_token(&self, n: usize, kind: Kind) -> (r: bool)
        ensures
            r == has_token(self@, n as int, kind),
    {
        let found = self.members(n, kind);
        assert(ints(found@).len() == found@.len());
        found.len() > 0
    }

    /// Whether `name` is the text by which the identifier node `n` names
    /// something.
    pub fn is_named(&self, n: usize, name: &String) -> (r: bool)
        ensures
            r == (name_of(self@, n as int) == name@),
    {
        let len: usize = self.nodes.len();
        if n < len && n + 1 < len {
            assert(self@[n + 1] == self.nodes@[n + 1]@);
            if n + 1 < self.end(n) && self.nodes[n + 1].kind.token() {
                return self.nodes[n + 1].text == *name;
            }
        }
        assert(name@.len() == 0 <==> name@ =~= Seq::<char>::empty());
        name.as_str().is_empty()
    }

    /// The text by which the identifier node `n` names something.
    pub fn name_of(&self, n: usize) -> (name: String)
        ensures
            name@ == name_of(self@, n as int),
    {
        let len: usize = self.nodes.len();
        if n < len && n + 1 < len {
            assert(self@[n + 1] == self.nodes@[n + 1]@);
            if n + 1 < self.end(n) && self.nodes[n + 1].kind.token() {
                return self.nodes[n + 1].text.clone();
            }
        }
        String::new()
    }
}

} // verus!

