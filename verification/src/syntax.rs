//! Reading the syntax trees of the parser.
//!
//! The parser's tree is walked once, in source order. The walk is a sequence
//! of events, and the events determine the tree: each element that the walk
//! enters stands at the depth of the elements entered and not yet left, and
//! its subtree extends as far as the elements that follow it are deeper.

use crate::tree::{element_views, end, well_formed, Element, ElementView, Kind, Tree};
use rnix::SyntaxKind;
use rowan::NodeOrToken;
use rowan::WalkEvent;
use vstd::prelude::*;

verus! {

/// rnix's `SyntaxKind`: the kinds of node and token that the parser tells
/// apart. The enum has no fields, and it is declared with its variants, so
/// that what the library makes of each kind is verified.
#[verifier::external_type_specification]
pub struct ExSyntaxKind(rnix::SyntaxKind);

/// One step of a walk through a syntax tree.
#[derive(Debug, PartialEq, Eq)]
pub enum SyntaxEvent {
    /// The walk enters a node that starts at the offset `start`.
    Node { kind: SyntaxKind, start: u32 },
    /// The walk enters a token.
    Token { kind: SyntaxKind, start: u32, text: String },
    /// The walk leaves the node or token that it entered last.
    Leave,
}

/// The mathematical value of a [`SyntaxEvent`].
pub enum SyntaxEventView {
    Node { kind: SyntaxKind, start: nat },
    Token { kind: SyntaxKind, start: nat, text: Seq<char> },
    Leave,
}

impl View for SyntaxEvent {
    type V = SyntaxEventView;

    open spec fn view(&self) -> SyntaxEventView {
        match self {
            SyntaxEvent::Node { kind, start } => SyntaxEventView::Node {
                kind: *kind,
                start: *start as nat,
            },
            SyntaxEvent::Token { kind, start, text } => SyntaxEventView::Token {
                kind: *kind,
                start: *start as nat,
                text: text@,
            },
            SyntaxEvent::Leave => SyntaxEventView::Leave,
        }
    }
}

/// The values of a sequence of events.
pub open spec fn event_views(s: Seq<SyntaxEvent>) -> Seq<SyntaxEventView> {
    s.map_values(|e: SyntaxEvent| e@)
}

/// The events of a walk through the tree that the parser makes of `source`.
pub uninterp spec fn syntax_events(source: Seq<char>) -> Seq<SyntaxEventView>;

/// Parses `source` with `rnix::parse` and walks the tree from its root with
/// rowan's `SyntaxNode::preorder_with_tokens`. Each step of the walk becomes
/// one event. An event holds what `kind()`, `text_range().start()` and, for
/// a token, `text()` give for the element that the walk enters.
///
/// The contract gives this sequence a name and says nothing else of it:
/// the parser reads nothing but the source, so one source has one walk.
/// Sources longer than `u32::MAX` bytes are left out: rowan counts offsets
/// in 32 bits and panics beyond them.
#[verifier::external_body]
fn walk(source: &str) -> (events: Vec<SyntaxEvent>)
    requires
        source.len() <= u32::MAX,
    ensures
        event_views(events@) == syntax_events(source@),
{
    rnix::parse(source).node().preorder_with_tokens().map(|step| match step {
        WalkEvent::Enter(NodeOrToken::Node(n)) => SyntaxEvent::Node {
            kind: n.kind(),
            start: n.text_range().start().into(),
        },
        WalkEvent::Enter(NodeOrToken::Token(t)) => SyntaxEvent::Token {
            kind: t.kind(),
            start: t.text_range().start().into(),
            text: t.text().to_string(),
        },
        WalkEvent::Leave(_) => SyntaxEvent::Leave,
    }).collect()
}

/// The kind of a node, as the analysis sees it.
pub open spec fn node_kind(kind: SyntaxKind) -> Kind {
    match kind {
        SyntaxKind::NODE_LAMBDA => Kind::Lambda,
        SyntaxKind::NODE_IDENT => Kind::Ident,
        SyntaxKind::NODE_PATTERN => Kind::Pattern,
        SyntaxKind::NODE_PAT_BIND => Kind::PatBind,
        SyntaxKind::NODE_PAT_ENTRY => Kind::PatEntry,
        SyntaxKind::NODE_LET_IN => Kind::LetIn,
        SyntaxKind::NODE_ATTR_SET => Kind::AttrSet,
        SyntaxKind::NODE_KEY_VALUE => Kind::KeyValue,
        SyntaxKind::NODE_KEY => Kind::Key,
        SyntaxKind::NODE_INHERIT => Kind::Inherit,
        SyntaxKind::NODE_INHERIT_FROM => Kind::InheritFrom,
        _ => Kind::OtherNode,
    }
}

/// The kind of a token, as the analysis sees it.
pub open spec fn token_kind(kind: SyntaxKind) -> Kind {
    match kind {
        SyntaxKind::TOKEN_REC => Kind::Rec,
        SyntaxKind::TOKEN_ELLIPSIS => Kind::Ellipsis,
        _ => Kind::OtherToken,
    }
}

/// An element that a walk enters, with the number of elements that the walk
/// has entered and not yet left.
pub struct Entry {
    pub kind: Kind,
    pub start: nat,
    pub text: Seq<char>,
    pub depth: nat,
}

/// The elements that a walk enters, in the order in which it enters them.
/// The walk starts at the given depth. An event that leaves where nothing
/// is left to leave changes nothing.
pub open spec fn outline(events: Seq<SyntaxEventView>, depth: nat) -> Seq<Entry>
    decreases events.len(),
{
    if events.len() == 0 {
        Seq::empty()
    } else {
        let rest = events.drop_first();
        match events[0] {
            SyntaxEventView::Node { kind, start } => seq![
                Entry { kind: node_kind(kind), start, text: Seq::empty(), depth },
            ] + outline(rest, depth + 1),
            SyntaxEventView::Token { kind, start, text } => seq![
                Entry { kind: token_kind(kind), start, text, depth },
            ] + outline(rest, depth + 1),
            SyntaxEventView::Leave => outline(
                rest,
                if depth > 0 {
                    (depth - 1) as nat
                } else {
                    0
                },
            ),
        }
    }
}

/// The index at which the subtree of the entry `k` ends, seen from index
/// `j`: the first index from `j` on whose entry is not deeper than `k`.
pub open spec fn extent(es: Seq<Entry>, k: int, j: int) -> int
    decreases es.len() - j,
{
    if 0 <= k < j < es.len() && es[j].depth > es[k].depth {
        extent(es, k, j + 1)
    } else {
        j
    }
}

/// The element that the entry `k` becomes.
pub open spec fn element(es: Seq<Entry>, k: int) -> ElementView {
    ElementView {
        kind: es[k].kind,
        start: es[k].start,
        text: es[k].text,
        size: (extent(es, k, k + 1) - k) as nat,
    }
}

/// The tree that a walk describes.
pub open spec fn tree_of(events: Seq<SyntaxEventView>) -> Seq<ElementView> {
    let es = outline(events, 0);
    Seq::new(es.len(), |k: int| element(es, k))
}

/// A subtree ends within the sequence. Every entry in it is deeper than its
/// root, and the entry behind it is not.
pub proof fn lemma_extent(es: Seq<Entry>, k: int, j: int)
    requires
        0 <= k < j <= es.len(),
    ensures
        j <= extent(es, k, j) <= es.len(),
        forall|m: int| j <= m < extent(es, k, j) ==> es[m].depth > es[k].depth,
        extent(es, k, j) < es.len() ==> es[extent(es, k, j)].depth <= es[k].depth,
    decreases es.len() - j,
{
    if j < es.len() && es[j].depth > es[k].depth {
        lemma_extent(es, k, j + 1);
    }
}

/// The tree that a walk describes is well formed.
pub proof fn lemma_tree_of_well_formed(events: Seq<SyntaxEventView>)
    ensures
        well_formed(tree_of(events)),
{
    let es = outline(events, 0);
    let t = tree_of(events);
    assert forall|n: int| 0 <= n < t.len() implies n < #[trigger] end(t, n) <= t.len() by {
        lemma_extent(es, n, n + 1);
    }
    assert forall|a: int, n: int| 0 <= a < n < t.len() && n < end(t, a) implies #[trigger] end(
        t,
        n,
    ) <= #[trigger] end(t, a) by {
        lemma_extent(es, a, a + 1);
        lemma_extent(es, n, n + 1);
    }
}

impl Kind {
    /// The kind of a node, as the analysis sees it.
    pub fn of_node(kind: SyntaxKind) -> (k: Kind)
        ensures
            k == node_kind(kind),
    {
        match kind {
            SyntaxKind::NODE_LAMBDA => Kind::Lambda,
            SyntaxKind::NODE_IDENT => Kind::Ident,
            SyntaxKind::NODE_PATTERN => Kind::Pattern,
            SyntaxKind::NODE_PAT_BIND => Kind::PatBind,
            SyntaxKind::NODE_PAT_ENTRY => Kind::PatEntry,
            SyntaxKind::NODE_LET_IN => Kind::LetIn,
            SyntaxKind::NODE_ATTR_SET => Kind::AttrSet,
            SyntaxKind::NODE_KEY_VALUE => Kind::KeyValue,
            SyntaxKind::NODE_KEY => Kind::Key,
            SyntaxKind::NODE_INHERIT => Kind::Inherit,
            SyntaxKind::NODE_INHERIT_FROM => Kind::InheritFrom,
            _ => Kind::OtherNode,
        }
    }

    /// The kind of a token, as the analysis sees it.
    pub fn of_token(kind: SyntaxKind) -> (k: Kind)
        ensures
            k == token_kind(kind),
    {
        match kind {
            SyntaxKind::TOKEN_REC => Kind::Rec,
            SyntaxKind::TOKEN_ELLIPSIS => Kind::Ellipsis,
            _ => Kind::OtherToken,
        }
    }
}

/// The entry that an element stands for while its field `size` holds its
/// depth.
pub open spec fn entry(n: Element) -> Entry {
    Entry { kind: n.kind, start: n.start as nat, text: n.text@, depth: n.size as nat }
}

/// The entries that elements stand for while they hold their depths.
pub open spec fn entries(s: Seq<Element>) -> Seq<Entry> {
    s.map_values(|n: Element| entry(n))
}

impl Tree {
    /// The tree that the parser makes of `source`; none for a source of
    /// more than `u32::MAX` bytes, whose offsets the parser cannot count.
    pub fn parse(source: &str) -> (r: Option<Tree>)
        ensures
            r.is_some() <==> source.len() <= u32::MAX,
            r.is_some() ==> r.unwrap()@ == tree_of(syntax_events(source@)),
    {
        if source.len() <= u32::MAX as usize {
            let events = walk(source);
            Some(Tree::from_events(&events))
        } else {
            None
        }
    }

    /// The tree that a walk describes.
    pub fn from_events(events: &Vec<SyntaxEvent>) -> (tree: Tree)
        ensures
            tree@ == tree_of(event_views(events@)),
    {
        let ghost all = event_views(events@);
        let ghost es = outline(all, 0);
        let mut nodes: Vec<Element> = Vec::new();
        let mut depth: usize = 0;
        let mut i: usize = 0;
        assert(all.skip(0) =~= all);
        assert(entries(nodes@) + es =~= es);
        while i < events.len()
            invariant
                0 <= i <= events.len(),
                depth <= i,
                all == event_views(events@),
                es == entries(nodes@) + outline(all.skip(i as int), depth as nat),
            decreases events.len() - i,
        {
            let ghost rest = all.skip(i as int);
            proof {
                assert(rest.len() > 0);
                assert(rest[0] == events[i as int]@);
                assert(rest.drop_first() =~= all.skip(i + 1));
            }
            match &events[i] {
                SyntaxEvent::Node { kind, start } => {
                    let element = Element {
                        kind: Kind::of_node(*kind),
                        start: *start,
                        text: String::new(),
                        size: depth,
                    };
                    proof {
                        let next = outline(all.skip(i + 1), (depth + 1) as nat);
                        assert(entries(nodes@.push(element)) + next =~= entries(nodes@) + (seq![
                            entry(element),
                        ] + next));
                    }
                    nodes.push(element);
                    depth = depth + 1;
                },
                SyntaxEvent::Token { kind, start, text } => {
                    let element = Element {
                        kind: Kind::of_token(*kind),
                        start: *start,
                        text: text.clone(),
                        size: depth,
                    };
                    proof {
                        let next = outline(all.skip(i + 1), (depth + 1) as nat);
                        assert(entries(nodes@.push(element)) + next =~= entries(nodes@) + (seq![
                            entry(element),
                        ] + next));
                    }
                    nodes.push(element);
                    depth = depth + 1;
                },
                SyntaxEvent::Leave => {
                    if depth > 0 {
                        depth = depth - 1;
                    }
                },
            }
            i = i + 1;
        }
        assert(entries(nodes@) + Seq::<Entry>::empty() =~= entries(nodes@));
        let mut k: usize = 0;
        proof {
            lemma_tree_of_well_formed(all);
        }
        while k < nodes.len()
            invariant
                0 <= k <= nodes.len() == es.len(),
                es == outline(all, 0),
                forall|m: int| 0 <= m < k ==> (#[trigger] nodes[m])@ == element(es, m),
                forall|m: int| k <= m < nodes.len() ==> entry(#[trigger] nodes[m]) == es[m],
            decreases nodes.len() - k,
        {
            let own: usize = nodes[k].size;
            let mut j: usize = k + 1;
            while j < nodes.len() && nodes[j].size > own
                invariant
                    k < j <= nodes.len() == es.len(),
                    own == es[k as int].depth,
                    forall|m: int| k <= m < nodes.len() ==> entry(#[trigger] nodes[m]) == es[m],
                    extent(es, k as int, k + 1) == extent(es, k as int, j as int),
                decreases nodes.len() - j,
            {
                assert(entry(nodes[j as int]) == es[j as int]);
                j = j + 1;
            }
            proof {
                if j < nodes.len() {
                    assert(entry(nodes[j as int]) == es[j as int]);
                }
                assert(extent(es, k as int, j as int) == j);
                assert(entry(nodes[k as int]) == es[k as int]);
            }
            nodes[k].size = j - k;
            k = k + 1;
        }
        assert(element_views(nodes@) =~= tree_of(all));
        Tree::from_elements(nodes)
    }
}

} // verus!
