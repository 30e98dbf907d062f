use deadnix::syntax::SyntaxEvent;
use deadnix::tree::{Element, Kind, Tree};
use rnix::SyntaxKind;

fn parse(source: &str) -> Tree {
    Tree::parse(source).expect("a short source")
}

fn node(kind: SyntaxKind, start: u32) -> SyntaxEvent {
    SyntaxEvent::Node { kind, start }
}

fn token(kind: SyntaxKind, start: u32, text: &str) -> SyntaxEvent {
    SyntaxEvent::Token { kind, start, text: text.to_string() }
}

fn element(kind: Kind, start: u32, text: &str, size: usize) -> Element {
    Element { kind, start, text: text.to_string(), size }
}

fn elements(tree: &Tree) -> Vec<Element> {
    (0..tree.len()).map(|n| tree.element(n).expect("an element").clone()).collect()
}

/// The events of a walk through the parser's tree of `source`.
fn walk(source: &str) -> Vec<SyntaxEvent> {
    let mut events = Vec::new();
    for step in rnix::parse(source).node().preorder_with_tokens() {
        events.push(match step {
            rnix::WalkEvent::Enter(rnix::NodeOrToken::Node(n)) => {
                node(n.kind(), n.text_range().start().into())
            }
            rnix::WalkEvent::Enter(rnix::NodeOrToken::Token(t)) => {
                token(t.kind(), t.text_range().start().into(), t.text())
            }
            rnix::WalkEvent::Leave(_) => SyntaxEvent::Leave,
        });
    }
    events
}

#[test]
fn parse_lays_the_tree_out_in_source_order() {
    let tree = parse("x: 1");
    assert_eq!(tree.len(), 8);
    assert_eq!(
        elements(&tree),
        vec![
            element(Kind::OtherNode, 0, "", 8),
            element(Kind::Lambda, 0, "", 7),
            element(Kind::Ident, 0, "", 2),
            element(Kind::OtherToken, 0, "x", 1),
            element(Kind::OtherToken, 1, ":", 1),
            element(Kind::OtherToken, 2, " ", 1),
            element(Kind::OtherNode, 3, "", 2),
            element(Kind::OtherToken, 3, "1", 1),
        ]
    );
}

#[test]
fn parse_of_nothing_is_a_bare_root() {
    let tree = parse("");
    assert_eq!(elements(&tree), vec![element(Kind::OtherNode, 0, "", 1)]);
}

#[test]
fn parse_keeps_what_it_cannot_read() {
    let tree = parse("let");
    assert_eq!(tree.len(), 3);
    assert_eq!(tree.element(1).map(|n| n.kind), Some(Kind::LetIn));
}

#[test]
fn parse_is_the_walk_of_the_parsers_tree() {
    for source in [
        "",
        "x: 1",
        "let x = 1; y = x; in 2",
        "{ a, b ? a, ... } @ args: rec { c = a; inherit (b) d; }",
        "let in",
    ] {
        assert_eq!(parse(source), Tree::from_events(&walk(source)));
    }
}

#[test]
fn parse_depends_on_the_source() {
    assert_ne!(parse("x: 1"), parse("y: 1"));
    assert_ne!(parse("x: 1"), parse("x:  1"));
}

#[test]
fn from_events_tells_the_kinds_apart() {
    let kinds = [
        (SyntaxKind::NODE_LAMBDA, Kind::Lambda),
        (SyntaxKind::NODE_IDENT, Kind::Ident),
        (SyntaxKind::NODE_PATTERN, Kind::Pattern),
        (SyntaxKind::NODE_PAT_BIND, Kind::PatBind),
        (SyntaxKind::NODE_PAT_ENTRY, Kind::PatEntry),
        (SyntaxKind::NODE_LET_IN, Kind::LetIn),
        (SyntaxKind::NODE_ATTR_SET, Kind::AttrSet),
        (SyntaxKind::NODE_KEY_VALUE, Kind::KeyValue),
        (SyntaxKind::NODE_KEY, Kind::Key),
        (SyntaxKind::NODE_INHERIT, Kind::Inherit),
        (SyntaxKind::NODE_INHERIT_FROM, Kind::InheritFrom),
        (SyntaxKind::NODE_ROOT, Kind::OtherNode),
        (SyntaxKind::NODE_LEGACY_LET, Kind::OtherNode),
        (SyntaxKind::TOKEN_REC, Kind::OtherNode),
    ];
    for (outside, kind) in kinds {
        assert_eq!(Kind::of_node(outside), kind);
        let tree = Tree::from_events(&vec![node(outside, 7), SyntaxEvent::Leave]);
        assert_eq!(elements(&tree), vec![element(kind, 7, "", 1)]);
    }
    let tokens = [
        (SyntaxKind::TOKEN_REC, Kind::Rec),
        (SyntaxKind::TOKEN_ELLIPSIS, Kind::Ellipsis),
        (SyntaxKind::TOKEN_IDENT, Kind::OtherToken),
        (SyntaxKind::TOKEN_LET, Kind::OtherToken),
        (SyntaxKind::NODE_LAMBDA, Kind::OtherToken),
    ];
    for (outside, kind) in tokens {
        assert_eq!(Kind::of_token(outside), kind);
        let tree = Tree::from_events(&vec![token(outside, 3, "t"), SyntaxEvent::Leave]);
        assert_eq!(elements(&tree), vec![element(kind, 3, "t", 1)]);
    }
}

#[test]
fn from_events_nests_what_the_walk_nests() {
    let tree = Tree::from_events(&vec![
        node(SyntaxKind::NODE_LIST, 0),
        node(SyntaxKind::NODE_IDENT, 1),
        token(SyntaxKind::TOKEN_IDENT, 1, "a"),
        SyntaxEvent::Leave,
        SyntaxEvent::Leave,
        node(SyntaxKind::NODE_IDENT, 3),
        token(SyntaxKind::TOKEN_IDENT, 3, "b"),
        SyntaxEvent::Leave,
        SyntaxEvent::Leave,
        SyntaxEvent::Leave,
        node(SyntaxKind::NODE_LIST, 5),
        SyntaxEvent::Leave,
    ]);
    assert_eq!(
        elements(&tree),
        vec![
            element(Kind::OtherNode, 0, "", 5),
            element(Kind::Ident, 1, "", 2),
            element(Kind::OtherToken, 1, "a", 1),
            element(Kind::Ident, 3, "", 2),
            element(Kind::OtherToken, 3, "b", 1),
            element(Kind::OtherNode, 5, "", 1),
        ]
    );
    assert_eq!(tree.children(0), vec![1, 3]);
    assert_eq!(tree.children(1), vec![2]);
    assert_eq!(tree.children(5), Vec::<usize>::new());
}

#[test]
fn from_events_of_no_events_is_empty() {
    let tree = Tree::from_events(&Vec::new());
    assert_eq!(tree.len(), 0);
    assert_eq!(tree.element(0), None);
    assert_eq!(tree.children(0), Vec::<usize>::new());
}

#[test]
fn from_events_closes_what_the_walk_leaves_open() {
    let tree = Tree::from_events(&vec![
        node(SyntaxKind::NODE_LIST, 0),
        node(SyntaxKind::NODE_LIST, 1),
        node(SyntaxKind::NODE_LIST, 2),
    ]);
    let sizes: Vec<usize> = elements(&tree).iter().map(|n| n.size).collect();
    assert_eq!(sizes, vec![3, 2, 1]);
}

#[test]
fn from_events_passes_over_a_leave_too_many() {
    let tree = Tree::from_events(&vec![
        SyntaxEvent::Leave,
        node(SyntaxKind::NODE_LIST, 0),
        SyntaxEvent::Leave,
        SyntaxEvent::Leave,
        SyntaxEvent::Leave,
        node(SyntaxKind::NODE_LIST, 1),
        node(SyntaxKind::NODE_LIST, 2),
        SyntaxEvent::Leave,
    ]);
    let sizes: Vec<usize> = elements(&tree).iter().map(|n| n.size).collect();
    assert_eq!(sizes, vec![1, 2, 1]);
}

#[test]
fn node_is_none_past_the_end() {
    let tree = parse("x: 1");
    assert_eq!(tree.element(7).map(|n| n.text.as_str()), Some("1"));
    assert_eq!(tree.element(8), None);
    assert_eq!(tree.element(usize::MAX), None);
}

#[test]
fn children_come_in_source_order() {
    let tree = parse("x: 1");
    assert_eq!(tree.children(0), vec![1]);
    assert_eq!(tree.children(1), vec![2, 4, 5, 6]);
    assert_eq!(tree.children(2), vec![3]);
    assert_eq!(tree.children(3), Vec::<usize>::new());
    assert_eq!(tree.children(8), Vec::<usize>::new());
}

#[test]
fn child_nodes_leave_the_tokens_out() {
    let tree = parse("x: 1");
    assert_eq!(tree.child_nodes(1), vec![2, 6]);
    assert_eq!(tree.child_nodes(2), Vec::<usize>::new());
    assert_eq!(tree.child_nodes(9), Vec::<usize>::new());
}

#[test]
fn members_are_the_children_of_one_kind() {
    let tree = parse("[ a 1 b ]");
    assert_eq!(tree.children(1), vec![2, 3, 4, 6, 7, 9, 10, 12, 13]);
    assert_eq!(tree.members(1, Kind::Ident), vec![4, 10]);
    assert_eq!(tree.members(1, Kind::OtherNode), vec![7]);
    assert_eq!(tree.members(1, Kind::Lambda), Vec::<usize>::new());
    assert_eq!(tree.members(0, Kind::Ident), Vec::<usize>::new());
}

#[test]
fn has_token_looks_at_the_children_only() {
    let tree = parse("{ a = rec { }; }");
    assert!(!tree.has_token(1, Kind::Rec));
    let inner = (0..tree.len()).filter(|n| tree.has_token(*n, Kind::Rec)).collect::<Vec<_>>();
    assert_eq!(inner.len(), 1);
    assert_eq!(tree.element(inner[0]).map(|n| n.kind), Some(Kind::AttrSet));
    assert_ne!(inner[0], 1);
    let open = parse("{ ... }: 1");
    assert!(open.has_token(2, Kind::Ellipsis));
    assert!(!open.has_token(1, Kind::Ellipsis));
    assert!(!open.has_token(100, Kind::Ellipsis));
}

#[test]
fn name_of_reads_the_first_token() {
    let tree = parse("foo: 1");
    assert_eq!(tree.name_of(2), "foo");
    assert!(tree.is_named(2, &"foo".to_string()));
    assert!(!tree.is_named(2, &"fo".to_string()));
    assert!(!tree.is_named(2, &String::new()));
}

#[test]
fn name_of_is_empty_without_a_token() {
    let tree = parse("foo: 1");
    assert_eq!(tree.name_of(0), "");
    assert_eq!(tree.name_of(3), "");
    assert_eq!(tree.name_of(7), "");
    assert_eq!(tree.name_of(8), "");
    assert!(tree.is_named(0, &String::new()));
    assert!(tree.is_named(8, &String::new()));
    assert!(!tree.is_named(8, &"foo".to_string()));
    let bare = Tree::from_events(&vec![node(SyntaxKind::NODE_IDENT, 0), SyntaxEvent::Leave]);
    assert_eq!(bare.name_of(0), "");
}

#[test]
fn kinds_are_tokens_or_nodes() {
    assert!(Kind::OtherToken.token());
    assert!(Kind::Rec.token());
    assert!(Kind::Ellipsis.token());
    for kind in [
        Kind::Lambda,
        Kind::Ident,
        Kind::Pattern,
        Kind::PatBind,
        Kind::PatEntry,
        Kind::LetIn,
        Kind::AttrSet,
        Kind::KeyValue,
        Kind::Key,
        Kind::Inherit,
        Kind::InheritFrom,
        Kind::OtherNode,
    ] {
        assert!(!kind.token());
    }
}
