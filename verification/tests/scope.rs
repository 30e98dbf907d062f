use deadnix::binding::Binding;
use deadnix::scope::{Scope, ScopeKind};
use deadnix::tree::{Kind, Tree};

fn parse(source: &str) -> Tree {
    Tree::parse(source).expect("a short source")
}

/// The scopes of a tree, in source order.
fn scopes(tree: &Tree) -> Vec<Scope> {
    (0..tree.len()).filter_map(|n| Scope::new(tree, n)).collect()
}

fn binding(name: &str, name_node: usize, node: usize, mortal: bool) -> Binding {
    Binding { name: name.to_string(), name_node, node, mortal }
}

#[test]
fn lambda_with_a_name_is_a_scope() {
    let tree = parse("x: 1");
    assert_eq!(Scope::new(&tree, 0), None);
    assert_eq!(Scope::new(&tree, 1), Some(Scope { kind: ScopeKind::LambdaArg, node: 1 }));
    assert_eq!(Scope::new(&tree, 2), None);
    assert_eq!(Scope::new(&tree, 8), None);
    assert_eq!(scopes(&tree).len(), 1);
}

#[test]
fn lambda_with_a_pattern_is_a_scope() {
    let tree = parse("{ a }: 1");
    assert_eq!(scopes(&tree), vec![Scope { kind: ScopeKind::LambdaPattern, node: 1 }]);
}

#[test]
fn let_is_a_scope() {
    let tree = parse("let a = 1; in a");
    assert_eq!(scopes(&tree), vec![Scope { kind: ScopeKind::LetIn, node: 1 }]);
}

#[test]
fn only_a_recursive_set_is_a_scope() {
    assert_eq!(scopes(&parse("{ a = 1; }")), Vec::<Scope>::new());
    assert_eq!(
        scopes(&parse("rec { a = 1; }")),
        vec![Scope { kind: ScopeKind::RecAttrSet, node: 1 }]
    );
}

#[test]
fn nested_scopes_are_found() {
    let tree = parse("a: { b }: let c = 1; in rec { d = 2; }");
    let kinds: Vec<ScopeKind> = scopes(&tree).iter().map(|s| s.kind).collect();
    assert_eq!(
        kinds,
        vec![
            ScopeKind::LambdaArg,
            ScopeKind::LambdaPattern,
            ScopeKind::LetIn,
            ScopeKind::RecAttrSet
        ]
    );
}

#[test]
fn lambdas_are_told_from_the_rest() {
    assert!(Scope { kind: ScopeKind::LambdaArg, node: 0 }.is_lambda_arg());
    assert!(Scope { kind: ScopeKind::LambdaPattern, node: 0 }.is_lambda_arg());
    assert!(!Scope { kind: ScopeKind::LetIn, node: 0 }.is_lambda_arg());
    assert!(!Scope { kind: ScopeKind::RecAttrSet, node: 0 }.is_lambda_arg());
}

#[test]
fn scopes_are_described() {
    assert_eq!(Scope { kind: ScopeKind::LambdaArg, node: 0 }.describe(), "lambda argument");
    assert_eq!(Scope { kind: ScopeKind::LambdaPattern, node: 0 }.describe(), "lambda pattern");
    assert_eq!(Scope { kind: ScopeKind::LetIn, node: 0 }.describe(), "let binding");
    assert_eq!(Scope { kind: ScopeKind::RecAttrSet, node: 0 }.describe(), "rec attrset");
}

#[test]
fn lambda_binds_its_argument() {
    let tree = parse("x: y: x");
    let all = scopes(&tree);
    assert_eq!(all[0].bindings(&tree), vec![binding("x", 2, 2, true)]);
    assert_eq!(all[0].bodies(&tree), vec![6]);
    assert_eq!(all[1].bindings(&tree), vec![binding("y", 7, 7, true)]);
    assert_eq!(all[1].bodies(&tree), vec![11]);
}

#[test]
fn open_pattern_binds_mortal_arguments() {
    let tree = parse("{ a, b ? a, ... } @ args: 1");
    let scope = scopes(&tree)[0];
    assert_eq!(
        scope.bindings(&tree),
        vec![binding("a", 6, 5, true), binding("b", 11, 10, true), binding("args", 27, 27, true)]
    );
    assert_eq!(scope.bodies(&tree), vec![5, 10, 31]);
}

#[test]
fn closed_pattern_binds_immortal_arguments() {
    let tree = parse("args @ { a, b }: 1");
    let scope = scopes(&tree)[0];
    assert_eq!(
        scope.bindings(&tree),
        vec![binding("args", 4, 4, true), binding("a", 12, 11, false), binding("b", 17, 16, false)]
    );
    assert_eq!(scope.bodies(&tree), vec![11, 16, 23]);
}

#[test]
fn let_binds_entries_and_inherited_names() {
    let tree = parse("let inherit (s) a b; s = 1; in a");
    let scope = scopes(&tree)[0];
    assert_eq!(
        scope.bindings(&tree),
        vec![binding("a", 13, 13, true), binding("b", 16, 16, true), binding("s", 22, 20, true)]
    );
    assert_eq!(scope.bodies(&tree), vec![7, 20, 33]);
    assert_eq!(tree.element(7).map(|n| n.kind), Some(Kind::InheritFrom));
    assert_eq!(tree.element(20).map(|n| n.kind), Some(Kind::KeyValue));
}

#[test]
fn recursive_set_binds_entries_and_inherited_names() {
    let tree = parse("rec { a = 1; b = a; inherit (a) c; inherit d; }");
    let scope = scopes(&tree)[0];
    assert_eq!(
        scope.bindings(&tree),
        vec![
            binding("a", 8, 6, true),
            binding("b", 19, 17, true),
            binding("c", 37, 37, true),
            binding("d", 44, 44, true)
        ]
    );
    assert_eq!(scope.bodies(&tree), vec![6, 17, 31]);
}

#[test]
fn entry_is_named_by_the_head_of_its_path() {
    let tree = parse("let a.b = 1; \"c\" = 2; ${d} = 3; in 0");
    let scope = scopes(&tree)[0];
    assert_eq!(scope.bindings(&tree), vec![binding("a", 6, 4, true)]);
    assert_eq!(scope.bodies(&tree), vec![4, 18, 31, 47]);
}

#[test]
fn let_without_members_binds_nothing() {
    let tree = parse("let in 1");
    let scope = scopes(&tree)[0];
    assert_eq!(scope.bindings(&tree), Vec::<Binding>::new());
    assert_eq!(scope.bodies(&tree).len(), 1);
}

#[test]
fn scope_of_another_tree_is_harmless() {
    let tree = parse("1");
    for kind in [
        ScopeKind::LambdaArg,
        ScopeKind::LambdaPattern,
        ScopeKind::LetIn,
        ScopeKind::RecAttrSet,
    ] {
        for node in [1, 2, 3, 50, usize::MAX] {
            let scope = Scope { kind, node };
            assert_eq!(scope.bindings(&tree), Vec::<Binding>::new());
            assert_eq!(scope.bodies(&tree), Vec::<usize>::new());
        }
    }
    let root = Scope { kind: ScopeKind::LambdaArg, node: 0 };
    assert_eq!(root.bindings(&tree), vec![binding("1", 1, 1, true)]);
    assert_eq!(root.bodies(&tree), Vec::<usize>::new());
}

#[test]
fn declares_asks_for_a_scope_and_a_name() {
    let tree = parse("let a = 1; inherit b; in { c = 2; }");
    assert!(Scope::declares(&tree, 1, &"a".to_string()));
    assert!(Scope::declares(&tree, 1, &"b".to_string()));
    assert!(!Scope::declares(&tree, 1, &"c".to_string()));
    assert!(!Scope::declares(&tree, 0, &"a".to_string()));
    assert!(!Scope::declares(&tree, 400, &"a".to_string()));
}

#[test]
fn bindings_tell_what_they_are() {
    let buried = binding("_x", 1, 1, true);
    assert!(buried.is_mortal());
    assert!(buried.is_hidden());
    let plain = binding("x_", 1, 1, false);
    assert!(!plain.is_mortal());
    assert!(!plain.is_hidden());
    assert!(!binding("", 1, 1, true).is_hidden());
    assert!(binding("_", 1, 1, true).is_hidden());
    assert_eq!(buried.clone(), buried);
}

#[test]
fn new_binding_reads_its_name() {
    let tree = parse("foo: 1");
    assert_eq!(Binding::new(&tree, 2, 1, false), binding("foo", 2, 1, false));
    assert_eq!(Binding::new(&tree, 90, 91, true), binding("", 90, 91, true));
}
