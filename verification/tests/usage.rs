use deadnix::tree::Tree;
use deadnix::usage::find_usage;

fn parse(source: &str) -> Tree {
    Tree::parse(source).expect("a short source")
}

fn used(source: &str, name: &str) -> bool {
    find_usage(&parse(source), &name.to_string(), 0)
}

#[test]
fn identifier_is_a_use() {
    assert!(used("x", "x"));
    assert!(used("[ 1 (a + x) ]", "x"));
    assert!(!used("y", "x"));
    assert!(!used("xx", "x"));
    assert!(!used("\"x\"", "x"));
    assert!(!used("", "x"));
}

#[test]
fn use_below_a_new_declaration_does_not_count() {
    assert!(!used("x: x", "x"));
    assert!(!used("{ x }: x", "x"));
    assert!(!used("{ y ? x } @ x: 1", "x"));
    assert!(!used("let x = 1; in x", "x"));
    assert!(!used("let inherit (s) x; in x", "x"));
    assert!(!used("rec { x = 1; y = x; }", "x"));
    assert!(!used("let y = x; x = 2; in 1", "x"));
}

#[test]
fn use_below_another_declaration_counts() {
    assert!(used("y: x", "x"));
    assert!(used("{ y ? x }: 1", "x"));
    assert!(used("let y = x; in 1", "x"));
    assert!(used("rec { y = x; }", "x"));
    assert!(used("{ x = x; }", "x"));
}

#[test]
fn search_goes_on_behind_a_new_declaration() {
    assert!(used("[ (x: x) x ]", "x"));
    assert!(used("[ x (x: x) ]", "x"));
    assert!(!used("[ (x: x) (let x = 1; in x) ]", "x"));
    assert!(used("[ (x: x) (let y = 1; in x) ]", "x"));
}

#[test]
fn search_stays_within_the_body() {
    let tree = parse("[ a b ]");
    let name = "b".to_string();
    assert!(find_usage(&tree, &name, 0));
    assert!(find_usage(&tree, &name, 1));
    assert!(!find_usage(&tree, &name, 4));
    assert!(find_usage(&tree, &name, 7));
    assert!(!find_usage(&tree, &name, 8));
    assert!(!find_usage(&tree, &name, tree.len()));
    assert!(!find_usage(&tree, &name, usize::MAX));
}
