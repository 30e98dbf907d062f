use deadnix::dead_code::{DeadCode, Settings};
use deadnix::tree::Tree;

const ALL: Settings = Settings { no_lambda_arg: false, no_underscore: false };

fn scan(settings: Settings, source: &str) -> Vec<DeadCode> {
    let tree = Tree::parse(source).expect("a short source");
    settings.find_dead_code(&tree)
}

fn lines(settings: Settings, source: &str) -> Vec<String> {
    scan(settings, source).iter().map(|f| f.to_string()).collect()
}

fn offsets(settings: Settings, source: &str) -> Vec<u32> {
    let tree = Tree::parse(source).expect("a short source");
    settings.find_dead_code(&tree).iter().map(|f| f.offset(&tree)).collect()
}

#[test]
fn basic_dead_binding() {
    assert_eq!(lines(ALL, "let x = 1; in 2"), vec!["let binding x"]);
    assert_eq!(offsets(ALL, "let x = 1; in 2"), vec![4]);
}

#[test]
fn used_binding_is_alive() {
    assert_eq!(lines(ALL, "let x = 1; in x"), Vec::<String>::new());
}

#[test]
fn cascading_dead_code() {
    let source = "let x = 1; y = x; in 2";
    assert_eq!(lines(ALL, source), vec!["let binding x", "let binding y"]);
    assert_eq!(offsets(ALL, source), vec![4, 11]);
}

#[test]
fn binding_used_by_a_live_binding_is_alive() {
    assert_eq!(lines(ALL, "let x = 1; y = x; in y"), Vec::<String>::new());
}

#[test]
fn long_cascade() {
    let source = "let a = 1; b = a; c = b; d = c; in 0";
    assert_eq!(
        lines(ALL, source),
        vec!["let binding a", "let binding b", "let binding c", "let binding d"]
    );
}

#[test]
fn self_reference_excluded() {
    assert_eq!(lines(ALL, "let x = x; in 1"), vec!["let binding x"]);
}

#[test]
fn lambda_argument_exclusion_flag() {
    assert_eq!(lines(ALL, "x: 1"), vec!["lambda argument x"]);
    let quiet = Settings { no_lambda_arg: true, no_underscore: false };
    assert_eq!(lines(quiet, "x: 1"), Vec::<String>::new());
}

#[test]
fn lambda_flag_leaves_let_alone() {
    let quiet = Settings { no_lambda_arg: true, no_underscore: false };
    assert_eq!(lines(quiet, "x: let y = 1; in 2"), vec!["let binding y"]);
}

#[test]
fn underscore_exclusion_flag() {
    let source = "let _unused = 1; in 2";
    assert_eq!(lines(ALL, source), vec!["let binding _unused"]);
    let quiet = Settings { no_lambda_arg: false, no_underscore: true };
    assert_eq!(lines(quiet, source), Vec::<String>::new());
}

#[test]
fn underscore_flag_leaves_other_names_alone() {
    let quiet = Settings { no_lambda_arg: false, no_underscore: true };
    assert_eq!(lines(quiet, "let a_ = 1; _b = 2; in 3"), vec!["let binding a_"]);
}

#[test]
fn scan_is_deterministic() {
    let source = "a: { b, c ? a, ... }: let d = b; e = d; in rec { f = 1; g = f; }";
    let tree = Tree::parse(source).expect("a short source");
    let first = ALL.find_dead_code(&tree);
    let second = ALL.find_dead_code(&tree);
    assert_eq!(first, second);
    assert!(!first.is_empty());
    let again = Tree::parse(source).expect("a short source");
    assert_eq!(tree, again);
    assert_eq!(ALL.find_dead_code(&again), first);
}

#[test]
fn findings_are_ordered_by_offset() {
    let source = "let a = z: let b = 1; in 2; c = 3; in y: 4";
    let found = offsets(ALL, source);
    assert_eq!(found, vec![4, 8, 15, 28, 38]);
    assert_eq!(
        lines(ALL, source),
        vec![
            "let binding a",
            "lambda argument z",
            "let binding b",
            "let binding c",
            "lambda argument y"
        ]
    );
}

#[test]
fn shadowing() {
    let source = "let x = 1; in let x = x + 1; in x";
    assert_eq!(lines(ALL, source), vec!["let binding x"]);
    assert_eq!(offsets(ALL, source), vec![4]);
}

#[test]
fn use_beside_a_shadowing_scope_counts() {
    assert_eq!(lines(ALL, "let x = 1; in [ x (let x = 2; in x) ]"), Vec::<String>::new());
    assert_eq!(lines(ALL, "let x = 1; in [ (let x = 2; in x) x ]"), Vec::<String>::new());
    assert_eq!(lines(ALL, "x: [ (x: x) ]"), vec!["lambda argument x"]);
}
