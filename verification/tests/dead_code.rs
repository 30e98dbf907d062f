use deadnix::binding::Binding;
use deadnix::dead_code::{DeadCode, Settings};
use deadnix::scope::{Scope, ScopeKind};
use deadnix::syntax::SyntaxEvent;
use deadnix::tree::Tree;
use rnix::SyntaxKind;

const ALL: Settings = Settings { no_lambda_arg: false, no_underscore: false };

fn parse(source: &str) -> Tree {
    Tree::parse(source).expect("a short source")
}

fn lines(settings: Settings, source: &str) -> Vec<String> {
    settings.find_dead_code(&parse(source)).iter().map(|f| f.to_string()).collect()
}

fn none() -> Vec<String> {
    Vec::new()
}

#[test]
fn finding_holds_scope_and_binding() {
    let tree = parse("let x = 1; in 2");
    assert_eq!(
        ALL.find_dead_code(&tree),
        vec![DeadCode {
            scope: Scope { kind: ScopeKind::LetIn, node: 1 },
            binding: Binding { name: "x".to_string(), name_node: 6, node: 4, mortal: true },
        }]
    );
}

#[test]
fn finding_is_rendered_with_its_scope() {
    let finding = |kind| DeadCode {
        scope: Scope { kind, node: 0 },
        binding: Binding { name: "it".to_string(), name_node: 0, node: 0, mortal: true },
    };
    assert_eq!(finding(ScopeKind::LambdaArg).to_string(), "lambda argument it");
    assert_eq!(finding(ScopeKind::LambdaPattern).to_string(), "lambda pattern it");
    assert_eq!(finding(ScopeKind::LetIn).to_string(), "let binding it");
    assert_eq!(finding(ScopeKind::RecAttrSet).to_string(), "rec attrset it");
    assert_eq!(finding(ScopeKind::LetIn).clone(), finding(ScopeKind::LetIn));
}

#[test]
fn offset_is_where_the_name_starts() {
    let tree = parse("let  abc = 1; in 2");
    let found = ALL.find_dead_code(&tree);
    assert_eq!(found.len(), 1);
    assert_eq!(found[0].offset(&tree), 5);
    assert_eq!(found[0].offset(&parse("")), 0);
}

#[test]
fn nothing_is_dead_without_bindings() {
    assert_eq!(lines(ALL, ""), none());
    assert_eq!(lines(ALL, "1 + 2"), none());
    assert_eq!(lines(ALL, "{ a = 1; b = 2; }"), none());
    assert_eq!(ALL.find_dead_code(&Tree::from_events(&Vec::new())), Vec::<DeadCode>::new());
}

#[test]
fn lambda_arguments_are_scanned() {
    assert_eq!(lines(ALL, "x: y: x"), vec!["lambda argument y"]);
    assert_eq!(lines(ALL, "x: y: y"), vec!["lambda argument x"]);
    assert_eq!(lines(ALL, "x: y: x + y"), none());
}

#[test]
fn open_pattern_is_scanned() {
    assert_eq!(lines(ALL, "{ a, b, ... }: a"), vec!["lambda pattern b"]);
    assert_eq!(lines(ALL, "{ a, b ? a, ... }: b"), none());
    assert_eq!(
        lines(ALL, "{ a, b ? a, ... } @ args: 1"),
        vec!["lambda pattern a", "lambda pattern b", "lambda pattern args"]
    );
    assert_eq!(lines(ALL, "{ a, ... } @ args: args"), vec!["lambda pattern a"]);
}

#[test]
fn closed_pattern_keeps_its_arguments() {
    assert_eq!(lines(ALL, "{ a, b }: a"), none());
    assert_eq!(lines(ALL, "args @ { a, b }: 1"), vec!["lambda pattern args"]);
}

#[test]
fn lambda_flag_covers_patterns() {
    let quiet = Settings { no_lambda_arg: true, no_underscore: false };
    assert_eq!(lines(quiet, "{ a, b, ... } @ args: x: 1"), none());
}

#[test]
fn recursive_set_is_scanned() {
    assert_eq!(lines(ALL, "rec { a = 1; b = a; }"), vec!["rec attrset a", "rec attrset b"]);
    assert_eq!(
        lines(ALL, "rec { a = 1; b = a; inherit (a) c; inherit d; }"),
        vec!["rec attrset b", "rec attrset c", "rec attrset d"]
    );
}

#[test]
fn inherited_names_are_scanned() {
    assert_eq!(lines(ALL, "let inherit (s) a b; s = 1; in a"), vec!["let binding b"]);
    assert_eq!(lines(ALL, "let inherit (s) a; s = 1; in 0"), vec!["let binding a"]);
    assert_eq!(lines(ALL, "let inherit a; in 0"), vec!["let binding a"]);
}

#[test]
fn dead_body_gives_no_use() {
    assert_eq!(lines(ALL, "let a = 1; b = a; c = b; in c"), none());
    assert_eq!(
        lines(ALL, "let a = 1; b = a; c = b; in a"),
        vec!["let binding b", "let binding c"]
    );
    assert_eq!(lines(ALL, "let c = b; b = a; a = 1; in 0").len(), 3);
}

#[test]
fn bindings_that_use_each_other_are_dead() {
    assert_eq!(lines(ALL, "let a = b; b = a; in 0"), none());
    assert_eq!(lines(ALL, "let a = a; in 0"), vec!["let binding a"]);
}

#[test]
fn both_flags_work_together() {
    let source = "_a: b: let _c = 1; d = 2; in 0";
    assert_eq!(
        lines(ALL, source),
        vec!["lambda argument _a", "lambda argument b", "let binding _c", "let binding d"]
    );
    let no_lambda = Settings { no_lambda_arg: true, no_underscore: false };
    assert_eq!(lines(no_lambda, source), vec!["let binding _c", "let binding d"]);
    let no_underscore = Settings { no_lambda_arg: false, no_underscore: true };
    assert_eq!(lines(no_underscore, source), vec!["lambda argument b", "let binding d"]);
    let neither = Settings { no_lambda_arg: true, no_underscore: true };
    assert_eq!(lines(neither, source), vec!["let binding d"]);
}

#[test]
fn stricter_settings_find_no_more() {
    let source = "_a: { b, _c ? b, ... }: let _d = _a; e = _d; in rec { f = 1; _g = f; }";
    let lax = lines(ALL, source);
    for no_lambda_arg in [false, true] {
        for no_underscore in [false, true] {
            let strict = lines(Settings { no_lambda_arg, no_underscore }, source);
            assert!(strict.iter().all(|line| lax.contains(line)));
        }
    }
}

#[test]
fn findings_with_one_offset_keep_their_order() {
    let at = |start| SyntaxEvent::Node { kind: SyntaxKind::NODE_IDENT, start };
    let name = |text: &str| {
        SyntaxEvent::Token { kind: SyntaxKind::TOKEN_IDENT, start: 0, text: text.to_string() }
    };
    let lambda = SyntaxEvent::Node { kind: SyntaxKind::NODE_LAMBDA, start: 0 };
    let mut events = Vec::new();
    for (text, start) in [("a", 5), ("b", 3), ("c", 5), ("d", 3), ("e", 0)] {
        events.push(SyntaxEvent::Node { kind: SyntaxKind::NODE_LAMBDA, start: 0 });
        events.extend([at(start), name(text), SyntaxEvent::Leave, SyntaxEvent::Leave]);
    }
    assert_eq!(lambda, SyntaxEvent::Node { kind: SyntaxKind::NODE_LAMBDA, start: 0 });
    let tree = Tree::from_events(&events);
    let found = ALL.find_dead_code(&tree);
    let names: Vec<&str> = found.iter().map(|f| f.binding.name.as_str()).collect();
    assert_eq!(names, vec!["e", "b", "d", "a", "c"]);
    let offsets: Vec<u32> = found.iter().map(|f| f.offset(&tree)).collect();
    assert_eq!(offsets, vec![0, 3, 3, 5, 5]);
}

#[test]
fn scan_of_a_long_chain_ends() {
    let mut source = String::from("let a0 = 1; ");
    for n in 1..40 {
        source.push_str(&format!("a{} = a{}; ", n, n - 1));
    }
    source.push_str("in 0");
    assert_eq!(lines(ALL, &source).len(), 40);
    let mut reversed = String::from("let ");
    for n in (1..40).rev() {
        reversed.push_str(&format!("a{} = a{}; ", n, n - 1));
    }
    reversed.push_str("a0 = 1; in 0");
    assert_eq!(lines(ALL, &reversed).len(), 40);
}
