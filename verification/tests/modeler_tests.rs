use shape_grammar::grammar::{Grammar, Operation, Rule};
use shape_grammar::modeler::{child_names, draws_box, generate_lookup, has_unique_inputs, split_piece_name};
use shape_grammar::parser::parse_source;

fn s(x: &str) -> String {
    x.to_string()
}

fn rule(input: &str, output: &[&str], operation: Operation) -> Rule {
    Rule { input: s(input), output: output.iter().map(|o| s(o)).collect(), operation }
}

#[test]
fn lookup_finds_rules_by_input() {
    let g = parse_source("a -> scale(1, 1, 1) { b } b -> draw(1, 0, 0) { }").unwrap();
    assert!(has_unique_inputs(&g));
    let l = generate_lookup(&g);
    assert_eq!(l.get(&s("a")), Some(&g.rules[0]));
    assert_eq!(l.get(&s("b")), Some(&g.rules[1]));
    assert_eq!(l.get(&s("c")), None);
}

#[test]
fn unique_inputs_detects_duplicates() {
    let g = parse_source("a -> components() { } b -> components() { } a -> components() { }").unwrap();
    assert!(!has_unique_inputs(&g));
    assert!(has_unique_inputs(&Grammar { rules: vec![] }));
}

#[test]
fn child_names_per_operation() {
    let one = s("1");
    let r = rule("a", &["b", "c"], Operation::Scale { x: one.clone(), y: one.clone(), z: one.clone() });
    assert_eq!(child_names(&r, 0), vec![s("b"), s("c")]);
    let r = rule("a", &["b"], Operation::Transpose { x: one.clone(), y: one.clone(), z: one.clone() });
    assert_eq!(child_names(&r, 7), vec![s("b")]);
    let r = rule("a", &["b"], Operation::Draw { r: one.clone(), g: one.clone(), b: one.clone() });
    assert_eq!(child_names(&r, 0), vec![s("draw")]);
    let r = rule("a", &["p", "q"], Operation::Split { dim: s("x"), size: one.clone() });
    assert_eq!(child_names(&r, 5), vec![s("p"), s("q"), s("p"), s("q"), s("p")]);
    assert_eq!(child_names(&r, 0), Vec::<String>::new());
    let r = rule("a", &["t", "bo", "f", "r", "ba", "l", "extra"], Operation::Components);
    assert_eq!(child_names(&r, 0), vec![s("t"), s("bo"), s("f"), s("r"), s("ba"), s("l")]);
}

#[test]
fn draws_box_cases() {
    assert!(draws_box(&s("wall"), 0));
    assert!(!draws_box(&s("wall"), 2));
    assert!(!draws_box(&s("_hidden"), 0));
    assert!(draws_box(&s(""), 0));
}

#[test]
fn split_piece_name_start_middle_end() {
    let start = vec![s("s0"), s("s1")];
    let middle = vec![s("m0"), s("m1")];
    let end = vec![s("e0")];
    let names: Vec<&String> = (0..7).map(|i| split_piece_name(i, 7, &start, &middle, &end)).collect();
    assert_eq!(names, vec!["s0", "s1", "m0", "m1", "m0", "m1", "e0"]);
    // start names win over end names when the split is short
    let names: Vec<&String> = (0..2).map(|i| split_piece_name(i, 2, &start, &middle, &end)).collect();
    assert_eq!(names, vec!["s0", "s1"]);
    let names: Vec<&String> = (0..3).map(|i| split_piece_name(i, 3, &start, &middle, &end)).collect();
    assert_eq!(names, vec!["s0", "s1", "e0"]);
}

#[test]
fn grammar_types_clone() {
    let g = parse_source("a -> split(x, 1) { b }").unwrap();
    assert_eq!(g.clone(), g);
    assert_eq!(g.rules[0].clone(), g.rules[0]);
    assert_eq!(g.rules[0].operation.clone(), g.rules[0].operation);
}
