use rust_git::pipeline::{Compiler, CompilerBuilder};

#[test]
fn scan_splits_at_white_space() {
    let c = Compiler::new("  hello world\tthis\u{3000}is ", false, false);
    let words: Vec<&str> = c.scan().stage.0.iter().map(|t| t.0).collect();
    assert_eq!(words, vec!["hello", "world", "this", "is"]);
}

#[test]
fn stages_carry_the_words_through() {
    let c = CompilerBuilder::new()
        .print_tokens()
        .with_source("hello world this is a type state example")
        .print_ast()
        .build();
    assert!(c.print_tokens);
    assert!(c.print_ast);
    let evaluator = c.scan().parse();
    assert_eq!(evaluator.output(), vec!["hello", "world", "this", "is", "a", "type", "state", "example"]);
    let done = evaluator.evaluate();
    assert!(done.print_tokens && done.print_ast);
}

#[test]
fn empty_source_has_no_tokens() {
    let c = Compiler::new(" \n ", false, false);
    assert!(c.scan().stage.0.is_empty());
}
