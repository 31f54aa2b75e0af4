//! End-to-end tests: parse a document and render it as CSS.

use styrus::compiler::compile;
use styrus::parser::parse;
use styrus::AstNode;

#[test]
fn nothing() {
    let ast = parse("").expect("unsuccessful parse");
    let css = compile(ast);
    assert_eq!(css, "");
}

#[test]
fn one_empty_line() {
    let ast = parse("\n").expect("unsuccessful parse");
    let css = compile(ast);
    assert_eq!(css, "\n");
}

#[test]
fn complete() {
    let ast = parse("*h1 > p\n  border 1px\n\nh2\n  padding 1px 1px 1px 1px\n")
        .expect("unsuccessful parse");
    let css = compile(ast);
    assert_eq!(
        css,
        "*h1 > p {\n  border: 1px;\n}\nh2 {\n  padding: 1px 1px 1px 1px;\n}"
    );
}

#[test]
fn compile_empty_tree() {
    let css = compile(Vec::new());
    assert_eq!(css, "");
}

#[test]
fn rule_without_properties() {
    let ast = parse("h2").expect("unsuccessful parse");
    let css = compile(ast);
    assert_eq!(css, "h2 {\n}");
}

#[test]
fn property_without_values() {
    let ast = parse("h1\n  border\n").expect("unsuccessful parse");
    let css = compile(ast);
    assert_eq!(css, "h1 {\n  border:;\n}");
}

#[test]
fn colon_in_source_is_consumed() {
    let ast = parse("h1\n  color: red\n").expect("unsuccessful parse");
    let css = compile(ast);
    assert_eq!(css, "h1 {\n  color: red;\n}");
}

#[test]
fn class_and_id_prefixes() {
    let ast = parse(".intro\n  color red\n\n#top\n  margin 0\n").expect("unsuccessful parse");
    let css = compile(ast);
    assert_eq!(css, ".intro {\n  color: red;\n}\n#top {\n  margin: 0;\n}");
}

#[test]
fn separator_is_normalized_to_single_spaces() {
    let ast = parse("h1>p\n  color red\n").expect("unsuccessful parse");
    let css = compile(ast);
    assert_eq!(css, "h1 > p {\n  color: red;\n}");
}

#[test]
fn sibling_separators() {
    let ast = parse("h1 + p\n  margin 0\n").expect("unsuccessful parse");
    let css = compile(ast);
    assert_eq!(css, "h1 + p {\n  margin: 0;\n}");

    let ast = parse("h1 ~ p\n  margin 0\n").expect("unsuccessful parse");
    let css = compile(ast);
    assert_eq!(css, "h1 ~ p {\n  margin: 0;\n}");
}

#[test]
fn visit_renders_one_node() {
    let mut compiler = styrus::compiler::Compiler;
    let sep = AstNode::Separator(String::from(">"));
    assert_eq!(compiler.visit(&sep), " > ");
    let ident = AstNode::Identifier(String::from("h1"));
    assert_eq!(compiler.visit(&ident), "h1");
    let ast = AstNode::Asterisk(true);
    assert_eq!(compiler.visit(&ast), "*");
    let prop = AstNode::Property {
        indent: 2,
        name: String::from("border"),
        values: vec![String::from("1px"), String::from("solid")],
    };
    assert_eq!(compiler.visit(&prop), "  border: 1px solid;\n");
}

#[test]
fn transpile_runs_both_stages() {
    let css = styrus::transpile("*h1 > p\n  border 1px\n\nh2\n  padding 1px 1px 1px 1px\n")
        .expect("unsuccessful parse");
    assert_eq!(
        css,
        "*h1 > p {\n  border: 1px;\n}\nh2 {\n  padding: 1px 1px 1px 1px;\n}"
    );
    let err = styrus::transpile("  border 1px\n").expect_err("transpile should fail");
    assert_eq!(err.line, 1);
}

#[test]
fn value_count_is_preserved() {
    let ast = parse("h1\n  margin 1px 2px 3px\n").expect("unsuccessful parse");
    let css = compile(ast);
    assert_eq!(css, "h1 {\n  margin: 1px 2px 3px;\n}");
}
