//! Tests of the parse tree's shape.

use styrus::parser::parse;
use styrus::AstNode;

#[test]
fn empty_input_gives_empty_tree() {
    let ast = parse("").expect("unsuccessful parse");
    assert_eq!(ast.len(), 0);
}

#[test]
fn blank_line_gives_empty_selector_rule() {
    let ast = parse("\n").expect("unsuccessful parse");
    assert_eq!(ast.len(), 1);
    match &ast[0] {
        AstNode::Rule { selectors, properties } => {
            assert_eq!(selectors.len(), 0);
            assert_eq!(properties.len(), 0);
        }
        _ => panic!("expected a rule"),
    }
}

#[test]
fn nonblank_rules_match_selector_lines() {
    let source = "h1\n  color red\n\nh2\n  margin 0\n\n\np\n";
    let ast = parse(source).expect("unsuccessful parse");
    let nonblank = ast
        .iter()
        .filter(|node| match node {
            AstNode::Rule { selectors, .. } => !selectors.is_empty(),
            _ => false,
        })
        .count();
    let selector_lines = source
        .lines()
        .filter(|line| !line.trim().is_empty() && !line.starts_with(' '))
        .count();
    assert_eq!(nonblank, 3);
    assert_eq!(nonblank, selector_lines);
}

#[test]
fn parse_is_idempotent() {
    let source = "*h1 > p\n  border 1px\n\nh2\n  padding 1px 1px 1px 1px\n";
    let first = parse(source).expect("unsuccessful parse");
    let second = parse(source).expect("unsuccessful parse");
    assert_eq!(first, second);
}

#[test]
fn selector_fragments_are_kept_in_order() {
    let ast = parse("*h1 > p\n").expect("unsuccessful parse");
    assert_eq!(ast.len(), 1);
    match &ast[0] {
        AstNode::Rule { selectors, properties } => {
            assert_eq!(properties.len(), 0);
            assert_eq!(selectors.len(), 3);
            match &selectors[0] {
                AstNode::Selector(frags) => {
                    assert_eq!(frags.len(), 1);
                    assert!(matches!(frags[0], AstNode::Asterisk(_)));
                }
                _ => panic!("expected a selector"),
            }
            match &selectors[1] {
                AstNode::Selector(frags) => {
                    assert_eq!(frags.len(), 2);
                    assert_eq!(frags[0], AstNode::Identifier(String::from("h1")));
                    assert_eq!(frags[1], AstNode::Separator(String::from(">")));
                }
                _ => panic!("expected a selector"),
            }
            match &selectors[2] {
                AstNode::Selector(frags) => {
                    assert_eq!(frags.len(), 1);
                    assert_eq!(frags[0], AstNode::Identifier(String::from("p")));
                }
                _ => panic!("expected a selector"),
            }
        }
        _ => panic!("expected a rule"),
    }
}

#[test]
fn property_line_is_split_into_name_and_values() {
    let ast = parse("h2\n   padding 1px 2px\n").expect("unsuccessful parse");
    assert_eq!(ast.len(), 1);
    match &ast[0] {
        AstNode::Rule { properties, .. } => {
            assert_eq!(properties.len(), 1);
            match &properties[0] {
                AstNode::Property { indent, name, values } => {
                    assert_eq!(*indent, 3);
                    assert_eq!(name, "padding");
                    assert_eq!(values, &vec![String::from("1px"), String::from("2px")]);
                }
                _ => panic!("expected a property"),
            }
        }
        _ => panic!("expected a rule"),
    }
}

#[test]
fn indentation_depth_does_not_change_structure() {
    let narrow = parse("h1\n color red\nh2\n margin 0 auto\n").expect("unsuccessful parse");
    let wide = parse("h1\n        color red\nh2\n        margin 0 auto\n")
        .expect("unsuccessful parse");
    assert_eq!(narrow.len(), wide.len());
    for (a, b) in narrow.iter().zip(wide.iter()) {
        match (a, b) {
            (
                AstNode::Rule { selectors: s1, properties: p1 },
                AstNode::Rule { selectors: s2, properties: p2 },
            ) => {
                assert_eq!(s1, s2);
                assert_eq!(p1.len(), p2.len());
                for (q, r) in p1.iter().zip(p2.iter()) {
                    match (q, r) {
                        (
                            AstNode::Property { name: n1, values: v1, .. },
                            AstNode::Property { name: n2, values: v2, .. },
                        ) => {
                            assert_eq!(n1, n2);
                            assert_eq!(v1, v2);
                        }
                        _ => panic!("expected properties"),
                    }
                }
            }
            _ => panic!("expected rules"),
        }
    }
}

#[test]
fn uneven_indentation_within_a_rule_is_kept() {
    let ast = parse("h1\n  color red\n      margin 0\n").expect("unsuccessful parse");
    match &ast[0] {
        AstNode::Rule { properties, .. } => {
            assert_eq!(properties.len(), 2);
            match (&properties[0], &properties[1]) {
                (
                    AstNode::Property { indent: i1, .. },
                    AstNode::Property { indent: i2, .. },
                ) => {
                    assert_eq!(*i1, 2);
                    assert_eq!(*i2, 6);
                }
                _ => panic!("expected properties"),
            }
        }
        _ => panic!("expected a rule"),
    }
}
