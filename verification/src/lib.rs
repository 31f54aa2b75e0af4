//! A small transpiler for an indentation-significant, CSS-like stylesheet
//! dialect. `parser::parse` turns source text into a sequence of [`AstNode`]
//! rules; `compiler::compile` renders that sequence as standard CSS text.
//!
//! The crate root holds the tree type shared by both stages, a mathematical
//! model of each node kind (`FragView`, `PropView`, `RuleView`), and the
//! well-formedness predicates the contracts are stated over.

use vstd::prelude::*;

pub mod compiler;
pub mod laws;
pub mod parser;

verus! {

/// One node of the stylesheet syntax tree.
///
/// The parser produces a sequence of `Rule` nodes. A `Rule` holds `Selector`
/// children; a `Selector` holds fragment children (`Asterisk`, `Prefix`,
/// `Identifier`, `Separator`); a `Property` holds no children of its own.
/// A `Rule` with an empty selector list stands for a blank source line.
#[derive(Debug, PartialEq, Eq)]
pub enum AstNode {
    /// The universal selector marker `*`.
    Asterisk(bool),
    /// A one-character sigil (`.` or `#`) attached to the identifier that follows it.
    Prefix(String),
    /// A bare selector token: a run of alphanumeric characters and hyphens.
    Identifier(String),
    /// A combinator symbol between selector parts, rendered space-wrapped.
    Separator(String),
    /// One complete selector expression: an ordered run of fragment nodes.
    Selector(Vec<AstNode>),
    /// One declaration line: its indentation depth, name, and value tokens.
    Property { indent: usize, name: String, values: Vec<String> },
    /// One stylesheet block: its selectors and its property lines.
    Rule { selectors: Vec<AstNode>, properties: Vec<AstNode> },
}

/// Mathematical model of a selector fragment.
pub enum FragView {
    Asterisk,
    Prefix(Seq<char>),
    Identifier(Seq<char>),
    Separator(Seq<char>),
}

/// Mathematical model of a property line.
pub struct PropView {
    pub indent: nat,
    pub name: Seq<char>,
    pub values: Seq<Seq<char>>,
}

/// Mathematical model of a rule: each selector is the sequence of its fragments.
pub struct RuleView {
    pub selectors: Seq<Seq<FragView>>,
    pub properties: Seq<PropView>,
}

/// Holds exactly of the four fragment node kinds.
pub open spec fn is_frag(n: AstNode) -> bool {
    match n {
        AstNode::Asterisk(_) => true,
        AstNode::Prefix(_) => true,
        AstNode::Identifier(_) => true,
        AstNode::Separator(_) => true,
        _ => false,
    }
}

/// The model of a fragment node. Non-fragment nodes map to an empty prefix,
/// whose rendering is empty.
pub open spec fn frag_view(n: AstNode) -> FragView {
    match n {
        AstNode::Asterisk(_) => FragView::Asterisk,
        AstNode::Prefix(s) => FragView::Prefix(s@),
        AstNode::Identifier(s) => FragView::Identifier(s@),
        AstNode::Separator(s) => FragView::Separator(s@),
        _ => FragView::Prefix(Seq::empty()),
    }
}

/// A `Selector` node whose children are all fragments.
pub open spec fn is_selector(n: AstNode) -> bool {
    match n {
        AstNode::Selector(frags) => forall|i: int|
            0 <= i < frags@.len() ==> is_frag(#[trigger] frags@[i]),
        _ => false,
    }
}

/// The fragment sequence of a `Selector` node; empty for any other node.
pub open spec fn sel_frags(n: AstNode) -> Seq<FragView> {
    match n {
        AstNode::Selector(frags) => frags@.map_values(|c: AstNode| frag_view(c)),
        _ => Seq::empty(),
    }
}

/// Holds exactly of `Property` nodes.
pub open spec fn is_property(n: AstNode) -> bool {
    match n {
        AstNode::Property { .. } => true,
        _ => false,
    }
}

/// The model of a `Property` node.
pub open spec fn prop_view(n: AstNode) -> PropView {
    match n {
        AstNode::Property { indent, name, values } => PropView {
            indent: indent as nat,
            name: name@,
            values: values@.map_values(|v: String| v@),
        },
        _ => PropView { indent: 0, name: Seq::empty(), values: Seq::empty() },
    }
}

/// A `Rule` node whose selector children are well-formed selectors and whose
/// property children are `Property` nodes.
pub open spec fn is_rule(n: AstNode) -> bool {
    match n {
        AstNode::Rule { selectors, properties } => {
            &&& forall|i: int|
                0 <= i < selectors@.len() ==> is_selector(#[trigger] selectors@[i])
            &&& forall|j: int|
                0 <= j < properties@.len() ==> is_property(#[trigger] properties@[j])
        },
        _ => false,
    }
}

/// The model of a `Rule` node.
pub open spec fn rule_view(n: AstNode) -> RuleView {
    match n {
        AstNode::Rule { selectors, properties } => RuleView {
            selectors: selectors@.map_values(|c: AstNode| sel_frags(c)),
            properties: properties@.map_values(|c: AstNode| prop_view(c)),
        },
        _ => RuleView { selectors: Seq::empty(), properties: Seq::empty() },
    }
}

/// Parses stylesheet source text and renders it as CSS in one step.
///
/// On success the returned text is exactly the rendering of the parsed
/// rules; on a grammar mismatch the parse error comes through unchanged.
pub fn transpile(source: &str) -> (r: Result<String, parser::ParseError>)
    ensures
        match r {
            Ok(css) => parser::spec_parse(source@) matches Ok(rules) && css@
                == compiler::render_rules(rules),
            Err(e) => parser::spec_parse(source@) matches Err(ev) && e.line as int == ev.line
                && e.column as int == ev.col && e.kind == ev.kind,
        },
{
    match parser::parse(source) {
        Ok(ast) => {
            proof {
                assert(ast@.map_values(|n: AstNode| rule_view(n)) =~= parser::spec_parse(
                    source@,
                )->Ok_0);
            }
            Ok(compiler::compile(ast))
        },
        Err(e) => Err(e),
    }
}

/// Relies on `String::push`: it appends the given character to the end of
/// the string, and does nothing else to it.
#[verifier::external_body]
pub(crate) fn push_char(s: &mut String, c: char)
    ensures
        final(s)@ == old(s)@.push(c),
{
    s.push(c);
}

} // verus!
