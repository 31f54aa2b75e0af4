//! Renders a parsed rule sequence as CSS text.

use vstd::prelude::*;
use vstd::string::StringExecFns;

use crate::AstNode;
use crate::FragView;
use crate::PropView;
use crate::RuleView;
use crate::frag_view;
use crate::is_frag;
use crate::is_property;
use crate::is_rule;
use crate::prop_view;
use crate::rule_view;
use crate::sel_frags;

verus! {

/// A run of `n` space characters.
pub open spec fn spec_spaces(n: nat) -> Seq<char>
    decreases n,
{
    if n == 0 {
        Seq::empty()
    } else {
        spec_spaces((n - 1) as nat).push(' ')
    }
}

/// The text of one selector fragment: `*` for the universal marker, the
/// literal text of a prefix or identifier, and a separator wrapped in one
/// leading and one trailing space.
pub open spec fn render_frag(f: FragView) -> Seq<char> {
    match f {
        FragView::Asterisk => seq!['*'],
        FragView::Prefix(s) => s,
        FragView::Identifier(s) => s,
        FragView::Separator(s) => seq![' '] + s + seq![' '],
    }
}

/// The fragments of one selector, concatenated in order.
pub open spec fn render_frags(fs: Seq<FragView>) -> Seq<char>
    decreases fs.len(),
{
    if fs.len() == 0 {
        Seq::empty()
    } else {
        render_frag(fs[0]) + render_frags(fs.drop_first())
    }
}

/// Consecutive selectors, concatenated directly: any whitespace between
/// selector parts is already encoded in `Separator` fragments.
pub open spec fn render_selectors(ss: Seq<Seq<FragView>>) -> Seq<char>
    decreases ss.len(),
{
    if ss.len() == 0 {
        Seq::empty()
    } else {
        render_frags(ss[0]) + render_selectors(ss.drop_first())
    }
}

/// The value tokens of a property, each preceded by one space.
pub open spec fn join_values(vs: Seq<Seq<char>>) -> Seq<char>
    decreases vs.len(),
{
    if vs.len() == 0 {
        Seq::empty()
    } else {
        seq![' '] + vs[0] + join_values(vs.drop_first())
    }
}

/// One property line: indentation spaces, the name, a colon, the value
/// tokens separated by single spaces, a semicolon, and a line feed.
pub open spec fn render_property(p: PropView) -> Seq<char> {
    spec_spaces(p.indent) + p.name + seq![':'] + join_values(p.values) + seq![';', '\n']
}

/// The property lines of one rule, concatenated in order.
pub open spec fn render_properties(ps: Seq<PropView>) -> Seq<char>
    decreases ps.len(),
{
    if ps.len() == 0 {
        Seq::empty()
    } else {
        render_property(ps[0]) + render_properties(ps.drop_first())
    }
}

/// One rule: a blank rule is a single line feed; any other rule is its
/// selectors, ` {`, a line feed, its property lines, and a closing `}`.
pub open spec fn render_rule(r: RuleView) -> Seq<char> {
    if r.selectors.len() == 0 {
        seq!['\n']
    } else {
        render_selectors(r.selectors) + seq![' ', '{', '\n'] + render_properties(r.properties)
            + seq!['}']
    }
}

/// The whole stylesheet: the rules rendered in order, concatenated with
/// nothing between them and no trailing line feed after the last rule.
pub open spec fn render_rules(rs: Seq<RuleView>) -> Seq<char>
    decreases rs.len(),
{
    if rs.len() == 0 {
        Seq::empty()
    } else {
        render_rule(rs[0]) + render_rules(rs.drop_first())
    }
}

/// A string of `n` spaces.
fn spaces(n: usize) -> (s: String)
    ensures
        s@ == spec_spaces(n as nat),
{
    let mut s = String::new();
    let mut i: usize = 0;
    while i < n
        invariant
            i <= n,
            s@ == spec_spaces(i as nat),
        decreases n - i,
    {
        crate::push_char(&mut s, ' ');
        i = i + 1;
    }
    s
}

/// The text of one fragment node; a node of any other kind has no fragment
/// text and yields the empty string.
fn render_fragment(node: &AstNode) -> (out: String)
    ensures
        out@ == render_frag(frag_view(*node)),
{
    match node {
        AstNode::Asterisk(_) => {
            let mut out = String::new();
            crate::push_char(&mut out, '*');
            proof {
                assert(out@ =~= seq!['*']);
            }
            out
        },
        AstNode::Prefix(s) => {
            let mut out = String::new();
            out.append(s.as_str());
            out
        },
        AstNode::Identifier(s) => {
            let mut out = String::new();
            out.append(s.as_str());
            out
        },
        AstNode::Separator(s) => {
            let mut out = String::new();
            crate::push_char(&mut out, ' ');
            out.append(s.as_str());
            crate::push_char(&mut out, ' ');
            proof {
                assert(out@ =~= seq![' '] + s@ + seq![' ']);
            }
            out
        },
        _ => String::new(),
    }
}

/// The text of one `Selector` node: its fragments rendered in order; a node
/// of any other kind yields the empty string.
fn render_selector_node(node: &AstNode) -> (out: String)
    ensures
        out@ == render_frags(sel_frags(*node)),
{
    match node {
        AstNode::Selector(frags) => {
            let ghost fv = sel_frags(*node);
            let mut out = String::new();
            let mut i: usize = 0;
            proof {
                assert(Seq::<char>::empty() + render_frags(fv) =~= render_frags(fv));
                assert(fv.skip(0) =~= fv);
            }
            while i < frags.len()
                invariant
                    i <= frags@.len(),
                    fv == sel_frags(*node),
                    fv.len() == frags@.len(),
                    forall|t: int| 0 <= t < frags@.len() ==> fv[t] == frag_view(frags@[t]),
                    out@ + render_frags(fv.skip(i as int)) == render_frags(fv),
                decreases frags@.len() - i,
            {
                let piece = render_fragment(&frags[i]);
                proof {
                    assert(fv.skip(i as int).drop_first() =~= fv.skip(i + 1));
                    assert(fv.skip(i as int)[0] == fv[i as int]);
                    assert(render_frags(fv.skip(i as int)) == render_frag(fv[i as int])
                        + render_frags(fv.skip(i + 1)));
                    assert((out@ + piece@) + render_frags(fv.skip(i + 1)) =~= out@ + (piece@
                        + render_frags(fv.skip(i + 1))));
                }
                out.append(piece.as_str());
                i = i + 1;
            }
            proof {
                assert(fv.skip(frags@.len() as int) =~= Seq::<FragView>::empty());
                assert(out@ + Seq::<char>::empty() =~= out@);
            }
            out
        },
        _ => String::new(),
    }
}

/// The text of one `Property` node, as `render_property` gives it.
fn render_property_node(node: &AstNode) -> (out: String)
    ensures
        is_property(*node) ==> out@ == render_property(prop_view(*node)),
{
    match node {
        AstNode::Property { indent, name, values } => {
            let ghost pv = prop_view(*node);
            let ghost head = spec_spaces(pv.indent) + pv.name + seq![':'];
            let mut out = spaces(*indent);
            out.append(name.as_str());
            crate::push_char(&mut out, ':');
            proof {
                assert(out@ =~= head);
                assert(pv.values.skip(0) =~= pv.values);
                assert(head + join_values(pv.values) =~= out@ + join_values(pv.values.skip(0)));
            }
            let mut i: usize = 0;
            while i < values.len()
                invariant
                    i <= values@.len(),
                    pv == prop_view(*node),
                    pv.values.len() == values@.len(),
                    forall|t: int| 0 <= t < values@.len() ==> pv.values[t] == values@[t]@,
                    out@ + join_values(pv.values.skip(i as int)) == head + join_values(
                        pv.values,
                    ),
                decreases values@.len() - i,
            {
                proof {
                    assert(pv.values.skip(i as int).drop_first() =~= pv.values.skip(i + 1));
                    assert(pv.values.skip(i as int)[0] == pv.values[i as int]);
                    assert(join_values(pv.values.skip(i as int)) == seq![' '] + pv.values[
                        i as int] + join_values(pv.values.skip(i + 1)));
                    assert(((out@ + seq![' ']) + values@[i as int]@) + join_values(
                        pv.values.skip(i + 1),
                    ) =~= out@ + (seq![' '] + pv.values[i as int] + join_values(
                        pv.values.skip(i + 1),
                    )));
                }
                crate::push_char(&mut out, ' ');
                out.append(values[i].as_str());
                i = i + 1;
            }
            proof {
                assert(pv.values.skip(values@.len() as int) =~= Seq::<Seq<char>>::empty());
                assert(out@ + Seq::<char>::empty() =~= out@);
            }
            crate::push_char(&mut out, ';');
            crate::push_char(&mut out, '\n');
            proof {
                assert(out@ =~= render_property(pv));
            }
            out
        },
        _ => String::new(),
    }
}

/// The text of one `Rule` node: a blank rule is one line feed; any other is
/// its selectors, ` {`, its property lines, and `}`.
fn render_rule_node(node: &AstNode) -> (out: String)
    ensures
        is_rule(*node) ==> out@ == render_rule(rule_view(*node)),
{
    match node {
        AstNode::Rule { selectors, properties } => {
            let ghost rv = rule_view(*node);
            proof {
                assert(*node == AstNode::Rule {
                    selectors: *selectors,
                    properties: *properties,
                });
            }
            if selectors.len() == 0 {
                let mut out = String::new();
                crate::push_char(&mut out, '\n');
                proof {
                    assert(out@ =~= seq!['\n']);
                }
                out
            } else {
                let mut out = String::new();
                let mut i: usize = 0;
                proof {
                    assert(rv.selectors.skip(0) =~= rv.selectors);
                    assert(Seq::<char>::empty() + render_selectors(rv.selectors)
                        =~= render_selectors(rv.selectors));
                }
                while i < selectors.len()
                    invariant
                        i <= selectors@.len(),
                        rv == rule_view(*node),
                        rv.selectors.len() == selectors@.len(),
                        forall|t: int|
                            0 <= t < selectors@.len() ==> rv.selectors[t] == sel_frags(
                                #[trigger] selectors@[t],
                            ),
                        out@ + render_selectors(rv.selectors.skip(i as int))
                            == render_selectors(rv.selectors),
                    decreases selectors@.len() - i,
                {
                    let piece = render_selector_node(&selectors[i]);
                    proof {
                        assert(rv.selectors.skip(i as int).drop_first() =~= rv.selectors.skip(
                            i + 1,
                        ));
                        assert(rv.selectors.skip(i as int)[0] == rv.selectors[i as int]);
                        assert(render_selectors(rv.selectors.skip(i as int)) == render_frags(
                            rv.selectors[i as int],
                        ) + render_selectors(rv.selectors.skip(i + 1)));
                        assert((out@ + piece@) + render_selectors(rv.selectors.skip(i + 1))
                            =~= out@ + (piece@ + render_selectors(rv.selectors.skip(i + 1))));
                    }
                    out.append(piece.as_str());
                    i = i + 1;
                }
                proof {
                    assert(rv.selectors.skip(selectors@.len() as int).len() == 0);
                    assert(render_selectors(rv.selectors.skip(selectors@.len() as int))
                        == Seq::<char>::empty());
                    assert(out@ + Seq::<char>::empty() =~= out@);
                }
                crate::push_char(&mut out, ' ');
                crate::push_char(&mut out, '{');
                crate::push_char(&mut out, '\n');
                let ghost head = render_selectors(rv.selectors) + seq![' ', '{', '\n'];
                proof {
                    assert(out@ =~= head);
                    assert(rv.properties.skip(0) =~= rv.properties);
                    assert(head + render_properties(rv.properties) =~= out@
                        + render_properties(rv.properties.skip(0)));
                }
                let mut j: usize = 0;
                while j < properties.len()
                    invariant
                        j <= properties@.len(),
                        rv == rule_view(*node),
                        *node == (AstNode::Rule {
                            selectors: *selectors,
                            properties: *properties,
                        }),
                        rv.properties.len() == properties@.len(),
                        forall|t: int|
                            0 <= t < properties@.len() ==> rv.properties[t] == prop_view(
                                #[trigger] properties@[t],
                            ),
                        is_rule(*node) ==> out@ + render_properties(
                            rv.properties.skip(j as int),
                        ) == head + render_properties(rv.properties),
                    decreases properties@.len() - j,
                {
                    let piece = render_property_node(&properties[j]);
                    proof {
                        if is_rule(*node) {
                            assert(is_property(properties@[j as int]));
                            assert(rv.properties.skip(j as int).drop_first()
                                =~= rv.properties.skip(j + 1));
                            assert(rv.properties.skip(j as int)[0] == rv.properties[j as int]);
                            assert(render_properties(rv.properties.skip(j as int))
                                == render_property(rv.properties[j as int])
                                + render_properties(rv.properties.skip(j + 1)));
                            assert((out@ + piece@) + render_properties(
                                rv.properties.skip(j + 1),
                            ) =~= out@ + (piece@ + render_properties(
                                rv.properties.skip(j + 1),
                            )));
                        }
                    }
                    out.append(piece.as_str());
                    j = j + 1;
                }
                proof {
                    if is_rule(*node) {
                        assert(rv.properties.skip(properties@.len() as int).len() == 0);
                        assert(render_properties(rv.properties.skip(properties@.len() as int))
                            == Seq::<char>::empty());
                        assert(out@ + Seq::<char>::empty() =~= out@);
                    }
                }
                crate::push_char(&mut out, '}');
                proof {
                    if is_rule(*node) {
                        assert(out@ =~= render_rule(rv));
                    }
                }
                out
            }
        },
        _ => String::new(),
    }
}

/// Walks a syntax tree and renders CSS text, one node at a time.
pub struct Compiler;

impl Compiler {
    /// The text of one node: a fragment's literal text, a selector's
    /// fragments in order, a property line, or a whole rule block.
    pub fn visit(&mut self, node: &AstNode) -> (out: String)
        ensures
            *final(self) == *old(self),
            is_frag(*node) ==> out@ == render_frag(frag_view(*node)),
            node matches AstNode::Selector(_) ==> out@ == render_frags(sel_frags(*node)),
            is_property(*node) ==> out@ == render_property(prop_view(*node)),
            is_rule(*node) ==> out@ == render_rule(rule_view(*node)),
    {
        match node {
            AstNode::Selector(_) => render_selector_node(node),
            AstNode::Property { .. } => render_property_node(node),
            AstNode::Rule { .. } => render_rule_node(node),
            _ => render_fragment(node),
        }
    }
}

/// Renders a parsed rule sequence as one CSS string: the rules in order,
/// nothing between them, and no trailing line feed after the last one.
pub fn compile(ast: Vec<AstNode>) -> (css: String)
    requires
        forall|i: int| 0 <= i < ast@.len() ==> is_rule(#[trigger] ast@[i]),
    ensures
        css@ == render_rules(ast@.map_values(|n: AstNode| rule_view(n))),
{
    let ghost rv = ast@.map_values(|n: AstNode| rule_view(n));
    let mut compiler = Compiler;
    let mut css = String::new();
    let mut i: usize = 0;
    proof {
        assert(rv.skip(0) =~= rv);
        assert(Seq::<char>::empty() + render_rules(rv) =~= render_rules(rv));
    }
    while i < ast.len()
        invariant
            i <= ast@.len(),
            rv == ast@.map_values(|n: AstNode| rule_view(n)),
            forall|t: int| 0 <= t < ast@.len() ==> is_rule(#[trigger] ast@[t]),
            css@ + render_rules(rv.skip(i as int)) == render_rules(rv),
        decreases ast@.len() - i,
    {
        let piece = compiler.visit(&ast[i]);
        proof {
            assert(rv.skip(i as int).drop_first() =~= rv.skip(i + 1));
            assert(rv.skip(i as int)[0] == rv[i as int]);
            assert(render_rules(rv.skip(i as int)) == render_rule(rv[i as int]) + render_rules(
                rv.skip(i + 1),
            ));
            assert((css@ + piece@) + render_rules(rv.skip(i + 1)) =~= css@ + (piece@
                + render_rules(rv.skip(i + 1))));
        }
        css.append(piece.as_str());
        i = i + 1;
    }
    proof {
        assert(rv.skip(ast@.len() as int).len() == 0);
        assert(render_rules(rv.skip(ast@.len() as int)) == Seq::<char>::empty());
        assert(css@ + Seq::<char>::empty() =~= css@);
    }
    css
}

} // verus!
