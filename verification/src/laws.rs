//! Laws that relate the parser and the renderer: statements about all
//! documents, proved once and for all.

use vstd::prelude::*;

use crate::PropView;
use crate::RuleView;
use crate::compiler::join_values;
use crate::parser::ErrView;
use crate::parser::ParseErrorKind;
use crate::parser::blank_rule;
use crate::parser::is_blank_line;
use crate::parser::lines_of;
use crate::parser::parse_groups;
use crate::parser::parse_lines;
use crate::parser::parse_prop_line;
use crate::parser::parse_unit;
use crate::parser::parse_values;
use crate::parser::push_property;
use crate::parser::skip_spaces;
use crate::parser::spec_parse;
use crate::parser::name_end;
use crate::parser::lemma_name_end;
use crate::parser::lemma_name_end_shift;
use crate::parser::lemma_parse_values_shift;
use crate::parser::lemma_parse_values_tokens;
use crate::parser::lemma_skip_spaces;
use crate::parser::lemma_skip_spaces_is;
use crate::parser::lemma_skip_spaces_shift;
use crate::parser::lemma_value_end_is;

verus! {

/// How many rules of the sequence are not blank-line placeholders.
pub open spec fn count_nonblank_rules(rs: Seq<RuleView>) -> int
    decreases rs.len(),
{
    if rs.len() == 0 {
        0
    } else {
        (if rs[0].selectors.len() > 0 {
            1int
        } else {
            0int
        }) + count_nonblank_rules(rs.drop_first())
    }
}

/// A zero-indentation selector line: non-blank and starting with content.
pub open spec fn is_selector_line(line: Seq<char>) -> bool {
    !is_blank_line(line) && line[0] != ' '
}

/// How many selector lines stand at or after index `i`.
pub open spec fn count_selector_lines(lines: Seq<Seq<char>>, i: int) -> int
    decreases lines.len() - i,
{
    if !(0 <= i < lines.len()) {
        0
    } else {
        (if is_selector_line(lines[i]) {
            1int
        } else {
            0int
        }) + count_selector_lines(lines, i + 1)
    }
}

/// Appending one rule raises the non-blank count by one exactly when the
/// rule has a selector.
proof fn lemma_count_push(rs: Seq<RuleView>, r: RuleView)
    ensures
        count_nonblank_rules(rs.push(r)) == count_nonblank_rules(rs) + (if r.selectors.len()
            > 0 {
            1int
        } else {
            0int
        }),
    decreases rs.len(),
{
    if rs.len() == 0 {
        assert(rs.push(r)[0] == r);
        assert(rs.push(r).drop_first() =~= rs);
    } else {
        assert(rs.push(r)[0] == rs[0]);
        assert(rs.push(r).drop_first() =~= rs.drop_first().push(r));
        lemma_count_push(rs.drop_first(), r);
    }
}

/// Replacing a rule by one with the same selector count keeps the
/// non-blank count.
proof fn lemma_count_update(rs: Seq<RuleView>, t: int, r: RuleView)
    requires
        0 <= t < rs.len(),
        (r.selectors.len() > 0) == (rs[t].selectors.len() > 0),
    ensures
        count_nonblank_rules(rs.update(t, r)) == count_nonblank_rules(rs),
    decreases rs.len(),
{
    if t == 0 {
        assert(rs.update(t, r).drop_first() =~= rs.drop_first());
    } else {
        assert(rs.update(t, r)[0] == rs[0]);
        assert(rs.update(t, r).drop_first() =~= rs.drop_first().update(t - 1, r));
        lemma_count_update(rs.drop_first(), t - 1, r);
    }
}

/// A successfully parsed selector line yields at least one selector group.
proof fn lemma_parse_groups_nonempty(line: Seq<char>)
    requires
        !is_blank_line(line),
        line.len() > 0,
        line[0] != ' ',
    ensures
        parse_groups(line, 0) matches Ok(gs) ==> gs.len() > 0,
{
    assert(skip_spaces(line, 0) == 0);
    match parse_unit(line, 0) {
        Ok(_) => {},
        Err(_) => {},
    }
}

/// Each line adds its selector-line count to the non-blank rule count.
proof fn lemma_parse_lines_count(
    lines: Seq<Seq<char>>,
    i: int,
    rules: Seq<RuleView>,
    in_rule: bool,
)
    ensures
        parse_lines(lines, i, rules, in_rule) matches Ok(res) ==> count_nonblank_rules(res)
            == count_nonblank_rules(rules) + count_selector_lines(lines, i),
    decreases lines.len() - i,
{
    if 0 <= i < lines.len() {
        let line = lines[i];
        if is_blank_line(line) {
            lemma_count_push(rules, blank_rule());
            lemma_parse_lines_count(lines, i + 1, rules.push(blank_rule()), false);
        } else if line[0] == ' ' {
            if in_rule && rules.len() > 0 {
                match parse_prop_line(line) {
                    Ok(p) => {
                        let t = rules.len() - 1;
                        assert(push_property(rules, p) == rules.update(
                            t,
                            push_property(rules, p)[t],
                        ));
                        lemma_count_update(rules, t, push_property(rules, p)[t]);
                        lemma_parse_lines_count(lines, i + 1, push_property(rules, p), true);
                    },
                    Err(_) => {},
                }
            }
        } else {
            assert(line.len() > 0);
            lemma_parse_groups_nonempty(line);
            match parse_groups(line, 0) {
                Ok(groups) => {
                    let r = RuleView { selectors: groups, properties: Seq::empty() };
                    lemma_count_push(rules, r);
                    lemma_parse_lines_count(lines, i + 1, rules.push(r), true);
                },
                Err(_) => {},
            }
        }
    }
}

/// Law: for any well-formed document, the number of non-blank rules in the
/// parse equals the number of zero-indentation selector lines in the source.
pub proof fn lemma_round_trip_shape(s: Seq<char>)
    ensures
        spec_parse(s) matches Ok(rules) ==> count_nonblank_rules(rules) == count_selector_lines(
            lines_of(s),
            0,
        ),
{
    lemma_parse_lines_count(lines_of(s), 0, Seq::empty(), false);
}

/// Outside a rule, blank lines change nothing, and an indented content line
/// fails the parse.
proof fn lemma_blank_prefix_fails(
    lines: Seq<Seq<char>>,
    i: int,
    k: int,
    rules: Seq<RuleView>,
)
    requires
        0 <= i <= k < lines.len(),
        forall|j: int| i <= j < k ==> is_blank_line(#[trigger] lines[j]),
        !is_blank_line(lines[k]),
        lines[k][0] == ' ',
    ensures
        parse_lines(lines, i, rules, false) matches Err(e) && e.kind
            == ParseErrorKind::PropertyBeforeSelector && e.line == k + 1,
    decreases k - i,
{
    if i < k {
        lemma_blank_prefix_fails(lines, i + 1, k, rules.push(blank_rule()));
    }
}

/// Law: a document whose first non-blank line is indented fails to parse,
/// with the error naming that line; no tree is guessed.
pub proof fn lemma_indented_first_content_fails(s: Seq<char>, k: int)
    requires
        0 <= k < lines_of(s).len(),
        forall|j: int| 0 <= j < k ==> is_blank_line(#[trigger] lines_of(s)[j]),
        !is_blank_line(lines_of(s)[k]),
        lines_of(s)[k][0] == ' ',
    ensures
        spec_parse(s) matches Err(e) && e.kind == ParseErrorKind::PropertyBeforeSelector
            && e.line == k + 1,
{
    lemma_blank_prefix_fails(lines_of(s), 0, k, Seq::empty());
}

/// A property line can only join a rule that has a selector, so blank
/// placeholders stay bare.
proof fn lemma_parse_lines_blank_inv(
    lines: Seq<Seq<char>>,
    i: int,
    rules: Seq<RuleView>,
    in_rule: bool,
)
    requires
        forall|t: int|
            0 <= t < rules.len() ==> ((#[trigger] rules[t]).selectors.len() == 0
                ==> rules[t].properties.len() == 0),
        in_rule ==> rules.len() > 0 && rules[rules.len() - 1].selectors.len() > 0,
    ensures
        parse_lines(lines, i, rules, in_rule) matches Ok(res) ==> forall|t: int|
            0 <= t < res.len() ==> ((#[trigger] res[t]).selectors.len() == 0
                ==> res[t].properties.len() == 0),
    decreases lines.len() - i,
{
    if 0 <= i < lines.len() {
        let line = lines[i];
        if is_blank_line(line) {
            lemma_parse_lines_blank_inv(lines, i + 1, rules.push(blank_rule()), false);
        } else if line[0] == ' ' {
            if in_rule && rules.len() > 0 {
                match parse_prop_line(line) {
                    Ok(p) => {
                        lemma_parse_lines_blank_inv(lines, i + 1, push_property(rules, p), true);
                    },
                    Err(_) => {},
                }
            }
        } else {
            assert(line.len() > 0);
            lemma_parse_groups_nonempty(line);
            match parse_groups(line, 0) {
                Ok(groups) => {
                    let r = RuleView { selectors: groups, properties: Seq::empty() };
                    lemma_parse_lines_blank_inv(lines, i + 1, rules.push(r), true);
                },
                Err(_) => {},
            }
        }
    }
}

/// Law: a rule with an empty selector list stands for a blank line and
/// carries no properties, in every parsed document.
pub proof fn lemma_blank_rules_carry_nothing(s: Seq<char>)
    ensures
        spec_parse(s) matches Ok(rules) ==> forall|t: int|
            0 <= t < rules.len() ==> ((#[trigger] rules[t]).selectors.len() == 0
                ==> rules[t].properties.len() == 0),
{
    lemma_parse_lines_blank_inv(lines_of(s), 0, Seq::empty(), false);
}

/// Law: parsing is a function of the text alone. Two parses of the same
/// document have the same outcome; no state outside the text takes part.
pub proof fn lemma_parse_deterministic(
    s: Seq<char>,
    r1: Result<Seq<RuleView>, ErrView>,
    r2: Result<Seq<RuleView>, ErrView>,
)
    requires
        r1 == spec_parse(s),
        r2 == spec_parse(s),
    ensures
        r1 == r2,
{
}

/// Law: joining value tokens with single spaces and splitting them again
/// gives the tokens back: order and count survive rendering.
pub proof fn lemma_values_round_trip(vs: Seq<Seq<char>>)
    requires
        forall|t: int|
            0 <= t < vs.len() ==> (#[trigger] vs[t]).len() > 0 && forall|j: int|
                0 <= j < vs[t].len() ==> vs[t][j] != ' ',
    ensures
        parse_values(join_values(vs), 0) == vs,
    decreases vs.len(),
{
    let line = join_values(vs);
    if vs.len() == 0 {
        assert(parse_values(line, 0) =~= vs);
    } else {
        let v0 = vs[0];
        let rest = vs.drop_first();
        let jr = join_values(rest);
        let ll = v0.len() as int;
        assert(line == seq![' '] + v0 + jr);
        assert(line.len() == 1 + ll + jr.len());
        assert(line[0] == ' ');
        assert(line[1] == v0[0]);
        lemma_skip_spaces_is(line, 0, 1);
        assert forall|j: int| 1 <= j < 1 + ll implies line[j] != ' ' by {
            assert(line[j] == v0[j - 1]);
        }
        if rest.len() > 0 {
            assert(jr[0] == ' ');
            assert(line[1 + ll] == ' ');
        }
        lemma_value_end_is(line, 1, 1 + ll);
        assert(line.subrange(1, 1 + ll) =~= v0);
        let p = seq![' '] + v0;
        assert(line =~= p + jr);
        assert(p.len() == 1 + ll);
        lemma_parse_values_shift(p, jr, 0);
        assert forall|t: int|
            0 <= t < rest.len() implies (#[trigger] rest[t]).len() > 0 && forall|j: int|
            0 <= j < rest[t].len() ==> rest[t][j] != ' ' by {
            assert(rest[t] == vs[t + 1]);
        }
        lemma_values_round_trip(rest);
        assert(parse_values(line, 0) == seq![v0] + rest);
        assert(seq![v0] + rest =~= vs);
    }
}

/// Law: a property line with N value tokens renders to exactly those N
/// space-joined tokens: splitting the rendered value text recovers them.
pub proof fn lemma_property_value_count(line: Seq<char>)
    ensures
        parse_prop_line(line) matches Ok(p) ==> parse_values(join_values(p.values), 0)
            == p.values,
{
    match parse_prop_line(line) {
        Ok(p) => {
            let ind = skip_spaces(line, 0);
            let ne = crate::parser::name_end(line, ind);
            let q = skip_spaces(line, ne);
            let after_colon = if q < line.len() && line[q] == ':' {
                q + 1
            } else {
                q
            };
            assert(p.values == parse_values(line, after_colon));
            lemma_parse_values_tokens(line, after_colon);
            lemma_values_round_trip(p.values);
        },
        Err(_) => {},
    }
}

/// Two lines that differ only in the number of leading indentation spaces:
/// both are indented content lines, and past their indentation they agree.
pub open spec fn same_but_indent_line(l1: Seq<char>, l2: Seq<char>) -> bool {
    &&& !is_blank_line(l1)
    &&& !is_blank_line(l2)
    &&& l1[0] == ' '
    &&& l2[0] == ' '
    &&& l1.skip(skip_spaces(l1, 0)) == l2.skip(skip_spaces(l2, 0))
}

/// Two documents that differ only in the indentation of property lines:
/// line for line, either equal or indented content differing only in
/// leading spaces.
pub open spec fn same_but_indent_docs(lines1: Seq<Seq<char>>, lines2: Seq<Seq<char>>) -> bool {
    &&& lines1.len() == lines2.len()
    &&& forall|i: int|
        0 <= i < lines1.len() ==> ((#[trigger] lines1[i]) == lines2[i] || same_but_indent_line(
            lines1[i],
            lines2[i],
        ))
}

/// Property lists equal in everything but the stored indentation depths.
pub open spec fn props_same_but_indent(p1: Seq<PropView>, p2: Seq<PropView>) -> bool {
    &&& p1.len() == p2.len()
    &&& forall|j: int|
        0 <= j < p1.len() ==> (#[trigger] p1[j]).name == p2[j].name && p1[j].values
            == p2[j].values
}

/// Rule lists equal in everything but the properties' indentation depths.
pub open spec fn rules_same_but_indent(r1: Seq<RuleView>, r2: Seq<RuleView>) -> bool {
    &&& r1.len() == r2.len()
    &&& forall|i: int|
        0 <= i < r1.len() ==> (#[trigger] r1[i]).selectors == r2[i].selectors
            && props_same_but_indent(r1[i].properties, r2[i].properties)
}

/// The position after the property name and its optional colon, within the
/// line's content (the part past the indentation).
pub open spec fn after_name_and_colon(tail: Seq<char>) -> int {
    let ne = name_end(tail, 0);
    let q = skip_spaces(tail, ne);
    if q < tail.len() && tail[q] == ':' {
        q + 1
    } else {
        q
    }
}

/// What a property line means depends only on its content past the
/// indentation, except for the stored depth.
proof fn lemma_prop_line_via_tail(l: Seq<char>)
    requires
        !is_blank_line(l),
    ensures
        ({
            let a = skip_spaces(l, 0);
            let tail = l.skip(a);
            match parse_prop_line(l) {
                Ok(p) => {
                    &&& tail.len() > 0
                    &&& tail[0] != ':'
                    &&& p.indent == a
                    &&& p.name == tail.subrange(0, name_end(tail, 0))
                    &&& p.values == parse_values(tail, after_name_and_colon(tail))
                },
                Err(_) => tail.len() > 0 && tail[0] == ':',
            }
        }),
{
    let a = skip_spaces(l, 0);
    lemma_skip_spaces(l, 0);
    if a == l.len() {
        assert(forall|k: int| 0 <= k < l.len() ==> l[k] == ' ');
        assert(false);
    }
    let tail = l.skip(a);
    let p = l.take(a);
    assert(l =~= p + tail);
    assert(p.len() == a);
    assert(tail[0] == l[a]);
    lemma_name_end_shift(p, tail, 0);
    let net = name_end(tail, 0);
    lemma_name_end(tail, 0);
    assert(name_end(l, a) == a + net);
    assert(l.subrange(a, a + net) =~= tail.subrange(0, net));
    lemma_skip_spaces_shift(p, tail, net);
    let qt = skip_spaces(tail, net);
    lemma_skip_spaces(tail, net);
    assert(skip_spaces(l, a + net) == a + qt);
    assert(l.len() == a + tail.len());
    if qt < tail.len() {
        assert(l[a + qt] == tail[qt]);
    }
    let act = after_name_and_colon(tail);
    lemma_parse_values_shift(p, tail, act);
}

/// Two property lines that differ only in indentation mean the same
/// property, except for the stored depth; and they fail together.
proof fn lemma_prop_line_indent_invariant(l1: Seq<char>, l2: Seq<char>)
    requires
        same_but_indent_line(l1, l2),
    ensures
        parse_prop_line(l1) is Err <==> parse_prop_line(l2) is Err,
        parse_prop_line(l1) matches Ok(p1) ==> parse_prop_line(l2) matches Ok(p2) && p1.name
            == p2.name && p1.values == p2.values,
{
    lemma_prop_line_via_tail(l1);
    lemma_prop_line_via_tail(l2);
}

/// Pushing related rules keeps rule lists related.
proof fn lemma_rules_rel_push(r1: Seq<RuleView>, r2: Seq<RuleView>, a: RuleView, b: RuleView)
    requires
        rules_same_but_indent(r1, r2),
        a.selectors == b.selectors,
        props_same_but_indent(a.properties, b.properties),
    ensures
        rules_same_but_indent(r1.push(a), r2.push(b)),
{
    assert forall|i: int|
        0 <= i < r1.push(a).len() implies (#[trigger] r1.push(a)[i]).selectors == r2.push(
        b,
    )[i].selectors && props_same_but_indent(
        r1.push(a)[i].properties,
        r2.push(b)[i].properties,
    ) by {
        if i < r1.len() {
            assert(r1.push(a)[i] == r1[i]);
            assert(r2.push(b)[i] == r2[i]);
        } else {
            assert(r1.push(a)[i] == a);
            assert(r2.push(b)[i] == b);
        }
    }
}

/// Attaching related properties to the last rules keeps rule lists related.
proof fn lemma_rules_rel_push_prop(
    r1: Seq<RuleView>,
    r2: Seq<RuleView>,
    p1: PropView,
    p2: PropView,
)
    requires
        rules_same_but_indent(r1, r2),
        r1.len() > 0,
        p1.name == p2.name,
        p1.values == p2.values,
    ensures
        rules_same_but_indent(push_property(r1, p1), push_property(r2, p2)),
{
    let n = r1.len();
    let u1 = push_property(r1, p1);
    let u2 = push_property(r2, p2);
    assert forall|i: int|
        0 <= i < u1.len() implies (#[trigger] u1[i]).selectors == u2[i].selectors
        && props_same_but_indent(u1[i].properties, u2[i].properties) by {
        if i < n - 1 {
            assert(u1[i] == r1[i]);
            assert(u2[i] == r2[i]);
        } else {
            assert(u1[i].properties == r1[n - 1].properties.push(p1));
            assert(u2[i].properties == r2[n - 1].properties.push(p2));
            assert forall|j: int|
                0 <= j < u1[i].properties.len() implies (#[trigger] u1[i].properties[j]).name
                == u2[i].properties[j].name && u1[i].properties[j].values
                == u2[i].properties[j].values by {
                if j < n - 1 || j < r1[n - 1].properties.len() {
                    if j < r1[n - 1].properties.len() {
                        assert(u1[i].properties[j] == r1[n - 1].properties[j]);
                        assert(u2[i].properties[j] == r2[n - 1].properties[j]);
                    }
                }
            }
        }
    }
}

/// From index `i` on, related documents parse alike: they fail together,
/// and on success their rules differ at most in stored indentation depths.
proof fn lemma_parse_lines_indent(
    lines1: Seq<Seq<char>>,
    lines2: Seq<Seq<char>>,
    i: int,
    rules1: Seq<RuleView>,
    rules2: Seq<RuleView>,
    in_rule: bool,
)
    requires
        same_but_indent_docs(lines1, lines2),
        rules_same_but_indent(rules1, rules2),
    ensures
        parse_lines(lines1, i, rules1, in_rule) is Err <==> parse_lines(
            lines2,
            i,
            rules2,
            in_rule,
        ) is Err,
        parse_lines(lines1, i, rules1, in_rule) matches Ok(r1) ==> parse_lines(
            lines2,
            i,
            rules2,
            in_rule,
        ) matches Ok(r2) && rules_same_but_indent(r1, r2),
    decreases lines1.len() - i,
{
    if 0 <= i < lines1.len() {
        let l1 = lines1[i];
        let l2 = lines2[i];
        assert(l1 == l2 || same_but_indent_line(l1, l2));
        if l1 == l2 {
            if is_blank_line(l1) {
                lemma_rules_rel_push(rules1, rules2, blank_rule(), blank_rule());
                lemma_parse_lines_indent(
                    lines1,
                    lines2,
                    i + 1,
                    rules1.push(blank_rule()),
                    rules2.push(blank_rule()),
                    false,
                );
            } else if l1[0] == ' ' {
                if in_rule && rules1.len() > 0 {
                    match parse_prop_line(l1) {
                        Ok(p) => {
                            lemma_rules_rel_push_prop(rules1, rules2, p, p);
                            lemma_parse_lines_indent(
                                lines1,
                                lines2,
                                i + 1,
                                push_property(rules1, p),
                                push_property(rules2, p),
                                true,
                            );
                        },
                        Err(_) => {},
                    }
                }
            } else {
                match parse_groups(l1, 0) {
                    Ok(groups) => {
                        let r = RuleView { selectors: groups, properties: Seq::empty() };
                        lemma_rules_rel_push(rules1, rules2, r, r);
                        lemma_parse_lines_indent(
                            lines1,
                            lines2,
                            i + 1,
                            rules1.push(r),
                            rules2.push(r),
                            true,
                        );
                    },
                    Err(_) => {},
                }
            }
        } else {
            if in_rule && rules1.len() > 0 {
                lemma_prop_line_indent_invariant(l1, l2);
                match parse_prop_line(l1) {
                    Ok(p1) => {
                        let p2 = parse_prop_line(l2)->Ok_0;
                        lemma_rules_rel_push_prop(rules1, rules2, p1, p2);
                        lemma_parse_lines_indent(
                            lines1,
                            lines2,
                            i + 1,
                            push_property(rules1, p1),
                            push_property(rules2, p2),
                            true,
                        );
                    },
                    Err(_) => {},
                }
            }
        }
    }
}

/// Law: two documents that differ only in the indentation of their property
/// lines parse alike: they fail together, and on success their trees agree
/// in every rule, selector, name and value; only stored depths may differ.
pub proof fn lemma_indentation_tolerance(s1: Seq<char>, s2: Seq<char>)
    requires
        same_but_indent_docs(lines_of(s1), lines_of(s2)),
    ensures
        spec_parse(s1) is Err <==> spec_parse(s2) is Err,
        spec_parse(s1) matches Ok(r1) ==> spec_parse(s2) matches Ok(r2)
            && rules_same_but_indent(r1, r2),
{
    lemma_parse_lines_indent(lines_of(s1), lines_of(s2), 0, Seq::empty(), Seq::empty(), false);
}

} // verus!

