//! Parses stylesheet source text into a sequence of rule nodes.
//!
//! The grammar is line-oriented. A line of spaces alone (or no characters)
//! is a blank line and becomes a rule with no selectors. A line starting
//! with a space is a property line and joins the rule opened by the nearest
//! selector line above it, as long as no blank line stands between. Any
//! other line is a selector line and opens a rule.
//!
//! On a selector line the token classes are fixed: an identifier is a run
//! of alphanumeric characters and hyphens; a prefix sigil is `.` or `#`,
//! attached to the identifier that follows it; `*` is the universal marker;
//! a separator is `>`, `+` or `~`. Each unit — the universal marker, or an
//! optionally prefixed identifier, with at most one separator taken after
//! it — forms one selector group of its own; there is no group-separator
//! symbol, and any other character fails the parse.
//!
//! On a property line the name runs to the first space or colon; one colon
//! after the name is consumed as punctuation; the rest splits on spaces
//! into value tokens.

use vstd::prelude::*;

use crate::AstNode;
use crate::FragView;
use crate::PropView;
use crate::RuleView;
use crate::frag_view;
use crate::is_property;
use crate::is_rule;
use crate::is_selector;
use crate::prop_view;
use crate::rule_view;
use crate::sel_frags;

verus! {

/// Why a parse failed.
#[derive(Debug, Clone, Copy, PartialEq, Eq)]
pub enum ParseErrorKind {
    /// An indented line stands where no rule is open to receive it.
    PropertyBeforeSelector,
    /// A property line whose name is missing: its first content character is a colon.
    MissingName,
    /// A prefix sigil with no identifier attached to it.
    MissingIdentifier,
    /// A character that no selector token may contain.
    UnexpectedCharacter,
}

/// A parse failure: the whole parse stops at the first grammar mismatch.
/// `line` and `column` are one-based and point at the offending character.
#[derive(Debug, Clone, Copy, PartialEq, Eq)]
pub struct ParseError {
    pub line: usize,
    pub column: usize,
    pub kind: ParseErrorKind,
}

/// A grammar mismatch within one line: a zero-based column and the reason.
pub struct LineError {
    pub col: int,
    pub kind: ParseErrorKind,
}

/// A grammar mismatch within a document: a one-based line and column and the reason.
pub struct ErrView {
    pub line: int,
    pub col: int,
    pub kind: ParseErrorKind,
}

/// An identifier character: alphanumeric or a hyphen.
pub open spec fn is_ident_char(c: char) -> bool {
    ||| 'a' as u32 <= c as u32 <= 'z' as u32
    ||| 'A' as u32 <= c as u32 <= 'Z' as u32
    ||| '0' as u32 <= c as u32 <= '9' as u32
    ||| c == '-'
}

/// A prefix sigil: the class or id marker attached to an identifier.
pub open spec fn is_prefix_char(c: char) -> bool {
    c == '.' || c == '#'
}

/// A combinator symbol between selector parts.
pub open spec fn is_sep_char(c: char) -> bool {
    c == '>' || c == '+' || c == '~'
}

/// A character that may stand in a property name: anything but the space
/// that ends the name and the colon that delimits it from the values.
pub open spec fn is_name_char(c: char) -> bool {
    c != ' ' && c != ':'
}

/// The first position at or after `i` that does not hold a space,
/// or the end of the line.
pub open spec fn skip_spaces(line: Seq<char>, i: int) -> int
    decreases line.len() - i,
{
    if 0 <= i < line.len() && line[i] == ' ' {
        skip_spaces(line, i + 1)
    } else {
        i
    }
}

/// The end of the identifier run that starts at `i`.
pub open spec fn ident_end(line: Seq<char>, i: int) -> int
    decreases line.len() - i,
{
    if 0 <= i < line.len() && is_ident_char(line[i]) {
        ident_end(line, i + 1)
    } else {
        i
    }
}

/// The end of the property-name run that starts at `i`.
pub open spec fn name_end(line: Seq<char>, i: int) -> int
    decreases line.len() - i,
{
    if 0 <= i < line.len() && is_name_char(line[i]) {
        name_end(line, i + 1)
    } else {
        i
    }
}

/// The end of the value token that starts at `i`: values run to the next space.
pub open spec fn value_end(line: Seq<char>, i: int) -> int
    decreases line.len() - i,
{
    if 0 <= i < line.len() && line[i] != ' ' {
        value_end(line, i + 1)
    } else {
        i
    }
}

/// Bounds and character facts for `skip_spaces`.
pub proof fn lemma_skip_spaces(line: Seq<char>, i: int)
    ensures
        0 <= i <= line.len() ==> {
            &&& i <= skip_spaces(line, i) <= line.len()
            &&& forall|j: int| i <= j < skip_spaces(line, i) ==> line[j] == ' '
            &&& skip_spaces(line, i) < line.len() ==> line[skip_spaces(line, i)] != ' '
        },
    decreases line.len() - i,
{
    if 0 <= i < line.len() && line[i] == ' ' {
        lemma_skip_spaces(line, i + 1);
    }
}

/// Bounds and character facts for `ident_end`.
pub proof fn lemma_ident_end(line: Seq<char>, i: int)
    ensures
        0 <= i <= line.len() ==> {
            &&& i <= ident_end(line, i) <= line.len()
            &&& forall|j: int| i <= j < ident_end(line, i) ==> is_ident_char(line[j])
            &&& ident_end(line, i) < line.len() ==> !is_ident_char(line[ident_end(line, i)])
        },
    decreases line.len() - i,
{
    if 0 <= i < line.len() && is_ident_char(line[i]) {
        lemma_ident_end(line, i + 1);
    }
}

/// Bounds and character facts for `name_end`.
pub proof fn lemma_name_end(line: Seq<char>, i: int)
    ensures
        0 <= i <= line.len() ==> {
            &&& i <= name_end(line, i) <= line.len()
            &&& forall|j: int| i <= j < name_end(line, i) ==> is_name_char(line[j])
            &&& name_end(line, i) < line.len() ==> !is_name_char(line[name_end(line, i)])
        },
    decreases line.len() - i,
{
    if 0 <= i < line.len() && is_name_char(line[i]) {
        lemma_name_end(line, i + 1);
    }
}

/// Bounds and character facts for `value_end`.
pub proof fn lemma_value_end(line: Seq<char>, i: int)
    ensures
        0 <= i <= line.len() ==> {
            &&& i <= value_end(line, i) <= line.len()
            &&& forall|j: int| i <= j < value_end(line, i) ==> line[j] != ' '
            &&& value_end(line, i) < line.len() ==> line[value_end(line, i)] == ' '
        },
    decreases line.len() - i,
{
    if 0 <= i < line.len() && line[i] != ' ' {
        lemma_value_end(line, i + 1);
    }
}

/// `skip_spaces` lands on the one position bounded by spaces below and a
/// non-space or the end of the line at it.
pub proof fn lemma_skip_spaces_is(line: Seq<char>, i: int, m: int)
    requires
        0 <= i <= m <= line.len(),
        forall|j: int| i <= j < m ==> line[j] == ' ',
        m < line.len() ==> line[m] != ' ',
    ensures
        skip_spaces(line, i) == m,
    decreases m - i,
{
    if i < m {
        lemma_skip_spaces_is(line, i + 1, m);
    }
}

/// `value_end` lands on the one position bounded by non-spaces below and a
/// space or the end of the line at it.
pub proof fn lemma_value_end_is(line: Seq<char>, i: int, m: int)
    requires
        0 <= i <= m <= line.len(),
        forall|j: int| i <= j < m ==> line[j] != ' ',
        m < line.len() ==> line[m] == ' ',
    ensures
        value_end(line, i) == m,
    decreases m - i,
{
    if i < m {
        lemma_value_end_is(line, i + 1, m);
    }
}

/// Scanning after a prefix looks only at the suffix: `skip_spaces` on
/// `p + t` past `p` is `skip_spaces` on `t`, shifted.
pub proof fn lemma_skip_spaces_shift(p: Seq<char>, t: Seq<char>, i: int)
    requires
        0 <= i <= t.len(),
    ensures
        skip_spaces(p + t, p.len() + i) == p.len() + skip_spaces(t, i),
    decreases t.len() - i,
{
    if i < t.len() && t[i] == ' ' {
        assert((p + t)[p.len() + i] == t[i]);
        lemma_skip_spaces_shift(p, t, i + 1);
    } else {
        if p.len() + i < (p + t).len() {
            assert((p + t)[p.len() + i] == t[i]);
        }
    }
}

/// `value_end` on `p + t` past `p` is `value_end` on `t`, shifted.
pub proof fn lemma_value_end_shift(p: Seq<char>, t: Seq<char>, i: int)
    requires
        0 <= i <= t.len(),
    ensures
        value_end(p + t, p.len() + i) == p.len() + value_end(t, i),
    decreases t.len() - i,
{
    if i < t.len() && t[i] != ' ' {
        assert((p + t)[p.len() + i] == t[i]);
        lemma_value_end_shift(p, t, i + 1);
    } else {
        if p.len() + i < (p + t).len() {
            assert((p + t)[p.len() + i] == t[i]);
        }
    }
}

/// `name_end` on `p + t` past `p` is `name_end` on `t`, shifted.
pub proof fn lemma_name_end_shift(p: Seq<char>, t: Seq<char>, i: int)
    requires
        0 <= i <= t.len(),
    ensures
        name_end(p + t, p.len() + i) == p.len() + name_end(t, i),
    decreases t.len() - i,
{
    if i < t.len() && is_name_char(t[i]) {
        assert((p + t)[p.len() + i] == t[i]);
        lemma_name_end_shift(p, t, i + 1);
    } else {
        if p.len() + i < (p + t).len() {
            assert((p + t)[p.len() + i] == t[i]);
        }
    }
}

/// The index of the first line feed in `s`, or `s.len()` if there is none.
pub open spec fn first_nl(s: Seq<char>) -> int
    decreases s.len(),
{
    if s.len() == 0 {
        0
    } else if s[0] == '\n' {
        0
    } else {
        1 + first_nl(s.drop_first())
    }
}

/// Bounds and character facts for `first_nl`.
pub proof fn lemma_first_nl(s: Seq<char>)
    ensures
        0 <= first_nl(s) <= s.len(),
        forall|j: int| 0 <= j < first_nl(s) ==> s[j] != '\n',
        first_nl(s) < s.len() ==> s[first_nl(s)] == '\n',
    decreases s.len(),
{
    if s.len() > 0 && s[0] != '\n' {
        lemma_first_nl(s.drop_first());
        assert forall|j: int| 0 <= j < first_nl(s) implies s[j] != '\n' by {
            if j > 0 {
                assert(s[j] == s.drop_first()[j - 1]);
            }
        }
    }
}

/// The lines of a document: the segments between line feeds. A trailing
/// line feed closes the last line and opens no new one, so `"a\n"` has the
/// one line `"a"`, `"\n"` has the one empty line, and `""` has no lines.
pub open spec fn lines_of(s: Seq<char>) -> Seq<Seq<char>>
    decreases s.len(),
{
    if s.len() == 0 {
        Seq::empty()
    } else {
        let i = first_nl(s);
        proof {
            lemma_first_nl(s);
        }
        if i == s.len() {
            seq![s]
        } else {
            seq![s.take(i)] + lines_of(s.skip(i + 1))
        }
    }
}

/// `first_nl` is the one position bounded by non-line-feeds below and a
/// line feed or the end of the sequence at it.
pub proof fn lemma_first_nl_is(s: Seq<char>, m: int)
    requires
        0 <= m <= s.len(),
        forall|j: int| 0 <= j < m ==> s[j] != '\n',
        m < s.len() ==> s[m] == '\n',
    ensures
        first_nl(s) == m,
    decreases s.len(),
{
    if s.len() > 0 && s[0] != '\n' {
        assert forall|j: int| 0 <= j < m - 1 implies s.drop_first()[j] != '\n' by {
            assert(s.drop_first()[j] == s[j + 1]);
        }
        lemma_first_nl_is(s.drop_first(), m - 1);
    }
}

/// A line with no content: every character on it is a space.
pub open spec fn is_blank_line(line: Seq<char>) -> bool {
    forall|i: int| 0 <= i < line.len() ==> line[i] == ' '
}

/// One selector unit starting at the non-space position `i`: the universal
/// marker, a sigil with its identifier, or a bare identifier, then an
/// optional separator symbol after optional spaces. Returns the fragments of
/// the unit and the position after it.
pub open spec fn parse_unit(line: Seq<char>, i: int) -> Result<(Seq<FragView>, int), LineError> {
    let c = line[i];
    if c == '*' {
        Ok(take_separator(line, i + 1, seq![FragView::Asterisk]))
    } else if is_prefix_char(c) {
        let j = ident_end(line, i + 1);
        if j == i + 1 {
            Err(LineError { col: i, kind: ParseErrorKind::MissingIdentifier })
        } else {
            Ok(
                take_separator(
                    line,
                    j,
                    seq![
                        FragView::Prefix(seq![c]),
                        FragView::Identifier(line.subrange(i + 1, j)),
                    ],
                ),
            )
        }
    } else if is_ident_char(c) {
        let j = ident_end(line, i);
        Ok(take_separator(line, j, seq![FragView::Identifier(line.subrange(i, j))]))
    } else {
        Err(LineError { col: i, kind: ParseErrorKind::UnexpectedCharacter })
    }
}

/// After one selector unit: skip spaces and take one separator symbol into
/// the unit if one stands there.
pub open spec fn take_separator(line: Seq<char>, i: int, frags: Seq<FragView>) -> (
    Seq<FragView>,
    int,
) {
    let j = skip_spaces(line, i);
    if j < line.len() && is_sep_char(line[j]) {
        (frags.push(FragView::Separator(seq![line[j]])), j + 1)
    } else {
        (frags, j)
    }
}

/// `parse_unit` stays within the line and consumes at least one character.
pub proof fn lemma_parse_unit(line: Seq<char>, i: int)
    ensures
        0 <= i < line.len() ==> match parse_unit(line, i) {
            Ok((frags, k)) => i < k <= line.len(),
            Err(e) => 0 <= e.col < line.len(),
        },
{
    if 0 <= i < line.len() {
        lemma_ident_end(line, i);
        lemma_ident_end(line, i + 1);
        lemma_skip_spaces(line, i + 1);
        lemma_skip_spaces(line, ident_end(line, i));
        lemma_skip_spaces(line, ident_end(line, i + 1));
    }
}

/// The selector groups of a line from position `i` on: spaces, then a unit,
/// repeated to the end of the line. Each unit becomes one selector.
pub open spec fn parse_groups(line: Seq<char>, i: int) -> Result<
    Seq<Seq<FragView>>,
    LineError,
>
    decreases line.len() - i,
{
    proof {
        lemma_skip_spaces(line, i);
        lemma_parse_unit(line, skip_spaces(line, i));
    }
    if !(0 <= i <= line.len()) {
        Ok(Seq::empty())
    } else {
        let j = skip_spaces(line, i);
        if j == line.len() {
            Ok(Seq::empty())
        } else {
            match parse_unit(line, j) {
                Ok((frags, k)) => match parse_groups(line, k) {
                    Ok(groups) => Ok(seq![frags] + groups),
                    Err(e) => Err(e),
                },
                Err(e) => Err(e),
            }
        }
    }
}

/// `r` with the groups `acc` prepended to a successful outcome; a failure
/// passes through.
pub open spec fn groups_with_prefix(
    acc: Seq<Seq<FragView>>,
    r: Result<Seq<Seq<FragView>>, LineError>,
) -> Result<Seq<Seq<FragView>>, LineError> {
    match r {
        Ok(groups) => Ok(acc + groups),
        Err(e) => Err(e),
    }
}

/// A failed `parse_groups` points at a character of the line.
pub proof fn lemma_parse_groups_err(line: Seq<char>, i: int)
    ensures
        parse_groups(line, i) matches Err(e) ==> 0 <= e.col < line.len(),
    decreases line.len() - i,
{
    if 0 <= i <= line.len() {
        lemma_skip_spaces(line, i);
        let j = skip_spaces(line, i);
        if j < line.len() {
            lemma_parse_unit(line, j);
            match parse_unit(line, j) {
                Ok((frags, k)) => {
                    lemma_parse_groups_err(line, k);
                },
                Err(_) => {},
            }
        }
    }
}

/// The value tokens of a property line from position `i` on: maximal runs
/// of non-space characters, in source order.
pub open spec fn parse_values(line: Seq<char>, i: int) -> Seq<Seq<char>>
    decreases line.len() - i,
{
    proof {
        lemma_skip_spaces(line, i);
        lemma_value_end(line, skip_spaces(line, i));
    }
    if !(0 <= i <= line.len()) {
        Seq::empty()
    } else {
        let j = skip_spaces(line, i);
        if j == line.len() {
            Seq::empty()
        } else {
            let k = value_end(line, j);
            seq![line.subrange(j, k)] + parse_values(line, k)
        }
    }
}

/// `parse_values` on `p + t` past `p` reads the tokens of `t` alone.
pub proof fn lemma_parse_values_shift(p: Seq<char>, t: Seq<char>, i: int)
    requires
        0 <= i <= t.len(),
    ensures
        parse_values(p + t, p.len() + i) == parse_values(t, i),
    decreases t.len() - i,
{
    lemma_skip_spaces_shift(p, t, i);
    lemma_skip_spaces(t, i);
    let j = skip_spaces(t, i);
    if j < t.len() {
        lemma_value_end_shift(p, t, j);
        lemma_value_end(t, j);
        let k = value_end(t, j);
        assert((p + t).subrange(p.len() + j, p.len() + k) =~= t.subrange(j, k));
        lemma_value_end(t, j + 1);
        assert(k > j);
        lemma_parse_values_shift(p, t, k);
    }
}

/// Every token that `parse_values` yields is non-empty and holds no space.
pub proof fn lemma_parse_values_tokens(line: Seq<char>, i: int)
    ensures
        forall|t: int|
            0 <= t < parse_values(line, i).len() ==> (#[trigger] parse_values(line, i)[t]).len()
                > 0 && forall|j: int|
                0 <= j < parse_values(line, i)[t].len() ==> parse_values(line, i)[t][j] != ' ',
    decreases line.len() - i,
{
    if 0 <= i <= line.len() {
        lemma_skip_spaces(line, i);
        let j = skip_spaces(line, i);
        if j < line.len() {
            lemma_value_end(line, j);
            lemma_value_end(line, j + 1);
            let k = value_end(line, j);
            lemma_parse_values_tokens(line, k);
            assert forall|t: int| 0 <= t < parse_values(line, i).len() implies (
            #[trigger] parse_values(line, i)[t]).len() > 0 && forall|m: int|
                0 <= m < parse_values(line, i)[t].len() ==> parse_values(line, i)[t][m]
                    != ' ' by {
                if t == 0 {
                    assert(parse_values(line, i)[0] == line.subrange(j, k));
                } else {
                    assert(parse_values(line, i)[t] == parse_values(line, k)[t - 1]);
                }
            }
        }
    }
}

/// One property line: leading spaces give the indentation depth, the name
/// runs to the first space or colon, one colon after optional spaces is
/// consumed as punctuation, and the rest splits into value tokens.
pub open spec fn parse_prop_line(line: Seq<char>) -> Result<PropView, LineError> {
    let ind = skip_spaces(line, 0);
    if !(0 <= ind < line.len()) {
        Err(LineError { col: 0, kind: ParseErrorKind::MissingName })
    } else if line[ind] == ':' {
        Err(LineError { col: ind, kind: ParseErrorKind::MissingName })
    } else {
        let ne = name_end(line, ind);
        let p = skip_spaces(line, ne);
        let after_colon = if p < line.len() && line[p] == ':' {
            p + 1
        } else {
            p
        };
        Ok(
            PropView {
                indent: ind as nat,
                name: line.subrange(ind, ne),
                values: parse_values(line, after_colon),
            },
        )
    }
}

/// The blank rule: an empty selector list and no properties.
pub open spec fn blank_rule() -> RuleView {
    RuleView { selectors: Seq::empty(), properties: Seq::empty() }
}

/// `rules` with `p` appended to the property list of its last rule.
pub open spec fn push_property(rules: Seq<RuleView>, p: PropView) -> Seq<RuleView> {
    let last = rules[rules.len() - 1];
    rules.update(
        rules.len() - 1,
        RuleView { selectors: last.selectors, properties: last.properties.push(p) },
    )
}

/// Parses the lines from index `i` on. `rules` holds the rules of the lines
/// before `i`; `in_rule` says whether the line before `i` belonged to a rule
/// that an indented line may still join.
pub open spec fn parse_lines(
    lines: Seq<Seq<char>>,
    i: int,
    rules: Seq<RuleView>,
    in_rule: bool,
) -> Result<Seq<RuleView>, ErrView>
    decreases lines.len() - i,
{
    if !(0 <= i < lines.len()) {
        Ok(rules)
    } else {
        let line = lines[i];
        if is_blank_line(line) {
            parse_lines(lines, i + 1, rules.push(blank_rule()), false)
        } else if line[0] == ' ' {
            if !in_rule || rules.len() == 0 {
                Err(
                    ErrView {
                        line: i + 1,
                        col: skip_spaces(line, 0) + 1,
                        kind: ParseErrorKind::PropertyBeforeSelector,
                    },
                )
            } else {
                match parse_prop_line(line) {
                    Ok(p) => parse_lines(lines, i + 1, push_property(rules, p), true),
                    Err(e) => Err(ErrView { line: i + 1, col: e.col + 1, kind: e.kind }),
                }
            }
        } else {
            match parse_groups(line, 0) {
                Ok(groups) => parse_lines(
                    lines,
                    i + 1,
                    rules.push(RuleView { selectors: groups, properties: Seq::empty() }),
                    true,
                ),
                Err(e) => Err(ErrView { line: i + 1, col: e.col + 1, kind: e.kind }),
            }
        }
    }
}

/// The meaning of a whole document: its lines parsed in order, starting
/// outside any rule.
pub open spec fn spec_parse(s: Seq<char>) -> Result<Seq<RuleView>, ErrView> {
    parse_lines(lines_of(s), 0, Seq::empty(), false)
}

/// The characters of `s`, in order, as a vector.
fn chars_of(s: &str) -> (v: Vec<char>)
    ensures
        v@ == s@,
{
    broadcast use vstd::string::group_string_axioms;

    let mut v: Vec<char> = Vec::new();
    for c in it: s.chars()
        invariant
            it.seq() == s@,
            v@ == it.seq().take(it.index() as int),
    {
        v.push(c);
    }
    assert(v@ =~= s@);
    v
}

/// The characters of `line` from `a` up to `b`, as a string.
fn string_from_range(line: &Vec<char>, a: usize, b: usize) -> (s: String)
    requires
        a <= b <= line@.len(),
    ensures
        s@ == line@.subrange(a as int, b as int),
{
    let mut s = String::new();
    let mut i: usize = a;
    while i < b
        invariant
            a <= i <= b <= line@.len(),
            s@ == line@.subrange(a as int, i as int),
        decreases b - i,
    {
        crate::push_char(&mut s, line[i]);
        i = i + 1;
        assert(s@ =~= line@.subrange(a as int, i as int));
    }
    s
}

/// A string holding the one character `c`.
fn string_of_char(c: char) -> (s: String)
    ensures
        s@ == seq![c],
{
    let mut s = String::new();
    crate::push_char(&mut s, c);
    assert(s@ =~= seq![c]);
    s
}

/// The first position at or after `from` that does not hold a space.
fn scan_spaces(line: &Vec<char>, from: usize) -> (r: usize)
    requires
        from <= line@.len(),
    ensures
        r as int == skip_spaces(line@, from as int),
        from <= r <= line@.len(),
{
    let mut i: usize = from;
    while i < line.len() && line[i] == ' '
        invariant
            from <= i <= line@.len(),
            skip_spaces(line@, from as int) == skip_spaces(line@, i as int),
        decreases line@.len() - i,
    {
        i = i + 1;
    }
    proof {
        lemma_skip_spaces(line@, i as int);
    }
    i
}

/// Splits a document into its lines, as `lines_of` describes them.
fn split_lines(chars: &Vec<char>) -> (lines: Vec<Vec<char>>)
    ensures
        lines@.map_values(|l: Vec<char>| l@) == lines_of(chars@),
{
    let ghost s = chars@;
    let mut lines: Vec<Vec<char>> = Vec::new();
    let mut cur: Vec<char> = Vec::new();
    let mut j: usize = 0;
    let ghost mut start: int = 0;
    proof {
        assert(s.skip(0) =~= s);
        assert(lines@.map_values(|l: Vec<char>| l@) + lines_of(s) =~= lines_of(s));
    }
    while j < chars.len()
        invariant
            0 <= start <= j <= s.len(),
            s == chars@,
            cur@ == s.subrange(start, j as int),
            forall|k: int| start <= k < j ==> s[k] != '\n',
            lines_of(s) == lines@.map_values(|l: Vec<char>| l@) + lines_of(s.skip(start)),
        decreases s.len() - j,
    {
        let c = chars[j];
        if c == '\n' {
            proof {
                let t = s.skip(start);
                assert forall|k: int| 0 <= k < j - start implies t[k] != '\n' by {
                    assert(t[k] == s[k + start]);
                }
                assert(t[j - start] == s[j as int]);
                lemma_first_nl_is(t, j - start);
                assert(t.take(j - start) =~= cur@);
                assert(t.skip(j - start + 1) =~= s.skip(j + 1));
                assert(lines_of(t) == seq![cur@] + lines_of(s.skip(j + 1)));
                assert((lines@.push(cur)).map_values(|l: Vec<char>| l@) =~= lines@.map_values(
                    |l: Vec<char>| l@,
                ).push(cur@));
                assert(lines_of(s) =~= (lines@.push(cur)).map_values(|l: Vec<char>| l@)
                    + lines_of(s.skip(j + 1)));
            }
            lines.push(cur);
            cur = Vec::new();
            j = j + 1;
            proof {
                start = j as int;
                assert(cur@ =~= s.subrange(start, j as int));
            }
        } else {
            cur.push(c);
            j = j + 1;
            assert(cur@ =~= s.subrange(start, j as int));
        }
    }
    proof {
        let t = s.skip(start);
        assert forall|k: int| 0 <= k < t.len() implies t[k] != '\n' by {
            assert(t[k] == s[k + start]);
        }
        lemma_first_nl_is(t, t.len() as int);
    }
    if cur.len() > 0 {
        proof {
            let t = s.skip(start);
            assert(t =~= cur@);
            assert(lines_of(t) == seq![t]);
            assert((lines@.push(cur)).map_values(|l: Vec<char>| l@) =~= lines@.map_values(
                |l: Vec<char>| l@,
            ).push(cur@));
            assert(lines_of(s) =~= (lines@.push(cur)).map_values(|l: Vec<char>| l@));
        }
        lines.push(cur);
    } else {
        proof {
            let t = s.skip(start);
            assert(t =~= cur@);
            assert(t.len() == 0);
            assert(lines_of(s) =~= lines@.map_values(|l: Vec<char>| l@));
        }
    }
    lines
}

/// Whether the line is blank: nothing but spaces stands on it.
fn line_is_blank(line: &Vec<char>) -> (b: bool)
    ensures
        b == is_blank_line(line@),
{
    let mut i: usize = 0;
    while i < line.len()
        invariant
            0 <= i <= line@.len(),
            forall|k: int| 0 <= k < i ==> line@[k] == ' ',
        decreases line@.len() - i,
    {
        if line[i] != ' ' {
            return false;
        }
        i = i + 1;
    }
    true
}

/// Whether `c` is an identifier character, as `is_ident_char` says.
fn ident_char(c: char) -> (b: bool)
    ensures
        b == is_ident_char(c),
{
    let u = c as u32;
    ('a' as u32 <= u && u <= 'z' as u32) || ('A' as u32 <= u && u <= 'Z' as u32) || ('0' as u32
        <= u && u <= '9' as u32) || c == '-'
}

/// The end of the identifier run that starts at `from`.
fn scan_ident(line: &Vec<char>, from: usize) -> (r: usize)
    requires
        from <= line@.len(),
    ensures
        r as int == ident_end(line@, from as int),
        from <= r <= line@.len(),
{
    let mut i: usize = from;
    while i < line.len() && ident_char(line[i])
        invariant
            from <= i <= line@.len(),
            ident_end(line@, from as int) == ident_end(line@, i as int),
        decreases line@.len() - i,
    {
        i = i + 1;
    }
    proof {
        lemma_ident_end(line@, i as int);
    }
    i
}

/// The end of the property-name run that starts at `from`.
fn scan_name(line: &Vec<char>, from: usize) -> (r: usize)
    requires
        from <= line@.len(),
    ensures
        r as int == name_end(line@, from as int),
        from <= r <= line@.len(),
{
    let mut i: usize = from;
    while i < line.len() && line[i] != ' ' && line[i] != ':'
        invariant
            from <= i <= line@.len(),
            name_end(line@, from as int) == name_end(line@, i as int),
        decreases line@.len() - i,
    {
        i = i + 1;
    }
    proof {
        lemma_name_end(line@, i as int);
    }
    i
}

/// The end of the value token that starts at `from`.
fn scan_value(line: &Vec<char>, from: usize) -> (r: usize)
    requires
        from <= line@.len(),
    ensures
        r as int == value_end(line@, from as int),
        from <= r <= line@.len(),
{
    let mut i: usize = from;
    while i < line.len() && line[i] != ' '
        invariant
            from <= i <= line@.len(),
            value_end(line@, from as int) == value_end(line@, i as int),
        decreases line@.len() - i,
    {
        i = i + 1;
    }
    proof {
        lemma_value_end(line@, i as int);
    }
    i
}

/// Parses one selector line into its `Selector` nodes, one per selector
/// group, as `parse_groups` describes. A failure carries the zero-based
/// column of the offending character.
fn parse_selector_line(line: &Vec<char>) -> (r: Result<Vec<AstNode>, (usize, ParseErrorKind)>)
    ensures
        match r {
            Ok(v) => parse_groups(line@, 0) matches Ok(groups) && {
                &&& v@.len() == groups.len()
                &&& forall|i: int|
                    0 <= i < v@.len() ==> is_selector(#[trigger] v@[i]) && sel_frags(v@[i])
                        == groups[i]
            },
            Err(ck) => parse_groups(line@, 0) matches Err(e) && ck.0 as int == e.col && ck.1
                == e.kind,
        },
{
    let mut groups: Vec<AstNode> = Vec::new();
    let mut pos: usize = 0;
    loop
        invariant
            pos <= line@.len(),
            groups_with_prefix(
                groups@.map_values(|n: AstNode| sel_frags(n)),
                parse_groups(line@, pos as int),
            ) == parse_groups(line@, 0),
            forall|i: int| 0 <= i < groups@.len() ==> is_selector(#[trigger] groups@[i]),
        decreases line@.len() - pos,
    {
        let ghost acc = groups@.map_values(|n: AstNode| sel_frags(n));
        let j = scan_spaces(line, pos);
        if j == line.len() {
            proof {
                assert(parse_groups(line@, pos as int) == Ok::<_, LineError>(
                    Seq::<Seq<FragView>>::empty(),
                ));
                assert(acc + Seq::<Seq<FragView>>::empty() =~= acc);
            }
            return Ok(groups);
        }
        let c = line[j];
        let mut frags: Vec<AstNode> = Vec::new();
        let after: usize;
        if c == '*' {
            frags.push(AstNode::Asterisk(true));
            after = j + 1;
            proof {
                assert(frags@.map_values(|n: AstNode| frag_view(n)) =~= seq![
                    FragView::Asterisk,
                ]);
            }
        } else if c == '.' || c == '#' {
            let ie = scan_ident(line, j + 1);
            if ie == j + 1 {
                proof {
                    assert(parse_groups(line@, pos as int) matches Err(e) && e.col == j as int
                        && e.kind == ParseErrorKind::MissingIdentifier);
                }
                return Err((j, ParseErrorKind::MissingIdentifier));
            }
            frags.push(AstNode::Prefix(string_of_char(c)));
            frags.push(AstNode::Identifier(string_from_range(line, j + 1, ie)));
            after = ie;
            proof {
                assert(frags@.map_values(|n: AstNode| frag_view(n)) =~= seq![
                    FragView::Prefix(seq![c]),
                    FragView::Identifier(line@.subrange(j + 1, ie as int)),
                ]);
            }
        } else if ident_char(c) {
            let ie = scan_ident(line, j);
            proof {
                lemma_ident_end(line@, j as int);
            }
            frags.push(AstNode::Identifier(string_from_range(line, j, ie)));
            after = ie;
            proof {
                assert(frags@.map_values(|n: AstNode| frag_view(n)) =~= seq![
                    FragView::Identifier(line@.subrange(j as int, ie as int)),
                ]);
            }
        } else {
            proof {
                assert(parse_groups(line@, pos as int) matches Err(e) && e.col == j as int
                    && e.kind == ParseErrorKind::UnexpectedCharacter);
            }
            return Err((j, ParseErrorKind::UnexpectedCharacter));
        }
        let ghost unit_frags = frags@.map_values(|n: AstNode| frag_view(n));
        let j2 = scan_spaces(line, after);
        let k: usize;
        if j2 < line.len() && (line[j2] == '>' || line[j2] == '+' || line[j2] == '~') {
            frags.push(AstNode::Separator(string_of_char(line[j2])));
            k = j2 + 1;
        } else {
            k = j2;
        }
        proof {
            let uf = frags@.map_values(|n: AstNode| frag_view(n));
            assert(uf =~= take_separator(line@, after as int, unit_frags).0);
            assert(k as int == take_separator(line@, after as int, unit_frags).1);
            assert(parse_unit(line@, j as int) == Ok::<_, LineError>((uf, k as int)));
            assert(parse_groups(line@, pos as int) == groups_with_prefix(
                seq![uf],
                parse_groups(line@, k as int),
            ));
            let acc2 = groups@.push(AstNode::Selector(frags)).map_values(
                |n: AstNode| sel_frags(n),
            );
            assert(acc2 =~= acc.push(uf));
            match parse_groups(line@, k as int) {
                Ok(rest) => {
                    assert(acc + (seq![uf] + rest) =~= acc.push(uf) + rest);
                },
                Err(_) => {},
            }
        }
        groups.push(AstNode::Selector(frags));
        pos = k;
    }
}

/// Parses one indented line into a `Property` node, as `parse_prop_line`
/// describes. A failure carries the zero-based column of the offending
/// character.
fn parse_property_line(line: &Vec<char>) -> (r: Result<AstNode, (usize, ParseErrorKind)>)
    requires
        !is_blank_line(line@),
    ensures
        match r {
            Ok(node) => parse_prop_line(line@) matches Ok(p) && is_property(node) && prop_view(
                node,
            ) == p,
            Err(ck) => parse_prop_line(line@) matches Err(e) && ck.0 as int == e.col && ck.1
                == e.kind,
        },
{
    let ind = scan_spaces(line, 0);
    proof {
        lemma_skip_spaces(line@, 0);
        if ind == line.len() {
            assert(forall|k: int| 0 <= k < line@.len() ==> line@[k] == ' ');
            assert(false);
        }
    }
    if line[ind] == ':' {
        return Err((ind, ParseErrorKind::MissingName));
    }
    let ne = scan_name(line, ind);
    let p = scan_spaces(line, ne);
    let after: usize = if p < line.len() && line[p] == ':' {
        p + 1
    } else {
        p
    };
    let name = string_from_range(line, ind, ne);
    let mut values: Vec<String> = Vec::new();
    let mut pos: usize = after;
    proof {
        assert(values@.map_values(|s: String| s@) + parse_values(line@, after as int)
            =~= parse_values(line@, after as int));
    }
    loop
        invariant
            after <= pos <= line@.len(),
            parse_values(line@, after as int) == values@.map_values(|s: String| s@)
                + parse_values(line@, pos as int),
        ensures
            parse_values(line@, after as int) == values@.map_values(|s: String| s@),
        decreases line@.len() - pos,
    {
        let ghost acc = values@.map_values(|s: String| s@);
        let j = scan_spaces(line, pos);
        if j == line.len() {
            proof {
                assert(parse_values(line@, pos as int) =~= Seq::<Seq<char>>::empty());
                assert(parse_values(line@, after as int) =~= acc);
            }
            break;
        }
        let k = scan_value(line, j);
        proof {
            lemma_skip_spaces(line@, pos as int);
            lemma_value_end(line@, j + 1);
            assert(value_end(line@, j as int) == value_end(line@, j + 1));
            assert(parse_values(line@, pos as int) == seq![line@.subrange(j as int, k as int)]
                + parse_values(line@, k as int));
        }
        values.push(string_from_range(line, j, k));
        pos = k;
        proof {
            assert(values@.map_values(|s: String| s@) =~= acc.push(
                line@.subrange(j as int, k as int),
            ));
            match parse_values(line@, k as int) {
                rest => {
                    assert(acc + (seq![line@.subrange(j as int, k as int)] + rest) =~= acc.push(
                        line@.subrange(j as int, k as int),
                    ) + rest);
                },
            }
        }
    }
    let node = AstNode::Property { indent: ind, name, values };
    proof {
        assert(prop_view(node) == parse_prop_line(line@)->Ok_0);
    }
    Ok(node)
}

/// Parses stylesheet source text into its sequence of `Rule` nodes.
///
/// On success the returned nodes are well-formed rules whose models are
/// exactly what `spec_parse` gives for the text. On the first grammar
/// mismatch the whole parse fails with the one-based line and column of the
/// offending character; no partial tree is returned.
pub fn parse(source: &str) -> (r: Result<Vec<AstNode>, ParseError>)
    ensures
        match r {
            Ok(ast) => spec_parse(source@) matches Ok(rules) && {
                &&& ast@.len() == rules.len()
                &&& forall|i: int|
                    0 <= i < ast@.len() ==> is_rule(#[trigger] ast@[i]) && rule_view(ast@[i])
                        == rules[i]
            },
            Err(e) => spec_parse(source@) matches Err(ev) && e.line as int == ev.line
                && e.column as int == ev.col && e.kind == ev.kind,
        },
{
    let chars = chars_of(source);
    let lines = split_lines(&chars);
    let ghost lns = lines_of(source@);
    let mut rules: Vec<AstNode> = Vec::new();
    let mut in_rule: bool = false;
    let mut i: usize = 0;
    proof {
        assert(rules@.map_values(|n: AstNode| rule_view(n)) =~= Seq::<RuleView>::empty());
    }
    while i < lines.len()
        invariant
            i <= lines@.len(),
            lines@.map_values(|l: Vec<char>| l@) == lns,
            lns == lines_of(source@),
            forall|t: int| 0 <= t < rules@.len() ==> is_rule(#[trigger] rules@[t]),
            in_rule ==> rules@.len() > 0,
            parse_lines(lns, i as int, rules@.map_values(|n: AstNode| rule_view(n)), in_rule)
                == spec_parse(source@),
        decreases lines@.len() - i,
    {
        let ghost acc = rules@.map_values(|n: AstNode| rule_view(n));
        let line = &lines[i];
        proof {
            assert(line@ == lns[i as int]);
        }
        if line_is_blank(line) {
            let node = AstNode::Rule { selectors: Vec::new(), properties: Vec::new() };
            proof {
                assert(rule_view(node).selectors =~= blank_rule().selectors);
                assert(rule_view(node).properties =~= blank_rule().properties);
                assert(rules@.push(node).map_values(|n: AstNode| rule_view(n)) =~= acc.push(
                    blank_rule(),
                ));
            }
            rules.push(node);
            in_rule = false;
        } else if line[0] == ' ' {
            proof {
                lemma_skip_spaces(line@, 0);
                if skip_spaces(line@, 0) == line@.len() {
                    assert(forall|k: int| 0 <= k < line@.len() ==> line@[k] == ' ');
                    assert(false);
                }
            }
            if !in_rule {
                let col = scan_spaces(line, 0);
                let llen = line.len();
                proof {
                    assert((col as int) < llen as int);
                }
                return Err(
                    ParseError {
                        line: i + 1,
                        column: col + 1,
                        kind: ParseErrorKind::PropertyBeforeSelector,
                    },
                );
            }
            match parse_property_line(line) {
                Ok(prop) => {
                    let ghost p = prop_view(prop);
                    let ghost old_rules = rules@;
                    let node = rules.pop().unwrap();
                    proof {
                        assert(is_rule(node));
                    }
                    match node {
                        AstNode::Rule { selectors, mut properties } => {
                            let ghost old_props = properties@;
                            properties.push(prop);
                            let new_node = AstNode::Rule { selectors, properties };
                            proof {
                                let n = acc.len();
                                assert(acc[n - 1] == rule_view(old_rules[n - 1]));
                                assert(rule_view(new_node).properties =~= acc[n
                                    - 1].properties.push(p));
                                assert(rule_view(new_node).selectors == acc[n - 1].selectors);
                                assert(rule_view(new_node) == push_property(acc, p)[n - 1]);
                                assert(is_rule(new_node)) by {
                                    assert(forall|t: int|
                                        0 <= t < old_props.len() ==> is_property(
                                            #[trigger] old_props[t],
                                        ));
                                }
                                assert(rules@.push(new_node).map_values(
                                    |m: AstNode| rule_view(m),
                                ) =~= push_property(acc, p));
                            }
                            rules.push(new_node);
                        },
                        _ => {
                            proof {
                                assert(false);
                            }
                        },
                    }
                },
                Err((c, k)) => {
                    let llen = line.len();
                    proof {
                        assert((c as int) < llen as int);
                    }
                    return Err(ParseError { line: i + 1, column: c + 1, kind: k });
                },
            }
        } else {
            match parse_selector_line(line) {
                Ok(sels) => {
                    let node = AstNode::Rule { selectors: sels, properties: Vec::new() };
                    let ghost groups = parse_groups(line@, 0)->Ok_0;
                    proof {
                        assert(rule_view(node).selectors =~= groups);
                        assert(rule_view(node).properties =~= Seq::<PropView>::empty());
                        assert(rules@.push(node).map_values(|n: AstNode| rule_view(n))
                            =~= acc.push(
                            RuleView { selectors: groups, properties: Seq::empty() },
                        ));
                    }
                    rules.push(node);
                    in_rule = true;
                },
                Err((c, k)) => {
                    let llen = line.len();
                    proof {
                        lemma_parse_groups_err(line@, 0);
                        assert((c as int) < llen as int);
                    }
                    return Err(ParseError { line: i + 1, column: c + 1, kind: k });
                },
            }
        }
        i = i + 1;
    }
    Ok(rules)
}

} // verus!
