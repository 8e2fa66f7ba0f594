//! The grammar recognizer: matches raw INI text against the grammar and
//! produces a rule-tagged parse tree.
//!
//! The grammar works line by line, after the input's leading whitespace
//! is dropped.  A line is blank, a comment (first character `;`), a
//! section header (`[name]`, a top-level section when it starts in
//! column zero and a nested section when it is indented), or a
//! key/value pair (`key=value`, split at the first `=`, both sides
//! trimmed).  Everything else is a syntax error, as is a key/value pair
//! or nested section before the first top-level header, and a file with
//! no section at all.

use vstd::prelude::*;

use crate::parser::ParseError;
use crate::text::{
    is_ws, ws_run, tail_ws_run, trim, dist_to, split_lines, valid_name, valid_key, key_token,
    value_token, lemma_ws_run, lemma_tail_ws_run, lemma_trim, lemma_dist_to,
    lemma_split_lines_from, scan_ws, scan_back_ws, find_char, trimmed_copy, split_lines_vec,
};

verus! {

/// The rules of the grammar; every parse-tree node is tagged with one.
#[derive(Clone, Copy, Debug, PartialEq, Eq, Structural)]
pub enum Rule {
    /// The whole input.
    IniFile,
    /// A top-level section header.
    Section,
    /// An indented section header, opening a child scope.
    NestedSection,
    /// A `key=value` line.
    KeyValue,
    /// A line starting with the comment marker.
    Comment,
    /// The name captured inside a header's brackets.
    SectionName,
    /// The key token of a key/value pair.
    Key,
    /// The value token of a key/value pair.
    Value,
    /// The end-of-input marker.
    Eoi,
}

/// One node of the parse tree.  `indent` is the column of a header,
/// `text` the captured name, key or comment, and `value` the captured
/// value of a key/value pair; fields a rule does not use stay empty.
#[derive(Debug)]
pub struct ParseNode {
    pub rule: Rule,
    pub indent: usize,
    pub text: String,
    pub value: String,
}

/// Mathematical image of a parse-tree node.
#[verifier::ext_equal]
pub ghost struct NodeModel {
    pub rule: Rule,
    pub indent: nat,
    pub text: Seq<char>,
    pub value: Seq<char>,
}

impl View for ParseNode {
    type V = NodeModel;

    open spec fn view(&self) -> NodeModel {
        NodeModel {
            rule: self.rule,
            indent: self.indent as nat,
            text: self.text@,
            value: self.value@,
        }
    }
}

/// The root `file` node of a parse tree: its direct children in input
/// order, ending with the end-of-input marker.
#[derive(Debug)]
pub struct ParseTree {
    pub nodes: Vec<ParseNode>,
}

impl View for ParseTree {
    type V = Seq<NodeModel>;

    open spec fn view(&self) -> Seq<NodeModel> {
        self.nodes@.map_values(|nd: ParseNode| nd@)
    }
}

/// A trimmed line of the shape `[name]` with a non-empty name free of
/// brackets.
pub open spec fn header_shape(t: Seq<char>) -> bool {
    &&& t.len() >= 3
    &&& t[0] == '['
    &&& t[t.len() - 1] == ']'
    &&& forall|j: int| 1 <= j < t.len() - 1 ==> (#[trigger] t[j]) != '[' && t[j] != ']'
}

/// The name captured inside the brackets of a header line.
pub open spec fn header_name(t: Seq<char>) -> Seq<char> {
    t.subrange(1, t.len() - 1)
}

/// The end-of-input marker node.
pub open spec fn eoi_node() -> NodeModel {
    NodeModel { rule: Rule::Eoi, indent: 0, text: Seq::empty(), value: Seq::empty() }
}

/// How the grammar reads one line: no node (a blank line), a node, or
/// the rule it expected and failed to match.
pub open spec fn spec_classify(l: Seq<char>) -> Result<Option<NodeModel>, Rule> {
    let t = trim(l, false);
    if t.len() == 0 {
        Ok(None)
    } else if t[0] == ';' {
        Ok(Some(NodeModel { rule: Rule::Comment, indent: 0, text: t, value: Seq::empty() }))
    } else if t[0] == '[' {
        if header_shape(t) {
            let ind = ws_run(l, 0, false);
            Ok(
                Some(
                    NodeModel {
                        rule: if ind == 0 {
                            Rule::Section
                        } else {
                            Rule::NestedSection
                        },
                        indent: ind,
                        text: header_name(t),
                        value: Seq::empty(),
                    },
                ),
            )
        } else {
            Err(Rule::Section)
        }
    } else {
        let e = dist_to(t, 0, '=') as int;
        if e >= t.len() {
            Err(Rule::KeyValue)
        } else {
            let k = trim(t.subrange(0, e), false);
            if k.len() == 0 {
                Err(Rule::Key)
            } else {
                Ok(
                    Some(
                        NodeModel {
                            rule: Rule::KeyValue,
                            indent: 0,
                            text: k,
                            value: trim(t.subrange(e + 1, t.len() as int), false),
                        },
                    ),
                )
            }
        }
    }
}

/// The tokens a node of each rule carries, as the recognizer guarantees
/// them.
pub open spec fn node_ok(n: NodeModel) -> bool {
    match n.rule {
        Rule::Section => valid_name(n.text),
        Rule::NestedSection => valid_name(n.text),
        Rule::KeyValue => valid_key(n.text) && value_token(n.value),
        Rule::Comment => true,
        Rule::Eoi => true,
        _ => false,
    }
}

pub open spec fn nodes_ok(ns: Seq<NodeModel>) -> bool {
    forall|i: int| 0 <= i < ns.len() ==> node_ok(#[trigger] ns[i])
}

/// The recognizer's walk over the lines: classifies each in order,
/// rejects a key/value pair or nested section before the first
/// top-level header, and demands at least one section.
pub open spec fn nodes_from(
    lines: Seq<Seq<char>>,
    i: int,
    seen: bool,
    acc: Seq<NodeModel>,
) -> Result<Seq<NodeModel>, ParseError>
    decreases lines.len() - i,
{
    if i < 0 || i >= lines.len() {
        if seen {
            Ok(acc.push(eoi_node()))
        } else {
            Err(ParseError::SyntaxError { line: lines.len() as usize, expected: Rule::Section })
        }
    } else {
        match spec_classify(lines[i]) {
            Err(ru) => Err(ParseError::SyntaxError { line: (i + 1) as usize, expected: ru }),
            Ok(None) => nodes_from(lines, i + 1, seen, acc),
            Ok(Some(nd)) => {
                if nd.rule is Section {
                    nodes_from(lines, i + 1, true, acc.push(nd))
                } else if nd.rule is Comment {
                    nodes_from(lines, i + 1, seen, acc.push(nd))
                } else if seen {
                    nodes_from(lines, i + 1, seen, acc.push(nd))
                } else {
                    Err(ParseError::SyntaxError { line: (i + 1) as usize, expected: Rule::Section })
                }
            },
        }
    }
}

/// The input as recognition sees it: leading whitespace dropped.
pub open spec fn spec_content(s: Seq<char>) -> Seq<char> {
    s.skip(ws_run(s, 0, true) as int)
}

/// What recognizing an input yields: the children of the `file` node,
/// or the first syntax error.
pub open spec fn spec_recognize(s: Seq<char>) -> Result<Seq<NodeModel>, ParseError> {
    nodes_from(split_lines(spec_content(s)), 0, false, Seq::empty())
}


/// Whether `s[a..b]` has the shape of a header line.
#[verifier::loop_isolation(false)]
fn header_check(s: &str, a: usize, b: usize) -> (r: bool)
    requires
        a < b <= s@.len(),
    ensures
        r == header_shape(s@.subrange(a as int, b as int)),
{
    let ghost t = s@.subrange(a as int, b as int);
    if b - a < 3 || s.get_char(a) != '[' || s.get_char(b - 1) != ']' {
        return false;
    }
    let mut j: usize = a + 1;
    while j < b - 1
        invariant
            a + 1 <= j <= b - 1,
            forall|m: int| a + 1 <= m < j ==> (#[trigger] s@[m]) != '[' && s@[m] != ']',
        decreases b - j,
    {
        let c = s.get_char(j);
        if c == '[' || c == ']' {
            proof {
                assert(t[j - a] == s@[j as int]);
            }
            return false;
        }
        j = j + 1;
    }
    proof {
        assert forall|m: int| 1 <= m < t.len() - 1 implies (#[trigger] t[m]) != '[' && t[m]
            != ']' by {
            assert(t[m] == s@[a + m]);
        }
    }
    true
}


/// What matching one grammar rule against a standalone fragment
/// yields: the text the rule consumes — the fragment without its
/// surrounding whitespace — or a syntax error naming the rule.
pub open spec fn spec_match_rule(rule: Rule, s: Seq<char>) -> Result<Seq<char>, ParseError> {
    let t = trim(s, true);
    let nl_free = forall|j: int| 0 <= j < t.len() ==> (#[trigger] t[j]) != '\n';
    match rule {
        Rule::IniFile => match spec_recognize(s) {
            Ok(ns) => Ok(spec_content(s)),
            Err(e) => Err(e),
        },
        Rule::Section => if nl_free && header_shape(t) {
            Ok(t)
        } else {
            Err(ParseError::SyntaxError { line: 1, expected: Rule::Section })
        },
        Rule::NestedSection => if nl_free && header_shape(t) {
            Ok(t)
        } else {
            Err(ParseError::SyntaxError { line: 1, expected: Rule::NestedSection })
        },
        Rule::KeyValue => if nl_free && 0 < dist_to(t, 0, '=') < t.len() {
            Ok(t)
        } else {
            Err(ParseError::SyntaxError { line: 1, expected: Rule::KeyValue })
        },
        Rule::Comment => if nl_free && t.len() > 0 && t[0] == ';' {
            Ok(t)
        } else {
            Err(ParseError::SyntaxError { line: 1, expected: Rule::Comment })
        },
        Rule::SectionName => if valid_name(t) {
            Ok(t)
        } else {
            Err(ParseError::SyntaxError { line: 1, expected: Rule::SectionName })
        },
        Rule::Key => if key_token(t) {
            Ok(t)
        } else {
            Err(ParseError::SyntaxError { line: 1, expected: Rule::Key })
        },
        Rule::Value => if value_token(t) {
            Ok(t)
        } else {
            Err(ParseError::SyntaxError { line: 1, expected: Rule::Value })
        },
        Rule::Eoi => if t.len() == 0 {
            Ok(t)
        } else {
            Err(ParseError::SyntaxError { line: 1, expected: Rule::Eoi })
        },
    }
}

/// A node the grammar built carries valid tokens.
proof fn lemma_classify_ok(l: Seq<char>)
    requires
        forall|j: int| 0 <= j < l.len() ==> (#[trigger] l[j]) != '\n',
    ensures
        match spec_classify(l) {
            Ok(on) => match on {
                Some(nd) => node_ok(nd),
                None => true,
            },
            Err(ru) => true,
        },
{
    lemma_trim(l, false);
    lemma_ws_run(l, 0, false);
    lemma_tail_ws_run(l, l.len() as int, false);
    let t = trim(l, false);
    assert forall|j: int| 0 <= j < t.len() implies (#[trigger] t[j]) != '\n' by {
        assert(t[j] == l[ws_run(l, 0, false) + j]);
    }
    if t.len() == 0 {
    } else if t[0] == ';' {
    } else if t[0] == '[' {
        if header_shape(t) {
            let nm = header_name(t);
            assert forall|j: int|
                0 <= j < nm.len() implies (#[trigger] nm[j]) != '[' && nm[j] != ']' && nm[j]
                != '\n' by {
                assert(nm[j] == t[j + 1]);
            }
        }
    } else {
        lemma_dist_to(t, 0, '=');
        let e = dist_to(t, 0, '=') as int;
        if e < t.len() {
            let sub = t.subrange(0, e);
            lemma_trim(sub, false);
            lemma_ws_run(sub, 0, false);
            lemma_tail_ws_run(sub, sub.len() as int, false);
            let k = trim(sub, false);
            if k.len() > 0 {
                assert forall|j: int|
                    0 <= j < k.len() implies (#[trigger] k[j]) != '=' && k[j] != '\n' by {
                    assert(k[j] == sub[ws_run(sub, 0, false) + j]);
                    assert(sub[ws_run(sub, 0, false) + j] == t[ws_run(sub, 0, false) + j]);
                }
                assert(!is_ws(t[0], false));
                assert(sub[0] == t[0]);
                assert(ws_run(sub, 0, false) == 0);
                assert(k[0] == sub[0]);
                let vsub = t.subrange(e + 1, t.len() as int);
                lemma_trim(vsub, false);
                lemma_ws_run(vsub, 0, false);
                lemma_tail_ws_run(vsub, vsub.len() as int, false);
                let v = trim(vsub, false);
                assert forall|j: int| 0 <= j < v.len() implies (#[trigger] v[j]) != '\n' by {
                    assert(v[j] == vsub[ws_run(vsub, 0, false) + j]);
                    assert(vsub[ws_run(vsub, 0, false) + j] == t[e + 1 + ws_run(vsub, 0, false)
                        + j]);
                }
                assert(trim(k, false) == k);
                assert(trim(v, false) == v);
            }
        }
    }
}

/// Reads one line of the input as the grammar does.
#[verifier::loop_isolation(false)]
fn classify_line(line: &str) -> (r: Result<Option<ParseNode>, Rule>)
    ensures
        match r {
            Ok(on) => match on {
                Some(nd) => spec_classify(line@) == Ok::<Option<NodeModel>, Rule>(Some(nd@)),
                None => spec_classify(line@) == Ok::<Option<NodeModel>, Rule>(None),
            },
            Err(ru) => spec_classify(line@) == Err::<Option<NodeModel>, Rule>(ru),
        },
{
    let n = line.unicode_len();
    proof {
        lemma_trim(line@, false);
        lemma_ws_run(line@, 0, true);
        lemma_ws_run(line@, 0, false);
        lemma_tail_ws_run(line@, n as int, false);
    }
    let ghost t = trim(line@, false);
    let a = scan_ws(line, 0, false);
    if a == n {
        return Ok(None);
    }
    let b = scan_back_ws(line, n, false);
    proof {
        assert(b > a);
        assert(t =~= line@.subrange(a as int, b as int));
        assert(t.len() == b - a);
        assert(forall|j: int| 0 <= j < t.len() ==> #[trigger] t[j] == line@[a + j]);
    }
    let c0 = line.get_char(a);
    proof {
        assert(c0 == t[0]);
    }
    if c0 == ';' {
        let text = trimmed_copy(line, 0, n);
        proof {
            assert(line@.subrange(0, n as int) =~= line@);
        }
        return Ok(
            Some(ParseNode { rule: Rule::Comment, indent: 0, text, value: String::new() }),
        );
    }
    if c0 == '[' {
        if b - a < 3 || line.get_char(b - 1) != ']' {
            proof {
                assert(t[t.len() - 1] == line@[b - 1]);
                assert(!header_shape(t));
            }
            return Err(Rule::Section);
        }
        let mut j: usize = a + 1;
        while j < b - 1
            invariant
                a + 1 <= j <= b - 1,
                b <= n,
                n == line@.len(),
                t == trim(line@, false),
                t.len() == b - a,
                forall|m: int| 0 <= m < t.len() ==> #[trigger] t[m] == line@[a + m],
                forall|m: int| a + 1 <= m < j ==> (#[trigger] line@[m]) != '[' && line@[m] != ']',
            decreases b - j,
        {
            let c = line.get_char(j);
            if c == '[' || c == ']' {
                proof {
                    assert(t[j - a] == line@[j as int]);
                    assert(!header_shape(t));
                }
                return Err(Rule::Section);
            }
            j = j + 1;
        }
        proof {
            assert forall|m: int| 1 <= m < t.len() - 1 implies (#[trigger] t[m]) != '[' && t[m]
                != ']' by {
                assert(t[m] == line@[a + m]);
            }
            assert(t[t.len() - 1] == line@[b - 1]);
            assert(header_shape(t));
        }
        let name = line.substring_char(a + 1, b - 1).to_owned();
        proof {
            assert(name@ =~= header_name(t));
            assert(ws_run(line@, 0, false) == a);
        }
        let rule = if a == 0 {
            Rule::Section
        } else {
            Rule::NestedSection
        };
        return Ok(Some(ParseNode { rule, indent: a, text: name, value: String::new() }));
    }
    let e = find_char(line, a, '=');
    proof {
        lemma_dist_to(line@, a as int, '=');
        lemma_dist_to(t, 0, '=');
    }
    if e >= b {
        proof {
            assert forall|m: int| 0 <= m < t.len() implies (#[trigger] t[m]) != '=' by {
                assert(t[m] == line@[a + m]);
            }
            assert(dist_to(t, 0, '=') >= t.len());
        }
        return Err(Rule::KeyValue);
    }
    proof {
        assert(t[e - a] == line@[e as int]);
        assert forall|m: int| 0 <= m < e - a implies (#[trigger] t[m]) != '=' by {
            assert(t[m] == line@[a + m]);
        }
        assert(dist_to(t, 0, '=') == e - a) by {
            let d = dist_to(t, 0, '=') as int;
            if d < e - a {
                assert(t[d] == '=');
            }
            if d > e - a {
                assert(t[e - a] != '=');
            }
        }
    }
    let key = trimmed_copy(line, a, e);
    proof {
        assert(line@.subrange(a as int, e as int) =~= t.subrange(0, e - a));
    }
    if key.as_str().is_empty() {
        return Err(Rule::Key);
    }
    let value = trimmed_copy(line, e + 1, b);
    proof {
        assert(line@.subrange(e + 1, b as int) =~= t.subrange(e - a + 1, t.len() as int));
    }
    Ok(Some(ParseNode { rule: Rule::KeyValue, indent: 0, text: key, value }))
}

/// The parser for the INI file format: the grammar recognizer.
pub struct IniParser;

impl IniParser {
    /// Matches the whole input against the grammar and returns the
    /// rule-tagged parse tree, or the first syntax error.
    #[verifier::loop_isolation(false)]
    pub fn recognize(input: &str) -> (r: Result<ParseTree, ParseError>)
        ensures
            match r {
                Ok(tree) => spec_recognize(input@) == Ok::<Seq<NodeModel>, ParseError>(tree@)
                    && nodes_ok(tree@),
                Err(e) => spec_recognize(input@) == Err::<Seq<NodeModel>, ParseError>(e),
            },
    {
        let n = input.unicode_len();
        let start = scan_ws(input, 0, true);
        let content = input.substring_char(start, n);
        proof {
            assert(content@ =~= spec_content(input@));
            lemma_split_lines_from(content@, 0);
        }
        let lines = split_lines_vec(content);
        let ghost lseq = split_lines(spec_content(input@));
        proof {
            assert(lines@.map_values(|x: String| x@) == lseq);
        }
        let m = lines.len();
        let mut nodes: Vec<ParseNode> = Vec::new();
        let mut seen = false;
        let mut i: usize = 0;
        proof {
            assert(nodes@.map_values(|nd: ParseNode| nd@) =~= Seq::<NodeModel>::empty());
        }
        while i < m
            invariant
                i <= m,
                m == lines@.len(),
                lines@.map_values(|x: String| x@) == lseq,
                lseq == split_lines(spec_content(input@)),
                forall|k: int, j: int|
                    0 <= k < lseq.len() && 0 <= j < lseq[k].len() ==> #[trigger] lseq[k][j]
                        != '\n',
                nodes_from(lseq, 0, false, Seq::empty()) == nodes_from(
                    lseq,
                    i as int,
                    seen,
                    nodes@.map_values(|nd: ParseNode| nd@),
                ),
                nodes_ok(nodes@.map_values(|nd: ParseNode| nd@)),
            decreases m - i,
        {
            let ghost acc = nodes@.map_values(|nd: ParseNode| nd@);
            proof {
                assert(lines@[i as int]@ == lseq[i as int]);
            }
            match classify_line(lines[i].as_str()) {
                Err(ru) => {
                    return Err(ParseError::SyntaxError { line: i + 1, expected: ru });
                },
                Ok(None) => {},
                Ok(Some(node)) => {
                    proof {
                        lemma_classify_ok(lseq[i as int]);
                    }
                    let is_sec = matches!(node.rule, Rule::Section);
                    let is_com = matches!(node.rule, Rule::Comment);
                    if is_sec || is_com || seen {
                        let ghost nd = node@;
                        nodes.push(node);
                        if is_sec {
                            seen = true;
                        }
                        proof {
                            assert(nodes@.map_values(|x: ParseNode| x@) =~= acc.push(nd));
                        }
                    } else {
                        return Err(
                            ParseError::SyntaxError { line: i + 1, expected: Rule::Section },
                        );
                    }
                },
            }
            i = i + 1;
        }
        if !seen {
            return Err(ParseError::SyntaxError { line: m, expected: Rule::Section });
        }
        let ghost acc = nodes@.map_values(|nd: ParseNode| nd@);
        nodes.push(ParseNode { rule: Rule::Eoi, indent: 0, text: String::new(), value: String::new() });
        proof {
            assert(nodes@.map_values(|x: ParseNode| x@) =~= acc.push(eoi_node()));
        }
        Ok(ParseTree { nodes })
    }

    /// Matches one grammar rule against a standalone fragment and
    /// returns the text the rule consumed, or a syntax error naming
    /// the rule it expected.
    #[verifier::loop_isolation(false)]
    pub fn parse(rule: Rule, input: &str) -> (r: Result<String, ParseError>)
        ensures
            match r {
                Ok(m) => spec_match_rule(rule, input@) == Ok::<Seq<char>, ParseError>(m@),
                Err(e) => spec_match_rule(rule, input@) == Err::<Seq<char>, ParseError>(e),
            },
    {
        let n = input.unicode_len();
        if matches!(rule, Rule::IniFile) {
            match Self::recognize(input) {
                Ok(tree) => {
                    let start = scan_ws(input, 0, true);
                    let m = input.substring_char(start, n).to_owned();
                    proof {
                        assert(m@ =~= spec_content(input@));
                    }
                    return Ok(m);
                },
                Err(e) => {
                    return Err(e);
                },
            }
        }
        proof {
            lemma_trim(input@, true);
            lemma_ws_run(input@, 0, true);
            lemma_tail_ws_run(input@, n as int, true);
        }
        let ghost t = trim(input@, true);
        let a = scan_ws(input, 0, true);
        if a == n {
            proof {
                assert(t.len() == 0);
                assert(trim(t, false) =~= t);
            }
            match rule {
                Rule::Value => {
                    let m = String::new();
                    proof {
                        assert(m@ =~= t);
                    }
                    return Ok(m);
                },
                Rule::Eoi => {
                    let m = String::new();
                    proof {
                        assert(m@ =~= t);
                    }
                    return Ok(m);
                },
                Rule::Section => {
                    return Err(ParseError::SyntaxError { line: 1, expected: Rule::Section });
                },
                Rule::NestedSection => {
                    return Err(
                        ParseError::SyntaxError { line: 1, expected: Rule::NestedSection },
                    );
                },
                Rule::KeyValue => {
                    proof {
                        assert(dist_to(t, 0, '=') == 0);
                    }
                    return Err(ParseError::SyntaxError { line: 1, expected: Rule::KeyValue });
                },
                Rule::Comment => {
                    return Err(ParseError::SyntaxError { line: 1, expected: Rule::Comment });
                },
                Rule::SectionName => {
                    return Err(ParseError::SyntaxError { line: 1, expected: Rule::SectionName });
                },
                Rule::Key => {
                    return Err(ParseError::SyntaxError { line: 1, expected: Rule::Key });
                },
                Rule::IniFile => {
                    proof {
                        assert(false);
                    }
                    return Err(ParseError::SyntaxError { line: 1, expected: Rule::IniFile });
                },
            }
        }
        let b = scan_back_ws(input, n, true);
        proof {
            assert(b > a);
            assert(t =~= input@.subrange(a as int, b as int));
            assert(forall|j: int| 0 <= j < t.len() ==> #[trigger] t[j] == input@[a + j]);
            assert(!is_ws(t[0], true));
            assert(!is_ws(t[t.len() - 1], true));
        }
        let enl = find_char(input, a, '\n');
        proof {
            lemma_dist_to(input@, a as int, '\n');
        }
        let nl_free = enl >= b;
        proof {
            if enl >= b {
                assert forall|j: int| 0 <= j < t.len() implies (#[trigger] t[j]) != '\n' by {
                    assert(t[j] == input@[a + j]);
                }
            } else {
                assert(t[enl - a] == input@[enl as int]);
                assert(t[enl - a] == '\n');
            }
        }
        let matched = input.substring_char(a, b).to_owned();
        proof {
            assert(matched@ =~= t);
        }
        match rule {
            Rule::Section => {
                if nl_free && header_check(input, a, b) {
                    Ok(matched)
                } else {
                    Err(ParseError::SyntaxError { line: 1, expected: Rule::Section })
                }
            },
            Rule::NestedSection => {
                if nl_free && header_check(input, a, b) {
                    Ok(matched)
                } else {
                    Err(ParseError::SyntaxError { line: 1, expected: Rule::NestedSection })
                }
            },
            Rule::KeyValue => {
                let e = find_char(input, a, '=');
                proof {
                    lemma_dist_to(input@, a as int, '=');
                    lemma_dist_to(t, 0, '=');
                    if e >= b {
                        assert forall|m: int| 0 <= m < t.len() implies (#[trigger] t[m])
                            != '=' by {
                            assert(t[m] == input@[a + m]);
                        }
                        assert(dist_to(t, 0, '=') >= t.len());
                    } else {
                        assert(t[e - a] == input@[e as int]);
                        assert forall|m: int| 0 <= m < e - a implies (#[trigger] t[m])
                            != '=' by {
                            assert(t[m] == input@[a + m]);
                        }
                        assert(dist_to(t, 0, '=') == e - a) by {
                            let d = dist_to(t, 0, '=') as int;
                            if d < e - a {
                                assert(t[d] == '=');
                            }
                            if d > e - a {
                                assert(t[e - a] != '=');
                            }
                        }
                    }
                }
                if nl_free && e < b && e > a {
                    Ok(matched)
                } else {
                    Err(ParseError::SyntaxError { line: 1, expected: Rule::KeyValue })
                }
            },
            Rule::Comment => {
                if nl_free && input.get_char(a) == ';' {
                    proof {
                        assert(t[0] == input@[a as int]);
                    }
                    Ok(matched)
                } else {
                    proof {
                        assert(t[0] == input@[a as int]);
                    }
                    Err(ParseError::SyntaxError { line: 1, expected: Rule::Comment })
                }
            },
            Rule::SectionName => {
                let mut j: usize = a;
                let mut clean = true;
                while j < b
                    invariant
                        a <= j <= b,
                        clean == forall|m: int|
                            a <= m < j ==> (#[trigger] input@[m]) != '[' && input@[m] != ']'
                                && input@[m] != '\n',
                    decreases b - j,
                {
                    let c = input.get_char(j);
                    if c == '[' || c == ']' || c == '\n' {
                        clean = false;
                    }
                    j = j + 1;
                }
                proof {
                    if clean {
                        assert forall|m: int| 0 <= m < t.len() implies (#[trigger] t[m]) != '['
                            && t[m] != ']' && t[m] != '\n' by {
                            assert(t[m] == input@[a + m]);
                        }
                    } else {
                        let m = choose|m: int|
                            a <= m < b && !((#[trigger] input@[m]) != '[' && input@[m] != ']'
                                && input@[m] != '\n');
                        assert(t[m - a] == input@[m]);
                        assert(!valid_name(t));
                    }
                }
                if clean {
                    Ok(matched)
                } else {
                    Err(ParseError::SyntaxError { line: 1, expected: Rule::SectionName })
                }
            },
            Rule::Key => {
                let e = find_char(input, a, '=');
                proof {
                    lemma_dist_to(input@, a as int, '=');
                    assert(trim(t, false) =~= t) by {
                        lemma_ws_run(t, 0, false);
                        lemma_tail_ws_run(t, t.len() as int, false);
                        assert(!is_ws(t[0], false));
                        assert(!is_ws(t[t.len() - 1], false));
                        assert(ws_run(t, 0, false) == 0);
                        assert(tail_ws_run(t, t.len() as int, false) == 0);
                    }
                    if e >= b {
                        assert forall|m: int| 0 <= m < t.len() implies (#[trigger] t[m])
                            != '=' by {
                            assert(t[m] == input@[a + m]);
                        }
                    } else {
                        assert(t[e - a] == input@[e as int]);
                        assert(t[e - a] == '=');
                    }
                }
                if nl_free && e >= b {
                    Ok(matched)
                } else {
                    Err(ParseError::SyntaxError { line: 1, expected: Rule::Key })
                }
            },
            Rule::Value => {
                proof {
                    assert(trim(t, false) =~= t) by {
                        lemma_ws_run(t, 0, false);
                        lemma_tail_ws_run(t, t.len() as int, false);
                        assert(!is_ws(t[0], false));
                        assert(!is_ws(t[t.len() - 1], false));
                        assert(ws_run(t, 0, false) == 0);
                        assert(tail_ws_run(t, t.len() as int, false) == 0);
                    }
                }
                if nl_free {
                    Ok(matched)
                } else {
                    Err(ParseError::SyntaxError { line: 1, expected: Rule::Value })
                }
            },
            Rule::Eoi => Err(ParseError::SyntaxError { line: 1, expected: Rule::Eoi }),
            Rule::IniFile => {
                proof {
                    assert(false);
                }
                Err(ParseError::SyntaxError { line: 1, expected: Rule::IniFile })
            },
        }
    }
}

} // verus!
