use ini_parser::ini_file::IniFile;
use ini_parser::grammar::{ParseNode, ParseTree, Rule};
use ini_parser::parser::{parse, reduce, ParseError};

fn node(rule: Rule, indent: usize, text: &str, value: &str) -> ParseNode {
    ParseNode { rule, indent, text: text.to_string(), value: value.to_string() }
}

#[test]
fn test_last_write_wins() {
    let doc = parse("[A]\nk=1\nk=2").expect("well-formed input");
    assert_eq!(doc.sections.len(), 1);
    let a = doc.get_section("A").expect("section A");
    assert_eq!(a.key_values.len(), 1);
    assert_eq!(a.get_value("k").expect("key k"), "2");
}

#[test]
fn test_section_overwrite() {
    let doc = parse("[A]\nx=1\n[A]\ny=2").expect("well-formed input");
    assert_eq!(doc.sections.len(), 1);
    let a = doc.get_section("A").expect("section A");
    assert_eq!(a.get_value("y").expect("key y"), "2");
    assert!(a.get_value("x").is_none());
    assert_eq!(a.key_values.len(), 1);
}

#[test]
fn test_nested_section_scenario() {
    let doc = parse("[A]\nx=1\n  [B]\n  y=2").expect("well-formed input");
    assert_eq!(doc.sections.len(), 1);
    let a = doc.get_section("A").expect("section A");
    assert_eq!(a.get_value("x").expect("key x"), "1");
    assert_eq!(a.nested_sections.len(), 1);
    let b = a.get_child("B").expect("child B");
    assert_eq!(b.get_value("y").expect("key y"), "2");
    assert!(b.key_values.len() == 1 && b.nested_sections.is_empty());
}

#[test]
fn test_deeper_nesting() {
    let doc = parse("[A]\n  [B]\n    [C]\n    k=v\n  [D]\nt=u").expect("well-formed input");
    let a = doc.get_section("A").expect("section A");
    let b = a.get_child("B").expect("child B");
    let c = b.get_child("C").expect("child C");
    assert_eq!(c.get_value("k").expect("key k"), "v");
    let d = a.get_child("D").expect("child D");
    assert_eq!(d.get_value("t").expect("key t"), "u");
    assert!(a.get_value("t").is_none());
    assert_eq!(a.nested_sections.len(), 2);
}

#[test]
fn test_empty_value() {
    let doc = parse("[A]\nk=").expect("an empty value is fine");
    let a = doc.get_section("A").expect("section A");
    assert_eq!(a.get_value("k").expect("key k"), "");
}

#[test]
fn test_trimming_and_comments() {
    let doc = parse("  \n[A]\n; a note\n  k  =  v  \n\nother = a=b").expect("well-formed input");
    let a = doc.get_section("A").expect("section A");
    assert_eq!(a.get_value("k").expect("key k"), "v");
    assert_eq!(a.get_value("other").expect("key other"), "a=b");
    assert!(a.get_value("; a note").is_none());
}

#[test]
fn test_reduce_key_value_outside_section() {
    let tree = ParseTree { nodes: vec![node(Rule::KeyValue, 0, "k", "v")] };
    assert_eq!(reduce(&tree).unwrap_err(), ParseError::KeyValueOutsideSection);
    let tree = ParseTree { nodes: vec![node(Rule::NestedSection, 2, "B", "")] };
    assert_eq!(reduce(&tree).unwrap_err(), ParseError::KeyValueOutsideSection);
}

#[test]
fn test_reduce_unexpected_rule() {
    let tree = ParseTree {
        nodes: vec![node(Rule::Section, 0, "A", ""), node(Rule::Key, 0, "k", "")],
    };
    assert_eq!(reduce(&tree).unwrap_err(), ParseError::UnexpectedRule(Rule::Key));
}

#[test]
fn test_recognizer_tree_shape() {
    let tree = ini_parser::grammar::IniParser::recognize("[A]\nk=v\n  [B]").expect("recognized");
    let rules: Vec<Rule> = tree.nodes.iter().map(|n| n.rule).collect();
    assert_eq!(
        rules,
        vec![Rule::Section, Rule::KeyValue, Rule::NestedSection, Rule::Eoi],
    );
    assert_eq!(tree.nodes[0].text, "A");
    assert_eq!(tree.nodes[1].text, "k");
    assert_eq!(tree.nodes[1].value, "v");
    assert_eq!(tree.nodes[2].indent, 2);
    assert_eq!(tree.nodes[2].text, "B");
}

#[test]
fn test_from_str_and_parse_agree() {
    let input = "[A]\nk=v";
    let d1 = IniFile::from_str(input).expect("parses");
    let d2 = parse(input).expect("parses");
    assert_eq!(d1.sections.len(), d2.sections.len());
    assert_eq!(
        d1.get_section("A").unwrap().get_value("k").unwrap(),
        d2.get_section("A").unwrap().get_value("k").unwrap(),
    );
}

#[test]
fn test_round_trip() {
    let input = "[A]\nx = 1\n  [B]\n  y = 2\n[C]\nk=";
    let doc = parse(input).expect("parses");
    let printed = doc.to_ini_string();
    let doc2 = parse(&printed).expect("printed text parses");
    assert_eq!(doc2.sections.len(), doc.sections.len());
    let a = doc2.get_section("A").expect("section A");
    assert_eq!(a.get_value("x").expect("key x"), "1");
    assert_eq!(a.get_child("B").expect("child B").get_value("y").expect("key y"), "2");
    assert_eq!(doc2.get_section("C").expect("section C").get_value("k").expect("key k"), "");
}

#[test]
fn test_printer_layout() {
    let doc = parse("[A]\nx=1").expect("parses");
    assert_eq!(doc.to_ini_string(), "[A]\n  x = 1\n\n");
    let doc = parse("[A]\n  [B]\n  y=2").expect("parses");
    assert_eq!(doc.to_ini_string(), "[A]\n\n  [B]\n    y = 2\n\n");
}
