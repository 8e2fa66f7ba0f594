use ini_parser::grammar::{IniParser, Rule};

#[test]
fn test_parse_section_name() {
    let input = "[Section]";
    let parsed = IniParser::parse(Rule::Section, input).expect("Failed to parse section");
    assert_eq!(parsed, input.trim());
}

#[test]
fn test_parse_key_value_pair() {
    let input = "key=value";
    let parsed = IniParser::parse(Rule::KeyValue, input).expect("Failed to parse key-value pair");
    assert_eq!(parsed, "key=value");
}

#[test]
fn test_parse_key() {
    let input = "username";
    let parsed = IniParser::parse(Rule::Key, input).expect("Failed to parse key");
    assert_eq!(parsed, input);
}

#[test]
fn test_parse_value() {
    let input = "admin";
    let parsed = IniParser::parse(Rule::Value, input).expect("Failed to parse value");
    assert_eq!(parsed, input);
}

#[test]
fn test_parse_whole_file_rule() {
    let input = "  [Section]\nkey=value";
    let parsed = IniParser::parse(Rule::IniFile, input).expect("Failed to parse file");
    assert_eq!(parsed, "[Section]\nkey=value");
}

#[test]
fn test_parse_comment_rule() {
    let parsed = IniParser::parse(Rule::Comment, "; a note").expect("Failed to parse comment");
    assert_eq!(parsed, "; a note");
}

#[test]
fn test_parse_section_name_rule() {
    let parsed = IniParser::parse(Rule::SectionName, "Database").expect("Failed to parse name");
    assert_eq!(parsed, "Database");
    assert!(IniParser::parse(Rule::SectionName, "Data]base").is_err());
}

#[test]
fn test_parse_rule_rejections() {
    assert!(IniParser::parse(Rule::Section, "[Section").is_err());
    assert!(IniParser::parse(Rule::Section, "[]").is_err());
    assert!(IniParser::parse(Rule::KeyValue, "keyvalue").is_err());
    assert!(IniParser::parse(Rule::KeyValue, "=value").is_err());
    assert!(IniParser::parse(Rule::Key, "user=name").is_err());
    assert!(IniParser::parse(Rule::Value, "two\nlines").is_err());
}
