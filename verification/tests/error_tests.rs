use ini_parser::ini_file::IniFile;
use ini_parser::parser::ParseError;
use ini_parser::grammar::Rule;

#[test]
fn test_missing_section_brackets() {
    let input = "Section\nkey=value";
    let result = IniFile::from_str(input);
    assert!(result.is_err(), "Expected error when section brackets are missing");
    if let Err(e) = result {
        match e {
            ParseError::SyntaxError { .. } => {},
            _ => panic!("Unexpected error type: {:?}", e),
        }
    }
}

#[test]
fn test_missing_equal_sign() {
    let input = "[Section]\nkeyvalue";
    let result = IniFile::from_str(input);
    assert!(result.is_err(), "Expected error when missing equal sign in key-value pair");
    if let Err(e) = result {
        match e {
            ParseError::SyntaxError { .. } => {},
            _ => panic!("Unexpected error type: {:?}", e),
        }
    }
}

#[test]
fn test_empty_key() {
    let input = "[Section]\n=value";
    let result = IniFile::from_str(input);
    assert!(result.is_err(), "Expected error when key is empty in key-value pair");
    if let Err(e) = result {
        match e {
            ParseError::SyntaxError { .. } => {},
            _ => panic!("Unexpected error type: {:?}", e),
        }
    }
}

#[test]
fn test_no_sections() {
    let input = "key=value\nanother_key=another_value";
    let result = IniFile::from_str(input);
    assert!(result.is_err(), "INI file should have at least one section.");
    if let Err(e) = result {
        match e {
            ParseError::SyntaxError { .. } => {},
            _ => panic!("Unexpected error type: {:?}", e),
        }
    }
}

#[test]
fn test_error_positions() {
    assert_eq!(
        IniFile::from_str("[Section]\nkeyvalue").unwrap_err(),
        ParseError::SyntaxError { line: 2, expected: Rule::KeyValue },
    );
    assert_eq!(
        IniFile::from_str("[Section]\n=value").unwrap_err(),
        ParseError::SyntaxError { line: 2, expected: Rule::Key },
    );
    assert_eq!(
        IniFile::from_str("key=value").unwrap_err(),
        ParseError::SyntaxError { line: 1, expected: Rule::Section },
    );
    assert_eq!(
        IniFile::from_str("[Section").unwrap_err(),
        ParseError::SyntaxError { line: 1, expected: Rule::Section },
    );
}

#[test]
fn test_empty_and_blank_inputs_fail() {
    assert!(matches!(IniFile::from_str(""), Err(ParseError::SyntaxError { .. })));
    assert!(matches!(IniFile::from_str("   \n\t\n"), Err(ParseError::SyntaxError { .. })));
    assert!(matches!(IniFile::from_str("; only a comment\n"), Err(ParseError::SyntaxError { .. })));
}

#[test]
fn test_unterminated_and_stray_brackets() {
    assert!(matches!(
        IniFile::from_str("[Sec\nkey=value"),
        Err(ParseError::SyntaxError { line: 1, expected: Rule::Section })
    ));
    assert!(matches!(
        IniFile::from_str("[A]x]\nkey=value"),
        Err(ParseError::SyntaxError { line: 1, expected: Rule::Section })
    ));
    assert!(matches!(
        IniFile::from_str("[]"),
        Err(ParseError::SyntaxError { line: 1, expected: Rule::Section })
    ));
}
