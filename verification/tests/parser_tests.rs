use multilint::parser::{to_re, parse_u32, Parsed, Parser};

#[test]
fn re() {
    assert_eq!(to_re("%%"), "%");
    assert_eq!(to_re("%m"), r"(?P<m>.*)");
    assert_eq!(to_re("%%%m%%%"), r"%(?P<m>.*)%");
}

#[test]
fn empty() {
    assert!(Parser::new(&Vec::<String>::new()).unwrap().parse("").is_empty());
}

#[test]
fn gnu() {
    let formats = vec!["^%f:%l:%c: %m$".to_string()];
    let text = "prog.cc:2:5: error: use of undeclared identifier 'std'
    std::cout << \"hello world\" << std::endl;
    ^
prog.cc:2:35: error: use of undeclared identifier 'std'
    std::cout << \"hello world\" << std::endl;
                                  ^
2 errors generated.
";
    assert_eq!(
        Parser::new(&formats).unwrap().parse(text),
        vec![
            Parsed {
                file: Some("prog.cc".to_string()),
                line: Some(2),
                column: Some(5),
                message: Some("error: use of undeclared identifier 'std'".to_string()),
                ..Default::default()
            },
            Parsed {
                file: Some("prog.cc".to_string()),
                line: Some(2),
                column: Some(35),
                message: Some("error: use of undeclared identifier 'std'".to_string()),
                ..Default::default()
            }
        ]
    );
}

#[test]
fn multi_pattern() {
    let formats = vec!["^%f:%l:%c: %m$".to_string(), "^%f:%l: %m$".to_string()];
    let text = "prog.cc:1: error: expected unqualified-id
prog.cc:1:1: error: expected unqualified-id
";
    assert_eq!(
        Parser::new(&formats).unwrap().parse(text),
        vec![
            Parsed {
                file: Some("prog.cc".to_string()),
                line: Some(1),
                message: Some("error: expected unqualified-id".to_string()),
                ..Default::default()
            },
            Parsed {
                file: Some("prog.cc".to_string()),
                line: Some(1),
                column: Some(1),
                message: Some("error: expected unqualified-id".to_string()),
                ..Default::default()
            },
        ]
    );
}

#[test]
fn re_expands_every_directive() {
    assert_eq!(to_re("%p"), r"(?P<p>[^:[[:cntrl:]]]+)");
    assert_eq!(to_re("%f"), r"(?P<f>[^:[[:cntrl:]]]+)");
    assert_eq!(to_re("%l"), r"(?P<l>\d+)");
    assert_eq!(to_re("%c"), r"(?P<c>\d+)");
    assert_eq!(to_re("a:b"), "a:b");
}

#[test]
fn re_drops_unknown_directive() {
    assert_eq!(to_re("%z"), "");
    assert_eq!(to_re("a%zb"), "ab");
    assert_eq!(to_re("x%"), "x");
}

#[test]
fn message_captures_rest_of_line() {
    let formats = vec!["^e: %m$".to_string()];
    let parsed = Parser::new(&formats).unwrap().parse("e: the whole rest 123\n");
    assert_eq!(parsed.len(), 1);
    assert_eq!(parsed[0].message, Some("the whole rest 123".to_string()));
}

#[test]
fn bad_format_reported_at_compile_time() {
    let formats = vec!["%m[".to_string()];
    let err = Parser::new(&formats).unwrap_err();
    assert_eq!(err.format, "%m[");
}

#[test]
fn percent_literal_matches() {
    let formats = vec!["^%%$".to_string()];
    let parsed = Parser::new(&formats).unwrap().parse("%");
    assert_eq!(parsed.len(), 1);
    assert_eq!(parsed[0], Parsed::default());
}

#[test]
fn numbers_parse_exactly() {
    assert_eq!(parse_u32("0"), Some(0));
    assert_eq!(parse_u32("0042"), Some(42));
    assert_eq!(parse_u32("4294967295"), Some(4294967295));
    assert_eq!(parse_u32("4294967296"), None);
    assert_eq!(parse_u32(""), None);
    assert_eq!(parse_u32("12a"), None);
}
