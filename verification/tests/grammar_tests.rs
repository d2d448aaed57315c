use action_path::error::Error;
use action_path::parse::{
    parameter, parse, parse_action, parse_action_path, parse_query_simple, parse_segment_header,
    Prefix,
};
use action_path::query::{ActionParameter, Position};

fn text_of(found: Prefix<ActionParameter>) -> String {
    match found {
        Prefix::Matched(ActionParameter::String(s, _), _) => s,
        _ => panic!("no text parameter"),
    }
}

fn parse_error(found: Result<Vec<action_path::query::ActionRequest>, Error>) -> (String, Position) {
    match found {
        Err(Error::ParseError { message, position }) => (message, position),
        _ => panic!("no parse error"),
    }
}

#[test]
fn entities_are_decoded() {
    assert_eq!(text_of(parameter("~~")), "~");
    assert_eq!(text_of(parameter("~_")), "-");
    assert_eq!(text_of(parameter("~123")), "-123");
    assert_eq!(text_of(parameter("ab~~cd")), "ab~cd");
    assert_eq!(text_of(parameter("~1a~2")), "-1a-2");
}

#[test]
fn percent_escapes_are_decoded() {
    assert_eq!(text_of(parameter("%21")), "!");
    assert_eq!(text_of(parameter("%2f%2F")), "//");
    assert_eq!(text_of(parameter("a%20b")), "a b");
    assert_eq!(text_of(parameter("%C3%A9")), "\u{e9}");
    assert_eq!(text_of(parameter("%E2%82%AC")), "\u{20ac}");
    assert_eq!(text_of(parameter("%25")), "%");
    assert_eq!(text_of(parameter("%2521")), "%21");
}

#[test]
fn parameter_stops_before_separator() {
    match parameter("abc-def") {
        Prefix::Matched(ActionParameter::String(s, position), rest) => {
            assert_eq!(s, "abc");
            assert_eq!(rest, "-def");
            assert_eq!(position, Position { offset: 0, line: 1, column: 1 });
        }
        _ => panic!("no match"),
    }
    match parameter("/x") {
        Prefix::Matched(ActionParameter::String(s, _), rest) => {
            assert_eq!(s, "");
            assert_eq!(rest, "/x");
        }
        _ => panic!("no match"),
    }
}

#[test]
fn malformed_percent_escape_fails() {
    for text in ["%", "%2", "%zz", "%2g", "ab%", "%\u{e9}1"] {
        match parameter(text) {
            Prefix::Failed(Error::ParseError { message, .. }) => assert_eq!(
                message,
                "Invalid percent escape: two hexadecimal digits must follow '%'"
            ),
            _ => panic!("{} did not fail", text),
        }
    }
    let (message, position) = parse_error(parse_query_simple("a-%2"));
    assert_eq!(message, "Invalid percent escape: two hexadecimal digits must follow '%'");
    assert_eq!(position, Position { offset: 3, line: 1, column: 4 });
}

#[test]
fn malformed_entity_fails() {
    for text in ["~", "~x", "ab~-", "~%21"] {
        match parameter(text) {
            Prefix::Failed(Error::ParseError { message, .. }) => {
                assert_eq!(message, "Invalid entity: '~', '_' or a digit must follow '~'")
            }
            _ => panic!("{} did not fail", text),
        }
    }
    let (message, position) = parse_error(parse_query_simple("abc/d-~x"));
    assert_eq!(message, "Invalid entity: '~', '_' or a digit must follow '~'");
    assert_eq!(position, Position { offset: 7, line: 1, column: 8 });
    assert!(parse("-a-~").is_err());
}

#[test]
fn bytes_that_are_not_utf8_fail() {
    let (message, position) = parse_error(parse_query_simple("a-%FF"));
    assert_eq!(message, "Invalid parameter: its percent-decoded bytes are not UTF-8");
    assert_eq!(position, Position { offset: 5, line: 1, column: 6 });
    assert!(matches!(parameter("%C3"), Prefix::Failed(_)));
    assert!(matches!(parameter("%C3%28"), Prefix::Failed(_)));
}

#[test]
fn leftover_is_reported_with_its_position() {
    let (message, position) = parse_error(parse_query_simple("abc def"));
    assert_eq!(message, "Can't parse query completely: ' def'");
    assert_eq!(position, Position { offset: 3, line: 1, column: 4 });
    let e = parse_query_simple("abc def").unwrap_err();
    assert_eq!(e.to_string(), "Error: Can't parse query completely: ' def' position 4");
}

#[test]
fn offsets_count_bytes_and_columns_count_characters() {
    let (message, position) = parse_error(parse_query_simple("\u{e9}-\u{20ac} y"));
    assert_eq!(message, "Can't parse query completely: '\u{20ac} y'");
    assert_eq!(position, Position { offset: 3, line: 1, column: 3 });
    let path = parse_query_simple("\u{e9}\u{e9}-x/b").unwrap();
    assert_eq!(path[0].position, Position { offset: 0, line: 1, column: 1 });
    assert_eq!(path[1].position, Position { offset: 7, line: 1, column: 6 });
    match &path[0].parameters[0] {
        ActionParameter::String(_, position) => {
            assert_eq!(*position, Position { offset: 5, line: 1, column: 4 })
        }
        _ => panic!("no text parameter"),
    }
}

#[test]
fn line_break_is_left_over() {
    let (message, position) = parse_error(parse_query_simple("abc\ndef"));
    assert_eq!(message, "Can't parse query completely: '\ndef'");
    assert_eq!(position, Position { offset: 3, line: 1, column: 4 });
}

#[test]
fn identifier_is_one_action() {
    for text in ["abc", "_", "_x1", "a1b2", "\u{e9}t\u{e9}", "A_\u{4e2d}\u{6587}9", "x\u{0663}"] {
        let path = parse_query_simple(text).unwrap();
        assert_eq!(path.len(), 1);
        assert_eq!(path[0].name, text);
        assert_eq!(path[0].parameters.len(), 0);
        let query = parse(text).unwrap();
        assert_eq!(query.segments.len(), 1);
        assert!(query.segments[0].header.is_none());
        assert_eq!(query.segments[0].query.len(), 1);
        assert_eq!(query.segments[0].query[0].name, text);
    }
}

#[test]
fn digit_starts_no_identifier() {
    assert!(matches!(parse_action("1abc"), Prefix::Unmatched));
    assert!(matches!(parse_action("-abc"), Prefix::Unmatched));
    assert!(matches!(parse_action(""), Prefix::Unmatched));
    assert!(matches!(parse_action("\u{0663}"), Prefix::Unmatched));
    assert!(matches!(parse_segment_header("abc"), Prefix::Unmatched));
    let (message, _) = parse_error(parse_query_simple("1abc"));
    assert_eq!(message, "Can't parse query completely: '1abc'");
}

#[test]
fn empty_parameters_are_kept() {
    let path = parse_query_simple("a--b-").unwrap();
    assert_eq!(path.len(), 1);
    assert_eq!(path[0].parameters.len(), 3);
    assert_eq!(path[0].parameters[0].to_string(), "");
    assert_eq!(path[0].parameters[1].to_string(), "b");
    assert_eq!(path[0].parameters[2].to_string(), "");
}

#[test]
fn parameters_keep_their_order_and_repeats() {
    let path = parse_query_simple("f-b-a-b").unwrap();
    let found: Vec<String> = path[0].parameters.iter().map(|p| p.to_string()).collect();
    assert_eq!(found, vec!["b", "a", "b"]);
}

#[test]
fn trailing_slash_is_left_over_in_a_path() {
    match parse_action_path("abc/") {
        Prefix::Matched(path, rest) => {
            assert_eq!(path.len(), 1);
            assert_eq!(rest, "/");
        }
        _ => panic!("no match"),
    }
    let (message, position) = parse_error(parse_query_simple("abc/"));
    assert_eq!(message, "Can't parse query completely: '/'");
    assert_eq!(position, Position { offset: 3, line: 1, column: 4 });
}

#[test]
fn empty_text_is_empty() {
    assert_eq!(parse_query_simple("").unwrap().len(), 0);
    assert_eq!(parse("").unwrap().segments.len(), 0);
}

#[test]
fn segmented_query_with_header_and_path() {
    let query = parse("-abc/x-y").unwrap();
    assert_eq!(query.segments.len(), 1);
    let header = query.segments[0].header.as_ref().unwrap();
    assert_eq!(header.level, 1);
    assert_eq!(header.name, "abc");
    assert_eq!(header.parameters.len(), 0);
    assert_eq!(header.position, Position { offset: 0, line: 1, column: 1 });
    assert_eq!(query.segments[0].query.len(), 1);
    assert_eq!(query.segments[0].query[0].name, "x");
    assert_eq!(query.segments[0].query[0].parameters.len(), 1);
    assert_eq!(query.segments[0].query[0].parameters[0].to_string(), "y");
}

#[test]
fn segmented_query_with_two_segments() {
    let query = parse("abc-def/-/x-y").unwrap();
    assert_eq!(query.segments.len(), 2);
    assert!(query.segments[0].header.is_none());
    assert_eq!(query.segments[0].query.len(), 1);
    assert_eq!(query.segments[0].query[0].name, "abc");
    assert_eq!(query.segments[0].query[0].parameters[0].to_string(), "def");
    let header = query.segments[1].header.as_ref().unwrap();
    assert_eq!(header.level, 1);
    assert_eq!(header.name, "");
    assert_eq!(header.position, Position { offset: 8, line: 1, column: 9 });
    assert_eq!(query.segments[1].query.len(), 1);
    assert_eq!(query.segments[1].query[0].name, "x");
    assert_eq!(query.segments[1].query[0].parameters[0].to_string(), "y");
}

#[test]
fn leading_dash_is_never_a_path() {
    let query = parse("---a1-p/b/c").unwrap();
    assert_eq!(query.segments.len(), 1);
    let header = query.segments[0].header.as_ref().unwrap();
    assert_eq!(header.level, 3);
    assert_eq!(header.name, "a1");
    assert_eq!(header.parameters.len(), 1);
    assert_eq!(query.segments[0].query.len(), 2);
}

#[test]
fn header_takes_the_slash_behind_it() {
    let query = parse("-a/").unwrap();
    assert_eq!(query.segments.len(), 1);
    assert_eq!(query.segments[0].query.len(), 0);
    match parse("-a/-b") {
        Err(Error::ParseError { message, position }) => {
            assert_eq!(message, "Can't parse query completely: '-b'");
            assert_eq!(position, Position { offset: 3, line: 1, column: 4 });
        }
        _ => panic!("no parse error"),
    }
    let query = parse("-a/x/-b").unwrap();
    assert_eq!(query.segments.len(), 2);
    let query = parse("-a//b").unwrap();
    assert_eq!(query.segments.len(), 2);
    assert!(query.segments[1].header.is_none());
}
