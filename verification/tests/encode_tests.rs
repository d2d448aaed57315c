use action_path::error::Error;
use action_path::parse::{parse, parse_query_simple};
use action_path::query::{
    encode_path, ActionParameter, ActionRequest, Position, Query, QuerySegment, SegmentHeader,
};

fn shape_of_path(path: &Vec<ActionRequest>) -> Vec<(String, Vec<String>)> {
    path.iter()
        .map(|r| (r.name.clone(), r.parameters.iter().map(|p| p.to_string()).collect()))
        .collect()
}

fn shape_of_query(
    query: &Query,
) -> Vec<(Option<(usize, String, Vec<String>)>, Vec<(String, Vec<String>)>)> {
    query
        .segments
        .iter()
        .map(|s| {
            (
                s.header.as_ref().map(|h| {
                    (h.level, h.name.clone(), h.parameters.iter().map(|p| p.to_string()).collect())
                }),
                shape_of_path(&s.query),
            )
        })
        .collect()
}

#[test]
fn parameter_is_escaped() {
    assert_eq!(ActionParameter::new("abc_123").encode(), "abc_123");
    assert_eq!(ActionParameter::new("").encode(), "");
    assert_eq!(ActionParameter::new("~").encode(), "~~");
    assert_eq!(ActionParameter::new("-").encode(), "~_");
    assert_eq!(ActionParameter::new("-123").encode(), "~_123");
    assert_eq!(ActionParameter::new("a b-c~d").encode(), "a%20b~_c~~d");
    assert_eq!(ActionParameter::new("!/%").encode(), "%21%2F%25");
    assert_eq!(ActionParameter::new("\u{e9}").encode(), "\u{e9}");
    assert_eq!(ActionParameter::new("\u{20ac}").encode(), "%E2%82%AC");
    assert_eq!(ActionParameter::new("\u{1f600}").encode(), "%F0%9F%98%80");
    assert_eq!(ActionParameter::new("\n\u{7f}\u{0}").encode(), "%0A%7F%00");
}

#[test]
fn parameter_text_is_not_escaped() {
    assert_eq!(ActionParameter::new("a b-c~d").to_string(), "a b-c~d");
    let link = ActionParameter::Link("x-y".to_owned(), Position::unknown());
    assert_eq!(link.to_string(), "x-y");
}

#[test]
fn request_is_written_with_its_parameters() {
    let request = ActionRequest {
        name: "add".to_owned(),
        position: Position::unknown(),
        parameters: vec![ActionParameter::new("-10"), ActionParameter::new(""), ActionParameter::new("x y")],
    };
    assert_eq!(request.encode(), "add-~_10--x%20y");
    let bare = ActionRequest { name: "abc".to_owned(), position: Position::unknown(), parameters: vec![] };
    assert_eq!(bare.encode(), "abc");
    assert_eq!(encode_path(&vec![bare.clone(), request.clone(), bare]), "abc/add-~_10--x%20y/abc");
    assert_eq!(encode_path(&vec![]), "");
}

#[test]
fn header_is_written_with_its_level() {
    let minimal = SegmentHeader::new_parsed_minimal(3, Position::unknown());
    assert_eq!(minimal.name, "");
    assert_eq!(minimal.level, 3);
    assert_eq!(minimal.parameters.len(), 0);
    assert_eq!(minimal.encode(), "---");
    let request = ActionRequest {
        name: "abc".to_owned(),
        position: Position { offset: 2, line: 1, column: 3 },
        parameters: vec![ActionParameter::new("d"), ActionParameter::new("e-f")],
    };
    let place = Position { offset: 0, line: 1, column: 1 };
    let header = SegmentHeader::new_parsed_from_action_request(2, place, &request);
    assert_eq!(header.name, "abc");
    assert_eq!(header.level, 2);
    assert_eq!(header.position, place);
    assert_eq!(header.parameters.len(), 2);
    assert_eq!(header.encode(), "--abc-d-e~_f");
}

#[test]
fn segment_is_written_with_header_and_path() {
    let x = ActionRequest {
        name: "x".to_owned(),
        position: Position::unknown(),
        parameters: vec![ActionParameter::new("y")],
    };
    let z = ActionRequest { name: "z".to_owned(), position: Position::unknown(), parameters: vec![] };
    let empty = QuerySegment::new();
    assert!(empty.header.is_none());
    assert_eq!(empty.query.len(), 0);
    assert_eq!(empty.encode(), "");
    let headless = QuerySegment::new_from(None, vec![x.clone(), z.clone()]);
    assert_eq!(headless.encode(), "x-y/z");
    let header = SegmentHeader::new_parsed_minimal(1, Position::unknown());
    let only_header = QuerySegment::new_from(Some(header.clone()), vec![]);
    assert_eq!(only_header.encode(), "-");
    let both = QuerySegment::new_from(Some(header), vec![x, z]);
    assert_eq!(both.encode(), "-/x-y/z");
}

#[test]
fn added_segment_can_be_filled() {
    let mut query = Query::new();
    assert_eq!(query.encode(), "");
    {
        let segment = query.add_segment("test");
        assert_eq!(segment.header.as_ref().unwrap().level, 1);
        assert_eq!(segment.header.as_ref().unwrap().position, Position::unknown());
        segment.query.push(ActionRequest {
            name: "x".to_owned(),
            position: Position::unknown(),
            parameters: vec![],
        });
    }
    query.add_segment("next");
    assert_eq!(query.segments.len(), 2);
    assert_eq!(query.encode(), "-test/x/-next");
}

#[test]
fn path_reads_back() -> Result<(), Error> {
    for text in [
        "",
        "abc",
        "abc-def/xxx-123",
        "abc-~~x-~123",
        "a--b-",
        "f-%21%2F%25-a%20b/g-~_~_/h",
        "\u{e9}-\u{e9}%C3%A9%E2%82%AC",
        "a-~1~2~3",
    ] {
        let path = parse_query_simple(text)?;
        let written = encode_path(&path);
        let again = parse_query_simple(&written)?;
        assert_eq!(shape_of_path(&path), shape_of_path(&again));
        assert_eq!(encode_path(&again), written);
    }
    Ok(())
}

#[test]
fn escapes_are_normalized() -> Result<(), Error> {
    let path = parse_query_simple("a-~123-%41%2d%7E-%c3%a9")?;
    assert_eq!(shape_of_path(&path), vec![("a".to_owned(), vec!["-123".to_owned(), "A-~".to_owned(), "\u{e9}".to_owned()])]);
    assert_eq!(encode_path(&path), "a-~_123-A~_~~-\u{e9}");
    Ok(())
}

#[test]
fn query_reads_back() -> Result<(), Error> {
    for text in [
        "",
        "-",
        "--",
        "-abc",
        "-abc/x-y",
        "abc-def/-/x-y",
        "-abc/x-y/-next",
        "--abc-d-ef/x/y-%20/---z-~_/w",
        "a/b/-c-d/e/-",
        "-a/",
    ] {
        let query = parse(text)?;
        let written = query.encode();
        let again = parse(&written)?;
        assert_eq!(shape_of_query(&query), shape_of_query(&again));
        assert_eq!(again.encode(), written);
    }
    Ok(())
}

#[test]
fn header_alone_before_a_segment_does_not_read_back() -> Result<(), Error> {
    let query = parse("-a//b")?;
    assert_eq!(query.segments.len(), 2);
    assert_eq!(query.encode(), "-a/b");
    let again = parse("-a/b")?;
    assert_eq!(again.segments.len(), 1);
    Ok(())
}

#[test]
fn position_is_written_by_line_and_column() {
    assert_eq!(Position::unknown(), Position { offset: 0, line: 0, column: 0 });
    assert_eq!(Position::unknown().to_string(), "(unknown position)");
    assert_eq!(Position { offset: 3, line: 1, column: 4 }.to_string(), "position 4");
    assert_eq!(Position { offset: 3, line: 1, column: 0 }.to_string(), "position 0");
    assert_eq!(Position { offset: 99, line: 3, column: 12 }.to_string(), "line 3, position 12");
    assert_eq!(
        Position { offset: 0, line: 4294967295, column: 1000 }.to_string(),
        "line 4294967295, position 1000"
    );
    assert_eq!(Position { offset: 0, line: 1, column: 9876543210 }.to_string(), "position 9876543210");
}

#[test]
fn error_is_written_with_its_message() {
    let place = Position { offset: 3, line: 2, column: 4 };
    assert_eq!(Error::ArgumentNotSpecified.to_string(), "Argument not specified");
    assert_eq!(Error::ActionNotRegistered { message: "m".to_owned() }.to_string(), "Error: m");
    assert_eq!(
        Error::ParseError { message: "m".to_owned(), position: place }.to_string(),
        "Error: m line 2, position 4"
    );
    assert_eq!(
        Error::ParameterError { message: "m".to_owned(), position: Position::unknown() }.to_string(),
        "Error: m (unknown position)"
    );
    assert_eq!(Error::ConversionError { message: "m".to_owned() }.to_string(), "Error: m");
    assert_eq!(
        Error::SerializationError { message: "m".to_owned(), format: "json".to_owned() }.to_string(),
        "Error: m"
    );
    assert_eq!(Error::General { message: "".to_owned() }.to_string(), "Error: ");
    let copy = Error::ParseError { message: "m".to_owned(), position: place }.clone();
    assert!(matches!(copy, Error::ParseError { message, position } if message == "m" && position == place));
}
