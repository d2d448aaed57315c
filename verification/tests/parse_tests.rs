use action_path::error::Error;
use action_path::parse::{
    parameter, parse, parse_action, parse_action_path, parse_query, parse_query_simple,
    parse_segment, parse_segment_header, Prefix,
};
use action_path::query::ActionParameter;

fn matched<T>(found: Prefix<T>) -> (T, String) {
    match found {
        Prefix::Matched(value, rest) => (value, rest),
        Prefix::Unmatched => panic!("no match"),
        Prefix::Failed(e) => panic!("{}", e.to_string()),
    }
}

#[test]
fn parse_action_test() {
    let (action, _remainder) = matched(parse_action("abc-def"));
    assert_eq!(action.name, "abc");
    assert_eq!(action.parameters.len(), 1);
    match &action.parameters[0] {
        ActionParameter::String(txt, _) => assert_eq!(txt, "def"),
        _ => assert!(false),
    }
}

#[test]
fn parse_path_test() {
    let (path, remainder) = matched(parse_action_path("abc-def/xxx-123"));
    println!("REMAINDER: {:#?}", remainder);
    println!("PATH:      {:#?}", path);
    assert_eq!(remainder.len(), 0);
    assert_eq!(remainder.to_string().len(), 0);
}

#[test]
fn parse_query_test() -> Result<(), Error> {
    let path = parse_query_simple("")?;
    assert_eq!(path.len(), 0);
    let path = parse_query_simple("abc-def");
    println!("{:#?}", path);
    Ok(())
}

#[test]
fn parse_parameter_entity_test() -> Result<(), Error> {
    let path = parse_query_simple("abc-~~x-~123")?;
    assert_eq!(path.len(), 1);
    if let ActionParameter::String(txt, _pos) = &path[0].parameters[0] {
        assert_eq!(txt, "~x");
    } else {
        assert!(false);
    }
    if let ActionParameter::String(txt, _pos) = &path[0].parameters[1] {
        assert_eq!(txt, "-123");
    } else {
        assert!(false);
    }
    Ok(())
}

#[test]
fn parse_simple_parameter_test() {
    let (param, _remainder) = matched(parameter("abc"));
    match &param {
        ActionParameter::String(s, _) => assert_eq!(s, "abc"),
        _ => assert!(false),
    }
}

#[test]
fn parse_escaped_parameter_test() {
    let (param, _remainder) = matched(parameter("abc~~~_~0%21"));
    match &param {
        ActionParameter::String(s, _) => assert_eq!(s, "abc~--0!"),
        _ => assert!(false),
    }
}

#[test]
fn parse_segment_header1() {
    let (sh, _remainder) = matched(parse_segment_header("-"));
    assert_eq!(sh.level, 1);
    assert_eq!(sh.name, "");
    let (sh, _remainder) = matched(parse_segment_header("--"));
    assert_eq!(sh.level, 2);
}

#[test]
fn parse_segment_header2() {
    let (sh, _remainder) = matched(parse_segment_header("-abc"));
    assert_eq!(sh.level, 1);
    assert_eq!(sh.name, "abc");
    let (sh, _remainder) = matched(parse_segment_header("--abc-d-ef"));
    assert_eq!(sh.level, 2);
    assert_eq!(sh.name, "abc");
    assert_eq!(sh.parameters.len(), 2);
    assert_eq!(sh.parameters[0].to_string(), "d");
    assert_eq!(sh.parameters[1].to_string(), "ef");
}

#[test]
fn parse_segment_without_header1() {
    let (segment, _remainder) = matched(parse_segment("abc-def/xyz"));
    assert!(segment.header.is_none());
    assert_eq!(segment.query.len(), 2);
}

#[test]
fn parse_segment1() {
    let (segment, _remainder) = matched(parse_segment("-abc"));
    assert_eq!(segment.header.as_ref().unwrap().level, 1);
    assert_eq!(segment.header.as_ref().unwrap().name, "abc");
    assert_eq!(segment.query.len(), 0);
}

#[test]
fn parse_segment2() {
    let (segment, _remainder) = matched(parse_segment("-abc/x-y/-next"));
    assert_eq!(segment.header.as_ref().unwrap().level, 1);
    assert_eq!(segment.header.as_ref().unwrap().name, "abc");
    assert_eq!(segment.query.len(), 1);
    assert_eq!(segment.query[0].name, "x");
}

#[test]
fn parse_empty1() {
    let (query, _remainder) = matched(parse_query(""));
    assert_eq!(query.segments.len(), 0);
}

#[test]
fn parse_empty2() -> Result<(), Error> {
    let query = parse("")?;
    assert_eq!(query.segments.len(), 0);
    Ok(())
}

#[test]
fn parse1() -> Result<(), Error> {
    let query = parse("-abc/x-y")?;
    assert_eq!(query.segments.len(), 1);
    assert_eq!(query.segments[0].header.as_ref().unwrap().name, "abc");
    assert_eq!(query.segments[0].query[0].name, "x");
    Ok(())
}

#[test]
fn parse2() -> Result<(), Error> {
    let query = parse("abc-def/-/x-y")?;
    assert_eq!(query.segments.len(), 2);
    assert_eq!(query.segments[0].query[0].name, "abc");
    assert_eq!(query.segments[1].query[0].name, "x");
    Ok(())
}
