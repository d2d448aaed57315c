use action_path::error::Error;
use action_path::query::{
    ActionParameter, ActionParametersSlice, Query, TryActionParametersInto,
};

#[test]
fn it_works() {
    assert_eq!(2 + 2, 4);
}

#[test]
fn parameters_into_i32() -> Result<(), Error> {
    let v = [ActionParameter::new("123"), ActionParameter::new("234")];
    let mut par = ActionParametersSlice(&v[..]);
    let x: i32 = par.try_parameters_into(&mut ())?;
    assert_eq!(x, 123);
    let x: i32 = par.try_parameters_into(&mut ())?;
    assert_eq!(x, 234);
    Ok(())
}

#[test]
fn parameters_into_str() -> Result<(), Error> {
    let v = [ActionParameter::new("123"), ActionParameter::new("234")];
    let mut par = ActionParametersSlice(&v[..]);
    let x: String = par.try_parameters_into(&mut ())?;
    assert_eq!(x, "123");
    let x: i32 = par.try_parameters_into(&mut ())?;
    assert_eq!(x, 234);
    Ok(())
}

#[test]
fn encode_parameter() {
    assert_eq!(ActionParameter::new("123").encode(), "123");
}

#[test]
fn encode_query_segment1() {
    let mut query = Query::new();
    query.add_segment("test");
    assert_eq!(query.segments[0].header.as_ref().unwrap().name, "test");
    assert_eq!(query.encode(), "-test");
}
