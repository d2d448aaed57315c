use action_path::action_registry::{CallableAction, Function1, Function2, HashMapActionRegistry};
use action_path::error::Error;
use action_path::query::{ActionParameter, Environment};
use std::convert::TryFrom;
use std::fmt;

/// The value that these tests thread through the actions.
#[derive(Debug, Clone, PartialEq)]
enum Value {
    Nothing,
    Text(String),
    Integer(i32),
    Real(f64),
    Bool(bool),
    Bytes(Vec<u8>),
}

#[derive(Debug)]
struct NotConvertible(String);

impl fmt::Display for NotConvertible {
    fn fmt(&self, f: &mut fmt::Formatter<'_>) -> fmt::Result {
        f.write_str(&self.0)
    }
}

impl TryFrom<Value> for i32 {
    type Error = NotConvertible;

    fn try_from(value: Value) -> Result<Self, Self::Error> {
        match value {
            Value::Nothing => Err(NotConvertible(format!("Can't convert None to integer"))),
            Value::Text(_) => Err(NotConvertible(format!("Can't convert Text to integer"))),
            Value::Bool(_) => Err(NotConvertible(format!("Can't convert Bool to integer"))),
            Value::Integer(x) => Ok(x),
            Value::Real(_) => Err(NotConvertible(format!("Can't convert real number to integer"))),
            Value::Bytes(_) => Err(NotConvertible(format!("Can't convert bytes to integer"))),
        }
    }
}

impl From<i32> for Value {
    fn from(value: i32) -> Value {
        Value::Integer(value)
    }
}

#[test]
fn closure_call_action() -> Result<(), Error> {
    let a = |x: i32| x * x;
    let result = a.call_action(Value::Integer(2), &vec![])?;
    assert_eq!(result, Value::Integer(4));
    Ok(())
}

#[test]
fn function1_call_action() -> Result<(), Error> {
    let a = |x: i32| x * x;
    let result = Function1::new(a).call_action(Value::Integer(2), &vec![])?;
    assert_eq!(result, Value::Integer(4));
    Ok(())
}

#[test]
fn function2_call_action() -> Result<(), Error> {
    let a = |x: i32, y: i32| x * y;
    let result =
        Function2::new(a).call_action(Value::Integer(2), &vec![ActionParameter::new("3")])?;
    assert_eq!(result, Value::Integer(6));
    Ok(())
}

#[test]
fn test_registry1() -> Result<(), Error> {
    let mut registry = HashMapActionRegistry::<Value>::new();
    let a = |x: i32| x * x;
    registry.register_callable_action("root", "test", Box::new(Function1::new(a)));
    let result = registry.call("root", "test", Value::Integer(2), &vec![])?;
    assert_eq!(result, Value::Integer(4));
    Ok(())
}

#[test]
fn test_eval() -> Result<(), Error> {
    let mut registry = HashMapActionRegistry::<Value>::new();
    let square = |x: i32| x * x;
    let add = |x: i32, y: i32| x + y;
    registry.register_callable_action("root", "square", Box::new(Function1::new(square)));
    registry.register_callable_action("root", "add", Box::new(Function2::new(add)));
    let result = registry.eval(Value::Integer(2), "square/add-10")?;
    assert_eq!(result, Value::Integer(14));
    Ok(())
}
