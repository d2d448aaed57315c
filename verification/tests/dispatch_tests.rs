use action_path::action_registry::{CallableAction, Function1, Function2, HashMapActionRegistry};
use action_path::error::Error;
use action_path::query::{
    ActionParameter, ActionParametersSlice, Environment, Position, TryActionParametersInto,
    TryParameterFrom,
};
use std::cell::Cell;
use std::convert::TryFrom;
use std::fmt;
use std::rc::Rc;

/// A number, or a word that is none.
#[derive(Debug, Clone, PartialEq)]
enum Item {
    Number(i32),
    Word(String),
}

#[derive(Debug)]
struct Unfit(String);

impl fmt::Display for Unfit {
    fn fmt(&self, f: &mut fmt::Formatter<'_>) -> fmt::Result {
        f.write_str(&self.0)
    }
}

impl TryFrom<Item> for i32 {
    type Error = Unfit;

    fn try_from(item: Item) -> Result<i32, Unfit> {
        match item {
            Item::Number(x) => Ok(x),
            Item::Word(_) => Err(Unfit("Can't convert Text to integer".to_owned())),
        }
    }
}

impl From<i32> for Item {
    fn from(x: i32) -> Item {
        Item::Number(x)
    }
}

impl From<String> for Item {
    fn from(s: String) -> Item {
        Item::Word(s)
    }
}

/// A number from 0 to 9.
#[derive(Debug, Clone, PartialEq)]
struct Digit(i32);

impl TryFrom<Digit> for i32 {
    type Error = Unfit;

    fn try_from(d: Digit) -> Result<i32, Unfit> {
        Ok(d.0)
    }
}

impl TryFrom<i32> for Digit {
    type Error = Unfit;

    fn try_from(x: i32) -> Result<Digit, Unfit> {
        if 0 <= x && x <= 9 {
            Ok(Digit(x))
        } else {
            Err(Unfit(format!("{} is no digit", x)))
        }
    }
}

fn registry() -> HashMapActionRegistry<Item> {
    let mut registry = HashMapActionRegistry::<Item>::new();
    registry.register_callable_action("root", "square", Box::new(Function1::new(|x: i32| x * x)));
    registry.register_callable_action(
        "root",
        "add",
        Box::new(Function2::new(|x: i32, y: i32| x + y)),
    );
    registry.register_callable_action(
        "root",
        "tag",
        Box::new(Function2::new(|x: i32, y: String| format!("{}{}", y, x))),
    );
    registry.register_callable_action("other", "twice", Box::new(Function1::new(|x: i32| 2 * x)));
    registry
}

#[test]
fn composition_threads_the_value() {
    let mut registry = registry();
    assert_eq!(registry.eval(Item::Number(2), "square/add-10").unwrap(), Item::Number(14));
    assert_eq!(registry.eval(Item::Number(2), "add-10/square").unwrap(), Item::Number(144));
    assert_eq!(registry.eval(Item::Number(3), "add-~5/square").unwrap(), Item::Number(4));
    assert_eq!(
        registry.eval(Item::Number(3), "square/tag-n%20").unwrap(),
        Item::Word("n 9".to_owned())
    );
    assert_eq!(registry.eval(Item::Number(7), "").unwrap(), Item::Number(7));
    assert_eq!(registry.eval(Item::Word("w".to_owned()), "").unwrap(), Item::Word("w".to_owned()));
}

#[test]
fn unknown_namespace_and_unknown_name_are_told_apart() {
    let registry = registry();
    let missing_name = registry.call("root", "missing", Item::Number(1), &vec![]);
    let missing_namespace = registry.call("nope", "square", Item::Number(1), &vec![]);
    match (missing_name, missing_namespace) {
        (
            Err(Error::ActionNotRegistered { message: name }),
            Err(Error::ActionNotRegistered { message: namespace }),
        ) => {
            assert_eq!(name, "Action missing not registered in namespace root");
            assert_eq!(namespace, "Action square not registered in namespace nope; no such namespace");
        }
        _ => panic!("not reported as not registered"),
    }
    match registry.call("other", "square", Item::Number(1), &vec![]) {
        Err(Error::ActionNotRegistered { message }) => {
            assert_eq!(message, "Action square not registered in namespace other")
        }
        _ => panic!("not reported as not registered"),
    }
    assert_eq!(
        registry.call("other", "twice", Item::Number(4), &vec![]).unwrap(),
        Item::Number(8)
    );
}

#[test]
fn empty_registry_knows_no_namespace() {
    let mut registry = HashMapActionRegistry::<Item>::new();
    match registry.eval(Item::Number(1), "square") {
        Err(Error::ActionNotRegistered { message }) => {
            assert_eq!(message, "Action square not registered in namespace root; no such namespace")
        }
        _ => panic!("not reported as not registered"),
    }
}

#[test]
fn last_registration_wins() {
    let mut registry = registry();
    registry.register_callable_action("root", "square", Box::new(Function1::new(|x: i32| x + 1)));
    assert_eq!(registry.eval(Item::Number(5), "square").unwrap(), Item::Number(6));
    assert_eq!(registry.eval(Item::Number(5), "add-1").unwrap(), Item::Number(6));
    assert_eq!(
        registry.call("other", "twice", Item::Number(5), &vec![]).unwrap(),
        Item::Number(10)
    );
}

#[test]
fn first_error_ends_the_evaluation() {
    let calls = Rc::new(Cell::new(0));
    let seen = calls.clone();
    let mut registry = registry();
    registry.register_callable_action(
        "root",
        "count",
        Box::new(Function1::new(move |x: i32| {
            seen.set(seen.get() + 1);
            x
        })),
    );
    match registry.eval(Item::Number(2), "count/unknown-1/count") {
        Err(Error::ActionNotRegistered { message }) => {
            assert_eq!(message, "Action unknown not registered in namespace root")
        }
        _ => panic!("not reported as not registered"),
    }
    assert_eq!(calls.get(), 1);
    assert!(registry.eval(Item::Number(2), "count/count/add/count").is_err());
    assert_eq!(calls.get(), 3);
}

#[test]
fn parse_error_ends_the_evaluation_before_any_action() {
    let calls = Rc::new(Cell::new(0));
    let seen = calls.clone();
    let mut registry = HashMapActionRegistry::<Item>::new();
    registry.register_callable_action(
        "root",
        "count",
        Box::new(Function1::new(move |x: i32| {
            seen.set(seen.get() + 1);
            x
        })),
    );
    match registry.eval(Item::Number(2), "count/count-%zz") {
        Err(Error::ParseError { message, position }) => {
            assert_eq!(message, "Invalid percent escape: two hexadecimal digits must follow '%'");
            assert_eq!(position, Position { offset: 13, line: 1, column: 14 });
        }
        _ => panic!("no parse error"),
    }
    assert!(matches!(registry.eval(Item::Number(2), "count/?"), Err(Error::ParseError { .. })));
    assert_eq!(calls.get(), 0);
}

#[test]
fn input_that_does_not_convert_is_a_conversion_error() {
    let f = Function1::new(|x: i32| x * x);
    match f.call_action(Item::Word("w".to_owned()), &vec![]) {
        Err(Error::ConversionError { message }) => {
            assert_eq!(message, "Input argument conversion failed; Can't convert Text to integer")
        }
        _ => panic!("no conversion error"),
    }
    let g = Function2::new(|x: i32, y: i32| x + y);
    match g.call_action(Item::Word("w".to_owned()), &vec![]) {
        Err(Error::ConversionError { message }) => {
            assert_eq!(message, "Input argument conversion failed; Can't convert Text to integer")
        }
        _ => panic!("no conversion error"),
    }
    let h = |x: i32| x + 1;
    match h.call_action(Item::Word("w".to_owned()), &vec![]) {
        Err(Error::ConversionError { message }) => {
            assert_eq!(message, "Input argument conversion failed; Can't convert Text to integer")
        }
        _ => panic!("no conversion error"),
    }
}

#[test]
fn result_that_does_not_convert_is_a_conversion_error() {
    let h = |x: i32| x + 5;
    assert_eq!(h.call_action(Digit(4), &vec![]).unwrap(), Digit(9));
    match h.call_action(Digit(5), &vec![]) {
        Err(Error::ConversionError { message }) => {
            assert_eq!(message, "Result conversion failed; 10 is no digit")
        }
        _ => panic!("no conversion error"),
    }
}

#[test]
fn second_argument_comes_from_the_first_parameter() {
    let g = Function2::new(|x: i32, y: i32| x - y);
    let two = vec![ActionParameter::new("3"), ActionParameter::new("x")];
    assert_eq!(g.call_action(Item::Number(10), &two).unwrap(), Item::Number(7));
    assert!(matches!(
        g.call_action(Item::Number(10), &vec![]),
        Err(Error::ArgumentNotSpecified)
    ));
    let place = Position { offset: 4, line: 1, column: 5 };
    let bad = vec![ActionParameter::new_parsed("1x".to_owned(), place)];
    match g.call_action(Item::Number(10), &bad) {
        Err(Error::ParameterError { message, position }) => {
            assert_eq!(message, "Can't parse '1x' as integer");
            assert_eq!(position, place);
        }
        _ => panic!("no parameter error"),
    }
    let link = vec![ActionParameter::Link("3".to_owned(), Position::unknown())];
    match g.call_action(Item::Number(10), &link) {
        Err(Error::General { message }) => assert_eq!(message, "Not implemented"),
        _ => panic!("no general error"),
    }
}

#[test]
fn one_argument_takes_no_parameter() {
    let f = Function1::new(|x: i32| x + 1);
    let given = vec![ActionParameter::new("9")];
    assert_eq!(f.call_action(Item::Number(1), &given).unwrap(), Item::Number(2));
}

#[test]
fn integers_are_read_in_decimal() {
    assert_eq!(i32::try_parameter_from("0"), Ok(0));
    assert_eq!(i32::try_parameter_from("007"), Ok(7));
    assert_eq!(i32::try_parameter_from("+12"), Ok(12));
    assert_eq!(i32::try_parameter_from("-12"), Ok(-12));
    assert_eq!(i32::try_parameter_from("2147483647"), Ok(2147483647));
    assert_eq!(i32::try_parameter_from("-2147483648"), Ok(-2147483648));
    for text in ["", "+", "-", "2147483648", "-2147483649", "1 ", " 1", "1_0", "0x10", "1.0", "\u{0663}", "--1"] {
        assert_eq!(i32::try_parameter_from(text), Err(format!("Can't parse '{}' as integer", text)));
    }
}

#[test]
fn text_is_read_as_it_is() {
    assert_eq!(String::try_parameter_from(""), Ok("".to_owned()));
    assert_eq!(String::try_parameter_from("a b-~"), Ok("a b-~".to_owned()));
}

#[test]
fn cursor_moves_only_where_a_value_comes_back() {
    let v = [ActionParameter::new("x"), ActionParameter::new("2")];
    let mut par = ActionParametersSlice(&v[..]);
    let first: Result<i32, Error> = par.try_parameters_into(&mut ());
    assert!(matches!(first, Err(Error::ParameterError { .. })));
    assert_eq!(par.0.len(), 2);
    let first: Result<String, Error> = par.try_parameters_into(&mut ());
    assert_eq!(first.unwrap(), "x");
    assert_eq!(par.0.len(), 1);
    let second: Result<i32, Error> = par.try_parameters_into(&mut ());
    assert_eq!(second.unwrap(), 2);
    assert_eq!(par.0.len(), 0);
    let third: Result<i32, Error> = par.try_parameters_into(&mut ());
    assert!(matches!(third, Err(Error::ArgumentNotSpecified)));
}
