//! The errors that parsing, parameter coercion and action dispatch report.
use crate::query::Position;
use crate::text::push_text;
use vstd::prelude::*;
use vstd::string::StringExecFns;

verus! {

/// What went wrong, for the caller to match on.
#[derive(Debug)]
pub enum Error {
    /// A required parameter was not supplied.
    ArgumentNotSpecified,
    /// Unknown namespace, or unknown action name in a known namespace.
    ActionNotRegistered { message: String },
    /// The grammar left input over, or an escape sequence was malformed.
    ParseError { message: String, position: Position },
    /// A parameter's text could not be read as the native type asked for.
    ParameterError { message: String, position: Position },
    /// A value could not be converted to or from a native type.
    ConversionError { message: String },
    /// A value could not be written to or read from bytes.
    SerializationError { message: String, format: String },
    /// Anything else: so far, a parameter of a kind that cannot be read.
    General { message: String },
}

/// An `Error` with its texts as sequences of characters.
pub enum ErrorModel {
    ArgumentNotSpecified,
    ActionNotRegistered { message: Seq<char> },
    ParseError { message: Seq<char>, position: Position },
    ParameterError { message: Seq<char>, position: Position },
    ConversionError { message: Seq<char> },
    SerializationError { message: Seq<char>, format: Seq<char> },
    General { message: Seq<char> },
}

impl View for Error {
    type V = ErrorModel;

    open spec fn view(&self) -> ErrorModel {
        match *self {
            Error::ArgumentNotSpecified => ErrorModel::ArgumentNotSpecified,
            Error::ActionNotRegistered { message } => ErrorModel::ActionNotRegistered {
                message: message@,
            },
            Error::ParseError { message, position } => ErrorModel::ParseError {
                message: message@,
                position,
            },
            Error::ParameterError { message, position } => ErrorModel::ParameterError {
                message: message@,
                position,
            },
            Error::ConversionError { message } => ErrorModel::ConversionError { message: message@ },
            Error::SerializationError { message, format } => ErrorModel::SerializationError {
                message: message@,
                format: format@,
            },
            Error::General { message } => ErrorModel::General { message: message@ },
        }
    }
}

impl Clone for Error {
    fn clone(&self) -> (r: Self)
        ensures
            r@ == self@,
    {
        match self {
            Error::ArgumentNotSpecified => Error::ArgumentNotSpecified,
            Error::ActionNotRegistered { message } => Error::ActionNotRegistered {
                message: message.clone(),
            },
            Error::ParseError { message, position } => Error::ParseError {
                message: message.clone(),
                position: *position,
            },
            Error::ParameterError { message, position } => Error::ParameterError {
                message: message.clone(),
                position: *position,
            },
            Error::ConversionError { message } => Error::ConversionError {
                message: message.clone(),
            },
            Error::SerializationError { message, format } => Error::SerializationError {
                message: message.clone(),
                format: format.clone(),
            },
            Error::General { message } => Error::General { message: message.clone() },
        }
    }
}

impl ErrorModel {
    /// The line that describes the error to a reader.
    pub open spec fn text(self) -> Seq<char> {
        match self {
            ErrorModel::ArgumentNotSpecified => "Argument not specified"@,
            ErrorModel::ActionNotRegistered { message } => "Error: "@ + message,
            ErrorModel::ParseError { message, position } => "Error: "@ + message + " "@
                + position.text(),
            ErrorModel::ParameterError { message, position } => "Error: "@ + message + " "@
                + position.text(),
            ErrorModel::ConversionError { message } => "Error: "@ + message,
            ErrorModel::SerializationError { message, format } => "Error: "@ + message,
            ErrorModel::General { message } => "Error: "@ + message,
        }
    }
}

fn prefixed(message: &String) -> (s: String)
    ensures
        s@ == "Error: "@ + message@,
{
    let mut s = String::from_str("Error: ");
    push_text(&mut s, message.as_str());
    s
}

fn prefixed_at(message: &String, position: &Position) -> (s: String)
    ensures
        s@ == "Error: "@ + message@ + " "@ + position.text(),
{
    let mut s = prefixed(message);
    push_text(&mut s, " ");
    let p = position.to_string();
    push_text(&mut s, p.as_str());
    s
}

impl Error {
    /// The line that describes the error to a reader.
    pub fn to_string(&self) -> (s: String)
        ensures
            s@ == self@.text(),
    {
        match self {
            Error::ArgumentNotSpecified => String::from_str("Argument not specified"),
            Error::ActionNotRegistered { message } => prefixed(message),
            Error::ParseError { message, position } => prefixed_at(message, position),
            Error::ParameterError { message, position } => prefixed_at(message, position),
            Error::ConversionError { message } => prefixed(message),
            Error::SerializationError { message, format: _ } => prefixed(message),
            Error::General { message } => prefixed(message),
        }
    }
}

} // verus!
