//! Errors of the state store.

use vstd::prelude::*;
use vstd::string::*;

verus! {

#[verifier::external_type_specification]
#[verifier::external_body]
pub struct ExIoError(std::io::Error);

#[verifier::external_type_specification]
#[verifier::external_body]
pub struct ExJsonError(serde_json::Error);

#[verifier::external_type_specification]
#[verifier::external_body]
pub struct ExSqliteError(rusqlite::Error);

/// What can go wrong with the state store.
#[derive(Debug)]
pub enum StateError {
    Sqlite(rusqlite::Error),
    Serde(serde_json::Error),
    Io(std::io::Error),
    InvalidInput(String),
}

/// One text behind another.
pub fn labelled(label: &str, text: &str) -> (r: String)
    ensures
        r@ == label@ + text@,
{
    let mut r: String = label.to_owned();
    r.append(text);
    r
}

impl StateError {
    /// What the error says of itself: a label for its source, and behind it the
    /// message.
    pub fn message(&self) -> (r: String)
        ensures
            match *self {
                StateError::Sqlite(error) => exists|inner: String|
                    #[trigger] to_string_from_display_ensures(&error, inner) && r@
                        == "state sqlite error: "@ + inner@,
                StateError::Serde(error) => exists|inner: String|
                    #[trigger] to_string_from_display_ensures(&error, inner) && r@
                        == "state serde error: "@ + inner@,
                StateError::Io(error) => exists|inner: String|
                    #[trigger] to_string_from_display_ensures(&error, inner) && r@
                        == "state io error: "@ + inner@,
                StateError::InvalidInput(message) => r@ == "state invalid input: "@ + message@,
            },
    {
        match self {
            StateError::Sqlite(error) => labelled("state sqlite error: ", error.to_string().as_str()),
            StateError::Serde(error) => labelled("state serde error: ", error.to_string().as_str()),
            StateError::Io(error) => labelled("state io error: ", error.to_string().as_str()),
            StateError::InvalidInput(message) => labelled(
                "state invalid input: ",
                message.as_str(),
            ),
        }
    }
}

impl From<rusqlite::Error> for StateError {
    fn from(value: rusqlite::Error) -> (r: StateError) {
        StateError::Sqlite(value)
    }
}

impl vstd::std_specs::convert::FromSpecImpl<rusqlite::Error> for StateError {
    open spec fn obeys_from_spec() -> bool {
        true
    }

    open spec fn from_spec(value: rusqlite::Error) -> StateError {
        StateError::Sqlite(value)
    }
}

impl From<serde_json::Error> for StateError {
    fn from(value: serde_json::Error) -> (r: StateError) {
        StateError::Serde(value)
    }
}

impl vstd::std_specs::convert::FromSpecImpl<serde_json::Error> for StateError {
    open spec fn obeys_from_spec() -> bool {
        true
    }

    open spec fn from_spec(value: serde_json::Error) -> StateError {
        StateError::Serde(value)
    }
}

impl From<std::io::Error> for StateError {
    fn from(value: std::io::Error) -> (r: StateError) {
        StateError::Io(value)
    }
}

impl vstd::std_specs::convert::FromSpecImpl<std::io::Error> for StateError {
    open spec fn obeys_from_spec() -> bool {
        true
    }

    open spec fn from_spec(value: std::io::Error) -> StateError {
        StateError::Io(value)
    }
}

} // verus!
