//! The errors that state resolution reports.

use vstd::prelude::*;

verus! {

/// Why a resolution was abandoned. No partial result comes with an error.
#[derive(Debug)]
pub enum Error {
    /// The content of an event could not be parsed; holds the parser's message.
    SerdeJson(String),
    /// The room version is not one that this library knows.
    Unsupported(String),
    /// An event that was needed could not be fetched; holds its id.
    NotFound(String),
    /// An event is not built as its use demands; holds the reason.
    InvalidPdu(String),
}

/// The mathematical value of an `Error`: its kind and its text.
pub enum ErrorView {
    SerdeJson,
    Unsupported(Seq<char>),
    NotFound(Seq<char>),
    InvalidPdu(Seq<char>),
}

impl View for Error {
    type V = ErrorView;

    open spec fn view(&self) -> ErrorView {
        match self {
            Error::SerdeJson(_) => ErrorView::SerdeJson,
            Error::Unsupported(s) => ErrorView::Unsupported(s@),
            Error::NotFound(s) => ErrorView::NotFound(s@),
            Error::InvalidPdu(s) => ErrorView::InvalidPdu(s@),
        }
    }
}

/// The reason given when an event that must be a state event has no state key.
pub open spec fn no_state_key_reason() -> Seq<char> {
    "State event had no state key"@
}

/// The reason given when following power-level parents does not come to an end.
pub open spec fn auth_cycle_reason() -> Seq<char> {
    "Power level events form a cycle"@
}

/// The reason given when an event graph cannot be sorted to the end: some of its events
/// cite each other in a circle, or cite an event that is no node of the graph.
pub open spec fn unsorted_reason() -> Seq<char> {
    "Event graph cannot be sorted to the end"@
}

impl Error {
    /// The error as a line of text.
    pub fn message(&self) -> (text: String)
        ensures
            text@ == (match self {
                Error::SerdeJson(message) => message@,
                Error::Unsupported(version) => "The given option or version is unsupported: "@
                    + version@,
                Error::NotFound(event_id) => "Not found error: "@ + event_id@,
                Error::InvalidPdu(reason) => "Invalid PDU: "@ + reason@,
            }),
    {
        match self {
            Error::SerdeJson(message) => message.clone(),
            Error::Unsupported(version) => {
                let mut text = "The given option or version is unsupported: ".to_owned();
                text.append(version.as_str());
                text
            },
            Error::NotFound(event_id) => {
                let mut text = "Not found error: ".to_owned();
                text.append(event_id.as_str());
                text
            },
            Error::InvalidPdu(reason) => {
                let mut text = "Invalid PDU: ".to_owned();
                text.append(reason.as_str());
                text
            },
        }
    }

    /// The error for an event that could not be fetched.
    pub fn not_found(event_id: &String) -> (e: Error)
        ensures
            e@ == ErrorView::NotFound(event_id@),
    {
        Error::NotFound(event_id.clone())
    }

    /// The error for a state event without a state key.
    pub fn no_state_key() -> (e: Error)
        ensures
            e@ == ErrorView::InvalidPdu(no_state_key_reason()),
    {
        Error::InvalidPdu("State event had no state key".to_owned())
    }

    /// The error for an event graph that cannot be sorted to the end.
    pub fn unsorted_graph() -> (e: Error)
        ensures
            e@ == ErrorView::InvalidPdu(unsorted_reason()),
    {
        Error::InvalidPdu("Event graph cannot be sorted to the end".to_owned())
    }

    /// The error for power-level parents that lead back to themselves.
    pub fn auth_cycle() -> (e: Error)
        ensures
            e@ == ErrorView::InvalidPdu(auth_cycle_reason()),
    {
        Error::InvalidPdu("Power level events form a cycle".to_owned())
    }
}

} // verus!
