//! What can go wrong in the server.
use crate::engine::error;
use crate::engine::error::{EngineError, EngineErrorView};
use crate::text::join_text;
use vstd::prelude::*;
use vstd::string::*;

verus! {

/// A failure of the server. Those of the operating system and of encoding are kept as their text.
#[derive(Debug)]
pub enum ServerError {
    Configuration(String),
    Io(String),
    Serialization(String),
    ServiceTask(String),
    Engine(EngineError),
}

#[verifier::ext_equal]
pub enum ServerErrorView {
    Configuration(Seq<char>),
    Io(Seq<char>),
    Serialization(Seq<char>),
    ServiceTask(Seq<char>),
    Engine(EngineErrorView),
}

impl View for ServerError {
    type V = ServerErrorView;

    open spec fn view(&self) -> ServerErrorView {
        match *self {
            ServerError::Configuration(detail) => ServerErrorView::Configuration(detail@),
            ServerError::Io(detail) => ServerErrorView::Io(detail@),
            ServerError::Serialization(detail) => ServerErrorView::Serialization(detail@),
            ServerError::ServiceTask(detail) => ServerErrorView::ServiceTask(detail@),
            ServerError::Engine(cause) => ServerErrorView::Engine(cause@),
        }
    }
}

/// The text that an error is shown with.
pub open spec fn server_message(error: ServerErrorView) -> Seq<char> {
    match error {
        ServerErrorView::Configuration(detail) => "invalid server configuration: "@ + detail
            + ""@,
        ServerErrorView::Io(detail) => "I/O error: "@ + detail + ""@,
        ServerErrorView::Serialization(detail) => "protocol serialization error: "@ + detail
            + ""@,
        ServerErrorView::ServiceTask(detail) => "request service task failed: "@ + detail + ""@,
        ServerErrorView::Engine(cause) => "database engine error: "@ + error::engine_message(cause)
            + ""@,
    }
}

impl ServerError {
    /// The error as one line of text.
    pub fn message(&self) -> (shown: String)
        ensures
            shown@ == server_message(self@),
    {
        match self {
            ServerError::Configuration(detail) => join_text(
                "invalid server configuration: ",
                detail.as_str(),
                "",
            ),
            ServerError::Io(detail) => join_text("I/O error: ", detail.as_str(), ""),
            ServerError::Serialization(detail) => join_text(
                "protocol serialization error: ",
                detail.as_str(),
                "",
            ),
            ServerError::ServiceTask(detail) => join_text(
                "request service task failed: ",
                detail.as_str(),
                "",
            ),
            ServerError::Engine(cause) => {
                let inner = cause.message();
                join_text("database engine error: ", inner.as_str(), "")
            },
        }
    }
}

} // verus!
