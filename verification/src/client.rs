//! The rules of the command line client.
use crate::engine::schema::same_text;
use crate::server::net;
use crate::server::net::QuantaResponse;
use crate::server::sql::executor::{QueryResult, ResultView};
use crate::text::join_text;
use vstd::prelude::*;
use vstd::string::*;

verus! {

/// What a client gets of an answer: a result, or what went wrong.
pub open spec fn result_of(response: net::ResponseView) -> Result<ResultView, Seq<char>> {
    if !response.success {
        Err(
            match response.error {
                Some(error) => error,
                None => "Unknown error"@,
            },
        )
    } else {
        Ok(
            ResultView {
                success: true,
                message: response.message,
                data: response.data,
                affected_rows: None,
            },
        )
    }
}

/// What a client gets of an answer.
pub fn take_response(response: QuantaResponse) -> (result: Result<QueryResult, String>)
    ensures
        match result {
            Ok(result) => result_of(response@) == Ok::<ResultView, Seq<char>>(result@),
            Err(message) => result_of(response@) == Err::<ResultView, Seq<char>>(message@),
        },
{
    if !response.success {
        return match response.error {
            Some(error) => Err(error),
            None => Err(String::from_str("Unknown error")),
        };
    }
    Ok(
        QueryResult {
            success: response.success,
            message: response.message,
            data: response.data,
            affected_rows: None,
        },
    )
}

/// What a line that begins with a backslash asks for.
pub enum Command {
    Help,
    Quit,
    Status,
    Unknown { message: String },
}

#[verifier::ext_equal]
pub enum CommandView {
    Help,
    Quit,
    Status,
    Unknown { message: Seq<char> },
}

impl View for Command {
    type V = CommandView;

    open spec fn view(&self) -> CommandView {
        match self {
            Command::Help => CommandView::Help,
            Command::Quit => CommandView::Quit,
            Command::Status => CommandView::Status,
            Command::Unknown { message } => CommandView::Unknown { message: message@ },
        }
    }
}

/// What a command asks for.
pub open spec fn command_of(line: Seq<char>) -> CommandView {
    if line == "\\help"@ || line == "\\h"@ {
        CommandView::Help
    } else if line == "\\quit"@ || line == "\\q"@ || line == "\\exit"@ {
        CommandView::Quit
    } else if line == "\\status"@ {
        CommandView::Status
    } else {
        CommandView::Unknown {
            message: "Unknown command: "@ + line + ". Type \\help for help."@,
        }
    }
}

/// What a command asks for.
pub fn cli_command(line: &str) -> (command: Command)
    ensures
        command@ == command_of(line@),
{
    if same_text(line, "\\help") || same_text(line, "\\h") {
        Command::Help
    } else if same_text(line, "\\quit") || same_text(line, "\\q") || same_text(line, "\\exit") {
        Command::Quit
    } else if same_text(line, "\\status") {
        Command::Status
    } else {
        Command::Unknown { message: join_text("Unknown command: ", line, ". Type \\help for help.") }
    }
}

} // verus!
