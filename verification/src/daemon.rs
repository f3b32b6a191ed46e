//! Commands that reach the running daemon over its control socket.
use vstd::prelude::*;
use crate::text::{eq_str, to_chars, trim_chars, trim_ws, TrimMode};

verus! {

/// A request to the daemon.
#[derive(Debug, Clone, Copy, PartialEq, Eq, Structural)]
pub enum DaemonCommand {
    Toggle,
    Quit,
}

/// The command a control-socket line names: `toggle` or `quit` once surrounding white
/// space is trimmed.
pub open spec fn command_of_line(line: Seq<char>) -> Option<DaemonCommand> {
    let t = trim_ws(line);
    if t == "toggle"@ {
        Some(DaemonCommand::Toggle)
    } else if t == "quit"@ {
        Some(DaemonCommand::Quit)
    } else {
        None
    }
}

/// The command in one line read from the control socket, if it names one.
pub fn parse_command(line: &str) -> (c: Option<DaemonCommand>)
    ensures
        c == command_of_line(line@),
{
    let v = to_chars(line);
    let t = trim_chars(&v, TrimMode::Whitespace);
    if eq_str(&t, "toggle") {
        Some(DaemonCommand::Toggle)
    } else if eq_str(&t, "quit") {
        Some(DaemonCommand::Quit)
    } else {
        None
    }
}


} // verus!
