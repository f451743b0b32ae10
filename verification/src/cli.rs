//! The command line: a bare invocation (or `render`) prints the statusline,
//! `state <mode>` is the working/waiting hook.
use vstd::prelude::*;
use crate::text::str_eq;

verus! {

/// What the command line asks for.
pub enum Command {
    /// Print the statusline.
    Render,
    /// Run the state hook with this mode (`working`, `waiting` or `clear`).
    State(String),
    /// `state` without a valid mode: print the usage line.
    Usage,
    /// Anything else: an unknown command.
    Unknown(String),
}

/// A mode the state hook accepts.
pub open spec fn is_mode(m: Seq<char>) -> bool {
    m == "working"@ || m == "waiting"@ || m == "clear"@
}

/// The command for the first two arguments after the program name.
pub fn command(first: Option<&str>, second: Option<&str>) -> (r: Command)
    ensures
        match r {
            Command::Render => first is None || first->0@ == "render"@,
            Command::State(m) => {
                &&& first is Some && first->0@ == "state"@
                &&& second is Some && second->0@ == m@
                &&& is_mode(m@)
            },
            Command::Usage => {
                &&& first is Some && first->0@ == "state"@
                &&& !(second is Some && is_mode(second->0@))
            },
            Command::Unknown(o) => {
                &&& first is Some && o@ == first->0@
                &&& first->0@ != "render"@ && first->0@ != "state"@
            },
        },
{
    match first {
        None => Command::Render,
        Some(a) => if str_eq(a, "render") {
            Command::Render
        } else if str_eq(a, "state") {
            match second {
                Some(b) => if str_eq(b, "working") || str_eq(b, "waiting") || str_eq(b, "clear") {
                    Command::State(String::from_str(b))
                } else {
                    Command::Usage
                },
                None => Command::Usage,
            }
        } else {
            Command::Unknown(String::from_str(a))
        },
    }
}

} // verus!
