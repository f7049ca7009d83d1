//! The decisions of the HTTP host around the command line: which codegen
//! mode a route name selects, and how the command's exit status becomes an
//! HTTP reply. Spawning the command, piping the body and answering stay with
//! the program.
use vstd::prelude::*;
use crate::text::str_eq;

verus! {

/// Which output stream of the command a reply carries.
#[derive(Debug, Clone, Copy, PartialEq, Eq, Structural)]
pub enum ReplyStream {
    /// The command's standard output.
    Stdout,
    /// The command's standard error.
    Stderr,
}

/// The command-line flag a `/codegen/<mode>` route selects: only the two
/// documented modes are exposed; any other mode is unknown (`None`).
pub fn codegen_flag(mode: &str) -> (r: Option<&'static str>)
    ensures
        mode@ == "classids"@ ==> (r matches Some(f) && f@ == "--classids"@),
        mode@ == "actions"@ ==> (r matches Some(f) && f@ == "--actions"@),
        mode@ != "classids"@ && mode@ != "actions"@ ==> r is None,
{
    proof {
        reveal_strlit("classids");
        reveal_strlit("actions");
        assert("classids"@.len() != "actions"@.len());
    }
    if str_eq(mode, "classids") {
        Some("--classids")
    } else if str_eq(mode, "actions") {
        Some("--actions")
    } else {
        None
    }
}

/// The HTTP reply to the command's exit status: `0` answers 200 with its
/// output; `2` (degenerate input) answers 422 with its error text; any other
/// status, or none (killed by a signal), answers 500 with its error text.
pub fn reply_for_exit(code: Option<i32>) -> (r: (u16, ReplyStream))
    ensures
        code == Some(0i32) ==> r == (200u16, ReplyStream::Stdout),
        code == Some(2i32) ==> r == (422u16, ReplyStream::Stderr),
        code != Some(0i32) && code != Some(2i32) ==> r == (500u16, ReplyStream::Stderr),
{
    match code {
        Some(0) => (200, ReplyStream::Stdout),
        Some(2) => (422, ReplyStream::Stderr),
        _ => (500, ReplyStream::Stderr),
    }
}

} // verus!
