use vstd::prelude::*;
use vstd::string::StringExecFns;

verus! {

/// A message line of the build tooling: the colour code `msg_ansi`, the
/// message type, a colon, the code that resets the colour, then the message.
pub fn formatted(msg_type: &str, msg_ansi: &str, msg: &str) -> (r: String)
    ensures
        r@ == msg_ansi@ + msg_type@ + ": \x1b[0m"@ + msg@,
{
    let mut r = String::from_str(msg_ansi);
    r.append(msg_type);
    r.append(": \x1b[0m");
    r.append(msg);
    r
}

} // verus!
