use vstd::prelude::*;
use vstd::string::StringExecFns;

verus! {

/// A chat line: the sender's name, tagged and coloured, then the message.
pub fn format_chat(sender: &str, msg: &str) -> (r: String)
    ensures
        r@ == "\x1b[94m[CHAT:\x1b[3m"@ + sender@ + "\x1b[23m]\x1b[0m "@ + msg@,
{
    let s = <String as StringExecFns>::from_str("\x1b[94m[CHAT:\x1b[3m");
    let s = s.concat(sender);
    let s = s.concat("\x1b[23m]\x1b[0m ");
    s.concat(msg)
}

/// A log line: the name in brackets in the given terminal style, then the message.
pub fn format_log(style: &str, name: &str, msg: &str) -> (r: String)
    ensures
        r@ == "\x1b["@ + style@ + "m["@ + name@ + "]\x1b[0m "@ + msg@,
{
    let s = <String as StringExecFns>::from_str("\x1b[");
    let s = s.concat(style);
    let s = s.concat("m[");
    let s = s.concat(name);
    let s = s.concat("]\x1b[0m ");
    s.concat(msg)
}

} // verus!
