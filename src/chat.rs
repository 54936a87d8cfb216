use vstd::prelude::*;

verus! {

/// A line of text typed at the operator console, with who sent it.
pub struct ChatMessage {
    pub content: String,
    pub sender: String,
}

} // verus!
