//! The flash message itself: a severity level and a text.

use vstd::prelude::*;

verus! {

/// One flash notification: a severity level (such as `info`) and the text
/// shown to the user. Both fields are stored verbatim; the library attaches
/// no meaning to their contents.
pub struct Message {
    pub level: String,
    pub text: String,
}

/// The mathematical content of a [`Message`]: its two fields as character
/// sequences.
#[verifier::ext_equal]
pub ghost struct MessageView {
    pub level: Seq<char>,
    pub text: Seq<char>,
}

impl View for Message {
    type V = MessageView;

    open spec fn view(&self) -> MessageView {
        MessageView { level: self.level@, text: self.text@ }
    }
}

impl Message {
    /// Builds a message from its two parts, kept verbatim.
    pub fn new(level: String, text: String) -> (r: Message)
        ensures
            r@.level == level@,
            r@.text == text@,
    {
        Message { level, text }
    }
}

/// The views of a sequence of messages, element by element.
pub open spec fn msg_views(ms: Seq<Message>) -> Seq<MessageView> {
    Seq::new(ms.len(), |i: int| ms[i]@)
}

} // verus!
