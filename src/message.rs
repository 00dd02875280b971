use vstd::prelude::*;

verus! {

/// A labelled training message.
#[derive(Debug, Copy, Clone, Default)]
pub struct Message<'a> {
    pub text: &'a str,
    pub is_spam: bool,
}

impl<'a> Message<'a> {
    /// A ham message with the given text.
    pub fn new(text: &'a str) -> (r: Message<'a>)
        ensures
            r.text@ == text@,
            !r.is_spam,
    {
        Message { text, is_spam: false }
    }

    pub fn is_spam(&self) -> (r: bool)
        ensures
            r == self.is_spam,
    {
        self.is_spam
    }
}

/// What training reads of a message: its text and its label.
pub open spec fn message_view(m: Message<'_>) -> (Seq<char>, bool) {
    (m.text@, m.is_spam)
}

} // verus!
