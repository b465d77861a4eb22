//! Chat messages as the server hands them out.

use vstd::prelude::*;

verus! {

/// One chat message. The server assigns `id`, and ids grow with creation
/// order, so `id` is the key by which messages are ordered.
#[derive(Debug, PartialEq, Eq)]
pub struct Message {
    pub id: usize,
    pub author: usize,
    pub channel: usize,
    pub text: Vec<u8>,
    pub timestamp: i64,
    pub timestamp_edit: Option<i64>,
}

/// The mathematical value of a [`Message`].
pub struct MessageView {
    pub id: usize,
    pub author: usize,
    pub channel: usize,
    pub text: Seq<u8>,
    pub timestamp: i64,
    pub timestamp_edit: Option<i64>,
}

impl View for Message {
    type V = MessageView;

    open spec fn view(&self) -> MessageView {
        MessageView {
            id: self.id,
            author: self.author,
            channel: self.channel,
            text: self.text@,
            timestamp: self.timestamp,
            timestamp_edit: self.timestamp_edit,
        }
    }
}

impl Clone for Message {
    fn clone(&self) -> (copy: Message)
        ensures
            copy@ == self@,
    {
        Message {
            id: self.id,
            author: self.author,
            channel: self.channel,
            text: self.text.clone(),
            timestamp: self.timestamp,
            timestamp_edit: self.timestamp_edit,
        }
    }
}

impl MessageView {
    /// This message with its text and edit time replaced, everything else kept.
    pub open spec fn edited(self, text: Seq<u8>, timestamp_edit: Option<i64>) -> MessageView {
        MessageView { text, timestamp_edit, ..self }
    }
}

} // verus!
