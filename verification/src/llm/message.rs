//! Messages of a prompt.
use vstd::prelude::*;

verus! {

/// Who speaks.
#[derive(Clone, Copy, Debug, PartialEq, Eq, Structural)]
pub enum Role {
    System,
    User,
}

/// One message.
#[derive(Debug)]
pub struct Message {
    pub role: Role,
    pub content: String,
}

/// A message as plain values.
pub struct MessageView {
    pub role: Role,
    pub content: Seq<char>,
}

impl View for Message {
    type V = MessageView;

    open spec fn view(&self) -> MessageView {
        MessageView { role: self.role, content: self.content@ }
    }
}

impl Message {
    /// A message that sets the model's task.
    pub fn system(content: String) -> (r: Message)
        ensures
            r@ == (MessageView { role: Role::System, content: content@ }),
    {
        Message { role: Role::System, content }
    }

    /// A message that asks.
    pub fn user(content: String) -> (r: Message)
        ensures
            r@ == (MessageView { role: Role::User, content: content@ }),
    {
        Message { role: Role::User, content }
    }
}

/// The views of a prompt's messages.
pub open spec fn message_views(messages: Seq<Message>) -> Seq<MessageView> {
    messages.map_values(|m: Message| m@)
}

/// A prompt of a system message and a user message.
pub open spec fn prompt(system: Seq<char>, user: Seq<char>) -> Seq<MessageView> {
    seq![
        MessageView { role: Role::System, content: system },
        MessageView { role: Role::User, content: user },
    ]
}

/// A prompt of a system message and a user message.
pub(crate) fn make_prompt(system: String, user: String) -> (r: Vec<Message>)
    ensures
        message_views(r@) == prompt(system@, user@),
{
    let mut out: Vec<Message> = Vec::new();
    out.push(Message::system(system));
    out.push(Message::user(user));
    assert(message_views(out@) =~= prompt(system@, user@));
    out
}

} // verus!
