//! The immutable chat message value.

use vstd::prelude::*;

verus! {

/// Mathematical image of a [`Message`]: every field as a plain value.
pub ghost struct MessageView {
    pub id: u64,
    pub room_id: Seq<char>,
    pub sender: Seq<char>,
    pub content: Seq<char>,
}

/// One chat utterance.  Immutable once constructed; a room's log and the
/// members' outbound queues hold copies of the same value.
#[derive(Debug, Clone)]
pub struct Message {
    pub id: u64,
    pub room_id: String,
    pub sender: String,
    pub content: String,
}

impl View for Message {
    type V = MessageView;

    open spec fn view(&self) -> MessageView {
        MessageView {
            id: self.id,
            room_id: self.room_id@,
            sender: self.sender@,
            content: self.content@,
        }
    }
}

impl Message {
    /// Constructs a message; the room actor is the single writer that does so
    /// for live traffic, assigning `id` from its own log.
    pub fn new(id: u64, room_id: String, sender: String, content: String) -> (m: Message)
        ensures
            m@ == (MessageView { id, room_id: room_id@, sender: sender@, content: content@ }),
    {
        Message { id, room_id, sender, content }
    }

    /// A copy whose view is the same as this message's view.
    pub fn duplicate(&self) -> (m: Message)
        ensures
            m@ == self@,
    {
        Message {
            id: self.id,
            room_id: clone_string(&self.room_id),
            sender: clone_string(&self.sender),
            content: clone_string(&self.content),
        }
    }
}

/// The views of a sequence of messages, in order.
pub open spec fn views_of(s: Seq<Message>) -> Seq<MessageView> {
    s.map_values(|m: Message| m@)
}

/// Appending one message appends its view.
pub proof fn lemma_views_of_push(s: Seq<Message>, m: Message)
    ensures
        views_of(s.push(m)) == views_of(s).push(m@),
{
    assert(views_of(s.push(m)) =~= views_of(s).push(m@));
}

/// A `String` whose view equals the argument's view.
pub fn clone_string(s: &String) -> (r: String)
    ensures
        r@ == s@,
{
    s.clone()
}

} // verus!
