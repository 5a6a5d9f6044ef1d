//! Messages that wait until every workspace folder is initialized.

use std::collections::VecDeque;

use vstd::prelude::*;

use crate::text;

verus! {

/// The kind of a message.
#[derive(Clone, Copy, Debug, PartialEq, Eq, Structural)]
pub enum MessageKind {
    Request,
    Response,
    Notification,
}

/// A message of the client.
#[derive(Debug)]
pub struct Message<P> {
    pub kind: MessageKind,
    /// The method of a request or a notification.
    pub method: String,
    pub payload: P,
}

/// Whether a message is looked at even while folders are being initialized: a response, the request
/// to shut down and the notification to exit.
pub open spec fn is_urgent<P>(message: Message<P>) -> bool {
    match message.kind {
        MessageKind::Request => message.method@ == "shutdown"@,
        MessageKind::Response => true,
        MessageKind::Notification => message.method@ == "exit"@,
    }
}

/// The messages that wait, in the order in which they came.
#[derive(Debug)]
pub struct DeferredMessages<P> {
    pub messages: VecDeque<Message<P>>,
}

impl<P> DeferredMessages<P> {
    /// No messages.
    pub fn new() -> (deferred: Self)
        ensures
            deferred.messages@ == Seq::<Message<P>>::empty(),
    {
        DeferredMessages { messages: VecDeque::new() }
    }

    /// Takes a message: gives it back if it is to be handled now, and else keeps it.
    pub fn should_defer_message(&mut self, all_initialized: bool, message: Message<P>) -> (now: Option<
        Message<P>,
    >)
        ensures
            if all_initialized || is_urgent(message) {
                now == Some(message) && final(self).messages@ == old(self).messages@
            } else {
                now is None && final(self).messages@ == old(self).messages@.push(message)
            },
    {
        if all_initialized {
            return Some(message);
        }
        let urgent = match message.kind {
            MessageKind::Request => text::same_text(message.method.as_str(), "shutdown"),
            MessageKind::Response => true,
            MessageKind::Notification => text::same_text(message.method.as_str(), "exit"),
        };
        if urgent {
            return Some(message);
        }
        self.messages.push_back(message);
        None
    }

    /// The message that waits longest, once every folder is initialized.
    pub fn take_deferred_messages(&mut self, all_initialized: bool) -> (next: Option<Message<P>>)
        ensures
            if all_initialized && old(self).messages@.len() > 0 {
                next == Some(old(self).messages@[0]) && final(self).messages@
                    == old(self).messages@.skip(1)
            } else {
                next is None && final(self).messages@ == old(self).messages@
            },
    {
        if all_initialized {
            let ghost before = self.messages@;
            let next = self.messages.pop_front();
            proof {
                if before.len() > 0 {
                    assert(self.messages@ =~= before.skip(1));
                }
            }
            next
        } else {
            None
        }
    }
}

/// What is left after taking messages, one after the other.
pub open spec fn after_taking<P>(messages: Seq<Message<P>>, count: nat) -> Seq<Message<P>>
    decreases count,
{
    if count == 0 || messages.len() == 0 {
        messages
    } else {
        after_taking(messages.skip(1), (count - 1) as nat)
    }
}

/// Messages are taken in the order in which they came, and none is lost: after any number of them
/// the rest waits in order.
pub proof fn law_messages_keep_their_order<P>(messages: Seq<Message<P>>, count: nat)
    requires
        count <= messages.len(),
    ensures
        after_taking(messages, count) == messages.skip(count as int),
    decreases count,
{
    if count == 0 || messages.len() == 0 {
        assert(messages.skip(0) =~= messages);
    } else {
        law_messages_keep_their_order(messages.skip(1), (count - 1) as nat);
        assert(messages.skip(1).skip(count - 1) =~= messages.skip(count as int));
    }
}

} // verus!
