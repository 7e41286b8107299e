//! A stateless responder that reflects every echo request.
use vstd::prelude::*;

verus! {

/// The bodies the echo responder understands.
#[derive(Debug, PartialEq)]
pub enum Body {
    Echo { msg_id: usize, echo: String },
    EchoOk { msg_id: usize, in_reply_to: usize, echo: String },
    Init { msg_id: usize, node_id: String, node_ids: Vec<String> },
    InitOk { msg_id: usize, in_reply_to: usize },
}

/// An envelope addressed from `src` to `dest`.
#[derive(Debug, PartialEq)]
pub struct Message {
    pub src: String,
    pub dest: String,
    pub body: Body,
}

/// The reply body for `body`.
pub open spec fn reply_spec(body: Body) -> Body {
    match body {
        Body::Echo { msg_id, echo } => Body::EchoOk { msg_id, in_reply_to: msg_id, echo },
        Body::Init { msg_id, .. } => Body::InitOk { msg_id, in_reply_to: msg_id },
        other => other,
    }
}

/// Answers an echo with the same text and an init with its acknowledgment;
/// replies are handed back unchanged.
pub fn handle_body(body: Body) -> (r: Body)
    ensures
        r == reply_spec(body),
{
    match body {
        Body::Echo { msg_id, echo } => Body::EchoOk { msg_id, in_reply_to: msg_id, echo },
        Body::Init { msg_id, node_id: _, node_ids: _ } => Body::InitOk { msg_id, in_reply_to: msg_id },
        other => other,
    }
}

/// Sends the reply to `message` back to its sender.
pub fn handle_message(message: Message) -> (r: Message)
    ensures
        r.src == message.dest,
        r.dest == message.src,
        r.body == reply_spec(message.body),
{
    Message { src: message.dest, dest: message.src, body: handle_body(message.body) }
}

} // verus!
