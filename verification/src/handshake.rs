//! The handshake negotiator's decision logic. The first frame of a new
//! connection must be a hello, and the hello's name must be free in the
//! hub's registry; everything else is a rejection, and a rejected
//! connection is simply closed. The socket reads and writes around these
//! decisions live with the unverified runtime.

use vstd::prelude::*;

use crate::codec::{Message, MessageView, ReceiveMessageError};

verus! {

/// The display name a first frame offers, if it is a well-formed hello.
pub fn hello_name(hello_message: &Result<Message, ReceiveMessageError>) -> (r: Option<String>)
    ensures
        match r {
            Some(name) => hello_message matches Ok(m) && m@ matches MessageView::ClientHello {
                from,
            } && name@ == from,
            None => !(hello_message matches Ok(m) && m@ is ClientHello),
        },
{
    match hello_message {
        Ok(Message::ClientHello { from }) => Some(from.clone()),
        _ => None,
    }
}

/// The handshake decision: accept exactly when the first frame decoded
/// to a hello and the hub found the offered name free. The accepted
/// name is handed back; every other case rejects, and the caller closes
/// the connection without a reply frame.
pub fn try_user_handshake(
    hello_message: Result<Message, ReceiveMessageError>,
    can_connect: bool,
) -> (r: Option<String>)
    ensures
        (r is Some) == (can_connect && (hello_message matches Ok(m) && m@ is ClientHello)),
        match r {
            Some(name) => hello_message matches Ok(m) && m@ matches MessageView::ClientHello {
                from,
            } && name@ == from,
            None => true,
        },
{
    if !can_connect {
        return None;
    }
    match hello_message {
        Ok(Message::ClientHello { from }) => Some(from),
        _ => None,
    }
}

} // verus!
