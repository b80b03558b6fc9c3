//! The connection reader's decision logic. One reader task owns each
//! socket's read half; the surrounding runtime performs the reads and
//! decodes, and these functions decide what each outcome means: forward
//! the message, skip a corrupt frame, or synthesize the one terminal
//! `ClientQuit` and stop.

use vstd::prelude::*;
use vstd::string::StringExecFns;

use crate::codec::{Message, MessageView, ReceiveMessageError};
use crate::hub::IncommingClientMessage;

verus! {

/// What the reader does with one receive outcome.
pub enum ReaderStep {
    /// Hand the item to the hub and keep reading.
    Forward(IncommingClientMessage),
    /// Hand the item to the hub, then stop reading: the connection is
    /// over.
    Terminate(IncommingClientMessage),
    /// Drop the frame and keep reading.
    Skip,
}

/// Whether a receive outcome ends the connection.
pub open spec fn spec_is_terminal(r: Result<Message, ReceiveMessageError>) -> bool {
    match r {
        Ok(_) => false,
        Err(ReceiveMessageError::DeserializationError) => false,
        Err(_) => true,
    }
}

/// The messages a reader forwards to the hub for a sequence of receive
/// outcomes: decoded messages in order, corrupt frames skipped, and at
/// the first terminal failure a single synthesized quit, after which
/// nothing more is read.
pub open spec fn spec_reader_log(
    name: Seq<char>,
    rcv: Seq<Result<Message, ReceiveMessageError>>,
) -> Seq<MessageView>
    decreases rcv.len(),
{
    if rcv.len() == 0 {
        Seq::empty()
    } else {
        match rcv[0] {
            Ok(m) => seq![m@] + spec_reader_log(name, rcv.drop_first()),
            Err(ReceiveMessageError::DeserializationError) => spec_reader_log(
                name,
                rcv.drop_first(),
            ),
            Err(_) => seq![MessageView::ClientQuit { from: name }],
        }
    }
}

/// The first item a fresh reader forwards: a hello on the sender's
/// behalf, so that peers learn of the arrival through the ordinary
/// broadcast path.
pub fn hello_message(user_name: &str) -> (r: IncommingClientMessage)
    ensures
        r.user_name@ == user_name@,
        r.message@ == (MessageView::ClientHello { from: user_name@ }),
{
    IncommingClientMessage {
        user_name: String::from_str(user_name),
        message: Message::ClientHello { from: String::from_str(user_name) },
    }
}

/// Classifies one receive outcome. A decoded message is forwarded; a
/// corrupt frame is skipped and the connection lives on; a stream-level
/// failure terminates the connection with one synthesized quit.
pub fn reader_step(user_name: &str, received: Result<Message, ReceiveMessageError>) -> (r:
    ReaderStep)
    ensures
        match received {
            Ok(m) => r matches ReaderStep::Forward(icm) && icm.user_name@ == user_name@
                && icm.message@ == m@,
            Err(e) => {
                if e is DeserializationError {
                    r is Skip
                } else {
                    r matches ReaderStep::Terminate(icm) && icm.user_name@ == user_name@
                        && icm.message@ == (MessageView::ClientQuit { from: user_name@ })
                }
            },
        },
{
    match received {
        Ok(message) => ReaderStep::Forward(
            IncommingClientMessage { user_name: String::from_str(user_name), message },
        ),
        Err(ReceiveMessageError::DeserializationError) => ReaderStep::Skip,
        Err(_) => ReaderStep::Terminate(
            IncommingClientMessage {
                user_name: String::from_str(user_name),
                message: Message::ClientQuit { from: String::from_str(user_name) },
            },
        ),
    }
}

/// The messages carried by a sequence of hub items.
pub open spec fn spec_messages_of(s: Seq<IncommingClientMessage>) -> Seq<MessageView> {
    s.map_values(|icm: IncommingClientMessage| icm.message@)
}

/// Runs a whole reader over a sequence of receive outcomes: the hello
/// first, then exactly the reader log of the outcomes. Every forwarded
/// item speaks for this connection's name.
pub fn process_received(user_name: &str, received: Vec<Result<Message, ReceiveMessageError>>) -> (
    forwarded: Vec<IncommingClientMessage>)
    ensures
        forwarded@.len() >= 1,
        forwarded@[0].message@ == (MessageView::ClientHello { from: user_name@ }),
        spec_messages_of(forwarded@.skip(1)) == spec_reader_log(user_name@, received@),
        forall|i: int| 0 <= i < forwarded@.len() ==> (#[trigger] forwarded@[i]).user_name@
            == user_name@,
{
    let ghost greceived = received@;
    let mut forwarded: Vec<IncommingClientMessage> = Vec::new();
    forwarded.push(hello_message(user_name));
    let mut rest = received;
    proof {
        assert(forwarded@.skip(1) =~= Seq::<IncommingClientMessage>::empty());
        assert(spec_messages_of(forwarded@.skip(1)) =~= Seq::<MessageView>::empty());
    }
    loop
        invariant_except_break
            forwarded@.len() >= 1,
            forwarded@[0].message@ == (MessageView::ClientHello { from: user_name@ }),
            forall|i: int| 0 <= i < forwarded@.len() ==> (#[trigger] forwarded@[i]).user_name@
                == user_name@,
            spec_reader_log(user_name@, greceived) == spec_messages_of(forwarded@.skip(1))
                + spec_reader_log(user_name@, rest@),
        ensures
            forwarded@.len() >= 1,
            forwarded@[0].message@ == (MessageView::ClientHello { from: user_name@ }),
            forall|i: int| 0 <= i < forwarded@.len() ==> (#[trigger] forwarded@[i]).user_name@
                == user_name@,
            spec_messages_of(forwarded@.skip(1)) == spec_reader_log(user_name@, greceived),
        decreases rest@.len(),
    {
        if rest.len() == 0 {
            proof {
                assert(spec_reader_log(user_name@, rest@) =~= Seq::<MessageView>::empty());
                assert(spec_messages_of(forwarded@.skip(1)) + Seq::<MessageView>::empty()
                    =~= spec_messages_of(forwarded@.skip(1)));
            }
            break;
        }
        let ghost rest_before = rest@;
        let item = rest.remove(0);
        proof {
            assert(rest_before[0] == item);
            assert(rest@ =~= rest_before.drop_first());
        }
        let step = reader_step(user_name, item);
        let ghost fwd_before = forwarded@;
        match step {
            ReaderStep::Forward(icm) => {
                forwarded.push(icm);
                proof {
                    assert(forwarded@.skip(1) =~= fwd_before.skip(1).push(icm));
                    assert(spec_messages_of(fwd_before.skip(1).push(icm))
                        =~= spec_messages_of(fwd_before.skip(1)).push(icm.message@));
                    assert(spec_messages_of(fwd_before.skip(1)).push(icm.message@)
                        + spec_reader_log(user_name@, rest@) =~= spec_messages_of(
                        fwd_before.skip(1),
                    ) + (seq![icm.message@] + spec_reader_log(user_name@, rest@)));
                }
            },
            ReaderStep::Skip => {
            },
            ReaderStep::Terminate(icm) => {
                forwarded.push(icm);
                proof {
                    assert(spec_reader_log(user_name@, rest_before) =~= seq![
                        MessageView::ClientQuit { from: user_name@ },
                    ]);
                    assert(forwarded@.skip(1) =~= fwd_before.skip(1).push(icm));
                    assert(spec_messages_of(fwd_before.skip(1).push(icm))
                        =~= spec_messages_of(fwd_before.skip(1)).push(icm.message@));
                    assert(spec_messages_of(fwd_before.skip(1)).push(icm.message@)
                        =~= spec_messages_of(fwd_before.skip(1)) + seq![icm.message@]);
                }
                break;
            },
        }
    }
    forwarded
}

/// Malformed-frame survival: a corrupt frame contributes nothing to the
/// reader's log and does not end it — what the reader forwards for the
/// remaining outcomes is unchanged, so a valid message after a corrupt
/// frame is still delivered.
pub proof fn lemma_malformed_frame_survival(
    name: Seq<char>,
    rcv: Seq<Result<Message, ReceiveMessageError>>,
)
    requires
        rcv.len() > 0,
        rcv[0] matches Err(ReceiveMessageError::DeserializationError),
    ensures
        spec_reader_log(name, rcv) == spec_reader_log(name, rcv.drop_first()),
{
}

/// A terminal failure ends the log with the single synthesized quit:
/// nothing read after it is ever forwarded.
pub proof fn lemma_terminal_stops(
    name: Seq<char>,
    rcv: Seq<Result<Message, ReceiveMessageError>>,
)
    requires
        rcv.len() > 0,
        spec_is_terminal(rcv[0]),
    ensures
        spec_reader_log(name, rcv) == seq![MessageView::ClientQuit { from: name }],
{
}

} // verus!
