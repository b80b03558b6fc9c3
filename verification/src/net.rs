//! The plain payload message of the early wire experiments: text, image
//! or file, with no sender field. It shares the chat codec's encoding
//! primitives and round-trips the same way.

use vstd::prelude::*;

use crate::codec::{
    read_blob, read_string, spec_blob_bytes, spec_string_bytes, take_blob, take_string,
    write_blob, write_string, DecodeError, MAX_BLOB_LEN, MAX_TEXT_LEN, TAG_FILE, TAG_IMAGE,
    TAG_TEXT,
};
use crate::codec::{lemma_take_blob_enc, lemma_take_string_enc};

verus! {

/// One payload-only message.
#[derive(Debug, PartialEq)]
pub enum MessageType {
    Text(String),
    Image(Vec<u8>),
    File { name: String, content: Vec<u8> },
}

/// The mathematical value of a `MessageType`.
pub enum MessageTypeView {
    Text(Seq<char>),
    Image(Seq<u8>),
    File { name: Seq<char>, content: Seq<u8> },
}

impl View for MessageType {
    type V = MessageTypeView;

    open spec fn view(&self) -> MessageTypeView {
        match self {
            MessageType::Text(s) => MessageTypeView::Text(s@),
            MessageType::Image(b) => MessageTypeView::Image(b@),
            MessageType::File { name, content } => MessageTypeView::File {
                name: name@,
                content: content@,
            },
        }
    }
}

impl MessageTypeView {
    /// Every field fits the wire format's length prefixes.
    pub open spec fn wf(self) -> bool {
        match self {
            MessageTypeView::Text(s) => s.len() <= MAX_TEXT_LEN,
            MessageTypeView::Image(b) => b.len() <= MAX_BLOB_LEN,
            MessageTypeView::File { name, content } => name.len() <= MAX_TEXT_LEN && content.len()
                <= MAX_BLOB_LEN,
        }
    }
}

/// The bytes `serialize` produces.
pub open spec fn spec_mt_payload(m: MessageTypeView) -> Seq<u8> {
    match m {
        MessageTypeView::Text(s) => seq![TAG_TEXT] + spec_string_bytes(s),
        MessageTypeView::Image(b) => seq![TAG_IMAGE] + spec_blob_bytes(b),
        MessageTypeView::File { name, content } => seq![TAG_FILE] + spec_string_bytes(name)
            + spec_blob_bytes(content),
    }
}

/// The message a byte buffer encodes, if it is exactly one well-formed
/// encoding.
pub open spec fn spec_mt_decode(b: Seq<u8>) -> Option<MessageTypeView> {
    if b.len() == 0 {
        None
    } else {
        let tag = b[0];
        let rest = b.drop_first();
        if tag == TAG_TEXT {
            match take_string(rest) {
                Some((s, r1)) => if r1.len() == 0 {
                    Some(MessageTypeView::Text(s))
                } else {
                    None
                },
                None => None,
            }
        } else if tag == TAG_IMAGE {
            match take_blob(rest) {
                Some((bs, r1)) => if r1.len() == 0 {
                    Some(MessageTypeView::Image(bs))
                } else {
                    None
                },
                None => None,
            }
        } else if tag == TAG_FILE {
            match take_string(rest) {
                Some((name, r1)) => match take_blob(r1) {
                    Some((content, r2)) => if r2.len() == 0 {
                        Some(MessageTypeView::File { name, content })
                    } else {
                        None
                    },
                    None => None,
                },
                None => None,
            }
        } else {
            None
        }
    }
}

/// Round trip: decoding an encoding yields the message back.
pub proof fn lemma_mt_round_trip(m: MessageTypeView)
    requires
        m.wf(),
    ensures
        spec_mt_decode(spec_mt_payload(m)) == Some(m),
{
    let p = spec_mt_payload(m);
    match m {
        MessageTypeView::Text(s) => {
            assert(p[0] == TAG_TEXT);
            assert(p.drop_first() =~= spec_string_bytes(s) + Seq::<u8>::empty());
            lemma_take_string_enc(s, Seq::<u8>::empty());
        },
        MessageTypeView::Image(b) => {
            assert(p[0] == TAG_IMAGE);
            assert(p.drop_first() =~= spec_blob_bytes(b) + Seq::<u8>::empty());
            lemma_take_blob_enc(b, Seq::<u8>::empty());
        },
        MessageTypeView::File { name, content } => {
            assert(p[0] == TAG_FILE);
            assert(p.drop_first() =~= spec_string_bytes(name) + (spec_blob_bytes(content)
                + Seq::<u8>::empty()));
            lemma_take_string_enc(name, spec_blob_bytes(content) + Seq::<u8>::empty());
            lemma_take_blob_enc(content, Seq::<u8>::empty());
        },
    }
}

impl MessageType {
    /// Every field fits the wire format's length prefixes.
    pub open spec fn wf(self) -> bool {
        self@.wf()
    }

    /// Encodes this message's payload.
    pub fn serialize(&self) -> (r: Vec<u8>)
        requires
            self.wf(),
        ensures
            r@ == spec_mt_payload(self@),
    {
        let mut out: Vec<u8> = Vec::new();
        match self {
            MessageType::Text(s) => {
                out.push(TAG_TEXT);
                write_string(&mut out, s.as_str());
                proof {
                    assert(out@ =~= spec_mt_payload(self@));
                }
            },
            MessageType::Image(b) => {
                out.push(TAG_IMAGE);
                write_blob(&mut out, b);
                proof {
                    assert(out@ =~= spec_mt_payload(self@));
                }
            },
            MessageType::File { name, content } => {
                out.push(TAG_FILE);
                write_string(&mut out, name.as_str());
                write_blob(&mut out, content);
                proof {
                    assert(out@ =~= spec_mt_payload(self@));
                }
            },
        }
        out
    }

    /// Decodes one payload: `Ok` exactly when the buffer is one
    /// well-formed encoding.
    pub fn deserialize(from: &[u8]) -> (r: Result<MessageType, DecodeError>)
        ensures
            match r {
                Ok(m) => m.wf() && spec_mt_decode(from@) == Some(m@),
                Err(e) => spec_mt_decode(from@) == None::<MessageTypeView>,
            },
    {
        let len = from.len();
        if len == 0 {
            return Err(DecodeError::Malformed);
        }
        let ghost body = from@;
        let tag = *vstd::slice::slice_index_get(from, 0);
        let pos: usize = 1;
        proof {
            assert(body[0] == tag);
            assert(body.drop_first() =~= from@.skip(pos as int));
        }
        if tag == TAG_TEXT {
            let Some((s, p1)) = read_string(from, pos) else {
                return Err(DecodeError::Malformed);
            };
            if p1 != len {
                return Err(DecodeError::Malformed);
            }
            Ok(MessageType::Text(s))
        } else if tag == TAG_IMAGE {
            let Some((b, p1)) = read_blob(from, pos) else {
                return Err(DecodeError::Malformed);
            };
            if p1 != len {
                return Err(DecodeError::Malformed);
            }
            Ok(MessageType::Image(b))
        } else if tag == TAG_FILE {
            let Some((name, p1)) = read_string(from, pos) else {
                return Err(DecodeError::Malformed);
            };
            let Some((content, p2)) = read_blob(from, p1) else {
                return Err(DecodeError::Malformed);
            };
            if p2 != len {
                return Err(DecodeError::Malformed);
            }
            Ok(MessageType::File { name, content })
        } else {
            Err(DecodeError::Malformed)
        }
    }
}

} // verus!
