//! The wire protocol codec. One logical message is carried on the wire as
//! a frame: a 4-byte big-endian length prefix followed by that many bytes
//! of payload. The payload is a tag byte followed by the message's fields;
//! a string field is a 4-byte character count followed by one 4-byte
//! big-endian code point per character, and a byte field is a 4-byte
//! length followed by the raw bytes.
//!
//! `serialize` and `deserialize` are exact inverses when the corruption
//! hook is disabled; the proof is `lemma_round_trip`.

use vstd::prelude::*;
use vstd::string::*;
use vstd::utf8::{char_is_scalar, char_u32_cast, is_scalar};
use vstd::slice::slice_index_get;

use crate::chaos::ChaosConfig;
use crate::strutil::push_char;

verus! {

pub const TAG_TEXT: u8 = 0;

pub const TAG_IMAGE: u8 = 1;

pub const TAG_FILE: u8 = 2;

pub const TAG_CLIENT_HELLO: u8 = 3;

pub const TAG_SERVER_HELLO: u8 = 4;

pub const TAG_CLIENT_QUIT: u8 = 5;

/// Largest character count of a string field.
pub const MAX_TEXT_LEN: u32 = 0x00FF_FFFF;

/// Largest byte count of an image or file payload.
pub const MAX_BLOB_LEN: u32 = 0x0FFF_FFFF;

/// One logical chat message.
///
/// `ClientHello` is the first frame a connecting client sends;
/// `ServerHello` is the accept reply; `ClientQuit` is synthesized by the
/// server when a connection terminates and is what drives hub cleanup.
#[derive(Debug, PartialEq)]
pub enum Message {
    Text { from: String, content: String },
    Image { from: String, content: Vec<u8> },
    File { from: String, name: String, content: Vec<u8> },
    ClientHello { from: String },
    ServerHello,
    ClientQuit { from: String },
}

/// The mathematical value of a `Message`: the same shape over character
/// and byte sequences.
pub enum MessageView {
    Text { from: Seq<char>, content: Seq<char> },
    Image { from: Seq<char>, content: Seq<u8> },
    File { from: Seq<char>, name: Seq<char>, content: Seq<u8> },
    ClientHello { from: Seq<char> },
    ServerHello,
    ClientQuit { from: Seq<char> },
}

impl View for Message {
    type V = MessageView;

    open spec fn view(&self) -> MessageView {
        match self {
            Message::Text { from, content } => MessageView::Text {
                from: from@,
                content: content@,
            },
            Message::Image { from, content } => MessageView::Image {
                from: from@,
                content: content@,
            },
            Message::File { from, name, content } => MessageView::File {
                from: from@,
                name: name@,
                content: content@,
            },
            Message::ClientHello { from } => MessageView::ClientHello { from: from@ },
            Message::ServerHello => MessageView::ServerHello,
            Message::ClientQuit { from } => MessageView::ClientQuit { from: from@ },
        }
    }
}

impl MessageView {
    /// Every field fits the wire format's length prefixes.
    pub open spec fn wf(self) -> bool {
        match self {
            MessageView::Text { from, content } => from.len() <= MAX_TEXT_LEN
                && content.len() <= MAX_TEXT_LEN,
            MessageView::Image { from, content } => from.len() <= MAX_TEXT_LEN
                && content.len() <= MAX_BLOB_LEN,
            MessageView::File { from, name, content } => from.len() <= MAX_TEXT_LEN
                && name.len() <= MAX_TEXT_LEN && content.len() <= MAX_BLOB_LEN,
            MessageView::ClientHello { from } => from.len() <= MAX_TEXT_LEN,
            MessageView::ServerHello => true,
            MessageView::ClientQuit { from } => from.len() <= MAX_TEXT_LEN,
        }
    }

    /// Whether this is an application chat message (the kinds that are
    /// persisted), as opposed to a protocol-internal one.
    pub open spec fn is_chat(self) -> bool {
        match self {
            MessageView::Text { .. } => true,
            MessageView::Image { .. } => true,
            MessageView::File { .. } => true,
            _ => false,
        }
    }
}

// ---------------------------------------------------------------------
// Big-endian 32-bit values
// ---------------------------------------------------------------------

/// The 4 big-endian bytes of `v`.
pub open spec fn spec_be32(v: u32) -> Seq<u8> {
    seq![
        ((v >> 24) & 0xff) as u8,
        ((v >> 16) & 0xff) as u8,
        ((v >> 8) & 0xff) as u8,
        (v & 0xff) as u8,
    ]
}

/// The value of the first 4 bytes of `b`, read big-endian.
pub open spec fn spec_be32_val(b: Seq<u8>) -> u32
    recommends
        b.len() >= 4,
{
    (b[0] as u32) << 24 | (b[1] as u32) << 16 | (b[2] as u32) << 8 | (b[3] as u32)
}

pub proof fn lemma_be32_round_trip(v: u32)
    ensures
        spec_be32(v).len() == 4,
        spec_be32_val(spec_be32(v)) == v,
{
    assert(((((v >> 24) & 0xff) as u8) as u32) << 24 | ((((v >> 16) & 0xff) as u8) as u32) << 16
        | ((((v >> 8) & 0xff) as u8) as u32) << 8 | (((v & 0xff) as u8) as u32) == v)
        by (bit_vector);
}

/// Reading a `u32` from an encoded one, followed by anything, yields the
/// value back and leaves the rest.
pub proof fn lemma_take_u32_be32(v: u32, rest: Seq<u8>)
    ensures
        take_u32(spec_be32(v) + rest) == Some((v, rest)),
{
    let b = spec_be32(v) + rest;
    lemma_be32_round_trip(v);
    assert(b[0] == spec_be32(v)[0]);
    assert(b[1] == spec_be32(v)[1]);
    assert(b[2] == spec_be32(v)[2]);
    assert(b[3] == spec_be32(v)[3]);
    assert(spec_be32_val(b) == spec_be32_val(spec_be32(v)));
    assert(b.skip(4) =~= rest);
}

// ---------------------------------------------------------------------
// Payload construction (specification)
// ---------------------------------------------------------------------

/// The 4-byte encoding of one character.
pub open spec fn spec_char_bytes(c: char) -> Seq<u8> {
    spec_be32(c as u32)
}

/// The concatenated encodings of a character sequence.
pub open spec fn spec_chars_bytes(s: Seq<char>) -> Seq<u8>
    decreases s.len(),
{
    if s.len() == 0 {
        Seq::empty()
    } else {
        spec_char_bytes(s[0]) + spec_chars_bytes(s.drop_first())
    }
}

/// A string field: character count, then the characters.
pub open spec fn spec_string_bytes(s: Seq<char>) -> Seq<u8>
    recommends
        s.len() <= MAX_TEXT_LEN,
{
    spec_be32(s.len() as u32) + spec_chars_bytes(s)
}

/// A byte field: byte count, then the raw bytes.
pub open spec fn spec_blob_bytes(b: Seq<u8>) -> Seq<u8>
    recommends
        b.len() <= MAX_BLOB_LEN,
{
    spec_be32(b.len() as u32) + b
}

/// The payload that `serialize` produces for a message, absent corruption.
pub open spec fn spec_payload(m: MessageView) -> Seq<u8> {
    match m {
        MessageView::Text { from, content } => seq![TAG_TEXT] + spec_string_bytes(from)
            + spec_string_bytes(content),
        MessageView::Image { from, content } => seq![TAG_IMAGE] + spec_string_bytes(from)
            + spec_blob_bytes(content),
        MessageView::File { from, name, content } => seq![TAG_FILE] + spec_string_bytes(from)
            + spec_string_bytes(name) + spec_blob_bytes(content),
        MessageView::ClientHello { from } => seq![TAG_CLIENT_HELLO] + spec_string_bytes(from),
        MessageView::ServerHello => seq![TAG_SERVER_HELLO],
        MessageView::ClientQuit { from } => seq![TAG_CLIENT_QUIT] + spec_string_bytes(from),
    }
}

proof fn lemma_chars_bytes_len(s: Seq<char>)
    ensures
        spec_chars_bytes(s).len() == 4 * s.len(),
    decreases s.len(),
{
    if s.len() > 0 {
        lemma_chars_bytes_len(s.drop_first());
    }
}

/// A well-formed message's payload is non-empty and fits the frame's
/// 32-bit length prefix.
pub proof fn lemma_payload_len(m: MessageView)
    requires
        m.wf(),
    ensures
        1 <= spec_payload(m).len() <= 0x2000_0000,
{
    match m {
        MessageView::Text { from, content } => {
            lemma_chars_bytes_len(from);
            lemma_chars_bytes_len(content);
        },
        MessageView::Image { from, content } => {
            lemma_chars_bytes_len(from);
        },
        MessageView::File { from, name, content } => {
            lemma_chars_bytes_len(from);
            lemma_chars_bytes_len(name);
        },
        MessageView::ClientHello { from } => {
            lemma_chars_bytes_len(from);
        },
        MessageView::ServerHello => {},
        MessageView::ClientQuit { from } => {
            lemma_chars_bytes_len(from);
        },
    }
}

// ---------------------------------------------------------------------
// Payload parsing (specification)
// ---------------------------------------------------------------------

/// Takes a 4-byte big-endian value off the front of `b`.
pub open spec fn take_u32(b: Seq<u8>) -> Option<(u32, Seq<u8>)> {
    if b.len() >= 4 {
        Some((spec_be32_val(b), b.skip(4)))
    } else {
        None
    }
}

/// Takes `n` encoded characters off the front of `b`.
pub open spec fn take_chars(n: nat, b: Seq<u8>) -> Option<(Seq<char>, Seq<u8>)>
    decreases n,
{
    if n == 0 {
        Some((Seq::empty(), b))
    } else {
        match take_u32(b) {
            None => None,
            Some((v, rest)) => if is_scalar(v) {
                match take_chars((n - 1) as nat, rest) {
                    None => None,
                    Some((cs, rest2)) => Some((seq![v as char] + cs, rest2)),
                }
            } else {
                None
            },
        }
    }
}

/// Takes one string field off the front of `b`.
pub open spec fn take_string(b: Seq<u8>) -> Option<(Seq<char>, Seq<u8>)> {
    match take_u32(b) {
        None => None,
        Some((n, rest)) => if n <= MAX_TEXT_LEN {
            take_chars(n as nat, rest)
        } else {
            None
        },
    }
}

/// Takes one byte field off the front of `b`.
pub open spec fn take_blob(b: Seq<u8>) -> Option<(Seq<u8>, Seq<u8>)> {
    match take_u32(b) {
        None => None,
        Some((n, rest)) => if n <= MAX_BLOB_LEN && rest.len() >= n {
            Some((rest.take(n as int), rest.skip(n as int)))
        } else {
            None
        },
    }
}

/// The message encoded by the payload `b`, if `b` is exactly one
/// well-formed encoding.
pub open spec fn spec_decode(b: Seq<u8>) -> Option<MessageView> {
    if b.len() == 0 {
        None
    } else {
        let tag = b[0];
        let rest = b.drop_first();
        if tag == TAG_TEXT {
            match take_string(rest) {
                Some((from, r1)) => match take_string(r1) {
                    Some((content, r2)) => if r2.len() == 0 {
                        Some(MessageView::Text { from, content })
                    } else {
                        None
                    },
                    None => None,
                },
                None => None,
            }
        } else if tag == TAG_IMAGE {
            match take_string(rest) {
                Some((from, r1)) => match take_blob(r1) {
                    Some((content, r2)) => if r2.len() == 0 {
                        Some(MessageView::Image { from, content })
                    } else {
                        None
                    },
                    None => None,
                },
                None => None,
            }
        } else if tag == TAG_FILE {
            match take_string(rest) {
                Some((from, r1)) => match take_string(r1) {
                    Some((name, r2)) => match take_blob(r2) {
                        Some((content, r3)) => if r3.len() == 0 {
                            Some(MessageView::File { from, name, content })
                        } else {
                            None
                        },
                        None => None,
                    },
                    None => None,
                },
                None => None,
            }
        } else if tag == TAG_CLIENT_HELLO {
            match take_string(rest) {
                Some((from, r1)) => if r1.len() == 0 {
                    Some(MessageView::ClientHello { from })
                } else {
                    None
                },
                None => None,
            }
        } else if tag == TAG_SERVER_HELLO {
            if rest.len() == 0 {
                Some(MessageView::ServerHello)
            } else {
                None
            }
        } else if tag == TAG_CLIENT_QUIT {
            match take_string(rest) {
                Some((from, r1)) => if r1.len() == 0 {
                    Some(MessageView::ClientQuit { from })
                } else {
                    None
                },
                None => None,
            }
        } else {
            None
        }
    }
}

// ---------------------------------------------------------------------
// Round trip: decoding an encoding yields the message back
// ---------------------------------------------------------------------

pub(crate) proof fn lemma_take_chars_enc(cs: Seq<char>, rest: Seq<u8>)
    ensures
        take_chars(cs.len(), spec_chars_bytes(cs) + rest) == Some((cs, rest)),
    decreases cs.len(),
{
    if cs.len() == 0 {
        assert(spec_chars_bytes(cs) + rest =~= rest);
    } else {
        let c = cs[0];
        let tail = cs.drop_first();
        char_is_scalar(c);
        char_u32_cast(c, c as u32);
        lemma_take_chars_enc(tail, rest);
        assert(spec_chars_bytes(cs) + rest =~= spec_be32(c as u32) + (spec_chars_bytes(tail)
            + rest));
        lemma_take_u32_be32(c as u32, spec_chars_bytes(tail) + rest);
        assert(seq![(c as u32) as char] + tail =~= cs);
    }
}

pub(crate) proof fn lemma_take_string_enc(cs: Seq<char>, rest: Seq<u8>)
    requires
        cs.len() <= MAX_TEXT_LEN,
    ensures
        take_string(spec_string_bytes(cs) + rest) == Some((cs, rest)),
{
    let n = cs.len() as u32;
    assert(spec_string_bytes(cs) + rest =~= spec_be32(n) + (spec_chars_bytes(cs) + rest));
    lemma_take_u32_be32(n, spec_chars_bytes(cs) + rest);
    lemma_take_chars_enc(cs, rest);
    assert(n as nat == cs.len());
}

pub(crate) proof fn lemma_take_blob_enc(bs: Seq<u8>, rest: Seq<u8>)
    requires
        bs.len() <= MAX_BLOB_LEN,
    ensures
        take_blob(spec_blob_bytes(bs) + rest) == Some((bs, rest)),
{
    let n = bs.len() as u32;
    assert(spec_blob_bytes(bs) + rest =~= spec_be32(n) + (bs + rest));
    lemma_take_u32_be32(n, bs + rest);
    assert((bs + rest).take(n as int) =~= bs);
    assert((bs + rest).skip(n as int) =~= rest);
}

/// Round trip: for every well-formed message, decoding the encoded
/// payload yields the message back.
pub proof fn lemma_round_trip(m: MessageView)
    requires
        m.wf(),
    ensures
        spec_decode(spec_payload(m)) == Some(m),
{
    let p = spec_payload(m);
    lemma_payload_len(m);
    match m {
        MessageView::Text { from, content } => {
            assert(p[0] == TAG_TEXT);
            assert(p.drop_first() =~= spec_string_bytes(from) + (spec_string_bytes(content)
                + Seq::<u8>::empty()));
            lemma_take_string_enc(from, spec_string_bytes(content) + Seq::<u8>::empty());
            assert(spec_string_bytes(content) + Seq::<u8>::empty() =~= spec_string_bytes(content)
                + Seq::<u8>::empty());
            lemma_take_string_enc(content, Seq::<u8>::empty());
        },
        MessageView::Image { from, content } => {
            assert(p[0] == TAG_IMAGE);
            assert(p.drop_first() =~= spec_string_bytes(from) + (spec_blob_bytes(content)
                + Seq::<u8>::empty()));
            lemma_take_string_enc(from, spec_blob_bytes(content) + Seq::<u8>::empty());
            lemma_take_blob_enc(content, Seq::<u8>::empty());
        },
        MessageView::File { from, name, content } => {
            assert(p[0] == TAG_FILE);
            assert(p.drop_first() =~= spec_string_bytes(from) + (spec_string_bytes(name)
                + (spec_blob_bytes(content) + Seq::<u8>::empty())));
            lemma_take_string_enc(from, spec_string_bytes(name) + (spec_blob_bytes(content)
                + Seq::<u8>::empty()));
            lemma_take_string_enc(name, spec_blob_bytes(content) + Seq::<u8>::empty());
            lemma_take_blob_enc(content, Seq::<u8>::empty());
        },
        MessageView::ClientHello { from } => {
            assert(p[0] == TAG_CLIENT_HELLO);
            assert(p.drop_first() =~= spec_string_bytes(from) + Seq::<u8>::empty());
            lemma_take_string_enc(from, Seq::<u8>::empty());
        },
        MessageView::ServerHello => {
            assert(p[0] == TAG_SERVER_HELLO);
            assert(p.drop_first() =~= Seq::<u8>::empty());
        },
        MessageView::ClientQuit { from } => {
            assert(p[0] == TAG_CLIENT_QUIT);
            assert(p.drop_first() =~= spec_string_bytes(from) + Seq::<u8>::empty());
            lemma_take_string_enc(from, Seq::<u8>::empty());
        },
    }
}

// ---------------------------------------------------------------------
// Executable encoding
// ---------------------------------------------------------------------

pub(crate) fn write_u32(out: &mut Vec<u8>, v: u32)
    ensures
        final(out)@ == old(out)@ + spec_be32(v),
{
    proof {
        assert((v >> 24) & 0xff < 256 && (v >> 16) & 0xff < 256 && (v >> 8) & 0xff < 256 && v
            & 0xff < 256) by (bit_vector);
    }
    out.push(((v >> 24) & 0xff) as u8);
    out.push(((v >> 16) & 0xff) as u8);
    out.push(((v >> 8) & 0xff) as u8);
    out.push((v & 0xff) as u8);
    proof {
        assert(out@ =~= old(out)@ + spec_be32(v));
    }
}

proof fn lemma_chars_bytes_push(cs: Seq<char>, c: char)
    ensures
        spec_chars_bytes(cs.push(c)) == spec_chars_bytes(cs) + spec_char_bytes(c),
    decreases cs.len(),
{
    let s1 = cs.push(c);
    if cs.len() == 0 {
        assert(s1[0] == c);
        assert(s1.drop_first() =~= Seq::<char>::empty());
        assert(spec_chars_bytes(s1) == spec_char_bytes(c) + spec_chars_bytes(
            Seq::<char>::empty(),
        ));
        assert(spec_chars_bytes(Seq::<char>::empty()) =~= Seq::<u8>::empty());
        assert(spec_chars_bytes(cs) =~= Seq::<u8>::empty());
        assert(spec_char_bytes(c) + Seq::<u8>::empty() =~= Seq::<u8>::empty() + spec_char_bytes(
            c,
        ));
    } else {
        assert(s1.drop_first() =~= cs.drop_first().push(c));
        lemma_chars_bytes_push(cs.drop_first(), c);
        assert(s1[0] == cs[0]);
        assert(spec_chars_bytes(s1) == spec_char_bytes(cs[0]) + spec_chars_bytes(
            cs.drop_first().push(c),
        ));
        assert(spec_chars_bytes(cs) == spec_char_bytes(cs[0]) + spec_chars_bytes(
            cs.drop_first(),
        ));
        assert(spec_char_bytes(cs[0]) + (spec_chars_bytes(cs.drop_first()) + spec_char_bytes(c))
            =~= (spec_char_bytes(cs[0]) + spec_chars_bytes(cs.drop_first())) + spec_char_bytes(
            c,
        ));
    }
}

pub(crate) fn write_string(out: &mut Vec<u8>, s: &str)
    requires
        s@.len() <= MAX_TEXT_LEN,
    ensures
        final(out)@ == old(out)@ + spec_string_bytes(s@),
{
    let n = s.unicode_len();
    write_u32(out, n as u32);
    let mut i: usize = 0;
    while i < n
        invariant
            0 <= i <= n,
            n == s@.len(),
            n <= MAX_TEXT_LEN,
            out@ == old(out)@ + spec_be32(n as u32) + spec_chars_bytes(s@.take(i as int)),
        decreases n - i,
    {
        let c = s.get_char(i);
        write_u32(out, c as u32);
        proof {
            assert(s@.take(i + 1) =~= s@.take(i as int).push(s@[i as int]));
            lemma_chars_bytes_push(s@.take(i as int), s@[i as int]);
            assert(out@ =~= old(out)@ + spec_be32(n as u32) + spec_chars_bytes(s@.take(i + 1)));
        }
        i = i + 1;
    }
    proof {
        assert(s@.take(n as int) =~= s@);
        assert(out@ =~= old(out)@ + spec_string_bytes(s@));
    }
}

pub(crate) fn write_blob(out: &mut Vec<u8>, b: &Vec<u8>)
    requires
        b@.len() <= MAX_BLOB_LEN,
    ensures
        final(out)@ == old(out)@ + spec_blob_bytes(b@),
{
    let n = b.len();
    write_u32(out, n as u32);
    let mut i: usize = 0;
    while i < n
        invariant
            0 <= i <= n,
            n == b@.len(),
            out@ == old(out)@ + spec_be32(n as u32) + b@.take(i as int),
        decreases n - i,
    {
        out.push(b[i]);
        proof {
            assert(b@.take(i + 1) =~= b@.take(i as int).push(b@[i as int]));
            assert(out@ =~= old(out)@ + spec_be32(n as u32) + b@.take(i + 1));
        }
        i = i + 1;
    }
    proof {
        assert(b@.take(n as int) =~= b@);
        assert(out@ =~= old(out)@ + spec_blob_bytes(b@));
    }
}

impl Message {
    /// Every field fits the wire format's length prefixes.
    pub open spec fn wf(self) -> bool {
        self@.wf()
    }

    /// Encodes this message's payload. When the corruption hook fires, the
    /// leading byte is dropped from the result, which `deserialize` then
    /// reports as a decode failure; with the hook disabled the result is
    /// exactly the canonical payload.
    pub fn serialize(&self, chaos: &ChaosConfig) -> (r: Vec<u8>)
        requires
            self.wf(),
        ensures
            r@ == spec_payload(self@) || r@ == spec_payload(self@).drop_first(),
            !chaos.enabled ==> r@ == spec_payload(self@),
    {
        let mut out: Vec<u8> = Vec::new();
        match self {
            Message::Text { from, content } => {
                out.push(TAG_TEXT);
                write_string(&mut out, from.as_str());
                write_string(&mut out, content.as_str());
                proof {
                    assert(out@ =~= spec_payload(self@));
                }
            },
            Message::Image { from, content } => {
                out.push(TAG_IMAGE);
                write_string(&mut out, from.as_str());
                write_blob(&mut out, content);
                proof {
                    assert(out@ =~= spec_payload(self@));
                }
            },
            Message::File { from, name, content } => {
                out.push(TAG_FILE);
                write_string(&mut out, from.as_str());
                write_string(&mut out, name.as_str());
                write_blob(&mut out, content);
                proof {
                    assert(out@ =~= spec_payload(self@));
                }
            },
            Message::ClientHello { from } => {
                out.push(TAG_CLIENT_HELLO);
                write_string(&mut out, from.as_str());
                proof {
                    assert(out@ =~= spec_payload(self@));
                }
            },
            Message::ServerHello => {
                out.push(TAG_SERVER_HELLO);
                proof {
                    assert(out@ =~= spec_payload(self@));
                }
            },
            Message::ClientQuit { from } => {
                out.push(TAG_CLIENT_QUIT);
                write_string(&mut out, from.as_str());
                proof {
                    assert(out@ =~= spec_payload(self@));
                }
            },
        }
        if chaos.is_time_for_random_error() {
            proof {
                lemma_payload_len(self@);
            }
            out.remove(0);
            proof {
                assert(out@ =~= spec_payload(self@).drop_first());
            }
        }
        out
    }
}

// ---------------------------------------------------------------------
// Executable decoding
// ---------------------------------------------------------------------

/// The payload did not decode to a message: the frame is corrupt.
#[derive(Debug, PartialEq, Eq, Structural, Clone, Copy)]
pub enum DecodeError {
    Malformed,
}

/// Everything a single receive can fail with.
///
/// The first two are terminal for the connection; a deserialization
/// failure only discards the one frame.
#[derive(Debug, PartialEq, Eq, Structural, Clone, Copy)]
pub enum ReceiveMessageError {
    /// An I/O failure other than a clean close.
    GeneralStreamError,
    /// The peer closed the socket: end of stream.
    RemoteDisconnected,
    /// The frame's payload did not decode to a message.
    DeserializationError,
}

/// Relies on `char::from_u32`: yields the character with the given code
/// point, and `None` exactly when the value is a surrogate or exceeds
/// `char::MAX`.
#[verifier::external_body]
pub(crate) fn char_from_u32(v: u32) -> (r: Option<char>)
    ensures
        match r {
            Some(c) => is_scalar(v) && c as u32 == v,
            None => !is_scalar(v),
        },
{
    char::from_u32(v)
}

pub(crate) fn read_u32(buf: &[u8], pos: usize) -> (r: Option<(u32, usize)>)
    requires
        pos <= buf@.len(),
    ensures
        match r {
            Some(p) => {
                &&& p.1 == pos + 4
                &&& p.1 <= buf@.len()
                &&& take_u32(buf@.skip(pos as int)) == Some((p.0, buf@.skip(p.1 as int)))
            },
            None => take_u32(buf@.skip(pos as int)) == None::<(u32, Seq<u8>)>,
        },
{
    let n = buf.len();
    if n - pos < 4 {
        return None;
    }
    let b0 = *slice_index_get(buf, pos);
    let b1 = *slice_index_get(buf, pos + 1);
    let b2 = *slice_index_get(buf, pos + 2);
    let b3 = *slice_index_get(buf, pos + 3);
    let v = (b0 as u32) << 24 | (b1 as u32) << 16 | (b2 as u32) << 8 | (b3 as u32);
    proof {
        let s = buf@.skip(pos as int);
        assert(s[0] == b0 && s[1] == b1 && s[2] == b2 && s[3] == b3);
        assert(v == spec_be32_val(s));
        assert(s.skip(4) =~= buf@.skip(pos + 4));
    }
    Some((v, pos + 4))
}

pub(crate) fn read_string(buf: &[u8], pos: usize) -> (r: Option<(String, usize)>)
    requires
        pos <= buf@.len(),
    ensures
        match r {
            Some(p) => {
                &&& pos <= p.1 <= buf@.len()
                &&& p.0@.len() <= MAX_TEXT_LEN
                &&& take_string(buf@.skip(pos as int)) == Some((p.0@, buf@.skip(p.1 as int)))
            },
            None => take_string(buf@.skip(pos as int)) == None::<(Seq<char>, Seq<u8>)>,
        },
{
    let first = read_u32(buf, pos);
    match first {
        None => None,
        Some((n, start)) => {
            if n > MAX_TEXT_LEN {
                return None;
            }
            let mut acc = String::new();
            let mut i: u32 = 0;
            let mut cur: usize = start;
            loop
                invariant
                    0 <= i <= n,
                    n <= MAX_TEXT_LEN,
                    pos <= buf@.len(),
                    start <= cur <= buf@.len(),
                    acc@.len() == i,
                    take_u32(buf@.skip(pos as int)) == Some((n, buf@.skip(start as int))),
                    take_chars(n as nat, buf@.skip(start as int)) == (match take_chars(
                        (n - i) as nat,
                        buf@.skip(cur as int),
                    ) {
                        None => None::<(Seq<char>, Seq<u8>)>,
                        Some(p) => Some((acc@ + p.0, p.1)),
                    }),
                decreases n - i,
            {
                if i == n {
                    proof {
                        assert(take_chars(0, buf@.skip(cur as int)) == Some((
                            Seq::<char>::empty(),
                            buf@.skip(cur as int),
                        )));
                        assert(acc@ + Seq::<char>::empty() =~= acc@);
                    }
                    return Some((acc, cur));
                }
                let next = read_u32(buf, cur);
                match next {
                    None => {
                        return None;
                    },
                    Some((v, cur2)) => {
                        let copt = char_from_u32(v);
                        match copt {
                            None => {
                                return None;
                            },
                            Some(c) => {
                                proof {
                                    char_u32_cast(c, v);
                                    let rem = (n - i) as nat;
                                    let stepped = take_chars(
                                        (rem - 1) as nat,
                                        buf@.skip(cur2 as int),
                                    );
                                    assert(take_chars(rem, buf@.skip(cur as int)) == (match stepped {
                                        None => None::<(Seq<char>, Seq<u8>)>,
                                        Some(p) => Some((seq![c] + p.0, p.1)),
                                    }));
                                    if stepped is Some {
                                        let p = stepped->Some_0;
                                        assert(acc@.push(c) + p.0 =~= acc@ + (seq![c] + p.0));
                                    }
                                }
                                push_char(&mut acc, c);
                                i = i + 1;
                                cur = cur2;
                            },
                        }
                    },
                }
            }
        },
    }
}

pub(crate) fn read_blob(buf: &[u8], pos: usize) -> (r: Option<(Vec<u8>, usize)>)
    requires
        pos <= buf@.len(),
    ensures
        match r {
            Some(p) => {
                &&& pos <= p.1 <= buf@.len()
                &&& p.0@.len() <= MAX_BLOB_LEN
                &&& take_blob(buf@.skip(pos as int)) == Some((p.0@, buf@.skip(p.1 as int)))
            },
            None => take_blob(buf@.skip(pos as int)) == None::<(Seq<u8>, Seq<u8>)>,
        },
{
    let first = read_u32(buf, pos);
    match first {
        None => None,
        Some((n, start)) => {
            if n > MAX_BLOB_LEN {
                return None;
            }
            let len = buf.len();
            if (n as usize) > len - start {
                proof {
                    assert(buf@.skip(start as int).len() < n);
                }
                return None;
            }
            let stop: usize = start + (n as usize);
            let mut acc: Vec<u8> = Vec::new();
            let mut cur: usize = start;
            while cur < stop
                invariant
                    start <= cur <= stop <= buf@.len(),
                    acc@ =~= buf@.skip(start as int).take(cur - start),
                decreases stop - cur,
            {
                acc.push(*slice_index_get(buf, cur));
                proof {
                    assert(acc@ =~= buf@.skip(start as int).take(cur + 1 - start));
                }
                cur = cur + 1;
            }
            proof {
                assert(buf@.skip(start as int).skip(n as int) =~= buf@.skip(stop as int));
            }
            Some((acc, stop))
        },
    }
}

fn decode_payload(buf: &[u8], start: usize) -> (r: Result<Message, DecodeError>)
    requires
        start <= buf@.len(),
    ensures
        match r {
            Ok(m) => m.wf() && spec_decode(buf@.skip(start as int)) == Some(m@),
            Err(e) => spec_decode(buf@.skip(start as int)) == None::<MessageView>,
        },
{
    let len = buf.len();
    if len == start {
        return Err(DecodeError::Malformed);
    }
    let ghost body = buf@.skip(start as int);
    let tag = *slice_index_get(buf, start);
    let pos = start + 1;
    proof {
        assert(body[0] == tag);
        assert(body.drop_first() =~= buf@.skip(pos as int));
    }
    if tag == TAG_TEXT {
        let Some((from, p1)) = read_string(buf, pos) else {
            return Err(DecodeError::Malformed);
        };
        let Some((content, p2)) = read_string(buf, p1) else {
            return Err(DecodeError::Malformed);
        };
        if p2 != len {
            return Err(DecodeError::Malformed);
        }
        Ok(Message::Text { from, content })
    } else if tag == TAG_IMAGE {
        let Some((from, p1)) = read_string(buf, pos) else {
            return Err(DecodeError::Malformed);
        };
        let Some((content, p2)) = read_blob(buf, p1) else {
            return Err(DecodeError::Malformed);
        };
        if p2 != len {
            return Err(DecodeError::Malformed);
        }
        Ok(Message::Image { from, content })
    } else if tag == TAG_FILE {
        let Some((from, p1)) = read_string(buf, pos) else {
            return Err(DecodeError::Malformed);
        };
        let Some((name, p2)) = read_string(buf, p1) else {
            return Err(DecodeError::Malformed);
        };
        let Some((content, p3)) = read_blob(buf, p2) else {
            return Err(DecodeError::Malformed);
        };
        if p3 != len {
            return Err(DecodeError::Malformed);
        }
        Ok(Message::File { from, name, content })
    } else if tag == TAG_CLIENT_HELLO {
        let Some((from, p1)) = read_string(buf, pos) else {
            return Err(DecodeError::Malformed);
        };
        if p1 != len {
            return Err(DecodeError::Malformed);
        }
        Ok(Message::ClientHello { from })
    } else if tag == TAG_SERVER_HELLO {
        if pos != len {
            return Err(DecodeError::Malformed);
        }
        Ok(Message::ServerHello)
    } else if tag == TAG_CLIENT_QUIT {
        let Some((from, p1)) = read_string(buf, pos) else {
            return Err(DecodeError::Malformed);
        };
        if p1 != len {
            return Err(DecodeError::Malformed);
        }
        Ok(Message::ClientQuit { from })
    } else {
        Err(DecodeError::Malformed)
    }
}

impl Message {
    /// Decodes one payload. When the corruption hook fires, the leading
    /// byte is dropped before parsing, as the fault injector does on the
    /// sending side. With the hook disabled the result is `Ok` exactly
    /// when the buffer is one well-formed encoding.
    pub fn deserialize(from: &[u8], chaos: &ChaosConfig) -> (r: Result<Message, DecodeError>)
        ensures
            !chaos.enabled ==> (match r {
                Ok(m) => m.wf() && spec_decode(from@) == Some(m@),
                Err(e) => spec_decode(from@) == None::<MessageView>,
            }),
            match r {
                Ok(m) => m.wf() && (spec_decode(from@) == Some(m@) || (chaos.enabled
                    && spec_decode(from@.drop_first()) == Some(m@))),
                Err(e) => spec_decode(from@) == None::<MessageView> || chaos.enabled,
            },
    {
        let start: usize = if chaos.is_time_for_random_error() && from.len() >= 1 {
            1
        } else {
            0
        };
        proof {
            assert(from@.skip(0) =~= from@);
            if from@.len() == 0 {
                assert(spec_decode(from@) == None::<MessageView>);
            }
        }
        decode_payload(from, start)
    }
}

// ---------------------------------------------------------------------
// Framing
// ---------------------------------------------------------------------

/// Wraps a payload in a frame: the 4-byte big-endian length prefix,
/// then the payload bytes.
pub fn frame(payload: &Vec<u8>) -> (r: Vec<u8>)
    requires
        payload@.len() <= u32::MAX,
    ensures
        r@ == spec_be32(payload@.len() as u32) + payload@,
{
    let mut out: Vec<u8> = Vec::new();
    write_u32(&mut out, payload.len() as u32);
    let mut i: usize = 0;
    let n = payload.len();
    while i < n
        invariant
            0 <= i <= n,
            n == payload@.len(),
            out@ == spec_be32(payload@.len() as u32) + payload@.take(i as int),
        decreases n - i,
    {
        out.push(payload[i]);
        proof {
            assert(payload@.take(i + 1) =~= payload@.take(i as int).push(payload@[i as int]));
            assert(out@ =~= spec_be32(payload@.len() as u32) + payload@.take(i + 1));
        }
        i = i + 1;
    }
    proof {
        assert(payload@.take(n as int) =~= payload@);
    }
    out
}

/// Reads the frame length out of a 4-byte prefix.
pub fn frame_len(prefix: &[u8]) -> (n: u32)
    requires
        prefix@.len() == 4,
    ensures
        n == spec_be32_val(prefix@),
        spec_be32(n) == prefix@,
{
    let b0 = *slice_index_get(prefix, 0);
    let b1 = *slice_index_get(prefix, 1);
    let b2 = *slice_index_get(prefix, 2);
    let b3 = *slice_index_get(prefix, 3);
    let v = (b0 as u32) << 24 | (b1 as u32) << 16 | (b2 as u32) << 8 | (b3 as u32);
    proof {
        assert(b0 == ((v >> 24) & 0xff) as u8 && b1 == ((v >> 16) & 0xff) as u8 && b2 == ((v >> 8)
            & 0xff) as u8 && b3 == (v & 0xff) as u8) by (bit_vector)
            requires
                v == (b0 as u32) << 24 | (b1 as u32) << 16 | (b2 as u32) << 8 | (b3 as u32),
        ;
        assert(spec_be32(v) =~= prefix@);
    }
    v
}

impl Message {
    /// Encodes this message as one complete frame, prefix included: the
    /// computational half of sending a message to a socket.
    pub fn to_frame(&self, chaos: &ChaosConfig) -> (r: Vec<u8>)
        requires
            self.wf(),
        ensures
            ({
                let payload = spec_payload(self@);
                r@ == spec_be32(payload.len() as u32) + payload || r@ == spec_be32(
                    (payload.len() - 1) as u32,
                ) + payload.drop_first()
            }),
            !chaos.enabled ==> r@ == spec_be32(spec_payload(self@).len() as u32) + spec_payload(
                self@,
            ),
    {
        proof {
            lemma_payload_len(self@);
        }
        let payload = self.serialize(chaos);
        frame(&payload)
    }
}

impl Clone for Message {
    /// Cloning keeps the message's value.
    fn clone(&self) -> (r: Self)
        ensures
            r@ == self@,
    {
        match self {
            Message::Text { from, content } => Message::Text {
                from: from.clone(),
                content: content.clone(),
            },
            Message::Image { from, content } => {
                let c = content.clone();
                proof {
                    assert(c@ =~= content@);
                }
                Message::Image { from: from.clone(), content: c }
            },
            Message::File { from, name, content } => {
                let c = content.clone();
                proof {
                    assert(c@ =~= content@);
                }
                Message::File { from: from.clone(), name: name.clone(), content: c }
            },
            Message::ClientHello { from } => Message::ClientHello { from: from.clone() },
            Message::ServerHello => Message::ServerHello,
            Message::ClientQuit { from } => Message::ClientQuit { from: from.clone() },
        }
    }
}

} // verus!

