//! The four messages of the protocol and their text form, one per datagram:
//!
//! ```text
//! /connect/SESSION/
//! /data/SESSION/POS/DATA/
//! /ack/SESSION/POS/
//! /close/SESSION/
//! ```

use crate::decimal::{decimal, number_field, parse_number, push_decimal};
use crate::strings::ascii_string;
use crate::text::{all_ascii, find_byte, first_of, is_ascii};
use crate::text::{lemma_first_of, lemma_first_of_at, same_bytes};
use super::escape::{escape, has_bare_slash, unescape, SLASH};
use super::escape::{find_bare_slash, lemma_unescape_is_ascii, push_escaped, unescape_field};
use vstd::prelude::*;
use vstd::slice::slice_subrange;
use vstd::std_specs::convert::TryFromSpecImpl;
use vstd::utf8::encode_utf8;

verus! {

pub type SessionId = u32;

/// Why a datagram is no message.
#[derive(Debug, Clone, Copy, PartialEq, Eq, Structural)]
pub enum InvalidReason {
    /// A byte outside ASCII.
    NotAscii,
    /// The datagram does not both begin and end with `/`.
    NotDelimited,
    /// The first field is none of `connect`, `data`, `ack`, `close`.
    UnknownType,
    /// Too few or too many fields for the type.
    FieldCount,
    /// The session field is no unsigned 32-bit decimal number.
    InvalidSession,
    /// The position field is no unsigned 32-bit decimal number.
    InvalidPosition,
    /// The payload holds a `/` without a `\` directly before it.
    UnescapedSlash,
}

/// A datagram that is no message, with the reason.
#[derive(Debug, Clone, Copy, PartialEq, Eq, Structural)]
pub struct InvalidMessage(pub InvalidReason);

#[derive(Debug, PartialEq, Eq)]
pub enum Message {
    Connect(SessionId),
    Data { session: SessionId, position: u32, data: String },
    Ack { session: SessionId, position: u32 },
    Disconnect(SessionId),
}

/// A message as a mathematical value. The payload is the sequence of its
/// bytes: every offset and length of the protocol counts bytes.
pub ghost enum MessageView {
    Connect(SessionId),
    Data { session: SessionId, position: u32, data: Seq<u8> },
    Ack { session: SessionId, position: u32 },
    Disconnect(SessionId),
}

impl View for Message {
    type V = MessageView;

    open spec fn view(&self) -> MessageView {
        match *self {
            Message::Connect(session) => MessageView::Connect(session),
            Message::Data { session, position, data } => MessageView::Data {
                session,
                position,
                data: encode_utf8(data@),
            },
            Message::Ack { session, position } => MessageView::Ack { session, position },
            Message::Disconnect(session) => MessageView::Disconnect(session),
        }
    }
}

impl MessageView {
    pub open spec fn session_id(self) -> SessionId {
        match self {
            MessageView::Connect(session) => session,
            MessageView::Data { session, .. } => session,
            MessageView::Ack { session, .. } => session,
            MessageView::Disconnect(session) => session,
        }
    }

    /// Whether the message can stand in a datagram and be read back: its
    /// payload, if it has one, is ASCII.
    pub open spec fn is_text(self) -> bool {
        match self {
            MessageView::Data { data, .. } => is_ascii(data),
            _ => true,
        }
    }
}

/// `connect`
pub open spec fn tag_connect() -> Seq<u8> {
    seq![0x63u8, 0x6f, 0x6e, 0x6e, 0x65, 0x63, 0x74]
}

/// `data`
pub open spec fn tag_data() -> Seq<u8> {
    seq![0x64u8, 0x61, 0x74, 0x61]
}

/// `ack`
pub open spec fn tag_ack() -> Seq<u8> {
    seq![0x61u8, 0x63, 0x6b]
}

/// `close`
pub open spec fn tag_close() -> Seq<u8> {
    seq![0x63u8, 0x6c, 0x6f, 0x73, 0x65]
}

pub open spec fn slash() -> Seq<u8> {
    seq![SLASH]
}

/// Two fields with the `/` that parts them.
pub open spec fn joined(first: Seq<u8>, rest: Seq<u8>) -> Seq<u8> {
    first + slash() + rest
}

/// The fields of `m`, parted by `/`.
pub open spec fn encoded_body(m: MessageView) -> Seq<u8> {
    match m {
        MessageView::Connect(session) => joined(tag_connect(), decimal(session as nat)),
        MessageView::Data { session, position, data } => joined(
            tag_data(),
            joined(decimal(session as nat), joined(decimal(position as nat), escape(data))),
        ),
        MessageView::Ack { session, position } => joined(
            tag_ack(),
            joined(decimal(session as nat), decimal(position as nat)),
        ),
        MessageView::Disconnect(session) => joined(tag_close(), decimal(session as nat)),
    }
}

/// The datagram that carries `m`: its fields between two `/`.
pub open spec fn encoded(m: MessageView) -> Seq<u8> {
    slash() + encoded_body(m) + slash()
}

/// The index of the first `/` of `s`, or the length of `s` if it has none.
pub open spec fn first_slash(s: Seq<u8>) -> int {
    first_of(s, SLASH)
}

/// What stands before the first `/`.
pub open spec fn head(s: Seq<u8>) -> Seq<u8> {
    s.take(first_slash(s))
}

/// Whether `s` holds a `/`, and so a second field.
pub open spec fn has_tail(s: Seq<u8>) -> bool {
    first_slash(s) < s.len()
}

/// What stands behind the first `/`.
pub open spec fn tail(s: Seq<u8>) -> Seq<u8> {
    s.skip(first_slash(s) + 1)
}

/// `rest` is the one field of a `connect` or a `close`.
pub open spec fn decoded_session(rest: Seq<u8>) -> Result<SessionId, InvalidReason> {
    if has_tail(rest) {
        Err(InvalidReason::FieldCount)
    } else {
        match number_field(rest) {
            Some(session) => Ok(session),
            None => Err(InvalidReason::InvalidSession),
        }
    }
}

/// `rest` holds the two fields of an `ack`.
pub open spec fn decoded_ack(rest: Seq<u8>) -> Result<MessageView, InvalidReason> {
    if !has_tail(rest) || has_tail(tail(rest)) {
        Err(InvalidReason::FieldCount)
    } else {
        match (number_field(head(rest)), number_field(tail(rest))) {
            (None, _) => Err(InvalidReason::InvalidSession),
            (Some(_), None) => Err(InvalidReason::InvalidPosition),
            (Some(session), Some(position)) => Ok(MessageView::Ack { session, position }),
        }
    }
}

/// `rest` holds the three fields of a `data`. The third is all that follows
/// the second `/`, so a `/` in it that no `\` guards is one field too many.
pub open spec fn decoded_data(rest: Seq<u8>) -> Result<MessageView, InvalidReason> {
    if !has_tail(rest) || !has_tail(tail(rest)) {
        Err(InvalidReason::FieldCount)
    } else {
        let payload = tail(tail(rest));
        match (number_field(head(rest)), number_field(head(tail(rest)))) {
            (None, _) => Err(InvalidReason::InvalidSession),
            (Some(_), None) => Err(InvalidReason::InvalidPosition),
            (Some(session), Some(position)) => if has_bare_slash(payload) {
                Err(InvalidReason::UnescapedSlash)
            } else {
                Ok(MessageView::Data { session, position, data: unescape(payload) })
            },
        }
    }
}

/// What stands between the `/` at either end of a datagram.
pub open spec fn decoded_body(body: Seq<u8>) -> Result<MessageView, InvalidReason> {
    let tag = head(body);
    if tag != tag_connect() && tag != tag_data() && tag != tag_ack() && tag != tag_close() {
        Err(InvalidReason::UnknownType)
    } else if !has_tail(body) {
        Err(InvalidReason::FieldCount)
    } else if tag == tag_data() {
        decoded_data(tail(body))
    } else if tag == tag_ack() {
        decoded_ack(tail(body))
    } else {
        match decoded_session(tail(body)) {
            Ok(session) => if tag == tag_connect() {
                Ok(MessageView::Connect(session))
            } else {
                Ok(MessageView::Disconnect(session))
            },
            Err(reason) => Err(reason),
        }
    }
}

/// The message that a datagram carries, or the reason why it carries none.
pub open spec fn decoded(bytes: Seq<u8>) -> Result<MessageView, InvalidReason> {
    if !is_ascii(bytes) {
        Err(InvalidReason::NotAscii)
    } else if bytes.len() < 2 || bytes[0] != SLASH || bytes[bytes.len() - 1] != SLASH {
        Err(InvalidReason::NotDelimited)
    } else {
        decoded_body(bytes.subrange(1, bytes.len() - 1))
    }
}

/// Whether a field holds no `/`.
pub open spec fn no_slash(s: Seq<u8>) -> bool {
    forall|j: int| 0 <= j < s.len() ==> #[trigger] s[j] != SLASH
}

/// The first `/` of `s` stands at `k` if there is none before `k` and one at
/// `k`, or `k` is where `s` ends.
pub proof fn lemma_first_slash_at(s: Seq<u8>, k: int)
    requires
        0 <= k <= s.len(),
        no_slash(s.take(k)),
        k < s.len() ==> s[k] == SLASH,
    ensures
        first_slash(s) == k,
{
    assert forall|j: int| 0 <= j < k implies s[j] != SLASH by {
        assert(s.take(k)[j] == s[j]);
    }
    lemma_first_of_at(s, SLASH, k);
}

/// Where the first `/` of `s` stands: no `/` before it, and a `/` there
/// unless `s` has none.
pub proof fn lemma_first_slash_bounds(s: Seq<u8>)
    ensures
        0 <= first_slash(s) <= s.len(),
        no_slash(head(s)),
        has_tail(s) ==> s[first_slash(s)] == SLASH,
{
    lemma_first_of(s, SLASH);
}

/// Splits `s` at its first `/`: what stands before it, and what stands
/// behind it if there is one.
fn split_field<'a>(s: &'a [u8]) -> (parts: (&'a [u8], Option<&'a [u8]>))
    ensures
        parts.0@ == head(s@),
        parts.1 is Some <==> has_tail(s@),
        parts.1 is Some ==> parts.1->0@ == tail(s@),
        is_ascii(s@) ==> is_ascii(parts.0@),
        is_ascii(s@) && parts.1 is Some ==> is_ascii(parts.1->0@),
{
    let k = find_byte(s, 0, SLASH);
    proof {
        assert(s@.skip(0) =~= s@);
    }
    let first = slice_subrange(s, 0, k);
    proof {
        assert forall|i: int| 0 <= i < first@.len() implies first@[i] == s@[i] by {}
    }
    if k < s.len() {
        let rest = slice_subrange(s, k + 1, s.len());
        proof {
            assert forall|i: int| 0 <= i < rest@.len() implies rest@[i] == s@[i + k + 1] by {}
        }
        (first, Some(rest))
    } else {
        (first, None)
    }
}

/// Reads the one field of a `connect` or a `close`.
fn decode_session(rest: &[u8]) -> (res: Result<SessionId, InvalidMessage>)
    ensures
        match decoded_session(rest@) {
            Ok(session) => res == Ok::<SessionId, InvalidMessage>(session),
            Err(reason) => res == Err::<SessionId, InvalidMessage>(InvalidMessage(reason)),
        },
{
    let (field, more) = split_field(rest);
    if more.is_some() {
        return Err(InvalidMessage(InvalidReason::FieldCount));
    }
    proof {
        lemma_first_slash_bounds(rest@);
        assert(field@ =~= rest@);
    }
    match parse_number(field) {
        Some(session) => Ok(session),
        None => Err(InvalidMessage(InvalidReason::InvalidSession)),
    }
}

/// Reads the two fields of an `ack`.
fn decode_ack(rest: &[u8]) -> (res: Result<Message, InvalidMessage>)
    ensures
        match decoded_ack(rest@) {
            Ok(m) => res is Ok && res->Ok_0@ == m,
            Err(reason) => res is Err && res->Err_0 == InvalidMessage(reason),
        },
{
    let (session_field, more) = split_field(rest);
    let position_part = match more {
        Some(part) => part,
        None => { return Err(InvalidMessage(InvalidReason::FieldCount)); },
    };
    let (position_field, extra) = split_field(position_part);
    if extra.is_some() {
        return Err(InvalidMessage(InvalidReason::FieldCount));
    }
    proof {
        lemma_first_slash_bounds(position_part@);
        assert(position_field@ =~= position_part@);
    }
    let session = match parse_number(session_field) {
        Some(session) => session,
        None => { return Err(InvalidMessage(InvalidReason::InvalidSession)); },
    };
    let position = match parse_number(position_field) {
        Some(position) => position,
        None => { return Err(InvalidMessage(InvalidReason::InvalidPosition)); },
    };
    Ok(Message::Ack { session, position })
}

/// Reads the three fields of a `data`.
fn decode_data(rest: &[u8]) -> (res: Result<Message, InvalidMessage>)
    requires
        is_ascii(rest@),
    ensures
        match decoded_data(rest@) {
            Ok(m) => res is Ok && res->Ok_0@ == m,
            Err(reason) => res is Err && res->Err_0 == InvalidMessage(reason),
        },
{
    let (session_field, more) = split_field(rest);
    let position_part = match more {
        Some(part) => part,
        None => { return Err(InvalidMessage(InvalidReason::FieldCount)); },
    };
    let (position_field, last) = split_field(position_part);
    let payload = match last {
        Some(part) => part,
        None => { return Err(InvalidMessage(InvalidReason::FieldCount)); },
    };
    let session = match parse_number(session_field) {
        Some(session) => session,
        None => { return Err(InvalidMessage(InvalidReason::InvalidSession)); },
    };
    let position = match parse_number(position_field) {
        Some(position) => position,
        None => { return Err(InvalidMessage(InvalidReason::InvalidPosition)); },
    };
    if find_bare_slash(payload) {
        return Err(InvalidMessage(InvalidReason::UnescapedSlash));
    }
    let bytes = unescape_field(payload);
    proof {
        lemma_unescape_is_ascii(payload@);
    }
    let data = ascii_string(bytes);
    Ok(Message::Data { session, position, data })
}

/// Reads what stands between the `/` at either end of a datagram.
fn decode_body(body: &[u8]) -> (res: Result<Message, InvalidMessage>)
    requires
        is_ascii(body@),
    ensures
        match decoded_body(body@) {
            Ok(m) => res is Ok && res->Ok_0@ == m,
            Err(reason) => res is Err && res->Err_0 == InvalidMessage(reason),
        },
{
    let connect: [u8; 7] = [0x63, 0x6f, 0x6e, 0x6e, 0x65, 0x63, 0x74];
    let data: [u8; 4] = [0x64, 0x61, 0x74, 0x61];
    let ack: [u8; 3] = [0x61, 0x63, 0x6b];
    let close: [u8; 5] = [0x63, 0x6c, 0x6f, 0x73, 0x65];
    proof {
        assert(connect@ =~= tag_connect());
    }
    let (tag, more) = split_field(body);
    let is_connect = same_bytes(tag, connect.as_slice());
    let is_data = same_bytes(tag, data.as_slice());
    let is_ack = same_bytes(tag, ack.as_slice());
    let is_close = same_bytes(tag, close.as_slice());
    if !is_connect && !is_data && !is_ack && !is_close {
        return Err(InvalidMessage(InvalidReason::UnknownType));
    }
    let rest = match more {
        Some(rest) => rest,
        None => { return Err(InvalidMessage(InvalidReason::FieldCount)); },
    };
    if is_data {
        decode_data(rest)
    } else if is_ack {
        decode_ack(rest)
    } else {
        match decode_session(rest) {
            Ok(session) => if is_connect {
                Ok(Message::Connect(session))
            } else {
                Ok(Message::Disconnect(session))
            },
            Err(invalid) => Err(invalid),
        }
    }
}

/// Appends `first`, a `/` and nothing else: the caller appends the rest.
fn push_tag(out: &mut Vec<u8>, tag: &[u8])
    ensures
        final(out)@ == old(out)@ + tag@ + slash(),
{
    out.extend_from_slice(tag);
    out.push(SLASH);
    proof {
        assert(final(out)@ =~= old(out)@ + tag@ + slash());
    }
}

impl Message {
    pub fn session_id(&self) -> (id: SessionId)
        ensures
            id == self@.session_id(),
    {
        match self {
            Message::Connect(session) => *session,
            Message::Data { session, .. } => *session,
            Message::Ack { session, .. } => *session,
            Message::Disconnect(session) => *session,
        }
    }

    /// The datagram that carries the message.
    pub fn to_vec(&self) -> (bytes: Vec<u8>)
        ensures
            bytes@ == encoded(self@),
    {
        let mut out: Vec<u8> = Vec::new();
        out.push(SLASH);
        match self {
            Message::Connect(session) => {
                let tag: [u8; 7] = [0x63, 0x6f, 0x6e, 0x6e, 0x65, 0x63, 0x74];
                proof {
                    assert(tag@ =~= tag_connect());
                }
                push_tag(&mut out, tag.as_slice());
                push_decimal(&mut out, *session);
            },
            Message::Data { session, position, data } => {
                let tag: [u8; 4] = [0x64, 0x61, 0x74, 0x61];
                proof {
                    assert(tag@ =~= tag_data());
                }
                push_tag(&mut out, tag.as_slice());
                push_decimal(&mut out, *session);
                out.push(SLASH);
                push_decimal(&mut out, *position);
                out.push(SLASH);
                push_escaped(&mut out, data.as_str().as_bytes());
            },
            Message::Ack { session, position } => {
                let tag: [u8; 3] = [0x61, 0x63, 0x6b];
                proof {
                    assert(tag@ =~= tag_ack());
                }
                push_tag(&mut out, tag.as_slice());
                push_decimal(&mut out, *session);
                out.push(SLASH);
                push_decimal(&mut out, *position);
            },
            Message::Disconnect(session) => {
                let tag: [u8; 5] = [0x63, 0x6c, 0x6f, 0x73, 0x65];
                proof {
                    assert(tag@ =~= tag_close());
                }
                push_tag(&mut out, tag.as_slice());
                push_decimal(&mut out, *session);
            },
        }
        out.push(SLASH);
        proof {
            assert(out@ =~= encoded(self@));
        }
        out
    }

    /// Reads the message that a datagram carries.
    ///
    /// A numeric field is an optional `+` and at least one decimal digit,
    /// with any number of leading zeros, and must fit 32 bits. Each type has
    /// its own number of fields, and a datagram with more or fewer is
    /// refused. The payload of a `data` is all that follows its third field;
    /// a `\` in it that stands before neither `/` nor `\` is kept.
    pub fn decode(bytes: &[u8]) -> (res: Result<Message, InvalidMessage>)
        ensures
            match decoded(bytes@) {
                Ok(m) => res is Ok && res->Ok_0@ == m,
                Err(reason) => res is Err && res->Err_0 == InvalidMessage(reason),
            },
            res is Ok ==> res->Ok_0@.is_text(),
    {
        if !all_ascii(bytes) {
            return Err(InvalidMessage(InvalidReason::NotAscii));
        }
        let n = bytes.len();
        if n < 2 || bytes[0] != SLASH || bytes[n - 1] != SLASH {
            return Err(InvalidMessage(InvalidReason::NotDelimited));
        }
        let body = slice_subrange(bytes, 1, n - 1);
        proof {
            assert forall|i: int| 0 <= i < body@.len() implies #[trigger] body@[i] < 0x80 by {
                assert(body@[i] == bytes@[i + 1]);
            }
            lemma_decoded_is_text(body@);
        }
        decode_body(body)
    }
}

/// What is read from an ASCII datagram has an ASCII payload.
proof fn lemma_decoded_is_text(body: Seq<u8>)
    requires
        is_ascii(body),
    ensures
        decoded_body(body) is Ok ==> decoded_body(body)->Ok_0.is_text(),
{
    if decoded_body(body) is Ok && head(body) == tag_data() {
        let rest = tail(body);
        let payload = tail(tail(rest));
        lemma_first_slash_bounds(body);
        lemma_first_slash_bounds(rest);
        lemma_first_slash_bounds(tail(rest));
        assert forall|i: int| 0 <= i < payload.len() implies #[trigger] payload[i] < 0x80 by {
            let a = first_slash(body) + 1;
            let b = first_slash(rest) + 1;
            let c = first_slash(tail(rest)) + 1;
            assert(payload[i] == body[i + c + b + a]);
        }
        lemma_unescape_is_ascii(payload);
    }
}

impl<'a> TryFrom<&'a [u8]> for Message {
    type Error = InvalidMessage;

    /// Reads the message that a datagram carries, as [`Message::decode`]
    /// does.
    fn try_from(value: &'a [u8]) -> (res: Result<Self, Self::Error>)
        ensures
            match decoded(value@) {
                Ok(m) => res is Ok && res->Ok_0@ == m,
                Err(reason) => res is Err && res->Err_0 == InvalidMessage(reason),
            },
            res is Ok ==> res->Ok_0@.is_text(),
    {
        Message::decode(value)
    }
}

impl<'a> TryFromSpecImpl<&'a [u8]> for Message {
    open spec fn obeys_try_from_spec() -> bool {
        false
    }

    open spec fn try_from_spec(v: &'a [u8]) -> Result<Self, Self::Error> {
        Err(InvalidMessage(InvalidReason::NotAscii))
    }
}

} // verus!
