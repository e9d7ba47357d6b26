//! What holds of messages on the wire: a message that is written is read
//! back as it was, and a datagram is as long as its fields make it.

use crate::decimal::{decimal, is_digit, lemma_decimal_digits, number_field};
use crate::text::is_ascii;
use super::escape::{escape, escapes, lemma_escape_has_no_bare_slash, lemma_escape_is_ascii};
use super::escape::{lemma_escape_len, lemma_unescape_escape, BACKSLASH, SLASH};
use super::message::{decoded, decoded_ack, decoded_body, decoded_data, decoded_session};
use super::message::{encoded, encoded_body, has_tail, head, joined, lemma_first_slash_at};
use super::message::{no_slash, slash, tag_ack, tag_close, tag_connect};
use super::message::{tag_data, tail, InvalidReason, MessageView, SessionId};
use vstd::prelude::*;

verus! {

/// A field without `/`, a `/`, and what follows split into the field and
/// what follows.
proof fn lemma_split(a: Seq<u8>, b: Seq<u8>)
    requires
        no_slash(a),
    ensures
        head(joined(a, b)) == a,
        has_tail(joined(a, b)),
        tail(joined(a, b)) == b,
{
    let s = joined(a, b);
    lemma_first_slash_at(s, a.len() as int);
}

proof fn lemma_no_split(a: Seq<u8>)
    requires
        no_slash(a),
    ensures
        !has_tail(a),
{
    lemma_first_slash_at(a, a.len() as int);
}

proof fn lemma_decimal_field(n: u32)
    ensures
        no_slash(decimal(n as nat)),
        is_ascii(decimal(n as nat)),
        number_field(decimal(n as nat)) == Some(n),
{
    lemma_decimal_digits(n as nat);
    let d = decimal(n as nat);
    assert forall|j: int| 0 <= j < d.len() implies #[trigger] d[j] != SLASH && d[j] < 0x80 by {
        assert(is_digit(d[j]));
    }
}

/// A datagram with `body` between its two `/` decodes as its body does.
proof fn lemma_decoded_framed(body: Seq<u8>)
    requires
        is_ascii(body),
    ensures
        decoded(slash() + body + slash()) == decoded_body(body),
{
    let bytes = slash() + body + slash();
    assert(bytes.subrange(1, bytes.len() - 1) =~= body);
}

proof fn lemma_round_trip_session(session: SessionId)
    ensures
        is_ascii(decimal(session as nat)),
        decoded_session(decimal(session as nat)) == Ok::<SessionId, InvalidReason>(session),
{
    lemma_decimal_field(session);
    lemma_no_split(decimal(session as nat));
}

proof fn lemma_round_trip_ack(session: SessionId, position: u32)
    ensures
        is_ascii(joined(decimal(session as nat), decimal(position as nat))),
        decoded_ack(joined(decimal(session as nat), decimal(position as nat))) == Ok::<
            MessageView,
            InvalidReason,
        >(MessageView::Ack { session, position }),
{
    let s = decimal(session as nat);
    let p = decimal(position as nat);
    lemma_decimal_field(session);
    lemma_decimal_field(position);
    lemma_split(s, p);
    lemma_no_split(p);
}

proof fn lemma_round_trip_data(session: SessionId, position: u32, data: Seq<u8>)
    requires
        is_ascii(data),
    ensures
        is_ascii(joined(decimal(session as nat), joined(decimal(position as nat), escape(data)))),
        decoded_data(
            joined(decimal(session as nat), joined(decimal(position as nat), escape(data))),
        ) == Ok::<MessageView, InvalidReason>(MessageView::Data { session, position, data }),
{
    let s = decimal(session as nat);
    let p = decimal(position as nat);
    let e = escape(data);
    let rest2 = joined(p, e);
    lemma_decimal_field(session);
    lemma_decimal_field(position);
    lemma_escape_is_ascii(data);
    lemma_escape_has_no_bare_slash(data);
    lemma_unescape_escape(data);
    lemma_split(s, rest2);
    lemma_split(p, e);
}

/// A body made of a tag and the fields behind it decodes as the tag says.
proof fn lemma_decoded_tagged(tag: Seq<u8>, rest: Seq<u8>)
    requires
        tag == tag_connect() || tag == tag_data() || tag == tag_ack() || tag == tag_close(),
    ensures
        head(joined(tag, rest)) == tag,
        has_tail(joined(tag, rest)),
        tail(joined(tag, rest)) == rest,
{
    lemma_split(tag, rest);
}

/// Every message whose payload is ASCII is read back from its datagram as
/// it was written, whatever the payload holds: `/`, `\`, both or neither.
pub proof fn lemma_decode_encode(m: MessageView)
    requires
        m.is_text(),
    ensures
        decoded(encoded(m)) == Ok::<MessageView, InvalidReason>(m),
{
    let body = encoded_body(m);
    match m {
        MessageView::Connect(session) => {
            let rest = decimal(session as nat);
            lemma_round_trip_session(session);
            lemma_decoded_tagged(tag_connect(), rest);
        },
        MessageView::Disconnect(session) => {
            let rest = decimal(session as nat);
            lemma_round_trip_session(session);
            lemma_decoded_tagged(tag_close(), rest);
        },
        MessageView::Ack { session, position } => {
            let rest = joined(decimal(session as nat), decimal(position as nat));
            lemma_round_trip_ack(session, position);
            lemma_decoded_tagged(tag_ack(), rest);
        },
        MessageView::Data { session, position, data } => {
            let rest = joined(
                decimal(session as nat),
                joined(decimal(position as nat), escape(data)),
            );
            lemma_round_trip_data(session, position, data);
            lemma_decoded_tagged(tag_data(), rest);
        },
    }
    lemma_decoded_framed(body);
}

/// A payload without `/` and `\` stands on the wire as it is, and the
/// message is read back from its datagram as it was written.
pub proof fn lemma_decode_encode_plain(session: SessionId, position: u32, data: Seq<u8>)
    requires
        is_ascii(data),
        forall|i: int| 0 <= i < data.len() ==> data[i] != SLASH && data[i] != BACKSLASH,
    ensures
        escape(data) == data,
        decoded(encoded(MessageView::Data { session, position, data })) == Ok::<
            MessageView,
            InvalidReason,
        >(MessageView::Data { session, position, data }),
{
    lemma_decode_encode(MessageView::Data { session, position, data });
    lemma_escape_plain(data);
}

proof fn lemma_escape_plain(data: Seq<u8>)
    requires
        forall|i: int| 0 <= i < data.len() ==> data[i] != SLASH && data[i] != BACKSLASH,
    ensures
        escape(data) == data,
    decreases data.len(),
{
    if data.len() > 0 {
        let rest = data.skip(1);
        assert forall|i: int| 0 <= i < rest.len() implies rest[i] != SLASH && rest[i]
            != BACKSLASH by {
            assert(rest[i] == data[i + 1]);
        }
        lemma_escape_plain(rest);
    } else {
        assert(escape(data) =~= data);
    }
}

/// Ten to the power of `k`.
pub open spec fn pow10(k: nat) -> nat
    decreases k,
{
    if k == 0 {
        1
    } else {
        10 * pow10((k - 1) as nat)
    }
}

/// A number below ten to the power of `k` has at most `k` digits.
pub proof fn lemma_decimal_len(n: nat, k: nat)
    requires
        k >= 1,
        n < pow10(k),
    ensures
        1 <= decimal(n).len() <= k,
    decreases k,
{
    if n >= 10 {
        assert(pow10(1) == 10) by {
            assert(pow10(0) == 1);
        }
        lemma_decimal_len(n / 10, (k - 1) as nat);
    }
}

/// A session number or a position has at most ten digits.
pub proof fn lemma_decimal_u32_len(n: u32)
    ensures
        1 <= decimal(n as nat).len() <= 10,
{
    assert(pow10(10) == 10_000_000_000) by {
        reveal_with_fuel(pow10, 11);
    }
    lemma_decimal_len(n as nat, 10);
}

/// The length of the datagram of a data message: nine bytes for `/data/`
/// and the three other `/`, the digits of the two numbers, at most ten each,
/// the payload, and one byte more for each byte of the payload that needs an
/// escape.
pub proof fn lemma_data_datagram_len(session: SessionId, position: u32, data: Seq<u8>)
    ensures
        encoded(MessageView::Data { session, position, data }).len() == 9 + decimal(
            session as nat,
        ).len() + decimal(position as nat).len() + data.len() + escapes(data),
        encoded(MessageView::Data { session, position, data }).len() <= 29 + data.len() + escapes(
            data,
        ),
{
    lemma_escape_len(data);
    lemma_decimal_u32_len(session);
    lemma_decimal_u32_len(position);
}

} // verus!
