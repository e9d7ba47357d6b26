//! One session: the state that the protocol keeps for one peer, and the rule
//! by which each message changes it.
//!
//! A session does no input or output. [`Session::handle_new_message`] takes a
//! message, changes the state and hands back what is to be sent: at most one
//! reply, and one group of data messages for each line that the message
//! completed.

use crate::text::{all_ascii, is_ascii};
use super::lines::{all_fit, chunk_messages, chunks, complete_lines, find_newline, first_newline};
use super::lines::{has_line, lemma_chunks, lemma_first_newline, lemma_reversed_line, reverse_line};
use super::lines::{reversed_line, unfinished};
use super::message::{Message, MessageView, SessionId};
use super::retransmission::ChunkGroup;
use vstd::prelude::*;
use vstd::slice::slice_subrange;

verus! {

/// Where the datagrams of a peer come from and go to: an internet address as
/// a 128-bit number, and a port.
#[derive(Debug, Clone, Copy, PartialEq, Eq, Structural)]
pub struct PeerAddress {
    pub host: u128,
    pub port: u16,
}

pub struct Session {
    id: SessionId,
    peer_address: PeerAddress,
    /// Whether the peer has sent `connect`.
    has_connected: bool,
    /// Whether the session has ended.
    closed: bool,
    /// The bytes received behind the last complete line.
    data: Vec<u8>,
    /// How many bytes of the inbound stream have been accepted.
    bytes_received: u32,
    /// How many bytes of the outbound stream have been handed out.
    bytes_sent: u32,
    /// How many bytes of the outbound stream the peer has acknowledged.
    bytes_acked: u32,
}

/// A session as a mathematical value.
pub ghost struct SessionView {
    pub id: SessionId,
    pub peer_address: PeerAddress,
    pub connected: bool,
    pub closed: bool,
    pub bytes_received: nat,
    pub receive_buffer: Seq<u8>,
    pub bytes_sent: nat,
    pub bytes_acked: nat,
}

/// What a session hands back for a message.
#[derive(Debug, PartialEq, Eq)]
pub struct Outcome {
    /// The message to send to the peer at once, if any.
    pub reply: Option<Message>,
    /// One group for each line that was completed, in the order of the lines.
    /// Each is to be sent after the reply and kept up until acknowledged.
    pub groups: Vec<ChunkGroup>,
}

impl Outcome {
    pub open spec fn reply_view(&self) -> Option<MessageView> {
        match self.reply {
            Some(message) => Some(message@),
            None => None,
        }
    }

    pub open spec fn groups_view(&self) -> Seq<Seq<MessageView>> {
        self.groups@.map_values(|g: ChunkGroup| g@)
    }
}

/// The total length of the answers to `lines`.
pub open spec fn answers_len(lines: Seq<Seq<u8>>) -> nat
    decreases lines.len(),
{
    if lines.len() == 0 {
        0
    } else {
        reversed_line(lines[0]).len() + answers_len(lines.skip(1))
    }
}

/// The groups that carry the answers to `lines`, the first from stream
/// offset `start` on and each of the others from where the one before ends.
pub open spec fn line_groups(id: SessionId, start: nat, lines: Seq<Seq<u8>>) -> Seq<
    Seq<MessageView>,
>
    decreases lines.len(),
{
    if lines.len() == 0 {
        Seq::empty()
    } else {
        seq![chunks(id, start, reversed_line(lines[0]))] + line_groups(
            id,
            start + reversed_line(lines[0]).len(),
            lines.skip(1),
        )
    }
}

impl SessionView {
    /// A session as it is created: not connected, nothing received or sent.
    pub open spec fn initial(id: SessionId, peer_address: PeerAddress) -> SessionView {
        SessionView {
            id,
            peer_address,
            connected: false,
            closed: false,
            bytes_received: 0,
            receive_buffer: Seq::empty(),
            bytes_sent: 0,
            bytes_acked: 0,
        }
    }

    /// What holds of every session: the buffer is ASCII and holds no complete
    /// line, no more is acknowledged than was sent, and the answers sent and
    /// the bytes buffered together are no more than was received.
    pub open spec fn wf(self) -> bool {
        &&& is_ascii(self.receive_buffer)
        &&& !has_line(self.receive_buffer)
        &&& self.bytes_acked <= self.bytes_sent
        &&& self.bytes_sent + self.receive_buffer.len() <= self.bytes_received
        &&& self.bytes_received <= u32::MAX
    }

    /// Data of which a session can take nothing: its payload is not ASCII,
    /// or it ends behind the last offset that 32 bits can address.
    pub open spec fn unfit(m: MessageView) -> bool {
        match m {
            MessageView::Data { position, data, .. } => !is_ascii(data) || position + data.len()
                > u32::MAX,
            _ => false,
        }
    }

    /// The message brings bytes that the session has not taken yet: it is
    /// data for a connected session that starts at or before
    /// `bytes_received` and ends behind it.
    pub open spec fn brings_new_bytes(self, m: MessageView) -> bool {
        match m {
            MessageView::Data { position, data, .. } => self.connected && position
                <= self.bytes_received < position + data.len(),
            _ => false,
        }
    }

    /// The message changes nothing and gets no reply: the session is closed,
    /// or the message brings new bytes of which the session can take
    /// nothing.
    pub open spec fn ignores(self, m: MessageView) -> bool {
        self.closed || (self.brings_new_bytes(m) && Self::unfit(m))
    }

    /// The message breaks the protocol: data or an acknowledgement before
    /// `connect`, or an acknowledgement of what was never sent.
    pub open spec fn violated_by(self, m: MessageView) -> bool {
        match m {
            MessageView::Data { .. } => !self.connected,
            MessageView::Ack { position, .. } => !self.connected || position > self.bytes_sent,
            _ => false,
        }
    }

    /// The message ends the session.
    pub open spec fn closed_by(self, m: MessageView) -> bool {
        !self.ignores(m) && (m is Disconnect || self.violated_by(m))
    }

    /// The bytes of the message that are new to the session: the part of the
    /// payload from offset `bytes_received` on, if the payload starts at or
    /// before that offset and ends behind it.
    pub open spec fn fresh(self, m: MessageView) -> Seq<u8> {
        match m {
            MessageView::Data { position, data, .. } => if !self.ignores(m)
                && self.brings_new_bytes(m) {
                data.skip(self.bytes_received - position)
            } else {
                Seq::empty()
            },
            _ => Seq::empty(),
        }
    }

    /// The complete lines that the message brings about.
    pub open spec fn lines(self, m: MessageView) -> Seq<Seq<u8>> {
        complete_lines(self.receive_buffer + self.fresh(m))
    }

    /// The session after the message.
    pub open spec fn step(self, m: MessageView) -> SessionView {
        if self.ignores(m) {
            self
        } else if self.closed_by(m) {
            SessionView { closed: true, ..self }
        } else {
            match m {
                MessageView::Connect(_) => SessionView { connected: true, ..self },
                MessageView::Ack { position, .. } => SessionView {
                    bytes_acked: if position > self.bytes_acked {
                        position as nat
                    } else {
                        self.bytes_acked
                    },
                    ..self
                },
                _ => SessionView {
                    bytes_received: self.bytes_received + self.fresh(m).len(),
                    receive_buffer: unfinished(self.receive_buffer + self.fresh(m)),
                    bytes_sent: self.bytes_sent + answers_len(self.lines(m)),
                    ..self
                },
            }
        }
    }

    /// The reply to the message.
    pub open spec fn reply(self, m: MessageView) -> Option<MessageView> {
        if self.ignores(m) {
            None
        } else if self.closed_by(m) {
            Some(MessageView::Disconnect(self.id))
        } else {
            match m {
                MessageView::Connect(_) => Some(MessageView::Ack { session: self.id, position: 0 }),
                MessageView::Data { position, data, .. } => if position + data.len()
                    < self.bytes_received {
                    None
                } else {
                    Some(
                        MessageView::Ack {
                            session: self.id,
                            position: self.step(m).bytes_received as u32,
                        },
                    )
                },
                _ => None,
            }
        }
    }

    /// The groups of data messages that answer the lines which the message
    /// completed.
    pub open spec fn groups(self, m: MessageView) -> Seq<Seq<MessageView>> {
        line_groups(self.id, self.bytes_sent, self.lines(m))
    }

    /// The session after its expiry.
    pub open spec fn expired(self) -> SessionView {
        SessionView { closed: true, ..self }
    }
}

/// Cutting the complete lines out of a stream: the answers are no longer
/// than the lines, and what is left is the end of the stream, without a line
/// feed.
pub proof fn lemma_extraction(s: Seq<u8>)
    ensures
        answers_len(complete_lines(s)) + unfinished(s).len() <= s.len(),
        !has_line(unfinished(s)),
        is_ascii(s) ==> is_ascii(unfinished(s)),
        !has_line(s) ==> complete_lines(s).len() == 0 && unfinished(s) == s,
    decreases s.len(),
{
    if has_line(s) {
        let k = first_newline(s);
        let line = s.take(k + 1);
        let rest = s.skip(k + 1);
        lemma_first_newline(s);
        lemma_extraction(rest);
        lemma_reversed_line(line);
        let lines = complete_lines(s);
        assert(lines.skip(1) =~= complete_lines(rest));
        if is_ascii(s) {
            assert forall|i: int| 0 <= i < rest.len() implies #[trigger] rest[i] < 0x80 by {
                assert(rest[i] == s[i + k + 1]);
            }
        }
    }
}

/// No message of a group of answers makes a datagram of more than a
/// thousand bytes.
pub proof fn lemma_line_groups_fit(id: SessionId, start: nat, lines: Seq<Seq<u8>>)
    ensures
        forall|k: int|
            0 <= k < line_groups(id, start, lines).len() ==> all_fit(
                #[trigger] line_groups(id, start, lines)[k],
            ),
    decreases lines.len(),
{
    if lines.len() > 0 {
        let answer = reversed_line(lines[0]);
        let later = line_groups(id, start + answer.len(), lines.skip(1));
        lemma_chunks(id, start, answer);
        lemma_line_groups_fit(id, start + answer.len(), lines.skip(1));
        assert forall|k: int| 0 <= k < line_groups(id, start, lines).len() implies all_fit(
            #[trigger] line_groups(id, start, lines)[k],
        ) by {
            if k > 0 {
                assert(line_groups(id, start, lines)[k] == later[k - 1]);
            }
        }
    }
}

/// Whatever a session hands back for a message, no message of it makes a
/// datagram of more than a thousand bytes.
pub proof fn lemma_groups_fit(s: SessionView, m: MessageView)
    ensures
        forall|k: int| 0 <= k < s.groups(m).len() ==> all_fit(#[trigger] s.groups(m)[k]),
{
    lemma_line_groups_fit(s.id, s.bytes_sent, s.lines(m));
}

impl View for Session {
    type V = SessionView;

    closed spec fn view(&self) -> SessionView {
        SessionView {
            id: self.id,
            peer_address: self.peer_address,
            connected: self.has_connected,
            closed: self.closed,
            bytes_received: self.bytes_received as nat,
            receive_buffer: self.data@,
            bytes_sent: self.bytes_sent as nat,
            bytes_acked: self.bytes_acked as nat,
        }
    }
}

impl Session {
    pub open spec fn wf(&self) -> bool {
        self@.wf()
    }

    pub fn new(session_id: SessionId, peer_address: PeerAddress) -> (session: Session)
        ensures
            session.wf(),
            session@ == SessionView::initial(session_id, peer_address),
    {
        let session = Session {
            id: session_id,
            peer_address,
            has_connected: false,
            closed: false,
            data: Vec::new(),
            bytes_received: 0,
            bytes_sent: 0,
            bytes_acked: 0,
        };
        proof {
            lemma_extraction(session.data@);
        }
        session
    }

    pub fn id(&self) -> (id: SessionId)
        ensures
            id == self@.id,
    {
        self.id
    }

    pub fn peer_address(&self) -> (peer_address: PeerAddress)
        ensures
            peer_address == self@.peer_address,
    {
        self.peer_address
    }

    pub fn has_connected(&self) -> (connected: bool)
        ensures
            connected == self@.connected,
    {
        self.has_connected
    }

    pub fn is_closed(&self) -> (closed: bool)
        ensures
            closed == self@.closed,
    {
        self.closed
    }

    pub fn bytes_received(&self) -> (n: u32)
        ensures
            n == self@.bytes_received,
    {
        self.bytes_received
    }

    pub fn bytes_sent(&self) -> (n: u32)
        ensures
            n == self@.bytes_sent,
    {
        self.bytes_sent
    }

    pub fn bytes_acked(&self) -> (n: u32)
        ensures
            n == self@.bytes_acked,
    {
        self.bytes_acked
    }

    /// The bytes received behind the last complete line.
    pub fn receive_buffer(&self) -> (buffer: &Vec<u8>)
        ensures
            buffer@ == self@.receive_buffer,
    {
        &self.data
    }

    /// The acknowledgement of the inbound stream up to `position`.
    pub fn ack(&self, position: u32) -> (message: Message)
        ensures
            message@ == (MessageView::Ack { session: self@.id, position }),
    {
        Message::Ack { session: self.id, position }
    }

    /// Ends the session. The result is the `close` to send to the peer.
    pub fn close(&mut self) -> (message: Message)
        ensures
            final(self)@ == (SessionView { closed: true, ..old(self)@ }),
            message@ == MessageView::Disconnect(old(self)@.id),
    {
        self.closed = true;
        Message::Disconnect(self.id)
    }

    /// Ends the session because a group of it was not acknowledged in time.
    /// The result is the `close` to send to the peer; a session that was
    /// closed already stays as it is and sends nothing.
    pub fn expire(&mut self) -> (message: Option<Message>)
        ensures
            final(self)@ == old(self)@.expired(),
            old(self).wf() ==> final(self).wf(),
            match message {
                Some(close) => !old(self)@.closed && close@ == MessageView::Disconnect(
                    old(self)@.id,
                ),
                None => old(self)@.closed,
            },
    {
        if self.closed {
            None
        } else {
            Some(self.close())
        }
    }

    /// Cuts `line` into data messages at the end of the outbound stream. None
    /// of them makes a datagram of more than a thousand bytes, whatever the
    /// line holds.
    pub fn break_line_in_messages(&mut self, line: &[u8]) -> (group: ChunkGroup)
        requires
            is_ascii(line@),
            old(self)@.bytes_sent + line.len() <= u32::MAX,
        ensures
            group@ == chunks(old(self)@.id, old(self)@.bytes_sent, line@),
            all_fit(group@),
            final(self)@ == (SessionView {
                bytes_sent: (old(self)@.bytes_sent + line.len()) as nat,
                ..old(self)@
            }),
    {
        let messages = chunk_messages(self.id, self.bytes_sent, line);
        self.bytes_sent = self.bytes_sent + line.len() as u32;
        ChunkGroup { messages }
    }

    /// Takes the complete lines out of the buffer and hands back the groups
    /// that answer them.
    fn send_lines(&mut self) -> (groups: Vec<ChunkGroup>)
        requires
            is_ascii(old(self)@.receive_buffer),
            old(self)@.bytes_sent + old(self)@.receive_buffer.len() <= u32::MAX,
        ensures
            groups@.map_values(|g: ChunkGroup| g@) == line_groups(
                old(self)@.id,
                old(self)@.bytes_sent,
                complete_lines(old(self)@.receive_buffer),
            ),
            final(self)@ == (SessionView {
                receive_buffer: unfinished(old(self)@.receive_buffer),
                bytes_sent: old(self)@.bytes_sent + answers_len(
                    complete_lines(old(self)@.receive_buffer),
                ),
                ..old(self)@
            }),
    {
        let ghost stream = self.data@;
        let ghost first = self@;
        let mut groups: Vec<ChunkGroup> = Vec::new();
        let mut start: usize = 0;
        let mut end: usize = find_newline(self.data.as_slice(), 0);
        proof {
            assert(stream.skip(0) =~= stream);
            assert(Seq::<Seq<MessageView>>::empty() + line_groups(
                first.id,
                first.bytes_sent,
                complete_lines(stream),
            ) =~= line_groups(first.id, first.bytes_sent, complete_lines(stream)));
        }
        while end < self.data.len()
            invariant
                start <= end <= self.data.len(),
                self.data@ == stream,
                is_ascii(stream),
                first.bytes_sent + stream.len() <= u32::MAX,
                end - start == first_newline(stream.skip(start as int)),
                self@ == (SessionView { bytes_sent: self@.bytes_sent, ..first }),
                first.bytes_sent <= self@.bytes_sent <= first.bytes_sent + start,
                groups@.map_values(|g: ChunkGroup| g@) + line_groups(
                    first.id,
                    self@.bytes_sent,
                    complete_lines(stream.skip(start as int)),
                ) == line_groups(first.id, first.bytes_sent, complete_lines(stream)),
                self@.bytes_sent + answers_len(complete_lines(stream.skip(start as int)))
                    == first.bytes_sent + answers_len(complete_lines(stream)),
                unfinished(stream.skip(start as int)) == unfinished(stream),
            decreases self.data.len() - start,
        {
            let ghost rest = stream.skip(start as int);
            let ghost before = groups@.map_values(|g: ChunkGroup| g@);
            let ghost sent = self@.bytes_sent;
            let line = slice_subrange(self.data.as_slice(), start, end + 1);
            proof {
                assert(line@ =~= rest.take(end - start + 1));
                assert(rest.skip(end - start + 1) =~= stream.skip(end + 1));
                lemma_first_newline(rest);
                lemma_reversed_line(line@);
                assert forall|i: int| 0 <= i < line@.len() implies #[trigger] line@[i] < 0x80 by {
                    assert(line@[i] == stream[start + i]);
                }
                assert(complete_lines(rest).skip(1) =~= complete_lines(stream.skip(end + 1)));
            }
            let answer = reverse_line(line);
            let group = self.break_line_in_messages(answer.as_slice());
            let ghost group_view = group@;
            groups.push(group);
            proof {
                let later = line_groups(
                    first.id,
                    sent + answer@.len(),
                    complete_lines(stream.skip(end + 1)),
                );
                assert((before + seq![group_view]) + later =~= before + (seq![group_view]
                    + later));
            }
            start = end + 1;
            end = find_newline(self.data.as_slice(), start);
        }
        proof {
            assert(groups@.map_values(|g: ChunkGroup| g@) + Seq::<Seq<MessageView>>::empty()
                =~= groups@.map_values(|g: ChunkGroup| g@));
        }
        let left = self.data.split_off(start);
        self.data = left;
        proof {
            assert(self.data@ =~= stream.skip(start as int));
        }
        groups
    }

    /// Takes a data message whose payload is `payload`.
    fn handle_data(&mut self, Ghost(m): Ghost<MessageView>, position: u32, payload: &[u8]) -> (out:
        Outcome)
        requires
            old(self).wf(),
            !old(self)@.closed,
            m matches MessageView::Data { position: p, data, .. } && p == position && data
                == payload@,
        ensures
            final(self).wf(),
            final(self)@ == old(self)@.step(m),
            out.reply_view() == old(self)@.reply(m),
            out.groups_view() == old(self)@.groups(m),
    {
        let ghost first = self@;
        proof {
            lemma_extraction(first.receive_buffer);
        }
        if !self.has_connected {
            let reply = self.close();
            return Outcome { reply: Some(reply), groups: Vec::new() };
        }
        if position > self.bytes_received {
            let reply = self.ack(self.bytes_received);
            return Outcome { reply: Some(reply), groups: Vec::new() };
        }
        let overlap: usize = (self.bytes_received - position) as usize;
        if overlap > payload.len() {
            return Outcome { reply: None, groups: Vec::new() };
        }
        if overlap == payload.len() {
            let reply = self.ack(self.bytes_received);
            return Outcome { reply: Some(reply), groups: Vec::new() };
        }
        if !all_ascii(payload) || payload.len() > (u32::MAX - position) as usize {
            return Outcome { reply: None, groups: Vec::new() };
        }
        let fresh = slice_subrange(payload, overlap, payload.len());
        proof {
            assert forall|i: int| 0 <= i < (first.receive_buffer + fresh@).len() implies #[trigger] (
            first.receive_buffer + fresh@)[i] < 0x80 by {
                if i >= first.receive_buffer.len() {
                    assert((first.receive_buffer + fresh@)[i] == payload@[i
                        - first.receive_buffer.len() + overlap]);
                }
            }
            lemma_extraction(first.receive_buffer + fresh@);
        }
        self.data.extend_from_slice(fresh);
        self.bytes_received = self.bytes_received + fresh.len() as u32;
        let reply = self.ack(self.bytes_received);
        proof {
            assert(self@.receive_buffer == first.receive_buffer + fresh@);
        }
        let groups = self.send_lines();
        Outcome { reply: Some(reply), groups }
    }

    /// Takes the next message of the peer.
    ///
    /// * A closed session takes nothing and answers nothing.
    /// * `connect` marks the session connected, and is answered by an
    ///   acknowledgement of offset 0 each time.
    /// * `close` ends the session, and is answered by `close`.
    /// * Data or an acknowledgement before `connect`, and an acknowledgement
    ///   of more than was sent, end the session with a `close`.
    /// * Any other acknowledgement moves `bytes_acked` forward to its
    ///   position, never backward, and is not answered.
    /// * Data that starts behind `bytes_received` leaves a gap: nothing is
    ///   taken, and the answer acknowledges `bytes_received`.
    /// * Data that ends before `bytes_received` is old: nothing is taken, and
    ///   nothing is answered. Data that ends at `bytes_received` is
    ///   acknowledged once more.
    /// * Of any other data the part from `bytes_received` on is taken, and
    ///   the new `bytes_received` is acknowledged. Every line that is
    ///   complete now is answered by a group of data messages that carry it
    ///   reversed, and leaves the buffer. No message of a group makes a
    ///   datagram of more than a thousand bytes.
    /// * The one exception: where the part to take cannot be taken, because
    ///   the payload is not ASCII or ends behind the last offset that 32 bits
    ///   can address, nothing is taken and nothing is answered.
    pub fn handle_new_message(&mut self, message: Message) -> (out: Outcome)
        requires
            old(self).wf(),
        ensures
            final(self).wf(),
            final(self)@ == old(self)@.step(message@),
            out.reply_view() == old(self)@.reply(message@),
            out.groups_view() == old(self)@.groups(message@),
            forall|k: int|
                0 <= k < out.groups_view().len() ==> all_fit(#[trigger] out.groups_view()[k]),
    {
        proof {
            lemma_extraction(self@.receive_buffer);
            lemma_groups_fit(self@, message@);
        }
        if self.closed {
            return Outcome { reply: None, groups: Vec::new() };
        }
        match message {
            Message::Connect(_) => {
                self.has_connected = true;
                let reply = self.ack(0);
                Outcome { reply: Some(reply), groups: Vec::new() }
            },
            Message::Data { position, data, .. } => {
                self.handle_data(Ghost(message@), position, data.as_str().as_bytes())
            },
            Message::Ack { position, .. } => {
                if !self.has_connected || position > self.bytes_sent {
                    let reply = self.close();
                    Outcome { reply: Some(reply), groups: Vec::new() }
                } else {
                    if position > self.bytes_acked {
                        self.bytes_acked = position;
                    }
                    Outcome { reply: None, groups: Vec::new() }
                }
            },
            Message::Disconnect(_) => {
                let reply = self.close();
                Outcome { reply: Some(reply), groups: Vec::new() }
            },
        }
    }
}

} // verus!
