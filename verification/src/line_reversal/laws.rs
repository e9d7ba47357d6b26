//! What holds of a session over any sequence of messages.

use crate::text::is_ascii;
use super::lines::{complete_lines, first_newline, has_line, unfinished};
use super::lines::{lemma_first_newline, lemma_first_newline_at};
use super::message::MessageView;
use super::session::{answers_len, lemma_extraction, line_groups, SessionView};
use vstd::prelude::*;

verus! {

/// The session after the messages of `deliveries`, taken in order.
pub open spec fn run(s: SessionView, deliveries: Seq<MessageView>) -> SessionView
    decreases deliveries.len(),
{
    if deliveries.len() == 0 {
        s
    } else {
        run(s, deliveries.drop_last()).step(deliveries.last())
    }
}

/// The bytes that the session takes from `deliveries`, in the order in which
/// it takes them.
pub open spec fn taken(s: SessionView, deliveries: Seq<MessageView>) -> Seq<u8>
    decreases deliveries.len(),
{
    if deliveries.len() == 0 {
        Seq::empty()
    } else {
        taken(s, deliveries.drop_last()) + run(s, deliveries.drop_last()).fresh(deliveries.last())
    }
}

/// A data message that carries a part of `stream` at the offset of that part.
pub open spec fn fragment_of(stream: Seq<u8>, m: MessageView) -> bool {
    match m {
        MessageView::Data { position, data, .. } => position + data.len() <= stream.len() && data
            == stream.subrange(position as int, position + data.len()),
        _ => false,
    }
}

pub open spec fn fragments_of(stream: Seq<u8>, deliveries: Seq<MessageView>) -> bool {
    forall|i: int| 0 <= i < deliveries.len() ==> fragment_of(stream, #[trigger] deliveries[i])
}

/// The offset behind the payload of a data message.
pub open spec fn end_of(m: MessageView) -> nat {
    match m {
        MessageView::Data { position, data, .. } => position as nat + data.len(),
        _ => 0,
    }
}

pub open spec fn start_of(m: MessageView) -> nat {
    match m {
        MessageView::Data { position, .. } => position as nat,
        _ => 0,
    }
}

/// Each message of `cover` starts no later than the one before it ends.
pub open spec fn gapless(cover: Seq<MessageView>) -> bool {
    forall|i: int| 0 < i < cover.len() ==> start_of(#[trigger] cover[i]) <= end_of(cover[i - 1])
}

/// `part` can be had from `whole` by leaving messages out.
pub open spec fn subsequence(part: Seq<MessageView>, whole: Seq<MessageView>) -> bool
    decreases whole.len(),
{
    if part.len() == 0 {
        true
    } else if whole.len() == 0 {
        false
    } else {
        subsequence(part, whole.drop_last()) || (part.last() == whole.last() && subsequence(
            part.drop_last(),
            whole.drop_last(),
        ))
    }
}

/// A message leaves a session as it should be, and moves none of its three
/// counters backward.
pub proof fn lemma_step(s: SessionView, m: MessageView)
    requires
        s.wf(),
    ensures
        s.step(m).wf(),
        s.step(m).id == s.id,
        s.step(m).peer_address == s.peer_address,
        s.step(m).bytes_received == s.bytes_received + s.fresh(m).len(),
        s.step(m).bytes_sent >= s.bytes_sent,
        s.step(m).bytes_acked >= s.bytes_acked,
        s.closed ==> s.step(m).closed,
        s.connected ==> s.step(m).connected,
{
    let stream = s.receive_buffer + s.fresh(m);
    lemma_extraction(stream);
    if s.fresh(m).len() == 0 {
        assert(stream =~= s.receive_buffer);
    } else {
        match m {
            MessageView::Data { position, data, .. } => {
                assert forall|i: int| 0 <= i < stream.len() implies #[trigger] stream[i] < 0x80 by {
                    if i >= s.receive_buffer.len() {
                        assert(stream[i] == data[i - s.receive_buffer.len() + s.bytes_received
                            - position]);
                    }
                }
            },
            _ => {},
        }
    }
}

/// A closed session is final: whatever arrives, it stays as it is, replies
/// nothing and answers no line.
pub proof fn lemma_closed_is_final(s: SessionView, m: MessageView)
    requires
        s.wf(),
        s.closed,
    ensures
        s.step(m) == s,
        s.reply(m) is None,
        s.groups(m).len() == 0,
{
    lemma_extraction(s.receive_buffer);
}

/// Data that brings nothing new changes nothing and answers no line.
pub proof fn lemma_nothing_fresh(s: SessionView, m: MessageView)
    requires
        s.wf(),
        m is Data,
        s.fresh(m).len() == 0,
        !s.closed_by(m),
    ensures
        s.step(m) == s,
        s.groups(m).len() == 0,
{
    lemma_extraction(s.receive_buffer);
}

/// Data that is delivered a second time changes nothing: the session, and
/// with it `bytes_received` and the buffer, stays as the first delivery left
/// it, and no line is answered again.
pub proof fn lemma_redelivery(s: SessionView, m: MessageView)
    requires
        s.wf(),
        m is Data,
    ensures
        s.step(m).step(m) == s.step(m),
        s.step(m).groups(m).len() == 0,
{
    let once = s.step(m);
    lemma_step(s, m);
    if !once.closed && !s.closed_by(m) {
        lemma_nothing_fresh(once, m);
    }
}

/// Data or an acknowledgement before `connect`, and an acknowledgement of
/// more than was sent, end an open session: it is closed and otherwise as
/// it was, the reply is a `close`, and no line is answered. The payload and
/// the position of the data do not matter.
pub proof fn lemma_violation_closes(s: SessionView, m: MessageView)
    requires
        s.wf(),
        !s.closed,
        s.violated_by(m),
    ensures
        s.step(m) == (SessionView { closed: true, ..s }),
        s.reply(m) == Some(MessageView::Disconnect(s.id)),
        s.groups(m).len() == 0,
{
    lemma_extraction(s.receive_buffer);
    assert(s.receive_buffer + s.fresh(m) =~= s.receive_buffer);
}

/// Data that starts behind `bytes_received` leaves a gap: it is answered by
/// one acknowledgement of `bytes_received`, and nothing else happens,
/// whatever the data holds and wherever it ends.
pub proof fn lemma_gap(s: SessionView, m: MessageView)
    requires
        s.wf(),
        s.connected,
        !s.closed,
        m is Data,
        start_of(m) > s.bytes_received,
    ensures
        s.step(m) == s,
        s.reply(m) == Some(
            MessageView::Ack { session: s.id, position: s.bytes_received as u32 },
        ),
        s.groups(m).len() == 0,
{
    lemma_nothing_fresh(s, m);
}

/// Whatever the order in which parts of a stream arrive, and however often,
/// the session takes the stream itself: when `bytes_received` has moved from
/// `a` to `b`, what was taken is the stream from `a` to `b`.
pub proof fn lemma_reassembly(s: SessionView, stream: Seq<u8>, deliveries: Seq<MessageView>)
    requires
        s.wf(),
        s.connected,
        !s.closed,
        is_ascii(stream),
        stream.len() <= u32::MAX,
        s.bytes_received <= stream.len(),
        fragments_of(stream, deliveries),
    ensures
        run(s, deliveries).wf(),
        run(s, deliveries).connected,
        !run(s, deliveries).closed,
        s.bytes_received <= run(s, deliveries).bytes_received <= stream.len(),
        taken(s, deliveries) == stream.subrange(
            s.bytes_received as int,
            run(s, deliveries).bytes_received as int,
        ),
    decreases deliveries.len(),
{
    if deliveries.len() == 0 {
        assert(taken(s, deliveries) =~= stream.subrange(
            s.bytes_received as int,
            s.bytes_received as int,
        ));
    } else {
        let earlier = deliveries.drop_last();
        let m = deliveries.last();
        assert forall|i: int| 0 <= i < earlier.len() implies fragment_of(
            stream,
            #[trigger] earlier[i],
        ) by {
            assert(earlier[i] == deliveries[i]);
        }
        lemma_reassembly(s, stream, earlier);
        let before = run(s, earlier);
        lemma_step(before, m);
        assert(taken(s, deliveries) =~= stream.subrange(
            s.bytes_received as int,
            before.step(m).bytes_received as int,
        ));
    }
}

proof fn lemma_fragment_is_text(stream: Seq<u8>, m: MessageView)
    requires
        is_ascii(stream),
        stream.len() <= u32::MAX,
        fragment_of(stream, m),
    ensures
        !SessionView::unfit(m),
{
    match m {
        MessageView::Data { position, data, .. } => {
            assert forall|i: int| 0 <= i < data.len() implies #[trigger] data[i] < 0x80 by {
                assert(data[i] == stream[position + i]);
            }
        },
        _ => {},
    }
}

/// A part of the stream that starts at or before `bytes_received` moves
/// `bytes_received` to its end, unless it is there or further already.
pub proof fn lemma_progress(s: SessionView, stream: Seq<u8>, m: MessageView)
    requires
        s.wf(),
        s.connected,
        !s.closed,
        is_ascii(stream),
        stream.len() <= u32::MAX,
        fragment_of(stream, m),
        start_of(m) <= s.bytes_received,
    ensures
        s.step(m).bytes_received == if end_of(m) > s.bytes_received {
            end_of(m)
        } else {
            s.bytes_received
        },
{
    lemma_fragment_is_text(stream, m);
}

/// If the deliveries hold, in this order and with anything between them,
/// parts of the stream that begin at or before `bytes_received` and follow
/// each other without a gap, then `bytes_received` ends at or behind the end
/// of the last of them.
pub proof fn lemma_convergence(
    s: SessionView,
    stream: Seq<u8>,
    deliveries: Seq<MessageView>,
    cover: Seq<MessageView>,
)
    requires
        s.wf(),
        s.connected,
        !s.closed,
        is_ascii(stream),
        stream.len() <= u32::MAX,
        s.bytes_received <= stream.len(),
        fragments_of(stream, deliveries),
        subsequence(cover, deliveries),
        cover.len() > 0,
        gapless(cover),
        start_of(cover[0]) <= s.bytes_received,
    ensures
        end_of(cover.last()) <= run(s, deliveries).bytes_received <= stream.len(),
    decreases deliveries.len(),
{
    lemma_reassembly(s, stream, deliveries);
    if deliveries.len() > 0 {
        let earlier = deliveries.drop_last();
        assert forall|i: int| 0 <= i < earlier.len() implies fragment_of(
            stream,
            #[trigger] earlier[i],
        ) by {
            assert(earlier[i] == deliveries[i]);
        }
        if subsequence(cover, earlier) {
            lemma_convergence(s, stream, earlier, cover);
        } else {
            let shorter = cover.drop_last();
            if shorter.len() > 0 {
                assert forall|i: int| 0 < i < shorter.len() implies start_of(
                    #[trigger] shorter[i],
                ) <= end_of(shorter[i - 1]) by {
                    assert(shorter[i] == cover[i]);
                }
                lemma_convergence(s, stream, earlier, shorter);
            }
        }
    }
}

/// Parts that cover the whole stream from its start bring `bytes_received`
/// of a new session to the length of the stream, in whatever order and
/// however often they and other parts of the stream arrive, as long as the
/// deliveries hold the cover in its order.
pub proof fn lemma_delivery_completes(
    s: SessionView,
    stream: Seq<u8>,
    deliveries: Seq<MessageView>,
    cover: Seq<MessageView>,
)
    requires
        s.wf(),
        s.connected,
        !s.closed,
        s.bytes_received == 0,
        is_ascii(stream),
        stream.len() <= u32::MAX,
        fragments_of(stream, deliveries),
        subsequence(cover, deliveries),
        cover.len() > 0,
        gapless(cover),
        start_of(cover[0]) == 0,
        end_of(cover.last()) == stream.len(),
    ensures
        run(s, deliveries).bytes_received == stream.len(),
        taken(s, deliveries) == stream,
{
    lemma_convergence(s, stream, deliveries, cover);
    lemma_reassembly(s, stream, deliveries);
}

/// The groups that the session hands back for `deliveries`, in the order in
/// which it hands them back.
pub open spec fn answered(s: SessionView, deliveries: Seq<MessageView>) -> Seq<Seq<MessageView>>
    decreases deliveries.len(),
{
    if deliveries.len() == 0 {
        Seq::empty()
    } else {
        answered(s, deliveries.drop_last()) + run(s, deliveries.drop_last()).groups(
            deliveries.last(),
        )
    }
}

/// The lines of a stream that grows are the lines that it had, and then the
/// lines of what it had left with what was added.
pub proof fn lemma_lines_of_longer_stream(x: Seq<u8>, y: Seq<u8>)
    ensures
        complete_lines(x + y) == complete_lines(x) + complete_lines(unfinished(x) + y),
        unfinished(x + y) == unfinished(unfinished(x) + y),
    decreases x.len(),
{
    if has_line(x) {
        let k = first_newline(x);
        lemma_first_newline(x);
        assert forall|j: int| 0 <= j < k implies (x + y)[j] != super::lines::NEWLINE by {
            assert((x + y)[j] == x[j]);
        }
        lemma_first_newline_at(x + y, k);
        assert((x + y).take(k + 1) =~= x.take(k + 1));
        assert((x + y).skip(k + 1) =~= x.skip(k + 1) + y);
        lemma_lines_of_longer_stream(x.skip(k + 1), y);
    } else {
        assert(Seq::<Seq<u8>>::empty() + complete_lines(x + y) =~= complete_lines(x + y));
    }
}

/// The answers to two runs of lines are the answers to the first and then
/// the answers to the second, which start where those to the first end.
pub proof fn lemma_groups_of_more_lines(
    id: super::message::SessionId,
    start: nat,
    a: Seq<Seq<u8>>,
    b: Seq<Seq<u8>>,
)
    ensures
        answers_len(a + b) == answers_len(a) + answers_len(b),
        line_groups(id, start, a + b) == line_groups(id, start, a) + line_groups(
            id,
            start + answers_len(a),
            b,
        ),
    decreases a.len(),
{
    if a.len() == 0 {
        assert(Seq::<Seq<MessageView>>::empty() + line_groups(id, start, b) =~= line_groups(
            id,
            start,
            b,
        ));
    } else {
        let first = super::lines::reversed_line(a[0]);
        assert((a + b).skip(1) =~= a.skip(1) + b);
        lemma_groups_of_more_lines(id, start + first.len(), a.skip(1), b);
    }
}

/// Every line is answered once, whatever the order in which its bytes
/// arrive and however often: what the session has handed back after any
/// deliveries are the answers to the complete lines of what it has taken,
/// in their order, and what it holds is what follows the last of them.
pub proof fn lemma_lines_answered_once(s: SessionView, deliveries: Seq<MessageView>)
    requires
        s.wf(),
    ensures
        run(s, deliveries).wf(),
        run(s, deliveries).id == s.id,
        run(s, deliveries).receive_buffer == unfinished(s.receive_buffer + taken(s, deliveries)),
        run(s, deliveries).bytes_sent == s.bytes_sent + answers_len(
            complete_lines(s.receive_buffer + taken(s, deliveries)),
        ),
        answered(s, deliveries) == line_groups(
            s.id,
            s.bytes_sent,
            complete_lines(s.receive_buffer + taken(s, deliveries)),
        ),
    decreases deliveries.len(),
{
    if deliveries.len() == 0 {
        assert(s.receive_buffer + taken(s, deliveries) =~= s.receive_buffer);
    } else {
        let earlier = deliveries.drop_last();
        let m = deliveries.last();
        lemma_lines_answered_once(s, earlier);
        let before = run(s, earlier);
        let fresh = before.fresh(m);
        let had = s.receive_buffer + taken(s, earlier);
        let has = s.receive_buffer + taken(s, deliveries);
        assert(has =~= had + fresh);
        lemma_step(before, m);
        lemma_lines_of_longer_stream(had, fresh);
        lemma_groups_of_more_lines(
            s.id,
            s.bytes_sent,
            complete_lines(had),
            complete_lines(before.receive_buffer + fresh),
        );
        if fresh.len() == 0 {
            assert(before.receive_buffer + fresh =~= before.receive_buffer);
        }
    }
}

} // verus!
