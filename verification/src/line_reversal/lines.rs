//! Lines of the reassembled stream: cutting them out, reversing them, and
//! cutting a reversed line into payloads that fit a datagram.

use crate::strings::ascii_string;
use crate::text::{find_byte, first_of, is_ascii, lemma_first_of, lemma_first_of_at};
use super::escape::{escaped_size, escapes, BACKSLASH, SLASH};
use super::message::{encoded, Message, MessageView, SessionId};
use super::wire::lemma_data_datagram_len;
use vstd::prelude::*;
use vstd::slice::slice_subrange;

verus! {

pub const NEWLINE: u8 = 0x0a;

/// The most bytes that a datagram may have.
pub const DATAGRAM_CEILING: usize = 1000;

/// The most bytes that the payload of one data message takes on the wire,
/// escapes included. With the at most 29 bytes of the other fields and the
/// `/` around them, the datagram stays within [`DATAGRAM_CEILING`].
pub const CHUNK_SIZE: usize = 970;

/// ASCII white space: space, tab, line feed, vertical tab, form feed,
/// carriage return.
pub open spec fn is_space(b: u8) -> bool {
    b == 0x20 || (0x09 <= b && b <= 0x0d)
}

/// The index of the first line feed of `s`, or the length of `s` if it has none.
pub open spec fn first_newline(s: Seq<u8>) -> int {
    first_of(s, NEWLINE)
}

/// Whether `s` holds a line feed, and so a complete line.
pub open spec fn has_line(s: Seq<u8>) -> bool {
    0 <= first_newline(s) < s.len()
}

/// The complete lines of `s` in order, each with its line feed.
pub open spec fn complete_lines(s: Seq<u8>) -> Seq<Seq<u8>>
    decreases s.len(),
{
    if has_line(s) {
        seq![s.take(first_newline(s) + 1)] + complete_lines(s.skip(first_newline(s) + 1))
    } else {
        Seq::empty()
    }
}

/// What follows the last line feed of `s`: the line that is not complete yet.
pub open spec fn unfinished(s: Seq<u8>) -> Seq<u8>
    decreases s.len(),
{
    if has_line(s) {
        unfinished(s.skip(first_newline(s) + 1))
    } else {
        s
    }
}

/// `s` without the white space at its end.
pub open spec fn trim_end(s: Seq<u8>) -> Seq<u8>
    decreases s.len(),
{
    if s.len() > 0 && is_space(s.last()) {
        trim_end(s.drop_last())
    } else {
        s
    }
}

/// The answer to a line: the line without the white space at its end, back
/// to front, and a line feed.
pub open spec fn reversed_line(line: Seq<u8>) -> Seq<u8> {
    trim_end(line).reverse().push(NEWLINE)
}

/// The length of the longest start of `line` that takes at most `room`
/// bytes on the wire.
pub open spec fn fitting(line: Seq<u8>, room: nat) -> nat
    decreases line.len(),
{
    if line.len() == 0 || escaped_size(line[0]) > room {
        0
    } else {
        1 + fitting(line.skip(1), (room - escaped_size(line[0])) as nat)
    }
}

/// How many bytes of `line` the next message carries: as many as take at
/// most [`CHUNK_SIZE`] bytes on the wire.
pub open spec fn chunk_len(line: Seq<u8>) -> int {
    fitting(line, CHUNK_SIZE as nat) as int
}

/// The longest start that fits is a start of the line, it fits, and it is
/// the longest: the byte behind it, if there is one, does not fit any more.
/// It holds a byte if the line does and there is room for one.
pub proof fn lemma_fitting(line: Seq<u8>, room: nat)
    ensures
        fitting(line, room) <= line.len(),
        fitting(line, room) + escapes(line.take(fitting(line, room) as int)) <= room,
        fitting(line, room) < line.len() ==> fitting(line, room) + escapes(
            line.take(fitting(line, room) as int),
        ) + escaped_size(line[fitting(line, room) as int]) > room,
        line.len() > 0 && room >= 2 ==> fitting(line, room) >= 1,
    decreases line.len(),
{
    let n = fitting(line, room) as int;
    if line.len() == 0 || escaped_size(line[0]) > room {
        assert(line.take(0) =~= Seq::<u8>::empty());
    } else {
        let rest = line.skip(1);
        let left = (room - escaped_size(line[0])) as nat;
        lemma_fitting(rest, left);
        assert(line.take(n).skip(1) =~= rest.take(n - 1));
        if n < line.len() {
            assert(line[n] == rest[n - 1]);
        }
    }
}

/// The data messages that carry `line` from stream offset `start` on. Each
/// carries as much of what is left of the line as takes at most
/// [`CHUNK_SIZE`] bytes on the wire, and starts where the one before it ends.
pub open spec fn chunks(session: SessionId, start: nat, line: Seq<u8>) -> Seq<MessageView>
    decreases line.len(),
    via chunks_decreases
{
    if line.len() == 0 {
        Seq::empty()
    } else {
        seq![
            MessageView::Data {
                session,
                position: start as u32,
                data: line.take(chunk_len(line)),
            },
        ] + chunks(session, (start + chunk_len(line)) as nat, line.skip(chunk_len(line)))
    }
}

#[via_fn]
proof fn chunks_decreases(session: SessionId, start: nat, line: Seq<u8>) {
    lemma_fitting(line, CHUNK_SIZE as nat);
}

/// The offset at which the payload of a data message starts.
pub open spec fn offset_of(m: MessageView) -> nat {
    match m {
        MessageView::Data { position, .. } => position as nat,
        _ => 0,
    }
}

/// The payload of a data message.
pub open spec fn payload_of(m: MessageView) -> Seq<u8> {
    match m {
        MessageView::Data { data, .. } => data,
        _ => Seq::empty(),
    }
}

/// The payloads of the messages, one behind the other.
pub open spec fn payloads(messages: Seq<MessageView>) -> Seq<u8>
    decreases messages.len(),
{
    if messages.len() == 0 {
        Seq::empty()
    } else {
        payload_of(messages[0]) + payloads(messages.skip(1))
    }
}

/// A data message of `session` whose payload is not empty and takes at most
/// [`CHUNK_SIZE`] bytes on the wire.
pub open spec fn is_chunk(m: MessageView, session: SessionId) -> bool {
    match m {
        MessageView::Data { session: of, data, .. } => of == session && 1 <= data.len()
            && data.len() + escapes(data) <= CHUNK_SIZE,
        _ => false,
    }
}

/// Whether every message of the group makes a datagram of at most
/// [`DATAGRAM_CEILING`] bytes.
pub open spec fn all_fit(group: Seq<MessageView>) -> bool {
    forall|i: int| 0 <= i < group.len() ==> encoded(#[trigger] group[i]).len() <= DATAGRAM_CEILING
}

/// A chunk makes a datagram of at most [`DATAGRAM_CEILING`] bytes.
pub proof fn lemma_chunk_fits(m: MessageView, session: SessionId)
    requires
        is_chunk(m, session),
    ensures
        encoded(m).len() <= DATAGRAM_CEILING,
{
    match m {
        MessageView::Data { session, position, data } => {
            lemma_data_datagram_len(session, position, data);
        },
        _ => {},
    }
}

/// The messages that carry a line are chunks, whatever the line holds: each
/// has a payload that is not empty, and makes a datagram of at most
/// [`DATAGRAM_CEILING`] bytes with its escapes. Their payloads, one behind
/// the other, are the line.
pub proof fn lemma_chunks(session: SessionId, start: nat, line: Seq<u8>)
    ensures
        forall|i: int|
            0 <= i < chunks(session, start, line).len() ==> is_chunk(
                #[trigger] chunks(session, start, line)[i],
                session,
            ),
        all_fit(chunks(session, start, line)),
        payloads(chunks(session, start, line)) == line,
    decreases line.len(),
{
    let all = chunks(session, start, line);
    if line.len() > 0 {
        let n = chunk_len(line);
        let rest = line.skip(n);
        let later = chunks(session, (start + n) as nat, rest);
        lemma_fitting(line, CHUNK_SIZE as nat);
        lemma_chunks(session, (start + n) as nat, rest);
        assert(all.skip(1) =~= later);
        assert(line.take(n) + rest =~= line);
        assert forall|i: int| 0 <= i < all.len() implies is_chunk(#[trigger] all[i], session)
            && encoded(all[i]).len() <= DATAGRAM_CEILING by {
            if i > 0 {
                assert(all[i] == later[i - 1]);
            }
            lemma_chunk_fits(all[i], session);
        }
    } else {
        assert(payloads(all) =~= line);
    }
}

/// The messages that carry a line stand one behind the other in the stream:
/// the first starts at `start`, and each of the others where the one before
/// it ends. Each but the last is as long as fits: the first byte of the
/// next would take it over [`CHUNK_SIZE`] bytes on the wire.
pub proof fn lemma_chunks_in_a_row(session: SessionId, start: nat, line: Seq<u8>)
    requires
        start + line.len() <= u32::MAX,
    ensures
        line.len() > 0 ==> chunks(session, start, line).len() > 0 && offset_of(
            chunks(session, start, line)[0],
        ) == start,
        forall|i: int|
            0 <= i && i + 1 < chunks(session, start, line).len() ==> {
                let m = #[trigger] chunks(session, start, line)[i];
                let next = chunks(session, start, line)[i + 1];
                &&& offset_of(next) == offset_of(m) + payload_of(m).len()
                &&& payload_of(m).len() + escapes(payload_of(m)) + escaped_size(
                    payload_of(next)[0],
                ) > CHUNK_SIZE
            },
    decreases line.len(),
{
    let all = chunks(session, start, line);
    if line.len() > 0 {
        let n = chunk_len(line);
        let rest = line.skip(n);
        let later = chunks(session, (start + n) as nat, rest);
        lemma_fitting(line, CHUNK_SIZE as nat);
        lemma_fitting(rest, CHUNK_SIZE as nat);
        lemma_chunks_in_a_row(session, (start + n) as nat, rest);
        assert forall|i: int| 0 <= i && i + 1 < all.len() implies {
            let m = #[trigger] all[i];
            let next = all[i + 1];
            &&& offset_of(next) == offset_of(m) + payload_of(m).len()
            &&& payload_of(m).len() + escapes(payload_of(m)) + escaped_size(payload_of(next)[0])
                > CHUNK_SIZE
        } by {
            assert(all[i + 1] == later[i]);
            if i > 0 {
                assert(all[i] == later[i - 1]);
            } else {
                assert(payload_of(later[0])[0] == line[n]);
            }
        }
    }
}

/// The messages of a group as mathematical values.
pub open spec fn messages_view(messages: Seq<Message>) -> Seq<MessageView> {
    messages.map_values(|m: Message| m@)
}

pub proof fn lemma_first_newline(s: Seq<u8>)
    ensures
        0 <= first_newline(s) <= s.len(),
        forall|j: int| 0 <= j < first_newline(s) ==> s[j] != NEWLINE,
        first_newline(s) < s.len() ==> s[first_newline(s)] == NEWLINE,
{
    lemma_first_of(s, NEWLINE);
}

pub proof fn lemma_first_newline_at(s: Seq<u8>, k: int)
    requires
        0 <= k <= s.len(),
        forall|j: int| 0 <= j < k ==> s[j] != NEWLINE,
        k < s.len() ==> s[k] == NEWLINE,
    ensures
        first_newline(s) == k,
{
    lemma_first_of_at(s, NEWLINE, k);
}

/// Trimming shortens, keeps a prefix, and leaves no white space at the end.
pub proof fn lemma_trim_end(s: Seq<u8>)
    ensures
        trim_end(s).len() <= s.len(),
        trim_end(s) == s.take(trim_end(s).len() as int),
        trim_end(s).len() > 0 ==> !is_space(trim_end(s).last()),
        s.len() > 0 && is_space(s.last()) ==> trim_end(s).len() < s.len(),
    decreases s.len(),
{
    if s.len() > 0 && is_space(s.last()) {
        let shorter = s.drop_last();
        lemma_trim_end(shorter);
        assert(shorter.take(trim_end(shorter).len() as int) =~= s.take(
            trim_end(shorter).len() as int,
        ));
    } else {
        assert(s.take(s.len() as int) =~= s);
    }
}

/// The answer to a complete line is no longer than the line, and ASCII if
/// the line is.
pub proof fn lemma_reversed_line(line: Seq<u8>)
    requires
        line.len() > 0,
        line.last() == NEWLINE,
    ensures
        1 <= reversed_line(line).len() <= line.len(),
        is_ascii(line) ==> is_ascii(reversed_line(line)),
{
    lemma_trim_end(line);
    let t = trim_end(line);
    let r = reversed_line(line);
    if is_ascii(line) {
        assert forall|i: int| 0 <= i < r.len() implies #[trigger] r[i] < 0x80 by {
            if i < t.len() {
                assert(r[i] == t.reverse()[i]);
            }
        }
    }
}

/// The index of the first line feed of `s` at or behind `from`, or the
/// length of `s`.
pub fn find_newline(s: &[u8], from: usize) -> (k: usize)
    requires
        from <= s.len(),
    ensures
        from <= k <= s.len(),
        k - from == first_newline(s@.skip(from as int)),
{
    find_byte(s, from, NEWLINE)
}

/// The answer to `line`.
pub fn reverse_line(line: &[u8]) -> (out: Vec<u8>)
    ensures
        out@ == reversed_line(line@),
{
    let mut end: usize = line.len();
    proof {
        assert(line@.take(line.len() as int) =~= line@);
    }
    while end > 0 && (line[end - 1] == 0x20 || (0x09 <= line[end - 1] && line[end - 1] <= 0x0d))
        invariant
            end <= line.len(),
            trim_end(line@.take(end as int)) == trim_end(line@),
        decreases end,
    {
        proof {
            assert(line@.take(end as int).drop_last() =~= line@.take(end - 1));
        }
        end -= 1;
    }
    proof {
        assert(trim_end(line@) == line@.take(end as int));
    }
    let ghost kept = line@.take(end as int);
    let mut out: Vec<u8> = Vec::new();
    let mut i: usize = end;
    while i > 0
        invariant
            i <= end <= line.len(),
            kept == line@.take(end as int),
            out@.len() == end - i,
            forall|j: int| 0 <= j < out@.len() ==> out@[j] == kept[end - 1 - j],
        decreases i,
    {
        i -= 1;
        out.push(line[i]);
    }
    proof {
        assert(out@ =~= kept.reverse());
    }
    out.push(NEWLINE);
    out
}

/// How many bytes a byte of a payload takes on the wire.
fn wire_size(b: u8) -> (size: usize)
    ensures
        size == escaped_size(b),
{
    if b == SLASH || b == BACKSLASH {
        2
    } else {
        1
    }
}

/// How many bytes of `line` from `from` on the next message carries.
fn next_chunk_len(line: &[u8], from: usize) -> (n: usize)
    requires
        from <= line.len(),
    ensures
        n == chunk_len(line@.skip(from as int)),
        from + n <= line.len(),
        from < line.len() ==> n >= 1,
{
    let mut n: usize = 0;
    let mut room: usize = CHUNK_SIZE;
    let ghost rest = line@.skip(from as int);
    proof {
        assert(rest.skip(0) =~= rest);
    }
    while from + n < line.len() && wire_size(line[from + n]) <= room
        invariant
            from + n <= line.len(),
            room <= CHUNK_SIZE,
            rest == line@.skip(from as int),
            n + fitting(rest.skip(n as int), room as nat) == fitting(rest, CHUNK_SIZE as nat),
        decreases line.len() - n,
    {
        proof {
            assert(rest.skip(n as int)[0] == line@[from + n]);
            assert(rest.skip(n as int).skip(1) =~= rest.skip(n + 1));
        }
        room -= wire_size(line[from + n]);
        n += 1;
    }
    proof {
        if from + n < line.len() {
            assert(rest.skip(n as int)[0] == line@[from + n]);
        }
        lemma_fitting(rest, CHUNK_SIZE as nat);
    }
    n
}

/// Cuts `line` into the data messages that carry it from stream offset
/// `start` on. None of them makes a datagram of more than
/// [`DATAGRAM_CEILING`] bytes.
pub fn chunk_messages(session: SessionId, start: u32, line: &[u8]) -> (messages: Vec<Message>)
    requires
        is_ascii(line@),
        start + line.len() <= u32::MAX,
    ensures
        messages_view(messages@) == chunks(session, start as nat, line@),
        all_fit(messages_view(messages@)),
{
    let mut messages: Vec<Message> = Vec::new();
    let mut done: usize = 0;
    proof {
        assert(line@.skip(0) =~= line@);
        assert(Seq::<MessageView>::empty() + chunks(session, start as nat, line@) =~= chunks(
            session,
            start as nat,
            line@,
        ));
    }
    while done < line.len()
        invariant
            done <= line.len(),
            is_ascii(line@),
            start + line.len() <= u32::MAX,
            messages_view(messages@) + chunks(
                session,
                (start + done) as nat,
                line@.skip(done as int),
            ) == chunks(session, start as nat, line@),
        decreases line.len() - done,
    {
        let take: usize = next_chunk_len(line, done);
        let piece = slice_subrange(line, done, done + take);
        let ghost rest = line@.skip(done as int);
        let ghost before = messages_view(messages@);
        let mut bytes: Vec<u8> = Vec::new();
        bytes.extend_from_slice(piece);
        proof {
            assert(bytes@ =~= rest.take(chunk_len(rest)));
            assert forall|i: int| 0 <= i < bytes@.len() implies #[trigger] bytes@[i] < 0x80 by {
                assert(bytes@[i] == line@[done + i]);
            }
        }
        let data = ascii_string(bytes);
        let position: u32 = start + done as u32;
        let message = Message::Data { session, position, data };
        let ghost piece_view = message@;
        messages.push(message);
        proof {
            assert(rest.skip(chunk_len(rest)) =~= line@.skip(done + take));
            assert((before + seq![piece_view]) + chunks(
                session,
                (start + done + take) as nat,
                rest.skip(chunk_len(rest)),
            ) =~= before + (seq![piece_view] + chunks(
                session,
                (start + done + take) as nat,
                rest.skip(chunk_len(rest)),
            )));
        }
        done += take;
    }
    proof {
        assert(messages_view(messages@) + Seq::<MessageView>::empty() =~= messages_view(
            messages@,
        ));
        lemma_chunks(session, start as nat, line@);
    }
    messages
}

} // verus!
