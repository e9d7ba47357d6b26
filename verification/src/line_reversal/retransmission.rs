//! Delivery of one answer until the peer has acknowledged it.
//!
//! The data messages of one reversed line form a group. Whoever drives a
//! group keeps a [`Schedule`] for it, sleeps until the next tick of the
//! schedule and asks [`ChunkGroup::on_tick`] what to do then: on a tick of
//! the short timer the messages that the peer has not acknowledged are sent
//! again, on a tick of the long one the session is given up if the last
//! message of the group is still among them.

use super::lines::{all_fit, messages_view, DATAGRAM_CEILING};
use super::message::{encoded, Message, MessageView};
use vstd::prelude::*;

verus! {

/// Seconds between two retransmissions of a group.
pub const RETRANSMISSION_INTERVAL_SECS: u64 = 3;

/// Seconds after which a group that is not acknowledged ends its session.
pub const SESSION_EXPIRY_SECS: u64 = 20;

/// The data messages that carry one reversed line, in stream order.
#[derive(Debug, PartialEq, Eq)]
pub struct ChunkGroup {
    pub messages: Vec<Message>,
}

impl View for ChunkGroup {
    type V = Seq<MessageView>;

    open spec fn view(&self) -> Seq<MessageView> {
        messages_view(self.messages@)
    }
}

/// The timer of a group that fired.
#[derive(Debug, Clone, Copy, PartialEq, Eq, Structural)]
pub enum Tick {
    Retransmit,
    Expiry,
}

/// What the driver of a group does after a tick.
#[derive(Debug, PartialEq, Eq)]
pub enum Decision {
    /// The group is done, or its session is closed: send nothing, and end.
    Stop,
    /// Nothing to do now: wait for the next tick.
    Wait,
    /// Send these datagrams to the peer, and wait for the next tick.
    Resend(Vec<Vec<u8>>),
    /// The peer is given up: expire the session, and end.
    Expire,
}

pub ghost enum DecisionView {
    Stop,
    Wait,
    Resend(Seq<Seq<u8>>),
    Expire,
}

impl View for Decision {
    type V = DecisionView;

    open spec fn view(&self) -> DecisionView {
        match *self {
            Decision::Stop => DecisionView::Stop,
            Decision::Wait => DecisionView::Wait,
            Decision::Resend(datagrams) => DecisionView::Resend(
                datagrams@.map_values(|d: Vec<u8>| d@),
            ),
            Decision::Expire => DecisionView::Expire,
        }
    }
}

/// A message counts as acknowledged once the peer has confirmed an offset
/// behind the one at which it starts.
pub open spec fn unacknowledged(m: MessageView, bytes_acked: nat) -> bool {
    match m {
        MessageView::Data { position, .. } => bytes_acked <= position,
        _ => false,
    }
}

/// The datagrams of the messages of `group` that are not acknowledged, in
/// the order of the group.
pub open spec fn pending(group: Seq<MessageView>, bytes_acked: nat) -> Seq<Seq<u8>>
    decreases group.len(),
{
    if group.len() == 0 {
        Seq::empty()
    } else if unacknowledged(group[0], bytes_acked) {
        seq![encoded(group[0])] + pending(group.skip(1), bytes_acked)
    } else {
        pending(group.skip(1), bytes_acked)
    }
}

/// What a tick asks for. A closed session stops its groups whatever the
/// tick. On expiry only the last message of the group is looked at.
pub open spec fn decision(
    group: Seq<MessageView>,
    closed: bool,
    bytes_acked: nat,
    tick: Tick,
) -> DecisionView {
    if closed {
        DecisionView::Stop
    } else {
        match tick {
            Tick::Expiry => if group.len() > 0 && unacknowledged(group.last(), bytes_acked) {
                DecisionView::Expire
            } else {
                DecisionView::Wait
            },
            Tick::Retransmit => if pending(group, bytes_acked).len() == 0 {
                DecisionView::Stop
            } else {
                DecisionView::Resend(pending(group, bytes_acked))
            },
        }
    }
}

/// Nothing is pending exactly when every message is acknowledged.
pub proof fn lemma_pending_empty(group: Seq<MessageView>, bytes_acked: nat)
    ensures
        pending(group, bytes_acked).len() == 0 <==> forall|i: int|
            0 <= i < group.len() ==> !unacknowledged(#[trigger] group[i], bytes_acked),
    decreases group.len(),
{
    if group.len() > 0 {
        let rest = group.skip(1);
        lemma_pending_empty(rest, bytes_acked);
        if pending(group, bytes_acked).len() == 0 {
            assert forall|i: int| 0 <= i < group.len() implies !unacknowledged(
                #[trigger] group[i],
                bytes_acked,
            ) by {
                if i > 0 {
                    assert(rest[i - 1] == group[i]);
                }
            }
        } else if !unacknowledged(group[0], bytes_acked) {
            let i = choose|i: int|
                0 <= i < rest.len() && unacknowledged(#[trigger] rest[i], bytes_acked);
            assert(group[i + 1] == rest[i]);
        }
    }
}

/// What is sent again for a group whose messages fit a datagram fits a
/// datagram.
pub proof fn lemma_pending_fit(group: Seq<MessageView>, bytes_acked: nat)
    requires
        all_fit(group),
    ensures
        forall|i: int|
            0 <= i < pending(group, bytes_acked).len() ==> (#[trigger] pending(
                group,
                bytes_acked,
            )[i]).len() <= DATAGRAM_CEILING,
    decreases group.len(),
{
    if group.len() > 0 {
        let rest = group.skip(1);
        assert forall|i: int| 0 <= i < rest.len() implies encoded(#[trigger] rest[i]).len()
            <= DATAGRAM_CEILING by {
            assert(rest[i] == group[i + 1]);
        }
        lemma_pending_fit(rest, bytes_acked);
        let all = pending(group, bytes_acked);
        assert forall|i: int| 0 <= i < all.len() implies (#[trigger] all[i]).len()
            <= DATAGRAM_CEILING by {
            let later = pending(rest, bytes_acked);
            if unacknowledged(group[0], bytes_acked) {
                assert(all == seq![encoded(group[0])] + later);
                if i == 0 {
                    assert(all[0] == encoded(group[0]));
                    assert(encoded(group[0]).len() <= DATAGRAM_CEILING);
                } else {
                    assert(all[i] == later[i - 1]);
                    assert(later[i - 1].len() <= DATAGRAM_CEILING);
                }
            } else {
                assert(all == later);
                assert(later[i].len() <= DATAGRAM_CEILING);
            }
        }
    }
}

fn is_unacknowledged(message: &Message, bytes_acked: u32) -> (unacked: bool)
    ensures
        unacked == unacknowledged(message@, bytes_acked as nat),
{
    match message {
        Message::Data { position, .. } => bytes_acked <= *position,
        _ => false,
    }
}

impl ChunkGroup {
    /// The datagrams of the messages that the peer has not acknowledged.
    pub fn pending_datagrams(&self, bytes_acked: u32) -> (datagrams: Vec<Vec<u8>>)
        ensures
            datagrams@.map_values(|d: Vec<u8>| d@) == pending(self@, bytes_acked as nat),
    {
        let mut datagrams: Vec<Vec<u8>> = Vec::new();
        let mut i: usize = 0;
        let ghost acked = bytes_acked as nat;
        proof {
            assert(self@.skip(0) =~= self@);
        }
        while i < self.messages.len()
            invariant
                i <= self.messages.len(),
                acked == bytes_acked as nat,
                datagrams@.map_values(|d: Vec<u8>| d@) + pending(self@.skip(i as int), acked)
                    == pending(self@, acked),
            decreases self.messages.len() - i,
        {
            let ghost rest = self@.skip(i as int);
            let ghost before = datagrams@.map_values(|d: Vec<u8>| d@);
            proof {
                assert(rest.skip(1) =~= self@.skip(i + 1));
            }
            if is_unacknowledged(&self.messages[i], bytes_acked) {
                let datagram = self.messages[i].to_vec();
                datagrams.push(datagram);
                proof {
                    assert(datagrams@.map_values(|d: Vec<u8>| d@) =~= before + seq![
                        encoded(rest[0]),
                    ]);
                    assert((before + seq![encoded(rest[0])]) + pending(rest.skip(1), acked)
                        =~= before + (seq![encoded(rest[0])] + pending(rest.skip(1), acked)));
                }
            }
            i += 1;
        }
        proof {
            assert(datagrams@.map_values(|d: Vec<u8>| d@) + Seq::<Seq<u8>>::empty()
                =~= datagrams@.map_values(|d: Vec<u8>| d@));
        }
        datagrams
    }

    /// What to do for this group after `tick`, given whether its session is
    /// closed and how far the peer has acknowledged the outbound stream.
    pub fn on_tick(&self, closed: bool, bytes_acked: u32, tick: Tick) -> (action: Decision)
        ensures
            action@ == decision(self@, closed, bytes_acked as nat, tick),
    {
        if closed {
            return Decision::Stop;
        }
        match tick {
            Tick::Expiry => {
                let n = self.messages.len();
                if n > 0 && is_unacknowledged(&self.messages[n - 1], bytes_acked) {
                    Decision::Expire
                } else {
                    Decision::Wait
                }
            },
            Tick::Retransmit => {
                let datagrams = self.pending_datagrams(bytes_acked);
                if datagrams.len() == 0 {
                    Decision::Stop
                } else {
                    Decision::Resend(datagrams)
                }
            },
        }
    }
}

/// The two timers of a group, in seconds since the group was made. The short
/// one fires at once and then every [`RETRANSMISSION_INTERVAL_SECS`], the
/// long one every [`SESSION_EXPIRY_SECS`], for the first time after one such
/// span.
#[derive(Debug, Clone, Copy, PartialEq, Eq, Structural)]
pub struct Schedule {
    pub next_retransmission: u64,
    pub next_expiry: u64,
}

/// The time of the tick that follows one at `time` on a timer that fires
/// every `interval`. Times end at the largest that 64 bits hold.
pub open spec fn later(time: u64, interval: u64) -> u64 {
    if time + interval <= u64::MAX {
        (time + interval) as u64
    } else {
        u64::MAX
    }
}

impl Schedule {
    /// The tick that fires next. Where both timers fire at the same time,
    /// the long one goes first.
    pub open spec fn due(self) -> (u64, Tick) {
        if self.next_expiry <= self.next_retransmission {
            (self.next_expiry, Tick::Expiry)
        } else {
            (self.next_retransmission, Tick::Retransmit)
        }
    }

    /// The schedule after its next tick.
    pub open spec fn advanced(self) -> Schedule {
        if self.next_expiry <= self.next_retransmission {
            Schedule { next_expiry: later(self.next_expiry, SESSION_EXPIRY_SECS), ..self }
        } else {
            Schedule {
                next_retransmission: later(self.next_retransmission, RETRANSMISSION_INTERVAL_SECS),
                ..self
            }
        }
    }

    /// The schedule of a group that was made just now.
    pub fn new() -> (schedule: Self)
        ensures
            schedule == (Schedule { next_retransmission: 0, next_expiry: SESSION_EXPIRY_SECS }),
    {
        Schedule { next_retransmission: 0, next_expiry: SESSION_EXPIRY_SECS }
    }

    /// Takes the next tick off the schedule. The result is the time at which
    /// it fires, in seconds since the group was made, and the timer.
    pub fn next_tick(&mut self) -> (tick: (u64, Tick))
        ensures
            tick == old(self).due(),
            *final(self) == old(self).advanced(),
    {
        if self.next_expiry <= self.next_retransmission {
            let at = self.next_expiry;
            self.next_expiry = if at <= u64::MAX - SESSION_EXPIRY_SECS {
                at + SESSION_EXPIRY_SECS
            } else {
                u64::MAX
            };
            (at, Tick::Expiry)
        } else {
            let at = self.next_retransmission;
            self.next_retransmission = if at <= u64::MAX - RETRANSMISSION_INTERVAL_SECS {
                at + RETRANSMISSION_INTERVAL_SECS
            } else {
                u64::MAX
            };
            (at, Tick::Retransmit)
        }
    }
}

} // verus!
