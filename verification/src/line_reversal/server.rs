//! The sessions of one socket, and the way of a datagram to its session.
//!
//! The server does no input or output either. Its driver hands it each
//! datagram with the address it came from and sends what comes back; it
//! keeps two timers for each group that comes back and asks
//! [`Server::on_tick`] when one fires. Where that returns
//! [`Decision::Expire`], the driver calls [`Server::expire`].

use std::collections::HashMap;
use super::lines::all_fit;
use super::message::{decoded, Message, MessageView, SessionId};
use super::retransmission::{decision, ChunkGroup, Tick, Decision, DecisionView};
use super::session::{PeerAddress, Session, SessionView};
use vstd::prelude::*;

verus! {

broadcast use vstd::std_specs::hash::group_hash_axioms;

pub struct Server {
    sessions: HashMap<SessionId, Session>,
}

/// What is to be sent for one datagram or one expiry.
#[derive(Debug, PartialEq, Eq)]
pub struct Delivery {
    /// The session that the datagram belongs to.
    pub session: SessionId,
    /// Where to send the reply and the groups.
    pub to: PeerAddress,
    /// The message to send at once, if any.
    pub reply: Option<Message>,
    /// The groups to send after it and to keep up until acknowledged.
    pub groups: Vec<ChunkGroup>,
}

impl Delivery {
    pub open spec fn reply_view(&self) -> Option<MessageView> {
        match self.reply {
            Some(message) => Some(message@),
            None => None,
        }
    }

    pub open spec fn groups_view(&self) -> Seq<Seq<MessageView>> {
        self.groups@.map_values(|g: ChunkGroup| g@)
    }
}

/// The session that takes a message of `sender` for session `id`: the one
/// that is registered under `id`, or else a new one, bound to `sender`.
pub open spec fn session_for(
    sessions: Map<SessionId, SessionView>,
    id: SessionId,
    sender: PeerAddress,
) -> SessionView {
    if sessions.contains_key(id) {
        sessions[id]
    } else {
        SessionView::initial(id, sender)
    }
}

impl View for Server {
    type V = Map<SessionId, SessionView>;

    closed spec fn view(&self) -> Map<SessionId, SessionView> {
        self.sessions@.map_values(|s: Session| s@)
    }
}

impl Server {
    /// Every session is registered under its own id and is as a session
    /// should be.
    pub closed spec fn wf(&self) -> bool {
        forall|id: SessionId| #[trigger]
            self.sessions@.contains_key(id) ==> self.sessions@[id].wf() && self.sessions@[id]@.id
                == id
    }

    pub proof fn lemma_wf(&self)
        requires
            self.wf(),
        ensures
            forall|id: SessionId| #[trigger]
                self@.contains_key(id) ==> self@[id].wf() && self@[id].id == id,
    {
        assert forall|id: SessionId| #[trigger] self@.contains_key(id) implies self@[id].wf()
            && self@[id].id == id by {
            assert(self.sessions@.contains_key(id));
        }
    }

    /// A server without sessions.
    pub fn new() -> (server: Server)
        ensures
            server.wf(),
            server@ == Map::<SessionId, SessionView>::empty(),
    {
        let server = Server { sessions: HashMap::new() };
        proof {
            assert(server@ =~= Map::<SessionId, SessionView>::empty());
        }
        server
    }

    /// The session registered under `id`.
    pub fn session(&self, id: SessionId) -> (session: Option<&Session>)
        ensures
            match session {
                Some(s) => self@.contains_key(id) && s@ == self@[id],
                None => !self@.contains_key(id),
            },
    {
        self.sessions.get(&id)
    }

    /// Takes one datagram that came from `sender`.
    ///
    /// A datagram that is no message is dropped: nothing changes, and
    /// nothing is sent. A message for a session that is not registered
    /// creates the session and binds it to `sender`. A message for a closed
    /// session changes nothing and is answered by a `close` to `sender`.
    /// Any other message goes to its session, and what the session hands
    /// back goes to the address that the session is bound to. No message of
    /// it makes a datagram of more than a thousand bytes.
    pub fn on_datagram(&mut self, datagram: &[u8], sender: PeerAddress) -> (delivery: Option<
        Delivery,
    >)
        requires
            old(self).wf(),
        ensures
            final(self).wf(),
            match decoded(datagram@) {
                Err(_) => final(self)@ == old(self)@ && delivery is None,
                Ok(m) => {
                    let id = m.session_id();
                    let s = session_for(old(self)@, id, sender);
                    &&& delivery is Some
                    &&& delivery->0.session == id
                    &&& if s.closed {
                        &&& final(self)@ == old(self)@
                        &&& delivery->0.to == sender
                        &&& delivery->0.reply_view() == Some(MessageView::Disconnect(id))
                        &&& delivery->0.groups_view().len() == 0
                    } else {
                        &&& final(self)@ == old(self)@.insert(id, s.step(m))
                        &&& delivery->0.to == s.peer_address
                        &&& delivery->0.reply_view() == s.reply(m)
                        &&& delivery->0.groups_view() == s.groups(m)
                    }
                },
            },
            delivery is Some ==> forall|k: int|
                0 <= k < delivery->0.groups_view().len() ==> all_fit(
                    #[trigger] delivery->0.groups_view()[k],
                ),
    {
        let message = match Message::decode(datagram) {
            Ok(message) => message,
            Err(_) => { return None; },
        };
        let id = message.session_id();
        let ghost before = self.sessions@;
        let mut session = match self.sessions.remove(&id) {
            Some(session) => session,
            None => Session::new(id, sender),
        };
        let ghost held = session;
        if session.is_closed() {
            self.sessions.insert(id, session);
            proof {
                assert(self.sessions@ =~= before);
            }
            return Some(
                Delivery {
                    session: id,
                    to: sender,
                    reply: Some(Message::Disconnect(id)),
                    groups: Vec::new(),
                },
            );
        }
        let to = session.peer_address();
        let outcome = session.handle_new_message(message);
        proof {
            super::laws::lemma_step(held@, message@);
        }
        self.sessions.insert(id, session);
        proof {
            assert(self.sessions@ =~= before.insert(id, session));
        }
        Some(Delivery { session: id, to, reply: outcome.reply, groups: outcome.groups })
    }

    /// What the driver of `group`, a group of session `id`, does after
    /// `tick`. A group whose session is closed or unknown stops.
    pub fn on_tick(&self, id: SessionId, group: &ChunkGroup, tick: Tick) -> (action: Decision)
        ensures
            action@ == if self@.contains_key(id) {
                decision(group@, self@[id].closed, self@[id].bytes_acked, tick)
            } else {
                DecisionView::Stop
            },
    {
        match self.sessions.get(&id) {
            Some(session) => group.on_tick(session.is_closed(), session.bytes_acked(), tick),
            None => Decision::Stop,
        }
    }

    /// Ends session `id` because a group of it was not acknowledged in time.
    /// The result is the `close` for its peer; there is none if the session
    /// is closed already or unknown.
    pub fn expire(&mut self, id: SessionId) -> (delivery: Option<Delivery>)
        requires
            old(self).wf(),
        ensures
            final(self).wf(),
            if old(self)@.contains_key(id) && !old(self)@[id].closed {
                &&& final(self)@ == old(self)@.insert(id, old(self)@[id].expired())
                &&& delivery is Some
                &&& delivery->0.session == id
                &&& delivery->0.to == old(self)@[id].peer_address
                &&& delivery->0.reply_view() == Some(MessageView::Disconnect(id))
                &&& delivery->0.groups_view().len() == 0
            } else {
                final(self)@ == old(self)@ && delivery is None
            },
    {
        let ghost before = self.sessions@;
        let mut session = match self.sessions.remove(&id) {
            Some(session) => session,
            None => {
                proof {
                    assert(self.sessions@ =~= before);
                }
                return None;
            },
        };
        let ghost held = session;
        let to = session.peer_address();
        let reply = session.expire();
        self.sessions.insert(id, session);
        proof {
            if held@.closed {
                assert(session@ == held@);
            } else {
                assert(self@ =~= old(self)@.insert(id, held@.expired()));
            }
        }
        match reply {
            Some(close) => Some(
                Delivery { session: id, to, reply: Some(close), groups: Vec::new() },
            ),
            None => None,
        }
    }
}

} // verus!
