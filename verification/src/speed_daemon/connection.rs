//! What one client may do, and what follows from each of its frames.
//!
//! A client says once what it is, a camera or a dispatcher. Only a camera
//! reports plates. Any client may ask for a heartbeat, once.

use super::frame::{ClientFrame, ClientFrameView};
use super::road_map::{ObservationView, PlateObservation};
use vstd::prelude::*;

verus! {

/// What a client has said that it is.
#[derive(Debug, Clone, Copy, PartialEq, Eq, Structural)]
pub enum ClientType {
    Camera { road: u16, mile: u16 },
    Dispatcher,
}

/// Why a client is turned away.
#[derive(Debug, Clone, Copy, PartialEq, Eq, Structural)]
pub enum ClientError {
    /// The client has said before what it is.
    AlreadyRegistered,
    /// A plate from a client that is no camera.
    PlateFromNoCamera,
    /// A second request for a heartbeat.
    HeartbeatAlreadySet,
}

/// What the server does for a frame.
#[derive(Debug, PartialEq, Eq)]
pub enum Action {
    /// Open the road if it is new, with this limit. If `refused` is set,
    /// tell the client so and end the connection; else the client is a
    /// camera of the road from now on.
    Camera { road: u16, limit: u16, refused: bool },
    /// Send the tickets of these roads to the client from now on.
    Dispatcher { roads: Vec<u16> },
    /// Hand the observation to the road.
    Observation { road: u16, observation: PlateObservation },
    /// Send a heartbeat every `interval` tenths of a second.
    Heartbeat { interval: u32 },
    /// Tell the client of the error, and go on.
    Complain(ClientError),
    /// Tell the client of the error, and end the connection.
    Disconnect(ClientError),
}

pub ghost enum ActionView {
    Camera { road: u16, limit: u16, refused: bool },
    Dispatcher { roads: Seq<u16> },
    Observation { road: u16, observation: ObservationView },
    Heartbeat { interval: u32 },
    Complain(ClientError),
    Disconnect(ClientError),
}

impl View for Action {
    type V = ActionView;

    open spec fn view(&self) -> ActionView {
        match *self {
            Action::Camera { road, limit, refused } => ActionView::Camera { road, limit, refused },
            Action::Dispatcher { roads } => ActionView::Dispatcher { roads: roads@ },
            Action::Observation { road, observation } => ActionView::Observation {
                road,
                observation: observation@,
            },
            Action::Heartbeat { interval } => ActionView::Heartbeat { interval },
            Action::Complain(error) => ActionView::Complain(error),
            Action::Disconnect(error) => ActionView::Disconnect(error),
        }
    }
}

/// What is known of one client.
#[derive(Debug, Clone, Copy, PartialEq, Eq, Structural)]
pub struct Client {
    pub client_type: Option<ClientType>,
    pub heartbeat_set: bool,
}

impl ClientError {
    /// The text that tells the client of the error.
    pub fn message(&self) -> (text: &'static str)
        ensures
            text@ == match *self {
                ClientError::AlreadyRegistered => "Client already registered"@,
                ClientError::PlateFromNoCamera => (
                    "Received plate, but client did not registered as a camera before"@
                ),
                ClientError::HeartbeatAlreadySet => "Heartbeat already set"@,
            },
    {
        match self {
            ClientError::AlreadyRegistered => "Client already registered",
            ClientError::PlateFromNoCamera => {
                "Received plate, but client did not registered as a camera before"
            },
            ClientError::HeartbeatAlreadySet => "Heartbeat already set",
        }
    }
}

impl Client {
    /// The client after the frame.
    pub open spec fn after(self, frame: ClientFrameView) -> Client {
        match frame {
            ClientFrameView::IAmCamera { road, mile, .. } => if self.client_type is None {
                Client { client_type: Some(ClientType::Camera { road, mile }), ..self }
            } else {
                self
            },
            ClientFrameView::IAmDispatcher { .. } => if self.client_type is None {
                Client { client_type: Some(ClientType::Dispatcher), ..self }
            } else {
                self
            },
            ClientFrameView::WantHeartbeat { .. } => Client { heartbeat_set: true, ..self },
            ClientFrameView::Plate { .. } => self,
        }
    }

    /// What the server does for the frame.
    pub open spec fn action(self, frame: ClientFrameView) -> ActionView {
        match frame {
            ClientFrameView::IAmCamera { road, limit, .. } => ActionView::Camera {
                road,
                limit,
                refused: self.client_type is Some,
            },
            ClientFrameView::IAmDispatcher { roads, .. } => if self.client_type is None {
                ActionView::Dispatcher { roads }
            } else {
                ActionView::Disconnect(ClientError::AlreadyRegistered)
            },
            ClientFrameView::Plate { plate, timestamp } => match self.client_type {
                Some(ClientType::Camera { road, mile }) => ActionView::Observation {
                    road,
                    observation: ObservationView { plate, mile, time: timestamp },
                },
                _ => ActionView::Disconnect(ClientError::PlateFromNoCamera),
            },
            ClientFrameView::WantHeartbeat { interval } => if self.heartbeat_set {
                ActionView::Complain(ClientError::HeartbeatAlreadySet)
            } else {
                ActionView::Heartbeat { interval }
            },
        }
    }

    /// A client of which nothing is known yet.
    pub fn new() -> (client: Self)
        ensures
            client == (Client { client_type: None, heartbeat_set: false }),
    {
        Client { client_type: None, heartbeat_set: false }
    }

    /// Takes the next frame of the client.
    pub fn on_frame(&mut self, frame: ClientFrame) -> (action: Action)
        ensures
            *final(self) == old(self).after(frame@),
            action@ == old(self).action(frame@),
    {
        match frame {
            ClientFrame::IAmCamera { road, mile, limit } => {
                let refused = self.client_type.is_some();
                if !refused {
                    self.client_type = Some(ClientType::Camera { road, mile });
                }
                Action::Camera { road, limit, refused }
            },
            ClientFrame::IAmDispatcher { roads, .. } => {
                if self.client_type.is_some() {
                    Action::Disconnect(ClientError::AlreadyRegistered)
                } else {
                    self.client_type = Some(ClientType::Dispatcher);
                    Action::Dispatcher { roads }
                }
            },
            ClientFrame::Plate { plate, timestamp } => match self.client_type {
                Some(ClientType::Camera { road, mile }) => Action::Observation {
                    road,
                    observation: PlateObservation::new(plate, mile, timestamp),
                },
                _ => Action::Disconnect(ClientError::PlateFromNoCamera),
            },
            ClientFrame::WantHeartbeat { interval } => {
                if self.heartbeat_set {
                    Action::Complain(ClientError::HeartbeatAlreadySet)
                } else {
                    self.heartbeat_set = true;
                    Action::Heartbeat { interval }
                }
            },
        }
    }
}

} // verus!
