//! The frames of the protocol. Numbers stand most significant byte first; a
//! string is one byte for its length and then its bytes.
//!
//! ```text
//! from a client                          from the server
//! 20 plate: str, timestamp: u32          10 message: str
//! 40 interval: u32                       21 plate: str, road: u16, mile1: u16,
//! 80 road: u16, mile: u16, limit: u16       timestamp1: u32, mile2: u16,
//! 81 numroads: u8, roads: [u16]             timestamp2: u32, speed: u16
//!                                        41
//! ```

use vstd::prelude::*;
use vstd::slice::slice_subrange;

verus! {

pub const PLATE: u8 = 0x20;

pub const WANT_HEARTBEAT: u8 = 0x40;

pub const I_AM_CAMERA: u8 = 0x80;

pub const I_AM_DISPATCHER: u8 = 0x81;

pub const ERROR: u8 = 0x10;

pub const TICKET: u8 = 0x21;

pub const HEARTBEAT: u8 = 0x41;

#[derive(Debug, PartialEq, Eq)]
pub enum ClientFrame {
    Plate { plate: Vec<u8>, timestamp: u32 },
    WantHeartbeat { interval: u32 },
    IAmCamera { road: u16, mile: u16, limit: u16 },
    IAmDispatcher { num_roads: u8, roads: Vec<u16> },
}

pub ghost enum ClientFrameView {
    Plate { plate: Seq<u8>, timestamp: u32 },
    WantHeartbeat { interval: u32 },
    IAmCamera { road: u16, mile: u16, limit: u16 },
    IAmDispatcher { num_roads: u8, roads: Seq<u16> },
}

impl View for ClientFrame {
    type V = ClientFrameView;

    open spec fn view(&self) -> ClientFrameView {
        match *self {
            ClientFrame::Plate { plate, timestamp } => ClientFrameView::Plate {
                plate: plate@,
                timestamp,
            },
            ClientFrame::WantHeartbeat { interval } => ClientFrameView::WantHeartbeat { interval },
            ClientFrame::IAmCamera { road, mile, limit } => ClientFrameView::IAmCamera {
                road,
                mile,
                limit,
            },
            ClientFrame::IAmDispatcher { num_roads, roads } => ClientFrameView::IAmDispatcher {
                num_roads,
                roads: roads@,
            },
        }
    }
}

#[derive(Debug, PartialEq, Eq)]
pub enum ServerFrame {
    Error(Vec<u8>),
    Ticket {
        plate: Vec<u8>,
        road: u16,
        mile1: u16,
        timestamp1: u32,
        mile2: u16,
        timestamp2: u32,
        speed: u16,
    },
    Heartbeat,
}

pub ghost enum ServerFrameView {
    Error(Seq<u8>),
    Ticket {
        plate: Seq<u8>,
        road: u16,
        mile1: u16,
        timestamp1: u32,
        mile2: u16,
        timestamp2: u32,
        speed: u16,
    },
    Heartbeat,
}

impl View for ServerFrame {
    type V = ServerFrameView;

    open spec fn view(&self) -> ServerFrameView {
        match *self {
            ServerFrame::Error(message) => ServerFrameView::Error(message@),
            ServerFrame::Ticket {
                plate,
                road,
                mile1,
                timestamp1,
                mile2,
                timestamp2,
                speed,
            } => ServerFrameView::Ticket {
                plate: plate@,
                road,
                mile1,
                timestamp1,
                mile2,
                timestamp2,
                speed,
            },
            ServerFrame::Heartbeat => ServerFrameView::Heartbeat,
        }
    }
}

/// Why bytes are no frame.
#[derive(Debug, Clone, Copy, PartialEq, Eq, Structural)]
pub enum FrameError {
    /// The first byte names no frame that a client sends.
    UnknownType(u8),
}

pub open spec fn known_type(t: u8) -> bool {
    t == PLATE || t == WANT_HEARTBEAT || t == I_AM_CAMERA || t == I_AM_DISPATCHER
}

pub open spec fn be_u16(b0: u8, b1: u8) -> u16 {
    (b0 as int * 0x100 + b1 as int) as u16
}

pub open spec fn be_u32(b0: u8, b1: u8, b2: u8, b3: u8) -> u32 {
    (b0 as int * 0x100_0000 + b1 as int * 0x1_0000 + b2 as int * 0x100 + b3 as int) as u32
}

pub open spec fn u16_at(src: Seq<u8>, at: int) -> u16 {
    be_u16(src[at], src[at + 1])
}

pub open spec fn u32_at(src: Seq<u8>, at: int) -> u32 {
    be_u32(src[at], src[at + 1], src[at + 2], src[at + 3])
}

pub open spec fn u16_bytes(value: u16) -> Seq<u8> {
    seq![(value / 0x100) as u8, (value % 0x100) as u8]
}

pub open spec fn u32_bytes(value: u32) -> Seq<u8> {
    seq![
        (value / 0x100_0000) as u8,
        ((value / 0x1_0000) % 0x100) as u8,
        ((value / 0x100) % 0x100) as u8,
        (value % 0x100) as u8,
    ]
}

/// A string on the wire. Its length byte holds the low eight bits of its
/// length, so only strings of up to 255 bytes can be read back.
pub open spec fn str_bytes(s: Seq<u8>) -> Seq<u8> {
    seq![(s.len() % 0x100) as u8] + s
}

/// How many bytes the frame at the start of `src` takes, as far as `src`
/// shows it: a frame with a string or a list needs its second byte for that.
pub open spec fn frame_len(src: Seq<u8>) -> Option<nat> {
    if src.len() == 0 {
        None
    } else if src[0] == WANT_HEARTBEAT {
        Some(5)
    } else if src[0] == I_AM_CAMERA {
        Some(7)
    } else if src.len() < 2 {
        None
    } else if src[0] == PLATE {
        Some((src[1] + 6) as nat)
    } else {
        Some((2 * src[1] + 2) as nat)
    }
}

/// Whether `src` holds a whole frame at its start.
pub open spec fn holds_frame(src: Seq<u8>) -> bool {
    match frame_len(src) {
        Some(n) => n <= src.len(),
        None => false,
    }
}

/// The roads of a dispatcher: `count` numbers of two bytes each from offset
/// 2 of `src` on.
pub open spec fn roads_of(src: Seq<u8>, count: nat) -> Seq<u16> {
    Seq::new(count, |i: int| u16_at(src, 2 + 2 * i))
}

/// The frame at the start of `src`, where `src` holds a whole frame of a
/// known type.
pub open spec fn frame_of(src: Seq<u8>) -> ClientFrameView {
    if src[0] == PLATE {
        ClientFrameView::Plate {
            plate: src.subrange(2, 2 + src[1]),
            timestamp: u32_at(src, 2 + src[1]),
        }
    } else if src[0] == WANT_HEARTBEAT {
        ClientFrameView::WantHeartbeat { interval: u32_at(src, 1) }
    } else if src[0] == I_AM_CAMERA {
        ClientFrameView::IAmCamera {
            road: u16_at(src, 1),
            mile: u16_at(src, 3),
            limit: u16_at(src, 5),
        }
    } else {
        ClientFrameView::IAmDispatcher { num_roads: src[1], roads: roads_of(src, src[1] as nat) }
    }
}

/// The bytes of a frame of the server.
pub open spec fn encoded(frame: ServerFrameView) -> Seq<u8> {
    match frame {
        ServerFrameView::Error(message) => seq![ERROR] + str_bytes(message),
        ServerFrameView::Ticket { plate, road, mile1, timestamp1, mile2, timestamp2, speed } => seq![
            TICKET,
        ] + str_bytes(plate) + u16_bytes(road) + u16_bytes(mile1) + u32_bytes(timestamp1)
            + u16_bytes(mile2) + u32_bytes(timestamp2) + u16_bytes(speed),
        ServerFrameView::Heartbeat => seq![HEARTBEAT],
    }
}

fn read_u16(src: &[u8], at: usize) -> (value: u16)
    requires
        at + 2 <= src.len(),
    ensures
        value == u16_at(src@, at as int),
{
    (src[at] as u16) * 0x100 + src[at + 1] as u16
}

fn read_u32(src: &[u8], at: usize) -> (value: u32)
    requires
        at + 4 <= src.len(),
    ensures
        value == u32_at(src@, at as int),
{
    (src[at] as u32) * 0x100_0000 + (src[at + 1] as u32) * 0x1_0000 + (src[at + 2] as u32) * 0x100
        + src[at + 3] as u32
}

fn push_u16(out: &mut Vec<u8>, value: u16)
    ensures
        final(out)@ == old(out)@ + u16_bytes(value),
{
    out.push((value / 0x100) as u8);
    out.push((value % 0x100) as u8);
    proof {
        assert(final(out)@ =~= old(out)@ + u16_bytes(value));
    }
}

fn push_u32(out: &mut Vec<u8>, value: u32)
    ensures
        final(out)@ == old(out)@ + u32_bytes(value),
{
    out.push((value / 0x100_0000) as u8);
    out.push(((value / 0x1_0000) % 0x100) as u8);
    out.push(((value / 0x100) % 0x100) as u8);
    out.push((value % 0x100) as u8);
    proof {
        assert(final(out)@ =~= old(out)@ + u32_bytes(value));
    }
}

fn push_str(out: &mut Vec<u8>, s: &[u8])
    ensures
        final(out)@ == old(out)@ + str_bytes(s@),
{
    out.push((s.len() % 0x100) as u8);
    out.extend_from_slice(s);
    proof {
        assert(final(out)@ =~= old(out)@ + str_bytes(s@));
    }
}

impl ClientFrame {
    /// Whether a whole frame stands at the start of `src`. The frame must
    /// be of a known type, and one with a string or a list must show its
    /// second byte.
    pub fn check(src: &[u8]) -> (whole: bool)
        requires
            src@.len() > 0 ==> known_type(src@[0]),
            src@.len() == 1 ==> src@[0] == WANT_HEARTBEAT || src@[0] == I_AM_CAMERA,
        ensures
            whole == holds_frame(src@),
    {
        if src.len() == 0 {
            return false;
        }
        let remaining: usize = src.len() - 1;
        let kind: u8 = src[0];
        if kind == PLATE {
            let str_len: u8 = src[1];
            (str_len as usize + 4) <= remaining - 1
        } else if kind == WANT_HEARTBEAT {
            remaining >= 4
        } else if kind == I_AM_CAMERA {
            remaining >= 6
        } else {
            let num_roads: u8 = src[1];
            remaining - 1 >= 2 * num_roads as usize
        }
    }

    /// Reads the frame at the start of `src`.
    ///
    /// The result is `Ok(None)` as long as `src` does not hold a whole
    /// frame: the caller reads on and asks again. Else it is the frame
    /// together with the number of bytes that it took, or the reason why
    /// there is no frame.
    pub fn parse(src: &[u8]) -> (res: Result<Option<(ClientFrame, usize)>, FrameError>)
        ensures
            match res {
                Ok(Some(found)) => src@.len() > 0 && known_type(src@[0]) && holds_frame(src@)
                    && found.0@ == frame_of(src@) && Some(found.1 as nat) == frame_len(src@),
                Ok(None) => src@.len() == 0 || (known_type(src@[0]) && !holds_frame(src@)),
                Err(FrameError::UnknownType(t)) => src@.len() > 0 && !known_type(src@[0]) && t
                    == src@[0],
            },
    {
        if src.len() == 0 {
            return Ok(None);
        }
        let kind: u8 = src[0];
        if kind != PLATE && kind != WANT_HEARTBEAT && kind != I_AM_CAMERA && kind
            != I_AM_DISPATCHER {
            return Err(FrameError::UnknownType(kind));
        }
        if src.len() == 1 && (kind == PLATE || kind == I_AM_DISPATCHER) {
            return Ok(None);
        }
        if !ClientFrame::check(src) {
            return Ok(None);
        }
        if kind == PLATE {
            let len: usize = src[1] as usize;
            let mut plate: Vec<u8> = Vec::new();
            plate.extend_from_slice(slice_subrange(src, 2, 2 + len));
            let timestamp = read_u32(src, 2 + len);
            proof {
                assert(plate@ =~= src@.subrange(2, 2 + len));
            }
            Ok(Some((ClientFrame::Plate { plate, timestamp }, len + 6)))
        } else if kind == WANT_HEARTBEAT {
            Ok(Some((ClientFrame::WantHeartbeat { interval: read_u32(src, 1) }, 5)))
        } else if kind == I_AM_CAMERA {
            let road = read_u16(src, 1);
            let mile = read_u16(src, 3);
            let limit = read_u16(src, 5);
            Ok(Some((ClientFrame::IAmCamera { road, mile, limit }, 7)))
        } else {
            let num_roads: u8 = src[1];
            let mut roads: Vec<u16> = Vec::new();
            let mut i: usize = 0;
            while i < num_roads as usize
                invariant
                    i <= num_roads,
                    2 * num_roads + 2 <= src.len(),
                    roads@ == roads_of(src@, i as nat),
                decreases num_roads - i,
            {
                roads.push(read_u16(src, 2 + 2 * i));
                i += 1;
                proof {
                    assert(roads@ =~= roads_of(src@, i as nat));
                }
            }
            Ok(Some((ClientFrame::IAmDispatcher { num_roads, roads }, 2 * num_roads as usize + 2)))
        }
    }
}

impl ServerFrame {
    /// The bytes of the frame.
    pub fn to_vec(&self) -> (bytes: Vec<u8>)
        ensures
            bytes@ == encoded(self@),
    {
        let mut out: Vec<u8> = Vec::new();
        match self {
            ServerFrame::Error(message) => {
                out.push(ERROR);
                push_str(&mut out, message.as_slice());
            },
            ServerFrame::Ticket { plate, road, mile1, timestamp1, mile2, timestamp2, speed } => {
                out.push(TICKET);
                push_str(&mut out, plate.as_slice());
                push_u16(&mut out, *road);
                push_u16(&mut out, *mile1);
                push_u32(&mut out, *timestamp1);
                push_u16(&mut out, *mile2);
                push_u32(&mut out, *timestamp2);
                push_u16(&mut out, *speed);
            },
            ServerFrame::Heartbeat => {
                out.push(HEARTBEAT);
            },
        }
        proof {
            assert(out@ =~= encoded(self@));
        }
        out
    }
}

} // verus!
