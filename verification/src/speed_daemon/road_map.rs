//! What the cameras of a road have seen, the tickets that follow from it,
//! and the days on which a car has been ticketed already.

use crate::text::same_bytes;
use vstd::prelude::*;

verus! {

/// Seconds of a day.
pub const DAY: u32 = 86400;

#[derive(Debug, Clone, PartialEq, Eq)]
pub struct Ticket {
    pub plate: Vec<u8>,
    pub road: u16,
    pub mile1: u16,
    pub timestamp1: u32,
    pub mile2: u16,
    pub timestamp2: u32,
    pub speed: u16,
}

pub ghost struct TicketView {
    pub plate: Seq<u8>,
    pub road: u16,
    pub mile1: u16,
    pub timestamp1: u32,
    pub mile2: u16,
    pub timestamp2: u32,
    pub speed: u16,
}

impl View for Ticket {
    type V = TicketView;

    open spec fn view(&self) -> TicketView {
        TicketView {
            plate: self.plate@,
            road: self.road,
            mile1: self.mile1,
            timestamp1: self.timestamp1,
            mile2: self.mile2,
            timestamp2: self.timestamp2,
            speed: self.speed,
        }
    }
}

/// A car as a camera saw it.
#[derive(Debug, Clone, PartialEq, Eq)]
pub struct PlateObservation {
    plate: Vec<u8>,
    mile: u16,
    time: u32,
}

pub ghost struct ObservationView {
    pub plate: Seq<u8>,
    pub mile: u16,
    pub time: u32,
}

impl View for PlateObservation {
    type V = ObservationView;

    closed spec fn view(&self) -> ObservationView {
        ObservationView { plate: self.plate@, mile: self.mile, time: self.time }
    }
}

impl PlateObservation {
    pub fn new(plate: Vec<u8>, mile: u16, time: u32) -> (observation: Self)
        ensures
            observation@ == (ObservationView { plate: plate@, mile, time }),
    {
        Self { plate, mile, time }
    }

    pub fn plate(&self) -> (plate: &Vec<u8>)
        ensures
            plate@ == self@.plate,
    {
        &self.plate
    }

    pub fn mile(&self) -> (mile: u16)
        ensures
            mile == self@.mile,
    {
        self.mile
    }

    pub fn time(&self) -> (time: u32)
        ensures
            time == self@.time,
    {
        self.time
    }
}

pub open spec fn distance(a: u16, b: u16) -> nat {
    if a < b {
        (b - a) as nat
    } else {
        (a - b) as nat
    }
}

/// The speed in hundredths of a mile per hour of a car that covers `miles`
/// in `seconds`, rounded down.
pub open spec fn speed_x100(miles: nat, seconds: nat) -> nat
    recommends
        seconds > 0,
{
    miles * 360000 / seconds
}

/// The ticket for a car that was seen twice on a road, `new` after
/// `earlier`, if the two are of the same car at different times and the
/// speed between them is above the limit. The observation with the smaller
/// time comes first in the ticket. The speed of the ticket is kept in 16
/// bits, as on the wire, and compared with the limit as it is kept.
pub open spec fn ticket_between(
    road: u16,
    limit: u16,
    earlier: ObservationView,
    new: ObservationView,
) -> Option<TicketView> {
    let (first, second) = if new.time < earlier.time {
        (new, earlier)
    } else {
        (earlier, new)
    };
    if earlier.plate != new.plate || first.time == second.time {
        None
    } else {
        let exact = speed_x100(
            distance(first.mile, second.mile),
            (second.time - first.time) as nat,
        );
        let speed = (exact % 0x1_0000) as u16;
        if speed > limit * 100 {
            Some(
                TicketView {
                    plate: new.plate,
                    road,
                    mile1: first.mile,
                    timestamp1: first.time,
                    mile2: second.mile,
                    timestamp2: second.time,
                    speed,
                },
            )
        } else {
            None
        }
    }
}

/// The tickets that follow from `new` and each of the observations before
/// it, in their order.
pub open spec fn tickets_for(
    road: u16,
    limit: u16,
    seen: Seq<ObservationView>,
    new: ObservationView,
) -> Seq<TicketView>
    decreases seen.len(),
{
    if seen.len() == 0 {
        Seq::empty()
    } else {
        tickets_for(road, limit, seen.drop_last(), new) + match ticket_between(
            road,
            limit,
            seen.last(),
            new,
        ) {
            Some(ticket) => seq![ticket],
            None => Seq::empty(),
        }
    }
}

fn ticket_for_pair(
    road: u16,
    limit: u16,
    earlier: &PlateObservation,
    new: &PlateObservation,
) -> (ticket: Option<Ticket>)
    ensures
        match ticket_between(road, limit, earlier@, new@) {
            Some(expected) => ticket is Some && ticket->0@ == expected,
            None => ticket is None,
        },
{
    if !same_bytes(earlier.plate.as_slice(), new.plate.as_slice()) {
        return None;
    }
    let (first, second) = if new.time < earlier.time {
        (new, earlier)
    } else {
        (earlier, new)
    };
    if first.time == second.time {
        return None;
    }
    let miles: u64 = if first.mile < second.mile {
        (second.mile - first.mile) as u64
    } else {
        (first.mile - second.mile) as u64
    };
    let seconds: u64 = (second.time - first.time) as u64;
    let exact: u64 = miles * 360000 / seconds;
    let speed: u16 = (exact % 0x1_0000) as u16;
    if speed as u32 > limit as u32 * 100 {
        Some(
            Ticket {
                plate: new.plate.clone(),
                road,
                mile1: first.mile,
                timestamp1: first.time,
                mile2: second.mile,
                timestamp2: second.time,
                speed,
            },
        )
    } else {
        None
    }
}

/// One road: its number, its speed limit in miles per hour, and all that
/// its cameras have seen, in the order in which it became known.
pub struct Road {
    number: u16,
    limit: u16,
    seen: Vec<PlateObservation>,
}

impl Road {
    pub closed spec fn number(&self) -> u16 {
        self.number
    }

    pub closed spec fn limit(&self) -> u16 {
        self.limit
    }

    pub closed spec fn seen(&self) -> Seq<ObservationView> {
        self.seen@.map_values(|o: PlateObservation| o@)
    }

    pub fn new(number: u16, limit: u16) -> (road: Self)
        ensures
            road.number() == number,
            road.limit() == limit,
            road.seen() == Seq::<ObservationView>::empty(),
    {
        let road = Road { number, limit, seen: Vec::new() };
        proof {
            assert(road.seen() =~= Seq::<ObservationView>::empty());
        }
        road
    }

    /// Takes what a camera of the road saw. The result is the tickets that
    /// follow from it and from what was seen before.
    pub fn observe(&mut self, observation: PlateObservation) -> (tickets: Vec<Ticket>)
        ensures
            final(self).number() == old(self).number(),
            final(self).limit() == old(self).limit(),
            final(self).seen() == old(self).seen().push(observation@),
            tickets@.map_values(|t: Ticket| t@) == tickets_for(
                old(self).number(),
                old(self).limit(),
                old(self).seen(),
                observation@,
            ),
    {
        let mut tickets: Vec<Ticket> = Vec::new();
        let mut i: usize = 0;
        proof {
            assert(self.seen().take(0) =~= Seq::<ObservationView>::empty());
        }
        while i < self.seen.len()
            invariant
                i <= self.seen.len(),
                tickets@.map_values(|t: Ticket| t@) == tickets_for(
                    self.number(),
                    self.limit(),
                    self.seen().take(i as int),
                    observation@,
                ),
            decreases self.seen.len() - i,
        {
            let ghost before = tickets@.map_values(|t: Ticket| t@);
            proof {
                assert(self.seen().take(i + 1).drop_last() =~= self.seen().take(i as int));
            }
            match ticket_for_pair(self.number, self.limit, &self.seen[i], &observation) {
                Some(ticket) => {
                    let ghost view = ticket@;
                    tickets.push(ticket);
                    proof {
                        assert(tickets@.map_values(|t: Ticket| t@) =~= before + seq![view]);
                    }
                },
                None => {
                    proof {
                        assert(before + Seq::<TicketView>::empty() =~= before);
                    }
                },
            }
            i += 1;
        }
        proof {
            assert(self.seen().take(i as int) =~= self.seen());
        }
        let ghost view = observation@;
        self.seen.push(observation);
        proof {
            assert(self.seen() =~= old(self).seen().push(view));
        }
        tickets
    }
}

/// The day of a time.
pub open spec fn day_of(timestamp: u32) -> u32 {
    timestamp / DAY
}

/// The days on which cars have been ticketed.
pub struct TicketLedger {
    days: Vec<(Vec<u8>, u32)>,
}

impl TicketLedger {
    /// Whether the car has a ticket for the day.
    pub closed spec fn ticketed(&self, plate: Seq<u8>, day: u32) -> bool {
        exists|i: int|
            0 <= i < self.days@.len() && self.days@[i].0@ == plate && self.days@[i].1 == day
    }

    pub fn new() -> (ledger: Self)
        ensures
            forall|plate: Seq<u8>, day: u32| !ledger.ticketed(plate, day),
    {
        TicketLedger { days: Vec::new() }
    }

    fn has_ticket(&self, plate: &[u8], day: u32) -> (found: bool)
        ensures
            found == self.ticketed(plate@, day),
    {
        let mut i: usize = 0;
        while i < self.days.len()
            invariant
                i <= self.days.len(),
                forall|j: int|
                    0 <= j < i ==> !(self.days@[j].0@ == plate@ && self.days@[j].1 == day),
            decreases self.days.len() - i,
        {
            if self.days[i].1 == day && same_bytes(self.days[i].0.as_slice(), plate) {
                return true;
            }
            i += 1;
        }
        false
    }

    /// Decides whether a ticket goes out: it does unless the car has a
    /// ticket for the day on which the ticket begins or for the day on which
    /// it ends. A ticket that goes out is entered for both days.
    pub fn issue(&mut self, ticket: &Ticket) -> (goes_out: bool)
        ensures
            goes_out == (!old(self).ticketed(ticket@.plate, day_of(ticket@.timestamp1)) && !old(
                self,
            ).ticketed(ticket@.plate, day_of(ticket@.timestamp2))),
            forall|plate: Seq<u8>, day: u32|
                final(self).ticketed(plate, day) == (old(self).ticketed(plate, day) || (goes_out
                    && plate == ticket@.plate && (day == day_of(ticket@.timestamp1) || day
                    == day_of(ticket@.timestamp2)))),
    {
        let day1: u32 = ticket.timestamp1 / DAY;
        let day2: u32 = ticket.timestamp2 / DAY;
        if self.has_ticket(ticket.plate.as_slice(), day1) || self.has_ticket(
            ticket.plate.as_slice(),
            day2,
        ) {
            return false;
        }
        let ghost before = self.days@;
        self.days.push((ticket.plate.clone(), day1));
        self.days.push((ticket.plate.clone(), day2));
        proof {
            let after = self.days@;
            assert forall|plate: Seq<u8>, day: u32| final(self).ticketed(plate, day) == (old(
                self,
            ).ticketed(plate, day) || (plate == ticket@.plate && (day == day1 || day
                == day2))) by {
                if old(self).ticketed(plate, day) {
                    let i = choose|i: int|
                        0 <= i < before.len() && before[i].0@ == plate && before[i].1 == day;
                    assert(after[i] == before[i]);
                }
                if plate == ticket@.plate && day == day1 {
                    assert(after[before.len() as int].1 == day1);
                }
                if plate == ticket@.plate && day == day2 {
                    assert(after[before.len() as int + 1].1 == day2);
                }
                if final(self).ticketed(plate, day) {
                    let i = choose|i: int|
                        0 <= i < after.len() && after[i].0@ == plate && after[i].1 == day;
                    if i < before.len() {
                        assert(after[i] == before[i]);
                    }
                }
            }
        }
        true
    }
}

} // verus!
