use protohackers::speed_daemon::connection::{Action, Client, ClientError, ClientType};
use protohackers::speed_daemon::frame::{ClientFrame, FrameError, ServerFrame};
use protohackers::speed_daemon::road_map::{PlateObservation, Road, Ticket, TicketLedger};

#[test]
fn plate_observation_keeps_its_fields() {
    let seen = PlateObservation::new(b"UN1X".to_vec(), 8, 1000);
    assert_eq!(seen.plate(), &b"UN1X".to_vec());
    assert_eq!(seen.mile(), 8);
    assert_eq!(seen.time(), 1000);
}

#[test]
fn check_whole_frames() {
    assert!(ClientFrame::check(&[0x20, 0x04, 0x55, 0x4e, 0x31, 0x58, 0x00, 0x00, 0x03, 0xe8]));
    assert!(!ClientFrame::check(&[0x20, 0x04, 0x55, 0x4e, 0x31, 0x58, 0x00, 0x00, 0x03]));
    assert!(ClientFrame::check(&[0x20, 0x00, 0x00, 0x00, 0x03, 0xe8]));
    assert!(!ClientFrame::check(&[0x20, 0x00, 0x00, 0x00, 0x03]));
    assert!(ClientFrame::check(&[0x40, 0x00, 0x00, 0x00, 0x0a]));
    assert!(!ClientFrame::check(&[0x40, 0x00, 0x00, 0x00]));
    assert!(!ClientFrame::check(&[0x40]));
    assert!(ClientFrame::check(&[0x80, 0x00, 0x42, 0x00, 0x64, 0x00, 0x3c]));
    assert!(!ClientFrame::check(&[0x80, 0x00, 0x42, 0x00, 0x64, 0x00]));
    assert!(ClientFrame::check(&[0x81, 0x01, 0x00, 0x42]));
    assert!(ClientFrame::check(&[0x81, 0x00]));
    assert!(!ClientFrame::check(&[0x81, 0x03, 0x00, 0x42, 0x01, 0x70, 0x13]));
    assert!(ClientFrame::check(&[0x81, 0x03, 0x00, 0x42, 0x01, 0x70, 0x13, 0x88, 0xff]));
    assert!(!ClientFrame::check(&[]));
}

#[test]
fn parse_each_frame() {
    assert_eq!(
        ClientFrame::parse(&[0x20, 0x04, 0x55, 0x4e, 0x31, 0x58, 0x00, 0x00, 0x03, 0xe8, 0x40]),
        Ok(Some((ClientFrame::Plate { plate: b"UN1X".to_vec(), timestamp: 1000 }, 10)))
    );
    assert_eq!(
        ClientFrame::parse(&[0x20, 0x07, 0x52, 0x45, 0x30, 0x35, 0x42, 0x4b, 0x47, 0x00, 0x01, 0xe2, 0x40]),
        Ok(Some((ClientFrame::Plate { plate: b"RE05BKG".to_vec(), timestamp: 123456 }, 13)))
    );
    assert_eq!(
        ClientFrame::parse(&[0x40, 0x00, 0x00, 0x04, 0xdb]),
        Ok(Some((ClientFrame::WantHeartbeat { interval: 1243 }, 5)))
    );
    assert_eq!(
        ClientFrame::parse(&[0x80, 0x00, 0x42, 0x00, 0x64, 0x00, 0x3c]),
        Ok(Some((ClientFrame::IAmCamera { road: 66, mile: 100, limit: 60 }, 7)))
    );
    assert_eq!(
        ClientFrame::parse(&[0x80, 0x01, 0x70, 0x04, 0xd2, 0x00, 0x28, 0x99]),
        Ok(Some((ClientFrame::IAmCamera { road: 368, mile: 1234, limit: 40 }, 7)))
    );
    assert_eq!(
        ClientFrame::parse(&[0x81, 0x03, 0x00, 0x42, 0x01, 0x70, 0x13, 0x88]),
        Ok(Some((ClientFrame::IAmDispatcher { num_roads: 3, roads: vec![66, 368, 5000] }, 8)))
    );
    assert_eq!(
        ClientFrame::parse(&[0x81, 0x00]),
        Ok(Some((ClientFrame::IAmDispatcher { num_roads: 0, roads: vec![] }, 2)))
    );
    assert_eq!(
        ClientFrame::parse(&[0x40, 0xff, 0xff, 0xff, 0xff]),
        Ok(Some((ClientFrame::WantHeartbeat { interval: u32::MAX }, 5)))
    );
}

#[test]
fn parse_frames_that_have_not_ended() {
    assert_eq!(ClientFrame::parse(&[]), Ok(None));
    assert_eq!(ClientFrame::parse(&[0x20]), Ok(None));
    assert_eq!(ClientFrame::parse(&[0x20, 0x04, 0x55, 0x4e, 0x31, 0x58, 0x00, 0x00, 0x03]), Ok(None));
    assert_eq!(ClientFrame::parse(&[0x40, 0x00]), Ok(None));
    assert_eq!(ClientFrame::parse(&[0x80, 0x00, 0x42, 0x00, 0x64, 0x00]), Ok(None));
    assert_eq!(ClientFrame::parse(&[0x81]), Ok(None));
    assert_eq!(ClientFrame::parse(&[0x81, 0x02, 0x00, 0x42, 0x01]), Ok(None));
}

#[test]
fn parse_unknown_frames() {
    assert_eq!(ClientFrame::parse(&[0x00]), Err(FrameError::UnknownType(0)));
    assert_eq!(ClientFrame::parse(&[0x21, 0x00]), Err(FrameError::UnknownType(0x21)));
    assert_eq!(ClientFrame::parse(&[0x41]), Err(FrameError::UnknownType(0x41)));
    assert_eq!(ClientFrame::parse(&[0x10, 0x01, 0x61]), Err(FrameError::UnknownType(0x10)));
}

#[test]
fn server_frames_on_the_wire() {
    assert_eq!(ServerFrame::Error(b"bad".to_vec()).to_vec(), vec![0x10, 0x03, 0x62, 0x61, 0x64]);
    assert_eq!(ServerFrame::Error(vec![]).to_vec(), vec![0x10, 0x00]);
    assert_eq!(ServerFrame::Heartbeat.to_vec(), vec![0x41]);
    assert_eq!(
        ServerFrame::Ticket {
            plate: b"UN1X".to_vec(),
            road: 66,
            mile1: 100,
            timestamp1: 123456,
            mile2: 110,
            timestamp2: 123816,
            speed: 10000,
        }
        .to_vec(),
        vec![
            0x21, 0x04, 0x55, 0x4e, 0x31, 0x58, 0x00, 0x42, 0x00, 0x64, 0x00, 0x01, 0xe2, 0x40,
            0x00, 0x6e, 0x00, 0x01, 0xe3, 0xa8, 0x27, 0x10,
        ]
    );
    assert_eq!(
        ServerFrame::Ticket {
            plate: b"RE05BKG".to_vec(),
            road: 368,
            mile1: 1234,
            timestamp1: 1000000,
            mile2: 1235,
            timestamp2: 1000060,
            speed: 6000,
        }
        .to_vec(),
        vec![
            0x21, 0x07, 0x52, 0x45, 0x30, 0x35, 0x42, 0x4b, 0x47, 0x01, 0x70, 0x04, 0xd2, 0x00,
            0x0f, 0x42, 0x40, 0x04, 0xd3, 0x00, 0x0f, 0x42, 0x7c, 0x17, 0x70,
        ]
    );
}

#[test]
fn long_message_keeps_the_low_bits_of_its_length() {
    let bytes = ServerFrame::Error(vec![0x61; 300]).to_vec();
    assert_eq!(bytes.len(), 302);
    assert_eq!(bytes[1], 44);
}

fn ticket(plate: &[u8], road: u16, mile1: u16, timestamp1: u32, mile2: u16, timestamp2: u32, speed: u16) -> Ticket {
    Ticket { plate: plate.to_vec(), road, mile1, timestamp1, mile2, timestamp2, speed }
}

#[test]
fn speeding_car_gets_a_ticket() {
    let mut road = Road::new(123, 60);
    assert_eq!(road.observe(PlateObservation::new(b"UN1X".to_vec(), 8, 0)), vec![]);
    assert_eq!(
        road.observe(PlateObservation::new(b"UN1X".to_vec(), 9, 45)),
        vec![ticket(b"UN1X", 123, 8, 0, 9, 45, 8000)]
    );
}

#[test]
fn car_at_the_limit_gets_none() {
    let mut road = Road::new(1, 60);
    road.observe(PlateObservation::new(b"A".to_vec(), 0, 0));
    assert_eq!(road.observe(PlateObservation::new(b"A".to_vec(), 1, 60)), vec![]);
    assert_eq!(
        road.observe(PlateObservation::new(b"A".to_vec(), 2, 119)),
        vec![ticket(b"A", 1, 0, 0, 2, 119, 6050), ticket(b"A", 1, 1, 60, 2, 119, 6101)]
    );
}

#[test]
fn observations_may_come_in_any_order() {
    let mut road = Road::new(7, 50);
    road.observe(PlateObservation::new(b"B".to_vec(), 100, 3600));
    assert_eq!(
        road.observe(PlateObservation::new(b"B".to_vec(), 0, 0)),
        vec![ticket(b"B", 7, 0, 0, 100, 3600, 10000)]
    );
    // Driving the other way counts as well.
    let mut road = Road::new(7, 50);
    road.observe(PlateObservation::new(b"B".to_vec(), 0, 3600));
    assert_eq!(
        road.observe(PlateObservation::new(b"B".to_vec(), 100, 0)),
        vec![ticket(b"B", 7, 100, 0, 0, 3600, 10000)]
    );
}

#[test]
fn other_cars_and_equal_times_give_no_ticket() {
    let mut road = Road::new(7, 10);
    road.observe(PlateObservation::new(b"B".to_vec(), 0, 0));
    assert_eq!(road.observe(PlateObservation::new(b"C".to_vec(), 100, 10)), vec![]);
    assert_eq!(road.observe(PlateObservation::new(b"B".to_vec(), 100, 0)), vec![]);
    assert_eq!(road.observe(PlateObservation::new(b"BB".to_vec(), 100, 1)), vec![]);
}

#[test]
fn one_ticket_a_day() {
    let mut ledger = TicketLedger::new();
    assert!(ledger.issue(&ticket(b"A", 1, 0, 0, 10, 100, 36000)));
    assert!(!ledger.issue(&ticket(b"A", 1, 10, 100, 20, 200, 36000)));
    assert!(!ledger.issue(&ticket(b"A", 2, 0, 86399, 10, 86400, 65535)));
    assert!(ledger.issue(&ticket(b"A", 2, 0, 86400, 10, 86500, 36000)));
    assert!(ledger.issue(&ticket(b"B", 1, 0, 0, 10, 100, 36000)));
    assert!(!ledger.issue(&ticket(b"B", 1, 0, 50, 10, 86400 * 3, 36000)));
    assert!(ledger.issue(&ticket(b"B", 1, 0, 86400 * 2, 10, 86400 * 3, 36000)));
    assert!(!ledger.issue(&ticket(b"B", 1, 0, 86400 * 3 + 5, 10, 86400 * 4, 36000)));
    assert!(ledger.issue(&ticket(b"B", 1, 0, 86400 * 4, 10, 86400 * 5 - 1, 36000)));
}

#[test]
fn ticket_over_two_days_takes_both() {
    let mut ledger = TicketLedger::new();
    assert!(ledger.issue(&ticket(b"A", 1, 0, 86000, 10, 87000, 36000)));
    assert!(!ledger.issue(&ticket(b"A", 1, 0, 10, 10, 20, 36000)));
    assert!(!ledger.issue(&ticket(b"A", 1, 0, 90000, 10, 90010, 36000)));
    assert!(ledger.issue(&ticket(b"A", 1, 0, 86400 * 2, 10, 86400 * 2 + 1, 36000)));
}

#[test]
fn camera_reports_plates() {
    let mut client = Client::new();
    assert_eq!(
        client.on_frame(ClientFrame::IAmCamera { road: 66, mile: 100, limit: 60 }),
        Action::Camera { road: 66, limit: 60, refused: false }
    );
    assert_eq!(client.client_type, Some(ClientType::Camera { road: 66, mile: 100 }));
    assert_eq!(
        client.on_frame(ClientFrame::Plate { plate: b"UN1X".to_vec(), timestamp: 1000 }),
        Action::Observation {
            road: 66,
            observation: PlateObservation::new(b"UN1X".to_vec(), 100, 1000)
        }
    );
}

#[test]
fn client_registers_once() {
    let mut client = Client::new();
    client.on_frame(ClientFrame::IAmCamera { road: 66, mile: 100, limit: 60 });
    assert_eq!(
        client.on_frame(ClientFrame::IAmCamera { road: 67, mile: 1, limit: 30 }),
        Action::Camera { road: 67, limit: 30, refused: true }
    );
    assert_eq!(client.client_type, Some(ClientType::Camera { road: 66, mile: 100 }));
    assert_eq!(
        client.on_frame(ClientFrame::IAmDispatcher { num_roads: 1, roads: vec![66] }),
        Action::Disconnect(ClientError::AlreadyRegistered)
    );
    let mut client = Client::new();
    assert_eq!(
        client.on_frame(ClientFrame::IAmDispatcher { num_roads: 2, roads: vec![66, 67] }),
        Action::Dispatcher { roads: vec![66, 67] }
    );
    assert_eq!(client.client_type, Some(ClientType::Dispatcher));
    assert_eq!(
        client.on_frame(ClientFrame::IAmDispatcher { num_roads: 0, roads: vec![] }),
        Action::Disconnect(ClientError::AlreadyRegistered)
    );
    assert_eq!(
        client.on_frame(ClientFrame::IAmCamera { road: 1, mile: 2, limit: 3 }),
        Action::Camera { road: 1, limit: 3, refused: true }
    );
}

#[test]
fn only_cameras_report_plates() {
    let mut client = Client::new();
    assert_eq!(
        client.on_frame(ClientFrame::Plate { plate: b"UN1X".to_vec(), timestamp: 1000 }),
        Action::Disconnect(ClientError::PlateFromNoCamera)
    );
    client.on_frame(ClientFrame::IAmDispatcher { num_roads: 1, roads: vec![66] });
    assert_eq!(
        client.on_frame(ClientFrame::Plate { plate: b"UN1X".to_vec(), timestamp: 1000 }),
        Action::Disconnect(ClientError::PlateFromNoCamera)
    );
}

#[test]
fn heartbeat_is_set_once() {
    let mut client = Client::new();
    assert_eq!(
        client.on_frame(ClientFrame::WantHeartbeat { interval: 25 }),
        Action::Heartbeat { interval: 25 }
    );
    assert!(client.heartbeat_set);
    assert_eq!(
        client.on_frame(ClientFrame::WantHeartbeat { interval: 10 }),
        Action::Complain(ClientError::HeartbeatAlreadySet)
    );
    assert_eq!(
        client.on_frame(ClientFrame::IAmCamera { road: 1, mile: 2, limit: 3 }),
        Action::Camera { road: 1, limit: 3, refused: false }
    );
}

#[test]
fn error_messages() {
    assert_eq!(ClientError::AlreadyRegistered.message(), "Client already registered");
    assert_eq!(ClientError::HeartbeatAlreadySet.message(), "Heartbeat already set");
    assert_eq!(
        ClientError::PlateFromNoCamera.message(),
        "Received plate, but client did not registered as a camera before"
    );
}
