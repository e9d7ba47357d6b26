use protohackers::means_to_an_end::{parse_request, write_i32, AssetPrice, PriceHistory, Request};

#[test]
fn asset_price_keeps_its_fields() {
    let asset = AssetPrice::new(12345, -7);
    assert_eq!(asset.timestamp, 12345);
    assert_eq!(asset.price, -7);
}

#[test]
fn parse_insert_and_query() {
    assert_eq!(
        parse_request(&[0x49, 0x00, 0x00, 0x30, 0x39, 0x00, 0x00, 0x00, 0x65]),
        Some(Request::Insert(AssetPrice { timestamp: 12345, price: 101 }))
    );
    assert_eq!(
        parse_request(&[0x51, 0x00, 0x00, 0x03, 0xe8, 0x00, 0x01, 0x86, 0xa0]),
        Some(Request::Query { start_time: 1000, end_time: 100000 })
    );
    assert_eq!(
        parse_request(&[0x49, 0xff, 0xff, 0xff, 0xff, 0x80, 0x00, 0x00, 0x00]),
        Some(Request::Insert(AssetPrice { timestamp: -1, price: i32::MIN }))
    );
    assert_eq!(
        parse_request(&[0x51, 0x7f, 0xff, 0xff, 0xff, 0xff, 0xff, 0xff, 0xfe]),
        Some(Request::Query { start_time: i32::MAX, end_time: -2 })
    );
}

#[test]
fn parse_unknown_letter() {
    assert_eq!(parse_request(&[0x50, 0, 0, 0, 0, 0, 0, 0, 0]), None);
    assert_eq!(parse_request(&[0x69, 0, 0, 0, 0, 0, 0, 0, 0]), None);
    assert_eq!(parse_request(&[0, 0, 0, 0, 0, 0, 0, 0, 0]), None);
}

#[test]
fn write_i32_is_big_endian() {
    assert_eq!(write_i32(101), [0x00, 0x00, 0x00, 0x65]);
    assert_eq!(write_i32(0), [0, 0, 0, 0]);
    assert_eq!(write_i32(-1), [0xff, 0xff, 0xff, 0xff]);
    assert_eq!(write_i32(i32::MIN), [0x80, 0, 0, 0]);
    assert_eq!(write_i32(i32::MAX), [0x7f, 0xff, 0xff, 0xff]);
    for value in [5107, -5107, 1 << 24, -(1 << 24), 65536, -65536, 255, -256] {
        assert_eq!(write_i32(value), value.to_be_bytes());
    }
}

#[test]
fn mean_of_a_session() {
    let mut history = PriceHistory::new();
    history.insert(AssetPrice::new(12345, 101));
    history.insert(AssetPrice::new(12346, 102));
    history.insert(AssetPrice::new(12347, 100));
    history.insert(AssetPrice::new(40960, 5));
    assert_eq!(history.mean(12288, 16384), 101);
    assert_eq!(history.mean(12345, 12345), 101);
    assert_eq!(history.mean(12346, 40960), 69);
    assert_eq!(history.mean(0, 12344), 0);
    assert_eq!(history.mean(40961, i32::MAX), 0);
    assert_eq!(history.mean(16384, 12288), 0);
    assert_eq!(history.mean(i32::MIN, i32::MAX), 77);
}

#[test]
fn mean_of_nothing_is_zero() {
    let history = PriceHistory::new();
    assert_eq!(history.mean(0, 100), 0);
    assert_eq!(history.mean(100, 0), 0);
}

#[test]
fn mean_rounds_toward_zero() {
    let mut history = PriceHistory::new();
    history.insert(AssetPrice::new(1, -3));
    history.insert(AssetPrice::new(2, -4));
    assert_eq!(history.mean(1, 2), -3);
    history.insert(AssetPrice::new(3, 8));
    history.insert(AssetPrice::new(4, 0));
    assert_eq!(history.mean(3, 4), 4);
    assert_eq!(history.mean(1, 4), 0);
    let mut history = PriceHistory::new();
    history.insert(AssetPrice::new(1, 7));
    history.insert(AssetPrice::new(1, 8));
    assert_eq!(history.mean(1, 1), 7);
    let mut history = PriceHistory::new();
    history.insert(AssetPrice::new(1, -7));
    history.insert(AssetPrice::new(1, -8));
    assert_eq!(history.mean(1, 1), -7);
}

#[test]
fn mean_of_extreme_prices() {
    let mut history = PriceHistory::new();
    for time in 0..100 {
        history.insert(AssetPrice::new(time, i32::MAX));
    }
    assert_eq!(history.mean(0, 99), i32::MAX);
    let mut history = PriceHistory::new();
    for time in 0..100 {
        history.insert(AssetPrice::new(-time, i32::MIN));
    }
    assert_eq!(history.mean(-99, 0), i32::MIN);
}

#[test]
fn insert_in_any_order() {
    let mut history = PriceHistory::new();
    for (time, price) in [(5, 50), (1, 10), (3, 30), (2, 20), (4, 40), (3, 31)] {
        history.insert(AssetPrice::new(time, price));
    }
    assert_eq!(history.mean(1, 5), 30);
    assert_eq!(history.mean(3, 3), 30);
    assert_eq!(history.mean(2, 3), 27);
    assert_eq!(history.mean(4, 5), 45);
}

#[test]
fn test_server() {
    let input = [
        [0x49, 0x00, 0x00, 0x30, 0x39, 0x00, 0x00, 0x00, 0x65], // I 12345 101
        [0x49, 0x00, 0x00, 0x30, 0x3a, 0x00, 0x00, 0x00, 0x66], // I 12346 102
        [0x49, 0x00, 0x00, 0x30, 0x3b, 0x00, 0x00, 0x00, 0x64], // I 12347 100
        [0x49, 0x00, 0x00, 0xa0, 0x00, 0x00, 0x00, 0x00, 0x05], // I 40960 5
        [0x51, 0x00, 0x00, 0x30, 0x00, 0x00, 0x00, 0x40, 0x00], // Q 12288 16384
    ];
    let mut history = PriceHistory::new();
    let mut response = Vec::new();
    for message in input {
        match parse_request(&message).unwrap() {
            Request::Insert(asset) => history.insert(asset),
            Request::Query { start_time, end_time } => {
                response.extend_from_slice(&write_i32(history.mean(start_time, end_time)))
            }
        }
    }

    assert_eq!(response, [0x00, 0x00, 0x00, 0x65]);
}
