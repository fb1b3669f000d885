use codecrafters_kafka::message::{skip, Error, Message};
use codecrafters_kafka::wire::ByteCursor;

fn prefix(size: i32, key: i16, version: i16, correlation: i32) -> Vec<u8> {
    let mut v = Vec::new();
    v.extend_from_slice(&size.to_be_bytes());
    v.extend_from_slice(&key.to_be_bytes());
    v.extend_from_slice(&version.to_be_bytes());
    v.extend_from_slice(&correlation.to_be_bytes());
    v
}

#[test]
fn parse_message_reads_the_prefix() {
    let data = prefix(35, 18, 4, 0x6f7fc661);
    let mut c = ByteCursor::new(&data);
    let m = Message::parse_message(&mut c).unwrap();
    assert_eq!(m.message_size, 35);
    assert_eq!(m.request_header.request_api_key, 18);
    assert_eq!(m.request_header.request_api_version, 4);
    assert_eq!(m.request_header.correlation_id, 0x6f7fc661);
    assert_eq!(m.body.error_code, 0);
    assert_eq!(c.position(), 12);
}

#[test]
fn parse_message_flags_unsupported_versions() {
    let data = prefix(35, 18, 5, 7);
    let mut c = ByteCursor::new(&data);
    assert_eq!(Message::parse_message(&mut c).unwrap().body.error_code, 35);
    let data = prefix(35, 18, -1, 7);
    let mut c = ByteCursor::new(&data);
    assert_eq!(Message::parse_message(&mut c).unwrap().body.error_code, 0);
}

#[test]
fn parse_message_incomplete_stops_after_whole_fields() {
    let data = prefix(35, 18, 4, 7);
    for (len, stop) in [(0, 0), (3, 0), (4, 4), (5, 4), (6, 6), (7, 6), (8, 8), (11, 8)] {
        let mut c = ByteCursor::new(&data[..len]);
        assert_eq!(Message::parse_message(&mut c), Err(Error::Incomplete));
        assert_eq!(c.position(), stop);
    }
}

#[test]
fn skip_moves_or_reports_incomplete() {
    let data = [0u8; 5];
    let mut c = ByteCursor::new(&data);
    assert_eq!(skip(&mut c, 3), Ok(()));
    assert_eq!(c.position(), 3);
    assert_eq!(skip(&mut c, 3), Err(Error::Incomplete));
    assert_eq!(c.position(), 3);
}

#[test]
fn message_error_texts() {
    assert_eq!(Error::Incomplete.message(), "stream ended early");
    assert_eq!(Error::Other("boom".to_string()).message(), "boom");
}
