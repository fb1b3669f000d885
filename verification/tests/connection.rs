use codecrafters_kafka::connection::{encode_reply, end_of_stream_error, parse_buffered};
use codecrafters_kafka::message::Error;

#[test]
fn parse_buffered_takes_twelve_bytes() {
    let mut data = vec![0, 0, 0, 35, 0, 18, 0, 4, 0x6f, 0x7f, 0xc6, 0x61];
    data.extend_from_slice(&[1, 2, 3]);
    let (m, n) = parse_buffered(&data).unwrap();
    assert_eq!(n, 12);
    assert_eq!(m.request_header.correlation_id, 0x6f7fc661);
    assert_eq!(parse_buffered(&data[..11]), Err(Error::Incomplete));
}

#[test]
fn reply_holds_size_correlation_and_error() {
    let data = vec![0, 0, 0, 35, 0, 18, 0, 9, 0, 0, 0, 7];
    let (m, _) = parse_buffered(&data).unwrap();
    assert_eq!(encode_reply(&m), vec![0, 0, 0, 35, 0, 0, 0, 7, 0, 35]);
}

#[test]
fn end_of_stream_errors() {
    assert_eq!(end_of_stream_error(0), "empty message");
    assert_eq!(end_of_stream_error(5), "connection reset by peer");
}
