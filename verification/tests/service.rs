use codecrafters_kafka::protocol::{Error, Request, RequestHeader};
use codecrafters_kafka::service::{handle_request, next_backoff, HandlerError};

fn req(key: i16, version: i16, body: Vec<u8>) -> Request {
    Request {
        message_size: body.len() as i32 + 8,
        header: RequestHeader { request_api_key: key, request_api_version: version, correlation_id: 3 },
        body,
    }
}

#[test]
fn handle_dispatches_on_api_key() {
    let out = handle_request(&req(18, 3, vec![]), &[]).unwrap();
    assert_eq!(&out[..8], &[0, 0, 0, 33, 0, 0, 0, 3]);
    let out = handle_request(&req(75, 0, vec![0, 0, 0, 2, 2, b'a', 0]), &[]).unwrap();
    assert_eq!(&out[4..8], &[0, 0, 0, 3]);
    assert_eq!(handle_request(&req(1, 0, vec![]), &[]), Err(HandlerError::UnsupportedApiKey(1)));
    assert_eq!(
        handle_request(&req(75, 0, vec![0, 0, 0, 0]), &[]),
        Err(HandlerError::Protocol(Error::Other("empty topics array".to_string())))
    );
}

#[test]
fn backoff_doubles_then_gives_up() {
    assert_eq!(next_backoff(1), Some(2));
    assert_eq!(next_backoff(64), Some(128));
    assert_eq!(next_backoff(65), None);
    assert_eq!(next_backoff(128), None);
}
