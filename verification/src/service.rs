//! The decisions of the serving loop: which answer a request gets, and how
//! long to wait after a failed accept.
use vstd::prelude::*;
use crate::metadata::parser::{batch_views, BatchRecord};
use crate::protocol::{
    api_versions_body, api_versions_for, describe_body, describe_for, framed, read_topic_names,
    ApiVersionsResponse, DescribeTopicPartitionResponse, Error, Request,
};

verus! {

/// Why a request got no answer.
#[derive(Debug, Clone, PartialEq, Eq)]
pub enum HandlerError {
    /// The request's API key is neither 18 nor 75.
    UnsupportedApiKey(i16),
    /// The request could not be read.
    Protocol(Error),
}

/// The answer on the wire to a request: `ApiVersions` for key 18,
/// `DescribeTopicPartitions` over the metadata log for key 75; other keys
/// are refused.
pub fn handle_request(request: &Request, metadata: &[BatchRecord]) -> (r: Result<Vec<u8>, HandlerError>)
    ensures
        request.header.request_api_key == 18 ==> (r matches Ok(out)
            && out@ == framed(api_versions_body(api_versions_for(request@)))),
        request.header.request_api_key == 75 ==> match read_topic_names(request.body@) {
            Ok(names) => r matches Ok(out) && out@ == framed(
                describe_body(describe_for(request.header.correlation_id, names, batch_views(metadata@))),
            ),
            Err(f) => r matches Err(HandlerError::Protocol(e)) && e@ == f,
        },
        request.header.request_api_key != 18 && request.header.request_api_key != 75 ==> r
            == Err::<Vec<u8>, HandlerError>(HandlerError::UnsupportedApiKey(request.header.request_api_key)),
{
    match request.header.request_api_key {
        18 => {
            let response = ApiVersionsResponse::from_request(request);
            Ok(response.serialize())
        },
        75 => {
            let response = match DescribeTopicPartitionResponse::from_request(request, metadata) {
                Ok(response) => response,
                Err(e) => return Err(HandlerError::Protocol(e)),
            };
            Ok(response.serialize())
        },
        key => Err(HandlerError::UnsupportedApiKey(key)),
    }
}

/// The wait before the next accept after one that failed after waiting
/// `backoff` seconds: double it, or give up once it is above 64.
pub fn next_backoff(backoff: u64) -> (r: Option<u64>)
    ensures
        backoff > 64 ==> r is None,
        backoff <= 64 ==> r == Some((backoff * 2) as u64),
{
    if backoff > 64 {
        None
    } else {
        Some(backoff * 2)
    }
}

} // verus!
