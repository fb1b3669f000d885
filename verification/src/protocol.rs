//! Requests and the responses the broker gives: `ApiVersions`,
//! `DescribeTopicPartitions` and `Fetch`, with their wire encodings.
use vstd::prelude::*;
use crate::message::version_error_code;
use crate::metadata::parser::{
    after, batch_views, find_partitions, find_topic, first_topic_named, log_records, partitions_of, BatchRecord,
    BatchView, PartitionRecordView,
};
use crate::sorting::{
    lemma_insert_stable_at, lemma_sort_stable_permutation, lemma_sort_stable_sorted, sort_stable,
    sorted_by, strict_weak_order,
};
use crate::text::{
    bytes_lt, lemma_lex_asymmetric, lemma_lex_total, lemma_lex_transitive, lex_lt, lossy_utf8, utf8_lossy,
};
use vstd::utf8::encode_utf8;
use crate::wire::{
    chain, left_at, read_u8_at, skip_at, push_bytes, push_i16_be, push_i32_be, push_u32_be, read_i16_at, read_i32_at,
    i16_be, i32_be, u32_be, ByteCursor, Fault,
};

verus! {

/// The header fields that follow the size of a request.
#[derive(Debug, Clone, Copy, PartialEq, Eq)]
pub struct RequestHeader {
    pub request_api_key: i16,
    pub request_api_version: i16,
    pub correlation_id: i32,
}

/// A request: its size, header and the bytes of its body.
#[derive(Debug, Clone, PartialEq, Eq)]
pub struct Request {
    pub message_size: i32,
    pub header: RequestHeader,
    pub body: Vec<u8>,
}

/// An API the broker supports, with its range of versions.
#[derive(Debug, Clone, Copy, PartialEq, Eq)]
pub struct ApiVersion {
    pub api_key: i16,
    pub min_version: i16,
    pub max_version: i16,
}

/// The answer to an `ApiVersions` request.
#[derive(Debug, Clone, PartialEq, Eq)]
pub struct ApiVersionsResponse {
    pub correlation_id: i32,
    pub error_code: i16,
    pub api_keys: Vec<ApiVersion>,
    pub throttle_time_ms: i32,
}

/// One partition of a topic in a response.
#[derive(Debug, Clone, PartialEq, Eq)]
pub struct PartitionResponse {
    pub error_code: i16,
    pub partition_index: i32,
    pub leader_id: i32,
    pub leader_epoch: i32,
    pub replica_nodes: Vec<i32>,
    pub isr_nodes: Vec<i32>,
}

/// One topic in a response.
#[derive(Debug, Clone, PartialEq, Eq)]
pub struct TopicResponse {
    pub error_code: i16,
    pub topic_name: String,
    pub topic_id: [u8; 16],
    pub is_internal: bool,
    pub partitions: Vec<PartitionResponse>,
    pub topic_authorized_operations: i32,
}

/// The answer to a `DescribeTopicPartitions` request.
#[derive(Debug, Clone, PartialEq, Eq)]
pub struct DescribeTopicPartitionResponse {
    pub correlation_id: i32,
    pub throttle_time_ms: i32,
    pub topics: Vec<TopicResponse>,
}

/// The answer to a `Fetch` request.
#[derive(Debug, Clone, PartialEq, Eq)]
pub struct FetchResponse {
    pub correlation_id: i32,
    pub error_code: i16,
    pub throttle_time_ms: i32,
    pub topics: Vec<TopicResponse>,
}

/// Why a request could not be read or answered.
#[derive(Debug, Clone, PartialEq, Eq)]
pub enum Error {
    /// Fewer bytes than the request needs.
    Incomplete,
    /// Any other failure, described in words.
    Other(String),
}

impl View for Error {
    type V = Fault;

    open spec fn view(&self) -> Fault {
        match self {
            Error::Incomplete => Fault::Incomplete,
            Error::Other(m) => Fault::Message(m@),
        }
    }
}

impl Error {
    /// The text the error is shown with.
    pub fn message(&self) -> (s: String)
        ensures
            self is Incomplete ==> s@ == "stream ended early"@,
            self matches Error::Other(m) ==> s@ == m@,
    {
        match self {
            Error::Incomplete => String::from_str("stream ended early"),
            Error::Other(m) => m.clone(),
        }
    }
}

/// A request as a value.
pub struct RequestView {
    pub message_size: i32,
    pub header: RequestHeader,
    pub body: Seq<u8>,
}

impl View for Request {
    type V = RequestView;

    open spec fn view(&self) -> RequestView {
        RequestView { message_size: self.message_size, header: self.header, body: self.body@ }
    }
}

/// An `ApiVersions` answer as a value.
pub struct ApiVersionsView {
    pub correlation_id: i32,
    pub error_code: i16,
    pub api_keys: Seq<ApiVersion>,
    pub throttle_time_ms: i32,
}

impl View for ApiVersionsResponse {
    type V = ApiVersionsView;

    open spec fn view(&self) -> ApiVersionsView {
        ApiVersionsView {
            correlation_id: self.correlation_id,
            error_code: self.error_code,
            api_keys: self.api_keys@,
            throttle_time_ms: self.throttle_time_ms,
        }
    }
}

/// Reading a request at `p`: its size, API key, API version and
/// correlation id, then a body of `size - 8` bytes. A size under 8 is
/// refused once the header is read.
pub open spec fn read_request_at(d: Seq<u8>, p: int) -> (Result<RequestView, Fault>, int) {
    chain(read_i32_at(d, p), |message_size: i32, p1: int|
    chain(read_i16_at(d, p1), |request_api_key: i16, p2: int|
    chain(read_i16_at(d, p2), |request_api_version: i16, p3: int|
    chain(read_i32_at(d, p3), |correlation_id: i32, p4: int|
        if message_size < 8 {
            (Err(Fault::Message("invalid message_size"@)), p4)
        } else if left_at(d, p4) < message_size - 8 {
            (Err(Fault::Incomplete), p4)
        } else {
            (Ok(RequestView {
                message_size,
                header: RequestHeader { request_api_key, request_api_version, correlation_id },
                body: d.subrange(p4, p4 + message_size - 8),
            }), p4 + message_size - 8)
        }))))
}

/// A request result as a value.
pub open spec fn lifted_request(r: Result<Request, Error>) -> Result<RequestView, Fault> {
    match r {
        Ok(req) => Ok(req@),
        Err(e) => Err(e@),
    }
}

impl Request {
    /// Reads one request at the cursor.
    pub fn parse(src: &mut ByteCursor) -> (r: Result<Self, Error>)
        ensures
            final(src).data == old(src).data,
            (lifted_request(r), final(src).pos as int) == read_request_at(old(src).data@, old(src).pos as int),
    {
        let message_size = get_i32(src)?;
        let request_api_key = get_i16(src)?;
        let request_api_version = get_i16(src)?;
        let correlation_id = get_i32(src)?;

        if message_size < 8 {
            return Err(Error::Other(String::from_str("invalid message_size")));
        }
        let remaining = (message_size - 8) as usize;
        if src.remaining() < remaining {
            return Err(Error::Incomplete);
        }
        let ghost d = src.data@;
        let ghost p4 = src.pos as int;
        let body = crate::wire::copy_range(src.chunk(), 0, remaining);
        assert(body@ =~= d.subrange(p4, p4 + remaining));
        src.advance(body.len());

        Ok(Request {
            message_size,
            header: RequestHeader { request_api_key, request_api_version, correlation_id },
            body,
        })
    }

    /// The correlation id the answer must carry.
    pub fn correlation_id(&self) -> (c: i32)
        ensures
            c == self.header.correlation_id,
    {
        self.header.correlation_id
    }
}

/// The APIs the broker announces: `ApiVersions` (key 18) up to version 4,
/// `DescribeTopicPartitions` (key 75) at version 0, and `Fetch` (key 1) up
/// to version 16.
pub open spec fn supported_api_keys() -> Seq<ApiVersion> {
    seq![
        ApiVersion { api_key: 18, min_version: 0, max_version: 4 },
        ApiVersion { api_key: 75, min_version: 0, max_version: 0 },
        ApiVersion { api_key: 1, min_version: 0, max_version: 16 },
    ]
}

/// The `ApiVersions` answer to a request: its correlation id, error code 35
/// for versions above 4, the supported APIs, no throttling.
pub open spec fn api_versions_for(req: RequestView) -> ApiVersionsView {
    ApiVersionsView {
        correlation_id: req.header.correlation_id,
        error_code: version_error_code(req.header.request_api_version as int),
        api_keys: supported_api_keys(),
        throttle_time_ms: 0,
    }
}

/// The byte that gives the length `n` of a compact array or string: `n + 1`,
/// both taken modulo 256.
pub open spec fn compact_count(n: int) -> u8 {
    ((n % 256 + 1) % 256) as u8
}

/// The entries of the supported-API list: key, lowest and highest version,
/// and an empty tag buffer for each.
pub open spec fn api_entries(keys: Seq<ApiVersion>) -> Seq<u8>
    decreases keys.len(),
{
    if keys.len() == 0 {
        seq![]
    } else {
        let k = keys.last();
        api_entries(keys.drop_last()) + i16_be(k.api_key as int) + i16_be(k.min_version as int)
            + i16_be(k.max_version as int) + seq![0u8]
    }
}

/// The body of an `ApiVersions` answer: correlation id, error code, the
/// compact list of APIs, throttle time and an empty tag buffer.
pub open spec fn api_versions_body(r: ApiVersionsView) -> Seq<u8> {
    i32_be(r.correlation_id as int) + i16_be(r.error_code as int) + seq![compact_count(r.api_keys.len() as int)]
        + api_entries(r.api_keys) + i32_be(r.throttle_time_ms as int) + seq![0u8]
}

/// A message on the wire: the length of the body as a 32-bit integer
/// (modulo `2^32`), then the body.
pub open spec fn framed(body: Seq<u8>) -> Seq<u8> {
    u32_be(body.len() as int) + body
}

/// The first four bytes of a framed message give the length of the rest.
pub proof fn lemma_framed_length(body: Seq<u8>)
    requires
        body.len() < 0x8000_0000,
    ensures
        framed(body).len() == body.len() + 4,
        crate::wire::signed32(crate::wire::be_u32_at(framed(body), 0)) == framed(body).len() - 4,
        framed(body).subrange(4, framed(body).len() as int) == body,
{
    crate::wire::lemma_u32_roundtrip(body.len() as int);
    assert(framed(body).subrange(4, framed(body).len() as int) =~= body);
}

/// The byte that gives the length `n` of a compact field.
fn compact_count_byte(n: usize) -> (b: u8)
    ensures
        b == compact_count(n as int),
{
    ((n % 256) as u8).wrapping_add(1)
}

/// The body with its length in front.
fn frame_message(body: Vec<u8>) -> (msg: Vec<u8>)
    ensures
        msg@ == framed(body@),
{
    let mut msg: Vec<u8> = Vec::new();
    push_u32_be(&mut msg, (body.len() as u64 % 0x1_0000_0000) as u32);
    push_bytes(&mut msg, body.as_slice());
    msg
}

impl ApiVersionsResponse {
    /// The answer to an `ApiVersions` request.
    pub fn from_request(req: &Request) -> (r: Self)
        ensures
            r@ == api_versions_for(req@),
    {
        let error_code = if req.header.request_api_version > 4 {
            35
        } else {
            0
        };

        let mut api_keys: Vec<ApiVersion> = Vec::new();
        api_keys.push(ApiVersion { api_key: 18, min_version: 0, max_version: 4 });
        api_keys.push(ApiVersion { api_key: 75, min_version: 0, max_version: 0 });
        api_keys.push(ApiVersion { api_key: 1, min_version: 0, max_version: 16 });
        assert(api_keys@ =~= supported_api_keys());

        ApiVersionsResponse { correlation_id: req.header.correlation_id, error_code, api_keys, throttle_time_ms: 0 }
    }

    /// The answer on the wire, length first.
    pub fn serialize(&self) -> (msg: Vec<u8>)
        ensures
            msg@ == framed(api_versions_body(self@)),
    {
        let mut body: Vec<u8> = Vec::new();

        push_i32_be(&mut body, self.correlation_id);
        push_i16_be(&mut body, self.error_code);
        body.push(compact_count_byte(self.api_keys.len()));
        let ghost head = body@;

        let mut i: usize = 0;
        while i < self.api_keys.len()
            invariant
                i <= self.api_keys@.len(),
                body@ == head + api_entries(self.api_keys@.take(i as int)),
            decreases self.api_keys@.len() - i,
        {
            let api = self.api_keys[i];
            push_i16_be(&mut body, api.api_key);
            push_i16_be(&mut body, api.min_version);
            push_i16_be(&mut body, api.max_version);
            body.push(0);
            assert(self.api_keys@.take(i + 1).drop_last() =~= self.api_keys@.take(i as int));
            i = i + 1;
        }
        assert(self.api_keys@.take(self.api_keys@.len() as int) =~= self.api_keys@);

        push_i32_be(&mut body, self.throttle_time_ms);
        body.push(0);

        frame_message(body)
    }
}

/// A partition in a response, as a value.
pub struct PartitionResponseView {
    pub error_code: i16,
    pub partition_index: i32,
    pub leader_id: i32,
    pub leader_epoch: i32,
    pub replica_nodes: Seq<i32>,
    pub isr_nodes: Seq<i32>,
}

/// A topic in a response, as a value.
pub struct TopicResponseView {
    pub error_code: i16,
    pub topic_name: Seq<char>,
    pub topic_id: Seq<u8>,
    pub is_internal: bool,
    pub partitions: Seq<PartitionResponseView>,
    pub topic_authorized_operations: i32,
}

/// A `DescribeTopicPartitions` answer as a value.
pub struct DescribeTopicPartitionView {
    pub correlation_id: i32,
    pub throttle_time_ms: i32,
    pub topics: Seq<TopicResponseView>,
}

/// A `Fetch` answer as a value.
pub struct FetchView {
    pub correlation_id: i32,
    pub error_code: i16,
    pub throttle_time_ms: i32,
    pub topics: Seq<TopicResponseView>,
}

impl View for PartitionResponse {
    type V = PartitionResponseView;

    open spec fn view(&self) -> PartitionResponseView {
        PartitionResponseView {
            error_code: self.error_code,
            partition_index: self.partition_index,
            leader_id: self.leader_id,
            leader_epoch: self.leader_epoch,
            replica_nodes: self.replica_nodes@,
            isr_nodes: self.isr_nodes@,
        }
    }
}

/// The values of a list of partitions.
pub open spec fn partition_views(v: Seq<PartitionResponse>) -> Seq<PartitionResponseView> {
    v.map_values(|p: PartitionResponse| p@)
}

impl View for TopicResponse {
    type V = TopicResponseView;

    open spec fn view(&self) -> TopicResponseView {
        TopicResponseView {
            error_code: self.error_code,
            topic_name: self.topic_name@,
            topic_id: self.topic_id@,
            is_internal: self.is_internal,
            partitions: partition_views(self.partitions@),
            topic_authorized_operations: self.topic_authorized_operations,
        }
    }
}

/// The values of a list of topics.
pub open spec fn topic_views(v: Seq<TopicResponse>) -> Seq<TopicResponseView> {
    v.map_values(|t: TopicResponse| t@)
}

impl View for DescribeTopicPartitionResponse {
    type V = DescribeTopicPartitionView;

    open spec fn view(&self) -> DescribeTopicPartitionView {
        DescribeTopicPartitionView {
            correlation_id: self.correlation_id,
            throttle_time_ms: self.throttle_time_ms,
            topics: topic_views(self.topics@),
        }
    }
}

impl View for FetchResponse {
    type V = FetchView;

    open spec fn view(&self) -> FetchView {
        FetchView {
            correlation_id: self.correlation_id,
            error_code: self.error_code,
            throttle_time_ms: self.throttle_time_ms,
            topics: topic_views(self.topics@),
        }
    }
}

/// The partition in a response that a partition record gives: no error,
/// its index, leader, leader epoch, replicas and in-sync replicas.
pub open spec fn partition_response_of(p: PartitionRecordView) -> PartitionResponseView {
    PartitionResponseView {
        error_code: 0,
        partition_index: p.partition_id,
        leader_id: p.leader,
        leader_epoch: p.leader_epoch,
        replica_nodes: p.replicas,
        isr_nodes: p.isr,
    }
}

/// Partitions are ordered by their index.
pub open spec fn by_partition_index() -> spec_fn(PartitionResponseView, PartitionResponseView) -> bool {
    |a: PartitionResponseView, b: PartitionResponseView| a.partition_index < b.partition_index
}

/// The answer for a topic the metadata does not know: error 3
/// (UNKNOWN_TOPIC_OR_PARTITION), an id of zeros, no partitions.
pub open spec fn unknown_topic(name: Seq<char>) -> TopicResponseView {
    TopicResponseView {
        error_code: 3,
        topic_name: name,
        topic_id: Seq::new(16, |i: int| 0u8),
        is_internal: false,
        partitions: seq![],
        topic_authorized_operations: 0,
    }
}

/// The answer for the topic named `name` in the log `bs`: unknown when no
/// topic record has that name; otherwise the id of the first such record,
/// its partitions in log order stably sorted by index, and the authorized
/// operations `0x0df8`.
pub open spec fn topic_lookup(name: Seq<char>, bs: Seq<BatchView>) -> TopicResponseView {
    match first_topic_named(log_records(bs), name) {
        None => unknown_topic(name),
        Some(t) => TopicResponseView {
            error_code: 0,
            topic_name: name,
            topic_id: t.topic_id,
            is_internal: false,
            partitions: sort_stable(
                partitions_of(log_records(bs), t.topic_id).map_values(|p: PartitionRecordView| partition_response_of(p)),
                by_partition_index(),
            ),
            topic_authorized_operations: 0x0df8,
        },
    }
}

/// A copy of a list of integers.
fn copy_i32s(v: &Vec<i32>) -> (r: Vec<i32>)
    ensures
        r@ == v@,
{
    let mut r: Vec<i32> = Vec::new();
    let mut i: usize = 0;
    while i < v.len()
        invariant
            i <= v@.len(),
            r@ == v@.take(i as int),
        decreases v@.len() - i,
    {
        r.push(v[i]);
        i = i + 1;
        assert(r@ =~= v@.take(i as int));
    }
    assert(v@.take(v@.len() as int) =~= v@);
    r
}

/// The partitions stably sorted by index.
fn sort_partitions(parts: Vec<PartitionResponse>) -> (r: Vec<PartitionResponse>)
    ensures
        partition_views(r@) == sort_stable(partition_views(parts@), by_partition_index()),
{
    let ghost all = partition_views(parts@);
    let total: usize = parts.len();
    let mut rest = parts;
    let mut out: Vec<PartitionResponse> = Vec::new();
    let mut n: usize = 0;
    while rest.len() > 0
        invariant
            n + rest@.len() == all.len(),
            all.len() == total,
            partition_views(rest@) == all.skip(n as int),
            partition_views(out@) == sort_stable(all.take(n as int), by_partition_index()),
        decreases rest@.len(),
    {
        let ghost old_rest = rest@;
        assert(partition_views(old_rest)[0] == old_rest[0]@);
        let x = rest.remove(0);
        assert(x@ == all[n as int]);
        let mut k: usize = out.len();
        while k > 0 && x.partition_index < out[k - 1].partition_index
            invariant
                k <= out@.len(),
                forall|m: int| k <= m < out@.len() ==> x.partition_index < (#[trigger] out@[m]).partition_index,
            decreases k,
        {
            k = k - 1;
        }
        let ghost sorted_before = partition_views(out@);
        proof {
            lemma_insert_stable_at(sorted_before, x@, by_partition_index(), k as int);
        }
        out.insert(k, x);
        assert(partition_views(out@) =~= sorted_before.insert(k as int, x@));
        assert(all.take(n + 1).drop_last() =~= all.take(n as int));
        n = n + 1;
        assert forall|m: int| 0 <= m < rest@.len() implies partition_views(rest@)[m] == all.skip(n as int)[m] by {
            assert(rest@[m] == old_rest[m + 1]);
            assert(partition_views(old_rest)[m + 1] == all.skip(n - 1)[m + 1]);
        }
        assert(partition_views(rest@) =~= all.skip(n as int));
    }
    assert(all.take(n as int) =~= all);
    out
}

impl TopicResponse {
    /// The answer for a topic the metadata does not know.
    pub fn unknown(topic_name: String) -> (r: Self)
        ensures
            r@ == unknown_topic(topic_name@),
    {
        let r = Self {
            error_code: 3,
            topic_name,
            topic_id: [0u8; 16],
            is_internal: false,
            partitions: Vec::new(),
            topic_authorized_operations: 0,
        };
        assert(r.topic_id@ =~= Seq::new(16, |i: int| 0u8));
        assert(partition_views(r.partitions@) =~= seq![]);
        r
    }

    /// The answer for the topic named `topic_name` in the metadata log.
    pub fn lookup(topic_name: String, metadata: &[BatchRecord]) -> (r: Self)
        ensures
            r@ == topic_lookup(topic_name@, batch_views(metadata@)),
    {
        let topic = match find_topic(metadata, topic_name.as_str()) {
            Some(topic) => topic,
            None => return Self::unknown(topic_name),
        };
        let found = find_partitions(metadata, &topic.topic_id);
        let ghost records = log_records(batch_views(metadata@));
        let ghost wanted = partitions_of(records, topic.topic_id@)
            .map_values(|p: PartitionRecordView| partition_response_of(p));

        let mut partitions: Vec<PartitionResponse> = Vec::new();
        let mut i: usize = 0;
        while i < found.len()
            invariant
                i <= found@.len(),
                wanted.len() == found@.len(),
                forall|m: int| 0 <= m < found@.len() ==> wanted[m] == partition_response_of((#[trigger] found@[m])@),
                partition_views(partitions@) == wanted.take(i as int),
            decreases found@.len() - i,
        {
            let partition = found[i];
            assert(wanted[i as int] == partition_response_of(found@[i as int]@));
            let response = PartitionResponse {
                error_code: 0,
                partition_index: partition.partition_id,
                leader_id: partition.leader,
                leader_epoch: partition.leader_epoch,
                replica_nodes: copy_i32s(&partition.replicas),
                isr_nodes: copy_i32s(&partition.isr),
            };
            assert(response@ == wanted[i as int]);
            let ghost before = partitions@;
            let ghost added = response@;
            partitions.push(response);
            assert(partition_views(partitions@) =~= partition_views(before).push(added));
            assert(wanted.take(i + 1) =~= wanted.take(i as int).push(wanted[i as int]));
            i = i + 1;
            assert(partition_views(partitions@) =~= wanted.take(i as int));
        }
        assert(wanted.take(found@.len() as int) =~= wanted);
        let partitions = sort_partitions(partitions);

        Self {
            error_code: 0,
            topic_name,
            topic_id: topic.topic_id,
            is_internal: false,
            partitions,
            topic_authorized_operations: 0x0000_0df8,
        }
    }
}

/// Reading one requested topic name at `p`: a length byte (the length plus
/// one; zero is refused), the name's bytes made a string with invalid
/// UTF-8 replaced, and a tag byte.
pub open spec fn read_topic_name_at(d: Seq<u8>, p: int) -> (Result<Seq<char>, Fault>, int) {
    chain(
        read_u8_at(d, p),
        |name_len: u8, p1: int|
            if name_len == 0 {
                (Err(Fault::Message("null topic name"@)), p1)
            } else if left_at(d, p1) < name_len - 1 {
                (Err(Fault::Incomplete), p1)
            } else {
                let name = lossy_utf8(d.subrange(p1, p1 + name_len - 1));
                chain(read_u8_at(d, p1 + name_len - 1), |_tag: u8, p2: int| (Ok(name), p2))
            },
    )
}

/// Reading `count` requested topic names at `p`.
pub open spec fn read_names_at(d: Seq<u8>, p: int, count: nat) -> (Result<Seq<Seq<char>>, Fault>, int)
    decreases count,
{
    if count == 0 {
        (Ok(seq![]), p)
    } else {
        let (first, q) = read_topic_name_at(d, p);
        match first {
            Err(e) => (Err(e), q),
            Ok(name) => {
                let (rest, q2) = read_names_at(d, q, (count - 1) as nat);
                match rest {
                    Ok(s) => (Ok(seq![name] + s), q2),
                    Err(e) => (Err(e), q2),
                }
            },
        }
    }
}

/// The topic names a `DescribeTopicPartitions` request body asks for: a
/// client id (its length, then the bytes when the length is positive), a
/// tag byte, the number of topics plus one (zero and one are refused), and
/// the names.
pub open spec fn read_topic_names(d: Seq<u8>) -> Result<Seq<Seq<char>>, Fault> {
    chain(read_i16_at(d, 0), |client_id_len: i16, p1: int|
    chain(
        if client_id_len > 0 { skip_at(d, p1, client_id_len as int) } else { (Ok(()), p1) },
        |_client_id: (), p2: int|
    chain(read_u8_at(d, p2), |_tag: u8, p3: int|
    chain(read_u8_at(d, p3), |topics_len: u8, p4: int|
        if topics_len == 0 {
            (Err(Fault::Message("empty topics array"@)), p4)
        } else if topics_len == 1 {
            (Err(Fault::Message("no topics requested"@)), p4)
        } else {
            read_names_at(d, p4, (topics_len - 1) as nat)
        })))).0
}

/// The values of a list of strings.
pub open spec fn string_views(v: Seq<String>) -> Seq<Seq<char>> {
    v.map_values(|s: String| s@)
}

/// Names are ordered as `String` orders them: by their UTF-8 bytes,
/// lexicographically.
pub open spec fn by_name() -> spec_fn(Seq<char>, Seq<char>) -> bool {
    |a: Seq<char>, b: Seq<char>| lex_lt(encode_utf8(a), encode_utf8(b))
}

/// The `DescribeTopicPartitions` answer for the names `names` asked by a
/// request with correlation id `correlation_id`: the names in order, each
/// looked up in the log `bs`.
pub open spec fn describe_for(correlation_id: i32, names: Seq<Seq<char>>, bs: Seq<BatchView>) -> DescribeTopicPartitionView {
    DescribeTopicPartitionView {
        correlation_id,
        throttle_time_ms: 0,
        topics: sort_stable(names, by_name()).map_values(|n: Seq<char>| topic_lookup(n, bs)),
    }
}

/// Big-endian encodings of a list of integers, one after another.
pub open spec fn i32s_be(v: Seq<i32>) -> Seq<u8>
    decreases v.len(),
{
    if v.len() == 0 {
        seq![]
    } else {
        i32s_be(v.drop_last()) + i32_be(v.last() as int)
    }
}

/// A compact array of integers: its length byte, then the values.
pub open spec fn compact_i32_array_bytes(v: Seq<i32>) -> Seq<u8> {
    seq![compact_count(v.len() as int)] + i32s_be(v)
}

/// A partition on the wire: error code, index, leader, leader epoch,
/// replicas, in-sync replicas, three empty arrays (eligible leader
/// replicas, last known ELR, offline replicas) and an empty tag buffer.
pub open spec fn partition_bytes(p: PartitionResponseView) -> Seq<u8> {
    i16_be(p.error_code as int) + i32_be(p.partition_index as int) + i32_be(p.leader_id as int)
        + i32_be(p.leader_epoch as int) + compact_i32_array_bytes(p.replica_nodes)
        + compact_i32_array_bytes(p.isr_nodes) + compact_i32_array_bytes(seq![])
        + compact_i32_array_bytes(seq![]) + compact_i32_array_bytes(seq![]) + seq![0u8]
}

/// Partitions on the wire, one after another.
pub open spec fn partitions_bytes(ps: Seq<PartitionResponseView>) -> Seq<u8>
    decreases ps.len(),
{
    if ps.len() == 0 {
        seq![]
    } else {
        partitions_bytes(ps.drop_last()) + partition_bytes(ps.last())
    }
}

/// A topic on the wire: error code, compact name, id, internal flag,
/// compact list of partitions, authorized operations and an empty tag
/// buffer.
pub open spec fn topic_bytes(t: TopicResponseView) -> Seq<u8> {
    i16_be(t.error_code as int) + seq![compact_count(encode_utf8(t.topic_name).len() as int)]
        + encode_utf8(t.topic_name) + t.topic_id + seq![if t.is_internal { 1u8 } else { 0u8 }]
        + seq![compact_count(t.partitions.len() as int)] + partitions_bytes(t.partitions)
        + i32_be(t.topic_authorized_operations as int) + seq![0u8]
}

/// Topics on the wire, one after another.
pub open spec fn topics_bytes(ts: Seq<TopicResponseView>) -> Seq<u8>
    decreases ts.len(),
{
    if ts.len() == 0 {
        seq![]
    } else {
        topics_bytes(ts.drop_last()) + topic_bytes(ts.last())
    }
}

/// The body of a `DescribeTopicPartitions` answer: correlation id, an
/// empty tag buffer, throttle time, the compact list of topics, a null
/// next cursor (`0xff`) and an empty tag buffer.
pub open spec fn describe_body(r: DescribeTopicPartitionView) -> Seq<u8> {
    i32_be(r.correlation_id as int) + seq![0u8] + i32_be(r.throttle_time_ms as int)
        + seq![compact_count(r.topics.len() as int)] + topics_bytes(r.topics) + seq![0xffu8, 0u8]
}

/// The body of a `Fetch` answer: correlation id, an empty tag buffer, error
/// code, throttle time, session id 0, the compact list of topics and an
/// empty tag buffer.
pub open spec fn fetch_body(r: FetchView) -> Seq<u8> {
    i32_be(r.correlation_id as int) + seq![0u8] + i16_be(r.error_code as int) + i32_be(r.throttle_time_ms as int)
        + i32_be(0) + seq![compact_count(r.topics.len() as int)] + topics_bytes(r.topics) + seq![0u8]
}

/// The `Fetch` answer to a request: its correlation id, no error, no
/// throttling, no topics.
pub open spec fn fetch_for(req: RequestView) -> FetchView {
    FetchView { correlation_id: req.header.correlation_id, error_code: 0, throttle_time_ms: 0, topics: seq![] }
}

/// Appends a compact array of integers: its length byte, then the values.
fn put_compact_i32_array(body: &mut Vec<u8>, values: &[i32])
    ensures
        final(body)@ == old(body)@ + compact_i32_array_bytes(values@),
{
    body.push(compact_count_byte(values.len()));
    let ghost head = body@;
    let mut i: usize = 0;
    while i < values.len()
        invariant
            i <= values@.len(),
            head == old(body)@ + seq![compact_count(values@.len() as int)],
            body@ == head + i32s_be(values@.take(i as int)),
        decreases values@.len() - i,
    {
        push_i32_be(body, values[i]);
        assert(values@.take(i + 1).drop_last() =~= values@.take(i as int));
        i = i + 1;
    }
    assert(values@.take(values@.len() as int) =~= values@);
}

/// Appends a partition.
fn put_partition(body: &mut Vec<u8>, partition: &PartitionResponse)
    ensures
        final(body)@ == old(body)@ + partition_bytes(partition@),
{
    push_i16_be(body, partition.error_code);
    push_i32_be(body, partition.partition_index);
    push_i32_be(body, partition.leader_id);
    push_i32_be(body, partition.leader_epoch);
    put_compact_i32_array(body, partition.replica_nodes.as_slice());
    put_compact_i32_array(body, partition.isr_nodes.as_slice());
    let empty: Vec<i32> = Vec::new();
    put_compact_i32_array(body, empty.as_slice());
    put_compact_i32_array(body, empty.as_slice());
    put_compact_i32_array(body, empty.as_slice());
    body.push(0);
    assert(empty@ =~= Seq::<i32>::empty());
}

/// Appends a topic.
fn put_topic(body: &mut Vec<u8>, topic: &TopicResponse)
    ensures
        final(body)@ == old(body)@ + topic_bytes(topic@),
{
    push_i16_be(body, topic.error_code);

    let name_bytes = topic.topic_name.as_str().as_bytes();
    body.push(compact_count_byte(name_bytes.len()));
    push_bytes(body, name_bytes);

    push_bytes(body, topic.topic_id.as_slice());

    body.push(if topic.is_internal { 1 } else { 0 });

    body.push(compact_count_byte(topic.partitions.len()));
    let ghost head = body@;
    let ghost parts = partition_views(topic.partitions@);
    let mut i: usize = 0;
    while i < topic.partitions.len()
        invariant
            i <= topic.partitions@.len(),
            parts == partition_views(topic.partitions@),
            body@ == head + partitions_bytes(parts.take(i as int)),
        decreases topic.partitions@.len() - i,
    {
        put_partition(body, &topic.partitions[i]);
        assert(parts.take(i + 1).drop_last() =~= parts.take(i as int));
        i = i + 1;
    }
    assert(parts.take(parts.len() as int) =~= parts);

    push_i32_be(body, topic.topic_authorized_operations);
    body.push(0);
}

/// Appends topics one after another.
fn put_topics(body: &mut Vec<u8>, topics: &Vec<TopicResponse>)
    ensures
        final(body)@ == old(body)@ + topics_bytes(topic_views(topics@)),
{
    let ghost ts = topic_views(topics@);
    let mut i: usize = 0;
    while i < topics.len()
        invariant
            i <= topics@.len(),
            ts == topic_views(topics@),
            body@ == old(body)@ + topics_bytes(ts.take(i as int)),
        decreases topics@.len() - i,
    {
        put_topic(body, &topics[i]);
        assert(ts.take(i + 1).drop_last() =~= ts.take(i as int));
        i = i + 1;
    }
    assert(ts.take(ts.len() as int) =~= ts);
}

impl DescribeTopicPartitionResponse {
    /// The answer on the wire, length first.
    pub fn serialize(&self) -> (msg: Vec<u8>)
        ensures
            msg@ == framed(describe_body(self@)),
    {
        let mut body: Vec<u8> = Vec::new();

        push_i32_be(&mut body, self.correlation_id);
        body.push(0);

        push_i32_be(&mut body, self.throttle_time_ms);

        body.push(compact_count_byte(self.topics.len()));
        put_topics(&mut body, &self.topics);

        body.push(0xFF);
        body.push(0);

        frame_message(body)
    }
}

impl FetchResponse {
    /// The answer to a `Fetch` request: no error and no topics.
    pub fn from_request(request: &Request) -> (r: Self)
        ensures
            r@ == fetch_for(request@),
    {
        let r = Self { correlation_id: request.correlation_id(), error_code: 0, throttle_time_ms: 0, topics: Vec::new() };
        assert(topic_views(r.topics@) =~= seq![]);
        r
    }

    /// The answer on the wire, length first.
    pub fn serialize(&self) -> (msg: Vec<u8>)
        ensures
            msg@ == framed(fetch_body(self@)),
    {
        let mut body: Vec<u8> = Vec::new();

        push_i32_be(&mut body, self.correlation_id);
        body.push(0);
        push_i16_be(&mut body, self.error_code);

        push_i32_be(&mut body, self.throttle_time_ms);
        let session_id: i32 = 0;
        push_i32_be(&mut body, session_id);
        body.push(compact_count_byte(self.topics.len()));
        put_topics(&mut body, &self.topics);

        body.push(0);

        frame_message(body)
    }
}

/// Bytes 4 to 8 of a framed message are bytes 0 to 4 of its body.
proof fn lemma_framed_field(body: Seq<u8>, k: int)
    requires
        0 <= k,
        k + 4 <= body.len(),
    ensures
        crate::wire::be_u32_at(framed(body), 4 + k) == crate::wire::be_u32_at(body, k),
        crate::wire::be_u16_at(framed(body), 4 + k) == crate::wire::be_u16_at(body, k),
{
    assert(framed(body)[4 + k] == body[k]);
    assert(framed(body)[5 + k] == body[k + 1]);
    assert(framed(body)[6 + k] == body[k + 2]);
    assert(framed(body)[7 + k] == body[k + 3]);
}

/// A request's answer starts with the request's correlation id: the four
/// bytes after the length of an `ApiVersions` answer decode to the
/// correlation id of the request, and the two after them to the error code,
/// 35 exactly when the request's version is above 4.
pub proof fn law_api_versions_answer(req: RequestView)
    ensures
        ({
            let out = framed(api_versions_body(api_versions_for(req)));
            &&& crate::wire::signed32(crate::wire::be_u32_at(out, 4)) == req.header.correlation_id
            &&& crate::wire::signed16(crate::wire::be_u16_at(out, 8)) == if req.header.request_api_version > 4 {
                35int
            } else {
                0int
            }
        }),
{
    let r = api_versions_for(req);
    let body = api_versions_body(r);
    crate::wire::lemma_i32_roundtrip(r.correlation_id);
    crate::wire::lemma_i16_roundtrip(r.error_code);
    let head = i32_be(r.correlation_id as int);
    let err = i16_be(r.error_code as int);
    assert(body[0] == head[0] && body[1] == head[1] && body[2] == head[2] && body[3] == head[3]);
    assert(body[4] == err[0] && body[5] == err[1]);
    lemma_framed_field(body, 0);
    lemma_framed_field(body, 4);
}

/// The four bytes after the length of a `DescribeTopicPartitions` answer
/// decode to the correlation id it answers.
pub proof fn law_describe_answer_correlation(correlation_id: i32, names: Seq<Seq<char>>, bs: Seq<BatchView>)
    ensures
        crate::wire::signed32(crate::wire::be_u32_at(framed(describe_body(describe_for(correlation_id, names, bs))), 4))
            == correlation_id,
{
    let body = describe_body(describe_for(correlation_id, names, bs));
    crate::wire::lemma_i32_roundtrip(correlation_id);
    let head = i32_be(correlation_id as int);
    assert(body[0] == head[0] && body[1] == head[1] && body[2] == head[2] && body[3] == head[3]);
    lemma_framed_field(body, 0);
}

/// The four bytes after the length of a `Fetch` answer decode to the
/// correlation id of the request.
pub proof fn law_fetch_answer_correlation(req: RequestView)
    ensures
        crate::wire::signed32(crate::wire::be_u32_at(framed(fetch_body(fetch_for(req))), 4)) == req.header.correlation_id,
{
    let body = fetch_body(fetch_for(req));
    crate::wire::lemma_i32_roundtrip(req.header.correlation_id);
    let head = i32_be(req.header.correlation_id as int);
    assert(body[0] == head[0] && body[1] == head[1] && body[2] == head[2] && body[3] == head[3]);
    lemma_framed_field(body, 0);
}

/// A request laid out as its size, API key, API version, correlation id
/// and body is read back as those fields, taking all of its bytes.
pub proof fn law_request_read_back(key: i16, version: i16, correlation_id: i32, body: Seq<u8>)
    requires
        body.len() + 8 <= i32::MAX,
    ensures
        ({
            let size = body.len() + 8int;
            let d = i32_be(size) + i16_be(key as int) + i16_be(version as int) + i32_be(correlation_id as int)
                + body;
            read_request_at(d, 0) == (Ok::<RequestView, Fault>(RequestView {
                message_size: size as i32,
                header: RequestHeader { request_api_key: key, request_api_version: version, correlation_id },
                body,
            }), d.len() as int)
        }),
{
    let size = body.len() + 8int;
    let a = i32_be(size);
    let b = i16_be(key as int);
    let c = i16_be(version as int);
    let e = i32_be(correlation_id as int);
    let d = a + b + c + e + body;
    crate::wire::lemma_i32_roundtrip(size as i32);
    crate::wire::lemma_i16_roundtrip(key);
    crate::wire::lemma_i16_roundtrip(version);
    crate::wire::lemma_i32_roundtrip(correlation_id);
    assert(d[0] == a[0] && d[1] == a[1] && d[2] == a[2] && d[3] == a[3]);
    assert(d[4] == b[0] && d[5] == b[1]);
    assert(d[6] == c[0] && d[7] == c[1]);
    assert(d[8] == e[0] && d[9] == e[1] && d[10] == e[2] && d[11] == e[3]);
    assert(crate::wire::be_u32_at(d, 0) == crate::wire::be_u32_at(a, 0));
    assert(crate::wire::be_u16_at(d, 4) == crate::wire::be_u16_at(b, 0));
    assert(crate::wire::be_u16_at(d, 6) == crate::wire::be_u16_at(c, 0));
    assert(crate::wire::be_u32_at(d, 8) == crate::wire::be_u32_at(e, 0));
    assert(d.subrange(12, 12 + size - 8) =~= body);
}

/// A request that is read takes its four-byte size and then exactly as
/// many bytes as the size says.
pub proof fn law_request_takes_its_size(d: Seq<u8>, p: int)
    requires
        0 <= p,
    ensures
        read_request_at(d, p).0 matches Ok(r) ==> read_request_at(d, p).1 == p + 4 + r.message_size
            && r.body.len() == r.message_size - 8,
{
}

/// Bytes that follow a request that was read change nothing in how it is
/// read: a request followed by the start of the next one reads as it
/// would alone, and stops at the same place.
pub proof fn law_request_ignores_what_follows(d: Seq<u8>, tail: Seq<u8>, p: int)
    requires
        0 <= p,
        read_request_at(d, p).0 is Ok,
    ensures
        read_request_at(d + tail, p) == read_request_at(d, p),
{
    let e = d + tail;
    assert(p + 12 <= d.len());
    assert forall|i: int| 0 <= i < d.len() implies e[i] == d[i] by {}
    assert(crate::wire::be_u32_at(e, p) == crate::wire::be_u32_at(d, p));
    assert(crate::wire::be_u16_at(e, p + 4) == crate::wire::be_u16_at(d, p + 4));
    assert(crate::wire::be_u16_at(e, p + 6) == crate::wire::be_u16_at(d, p + 6));
    assert(crate::wire::be_u32_at(e, p + 8) == crate::wire::be_u32_at(d, p + 8));
    assert(read_i32_at(e, p) == read_i32_at(d, p));
    assert(read_i16_at(e, p + 4) == read_i16_at(d, p + 4));
    assert(read_i16_at(e, p + 6) == read_i16_at(d, p + 6));
    assert(read_i32_at(e, p + 8) == read_i32_at(d, p + 8));
    let size = read_i32_at(d, p).0->Ok_0;
    assert(left_at(e, p + 12) >= left_at(d, p + 12));
    assert(e.subrange(p + 12, p + 12 + size - 8) =~= d.subrange(p + 12, p + 12 + size - 8));
}

/// Every `ApiVersions` answer, whatever the request's version, lists the
/// same three APIs: `ApiVersions` (18) from version 0 to 4,
/// `DescribeTopicPartitions` (75) at version 0 and `Fetch` (1) from version
/// 0 to 16; it answers the request's correlation id, with error code 35
/// exactly for versions above 4, and no throttling.
pub proof fn law_api_versions_keys(req: RequestView)
    ensures
        api_versions_for(req).api_keys == seq![
            ApiVersion { api_key: 18, min_version: 0, max_version: 4 },
            ApiVersion { api_key: 75, min_version: 0, max_version: 0 },
            ApiVersion { api_key: 1, min_version: 0, max_version: 16 },
        ],
        api_versions_for(req).correlation_id == req.header.correlation_id,
        api_versions_for(req).error_code == (if req.header.request_api_version > 4 { 35i16 } else { 0i16 }),
        api_versions_for(req).throttle_time_ms == 0,
{
}

/// The integers of a list, last appended last, are the same bytes as
/// written first to last.
proof fn lemma_i32s_be_in_order(v: Seq<i32>)
    ensures
        i32s_be(v) == crate::metadata::parser::be_i32s(v),
    decreases v.len(),
{
    if v.len() == 0 {
        assert(crate::metadata::parser::be_i32s(v) =~= Seq::<u8>::empty());
    } else {
        lemma_i32s_be_in_order(v.drop_last());
        crate::metadata::parser::lemma_be_i32s_push(v.drop_last(), v.last());
        assert(v.drop_last().push(v.last()) =~= v);
    }
}

/// A compact array of fewer than 127 integers is a one-byte varint count
/// plus one, then the integers: what a compact-array reader expects.
proof fn lemma_compact_array_is_varint_counted(v: Seq<i32>)
    requires
        v.len() < 127,
    ensures
        compact_i32_array_bytes(v) == crate::metadata::parser::compact_i32s_bytes(v),
{
    lemma_i32s_be_in_order(v);
    assert(compact_count(v.len() as int) == v.len() + 1);
    assert(crate::metadata::parser::leb128((v.len() + 1) as nat) =~= seq![compact_count(v.len() as int)]);
}

/// Where the fields of a partition lie in its bytes: error code, index,
/// leader and leader epoch at 0, 2, 6 and 10, the replicas at 14, and the
/// in-sync replicas right after them.
#[verifier::spinoff_prover]
proof fn lemma_partition_bytes_pieces(p: PartitionResponseView)
    ensures
        ({
            let b = partition_bytes(p);
            &&& crate::wire::placed(b, 0, i16_be(p.error_code as int))
            &&& crate::wire::placed(b, 2, i32_be(p.partition_index as int))
            &&& crate::wire::placed(b, 6, i32_be(p.leader_id as int))
            &&& crate::wire::placed(b, 10, i32_be(p.leader_epoch as int))
            &&& crate::wire::placed(b, 14, compact_i32_array_bytes(p.replica_nodes))
            &&& crate::wire::placed(
                b,
                14 + compact_i32_array_bytes(p.replica_nodes).len() as int,
                compact_i32_array_bytes(p.isr_nodes),
            )
        }),
{
    let b = partition_bytes(p);
    let a0 = i16_be(p.error_code as int);
    let a1 = a0 + i32_be(p.partition_index as int);
    let a2 = a1 + i32_be(p.leader_id as int);
    let a3 = a2 + i32_be(p.leader_epoch as int);
    let a4 = a3 + compact_i32_array_bytes(p.replica_nodes);
    let a5 = a4 + compact_i32_array_bytes(p.isr_nodes);
    let rest = compact_i32_array_bytes(seq![]) + compact_i32_array_bytes(seq![]) + compact_i32_array_bytes(seq![])
        + seq![0u8];
    assert(b =~= a5 + rest);
    crate::wire::lemma_i16_roundtrip(p.error_code);
    crate::wire::lemma_i32_roundtrip(p.partition_index);
    crate::wire::lemma_i32_roundtrip(p.leader_id);
    crate::wire::lemma_i32_roundtrip(p.leader_epoch);
    crate::wire::lemma_placed_prefix(b, seq![]);
    assert(b + Seq::<u8>::empty() =~= b);
    crate::wire::lemma_placed_split(b, 0, a5, rest);
    crate::wire::lemma_placed_split(b, 0, a4, compact_i32_array_bytes(p.isr_nodes));
    crate::wire::lemma_placed_split(b, 0, a3, compact_i32_array_bytes(p.replica_nodes));
    crate::wire::lemma_placed_split(b, 0, a2, i32_be(p.leader_epoch as int));
    crate::wire::lemma_placed_split(b, 0, a1, i32_be(p.leader_id as int));
    crate::wire::lemma_placed_split(b, 0, a0, i32_be(p.partition_index as int));
}

/// A partition in an answer is read back field by field: the two bytes at
/// its start decode to its error code, the next four to its index, the
/// next four to its leader, the next four to its leader epoch, and, for
/// fewer than 127 replicas and in-sync replicas, the compact array after
/// them to its replicas and the one after that to its in-sync replicas.
#[verifier::spinoff_prover]
pub proof fn law_partition_bytes_decode(p: PartitionResponseView)
    ensures
        ({
            let b = partition_bytes(p);
            let r = p.replica_nodes.len() as int;
            let n = p.isr_nodes.len() as int;
            &&& read_i16_at(b, 0) == (Ok::<i16, Fault>(p.error_code), 2int)
            &&& read_i32_at(b, 2) == (Ok::<i32, Fault>(p.partition_index), 6int)
            &&& read_i32_at(b, 6) == (Ok::<i32, Fault>(p.leader_id), 10int)
            &&& read_i32_at(b, 10) == (Ok::<i32, Fault>(p.leader_epoch), 14int)
            &&& r < 127 && n < 127 ==> {
                &&& crate::metadata::parser::read_compact_i32_array_at(b, 14)
                    == (Ok::<Seq<i32>, Fault>(p.replica_nodes), 15 + 4 * r)
                &&& crate::metadata::parser::read_compact_i32_array_at(b, 15 + 4 * r)
                    == (Ok::<Seq<i32>, Fault>(p.isr_nodes), 16 + 4 * r + 4 * n)
            }
        }),
{
    lemma_partition_head_decode(p);
    if p.replica_nodes.len() < 127 && p.isr_nodes.len() < 127 {
        lemma_partition_arrays_decode(p);
    }
}

/// The fixed fields at the start of a partition's bytes read back.
#[verifier::spinoff_prover]
proof fn lemma_partition_head_decode(p: PartitionResponseView)
    ensures
        read_i16_at(partition_bytes(p), 0) == (Ok::<i16, Fault>(p.error_code), 2int),
        read_i32_at(partition_bytes(p), 2) == (Ok::<i32, Fault>(p.partition_index), 6int),
        read_i32_at(partition_bytes(p), 6) == (Ok::<i32, Fault>(p.leader_id), 10int),
        read_i32_at(partition_bytes(p), 10) == (Ok::<i32, Fault>(p.leader_epoch), 14int),
{
    let b = partition_bytes(p);
    lemma_partition_bytes_pieces(p);
    crate::wire::lemma_read_i16_placed(b, 0, p.error_code);
    crate::wire::lemma_read_i32_placed(b, 2, p.partition_index);
    crate::wire::lemma_read_i32_placed(b, 6, p.leader_id);
    crate::wire::lemma_read_i32_placed(b, 10, p.leader_epoch);
}

/// The replicas and in-sync replicas of a partition's bytes read back.
#[verifier::spinoff_prover]
proof fn lemma_partition_arrays_decode(p: PartitionResponseView)
    requires
        p.replica_nodes.len() < 127,
        p.isr_nodes.len() < 127,
    ensures
        crate::metadata::parser::read_compact_i32_array_at(partition_bytes(p), 14)
            == (Ok::<Seq<i32>, Fault>(p.replica_nodes), 15 + 4 * (p.replica_nodes.len() as int)),
        crate::metadata::parser::read_compact_i32_array_at(partition_bytes(p), 15 + 4 * (p.replica_nodes.len() as int))
            == (Ok::<Seq<i32>, Fault>(p.isr_nodes), 16 + 4 * (p.replica_nodes.len() as int) + 4 * (p.isr_nodes.len() as int)),
{
    let b = partition_bytes(p);
    let r = p.replica_nodes.len() as int;
    lemma_partition_bytes_pieces(p);
    lemma_compact_array_is_varint_counted(p.replica_nodes);
    lemma_compact_array_is_varint_counted(p.isr_nodes);
    crate::metadata::parser::lemma_be_i32s_len(p.replica_nodes);
    crate::metadata::parser::lemma_be_i32s_len(p.isr_nodes);
    assert(crate::metadata::parser::leb128((r + 1) as nat).len() == 1);
    assert(crate::metadata::parser::leb128((p.isr_nodes.len() + 1) as nat).len() == 1);
    crate::metadata::parser::lemma_read_compact_i32s_placed(b, 14, p.replica_nodes);
    crate::metadata::parser::lemma_read_compact_i32s_placed(b, 15 + 4 * r, p.isr_nodes);
}

/// The length byte of a compact field is the length plus one for lengths
/// below 255.
pub proof fn law_compact_count(n: int)
    requires
        0 <= n < 255,
    ensures
        compact_count(n) == n + 1,
{
}

/// Ordering partitions by index is a strict weak order.
pub proof fn lemma_partition_order()
    ensures
        strict_weak_order(by_partition_index()),
{
}

/// Ordering names as `String` does is a strict weak order.
pub proof fn lemma_name_order()
    ensures
        strict_weak_order(by_name()),
{
    let before = by_name();
    assert forall|a: Seq<char>, b: Seq<char>| #[trigger] before(a, b) implies !before(b, a) by {
        lemma_lex_asymmetric(encode_utf8(a), encode_utf8(b));
    }
    assert forall|a: Seq<char>, b: Seq<char>, c: Seq<char>|
        #![trigger before(a, b), before(b, c)]
        #![trigger before(a, b), before(a, c)]
        #![trigger before(b, c), before(a, c)]
        !before(a, b) && !before(b, c) implies !before(a, c) by {
        let (x, y, z) = (encode_utf8(a), encode_utf8(b), encode_utf8(c));
        lemma_lex_total(x, y);
        lemma_lex_total(y, z);
        lemma_lex_transitive(z, y, x);
        lemma_lex_asymmetric(x, z);
    }
}

/// The partitions of a topic in an answer are sorted by index, and are
/// exactly the topic's partition records, each once.
pub proof fn law_topic_partitions_sorted(name: Seq<char>, bs: Seq<BatchView>)
    ensures
        sorted_by(topic_lookup(name, bs).partitions, by_partition_index()),
        topic_lookup(name, bs).topic_name == name,
        first_topic_named(log_records(bs), name) matches Some(t) ==> topic_lookup(name, bs).partitions.to_multiset()
            == partitions_of(log_records(bs), t.topic_id).map_values(
            |p: PartitionRecordView| partition_response_of(p),
        ).to_multiset(),
{
    lemma_partition_order();
    if let Some(t) = first_topic_named(log_records(bs), name) {
        let found = partitions_of(log_records(bs), t.topic_id).map_values(
            |p: PartitionRecordView| partition_response_of(p),
        );
        lemma_sort_stable_sorted(found, by_partition_index());
        lemma_sort_stable_permutation(found, by_partition_index());
    } else {
        assert(sorted_by(unknown_topic(name).partitions, by_partition_index()));
    }
}

/// Each partition record of a known topic shows up in the answer for it
/// with its own fields: the partition with the record's index carries no
/// error, the record's leader and leader epoch, its replicas as
/// `replica_nodes` and its in-sync replicas as `isr_nodes`; and every
/// partition in the answer is such a copy of one of the topic's records.
pub proof fn law_lookup_partition_fields(name: Seq<char>, bs: Seq<BatchView>)
    ensures
        first_topic_named(log_records(bs), name) matches Some(t) ==> ({
            let recs = partitions_of(log_records(bs), t.topic_id);
            let parts = topic_lookup(name, bs).partitions;
            &&& forall|j: int| 0 <= j < recs.len() ==> exists|i: int| 0 <= i < parts.len()
                && (#[trigger] parts[i]).partition_index == (#[trigger] recs[j]).partition_id
                && parts[i].error_code == 0
                && parts[i].leader_id == recs[j].leader
                && parts[i].leader_epoch == recs[j].leader_epoch
                && parts[i].replica_nodes == recs[j].replicas
                && parts[i].isr_nodes == recs[j].isr
            &&& forall|i: int| 0 <= i < parts.len() ==> exists|j: int| 0 <= j < recs.len()
                && (#[trigger] parts[i]).partition_index == (#[trigger] recs[j]).partition_id
                && parts[i].error_code == 0
                && parts[i].leader_id == recs[j].leader
                && parts[i].leader_epoch == recs[j].leader_epoch
                && parts[i].replica_nodes == recs[j].replicas
                && parts[i].isr_nodes == recs[j].isr
        }),
{
    if let Some(t) = first_topic_named(log_records(bs), name) {
        law_topic_partitions_sorted(name, bs);
        let recs = partitions_of(log_records(bs), t.topic_id);
        let found = recs.map_values(|p: PartitionRecordView| partition_response_of(p));
        let parts = topic_lookup(name, bs).partitions;
        assert(parts.to_multiset() == found.to_multiset());
        assert forall|j: int| 0 <= j < recs.len() implies exists|i: int| 0 <= i < parts.len()
            && (#[trigger] parts[i]).partition_index == (#[trigger] recs[j]).partition_id
            && parts[i].error_code == 0
            && parts[i].leader_id == recs[j].leader
            && parts[i].leader_epoch == recs[j].leader_epoch
            && parts[i].replica_nodes == recs[j].replicas
            && parts[i].isr_nodes == recs[j].isr by {
            let x = found[j];
            assert(found.contains(x));
            vstd::seq_lib::to_multiset_contains(found, x);
            vstd::seq_lib::to_multiset_contains(parts, x);
            let i = choose|i: int| 0 <= i < parts.len() && parts[i] == x;
            assert(parts[i] == x);
        }
        assert forall|i: int| 0 <= i < parts.len() implies exists|j: int| 0 <= j < recs.len()
            && (#[trigger] parts[i]).partition_index == (#[trigger] recs[j]).partition_id
            && parts[i].error_code == 0
            && parts[i].leader_id == recs[j].leader
            && parts[i].leader_epoch == recs[j].leader_epoch
            && parts[i].replica_nodes == recs[j].replicas
            && parts[i].isr_nodes == recs[j].isr by {
            let x = parts[i];
            assert(parts.contains(x));
            vstd::seq_lib::to_multiset_contains(parts, x);
            vstd::seq_lib::to_multiset_contains(found, x);
            let j = choose|j: int| 0 <= j < found.len() && found[j] == x;
            assert(found[j] == partition_response_of(recs[j]));
        }
    }
}

/// The topics of a `DescribeTopicPartitions` answer are the requested
/// names, each once, sorted as `String` sorts them.
pub proof fn law_describe_topics_sorted(correlation_id: i32, names: Seq<Seq<char>>, bs: Seq<BatchView>)
    ensures
        ({
            let sorted = sort_stable(names, by_name());
            let topics = describe_for(correlation_id, names, bs).topics;
            &&& sorted_by(sorted, by_name())
            &&& sorted.to_multiset() == names.to_multiset()
            &&& topics.len() == names.len()
            &&& forall|i: int| 0 <= i < topics.len() ==> (#[trigger] topics[i]).topic_name == sorted[i]
        }),
{
    lemma_name_order();
    lemma_sort_stable_sorted(names, by_name());
    lemma_sort_stable_permutation(names, by_name());
    let sorted = sort_stable(names, by_name());
    let topics = describe_for(correlation_id, names, bs).topics;
    assert forall|i: int| 0 <= i < topics.len() implies (#[trigger] topics[i]).topic_name == sorted[i] by {
        law_topic_partitions_sorted(sorted[i], bs);
    }
}

/// One requested topic name at the cursor.
fn parse_topic_name(cursor: &mut ByteCursor) -> (r: Result<String, Error>)
    ensures
        final(cursor).data == old(cursor).data,
        match r {
            Ok(name) => read_topic_name_at(old(cursor).data@, old(cursor).pos as int)
                == (Ok::<Seq<char>, Fault>(name@), final(cursor).pos as int),
            Err(e) => read_topic_name_at(old(cursor).data@, old(cursor).pos as int).0 == Err::<Seq<char>, Fault>(e@),
        },
{
    let ghost d = cursor.data@;
    let name_len = get_u8(cursor)? as usize;
    if name_len == 0 {
        return Err(Error::Other(String::from_str("null topic name")));
    }
    let name_len = name_len - 1;

    if cursor.remaining() < name_len {
        return Err(Error::Incomplete);
    }

    let name_bytes = crate::wire::slice_to(cursor.chunk(), name_len);
    let ghost p1 = cursor.pos as int;
    assert(name_bytes@ =~= d.subrange(p1, p1 + name_len));
    let name = utf8_lossy(name_bytes);
    cursor.advance(name_len);

    let _tag = get_u8(cursor)?;
    Ok(name)
}

/// The topic names asked for by a `DescribeTopicPartitions` request body.
fn parse_topic_names(body: &[u8]) -> (r: Result<Vec<String>, Error>)
    ensures
        r matches Ok(names) ==> read_topic_names(body@) == Ok::<Seq<Seq<char>>, Fault>(string_views(names@)),
        r matches Err(e) ==> read_topic_names(body@) == Err::<Seq<Seq<char>>, Fault>(e@),
{
    let ghost d = body@;
    let mut cursor = ByteCursor::new(body);

    let client_id_len = get_i16(&mut cursor)?;
    if client_id_len > 0 {
        let client_id_len = client_id_len as usize;
        if cursor.remaining() < client_id_len {
            return Err(Error::Incomplete);
        }
        cursor.advance(client_id_len);
    }

    let _tag = get_u8(&mut cursor)?;

    let topics_len = get_u8(&mut cursor)? as usize;
    if topics_len == 0 {
        return Err(Error::Other(String::from_str("empty topics array")));
    }
    let num_topics = topics_len - 1;
    if num_topics == 0 {
        return Err(Error::Other(String::from_str("no topics requested")));
    }

    let ghost start = cursor.pos as int;
    let ghost total = read_names_at(d, start, num_topics as nat);
    assert(read_topic_names(d) == total.0);
    let mut topic_names: Vec<String> = Vec::new();
    let mut i: usize = 0;
    while i < num_topics
        invariant
            cursor.data@ == d,
            d == body@,
            i <= num_topics,
            total == read_names_at(d, start, num_topics as nat),
            read_topic_names(d) == total.0,
            after(string_views(topic_names@), read_names_at(d, cursor.pos as int, (num_topics - i) as nat)) == total,
        decreases num_topics - i,
    {
        let ghost p = cursor.pos as int;
        let ghost k = (num_topics - i) as nat;
        let ghost before = string_views(topic_names@);
        assert(read_names_at(d, p, k) == {
            let (first, q) = read_topic_name_at(d, p);
            match first {
                Err(e) => (Err(e), q),
                Ok(name) => {
                    let (rest, q2) = read_names_at(d, q, (k - 1) as nat);
                    match rest {
                        Ok(s) => (Ok(seq![name] + s), q2),
                        Err(e) => (Err(e), q2),
                    }
                },
            }
        });
        let name = match parse_topic_name(&mut cursor) {
            Ok(name) => name,
            Err(e) => {
                assert(read_names_at(d, p, k).0 == Err::<Seq<Seq<char>>, Fault>(e@));
                assert(total.0 == Err::<Seq<Seq<char>>, Fault>(e@));
                return Err(e);
            },
        };
        let ghost added = name@;
        topic_names.push(name);
        i = i + 1;
        proof {
            assert(string_views(topic_names@) =~= before.push(added));
            let r = read_names_at(d, cursor.pos as int, (num_topics - i) as nat);
            if r.0 is Ok {
                assert(before + (seq![added] + r.0->Ok_0) =~= before.push(added) + r.0->Ok_0);
            }
        }
    }
    assert(string_views(topic_names@) + Seq::<Seq<char>>::empty() =~= string_views(topic_names@));
    Ok(topic_names)
}

/// The names in the order `String` sorts them.
fn sort_names(names: Vec<String>) -> (r: Vec<String>)
    ensures
        string_views(r@) == sort_stable(string_views(names@), by_name()),
{
    let ghost all = string_views(names@);
    let total: usize = names.len();
    let mut rest = names;
    let mut out: Vec<String> = Vec::new();
    let mut n: usize = 0;
    while rest.len() > 0
        invariant
            n + rest@.len() == all.len(),
            all.len() == total,
            string_views(rest@) == all.skip(n as int),
            string_views(out@) == sort_stable(all.take(n as int), by_name()),
        decreases rest@.len(),
    {
        let ghost old_rest = rest@;
        assert(string_views(old_rest)[0] == old_rest[0]@);
        let x = rest.remove(0);
        assert(x@ == all[n as int]);
        let mut k: usize = out.len();
        while k > 0 && bytes_lt(x.as_str().as_bytes(), out[k - 1].as_str().as_bytes())
            invariant
                k <= out@.len(),
                forall|m: int| k <= m < out@.len() ==> (by_name())(x@, #[trigger] out@[m]@),
            decreases k,
        {
            k = k - 1;
        }
        let ghost sorted_before = string_views(out@);
        proof {
            lemma_insert_stable_at(sorted_before, x@, by_name(), k as int);
        }
        out.insert(k, x);
        assert(string_views(out@) =~= sorted_before.insert(k as int, x@));
        assert(all.take(n + 1).drop_last() =~= all.take(n as int));
        n = n + 1;
        assert forall|m: int| 0 <= m < rest@.len() implies string_views(rest@)[m] == all.skip(n as int)[m] by {
            assert(rest@[m] == old_rest[m + 1]);
            assert(string_views(old_rest)[m + 1] == all.skip(n - 1)[m + 1]);
        }
        assert(string_views(rest@) =~= all.skip(n as int));
    }
    assert(all.take(n as int) =~= all);
    out
}

impl DescribeTopicPartitionResponse {
    /// The answer to a `DescribeTopicPartitions` request: the topics it
    /// names, sorted, each looked up in the metadata log.
    pub fn from_request(request: &Request, metadata: &[BatchRecord]) -> (r: Result<Self, Error>)
        ensures
            match read_topic_names(request.body@) {
                Ok(names) => r matches Ok(resp)
                    && resp@ == describe_for(request.header.correlation_id, names, batch_views(metadata@)),
                Err(f) => r matches Err(e) && e@ == f,
            },
    {
        let topic_names = parse_topic_names(request.body.as_slice())?;
        let mut names = sort_names(topic_names);
        let total: usize = names.len();
        let ghost sorted = string_views(names@);
        let ghost bs = batch_views(metadata@);

        let mut topics: Vec<TopicResponse> = Vec::new();
        let mut n: usize = 0;
        while names.len() > 0
            invariant
                n + names@.len() == sorted.len(),
                sorted.len() == total,
                bs == batch_views(metadata@),
                string_views(names@) == sorted.skip(n as int),
                topic_views(topics@) == sorted.take(n as int).map_values(|s: Seq<char>| topic_lookup(s, bs)),
            decreases names@.len(),
        {
            let ghost old_names = names@;
            assert(string_views(old_names)[0] == old_names[0]@);
            let name = names.remove(0);
            let ghost before = topic_views(topics@);
            let topic = TopicResponse::lookup(name, metadata);
            let ghost added = topic@;
            topics.push(topic);
            assert(topic_views(topics@) =~= before.push(added));
            n = n + 1;
            assert(sorted.take(n as int).map_values(|s: Seq<char>| topic_lookup(s, bs))
                =~= sorted.take(n - 1).map_values(|s: Seq<char>| topic_lookup(s, bs)).push(topic_lookup(sorted[n - 1], bs)));
            assert forall|m: int| 0 <= m < names@.len() implies string_views(names@)[m] == sorted.skip(n as int)[m] by {
                assert(names@[m] == old_names[m + 1]);
                assert(string_views(old_names)[m + 1] == sorted.skip(n - 1)[m + 1]);
            }
            assert(string_views(names@) =~= sorted.skip(n as int));
        }
        assert(sorted.take(n as int) =~= sorted);

        Ok(Self { correlation_id: request.correlation_id(), throttle_time_ms: 0, topics })
    }
}

fn get_u8(src: &mut ByteCursor) -> (r: Result<u8, Error>)
    ensures
        final(src).data == old(src).data,
        match r {
            Ok(v) => read_u8_at(old(src).data@, old(src).pos as int) == (Ok::<u8, Fault>(v), final(src).pos as int),
            Err(e) => read_u8_at(old(src).data@, old(src).pos as int) == (Err::<u8, Fault>(e@), final(src).pos as int),
        },
{
    match src.read_u8() {
        Some(v) => Ok(v),
        None => Err(Error::Incomplete),
    }
}

fn get_i16(src: &mut ByteCursor) -> (r: Result<i16, Error>)
    ensures
        final(src).data == old(src).data,
        match r {
            Ok(v) => read_i16_at(old(src).data@, old(src).pos as int) == (Ok::<i16, Fault>(v), final(src).pos as int),
            Err(e) => read_i16_at(old(src).data@, old(src).pos as int) == (Err::<i16, Fault>(e@), final(src).pos as int),
        },
{
    match src.read_i16() {
        Some(v) => Ok(v),
        None => Err(Error::Incomplete),
    }
}

fn get_i32(src: &mut ByteCursor) -> (r: Result<i32, Error>)
    ensures
        final(src).data == old(src).data,
        match r {
            Ok(v) => read_i32_at(old(src).data@, old(src).pos as int) == (Ok::<i32, Fault>(v), final(src).pos as int),
            Err(e) => read_i32_at(old(src).data@, old(src).pos as int) == (Err::<i32, Fault>(e@), final(src).pos as int),
        },
{
    match src.read_i32() {
        Some(v) => Ok(v),
        None => Err(Error::Incomplete),
    }
}

} // verus!
