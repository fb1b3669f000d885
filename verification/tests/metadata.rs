use codecrafters_kafka::metadata::parser::{find_partitions, find_topic, MetaParser, ParseError, Record};

fn uvarint(mut v: u64, out: &mut Vec<u8>) {
    loop {
        let b = (v & 0x7f) as u8;
        v >>= 7;
        if v == 0 {
            out.push(b);
            return;
        }
        out.push(b | 0x80);
    }
}

fn varint(v: i64, out: &mut Vec<u8>) {
    uvarint(((v << 1) ^ (v >> 63)) as u64, out);
}

fn compact_string(s: &[u8], out: &mut Vec<u8>) {
    uvarint(s.len() as u64 + 1, out);
    out.extend_from_slice(s);
}

fn compact_i32s(v: &[i32], out: &mut Vec<u8>) {
    uvarint(v.len() as u64 + 1, out);
    for x in v {
        out.extend_from_slice(&x.to_be_bytes());
    }
}

fn topic_value(name: &[u8], id: [u8; 16]) -> Vec<u8> {
    let mut v = vec![1, 2, 0];
    compact_string(name, &mut v);
    v.extend_from_slice(&id);
    v
}

fn partition_value(partition: i32, id: [u8; 16], replicas: &[i32], leader: i32, epoch: i32) -> Vec<u8> {
    let mut v = vec![1, 3, 1];
    v.extend_from_slice(&partition.to_be_bytes());
    v.extend_from_slice(&id);
    compact_i32s(replicas, &mut v);
    compact_i32s(replicas, &mut v);
    compact_i32s(&[], &mut v);
    compact_i32s(&[], &mut v);
    v.extend_from_slice(&leader.to_be_bytes());
    v.extend_from_slice(&epoch.to_be_bytes());
    v
}

fn feature_value(name: &[u8], level: u16) -> Vec<u8> {
    let mut v = vec![1, 12, 0];
    compact_string(name, &mut v);
    v.extend_from_slice(&level.to_be_bytes());
    v
}

fn record(value: &[u8]) -> Vec<u8> {
    let mut body = vec![0u8];
    varint(0, &mut body);
    varint(0, &mut body);
    varint(-1, &mut body);
    varint(value.len() as i64, &mut body);
    body.extend_from_slice(value);
    varint(0, &mut body);
    let mut r = Vec::new();
    varint(body.len() as i64, &mut r);
    r.extend_from_slice(&body);
    r
}

fn batch(records: &[Vec<u8>]) -> Vec<u8> {
    let mut after_length = Vec::new();
    after_length.extend_from_slice(&7u32.to_be_bytes());
    after_length.push(2);
    after_length.extend_from_slice(&(-5i32).to_be_bytes());
    after_length.extend_from_slice(&0u16.to_be_bytes());
    after_length.extend_from_slice(&(records.len() as u32 - 1).to_be_bytes());
    after_length.extend_from_slice(&1000u64.to_be_bytes());
    after_length.extend_from_slice(&2000u64.to_be_bytes());
    after_length.extend_from_slice(&(-1i64).to_be_bytes());
    after_length.extend_from_slice(&(-1i16).to_be_bytes());
    after_length.extend_from_slice(&(-1i32).to_be_bytes());
    after_length.extend_from_slice(&(records.len() as u32).to_be_bytes());
    for r in records {
        after_length.extend_from_slice(r);
    }
    let mut b = Vec::new();
    b.extend_from_slice(&0u64.to_be_bytes());
    b.extend_from_slice(&(after_length.len() as u32).to_be_bytes());
    b.extend_from_slice(&after_length);
    b
}

const FOO: [u8; 16] = [0, 0, 0, 0, 0, 0, 0x40, 0, 0x80, 0, 0, 0, 0, 0, 0, 0x91];
const BAR: [u8; 16] = [1; 16];

fn sample_log() -> Vec<u8> {
    let mut log = batch(&[record(&feature_value(b"metadata.version", 20))]);
    log.extend_from_slice(&batch(&[
        record(&topic_value(b"foo", FOO)),
        record(&partition_value(1, FOO, &[1, 2], 1, 0)),
        record(&topic_value(b"bar", BAR)),
        record(&partition_value(0, FOO, &[3], 3, 7)),
        record(&partition_value(0, BAR, &[1], 1, 0)),
    ]));
    log
}

#[test]
fn from_bytes_of_nothing_is_empty() {
    assert_eq!(MetaParser::from_bytes(&[]), Ok(vec![]));
}

#[test]
fn from_bytes_reads_batches_and_records() {
    let batches = MetaParser::from_bytes(&sample_log()).unwrap();
    assert_eq!(batches.len(), 2);
    assert_eq!(batches[0].records.len(), 1);
    match &batches[0].records[0] {
        Record::FeatureLevel(f) => {
            assert_eq!(f.name, "metadata.version");
            assert_eq!(f.feature_level, 20);
        },
        other => panic!("unexpected record {:?}", other),
    }
    assert_eq!(batches[1].records.len(), 5);
    match &batches[1].records[1] {
        Record::Partition(p) => {
            assert_eq!(p.partition_id, 1);
            assert_eq!(p.topic_id, FOO);
            assert_eq!(p.replicas, vec![1, 2]);
            assert_eq!(p.isr, vec![1, 2]);
            assert_eq!(p.leader, 1);
            assert_eq!(p.leader_epoch, 0);
        },
        other => panic!("unexpected record {:?}", other),
    }
}

#[test]
fn from_bytes_passes_over_unknown_record_kinds() {
    let log = batch(&[record(&[1, 9, 0, 1, 2, 3]), record(&topic_value(b"foo", FOO))]);
    let batches = MetaParser::from_bytes(&log).unwrap();
    assert_eq!(batches[0].records.len(), 1);
}

#[test]
fn from_bytes_skips_keys() {
    let mut body = vec![0u8];
    varint(0, &mut body);
    varint(0, &mut body);
    varint(2, &mut body);
    body.extend_from_slice(&[0xaa, 0xbb]);
    let value = topic_value(b"k", BAR);
    varint(value.len() as i64, &mut body);
    body.extend_from_slice(&value);
    let mut r = Vec::new();
    varint(body.len() as i64, &mut r);
    r.extend_from_slice(&body);
    let batches = MetaParser::from_bytes(&batch(&[r])).unwrap();
    match &batches[0].records[0] {
        Record::Topic(t) => assert_eq!(t.topic_name, "k"),
        other => panic!("unexpected record {:?}", other),
    }
}

#[test]
fn from_bytes_truncated_is_incomplete() {
    let log = sample_log();
    assert_eq!(MetaParser::from_bytes(&log[..10]), Err(ParseError::Incomplete));
    let short = batch(&[record(&topic_value(b"foo", FOO))]);
    assert_eq!(MetaParser::from_bytes(&short[..short.len() - 3]), Err(ParseError::Incomplete));
}

#[test]
fn from_bytes_refuses_long_varints() {
    let mut r = vec![0xffu8; 11];
    r.push(0);
    let log = batch(&[r]);
    assert_eq!(MetaParser::from_bytes(&log), Err(ParseError::Other("varint too long".to_string())));
}

#[test]
fn from_bytes_refuses_invalid_utf8_names() {
    let log = batch(&[record(&topic_value(&[0xff, 0xfe], FOO))]);
    assert_eq!(MetaParser::from_bytes(&log), Err(ParseError::Utf8Error(vec![0xff, 0xfe])));
}

#[test]
fn find_topic_gives_the_first_with_the_name() {
    let batches = MetaParser::from_bytes(&sample_log()).unwrap();
    let t = find_topic(&batches, "bar").unwrap();
    assert_eq!(t.topic_id, BAR);
    assert!(find_topic(&batches, "baz").is_none());
    assert!(find_topic(&batches, "fo").is_none());
}

#[test]
fn find_partitions_keeps_log_order() {
    let batches = MetaParser::from_bytes(&sample_log()).unwrap();
    let found = find_partitions(&batches, &FOO);
    let ids: Vec<i32> = found.iter().map(|p| p.partition_id).collect();
    assert_eq!(ids, vec![1, 0]);
    assert!(found.iter().all(|p| p.topic_id == FOO));
    assert!(find_partitions(&batches, &[9; 16]).is_empty());
}

#[test]
fn from_bytes_reads_multi_byte_varints() {
    let name = vec![b'x'; 100];
    let log = batch(&[record(&topic_value(&name, FOO))]);
    let batches = MetaParser::from_bytes(&log).unwrap();
    match &batches[0].records[0] {
        Record::Topic(t) => {
            assert_eq!(t.topic_name.len(), 100);
            assert_eq!(t.topic_id, FOO);
        },
        other => panic!("unexpected record {:?}", other),
    }
}

#[test]
fn from_bytes_goes_on_at_record_start_plus_length() {
    let value = topic_value(b"pad", BAR);
    let mut body = vec![0u8];
    varint(0, &mut body);
    varint(0, &mut body);
    varint(-1, &mut body);
    varint(value.len() as i64, &mut body);
    body.extend_from_slice(&value);
    body.extend_from_slice(&[0xee; 5]);
    let mut r = Vec::new();
    varint(body.len() as i64, &mut r);
    r.extend_from_slice(&body);
    let log = batch(&[r, record(&topic_value(b"next", FOO))]);
    let batches = MetaParser::from_bytes(&log).unwrap();
    assert_eq!(batches[0].records.len(), 2);
    match &batches[0].records[1] {
        Record::Topic(t) => assert_eq!(t.topic_name, "next"),
        other => panic!("unexpected record {:?}", other),
    }
}

#[test]
fn from_bytes_goes_on_at_batch_start_plus_length() {
    let mut first = batch(&[record(&topic_value(b"a", FOO))]);
    let len = u32::from_be_bytes([first[8], first[9], first[10], first[11]]) + 3;
    first[8..12].copy_from_slice(&len.to_be_bytes());
    first.extend_from_slice(&[0xaa, 0xbb, 0xcc]);
    first.extend_from_slice(&batch(&[record(&topic_value(b"b", BAR))]));
    let batches = MetaParser::from_bytes(&first).unwrap();
    assert_eq!(batches.len(), 2);
}

#[test]
fn zigzag_varint_lengths() {
    let mut v = Vec::new();
    varint(-1, &mut v);
    assert_eq!(v, vec![1]);
    v.clear();
    varint(64, &mut v);
    assert_eq!(v, vec![0x80, 0x01]);
}

#[test]
fn from_bytes_reads_ten_byte_varints_of_extreme_deltas() {
    let value = topic_value(b"edge", BAR);
    let mut body = vec![0u8];
    varint(i64::MIN, &mut body);
    varint(i64::MAX, &mut body);
    varint(-1, &mut body);
    varint(value.len() as i64, &mut body);
    body.extend_from_slice(&value);
    varint(0, &mut body);
    assert_eq!(body.len(), 1 + 10 + 10 + 1 + 1 + value.len() + 1);
    let mut r = Vec::new();
    varint(body.len() as i64, &mut r);
    r.extend_from_slice(&body);
    let log = batch(&[r, record(&topic_value(b"after", FOO))]);
    let batches = MetaParser::from_bytes(&log).unwrap();
    assert_eq!(batches[0].records.len(), 2);
    match (&batches[0].records[0], &batches[0].records[1]) {
        (Record::Topic(a), Record::Topic(b)) => {
            assert_eq!(a.topic_name, "edge");
            assert_eq!(a.topic_id, BAR);
            assert_eq!(b.topic_name, "after");
        },
        other => panic!("unexpected records {:?}", other),
    }
}

#[test]
fn from_bytes_keeps_the_batch_header() {
    let bytes = batch(&[record(&topic_value(b"h", FOO)), record(&topic_value(b"i", BAR))]);
    let batches = MetaParser::from_bytes(&bytes).unwrap();
    let b = &batches[0];
    assert_eq!(b.base_offset, 0);
    assert_eq!(b.batch_length as usize, bytes.len() - 12);
    assert_eq!(b.partition_leader_epoch, 7);
    assert_eq!(b.magic_byte, 2);
    assert_eq!(b.crc, -5);
    assert_eq!(b.attribute, 0);
    assert_eq!(b.last_offset_delta, 1);
    assert_eq!(b.base_timestamp, 1000);
    assert_eq!(b.max_timestamp, 2000);
    assert_eq!(b.producer_id, -1);
    assert_eq!(b.producer_epoch, -1);
    assert_eq!(b.base_sequence, -1);
}
