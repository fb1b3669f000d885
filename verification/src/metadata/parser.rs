//! Parser of the cluster-metadata log: record batches holding topic,
//! partition and feature-level records, and the lookups over them.
use vstd::prelude::*;
use vstd::utf8::{decode_utf8, valid_utf8};
use crate::text::{bytes_eq, str_eq, string_from_utf8};
use vstd::arithmetic::power2::{lemma2_to64, lemma2_to64_rest, lemma_pow2_adds, lemma_pow2_strictly_increases, pow2};
use vstd::bits::{lemma_u64_pow2_no_overflow, lemma_u64_shl_is_mul};
use crate::wire::{
    chain, fits, i32_be, lemma_placed_split, lemma_placed_prefix, lemma_read_i32_placed, lemma_read_u8_placed, placed, read_i16_at, read_i32_at, read_i64_at, read_i8_at, read_u16_at, read_u32_at,
    read_u64_at, read_u8_at, skip_at, left_at, be_u16_at, be_u32_at, be_u64_at, signed16,
    signed32, signed64, ByteCursor, Fault,
};

verus! {

/// Reads the metadata log.
pub struct MetaParser;

/// A topic: its name and id.
#[derive(Debug, Clone, PartialEq, Eq)]
pub struct TopicRecord {
    pub version: u8,
    pub topic_name: String,
    pub topic_id: [u8; 16],
}

/// A partition of a topic, with its replicas and leader.
#[derive(Debug, Clone, PartialEq, Eq)]
pub struct PartitionRecord {
    pub version: u8,
    pub partition_id: i32,
    pub topic_id: [u8; 16],
    pub replicas: Vec<i32>,
    pub isr: Vec<i32>,
    pub leader: i32,
    pub leader_epoch: i32,
}

/// The level of a named feature.
#[derive(Debug, Clone, PartialEq, Eq)]
pub struct FeatureLevelRecord {
    pub version: u8,
    pub name: String,
    pub feature_level: u16,
}

/// A record of a kind the broker reads.
#[derive(Debug, Clone, PartialEq, Eq)]
pub enum Record {
    Topic(TopicRecord),
    Partition(PartitionRecord),
    FeatureLevel(FeatureLevelRecord),
}

/// A record batch: its header and the records of known kinds in it.
#[derive(Debug, Clone, PartialEq, Eq)]
pub struct BatchRecord {
    pub base_offset: u64,
    pub batch_length: u32,
    pub partition_leader_epoch: u32,
    pub magic_byte: u8,
    pub crc: i32,
    pub attribute: u16,
    pub last_offset_delta: u32,
    pub base_timestamp: u64,
    pub max_timestamp: u64,
    pub producer_id: i64,
    pub producer_epoch: i16,
    pub base_sequence: i32,
    pub records: Vec<Record>,
}

/// Why the log could not be read.
#[derive(Debug, Clone, PartialEq, Eq)]
pub enum ParseError {
    /// Fewer bytes than a field needs.
    Incomplete,
    /// A string whose bytes (given here) are not UTF-8.
    Utf8Error(Vec<u8>),
    /// Reading the log's source failed, described in words.
    IoError(String),
    /// Any other failure, described in words.
    Other(String),
}

/// A topic record as a value.
pub struct TopicRecordView {
    pub version: u8,
    pub topic_name: Seq<char>,
    pub topic_id: Seq<u8>,
}

/// A partition record as a value.
pub struct PartitionRecordView {
    pub version: u8,
    pub partition_id: i32,
    pub topic_id: Seq<u8>,
    pub replicas: Seq<i32>,
    pub isr: Seq<i32>,
    pub leader: i32,
    pub leader_epoch: i32,
}

/// A feature-level record as a value.
pub struct FeatureLevelRecordView {
    pub version: u8,
    pub name: Seq<char>,
    pub feature_level: u16,
}

/// A record as a value.
pub enum RecordView {
    Topic(TopicRecordView),
    Partition(PartitionRecordView),
    FeatureLevel(FeatureLevelRecordView),
}

/// A record batch as a value.
pub struct BatchView {
    pub base_offset: u64,
    pub batch_length: u32,
    pub partition_leader_epoch: u32,
    pub magic_byte: u8,
    pub crc: i32,
    pub attribute: u16,
    pub last_offset_delta: u32,
    pub base_timestamp: u64,
    pub max_timestamp: u64,
    pub producer_id: i64,
    pub producer_epoch: i16,
    pub base_sequence: i32,
    pub records: Seq<RecordView>,
}

impl View for TopicRecord {
    type V = TopicRecordView;

    open spec fn view(&self) -> TopicRecordView {
        TopicRecordView { version: self.version, topic_name: self.topic_name@, topic_id: self.topic_id@ }
    }
}

impl View for PartitionRecord {
    type V = PartitionRecordView;

    open spec fn view(&self) -> PartitionRecordView {
        PartitionRecordView {
            version: self.version,
            partition_id: self.partition_id,
            topic_id: self.topic_id@,
            replicas: self.replicas@,
            isr: self.isr@,
            leader: self.leader,
            leader_epoch: self.leader_epoch,
        }
    }
}

impl View for FeatureLevelRecord {
    type V = FeatureLevelRecordView;

    open spec fn view(&self) -> FeatureLevelRecordView {
        FeatureLevelRecordView { version: self.version, name: self.name@, feature_level: self.feature_level }
    }
}

impl View for Record {
    type V = RecordView;

    open spec fn view(&self) -> RecordView {
        match self {
            Record::Topic(t) => RecordView::Topic(t@),
            Record::Partition(p) => RecordView::Partition(p@),
            Record::FeatureLevel(f) => RecordView::FeatureLevel(f@),
        }
    }
}

impl View for BatchRecord {
    type V = BatchView;

    open spec fn view(&self) -> BatchView {
        BatchView {
            base_offset: self.base_offset,
            batch_length: self.batch_length,
            partition_leader_epoch: self.partition_leader_epoch,
            magic_byte: self.magic_byte,
            crc: self.crc,
            attribute: self.attribute,
            last_offset_delta: self.last_offset_delta,
            base_timestamp: self.base_timestamp,
            max_timestamp: self.max_timestamp,
            producer_id: self.producer_id,
            producer_epoch: self.producer_epoch,
            base_sequence: self.base_sequence,
            records: self.records@.map_values(|r: Record| r@),
        }
    }
}

impl View for ParseError {
    type V = Fault;

    open spec fn view(&self) -> Fault {
        match self {
            ParseError::Incomplete => Fault::Incomplete,
            ParseError::Utf8Error(b) => Fault::Utf8(b@),
            ParseError::IoError(m) => Fault::Io(m@),
            ParseError::Other(m) => Fault::Message(m@),
        }
    }
}

/// An exec result as a value: the view of what it holds, or its failure.
pub open spec fn lifted<T: View>(r: Result<T, ParseError>) -> Result<T::V, Fault> {
    match r {
        Ok(v) => Ok(v@),
        Err(e) => Err(e@),
    }
}

/// The value of the first `n` groups of a varint at `p`: the low seven bits
/// of byte `i` weigh `2^(7i)`.
pub open spec fn varint_groups(d: Seq<u8>, p: int, n: nat) -> int
    decreases n,
{
    if n == 0 {
        0
    } else {
        varint_groups(d, p, (n - 1) as nat) + (d[p + n - 1] % 128) as int * pow2((7 * (n - 1)) as nat)
    }
}

/// Adding a group of seven bits above the groups read so far, with the
/// bit operations the reader uses, is adding its weight, modulo `2^64`.
proof fn lemma_varint_step(acc: u64, g: u8, k: nat)
    requires
        k <= 9,
        g < 128,
        acc < pow2(7 * k),
    ensures
        (acc | ((g as u64) << ((7 * k) as u64))) as int == (acc + g * pow2(7 * k)) % 0x1_0000_0000_0000_0000,
        k <= 8 ==> (acc | ((g as u64) << ((7 * k) as u64))) as int == acc + g * pow2(7 * k),
        k <= 8 ==> acc + g * pow2(7 * k) < pow2(7 * (k + 1)),
{
    let s: u64 = (7 * k) as u64;
    lemma2_to64();
    lemma2_to64_rest();
    lemma_pow2_adds(7 * k, 7);
    assert(pow2(7) == 128);
    if k <= 8 {
        lemma_u64_pow2_no_overflow(s as nat);
        if s < 56 {
            lemma_pow2_strictly_increases(s as nat, 56);
        }
        assert(pow2(56) == 0x100_0000_0000_0000);
        assert(g * pow2(s as nat) <= 127 * 0x100_0000_0000_0000int) by (nonlinear_arith)
            requires
                g < 128,
                pow2(s as nat) <= 0x100_0000_0000_0000int;
        lemma_u64_shl_is_mul(g as u64, s);
        lemma_u64_shl_is_mul(1u64, s);
        assert(acc < (1u64 << s));
        let gg: u64 = g as u64;
        assert(s <= 56 && acc < (1u64 << s) && gg < 128 ==> (acc | (gg << s)) as int == (acc as int) + ((gg << s) as int))
            by (bit_vector);
        assert((acc + g * pow2(7 * k)) % 0x1_0000_0000_0000_0000 == acc + g * pow2(7 * k));
        assert(acc + g * pow2(7 * k) < pow2(7 * (k + 1))) by (nonlinear_arith)
            requires
                acc < pow2(7 * k),
                g < 128,
                pow2(7 * (k + 1)) == pow2(7 * k) * 128;
    } else {
        assert(s == 63);
        assert(pow2(63) == 0x8000_0000_0000_0000);
        let gg: u64 = g as u64;
        assert(acc < 0x8000_0000_0000_0000u64 && gg < 128 ==> (acc | (gg << 63u64)) as int
            == (acc as int) + ((gg % 2) as int) * 0x8000_0000_0000_0000) by (bit_vector);
        assert((acc + g * 0x8000_0000_0000_0000int) % 0x1_0000_0000_0000_0000 == acc + (g % 2) * 0x8000_0000_0000_0000)
            by (nonlinear_arith)
            requires
                0 <= acc < 0x8000_0000_0000_0000,
                0 <= g < 128;
    }
}

/// Reading an unsigned varint at `p`, from the group that starts at bit
/// `shift`, with `acc` holding the groups read so far: each byte gives its
/// low seven bits, the high bit tells whether another byte follows, and
/// more than ten bytes is an error.
pub open spec fn uvarint_from(d: Seq<u8>, p: int, shift: int, acc: u64) -> (Result<u64, Fault>, int)
    decreases 70 - shift,
{
    if shift >= 64 {
        (Err(Fault::Message("varint too long"@)), p)
    } else if !fits(d, p, 1) {
        (Err(Fault::Incomplete), p)
    } else {
        let byte = d[p];
        let next = acc | (((byte & 0x7f) as u64) << (shift as u64));
        if byte & 0x80 == 0 {
            (Ok(next), p + 1)
        } else {
            uvarint_from(d, p + 1, shift + 7, next)
        }
    }
}

/// A varint that was read ends within the bytes.
pub proof fn lemma_uvarint_within(d: Seq<u8>, p: int, shift: int, acc: u64)
    ensures
        uvarint_from(d, p, shift, acc).0 is Ok ==> uvarint_from(d, p, shift, acc).1 <= d.len(),
    decreases 70 - shift,
{
    if shift < 64 && fits(d, p, 1) {
        let byte = d[p];
        let next = acc | (((byte & 0x7f) as u64) << (shift as u64));
        if byte & 0x80 != 0 {
            lemma_uvarint_within(d, p + 1, shift + 7, next);
        }
    }
}

/// From the `k`-th group on, a varint ends within ten bytes of its start
/// and its value is that of its groups, modulo `2^64`.
#[verifier::spinoff_prover]
proof fn lemma_uvarint_groups(d: Seq<u8>, p: int, k: nat, acc: u64)
    requires
        0 <= p,
        k <= 9,
        acc == varint_groups(d, p, k),
        acc < pow2(7 * k),
    ensures
        uvarint_from(d, p + k, (7 * k) as int, acc).0 matches Ok(v) ==> ({
            let n = uvarint_from(d, p + k, (7 * k) as int, acc).1 - p;
            &&& k + 1 <= n <= 10
            &&& v == varint_groups(d, p, n as nat) % 0x1_0000_0000_0000_0000
        }),
    decreases 9 - k,
{
    if fits(d, p + k, 1) {
        let byte = d[p + k];
        let g = byte & 0x7f;
        assert(byte & 0x7f == byte % 128 && byte & 0x7f < 128) by (bit_vector);
        lemma_varint_step(acc, g, k);
        let next = acc | ((g as u64) << ((7 * k) as u64));
        assert(varint_groups(d, p, k + 1) == acc + g * pow2(7 * k));
        if byte & 0x80 == 0 {
            assert(uvarint_from(d, p + k, (7 * k) as int, acc) == (Ok::<u64, Fault>(next), p + k + 1));
        } else if k < 9 {
            lemma_uvarint_groups(d, p, k + 1, next);
            assert(p + k + 1 == p + (k + 1));
            assert(7 * k + 7 == 7 * (k + 1));
            assert(uvarint_from(d, p + k, (7 * k) as int, acc) == uvarint_from(d, p + (k + 1), (7 * (k + 1)) as int, next));
        } else {
            assert(uvarint_from(d, p + k + 1, (7 * k + 7) as int, next).0 is Err);
        }
    }
}

/// A varint that is read takes one to ten bytes, and its value is the sum
/// of the low seven bits of its byte `i` times `2^(7i)`, modulo `2^64`.
pub proof fn law_uvarint_value(d: Seq<u8>, p: int)
    requires
        0 <= p,
    ensures
        read_uvarint_at(d, p).0 matches Ok(v) ==> ({
            let n = read_uvarint_at(d, p).1 - p;
            &&& 1 <= n <= 10
            &&& v == varint_groups(d, p, n as nat) % 0x1_0000_0000_0000_0000
        }),
{
    lemma2_to64();
    lemma_uvarint_groups(d, p, 0, 0);
}

/// Reading an unsigned varint at `p`.
pub open spec fn read_uvarint_at(d: Seq<u8>, p: int) -> (Result<u64, Fault>, int) {
    uvarint_from(d, p, 0, 0)
}

/// The zigzag reading of an unsigned value: even values are the
/// non-negative integers, odd values the negative ones.
pub open spec fn zigzag(raw: u64) -> int {
    if raw % 2 == 0 { (raw / 2) as int } else { -((raw / 2) as int) - 1 }
}

/// Reading a zigzag-encoded signed varint at `p`.
pub open spec fn read_varint_at(d: Seq<u8>, p: int) -> (Result<i64, Fault>, int) {
    chain(read_uvarint_at(d, p), |raw: u64, q: int| (Ok(zigzag(raw) as i64), q))
}

/// The zigzag code of a signed integer: `n >= 0` becomes `2n`, a negative
/// `n` becomes `-2n - 1`, which is what `(n << 1) ^ (n >> 63)` gives for an
/// `i64`.
pub open spec fn zigzag_encode(n: int) -> nat {
    if n >= 0 { (2 * n) as nat } else { (-2 * n - 1) as nat }
}

/// The unsigned varint of `z`: seven bits per byte, lowest group first, the
/// high bit set on every byte but the last.
pub open spec fn leb128(z: nat) -> Seq<u8>
    decreases z,
{
    if z < 128 {
        seq![z as u8]
    } else {
        seq![(z % 128 + 128) as u8] + leb128(z / 128)
    }
}

/// Reading the varint of `w` at `q`, with the groups below bit `7k` already
/// in `acc`, gives `w * 2^(7k) + acc` and stops right after the encoding.
proof fn lemma_read_leb128(d: Seq<u8>, q: int, k: nat, acc: u64, w: nat, z: nat)
    requires
        0 <= q,
        k <= 9,
        acc < pow2(7 * k),
        w * pow2(7 * k) + acc == z,
        z < 0x1_0000_0000_0000_0000,
        q + leb128(w).len() <= d.len(),
        d.subrange(q, q + leb128(w).len()) == leb128(w),
    ensures
        k + leb128(w).len() <= 10,
        uvarint_from(d, q, (7 * k) as int, acc) == (Ok::<u64, Fault>(z as u64), q + leb128(w).len()),
    decreases w,
{
    lemma2_to64();
    lemma2_to64_rest();
    let e = leb128(w);
    assert(d[q] == e[0]) by {
        assert(d.subrange(q, q + e.len())[0] == d[q]);
    }
    let byte = d[q];
    if w < 128 {
        assert(byte == w);
        assert(byte < 128 ==> byte & 0x7f == byte && byte & 0x80 == 0) by (bit_vector);
        let g: u8 = byte & 0x7f;
        lemma_varint_step(acc, g, k);
        assert((acc + g * pow2(7 * k)) % 0x1_0000_0000_0000_0000 == z);
    } else {
        assert(byte == w % 128 + 128);
        assert(byte >= 128 ==> byte & 0x7f == byte - 128 && byte & 0x80 != 0) by (bit_vector);
        let g: u8 = byte & 0x7f;
        assert(g == w % 128);
        if k == 9 {
            assert(pow2(63) == 0x8000_0000_0000_0000);
            assert(w * pow2(7 * k) >= 128 * 0x8000_0000_0000_0000) by (nonlinear_arith)
                requires
                    w >= 128,
                    pow2(7 * k) == 0x8000_0000_0000_0000int;
        }
        assert(k <= 8);
        lemma_varint_step(acc, g, k);
        let next: u64 = acc | ((g as u64) << ((7 * k) as u64));
        let w1: nat = w / 128;
        lemma_pow2_adds(7 * k, 7);
        assert(pow2(7) == 128);
        assert(7 * k + 7 == 7 * (k + 1));
        assert(w1 * pow2(7 * (k + 1)) + next == z) by (nonlinear_arith)
            requires
                next == acc + g * pow2(7 * k),
                pow2(7 * (k + 1)) == pow2(7 * k) * 128,
                w == 128 * w1 + g,
                w * pow2(7 * k) + acc == z;
        let e1 = leb128(w1);
        assert(e =~= seq![byte] + e1);
        assert(d.subrange(q + 1, q + 1 + e1.len()) =~= e1) by {
            assert forall|i: int| 0 <= i < e1.len() implies d.subrange(q + 1, q + 1 + e1.len())[i] == e1[i] by {
                assert(d.subrange(q, q + e.len())[i + 1] == e[i + 1]);
            }
        }
        lemma_read_leb128(d, q + 1, k + 1, next, w1, z);
    }
}

/// Decoding undoes encoding: the zigzag varint of any `i64`, followed by
/// anything, reads back as that integer, and the reader stops right after
/// its one to ten bytes.
pub proof fn law_varint_read_back(n: i64, tail: Seq<u8>)
    ensures
        1 <= leb128(zigzag_encode(n as int)).len() <= 10,
        read_varint_at(leb128(zigzag_encode(n as int)) + tail, 0)
            == (Ok::<i64, Fault>(n), leb128(zigzag_encode(n as int)).len() as int),
{
    let z = zigzag_encode(n as int);
    let e = leb128(z);
    let d = e + tail;
    lemma2_to64();
    assert(z < 0x1_0000_0000_0000_0000);
    assert(d.subrange(0, e.len() as int) =~= e);
    assert(z * pow2(7 * 0nat) + 0 == z) by {
        assert(7 * 0nat == 0);
        assert(pow2(0) == 1);
        assert(z * 1 == z);
    }
    lemma_read_leb128(d, 0, 0, 0u64, z, z);
    let raw = z as u64;
    assert(zigzag(raw) == n);
}

/// The length a compact field with length prefix `n` has: `n - 1`, and `0`
/// for `n == 0`.
pub open spec fn compact_len(n: u64) -> int {
    if n == 0 { 0 } else { n - 1 }
}

/// Reading a compact string at `p`: a varint length plus one, then that
/// many bytes of UTF-8.
pub open spec fn read_compact_string_at(d: Seq<u8>, p: int) -> (Result<Seq<char>, Fault>, int) {
    chain(
        read_uvarint_at(d, p),
        |n: u64, q: int|
            {
                let len = compact_len(n);
                if left_at(d, q) < len {
                    (Err(Fault::Incomplete), q)
                } else {
                    let bytes = d.subrange(q, q + len);
                    if valid_utf8(bytes) {
                        (Ok(decode_utf8(bytes)), q + len)
                    } else {
                        (Err(Fault::Utf8(bytes)), q + len)
                    }
                }
            },
    )
}

/// Reading `count` big-endian `i32` values at `p`.
pub open spec fn read_i32s_at(d: Seq<u8>, p: int, count: nat) -> (Result<Seq<i32>, Fault>, int)
    decreases count,
{
    if count == 0 {
        (Ok(seq![]), p)
    } else {
        let (first, q) = read_i32_at(d, p);
        match first {
            Err(e) => (Err(e), q),
            Ok(v) => {
                let (rest, q2) = read_i32s_at(d, q, (count - 1) as nat);
                match rest {
                    Ok(s) => (Ok(seq![v] + s), q2),
                    Err(e) => (Err(e), q2),
                }
            },
        }
    }
}

/// Reading a compact array of `i32` at `p`: a varint count plus one, then
/// the values.
pub open spec fn read_compact_i32_array_at(d: Seq<u8>, p: int) -> (Result<Seq<i32>, Fault>, int) {
    chain(read_uvarint_at(d, p), |n: u64, q: int| read_i32s_at(d, q, compact_len(n) as nat))
}

/// Reading a sixteen-byte id at `p`.
pub open spec fn read_uuid_at(d: Seq<u8>, p: int) -> (Result<Seq<u8>, Fault>, int) {
    if fits(d, p, 16) {
        (Ok(d.subrange(p, p + 16)), p + 16)
    } else {
        (Err(Fault::Incomplete), p)
    }
}

/// A varint that lies at `q` reads back as its value and ends right after
/// its bytes.
pub proof fn lemma_read_uvarint_placed(d: Seq<u8>, q: int, w: nat)
    requires
        w < 0x1_0000_0000_0000_0000,
        placed(d, q, leb128(w)),
    ensures
        leb128(w).len() <= 10,
        read_uvarint_at(d, q) == (Ok::<u64, Fault>(w as u64), q + leb128(w).len()),
{
    lemma2_to64();
    assert(w * pow2(7 * 0nat) + 0 == w) by {
        assert(7 * 0nat == 0);
        assert(pow2(0) == 1);
        assert(w * 1 == w);
    }
    lemma_read_leb128(d, q, 0, 0u64, w, w);
}

/// Integers one after another, each as four big-endian bytes.
pub open spec fn be_i32s(v: Seq<i32>) -> Seq<u8>
    decreases v.len(),
{
    if v.len() == 0 {
        seq![]
    } else {
        i32_be(v[0] as int) + be_i32s(v.drop_first())
    }
}

/// Each integer takes four bytes.
pub proof fn lemma_be_i32s_len(v: Seq<i32>)
    ensures
        be_i32s(v).len() == 4 * v.len(),
    decreases v.len(),
{
    if v.len() > 0 {
        crate::wire::lemma_i32_roundtrip(v[0]);
        lemma_be_i32s_len(v.drop_first());
    }
}

/// Appending an integer appends its four bytes.
pub proof fn lemma_be_i32s_push(v: Seq<i32>, x: i32)
    ensures
        be_i32s(v.push(x)) == be_i32s(v) + i32_be(x as int),
    decreases v.len(),
{
    if v.len() == 0 {
        assert(v.push(x).drop_first() =~= Seq::<i32>::empty());
        assert(be_i32s(Seq::<i32>::empty()) =~= Seq::<u8>::empty());
        assert(v.push(x)[0] == x);
        assert(be_i32s(v.push(x)) =~= i32_be(x as int) + Seq::<u8>::empty());
        assert(be_i32s(v) =~= Seq::<u8>::empty());
    } else {
        assert(v.push(x).drop_first() =~= v.drop_first().push(x));
        lemma_be_i32s_push(v.drop_first(), x);
        assert(be_i32s(v.push(x)) =~= i32_be(v[0] as int) + (be_i32s(v.drop_first()) + i32_be(x as int)));
    }
}

/// Integers that lie at `q` are read back, all of them.
pub proof fn lemma_read_i32s_placed(d: Seq<u8>, q: int, v: Seq<i32>)
    requires
        placed(d, q, be_i32s(v)),
    ensures
        read_i32s_at(d, q, v.len()) == (Ok::<Seq<i32>, Fault>(v), q + 4 * v.len()),
    decreases v.len(),
{
    lemma_be_i32s_len(v);
    if v.len() > 0 {
        let rest = v.drop_first();
        lemma_placed_split(d, q, i32_be(v[0] as int), be_i32s(rest));
        crate::wire::lemma_i32_roundtrip(v[0]);
        lemma_read_i32_placed(d, q, v[0]);
        lemma_read_i32s_placed(d, q + 4, rest);
        assert((v.len() - 1) as nat == rest.len());
        assert(read_i32s_at(d, q + 4, rest.len()) == (Ok::<Seq<i32>, Fault>(rest), q + 4 + 4 * rest.len()));
        assert(seq![v[0]] + rest =~= v);
        assert(read_i32s_at(d, q, v.len()) == (Ok::<Seq<i32>, Fault>(seq![v[0]] + rest), q + 4 + 4 * rest.len()));
    } else {
        assert(v =~= Seq::<i32>::empty());
    }
}

/// A compact array of integers as a varint count plus one, then the
/// integers.
pub open spec fn compact_i32s_bytes(v: Seq<i32>) -> Seq<u8> {
    leb128((v.len() + 1) as nat) + be_i32s(v)
}

/// A compact array that lies at `q` reads back as its integers and ends
/// right after its bytes.
pub proof fn lemma_read_compact_i32s_placed(d: Seq<u8>, q: int, v: Seq<i32>)
    requires
        v.len() < 0x1_0000_0000,
        placed(d, q, compact_i32s_bytes(v)),
    ensures
        read_compact_i32_array_at(d, q) == (Ok::<Seq<i32>, Fault>(v), q + compact_i32s_bytes(v).len()),
{
    let n = (v.len() + 1) as nat;
    lemma_placed_split(d, q, leb128(n), be_i32s(v));
    lemma_read_uvarint_placed(d, q, n);
    lemma_be_i32s_len(v);
    assert(compact_len(n as u64) == v.len());
    lemma_read_i32s_placed(d, q + leb128(n).len(), v);
}

/// A partition record as laid out in the log: version, partition id, topic
/// id, then the compact arrays of replicas, in-sync replicas, removing and
/// adding replicas, then leader and leader epoch.
pub open spec fn partition_record_bytes(
    version: u8,
    partition_id: i32,
    topic_id: Seq<u8>,
    replicas: Seq<i32>,
    isr: Seq<i32>,
    removing: Seq<i32>,
    adding: Seq<i32>,
    leader: i32,
    leader_epoch: i32,
) -> Seq<u8> {
    seq![version] + i32_be(partition_id as int) + topic_id + compact_i32s_bytes(replicas) + compact_i32s_bytes(isr)
        + compact_i32s_bytes(removing) + compact_i32s_bytes(adding) + i32_be(leader as int)
        + i32_be(leader_epoch as int)
}

/// Where each field of a partition record lies when the whole record lies
/// at the start of `d`: the offsets of the four arrays, the leader and the
/// leader epoch.
#[verifier::spinoff_prover]
proof fn lemma_partition_record_pieces(
    d: Seq<u8>,
    version: u8,
    partition_id: i32,
    topic_id: Seq<u8>,
    replicas: Seq<i32>,
    isr: Seq<i32>,
    removing: Seq<i32>,
    adding: Seq<i32>,
    leader: i32,
    leader_epoch: i32,
) -> (o: (int, int, int, int, int, int))
    requires
        topic_id.len() == 16,
        placed(d, 0, partition_record_bytes(
            version, partition_id, topic_id, replicas, isr, removing, adding, leader, leader_epoch,
        )),
    ensures
        placed(d, 0, seq![version]),
        placed(d, 1, i32_be(partition_id as int)),
        placed(d, 5, topic_id),
        o.0 == 21,
        placed(d, o.0, compact_i32s_bytes(replicas)),
        o.1 == o.0 + compact_i32s_bytes(replicas).len(),
        placed(d, o.1, compact_i32s_bytes(isr)),
        o.2 == o.1 + compact_i32s_bytes(isr).len(),
        placed(d, o.2, compact_i32s_bytes(removing)),
        o.3 == o.2 + compact_i32s_bytes(removing).len(),
        placed(d, o.3, compact_i32s_bytes(adding)),
        o.4 == o.3 + compact_i32s_bytes(adding).len(),
        placed(d, o.4, i32_be(leader as int)),
        o.5 == o.4 + 4,
        placed(d, o.5, i32_be(leader_epoch as int)),
        o.5 + 4 == partition_record_bytes(
            version, partition_id, topic_id, replicas, isr, removing, adding, leader, leader_epoch,
        ).len(),
{
    crate::wire::lemma_i32_roundtrip(partition_id);
    crate::wire::lemma_i32_roundtrip(leader);
    crate::wire::lemma_i32_roundtrip(leader_epoch);
    let a0 = seq![version];
    let a1 = a0 + i32_be(partition_id as int);
    let a2 = a1 + topic_id;
    let a3 = a2 + compact_i32s_bytes(replicas);
    let a4 = a3 + compact_i32s_bytes(isr);
    let a5 = a4 + compact_i32s_bytes(removing);
    let a6 = a5 + compact_i32s_bytes(adding);
    let a7 = a6 + i32_be(leader as int);
    lemma_placed_split(d, 0, a7, i32_be(leader_epoch as int));
    lemma_placed_split(d, 0, a6, i32_be(leader as int));
    lemma_placed_split(d, 0, a5, compact_i32s_bytes(adding));
    lemma_placed_split(d, 0, a4, compact_i32s_bytes(removing));
    lemma_placed_split(d, 0, a3, compact_i32s_bytes(isr));
    lemma_placed_split(d, 0, a2, compact_i32s_bytes(replicas));
    lemma_placed_split(d, 0, a1, topic_id);
    lemma_placed_split(d, 0, a0, i32_be(partition_id as int));
    (a2.len() as int, a3.len() as int, a4.len() as int, a5.len() as int, a6.len() as int, a7.len() as int)
}

/// A partition record laid out as the log lays it out, followed by
/// anything, reads back as its fields: the first array is the replicas,
/// the second the in-sync replicas, the next two are passed over, and the
/// reader stops right after the leader epoch.
#[verifier::spinoff_prover]
pub proof fn law_partition_record_read_back(
    version: u8,
    partition_id: i32,
    topic_id: Seq<u8>,
    replicas: Seq<i32>,
    isr: Seq<i32>,
    removing: Seq<i32>,
    adding: Seq<i32>,
    leader: i32,
    leader_epoch: i32,
    tail: Seq<u8>,
)
    requires
        topic_id.len() == 16,
        replicas.len() < 0x1_0000_0000,
        isr.len() < 0x1_0000_0000,
        removing.len() < 0x1_0000_0000,
        adding.len() < 0x1_0000_0000,
    ensures
        ({
            let e = partition_record_bytes(
                version, partition_id, topic_id, replicas, isr, removing, adding, leader, leader_epoch,
            );
            read_partition_record_at(e + tail, 0) == (Ok::<PartitionRecordView, Fault>(PartitionRecordView {
                version,
                partition_id,
                topic_id,
                replicas,
                isr,
                leader,
                leader_epoch,
            }), e.len() as int)
        }),
{
    let e = partition_record_bytes(
        version, partition_id, topic_id, replicas, isr, removing, adding, leader, leader_epoch,
    );
    let d = e + tail;
    lemma_placed_prefix(e, tail);
    let (o2, o3, o4, o5, o6, o7) = lemma_partition_record_pieces(
        d, version, partition_id, topic_id, replicas, isr, removing, adding, leader, leader_epoch,
    );
    lemma_read_u8_placed(d, 0, version);
    lemma_read_i32_placed(d, 1, partition_id);
    assert(read_uuid_at(d, 5) == (Ok::<Seq<u8>, Fault>(topic_id), 21int));
    lemma_read_compact_i32s_placed(d, o2, replicas);
    lemma_read_compact_i32s_placed(d, o3, isr);
    lemma_read_compact_i32s_placed(d, o4, removing);
    lemma_read_compact_i32s_placed(d, o5, adding);
    lemma_read_i32_placed(d, o6, leader);
    lemma_read_i32_placed(d, o7, leader_epoch);
}

/// Reading a topic record at `p`: version, compact name, id.
pub open spec fn read_topic_record_at(d: Seq<u8>, p: int) -> (Result<TopicRecordView, Fault>, int) {
    chain(read_u8_at(d, p), |version: u8, p1: int|
    chain(read_compact_string_at(d, p1), |topic_name: Seq<char>, p2: int|
    chain(read_uuid_at(d, p2), |topic_id: Seq<u8>, p3: int|
    (Ok(TopicRecordView { version, topic_name, topic_id }), p3))))
}

/// Reading a partition record at `p`: version, partition id, topic id,
/// replicas, in-sync replicas, removing and adding replicas (read and
/// dropped), leader and leader epoch.
pub open spec fn read_partition_record_at(d: Seq<u8>, p: int) -> (Result<PartitionRecordView, Fault>, int) {
    chain(read_u8_at(d, p), |version: u8, p1: int|
    chain(read_i32_at(d, p1), |partition_id: i32, p2: int|
    chain(read_uuid_at(d, p2), |topic_id: Seq<u8>, p3: int|
    chain(read_compact_i32_array_at(d, p3), |replicas: Seq<i32>, p4: int|
    chain(read_compact_i32_array_at(d, p4), |isr: Seq<i32>, p5: int|
    chain(read_compact_i32_array_at(d, p5), |_removing: Seq<i32>, p6: int|
    chain(read_compact_i32_array_at(d, p6), |_adding: Seq<i32>, p7: int|
    chain(read_i32_at(d, p7), |leader: i32, p8: int|
    chain(read_i32_at(d, p8), |leader_epoch: i32, p9: int|
    (Ok(PartitionRecordView { version, partition_id, topic_id, replicas, isr, leader, leader_epoch }), p9))))))))))
}

/// Reading a feature-level record at `p`: version, compact name, level.
pub open spec fn read_feature_level_record_at(d: Seq<u8>, p: int) -> (Result<FeatureLevelRecordView, Fault>, int) {
    chain(read_u8_at(d, p), |version: u8, p1: int|
    chain(read_compact_string_at(d, p1), |name: Seq<char>, p2: int|
    chain(read_u16_at(d, p2), |feature_level: u16, p3: int|
    (Ok(FeatureLevelRecordView { version, name, feature_level }), p3))))
}

/// `x` modulo `2^64`: where a position lands when an offset is added to it
/// with wrap-around.
pub open spec fn wrap64(x: int) -> int {
    x % 0x1_0000_0000_0000_0000
}

/// Reading the body of a record of kind `kind` at `p`: kinds 2, 3 and 12
/// are topic, partition and feature-level records; other kinds are passed
/// over.
pub open spec fn read_record_body_at(d: Seq<u8>, p: int, kind: u8) -> (Result<Option<RecordView>, Fault>, int) {
    if kind == 2 {
        chain(read_topic_record_at(d, p), |t: TopicRecordView, q: int| (Ok(Some(RecordView::Topic(t))), q))
    } else if kind == 3 {
        chain(read_partition_record_at(d, p), |r: PartitionRecordView, q: int| (Ok(Some(RecordView::Partition(r))), q))
    } else if kind == 12 {
        chain(
            read_feature_level_record_at(d, p),
            |f: FeatureLevelRecordView, q: int| (Ok(Some(RecordView::FeatureLevel(f))), q),
        )
    } else {
        (Ok(None), p)
    }
}

/// Reading the fields of a record between its length and its key at `p`:
/// attributes, timestamp delta, offset delta (all dropped), and the key
/// length.
pub open spec fn read_record_head_at(d: Seq<u8>, p: int) -> (Result<i64, Fault>, int) {
    chain(read_i8_at(d, p), |_attributes: i8, p1: int|
    chain(read_varint_at(d, p1), |_timestamp_delta: i64, p2: int|
    chain(read_varint_at(d, p2), |_offset_delta: i64, p3: int|
    read_varint_at(d, p3))))
}

/// Reading the fields of a record between its key and its body at `p`:
/// value length and frame version (dropped), and the record's kind.
pub open spec fn read_record_tail_at(d: Seq<u8>, p: int) -> (Result<u8, Fault>, int) {
    chain(read_varint_at(d, p), |_value_length: i64, p1: int|
    chain(read_u8_at(d, p1), |_frame_version: u8, p2: int|
    read_u8_at(d, p2)))
}

/// Skipping a key of `key_length` bytes at `p`; a key length of zero or
/// less skips nothing.
pub open spec fn skip_key_at(d: Seq<u8>, p: int, key_length: i64) -> (Result<(), Fault>, int) {
    if key_length > 0 { skip_at(d, p, key_length as int) } else { (Ok(()), p) }
}

/// Reading a record at `p`: a varint length, then attributes, timestamp
/// and offset deltas, a key (skipped), a value length, a frame version and
/// the kind, then the body. Reading goes on at the record's start plus its
/// length, wrapping around at `2^64`, wherever the body ended.
#[verifier::opaque]
pub open spec fn read_record_at(d: Seq<u8>, p: int) -> (Result<Option<RecordView>, Fault>, int) {
    chain(read_varint_at(d, p), |length: i64, start: int|
    chain(read_record_head_at(d, start), |key_length: i64, p1: int|
    chain(skip_key_at(d, p1, key_length), |_key: (), p2: int|
    chain(read_record_tail_at(d, p2), |kind: u8, p3: int|
    chain(read_record_body_at(d, p3, kind), |record: Option<RecordView>, _p4: int|
    (Ok(record), wrap64(start + length)))))))
}

/// The records of known kinds that an optional record adds.
pub open spec fn known<T>(o: Option<T>) -> Seq<T> {
    match o {
        Some(r) => seq![r],
        None => seq![],
    }
}

/// Reading `count` records at `p`, keeping those of known kinds.
pub open spec fn read_records_at(d: Seq<u8>, p: int, count: nat) -> (Result<Seq<RecordView>, Fault>, int)
    decreases count,
{
    if count == 0 {
        (Ok(seq![]), p)
    } else {
        let (first, q) = read_record_at(d, p);
        match first {
            Err(e) => (Err(e), q),
            Ok(rec) => {
                let (rest, q2) = read_records_at(d, q, (count - 1) as nat);
                match rest {
                    Ok(s) => (Ok(known(rec) + s), q2),
                    Err(e) => (Err(e), q2),
                }
            },
        }
    }
}

/// Size of the fixed header of a record batch, up to its record count.
pub open spec fn batch_header_len() -> int {
    61
}

/// The batch whose header is at `p`, with the records that reading them
/// gave, or the failure of that reading.
#[verifier::opaque]
pub open spec fn batch_with(d: Seq<u8>, p: int, records: Result<Seq<RecordView>, Fault>) -> Result<BatchView, Fault> {
    match records {
        Err(e) => Err(e),
        Ok(records) => Ok(BatchView {
            base_offset: be_u64_at(d, p) as u64,
            batch_length: be_u32_at(d, p + 8) as u32,
            partition_leader_epoch: be_u32_at(d, p + 12) as u32,
            magic_byte: d[p + 16],
            crc: signed32(be_u32_at(d, p + 17)) as i32,
            attribute: be_u16_at(d, p + 21) as u16,
            last_offset_delta: be_u32_at(d, p + 23) as u32,
            base_timestamp: be_u64_at(d, p + 27) as u64,
            max_timestamp: be_u64_at(d, p + 35) as u64,
            producer_id: signed64(be_u64_at(d, p + 43)) as i64,
            producer_epoch: signed16(be_u16_at(d, p + 51)) as i16,
            base_sequence: signed32(be_u32_at(d, p + 53)) as i32,
            records,
        }),
    }
}

/// A failed reading of the records fails the batch the same way.
proof fn lemma_batch_with_err(d: Seq<u8>, p: int, e: Fault)
    ensures
        batch_with(d, p, Err(e)) == Err::<BatchView, Fault>(e),
{
    reveal(batch_with);
}

/// Reading a record batch at `p`: twelve fixed header fields (base offset,
/// batch length, partition leader epoch, magic byte, CRC, attributes, last
/// offset delta, base and max timestamps, producer id and epoch, base
/// sequence), a record count, and that many records.
pub open spec fn read_batch_at(d: Seq<u8>, p: int) -> Result<BatchView, Fault> {
    if !fits(d, p, batch_header_len()) {
        Err(Fault::Incomplete)
    } else {
        batch_with(d, p, read_records_at(d, p + 61, be_u32_at(d, p + 57) as nat).0)
    }
}

/// Reading record batches from `p` to the end: each batch is read at the
/// position where the previous one ends, twelve bytes past its start plus
/// its length, and the first failure ends the log.
pub open spec fn read_log_from(d: Seq<u8>, p: int) -> Result<Seq<BatchView>, Fault>
    decreases left_at(d, p),
{
    if p >= d.len() {
        Ok(seq![])
    } else {
        match read_batch_at(d, p) {
            Err(e) => Err(e),
            Ok(b) => match read_log_from(d, p + 12 + b.batch_length) {
                Ok(rest) => Ok(seq![b] + rest),
                Err(e) => Err(e),
            },
        }
    }
}

/// The record batches of a whole log.
pub open spec fn read_log(d: Seq<u8>) -> Result<Seq<BatchView>, Fault> {
    read_log_from(d, 0)
}

/// The values of a list of batches.
pub open spec fn batch_views(v: Seq<BatchRecord>) -> Seq<BatchView> {
    v.map_values(|b: BatchRecord| b@)
}

/// The values of a list of records.
pub open spec fn record_views(v: Seq<Record>) -> Seq<RecordView> {
    v.map_values(|r: Record| r@)
}

/// All records of a log, batch after batch.
pub open spec fn log_records(bs: Seq<BatchView>) -> Seq<RecordView>
    decreases bs.len(),
{
    if bs.len() == 0 {
        seq![]
    } else {
        log_records(bs.drop_last()) + bs.last().records
    }
}

/// The first topic record named `name` among `rs`.
pub open spec fn first_topic_named(rs: Seq<RecordView>, name: Seq<char>) -> Option<TopicRecordView>
    decreases rs.len(),
{
    if rs.len() == 0 {
        None
    } else {
        match rs[0] {
            RecordView::Topic(t) => if t.topic_name == name {
                Some(t)
            } else {
                first_topic_named(rs.drop_first(), name)
            },
            _ => first_topic_named(rs.drop_first(), name),
        }
    }
}

/// The partition records among `rs` that belong to the topic with id `id`,
/// in order.
pub open spec fn partitions_of(rs: Seq<RecordView>, id: Seq<u8>) -> Seq<PartitionRecordView>
    decreases rs.len(),
{
    if rs.len() == 0 {
        seq![]
    } else {
        partitions_of(rs.drop_last(), id) + match rs.last() {
            RecordView::Partition(p) => if p.topic_id == id { seq![p] } else { seq![] },
            _ => seq![],
        }
    }
}

/// Every partition found for a topic id carries that id, and is one of
/// the records.
pub proof fn law_partitions_of_match(rs: Seq<RecordView>, id: Seq<u8>)
    ensures
        forall|i: int| 0 <= i < partitions_of(rs, id).len() ==> (#[trigger] partitions_of(rs, id)[i]).topic_id == id,
        partitions_of(rs, id).len() <= rs.len(),
    decreases rs.len(),
{
    if rs.len() > 0 {
        law_partitions_of_match(rs.drop_last(), id);
    }
}

/// The topic found for a name has that name, and is a topic record of the
/// log.
pub proof fn law_first_topic_named(rs: Seq<RecordView>, name: Seq<char>)
    ensures
        first_topic_named(rs, name) matches Some(t) ==> t.topic_name == name && exists|i: int|
            0 <= i < rs.len() && rs[i] == RecordView::Topic(t),
    decreases rs.len(),
{
    if rs.len() > 0 {
        law_first_topic_named(rs.drop_first(), name);
        if let Some(t) = first_topic_named(rs.drop_first(), name) {
            if first_topic_named(rs, name) == Some(t) && rs[0] != RecordView::Topic(t) {
                let i = choose|i: int| 0 <= i < rs.drop_first().len() && rs.drop_first()[i] == RecordView::Topic(t);
                assert(rs[i + 1] == RecordView::Topic(t));
            }
        }
    }
}

/// A single record is the first topic named `name` exactly when it is a
/// topic with that name.
proof fn lemma_first_topic_single(x: RecordView, name: Seq<char>)
    ensures
        first_topic_named(seq![x], name) == match x {
            RecordView::Topic(t) => if t.topic_name == name { Some(t) } else { None },
            _ => None,
        },
{
    assert(seq![x].drop_first() =~= Seq::<RecordView>::empty());
    reveal_with_fuel(first_topic_named, 2);
}

/// The first topic named `name` in `a + b` is the first in `a`, or else
/// the first in `b`.
pub proof fn lemma_first_topic_append(a: Seq<RecordView>, b: Seq<RecordView>, name: Seq<char>)
    ensures
        first_topic_named(a + b, name) == if first_topic_named(a, name) is Some {
            first_topic_named(a, name)
        } else {
            first_topic_named(b, name)
        },
    decreases a.len(),
{
    if a.len() > 0 {
        assert((a + b).drop_first() =~= a.drop_first() + b);
        lemma_first_topic_append(a.drop_first(), b, name);
    } else {
        assert(a + b =~= b);
    }
}

/// The records of two logs put together are those of the first, then those
/// of the second.
proof fn lemma_log_records_concat(a: Seq<BatchView>, b: Seq<BatchView>)
    ensures
        log_records(a + b) == log_records(a) + log_records(b),
    decreases b.len(),
{
    if b.len() == 0 {
        assert(a + b =~= a);
        assert(log_records(a) + log_records(b) =~= log_records(a));
    } else {
        assert((a + b).drop_last() =~= a + b.drop_last());
        lemma_log_records_concat(a, b.drop_last());
        assert(log_records(a) + log_records(b.drop_last()) + b.last().records
            =~= log_records(a) + (log_records(b.drop_last()) + b.last().records));
    }
}

/// The records of the first `i + 1` batches are those of the first `i`
/// followed by those of batch `i`.
proof fn lemma_log_records_take(bs: Seq<BatchView>, i: int)
    requires
        0 <= i < bs.len(),
    ensures
        log_records(bs.take(i + 1)) == log_records(bs.take(i)) + bs[i].records,
{
    assert(bs.take(i + 1).drop_last() =~= bs.take(i));
}

/// Prefixes the batches of a successful read with `done`.
pub open spec fn after_log(done: Seq<BatchView>, r: Result<Seq<BatchView>, Fault>) -> Result<Seq<BatchView>, Fault> {
    match r {
        Ok(s) => Ok(done + s),
        Err(e) => Err(e),
    }
}

/// A record read result as a value.
pub open spec fn lifted_record(r: Result<Option<Record>, ParseError>) -> Result<Option<RecordView>, Fault> {
    match r {
        Ok(Some(rec)) => Ok(Some(rec@)),
        Ok(None) => Ok(None),
        Err(e) => Err(e@),
    }
}

/// Prefixes the values of a successful read with `done`.
pub open spec fn after<T>(done: Seq<T>, r: (Result<Seq<T>, Fault>, int)) -> (Result<Seq<T>, Fault>, int) {
    match r.0 {
        Ok(s) => (Ok(done + s), r.1),
        Err(e) => (Err(e), r.1),
    }
}

fn get_u8(src: &mut ByteCursor) -> (r: Result<u8, ParseError>)
    ensures
        final(src).data == old(src).data,
        (lifted(r), final(src).pos as int) == read_u8_at(old(src).data@, old(src).pos as int),
{
    match src.read_u8() {
        Some(v) => Ok(v),
        None => Err(ParseError::Incomplete),
    }
}

fn get_i8(src: &mut ByteCursor) -> (r: Result<i8, ParseError>)
    ensures
        final(src).data == old(src).data,
        (lifted(r), final(src).pos as int) == read_i8_at(old(src).data@, old(src).pos as int),
{
    match src.read_i8() {
        Some(v) => Ok(v),
        None => Err(ParseError::Incomplete),
    }
}

fn get_u16(src: &mut ByteCursor) -> (r: Result<u16, ParseError>)
    ensures
        final(src).data == old(src).data,
        (lifted(r), final(src).pos as int) == read_u16_at(old(src).data@, old(src).pos as int),
{
    match src.read_u16() {
        Some(v) => Ok(v),
        None => Err(ParseError::Incomplete),
    }
}

fn get_i16(src: &mut ByteCursor) -> (r: Result<i16, ParseError>)
    ensures
        final(src).data == old(src).data,
        (lifted(r), final(src).pos as int) == read_i16_at(old(src).data@, old(src).pos as int),
{
    match src.read_i16() {
        Some(v) => Ok(v),
        None => Err(ParseError::Incomplete),
    }
}

fn get_u32(src: &mut ByteCursor) -> (r: Result<u32, ParseError>)
    ensures
        final(src).data == old(src).data,
        (lifted(r), final(src).pos as int) == read_u32_at(old(src).data@, old(src).pos as int),
{
    match src.read_u32() {
        Some(v) => Ok(v),
        None => Err(ParseError::Incomplete),
    }
}

fn get_i32(src: &mut ByteCursor) -> (r: Result<i32, ParseError>)
    ensures
        final(src).data == old(src).data,
        (lifted(r), final(src).pos as int) == read_i32_at(old(src).data@, old(src).pos as int),
{
    match src.read_i32() {
        Some(v) => Ok(v),
        None => Err(ParseError::Incomplete),
    }
}

fn get_u64(src: &mut ByteCursor) -> (r: Result<u64, ParseError>)
    ensures
        final(src).data == old(src).data,
        (lifted(r), final(src).pos as int) == read_u64_at(old(src).data@, old(src).pos as int),
{
    match src.read_u64() {
        Some(v) => Ok(v),
        None => Err(ParseError::Incomplete),
    }
}

fn get_i64(src: &mut ByteCursor) -> (r: Result<i64, ParseError>)
    ensures
        final(src).data == old(src).data,
        (lifted(r), final(src).pos as int) == read_i64_at(old(src).data@, old(src).pos as int),
{
    match src.read_i64() {
        Some(v) => Ok(v),
        None => Err(ParseError::Incomplete),
    }
}

fn skip(src: &mut ByteCursor, n: usize) -> (r: Result<(), ParseError>)
    ensures
        final(src).data == old(src).data,
        (lifted(r), final(src).pos as int) == skip_at(old(src).data@, old(src).pos as int, n as int),
{
    if src.remaining() < n {
        return Err(ParseError::Incomplete);
    }
    src.advance(n);
    Ok(())
}

fn get_uvarint(src: &mut ByteCursor) -> (r: Result<u64, ParseError>)
    ensures
        final(src).data == old(src).data,
        (lifted(r), final(src).pos as int) == read_uvarint_at(old(src).data@, old(src).pos as int),
{
    let ghost d = src.data@;
    let ghost start = src.pos as int;
    let mut value: u64 = 0;
    let mut shift: u64 = 0;
    while shift < 64
        invariant
            src.data@ == d,
            src.data == old(src).data,
            d == old(src).data@,
            start == old(src).pos,
            uvarint_from(d, src.pos as int, shift as int, value) == read_uvarint_at(d, start),
        decreases 70 - shift,
    {
        let byte = get_u8(src)?;
        value = value | (((byte & 0x7f) as u64) << shift);
        if byte & 0x80 == 0 {
            return Ok(value);
        }
        shift = shift + 7;
    }
    Err(ParseError::Other(String::from_str("varint too long")))
}

fn get_varint(src: &mut ByteCursor) -> (r: Result<i64, ParseError>)
    ensures
        final(src).data == old(src).data,
        (lifted(r), final(src).pos as int) == read_varint_at(old(src).data@, old(src).pos as int),
{
    let raw = get_uvarint(src)?;
    proof {
        assert(raw & 1 <= 1) by (bit_vector);
        assert(raw >> 1 < 0x8000_0000_0000_0000u64) by (bit_vector);
    }
    let sign: i64 = -((raw & 1) as i64);
    let v = ((raw >> 1) as i64) ^ sign;
    proof {
        lemma_zigzag(raw, sign);
    }
    Ok(v)
}

/// The bit form of zigzag decoding agrees with its arithmetic form.
proof fn lemma_zigzag(raw: u64, sign: i64)
    requires
        sign == -((raw & 1) as int),
    ensures
        (((raw >> 1) as i64) ^ sign) as int == zigzag(raw),
{
    assert(raw >> 1 == raw / 2) by (bit_vector);
    assert(raw & 1 == raw % 2) by (bit_vector);
    assert(raw >> 1 < 0x8000_0000_0000_0000u64) by (bit_vector);
    let half: i64 = (raw >> 1) as i64;
    assert(half == raw / 2);
    if raw % 2 == 0 {
        assert(sign == 0);
        assert(half ^ 0i64 == half) by (bit_vector);
    } else {
        assert(sign == -1);
        assert(half >= 0 ==> (half ^ -1i64) == -half - 1) by (bit_vector);
    }
}

fn get_compact_string(src: &mut ByteCursor) -> (r: Result<String, ParseError>)
    ensures
        final(src).data == old(src).data,
        (lifted(r), final(src).pos as int) == read_compact_string_at(old(src).data@, old(src).pos as int),
{
    let ghost d = src.data@;
    let ghost p = src.pos as int;
    let n = get_uvarint(src)?;
    proof {
        lemma_uvarint_within(d, p, 0, 0);
    }
    let len = n.saturating_sub(1);
    let ghost q = src.pos as int;
    assert(compact_len(n) == len);
    if (src.remaining() as u64) < len {
        return Err(ParseError::Incomplete);
    }
    let len = len as usize;
    let buf = crate::wire::copy_range(src.chunk(), 0, len);
    src.advance(len);
    let ghost bytes = d.subrange(q, q + len);
    assert(buf@ =~= bytes);
    match string_from_utf8(buf) {
        Ok(s) => Ok(s),
        Err(bytes) => Err(ParseError::Utf8Error(bytes)),
    }
}

fn get_compact_i32_array(src: &mut ByteCursor) -> (r: Result<Vec<i32>, ParseError>)
    ensures
        final(src).data == old(src).data,
        (lifted(r), final(src).pos as int) == read_compact_i32_array_at(old(src).data@, old(src).pos as int),
{
    let ghost d = src.data@;
    let n = get_uvarint(src)?;
    let len = n.saturating_sub(1);
    let ghost start = src.pos as int;
    assert(compact_len(n) == len);
    let mut values: Vec<i32> = Vec::new();
    let mut i: u64 = 0;
    while i < len
        invariant
            src.data@ == d,
            src.data == old(src).data,
            d == old(src).data@,
            i <= len,
            after(values@, read_i32s_at(d, src.pos as int, (len - i) as nat))
                == read_i32s_at(d, start, len as nat),
            read_compact_i32_array_at(d, old(src).pos as int) == read_i32s_at(d, start, len as nat),
        decreases len - i,
    {
        let ghost before = values@;
        let ghost p = src.pos as int;
        let ghost k = (len - i) as nat;
        assert(read_i32s_at(d, p, k) == {
            let (first, q) = read_i32_at(d, p);
            match first {
                Err(e) => (Err(e), q),
                Ok(v) => {
                    let (rest, q2) = read_i32s_at(d, q, (k - 1) as nat);
                    match rest {
                        Ok(s) => (Ok(seq![v] + s), q2),
                        Err(e) => (Err(e), q2),
                    }
                },
            }
        });
        let v = get_i32(src)?;
        values.push(v);
        i = i + 1;
        assert(before + (seq![v] + read_i32s_at(d, src.pos as int, (len - i) as nat).0->Ok_0)
            =~= values@ + read_i32s_at(d, src.pos as int, (len - i) as nat).0->Ok_0);
    }
    assert(values@ + Seq::<i32>::empty() =~= values@);
    Ok(values)
}

fn get_uuid(src: &mut ByteCursor) -> (r: Result<[u8; 16], ParseError>)
    ensures
        final(src).data == old(src).data,
        (lifted(r), final(src).pos as int) == read_uuid_at(old(src).data@, old(src).pos as int),
{
    if src.remaining() < 16 {
        return Err(ParseError::Incomplete);
    }
    let c = src.chunk();
    let id: [u8; 16] = [
        c[0], c[1], c[2], c[3], c[4], c[5], c[6], c[7],
        c[8], c[9], c[10], c[11], c[12], c[13], c[14], c[15],
    ];
    src.advance(16);
    assert(id@ =~= old(src).data@.subrange(old(src).pos as int, old(src).pos + 16));
    Ok(id)
}


impl TopicRecord {
    fn parse(src: &mut ByteCursor) -> (r: Result<Self, ParseError>)
        ensures
            final(src).data == old(src).data,
            (lifted(r), final(src).pos as int) == read_topic_record_at(old(src).data@, old(src).pos as int),
    {
        let version = get_u8(src)?;
        let topic_name = get_compact_string(src)?;
        let topic_id = get_uuid(src)?;
        Ok(Self { version, topic_name, topic_id })
    }
}

impl PartitionRecord {
    fn parse(src: &mut ByteCursor) -> (r: Result<Self, ParseError>)
        ensures
            final(src).data == old(src).data,
            (lifted(r), final(src).pos as int) == read_partition_record_at(old(src).data@, old(src).pos as int),
    {
        let version = get_u8(src)?;
        let partition_id = get_i32(src)?;
        let topic_id = get_uuid(src)?;
        let replicas = get_compact_i32_array(src)?;
        let isr = get_compact_i32_array(src)?;
        let _removing_replicas = get_compact_i32_array(src)?;
        let _adding_replicas = get_compact_i32_array(src)?;
        let leader = get_i32(src)?;
        let leader_epoch = get_i32(src)?;
        Ok(Self { version, partition_id, topic_id, replicas, isr, leader, leader_epoch })
    }
}

impl FeatureLevelRecord {
    fn parse(src: &mut ByteCursor) -> (r: Result<Self, ParseError>)
        ensures
            final(src).data == old(src).data,
            (lifted(r), final(src).pos as int) == read_feature_level_record_at(old(src).data@, old(src).pos as int),
    {
        let version = get_u8(src)?;
        let name = get_compact_string(src)?;
        Ok(Self { version, name, feature_level: get_u16(src)? })
    }
}


/// `start + delta` modulo `2^64`.
fn wrap_position(start: u64, delta: i64) -> (r: u64)
    ensures
        r == wrap64(start + delta),
{
    let t: i128 = start as i128 + delta as i128;
    let m: i128 = 0x1_0000_0000_0000_0000i128;
    let w: i128 = if t < 0 {
        t + m
    } else if t >= m {
        t - m
    } else {
        t
    };
    assert(w == t % m);
    w as u64
}

/// Reads one record and moves to where the next one starts.
fn parse_record(src: &mut ByteCursor) -> (r: Result<Option<Record>, ParseError>)
    ensures
        final(src).data == old(src).data,
        (lifted_record(r), final(src).pos as int) == read_record_at(old(src).data@, old(src).pos as int),
{
    reveal(read_record_at);
    let length = get_varint(src)?;
    let record_start = src.position();
    let _attributes = get_i8(src)?;
    let _timestamp_delta = get_varint(src)?;
    let _offset_delta = get_varint(src)?;
    let key_length = get_varint(src)?;
    if key_length > 0 {
        if (src.remaining() as u64) < (key_length as u64) {
            return Err(ParseError::Incomplete);
        }
        skip(src, key_length as usize)?;
    }
    let _value_length = get_varint(src)?;
    let _frame_version = get_u8(src)?;
    let type_record = get_u8(src)?;

    let record = match type_record {
        2 => Some(Record::Topic(TopicRecord::parse(src)?)),
        3 => Some(Record::Partition(PartitionRecord::parse(src)?)),
        12 => Some(Record::FeatureLevel(FeatureLevelRecord::parse(src)?)),
        _ => None,
    };

    src.set_position(wrap_position(record_start, length));
    Ok(record)
}

/// Reads one record batch and moves to where the next one starts.
fn parse_batch(src: &mut ByteCursor) -> (r: Result<BatchRecord, ParseError>)
    requires
        old(src).data@.len() <= isize::MAX,
    ensures
        final(src).data == old(src).data,
        lifted(r) == read_batch_at(old(src).data@, old(src).pos as int),
        r matches Ok(b) ==> final(src).pos == old(src).pos + 12 + b@.batch_length,
{
    let ghost d = src.data@;
    let ghost p = src.pos as int;
    let base_offset = get_u64(src)?;
    let batch_length = get_u32(src)?;
    let pos = src.position();
    let partition_leader_epoch = get_u32(src)?;
    let magic_byte = get_u8(src)?;
    let crc = get_i32(src)?;
    let attribute: u16 = get_u16(src)?;
    let last_offset_delta = get_u32(src)?;
    let base_timestamp = get_u64(src)?;
    let max_timestamp = get_u64(src)?;
    let producer_id = get_i64(src)?;
    let producer_epoch = get_i16(src)?;
    let base_sequence = get_i32(src)?;

    let records_count = get_u32(src)?;
    let ghost first = src.pos as int;
    let mut records: Vec<Record> = Vec::new();
    let mut i: u32 = 0;
    while i < records_count
        invariant
            src.data@ == d,
            src.data == old(src).data,
            i <= records_count,
            fits(d, p, 61),
            p == old(src).pos,
            d == old(src).data@,
            read_batch_at(d, p) == batch_with(d, p, read_records_at(d, first, records_count as nat).0),
            after(record_views(records@), read_records_at(d, src.pos as int, (records_count - i) as nat))
                == read_records_at(d, first, records_count as nat),
        decreases records_count - i,
    {
        let ghost before = record_views(records@);
        let ghost q = src.pos as int;
        let ghost k = (records_count - i) as nat;
        assert(read_records_at(d, q, k) == {
            let (first, q1) = read_record_at(d, q);
            match first {
                Err(e) => (Err(e), q1),
                Ok(rec) => {
                    let (rest, q2) = read_records_at(d, q1, (k - 1) as nat);
                    match rest {
                        Ok(s) => (Ok(known(rec) + s), q2),
                        Err(e) => (Err(e), q2),
                    }
                },
            }
        });
        let record = match parse_record(src) {
            Ok(record) => record,
            Err(e) => {
                proof {
                    lemma_batch_with_err(d, p, e@);
                }
                return Err(e);
            },
        };
        let ghost added = known(lifted_record(Ok(record))->Ok_0);
        match record {
            Some(rec) => records.push(rec),
            None => {},
        }
        i = i + 1;
        proof {
            let rest = read_records_at(d, src.pos as int, (records_count - i) as nat).0;
            if rest is Ok {
                assert(before + (added + rest->Ok_0)
                    =~= record_views(records@) + rest->Ok_0);
            }
        }
    }
    assert(record_views(records@) + Seq::<RecordView>::empty() =~= record_views(records@));
    reveal(batch_with);
    let batch = BatchRecord {
        base_offset,
        batch_length,
        partition_leader_epoch,
        magic_byte,
        crc,
        attribute,
        last_offset_delta,
        base_timestamp,
        max_timestamp,
        producer_id,
        producer_epoch,
        base_sequence,
        records,
    };
    src.set_position(pos + batch_length as u64);
    Ok(batch)
}

impl MetaParser {
    /// Reads the record batches of a metadata log held in `bytes`, one
    /// after another until the end.
    pub fn from_bytes(bytes: &[u8]) -> (r: Result<Vec<BatchRecord>, ParseError>)
        requires
            bytes@.len() <= isize::MAX,
        ensures
            r is Ok <==> read_log(bytes@) is Ok,
            r matches Ok(bs) ==> read_log(bytes@) == Ok::<Seq<BatchView>, Fault>(batch_views(bs@)),
            r matches Err(e) ==> read_log(bytes@) == Err::<Seq<BatchView>, Fault>(e@),
    {
        let mut batches: Vec<BatchRecord> = Vec::new();
        let mut src = ByteCursor::new(bytes);

        while src.position() < bytes.len() as u64
            invariant
                src.data@ == bytes@,
                bytes@.len() <= isize::MAX,
                after_log(batch_views(batches@), read_log_from(bytes@, src.pos as int)) == read_log(bytes@),
            decreases left_at(bytes@, src.pos as int),
        {
            let ghost before = batch_views(batches@);
            let batch = parse_batch(&mut src)?;
            batches.push(batch);
            proof {
                let rest = read_log_from(bytes@, src.pos as int);
                if rest is Ok {
                    assert(before + (seq![batch@] + rest->Ok_0) =~= batch_views(batches@) + rest->Ok_0);
                }
            }
        }
        assert(batch_views(batches@) + Seq::<BatchView>::empty() =~= batch_views(batches@));
        Ok(batches)
    }
}


/// `true` when the two ids hold the same bytes.
fn uuid_eq(a: &[u8; 16], b: &[u8; 16]) -> (r: bool)
    ensures
        r == (a@ == b@),
{
    bytes_eq(a.as_slice(), b.as_slice())
}

/// The first topic record named `name` in the log, batch after batch.
pub fn find_topic<'a>(batches: &'a [BatchRecord], name: &str) -> (r: Option<&'a TopicRecord>)
    ensures
        match r {
            Some(t) => first_topic_named(log_records(batch_views(batches@)), name@) == Some(t@),
            None => first_topic_named(log_records(batch_views(batches@)), name@) is None,
        },
{
    let ghost views = batch_views(batches@);
    let mut i: usize = 0;
    while i < batches.len()
        invariant
            i <= batches@.len(),
            views == batch_views(batches@),
            first_topic_named(log_records(views.take(i as int)), name@) is None,
        decreases batches@.len() - i,
    {
        let records = &batches[i].records;
        let ghost done = log_records(views.take(i as int));
        proof {
            lemma_log_records_take(views, i as int);
        }
        assert(views[i as int].records == record_views(records@));
        let mut j: usize = 0;
        while j < records.len()
            invariant
                i < batches@.len(),
                j <= records@.len(),
                views == batch_views(batches@),
                records == &batches@[i as int].records,
                views[i as int].records == record_views(records@),
                done == log_records(views.take(i as int)),
                first_topic_named(done, name@) is None,
                first_topic_named(record_views(records@).take(j as int), name@) is None,
            decreases records@.len() - j,
        {
            let ghost seen = record_views(records@).take(j as int);
            proof {
                lemma_first_topic_append(seen, seq![records@[j as int]@], name@);
                lemma_first_topic_single(records@[j as int]@, name@);
                assert(record_views(records@).take(j + 1) =~= seen + seq![records@[j as int]@]);
            }
            match &records[j] {
                Record::Topic(topic) => {
                    if str_eq(topic.topic_name.as_str(), name) {
                        proof {
                            let all = log_records(views);
                            let rest = record_views(records@).skip(j as int);
                            assert(record_views(records@) =~= seen + rest);
                            lemma_log_records_take(views, i as int);
                            assert(views =~= views.take(i + 1) + views.skip(i + 1));
                            lemma_log_records_concat(views.take(i + 1), views.skip(i + 1));
                            let later = log_records(views.skip(i + 1));
                            assert(all =~= done + (record_views(records@) + later));
                            lemma_first_topic_append(done, record_views(records@) + later, name@);
                            assert(record_views(records@) + later =~= seen + (rest + later));
                            lemma_first_topic_append(seen, rest + later, name@);
                            assert((rest + later)[0] == RecordView::Topic(topic@));
                        }
                        return Some(topic);
                    }
                },
                _ => {},
            }
            j = j + 1;
        }
        proof {
            assert(record_views(records@).take(records@.len() as int) =~= record_views(records@));
            lemma_first_topic_append(done, record_views(records@), name@);
        }
        i = i + 1;
    }
    proof {
        assert(views.take(views.len() as int) =~= views);
    }
    None
}


/// The values of a list of borrowed partition records.
pub open spec fn partition_ref_views(v: Seq<&PartitionRecord>) -> Seq<PartitionRecordView> {
    v.map_values(|p: &PartitionRecord| p@)
}

/// The partition records of the topic with id `topic_id`, in log order.
pub fn find_partitions<'a>(batches: &'a [BatchRecord], topic_id: &[u8; 16]) -> (r: Vec<&'a PartitionRecord>)
    ensures
        partition_ref_views(r@) == partitions_of(log_records(batch_views(batches@)), topic_id@),
{
    let ghost views = batch_views(batches@);
    let mut found: Vec<&'a PartitionRecord> = Vec::new();
    let mut i: usize = 0;
    while i < batches.len()
        invariant
            i <= batches@.len(),
            views == batch_views(batches@),
            partition_ref_views(found@) == partitions_of(log_records(views.take(i as int)), topic_id@),
        decreases batches@.len() - i,
    {
        let records = &batches[i].records;
        let ghost done = log_records(views.take(i as int));
        proof {
            lemma_log_records_take(views, i as int);
        }
        assert(views[i as int].records == record_views(records@));
        assert(done + record_views(records@).take(0) =~= done);
        let mut j: usize = 0;
        while j < records.len()
            invariant
                i < batches@.len(),
                j <= records@.len(),
                views == batch_views(batches@),
                records == &batches@[i as int].records,
                done == log_records(views.take(i as int)),
                partition_ref_views(found@)
                    == partitions_of(done + record_views(records@).take(j as int), topic_id@),
            decreases records@.len() - j,
        {
            let ghost before = done + record_views(records@).take(j as int);
            let ghost now = done + record_views(records@).take(j + 1);
            assert(now.drop_last() =~= before);
            assert(now.last() == records@[j as int]@);
            let ghost prev = found@;
            match &records[j] {
                Record::Partition(partition) => {
                    if uuid_eq(&partition.topic_id, topic_id) {
                        found.push(partition);
                        assert(partition_ref_views(found@) =~= partition_ref_views(prev) + seq![partition@]);
                    }
                },
                _ => {},
            }
            j = j + 1;
        }
        assert(record_views(records@).take(records@.len() as int) =~= record_views(records@));
        i = i + 1;
    }
    assert(views.take(views.len() as int) =~= views);
    found
}

} // verus!
