//! Big-endian integers on the wire, their encoders, and a read cursor over
//! a byte slice.
use bytes::Buf;
use vstd::prelude::*;

verus! {

broadcast use vstd::slice::group_slice_axioms;

/// What a failed read reports, as a value: too few bytes, bytes that are
/// not UTF-8, a failed read of a source, or any other message.
pub enum Fault {
    Incomplete,
    Utf8(Seq<u8>),
    Io(Seq<char>),
    Message(Seq<char>),
}

/// `true` when `n` bytes are left to read at position `p`.
pub open spec fn fits(d: Seq<u8>, p: int, n: int) -> bool {
    p + n <= d.len()
}

/// Runs `f` on the value and position that `r` reached, or keeps the
/// failure of `r` together with the position it stopped at.
pub open spec fn chain<A, B>(
    r: (Result<A, Fault>, int),
    f: spec_fn(A, int) -> (Result<B, Fault>, int),
) -> (Result<B, Fault>, int) {
    match r.0 {
        Ok(a) => f(a, r.1),
        Err(e) => (Err(e), r.1),
    }
}

/// Reading one byte at `p`: the byte and the next position, or
/// `Incomplete` at `p`.
pub open spec fn read_u8_at(d: Seq<u8>, p: int) -> (Result<u8, Fault>, int) {
    if fits(d, p, 1) { (Ok(d[p]), p + 1) } else { (Err(Fault::Incomplete), p) }
}

/// Reading one signed byte at `p`.
pub open spec fn read_i8_at(d: Seq<u8>, p: int) -> (Result<i8, Fault>, int) {
    if fits(d, p, 1) { (Ok(signed8(d[p] as int) as i8), p + 1) } else { (Err(Fault::Incomplete), p) }
}

/// Reading a big-endian `u16` at `p`.
pub open spec fn read_u16_at(d: Seq<u8>, p: int) -> (Result<u16, Fault>, int) {
    if fits(d, p, 2) { (Ok(be_u16_at(d, p) as u16), p + 2) } else { (Err(Fault::Incomplete), p) }
}

/// Reading a big-endian `i16` at `p`.
pub open spec fn read_i16_at(d: Seq<u8>, p: int) -> (Result<i16, Fault>, int) {
    if fits(d, p, 2) {
        (Ok(signed16(be_u16_at(d, p)) as i16), p + 2)
    } else {
        (Err(Fault::Incomplete), p)
    }
}

/// Reading a big-endian `u32` at `p`.
pub open spec fn read_u32_at(d: Seq<u8>, p: int) -> (Result<u32, Fault>, int) {
    if fits(d, p, 4) { (Ok(be_u32_at(d, p) as u32), p + 4) } else { (Err(Fault::Incomplete), p) }
}

/// Reading a big-endian `i32` at `p`.
pub open spec fn read_i32_at(d: Seq<u8>, p: int) -> (Result<i32, Fault>, int) {
    if fits(d, p, 4) {
        (Ok(signed32(be_u32_at(d, p)) as i32), p + 4)
    } else {
        (Err(Fault::Incomplete), p)
    }
}

/// Reading a big-endian `u64` at `p`.
pub open spec fn read_u64_at(d: Seq<u8>, p: int) -> (Result<u64, Fault>, int) {
    if fits(d, p, 8) { (Ok(be_u64_at(d, p) as u64), p + 8) } else { (Err(Fault::Incomplete), p) }
}

/// Reading a big-endian `i64` at `p`.
pub open spec fn read_i64_at(d: Seq<u8>, p: int) -> (Result<i64, Fault>, int) {
    if fits(d, p, 8) {
        (Ok(signed64(be_u64_at(d, p)) as i64), p + 8)
    } else {
        (Err(Fault::Incomplete), p)
    }
}

/// Number of bytes left after position `p` (zero past the end).
pub open spec fn left_at(d: Seq<u8>, p: int) -> int {
    if p < d.len() { d.len() - p } else { 0 }
}

/// Skipping `n` bytes at `p`; skipping none always succeeds, even past the
/// end.
pub open spec fn skip_at(d: Seq<u8>, p: int, n: int) -> (Result<(), Fault>, int) {
    if n <= left_at(d, p) { (Ok(()), p + n) } else { (Err(Fault::Incomplete), p) }
}

/// Unsigned value of the two bytes at `p`, most significant first.
pub open spec fn be_u16_at(d: Seq<u8>, p: int) -> int {
    d[p] * 0x100 + d[p + 1]
}

/// Unsigned value of the four bytes at `p`, most significant first.
pub open spec fn be_u32_at(d: Seq<u8>, p: int) -> int {
    d[p] * 0x1000000 + d[p + 1] * 0x10000 + d[p + 2] * 0x100 + d[p + 3]
}

/// Unsigned value of the eight bytes at `p`, most significant first.
pub open spec fn be_u64_at(d: Seq<u8>, p: int) -> int {
    be_u32_at(d, p) * 0x1_0000_0000 + be_u32_at(d, p + 4)
}

/// Two's-complement reading of an 8-bit unsigned value.
pub open spec fn signed8(u: int) -> int {
    if u >= 0x80 { u - 0x100 } else { u }
}

/// Two's-complement reading of a 16-bit unsigned value.
pub open spec fn signed16(u: int) -> int {
    if u >= 0x8000 { u - 0x1_0000 } else { u }
}

/// Two's-complement reading of a 32-bit unsigned value.
pub open spec fn signed32(u: int) -> int {
    if u >= 0x8000_0000 { u - 0x1_0000_0000 } else { u }
}

/// Two's-complement reading of a 64-bit unsigned value.
pub open spec fn signed64(u: int) -> int {
    if u >= 0x8000_0000_0000_0000 { u - 0x1_0000_0000_0000_0000 } else { u }
}

/// The two bytes of `u mod 2^16`, most significant first.
pub open spec fn u16_be(u: int) -> Seq<u8> {
    let w = u % 0x1_0000;
    seq![(w / 0x100) as u8, (w % 0x100) as u8]
}

/// The four bytes of `u mod 2^32`, most significant first.
pub open spec fn u32_be(u: int) -> Seq<u8> {
    let w = u % 0x1_0000_0000;
    seq![(w / 0x1000000) as u8, (w / 0x10000 % 0x100) as u8, (w / 0x100 % 0x100) as u8, (w % 0x100) as u8]
}

/// The two bytes of a 16-bit integer in two's complement, most significant first.
pub open spec fn i16_be(v: int) -> Seq<u8> {
    u16_be(v)
}

/// The four bytes of a 32-bit integer in two's complement, most significant first.
pub open spec fn i32_be(v: int) -> Seq<u8> {
    u32_be(v)
}

/// A 16-bit value is its two bytes put back together.
proof fn lemma_u16_split(w: u16)
    ensures
        (w / 0x100) * 0x100 + w % 0x100 == w,
        w / 0x100 < 0x100,
{
    assert((w / 0x100) * 0x100 + w % 0x100 == w) by (bit_vector);
    assert(w / 0x100 < 0x100) by (bit_vector);
}

/// A 32-bit value is its four bytes put back together.
proof fn lemma_u32_split(w: u32)
    ensures
        (w / 0x1000000) * 0x1000000 + ((w / 0x10000) % 0x100) * 0x10000 + ((w / 0x100) % 0x100) * 0x100
            + w % 0x100 == w,
        w / 0x1000000 < 0x100,
{
    assert((w / 0x1000000) * 0x1000000 + ((w / 0x10000) % 0x100) * 0x10000 + ((w / 0x100) % 0x100)
        * 0x100 + w % 0x100 == w) by (bit_vector);
    assert(w / 0x1000000 < 0x100) by (bit_vector);
}

/// Decoding the encoding of any value below `2^16` gives it back.
pub proof fn lemma_u16_roundtrip(u: int)
    requires
        0 <= u < 0x1_0000,
    ensures
        u16_be(u).len() == 2,
        be_u16_at(u16_be(u), 0) == u,
{
    assert(u % 0x1_0000 == u);
    lemma_u16_split(u as u16);
}

/// Decoding the encoding of any value below `2^32` gives it back.
pub proof fn lemma_u32_roundtrip(u: int)
    requires
        0 <= u < 0x1_0000_0000,
    ensures
        u32_be(u).len() == 4,
        be_u32_at(u32_be(u), 0) == u,
{
    assert(u % 0x1_0000_0000 == u);
    lemma_u32_split(u as u32);
}

/// Decoding the encoding of a 16-bit integer gives it back.
pub proof fn lemma_i16_roundtrip(v: i16)
    ensures
        i16_be(v as int).len() == 2,
        signed16(be_u16_at(i16_be(v as int), 0)) == v,
{
    let w: int = if v < 0 { v + 0x1_0000 } else { v as int };
    assert((v as int) % 0x1_0000 == w);
    assert(u16_be(w) == i16_be(v as int));
    lemma_u16_roundtrip(w);
}

/// Decoding the encoding of a 32-bit integer gives it back.
pub proof fn lemma_i32_roundtrip(v: i32)
    ensures
        i32_be(v as int).len() == 4,
        signed32(be_u32_at(i32_be(v as int), 0)) == v,
{
    let w: int = if v < 0 { v + 0x1_0000_0000 } else { v as int };
    assert((v as int) % 0x1_0000_0000 == w);
    assert(u32_be(w) == i32_be(v as int));
    lemma_u32_roundtrip(w);
}

/// `true` when the bytes of `d` from `q` on start with `e`.
pub open spec fn placed(d: Seq<u8>, q: int, e: Seq<u8>) -> bool {
    0 <= q && q + e.len() <= d.len() && d.subrange(q, q + e.len()) == e
}

/// Where `a + b` lies at `q`, `a` lies at `q` and `b` right after it.
pub proof fn lemma_placed_split(d: Seq<u8>, q: int, a: Seq<u8>, b: Seq<u8>)
    requires
        placed(d, q, a + b),
    ensures
        placed(d, q, a),
        placed(d, q + a.len(), b),
{
    assert(d.subrange(q, q + a.len()) =~= (a + b).subrange(0, a.len() as int));
    assert((a + b).subrange(0, a.len() as int) =~= a);
    assert(d.subrange(q + a.len(), q + a.len() + b.len()) =~= (a + b).subrange(a.len() as int, (a + b).len() as int));
    assert((a + b).subrange(a.len() as int, (a + b).len() as int) =~= b);
}

/// Bytes `e` followed by anything lie at the start.
pub proof fn lemma_placed_prefix(e: Seq<u8>, tail: Seq<u8>)
    ensures
        placed(e + tail, 0, e),
{
    assert((e + tail).subrange(0, e.len() as int) =~= e);
}

/// A byte that lies at `q` is read there.
pub proof fn lemma_read_u8_placed(d: Seq<u8>, q: int, b: u8)
    requires
        placed(d, q, seq![b]),
    ensures
        read_u8_at(d, q) == (Ok::<u8, Fault>(b), q + 1),
{
    assert(d[q] == d.subrange(q, q + 1)[0]);
}

/// The encoding of a 16-bit integer that lies at `q` reads back as it.
pub proof fn lemma_read_i16_placed(d: Seq<u8>, q: int, v: i16)
    requires
        placed(d, q, i16_be(v as int)),
    ensures
        read_i16_at(d, q) == (Ok::<i16, Fault>(v), q + 2),
{
    lemma_i16_roundtrip(v);
    let e = i16_be(v as int);
    assert(d[q] == d.subrange(q, q + 2)[0]);
    assert(d[q + 1] == d.subrange(q, q + 2)[1]);
    assert(be_u16_at(d, q) == be_u16_at(e, 0));
}

/// The encoding of a 32-bit integer that lies at `q` reads back as it.
pub proof fn lemma_read_i32_placed(d: Seq<u8>, q: int, v: i32)
    requires
        placed(d, q, i32_be(v as int)),
    ensures
        read_i32_at(d, q) == (Ok::<i32, Fault>(v), q + 4),
{
    lemma_i32_roundtrip(v);
    let e = i32_be(v as int);
    assert(d[q] == d.subrange(q, q + 4)[0]);
    assert(d[q + 1] == d.subrange(q, q + 4)[1]);
    assert(d[q + 2] == d.subrange(q, q + 4)[2]);
    assert(d[q + 3] == d.subrange(q, q + 4)[3]);
    assert(be_u32_at(d, q) == be_u32_at(e, 0));
}

/// Appends the encoding of `u mod 2^32` to `out`.
pub fn push_u32_be(out: &mut Vec<u8>, u: u32)
    ensures
        final(out)@ == old(out)@ + u32_be(u as int),
{
    out.push((u / 0x1000000) as u8);
    out.push(((u / 0x10000) % 0x100) as u8);
    out.push(((u / 0x100) % 0x100) as u8);
    out.push((u % 0x100) as u8);
}

/// Appends the big-endian two's-complement encoding of `v` to `out`.
pub fn push_i32_be(out: &mut Vec<u8>, v: i32)
    ensures
        final(out)@ == old(out)@ + i32_be(v as int),
{
    let u: u32 = if v >= 0 { v as u32 } else { (v as i64 + 0x1_0000_0000i64) as u32 };
    push_u32_be(out, u);
}

/// Appends the big-endian two's-complement encoding of `v` to `out`.
pub fn push_i16_be(out: &mut Vec<u8>, v: i16)
    ensures
        final(out)@ == old(out)@ + i16_be(v as int),
{
    let u: u16 = if v >= 0 { v as u16 } else { (v as i32 + 0x1_0000i32) as u16 };
    out.push((u / 0x100) as u8);
    out.push((u % 0x100) as u8);
}

/// Appends the bytes of `s` to `out`.
pub fn push_bytes(out: &mut Vec<u8>, s: &[u8])
    ensures
        final(out)@ == old(out)@ + s@,
{
    let mut i: usize = 0;
    while i < s.len()
        invariant
            i <= s@.len(),
            out@ == old(out)@ + s@.subrange(0, i as int),
        decreases s@.len() - i,
    {
        out.push(s[i]);
        i = i + 1;
        assert(s@.subrange(0, i as int) == s@.subrange(0, i - 1) + seq![s@[i - 1]]);
    }
    assert(s@.subrange(0, s@.len() as int) == s@);
}

/// `Buf::get_u8` of the `bytes` crate on the slice from `pos`: the byte at
/// `pos`.
#[verifier::external_body]
fn buf_get_u8(data: &[u8], pos: usize) -> (v: u8)
    requires
        pos + 1 <= data@.len(),
    ensures
        v == data@[pos as int],
{
    let mut s: &[u8] = &data[pos..];
    s.get_u8()
}

/// `Buf::get_i8` of the `bytes` crate on the slice from `pos`: the byte at
/// `pos` read in two's complement.
#[verifier::external_body]
fn buf_get_i8(data: &[u8], pos: usize) -> (v: i8)
    requires
        pos + 1 <= data@.len(),
    ensures
        v == signed8(data@[pos as int] as int),
{
    let mut s: &[u8] = &data[pos..];
    s.get_i8()
}

/// `Buf::get_u16` of the `bytes` crate on the slice from `pos`: the two bytes
/// at `pos`, big-endian.
#[verifier::external_body]
fn buf_get_u16(data: &[u8], pos: usize) -> (v: u16)
    requires
        pos + 2 <= data@.len(),
    ensures
        v == be_u16_at(data@, pos as int),
{
    let mut s: &[u8] = &data[pos..];
    s.get_u16()
}

/// `Buf::get_i16` of the `bytes` crate on the slice from `pos`: the two bytes
/// at `pos`, big-endian, in two's complement.
#[verifier::external_body]
fn buf_get_i16(data: &[u8], pos: usize) -> (v: i16)
    requires
        pos + 2 <= data@.len(),
    ensures
        v == signed16(be_u16_at(data@, pos as int)),
{
    let mut s: &[u8] = &data[pos..];
    s.get_i16()
}

/// `Buf::get_u32` of the `bytes` crate on the slice from `pos`: the four
/// bytes at `pos`, big-endian.
#[verifier::external_body]
fn buf_get_u32(data: &[u8], pos: usize) -> (v: u32)
    requires
        pos + 4 <= data@.len(),
    ensures
        v == be_u32_at(data@, pos as int),
{
    let mut s: &[u8] = &data[pos..];
    s.get_u32()
}

/// `Buf::get_i32` of the `bytes` crate on the slice from `pos`: the four
/// bytes at `pos`, big-endian, in two's complement.
#[verifier::external_body]
fn buf_get_i32(data: &[u8], pos: usize) -> (v: i32)
    requires
        pos + 4 <= data@.len(),
    ensures
        v == signed32(be_u32_at(data@, pos as int)),
{
    let mut s: &[u8] = &data[pos..];
    s.get_i32()
}

/// `Buf::get_u64` of the `bytes` crate on the slice from `pos`: the eight
/// bytes at `pos`, big-endian.
#[verifier::external_body]
fn buf_get_u64(data: &[u8], pos: usize) -> (v: u64)
    requires
        pos + 8 <= data@.len(),
    ensures
        v == be_u64_at(data@, pos as int),
{
    let mut s: &[u8] = &data[pos..];
    s.get_u64()
}

/// `Buf::get_i64` of the `bytes` crate on the slice from `pos`: the eight
/// bytes at `pos`, big-endian, in two's complement.
#[verifier::external_body]
fn buf_get_i64(data: &[u8], pos: usize) -> (v: i64)
    requires
        pos + 8 <= data@.len(),
    ensures
        v == signed64(be_u64_at(data@, pos as int)),
{
    let mut s: &[u8] = &data[pos..];
    s.get_i64()
}

/// A read position over a byte slice. The position may lie past the end,
/// in which case nothing is left to read.
pub struct ByteCursor<'a> {
    pub data: &'a [u8],
    pub pos: u64,
}

impl<'a> ByteCursor<'a> {
    /// Number of bytes left after the position (zero past the end).
    pub open spec fn left(&self) -> int {
        left_at(self.data@, self.pos as int)
    }

    /// A cursor at the start of `data`.
    pub fn new(data: &'a [u8]) -> (c: Self)
        ensures
            c.data@ == data@,
            c.pos == 0,
    {
        ByteCursor { data, pos: 0 }
    }

    /// The current position.
    pub fn position(&self) -> (p: u64)
        ensures
            p == self.pos,
    {
        self.pos
    }

    /// Moves the position to `p`, which may lie past the end.
    pub fn set_position(&mut self, p: u64)
        ensures
            final(self).data == old(self).data,
            final(self).pos == p,
    {
        self.pos = p;
    }

    /// Number of bytes left to read.
    pub fn remaining(&self) -> (n: usize)
        ensures
            n == self.left(),
    {
        if self.pos < self.data.len() as u64 {
            self.data.len() - self.pos as usize
        } else {
            0
        }
    }

    /// `true` when at least one byte is left.
    pub fn has_remaining(&self) -> (b: bool)
        ensures
            b == (self.left() > 0),
    {
        self.remaining() > 0
    }

    /// Moves the position `n` bytes forward.
    pub fn advance(&mut self, n: usize)
        requires
            n <= old(self).left(),
        ensures
            final(self).data == old(self).data,
            final(self).pos == old(self).pos + n,
    {
        if n > 0 {
            let len = self.data.len();
            self.pos = (self.pos as usize + n) as u64;
        }
    }


    /// When `k` bytes are left, moves past them and gives their start;
    /// otherwise gives `None` and leaves the position.
    fn take(&mut self, k: usize) -> (r: Option<usize>)
        ensures
            final(self).data == old(self).data,
            r is Some <==> fits(old(self).data@, old(self).pos as int, k as int),
            r is Some ==> r->0 == old(self).pos,
            r is Some ==> final(self).pos == old(self).pos + k,
            r is None ==> final(self).pos == old(self).pos,
    {
        let len = self.data.len();
        if self.pos <= len as u64 && k <= len - self.pos as usize {
            let start = self.pos as usize;
            self.pos = (start + k) as u64;
            Some(start)
        } else {
            None
        }
    }

    /// The bytes from the position to the end (empty past the end).
    pub fn chunk(&self) -> (s: &'a [u8])
        ensures
            s@ == self.data@.subrange(self.data@.len() - self.left(), self.data@.len() as int),
    {
        let start: usize = self.data.len() - self.remaining();
        slice_from(self.data, start)
    }

    /// Reads one byte, or gives `None` with the position unchanged when none is left.
    pub fn read_u8(&mut self) -> (r: Option<u8>)
        ensures
            final(self).data == old(self).data,
            match r {
                Some(v) => fits(old(self).data@, old(self).pos as int, 1)
                    && v == old(self).data@[old(self).pos as int]
                    && final(self).pos == old(self).pos + 1,
                None => !fits(old(self).data@, old(self).pos as int, 1)
                    && final(self).pos == old(self).pos,
            },
    {
        match self.take(1) {
            Some(start) => Some(buf_get_u8(self.data, start)),
            None => None,
        }
    }

    /// Reads one byte as a signed integer.
    pub fn read_i8(&mut self) -> (r: Option<i8>)
        ensures
            final(self).data == old(self).data,
            match r {
                Some(v) => fits(old(self).data@, old(self).pos as int, 1)
                    && v == signed8(old(self).data@[old(self).pos as int] as int)
                    && final(self).pos == old(self).pos + 1,
                None => !fits(old(self).data@, old(self).pos as int, 1)
                    && final(self).pos == old(self).pos,
            },
    {
        match self.take(1) {
            Some(start) => Some(buf_get_i8(self.data, start)),
            None => None,
        }
    }

    /// Reads a big-endian unsigned 16-bit integer.
    pub fn read_u16(&mut self) -> (r: Option<u16>)
        ensures
            final(self).data == old(self).data,
            match r {
                Some(v) => fits(old(self).data@, old(self).pos as int, 2)
                    && v == be_u16_at(old(self).data@, old(self).pos as int)
                    && final(self).pos == old(self).pos + 2,
                None => !fits(old(self).data@, old(self).pos as int, 2)
                    && final(self).pos == old(self).pos,
            },
    {
        match self.take(2) {
            Some(start) => Some(buf_get_u16(self.data, start)),
            None => None,
        }
    }

    /// Reads a big-endian signed 16-bit integer.
    pub fn read_i16(&mut self) -> (r: Option<i16>)
        ensures
            final(self).data == old(self).data,
            match r {
                Some(v) => fits(old(self).data@, old(self).pos as int, 2)
                    && v == signed16(be_u16_at(old(self).data@, old(self).pos as int))
                    && final(self).pos == old(self).pos + 2,
                None => !fits(old(self).data@, old(self).pos as int, 2)
                    && final(self).pos == old(self).pos,
            },
    {
        match self.take(2) {
            Some(start) => Some(buf_get_i16(self.data, start)),
            None => None,
        }
    }

    /// Reads a big-endian unsigned 32-bit integer.
    pub fn read_u32(&mut self) -> (r: Option<u32>)
        ensures
            final(self).data == old(self).data,
            match r {
                Some(v) => fits(old(self).data@, old(self).pos as int, 4)
                    && v == be_u32_at(old(self).data@, old(self).pos as int)
                    && final(self).pos == old(self).pos + 4,
                None => !fits(old(self).data@, old(self).pos as int, 4)
                    && final(self).pos == old(self).pos,
            },
    {
        match self.take(4) {
            Some(start) => Some(buf_get_u32(self.data, start)),
            None => None,
        }
    }

    /// Reads a big-endian signed 32-bit integer.
    pub fn read_i32(&mut self) -> (r: Option<i32>)
        ensures
            final(self).data == old(self).data,
            match r {
                Some(v) => fits(old(self).data@, old(self).pos as int, 4)
                    && v == signed32(be_u32_at(old(self).data@, old(self).pos as int))
                    && final(self).pos == old(self).pos + 4,
                None => !fits(old(self).data@, old(self).pos as int, 4)
                    && final(self).pos == old(self).pos,
            },
    {
        match self.take(4) {
            Some(start) => Some(buf_get_i32(self.data, start)),
            None => None,
        }
    }

    /// Reads a big-endian unsigned 64-bit integer.
    pub fn read_u64(&mut self) -> (r: Option<u64>)
        ensures
            final(self).data == old(self).data,
            match r {
                Some(v) => fits(old(self).data@, old(self).pos as int, 8)
                    && v == be_u64_at(old(self).data@, old(self).pos as int)
                    && final(self).pos == old(self).pos + 8,
                None => !fits(old(self).data@, old(self).pos as int, 8)
                    && final(self).pos == old(self).pos,
            },
    {
        match self.take(8) {
            Some(start) => Some(buf_get_u64(self.data, start)),
            None => None,
        }
    }

    /// Reads a big-endian signed 64-bit integer.
    pub fn read_i64(&mut self) -> (r: Option<i64>)
        ensures
            final(self).data == old(self).data,
            match r {
                Some(v) => fits(old(self).data@, old(self).pos as int, 8)
                    && v == signed64(be_u64_at(old(self).data@, old(self).pos as int))
                    && final(self).pos == old(self).pos + 8,
                None => !fits(old(self).data@, old(self).pos as int, 8)
                    && final(self).pos == old(self).pos,
            },
    {
        match self.take(8) {
            Some(start) => Some(buf_get_i64(self.data, start)),
            None => None,
        }
    }
}

/// The bytes of `data` from `start` to the end.
pub fn slice_from(data: &[u8], start: usize) -> (s: &[u8])
    requires
        start <= data@.len(),
    ensures
        s@ == data@.subrange(start as int, data@.len() as int),
{
    vstd::slice::slice_subrange(data, start, data.len())
}

/// The first `n` bytes of `data`.
pub fn slice_to(data: &[u8], n: usize) -> (s: &[u8])
    requires
        n <= data@.len(),
    ensures
        s@ == data@.subrange(0, n as int),
{
    vstd::slice::slice_subrange(data, 0, n)
}

/// A copy of the `n` bytes of `data` from `start`.
pub fn copy_range(data: &[u8], start: usize, n: usize) -> (v: Vec<u8>)
    requires
        start + n <= data@.len(),
    ensures
        v@ == data@.subrange(start as int, start + n),
{
    let mut v: Vec<u8> = Vec::new();
    let mut i: usize = 0;
    while i < n
        invariant
            i <= n,
            start + n <= data@.len(),
            data@.len() == data.len(),
            v@ == data@.subrange(start as int, start + i),
        decreases n - i,
    {
        v.push(data[start + i]);
        i = i + 1;
        assert(data@.subrange(start as int, start + i) == data@.subrange(start as int, start + i - 1) + seq![data@[start + i - 1]]);
    }
    v
}

} // verus!
