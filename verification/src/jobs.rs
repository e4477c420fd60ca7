//! Jobs: the server-side record of an in-flight client operation, its
//! stable wire encoding on the stream-table rings, and the per-table queue
//! that delivers jobs to the serving process in submission order.

use crate::errors::Error;
use vstd::prelude::*;

verus! {

/// Stable wire values of the job kinds.
pub const JOB_OPEN: u8 = 1;

pub const JOB_READ: u8 = 2;

pub const JOB_WRITE: u8 = 3;

pub const JOB_QUERY: u8 = 4;

pub const JOB_QUERY_NEXT: u8 = 5;

pub const JOB_SEEK: u8 = 6;

pub const JOB_CREATE: u8 = 7;

pub const JOB_PEEK: u8 = 8;

pub const JOB_CLOSE: u8 = 9;

/// Size of the fixed wire record.
pub const WIRE_JOB_BYTES: usize = 40;

/// The fixed wire record carried on the submission and completion rings.
/// `arg0` and `arg1` are slices into the shared data region.
#[derive(Clone, Copy, PartialEq, Eq, Structural, Debug)]
pub struct WireJob {
    pub job_id: u32,
    pub ty: u8,
    pub flags: u8,
    pub handle: u32,
    pub arg0_offset: u32,
    pub arg0_length: u32,
    pub arg1_offset: u32,
    pub arg1_length: u32,
    pub from_anchor: u8,
    pub from_offset: u64,
    pub result: u32,
}

impl WireJob {
    /// A record with every field zero but the three given; replies are
    /// built from this.
    pub fn base(job_id: u32, ty: u8, handle: u32) -> (r: WireJob)
        ensures
            r == (WireJob {
                job_id,
                ty,
                flags: 0,
                handle,
                arg0_offset: 0,
                arg0_length: 0,
                arg1_offset: 0,
                arg1_length: 0,
                from_anchor: 0,
                from_offset: 0,
                result: 0,
            }),
    {
        WireJob {
            job_id,
            ty,
            flags: 0,
            handle,
            arg0_offset: 0,
            arg0_length: 0,
            arg1_offset: 0,
            arg1_length: 0,
            from_anchor: 0,
            from_offset: 0,
            result: 0,
        }
    }
}

/// The four little-endian bytes of a 32-bit value.
pub open spec fn u32_le(v: u32) -> Seq<u8> {
    seq![
        (v % 0x100) as u8,
        ((v / 0x100) % 0x100) as u8,
        ((v / 0x1_0000) % 0x100) as u8,
        (v / 0x100_0000) as u8,
    ]
}

/// The eight little-endian bytes of a 64-bit value.
pub open spec fn u64_le(v: u64) -> Seq<u8> {
    seq![
        (v % 0x100) as u8,
        ((v / 0x100) % 0x100) as u8,
        ((v / 0x1_0000) % 0x100) as u8,
        ((v / 0x100_0000) % 0x100) as u8,
        ((v / 0x1_0000_0000) % 0x100) as u8,
        ((v / 0x100_0000_0000) % 0x100) as u8,
        ((v / 0x1_0000_0000_0000) % 0x100) as u8,
        (v / 0x100_0000_0000_0000) as u8,
    ]
}

/// The 32-bit value of four little-endian bytes.
pub open spec fn le_to_u32(b0: u8, b1: u8, b2: u8, b3: u8) -> u32 {
    (b0 + 0x100 * b1 + 0x1_0000 * b2 + 0x100_0000 * b3) as u32
}

/// The 64-bit value of eight little-endian bytes.
pub open spec fn le_to_u64(b: Seq<u8>) -> u64 {
    (b[0] + 0x100 * b[1] + 0x1_0000 * b[2] + 0x100_0000 * b[3] + 0x1_0000_0000 * b[4]
        + 0x100_0000_0000 * b[5] + 0x1_0000_0000_0000 * b[6] + 0x100_0000_0000_0000 * b[7]) as u64
}

/// The stable 40-byte encoding of a wire record: the four 32-bit slice
/// words and the 64-bit seek offset little-endian, then the result word,
/// then the three tag bytes and one byte of padding.
pub open spec fn wire_bytes(j: WireJob) -> Seq<u8> {
    u32_le(j.job_id) + u32_le(j.handle) + u32_le(j.arg0_offset) + u32_le(j.arg0_length) + u32_le(
        j.arg1_offset,
    ) + u32_le(j.arg1_length) + u64_le(j.from_offset) + u32_le(j.result) + seq![
        j.ty,
        j.flags,
        j.from_anchor,
        0u8,
    ]
}

/// The wire record held in the first [`WIRE_JOB_BYTES`] bytes of `data`.
pub open spec fn parse_wire(data: Seq<u8>) -> WireJob {
    WireJob {
        job_id: le_to_u32(data[0], data[1], data[2], data[3]),
        handle: le_to_u32(data[4], data[5], data[6], data[7]),
        arg0_offset: le_to_u32(data[8], data[9], data[10], data[11]),
        arg0_length: le_to_u32(data[12], data[13], data[14], data[15]),
        arg1_offset: le_to_u32(data[16], data[17], data[18], data[19]),
        arg1_length: le_to_u32(data[20], data[21], data[22], data[23]),
        from_offset: le_to_u64(data.subrange(24, 32)),
        result: le_to_u32(data[32], data[33], data[34], data[35]),
        ty: data[36],
        flags: data[37],
        from_anchor: data[38],
    }
}

/// Append the four little-endian bytes of `v`.
fn push_u32(out: &mut Vec<u8>, v: u32)
    ensures
        final(out)@ == old(out)@ + u32_le(v),
{
    out.push((v % 0x100) as u8);
    out.push(((v / 0x100) % 0x100) as u8);
    out.push(((v / 0x1_0000) % 0x100) as u8);
    out.push((v / 0x100_0000) as u8);
    proof {
        assert(out@ =~= old(out)@ + u32_le(v));
    }
}

/// Append the eight little-endian bytes of `v`.
fn push_u64(out: &mut Vec<u8>, v: u64)
    ensures
        final(out)@ == old(out)@ + u64_le(v),
{
    out.push((v % 0x100) as u8);
    out.push(((v / 0x100) % 0x100) as u8);
    out.push(((v / 0x1_0000) % 0x100) as u8);
    out.push(((v / 0x100_0000) % 0x100) as u8);
    out.push(((v / 0x1_0000_0000) % 0x100) as u8);
    out.push(((v / 0x100_0000_0000) % 0x100) as u8);
    out.push(((v / 0x1_0000_0000_0000) % 0x100) as u8);
    out.push((v / 0x100_0000_0000_0000) as u8);
    proof {
        assert(out@ =~= old(out)@ + u64_le(v));
    }
}

impl WireJob {
    /// Append this record's stable 40-byte encoding to `out`.
    pub fn serialize(&self, out: &mut Vec<u8>)
        ensures
            final(out)@ == old(out)@ + wire_bytes(*self),
    {
        push_u32(out, self.job_id);
        push_u32(out, self.handle);
        push_u32(out, self.arg0_offset);
        push_u32(out, self.arg0_length);
        push_u32(out, self.arg1_offset);
        push_u32(out, self.arg1_length);
        push_u64(out, self.from_offset);
        push_u32(out, self.result);
        out.push(self.ty);
        out.push(self.flags);
        out.push(self.from_anchor);
        out.push(0);
        proof {
            assert(out@ =~= old(out)@ + wire_bytes(*self));
        }
    }

    /// Read the record held in the first 40 bytes of `data`; `None` when
    /// `data` is too short to hold one.
    pub fn deserialize(data: &Vec<u8>) -> (r: Option<WireJob>)
        ensures
            match r {
                Some(j) => data@.len() >= WIRE_JOB_BYTES && j == parse_wire(data@),
                None => data@.len() < WIRE_JOB_BYTES,
            },
    {
        if data.len() < WIRE_JOB_BYTES {
            return None;
        }
        let from_offset = read_u64(data, 24);
        Some(
            WireJob {
                job_id: read_u32(data, 0),
                handle: read_u32(data, 4),
                arg0_offset: read_u32(data, 8),
                arg0_length: read_u32(data, 12),
                arg1_offset: read_u32(data, 16),
                arg1_length: read_u32(data, 20),
                from_anchor: data[38],
                from_offset,
                result: read_u32(data, 32),
                ty: data[36],
                flags: data[37],
            },
        )
    }
}

/// Read the little-endian 32-bit value at byte `at`.
fn read_u32(data: &Vec<u8>, at: usize) -> (r: u32)
    requires
        at + 4 <= data@.len(),
        data@.len() <= usize::MAX,
    ensures
        r == le_to_u32(
            data@[at as int],
            data@[at as int + 1],
            data@[at as int + 2],
            data@[at as int + 3],
        ),
{
    let _n = data.len();
    data[at] as u32 + 0x100 * (data[at + 1] as u32) + 0x1_0000 * (data[at + 2] as u32) + 0x100_0000
        * (data[at + 3] as u32)
}

/// Read the little-endian 64-bit value at byte `at`.
fn read_u64(data: &Vec<u8>, at: usize) -> (r: u64)
    requires
        at + 8 <= data@.len(),
        data@.len() <= usize::MAX,
    ensures
        r == le_to_u64(data@.subrange(at as int, at as int + 8)),
{
    let _n = data.len();
    let r = data[at] as u64 + 0x100 * (data[at + 1] as u64) + 0x1_0000 * (data[at + 2] as u64)
        + 0x100_0000 * (data[at + 3] as u64) + 0x1_0000_0000 * (data[at + 4] as u64)
        + 0x100_0000_0000 * (data[at + 5] as u64) + 0x1_0000_0000_0000 * (data[at + 6] as u64)
        + 0x100_0000_0000_0000 * (data[at + 7] as u64);
    proof {
        let b = data@.subrange(at as int, at as int + 8);
        assert(b[0] == data@[at as int] && b[1] == data@[at as int + 1]);
        assert(b[2] == data@[at as int + 2] && b[3] == data@[at as int + 3]);
        assert(b[4] == data@[at as int + 4] && b[5] == data@[at as int + 5]);
        assert(b[6] == data@[at as int + 6] && b[7] == data@[at as int + 7]);
    }
    r
}

/// Splitting a 32-bit value into its little-endian bytes loses nothing.
pub proof fn lemma_u32_le_value(v: u32)
    ensures
        le_to_u32(u32_le(v)[0], u32_le(v)[1], u32_le(v)[2], u32_le(v)[3]) == v,
{
    vstd::arithmetic::div_mod::lemma_fundamental_div_mod(v as int, 0x100);
    vstd::arithmetic::div_mod::lemma_fundamental_div_mod(v as int / 0x100, 0x100);
    vstd::arithmetic::div_mod::lemma_fundamental_div_mod(v as int / 0x1_0000, 0x100);
    vstd::arithmetic::div_mod::lemma_div_denominator(v as int, 0x100, 0x100);
    vstd::arithmetic::div_mod::lemma_div_denominator(v as int, 0x1_0000, 0x100);
    vstd::arithmetic::div_mod::lemma_mod_division_less_than_divisor(v as int, 0x100);
    vstd::arithmetic::div_mod::lemma_mod_division_less_than_divisor(v as int / 0x100, 0x100);
    vstd::arithmetic::div_mod::lemma_mod_division_less_than_divisor(v as int / 0x1_0000, 0x100);
}

/// Splitting a 64-bit value into its little-endian bytes loses nothing.
pub proof fn lemma_u64_le_value(v: u64)
    ensures
        le_to_u64(u64_le(v)) == v,
{
    let x = v as int;
    vstd::arithmetic::div_mod::lemma_fundamental_div_mod(x, 0x100);
    vstd::arithmetic::div_mod::lemma_fundamental_div_mod(x / 0x100, 0x100);
    vstd::arithmetic::div_mod::lemma_fundamental_div_mod(x / 0x1_0000, 0x100);
    vstd::arithmetic::div_mod::lemma_fundamental_div_mod(x / 0x100_0000, 0x100);
    vstd::arithmetic::div_mod::lemma_fundamental_div_mod(x / 0x1_0000_0000, 0x100);
    vstd::arithmetic::div_mod::lemma_fundamental_div_mod(x / 0x100_0000_0000, 0x100);
    vstd::arithmetic::div_mod::lemma_fundamental_div_mod(x / 0x1_0000_0000_0000, 0x100);
    vstd::arithmetic::div_mod::lemma_div_denominator(x, 0x100, 0x100);
    vstd::arithmetic::div_mod::lemma_div_denominator(x, 0x1_0000, 0x100);
    vstd::arithmetic::div_mod::lemma_div_denominator(x, 0x100_0000, 0x100);
    vstd::arithmetic::div_mod::lemma_div_denominator(x, 0x1_0000_0000, 0x100);
    vstd::arithmetic::div_mod::lemma_div_denominator(x, 0x100_0000_0000, 0x100);
    vstd::arithmetic::div_mod::lemma_div_denominator(x, 0x1_0000_0000_0000, 0x100);
    vstd::arithmetic::div_mod::lemma_mod_division_less_than_divisor(x, 0x100);
    vstd::arithmetic::div_mod::lemma_mod_division_less_than_divisor(x / 0x100, 0x100);
    vstd::arithmetic::div_mod::lemma_mod_division_less_than_divisor(x / 0x1_0000, 0x100);
    vstd::arithmetic::div_mod::lemma_mod_division_less_than_divisor(x / 0x100_0000, 0x100);
    vstd::arithmetic::div_mod::lemma_mod_division_less_than_divisor(x / 0x1_0000_0000, 0x100);
    vstd::arithmetic::div_mod::lemma_mod_division_less_than_divisor(x / 0x100_0000_0000, 0x100);
    vstd::arithmetic::div_mod::lemma_mod_division_less_than_divisor(x / 0x1_0000_0000_0000, 0x100);
}

/// Decoding undoes encoding: the record read back from `wire_bytes` is the
/// record that was written.
pub proof fn lemma_wire_roundtrip(j: WireJob)
    ensures
        parse_wire(wire_bytes(j)) == j,
{
    let b = wire_bytes(j);
    assert(b.subrange(0, 4) =~= u32_le(j.job_id));
    assert(b.subrange(4, 8) =~= u32_le(j.handle));
    assert(b.subrange(8, 12) =~= u32_le(j.arg0_offset));
    assert(b.subrange(12, 16) =~= u32_le(j.arg0_length));
    assert(b.subrange(16, 20) =~= u32_le(j.arg1_offset));
    assert(b.subrange(20, 24) =~= u32_le(j.arg1_length));
    assert(b.subrange(24, 32) =~= u64_le(j.from_offset));
    assert(b.subrange(32, 36) =~= u32_le(j.result));
    lemma_u32_le_value(j.job_id);
    lemma_u32_le_value(j.handle);
    lemma_u32_le_value(j.arg0_offset);
    lemma_u32_le_value(j.arg0_length);
    lemma_u32_le_value(j.arg1_offset);
    lemma_u32_le_value(j.arg1_length);
    lemma_u64_le_value(j.from_offset);
    lemma_u32_le_value(j.result);
    assert(b[36] == j.ty && b[37] == j.flags && b[38] == j.from_anchor);
}

/// Where a seek starts from; the offset is signed for `Current` and `End`.
#[derive(Clone, Copy, PartialEq, Eq, Structural, Debug)]
pub enum SeekFrom {
    Start(u64),
    Current(i64),
    End(i64),
}

/// Stable wire values of the seek anchors.
pub const ANCHOR_START: u8 = 0;

pub const ANCHOR_CURRENT: u8 = 1;

pub const ANCHOR_END: u8 = 2;

impl SeekFrom {
    /// Decode an anchor byte and raw offset; unknown anchors have no
    /// meaning.
    pub fn try_from_raw(anchor: u8, offset: u64) -> (r: Option<SeekFrom>)
        ensures
            match r {
                Some(s) => anchor <= 2 && s == (if anchor == 0 {
                    SeekFrom::Start(offset)
                } else if anchor == 1 {
                    SeekFrom::Current(offset as i64)
                } else {
                    SeekFrom::End(offset as i64)
                }),
                None => anchor > 2,
            },
    {
        match anchor {
            0 => Some(SeekFrom::Start(offset)),
            1 => Some(SeekFrom::Current(offset as i64)),
            2 => Some(SeekFrom::End(offset as i64)),
            _ => None,
        }
    }

    /// Encode as an anchor byte and raw offset.
    pub fn into_raw(self) -> (r: (u8, u64))
        ensures
            match self {
                SeekFrom::Start(n) => r == (0u8, n),
                SeekFrom::Current(n) => r.0 == 1 && r.1 == n as u64,
                SeekFrom::End(n) => r.0 == 2 && r.1 == n as u64,
            },
    {
        match self {
            SeekFrom::Start(n) => (0, n),
            SeekFrom::Current(n) => (1, n as u64),
            SeekFrom::End(n) => (2, n as u64),
        }
    }
}

/// Decoding an encoded anchor gives the anchor back.
pub proof fn lemma_seek_roundtrip(s: SeekFrom)
    ensures
        match s {
            SeekFrom::Start(_) => true,
            SeekFrom::Current(n) => (n as u64) as i64 == n,
            SeekFrom::End(n) => (n as u64) as i64 == n,
        },
{
    match s {
        SeekFrom::Start(_) => {},
        SeekFrom::Current(n) => {
            assert((n as u64) as i64 == n) by (bit_vector);
        },
        SeekFrom::End(n) => {
            assert((n as u64) as i64 == n) by (bit_vector);
        },
    }
}

/// A client operation decoded from a submission record and its payload:
/// the record's trailing bytes for writes, opens and creates, a length for
/// reads and peeks, a position for seeks.
pub enum Job {
    Read { job_id: u32, handle: u32, length: u64 },
    Peek { job_id: u32, handle: u32, length: u64 },
    Write { job_id: u32, handle: u32, data: Vec<u8> },
    Open { job_id: u32, handle: u32, path: Vec<u8> },
    Create { job_id: u32, handle: u32, path: Vec<u8> },
    Close { handle: u32 },
    Seek { job_id: u32, handle: u32, from: SeekFrom },
}

/// Whether a wire record `w` with payload `rest` decodes to some
/// operation.
pub open spec fn job_wire_ok(w: WireJob, rest: Seq<u8>) -> bool {
    ||| (w.ty == JOB_READ && rest.len() == 8)
    ||| (w.ty == JOB_PEEK && rest.len() == 8)
    ||| w.ty == JOB_WRITE
    ||| w.ty == JOB_OPEN
    ||| w.ty == JOB_CREATE
    ||| w.ty == JOB_CLOSE
    ||| (w.ty == JOB_SEEK && rest.len() == 8 && w.from_anchor <= 2)
}

impl Job {
    /// Decode a submission record and its payload into the operation it
    /// asks for. `None` when the record is truncated, its kind is unknown,
    /// or its payload does not fit the kind.
    pub fn deserialize(data: &Vec<u8>) -> (r: Option<Job>)
        ensures
            match r {
                Some(j) => {
                    &&& data@.len() >= WIRE_JOB_BYTES
                    &&& ({
                        let w = parse_wire(data@);
                        let rest = data@.subrange(WIRE_JOB_BYTES as int, data@.len() as int);
                        match j {
                            Job::Read { job_id, handle, length } => w.ty == JOB_READ && rest.len()
                                == 8 && job_id == w.job_id && handle == w.handle && length
                                == le_to_u64(rest),
                            Job::Peek { job_id, handle, length } => w.ty == JOB_PEEK && rest.len()
                                == 8 && job_id == w.job_id && handle == w.handle && length
                                == le_to_u64(rest),
                            Job::Write { job_id, handle, data: d } => w.ty == JOB_WRITE && job_id
                                == w.job_id && handle == w.handle && d@ == rest,
                            Job::Open { job_id, handle, path } => w.ty == JOB_OPEN && job_id
                                == w.job_id && handle == w.handle && path@ == rest,
                            Job::Create { job_id, handle, path } => w.ty == JOB_CREATE && job_id
                                == w.job_id && handle == w.handle && path@ == rest,
                            Job::Close { handle } => w.ty == JOB_CLOSE && handle == w.handle,
                            Job::Seek { job_id, handle, from } => w.ty == JOB_SEEK && rest.len()
                                == 8 && w.from_anchor <= 2 && job_id == w.job_id && handle
                                == w.handle && from == (if w.from_anchor == 0 {
                                SeekFrom::Start(le_to_u64(rest))
                            } else if w.from_anchor == 1 {
                                SeekFrom::Current(le_to_u64(rest) as i64)
                            } else {
                                SeekFrom::End(le_to_u64(rest) as i64)
                            }),
                        }
                    })
                },
                None => data@.len() < WIRE_JOB_BYTES || !job_wire_ok(
                    parse_wire(data@),
                    data@.subrange(WIRE_JOB_BYTES as int, data@.len() as int),
                ),
            },
    {
        let w = match WireJob::deserialize(data) {
            Some(w) => w,
            None => {
                return None;
            },
        };
        let dlen = data.len();
        let mut rest: Vec<u8> = Vec::new();
        let mut i: usize = WIRE_JOB_BYTES;
        while i < dlen
            invariant
                WIRE_JOB_BYTES <= i <= dlen,
                dlen == data@.len(),
                rest@ == data@.subrange(WIRE_JOB_BYTES as int, i as int),
            decreases dlen - i,
        {
            rest.push(data[i]);
            proof {
                assert(rest@ =~= data@.subrange(WIRE_JOB_BYTES as int, i + 1));
            }
            i = i + 1;
        }
        let (job_id, handle) = (w.job_id, w.handle);
        if w.ty == JOB_READ {
            if rest.len() != 8 {
                return None;
            }
            let length = read_u64(&rest, 0);
            proof {
                assert(rest@.subrange(0, 8) =~= rest@);
            }
            Some(Job::Read { job_id, handle, length })
        } else if w.ty == JOB_PEEK {
            if rest.len() != 8 {
                return None;
            }
            let length = read_u64(&rest, 0);
            proof {
                assert(rest@.subrange(0, 8) =~= rest@);
            }
            Some(Job::Peek { job_id, handle, length })
        } else if w.ty == JOB_WRITE {
            Some(Job::Write { job_id, handle, data: rest })
        } else if w.ty == JOB_OPEN {
            Some(Job::Open { job_id, handle, path: rest })
        } else if w.ty == JOB_CREATE {
            Some(Job::Create { job_id, handle, path: rest })
        } else if w.ty == JOB_CLOSE {
            Some(Job::Close { handle })
        } else if w.ty == JOB_SEEK {
            if rest.len() != 8 {
                return None;
            }
            let offt = read_u64(&rest, 0);
            proof {
                assert(rest@.subrange(0, 8) =~= rest@);
            }
            match SeekFrom::try_from_raw(w.from_anchor, offt) {
                Some(from) => Some(Job::Seek { job_id, handle, from }),
                None => None,
            }
        } else {
            None
        }
    }

    /// Append a reply to a read: the record, then the bytes read.
    pub fn reply_read(buf: &mut Vec<u8>, job_id: u32, data: &Vec<u8>)
        ensures
            final(buf)@ == old(buf)@ + wire_bytes(WireJob::base_spec(job_id, JOB_READ, 0)) + data@,
    {
        let w = WireJob::base(job_id, JOB_READ, 0);
        w.serialize(buf);
        let mut i: usize = 0;
        let ghost mid = buf@;
        while i < data.len()
            invariant
                i <= data@.len(),
                buf@ == mid + data@.subrange(0, i as int),
            decreases data@.len() - i,
        {
            buf.push(data[i]);
            proof {
                assert(buf@ =~= mid + data@.subrange(0, i + 1));
            }
            i = i + 1;
        }
        proof {
            assert(data@.subrange(0, data@.len() as int) =~= data@);
        }
    }

    /// Append a reply to a peek: the record, then the bytes seen.
    pub fn reply_peek(buf: &mut Vec<u8>, job_id: u32, data: &Vec<u8>)
        ensures
            final(buf)@ == old(buf)@ + wire_bytes(WireJob::base_spec(job_id, JOB_PEEK, 0)) + data@,
    {
        let w = WireJob::base(job_id, JOB_PEEK, 0);
        w.serialize(buf);
        let mut i: usize = 0;
        let ghost mid = buf@;
        while i < data.len()
            invariant
                i <= data@.len(),
                buf@ == mid + data@.subrange(0, i as int),
            decreases data@.len() - i,
        {
            buf.push(data[i]);
            proof {
                assert(buf@ =~= mid + data@.subrange(0, i + 1));
            }
            i = i + 1;
        }
        proof {
            assert(data@.subrange(0, data@.len() as int) =~= data@);
        }
    }

    /// Append a reply to an open: the record carrying the new handle.
    pub fn reply_open(buf: &mut Vec<u8>, job_id: u32, handle: u32)
        ensures
            final(buf)@ == old(buf)@ + wire_bytes(WireJob::base_spec(job_id, JOB_OPEN, handle)),
    {
        let w = WireJob::base(job_id, JOB_OPEN, handle);
        w.serialize(buf);
    }

    /// Append a reply to a create: the record carrying the new handle.
    pub fn reply_create(buf: &mut Vec<u8>, job_id: u32, handle: u32)
        ensures
            final(buf)@ == old(buf)@ + wire_bytes(WireJob::base_spec(job_id, JOB_CREATE, handle)),
    {
        let w = WireJob::base(job_id, JOB_CREATE, handle);
        w.serialize(buf);
    }

    /// Append a reply to a write: the record, then the byte count written.
    pub fn reply_write(buf: &mut Vec<u8>, job_id: u32, amount: u64)
        ensures
            final(buf)@ == old(buf)@ + wire_bytes(WireJob::base_spec(job_id, JOB_WRITE, 0))
                + u64_le(amount),
    {
        let w = WireJob::base(job_id, JOB_WRITE, 0);
        w.serialize(buf);
        push_u64(buf, amount);
    }

    /// Append a reply to a seek: the record, then the new position.
    pub fn reply_seek(buf: &mut Vec<u8>, job_id: u32, position: u64)
        ensures
            final(buf)@ == old(buf)@ + wire_bytes(WireJob::base_spec(job_id, JOB_SEEK, 0)) + u64_le(
                position,
            ),
    {
        let w = WireJob::base(job_id, JOB_SEEK, 0);
        w.serialize(buf);
        push_u64(buf, position);
    }

    /// Append an error reply: a record whose result is the error's stable
    /// non-zero code.
    pub fn reply_error(buf: &mut Vec<u8>, job_id: u32, error: Error)
        ensures
            final(buf)@ == old(buf)@ + wire_bytes(
                WireJob {
                    result: error.code_spec() as u32,
                    ..WireJob::base_spec(job_id, 0, 0)
                },
            ),
    {
        let mut w = WireJob::base(job_id, 0, 0);
        w.result = error.code() as u32;
        w.serialize(buf);
    }
}

impl WireJob {
    /// The record [`WireJob::base`] builds.
    pub open spec fn base_spec(job_id: u32, ty: u8, handle: u32) -> WireJob {
        WireJob {
            job_id,
            ty,
            flags: 0,
            handle,
            arg0_offset: 0,
            arg0_length: 0,
            arg1_offset: 0,
            arg1_length: 0,
            from_anchor: 0,
            from_offset: 0,
            result: 0,
        }
    }
}

/// One direction of the shared stream-table traffic: a bounded queue of
/// wire records between one producer and one consumer. A full ring is
/// back-pressure, not an error: the submitter retries later.
pub struct Ring {
    capacity: usize,
    items: Vec<WireJob>,
}

impl Ring {
    pub closed spec fn capacity_spec(&self) -> nat {
        self.capacity as nat
    }

    /// The queued records, oldest first.
    pub closed spec fn items_spec(&self) -> Seq<WireJob> {
        self.items@
    }

    pub open spec fn wf(&self) -> bool {
        self.items_spec().len() <= self.capacity_spec()
    }

    /// An empty ring of `capacity` records.
    pub fn new(capacity: usize) -> (r: Ring)
        ensures
            r.wf(),
            r.capacity_spec() == capacity,
            r.items_spec().len() == 0,
    {
        Ring { capacity, items: Vec::new() }
    }

    /// Enqueue one record. `false` is back-pressure: the ring is full and
    /// the record was not taken.
    pub fn push(&mut self, job: WireJob) -> (r: bool)
        requires
            old(self).wf(),
        ensures
            final(self).wf(),
            final(self).capacity_spec() == old(self).capacity_spec(),
            if old(self).items_spec().len() < old(self).capacity_spec() {
                r && final(self).items_spec() == old(self).items_spec().push(job)
            } else {
                !r && final(self).items_spec() == old(self).items_spec()
            },
    {
        if self.items.len() < self.capacity {
            self.items.push(job);
            true
        } else {
            false
        }
    }

    /// Dequeue the oldest record, if any.
    pub fn pop(&mut self) -> (r: Option<WireJob>)
        requires
            old(self).wf(),
        ensures
            final(self).wf(),
            final(self).capacity_spec() == old(self).capacity_spec(),
            match r {
                Some(j) => {
                    &&& old(self).items_spec().len() > 0
                    &&& j == old(self).items_spec().first()
                    &&& final(self).items_spec() == old(self).items_spec().drop_first()
                },
                None => {
                    &&& old(self).items_spec().len() == 0
                    &&& final(self).items_spec() == old(self).items_spec()
                },
            },
    {
        if self.items.len() == 0 {
            return None;
        }
        let j = self.items.remove(0);
        proof {
            assert(self.items_spec() =~= old(self).items_spec().drop_first());
        }
        Some(j)
    }
}

/// One table's in-flight jobs: the FIFO of submissions the server has not
/// taken yet, and the ticket waker recorded under each outstanding job
/// identifier until the server finishes or cancels it.
pub struct JobQueue {
    queue: Vec<WireJob>,
    active: Vec<(u32, usize)>,
}

impl JobQueue {
    /// The submissions the server has not taken yet, oldest first.
    pub closed spec fn queue_spec(&self) -> Seq<WireJob> {
        self.queue@
    }

    /// The outstanding `(job identifier, ticket waker)` records.
    pub closed spec fn active_spec(&self) -> Seq<(u32, usize)> {
        self.active@
    }

    /// Whether `job_id` is outstanding.
    pub open spec fn has_job(&self, job_id: u32) -> bool {
        exists|i: int|
            0 <= i < self.active_spec().len() && (#[trigger] self.active_spec()[i]).0 == job_id
    }

    /// Every outstanding job identifier is recorded once.
    pub open spec fn wf(&self) -> bool {
        forall|i: int, j: int|
            0 <= i < j < self.active_spec().len() ==> self.active_spec()[i].0
                != self.active_spec()[j].0
    }

    pub fn new() -> (r: JobQueue)
        ensures
            r.wf(),
            r.queue_spec().len() == 0,
            r.active_spec().len() == 0,
    {
        JobQueue { queue: Vec::new(), active: Vec::new() }
    }

    /// Post a client operation: record its ticket waker under its job
    /// identifier and queue the record for the server. The identifier must
    /// not already be outstanding; identifiers return to the free state
    /// when their job completes.
    pub fn submit(&mut self, job: WireJob, waker: usize)
        requires
            old(self).wf(),
            !old(self).has_job(job.job_id),
        ensures
            final(self).wf(),
            final(self).queue_spec() == old(self).queue_spec().push(job),
            final(self).active_spec() == old(self).active_spec().push((job.job_id, waker)),
    {
        self.queue.push(job);
        self.active.push((job.job_id, waker));
        proof {
            let a = self.active_spec();
            assert forall|i: int, j: int| 0 <= i < j < a.len() implies a[i].0 != a[j].0 by {
                if j == a.len() - 1 {
                    if old(self).active_spec()[i].0 == job.job_id {
                        assert(old(self).has_job(job.job_id));
                    }
                }
            }
        }
    }

    /// Hand the oldest queued submission to the server: jobs are delivered
    /// in submission order.
    pub fn take_job(&mut self) -> (r: Option<WireJob>)
        requires
            old(self).wf(),
        ensures
            final(self).wf(),
            final(self).active_spec() == old(self).active_spec(),
            match r {
                Some(j) => {
                    &&& old(self).queue_spec().len() > 0
                    &&& j == old(self).queue_spec().first()
                    &&& final(self).queue_spec() == old(self).queue_spec().drop_first()
                },
                None => {
                    &&& old(self).queue_spec().len() == 0
                    &&& final(self).queue_spec() == old(self).queue_spec()
                },
            },
    {
        if self.queue.len() == 0 {
            return None;
        }
        let j = self.queue.remove(0);
        proof {
            assert(self.queue_spec() =~= old(self).queue_spec().drop_first());
            assert(self.active_spec() == old(self).active_spec());
        }
        Some(j)
    }

    /// Complete an outstanding job: the recorded ticket waker is removed
    /// and handed back so the caller can complete the client's ticket.
    /// Fails with `DoesNotExist` exactly when the identifier is not
    /// outstanding.
    pub fn finish_job(&mut self, job_id: u32) -> (r: Result<usize, Error>)
        requires
            old(self).wf(),
        ensures
            final(self).wf(),
            final(self).queue_spec() == old(self).queue_spec(),
            match r {
                Ok(w) => {
                    &&& old(self).has_job(job_id)
                    &&& !final(self).has_job(job_id)
                    &&& exists|i: int|
                        0 <= i < old(self).active_spec().len() && old(self).active_spec()[i] == (
                        job_id,
                        w,
                    ) && final(self).active_spec() == old(self).active_spec().remove(i)
                },
                Err(e) => {
                    &&& e == Error::DoesNotExist
                    &&& !old(self).has_job(job_id)
                    &&& final(self).active_spec() == old(self).active_spec()
                },
            },
    {
        let ghost a0 = self.active_spec();
        let mut i: usize = 0;
        while i < self.active.len()
            invariant
                self.wf(),
                self.active_spec() == a0,
                a0 == old(self).active_spec(),
                self.queue_spec() == old(self).queue_spec(),
                i <= a0.len(),
                forall|j: int| 0 <= j < i ==> (#[trigger] a0[j]).0 != job_id,
            decreases a0.len() - i,
        {
            if self.active[i].0 == job_id {
                let (_, w) = self.active.remove(i);
                proof {
                    assert(a0[i as int] == (job_id, w));
                    let a1 = self.active_spec();
                    assert(a1 =~= a0.remove(i as int));
                    assert forall|p: int, q: int| 0 <= p < q < a1.len() implies a1[p].0
                        != a1[q].0 by {
                        let p2 = if p < i {
                            p
                        } else {
                            p + 1
                        };
                        let q2 = if q < i {
                            q
                        } else {
                            q + 1
                        };
                        assert(a1[p] == a0[p2] && a1[q] == a0[q2]);
                    }
                    assert(!self.has_job(job_id)) by {
                        if self.has_job(job_id) {
                            let k = choose|k: int|
                                0 <= k < a1.len() && (#[trigger] a1[k]).0 == job_id;
                            let k2 = if k < i {
                                k
                            } else {
                                k + 1
                            };
                            assert(a1[k] == a0[k2]);
                            if k2 < i as int {
                                assert(a0[k2].0 != a0[i as int].0);
                            } else {
                                assert(a0[i as int].0 != a0[k2].0);
                            }
                        }
                    }
                    assert(old(self).active_spec() == a0);
                    assert(old(self).has_job(job_id)) by {
                        assert(old(self).active_spec()[i as int].0 == job_id);
                    }
                    assert(exists|k: int|
                        0 <= k < old(self).active_spec().len() && old(self).active_spec()[k] == (
                        job_id,
                        w,
                    ) && self.active_spec() == old(self).active_spec().remove(k)) by {
                        assert(0 <= (i as int) < old(self).active_spec().len() && old(
                            self,
                        ).active_spec()[i as int] == (job_id, w) && self.active_spec() == old(
                            self,
                        ).active_spec().remove(i as int));
                    }
                }
                return Ok(w);
            }
            i = i + 1;
        }
        proof {
            if self.has_job(job_id) {
                let k = choose|k: int|
                    0 <= k < a0.len() && (#[trigger] a0[k]).0 == job_id;
                assert(a0[k].0 != job_id);
            }
        }
        Err(Error::DoesNotExist)
    }

    /// Drop an outstanding job without completing it; the recorded waker is
    /// handed back so the caller can cancel the client's ticket, which then
    /// observes `Cancelled`.
    pub fn cancel_job(&mut self, job_id: u32) -> (r: Result<usize, Error>)
        requires
            old(self).wf(),
        ensures
            final(self).wf(),
            final(self).queue_spec() == old(self).queue_spec(),
            match r {
                Ok(w) => {
                    &&& old(self).has_job(job_id)
                    &&& !final(self).has_job(job_id)
                    &&& exists|i: int|
                        0 <= i < old(self).active_spec().len() && old(self).active_spec()[i] == (
                        job_id,
                        w,
                    ) && final(self).active_spec() == old(self).active_spec().remove(i)
                },
                Err(e) => {
                    &&& e == Error::DoesNotExist
                    &&& !old(self).has_job(job_id)
                    &&& final(self).active_spec() == old(self).active_spec()
                },
            },
    {
        self.finish_job(job_id)
    }

    /// The outstanding wakers, oldest first: when a table dies, each is
    /// cancelled so every waiting client observes `Cancelled`.
    pub fn drain_wakers(&mut self) -> (r: Vec<usize>)
        requires
            old(self).wf(),
        ensures
            final(self).wf(),
            final(self).active_spec().len() == 0,
            final(self).queue_spec().len() == 0,
            r@.len() == old(self).active_spec().len(),
            forall|i: int| 0 <= i < r@.len() ==> r@[i] == old(self).active_spec()[i].1,
    {
        self.queue = Vec::new();
        let mut out: Vec<usize> = Vec::new();
        let ghost a0 = self.active_spec();
        let mut i: usize = 0;
        while i < self.active.len()
            invariant
                self.active_spec() == a0,
                i <= a0.len(),
                out@.len() == i,
                forall|j: int| 0 <= j < i ==> out@[j] == a0[j].1,
            decreases a0.len() - i,
        {
            out.push(self.active[i].1);
            i = i + 1;
        }
        self.active = Vec::new();
        out
    }
}

} // verus!
