//! Byte-level framing of DATA and ACK datagrams. All numeric fields are
//! big-endian.
use vstd::prelude::*;

verus! {

/// Type byte of a DATA datagram.
pub const DATA_TYPE: u8 = 0x01;

/// Type byte of an ACK datagram.
pub const ACK_TYPE: u8 = 0x02;

/// Length of a DATA header: type, flags, stream id, seq, timestamp, length.
pub const DATA_HEADER_LEN: usize = 18;

/// Length of an ACK datagram: type, flags, cumulative, bitmap.
pub const ACK_LEN: usize = 14;

/// Largest payload that the 16-bit length field can describe.
pub const MAX_FIELD_PAYLOAD: usize = 65535;

/// Why a datagram could not be encoded.
#[derive(Debug, Clone, Copy, PartialEq, Eq, Structural)]
pub enum CodecError {
    /// The payload does not fit the 16-bit length field.
    InvalidPayloadSize,
}

pub open spec fn be16(x: u16) -> Seq<u8> {
    seq![(x >> 8u16) as u8, x as u8]
}

pub open spec fn be32(x: u32) -> Seq<u8> {
    seq![(x >> 24u32) as u8, (x >> 16u32) as u8, (x >> 8u32) as u8, x as u8]
}

pub open spec fn be64(x: u64) -> Seq<u8> {
    seq![
        (x >> 56u64) as u8, (x >> 48u64) as u8, (x >> 40u64) as u8, (x >> 32u64) as u8,
        (x >> 24u64) as u8, (x >> 16u64) as u8, (x >> 8u64) as u8, x as u8,
    ]
}

/// The 16-bit value whose big-endian bytes are `a, b`.
pub open spec fn u16_of(a: u8, b: u8) -> u16 {
    ((a as u16) << 8u16) | (b as u16)
}

/// The 32-bit value whose big-endian bytes start at `i` in `s`.
pub open spec fn u32_at(s: Seq<u8>, i: int) -> u32 {
    ((s[i] as u32) << 24u32) | ((s[i + 1] as u32) << 16u32) | ((s[i + 2] as u32) << 8u32) | (s[i
        + 3] as u32)
}

/// The 64-bit value whose big-endian bytes start at `i` in `s`.
pub open spec fn u64_at(s: Seq<u8>, i: int) -> u64 {
    ((s[i] as u64) << 56u64) | ((s[i + 1] as u64) << 48u64) | ((s[i + 2] as u64) << 40u64) | ((s[i
        + 3] as u64) << 32u64) | ((s[i + 4] as u64) << 24u64) | ((s[i + 5] as u64) << 16u64) | ((s[i
        + 6] as u64) << 8u64) | (s[i + 7] as u64)
}

/// The bytes of a DATA datagram.
pub open spec fn data_bytes(stream_id: u16, seq: u32, timestamp: u64, payload: Seq<u8>) -> Seq<
    u8,
> {
    seq![DATA_TYPE, 0u8] + be16(stream_id) + be32(seq) + be64(timestamp) + be16(
        payload.len() as u16,
    ) + payload
}

/// The bytes of an ACK datagram.
pub open spec fn ack_bytes(cumulative: u32, bitmap: u64) -> Seq<u8> {
    seq![ACK_TYPE, 0u8] + be32(cumulative) + be64(bitmap)
}

/// What a DATA datagram carries to the receiver: its seq and its payload, or
/// nothing when the bytes are too short, of another type, or truncated.
pub open spec fn data_view(b: Seq<u8>) -> Option<(u32, Seq<u8>)> {
    if b.len() < 18 || b[0] != DATA_TYPE {
        None
    } else {
        let len = u16_of(b[16], b[17]) as int;
        if 18 + len > b.len() {
            None
        } else {
            Some((u32_at(b, 4), b.subrange(18, 18 + len)))
        }
    }
}

/// What an ACK datagram carries: its cumulative seq and its bitmap.
pub open spec fn ack_view(b: Seq<u8>) -> Option<(u32, u64)> {
    if b.len() < 14 || b[0] != ACK_TYPE {
        None
    } else {
        Some((u32_at(b, 2), u64_at(b, 6)))
    }
}

pub open spec fn opt_payload_view(r: Option<(u32, Vec<u8>)>) -> Option<(u32, Seq<u8>)> {
    match r {
        Some((s, p)) => Some((s, p@)),
        None => None,
    }
}

proof fn lemma_u16_bytes(x: u16)
    ensures
        u16_of((x >> 8u16) as u8, x as u8) == x,
{
    assert((((((x >> 8u16) as u8) as u16) << 8u16) | ((x as u8) as u16)) == x) by (bit_vector);
}

proof fn lemma_u32_bytes(x: u32)
    ensures
        u32_at(be32(x), 0) == x,
{
    let s = be32(x);
    assert(((((x >> 24u32) as u8) as u32) << 24u32) | ((((x >> 16u32) as u8) as u32) << 16u32)
        | ((((x >> 8u32) as u8) as u32) << 8u32) | ((x as u8) as u32) == x) by (bit_vector);
}

proof fn lemma_u64_bytes(x: u64)
    ensures
        u64_at(be64(x), 0) == x,
{
    let s = be64(x);
    assert(((((x >> 56u64) as u8) as u64) << 56u64) | ((((x >> 48u64) as u8) as u64) << 48u64)
        | ((((x >> 40u64) as u8) as u64) << 40u64) | ((((x >> 32u64) as u8) as u64) << 32u64)
        | ((((x >> 24u64) as u8) as u64) << 24u64) | ((((x >> 16u64) as u8) as u64) << 16u64)
        | ((((x >> 8u64) as u8) as u64) << 8u64) | ((x as u8) as u64) == x) by (bit_vector);
}

/// Decoding an encoded DATA datagram gives back its seq and payload.
pub proof fn lemma_data_round_trip(stream_id: u16, seq: u32, timestamp: u64, payload: Seq<u8>)
    requires
        payload.len() <= MAX_FIELD_PAYLOAD,
    ensures
        data_view(data_bytes(stream_id, seq, timestamp, payload)) == Some((seq, payload)),
{
    let b = data_bytes(stream_id, seq, timestamp, payload);
    let n = payload.len() as u16;
    lemma_u16_bytes(n);
    lemma_u32_bytes(seq);
    assert(u32_at(b, 4) == u32_at(be32(seq), 0));
    assert(u16_of(b[16], b[17]) == n);
    assert(b.subrange(18, 18 + n as int) =~= payload);
}

/// Decoding an encoded ACK datagram gives back its cumulative seq and bitmap.
pub proof fn lemma_ack_round_trip(cumulative: u32, bitmap: u64)
    ensures
        ack_view(ack_bytes(cumulative, bitmap)) == Some((cumulative, bitmap)),
{
    let b = ack_bytes(cumulative, bitmap);
    lemma_u32_bytes(cumulative);
    lemma_u64_bytes(bitmap);
    assert(u32_at(b, 2) == u32_at(be32(cumulative), 0));
    assert(u64_at(b, 6) == u64_at(be64(bitmap), 0));
}

fn push_u16(v: &mut Vec<u8>, x: u16)
    ensures
        final(v)@ == old(v)@ + be16(x),
{
    v.push((x >> 8) as u8);
    v.push(x as u8);
    assert(final(v)@ =~= old(v)@ + be16(x));
}

fn push_u32(v: &mut Vec<u8>, x: u32)
    ensures
        final(v)@ == old(v)@ + be32(x),
{
    v.push((x >> 24) as u8);
    v.push((x >> 16) as u8);
    v.push((x >> 8) as u8);
    v.push(x as u8);
    assert(final(v)@ =~= old(v)@ + be32(x));
}

fn push_u64(v: &mut Vec<u8>, x: u64)
    ensures
        final(v)@ == old(v)@ + be64(x),
{
    v.push((x >> 56) as u8);
    v.push((x >> 48) as u8);
    v.push((x >> 40) as u8);
    v.push((x >> 32) as u8);
    v.push((x >> 24) as u8);
    v.push((x >> 16) as u8);
    v.push((x >> 8) as u8);
    v.push(x as u8);
    assert(final(v)@ =~= old(v)@ + be64(x));
}

/// Appends the bytes `s[from..to]` to `v`.
fn push_range(v: &mut Vec<u8>, s: &[u8], from: usize, to: usize)
    requires
        from <= to <= s@.len(),
    ensures
        final(v)@ == old(v)@ + s@.subrange(from as int, to as int),
{
    let mut i = from;
    while i < to
        invariant
            from <= i <= to <= s@.len(),
            v@ == old(v)@ + s@.subrange(from as int, i as int),
        decreases to - i,
    {
        v.push(s[i]);
        i = i + 1;
        assert(v@ =~= old(v)@ + s@.subrange(from as int, i as int));
    }
}

/// Frames a DATA datagram; fails when the payload does not fit the length
/// field.
pub fn make_data_packet(stream_id: u16, seq: u32, timestamp: u64, payload: &[u8]) -> (r: Result<
    Vec<u8>,
    CodecError,
>)
    ensures
        payload@.len() <= MAX_FIELD_PAYLOAD ==> (r matches Ok(p) && p@ == data_bytes(
            stream_id,
            seq,
            timestamp,
            payload@,
        )),
        payload@.len() > MAX_FIELD_PAYLOAD ==> r == Err::<Vec<u8>, CodecError>(
            CodecError::InvalidPayloadSize,
        ),
{
    if payload.len() > MAX_FIELD_PAYLOAD {
        return Err(CodecError::InvalidPayloadSize);
    }
    let mut p: Vec<u8> = Vec::with_capacity(DATA_HEADER_LEN + payload.len());
    p.push(DATA_TYPE);
    p.push(0u8);
    push_u16(&mut p, stream_id);
    push_u32(&mut p, seq);
    push_u64(&mut p, timestamp);
    push_u16(&mut p, payload.len() as u16);
    push_range(&mut p, payload, 0, payload.len());
    assert(payload@.subrange(0, payload@.len() as int) =~= payload@);
    assert(p@ =~= data_bytes(stream_id, seq, timestamp, payload@));
    Ok(p)
}

/// Reads the seq and payload of a DATA datagram; `None` when the bytes are
/// shorter than a header, of another type, or shorter than the length field
/// announces.
pub fn parse_data_packet(buf: &[u8]) -> (r: Option<(u32, Vec<u8>)>)
    ensures
        opt_payload_view(r) == data_view(buf@),
{
    if buf.len() < DATA_HEADER_LEN || buf[0] != DATA_TYPE {
        return None;
    }
    let seq = ((buf[4] as u32) << 24) | ((buf[5] as u32) << 16) | ((buf[6] as u32) << 8) | (
    buf[7] as u32);
    let len = (((buf[16] as u16) << 8) | (buf[17] as u16)) as usize;
    if buf.len() < DATA_HEADER_LEN + len {
        return None;
    }
    let mut payload: Vec<u8> = Vec::with_capacity(len);
    push_range(&mut payload, buf, DATA_HEADER_LEN, DATA_HEADER_LEN + len);
    assert(payload@ =~= buf@.subrange(18, 18 + len));
    Some((seq, payload))
}

/// Frames an ACK datagram.
pub fn make_ack_packet(cumulative: u32, bitmap: u64) -> (r: Vec<u8>)
    ensures
        r@ == ack_bytes(cumulative, bitmap),
{
    let mut v: Vec<u8> = Vec::with_capacity(ACK_LEN);
    v.push(ACK_TYPE);
    v.push(0u8);
    push_u32(&mut v, cumulative);
    push_u64(&mut v, bitmap);
    assert(v@ =~= ack_bytes(cumulative, bitmap));
    v
}

/// Frames the ACK datagram a receiver sends for `(cumulative, bitmap)`.
pub fn build_ack(cumulative: u32, bitmap: u64) -> (r: Vec<u8>)
    ensures
        r@ == ack_bytes(cumulative, bitmap),
{
    make_ack_packet(cumulative, bitmap)
}

/// Reads the cumulative seq and bitmap of an ACK datagram; `None` when the
/// bytes are too short or of another type.
pub fn parse_ack(buffer: &[u8]) -> (r: Option<(u32, u64)>)
    ensures
        r == ack_view(buffer@),
{
    if buffer.len() < ACK_LEN || buffer[0] != ACK_TYPE {
        return None;
    }
    let cumulative = ((buffer[2] as u32) << 24) | ((buffer[3] as u32) << 16) | ((buffer[4] as u32)
        << 8) | (buffer[5] as u32);
    let bitmap = ((buffer[6] as u64) << 56) | ((buffer[7] as u64) << 48) | ((buffer[8] as u64)
        << 40) | ((buffer[9] as u64) << 32) | ((buffer[10] as u64) << 24) | ((buffer[11] as u64)
        << 16) | ((buffer[12] as u64) << 8) | (buffer[13] as u64);
    Some((cumulative, bitmap))
}

} // verus!
