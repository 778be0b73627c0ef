use crate::cursor::Cursor;
use vstd::prelude::*;

verus! {

/// The four bytes `"SEAC"` that open every stream, read as a big-endian word.
pub const SEAC_MAGIC: u32 = 0x5345_4143;

/// Failures reported by the codec.
#[derive(Debug, Clone, Copy, PartialEq, Eq, Structural)]
pub enum SeaError {
    /// The stream does not start with the magic word, or its header or a
    /// chunk header holds a value that no encoder writes.
    InvalidFile,
    /// The input ended in the middle of a field, or the samples do not
    /// divide into whole frames.
    EndOfFile,
    /// A chunk was requested from an encoder that has been finalized.
    EncoderClosed,
    /// The stream asked for cannot be made. The settings name a residual
    /// width, a scale-factor width, a slice length or a bitrate target that
    /// the codec does not support; or there are no channels, or more than
    /// 255; or there are more samples than 32 bits count; or the header of
    /// a stream in the making states another scale than the settings; or a
    /// chunk is asked for of more frames than a chunk holds; or the chunk
    /// made has more bytes than the 16 bits of the header's size of chunk
    /// state, another size than the chunks before it though it is a whole
    /// chunk, or a larger one though it is the short last chunk.
    InvalidSettings,
}

/// The value of `v` saturated to the range of a 16-bit sample.
pub open spec fn clamp_i16_spec(v: int) -> int {
    if v < -32768 {
        -32768
    } else if v > 32767 {
        32767
    } else {
        v
    }
}

/// Saturates a 32-bit value to the range of a 16-bit sample.
pub fn clamp_i16(v: i32) -> (r: i16)
    ensures
        r as int == clamp_i16_spec(v as int),
{
    if v < -32768 {
        -32768i16
    } else if v > 32767 {
        32767i16
    } else {
        v as i16
    }
}

/// The two bytes of `v`, least significant first.
pub open spec fn u16_le_bytes(v: u16) -> Seq<u8> {
    seq![(v % 256) as u8, (v / 256) as u8]
}

/// The value whose little-endian bytes are `b0`, `b1`.
pub open spec fn u16_from_le(b0: u8, b1: u8) -> u16 {
    (b0 as int + 256 * (b1 as int)) as u16
}

/// The four bytes of `v`, least significant first.
pub open spec fn u32_le_bytes(v: u32) -> Seq<u8> {
    seq![
        (v % 256) as u8,
        ((v / 256) % 256) as u8,
        ((v / 65536) % 256) as u8,
        (v / 16777216) as u8,
    ]
}

/// The value whose little-endian bytes are `b0` to `b3`.
pub open spec fn u32_from_le(b0: u8, b1: u8, b2: u8, b3: u8) -> u32 {
    (b0 as int + 256 * (b1 as int) + 65536 * (b2 as int) + 16777216 * (b3 as int)) as u32
}

/// The four bytes of `v`, most significant first.
pub open spec fn u32_be_bytes(v: u32) -> Seq<u8> {
    seq![
        (v / 16777216) as u8,
        ((v / 65536) % 256) as u8,
        ((v / 256) % 256) as u8,
        (v % 256) as u8,
    ]
}

/// The value whose big-endian bytes are `b0` to `b3`.
pub open spec fn u32_from_be(b0: u8, b1: u8, b2: u8, b3: u8) -> u32 {
    u32_from_le(b3, b2, b1, b0)
}

/// The 16-bit pattern that stores the signed sample `v` (two's complement).
pub open spec fn i16_bits(v: i16) -> u16 {
    if v < 0 {
        (v as int + 65536) as u16
    } else {
        v as u16
    }
}

/// The signed sample stored by the 16-bit pattern `u`.
pub open spec fn i16_from_bits(u: u16) -> i16 {
    if u >= 32768 {
        (u as int - 65536) as i16
    } else {
        u as i16
    }
}

/// Reading back the little-endian bytes of a value gives the value.
pub proof fn lemma_le_round_trip(a: u16, b: u32, c: i16)
    ensures
        u16_from_le(u16_le_bytes(a)[0], u16_le_bytes(a)[1]) == a,
        u32_from_le(u32_le_bytes(b)[0], u32_le_bytes(b)[1], u32_le_bytes(b)[2], u32_le_bytes(b)[3])
            == b,
        u32_from_be(u32_be_bytes(b)[0], u32_be_bytes(b)[1], u32_be_bytes(b)[2], u32_be_bytes(b)[3])
            == b,
        i16_from_bits(i16_bits(c)) == c,
{
}

/// Appends the little-endian bytes of `v` to `out`.
pub fn push_u16_le(out: &mut Vec<u8>, v: u16)
    ensures
        final(out)@ == old(out)@ + u16_le_bytes(v),
{
    out.push((v % 256) as u8);
    out.push((v / 256) as u8);
    assert(out@ =~= old(out)@ + u16_le_bytes(v));
}

/// Appends the little-endian bytes of `v` to `out`.
pub fn push_u32_le(out: &mut Vec<u8>, v: u32)
    ensures
        final(out)@ == old(out)@ + u32_le_bytes(v),
{
    out.push((v % 256) as u8);
    out.push(((v / 256) % 256) as u8);
    out.push(((v / 65536) % 256) as u8);
    out.push((v / 16777216) as u8);
    assert(out@ =~= old(out)@ + u32_le_bytes(v));
}

/// Appends the big-endian bytes of `v` to `out`.
pub fn push_u32_be(out: &mut Vec<u8>, v: u32)
    ensures
        final(out)@ == old(out)@ + u32_be_bytes(v),
{
    out.push((v / 16777216) as u8);
    out.push(((v / 65536) % 256) as u8);
    out.push(((v / 256) % 256) as u8);
    out.push((v % 256) as u8);
    assert(out@ =~= old(out)@ + u32_be_bytes(v));
}

/// Appends the little-endian two's-complement bytes of `v` to `out`.
pub fn push_i16_le(out: &mut Vec<u8>, v: i16)
    ensures
        final(out)@ == old(out)@ + u16_le_bytes(i16_bits(v)),
{
    let u: u16 = if v < 0 {
        (v as i32 + 65536) as u16
    } else {
        v as u16
    };
    push_u16_le(out, u);
}

/// The signed 16-bit value whose little-endian bytes are `b0`, `b1`.
pub fn i16_from_le_bytes(b0: u8, b1: u8) -> (r: i16)
    ensures
        r == i16_from_bits(u16_from_le(b0, b1)),
{
    let u: u32 = b0 as u32 + 256 * (b1 as u32);
    if u >= 32768 {
        (u as i32 - 65536) as i16
    } else {
        u as i16
    }
}

/// Reads one byte.
pub fn read_u8(reader: &mut Cursor<'_>) -> (r: Result<u8, SeaError>)
    ensures
        old(reader)@.len() < 1 ==> r == Err::<u8, SeaError>(SeaError::EndOfFile) && final(reader)@
            == old(reader)@,
        old(reader)@.len() >= 1 ==> r == Ok::<u8, SeaError>(old(reader)@[0]) && final(reader)@
            == old(reader)@.skip(1),
{
    let mut buf: Vec<u8> = Vec::new();
    buf.push(0);
    match reader.read_exact(buf.as_mut_slice()) {
        Ok(()) => Ok(buf[0]),
        Err(e) => Err(e),
    }
}

/// Reads a 16-bit number, least significant byte first.
pub fn read_u16_le(reader: &mut Cursor<'_>) -> (r: Result<u16, SeaError>)
    ensures
        old(reader)@.len() < 2 ==> r == Err::<u16, SeaError>(SeaError::EndOfFile) && final(reader)@
            == old(reader)@,
        old(reader)@.len() >= 2 ==> r == Ok::<u16, SeaError>(
            u16_from_le(old(reader)@[0], old(reader)@[1]),
        ) && final(reader)@ == old(reader)@.skip(2),
{
    let mut buf: Vec<u8> = Vec::new();
    buf.push(0);
    buf.push(0);
    match reader.read_exact(buf.as_mut_slice()) {
        Ok(()) => Ok((buf[0] as u16) + 256 * (buf[1] as u16)),
        Err(e) => Err(e),
    }
}

/// Reads a 32-bit number, least significant byte first.
pub fn read_u32_le(reader: &mut Cursor<'_>) -> (r: Result<u32, SeaError>)
    ensures
        old(reader)@.len() < 4 ==> r == Err::<u32, SeaError>(SeaError::EndOfFile) && final(reader)@
            == old(reader)@,
        old(reader)@.len() >= 4 ==> r == Ok::<u32, SeaError>(
            u32_from_le(old(reader)@[0], old(reader)@[1], old(reader)@[2], old(reader)@[3]),
        ) && final(reader)@ == old(reader)@.skip(4),
{
    let mut buf: Vec<u8> = Vec::new();
    buf.push(0);
    buf.push(0);
    buf.push(0);
    buf.push(0);
    match reader.read_exact(buf.as_mut_slice()) {
        Ok(()) => Ok(
            (buf[0] as u32) + 256 * (buf[1] as u32) + 65536 * (buf[2] as u32) + 16777216 * (
            buf[3] as u32),
        ),
        Err(e) => Err(e),
    }
}

/// Reads a 32-bit number, most significant byte first.
pub fn read_u32_be(reader: &mut Cursor<'_>) -> (r: Result<u32, SeaError>)
    ensures
        old(reader)@.len() < 4 ==> r == Err::<u32, SeaError>(SeaError::EndOfFile) && final(reader)@
            == old(reader)@,
        old(reader)@.len() >= 4 ==> r == Ok::<u32, SeaError>(
            u32_from_be(old(reader)@[0], old(reader)@[1], old(reader)@[2], old(reader)@[3]),
        ) && final(reader)@ == old(reader)@.skip(4),
{
    let mut buf: Vec<u8> = Vec::new();
    buf.push(0);
    buf.push(0);
    buf.push(0);
    buf.push(0);
    match reader.read_exact(buf.as_mut_slice()) {
        Ok(()) => Ok(
            (buf[3] as u32) + 256 * (buf[2] as u32) + 65536 * (buf[1] as u32) + 16777216 * (
            buf[0] as u32),
        ),
        Err(e) => Err(e),
    }
}

/// Reads `max` bytes, or as many as are left when they are fewer.
pub fn read_max_or_zero(reader: &mut Cursor<'_>, max: usize) -> (r: Result<Vec<u8>, SeaError>)
    ensures
        r is Ok,
        r->Ok_0@ == old(reader)@.take(
            if old(reader)@.len() < max {
                old(reader)@.len() as int
            } else {
                max as int
            },
        ),
        final(reader)@ == old(reader)@.skip(r->Ok_0@.len() as int),
{
    let left = reader.remaining();
    let n = if left < max {
        left
    } else {
        max
    };
    let mut buf: Vec<u8> = Vec::new();
    buf.resize(n, 0);
    match reader.read_exact(buf.as_mut_slice()) {
        Ok(()) => Ok(buf),
        Err(e) => Err(e),
    }
}

} // verus!
