use crate::codec::chunk::{
    chunk_of, lemma_chunk_of_wf, read_chunk, ChunkView, SeaChunk, SeaChunkType,
};
use crate::codec::common::{
    lemma_le_round_trip, push_u16_le, push_u32_be, push_u32_le, read_max_or_zero, read_u16_le,
    read_u32_be, read_u32_le, read_u8, u16_from_le, u16_le_bytes, u32_be_bytes, u32_from_be,
    u32_from_le, u32_le_bytes, SeaError, SEAC_MAGIC,
};
use crate::codec::dqt::SeaDequantTab;
use crate::codec::encoder_base::{chunk_input, lemma_input_grid, ChunkInput};
use crate::codec::encoder_cbr::{slices_of, uniform_widths, CbrEncoder};
use crate::codec::encoder_vbr::{vbr_widths, VbrEncoder};
use crate::codec::lms::SeaLMS;
use crate::codec::vbr_budget::{base_width, base_width_of, VbrTarget};
use crate::cursor::Cursor;
use crate::encoder::EncoderSettings;
use vstd::prelude::*;
use vstd::string::*;
use vstd::utf8::{decode_utf8, encode_utf8, valid_utf8};

verus! {

/// The number of bytes of a file header before its metadata.
pub const HEADER_FIXED_BYTES: usize = 22;

/// The preamble of a stream.
#[derive(Debug, Clone)]
pub struct SeaFileHeader {
    pub version: u8,
    pub channels: u8,
    /// The number of bytes of every chunk but, perhaps, the last.
    pub chunk_size: u16,
    pub frames_per_chunk: u16,
    pub sample_rate: u32,
    /// The number of frames of the stream, or 0 when it is not known.
    pub total_frames: u32,
    /// Free-form text. Where it begins by stating a scale, as in `s4f020`,
    /// that is the scale of the chunks of the stream.
    pub metadata: String,
}

/// A file header as a mathematical value.
pub ghost struct HeaderView {
    pub version: u8,
    pub channels: u8,
    pub chunk_size: u16,
    pub frames_per_chunk: u16,
    pub sample_rate: u32,
    pub total_frames: u32,
    pub metadata: Seq<char>,
}

impl View for SeaFileHeader {
    type V = HeaderView;

    open spec fn view(&self) -> HeaderView {
        HeaderView {
            version: self.version,
            channels: self.channels,
            chunk_size: self.chunk_size,
            frames_per_chunk: self.frames_per_chunk,
            sample_rate: self.sample_rate,
            total_frames: self.total_frames,
            metadata: self.metadata@,
        }
    }
}

/// The character of the digit `d`.
pub open spec fn digit_char(d: int) -> char {
    if d == 0 {
        '0'
    } else if d == 1 {
        '1'
    } else if d == 2 {
        '2'
    } else if d == 3 {
        '3'
    } else if d == 4 {
        '4'
    } else if d == 5 {
        '5'
    } else if d == 6 {
        '6'
    } else if d == 7 {
        '7'
    } else if d == 8 {
        '8'
    } else {
        '9'
    }
}

/// The digit that the character `c` is; none for another character.
pub open spec fn digit_of(c: char) -> int {
    if c == '0' {
        0
    } else if c == '1' {
        1
    } else if c == '2' {
        2
    } else if c == '3' {
        3
    } else if c == '4' {
        4
    } else if c == '5' {
        5
    } else if c == '6' {
        6
    } else if c == '7' {
        7
    } else if c == '8' {
        8
    } else if c == '9' {
        9
    } else {
        -1
    }
}

/// The number that the three characters of `m` from `at` on spell.
pub open spec fn three_digits(m: Seq<char>, at: int) -> int {
    100 * digit_of(m[at]) + 10 * digit_of(m[at + 1]) + digit_of(m[at + 2])
}

/// Whether the metadata `m` begins by stating the scale of the stream: the
/// letter `s` and the number of bits of a scale-factor index, 2 to 6, then
/// the letter `f` and, in three digits, the number of frames of a slice, 1
/// to 255; as in `s4f020`.
pub open spec fn states_scale(m: Seq<char>) -> bool {
    &&& m.len() >= 6
    &&& m[0] == 's'
    &&& 2 <= digit_of(m[1]) <= 6
    &&& m[2] == 'f'
    &&& digit_of(m[3]) >= 0
    &&& digit_of(m[4]) >= 0
    &&& digit_of(m[5]) >= 0
    &&& 1 <= three_digits(m, 3) <= 255
}

/// The text that states a scale of `bits` scale-factor bits and `frames`
/// frames to a slice.
pub open spec fn scale_text(bits: int, frames: int) -> Seq<char> {
    seq![
        's',
        digit_char(bits),
        'f',
        digit_char(frames / 100),
        digit_char((frames / 10) % 10),
        digit_char(frames % 10),
    ]
}

/// The metadata that an encoder writes: nothing for the scale that a
/// stream has where none is stated, 4 scale-factor bits and 20 frames to a
/// slice, and otherwise the text that states the scale.
pub open spec fn header_text(bits: int, frames: int) -> Seq<char> {
    if bits == 4 && frames == 20 {
        Seq::<char>::empty()
    } else {
        scale_text(bits, frames)
    }
}

/// The number of scale-factor bits of a stream with the metadata `m`: what
/// the metadata states, and 4 where it states no scale.
pub open spec fn scale_bits_of(m: Seq<char>) -> int {
    if states_scale(m) {
        digit_of(m[1])
    } else {
        4
    }
}

/// The number of frames of a slice of a stream with the metadata `m`: what
/// the metadata states, and 20 where it states no scale.
pub open spec fn slice_frames_of(m: Seq<char>) -> int {
    if states_scale(m) {
        three_digits(m, 3)
    } else {
        20
    }
}

/// The metadata that an encoder writes states the scale it was written
/// for, and takes six bytes at most.
pub proof fn lemma_header_text(bits: int, frames: int)
    requires
        2 <= bits <= 6,
        1 <= frames <= 255,
    ensures
        scale_bits_of(header_text(bits, frames)) == bits,
        slice_frames_of(header_text(bits, frames)) == frames,
        2 <= scale_bits_of(header_text(bits, frames)) <= 6,
        encode_utf8(header_text(bits, frames)).len() == header_text(bits, frames).len(),
        header_text(bits, frames).len() <= 6,
{
    let m = header_text(bits, frames);
    assert(vstd::utf8::is_ascii_chars(m));
    vstd::utf8::is_ascii_chars_encode_utf8(m);
}

/// Whatever the metadata is, the scale of the stream is one that the
/// codec supports.
pub proof fn lemma_scale_of(m: Seq<char>)
    ensures
        2 <= scale_bits_of(m) <= 6,
        1 <= slice_frames_of(m) <= 255,
{
}

/// The text of one digit.
fn digit_str(d: u8) -> (s: &'static str)
    requires
        d <= 9,
    ensures
        s@ == seq![digit_char(d as int)],
{
    proof {
        reveal_strlit("0");
        reveal_strlit("1");
        reveal_strlit("2");
        reveal_strlit("3");
        reveal_strlit("4");
        reveal_strlit("5");
        reveal_strlit("6");
        reveal_strlit("7");
        reveal_strlit("8");
        reveal_strlit("9");
    }
    let s = if d == 0 {
        "0"
    } else if d == 1 {
        "1"
    } else if d == 2 {
        "2"
    } else if d == 3 {
        "3"
    } else if d == 4 {
        "4"
    } else if d == 5 {
        "5"
    } else if d == 6 {
        "6"
    } else if d == 7 {
        "7"
    } else if d == 8 {
        "8"
    } else {
        "9"
    };
    assert(s@ =~= seq![digit_char(d as int)]);
    s
}

/// The digit that a character is.
fn digit_value(c: char) -> (d: Option<u8>)
    ensures
        d is Some <==> digit_of(c) >= 0,
        d is Some ==> d->0 == digit_of(c),
{
    if c == '0' {
        Some(0)
    } else if c == '1' {
        Some(1)
    } else if c == '2' {
        Some(2)
    } else if c == '3' {
        Some(3)
    } else if c == '4' {
        Some(4)
    } else if c == '5' {
        Some(5)
    } else if c == '6' {
        Some(6)
    } else if c == '7' {
        Some(7)
    } else if c == '8' {
        Some(8)
    } else if c == '9' {
        Some(9)
    } else {
        None
    }
}

/// The metadata that an encoder writes for a scale of `bits` scale-factor
/// bits and `frames` frames to a slice.
pub fn scale_metadata(bits: u8, frames: u8) -> (text: String)
    requires
        2 <= bits <= 6,
        1 <= frames,
    ensures
        text@ == header_text(bits as int, frames as int),
{
    if bits == 4 && frames == 20 {
        return String::new();
    }
    proof {
        reveal_strlit("s");
        reveal_strlit("f");
    }
    let mut text = String::from_str("s");
    text.append(digit_str(bits));
    text.append("f");
    text.append(digit_str(frames / 100));
    text.append(digit_str((frames / 10) % 10));
    text.append(digit_str(frames % 10));
    assert(text@ =~= scale_text(bits as int, frames as int));
    text
}

impl HeaderView {
    /// The number of bits of a scale-factor index of the stream.
    pub open spec fn scale_bits(&self) -> int {
        scale_bits_of(self.metadata)
    }

    /// The number of frames of a slice of the stream.
    pub open spec fn slice_frames(&self) -> int {
        slice_frames_of(self.metadata)
    }

    /// The header describes a stream that can be decoded.
    pub open spec fn valid(&self) -> bool {
        self.channels > 0 && self.chunk_size >= 16 && self.frames_per_chunk > 0 && self.sample_rate
            > 0
    }

    /// The bytes of the header: the magic word, the fixed fields, the
    /// number of bytes of the metadata, and the metadata as UTF-8.
    #[verifier::opaque]
    pub open spec fn bytes(&self) -> Seq<u8> {
        u32_be_bytes(SEAC_MAGIC) + seq![self.version, self.channels] + u16_le_bytes(self.chunk_size)
            + u16_le_bytes(self.frames_per_chunk) + u32_le_bytes(self.sample_rate) + u32_le_bytes(
            self.total_frames,
        ) + u32_le_bytes(encode_utf8(self.metadata).len() as u32) + encode_utf8(self.metadata)
    }
}

/// The number of bytes of metadata that the fixed part of a header of at
/// least 22 bytes announces.
pub open spec fn announced_metadata_len(b: Seq<u8>) -> int {
    u32_from_le(b[18], b[19], b[20], b[21]) as int
}

/// The header that the bytes `b` begin with, or the reason why they begin
/// with none.
#[verifier::opaque]
pub open spec fn parse_header(b: Seq<u8>) -> Result<HeaderView, SeaError> {
    if b.len() < 4 {
        Err(SeaError::EndOfFile)
    } else if u32_from_be(b[0], b[1], b[2], b[3]) != SEAC_MAGIC {
        Err(SeaError::InvalidFile)
    } else if b.len() < 22 + announced_metadata_len(b) {
        Err(SeaError::EndOfFile)
    } else if !valid_utf8(b.subrange(22, 22 + announced_metadata_len(b))) {
        Err(SeaError::InvalidFile)
    } else {
        let h = HeaderView {
            version: b[4],
            channels: b[5],
            chunk_size: u16_from_le(b[6], b[7]),
            frames_per_chunk: u16_from_le(b[8], b[9]),
            sample_rate: u32_from_le(b[10], b[11], b[12], b[13]),
            total_frames: u32_from_le(b[14], b[15], b[16], b[17]),
            metadata: decode_utf8(b.subrange(22, 22 + announced_metadata_len(b))),
        };
        if h.valid() {
            Ok(h)
        } else {
            Err(SeaError::InvalidFile)
        }
    }
}

/// How many bytes of `b` are read before the header is found to be
/// missing or invalid: the fields that are whole, one after the other, and
/// of the metadata all or nothing.
pub open spec fn failed_header_len(b: Seq<u8>) -> int {
    if b.len() < 4 {
        0
    } else if u32_from_be(b[0], b[1], b[2], b[3]) != SEAC_MAGIC || b.len() < 5 {
        4
    } else if b.len() < 6 {
        5
    } else if b.len() < 8 {
        6
    } else if b.len() < 10 {
        8
    } else if b.len() < 14 {
        10
    } else if b.len() < 18 {
        14
    } else if b.len() < 22 {
        18
    } else if b.len() < 22 + announced_metadata_len(b) {
        22
    } else {
        22 + announced_metadata_len(b)
    }
}

/// The number of bytes of the header that the bytes `b` begin with.
pub open spec fn header_len(b: Seq<u8>) -> int {
    22 + announced_metadata_len(b)
}

/// Turns bytes into text.
///
/// Calls `String::from_utf8` of the standard library. The contract claims
/// what its documentation says: the call succeeds exactly when the bytes are
/// valid UTF-8, and the text is then the one that the bytes encode.
#[verifier::external_body]
fn string_from_utf8(bytes: Vec<u8>) -> (r: Option<String>)
    ensures
        r is Some <==> valid_utf8(bytes@),
        r is Some ==> r->0@ == decode_utf8(bytes@),
{
    String::from_utf8(bytes).ok()
}

impl SeaFileHeader {
    /// Whether the header describes a stream that can be decoded.
    pub fn validate(&self) -> (b: bool)
        ensures
            b == self@.valid(),
    {
        self.channels > 0 && self.chunk_size >= 16 && self.frames_per_chunk > 0 && self.sample_rate
            > 0
    }

    /// The number of bytes of metadata that the first 22 bytes of a stream
    /// announce.
    ///
    /// Fails with `EndOfFile` when `fixed` holds fewer than 22 bytes, and
    /// with `InvalidFile` when it begins with another magic word.
    pub fn metadata_len(fixed: &[u8]) -> (r: Result<u32, SeaError>)
        ensures
            r == if fixed@.len() < 4 {
                Err::<u32, SeaError>(SeaError::EndOfFile)
            } else if u32_from_be(fixed@[0], fixed@[1], fixed@[2], fixed@[3]) != SEAC_MAGIC {
                Err(SeaError::InvalidFile)
            } else if fixed@.len() < 22 {
                Err(SeaError::EndOfFile)
            } else {
                Ok(announced_metadata_len(fixed@) as u32)
            },
    {
        let mut reader = Cursor::from_slice(fixed);
        let magic = match read_u32_be(&mut reader) {
            Ok(v) => v,
            Err(e) => { return Err(e); },
        };
        if magic != SEAC_MAGIC {
            return Err(SeaError::InvalidFile);
        }
        if fixed.len() < HEADER_FIXED_BYTES {
            return Err(SeaError::EndOfFile);
        }
        Ok(
            (fixed[18] as u32) + 256 * (fixed[19] as u32) + 65536 * (fixed[20] as u32) + 16777216
                * (fixed[21] as u32),
        )
    }

    /// The scale of the stream: the number of bits of a scale-factor index
    /// and the number of frames of a slice that the metadata states, or 4
    /// and 20 where it states none.
    pub fn scale(&self) -> (r: (u8, u8))
        ensures
            r.0 == self@.scale_bits(),
            r.1 == self@.slice_frames(),
            2 <= r.0 <= 6,
            1 <= r.1,
    {
        let text = self.metadata.as_str();
        if text.unicode_len() < 6 {
            return (4, 20);
        }
        if text.get_char(0) != 's' || text.get_char(2) != 'f' {
            return (4, 20);
        }
        let bits = match digit_value(text.get_char(1)) {
            Some(d) => d,
            None => { return (4, 20); },
        };
        let hundreds = match digit_value(text.get_char(3)) {
            Some(d) => d,
            None => { return (4, 20); },
        };
        let tens = match digit_value(text.get_char(4)) {
            Some(d) => d,
            None => { return (4, 20); },
        };
        let ones = match digit_value(text.get_char(5)) {
            Some(d) => d,
            None => { return (4, 20); },
        };
        let frames: u16 = 100 * (hundreds as u16) + 10 * (tens as u16) + ones as u16;
        if bits < 2 || bits > 6 || frames < 1 || frames > 255 {
            return (4, 20);
        }
        (bits, frames as u8)
    }

    /// A copy of the header.
    pub fn duplicate(&self) -> (h: Self)
        ensures
            h@ == self@,
    {
        SeaFileHeader {
            version: self.version,
            channels: self.channels,
            chunk_size: self.chunk_size,
            frames_per_chunk: self.frames_per_chunk,
            sample_rate: self.sample_rate,
            total_frames: self.total_frames,
            metadata: self.metadata.clone(),
        }
    }

    /// Reads a header from the start of a stream.
    ///
    /// Fails with `EndOfFile` when the stream ends inside the header, and
    /// with `InvalidFile` when the magic word is another, the metadata is no
    /// UTF-8, or a count that must not be zero is zero. The reader then
    /// stands behind the last field that was read whole.
    #[verifier::rlimit(40)]
    pub fn from_reader(reader: &mut Cursor<'_>) -> (r: Result<Self, SeaError>)
        ensures
            match r {
                Ok(h) => parse_header(old(reader)@) == Ok::<HeaderView, SeaError>(h@)
                    && final(reader)@ == old(reader)@.skip(header_len(old(reader)@))
                    && h@.valid(),
                Err(e) => parse_header(old(reader)@) == Err::<HeaderView, SeaError>(e)
                    && final(reader)@ == old(reader)@.skip(failed_header_len(old(reader)@)),
            },
    {
        let ghost b = reader@;
        assert(b.skip(0) =~= b);
        reveal(parse_header);
        let magic = match read_u32_be(reader) {
            Ok(v) => v,
            Err(e) => { return Err(e); },
        };
        if magic != SEAC_MAGIC {
            return Err(SeaError::InvalidFile);
        }
        assert(reader@ == b.skip(4));
        let version = match read_u8(reader) {
            Ok(v) => v,
            Err(e) => { return Err(e); },
        };
        assert(reader@ =~= b.skip(5));
        let channels = match read_u8(reader) {
            Ok(v) => v,
            Err(e) => { return Err(e); },
        };
        assert(reader@ =~= b.skip(6));
        let chunk_size = match read_u16_le(reader) {
            Ok(v) => v,
            Err(e) => { return Err(e); },
        };
        assert(reader@ =~= b.skip(8));
        let frames_per_chunk = match read_u16_le(reader) {
            Ok(v) => v,
            Err(e) => { return Err(e); },
        };
        assert(reader@ =~= b.skip(10));
        let sample_rate = match read_u32_le(reader) {
            Ok(v) => v,
            Err(e) => { return Err(e); },
        };
        assert(reader@ =~= b.skip(14));
        let total_frames = match read_u32_le(reader) {
            Ok(v) => v,
            Err(e) => { return Err(e); },
        };
        assert(reader@ =~= b.skip(18));
        let metadata_size = match read_u32_le(reader) {
            Ok(v) => v,
            Err(e) => { return Err(e); },
        };
        assert(reader@ =~= b.skip(22));
        assert(metadata_size == announced_metadata_len(b));
        if reader.remaining() < metadata_size as usize {
            return Err(SeaError::EndOfFile);
        }
        let mut metadata: Vec<u8> = Vec::new();
        metadata.resize(metadata_size as usize, 0);
        match reader.read_exact(metadata.as_mut_slice()) {
            Ok(()) => {},
            Err(e) => { return Err(e); },
        }
        assert(metadata@ =~= b.subrange(22, 22 + metadata_size));
        assert(reader@ =~= b.skip(22 + metadata_size));
        let metadata_string = match string_from_utf8(metadata) {
            Some(s) => s,
            None => { return Err(SeaError::InvalidFile); },
        };
        let res = SeaFileHeader {
            version,
            channels,
            chunk_size,
            frames_per_chunk,
            sample_rate,
            total_frames,
            metadata: metadata_string,
        };
        if !res.validate() {
            return Err(SeaError::InvalidFile);
        }
        Ok(res)
    }

    /// The bytes of the header.
    pub fn serialize(&self) -> (output: Vec<u8>)
        requires
            encode_utf8(self@.metadata).len() <= u32::MAX,
        ensures
            output@ == self@.bytes(),
    {
        let mut output: Vec<u8> = Vec::new();
        push_u32_be(&mut output, SEAC_MAGIC);
        output.push(self.version);
        output.push(self.channels);
        push_u16_le(&mut output, self.chunk_size);
        push_u16_le(&mut output, self.frames_per_chunk);
        push_u32_le(&mut output, self.sample_rate);
        push_u32_le(&mut output, self.total_frames);
        let text = self.metadata.as_str().as_bytes();
        let metadata_len_u32 = text.len() as u32;
        push_u32_le(&mut output, metadata_len_u32);
        output.extend_from_slice(text);
        reveal(HeaderView::bytes);
        assert(output@ =~= self@.bytes());
        output
    }
}

/// A stream of at least four bytes that begins with another magic word is
/// refused as an invalid file.
pub proof fn lemma_wrong_magic(b: Seq<u8>)
    requires
        b.len() >= 4,
        u32_from_be(b[0], b[1], b[2], b[3]) != SEAC_MAGIC,
    ensures
        parse_header(b) == Err::<HeaderView, SeaError>(SeaError::InvalidFile),
{
    reveal(parse_header);
}

/// The 22 bytes of a header before its metadata.
pub open spec fn fixed_bytes(h: HeaderView) -> Seq<u8> {
    let n = encode_utf8(h.metadata).len() as u32;
    seq![
        u32_be_bytes(SEAC_MAGIC)[0],
        u32_be_bytes(SEAC_MAGIC)[1],
        u32_be_bytes(SEAC_MAGIC)[2],
        u32_be_bytes(SEAC_MAGIC)[3],
        h.version,
        h.channels,
        u16_le_bytes(h.chunk_size)[0],
        u16_le_bytes(h.chunk_size)[1],
        u16_le_bytes(h.frames_per_chunk)[0],
        u16_le_bytes(h.frames_per_chunk)[1],
        u32_le_bytes(h.sample_rate)[0],
        u32_le_bytes(h.sample_rate)[1],
        u32_le_bytes(h.sample_rate)[2],
        u32_le_bytes(h.sample_rate)[3],
        u32_le_bytes(h.total_frames)[0],
        u32_le_bytes(h.total_frames)[1],
        u32_le_bytes(h.total_frames)[2],
        u32_le_bytes(h.total_frames)[3],
        u32_le_bytes(n)[0],
        u32_le_bytes(n)[1],
        u32_le_bytes(n)[2],
        u32_le_bytes(n)[3],
    ]
}

/// The bytes of a header are its 22 fixed bytes and its metadata.
pub proof fn lemma_header_bytes(h: HeaderView)
    ensures
        h.bytes() == fixed_bytes(h) + encode_utf8(h.metadata),
        fixed_bytes(h).len() == 22,
{
    reveal(HeaderView::bytes);
    assert(h.bytes() =~= fixed_bytes(h) + encode_utf8(h.metadata));
}

/// A stream that begins with the bytes of a header that can be decoded
/// begins with that header.
#[verifier::rlimit(40)]
pub proof fn lemma_header_round_trip(h: HeaderView, rest: Seq<u8>)
    requires
        h.valid(),
        encode_utf8(h.metadata).len() <= u32::MAX,
    ensures
        parse_header(h.bytes() + rest) == Ok::<HeaderView, SeaError>(h),
        header_len(h.bytes() + rest) == h.bytes().len(),
{
    reveal(parse_header);
    lemma_header_bytes(h);
    let fixed = fixed_bytes(h);
    let text = encode_utf8(h.metadata);
    let b = fixed + text + rest;
    assert(b =~= h.bytes() + rest);
    let n = text.len() as u32;
    assert(b.subrange(22, 22 + text.len() as int) =~= text);
    assert(fixed.len() == 22);
    assert(b.take(22) =~= fixed);
    lemma_header_fields(h, b);
    vstd::utf8::encode_utf8_valid_utf8(h.metadata);
    vstd::utf8::encode_utf8_decode_utf8(h.metadata);
}

/// The fields read from the 22 fixed bytes of a header are its fields.
#[verifier::rlimit(40)]
proof fn lemma_header_fields(h: HeaderView, b: Seq<u8>)
    requires
        b.len() >= 22,
        b.take(22) == fixed_bytes(h),
        encode_utf8(h.metadata).len() <= u32::MAX,
    ensures
        u32_from_be(b[0], b[1], b[2], b[3]) == SEAC_MAGIC,
        b[4] == h.version,
        b[5] == h.channels,
        u16_from_le(b[6], b[7]) == h.chunk_size,
        u16_from_le(b[8], b[9]) == h.frames_per_chunk,
        u32_from_le(b[10], b[11], b[12], b[13]) == h.sample_rate,
        u32_from_le(b[14], b[15], b[16], b[17]) == h.total_frames,
        announced_metadata_len(b) == encode_utf8(h.metadata).len(),
{
    let f = fixed_bytes(h);
    let n = encode_utf8(h.metadata).len() as u32;
    assert forall|i: int| 0 <= i < 22 implies b[i] == f[i] by {
        assert(b.take(22)[i] == b[i]);
    }
    lemma_le_round_trip(h.chunk_size, SEAC_MAGIC, 0);
    lemma_le_round_trip(h.frames_per_chunk, h.sample_rate, 0);
    lemma_le_round_trip(0, h.total_frames, 0);
    lemma_le_round_trip(0, n, 0);
    assert(b[0] == f[0] && b[1] == f[1] && b[2] == f[2] && b[3] == f[3]);
    assert(b[4] == f[4] && b[5] == f[5] && b[6] == f[6] && b[7] == f[7]);
    assert(b[8] == f[8] && b[9] == f[9] && b[10] == f[10] && b[11] == f[11]);
    assert(b[12] == f[12] && b[13] == f[13] && b[14] == f[14] && b[15] == f[15]);
    assert(b[16] == f[16] && b[17] == f[17] && b[18] == f[18] && b[19] == f[19]);
    assert(b[20] == f[20] && b[21] == f[21]);
}

/// A stream in the making or in the reading: its header, the tables, and,
/// for a stream in the making, the settings and the encoders.
pub struct SeaFile {
    pub header: SeaFileHeader,
    pub dequant_tab: SeaDequantTab,
    pub cbr_encoder: Option<CbrEncoder>,
    pub vbr_encoder: Option<VbrEncoder>,
    pub encoder_settings: Option<EncoderSettings>,
}

impl SeaFile {
    /// The settings of a stream in the making.
    pub open spec fn settings(&self) -> EncoderSettings {
        self.encoder_settings->0
    }

    /// The stream is one in the making: it has supported settings, a header
    /// that states their scale, tables for them, and an encoder of each
    /// kind for its channels.
    pub open spec fn wf_encoder(&self) -> bool {
        &&& self.encoder_settings is Some
        &&& self.settings().wf()
        &&& self.header.channels >= 1
        &&& encode_utf8(self.header@.metadata).len() <= u32::MAX
        &&& self.header@.scale_bits() == self.settings().scale_factor_bits
        &&& self.header@.slice_frames() == self.settings().scale_factor_frames
        &&& self.dequant_tab.wf()
        &&& self.dequant_tab.scale_bits() == self.settings().scale_factor_bits
        &&& self.cbr_encoder is Some
        &&& self.cbr_encoder->0.wf()
        &&& self.cbr_encoder->0.channels == self.header.channels
        &&& self.cbr_encoder->0.residual_size == self.settings().cbr_width()
        &&& self.cbr_encoder->0.scale_factor_frames == self.settings().scale_factor_frames
        &&& self.vbr_encoder is Some
        &&& self.vbr_encoder->0.base_encoder.wf()
        &&& self.vbr_encoder->0.base_encoder.channels == self.vbr_encoder->0.channels
        &&& self.vbr_encoder->0.channels == self.header.channels
        &&& self.vbr_encoder->0.scale_factor_frames == self.settings().scale_factor_frames
        &&& self.settings().vbr ==> {
            &&& self.vbr_encoder->0.wf()
            &&& self.vbr_encoder->0.target().num == self.settings().target_num()
            &&& self.vbr_encoder->0.target().den == self.settings().target_den()
        }
    }

    /// The stream is one in the reading: its header can be decoded.
    pub open spec fn wf_decoder(&self) -> bool {
        &&& self.header@.valid()
        &&& self.dequant_tab.wf()
    }

    /// The predictors of the encoder that is in use.
    pub open spec fn lms(&self) -> Seq<SeaLMS> {
        if self.settings().vbr {
            self.vbr_encoder->0.base_encoder.lms@
        } else {
            self.cbr_encoder->0.base_encoder.lms@
        }
    }

    /// What the next chunk is encoded from.
    pub open spec fn input(&self, samples: Seq<i16>) -> ChunkInput {
        encoder_input(self.settings(), self.lms(), samples)
    }

    /// The chunk that the samples are encoded to.
    pub open spec fn chunk(&self, samples: Seq<i16>) -> ChunkView {
        encoder_chunk(self.settings(), self.lms(), samples)
    }

    /// The size of chunk that the header states once the chunk of `samples`
    /// is made.
    pub open spec fn patched_size(&self, samples: Seq<i16>) -> int {
        patched_size(self.settings(), self.header@, self.lms(), samples)
    }

    /// Why no chunk is made of `samples`, if none is.
    pub open spec fn refusal(&self, samples: Seq<i16>) -> Option<SeaError> {
        refusal(self.settings(), self.header@, self.lms(), samples)
    }

    /// A stream in the making, with the header and the settings given.
    ///
    /// Fails with `InvalidSettings` when the settings are not supported,
    /// the header states no channel, or the scale of the header is not the
    /// scale of the settings.
    pub fn new(header: SeaFileHeader, encoder_settings: &EncoderSettings) -> (r: Result<
        Self,
        SeaError,
    >)
        requires
            encode_utf8(header@.metadata).len() <= u32::MAX,
        ensures
            r is Ok <==> encoder_settings.wf() && header.channels >= 1 && header@.scale_bits()
                == encoder_settings.scale_factor_bits && header@.slice_frames()
                == encoder_settings.scale_factor_frames,
            r is Err ==> r->Err_0 == SeaError::InvalidSettings,
            r is Ok ==> {
                &&& r->Ok_0.wf_encoder()
                &&& r->Ok_0.header@ == header@
                &&& r->Ok_0.settings() == *encoder_settings
                &&& r->Ok_0.lms() == Seq::new(
                    header.channels as nat,
                    |i: int| SeaLMS::new_spec(),
                )
            },
    {
        if !encoder_settings.is_valid() || header.channels == 0 {
            return Err(SeaError::InvalidSettings);
        }
        let scale = header.scale();
        if scale.0 != encoder_settings.scale_factor_bits || scale.1
            != encoder_settings.scale_factor_frames {
            return Err(SeaError::InvalidSettings);
        }
        let cbr_encoder = CbrEncoder::new(&header, encoder_settings);
        let vbr_encoder = VbrEncoder::new(&header, encoder_settings);
        Ok(
            SeaFile {
                header,
                cbr_encoder: Some(cbr_encoder),
                vbr_encoder: Some(vbr_encoder),
                encoder_settings: Some(*encoder_settings),
                dequant_tab: SeaDequantTab::init(encoder_settings.scale_factor_bits),
            },
        )
    }

    /// A stream in the reading: reads its header.
    #[verifier::rlimit(40)]
    pub fn from_reader(reader: &mut Cursor<'_>) -> (r: Result<Self, SeaError>)
        ensures
            match r {
                Ok(f) => parse_header(old(reader)@) == Ok::<HeaderView, SeaError>(f.header@)
                    && final(reader)@ == old(reader)@.skip(header_len(old(reader)@))
                    && f.wf_decoder() && f.encoder_settings is None,
                Err(e) => parse_header(old(reader)@) == Err::<HeaderView, SeaError>(e)
                    && final(reader)@ == old(reader)@.skip(failed_header_len(old(reader)@)),
            },
    {
        let header = match SeaFileHeader::from_reader(reader) {
            Ok(h) => h,
            Err(e) => { return Err(e); },
        };
        Ok(
            SeaFile {
                header,
                cbr_encoder: None,
                vbr_encoder: None,
                encoder_settings: None,
                dequant_tab: SeaDequantTab::init(0),
            },
        )
    }

    /// Puts the predictors of the encoder that is in use back to `lms`.
    fn restore_lms(&mut self, lms: Vec<SeaLMS>)
        requires
            old(self).wf_encoder(),
            lms@.len() == old(self).header.channels,
            crate::codec::lms::all_wf(lms@),
        ensures
            final(self).wf_encoder(),
            final(self).encoder_settings == old(self).encoder_settings,
            final(self).header == old(self).header,
            final(self).lms() == lms@,
    {
        let vbr = match self.encoder_settings {
            Some(s) => s.vbr,
            None => false,
        };
        if vbr {
            match &mut self.vbr_encoder {
                Some(e) => {
                    e.base_encoder.lms = lms;
                },
                None => {},
            }
        } else {
            match &mut self.cbr_encoder {
                Some(e) => {
                    e.base_encoder.lms = lms;
                },
                None => {},
            }
        }
    }

    /// Encodes the samples of one chunk and returns the bytes of the chunk.
    /// The first chunk fixes the size of chunk that the header states.
    ///
    /// Fails, as `refusal` says, when the samples are no whole frames or
    /// too many, or when the size of the chunk does not go with the size of
    /// chunk of the stream; the stream is then as it was.
    #[verifier::rlimit(40)]
    pub fn make_chunk(&mut self, samples: &[i16]) -> (r: Result<Vec<u8>, SeaError>)
        requires
            old(self).wf_encoder(),
        ensures
            final(self).wf_encoder(),
            final(self).encoder_settings == old(self).encoder_settings,
            final(self).header.version == old(self).header.version,
            final(self).header.channels == old(self).header.channels,
            final(self).header.frames_per_chunk == old(self).header.frames_per_chunk,
            final(self).header.sample_rate == old(self).header.sample_rate,
            final(self).header.total_frames == old(self).header.total_frames,
            final(self).header.metadata@ == old(self).header.metadata@,
            r is Ok <==> old(self).refusal(samples@) is None,
            r is Err ==> old(self).refusal(samples@) == Some(r->Err_0),
            r is Ok ==> {
                &&& r->Ok_0@ == old(self).chunk(samples@).bytes()
                &&& old(self).chunk(samples@).wf()
                &&& final(self).lms() == old(self).input(samples@).lms_after()
                &&& final(self).header.chunk_size == old(self).patched_size(samples@)
            },
            r is Err ==> final(self).header.chunk_size == old(self).header.chunk_size,
            r is Err ==> final(self).lms() == old(self).lms(),
    {
        let channels = self.header.channels as usize;
        if samples.len() % channels != 0 {
            return Err(SeaError::EndOfFile);
        }
        if samples.len() / channels > self.header.frames_per_chunk as usize {
            return Err(SeaError::InvalidSettings);
        }
        let settings = match self.encoder_settings {
            Some(s) => s,
            None => { return Err(SeaError::InvalidSettings); },
        };
        let ghost inp = self.input(samples@);
        let ghost view = self.chunk(samples@);
        let initial_lms: Vec<SeaLMS> = if settings.vbr {
            match &self.vbr_encoder {
                Some(e) => e.base_encoder.lms.clone(),
                None => Vec::new(),
            }
        } else {
            match &self.cbr_encoder {
                Some(e) => e.base_encoder.lms.clone(),
                None => Vec::new(),
            }
        };
        assert(initial_lms@ =~= self.lms());
        let chunk = if settings.vbr {
            match &mut self.vbr_encoder {
                Some(vbr_encoder) => {
                    let target = match vbr_encoder.vbr_target_bitrate {
                        Some(t) => t,
                        None => { return Err(SeaError::InvalidSettings); },
                    };
                    assert(target == target_of(settings));
                    let base = base_width_of(target);
                    let encoded = vbr_encoder.encode(samples, &self.dequant_tab);
                    SeaChunk::new(
                        &self.header,
                        &initial_lms,
                        SeaChunkType::Vbr,
                        settings.scale_factor_bits,
                        settings.scale_factor_frames,
                        base,
                        encoded.scale_factors,
                        encoded.residual_bits,
                        encoded.residuals,
                    )
                },
                None => { return Err(SeaError::InvalidSettings); },
            }
        } else {
            match &mut self.cbr_encoder {
                Some(cbr_encoder) => {
                    let base = cbr_encoder.residual_size;
                    let encoded = cbr_encoder.encode(samples, &self.dequant_tab);
                    SeaChunk::new(
                        &self.header,
                        &initial_lms,
                        SeaChunkType::Cbr,
                        settings.scale_factor_bits,
                        settings.scale_factor_frames,
                        base,
                        encoded.scale_factors,
                        encoded.residual_bits,
                        encoded.residuals,
                    )
                },
                None => { return Err(SeaError::InvalidSettings); },
            }
        };
        proof {
            lemma_input_grid(inp);
            assert(inp.wf());
            assert(inp.residuals().len() == samples@.len());
            assert(chunk@.widths =~= view.widths);
            assert(chunk@ == view);
            lemma_chunk_of_wf(inp, settings.vbr, base_size(settings));
        }
        let output = chunk.serialize();
        let patched: usize = if self.header.chunk_size == 0 {
            output.len()
        } else {
            self.header.chunk_size as usize
        };
        assert(self.header.frames_per_chunk * self.header.channels <= 65535 * 255)
            by (nonlinear_arith)
            requires
                self.header.frames_per_chunk <= 65535,
                self.header.channels <= 255,
        ;
        let full_samples_len = self.header.frames_per_chunk as usize
            * self.header.channels as usize;
        let fits = output.len() <= 65535 && if samples.len() == full_samples_len {
            output.len() == patched
        } else {
            output.len() <= patched
        };
        if !fits {
            self.restore_lms(initial_lms);
            return Err(SeaError::InvalidSettings);
        }
        self.header.chunk_size = patched as u16;
        Ok(output)
    }

    /// Reads the bytes of the next chunk, as many as the header states or
    /// as are left, and the chunk from them; nothing at the end of the
    /// stream.
    #[verifier::rlimit(40)]
    pub fn chunk_from_reader(
        &mut self,
        reader: &mut Cursor<'_>,
        remaining_frames: Option<usize>,
    ) -> (r: Result<Option<SeaChunk>, SeaError>)
        requires
            old(self).wf_decoder(),
        ensures
            final(self).wf_decoder(),
            final(self).header@ == old(self).header@,
            final(reader)@ == old(reader)@.skip(
                next_chunk_len(old(reader)@, old(self).header.chunk_size as int),
            ),
            match r {
                Ok(None) => old(reader)@.len() == 0,
                Ok(Some(c)) => old(reader)@.len() > 0 && c@.wf() && read_chunk(
                    old(reader)@.take(
                        next_chunk_len(old(reader)@, old(self).header.chunk_size as int),
                    ),
                    old(self).header.channels as int,
                    old(self).header.frames_per_chunk as int,
                    remaining_frames,
                    old(self).header@.scale_bits(),
                    old(self).header@.slice_frames(),
                ) == Ok::<ChunkView, SeaError>(c@),
                Err(e) => old(reader)@.len() > 0 && read_chunk(
                    old(reader)@.take(
                        next_chunk_len(old(reader)@, old(self).header.chunk_size as int),
                    ),
                    old(self).header.channels as int,
                    old(self).header.frames_per_chunk as int,
                    remaining_frames,
                    old(self).header@.scale_bits(),
                    old(self).header@.slice_frames(),
                ) == Err::<ChunkView, SeaError>(e),
            },
    {
        let encoded = match read_max_or_zero(reader, self.header.chunk_size as usize) {
            Ok(v) => v,
            Err(e) => { return Err(e); },
        };
        if encoded.len() == 0 {
            return Ok(None);
        }
        match SeaChunk::from_slice(encoded.as_slice(), &self.header, remaining_frames) {
            Ok(chunk) => Ok(Some(chunk)),
            Err(err) => Err(err),
        }
    }

    /// Reads the next chunk and decodes it; nothing at the end of the
    /// stream.
    #[verifier::rlimit(40)]
    pub fn samples_from_reader(
        &mut self,
        reader: &mut Cursor<'_>,
        remaining_frames: Option<usize>,
    ) -> (r: Result<Option<Vec<i16>>, SeaError>)
        requires
            old(self).wf_decoder(),
        ensures
            final(self).wf_decoder(),
            final(self).header@ == old(self).header@,
            final(reader)@ == old(reader)@.skip(
                next_chunk_len(old(reader)@, old(self).header.chunk_size as int),
            ),
            match r {
                Ok(None) => old(reader)@.len() == 0,
                Ok(Some(samples)) => old(reader)@.len() > 0 && match read_chunk(
                    old(reader)@.take(
                        next_chunk_len(old(reader)@, old(self).header.chunk_size as int),
                    ),
                    old(self).header.channels as int,
                    old(self).header.frames_per_chunk as int,
                    remaining_frames,
                    old(self).header@.scale_bits(),
                    old(self).header@.slice_frames(),
                ) {
                    Ok(c) => samples@ == c.samples(),
                    Err(_) => false,
                },
                Err(e) => old(reader)@.len() > 0 && read_chunk(
                    old(reader)@.take(
                        next_chunk_len(old(reader)@, old(self).header.chunk_size as int),
                    ),
                    old(self).header.channels as int,
                    old(self).header.frames_per_chunk as int,
                    remaining_frames,
                    old(self).header@.scale_bits(),
                    old(self).header@.slice_frames(),
                ) == Err::<ChunkView, SeaError>(e),
            },
    {
        let chunk = match self.chunk_from_reader(reader, remaining_frames) {
            Ok(Some(c)) => c,
            Ok(None) => { return Ok(None); },
            Err(e) => { return Err(e); },
        };
        if self.dequant_tab.scale_factor_bits() != chunk.scale_factor_bits {
            self.dequant_tab = SeaDequantTab::init(chunk.scale_factor_bits);
        }
        let decoded = chunk.decode(&self.dequant_tab);
        Ok(Some(decoded.0))
    }
}

/// The mean residual width that the settings aim at with a variable
/// bitrate.
pub open spec fn target_of(settings: EncoderSettings) -> VbrTarget {
    VbrTarget { num: settings.target_num() as u64, den: settings.target_den() as u64 }
}

/// The base residual width of the chunks that are made with `settings`:
/// the whole bits of the residual width at a constant bitrate, the base
/// width of the target at a variable one.
pub open spec fn base_size(settings: EncoderSettings) -> int {
    if settings.vbr {
        base_width(settings.target_num(), settings.target_den())
    } else {
        settings.cbr_width()
    }
}

/// What a chunk is encoded from: the predictors `lms` at its start, the
/// samples, and for every slice the residual width that the settings give
/// it.
pub open spec fn encoder_input(settings: EncoderSettings, lms: Seq<SeaLMS>, samples: Seq<i16>) -> ChunkInput {
    chunk_input(
        lms,
        samples,
        settings.scale_factor_frames as int,
        settings.scale_factor_bits as int,
        if settings.vbr {
            vbr_widths(
                lms,
                samples,
                settings.scale_factor_frames as int,
                settings.scale_factor_bits as int,
                target_of(settings),
            )
        } else {
            uniform_widths(
                slices_of(
                    samples.len() as int,
                    lms.len() as int,
                    settings.scale_factor_frames as int,
                ),
                settings.cbr_width() as u8,
            )
        },
    )
}

/// The chunk that the samples are encoded to.
pub open spec fn encoder_chunk(settings: EncoderSettings, lms: Seq<SeaLMS>, samples: Seq<i16>) -> ChunkView {
    chunk_of(encoder_input(settings, lms, samples), settings.vbr, base_size(settings))
}

/// The size of chunk that the header states once the chunk of `samples` is
/// made: the size it states already, or, when it states none yet, the size
/// of that chunk.
pub open spec fn patched_size(
    settings: EncoderSettings,
    header: HeaderView,
    lms: Seq<SeaLMS>,
    samples: Seq<i16>,
) -> int {
    if header.chunk_size == 0 {
        encoder_chunk(settings, lms, samples).bytes().len() as int
    } else {
        header.chunk_size as int
    }
}

/// The chunk of `samples` has a size that the header can state, and that
/// goes with the size that the header states: the same for a whole chunk,
/// no more for a shorter one.
pub open spec fn size_ok(
    settings: EncoderSettings,
    header: HeaderView,
    lms: Seq<SeaLMS>,
    samples: Seq<i16>,
) -> bool {
    let len = encoder_chunk(settings, lms, samples).bytes().len() as int;
    &&& len <= 65535
    &&& if samples.len() == header.frames_per_chunk * header.channels {
        len == patched_size(settings, header, lms, samples)
    } else {
        len <= patched_size(settings, header, lms, samples)
    }
}

/// Why no chunk is made of `samples`, if none is: `EndOfFile` when the
/// samples are no whole frames, `InvalidSettings` when they are more frames
/// than a chunk holds or the size of the chunk does not go with the size of
/// chunk of the stream.
pub open spec fn refusal(
    settings: EncoderSettings,
    header: HeaderView,
    lms: Seq<SeaLMS>,
    samples: Seq<i16>,
) -> Option<SeaError> {
    if samples.len() as int % header.channels as int != 0 {
        Some(SeaError::EndOfFile)
    } else if samples.len() as int / header.channels as int > header.frames_per_chunk {
        Some(SeaError::InvalidSettings)
    } else if !size_ok(settings, header, lms, samples) {
        Some(SeaError::InvalidSettings)
    } else {
        None
    }
}

/// The number of bytes of the next chunk of a stream with `left` unread
/// bytes: the size of chunk that the header states, or what is left when
/// that is less.
pub open spec fn next_chunk_len(left: Seq<u8>, chunk_size: int) -> int {
    if left.len() < chunk_size {
        left.len() as int
    } else {
        chunk_size
    }
}

} // verus!
