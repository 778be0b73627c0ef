use crate::codec::chunk::read_chunk;
use crate::codec::common::SeaError;
use crate::codec::file::{
    header_len, next_chunk_len, parse_header, HeaderView, SeaFile, SeaFileHeader,
};
use crate::cursor::Cursor;
use vstd::prelude::*;

verus! {

/// A decoder that reads a stream from a buffer and hands out the samples of
/// one chunk at a time.
pub struct SeaDecoder<'inp> {
    pub cursor: Cursor<'inp>,
    pub file: SeaFile,
    /// The number of frames handed out so far; it stops at the largest
    /// number it can hold.
    pub frames_read: usize,
}

/// A decoder as a mathematical value.
pub ghost struct DecoderModel {
    pub header: HeaderView,
    /// The bytes that are not read yet.
    pub left: Seq<u8>,
    pub frames_read: int,
}

/// What one call for a chunk does to a decoder.
pub ghost struct DecoderStep {
    /// The decoder after the call.
    pub next: DecoderModel,
    /// The samples that the call hands out.
    pub emitted: Seq<i16>,
    /// What the call returns: whether a chunk was decoded.
    pub result: Result<bool, SeaError>,
}

impl<'inp> View for SeaDecoder<'inp> {
    type V = DecoderModel;

    open spec fn view(&self) -> DecoderModel {
        DecoderModel {
            header: self.file.header@,
            left: self.cursor@,
            frames_read: self.frames_read as int,
        }
    }
}

impl DecoderModel {
    /// The number of frames that are still to come, where the header
    /// states the total.
    pub open spec fn remaining_frames(&self) -> Option<usize> {
        if self.header.total_frames > 0 {
            Some((self.header.total_frames - self.frames_read) as usize)
        } else {
            None
        }
    }

    /// Whether all frames that the header states have been handed out.
    pub open spec fn complete(&self) -> bool {
        self.header.total_frames != 0 && self.header.total_frames <= self.frames_read
    }

    /// The bytes of the next chunk: as many as the header states, or all
    /// that are left when they are fewer.
    pub open spec fn next_bytes(&self) -> Seq<u8> {
        self.left.take(next_chunk_len(self.left, self.header.chunk_size as int))
    }

    /// The number of frames handed out once a chunk of `frames` frames is
    /// decoded.
    pub open spec fn next_read(&self, frames: int) -> int {
        if self.frames_read + frames > usize::MAX {
            usize::MAX as int
        } else {
            self.frames_read + frames
        }
    }

    /// What a call for the next chunk does.
    ///
    /// When all frames that the header states have been handed out, or no
    /// byte is left, the call hands out nothing and returns `false`.
    /// Otherwise the bytes of the next chunk are read, and the chunk is
    /// decoded from them and from the header alone; the call fails where
    /// they hold no chunk. The stream expects a whole chunk, or what is left
    /// of the stated total when that is less; bytes that are a chunk of
    /// fewer frames, as the last chunk of a stream may be, are read as that
    /// chunk, whether or not the header states a total.
    #[verifier::opaque]
    pub open spec fn step(&self) -> DecoderStep {
        if self.complete() || self.left.len() == 0 {
            DecoderStep { next: *self, emitted: Seq::empty(), result: Ok(false) }
        } else {
            let left = self.left.skip(next_chunk_len(self.left, self.header.chunk_size as int));
            match read_chunk(
                self.next_bytes(),
                self.header.channels as int,
                self.header.frames_per_chunk as int,
                self.remaining_frames(),
                self.header.scale_bits(),
                self.header.slice_frames(),
            ) {
                Ok(c) => DecoderStep {
                    next: DecoderModel {
                        left,
                        frames_read: self.next_read(
                            c.samples().len() as int / self.header.channels as int,
                        ),
                        ..*self
                    },
                    emitted: c.samples(),
                    result: Ok(true),
                },
                Err(e) => DecoderStep {
                    next: DecoderModel { left, ..*self },
                    emitted: Seq::empty(),
                    result: Err(e),
                },
            }
        }
    }
}

impl<'inp> SeaDecoder<'inp> {
    /// The header of the stream can be decoded.
    pub open spec fn wf(&self) -> bool {
        self.file.wf_decoder()
    }

    /// A decoder for the stream that `reader` stands at the start of: reads
    /// the file header.
    ///
    /// Fails, as `parse_header` says, when the stream does not begin with a
    /// header that can be decoded.
    pub fn from_reader(reader: Cursor<'inp>) -> (r: Result<Self, SeaError>)
        ensures
            match r {
                Ok(d) => d.wf() && parse_header(reader@) == Ok::<HeaderView, SeaError>(d@.header)
                    && d@.left == reader@.skip(header_len(reader@)) && d@.frames_read == 0,
                Err(e) => parse_header(reader@) == Err::<HeaderView, SeaError>(e),
            },
    {
        let mut cursor = reader;
        let file = match SeaFile::from_reader(&mut cursor) {
            Ok(f) => f,
            Err(e) => { return Err(e); },
        };
        Ok(SeaDecoder { cursor, file, frames_read: 0 })
    }

    /// A decoder for the stream in `data`: reads the file header.
    ///
    /// Fails, as `parse_header` says, when `data` does not begin with a
    /// header that can be decoded.
    pub fn from_slice(data: &'inp [u8]) -> (r: Result<Self, SeaError>)
        ensures
            match r {
                Ok(d) => d.wf() && parse_header(data@) == Ok::<HeaderView, SeaError>(d@.header)
                    && d@.left == data@.skip(header_len(data@)) && d@.frames_read == 0,
                Err(e) => parse_header(data@) == Err::<HeaderView, SeaError>(e),
            },
    {
        Self::from_reader(Cursor::from_slice(data))
    }

    /// Decodes the next chunk and appends its samples to `output`. Returns
    /// whether a chunk was decoded.
    ///
    /// What the call does is what `step` says of the decoder.
    #[verifier::rlimit(40)]
    pub fn decode_frame(&mut self, output: &mut Vec<i16>) -> (r: Result<bool, SeaError>)
        requires
            old(self).wf(),
        ensures
            final(self).wf(),
            final(self)@ == old(self)@.step().next,
            final(output)@ == old(output)@ + old(self)@.step().emitted,
            r == old(self)@.step().result,
    {
        let ghost before = self@;
        reveal(DecoderModel::step);
        if self.file.header.total_frames != 0 && (self.file.header.total_frames as usize)
            <= self.frames_read {
            assert(output@ =~= old(output)@ + Seq::<i16>::empty());
            return Ok(false);
        }
        let remaining_frames = if self.file.header.total_frames > 0 {
            Some(self.file.header.total_frames as usize - self.frames_read)
        } else {
            None
        };
        assert(remaining_frames == before.remaining_frames());
        let reader_res = match self.file.samples_from_reader(&mut self.cursor, remaining_frames) {
            Ok(s) => s,
            Err(e) => {
                assert(output@ =~= old(output)@ + Seq::<i16>::empty());
                return Err(e);
            },
        };
        match reader_res {
            Some(samples) => {
                let frames = samples.len() / self.file.header.channels as usize;
                self.frames_read = if self.frames_read > usize::MAX - frames {
                    usize::MAX
                } else {
                    self.frames_read + frames
                };
                output.extend_from_slice(samples.as_slice());
                Ok(true)
            },
            None => {
                assert(output@ =~= old(output)@ + Seq::<i16>::empty());
                assert(self.cursor@ =~= before.left);
                Ok(false)
            },
        }
    }

    /// The number of bytes that the next call for a chunk reads at most:
    /// those of a chunk, or none once all frames that the header states
    /// have been handed out.
    pub fn bytes_wanted(&self) -> (n: usize)
        ensures
            n == if self@.complete() {
                0
            } else {
                self.file.header.chunk_size as int
            },
    {
        if self.file.header.total_frames != 0 && (self.file.header.total_frames as usize)
            <= self.frames_read {
            0
        } else {
            self.file.header.chunk_size as usize
        }
    }

    /// A copy of the header of the stream.
    pub fn get_header(&self) -> (h: SeaFileHeader)
        ensures
            h@ == self.file.header@,
    {
        self.file.header.duplicate()
    }
}

/// A call on a decoder that has handed out all frames, or has no byte
/// left, hands out nothing and returns `false`; and no call changes the
/// header.
pub proof fn lemma_decoder_rest(m: DecoderModel)
    ensures
        m.step().next.header == m.header,
        m.complete() || m.left.len() == 0 ==> m.step().result == Ok::<bool, SeaError>(false)
            && m.step().emitted == Seq::<i16>::empty() && m.step().next == m,
{
    reveal(DecoderModel::step);
}

/// A call that returns `true` has read bytes of the stream.
pub proof fn lemma_decoder_progress(m: DecoderModel)
    requires
        m.header.valid(),
        m.step().result == Ok::<bool, SeaError>(true),
    ensures
        m.step().next.left.len() < m.left.len(),
        m.step().next.header == m.header,
{
    reveal(DecoderModel::step);
}

} // verus!
