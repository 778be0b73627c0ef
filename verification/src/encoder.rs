use crate::codec::chunk::{
    head_of, held_frames, lemma_chunk_round_trip, lemma_decoder_follows_encoder,
    lemma_held_frames, lemma_is_chunk, parse_chunk, read_chunk, ChunkView,
};
use crate::codec::short_chunk::{lemma_cbr_same_blocks, lemma_short_chunk_read_back, same_blocks};
use crate::codec::common::SeaError;
use crate::codec::dqt::{valid_scale_bits, MAX_SCALE_FACTOR_BITS, MIN_SCALE_FACTOR_BITS};
use crate::codec::encoder_base::lemma_input_grid;
use crate::codec::file::{
    base_size, encoder_chunk, encoder_input, header_text, lemma_header_text, patched_size,
    refusal, scale_metadata, size_ok, HeaderView, SeaFile, SeaFileHeader,
};
use crate::codec::lms::{all_wf, SeaLMS};
use crate::codec::size::{
    chunk_samples_ok, lemma_encoded_len, lemma_encoder_chunk_plain, lemma_encoder_chunk_wf,
};
use crate::codec::vbr_budget::VbrTarget;
use vstd::prelude::*;
use vstd::utf8::encode_utf8;

verus! {

/// Where an encoder stands in its stream.
#[derive(Debug, Clone, Copy, PartialEq, Eq, Structural)]
pub enum SeaEncoderState {
    /// Nothing has been written yet.
    Start,
    /// The file header has been written.
    WritingFrames,
    /// The last chunk has been written, or the encoder was finalized.
    Finished,
}

/// The choices of an encoder.
#[derive(Debug, Clone, Copy, PartialEq, Eq, Structural)]
pub struct EncoderSettings {
    /// The number of bits of a scale-factor index, 2 to 6.
    pub scale_factor_bits: u8,
    /// The number of frames of a slice.
    pub scale_factor_frames: u8,
    /// The residual width in thousandths of a bit per sample, 1000 to 8000.
    /// With a constant bitrate every residual has the whole number of bits
    /// below it; with a variable bitrate it is the mean that is aimed at.
    pub residual_bits: u32,
    /// The number of frames of a chunk.
    pub frames_per_chunk: u16,
    /// Whether the residual width varies from slice to slice.
    pub vbr: bool,
}

impl Default for EncoderSettings {
    fn default() -> (s: Self)
        ensures
            s == (EncoderSettings {
                scale_factor_bits: 4,
                scale_factor_frames: 20,
                residual_bits: 3000,
                frames_per_chunk: 5120,
                vbr: false,
            }),
    {
        EncoderSettings {
            frames_per_chunk: 5120,
            scale_factor_bits: 4,
            scale_factor_frames: 20,
            residual_bits: 3000,
            vbr: false,
        }
    }
}

impl EncoderSettings {
    /// The residual width of every slice at a constant bitrate.
    pub open spec fn cbr_width(&self) -> int {
        self.residual_bits as int / 1000
    }

    /// The denominator of the mean residual width that a variable bitrate
    /// aims at.
    pub open spec fn target_den(&self) -> int {
        1000 * self.frames_per_chunk * self.scale_factor_frames
    }

    /// The numerator of the mean residual width that a variable bitrate
    /// aims at: the residual width less what each sample bears of its
    /// chunk's predictors (128 bits a chunk), of its slice's scale factor
    /// and of its slice's two-bit width code.
    pub open spec fn target_num(&self) -> int {
        self.residual_bits * self.frames_per_chunk * self.scale_factor_frames - 128000
            * self.scale_factor_frames - 1000 * (self.scale_factor_bits + 2)
            * self.frames_per_chunk
    }

    /// The settings without regard to the kind of bitrate are supported.
    pub open spec fn basic_wf(&self) -> bool {
        &&& valid_scale_bits(self.scale_factor_bits as int)
        &&& 1 <= self.scale_factor_frames
        &&& 1000 <= self.residual_bits <= 8000
        &&& 1 <= self.frames_per_chunk
    }

    /// The mean that a variable bitrate aims at lies between two and six
    /// bits.
    pub open spec fn target_wf(&self) -> bool {
        2 * self.target_den() <= self.target_num() <= 6 * self.target_den()
    }

    /// The settings are supported.
    pub open spec fn wf(&self) -> bool {
        &&& self.basic_wf()
        &&& self.vbr ==> self.target_wf()
    }

    /// Whether the settings without regard to the kind of bitrate are
    /// supported.
    pub fn basic_valid(&self) -> (b: bool)
        ensures
            b == self.basic_wf(),
    {
        MIN_SCALE_FACTOR_BITS <= self.scale_factor_bits && self.scale_factor_bits
            <= MAX_SCALE_FACTOR_BITS && 1 <= self.scale_factor_frames && 1000 <= self.residual_bits
            && self.residual_bits <= 8000 && 1 <= self.frames_per_chunk
    }

    /// The mean residual width that a variable bitrate aims at, if it lies
    /// between two and six bits.
    pub fn vbr_target(&self) -> (t: Option<VbrTarget>)
        requires
            self.basic_wf(),
        ensures
            t is Some <==> self.target_wf(),
            t is Some ==> t->0.wf() && t->0.num == self.target_num() && t->0.den
                == self.target_den(),
    {
        let f: u64 = self.frames_per_chunk as u64;
        let sff: u64 = self.scale_factor_frames as u64;
        let rb: u64 = self.residual_bits as u64;
        let sfb: u64 = self.scale_factor_bits as u64;
        assert(1 <= f * sff <= 65535 * 255) by (nonlinear_arith)
            requires
                1 <= f <= 65535,
                1 <= sff <= 255,
        ;
        let area: u64 = f * sff;
        assert(rb * area <= 8000 * (65535 * 255) && 1000 * area <= 1000 * (65535 * 255)
            && self.residual_bits * self.frames_per_chunk * self.scale_factor_frames == rb * area
            && 1000 * self.frames_per_chunk * self.scale_factor_frames == 1000 * area)
            by (nonlinear_arith)
            requires
                rb <= 8000,
                area <= 65535 * 255,
                0 <= area,
                area == f * sff,
                rb == self.residual_bits,
                f == self.frames_per_chunk,
                sff == self.scale_factor_frames,
        ;
        assert(1000 * (sfb + 2) * f <= 8000 * 65535) by (nonlinear_arith)
            requires
                sfb <= 6,
                f <= 65535,
        ;
        let gain: u64 = rb * area;
        let cost: u64 = 128000 * sff + 1000 * (sfb + 2) * f;
        let den: u64 = 1000 * area;
        if gain < cost {
            return None;
        }
        let num: u64 = gain - cost;
        if 2 * den <= num && num <= 6 * den {
            Some(VbrTarget { num, den })
        } else {
            None
        }
    }

    /// Whether the settings are supported.
    pub fn is_valid(&self) -> (b: bool)
        ensures
            b == self.wf(),
    {
        if !self.basic_valid() {
            return false;
        }
        if self.vbr {
            self.vbr_target().is_some()
        } else {
            true
        }
    }
}

/// An encoder that takes its samples from a buffer and hands out one
/// chunk at a time.
pub struct SeaEncoder<'inp> {
    /// The samples that no chunk holds yet.
    pub data: &'inp [i16],
    pub file: SeaFile,
    pub state: SeaEncoderState,
    /// The number of frames that the chunks so far were planned to hold;
    /// it stops at the largest number it can hold.
    pub written_frames: u32,
    /// The number of frames of the stream as the caller stated it.
    pub passed_total_frames: Option<u32>,
}

/// An encoder as a mathematical value.
pub ghost struct EncoderModel {
    pub settings: EncoderSettings,
    pub header: HeaderView,
    /// The predictor of each channel.
    pub lms: Seq<SeaLMS>,
    /// The samples that no chunk holds yet.
    pub data: Seq<i16>,
    pub state: SeaEncoderState,
    pub written_frames: int,
    pub passed_total_frames: Option<u32>,
}

/// What one call for a chunk does to an encoder.
pub ghost struct EncoderStep {
    /// The encoder after the call.
    pub next: EncoderModel,
    /// The bytes that the call hands out.
    pub emitted: Seq<u8>,
    /// What the call returns: whether more chunks may follow.
    pub result: Result<bool, SeaError>,
}

impl<'inp> View for SeaEncoder<'inp> {
    type V = EncoderModel;

    open spec fn view(&self) -> EncoderModel {
        EncoderModel {
            settings: self.file.settings(),
            header: self.file.header@,
            lms: self.file.lms(),
            data: self.data@,
            state: self.state,
            written_frames: self.written_frames as int,
            passed_total_frames: self.passed_total_frames,
        }
    }
}

impl EncoderModel {
    /// The encoder has supported settings, a header that states their
    /// scale and a predictor for each of its channels, and has planned no
    /// more frames than the stream has.
    pub open spec fn wf(&self) -> bool {
        &&& self.settings.wf()
        &&& self.header.channels >= 1
        &&& self.lms.len() == self.header.channels
        &&& all_wf(self.lms)
        &&& encode_utf8(self.header.metadata).len() <= u32::MAX
        &&& self.header.scale_bits() == self.settings.scale_factor_bits
        &&& self.header.slice_frames() == self.settings.scale_factor_frames
        &&& 0 <= self.written_frames <= u32::MAX
        &&& self.header.total_frames > 0 ==> self.written_frames <= self.header.total_frames
    }

    /// The number of frames that the next chunk is planned to hold: a
    /// whole chunk, or what is left of the stated total when that is less.
    pub open spec fn planned_frames(&self) -> int {
        if self.header.total_frames > 0 && self.header.total_frames - self.written_frames
            < self.header.frames_per_chunk {
            self.header.total_frames - self.written_frames
        } else {
            self.header.frames_per_chunk as int
        }
    }

    /// The number of samples that the next chunk takes: those of the
    /// planned frames, or all that are left when they are fewer.
    pub open spec fn planned_samples(&self) -> int {
        if self.data.len() < self.planned_frames() * self.header.channels {
            self.data.len() as int
        } else {
            self.planned_frames() * self.header.channels
        }
    }

    /// Whether the header goes out before the first chunk is made: when the
    /// caller stated a total of no frames.
    pub open spec fn early_header(&self) -> bool {
        self.state == SeaEncoderState::Start && self.passed_total_frames == Some(0u32)
    }

    /// The header bytes that go out before the chunk is made: the header
    /// without a size of chunk, when the caller stated a total of no frames
    /// and nothing has been written yet.
    pub open spec fn early_bytes(&self) -> Seq<u8> {
        if self.early_header() {
            self.header.bytes()
        } else {
            Seq::empty()
        }
    }

    /// The state once the early header, if there is one, has gone out.
    pub open spec fn early_state(&self) -> SeaEncoderState {
        if self.early_header() {
            SeaEncoderState::WritingFrames
        } else {
            self.state
        }
    }

    /// The samples that the next chunk takes.
    pub open spec fn next_samples(&self) -> Seq<i16> {
        self.data.take(self.planned_samples())
    }

    /// Whether the next chunk is a whole one.
    pub open spec fn next_is_whole(&self) -> bool {
        self.planned_samples() == self.header.frames_per_chunk * self.header.channels
    }

    /// The header once the next chunk is made: with the size of that chunk
    /// as the size of chunk, if it stated none before.
    pub open spec fn patched_header(&self) -> HeaderView {
        HeaderView {
            chunk_size: patched_size(self.settings, self.header, self.lms, self.next_samples())
                as u16,
            ..self.header
        }
    }

    /// The header bytes that go out after the chunk is made and before its
    /// bytes: the patched header, when nothing has been written yet.
    pub open spec fn late_bytes(&self) -> Seq<u8> {
        if self.early_state() == SeaEncoderState::Start {
            self.patched_header().bytes()
        } else {
            Seq::empty()
        }
    }

    /// The number of planned frames once the next chunk is made.
    pub open spec fn next_written(&self) -> int {
        if self.written_frames + self.planned_frames() > u32::MAX {
            u32::MAX as int
        } else {
            self.written_frames + self.planned_frames()
        }
    }

    /// The encoder once the next chunk is made.
    pub open spec fn after_chunk(&self) -> EncoderModel {
        EncoderModel {
            header: self.patched_header(),
            lms: encoder_input(self.settings, self.lms, self.next_samples()).lms_after(),
            data: self.data.skip(self.planned_samples()),
            state: if self.next_is_whole() {
                SeaEncoderState::WritingFrames
            } else {
                SeaEncoderState::Finished
            },
            written_frames: self.next_written(),
            ..*self
        }
    }

    /// What a call for the next chunk does.
    ///
    /// A finalized encoder fails with `EncoderClosed`. Otherwise the samples
    /// of the next chunk are taken from the buffer; when they are no whole
    /// frames the call fails with `EndOfFile`; when there are none the
    /// encoder has finished. The chunk is made of them, or the call fails as
    /// `refusal` says. The header goes out before the first chunk, with the
    /// size of that chunk as the size of chunk (without a size, when the
    /// caller stated a total of no frames). A chunk that is not whole is the
    /// last. A call that fails hands out nothing and leaves the encoder as
    /// it was.
    #[verifier::opaque]
    pub open spec fn step(&self) -> EncoderStep {
        let n = self.planned_samples();
        if self.state == SeaEncoderState::Finished {
            EncoderStep { next: *self, emitted: Seq::empty(), result: Err(SeaError::EncoderClosed) }
        } else if n != 0 && n % (self.header.channels as int) != 0 {
            EncoderStep { next: *self, emitted: Seq::empty(), result: Err(SeaError::EndOfFile) }
        } else if n == 0 {
            EncoderStep {
                next: EncoderModel { state: SeaEncoderState::Finished, ..*self },
                emitted: self.early_bytes(),
                result: Ok(false),
            }
        } else if refusal(self.settings, self.header, self.lms, self.next_samples()) is Some {
            EncoderStep {
                next: *self,
                emitted: Seq::empty(),
                result: Err(
                    refusal(self.settings, self.header, self.lms, self.next_samples())->0,
                ),
            }
        } else {
            EncoderStep {
                next: self.after_chunk(),
                emitted: self.early_bytes() + self.late_bytes() + encoder_chunk(
                    self.settings,
                    self.lms,
                    self.next_samples(),
                ).bytes(),
                result: Ok(self.next_is_whole()),
            }
        }
    }
}

impl<'inp> SeaEncoder<'inp> {
    /// The stream in the making is well-formed, and the encoder has planned
    /// no more frames than the stream has.
    pub open spec fn wf(&self) -> bool {
        &&& self.file.wf_encoder()
        &&& self@.wf()
    }

    /// An encoder for the samples in `data`, `channels` to a frame.
    ///
    /// The header of the stream states the scale of the settings in its
    /// metadata. Fails with `InvalidSettings` when the settings are not
    /// supported or there is no channel.
    pub fn from_slice(
        channels: u8,
        sample_rate: u32,
        total_frames: Option<u32>,
        settings: EncoderSettings,
        data: &'inp [i16],
    ) -> (r: Result<Self, SeaError>)
        ensures
            r is Ok <==> settings.wf() && channels >= 1,
            r is Err ==> r->Err_0 == SeaError::InvalidSettings,
            r is Ok ==> r->Ok_0.wf() && r->Ok_0@ == initial_encoder(
                channels,
                sample_rate,
                total_frames,
                settings,
                data@,
            ),
    {
        if !settings.is_valid() {
            return Err(SeaError::InvalidSettings);
        }
        let header = SeaFileHeader {
            version: 1,
            channels,
            chunk_size: 0,
            frames_per_chunk: settings.frames_per_chunk,
            sample_rate,
            total_frames: match total_frames {
                Some(t) => t,
                None => 0,
            },
            metadata: scale_metadata(settings.scale_factor_bits, settings.scale_factor_frames),
        };
        proof {
            lemma_header_text(
                settings.scale_factor_bits as int,
                settings.scale_factor_frames as int,
            );
        }
        let file = match SeaFile::new(header, &settings) {
            Ok(f) => f,
            Err(e) => { return Err(e); },
        };
        let state = SeaEncoderState::Start;
        Ok(SeaEncoder { file, state, data, written_frames: 0, passed_total_frames: total_frames })
    }

    /// Takes the samples of the next chunk from the buffer: at most
    /// `max_sample_count`, all that are left when they are fewer.
    ///
    /// Fails with `EndOfFile`, and takes nothing, when they are no whole
    /// frames.
    #[verifier::rlimit(40)]
    fn read_samples(&mut self, max_sample_count: usize) -> (r: Result<&'inp [i16], SeaError>)
        requires
            old(self).file.header.channels >= 1,
        ensures
            final(self).file == old(self).file,
            final(self).state == old(self).state,
            final(self).written_frames == old(self).written_frames,
            final(self).passed_total_frames == old(self).passed_total_frames,
            ({
                let n = if old(self).data@.len() < max_sample_count {
                    old(self).data@.len() as int
                } else {
                    max_sample_count as int
                };
                if n != 0 && n % (old(self).file.header.channels as int) != 0 {
                    r == Err::<&[i16], SeaError>(SeaError::EndOfFile) && final(self).data@ == old(self).data@
                } else {
                    r is Ok && r->Ok_0@ == old(self).data@.take(n) && final(self).data@ == old(self).data@.skip(n)
                }
            }),
    {
        let max_to_read = if self.data.len() < max_sample_count {
            self.data.len()
        } else {
            max_sample_count
        };
        if max_to_read == 0 {
            let empty = vstd::slice::slice_subrange(self.data, 0, 0);
            assert(empty@ =~= self.data@.take(0));
            assert(self.data@.skip(0) =~= self.data@);
            return Ok(empty);
        }
        if max_to_read % (self.file.header.channels as usize) != 0 {
            return Err(SeaError::EndOfFile);
        }
        let all: &'inp [i16] = self.data;
        let samples = vstd::slice::slice_subrange(all, 0, max_to_read);
        let new_data = vstd::slice::slice_subrange(all, max_to_read, all.len());
        self.data = new_data;
        assert(samples@ =~= all@.take(max_to_read as int));
        assert(new_data@ =~= all@.skip(max_to_read as int));
        Ok(samples)
    }

    /// Writes the header without a size of chunk, when the caller stated a
    /// total of no frames and nothing has been written yet.
    #[verifier::rlimit(40)]
    fn write_early_header(&mut self, writer: &mut Vec<u8>)
        requires
            old(self).wf(),
            old(self).state != SeaEncoderState::Finished,
        ensures
            final(self).wf(),
            final(self).file == old(self).file,
            final(self).data == old(self).data,
            final(self).written_frames == old(self).written_frames,
            final(self).passed_total_frames == old(self).passed_total_frames,
            final(self).state == old(self)@.early_state(),
            final(writer)@ == old(writer)@ + old(self)@.early_bytes(),
    {
        let early = match self.state {
            SeaEncoderState::Start => match self.passed_total_frames {
                Some(total_frames) => total_frames == 0,
                None => false,
            },
            _ => false,
        };
        if early {
            let bytes = self.file.header.serialize();
            writer.extend_from_slice(bytes.as_slice());
            self.state = SeaEncoderState::WritingFrames;
        }
        assert(writer@ =~= old(writer)@ + old(self)@.early_bytes());
    }

    /// The number of frames that the next chunk is planned to hold.
    fn plan_frames(&self) -> (frames: usize)
        requires
            self.wf(),
        ensures
            frames == self@.planned_frames(),
            frames <= self.file.header.frames_per_chunk,
            frames * self.file.header.channels <= 65535 * 255,
            self.file.header.frames_per_chunk * self.file.header.channels <= 65535 * 255,
    {
        let per_chunk = self.file.header.frames_per_chunk as usize;
        let frames: usize = if self.file.header.total_frames > 0 {
            let left = (self.file.header.total_frames - self.written_frames) as usize;
            if left < per_chunk {
                left
            } else {
                per_chunk
            }
        } else {
            per_chunk
        };
        assert(frames * self.file.header.channels <= 65535 * 255 && per_chunk
            * self.file.header.channels <= 65535 * 255) by (nonlinear_arith)
            requires
                frames <= per_chunk <= 65535,
                self.file.header.channels <= 255,
        ;
        frames
    }

    /// Makes a chunk of `samples`, which were taken from the buffer, and
    /// appends it to `writer`, after the header when it is the first.
    #[verifier::rlimit(40)]
    fn write_chunk(&mut self, writer: &mut Vec<u8>, samples: &[i16], frames: usize) -> (r: Result<
        (),
        SeaError,
    >)
        requires
            old(self).wf(),
            old(self).state != SeaEncoderState::Finished,
            frames <= 65535,
            old(self).file.header.total_frames > 0 ==> old(self).written_frames + frames <= old(self).file.header.total_frames,
        ensures
            final(self).wf(),
            final(self).data == old(self).data,
            final(self).passed_total_frames == old(self).passed_total_frames,
            final(self).file.settings() == old(self).file.settings(),
            r is Ok <==> old(self).file.refusal(samples@) is None,
            r is Err ==> old(self).file.refusal(samples@) == Some(r->Err_0)
                && final(self).file.header@ == old(self).file.header@ && final(self).file.lms()
                == old(self).file.lms() && final(self).state == old(self).state && final(self).written_frames == old(self).written_frames && final(writer)@ == old(writer)@,
            r is Ok ==> {
                &&& final(self).file.header@ == (HeaderView {
                    chunk_size: old(self).file.patched_size(samples@) as u16,
                    ..old(self).file.header@
                })
                &&& final(self).file.lms() == old(self).file.input(samples@).lms_after()
                &&& final(self).state == SeaEncoderState::WritingFrames
                &&& final(self).written_frames == if old(self).written_frames + frames
                    > u32::MAX {
                    u32::MAX as int
                } else {
                    old(self).written_frames + frames
                }
                &&& final(writer)@ == old(writer)@ + (if old(self).state
                    == SeaEncoderState::Start {
                    final(self).file.header@.bytes()
                } else {
                    Seq::<u8>::empty()
                }) + old(self).file.chunk(samples@).bytes()
            },
    {
        let encoded_chunk = match self.file.make_chunk(samples) {
            Ok(c) => c,
            Err(e) => {
                return Err(e);
            },
        };
        match self.state {
            SeaEncoderState::Start => {
                let bytes = self.file.header.serialize();
                writer.extend_from_slice(bytes.as_slice());
                self.state = SeaEncoderState::WritingFrames;
            },
            _ => {},
        }
        writer.extend_from_slice(encoded_chunk.as_slice());
        self.written_frames = if self.written_frames > u32::MAX - frames as u32 {
            u32::MAX
        } else {
            self.written_frames + frames as u32
        };
        proof {
            assert(final(writer)@ =~= old(writer)@ + (if old(self).state
                == SeaEncoderState::Start {
                self.file.header@.bytes()
            } else {
                Seq::<u8>::empty()
            }) + old(self).file.chunk(samples@).bytes());
        }
        Ok(())
    }

    /// Makes the next chunk and appends it to `writer`, after the file
    /// header when it is the first. Returns whether more chunks may follow.
    ///
    /// What the call does is what `step` says of the encoder.
    pub fn encode_frame(&mut self, writer: &mut Vec<u8>) -> (r: Result<bool, SeaError>)
        requires
            old(self).wf(),
        ensures
            final(self).wf(),
            final(self)@ == old(self)@.step().next,
            final(writer)@ == old(writer)@ + old(self)@.step().emitted,
            r == old(self)@.step().result,
    {
        self.encode_frame_inner(writer)
    }

    /// Makes the next chunk and appends it to `writer`.
    fn encode_frame_inner(&mut self, writer: &mut Vec<u8>) -> (r: Result<bool, SeaError>)
        requires
            old(self).wf(),
        ensures
            final(self).wf(),
            final(self)@ == old(self)@.step().next,
            final(writer)@ == old(writer)@ + old(self)@.step().emitted,
            r == old(self)@.step().result,
    {
        let ghost before = self@;
        reveal(EncoderModel::step);
        match self.state {
            SeaEncoderState::Finished => {
                assert(writer@ =~= old(writer)@ + Seq::<u8>::empty());
                return Err(SeaError::EncoderClosed);
            },
            _ => {},
        }
        // What the call hands out is collected first, and goes to the
        // writer once the call cannot fail any more.
        let saved_data = self.data;
        let saved_state = self.state;
        let mut out: Vec<u8> = Vec::new();
        self.write_early_header(&mut out);
        assert(out@ =~= before.early_bytes());
        let frames = self.plan_frames();
        let channels = self.file.header.channels as usize;
        let full_size_samples = self.file.header.frames_per_chunk as usize * channels;
        let samples_to_read = frames * channels;
        let samples = match self.read_samples(samples_to_read) {
            Ok(s) => s,
            Err(e) => {
                self.state = saved_state;
                assert(writer@ =~= old(writer)@ + Seq::<u8>::empty());
                return Err(e);
            },
        };
        assert(samples@ == before.next_samples());
        assert(self.data@ == before.data.skip(before.planned_samples()));
        if samples.len() == 0 {
            self.state = SeaEncoderState::Finished;
            writer.extend_from_slice(out.as_slice());
            assert(self.data@ =~= before.data);
            return Ok(false);
        }
        let whole = samples.len() == full_size_samples;
        match self.write_chunk(&mut out, samples, frames) {
            Ok(()) => {},
            Err(e) => {
                self.data = saved_data;
                self.state = saved_state;
                assert(writer@ =~= old(writer)@ + Seq::<u8>::empty());
                return Err(e);
            },
        }
        if !whole {
            self.state = SeaEncoderState::Finished;
        }
        writer.extend_from_slice(out.as_slice());
        proof {
            let early = before.early_bytes();
            let late = before.late_bytes();
            let chunk = encoder_chunk(before.settings, before.lms, before.next_samples()).bytes();
            assert(out@ =~= early + late + chunk);
            assert(self@.header == before.patched_header());
            assert(self@ == before.after_chunk());
        }
        Ok(whole)
    }

    /// Closes the encoder: every later call for a chunk fails with
    /// `EncoderClosed`.
    pub fn finalize(&mut self) -> (r: Result<(), SeaError>)
        ensures
            r is Ok,
            final(self).state == SeaEncoderState::Finished,
            final(self).file == old(self).file,
            final(self).data == old(self).data,
            final(self).written_frames == old(self).written_frames,
            final(self).passed_total_frames == old(self).passed_total_frames,
    {
        self.state = SeaEncoderState::Finished;
        Ok(())
    }
}

/// A call that returns `true` has taken samples from the buffer.
pub proof fn lemma_step_progress(m: EncoderModel)
    requires
        m.step().result == Ok::<bool, SeaError>(true),
    ensures
        m.step().next.data.len() < m.data.len(),
{
    reveal(EncoderModel::step);
}

/// Every chunk that an encoder hands out has a size that goes with the
/// size of chunk that its header then states: a whole chunk has that size,
/// a shorter one no more.
#[verifier::rlimit(40)]
pub proof fn lemma_size_discipline(m: EncoderModel)
    requires
        m.step().result is Ok,
        m.planned_samples() != 0,
        m.state != SeaEncoderState::Finished,
    ensures
        encoder_chunk(m.settings, m.lms, m.next_samples()).bytes().len() <= 65535,
        m.next_is_whole() ==> encoder_chunk(m.settings, m.lms, m.next_samples()).bytes().len()
            == m.step().next.header.chunk_size,
        !m.next_is_whole() ==> encoder_chunk(m.settings, m.lms, m.next_samples()).bytes().len()
            <= m.step().next.header.chunk_size,
{
    reveal(EncoderModel::step);
    assert(size_ok(m.settings, m.header, m.lms, m.next_samples()));
}

/// Two chunks of as many frames, made with the same settings for as many
/// channels, have the same number of bytes, whatever their samples are and
/// wherever the predictors stand.
pub proof fn lemma_same_frames_same_size(
    settings: EncoderSettings,
    lms_a: Seq<SeaLMS>,
    samples_a: Seq<i16>,
    lms_b: Seq<SeaLMS>,
    samples_b: Seq<i16>,
)
    requires
        settings.wf(),
        chunk_samples_ok(lms_a, samples_a),
        chunk_samples_ok(lms_b, samples_b),
        lms_a.len() == lms_b.len(),
        samples_a.len() == samples_b.len(),
    ensures
        encoder_chunk(settings, lms_a, samples_a).bytes().len() == encoder_chunk(
            settings,
            lms_b,
            samples_b,
        ).bytes().len(),
{
    lemma_encoded_len(settings, lms_a, samples_a);
    lemma_encoded_len(settings, lms_b, samples_b);
}

/// The bytes of a chunk that an encoder made, whatever follows them, are
/// read back as that chunk, and decoding it leaves the decoder's predictors
/// where the encoder's are after the chunk.
#[verifier::rlimit(40)]
pub proof fn lemma_encoded_chunk_decodes(
    settings: EncoderSettings,
    lms: Seq<SeaLMS>,
    samples: Seq<i16>,
    rest: Seq<u8>,
)
    requires
        settings.wf(),
        chunk_samples_ok(lms, samples),
    ensures
        parse_chunk(
            encoder_chunk(settings, lms, samples).bytes() + rest,
            lms.len() as int,
            samples.len() as int / lms.len() as int,
            settings.scale_factor_bits as int,
            settings.scale_factor_frames as int,
        ) == Ok::<ChunkView, SeaError>(encoder_chunk(settings, lms, samples)),
        encoder_chunk(settings, lms, samples).lms_after() == encoder_input(
            settings,
            lms,
            samples,
        ).lms_after(),
        encoder_chunk(settings, lms, samples).samples().len() == samples.len(),
{
    let inp = encoder_input(settings, lms, samples);
    let c = encoder_chunk(settings, lms, samples);
    lemma_encoder_chunk_wf(settings, lms, samples);
    lemma_chunk_round_trip(c, rest);
    lemma_input_grid(inp);
    crate::codec::layout::lemma_rows_count(inp.grid());
    lemma_decoder_follows_encoder(inp, settings.vbr, base_size(settings), inp.grid().rows());
}

/// A short chunk that an encoder made is read back with its own samples in
/// front: read as the last chunk of a stream whose header states no total,
/// its bytes are read as a chunk of no fewer frames, and that chunk is
/// decoded to samples that begin with the samples of the chunk that was
/// made. What may follow them are frames that fit what is left of the last
/// byte.
///
/// At a variable bitrate this is so where the blocks of scale indices and
/// of width codes of the chunk that is read end where those of the chunk
/// that was made end; at a constant bitrate they always do.
pub proof fn lemma_short_chunk_decodes(
    settings: EncoderSettings,
    lms: Seq<SeaLMS>,
    samples: Seq<i16>,
    frames_per_chunk: int,
)
    requires
        settings.wf(),
        chunk_samples_ok(lms, samples),
        samples.len() > 0,
        samples.len() as int / lms.len() as int <= frames_per_chunk,
        settings.vbr ==> same_blocks(
            encoder_chunk(settings, lms, samples),
            held_frames(
                encoder_chunk(settings, lms, samples).bytes(),
                head_of(encoder_chunk(settings, lms, samples)),
                lms.len() as int,
                frames_per_chunk,
            ),
        ),
    ensures
        read_chunk(
            encoder_chunk(settings, lms, samples).bytes(),
            lms.len() as int,
            frames_per_chunk,
            None,
            settings.scale_factor_bits as int,
            settings.scale_factor_frames as int,
        ) is Ok,
        samples.len() <= read_chunk(
            encoder_chunk(settings, lms, samples).bytes(),
            lms.len() as int,
            frames_per_chunk,
            None,
            settings.scale_factor_bits as int,
            settings.scale_factor_frames as int,
        )->Ok_0.samples().len(),
        read_chunk(
            encoder_chunk(settings, lms, samples).bytes(),
            lms.len() as int,
            frames_per_chunk,
            None,
            settings.scale_factor_bits as int,
            settings.scale_factor_frames as int,
        )->Ok_0.samples().take(samples.len() as int) == encoder_chunk(
            settings,
            lms,
            samples,
        ).samples(),
{
    let c = encoder_chunk(settings, lms, samples);
    let b = c.bytes();
    lemma_encoder_chunk_wf(settings, lms, samples);
    lemma_encoder_chunk_plain(settings, lms, samples);
    lemma_encoded_chunk_decodes(settings, lms, samples, Seq::<u8>::empty());
    lemma_is_chunk(c);
    vstd::arithmetic::div_mod::lemma_fundamental_div_mod(samples.len() as int, lms.len() as int);
    assert(c.frames >= 1) by (nonlinear_arith)
        requires
            c.frames == samples.len() as int / lms.len() as int,
            samples.len() == lms.len() * (samples.len() as int / lms.len() as int) + samples.len()
                as int % lms.len() as int,
            samples.len() as int % lms.len() as int == 0,
            samples.len() > 0,
            lms.len() >= 1,
    ;
    lemma_held_frames(b, head_of(c), c.channels, frames_per_chunk, c.frames);
    let frames = held_frames(b, head_of(c), c.channels, frames_per_chunk);
    if !settings.vbr {
        lemma_cbr_same_blocks(c, frames);
    }
    lemma_short_chunk_read_back(c, frames_per_chunk);
    vstd::arithmetic::div_mod::lemma_fundamental_div_mod(samples.len() as int, lms.len() as int);
    assert(c.grid().samples() == samples.len()) by (nonlinear_arith)
        requires
            c.grid().samples() == c.frames * c.channels,
            c.frames == samples.len() as int / lms.len() as int,
            c.channels == lms.len(),
            samples.len() == lms.len() * (samples.len() as int / lms.len() as int) + samples.len()
                as int % lms.len() as int,
            samples.len() as int % lms.len() as int == 0,
    ;
}

/// The encoder at the start of a stream: nothing written, every predictor
/// zeroed, and in the header the version 1, no size of chunk yet, the
/// stated total of frames, or 0 where none is stated, and as metadata the
/// scale of the settings.
pub open spec fn initial_encoder(
    channels: u8,
    sample_rate: u32,
    total_frames: Option<u32>,
    settings: EncoderSettings,
    data: Seq<i16>,
) -> EncoderModel {
    EncoderModel {
        settings,
        header: HeaderView {
            version: 1,
            channels,
            chunk_size: 0,
            frames_per_chunk: settings.frames_per_chunk,
            sample_rate,
            total_frames: match total_frames {
                Some(t) => t,
                None => 0,
            },
            metadata: header_text(
                settings.scale_factor_bits as int,
                settings.scale_factor_frames as int,
            ),
        },
        lms: Seq::new(channels as nat, |i: int| SeaLMS::new_spec()),
        data,
        state: SeaEncoderState::Start,
        written_frames: 0,
        passed_total_frames: total_frames,
    }
}

} // verus!
