use crate::codec::dqt::{valid_scale_bits, valid_width, SeaDequantTab};
use crate::codec::encoder_base::{chunk_input, count_rows, ChunkInput, EncoderBase};
use crate::codec::file::SeaFileHeader;
use crate::codec::layout::Grid;
use crate::codec::lms::SeaLMS;
use crate::encoder::EncoderSettings;
use vstd::prelude::*;

verus! {

/// What a chunk of samples is encoded to, before it is packed into bytes.
pub struct EncodedSamples {
    /// The scale index of every slice.
    pub scale_factors: Vec<u8>,
    /// The residual code of every sample.
    pub residuals: Vec<u8>,
    /// The residual width of every slice.
    pub residual_bits: Vec<u8>,
}

/// `n` times the width `w`.
pub open spec fn uniform_widths(n: int, w: u8) -> Seq<u8> {
    Seq::new(n as nat, |j: int| w)
}

/// The number of slices of `samples` interleaved samples of `channels`
/// channels, cut into rows of `slice_frames` frames.
pub open spec fn slices_of(samples: int, channels: int, slice_frames: int) -> int {
    (Grid { channels, slice_frames, frames: samples / channels }).slices()
}

/// The number of slices of a chunk.
pub fn count_slices(samples: usize, channels: usize, slice_frames: usize) -> (n: usize)
    requires
        1 <= channels,
        1 <= slice_frames,
    ensures
        n == slices_of(samples as int, channels as int, slice_frames as int),
        n <= samples,
{
    let frames = samples / channels;
    let rows = count_rows(frames, slice_frames);
    proof {
        vstd::arithmetic::div_mod::lemma_fundamental_div_mod(samples as int, channels as int);
        vstd::arithmetic::div_mod::lemma_mod_bound(samples as int, channels as int);
        let m = samples as int % channels as int;
        assert(0 <= rows * channels <= samples) by (nonlinear_arith)
            requires
                0 <= rows <= frames,
                samples == channels * frames + m,
                0 <= m,
                1 <= channels,
        ;
    }
    rows * channels
}

/// The encoder that gives every slice the same residual width.
pub struct CbrEncoder {
    pub channels: usize,
    pub residual_size: u8,
    pub scale_factor_frames: u8,
    pub base_encoder: EncoderBase,
}

impl CbrEncoder {
    /// The encoder has a predictor for each channel, a supported residual
    /// width, and slices that hold a frame.
    pub open spec fn wf(&self) -> bool {
        &&& self.base_encoder.wf()
        &&& self.base_encoder.channels == self.channels
        &&& valid_width(self.residual_size as int)
        &&& 1 <= self.scale_factor_frames
    }

    /// What the encoder encodes the samples from, with tables for `sfb`
    /// scale-factor bits.
    pub open spec fn input(&self, samples: Seq<i16>, sfb: int) -> ChunkInput {
        chunk_input(
            self.base_encoder.lms@,
            samples,
            self.scale_factor_frames as int,
            sfb,
            uniform_widths(
                slices_of(
                    samples.len() as int,
                    self.channels as int,
                    self.scale_factor_frames as int,
                ),
                self.residual_size,
            ),
        )
    }

    /// An encoder with zeroed predictors for the stream that the header
    /// describes. The residual width is the whole number of bits of the
    /// settings' residual width.
    pub fn new(file_header: &SeaFileHeader, encoder_settings: &EncoderSettings) -> (e: Self)
        requires
            file_header.channels >= 1,
            encoder_settings.basic_wf(),
        ensures
            e.wf(),
            e.channels == file_header.channels,
            e.residual_size == encoder_settings.cbr_width(),
            e.scale_factor_frames == encoder_settings.scale_factor_frames,
            e.base_encoder.lms@ == Seq::new(
                file_header.channels as nat,
                |i: int| SeaLMS::new_spec(),
            ),
    {
        let base_encoder = EncoderBase::new(
            file_header.channels as usize,
            encoder_settings.scale_factor_bits as usize,
        );
        assert(base_encoder.lms@ =~= Seq::new(
            file_header.channels as nat,
            |i: int| SeaLMS::new_spec(),
        ));
        CbrEncoder {
            channels: file_header.channels as usize,
            residual_size: (encoder_settings.residual_bits / 1000) as u8,
            scale_factor_frames: encoder_settings.scale_factor_frames,
            base_encoder,
        }
    }

    /// The predictor of every channel.
    pub fn get_lms(&self) -> (lms: &Vec<SeaLMS>)
        ensures
            lms@ == self.base_encoder.lms@,
    {
        &self.base_encoder.lms
    }

    /// Encodes the samples of one chunk, every slice with the encoder's
    /// residual width, and moves the predictors past the chunk.
    #[verifier::rlimit(40)]
    pub fn encode(&mut self, samples: &[i16], tab: &SeaDequantTab) -> (r: EncodedSamples)
        requires
            old(self).wf(),
            tab.wf(),
            valid_scale_bits(tab.scale_bits()),
            samples@.len() as int % old(self).channels as int == 0,
        ensures
            final(self).wf(),
            final(self).channels == old(self).channels,
            final(self).residual_size == old(self).residual_size,
            final(self).scale_factor_frames == old(self).scale_factor_frames,
            old(self).input(samples@, tab.scale_bits()).wf(),
            r.scale_factors@ == old(self).input(samples@, tab.scale_bits()).scale_factors(),
            r.residuals@ == old(self).input(samples@, tab.scale_bits()).residuals(),
            r.residual_bits@ == uniform_widths(
                slices_of(
                    samples@.len() as int,
                    old(self).channels as int,
                    old(self).scale_factor_frames as int,
                ),
                old(self).residual_size,
            ),
            final(self).base_encoder.lms@ == old(self).input(
                samples@,
                tab.scale_bits(),
            ).lms_after(),
    {
        let slices = count_slices(samples.len(), self.channels, self.scale_factor_frames as usize);
        let mut widths: Vec<u8> = Vec::new();
        widths.resize(slices, self.residual_size);
        proof {
            let inp = self.input(samples@, tab.scale_bits());
            assert(widths@ =~= uniform_widths(slices as int, self.residual_size));
            assert(inp.widths.len() == inp.grid().slices());
        }
        let rows = self.base_encoder.get_residuals_for_chunk(
            tab,
            samples,
            self.scale_factor_frames as usize,
            &widths,
        );
        EncodedSamples {
            scale_factors: rows.scale_factors,
            residuals: rows.residuals,
            residual_bits: widths,
        }
    }
}

} // verus!
