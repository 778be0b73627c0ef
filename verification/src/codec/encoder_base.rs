use crate::codec::common::clamp_i16;
use crate::codec::dqt::{
    dequant_value, half_levels, half_of, reciprocal, scale_count, scales_of, valid_scale_bits,
    valid_width, SeaDequantTab,
};
use crate::codec::layout::{
    lemma_coords, lemma_index, lemma_rows, lemma_rows_count, lemma_slice_index, rows_of, Grid,
};
use crate::codec::lms::{all_wf, lemma_update_wf, SeaLMS};
use vstd::prelude::*;

verus! {

/// The residual code of width `w` for a target delta `d`: the size of `d`
/// times the reciprocal `recip` of the step, rounded, kept below two to the
/// `w`, and halved to number a magnitude; the highest bit of the code is set
/// for a negative delta.
pub open spec fn quantize(d: int, recip: int, w: int) -> int {
    let size = if d < 0 {
        -d
    } else {
        d
    };
    let scaled = (size * recip + 32768) / 65536;
    let top = 2 * half_levels(w) - 1;
    let kept = if scaled > top {
        top
    } else if scaled < 0 {
        0
    } else {
        scaled
    };
    kept / 2 + if d < 0 {
        half_levels(w)
    } else {
        0
    }
}

/// The sum of two errors, saturated to 64 bits.
pub open spec fn add_error(a: int, b: int) -> int {
    if a + b > u64::MAX {
        u64::MAX as int
    } else {
        a + b
    }
}

/// What encoding a row of samples of one channel gives: the predictor after
/// the last sample, the residual codes, and the sum of the squared errors.
pub ghost struct SliceRun {
    pub lms: SeaLMS,
    pub codes: Seq<u8>,
    pub error: int,
}

/// What decoding a row of residual codes of one channel gives: the
/// predictor after the last sample, and the samples.
pub ghost struct DecodeRun {
    pub lms: SeaLMS,
    pub samples: Seq<i16>,
}

/// The residual code for the sample `x` after the predictor state `lms`.
pub open spec fn sample_code(lms: SeaLMS, x: int, sfb: int, w: int, s: int) -> int {
    quantize(x - lms.predict_spec(), reciprocal(sfb, w, s), w)
}

/// The samples `xs` encoded one after the other with residual width `w` at
/// scale index `s`, from the predictor state `lms` on.
pub open spec fn encode_run(lms: SeaLMS, xs: Seq<i16>, sfb: int, w: int, s: int) -> SliceRun
    decreases xs.len(),
{
    if xs.len() == 0 {
        SliceRun { lms, codes: Seq::empty(), error: 0 }
    } else {
        let prev = encode_run(lms, xs.drop_last(), sfb, w, s);
        let x = xs.last() as int;
        let code = sample_code(prev.lms, x, sfb, w, s);
        let delta = dequant_value(sfb, w, s, code);
        let miss = x - prev.lms.reconstruct_spec(delta);
        SliceRun {
            lms: prev.lms.advance_spec(delta),
            codes: prev.codes.push(code as u8),
            error: add_error(prev.error, miss * miss),
        }
    }
}

/// The residual codes `codes` decoded one after the other with residual
/// width `w` at scale index `s`, from the predictor state `lms` on.
pub open spec fn decode_run(lms: SeaLMS, codes: Seq<u8>, sfb: int, w: int, s: int) -> DecodeRun
    decreases codes.len(),
{
    if codes.len() == 0 {
        DecodeRun { lms, samples: Seq::empty() }
    } else {
        let prev = decode_run(lms, codes.drop_last(), sfb, w, s);
        let delta = dequant_value(sfb, w, s, codes.last() as int);
        DecodeRun {
            lms: prev.lms.advance_spec(delta),
            samples: prev.samples.push(prev.lms.reconstruct_spec(delta) as i16),
        }
    }
}

/// Decoding gives one sample for each code and a predictor of 16-bit
/// values.
pub proof fn lemma_decode_run(lms: SeaLMS, codes: Seq<u8>, sfb: int, w: int, s: int)
    requires
        lms.wf(),
    ensures
        decode_run(lms, codes, sfb, w, s).samples.len() == codes.len(),
        decode_run(lms, codes, sfb, w, s).lms.wf(),
    decreases codes.len(),
{
    if codes.len() > 0 {
        lemma_decode_run(lms, codes.drop_last(), sfb, w, s);
        let prev = decode_run(lms, codes.drop_last(), sfb, w, s);
        let delta = dequant_value(sfb, w, s, codes.last() as int);
        lemma_update_wf(prev.lms, delta, prev.lms.reconstruct_spec(delta));
    }
}

/// Of the scale indices below `n`, the one with the least error; of
/// several with the same error, the lowest.
pub open spec fn best_scale(lms: SeaLMS, xs: Seq<i16>, sfb: int, w: int, n: int) -> int
    decreases n,
{
    if n <= 1 {
        0
    } else {
        let b = best_scale(lms, xs, sfb, w, n - 1);
        if encode_run(lms, xs, sfb, w, n - 1).error < encode_run(lms, xs, sfb, w, b).error {
            n - 1
        } else {
            b
        }
    }
}

/// The scale index chosen for the samples `xs`.
pub open spec fn slice_scale(lms: SeaLMS, xs: Seq<i16>, sfb: int, w: int) -> int {
    best_scale(lms, xs, sfb, w, scale_count(sfb))
}

/// The samples `xs` encoded at the scale index with the least error.
pub open spec fn encode_slice_spec(lms: SeaLMS, xs: Seq<i16>, sfb: int, w: int) -> SliceRun {
    encode_run(lms, xs, sfb, w, slice_scale(lms, xs, sfb, w))
}

/// Every code is below two to the `w`.
pub open spec fn codes_fit(codes: Seq<u8>, w: int) -> bool {
    forall|i: int| 0 <= i < codes.len() ==> (#[trigger] codes[i]) < 2 * half_levels(w)
}

/// A residual code fits into its width.
pub proof fn lemma_quantize_range(d: int, recip: int, w: int)
    requires
        valid_width(w),
    ensures
        0 <= quantize(d, recip, w) < 2 * half_levels(w),
{
}

/// An encoded row has one code for each sample, each fitting its width, a
/// predictor of 16-bit values and an error that fits 64 bits.
pub proof fn lemma_encode_run(lms: SeaLMS, xs: Seq<i16>, sfb: int, w: int, s: int)
    requires
        lms.wf(),
        valid_width(w),
    ensures
        encode_run(lms, xs, sfb, w, s).codes.len() == xs.len(),
        codes_fit(encode_run(lms, xs, sfb, w, s).codes, w),
        encode_run(lms, xs, sfb, w, s).lms.wf(),
        0 <= encode_run(lms, xs, sfb, w, s).error <= u64::MAX,
    decreases xs.len(),
{
    if xs.len() > 0 {
        lemma_encode_run(lms, xs.drop_last(), sfb, w, s);
        let prev = encode_run(lms, xs.drop_last(), sfb, w, s);
        let x = xs.last() as int;
        let code = sample_code(prev.lms, x, sfb, w, s);
        lemma_quantize_range(x - prev.lms.predict_spec(), reciprocal(sfb, w, s), w);
        let delta = dequant_value(sfb, w, s, code);
        lemma_update_wf(prev.lms, delta, prev.lms.reconstruct_spec(delta));
        let miss = x - prev.lms.reconstruct_spec(delta);
        assert(0 <= miss * miss) by (nonlinear_arith);
    }
}

/// Decoding the codes of an encoded row leaves the predictor where
/// encoding left it.
pub proof fn lemma_decode_of_encode(lms: SeaLMS, xs: Seq<i16>, sfb: int, w: int, s: int)
    requires
        lms.wf(),
        valid_width(w),
    ensures
        decode_run(lms, encode_run(lms, xs, sfb, w, s).codes, sfb, w, s).lms == encode_run(
            lms,
            xs,
            sfb,
            w,
            s,
        ).lms,
        decode_run(lms, encode_run(lms, xs, sfb, w, s).codes, sfb, w, s).samples.len() == xs.len(),
    decreases xs.len(),
{
    if xs.len() > 0 {
        lemma_decode_of_encode(lms, xs.drop_last(), sfb, w, s);
        lemma_encode_run(lms, xs.drop_last(), sfb, w, s);
        let prev = encode_run(lms, xs.drop_last(), sfb, w, s);
        let run = encode_run(lms, xs, sfb, w, s);
        let x = xs.last() as int;
        let code = sample_code(prev.lms, x, sfb, w, s);
        lemma_quantize_range(x - prev.lms.predict_spec(), reciprocal(sfb, w, s), w);
        assert(run.codes.drop_last() =~= prev.codes);
        assert(run.codes.last() == code as u8);
    }
}

/// The chosen scale index is a scale index, has the least error, and is the
/// lowest index with that error.
pub proof fn lemma_best_scale(lms: SeaLMS, xs: Seq<i16>, sfb: int, w: int, n: int)
    requires
        1 <= n,
    ensures
        0 <= best_scale(lms, xs, sfb, w, n) < n,
        forall|s: int|
            0 <= s < n ==> encode_run(lms, xs, sfb, w, best_scale(lms, xs, sfb, w, n)).error
                <= (#[trigger] encode_run(lms, xs, sfb, w, s)).error,
        forall|s: int|
            0 <= s < best_scale(lms, xs, sfb, w, n) ==> encode_run(
                lms,
                xs,
                sfb,
                w,
                best_scale(lms, xs, sfb, w, n),
            ).error < (#[trigger] encode_run(lms, xs, sfb, w, s)).error,
    decreases n,
{
    if n > 1 {
        lemma_best_scale(lms, xs, sfb, w, n - 1);
    }
}

/// The samples of one channel within a row of an interleaved buffer:
/// `count` samples, `stride` apart, the first at `start`.
pub open spec fn strided<T>(samples: Seq<T>, start: int, stride: int, count: int) -> Seq<T> {
    Seq::new(count as nat, |f: int| samples[start + f * stride])
}

/// What the encoder returns for one row of samples of one channel.
pub struct SliceResult {
    /// The chosen scale index.
    pub scale: u8,
    /// One residual code for each sample.
    pub codes: Vec<u8>,
    /// The sum of the squared errors, saturated to 64 bits.
    pub error: u64,
    /// The predictor after the last sample.
    pub lms: SeaLMS,
}

impl SliceResult {
    /// The result as a mathematical value.
    pub open spec fn run(&self) -> SliceRun {
        SliceRun { lms: self.lms, codes: self.codes@, error: self.error as int }
    }
}

/// The residual code of width `w` for the target delta `d`.
fn quantize_delta(d: i32, recip: i32, w: u8) -> (code: u8)
    requires
        valid_width(w as int),
        -1048576 <= d <= 1048576,
        0 <= recip <= 65536,
    ensures
        code == quantize(d as int, recip as int, w as int),
        code < 2 * half_levels(w as int),
{
    let half = half_of(w) as i64;
    let size: i64 = if d < 0 {
        -(d as i64)
    } else {
        d as i64
    };
    assert(0 <= size * recip <= 1048576 * 65536) by (nonlinear_arith)
        requires
            0 <= size <= 1048576,
            0 <= recip <= 65536,
    ;
    let scaled: i64 = (size * (recip as i64) + 32768) / 65536;
    let top: i64 = 2 * half - 1;
    let kept: i64 = if scaled > top {
        top
    } else if scaled < 0 {
        0
    } else {
        scaled
    };
    let code: i64 = kept / 2 + if d < 0 {
        half
    } else {
        0
    };
    code as u8
}

/// Encodes `count` samples of one channel with residual width `w` at scale
/// index `s`, without touching the caller's predictor.
#[verifier::rlimit(40)]
fn encode_at_scale(
    lms: &SeaLMS,
    tab: &SeaDequantTab,
    w: u8,
    s: u8,
    samples: &[i16],
    start: usize,
    stride: usize,
    count: usize,
) -> (r: SliceResult)
    requires
        lms.wf(),
        tab.wf(),
        valid_scale_bits(tab.scale_bits()),
        valid_width(w as int),
        s < scale_count(tab.scale_bits()),
        1 <= stride,
        start + count * stride <= samples@.len() + stride - 1,
        count > 0 ==> start < samples@.len(),
    ensures
        r.run() == encode_run(
            *lms,
            strided(samples@, start as int, stride as int, count as int),
            tab.scale_bits(),
            w as int,
            s as int,
        ),
        r.scale == s,
        r.lms.wf(),
        r.codes@.len() == count,
        codes_fit(r.codes@, w as int),
{
    let ghost sfb = tab.scale_bits();
    let ghost xs = strided(samples@, start as int, stride as int, count as int);
    let recip = tab.reciprocal_of(w, s);
    let mut cur: SeaLMS = *lms;
    let mut codes: Vec<u8> = Vec::new();
    let mut error: u64 = 0;
    let mut i: usize = 0;
    let mut at: usize = start;
    proof {
        assert(xs.take(0) =~= Seq::<i16>::empty());
    }
    while i < count
        invariant
            tab.wf(),
            valid_scale_bits(tab.scale_bits()),
            sfb == tab.scale_bits(),
            valid_width(w as int),
            s < scale_count(sfb),
            recip == reciprocal(sfb, w as int, s as int),
            0 <= recip <= 65536,
            1 <= stride,
            start + count * stride <= samples@.len() + stride - 1,
            xs == strided(samples@, start as int, stride as int, count as int),
            i <= count,
            i < count ==> at == start + i * stride,
            cur.wf(),
            (SliceRun { lms: cur, codes: codes@, error: error as int }) == encode_run(
                *lms,
                xs.take(i as int),
                sfb,
                w as int,
                s as int,
            ),
            codes@.len() == i,
            codes_fit(codes@, w as int),
        decreases count - i,
    {
        proof {
            assert(i * stride + stride <= count * stride) by (nonlinear_arith)
                requires
                    i < count,
                    1 <= stride,
            ;
            assert((i + 1) * stride == i * stride + stride) by (nonlinear_arith);
            assert(xs.take(i as int + 1).drop_last() =~= xs.take(i as int));
            assert(xs.take(i as int + 1).last() == samples@[at as int]);
        }
        let x: i32 = samples[at] as i32;
        let pred = cur.predict();
        let code = quantize_delta(x - pred, recip, w);
        let delta = tab.delta(w, s, code);
        let recon = clamp_i16(pred + delta);
        let miss: i64 = (x - recon as i32) as i64;
        assert(0 <= miss * miss <= 65535 * 65535) by (nonlinear_arith)
            requires
                -65535 <= miss <= 65535,
        ;
        let sq: u64 = (miss * miss) as u64;
        error = if error > u64::MAX - sq {
            u64::MAX
        } else {
            error + sq
        };
        cur.update(delta, recon);
        codes.push(code);
        i += 1;
        if i < count {
            proof {
                assert(i * stride + stride <= count * stride) by (nonlinear_arith)
                    requires
                        i < count,
                        1 <= stride,
                ;
            }
            at = at + stride;
        }
    }
    proof {
        assert(xs.take(count as int) =~= xs);
    }
    SliceResult { scale: s, codes, error, lms: cur }
}

/// Encodes `count` samples of one channel with residual width `w`: tries
/// every scale index and keeps the one with the least squared error, the
/// lowest such index if several have it.
///
/// The caller's predictor is not touched; the predictor after the row is
/// part of the result.
#[verifier::rlimit(40)]
pub fn encode_slice(
    lms: &SeaLMS,
    tab: &SeaDequantTab,
    w: u8,
    samples: &[i16],
    start: usize,
    stride: usize,
    count: usize,
) -> (r: SliceResult)
    requires
        lms.wf(),
        tab.wf(),
        valid_scale_bits(tab.scale_bits()),
        valid_width(w as int),
        1 <= stride,
        start + count * stride <= samples@.len() + stride - 1,
        count > 0 ==> start < samples@.len(),
    ensures
        r.run() == encode_slice_spec(
            *lms,
            strided(samples@, start as int, stride as int, count as int),
            tab.scale_bits(),
            w as int,
        ),
        r.scale == slice_scale(
            *lms,
            strided(samples@, start as int, stride as int, count as int),
            tab.scale_bits(),
            w as int,
        ),
        r.scale < scale_count(tab.scale_bits()),
        r.lms.wf(),
        r.codes@.len() == count,
        codes_fit(r.codes@, w as int),
{
    let ghost sfb = tab.scale_bits();
    let ghost xs = strided(samples@, start as int, stride as int, count as int);
    let scales = scales_of_tab(tab);
    let mut best = encode_at_scale(lms, tab, w, 0, samples, start, stride, count);
    let mut s: usize = 1;
    while s < scales
        invariant
            lms.wf(),
            tab.wf(),
            valid_scale_bits(tab.scale_bits()),
            sfb == tab.scale_bits(),
            scales == scale_count(sfb),
            valid_width(w as int),
            1 <= stride,
            start + count * stride <= samples@.len() + stride - 1,
            count > 0 ==> start < samples@.len(),
            xs == strided(samples@, start as int, stride as int, count as int),
            1 <= s <= scales,
            best.scale == best_scale(*lms, xs, sfb, w as int, s as int),
            best.run() == encode_run(*lms, xs, sfb, w as int, best.scale as int),
            best.scale < s,
            best.lms.wf(),
            best.codes@.len() == count,
            codes_fit(best.codes@, w as int),
        decreases scales - s,
    {
        let next = encode_at_scale(lms, tab, w, s as u8, samples, start, stride, count);
        if next.error < best.error {
            best = next;
        }
        s += 1;
    }
    best
}

/// The number of scale indices of a table.
fn scales_of_tab(tab: &SeaDequantTab) -> (n: usize)
    requires
        tab.wf(),
        valid_scale_bits(tab.scale_bits()),
    ensures
        n == scale_count(tab.scale_bits()),
{
    scales_of(tab.scale_factor_bits())
}

/// What one chunk is encoded from: the predictors at its start, the
/// interleaved samples, and for each slice its residual width.
pub ghost struct ChunkInput {
    /// The predictor of each channel at the start of the chunk.
    pub lms: Seq<SeaLMS>,
    /// The samples, interleaved by channel.
    pub samples: Seq<i16>,
    pub channels: int,
    /// The number of frames of a slice.
    pub slice_frames: int,
    /// The number of bits of a scale-factor index.
    pub scale_bits: int,
    /// The residual width of each slice, row by row, channel by channel.
    pub widths: Seq<int>,
}

impl ChunkInput {
    /// The layout of the samples.
    pub open spec fn grid(&self) -> Grid {
        Grid {
            channels: self.channels,
            slice_frames: self.slice_frames,
            frames: self.samples.len() as int / self.channels,
        }
    }

    /// The chunk holds whole frames, one predictor for each channel, and a
    /// supported width for each slice.
    pub open spec fn wf(&self) -> bool {
        &&& 1 <= self.channels
        &&& 1 <= self.slice_frames
        &&& valid_scale_bits(self.scale_bits)
        &&& self.lms.len() == self.channels
        &&& all_wf(self.lms)
        &&& self.samples.len() as int % self.channels == 0
        &&& self.widths.len() == self.grid().slices()
        &&& forall|j: int| 0 <= j < self.widths.len() ==> valid_width(#[trigger] self.widths[j])
    }

    /// The samples of channel `ch` in row `g`.
    pub open spec fn slice(&self, g: int, ch: int) -> Seq<i16> {
        strided(
            self.samples,
            g * self.slice_frames * self.channels + ch,
            self.channels,
            self.grid().row_frames(g),
        )
    }

    /// The residual width of the slice of channel `ch` in row `g`.
    pub open spec fn width_at(&self, g: int, ch: int) -> int {
        self.widths[self.grid().slice_index(g, ch)]
    }

    /// The predictor of each channel before row `g`.
    pub open spec fn lms_before(&self, g: int) -> Seq<SeaLMS>
        decreases g,
    {
        if g <= 0 {
            self.lms
        } else {
            let prev = self.lms_before(g - 1);
            Seq::new(
                self.channels as nat,
                |ch: int|
                    encode_slice_spec(
                        prev[ch],
                        self.slice(g - 1, ch),
                        self.scale_bits,
                        self.width_at(g - 1, ch),
                    ).lms,
            )
        }
    }

    /// What encoding the slice of channel `ch` in row `g` gives.
    pub open spec fn run(&self, g: int, ch: int) -> SliceRun {
        encode_slice_spec(
            self.lms_before(g)[ch],
            self.slice(g, ch),
            self.scale_bits,
            self.width_at(g, ch),
        )
    }

    /// The scale index of the slice of channel `ch` in row `g`.
    pub open spec fn scale_at(&self, g: int, ch: int) -> int {
        slice_scale(
            self.lms_before(g)[ch],
            self.slice(g, ch),
            self.scale_bits,
            self.width_at(g, ch),
        )
    }

    /// The residual code of the sample at index `k` of the buffer.
    pub open spec fn code_at(&self, k: int) -> u8 {
        let grid = self.grid();
        self.run(grid.row_at(k), grid.channel_at(k)).codes[grid.frame_at(k)]
    }

    /// The scale index of every slice.
    pub open spec fn scale_factors(&self) -> Seq<u8> {
        Seq::new(
            self.grid().slices() as nat,
            |j: int| self.scale_at(j / self.channels, j % self.channels) as u8,
        )
    }

    /// The residual code of every sample, in the order of the samples.
    pub open spec fn residuals(&self) -> Seq<u8> {
        Seq::new(self.samples.len(), |k: int| self.code_at(k))
    }

    /// The squared error of every slice.
    pub open spec fn errors(&self) -> Seq<int> {
        Seq::new(
            self.grid().slices() as nat,
            |j: int| self.run(j / self.channels, j % self.channels).error,
        )
    }

    /// The predictor of each channel after the chunk.
    pub open spec fn lms_after(&self) -> Seq<SeaLMS> {
        self.lms_before(self.grid().rows())
    }
}

/// The layout of a well-formed chunk covers its samples.
pub proof fn lemma_input_grid(inp: ChunkInput)
    requires
        inp.wf(),
    ensures
        inp.grid().wf(),
        inp.grid().samples() == inp.samples.len(),
{
    vstd::arithmetic::div_mod::lemma_fundamental_div_mod(inp.samples.len() as int, inp.channels);
    let frames = inp.samples.len() as int / inp.channels;
    assert(0 <= frames && frames * inp.channels == inp.samples.len()) by (nonlinear_arith)
        requires
            inp.samples.len() == inp.channels * frames,
            1 <= inp.channels,
    ;
}

/// Before every row there is one predictor of 16-bit values for each
/// channel.
pub proof fn lemma_lms_before(inp: ChunkInput, g: int)
    requires
        inp.wf(),
        0 <= g <= inp.grid().rows(),
    ensures
        inp.lms_before(g).len() == inp.channels,
        all_wf(inp.lms_before(g)),
    decreases g,
{
    if g > 0 {
        lemma_input_grid(inp);
        lemma_lms_before(inp, g - 1);
        let prev = inp.lms_before(g - 1);
        assert forall|ch: int| 0 <= ch < inp.channels implies (#[trigger] inp.lms_before(
            g,
        )[ch]).wf() by {
            lemma_slice_index(inp.grid(), g - 1, ch);
            lemma_slice_run(prev[ch], inp.slice(g - 1, ch), inp.scale_bits, inp.width_at(g - 1, ch));
        }
    }
}

/// An encoded slice has one fitting code for each sample and a predictor of
/// 16-bit values.
pub proof fn lemma_slice_run(lms: SeaLMS, xs: Seq<i16>, sfb: int, w: int)
    requires
        lms.wf(),
        valid_width(w),
    ensures
        encode_slice_spec(lms, xs, sfb, w).codes.len() == xs.len(),
        codes_fit(encode_slice_spec(lms, xs, sfb, w).codes, w),
        encode_slice_spec(lms, xs, sfb, w).lms.wf(),
        0 <= encode_slice_spec(lms, xs, sfb, w).error <= u64::MAX,
{
    let s = slice_scale(lms, xs, sfb, w);
    lemma_encode_run(lms, xs, sfb, w, s);
}

/// What a chunk is encoded from, with one predictor for each channel and
/// the residual widths given as bytes.
pub open spec fn chunk_input(
    lms: Seq<SeaLMS>,
    samples: Seq<i16>,
    slice_frames: int,
    scale_bits: int,
    widths: Seq<u8>,
) -> ChunkInput {
    ChunkInput {
        lms,
        samples,
        channels: lms.len() as int,
        slice_frames,
        scale_bits,
        widths: Seq::new(widths.len(), |j: int| widths[j] as int),
    }
}

/// The errors as mathematical integers.
pub open spec fn errors_view(errors: Seq<u64>) -> Seq<int> {
    Seq::new(errors.len(), |j: int| errors[j] as int)
}

/// The scale index and squared error of every slice of a chunk, and the
/// residual code of every sample.
pub struct SliceRows {
    pub scale_factors: Vec<u8>,
    pub residuals: Vec<u8>,
    pub errors: Vec<u64>,
}

/// `n` zero bytes.
pub fn zeros(n: usize) -> (v: Vec<u8>)
    ensures
        v@.len() == n,
        forall|i: int| 0 <= i < n ==> v@[i] == 0,
{
    let mut v: Vec<u8> = Vec::new();
    let mut i: usize = 0;
    while i < n
        invariant
            i <= n,
            v@.len() == i,
            forall|k: int| 0 <= k < i ==> v@[k] == 0,
        decreases n - i,
    {
        v.push(0);
        i += 1;
    }
    v
}

/// The number of rows of slices of `frames` frames.
pub fn count_rows(frames: usize, slice_frames: usize) -> (rows: usize)
    requires
        1 <= slice_frames,
    ensures
        rows == rows_of(frames as int, slice_frames as int),
        rows <= frames,
{
    proof {
        let grid = Grid { channels: 1, slice_frames: slice_frames as int, frames: frames as int };
        lemma_rows_count(grid);
    }
    frames / slice_frames + if frames % slice_frames == 0 {
        0
    } else {
        1
    }
}

/// The part of the encoder that the constant and the variable bitrate share:
/// the predictor of every channel, and the search for the scale factor of
/// each slice.
pub struct EncoderBase {
    pub channels: usize,
    pub scale_factor_bits: usize,
    pub lms: Vec<SeaLMS>,
}

impl EncoderBase {
    /// There is one predictor of 16-bit values for each channel.
    pub open spec fn wf(&self) -> bool {
        &&& 1 <= self.spec_channels()
        &&& self.lms@.len() == self.spec_channels()
        &&& all_wf(self.lms@)
    }

    /// The number of channels.
    pub open spec fn spec_channels(&self) -> int {
        self.channels as int
    }

    /// The number of bits of a scale-factor index.
    pub open spec fn spec_scale_bits(&self) -> int {
        self.scale_factor_bits as int
    }

    /// An encoder for `channels` channels with zeroed predictors.
    pub fn new(channels: usize, scale_factor_bits: usize) -> (e: Self)
        requires
            1 <= channels,
        ensures
            e.wf(),
            e.spec_channels() == channels,
            e.spec_scale_bits() == scale_factor_bits,
            forall|i: int| 0 <= i < channels ==> #[trigger] e.lms@[i] == SeaLMS::new_spec(),
    {
        let lms = SeaLMS::init(channels);
        proof {
            assert forall|i: int| 0 <= i < lms@.len() implies (#[trigger] lms@[i]).wf() by {
                assert(lms@[i] == SeaLMS::new_spec());
            }
        }
        EncoderBase { channels, scale_factor_bits, lms }
    }

    /// Encodes the samples of a chunk slice by slice, each slice with the
    /// residual width that `widths` gives it, and moves the predictors past
    /// the chunk.
    #[verifier::rlimit(40)]
    pub fn get_residuals_for_chunk(
        &mut self,
        tab: &SeaDequantTab,
        samples: &[i16],
        slice_frames: usize,
        widths: &Vec<u8>,
    ) -> (r: SliceRows)
        requires
            old(self).wf(),
            tab.wf(),
            chunk_input(
                old(self).lms@,
                samples@,
                slice_frames as int,
                tab.scale_bits(),
                widths@,
            ).wf(),
        ensures
            final(self).wf(),
            final(self).spec_channels() == old(self).spec_channels(),
            final(self).spec_scale_bits() == old(self).spec_scale_bits(),
            ({
                let inp = chunk_input(
                    old(self).lms@,
                    samples@,
                    slice_frames as int,
                    tab.scale_bits(),
                    widths@,
                );
                &&& r.scale_factors@ == inp.scale_factors()
                &&& r.residuals@ == inp.residuals()
                &&& errors_view(r.errors@) == inp.errors()
                &&& final(self).lms@ == inp.lms_after()
            }),
    {
        let ghost inp = chunk_input(
            old(self).lms@,
            samples@,
            slice_frames as int,
            tab.scale_bits(),
            widths@,
        );
        let ghost grid = inp.grid();
        let channels = self.channels;
        let total = samples.len();
        let frames = total / channels;
        let rows = count_rows(frames, slice_frames);
        proof {
            lemma_input_grid(inp);
            lemma_rows_count(grid);
        }
        let mut scale_factors: Vec<u8> = Vec::new();
        let mut errors: Vec<u64> = Vec::new();
        let mut residuals: Vec<u8> = zeros(total);
        let mut g: usize = 0;
        while g < rows
            invariant
                inp == chunk_input(
                    old(self).lms@,
                    samples@,
                    slice_frames as int,
                    tab.scale_bits(),
                    widths@,
                ),
                inp.wf(),
                grid == inp.grid(),
                grid.wf(),
                grid.samples() == total,
                tab.wf(),
                channels == self.channels,
                channels == inp.channels,
                self.scale_factor_bits == old(self).scale_factor_bits,
                total == samples@.len(),
                frames == grid.frames,
                rows == grid.rows(),
                g <= rows,
                self.lms@ == inp.lms_before(g as int),
                all_wf(self.lms@),
                scale_factors@.len() == g * channels,
                errors@.len() == g * channels,
                grid.slices() <= total,
                forall|j: int|
                    0 <= j < g * channels ==> #[trigger] scale_factors@[j] == inp.scale_factors()[j],
                forall|j: int| 0 <= j < g * channels ==> #[trigger] errors@[j] == inp.errors()[j],
                residuals@.len() == total,
                forall|k: int|
                    0 <= k < total && grid.passed(k, g as int, 0, 0) ==> #[trigger] residuals@[k]
                        == inp.code_at(k),
            decreases rows - g,
        {
            proof {
                lemma_rows(grid, g as int);
                lemma_lms_before(inp, g as int);
                lemma_lms_before(inp, g as int + 1);
                assert(g * slice_frames + slice_frames == (g + 1) * slice_frames)
                    by (nonlinear_arith);
            }
            let first = g * slice_frames;
            let count = if frames - first < slice_frames {
                frames - first
            } else {
                slice_frames
            };
            assert(count == grid.row_frames(g as int));
            proof {
                assert(first * channels + count * channels <= total) by (nonlinear_arith)
                    requires
                        first + count <= frames,
                        frames * channels == total,
                        1 <= channels,
                ;
                assert(0 <= first * channels) by (nonlinear_arith)
                    requires
                        0 <= first,
                        0 <= channels,
                ;
                assert(g * channels + channels == (g + 1) * channels) by (nonlinear_arith);
                assert(count * channels >= channels) by (nonlinear_arith)
                    requires
                        count >= 1,
                        channels >= 1,
                ;
            }
            let row_start = first * channels;
            let mut ch: usize = 0;
            while ch < channels
                invariant
                    inp == chunk_input(
                        old(self).lms@,
                        samples@,
                        slice_frames as int,
                        tab.scale_bits(),
                        widths@,
                    ),
                    inp.wf(),
                    grid == inp.grid(),
                    grid.wf(),
                    grid.samples() == total,
                    tab.wf(),
                    channels == self.channels,
                    channels == inp.channels,
                    self.scale_factor_bits == old(self).scale_factor_bits,
                    total == samples@.len(),
                    frames == grid.frames,
                    rows == grid.rows(),
                    g < rows,
                    first == g * slice_frames,
                    row_start == first * channels,
                    count == grid.row_frames(g as int),
                    1 <= count <= slice_frames,
                    row_start + count * channels <= total,
                    row_start + channels <= total,
                    g * channels + channels == (g + 1) * channels,
                    ch <= channels,
                    self.lms@.len() == channels,
                    all_wf(self.lms@),
                    inp.lms_before(g as int).len() == channels,
                    inp.lms_before(g as int + 1).len() == channels,
                    forall|c: int|
                        0 <= c < ch ==> #[trigger] self.lms@[c] == inp.lms_before(g as int + 1)[c],
                    forall|c: int|
                        ch <= c < channels ==> #[trigger] self.lms@[c] == inp.lms_before(
                            g as int,
                        )[c],
                    scale_factors@.len() == g * channels + ch,
                    errors@.len() == g * channels + ch,
                    grid.slices() <= total,
                    forall|j: int|
                        0 <= j < g * channels + ch ==> #[trigger] scale_factors@[j]
                            == inp.scale_factors()[j],
                    forall|j: int|
                        0 <= j < g * channels + ch ==> #[trigger] errors@[j] == inp.errors()[j],
                    residuals@.len() == total,
                    forall|k: int|
                        0 <= k < total && grid.passed(k, g as int, ch as int, 0)
                            ==> #[trigger] residuals@[k] == inp.code_at(k),
                decreases channels - ch,
            {
                let ghost j = grid.slice_index(g as int, ch as int);
                proof {
                    lemma_slice_index(grid, g as int, ch as int);
                    assert(inp.widths[j] == widths@[j] as int);
                    assert(valid_width(inp.widths[j]));
                    assert(row_start == g * slice_frames * channels);
                }
                let w = widths[g * channels + ch];
                let res = encode_slice(
                    &self.lms[ch],
                    tab,
                    w,
                    samples,
                    row_start + ch,
                    channels,
                    count,
                );
                proof {
                    assert(res.run() == inp.run(g as int, ch as int));
                    assert(res.scale as int == inp.scale_at(g as int, ch as int));
                    assert(inp.scale_factors()[j] == inp.scale_at(j / inp.channels, j
                        % inp.channels) as u8);
                    assert(inp.errors()[j] == inp.run(j / inp.channels, j % inp.channels).error);
                    assert(res.lms == inp.lms_before(g as int + 1)[ch as int]);
                }
                scale_factors.push(res.scale);
                errors.push(res.error);
                self.lms[ch] = res.lms;
                let mut f: usize = 0;
                while f < count
                    invariant
                        grid.wf(),
                        grid == inp.grid(),
                        grid.samples() == total,
                        g < rows,
                        rows == grid.rows(),
                        ch < channels,
                        channels == grid.channels,
                        slice_frames == grid.slice_frames,
                        first == g * slice_frames,
                        row_start == first * channels,
                        count == grid.row_frames(g as int),
                        row_start + count * channels <= total,
                        f <= count,
                        res.codes@.len() == count,
                        res.run() == inp.run(g as int, ch as int),
                        residuals@.len() == total,
                        forall|k: int|
                            0 <= k < total && grid.passed(k, g as int, ch as int, f as int)
                                ==> #[trigger] residuals@[k] == inp.code_at(k),
                    decreases count - f,
                {
                    proof {
                        lemma_index(grid, g as int, f as int, ch as int);
                        assert(f * channels + channels <= count * channels) by (nonlinear_arith)
                            requires
                                f < count,
                                0 <= channels,
                        ;
                    }
                    let at = row_start + f * channels + ch;
                    let ghost before = residuals@;
                    residuals[at] = res.codes[f];
                    proof {
                        assert(at == grid.index(g as int, f as int, ch as int));
                        assert forall|k: int|
                            0 <= k < total && grid.passed(
                                k,
                                g as int,
                                ch as int,
                                f as int + 1,
                            ) implies #[trigger] residuals@[k] == inp.code_at(k) by {
                            lemma_coords(grid, k);
                            if k != at {
                                assert(grid.passed(k, g as int, ch as int, f as int));
                                assert(residuals@[k] == before[k]);
                            }
                        }
                    }
                    f += 1;
                }
                proof {
                    assert forall|k: int|
                        0 <= k < total && grid.passed(
                            k,
                            g as int,
                            ch as int + 1,
                            0,
                        ) implies #[trigger] residuals@[k] == inp.code_at(k) by {
                        lemma_coords(grid, k);
                        assert(grid.passed(k, g as int, ch as int, count as int));
                    }
                }
                ch += 1;
            }
            proof {
                assert(self.lms@ =~= inp.lms_before(g as int + 1));
                assert forall|k: int|
                    0 <= k < total && grid.passed(
                        k,
                        g as int + 1,
                        0,
                        0,
                    ) implies #[trigger] residuals@[k] == inp.code_at(k) by {
                    lemma_coords(grid, k);
                    assert(grid.passed(k, g as int, channels as int, 0));
                }
            }
            g += 1;
        }
        proof {
            assert(scale_factors@ =~= inp.scale_factors());
            assert(errors_view(errors@) =~= inp.errors());
            assert forall|k: int| 0 <= k < total implies residuals@[k] == inp.residuals()[k] by {
                lemma_coords(grid, k);
                assert(grid.passed(k, rows as int, 0, 0));
            }
            assert(residuals@ =~= inp.residuals());
        }
        SliceRows { scale_factors, residuals, errors }
    }
}

} // verus!
