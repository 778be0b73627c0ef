use crate::codec::bits::{
    bits_of, byte_widths, bytes_for, bytes_holding, field_limit, fields_bits, fields_from_bits,
    lemma_fields_bits_len, lemma_pack_round_trip, lemma_total_width, pack_fields, packed,
    sum_widths, total_width, unpack_fields, values_fit, widths_ok, widths_view,
};
use crate::codec::common::{clamp_i16, SeaError};
use crate::codec::dqt::{half_levels, scale_count, valid_scale_bits, valid_width, SeaDequantTab};
use crate::codec::encoder_base::{
    codes_fit, count_rows, decode_run, lemma_best_scale, lemma_decode_of_encode, lemma_decode_run,
    lemma_input_grid, lemma_lms_before, lemma_slice_run, strided, ChunkInput, DecodeRun,
};
use crate::codec::encoder_cbr::uniform_widths;
use crate::codec::file::SeaFileHeader;
use crate::codec::layout::{
    lemma_coords, lemma_index, lemma_rows, lemma_rows_count, lemma_slice_index, Grid,
};
use crate::codec::lms::{all_wf, lemma_lms_round_trip, lemma_seed_bytes, seed_bytes, SeaLMS};
use vstd::prelude::*;

verus! {

/// The byte that opens a chunk of constant bitrate.
pub const CHUNK_KIND_CBR: u8 = 1;

/// The byte that opens a chunk of variable bitrate.
pub const CHUNK_KIND_VBR: u8 = 2;

/// The third byte of every chunk, which is reserved.
pub const CHUNK_RESERVED: u8 = 0x5A;

/// The number of bytes of a chunk before its predictors.
pub const CHUNK_HEAD_BYTES: usize = 3;

/// Whether the residual width is the same in all slices of a chunk.
#[derive(Debug, Clone, Copy, PartialEq, Eq, Structural)]
pub enum SeaChunkType {
    Cbr,
    Vbr,
}

/// One chunk: all that is needed to decode its frames.
pub struct SeaChunk {
    pub chunk_type: SeaChunkType,
    pub scale_factor_bits: u8,
    pub scale_factor_frames: u8,
    /// The base residual width: the width of every slice at a constant
    /// bitrate, the width `t` of the buckets `t - 1` to `t + 2` at a variable one.
    pub residual_size: u8,
    pub channels: usize,
    pub frames: usize,
    /// The predictor of every channel at the start of the chunk.
    pub lms: Vec<SeaLMS>,
    /// The scale index of every slice.
    pub scale_factors: Vec<u8>,
    /// The residual width of every slice.
    pub vbr_residual_sizes: Vec<u8>,
    /// The residual code of every sample.
    pub residuals: Vec<u8>,
}

/// A chunk as a mathematical value.
pub ghost struct ChunkView {
    pub vbr: bool,
    pub scale_bits: int,
    pub slice_frames: int,
    pub base_width: int,
    pub channels: int,
    pub frames: int,
    pub lms: Seq<SeaLMS>,
    pub scale_factors: Seq<u8>,
    pub widths: Seq<u8>,
    pub residuals: Seq<u8>,
}

impl View for SeaChunk {
    type V = ChunkView;

    open spec fn view(&self) -> ChunkView {
        ChunkView {
            vbr: self.chunk_type == SeaChunkType::Vbr,
            scale_bits: self.scale_factor_bits as int,
            slice_frames: self.scale_factor_frames as int,
            base_width: self.residual_size as int,
            channels: self.channels as int,
            frames: self.frames as int,
            lms: self.lms@,
            scale_factors: self.scale_factors@,
            widths: self.vbr_residual_sizes@,
            residuals: self.residuals@,
        }
    }
}

/// Whether `base` can be the base residual width of a chunk.
pub open spec fn valid_base(vbr: bool, base: int) -> bool {
    if vbr {
        2 <= base <= 6
    } else {
        valid_width(base)
    }
}

/// Whether a slice of a chunk with base width `base` can have the residual
/// width `w`.
pub open spec fn width_allowed(vbr: bool, base: int, w: int) -> bool {
    if vbr {
        base - 1 <= w <= base + 2
    } else {
        w == base
    }
}

impl ChunkView {
    /// The layout of the samples.
    pub open spec fn grid(&self) -> Grid {
        Grid { channels: self.channels, slice_frames: self.slice_frames, frames: self.frames }
    }

    /// The counts of the chunk are such as a chunk header and a file header
    /// can state.
    pub open spec fn shape_ok(&self) -> bool {
        &&& 1 <= self.channels <= 255
        &&& 1 <= self.slice_frames <= 255
        &&& 0 <= self.frames <= 65535
        &&& valid_scale_bits(self.scale_bits)
        &&& valid_base(self.vbr, self.base_width)
    }

    /// The chunk holds a predictor for each channel, a scale index and a
    /// width for each slice and a residual code for each sample, each within
    /// its range.
    pub open spec fn wf(&self) -> bool {
        &&& self.shape_ok()
        &&& self.lms.len() == self.channels
        &&& all_wf(self.lms)
        &&& self.scale_factors.len() == self.grid().slices()
        &&& forall|j: int|
            0 <= j < self.scale_factors.len() ==> (#[trigger] self.scale_factors[j]) < scale_count(
                self.scale_bits,
            )
        &&& self.widths.len() == self.grid().slices()
        &&& forall|j: int|
            0 <= j < self.widths.len() ==> width_allowed(
                self.vbr,
                self.base_width,
                #[trigger] self.widths[j] as int,
            )
        &&& self.residuals.len() == self.grid().samples()
        &&& forall|k: int|
            0 <= k < self.residuals.len() ==> (#[trigger] self.residuals[k]) < 2 * half_levels(
                self.widths[self.grid().slice_at(k)] as int,
            )
    }

    /// The residual width of every sample: that of its slice.
    pub open spec fn sample_widths(&self) -> Seq<u8> {
        sample_widths_of(self.widths, self.grid())
    }

    /// The two-bit code of the residual width of every slice: the width less
    /// the lowest width `base - 1`.
    pub open spec fn width_codes(&self) -> Seq<u8> {
        width_codes_of(self.widths, self.base_width)
    }

    /// The first three bytes: the kind, the base residual width, and the
    /// reserved byte.
    pub open spec fn head(&self) -> Seq<u8> {
        seq![
            if self.vbr {
                CHUNK_KIND_VBR
            } else {
                CHUNK_KIND_CBR
            },
            self.base_width as u8,
            CHUNK_RESERVED,
        ]
    }

    /// The block of scale indices, each in `scale_bits` bits.
    pub open spec fn scale_block(&self) -> Seq<u8> {
        packed(
            fields_bits(
                self.scale_factors,
                widths_view(uniform_widths(self.grid().slices(), self.scale_bits as u8)),
            ),
        )
    }

    /// The block of width codes, each in two bits; nothing at a constant
    /// bitrate.
    pub open spec fn width_block(&self) -> Seq<u8> {
        if self.vbr {
            packed(
                fields_bits(
                    self.width_codes(),
                    widths_view(uniform_widths(self.grid().slices(), 2)),
                ),
            )
        } else {
            Seq::<u8>::empty()
        }
    }

    /// The block of residual codes, each in the width of its slice.
    pub open spec fn residual_block(&self) -> Seq<u8> {
        packed(fields_bits(self.residuals, widths_view(self.sample_widths())))
    }

    /// The bytes of the chunk: the head, the predictors, and the three
    /// blocks, each block filled up to a whole byte.
    #[verifier::opaque]
    pub open spec fn bytes(&self) -> Seq<u8> {
        self.head() + seed_bytes(self.lms) + self.scale_block() + self.width_block()
            + self.residual_block()
    }
}

/// The residual width of every sample, given that of every slice.
pub open spec fn sample_widths_of(widths: Seq<u8>, grid: Grid) -> Seq<u8> {
    Seq::new(grid.samples() as nat, |k: int| widths[grid.slice_at(k)])
}

/// The two-bit code of every residual width.
pub open spec fn width_codes_of(widths: Seq<u8>, base: int) -> Seq<u8> {
    Seq::new(widths.len(), |j: int| (widths[j] - base + 1) as u8)
}

/// The residual width of every sample of a chunk, given that of every
/// slice.
#[verifier::rlimit(40)]
pub fn sample_widths(widths: &Vec<u8>, channels: usize, slice_frames: usize, frames: usize) -> (r:
    Vec<u8>)
    requires
        1 <= channels <= 255,
        1 <= slice_frames,
        frames <= 65535,
        widths@.len() == (Grid {
            channels: channels as int,
            slice_frames: slice_frames as int,
            frames: frames as int,
        }).slices(),
    ensures
        r@ == sample_widths_of(
            widths@,
            Grid {
                channels: channels as int,
                slice_frames: slice_frames as int,
                frames: frames as int,
            },
        ),
{
    let ghost grid = Grid {
        channels: channels as int,
        slice_frames: slice_frames as int,
        frames: frames as int,
    };
    assert(frames * channels <= 65535 * 255) by (nonlinear_arith)
        requires
            frames <= 65535,
            channels <= 255,
    ;
    let total = frames * channels;
    let mut r: Vec<u8> = Vec::new();
    let mut k: usize = 0;
    while k < total
        invariant
            grid == (Grid {
                channels: channels as int,
                slice_frames: slice_frames as int,
                frames: frames as int,
            }),
            grid.wf(),
            total == grid.samples(),
            widths@.len() == grid.slices(),
            1 <= channels,
            1 <= slice_frames,
            k <= total,
            r@.len() == k,
            forall|i: int| 0 <= i < k ==> #[trigger] r@[i] == widths@[grid.slice_at(i)],
        decreases total - k,
    {
        proof {
            lemma_coords(grid, k as int);
            lemma_rows_count(grid);
            assert(0 <= grid.row_at(k as int) * channels) by (nonlinear_arith)
                requires
                    0 <= grid.row_at(k as int),
                    0 <= channels,
            ;
        }
        let frame = k / channels;
        let ch = k % channels;
        let g = frame / slice_frames;
        r.push(widths[g * channels + ch]);
        k += 1;
    }
    assert(r@ =~= sample_widths_of(widths@, grid));
    r
}

impl SeaChunk {
    /// The chunk that holds what the samples of a chunk were encoded to:
    /// the predictors at its start, and the scale index and residual width
    /// of every slice and the residual code of every sample.
    pub fn new(
        file_header: &SeaFileHeader,
        lms: &Vec<SeaLMS>,
        chunk_type: SeaChunkType,
        scale_factor_bits: u8,
        scale_factor_frames: u8,
        residual_size: u8,
        scale_factors: Vec<u8>,
        residual_bits: Vec<u8>,
        residuals: Vec<u8>,
    ) -> (c: Self)
        requires
            file_header.channels >= 1,
        ensures
            c@ == (ChunkView {
                vbr: chunk_type == SeaChunkType::Vbr,
                scale_bits: scale_factor_bits as int,
                slice_frames: scale_factor_frames as int,
                base_width: residual_size as int,
                channels: file_header.channels as int,
                frames: residuals@.len() as int / file_header.channels as int,
                lms: lms@,
                scale_factors: scale_factors@,
                widths: residual_bits@,
                residuals: residuals@,
            }),
    {
        let channels = file_header.channels as usize;
        let frames = residuals.len() / channels;
        let seed = lms.clone();
        assert(seed@ =~= lms@);
        SeaChunk {
            chunk_type,
            scale_factor_bits,
            scale_factor_frames,
            residual_size,
            channels,
            frames,
            lms: seed,
            scale_factors,
            vbr_residual_sizes: residual_bits,
            residuals,
        }
    }

    /// Whether the slices of a last row that is not full have the base
    /// width.
    pub fn last_row_is_plain(&self) -> (r: bool)
        requires
            self@.wf(),
        ensures
            r == last_row_plain(self@),
    {
        let whole = self.frames / self.scale_factor_frames as usize;
        proof {
            lemma_rows_count(self@.grid());
            assert(0 <= whole * self.channels <= self@.grid().slices()) by (nonlinear_arith)
                requires
                    0 <= whole <= self@.grid().rows(),
                    self@.grid().slices() == self@.grid().rows() * self.channels,
                    0 <= self.channels,
            ;
        }
        let slices = self.slices();
        let mut j: usize = whole * self.channels;
        while j < slices
            invariant
                self@.wf(),
                slices == self@.widths.len(),
                whole * self.channels <= j <= slices,
                whole == self@.grid().whole_rows(),
                forall|i: int|
                    whole * self.channels <= i < j ==> #[trigger] self@.widths[i]
                        == self@.base_width,
            decreases slices - j,
        {
            if self.vbr_residual_sizes[j] != self.residual_size {
                return false;
            }
            j += 1;
        }
        true
    }

    /// The number of slices.
    pub fn slices(&self) -> (n: usize)
        requires
            self@.shape_ok(),
        ensures
            n == self@.grid().slices(),
            n <= self@.grid().samples() <= 65535 * 255,
    {
        proof {
            lemma_rows_count(self@.grid());
            assert(self.frames * self.channels <= 65535 * 255) by (nonlinear_arith)
                requires
                    self.frames <= 65535,
                    self.channels <= 255,
            ;
        }
        let rows = crate::codec::encoder_base::count_rows(
            self.frames,
            self.scale_factor_frames as usize,
        );
        proof {
            assert(rows * self.channels <= self.frames * self.channels) by (nonlinear_arith)
                requires
                    rows <= self.frames,
                    0 <= self.channels,
            ;
        }
        rows * self.channels
    }

    /// The bytes of the chunk.
    #[verifier::rlimit(40)]
    pub fn serialize(&self) -> (output: Vec<u8>)
        requires
            self@.wf(),
        ensures
            output@ == self@.bytes(),
    {
        let ghost view = self@;
        let ghost grid = view.grid();
        let slices = self.slices();
        let mut output: Vec<u8> = Vec::new();
        output.push(
            match self.chunk_type {
                SeaChunkType::Cbr => CHUNK_KIND_CBR,
                SeaChunkType::Vbr => CHUNK_KIND_VBR,
            },
        );
        output.push(self.residual_size);
        output.push(CHUNK_RESERVED);
        assert(output@ =~= view.head());
        let mut c: usize = 0;
        while c < self.channels
            invariant
                view == self@,
                view.wf(),
                c <= self.channels,
                output@ == view.head() + seed_bytes(self.lms@.take(c as int)),
            decreases self.channels - c,
        {
            proof {
                assert(self.lms@.take(c as int + 1).drop_last() =~= self.lms@.take(c as int));
                assert(self.lms@[c as int].wf());
            }
            self.lms[c].serialize(&mut output);
            assert(output@ =~= view.head() + seed_bytes(self.lms@.take(c as int + 1)));
            c += 1;
        }
        assert(self.lms@.take(self.channels as int) =~= self.lms@);
        let mut scale_widths: Vec<u8> = Vec::new();
        scale_widths.resize(slices, self.scale_factor_bits);
        assert(scale_widths@ =~= uniform_widths(slices as int, self.scale_factor_bits));
        let scale_block = pack_fields(&self.scale_factors, &scale_widths);
        output.extend_from_slice(scale_block.as_slice());
        match self.chunk_type {
            SeaChunkType::Cbr => {},
            SeaChunkType::Vbr => {
                let mut codes: Vec<u8> = Vec::new();
                let mut j: usize = 0;
                while j < slices
                    invariant
                        view == self@,
                        view.wf(),
                        view.vbr,
                        slices == view.widths.len(),
                        j <= slices,
                        codes@.len() == j,
                        forall|i: int|
                            0 <= i < j ==> #[trigger] codes@[i] == (view.widths[i]
                                - view.base_width + 1) as u8,
                    decreases slices - j,
                {
                    assert(width_allowed(
                        view.vbr,
                        view.base_width,
                        view.widths[j as int] as int,
                    ));
                    codes.push(self.vbr_residual_sizes[j] + 1 - self.residual_size);
                    j += 1;
                }
                assert(codes@ =~= view.width_codes());
                let mut twos: Vec<u8> = Vec::new();
                twos.resize(slices, 2);
                assert(twos@ =~= uniform_widths(slices as int, 2));
                let width_block = pack_fields(&codes, &twos);
                output.extend_from_slice(width_block.as_slice());
            },
        }
        let per_sample = sample_widths(
            &self.vbr_residual_sizes,
            self.channels,
            self.scale_factor_frames as usize,
            self.frames,
        );
        proof {
            assert forall|k: int| 0 <= k < per_sample@.len() implies (#[trigger] per_sample@[k])
                <= 8 by {
                lemma_coords(grid, k);
                assert(width_allowed(
                    view.vbr,
                    view.base_width,
                    view.widths[grid.slice_at(k)] as int,
                ));
            }
        }
        let residual_block = pack_fields(&self.residuals, &per_sample);
        output.extend_from_slice(residual_block.as_slice());
        reveal(ChunkView::bytes);
        assert(output@ =~= view.bytes());
        output
    }
}

/// The residual widths that two-bit codes stand for.
pub open spec fn widths_from_codes(codes: Seq<u8>, base: int) -> Seq<u8> {
    Seq::new(codes.len(), |j: int| (base - 1 + codes[j]) as u8)
}

/// Fields of one width take that width times their number of bits.
pub proof fn lemma_uniform_total(n: int, w: u8)
    requires
        0 <= n,
    ensures
        total_width(widths_view(uniform_widths(n, w))) == n * w,
        widths_ok(widths_view(uniform_widths(n, w))) <==> (n == 0 || w <= 8),
        byte_widths(uniform_widths(n, w)) <==> (n == 0 || w <= 8),
    decreases n,
{
    let ws = widths_view(uniform_widths(n, w));
    if n > 0 {
        lemma_uniform_total(n - 1, w);
        assert(ws.drop_last() =~= widths_view(uniform_widths(n - 1, w)));
        assert(n * w == (n - 1) * w + w) by (nonlinear_arith);
        assert(ws[0] == w);
        assert(uniform_widths(n, w)[0] == w);
    } else {
        assert(n * w == 0) by (nonlinear_arith)
            requires
                n == 0,
        ;
    }
}

/// The number of frames of the next chunk of a stream: a whole chunk, or
/// what is left of the stream when that is less.
pub open spec fn chunk_frames(frames_per_chunk: int, remaining: Option<usize>) -> int {
    match remaining {
        Some(r) => if r < frames_per_chunk {
            r as int
        } else {
            frames_per_chunk
        },
        None => frames_per_chunk,
    }
}

/// What the first three bytes of a chunk state, and the scale of the stream.
pub ghost struct ChunkHead {
    pub vbr: bool,
    pub scale_bits: int,
    pub base_width: int,
    pub slice_frames: int,
}

/// What the first three bytes of `b` state, with the scale that the file
/// header states, or the reason why they are not the head of a chunk of
/// such a stream.
pub open spec fn parse_head(b: Seq<u8>, scale_bits: int, slice_frames: int) -> Result<
    ChunkHead,
    SeaError,
> {
    if b.len() < 3 {
        Err(SeaError::EndOfFile)
    } else {
        let vbr = b[0] == CHUNK_KIND_VBR;
        let base = b[1] as int;
        if (b[0] != CHUNK_KIND_CBR && b[0] != CHUNK_KIND_VBR) || b[2] != CHUNK_RESERVED
            || !valid_scale_bits(scale_bits) || !valid_base(vbr, base) || !(1 <= slice_frames
            <= 255) {
            Err(SeaError::InvalidFile)
        } else {
            Ok(ChunkHead { vbr, scale_bits, base_width: base, slice_frames })
        }
    }
}

/// Where the predictors of a chunk end.
pub open spec fn seeds_end(channels: int) -> int {
    3 + 16 * channels
}

/// Where the block of scale indices of a chunk ends.
pub open spec fn scales_end(head: ChunkHead, grid: Grid) -> int {
    seeds_end(grid.channels) + bytes_for(grid.slices() * head.scale_bits)
}

/// Where the block of width codes of a chunk ends.
pub open spec fn widths_end(head: ChunkHead, grid: Grid) -> int {
    scales_end(head, grid) + if head.vbr {
        bytes_for(2 * grid.slices())
    } else {
        0
    }
}

/// The residual width of every slice of the chunk that `b` holds.
pub open spec fn parsed_widths(b: Seq<u8>, head: ChunkHead, grid: Grid) -> Seq<u8> {
    if head.vbr {
        widths_from_codes(
            fields_from_bits(
                bits_of(b.subrange(scales_end(head, grid), widths_end(head, grid))),
                widths_view(uniform_widths(grid.slices(), 2)),
            ),
            head.base_width,
        )
    } else {
        uniform_widths(grid.slices(), head.base_width as u8)
    }
}

/// Where the chunk that `b` holds ends.
pub open spec fn chunk_end(b: Seq<u8>, head: ChunkHead, grid: Grid) -> int {
    widths_end(head, grid) + bytes_for(
        total_width(widths_view(sample_widths_of(parsed_widths(b, head, grid), grid))),
    )
}

/// The chunk with the head `head` that the bytes `b` hold, or `EndOfFile`
/// when they end too early.
pub open spec fn parse_body(b: Seq<u8>, head: ChunkHead, channels: int, frames: int) -> Result<
    ChunkView,
    SeaError,
> {
    let grid = Grid { channels, slice_frames: head.slice_frames, frames };
    if b.len() < widths_end(head, grid) {
        Err(SeaError::EndOfFile)
    } else if b.len() < chunk_end(b, head, grid) {
        Err(SeaError::EndOfFile)
    } else {
        let widths = parsed_widths(b, head, grid);
        Ok(
            ChunkView {
                vbr: head.vbr,
                scale_bits: head.scale_bits,
                slice_frames: head.slice_frames,
                base_width: head.base_width,
                channels,
                frames,
                lms: Seq::new(channels as nat, |c: int| SeaLMS::from_bytes_spec(b, 3 + 16 * c)),
                scale_factors: fields_from_bits(
                    bits_of(b.subrange(seeds_end(channels), scales_end(head, grid))),
                    widths_view(uniform_widths(grid.slices(), head.scale_bits as u8)),
                ),
                widths,
                residuals: fields_from_bits(
                    bits_of(b.subrange(widths_end(head, grid), chunk_end(b, head, grid))),
                    widths_view(sample_widths_of(widths, grid)),
                ),
            },
        )
    }
}

/// The chunk of `frames` frames of `channels` channels that the bytes `b`
/// begin with, in a stream of the scale given, or the reason why they begin
/// with none: `EndOfFile` when they end too early, `InvalidFile` when the
/// head holds a value that no chunk has.
pub open spec fn parse_chunk(
    b: Seq<u8>,
    channels: int,
    frames: int,
    scale_bits: int,
    slice_frames: int,
) -> Result<ChunkView, SeaError> {
    match parse_head(b, scale_bits, slice_frames) {
        Ok(head) => parse_body(b, head, channels, frames),
        Err(e) => Err(e),
    }
}

/// What the first three bytes of a chunk state, and the scale of the stream.
struct HeadFields {
    vbr: bool,
    scale_bits: u8,
    base: u8,
    slice_frames: u8,
}

impl HeadFields {
    spec fn view(&self) -> ChunkHead {
        ChunkHead {
            vbr: self.vbr,
            scale_bits: self.scale_bits as int,
            base_width: self.base as int,
            slice_frames: self.slice_frames as int,
        }
    }
}

/// Reads the first three bytes of a chunk of a stream of the scale given.
fn read_head(encoded: &[u8], sfb: u8, sf: u8) -> (r: Result<HeadFields, SeaError>)
    ensures
        match r {
            Ok(h) => parse_head(encoded@, sfb as int, sf as int) == Ok::<ChunkHead, SeaError>(
                h.view(),
            ) && h.scale_bits == sfb && h.slice_frames == sf,
            Err(e) => parse_head(encoded@, sfb as int, sf as int) == Err::<ChunkHead, SeaError>(e),
        },
{
    if encoded.len() < CHUNK_HEAD_BYTES {
        return Err(SeaError::EndOfFile);
    }
    let kind = encoded[0];
    let base: u8 = encoded[1];
    if kind != CHUNK_KIND_CBR && kind != CHUNK_KIND_VBR {
        return Err(SeaError::InvalidFile);
    }
    let vbr = kind == CHUNK_KIND_VBR;
    if encoded[2] != CHUNK_RESERVED || sfb < 2 || sfb > 6 || sf == 0 {
        return Err(SeaError::InvalidFile);
    }
    if vbr {
        if base < 2 || base > 6 {
            return Err(SeaError::InvalidFile);
        }
    } else {
        if base < 1 || base > 8 {
            return Err(SeaError::InvalidFile);
        }
    }
    Ok(HeadFields { vbr, scale_bits: sfb, base, slice_frames: sf })
}

/// Reads the predictors of a chunk.
fn read_seeds(encoded: &[u8], channels: usize) -> (lms: Vec<SeaLMS>)
    requires
        channels <= 255,
        3 + 16 * channels <= encoded@.len(),
    ensures
        lms@ == Seq::new(channels as nat, |c: int| SeaLMS::from_bytes_spec(encoded@, 3 + 16 * c)),
        all_wf(lms@),
{
    let mut lms: Vec<SeaLMS> = Vec::new();
    let mut c: usize = 0;
    while c < channels
        invariant
            c <= channels <= 255,
            3 + 16 * channels <= encoded@.len(),
            lms@.len() == c,
            forall|i: int|
                0 <= i < c ==> #[trigger] lms@[i] == SeaLMS::from_bytes_spec(encoded@, 3 + 16 * i)
                    && lms@[i].wf(),
        decreases channels - c,
    {
        lms.push(SeaLMS::from_bytes(encoded, CHUNK_HEAD_BYTES + 16 * c));
        c += 1;
    }
    assert(lms@ =~= Seq::new(
        channels as nat,
        |c: int| SeaLMS::from_bytes_spec(encoded@, 3 + 16 * c),
    ));
    lms
}

/// Reads `count` fields of `width` bits from `block`, which holds them.
fn read_uniform(block: &[u8], count: usize, width: u8) -> (values: Vec<u8>)
    requires
        1 <= width <= 8,
        count <= 65535 * 255,
        block@.len() == bytes_for(count * width),
    ensures
        values@ == fields_from_bits(
            bits_of(block@),
            widths_view(uniform_widths(count as int, width)),
        ),
        values@.len() == count,
        forall|j: int| 0 <= j < count ==> (#[trigger] values@[j]) < field_limit(width as int),
{
    let mut widths: Vec<u8> = Vec::new();
    widths.resize(count, width);
    assert(widths@ =~= uniform_widths(count as int, width));
    proof {
        lemma_uniform_total(count as int, width);
    }
    match unpack_fields(block, &widths) {
        Ok(v) => {
            proof {
                assert forall|j: int| 0 <= j < count implies (#[trigger] v@[j]) < field_limit(
                    width as int,
                ) by {
                    assert(v@[j] < field_limit(widths_view(widths@)[j]));
                }
            }
            v
        },
        Err(_) => Vec::new(),
    }
}

/// Reads the residual width of every slice of a chunk.
#[verifier::rlimit(40)]
fn read_widths(encoded: &[u8], head: &HeadFields, channels: usize, frames: usize, slices: usize) -> (widths:
    Vec<u8>)
    requires
        1 <= channels <= 255,
        frames <= 65535,
        parse_head(encoded@, head.scale_bits as int, head.slice_frames as int) == Ok::<
            ChunkHead,
            SeaError,
        >(head.view()),
        slices == (Grid {
            channels: channels as int,
            slice_frames: head.slice_frames as int,
            frames: frames as int,
        }).slices(),
        slices <= 65535 * 255,
        widths_end(
            head.view(),
            Grid {
                channels: channels as int,
                slice_frames: head.slice_frames as int,
                frames: frames as int,
            },
        ) <= encoded@.len(),
    ensures
        widths@ == parsed_widths(
            encoded@,
            head.view(),
            Grid {
                channels: channels as int,
                slice_frames: head.slice_frames as int,
                frames: frames as int,
            },
        ),
        widths@.len() == slices,
        forall|j: int|
            0 <= j < slices ==> width_allowed(
                head.vbr,
                head.base as int,
                #[trigger] widths@[j] as int,
            ),
{
    let ghost grid = Grid {
        channels: channels as int,
        slice_frames: head.slice_frames as int,
        frames: frames as int,
    };
    let base = head.base;
    proof {
        assert(slices * head.scale_bits <= 65535 * 255 * 6) by (nonlinear_arith)
            requires
                slices <= 65535 * 255,
                head.scale_bits <= 6,
        ;
    }
    if head.vbr {
        let from = CHUNK_HEAD_BYTES + 16 * channels + bytes_holding(
            slices * head.scale_bits as usize,
        );
        let to = from + bytes_holding(2 * slices);
        let codes = read_uniform(vstd::slice::slice_subrange(encoded, from, to), slices, 2);
        let mut widths: Vec<u8> = Vec::new();
        let mut j: usize = 0;
        while j < slices
            invariant
                j <= slices,
                codes@.len() == slices,
                2 <= base <= 6,
                forall|i: int| 0 <= i < slices ==> (#[trigger] codes@[i]) < field_limit(2),
                widths@.len() == j,
                forall|i: int|
                    0 <= i < j ==> #[trigger] widths@[i] == (base - 1 + codes@[i]) as u8 && base - 1
                        <= widths@[i] <= base + 2,
            decreases slices - j,
        {
            assert(codes@[j as int] < field_limit(2));
            widths.push(base - 1 + codes[j]);
            j += 1;
        }
        assert(widths@ =~= widths_from_codes(codes@, base as int));
        widths
    } else {
        let mut widths: Vec<u8> = Vec::new();
        widths.resize(slices, base);
        assert(widths@ =~= uniform_widths(slices as int, base));
        widths
    }
}

/// Whether the chunk of `frames` frames with the head `head` ends within
/// the bytes `b`.
pub open spec fn ends_within(b: Seq<u8>, head: ChunkHead, channels: int, frames: int) -> bool {
    let grid = Grid { channels, slice_frames: head.slice_frames, frames };
    widths_end(head, grid) <= b.len() && chunk_end(b, head, grid) <= b.len()
}

/// Whether the slices of a last row that is not full have the base width,
/// as every chunk has that an encoder makes.
pub open spec fn last_row_plain(c: ChunkView) -> bool {
    forall|j: int|
        c.grid().whole_rows() * c.channels <= j < c.widths.len() ==> #[trigger] c.widths[j]
            == c.base_width
}

/// Whether the bytes `b` are a chunk of `frames` frames: the chunk of that
/// many frames that is read from them is written as them, to the last
/// byte and bit, and its last row, if not full, has the base width.
pub open spec fn is_chunk_of(b: Seq<u8>, head: ChunkHead, channels: int, frames: int) -> bool {
    match parse_body(b, head, channels, frames) {
        Ok(c) => c.bytes() == b && last_row_plain(c),
        Err(_) => false,
    }
}

/// The largest number of frames, from one up to `upto`, of which the bytes
/// `b` are a chunk; nothing where they are a chunk of none.
pub open spec fn exact_frames(b: Seq<u8>, head: ChunkHead, channels: int, upto: int) -> int
    decreases upto,
{
    if upto <= 0 {
        0
    } else if is_chunk_of(b, head, channels, upto) {
        upto
    } else {
        exact_frames(b, head, channels, upto - 1)
    }
}

/// The number of frames as which the bytes `b` are read, of which the
/// stream expects `bound`: the largest number up to `bound` of which they
/// are a chunk, and `bound` where they are a chunk of none.
pub open spec fn held_frames(b: Seq<u8>, head: ChunkHead, channels: int, bound: int) -> int {
    if exact_frames(b, head, channels, bound) > 0 {
        exact_frames(b, head, channels, bound)
    } else {
        bound
    }
}

/// The number of frames of the chunk that is read from the bytes `b`, of
/// which the stream expects `bound`. A whole chunk that an encoder made is
/// a chunk of `bound` frames; the last chunk of a stream may be one of
/// fewer.
pub open spec fn next_chunk_frames(
    b: Seq<u8>,
    channels: int,
    bound: int,
    scale_bits: int,
    slice_frames: int,
) -> int {
    if parse_head(b, scale_bits, slice_frames) is Ok {
        held_frames(b, parse_head(b, scale_bits, slice_frames)->Ok_0, channels, bound)
    } else {
        bound
    }
}

/// The next chunk of a stream, read from the bytes `b`: where `b` is a
/// chunk of some number of frames up to those of a whole chunk, or up to
/// what is left of the stream when that is less, the chunk of the largest
/// such number; otherwise what `b` holds of a chunk of all those frames.
pub open spec fn read_chunk(
    b: Seq<u8>,
    channels: int,
    frames_per_chunk: int,
    remaining: Option<usize>,
    scale_bits: int,
    slice_frames: int,
) -> Result<ChunkView, SeaError> {
    parse_chunk(
        b,
        channels,
        next_chunk_frames(
            b,
            channels,
            chunk_frames(frames_per_chunk, remaining),
            scale_bits,
            slice_frames,
        ),
        scale_bits,
        slice_frames,
    )
}

/// Bytes that are a chunk of `frames` frames are read as a chunk of no
/// fewer frames, and as one of just as many where no more are expected.
pub proof fn lemma_held_frames(
    b: Seq<u8>,
    head: ChunkHead,
    channels: int,
    bound: int,
    frames: int,
)
    requires
        1 <= frames <= bound,
        is_chunk_of(b, head, channels, frames),
    ensures
        frames <= held_frames(b, head, channels, bound) <= bound,
        is_chunk_of(b, head, channels, held_frames(b, head, channels, bound)),
        ends_within(b, head, channels, held_frames(b, head, channels, bound)),
        parse_body(b, head, channels, held_frames(b, head, channels, bound)) is Ok,
        held_frames(b, head, channels, frames) == frames,
    decreases bound,
{
    if bound > frames && !is_chunk_of(b, head, channels, bound) {
        lemma_held_frames(b, head, channels, bound - 1, frames);
    }
}

/// The bytes of a chunk whose last row, if not full, has the base width
/// are a chunk of its frames.
pub proof fn lemma_is_chunk(c: ChunkView)
    requires
        c.wf(),
        last_row_plain(c),
    ensures
        parse_head(c.bytes(), c.scale_bits, c.slice_frames) == Ok::<ChunkHead, SeaError>(
            head_of(c),
        ),
        is_chunk_of(c.bytes(), head_of(c), c.channels, c.frames),
        parse_chunk(c.bytes(), c.channels, c.frames, c.scale_bits, c.slice_frames) == Ok::<
            ChunkView,
            SeaError,
        >(c),
{
    assert(c.bytes() + Seq::<u8>::empty() =~= c.bytes());
    lemma_head_round_trip(c, Seq::<u8>::empty());
    lemma_chunk_round_trip(c, Seq::<u8>::empty());
}

/// Whether two rows of bytes are the same.
fn same_bytes(a: &[u8], b: &Vec<u8>) -> (r: bool)
    ensures
        r == (a@ == b@),
{
    if a.len() != b.len() {
        return false;
    }
    let mut i: usize = 0;
    while i < a.len()
        invariant
            i <= a@.len(),
            a@.len() == b@.len(),
            forall|k: int| 0 <= k < i ==> a@[k] == b@[k],
        decreases a.len() - i,
    {
        if a[i] != b[i] {
            return false;
        }
        i += 1;
    }
    assert(a@ =~= b@);
    true
}

/// Whether the chunk of `frames` frames ends within `encoded`.
#[verifier::rlimit(40)]
fn fits(encoded: &[u8], head: &HeadFields, channels: usize, frames: usize) -> (r: bool)
    requires
        1 <= channels <= 255,
        frames <= 65535,
        parse_head(encoded@, head.scale_bits as int, head.slice_frames as int) == Ok::<
            ChunkHead,
            SeaError,
        >(head.view()),
    ensures
        r == ends_within(encoded@, head.view(), channels as int, frames as int),
{
    let sfb = head.scale_bits;
    let sf = head.slice_frames;
    let ghost grid = Grid {
        channels: channels as int,
        slice_frames: sf as int,
        frames: frames as int,
    };
    proof {
        lemma_rows_count(grid);
        assert(frames * channels <= 65535 * 255) by (nonlinear_arith)
            requires
                frames <= 65535,
                channels <= 255,
        ;
    }
    let rows = count_rows(frames, sf as usize);
    proof {
        assert(rows * channels <= frames * channels) by (nonlinear_arith)
            requires
                rows <= frames,
                0 <= channels,
        ;
    }
    let slices = rows * channels;
    proof {
        assert(slices * sfb <= 65535 * 255 * 6) by (nonlinear_arith)
            requires
                slices <= 65535 * 255,
                sfb <= 6,
        ;
    }
    let seeds_to = CHUNK_HEAD_BYTES + 16 * channels;
    let scales_to = seeds_to + bytes_holding(slices * sfb as usize);
    let widths_to = scales_to + if head.vbr {
        bytes_holding(2 * slices)
    } else {
        0
    };
    assert(widths_to == widths_end(head.view(), grid));
    if encoded.len() < widths_to {
        return false;
    }
    let widths = read_widths(encoded, head, channels, frames, slices);
    // Every residual takes a bit at least: a chunk of more frames than
    // there are bits left does not end within the bytes.
    if bytes_holding(frames * channels) > encoded.len() - widths_to {
        proof {
            assert forall|j: int| 0 <= j < widths@.len() implies 1 <= #[trigger] widths@[j] by {
                assert(width_allowed(head.vbr, head.base as int, widths@[j] as int));
            }
            lemma_least_bits(widths@, grid, head.view());
        }
        return false;
    }
    let per_sample = sample_widths(&widths, channels, sf as usize, frames);
    proof {
        assert forall|k: int| 0 <= k < per_sample@.len() implies 1 <= (
        #[trigger] per_sample@[k]) <= 8 by {
            lemma_coords(grid, k);
            assert(width_allowed(head.vbr, head.base as int, widths@[grid.slice_at(k)] as int));
        }
    }
    let residual_bits = sum_widths(&per_sample);
    let end = widths_to + bytes_holding(residual_bits);
    assert(end == chunk_end(encoded@, head.view(), grid));
    encoded.len() >= end
}

/// Residuals of one bit or more each take as many bits as there are
/// samples at least.
proof fn lemma_least_bits(widths: Seq<u8>, grid: Grid, head: ChunkHead)
    requires
        grid.wf(),
        widths.len() == grid.slices(),
        forall|j: int| 0 <= j < widths.len() ==> 1 <= #[trigger] widths[j],
    ensures
        total_width(widths_view(sample_widths_of(widths, grid))) >= grid.samples(),
{
    let pw = widths_view(sample_widths_of(widths, grid));
    lemma_rows_count(grid);
    assert(0 <= grid.samples()) by (nonlinear_arith)
        requires
            grid.samples() == grid.frames * grid.channels,
            0 <= grid.frames,
            0 <= grid.channels,
    ;
    assert forall|k: int| 0 <= k < pw.len() implies 1 <= #[trigger] pw[k] by {
        lemma_coords(grid, k);
    }
    lemma_least_total(pw);
}

/// Fields of one bit or more each take as many bits as there are fields
/// at least.
proof fn lemma_least_total(widths: Seq<int>)
    requires
        forall|k: int| 0 <= k < widths.len() ==> 1 <= #[trigger] widths[k],
    ensures
        total_width(widths) >= widths.len(),
    decreases widths.len(),
{
    if widths.len() > 0 {
        lemma_least_total(widths.drop_last());
    }
}

/// Reads the chunk of `frames` frames with the head `head` from `encoded`.
#[verifier::rlimit(40)]
fn read_body(encoded: &[u8], head: &HeadFields, channels: usize, frames: usize) -> (r: Result<
    SeaChunk,
    SeaError,
>)
    requires
        1 <= channels <= 255,
        frames <= 65535,
        parse_head(encoded@, head.scale_bits as int, head.slice_frames as int) == Ok::<
            ChunkHead,
            SeaError,
        >(head.view()),
    ensures
        match r {
            Ok(c) => parse_body(encoded@, head.view(), channels as int, frames as int) == Ok::<
                ChunkView,
                SeaError,
            >(c@) && c@.wf(),
            Err(e) => parse_body(encoded@, head.view(), channels as int, frames as int) == Err::<
                ChunkView,
                SeaError,
            >(e),
        },
{
    let sfb = head.scale_bits;
    let sf = head.slice_frames;
    let ghost grid = Grid {
        channels: channels as int,
        slice_frames: sf as int,
        frames: frames as int,
    };
    proof {
        lemma_rows_count(grid);
        assert(frames * channels <= 65535 * 255) by (nonlinear_arith)
            requires
                frames <= 65535,
                channels <= 255,
        ;
    }
    let rows = count_rows(frames, sf as usize);
    proof {
        assert(rows * channels <= frames * channels) by (nonlinear_arith)
            requires
                rows <= frames,
                0 <= channels,
        ;
    }
    let slices = rows * channels;
    proof {
        assert(slices * sfb <= 65535 * 255 * 6) by (nonlinear_arith)
            requires
                slices <= 65535 * 255,
                sfb <= 6,
        ;
    }
    let seeds_to = CHUNK_HEAD_BYTES + 16 * channels;
    let scales_to = seeds_to + bytes_holding(slices * sfb as usize);
    let widths_to = scales_to + if head.vbr {
        bytes_holding(2 * slices)
    } else {
        0
    };
    assert(widths_to == widths_end(head.view(), grid));
    if encoded.len() < widths_to {
        return Err(SeaError::EndOfFile);
    }
    let widths = read_widths(encoded, &head, channels, frames, slices);
    let per_sample = sample_widths(&widths, channels, sf as usize, frames);
    proof {
        assert forall|k: int| 0 <= k < per_sample@.len() implies 1 <= (
        #[trigger] per_sample@[k]) <= 8 by {
            lemma_coords(grid, k);
            assert(width_allowed(
                head.vbr,
                head.base as int,
                widths@[grid.slice_at(k)] as int,
            ));
        }
    }
    let residual_bits = sum_widths(&per_sample);
    let end = widths_to + bytes_holding(residual_bits);
    assert(end == chunk_end(encoded@, head.view(), grid));
    if encoded.len() < end {
        return Err(SeaError::EndOfFile);
    }
    let lms = read_seeds(encoded, channels);
    let scale_factors = read_uniform(
        vstd::slice::slice_subrange(encoded, seeds_to, scales_to),
        slices,
        sfb,
    );
    let residuals = match unpack_fields(
        vstd::slice::slice_subrange(encoded, widths_to, end),
        &per_sample,
    ) {
        Ok(v) => v,
        Err(e) => { return Err(e); },
    };
    let chunk = SeaChunk {
        chunk_type: if head.vbr {
            SeaChunkType::Vbr
        } else {
            SeaChunkType::Cbr
        },
        scale_factor_bits: sfb,
        scale_factor_frames: sf,
        residual_size: head.base,
        channels,
        frames,
        lms,
        scale_factors,
        vbr_residual_sizes: widths,
        residuals,
    };
    proof {
        let view = chunk@;
        assert(view.grid() == grid);
        assert forall|k: int| 0 <= k < view.residuals.len() implies (
        #[trigger] view.residuals[k]) < 2 * half_levels(
            view.widths[view.grid().slice_at(k)] as int,
        ) by {
            lemma_coords(grid, k);
            assert(view.residuals[k] < field_limit(widths_view(per_sample@)[k]));
        }
    }
    Ok(chunk)
}

impl SeaChunk {
    /// Reads the next chunk of a stream from `encoded`, with the scale
    /// that the header states. The stream expects the header's
    /// `frames_per_chunk` frames, or `remaining_frames` when fewer are left. Where `encoded` is a chunk of some number of frames
    /// up to that, as the last chunk of a stream may be, the chunk of the
    /// largest such number is read; otherwise what `encoded` holds of a
    /// chunk of all the expected frames.
    ///
    /// Fails with `EndOfFile` where `encoded` ends inside that chunk, and
    /// with `InvalidFile` where the head holds a value that no chunk has.
    #[verifier::rlimit(40)]
    pub fn from_slice(
        encoded: &[u8],
        file_header: &SeaFileHeader,
        remaining_frames: Option<usize>,
    ) -> (r: Result<SeaChunk, SeaError>)
        requires
            file_header.channels >= 1,
        ensures
            match r {
                Ok(c) => read_chunk(
                    encoded@,
                    file_header.channels as int,
                    file_header.frames_per_chunk as int,
                    remaining_frames,
                    file_header@.scale_bits(),
                    file_header@.slice_frames(),
                ) == Ok::<ChunkView, SeaError>(c@) && c@.wf(),
                Err(e) => read_chunk(
                    encoded@,
                    file_header.channels as int,
                    file_header.frames_per_chunk as int,
                    remaining_frames,
                    file_header@.scale_bits(),
                    file_header@.slice_frames(),
                ) == Err::<ChunkView, SeaError>(e),
            },
    {
        let channels = file_header.channels as usize;
        let whole = file_header.frames_per_chunk as usize;
        let bound: usize = match remaining_frames {
            Some(r) => if r < whole {
                r
            } else {
                whole
            },
            None => whole,
        };
        let scale = file_header.scale();
        let head = match read_head(encoded, scale.0, scale.1) {
            Ok(h) => h,
            Err(e) => { return Err(e); },
        };
        let mut frames = bound;
        while frames > 0
            invariant
                frames <= bound <= 65535,
                1 <= channels <= 255,
                channels == file_header.channels,
                bound == chunk_frames(file_header.frames_per_chunk as int, remaining_frames),
                head.scale_bits == file_header@.scale_bits(),
                head.slice_frames == file_header@.slice_frames(),
                parse_head(encoded@, head.scale_bits as int, head.slice_frames as int) == Ok::<
            ChunkHead,
            SeaError,
        >(head.view()),
                exact_frames(encoded@, head.view(), channels as int, bound as int)
                    == exact_frames(encoded@, head.view(), channels as int, frames as int),
            decreases frames,
        {
            if fits(encoded, &head, channels, frames) {
                match read_body(encoded, &head, channels, frames) {
                    Ok(chunk) => {
                        if chunk.last_row_is_plain() {
                            let written = chunk.serialize();
                            if same_bytes(encoded, &written) {
                                proof {
                                    let h = head.view();
                                    assert(is_chunk_of(encoded@, h, channels as int, frames as int));
                                    assert(exact_frames(encoded@, h, channels as int, frames as int)
                                        == frames);
                                    assert(held_frames(encoded@, h, channels as int, bound as int)
                                        == frames);
                                    assert(next_chunk_frames(
                                        encoded@,
                                        channels as int,
                                        bound as int,
                                        h.scale_bits,
                                        h.slice_frames,
                                    ) == frames);
                                }
                                return Ok(chunk);
                            }
                        }
                    },
                    Err(_) => {},
                }
            }
            frames = frames - 1;
        }
        read_body(encoded, &head, channels, bound)
    }
}

impl ChunkView {
    /// The residual codes of channel `ch` in row `g`.
    pub open spec fn codes(&self, g: int, ch: int) -> Seq<u8> {
        strided(
            self.residuals,
            g * self.slice_frames * self.channels + ch,
            self.channels,
            self.grid().row_frames(g),
        )
    }

    /// The predictor of each channel before row `g`, when the chunk is
    /// decoded from its own predictors on.
    pub open spec fn lms_before(&self, g: int) -> Seq<SeaLMS>
        decreases g,
    {
        if g <= 0 {
            self.lms
        } else {
            let prev = self.lms_before(g - 1);
            Seq::new(
                self.channels as nat,
                |ch: int|
                    decode_run(
                        prev[ch],
                        self.codes(g - 1, ch),
                        self.scale_bits,
                        self.widths[self.grid().slice_index(g - 1, ch)] as int,
                        self.scale_factors[self.grid().slice_index(g - 1, ch)] as int,
                    ).lms,
            )
        }
    }

    /// What decoding the slice of channel `ch` in row `g` gives.
    pub open spec fn run(&self, g: int, ch: int) -> DecodeRun {
        decode_run(
            self.lms_before(g)[ch],
            self.codes(g, ch),
            self.scale_bits,
            self.widths[self.grid().slice_index(g, ch)] as int,
            self.scale_factors[self.grid().slice_index(g, ch)] as int,
        )
    }

    /// The decoded sample at index `k` of the interleaved output.
    pub open spec fn sample_at(&self, k: int) -> i16 {
        let grid = self.grid();
        self.run(grid.row_at(k), grid.channel_at(k)).samples[grid.frame_at(k)]
    }

    /// The decoded samples, interleaved by channel.
    pub open spec fn samples(&self) -> Seq<i16> {
        Seq::new(self.grid().samples() as nat, |k: int| self.sample_at(k))
    }

    /// The predictor of each channel after the chunk.
    pub open spec fn lms_after(&self) -> Seq<SeaLMS> {
        self.lms_before(self.grid().rows())
    }
}

/// Before every row of a chunk that is decoded there is one predictor of
/// 16-bit values for each channel.
pub proof fn lemma_chunk_lms_before(c: ChunkView, g: int)
    requires
        c.wf(),
        0 <= g <= c.grid().rows(),
    ensures
        c.lms_before(g).len() == c.channels,
        all_wf(c.lms_before(g)),
    decreases g,
{
    if g > 0 {
        lemma_chunk_lms_before(c, g - 1);
        let prev = c.lms_before(g - 1);
        assert forall|ch: int| 0 <= ch < c.channels implies (#[trigger] c.lms_before(g)[ch]).wf() by {
            lemma_decode_run(
                prev[ch],
                c.codes(g - 1, ch),
                c.scale_bits,
                c.widths[c.grid().slice_index(g - 1, ch)] as int,
                c.scale_factors[c.grid().slice_index(g - 1, ch)] as int,
            );
        }
    }
}

/// Decodes `count` residual codes of one channel, `stride` apart from
/// `start` on, with residual width `w` at scale index `s`.
#[verifier::rlimit(40)]
fn decode_slice(
    lms: &SeaLMS,
    tab: &SeaDequantTab,
    w: u8,
    s: u8,
    residuals: &Vec<u8>,
    start: usize,
    stride: usize,
    count: usize,
) -> (r: (Vec<i16>, SeaLMS))
    requires
        lms.wf(),
        tab.wf(),
        valid_scale_bits(tab.scale_bits()),
        valid_width(w as int),
        s < scale_count(tab.scale_bits()),
        1 <= stride,
        start + count * stride <= residuals@.len() + stride - 1,
        count > 0 ==> start < residuals@.len(),
        forall|f: int|
            0 <= f < count ==> (#[trigger] residuals@[start + f * stride]) < 2 * half_levels(
                w as int,
            ),
    ensures
        (DecodeRun { lms: r.1, samples: r.0@ }) == decode_run(
            *lms,
            strided(residuals@, start as int, stride as int, count as int),
            tab.scale_bits(),
            w as int,
            s as int,
        ),
        r.1.wf(),
        r.0@.len() == count,
{
    let ghost sfb = tab.scale_bits();
    let ghost codes = strided(residuals@, start as int, stride as int, count as int);
    let limit = residuals.len();
    let mut cur: SeaLMS = *lms;
    let mut samples: Vec<i16> = Vec::new();
    let mut i: usize = 0;
    let mut at: usize = start;
    proof {
        assert(codes.take(0) =~= Seq::<u8>::empty());
    }
    while i < count
        invariant
            tab.wf(),
            valid_scale_bits(tab.scale_bits()),
            sfb == tab.scale_bits(),
            valid_width(w as int),
            s < scale_count(sfb),
            1 <= stride,
            limit == residuals@.len(),
            start + count * stride <= residuals@.len() + stride - 1,
            codes == strided(residuals@, start as int, stride as int, count as int),
            forall|f: int|
                0 <= f < count ==> (#[trigger] residuals@[start + f * stride]) < 2 * half_levels(
                    w as int,
                ),
            i <= count,
            i < count ==> at == start + i * stride,
            cur.wf(),
            (DecodeRun { lms: cur, samples: samples@ }) == decode_run(
                *lms,
                codes.take(i as int),
                sfb,
                w as int,
                s as int,
            ),
            samples@.len() == i,
        decreases count - i,
    {
        proof {
            assert(i * stride + stride <= count * stride) by (nonlinear_arith)
                requires
                    i < count,
                    1 <= stride,
            ;
            assert((i + 1) * stride == i * stride + stride) by (nonlinear_arith);
            assert(codes.take(i as int + 1).drop_last() =~= codes.take(i as int));
            assert(codes.take(i as int + 1).last() == residuals@[start + i * stride]);
        }
        let code = residuals[at];
        let delta = tab.delta(w, s, code);
        let pred = cur.predict();
        let recon = clamp_i16(pred + delta);
        cur.update(delta, recon);
        samples.push(recon);
        i += 1;
        if i < count {
            proof {
                assert(i * stride + stride <= count * stride) by (nonlinear_arith)
                    requires
                        i < count,
                        1 <= stride,
                ;
            }
            at = at + stride;
        }
    }
    proof {
        assert(codes.take(count as int) =~= codes);
    }
    (samples, cur)
}

/// `n` samples of silence.
fn silence(n: usize) -> (v: Vec<i16>)
    ensures
        v@.len() == n,
{
    let mut v: Vec<i16> = Vec::new();
    v.resize(n, 0);
    v
}

impl SeaChunk {
    /// Decodes the chunk: for every sample, the prediction plus the delta
    /// that its residual code stands for, saturated to 16 bits. Returns the
    /// samples, interleaved by channel, and the predictors after the chunk.
    #[verifier::rlimit(40)]
    pub fn decode(&self, tab: &SeaDequantTab) -> (r: (Vec<i16>, Vec<SeaLMS>))
        requires
            self@.wf(),
            tab.wf(),
            tab.scale_bits() == self@.scale_bits,
        ensures
            r.0@ == self@.samples(),
            r.1@ == self@.lms_after(),
            all_wf(r.1@),
    {
        let ghost view = self@;
        let ghost grid = view.grid();
        let channels = self.channels;
        let slice_frames = self.scale_factor_frames as usize;
        let frames = self.frames;
        proof {
            lemma_rows_count(grid);
            assert(frames * channels <= 65535 * 255) by (nonlinear_arith)
                requires
                    frames <= 65535,
                    channels <= 255,
            ;
            lemma_chunk_lms_before(view, 0);
        }
        let total = frames * channels;
        let rows = count_rows(frames, slice_frames);
        let mut lms: Vec<SeaLMS> = self.lms.clone();
        assert(lms@ =~= view.lms);
        let mut samples: Vec<i16> = silence(total);
        let mut g: usize = 0;
        while g < rows
            invariant
                view == self@,
                view.wf(),
                grid == view.grid(),
                grid.wf(),
                grid.samples() == total,
                grid.slices() <= total,
                tab.wf(),
                tab.scale_bits() == view.scale_bits,
                channels == self.channels,
                slice_frames == self.scale_factor_frames,
                frames == self.frames,
                rows == grid.rows(),
                g <= rows,
                lms@ == view.lms_before(g as int),
                all_wf(lms@),
                samples@.len() == total,
                forall|k: int|
                    0 <= k < total && grid.passed(k, g as int, 0, 0) ==> #[trigger] samples@[k]
                        == view.sample_at(k),
            decreases rows - g,
        {
            proof {
                lemma_rows(grid, g as int);
                lemma_chunk_lms_before(view, g as int);
                lemma_chunk_lms_before(view, g as int + 1);
                assert(g * slice_frames + slice_frames == (g + 1) * slice_frames)
                    by (nonlinear_arith);
            }
            let first = g * slice_frames;
            let count = if frames - first < slice_frames {
                frames - first
            } else {
                slice_frames
            };
            assert(count == grid.row_frames(g as int));
            proof {
                assert(first * channels + count * channels <= total) by (nonlinear_arith)
                    requires
                        first + count <= frames,
                        frames * channels == total,
                        1 <= channels,
                ;
                assert(0 <= first * channels) by (nonlinear_arith)
                    requires
                        0 <= first,
                        0 <= channels,
                ;
                assert(count * channels >= channels) by (nonlinear_arith)
                    requires
                        count >= 1,
                        channels >= 1,
                ;
            }
            let row_start = first * channels;
            let mut ch: usize = 0;
            while ch < channels
                invariant
                    view == self@,
                    view.wf(),
                    grid == view.grid(),
                    grid.wf(),
                    grid.samples() == total,
                    grid.slices() <= total,
                    tab.wf(),
                    tab.scale_bits() == view.scale_bits,
                    channels == self.channels,
                    slice_frames == self.scale_factor_frames,
                    frames == self.frames,
                    rows == grid.rows(),
                    g < rows,
                    first == g * slice_frames,
                    row_start == first * channels,
                    count == grid.row_frames(g as int),
                    1 <= count <= slice_frames,
                    row_start + count * channels <= total,
                    row_start + channels <= total,
                    ch <= channels,
                    lms@.len() == channels,
                    all_wf(lms@),
                    view.lms_before(g as int).len() == channels,
                    view.lms_before(g as int + 1).len() == channels,
                    forall|c: int|
                        0 <= c < ch ==> #[trigger] lms@[c] == view.lms_before(g as int + 1)[c],
                    forall|c: int|
                        ch <= c < channels ==> #[trigger] lms@[c] == view.lms_before(g as int)[c],
                    samples@.len() == total,
                    forall|k: int|
                        0 <= k < total && grid.passed(k, g as int, ch as int, 0)
                            ==> #[trigger] samples@[k] == view.sample_at(k),
                decreases channels - ch,
            {
                let ghost j = grid.slice_index(g as int, ch as int);
                proof {
                    lemma_slice_index(grid, g as int, ch as int);
                    assert(width_allowed(view.vbr, view.base_width, view.widths[j] as int));
                    assert(view.scale_factors[j] < scale_count(view.scale_bits));
                    assert(row_start == g * slice_frames * channels);
                    assert forall|f: int| 0 <= f < count implies (
                    #[trigger] self.residuals@[row_start + ch + f * channels]) < 2 * half_levels(
                        view.widths[j] as int,
                    ) by {
                        lemma_index(grid, g as int, f, ch as int);
                        let k = grid.index(g as int, f, ch as int);
                        assert(k == row_start + ch + f * channels);
                        assert(view.residuals[k] < 2 * half_levels(
                            view.widths[grid.slice_at(k)] as int,
                        ));
                    }
                }
                let w = self.vbr_residual_sizes[g * channels + ch];
                let s = self.scale_factors[g * channels + ch];
                let res = decode_slice(
                    &lms[ch],
                    tab,
                    w,
                    s,
                    &self.residuals,
                    row_start + ch,
                    channels,
                    count,
                );
                proof {
                    assert((DecodeRun { lms: res.1, samples: res.0@ }) == view.run(
                        g as int,
                        ch as int,
                    ));
                    assert(res.1 == view.lms_before(g as int + 1)[ch as int]);
                }
                lms[ch] = res.1;
                let decoded = res.0;
                let mut f: usize = 0;
                while f < count
                    invariant
                        grid.wf(),
                        grid == view.grid(),
                        grid.samples() == total,
                        g < rows,
                        rows == grid.rows(),
                        ch < channels,
                        channels == grid.channels,
                        slice_frames == grid.slice_frames,
                        first == g * slice_frames,
                        row_start == first * channels,
                        count == grid.row_frames(g as int),
                        row_start + count * channels <= total,
                        f <= count,
                        decoded@.len() == count,
                        decoded@ == view.run(g as int, ch as int).samples,
                        samples@.len() == total,
                        forall|k: int|
                            0 <= k < total && grid.passed(k, g as int, ch as int, f as int)
                                ==> #[trigger] samples@[k] == view.sample_at(k),
                    decreases count - f,
                {
                    proof {
                        lemma_index(grid, g as int, f as int, ch as int);
                        assert(f * channels + channels <= count * channels) by (nonlinear_arith)
                            requires
                                f < count,
                                0 <= channels,
                        ;
                    }
                    let at = row_start + f * channels + ch;
                    let ghost before = samples@;
                    samples[at] = decoded[f];
                    proof {
                        assert(at == grid.index(g as int, f as int, ch as int));
                        assert forall|k: int|
                            0 <= k < total && grid.passed(
                                k,
                                g as int,
                                ch as int,
                                f as int + 1,
                            ) implies #[trigger] samples@[k] == view.sample_at(k) by {
                            lemma_coords(grid, k);
                            if k != at {
                                assert(grid.passed(k, g as int, ch as int, f as int));
                                assert(samples@[k] == before[k]);
                            }
                        }
                    }
                    f += 1;
                }
                proof {
                    assert forall|k: int|
                        0 <= k < total && grid.passed(
                            k,
                            g as int,
                            ch as int + 1,
                            0,
                        ) implies #[trigger] samples@[k] == view.sample_at(k) by {
                        lemma_coords(grid, k);
                        assert(grid.passed(k, g as int, ch as int, count as int));
                    }
                }
                ch += 1;
            }
            proof {
                assert(lms@ =~= view.lms_before(g as int + 1));
                assert forall|k: int|
                    0 <= k < total && grid.passed(
                        k,
                        g as int + 1,
                        0,
                        0,
                    ) implies #[trigger] samples@[k] == view.sample_at(k) by {
                    lemma_coords(grid, k);
                    assert(grid.passed(k, g as int, channels as int, 0));
                }
            }
            g += 1;
        }
        proof {
            assert forall|k: int| 0 <= k < total implies samples@[k] == view.samples()[k] by {
                lemma_coords(grid, k);
                assert(grid.passed(k, rows as int, 0, 0));
            }
            assert(samples@ =~= view.samples());
        }
        (samples, lms)
    }
}

/// The chunk that holds what the samples of `inp` are encoded to.
pub open spec fn chunk_of(inp: ChunkInput, vbr: bool, base: int) -> ChunkView {
    ChunkView {
        vbr,
        scale_bits: inp.scale_bits,
        slice_frames: inp.slice_frames,
        base_width: base,
        channels: inp.channels,
        frames: inp.grid().frames,
        lms: inp.lms,
        scale_factors: inp.scale_factors(),
        widths: Seq::new(inp.widths.len(), |j: int| inp.widths[j] as u8),
        residuals: inp.residuals(),
    }
}

/// The residual codes of a slice of the chunk that holds an encoding are
/// those that the encoder chose for it, and its scale index is the chosen
/// one.
#[verifier::rlimit(40)]
proof fn lemma_chunk_slice(inp: ChunkInput, vbr: bool, base: int, g: int, ch: int)
    requires
        inp.wf(),
        0 <= g < inp.grid().rows(),
        0 <= ch < inp.channels,
    ensures
        chunk_of(inp, vbr, base).codes(g, ch) == inp.run(g, ch).codes,
        chunk_of(inp, vbr, base).scale_factors[inp.grid().slice_index(g, ch)] as int
            == inp.scale_at(g, ch),
        0 <= inp.scale_at(g, ch) < scale_count(inp.scale_bits),
        chunk_of(inp, vbr, base).widths[inp.grid().slice_index(g, ch)] as int == inp.width_at(
            g,
            ch,
        ),
        valid_width(inp.width_at(g, ch)),
        inp.lms_before(g)[ch].wf(),
        codes_fit(inp.run(g, ch).codes, inp.width_at(g, ch)),
        inp.run(g, ch).codes.len() == inp.grid().row_frames(g),
{
    let c = chunk_of(inp, vbr, base);
    let grid = inp.grid();
    lemma_input_grid(inp);
    lemma_slice_index(grid, g, ch);
    lemma_rows(grid, g);
    lemma_lms_before(inp, g);
    let j = grid.slice_index(g, ch);
    let lms = inp.lms_before(g)[ch];
    let xs = inp.slice(g, ch);
    lemma_slice_run(lms, xs, inp.scale_bits, inp.width_at(g, ch));
    lemma_best_scale(lms, xs, inp.scale_bits, inp.width_at(g, ch), scale_count(inp.scale_bits));
    assert(c.scale_factors[j] == inp.scale_at(j / inp.channels, j % inp.channels) as u8);
    assert forall|f: int| 0 <= f < grid.row_frames(g) implies #[trigger] c.codes(g, ch)[f]
        == inp.run(g, ch).codes[f] by {
        lemma_index(grid, g, f, ch);
        let k = grid.index(g, f, ch);
        assert(c.residuals[k] == inp.code_at(k));
    }
    assert(c.codes(g, ch) =~= inp.run(g, ch).codes);
}

/// Decoding the chunk that holds an encoding moves the predictors as
/// encoding did: before every row, and so after the chunk, the decoder's
/// predictors are the encoder's.
pub proof fn lemma_decoder_follows_encoder(inp: ChunkInput, vbr: bool, base: int, g: int)
    requires
        inp.wf(),
        0 <= g <= inp.grid().rows(),
    ensures
        chunk_of(inp, vbr, base).lms_before(g) == inp.lms_before(g),
        g == inp.grid().rows() ==> chunk_of(inp, vbr, base).lms_after() == inp.lms_after(),
    decreases g,
{
    let c = chunk_of(inp, vbr, base);
    if g > 0 {
        lemma_decoder_follows_encoder(inp, vbr, base, g - 1);
        lemma_lms_before(inp, g - 1);
        assert forall|ch: int| 0 <= ch < inp.channels implies #[trigger] c.lms_before(g)[ch]
            == inp.lms_before(g)[ch] by {
            lemma_chunk_slice(inp, vbr, base, g - 1, ch);
            lemma_decode_of_encode(
                inp.lms_before(g - 1)[ch],
                inp.slice(g - 1, ch),
                inp.scale_bits,
                inp.width_at(g - 1, ch),
                inp.scale_at(g - 1, ch),
            );
        }
        assert(c.lms_before(g) =~= inp.lms_before(g));
    }
}

/// The chunk that holds an encoding is well-formed when its counts are such
/// as the headers can state and its widths are such as its kind allows.
#[verifier::rlimit(40)]
pub proof fn lemma_chunk_of_wf(inp: ChunkInput, vbr: bool, base: int)
    requires
        inp.wf(),
        inp.channels <= 255,
        inp.slice_frames <= 255,
        inp.grid().frames <= 65535,
        valid_base(vbr, base),
        forall|j: int|
            0 <= j < inp.widths.len() ==> width_allowed(vbr, base, #[trigger] inp.widths[j]),
    ensures
        chunk_of(inp, vbr, base).wf(),
{
    let c = chunk_of(inp, vbr, base);
    let grid = inp.grid();
    lemma_input_grid(inp);
    assert(c.grid() == grid);
    assert forall|j: int| 0 <= j < c.scale_factors.len() implies (#[trigger] c.scale_factors[j])
        < scale_count(c.scale_bits) by {
        let g = j / inp.channels;
        let ch = j % inp.channels;
        vstd::arithmetic::div_mod::lemma_fundamental_div_mod(j, inp.channels);
        vstd::arithmetic::div_mod::lemma_mod_bound(j, inp.channels);
        assert(0 <= g < grid.rows()) by (nonlinear_arith)
            requires
                j == inp.channels * g + ch,
                0 <= ch < inp.channels,
                0 <= j < grid.rows() * inp.channels,
        ;
        assert(grid.slice_index(g, ch) == j) by (nonlinear_arith)
            requires
                j == inp.channels * g + ch,
                grid.slice_index(g, ch) == g * inp.channels + ch,
        ;
        lemma_chunk_slice(inp, vbr, base, g, ch);
    }
    assert forall|j: int| 0 <= j < c.widths.len() implies width_allowed(
        c.vbr,
        c.base_width,
        #[trigger] c.widths[j] as int,
    ) by {
        assert(width_allowed(vbr, base, inp.widths[j]));
    }
    assert forall|k: int| 0 <= k < c.residuals.len() implies (#[trigger] c.residuals[k]) < 2
        * half_levels(c.widths[c.grid().slice_at(k)] as int) by {
        lemma_coords(grid, k);
        let g = grid.row_at(k);
        let ch = grid.channel_at(k);
        lemma_chunk_slice(inp, vbr, base, g, ch);
        assert(c.residuals[k] == inp.run(g, ch).codes[grid.frame_at(k)]);
    }
}

/// The bytes of a chunk, cut where its blocks end.
#[verifier::rlimit(40)]
proof fn lemma_chunk_blocks(c: ChunkView, rest: Seq<u8>)
    requires
        c.wf(),
    ensures
        ({
            let b = c.bytes() + rest;
            let head = head_of(c);
            let grid = c.grid();
            let slices = grid.slices();
            let end = widths_end(head, grid) + bytes_for(
                total_width(widths_view(c.sample_widths())),
            );
            &&& 0 <= slices
            &&& b.len() == end + rest.len()
            &&& 3 <= seeds_end(c.channels) <= scales_end(head, grid) <= widths_end(head, grid)
                <= end
            &&& scales_end(head, grid) - seeds_end(c.channels) == bytes_for(
                total_width(widths_view(uniform_widths(slices, c.scale_bits as u8))),
            )
            &&& c.vbr ==> widths_end(head, grid) - scales_end(head, grid) == bytes_for(
                total_width(widths_view(uniform_widths(slices, 2))),
            )
            &&& b.take(3) == c.head()
            &&& b.subrange(3, seeds_end(c.channels)) == seed_bytes(c.lms)
            &&& b.subrange(seeds_end(c.channels), scales_end(head, grid)) == c.scale_block()
            &&& b.subrange(scales_end(head, grid), widths_end(head, grid)) == c.width_block()
            &&& b.subrange(widths_end(head, grid), end) == c.residual_block()
            &&& widths_ok(widths_view(c.sample_widths()))
            &&& values_fit(c.residuals, widths_view(c.sample_widths()))
            &&& values_fit(
                c.scale_factors,
                widths_view(uniform_widths(slices, c.scale_bits as u8)),
            )
            &&& widths_ok(widths_view(uniform_widths(slices, c.scale_bits as u8)))
            &&& widths_ok(widths_view(uniform_widths(slices, 2)))
            &&& c.vbr ==> values_fit(c.width_codes(), widths_view(uniform_widths(slices, 2)))
        }),
{
    reveal(ChunkView::bytes);
    let b = c.bytes() + rest;
    let grid = c.grid();
    let head = head_of(c);
    let slices = grid.slices();
    lemma_rows_count(grid);
    lemma_seed_bytes(c.lms);
    lemma_uniform_total(slices, c.scale_bits as u8);
    lemma_uniform_total(slices, 2);
    let sw = widths_view(uniform_widths(slices, c.scale_bits as u8));
    let tw = widths_view(uniform_widths(slices, 2));
    let pw = widths_view(c.sample_widths());
    assert forall|k: int| 0 <= k < pw.len() implies 0 <= #[trigger] pw[k] <= 8 && c.residuals[k]
        < field_limit(pw[k]) by {
        lemma_coords(grid, k);
        assert(width_allowed(c.vbr, c.base_width, c.widths[grid.slice_at(k)] as int));
    }
    assert forall|j: int| 0 <= j < slices implies (#[trigger] c.scale_factors[j]) < field_limit(
        sw[j],
    ) by {}
    if c.vbr {
        assert forall|j: int| 0 <= j < slices implies (#[trigger] c.width_codes()[j])
            < field_limit(tw[j]) by {
            assert(width_allowed(c.vbr, c.base_width, c.widths[j] as int));
        }
    }
    lemma_fields_bits_len(c.scale_factors, sw);
    lemma_fields_bits_len(c.residuals, pw);
    if c.vbr {
        lemma_fields_bits_len(c.width_codes(), tw);
    }
    let e0 = seeds_end(c.channels);
    let e1 = scales_end(head, grid);
    let e2 = widths_end(head, grid);
    let end = e2 + bytes_for(total_width(pw));
    lemma_total_width(pw, 0);
    assert(0 <= slices * c.scale_bits) by (nonlinear_arith)
        requires
            0 <= slices,
            0 <= c.scale_bits,
    ;
    assert(c.head().len() == 3);
    assert(seed_bytes(c.lms).len() == e0 - 3);
    assert(c.scale_block().len() == e1 - e0);
    assert(c.width_block().len() == e2 - e1);
    assert(c.residual_block().len() == end - e2);
    assert(b.take(3) =~= c.head());
    assert(b.subrange(3, e0) =~= seed_bytes(c.lms));
    assert(b.subrange(e0, e1) =~= c.scale_block());
    assert(b.subrange(e1, e2) =~= c.width_block());
    assert(b.subrange(e2, end) =~= c.residual_block());
}

/// The number of bytes of a chunk with `slices` slices and
/// `residual_bits` bits of residual codes.
pub open spec fn chunk_len(
    vbr: bool,
    channels: int,
    slices: int,
    scale_bits: int,
    residual_bits: int,
) -> int {
    3 + 16 * channels + bytes_for(slices * scale_bits) + (if vbr {
        bytes_for(2 * slices)
    } else {
        0
    }) + bytes_for(residual_bits)
}

/// The number of bytes of a chunk.
pub proof fn lemma_chunk_len(c: ChunkView)
    requires
        c.wf(),
    ensures
        c.bytes().len() == chunk_len(
            c.vbr,
            c.channels,
            c.grid().slices(),
            c.scale_bits,
            total_width(widths_view(c.sample_widths())),
        ),
        c.bytes().len() >= 19,
{
    lemma_chunk_blocks(c, Seq::<u8>::empty());
    assert(c.bytes() + Seq::<u8>::empty() =~= c.bytes());
}

/// What the head of a chunk states.
pub open spec fn head_of(c: ChunkView) -> ChunkHead {
    ChunkHead {
        vbr: c.vbr,
        scale_bits: c.scale_bits,
        base_width: c.base_width,
        slice_frames: c.slice_frames,
    }
}

/// The bytes of a chunk, whatever follows them, begin with its head and
/// hold the chunk.
pub proof fn lemma_head_of_chunk(c: ChunkView, rest: Seq<u8>)
    requires
        c.wf(),
    ensures
        parse_head(c.bytes() + rest, c.scale_bits, c.slice_frames) == Ok::<ChunkHead, SeaError>(
            head_of(c),
        ),
        ends_within(c.bytes() + rest, head_of(c), c.channels, c.frames),
{
    lemma_head_round_trip(c, rest);
    lemma_chunk_round_trip(c, rest);
}

/// The head read from the bytes of a chunk is its head.
proof fn lemma_head_round_trip(c: ChunkView, rest: Seq<u8>)
    requires
        c.wf(),
    ensures
        parse_head(c.bytes() + rest, c.scale_bits, c.slice_frames) == Ok::<ChunkHead, SeaError>(
            head_of(c),
        ),
{
    let b = c.bytes() + rest;
    lemma_chunk_blocks(c, rest);
    assert(b.take(3)[0] == b[0] && b.take(3)[1] == b[1] && b.take(3)[2] == b[2]);
    assert(b[1] as int == c.base_width);
}

/// The widths read from the bytes of a chunk are its widths.
#[verifier::rlimit(40)]
proof fn lemma_widths_round_trip(c: ChunkView, rest: Seq<u8>)
    requires
        c.wf(),
    ensures
        parsed_widths(c.bytes() + rest, head_of(c), c.grid()) == c.widths,
{
    let b = c.bytes() + rest;
    let grid = c.grid();
    let head = head_of(c);
    let slices = grid.slices();
    lemma_chunk_blocks(c, rest);
    lemma_uniform_total(slices, 2);
    let tw = widths_view(uniform_widths(slices, 2));
    let widths = parsed_widths(b, head, grid);
    if c.vbr {
        let block = b.subrange(scales_end(head, grid), widths_end(head, grid));
        assert(block.take(bytes_for(total_width(tw))) =~= block);
        lemma_pack_round_trip(c.width_codes(), tw, block);
    }
    assert forall|j: int| 0 <= j < slices implies widths[j] == c.widths[j] by {
        assert(width_allowed(c.vbr, c.base_width, c.widths[j] as int));
    }
    assert(widths =~= c.widths);
}

/// The predictors read from the bytes of a chunk are its predictors.
#[verifier::rlimit(40)]
proof fn lemma_seeds_round_trip(c: ChunkView, rest: Seq<u8>)
    requires
        c.wf(),
    ensures
        Seq::new(c.channels as nat, |i: int| SeaLMS::from_bytes_spec(c.bytes() + rest, 3 + 16 * i))
            == c.lms,
{
    let b = c.bytes() + rest;
    lemma_chunk_blocks(c, rest);
    let lms = Seq::new(c.channels as nat, |i: int| SeaLMS::from_bytes_spec(b, 3 + 16 * i));
    lemma_seed_bytes(c.lms);
    assert forall|i: int| 0 <= i < c.channels implies lms[i] == c.lms[i] by {
        assert forall|m: int| 0 <= m < 16 implies #[trigger] b[3 + 16 * i + m]
            == c.lms[i].bytes_spec()[m] by {
            assert(b.subrange(3, seeds_end(c.channels))[16 * i + m] == b[3 + 16 * i + m]);
            assert(seed_bytes(c.lms)[16 * i + m] == c.lms[i].bytes_spec()[m]);
        }
        lemma_lms_round_trip(c.lms[i], b, 3 + 16 * i);
    }
    assert(lms =~= c.lms);
}

/// A stream that begins with the bytes of a chunk begins with that chunk.
#[verifier::rlimit(40)]
pub proof fn lemma_chunk_round_trip(c: ChunkView, rest: Seq<u8>)
    requires
        c.wf(),
    ensures
        parse_chunk(c.bytes() + rest, c.channels, c.frames, c.scale_bits, c.slice_frames) == Ok::<
            ChunkView,
            SeaError,
        >(c),
{
    let b = c.bytes() + rest;
    let grid = c.grid();
    let head = head_of(c);
    let slices = grid.slices();
    lemma_chunk_blocks(c, rest);
    lemma_head_round_trip(c, rest);
    lemma_widths_round_trip(c, rest);
    lemma_seeds_round_trip(c, rest);
    let sw = widths_view(uniform_widths(slices, c.scale_bits as u8));
    let pw = widths_view(c.sample_widths());
    lemma_uniform_total(slices, c.scale_bits as u8);
    let e0 = seeds_end(c.channels);
    let e1 = scales_end(head, grid);
    let e2 = widths_end(head, grid);
    let end = chunk_end(b, head, grid);
    assert(grid == (Grid { channels: c.channels, slice_frames: head.slice_frames, frames: c.frames }));
    let sblock = b.subrange(e0, e1);
    assert(sblock.take(bytes_for(total_width(sw))) =~= sblock);
    lemma_pack_round_trip(c.scale_factors, sw, sblock);
    let rblock = b.subrange(e2, end);
    assert(rblock.take(bytes_for(total_width(pw))) =~= rblock);
    lemma_pack_round_trip(c.residuals, pw, rblock);
}

} // verus!
