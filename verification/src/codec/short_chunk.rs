use crate::codec::bits::{
    bits_of, fields_from_bits, lemma_fields_from_prefix, lemma_total_width, total_width, widths_ok,
    widths_view,
};
use crate::codec::chunk::{
    chunk_end, ends_within, head_of, held_frames, last_row_plain, lemma_chunk_round_trip,
    lemma_head_of_chunk, lemma_held_frames, lemma_is_chunk, parse_body, parse_chunk, parsed_widths, sample_widths_of, scales_end,
    seeds_end, width_allowed, widths_end, widths_from_codes, ChunkView,
};
use crate::codec::common::SeaError;
use crate::codec::encoder_base::decode_run;
use crate::codec::encoder_cbr::uniform_widths;
use crate::codec::layout::{
    lemma_coords, lemma_index, lemma_rows, lemma_rows_count, lemma_slice_index, Grid,
};
use crate::codec::lms::SeaLMS;
use vstd::prelude::*;

verus! {

/// A row of fields read from bits has one value for each width.
pub proof fn lemma_fields_len(bits: Seq<bool>, widths: Seq<int>)
    ensures
        fields_from_bits(bits, widths).len() == widths.len(),
    decreases widths.len(),
{
    if widths.len() > 0 {
        lemma_fields_len(bits, widths.drop_last());
    }
}

/// The first fields of a row read from bits are the row read with the
/// first widths alone.
pub proof fn lemma_fields_take(bits: Seq<bool>, widths: Seq<int>, n: int)
    requires
        0 <= n <= widths.len(),
    ensures
        fields_from_bits(bits, widths).take(n) == fields_from_bits(bits, widths.take(n)),
    decreases widths.len(),
{
    lemma_fields_len(bits, widths);
    if n == widths.len() {
        assert(widths.take(n) =~= widths);
        assert(fields_from_bits(bits, widths).take(n) =~= fields_from_bits(bits, widths));
    } else {
        let front = widths.drop_last();
        lemma_fields_len(bits, front);
        lemma_fields_take(bits, front, n);
        assert(front.take(n) =~= widths.take(n));
        assert(fields_from_bits(bits, widths).take(n) =~= fields_from_bits(bits, front).take(n));
    }
}

/// The first samples of a decoded row are the first codes decoded alone.
pub proof fn lemma_decode_run_take(lms: SeaLMS, codes: Seq<u8>, sfb: int, w: int, s: int, n: int)
    requires
        0 <= n <= codes.len(),
    ensures
        decode_run(lms, codes, sfb, w, s).samples.len() == codes.len(),
        decode_run(lms, codes, sfb, w, s).samples.take(n) == decode_run(
            lms,
            codes.take(n),
            sfb,
            w,
            s,
        ).samples,
    decreases codes.len(),
{
    if codes.len() > 0 {
        lemma_decode_run_take(lms, codes.drop_last(), sfb, w, s, 0);
    }
    if n == codes.len() {
        assert(codes.take(n) =~= codes);
        assert(decode_run(lms, codes, sfb, w, s).samples.take(n) =~= decode_run(
            lms,
            codes,
            sfb,
            w,
            s,
        ).samples);
    } else {
        let front = codes.drop_last();
        lemma_decode_run_take(lms, front, sfb, w, s, n);
        assert(front.take(n) =~= codes.take(n));
        assert(decode_run(lms, codes, sfb, w, s).samples.take(n) =~= decode_run(
            lms,
            front,
            sfb,
            w,
            s,
        ).samples.take(n));
    }
}

/// The layout of a chunk with the counts of `c` and `frames` frames.
pub open spec fn grid_of(c: ChunkView, frames: int) -> Grid {
    Grid { channels: c.channels, slice_frames: c.slice_frames, frames }
}

/// A chunk of more frames has no fewer rows, slices and samples, and no
/// row of it is shorter.
pub proof fn lemma_grid_grows(channels: int, slice_frames: int, few: int, many: int)
    requires
        1 <= channels,
        1 <= slice_frames,
        0 <= few <= many,
    ensures
        ({
            let a = Grid { channels, slice_frames, frames: few };
            let b = Grid { channels, slice_frames, frames: many };
            &&& 0 <= a.rows() <= b.rows()
            &&& 0 <= a.slices() <= b.slices()
            &&& 0 <= a.samples() <= b.samples()
            &&& forall|g: int| 0 <= g < a.rows() ==> 1 <= #[trigger] a.row_frames(g) <= b.row_frames(g)
            &&& forall|g: int| 0 <= g < a.rows() - 1 ==> #[trigger] b.row_frames(g) == a.row_frames(g)
        }),
{
    let a = Grid { channels, slice_frames, frames: few };
    let b = Grid { channels, slice_frames, frames: many };
    vstd::arithmetic::div_mod::lemma_div_is_ordered(
        few + slice_frames - 1,
        many + slice_frames - 1,
        slice_frames,
    );
    lemma_rows_count(a);
    lemma_rows_count(b);
    assert(a.rows() * channels <= b.rows() * channels && few * channels <= many * channels)
        by (nonlinear_arith)
        requires
            0 <= a.rows() <= b.rows(),
            0 <= few <= many,
            1 <= channels,
    ;
    assert forall|g: int| 0 <= g < a.rows() implies 1 <= #[trigger] a.row_frames(g)
        <= b.row_frames(g) by {
        lemma_rows(a, g);
        lemma_rows(b, g);
        assert((g + 1) * slice_frames == g * slice_frames + slice_frames) by (nonlinear_arith);
    }
    assert forall|g: int| 0 <= g < a.rows() - 1 implies #[trigger] b.row_frames(g)
        == a.row_frames(g) by {
        lemma_rows(a, g);
        lemma_rows(b, g);
        lemma_rows(a, g + 1);
        assert((g + 1) * slice_frames == g * slice_frames + slice_frames) by (nonlinear_arith);
    }
}

/// The chunk `long` begins as the chunk `short` does: it has the same
/// counts but for its frames, which are no fewer, the same predictors, and
/// for every slice and sample of `short` the same scale index, width and
/// residual code.
pub open spec fn begins_as(long: ChunkView, short: ChunkView) -> bool {
    &&& long.vbr == short.vbr
    &&& long.scale_bits == short.scale_bits
    &&& long.slice_frames == short.slice_frames
    &&& long.base_width == short.base_width
    &&& long.channels == short.channels
    &&& 1 <= short.channels
    &&& 1 <= short.slice_frames
    &&& 0 <= short.frames <= long.frames
    &&& long.lms == short.lms
    &&& long.scale_factors.len() == long.grid().slices()
    &&& long.widths.len() == long.grid().slices()
    &&& long.residuals.len() == long.grid().samples()
    &&& short.scale_factors.len() == short.grid().slices()
    &&& short.widths.len() == short.grid().slices()
    &&& short.residuals.len() == short.grid().samples()
    &&& forall|j: int|
        0 <= j < short.grid().slices() ==> #[trigger] long.scale_factors[j]
            == short.scale_factors[j]
    &&& forall|j: int| 0 <= j < short.grid().slices() ==> #[trigger] long.widths[j] == short.widths[j]
    &&& forall|k: int|
        0 <= k < short.grid().samples() ==> #[trigger] long.residuals[k] == short.residuals[k]
}

/// The codes of a row of the short chunk are the first codes of that row
/// of the long one.
proof fn lemma_codes_front(long: ChunkView, short: ChunkView, g: int, ch: int)
    requires
        begins_as(long, short),
        0 <= g < short.grid().rows(),
        0 <= ch < short.channels,
    ensures
        short.grid().row_frames(g) <= long.grid().row_frames(g),
        long.codes(g, ch).take(short.grid().row_frames(g)) == short.codes(g, ch),
        g < short.grid().rows() - 1 ==> long.codes(g, ch) == short.codes(g, ch),
        long.widths[long.grid().slice_index(g, ch)] == short.widths[short.grid().slice_index(
            g,
            ch,
        )],
        long.scale_factors[long.grid().slice_index(g, ch)]
            == short.scale_factors[short.grid().slice_index(g, ch)],
{
    let a = short.grid();
    let b = long.grid();
    lemma_grid_grows(short.channels, short.slice_frames, short.frames, long.frames);
    lemma_slice_index(a, g, ch);
    let n = a.row_frames(g);
    assert(1 <= a.row_frames(g) <= b.row_frames(g));
    assert forall|i: int| 0 <= i < n implies #[trigger] long.codes(g, ch)[i] == short.codes(
        g,
        ch,
    )[i] by {
        lemma_index(a, g, i, ch);
        let k = a.index(g, i, ch);
        assert(long.residuals[k] == short.residuals[k]);
    }
    assert(long.codes(g, ch).take(n) =~= short.codes(g, ch));
    if g < a.rows() - 1 {
        assert(b.row_frames(g) == a.row_frames(g));
        assert(long.codes(g, ch) =~= short.codes(g, ch));
    }
}

/// Before every row of the short chunk the predictors of the long one are
/// where the short one's are.
proof fn lemma_lms_front(long: ChunkView, short: ChunkView, g: int)
    requires
        begins_as(long, short),
        0 <= g < short.grid().rows(),
        short.lms.len() == short.channels,
    ensures
        long.lms_before(g) == short.lms_before(g),
        long.lms_before(g).len() == short.channels,
    decreases g,
{
    if g > 0 {
        lemma_lms_front(long, short, g - 1);
        assert forall|ch: int| 0 <= ch < short.channels implies #[trigger] long.lms_before(g)[ch]
            == short.lms_before(g)[ch] by {
            lemma_codes_front(long, short, g - 1, ch);
        }
        assert(long.lms_before(g) =~= short.lms_before(g));
    }
}

/// A chunk that begins as another does is decoded to samples that begin
/// with the samples of the other.
pub proof fn lemma_decoded_front(long: ChunkView, short: ChunkView)
    requires
        begins_as(long, short),
        short.lms.len() == short.channels,
    ensures
        short.grid().samples() <= long.samples().len(),
        long.samples().take(short.grid().samples()) == short.samples(),
{
    let a = short.grid();
    let b = long.grid();
    lemma_grid_grows(short.channels, short.slice_frames, short.frames, long.frames);
    assert forall|k: int| 0 <= k < a.samples() implies #[trigger] long.samples()[k]
        == short.samples()[k] by {
        lemma_coords(a, k);
        let g = a.row_at(k);
        let ch = a.channel_at(k);
        let fr = a.frame_at(k);
        assert(b.row_at(k) == g && b.channel_at(k) == ch && b.frame_at(k) == fr);
        lemma_lms_front(long, short, g);
        lemma_codes_front(long, short, g, ch);
        let j = a.slice_index(g, ch);
        lemma_decode_run_take(
            short.lms_before(g)[ch],
            long.codes(g, ch),
            short.scale_bits,
            short.widths[j] as int,
            short.scale_factors[j] as int,
            a.row_frames(g),
        );
        let whole = long.run(g, ch).samples;
        assert(whole.take(a.row_frames(g)) == short.run(g, ch).samples);
        assert(whole.take(a.row_frames(g))[fr] == whole[fr]);
    }
    assert(long.samples().take(a.samples()) =~= short.samples());
}

/// The blocks of scale indices and of width codes of a chunk with the
/// counts of `c` and `frames` frames end where those of `c` end.
pub open spec fn same_blocks(c: ChunkView, frames: int) -> bool {
    &&& scales_end(head_of(c), grid_of(c, frames)) == scales_end(head_of(c), c.grid())
    &&& widths_end(head_of(c), grid_of(c, frames)) == widths_end(head_of(c), c.grid())
}

/// The bits of a block of bytes begin as the bits of a longer block from
/// the same place do.
proof fn lemma_block_bits(b: Seq<u8>, from: int, short: int, long: int, i: int)
    requires
        0 <= from <= short <= long <= b.len(),
        0 <= i < 8 * (short - from),
    ensures
        bits_of(b.subrange(from, short))[i] == bits_of(b.subrange(from, long))[i],
{
    assert(b.subrange(from, short)[i / 8] == b.subrange(from, long)[i / 8]);
}

/// The residual width of every sample of `c` is the one that a chunk with
/// more frames gives it, where the widths of the slices of `c` are the same.
proof fn lemma_sample_widths_front(c: ChunkView, widths: Seq<u8>, frames: int)
    requires
        c.wf(),
        c.frames <= frames,
        widths.len() == grid_of(c, frames).slices(),
        forall|j: int| 0 <= j < c.grid().slices() ==> #[trigger] widths[j] == c.widths[j],
        forall|j: int| 0 <= j < widths.len() ==> 1 <= #[trigger] widths[j] <= 8,
    ensures
        widths_view(sample_widths_of(widths, grid_of(c, frames))).take(c.grid().samples())
            == widths_view(c.sample_widths()),
        widths_ok(widths_view(sample_widths_of(widths, grid_of(c, frames)))),
        widths_ok(widths_view(c.sample_widths())),
        c.grid().samples() <= grid_of(c, frames).samples(),
{
    let a = c.grid();
    let b = grid_of(c, frames);
    lemma_grid_grows(c.channels, c.slice_frames, c.frames, frames);
    let long = widths_view(sample_widths_of(widths, b));
    let short = widths_view(c.sample_widths());
    assert forall|k: int| 0 <= k < a.samples() implies #[trigger] long[k] == short[k] by {
        lemma_coords(a, k);
        assert(b.slice_at(k) == a.slice_at(k));
    }
    assert(long.take(a.samples()) =~= short);
    assert forall|k: int| 0 <= k < long.len() implies 0 <= #[trigger] long[k] <= 8 by {
        lemma_coords(b, k);
    }
    assert forall|k: int| 0 <= k < short.len() implies 0 <= #[trigger] short[k] <= 8 by {
        lemma_coords(a, k);
        assert(width_allowed(c.vbr, c.base_width, c.widths[a.slice_at(k)] as int));
    }
}

/// The bytes of the chunk `c`, read as a chunk of `frames` frames that
/// ends within them and whose first two blocks end where those of `c` end,
/// hold a chunk that begins as `c` does.
#[verifier::rlimit(60)]
pub proof fn lemma_parsed_front(c: ChunkView, frames: int)
    requires
        c.wf(),
        c.frames <= frames,
        ends_within(c.bytes(), head_of(c), c.channels, frames),
        same_blocks(c, frames),
    ensures
        parse_body(c.bytes(), head_of(c), c.channels, frames) is Ok,
        begins_as(parse_body(c.bytes(), head_of(c), c.channels, frames)->Ok_0, c),
{
    let b = c.bytes();
    let h = head_of(c);
    let a = c.grid();
    let g = grid_of(c, frames);
    assert(b + Seq::<u8>::empty() =~= b);
    lemma_head_of_chunk(c, Seq::<u8>::empty());
    lemma_chunk_round_trip(c, Seq::<u8>::empty());
    lemma_grid_grows(c.channels, c.slice_frames, c.frames, frames);
    let own = parse_body(b, h, c.channels, c.frames);
    assert(own == Ok::<ChunkView, SeaError>(c));
    let long = parse_body(b, h, c.channels, frames)->Ok_0;
    assert(long.grid() == g);
    // The scale indices.
    let sw = widths_view(uniform_widths(g.slices(), c.scale_bits as u8));
    let sw0 = widths_view(uniform_widths(a.slices(), c.scale_bits as u8));
    let sbits = bits_of(b.subrange(seeds_end(c.channels), scales_end(h, a)));
    assert(sw.take(a.slices()) =~= sw0);
    lemma_fields_take(sbits, sw, a.slices());
    lemma_fields_len(sbits, sw);
    assert forall|j: int| 0 <= j < a.slices() implies #[trigger] long.scale_factors[j]
        == c.scale_factors[j] by {
        assert(long.scale_factors.take(a.slices())[j] == long.scale_factors[j]);
    }
    // The widths.
    let widths = parsed_widths(b, h, g);
    if c.vbr {
        let tw = widths_view(uniform_widths(g.slices(), 2));
        let tw0 = widths_view(uniform_widths(a.slices(), 2));
        let wbits = bits_of(b.subrange(scales_end(h, a), widths_end(h, a)));
        assert(tw.take(a.slices()) =~= tw0);
        lemma_fields_take(wbits, tw, a.slices());
        lemma_fields_len(wbits, tw);
        let codes = fields_from_bits(wbits, tw);
        let codes0 = fields_from_bits(wbits, tw0);
        assert(c.widths == widths_from_codes(codes0, c.base_width));
        assert forall|j: int| 0 <= j < a.slices() implies #[trigger] widths[j] == c.widths[j] by {
            assert(codes.take(a.slices())[j] == codes[j]);
        }
        crate::codec::chunk::lemma_uniform_total(g.slices(), 2);
        assert(total_width(tw) <= wbits.len());
        crate::codec::bits::lemma_fields_fit(wbits, tw);
        assert forall|j: int| 0 <= j < widths.len() implies 1 <= #[trigger] widths[j] <= 8 by {
            assert(codes[j] < crate::codec::bits::field_limit(tw[j]));
        }
    } else {
        assert forall|j: int| 0 <= j < a.slices() implies #[trigger] widths[j] == c.widths[j] by {
            assert(width_allowed(c.vbr, c.base_width, c.widths[j] as int));
        }
        assert forall|j: int| 0 <= j < widths.len() implies 1 <= #[trigger] widths[j] <= 8 by {}
    }
    assert(long.widths == widths);
    // The residuals.
    lemma_sample_widths_front(c, widths, frames);
    let pw = widths_view(sample_widths_of(widths, g));
    let pw0 = widths_view(c.sample_widths());
    let from = widths_end(h, a);
    let end = chunk_end(b, h, g);
    let end0 = chunk_end(b, h, a);
    let rbits = bits_of(b.subrange(from, end));
    let rbits0 = bits_of(b.subrange(from, end0));
    assert(parsed_widths(b, h, a) == c.widths);
    lemma_total_width(pw, a.samples());
    lemma_total_width(pw0, 0);
    lemma_fields_take(rbits, pw, a.samples());
    lemma_fields_len(rbits, pw);
    let n = total_width(pw0);
    assert(n <= 8 * (end - from) && n <= 8 * (end0 - from));
    let low = if end <= end0 {
        end
    } else {
        end0
    };
    assert forall|i: int| 0 <= i < n implies rbits[i] == rbits0[i] by {
        lemma_block_bits(b, from, low, end, i);
        lemma_block_bits(b, from, low, end0, i);
    }
    assert(rbits.take(n) =~= rbits0.take(n));
    lemma_fields_from_prefix(rbits, rbits0, pw0);
    assert forall|k: int| 0 <= k < a.samples() implies #[trigger] long.residuals[k]
        == c.residuals[k] by {
        assert(long.residuals.take(a.samples())[k] == long.residuals[k]);
    }
}

/// A short chunk is read back with its own samples in front: the bytes of
/// the chunk `c`, read as the last chunk of a stream that expects up to
/// `bound` frames, are read as a chunk of no fewer frames than `c` has, and
/// where the first two blocks of that chunk end where those of `c` end, its
/// samples begin with the samples of `c`. What may follow them are frames
/// that fit what is left of the last byte.
pub proof fn lemma_short_chunk_read_back(c: ChunkView, bound: int)
    requires
        c.wf(),
        last_row_plain(c),
        1 <= c.frames <= bound,
        same_blocks(c, held_frames(c.bytes(), head_of(c), c.channels, bound)),
    ensures
        c.frames <= held_frames(c.bytes(), head_of(c), c.channels, bound) <= bound,
        parse_chunk(
            c.bytes(),
            c.channels,
            held_frames(c.bytes(), head_of(c), c.channels, bound),
            c.scale_bits,
            c.slice_frames,
        ) is Ok,
        parse_chunk(
            c.bytes(),
            c.channels,
            held_frames(c.bytes(), head_of(c), c.channels, bound),
            c.scale_bits,
            c.slice_frames,
        )->Ok_0.samples().take(c.grid().samples()) == c.samples(),
        c.grid().samples() <= parse_chunk(
            c.bytes(),
            c.channels,
            held_frames(c.bytes(), head_of(c), c.channels, bound),
            c.scale_bits,
            c.slice_frames,
        )->Ok_0.samples().len(),
{
    let b = c.bytes();
    lemma_is_chunk(c);
    lemma_held_frames(b, head_of(c), c.channels, bound, c.frames);
    let frames = held_frames(b, head_of(c), c.channels, bound);
    lemma_parsed_front(c, frames);
    lemma_decoded_front(parse_body(b, head_of(c), c.channels, frames)->Ok_0, c);
}

/// At a constant bitrate a chunk of more frames that ends within the bytes
/// of the chunk `c` has its first two blocks end where those of `c` end.
pub proof fn lemma_cbr_same_blocks(c: ChunkView, frames: int)
    requires
        c.wf(),
        !c.vbr,
        c.frames <= frames,
        ends_within(c.bytes(), head_of(c), c.channels, frames),
    ensures
        same_blocks(c, frames),
{
    let b = c.bytes();
    let h = head_of(c);
    let a = c.grid();
    let g = grid_of(c, frames);
    assert(b + Seq::<u8>::empty() =~= b);
    lemma_chunk_round_trip(c, Seq::<u8>::empty());
    crate::codec::chunk::lemma_chunk_len(c);
    lemma_grid_grows(c.channels, c.slice_frames, c.frames, frames);
    crate::codec::size::lemma_cbr_bits(a, c.base_width as u8);
    crate::codec::size::lemma_cbr_bits(g, c.base_width as u8);
    assert(a.slices() * c.scale_bits <= g.slices() * c.scale_bits && a.samples() * c.base_width
        <= g.samples() * c.base_width) by (nonlinear_arith)
        requires
            0 <= a.slices() <= g.slices(),
            0 <= a.samples() <= g.samples(),
            0 <= c.scale_bits,
            0 <= c.base_width,
    ;
    vstd::arithmetic::div_mod::lemma_div_is_ordered(
        a.slices() * c.scale_bits + 7,
        g.slices() * c.scale_bits + 7,
        8,
    );
    vstd::arithmetic::div_mod::lemma_div_is_ordered(
        a.samples() * c.base_width + 7,
        g.samples() * c.base_width + 7,
        8,
    );
    assert(c.widths =~= uniform_widths(a.slices(), c.base_width as u8)) by {
        assert forall|j: int| 0 <= j < a.slices() implies c.widths[j] == c.base_width as u8 by {
            assert(width_allowed(c.vbr, c.base_width, c.widths[j] as int));
        }
    }
}

} // verus!
