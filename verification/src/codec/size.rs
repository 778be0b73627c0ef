use crate::codec::bits::{total_width, widths_view};
use crate::codec::chunk::{
    chunk_len, last_row_plain, lemma_chunk_len, lemma_chunk_of_wf, lemma_uniform_total,
    sample_widths_of, valid_base, width_allowed,
};
use crate::codec::encoder_base::lemma_input_grid;
use crate::codec::encoder_cbr::uniform_widths;
use crate::codec::encoder_vbr::{
    assigned_widths, bucket_of, lemma_sort_order_perm, probe_input, sort_order, sortable_slices,
    vbr_widths,
};
use crate::codec::file::{base_size, encoder_chunk, encoder_input, target_of};
use crate::codec::layout::{lemma_coords, lemma_rows, lemma_rows_count, Grid};
use crate::codec::lms::{all_wf, SeaLMS};
use crate::codec::vbr_budget::{base_width, distribution, lemma_distribution};
use crate::encoder::EncoderSettings;
use vstd::prelude::*;

verus! {

/// The sum of the residual widths of the first `c` channels of row `g`.
pub open spec fn row_sum(widths: Seq<u8>, channels: int, g: int, c: int) -> int
    decreases c,
{
    if c <= 0 {
        0
    } else {
        row_sum(widths, channels, g, c - 1) + widths[g * channels + (c - 1)]
    }
}

/// The number of residual bits of the first `j` slices: for each slice its
/// width times the number of frames of its row.
pub open spec fn slice_total(widths: Seq<u8>, grid: Grid, j: int) -> int
    decreases j,
{
    if j <= 0 {
        0
    } else {
        slice_total(widths, grid, j - 1) + widths[j - 1] * grid.row_frames((j - 1) / grid.channels)
    }
}

/// The number of residual bits of the first `k` samples, counted by rows
/// and channels.
pub open spec fn prefix_bits(widths: Seq<u8>, grid: Grid, k: int) -> int {
    let g = grid.row_at(k);
    slice_total(widths, grid, g * grid.channels) + grid.frame_at(k) * row_sum(
        widths,
        grid.channels,
        g,
        grid.channels,
    ) + row_sum(widths, grid.channels, g, grid.channel_at(k))
}

/// The residual bits of a row up to channel `c`: those of the rows before,
/// and for each channel below `c` its width times the frames of the row.
proof fn lemma_slice_total_row(widths: Seq<u8>, grid: Grid, g: int, c: int)
    requires
        grid.wf(),
        0 <= g,
        0 <= c <= grid.channels,
    ensures
        slice_total(widths, grid, g * grid.channels + c) == slice_total(
            widths,
            grid,
            g * grid.channels,
        ) + grid.row_frames(g) * row_sum(widths, grid.channels, g, c),
    decreases c,
{
    let ch = grid.channels;
    assert(0 <= g * ch) by (nonlinear_arith)
        requires
            0 <= g,
            0 <= ch,
    ;
    if c > 0 {
        lemma_slice_total_row(widths, grid, g, c - 1);
        let j = g * ch + c;
        vstd::arithmetic::div_mod::lemma_fundamental_div_mod_converse(j - 1, ch, g, c - 1);
        let rf = grid.row_frames(g);
        let a = row_sum(widths, ch, g, c - 1);
        let w = widths[g * ch + (c - 1)] as int;
        assert(rf * (a + w) == rf * a + w * rf) by (nonlinear_arith);
    } else {
        assert(grid.row_frames(g) * 0 == 0) by (nonlinear_arith);
    }
}

/// The residual bits of the samples of a chunk, added up sample by sample,
/// are those of its slices, added up slice by slice.
#[verifier::rlimit(40)]
pub proof fn lemma_prefix_bits(widths: Seq<u8>, grid: Grid, k: int)
    requires
        grid.wf(),
        widths.len() == grid.slices(),
        0 <= k <= grid.samples(),
    ensures
        total_width(widths_view(sample_widths_of(widths, grid)).take(k)) == prefix_bits(
            widths,
            grid,
            k,
        ),
    decreases k,
{
    let pw = widths_view(sample_widths_of(widths, grid));
    let ch = grid.channels;
    let sf = grid.slice_frames;
    if k == 0 {
        assert(pw.take(0) =~= Seq::<int>::empty());
        vstd::arithmetic::div_mod::lemma_fundamental_div_mod_converse(0, ch, 0, 0);
        vstd::arithmetic::div_mod::lemma_fundamental_div_mod_converse(0, sf, 0, 0);
        assert(0 * row_sum(widths, ch, 0, ch) == 0 && 0 * ch == 0) by (nonlinear_arith);
    } else {
        let p = k - 1;
        lemma_prefix_bits(widths, grid, p);
        lemma_coords(grid, p);
        let g = grid.row_at(p);
        let f = grid.frame_at(p);
        let c = grid.channel_at(p);
        assert(pw.take(k).drop_last() =~= pw.take(p));
        assert(pw.take(k).last() == widths[grid.slice_at(p)] as int);
        let rs = row_sum(widths, ch, g, ch);
        let frame = g * sf + f;
        vstd::arithmetic::div_mod::lemma_fundamental_div_mod(p / ch, sf);
        assert(sf * g == g * sf) by (nonlinear_arith);
        assert(p / ch == frame);
        assert(p == frame * ch + c);
        assert(0 <= g * sf) by (nonlinear_arith)
            requires
                0 <= g,
                0 <= sf,
        ;
        assert(0 <= frame * ch) by (nonlinear_arith)
            requires
                0 <= frame,
                0 <= ch,
        ;
        let w = widths[g * ch + c] as int;
        assert(grid.slice_at(p) == g * ch + c);
        assert(total_width(pw.take(k)) == total_width(pw.take(p)) + w);
        let base = slice_total(widths, grid, g * ch);
        assert(total_width(pw.take(p)) == base + f * rs + row_sum(widths, ch, g, c));
        assert(row_sum(widths, ch, g, c + 1) == row_sum(widths, ch, g, c) + w);
        if c + 1 < ch {
            vstd::arithmetic::div_mod::lemma_fundamental_div_mod_converse(k, ch, frame, c + 1);
            assert(grid.row_at(k) == g && grid.frame_at(k) == f && grid.channel_at(k) == c + 1);
        } else {
            assert(k == (frame + 1) * ch) by (nonlinear_arith)
                requires
                    k == frame * ch + c + 1,
                    c + 1 == ch,
            ;
            vstd::arithmetic::div_mod::lemma_fundamental_div_mod_converse(k, ch, frame + 1, 0);
            assert((f + 1) * rs == f * rs + rs) by (nonlinear_arith);
            assert(grid.channel_at(k) == 0 && k / ch == frame + 1);
            assert(row_sum(widths, ch, g, c + 1) == rs);
            if f + 1 < sf {
                vstd::arithmetic::div_mod::lemma_fundamental_div_mod_converse(
                    frame + 1,
                    sf,
                    g,
                    f + 1,
                );
                assert(grid.row_at(k) == g && grid.frame_at(k) == f + 1);
                assert(prefix_bits(widths, grid, k) == base + (f + 1) * rs + row_sum(
                    widths,
                    ch,
                    g,
                    0,
                ));
            } else {
                assert(frame + 1 == (g + 1) * sf) by (nonlinear_arith)
                    requires
                        frame == g * sf + f,
                        f + 1 == sf,
                ;
                vstd::arithmetic::div_mod::lemma_fundamental_div_mod_converse(
                    frame + 1,
                    sf,
                    g + 1,
                    0,
                );
                lemma_rows(grid, g);
                lemma_slice_total_row(widths, grid, g, ch);
                assert((g + 1) * ch == g * ch + ch) by (nonlinear_arith);
                assert(0 * row_sum(widths, ch, g + 1, ch) == 0) by (nonlinear_arith);
                assert(grid.row_at(k) == g + 1 && grid.frame_at(k) == 0);
                assert(grid.row_frames(g) == sf);
                assert(slice_total(widths, grid, (g + 1) * ch) == base + sf * rs);
                assert(sf * rs == f * rs + rs) by (nonlinear_arith)
                    requires
                        sf == f + 1,
                ;
            }
        }
    }
}

/// The number of residual bits of a chunk is, slice by slice, the width of
/// the slice times the number of frames of its row.
#[verifier::rlimit(40)]
pub proof fn lemma_residual_bits(widths: Seq<u8>, grid: Grid)
    requires
        grid.wf(),
        widths.len() == grid.slices(),
    ensures
        total_width(widths_view(sample_widths_of(widths, grid))) == slice_total(
            widths,
            grid,
            grid.slices(),
        ),
{
    let pw = widths_view(sample_widths_of(widths, grid));
    let n = grid.samples();
    let ch = grid.channels;
    let sf = grid.slice_frames;
    lemma_rows_count(grid);
    assert(0 <= n) by (nonlinear_arith)
        requires
            n == grid.frames * ch,
            0 <= grid.frames,
            0 <= ch,
    ;
    lemma_prefix_bits(widths, grid, n);
    assert(pw.take(n) =~= pw);
    // The coordinates of the end of the buffer.
    vstd::arithmetic::div_mod::lemma_fundamental_div_mod_converse(n, ch, grid.frames, 0);
    vstd::arithmetic::div_mod::lemma_fundamental_div_mod(grid.frames, sf);
    vstd::arithmetic::div_mod::lemma_mod_bound(grid.frames, sf);
    let g = grid.frames / sf;
    let f = grid.frames % sf;
    let rs = row_sum(widths, ch, g, ch);
    if f == 0 {
        assert(0 * rs == 0) by (nonlinear_arith);
    } else {
        assert(grid.rows() == g + 1);
        lemma_rows(grid, g);
        lemma_slice_total_row(widths, grid, g, ch);
        assert((g + 1) * ch == g * ch + ch) by (nonlinear_arith);
    }
}

/// With one residual width for all slices, a chunk has that width times
/// the number of its samples of residual bits.
pub proof fn lemma_cbr_bits(grid: Grid, w: u8)
    requires
        grid.wf(),
    ensures
        total_width(widths_view(sample_widths_of(uniform_widths(grid.slices(), w), grid)))
            == grid.samples() * w,
{
    let n = grid.samples();
    assert(0 <= n) by (nonlinear_arith)
        requires
            n == grid.frames * grid.channels,
            0 <= grid.frames,
            0 <= grid.channels,
    ;
    let pw = sample_widths_of(uniform_widths(grid.slices(), w), grid);
    assert forall|k: int| 0 <= k < n implies pw[k] == w by {
        lemma_coords(grid, k);
    }
    assert(pw =~= uniform_widths(n, w));
    lemma_uniform_total(n, w);
}

/// The sum of the first `j` widths.
pub open spec fn plain_sum(widths: Seq<u8>, j: int) -> int
    decreases j,
{
    if j <= 0 {
        0
    } else {
        plain_sum(widths, j - 1) + widths[j - 1]
    }
}

/// The sum of the first `j` numbers.
pub open spec fn int_sum(s: Seq<int>, j: int) -> int
    decreases j,
{
    if j <= 0 {
        0
    } else {
        int_sum(s, j - 1) + s[j - 1]
    }
}

/// The slices of the full rows have, together, the sum of their widths
/// times the frames of a slice of residual bits.
proof fn lemma_whole_rows_total(widths: Seq<u8>, grid: Grid, j: int)
    requires
        grid.wf(),
        0 <= j <= grid.whole_rows() * grid.channels,
    ensures
        slice_total(widths, grid, j) == grid.slice_frames * plain_sum(widths, j),
    decreases j,
{
    if j > 0 {
        lemma_whole_rows_total(widths, grid, j - 1);
        lemma_rows_count(grid);
        let ch = grid.channels;
        let i = j - 1;
        let g = i / ch;
        let c = i % ch;
        vstd::arithmetic::div_mod::lemma_fundamental_div_mod(i, ch);
        vstd::arithmetic::div_mod::lemma_mod_bound(i, ch);
        assert(0 <= g < grid.whole_rows()) by (nonlinear_arith)
            requires
                i == ch * g + c,
                0 <= c < ch,
                0 <= i < grid.whole_rows() * ch,
        ;
        lemma_rows(grid, g);
        let sf = grid.slice_frames;
        let a = plain_sum(widths, j - 1);
        let w = widths[j - 1] as int;
        assert(sf * (a + w) == sf * a + w * sf) by (nonlinear_arith);
    } else {
        assert(grid.slice_frames * 0 == 0) by (nonlinear_arith);
    }
}

/// The slices of a last row that is not full, all of width `t`, add `t`
/// times the frames of that row each.
proof fn lemma_partial_row_total(widths: Seq<u8>, grid: Grid, t: int, j: int)
    requires
        grid.wf(),
        widths.len() == grid.slices(),
        grid.whole_rows() * grid.channels <= j <= grid.slices(),
        forall|i: int|
            grid.whole_rows() * grid.channels <= i < grid.slices() ==> #[trigger] widths[i] == t,
    ensures
        slice_total(widths, grid, j) == slice_total(
            widths,
            grid,
            grid.whole_rows() * grid.channels,
        ) + (j - grid.whole_rows() * grid.channels) * t * (grid.frames % grid.slice_frames),
    decreases j,
{
    let n = grid.whole_rows() * grid.channels;
    let p = grid.frames % grid.slice_frames;
    lemma_rows_count(grid);
    assert(0 <= n) by (nonlinear_arith)
        requires
            n == grid.whole_rows() * grid.channels,
            0 <= grid.whole_rows(),
            0 <= grid.channels,
    ;
    if j > n {
        lemma_partial_row_total(widths, grid, t, j - 1);
        let ch = grid.channels;
        let i = j - 1;
        let g = i / ch;
        let c = i % ch;
        vstd::arithmetic::div_mod::lemma_fundamental_div_mod(i, ch);
        vstd::arithmetic::div_mod::lemma_mod_bound(i, ch);
        assert(grid.whole_rows() <= g < grid.rows()) by (nonlinear_arith)
            requires
                i == ch * g + c,
                0 <= c < ch,
                grid.whole_rows() * ch <= i < grid.rows() * ch,
        ;
        lemma_rows(grid, g);
        assert((j - n) * t * p == (j - 1 - n) * t * p + t * p) by (nonlinear_arith);
    } else {
        assert((j - n) * t * p == 0) by (nonlinear_arith)
            requires
                j == n,
        ;
    }
}

/// Changing one of the first `n` numbers changes their sum by as much.
proof fn lemma_sum_update(s: Seq<int>, i: int, v: int, n: int)
    requires
        0 <= i < n <= s.len(),
    ensures
        int_sum(s.update(i, v), n) == int_sum(s, n) + v - s[i],
    decreases n,
{
    if n - 1 > i {
        lemma_sum_update(s, i, v, n - 1);
    } else {
        lemma_sum_same(s.update(i, v), s, n - 1);
    }
}

/// Rows that agree in their first `n` numbers have the same sum of them.
proof fn lemma_sum_same(a: Seq<int>, b: Seq<int>, n: int)
    requires
        0 <= n <= a.len(),
        n <= b.len(),
        forall|i: int| 0 <= i < n ==> a[i] == b[i],
    ensures
        int_sum(a, n) == int_sum(b, n),
    decreases n,
{
    if n > 0 {
        lemma_sum_same(a, b, n - 1);
    }
}

/// The sum of widths is the sum of the numbers they are.
proof fn lemma_sum_view(a: Seq<u8>, b: Seq<int>, n: int)
    requires
        0 <= n <= a.len(),
        n <= b.len(),
        forall|i: int| 0 <= i < n ==> a[i] as int == b[i],
    ensures
        plain_sum(a, n) == int_sum(b, n),
    decreases n,
{
    if n > 0 {
        lemma_sum_view(a, b, n - 1);
    }
}

/// The sum of what the first `k` places of the rising order add to the
/// base width.
pub open spec fn offset_sum(k: int, counts: Seq<int>) -> int
    decreases k,
{
    if k <= 0 {
        0
    } else {
        offset_sum(k - 1, counts) + bucket_of(k - 1, counts)
    }
}

/// What the places of the rising order add to the base width, in closed
/// form.
proof fn lemma_offset_sum(k: int, counts: Seq<int>)
    requires
        0 <= k,
        counts.len() == 4,
        forall|i: int| 0 <= i < 4 ==> 0 <= #[trigger] counts[i],
    ensures
        offset_sum(k, counts) == -(if k < counts[0] {
            k
        } else {
            counts[0]
        }) + (if k <= counts[0] + counts[1] {
            0
        } else if k <= counts[0] + counts[1] + counts[2] {
            k - counts[0] - counts[1]
        } else {
            counts[2]
        }) + 2 * (if k <= counts[0] + counts[1] + counts[2] {
            0
        } else {
            k - counts[0] - counts[1] - counts[2]
        }),
    decreases k,
{
    if k > 0 {
        lemma_offset_sum(k - 1, counts);
        assert(0 <= counts[0] && 0 <= counts[1] && 0 <= counts[2] && 0 <= counts[3]);
    }
}

/// The widths after the first `k` places of the rising order got theirs.
spec fn staged_widths(errors: Seq<int>, n: int, base: int, counts: Seq<int>, k: int) -> Seq<int> {
    Seq::new(
        errors.len(),
        |j: int|
            if 0 <= j < n && sort_order(errors, n).index_of(j as usize) < k {
                base + bucket_of(sort_order(errors, n).index_of(j as usize), counts)
            } else {
                base
            },
    )
}

/// The sum of the widths after the first `k` places of the rising order
/// got theirs.
#[verifier::rlimit(40)]
proof fn lemma_staged_sum(errors: Seq<int>, n: int, base: int, counts: Seq<int>, k: int)
    requires
        0 <= k <= n <= errors.len(),
        n <= usize::MAX,
    ensures
        int_sum(staged_widths(errors, n, base, counts, k), n) == n * base + offset_sum(k, counts),
    decreases k,
{
    let order = sort_order(errors, n);
    lemma_sort_order_perm(errors, n);
    if k == 0 {
        let start = staged_widths(errors, n, base, counts, 0);
        assert forall|i: int| 0 <= i < n implies start[i] == base by {
            assert(order.contains(i as usize));
            let m = order.index_of(i as usize);
            assert(order[m] == i as usize);
        }
        lemma_const_sum(start, base, n);
    } else {
        lemma_staged_sum(errors, n, base, counts, k - 1);
        let before = staged_widths(errors, n, base, counts, k - 1);
        let after = staged_widths(errors, n, base, counts, k);
        let at = order[k - 1] as int;
        assert(order.index_of(order[k - 1]) == k - 1) by {
            let m = order.index_of(order[k - 1]);
            assert(order[m] == order[k - 1]);
        }
        assert forall|j: int| 0 <= j < errors.len() implies after[j] == before.update(
            at,
            base + bucket_of(k - 1, counts),
        )[j] by {
            if j != at && j < n {
                assert(order.contains(j as usize));
                let m = order.index_of(j as usize);
                assert(order[m] == j as usize);
                assert(m != k - 1);
            }
        }
        assert(after =~= before.update(at, base + bucket_of(k - 1, counts)));
        lemma_sum_update(before, at, base + bucket_of(k - 1, counts), n);
        assert(before[at] == base);
    }
}

/// The sum of `n` times the same number.
proof fn lemma_const_sum(s: Seq<int>, v: int, n: int)
    requires
        0 <= n <= s.len(),
        forall|i: int| 0 <= i < n ==> s[i] == v,
    ensures
        int_sum(s, n) == n * v,
    decreases n,
{
    if n > 0 {
        lemma_const_sum(s, v, n - 1);
        assert(n * v == (n - 1) * v + v) by (nonlinear_arith);
    } else {
        assert(n * v == 0) by (nonlinear_arith)
            requires
                n == 0,
        ;
    }
}

/// The number of residual bits of a chunk of variable bitrate, from the
/// numbers of slices of each width alone: `n` filled slices of
/// `slice_frames` frames with the base width `base` and `counts` of them
/// at each of the four widths, and `rest` slices of `partial` frames at
/// the base width.
pub open spec fn vbr_bits(
    n: int,
    rest: int,
    base: int,
    counts: Seq<int>,
    slice_frames: int,
    partial: int,
) -> int {
    slice_frames * (n * base - counts[0] + counts[2] + 2 * counts[3]) + rest * base * partial
}

/// Whatever the errors of the slices are, a chunk whose filled slices get
/// their widths by the rising order of error has a number of residual bits
/// that the numbers of slices of each width fix.
#[verifier::rlimit(40)]
pub proof fn lemma_vbr_bits(errors: Seq<int>, grid: Grid, base: int, counts: Seq<int>)
    requires
        grid.wf(),
        errors.len() == grid.slices(),
        grid.slices() <= usize::MAX,
        2 <= base <= 6,
        counts.len() == 4,
        forall|i: int| 0 <= i < 4 ==> 0 <= #[trigger] counts[i],
        counts[0] + counts[1] + counts[2] + counts[3] == grid.whole_rows() * grid.channels,
    ensures
        total_width(
            widths_view(
                sample_widths_of(
                    assigned_widths(errors, grid.whole_rows() * grid.channels, base, counts),
                    grid,
                ),
            ),
        ) == vbr_bits(
            grid.whole_rows() * grid.channels,
            grid.slices() - grid.whole_rows() * grid.channels,
            base,
            counts,
            grid.slice_frames,
            grid.frames % grid.slice_frames,
        ),
{
    let n = grid.whole_rows() * grid.channels;
    let widths = assigned_widths(errors, n, base, counts);
    lemma_rows_count(grid);
    assert(0 <= n <= grid.slices()) by (nonlinear_arith)
        requires
            n == grid.whole_rows() * grid.channels,
            grid.slices() == grid.rows() * grid.channels,
            0 <= grid.whole_rows() <= grid.rows(),
            0 <= grid.channels,
    ;
    lemma_residual_bits(widths, grid);
    lemma_partial_row_total(widths, grid, base, grid.slices());
    lemma_whole_rows_total(widths, grid, n);
    lemma_staged_sum(errors, n, base, counts, n);
    lemma_offset_sum(n, counts);
    lemma_sort_order_perm(errors, n);
    let order = sort_order(errors, n);
    let staged = staged_widths(errors, n, base, counts, n);
    assert forall|i: int| 0 <= i < n implies widths[i] as int == staged[i] by {
        assert(order.contains(i as usize));
        let m = order.index_of(i as usize);
        assert(order[m] == i as usize);
        assert(-1 <= bucket_of(m, counts) <= 2);
    }
    lemma_sum_view(widths, staged, n);
}

/// The number of bytes of a chunk of `frames` frames of `channels` channels
/// that is made with `settings`.
pub open spec fn encoded_len(settings: EncoderSettings, channels: int, frames: int) -> int {
    let grid = Grid { channels, slice_frames: settings.scale_factor_frames as int, frames };
    let n = grid.whole_rows() * channels;
    chunk_len(
        settings.vbr,
        channels,
        grid.slices(),
        settings.scale_factor_bits as int,
        if settings.vbr {
            vbr_bits(
                n,
                grid.slices() - n,
                base_width(settings.target_num(), settings.target_den()),
                distribution(n, settings.target_num(), settings.target_den()),
                settings.scale_factor_frames as int,
                frames % (settings.scale_factor_frames as int),
            )
        } else {
            grid.samples() * settings.cbr_width()
        },
    )
}

/// The samples are whole frames, no more than a chunk holds, and there is
/// a predictor of 16-bit values for each of 1 to 255 channels.
pub open spec fn chunk_samples_ok(lms: Seq<SeaLMS>, samples: Seq<i16>) -> bool {
    &&& 1 <= lms.len() <= 255
    &&& all_wf(lms)
    &&& samples.len() % lms.len() == 0
    &&& samples.len() as int / lms.len() as int <= 65535
}

/// What a chunk is encoded from is well-formed, and so is the chunk.
#[verifier::rlimit(40)]
pub proof fn lemma_encoder_chunk_wf(settings: EncoderSettings, lms: Seq<SeaLMS>, samples: Seq<i16>)
    requires
        settings.wf(),
        chunk_samples_ok(lms, samples),
    ensures
        encoder_input(settings, lms, samples).wf(),
        encoder_chunk(settings, lms, samples).wf(),
        encoder_chunk(settings, lms, samples).channels == lms.len(),
        encoder_chunk(settings, lms, samples).frames == samples.len() as int / lms.len() as int,
        valid_base(settings.vbr, base_size(settings)),
{
    let inp = encoder_input(settings, lms, samples);
    let channels = lms.len() as int;
    let grid = inp.grid();
    let num = settings.target_num();
    let den = settings.target_den();
    assert(0 < den) by (nonlinear_arith)
        requires
            den == 1000 * settings.frames_per_chunk * settings.scale_factor_frames,
            1 <= settings.frames_per_chunk,
            1 <= settings.scale_factor_frames,
    ;
    if settings.vbr {
        let target = target_of(settings);
        assert(den <= 1000 * 65535 * 255) by (nonlinear_arith)
            requires
                den == 1000 * settings.frames_per_chunk * settings.scale_factor_frames,
                settings.frames_per_chunk <= 65535,
                settings.scale_factor_frames <= 255,
        ;
        assert(target.num == num && target.den == den);
        let probe = probe_input(
            lms,
            samples,
            settings.scale_factor_frames as int,
            settings.scale_factor_bits as int,
            target,
        );
        assert(probe.grid() == grid);
        assert(probe.errors().len() == grid.slices());
        let n = sortable_slices(samples.len() as int, channels, settings.scale_factor_frames as int);
        lemma_rows_count(Grid { channels, slice_frames: grid.slice_frames, frames: grid.frames });
        assert(0 <= n) by (nonlinear_arith)
            requires
                n == grid.whole_rows() * channels,
                0 <= grid.whole_rows(),
                0 <= channels,
        ;
        lemma_distribution(n, num, den);
        let widths = vbr_widths(
            lms,
            samples,
            settings.scale_factor_frames as int,
            settings.scale_factor_bits as int,
            target,
        );
        assert forall|j: int| 0 <= j < inp.widths.len() implies valid_width_in(
            #[trigger] inp.widths[j],
            base_size(settings),
        ) by {
            let b = bucket_of(sort_order(probe.errors(), n).index_of(j as usize), distribution(
                n,
                num,
                den,
            ));
            assert(-1 <= b <= 2);
        }
    } else {
        assert forall|j: int| 0 <= j < inp.widths.len() implies valid_width_in(
            #[trigger] inp.widths[j],
            base_size(settings),
        ) by {}
    }
    assert(inp.widths.len() == grid.slices());
    assert forall|j: int| 0 <= j < inp.widths.len() implies crate::codec::dqt::valid_width(
        #[trigger] inp.widths[j],
    ) && width_allowed(settings.vbr, base_size(settings), inp.widths[j]) by {
        assert(valid_width_in(inp.widths[j], base_size(settings)));
    }
    lemma_input_grid(inp);
    lemma_chunk_of_wf(inp, settings.vbr, base_size(settings));
}

/// In a chunk that an encoder makes the slices of a last row that is not
/// full have the base width.
pub proof fn lemma_encoder_chunk_plain(
    settings: EncoderSettings,
    lms: Seq<SeaLMS>,
    samples: Seq<i16>,
)
    requires
        settings.wf(),
        chunk_samples_ok(lms, samples),
    ensures
        last_row_plain(encoder_chunk(settings, lms, samples)),
{
    let c = encoder_chunk(settings, lms, samples);
    let inp = encoder_input(settings, lms, samples);
    lemma_encoder_chunk_wf(settings, lms, samples);
    lemma_input_grid(inp);
    assert(c.grid() == inp.grid());
    if settings.vbr {
        let num = settings.target_num();
        let den = settings.target_den();
        assert(0 < den <= 1000 * 65535 * 255) by (nonlinear_arith)
            requires
                den == 1000 * settings.frames_per_chunk * settings.scale_factor_frames,
                1 <= settings.frames_per_chunk <= 65535,
                1 <= settings.scale_factor_frames <= 255,
        ;
        let target = target_of(settings);
        assert(target.num == num && target.den == den);
        lemma_distribution(0, num, den);
    }
    assert forall|j: int| c.grid().whole_rows() * c.channels <= j < c.widths.len() implies #[trigger] c.widths[j]
        == c.base_width by {
        lemma_rows_count(c.grid());
        assert(0 <= c.grid().whole_rows() * c.channels) by (nonlinear_arith)
            requires
                0 <= c.grid().whole_rows(),
                0 <= c.channels,
        ;
        assert(c.widths[j] == inp.widths[j] as u8);
    }
}

/// The width lies between one below and two above the base, and the base
/// between 2 and 6; or it is the base, and that between 1 and 8.
spec fn valid_width_in(w: int, base: int) -> bool {
    (base - 1 <= w <= base + 2 && 2 <= base <= 6) || (w == base && 1 <= base <= 8)
}

/// A chunk has the number of bytes that the settings, the number of
/// channels and the number of frames fix: whatever the samples are, and
/// wherever the predictors stand.
#[verifier::rlimit(40)]
pub proof fn lemma_encoded_len(settings: EncoderSettings, lms: Seq<SeaLMS>, samples: Seq<i16>)
    requires
        settings.wf(),
        chunk_samples_ok(lms, samples),
    ensures
        encoder_chunk(settings, lms, samples).bytes().len() == encoded_len(
            settings,
            lms.len() as int,
            samples.len() as int / lms.len() as int,
        ),
{
    let inp = encoder_input(settings, lms, samples);
    let c = encoder_chunk(settings, lms, samples);
    let channels = lms.len() as int;
    let grid = inp.grid();
    lemma_encoder_chunk_wf(settings, lms, samples);
    lemma_chunk_len(c);
    lemma_input_grid(inp);
    assert(c.grid() == grid);
    lemma_rows_count(grid);
    assert(grid.samples() <= 65535 * 255) by (nonlinear_arith)
        requires
            grid.samples() == grid.frames * grid.channels,
            0 <= grid.frames <= 65535,
            1 <= grid.channels <= 255,
    ;
    if settings.vbr {
        let target = target_of(settings);
        let num = settings.target_num();
        let den = settings.target_den();
        assert(0 < den <= 1000 * 65535 * 255) by (nonlinear_arith)
            requires
                den == 1000 * settings.frames_per_chunk * settings.scale_factor_frames,
                1 <= settings.frames_per_chunk <= 65535,
                1 <= settings.scale_factor_frames <= 255,
        ;
        assert(target.num == num && target.den == den);
        let probe = probe_input(
            lms,
            samples,
            settings.scale_factor_frames as int,
            settings.scale_factor_bits as int,
            target,
        );
        let n = grid.whole_rows() * channels;
        assert(0 <= n) by (nonlinear_arith)
            requires
                n == grid.whole_rows() * channels,
                0 <= grid.whole_rows(),
                0 <= channels,
        ;
        lemma_distribution(n, num, den);
        assert(probe.errors().len() == grid.slices());
        lemma_vbr_bits(
            probe.errors(),
            grid,
            base_width(num, den),
            distribution(n, num, den),
        );
        assert(c.widths =~= assigned_widths(
            probe.errors(),
            n,
            base_width(num, den),
            distribution(n, num, den),
        ));
    } else {
        lemma_cbr_bits(grid, settings.cbr_width() as u8);
        assert(c.widths =~= uniform_widths(grid.slices(), settings.cbr_width() as u8));
    }
}

} // verus!
