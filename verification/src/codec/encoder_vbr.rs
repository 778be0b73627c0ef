use crate::codec::dqt::{valid_scale_bits, valid_width, SeaDequantTab};
use crate::codec::encoder_base::{
    chunk_input, errors_view, lemma_input_grid, ChunkInput, EncoderBase,
};
use crate::codec::encoder_cbr::{count_slices, slices_of, uniform_widths, EncodedSamples};
use crate::codec::file::SeaFileHeader;
use crate::codec::layout::{lemma_rows_count, Grid};
use crate::codec::lms::SeaLMS;
use crate::codec::vbr_budget::{base_width, counts_view, distribution, VbrTarget};
use crate::encoder::EncoderSettings;
use vstd::prelude::*;

verus! {

/// Where a slice with the error `x` goes into a row of slices in rising
/// order of error: behind the last slice whose error is not greater.
pub open spec fn insert_at(order: Seq<usize>, errors: Seq<int>, x: int) -> int
    decreases order.len(),
{
    if order.len() == 0 {
        0
    } else if errors[order.last() as int] <= x {
        order.len() as int
    } else {
        insert_at(order.drop_last(), errors, x)
    }
}

/// The first `n` slices in rising order of error; of slices with the same
/// error, the one with the lower index first.
pub open spec fn sort_order(errors: Seq<int>, n: int) -> Seq<usize>
    decreases n,
{
    if n <= 0 {
        Seq::<usize>::empty()
    } else {
        let prev = sort_order(errors, n - 1);
        prev.insert(insert_at(prev, errors, errors[n - 1]), (n - 1) as usize)
    }
}

/// How far above the base width the slice at place `rank` of the rising
/// order is: the first `counts[0]` slices are one below, the next
/// `counts[1]` at the base, the next `counts[2]` one above, the rest two.
pub open spec fn bucket_of(rank: int, counts: Seq<int>) -> int {
    if rank < counts[0] {
        -1
    } else if rank < counts[0] + counts[1] {
        0
    } else if rank < counts[0] + counts[1] + counts[2] {
        1
    } else {
        2
    }
}

/// The residual width of every slice: for the first `n` slices the base
/// width plus what their place in the rising order of error gives, for the
/// others the base width.
pub open spec fn assigned_widths(errors: Seq<int>, n: int, base: int, counts: Seq<int>) -> Seq<
    u8,
> {
    Seq::new(
        errors.len(),
        |j: int|
            if 0 <= j < n {
                (base + bucket_of(sort_order(errors, n).index_of(j as usize), counts)) as u8
            } else {
                base as u8
            },
    )
}

/// The place of insertion lies within the row.
pub proof fn lemma_insert_at(order: Seq<usize>, errors: Seq<int>, x: int)
    ensures
        0 <= insert_at(order, errors, x) <= order.len(),
    decreases order.len(),
{
    if order.len() > 0 {
        lemma_insert_at(order.drop_last(), errors, x);
    }
}

/// The rising order of the first `n` slices holds each of them once.
#[verifier::rlimit(40)]
pub proof fn lemma_sort_order_perm(errors: Seq<int>, n: int)
    requires
        0 <= n <= usize::MAX,
    ensures
        sort_order(errors, n).len() == n,
        forall|m: int| 0 <= m < n ==> 0 <= (#[trigger] sort_order(errors, n)[m]) < n,
        sort_order(errors, n).no_duplicates(),
        forall|j: usize| j < n ==> #[trigger] sort_order(errors, n).contains(j),
    decreases n,
{
    if n > 0 {
        lemma_sort_order_perm(errors, n - 1);
        let prev = sort_order(errors, n - 1);
        let p = insert_at(prev, errors, errors[n - 1]);
        lemma_insert_at(prev, errors, errors[n - 1]);
        let cur = sort_order(errors, n);
        let last = (n - 1) as usize;
        assert(cur == prev.insert(p, last));
        assert(cur.len() == n);
        assert forall|m: int| 0 <= m < n implies #[trigger] cur[m] == (if m < p {
            prev[m]
        } else if m == p {
            last
        } else {
            prev[m - 1]
        }) by {}
        assert forall|a: int, b: int| 0 <= a < n && 0 <= b < n && a != b implies cur[a]
            != cur[b] by {
            let ia = if a < p {
                a
            } else {
                a - 1
            };
            let ib = if b < p {
                b
            } else {
                b - 1
            };
            if a != p && b != p {
                assert(prev[ia] != prev[ib]);
            }
        }
        assert forall|j: usize| j < n implies #[trigger] cur.contains(j) by {
            if j == n - 1 {
                assert(cur[p] == last);
            } else {
                assert(prev.contains(j));
                let m = choose|m: int| 0 <= m < prev.len() && prev[m] == j;
                if m < p {
                    assert(cur[m] == j);
                } else {
                    assert(cur[m + 1] == j);
                }
            }
        }
    }
}

/// The rising order is rising: a slice that comes earlier has the smaller
/// error, or the same error and the lower index.
#[verifier::rlimit(40)]
pub proof fn lemma_sort_order_sorted(errors: Seq<int>, n: int)
    requires
        0 <= n <= usize::MAX,
        n <= errors.len(),
    ensures
        forall|a: int, b: int|
            0 <= a < b < n ==> errors[(#[trigger] sort_order(errors, n)[a]) as int] < errors[(
            #[trigger] sort_order(errors, n)[b]) as int] || (errors[sort_order(errors, n)[a] as int]
                == errors[sort_order(errors, n)[b] as int] && sort_order(errors, n)[a]
                < sort_order(errors, n)[b]),
    decreases n,
{
    if n > 0 {
        lemma_sort_order_sorted(errors, n - 1);
        lemma_sort_order_perm(errors, n - 1);
        let prev = sort_order(errors, n - 1);
        let x = errors[n - 1];
        let p = insert_at(prev, errors, x);
        lemma_insert_at(prev, errors, x);
        lemma_insert_split(prev, errors, x);
        let cur = sort_order(errors, n);
        let last = (n - 1) as usize;
        assert forall|m: int| 0 <= m < n implies #[trigger] cur[m] == (if m < p {
            prev[m]
        } else if m == p {
            last
        } else {
            prev[m - 1]
        }) by {}
        assert forall|a: int, b: int| 0 <= a < b < n implies errors[(#[trigger] cur[a]) as int]
            < errors[(#[trigger] cur[b]) as int] || (errors[cur[a] as int] == errors[cur[b] as int]
            && cur[a] < cur[b]) by {
            if b == p {
                assert(cur[a] == prev[a]);
            } else if a == p {
                assert(cur[b] == prev[b - 1]);
            } else {
                let ia = if a < p {
                    a
                } else {
                    a - 1
                };
                let ib = if b < p {
                    b
                } else {
                    b - 1
                };
                assert(cur[a] == prev[ia] && cur[b] == prev[ib]);
            }
        }
    }
}

/// In a row in rising order, the slices before the place of insertion have
/// errors that are not greater, and those from it on have greater errors.
#[verifier::rlimit(40)]
proof fn lemma_insert_split(order: Seq<usize>, errors: Seq<int>, x: int)
    requires
        forall|a: int, b: int|
            0 <= a < b < order.len() ==> errors[(#[trigger] order[a]) as int] <= errors[(
            #[trigger] order[b]) as int],
    ensures
        forall|m: int|
            0 <= m < insert_at(order, errors, x) ==> errors[(#[trigger] order[m]) as int] <= x,
        forall|m: int|
            insert_at(order, errors, x) <= m < order.len() ==> errors[(#[trigger] order[m]) as int]
                > x,
    decreases order.len(),
{
    if order.len() > 0 {
        let front = order.drop_last();
        if errors[order.last() as int] <= x {
            assert forall|m: int| 0 <= m < order.len() implies errors[(
            #[trigger] order[m]) as int] <= x by {
                if m < order.len() - 1 {
                    assert(errors[order[m] as int] <= errors[order[order.len() - 1] as int]);
                }
            }
        } else {
            assert forall|a: int, b: int| 0 <= a < b < front.len() implies errors[(
            #[trigger] front[a]) as int] <= errors[(#[trigger] front[b]) as int] by {
                assert(front[a] == order[a] && front[b] == order[b]);
            }
            lemma_insert_split(front, errors, x);
            lemma_insert_at(front, errors, x);
            assert forall|m: int| 0 <= m < insert_at(order, errors, x) implies errors[(
            #[trigger] order[m]) as int] <= x by {
                assert(order[m] == front[m]);
            }
            assert forall|m: int| insert_at(order, errors, x) <= m < order.len() implies errors[(
            #[trigger] order[m]) as int] > x by {
                if m < order.len() - 1 {
                    assert(order[m] == front[m]);
                }
            }
        }
    }
}

/// The first `n` slices in rising order of error.
#[verifier::rlimit(40)]
fn order_by_error(errors: &Vec<u64>, n: usize) -> (order: Vec<usize>)
    requires
        n <= errors@.len(),
    ensures
        order@ == sort_order(errors_view(errors@), n as int),
{
    let ghost es = errors_view(errors@);
    let mut order: Vec<usize> = Vec::new();
    let mut i: usize = 0;
    while i < n
        invariant
            n <= errors@.len(),
            es == errors_view(errors@),
            i <= n,
            order@ == sort_order(es, i as int),
            order@.len() == i,
            forall|m: int| 0 <= m < i ==> 0 <= (#[trigger] order@[m]) < i,
        decreases n - i,
    {
        let x = errors[i];
        let mut p: usize = i;
        let ghost full = order@;
        proof {
            assert(full.take(p as int) =~= full);
        }
        while p > 0 && errors[order[p - 1]] > x
            invariant
                p <= i,
                order@ == full,
                full.len() == i,
                i < errors@.len(),
                x == errors@[i as int],
                es == errors_view(errors@),
                forall|m: int| 0 <= m < i ==> 0 <= (#[trigger] full[m]) < i,
                insert_at(full, es, x as int) == insert_at(full.take(p as int), es, x as int),
            decreases p,
        {
            proof {
                assert(full.take(p as int).drop_last() =~= full.take(p as int - 1));
                assert(full.take(p as int).last() == full[p as int - 1]);
            }
            p = p - 1;
        }
        proof {
            if p > 0 {
                assert(full.take(p as int).last() == full[p as int - 1]);
                assert(full.take(p as int).len() == p);
            }
            lemma_sort_order_perm(es, i as int);
        }
        order.insert(p, i);
        proof {
            assert(order@ =~= full.insert(p as int, i));
            assert forall|m: int| 0 <= m < i + 1 implies 0 <= (#[trigger] order@[m]) < i + 1 by {
                if m < p {
                    assert(order@[m] == full[m]);
                } else if m > p {
                    assert(order@[m] == full[m - 1]);
                }
            }
        }
        i += 1;
    }
    order
}

/// The encoder that gives the slices with the largest errors the widest
/// residuals, so that the mean width of a chunk comes close to a target.
pub struct VbrEncoder {
    pub channels: usize,
    pub scale_factor_frames: u8,
    /// The mean residual width that is aimed at, if the settings give one
    /// between two and six bits.
    pub vbr_target_bitrate: Option<VbrTarget>,
    pub base_encoder: EncoderBase,
}

/// The residual width of the analysis pass: one more than the whole bits
/// of the target.
pub open spec fn probe_width(target: VbrTarget) -> int {
    target.num as int / target.den as int + 1
}

/// The number of slices that are filled: those of the full rows.
pub open spec fn sortable_slices(samples: int, channels: int, slice_frames: int) -> int {
    (Grid { channels, slice_frames, frames: samples / channels }).whole_rows() * channels
}

/// What the analysis pass encodes: every slice with the probe width.
pub open spec fn probe_input(
    lms: Seq<SeaLMS>,
    samples: Seq<i16>,
    slice_frames: int,
    sfb: int,
    target: VbrTarget,
) -> ChunkInput {
    chunk_input(
        lms,
        samples,
        slice_frames,
        sfb,
        uniform_widths(
            slices_of(samples.len() as int, lms.len() as int, slice_frames),
            probe_width(target) as u8,
        ),
    )
}

/// The residual width that a variable bitrate gives each slice of a chunk.
pub open spec fn vbr_widths(
    lms: Seq<SeaLMS>,
    samples: Seq<i16>,
    slice_frames: int,
    sfb: int,
    target: VbrTarget,
) -> Seq<u8> {
    let n = sortable_slices(samples.len() as int, lms.len() as int, slice_frames);
    assigned_widths(
        probe_input(lms, samples, slice_frames, sfb, target).errors(),
        n,
        base_width(target.num as int, target.den as int),
        distribution(n, target.num as int, target.den as int),
    )
}

impl VbrEncoder {
    /// The encoder has a predictor for each channel, a target between two
    /// and six bits, and slices that hold a frame.
    pub open spec fn wf(&self) -> bool {
        &&& self.base_encoder.wf()
        &&& self.base_encoder.channels == self.channels
        &&& 1 <= self.scale_factor_frames
        &&& self.vbr_target_bitrate is Some
        &&& self.vbr_target_bitrate->0.wf()
    }

    /// The mean residual width that is aimed at.
    pub open spec fn target(&self) -> VbrTarget {
        self.vbr_target_bitrate->0
    }

    /// What the encoder encodes the samples from, with tables for `sfb`
    /// scale-factor bits.
    pub open spec fn input(&self, samples: Seq<i16>, sfb: int) -> ChunkInput {
        chunk_input(
            self.base_encoder.lms@,
            samples,
            self.scale_factor_frames as int,
            sfb,
            vbr_widths(
                self.base_encoder.lms@,
                samples,
                self.scale_factor_frames as int,
                sfb,
                self.target(),
            ),
        )
    }

    /// An encoder with zeroed predictors for the stream that the header
    /// describes.
    pub fn new(file_header: &SeaFileHeader, encoder_settings: &EncoderSettings) -> (e: Self)
        requires
            file_header.channels >= 1,
            encoder_settings.basic_wf(),
        ensures
            e.base_encoder.wf(),
            e.base_encoder.channels == e.channels,
            e.channels == file_header.channels,
            e.scale_factor_frames == encoder_settings.scale_factor_frames,
            e.vbr_target_bitrate is Some <==> encoder_settings.target_wf(),
            e.vbr_target_bitrate is Some ==> e.wf() && e.target().num
                == encoder_settings.target_num() && e.target().den
                == encoder_settings.target_den(),
            e.base_encoder.lms@ == Seq::new(
                file_header.channels as nat,
                |i: int| SeaLMS::new_spec(),
            ),
    {
        let base_encoder = EncoderBase::new(
            file_header.channels as usize,
            encoder_settings.scale_factor_bits as usize,
        );
        assert(base_encoder.lms@ =~= Seq::new(
            file_header.channels as nat,
            |i: int| SeaLMS::new_spec(),
        ));
        VbrEncoder {
            channels: file_header.channels as usize,
            scale_factor_frames: encoder_settings.scale_factor_frames,
            base_encoder,
            vbr_target_bitrate: Self::get_normalized_vbr_bitrate(encoder_settings),
        }
    }

    /// The predictor of every channel.
    pub fn get_lms(&self) -> (lms: &Vec<SeaLMS>)
        ensures
            lms@ == self.base_encoder.lms@,
    {
        &self.base_encoder.lms
    }

    /// The mean residual width that is aimed at: the residual width of the
    /// settings less what the predictors, the scale factors and the width
    /// codes of a chunk cost per sample; nothing when that is not between
    /// two and six bits.
    pub fn get_normalized_vbr_bitrate(encoder_settings: &EncoderSettings) -> (t: Option<VbrTarget>)
        requires
            encoder_settings.basic_wf(),
        ensures
            t is Some <==> encoder_settings.target_wf(),
            t is Some ==> t->0.wf() && t->0.num == encoder_settings.target_num() && t->0.den
                == encoder_settings.target_den(),
    {
        encoder_settings.vbr_target()
    }

    /// Gives every slice its residual width from the errors of the analysis
    /// pass: the slices of the full rows, in rising order of error, get the
    /// widths `t - 1`, `t`, `t + 1`, `t + 2` in the numbers that the
    /// distribution gives; the slices of a last row that is not full get `t`.
    #[verifier::rlimit(40)]
    pub fn choose_residual_len_from_errors(&self, input_len: usize, errors: &Vec<u64>) -> (r: Vec<
        u8,
    >)
        requires
            self.wf(),
            sortable_slices(
                input_len as int,
                self.channels as int,
                self.scale_factor_frames as int,
            ) <= errors@.len(),
        ensures
            r@ == assigned_widths(
                errors_view(errors@),
                sortable_slices(
                    input_len as int,
                    self.channels as int,
                    self.scale_factor_frames as int,
                ),
                base_width(self.target().num as int, self.target().den as int),
                distribution(
                    sortable_slices(
                        input_len as int,
                        self.channels as int,
                        self.scale_factor_frames as int,
                    ),
                    self.target().num as int,
                    self.target().den as int,
                ),
            ),
            forall|j: int|
                0 <= j < r@.len() ==> base_width(
                    self.target().num as int,
                    self.target().den as int,
                ) - 1 <= (#[trigger] r@[j]) <= base_width(
                    self.target().num as int,
                    self.target().den as int,
                ) + 2,
            2 <= base_width(self.target().num as int, self.target().den as int) <= 6,
            r@.len() == errors@.len(),
    {
        let frames = input_len / self.channels;
        let whole_rows = frames / self.scale_factor_frames as usize;
        proof {
            let grid = Grid {
                channels: self.channels as int,
                slice_frames: self.scale_factor_frames as int,
                frames: frames as int,
            };
            lemma_rows_count(grid);
            vstd::arithmetic::div_mod::lemma_fundamental_div_mod(
                input_len as int,
                self.channels as int,
            );
            vstd::arithmetic::div_mod::lemma_mod_bound(input_len as int, self.channels as int);
            let m = input_len as int % self.channels as int;
            assert(0 <= whole_rows * self.channels <= input_len) by (nonlinear_arith)
                requires
                    0 <= whole_rows <= frames,
                    input_len == self.channels * frames + m,
                    0 <= m,
                    1 <= self.channels,
            ;
        }
        let sortable_items = whole_rows * self.channels;
        let ghost es = errors_view(errors@);
        let order = order_by_error(errors, sortable_items);
        let target = match self.vbr_target_bitrate {
            Some(t) => t,
            None => VbrTarget { num: 2, den: 1 },
        };
        let (base_residual, counts) = Self::interpolate_distribution(sortable_items, target);
        let ghost cs = counts_view(counts);
        let base_residual_bits = base_residual as u8;
        let mut residual_sizes: Vec<u8> = Vec::new();
        residual_sizes.resize(errors.len(), base_residual_bits);
        let first = counts[0];
        let second = first + counts[1];
        let third = second + counts[2];
        proof {
            lemma_sort_order_perm(es, sortable_items as int);
        }
        let mut k: usize = 0;
        while k < sortable_items
            invariant
                k <= sortable_items <= errors@.len(),
                order@ == sort_order(es, sortable_items as int),
                order@.len() == sortable_items,
                order@.no_duplicates(),
                forall|m: int| 0 <= m < sortable_items ==> 0 <= (#[trigger] order@[m])
                    < sortable_items,
                2 <= base_residual_bits <= 6,
                cs == counts_view(counts),
                first == cs[0],
                second == cs[0] + cs[1],
                third == cs[0] + cs[1] + cs[2],
                residual_sizes@.len() == errors@.len(),
                forall|m: int|
                    0 <= m < k ==> residual_sizes@[(#[trigger] order@[m]) as int] == (
                    base_residual_bits + bucket_of(m, cs)) as u8,
                forall|m: int|
                    k <= m < sortable_items ==> residual_sizes@[(#[trigger] order@[m]) as int]
                        == base_residual_bits,
                forall|j: int|
                    sortable_items <= j < errors@.len() ==> #[trigger] residual_sizes@[j]
                        == base_residual_bits,
                forall|j: int|
                    0 <= j < residual_sizes@.len() ==> base_residual_bits - 1 <= (
                    #[trigger] residual_sizes@[j]) <= base_residual_bits + 2,
            decreases sortable_items - k,
        {
            let size = if k < first {
                base_residual_bits - 1
            } else if k < second {
                base_residual_bits
            } else if k < third {
                base_residual_bits + 1
            } else {
                base_residual_bits + 2
            };
            let at = order[k];
            residual_sizes[at] = size;
            proof {
                assert forall|m: int| 0 <= m < k + 1 implies residual_sizes@[(
                #[trigger] order@[m]) as int] == (base_residual_bits + bucket_of(m, cs)) as u8 by {
                    if m < k {
                        assert(order@[m] != order@[k as int]);
                    }
                }
                assert forall|m: int| k + 1 <= m < sortable_items implies residual_sizes@[(
                #[trigger] order@[m]) as int] == base_residual_bits by {
                    assert(order@[m] != order@[k as int]);
                }
            }
            k += 1;
        }
        proof {
            let want = assigned_widths(
                es,
                sortable_items as int,
                base_residual_bits as int,
                cs,
            );
            assert forall|j: int| 0 <= j < errors@.len() implies residual_sizes@[j] == want[j] by {
                if j < sortable_items {
                    assert(order@.contains(j as usize));
                    let m = order@.index_of(j as usize);
                    assert(order@[m] == j as usize);
                }
            }
            assert(residual_sizes@ =~= want);
        }
        residual_sizes
    }
}

impl VbrEncoder {
    /// Chooses the residual width of every slice of a chunk: encodes the
    /// chunk with the probe width to learn the error of every slice, puts
    /// the predictors back where they were, and hands the widths out by the
    /// errors.
    #[verifier::rlimit(40)]
    pub fn analyze(&mut self, input_slice: &[i16], tab: &SeaDequantTab) -> (r: Vec<u8>)
        requires
            old(self).wf(),
            tab.wf(),
            valid_scale_bits(tab.scale_bits()),
            input_slice@.len() as int % old(self).channels as int == 0,
        ensures
            final(self).wf(),
            final(self).channels == old(self).channels,
            final(self).scale_factor_frames == old(self).scale_factor_frames,
            final(self).vbr_target_bitrate == old(self).vbr_target_bitrate,
            final(self).base_encoder.lms@ == old(self).base_encoder.lms@,
            r@ == vbr_widths(
                old(self).base_encoder.lms@,
                input_slice@,
                old(self).scale_factor_frames as int,
                tab.scale_bits(),
                old(self).target(),
            ),
            old(self).input(input_slice@, tab.scale_bits()).wf(),
            2 <= base_width(old(self).target().num as int, old(self).target().den as int) <= 6,
            forall|j: int|
                0 <= j < r@.len() ==> base_width(
                    old(self).target().num as int,
                    old(self).target().den as int,
                ) - 1 <= (#[trigger] r@[j]) <= base_width(
                    old(self).target().num as int,
                    old(self).target().den as int,
                ) + 2,
    {
        let target = match self.vbr_target_bitrate {
            Some(t) => t,
            None => VbrTarget { num: 2, den: 1 },
        };
        proof {
            let q = target.num as int / target.den as int;
            vstd::arithmetic::div_mod::lemma_fundamental_div_mod(
                target.num as int,
                target.den as int,
            );
            vstd::arithmetic::div_mod::lemma_mod_bound(target.num as int, target.den as int);
            let m = target.num as int % target.den as int;
            assert(2 <= q <= 6) by (nonlinear_arith)
                requires
                    target.num == target.den * q + m,
                    0 <= m < target.den,
                    2 * target.den <= target.num <= 6 * target.den,
            ;
        }
        let analyze_residual_size: u8 = (target.num / target.den) as u8 + 1;
        let slices = count_slices(
            input_slice.len(),
            self.channels,
            self.scale_factor_frames as usize,
        );
        let mut residual_sizes: Vec<u8> = Vec::new();
        residual_sizes.resize(slices, analyze_residual_size);
        let ghost probe = probe_input(
            self.base_encoder.lms@,
            input_slice@,
            self.scale_factor_frames as int,
            tab.scale_bits(),
            target,
        );
        proof {
            assert(residual_sizes@ =~= uniform_widths(slices as int, analyze_residual_size));
            assert(probe.widths.len() == probe.grid().slices());
            lemma_input_grid(probe);
            lemma_rows_count(probe.grid());
            assert(probe.grid().whole_rows() * self.channels <= probe.grid().rows()
                * self.channels) by (nonlinear_arith)
                requires
                    probe.grid().whole_rows() <= probe.grid().rows(),
                    0 <= self.channels,
            ;
        }
        let saved_lms = self.base_encoder.lms.clone();
        assert(saved_lms@ =~= self.base_encoder.lms@);
        let rows = self.base_encoder.get_residuals_for_chunk(
            tab,
            input_slice,
            self.scale_factor_frames as usize,
            &residual_sizes,
        );
        self.base_encoder.lms = saved_lms;
        proof {
            assert(errors_view(rows.errors@).len() == rows.errors@.len());
            assert(probe.errors().len() == probe.grid().slices());
        }
        let widths = self.choose_residual_len_from_errors(input_slice.len(), &rows.errors);
        proof {
            let inp = old(self).input(input_slice@, tab.scale_bits());
            assert(inp.widths.len() == inp.grid().slices());
            assert forall|j: int| 0 <= j < inp.widths.len() implies valid_width(
                #[trigger] inp.widths[j],
            ) by {
                assert(inp.widths[j] == widths@[j] as int);
                assert(widths@[j] <= 8 && widths@[j] >= 1);
            }
        }
        widths
    }

    /// Encodes the samples of one chunk, every slice with the residual
    /// width that the analysis gives it, and moves the predictors past the
    /// chunk.
    #[verifier::rlimit(40)]
    pub fn encode(&mut self, samples: &[i16], tab: &SeaDequantTab) -> (r: EncodedSamples)
        requires
            old(self).wf(),
            tab.wf(),
            valid_scale_bits(tab.scale_bits()),
            samples@.len() as int % old(self).channels as int == 0,
        ensures
            final(self).wf(),
            final(self).channels == old(self).channels,
            final(self).scale_factor_frames == old(self).scale_factor_frames,
            final(self).vbr_target_bitrate == old(self).vbr_target_bitrate,
            old(self).input(samples@, tab.scale_bits()).wf(),
            2 <= base_width(old(self).target().num as int, old(self).target().den as int) <= 6,
            r.scale_factors@ == old(self).input(samples@, tab.scale_bits()).scale_factors(),
            r.residuals@ == old(self).input(samples@, tab.scale_bits()).residuals(),
            r.residual_bits@ == vbr_widths(
                old(self).base_encoder.lms@,
                samples@,
                old(self).scale_factor_frames as int,
                tab.scale_bits(),
                old(self).target(),
            ),
            forall|j: int|
                0 <= j < r.residual_bits@.len() ==> base_width(
                    old(self).target().num as int,
                    old(self).target().den as int,
                ) - 1 <= (#[trigger] r.residual_bits@[j]) <= base_width(
                    old(self).target().num as int,
                    old(self).target().den as int,
                ) + 2,
            final(self).base_encoder.lms@ == old(self).input(
                samples@,
                tab.scale_bits(),
            ).lms_after(),
    {
        let residual_bits: Vec<u8> = self.analyze(samples, tab);
        let rows = self.base_encoder.get_residuals_for_chunk(
            tab,
            samples,
            self.scale_factor_frames as usize,
            &residual_bits,
        );
        EncodedSamples {
            scale_factors: rows.scale_factors,
            residuals: rows.residuals,
            residual_bits,
        }
    }
}

} // verus!
