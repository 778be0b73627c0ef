use crate::codec::common::{
    clamp_i16, clamp_i16_spec, i16_bits, i16_from_bits, i16_from_le_bytes, lemma_le_round_trip,
    push_i16_le, u16_from_le, u16_le_bytes,
};
use vstd::prelude::*;

verus! {

/// The number of past samples and of weights that a predictor keeps.
pub const LMS_LEN: usize = 4;

/// The largest magnitude of a dequantized residual that a predictor takes.
pub const MAX_DELTA: i32 = 65536;

/// The adaptive linear predictor of one channel: the last four
/// reconstructed samples, oldest first, and one weight for each.
#[derive(Debug, Clone, Copy, PartialEq, Eq)]
pub struct SeaLMS {
    pub history: [i32; 4],
    pub weights: [i32; 4],
}

/// Whether `v` is a 16-bit sample value.
pub open spec fn in_i16(v: int) -> bool {
    -32768 <= v <= 32767
}

/// The step by which a residual of size `delta` moves each weight.
pub open spec fn weight_step(delta: int) -> int {
    (if delta < 0 {
        -delta
    } else {
        delta
    }) / 16
}

/// The weight `w` of a tap whose history value is `h`, after a residual
/// `delta`: moved by the step towards the sign of the residual times the
/// sign of the history value, and kept in the 16-bit range.
pub open spec fn next_weight(w: int, h: int, delta: int) -> int {
    if (delta < 0) == (h < 0) {
        clamp_i16_spec(w + weight_step(delta))
    } else {
        clamp_i16_spec(w - weight_step(delta))
    }
}

impl SeaLMS {
    /// Every history value and every weight is a 16-bit value, so that a
    /// chunk can store the predictor.
    pub open spec fn wf(&self) -> bool {
        forall|i: int|
            0 <= i < 4 ==> in_i16(#[trigger] self.history[i] as int) && in_i16(
                self.weights[i] as int,
            )
    }

    /// The sum of the history values, each times its weight.
    pub open spec fn dot(&self) -> int {
        self.history[0] * self.weights[0] + self.history[1] * self.weights[1] + self.history[2]
            * self.weights[2] + self.history[3] * self.weights[3]
    }

    /// The predicted next sample: the weighted sum shifted right by 13 bits.
    pub open spec fn predict_spec(&self) -> int {
        self.dot() / 8192
    }

    /// The predictor after a sample: each weight moved by the residual
    /// `delta`, and `sample` taken into the history.
    pub open spec fn update_spec(&self, delta: int, sample: int) -> SeaLMS {
        SeaLMS {
            history: [self.history[1], self.history[2], self.history[3], sample as i32],
            weights: [
                next_weight(self.weights[0] as int, self.history[0] as int, delta) as i32,
                next_weight(self.weights[1] as int, self.history[1] as int, delta) as i32,
                next_weight(self.weights[2] as int, self.history[2] as int, delta) as i32,
                next_weight(self.weights[3] as int, self.history[3] as int, delta) as i32,
            ],
        }
    }

    /// The sample that follows from a residual `delta`: the prediction plus
    /// the residual, saturated to 16 bits.
    pub open spec fn reconstruct_spec(&self, delta: int) -> int {
        clamp_i16_spec(self.predict_spec() + delta)
    }

    /// The predictor after the sample that follows from a residual `delta`.
    pub open spec fn advance_spec(&self, delta: int) -> SeaLMS {
        self.update_spec(delta, self.reconstruct_spec(delta))
    }

    /// The 16 bytes that store the predictor: the history values, then the
    /// weights, each as a little-endian 16-bit number.
    pub open spec fn bytes_spec(&self) -> Seq<u8> {
        u16_le_bytes(i16_bits(self.history[0] as i16)) + u16_le_bytes(
            i16_bits(self.history[1] as i16),
        ) + u16_le_bytes(i16_bits(self.history[2] as i16)) + u16_le_bytes(
            i16_bits(self.history[3] as i16),
        ) + u16_le_bytes(i16_bits(self.weights[0] as i16)) + u16_le_bytes(
            i16_bits(self.weights[1] as i16),
        ) + u16_le_bytes(i16_bits(self.weights[2] as i16)) + u16_le_bytes(
            i16_bits(self.weights[3] as i16),
        )
    }

    /// The predictor that the 16 bytes of `b` from `at` on store.
    pub open spec fn from_bytes_spec(b: Seq<u8>, at: int) -> SeaLMS {
        SeaLMS {
            history: [
                i16_from_bits(u16_from_le(b[at], b[at + 1])) as i32,
                i16_from_bits(u16_from_le(b[at + 2], b[at + 3])) as i32,
                i16_from_bits(u16_from_le(b[at + 4], b[at + 5])) as i32,
                i16_from_bits(u16_from_le(b[at + 6], b[at + 7])) as i32,
            ],
            weights: [
                i16_from_bits(u16_from_le(b[at + 8], b[at + 9])) as i32,
                i16_from_bits(u16_from_le(b[at + 10], b[at + 11])) as i32,
                i16_from_bits(u16_from_le(b[at + 12], b[at + 13])) as i32,
                i16_from_bits(u16_from_le(b[at + 14], b[at + 15])) as i32,
            ],
        }
    }

    /// A predictor with no history and no weights.
    pub fn new() -> (l: Self)
        ensures
            l.wf(),
            l == (SeaLMS { history: [0, 0, 0, 0], weights: [0, 0, 0, 0] }),
    {
        SeaLMS { history: [0, 0, 0, 0], weights: [0, 0, 0, 0] }
    }

    /// One zeroed predictor for each of `channels` channels.
    pub fn init(channels: usize) -> (v: Vec<SeaLMS>)
        ensures
            v@.len() == channels,
            forall|i: int| 0 <= i < channels ==> #[trigger] v@[i] == SeaLMS::new_spec(),
            all_wf(v@),
    {
        let mut v: Vec<SeaLMS> = Vec::new();
        let mut i: usize = 0;
        while i < channels
            invariant
                i <= channels,
                v@.len() == i,
                forall|k: int| 0 <= k < i ==> #[trigger] v@[k] == SeaLMS::new_spec(),
            decreases channels - i,
        {
            v.push(SeaLMS::new());
            i += 1;
        }
        v
    }

    /// The zeroed predictor.
    pub open spec fn new_spec() -> SeaLMS {
        SeaLMS { history: [0, 0, 0, 0], weights: [0, 0, 0, 0] }
    }

    /// The predicted next sample.
    #[verifier::rlimit(40)]
    pub fn predict(&self) -> (p: i32)
        requires
            self.wf(),
        ensures
            p == self.predict_spec(),
            -524288 <= p <= 524288,
    {
        let t0: i64 = tap(self.history[0], self.weights[0]);
        let t1: i64 = tap(self.history[1], self.weights[1]);
        let t2: i64 = tap(self.history[2], self.weights[2]);
        let t3: i64 = tap(self.history[3], self.weights[3]);
        let sum: i64 = t0 + t1 + t2 + t3;
        // A floor division of the sum, which may be negative, by 2^13.
        let lifted: i64 = sum + 8192 * 1048576;
        let p: i64 = lifted / 8192 - 1048576;
        assert(p == sum as int / 8192) by {
            vstd::arithmetic::div_mod::lemma_fundamental_div_mod(lifted as int, 8192);
            vstd::arithmetic::div_mod::lemma_fundamental_div_mod_converse(
                sum as int,
                8192,
                lifted as int / 8192 - 1048576,
                lifted as int % 8192,
            );
        }
        p as i32
    }

    /// Takes the sample `sample`, reconstructed from the residual `delta`,
    /// into the predictor.
    #[verifier::rlimit(40)]
    pub fn update(&mut self, delta: i32, sample: i16)
        requires
            old(self).wf(),
            -MAX_DELTA <= delta <= MAX_DELTA,
        ensures
            *final(self) == old(self).update_spec(delta as int, sample as int),
            final(self).wf(),
    {
        let magnitude: i32 = if delta < 0 {
            -delta
        } else {
            delta
        };
        let step: i32 = magnitude / 16;
        let mut i: usize = 0;
        while i < 4
            invariant
                i <= 4,
                old(self).wf(),
                step == weight_step(delta as int),
                0 <= step <= 4096,
                self.history == old(self).history,
                forall|k: int|
                    0 <= k < i ==> #[trigger] self.weights[k] == next_weight(
                        old(self).weights[k] as int,
                        old(self).history[k] as int,
                        delta as int,
                    ),
                forall|k: int| i <= k < 4 ==> #[trigger] self.weights[k] == old(self).weights[k],
            decreases 4 - i,
        {
            let moved: i32 = if (delta < 0) == (self.history[i] < 0) {
                self.weights[i] + step
            } else {
                self.weights[i] - step
            };
            self.weights[i] = clamp_i16(moved) as i32;
            i += 1;
        }
        self.history[0] = self.history[1];
        self.history[1] = self.history[2];
        self.history[2] = self.history[3];
        self.history[3] = sample as i32;
        proof {
            let want = old(self).update_spec(delta as int, sample as int);
            assert(self.history@ =~= want.history@);
            assert(self.weights@ =~= want.weights@);
            assert(self.history == want.history);
            assert(self.weights == want.weights);
        }
    }

    /// Appends the 16 bytes that store the predictor to `out`.
    pub fn serialize(&self, out: &mut Vec<u8>)
        requires
            self.wf(),
        ensures
            final(out)@ == old(out)@ + self.bytes_spec(),
            self.bytes_spec().len() == 16,
    {
        push_i16_le(out, self.history[0] as i16);
        push_i16_le(out, self.history[1] as i16);
        push_i16_le(out, self.history[2] as i16);
        push_i16_le(out, self.history[3] as i16);
        push_i16_le(out, self.weights[0] as i16);
        push_i16_le(out, self.weights[1] as i16);
        push_i16_le(out, self.weights[2] as i16);
        push_i16_le(out, self.weights[3] as i16);
        assert(out@ =~= old(out)@ + self.bytes_spec());
    }

    /// The predictor stored in the 16 bytes of `data` from `at` on.
    pub fn from_bytes(data: &[u8], at: usize) -> (l: Self)
        requires
            at + 16 <= data@.len(),
        ensures
            l == SeaLMS::from_bytes_spec(data@, at as int),
            l.wf(),
    {
        let l = SeaLMS {
            history: [
                i16_from_le_bytes(data[at], data[at + 1]) as i32,
                i16_from_le_bytes(data[at + 2], data[at + 3]) as i32,
                i16_from_le_bytes(data[at + 4], data[at + 5]) as i32,
                i16_from_le_bytes(data[at + 6], data[at + 7]) as i32,
            ],
            weights: [
                i16_from_le_bytes(data[at + 8], data[at + 9]) as i32,
                i16_from_le_bytes(data[at + 10], data[at + 11]) as i32,
                i16_from_le_bytes(data[at + 12], data[at + 13]) as i32,
                i16_from_le_bytes(data[at + 14], data[at + 15]) as i32,
            ],
        };
        proof {
            let want = SeaLMS::from_bytes_spec(data@, at as int);
            assert(l.history@ =~= want.history@);
            assert(l.weights@ =~= want.weights@);
            assert(l.history == want.history);
            assert(l.weights == want.weights);
        }
        l
    }
}

/// Every predictor of the row holds 16-bit values only.
pub open spec fn all_wf(lms: Seq<SeaLMS>) -> bool {
    forall|i: int| 0 <= i < lms.len() ==> (#[trigger] lms[i]).wf()
}

/// The product of a history value and its weight.
fn tap(h: i32, w: i32) -> (r: i64)
    requires
        in_i16(h as int),
        in_i16(w as int),
    ensures
        r == h * w,
        -1073741824 <= r <= 1073741824,
{
    assert(-1073741824 <= h * w <= 1073741824) by (nonlinear_arith)
        requires
            -32768 <= h <= 32767,
            -32768 <= w <= 32767,
    ;
    (h as i64) * (w as i64)
}

/// A predictor stays within 16 bits when it takes a sample.
pub proof fn lemma_update_wf(l: SeaLMS, delta: int, sample: int)
    requires
        l.wf(),
        in_i16(sample),
    ensures
        l.update_spec(delta, sample).wf(),
{
    let n = l.update_spec(delta, sample);
    assert forall|i: int| 0 <= i < 4 implies in_i16(#[trigger] n.history[i] as int) && in_i16(
        n.weights[i] as int,
    ) by {
        assert(l.history[0] == l.history[0] && l.history[1] == l.history[1] && l.history[2]
            == l.history[2] && l.history[3] == l.history[3]);
    }
}

/// A predictor read from the bytes that store it is the predictor that was
/// stored.
#[verifier::rlimit(40)]
pub proof fn lemma_lms_round_trip(l: SeaLMS, all: Seq<u8>, at: int)
    requires
        l.wf(),
        forall|i: int| 0 <= i < 16 ==> #[trigger] all[at + i] == l.bytes_spec()[i],
    ensures
        l.bytes_spec().len() == 16,
        SeaLMS::from_bytes_spec(all, at) == l,
{
    let got = SeaLMS::from_bytes_spec(all, at);
    assert(l.bytes_spec().len() == 16);
    assert forall|i: int| 0 <= i < 4 implies got.history[i] == l.history[i] && got.weights[i]
        == l.weights[i] by {
        let h = l.history[i] as i16;
        let w = l.weights[i] as i16;
        lemma_le_round_trip(i16_bits(h), 0, h);
        lemma_le_round_trip(i16_bits(w), 0, w);
        assert(all[at + 2 * i] == l.bytes_spec()[2 * i]);
        assert(all[at + (2 * i + 1)] == l.bytes_spec()[2 * i + 1]);
        assert(all[at + (8 + 2 * i)] == l.bytes_spec()[8 + 2 * i]);
        assert(all[at + (8 + 2 * i + 1)] == l.bytes_spec()[8 + 2 * i + 1]);
        assert(l.bytes_spec()[2 * i] == u16_le_bytes(i16_bits(h))[0]);
        assert(l.bytes_spec()[2 * i + 1] == u16_le_bytes(i16_bits(h))[1]);
        assert(l.bytes_spec()[8 + 2 * i] == u16_le_bytes(i16_bits(w))[0]);
        assert(l.bytes_spec()[8 + 2 * i + 1] == u16_le_bytes(i16_bits(w))[1]);
    }
    assert(got.history@ =~= l.history@);
    assert(got.weights@ =~= l.weights@);
    assert(got.history == l.history);
    assert(got.weights == l.weights);
}

/// The bytes that store a row of predictors, one after the other.
pub open spec fn seed_bytes(lms: Seq<SeaLMS>) -> Seq<u8>
    decreases lms.len(),
{
    if lms.len() == 0 {
        Seq::<u8>::empty()
    } else {
        seed_bytes(lms.drop_last()) + lms.last().bytes_spec()
    }
}

/// The bytes of a row of predictors hold 16 bytes for each, in order.
pub proof fn lemma_seed_bytes(lms: Seq<SeaLMS>)
    ensures
        seed_bytes(lms).len() == 16 * lms.len(),
        forall|c: int, i: int|
            0 <= c < lms.len() && 0 <= i < 16 ==> #[trigger] seed_bytes(lms)[16 * c + i]
                == lms[c].bytes_spec()[i],
    decreases lms.len(),
{
    if lms.len() > 0 {
        lemma_seed_bytes(lms.drop_last());
        assert(lms.last().bytes_spec().len() == 16);
        assert forall|c: int, i: int| 0 <= c < lms.len() && 0 <= i < 16 implies #[trigger] seed_bytes(
            lms,
        )[16 * c + i] == lms[c].bytes_spec()[i] by {
            if c < lms.len() - 1 {
                assert(seed_bytes(lms.drop_last())[16 * c + i] == lms.drop_last()[c].bytes_spec()[i]);
            }
        }
    }
}

} // verus!
