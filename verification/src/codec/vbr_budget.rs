use crate::codec::encoder_vbr::VbrEncoder;
use vstd::prelude::*;

verus! {

/// The largest denominator a bitrate target may have.
pub const MAX_TARGET_DEN: u64 = 0x100_0000_0000;

/// A target for the mean residual width, in bits per sample, as the exact
/// fraction `num / den`.
#[derive(Debug, Clone, Copy, PartialEq, Eq, Structural)]
pub struct VbrTarget {
    pub num: u64,
    pub den: u64,
}

impl VbrTarget {
    /// The target lies between two and six bits.
    pub open spec fn wf(&self) -> bool {
        &&& 0 < self.den <= MAX_TARGET_DEN
        &&& 2 * self.den <= self.num <= 6 * self.den
    }

    /// Whether the target lies between two and six bits.
    pub fn is_valid(&self) -> (b: bool)
        ensures
            b == self.wf(),
    {
        0 < self.den && self.den <= MAX_TARGET_DEN && 2 * (self.den as u128) <= self.num as u128
            && self.num as u128 <= 6 * (self.den as u128)
    }
}

/// The target's fractional part lies in `[0.3, 0.5)`.
pub open spec fn transition_zone(num: int, den: int) -> bool {
    let r = num % den;
    3 * den <= 10 * r && 2 * r < den
}

/// The base width `t`: the target rounded down inside the transition zone,
/// rounded to the nearest integer (halves upwards) outside it.
pub open spec fn base_width(num: int, den: int) -> int {
    if transition_zone(num, den) || 2 * (num % den) < den {
        num / den
    } else {
        num / den + 1
    }
}

/// The share of slices that get `t + 1` bits, in fortieths.
pub open spec fn upper_share(num: int, den: int) -> int {
    if transition_zone(num, den) {
        10
    } else {
        6
    }
}

/// The share of slices that get `t + 2` bits, in fortieths.
pub open spec fn top_share(num: int, den: int) -> int {
    if transition_zone(num, den) {
        5
    } else {
        3
    }
}

/// What is left for the two lower buckets, in units of `1 / (40 * den)`.
pub open spec fn lower_room(num: int, den: int) -> int {
    (40 - upper_share(num, den) - top_share(num, den)) * den
}

/// The share `t + offset - target` of the bucket `t - 1` before clamping,
/// in units of `1 / (40 * den)`.
pub open spec fn lowest_share_raw(num: int, den: int) -> int {
    40 * base_width(num, den) * den + (upper_share(num, den) + 2 * top_share(num, den)) * den - 40
        * num
}

/// The share of slices that get `t - 1` bits, in units of `1 / (40 * den)`.
pub open spec fn lowest_share(num: int, den: int) -> int {
    let raw = lowest_share_raw(num, den);
    if raw < 0 {
        0
    } else if lower_room(num, den) - raw < 0 {
        lower_room(num, den)
    } else {
        raw
    }
}

/// The share of slices that get `t` bits, in units of `1 / (40 * den)`.
pub open spec fn base_share(num: int, den: int) -> int {
    lower_room(num, den) - lowest_share(num, den)
}

/// The four shares of `n` slices, each rounded down.
pub open spec fn floor_counts(n: int, num: int, den: int) -> Seq<int> {
    seq![
        (n * lowest_share(num, den)) / (40 * den),
        (n * base_share(num, den)) / (40 * den),
        (n * upper_share(num, den)) / 40,
        (n * top_share(num, den)) / 40,
    ]
}

/// The number of slices in the four buckets together.
pub open spec fn total(counts: Seq<int>) -> int {
    counts[0] + counts[1] + counts[2] + counts[3]
}

/// The sum of the widths of all slices, for buckets `t - 1` to `t + 2`.
pub open spec fn weighted(counts: Seq<int>, base: int) -> int {
    (base - 1) * counts[0] + base * counts[1] + (base + 1) * counts[2] + (base + 2) * counts[3]
}

/// How far the sum of widths is from `n` times the target once one more
/// slice goes to `bucket`, in units of `1 / den`.
pub open spec fn miss(counts: Seq<int>, base: int, bucket: int, n: int, num: int, den: int) -> int {
    let d = den * (weighted(counts, base) + base - 1 + bucket) - num * n;
    if d < 0 {
        -d
    } else {
        d
    }
}

/// The bucket whose next slice brings the mean closest to the target; of
/// several equally close, the lowest.
pub open spec fn best_bucket(counts: Seq<int>, base: int, n: int, num: int, den: int) -> int {
    let b1: int = if miss(counts, base, 1, n, num, den) < miss(counts, base, 0, n, num, den) {
        1
    } else {
        0
    };
    let b2: int = if miss(counts, base, 2, n, num, den) < miss(counts, base, b1, n, num, den) {
        2
    } else {
        b1
    };
    if miss(counts, base, 3, n, num, den) < miss(counts, base, b2, n, num, den) {
        3
    } else {
        b2
    }
}

/// Hands out `rem` more slices, one at a time, each to the best bucket.
pub open spec fn fill(counts: Seq<int>, rem: nat, base: int, n: int, num: int, den: int) -> Seq<
    int,
>
    decreases rem,
{
    if rem == 0 {
        counts
    } else {
        let b = best_bucket(counts, base, n, num, den);
        fill(counts.update(b, counts[b] + 1), (rem - 1) as nat, base, n, num, den)
    }
}

/// How many of `n` slices get `t - 1`, `t`, `t + 1` and `t + 2` bits when the
/// mean is to be `num / den`.
pub open spec fn distribution(n: int, num: int, den: int) -> Seq<int> {
    let floors = floor_counts(n, num, den);
    fill(floors, (n - total(floors)) as nat, base_width(num, den), n, num, den)
}

/// The shares written out for the two zones.
proof fn lemma_share_values(num: int, den: int)
    requires
        0 < den,
    ensures
        transition_zone(num, den) ==> lower_room(num, den) == 25 * den && lowest_share_raw(num, den)
            == 40 * (base_width(num, den) * den) + 20 * den - 40 * num,
        !transition_zone(num, den) ==> lower_room(num, den) == 31 * den && lowest_share_raw(
            num,
            den,
        ) == 40 * (base_width(num, den) * den) + 12 * den - 40 * num,
        lowest_share(num, den) + base_share(num, den) + upper_share(num, den) * den + top_share(
            num,
            den,
        ) * den == 40 * den,
{
    let t = base_width(num, den);
    let c = upper_share(num, den);
    let d = top_share(num, den);
    assert(40 * t * den == 40 * (t * den)) by (nonlinear_arith);
    if transition_zone(num, den) {
        assert((40 - c - d) * den == 25 * den && (c + 2 * d) * den == 20 * den && c * den + d * den
            == 15 * den) by (nonlinear_arith)
            requires
                c == 10,
                d == 5,
        ;
    } else {
        assert((40 - c - d) * den == 31 * den && (c + 2 * d) * den == 12 * den && c * den + d * den
            == 9 * den) by (nonlinear_arith)
            requires
                c == 6,
                d == 3,
        ;
    }
}

/// The unclamped lowest share is never negative and exceeds the room of the
/// two lower buckets by at most `den`; the base width lies between two and six.
#[verifier::rlimit(40)]
proof fn lemma_shares(num: int, den: int)
    requires
        0 < den,
        2 * den <= num <= 6 * den,
    ensures
        0 <= lowest_share_raw(num, den),
        lowest_share_raw(num, den) - lower_room(num, den) <= den,
        0 <= lowest_share(num, den) <= lower_room(num, den),
        0 <= base_share(num, den),
        lowest_share(num, den) <= lowest_share_raw(num, den) <= lowest_share(num, den) + den,
        2 <= base_width(num, den) <= 6,
{
    lemma_share_values(num, den);
    let q = num / den;
    let r = num % den;
    vstd::arithmetic::div_mod::lemma_fundamental_div_mod(num, den);
    vstd::arithmetic::div_mod::lemma_mod_bound(num, den);
    let p = den * q;
    assert(num == p + r);
    assert(2 <= q <= 6 && (q == 6 ==> r == 0)) by (nonlinear_arith)
        requires
            num == den * q + r,
            0 <= r < den,
            2 * den <= num <= 6 * den,
            0 < den,
    ;
    let t = base_width(num, den);
    let td = t * den;
    if t == q {
        assert(td == p) by (nonlinear_arith)
            requires
                t == q,
                td == t * den,
                p == den * q,
        ;
    } else {
        assert(t == q + 1);
        assert(td == p + den) by (nonlinear_arith)
            requires
                t == q + 1,
                td == t * den,
                p == den * q,
        ;
    }
}

/// Rounding the four shares down loses fewer than four slices.
#[verifier::rlimit(40)]
proof fn lemma_floor_counts(n: int, num: int, den: int)
    requires
        0 <= n,
        0 < den,
        2 * den <= num <= 6 * den,
    ensures
        forall|i: int| 0 <= i < 4 ==> 0 <= #[trigger] floor_counts(n, num, den)[i],
        n - 3 <= total(floor_counts(n, num, den)) <= n,
        floor_counts(n, num, den).len() == 4,
{
    lemma_shares(num, den);
    lemma_share_values(num, den);
    let q = 40 * den;
    let a = lowest_share(num, den);
    let b = base_share(num, den);
    let c = upper_share(num, den);
    let d = top_share(num, den);
    let f = floor_counts(n, num, den);
    assert(0 <= n * a && 0 <= n * b && 0 <= n * c && 0 <= n * d) by (nonlinear_arith)
        requires
            0 <= n,
            0 <= a,
            0 <= b,
            0 <= c,
            0 <= d,
    ;
    vstd::arithmetic::div_mod::lemma_fundamental_div_mod(n * a, q);
    vstd::arithmetic::div_mod::lemma_mod_bound(n * a, q);
    vstd::arithmetic::div_mod::lemma_fundamental_div_mod(n * b, q);
    vstd::arithmetic::div_mod::lemma_mod_bound(n * b, q);
    vstd::arithmetic::div_mod::lemma_fundamental_div_mod(n * c, 40);
    vstd::arithmetic::div_mod::lemma_fundamental_div_mod(n * d, 40);
    vstd::arithmetic::div_mod::lemma_div_pos_is_pos(n * a, q);
    vstd::arithmetic::div_mod::lemma_div_pos_is_pos(n * b, q);
    let ra = (n * a) % q;
    let rb = (n * b) % q;
    let rc = (n * c) % 40;
    let rd = (n * d) % 40;
    let na = n * a;
    let nb = n * b;
    let nc = n * c;
    let nd = n * d;
    assert(na + nb + den * nc + den * nd == n * q) by (nonlinear_arith)
        requires
            na == n * a,
            nb == n * b,
            nc == n * c,
            nd == n * d,
            a + b + c * den + d * den == q,
    ;
    let tf = total(f);
    let qf0 = q * f[0];
    let qf1 = q * f[1];
    assert(q * tf == qf0 + qf1 + den * (40 * f[2]) + den * (40 * f[3])) by (nonlinear_arith)
        requires
            tf == f[0] + f[1] + f[2] + f[3],
            qf0 == q * f[0],
            qf1 == q * f[1],
            q == 40 * den,
    ;
    assert(den * nc == den * (40 * f[2]) + den * rc && den * nd == den * (40 * f[3]) + den * rd)
        by (nonlinear_arith)
        requires
            nc == 40 * f[2] + rc,
            nd == 40 * f[3] + rd,
    ;
    assert(0 <= den * rc <= 39 * den && 0 <= den * rd <= 39 * den) by (nonlinear_arith)
        requires
            0 <= rc < 40,
            0 <= rd < 40,
            0 < den,
    ;
    assert(q * tf + ra + rb + den * rc + den * rd == n * q);
    assert(n - 4 < tf <= n) by (nonlinear_arith)
        requires
            q * tf + ra + rb + den * rc + den * rd == n * q,
            0 <= ra < q,
            0 <= rb < q,
            0 <= den * rc <= 39 * den,
            0 <= den * rd <= 39 * den,
            q == 40 * den,
            0 < den,
    ;
}

/// With every bucket at most three above its rounded-down share, and `n`
/// slices in all, the sum of widths is within `n / 40 + 10` of `n` times the
/// target.
#[verifier::rlimit(40)]
pub proof fn lemma_mean_width(n: int, num: int, den: int, counts: Seq<int>)
    requires
        0 <= n,
        0 < den,
        2 * den <= num <= 6 * den,
        counts.len() == 4,
        total(counts) == n,
        forall|i: int|
            0 <= i < 4 ==> floor_counts(n, num, den)[i] <= #[trigger] counts[i] <= floor_counts(
                n,
                num,
                den,
            )[i] + 3,
    ensures
        -(n * den + 400 * den) <= 40 * (den * weighted(counts, base_width(num, den)) - num * n) <= n
            * den + 400 * den,
{
    lemma_shares(num, den);
    lemma_share_values(num, den);
    lemma_floor_counts(n, num, den);
    let q = 40 * den;
    let t = base_width(num, den);
    let raw = lowest_share_raw(num, den);
    let a = lowest_share(num, den);
    let c = upper_share(num, den);
    let d = top_share(num, den);
    let f = floor_counts(n, num, den);
    assert(0 <= n * a && 0 <= n * c && 0 <= n * d) by (nonlinear_arith)
        requires
            0 <= n,
            0 <= a,
            0 <= c,
            0 <= d,
    ;
    vstd::arithmetic::div_mod::lemma_fundamental_div_mod(n * a, q);
    vstd::arithmetic::div_mod::lemma_mod_bound(n * a, q);
    vstd::arithmetic::div_mod::lemma_fundamental_div_mod(n * c, 40);
    vstd::arithmetic::div_mod::lemma_fundamental_div_mod(n * d, 40);
    let ra = (n * a) % q;
    let rc = (n * c) % 40;
    let rd = (n * d) % 40;
    let ga = counts[0] - f[0];
    let gc = counts[2] - f[2];
    let gd = counts[3] - f[3];
    let w = weighted(counts, t);
    let tn = t * n;
    assert(w == tn - counts[0] + counts[2] + 2 * counts[3]) by (nonlinear_arith)
        requires
            w == (t - 1) * counts[0] + t * counts[1] + (t + 1) * counts[2] + (t + 2) * counts[3],
            counts[0] + counts[1] + counts[2] + counts[3] == n,
            tn == t * n,
    ;
    let e = den * w - num * n;
    // The share of the two upper buckets together, weighted: c + 2 d.
    let k = c + 2 * d;
    let td = t * den;
    assert(raw == 40 * td + k * den - 40 * num) by {
        assert(k == 20 || k == 12);
    }
    // 40 num n = 40 td n + k den n - raw n
    let numn = num * n;
    let tdn = td * n;
    let rawn = raw * n;
    assert(40 * numn == 40 * tdn + k * (den * n) - rawn) by (nonlinear_arith)
        requires
            raw == 40 * td + k * den - 40 * num,
            numn == num * n,
            tdn == td * n,
            rawn == raw * n,
    ;
    assert(den * tn == tdn) by (nonlinear_arith)
        requires
            tn == t * n,
            td == t * den,
            tdn == td * n,
    ;
    let dc0 = den * counts[0];
    let dc2 = den * counts[2];
    let dc3 = den * counts[3];
    assert(den * w == tdn - dc0 + dc2 + 2 * dc3) by (nonlinear_arith)
        requires
            w == tn - counts[0] + counts[2] + 2 * counts[3],
            den * tn == tdn,
            dc0 == den * counts[0],
            dc2 == den * counts[2],
            dc3 == den * counts[3],
    ;
    // 40 e = rawn - 40 dc0 + (40 dc2 - c den n) + 2 (40 dc3 - d den n)
    let cdn = c * (den * n);
    let ddn = d * (den * n);
    assert(k * (den * n) == cdn + 2 * ddn) by (nonlinear_arith)
        requires
            k == c + 2 * d,
            cdn == c * (den * n),
            ddn == d * (den * n),
    ;
    assert(40 * e == rawn - 40 * dc0 + (40 * dc2 - cdn) + 2 * (40 * dc3 - ddn));
    // rawn - 40 dc0 = n (raw - a) + ra - q ga
    let slack = n * (raw - a);
    assert(rawn - 40 * dc0 == slack + ra - q * ga) by (nonlinear_arith)
        requires
            rawn == raw * n,
            dc0 == den * counts[0],
            slack == n * (raw - a),
            n * a == q * f[0] + ra,
            ga == counts[0] - f[0],
            q == 40 * den,
    ;
    assert(40 * dc2 - cdn == den * (40 * gc - rc)) by (nonlinear_arith)
        requires
            dc2 == den * counts[2],
            cdn == c * (den * n),
            n * c == 40 * f[2] + rc,
            gc == counts[2] - f[2],
    ;
    assert(40 * dc3 - ddn == den * (40 * gd - rd)) by (nonlinear_arith)
        requires
            dc3 == den * counts[3],
            ddn == d * (den * n),
            n * d == 40 * f[3] + rd,
            gd == counts[3] - f[3],
    ;
    assert(0 <= slack <= n * den) by (nonlinear_arith)
        requires
            slack == n * (raw - a),
            0 <= n,
            0 <= raw - a <= den,
    ;
    assert(-3 * q <= -(q * ga) <= 0) by (nonlinear_arith)
        requires
            0 <= ga <= 3,
            0 < q,
    ;
    assert(-40 * den <= den * (40 * gc - rc) <= 120 * den) by (nonlinear_arith)
        requires
            0 <= gc <= 3,
            0 <= rc < 40,
            0 < den,
    ;
    assert(-40 * den <= den * (40 * gd - rd) <= 120 * den) by (nonlinear_arith)
        requires
            0 <= gd <= 3,
            0 <= rd < 40,
            0 < den,
    ;
}

/// Handing out `rem` more slices adds `rem` to the total and takes from no
/// bucket.
pub proof fn lemma_fill(counts: Seq<int>, rem: nat, base: int, n: int, num: int, den: int)
    requires
        counts.len() == 4,
    ensures
        fill(counts, rem, base, n, num, den).len() == 4,
        total(fill(counts, rem, base, n, num, den)) == total(counts) + rem,
        forall|i: int|
            0 <= i < 4 ==> counts[i] <= #[trigger] fill(counts, rem, base, n, num, den)[i]
                <= counts[i] + rem,
    decreases rem,
{
    if rem > 0 {
        let b = best_bucket(counts, base, n, num, den);
        let next = counts.update(b, counts[b] + 1);
        lemma_fill(next, (rem - 1) as nat, base, n, num, den);
        assert forall|i: int| 0 <= i < 4 implies counts[i] <= #[trigger] fill(
            counts,
            rem,
            base,
            n,
            num,
            den,
        )[i] <= counts[i] + rem by {
            assert(next[i] <= fill(next, (rem - 1) as nat, base, n, num, den)[i]);
        }
    }
}

/// A distribution of `n` slices has four counts, none negative, that add
/// up to `n`, and a mean width within `1 / 40 + 10 / n` of the target.
pub proof fn lemma_distribution(n: int, num: int, den: int)
    requires
        0 <= n,
        0 < den,
        2 * den <= num <= 6 * den,
    ensures
        distribution(n, num, den).len() == 4,
        forall|i: int| 0 <= i < 4 ==> 0 <= #[trigger] distribution(n, num, den)[i],
        total(distribution(n, num, den)) == n,
        2 <= base_width(num, den) <= 6,
        -(n * den + 400 * den) <= 40 * (den * weighted(
            distribution(n, num, den),
            base_width(num, den),
        ) - num * n) <= n * den + 400 * den,
{
    lemma_floor_counts(n, num, den);
    lemma_shares(num, den);
    let floors = floor_counts(n, num, den);
    let rem = (n - total(floors)) as nat;
    lemma_fill(floors, rem, base_width(num, den), n, num, den);
    let d = distribution(n, num, den);
    assert forall|i: int| 0 <= i < 4 implies floors[i] <= #[trigger] d[i] <= floors[i] + 3 by {}
    lemma_mean_width(n, num, den, d);
}

/// The product of two values that are small enough for it to fit.
fn mul_wide(x: u128, y: u128) -> (r: u128)
    requires
        x <= 0x40_0000_0000_0000_0000,
        y <= 0x4_0000_0000_0000,
    ensures
        r == x * y,
{
    proof {
        vstd::arithmetic::mul::lemma_mul_upper_bound(
            x as int,
            0x40_0000_0000_0000_0000,
            y as int,
            0x4_0000_0000_0000,
        );
        vstd::arithmetic::mul::lemma_mul_nonnegative(x as int, y as int);
    }
    x * y
}

/// The distance between two values.
fn distance(x: u128, y: u128) -> (r: u128)
    ensures
        r == if (x as int) - (y as int) < 0 {
            (y as int) - (x as int)
        } else {
            (x as int) - (y as int)
        },
{
    if x >= y {
        x - y
    } else {
        y - x
    }
}

/// The base width `t` of a target.
pub fn base_width_of(target: VbrTarget) -> (t: u8)
    requires
        target.wf(),
    ensures
        t == base_width(target.num as int, target.den as int),
        2 <= t <= 6,
{
    proof {
        lemma_shares(target.num as int, target.den as int);
    }
    let whole: u64 = target.num / target.den;
    let part: u128 = (target.num % target.den) as u128;
    let den: u128 = target.den as u128;
    let in_zone: bool = 3 * den <= 10 * part && 2 * part < den;
    if in_zone || 2 * part < den {
        whole as u8
    } else {
        (whole + 1) as u8
    }
}

/// The counts of a distribution as mathematical integers.
pub open spec fn counts_view(counts: [usize; 4]) -> Seq<int> {
    seq![counts[0] as int, counts[1] as int, counts[2] as int, counts[3] as int]
}

impl VbrEncoder {
    /// Splits `items` slices over the four widths `t - 1`, `t`, `t + 1`, `t + 2`
    /// so that their mean comes close to `target`, and returns `t` with the four
    /// counts.
    ///
    /// The counts add up to `items`, and the sum of the widths they stand for
    /// misses `items` times the target by at most `items / 40 + 10` bits.
    #[verifier::rlimit(40)]
    pub fn interpolate_distribution(items: usize, target: VbrTarget) -> (r: (i32, [usize; 4]))
        requires
            target.wf(),
        ensures
            r.0 == base_width(target.num as int, target.den as int),
            2 <= r.0 <= 6,
            counts_view(r.1) == distribution(items as int, target.num as int, target.den as int),
            total(counts_view(r.1)) == items,
            -(items * target.den + 400 * target.den) <= 40 * (target.den * weighted(
                counts_view(r.1),
                r.0 as int,
            ) - target.num * items) <= items * target.den + 400 * target.den,
    {
        let num: u128 = target.num as u128;
        let den: u128 = target.den as u128;
        let n: u128 = items as u128;
        proof {
            lemma_shares(num as int, den as int);
            lemma_share_values(num as int, den as int);
            lemma_floor_counts(n as int, num as int, den as int);
        }
        let whole: u128 = num / den;
        let part: u128 = num % den;
        let in_zone: bool = 3 * den <= 10 * part && 2 * part < den;
        let t: u128 = if in_zone || 2 * part < den {
            whole
        } else {
            whole + 1
        };
        let c: u128 = if in_zone {
            10
        } else {
            6
        };
        let d: u128 = if in_zone {
            5
        } else {
            3
        };
        let td: u128 = mul_wide(t, den);
        let room: u128 = if in_zone {
            25 * den
        } else {
            31 * den
        };
        let lift: u128 = if in_zone {
            20 * den
        } else {
            12 * den
        };
        proof {
            assert(td == base_width(num as int, den as int) * den);
            assert(room == lower_room(num as int, den as int));
            assert(40 * td + lift - 40 * num == lowest_share_raw(num as int, den as int));
        }
        let raw: u128 = 40 * td + lift - 40 * num;
        let a: u128 = if raw > room {
            room
        } else {
            raw
        };
        let b: u128 = room - a;
        let scale: u128 = 40 * den;
        let ghost floors = floor_counts(n as int, num as int, den as int);
        let f0: u128 = mul_wide(n, a) / scale;
        let f1: u128 = mul_wide(n, b) / scale;
        let f2: u128 = mul_wide(n, c) / 40;
        let f3: u128 = mul_wide(n, d) / 40;
        proof {
            assert(a == lowest_share(num as int, den as int));
            assert(b == base_share(num as int, den as int));
            assert(f0 == floors[0] && f1 == floors[1] && f2 == floors[2] && f3 == floors[3]);
            assert(total(floors) == f0 + f1 + f2 + f3);
        }
        let mut counts: [usize; 4] = [f0 as usize, f1 as usize, f2 as usize, f3 as usize];
        let mut rem: u128 = n - (f0 + f1 + f2 + f3);
        let ghost rem0: int = rem as int;
        let target_sum: u128 = mul_wide(n, num);
        while rem > 0
            invariant
                target.wf(),
                num == target.num,
                den == target.den,
                n == items,
                t == base_width(num as int, den as int),
                2 <= t <= 6,
                target_sum == n * num,
                floors == floor_counts(n as int, num as int, den as int),
                0 <= rem <= rem0 <= 3,
                total(counts_view(counts)) + rem == n,
                forall|i: int|
                    0 <= i < 4 ==> floors[i] <= #[trigger] counts_view(counts)[i] <= floors[i] + (rem0
                        - rem),
                fill(counts_view(counts), rem as nat, t as int, n as int, num as int, den as int)
                    == distribution(n as int, num as int, den as int),
            decreases rem,
        {
            let ghost cs = counts_view(counts);
            let c0: u128 = counts[0] as u128;
            let c1: u128 = counts[1] as u128;
            let c2: u128 = counts[2] as u128;
            let c3: u128 = counts[3] as u128;
            let part_low: u128 = mul_wide(c0, t - 1);
            let part_mid: u128 = mul_wide(c1, t);
            let part_high: u128 = mul_wide(c2, t + 1);
            let part_top: u128 = mul_wide(c3, t + 2);
            proof {
                assert(part_low <= 8 * c0 && part_mid <= 8 * c1 && part_high <= 8 * c2 && part_top <= 8 * c3)
                    by (nonlinear_arith)
                    requires
                        part_low == c0 * (t - 1),
                        part_mid == c1 * t,
                        part_high == c2 * (t + 1),
                        part_top == c3 * (t + 2),
                        2 <= t <= 6,
                ;
            }
            let sum: u128 = part_low + part_mid + part_high + part_top;
            proof {
                assert(sum == weighted(cs, t as int)) by (nonlinear_arith)
                    requires
                        sum == c0 * (t - 1) + c1 * t + c2 * (t + 1) + c3 * (t + 2),
                        weighted(cs, t as int) == (t - 1) * c0 + t * c1 + (t + 1) * c2 + (t + 2) * c3,
                ;
                assert(sum <= 8 * n) by (nonlinear_arith)
                    requires
                        sum == c0 * (t - 1) + c1 * t + c2 * (t + 1) + c3 * (t + 2),
                        c0 + c1 + c2 + c3 <= n,
                        2 <= t <= 6,
                ;
            }
            let base_sum: u128 = sum + t - 1;
            let m0: u128 = distance(mul_wide(base_sum, den), target_sum);
            let m1: u128 = distance(mul_wide(base_sum + 1, den), target_sum);
            let m2: u128 = distance(mul_wide(base_sum + 2, den), target_sum);
            let m3: u128 = distance(mul_wide(base_sum + 3, den), target_sum);
            proof {
                assert(forall|k: int|
                    0 <= k < 4 ==> den * (#[trigger] (weighted(cs, t as int) + t - 1 + k)) == (base_sum
                        + k) * den) by (nonlinear_arith)
                    requires
                        base_sum == weighted(cs, t as int) + t - 1,
                ;
                assert(num * n == n * num) by (nonlinear_arith);
                assert(m0 == miss(cs, t as int, 0, n as int, num as int, den as int));
                assert(m1 == miss(cs, t as int, 1, n as int, num as int, den as int));
                assert(m2 == miss(cs, t as int, 2, n as int, num as int, den as int));
                assert(m3 == miss(cs, t as int, 3, n as int, num as int, den as int));
            }
            let mut best: usize = 0;
            let mut least: u128 = m0;
            if m1 < least {
                best = 1;
                least = m1;
            }
            if m2 < least {
                best = 2;
                least = m2;
            }
            if m3 < least {
                best = 3;
            }
            assert(best == best_bucket(cs, t as int, n as int, num as int, den as int));
            counts[best] = counts[best] + 1;
            rem = rem - 1;
            proof {
                assert(counts_view(counts) =~= cs.update(best as int, cs[best as int] + 1));
            }
        }
        proof {
            lemma_mean_width(n as int, num as int, den as int, counts_view(counts));
        }
        (t as i32, counts)
    }
}

/// With a thousand slices or more, the mean width of the distribution for
/// a target between two and six bits is within a twentieth of a bit of the
/// target: the sum of the widths, times `den`, misses `n` times `num` by at
/// most a twentieth of `n` times `den`.
pub proof fn lemma_mean_within_twentieth(n: int, num: int, den: int)
    requires
        1000 <= n,
        0 < den,
        2 * den <= num <= 6 * den,
    ensures
        -(den * n) <= 20 * (den * weighted(distribution(n, num, den), base_width(num, den)) - num
            * n) <= den * n,
{
    lemma_distribution(n, num, den);
    assert(400 * den <= n * den) by (nonlinear_arith)
        requires
            1000 <= n,
            0 < den,
    ;
    assert(den * n == n * den) by (nonlinear_arith);
}

} // verus!
