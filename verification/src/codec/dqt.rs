use vstd::prelude::*;

verus! {

/// The smallest and the largest number of bits of a scale-factor index.
pub const MIN_SCALE_FACTOR_BITS: u8 = 2;

pub const MAX_SCALE_FACTOR_BITS: u8 = 6;

/// `b` to the power `e`.
pub open spec fn ipow(b: int, e: nat) -> int
    decreases e,
{
    if e == 0 {
        1
    } else {
        b * ipow(b, (e - 1) as nat)
    }
}

/// Powers grow with the base.
pub proof fn lemma_ipow_base_mono(a: int, b: int, e: nat)
    requires
        0 <= a <= b,
    ensures
        0 <= ipow(a, e) <= ipow(b, e),
        1 <= a ==> 1 <= ipow(a, e),
        1 <= a && 1 <= e ==> a <= ipow(a, e),
        a < b && 1 <= e ==> ipow(a, e) < ipow(b, e),
    decreases e,
{
    if e > 0 {
        lemma_ipow_base_mono(a, b, (e - 1) as nat);
        lemma_ipow_base_mono(b, b, (e - 1) as nat);
        let x = ipow(a, (e - 1) as nat);
        let y = ipow(b, (e - 1) as nat);
        assert(0 <= a * x <= b * y) by (nonlinear_arith)
            requires
                0 <= a <= b,
                0 <= x <= y,
        ;
        if 1 <= a {
            assert(a <= a * x) by (nonlinear_arith)
                requires
                    1 <= a,
                    1 <= x,
            ;
        }
        if a < b {
            assert(1 <= y);
            assert(a * x < b * y) by (nonlinear_arith)
                requires
                    0 <= a < b,
                    0 <= x <= y,
                    1 <= y,
            ;
        }
    }
}

/// The power of a sum of exponents is the product of the powers.
pub proof fn lemma_ipow_adds(b: int, x: nat, y: nat)
    ensures
        ipow(b, x + y) == ipow(b, x) * ipow(b, y),
    decreases x,
{
    if x > 0 {
        lemma_ipow_adds(b, (x - 1) as nat, y);
        let p = ipow(b, (x - 1) as nat);
        let q = ipow(b, y);
        assert(ipow(b, x + y) == b * ipow(b, (x - 1 + y) as nat));
        assert(b * (p * q) == (b * p) * q) by (nonlinear_arith);
    } else {
        assert(ipow(b, x) * ipow(b, y) == ipow(b, y)) by (nonlinear_arith)
            requires
                ipow(b, x) == 1,
        ;
    }
}

/// The power of a power is the power of the product of the exponents.
pub proof fn lemma_ipow_of_ipow(b: int, x: nat, y: nat)
    ensures
        ipow(ipow(b, x), y) == ipow(b, x * y),
    decreases y,
{
    if y > 0 {
        lemma_ipow_of_ipow(b, x, (y - 1) as nat);
        assert(x * y == x + x * (y - 1)) by (nonlinear_arith)
            requires
                y > 0,
        ;
        assert(0 <= x * (y - 1)) by (nonlinear_arith)
            requires
                y > 0,
                0 <= x,
        ;
        lemma_ipow_adds(b, x, (x * (y - 1)) as nat);
    } else {
        assert(x * y == 0) by (nonlinear_arith)
            requires
                y == 0,
        ;
    }
}

/// `r` is the `k`-th root of `x`, rounded down.
pub open spec fn is_floor_root(r: int, x: int, k: nat) -> bool {
    0 <= r && ipow(r, k) <= x < ipow(r + 1, k)
}

/// The `k`-th root of `x`, rounded down.
pub open spec fn floor_root(x: int, k: nat) -> int {
    choose|r: int| is_floor_root(r, x, k)
}

/// A number has at most one rounded-down root.
pub proof fn lemma_floor_root_unique(r: int, x: int, k: nat)
    requires
        is_floor_root(r, x, k),
        1 <= k,
    ensures
        floor_root(x, k) == r,
{
    let c = floor_root(x, k);
    assert(is_floor_root(c, x, k));
    if c < r {
        lemma_ipow_base_mono(c + 1, r, k);
    }
    if r < c {
        lemma_ipow_base_mono(r + 1, c, k);
    }
}

/// The exponent, times the number of scale-factor bits, of the power law
/// that spaces the step sizes of residual width `w`.
pub open spec fn power_factor(w: int) -> nat {
    if w <= 2 {
        12
    } else if w <= 4 {
        11
    } else if w == 5 {
        10
    } else if w == 6 {
        9
    } else if w == 7 {
        8
    } else {
        7
    }
}

/// The step size of scale index `s` at residual width `w`, with `sfb`
/// scale-factor bits: `s + 1` to the power `power_factor(w) / sfb`, rounded
/// down.
pub open spec fn scale_step(sfb: int, w: int, s: int) -> int {
    floor_root(ipow(s + 1, power_factor(w)), sfb as nat)
}

/// The number of magnitudes of residual width `w`: two to the `w - 1`.
pub open spec fn half_levels(w: int) -> int {
    if w == 1 {
        1
    } else if w == 2 {
        2
    } else if w == 3 {
        4
    } else if w == 4 {
        8
    } else if w == 5 {
        16
    } else if w == 6 {
        32
    } else if w == 7 {
        64
    } else {
        128
    }
}

/// The magnitude number `k` of residual width `w`, in thousandths of a
/// step: `0.75`, then `2k + 0.5`, and at the top `2^w - 1`.
pub open spec fn level_milli(w: int, k: int) -> int {
    if k == half_levels(w) - 1 {
        (2 * half_levels(w) - 1) * 1000
    } else if k == 0 {
        750
    } else {
        2000 * k + 500
    }
}

/// The reconstructed magnitude of level `k` at step size `step`, rounded to
/// the nearest integer.
pub open spec fn magnitude(step: int, w: int, k: int) -> int {
    (step * level_milli(w, k) + 500) / 1000
}

/// The reconstructed delta of the residual `code` at step size `step`: the
/// low bits of the code number the magnitude, its highest bit is the sign.
pub open spec fn delta_at_step(step: int, w: int, code: int) -> int {
    if code < half_levels(w) {
        magnitude(step, w, code)
    } else {
        -magnitude(step, w, code - half_levels(w))
    }
}

/// The reconstructed delta of the residual `code` of width `w` at scale
/// index `s`.
pub open spec fn dequant_value(sfb: int, w: int, s: int, code: int) -> int {
    delta_at_step(scale_step(sfb, w, s), w, code)
}

/// The factor, in 65536ths, that divides a delta by the step size of scale
/// index `s`.
pub open spec fn reciprocal(sfb: int, w: int, s: int) -> int {
    65536int / scale_step(sfb, w, s)
}

/// The number of scale indices: two to the `sfb`.
pub open spec fn scale_count(sfb: int) -> int {
    if sfb == 2 {
        4
    } else if sfb == 3 {
        8
    } else if sfb == 4 {
        16
    } else if sfb == 5 {
        32
    } else if sfb == 6 {
        64
    } else {
        0
    }
}

/// Two to the power of the power factor of `w`: the largest step size.
pub open spec fn max_step(w: int) -> int {
    if w <= 2 {
        4096
    } else if w <= 4 {
        2048
    } else if w == 5 {
        1024
    } else if w == 6 {
        512
    } else if w == 7 {
        256
    } else {
        128
    }
}

/// Whether `sfb` is a supported number of scale-factor bits.
pub open spec fn valid_scale_bits(sfb: int) -> bool {
    MIN_SCALE_FACTOR_BITS <= sfb <= MAX_SCALE_FACTOR_BITS
}

/// Whether `w` is a supported residual width.
pub open spec fn valid_width(w: int) -> bool {
    1 <= w <= 8
}

/// The small powers of two.
proof fn lemma_ipow2(e: nat)
    requires
        e <= 12,
    ensures
        ipow(2, e) == if e == 0 {
            1int
        } else if e == 1 {
            2
        } else if e == 2 {
            4
        } else if e == 3 {
            8
        } else if e == 4 {
            16
        } else if e == 5 {
            32
        } else if e == 6 {
            64
        } else if e == 7 {
            128
        } else if e == 8 {
            256
        } else if e == 9 {
            512
        } else if e == 10 {
            1024
        } else if e == 11 {
            2048
        } else {
            4096
        },
    decreases e,
{
    if e > 0 {
        lemma_ipow2((e - 1) as nat);
    }
}

/// Every step size lies between one and the largest step of its width.
#[verifier::rlimit(40)]
pub proof fn lemma_scale_step_bounds(sfb: int, w: int, s: int)
    requires
        valid_scale_bits(sfb),
        valid_width(w),
        0 <= s < scale_count(sfb),
        is_floor_root(scale_step(sfb, w, s), ipow(s + 1, power_factor(w)), sfb as nat),
    ensures
        1 <= scale_step(sfb, w, s) <= max_step(w),
{
    let p = power_factor(w);
    let k = sfb as nat;
    let x = ipow(s + 1, p);
    let r = scale_step(sfb, w, s);
    let top = max_step(w);
    lemma_ipow2(k);
    lemma_ipow2(p);
    assert(scale_count(sfb) == ipow(2, k));
    assert(top == ipow(2, p));
    // x <= (2^sfb)^p == (2^p)^sfb
    lemma_ipow_base_mono(s + 1, ipow(2, k), p);
    lemma_ipow_of_ipow(2, k, p);
    lemma_ipow_of_ipow(2, p, k);
    assert(k * p == p * k) by (nonlinear_arith);
    assert(x <= ipow(top, k));
    if r > top {
        lemma_ipow_base_mono(top, r, k);
    }
    lemma_ipow_base_mono(1, s + 1, p);
    if r < 1 {
        assert(ipow(1, k) == 1) by {
            lemma_ipow_one(k);
        }
    }
}

/// One to any power is one.
proof fn lemma_ipow_one(e: nat)
    ensures
        ipow(1, e) == 1,
    decreases e,
{
    if e > 0 {
        lemma_ipow_one((e - 1) as nat);
    }
}

/// Every reconstructed delta is smaller in size than a 16-bit sample can be.
pub proof fn lemma_delta_bounds(step: int, w: int, code: int)
    requires
        valid_width(w),
        1 <= step <= max_step(w),
        0 <= code < 2 * half_levels(w),
    ensures
        -32767 <= delta_at_step(step, w, code) <= 32767,
        1 <= magnitude(step, w, if code < half_levels(w) {
            code
        } else {
            code - half_levels(w)
        }),
{
    let k = if code < half_levels(w) {
        code
    } else {
        code - half_levels(w)
    };
    let top = (2 * half_levels(w) - 1) * 1000;
    let lv = level_milli(w, k);
    assert(750 <= lv <= top);
    assert(750 <= step * lv <= max_step(w) * top) by (nonlinear_arith)
        requires
            1 <= step <= max_step(w),
            750 <= lv <= top,
    ;
    assert(max_step(w) * top <= 32767000 - 1000) by {
        if w == 1 {
        } else if w == 2 {
        } else if w == 3 {
        } else if w == 4 {
        } else if w == 5 {
        } else if w == 6 {
        } else if w == 7 {
        } else {
        }
    }
}

/// Powers grow with the exponent when the base is at least one.
proof fn lemma_ipow_exp_mono(b: int, e1: nat, e2: nat)
    requires
        1 <= b,
        e1 <= e2,
    ensures
        1 <= ipow(b, e1) <= ipow(b, e2),
{
    lemma_ipow_adds(b, e1, (e2 - e1) as nat);
    lemma_ipow_base_mono(b, b, e1);
    lemma_ipow_base_mono(b, b, (e2 - e1) as nat);
    let x = ipow(b, e1);
    let y = ipow(b, (e2 - e1) as nat);
    assert(x <= x * y) by (nonlinear_arith)
        requires
            1 <= x,
            1 <= y,
    ;
}

/// The powers of 64 up to the twelfth.
#[verifier::rlimit(40)]
proof fn lemma_ipow64(e: nat)
    requires
        e <= 12,
    ensures
        ipow(64, e) <= 0x1_0000_0000_0000_0000_00,
        e < 12 ==> ipow(64, e) <= 0x4_0000_0000_0000_0000,
{
    lemma_ipow_of_ipow(2, 6, e);
    lemma_ipow2(6);
    assert(ipow(2, 72) == 0x1_0000_0000_0000_0000_00 && ipow(2, 66) == 0x4_0000_0000_0000_0000) by {
        lemma_ipow2(12);
        lemma_ipow_of_ipow(2, 12, 6);
        lemma_ipow_adds(4096, 3, 3);
        assert(ipow(4096, 3) == 0x10_0000_0000) by {
            reveal_with_fuel(ipow, 4);
        }
        assert(12 * 6 == 72);
        lemma_ipow_adds(2, 66, 6);
    }
    assert(6 * e <= 72) by (nonlinear_arith)
        requires
            e <= 12,
    ;
    lemma_ipow_exp_mono(2, 6 * e, 72);
    if e < 12 {
        assert(6 * e <= 66) by (nonlinear_arith)
            requires
                e < 12,
        ;
        lemma_ipow_exp_mono(2, 6 * e, 66);
    }
}

/// `base` to the power `exp`, for bases up to 64 and exponents up to 12.
fn pow_small(base: u128, exp: u8) -> (r: u128)
    requires
        1 <= base <= 64,
        exp <= 12,
    ensures
        r == ipow(base as int, exp as nat),
        1 <= r <= 0x1_0000_0000_0000_0000_00,
{
    let mut acc: u128 = 1;
    let mut i: u8 = 0;
    while i < exp
        invariant
            i <= exp <= 12,
            1 <= base <= 64,
            acc == ipow(base as int, i as nat),
            1 <= acc <= ipow(64, i as nat),
        decreases exp - i,
    {
        proof {
            lemma_ipow64(i as nat);
            lemma_ipow_base_mono(base as int, 64, (i + 1) as nat);
            assert(acc * base <= 0x4_0000_0000_0000_0000 * 64 && acc * base == base * acc && 1
                <= acc * base) by (nonlinear_arith)
                requires
                    1 <= acc <= 0x4_0000_0000_0000_0000,
                    1 <= base <= 64,
            ;
        }
        acc = acc * base;
        i += 1;
    }
    proof {
        lemma_ipow64(exp as nat);
    }
    acc
}

/// Whether `base` to the power `exp` is at most `limit`.
#[verifier::rlimit(40)]
fn pow_at_most(base: u128, exp: u8, limit: u128) -> (b: bool)
    requires
        1 <= base,
    ensures
        b == (ipow(base as int, exp as nat) <= limit),
{
    if limit < 1 {
        proof {
            lemma_ipow_base_mono(base as int, base as int, exp as nat);
        }
        return false;
    }
    let mut acc: u128 = 1;
    let mut i: u8 = 0;
    while i < exp
        invariant
            i <= exp,
            1 <= base,
            acc == ipow(base as int, i as nat),
            1 <= acc <= limit,
        decreases exp - i,
    {
        if acc > limit / base {
            proof {
                let q = (limit / base) as int;
                let m = (limit % base) as int;
                vstd::arithmetic::div_mod::lemma_fundamental_div_mod(limit as int, base as int);
                vstd::arithmetic::div_mod::lemma_mod_bound(limit as int, base as int);
                assert(base * acc > limit) by (nonlinear_arith)
                    requires
                        acc >= q + 1,
                        limit == base * q + m,
                        0 <= m < base,
                        1 <= base,
                ;
                lemma_ipow_exp_mono(base as int, (i + 1) as nat, exp as nat);
            }
            return false;
        }
        proof {
            let q = (limit / base) as int;
            let m = (limit % base) as int;
            vstd::arithmetic::div_mod::lemma_fundamental_div_mod(limit as int, base as int);
            vstd::arithmetic::div_mod::lemma_mod_bound(limit as int, base as int);
            assert(base * acc <= limit && 1 <= base * acc) by (nonlinear_arith)
                requires
                    1 <= acc <= q,
                    limit == base * q + m,
                    0 <= m < base,
                    1 <= base,
            ;
            assert(acc * base == base * acc) by (nonlinear_arith);
        }
        acc = acc * base;
        i += 1;
    }
    true
}

/// The `k`-th root of `x`, rounded down.
#[verifier::rlimit(40)]
fn root_floor(x: u128, k: u8) -> (r: u128)
    requires
        1 <= x <= 0x1_0000_0000_0000_0000_00,
        1 <= k,
    ensures
        is_floor_root(r as int, x as int, k as nat),
        r == floor_root(x as int, k as nat),
        1 <= r <= x,
{
    let mut r: u128 = 1;
    proof {
        lemma_ipow_one(k as nat);
    }
    loop
        invariant
            1 <= x <= 0x1_0000_0000_0000_0000_00,
            1 <= k,
            1 <= r <= x,
            ipow(r as int, k as nat) <= x,
        ensures
            is_floor_root(r as int, x as int, k as nat),
            1 <= r <= x,
        decreases x - r,
    {
        if !pow_at_most(r + 1, k, x) {
            break ;
        }
        proof {
            lemma_ipow_base_mono((r + 1) as int, (r + 1) as int, k as nat);
        }
        r = r + 1;
    }
    proof {
        lemma_floor_root_unique(r as int, x as int, k as nat);
    }
    r
}

/// The number of magnitudes of residual width `w`.
pub fn half_of(w: u8) -> (h: usize)
    requires
        valid_width(w as int),
    ensures
        h == half_levels(w as int),
{
    if w == 1 {
        1
    } else if w == 2 {
        2
    } else if w == 3 {
        4
    } else if w == 4 {
        8
    } else if w == 5 {
        16
    } else if w == 6 {
        32
    } else if w == 7 {
        64
    } else {
        128
    }
}

/// The number of scale indices for `sfb` scale-factor bits.
pub fn scales_of(sfb: u8) -> (n: usize)
    requires
        valid_scale_bits(sfb as int),
    ensures
        n == scale_count(sfb as int),
{
    if sfb == 2 {
        4
    } else if sfb == 3 {
        8
    } else if sfb == 4 {
        16
    } else if sfb == 5 {
        32
    } else {
        64
    }
}

/// The power factor of residual width `w`.
fn factor_of(w: u8) -> (p: u8)
    requires
        valid_width(w as int),
    ensures
        p == power_factor(w as int),
{
    if w <= 2 {
        12
    } else if w <= 4 {
        11
    } else if w == 5 {
        10
    } else if w == 6 {
        9
    } else if w == 7 {
        8
    } else {
        7
    }
}

/// The reconstructed deltas of all residual codes of width `w` at one step
/// size: the magnitudes in rising order, then the same with a minus sign.
#[verifier::rlimit(40)]
fn build_row(step: i32, w: u8) -> (row: Vec<i32>)
    requires
        valid_width(w as int),
        1 <= step <= max_step(w as int),
    ensures
        row@.len() == 2 * half_levels(w as int),
        forall|code: int|
            0 <= code < row@.len() ==> #[trigger] row@[code] == delta_at_step(
                step as int,
                w as int,
                code,
            ),
{
    let half = half_of(w);
    let mut row: Vec<i32> = Vec::new();
    let mut k: usize = 0;
    while k < half
        invariant
            valid_width(w as int),
            1 <= step <= max_step(w as int),
            half == half_levels(w as int),
            k <= half,
            row@.len() == k,
            forall|code: int|
                0 <= code < k ==> #[trigger] row@[code] == delta_at_step(
                    step as int,
                    w as int,
                    code,
                ),
        decreases half - k,
    {
        let level: i64 = if k == half - 1 {
            (2 * (half as i64) - 1) * 1000
        } else if k == 0 {
            750
        } else {
            2000 * (k as i64) + 500
        };
        proof {
            lemma_delta_bounds(step as int, w as int, k as int);
            assert(0 <= step * level <= 4096 * 255000) by (nonlinear_arith)
                requires
                    1 <= step <= 4096,
                    0 <= level <= 255000,
            ;
        }
        let m: i64 = ((step as i64) * level + 500) / 1000;
        row.push(m as i32);
        k += 1;
    }
    let mut j: usize = 0;
    while j < half
        invariant
            valid_width(w as int),
            1 <= step <= max_step(w as int),
            half == half_levels(w as int),
            j <= half,
            row@.len() == half + j,
            forall|code: int|
                0 <= code < half + j ==> #[trigger] row@[code] == delta_at_step(
                    step as int,
                    w as int,
                    code,
                ),
        decreases half - j,
    {
        proof {
            lemma_delta_bounds(step as int, w as int, j as int);
        }
        let m = row[j];
        row.push(-m);
        j += 1;
    }
    row
}

/// The reconstruction tables of one stream: for every residual width and
/// scale index, the delta that each residual code stands for, and the
/// reciprocal of the step size.
pub struct SeaDequantTab {
    scale_factor_bits: u8,
    dqt: Vec<Vec<Vec<i32>>>,
    recip: Vec<Vec<i32>>,
}

impl SeaDequantTab {
    /// The number of scale-factor bits the tables were built for; a value
    /// outside the supported range stands for tables that hold nothing.
    pub closed spec fn scale_bits(&self) -> int {
        self.scale_factor_bits as int
    }

    /// The tables hold the deltas and reciprocals of their scale-factor
    /// width.
    pub closed spec fn wf(&self) -> bool {
        let sfb = self.scale_factor_bits as int;
        valid_scale_bits(sfb) ==> {
            &&& self.dqt@.len() == 8
            &&& self.recip@.len() == 8
            &&& forall|w: int|
                1 <= w <= 8 ==> (#[trigger] self.dqt@[w - 1])@.len() == scale_count(sfb)
                    && self.recip@[w - 1]@.len() == scale_count(sfb)
            &&& forall|w: int, s: int|
                1 <= w <= 8 && 0 <= s < scale_count(sfb) ==> row_ok(
                    #[trigger] self.dqt@[w - 1]@[s]@,
                    sfb,
                    w,
                    s,
                ) && self.recip@[w - 1]@[s] == reciprocal(sfb, w, s) && 1 <= scale_step(sfb, w, s)
                    <= max_step(w)
        }
    }

    /// The number of scale-factor bits the tables were built for.
    pub fn scale_factor_bits(&self) -> (sfb: u8)
        ensures
            sfb == self.scale_bits(),
    {
        self.scale_factor_bits
    }

    /// Builds the tables for `scale_factor_bits` scale-factor bits. For a
    /// number outside the supported range the tables hold nothing.
    #[verifier::rlimit(40)]
    pub fn init(scale_factor_bits: u8) -> (tab: Self)
        ensures
            tab.wf(),
            tab.scale_bits() == scale_factor_bits,
    {
        let mut dqt: Vec<Vec<Vec<i32>>> = Vec::new();
        let mut recip: Vec<Vec<i32>> = Vec::new();
        if scale_factor_bits < MIN_SCALE_FACTOR_BITS || scale_factor_bits > MAX_SCALE_FACTOR_BITS {
            return SeaDequantTab { scale_factor_bits, dqt, recip };
        }
        let ghost sfb = scale_factor_bits as int;
        let count = scales_of(scale_factor_bits);
        let mut w: u8 = 1;
        while w <= 8
            invariant
                valid_scale_bits(sfb),
                sfb == scale_factor_bits,
                count == scale_count(sfb),
                1 <= w <= 9,
                dqt@.len() == w - 1,
                recip@.len() == w - 1,
                forall|v: int|
                    1 <= v < w ==> (#[trigger] dqt@[v - 1])@.len() == count && recip@[v - 1]@.len()
                        == count,
                forall|v: int, s: int|
                    1 <= v < w && 0 <= s < count ==> row_ok(#[trigger] dqt@[v - 1]@[s]@, sfb, v, s)
                        && recip@[v - 1]@[s] == reciprocal(sfb, v, s) && 1 <= scale_step(sfb, v, s)
                        <= max_step(v),
            decreases 9 - w,
        {
            let factor = factor_of(w);
            let mut rows: Vec<Vec<i32>> = Vec::new();
            let mut recs: Vec<i32> = Vec::new();
            let mut s: usize = 0;
            while s < count
                invariant
                    valid_scale_bits(sfb),
                    sfb == scale_factor_bits,
                    count == scale_count(sfb),
                    valid_width(w as int),
                    factor == power_factor(w as int),
                    s <= count,
                    rows@.len() == s,
                    recs@.len() == s,
                    forall|t: int|
                        0 <= t < s ==> row_ok(#[trigger] rows@[t]@, sfb, w as int, t) && recs@[t]
                            == reciprocal(sfb, w as int, t) && 1 <= scale_step(sfb, w as int, t)
                            <= max_step(w as int),
                decreases count - s,
            {
                let x = pow_small((s + 1) as u128, factor);
                let root = root_floor(x, scale_factor_bits);
                proof {
                    lemma_scale_step_bounds(sfb, w as int, s as int);
                }
                let step: i32 = root as i32;
                let row = build_row(step, w);
                rows.push(row);
                recs.push(65536 / step);
                s += 1;
            }
            let ghost dqt_before = dqt@;
            let ghost recip_before = recip@;
            let ghost rows_view = rows@;
            let ghost recs_view = recs@;
            dqt.push(rows);
            recip.push(recs);
            proof {
                assert forall|v: int, s: int| 1 <= v < w + 1 && 0 <= s < count implies row_ok(
                    #[trigger] dqt@[v - 1]@[s]@,
                    sfb,
                    v,
                    s,
                ) && recip@[v - 1]@[s] == reciprocal(sfb, v, s) && 1 <= scale_step(sfb, v, s)
                    <= max_step(v) by {
                    if v == w {
                        assert(dqt@[v - 1]@ == rows_view);
                        assert(recip@[v - 1]@ == recs_view);
                        assert(row_ok(rows_view[s]@, sfb, w as int, s));
                    } else {
                        assert(dqt@[v - 1] == dqt_before[v - 1]);
                        assert(recip@[v - 1] == recip_before[v - 1]);
                        assert(row_ok(dqt_before[v - 1]@[s]@, sfb, v, s));
                    }
                }
            }
            w += 1;
        }
        SeaDequantTab { scale_factor_bits, dqt, recip }
    }

    /// The delta that the residual `code` of width `w` stands for at scale
    /// index `s`.
    pub fn delta(&self, w: u8, s: u8, code: u8) -> (d: i32)
        requires
            self.wf(),
            valid_scale_bits(self.scale_bits()),
            valid_width(w as int),
            s < scale_count(self.scale_bits()),
            code < 2 * half_levels(w as int),
        ensures
            d == dequant_value(self.scale_bits(), w as int, s as int, code as int),
            -32767 <= d <= 32767,
    {
        proof {
            assert(row_ok(self.dqt@[w - 1]@[s as int]@, self.scale_bits(), w as int, s as int));
            lemma_delta_bounds(
                scale_step(self.scale_bits(), w as int, s as int),
                w as int,
                code as int,
            );
        }
        self.dqt[(w - 1) as usize][s as usize][code as usize]
    }

    /// The reciprocal, in 65536ths, of the step size of scale index `s` at
    /// residual width `w`.
    pub fn reciprocal_of(&self, w: u8, s: u8) -> (r: i32)
        requires
            self.wf(),
            valid_scale_bits(self.scale_bits()),
            valid_width(w as int),
            s < scale_count(self.scale_bits()),
        ensures
            r == reciprocal(self.scale_bits(), w as int, s as int),
            1 <= r <= 65536,
    {
        proof {
            assert(row_ok(self.dqt@[w - 1]@[s as int]@, self.scale_bits(), w as int, s as int));
            let step = scale_step(self.scale_bits(), w as int, s as int);
            vstd::arithmetic::div_mod::lemma_fundamental_div_mod(65536, step);
            vstd::arithmetic::div_mod::lemma_mod_bound(65536, step);
            let q = 65536int / step;
            let m = 65536int % step;
            assert(1 <= q <= 65536) by (nonlinear_arith)
                requires
                    1 <= step <= 4096,
                    65536 == step * q + m,
                    q == 65536int / step,
                    0 <= m < step,
            ;
        }
        self.recip[(w - 1) as usize][s as usize]
    }
}

/// The row holds the deltas of all codes of width `w` at scale index `s`.
pub open spec fn row_ok(row: Seq<i32>, sfb: int, w: int, s: int) -> bool {
    &&& row.len() == 2 * half_levels(w)
    &&& forall|code: int|
        0 <= code < row.len() ==> #[trigger] row[code] == dequant_value(sfb, w, s, code)
}

} // verus!
