use crate::codec::common::SeaError;
use vstd::prelude::*;

verus! {

/// The weight of the bit at position `i` of a byte, the most significant
/// bit being at position 0.
pub open spec fn bit_weight(i: int) -> int {
    if i == 0 {
        128
    } else if i == 1 {
        64
    } else if i == 2 {
        32
    } else if i == 3 {
        16
    } else if i == 4 {
        8
    } else if i == 5 {
        4
    } else if i == 6 {
        2
    } else {
        1
    }
}

/// The bit at position `i` of `b`, counted from the most significant.
pub open spec fn byte_bit(b: u8, i: int) -> bool {
    (b as int / bit_weight(i)) % 2 == 1
}

/// The bit at position `p` of a byte string, most significant bit first.
pub open spec fn bit_at(bytes: Seq<u8>, p: int) -> bool {
    byte_bit(bytes[p / 8], p % 8)
}

/// The bits of a byte string, most significant bit of each byte first.
pub open spec fn bits_of(bytes: Seq<u8>) -> Seq<bool> {
    Seq::new(8 * bytes.len(), |p: int| bit_at(bytes, p))
}

/// What the bit at position `p` of `bits` adds to its byte; nothing when
/// `bits` ends before `p`.
pub open spec fn bit_term(bits: Seq<bool>, p: int) -> int {
    if p < bits.len() && bits[p] {
        bit_weight(p % 8)
    } else {
        0
    }
}

/// The byte number `j` of the packed form of `bits`: its eight bits, with
/// zeros after the end.
pub open spec fn byte_of(bits: Seq<bool>, j: int) -> u8 {
    (bit_term(bits, 8 * j) + bit_term(bits, 8 * j + 1) + bit_term(bits, 8 * j + 2) + bit_term(
        bits,
        8 * j + 3,
    ) + bit_term(bits, 8 * j + 4) + bit_term(bits, 8 * j + 5) + bit_term(bits, 8 * j + 6)
        + bit_term(bits, 8 * j + 7)) as u8
}

/// The number of bytes that hold `n` bits.
pub open spec fn bytes_for(n: int) -> int {
    (n + 7) / 8
}

/// The bits packed into bytes, most significant bit first, the last byte
/// filled up with zeros.
pub open spec fn packed(bits: Seq<bool>) -> Seq<u8> {
    Seq::new(bytes_for(bits.len() as int) as nat, |j: int| byte_of(bits, j))
}

/// The low `width` bits of `value`, most significant first.
pub open spec fn field_bits(value: u8, width: int) -> Seq<bool> {
    Seq::new(width as nat, |i: int| byte_bit(value, 8 - width + i))
}

/// The number that the bits spell, most significant first.
pub open spec fn bits_value(bits: Seq<bool>) -> nat
    decreases bits.len(),
{
    if bits.len() == 0 {
        0
    } else {
        2 * bits_value(bits.drop_last()) + if bits.last() {
            1nat
        } else {
            0nat
        }
    }
}

/// Two to the power `width`, for widths up to eight.
pub open spec fn field_limit(width: int) -> int {
    if width <= 0 {
        1
    } else {
        2 * bit_weight(8 - width)
    }
}

/// A value read from `width` bits is below two to the `width`.
pub proof fn lemma_bits_value_bound(bits: Seq<bool>)
    requires
        bits.len() <= 8,
    ensures
        bits_value(bits) < field_limit(bits.len() as int),
    decreases bits.len(),
{
    if bits.len() > 0 {
        lemma_bits_value_bound(bits.drop_last());
    }
}

/// Reading back the bits of a field gives its value.
pub proof fn lemma_field_round_trip(value: u8, width: int)
    requires
        0 <= width <= 8,
        value < field_limit(width),
    ensures
        bits_value(field_bits(value, width)) == value,
    decreases width,
{
    if width > 0 {
        let half: u8 = (value / 2) as u8;
        assert(field_bits(value, width).drop_last() =~= field_bits(half, width - 1)) by {
            assert forall|i: int| 0 <= i < width - 1 implies #[trigger] field_bits(value, width)[i]
                == field_bits(half, width - 1)[i] by {
                lemma_half_bits(value, 8 - width + i);
            }
        }
        lemma_field_round_trip(half, width - 1);
        assert(field_bits(value, width).last() == byte_bit(value, 7));
        assert(value as int / 1 == value as int);
    }
}

/// Halving a byte moves each of its bits one place down.
proof fn lemma_half_bits(value: u8, j: int)
    requires
        0 <= j < 7,
    ensures
        byte_bit(value, j) == byte_bit((value / 2) as u8, j + 1),
{
}

/// The weight of a set bit, nothing for a clear one.
pub open spec fn weigh(bit: bool, i: int) -> int {
    if bit {
        bit_weight(i)
    } else {
        0
    }
}

/// The byte made of eight bits, most significant first.
pub open spec fn byte_sum(
    b0: bool,
    b1: bool,
    b2: bool,
    b3: bool,
    b4: bool,
    b5: bool,
    b6: bool,
    b7: bool,
) -> int {
    weigh(b0, 0) + weigh(b1, 1) + weigh(b2, 2) + weigh(b3, 3) + weigh(b4, 4) + weigh(b5, 5) + weigh(
        b6,
        6,
    ) + weigh(b7, 7)
}

/// A byte made of eight bits has each of them in its place.
#[verifier::rlimit(40)]
proof fn lemma_byte_sum(
    b0: bool,
    b1: bool,
    b2: bool,
    b3: bool,
    b4: bool,
    b5: bool,
    b6: bool,
    b7: bool,
)
    ensures
        0 <= byte_sum(b0, b1, b2, b3, b4, b5, b6, b7) <= 255,
        byte_bit(byte_sum(b0, b1, b2, b3, b4, b5, b6, b7) as u8, 0) == b0,
        byte_bit(byte_sum(b0, b1, b2, b3, b4, b5, b6, b7) as u8, 1) == b1,
        byte_bit(byte_sum(b0, b1, b2, b3, b4, b5, b6, b7) as u8, 2) == b2,
        byte_bit(byte_sum(b0, b1, b2, b3, b4, b5, b6, b7) as u8, 3) == b3,
        byte_bit(byte_sum(b0, b1, b2, b3, b4, b5, b6, b7) as u8, 4) == b4,
        byte_bit(byte_sum(b0, b1, b2, b3, b4, b5, b6, b7) as u8, 5) == b5,
        byte_bit(byte_sum(b0, b1, b2, b3, b4, b5, b6, b7) as u8, 6) == b6,
        byte_bit(byte_sum(b0, b1, b2, b3, b4, b5, b6, b7) as u8, 7) == b7,
{
    let t0: u8 = if b0 { 128u8 } else { 0u8 };
    let t1: u8 = if b1 { 64u8 } else { 0u8 };
    let t2: u8 = if b2 { 32u8 } else { 0u8 };
    let t3: u8 = if b3 { 16u8 } else { 0u8 };
    let t4: u8 = if b4 { 8u8 } else { 0u8 };
    let t5: u8 = if b5 { 4u8 } else { 0u8 };
    let t6: u8 = if b6 { 2u8 } else { 0u8 };
    let t7: u8 = if b7 { 1u8 } else { 0u8 };
    let s: u8 = (t0 + t1 + t2 + t3 + t4 + t5 + t6 + t7) as u8;
    assert(s == byte_sum(b0, b1, b2, b3, b4, b5, b6, b7));
    let wide: u32 = (t0 + t1 + t2 + t3 + t4 + t5 + t6 + t7) as u32;
    assert(wide == (t0 | t1 | t2 | t3 | t4 | t5 | t6 | t7) as u32) by (bit_vector)
        requires
            t0 == 0 || t0 == 128,
            t1 == 0 || t1 == 64,
            t2 == 0 || t2 == 32,
            t3 == 0 || t3 == 16,
            t4 == 0 || t4 == 8,
            t5 == 0 || t5 == 4,
            t6 == 0 || t6 == 2,
            t7 == 0 || t7 == 1,
            wide == t0 as u32 + t1 as u32 + t2 as u32 + t3 as u32 + t4 as u32 + t5 as u32
                + t6 as u32 + t7 as u32,
    ;
    assert(((s / 128) % 2 == 1) == (t0 == 128) && ((s / 64) % 2 == 1) == (t1 == 64) && ((s / 32) % 2
        == 1) == (t2 == 32) && ((s / 16) % 2 == 1) == (t3 == 16) && ((s / 8) % 2 == 1) == (t4 == 8)
        && ((s / 4) % 2 == 1) == (t5 == 4) && ((s / 2) % 2 == 1) == (t6 == 2) && ((s / 1) % 2 == 1)
        == (t7 == 1)) by (bit_vector)
        requires
            t0 == 0 || t0 == 128,
            t1 == 0 || t1 == 64,
            t2 == 0 || t2 == 32,
            t3 == 0 || t3 == 16,
            t4 == 0 || t4 == 8,
            t5 == 0 || t5 == 4,
            t6 == 0 || t6 == 2,
            t7 == 0 || t7 == 1,
            s == t0 | t1 | t2 | t3 | t4 | t5 | t6 | t7,
    ;
}

/// Each bit of a packed string is the bit that was packed.
#[verifier::rlimit(40)]
pub proof fn lemma_packed_bit(bits: Seq<bool>, p: int)
    requires
        0 <= p < bits.len(),
    ensures
        bit_at(packed(bits), p) == bits[p],
{
    let j = p / 8;
    let n = bits.len() as int;
    let b0 = 8 * j < n && bits[8 * j];
    let b1 = 8 * j + 1 < n && bits[8 * j + 1];
    let b2 = 8 * j + 2 < n && bits[8 * j + 2];
    let b3 = 8 * j + 3 < n && bits[8 * j + 3];
    let b4 = 8 * j + 4 < n && bits[8 * j + 4];
    let b5 = 8 * j + 5 < n && bits[8 * j + 5];
    let b6 = 8 * j + 6 < n && bits[8 * j + 6];
    let b7 = 8 * j + 7 < n && bits[8 * j + 7];
    lemma_byte_sum(b0, b1, b2, b3, b4, b5, b6, b7);
    assert(bit_term(bits, 8 * j) == weigh(b0, 0));
    assert(bit_term(bits, 8 * j + 1) == weigh(b1, 1));
    assert(bit_term(bits, 8 * j + 2) == weigh(b2, 2));
    assert(bit_term(bits, 8 * j + 3) == weigh(b3, 3));
    assert(bit_term(bits, 8 * j + 4) == weigh(b4, 4));
    assert(bit_term(bits, 8 * j + 5) == weigh(b5, 5));
    assert(bit_term(bits, 8 * j + 6) == weigh(b6, 6));
    assert(bit_term(bits, 8 * j + 7) == weigh(b7, 7));
    assert(byte_of(bits, j) == byte_sum(b0, b1, b2, b3, b4, b5, b6, b7) as u8);
    assert(packed(bits)[j] == byte_of(bits, j));
}

/// The bits of a packed string begin with the bits that were packed.
pub proof fn lemma_packed_round_trip(bits: Seq<bool>)
    ensures
        packed(bits).len() == bytes_for(bits.len() as int),
        bits_of(packed(bits)).take(bits.len() as int) == bits,
{
    assert forall|p: int| 0 <= p < bits.len() implies bits_of(packed(bits))[p] == bits[p] by {
        lemma_packed_bit(bits, p);
    }
    assert(bits_of(packed(bits)).take(bits.len() as int) =~= bits);
}

/// The sum of the widths of a row of fields.
pub open spec fn total_width(widths: Seq<int>) -> int
    decreases widths.len(),
{
    if widths.len() == 0 {
        0
    } else {
        total_width(widths.drop_last()) + widths.last()
    }
}

/// The bits of a row of fields, one after the other: field `k` holds the low
/// `widths[k]` bits of `values[k]`.
pub open spec fn fields_bits(values: Seq<u8>, widths: Seq<int>) -> Seq<bool>
    decreases values.len(),
{
    if values.len() == 0 {
        Seq::<bool>::empty()
    } else {
        fields_bits(values.drop_last(), widths.take(values.len() - 1)) + field_bits(
            values.last(),
            widths[values.len() - 1],
        )
    }
}

/// The row of fields of the given widths that `bits` begins with.
pub open spec fn fields_from_bits(bits: Seq<bool>, widths: Seq<int>) -> Seq<u8>
    decreases widths.len(),
{
    if widths.len() == 0 {
        Seq::<u8>::empty()
    } else {
        let start = total_width(widths.drop_last());
        fields_from_bits(bits, widths.drop_last()).push(
            bits_value(bits.subrange(start, start + widths.last())) as u8,
        )
    }
}

/// Every width lies between nothing and a whole byte.
pub open spec fn widths_ok(widths: Seq<int>) -> bool {
    forall|k: int| 0 <= k < widths.len() ==> 0 <= #[trigger] widths[k] <= 8
}

/// Every value fits into its field.
pub open spec fn values_fit(values: Seq<u8>, widths: Seq<int>) -> bool {
    &&& values.len() == widths.len()
    &&& forall|k: int| 0 <= k < values.len() ==> (#[trigger] values[k]) < field_limit(widths[k])
}

/// The sum of the widths grows with the row and is never negative.
pub proof fn lemma_total_width(widths: Seq<int>, k: int)
    requires
        widths_ok(widths),
        0 <= k <= widths.len(),
    ensures
        0 <= total_width(widths.take(k)) <= total_width(widths),
        total_width(widths) <= 8 * widths.len(),
        k < widths.len() ==> total_width(widths.take(k + 1)) == total_width(widths.take(k))
            + widths[k],
        total_width(widths.take(widths.len() as int)) == total_width(widths),
    decreases widths.len(),
{
    assert(widths.take(widths.len() as int) =~= widths);
    if widths.len() == 0 {
        assert(widths.take(k) =~= widths);
    } else {
        let front = widths.drop_last();
        assert(widths_ok(front));
        if k < widths.len() {
            lemma_total_width(front, k);
            assert(front.take(k) =~= widths.take(k));
            assert(widths.take(k + 1).drop_last() =~= widths.take(k));
        } else {
            lemma_total_width(front, k - 1);
            assert(widths.take(k) =~= widths);
        }
    }
}

/// A row of fields takes as many bits as its widths add up to.
pub proof fn lemma_fields_bits_len(values: Seq<u8>, widths: Seq<int>)
    requires
        widths_ok(widths),
        values.len() == widths.len(),
    ensures
        fields_bits(values, widths).len() == total_width(widths),
    decreases values.len(),
{
    if values.len() > 0 {
        let n = values.len() - 1;
        assert(widths.take(n) =~= widths.drop_last());
        lemma_fields_bits_len(values.drop_last(), widths.drop_last());
    }
}

/// Fields read from the start of a bit string depend only on the bits they
/// cover.
#[verifier::rlimit(40)]
pub proof fn lemma_fields_from_prefix(a: Seq<bool>, b: Seq<bool>, widths: Seq<int>)
    requires
        widths_ok(widths),
        total_width(widths) <= a.len(),
        total_width(widths) <= b.len(),
        a.take(total_width(widths)) == b.take(total_width(widths)),
    ensures
        fields_from_bits(a, widths) == fields_from_bits(b, widths),
    decreases widths.len(),
{
    if widths.len() > 0 {
        let front = widths.drop_last();
        let start = total_width(front);
        let end = start + widths.last();
        lemma_total_width(widths, widths.len() - 1);
        assert(widths.take(widths.len() - 1) =~= front);
        assert(widths_ok(front));
        assert(a.take(start) =~= a.take(end).take(start));
        assert(b.take(start) =~= b.take(end).take(start));
        lemma_fields_from_prefix(a, b, front);
        assert(a.subrange(start, end) =~= a.take(end).subrange(start, end));
        assert(b.subrange(start, end) =~= b.take(end).subrange(start, end));
    }
}

/// The fields read from the bits of a row of fields are that row.
#[verifier::rlimit(40)]
pub proof fn lemma_fields_round_trip(values: Seq<u8>, widths: Seq<int>)
    requires
        widths_ok(widths),
        values_fit(values, widths),
    ensures
        fields_from_bits(fields_bits(values, widths), widths) == values,
    decreases values.len(),
{
    if values.len() > 0 {
        let n = values.len() - 1;
        let front_v = values.drop_last();
        let front_w = widths.drop_last();
        assert(widths.take(n) =~= front_w);
        let all = fields_bits(values, widths);
        let front = fields_bits(front_v, front_w);
        lemma_fields_bits_len(front_v, front_w);
        lemma_fields_bits_len(values, widths);
        lemma_fields_round_trip(front_v, front_w);
        assert(all.take(total_width(front_w)) =~= front);
        assert(front.take(total_width(front_w)) =~= front);
        lemma_fields_from_prefix(all, front, front_w);
        let start = total_width(front_w);
        assert(all.subrange(start, start + widths.last()) =~= field_bits(
            values.last(),
            widths.last(),
        ));
        lemma_field_round_trip(values.last(), widths.last());
        assert(fields_from_bits(all, widths) =~= values);
    }
}

/// The fields read from the packed bits of a row of fields, whatever
/// follows them, are that row.
#[verifier::rlimit(40)]
pub proof fn lemma_pack_round_trip(values: Seq<u8>, widths: Seq<int>, data: Seq<u8>)
    requires
        widths_ok(widths),
        values_fit(values, widths),
        data.len() >= bytes_for(total_width(widths)),
        data.take(bytes_for(total_width(widths))) == packed(fields_bits(values, widths)),
    ensures
        fields_from_bits(bits_of(data), widths) == values,
{
    let bits = fields_bits(values, widths);
    let n = total_width(widths);
    lemma_fields_bits_len(values, widths);
    lemma_packed_round_trip(bits);
    lemma_fields_round_trip(values, widths);
    assert forall|i: int| 0 <= i < n implies bits_of(data)[i] == bits[i] by {
        assert(data[i / 8] == data.take(bytes_for(n))[i / 8]);
        lemma_packed_bit(bits, i);
    }
    assert(bits_of(data).take(n) =~= bits);
    assert(bits.take(n) =~= bits);
    lemma_total_width(widths, 0);
    lemma_fields_from_prefix(bits_of(data), bits, widths);
}

/// Every field read from bits fits its width.
pub proof fn lemma_fields_fit(bits: Seq<bool>, widths: Seq<int>)
    requires
        widths_ok(widths),
        total_width(widths) <= bits.len(),
    ensures
        values_fit(fields_from_bits(bits, widths), widths),
        fields_from_bits(bits, widths).len() == widths.len(),
    decreases widths.len(),
{
    if widths.len() > 0 {
        let front = widths.drop_last();
        assert(widths_ok(front));
        lemma_total_width(widths, widths.len() - 1);
        assert(widths.take(widths.len() - 1) =~= front);
        lemma_total_width(front, 0);
        lemma_fields_fit(bits, front);
        let start = total_width(front);
        let field = bits.subrange(start, start + widths.last());
        lemma_bits_value_bound(field);
        let all = fields_from_bits(bits, widths);
        assert forall|k: int| 0 <= k < all.len() implies (#[trigger] all[k]) < field_limit(
            widths[k],
        ) by {
            if k < widths.len() - 1 {
                assert(all[k] == fields_from_bits(bits, front)[k]);
                assert(front[k] == widths[k]);
            }
        }
    }
}

/// The weight of the bit at position `i` of a byte.
fn weight_of(i: u8) -> (w: u8)
    requires
        i < 8,
    ensures
        w == bit_weight(i as int),
{
    if i == 0 {
        128
    } else if i == 1 {
        64
    } else if i == 2 {
        32
    } else if i == 3 {
        16
    } else if i == 4 {
        8
    } else if i == 5 {
        4
    } else if i == 6 {
        2
    } else {
        1
    }
}

/// Collects fields of one to eight bits into bytes, most significant bit
/// first.
pub struct BitWriter {
    bytes: Vec<u8>,
    fill: u8,
    bits: Ghost<Seq<bool>>,
}

impl View for BitWriter {
    type V = Seq<bool>;

    /// The bits written so far.
    closed spec fn view(&self) -> Seq<bool> {
        self.bits@
    }
}

impl BitWriter {
    /// The bytes hold the bits written so far.
    pub closed spec fn wf(&self) -> bool {
        &&& self.bytes@ == packed(self.bits@)
        &&& self.fill as int == self.bits@.len() % 8
    }

    /// A writer that holds no bits.
    pub fn new() -> (w: Self)
        ensures
            w.wf(),
            w@ == Seq::<bool>::empty(),
    {
        let w = BitWriter { bytes: Vec::new(), fill: 0, bits: Ghost(Seq::empty()) };
        assert(w.bytes@ =~= packed(w.bits@));
        w
    }

    /// Appends one bit.
    #[verifier::rlimit(40)]
    pub fn write_bit(&mut self, bit: bool)
        requires
            old(self).wf(),
        ensures
            final(self).wf(),
            final(self)@ == old(self)@.push(bit),
    {
        let ghost before = self.bits@;
        let ghost after = before.push(bit);
        let ghost n = before.len() as int;
        let ghost last = n / 8;
        if self.fill == 0 {
            self.bytes.push(if bit {
                128
            } else {
                0
            });
            self.fill = 1;
        } else {
            let at = self.bytes.len() - 1;
            let w = weight_of(self.fill);
            proof {
                assert(self.bytes@[at as int] == byte_of(before, last));
                lemma_partial_byte(before, last, self.fill as int);
            }
            if bit {
                self.bytes[at] = self.bytes[at] + w;
            }
            self.fill = if self.fill == 7 {
                0
            } else {
                self.fill + 1
            };
        }
        self.bits = Ghost(after);
        proof {
            assert forall|j: int| 0 <= j < bytes_for(n + 1) implies self.bytes@[j] == byte_of(
                after,
                j,
            ) by {
                if j < last {
                    assert(old(self).bytes@[j] == byte_of(before, j));
                }
            }
            assert(self.bytes@ =~= packed(after));
        }
    }

    /// Appends the low `width` bits of `value`, most significant first.
    pub fn write(&mut self, value: u8, width: u8)
        requires
            old(self).wf(),
            width <= 8,
        ensures
            final(self).wf(),
            final(self)@ == old(self)@ + field_bits(value, width as int),
    {
        let mut i: u8 = 0;
        while i < width
            invariant
                self.wf(),
                i <= width <= 8,
                self@ == old(self)@ + field_bits(value, width as int).take(i as int),
            decreases width - i,
        {
            let w = weight_of(8 - width + i);
            let bit = (value / w) % 2 == 1;
            self.write_bit(bit);
            proof {
                let f = field_bits(value, width as int);
                assert(f.take(i as int + 1) =~= f.take(i as int).push(bit));
                assert(self@ =~= old(self)@ + f.take(i as int + 1));
            }
            i += 1;
        }
        proof {
            let f = field_bits(value, width as int);
            assert(f.take(width as int) =~= f);
        }
    }

    /// The bytes that hold the written bits, the last byte filled up with
    /// zeros.
    pub fn finish(self) -> (bytes: Vec<u8>)
        requires
            self.wf(),
        ensures
            bytes@ == packed(self@),
    {
        self.bytes
    }
}

/// The last byte of a row of bits that ends inside it has nothing below the
/// last bit.
proof fn lemma_partial_byte(bits: Seq<bool>, last: int, fill: int)
    requires
        0 < fill < 8,
        bits.len() == 8 * last + fill,
        0 <= last,
    ensures
        byte_of(bits, last) as int + bit_weight(fill) <= 255,
        byte_of(bits, last) as int == bit_term(bits, 8 * last) + bit_term(bits, 8 * last + 1)
            + bit_term(bits, 8 * last + 2) + bit_term(bits, 8 * last + 3) + bit_term(
            bits,
            8 * last + 4,
        ) + bit_term(bits, 8 * last + 5) + bit_term(bits, 8 * last + 6) + bit_term(
            bits,
            8 * last + 7,
        ),
{
}

/// Reads fields of one to eight bits from bytes, most significant bit first.
pub struct BitReader<'a> {
    data: &'a [u8],
    byte: usize,
    bit: u8,
}

impl<'a> BitReader<'a> {
    /// The read position is inside the bytes or at their end.
    pub closed spec fn wf(&self) -> bool {
        &&& self.bit < 8
        &&& self.byte <= self.data@.len()
        &&& self.byte == self.data@.len() ==> self.bit == 0
    }

    /// The bytes that are read.
    pub closed spec fn bytes(&self) -> Seq<u8> {
        self.data@
    }

    /// The number of bits read so far.
    pub closed spec fn position(&self) -> int {
        8 * self.byte + self.bit
    }

    /// A reader at the first bit of `data`.
    pub fn new(data: &'a [u8]) -> (r: Self)
        ensures
            r.wf(),
            r.bytes() == data@,
            r.position() == 0,
    {
        BitReader { data, byte: 0, bit: 0 }
    }

    /// Reads a field of `width` bits, most significant first.
    ///
    /// When fewer than `width` bits are left, nothing is read.
    #[verifier::rlimit(40)]
    pub fn read(&mut self, width: u8) -> (r: Result<u8, SeaError>)
        requires
            old(self).wf(),
            width <= 8,
        ensures
            final(self).wf(),
            final(self).bytes() == old(self).bytes(),
            0 <= old(self).position() <= 8 * old(self).bytes().len(),
            old(self).position() + width > 8 * old(self).bytes().len() ==> r == Err::<
                u8,
                SeaError,
            >(SeaError::EndOfFile) && final(self).position() == old(self).position(),
            old(self).position() + width <= 8 * old(self).bytes().len() ==> r is Ok
                && final(self).position() == old(self).position() + width && r->Ok_0
                == bits_value(
                bits_of(old(self).bytes()).subrange(
                    old(self).position(),
                    old(self).position() + width,
                ),
            ) && (r->Ok_0 as int) < field_limit(width as int),
    {
        let left_bytes = self.data.len() - self.byte;
        // Bits left: 8 * left_bytes - bit; compared without multiplying.
        let enough = if width == 0 {
            true
        } else if left_bytes >= 2 {
            true
        } else if left_bytes == 1 {
            self.bit + width <= 8
        } else {
            false
        };
        if !enough {
            return Err(SeaError::EndOfFile);
        }
        let ghost start = self.position();
        let ghost all = bits_of(self.data@);
        let mut value: u8 = 0;
        let mut i: u8 = 0;
        while i < width
            invariant
                self.wf(),
                self.data == old(self).data,
                i <= width <= 8,
                start == old(self).position(),
                all == bits_of(self.data@),
                start + width <= 8 * self.data@.len(),
                self.position() == start + i,
                value == bits_value(all.subrange(start, start + i)),
            decreases width - i,
        {
            let w = weight_of(self.bit);
            let bit = (self.data[self.byte] / w) % 2 == 1;
            proof {
                let upto = all.subrange(start, start + i + 1);
                assert(upto.drop_last() =~= all.subrange(start, start + i));
                assert(upto.last() == bit);
                lemma_bits_value_bound(all.subrange(start, start + i));
            }
            value = 2 * value + if bit {
                1
            } else {
                0
            };
            if self.bit == 7 {
                self.bit = 0;
                self.byte = self.byte + 1;
            } else {
                self.bit = self.bit + 1;
            }
            i += 1;
        }
        proof {
            lemma_bits_value_bound(all.subrange(start, start + width));
        }
        Ok(value)
    }
}

/// The widths as mathematical integers.
pub open spec fn widths_view(widths: Seq<u8>) -> Seq<int> {
    Seq::new(widths.len(), |j: int| widths[j] as int)
}

/// No width is more than a byte.
pub open spec fn byte_widths(widths: Seq<u8>) -> bool {
    forall|k: int| 0 <= k < widths.len() ==> (#[trigger] widths[k]) <= 8
}

/// Packs a row of fields into bytes: field `k` holds the low `widths[k]`
/// bits of `values[k]`, most significant bit first; the last byte is filled
/// up with zeros.
#[verifier::rlimit(40)]
pub fn pack_fields(values: &Vec<u8>, widths: &Vec<u8>) -> (bytes: Vec<u8>)
    requires
        values@.len() == widths@.len(),
        byte_widths(widths@),
    ensures
        bytes@ == packed(fields_bits(values@, widths_view(widths@))),
        bytes@.len() == bytes_for(total_width(widths_view(widths@))),
{
    let ghost ws = widths_view(widths@);
    let mut writer = BitWriter::new();
    let n = values.len();
    let mut k: usize = 0;
    while k < n
        invariant
            writer.wf(),
            n == values@.len(),
            n == widths@.len(),
            byte_widths(widths@),
            ws == widths_view(widths@),
            k <= n,
            writer@ == fields_bits(values@.take(k as int), ws.take(k as int)),
        decreases n - k,
    {
        writer.write(values[k], widths[k]);
        proof {
            let vs = values@.take(k as int + 1);
            assert(vs.drop_last() =~= values@.take(k as int));
            assert(ws.take(k as int + 1).take(k as int) =~= ws.take(k as int));
        }
        k += 1;
    }
    proof {
        assert(values@.take(n as int) =~= values@);
        assert(ws.take(n as int) =~= ws);
        assert(widths_ok(ws));
        lemma_fields_bits_len(values@, ws);
    }
    writer.finish()
}

/// Reads a row of fields of the given widths from the start of `data`.
///
/// Fails with `EndOfFile` when `data` is shorter than the fields together.
#[verifier::rlimit(40)]
pub fn unpack_fields(data: &[u8], widths: &Vec<u8>) -> (r: Result<Vec<u8>, SeaError>)
    requires
        byte_widths(widths@),
    ensures
        total_width(widths_view(widths@)) > 8 * data@.len() ==> r == Err::<Vec<u8>, SeaError>(
            SeaError::EndOfFile,
        ),
        total_width(widths_view(widths@)) <= 8 * data@.len() ==> r is Ok && r->Ok_0@
            == fields_from_bits(bits_of(data@), widths_view(widths@)),
        r is Ok ==> values_fit(r->Ok_0@, widths_view(widths@)),
{
    let ghost ws = widths_view(widths@);
    let ghost bits = bits_of(data@);
    let mut reader = BitReader::new(data);
    let mut values: Vec<u8> = Vec::new();
    let n = widths.len();
    let mut k: usize = 0;
    proof {
        assert(widths_ok(ws));
        assert(ws.take(0) =~= Seq::<int>::empty());
    }
    while k < n
        invariant
            reader.wf(),
            reader.bytes() == data@,
            bits == bits_of(data@),
            n == widths@.len(),
            byte_widths(widths@),
            ws == widths_view(widths@),
            widths_ok(ws),
            k <= n,
            reader.position() == total_width(ws.take(k as int)),
            reader.position() <= 8 * data@.len(),
            values@ == fields_from_bits(bits, ws.take(k as int)),
            values_fit(values@, ws.take(k as int)),
        decreases n - k,
    {
        proof {
            lemma_total_width(ws, k as int);
            lemma_total_width(ws, k as int + 1);
            assert(ws.take(k as int + 1).drop_last() =~= ws.take(k as int));
        }
        match reader.read(widths[k]) {
            Ok(v) => {
                values.push(v);
            },
            Err(e) => {
                return Err(e);
            },
        }
        k += 1;
    }
    proof {
        assert(ws.take(n as int) =~= ws);
    }
    Ok(values)
}

/// The sum of the widths.
pub fn sum_widths(widths: &Vec<u8>) -> (total: usize)
    requires
        byte_widths(widths@),
        8 * widths@.len() <= usize::MAX,
    ensures
        total == total_width(widths_view(widths@)),
{
    let ghost ws = widths_view(widths@);
    let n = widths.len();
    let mut total: usize = 0;
    let mut k: usize = 0;
    proof {
        assert(widths_ok(ws));
        assert(ws.take(0) =~= Seq::<int>::empty());
    }
    while k < n
        invariant
            n == widths@.len(),
            byte_widths(widths@),
            8 * widths@.len() <= usize::MAX,
            ws == widths_view(widths@),
            widths_ok(ws),
            k <= n,
            total == total_width(ws.take(k as int)),
            total <= 8 * k,
        decreases n - k,
    {
        proof {
            lemma_total_width(ws, k as int);
            assert(widths_ok(ws.take(k as int)));
            assert(ws.take(k as int).take(k as int) =~= ws.take(k as int));
        }
        total = total + widths[k] as usize;
        k += 1;
    }
    proof {
        assert(ws.take(n as int) =~= ws);
    }
    total
}

/// The number of bytes that hold `n` bits.
pub fn bytes_holding(n: usize) -> (b: usize)
    ensures
        b == bytes_for(n as int),
        8 * b >= n,
{
    n / 8 + if n % 8 == 0 {
        0
    } else {
        1
    }
}

} // verus!
