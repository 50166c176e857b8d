use vstd::prelude::*;

verus! {

/// Bit `k` of a byte stream, counted from the most significant bit of byte 0.
pub open spec fn bit_at(buf: Seq<u8>, k: int) -> bool {
    (buf[k / 8] >> ((7 - k % 8) as u8)) & 1u8 == 1u8
}

/// Bit `j` of a number, counted from the least significant bit.
pub open spec fn value_bit(value: u32, j: int) -> bool {
    (value >> (j as u32)) & 1u32 == 1u32
}

/// The number that the `n` bits from bit `start` on spell, most significant bit first.
pub open spec fn bits_value(buf: Seq<u8>, start: int, n: nat) -> nat
    decreases n,
{
    if n == 0 {
        0
    } else {
        2 * bits_value(buf, start, (n - 1) as nat) + if bit_at(buf, start + n - 1) {
            1nat
        } else {
            0nat
        }
    }
}

/// The low `n` bits of `value`, as a number.
pub open spec fn low_bits(value: u32, n: nat) -> u32 {
    if n >= 32 {
        value
    } else {
        value & (((1u32 << (n as u32)) - 1) as u32)
    }
}

/// What a write of the low `n` bits of `value` at bit `start` does to a stream:
/// the field spells those bits, and every bit outside the field stays as it was.
pub open spec fn bits_written(before: Seq<u8>, after: Seq<u8>, start: int, n: nat, value: u32) -> bool {
    &&& after.len() == before.len()
    &&& bits_value(after, start, n) == low_bits(value, n)
    &&& forall|k: int|
        0 <= k < 8 * before.len() && !(start <= k < start + n) ==> bit_at(after, k) == bit_at(
            before,
            k,
        )
}

/// The number of whole bytes needed to hold `i` bits.
pub fn divide_by_8_round_up(i: u32) -> (result: u32)
    ensures
        result == (i + 7) / 8,
{
    let mut result: u32 = i / 8;
    if i % 8 > 0 {
        result += 1;
    }
    result
}

/// The byte and the bit within it at which register `reg_num` of width `reg_width` begins.
pub fn calc_position(reg_num: u32, reg_width: u8) -> (at: (usize, u8))
    requires
        (reg_num * reg_width) / 8 <= usize::MAX,
    ensures
        at.0 == (reg_num * reg_width) / 8,
        at.1 == (reg_num * reg_width) % 8,
        8 * at.0 + at.1 == reg_num * reg_width,
{
    assert(reg_num * reg_width <= 0xFFFF_FFFF * 0xFF) by (nonlinear_arith)
        requires
            reg_num <= 0xFFFF_FFFF,
            reg_width <= 0xFF,
    ;
    let addr: u64 = (reg_num as u64) * (reg_width as u64);
    let idx: u64 = addr / 8;
    let pos: u64 = addr % 8;
    (idx as usize, pos as u8)
}

/// Half of a number that fits `n` bits fits one bit less, and holds the number's bits one
/// place lower.
proof fn lemma_halve(r: u32, n: u32, j: u32)
    by (bit_vector)
    requires
        1 <= n <= 32,
        n < 32 ==> r >> n == 0,
    ensures
        (r / 2) >> ((n - 1) as u32) == 0,
        j < 31 ==> ((r / 2) >> j) & 1 == (r >> ((j + 1) as u32)) & 1,
        r == 2 * (r / 2) + ((r >> 0) & 1),
        (r >> 0) & 1 == 0 || (r >> 0) & 1 == 1,
{
}

/// A number whose bits are those of a field, in the field's order, is what the field spells.
pub proof fn lemma_spelled(buf: Seq<u8>, start: int, n: nat, r: u32)
    requires
        n <= 32,
        n < 32 ==> r >> (n as u32) == 0,
        forall|j: int| 0 <= j < n ==> #[trigger] value_bit(r, j) == bit_at(buf, start + n - 1 - j),
    ensures
        bits_value(buf, start, n) == r,
    decreases n,
{
    if n == 0 {
        assert(r >> 0 == r) by (bit_vector);
    } else {
        let h: u32 = r / 2;
        lemma_halve(r, n as u32, 0);
        assert forall|j: int| 0 <= j < n - 1 implies #[trigger] value_bit(h, j) == bit_at(
            buf,
            start + (n - 1) - 1 - j,
        ) by {
            lemma_halve(r, n as u32, j as u32);
            assert(value_bit(r, j + 1) == bit_at(buf, start + n - 1 - (j + 1)));
        }
        lemma_spelled(buf, start, (n - 1) as nat, h);
        assert(value_bit(r, 0) == bit_at(buf, start + n - 1 - 0));
    }
}

/// Twice a number and one bit more fits one bit more, and holds the bit lowest and the
/// number's bits one place higher.
proof fn lemma_double(h: u32, b: u32, n: u32, j: u32)
    by (bit_vector)
    requires
        1 <= n <= 32,
        h >> ((n - 1) as u32) == 0,
        b <= 1,
    ensures
        2 * h + b <= 0xFFFF_FFFF,
        n < 32 ==> ((2 * h + b) as u32) >> n == 0,
        (((2 * h + b) as u32) >> 0) & 1 == b,
        j < 31 ==> (((2 * h + b) as u32) >> ((j + 1) as u32)) & 1 == (h >> j) & 1,
{
}

/// What a field spells fits the field's width, and its bits are the field's bits.
pub proof fn lemma_spelled_bits(buf: Seq<u8>, start: int, n: nat)
    requires
        n <= 32,
    ensures
        bits_value(buf, start, n) <= u32::MAX,
        n < 32 ==> (bits_value(buf, start, n) as u32) >> (n as u32) == 0,
        forall|j: int|
            0 <= j < n ==> #[trigger] value_bit(bits_value(buf, start, n) as u32, j) == bit_at(
                buf,
                start + n - 1 - j,
            ),
    decreases n,
{
    if n == 0 {
        assert(0u32 >> 0 == 0) by (bit_vector);
    } else {
        let m = (n - 1) as nat;
        lemma_spelled_bits(buf, start, m);
        let h = bits_value(buf, start, m) as u32;
        let b: u32 = if bit_at(buf, start + n - 1) {
            1
        } else {
            0
        };
        lemma_double(h, b, n as u32, 0);
        let r = bits_value(buf, start, n) as u32;
        assert(r == (2 * h + b) as u32);
        assert forall|j: int| 0 <= j < n implies #[trigger] value_bit(r, j) == bit_at(
            buf,
            start + n - 1 - j,
        ) by {
            if j > 0 {
                lemma_double(h, b, n as u32, (j - 1) as u32);
                assert(value_bit(h, j - 1) == bit_at(buf, start + m - 1 - (j - 1)));
            }
        }
    }
}

/// Two streams that agree on every bit of a field spell the same number there.
pub proof fn lemma_same_bits(a: Seq<u8>, b: Seq<u8>, start: int, n: nat)
    requires
        forall|k: int| start <= k < start + n ==> #[trigger] bit_at(a, k) == bit_at(b, k),
    ensures
        bits_value(a, start, n) == bits_value(b, start, n),
    decreases n,
{
    if n > 0 {
        lemma_same_bits(a, b, start, (n - 1) as nat);
        assert(bit_at(a, start + n - 1) == bit_at(b, start + n - 1));
    }
}

/// Two streams of one length that agree on every bit are the same stream.
pub proof fn lemma_same_stream(a: Seq<u8>, b: Seq<u8>)
    requires
        a.len() == b.len(),
        forall|k: int| 0 <= k < 8 * a.len() ==> #[trigger] bit_at(a, k) == bit_at(b, k),
    ensures
        a == b,
{
    assert forall|i: int| 0 <= i < a.len() implies a[i] == b[i] by {
        let x = a[i];
        let y = b[i];
        assert forall|p: u8| p < 8 implies ((x >> p) & 1u8 == 1u8) == ((y >> p) & 1u8 == 1u8) by {
            let k = 8 * i + (7 - p);
            assert(bit_at(a, k) == bit_at(b, k));
            assert(k / 8 == i && 7 - k % 8 == p);
        }
        assert(((x >> 0u8) & 1u8 == 1u8) == ((y >> 0u8) & 1u8 == 1u8));
        assert(((x >> 1u8) & 1u8 == 1u8) == ((y >> 1u8) & 1u8 == 1u8));
        assert(((x >> 2u8) & 1u8 == 1u8) == ((y >> 2u8) & 1u8 == 1u8));
        assert(((x >> 3u8) & 1u8 == 1u8) == ((y >> 3u8) & 1u8 == 1u8));
        assert(((x >> 4u8) & 1u8 == 1u8) == ((y >> 4u8) & 1u8 == 1u8));
        assert(((x >> 5u8) & 1u8 == 1u8) == ((y >> 5u8) & 1u8 == 1u8));
        assert(((x >> 6u8) & 1u8 == 1u8) == ((y >> 6u8) & 1u8 == 1u8));
        assert(((x >> 7u8) & 1u8 == 1u8) == ((y >> 7u8) & 1u8 == 1u8));
        assert(x == y) by (bit_vector)
            requires
                ((x >> 0u8) & 1u8 == 1u8) == ((y >> 0u8) & 1u8 == 1u8),
                ((x >> 1u8) & 1u8 == 1u8) == ((y >> 1u8) & 1u8 == 1u8),
                ((x >> 2u8) & 1u8 == 1u8) == ((y >> 2u8) & 1u8 == 1u8),
                ((x >> 3u8) & 1u8 == 1u8) == ((y >> 3u8) & 1u8 == 1u8),
                ((x >> 4u8) & 1u8 == 1u8) == ((y >> 4u8) & 1u8 == 1u8),
                ((x >> 5u8) & 1u8 == 1u8) == ((y >> 5u8) & 1u8 == 1u8),
                ((x >> 6u8) & 1u8 == 1u8) == ((y >> 6u8) & 1u8 == 1u8),
                ((x >> 7u8) & 1u8 == 1u8) == ((y >> 7u8) & 1u8 == 1u8),
        ;
    }
    assert(a =~= b);
}

/// Two streams that spell the same number in a field agree on every bit of the field.
pub proof fn lemma_same_value_bits(a: Seq<u8>, b: Seq<u8>, start: int, n: nat, k: int)
    requires
        n <= 32,
        bits_value(a, start, n) == bits_value(b, start, n),
        start <= k < start + n,
    ensures
        bit_at(a, k) == bit_at(b, k),
{
    lemma_spelled_bits(a, start, n);
    lemma_spelled_bits(b, start, n);
    let j = start + n - 1 - k;
    assert(value_bit(bits_value(a, start, n) as u32, j) == bit_at(a, start + n - 1 - j));
    assert(value_bit(bits_value(b, start, n) as u32, j) == bit_at(b, start + n - 1 - j));
}

/// After a write, each bit of the field is the bit of the value that belongs there.
pub proof fn lemma_written_bit(before: Seq<u8>, after: Seq<u8>, start: int, n: nat, value: u32, k: int)
    requires
        n <= 32,
        bits_written(before, after, start, n, value),
        start <= k < start + n,
    ensures
        bit_at(after, k) == value_bit(value, start + n - 1 - k),
{
    let j = start + n - 1 - k;
    lemma_spelled_bits(after, start, n);
    assert(value_bit(bits_value(after, start, n) as u32, j) == bit_at(after, start + n - 1 - j));
    if n < 32 {
        lemma_low_bits(value, n as u32, j as u32);
    }
}

/// Each bit of what is read from one or two bytes is the bit of the field that belongs there.
proof fn lemma_read_bit(b0: u8, b1: u8, pos: u8, n: u8, j: u8, r: u8)
    by (bit_vector)
    requires
        pos < 8,
        1 <= n <= 8,
        j < n,
        pos + n <= 8 ==> r == (b0 >> ((8 - pos - n) as u8)) & (0xFFu8 >> ((8 - n) as u8)),
        pos + n > 8 ==> r == ((b0 & (0xFFu8 >> pos)) << ((pos + n - 8) as u8))
            | (b1 >> ((16 - pos - n) as u8)),
    ensures
        (r as u32) >> (n as u32) == 0,
        pos + n - 1 - j < 8 ==> (((r as u32) >> (j as u32)) & 1 == 1 <==> (b0 >> ((8 + j - pos - n) as u8)) & 1
            == 1),
        pos + n - 1 - j >= 8 ==> (((r as u32) >> (j as u32)) & 1 == 1 <==> (b1 >> ((16 + j - pos - n) as u8)) & 1
            == 1),
{
}

/// Reads the `n_bits` bits that begin `pos` bits into byte `idx`.
pub fn read_u8_bits(buf: &[u8], idx: usize, pos: u8, n_bits: u8) -> (r: u8)
    requires
        pos < 8,
        1 <= n_bits <= 8,
        8 * idx + pos + n_bits <= 8 * buf.len(),
    ensures
        r == bits_value(buf@, 8 * idx + pos, n_bits as nat),
{
    let r: u8;
    let ghost b1: u8 = 0;
    if pos + n_bits <= 8 {
        let mask: u8 = 0xFFu8 >> (8 - n_bits);
        let mask_offset: u8 = 8 - (pos + n_bits);
        r = (buf[idx] >> mask_offset) & mask;
    } else {
        let n_bits_upper: u8 = 8 - pos;
        let n_bits_lower: u8 = n_bits - n_bits_upper;
        let mask_upper: u8 = 0xFFu8 >> pos;
        let upper: u8 = (buf[idx] & mask_upper) << n_bits_lower;
        let lower: u8 = buf[idx + 1] >> (8 - n_bits_lower);
        proof {
            b1 = buf[idx + 1];
        }
        r = upper | lower;
    }
    proof {
        let start = 8 * idx + pos;
        assert forall|j: int| 0 <= j < n_bits implies #[trigger] value_bit(r as u32, j) == bit_at(
            buf@,
            start + n_bits - 1 - j,
        ) by {
            lemma_read_bit(buf[idx as int], b1, pos, n_bits, j as u8, r);
        }
        lemma_read_bit(buf[idx as int], b1, pos, n_bits, 0, r);
        lemma_spelled(buf@, start, n_bits as nat, r as u32);
    }
    r
}

/// The low `n` bits of a number fit `n` bits and are the number's own.
proof fn lemma_low_bits(v: u32, n: u32, j: u32)
    by (bit_vector)
    requires
        n < 32,
    ensures
        (v & (((1u32 << n) - 1) as u32)) >> n == 0,
        j < n ==> ((v & (((1u32 << n) - 1) as u32)) >> j) & 1 == (v >> j) & 1,
{
}

/// After a write into one or two bytes, each bit within the field is the value's, and each
/// bit outside it is as it was.
proof fn lemma_write_bit(b0: u8, b1: u8, v: u8, pos: u8, n: u8, p: u8, c0: u8, c1: u8)
    by (bit_vector)
    requires
        pos < 8,
        1 <= n <= 8,
        p < 8,
        pos + n <= 8 ==> c1 == b1 && c0 == (b0 & !((0xFFu8 >> ((8 - n) as u8)) << ((8 - pos - n) as u8))) | ((v
            & (0xFFu8 >> ((8 - n) as u8))) << ((8 - pos - n) as u8)),
        pos + n > 8 ==> c0 == (b0 & !(0xFFu8 >> pos)) | ((v >> ((pos + n - 8) as u8)) & (0xFFu8 >> pos))
            && c1 == (b1 & (0xFFu8 >> ((pos + n - 8) as u8))) | (v << ((16 - pos - n) as u8)),
    ensures
        (pos <= 7 - p < pos + n) ==> ((c0 >> p) & 1 == 1 <==> ((v as u32) >> ((pos + n + p - 8) as u32)) & 1
            == 1),
        !(pos <= 7 - p < pos + n) ==> ((c0 >> p) & 1 == (b0 >> p) & 1),
        (15 - p < pos + n) ==> ((c1 >> p) & 1 == 1 <==> ((v as u32) >> ((pos + n + p - 16) as u32)) & 1
            == 1),
        !(15 - p < pos + n) ==> ((c1 >> p) & 1 == (b1 >> p) & 1),
{
}

/// Writes the low `n_bits` bits of `value` into the field that begins `pos` bits into byte
/// `idx`, and leaves every other bit as it was.
pub fn write_u8_bits(buf: &mut [u8], idx: usize, pos: u8, value: u8, n_bits: u8)
    requires
        pos < 8,
        1 <= n_bits <= 8,
        8 * idx + pos + n_bits <= 8 * old(buf).len(),
    ensures
        bits_written(old(buf)@, final(buf)@, 8 * idx + pos, n_bits as nat, value as u32),
{
    let ghost before = buf@;
    let ghost b1: u8 = 0;
    let ghost c1: u8 = 0;
    if pos + n_bits <= 8 {
        let field: u8 = 0xFFu8 >> (8 - n_bits);
        let mask_offset: u8 = 8 - (pos + n_bits);
        let mask: u8 = field << mask_offset;
        let kept: u8 = buf[idx] & !mask;
        buf[idx] = kept | ((value & field) << mask_offset);
    } else {
        let n_bits_upper: u8 = 8 - pos;
        let n_bits_lower: u8 = n_bits - n_bits_upper;
        let mask_upper: u8 = 0xFFu8 >> pos;
        let mask_lower: u8 = 0xFFu8 >> n_bits_lower;
        let upper_value: u8 = (value >> n_bits_lower) & mask_upper;
        let lower_value: u8 = value << (8 - n_bits_lower);
        let kept_upper: u8 = buf[idx] & !mask_upper;
        let kept_lower: u8 = buf[idx + 1] & mask_lower;
        buf[idx] = kept_upper | upper_value;
        buf[idx + 1] = kept_lower | lower_value;
        proof {
            b1 = before[idx + 1];
            c1 = buf@[idx + 1];
        }
    }
    proof {
        let start = 8 * idx + pos;
        let after = buf@;
        let n = n_bits as nat;
        let low = low_bits(value as u32, n);
        let split = pos + n_bits > 8;
        assert forall|k: int| 0 <= k < 8 * before.len() implies #[trigger] bit_at(after, k) == (if start <= k
            < start + n {
            value_bit(value as u32, start + n - 1 - k)
        } else {
            bit_at(before, k)
        }) by {
            let p = (7 - k % 8) as u8;
            if k / 8 == idx || (split && k / 8 == idx + 1) {
                lemma_write_bit(before[idx as int], b1, value, pos, n_bits, p, after[idx as int], c1);
            }
        }
        assert forall|j: int| 0 <= j < n implies #[trigger] value_bit(low, j) == bit_at(
            after,
            start + n - 1 - j,
        ) by {
            lemma_low_bits(value as u32, n_bits as u32, j as u32);
            let k = start + n - 1 - j;
            assert(start + n - 1 - k == j);
        }
        lemma_low_bits(value as u32, n_bits as u32, 0);
        lemma_spelled(after, start, n, low);
    }
}

/// A byte taken out of a number holds the number's bits from the place it was taken at.
proof fn lemma_chunk_bit(value: u32, shift: u32, j: u32)
    by (bit_vector)
    requires
        shift <= 24,
        j < 8,
    ensures
        ((((value >> shift) & 0xFF) as u8) as u32 >> j) & 1 == (value >> ((j + shift) as u32)) & 1,
{
}

/// A number with up to eight bits appended holds those bits lowest and its own above them.
proof fn lemma_append_bit(r: u32, c: u8, s: u32, done: u32, j: u32)
    by (bit_vector)
    requires
        1 <= s <= 8,
        done + s <= 32,
        done < 32 ==> r >> done == 0,
        done == 32 ==> r == 0,
        (c as u32) >> s == 0,
        j < done + s,
    ensures
        done + s < 32 ==> ((r << s) | (c as u32)) >> ((done + s) as u32) == 0,
        j < s ==> (((r << s) | (c as u32)) >> j) & 1 == ((c as u32) >> j) & 1,
        j >= s ==> (((r << s) | (c as u32)) >> j) & 1 == (r >> ((j - s) as u32)) & 1,
{
}

/// Writes the low `n_bits` bits of `value`, most significant bit first, into the field that
/// begins `pos` bits into byte `idx`, and leaves every other bit as it was.
#[verifier::rlimit(50)]
pub fn write_bits(buf: &mut [u8], idx: usize, pos: u8, value: u32, n_bits: u8)
    requires
        pos < 8,
        n_bits <= 32,
        8 * idx + pos + n_bits <= 8 * old(buf).len(),
    ensures
        bits_written(old(buf)@, final(buf)@, 8 * idx + pos, n_bits as nat, value),
{
    let ghost before = buf@;
    let ghost start = 8 * idx + pos;
    let ghost n = n_bits as nat;
    let mut idx: usize = idx;
    let mut pos: u8 = pos;
    let mut remaining: u8 = n_bits;
    let w_bits: u8 = n_bits % 8;
    if w_bits > 0 {
        let ghost prev = buf@;
        let chunk: u8 = ((value >> (n_bits - w_bits)) & 0xFF) as u8;
        write_u8_bits(buf, idx, pos, chunk, w_bits);
        proof {
            assert forall|k: int| start <= k < start + w_bits implies #[trigger] bit_at(buf@, k)
                == value_bit(value, start + n - 1 - k) by {
                lemma_written_bit(prev, buf@, start, w_bits as nat, chunk as u32, k);
                lemma_chunk_bit(value, (n_bits - w_bits) as u32, (start + w_bits - 1 - k) as u32);
            }
        }
        if w_bits + pos > 7 {
            idx += 1;
        }
        pos = (w_bits + pos) % 8;
        remaining = remaining - w_bits;
    }
    while remaining > 0
        invariant
            pos < 8,
            n == n_bits,
            n_bits <= 32,
            remaining <= n_bits,
            remaining % 8 == 0,
            8 * idx + pos == start + n - remaining,
            start + n <= 8 * before.len(),
            0 <= start,
            buf@.len() == before.len(),
            before.len() <= usize::MAX,
            forall|k: int|
                start <= k < start + n - remaining ==> #[trigger] bit_at(buf@, k) == value_bit(
                    value,
                    start + n - 1 - k,
                ),
            forall|k: int|
                0 <= k < 8 * before.len() && !(start <= k < start + n) ==> #[trigger] bit_at(buf@, k)
                    == bit_at(before, k),
        decreases remaining,
    {
        let ghost prev = buf@;
        let ghost cursor = 8 * idx + pos;
        let chunk: u8 = ((value >> (remaining - 8)) & 0xFF) as u8;
        write_u8_bits(buf, idx, pos, chunk, 8);
        proof {
            assert forall|k: int| start <= k < cursor + 8 implies #[trigger] bit_at(buf@, k)
                == value_bit(value, start + n - 1 - k) by {
                if k >= cursor {
                    lemma_written_bit(prev, buf@, cursor, 8, chunk as u32, k);
                    lemma_chunk_bit(value, (remaining - 8) as u32, (cursor + 7 - k) as u32);
                } else {
                    assert(bit_at(buf@, k) == bit_at(prev, k));
                }
            }
            assert forall|k: int| 0 <= k < 8 * before.len() && !(start <= k < start + n) implies #[trigger] bit_at(
                buf@,
                k,
            ) == bit_at(before, k) by {
                assert(bit_at(buf@, k) == bit_at(prev, k));
            }
        }
        idx += 1;
        remaining = remaining - 8;
    }
    proof {
        let low = low_bits(value, n);
        assert forall|j: int| 0 <= j < n implies #[trigger] value_bit(low, j) == bit_at(
            buf@,
            start + n - 1 - j,
        ) by {
            let k = start + n - 1 - j;
            assert(bit_at(buf@, k) == value_bit(value, start + n - 1 - k));
            if n < 32 {
                lemma_low_bits(value, n_bits as u32, j as u32);
            }
        }
        if n < 32 {
            lemma_low_bits(value, n_bits as u32, 0);
        }
        lemma_spelled(buf@, start, n, low);
    }
}

/// Reads the `n_bits` bits that begin `pos` bits into byte `idx`, most significant bit first.
pub fn read_bits(buf: &[u8], idx: usize, pos: u8, n_bits: u8) -> (value: u32)
    requires
        pos < 8,
        n_bits <= 32,
        8 * idx + pos + n_bits <= 8 * buf.len(),
    ensures
        value == bits_value(buf@, 8 * idx + pos, n_bits as nat),
{
    let ghost start = 8 * idx + pos;
    let ghost n = n_bits as nat;
    let mut value: u32 = 0;
    let mut idx: usize = idx;
    let mut pos: u8 = pos;
    let mut remaining: u8 = n_bits;
    assert(0u32 >> 0 == 0) by (bit_vector);
    let r_bits: u8 = n_bits % 8;
    if r_bits > 0 {
        let chunk: u8 = read_u8_bits(buf, idx, pos, r_bits);
        proof {
            lemma_spelled_bits(buf@, start, r_bits as nat);
            assert forall|j: int| 0 <= j < r_bits implies #[trigger] value_bit(chunk as u32, j)
                == bit_at(buf@, start + r_bits - 1 - j) by {
                assert(value_bit(bits_value(buf@, start, r_bits as nat) as u32, j) == bit_at(
                    buf@,
                    start + r_bits - 1 - j,
                ));
            }
        }
        value = chunk as u32;
        if r_bits + pos > 7 {
            idx += 1;
        }
        pos = (r_bits + pos) % 8;
        remaining = remaining - r_bits;
    }
    while remaining > 0
        invariant
            pos < 8,
            n == n_bits,
            n_bits <= 32,
            remaining <= n_bits,
            remaining % 8 == 0,
            8 * idx + pos == start + n - remaining,
            start + n <= 8 * buf.len(),
            0 <= start,
            n - remaining < 32 ==> value >> ((n - remaining) as u32) == 0,
            forall|j: int|
                0 <= j < n - remaining ==> #[trigger] value_bit(value, j) == bit_at(
                    buf@,
                    start + (n - remaining) - 1 - j,
                ),
        decreases remaining,
    {
        let ghost done = n - remaining;
        let ghost cursor = 8 * idx + pos;
        let ghost prior = value;
        let chunk: u8 = read_u8_bits(buf, idx, pos, 8);
        value = (value << 8) | (chunk as u32);
        proof {
            lemma_spelled_bits(buf@, cursor, 8);
            assert((chunk as u32) >> 8 == 0) by (bit_vector);
            lemma_append_bit(prior, chunk, 8, done as u32, 0);
            assert forall|j: int| 0 <= j < done + 8 implies #[trigger] value_bit(value, j)
                == bit_at(buf@, start + (done + 8) - 1 - j) by {
                lemma_append_bit(prior, chunk, 8, done as u32, j as u32);
                if j < 8 {
                    assert(value_bit(bits_value(buf@, cursor, 8) as u32, j) == bit_at(
                        buf@,
                        cursor + 8 - 1 - j,
                    ));
                } else {
                    assert(value_bit(prior, j - 8) == bit_at(buf@, start + done - 1 - (j - 8)));
                }
            }
        }
        idx += 1;
        remaining = remaining - 8;
    }
    proof {
        lemma_spelled(buf@, start, n, value);
    }
    value
}

} // verus!
