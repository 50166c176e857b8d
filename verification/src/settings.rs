use vstd::prelude::*;

verus! {

/// The smallest base-2 logarithm of the number of registers.
pub const MINIMUM_LOG_2M_PARAM: u32 = 4;

/// The largest base-2 logarithm of the number of registers.
pub const MAXIMUM_LOG_2M_PARAM: u32 = 31;

/// The smallest width of a register, in bits.
pub const MINIMUM_REG_WIDTH_PARAM: u32 = 1;

/// The largest width of a register, in bits.
pub const MAXIMUM_REG_WIDTH_PARAM: u32 = 8;

/// The largest explicit threshold that is ever calculated.
pub const MAXIMUM_EXPLICIT_THRESHOLD: u32 = 131072;

/// The explicit threshold that asks for a calculated one.
pub const AUTO_EXPLICIT_THRESHOLD: i32 = -1;

/// How an estimator is laid out and when it moves from one storage to the next.
#[derive(Copy, Clone, Debug, PartialEq, Eq)]
pub struct Settings {
    /// The number of registers is `2^log_2m`.
    pub log_2m: u32,
    /// The number of bits of a register.
    pub reg_width: u32,
    /// The number of explicit values above which registers take over: 0 for no explicit
    /// storage, -1 for a calculated threshold.
    pub explicit_threshold: i32,
    /// The number of sparse registers above which the dense form takes over, where the
    /// sparse form is in use.
    pub sparse_threshold: Option<i32>,
    /// Or-ed into a value before its lowest set bit is sought, so that no register overflows.
    pub pw_max_mask: u64,
    /// The low `log_2m` bits.
    pub m_bits_mask: u64,
}

/// What settings can be refused for. `Threshold` is kept for a check of the explicit
/// threshold's range, which is not made.
#[derive(Clone, Copy, Debug, PartialEq, Eq)]
pub enum SettingsError {
    Log2m,
    RegWidth,
    Threshold,
    MisMatch,
}

/// The number of registers, `2^log_2m`.
pub open spec fn register_count(log_2m: u32) -> nat {
    (1u64 << log_2m) as nat
}

/// The largest value that a register of `reg_width` bits holds.
pub open spec fn register_max(reg_width: u32) -> nat {
    ((1u64 << reg_width) - 1) as nat
}

/// The largest power of two that is at most `q`, for `q >= 1`.
pub open spec fn pow2_floor(q: nat) -> nat
    decreases q,
{
    if q <= 1 {
        1
    } else {
        2 * pow2_floor(q / 2)
    }
}

/// The mask that keeps the position of the lowest set bit within a register's range.
pub open spec fn spec_pw_max_mask(reg_width: u32) -> u64 {
    !(((1u64 << ((((1u64 << reg_width) - 2) % 64) as u64)) - 1) as u64)
}

/// The mask of the low `log_2m` bits.
pub open spec fn spec_m_bits_mask(log_2m: u32) -> u64 {
    ((1u64 << log_2m) - 1) as u64
}

/// The calculated sparse threshold: the largest power of two that is at most the number of
/// short words that fit into the dense form.
pub open spec fn spec_sparse_threshold(log_2m: u32, reg_width: u32) -> nat {
    pow2_floor((register_count(log_2m) * reg_width / ((log_2m + reg_width) as int)) as nat)
}

/// The calculated explicit threshold: the number of 8-byte values that fit into the dense
/// form, but no more than `MAXIMUM_EXPLICIT_THRESHOLD`.
pub open spec fn spec_auto_explicit_threshold(log_2m: u32, reg_width: u32) -> nat {
    let num_longs = ((register_count(log_2m) * reg_width + 7) / 8) / 8;
    if num_longs > MAXIMUM_EXPLICIT_THRESHOLD {
        MAXIMUM_EXPLICIT_THRESHOLD as nat
    } else {
        num_longs as nat
    }
}

/// The code of an explicit threshold in the cutoff byte.
pub open spec fn spec_threshold_code(explicit_threshold: i32) -> int {
    if explicit_threshold == AUTO_EXPLICIT_THRESHOLD {
        63
    } else if explicit_threshold == 0 {
        0
    } else {
        32 - vstd::std_specs::bits::u32_leading_zeros(explicit_threshold as u32)
    }
}

/// The number of registers of a valid layout: a multiple of 16 that fits 32 bits.
pub proof fn lemma_register_count(log_2m: u32)
    requires
        log_2m <= 31,
    ensures
        1 <= register_count(log_2m) <= 0x8000_0000,
        register_count(log_2m) == (1u64 << log_2m),
        log_2m >= 4 ==> register_count(log_2m) % 16 == 0 && register_count(log_2m) >= 16,
        spec_m_bits_mask(log_2m) == register_count(log_2m) - 1,
        log_2m < register_count(log_2m),
        register_count(log_2m) == (1u32 << log_2m),
{
    assert(1 <= (1u64 << log_2m) <= 0x8000_0000 && (log_2m >= 4 ==> (1u64 << log_2m) % 16 == 0 && (1u64
        << log_2m) >= 16) && ((1u64 << log_2m) - 1) as u64 == (1u64 << log_2m) - 1 && (log_2m as u64) < (
    1u64 << log_2m) && (1u32 << log_2m) as u64 == (1u64 << log_2m)) by (bit_vector)
        requires
            log_2m <= 31,
    ;
}

/// The largest register value of a valid width: at least 1 and at most 255.
pub proof fn lemma_register_max(reg_width: u32)
    requires
        1 <= reg_width <= 8,
    ensures
        1 <= register_max(reg_width) <= 255,
        register_max(reg_width) == (1u64 << reg_width) - 1,
        register_max(reg_width) == (1u32 << reg_width) - 1,
        ((1u64 << reg_width) - 2) % 64 <= 62,
{
    assert(2 <= (1u64 << reg_width) <= 256 && ((1u64 << reg_width) - 2) % 64 <= 62 && (1u32 << reg_width) as u64
        == (1u64 << reg_width)) by (bit_vector)
        requires
            1 <= reg_width <= 8,
    ;
}

/// The explicit threshold that a cutoff byte encodes.
pub open spec fn spec_unpack_threshold(b: u8) -> i32 {
    let code = b & 0x3F;
    if code == 0 {
        0
    } else if code == 63 {
        AUTO_EXPLICIT_THRESHOLD
    } else {
        (1u32 << ((code - 1) as u32)) as i32
    }
}

/// The cutoff bytes whose threshold fits the threshold's type.
pub open spec fn cutoff_byte_in_range(b: u8) -> bool {
    (b & 0x3F) <= 32 || (b & 0x3F) == 63
}

/// The calculated sparse threshold is at least 1 and fits 31 bits.
pub proof fn lemma_sparse_threshold(log_2m: u32, reg_width: u32)
    requires
        MINIMUM_LOG_2M_PARAM <= log_2m <= MAXIMUM_LOG_2M_PARAM,
        MINIMUM_REG_WIDTH_PARAM <= reg_width <= MAXIMUM_REG_WIDTH_PARAM,
    ensures
        1 <= spec_sparse_threshold(log_2m, reg_width) <= 0x7FFF_FFFF,
{
    lemma_register_count(log_2m);
    let m = register_count(log_2m) as int;
    let w = (log_2m + reg_width) as int;
    let cutoff = m * reg_width / w;
    assert(1 <= cutoff <= 0x7FFF_FFFF) by (nonlinear_arith)
        requires
            cutoff == (m * reg_width) / w,
            w == log_2m + reg_width,
            16 <= m <= 0x8000_0000,
            4 <= log_2m <= 31,
            1 <= reg_width <= 8,
            log_2m < m,
    ;
    lemma_pow2_floor(cutoff as nat);
}

/// A single bit is not 0.
pub proof fn lemma_one_bit(shift: u64)
    by (bit_vector)
    requires
        shift <= 63,
    ensures
        (1u64 << shift) >= 1,
{
}

/// The largest power of two that is at most `q` is at least 1 and at most `q`.
pub proof fn lemma_pow2_floor(q: nat)
    requires
        q >= 1,
    ensures
        1 <= pow2_floor(q) <= q,
    decreases q,
{
    if q > 1 {
        lemma_pow2_floor(q / 2);
    }
}

impl Settings {
    /// The derived fields are what the two parameters determine.
    pub open spec fn wf(&self) -> bool {
        &&& MINIMUM_LOG_2M_PARAM <= self.log_2m <= MAXIMUM_LOG_2M_PARAM
        &&& MINIMUM_REG_WIDTH_PARAM <= self.reg_width <= MAXIMUM_REG_WIDTH_PARAM
        &&& self.pw_max_mask == spec_pw_max_mask(self.reg_width)
        &&& self.m_bits_mask == spec_m_bits_mask(self.log_2m)
        &&& (self.sparse_threshold matches Some(t) ==> t == spec_sparse_threshold(
            self.log_2m,
            self.reg_width,
        ))
    }

    /// The settings that the four parameters give.
    pub open spec fn spec_new(log_2m: u32, reg_width: u32, explicit_threshold: i32, sparse_enabled: bool) -> Settings {
        Settings {
            log_2m,
            reg_width,
            explicit_threshold,
            sparse_threshold: if sparse_enabled {
                Some(spec_sparse_threshold(log_2m, reg_width) as i32)
            } else {
                None
            },
            pw_max_mask: spec_pw_max_mask(reg_width),
            m_bits_mask: spec_m_bits_mask(log_2m),
        }
    }

    /// The number of registers.
    pub open spec fn m(&self) -> nat {
        register_count(self.log_2m)
    }

    /// Two settings lay the registers out alike.
    pub open spec fn same_geometry(&self, other: &Settings) -> bool {
        self.log_2m == other.log_2m && self.reg_width == other.reg_width
    }

    /// The explicit threshold in force: the calculated one where -1 asks for it.
    pub open spec fn spec_explicit_threshold(&self) -> u32 {
        if self.explicit_threshold == AUTO_EXPLICIT_THRESHOLD {
            spec_auto_explicit_threshold(self.log_2m, self.reg_width) as u32
        } else {
            self.explicit_threshold as u32
        }
    }

    /// The cutoff byte: the threshold's code in the low six bits, the sparse flag in bit 6.
    pub open spec fn spec_cutoff_byte(&self) -> u8 {
        let code = spec_threshold_code(self.explicit_threshold) as u8;
        if self.sparse_threshold is Some {
            code | 0x40
        } else {
            code
        }
    }

    /// The settings of the four parameters, where the first two are in range.
    pub fn new(log_2m: u32, reg_width: u32, explicit_threshold: i32, sparse_enabled: bool) -> (r: Result<
        Settings,
        SettingsError,
    >)
        ensures
            !(MINIMUM_LOG_2M_PARAM <= log_2m <= MAXIMUM_LOG_2M_PARAM) ==> r == Err::<Settings, SettingsError>(
                SettingsError::Log2m,
            ),
            (MINIMUM_LOG_2M_PARAM <= log_2m <= MAXIMUM_LOG_2M_PARAM) && !(MINIMUM_REG_WIDTH_PARAM
                <= reg_width <= MAXIMUM_REG_WIDTH_PARAM) ==> r == Err::<Settings, SettingsError>(
                SettingsError::RegWidth,
            ),
            (MINIMUM_LOG_2M_PARAM <= log_2m <= MAXIMUM_LOG_2M_PARAM) && (MINIMUM_REG_WIDTH_PARAM
                <= reg_width <= MAXIMUM_REG_WIDTH_PARAM) ==> r == Ok::<Settings, SettingsError>(
                Settings::spec_new(log_2m, reg_width, explicit_threshold, sparse_enabled),
            ) && r->Ok_0.wf(),
    {
        if !(MINIMUM_LOG_2M_PARAM <= log_2m && log_2m <= MAXIMUM_LOG_2M_PARAM) {
            return Err(SettingsError::Log2m);
        }
        if !(MINIMUM_REG_WIDTH_PARAM <= reg_width && reg_width <= MAXIMUM_REG_WIDTH_PARAM) {
            return Err(SettingsError::RegWidth);
        }
        let sparse_threshold = if sparse_enabled {
            Some(Self::calculate_sparse_threshold(log_2m, reg_width))
        } else {
            None
        };
        proof {
            lemma_register_count(log_2m);
        }
        Ok(
            Settings {
                log_2m,
                reg_width,
                explicit_threshold,
                sparse_threshold,
                pw_max_mask: Settings::pw_max_mask(reg_width),
                m_bits_mask: (1u64 << log_2m) - 1,
            },
        )
    }

    /// The derived fields are what the two parameters determine.
    pub fn is_consistent(&self) -> (ok: bool)
        ensures
            ok == self.wf(),
    {
        if !(MINIMUM_LOG_2M_PARAM <= self.log_2m && self.log_2m <= MAXIMUM_LOG_2M_PARAM) {
            return false;
        }
        if !(MINIMUM_REG_WIDTH_PARAM <= self.reg_width && self.reg_width <= MAXIMUM_REG_WIDTH_PARAM) {
            return false;
        }
        proof {
            lemma_register_count(self.log_2m);
        }
        if self.pw_max_mask != Settings::pw_max_mask(self.reg_width) {
            return false;
        }
        if self.m_bits_mask != (1u64 << self.log_2m) - 1 {
            return false;
        }
        match self.sparse_threshold {
            Some(threshold) => threshold == Self::calculate_sparse_threshold(self.log_2m, self.reg_width),
            None => true,
        }
    }

    /// The two parameters of the layout are in range.
    pub fn validate(&self) -> (r: Result<(), SettingsError>)
        ensures
            !(MINIMUM_LOG_2M_PARAM <= self.log_2m <= MAXIMUM_LOG_2M_PARAM) ==> r == Err::<(), SettingsError>(
                SettingsError::Log2m,
            ),
            (MINIMUM_LOG_2M_PARAM <= self.log_2m <= MAXIMUM_LOG_2M_PARAM) && !(MINIMUM_REG_WIDTH_PARAM
                <= self.reg_width <= MAXIMUM_REG_WIDTH_PARAM) ==> r == Err::<(), SettingsError>(
                SettingsError::RegWidth,
            ),
            (MINIMUM_LOG_2M_PARAM <= self.log_2m <= MAXIMUM_LOG_2M_PARAM) && (MINIMUM_REG_WIDTH_PARAM
                <= self.reg_width <= MAXIMUM_REG_WIDTH_PARAM) ==> r is Ok,
    {
        if !(MINIMUM_LOG_2M_PARAM <= self.log_2m && self.log_2m <= MAXIMUM_LOG_2M_PARAM) {
            return Err(SettingsError::Log2m);
        }
        if !(MINIMUM_REG_WIDTH_PARAM <= self.reg_width && self.reg_width <= MAXIMUM_REG_WIDTH_PARAM) {
            return Err(SettingsError::RegWidth);
        }
        Ok(())
    }

    /// Whether two settings lay the registers out alike.
    pub fn settings_check(&self, other: &Self) -> (r: Result<(), SettingsError>)
        ensures
            self.same_geometry(other) ==> r is Ok,
            !self.same_geometry(other) ==> r == Err::<(), SettingsError>(SettingsError::MisMatch),
    {
        if self.log_2m == other.log_2m && self.reg_width == other.reg_width {
            return Ok(());
        }
        Err(SettingsError::MisMatch)
    }

    /// The explicit threshold in force: the calculated one where -1 asks for it.
    pub fn explicit_threshold(&self) -> (t: u32)
        requires
            self.wf(),
        ensures
            t == self.spec_explicit_threshold(),
    {
        if self.explicit_threshold == AUTO_EXPLICIT_THRESHOLD {
            Self::calculate_explicit_threshold(self.log_2m, self.reg_width)
        } else {
            self.explicit_threshold as u32
        }
    }

    /// The number of 8-byte values that take as much room as the dense form.
    pub fn calculate_explicit_threshold(log_2m: u32, reg_width: u32) -> (t: u32)
        requires
            log_2m <= MAXIMUM_LOG_2M_PARAM,
        ensures
            t == spec_auto_explicit_threshold(log_2m, reg_width),
    {
        proof {
            lemma_register_count(log_2m);
        }
        let m: u64 = 1u64 << log_2m;
        assert(m * reg_width <= 0x8000_0000 * 0xFFFF_FFFF) by (nonlinear_arith)
            requires
                m <= 0x8000_0000,
                reg_width <= 0xFFFF_FFFF,
        ;
        let bits: u64 = m * (reg_width as u64);
        let full_representation_size: u64 = (bits + 7) / 8;
        let num_longs: u64 = full_representation_size / 8;
        if num_longs > MAXIMUM_EXPLICIT_THRESHOLD as u64 {
            return MAXIMUM_EXPLICIT_THRESHOLD;
        }
        num_longs as u32
    }

    /// The number of sparse registers that take as much room as the dense form, rounded
    /// down to a power of two.
    pub fn calculate_sparse_threshold(log_2m: u32, reg_width: u32) -> (t: i32)
        requires
            MINIMUM_LOG_2M_PARAM <= log_2m <= MAXIMUM_LOG_2M_PARAM,
            MINIMUM_REG_WIDTH_PARAM <= reg_width <= MAXIMUM_REG_WIDTH_PARAM,
        ensures
            t == spec_sparse_threshold(log_2m, reg_width),
            t >= 1,
    {
        proof {
            lemma_register_count(log_2m);
        }
        let m: u64 = 1u64 << log_2m;
        let short_word_length: u64 = (log_2m + reg_width) as u64;
        assert(m * reg_width <= 0x8000_0000 * 8) by (nonlinear_arith)
            requires
                m <= 0x8000_0000,
                reg_width <= 8,
        ;
        let reg_bits: u64 = m * (reg_width as u64);
        let cutoff: u64 = reg_bits / short_word_length;
        assert(1 <= cutoff <= 0x7FFF_FFFF) by (nonlinear_arith)
            requires
                cutoff == (m * reg_width) / (short_word_length as int),
                short_word_length == log_2m + reg_width,
                16 <= m <= 0x8000_0000,
                4 <= log_2m <= 31,
                1 <= reg_width <= 8,
                log_2m < m,
        ;
        proof {
            lemma_pow2_floor(cutoff as nat);
        }
        let mut rest: u64 = cutoff;
        let mut t: u64 = 1;
        while rest > 1
            invariant
                1 <= rest <= cutoff <= 0x7FFF_FFFF,
                1 <= t,
                t * pow2_floor(rest as nat) == pow2_floor(cutoff as nat),
                pow2_floor(cutoff as nat) <= cutoff,
            decreases rest,
        {
            proof {
                lemma_pow2_floor((rest / 2) as nat);
                assert(t * (2 * pow2_floor((rest / 2) as nat)) == (2 * t) * pow2_floor((rest / 2) as nat))
                    by (nonlinear_arith);
                assert(2 * t <= (2 * t) * pow2_floor((rest / 2) as nat)) by (nonlinear_arith)
                    requires
                        1 <= pow2_floor((rest / 2) as nat),
                        1 <= t,
                ;
            }
            rest = rest / 2;
            t = t * 2;
        }
        assert(t == pow2_floor(cutoff as nat)) by (nonlinear_arith)
            requires
                t * pow2_floor(rest as nat) == pow2_floor(cutoff as nat),
                pow2_floor(rest as nat) == 1,
        ;
        t as i32
    }

    /// The register that a value is counted in: its low `log_2m` bits.
    pub open spec fn spec_register_index(&self, value: u64) -> u32 {
        (value & self.m_bits_mask) as u32
    }

    /// The bits of a value above its register's index.
    pub open spec fn spec_substream(&self, value: u64) -> u64 {
        value >> self.log_2m
    }

    /// The position of the lowest set bit of a value's substream, counted from 1 and kept
    /// within a register's range by the mask.
    pub open spec fn spec_register_value(&self, value: u64) -> u8 {
        (1 + vstd::std_specs::bits::u64_trailing_zeros(self.spec_substream(value) | self.pw_max_mask)) as u8
    }

    /// The register and the value that `value` is counted with, unless its substream is 0.
    pub fn register_of(&self, value: u64) -> (hit: Option<(u32, u8)>)
        requires
            self.wf(),
        ensures
            self.spec_substream(value) == 0 ==> hit is None,
            self.spec_substream(value) != 0 ==> hit == Some(
                (self.spec_register_index(value), self.spec_register_value(value)),
            ),
            hit matches Some(h) ==> h.0 < self.m() && 1 <= h.1 <= register_max(self.reg_width),
    {
        let substream_value: u64 = value >> self.log_2m;
        if substream_value == 0 {
            return None;
        }
        let masked: u64 = substream_value | self.pw_max_mask;
        let zeros: u32 = masked.trailing_zeros();
        let i: u64 = value & self.m_bits_mask;
        proof {
            self.lemma_register_of(value);
        }
        let p_w: u8 = (1 + zeros) as u8;
        Some((i as u32, p_w))
    }

    /// A value's register lies among the registers, and its register value within a
    /// register's range.
    pub proof fn lemma_register_of(&self, value: u64)
        requires
            self.wf(),
        ensures
            (value & self.m_bits_mask) < self.m(),
            1 <= 1 + vstd::std_specs::bits::u64_trailing_zeros(self.spec_substream(value) | self.pw_max_mask)
                <= register_max(self.reg_width),
            self.spec_register_index(value) == value & self.m_bits_mask,
            self.spec_register_value(value) == 1 + vstd::std_specs::bits::u64_trailing_zeros(
                self.spec_substream(value) | self.pw_max_mask,
            ),
    {
        let l = self.log_2m;
        let w = self.reg_width;
        let masked = self.spec_substream(value) | self.pw_max_mask;
        let z = vstd::std_specs::bits::u64_trailing_zeros(masked);
        let mask = self.pw_max_mask;
        let sub = self.spec_substream(value);
        let bits = self.m_bits_mask;
        assert((value & bits) < (1u64 << l)) by (bit_vector)
            requires
                bits == ((1u64 << l) - 1) as u64,
                4 <= l <= 31,
        ;
        assert((1u64 << l) <= 0x8000_0000) by (bit_vector)
            requires
                4 <= l <= 31,
        ;
        let shift: u64 = (((1u64 << w) - 2) % 64) as u64;
        assert(shift <= 62 && shift + 1 <= (1u64 << w) - 1 && (1u64 << w) <= 256) by (bit_vector)
            requires
                1 <= w <= 8,
                shift == (((1u64 << w) - 2) % 64) as u64,
        ;
        assert(((sub | mask) >> shift) & 1 == 1) by (bit_vector)
            requires
                shift <= 62,
                mask == !(((1u64 << shift) - 1) as u64),
        ;
        if z > shift {
            assert((masked >> shift) & 1u64 == 0u64);
        }
    }

    /// The cutoff byte: the threshold's code in the low six bits, the sparse flag in bit 6.
    pub fn pack_cutoff_byte(&self) -> (b: u8)
        ensures
            b == self.spec_cutoff_byte(),
    {
        let code: u8 = if self.explicit_threshold == AUTO_EXPLICIT_THRESHOLD {
            63
        } else if self.explicit_threshold == 0 {
            0
        } else {
            (32 - (self.explicit_threshold as u32).leading_zeros()) as u8
        };
        if self.sparse_threshold.is_some() {
            code | 0x40
        } else {
            code
        }
    }

    /// The sparse flag and the explicit threshold that a cutoff byte encodes.
    pub fn unpack_cutoff_byte(b: u8) -> (r: (bool, i32))
        requires
            cutoff_byte_in_range(b),
        ensures
            r.0 == (b >> 6 == 1),
            r.1 == spec_unpack_threshold(b),
    {
        let sparse_enabled: bool = b >> 6 == 1;
        let threshold: u8 = b & 0x3F;
        if threshold == 0 {
            return (sparse_enabled, 0);
        }
        if threshold == 63 {
            return (sparse_enabled, -1);
        }
        let one: u32 = 1u32 << (threshold - 1);
        (sparse_enabled, #[verifier::truncate] (one as i32))
    }

    /// The estimate below which the correction for small numbers applies while registers
    /// are at 0: five halves of the number of registers.
    pub fn small_estimator_cutoff(&self) -> (cutoff: u64)
        requires
            self.wf(),
        ensures
            2 * cutoff == 5 * self.m(),
    {
        proof {
            lemma_register_count(self.log_2m);
        }
        let m: u64 = 1u64 << self.log_2m;
        (m / 2) * 5
    }

    /// The base-2 logarithm of the number of values above a thirtieth of which the
    /// correction for large numbers applies: a register's largest value less one, since a
    /// register value counts from 1, and the bits of a register's number.
    pub fn two_to_l_exponent(&self) -> (exponent: u32)
        requires
            self.wf(),
        ensures
            exponent == register_max(self.reg_width) - 1 + self.log_2m,
    {
        proof {
            lemma_register_max(self.reg_width);
        }
        let max_register_value: u32 = (1u32 << self.reg_width) - 1;
        let pw_bits: u32 = max_register_value - 1;
        pw_bits + self.log_2m
    }

    /// The mask that keeps the position of the lowest set bit within a register's range.
    pub fn pw_max_mask(reg_width: u32) -> (mask: u64)
        requires
            MINIMUM_REG_WIDTH_PARAM <= reg_width <= MAXIMUM_REG_WIDTH_PARAM,
        ensures
            mask == spec_pw_max_mask(reg_width),
    {
        proof {
            lemma_register_max(reg_width);
        }
        let shift: u64 = (((1u64 << reg_width) - 1) - 1) % 64;
        proof {
            lemma_one_bit(shift);
        }
        !((1u64 << shift) - 1)
    }
}

} // verus!
