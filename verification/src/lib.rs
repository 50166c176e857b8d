use vstd::prelude::*;

pub mod dense;
pub mod explicit;
pub mod images;
pub mod laws;
pub mod model;
pub mod order;
pub mod registers;
pub mod settings;
pub mod sparse;
pub mod storage;
pub mod utils;

use crate::dense::DenseRegisters;
use crate::explicit::ExplicitStorage;
use crate::images::{
    image_log_2m, image_readable, image_settings, image_type, image_version, spec_layout_byte,
};
use crate::model::{
    added, dense_of, explicit_full, lemma_promoted_none, lemma_promoting_done, lemma_promoting_step,
    promoted, promoting, set_regs, settled, sparse_full, union_defined, united, united_registers,
    zero_regs, Payload,
};
use crate::order::{lists_values, values_in_order};
use crate::registers::{ingested, lemma_set_register_empty, set_register};
use crate::settings::{lemma_register_count, Settings, SettingsError};
use crate::sparse::{sparse_ingested, SparseRegisters};
use crate::storage::Storage;

verus! {

/// What merging or reading can fail with.
#[derive(Clone, Copy, Debug, PartialEq, Eq)]
pub enum HllError {
    Settings(SettingsError),
    Version(u8),
}

impl From<SettingsError> for HllError {
    fn from(e: SettingsError) -> (r: HllError) {
        HllError::Settings(e)
    }
}

impl vstd::std_specs::convert::FromSpecImpl<SettingsError> for HllError {
    open spec fn obeys_from_spec() -> bool {
        true
    }

    open spec fn from_spec(e: SettingsError) -> HllError {
        HllError::Settings(e)
    }
}

/// What is known of the number of distinct values counted.
#[derive(Clone, Debug, PartialEq, Eq)]
pub enum Cardinality {
    /// The number itself.
    Exact(u64),
    /// What the estimate is made of: for each register value the number of registers
    /// that hold it, and the number of registers at 0.
    Estimate { counts: Vec<u32>, number_of_zeros: u32 },
}

/// An estimator of the number of distinct values counted, in one of four storages.
#[derive(Clone, Debug, PartialEq)]
pub enum Hll {
    Empty(Settings),
    Explicit(ExplicitStorage),
    Sparse(SparseRegisters),
    Dense(DenseRegisters),
}

impl Hll {
    /// The storage is consistent with its settings.
    pub open spec fn wf(&self) -> bool {
        match self {
            Hll::Empty(settings) => settings.wf(),
            Hll::Explicit(explicit_storage) => explicit_storage.wf(),
            Hll::Sparse(sparse_registers) => sparse_registers.wf(),
            Hll::Dense(dense_registers) => dense_registers.wf(),
        }
    }

    /// The settings, whatever the storage.
    pub open spec fn spec_settings(&self) -> Settings {
        match self {
            Hll::Empty(settings) => *settings,
            Hll::Explicit(explicit_storage) => explicit_storage.settings,
            Hll::Sparse(sparse_registers) => sparse_registers.settings,
            Hll::Dense(dense_registers) => dense_registers.settings,
        }
    }

    /// What is held, apart from the settings.
    pub open spec fn payload(&self) -> Payload {
        match self {
            Hll::Empty(_) => Payload::Empty,
            Hll::Explicit(explicit_storage) => Payload::Explicit(explicit_storage.buf@),
            Hll::Sparse(sparse_registers) => Payload::Sparse(sparse_registers.buf@),
            Hll::Dense(dense_registers) => Payload::Dense(dense_registers.regs()),
        }
    }

    /// Two estimators hold the same in the same kind of storage, whatever their settings.
    pub open spec fn same_contents(&self, other: &Hll) -> bool {
        match (self, other) {
            (Hll::Empty(_), Hll::Empty(_)) => true,
            (Hll::Explicit(a), Hll::Explicit(b)) => b.buf@ == a.buf@,
            (Hll::Sparse(a), Hll::Sparse(b)) => b.buf@ == a.buf@,
            (Hll::Dense(a), Hll::Dense(b)) => b.buf@ == a.buf@,
            _ => false,
        }
    }

    /// The number of the kind of storage in an image: 1 for empty, 2 for explicit, 3 for
    /// sparse, 4 for dense.
    pub open spec fn spec_type_id(&self) -> u8 {
        match self {
            Hll::Empty(_) => 1,
            Hll::Explicit(_) => 2,
            Hll::Sparse(_) => 3,
            Hll::Dense(_) => 4,
        }
    }

    /// The values of all registers, whatever the storage: those of an explicit storage are
    /// what its values give when they are counted.
    pub open spec fn regs(&self) -> Seq<u8> {
        match self {
            Hll::Empty(settings) => zero_regs(*settings),
            Hll::Explicit(explicit_storage) => set_regs(explicit_storage.buf@, explicit_storage.settings),
            Hll::Sparse(sparse_registers) => sparse_registers.regs(),
            Hll::Dense(dense_registers) => dense_registers.regs(),
        }
    }

    /// The storage is consistent with its settings.
    pub fn is_consistent(&self) -> (ok: bool)
        ensures
            ok == self.wf(),
    {
        match self {
            Hll::Empty(settings) => settings.is_consistent(),
            Hll::Explicit(explicit_storage) => explicit_storage.settings.is_consistent(),
            Hll::Sparse(sparse_registers) => sparse_registers.is_consistent(),
            Hll::Dense(dense_registers) => dense_registers.is_consistent(),
        }
    }

    /// Merging `other` in stays within the registers of this estimator.
    pub fn can_union(&self, other: &Self) -> (ok: bool)
        requires
            self.wf(),
            other.wf(),
        ensures
            ok == union_defined(self.spec_settings(), self.payload(), other.payload()),
    {
        let settings: &Settings = self.settings();
        let empty: bool = self.type_id() == 1;
        match other {
            Hll::Sparse(sparse_registers) => {
                let adopts: bool = empty && match settings.sparse_threshold {
                    Some(threshold) => !(threshold < 0 || (threshold as usize) < sparse_registers.len()),
                    None => false,
                };
                adopts || sparse_registers.keys_below(settings)
            },
            Hll::Dense(dense_registers) => {
                proof {
                    lemma_register_count(settings.log_2m);
                    lemma_register_count(dense_registers.settings.log_2m);
                }
                empty || (1u64 << dense_registers.settings.log_2m) <= (1u64 << settings.log_2m)
            },
            _ => true,
        }
    }

    /// The image can be written.
    pub fn is_writable(&self) -> (ok: bool)
        requires
            self.wf(),
        ensures
            ok == self.writable(),
    {
        match self {
            Hll::Empty(_) => true,
            Hll::Explicit(explicit_storage) => {
                let len: u64 = explicit_storage.len();
                len <= (usize::MAX as u64 - 3) / 8
            },
            Hll::Sparse(sparse_registers) => {
                let w: u64 = (sparse_registers.settings.log_2m + sparse_registers.settings.reg_width) as u64;
                let len: usize = sparse_registers.len();
                if w > 32 || len > u32::MAX as usize {
                    proof {
                        assert(len > u32::MAX ==> w * len > u32::MAX) by (nonlinear_arith)
                            requires
                                w >= 1,
                        ;
                    }
                    return false;
                }
                assert(w * len <= 32 * 0xFFFF_FFFF) by (nonlinear_arith)
                    requires
                        w <= 32,
                        len <= 0xFFFF_FFFF,
                ;
                let bits: u64 = w * (len as u64);
                bits <= u32::MAX as u64 && (bits + 7) / 8 <= (usize::MAX as u64) - 3
            },
            Hll::Dense(dense_registers) => {
                proof {
                    lemma_register_count(dense_registers.settings.log_2m);
                    dense_registers.lemma_layout(0);
                }
                true
            },
        }
    }

    /// The image can be read.
    pub fn is_readable(buf: &[u8]) -> (ok: bool)
        ensures
            ok == image_readable(buf@),
    {
        if buf.len() < 1 {
            return false;
        }
        if buf[0] >> 4 != 1 {
            return true;
        }
        if buf.len() < 3 {
            return false;
        }
        let code: u8 = buf[2] & 0x3F;
        if !(code <= 32 || code == 63) {
            return false;
        }
        proof {
            let b = buf[1];
            assert((b >> 5) + 1 <= 8 && (b >> 5) + 1 >= 1 && (b & 0x1F) <= 31) by (bit_vector);
        }
        let log_2m: u8 = buf[1] & 0x1F;
        let reg_width: u8 = (buf[1] >> 5) + 1;
        if log_2m < 4 {
            return true;
        }
        let type_id: u8 = buf[0] & 0x0F;
        let payload: usize = buf.len() - 3;
        assert(buf@.skip(3).len() == payload);
        if type_id == 2 {
            payload % 8 == 0
        } else if type_id == 3 {
            (log_2m as u32) + (reg_width as u32) <= 32 && payload <= 0x1FFF_FFFF
        } else if type_id == 4 {
            proof {
                lemma_register_count(log_2m as u32);
            }
            let m: u64 = 1u64 << (log_2m as u32);
            assert(m * reg_width <= 0x8000_0000 * 8 && m * reg_width >= 0) by (nonlinear_arith)
                requires
                    m <= 0x8000_0000,
                    reg_width <= 8,
            ;
            let cap: u64 = (m * (reg_width as u64) + 7) / 8;
            payload as u64 <= cap
        } else {
            true
        }
    }

    /// An estimator that has counted nothing.
    pub fn new(settings: Settings) -> (hll: Self)
        ensures
            hll == Hll::Empty(settings),
    {
        Hll::Empty(settings)
    }

    /// The settings, whatever the storage.
    pub fn settings(&self) -> (settings: &Settings)
        ensures
            *settings == self.spec_settings(),
    {
        match self {
            Hll::Empty(settings) => settings,
            Hll::Explicit(explicit_storage) => &explicit_storage.settings,
            Hll::Sparse(sparse_registers) => &sparse_registers.settings,
            Hll::Dense(dense_registers) => &dense_registers.settings,
        }
    }

    /// The number of the kind of storage in an image.
    pub fn type_id(&self) -> (id: u8)
        ensures
            id == self.spec_type_id(),
    {
        match self {
            Hll::Empty(_) => 1,
            Hll::Explicit(_) => 2,
            Hll::Sparse(_) => 3,
            Hll::Dense(_) => 4,
        }
    }

    /// Whether the other estimator lays its registers out as this one does.
    pub fn settings_check(&self, other: &Self) -> (r: Result<(), SettingsError>)
        ensures
            self.spec_settings().same_geometry(&other.spec_settings()) ==> r is Ok,
            !self.spec_settings().same_geometry(&other.spec_settings()) ==> r == Err::<(), SettingsError>(
                SettingsError::MisMatch,
            ),
    {
        self.settings().settings_check(other.settings())
    }

    /// What is known of the number of values counted: the number itself for an empty
    /// estimator and for an explicit storage, and for registers what the estimate is made
    /// of.
    pub open spec fn spec_cardinality(&self, c: Cardinality) -> bool {
        match self {
            Hll::Empty(_) => c == Cardinality::Exact(0),
            Hll::Explicit(explicit_storage) => c == Cardinality::Exact(explicit_storage.buf@.len() as u64),
            Hll::Sparse(sparse_registers) => match c {
                Cardinality::Estimate { counts, number_of_zeros } => sparse_registers.spec_indicator(
                    counts@,
                    number_of_zeros,
                ),
                _ => false,
            },
            Hll::Dense(dense_registers) => match c {
                Cardinality::Estimate { counts, number_of_zeros } => dense_registers.spec_indicator(
                    counts@,
                    number_of_zeros,
                ),
                _ => false,
            },
        }
    }

    /// What is known of the number of distinct values counted. Where the values are kept,
    /// or none was counted, the number is exact. Where registers are kept, the estimate
    /// is made of the number of registers that hold each register value, and of the
    /// number of registers at 0; in a sparse storage a register without an entry holds 0,
    /// and only such registers count as registers at 0.
    pub fn cardinality(&self) -> (c: Cardinality)
        requires
            self.wf(),
        ensures
            self.spec_cardinality(c),
    {
        match self {
            Hll::Empty(_) => Cardinality::Exact(0),
            Hll::Explicit(explicit_storage) => Cardinality::Exact(explicit_storage.len()),
            Hll::Sparse(sparse_registers) => {
                let (counts, number_of_zeros) = sparse_registers.indicator();
                Cardinality::Estimate { counts, number_of_zeros }
            },
            Hll::Dense(dense_registers) => {
                let (counts, number_of_zeros) = dense_registers.indicator();
                Cardinality::Estimate { counts, number_of_zeros }
            },
        }
    }

    /// The storage holds more than its threshold allows.
    pub fn is_full(&self) -> (full: bool)
        requires
            self.wf(),
        ensures
            full == match self {
                Hll::Empty(_) => false,
                Hll::Explicit(explicit_storage) => explicit_full(explicit_storage.settings, explicit_storage.buf@),
                Hll::Sparse(sparse_registers) => sparse_full(sparse_registers.settings, sparse_registers.buf@),
                Hll::Dense(_) => false,
            },
    {
        match self {
            Hll::Empty(_) => false,
            Hll::Explicit(explicit_storage) => explicit_storage.is_full(),
            Hll::Sparse(sparse_registers) => sparse_registers.is_full(),
            Hll::Dense(_) => false,
        }
    }

    /// A storage that is full moves to the next one.
    pub fn upgrade(&mut self)
        requires
            old(self).wf(),
        ensures
            final(self).wf(),
            final(self).spec_settings() == old(self).spec_settings(),
            final(self).payload() == (match old(self).payload() {
                Payload::Explicit(s) => promoted(old(self).spec_settings(), s),
                Payload::Sparse(map) => Payload::Dense(dense_of(map, old(self).spec_settings())),
                p => p,
            }),
    {
        match self {
            Hll::Empty(_) => {},
            Hll::Explicit(explicit_storage) => {
                let next = explicit_storage.as_registers();
                *self = next;
            },
            Hll::Sparse(sparse_registers) => {
                let dense = sparse_registers.to_dense(None);
                proof {
                    assert(dense.regs() =~= dense_of(sparse_registers.buf@, sparse_registers.settings));
                }
                *self = Hll::Dense(dense);
            },
            Hll::Dense(_) => {},
        }
    }

    /// Counts a raw value into registers.
    fn add_to_registers(&mut self, value: u64)
        requires
            old(self).wf(),
            *old(self) is Sparse || *old(self) is Dense,
        ensures
            final(self).wf(),
            *final(self) is Sparse || *final(self) is Dense,
            final(self).spec_settings() == old(self).spec_settings(),
            final(self).payload() == (match old(self).payload() {
                Payload::Sparse(map) => settled(
                    old(self).spec_settings(),
                    Payload::Sparse(sparse_ingested(map, old(self).spec_settings(), value)),
                ),
                Payload::Dense(regs) => Payload::Dense(ingested(regs, old(self).spec_settings(), value)),
                p => p,
            }),
    {
        match self {
            Hll::Sparse(sparse_registers) => {
                sparse_registers.set(value);
                if sparse_registers.is_full() {
                    let dense = sparse_registers.to_dense(None);
                    proof {
                        assert(dense.regs() =~= dense_of(sparse_registers.buf@, sparse_registers.settings));
                    }
                    *self = Hll::Dense(dense);
                }
            },
            Hll::Dense(dense_registers) => {
                dense_registers.set(value);
            },
            _ => {},
        }
    }

    /// Counts a raw value. The value 0 is not counted.
    pub fn add_raw(&mut self, value: u64)
        requires
            old(self).wf(),
        ensures
            final(self).wf(),
            final(self).spec_settings() == old(self).spec_settings(),
            final(self).payload() == added(old(self).spec_settings(), old(self).payload(), value),
    {
        if value == 0 {
            return ;
        }
        if let Hll::Empty(settings) = self {
            let settings: Settings = *settings;
            if settings.explicit_threshold() > 0 {
                *self = Hll::Explicit(ExplicitStorage::with_settings(&settings));
            } else if settings.sparse_threshold.is_some() {
                *self = Hll::Sparse(SparseRegisters::with_settings(&settings));
            } else {
                let dense = DenseRegisters::with_settings(&settings);
                proof {
                    assert(dense.regs() =~= zero_regs(settings));
                }
                *self = Hll::Dense(dense);
            }
        }
        match self {
            Hll::Explicit(explicit_registers) => {
                explicit_registers.set(value);
                if explicit_registers.is_full() {
                    let next = explicit_registers.as_registers();
                    *self = next;
                }
            },
            Hll::Empty(_) => {},
            _ => {
                self.add_to_registers(value);
            },
        }
    }

    /// Merges another estimator into a storage of registers.
    fn union_registers(&mut self, other: &Self)
        requires
            old(self).wf(),
            other.wf(),
            *old(self) is Sparse || *old(self) is Dense,
            union_defined(old(self).spec_settings(), old(self).payload(), other.payload()),
        ensures
            final(self).wf(),
            *final(self) is Sparse || *final(self) is Dense,
            final(self).spec_settings() == old(self).spec_settings(),
            final(self).payload() == united_registers(old(self).spec_settings(), old(self).payload(), other.payload()),
    {
        match self {
            Hll::Sparse(sparse_registers) => match other {
                Hll::Empty(_settings) => {},
                Hll::Explicit(explicit_storage) => {
                    sparse_registers.union_explicit(explicit_storage);
                },
                Hll::Sparse(rhs_sparse_registers) => {
                    sparse_registers.union_sparse(rhs_sparse_registers);
                },
                Hll::Dense(dense_registers) => {
                    let mut new_storage = sparse_registers.to_dense(None);
                    proof {
                        assert(new_storage.regs() =~= dense_of(sparse_registers.buf@, sparse_registers.settings));
                    }
                    new_storage.union_dense(dense_registers);
                    *self = Hll::Dense(new_storage);
                },
            },
            Hll::Dense(dense_registers) => match other {
                Hll::Empty(_settings) => {},
                Hll::Explicit(explicit_storage) => {
                    dense_registers.union_explicit(explicit_storage);
                },
                Hll::Sparse(sparse_registers) => {
                    dense_registers.union_sparse(sparse_registers);
                },
                Hll::Dense(rhs_dense_registers) => {
                    dense_registers.union_dense(rhs_dense_registers);
                },
            },
            _ => {},
        }
    }

    /// What an empty estimator becomes when another one is merged in.
    fn adopted(settings: Settings, other: &Self) -> (next: Self)
        requires
            settings.wf(),
            other.wf(),
            union_defined(settings, Payload::Empty, other.payload()),
        ensures
            next.wf(),
            (next.spec_settings(), settled(next.spec_settings(), next.payload())) == united(
                settings,
                Payload::Empty,
                other.spec_settings(),
                other.payload(),
            ),
    {
        match other {
            Hll::Sparse(sparse_registers) => {
                let over: bool = match settings.sparse_threshold {
                    Some(sparse_threshold) => sparse_threshold < 0 || (sparse_threshold as usize)
                        < sparse_registers.len(),
                    None => true,
                };
                if over {
                    let dense = sparse_registers.to_dense(Some(&settings));
                    proof {
                        assert(dense.regs() =~= dense_of(sparse_registers.buf@, settings));
                    }
                    Hll::Dense(dense)
                } else {
                    Hll::Sparse(sparse_registers.clone_with_settings(&sparse_registers.settings))
                }
            },
            Hll::Dense(dense_registers) => {
                let copy = dense_registers.clone_with_settings(&dense_registers.settings);
                proof {
                    assert(copy.regs() =~= dense_registers.regs());
                }
                Hll::Dense(copy)
            },
            Hll::Explicit(explicit_storage) => Hll::Explicit(
                explicit_storage.clone_with_settings(&explicit_storage.settings),
            ),
            Hll::Empty(other_settings) => Hll::Empty(*other_settings),
        }
    }

    /// Merges another estimator in. With `strict`, the two must lay their registers out
    /// alike.
    pub fn union(&mut self, strict: bool, other: &Self) -> (r: Result<(), HllError>)
        requires
            old(self).wf(),
            other.wf(),
            !strict ==> union_defined(old(self).spec_settings(), old(self).payload(), other.payload()),
        ensures
            strict && !old(self).spec_settings().same_geometry(&other.spec_settings()) ==> r == Err::<(), HllError>(
                HllError::Settings(SettingsError::MisMatch),
            ) && *final(self) == *old(self),
            !(strict && !old(self).spec_settings().same_geometry(&other.spec_settings())) ==> r is Ok
                && final(self).wf() && (final(self).spec_settings(), final(self).payload()) == united(
                old(self).spec_settings(),
                old(self).payload(),
                other.spec_settings(),
                other.payload(),
            ),
    {
        if strict {
            let checked = self.settings_check(other);
            if checked.is_err() {
                return Err(HllError::Settings(SettingsError::MisMatch));
            }
            proof {
                lemma_same_geometry_fits(self, other);
            }
        }
        let kind: u8 = self.type_id();
        if kind == 1 {
            let settings: Settings = *self.settings();
            let next = Self::adopted(settings, other);
            *self = next;
        } else if kind == 2 {
            let with_registers: bool = match other {
                Hll::Sparse(_) => true,
                Hll::Dense(_) => true,
                _ => false,
            };
            if with_registers {
                let mut new_storage = self.promoted_registers();
                new_storage.union_registers(other);
                *self = new_storage;
            } else {
                self.union_values(other);
            }
        } else {
            self.union_registers(other);
        }
        if self.is_full() {
            self.upgrade();
        }
        Ok(())
    }

    /// The registers that take over from an explicit storage.
    fn promoted_registers(&self) -> (r: Self)
        requires
            self.wf(),
            self is Explicit,
        ensures
            r.wf(),
            r is Sparse || r is Dense,
            r.spec_settings() == self.spec_settings(),
            r.payload() == (match self.payload() {
                Payload::Explicit(s) => promoted(self.spec_settings(), s),
                p => p,
            }),
    {
        match self {
            Hll::Explicit(explicit_storage) => explicit_storage.as_registers(),
            Hll::Empty(settings) => Hll::Empty(*settings),
            Hll::Sparse(sparse_registers) => Hll::Empty(sparse_registers.settings),
            Hll::Dense(dense_registers) => Hll::Empty(dense_registers.settings),
        }
    }

    /// Merges an estimator without registers into an explicit storage.
    fn union_values(&mut self, other: &Self)
        requires
            old(self).wf(),
            *old(self) is Explicit,
            other is Empty || other is Explicit,
        ensures
            final(self).wf(),
            final(self).spec_settings() == old(self).spec_settings(),
            final(self).payload() == (match (old(self).payload(), other.payload()) {
                (Payload::Explicit(s), Payload::Explicit(more)) => Payload::Explicit(s.union(more)),
                (p, _) => p,
            }),
    {
        match self {
            Hll::Explicit(explicit_storage) => match other {
                Hll::Explicit(other_storage) => {
                    explicit_storage.union_explicit(other_storage);
                },
                _ => {},
            },
            _ => {},
        }
    }

    /// A copy of what is held, under other settings. It is consistent where the storage
    /// is empty or explicit, or the other settings lay the registers out as these do.
    pub fn clone_with_settings(&self, settings: &Settings) -> (r: Self)
        ensures
            r.spec_settings() == *settings,
            r.spec_type_id() == self.spec_type_id(),
            self.same_contents(&r),
    {
        match self {
            Hll::Empty(_) => Hll::Empty(*settings),
            Hll::Explicit(explicit_storage) => Hll::Explicit(explicit_storage.clone_with_settings(settings)),
            Hll::Sparse(sparse_registers) => Hll::Sparse(sparse_registers.clone_with_settings(settings)),
            Hll::Dense(dense_registers) => Hll::Dense(dense_registers.clone_with_settings(settings)),
        }
    }

    /// The image can be written: the parts of its size fit the machine's numbers, and a
    /// sparse storage's short words fit 32 bits.
    pub open spec fn writable(&self) -> bool {
        &&& match self {
            Hll::Empty(_) => true,
            Hll::Explicit(explicit_storage) => explicit_storage.writable(),
            Hll::Sparse(sparse_registers) => sparse_registers.writable(),
            Hll::Dense(dense_registers) => dense_registers.writable(),
        }
        &&& 3 + self.image_len() <= usize::MAX
    }

    /// The number of bytes behind the three bytes of the header.
    pub open spec fn image_len(&self) -> nat {
        match self {
            Hll::Empty(_) => 0,
            Hll::Explicit(explicit_storage) => explicit_storage.image_len(),
            Hll::Sparse(sparse_registers) => sparse_registers.image_len(),
            Hll::Dense(dense_registers) => dense_registers.image_len(),
        }
    }

    /// `bytes` is the image of this estimator: version and kind, then the layout of the
    /// registers, then the cutoff byte, then what the storage writes over zero bytes.
    pub open spec fn encodes(&self, bytes: Seq<u8>) -> bool {
        let blank = Seq::new(self.image_len(), |k: int| 0u8);
        &&& bytes.len() == 3 + self.image_len()
        &&& bytes[0] == 0x10u8 | self.spec_type_id()
        &&& bytes[1] == spec_layout_byte(self.spec_settings())
        &&& bytes[2] == self.spec_settings().spec_cutoff_byte()
        &&& match self {
            Hll::Empty(_) => true,
            Hll::Explicit(explicit_storage) => explicit_storage.writes(blank, bytes.skip(3)),
            Hll::Sparse(sparse_registers) => sparse_registers.writes(blank, bytes.skip(3)),
            Hll::Dense(dense_registers) => dense_registers.writes(blank, bytes.skip(3)),
        }
    }

    /// The image: three bytes of header, then the storage's own.
    pub fn to_bytes(&self) -> (res: Vec<u8>)
        requires
            self.wf(),
            self.writable(),
        ensures
            self.encodes(res@),
    {
        let settings: Settings = *self.settings();
        let type_id: u8 = self.type_id();
        let size: usize = match self {
            Hll::Empty(_) => 0,
            Hll::Explicit(explicit_storage) => explicit_storage.bytes_size(),
            Hll::Sparse(sparse_registers) => sparse_registers.bytes_size(),
            Hll::Dense(dense_registers) => dense_registers.bytes_size(),
        };
        let mut payload: Vec<u8> = vec![0u8; size];
        let ghost blank = payload@;
        assert(blank =~= Seq::new(self.image_len(), |k: int| 0u8));
        match self {
            Hll::Empty(_) => {},
            Hll::Explicit(explicit_storage) => {
                explicit_storage.to_bytes(payload.as_mut_slice());
                assert(payload@.len() == size);
            },
            Hll::Sparse(sparse_registers) => {
                sparse_registers.to_bytes(payload.as_mut_slice());
                assert(payload@.len() == size);
            },
            Hll::Dense(dense_registers) => {
                dense_registers.to_bytes(payload.as_mut_slice());
                assert(payload@.len() == size);
            },
        }
        assert(payload@.len() == size);
        let mut res: Vec<u8> = Vec::new();
        res.push((1u8 << 4) | type_id);
        res.push((((settings.reg_width - 1) as u8) << 5) | (settings.log_2m as u8));
        res.push(settings.pack_cutoff_byte());
        res.extend_from_slice(payload.as_slice());
        proof {
            assert(1u8 << 4 == 0x10u8) by (bit_vector);
            assert(res@.skip(3) =~= payload@);
        }
        res
    }

    /// The estimator that an image holds.
    pub fn from_bytes(buf: &[u8]) -> (r: Result<Self, HllError>)
        requires
            image_readable(buf@),
        ensures
            image_version(buf@) != 1 ==> r == Err::<Self, HllError>(HllError::Version(image_version(buf@))),
            image_version(buf@) == 1 && image_log_2m(buf@) < 4 ==> r == Err::<Self, HllError>(
                HllError::Settings(SettingsError::Log2m),
            ),
            image_version(buf@) == 1 && image_log_2m(buf@) >= 4 && !(1 <= image_type(buf@) <= 4) ==> r == Err::<
                Self,
                HllError,
            >(HllError::Version(image_type(buf@))),
            image_version(buf@) == 1 && image_log_2m(buf@) >= 4 && 1 <= image_type(buf@) <= 4 ==> r is Ok
                && r->Ok_0.wf() && r->Ok_0.decodes(buf@),
    {
        let version: u8 = buf[0] >> 4;
        let type_id: u8 = buf[0] & 0x0F;
        if version != 1 {
            return Err(HllError::Version(version));
        }
        proof {
            let b = buf[1];
            assert((b >> 5) + 1 <= 8 && (b & 0x1F) <= 31) by (bit_vector);
        }
        let reg_width: u8 = (buf[1] >> 5) + 1;
        let log_2m: u8 = buf[1] & 0x1F;
        let (sparse_enabled, explicit_threshold) = Settings::unpack_cutoff_byte(buf[2]);
        let settings: Settings = match Settings::new(
            log_2m as u32,
            reg_width as u32,
            explicit_threshold,
            sparse_enabled,
        ) {
            Ok(settings) => settings,
            Err(e) => {
                return Err(HllError::Settings(e));
            },
        };
        let payload: &[u8] = &buf[3..buf.len()];
        assert(payload@ =~= buf@.skip(3));
        if type_id == 1 {
            Ok(Hll::Empty(settings))
        } else if type_id == 2 {
            Ok(Hll::Explicit(ExplicitStorage::from_bytes(&settings, payload)))
        } else if type_id == 3 {
            Ok(Hll::Sparse(SparseRegisters::from_bytes(&settings, payload)))
        } else if type_id == 4 {
            Ok(Hll::Dense(DenseRegisters::from_bytes(&settings, payload)))
        } else {
            Err(HllError::Version(type_id))
        }
    }

    /// This estimator is what an image holds: the settings of its header, the kind of
    /// storage of its first byte, and what the storage reads from the rest.
    pub open spec fn decodes(&self, bytes: Seq<u8>) -> bool {
        &&& self.spec_settings() == image_settings(bytes)
        &&& self.spec_type_id() == image_type(bytes)
        &&& match self {
            Hll::Empty(_) => true,
            Hll::Explicit(explicit_storage) => ExplicitStorage::reads(
                image_settings(bytes),
                bytes.skip(3),
                *explicit_storage,
            ),
            Hll::Sparse(sparse_registers) => SparseRegisters::reads(
                image_settings(bytes),
                bytes.skip(3),
                *sparse_registers,
            ),
            Hll::Dense(dense_registers) => DenseRegisters::reads(image_settings(bytes), bytes.skip(3), *dense_registers),
        }
    }

    /// Forgets what was counted; the settings and the kind of storage stay.
    pub fn clear(&mut self)
        requires
            old(self).wf(),
        ensures
            final(self).wf(),
            final(self).spec_settings() == old(self).spec_settings(),
            final(self).spec_type_id() == old(self).spec_type_id(),
            final(self).payload() == (match old(self).payload() {
                Payload::Empty => Payload::Empty,
                Payload::Explicit(_) => Payload::Explicit(Set::empty()),
                Payload::Sparse(_) => Payload::Sparse(Map::empty()),
                Payload::Dense(_) => Payload::Dense(zero_regs(old(self).spec_settings())),
            }),
            final(self).regs() == zero_regs(old(self).spec_settings()),
    {
        match self {
            Hll::Empty(_) => {},
            Hll::Explicit(explicit_storage) => {
                explicit_storage.clear();
                proof {
                    assert forall|i: int| 0 <= i < explicit_storage.settings.m() implies set_register(
                        explicit_storage.buf@,
                        explicit_storage.settings,
                        i,
                    ) == 0u8 by {
                        lemma_set_register_empty(explicit_storage.settings, i, 255);
                    }
                    assert(set_regs(explicit_storage.buf@, explicit_storage.settings) =~= zero_regs(
                        explicit_storage.settings,
                    ));
                }
            },
            Hll::Sparse(sparse_registers) => {
                sparse_registers.clear();
                proof {
                    assert(sparse_registers.regs() =~= zero_regs(sparse_registers.settings));
                }
            },
            Hll::Dense(dense_registers) => {
                dense_registers.clear();
                proof {
                    assert(dense_registers.regs() =~= zero_regs(dense_registers.settings));
                }
            },
        }
    }
}

impl ExplicitStorage {
    /// The registers that take over from this storage: every value is counted into a
    /// sparse storage where the settings have one, into a dense one otherwise.
    pub fn as_registers(&self) -> (r: Hll)
        requires
            self.wf(),
        ensures
            r.wf(),
            r is Sparse || r is Dense,
            r.spec_settings() == self.settings,
            r.payload() == promoted(self.settings, self.buf@),
    {
        let settings: Settings = self.settings;
        let mut storage = if settings.sparse_threshold.is_some() {
            Hll::Sparse(SparseRegisters::with_settings(&settings))
        } else {
            let dense = DenseRegisters::with_settings(&settings);
            proof {
                assert(dense.regs() =~= zero_regs(settings));
            }
            Hll::Dense(dense)
        };
        let values = values_in_order(&self.buf);
        let n: usize = values.len();
        let mut t: usize = 0;
        let ghost seen: Set<i64> = Set::empty();
        proof {
            lemma_promoted_none(settings);
            lemma_register_count(settings.log_2m);
        }
        while t < n
            invariant
                t <= n,
                n == values@.len(),
                lists_values(values@, self.buf@),
                settings == self.settings,
                settings.wf(),
                storage.wf(),
                storage is Sparse || storage is Dense,
                storage.spec_settings() == settings,
                seen.finite(),
                forall|v: i64| seen.contains(v) <==> exists|u: int| 0 <= u < t && values@[u] == v,
                promoting(settings, seen, storage.payload()),
            decreases n - t,
        {
            let value: i64 = values[t];
            let ghost next = seen.insert(value);
            let ghost prior = storage.payload();
            storage.add_to_registers(#[verifier::truncate] (value as u64));
            proof {
                lemma_promoting_step(settings, seen, prior, value);
                assert forall|v: i64| next.contains(v) <==> exists|u: int| 0 <= u < t + 1 && values@[u] == v by {
                    if v == value {
                        assert(values@[t as int] == v);
                    } else {
                        if exists|u: int| 0 <= u < t + 1 && values@[u] == v {
                            let u = choose|u: int| 0 <= u < t + 1 && values@[u] == v;
                            assert(u < t);
                        }
                    }
                }
                seen = next;
            }
            t += 1;
        }
        proof {
            assert forall|v: i64| seen.contains(v) <==> self.buf@.contains(v) by {
                if self.buf@.contains(v) {
                    assert(values@.contains(v));
                }
                if exists|u: int| 0 <= u < n && values@[u] == v {
                    let u = choose|u: int| 0 <= u < n && values@[u] == v;
                    assert(values@.contains(values@[u]));
                }
            }
            assert(seen =~= self.buf@);
            lemma_promoting_done(settings, seen, storage.payload());
        }
        storage
    }
}

/// Estimators that lay their registers out alike can be merged.
pub proof fn lemma_same_geometry_fits(a: &Hll, b: &Hll)
    requires
        a.wf(),
        b.wf(),
        a.spec_settings().same_geometry(&b.spec_settings()),
    ensures
        union_defined(a.spec_settings(), a.payload(), b.payload()),
{
}

} // verus!
