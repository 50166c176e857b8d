use vstd::prelude::*;
use crate::explicit::ExplicitStorage;
use crate::order::{
    entries_in_order, lists_keys, lists_values, sorted_entries, sorted_keys, values_in_order,
};
use crate::registers::{
    field, fit, ingested, ingested_set, lemma_field_bound, lemma_field_mask, lemma_fit_bound,
    lemma_fit_in_range, lemma_ingest_one_more, lemma_occurrences_bound, lemma_occurrences_push,
    lemma_other_field, lemma_set_register_empty, max_u8, merged, merged_sparse, occurrences, raised,
    set_register, sparse_reg,
};
use crate::settings::{lemma_register_count, lemma_register_max, register_max, Settings};
use crate::sparse::SparseRegisters;
use crate::storage::Storage;
use crate::utils::{bits_value, calc_position, read_u8_bits, write_u8_bits};

verus! {

/// The number of bytes of a packed array of all registers.
pub open spec fn dense_len(settings: Settings) -> nat {
    ((settings.m() * settings.reg_width + 7) / 8) as nat
}

/// All registers, packed one after the other, register 0 in the highest bits of byte 0.
#[derive(Debug, Clone, PartialEq)]
pub struct DenseRegisters {
    pub settings: Settings,
    pub buf: Vec<u8>,
}

impl DenseRegisters {
    /// The settings are consistent and the array holds all their registers.
    pub open spec fn wf(&self) -> bool {
        &&& self.settings.wf()
        &&& self.buf@.len() == dense_len(self.settings)
    }

    /// The value of register `i`.
    pub open spec fn spec_get(&self, i: int) -> u8 {
        field(self.buf@, self.settings.reg_width, i)
    }

    /// The values of all registers.
    pub open spec fn regs(&self) -> Seq<u8> {
        Seq::new(self.settings.m(), |i: int| self.spec_get(i))
    }

    /// The registers fill the buffer, and each lies within it.
    pub proof fn lemma_layout(&self, i: int)
        requires
            self.wf(),
            0 <= i < self.settings.m(),
        ensures
            self.buf@.len() * 8 == self.settings.m() * self.settings.reg_width,
            0 <= i * self.settings.reg_width,
            (i + 1) * self.settings.reg_width <= 8 * self.buf@.len(),
            (i + 1) * self.settings.reg_width == i * self.settings.reg_width + self.settings.reg_width,
            self.buf@.len() <= 0x8000_0000,
            self.settings.m() <= 0x8000_0000,
    {
        lemma_register_count(self.settings.log_2m);
        let m = self.settings.m() as int;
        let w = self.settings.reg_width as int;
        assert((m * w) % 8 == 0 && m * w <= 0x8000_0000 * 8) by (nonlinear_arith)
            requires
                m % 16 == 0,
                1 <= w <= 8,
                0 <= m <= 0x8000_0000,
        ;
        assert(0 <= i * w && (i + 1) * w <= m * w && (i + 1) * w == i * w + w) by (nonlinear_arith)
            requires
                0 <= i < m,
                1 <= w,
        ;
    }

    /// The settings are consistent and the array holds all their registers.
    pub fn is_consistent(&self) -> (ok: bool)
        ensures
            ok == self.wf(),
    {
        if !self.settings.is_consistent() {
            return false;
        }
        proof {
            lemma_register_count(self.settings.log_2m);
        }
        let m: u64 = 1u64 << self.settings.log_2m;
        assert(m * self.settings.reg_width <= 0x8000_0000 * 8 && m * self.settings.reg_width >= 0) by (nonlinear_arith)
            requires
                m <= 0x8000_0000,
                self.settings.reg_width <= 8,
        ;
        let cap: u64 = (m * (self.settings.reg_width as u64) + 7) / 8;
        self.buf.len() as u64 == cap
    }

    /// All registers at 0.
    pub fn with_settings(settings: &Settings) -> (r: Self)
        requires
            settings.wf(),
        ensures
            r.wf(),
            r.settings == *settings,
            r.buf@ == Seq::new(dense_len(*settings), |k: int| 0u8),
            r.regs() == Seq::new(settings.m(), |i: int| 0u8),
    {
        proof {
            lemma_register_count(settings.log_2m);
        }
        let m: u64 = 1u64 << settings.log_2m;
        assert(m * settings.reg_width <= 0x8000_0000 * 8 && m * settings.reg_width >= 0) by (nonlinear_arith)
            requires
                m <= 0x8000_0000,
                settings.reg_width <= 8,
        ;
        let cap: u64 = (m * (settings.reg_width as u64) + 7) / 8;
        let r = Self { settings: *settings, buf: vec![0u8; cap as usize] };
        proof {
            assert(r.buf@ =~= Seq::new(dense_len(*settings), |k: int| 0u8));
            assert forall|i: int| 0 <= i < settings.m() implies r.spec_get(i) == 0u8 by {
                r.lemma_layout(i);
                lemma_zero_field(r.buf@, i * settings.reg_width, settings.reg_width as nat);
            }
            assert(r.regs() =~= Seq::new(settings.m(), |i: int| 0u8));
        }
        r
    }

    /// A copy of the array under other settings. It is consistent where the other
    /// settings lay the registers out as these do.
    pub fn clone_with_settings(&self, settings: &Settings) -> (r: Self)
        ensures
            r.settings == *settings,
            r.buf@ == self.buf@,
    {
        Self { settings: *settings, buf: self.buf.clone() }
    }

    /// The value of register `reg_num`.
    pub fn get(&self, reg_num: u32) -> (value: u8)
        requires
            self.wf(),
            reg_num < self.settings.m(),
        ensures
            value == self.regs()[reg_num as int],
            value <= register_max(self.settings.reg_width),
    {
        proof {
            self.lemma_layout(reg_num as int);
            lemma_field_bound(self.buf@, self.settings.reg_width, reg_num as int);
        }
        let (idx, pos) = calc_position(reg_num, self.settings.reg_width as u8);
        read_u8_bits(self.buf.as_slice(), idx, pos, self.settings.reg_width as u8)
    }

    /// Sets register `reg_num` to the low bits of `value`, whatever stood there.
    pub fn set_reg(&mut self, reg_num: u32, value: u8)
        requires
            old(self).wf(),
            reg_num < old(self).settings.m(),
        ensures
            final(self).wf(),
            final(self).settings == old(self).settings,
            final(self).regs() == old(self).regs().update(
                reg_num as int,
                fit(value, old(self).settings.reg_width),
            ),
    {
        proof {
            self.lemma_layout(reg_num as int);
        }
        let ghost before = self.buf@;
        let ghost width = self.settings.reg_width;
        let (idx, pos) = calc_position(reg_num, self.settings.reg_width as u8);
        write_u8_bits(self.buf.as_mut_slice(), idx, pos, value, self.settings.reg_width as u8);
        proof {
            let after = self.buf@;
            lemma_fit_bound(value, width);
            assert forall|j: int| 0 <= j < self.settings.m() implies #[trigger] self.regs()[j] == old(
                self,
            ).regs().update(reg_num as int, fit(value, width))[j] by {
                if j != reg_num {
                    old(self).lemma_layout(j);
                    lemma_other_field(before, after, width, reg_num as int, value as u32, j);
                }
            }
            assert(self.regs() =~= old(self).regs().update(reg_num as int, fit(value, width)));
        }
    }

    /// Sets register `reg_num` to the low bits of `value` where they are greater than what
    /// stands there.
    pub fn set_if_greater(&mut self, reg_num: u32, value: u8)
        requires
            old(self).wf(),
            reg_num < old(self).settings.m(),
        ensures
            final(self).wf(),
            final(self).settings == old(self).settings,
            final(self).regs() == raised(
                old(self).regs(),
                reg_num as int,
                fit(value, old(self).settings.reg_width),
            ),
    {
        proof {
            lemma_register_max(self.settings.reg_width);
            lemma_fit_bound(value, self.settings.reg_width);
        }
        let register: u8 = self.get(reg_num);
        let field_mask: u8 = 0xFFu8 >> (8 - self.settings.reg_width as u8);
        let cut: u8 = value & field_mask;
        proof {
            lemma_field_mask(value, self.settings.reg_width);
            lemma_fit_in_range(cut, self.settings.reg_width);
        }
        if cut > register {
            self.set_reg(reg_num, cut);
        } else {
            assert(self.regs() =~= raised(self.regs(), reg_num as int, cut));
        }
    }

    /// Counts every value of an explicit storage.
    pub fn union_explicit(&mut self, explicit_storage: &ExplicitStorage)
        requires
            old(self).wf(),
        ensures
            final(self).wf(),
            final(self).settings == old(self).settings,
            final(self).regs() == ingested_set(old(self).regs(), old(self).settings, explicit_storage.buf@),
    {
        let values = values_in_order(&explicit_storage.buf);
        let n: usize = values.len();
        let mut t: usize = 0;
        let ghost settings = self.settings;
        let ghost seen: Set<i64> = Set::empty();
        proof {
            assert forall|i: int| 0 <= i < settings.m() implies set_register(seen, settings, i) == 0 by {
                lemma_set_register_empty(settings, i, 255);
            }
            assert(self.regs() =~= ingested_set(old(self).regs(), settings, seen));
        }
        while t < n
            invariant
                t <= n,
                n == values@.len(),
                lists_values(values@, explicit_storage.buf@),
                self.wf(),
                self.settings == settings,
                settings == old(self).settings,
                forall|v: i64| seen.contains(v) <==> exists|u: int| 0 <= u < t && values@[u] == v,
                self.regs() == ingested_set(old(self).regs(), settings, seen),
            decreases n - t,
        {
            let value: i64 = values[t];
            let ghost next = seen.insert(value);
            self.set(#[verifier::truncate] (value as u64));
            proof {
                lemma_ingest_one_more(old(self).regs(), settings, seen, value);
                assert forall|v: i64| next.contains(v) <==> exists|u: int| 0 <= u < t + 1 && values@[u] == v by {
                    if v == value {
                        assert(values@[t as int] == v);
                    } else {
                        if exists|u: int| 0 <= u < t + 1 && values@[u] == v {
                            let u = choose|u: int| 0 <= u < t + 1 && values@[u] == v;
                            assert(u < t);
                        }
                    }
                }
                seen = next;
            }
            t += 1;
        }
        proof {
            assert forall|v: i64| seen.contains(v) <==> explicit_storage.buf@.contains(v) by {
                if explicit_storage.buf@.contains(v) {
                    assert(values@.contains(v));
                }
                if exists|u: int| 0 <= u < n && values@[u] == v {
                    let u = choose|u: int| 0 <= u < n && values@[u] == v;
                    assert(values@.contains(values@[u]));
                }
            }
            assert(seen =~= explicit_storage.buf@);
        }
    }

    /// Merges a map of registers in.
    pub fn union_sparse(&mut self, sparse_storage: &SparseRegisters)
        requires
            old(self).wf(),
            forall|k: u32| #[trigger] sparse_storage.buf@.contains_key(k) ==> k < old(self).settings.m(),
        ensures
            final(self).wf(),
            final(self).settings == old(self).settings,
            final(self).regs() == merged_sparse(
                old(self).regs(),
                sparse_storage.buf@,
                old(self).settings.reg_width,
            ),
    {
        let entries = entries_in_order(&sparse_storage.buf);
        let n: usize = entries.len();
        let mut t: usize = 0;
        let ghost width = self.settings.reg_width;
        let ghost map = sparse_storage.buf@;
        proof {
            lemma_register_max(width);
            lemma_fit_in_range(0u8, width);
        }
        while t < n
            invariant
                t <= n,
                n == entries@.len(),
                map == sparse_storage.buf@,
                entries@ == sorted_entries(map),
                lists_keys(sorted_keys(map), map),
                forall|k: u32| #[trigger] map.contains_key(k) ==> k < old(self).settings.m(),
                self.wf(),
                self.settings == old(self).settings,
                width == self.settings.reg_width,
                fit(0u8, width) == 0u8,
                forall|i: int|
                    0 <= i < self.settings.m() ==> #[trigger] self.regs()[i] == (if exists|u: int|
                        0 <= u < t && entries@[u].0 == i {
                        max_u8(old(self).regs()[i], fit(sparse_reg(map, i), width))
                    } else {
                        old(self).regs()[i]
                    }),
            decreases n - t,
        {
            let (reg_num, value) = entries[t];
            let ghost prior = self.regs();
            proof {
                let keys = sorted_keys(map);
                assert(keys.contains(keys[t as int]));
                assert(map.contains_key(reg_num));
                if exists|u: int| 0 <= u < t && entries@[u].0 == reg_num {
                    let u = choose|u: int| 0 <= u < t && entries@[u].0 == reg_num;
                    assert(keys[u] < keys[t as int]);
                }
            }
            self.set_if_greater(reg_num, value);
            proof {
                assert forall|i: int| 0 <= i < self.settings.m() implies #[trigger] self.regs()[i] == (if exists|u: int|
                    0 <= u < t + 1 && entries@[u].0 == i {
                    max_u8(old(self).regs()[i], fit(sparse_reg(map, i), width))
                } else {
                    old(self).regs()[i]
                }) by {
                    if i == reg_num {
                        assert(entries@[t as int].0 == i);
                    } else {
                        assert(self.regs()[i] == prior[i]);
                        if exists|u: int| 0 <= u < t + 1 && entries@[u].0 == i {
                            let u = choose|u: int| 0 <= u < t + 1 && entries@[u].0 == i;
                            assert(u < t);
                        }
                    }
                }
            }
            t += 1;
        }
        proof {
            let keys = sorted_keys(map);
            assert forall|i: int| 0 <= i < self.settings.m() implies #[trigger] self.regs()[i] == max_u8(
                old(self).regs()[i],
                fit(sparse_reg(map, i), width),
            ) by {
                lemma_register_count(self.settings.log_2m);
                let key = i as u32;
                if map.contains_key(key) {
                    assert(keys.contains(key));
                    let u = choose|u: int| 0 <= u < keys.len() && keys[u] == key;
                    assert(entries@[u].0 == i);
                } else {
                    if exists|u: int| 0 <= u < n && entries@[u].0 == i {
                        let u = choose|u: int| 0 <= u < n && entries@[u].0 == i;
                        assert(keys.contains(keys[u]));
                    }
                }
            }
            assert(self.regs() =~= merged_sparse(old(self).regs(), map, width));
        }
    }

    /// Merges the registers of another packed array in.
    pub fn union_dense(&mut self, other: &Self)
        requires
            old(self).wf(),
            other.wf(),
            other.settings.m() <= old(self).settings.m(),
        ensures
            final(self).wf(),
            final(self).settings == old(self).settings,
            final(self).regs() == merged(old(self).regs(), other.regs(), old(self).settings.reg_width),
    {
        let mut walk = other.iter();
        let ghost width = self.settings.reg_width;
        loop
            invariant
                walk.wf(),
                walk.registers == other,
                other.settings.m() <= old(self).settings.m(),
                self.wf(),
                self.settings == old(self).settings,
                width == self.settings.reg_width,
                forall|i: int|
                    0 <= i < self.settings.m() ==> #[trigger] self.regs()[i] == (if i < walk.reg_num {
                        max_u8(old(self).regs()[i], fit(other.regs()[i], width))
                    } else {
                        old(self).regs()[i]
                    }),
            ensures
                walk.reg_num == walk.reg_cnt,
                walk.wf(),
                walk.registers == other,
                self.wf(),
                self.settings == old(self).settings,
                forall|i: int|
                    0 <= i < self.settings.m() ==> #[trigger] self.regs()[i] == (if i < walk.reg_num {
                        max_u8(old(self).regs()[i], fit(other.regs()[i], width))
                    } else {
                        old(self).regs()[i]
                    }),
            decreases walk.reg_cnt - walk.reg_num,
        {
            match walk.next() {
                Some((reg_num, value)) => {
                    self.set_if_greater(reg_num, value);
                },
                None => {
                    break ;
                },
            }
        }
        assert(self.regs() =~= merged(old(self).regs(), other.regs(), width));
    }

    /// A walk over all registers, from register 0 on.
    pub fn iter(&self) -> (walk: RegisterIter<'_>)
        requires
            self.wf(),
        ensures
            walk.wf(),
            walk.reg_num == 0,
            walk.registers == self,
    {
        let log_2m: u32 = self.settings.log_2m;
        proof {
            lemma_register_count(log_2m);
        }
        RegisterIter { reg_num: 0, reg_cnt: 1u32 << log_2m, registers: self }
    }

    /// `counts` tells for each register value how many registers hold it, and
    /// `number_of_zeros` how many registers hold 0.
    pub open spec fn spec_indicator(&self, counts: Seq<u32>, number_of_zeros: u32) -> bool {
        &&& counts.len() == register_max(self.settings.reg_width) + 1
        &&& forall|v: u8| v < counts.len() ==> #[trigger] counts[v as int] == occurrences(self.regs(), v)
        &&& number_of_zeros == occurrences(self.regs(), 0u8)
    }

    /// What the estimate is made of: for each register value how many registers hold it,
    /// and how many registers hold 0.
    pub fn indicator(&self) -> (r: (Vec<u32>, u32))
        requires
            self.wf(),
        ensures
            self.spec_indicator(r.0@, r.1),
    {
        let reg_width: u32 = self.settings.reg_width;
        let log_2m: u32 = self.settings.log_2m;
        proof {
            lemma_register_max(reg_width);
            lemma_register_count(log_2m);
        }
        let size: u32 = 1u32 << reg_width;
        let num_reg: u32 = 1u32 << log_2m;
        let mut counts: Vec<u32> = vec![0u32; size as usize];
        let mut i: u32 = 0;
        assert(self.regs().take(0) =~= Seq::<u8>::empty());
        while i < num_reg
            invariant
                self.wf(),
                i <= num_reg,
                num_reg == self.settings.m(),
                counts@.len() == size,
                size == register_max(self.settings.reg_width) + 1,
                forall|v: u8|
                    v < counts@.len() ==> #[trigger] counts@[v as int] == occurrences(self.regs().take(i as int), v),
            decreases num_reg - i,
        {
            let value: u8 = self.get(i);
            proof {
                let seen = self.regs().take(i as int);
                assert(self.regs().take(i + 1) =~= seen.push(value));
                assert forall|v: u8| v < counts@.len() implies occurrences(seen.push(value), v)
                    == #[trigger] counts@[v as int] + if value == v {
                    1nat
                } else {
                    0nat
                } by {
                    lemma_occurrences_push(seen, value, v);
                }
                lemma_occurrences_bound(seen, value);
            }
            let at: usize = value as usize;
            let count: u32 = counts[at];
            counts[at] = count + 1;
            i += 1;
        }
        assert(self.regs().take(num_reg as int) =~= self.regs());
        let zeros: u32 = counts[0];
        (counts, zeros)
    }

    /// Counts a raw value.
    pub fn set(&mut self, value: u64)
        requires
            old(self).wf(),
        ensures
            final(self).wf(),
            final(self).settings == old(self).settings,
            final(self).regs() == ingested(old(self).regs(), old(self).settings, value),
    {
        match self.settings.register_of(value) {
            Some((reg_num, p_w)) => {
                proof {
                    lemma_fit_in_range(p_w, self.settings.reg_width);
                }
                self.set_if_greater(reg_num, p_w);
            },
            None => {},
        }
    }
}

/// A walk over the registers of a packed array, in the order of their numbers.
pub struct RegisterIter<'a> {
    pub reg_num: u32,
    pub reg_cnt: u32,
    pub registers: &'a DenseRegisters,
}

impl<'a> RegisterIter<'a> {
    /// The walk is over all registers of a consistent array.
    pub open spec fn wf(&self) -> bool {
        &&& self.registers.wf()
        &&& self.reg_cnt == self.registers.settings.m()
        &&& self.reg_num <= self.reg_cnt
    }

    /// The next register's number and value, as long as there is one.
    pub fn next(&mut self) -> (item: Option<(u32, u8)>)
        requires
            old(self).wf(),
        ensures
            final(self).wf(),
            final(self).registers == old(self).registers,
            final(self).reg_cnt == old(self).reg_cnt,
            old(self).reg_num < old(self).reg_cnt ==> item == Some(
                (old(self).reg_num, old(self).registers.regs()[old(self).reg_num as int]),
            ) && final(self).reg_num == old(self).reg_num + 1,
            old(self).reg_num >= old(self).reg_cnt ==> item is None && final(self).reg_num == old(self).reg_num,
    {
        if self.reg_num < self.reg_cnt {
            let value: u8 = self.registers.get(self.reg_num);
            let res = Some((self.reg_num, value));
            self.reg_num += 1;
            return res;
        }
        None
    }
}

impl Storage for DenseRegisters {
    open spec fn storage_wf(&self) -> bool {
        self.wf()
    }

    open spec fn writable(&self) -> bool {
        true
    }

    open spec fn image_len(&self) -> nat {
        self.buf@.len()
    }

    /// The image is the packed array as it stands.
    open spec fn writes(&self, before: Seq<u8>, after: Seq<u8>) -> bool {
        after == self.buf@ + before.skip(self.buf@.len() as int)
    }

    open spec fn readable(settings: Settings, bytes: Seq<u8>) -> bool {
        bytes.len() <= dense_len(settings)
    }

    /// The bytes are the beginning of the packed array; the registers beyond them are 0.
    open spec fn reads(settings: Settings, bytes: Seq<u8>, storage: Self) -> bool {
        &&& storage.settings == settings
        &&& storage.buf@ == bytes + Seq::new((dense_len(settings) - bytes.len()) as nat, |k: int| 0u8)
    }

    open spec fn cleared(&self, after: Self) -> bool {
        &&& after.settings == self.settings
        &&& after.buf@ == Seq::new(self.buf@.len(), |k: int| 0u8)
        &&& after.regs() == Seq::new(self.settings.m(), |i: int| 0u8)
    }

    fn bytes_size(&self) -> (size: usize) {
        self.buf.len()
    }

    fn to_bytes(&self, buf: &mut [u8]) {
        let n: usize = self.buf.len();
        let mut i: usize = 0;
        while i < n
            invariant
                i <= n,
                n == self.buf@.len(),
                buf@.len() == old(buf)@.len(),
                n <= buf@.len(),
                forall|k: int| 0 <= k < i ==> buf@[k] == self.buf@[k],
                forall|k: int| i <= k < buf@.len() ==> buf@[k] == old(buf)@[k],
            decreases n - i,
        {
            buf[i] = self.buf[i];
            i += 1;
        }
        assert(buf@ =~= self.buf@ + old(buf)@.skip(self.buf@.len() as int));
    }

    fn from_bytes(settings: &Settings, buf: &[u8]) -> (storage: Self) {
        let mut res = Self::with_settings(settings);
        let n: usize = buf.len();
        let mut i: usize = 0;
        while i < n
            invariant
                i <= n,
                n == buf@.len(),
                n <= res.buf@.len(),
                res.settings == *settings,
                res.buf@.len() == dense_len(*settings),
                forall|k: int| 0 <= k < i ==> res.buf@[k] == buf@[k],
                forall|k: int| i <= k < res.buf@.len() ==> res.buf@[k] == 0u8,
            decreases n - i,
        {
            res.buf[i] = buf[i];
            i += 1;
        }
        assert(res.buf@ =~= buf@ + Seq::new((dense_len(*settings) - buf@.len()) as nat, |k: int| 0u8));
        res
    }

    fn clear(&mut self) {
        let n: usize = self.buf.len();
        let mut i: usize = 0;
        while i < n
            invariant
                i <= n,
                n == self.buf@.len(),
                self.settings == old(self).settings,
                self.buf@.len() == old(self).buf@.len(),
                forall|k: int| 0 <= k < i ==> self.buf@[k] == 0u8,
            decreases n - i,
        {
            self.buf[i] = 0;
            i += 1;
        }
        proof {
            assert(self.buf@ =~= Seq::new(old(self).buf@.len(), |k: int| 0u8));
            assert forall|j: int| 0 <= j < self.settings.m() implies self.spec_get(j) == 0u8 by {
                self.lemma_layout(j);
                lemma_zero_field(self.buf@, j * self.settings.reg_width, self.settings.reg_width as nat);
            }
            assert(self.regs() =~= Seq::new(self.settings.m(), |i: int| 0u8));
        }
    }
}

/// A field of zero bytes spells 0.
pub proof fn lemma_zero_field(buf: Seq<u8>, start: int, n: nat)
    requires
        forall|k: int| #![auto] 0 <= k < buf.len() ==> buf[k] == 0u8,
        0 <= start,
        start + n <= 8 * buf.len(),
    ensures
        bits_value(buf, start, n) == 0,
    decreases n,
{
    if n > 0 {
        lemma_zero_field(buf, start, (n - 1) as nat);
        let k = start + n - 1;
        let s = (7 - k % 8) as u8;
        assert((0u8 >> s) & 1u8 == 0u8) by (bit_vector);
        assert(buf[k / 8] == 0u8);
    }
}

} // verus!
