use vstd::prelude::*;
use std::collections::BTreeMap;
use crate::dense::DenseRegisters;
use crate::explicit::ExplicitStorage;
use crate::order::{
    entries_in_order, keys_below, lemma_ascending_places, lemma_keys_below, lemma_listing_len,
    lemma_sorted_keys, lists_keys, lists_values, sorted_entries, sorted_keys, values_in_order,
};
use crate::registers::{
    fit, lemma_field_mask, lemma_fit_bound, lemma_fit_in_range, lemma_occurrences_bound,
    lemma_occurrences_push, lemma_set_register_bound, lemma_set_register_empty,
    lemma_set_register_insert, lemma_set_register_touched, max_u8, occurrences, set_register,
    set_touches, sparse_reg,
};
use crate::settings::{lemma_register_count, lemma_register_max, register_max, Settings};
use crate::storage::Storage;
use crate::utils::{
    bit_at, bits_value, calc_position, divide_by_8_round_up, lemma_same_bits, lemma_spelled_bits,
    low_bits, read_bits, write_bits,
};

verus! {

broadcast use vstd::laws_cmp::group_laws_cmp;

/// A map of registers after `value`, cut down to a register's width, has been set at
/// `reg_num` unless a greater value stood there.
pub open spec fn sparse_raised(map: Map<u32, u8>, reg_num: u32, value: u8, reg_width: u32) -> Map<u32, u8> {
    map.insert(reg_num, max_u8(sparse_reg(map, reg_num as int), fit(value, reg_width)))
}

/// A map of registers after a raw value has been counted.
pub open spec fn sparse_ingested(map: Map<u32, u8>, settings: Settings, value: u64) -> Map<u32, u8> {
    if settings.spec_substream(value) == 0 {
        map
    } else {
        sparse_raised(
            map,
            settings.spec_register_index(value),
            settings.spec_register_value(value),
            settings.reg_width,
        )
    }
}

/// A map of registers after another has been merged in: entry by entry of the other, the
/// larger value, the other's cut down to a register's width.
pub open spec fn sparse_merged(map: Map<u32, u8>, other: Map<u32, u8>, reg_width: u32) -> Map<u32, u8> {
    Map::new(
        |k: u32| map.contains_key(k) || other.contains_key(k),
        |k: u32|
            if other.contains_key(k) {
                max_u8(sparse_reg(map, k as int), fit(other[k], reg_width))
            } else {
                map[k]
            },
    )
}

/// A map of registers after every value of a set has been counted.
pub open spec fn sparse_ingested_set(map: Map<u32, u8>, settings: Settings, s: Set<i64>) -> Map<u32, u8> {
    Map::new(
        |k: u32| map.contains_key(k) || set_touches(s, settings, k as int),
        |k: u32| max_u8(sparse_reg(map, k as int), set_register(s, settings, k as int)),
    )
}

/// The short word of an entry: the register's number above its value.
pub open spec fn short_word(entry: (u32, u8), reg_width: u32) -> u32 {
    (entry.0 << reg_width) | (entry.1 as u32)
}

/// The register's number of a short word.
pub open spec fn word_key(word: u32, reg_width: u32) -> u32 {
    word >> reg_width
}

/// The register's value of a short word.
pub open spec fn word_value(word: u32, reg_width: u32) -> u8 {
    low_bits(word, reg_width as nat) as u8
}

/// The map that the first `n` short words of a stream give, each entered in turn.
pub open spec fn sparse_decoded(bytes: Seq<u8>, settings: Settings, n: nat) -> Map<u32, u8>
    decreases n,
{
    if n == 0 {
        Map::empty()
    } else {
        let w = settings.log_2m + settings.reg_width;
        let word = bits_value(bytes, (n - 1) * w, w as nat) as u32;
        sparse_decoded(bytes, settings, (n - 1) as nat).insert(
            word_key(word, settings.reg_width),
            word_value(word, settings.reg_width),
        )
    }
}

/// Counting one more value into a map that holds a set's values gives the map that holds
/// the larger set's.
pub proof fn lemma_ingest_one(map: Map<u32, u8>, settings: Settings, s: Set<i64>, v: i64)
    requires
        settings.wf(),
    ensures
        sparse_ingested(sparse_ingested_set(map, settings, s), settings, v as u64) == sparse_ingested_set(
            map,
            settings,
            s.insert(v),
        ),
{
    let cur = sparse_ingested_set(map, settings, s);
    let t = s.insert(v);
    let goal = sparse_ingested_set(map, settings, t);
    let got = sparse_ingested(cur, settings, v as u64);
    settings.lemma_register_of(v as u64);
    lemma_register_max(settings.reg_width);
    assert forall|k: u32| got.contains_key(k) <==> goal.contains_key(k) by {
        if set_touches(s, settings, k as int) {
            let x = choose|x: i64|
                s.contains(x) && settings.spec_substream(x as u64) != 0 && settings.spec_register_index(
                    x as u64,
                ) == k as int;
            assert(t.contains(x));
        }
        if set_touches(t, settings, k as int) {
            let x = choose|x: i64|
                t.contains(x) && settings.spec_substream(x as u64) != 0 && settings.spec_register_index(
                    x as u64,
                ) == k as int;
            assert(x == v || s.contains(x));
        }
        if settings.spec_substream(v as u64) != 0 && settings.spec_register_index(v as u64) == k {
            assert(t.contains(v));
        }
    }
    assert forall|k: u32| got.contains_key(k) implies got[k] == goal[k] by {
        lemma_set_register_insert(s, settings, v, k as int, 255);
        lemma_set_register_bound(s, settings, k as int, 255);
        if settings.spec_substream(v as u64) != 0 && settings.spec_register_index(v as u64) == k {
            lemma_fit_in_range(settings.spec_register_value(v as u64), settings.reg_width);
            lemma_set_register_touched(s, settings, k as int, 255);
        }
    }
    assert(got =~= goal);
}

/// The values of the entries whose keys are smaller than `n`, by key.
pub open spec fn stored_below(map: Map<u32, u8>, n: nat) -> Seq<u8> {
    Seq::new(keys_below(map, n).len(), |i: int| map[keys_below(map, n)[i]])
}

/// Among the first `n` registers, a value occurs as often as among the entries below `n`,
/// and 0 once more for each register below `n` without an entry.
pub proof fn lemma_occurrences_below(map: Map<u32, u8>, n: nat, v: u8)
    requires
        n <= 0x1_0000_0000,
    ensures
        keys_below(map, n).len() <= n,
        occurrences(Seq::new(n, |i: int| sparse_reg(map, i)), v) == occurrences(stored_below(map, n), v) + if v
            == 0 {
            n - keys_below(map, n).len()
        } else {
            0
        },
    decreases n,
{
    let regs = Seq::new(n, |i: int| sparse_reg(map, i));
    if n > 0 {
        let fewer = (n - 1) as nat;
        let top = (n - 1) as u32;
        lemma_occurrences_below(map, fewer, v);
        let before = Seq::new(fewer, |i: int| sparse_reg(map, i));
        assert(regs =~= before.push(sparse_reg(map, n - 1)));
        lemma_occurrences_push(before, sparse_reg(map, n - 1), v);
        if map.contains_key(top) {
            assert(stored_below(map, n) =~= stored_below(map, fewer).push(map[top]));
            lemma_occurrences_push(stored_below(map, fewer), map[top], v);
        } else {
            assert(stored_below(map, n) =~= stored_below(map, fewer));
        }
    } else {
        assert(regs =~= Seq::<u8>::empty());
        assert(stored_below(map, n) =~= Seq::<u8>::empty());
    }
}

/// The registers that are not 0, each under its number.
#[derive(Clone, Debug, PartialEq)]
pub struct SparseRegisters {
    pub settings: Settings,
    pub buf: BTreeMap<u32, u8>,
}

impl SparseRegisters {
    /// The settings are consistent, every register lies among theirs, and every value
    /// within a register's range.
    pub open spec fn wf(&self) -> bool {
        &&& self.settings.wf()
        &&& forall|k: u32| #[trigger]
            self.buf@.contains_key(k) ==> k < self.settings.m() && self.buf@[k] <= register_max(
                self.settings.reg_width,
            )
    }

    /// The values of all registers.
    pub open spec fn regs(&self) -> Seq<u8> {
        Seq::new(self.settings.m(), |i: int| sparse_reg(self.buf@, i))
    }

    /// The width of a short word.
    pub open spec fn word_bits(&self) -> nat {
        (self.settings.log_2m + self.settings.reg_width) as nat
    }

    /// Every register lies among the registers of `settings`.
    pub fn keys_below(&self, settings: &Settings) -> (ok: bool)
        requires
            settings.log_2m <= 31,
        ensures
            ok == (forall|k: u32| #[trigger] self.buf@.contains_key(k) ==> k < settings.m()),
    {
        proof {
            lemma_register_count(settings.log_2m);
        }
        let m: u64 = 1u64 << settings.log_2m;
        let entries = entries_in_order(&self.buf);
        let n: usize = entries.len();
        let mut t: usize = 0;
        while t < n
            invariant
                t <= n,
                n == entries@.len(),
                m == settings.m(),
                entries@ == sorted_entries(self.buf@),
                lists_keys(sorted_keys(self.buf@), self.buf@),
                forall|u: int| 0 <= u < t ==> (#[trigger] entries@[u]).0 < m,
            decreases n - t,
        {
            let (reg_num, _value) = entries[t];
            if reg_num as u64 >= m {
                proof {
                    let keys = sorted_keys(self.buf@);
                    assert(keys.contains(keys[t as int]));
                    assert(self.buf@.contains_key(reg_num));
                }
                return false;
            }
            t += 1;
        }
        proof {
            let keys = sorted_keys(self.buf@);
            assert forall|k: u32| #[trigger] self.buf@.contains_key(k) implies k < settings.m() by {
                assert(keys.contains(k));
                let u = choose|u: int| 0 <= u < keys.len() && keys[u] == k;
                assert(entries@[u].0 == k);
            }
        }
        true
    }

    /// The settings are consistent, every register lies among theirs, and every value
    /// within a register's range.
    pub fn is_consistent(&self) -> (ok: bool)
        ensures
            ok == self.wf(),
    {
        if !self.settings.is_consistent() {
            return false;
        }
        if !self.keys_below(&self.settings) {
            return false;
        }
        proof {
            lemma_register_max(self.settings.reg_width);
        }
        let max: u8 = 0xFFu8 >> (8 - self.settings.reg_width as u8);
        proof {
            lemma_field_mask(0u8, self.settings.reg_width);
        }
        let entries = entries_in_order(&self.buf);
        let n: usize = entries.len();
        let mut t: usize = 0;
        while t < n
            invariant
                t <= n,
                n == entries@.len(),
                max == register_max(self.settings.reg_width),
                entries@ == sorted_entries(self.buf@),
                lists_keys(sorted_keys(self.buf@), self.buf@),
                forall|u: int| 0 <= u < t ==> (#[trigger] entries@[u]).1 <= max,
            decreases n - t,
        {
            let (_reg_num, value) = entries[t];
            if value > max {
                proof {
                    let keys = sorted_keys(self.buf@);
                    assert(keys.contains(keys[t as int]));
                    assert(self.buf@.contains_key(keys[t as int]));
                    assert(self.buf@[keys[t as int]] == value);
                }
                return false;
            }
            t += 1;
        }
        proof {
            let keys = sorted_keys(self.buf@);
            assert forall|k: u32| #[trigger] self.buf@.contains_key(k) implies self.buf@[k] <= register_max(
                self.settings.reg_width,
            ) by {
                assert(keys.contains(k));
                let u = choose|u: int| 0 <= u < keys.len() && keys[u] == k;
                assert(entries@[u].1 == self.buf@[k]);
            }
        }
        true
    }

    /// No register set yet.
    pub fn with_settings(settings: &Settings) -> (r: Self)
        ensures
            r.settings == *settings,
            r.buf@ == Map::<u32, u8>::empty(),
            settings.wf() ==> r.wf(),
    {
        Self { settings: *settings, buf: BTreeMap::new() }
    }

    /// A copy of the registers under other settings. It is consistent where the other
    /// settings lay the registers out as these do.
    pub fn clone_with_settings(&self, settings: &Settings) -> (r: Self)
        ensures
            r.settings == *settings,
            r.buf@ == self.buf@,
    {
        Self { settings: *settings, buf: self.buf.clone() }
    }

    /// More registers are held than the sparse threshold allows; always where the
    /// settings have no sparse threshold.
    pub fn is_full(&self) -> (full: bool)
        ensures
            full == match self.settings.sparse_threshold {
                Some(threshold) => threshold < self.buf@.len(),
                None => true,
            },
    {
        match self.settings.sparse_threshold {
            Some(threshold) => {
                if threshold < 0 {
                    true
                } else {
                    (threshold as usize) < self.buf.len()
                }
            },
            None => true,
        }
    }

    /// The number of registers held.
    pub fn len(&self) -> (n: usize)
        ensures
            n == self.buf@.len(),
    {
        self.buf.len()
    }

    /// The entries, by register number, smallest first.
    pub fn iter(&self) -> (out: Vec<(u32, u8)>)
        ensures
            out@ == sorted_entries(self.buf@),
            lists_keys(sorted_keys(self.buf@), self.buf@),
            out@.len() == self.buf@.len(),
    {
        entries_in_order(&self.buf)
    }

    /// Sets register `reg_num` to the low bits of `value` where they are greater than what
    /// stands there, or where nothing stands there.
    pub fn set_if_greater(&mut self, reg_num: u32, value: u8)
        requires
            old(self).wf(),
            reg_num < old(self).settings.m(),
        ensures
            final(self).wf(),
            final(self).settings == old(self).settings,
            final(self).buf@ == sparse_raised(old(self).buf@, reg_num, value, old(self).settings.reg_width),
    {
        proof {
            lemma_register_max(self.settings.reg_width);
            lemma_fit_bound(value, self.settings.reg_width);
        }
        let field_mask: u8 = 0xFFu8 >> (8 - self.settings.reg_width as u8);
        let cut: u8 = value & field_mask;
        proof {
            lemma_field_mask(value, self.settings.reg_width);
        }
        let greater: bool = match self.buf.get(&reg_num) {
            Some(current) => *current < cut,
            None => true,
        };
        if greater {
            self.buf.insert(reg_num, cut);
        }
        assert(self.buf@ =~= sparse_raised(old(self).buf@, reg_num, value, old(self).settings.reg_width));
    }

    /// All registers, packed: those of this map cut down to the width of the settings in
    /// use, the others 0. Without settings, this map's own are used.
    pub fn to_dense(&self, settings: Option<&Settings>) -> (r: DenseRegisters)
        requires
            self.wf(),
            settings matches Some(s) ==> s.wf() && (forall|k: u32| #[trigger]
                self.buf@.contains_key(k) ==> k < s.m()),
        ensures
            r.wf(),
            r.settings == (match settings {
                Some(s) => *s,
                None => self.settings,
            }),
            r.regs() == Seq::new(r.settings.m(), |i: int| fit(sparse_reg(self.buf@, i), r.settings.reg_width)),
    {
        let used: Settings = match settings {
            Some(s) => *s,
            None => self.settings,
        };
        let mut registers = DenseRegisters::with_settings(&used);
        let entries = entries_in_order(&self.buf);
        let n: usize = entries.len();
        let mut t: usize = 0;
        proof {
            lemma_register_max(used.reg_width);
            assert(fit(0u8, used.reg_width) == 0u8) by {
                lemma_fit_in_range(0u8, used.reg_width);
            }
        }
        while t < n
            invariant
                t <= n,
                n == entries@.len(),
                entries@ == sorted_entries(self.buf@),
                lists_keys(sorted_keys(self.buf@), self.buf@),
                used.wf(),
                fit(0u8, used.reg_width) == 0u8,
                forall|k: u32| #[trigger] self.buf@.contains_key(k) ==> k < used.m(),
                registers.wf(),
                registers.settings == used,
                forall|i: int|
                    0 <= i < used.m() ==> #[trigger] registers.regs()[i] == (if exists|u: int|
                        0 <= u < t && entries@[u].0 == i {
                        fit(sparse_reg(self.buf@, i), used.reg_width)
                    } else {
                        0u8
                    }),
            decreases n - t,
        {
            let (reg_num, value) = entries[t];
            let ghost prior = registers.regs();
            proof {
                let keys = sorted_keys(self.buf@);
                assert(keys.contains(keys[t as int]));
                assert(self.buf@.contains_key(reg_num));
            }
            registers.set_reg(reg_num, value);
            proof {
                assert forall|i: int| 0 <= i < used.m() implies #[trigger] registers.regs()[i] == (if exists|u: int|
                    0 <= u < t + 1 && entries@[u].0 == i {
                    fit(sparse_reg(self.buf@, i), used.reg_width)
                } else {
                    0u8
                }) by {
                    if i == reg_num {
                        assert(entries@[t as int].0 == i);
                    } else {
                        assert(registers.regs()[i] == prior[i]);
                        if exists|u: int| 0 <= u < t + 1 && entries@[u].0 == i {
                            let u = choose|u: int| 0 <= u < t + 1 && entries@[u].0 == i;
                            assert(u < t);
                        }
                    }
                }
            }
            t += 1;
        }
        proof {
            let keys = sorted_keys(self.buf@);
            assert forall|i: int| 0 <= i < used.m() implies #[trigger] registers.regs()[i] == fit(
                sparse_reg(self.buf@, i),
                used.reg_width,
            ) by {
                lemma_register_count(used.log_2m);
                let key = i as u32;
                if self.buf@.contains_key(key) {
                    assert(keys.contains(key));
                    let u = choose|u: int| 0 <= u < keys.len() && keys[u] == key;
                    assert(entries@[u].0 == i);
                } else {
                    if exists|u: int| 0 <= u < n && entries@[u].0 == i {
                        let u = choose|u: int| 0 <= u < n && entries@[u].0 == i;
                        assert(keys.contains(keys[u]));
                    }
                }
            }
            assert(registers.regs() =~= Seq::new(
                used.m(),
                |i: int| fit(sparse_reg(self.buf@, i), used.reg_width),
            ));
        }
        registers
    }

    /// Merges another map of registers in.
    pub fn union_sparse(&mut self, other: &Self)
        requires
            old(self).wf(),
            forall|k: u32| #[trigger] other.buf@.contains_key(k) ==> k < old(self).settings.m(),
        ensures
            final(self).wf(),
            final(self).settings == old(self).settings,
            final(self).buf@ == sparse_merged(old(self).buf@, other.buf@, old(self).settings.reg_width),
    {
        let entries = entries_in_order(&other.buf);
        let n: usize = entries.len();
        let mut t: usize = 0;
        let ghost width = self.settings.reg_width;
        while t < n
            invariant
                t <= n,
                n == entries@.len(),
                entries@ == sorted_entries(other.buf@),
                lists_keys(sorted_keys(other.buf@), other.buf@),
                forall|k: u32| #[trigger] other.buf@.contains_key(k) ==> k < old(self).settings.m(),
                self.wf(),
                self.settings == old(self).settings,
                width == self.settings.reg_width,
                forall|k: u32|
                    #[trigger] self.buf@.contains_key(k) <==> (old(self).buf@.contains_key(k) || exists|u: int|
                        0 <= u < t && entries@[u].0 == k),
                forall|k: u32|
                    self.buf@.contains_key(k) ==> #[trigger] self.buf@[k] == (if exists|u: int|
                        0 <= u < t && entries@[u].0 == k {
                        max_u8(sparse_reg(old(self).buf@, k as int), fit(other.buf@[k], width))
                    } else {
                        old(self).buf@[k]
                    }),
            decreases n - t,
        {
            let (reg_num, value) = entries[t];
            let ghost prior = self.buf@;
            proof {
                let keys = sorted_keys(other.buf@);
                assert(keys.contains(keys[t as int]));
                assert(other.buf@.contains_key(reg_num));
                if exists|u: int| 0 <= u < t && entries@[u].0 == reg_num {
                    let u = choose|u: int| 0 <= u < t && entries@[u].0 == reg_num;
                    assert(keys[u] < keys[t as int]);
                }
            }
            self.set_if_greater(reg_num, value);
            proof {
                assert forall|k: u32|
                    #[trigger] self.buf@.contains_key(k) <==> (old(self).buf@.contains_key(k) || exists|u: int|
                        0 <= u < t + 1 && entries@[u].0 == k) by {
                    if k == reg_num {
                        assert(entries@[t as int].0 == k);
                    } else {
                        assert(self.buf@.contains_key(k) == prior.contains_key(k));
                        if exists|u: int| 0 <= u < t + 1 && entries@[u].0 == k {
                            let u = choose|u: int| 0 <= u < t + 1 && entries@[u].0 == k;
                            assert(u < t);
                        }
                    }
                }
                assert forall|k: u32| self.buf@.contains_key(k) implies #[trigger] self.buf@[k] == (if exists|u: int|
                    0 <= u < t + 1 && entries@[u].0 == k {
                    max_u8(sparse_reg(old(self).buf@, k as int), fit(other.buf@[k], width))
                } else {
                    old(self).buf@[k]
                }) by {
                    if k == reg_num {
                        assert(entries@[t as int].0 == k);
                    } else {
                        assert(self.buf@[k] == prior[k]);
                        if exists|u: int| 0 <= u < t + 1 && entries@[u].0 == k {
                            let u = choose|u: int| 0 <= u < t + 1 && entries@[u].0 == k;
                            assert(u < t);
                        }
                    }
                }
            }
            t += 1;
        }
        proof {
            let keys = sorted_keys(other.buf@);
            let goal = sparse_merged(old(self).buf@, other.buf@, width);
            assert forall|k: u32| other.buf@.contains_key(k) <==> (exists|u: int|
                0 <= u < n && entries@[u].0 == k) by {
                if other.buf@.contains_key(k) {
                    assert(keys.contains(k));
                    let u = choose|u: int| 0 <= u < keys.len() && keys[u] == k;
                    assert(entries@[u].0 == k);
                }
                if exists|u: int| 0 <= u < n && entries@[u].0 == k {
                    let u = choose|u: int| 0 <= u < n && entries@[u].0 == k;
                    assert(keys.contains(keys[u]));
                }
            }
            assert(self.buf@ =~= goal);
        }
    }

    /// Counts every value of an explicit storage.
    pub fn union_explicit(&mut self, explicit_storage: &ExplicitStorage)
        requires
            old(self).wf(),
        ensures
            final(self).wf(),
            final(self).settings == old(self).settings,
            final(self).buf@ == sparse_ingested_set(old(self).buf@, old(self).settings, explicit_storage.buf@),
    {
        let values = values_in_order(&explicit_storage.buf);
        let n: usize = values.len();
        let mut t: usize = 0;
        let ghost settings = self.settings;
        let ghost seen: Set<i64> = Set::empty();
        proof {
            assert forall|k: u32| !set_touches(seen, settings, k as int) by {}
            assert forall|k: u32| set_register(seen, settings, k as int) == 0 by {
                lemma_set_register_empty(settings, k as int, 255);
            }
            assert(self.buf@ =~= sparse_ingested_set(old(self).buf@, settings, seen));
        }
        while t < n
            invariant
                t <= n,
                n == values@.len(),
                lists_values(values@, explicit_storage.buf@),
                self.wf(),
                self.settings == settings,
                settings == old(self).settings,
                forall|v: i64| seen.contains(v) <==> exists|u: int| 0 <= u < t && values@[u] == v,
                self.buf@ == sparse_ingested_set(old(self).buf@, settings, seen),
            decreases n - t,
        {
            let value: i64 = values[t];
            let ghost prior = self.buf@;
            let ghost next = seen.insert(value);
            self.set(#[verifier::truncate] (value as u64));
            proof {
                lemma_ingest_one(old(self).buf@, settings, seen, value);
                assert forall|v: i64| next.contains(v) <==> exists|u: int| 0 <= u < t + 1 && values@[u] == v by {
                    if v == value {
                        assert(values@[t as int] == v);
                    } else {
                        if exists|u: int| 0 <= u < t + 1 && values@[u] == v {
                            let u = choose|u: int| 0 <= u < t + 1 && values@[u] == v;
                            assert(u < t);
                        }
                    }
                }
                seen = next;
            }
            t += 1;
        }
        proof {
            assert forall|v: i64| seen.contains(v) <==> explicit_storage.buf@.contains(v) by {
                if explicit_storage.buf@.contains(v) {
                    assert(values@.contains(v));
                }
                if exists|u: int| 0 <= u < n && values@[u] == v {
                    let u = choose|u: int| 0 <= u < n && values@[u] == v;
                    assert(values@.contains(values@[u]));
                }
            }
            assert(seen =~= explicit_storage.buf@);
        }
    }

    /// The values of the entries, by register number.
    pub open spec fn stored(&self) -> Seq<u8> {
        Seq::new(sorted_entries(self.buf@).len(), |i: int| sorted_entries(self.buf@)[i].1)
    }

    /// The number of registers without an entry.
    pub open spec fn absent(&self) -> nat {
        (self.settings.m() - self.buf@.len()) as nat
    }

    /// `counts` tells for each register value how many registers hold it, a register
    /// without an entry holding 0, and `number_of_zeros` how many registers have no entry.
    pub open spec fn spec_indicator(&self, counts: Seq<u32>, number_of_zeros: u32) -> bool {
        &&& counts.len() == register_max(self.settings.reg_width) + 1
        &&& forall|v: u8| v < counts.len() ==> #[trigger] counts[v as int] == occurrences(self.regs(), v)
        &&& number_of_zeros == self.absent()
    }

    /// Among all registers, a value occurs as often as among the entries, and 0 once more
    /// for each register without an entry.
    pub proof fn lemma_stored_occurrences(&self, v: u8)
        requires
            self.wf(),
        ensures
            self.buf@.len() <= self.settings.m(),
            occurrences(self.regs(), v) == occurrences(self.stored(), v) + if v == 0 {
                self.absent()
            } else {
                0nat
            },
    {
        let m = self.settings.m();
        lemma_register_count(self.settings.log_2m);
        lemma_occurrences_below(self.buf@, m, v);
        lemma_keys_below(self.buf@, m);
        lemma_sorted_keys(keys_below(self.buf@, m), self.buf@);
        lemma_listing_len(Set::empty(), self.buf@);
        assert(stored_below(self.buf@, m) =~= self.stored());
        assert(self.regs() =~= Seq::new(m, |i: int| sparse_reg(self.buf@, i)));
    }

    /// What the estimate is made of: for each register value how many registers hold it,
    /// a register without an entry holding 0; and how many registers have no entry.
    pub fn indicator(&self) -> (r: (Vec<u32>, u32))
        requires
            self.wf(),
        ensures
            self.spec_indicator(r.0@, r.1),
            self.buf@.len() <= self.settings.m(),
    {
        let reg_width: u32 = self.settings.reg_width;
        let log_2m: u32 = self.settings.log_2m;
        proof {
            lemma_register_max(reg_width);
            lemma_register_count(log_2m);
        }
        let size: u32 = 1u32 << reg_width;
        let num_reg: u32 = 1u32 << log_2m;
        let mut counts: Vec<u32> = vec![0u32; size as usize];
        let entries = entries_in_order(&self.buf);
        let n: usize = entries.len();
        proof {
            let keys = sorted_keys(self.buf@);
            if n > 0 {
                lemma_ascending_places(keys, n - 1);
                assert(keys.contains(keys[n - 1]));
            }
            assert(self.stored().take(0) =~= Seq::<u8>::empty());
        }
        let mut t: usize = 0;
        while t < n
            invariant
                self.wf(),
                t <= n,
                n == entries@.len(),
                n <= num_reg,
                entries@ == sorted_entries(self.buf@),
                lists_keys(sorted_keys(self.buf@), self.buf@),
                counts@.len() == size,
                size == register_max(self.settings.reg_width) + 1,
                forall|v: u8|
                    v < counts@.len() ==> #[trigger] counts@[v as int] == occurrences(self.stored().take(t as int), v),
            decreases n - t,
        {
            let (reg_num, value) = entries[t];
            proof {
                let keys = sorted_keys(self.buf@);
                assert(keys.contains(keys[t as int]));
                assert(self.buf@.contains_key(reg_num));
                let seen = self.stored().take(t as int);
                assert(self.stored().take(t + 1) =~= seen.push(value));
                assert forall|v: u8| v < counts@.len() implies occurrences(seen.push(value), v)
                    == #[trigger] counts@[v as int] + if value == v {
                    1nat
                } else {
                    0nat
                } by {
                    lemma_occurrences_push(seen, value, v);
                }
                lemma_occurrences_bound(seen, value);
            }
            let at: usize = value as usize;
            let count: u32 = counts[at];
            counts[at] = count + 1;
            t += 1;
        }
        proof {
            assert(self.stored().take(n as int) =~= self.stored());
            lemma_occurrences_bound(self.stored(), 0u8);
            assert forall|v: u8| v < counts@.len() implies #[trigger] counts@[v as int] + if v == 0 {
                self.absent()
            } else {
                0nat
            } == occurrences(self.regs(), v) by {
                self.lemma_stored_occurrences(v);
            }
        }
        let number_of_zeros: u32 = num_reg - (n as u32);
        let zero_count: u32 = counts[0];
        counts[0] = zero_count + number_of_zeros;
        (counts, number_of_zeros)
    }

    /// Counts a raw value.
    pub fn set(&mut self, value: u64)
        requires
            old(self).wf(),
        ensures
            final(self).wf(),
            final(self).settings == old(self).settings,
            final(self).buf@ == sparse_ingested(old(self).buf@, old(self).settings, value),
    {
        match self.settings.register_of(value) {
            Some((reg_num, p_w)) => {
                self.set_if_greater(reg_num, p_w);
            },
            None => {},
        }
    }
}

/// A short word fits its width, and gives back the entry that it was made of.
pub proof fn lemma_short_word(entry: (u32, u8), log_2m: u32, reg_width: u32)
    requires
        4 <= log_2m <= 31,
        1 <= reg_width <= 8,
        log_2m + reg_width <= 32,
        entry.0 < (1u64 << log_2m),
        entry.1 <= (1u64 << reg_width) - 1,
    ensures
        low_bits(short_word(entry, reg_width), (log_2m + reg_width) as nat) == short_word(entry, reg_width),
        word_key(short_word(entry, reg_width), reg_width) == entry.0,
        word_value(short_word(entry, reg_width), reg_width) == entry.1,
{
    let k = entry.0;
    let v = entry.1 as u32;
    let l = log_2m;
    let r = reg_width;
    let w: u32 = (l + r) as u32;
    assert(w < 32 ==> (((k << r) | v) & (((1u32 << w) - 1) as u32)) == ((k << r) | v)) by (bit_vector)
        requires
            4 <= l <= 31,
            1 <= r <= 8,
            w == l + r,
            w <= 32,
            k < (1u64 << l),
            v <= (1u64 << r) - 1,
    ;
    assert((((k << r) | v) >> r) == k && (((k << r) | v) & (((1u32 << r) - 1) as u32)) == v) by (bit_vector)
        requires
            4 <= l <= 31,
            1 <= r <= 8,
            l + r <= 32,
            k < (1u64 << l),
            v <= (1u64 << r) - 1,
    ;
}

/// The two parts of a short word are a register's number and a register's value.
pub proof fn lemma_word_parts(word: u32, log_2m: u32, reg_width: u32)
    requires
        4 <= log_2m <= 31,
        1 <= reg_width <= 8,
        log_2m + reg_width <= 32,
        log_2m + reg_width < 32 ==> word >> ((log_2m + reg_width) as u32) == 0,
    ensures
        word_key(word, reg_width) < (1u64 << log_2m),
        low_bits(word, reg_width as nat) <= (1u64 << reg_width) - 1,
        low_bits(word, reg_width as nat) <= 255,
        low_bits(word, reg_width as nat) == word & (((1u32 << reg_width) - 1) as u32),
        (1u32 << reg_width) >= 2,
{
    let l = log_2m;
    let r = reg_width;
    let w: u32 = (l + r) as u32;
    assert((word >> r) < (1u64 << l) && (word & (((1u32 << r) - 1) as u32)) <= (1u64 << r) - 1 && (word & (((
    1u32 << r) - 1) as u32)) <= 255 && (1u32 << r) >= 2) by (bit_vector)
        requires
            4 <= l <= 31,
            1 <= r <= 8,
            w == l + r,
            w <= 32,
            w < 32 ==> word >> w == 0,
    ;
}

impl Storage for SparseRegisters {
    open spec fn storage_wf(&self) -> bool {
        self.wf()
    }

    open spec fn writable(&self) -> bool {
        &&& self.word_bits() <= 32
        &&& self.word_bits() * self.buf@.len() <= u32::MAX
    }

    open spec fn image_len(&self) -> nat {
        ((self.word_bits() * self.buf@.len() + 7) / 8) as nat
    }

    /// The image is the short words of the entries, by register number, one after the
    /// other; the bits behind them stay as they were.
    open spec fn writes(&self, before: Seq<u8>, after: Seq<u8>) -> bool {
        let entries = sorted_entries(self.buf@);
        let w = self.word_bits();
        &&& after.len() == before.len()
        &&& forall|i: int|
            0 <= i < entries.len() ==> #[trigger] bits_value(after, i * w, w) == short_word(
                entries[i],
                self.settings.reg_width,
            )
        &&& forall|k: int|
            entries.len() * w <= k < 8 * before.len() ==> #[trigger] bit_at(after, k) == bit_at(before, k)
    }

    open spec fn readable(settings: Settings, bytes: Seq<u8>) -> bool {
        &&& settings.log_2m + settings.reg_width <= 32
        &&& 8 * bytes.len() <= u32::MAX
    }

    /// Each short word that fits into the bytes is entered, in the order of the stream.
    open spec fn reads(settings: Settings, bytes: Seq<u8>, storage: Self) -> bool {
        &&& storage.settings == settings
        &&& storage.buf@ == sparse_decoded(
            bytes,
            settings,
            ((8 * bytes.len()) as int / ((settings.log_2m + settings.reg_width) as int)) as nat,
        )
    }

    open spec fn cleared(&self, after: Self) -> bool {
        &&& after.settings == self.settings
        &&& after.buf@ == Map::<u32, u8>::empty()
    }

    fn bytes_size(&self) -> (size: usize) {
        let w: u32 = self.settings.log_2m + self.settings.reg_width;
        let len: usize = self.buf.len();
        assert(len <= w * len) by (nonlinear_arith)
            requires
                w >= 1,
                len >= 0,
        ;
        let bits: u32 = w * (len as u32);
        divide_by_8_round_up(bits) as usize
    }

    fn to_bytes(&self, buf: &mut [u8]) {
        let w: u32 = self.settings.log_2m + self.settings.reg_width;
        let reg_width: u32 = self.settings.reg_width;
        let entries = entries_in_order(&self.buf);
        let n: usize = entries.len();
        let mut i: usize = 0;
        proof {
            lemma_register_count(self.settings.log_2m);
            lemma_register_max(reg_width);
        }
        while i < n
            invariant
                i <= n,
                n == entries@.len(),
                n == self.buf@.len(),
                entries@ == sorted_entries(self.buf@),
                lists_keys(sorted_keys(self.buf@), self.buf@),
                self.wf(),
                w == self.settings.log_2m + self.settings.reg_width,
                reg_width == self.settings.reg_width,
                w <= 32,
                w * n <= u32::MAX,
                w * n <= 8 * buf@.len(),
                buf@.len() == old(buf)@.len(),
                forall|j: int|
                    0 <= j < i ==> #[trigger] bits_value(buf@, j * w, w as nat) == short_word(entries@[j], reg_width),
                forall|k: int| i * w <= k < 8 * buf@.len() ==> #[trigger] bit_at(buf@, k) == bit_at(old(buf)@, k),
            decreases n - i,
        {
            let (reg_num, reg) = entries[i];
            let ghost prev = buf@;
            proof {
                let keys = sorted_keys(self.buf@);
                assert(keys.contains(keys[i as int]));
                assert(entries@[i as int] == (keys[i as int], self.buf@[keys[i as int]]));
                assert(self.buf@.contains_key(reg_num));
                lemma_register_count(self.settings.log_2m);
                lemma_register_max(reg_width);
                lemma_short_word((reg_num, reg), self.settings.log_2m, reg_width);
                assert(i * w + w <= n * w && 0 <= i * w && (i + 1) * w == i * w + w && i <= i * w && n * w == w * n)
                    by (nonlinear_arith)
                    requires
                        0 <= i < n,
                        w >= 1,
                ;
            }
            let (idx, pos) = calc_position(i as u32, w as u8);
            let word: u32 = (reg_num << reg_width) | (reg as u32);
            write_bits(buf, idx, pos, word, w as u8);
            proof {
                assert forall|j: int| 0 <= j < i + 1 implies #[trigger] bits_value(buf@, j * w, w as nat)
                    == short_word(entries@[j], reg_width) by {
                    if j < i {
                        assert(j * w + w <= i * w && 0 <= j * w) by (nonlinear_arith)
                            requires
                                0 <= j < i,
                                w >= 1,
                        ;
                        assert forall|k: int| j * w <= k < j * w + w implies #[trigger] bit_at(buf@, k) == bit_at(
                            prev,
                            k,
                        ) by {}
                        lemma_same_bits(buf@, prev, j * w, w as nat);
                    }
                }
            }
            i += 1;
        }
    }

    fn from_bytes(settings: &Settings, buf: &[u8]) -> (storage: Self) {
        let w: u32 = settings.log_2m + settings.reg_width;
        let reg_width: u32 = settings.reg_width;
        assert(buf@.len() <= 0x1FFF_FFFF);
        let max_offset: u32 = (buf.len() as u32) * 8;
        proof {
            lemma_register_count(settings.log_2m);
            lemma_register_max(reg_width);
        }
        let reg_mask: u32 = (1u32 << reg_width) - 1;
        let mut res = Self::with_settings(settings);
        let mut i: u32 = 0;
        let mut offset: u32 = 0;
        while max_offset - offset >= w
            invariant
                settings.wf(),
                w == settings.log_2m + settings.reg_width,
                reg_width == settings.reg_width,
                reg_mask == (1u32 << reg_width) - 1,
                5 <= w <= 32,
                max_offset == 8 * buf@.len(),
                offset == i * w,
                offset <= max_offset,
                res.wf(),
                res.settings == *settings,
                res.buf@ == sparse_decoded(buf@, *settings, i as nat),
            decreases max_offset - offset,
        {
            assert((i + 1) * w == i * w + w && i <= i * w) by (nonlinear_arith)
                requires
                    w >= 1,
                    i >= 0,
            ;
            let (idx, pos) = calc_position(i, w as u8);
            let value: u32 = read_bits(buf, idx, pos, w as u8);
            proof {
                lemma_spelled_bits(buf@, i * w, w as nat);
                lemma_word_parts(value, settings.log_2m, reg_width);
            }
            let reg_num: u32 = value >> reg_width;
            let reg_value: u32 = value & reg_mask;
            res.buf.insert(reg_num, reg_value as u8);
            offset += w;
            i += 1;
        }
        proof {
            let total: int = 8 * (buf@.len() as int);
            assert(i == total / (w as int)) by (nonlinear_arith)
                requires
                    offset == i * w,
                    offset <= total,
                    total - offset < w,
                    w >= 1,
                    i >= 0,
            ;
        }
        res
    }

    fn clear(&mut self) {
        self.buf.clear();
    }
}

} // verus!
