use vstd::prelude::*;
use crate::settings::{lemma_register_max, register_max, Settings};
use crate::utils::{bit_at, bits_value, bits_written, lemma_same_bits, lemma_spelled_bits, low_bits};

verus! {

/// The larger of two register values.
pub open spec fn max_u8(a: u8, b: u8) -> u8 {
    if a >= b {
        a
    } else {
        b
    }
}

/// A register value cut down to a register's width.
pub open spec fn fit(value: u8, reg_width: u32) -> u8 {
    low_bits(value as u32, reg_width as nat) as u8
}

/// The registers after `value` has been set at `reg_num` unless a greater value stood there.
pub open spec fn raised(regs: Seq<u8>, reg_num: int, value: u8) -> Seq<u8> {
    regs.update(reg_num, max_u8(regs[reg_num], value))
}

/// The registers after a raw value has been counted.
pub open spec fn ingested(regs: Seq<u8>, settings: Settings, value: u64) -> Seq<u8> {
    if settings.spec_substream(value) == 0 {
        regs
    } else {
        raised(regs, settings.spec_register_index(value) as int, settings.spec_register_value(value))
    }
}

/// The registers after those of another estimator have been merged in: register by
/// register the larger value, the other's cut down to this one's width.
pub open spec fn merged(regs: Seq<u8>, other: Seq<u8>, reg_width: u32) -> Seq<u8> {
    Seq::new(
        regs.len(),
        |i: int|
            if i < other.len() {
                max_u8(regs[i], fit(other[i], reg_width))
            } else {
                regs[i]
            },
    )
}

/// A raw value is counted in register `k` with register value `r`.
pub open spec fn hits(settings: Settings, v: i64, k: int, r: int) -> bool {
    &&& settings.spec_substream(v as u64) != 0
    &&& settings.spec_register_index(v as u64) == k
    &&& settings.spec_register_value(v as u64) == r
}

/// The largest register value up to `bound` with which a value of the set is counted in
/// register `k`, or 0 where none is.
pub open spec fn set_register_upto(s: Set<i64>, settings: Settings, k: int, bound: nat) -> nat
    decreases bound,
{
    if bound == 0 {
        0
    } else if exists|v: i64| s.contains(v) && hits(settings, v, k, bound as int) {
        bound
    } else {
        set_register_upto(s, settings, k, (bound - 1) as nat)
    }
}

/// Register `k` after every value of the set has been counted into empty registers.
pub open spec fn set_register(s: Set<i64>, settings: Settings, k: int) -> u8 {
    set_register_upto(s, settings, k, 255) as u8
}

/// Some value of the set is counted in register `k`.
pub open spec fn set_touches(s: Set<i64>, settings: Settings, k: int) -> bool {
    exists|v: i64| s.contains(v) && settings.spec_substream(v as u64) != 0 && settings.spec_register_index(v as u64) == k
}

/// What one raw value adds to register `k`: its register value there, 0 elsewhere.
pub open spec fn contribution(settings: Settings, v: i64, k: int) -> u8 {
    if settings.spec_substream(v as u64) != 0 && settings.spec_register_index(v as u64) == k {
        settings.spec_register_value(v as u64)
    } else {
        0
    }
}

/// Register `i` of a map of registers: 0 where the map has no entry.
pub open spec fn sparse_reg(map: Map<u32, u8>, i: int) -> u8 {
    if 0 <= i <= u32::MAX && map.contains_key(i as u32) {
        map[i as u32]
    } else {
        0
    }
}

/// The registers after a map of registers has been merged in: register by register the
/// larger value, the map's cut down to this one's width.
pub open spec fn merged_sparse(regs: Seq<u8>, map: Map<u32, u8>, reg_width: u32) -> Seq<u8> {
    Seq::new(regs.len(), |i: int| max_u8(regs[i], fit(sparse_reg(map, i), reg_width)))
}

/// The registers after every value of a set has been counted.
pub open spec fn ingested_set(regs: Seq<u8>, settings: Settings, s: Set<i64>) -> Seq<u8> {
    Seq::new(regs.len(), |i: int| max_u8(regs[i], set_register(s, settings, i)))
}

/// What a set gives a register up to a bound is no more than the bound.
pub proof fn lemma_set_register_bound(s: Set<i64>, settings: Settings, k: int, bound: nat)
    ensures
        set_register_upto(s, settings, k, bound) <= bound,
    decreases bound,
{
    if bound > 0 {
        lemma_set_register_bound(s, settings, k, (bound - 1) as nat);
    }
}

/// Counting one more value raises a register to that value's contribution, if that is more.
pub proof fn lemma_set_register_insert(s: Set<i64>, settings: Settings, v: i64, k: int, bound: nat)
    requires
        settings.wf(),
    ensures
        set_register_upto(s.insert(v), settings, k, bound) == (if contribution(settings, v, k) <= bound
            && contribution(settings, v, k) > set_register_upto(s, settings, k, bound) {
            contribution(settings, v, k) as nat
        } else {
            set_register_upto(s, settings, k, bound)
        }),
    decreases bound,
{
    settings.lemma_register_of(v as u64);
    if bound > 0 {
        let b = (bound - 1) as nat;
        lemma_set_register_insert(s, settings, v, k, b);
        lemma_set_register_bound(s, settings, k, b);
        let t = s.insert(v);
        if exists|x: i64| s.contains(x) && hits(settings, x, k, bound as int) {
            let x = choose|x: i64| s.contains(x) && hits(settings, x, k, bound as int);
            assert(t.contains(x));
        } else if hits(settings, v, k, bound as int) {
            assert(t.contains(v));
        } else {
            if exists|x: i64| t.contains(x) && hits(settings, x, k, bound as int) {
                let x = choose|x: i64| t.contains(x) && hits(settings, x, k, bound as int);
                assert(x == v || s.contains(x));
            }
        }
    }
}

/// Counting two sets together gives, register by register, the larger of what each gives.
pub proof fn lemma_set_register_union(a: Set<i64>, b: Set<i64>, settings: Settings, k: int, bound: nat)
    ensures
        set_register_upto(a.union(b), settings, k, bound) == (if set_register_upto(a, settings, k, bound)
            >= set_register_upto(b, settings, k, bound) {
            set_register_upto(a, settings, k, bound)
        } else {
            set_register_upto(b, settings, k, bound)
        }),
    decreases bound,
{
    if bound > 0 {
        let c = (bound - 1) as nat;
        lemma_set_register_union(a, b, settings, k, c);
        lemma_set_register_bound(a, settings, k, c);
        lemma_set_register_bound(b, settings, k, c);
        let t = a.union(b);
        if exists|x: i64| a.contains(x) && hits(settings, x, k, bound as int) {
            let x = choose|x: i64| a.contains(x) && hits(settings, x, k, bound as int);
            assert(t.contains(x));
        } else if exists|x: i64| b.contains(x) && hits(settings, x, k, bound as int) {
            let x = choose|x: i64| b.contains(x) && hits(settings, x, k, bound as int);
            assert(t.contains(x));
        } else {
            if exists|x: i64| t.contains(x) && hits(settings, x, k, bound as int) {
                let x = choose|x: i64| t.contains(x) && hits(settings, x, k, bound as int);
                assert(a.contains(x) || b.contains(x));
            }
        }
    }
}

/// What a set gives a register is within a register's range.
pub proof fn lemma_set_register_in_range(s: Set<i64>, settings: Settings, k: int, bound: nat)
    requires
        settings.wf(),
    ensures
        set_register_upto(s, settings, k, bound) <= register_max(settings.reg_width),
    decreases bound,
{
    lemma_register_max(settings.reg_width);
    if bound > 0 {
        lemma_set_register_in_range(s, settings, k, (bound - 1) as nat);
        if exists|x: i64| s.contains(x) && hits(settings, x, k, bound as int) {
            let x = choose|x: i64| s.contains(x) && hits(settings, x, k, bound as int);
            settings.lemma_register_of(x as u64);
        }
    }
}

/// Nothing counted leaves a register at 0.
pub proof fn lemma_set_register_empty(settings: Settings, k: int, bound: nat)
    ensures
        set_register_upto(Set::<i64>::empty(), settings, k, bound) == 0,
    decreases bound,
{
    if bound > 0 {
        lemma_set_register_empty(settings, k, (bound - 1) as nat);
    }
}

/// A register that no value of the set is counted in stays at 0, and one that some value
/// is counted in does not.
pub proof fn lemma_set_register_touched(s: Set<i64>, settings: Settings, k: int, bound: nat)
    requires
        settings.wf(),
    ensures
        !set_touches(s, settings, k) ==> set_register_upto(s, settings, k, bound) == 0,
        bound == 255 && set_touches(s, settings, k) ==> set_register_upto(s, settings, k, bound) >= 1,
    decreases bound,
{
    if bound > 0 {
        lemma_set_register_touched(s, settings, k, (bound - 1) as nat);
        if exists|x: i64| s.contains(x) && hits(settings, x, k, bound as int) {
            let x = choose|x: i64| s.contains(x) && hits(settings, x, k, bound as int);
            assert(set_touches(s, settings, k));
        }
    }
    if bound == 255 && set_touches(s, settings, k) {
        let x = choose|x: i64|
            s.contains(x) && settings.spec_substream(x as u64) != 0 && settings.spec_register_index(x as u64)
                == k;
        settings.lemma_register_of(x as u64);
        lemma_register_max(settings.reg_width);
        let r = settings.spec_register_value(x as u64);
        lemma_set_register_reaches(s, settings, x, k, 255);
    }
}

/// A register is at least what any value of the set contributes to it.
pub proof fn lemma_set_register_reaches(s: Set<i64>, settings: Settings, v: i64, k: int, bound: nat)
    requires
        s.contains(v),
        contribution(settings, v, k) <= bound,
    ensures
        set_register_upto(s, settings, k, bound) >= contribution(settings, v, k),
    decreases bound,
{
    if bound > 0 {
        if contribution(settings, v, k) == bound {
            assert(hits(settings, v, k, bound as int));
        } else if exists|x: i64| s.contains(x) && hits(settings, x, k, bound as int) {
        } else {
            lemma_set_register_reaches(s, settings, v, k, (bound - 1) as nat);
        }
    }
}

/// Counting one more value into registers that hold a set's values gives the registers
/// that hold the larger set's.
pub proof fn lemma_ingest_one_more(regs: Seq<u8>, settings: Settings, s: Set<i64>, v: i64)
    requires
        settings.wf(),
        regs.len() == settings.m(),
    ensures
        ingested(ingested_set(regs, settings, s), settings, v as u64) == ingested_set(
            regs,
            settings,
            s.insert(v),
        ),
{
    let cur = ingested_set(regs, settings, s);
    let goal = ingested_set(regs, settings, s.insert(v));
    let got = ingested(cur, settings, v as u64);
    settings.lemma_register_of(v as u64);
    lemma_register_max(settings.reg_width);
    assert forall|i: int| 0 <= i < regs.len() implies got[i] == goal[i] by {
        lemma_set_register_insert(s, settings, v, i, 255);
        lemma_set_register_bound(s, settings, i, 255);
    }
    assert(got =~= goal);
}

/// How often a value occurs among register values.
pub open spec fn occurrences(values: Seq<u8>, v: u8) -> nat
    decreases values.len(),
{
    if values.len() == 0 {
        0
    } else {
        occurrences(values.drop_last(), v) + if values.last() == v {
            1nat
        } else {
            0nat
        }
    }
}

/// A value occurs at most as often as there are values.
pub proof fn lemma_occurrences_bound(values: Seq<u8>, v: u8)
    ensures
        occurrences(values, v) <= values.len(),
    decreases values.len(),
{
    if values.len() > 0 {
        lemma_occurrences_bound(values.drop_last(), v);
    }
}

/// One more value is one more occurrence of that value, and of no other.
pub proof fn lemma_occurrences_push(values: Seq<u8>, last: u8, v: u8)
    ensures
        occurrences(values.push(last), v) == occurrences(values, v) + if last == v {
            1nat
        } else {
            0nat
        },
{
    assert(values.push(last).drop_last() =~= values);
}

/// A value set at one place takes one occurrence from the value that stood there and
/// gives one to the value set.
pub proof fn lemma_occurrences_update(values: Seq<u8>, i: int, x: u8, v: u8)
    requires
        0 <= i < values.len(),
    ensures
        occurrences(values.update(i, x), v) + (if values[i] == v {
            1nat
        } else {
            0nat
        }) == occurrences(values, v) + (if x == v {
            1nat
        } else {
            0nat
        }),
    decreases values.len(),
{
    let changed = values.update(i, x);
    if i == values.len() - 1 {
        assert(changed.drop_last() =~= values.drop_last());
    } else {
        lemma_occurrences_update(values.drop_last(), i, x, v);
        assert(changed.drop_last() =~= values.drop_last().update(i, x));
    }
}

/// Among values that are all 0, only 0 occurs.
pub proof fn lemma_occurrences_zero(values: Seq<u8>, v: u8)
    requires
        forall|i: int| 0 <= i < values.len() ==> #[trigger] values[i] == 0u8,
    ensures
        occurrences(values, v) == (if v == 0 {
            values.len()
        } else {
            0nat
        }),
    decreases values.len(),
{
    if values.len() > 0 {
        lemma_occurrences_zero(values.drop_last(), v);
    }
}

/// The field of register `i` in a packed register array.
pub open spec fn field(buf: Seq<u8>, reg_width: u32, i: int) -> u8 {
    bits_value(buf, i * reg_width, reg_width as nat) as u8
}

/// A value that is within a register's range is not changed by cutting it down.
pub proof fn lemma_fit_in_range(value: u8, reg_width: u32)
    requires
        1 <= reg_width <= 8,
        value <= register_max(reg_width),
    ensures
        fit(value, reg_width) == value,
{
    let v = value as u32;
    lemma_register_max(reg_width);
    assert(v & (((1u32 << reg_width) - 1) as u32) == v) by (bit_vector)
        requires
            1 <= reg_width <= 8,
            v <= (1u32 << reg_width) - 1,
    ;
}

/// The mask of a register's bits is a register's largest value, and cuts a value down to a
/// register's width.
pub proof fn lemma_field_mask(value: u8, reg_width: u32)
    requires
        1 <= reg_width <= 8,
    ensures
        (0xFFu8 >> ((8 - reg_width) as u8)) == register_max(reg_width),
        (value & (0xFFu8 >> ((8 - reg_width) as u8))) == fit(value, reg_width),
{
    let v = value as u32;
    let w = reg_width;
    lemma_register_max(reg_width);
    assert(((value & (0xFFu8 >> ((8 - w) as u8))) as u32) == (v & (((1u32 << w) - 1) as u32)) && (0xFFu8 >> ((8
        - w) as u8)) == (1u32 << w) - 1) by (bit_vector)
        requires
            1 <= w <= 8,
            v == value as u32,
    ;
}

/// What has been cut down to a register's width is within a register's range.
pub proof fn lemma_fit_bound(value: u8, reg_width: u32)
    requires
        1 <= reg_width <= 8,
    ensures
        fit(value, reg_width) <= register_max(reg_width),
        low_bits(value as u32, reg_width as nat) <= 255,
{
    let v = value as u32;
    lemma_register_max(reg_width);
    assert((v & (((1u32 << reg_width) - 1) as u32)) <= (1u32 << reg_width) - 1 && (v & (((1u32
        << reg_width) - 1) as u32)) <= 255) by (bit_vector)
        requires
            1 <= reg_width <= 8,
            v <= 255,
    ;
}

/// A field of a packed register array is within a register's range.
pub proof fn lemma_field_bound(buf: Seq<u8>, reg_width: u32, i: int)
    requires
        1 <= reg_width <= 8,
    ensures
        bits_value(buf, i * reg_width, reg_width as nat) <= register_max(reg_width),
        field(buf, reg_width, i) == bits_value(buf, i * reg_width, reg_width as nat),
{
    lemma_spelled_bits(buf, i * reg_width, reg_width as nat);
    let r = bits_value(buf, i * reg_width, reg_width as nat) as u32;
    lemma_register_max(reg_width);
    assert(r <= (1u32 << reg_width) - 1 && r <= 255) by (bit_vector)
        requires
            1 <= reg_width <= 8,
            r >> reg_width == 0,
    ;
}

/// A write into one register's field leaves every other register's field as it was.
pub proof fn lemma_other_field(before: Seq<u8>, after: Seq<u8>, reg_width: u32, i: int, value: u32, j: int)
    requires
        1 <= reg_width <= 8,
        0 <= i,
        0 <= j,
        i != j,
        (j + 1) * reg_width <= 8 * before.len(),
        bits_written(before, after, i * reg_width, reg_width as nat, value),
    ensures
        field(after, reg_width, j) == field(before, reg_width, j),
{
    let w = reg_width as int;
    assert(j < i ==> (j + 1) * w <= i * w) by (nonlinear_arith)
        requires
            1 <= w,
    ;
    assert(i < j ==> (i + 1) * w <= j * w) by (nonlinear_arith)
        requires
            1 <= w,
    ;
    assert((j + 1) * w == j * w + w) by (nonlinear_arith);
    assert((i + 1) * w == i * w + w) by (nonlinear_arith);
    assert(0 <= j * w) by (nonlinear_arith)
        requires
            0 <= j,
            1 <= w,
    ;
    assert forall|k: int| j * w <= k < j * w + w implies #[trigger] bit_at(after, k) == bit_at(before, k) by {}
    lemma_same_bits(after, before, j * w, reg_width as nat);
}

} // verus!
