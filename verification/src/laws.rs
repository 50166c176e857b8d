use vstd::prelude::*;
use crate::Hll;
use crate::explicit::signed;
use crate::model::{
    added, dense_of, explicit_full, promoted, set_regs, settled, sparse_full, started, united,
    united_registers, zero_regs, Payload,
};
use crate::registers::{
    fit, ingested, lemma_field_bound, lemma_fit_in_range, lemma_occurrences_update,
    lemma_occurrences_zero, lemma_set_register_bound, lemma_set_register_empty,
    lemma_set_register_in_range, lemma_set_register_insert, lemma_set_register_touched,
    lemma_set_register_union, max_u8, occurrences, set_register, set_register_upto, sparse_reg,
};
use crate::settings::{lemma_register_count, lemma_register_max, register_max, Settings};
use crate::sparse::{sparse_ingested, sparse_ingested_set, sparse_merged};

verus! {

/// The values of all registers of what an estimator holds: those of a set of values are
/// what the values give when they are counted.
pub open spec fn payload_regs(settings: Settings, p: Payload) -> Seq<u8> {
    match p {
        Payload::Empty => zero_regs(settings),
        Payload::Explicit(s) => set_regs(s, settings),
        Payload::Sparse(map) => Seq::new(settings.m(), |i: int| sparse_reg(map, i)),
        Payload::Dense(regs) => regs,
    }
}

/// The number of values counted, where the estimator knows it exactly.
pub open spec fn exact_count(p: Payload) -> Option<nat> {
    match p {
        Payload::Empty => Some(0nat),
        Payload::Explicit(s) => Some(s.len()),
        _ => None,
    }
}

/// What an estimator holds is consistent with its settings.
pub open spec fn payload_wf(settings: Settings, p: Payload) -> bool {
    match p {
        Payload::Empty => true,
        Payload::Explicit(s) => true,
        Payload::Sparse(map) => forall|k: u32| #[trigger]
            map.contains_key(k) ==> k < settings.m() && map[k] <= register_max(settings.reg_width),
        Payload::Dense(regs) => regs.len() == settings.m() && forall|i: int|
            0 <= i < regs.len() ==> #[trigger] regs[i] <= register_max(settings.reg_width),
    }
}

/// The storage holds more than its threshold allows.
pub open spec fn payload_full(settings: Settings, p: Payload) -> bool {
    match p {
        Payload::Explicit(s) => explicit_full(settings, s),
        Payload::Sparse(map) => sparse_full(settings, map),
        _ => false,
    }
}

/// What a consistent estimator holds is consistent with its settings, and its registers
/// are those of what it holds.
pub proof fn lemma_payload_of(h: Hll)
    requires
        h.wf(),
    ensures
        h.spec_settings().wf(),
        payload_wf(h.spec_settings(), h.payload()),
        payload_regs(h.spec_settings(), h.payload()) == h.regs(),
{
    match h {
        Hll::Dense(d) => {
            assert forall|i: int| 0 <= i < d.regs().len() implies #[trigger] d.regs()[i] <= register_max(
                d.settings.reg_width,
            ) by {
                lemma_field_bound(d.buf@, d.settings.reg_width, i);
            }
        },
        Hll::Sparse(s) => {
            assert(payload_regs(h.spec_settings(), h.payload()) =~= h.regs());
        },
        _ => {},
    }
}

/// The registers of a set of values are within a register's range.
pub proof fn lemma_set_regs_wf(settings: Settings, s: Set<i64>)
    requires
        settings.wf(),
    ensures
        payload_wf(settings, Payload::Dense(set_regs(s, settings))),
        payload_wf(settings, Payload::Sparse(sparse_ingested_set(Map::empty(), settings, s))),
        payload_regs(settings, Payload::Sparse(sparse_ingested_set(Map::empty(), settings, s))) == set_regs(s, settings),
{
    let map = sparse_ingested_set(Map::empty(), settings, s);
    lemma_register_count(settings.log_2m);
    assert forall|i: int| 0 <= i < settings.m() implies #[trigger] set_regs(s, settings)[i] <= register_max(
        settings.reg_width,
    ) by {
        lemma_set_register_in_range(s, settings, i, 255);
    }
    assert forall|k: u32| #[trigger] map.contains_key(k) implies k < settings.m() && map[k] <= register_max(
        settings.reg_width,
    ) by {
        lemma_set_register_in_range(s, settings, k as int, 255);
        let x = choose|x: i64|
            s.contains(x) && settings.spec_substream(x as u64) != 0 && settings.spec_register_index(x as u64)
                == k as int;
        settings.lemma_register_of(x as u64);
    }
    assert forall|i: int| 0 <= i < settings.m() implies sparse_reg(map, i) == set_register(s, settings, i) by {
        lemma_set_register_touched(s, settings, i, 255);
    }
    assert(payload_regs(settings, Payload::Sparse(map)) =~= set_regs(s, settings));
}

/// A storage that is full moves to the next one: an explicit storage to registers, a
/// sparse storage to a dense one; and what it moves to holds the same registers, is
/// consistent, and is not full.
pub proof fn law_full_moves_up(settings: Settings, p: Payload)
    requires
        settings.wf(),
        payload_wf(settings, p),
    ensures
        payload_wf(settings, settled(settings, p)),
        payload_regs(settings, settled(settings, p)) == payload_regs(settings, p),
        !payload_full(settings, settled(settings, p)),
        !payload_full(settings, p) ==> settled(settings, p) == p,
        p is Explicit && payload_full(settings, p) ==> settled(settings, p) is Sparse || settled(settings, p) is Dense,
        p is Sparse && payload_full(settings, p) ==> settled(settings, p) is Dense,
{
    match p {
        Payload::Explicit(s) => {
            lemma_set_regs_wf(settings, s);
        },
        Payload::Sparse(map) => {
            lemma_register_max(settings.reg_width);
            lemma_fit_in_range(0u8, settings.reg_width);
            assert forall|i: int| 0 <= i < settings.m() implies #[trigger] dense_of(map, settings)[i] == sparse_reg(
                map,
                i,
            ) by {
                lemma_fit_in_range(sparse_reg(map, i), settings.reg_width);
            }
            assert(dense_of(map, settings) =~= payload_regs(settings, p));
        },
        _ => {},
    }
}

/// Counting one value leaves what the estimator holds consistent, and raises the register
/// of the value to the value's register value unless more stood there; no other register
/// changes.
pub proof fn law_add_raw_registers(settings: Settings, p: Payload, value: u64)
    requires
        settings.wf(),
        payload_wf(settings, p),
    ensures
        payload_wf(settings, added(settings, p, value)),
        payload_regs(settings, added(settings, p, value)) == (if value == 0 {
            payload_regs(settings, p)
        } else {
            ingested(payload_regs(settings, p), settings, value)
        }),
{
    lemma_register_count(settings.log_2m);
    lemma_register_max(settings.reg_width);
    settings.lemma_register_of(value);
    if value != 0 {
        let begun = started(settings, p);
        assert(payload_regs(settings, begun) =~= payload_regs(settings, p) && payload_wf(settings, begun)) by {
            assert forall|i: int| 0 <= i < settings.m() implies set_register(Set::<i64>::empty(), settings, i)
                == 0u8 by {
                lemma_set_register_empty(settings, i, 255);
            }
        }
        let regs = payload_regs(settings, p);
        match begun {
            Payload::Explicit(s) => {
                let t = s.insert(signed(value));
                law_full_moves_up(settings, Payload::Explicit(t));
                assert forall|i: int| 0 <= i < settings.m() implies set_regs(t, settings)[i] == ingested(
                    regs,
                    settings,
                    value,
                )[i] by {
                    lemma_set_register_insert(s, settings, signed(value), i, 255);
                    lemma_set_register_bound(s, settings, i, 255);
                    lemma_signed(value);
                }
                assert(set_regs(t, settings) =~= ingested(regs, settings, value));
            },
            Payload::Sparse(map) => {
                let next = sparse_ingested(map, settings, value);
                lemma_fit_in_range(settings.spec_register_value(value), settings.reg_width);
                assert(payload_wf(settings, Payload::Sparse(next)));
                law_full_moves_up(settings, Payload::Sparse(next));
                assert(payload_regs(settings, Payload::Sparse(next)) =~= ingested(regs, settings, value));
            },
            Payload::Dense(r) => {},
            Payload::Empty => {},
        }
    }
}

/// A raw value taken as a signed number and back is the raw value.
pub proof fn lemma_signed(value: u64)
    ensures
        signed(value) as u64 == value,
{
    assert((value as i64) as u64 == value) by (bit_vector);
}

/// The first value: 0 is not counted; any other value is the one value of an explicit
/// storage where the settings have one, and else sets its register and no other.
pub proof fn law_first_value(settings: Settings, value: u64)
    requires
        settings.wf(),
    ensures
        value == 0 ==> added(settings, Payload::Empty, value) == Payload::Empty && exact_count(
            added(settings, Payload::Empty, value),
        ) == Some(0nat),
        value != 0 && settings.spec_explicit_threshold() > 0 ==> added(settings, Payload::Empty, value)
            == Payload::Explicit(Set::<i64>::empty().insert(signed(value))) && exact_count(
            added(settings, Payload::Empty, value),
        ) == Some(1nat),
        value != 0 ==> payload_regs(settings, added(settings, Payload::Empty, value)) == ingested(
            zero_regs(settings),
            settings,
            value,
        ),
{
    law_add_raw_registers(settings, Payload::Empty, value);
    if value != 0 && settings.spec_explicit_threshold() > 0 {
        let one = Set::<i64>::empty().insert(signed(value));
        assert(one.len() == 1);
    }
}

/// Where nothing is counted, every register holds 0.
pub proof fn law_nothing_counted(settings: Settings, v: u8)
    ensures
        occurrences(zero_regs(settings), v) == (if v == 0 {
            settings.m()
        } else {
            0nat
        }),
{
    lemma_occurrences_zero(zero_regs(settings), v);
}

/// Where the first value is counted in registers, its register holds its register value
/// and every other register holds 0.
pub proof fn law_first_value_registers(settings: Settings, value: u64, v: u8)
    requires
        settings.wf(),
        value != 0,
        settings.spec_substream(value) != 0,
    ensures
        occurrences(payload_regs(settings, added(settings, Payload::Empty, value)), v) == (if v == 0 {
            (settings.m() - 1) as nat
        } else if v == settings.spec_register_value(value) {
            1nat
        } else {
            0nat
        }),
{
    law_first_value(settings, value);
    settings.lemma_register_of(value);
    lemma_register_count(settings.log_2m);
    let none = zero_regs(settings);
    let i = settings.spec_register_index(value) as int;
    let p = settings.spec_register_value(value);
    lemma_occurrences_zero(none, v);
    lemma_occurrences_update(none, i, p, v);
    assert(ingested(none, settings, value) == none.update(i, p));
}

/// No register ever falls when a value is counted.
pub proof fn law_registers_grow(h: Hll, value: u64, i: int)
    requires
        h.wf(),
        0 <= i < h.spec_settings().m(),
    ensures
        payload_regs(h.spec_settings(), added(h.spec_settings(), h.payload(), value))[i] >= h.regs()[i],
{
    lemma_payload_of(h);
    law_add_raw_registers(h.spec_settings(), h.payload(), value);
    h.spec_settings().lemma_register_of(value);
}

/// As long as the values are kept, their number never falls when a value is counted, and
/// rises by one at most.
pub proof fn law_count_grows(settings: Settings, s: Set<i64>, value: u64)
    requires
        settings.wf(),
        s.finite(),
    ensures
        exact_count(added(settings, Payload::Explicit(s), value)) matches Some(n) ==> s.len() <= n <= s.len() + 1,
{
    if value != 0 {
        let t = s.insert(signed(value));
        if explicit_full(settings, t) {
        } else {
            assert(t.len() >= s.len());
        }
    }
}

/// Register by register, the larger value.
pub open spec fn max_regs(a: Seq<u8>, b: Seq<u8>) -> Seq<u8> {
    Seq::new(a.len(), |i: int| max_u8(a[i], b[i]))
}

/// Settings that lay the registers out alike count a value in the same register with the
/// same register value.
pub proof fn lemma_same_geometry_register(a: Settings, b: Settings, s: Set<i64>, k: int, bound: nat)
    requires
        a.wf(),
        b.wf(),
        a.same_geometry(&b),
    ensures
        set_register_upto(s, a, k, bound) == set_register_upto(s, b, k, bound),
        a.m() == b.m(),
    decreases bound,
{
    if bound > 0 {
        lemma_same_geometry_register(a, b, s, k, (bound - 1) as nat);
    }
}

/// Merging into a storage of registers gives, register by register, the larger value of
/// the two estimators.
pub proof fn lemma_united_registers(settings: Settings, p: Payload, other_settings: Settings, other: Payload)
    requires
        settings.wf(),
        other_settings.wf(),
        settings.same_geometry(&other_settings),
        payload_wf(settings, p),
        payload_wf(other_settings, other),
        p is Sparse || p is Dense,
    ensures
        payload_wf(settings, united_registers(settings, p, other)),
        payload_regs(settings, united_registers(settings, p, other)) == max_regs(
            payload_regs(settings, p),
            payload_regs(other_settings, other),
        ),
{
    let m = settings.m();
    let w = settings.reg_width;
    let a = payload_regs(settings, p);
    let b = payload_regs(other_settings, other);
    let u = united_registers(settings, p, other);
    lemma_register_count(settings.log_2m);
    lemma_register_max(w);
    lemma_fit_in_range(0u8, w);
    assert(other_settings.m() == m);
    assert forall|i: int| 0 <= i < m implies fit(#[trigger] b[i], w) == b[i] && b[i] <= register_max(w) by {
        match other {
            Payload::Explicit(s) => {
                lemma_set_register_in_range(s, other_settings, i, 255);
            },
            _ => {},
        }
        lemma_fit_in_range(b[i], w);
    }
    assert forall|i: int| 0 <= i < m implies fit(#[trigger] a[i], w) == a[i] && a[i] <= register_max(w) by {
        lemma_fit_in_range(a[i], w);
    }
    match other {
        Payload::Explicit(s) => {
            assert forall|i: int| 0 <= i < m implies set_register(s, settings, i) == #[trigger] b[i] by {
                lemma_same_geometry_register(settings, other_settings, s, i, 255);
            }
            match p {
                Payload::Sparse(map) => {
                    let map2 = sparse_ingested_set(map, settings, s);
                    assert forall|k: u32| #[trigger] map2.contains_key(k) implies k < m && map2[k] <= register_max(
                        w,
                    ) by {
                        if !map.contains_key(k) {
                            let x = choose|x: i64|
                                s.contains(x) && settings.spec_substream(x as u64) != 0
                                    && settings.spec_register_index(x as u64) == k as int;
                            settings.lemma_register_of(x as u64);
                        }
                        assert(b[k as int] <= register_max(w));
                    }
                    assert forall|i: int| 0 <= i < m implies sparse_reg(map2, i) == max_u8(a[i], b[i]) by {
                        lemma_set_register_touched(s, settings, i, 255);
                    }
                },
                _ => {},
            }
        },
        Payload::Sparse(map2) => {
            assert forall|i: int| 0 <= i < m implies fit(sparse_reg(map2, i), w) == sparse_reg(map2, i) by {
                assert(b[i] == sparse_reg(map2, i));
            }
            match p {
                Payload::Sparse(map) => {
                    let joined = sparse_merged(map, map2, w);
                    assert forall|k: u32| #[trigger] joined.contains_key(k) implies k < m && joined[k]
                        <= register_max(w) by {
                        assert(fit(sparse_reg(map2, k as int), w) == sparse_reg(map2, k as int));
                    }
                    assert forall|i: int| 0 <= i < m implies sparse_reg(joined, i) == max_u8(a[i], b[i]) by {
                        assert(fit(sparse_reg(map2, i), w) == sparse_reg(map2, i));
                    }
                },
                _ => {},
            }
        },
        Payload::Dense(regs2) => {
            match p {
                Payload::Sparse(map) => {
                    assert forall|i: int| 0 <= i < m implies fit(sparse_reg(map, i), w) == sparse_reg(map, i) by {
                        assert(a[i] == sparse_reg(map, i));
                    }
                },
                _ => {},
            }
        },
        Payload::Empty => {},
    }
    assert(payload_regs(settings, u) =~= max_regs(a, b));
}

/// Merging gives, register by register, the larger value of the two estimators, whatever
/// their storages, where both lay their registers out alike.
pub proof fn law_union_registers(a: Hll, b: Hll)
    requires
        a.wf(),
        b.wf(),
        a.spec_settings().same_geometry(&b.spec_settings()),
    ensures
        ({
            let u = united(a.spec_settings(), a.payload(), b.spec_settings(), b.payload());
            &&& u.0.wf()
            &&& u.0.same_geometry(&a.spec_settings())
            &&& payload_wf(u.0, u.1)
            &&& payload_regs(u.0, u.1) == max_regs(a.regs(), b.regs())
        }),
{
    let sa = a.spec_settings();
    let sb = b.spec_settings();
    let pa = a.payload();
    let pb = b.payload();
    let m = sa.m();
    let w = sa.reg_width;
    lemma_payload_of(a);
    lemma_payload_of(b);
    lemma_register_count(sa.log_2m);
    lemma_register_max(w);
    lemma_fit_in_range(0u8, w);
    assert(sb.m() == m);
    let u = united(sa, pa, sb, pb);
    match pa {
        Payload::Empty => {
            law_full_moves_up(sb, pb);
            match pb {
                Payload::Sparse(map2) => {
                    if !(sa.sparse_threshold is Some && !sparse_full(sa, map2)) {
                        assert forall|i: int| 0 <= i < m implies #[trigger] dense_of(map2, sa)[i] == sparse_reg(
                            map2,
                            i,
                        ) by {
                            lemma_fit_in_range(sparse_reg(map2, i), w);
                        }
                    }
                },
                _ => {},
            }
            assert(payload_regs(u.0, u.1) =~= max_regs(a.regs(), b.regs()));
        },
        Payload::Explicit(s) => {
            match pb {
                Payload::Empty => {
                    law_full_moves_up(sa, pa);
                    assert(payload_regs(u.0, u.1) =~= max_regs(a.regs(), b.regs()));
                },
                Payload::Explicit(more) => {
                    let both = Payload::Explicit(s.union(more));
                    law_full_moves_up(sa, both);
                    assert forall|i: int| 0 <= i < m implies set_register(s.union(more), sa, i) == max_u8(
                        a.regs()[i],
                        b.regs()[i],
                    ) by {
                        lemma_set_register_union(s, more, sa, i, 255);
                        lemma_same_geometry_register(sa, sb, more, i, 255);
                        lemma_set_register_bound(s, sa, i, 255);
                        lemma_set_register_bound(more, sa, i, 255);
                    }
                    assert(payload_regs(u.0, u.1) =~= max_regs(a.regs(), b.regs()));
                },
                _ => {
                    let up = promoted(sa, s);
                    lemma_set_regs_wf(sa, s);
                    lemma_united_registers(sa, up, sb, pb);
                    law_full_moves_up(sa, united_registers(sa, up, pb));
                },
            }
        },
        _ => {
            lemma_united_registers(sa, pa, sb, pb);
            law_full_moves_up(sa, united_registers(sa, pa, pb));
        },
    }
}

/// Merging one estimator into another and the other into the one give the same registers,
/// whatever the storages, where both lay their registers out alike.
pub proof fn law_union_commutes(a: Hll, b: Hll)
    requires
        a.wf(),
        b.wf(),
        a.spec_settings().same_geometry(&b.spec_settings()),
    ensures
        ({
            let ab = united(a.spec_settings(), a.payload(), b.spec_settings(), b.payload());
            let ba = united(b.spec_settings(), b.payload(), a.spec_settings(), a.payload());
            payload_regs(ab.0, ab.1) == payload_regs(ba.0, ba.1)
        }),
{
    law_union_registers(a, b);
    law_union_registers(b, a);
    lemma_payload_of(a);
    lemma_payload_of(b);
    lemma_register_count(a.spec_settings().log_2m);
    assert(max_regs(a.regs(), b.regs()) =~= max_regs(b.regs(), a.regs()));
}

/// Merging an empty estimator into one that is not full changes nothing; merging an
/// estimator into an empty one gives the empty one the other's registers.
pub proof fn law_union_with_empty(h: Hll, empty: Settings)
    requires
        h.wf(),
        empty.wf(),
        empty.same_geometry(&h.spec_settings()),
    ensures
        !payload_full(h.spec_settings(), h.payload()) && (h is Empty ==> empty == h.spec_settings()) ==> united(
            h.spec_settings(),
            h.payload(),
            empty,
            Payload::Empty,
        ) == (h.spec_settings(), h.payload()),
        ({
            let u = united(empty, Payload::Empty, h.spec_settings(), h.payload());
            payload_regs(u.0, u.1) == h.regs()
        }),
{
    lemma_payload_of(h);
    law_union_registers(Hll::Empty(empty), h);
    lemma_register_count(empty.log_2m);
    assert(max_regs(zero_regs(empty), h.regs()) =~= h.regs());
}

} // verus!
