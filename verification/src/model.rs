use vstd::prelude::*;
use crate::explicit::signed;
use crate::registers::{
    fit, ingested, ingested_set, lemma_fit_in_range, lemma_ingest_one_more,
    lemma_set_register_empty, lemma_set_register_in_range, lemma_set_register_touched, merged,
    merged_sparse, set_register, set_touches, sparse_reg,
};
use crate::settings::{lemma_register_count, lemma_register_max, lemma_sparse_threshold, Settings};
use crate::sparse::{lemma_ingest_one, sparse_ingested, sparse_ingested_set, sparse_merged};

verus! {

/// What an estimator holds, apart from its settings.
pub enum Payload {
    Empty,
    /// The values counted.
    Explicit(Set<i64>),
    /// The registers that were set, each under its number.
    Sparse(Map<u32, u8>),
    /// The values of all registers.
    Dense(Seq<u8>),
}

/// All registers at 0.
pub open spec fn zero_regs(settings: Settings) -> Seq<u8> {
    Seq::new(settings.m(), |i: int| 0u8)
}

/// All registers, those of a map cut down to a register's width, the others 0.
pub open spec fn dense_of(map: Map<u32, u8>, settings: Settings) -> Seq<u8> {
    Seq::new(settings.m(), |i: int| fit(sparse_reg(map, i), settings.reg_width))
}

/// All registers after every value of a set has been counted.
pub open spec fn set_regs(s: Set<i64>, settings: Settings) -> Seq<u8> {
    Seq::new(settings.m(), |i: int| set_register(s, settings, i))
}

/// A map of registers holds more entries than the sparse threshold allows.
pub open spec fn sparse_full(settings: Settings, map: Map<u32, u8>) -> bool {
    match settings.sparse_threshold {
        Some(threshold) => threshold < map.len(),
        None => true,
    }
}

/// A set of values holds more than the explicit threshold allows.
pub open spec fn explicit_full(settings: Settings, s: Set<i64>) -> bool {
    s.len() > settings.spec_explicit_threshold()
}

/// The registers that take over from a set of values: sparse where the map is in use and
/// not full, dense otherwise.
pub open spec fn promoted(settings: Settings, s: Set<i64>) -> Payload {
    let map = sparse_ingested_set(Map::empty(), settings, s);
    if settings.sparse_threshold is Some && !sparse_full(settings, map) {
        Payload::Sparse(map)
    } else {
        Payload::Dense(set_regs(s, settings))
    }
}

/// A storage that is full moves to the next one.
pub open spec fn settled(settings: Settings, p: Payload) -> Payload {
    match p {
        Payload::Explicit(s) => if explicit_full(settings, s) {
            promoted(settings, s)
        } else {
            p
        },
        Payload::Sparse(map) => if sparse_full(settings, map) {
            Payload::Dense(dense_of(map, settings))
        } else {
            p
        },
        _ => p,
    }
}

/// The storage that the first value goes to.
pub open spec fn started(settings: Settings, p: Payload) -> Payload {
    match p {
        Payload::Empty => if settings.spec_explicit_threshold() > 0 {
            Payload::Explicit(Set::empty())
        } else if settings.sparse_threshold is Some {
            Payload::Sparse(Map::empty())
        } else {
            Payload::Dense(zero_regs(settings))
        },
        _ => p,
    }
}

/// What an estimator holds after a raw value has been counted.
pub open spec fn added(settings: Settings, p: Payload, value: u64) -> Payload {
    if value == 0 {
        p
    } else {
        match started(settings, p) {
            Payload::Explicit(s) => settled(settings, Payload::Explicit(s.insert(signed(value)))),
            Payload::Sparse(map) => settled(settings, Payload::Sparse(sparse_ingested(map, settings, value))),
            Payload::Dense(regs) => Payload::Dense(ingested(regs, settings, value)),
            Payload::Empty => Payload::Empty,
        }
    }
}

/// Every register of a map lies among the registers of the settings.
pub open spec fn keys_fit(map: Map<u32, u8>, settings: Settings) -> bool {
    forall|k: u32| #[trigger] map.contains_key(k) ==> k < settings.m()
}

/// What a storage of registers holds after another estimator has been merged in.
pub open spec fn united_registers(settings: Settings, p: Payload, other: Payload) -> Payload {
    match p {
        Payload::Sparse(map) => match other {
            Payload::Empty => p,
            Payload::Explicit(s) => Payload::Sparse(sparse_ingested_set(map, settings, s)),
            Payload::Sparse(map2) => Payload::Sparse(sparse_merged(map, map2, settings.reg_width)),
            Payload::Dense(regs2) => Payload::Dense(merged(dense_of(map, settings), regs2, settings.reg_width)),
        },
        Payload::Dense(regs) => match other {
            Payload::Empty => p,
            Payload::Explicit(s) => Payload::Dense(ingested_set(regs, settings, s)),
            Payload::Sparse(map2) => Payload::Dense(merged_sparse(regs, map2, settings.reg_width)),
            Payload::Dense(regs2) => Payload::Dense(merged(regs, regs2, settings.reg_width)),
        },
        _ => p,
    }
}

/// The settings and what an estimator holds after another one has been merged in. An
/// empty estimator takes the other one over, with the other's settings unless it has to
/// make a sparse storage dense; any other keeps its own settings.
pub open spec fn united(settings: Settings, p: Payload, other_settings: Settings, other: Payload) -> (
    Settings,
    Payload,
) {
    match p {
        Payload::Empty => match other {
            Payload::Sparse(map2) => if settings.sparse_threshold is Some && !sparse_full(settings, map2) {
                (other_settings, settled(other_settings, other))
            } else {
                (settings, Payload::Dense(dense_of(map2, settings)))
            },
            _ => (other_settings, settled(other_settings, other)),
        },
        Payload::Explicit(s) => match other {
            Payload::Empty => (settings, settled(settings, p)),
            Payload::Explicit(more) => (settings, settled(settings, Payload::Explicit(s.union(more)))),
            _ => (settings, settled(settings, united_registers(settings, promoted(settings, s), other))),
        },
        _ => (settings, settled(settings, united_registers(settings, p, other))),
    }
}

/// The merges that stay within the registers of the estimator that is merged into.
pub open spec fn union_defined(settings: Settings, p: Payload, other: Payload) -> bool {
    match other {
        Payload::Sparse(map2) => (p is Empty && settings.sparse_threshold is Some && !sparse_full(settings, map2))
            || keys_fit(map2, settings),
        Payload::Dense(regs2) => p is Empty || regs2.len() <= settings.m(),
        _ => true,
    }
}

/// While the values of a set are counted one by one into registers, the registers are
/// sparse as long as the map of all values counted is not full, and dense from then on.
pub open spec fn promoting(settings: Settings, seen: Set<i64>, p: Payload) -> bool {
    let map = sparse_ingested_set(Map::empty(), settings, seen);
    &&& map.dom().finite()
    &&& match p {
        Payload::Sparse(m) => settings.sparse_threshold is Some && m == map && !sparse_full(settings, map),
        Payload::Dense(regs) => regs == set_regs(seen, settings) && (settings.sparse_threshold is None
            || sparse_full(settings, map)),
        _ => false,
    }
}

/// Counting a set's values into empty registers gives the registers of the set.
pub proof fn lemma_set_regs(settings: Settings, s: Set<i64>)
    ensures
        ingested_set(zero_regs(settings), settings, s) == set_regs(s, settings),
{
    assert(ingested_set(zero_regs(settings), settings, s) =~= set_regs(s, settings));
}

/// The map of a set's values, made dense, is the registers of the set.
pub proof fn lemma_dense_of_set(settings: Settings, s: Set<i64>)
    requires
        settings.wf(),
    ensures
        dense_of(sparse_ingested_set(Map::empty(), settings, s), settings) == set_regs(s, settings),
{
    let map = sparse_ingested_set(Map::empty(), settings, s);
    lemma_register_max(settings.reg_width);
    lemma_fit_in_range(0u8, settings.reg_width);
    lemma_register_count(settings.log_2m);
    assert forall|i: int| 0 <= i < settings.m() implies dense_of(map, settings)[i] == set_regs(s, settings)[i] by {
        lemma_set_register_touched(s, settings, i, 255);
        lemma_set_register_in_range(s, settings, i, 255);
        lemma_fit_in_range(set_register(s, settings, i), settings.reg_width);
    }
    assert(dense_of(map, settings) =~= set_regs(s, settings));
}

/// Before any value is counted, the registers that take over are empty.
pub proof fn lemma_promoted_none(settings: Settings)
    requires
        settings.wf(),
    ensures
        settings.sparse_threshold is Some ==> promoting(settings, Set::empty(), Payload::Sparse(Map::empty())),
        settings.sparse_threshold is None ==> promoting(settings, Set::empty(), Payload::Dense(zero_regs(settings))),
{
    let seen = Set::<i64>::empty();
    let map = sparse_ingested_set(Map::empty(), settings, seen);
    assert forall|k: u32| !set_touches(seen, settings, k as int) by {}
    assert(map =~= Map::<u32, u8>::empty());
    assert forall|i: int| 0 <= i < settings.m() implies set_register(seen, settings, i) == 0u8 by {
        lemma_set_register_empty(settings, i, 255);
    }
    assert(set_regs(seen, settings) =~= zero_regs(settings));
    lemma_sparse_threshold(settings.log_2m, settings.reg_width);
}

/// Counting one more value keeps the storage in step with the map of all values counted.
pub proof fn lemma_promoting_step(settings: Settings, seen: Set<i64>, p: Payload, v: i64)
    requires
        settings.wf(),
        promoting(settings, seen, p),
    ensures
        promoting(
            settings,
            seen.insert(v),
            match p {
                Payload::Sparse(map) => settled(settings, Payload::Sparse(sparse_ingested(map, settings, v as u64))),
                Payload::Dense(regs) => Payload::Dense(ingested(regs, settings, v as u64)),
                q => q,
            },
        ),
{
    let map = sparse_ingested_set(Map::empty(), settings, seen);
    let next = seen.insert(v);
    let map2 = sparse_ingested_set(Map::empty(), settings, next);
    lemma_ingest_one(Map::empty(), settings, seen, v);
    assert(map2 == sparse_ingested(map, settings, v as u64));
    assert(map.dom().subset_of(map2.dom()));
    assert(map2.dom().finite());
    vstd::set_lib::lemma_len_subset(map.dom(), map2.dom());
    lemma_dense_of_set(settings, next);
    match p {
        Payload::Sparse(m) => {},
        Payload::Dense(regs) => {
            lemma_set_regs(settings, seen);
            lemma_set_regs(settings, next);
            lemma_register_count(settings.log_2m);
            lemma_ingest_one_more(zero_regs(settings), settings, seen, v);
        },
        _ => {},
    }
}

/// When every value has been counted, the storage is the one that takes over from the set.
pub proof fn lemma_promoting_done(settings: Settings, s: Set<i64>, p: Payload)
    requires
        promoting(settings, s, p),
    ensures
        p == promoted(settings, s),
{
}

} // verus!
