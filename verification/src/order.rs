use vstd::prelude::*;
use std::collections::{BTreeMap, BTreeSet};
use vstd::laws_cmp::{
    obeys_cmp, obeys_cmp_ord, obeys_cmp_partial_ord, obeys_partial_cmp_spec_properties,
};
use vstd::laws_eq::{obeys_eq, obeys_eq_spec_properties};
use vstd::std_specs::btree::increasing_seq;
use vstd::std_specs::cmp::OrdSpec;
use vstd::std_specs::iter::IteratorSpec;

verus! {

/// Each element is smaller than the next.
pub open spec fn ascending_i64(q: Seq<i64>) -> bool {
    forall|i: int, j: int| 0 <= i < j < q.len() ==> q[i] < q[j]
}

/// Each element is smaller than the next.
pub open spec fn ascending_u32(q: Seq<u32>) -> bool {
    forall|i: int, j: int| 0 <= i < j < q.len() ==> q[i] < q[j]
}

/// `q` lists the elements of `s`, smallest first.
pub open spec fn lists_values(q: Seq<i64>, s: Set<i64>) -> bool {
    &&& ascending_i64(q)
    &&& forall|v: i64| s.contains(v) <==> q.contains(v)
}

/// `q` lists the keys of `m`, smallest first.
pub open spec fn lists_keys(q: Seq<u32>, m: Map<u32, u8>) -> bool {
    &&& ascending_u32(q)
    &&& forall|k: u32| m.contains_key(k) <==> q.contains(k)
}

/// The elements of a set, smallest first.
pub open spec fn sorted_values(s: Set<i64>) -> Seq<i64> {
    choose|q: Seq<i64>| lists_values(q, s)
}

/// The keys of a map, smallest first.
pub open spec fn sorted_keys(m: Map<u32, u8>) -> Seq<u32> {
    choose|q: Seq<u32>| lists_keys(q, m)
}

/// The entries of a map, by key, smallest first.
pub open spec fn sorted_entries(m: Map<u32, u8>) -> Seq<(u32, u8)> {
    Seq::new(sorted_keys(m).len(), |i: int| (sorted_keys(m)[i], m[sorted_keys(m)[i]]))
}

/// The keys of a map that are smaller than `n`, smallest first.
pub open spec fn keys_below(m: Map<u32, u8>, n: nat) -> Seq<u32>
    decreases n,
{
    if n == 0 {
        Seq::empty()
    } else if m.contains_key((n - 1) as u32) {
        keys_below(m, (n - 1) as nat).push((n - 1) as u32)
    } else {
        keys_below(m, (n - 1) as nat)
    }
}

/// The elements of a set that are smaller than `i64::MIN + n`, smallest first.
pub open spec fn values_below(s: Set<i64>, n: nat) -> Seq<i64>
    decreases n,
{
    if n == 0 {
        Seq::empty()
    } else if s.contains((i64::MIN + n - 1) as i64) {
        values_below(s, (n - 1) as nat).push((i64::MIN + n - 1) as i64)
    } else {
        values_below(s, (n - 1) as nat)
    }
}

/// The keys below a bound are in ascending order, and no key below the bound is missing.
pub proof fn lemma_keys_below(m: Map<u32, u8>, n: nat)
    requires
        n <= 0x1_0000_0000,
    ensures
        ascending_u32(keys_below(m, n)),
        forall|k: u32| #[trigger] keys_below(m, n).contains(k) <==> m.contains_key(k) && k < n,
    decreases n,
{
    if n > 0 {
        let rest = keys_below(m, (n - 1) as nat);
        let top = (n - 1) as u32;
        lemma_keys_below(m, (n - 1) as nat);
        let q = keys_below(m, n);
        if m.contains_key(top) {
            assert forall|i: int, j: int| 0 <= i < j < q.len() implies q[i] < q[j] by {
                assert(q[i] == rest[i]);
                if j == q.len() - 1 {
                    assert(rest.contains(rest[i]));
                    assert(q[j] == top);
                    assert(q[i] < q[j]);
                } else {
                    assert(q[j] == rest[j]);
                    assert(rest[i] < rest[j]);
                    assert(q[i] < q[j]);
                }
            }
            assert forall|k: u32| #[trigger] q.contains(k) <==> m.contains_key(k) && k < n by {
                if q.contains(k) {
                    let i = choose|i: int| 0 <= i < q.len() && q[i] == k;
                    if i < rest.len() {
                        assert(rest.contains(rest[i]));
                    }
                }
                if m.contains_key(k) && k < n {
                    if k == top {
                        assert(q[q.len() - 1] == k);
                    } else {
                        assert(rest.contains(k));
                        let i = choose|i: int| 0 <= i < rest.len() && rest[i] == k;
                        assert(q[i] == k);
                    }
                }
            }
        }
    }
}

/// The values below a bound are in ascending order, and no value below the bound is
/// missing.
pub proof fn lemma_values_below(s: Set<i64>, n: nat)
    requires
        n <= 0x1_0000_0000_0000_0000,
    ensures
        ascending_i64(values_below(s, n)),
        forall|v: i64| #[trigger] values_below(s, n).contains(v) <==> s.contains(v) && v < i64::MIN + n,
    decreases n,
{
    if n > 0 {
        let rest = values_below(s, (n - 1) as nat);
        let top = (i64::MIN + n - 1) as i64;
        lemma_values_below(s, (n - 1) as nat);
        let q = values_below(s, n);
        if s.contains(top) {
            assert forall|i: int, j: int| 0 <= i < j < q.len() implies q[i] < q[j] by {
                assert(q[i] == rest[i]);
                if j == q.len() - 1 {
                    assert(rest.contains(rest[i]));
                    assert(q[j] == top);
                    assert(q[i] < q[j]);
                } else {
                    assert(q[j] == rest[j]);
                    assert(rest[i] < rest[j]);
                    assert(q[i] < q[j]);
                }
            }
            assert forall|v: i64| #[trigger] q.contains(v) <==> s.contains(v) && v < i64::MIN + n by {
                if q.contains(v) {
                    let i = choose|i: int| 0 <= i < q.len() && q[i] == v;
                    if i < rest.len() {
                        assert(rest.contains(rest[i]));
                    }
                }
                if s.contains(v) && v < i64::MIN + n {
                    if v == top {
                        assert(q[q.len() - 1] == v);
                    } else {
                        assert(rest.contains(v));
                        let i = choose|i: int| 0 <= i < rest.len() && rest[i] == v;
                        assert(q[i] == v);
                    }
                }
            }
        }
    }
}

/// Every set has its sorted sequence, and every map its sorted keys.
pub proof fn lemma_listings_exist(s: Set<i64>, m: Map<u32, u8>)
    ensures
        lists_values(sorted_values(s), s),
        lists_keys(sorted_keys(m), m),
{
    lemma_values_below(s, 0x1_0000_0000_0000_0000);
    assert(lists_values(values_below(s, 0x1_0000_0000_0000_0000), s));
    lemma_keys_below(m, 0x1_0000_0000);
    assert(lists_keys(keys_below(m, 0x1_0000_0000), m));
}

/// A map has as many sorted keys as it has entries, and a set as many sorted values as it
/// has elements.
pub proof fn lemma_listing_len(s: Set<i64>, m: Map<u32, u8>)
    ensures
        sorted_values(s).len() == s.len(),
        sorted_keys(m).len() == m.dom().len(),
        sorted_entries(m).len() == m.dom().len(),
{
    lemma_listings_exist(s, m);
    let q = sorted_values(s);
    assert(q.no_duplicates());
    q.unique_seq_to_set();
    assert(q.to_set() =~= s);
    let keys = sorted_keys(m);
    assert(keys.no_duplicates());
    keys.unique_seq_to_set();
    assert(keys.to_set() =~= m.dom());
}

/// The keys of an ascending sequence are at least their places in it.
pub proof fn lemma_ascending_places(q: Seq<u32>, i: int)
    requires
        ascending_u32(q),
        0 <= i < q.len(),
    ensures
        q[i] >= i,
    decreases i,
{
    if i > 0 {
        lemma_ascending_places(q, i - 1);
        assert(q[i - 1] < q[i]);
    }
}

/// Two ascending sequences with the same elements are the same sequence.
pub proof fn lemma_one_listing(a: Seq<int>, b: Seq<int>)
    requires
        forall|i: int, j: int| 0 <= i < j < a.len() ==> a[i] < a[j],
        forall|i: int, j: int| 0 <= i < j < b.len() ==> b[i] < b[j],
        forall|v: int| a.contains(v) <==> b.contains(v),
    ensures
        a == b,
    decreases a.len(),
{
    if a.len() == 0 {
        if b.len() > 0 {
            assert(b.contains(b[0]));
            assert(a.contains(b[0]));
        }
        assert(a =~= b);
    } else {
        let x = a.last();
        assert(a.contains(x));
        assert(b.contains(x));
        let t = choose|t: int| 0 <= t < b.len() && b[t] == x;
        let y = b.last();
        assert(b.contains(y));
        assert(a.contains(y));
        let u = choose|u: int| 0 <= u < a.len() && a[u] == y;
        assert(y <= x);
        assert(x <= y);
        let a0 = a.drop_last();
        let b0 = b.drop_last();
        assert forall|v: int| a0.contains(v) <==> b0.contains(v) by {
            if a0.contains(v) {
                let i = choose|i: int| 0 <= i < a0.len() && a0[i] == v;
                assert(a[i] == v);
                assert(a.contains(v));
                assert(v < x);
                let j = choose|j: int| 0 <= j < b.len() && b[j] == v;
                assert(j < b.len() - 1);
                assert(b0[j] == v);
            }
            if b0.contains(v) {
                let i = choose|i: int| 0 <= i < b0.len() && b0[i] == v;
                assert(b[i] == v);
                assert(b.contains(v));
                assert(v < y);
                let j = choose|j: int| 0 <= j < a.len() && a[j] == v;
                assert(j < a.len() - 1);
                assert(a0[j] == v);
            }
        }
        lemma_one_listing(a0, b0);
        assert(a =~= a0.push(x));
        assert(b =~= b0.push(y));
    }
}

/// A sequence that lists a set, smallest first, is the set's sorted sequence.
pub proof fn lemma_sorted_values(q: Seq<i64>, s: Set<i64>)
    requires
        lists_values(q, s),
    ensures
        sorted_values(s) == q,
{
    let p = sorted_values(s);
    let a = q.map_values(|v: i64| v as int);
    let b = p.map_values(|v: i64| v as int);
    assert forall|v: int| a.contains(v) <==> b.contains(v) by {
        if a.contains(v) {
            let i = choose|i: int| 0 <= i < a.len() && a[i] == v;
            assert(q.contains(q[i]));
            assert(p.contains(q[i]));
            let j = choose|j: int| 0 <= j < p.len() && p[j] == q[i];
            assert(b[j] == v);
        }
        if b.contains(v) {
            let i = choose|i: int| 0 <= i < b.len() && b[i] == v;
            assert(p.contains(p[i]));
            assert(q.contains(p[i]));
            let j = choose|j: int| 0 <= j < q.len() && q[j] == p[i];
            assert(a[j] == v);
        }
    }
    lemma_one_listing(a, b);
    assert forall|i: int| 0 <= i < q.len() implies q[i] == p[i] by {
        assert(a[i] == b[i]);
    }
    assert(q =~= p);
}

/// A sequence that lists a map's keys, smallest first, is the map's sorted key sequence.
pub proof fn lemma_sorted_keys(q: Seq<u32>, m: Map<u32, u8>)
    requires
        lists_keys(q, m),
    ensures
        sorted_keys(m) == q,
{
    let p = sorted_keys(m);
    let a = q.map_values(|v: u32| v as int);
    let b = p.map_values(|v: u32| v as int);
    assert forall|v: int| a.contains(v) <==> b.contains(v) by {
        if a.contains(v) {
            let i = choose|i: int| 0 <= i < a.len() && a[i] == v;
            assert(q.contains(q[i]));
            assert(p.contains(q[i]));
            let j = choose|j: int| 0 <= j < p.len() && p[j] == q[i];
            assert(b[j] == v);
        }
        if b.contains(v) {
            let i = choose|i: int| 0 <= i < b.len() && b[i] == v;
            assert(p.contains(p[i]));
            assert(q.contains(p[i]));
            let j = choose|j: int| 0 <= j < q.len() && q[j] == p[i];
            assert(a[j] == v);
        }
    }
    lemma_one_listing(a, b);
    assert forall|i: int| 0 <= i < q.len() implies q[i] == p[i] by {
        assert(a[i] == b[i]);
    }
    assert(q =~= p);
}

/// The elements of a set, smallest first.
pub fn values_in_order(set: &BTreeSet<i64>) -> (out: Vec<i64>)
    ensures
        out@ == sorted_values(set@),
        lists_values(out@, set@),
        out@.len() == set@.len(),
{
    broadcast use vstd::laws_cmp::group_laws_cmp;
    let mut out: Vec<i64> = Vec::new();
    let ghost whole = set.iter().remaining();
    for x in it: set.iter()
        invariant
            it.seq() == whole,
            out@.len() == it.index(),
            forall|k: int| 0 <= k < out@.len() ==> out@[k] == *it.seq()[k],
    {
        out.push(*x);
    }
    proof {
        assert(out@ =~= whole.unref());
        broadcast use vstd::laws_eq::group_laws_eq;
        reveal(obeys_eq_spec_properties);
        reveal(obeys_partial_cmp_spec_properties);
        reveal(obeys_cmp_partial_ord);
        reveal(obeys_cmp_ord);
        assert(obeys_eq::<&i64>());
        assert(obeys_cmp::<&i64>());
        assert(increasing_seq(whole));
        assert forall|i: int, j: int| 0 <= i < j < out@.len() implies out@[i] < out@[j] by {
            assert(OrdSpec::cmp_spec(&whole[i], &whole[j]) is Less);
        }
        assert(out@.to_set() == set@);
        assert forall|v: i64| set@.contains(v) <==> out@.contains(v) by {
            assert(out@.to_set().contains(v) <==> out@.contains(v));
        }
        lemma_sorted_values(out@, set@);
    }
    out
}

/// The entries of a map, by key, smallest first.
pub fn entries_in_order(map: &BTreeMap<u32, u8>) -> (out: Vec<(u32, u8)>)
    ensures
        out@ == sorted_entries(map@),
        lists_keys(sorted_keys(map@), map@),
        out@.len() == map@.len(),
{
    broadcast use vstd::laws_cmp::group_laws_cmp;
    let mut out: Vec<(u32, u8)> = Vec::new();
    let walk = map.iter();
    let ghost whole = walk.remaining();
    let ghost keys = whole.map_values(|kv: (&u32, &u8)| *kv.0);
    proof {
        assert(keys =~= walk.remaining().map_values(|kv: (&u32, &u8)| *kv.0));
        assert(increasing_seq(keys));
    }
    for x in it: walk
        invariant
            it.seq() == whole,
            out@.len() == it.index(),
            forall|k: int| 0 <= k < out@.len() ==> out@[k] == (*it.seq()[k].0, *it.seq()[k].1),
    {
        out.push((*x.0, *x.1));
    }
    proof {
        assert(out@ =~= whole.unref());
        assert forall|i: int, j: int| 0 <= i < j < keys.len() implies keys[i] < keys[j] by {
            assert(keys[i].cmp_spec(&keys[j]) is Less);
        }
        assert forall|k: u32| map@.contains_key(k) <==> keys.contains(k) by {
            if map@.contains_key(k) {
                assert(whole.contains((&k, &map@[k])));
                let t = choose|t: int| 0 <= t < whole.len() && whole[t] == (&k, &map@[k]);
                assert(keys[t] == k);
            }
            if keys.contains(k) {
                let t = choose|t: int| 0 <= t < keys.len() && keys[t] == k;
                assert(map@.contains_key(*whole[t].0));
            }
        }
        lemma_sorted_keys(keys, map@);
        assert forall|i: int| 0 <= i < out@.len() implies out@[i] == sorted_entries(map@)[i] by {
            assert(map@.contains_key(*whole[i].0) && map@[*whole[i].0] == *whole[i].1);
        }
        assert(out@ =~= sorted_entries(map@));
    }
    out
}

} // verus!
